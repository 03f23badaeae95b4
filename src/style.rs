//! The style language's syntax tree: filters, draw calls, sub-selections and label
//! overrides. Numeric label offsets and sizes (`N`) and draw-call arguments (`A`)
//! are carried through unread.
use vstd::prelude::*;
use vstd::string::StringExecFns;
use vstd::string::StrSliceExecFns;

verus! {

#[derive(Debug)]
pub enum Filter {
    IsNode,
    IsWay,
    IsRelation,
    /// A tag key and a wildcard pattern for its value.
    Match(String, String),
    /// A wildcard pattern for the role of a relation member.
    MatchRole(String),
}

#[derive(PartialEq, Eq, Structural, Clone, Copy, Debug)]
pub enum FilterType {
    Keep,
    Remove,
}

#[derive(Debug)]
pub enum FilterExpr {
    And(Box<FilterExpr>, Box<FilterExpr>),
    Or(Box<FilterExpr>, Box<FilterExpr>),
    Not(Box<FilterExpr>),
    Filter(Filter),
}

#[derive(PartialEq, Eq, Structural, Clone, Copy, Debug)]
pub struct Color {
    pub r: u8,
    pub g: u8,
    pub b: u8,
}

/// `s` without its leading `#` characters.
pub open spec fn strip_hashes(s: Seq<char>) -> Seq<char>
    decreases s.len(),
{
    if s.len() > 0 && s[0] == '#' {
        strip_hashes(s.drop_first())
    } else {
        s
    }
}

/// The value of a hexadecimal digit, upper or lower case.
pub open spec fn hex_value(c: char) -> Option<u8> {
    if '0' <= c <= '9' {
        Some((c as u32 - '0' as u32) as u8)
    } else if 'a' <= c <= 'f' {
        Some((c as u32 - 'a' as u32 + 10) as u8)
    } else if 'A' <= c <= 'F' {
        Some((c as u32 - 'A' as u32 + 10) as u8)
    } else {
        None
    }
}

/// `s` begins with six hexadecimal digits.
pub open spec fn six_hex_digits(s: Seq<char>) -> bool {
    s.len() >= 6 && forall|i: int| 0 <= i < 6 ==> #[trigger] hex_value(s[i]) is Some
}

/// The byte that two hexadecimal digits spell.
pub open spec fn hex_byte(hi: char, lo: char) -> int {
    hex_value(hi).unwrap() * 16 + hex_value(lo).unwrap()
}

pub fn hex_digit(c: char) -> (r: Option<u8>)
    ensures
        r == hex_value(c),
{
    if '0' <= c && c <= '9' {
        Some((c as u32 - '0' as u32) as u8)
    } else if 'a' <= c && c <= 'f' {
        Some((c as u32 - 'a' as u32 + 10) as u8)
    } else if 'A' <= c && c <= 'F' {
        Some((c as u32 - 'A' as u32 + 10) as u8)
    } else {
        None
    }
}

impl Color {
    /// The color written `rrggbb` in hexadecimal, after any leading `#`.
    pub fn new(hex: &str) -> (c: Color)
        requires
            six_hex_digits(strip_hashes(hex@)),
        ensures
            c.r == hex_byte(strip_hashes(hex@)[0], strip_hashes(hex@)[1]),
            c.g == hex_byte(strip_hashes(hex@)[2], strip_hashes(hex@)[3]),
            c.b == hex_byte(strip_hashes(hex@)[4], strip_hashes(hex@)[5]),
    {
        let n = hex.unicode_len();
        let mut start: usize = 0;
        assert(hex@.skip(0) =~= hex@);
        while start < n && hex.get_char(start) == '#'
            invariant
                n == hex@.len(),
                start <= n,
                strip_hashes(hex@.skip(start as int)) == strip_hashes(hex@),
            decreases n - start,
        {
            proof {
                assert(hex@.skip(start as int).drop_first() =~= hex@.skip(start + 1));
            }
            start = start + 1;
        }
        let ghost t = hex@.skip(start as int);
        proof {
            if t.len() > 0 {
                assert(t[0] == hex@[start as int]);
            }
            assert(strip_hashes(t) == t);
        }
        let mut v: [u8; 6] = [0u8; 6];
        let mut i: usize = 0;
        while i < 6
            invariant
                t == strip_hashes(hex@),
                t == hex@.skip(start as int),
                six_hex_digits(t),
                n == hex@.len(),
                start + t.len() == n,
                i <= 6,
                forall|j: int| 0 <= j < i ==> Some(#[trigger] v@[j]) == hex_value(t[j]),
            decreases 6 - i,
        {
            assert(hex@[start + i] == t[i as int]);
            assert(hex_value(t[i as int]) is Some);
            let d = hex_digit(hex.get_char(start + i));
            match d {
                Some(x) => {
                    v[i] = x;
                },
                None => {},
            }
            i = i + 1;
        }
        let r = v[0] as u16 * 16 + v[1] as u16;
        let g = v[2] as u16 * 16 + v[3] as u16;
        let b = v[4] as u16 * 16 + v[5] as u16;
        assert(hex_value(t[0]) == Some(v@[0]) && v@[0] < 16);
        assert(hex_value(t[1]) == Some(v@[1]) && v@[1] < 16);
        assert(hex_value(t[2]) == Some(v@[2]) && v@[2] < 16);
        assert(hex_value(t[3]) == Some(v@[3]) && v@[3] < 16);
        assert(hex_value(t[4]) == Some(v@[4]) && v@[4] < 16);
        assert(hex_value(t[5]) == Some(v@[5]) && v@[5] < 16);
        Color { r: r as u8, g: g as u8, b: b as u8 }
    }
}

/// A partial override of an element's label: offset, replacement text, size delta.
#[derive(Debug)]
pub struct TextPatch<N> {
    pub offset: Option<(N, N)>,
    pub rename: Option<String>,
    pub scale: Option<N>,
}

/// A label override as values: offset, replacement text, size delta.
pub type PatchView<N> = (Option<(N, N)>, Option<Seq<char>>, Option<N>);

/// The view of an optional string.
pub open spec fn opt_view(s: Option<String>) -> Option<Seq<char>> {
    match s {
        Some(x) => Some(x@),
        None => None,
    }
}

/// Field-wise overlay: a field of `b` that is set wins, else the field of `a` stays.
pub open spec fn merge_view<N>(a: PatchView<N>, b: PatchView<N>) -> PatchView<N> {
    (
        if b.0 is Some { b.0 } else { a.0 },
        if b.1 is Some { b.1 } else { a.1 },
        if b.2 is Some { b.2 } else { a.2 },
    )
}

pub fn copy_opt_string(s: &Option<String>) -> (r: Option<String>)
    ensures
        opt_view(r) == opt_view(*s),
{
    match s {
        Some(x) => Some(x.clone()),
        None => None,
    }
}

impl<N: Copy> TextPatch<N> {
    pub open spec fn view(&self) -> PatchView<N> {
        (self.offset, opt_view(self.rename), self.scale)
    }

    /// The patch that overrides nothing.
    pub fn new() -> (r: TextPatch<N>)
        ensures
            r@ == (None::<(N, N)>, None::<Seq<char>>, None::<N>),
    {
        TextPatch { offset: None, rename: None, scale: None }
    }

    /// `other` laid over `self`: each field that `other` sets replaces that of `self`.
    pub fn merge(&self, other: TextPatch<N>) -> (r: TextPatch<N>)
        ensures
            r@ == merge_view(self@, other@),
    {
        let offset = match other.offset {
            Some(o) => Some(o),
            None => self.offset,
        };
        let rename = match other.rename {
            Some(s) => Some(s),
            None => copy_opt_string(&self.rename),
        };
        let scale = match other.scale {
            Some(s) => Some(s),
            None => self.scale,
        };
        TextPatch { offset, rename, scale }
    }

    /// A copy of this patch.
    pub fn duplicate(&self) -> (r: TextPatch<N>)
        ensures
            r@ == self@,
    {
        TextPatch { offset: self.offset, rename: copy_opt_string(&self.rename), scale: self.scale }
    }
}

/// The draw primitives, resolved from a draw call's name.
#[derive(Debug)]
pub enum DrawKind {
    Polyfill,
    Outline,
    Dot,
    Text,
    /// A name that no primitive has; drawing it does nothing.
    Unknown(String),
}

impl DrawKind {
    /// Resolves a draw-call name; any other name gives `Unknown` with that name.
    pub fn from_name(name: &String) -> (r: DrawKind)
        ensures
            name@ == "Polyfill"@ ==> r is Polyfill,
            name@ == "Outline"@ ==> r is Outline,
            name@ == "Dot"@ ==> r is Dot,
            name@ == "Text"@ ==> r is Text,
            name@ != "Polyfill"@ && name@ != "Outline"@ && name@ != "Dot"@ && name@ != "Text"@
                ==> (r matches DrawKind::Unknown(n) && n@ == name@),
    {
        proof {
            reveal_strlit("Polyfill");
            reveal_strlit("Outline");
            reveal_strlit("Dot");
            reveal_strlit("Text");
            assert("Polyfill"@.len() == 8 && "Outline"@.len() == 7 && "Dot"@.len() == 3 && "Text"@.len() == 4);
        }
        if *name == String::from_str("Polyfill") {
            DrawKind::Polyfill
        } else if *name == String::from_str("Outline") {
            DrawKind::Outline
        } else if *name == String::from_str("Dot") {
            DrawKind::Dot
        } else if *name == String::from_str("Text") {
            DrawKind::Text
        } else {
            DrawKind::Unknown(name.clone())
        }
    }
}

/// One command of a layer.
#[derive(Debug)]
pub enum Command<A, N> {
    /// Keep the first `n` elements.
    Take(usize),
    /// Keep, or remove, the elements that satisfy the expression.
    Filter(FilterType, FilterExpr),
    /// Draw the selection with a primitive and its arguments.
    DrawFunc { ty: DrawKind, args: A },
    /// Run the commands once per selected relation, over its members.
    Sub(Vec<Command<A, N>>),
    /// Lay the patch listed for an element's value of tag `key` over its label patch;
    /// a later entry for the same value wins.
    OffsetText { key: String, offsets: Vec<(String, TextPatch<N>)> },
}

/// A named list of commands.
#[derive(Debug)]
pub struct Layer<A, N> {
    pub name: String,
    pub commands: Vec<Command<A, N>>,
}

} // verus!
