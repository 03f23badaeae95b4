//! The style language's compiler: text to syntax tree.
//!
//! ```text
//! style   := meta? layer*
//! meta    := "meta" "{" (key number+ ";")* "}"      keys: width height dpi scale center
//! layer   := "layer" string block
//! block   := "{" command* "}"
//! command := "keep" expr ";" | "remove" expr ";" | "take" digits ";"
//!          | "draw" ident "(" (ident ":" value ("," ident ":" value)*)? ")" ";"
//!          | "sub" block | "offset" ident "{" (string ":" "(" patch ")" ";")* "}"
//! patch   := field ("," field)*    field: "offset" ":" number number
//!                                        | "rename" ":" string | "scale" ":" number
//! expr    := and ("||" and)*     and := unary ("&&" unary)*
//! unary   := "!" unary | "(" expr ")" | "node" | "way" | "relation"
//!          | "role" "=" string | ident "=" string
//! value   := string | "#" six hex digits | "random" | number
//! ```
//! Numbers are kept exact, as decimals. `//` starts a comment to the end of the line.
use vstd::prelude::*;
use vstd::string::StringExecFns;
use vstd::string::StrSliceExecFns;

use crate::style::{hex_digit, Color, Command, DrawKind, Filter, FilterExpr, FilterType, Layer, TextPatch};

verus! {

/// The exact number `mantissa / 10^scale`.
#[derive(PartialEq, Eq, Structural, Clone, Copy, Debug)]
pub struct Decimal {
    pub mantissa: i64,
    pub scale: u32,
}

/// A draw-call argument.
#[derive(Debug)]
pub enum ArgValue {
    Str(String),
    Color(Color),
    Number(Decimal),
    /// A pastel color drawn anew for each element.
    RandomColor,
}

/// The named arguments of a draw call, in order.
pub type DrawArgs = Vec<(String, ArgValue)>;

/// Page size in millimetres, resolution, scale denominator, and the center as
/// latitude and longitude in units of 1e-7 degree.
#[derive(Debug)]
pub struct Meta {
    pub width: Decimal,
    pub height: Decimal,
    pub dpi: Decimal,
    pub scale: Decimal,
    pub center: (Decimal, Decimal),
}

/// A compiled style: its metadata and its layers in order.
#[derive(Debug)]
pub struct Style {
    pub meta: Meta,
    pub layers: Vec<Layer<DrawArgs, Decimal>>,
}

/// Where the text stopped following the grammar, in characters from the start.
#[derive(PartialEq, Eq, Structural, Clone, Copy, Debug)]
pub struct ParseError {
    pub pos: usize,
}

/// A parse step that consumed the text up to the position it returns, or failed at
/// a position no earlier than where it began.
pub open spec fn parsed<T>(r: Result<(T, usize), usize>, pos: usize, len: int) -> bool {
    match r {
        Ok(x) => pos < x.1 <= len,
        Err(e) => pos <= e <= len,
    }
}

/// A parse step that consumed the text up to the position it returns.
pub open spec fn advanced<T>(r: Option<(T, usize)>, pos: usize, len: int) -> bool {
    r matches Some(x) ==> pos < x.1 <= len
}

pub open spec fn is_space(c: char) -> bool {
    c == ' ' || c == '\n' || c == '\t' || c == '\r'
}

pub open spec fn is_ident_char(c: char) -> bool {
    ('a' <= c <= 'z') || ('A' <= c <= 'Z') || ('0' <= c <= '9') || c == '_'
}

fn ident_char(c: char) -> (r: bool)
    ensures
        r == is_ident_char(c),
{
    ('a' <= c && c <= 'z') || ('A' <= c && c <= 'Z') || ('0' <= c && c <= '9') || c == '_'
}

/// The characters of `src`.
pub fn chars_of(src: &str) -> (r: Vec<char>)
    ensures
        r@ == src@,
{
    let n = src.unicode_len();
    let mut out: Vec<char> = Vec::new();
    let mut i: usize = 0;
    while i < n
        invariant
            n == src@.len(),
            i <= n,
            out@ == src@.take(i as int),
        decreases n - i,
    {
        out.push(src.get_char(i));
        i = i + 1;
        assert(out@ =~= src@.take(i as int));
    }
    assert(src@.take(n as int) =~= src@);
    out
}

/// The position of the first character at or after `pos` that is neither white space
/// nor inside a `//` comment.
pub fn skip_ws(s: &Vec<char>, pos: usize) -> (r: usize)
    requires
        pos <= s@.len(),
    ensures
        pos <= r <= s@.len(),
        r < s@.len() ==> !is_space(s@[r as int]),
{
    let mut p = pos;
    while p < s.len()
        invariant
            pos <= p <= s@.len(),
        decreases s@.len() - p,
    {
        let c = s[p];
        if c == ' ' || c == '\n' || c == '\t' || c == '\r' {
            p = p + 1;
        } else if c == '/' && p + 1 < s.len() && s[p + 1] == '/' {
            let p0 = p;
            p = p + 2;
            while p < s.len() && s[p] != '\n'
                invariant
                    pos <= p <= s@.len(),
                    p0 < p,
                decreases s@.len() - p,
            {
                p = p + 1;
            }
        } else {
            return p;
        }
    }
    p
}

/// After white space, the character `c`; the position after it.
fn eat(s: &Vec<char>, pos: usize, c: char) -> (r: Option<usize>)
    requires
        pos <= s@.len(),
    ensures
        r matches Some(q) ==> pos < q <= s@.len() && s@[q - 1] == c,
{
    let p = skip_ws(s, pos);
    if p < s.len() && s[p] == c {
        Some(p + 1)
    } else {
        None
    }
}

/// After white space, an identifier; it and the position after it.
fn ident(src: &str, s: &Vec<char>, pos: usize) -> (r: Option<(String, usize)>)
    requires
        pos <= s@.len(),
        s@ == src@,
    ensures
        advanced(r, pos, s@.len() as int),
        r matches Some((w, q)) ==> w@.len() > 0 && w@.len() <= q && w@ == s@.subrange(q - w@.len(), q as int)
            && forall|i: int| 0 <= i < w@.len() ==> is_ident_char(#[trigger] w@[i]),
{
    let start = skip_ws(s, pos);
    let mut p = start;
    while p < s.len() && ident_char(s[p])
        invariant
            start <= p <= s@.len(),
            forall|i: int| start <= i < p ==> is_ident_char(#[trigger] s@[i]),
        decreases s@.len() - p,
    {
        p = p + 1;
    }
    if p == start {
        return None;
    }
    let w = String::from_str(src.substring_char(start, p));
    assert forall|i: int| 0 <= i < w@.len() implies is_ident_char(#[trigger] w@[i]) by {
        assert(w@[i] == s@[start + i]);
    }
    Some((w, p))
}

/// After white space, the keyword `kw`; the position after it.
fn keyword(src: &str, s: &Vec<char>, pos: usize, kw: &str) -> (r: Option<usize>)
    requires
        pos <= s@.len(),
        s@ == src@,
    ensures
        r matches Some(q) ==> pos < q <= s@.len() && is_ident_char(s@[q - 1]),
{
    match ident(src, s, pos) {
        Some((w, q)) => {
            assert(is_ident_char(w@[w@.len() - 1]));
            assert(s@.subrange(q - w@.len(), q as int)[w@.len() - 1] == s@[q - 1]);
            assert(w@[w@.len() - 1] == s@[q - 1]);
            if w == String::from_str(kw) {
                Some(q)
            } else {
                None
            }
        },
        None => None,
    }
}

/// After white space, a double-quoted string without escapes; its contents and the
/// position after the closing quote.
fn string_lit(src: &str, s: &Vec<char>, pos: usize) -> (r: Option<(String, usize)>)
    requires
        pos <= s@.len(),
        s@ == src@,
    ensures
        advanced(r, pos, s@.len() as int),
        r matches Some((v, q)) ==> v@ == s@.subrange(q - 1 - v@.len(), q - 1) && s@[q - 1]
            == '"',
{
    let start = match eat(s, pos, '"') {
        Some(p) => p,
        None => {
            return None;
        },
    };
    let mut p = start;
    while p < s.len() && s[p] != '"'
        invariant
            start <= p <= s@.len(),
        decreases s@.len() - p,
    {
        p = p + 1;
    }
    if p >= s.len() {
        return None;
    }
    let v = String::from_str(src.substring_char(start, p));
    Some((v, p + 1))
}

/// After white space, a run of decimal digits as a `usize`; `None` on overflow.
fn uint(s: &Vec<char>, pos: usize) -> (r: Option<(usize, usize)>)
    requires
        pos <= s@.len(),
    ensures
        advanced(r, pos, s@.len() as int),
{
    let start = skip_ws(s, pos);
    let mut p = start;
    let mut v: usize = 0;
    while p < s.len() && '0' <= s[p] && s[p] <= '9'
        invariant
            start <= p <= s@.len(),
        decreases s@.len() - p,
    {
        let d = (s[p] as u32 - '0' as u32) as usize;
        v = match v.checked_mul(10) {
            Some(x) => match x.checked_add(d) {
                Some(y) => y,
                None => {
                    return None;
                },
            },
            None => {
                return None;
            },
        };
        p = p + 1;
    }
    if p == start {
        None
    } else {
        Some((v, p))
    }
}

/// After white space, an optionally negative decimal number with an optional
/// fraction; `None` when it does not fit.
fn number(s: &Vec<char>, pos: usize) -> (r: Option<(Decimal, usize)>)
    requires
        pos <= s@.len(),
    ensures
        advanced(r, pos, s@.len() as int),
{
    let mut p = skip_ws(s, pos);
    let neg = p < s.len() && s[p] == '-';
    if neg {
        p = p + 1;
    }
    let digits_start = p;
    let mut m: i64 = 0;
    let mut scale: u32 = 0;
    let mut in_fraction = false;
    while p < s.len() && (('0' <= s[p] && s[p] <= '9') || (s[p] == '.' && !in_fraction))
        invariant
            pos <= digits_start <= p <= s@.len(),
            0 <= m,
        decreases s@.len() - p,
    {
        if s[p] == '.' {
            in_fraction = true;
        } else {
            let d = (s[p] as u32 - '0' as u32) as i64;
            m = match m.checked_mul(10) {
                Some(x) => match x.checked_add(d) {
                    Some(y) => y,
                    None => {
                        return None;
                    },
                },
                None => {
                    return None;
                },
            };
            if in_fraction {
                scale = match scale.checked_add(1) {
                    Some(x) => x,
                    None => {
                        return None;
                    },
                };
            }
        }
        p = p + 1;
    }
    if p == digits_start {
        return None;
    }
    let mantissa = if neg {
        -m
    } else {
        m
    };
    Some((Decimal { mantissa, scale }, p))
}

/// After white space, `#` and six hexadecimal digits.
fn color_lit(s: &Vec<char>, pos: usize) -> (r: Option<(Color, usize)>)
    requires
        pos <= s@.len(),
    ensures
        advanced(r, pos, s@.len() as int),
{
    let start = match eat(s, pos, '#') {
        Some(p) => p,
        None => {
            return None;
        },
    };
    if s.len() - start < 6 {
        return None;
    }
    let n = s.len();
    let mut v: [u8; 6] = [0u8; 6];
    let mut i: usize = 0;
    while i < 6
        invariant
            n == s@.len(),
            start + 6 <= n,
            i <= 6,
            forall|j: int| 0 <= j < i ==> #[trigger] v@[j] < 16,
        decreases 6 - i,
    {
        match hex_digit(s[start + i]) {
            Some(d) => {
                v[i] = d;
            },
            None => {
                return None;
            },
        }
        i = i + 1;
    }
    assert(v@[0] < 16 && v@[1] < 16 && v@[2] < 16 && v@[3] < 16 && v@[4] < 16 && v@[5] < 16);
    let c = Color { r: v[0] * 16 + v[1], g: v[2] * 16 + v[3], b: v[4] * 16 + v[5] };
    Some((c, start + 6))
}


/// After white space, the two characters `a` then `b`.
fn eat2(s: &Vec<char>, pos: usize, a: char, b: char) -> (r: Option<usize>)
    requires
        pos <= s@.len(),
    ensures
        r matches Some(q) ==> pos < q <= s@.len(),
{
    match eat(s, pos, a) {
        Some(p) => if p < s.len() && s[p] == b {
            Some(p + 1)
        } else {
            None
        },
        None => None,
    }
}

fn expr_or(src: &str, s: &Vec<char>, pos: usize) -> (r: Result<(FilterExpr, usize), usize>)
    requires
        pos <= s@.len(),
        s@ == src@,
    ensures
        parsed(r, pos, s@.len() as int),
    decreases s@.len() - pos, 2int,
{
    let (mut e, mut p) = match expr_and(src, s, pos) {
            Ok(x) => x,
            Err(e) => {
                return Err(e);
            },
        };
    loop
        invariant
            pos < p <= s@.len(),
            s@ == src@,
        decreases s@.len() - p,
    {
        match eat2(s, p, '|', '|') {
            Some(q) => {
                let (r, p2) = match expr_and(src, s, q) {
            Ok(x) => x,
            Err(e) => {
                return Err(e);
            },
        };
                e = FilterExpr::Or(Box::new(e), Box::new(r));
                p = p2;
            },
            None => {
                return Ok((e, p));
            },
        }
    }
}

fn expr_and(src: &str, s: &Vec<char>, pos: usize) -> (r: Result<(FilterExpr, usize), usize>)
    requires
        pos <= s@.len(),
        s@ == src@,
    ensures
        parsed(r, pos, s@.len() as int),
    decreases s@.len() - pos, 1int,
{
    let (mut e, mut p) = match expr_unary(src, s, pos) {
            Ok(x) => x,
            Err(e) => {
                return Err(e);
            },
        };
    loop
        invariant
            pos < p <= s@.len(),
            s@ == src@,
        decreases s@.len() - p,
    {
        match eat2(s, p, '&', '&') {
            Some(q) => {
                let (r, p2) = match expr_unary(src, s, q) {
            Ok(x) => x,
            Err(e) => {
                return Err(e);
            },
        };
                e = FilterExpr::And(Box::new(e), Box::new(r));
                p = p2;
            },
            None => {
                return Ok((e, p));
            },
        }
    }
}

fn expr_unary(src: &str, s: &Vec<char>, pos: usize) -> (r: Result<(FilterExpr, usize), usize>)
    requires
        pos <= s@.len(),
        s@ == src@,
    ensures
        parsed(r, pos, s@.len() as int),
    decreases s@.len() - pos, 0int,
{
    if let Some(q) = eat(s, pos, '!') {
        return match expr_unary(src, s, q) {
            Ok((e, p)) => Ok((FilterExpr::Not(Box::new(e)), p)),
            Err(e) => Err(e),
        };
    }
    if let Some(q) = eat(s, pos, '(') {
        let (e, p) = match expr_or(src, s, q) {
            Ok(x) => x,
            Err(e) => {
                return Err(e);
            },
        };
        return match eat(s, p, ')') {
            Some(p2) => Ok((e, p2)),
            None => Err(skip_ws(s, p)),
        };
    }
    let (w, q) = match ident(src, s, pos) {
            Some(x) => x,
            None => {
                return Err(skip_ws(s, pos));
            },
        };
    if w == String::from_str("node") {
        return Ok((FilterExpr::Filter(Filter::IsNode), q));
    }
    if w == String::from_str("way") {
        return Ok((FilterExpr::Filter(Filter::IsWay), q));
    }
    if w == String::from_str("relation") {
        return Ok((FilterExpr::Filter(Filter::IsRelation), q));
    }
    let q2 = match eat(s, q, '=') {
            Some(x) => x,
            None => {
                return Err(skip_ws(s, q));
            },
        };
    let (pat, p) = match string_lit(src, s, q2) {
            Some(x) => x,
            None => {
                return Err(skip_ws(s, q2));
            },
        };
    if w == String::from_str("role") {
        Ok((FilterExpr::Filter(Filter::MatchRole(pat)), p))
    } else {
        Ok((FilterExpr::Filter(Filter::Match(w, pat)), p))
    }
}

fn arg_value(src: &str, s: &Vec<char>, pos: usize) -> (r: Result<(ArgValue, usize), usize>)
    requires
        pos <= s@.len(),
        s@ == src@,
    ensures
        parsed(r, pos, s@.len() as int),
{
    if let Some((v, p)) = string_lit(src, s, pos) {
        return Ok((ArgValue::Str(v), p));
    }
    if let Some((c, p)) = color_lit(s, pos) {
        return Ok((ArgValue::Color(c), p));
    }
    if let Some(p) = keyword(src, s, pos, "random") {
        return Ok((ArgValue::RandomColor, p));
    }
    match number(s, pos) {
        Some((d, p)) => Ok((ArgValue::Number(d), p)),
        None => Err(skip_ws(s, pos)),
    }
}

/// `(` named arguments `)`.
fn draw_args(src: &str, s: &Vec<char>, pos: usize) -> (r: Result<(DrawArgs, usize), usize>)
    requires
        pos <= s@.len(),
        s@ == src@,
    ensures
        parsed(r, pos, s@.len() as int),
{
    let mut p = match eat(s, pos, '(') {
            Some(x) => x,
            None => {
                return Err(skip_ws(s, pos));
            },
        };
    let mut args: DrawArgs = Vec::new();
    if let Some(q) = eat(s, p, ')') {
        return Ok((args, q));
    }
    loop
        invariant
            pos < p <= s@.len(),
            s@ == src@,
        decreases s@.len() - p,
    {
        let (name, q) = match ident(src, s, p) {
            Some(x) => x,
            None => {
                return Err(skip_ws(s, p));
            },
        };
        let q = match eat(s, q, ':') {
            Some(x) => x,
            None => {
                return Err(skip_ws(s, q));
            },
        };
        let (v, q) = match arg_value(src, s, q) {
            Ok(x) => x,
            Err(e) => {
                return Err(e);
            },
        };
        args.push((name, v));
        if let Some(q2) = eat(s, q, ')') {
            return Ok((args, q2));
        }
        p = match eat(s, q, ',') {
            Some(x) => x,
            None => {
                return Err(skip_ws(s, q));
            },
        };
    }
}

/// `(` patch fields `)`.
fn patch(src: &str, s: &Vec<char>, pos: usize) -> (r: Result<(TextPatch<Decimal>, usize), usize>)
    requires
        pos <= s@.len(),
        s@ == src@,
    ensures
        parsed(r, pos, s@.len() as int),
{
    let mut p = match eat(s, pos, '(') {
            Some(x) => x,
            None => {
                return Err(skip_ws(s, pos));
            },
        };
    let mut t: TextPatch<Decimal> = TextPatch::new();
    loop
        invariant
            pos < p <= s@.len(),
            s@ == src@,
        decreases s@.len() - p,
    {
        let (name, q) = match ident(src, s, p) {
            Some(x) => x,
            None => {
                return Err(skip_ws(s, p));
            },
        };
        let q = match eat(s, q, ':') {
            Some(x) => x,
            None => {
                return Err(skip_ws(s, q));
            },
        };
        let q = if name == String::from_str("offset") {
            let (x, q1) = match number(s, q) {
            Some(v) => v,
            None => {
                return Err(skip_ws(s, q));
            },
        };
            let (y, q2) = match number(s, q1) {
            Some(v) => v,
            None => {
                return Err(skip_ws(s, q1));
            },
        };
            t.offset = Some((x, y));
            q2
        } else if name == String::from_str("rename") {
            let (v, q1) = match string_lit(src, s, q) {
            Some(v) => v,
            None => {
                return Err(skip_ws(s, q));
            },
        };
            t.rename = Some(v);
            q1
        } else if name == String::from_str("scale") {
            let (v, q1) = match number(s, q) {
            Some(v) => v,
            None => {
                return Err(skip_ws(s, q));
            },
        };
            t.scale = Some(v);
            q1
        } else {
            return Err(skip_ws(s, p));
        };
        if let Some(q2) = eat(s, q, ')') {
            return Ok((t, q2));
        }
        p = match eat(s, q, ',') {
            Some(x) => x,
            None => {
                return Err(skip_ws(s, q));
            },
        };
    }
}

/// `{` entries `}` of an offset command.
fn offset_table(src: &str, s: &Vec<char>, pos: usize) -> (r: Result<(Vec<(String, TextPatch<Decimal>)>, usize), usize>)
    requires
        pos <= s@.len(),
        s@ == src@,
    ensures
        parsed(r, pos, s@.len() as int),
{
    let mut p = match eat(s, pos, '{') {
            Some(x) => x,
            None => {
                return Err(skip_ws(s, pos));
            },
        };
    let mut out: Vec<(String, TextPatch<Decimal>)> = Vec::new();
    loop
        invariant
            pos < p <= s@.len(),
            s@ == src@,
        decreases s@.len() - p,
    {
        if let Some(q) = eat(s, p, '}') {
            return Ok((out, q));
        }
        let (v, q) = match string_lit(src, s, p) {
            Some(x) => x,
            None => {
                return Err(skip_ws(s, p));
            },
        };
        let q = match eat(s, q, ':') {
            Some(x) => x,
            None => {
                return Err(skip_ws(s, q));
            },
        };
        let (t, q) = match patch(src, s, q) {
            Ok(x) => x,
            Err(e) => {
                return Err(e);
            },
        };
        p = match eat(s, q, ';') {
            Some(x) => x,
            None => {
                return Err(skip_ws(s, q));
            },
        };
        out.push((v, t));
    }
}

/// `{` commands `}`.
fn block(src: &str, s: &Vec<char>, pos: usize) -> (r: Result<(Vec<Command<DrawArgs, Decimal>>, usize), usize>)
    requires
        pos <= s@.len(),
        s@ == src@,
    ensures
        parsed(r, pos, s@.len() as int),
    decreases s@.len() - pos,
{
    let mut p = match eat(s, pos, '{') {
            Some(x) => x,
            None => {
                return Err(skip_ws(s, pos));
            },
        };
    let mut out: Vec<Command<DrawArgs, Decimal>> = Vec::new();
    loop
        invariant
            pos < p <= s@.len(),
            s@ == src@,
        decreases s@.len() - p,
    {
        if let Some(q) = eat(s, p, '}') {
            return Ok((out, q));
        }
        let (c, q) = match command(src, s, p) {
            Ok(x) => x,
            Err(e) => {
                return Err(e);
            },
        };
        out.push(c);
        p = q;
    }
}

/// A statement ending in `;`.
fn end(s: &Vec<char>, pos: usize) -> (r: Option<usize>)
    requires
        pos <= s@.len(),
    ensures
        r matches Some(q) ==> pos < q <= s@.len(),
{
    eat(s, pos, ';')
}

fn command(src: &str, s: &Vec<char>, pos: usize) -> (r: Result<(Command<DrawArgs, Decimal>, usize), usize>)
    requires
        pos <= s@.len(),
        s@ == src@,
    ensures
        parsed(r, pos, s@.len() as int),
    decreases s@.len() - pos,
{
    let (w, q) = match ident(src, s, pos) {
            Some(x) => x,
            None => {
                return Err(skip_ws(s, pos));
            },
        };
    if w == String::from_str("keep") || w == String::from_str("remove") {
        let t = if w == String::from_str("keep") {
            FilterType::Keep
        } else {
            FilterType::Remove
        };
        let (e, p) = match expr_or(src, s, q) {
            Ok(x) => x,
            Err(e) => {
                return Err(e);
            },
        };
        return match end(s, p) {
            Some(p2) => Ok((Command::Filter(t, e), p2)),
            None => Err(skip_ws(s, p)),
        };
    }
    if w == String::from_str("take") {
        let (n, p) = match uint(s, q) {
            Some(x) => x,
            None => {
                return Err(skip_ws(s, q));
            },
        };
        return match end(s, p) {
            Some(p2) => Ok((Command::Take(n), p2)),
            None => Err(skip_ws(s, p)),
        };
    }
    if w == String::from_str("draw") {
        let (name, p) = match ident(src, s, q) {
            Some(x) => x,
            None => {
                return Err(skip_ws(s, q));
            },
        };
        let (args, p) = match draw_args(src, s, p) {
            Ok(x) => x,
            Err(e) => {
                return Err(e);
            },
        };
        return match end(s, p) {
            Some(p2) => Ok((Command::DrawFunc { ty: DrawKind::from_name(&name), args }, p2)),
            None => Err(skip_ws(s, p)),
        };
    }
    if w == String::from_str("sub") {
        return match block(src, s, q) {
            Ok((cmds, p)) => Ok((Command::Sub(cmds), p)),
            Err(e) => Err(e),
        };
    }
    if w == String::from_str("offset") {
        let (key, p) = match ident(src, s, q) {
            Some(x) => x,
            None => {
                return Err(skip_ws(s, q));
            },
        };
        return match offset_table(src, s, p) {
            Ok((offsets, p2)) => Ok((Command::OffsetText { key, offsets }, p2)),
            Err(e) => Err(e),
        };
    }
    Err(skip_ws(s, pos))
}

fn meta_block(src: &str, s: &Vec<char>, pos: usize) -> (r: Result<(Meta, usize), usize>)
    requires
        pos <= s@.len(),
        s@ == src@,
    ensures
        parsed(r, pos, s@.len() as int),
{
    let mut meta = default_meta();
    let mut p = match eat(s, pos, '{') {
            Some(x) => x,
            None => {
                return Err(skip_ws(s, pos));
            },
        };
    loop
        invariant
            pos < p <= s@.len(),
            s@ == src@,
        decreases s@.len() - p,
    {
        if let Some(q) = eat(s, p, '}') {
            return Ok((meta, q));
        }
        let (key, q) = match ident(src, s, p) {
            Some(x) => x,
            None => {
                return Err(skip_ws(s, p));
            },
        };
        let (v, q) = match number(s, q) {
            Some(x) => x,
            None => {
                return Err(skip_ws(s, q));
            },
        };
        let q = if key == String::from_str("center") {
            let (v2, q2) = match number(s, q) {
            Some(x) => x,
            None => {
                return Err(skip_ws(s, q));
            },
        };
            meta.center = (v, v2);
            q2
        } else if key == String::from_str("width") {
            meta.width = v;
            q
        } else if key == String::from_str("height") {
            meta.height = v;
            q
        } else if key == String::from_str("dpi") {
            meta.dpi = v;
            q
        } else if key == String::from_str("scale") {
            meta.scale = v;
            q
        } else {
            return Err(skip_ws(s, p));
        };
        p = match end(s, q) {
            Some(x) => x,
            None => {
                return Err(skip_ws(s, q));
            },
        };
    }
}

/// The metadata of a style without a `meta` block: an A4 page at 96 dpi, scale
/// 1:10000, centered on latitude and longitude 0.
pub fn default_meta() -> (m: Meta)
    ensures
        m.width == (Decimal { mantissa: 210, scale: 0 }),
        m.height == (Decimal { mantissa: 297, scale: 0 }),
        m.dpi == (Decimal { mantissa: 96, scale: 0 }),
        m.scale == (Decimal { mantissa: 10000, scale: 0 }),
        m.center == (Decimal { mantissa: 0, scale: 0 }, Decimal { mantissa: 0, scale: 0 }),
{
    let zero = Decimal { mantissa: 0, scale: 0 };
    Meta {
        width: Decimal { mantissa: 210, scale: 0 },
        height: Decimal { mantissa: 297, scale: 0 },
        dpi: Decimal { mantissa: 96, scale: 0 },
        scale: Decimal { mantissa: 10000, scale: 0 },
        center: (zero, zero),
    }
}

/// The text holds nothing but white space.
pub open spec fn blank(s: Seq<char>) -> bool {
    forall|i: int| 0 <= i < s.len() ==> is_space(#[trigger] s[i])
}

/// Compiles a style. On failure, the position where the text stopped following the
/// grammar; no partial style is returned. Blank text is the style with no layer.
pub fn parse_style(src: &str) -> (r: Result<Style, ParseError>)
    ensures
        r matches Err(e) ==> e.pos <= src@.len(),
        blank(src@) ==> (r matches Ok(st) && st.layers@.len() == 0),
{
    let s = chars_of(src);
    let mut p: usize = 0;
    let mut meta = default_meta();
    if let Some(q) = keyword(src, &s, p, "meta") {
        match meta_block(src, &s, q) {
            Ok((m, q2)) => {
                meta = m;
                p = q2;
            },
            Err(e) => {
                return Err(ParseError { pos: e });
            },
        }
    }
    let mut layers: Vec<Layer<DrawArgs, Decimal>> = Vec::new();
    loop
        invariant
            p <= s@.len(),
            s@ == src@,
            blank(src@) ==> p == 0 && layers@.len() == 0,
        decreases s@.len() - p,
    {
        let at = skip_ws(&s, p);
        if at == s.len() {
            return Ok(Style { meta, layers });
        }
        let q = match keyword(src, &s, at, "layer") {
            Some(x) => x,
            None => {
                return Err(ParseError { pos: at });
            },
        };
        let (name, q) = match string_lit(src, &s, q) {
            Some(x) => x,
            None => {
                return Err(ParseError { pos: skip_ws(&s, q) });
            },
        };
        let (commands, q) = match block(src, &s, q) {
            Ok(x) => x,
            Err(e) => {
                return Err(ParseError { pos: e });
            },
        };
        layers.push(Layer { name, commands });
        p = q;
    }
}

} // verus!
