//! Wildcard patterns: `*` alone matches anything; a pattern free of the
//! metacharacters `* ? | [ ] { } \` matches by equality; any other pattern is a
//! regular expression, anchored at both ends, in which each `*` matches any run of
//! characters.
use vstd::prelude::*;
use vstd::string::StringExecFns;
use vstd::string::StrSliceExecFns;

verus! {

/// Whether `c` makes a pattern go through the regular-expression engine.
pub open spec fn is_meta(c: char) -> bool {
    c == '*' || c == '?' || c == '|' || c == '[' || c == ']' || c == '{' || c == '}' || c == '\\'
}

/// Whether a pattern holds a metacharacter.
pub open spec fn has_meta(p: Seq<char>) -> bool {
    exists|i: int| 0 <= i < p.len() && is_meta(#[trigger] p[i])
}

/// `p` with each `*` replaced by `.*`.
pub open spec fn star_to_regex(p: Seq<char>) -> Seq<char>
    decreases p.len(),
{
    if p.len() == 0 {
        Seq::empty()
    } else {
        star_to_regex(p.drop_last()) + (if p.last() == '*' {
            seq!['.', '*']
        } else {
            seq![p.last()]
        })
    }
}

/// The regular expression a wildcard pattern stands for, anchored at both ends.
pub open spec fn anchored(p: Seq<char>) -> Seq<char> {
    seq!['^'] + star_to_regex(p) + seq!['$']
}

/// Whether the regular expression `pattern` matches somewhere in `text`; `None`
/// where `pattern` is not a valid regular expression.
pub uninterp spec fn regex_match_of(pattern: Seq<char>, text: Seq<char>) -> Option<bool>;

/// Relies on regex::Regex::new and regex::Regex::is_match: whether the compiled
/// expression matches in `text`, or `None` where it does not compile. The result
/// depends on the two strings alone.
#[verifier::external_body]
fn regex_is_match(pattern: &str, text: &str) -> (r: Option<bool>)
    ensures
        r == regex_match_of(pattern@, text@),
{
    match regex::Regex::new(pattern) {
        Ok(re) => Some(re.is_match(text)),
        Err(_) => None,
    }
}

/// Whether `s` matches the wildcard pattern `p`. An invalid expression matches nothing.
pub open spec fn wildcard_spec(s: Seq<char>, p: Seq<char>) -> bool {
    if p == seq!['*'] {
        true
    } else if !has_meta(p) {
        s == p
    } else {
        regex_match_of(anchored(p), s) == Some(true)
    }
}

/// The anchored regular expression for wildcard pattern `p`.
pub fn wildcard_pattern(p: &str) -> (r: String)
    ensures
        r@ == anchored(p@),
{
    let n = p.unicode_len();
    let mut r = String::from_str("^");
    proof {
        reveal_strlit("^");
        reveal_strlit(".*");
        reveal_strlit("$");
    }
    let mut i: usize = 0;
    while i < n
        invariant
            n == p@.len(),
            i <= n,
            r@ == seq!['^'] + star_to_regex(p@.take(i as int)),
        decreases n - i,
    {
        let c = p.get_char(i);
        let ghost before = r@;
        if c == '*' {
            r.append(".*");
        } else {
            r.append(p.substring_char(i, i + 1));
        }
        proof {
            let q = p@.take(i + 1);
            assert(q.drop_last() =~= p@.take(i as int));
            assert(q.last() == c);
            assert(p@.subrange(i as int, i + 1) =~= seq![c]);
            reveal_strlit(".*");
            assert(".*"@.len() == 2 && ".*"@[0] == '.' && ".*"@[1] == '*');
            assert(".*"@ =~= seq!['.', '*']);
            let tail = if c == '*' {
                seq!['.', '*']
            } else {
                seq![c]
            };
            assert(star_to_regex(q) == star_to_regex(p@.take(i as int)) + tail);
            assert(r@ == before + tail);
            assert(r@ =~= seq!['^'] + star_to_regex(q));
        }
        i = i + 1;
    }
    r.append("$");
    assert(p@.take(n as int) =~= p@);
    assert(r@ =~= anchored(p@));
    r
}

/// Whether `p` holds a metacharacter.
pub fn pattern_has_meta(p: &str) -> (r: bool)
    ensures
        r == has_meta(p@),
{
    let n = p.unicode_len();
    let mut i: usize = 0;
    while i < n
        invariant
            n == p@.len(),
            i <= n,
            forall|j: int| 0 <= j < i ==> !is_meta(#[trigger] p@[j]),
        decreases n - i,
    {
        let c = p.get_char(i);
        if c == '*' || c == '?' || c == '|' || c == '[' || c == ']' || c == '{' || c == '}' || c
            == '\\' {
            return true;
        }
        i = i + 1;
    }
    false
}

/// Whether `s` matches the wildcard pattern `p`.
pub fn wildcard_match(s: &str, p: &str) -> (r: bool)
    ensures
        r == wildcard_spec(s@, p@),
{
    if p.unicode_len() == 1 && p.get_char(0) == '*' {
        assert(p@ =~= seq!['*']);
        return true;
    }
    if !pattern_has_meta(p) {
        assert(p@ != seq!['*']) by {
            if p@ == seq!['*'] {
                assert(is_meta(p@[0]));
            }
        }
        return String::from_str(s) == String::from_str(p);
    }
    let re = wildcard_pattern(p);
    match regex_is_match(re.as_str(), s) {
        Some(b) => b,
        None => false,
    }
}

/// The pattern `*` matches every string.
pub proof fn lemma_star_matches_all(s: Seq<char>)
    ensures
        wildcard_spec(s, seq!['*']),
{
}

} // verus!
