//! File-name patterns: `*` matches any run of characters, `?` any one
//! character, every other character itself.
use vstd::prelude::*;
use vstd::string::StrSliceExecFns;
use crate::text::chars_of;

verus! {

/// Whether pattern `p` matches the whole of `s`.
pub open spec fn glob_matches(p: Seq<char>, s: Seq<char>) -> bool
    decreases p.len() + s.len(),
{
    if p.len() == 0 {
        s.len() == 0
    } else if p[0] == '*' {
        glob_matches(p.drop_first(), s) || (s.len() > 0 && glob_matches(p, s.drop_first()))
    } else {
        s.len() > 0 && (p[0] == '?' || p[0] == s[0]) && glob_matches(p.drop_first(), s.drop_first())
    }
}

/// Character classes are not part of the pattern language.
pub open spec fn is_malformed(p: Seq<char>) -> bool {
    exists|i: int| 0 <= i < p.len() && (#[trigger] p[i] == '[' || p[i] == ']')
}

/// A pattern that the language does not accept.
#[derive(Debug)]
pub enum PatternError {
    Malformed(String),
}

fn match_at(p: &Vec<char>, pi: usize, s: &Vec<char>, si: usize) -> (r: bool)
    requires
        pi <= p@.len(),
        si <= s@.len(),
    ensures
        r == glob_matches(p@.subrange(pi as int, p@.len() as int), s@.subrange(si as int, s@.len() as int)),
    decreases p@.len() - pi + s@.len() - si,
{
    let ghost ps = p@.subrange(pi as int, p@.len() as int);
    let ghost ss = s@.subrange(si as int, s@.len() as int);
    if pi == p.len() {
        return si == s.len();
    }
    assert(ps.drop_first() =~= p@.subrange(pi + 1, p@.len() as int));
    if si < s.len() {
        assert(ss.drop_first() =~= s@.subrange(si + 1, s@.len() as int));
    }
    if p[pi] == '*' {
        if match_at(p, pi + 1, s, si) {
            return true;
        }
        si < s.len() && match_at(p, pi, s, si + 1)
    } else {
        si < s.len() && (p[pi] == '?' || p[pi] == s[si]) && match_at(p, pi + 1, s, si + 1)
    }
}

/// Whether `pattern` matches the whole of `name`.
pub fn matches_pattern(pattern: &str, name: &str) -> (r: bool)
    ensures
        r == glob_matches(pattern@, name@),
{
    let p = chars_of(pattern);
    let s = chars_of(name);
    assert(p@.subrange(0, p@.len() as int) =~= p@);
    assert(s@.subrange(0, s@.len() as int) =~= s@);
    match_at(&p, 0, &s, 0)
}

/// Whether `pattern` belongs to the pattern language; callers can test it
/// before any file is looked at.
pub fn check_pattern(pattern: &str) -> (r: bool)
    ensures
        r == !is_malformed(pattern@),
{
    let n = pattern.unicode_len();
    let mut i: usize = 0;
    while i < n
        invariant
            i <= n == pattern@.len(),
            forall|j: int| 0 <= j < i ==> !(#[trigger] pattern@[j] == '[' || pattern@[j] == ']'),
        decreases n - i,
    {
        let c = pattern.get_char(i);
        if c == '[' || c == ']' {
            return false;
        }
        i = i + 1;
    }
    true
}

/// The names that `pattern` matches, in the order given. A malformed
/// pattern is an error before any name is looked at.
pub fn expand_paths(pattern: &str, names: &Vec<String>) -> (r: Result<Vec<String>, PatternError>)
    ensures
        is_malformed(pattern@) <==> r is Err,
        r matches Ok(v) ==> v@.map_values(|x: String| x@) == names@.map_values(|x: String| x@).filter(
            |x: Seq<char>| glob_matches(pattern@, x),
        ),
{
    if !check_pattern(pattern) {
        return Err(PatternError::Malformed(pattern.to_owned()));
    }
    let ghost all = names@.map_values(|x: String| x@);
    let ghost pred = |x: Seq<char>| glob_matches(pattern@, x);
    let mut out: Vec<String> = Vec::new();
    let mut i: usize = 0;
    while i < names.len()
        invariant
            i <= names@.len(),
            all == names@.map_values(|x: String| x@),
            pred == (|x: Seq<char>| glob_matches(pattern@, x)),
            out@.map_values(|x: String| x@) == all.subrange(0, i as int).filter(pred),
        decreases names@.len() - i,
    {
        proof {
            reveal(Seq::filter);
            assert(all.subrange(0, i + 1).drop_last() =~= all.subrange(0, i as int));
        }
        let name = &names[i];
        if matches_pattern(pattern, name.as_str()) {
            let ghost before = out@;
            out.push(name.clone());
            assert(out@.map_values(|x: String| x@) =~= before.map_values(|x: String| x@).push(name@));
        }
        i = i + 1;
    }
    assert(all.subrange(0, i as int) =~= all);
    Ok(out)
}

} // verus!
