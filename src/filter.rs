use vstd::prelude::*;

verus! {

/// The character sequences held by a list of strings.
pub open spec fn views(v: Seq<String>) -> Seq<Seq<char>> {
    v.map_values(|s: String| s@)
}

/// `s` begins with `pre`, compared as raw characters.
pub open spec fn starts_with(s: Seq<char>, pre: Seq<char>) -> bool {
    pre.len() <= s.len() && s.take(pre.len() as int) == pre
}

/// Dump side: `path` is listed verbatim among the patterns.
pub open spec fn excluded_exact(path: Seq<char>, patterns: Seq<Seq<char>>) -> bool {
    exists|i: int| 0 <= i < patterns.len() && patterns[i] == path
}

/// Restore side: `path` starts with one of the patterns, as a raw string.
pub open spec fn matches_prefix(path: Seq<char>, patterns: Seq<Seq<char>>) -> bool {
    exists|i: int| 0 <= i < patterns.len() && starts_with(path, #[trigger] patterns[i])
}

/// True when `s` begins with `pre`.
pub fn starts_with_str(s: &str, pre: &str) -> (r: bool)
    ensures
        r == starts_with(s@, pre@),
{
    let n = s.unicode_len();
    let m = pre.unicode_len();
    if m > n {
        return false;
    }
    let mut i: usize = 0;
    while i < m
        invariant
            i <= m <= n,
            n == s@.len(),
            m == pre@.len(),
            forall|j: int| 0 <= j < i ==> s@[j] == pre@[j],
        decreases m - i,
    {
        if s.get_char(i) != pre.get_char(i) {
            assert(s@.take(m as int)[i as int] != pre@[i as int]);
            return false;
        }
        i = i + 1;
    }
    assert(s@.take(m as int) =~= pre@);
    true
}

/// True when `path` equals one of `patterns` exactly.
pub fn is_excluded_exact(path: &str, patterns: &Vec<String>) -> (r: bool)
    ensures
        r == excluded_exact(path@, views(patterns@)),
{
    let n = path.unicode_len();
    let mut i: usize = 0;
    while i < patterns.len()
        invariant
            i <= patterns@.len(),
            n == path@.len(),
            forall|j: int| 0 <= j < i ==> patterns@[j]@ != path@,
        decreases patterns@.len() - i,
    {
        let pat = patterns[i].as_str();
        assert(path@.take(n as int) =~= path@);
        if pat.unicode_len() == n && starts_with_str(path, pat) {
            assert(path@.take(n as int) =~= path@);
            assert(views(patterns@)[i as int] == path@);
            return true;
        }
        i = i + 1;
    }
    assert forall|j: int| 0 <= j < views(patterns@).len() implies views(patterns@)[j] != path@ by {
        assert(views(patterns@)[j] == patterns@[j]@);
    }
    false
}

/// True when `path` starts with one of `patterns`.
pub fn matches_any_prefix(path: &str, patterns: &Vec<String>) -> (r: bool)
    ensures
        r == matches_prefix(path@, views(patterns@)),
{
    let mut i: usize = 0;
    while i < patterns.len()
        invariant
            i <= patterns@.len(),
            forall|j: int| 0 <= j < i ==> !starts_with(path@, patterns@[j]@),
        decreases patterns@.len() - i,
    {
        if starts_with_str(path, patterns[i].as_str()) {
            assert(views(patterns@)[i as int] == patterns@[i as int]@);
            return true;
        }
        i = i + 1;
    }
    assert forall|j: int| 0 <= j < views(patterns@).len() implies !starts_with(
        path@,
        #[trigger] views(patterns@)[j],
    ) by {
        assert(views(patterns@)[j] == patterns@[j]@);
    }
    false
}

} // verus!
