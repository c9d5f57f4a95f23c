use vstd::prelude::*;

verus! {

/// The literal segment that marks a node's payload inside the archive.
pub open spec fn marker() -> Seq<char> {
    seq!['_', '_', '_', '_', 'd', 'a', 't', 'a']
}

/// Drops every leading `/`.
pub open spec fn strip_leading_slashes(s: Seq<char>) -> Seq<char>
    decreases s.len(),
{
    if s.len() > 0 && s[0] == '/' {
        strip_leading_slashes(s.drop_first())
    } else {
        s
    }
}

/// True when the marker starts at position `i` of `s`.
pub open spec fn marker_at(s: Seq<char>, i: int) -> bool {
    0 <= i && i + 8 <= s.len() && s.subrange(i, i + 8) == marker()
}

/// True when the marker occurs anywhere in `s`.
pub open spec fn contains_marker(s: Seq<char>) -> bool {
    exists|i: int| marker_at(s, i)
}

/// Removes every occurrence of the marker, scanning left to right.
pub open spec fn remove_marker(s: Seq<char>) -> Seq<char>
    decreases s.len(),
{
    if s.len() == 0 {
        s
    } else if marker_at(s, 0) {
        remove_marker(s.skip(8))
    } else {
        seq![s[0]] + remove_marker(s.skip(1))
    }
}

/// Drops one trailing `/`, if there is one.
pub open spec fn drop_trailing_slash(s: Seq<char>) -> Seq<char> {
    if s.len() > 0 && s.last() == '/' {
        s.drop_last()
    } else {
        s
    }
}

/// Prepends `/` unless `s` already starts with one.
pub open spec fn ensure_leading_slash(s: Seq<char>) -> Seq<char> {
    if s.len() > 0 && s[0] == '/' {
        s
    } else {
        seq!['/'] + s
    }
}

/// The archive entry name under which the node at `path` is stored.
pub open spec fn encode(path: Seq<char>) -> Seq<char> {
    strip_leading_slashes(path + seq!['/'] + marker())
}

/// The node path that an archive entry name stands for.
pub open spec fn decode(name: Seq<char>) -> Seq<char> {
    ensure_leading_slash(drop_trailing_slash(remove_marker(name)))
}

/// A node path: `/`, or `/` followed by non-empty segments separated by
/// single slashes.
pub open spec fn valid_node_path(p: Seq<char>) -> bool {
    &&& p.len() > 0
    &&& p[0] == '/'
    &&& (p.len() > 1 ==> p.last() != '/')
    &&& forall|i: int| 0 <= i < p.len() - 1 && #[trigger] p[i] == '/' ==> p[i + 1] != '/'
}

proof fn lemma_remove_marker_empty_marker()
    ensures
        remove_marker(marker()) == Seq::<char>::empty(),
{
    assert(marker().subrange(0, 8) =~= marker());
    assert(marker().skip(8) =~= Seq::<char>::empty());
    assert(remove_marker(Seq::<char>::empty()) == Seq::<char>::empty());
}

/// With no marker starting before `k`, the first `k` characters pass through.
proof fn lemma_remove_marker_prefix(s: Seq<char>, k: int)
    requires
        0 <= k <= s.len(),
        forall|j: int| 0 <= j < k ==> !marker_at(s, j),
    ensures
        remove_marker(s) == s.take(k) + remove_marker(s.skip(k)),
    decreases k,
{
    if k == 0 {
        assert(s.take(0) + s.skip(0) =~= s);
        assert(s.take(0) + remove_marker(s.skip(0)) =~= remove_marker(s));
    } else {
        assert(!marker_at(s, 0));
        let t = s.skip(1);
        assert forall|j: int| 0 <= j < k - 1 implies !marker_at(t, j) by {
            assert(!marker_at(s, j + 1));
            if j + 8 <= t.len() {
                assert(t.subrange(j, j + 8) =~= s.subrange(j + 1, j + 9));
            }
        }
        lemma_remove_marker_prefix(t, k - 1);
        assert(t.skip(k - 1) =~= s.skip(k));
        assert(seq![s[0]] + t.take(k - 1) =~= s.take(k));
        assert(remove_marker(s) == seq![s[0]] + remove_marker(t));
        assert(seq![s[0]] + (t.take(k - 1) + remove_marker(s.skip(k))) =~= s.take(k)
            + remove_marker(s.skip(k)));
    }
}

/// Decoding the name that `encode` gives returns the path, for every valid
/// node path that does not itself hold the marker.
pub proof fn lemma_decode_encode(p: Seq<char>)
    requires
        valid_node_path(p),
        !contains_marker(p),
    ensures
        decode(encode(p)) == p,
{
    let m = marker();
    let s = p + seq!['/'] + m;
    lemma_remove_marker_empty_marker();
    if p.len() == 1 {
        assert(s[0] == '/');
        assert(s.drop_first() =~= seq!['/'] + m);
        assert((seq!['/'] + m)[0] == '/');
        assert((seq!['/'] + m).drop_first() =~= m);
        assert(m[0] == '_');
        assert(strip_leading_slashes(m) == m);
        assert(strip_leading_slashes(seq!['/'] + m) == m);
        assert(strip_leading_slashes(s) == m);
        assert(encode(p) == m);
        assert(p =~= seq!['/']);
        assert(seq!['/'] + Seq::<char>::empty() =~= seq!['/']);
    } else {
        assert(p[0] == '/');
        assert(p[1] != '/');
        let q = p.drop_first();
        let t = s.drop_first();
        assert(t =~= q + seq!['/'] + m);
        assert(t[0] == p[1]);
        assert(strip_leading_slashes(t) == t);
        assert(encode(p) == t);
        let k: int = q.len() as int + 1;
        assert forall|j: int| 0 <= j < k implies !marker_at(t, j) by {
            if j + 8 <= q.len() {
                assert(t.subrange(j, j + 8) =~= p.subrange(j + 1, j + 9));
                assert(!marker_at(p, j + 1));
            } else if j + 8 <= t.len() {
                assert(t[q.len() as int] == '/');
                assert(t.subrange(j, j + 8)[q.len() - j] == '/');
                assert(m[q.len() - j] != '/');
            }
        }
        lemma_remove_marker_prefix(t, k);
        assert(t.take(k) =~= q + seq!['/']);
        assert(t.skip(k) =~= m);
        assert(remove_marker(t) =~= q + seq!['/']);
        assert((q + seq!['/']).drop_last() =~= q);
        assert(q[0] == p[1]);
        assert(seq!['/'] + q =~= p);
    }
}

/// Index of the first character of `s` that is not `/`, or `s.len()`.
fn first_non_slash(s: &str) -> (r: usize)
    ensures
        r <= s@.len(),
        strip_leading_slashes(s@) == s@.subrange(r as int, s@.len() as int),
{
    let n = s.unicode_len();
    let mut i: usize = 0;
    assert(s@.subrange(0, n as int) =~= s@);
    while i < n && s.get_char(i) == '/'
        invariant
            i <= n,
            n == s@.len(),
            strip_leading_slashes(s@) == strip_leading_slashes(s@.subrange(i as int, n as int)),
        decreases n - i,
    {
        assert(s@.subrange(i as int, n as int).drop_first() =~= s@.subrange(i + 1, n as int));
        i = i + 1;
    }
    i
}

/// True when the marker starts at character `i` of `s`.
fn marker_at_exec(s: &str, n: usize, i: usize) -> (r: bool)
    requires
        n == s@.len(),
        i <= n,
    ensures
        r == marker_at(s@, i as int),
{
    if n - i < 8 {
        return false;
    }
    let ok = s.get_char(i) == '_' && s.get_char(i + 1) == '_' && s.get_char(i + 2) == '_'
        && s.get_char(i + 3) == '_' && s.get_char(i + 4) == 'd' && s.get_char(i + 5) == 'a'
        && s.get_char(i + 6) == 't' && s.get_char(i + 7) == 'a';
    if ok {
        assert(s@.subrange(i as int, i + 8) =~= marker());
    } else {
        assert(s@.subrange(i as int, i + 8) != marker()) by {
            if s@.subrange(i as int, i + 8) == marker() {
                assert forall|k: int| 0 <= k < 8 implies s@[i + k] == marker()[k] by {
                    assert(s@.subrange(i as int, i + 8)[k] == s@[i + k]);
                }
            }
        }
    }
    ok
}

/// Every occurrence of the marker removed from `s`.
fn remove_marker_exec(s: &str) -> (r: String)
    ensures
        r@ == remove_marker(s@),
{
    let n = s.unicode_len();
    let mut out = String::new();
    let mut i: usize = 0;
    assert(s@.subrange(0, n as int) =~= s@);
    while i < n
        invariant
            i <= n,
            n == s@.len(),
            out@ + remove_marker(s@.subrange(i as int, n as int)) == remove_marker(s@),
        decreases n - i,
    {
        let rest = Ghost(s@.subrange(i as int, n as int));
        if marker_at_exec(s, n, i) {
            assert(rest@.subrange(0, 8) =~= s@.subrange(i as int, i + 8));
            assert(rest@.skip(8) =~= s@.subrange(i + 8, n as int));
            i = i + 8;
        } else {
            assert(rest@.subrange(0, 8) =~= s@.subrange(i as int, i + 8) || n - i < 8);
            assert(rest@.skip(1) =~= s@.subrange(i + 1, n as int));
            let prev = Ghost(out@);
            let c = s.substring_char(i, i + 1);
            assert(c@ =~= seq![rest@[0]]);
            out.append(c);
            assert(prev@ + remove_marker(rest@) =~= out@ + remove_marker(rest@.skip(1)));
            i = i + 1;
        }
    }
    assert(s@.subrange(n as int, n as int) =~= Seq::<char>::empty());
    assert(out@ + Seq::<char>::empty() =~= out@);
    out
}

/// The archive entry name of the node at `znode_path`: the marker segment
/// appended, then every leading `/` dropped.
pub fn znode_path_to_tar_path(znode_path: &str) -> (r: String)
    ensures
        r@ == encode(znode_path@),
{
    proof {
        reveal_strlit("/____data");
    }
    let suffix = "/____data";
    assert(suffix@ =~= seq!['/'] + marker());
    let full = String::from_str(znode_path).concat(suffix);
    assert(full@ =~= znode_path@ + seq!['/'] + marker());
    let k = first_non_slash(full.as_str());
    let n = full.as_str().unicode_len();
    String::from_str(full.as_str().substring_char(k, n))
}

/// The node path that the archive entry `tar_path` stands for: every marker
/// removed, one trailing `/` dropped, a leading `/` ensured.
pub fn tar_path_to_znode_path(tar_path: &str) -> (r: String)
    ensures
        r@ == decode(tar_path@),
{
    let removed = remove_marker_exec(tar_path);
    let n = removed.as_str().unicode_len();
    let trimmed = if n > 0 && removed.as_str().get_char(n - 1) == '/' {
        String::from_str(removed.as_str().substring_char(0, n - 1))
    } else {
        removed
    };
    assert(trimmed@ =~= drop_trailing_slash(removed@));
    let m = trimmed.as_str().unicode_len();
    if m > 0 && trimmed.as_str().get_char(0) == '/' {
        trimmed
    } else {
        proof {
            reveal_strlit("/");
        }
        let r = String::from_str("/").concat(trimmed.as_str());
        assert(r@ =~= ensure_leading_slash(trimmed@));
        r
    }
}

/// `znode_path` with a `/` appended unless it already ends with one.
pub fn ensure_ends_with_slash(znode_path: &str) -> (r: String)
    ensures
        r@ == (if znode_path@.len() > 0 && znode_path@.last() == '/' {
            znode_path@
        } else {
            znode_path@.push('/')
        }),
{
    let n = znode_path.unicode_len();
    let current_path = String::from_str(znode_path);
    if n > 0 && znode_path.get_char(n - 1) == '/' {
        current_path
    } else {
        proof {
            reveal_strlit("/");
        }
        let r = current_path.concat("/");
        assert(r@ =~= znode_path@.push('/'));
        r
    }
}

} // verus!
