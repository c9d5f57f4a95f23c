use vstd::prelude::*;

use crate::codec::{decode, tar_path_to_znode_path};
use crate::filter::{matches_any_prefix, matches_prefix, views};

verus! {

/// The proper ancestors `p.take(j)`, for each `0 < j < k` where `p[j]` is `/`,
/// shortest first.
pub open spec fn ancestors_before(p: Seq<char>, k: int) -> Seq<Seq<char>>
    decreases k,
{
    if k <= 0 {
        Seq::empty()
    } else {
        let prev = ancestors_before(p, k - 1);
        if k - 1 > 0 && p[k - 1] == '/' {
            prev.push(p.take(k - 1))
        } else {
            prev
        }
    }
}

/// The nodes to create, in order, before the payload of `p` is written: every
/// ancestor from the first segment down, then `p` itself.
pub open spec fn ancestors(p: Seq<char>) -> Seq<Seq<char>> {
    ancestors_before(p, p.len() as int).push(p)
}

/// A node store, seen as the payload held at each existing path.
pub type StoreModel = Map<Seq<char>, Seq<u8>>;

/// Creates each of `paths` in turn with an empty payload; a path that already
/// exists is left as it is.
pub open spec fn create_all(st: StoreModel, paths: Seq<Seq<char>>) -> StoreModel
    decreases paths.len(),
{
    if paths.len() == 0 {
        st
    } else {
        let before = create_all(st, paths.drop_last());
        if before.contains_key(paths.last()) {
            before
        } else {
            before.insert(paths.last(), Seq::empty())
        }
    }
}

/// The entry's path is replayed: not excluded, and under a requested root.
pub open spec fn selected(p: Seq<char>, roots: Seq<Seq<char>>, excluded: Seq<Seq<char>>) -> bool {
    !matches_prefix(p, excluded) && matches_prefix(p, roots)
}

/// The store after one archive entry is replayed.
pub open spec fn restore_entry(
    st: StoreModel,
    name: Seq<char>,
    payload: Seq<u8>,
    roots: Seq<Seq<char>>,
    excluded: Seq<Seq<char>>,
) -> StoreModel {
    let p = decode(name);
    if selected(p, roots, excluded) {
        create_all(st, ancestors(p)).insert(p, payload)
    } else {
        st
    }
}

/// The store after the archive entries are replayed in order.
pub open spec fn restore_all(
    st: StoreModel,
    entries: Seq<(Seq<char>, Seq<u8>)>,
    roots: Seq<Seq<char>>,
    excluded: Seq<Seq<char>>,
) -> StoreModel
    decreases entries.len(),
{
    if entries.len() == 0 {
        st
    } else {
        let e = entries.last();
        restore_entry(restore_all(st, entries.drop_last(), roots, excluded), e.0, e.1, roots, excluded)
    }
}

/// What replaying one archive entry takes: the nodes to create, in order,
/// then the node whose payload is written.
pub struct RestorePlan {
    pub creates: Vec<String>,
    pub target: String,
}

/// The nodes to create for `path`: each ancestor from the first segment down,
/// then `path` itself.
pub fn create_znodes_for_path(path: &str) -> (r: Vec<String>)
    ensures
        views(r@) == ancestors(path@),
{
    let n = path.unicode_len();
    let mut out: Vec<String> = Vec::new();
    let mut j: usize = 0;
    while j < n
        invariant
            j <= n,
            n == path@.len(),
            views(out@) == ancestors_before(path@, j as int),
        decreases n - j,
    {
        if j > 0 && path.get_char(j) == '/' {
            let a = String::from_str(path.substring_char(0, j));
            assert(a@ =~= path@.take(j as int));
            out.push(a);
            assert(views(out@) =~= ancestors_before(path@, j as int).push(path@.take(j as int)));
        }
        j = j + 1;
    }
    out.push(String::from_str(path));
    assert(views(out@) =~= ancestors(path@));
    out
}

/// Decides what replaying the archive entry `entry_name` takes: nothing when
/// its path is excluded or lies under none of the requested roots, else the
/// nodes to create and the node to write.
pub fn plan_restore(entry_name: &str, znode_paths: &Vec<String>, excluded_znodes: &Vec<String>) -> (r:
    Option<RestorePlan>)
    ensures
        r.is_some() == selected(decode(entry_name@), views(znode_paths@), views(excluded_znodes@)),
        r matches Some(plan) ==> plan.target@ == decode(entry_name@) && views(plan.creates@)
            == ancestors(decode(entry_name@)),
{
    let znode_path = tar_path_to_znode_path(entry_name);
    let is_excluded = matches_any_prefix(znode_path.as_str(), excluded_znodes);
    let is_for_restoring = matches_any_prefix(znode_path.as_str(), znode_paths);
    if !is_excluded && is_for_restoring {
        let creates = create_znodes_for_path(znode_path.as_str());
        Some(RestorePlan { creates, target: znode_path })
    } else {
        None
    }
}

/// Creating nodes never changes a node that already exists, and every
/// created path exists afterwards.
pub proof fn lemma_create_all_keeps(st: StoreModel, paths: Seq<Seq<char>>)
    ensures
        forall|k: Seq<char>|
            #![trigger create_all(st, paths).contains_key(k)]
            #![trigger create_all(st, paths)[k]]
            st.contains_key(k) ==> create_all(st, paths).contains_key(k) && create_all(st, paths)[k]
                == st[k],
    decreases paths.len(),
{
    if paths.len() > 0 {
        let init = paths.drop_last();
        lemma_create_all_keeps(st, init);
        let before = create_all(st, init);
        assert forall|k: Seq<char>| st.contains_key(k) implies create_all(st, paths).contains_key(k)
            && create_all(st, paths)[k] == st[k] by {
            assert(before.contains_key(k) && before[k] == st[k]);
        }
    }
}

/// An archive entry whose path lies under none of the requested roots is
/// skipped: the store is left exactly as it was.
pub proof fn lemma_restore_skips_outside_roots(
    st: StoreModel,
    name: Seq<char>,
    payload: Seq<u8>,
    roots: Seq<Seq<char>>,
    excluded: Seq<Seq<char>>,
)
    requires
        !matches_prefix(decode(name), roots),
    ensures
        restore_entry(st, name, payload, roots, excluded) == st,
{
}

/// When every entry carries the payload that `data` gives for its path, each
/// replayed entry's path holds that payload once all entries are replayed,
/// whatever order they come in.
pub proof fn lemma_restore_all_payloads(
    st: StoreModel,
    entries: Seq<(Seq<char>, Seq<u8>)>,
    roots: Seq<Seq<char>>,
    excluded: Seq<Seq<char>>,
    data: spec_fn(Seq<char>) -> Seq<u8>,
)
    requires
        forall|i: int| 0 <= i < entries.len() ==> #[trigger] entries[i].1 == data(decode(entries[i].0)),
    ensures
        forall|i: int|
            0 <= i < entries.len() && selected(decode(#[trigger] entries[i].0), roots, excluded)
                ==> restore_all(st, entries, roots, excluded).contains_key(decode(entries[i].0))
                && restore_all(st, entries, roots, excluded)[decode(entries[i].0)] == entries[i].1,
    decreases entries.len(),
{
    if entries.len() > 0 {
        let init = entries.drop_last();
        lemma_restore_all_payloads(st, init, roots, excluded, data);
        let before = restore_all(st, init, roots, excluded);
        let e = entries.last();
        let p = decode(e.0);
        lemma_create_all_keeps(before, ancestors(p));
        assert forall|i: int|
            0 <= i < entries.len() && selected(decode(#[trigger] entries[i].0), roots, excluded)
                implies restore_all(st, entries, roots, excluded).contains_key(decode(entries[i].0))
                && restore_all(st, entries, roots, excluded)[decode(entries[i].0)]
                == entries[i].1 by {
            if i < entries.len() - 1 {
                assert(entries[i] == init[i]);
                let q = decode(entries[i].0);
                assert(before.contains_key(q) && before[q] == init[i].1);
                if q == p {
                    assert(e == entries[entries.len() - 1]);
                    assert(e.1 == data(p));
                }
            }
        }
    }
}

} // verus!
