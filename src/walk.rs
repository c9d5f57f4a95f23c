use vstd::prelude::*;

use crate::codec::{contains_marker, decode, encode, lemma_decode_encode, marker, marker_at, valid_node_path};
use crate::dump::{child_path, children_stack, initial_stack, pop_excluded, with_slash};
use crate::filter::{excluded_exact, matches_prefix, starts_with};
use crate::restore::{lemma_restore_all_payloads, restore_all, selected, StoreModel};

verus! {

/// A store's tree as the walk sees it: the payload of each path, whether the
/// node there is transient, and the names its children are listed under.
pub ghost struct TreeModel {
    pub data: spec_fn(Seq<char>) -> Seq<u8>,
    pub ephemeral: spec_fn(Seq<char>) -> bool,
    pub children: spec_fn(Seq<char>) -> Seq<Seq<char>>,
}

/// A walk in progress: the paths still to visit (top last) and the paths
/// written to the archive so far, in order.
pub ghost struct WalkState {
    pub stack: Seq<Seq<char>>,
    pub visited: Seq<Seq<char>>,
}

/// The walk before its first step.
pub open spec fn dump_start(roots: Seq<Seq<char>>) -> WalkState {
    WalkState { stack: initial_stack(roots), visited: Seq::empty() }
}

/// One step of a dump, as `DumpWalk::next_znode`, `archive_entry` and
/// `DumpWalk::push_children` carry it out against the tree `t`.
pub open spec fn dump_step(t: TreeModel, w: WalkState, excluded: Seq<Seq<char>>) -> WalkState {
    let s = pop_excluded(w.stack, excluded);
    if s.len() == 0 {
        WalkState { stack: s, visited: w.visited }
    } else if (t.ephemeral)(s.last()) {
        WalkState { stack: s.drop_last(), visited: w.visited }
    } else {
        WalkState {
            stack: s.drop_last() + children_stack(s.last(), (t.children)(s.last())),
            visited: w.visited.push(s.last()),
        }
    }
}

/// The walk after `steps` steps.
pub open spec fn dump_run(t: TreeModel, w: WalkState, excluded: Seq<Seq<char>>, steps: nat) -> WalkState
    decreases steps,
{
    if steps == 0 {
        w
    } else {
        dump_run(t, dump_step(t, w, excluded), excluded, (steps - 1) as nat)
    }
}

/// The archive written for the visited paths, in order.
pub open spec fn dump_archive(t: TreeModel, visited: Seq<Seq<char>>) -> Seq<(Seq<char>, Seq<u8>)> {
    visited.map_values(|p: Seq<char>| (encode(p), (t.data)(p)))
}

/// `p` is a requested root, or a listed child of one of `visited`.
pub open spec fn reached(t: TreeModel, roots: Seq<Seq<char>>, visited: Seq<Seq<char>>, p: Seq<char>) -> bool {
    roots.contains(p) || exists|j: int, m: int|
        0 <= j < visited.len() && 0 <= m < (t.children)(visited[j]).len() && p == #[trigger] child_path(
            visited[j],
            (t.children)(visited[j])[m],
        )
}

/// A child name: not empty, no `/`, no marker.
pub open spec fn valid_child_name(name: Seq<char>) -> bool {
    &&& name.len() > 0
    &&& forall|i: int| 0 <= i < name.len() ==> #[trigger] name[i] != '/'
    &&& !contains_marker(name)
}

/// Every child name that the tree lists is valid.
pub open spec fn valid_child_names(t: TreeModel) -> bool {
    forall|p: Seq<char>, m: int| 0 <= m < (t.children)(p).len() ==> valid_child_name(#[trigger] (t.children)(p)[m])
}

/// A valid node path without the marker, under one of the roots.
pub open spec fn path_ok(roots: Seq<Seq<char>>, p: Seq<char>) -> bool {
    valid_node_path(p) && !contains_marker(p) && matches_prefix(p, roots)
}

spec fn walk_inv(t: TreeModel, roots: Seq<Seq<char>>, excluded: Seq<Seq<char>>, w: WalkState) -> bool {
    &&& forall|i: int|
        0 <= i < w.visited.len() ==> !(t.ephemeral)(#[trigger] w.visited[i]) && !excluded_exact(
            w.visited[i],
            excluded,
        ) && reached(t, roots, w.visited.take(i), w.visited[i])
    &&& forall|k: int| 0 <= k < w.stack.len() ==> reached(t, roots, w.visited, #[trigger] w.stack[k])
}

spec fn paths_inv(roots: Seq<Seq<char>>, w: WalkState) -> bool {
    &&& forall|i: int| 0 <= i < w.visited.len() ==> path_ok(roots, #[trigger] w.visited[i])
    &&& forall|k: int| 0 <= k < w.stack.len() ==> path_ok(roots, #[trigger] w.stack[k])
}

proof fn lemma_pop_excluded(stack: Seq<Seq<char>>, excluded: Seq<Seq<char>>)
    ensures
        pop_excluded(stack, excluded).len() <= stack.len(),
        pop_excluded(stack, excluded) == stack.take(pop_excluded(stack, excluded).len() as int),
        pop_excluded(stack, excluded).len() > 0 ==> !excluded_exact(
            pop_excluded(stack, excluded).last(),
            excluded,
        ),
    decreases stack.len(),
{
    if stack.len() > 0 && excluded_exact(stack.last(), excluded) {
        lemma_pop_excluded(stack.drop_last(), excluded);
        let s = pop_excluded(stack, excluded);
        assert(s =~= stack.take(s.len() as int));
    } else {
        assert(stack =~= stack.take(stack.len() as int));
    }
}

proof fn lemma_reached_grows(
    t: TreeModel,
    roots: Seq<Seq<char>>,
    visited: Seq<Seq<char>>,
    p: Seq<char>,
    x: Seq<char>,
)
    requires
        reached(t, roots, visited, x),
    ensures
        reached(t, roots, visited.push(p), x),
{
    if !roots.contains(x) {
        let (j, m) = choose|j: int, m: int|
            0 <= j < visited.len() && 0 <= m < (t.children)(visited[j]).len() && x
                == #[trigger] child_path(visited[j], (t.children)(visited[j])[m]);
        assert(visited.push(p)[j] == visited[j]);
        assert(x == child_path(visited.push(p)[j], (t.children)(visited.push(p)[j])[m]));
    }
}

proof fn lemma_step_inv(t: TreeModel, roots: Seq<Seq<char>>, excluded: Seq<Seq<char>>, w: WalkState)
    requires
        walk_inv(t, roots, excluded, w),
    ensures
        walk_inv(t, roots, excluded, dump_step(t, w, excluded)),
{
    let s = pop_excluded(w.stack, excluded);
    lemma_pop_excluded(w.stack, excluded);
    let w2 = dump_step(t, w, excluded);
    if s.len() == 0 {
        assert forall|k: int| 0 <= k < w2.stack.len() implies reached(t, roots, w2.visited, #[trigger] w2.stack[k]) by {
            assert(w2.stack[k] == w.stack[k]);
        }
    } else {
        let p = s.last();
        assert(p == w.stack[s.len() - 1]);
        if (t.ephemeral)(p) {
            assert forall|k: int| 0 <= k < w2.stack.len() implies reached(t, roots, w2.visited, #[trigger] w2.stack[k]) by {
                assert(w2.stack[k] == w.stack[k]);
            }
        } else {
            let v = w.visited;
            let v2 = v.push(p);
            let names = (t.children)(p);
            let kids = children_stack(p, names);
            assert forall|i: int| 0 <= i < v2.len() implies !(t.ephemeral)(#[trigger] v2[i]) && !excluded_exact(
                v2[i],
                excluded,
            ) && reached(t, roots, v2.take(i), v2[i]) by {
                if i < v.len() {
                    assert(v2.take(i) =~= v.take(i));
                    assert(v2[i] == v[i]);
                } else {
                    assert(v2.take(i) =~= v);
                    assert(v2[i] == p);
                    assert(reached(t, roots, v, w.stack[s.len() - 1]));
                }
            }
            assert forall|k: int| 0 <= k < w2.stack.len() implies reached(t, roots, v2, #[trigger] w2.stack[k]) by {
                if k < s.len() - 1 {
                    assert(w2.stack[k] == w.stack[k]);
                    lemma_reached_grows(t, roots, v, p, w.stack[k]);
                } else {
                    let i = k - (s.len() - 1);
                    let m = names.len() - 1 - i;
                    assert(w2.stack[k] == kids[i]);
                    assert(v2[v.len() as int] == p);
                    assert(w2.stack[k] == child_path(v2[v.len() as int], (t.children)(v2[v.len() as int])[m]));
                }
            }
        }
    }
}

proof fn lemma_run_inv(t: TreeModel, roots: Seq<Seq<char>>, excluded: Seq<Seq<char>>, w: WalkState, steps: nat)
    requires
        walk_inv(t, roots, excluded, w),
    ensures
        walk_inv(t, roots, excluded, dump_run(t, w, excluded, steps)),
    decreases steps,
{
    if steps > 0 {
        lemma_step_inv(t, roots, excluded, w);
        lemma_run_inv(t, roots, excluded, dump_step(t, w, excluded), (steps - 1) as nat);
    }
}

proof fn lemma_start_inv(t: TreeModel, roots: Seq<Seq<char>>, excluded: Seq<Seq<char>>)
    ensures
        walk_inv(t, roots, excluded, dump_start(roots)),
{
    let w = dump_start(roots);
    assert forall|k: int| 0 <= k < w.stack.len() implies reached(t, roots, w.visited, #[trigger] w.stack[k]) by {
        assert(w.stack[k] == roots[roots.len() - 1 - k]);
    }
}

/// However far a dump has gone, no transient node has been written: every
/// archive entry belongs to a visited path, and no visited node is
/// transient.
pub proof fn lemma_dump_skips_ephemeral(t: TreeModel, roots: Seq<Seq<char>>, excluded: Seq<Seq<char>>, steps: nat)
    ensures
        ({
            let v = dump_run(t, dump_start(roots), excluded, steps).visited;
            &&& dump_archive(t, v).len() == v.len()
            &&& forall|i: int| 0 <= i < v.len() ==> dump_archive(t, v)[i] == (encode(v[i]), (t.data)(v[i]))
            &&& forall|i: int| 0 <= i < v.len() ==> !(t.ephemeral)(#[trigger] v[i])
        }),
{
    lemma_start_inv(t, roots, excluded);
    lemma_run_inv(t, roots, excluded, dump_start(roots), steps);
}

/// However far a dump has gone, no visited path equals an excluded one, and
/// every visited path is a requested root or a listed child of a path
/// visited before it: the walk never descends through an excluded node.
pub proof fn lemma_dump_prunes_excluded(t: TreeModel, roots: Seq<Seq<char>>, excluded: Seq<Seq<char>>, steps: nat)
    ensures
        ({
            let v = dump_run(t, dump_start(roots), excluded, steps).visited;
            forall|i: int|
                0 <= i < v.len() ==> !excluded_exact(#[trigger] v[i], excluded) && reached(
                    t,
                    roots,
                    v.take(i),
                    v[i],
                )
        }),
{
    lemma_start_inv(t, roots, excluded);
    lemma_run_inv(t, roots, excluded, dump_start(roots), steps);
}

/// Each requested root is a valid node path without the marker.
pub open spec fn valid_roots(roots: Seq<Seq<char>>) -> bool {
    forall|k: int| 0 <= k < roots.len() ==> valid_node_path(#[trigger] roots[k]) && !contains_marker(roots[k])
}

proof fn lemma_child_path_ok(roots: Seq<Seq<char>>, parent: Seq<char>, name: Seq<char>)
    requires
        path_ok(roots, parent),
        valid_child_name(name),
    ensures
        path_ok(roots, child_path(parent, name)),
{
    let ws = with_slash(parent);
    let c = child_path(parent, name);
    let l = ws.len() - 1;
    assert(c == ws + name);
    assert(ws.last() == '/');
    assert(ws[0] == '/');
    assert forall|i: int| 0 <= i < l implies #[trigger] ws[i] == parent[i] by {}
    assert(l <= parent.len());
    assert forall|i: int| 0 <= i < c.len() - 1 && #[trigger] c[i] == '/' implies c[i + 1] != '/' by {
        if i < l - 1 {
            assert(c[i] == parent[i] && c[i + 1] == parent[i + 1]);
        } else if i == l - 1 {
            assert(ws.len() == parent.len() + 1);
            assert(c[i] == parent.last());
        } else if i == l {
            assert(c[i + 1] == name[0]);
        } else {
            assert(c[i] == name[i - ws.len()]);
        }
    }
    assert(c.last() == name.last());
    assert(c.last() != '/') by {
        assert(name[name.len() - 1] != '/');
    }
    assert(!contains_marker(c)) by {
        if contains_marker(c) {
            let i = choose|i: int| marker_at(c, i);
            let win = c.subrange(i, i + 8);
            if i + 8 <= l {
                assert(parent.subrange(i, i + 8) =~= win);
                assert(marker_at(parent, i));
            } else if i >= ws.len() {
                assert(name.subrange(i - ws.len(), i - ws.len() + 8) =~= win);
                assert(marker_at(name, i - ws.len()));
            } else {
                assert(win[l - i] == '/');
                assert(marker()[l - i] != '/');
            }
        }
    }
    let k = choose|k: int| 0 <= k < roots.len() && starts_with(parent, #[trigger] roots[k]);
    let r = roots[k];
    assert(c.take(r.len() as int) =~= parent.take(r.len() as int));
    assert(starts_with(c, roots[k]));
}

proof fn lemma_step_paths(t: TreeModel, roots: Seq<Seq<char>>, excluded: Seq<Seq<char>>, w: WalkState)
    requires
        paths_inv(roots, w),
        valid_child_names(t),
    ensures
        paths_inv(roots, dump_step(t, w, excluded)),
{
    let s = pop_excluded(w.stack, excluded);
    lemma_pop_excluded(w.stack, excluded);
    let w2 = dump_step(t, w, excluded);
    if s.len() > 0 {
        let p = s.last();
        assert(p == w.stack[s.len() - 1]);
        let names = (t.children)(p);
        assert forall|i: int| 0 <= i < w2.visited.len() implies path_ok(roots, #[trigger] w2.visited[i]) by {
            if i < w.visited.len() {
                assert(w2.visited[i] == w.visited[i]);
            }
        }
        assert forall|k: int| 0 <= k < w2.stack.len() implies path_ok(roots, #[trigger] w2.stack[k]) by {
            if k < s.len() - 1 {
                assert(w2.stack[k] == w.stack[k]);
            } else {
                let m = names.len() - 1 - (k - (s.len() - 1));
                assert(w2.stack[k] == child_path(p, names[m]));
                assert(valid_child_name(names[m]));
                lemma_child_path_ok(roots, p, names[m]);
            }
        }
    } else {
        assert forall|k: int| 0 <= k < w2.stack.len() implies path_ok(roots, #[trigger] w2.stack[k]) by {
            assert(w2.stack[k] == w.stack[k]);
        }
    }
}

proof fn lemma_run_paths(t: TreeModel, roots: Seq<Seq<char>>, excluded: Seq<Seq<char>>, w: WalkState, steps: nat)
    requires
        paths_inv(roots, w),
        valid_child_names(t),
    ensures
        paths_inv(roots, dump_run(t, w, excluded, steps)),
    decreases steps,
{
    if steps > 0 {
        lemma_step_paths(t, roots, excluded, w);
        lemma_run_paths(t, roots, excluded, dump_step(t, w, excluded), (steps - 1) as nat);
    }
}

/// A dump replayed into an empty store, with the same roots and exclusions,
/// gives every written node whose path the replay does not exclude exactly
/// its payload in the tree; this holds for every tree whose child names are
/// valid, and for valid roots.
pub proof fn lemma_dump_restore_round_trip(
    t: TreeModel,
    roots: Seq<Seq<char>>,
    excluded: Seq<Seq<char>>,
    steps: nat,
)
    requires
        valid_roots(roots),
        valid_child_names(t),
    ensures
        ({
            let v = dump_run(t, dump_start(roots), excluded, steps).visited;
            let st = restore_all(StoreModel::empty(), dump_archive(t, v), roots, excluded);
            forall|i: int|
                0 <= i < v.len() && !matches_prefix(#[trigger] v[i], excluded) ==> st.contains_key(v[i])
                    && st[v[i]] == (t.data)(v[i])
        }),
{
    let w0 = dump_start(roots);
    assert forall|k: int| 0 <= k < w0.stack.len() implies path_ok(roots, #[trigger] w0.stack[k]) by {
        let j = roots.len() - 1 - k;
        assert(w0.stack[k] == roots[j]);
        assert(roots[j].take(roots[j].len() as int) =~= roots[j]);
        assert(starts_with(roots[j], roots[j]));
    }
    lemma_run_paths(t, roots, excluded, w0, steps);
    let v = dump_run(t, w0, excluded, steps).visited;
    let entries = dump_archive(t, v);
    assert forall|i: int| 0 <= i < entries.len() implies #[trigger] entries[i].1 == (t.data)(
        decode(entries[i].0),
    ) by {
        assert(path_ok(roots, v[i]));
        lemma_decode_encode(v[i]);
    }
    lemma_restore_all_payloads(StoreModel::empty(), entries, roots, excluded, t.data);
    assert forall|i: int| 0 <= i < v.len() && !matches_prefix(#[trigger] v[i], excluded) implies restore_all(
        StoreModel::empty(),
        entries,
        roots,
        excluded,
    ).contains_key(v[i]) && restore_all(StoreModel::empty(), entries, roots, excluded)[v[i]] == (t.data)(v[i]) by {
        assert(path_ok(roots, v[i]));
        lemma_decode_encode(v[i]);
        assert(entries[i] == (encode(v[i]), (t.data)(v[i])));
        assert(selected(decode(entries[i].0), roots, excluded));
    }
}

} // verus!
