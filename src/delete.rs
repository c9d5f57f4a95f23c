use vstd::prelude::*;

use crate::codec::ensure_ends_with_slash;
use crate::dump::{children_stack, initial_stack, with_slash};
use crate::filter::{excluded_exact, is_excluded_exact, views};

verus! {

/// The stack once every excluded path not yet expanded has been dropped from
/// its top.
pub open spec fn delete_pop(stack: Seq<(Seq<char>, bool)>, excluded: Seq<Seq<char>>) -> Seq<(Seq<char>, bool)>
    decreases stack.len(),
{
    if stack.len() > 0 && !stack.last().1 && excluded_exact(stack.last().0, excluded) {
        delete_pop(stack.drop_last(), excluded)
    } else {
        stack
    }
}

/// Paths laid on the stack, not yet expanded.
pub open spec fn unexpanded(paths: Seq<Seq<char>>) -> Seq<(Seq<char>, bool)> {
    paths.map_values(|p: Seq<char>| (p, false))
}

/// What the caller of a delete walk does next.
pub enum DeleteAction {
    /// List the children of this node and hand them to `push_children`.
    List(String),
    /// Delete this node: its children are gone already.
    Delete(String),
    /// Nothing is left.
    Done,
}

/// A recursive delete under the requested roots, children before their
/// parent. An excluded path is neither deleted nor entered.
pub struct DeleteWalk {
    pending: Vec<String>,
    expanded: Vec<bool>,
    excluded: Vec<String>,
}

impl DeleteWalk {
    /// The stack of paths, each with whether its children were listed; the
    /// last is on top.
    pub closed spec fn stack(&self) -> Seq<(Seq<char>, bool)> {
        Seq::new(self.pending@.len(), |i: int| (self.pending@[i]@, self.expanded@[i]))
    }

    /// The paths that the walk leaves alone, with their subtrees.
    pub closed spec fn excluded(&self) -> Seq<Seq<char>> {
        views(self.excluded@)
    }

    /// The walk's own invariant.
    pub closed spec fn wf(&self) -> bool {
        self.pending@.len() == self.expanded@.len()
    }

    /// A walk with the roots on its stack, first root on top.
    pub fn new(znode_paths: &Vec<String>, excluded_znodes: &Vec<String>) -> (r: DeleteWalk)
        ensures
            r.wf(),
            r.stack() == unexpanded(initial_stack(views(znode_paths@))),
            r.excluded() == views(excluded_znodes@),
    {
        let mut pending: Vec<String> = Vec::new();
        let mut expanded: Vec<bool> = Vec::new();
        let ghost target = unexpanded(initial_stack(views(znode_paths@)));
        let mut i: usize = znode_paths.len();
        while i > 0
            invariant
                i <= znode_paths@.len(),
                pending@.len() == expanded@.len() == znode_paths@.len() - i,
                target == unexpanded(initial_stack(views(znode_paths@))),
                forall|j: int| 0 <= j < pending@.len() ==> (#[trigger] pending@[j]@, expanded@[j]) == target[j],
            decreases i,
        {
            i = i - 1;
            pending.push(znode_paths[i].clone());
            expanded.push(false);
        }
        let mut excluded: Vec<String> = Vec::new();
        let mut k: usize = 0;
        while k < excluded_znodes.len()
            invariant
                k <= excluded_znodes@.len(),
                views(excluded@) == views(excluded_znodes@).take(k as int),
            decreases excluded_znodes@.len() - k,
        {
            let ghost prev = excluded@;
            excluded.push(excluded_znodes[k].clone());
            assert(views(excluded@) =~= views(prev).push(excluded_znodes@[k as int]@));
            assert(views(excluded@) =~= views(excluded_znodes@).take(k + 1));
            k = k + 1;
        }
        assert(views(excluded_znodes@).take(k as int) =~= views(excluded_znodes@));
        let r = DeleteWalk { pending, expanded, excluded };
        assert(r.stack() =~= target);
        r
    }

    /// The next thing to do. Excluded paths on top of the stack are dropped
    /// unentered; a path met for the first time is kept, marked expanded,
    /// and its children are asked for; a path met again, once its children
    /// are gone, is deleted.
    pub fn next_action(&mut self) -> (r: DeleteAction)
        requires
            old(self).wf(),
        ensures
            final(self).wf(),
            final(self).excluded() == old(self).excluded(),
            ({
                let s = delete_pop(old(self).stack(), old(self).excluded());
                &&& s.len() == 0 ==> r is Done && final(self).stack() == s
                &&& s.len() > 0 && !s.last().1 ==> (r matches DeleteAction::List(p) && p@ == s.last().0
                    && final(self).stack() == s.drop_last().push((s.last().0, true)))
                &&& s.len() > 0 && s.last().1 ==> (r matches DeleteAction::Delete(p) && p@ == s.last().0
                    && final(self).stack() == s.drop_last())
            }),
    {
        let ghost excl = old(self).excluded();
        let ghost target = delete_pop(old(self).stack(), excl);
        let mut action = DeleteAction::Done;
        let mut searching = true;
        while searching && self.pending.len() > 0
            invariant
                self.wf(),
                self.excluded() == excl,
                searching ==> action is Done && delete_pop(self.stack(), excl) == target,
                !searching ==> target.len() > 0 && (if target.last().1 {
                    action matches DeleteAction::Delete(p) && p@ == target.last().0 && self.stack()
                        == target.drop_last()
                } else {
                    action matches DeleteAction::List(p) && p@ == target.last().0 && self.stack()
                        == target.drop_last().push((target.last().0, true))
                }),
            decreases self.pending@.len() + (if searching { 1int } else { 0int }),
        {
            let ghost before = self.stack();
            let p = self.pending.pop().unwrap();
            let e = self.expanded.pop().unwrap();
            assert(self.stack() =~= before.drop_last());
            assert(before.last() == (p@, e));
            if e {
                action = DeleteAction::Delete(p);
                searching = false;
            } else if !is_excluded_exact(p.as_str(), &self.excluded) {
                let again = p.clone();
                self.pending.push(again);
                self.expanded.push(true);
                assert(self.stack() =~= before.drop_last().push((p@, true)));
                action = DeleteAction::List(p);
                searching = false;
            }
        }
        if searching {
            assert(self.stack().len() == 0);
        }
        action
    }

    /// Lays the children of `znode_path` on the stack, first child on top,
    /// none of them expanded yet.
    pub fn push_children(&mut self, znode_path: &str, children: &Vec<String>)
        requires
            old(self).wf(),
        ensures
            final(self).wf(),
            final(self).excluded() == old(self).excluded(),
            final(self).stack() == old(self).stack() + unexpanded(children_stack(znode_path@, views(children@))),
    {
        let current_path = ensure_ends_with_slash(znode_path);
        let ghost start = self.stack();
        let ghost pushed = unexpanded(children_stack(znode_path@, views(children@)));
        let n = children.len();
        let mut i: usize = n;
        while i > 0
            invariant
                i <= n == children@.len(),
                self.wf(),
                current_path@ == with_slash(znode_path@),
                pushed == unexpanded(children_stack(znode_path@, views(children@))),
                self.excluded() == old(self).excluded(),
                self.stack() == start + pushed.take(n - i),
            decreases i,
        {
            i = i - 1;
            let child = current_path.clone().concat(children[i].as_str());
            assert(views(children@)[i as int] == children@[i as int]@);
            assert(pushed[n - 1 - i] == (child@, false));
            let ghost prev = self.stack();
            let ghost c = child@;
            self.pending.push(child);
            self.expanded.push(false);
            assert(self.stack() =~= prev.push((c, false)));
            assert(self.stack() =~= start + pushed.take(n - i));
        }
        assert(pushed.take(n as int) =~= pushed);
    }
}

} // verus!
