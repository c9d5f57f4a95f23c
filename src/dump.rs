use vstd::prelude::*;

use crate::codec::{encode, ensure_ends_with_slash, znode_path_to_tar_path};
use crate::filter::{excluded_exact, is_excluded_exact, views};

verus! {

/// `parent` with a `/` appended unless it already ends with one.
pub open spec fn with_slash(parent: Seq<char>) -> Seq<char> {
    if parent.len() > 0 && parent.last() == '/' {
        parent
    } else {
        parent.push('/')
    }
}

/// The path of the child called `name` under `parent`.
pub open spec fn child_path(parent: Seq<char>, name: Seq<char>) -> Seq<char> {
    with_slash(parent) + name
}

/// The child paths of `parent`, laid on a stack so that the first child is on
/// top (the last element).
pub open spec fn children_stack(parent: Seq<char>, names: Seq<Seq<char>>) -> Seq<Seq<char>> {
    Seq::new(names.len(), |i: int| child_path(parent, names[names.len() - 1 - i]))
}

/// The roots laid on a stack so that the first root is on top.
pub open spec fn initial_stack(roots: Seq<Seq<char>>) -> Seq<Seq<char>> {
    Seq::new(roots.len(), |i: int| roots[roots.len() - 1 - i])
}

/// The stack once every excluded path on its top has been dropped.
pub open spec fn pop_excluded(stack: Seq<Seq<char>>, excluded: Seq<Seq<char>>) -> Seq<Seq<char>>
    decreases stack.len(),
{
    if stack.len() > 0 && excluded_exact(stack.last(), excluded) {
        pop_excluded(stack.drop_last(), excluded)
    } else {
        stack
    }
}

/// What a dump works from: the requested roots, the excluded paths and the
/// archive's file name.
pub struct ZkLoader {
    pub znode_paths: Vec<String>,
    pub excluded_znodes: Vec<String>,
    pub dump_file: String,
}

/// Why a dump does not start.
#[derive(Debug, Clone, Copy, PartialEq, Eq)]
pub enum DumpError {
    /// One or more requested roots are absent from the store.
    MissingRoot,
}

/// One archive entry: its name and the node's payload.
pub struct ArchiveEntry {
    pub name: String,
    pub payload: Vec<u8>,
}

/// A depth-first, pre-order walk over a live tree, holding only the paths
/// still to visit. The caller drives it: `next_znode` names the node to
/// fetch, `archive_entry` turns what was fetched into an entry (or nothing,
/// for a transient node), and `push_children` lays the listed children on the
/// stack.
pub struct DumpWalk {
    pending: Vec<String>,
    excluded: Vec<String>,
}

impl ZkLoader {
    /// A loader, provided the store's root `/` could be read.
    pub fn new(
        znode_paths: Vec<String>,
        dump_file: &str,
        excluded_znodes: Vec<String>,
        root_readable: bool,
    ) -> (r: Result<ZkLoader, String>)
        ensures
            root_readable <==> r is Ok,
            r matches Ok(l) ==> l.znode_paths@ == znode_paths@ && l.excluded_znodes@
                == excluded_znodes@ && l.dump_file@ == dump_file@,
            r matches Err(e) ==> e@ == "Connection failed: "@,
    {
        if root_readable {
            Ok(ZkLoader { znode_paths, excluded_znodes, dump_file: String::from_str(dump_file) })
        } else {
            Err(String::from_str("Connection failed: "))
        }
    }

    /// True when every requested root exists; `present[i]` says whether the
    /// `i`-th root was found in the store.
    pub fn all_znodes_exist(&self, present: &Vec<bool>) -> (r: bool)
        requires
            present@.len() == self.znode_paths@.len(),
        ensures
            r == (forall|i: int| 0 <= i < present@.len() ==> present@[i]),
    {
        let mut i: usize = 0;
        while i < present.len()
            invariant
                i <= present@.len(),
                forall|j: int| 0 <= j < i ==> present@[j],
            decreases present@.len() - i,
        {
            if !present[i] {
                return false;
            }
            i = i + 1;
        }
        true
    }
}

/// Starts a dump: refused when a requested root is absent, so that nothing is
/// written; otherwise a walk with the roots on its stack, first root on top.
pub fn dump(loader: &ZkLoader, present: &Vec<bool>) -> (r: Result<DumpWalk, DumpError>)
    requires
        present@.len() == loader.znode_paths@.len(),
    ensures
        r is Err <==> exists|i: int| 0 <= i < present@.len() && !present@[i],
        r matches Err(e) ==> e == DumpError::MissingRoot,
        r matches Ok(w) ==> w.stack() == initial_stack(views(loader.znode_paths@)) && w.excluded()
            == views(loader.excluded_znodes@),
{
    if !loader.all_znodes_exist(present) {
        return Err(DumpError::MissingRoot);
    }
    let roots = &loader.znode_paths;
    let mut pending: Vec<String> = Vec::new();
    let mut i: usize = roots.len();
    while i > 0
        invariant
            i <= roots@.len(),
            views(pending@) == initial_stack(views(roots@)).take(roots@.len() - i),
        decreases i,
    {
        i = i - 1;
        let ghost prev = pending@;
        pending.push(roots[i].clone());
        assert(views(pending@) =~= views(prev).push(roots@[i as int]@));
        assert(views(pending@) =~= initial_stack(views(roots@)).take(roots@.len() - i));
    }
    assert(initial_stack(views(roots@)).take(roots@.len() as int) =~= initial_stack(views(roots@)));
    let mut excluded: Vec<String> = Vec::new();
    let mut k: usize = 0;
    while k < loader.excluded_znodes.len()
        invariant
            k <= loader.excluded_znodes@.len(),
            views(excluded@) == views(loader.excluded_znodes@).take(k as int),
        decreases loader.excluded_znodes@.len() - k,
    {
        let ghost prev = excluded@;
        excluded.push(loader.excluded_znodes[k].clone());
        assert(views(excluded@) =~= views(prev).push(loader.excluded_znodes@[k as int]@));
        assert(views(excluded@) =~= views(loader.excluded_znodes@).take(k + 1));
        k = k + 1;
    }
    assert(views(loader.excluded_znodes@).take(k as int) =~= views(loader.excluded_znodes@));
    Ok(DumpWalk { pending, excluded })
}

/// The archive entry for a fetched node: none for a transient node, else its
/// encoded path and its payload.
pub fn archive_entry(znode_path: &str, data: Vec<u8>, ephemeral: bool) -> (r: Option<ArchiveEntry>)
    ensures
        ephemeral <==> r is None,
        r matches Some(e) ==> e.name@ == encode(znode_path@) && e.payload@ == data@,
{
    if ephemeral {
        None
    } else {
        Some(ArchiveEntry { name: znode_path_to_tar_path(znode_path), payload: data })
    }
}

impl DumpWalk {
    /// The paths still to visit; the last is on top.
    pub closed spec fn stack(&self) -> Seq<Seq<char>> {
        views(self.pending@)
    }

    /// The paths that the walk skips, with their subtrees.
    pub closed spec fn excluded(&self) -> Seq<Seq<char>> {
        views(self.excluded@)
    }

    /// The next node to fetch: excluded paths on top of the stack are dropped
    /// unvisited; `None` once the stack is empty.
    pub fn next_znode(&mut self) -> (r: Option<String>)
        ensures
            final(self).excluded() == old(self).excluded(),
            ({
                let s = pop_excluded(old(self).stack(), old(self).excluded());
                &&& r is None <==> s.len() == 0
                &&& r is None ==> final(self).stack() == s
                &&& r matches Some(p) ==> p@ == s.last() && final(self).stack() == s.drop_last()
            }),
    {
        let ghost excl = old(self).excluded();
        let ghost target = pop_excluded(old(self).stack(), excl);
        let mut found: Option<String> = None;
        while found.is_none() && self.pending.len() > 0
            invariant
                self.excluded() == excl,
                found is None ==> pop_excluded(self.stack(), excl) == target,
                found matches Some(p) ==> target.len() > 0 && p@ == target.last() && self.stack()
                    == target.drop_last(),
            decreases self.pending@.len(),
        {
            let ghost before = self.stack();
            let p = self.pending.pop().unwrap();
            assert(self.stack() =~= before.drop_last());
            if !is_excluded_exact(p.as_str(), &self.excluded) {
                found = Some(p);
            }
        }
        found
    }

    /// Lays the children of `znode_path` on the stack, first child on top.
    pub fn push_children(&mut self, znode_path: &str, children: &Vec<String>)
        ensures
            final(self).excluded() == old(self).excluded(),
            final(self).stack() == old(self).stack() + children_stack(znode_path@, views(children@)),
    {
        let current_path = ensure_ends_with_slash(znode_path);
        let ghost start = self.stack();
        let ghost pushed = children_stack(znode_path@, views(children@));
        let n = children.len();
        let mut i: usize = n;
        while i > 0
            invariant
                i <= n == children@.len(),
                current_path@ == with_slash(znode_path@),
                pushed == children_stack(znode_path@, views(children@)),
                self.excluded() == old(self).excluded(),
                self.stack() == start + pushed.take(n - i),
            decreases i,
        {
            i = i - 1;
            let child = current_path.clone().concat(children[i].as_str());
            assert(views(children@)[i as int] == children@[i as int]@);
            assert(pushed[n - 1 - i] == child@);
            let ghost prev = self.pending@;
            let ghost c = child@;
            self.pending.push(child);
            assert(views(self.pending@) =~= views(prev).push(c));
            assert(self.stack() =~= start + pushed.take(n - i));
        }
        assert(pushed.take(n as int) =~= pushed);
    }
}

} // verus!
