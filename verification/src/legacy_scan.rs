//! The search for files that an older layout left behind: every file of a
//! service is looked at, one directory at a time.
use vstd::prelude::*;

use crate::fs_safety;
use crate::fs_safety::{
    join_path, PortableDirectoryEntry, PortableDirectoryIndex, SafeEntryKind,
    MAX_SERVICE_TREE_DEPTH, MAX_SERVICE_TREE_NODES,
};
use crate::text::owned;

verus! {

/// A directory whose entries are still to be looked at.
#[derive(Debug)]
pub struct WaitingDirectory {
    pub path: String,
    pub depth: usize,
}

/// The search of one service. The last directory comes next.
#[derive(Debug)]
pub struct LegacyScan {
    pub waiting: Vec<WaitingDirectory>,
    pub visited: usize,
}

/// Why the search ends early.
#[derive(Debug, Clone, Copy, PartialEq, Eq, Structural)]
pub enum LegacyScanProblem {
    TooDeep,
}

/// What one directory holds: the places of the files to look at, in order, and
/// whether the service then turned out to have too many entries.
#[derive(Debug)]
pub struct LegacyFiles {
    pub files: Vec<usize>,
    pub too_many: bool,
}

/// The places of the files among the first `n` entries.
pub open spec fn file_places(entries: Seq<PortableDirectoryEntry>, n: int) -> Seq<usize>
    decreases n,
{
    if n <= 0 {
        Seq::empty()
    } else if entries[n - 1].kind == SafeEntryKind::Directory {
        file_places(entries, n - 1)
    } else {
        file_places(entries, n - 1).push((n - 1) as usize)
    }
}

/// The paths of the directories among the first `n` entries.
pub open spec fn directories(
    parent: Seq<char>,
    entries: Seq<PortableDirectoryEntry>,
    n: int,
) -> Seq<Seq<char>>
    decreases n,
{
    if n <= 0 {
        Seq::empty()
    } else if entries[n - 1].kind == SafeEntryKind::Directory {
        directories(parent, entries, n - 1).push(
            fs_safety::below(parent, entries[n - 1].fragment@),
        )
    } else {
        directories(parent, entries, n - 1)
    }
}

/// How many of `n` entries are looked at after `visited` others.
pub open spec fn looked_at(visited: int, n: int) -> int {
    if visited + n <= MAX_SERVICE_TREE_NODES {
        n
    } else {
        MAX_SERVICE_TREE_NODES - visited
    }
}

impl LegacyScan {
    pub open spec fn wf(&self) -> bool {
        &&& self.visited <= MAX_SERVICE_TREE_NODES
        &&& forall|i: int|
            0 <= i < self.waiting@.len() ==> (#[trigger] self.waiting@[i]).depth
                <= MAX_SERVICE_TREE_DEPTH + 1
    }

    /// Searches a service from its directory on.
    pub fn reject_legacy_reserved_init_leafs(service_path: &str) -> (s: LegacyScan)
        ensures
            s.wf(),
            s.visited == 0,
            s.waiting@.len() == 1,
            s.waiting@[0].path@ == service_path@ && s.waiting@[0].depth == 0,
    {
        let mut waiting: Vec<WaitingDirectory> = Vec::new();
        waiting.push(WaitingDirectory { path: owned(service_path), depth: 0 });
        LegacyScan { waiting, visited: 0 }
    }

    /// The directory to read next; nothing when the search is over.
    pub fn next(&self) -> (r: Result<Option<&str>, LegacyScanProblem>)
        requires
            self.wf(),
        ensures
            if self.waiting@.len() == 0 {
                r == Ok::<Option<&str>, LegacyScanProblem>(None)
            } else if self.waiting@.last().depth > MAX_SERVICE_TREE_DEPTH {
                r == Err::<Option<&str>, LegacyScanProblem>(LegacyScanProblem::TooDeep)
            } else {
                r matches Ok(Some(path)) && path@ == self.waiting@.last().path@
            },
    {
        let len: usize = self.waiting.len();
        if len == 0 {
            return Ok(None);
        }
        let last = &self.waiting[len - 1];
        if last.depth > MAX_SERVICE_TREE_DEPTH {
            return Err(LegacyScanProblem::TooDeep);
        }
        Ok(Some(last.path.as_str()))
    }

    /// Takes the entries of that directory.
    pub fn visit(&mut self, index: &PortableDirectoryIndex) -> (out: LegacyFiles)
        requires
            old(self).wf(),
            old(self).waiting@.len() > 0,
            old(self).waiting@.last().depth <= MAX_SERVICE_TREE_DEPTH,
        ensures
            final(self).wf(),
            ({
                let entries = index.entries@;
                let n = looked_at(old(self).visited as int, entries.len() as int);
                let rest = old(self).waiting@.drop_last();
                let last = old(self).waiting@.last();
                let found = directories(last.path@, entries, n);
                &&& out.files@ == file_places(entries, n)
                &&& out.too_many == (n < entries.len())
                &&& final(self).visited == old(self).visited + n
                &&& final(self).waiting@.len() == rest.len() + found.len()
                &&& final(self).waiting@.take(rest.len() as int) == rest
                &&& forall|i: int|
                    0 <= i < found.len() ==> {
                        let d = #[trigger] final(self).waiting@[rest.len() + i];
                        d.path@ == found[i] && d.depth == last.depth + 1
                    }
            }),
    {
        let ghost rest = self.waiting@.drop_last();
        let ghost visited_before = self.visited as int;
        let last = match self.waiting.pop() {
            Some(last) => last,
            None => return LegacyFiles { files: Vec::new(), too_many: false },
        };
        assert(self.waiting@ =~= rest);
        assert(self.waiting@.take(rest.len() as int) =~= rest);
        let entries = index.entries();
        let ghost parent = last.path@;
        let mut files: Vec<usize> = Vec::new();
        let mut n: usize = 0;
        let ghost all = entries@;
        let ghost stop = looked_at(visited_before, all.len() as int);
        while n < entries.len() && self.visited < MAX_SERVICE_TREE_NODES
            invariant
                all == entries@,
                stop == looked_at(visited_before, all.len() as int),
                0 <= visited_before <= MAX_SERVICE_TREE_NODES,
                n <= stop <= all.len(),
                self.visited == visited_before + n,
                self.wf(),
                files@ == file_places(all, n as int),
                parent == last.path@,
                last.depth <= MAX_SERVICE_TREE_DEPTH,
                self.waiting@.len() == rest.len() + directories(parent, all, n as int).len(),
                self.waiting@.take(rest.len() as int) == rest,
                forall|i: int|
                    0 <= i < directories(parent, all, n as int).len() ==> {
                        let d = #[trigger] self.waiting@[rest.len() + i];
                        d.path@ == directories(parent, all, n as int)[i] && d.depth == last.depth
                            + 1
                    },
            decreases all.len() - n,
        {
            let ghost waiting_before = self.waiting@;
            let ghost found_before = directories(parent, all, n as int);
            self.visited = self.visited + 1;
            if matches!(entries[n].kind, SafeEntryKind::Directory) {
                self.waiting.push(
                    WaitingDirectory {
                        path: join_path(last.path.as_str(), entries[n].fragment.as_str()),
                        depth: last.depth + 1,
                    },
                );
                proof {
                    assert(self.waiting@.take(rest.len() as int) =~= waiting_before.take(
                        rest.len() as int,
                    ));
                    let found = directories(parent, all, n + 1);
                    assert forall|i: int| 0 <= i < found.len() implies {
                        let d = #[trigger] self.waiting@[rest.len() + i];
                        d.path@ == found[i] && d.depth == last.depth + 1
                    } by {
                        if i < found_before.len() {
                            assert(self.waiting@[rest.len() + i] == waiting_before[rest.len() + i]);
                        }
                    }
                }
            } else {
                files.push(n);
            }
            n += 1;
        }
        proof {
            assert(n == stop);
        }
        LegacyFiles { files, too_many: n < entries.len() }
    }
}

} // verus!
