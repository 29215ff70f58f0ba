//! Trusted roots, directories that are indexed once for many paths, and chains of
//! directories that are made one component at a time.
use vstd::prelude::*;

use crate::fs_safety;
use crate::fs_safety::{
    directory_generation_no_follow, join_path, normal_components, same_generation, same_identity,
    DirectoryPolicy, FileIdentity, GuardProblem, ObjectKind, ObjectProblem, Observed,
    PathParentGuard, PortableDirectoryIndex, SafeEntryKind, WalkProblem, MAX_SERVICE_TREE_DEPTH,
};
use crate::text::{owned, same};

verus! {

/// Why a directory is not trusted as a root.
#[derive(Debug, Clone, Copy, PartialEq, Eq, Structural)]
pub enum RootProblem {
    /// What is wrong with it before its canonical path was asked for.
    Before(ObjectProblem),
    /// What is wrong with it afterwards.
    After(ObjectProblem),
    /// Another object took its place meanwhile.
    Replaced,
    /// What is wrong with its canonical path.
    Canonical(ObjectProblem),
    /// Its canonical path names another object.
    Elsewhere,
}

pub open spec fn directory_problem(seen: Option<Observed>) -> Option<ObjectProblem> {
    fs_safety::generation_problem(seen, ObjectKind::Directory, ObjectProblem::NotADirectory)
}

/// What is wrong with a root that was seen before and after its canonical path
/// was asked for, and whose canonical path was then looked at.
pub open spec fn root_problem(
    before: Option<Observed>,
    after: Option<Observed>,
    canonical: Option<Observed>,
) -> Option<RootProblem> {
    if directory_problem(before) is Some {
        Some(RootProblem::Before(directory_problem(before)->0))
    } else if directory_problem(after) is Some {
        Some(RootProblem::After(directory_problem(after)->0))
    } else if before->0.generation.identity != after->0.generation.identity {
        Some(RootProblem::Replaced)
    } else if directory_problem(canonical) is Some {
        Some(RootProblem::Canonical(directory_problem(canonical)->0))
    } else if after->0.generation.identity != canonical->0.generation.identity {
        Some(RootProblem::Elsewhere)
    } else {
        None
    }
}

/// Trusts the canonical path of a directory only where the path that was given
/// and the canonical one name the same object all the time.
pub fn stable_canonical_directory(
    before: Option<Observed>,
    after: Option<Observed>,
    canonical: Option<Observed>,
) -> (r: Result<(), RootProblem>)
    ensures
        match r {
            Ok(()) => root_problem(before, after, canonical) is None,
            Err(p) => root_problem(before, after, canonical) == Some(p),
        },
{
    let first = match directory_generation_no_follow(before) {
        Err(p) => return Err(RootProblem::Before(p)),
        Ok(first) => first,
    };
    let second = match directory_generation_no_follow(after) {
        Err(p) => return Err(RootProblem::After(p)),
        Ok(second) => second,
    };
    if !same_identity(&first.identity, &second.identity) {
        return Err(RootProblem::Replaced);
    }
    let third = match directory_generation_no_follow(canonical) {
        Err(p) => return Err(RootProblem::Canonical(p)),
        Ok(third) => third,
    };
    if !same_identity(&second.identity, &third.identity) {
        return Err(RootProblem::Elsewhere);
    }
    Ok(())
}

/// A directory that was indexed.
#[derive(Debug)]
pub struct CachedIndex {
    pub path: String,
    pub policy: DirectoryPolicy,
    pub index: PortableDirectoryIndex,
}

/// The directories that were indexed for a batch of paths. An index is used again
/// only while its directory is of the same generation.
#[derive(Debug)]
pub struct SyncedPathValidationCache {
    pub entries: Vec<CachedIndex>,
}

/// The place of the index of a directory, from `k` on.
pub open spec fn index_place(
    s: Seq<CachedIndex>,
    path: Seq<char>,
    policy: DirectoryPolicy,
    k: int,
) -> Option<int>
    decreases s.len() - k,
{
    if k < 0 || k >= s.len() {
        None
    } else if s[k].path@ == path && s[k].policy == policy {
        Some(k)
    } else {
        index_place(s, path, policy, k + 1)
    }
}

/// The indices without that of a directory.
pub open spec fn without(
    s: Seq<CachedIndex>,
    path: Seq<char>,
    policy: DirectoryPolicy,
) -> Seq<CachedIndex> {
    match index_place(s, path, policy, 0) {
        Some(k) => s.remove(k),
        None => s,
    }
}

proof fn lemma_index_place(s: Seq<CachedIndex>, path: Seq<char>, policy: DirectoryPolicy, k: int)
    requires
        0 <= k,
    ensures
        index_place(s, path, policy, k) matches Some(i) ==> k <= i < s.len() && s[i].path@ == path
            && s[i].policy == policy,
    decreases s.len() - k,
{
    if k < s.len() && !(s[k].path@ == path && s[k].policy == policy) {
        lemma_index_place(s, path, policy, k + 1);
    }
}

impl SyncedPathValidationCache {
    pub fn new() -> (c: Self)
        ensures
            c.entries@.len() == 0,
    {
        SyncedPathValidationCache { entries: Vec::new() }
    }

    fn find(&self, path: &str, policy: DirectoryPolicy) -> (r: Option<usize>)
        ensures
            match r {
                Some(k) => index_place(self.entries@, path@, policy, 0) == Some(k as int) && k
                    < self.entries@.len(),
                None => index_place(self.entries@, path@, policy, 0) is None,
            },
    {
        let mut k: usize = 0;
        while k < self.entries.len()
            invariant
                k <= self.entries@.len(),
                index_place(self.entries@, path@, policy, 0) == index_place(
                    self.entries@,
                    path@,
                    policy,
                    k as int,
                ),
            decreases self.entries@.len() - k,
        {
            if same(self.entries[k].path.as_str(), path) && self.entries[k].policy == policy {
                return Some(k);
            }
            k += 1;
        }
        None
    }

    /// The place of the index of a directory that was just looked at, where it
    /// can be used again. An index that cannot is dropped.
    pub fn reuse(&mut self, path: &str, policy: DirectoryPolicy, seen: Option<Observed>) -> (r:
        Result<Option<usize>, ObjectProblem>)
        ensures
            ({
                let before = old(self).entries@;
                let k = index_place(before, path@, policy, 0);
                match directory_problem(seen) {
                    Some(p) => {
                        &&& r == Err::<Option<usize>, ObjectProblem>(p)
                        &&& final(self).entries@ == without(before, path@, policy)
                    },
                    None => if k is Some && before[k->0].index.generation == seen->0.generation {
                        &&& r == Ok::<Option<usize>, ObjectProblem>(Some(k->0 as usize))
                        &&& final(self).entries@ == before
                    } else {
                        &&& r == Ok::<Option<usize>, ObjectProblem>(None)
                        &&& final(self).entries@ == without(before, path@, policy)
                    },
                }
            }),
    {
        let found = self.find(path, policy);
        let current = match directory_generation_no_follow(seen) {
            Err(p) => {
                if let Some(k) = found {
                    let _ = self.entries.remove(k);
                }
                return Err(p);
            },
            Ok(current) => current,
        };
        match found {
            Some(k) => {
                if same_generation(&self.entries[k].index.generation, &current) {
                    return Ok(Some(k));
                }
                let _ = self.entries.remove(k);
                Ok(None)
            },
            None => Ok(None),
        }
    }

    /// Keeps the index of a directory; gives its place.
    pub fn keep(&mut self, path: String, policy: DirectoryPolicy, index: PortableDirectoryIndex) -> (k:
        usize)
        ensures
            final(self).entries@ == old(self).entries@.push(CachedIndex { path, policy, index }),
            k == old(self).entries@.len(),
    {
        let k: usize = self.entries.len();
        self.entries.push(CachedIndex { path, policy, index });
        k
    }

    /// The index at a place.
    pub fn index(&self, k: usize) -> (r: &PortableDirectoryIndex)
        requires
            k < self.entries@.len(),
        ensures
            *r == self.entries@[k as int].index,
    {
        &self.entries[k].index
    }
}

/// An index is used again only for the generation of the directory that it is of.
pub proof fn law_reused_index_is_current(
    before: Seq<CachedIndex>,
    path: Seq<char>,
    policy: DirectoryPolicy,
    seen: Observed,
)
    requires
        directory_problem(Some(seen)) is None,
    ensures
        ({
            let k = index_place(before, path, policy, 0);
            k is Some && before[k->0].index.generation == seen.generation ==> {
                &&& 0 <= k->0 < before.len()
                &&& before[k->0].path@ == path
                &&& before[k->0].policy == policy
                &&& before[k->0].index.generation == seen.generation
            }
        }),
{
    lemma_index_place(before, path, policy, 0);
}

/// Why a chain of directories is not made.
#[derive(Debug, Clone, Copy, PartialEq, Eq, Structural)]
pub enum ChainProblem {
    /// The component at that place names no entry of a directory.
    Component(usize),
    TooDeep,
    /// The component at that depth is a link.
    Linked(usize),
    /// The component at that depth is no directory.
    OtherObject(usize),
    /// The component at that depth differs from an entry by case alone.
    Alias(usize),
    /// What is wrong with the directory that was made.
    Created(ObjectProblem),
    /// A directory of the chain is no longer what it was.
    Guard(GuardProblem),
}

/// What is done about a component.
#[derive(Debug)]
pub enum ChainStep {
    /// The directory is there.
    Entered,
    /// The directory of that path is made.
    Create(String),
}

/// A chain of directories below a base, made one component at a time.
#[derive(Debug)]
pub struct DirectoryChain {
    pub components: Vec<String>,
    pub at: usize,
    /// The directory of the components so far.
    pub current: String,
    /// The base and the directories of the components so far, with their
    /// identities.
    pub guard: PathParentGuard,
}

/// What is done about one component, from the index of its directory: `true`
/// where it is there, `false` where it is made.
pub open spec fn chain_step(
    index: fs_safety::IndexModel,
    fragment: Seq<char>,
    at: usize,
) -> Result<bool, ChainProblem> {
    let place = fs_safety::exact_place(index.entries, fragment);
    let aliases = fs_safety::folded_places(index.entries, fragment, index.entries.len() as int);
    let links = fs_safety::folded_links(index.linked, fragment, index.linked.len() as int);
    if index.linked.contains(fragment) {
        Err(ChainProblem::Linked(at))
    } else if place is Some {
        if index.entries[place->0 as int].kind == SafeEntryKind::Directory {
            Ok(true)
        } else {
            Err(ChainProblem::OtherObject(at))
        }
    } else if aliases.len() > 0 || links > 0 {
        Err(ChainProblem::Alias(at))
    } else {
        Ok(false)
    }
}

/// Starts a chain of directories below a trusted base of that identity.
pub fn ensure_descendant_directory_chain(
    base: String,
    identity: FileIdentity,
    components: Vec<String>,
) -> (r: Result<DirectoryChain, ChainProblem>)
    ensures
        match fs_safety::abnormal_from(components@, 0) {
            Some(k) => r matches Err(p) && p == ChainProblem::Component(k),
            None => if components@.len() > MAX_SERVICE_TREE_DEPTH {
                r matches Err(p) && p == ChainProblem::TooDeep
            } else {
                r matches Ok(c) && c.wf() && c.components == components && c.at == 0 && c.current
                    == base && c.guard.parents@[0].0@ == base@ && c.guard.parents@[0].1 == identity
            },
        },
{
    let components = match normal_components(components) {
        Err(WalkProblem::Component(k)) => return Err(ChainProblem::Component(k)),
        Err(_) => return Err(ChainProblem::TooDeep),
        Ok(components) => components,
    };
    if components.len() > MAX_SERVICE_TREE_DEPTH {
        return Err(ChainProblem::TooDeep);
    }
    let mut parents: Vec<(String, FileIdentity)> = Vec::new();
    parents.push((owned(base.as_str()), identity));
    Ok(DirectoryChain { components, at: 0, current: base, guard: PathParentGuard { parents } })
}

impl DirectoryChain {
    /// Every component names an entry of the directory before it, and each
    /// directory so far is guarded.
    pub open spec fn wf(&self) -> bool {
        &&& self.at <= self.components@.len()
        &&& self.guard.parents@.len() == self.at + 1
        &&& self.guard.parents@.last().0@ == self.current@
        &&& forall|i: int|
            0 <= i < self.components@.len() ==> fs_safety::is_normal(#[trigger] self.components@[i]@)
    }

    /// The path of the next component.
    pub open spec fn next_path(&self) -> Seq<char> {
        fs_safety::below(self.current@, self.components@[self.at as int]@)
    }

    /// Whether a chain is this one after the next component, a directory of that
    /// identity, was entered.
    pub open spec fn entered(&self, next: DirectoryChain, identity: FileIdentity) -> bool {
        &&& next.components == self.components
        &&& next.at == self.at + 1
        &&& next.current@ == self.next_path()
        &&& next.guard.parents@.drop_last() == self.guard.parents@
        &&& next.guard.parents@.last().1 == identity
    }

    /// The directory to index next; nothing when the chain is complete.
    pub fn wants(&self) -> (r: Option<&str>)
        requires
            self.wf(),
        ensures
            match r {
                Some(path) => self.at < self.components@.len() && path@ == self.current@,
                None => self.at == self.components@.len(),
            },
    {
        if self.at < self.components.len() {
            Some(self.current.as_str())
        } else {
            None
        }
    }

    /// Goes on with the directory that was indexed, and with what the guarded
    /// directories are since.
    pub fn step(&mut self, index: &PortableDirectoryIndex, seen: &[Option<Observed>]) -> (r: Result<
        ChainStep,
        ChainProblem,
    >)
        requires
            old(self).wf(),
            old(self).at < old(self).components@.len(),
            seen@.len() == old(self).guard.parents@.len(),
        ensures
            final(self).wf(),
            match fs_safety::guard_problem(old(self).guard.parents@, seen@, 0) {
                Some(p) => {
                    &&& r matches Err(q) && q == ChainProblem::Guard(p)
                    &&& *final(self) == *old(self)
                },
                None => {
                    let fragment = old(self).components@[old(self).at as int]@;
                    let place = fs_safety::exact_place(index@.entries, fragment);
                    match chain_step(index@, fragment, old(self).at) {
                        Err(p) => {
                            &&& r matches Err(q) && q == p
                            &&& *final(self) == *old(self)
                        },
                        Ok(true) => {
                            &&& r matches Ok(ChainStep::Entered)
                            &&& old(self).entered(
                                *final(self),
                                index@.entries[place->0 as int].generation.identity,
                            )
                        },
                        Ok(false) => {
                            &&& r matches Ok(ChainStep::Create(path)) && path@ == old(
                                self,
                            ).next_path()
                            &&& *final(self) == *old(self)
                        },
                    }
                },
            },
    {
        match self.guard.verify(seen) {
            Err(p) => return Err(ChainProblem::Guard(p)),
            Ok(()) => {},
        }
        let count: usize = self.components.len();
        let fragment: &str = self.components[self.at].as_str();
        if index.exact_link(fragment) {
            return Err(ChainProblem::Linked(self.at));
        }
        let next = join_path(self.current.as_str(), fragment);
        if let Some(k) = index.exact(fragment) {
            proof {
                assert(index@.entries[k as int] == index.entries@[k as int]@);
            }
            let entry = &index.entries()[k];
            if !matches!(entry.kind, SafeEntryKind::Directory) {
                return Err(ChainProblem::OtherObject(self.at));
            }
            assert(self.at < count);
            self.enter(next, entry.generation.identity);
            return Ok(ChainStep::Entered);
        }
        if index.folded_matches(fragment).len() > 0 || index.folded_link_matches(fragment) > 0 {
            return Err(ChainProblem::Alias(self.at));
        }
        Ok(ChainStep::Create(next))
    }

    /// Goes on with the directory that was made, or that another made meanwhile,
    /// and with what the guarded directories are since.
    pub fn created(&mut self, made: Option<Observed>, seen: &[Option<Observed>]) -> (r: Result<
        (),
        ChainProblem,
    >)
        requires
            old(self).wf(),
            old(self).at < old(self).components@.len(),
            seen@.len() == old(self).guard.parents@.len(),
        ensures
            final(self).wf(),
            match fs_safety::guard_problem(old(self).guard.parents@, seen@, 0) {
                Some(p) => {
                    &&& r == Err::<(), ChainProblem>(ChainProblem::Guard(p))
                    &&& *final(self) == *old(self)
                },
                None => match directory_problem(made) {
                    Some(p) => {
                        &&& r == Err::<(), ChainProblem>(ChainProblem::Created(p))
                        &&& *final(self) == *old(self)
                    },
                    None => {
                        &&& r is Ok
                        &&& old(self).entered(*final(self), made->0.generation.identity)
                    },
                },
            },
    {
        match self.guard.verify(seen) {
            Err(p) => return Err(ChainProblem::Guard(p)),
            Ok(()) => {},
        }
        let generation = match directory_generation_no_follow(made) {
            Err(p) => return Err(ChainProblem::Created(p)),
            Ok(generation) => generation,
        };
        let count: usize = self.components.len();
        let next = join_path(self.current.as_str(), self.components[self.at].as_str());
        assert(self.at < count);
        self.enter(next, generation.identity);
        Ok(())
    }

    fn enter(&mut self, next: String, identity: FileIdentity)
        requires
            old(self).wf(),
            old(self).at < old(self).components@.len(),
            next@ == old(self).next_path(),
        ensures
            final(self).wf(),
            old(self).entered(*final(self), identity),
    {
        let count: usize = self.components.len();
        assert(self.at < count);
        let ghost before = self.guard.parents@;
        self.guard.parents.push((owned(next.as_str()), identity));
        self.current = next;
        self.at = self.at + 1;
        proof {
            assert(self.guard.parents@.drop_last() =~= before);
        }
    }
}

/// A directory is made, and what was made is entered, only where every directory
/// of the chain so far is the one that was entered before.
pub proof fn law_chain_is_fenced(chain: DirectoryChain, seen: Seq<Option<Observed>>, k: int)
    requires
        chain.wf(),
        seen.len() == chain.guard.parents@.len(),
        fs_safety::guard_problem(chain.guard.parents@, seen, 0) is None,
        0 <= k <= chain.at,
    ensures
        seen[k] matches Some(o) && o.kind == ObjectKind::Directory && o.generation.identity
            == chain.guard.parents@[k].1,
{
    fs_safety::law_guard_means_same_directories(chain.guard.parents@, seen, k);
}

} // verus!
