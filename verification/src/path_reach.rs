//! Where a whole walk down a path ends, on a disk that does not change meanwhile.
use vstd::prelude::*;

use crate::fs_safety;
use crate::fs_safety::{
    exact_place, folded_links, folded_places, path_below, DirectoryPolicy, IndexModel, PathWalk,
    WalkProblem,
};
use crate::text;

verus! {

/// The walk before its component `k` is looked up.
pub open spec fn walk_at(w: PathWalk, k: int) -> PathWalk {
    PathWalk { at: k as usize, ..w }
}

/// The directory that component `k` is looked up in.
pub open spec fn looked_up(
    disk: spec_fn(Seq<char>, DirectoryPolicy) -> IndexModel,
    base: Seq<char>,
    w: PathWalk,
    k: int,
) -> IndexModel {
    disk(path_below(base, w.components@, k), walk_at(w, k).wanted()->0)
}

/// What a walk comes to from its component `k` on, where each directory is read as
/// the disk says of its path.
pub open spec fn reached(
    disk: spec_fn(Seq<char>, DirectoryPolicy) -> IndexModel,
    base: Seq<char>,
    w: PathWalk,
    k: int,
) -> Result<PathWalk, WalkProblem>
    decreases w.components@.len() - k,
{
    if k < 0 || k >= w.components@.len() {
        Ok(walk_at(w, k))
    } else {
        match walk_at(w, k).step_of(looked_up(disk, base, w, k)) {
            Err(p) => Err(p),
            Ok(true) => reached(disk, base, w, k + 1),
            Ok(false) => Ok(PathWalk { missing: true, ..walk_at(w, k) }),
        }
    }
}

/// Whether component `k` is an entry in its exact spelling, and no link.
pub open spec fn exact_at(
    disk: spec_fn(Seq<char>, DirectoryPolicy) -> IndexModel,
    base: Seq<char>,
    w: PathWalk,
    k: int,
) -> bool {
    let index = looked_up(disk, base, w, k);
    let fragment = w.components@[k]@;
    &&& exists|i: int|
        0 <= i < index.entries.len() && (#[trigger] index.entries[i]).fragment == fragment
    &&& w.synced || !index.linked.contains(fragment)
}

/// Whether nothing has the name of component `k`, in any case.
pub open spec fn absent_at(
    disk: spec_fn(Seq<char>, DirectoryPolicy) -> IndexModel,
    base: Seq<char>,
    w: PathWalk,
    k: int,
) -> bool {
    let index = looked_up(disk, base, w, k);
    let name = text::lower(w.components@[k]@);
    &&& forall|i: int|
        0 <= i < index.entries.len() ==> text::lower((#[trigger] index.entries[i]).fragment)
            != name
    &&& w.synced || forall|i: int|
        0 <= i < index.linked.len() ==> text::lower(#[trigger] index.linked[i]) != name
}

proof fn lemma_folded_places(s: Seq<fs_safety::EntryModel>, fragment: Seq<char>, n: int)
    requires
        0 <= n <= s.len(),
    ensures
        folded_places(s, fragment, n).len() == 0 <==> forall|k: int|
            0 <= k < n ==> text::lower((#[trigger] s[k]).fragment) != text::lower(fragment),
    decreases n,
{
    if n > 0 {
        lemma_folded_places(s, fragment, n - 1);
        assert(s[n - 1] == s[n - 1]);
    }
}

proof fn lemma_folded_links(s: Seq<Seq<char>>, fragment: Seq<char>, n: int)
    requires
        0 <= n <= s.len(),
    ensures
        folded_links(s, fragment, n) == 0 <==> forall|k: int|
            0 <= k < n ==> text::lower(#[trigger] s[k]) != text::lower(fragment),
    decreases n,
{
    if n > 0 {
        lemma_folded_links(s, fragment, n - 1);
        assert(s[n - 1] == s[n - 1]);
    }
}

/// Exact components are walked through.
proof fn lemma_walked_through(
    disk: spec_fn(Seq<char>, DirectoryPolicy) -> IndexModel,
    base: Seq<char>,
    w: PathWalk,
    k: int,
)
    requires
        w.at == 0,
        !w.missing,
        0 <= k <= w.components@.len(),
        w.components@.len() <= usize::MAX,
        forall|j: int| 0 <= j < k ==> exact_at(disk, base, w, j),
    ensures
        reached(disk, base, w, 0) == reached(disk, base, w, k),
    decreases k,
{
    if k > 0 {
        lemma_walked_through(disk, base, w, k - 1);
        assert(exact_at(disk, base, w, k - 1));
        assert(exact_place(
            looked_up(disk, base, w, k - 1).entries,
            w.components@[k - 1]@,
        ) is Some);
    }
}

/// A walk goes through every component that is an entry in its exact spelling, and
/// ends at the first that is none: with an error where that one is a link or
/// differs from an entry or a link by case alone, whatever is allowed, and as a
/// missing tail, where that is allowed, where nothing has its name.
pub proof fn law_walk_ends_at_the_first_inexact_component(
    disk: spec_fn(Seq<char>, DirectoryPolicy) -> IndexModel,
    base: Seq<char>,
    w: PathWalk,
    k: int,
)
    requires
        w.wf(),
        w.at == 0,
        !w.missing,
        0 <= k <= w.components@.len() <= usize::MAX,
        forall|j: int| 0 <= j < k ==> exact_at(disk, base, w, j),
    ensures
        k == w.components@.len() ==> reached(disk, base, w, 0) == Ok::<PathWalk, WalkProblem>(
            walk_at(w, k),
        ),
        k < w.components@.len() && absent_at(disk, base, w, k) ==> reached(disk, base, w, 0) == (
        if w.allow_missing_tail {
            Ok::<PathWalk, WalkProblem>(PathWalk { missing: true, ..walk_at(w, k) })
        } else {
            Err(WalkProblem::Missing(k as usize))
        }),
        k < w.components@.len() && !exact_at(disk, base, w, k) && !absent_at(disk, base, w, k)
            ==> reached(disk, base, w, 0) is Err,
{
    lemma_walked_through(disk, base, w, k);
    if k < w.components@.len() {
        let index = looked_up(disk, base, w, k);
        let fragment = w.components@[k]@;
        lemma_folded_places(index.entries, fragment, index.entries.len() as int);
        lemma_folded_links(index.linked, fragment, index.linked.len() as int);
        if absent_at(disk, base, w, k) {
            assert(exact_place(index.entries, fragment) is None);
            if !w.synced && index.linked.contains(fragment) {
                let i = choose|i: int|
                    0 <= i < index.linked.len() && index.linked[i] == fragment;
                assert(text::lower(index.linked[i]) == text::lower(fragment));
            }
        }
    }
}

} // verus!
