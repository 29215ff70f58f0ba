//! What holds of lists of paths: which are accepted, which are kept, and what is
//! done for each.
use vstd::prelude::*;
use vstd::utf8::*;

use crate::disk_index::PlaceModel;
use crate::path_lists;
use crate::path_lists::RawPath;
use crate::ranking;
use crate::selective;
use crate::selective::{OpKind, OpModel, OpState};
use crate::sync_scope;
use crate::text;

verus! {

/// The bytes of the first `n` segments.
pub open spec fn total_bytes(s: Seq<Option<String>>, n: int) -> nat
    decreases n,
{
    if n <= 0 {
        0
    } else {
        total_bytes(s, n - 1) + encode_utf8(s[n - 1]->0@).len()
    }
}

proof fn lemma_total_grows(s: Seq<Option<String>>, a: int, b: int)
    requires
        0 <= a <= b,
    ensures
        total_bytes(s, a) <= total_bytes(s, b),
    decreases b,
{
    if a < b {
        lemma_total_grows(s, a, b - 1);
    }
}

proof fn lemma_segments(s: Seq<Option<String>>, k: int)
    requires
        0 <= k <= s.len(),
        total_bytes(s, k) <= 4096,
    ensures
        path_lists::segments_problem(s, k, total_bytes(s, k) as int) is None <==> (forall|i: int|
            k <= i < s.len() ==> (#[trigger] s[i]) is Some && s[i]->0@.len() > 0
                && !s[i]->0@.contains('\0')) && total_bytes(s, s.len() as int) <= 4096,
    decreases s.len() - k,
{
    if k < s.len() {
        lemma_total_grows(s, k + 1, s.len() as int);
        assert(total_bytes(s, k + 1) == total_bytes(s, k) + encode_utf8(s[k]->0@).len());
        if total_bytes(s, k + 1) <= 4096 {
            lemma_segments(s, k + 1);
        }
    }
}

/// A path to be kept from syncing is accepted exactly where it is a list of 1 to 256
/// texts, none empty or with a NUL, of 4096 bytes at most, that begins at a service.
pub proof fn law_avoided_path_is_accepted(p: RawPath)
    ensures
        path_lists::path_problem(p) is None <==> (p matches RawPath::Segments(s) && {
            &&& 1 <= s@.len() <= 256
            &&& forall|i: int|
                0 <= i < s@.len() ==> (#[trigger] s@[i]) is Some && s@[i]->0@.len() > 0
                    && !s@[i]->0@.contains('\0')
            &&& total_bytes(s@, s@.len() as int) <= 4096
            &&& sync_scope::is_synced_service(s@[0]->0@)
        }),
{
    if let RawPath::Segments(s) = p {
        lemma_segments(s@, 0);
    }
}

/// A list of paths is accepted exactly where each of them is.
pub proof fn law_avoided_paths_are_accepted(s: Seq<RawPath>, from: int)
    requires
        0 <= from,
    ensures
        path_lists::paths_problem(s, from) is None <==> forall|k: int|
            from <= k < s.len() ==> path_lists::path_problem(#[trigger] s[k]) is None,
    decreases s.len() - from,
{
    if from < s.len() {
        law_avoided_paths_are_accepted(s, from + 1);
    }
}

/// A selected path is accepted exactly where it is short, names something below a
/// service, and has no empty segment.
pub proof fn law_selected_path_is_accepted(p: Seq<char>)
    ensures
        ({
            let parts = text::split(p, '/');
            path_lists::selected_problem(p) is None <==> {
                &&& encode_utf8(p).len() <= 4096
                &&& parts.len() >= 2
                &&& forall|k: int| 0 <= k < parts.len() ==> (#[trigger] parts[k]).len() > 0
                &&& sync_scope::is_synced_service(parts[0])
            }
        }),
{
}

/// A selection is refused for the first path that is not accepted, and for that only.
pub proof fn law_selection_is_accepted(s: Seq<Seq<char>>, from: int)
    requires
        0 <= from,
    ensures
        path_lists::selection_problem(s, from) is None <==> forall|k: int|
            from <= k < s.len() ==> path_lists::selected_problem(#[trigger] s[k]) is None,
        path_lists::selection_problem(s, from) matches Some((p, path)) ==> exists|k: int|
            from <= k < s.len() && #[trigger] s[k] == path && path_lists::selected_problem(path)
                == Some(p),
    decreases s.len() - from,
{
    if from < s.len() {
        law_selection_is_accepted(s, from + 1);
        if path_lists::selected_problem(s[from]) is Some {
            assert(s[from] == s[from]);
        }
    }
}

/// The paths that a selection keeps of those that are given.
pub open spec fn kept_paths(given: Seq<Seq<char>>) -> Seq<Seq<char>> {
    let ordered = path_lists::deduped(path_lists::by_depth(given), given.len() as int);
    path_lists::outermost(ordered, ordered.len() as int)
}

proof fn lemma_by_depth(s: Seq<Seq<char>>, p: Seq<char>)
    ensures
        path_lists::by_depth(s).len() == s.len(),
        path_lists::by_depth(s).contains(p) <==> s.contains(p),
{
    let rows = path_lists::depth_rows(s);
    ranking::lemma_ranking(rows);
    let order = ranking::ranking(rows);
    let all = path_lists::by_depth(s);
    if s.contains(p) {
        let at = choose|at: int| 0 <= at < s.len() && s[at] == p;
        assert(order.contains(at));
        let i = choose|i: int| 0 <= i < order.len() && order[i] == at;
        assert(all[i] == p);
    }
    if all.contains(p) {
        let i = choose|i: int| 0 <= i < all.len() && all[i] == p;
        assert(s[order[i]] == p);
    }
}

proof fn lemma_outermost(s: Seq<Seq<char>>, n: int)
    requires
        0 <= n <= s.len(),
    ensures
        forall|i: int|
            0 <= i < path_lists::outermost(s, n).len() ==> s.contains(
                #[trigger] path_lists::outermost(s, n)[i],
            ),
        forall|i: int, j: int|
            0 <= i < j < path_lists::outermost(s, n).len() ==> !path_lists::is_ancestor(
                #[trigger] path_lists::outermost(s, n)[i],
                #[trigger] path_lists::outermost(s, n)[j],
            ),
    decreases n,
{
    if n > 0 {
        lemma_outermost(s, n - 1);
        let before = path_lists::outermost(s, n - 1);
        let all = path_lists::outermost(s, n);
        if !path_lists::covered_above(before, s[n - 1]) {
            assert(all == before.push(s[n - 1]));
            assert forall|i: int| 0 <= i < all.len() implies s.contains(#[trigger] all[i]) by {
                if i < before.len() {
                    assert(all[i] == before[i]);
                } else {
                    assert(all[i] == s[n - 1]);
                }
            }
            assert forall|i: int, j: int| 0 <= i < j < all.len() implies !path_lists::is_ancestor(
                #[trigger] all[i],
                #[trigger] all[j],
            ) by {
                assert(all[i] == before[i]);
                if j < before.len() {
                    assert(all[j] == before[j]);
                }
            }
        }
    }
}

/// Every path that is given is kept, or lies below one that is; only given paths are
/// kept, and none behind one that it lies below.
pub proof fn law_selection_covers_what_is_given(given: Seq<Seq<char>>, p: Seq<char>)
    ensures
        given.contains(p) ==> kept_paths(given).contains(p) || exists|k: int|
            0 <= k < kept_paths(given).len() && p.len() > (#[trigger] kept_paths(given)[k]).len()
                && p.take(kept_paths(given)[k].len() as int) == kept_paths(given)[k]
                && p[kept_paths(given)[k].len() as int] == '/',
        kept_paths(given).contains(p) ==> given.contains(p),
        forall|i: int, j: int|
            0 <= i < j < kept_paths(given).len() ==> !path_lists::is_ancestor(
                #[trigger] kept_paths(given)[i],
                #[trigger] kept_paths(given)[j],
            ),
{
    let sorted = path_lists::by_depth(given);
    let ordered = path_lists::deduped(sorted, given.len() as int);
    let kept = kept_paths(given);
    lemma_by_depth(given, p);
    path_lists::lemma_deduped(sorted, given.len() as int, p);
    assert(sorted.take(given.len() as int) =~= sorted);
    lemma_outermost(ordered, ordered.len() as int);
    if given.contains(p) {
        let i = choose|i: int| 0 <= i < ordered.len() && ordered[i] == p;
        path_lists::law_selected_paths_stay_covered(ordered, ordered.len() as int, i);
        if !kept.contains(p) {
            let k = choose|k: int|
                0 <= k < kept.len() && path_lists::is_ancestor(#[trigger] kept[k], p);
            assert(p.take(kept[k].len() as int) == kept[k]);
        }
    }
    if kept.contains(p) {
        let i = choose|i: int| 0 <= i < kept.len() && kept[i] == p;
        assert(ordered.contains(kept[i]));
    }
}

/// The texts that tell why a path lies below another: what is above comes first and
/// is followed by a slash.
pub proof fn law_what_lies_below_begins_with_what_is_above(a: Seq<char>, rest: Seq<char>, p: Seq<char>)
    ensures
        path_lists::is_ancestor(a, a + seq!['/'] + rest),
        path_lists::is_ancestor(a, p) ==> p == a + seq!['/'] + p.skip(a.len() + 1int),
{
    let whole = a + seq!['/'] + rest;
    assert(whole.take(a.len() as int) =~= a);
    if path_lists::is_ancestor(a, p) {
        assert(p =~= a + seq!['/'] + p.skip(a.len() + 1int));
    }
}

/// Whether an operation makes sure of the container at a path.
pub open spec fn makes_sure_of(o: OpModel, path: Seq<char>, places: Map<Seq<char>, PlaceModel>) -> bool {
    &&& o.kind == OpKind::Ensure
    &&& selective::joined_segments(o.target, o.target.len() as int) == path
    &&& o.node == Some(places[path].node)
    &&& o.disk_path == places[path].disk_path
}

proof fn lemma_joined_take(s: Seq<Seq<char>>, n: int, m: int)
    requires
        0 <= n <= m <= s.len(),
    ensures
        selective::joined_segments(s.take(m), n) == selective::joined_segments(s, n),
    decreases n,
{
    if n > 1 {
        lemma_joined_take(s, n - 1, m);
    }
}

spec fn tracked_ops(st: OpState, places: Map<Seq<char>, PlaceModel>) -> bool {
    forall|path: Seq<char>| #[trigger]
        st.ensured.contains(path) ==> exists|e: int|
            0 <= e < st.ops.len() && makes_sure_of(#[trigger] st.ops[e], path, places)
}

spec fn extends(before: Seq<OpModel>, after: Seq<OpModel>) -> bool {
    before.len() <= after.len() && forall|i: int|
        0 <= i < before.len() ==> #[trigger] after[i] == before[i]
}

proof fn lemma_tracked_push(
    st: OpState,
    o: OpModel,
    more: Set<Seq<char>>,
    path: Seq<char>,
    places: Map<Seq<char>, PlaceModel>,
)
    requires
        tracked_ops(st, places),
        more == st.ensured || (more == st.ensured.insert(path) && makes_sure_of(o, path, places)),
    ensures
        tracked_ops(OpState { ops: st.ops.push(o), ensured: more }, places),
{
    let after = OpState { ops: st.ops.push(o), ensured: more };
    assert forall|p: Seq<char>| #[trigger] after.ensured.contains(p) implies exists|e: int|
        0 <= e < after.ops.len() && makes_sure_of(#[trigger] after.ops[e], p, places) by {
        if st.ensured.contains(p) {
            let e = choose|e: int|
                0 <= e < st.ops.len() && makes_sure_of(#[trigger] st.ops[e], p, places);
            assert(after.ops[e] == st.ops[e]);
        } else {
            assert(after.ops[st.ops.len() as int] == o);
        }
    }
}

proof fn lemma_ensured(
    start: OpState,
    s: Seq<Seq<char>>,
    places: Map<Seq<char>, PlaceModel>,
    d: int,
)
    requires
        d <= s.len(),
        tracked_ops(start, places),
    ensures
        ({
            let end = selective::ensured_upto(start, s, places, d);
            &&& tracked_ops(end, places)
            &&& extends(start.ops, end.ops)
            &&& forall|c: int|
                2 <= c < d && places.contains_key(#[trigger] selective::joined_segments(s, c))
                    ==> end.ensured.contains(selective::joined_segments(s, c))
            &&& forall|i: int|
                start.ops.len() <= i < end.ops.len() ==> (#[trigger] end.ops[i]).kind
                    == OpKind::Ensure && 2 <= end.ops[i].target.len() < s.len()
                    && end.ops[i].target == s.take(end.ops[i].target.len() as int)
        }),
    decreases d,
{
    if d > 2 {
        lemma_ensured(start, s, places, d - 1);
        let before = selective::ensured_upto(start, s, places, d - 1);
        let path = selective::joined_segments(s, d - 1);
        if places.contains_key(path) && !before.ensured.contains(path) {
            let o = OpModel {
                kind: OpKind::Ensure,
                target: s.take(d - 1),
                node: Some(places[path].node),
                disk_path: places[path].disk_path,
            };
            lemma_joined_take(s, d - 1, d - 1);
            lemma_tracked_push(before, o, before.ensured.insert(path), path, places);
        }
    }
}

proof fn lemma_ops(
    paths: Seq<Seq<char>>,
    places: Map<Seq<char>, PlaceModel>,
    n: int,
)
    requires
        0 <= n <= paths.len(),
    ensures
        tracked_ops(selective::ops_upto(paths, places, n), places),
        n > 0 ==> extends(
            selective::ops_upto(paths, places, n - 1).ops,
            selective::ops_upto(paths, places, n).ops,
        ),
    decreases n,
{
    if n > 0 {
        lemma_ops(paths, places, n - 1);
        let start = selective::ops_upto(paths, places, n - 1);
        let s = text::split(paths[n - 1], '/');
        lemma_ensured(start, s, places, s.len() as int);
        let mid = if places.contains_key(paths[n - 1]) {
            selective::ensured_upto(start, s, places, s.len() as int)
        } else {
            start
        };
        let end = selective::ops_upto(paths, places, n);
        lemma_tracked_push(mid, end.ops.last(), mid.ensured, paths[n - 1], places);
        assert(end.ops =~= mid.ops.push(end.ops.last()));
    }
}

proof fn lemma_ops_extend(paths: Seq<Seq<char>>, places: Map<Seq<char>, PlaceModel>, a: int, b: int)
    requires
        0 <= a <= b <= paths.len(),
    ensures
        extends(
            selective::ops_upto(paths, places, a).ops,
            selective::ops_upto(paths, places, b).ops,
        ),
    decreases b,
{
    if a < b {
        lemma_ops_extend(paths, places, a, b - 1);
        lemma_ops(paths, places, b);
    }
}

/// Every kept path gets its operation: what is on disk there replaces what is in
/// Studio, with the node and the place on disk that the path has; a path with nothing
/// on disk is deleted.
pub proof fn law_every_kept_path_gets_its_operation(
    paths: Seq<Seq<char>>,
    places: Map<Seq<char>, PlaceModel>,
    k: int,
) -> (q: int)
    requires
        0 <= k < paths.len(),
    ensures
        ({
            let ops = selective::ops_upto(paths, places, paths.len() as int).ops;
            &&& 0 <= q < ops.len()
            &&& ops[q].target == text::split(paths[k], '/')
            &&& places.contains_key(paths[k]) ==> ops[q].kind == OpKind::Replace && ops[q].node
                == Some(places[paths[k]].node) && ops[q].disk_path == places[paths[k]].disk_path
            &&& !places.contains_key(paths[k]) ==> ops[q].kind == OpKind::Delete && ops[q].node
                is None && ops[q].disk_path.len() == 0
        }),
{
    let upto = selective::ops_upto(paths, places, k + 1).ops;
    lemma_ops(paths, places, k + 1);
    lemma_ops_extend(paths, places, k + 1, paths.len() as int);
    let q = upto.len() - 1;
    let ops = selective::ops_upto(paths, places, paths.len() as int).ops;
    assert(ops[q] == upto[q]);
    q
}

/// What a path to be replaced stands in is made sure of before: for every container
/// of it below the service that is on disk, an operation comes first.
pub proof fn law_containers_come_first(
    paths: Seq<Seq<char>>,
    places: Map<Seq<char>, PlaceModel>,
    k: int,
    c: int,
) -> (eq: (int, int))
    requires
        0 <= k < paths.len(),
        places.contains_key(paths[k]),
        2 <= c < text::split(paths[k], '/').len(),
        places.contains_key(selective::joined_segments(text::split(paths[k], '/'), c)),
    ensures
        ({
            let (e, q) = eq;
            let ops = selective::ops_upto(paths, places, paths.len() as int).ops;
            &&& 0 <= e < q < ops.len()
            &&& ops[q].kind == OpKind::Replace && ops[q].target == text::split(paths[k], '/')
            &&& makes_sure_of(
                ops[e],
                selective::joined_segments(text::split(paths[k], '/'), c),
                places,
            )
        }),
{
    let s = text::split(paths[k], '/');
    let path = selective::joined_segments(s, c);
    let start = selective::ops_upto(paths, places, k);
    lemma_ops(paths, places, k);
    lemma_ensured(start, s, places, s.len() as int);
    let mid = selective::ensured_upto(start, s, places, s.len() as int);
    assert(mid.ensured.contains(path));
    let e = choose|e: int| 0 <= e < mid.ops.len() && makes_sure_of(#[trigger] mid.ops[e], path, places);
    let upto = selective::ops_upto(paths, places, k + 1).ops;
    lemma_ops_extend(paths, places, k + 1, paths.len() as int);
    let ops = selective::ops_upto(paths, places, paths.len() as int).ops;
    let q = mid.ops.len() as int;
    assert(upto[e] == mid.ops[e]);
    assert(ops[e] == upto[e]);
    assert(ops[q] == upto[q]);
    (e, q)
}

/// Nothing else is done: every operation is that of a kept path, or makes sure of
/// something that a kept path stands in.
pub proof fn law_every_operation_is_for_a_kept_path(
    paths: Seq<Seq<char>>,
    places: Map<Seq<char>, PlaceModel>,
    n: int,
    q: int,
) -> (k: int)
    requires
        0 <= n <= paths.len(),
        0 <= q < selective::ops_upto(paths, places, n).ops.len(),
    ensures
        ({
            let o = selective::ops_upto(paths, places, n).ops[q];
            let s = text::split(paths[k], '/');
            &&& 0 <= k < n
            &&& o.kind != OpKind::Ensure ==> o.target == s
            &&& o.kind == OpKind::Ensure ==> 2 <= o.target.len() < s.len() && o.target == s.take(
                o.target.len() as int,
            )
        }),
    decreases n,
{
    let start = selective::ops_upto(paths, places, n - 1);
    lemma_ops(paths, places, n);
    lemma_ops(paths, places, n - 1);
    let end = selective::ops_upto(paths, places, n);
    if q < start.ops.len() {
        assert(end.ops[q] == start.ops[q]);
        law_every_operation_is_for_a_kept_path(paths, places, n - 1, q)
    } else {
        let s = text::split(paths[n - 1], '/');
        lemma_ensured(start, s, places, s.len() as int);
        n - 1
    }
}

} // verus!
