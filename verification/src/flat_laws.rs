//! What holds of a list of records that is taken for a tree.
use vstd::prelude::*;

use crate::flat;
use crate::flat::FlatSnapshotRecord;
use crate::fs_map;
use crate::ranking;
use crate::selective;

verus! {

/// Whether a record is in order by itself: its id is its place and its name holds
/// no NUL. The first one is the service, without a parent, a mark or a file name.
/// Any other one comes after its parent and is a folder or a script; where it is
/// kept from being synced it has no children, where it only carries such nodes it
/// is a folder; and a folder, or a node with children, says that it has some. A
/// file name stands only with a record from disk, where it is a component that
/// fits the node.
pub open spec fn is_sound_record(
    r: FlatSnapshotRecord,
    at: int,
    service: Seq<char>,
    from_disk: bool,
) -> bool {
    &&& r.id == at
    &&& !r.name@.contains('\0')
    &&& from_disk || (r.source_included is None && r.disk_fragment is None
        && r.disk_fragment_is_dir is None)
    &&& at == 0 ==> {
        &&& r.parent_id is None && r.child_index == 0
        &&& r.name@ == service && r.class@ == service
        &&& !r.avoid_sync && !r.avoid_sync_carrier
        &&& r.disk_fragment is None && r.disk_fragment_is_dir is None
    }
    &&& at > 0 ==> {
        let folder = r.class@ == "Folder"@;
        &&& r.parent_id is Some && r.parent_id->0 < at
        &&& folder || r.class@ == "Script"@ || r.class@ == "LocalScript"@ || r.class@
            == "ModuleScript"@
        &&& r.avoid_sync ==> !r.avoid_sync_carrier && r.child_count == 0
        &&& r.avoid_sync_carrier ==> folder
        &&& folder || r.child_count > 0 ==> r.has_children
        &&& from_disk ==> {
            &&& r.disk_fragment is Some && r.disk_fragment_is_dir is Some
            &&& fs_map::component_problem(r.disk_fragment->0@) is None
            &&& r.disk_fragment_is_dir->0 == (folder || r.has_children)
        }
    }
}

/// A record is refused exactly where it is not in order.
pub proof fn law_sound_record_has_no_problem(
    r: FlatSnapshotRecord,
    at: usize,
    service: Seq<char>,
    from_disk: bool,
)
    ensures
        flat::record_problem(r, at, service, from_disk) is None <==> is_sound_record(
            r,
            at as int,
            service,
            from_disk,
        ),
{
}

/// The records are refused for one of them exactly where one of them is not in
/// order.
pub proof fn law_sound_records_have_no_problem(
    s: Seq<FlatSnapshotRecord>,
    service: Seq<char>,
    from_disk: bool,
    n: int,
)
    requires
        0 <= n <= s.len() <= usize::MAX,
    ensures
        flat::records_problem(s, service, from_disk, n) is None <==> forall|i: int|
            0 <= i < n ==> is_sound_record(#[trigger] s[i], i, service, from_disk),
    decreases n,
{
    if n > 0 {
        law_sound_records_have_no_problem(s, service, from_disk, n - 1);
        law_sound_record_has_no_problem(s[n - 1], (n - 1) as usize, service, from_disk);
        assert(s[n - 1] == s[n - 1]);
    }
}

/// A list that is taken for a tree is not empty and not too long, and each of its
/// records is in order; one that is too long or holds a record that is not in
/// order is refused.
pub proof fn law_accepted_records_are_sound(
    s: Seq<FlatSnapshotRecord>,
    service: Seq<char>,
    from_disk: bool,
    max_depth: usize,
)
    ensures
        flat::flat_problem(s, service, from_disk, max_depth) is None ==> 0 < s.len()
            <= flat::MAX_BOOTSTRAP_NODES && forall|i: int|
            0 <= i < s.len() ==> is_sound_record(#[trigger] s[i], i, service, from_disk),
{
    if 0 < s.len() <= flat::MAX_BOOTSTRAP_NODES {
        law_sound_records_have_no_problem(s, service, from_disk, s.len() as int);
    }
}

/// A tree is too deep exactly where the parents of one of its records make a
/// chain of more steps than are allowed.
pub proof fn law_depth_is_the_number_of_parents(
    s: Seq<FlatSnapshotRecord>,
    max: usize,
    n: int,
)
    requires
        selective::connected(s),
        0 < n <= s.len() <= flat::MAX_BOOTSTRAP_NODES,
    ensures
        flat::too_deep(s, max, n) <==> exists|chain: Seq<int>| #[trigger]
            selective::is_parent_chain(s, chain) && chain[0] < n && chain.len() > max + 1,
{
    if flat::too_deep(s, max, n) {
        let i = choose|i: int| 0 <= i < n && #[trigger] flat::depth_of(s, i) > max;
        let chain = lemma_chain_of_depth(s, i);
        assert(selective::is_parent_chain(s, chain));
    }
    if exists|chain: Seq<int>| #[trigger]
        selective::is_parent_chain(s, chain) && chain[0] < n && chain.len() > max + 1 {
        let chain = choose|chain: Seq<int>| #[trigger]
            selective::is_parent_chain(s, chain) && chain[0] < n && chain.len() > max + 1;
        lemma_depth_of_chain(s, chain);
        selective::lemma_chain_bounds(s, chain, 0);
        assert(flat::depth_of(s, chain[0]) > max);
    }
}

proof fn lemma_chain_of_depth(s: Seq<FlatSnapshotRecord>, i: int) -> (chain: Seq<int>)
    requires
        selective::connected(s),
        0 <= i < s.len() <= flat::MAX_BOOTSTRAP_NODES,
    ensures
        selective::is_parent_chain(s, chain),
        chain[0] == i,
        chain.len() == flat::depth_of(s, i) + 1,
    decreases i,
{
    if i == 0 {
        seq![0int]
    } else {
        assert(s[i].parent_id is Some && s[i].parent_id->0 < i);
        let p = s[i].parent_id->0 as int;
        let rest = lemma_chain_of_depth(s, p);
        let chain = seq![i] + rest;
        assert forall|t: int| 0 <= t < chain.len() - 1 implies chain[t + 1] < #[trigger] chain[t]
            && s[chain[t]].parent_id == Some(chain[t + 1] as u64) by {
            if t > 0 {
                assert(chain[t] == rest[t - 1] && chain[t + 1] == rest[t - 1 + 1]);
            }
        }
        chain
    }
}

proof fn lemma_depth_of_chain(s: Seq<FlatSnapshotRecord>, chain: Seq<int>)
    requires
        selective::connected(s),
        s.len() <= flat::MAX_BOOTSTRAP_NODES,
        selective::is_parent_chain(s, chain),
    ensures
        flat::depth_of(s, chain[0]) + 1 >= chain.len(),
    decreases chain.len(),
{
    if chain.len() > 1 {
        let rest = chain.skip(1);
        assert forall|t: int| 0 <= t < rest.len() - 1 implies rest[t + 1] < #[trigger] rest[t]
            && s[rest[t]].parent_id == Some(rest[t + 1] as u64) by {
            assert(rest[t] == chain[t + 1] && rest[t + 1] == chain[t + 1 + 1]);
        }
        selective::lemma_chain_bounds(s, chain, 0);
        selective::lemma_chain_bounds(s, chain, 1);
        lemma_depth_of_chain(s, rest);
        let t: int = 0;
        assert(chain[t + 1] < chain[t] && s[chain[t]].parent_id == Some(chain[t + 1] as u64));
    }
}

proof fn lemma_children(s: Seq<FlatSnapshotRecord>, p: int, n: int, c: int)
    requires
        0 <= n <= s.len(),
    ensures
        flat::children_of(s, p, n).contains(c) <==> 0 <= c < n && s[c].parent_id == Some(p as u64),
    decreases n,
{
    if n > 0 {
        lemma_children(s, p, n - 1, c);
        let before = flat::children_of(s, p, n - 1);
        let all = flat::children_of(s, p, n);
        if before.contains(c) {
            let q = choose|q: int| 0 <= q < before.len() && before[q] == c;
            assert(all[q] == c);
        }
        if s[n - 1].parent_id == Some(p as u64) {
            assert(all[before.len() as int] == n - 1);
        }
        if all.contains(c) {
            let q = choose|q: int| 0 <= q < all.len() && all[q] == c;
            if q < before.len() {
                assert(before[q] == c);
            }
        }
    }
}

/// The children of a record are the records whose parent it is.
pub proof fn law_children_are_those_with_that_parent(s: Seq<FlatSnapshotRecord>, p: int, c: int)
    ensures
        flat::sorted_children(s, p).contains(c) <==> 0 <= c < s.len() && s[c].parent_id == Some(
            p as u64,
        ),
{
    let ids = flat::children_of(s, p, s.len() as int);
    let rows = flat::index_rows(s, ids);
    let order = ranking::ranking(rows);
    let sorted = flat::sorted_children(s, p);
    ranking::lemma_ranking(rows);
    lemma_children(s, p, s.len() as int, c);
    if ids.contains(c) {
        let q = choose|q: int| 0 <= q < ids.len() && ids[q] == c;
        assert(order.contains(q));
        let r = choose|r: int| 0 <= r < order.len() && order[r] == q;
        assert(sorted[r] == c);
    }
    if sorted.contains(c) {
        let r = choose|r: int| 0 <= r < sorted.len() && sorted[r] == c;
        assert(ids[order[r]] == c);
    }
}

proof fn lemma_no_gap(s: Seq<FlatSnapshotRecord>, p: int, ids: Seq<int>, from: int, k: int)
    requires
        flat::gap_from(s, p, ids, from) is None,
        0 <= from <= k < ids.len(),
    ensures
        s[ids[k]].child_index == k,
    decreases k - from,
{
    if from < k {
        lemma_no_gap(s, p, ids, from + 1, k);
    }
}

proof fn lemma_no_shape_problem(s: Seq<FlatSnapshotRecord>, n: int, p: int)
    requires
        flat::shape_problem(s, n) is None,
        0 <= p < n,
    ensures
        flat::children_problem(s, p) is None,
    decreases n,
{
    if p < n - 1 {
        lemma_no_shape_problem(s, n - 1, p);
    }
}

/// In a list that is taken for a tree every record has as many children as it
/// says, and they are numbered from zero without a gap: each number below the
/// count is that of one child, and no child has another number.
pub proof fn law_accepted_children_are_numbered(
    s: Seq<FlatSnapshotRecord>,
    service: Seq<char>,
    from_disk: bool,
    max_depth: usize,
    p: int,
    c: int,
    x: int,
)
    requires
        flat::flat_problem(s, service, from_disk, max_depth) is None,
        0 <= p < s.len(),
    ensures
        0 <= c < s.len() && s[c].parent_id == Some(p as u64) ==> s[c].child_index
            < s[p].child_count,
        0 <= x < s[p].child_count ==> exists|d: int|
            0 <= d < s.len() && (#[trigger] s[d]).parent_id == Some(p as u64) && s[d].child_index
                == x,
        flat::sorted_children(s, p).len() == s[p].child_count,
        0 <= x < s[p].child_count ==> s[flat::sorted_children(s, p)[x]].child_index == x,
{
    let ids = flat::sorted_children(s, p);
    lemma_no_shape_problem(s, s.len() as int, p);
    if 0 <= x < s[p].child_count {
        lemma_no_gap(s, p, ids, 0, x);
        let d = ids[x];
        assert(ids.contains(d));
        law_children_are_those_with_that_parent(s, p, d);
        assert(s[d].parent_id == Some(p as u64));
    }
    if 0 <= c < s.len() && s[c].parent_id == Some(p as u64) {
        law_children_are_those_with_that_parent(s, p, c);
        let k = choose|k: int| 0 <= k < ids.len() && ids[k] == c;
        lemma_no_gap(s, p, ids, 0, k);
    }
}

/// The scripts of a list are the records of one of the three classes that are not
/// kept from being synced, each once and in order.
pub proof fn law_scripts_of_a_list(s: Seq<FlatSnapshotRecord>, n: int, i: int)
    requires
        0 <= n <= s.len(),
        forall|k: int| 0 <= k < n ==> (#[trigger] s[k]).id == k,
        0 <= i < n,
    ensures
        flat::script_ids_of(s, n).contains(i as u64) <==> !s[i].avoid_sync
            && !s[i].avoid_sync_carrier && (s[i].class@ == "Script"@ || s[i].class@
            == "LocalScript"@ || s[i].class@ == "ModuleScript"@),
        forall|a: int|
            0 <= a < flat::script_ids_of(s, n).len() ==> #[trigger] flat::script_ids_of(s, n)[a]
                < n,
        forall|a: int, b: int|
            0 <= a < b < flat::script_ids_of(s, n).len() ==> #[trigger] flat::script_ids_of(s, n)[a]
                < #[trigger] flat::script_ids_of(s, n)[b],
    decreases n,
{
    let all = flat::script_ids_of(s, n);
    let before = flat::script_ids_of(s, n - 1);
    if n > 1 {
        law_scripts_of_a_list(s, n - 1, if i < n - 1 {
            i
        } else {
            0
        });
    }
    assert(s[n - 1].id == n - 1);
    assert(s[i].id == i);
    if before.contains(i as u64) {
        let q = choose|q: int| 0 <= q < before.len() && before[q] == i as u64;
        assert(all[q] == i as u64);
        if i == n - 1 {
            assert(before[q] < n - 1);
        }
    }
    if flat::has_source(s[n - 1]) {
        assert(all[before.len() as int] == s[n - 1].id);
    }
    if all.contains(i as u64) {
        let q = choose|q: int| 0 <= q < all.len() && all[q] == i as u64;
        if q < before.len() {
            assert(before[q] == i as u64);
        }
    }
}

} // verus!
