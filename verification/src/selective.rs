//! The part of a service, or of the project, that a selection names.
use std::collections::HashMap;

use vstd::prelude::*;

use crate::diff;
use crate::diff::{collect_local_nodes, DiffNode};
use crate::disk_index;
use crate::disk_index::{collect_local_snapshot_entries, LocalSnapshotValue};
use crate::flat;
use crate::flat::{validate_flat_snapshot, FlatProblem, FlatSnapshotRecord};
use crate::fs_map::ScriptClass;
use crate::path_lists;
use crate::path_lists::{compact_selected_paths, sort_paths, SelectProblem};
use crate::preparation;
use crate::text;
use crate::text::{append, chars_of, owned, split_chars, starts_with, string_of};
use crate::text_map::TextMap;
use crate::tree::Tree;

verus! {

broadcast use vstd::std_specs::hash::group_hash_axioms;

/// Whether a path lies below the service.
pub open spec fn below_service(service: Seq<char>, path: Seq<char>) -> bool {
    (service + "/"@).is_prefix_of(path)
}

/// Whether the node at a path has the id `i`.
pub open spec fn names_id(nodes: Map<Seq<char>, diff::NodeModel>, path: Seq<char>, i: int) -> bool {
    nodes.contains_key(path) && nodes[path].stream_id is Some && nodes[path].stream_id->0 == i
}

/// Whether one of the first `n` selected paths names the record `i`.
pub open spec fn is_chosen(
    service: Seq<char>,
    nodes: Map<Seq<char>, diff::NodeModel>,
    paths: Seq<Seq<char>>,
    i: int,
    n: int,
) -> bool {
    exists|k: int|
        0 <= k < n && below_service(service, #[trigger] paths[k]) && names_id(nodes, paths[k], i)
}

/// The selected paths, among the first `n`, that name nothing on disk.
pub open spec fn missing_paths(
    service: Seq<char>,
    nodes: Map<Seq<char>, diff::NodeModel>,
    paths: Seq<Seq<char>>,
    n: int,
) -> Seq<Seq<Seq<char>>>
    decreases n,
{
    if n <= 0 {
        Seq::empty()
    } else {
        let before = missing_paths(service, nodes, paths, n - 1);
        let p = paths[n - 1];
        if below_service(service, p) && !(nodes.contains_key(p) && nodes[p].stream_id is Some) {
            before.push(text::split(p, '/'))
        } else {
            before
        }
    }
}

/// Whether a record is chosen or lies below a chosen one.
pub open spec fn within(s: Seq<FlatSnapshotRecord>, chosen: Seq<bool>, i: int) -> bool
    decreases i,
{
    if i <= 0 || s[i].parent_id is None || s[i].parent_id->0 >= i {
        false
    } else {
        chosen[i] || within(s, chosen, s[i].parent_id->0 as int)
    }
}

/// Whether a record is chosen or lies above a chosen one.
pub open spec fn above(s: Seq<FlatSnapshotRecord>, chosen: Seq<bool>, i: int) -> bool
    decreases s.len() - i,
{
    0 <= i < s.len() && (chosen[i] || exists|j: int|
        i < j < s.len() && (#[trigger] s[j]).parent_id == Some(i as u64) && above(s, chosen, j))
}

pub open spec fn included(s: Seq<FlatSnapshotRecord>, chosen: Seq<bool>, i: int) -> bool {
    i == 0 || within(s, chosen, i) || above(s, chosen, i)
}

/// How many of the first `n` records are included: the new id of the next.
pub open spec fn new_id(s: Seq<FlatSnapshotRecord>, chosen: Seq<bool>, n: int) -> nat
    decreases n,
{
    if n <= 0 {
        0
    } else {
        new_id(s, chosen, n - 1) + (if included(s, chosen, n - 1) {
            1nat
        } else {
            0nat
        })
    }
}

/// How many of the first `n` records are included children of `p`.
pub open spec fn kept_children(s: Seq<FlatSnapshotRecord>, chosen: Seq<bool>, p: int, n: int) -> nat
    decreases n,
{
    if n <= 0 {
        0
    } else {
        kept_children(s, chosen, p, n - 1) + (if included(s, chosen, n - 1) && s[n - 1].parent_id
            == Some(p as u64) && n - 1 > 0 {
            1nat
        } else {
            0nat
        })
    }
}

/// Whether the source of a record travels along.
pub open spec fn carried_source(s: Seq<FlatSnapshotRecord>, chosen: Seq<bool>, i: int) -> Option<bool> {
    if i == 0 {
        None
    } else if ScriptClass::of_class(s[i].class@) is Some {
        Some(within(s, chosen, i))
    } else {
        s[i].source_included
    }
}

/// Whether `r` is the record `i` as it is sent, once the first `n` records were
/// looked at.
pub open spec fn is_kept_record(
    s: Seq<FlatSnapshotRecord>,
    chosen: Seq<bool>,
    i: int,
    n: int,
    r: FlatSnapshotRecord,
) -> bool {
    &&& r.id == new_id(s, chosen, i)
    &&& r.parent_id == (if i == 0 {
        None::<u64>
    } else {
        Some(new_id(s, chosen, s[i].parent_id->0 as int) as u64)
    })
    &&& r.child_index == (if i == 0 {
        0
    } else {
        kept_children(s, chosen, s[i].parent_id->0 as int, i) as int
    })
    &&& r.child_count == kept_children(s, chosen, i, n)
    &&& r.name@ == s[i].name@
    &&& r.class@ == s[i].class@
    &&& r.has_children == s[i].has_children
    &&& r.avoid_sync == s[i].avoid_sync
    &&& r.avoid_sync_carrier == s[i].avoid_sync_carrier
    &&& text::option_text(r.disk_fragment) == text::option_text(s[i].disk_fragment)
    &&& r.disk_fragment_is_dir == s[i].disk_fragment_is_dir
    &&& r.source_included == carried_source(s, chosen, i)
}

/// The source files of the first `n` records, by new id.
pub open spec fn kept_sources(
    s: Seq<FlatSnapshotRecord>,
    chosen: Seq<bool>,
    sources: Map<u64, Seq<char>>,
    n: int,
) -> Map<u64, Seq<char>>
    decreases n,
{
    if n <= 0 {
        Map::empty()
    } else {
        let before = kept_sources(s, chosen, sources, n - 1);
        let i = n - 1;
        if included(s, chosen, i) && carried_source(s, chosen, i) != Some(false)
            && sources.contains_key(i as u64) {
            before.insert(new_id(s, chosen, i) as u64, sources[i as u64])
        } else {
            before
        }
    }
}

/// The selected part of a service.
#[derive(Debug)]
pub struct SelectiveFlatService {
    pub records: Vec<FlatSnapshotRecord>,
    pub source_paths: HashMap<u64, String>,
    pub deletes: Vec<Vec<String>>,
}

/// Whether the records form a tree in which every parent comes first.
pub open spec fn connected(s: Seq<FlatSnapshotRecord>) -> bool {
    forall|i: int|
        0 < i < s.len() ==> (#[trigger] s[i]).parent_id is Some && s[i].parent_id->0 < i
}

fn split_path(p: &str) -> (out: Vec<String>)
    ensures
        disk_index::texts(out@) == text::split(p@, '/'),
        out@.len() > 0,
{
    let chars = chars_of(p);
    let parts = split_chars(&chars, '/');
    let ghost s = text::split(p@, '/');
    let mut out: Vec<String> = Vec::new();
    let mut k: usize = 0;
    while k < parts.len()
        invariant
            k <= parts@.len(),
            parts@.len() == s.len(),
            out@.len() == k,
            forall|j: int| 0 <= j < parts@.len() ==> (#[trigger] parts@[j])@ == s[j],
            forall|j: int| 0 <= j < k ==> (#[trigger] out@[j])@ == s[j],
        decreases parts@.len() - k,
    {
        out.push(string_of(&parts[k]));
        k += 1;
    }
    proof {
        assert(disk_index::texts(out@) =~= s);
    }
    out
}

/// Which records the selected paths name, and which of the paths name none.
fn choose_records(
    service: &str,
    nodes: &TextMap<DiffNode>,
    paths: &Vec<String>,
    count: usize,
) -> (r: (Vec<bool>, Vec<Vec<String>>))
    requires
        nodes.wf(),
    ensures
        r.0@.len() == count,
        forall|i: int|
            0 <= i < count ==> #[trigger] r.0@[i] == is_chosen(
                service@,
                diff::nodes_of(*nodes),
                disk_index::texts(paths@),
                i,
                paths@.len() as int,
            ),
        path_lists::path_models(r.1@) == missing_paths(
            service@,
            diff::nodes_of(*nodes),
            disk_index::texts(paths@),
            paths@.len() as int,
        ),
        forall|i: int| 0 <= i < r.1@.len() ==> (#[trigger] r.1@[i])@.len() > 0,
{
    let ghost model = diff::nodes_of(*nodes);
    let ghost all = disk_index::texts(paths@);
    let mut prefix = owned(service);
    append(&mut prefix, "/");
    let mut chosen: Vec<bool> = Vec::new();
    while chosen.len() < count
        invariant
            chosen@.len() <= count,
            forall|i: int| 0 <= i < chosen@.len() ==> !#[trigger] chosen@[i],
        decreases count - chosen@.len(),
    {
        chosen.push(false);
    }
    let mut missing: Vec<Vec<String>> = Vec::new();
    let mut k: usize = 0;
    proof {
        assert(path_lists::path_models(missing@) =~= missing_paths(service@, model, all, 0));
    }
    while k < paths.len()
        invariant
            k <= paths@.len(),
            nodes.wf(),
            model == diff::nodes_of(*nodes),
            all == disk_index::texts(paths@),
            prefix@ == service@ + "/"@,
            chosen@.len() == count,
            forall|i: int|
                0 <= i < count ==> #[trigger] chosen@[i] == is_chosen(
                    service@,
                    model,
                    all,
                    i,
                    k as int,
                ),
            path_lists::path_models(missing@) == missing_paths(service@, model, all, k as int),
            forall|i: int| 0 <= i < missing@.len() ==> (#[trigger] missing@[i])@.len() > 0,
        decreases paths@.len() - k,
    {
        let path = paths[k].as_str();
        let chars = chars_of(path);
        let ghost before = chosen@;
        let ghost missing_before = missing@;
        proof {
            assert(all[k as int] == path@);
        }
        let mut id: Option<u64> = None;
        let inside = starts_with(&chars, prefix.as_str());
        if inside {
            if let Some(node) = nodes.get(path) {
                id = node.stream_id;
            }
            match id {
                Some(id) => {
                    if id < count as u64 {
                        chosen.set(id as usize, true);
                    }
                },
                None => {
                    missing.push(split_path(path));
                    proof {
                        assert(path_lists::path_models(missing@) =~= path_lists::path_models(
                            missing_before,
                        ).push(text::split(path@, '/')));
                    }
                },
            }
        }
        proof {
            assert forall|i: int| 0 <= i < count implies #[trigger] chosen@[i] == is_chosen(
                service@,
                model,
                all,
                i,
                k + 1,
            ) by {
                assert(before[i] == is_chosen(service@, model, all, i, k as int));
                if is_chosen(service@, model, all, i, k as int) {
                    let j = choose|j: int|
                        0 <= j < k && below_service(service@, #[trigger] all[j]) && names_id(
                            model,
                            all[j],
                            i,
                        );
                    assert(below_service(service@, all[j]) && names_id(model, all[j], i));
                }
                if is_chosen(service@, model, all, i, k + 1) && !is_chosen(
                    service@,
                    model,
                    all,
                    i,
                    k as int,
                ) {
                    let j = choose|j: int|
                        0 <= j < k + 1 && below_service(service@, #[trigger] all[j]) && names_id(
                            model,
                            all[j],
                            i,
                        );
                    assert(j == k);
                }
                if chosen@[i] && !before[i] {
                    assert(below_service(service@, all[k as int]) && names_id(
                        model,
                        all[k as int],
                        i,
                    ));
                }
            }
        }
        k += 1;
    }
    (chosen, missing)
}

/// For each record whether it is chosen or below a chosen one.
fn find_within(records: &Vec<FlatSnapshotRecord>, chosen: &Vec<bool>) -> (out: Vec<bool>)
    requires
        connected(records@),
        chosen@.len() == records@.len(),
        records@.len() <= flat::MAX_BOOTSTRAP_NODES,
    ensures
        out@.len() == records@.len(),
        forall|i: int| 0 <= i < out@.len() ==> #[trigger] out@[i] == within(records@, chosen@, i),
{
    let mut out: Vec<bool> = Vec::new();
    let mut i: usize = 0;
    while i < records.len()
        invariant
            i <= records@.len(),
            connected(records@),
            chosen@.len() == records@.len(),
            records@.len() <= flat::MAX_BOOTSTRAP_NODES,
            out@.len() == i,
            forall|k: int| 0 <= k < i ==> #[trigger] out@[k] == within(records@, chosen@, k),
        decreases records@.len() - i,
    {
        let mark = if i == 0 {
            false
        } else {
            match records[i].parent_id {
                Some(p) => {
                    assert(p < i);
                    chosen[i] || out[p as usize]
                },
                None => false,
            }
        };
        out.push(mark);
        i += 1;
    }
    out
}

/// Whether `x` is chosen or has a child from `i` on that is above a chosen one.
spec fn above_from(s: Seq<FlatSnapshotRecord>, chosen: Seq<bool>, x: int, i: int) -> bool {
    chosen[x] || exists|j: int|
        i <= j < s.len() && x < j && (#[trigger] s[j]).parent_id == Some(x as u64) && above(
            s,
            chosen,
            j,
        )
}

/// For each record whether it is chosen or above a chosen one.
fn find_above(records: &Vec<FlatSnapshotRecord>, chosen: &Vec<bool>) -> (out: Vec<bool>)
    requires
        connected(records@),
        chosen@.len() == records@.len(),
        records@.len() <= flat::MAX_BOOTSTRAP_NODES,
    ensures
        out@.len() == records@.len(),
        forall|i: int| 0 <= i < out@.len() ==> #[trigger] out@[i] == above(records@, chosen@, i),
{
    let ghost s = records@;
    let n: usize = records.len();
    let mut out: Vec<bool> = Vec::new();
    let mut c: usize = 0;
    while c < n
        invariant
            c <= n,
            n == chosen@.len(),
            out@.len() == c,
            forall|x: int| 0 <= x < c ==> #[trigger] out@[x] == chosen@[x],
        decreases n - c,
    {
        out.push(chosen[c]);
        c += 1;
    }
    let mut i: usize = n;
    proof {
        assert forall|x: int| 0 <= x < n implies #[trigger] out@[x] == above_from(
            s,
            chosen@,
            x,
            n as int,
        ) by {}
    }
    while i > 0
        invariant
            i <= n,
            s == records@,
            n == s.len(),
            n <= flat::MAX_BOOTSTRAP_NODES,
            connected(s),
            chosen@.len() == n,
            out@.len() == n,
            forall|x: int| 0 <= x < n ==> #[trigger] out@[x] == above_from(s, chosen@, x, i as int),
        decreases i,
    {
        i -= 1;
        let ghost before = out@;
        proof {
            assert(before[i as int] == above_from(s, chosen@, i as int, i + 1));
            assert(above(s, chosen@, i as int) == above_from(s, chosen@, i as int, i + 1)) by {
                if above(s, chosen@, i as int) && !chosen@[i as int] {
                    let j = choose|j: int|
                        i < j < s.len() && (#[trigger] s[j]).parent_id == Some(i as u64) && above(
                            s,
                            chosen@,
                            j,
                        );
                    assert(s[j].parent_id == Some(i as u64));
                }
            }
        }
        if i > 0 && out[i] {
            if let Some(p) = records[i].parent_id {
                assert(p < i);
                out.set(p as usize, true);
            }
        }
        proof {
            assert forall|x: int| 0 <= x < n implies #[trigger] out@[x] == above_from(
                s,
                chosen@,
                x,
                i as int,
            ) by {
                assert(before[x] == above_from(s, chosen@, x, i + 1));
                if above_from(s, chosen@, x, i as int) && !above_from(s, chosen@, x, i + 1) {
                    let j = choose|j: int|
                        i <= j < s.len() && x < j && (#[trigger] s[j]).parent_id == Some(x as u64)
                            && above(s, chosen@, j);
                    assert(j == i);
                }
                if out@[x] && !before[x] {
                    assert(s[i as int].parent_id == Some(x as u64));
                }
                if above_from(s, chosen@, x, i + 1) && !chosen@[x] {
                    let j = choose|j: int|
                        i + 1 <= j < s.len() && x < j && (#[trigger] s[j]).parent_id == Some(
                            x as u64,
                        ) && above(s, chosen@, j);
                    assert(s[j].parent_id == Some(x as u64));
                }
            }
        }
    }
    proof {
        assert forall|x: int| 0 <= x < n implies #[trigger] out@[x] == above(s, chosen@, x) by {
            assert(out@[x] == above_from(s, chosen@, x, 0));
            if above_from(s, chosen@, x, 0) && !chosen@[x] {
                let j = choose|j: int|
                    0 <= j < s.len() && x < j && (#[trigger] s[j]).parent_id == Some(x as u64)
                        && above(s, chosen@, j);
                assert(s[j].parent_id == Some(x as u64));
            }
            if above(s, chosen@, x) && !chosen@[x] {
                let j = choose|j: int|
                    x < j < s.len() && (#[trigger] s[j]).parent_id == Some(x as u64) && above(
                        s,
                        chosen@,
                        j,
                    );
                assert(s[j].parent_id == Some(x as u64));
            }
        }
    }
    out
}

/// The parent of an included record is included.
proof fn lemma_parent_included(s: Seq<FlatSnapshotRecord>, chosen: Seq<bool>, i: int)
    requires
        connected(s),
        0 < i < s.len(),
        s.len() <= flat::MAX_BOOTSTRAP_NODES,
        included(s, chosen, i),
    ensures
        included(s, chosen, s[i].parent_id->0 as int),
{
    let p = s[i].parent_id->0 as int;
    assert(s[i].parent_id == Some(p as u64));
    if above(s, chosen, i) {
        assert(above(s, chosen, p));
    } else if within(s, chosen, i) && !within(s, chosen, p) {
        assert(chosen[i]);
        assert(above(s, chosen, i));
    }
}

proof fn lemma_new_id_bound(s: Seq<FlatSnapshotRecord>, chosen: Seq<bool>, i: int, n: int)
    requires
        0 <= i <= n,
    ensures
        new_id(s, chosen, i) <= new_id(s, chosen, n) <= n,
        i < n && included(s, chosen, i) ==> new_id(s, chosen, i) < new_id(s, chosen, n),
    decreases n,
{
    if n > 0 {
        if i < n {
            lemma_new_id_bound(s, chosen, i, n - 1);
        } else {
            lemma_new_id_bound(s, chosen, n - 1, n - 1);
        }
    }
}

proof fn lemma_kept_children_bound(s: Seq<FlatSnapshotRecord>, chosen: Seq<bool>, p: int, n: int)
    requires
        0 <= n,
    ensures
        kept_children(s, chosen, p, n) <= n,
    decreases n,
{
    if n > 0 {
        lemma_kept_children_bound(s, chosen, p, n - 1);
    }
}

/// No record before its parent's place counts as its child.
proof fn lemma_no_early_children(s: Seq<FlatSnapshotRecord>, chosen: Seq<bool>, p: int, n: int)
    requires
        connected(s),
        0 <= n <= p + 1,
        p < s.len() <= flat::MAX_BOOTSTRAP_NODES,
    ensures
        kept_children(s, chosen, p, n) == 0,
    decreases n,
{
    if n > 0 {
        lemma_no_early_children(s, chosen, p, n - 1);
        if n - 1 > 0 {
            assert(s[n - 1].parent_id->0 < n - 1);
        }
    }
}

/// Whether the first `k` records were taken over.
spec fn taken(
    s: Seq<FlatSnapshotRecord>,
    chosen: Seq<bool>,
    remap: Seq<u64>,
    out: Seq<FlatSnapshotRecord>,
    k: int,
) -> bool {
    &&& remap.len() == k
    &&& out.len() == new_id(s, chosen, k)
    &&& forall|i: int| 0 <= i < k ==> #[trigger] remap[i] == new_id(s, chosen, i)
    &&& forall|i: int|
        0 <= i < k && #[trigger] included(s, chosen, i) ==> is_kept_record(
            s,
            chosen,
            i,
            k,
            out[new_id(s, chosen, i) as int],
        )
}

fn copy_text(o: &Option<String>) -> (out: Option<String>)
    ensures
        text::option_text(out) == text::option_text(*o),
{
    match o {
        Some(s) => Some(owned(s.as_str())),
        None => None,
    }
}

proof fn lemma_taken_step(
    s: Seq<FlatSnapshotRecord>,
    chosen: Seq<bool>,
    remap: Seq<u64>,
    before: Seq<FlatSnapshotRecord>,
    mid: Seq<FlatSnapshotRecord>,
    r: FlatSnapshotRecord,
    k: int,
)
    requires
        connected(s),
        0 <= k < s.len(),
        s.len() <= flat::MAX_BOOTSTRAP_NODES,
        taken(s, chosen, remap, before, k),
        included(s, chosen, k),
        mid.len() == before.len(),
        k > 0 ==> ({
            let p = new_id(s, chosen, s[k].parent_id->0 as int) as int;
            &&& 0 <= p < before.len()
            &&& mid == before.update(
                p,
                FlatSnapshotRecord {
                    child_count: (before[p].child_count + 1) as u32,
                    ..before[p]
                },
            )
        }),
        k == 0 ==> mid == before,
        is_kept_record(s, chosen, k, k + 1, r),
    ensures
        taken(s, chosen, remap.push(new_id(s, chosen, k) as u64), mid.push(r), k + 1),
{
    let out = mid.push(r);
    lemma_new_id_bound(s, chosen, k, k);
    assert forall|i: int| 0 <= i < k + 1 && #[trigger] included(s, chosen, i) implies is_kept_record(
        s,
        chosen,
        i,
        k + 1,
        out[new_id(s, chosen, i) as int],
    ) by {
        if i < k {
            lemma_new_id_bound(s, chosen, i, k);
            let at = new_id(s, chosen, i) as int;
            assert(is_kept_record(s, chosen, i, k, before[at]));
            lemma_kept_children_bound(s, chosen, i, k);
            if k > 0 {
                let p = s[k].parent_id->0 as int;
                let to = new_id(s, chosen, p) as int;
                lemma_parent_included(s, chosen, k);
                if at == to && i != p {
                    if i < p {
                        lemma_new_id_bound(s, chosen, i, p);
                    } else {
                        lemma_new_id_bound(s, chosen, p, i);
                    }
                }
                if i == p {
                    assert(s[k].parent_id == Some(i as u64));
                } else {
                    assert(s[k].parent_id != Some(i as u64));
                }
            }
        }
    }
}

proof fn lemma_skipped_step(
    s: Seq<FlatSnapshotRecord>,
    chosen: Seq<bool>,
    remap: Seq<u64>,
    out: Seq<FlatSnapshotRecord>,
    k: int,
)
    requires
        0 <= k < s.len(),
        s.len() <= flat::MAX_BOOTSTRAP_NODES,
        taken(s, chosen, remap, out, k),
        !included(s, chosen, k),
    ensures
        taken(s, chosen, remap.push(new_id(s, chosen, k) as u64), out, k + 1),
{
    lemma_new_id_bound(s, chosen, k, k);
    assert forall|i: int| 0 <= i < k + 1 && #[trigger] included(s, chosen, i) implies is_kept_record(
        s,
        chosen,
        i,
        k + 1,
        out[new_id(s, chosen, i) as int],
    ) by {
        assert(i < k);
        assert(is_kept_record(s, chosen, i, k, out[new_id(s, chosen, i) as int]));
    }
}

/// Takes over the included records with new ids.
fn take_records(
    records: &Vec<FlatSnapshotRecord>,
    sources: &HashMap<u64, String>,
    chosen: &Vec<bool>,
    inside: &Vec<bool>,
    over: &Vec<bool>,
) -> (r: (Vec<FlatSnapshotRecord>, HashMap<u64, String>))
    requires
        connected(records@),
        0 < records@.len() <= flat::MAX_BOOTSTRAP_NODES,
        chosen@.len() == records@.len(),
        inside@.len() == records@.len(),
        over@.len() == records@.len(),
        forall|i: int|
            0 <= i < inside@.len() ==> #[trigger] inside@[i] == within(records@, chosen@, i),
        forall|i: int| 0 <= i < over@.len() ==> #[trigger] over@[i] == above(records@, chosen@, i),
    ensures
        r.0@.len() == new_id(records@, chosen@, records@.len() as int),
        forall|i: int|
            0 <= i < records@.len() && #[trigger] included(records@, chosen@, i) ==> is_kept_record(
                records@,
                chosen@,
                i,
                records@.len() as int,
                r.0@[new_id(records@, chosen@, i) as int],
            ),
        preparation::texts_by_id(r.1@) == kept_sources(
            records@,
            chosen@,
            preparation::texts_by_id(sources@),
            records@.len() as int,
        ),
{
    let ghost s = records@;
    let ghost c = chosen@;
    let ghost files = preparation::texts_by_id(sources@);
    let mut remap: Vec<u64> = Vec::new();
    let mut out: Vec<FlatSnapshotRecord> = Vec::new();
    let mut kept: HashMap<u64, String> = HashMap::new();
    let mut k: usize = 0;
    proof {
        assert(preparation::texts_by_id(kept@) =~= kept_sources(s, c, files, 0));
    }
    while k < records.len()
        invariant
            k <= s.len(),
            s == records@,
            c == chosen@,
            files == preparation::texts_by_id(sources@),
            connected(s),
            0 < s.len() <= flat::MAX_BOOTSTRAP_NODES,
            inside@.len() == s.len(),
            over@.len() == s.len(),
            forall|i: int| 0 <= i < inside@.len() ==> #[trigger] inside@[i] == within(s, c, i),
            forall|i: int| 0 <= i < over@.len() ==> #[trigger] over@[i] == above(s, c, i),
            taken(s, c, remap@, out@, k as int),
            preparation::texts_by_id(kept@) == kept_sources(s, c, files, k as int),
        decreases s.len() - k,
    {
        let ghost remap_before = remap@;
        let ghost out_before = out@;
        let id: u64 = out.len() as u64;
        proof {
            lemma_new_id_bound(s, c, k as int, k as int);
        }
        if !(k == 0 || inside[k] || over[k]) {
            remap.push(id);
            proof {
                lemma_skipped_step(s, c, remap_before, out_before, k as int);
            }
            k += 1;
            continue;
        }
        let old = &records[k];
        let mut parent_id: Option<u64> = None;
        let mut child_index: u32 = 0;
        let mut source_included: Option<bool> = None;
        if k > 0 {
            if let Some(p) = old.parent_id {
                assert(p < k);
                proof {
                    lemma_parent_included(s, c, k as int);
                    lemma_new_id_bound(s, c, p as int, k as int);
                    lemma_kept_children_bound(s, c, p as int, k as int);
                    assert(included(s, c, p as int));
                }
                let to: u64 = remap[p as usize];
                parent_id = Some(to);
                child_index = out[to as usize].child_count;
                out[to as usize].child_count = child_index + 1;
            }
            source_included = if ScriptClass::from_class(old.class.as_str()).is_some() {
                Some(inside[k])
            } else {
                old.source_included
            };
        }
        let ghost out_mid = out@;
        proof {
            lemma_no_early_children(s, c, k as int, k + 1);
        }
        let record = FlatSnapshotRecord {
            id,
            parent_id,
            child_index,
            child_count: 0,
            name: owned(old.name.as_str()),
            class: owned(old.class.as_str()),
            has_children: old.has_children,
            avoid_sync: old.avoid_sync,
            avoid_sync_carrier: old.avoid_sync_carrier,
            disk_fragment: copy_text(&old.disk_fragment),
            disk_fragment_is_dir: old.disk_fragment_is_dir,
            source_included,
        };
        proof {
            assert(is_kept_record(s, c, k as int, k + 1, record));
            if k > 0 {
                let p = new_id(s, c, s[k as int].parent_id->0 as int) as int;
                assert(out_mid =~= out_before.update(
                    p,
                    FlatSnapshotRecord {
                        child_count: (out_before[p].child_count + 1) as u32,
                        ..out_before[p]
                    },
                ));
            }
            lemma_taken_step(s, c, remap_before, out_before, out_mid, record, k as int);
        }
        let drops = match source_included {
            Some(false) => true,
            _ => false,
        };
        if !drops {
            let key: u64 = k as u64;
            if let Some(path) = sources.get(&key) {
                let ghost before = preparation::texts_by_id(kept@);
                kept.insert(id, owned(path.as_str()));
                proof {
                    assert(preparation::texts_by_id(kept@) =~= before.insert(id, files[key]));
                }
            }
        }
        remap.push(id);
        out.push(record);
        k += 1;
    }
    (out, kept)
}

/// Whether that is the part of a service that the selected paths name, with the
/// records as a tree and the marks of those that are named.
pub open spec fn is_selected_by(
    service: Seq<char>,
    s: Seq<FlatSnapshotRecord>,
    files: Map<u64, Seq<char>>,
    paths: Seq<Seq<char>>,
    out: SelectiveFlatService,
    t: Tree,
    chosen: Seq<bool>,
) -> bool {
    let n = s.len() as int;
    let nodes = diff::recorded(diff::local_visits(t.nodes@, seq![0usize]));
    let gone = missing_paths(service, nodes, paths, paths.len() as int);
    &&& t.wf() && t.nodes@.len() == n
    &&& forall|i: int|
        0 <= i < n ==> flat::node_matches(s[i], #[trigger] t.nodes@[i])
            && crate::survey::ints(t.nodes@[i].children@) == flat::sorted_children(s, i)
    &&& chosen.len() == n
    &&& forall|i: int|
        0 <= i < n ==> #[trigger] chosen[i] == is_chosen(
            service,
            nodes,
            paths,
            i,
            paths.len() as int,
        )
    &&& out.records@.len() == new_id(s, chosen, n)
    &&& forall|i: int|
        0 <= i < n && #[trigger] included(s, chosen, i) ==> is_kept_record(
            s,
            chosen,
            i,
            n,
            out.records@[new_id(s, chosen, i) as int],
        )
    &&& preparation::texts_by_id(out.source_paths@) == kept_sources(s, chosen, files, n)
    &&& path_lists::path_models(out.deletes@) == path_lists::deduped(
        path_lists::sorted_paths(gone),
        gone.len() as int,
    )
}

/// Whether these records, sources and missing paths are the part of a service
/// that the selected paths name: the chosen nodes, what is below them, and what
/// leads to them.
pub open spec fn is_selected_service(
    service: Seq<char>,
    s: Seq<FlatSnapshotRecord>,
    files: Map<u64, Seq<char>>,
    paths: Seq<Seq<char>>,
    out: SelectiveFlatService,
) -> bool {
    exists|t: Tree, chosen: Seq<bool>| #[trigger]
        is_selected_by(service, s, files, paths, out, t, chosen)
}

/// Takes the part of a service that the selected paths name.
pub fn selective_flat_service(
    service: &str,
    records: &Vec<FlatSnapshotRecord>,
    source_paths: &HashMap<u64, String>,
    selected_paths: &Vec<String>,
    max_depth: usize,
) -> (r: Result<SelectiveFlatService, FlatProblem>)
    ensures
        match r {
            Err(p) => flat::flat_problem(records@, service@, true, max_depth) == Some(p),
            Ok(out) => {
                &&& flat::flat_problem(records@, service@, true, max_depth) is None
                &&& is_selected_service(
                    service@,
                    records@,
                    preparation::texts_by_id(source_paths@),
                    disk_index::texts(selected_paths@),
                    out,
                )
            },
        },
{
    let validated = match validate_flat_snapshot(records, service, true, max_depth) {
        Err(p) => return Err(p),
        Ok(validated) => validated,
    };
    let roots: [usize; 1] = [0];
    proof {
        assert(roots@ =~= seq![0usize]);
        lemma_connected(records@, service@, true, max_depth);
    }
    let nodes = collect_local_nodes(&validated.service, &roots);
    let (chosen, missing) = choose_records(service, &nodes, selected_paths, records.len());
    let inside = find_within(records, &chosen);
    let over = find_above(records, &chosen);
    let (kept, sources) = take_records(records, source_paths, &chosen, &inside, &over);
    let deletes = sort_paths(&missing);
    proof {
        assert(path_lists::path_models(missing@).len() == missing@.len());
    }
    let out = SelectiveFlatService { records: kept, source_paths: sources, deletes };
    proof {
        assert(is_selected_by(
            service@,
            records@,
            preparation::texts_by_id(source_paths@),
            disk_index::texts(selected_paths@),
            out,
            validated.service,
            chosen@,
        ));
    }
    Ok(out)
}

/// Records without a problem form a tree in which every parent comes first.
proof fn lemma_connected(
    s: Seq<FlatSnapshotRecord>,
    service: Seq<char>,
    from_disk: bool,
    max_depth: usize,
)
    requires
        flat::flat_problem(s, service, from_disk, max_depth) is None,
    ensures
        connected(s),
        0 < s.len() <= flat::MAX_BOOTSTRAP_NODES,
{
    assert forall|i: int| 0 < i < s.len() implies (#[trigger] s[i]).parent_id is Some
        && s[i].parent_id->0 < i by {
        lemma_record_clean(s, service, from_disk, s.len() as int, i);
    }
}

proof fn lemma_record_clean(
    s: Seq<FlatSnapshotRecord>,
    service: Seq<char>,
    from_disk: bool,
    n: int,
    i: int,
)
    requires
        flat::records_problem(s, service, from_disk, n) is None,
        0 <= i < n <= s.len(),
    ensures
        flat::record_problem(s[i], i as usize, service, from_disk) is None,
    decreases n,
{
    if i < n - 1 {
        lemma_record_clean(s, service, from_disk, n - 1, i);
    }
}

/// What is done to Studio at one path.
#[derive(Debug, Clone, Copy, PartialEq, Eq, Structural)]
pub enum OpKind {
    /// Make sure that a container is there, and leave what is in it.
    Ensure,
    /// Replace the node and everything below it.
    Replace,
    Delete,
}

/// One step towards the state on disk. Without a node for `Delete`.
#[derive(Debug)]
pub struct SelectOp {
    pub kind: OpKind,
    pub target: Vec<String>,
    pub node: Option<usize>,
    pub disk_path: Vec<String>,
}

#[verifier::ext_equal]
pub struct OpModel {
    pub kind: OpKind,
    pub target: Seq<Seq<char>>,
    pub node: Option<int>,
    pub disk_path: Seq<Seq<char>>,
}

impl SelectOp {
    pub open spec fn view(&self) -> OpModel {
        OpModel {
            kind: self.kind,
            target: disk_index::texts(self.target@),
            node: match self.node {
                Some(n) => Some(n as int),
                None => None,
            },
            disk_path: disk_index::texts(self.disk_path@),
        }
    }
}

pub open spec fn op_models(v: Seq<SelectOp>) -> Seq<OpModel> {
    Seq::new(v.len(), |i: int| v[i]@)
}

/// The path of the first `n` segments.
pub open spec fn joined_segments(s: Seq<Seq<char>>, n: int) -> Seq<char>
    decreases n,
{
    if n <= 0 {
        Seq::empty()
    } else if n == 1 {
        s[0]
    } else {
        joined_segments(s, n - 1) + "/"@ + s[n - 1]
    }
}

/// The steps so far, and the containers that were ensured.
#[verifier::ext_equal]
pub struct OpState {
    pub ops: Seq<OpModel>,
    pub ensured: Set<Seq<char>>,
}

/// The state after the containers of a path were ensured down to depth `d`.
pub open spec fn ensured_upto(
    start: OpState,
    s: Seq<Seq<char>>,
    places: Map<Seq<char>, disk_index::PlaceModel>,
    d: int,
) -> OpState
    decreases d,
{
    if d <= 2 {
        start
    } else {
        let before = ensured_upto(start, s, places, d - 1);
        let path = joined_segments(s, d - 1);
        if !places.contains_key(path) || before.ensured.contains(path) {
            before
        } else {
            OpState {
                ops: before.ops.push(
                    OpModel {
                        kind: OpKind::Ensure,
                        target: s.take(d - 1),
                        node: Some(places[path].node),
                        disk_path: places[path].disk_path,
                    },
                ),
                ensured: before.ensured.insert(path),
            }
        }
    }
}

/// The state after one selected path.
pub open spec fn op_step(
    start: OpState,
    path: Seq<char>,
    places: Map<Seq<char>, disk_index::PlaceModel>,
) -> OpState {
    let s = text::split(path, '/');
    if places.contains_key(path) {
        let before = ensured_upto(start, s, places, s.len() as int);
        OpState {
            ops: before.ops.push(
                OpModel {
                    kind: OpKind::Replace,
                    target: s,
                    node: Some(places[path].node),
                    disk_path: places[path].disk_path,
                },
            ),
            ensured: before.ensured,
        }
    } else {
        OpState {
            ops: start.ops.push(
                OpModel { kind: OpKind::Delete, target: s, node: None, disk_path: Seq::empty() },
            ),
            ensured: start.ensured,
        }
    }
}

/// The state after the first `n` selected paths.
pub open spec fn ops_upto(
    paths: Seq<Seq<char>>,
    places: Map<Seq<char>, disk_index::PlaceModel>,
    n: int,
) -> OpState
    decreases n,
{
    if n <= 0 {
        OpState { ops: Seq::empty(), ensured: Set::empty() }
    } else {
        op_step(ops_upto(paths, places, n - 1), paths[n - 1], places)
    }
}

fn copy_head(s: &Vec<String>, n: usize) -> (out: Vec<String>)
    requires
        n <= s@.len(),
    ensures
        disk_index::texts(out@) == disk_index::texts(s@).take(n as int),
{
    let mut out: Vec<String> = Vec::new();
    let mut k: usize = 0;
    while k < n
        invariant
            k <= n <= s@.len(),
            out@.len() == k,
            forall|j: int| 0 <= j < k ==> (#[trigger] out@[j])@ == s@[j]@,
        decreases n - k,
    {
        out.push(owned(s[k].as_str()));
        k += 1;
    }
    proof {
        assert(disk_index::texts(out@) =~= disk_index::texts(s@).take(n as int));
    }
    out
}

fn push_op(
    ops: &mut Vec<SelectOp>,
    kind: OpKind,
    target: Vec<String>,
    place: Option<&LocalSnapshotValue>,
)
    ensures
        op_models(final(ops)@) == op_models(old(ops)@).push(
            OpModel {
                kind,
                target: disk_index::texts(target@),
                node: match place {
                    Some(p) => Some(p.node as int),
                    None => None,
                },
                disk_path: match place {
                    Some(p) => disk_index::texts(p.disk_path@),
                    None => Seq::empty(),
                },
            },
        ),
{
    let ghost before = ops@;
    let mut node: Option<usize> = None;
    let mut disk_path: Vec<String> = Vec::new();
    proof {
        assert(disk_index::texts(disk_path@) =~= Seq::<Seq<char>>::empty());
    }
    if let Some(place) = place {
        node = Some(place.node);
        disk_path = copy_head(&place.disk_path, place.disk_path.len());
        proof {
            assert(disk_index::texts(place.disk_path@).take(place.disk_path@.len() as int)
                =~= disk_index::texts(place.disk_path@));
        }
    }
    ops.push(SelectOp { kind, target, node, disk_path });
    proof {
        assert(op_models(ops@) =~= op_models(before).push(ops@.last()@));
    }
}

/// What makes Studio equal to the disk at the selected paths, and the paths
/// themselves, without those below another one.
pub fn build_selective_snapshot(t: &Tree, services: &[usize], paths: &Vec<String>) -> (r: Result<
    (Vec<SelectOp>, Vec<String>),
    (SelectProblem, String),
>)
    requires
        t.wf(),
        forall|k: int| 0 <= k < services@.len() ==> #[trigger] services@[k] < t.nodes@.len(),
    ensures
        ({
            let all = disk_index::texts(paths@);
            let ordered = path_lists::deduped(path_lists::by_depth(all), all.len() as int);
            let chosen = path_lists::outermost(ordered, ordered.len() as int);
            let places = disk_index::placed(disk_index::service_places(t.nodes@, services@));
            match r {
                Err((p, path)) => if paths@.len() == 0 {
                    p == SelectProblem::NoPaths
                } else if paths@.len() > path_lists::MAX_SELECTED_PATHS {
                    p == SelectProblem::TooMany
                } else {
                    path_lists::selection_problem(ordered, 0) == Some((p, path@))
                },
                Ok((ops, kept)) => {
                    &&& 0 < paths@.len() <= path_lists::MAX_SELECTED_PATHS
                    &&& path_lists::selection_problem(ordered, 0) is None
                    &&& disk_index::texts(kept@) == chosen
                    &&& op_models(ops@) == ops_upto(chosen, places, chosen.len() as int).ops
                },
            }
        }),
{
    let chosen = match compact_selected_paths(paths) {
        Err(problem) => return Err(problem),
        Ok(chosen) => chosen,
    };
    let places = collect_local_snapshot_entries(t, services);
    let ghost map = disk_index::places_of(places);
    let ghost all = disk_index::texts(chosen@);
    let mut ops: Vec<SelectOp> = Vec::new();
    let mut ensured: TextMap<usize> = TextMap::new();
    let mut k: usize = 0;
    proof {
        assert(op_models(ops@) =~= Seq::<OpModel>::empty());
        assert(ensured@.dom() =~= Set::<Seq<char>>::empty());
    }
    while k < chosen.len()
        invariant
            k <= chosen@.len(),
            all == disk_index::texts(chosen@),
            places.wf(),
            map == disk_index::places_of(places),
            ensured.wf(),
            op_models(ops@) == ops_upto(all, map, k as int).ops,
            ensured@.dom() == ops_upto(all, map, k as int).ensured,
        decreases chosen@.len() - k,
    {
        let path = chosen[k].as_str();
        proof {
            assert(all[k as int] == path@);
        }
        let segments = split_path(path);
        let ghost s = text::split(path@, '/');
        let ghost start = ops_upto(all, map, k as int);
        if let Some(place) = places.get(path) {
            let mut d: usize = 2;
            let mut prefix = owned(segments[0].as_str());
            proof {
                assert(prefix@ == s[0]);
            }
            if segments.len() > 1 {
                append(&mut prefix, "/");
                append(&mut prefix, segments[1].as_str());
                proof {
                    assert(s[1] == segments@[1]@);
                    reveal_with_fuel(joined_segments, 3);
                    assert(prefix@ =~= joined_segments(s, 2));
                }
            }
            while d < segments.len()
                invariant
                    2 <= d,
                    d <= segments@.len() || (segments@.len() < 2 && d == 2),
                    s == disk_index::texts(segments@),
                    segments@.len() >= 2 ==> prefix@ == joined_segments(s, d as int),
                    places.wf(),
                    map == disk_index::places_of(places),
                    ensured.wf(),
                    op_models(ops@) == ensured_upto(start, s, map, d as int).ops,
                    ensured@.dom() == ensured_upto(start, s, map, d as int).ensured,
                decreases segments@.len() - d,
            {
                if let Some(container) = places.get(prefix.as_str()) {
                    if !ensured.contains(prefix.as_str()) {
                        let ghost before = ensured@.dom();
                        push_op(
                            &mut ops,
                            OpKind::Ensure,
                            copy_head(&segments, d),
                            Some(container),
                        );
                        ensured.insert(owned(prefix.as_str()), d);
                        proof {
                            assert(ensured@.dom() =~= before.insert(prefix@));
                        }
                    }
                }
                append(&mut prefix, "/");
                append(&mut prefix, segments[d].as_str());
                proof {
                    assert(s[d as int] == segments@[d as int]@);
                    assert(prefix@ =~= joined_segments(s, d + 1));
                }
                d += 1;
            }
            proof {
                assert(s.len() == segments@.len());
                if segments@.len() < 2 {
                    assert(ensured_upto(start, s, map, s.len() as int) == start);
                    assert(ensured_upto(start, s, map, 2) == start);
                }
                assert(op_models(ops@) == ensured_upto(start, s, map, s.len() as int).ops);
                assert(map.contains_key(path@));
                assert(map[path@] == place@);
            }
            push_op(&mut ops, OpKind::Replace, segments, Some(place));
        } else {
            proof {
                assert(!map.contains_key(path@));
            }
            push_op(&mut ops, OpKind::Delete, segments, None);
        }
        proof {
            assert(ops_upto(all, map, k + 1) == op_step(start, path@, map));
            assert(op_models(ops@) =~= op_step(start, path@, map).ops);
        }
        k += 1;
    }
    Ok((ops, chosen))
}

/// Whether each of the records at those places is the parent of the one before.
pub open spec fn is_parent_chain(s: Seq<FlatSnapshotRecord>, chain: Seq<int>) -> bool {
    &&& chain.len() > 0
    &&& 0 <= chain.last() && chain[0] < s.len()
    &&& forall|t: int|
        0 <= t < chain.len() - 1 ==> chain[t + 1] < #[trigger] chain[t] && s[chain[t]].parent_id
            == Some(chain[t + 1] as u64)
}

/// Whether the parents of a record lead up to a named one, or those of a named
/// one lead up to it.
pub open spec fn is_sent_for(s: Seq<FlatSnapshotRecord>, named: Seq<bool>, i: int) -> bool {
    exists|chain: Seq<int>| #[trigger]
        is_parent_chain(s, chain) && ((chain[0] == i && chain.last() > 0 && named[chain.last()])
            || (chain.last() == i && named[chain[0]]))
}

pub proof fn lemma_chain_bounds(s: Seq<FlatSnapshotRecord>, chain: Seq<int>, t: int)
    requires
        is_parent_chain(s, chain),
        0 <= t < chain.len(),
    ensures
        chain.last() <= chain[t] <= chain[0],
        t > 0 ==> chain[t] < chain[0],
        t < chain.len() - 1 ==> chain.last() < chain[t],
    decreases chain.len() - t,
{
    if t < chain.len() - 1 {
        lemma_chain_bounds(s, chain, t + 1);
    }
    lemma_chain_start(s, chain, t);
}

proof fn lemma_chain_start(s: Seq<FlatSnapshotRecord>, chain: Seq<int>, t: int)
    requires
        is_parent_chain(s, chain),
        0 <= t < chain.len(),
    ensures
        chain[t] <= chain[0],
        t > 0 ==> chain[t] < chain[0],
    decreases t,
{
    if t > 0 {
        lemma_chain_start(s, chain, t - 1);
        assert(chain[t - 1 + 1] < chain[t - 1]);
    }
}

proof fn lemma_below_is_within(s: Seq<FlatSnapshotRecord>, chosen: Seq<bool>, chain: Seq<int>)
    requires
        connected(s),
        s.len() <= flat::MAX_BOOTSTRAP_NODES,
        is_parent_chain(s, chain),
        chain.last() > 0,
        chosen[chain.last()],
    ensures
        within(s, chosen, chain[0]),
    decreases chain.len(),
{
    lemma_chain_bounds(s, chain, 0);
    assert(s[chain[0]].parent_id is Some && s[chain[0]].parent_id->0 < chain[0]);
    if chain.len() > 1 {
        lemma_chain_bounds(s, chain, 1);
        let rest = chain.skip(1);
        assert forall|t: int| 0 <= t < rest.len() - 1 implies rest[t + 1] < #[trigger] rest[t]
            && s[rest[t]].parent_id == Some(rest[t + 1] as u64) by {
            assert(rest[t] == chain[t + 1] && rest[t + 1] == chain[t + 1 + 1]);
        }
        assert(is_parent_chain(s, rest));
        lemma_below_is_within(s, chosen, rest);
        assert(s[chain[0]].parent_id == Some(chain[1] as u64)) by {
            let t: int = 0;
            assert(chain[t + 1] < chain[t] && s[chain[t]].parent_id == Some(chain[t + 1] as u64));
        }
    }
}

proof fn lemma_within_is_below(s: Seq<FlatSnapshotRecord>, chosen: Seq<bool>, i: int) -> (chain: Seq<
    int,
>)
    requires
        s.len() <= flat::MAX_BOOTSTRAP_NODES,
        0 <= i < s.len(),
        within(s, chosen, i),
    ensures
        is_parent_chain(s, chain),
        chain[0] == i,
        chain.last() > 0,
        chosen[chain.last()],
    decreases i,
{
    if chosen[i] {
        seq![i]
    } else {
        let p = s[i].parent_id->0 as int;
        let rest = lemma_within_is_below(s, chosen, p);
        let chain = seq![i] + rest;
        assert forall|t: int| 0 <= t < chain.len() - 1 implies chain[t + 1] < #[trigger] chain[t]
            && s[chain[t]].parent_id == Some(chain[t + 1] as u64) by {
            if t > 0 {
                assert(chain[t] == rest[t - 1] && chain[t + 1] == rest[t - 1 + 1]);
            }
        }
        chain
    }
}

proof fn lemma_leading_is_above(s: Seq<FlatSnapshotRecord>, chosen: Seq<bool>, chain: Seq<int>)
    requires
        is_parent_chain(s, chain),
        chosen[chain[0]],
    ensures
        above(s, chosen, chain.last()),
    decreases chain.len(),
{
    lemma_chain_bounds(s, chain, chain.len() - 1);
    if chain.len() > 1 {
        let rest = chain.drop_last();
        lemma_chain_bounds(s, chain, chain.len() - 2);
        assert forall|t: int| 0 <= t < rest.len() - 1 implies rest[t + 1] < #[trigger] rest[t]
            && s[rest[t]].parent_id == Some(rest[t + 1] as u64) by {
            assert(rest[t] == chain[t] && rest[t + 1] == chain[t + 1]);
        }
        assert(is_parent_chain(s, rest));
        lemma_leading_is_above(s, chosen, rest);
        let j = rest.last();
        assert(chain[chain.len() - 2] == j);
        assert(s[j].parent_id == Some(chain.last() as u64));
    }
}

proof fn lemma_above_is_leading(s: Seq<FlatSnapshotRecord>, chosen: Seq<bool>, i: int) -> (chain: Seq<
    int,
>)
    requires
        above(s, chosen, i),
    ensures
        is_parent_chain(s, chain),
        chain.last() == i,
        chosen[chain[0]],
    decreases s.len() - i,
{
    if chosen[i] {
        seq![i]
    } else {
        let j = choose|j: int|
            i < j < s.len() && (#[trigger] s[j]).parent_id == Some(i as u64) && above(s, chosen, j);
        let rest = lemma_above_is_leading(s, chosen, j);
        let chain = rest.push(i);
        assert forall|t: int| 0 <= t < chain.len() - 1 implies chain[t + 1] < #[trigger] chain[t]
            && s[chain[t]].parent_id == Some(chain[t + 1] as u64) by {
            if t < rest.len() - 1 {
                assert(chain[t] == rest[t] && chain[t + 1] == rest[t + 1]);
            }
        }
        chain
    }
}

/// The places of the included records among the first `n`, in order.
proof fn lemma_places(s: Seq<FlatSnapshotRecord>, chosen: Seq<bool>, n: int) -> (at: Seq<int>)
    requires
        0 <= n <= s.len(),
    ensures
        at.len() == new_id(s, chosen, n),
        forall|q: int|
            0 <= q < at.len() ==> 0 <= #[trigger] at[q] < n && included(s, chosen, at[q])
                && new_id(s, chosen, at[q]) == q,
        forall|i: int|
            0 <= i < n && #[trigger] included(s, chosen, i) ==> new_id(s, chosen, i) < at.len()
                && at[new_id(s, chosen, i) as int] == i,
        forall|q: int, r: int| 0 <= q < r < at.len() ==> #[trigger] at[q] < #[trigger] at[r],
    decreases n,
{
    if n <= 0 {
        Seq::empty()
    } else {
        let before = lemma_places(s, chosen, n - 1);
        if included(s, chosen, n - 1) {
            before.push(n - 1)
        } else {
            before
        }
    }
}

proof fn lemma_kept_children_grow(
    s: Seq<FlatSnapshotRecord>,
    chosen: Seq<bool>,
    p: int,
    i: int,
    n: int,
)
    requires
        0 <= i <= n,
    ensures
        kept_children(s, chosen, p, i) <= kept_children(s, chosen, p, n),
        0 < i < n && included(s, chosen, i) && s[i].parent_id == Some(p as u64) ==> kept_children(
            s,
            chosen,
            p,
            i,
        ) < kept_children(s, chosen, p, n),
    decreases n,
{
    if i < n {
        lemma_kept_children_grow(s, chosen, p, i, n - 1);
    }
}

proof fn lemma_kept_child_at(
    s: Seq<FlatSnapshotRecord>,
    chosen: Seq<bool>,
    p: int,
    n: int,
    x: int,
) -> (i: int)
    requires
        0 <= x < kept_children(s, chosen, p, n),
    ensures
        0 < i < n,
        included(s, chosen, i),
        s[i].parent_id == Some(p as u64),
        kept_children(s, chosen, p, i) == x,
    decreases n,
{
    if x < kept_children(s, chosen, p, n - 1) {
        lemma_kept_child_at(s, chosen, p, n - 1, x)
    } else {
        n - 1
    }
}

proof fn lemma_kept_source_at(
    s: Seq<FlatSnapshotRecord>,
    chosen: Seq<bool>,
    files: Map<u64, Seq<char>>,
    n: int,
    i: int,
)
    requires
        0 <= i < s.len(),
        0 <= n <= s.len() <= flat::MAX_BOOTSTRAP_NODES,
        included(s, chosen, i),
    ensures
        ({
            let kept = kept_sources(s, chosen, files, n);
            let q = new_id(s, chosen, i) as u64;
            &&& kept.contains_key(q) == (i < n && carried_source(s, chosen, i) != Some(false)
                && files.contains_key(i as u64))
            &&& kept.contains_key(q) ==> kept[q] == files[i as u64]
        }),
    decreases n,
{
    if n > 0 {
        lemma_kept_source_at(s, chosen, files, n - 1, i);
        lemma_new_id_bound(s, chosen, 0, i);
        lemma_new_id_bound(s, chosen, 0, n - 1);
        if i < n - 1 {
            lemma_new_id_bound(s, chosen, i, n - 1);
        } else if i > n - 1 && included(s, chosen, n - 1) {
            lemma_new_id_bound(s, chosen, n - 1, i);
        }
    }
}

proof fn lemma_kept_source_keys(
    s: Seq<FlatSnapshotRecord>,
    chosen: Seq<bool>,
    files: Map<u64, Seq<char>>,
    n: int,
    q: u64,
)
    requires
        0 <= n <= s.len() <= flat::MAX_BOOTSTRAP_NODES,
        kept_sources(s, chosen, files, n).contains_key(q),
    ensures
        q < new_id(s, chosen, n),
    decreases n,
{
    if n > 0 {
        lemma_new_id_bound(s, chosen, n - 1, n);
        if kept_sources(s, chosen, files, n - 1).contains_key(q) {
            lemma_kept_source_keys(s, chosen, files, n - 1, q);
        }
    }
}

proof fn lemma_missing(
    service: Seq<char>,
    nodes: Map<Seq<char>, diff::NodeModel>,
    paths: Seq<Seq<char>>,
    n: int,
    gone: Seq<Seq<char>>,
)
    requires
        0 <= n <= paths.len(),
    ensures
        missing_paths(service, nodes, paths, n).contains(gone) <==> exists|k: int|
            0 <= k < n && (service + "/"@).is_prefix_of(#[trigger] paths[k]) && !(
            nodes.contains_key(paths[k]) && nodes[paths[k]].stream_id is Some) && gone
                == text::split(paths[k], '/'),
    decreases n,
{
    if n > 0 {
        lemma_missing(service, nodes, paths, n - 1, gone);
        let before = missing_paths(service, nodes, paths, n - 1);
        let all = missing_paths(service, nodes, paths, n);
        let p = paths[n - 1];
        if before.contains(gone) {
            let i = choose|i: int| 0 <= i < before.len() && before[i] == gone;
            assert(all[i] == gone);
        }
        if (service + "/"@).is_prefix_of(p) && !(nodes.contains_key(p)
            && nodes[p].stream_id is Some) {
            assert(all[before.len() as int] == text::split(p, '/'));
        }
        if all.contains(gone) {
            let i = choose|i: int| 0 <= i < all.len() && all[i] == gone;
            if i < before.len() {
                assert(before[i] == gone);
            } else {
                assert(paths[n - 1] == p);
            }
        }
    }
}

/// Whether those are the places of the included records, in order.
spec fn laid_out(s: Seq<FlatSnapshotRecord>, chosen: Seq<bool>, at: Seq<int>) -> bool {
    let n = s.len() as int;
    &&& at.len() == new_id(s, chosen, n)
    &&& forall|q: int|
        0 <= q < at.len() ==> 0 <= #[trigger] at[q] < n && included(s, chosen, at[q]) && new_id(
            s,
            chosen,
            at[q],
        ) == q
    &&& forall|i: int|
        0 <= i < n && #[trigger] included(s, chosen, i) ==> new_id(s, chosen, i) < at.len()
            && at[new_id(s, chosen, i) as int] == i
    &&& forall|q: int, x: int| 0 <= q < x < at.len() ==> #[trigger] at[q] < #[trigger] at[x]
}

#[verifier::opaque]
spec fn sent_from(
    s: Seq<FlatSnapshotRecord>,
    chosen: Seq<bool>,
    at: Seq<int>,
    records: Seq<FlatSnapshotRecord>,
) -> bool {
    &&& connected(s)
    &&& 0 < s.len() <= flat::MAX_BOOTSTRAP_NODES
    &&& laid_out(s, chosen, at)
    &&& records.len() == at.len()
    &&& forall|q: int|
        0 <= q < at.len() ==> is_kept_record(
            s,
            chosen,
            at[q],
            s.len() as int,
            #[trigger] records[q],
        )
}

proof fn lemma_sent_places(
    s: Seq<FlatSnapshotRecord>,
    chosen: Seq<bool>,
    at: Seq<int>,
    records: Seq<FlatSnapshotRecord>,
)
    requires
        sent_from(s, chosen, at, records),
    ensures
        at.len() > 0 && at[0] == 0,
        forall|chain: Seq<int>| #[trigger]
            is_parent_chain(s, chain) && chain.last() > 0 && chosen[chain.last()] ==> at.contains(
                chain[0],
            ),
        forall|chain: Seq<int>| #[trigger]
            is_parent_chain(s, chain) && chosen[chain[0]] ==> at.contains(chain.last()),
{
    reveal(sent_from);
    assert(included(s, chosen, 0) && new_id(s, chosen, 0) == 0);
    assert forall|chain: Seq<int>| #[trigger]
        is_parent_chain(s, chain) && chain.last() > 0 && chosen[chain.last()] implies at.contains(
        chain[0],
    ) by {
        lemma_below_is_within(s, chosen, chain);
        lemma_chain_bounds(s, chain, 0);
        assert(included(s, chosen, chain[0]));
        assert(at[new_id(s, chosen, chain[0]) as int] == chain[0]);
    }
    assert forall|chain: Seq<int>| #[trigger]
        is_parent_chain(s, chain) && chosen[chain[0]] implies at.contains(chain.last()) by {
        lemma_leading_is_above(s, chosen, chain);
        lemma_chain_bounds(s, chain, chain.len() - 1);
        assert(included(s, chosen, chain.last()));
        assert(at[new_id(s, chosen, chain.last()) as int] == chain.last());
    }
}

proof fn lemma_sent_for(
    s: Seq<FlatSnapshotRecord>,
    chosen: Seq<bool>,
    at: Seq<int>,
    records: Seq<FlatSnapshotRecord>,
    q: int,
) -> (chain: Seq<int>)
    requires
        sent_from(s, chosen, at, records),
        0 < q < at.len(),
    ensures
        is_parent_chain(s, chain),
        (chain[0] == at[q] && chain.last() > 0 && chosen[chain.last()]) || (chain.last() == at[q]
            && chosen[chain[0]]),
{
    reveal(sent_from);
    let i = at[q];
    assert(at[0] < at[q]);
    assert(included(s, chosen, i));
    if within(s, chosen, i) {
        lemma_within_is_below(s, chosen, i)
    } else {
        lemma_above_is_leading(s, chosen, i)
    }
}

proof fn lemma_sent_parent(
    s: Seq<FlatSnapshotRecord>,
    chosen: Seq<bool>,
    at: Seq<int>,
    records: Seq<FlatSnapshotRecord>,
    q: int,
)
    requires
        sent_from(s, chosen, at, records),
        0 < q < at.len(),
    ensures
        records[q].parent_id is Some && records[q].parent_id->0 < q,
        s[at[q]].parent_id == Some(at[records[q].parent_id->0 as int] as u64),
        records[q].child_index < records[records[q].parent_id->0 as int].child_count,
        ScriptClass::of_class(records[q].class@) is None ==> records[q].source_included
            == s[at[q]].source_included,
        ScriptClass::of_class(records[q].class@) is Some ==> records[q].source_included == Some(
            exists|chain: Seq<int>| #[trigger]
                is_parent_chain(s, chain) && chain[0] == at[q] && chain.last() > 0
                    && chosen[chain.last()],
        ),
{
    reveal(sent_from);
    let n = s.len() as int;
    let i = at[q];
    assert(at[0] < at[q]);
    assert(is_kept_record(s, chosen, i, n, records[q]));
    let p = s[i].parent_id->0 as int;
    lemma_parent_included(s, chosen, i);
    lemma_new_id_bound(s, chosen, p, i);
    lemma_new_id_bound(s, chosen, p, n);
    let up = new_id(s, chosen, p) as int;
    assert(at[up] == p);
    assert(is_kept_record(s, chosen, p, n, records[up]));
    assert(s[i].parent_id == Some(p as u64));
    lemma_kept_children_grow(s, chosen, p, i, n);
    lemma_kept_children_bound(s, chosen, p, n);
    if within(s, chosen, i) {
        let chain = lemma_within_is_below(s, chosen, i);
        assert(is_parent_chain(s, chain));
    }
    if exists|chain: Seq<int>| #[trigger]
        is_parent_chain(s, chain) && chain[0] == at[q] && chain.last() > 0
            && chosen[chain.last()] {
        let chain = choose|chain: Seq<int>| #[trigger]
            is_parent_chain(s, chain) && chain[0] == at[q] && chain.last() > 0
                && chosen[chain.last()];
        lemma_below_is_within(s, chosen, chain);
    }
}

proof fn lemma_sent_siblings(
    s: Seq<FlatSnapshotRecord>,
    chosen: Seq<bool>,
    at: Seq<int>,
    records: Seq<FlatSnapshotRecord>,
    q: int,
    x: int,
)
    requires
        sent_from(s, chosen, at, records),
        0 < q < x < at.len(),
        records[q].parent_id == records[x].parent_id,
    ensures
        records[q].child_index < records[x].child_index,
{
    reveal(sent_from);
    let n = s.len() as int;
    assert(is_kept_record(s, chosen, at[q], n, records[q]));
    assert(is_kept_record(s, chosen, at[x], n, records[x]));
    assert(at[0] < at[q] && at[q] < at[x]);
    lemma_sent_parent(s, chosen, at, records, q);
    lemma_sent_parent(s, chosen, at, records, x);
    let p = s[at[q]].parent_id->0 as int;
    assert(s[at[x]].parent_id->0 == p);
    lemma_kept_children_grow(s, chosen, p, at[q], at[x]);
    lemma_kept_children_bound(s, chosen, p, at[x]);
}

proof fn lemma_sent_child(
    s: Seq<FlatSnapshotRecord>,
    chosen: Seq<bool>,
    at: Seq<int>,
    records: Seq<FlatSnapshotRecord>,
    q: int,
    x: int,
) -> (c: int)
    requires
        sent_from(s, chosen, at, records),
        0 <= q < at.len(),
        0 <= x < records[q].child_count,
    ensures
        q < c < at.len(),
        records[c].parent_id == Some(q as u64),
        records[c].child_index == x,
{
    reveal(sent_from);
    let n = s.len() as int;
    assert(is_kept_record(s, chosen, at[q], n, records[q]));
    let i = lemma_kept_child_at(s, chosen, at[q], n, x);
    let c = new_id(s, chosen, i) as int;
    assert(at[c] == i);
    assert(is_kept_record(s, chosen, i, n, records[c]));
    assert(s[i].parent_id is Some && s[i].parent_id->0 < i);
    lemma_new_id_bound(s, chosen, at[q], n);
    if c <= q {
        assert(at[c] <= at[q]);
    }
    c
}

proof fn lemma_sent_source(
    s: Seq<FlatSnapshotRecord>,
    chosen: Seq<bool>,
    at: Seq<int>,
    records: Seq<FlatSnapshotRecord>,
    files: Map<u64, Seq<char>>,
    q: int,
)
    requires
        sent_from(s, chosen, at, records),
        0 <= q < at.len(),
    ensures
        ({
            let kept = kept_sources(s, chosen, files, s.len() as int);
            let key = q as u64;
            &&& kept.contains_key(key) == (records[q].source_included != Some(false)
                && files.contains_key(at[q] as u64))
            &&& kept.contains_key(key) ==> kept[key] == files[at[q] as u64]
        }),
{
    reveal(sent_from);
    let n = s.len() as int;
    assert(is_kept_record(s, chosen, at[q], n, records[q]));
    lemma_kept_source_at(s, chosen, files, n, at[q]);
    lemma_new_id_bound(s, chosen, at[q], n);
}

proof fn lemma_named(
    service: Seq<char>,
    nodes: Map<Seq<char>, diff::NodeModel>,
    paths: Seq<Seq<char>>,
    j: int,
)
    requires
        0 <= j <= u64::MAX,
    ensures
        is_chosen(service, nodes, paths, j, paths.len() as int) == exists|k: int|
            0 <= k < paths.len() && (service + "/"@).is_prefix_of(#[trigger] paths[k])
                && nodes.contains_key(paths[k]) && nodes[paths[k]].stream_id == Some(j as u64),
{
    if is_chosen(service, nodes, paths, j, paths.len() as int) {
        let k = choose|k: int|
            0 <= k < paths.len() && below_service(service, #[trigger] paths[k]) && names_id(
                nodes,
                paths[k],
                j,
            );
        assert((service + "/"@).is_prefix_of(paths[k]));
    }
    if exists|k: int|
        0 <= k < paths.len() && (service + "/"@).is_prefix_of(#[trigger] paths[k])
            && nodes.contains_key(paths[k]) && nodes[paths[k]].stream_id == Some(j as u64) {
        let k = choose|k: int|
            0 <= k < paths.len() && (service + "/"@).is_prefix_of(#[trigger] paths[k])
                && nodes.contains_key(paths[k]) && nodes[paths[k]].stream_id == Some(j as u64);
        assert(below_service(service, paths[k]) && names_id(nodes, paths[k], j));
    }
}

/// Whether those are the places of the records that go along with the named
/// ones, in order: the service itself, the named records, what is below them
/// and what is above them.
pub open spec fn are_sent(s: Seq<FlatSnapshotRecord>, named: Seq<bool>, at: Seq<int>) -> bool {
    &&& at.len() > 0 && at[0] == 0
    &&& forall|q: int| 0 <= q < at.len() ==> 0 <= #[trigger] at[q] < s.len()
    &&& forall|q: int, x: int| 0 <= q < x < at.len() ==> #[trigger] at[q] < #[trigger] at[x]
    &&& forall|i: int| #[trigger]
        at.contains(i) <==> i == 0 || (0 <= i < s.len() && is_sent_for(s, named, i))
}

proof fn lemma_sent(
    service: Seq<char>,
    s: Seq<FlatSnapshotRecord>,
    files: Map<u64, Seq<char>>,
    paths: Seq<Seq<char>>,
    max_depth: usize,
    out: SelectiveFlatService,
    t: Tree,
    named: Seq<bool>,
) -> (at: Seq<int>)
    requires
        flat::flat_problem(s, service, true, max_depth) is None,
        is_selected_by(service, s, files, paths, out, t, named),
    ensures
        sent_from(s, named, at, out.records@),
        are_sent(s, named, at),
        at.len() == out.records@.len(),
{
    reveal(sent_from);
    lemma_connected(s, service, true, max_depth);
    let n = s.len() as int;
    let at = lemma_places(s, named, n);
    let records = out.records@;
    assert(laid_out(s, named, at));
    assert forall|q: int| 0 <= q < at.len() implies is_kept_record(
        s,
        named,
        at[q],
        n,
        #[trigger] records[q],
    ) by {
        assert(included(s, named, at[q]));
    }
    assert(sent_from(s, named, at, records));
    lemma_sent_places(s, named, at, records);
    assert forall|i: int| #[trigger] at.contains(i) implies i == 0 || (0 <= i < s.len()
        && is_sent_for(s, named, i)) by {
        let q = choose|q: int| 0 <= q < at.len() && at[q] == i;
        if q > 0 {
            let chain = lemma_sent_for(s, named, at, records, q);
            assert(is_parent_chain(s, chain));
        }
    }
    assert forall|i: int| i == 0 || (0 <= i < s.len() && is_sent_for(s, named, i)) implies
        #[trigger] at.contains(i) by {
        if i == 0 {
            assert(at[0] == 0);
        } else {
            let chain = choose|chain: Seq<int>| #[trigger]
                is_parent_chain(s, chain) && ((chain[0] == i && chain.last() > 0
                    && named[chain.last()]) || (chain.last() == i && named[chain[0]]));
            assert(is_parent_chain(s, chain));
        }
    }
    at
}

/// A selected path names the record whose node is recorded under it in the tree
/// of the records, and only paths below the service name anything. What is
/// selected below the service and names no record is to be deleted, and nothing
/// else is.
pub proof fn law_selected_paths_name_records(
    service: Seq<char>,
    s: Seq<FlatSnapshotRecord>,
    files: Map<u64, Seq<char>>,
    paths: Seq<Seq<char>>,
    out: SelectiveFlatService,
    t: Tree,
    named: Seq<bool>,
)
    requires
        s.len() <= u64::MAX,
        is_selected_by(service, s, files, paths, out, t, named),
    ensures
        t.wf() && t.nodes@.len() == s.len() && named.len() == s.len(),
        forall|i: int|
            0 <= i < s.len() ==> {
                let n = #[trigger] t.nodes@[i];
                &&& n.class_text() == Some(s[i].class@) && n.name_text() == Some(s[i].name@)
                &&& n.stream_id == Some(s[i].id)
                &&& crate::survey::ints(n.children@) == flat::sorted_children(s, i)
            },
        ({
            let nodes = diff::recorded(diff::local_visits(t.nodes@, seq![0usize]));
            &&& forall|j: int|
                0 <= j < s.len() ==> #[trigger] named[j] == exists|k: int|
                    0 <= k < paths.len() && (service + "/"@).is_prefix_of(#[trigger] paths[k])
                        && nodes.contains_key(paths[k]) && nodes[paths[k]].stream_id == Some(
                        j as u64,
                    )
            &&& forall|gone: Seq<Seq<char>>| #[trigger]
                path_lists::path_models(out.deletes@).contains(gone) <==> exists|k: int|
                    0 <= k < paths.len() && (service + "/"@).is_prefix_of(#[trigger] paths[k]) && !(
                    nodes.contains_key(paths[k]) && nodes[paths[k]].stream_id is Some) && gone
                        == text::split(paths[k], '/')
        }),
{
    let nodes = diff::recorded(diff::local_visits(t.nodes@, seq![0usize]));
    let gone = missing_paths(service, nodes, paths, paths.len() as int);
    assert forall|i: int| 0 <= i < s.len() implies ({
        let n = #[trigger] t.nodes@[i];
        &&& n.class_text() == Some(s[i].class@) && n.name_text() == Some(s[i].name@)
        &&& n.stream_id == Some(s[i].id)
        &&& crate::survey::ints(n.children@) == flat::sorted_children(s, i)
    }) by {
        assert(flat::node_matches(s[i], t.nodes@[i]));
    }
    assert forall|j: int| 0 <= j < s.len() implies #[trigger] named[j] == exists|k: int|
        0 <= k < paths.len() && (service + "/"@).is_prefix_of(#[trigger] paths[k])
            && nodes.contains_key(paths[k]) && nodes[paths[k]].stream_id == Some(j as u64) by {
        lemma_named(service, nodes, paths, j);
    }
    assert forall|x: Seq<Seq<char>>| #[trigger]
        path_lists::path_models(out.deletes@).contains(x) <==> exists|k: int|
            0 <= k < paths.len() && (service + "/"@).is_prefix_of(#[trigger] paths[k]) && !(
            nodes.contains_key(paths[k]) && nodes[paths[k]].stream_id is Some) && x == text::split(
                paths[k],
                '/',
            ) by {
        path_lists::law_sorted_list_holds_the_same_paths(gone, x);
        lemma_missing(service, nodes, paths, paths.len() as int, x);
    }
}

/// A selected path brings the whole subtree of the record that it names: every
/// record whose parents lead up to the named one is sent, with its name and its
/// class, and a script among them with its source and the file of it, if there
/// is one.
pub proof fn law_selected_subtree_is_sent(
    service: Seq<char>,
    s: Seq<FlatSnapshotRecord>,
    files: Map<u64, Seq<char>>,
    paths: Seq<Seq<char>>,
    max_depth: usize,
    out: SelectiveFlatService,
    t: Tree,
    named: Seq<bool>,
    chain: Seq<int>,
) -> (q: int)
    requires
        flat::flat_problem(s, service, true, max_depth) is None,
        is_selected_by(service, s, files, paths, out, t, named),
        is_parent_chain(s, chain),
        chain.last() > 0,
        named[chain.last()],
    ensures
        0 <= q < out.records@.len(),
        out.records@[q].name@ == s[chain[0]].name@,
        out.records@[q].class@ == s[chain[0]].class@,
        ScriptClass::of_class(s[chain[0]].class@) is Some ==> {
            &&& out.records@[q].source_included == Some(true)
            &&& files.contains_key(chain[0] as u64) ==> out.source_paths@.contains_key(q as u64)
                && out.source_paths@[q as u64]@ == files[chain[0] as u64]
        },
{
    let at = lemma_sent(service, s, files, paths, max_depth, out, t, named);
    let records = out.records@;
    lemma_chain_bounds(s, chain, 0);
    assert(is_sent_for(s, named, chain[0]));
    assert(at.contains(chain[0]));
    let q = choose|q: int| 0 <= q < at.len() && at[q] == chain[0];
    assert(at[0] == 0 && chain[0] > 0);
    lemma_sent_parent(s, named, at, records, q);
    lemma_sent_source(s, named, at, records, files, q);
    assert(is_kept_record(s, named, at[q], s.len() as int, records[q])) by {
        reveal(sent_from);
    }
    assert(preparation::texts_by_id(out.source_paths@).contains_key(q as u64)
        == out.source_paths@.contains_key(q as u64));
    q
}

/// What is sent for a selection: the records that go along with the named ones,
/// and no others, in their order. Each keeps its name, its class and its marks,
/// and lies below the record that was its parent. A script goes with its source
/// exactly where it is a named record or below one. A file goes along with each
/// record that has one, unless it is sent without its source.
///
/// `at` holds the places of the records that are sent.
pub proof fn law_sent_records_are_those_of_the_selection(
    service: Seq<char>,
    s: Seq<FlatSnapshotRecord>,
    files: Map<u64, Seq<char>>,
    paths: Seq<Seq<char>>,
    max_depth: usize,
    out: SelectiveFlatService,
    t: Tree,
    named: Seq<bool>,
    q: int,
) -> (at: Seq<int>)
    requires
        flat::flat_problem(s, service, true, max_depth) is None,
        is_selected_by(service, s, files, paths, out, t, named),
        0 <= q < out.records@.len(),
    ensures
        are_sent(s, named, at),
        at.len() == out.records@.len(),
        ({
            let sent = out.records@[q];
            let from = s[at[q]];
            &&& sent.id == q
            &&& sent.name@ == from.name@ && sent.class@ == from.class@
            &&& sent.has_children == from.has_children
            &&& sent.avoid_sync == from.avoid_sync
            &&& sent.avoid_sync_carrier == from.avoid_sync_carrier
            &&& text::option_text(sent.disk_fragment) == text::option_text(from.disk_fragment)
            &&& sent.disk_fragment_is_dir == from.disk_fragment_is_dir
            &&& q == 0 ==> sent.parent_id is None && sent.source_included is None
            &&& q > 0 ==> {
                &&& sent.parent_id is Some && sent.parent_id->0 < q
                &&& from.parent_id == Some(at[sent.parent_id->0 as int] as u64)
                &&& ScriptClass::of_class(sent.class@) is None ==> sent.source_included
                    == from.source_included
                &&& ScriptClass::of_class(sent.class@) is Some ==> sent.source_included == Some(
                    exists|chain: Seq<int>| #[trigger]
                        is_parent_chain(s, chain) && chain[0] == at[q] && chain.last() > 0
                            && named[chain.last()],
                )
            }
            &&& out.source_paths@.contains_key(q as u64) == (sent.source_included != Some(false)
                && files.contains_key(at[q] as u64))
            &&& out.source_paths@.contains_key(q as u64) ==> out.source_paths@[q as u64]@
                == files[at[q] as u64]
        }),
        forall|key: u64| #[trigger] out.source_paths@.contains_key(key) ==> key < at.len(),
{
    let at = lemma_sent(service, s, files, paths, max_depth, out, t, named);
    let records = out.records@;
    if q > 0 {
        lemma_sent_parent(s, named, at, records, q);
    }
    lemma_sent_source(s, named, at, records, files, q);
    assert(is_kept_record(s, named, at[q], s.len() as int, records[q]) && new_id(s, named, at[q])
        == q) by {
        reveal(sent_from);
    }
    let kept = preparation::texts_by_id(out.source_paths@);
    assert(kept.contains_key(q as u64) == out.source_paths@.contains_key(q as u64));
    assert forall|key: u64| #[trigger] out.source_paths@.contains_key(key) implies key
        < at.len() by {
        assert(kept.contains_key(key));
        lemma_connected(s, service, true, max_depth);
        lemma_kept_source_keys(s, named, files, s.len() as int, key);
    }
    at
}

/// The children of a record that is sent are numbered from zero, in their
/// order, without a gap, and counted.
pub proof fn law_sent_children_are_numbered(
    service: Seq<char>,
    s: Seq<FlatSnapshotRecord>,
    files: Map<u64, Seq<char>>,
    paths: Seq<Seq<char>>,
    max_depth: usize,
    out: SelectiveFlatService,
    t: Tree,
    named: Seq<bool>,
    q: int,
    x: int,
)
    requires
        flat::flat_problem(s, service, true, max_depth) is None,
        is_selected_by(service, s, files, paths, out, t, named),
        0 <= q < out.records@.len(),
    ensures
        q > 0 ==> out.records@[q].child_index < out.records@[out.records@[q].parent_id->0 as int].child_count,
        0 < q < x < out.records@.len() && out.records@[q].parent_id == out.records@[x].parent_id
            ==> out.records@[q].child_index < out.records@[x].child_index,
        0 <= x < out.records@[q].child_count ==> exists|c: int|
            q < c < out.records@.len() && (#[trigger] out.records@[c]).parent_id == Some(q as u64)
                && out.records@[c].child_index == x,
{
    let at = lemma_sent(service, s, files, paths, max_depth, out, t, named);
    let records = out.records@;
    if q > 0 {
        lemma_sent_parent(s, named, at, records, q);
    }
    if 0 < q < x < records.len() && records[q].parent_id == records[x].parent_id {
        lemma_sent_siblings(s, named, at, records, q, x);
    }
    if 0 <= x < records[q].child_count {
        let c = lemma_sent_child(s, named, at, records, q, x);
        assert(records[c].parent_id == Some(q as u64));
    }
}

} // verus!
