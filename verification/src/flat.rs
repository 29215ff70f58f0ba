//! Trees that arrive as a list of records, parents before children.
use vstd::prelude::*;
use vstd::utf8::*;

use crate::fs_map;
use crate::fs_map::{find_component_problem, ComponentProblem};
use crate::ranking;
use crate::ranking::{rank, Row};
use crate::sync_scope;
use crate::text;
use crate::text::{chars_of, find_from, owned, same};
use crate::tree;
use crate::tree::{Tree, TreeNode};

verus! {

pub const MAX_BOOTSTRAP_NODES: usize = 1_000_000;

pub const MAX_STREAM_NAME_BYTES: usize = 32_768;

pub const MAX_STREAM_CLASS_BYTES: usize = 128;

pub const MAX_STREAM_SERVICE_STRUCTURE_BYTES: usize = 67_108_864;

pub const MAX_STREAM_SESSION_STRUCTURE_BYTES: usize = 134_217_728;

pub const MAX_STREAM_SERVICE_SOURCE_BYTES: u64 = 67_108_864;

pub const MAX_STREAM_SESSION_SOURCE_BYTES: u64 = 134_217_728;

/// One node of a tree in transit.
#[derive(Debug)]
pub struct FlatSnapshotRecord {
    pub id: u64,
    pub parent_id: Option<u64>,
    pub child_index: u32,
    pub child_count: u32,
    pub name: String,
    pub class: String,
    pub has_children: bool,
    pub avoid_sync: bool,
    pub avoid_sync_carrier: bool,
    pub disk_fragment: Option<String>,
    pub disk_fragment_is_dir: Option<bool>,
    pub source_included: Option<bool>,
}

/// What is wrong with a list of records; numbers are places in the list.
#[derive(Debug, Clone, Copy, PartialEq, Eq, Structural)]
pub enum FlatProblem {
    /// There are no records.
    Empty,
    /// There are more records than a service may have.
    TooMany,
    /// A record's id is not its place.
    NotDense { at: usize, received: u64 },
    /// A name holds a NUL character.
    NulName { at: usize },
    /// A tree from Studio says whether a source is part of it.
    SourceChosen { at: usize },
    /// The first record is not the service.
    RootMismatch,
    /// The service has a file name.
    RootFragment,
    /// A record other than the first has no parent.
    Disconnected { at: usize },
    /// A record does not come after its parent.
    ParentNotBefore { at: usize },
    /// A class is not synchronised.
    UnsupportedClass { at: usize },
    /// A node is both a boundary and a carrier.
    BoundaryAndCarrier { at: usize },
    /// A boundary has children.
    BoundaryHasChildren { at: usize },
    /// A carrier is no folder.
    CarrierNotFolder { at: usize },
    /// A node with children does not say so.
    HasChildrenMismatch { at: usize },
    /// A tree from Studio chooses a file name.
    FragmentChosen { at: usize },
    /// A file name is no portable component.
    Component(ComponentProblem),
    /// A file name's kind does not fit the node.
    FragmentShape { at: usize },
    /// A tree from disk lacks a file name.
    FragmentMissing { at: usize },
    /// The tree is too deep.
    TooDeep,
    /// The children of a node are not numbered from zero without gaps.
    ChildIndexGap { parent: usize, expected: usize, received: u32 },
    /// A node has not as many children as it says.
    ChildCount { parent: usize, declared: u32, received: usize },
}

pub open spec fn root_matches(r: FlatSnapshotRecord, service: Seq<char>) -> bool {
    &&& r.parent_id is None
    &&& r.child_index == 0
    &&& r.name@ == service
    &&& r.class@ == service
    &&& !r.avoid_sync
    &&& !r.avoid_sync_carrier
}

/// What is wrong with the file name of a record that is not the first.
pub open spec fn fragment_problem(r: FlatSnapshotRecord, at: usize, from_disk: bool) -> Option<
    FlatProblem,
> {
    if !from_disk {
        if r.disk_fragment is Some || r.disk_fragment_is_dir is Some {
            Some(FlatProblem::FragmentChosen { at })
        } else {
            None
        }
    } else {
        match (r.disk_fragment, r.disk_fragment_is_dir) {
            (Some(fragment), Some(is_dir)) => match fs_map::component_problem(fragment@) {
                Some(problem) => Some(FlatProblem::Component(problem)),
                None => if is_dir != (r.class@ == "Folder"@ || r.has_children) {
                    Some(FlatProblem::FragmentShape { at })
                } else {
                    None
                },
            },
            _ => Some(FlatProblem::FragmentMissing { at }),
        }
    }
}

/// The first thing wrong with the record at `at`.
pub open spec fn record_problem(
    r: FlatSnapshotRecord,
    at: usize,
    service: Seq<char>,
    from_disk: bool,
) -> Option<FlatProblem> {
    if r.id != at {
        Some(FlatProblem::NotDense { at, received: r.id })
    } else if r.name@.contains('\0') {
        Some(FlatProblem::NulName { at })
    } else if !from_disk && r.source_included is Some {
        Some(FlatProblem::SourceChosen { at })
    } else if at == 0 {
        if !root_matches(r, service) {
            Some(FlatProblem::RootMismatch)
        } else if r.disk_fragment is Some || r.disk_fragment_is_dir is Some {
            Some(FlatProblem::RootFragment)
        } else {
            None
        }
    } else if r.parent_id is None {
        Some(FlatProblem::Disconnected { at })
    } else if r.parent_id->0 >= r.id {
        Some(FlatProblem::ParentNotBefore { at })
    } else if !sync_scope::in_scope(r.class@) {
        Some(FlatProblem::UnsupportedClass { at })
    } else if r.avoid_sync && r.avoid_sync_carrier {
        Some(FlatProblem::BoundaryAndCarrier { at })
    } else if r.avoid_sync && r.child_count != 0 {
        Some(FlatProblem::BoundaryHasChildren { at })
    } else if r.avoid_sync_carrier && r.class@ != "Folder"@ {
        Some(FlatProblem::CarrierNotFolder { at })
    } else if (r.child_count > 0 || r.class@ == "Folder"@) && !r.has_children {
        Some(FlatProblem::HasChildrenMismatch { at })
    } else {
        fragment_problem(r, at, from_disk)
    }
}

/// The first thing wrong with the first `n` records, each taken alone.
pub open spec fn records_problem(
    s: Seq<FlatSnapshotRecord>,
    service: Seq<char>,
    from_disk: bool,
    n: int,
) -> Option<FlatProblem>
    decreases n,
{
    if n <= 0 {
        None
    } else {
        match records_problem(s, service, from_disk, n - 1) {
            Some(problem) => Some(problem),
            None => record_problem(s[n - 1], (n - 1) as usize, service, from_disk),
        }
    }
}

/// How many steps the record at `i` is below the service.
pub open spec fn depth_of(s: Seq<FlatSnapshotRecord>, i: int) -> nat
    decreases i,
{
    if 0 < i < s.len() && s[i].parent_id is Some && s[i].parent_id->0 < i {
        depth_of(s, s[i].parent_id->0 as int) + 1
    } else {
        0
    }
}

/// Whether one of the first `n` records is deeper than `max`.
pub open spec fn too_deep(s: Seq<FlatSnapshotRecord>, max: usize, n: int) -> bool {
    exists|i: int| 0 <= i < n && #[trigger] depth_of(s, i) > max
}

/// The places of the first `n` records whose parent is `p`.
pub open spec fn children_of(s: Seq<FlatSnapshotRecord>, p: int, n: int) -> Seq<int>
    decreases n,
{
    if n <= 0 {
        Seq::empty()
    } else {
        let before = children_of(s, p, n - 1);
        if s[n - 1].parent_id == Some(p as u64) {
            before.push(n - 1)
        } else {
            before
        }
    }
}

/// The four bytes of `x`, the highest first.
pub open spec fn index_key(x: u32) -> Seq<u8> {
    seq![
        (x / 16777216) as u8,
        ((x / 65536) % 256) as u8,
        ((x / 256) % 256) as u8,
        (x % 256) as u8,
    ]
}

pub open spec fn index_rows(s: Seq<FlatSnapshotRecord>, ids: Seq<int>) -> Seq<ranking::RowModel> {
    Seq::new(
        ids.len(),
        |r: int| (ranking::RowModel { key: index_key(s[ids[r]].child_index), content: Seq::empty() }),
    )
}

/// The children of the record at `p` by their index.
pub open spec fn sorted_children(s: Seq<FlatSnapshotRecord>, p: int) -> Seq<int> {
    let ids = children_of(s, p, s.len() as int);
    let order = ranking::ranking(index_rows(s, ids));
    Seq::new(ids.len(), |r: int| ids[order[r]])
}

/// The first gap in the numbering of the children `ids` from the `k`-th on.
pub open spec fn gap_from(s: Seq<FlatSnapshotRecord>, p: int, ids: Seq<int>, k: int) -> Option<
    FlatProblem,
>
    decreases ids.len() - k,
{
    if k < 0 || k >= ids.len() {
        None
    } else if s[ids[k]].child_index != k {
        Some(
            FlatProblem::ChildIndexGap {
                parent: p as usize,
                expected: k as usize,
                received: s[ids[k]].child_index,
            },
        )
    } else {
        gap_from(s, p, ids, k + 1)
    }
}

/// What is wrong with the children of the record at `p`.
pub open spec fn children_problem(s: Seq<FlatSnapshotRecord>, p: int) -> Option<FlatProblem> {
    let ids = sorted_children(s, p);
    match gap_from(s, p, ids, 0) {
        Some(problem) => Some(problem),
        None => if s[p].child_count != ids.len() {
            Some(
                FlatProblem::ChildCount {
                    parent: p as usize,
                    declared: s[p].child_count,
                    received: ids.len() as usize,
                },
            )
        } else {
            None
        },
    }
}

/// What is wrong with the children of the first `n` records.
pub open spec fn shape_problem(s: Seq<FlatSnapshotRecord>, n: int) -> Option<FlatProblem>
    decreases n,
{
    if n <= 0 {
        None
    } else {
        match shape_problem(s, n - 1) {
            Some(problem) => Some(problem),
            None => children_problem(s, n - 1),
        }
    }
}

/// The first thing wrong with a list of records.
pub open spec fn flat_problem(
    s: Seq<FlatSnapshotRecord>,
    service: Seq<char>,
    from_disk: bool,
    max_depth: usize,
) -> Option<FlatProblem> {
    let n = s.len() as int;
    if n == 0 {
        Some(FlatProblem::Empty)
    } else if n > MAX_BOOTSTRAP_NODES {
        Some(FlatProblem::TooMany)
    } else {
        match records_problem(s, service, from_disk, n) {
            Some(problem) => Some(problem),
            None => if too_deep(s, max_depth, n) {
                Some(FlatProblem::TooDeep)
            } else {
                shape_problem(s, n)
            },
        }
    }
}

/// The node that a record stands for, apart from its children.
pub open spec fn node_matches(r: FlatSnapshotRecord, n: TreeNode) -> bool {
    &&& n.class_text() == Some(r.class@)
    &&& n.name_text() == Some(r.name@)
    &&& n.stream_id == Some(r.id)
    &&& n.has_children == Some(r.has_children)
    &&& n.avoid_sync == r.avoid_sync
    &&& n.avoid_sync_carrier == r.avoid_sync_carrier
    &&& text::option_text(n.disk_fragment) == text::option_text(r.disk_fragment)
    &&& n.disk_fragment_is_dir == r.disk_fragment_is_dir
    &&& n.source_included == r.source_included
    &&& n.source is None
    &&& !n.truncated
}

/// Whether a record stands for a script whose source travels.
pub open spec fn has_source(r: FlatSnapshotRecord) -> bool {
    !r.avoid_sync && !r.avoid_sync_carrier && sync_scope::is_script(r.class@)
}

/// The ids of the scripts among the first `n` records.
pub open spec fn script_ids_of(s: Seq<FlatSnapshotRecord>, n: int) -> Seq<u64>
    decreases n,
{
    if n <= 0 {
        Seq::empty()
    } else {
        let before = script_ids_of(s, n - 1);
        if has_source(s[n - 1]) {
            before.push(s[n - 1].id)
        } else {
            before
        }
    }
}

/// A tree that was read from records, and its scripts.
#[derive(Debug)]
pub struct ValidatedFlatSnapshot {
    pub service: Tree,
    pub script_ids: Vec<u64>,
}

fn has_nul(name: &str) -> (r: bool)
    ensures
        r == name@.contains('\0'),
{
    let chars = chars_of(name);
    let k = find_from(&chars, 0, '\0');
    if k < chars.len() {
        assert(name@[k as int] == '\0');
        true
    } else {
        assert forall|j: int| 0 <= j < name@.len() implies name@[j] != '\0' by {
            assert(chars@[j] != '\0');
        }
        false
    }
}

fn find_fragment_problem(r: &FlatSnapshotRecord, at: usize, from_disk: bool) -> (p: Option<
    FlatProblem,
>)
    ensures
        p == fragment_problem(*r, at, from_disk),
{
    if !from_disk {
        if r.disk_fragment.is_some() || r.disk_fragment_is_dir.is_some() {
            return Some(FlatProblem::FragmentChosen { at });
        }
        return None;
    }
    match (&r.disk_fragment, r.disk_fragment_is_dir) {
        (Some(fragment), Some(is_dir)) => match find_component_problem(fragment.as_str()) {
            Some(problem) => Some(FlatProblem::Component(problem)),
            None => {
                let expected = same(r.class.as_str(), "Folder") || r.has_children;
                if is_dir != expected {
                    Some(FlatProblem::FragmentShape { at })
                } else {
                    None
                }
            },
        },
        _ => Some(FlatProblem::FragmentMissing { at }),
    }
}

fn find_record_problem(r: &FlatSnapshotRecord, at: usize, service: &str, from_disk: bool) -> (p:
    Option<FlatProblem>)
    ensures
        p == record_problem(*r, at, service@, from_disk),
{
    if r.id != at as u64 {
        return Some(FlatProblem::NotDense { at, received: r.id });
    }
    if has_nul(r.name.as_str()) {
        return Some(FlatProblem::NulName { at });
    }
    if !from_disk && r.source_included.is_some() {
        return Some(FlatProblem::SourceChosen { at });
    }
    if at == 0 {
        if r.parent_id.is_some() || r.child_index != 0 || !same(r.name.as_str(), service) || !same(
            r.class.as_str(),
            service,
        ) || r.avoid_sync || r.avoid_sync_carrier {
            return Some(FlatProblem::RootMismatch);
        }
        if r.disk_fragment.is_some() || r.disk_fragment_is_dir.is_some() {
            return Some(FlatProblem::RootFragment);
        }
        return None;
    }
    let parent: u64 = match r.parent_id {
        None => return Some(FlatProblem::Disconnected { at }),
        Some(parent) => parent,
    };
    if parent >= r.id {
        return Some(FlatProblem::ParentNotBefore { at });
    }
    if !sync_scope::contains(r.class.as_str()) {
        return Some(FlatProblem::UnsupportedClass { at });
    }
    if r.avoid_sync && r.avoid_sync_carrier {
        return Some(FlatProblem::BoundaryAndCarrier { at });
    }
    if r.avoid_sync && r.child_count != 0 {
        return Some(FlatProblem::BoundaryHasChildren { at });
    }
    let folder = same(r.class.as_str(), "Folder");
    if r.avoid_sync_carrier && !folder {
        return Some(FlatProblem::CarrierNotFolder { at });
    }
    if (r.child_count > 0 || folder) && !r.has_children {
        return Some(FlatProblem::HasChildrenMismatch { at });
    }
    find_fragment_problem(r, at, from_disk)
}

/// What holds of records that are in order one by one.
proof fn lemma_records_ok(s: Seq<FlatSnapshotRecord>, service: Seq<char>, from_disk: bool, n: int)
    requires
        0 <= n <= s.len(),
        n <= usize::MAX,
        records_problem(s, service, from_disk, n) is None,
    ensures
        forall|i: int|
            0 <= i < n ==> {
                let r = #[trigger] s[i];
                &&& r.id == i
                &&& i == 0 ==> r.parent_id is None
                &&& i > 0 ==> r.parent_id is Some && r.parent_id->0 < i
            },
    decreases n,
{
    if n > 0 {
        lemma_records_ok(s, service, from_disk, n - 1);
        assert(record_problem(s[n - 1], (n - 1) as usize, service, from_disk) is None);
    }
}

proof fn lemma_children_of(s: Seq<FlatSnapshotRecord>, p: int, n: int)
    requires
        0 <= n <= s.len(),
    ensures
        children_of(s, p, n).len() <= n,
        forall|r: int|
            0 <= r < children_of(s, p, n).len() ==> {
                let c = #[trigger] children_of(s, p, n)[r];
                0 <= c < n && s[c].parent_id == Some(p as u64)
            },
        forall|a: int, b: int|
            0 <= a < b < children_of(s, p, n).len() ==> #[trigger] children_of(s, p, n)[a]
                < #[trigger] children_of(s, p, n)[b],
    decreases n,
{
    if n > 0 {
        lemma_children_of(s, p, n - 1);
    }
}

/// The children of a record are distinct, come after it, and are fewer than the
/// records.
proof fn lemma_sorted_children(s: Seq<FlatSnapshotRecord>, p: int)
    requires
        0 <= p < s.len() <= usize::MAX,
        forall|i: int|
            0 <= i < s.len() ==> {
                let r = #[trigger] s[i];
                &&& i == 0 ==> r.parent_id is None
                &&& i > 0 ==> r.parent_id is Some && r.parent_id->0 < i
            },
        ({
            let m = index_rows(s, children_of(s, p, s.len() as int));
            ranking::is_ranking(m, ranking::ranking(m))
        }),
    ensures
        sorted_children(s, p).len() < s.len(),
        forall|r: int|
            0 <= r < sorted_children(s, p).len() ==> {
                let c = #[trigger] sorted_children(s, p)[r];
                p < c < s.len() && s[c].parent_id == Some(p as u64)
            },
        forall|a: int, b: int|
            0 <= a < sorted_children(s, p).len() && 0 <= b < sorted_children(s, p).len() && a != b
                ==> #[trigger] sorted_children(s, p)[a] != #[trigger] sorted_children(s, p)[b],
{
    let ids = children_of(s, p, s.len() as int);
    lemma_children_of(s, p, s.len() as int);
    let m = index_rows(s, ids);
    let order = ranking::ranking(m);
    let out = sorted_children(s, p);
    assert forall|r: int| 0 <= r < out.len() implies {
        let c = #[trigger] out[r];
        p < c < s.len() && s[c].parent_id == Some(p as u64)
    } by {
        let c = ids[order[r]];
        assert(s[c].parent_id == Some(p as u64));
        if c == 0 {
            assert(s[0].parent_id is None);
        }
    }
    assert forall|a: int, b: int|
        0 <= a < out.len() && 0 <= b < out.len() && a != b implies #[trigger] out[a]
        != #[trigger] out[b] by {
        if a < b {
            assert(ranking::row_less(m, order[a], order[b]));
            ranking::lemma_row_less_asymmetric(m, order[a], order[b]);
        } else {
            assert(ranking::row_less(m, order[b], order[a]));
            ranking::lemma_row_less_asymmetric(m, order[b], order[a]);
        }
        if order[a] < order[b] {
            assert(ids[order[a]] < ids[order[b]]);
        } else if order[b] < order[a] {
            assert(ids[order[b]] < ids[order[a]]);
        }
    }
    // The service is nobody's child.
    lemma_children_of(s, p, s.len() as int);
    if ids.len() >= s.len() {
        lemma_ascending_fills(ids, s.len() as int);
        assert(ids[0] == 0);
        assert(s[0].parent_id == Some(p as u64));
    }
}

proof fn lemma_ascending_fills(ids: Seq<int>, n: int)
    requires
        ids.len() >= n > 0,
        forall|r: int| 0 <= r < ids.len() ==> 0 <= #[trigger] ids[r] < n,
        forall|a: int, b: int| 0 <= a < b < ids.len() ==> #[trigger] ids[a] < #[trigger] ids[b],
    ensures
        ids[0] == 0,
{
    lemma_ascending_lower(ids, n - 1);
    assert(ids[n - 1] >= ids[0] + (n - 1));
}

proof fn lemma_ascending_lower(ids: Seq<int>, k: int)
    requires
        0 <= k < ids.len(),
        forall|a: int, b: int| 0 <= a < b < ids.len() ==> #[trigger] ids[a] < #[trigger] ids[b],
    ensures
        ids[k] >= ids[0] + k,
    decreases k,
{
    if k > 0 {
        lemma_ascending_lower(ids, k - 1);
        assert(ids[k - 1] < ids[k]);
    }
}

fn key_of_index(x: u32) -> (key: Vec<u8>)
    ensures
        key@ == index_key(x),
{
    let mut key: Vec<u8> = Vec::new();
    key.push((x / 16777216) as u8);
    key.push(((x / 65536) % 256) as u8);
    key.push(((x / 256) % 256) as u8);
    key.push((x % 256) as u8);
    proof {
        assert(key@ =~= index_key(x));
    }
    key
}

/// Lists the children of every record, in the order of the records.
fn list_children(records: &[FlatSnapshotRecord]) -> (out: Vec<Vec<usize>>)
    requires
        forall|i: int|
            0 <= i < records@.len() ==> {
                let r = #[trigger] records@[i];
                &&& i == 0 ==> r.parent_id is None
                &&& i > 0 ==> r.parent_id is Some && r.parent_id->0 < i
            },
    ensures
        out@.len() == records@.len(),
        forall|p: int|
            0 <= p < out@.len() ==> crate::survey::ints((#[trigger] out@[p])@) == children_of(
                records@,
                p,
                records@.len() as int,
            ),
{
    let n: usize = records.len();
    let ghost s = records@;
    let mut out: Vec<Vec<usize>> = Vec::new();
    let mut k: usize = 0;
    while k < n
        invariant
            k <= n,
            out@.len() == k,
            forall|p: int| 0 <= p < k ==> (#[trigger] out@[p])@.len() == 0,
        decreases n - k,
    {
        out.push(Vec::new());
        k += 1;
    }
    let mut i: usize = 0;
    proof {
        assert forall|p: int| 0 <= p < n implies crate::survey::ints((#[trigger] out@[p])@)
            == children_of(s, p, 0) by {
            assert(crate::survey::ints(out@[p]@) =~= Seq::<int>::empty());
        }
    }
    while i < n
        invariant
            n == s.len(),
            s == records@,
            forall|i: int|
                0 <= i < s.len() ==> {
                    let r = #[trigger] s[i];
                    &&& i == 0 ==> r.parent_id is None
                    &&& i > 0 ==> r.parent_id is Some && r.parent_id->0 < i
                },
            i <= n,
            out@.len() == n,
            forall|p: int|
                0 <= p < n ==> crate::survey::ints((#[trigger] out@[p])@) == children_of(
                    s,
                    p,
                    i as int,
                ),
        decreases n - i,
    {
        let ghost before = out@;
        if let Some(parent) = records[i].parent_id {
            assert(s[i as int].parent_id is Some);
            let at: usize = parent as usize;
            out[at].push(i);
            proof {
                assert(crate::survey::ints(out@[at as int]@) =~= crate::survey::ints(
                    before[at as int]@,
                ).push(i as int));
                assert forall|p: int| 0 <= p < n implies crate::survey::ints(
                    (#[trigger] out@[p])@,
                ) == children_of(s, p, i + 1) by {
                    if p != at {
                        assert(out@[p] == before[p]);
                    }
                }
            }
        } else {
            proof {
                assert forall|p: int| 0 <= p < n implies crate::survey::ints(
                    (#[trigger] out@[p])@,
                ) == children_of(s, p, i + 1) by {}
            }
        }
        i += 1;
    }
    out
}

/// The children of one record by their index.
fn sort_children(records: &[FlatSnapshotRecord], p: usize, ids: &Vec<usize>) -> (out: Vec<usize>)
    requires
        p < records@.len(),
        crate::survey::ints(ids@) == children_of(records@, p as int, records@.len() as int),
        forall|i: int|
            0 <= i < records@.len() ==> {
                let r = #[trigger] records@[i];
                &&& i == 0 ==> r.parent_id is None
                &&& i > 0 ==> r.parent_id is Some && r.parent_id->0 < i
            },
    ensures
        crate::survey::ints(out@) == sorted_children(records@, p as int),
        out@.len() < records@.len(),
        forall|r: int|
            0 <= r < out@.len() ==> p < #[trigger] out@[r] < records@.len()
                && records@[out@[r] as int].parent_id == Some(p as u64),
        forall|a: int, b: int|
            0 <= a < out@.len() && 0 <= b < out@.len() && a != b ==> #[trigger] out@[a]
                != #[trigger] out@[b],
{
    let ghost s = records@;
    let ghost all = crate::survey::ints(ids@);
    proof {
        lemma_children_of(s, p as int, s.len() as int);
        assert forall|r: int| 0 <= r < ids@.len() implies #[trigger] ids@[r] < s.len() by {
            assert(all[r] == ids@[r]);
        }
    }
    let size: usize = records.len();
    let mut rows: Vec<Row> = Vec::new();
    let mut k: usize = 0;
    while k < ids.len()
        invariant
            s == records@,
            all == crate::survey::ints(ids@),
            k <= ids@.len(),
            rows@.len() == k,
            forall|r: int| 0 <= r < ids@.len() ==> #[trigger] ids@[r] < s.len(),
            forall|r: int|
                0 <= r < k ==> (#[trigger] rows@[r])@.key == index_key(s[all[r]].child_index)
                    && rows@[r]@.content == Seq::<u8>::empty(),
        decreases ids@.len() - k,
    {
        let key = key_of_index(records[ids[k]].child_index);
        rows.push(Row { key, content: Vec::new() });
        k += 1;
    }
    let ghost m = index_rows(s, all);
    proof {
        assert forall|r: int| 0 <= r < m.len() implies ranking::models(rows@)[r] == m[r] by {
            assert(rows@[r]@.key == index_key(s[all[r]].child_index));
            assert(ranking::models(rows@)[r] =~= m[r]);
        }
        assert(ranking::models(rows@) =~= m);
    }
    let order = rank(&rows);
    proof {
        lemma_sorted_children(s, p as int);
    }
    let ghost want = sorted_children(s, p as int);
    let mut out: Vec<usize> = Vec::new();
    let mut r: usize = 0;
    while r < order.len()
        invariant
            s == records@,
            all == crate::survey::ints(ids@),
            want == sorted_children(s, p as int),
            m == index_rows(s, all),
            all == children_of(s, p as int, s.len() as int),
            ranking::is_ranking(m, ranking::ranking(m)),
            order@.len() == all.len(),
            m.len() == all.len(),
            want.len() == all.len(),
            forall|i: int|
                0 <= i < order@.len() ==> #[trigger] order@[i] == ranking::ranking(m)[i],
            r <= order@.len(),
            out@.len() == r,
            forall|i: int| 0 <= i < r ==> #[trigger] out@[i] == want[i],
        decreases order@.len() - r,
    {
        assert(order@[r as int] == ranking::ranking(m)[r as int]);
        let at: usize = order[r];
        assert(all[at as int] == ids@[at as int]);
        out.push(ids[at]);
        r += 1;
    }
    proof {
        assert(crate::survey::ints(out@) =~= want);
        assert forall|r: int| 0 <= r < out@.len() implies p < #[trigger] out@[r] < s.len()
            && s[out@[r] as int].parent_id == Some(p as u64) by {
            assert(out@[r] == want[r]);
        }
        assert forall|a: int, b: int|
            0 <= a < out@.len() && 0 <= b < out@.len() && a != b implies #[trigger] out@[a]
            != #[trigger] out@[b] by {
            assert(want[a] != want[b]);
        }
    }
    out
}

fn find_children_problem(records: &[FlatSnapshotRecord], p: usize, ids: &Vec<usize>) -> (r: Option<
    FlatProblem,
>)
    requires
        p < records@.len(),
        crate::survey::ints(ids@) == sorted_children(records@, p as int),
        forall|r: int| 0 <= r < ids@.len() ==> #[trigger] ids@[r] < records@.len(),
    ensures
        r == children_problem(records@, p as int),
        r is None ==> forall|k: int|
            0 <= k < ids@.len() ==> records@[#[trigger] ids@[k] as int].child_index == k,
{
    let ghost s = records@;
    let ghost all = crate::survey::ints(ids@);
    let mut k: usize = 0;
    while k < ids.len()
        invariant
            s == records@,
            all == crate::survey::ints(ids@),
            all == sorted_children(s, p as int),
            forall|r: int| 0 <= r < ids@.len() ==> #[trigger] ids@[r] < s.len(),
            k <= ids@.len(),
            gap_from(s, p as int, all, 0) == gap_from(s, p as int, all, k as int),
            forall|j: int| 0 <= j < k ==> s[#[trigger] ids@[j] as int].child_index == j,
        decreases ids@.len() - k,
    {
        let c: usize = ids[k];
        assert(all[k as int] == c);
        let received: u32 = records[c].child_index;
        if received as u64 != k as u64 {
            return Some(FlatProblem::ChildIndexGap { parent: p, expected: k, received });
        }
        k += 1;
    }
    let declared: u32 = records[p].child_count;
    if declared as u64 != ids.len() as u64 {
        return Some(FlatProblem::ChildCount { parent: p, declared, received: ids.len() });
    }
    None
}

fn node_of(r: &FlatSnapshotRecord, children: Vec<usize>) -> (n: TreeNode)
    ensures
        node_matches(*r, n),
        n.children == children,
{
    let disk_fragment = match &r.disk_fragment {
        Some(fragment) => Some(owned(fragment.as_str())),
        None => None,
    };
    TreeNode {
        class: Some(owned(r.class.as_str())),
        name: Some(owned(r.name.as_str())),
        avoid_sync: r.avoid_sync,
        avoid_sync_carrier: r.avoid_sync_carrier,
        truncated: false,
        source: None,
        disk_fragment,
        disk_fragment_is_dir: r.disk_fragment_is_dir,
        has_children: Some(r.has_children),
        source_included: r.source_included,
        stream_id: Some(r.id),
        children,
    }
}

/// Whether the records are deeper than `max`.
fn find_too_deep(records: &[FlatSnapshotRecord], max: usize) -> (r: bool)
    requires
        records@.len() <= MAX_BOOTSTRAP_NODES,
        forall|i: int|
            0 <= i < records@.len() ==> {
                let r = #[trigger] records@[i];
                &&& i == 0 ==> r.parent_id is None
                &&& i > 0 ==> r.parent_id is Some && r.parent_id->0 < i
            },
    ensures
        r == too_deep(records@, max, records@.len() as int),
{
    let ghost s = records@;
    let mut depths: Vec<usize> = Vec::new();
    let mut i: usize = 0;
    while i < records.len()
        invariant
            s == records@,
            s.len() <= MAX_BOOTSTRAP_NODES,
            forall|i: int|
                0 <= i < s.len() ==> {
                    let r = #[trigger] s[i];
                    &&& i == 0 ==> r.parent_id is None
                    &&& i > 0 ==> r.parent_id is Some && r.parent_id->0 < i
                },
            i <= s.len(),
            depths@.len() == i,
            forall|j: int| 0 <= j < i ==> #[trigger] depths@[j] == depth_of(s, j),
            forall|j: int| 0 <= j < i ==> #[trigger] depth_of(s, j) <= max,
            forall|j: int| 0 <= j < i ==> #[trigger] depths@[j] <= j,
        decreases s.len() - i,
    {
        assert(i > 0 ==> s[i as int].parent_id is Some && s[i as int].parent_id->0 < i);
        let depth: usize = match records[i].parent_id {
            Some(parent) => {
                assert(depths@[parent as int] <= parent);
                depths[parent as usize] + 1
            },
            None => 0,
        };
        assert(depth == depth_of(s, i as int));
        if depth > max {
            return true;
        }
        depths.push(depth);
        i += 1;
    }
    false
}

/// Reads a service from its records, or says what is wrong with them.
pub fn validate_flat_snapshot(
    records: &[FlatSnapshotRecord],
    expected_service: &str,
    allow_disk_identity: bool,
    max_depth: usize,
) -> (r: Result<ValidatedFlatSnapshot, FlatProblem>)
    ensures
        match r {
            Err(problem) => flat_problem(
                records@,
                expected_service@,
                allow_disk_identity,
                max_depth,
            ) == Some(problem),
            Ok(v) => {
                &&& flat_problem(records@, expected_service@, allow_disk_identity, max_depth)
                    is None
                &&& v.service.wf()
                &&& v.service.nodes@.len() == records@.len()
                &&& forall|i: int|
                    0 <= i < records@.len() ==> {
                        let n = #[trigger] v.service.nodes@[i];
                        &&& node_matches(records@[i], n)
                        &&& crate::survey::ints(n.children@) == sorted_children(records@, i)
                        &&& forall|k: int|
                            0 <= k < n.children@.len()
                                ==> records@[#[trigger] n.children@[k] as int].child_index == k
                                && records@[n.children@[k] as int].parent_id == Some(i as u64)
                    }
                &&& v.script_ids@ == script_ids_of(records@, records@.len() as int)
            },
        },
{
    let ghost s = records@;
    let ghost service = expected_service@;
    if records.len() == 0 {
        return Err(FlatProblem::Empty);
    }
    if records.len() > MAX_BOOTSTRAP_NODES {
        return Err(FlatProblem::TooMany);
    }
    let n: usize = records.len();
    let mut i: usize = 0;
    while i < n
        invariant
            s == records@,
            service == expected_service@,
            n == s.len(),
            0 < n <= MAX_BOOTSTRAP_NODES,
            i <= n,
            records_problem(s, service, allow_disk_identity, i as int) is None,
        decreases n - i,
    {
        if let Some(problem) = find_record_problem(
            &records[i],
            i,
            expected_service,
            allow_disk_identity,
        ) {
            proof {
                lemma_problem_stays(s, service, allow_disk_identity, i + 1, n as int);
            }
            return Err(problem);
        }
        i += 1;
    }
    proof {
        lemma_records_ok(s, service, allow_disk_identity, n as int);
    }
    if find_too_deep(records, max_depth) {
        return Err(FlatProblem::TooDeep);
    }
    let buckets = list_children(records);
    let mut nodes: Vec<TreeNode> = Vec::new();
    let mut p: usize = 0;
    while p < n
        invariant
            s == records@,
            n == s.len(),
            0 < n <= MAX_BOOTSTRAP_NODES,
            forall|i: int|
                0 <= i < s.len() ==> {
                    let r = #[trigger] s[i];
                    &&& i == 0 ==> r.parent_id is None
                    &&& i > 0 ==> r.parent_id is Some && r.parent_id->0 < i
                },
            buckets@.len() == n,
            forall|p: int|
                0 <= p < n ==> crate::survey::ints((#[trigger] buckets@[p])@) == children_of(
                    s,
                    p,
                    n as int,
                ),
            service == expected_service@,
            records_problem(s, service, allow_disk_identity, n as int) is None,
            !too_deep(s, max_depth, n as int),
            p <= n,
            shape_problem(s, p as int) is None,
            nodes@.len() == p,
            forall|i: int|
                0 <= i < p ==> {
                    let node = #[trigger] nodes@[i];
                    &&& node_matches(s[i], node)
                    &&& crate::survey::ints(node.children@) == sorted_children(s, i)
                    &&& node.children@.len() < n
                    &&& forall|k: int|
                        0 <= k < node.children@.len() ==> i < #[trigger] node.children@[k] < n
                            && s[node.children@[k] as int].child_index == k
                            && s[node.children@[k] as int].parent_id == Some(i as u64)
                    &&& forall|a: int, b: int|
                        0 <= a < node.children@.len() && 0 <= b < node.children@.len() && a != b
                            ==> #[trigger] node.children@[a] != #[trigger] node.children@[b]
                },
        decreases n - p,
    {
        let children = sort_children(records, p, &buckets[p]);
        match find_children_problem(records, p, &children) {
            Some(problem) => {
                proof {
                    lemma_shape_stays(s, p + 1, n as int);
                }
                return Err(problem);
            },
            None => {},
        }
        nodes.push(node_of(&records[p], children));
        p += 1;
    }
    let mut script_ids: Vec<u64> = Vec::new();
    let mut i: usize = 0;
    while i < n
        invariant
            s == records@,
            n == s.len(),
            i <= n,
            script_ids@ == script_ids_of(s, i as int),
        decreases n - i,
    {
        let r = &records[i];
        if !r.avoid_sync && !r.avoid_sync_carrier && sync_scope::script(r.class.as_str()) {
            script_ids.push(r.id);
        }
        i += 1;
    }
    let service = Tree { nodes };
    proof {
        let t = service.nodes@;
        assert forall|i: int, a: int|
            0 <= i < t.len() && 0 <= a < t[i].children@.len() implies i
            < #[trigger] t[i].children@[a] < t.len() by {}
        assert forall|i: int, a: int, j: int, b: int|
            0 <= i < t.len() && 0 <= a < t[i].children@.len() && 0 <= j < t.len() && 0 <= b
                < t[j].children@.len() && #[trigger] t[i].children@[a]
                == #[trigger] t[j].children@[b] implies i == j && a == b by {
            assert(s[t[i].children@[a] as int].parent_id == Some(i as u64));
            assert(s[t[j].children@[b] as int].parent_id == Some(j as u64));
        }
        assert(tree::tree_wf(t));
    }
    Ok(ValidatedFlatSnapshot { service, script_ids })
}

proof fn lemma_problem_stays(
    s: Seq<FlatSnapshotRecord>,
    service: Seq<char>,
    from_disk: bool,
    k: int,
    n: int,
)
    requires
        0 <= k <= n,
        records_problem(s, service, from_disk, k) is Some,
    ensures
        records_problem(s, service, from_disk, n) == records_problem(s, service, from_disk, k),
    decreases n - k,
{
    if k < n {
        lemma_problem_stays(s, service, from_disk, k, n - 1);
    }
}

proof fn lemma_shape_stays(s: Seq<FlatSnapshotRecord>, k: int, n: int)
    requires
        0 <= k <= n,
        shape_problem(s, k) is Some,
    ensures
        shape_problem(s, n) == shape_problem(s, k),
    decreases n - k,
{
    if k < n {
        lemma_shape_stays(s, k, n - 1);
    }
}

/// What is too long in a streamed record.
#[derive(Debug, Clone, Copy, PartialEq, Eq, Structural)]
pub enum FieldProblem {
    Name(u64),
    Class(u64),
    DiskFragment(u64),
}

pub open spec fn field_problem(r: FlatSnapshotRecord) -> Option<FieldProblem> {
    if encode_utf8(r.name@).len() > MAX_STREAM_NAME_BYTES {
        Some(FieldProblem::Name(r.id))
    } else if encode_utf8(r.class@).len() > MAX_STREAM_CLASS_BYTES {
        Some(FieldProblem::Class(r.id))
    } else if r.disk_fragment is Some && encode_utf8(r.disk_fragment->0@).len()
        > MAX_STREAM_NAME_BYTES {
        Some(FieldProblem::DiskFragment(r.id))
    } else {
        None
    }
}

/// The first overlong field of `s` from the `k`-th record on.
pub open spec fn fields_problem(s: Seq<FlatSnapshotRecord>, k: int) -> Option<FieldProblem>
    decreases s.len() - k,
{
    if k < 0 || k >= s.len() {
        None
    } else {
        match field_problem(s[k]) {
            Some(problem) => Some(problem),
            None => fields_problem(s, k + 1),
        }
    }
}

/// Holds the texts of a chunk of records against their limits.
pub fn validate_stream_record_chunk_fields(records: &[FlatSnapshotRecord]) -> (r: Result<
    (),
    FieldProblem,
>)
    ensures
        match r {
            Ok(()) => fields_problem(records@, 0) is None,
            Err(problem) => fields_problem(records@, 0) == Some(problem),
        },
{
    let mut i: usize = 0;
    while i < records.len()
        invariant
            i <= records@.len(),
            fields_problem(records@, 0) == fields_problem(records@, i as int),
        decreases records@.len() - i,
    {
        let record = &records[i];
        if record.name.as_str().as_bytes().len() > MAX_STREAM_NAME_BYTES {
            return Err(FieldProblem::Name(record.id));
        }
        if record.class.as_str().as_bytes().len() > MAX_STREAM_CLASS_BYTES {
            return Err(FieldProblem::Class(record.id));
        }
        if let Some(fragment) = &record.disk_fragment {
            if fragment.as_str().as_bytes().len() > MAX_STREAM_NAME_BYTES {
                return Err(FieldProblem::DiskFragment(record.id));
            }
        }
        i += 1;
    }
    Ok(())
}

/// Which budget a stream ran out of.
#[derive(Debug, Clone, Copy, PartialEq, Eq, Structural)]
pub enum ChargeProblem {
    /// The count of the service does not fit a number.
    ServiceOverflow,
    ServiceLimit,
    /// The count of the session does not fit a number.
    SessionOverflow,
    SessionLimit,
}

/// The outcome of charging `chunk` to a service and a session with the given
/// limits, where counts above `max` do not fit.
pub open spec fn charge(
    service: nat,
    session: nat,
    chunk: nat,
    service_limit: nat,
    session_limit: nat,
    max: nat,
) -> Result<(nat, nat), ChargeProblem> {
    if service + chunk > max {
        Err(ChargeProblem::ServiceOverflow)
    } else if service + chunk > service_limit {
        Err(ChargeProblem::ServiceLimit)
    } else if session + chunk > max {
        Err(ChargeProblem::SessionOverflow)
    } else if session + chunk > session_limit {
        Err(ChargeProblem::SessionLimit)
    } else {
        Ok((service + chunk, session + chunk))
    }
}

/// Charges the bytes of a structure chunk.
pub fn charge_stream_structure_bytes(
    service_bytes: usize,
    session_bytes: usize,
    chunk_bytes: usize,
) -> (r: Result<(usize, usize), ChargeProblem>)
    ensures
        charge(
            service_bytes as nat,
            session_bytes as nat,
            chunk_bytes as nat,
            MAX_STREAM_SERVICE_STRUCTURE_BYTES as nat,
            MAX_STREAM_SESSION_STRUCTURE_BYTES as nat,
            usize::MAX as nat,
        ) == (match r {
            Ok((service, session)) => Ok((service as nat, session as nat)),
            Err(problem) => Err(problem),
        }),
{
    let service: usize = match service_bytes.checked_add(chunk_bytes) {
        Some(total) => total,
        None => return Err(ChargeProblem::ServiceOverflow),
    };
    if service > MAX_STREAM_SERVICE_STRUCTURE_BYTES {
        return Err(ChargeProblem::ServiceLimit);
    }
    let session: usize = match session_bytes.checked_add(chunk_bytes) {
        Some(total) => total,
        None => return Err(ChargeProblem::SessionOverflow),
    };
    if session > MAX_STREAM_SESSION_STRUCTURE_BYTES {
        return Err(ChargeProblem::SessionLimit);
    }
    Ok((service, session))
}

/// Charges the declared bytes of a source.
pub fn charge_stream_source_bytes(
    service_bytes: u64,
    session_bytes: u64,
    declared_bytes: u64,
) -> (r: Result<(u64, u64), ChargeProblem>)
    ensures
        charge(
            service_bytes as nat,
            session_bytes as nat,
            declared_bytes as nat,
            MAX_STREAM_SERVICE_SOURCE_BYTES as nat,
            MAX_STREAM_SESSION_SOURCE_BYTES as nat,
            u64::MAX as nat,
        ) == (match r {
            Ok((service, session)) => Ok((service as nat, session as nat)),
            Err(problem) => Err(problem),
        }),
{
    let service: u64 = match service_bytes.checked_add(declared_bytes) {
        Some(total) => total,
        None => return Err(ChargeProblem::ServiceOverflow),
    };
    if service > MAX_STREAM_SERVICE_SOURCE_BYTES {
        return Err(ChargeProblem::ServiceLimit);
    }
    let session: u64 = match session_bytes.checked_add(declared_bytes) {
        Some(total) => total,
        None => return Err(ChargeProblem::SessionOverflow),
    };
    if session > MAX_STREAM_SESSION_SOURCE_BYTES {
        return Err(ChargeProblem::SessionLimit);
    }
    Ok((service, session))
}

/// However a stream is cut into chunks, what was charged is what arrived and
/// stays within both limits.
pub proof fn law_charges_stay_within_limits(
    service: nat,
    session: nat,
    chunk: nat,
    service_limit: nat,
    session_limit: nat,
    max: nat,
)
    ensures
        charge(service, session, chunk, service_limit, session_limit, max) matches Ok((a, b))
            ==> a == service + chunk && b == session + chunk && a <= service_limit && b
            <= session_limit,
{
}

} // verus!
