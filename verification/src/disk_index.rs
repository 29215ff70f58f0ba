//! The nodes of the project directory by logical path, with where each stands
//! on disk.
use vstd::prelude::*;

use crate::diff;
use crate::diff::child_entries;
use crate::survey;
use crate::survey::{node_descends, survey, Survey, TreeFlavor};
use crate::text::owned;
use crate::text_map::TextMap;
use crate::tree::{Tree, TreeNode};

verus! {

/// One node of the directory snapshot and the path components under which it
/// stands on disk.
#[derive(Debug)]
pub struct LocalSnapshotValue {
    pub node: usize,
    pub disk_path: Vec<String>,
}

pub struct PlaceModel {
    pub node: int,
    pub disk_path: Seq<Seq<char>>,
}

pub open spec fn texts(v: Seq<String>) -> Seq<Seq<char>> {
    Seq::new(v.len(), |i: int| v[i]@)
}

impl LocalSnapshotValue {
    pub open spec fn view(&self) -> PlaceModel {
        PlaceModel { node: self.node as int, disk_path: texts(self.disk_path@) }
    }
}

pub open spec fn places_of(m: TextMap<LocalSnapshotValue>) -> Map<Seq<char>, PlaceModel> {
    Map::new(|k: Seq<char>| m@.contains_key(k), |k: Seq<char>| m@[k]@)
}

/// The file name of a node: that it was read from, or its name.
pub open spec fn fragment_of(n: TreeNode) -> Seq<char> {
    match n.disk_fragment {
        Some(fragment) => fragment@,
        None => survey::name_or_empty(n),
    }
}

/// One visit: the logical path and the place on disk.
pub struct Visit {
    pub path: Seq<char>,
    pub place: PlaceModel,
}

/// The visits of node `i` and what is below it.
pub open spec fn disk_visits(
    t: Seq<TreeNode>,
    i: int,
    path: Seq<char>,
    disk: Seq<Seq<char>>,
) -> Seq<Visit>
    decreases t.len() - i, survey::projection(TreeFlavor::Snapshot, t, i).len() + 1,
{
    seq![Visit { path, place: PlaceModel { node: i, disk_path: disk } }] + (if survey::descends(
        TreeFlavor::Snapshot,
        t[i],
    ) {
        disk_child_visits(t, i, path, disk, 0)
    } else {
        Seq::empty()
    })
}

/// The visits of the children of node `i` from the `k`-th on.
pub open spec fn disk_child_visits(
    t: Seq<TreeNode>,
    i: int,
    path: Seq<char>,
    disk: Seq<Seq<char>>,
    k: int,
) -> Seq<Visit>
    decreases t.len() - i, survey::projection(TreeFlavor::Snapshot, t, i).len() - k,
{
    let ids = survey::projection(TreeFlavor::Snapshot, t, i);
    if 0 <= k < ids.len() && i < ids[k] < t.len() {
        let segment = diff::child_segments(TreeFlavor::Snapshot, t, i)[k];
        disk_visits(
            t,
            ids[k],
            diff::join(path, segment),
            disk.push(fragment_of(t[ids[k]])),
        ) + disk_child_visits(t, i, path, disk, k + 1)
    } else {
        Seq::empty()
    }
}

/// The places of `visits`, a later one replacing an earlier one with the same
/// path.
pub open spec fn placed(visits: Seq<Visit>) -> Map<Seq<char>, PlaceModel>
    decreases visits.len(),
{
    if visits.len() == 0 {
        Map::empty()
    } else {
        placed(visits.drop_last()).insert(visits.last().path, visits.last().place)
    }
}

/// The visits of the services at `ids`.
pub open spec fn service_places(t: Seq<TreeNode>, ids: Seq<usize>) -> Seq<Visit>
    decreases ids.len(),
{
    if ids.len() == 0 {
        Seq::empty()
    } else {
        let i = ids.last() as int;
        service_places(t, ids.drop_last()) + (match t[i].name_text() {
            Some(name) => disk_child_visits(t, i, name, seq![name], 0),
            None => Seq::empty(),
        })
    }
}

struct Open {
    id: usize,
    path: String,
    disk: Vec<String>,
}

spec fn open_visits(t: Seq<TreeNode>, p: Seq<Open>) -> Seq<Visit>
    decreases p.len(),
{
    if p.len() == 0 {
        Seq::empty()
    } else {
        disk_visits(t, p.last().id as int, p.last().path@, texts(p.last().disk@)) + open_visits(
            t,
            p.drop_last(),
        )
    }
}

fn copy_texts(v: &Vec<String>) -> (out: Vec<String>)
    ensures
        texts(out@) == texts(v@),
{
    let mut out: Vec<String> = Vec::new();
    let mut i: usize = 0;
    while i < v.len()
        invariant
            i <= v@.len(),
            out@.len() == i,
            forall|j: int| 0 <= j < i ==> (#[trigger] out@[j])@ == v@[j]@,
        decreases v@.len() - i,
    {
        out.push(owned(v[i].as_str()));
        i += 1;
    }
    proof {
        assert(texts(out@) =~= texts(v@));
    }
    out
}

spec fn opened_from(
    t: Seq<TreeNode>,
    i: int,
    path: Seq<char>,
    disk: Seq<Seq<char>>,
    p: Open,
    r: int,
) -> bool {
    let c = survey::projection(TreeFlavor::Snapshot, t, i)[r];
    let segment = diff::child_segments(TreeFlavor::Snapshot, t, i)[r];
    &&& p.id == c
    &&& i < c < t.len()
    &&& p.path@ == diff::join(path, segment)
    &&& texts(p.disk@) == disk.push(fragment_of(t[c]))
}

proof fn lemma_open_children(
    t: Seq<TreeNode>,
    i: int,
    path: Seq<char>,
    disk: Seq<Seq<char>>,
    base: Seq<Open>,
    stack: Seq<Open>,
    k: int,
)
    requires
        0 <= k <= survey::projection(TreeFlavor::Snapshot, t, i).len(),
        stack.len() == base.len() + survey::projection(TreeFlavor::Snapshot, t, i).len() - k,
        stack.take(base.len() as int) == base,
        forall|r: int|
            k <= r < survey::projection(TreeFlavor::Snapshot, t, i).len() ==> #[trigger] opened_from(
                t,
                i,
                path,
                disk,
                stack[base.len() + survey::projection(TreeFlavor::Snapshot, t, i).len() - 1 - r],
                r,
            ),
    ensures
        open_visits(t, stack) == disk_child_visits(t, i, path, disk, k) + open_visits(t, base),
    decreases survey::projection(TreeFlavor::Snapshot, t, i).len() - k,
{
    let ids = survey::projection(TreeFlavor::Snapshot, t, i);
    if k == ids.len() {
        assert(stack =~= base);
        assert(disk_child_visits(t, i, path, disk, k) =~= Seq::<Visit>::empty());
        assert(Seq::<Visit>::empty() + open_visits(t, base) =~= open_visits(t, base));
    } else {
        let rest = stack.drop_last();
        assert(rest.take(base.len() as int) =~= base);
        assert forall|r: int| k + 1 <= r < ids.len() implies #[trigger] opened_from(
            t,
            i,
            path,
            disk,
            rest[base.len() + ids.len() - 1 - r],
            r,
        ) by {
            assert(opened_from(t, i, path, disk, stack[base.len() + ids.len() - 1 - r], r));
        }
        lemma_open_children(t, i, path, disk, base, rest, k + 1);
        assert(opened_from(t, i, path, disk, stack[base.len() + ids.len() - 1 - k], k));
        assert(stack.last() == stack[base.len() + ids.len() - 1 - k]);
        let first = disk_visits(t, ids[k], stack.last().path@, texts(stack.last().disk@));
        let more = disk_child_visits(t, i, path, disk, k + 1);
        assert(first + (more + open_visits(t, base)) =~= (first + more) + open_visits(t, base));
    }
}

fn open_children(
    stack: &mut Vec<Open>,
    t: &Tree,
    s: &Survey,
    i: usize,
    path: &str,
    disk: &Vec<String>,
)
    requires
        t.wf(),
        s.of(TreeFlavor::Snapshot, t.nodes@),
        i < t.nodes@.len(),
        forall|j: int| 0 <= j < old(stack)@.len() ==> (#[trigger] old(stack)@[j]).id < t.nodes@.len(),
    ensures
        forall|j: int| 0 <= j < final(stack)@.len() ==> (#[trigger] final(stack)@[j]).id < t.nodes@.len(),
        open_visits(t.nodes@, final(stack)@) == disk_child_visits(
            t.nodes@,
            i as int,
            path@,
            texts(disk@),
            0,
        ) + open_visits(t.nodes@, old(stack)@),
{
    let ghost nodes = t.nodes@;
    let ghost base = stack@;
    let ghost ids = survey::projection(TreeFlavor::Snapshot, nodes, i as int);
    let ghost at = texts(disk@);
    let mut entries = child_entries(t, TreeFlavor::Snapshot, s, i, path, path);
    let ghost all = entries@;
    while entries.len() > 0
        invariant
            t.wf(),
            nodes == t.nodes@,
            i < nodes.len(),
            ids == survey::projection(TreeFlavor::Snapshot, nodes, i as int),
            at == texts(disk@),
            all.len() == ids.len(),
            entries@.len() <= all.len(),
            entries@ == all.take(entries@.len() as int),
            stack@.len() == base.len() + all.len() - entries@.len(),
            stack@.take(base.len() as int) == base,
            forall|k: int|
                0 <= k < all.len() ==> {
                    let p = #[trigger] all[k];
                    &&& p.id == ids[k]
                    &&& i < p.id < nodes.len()
                    &&& p.path@ == diff::join(
                        path@,
                        diff::child_segments(TreeFlavor::Snapshot, nodes, i as int)[k],
                    )
                },
            forall|r: int|
                entries@.len() <= r < all.len() ==> #[trigger] opened_from(
                    nodes,
                    i as int,
                    path@,
                    at,
                    stack@[base.len() + all.len() - 1 - r],
                    r,
                ),
            forall|j: int| 0 <= j < stack@.len() ==> (#[trigger] stack@[j]).id < nodes.len(),
        decreases entries@.len(),
    {
        let ghost before = entries@;
        let ghost stack_before = stack@;
        match entries.pop() {
            Some(p) => {
                let ghost k = before.len() - 1;
                assert(p == all[k]);
                let node = &t.nodes[p.id];
                let mut below = copy_texts(disk);
                let ghost below_before = below@;
                let fragment = match &node.disk_fragment {
                    Some(fragment) => owned(fragment.as_str()),
                    None => match &node.name {
                        Some(name) => owned(name.as_str()),
                        None => String::new(),
                    },
                };
                below.push(fragment);
                proof {
                    assert(texts(below@) =~= at.push(fragment_of(nodes[ids[k]])));
                }
                stack.push(Open { id: p.id, path: p.path, disk: below });
                proof {
                    assert(entries@ =~= all.take(entries@.len() as int));
                    assert(stack@.take(base.len() as int) =~= base);
                    assert forall|r: int| entries@.len() <= r < all.len() implies #[trigger]
                    opened_from(
                        nodes,
                        i as int,
                        path@,
                        at,
                        stack@[base.len() + all.len() - 1 - r],
                        r,
                    ) by {
                        if r > k {
                            assert(opened_from(
                                nodes,
                                i as int,
                                path@,
                                at,
                                stack_before[base.len() + all.len() - 1 - r],
                                r,
                            ));
                            assert(stack@[base.len() + all.len() - 1 - r] == stack_before[base.len()
                                + all.len() - 1 - r]);
                        }
                    }
                }
            },
            None => {},
        }
    }
    proof {
        lemma_open_children(nodes, i as int, path@, at, base, stack@, 0);
    }
}

fn place_nodes(
    out: &mut TextMap<LocalSnapshotValue>,
    mut stack: Vec<Open>,
    t: &Tree,
    s: &Survey,
    done: Ghost<Seq<Visit>>,
)
    requires
        t.wf(),
        s.of(TreeFlavor::Snapshot, t.nodes@),
        old(out).wf(),
        places_of(*old(out)) == placed(done@),
        forall|j: int| 0 <= j < stack@.len() ==> (#[trigger] stack@[j]).id < t.nodes@.len(),
    ensures
        final(out).wf(),
        places_of(*final(out)) == placed(done@ + open_visits(t.nodes@, stack@)),
{
    let ghost nodes = t.nodes@;
    let ghost total = done@ + open_visits(nodes, stack@);
    let ghost mut so_far = done@;
    while stack.len() > 0
        invariant
            t.wf(),
            nodes == t.nodes@,
            s.of(TreeFlavor::Snapshot, nodes),
            out.wf(),
            places_of(*out) == placed(so_far),
            so_far + open_visits(nodes, stack@) == total,
            forall|j: int| 0 <= j < stack@.len() ==> (#[trigger] stack@[j]).id < nodes.len(),
        decreases total.len() - so_far.len(),
    {
        let ghost before = stack@;
        let ghost rest = open_visits(nodes, before.drop_last());
        match stack.pop() {
            None => {},
            Some(p) => {
                assert(before[before.len() - 1] == p);
                let i: usize = p.id;
                let node = &t.nodes[i];
                let ghost entry = Visit {
                    path: p.path@,
                    place: PlaceModel { node: i as int, disk_path: texts(p.disk@) },
                };
                let ghost own = disk_visits(nodes, i as int, p.path@, texts(p.disk@));
                let ghost out_before = *out;
                let value = LocalSnapshotValue { node: i, disk_path: copy_texts(&p.disk) };
                out.insert(owned(p.path.as_str()), value);
                let ghost so_far_before = so_far;
                let open = node_descends(TreeFlavor::Snapshot, node);
                proof {
                    assert(places_of(*out) =~= places_of(out_before).insert(
                        entry.path,
                        entry.place,
                    ));
                    assert(so_far.push(entry).drop_last() =~= so_far);
                    so_far = so_far.push(entry);
                    assert(total == so_far_before + (own + rest));
                    if open {
                        let below = disk_child_visits(nodes, i as int, p.path@, texts(p.disk@), 0);
                        assert(own == seq![entry] + below);
                        assert(total =~= so_far + (below + rest));
                    } else {
                        assert(own =~= seq![entry]);
                        assert(total =~= so_far + rest);
                    }
                    assert(stack@ =~= before.drop_last());
                    assert(forall|j: int|
                        0 <= j < stack@.len() ==> (#[trigger] stack@[j]) == before[j]);
                }
                if open {
                    open_children(&mut stack, t, s, i, p.path.as_str(), &p.disk);
                }
            },
        }
    }
    proof {
        assert(open_visits(nodes, stack@) =~= Seq::<Visit>::empty());
        assert(so_far =~= total);
    }
}

/// Where the nodes below the given services stand on disk, by logical path.
pub fn collect_local_snapshot_entries(t: &Tree, services: &[usize]) -> (out: TextMap<
    LocalSnapshotValue,
>)
    requires
        t.wf(),
        forall|k: int| 0 <= k < services@.len() ==> #[trigger] services@[k] < t.nodes@.len(),
    ensures
        out.wf(),
        places_of(out) == placed(service_places(t.nodes@, services@)),
{
    let ghost nodes = t.nodes@;
    let s = survey(t, TreeFlavor::Snapshot);
    let mut out: TextMap<LocalSnapshotValue> = TextMap::new();
    let ghost mut done: Seq<Visit> = Seq::empty();
    let mut k: usize = 0;
    proof {
        assert(places_of(out) =~= Map::<Seq<char>, PlaceModel>::empty());
        assert(services@.take(0) =~= Seq::<usize>::empty());
    }
    while k < services.len()
        invariant
            t.wf(),
            nodes == t.nodes@,
            s.of(TreeFlavor::Snapshot, nodes),
            forall|k: int| 0 <= k < services@.len() ==> #[trigger] services@[k] < nodes.len(),
            k <= services@.len(),
            out.wf(),
            done == service_places(nodes, services@.take(k as int)),
            places_of(out) == placed(done),
        decreases services@.len() - k,
    {
        let i: usize = services[k];
        let ghost before = done;
        proof {
            let t1 = services@.take(k + 1);
            assert(t1.drop_last() =~= services@.take(k as int));
            assert(t1.last() == i);
            done = service_places(nodes, t1);
        }
        if let Some(name) = &t.nodes[i].name {
            let mut stack: Vec<Open> = Vec::new();
            let mut disk: Vec<String> = Vec::new();
            disk.push(owned(name.as_str()));
            proof {
                assert(texts(disk@) =~= seq![name@]);
            }
            open_children(&mut stack, t, &s, i, name.as_str(), &disk);
            proof {
                let more = disk_child_visits(nodes, i as int, name@, seq![name@], 0);
                assert(more + Seq::<Visit>::empty() =~= more);
            }
            place_nodes(&mut out, stack, t, &s, Ghost(before));
        } else {
            proof {
                assert(done =~= before);
            }
        }
        k += 1;
    }
    proof {
        assert(services@.take(k as int) =~= services@);
    }
    out
}

} // verus!
