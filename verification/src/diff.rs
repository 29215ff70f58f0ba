//! Comparing the project directory with a Studio session.
use vstd::prelude::*;
use vstd::utf8::*;

use crate::conflict;
use crate::fs_map;
use crate::fs_map::{InstanceDescriptor, PathFragmentAllocator};
use crate::survey;
use crate::survey::{normalized_source_hash, source_hash_from_node, Survey, TreeFlavor};
use crate::sync_scope;
use crate::text::{append, owned, same};
use crate::text_map;
use crate::text_map::TextMap;
use crate::tree;
use crate::tree::{Tree, TreeNode};

verus! {

#[derive(Debug, Clone, Copy, PartialEq, Eq, Structural)]
pub enum DiffKind {
    Folder,
    Script,
}

/// One node of a comparison.
#[derive(Debug)]
pub struct DiffNode {
    pub path: String,
    /// The path under which Studio finds the node.
    pub source_path: String,
    pub class: String,
    pub kind: DiffKind,
    pub source_hash: Option<crate::conflict::Hash>,
    pub stream_id: Option<u64>,
}

pub struct NodeModel {
    pub path: Seq<char>,
    pub source_path: Seq<char>,
    pub class: Seq<char>,
    pub kind: DiffKind,
    pub source_hash: Option<Seq<u8>>,
    pub stream_id: Option<u64>,
}

pub open spec fn hash_view(h: Option<crate::conflict::Hash>) -> Option<Seq<u8>> {
    match h {
        Some(h) => Some(h@),
        None => None,
    }
}

impl DiffNode {
    pub open spec fn view(&self) -> NodeModel {
        NodeModel {
            path: self.path@,
            source_path: self.source_path@,
            class: self.class@,
            kind: self.kind,
            source_hash: hash_view(self.source_hash),
            stream_id: self.stream_id,
        }
    }
}

/// A collection of nodes by path, without the representation.
pub open spec fn nodes_of(m: TextMap<DiffNode>) -> Map<Seq<char>, NodeModel> {
    Map::new(|k: Seq<char>| m@.contains_key(k), |k: Seq<char>| m@[k]@)
}

pub open spec fn kind_of(class: Seq<char>) -> DiffKind {
    if sync_scope::is_script(class) {
        DiffKind::Script
    } else {
        DiffKind::Folder
    }
}

pub open spec fn join(parent: Seq<char>, name: Seq<char>) -> Seq<char> {
    if parent.len() == 0 {
        name
    } else {
        parent + seq!['/'] + name
    }
}

/// The path segments of siblings named `names`, given one after the other
/// beside those in `taken`.
pub open spec fn segments(names: Seq<Seq<char>>, taken: Set<Seq<char>>) -> Seq<
    Seq<char>,
>
    decreases names.len(),
{
    if names.len() == 0 {
        Seq::empty()
    } else {
        let (segment, next) = fs_map::allocation(taken, names[0], Seq::empty());
        seq![segment] + segments(names.drop_first(), next)
    }
}

pub open spec fn child_names(t: Seq<TreeNode>, ids: Seq<int>) -> Seq<Seq<char>> {
    Seq::new(ids.len(), |r: int| survey::name_or_empty(t[ids[r]]))
}

pub open spec fn child_segments(f: TreeFlavor, t: Seq<TreeNode>, i: int) -> Seq<Seq<char>> {
    segments(child_names(t, survey::projection(f, t, i)), Set::empty())
}

/// Whether two children of node `i` have the name `name`.
pub open spec fn is_duplicate(t: Seq<TreeNode>, i: int, name: Seq<char>) -> bool {
    exists|a: int, b: int|
        0 <= a < b < t[i].children@.len() && t[#[trigger] t[i].children@[a] as int].name_text()
            == Some(name) && t[#[trigger] t[i].children@[b] as int].name_text() == Some(name)
}

/// The segment under which Studio finds a child: its name, unless a sibling has
/// the same name.
pub open spec fn source_segment(
    f: TreeFlavor,
    t: Seq<TreeNode>,
    i: int,
    name: Seq<char>,
    segment: Seq<char>,
) -> Seq<char> {
    if f == TreeFlavor::Snapshot || is_duplicate(t, i, name) {
        segment
    } else {
        name
    }
}

/// What is recorded of node `i`, where it takes part.
pub open spec fn node_entry(
    f: TreeFlavor,
    t: Seq<TreeNode>,
    i: int,
    path: Seq<char>,
    source_path: Seq<char>,
) -> Option<NodeModel> {
    if skipped(f, t[i]) || !survey::relevant(f, t, i) {
        None
    } else {
        let class = survey::mapped_class(f, t[i].class_text()->0, survey::carrying(f, t, i));
        Some(
            NodeModel {
                path,
                source_path,
                class,
                kind: kind_of(class),
                source_hash: if sync_scope::is_script(t[i].class_text()->0) {
                    Some(survey::source_digest(t[i]))
                } else {
                    None
                },
                stream_id: t[i].stream_id,
            },
        )
    }
}

/// Whether nothing is recorded of a node and its subtree.
pub open spec fn skipped(f: TreeFlavor, n: TreeNode) -> bool {
    n.class is None || (f == TreeFlavor::Studio && n.avoid_sync)
}

/// Whether the children of a node are visited.
pub open spec fn opens(f: TreeFlavor, n: TreeNode) -> bool {
    !skipped(f, n) && (f == TreeFlavor::Snapshot ==> survey::descends(f, n))
}

/// The visits of node `i` and what is below it, in order: what is recorded of
/// each.
pub open spec fn visits(
    f: TreeFlavor,
    t: Seq<TreeNode>,
    i: int,
    path: Seq<char>,
    source_path: Seq<char>,
) -> Seq<Option<NodeModel>>
    decreases t.len() - i, survey::projection(f, t, i).len() + 1,
{
    seq![node_entry(f, t, i, path, source_path)] + (if opens(f, t[i]) {
        child_visits(f, t, i, path, source_path, 0)
    } else {
        Seq::empty()
    })
}

/// The visits of the children of node `i` from the `k`-th on.
pub open spec fn child_visits(
    f: TreeFlavor,
    t: Seq<TreeNode>,
    i: int,
    path: Seq<char>,
    source_path: Seq<char>,
    k: int,
) -> Seq<Option<NodeModel>>
    decreases t.len() - i, survey::projection(f, t, i).len() - k,
{
    let ids = survey::projection(f, t, i);
    if 0 <= k < ids.len() && i < ids[k] < t.len() {
        let name = survey::name_or_empty(t[ids[k]]);
        let segment = child_segments(f, t, i)[k];
        visits(
            f,
            t,
            ids[k],
            join(path, segment),
            join(source_path, source_segment(f, t, i, name, segment)),
        ) + child_visits(f, t, i, path, source_path, k + 1)
    } else {
        Seq::empty()
    }
}

/// The nodes recorded in `visits`, a later one replacing an earlier one with
/// the same path.
pub open spec fn recorded(visits: Seq<Option<NodeModel>>) -> Map<Seq<char>, NodeModel>
    decreases visits.len(),
{
    if visits.len() == 0 {
        Map::empty()
    } else {
        let before = recorded(visits.drop_last());
        match visits.last() {
            Some(node) => before.insert(node.path, node),
            None => before,
        }
    }
}

/// The visits of the services at `ids`, each under its own name.
pub open spec fn local_visits(t: Seq<TreeNode>, ids: Seq<usize>) -> Seq<Option<NodeModel>>
    decreases ids.len(),
{
    if ids.len() == 0 {
        Seq::empty()
    } else {
        local_visits(t, ids.drop_last()) + service_visits(
            TreeFlavor::Snapshot,
            t,
            ids.last() as int,
        )
    }
}

/// The visits of what is below a named service.
pub open spec fn service_visits(f: TreeFlavor, t: Seq<TreeNode>, i: int) -> Seq<
    Option<NodeModel>,
> {
    match t[i].name_text() {
        Some(name) => child_visits(f, t, i, name, name, 0),
        None => Seq::empty(),
    }
}

/// The visits of the first `n` children of a place's root: those of its synced
/// services.
pub open spec fn place_visits(t: Seq<TreeNode>, root: int, n: int) -> Seq<Option<NodeModel>>
    decreases n,
{
    if n <= 0 {
        Seq::empty()
    } else {
        let c = t[root].children@[n - 1] as int;
        place_visits(t, root, n - 1) + (match t[c].name_text() {
            Some(name) => if sync_scope::is_synced_service(name) {
                service_visits(TreeFlavor::Studio, t, c)
            } else {
                Seq::empty()
            },
            None => Seq::empty(),
        })
    }
}

/// The visits of the synced services among `ids`, as of a place that holds
/// them.
pub open spec fn synced_visits(t: Seq<TreeNode>, ids: Seq<usize>) -> Seq<Option<NodeModel>>
    decreases ids.len(),
{
    if ids.len() == 0 {
        Seq::empty()
    } else {
        let c = ids.last() as int;
        synced_visits(t, ids.drop_last()) + (match t[c].name_text() {
            Some(name) => if sync_scope::is_synced_service(name) {
                service_visits(TreeFlavor::Studio, t, c)
            } else {
                Seq::empty()
            },
            None => Seq::empty(),
        })
    }
}

pub open spec fn studio_visits(t: Seq<TreeNode>, root: int) -> Seq<Option<NodeModel>> {
    if t[root].class_text() == Some("DataModel"@) {
        place_visits(t, root, t[root].children@.len() as int)
    } else {
        visits(TreeFlavor::Studio, t, root, Seq::empty(), Seq::empty())
    }
}

/// A node that is still to be visited.
#[derive(Debug)]
pub struct Pending {
    pub id: usize,
    pub path: String,
    pub source_path: String,
}

/// The visits that pending nodes stand for, the last one first.
pub open spec fn pending_visits(f: TreeFlavor, t: Seq<TreeNode>, p: Seq<Pending>) -> Seq<
    Option<NodeModel>,
>
    decreases p.len(),
{
    if p.len() == 0 {
        Seq::empty()
    } else {
        visits(f, t, p.last().id as int, p.last().path@, p.last().source_path@) + pending_visits(
            f,
            t,
            p.drop_last(),
        )
    }
}

fn join_path(parent: &str, name: &str) -> (out: String)
    ensures
        out@ == join(parent@, name@),
{
    if parent.is_empty() {
        owned(name)
    } else {
        let mut out = owned(parent);
        out.push('/');
        append(&mut out, name);
        proof {
            assert(out@ =~= parent@ + seq!['/'] + name@);
        }
        out
    }
}

proof fn lemma_projection_bounds(f: TreeFlavor, t: Seq<TreeNode>, i: int, s: Survey)
    requires
        tree::tree_wf(t),
        0 <= i < t.len(),
        s.of(f, t),
    ensures
        survey::projection(f, t, i).len() == s.order@[i]@.len(),
        forall|r: int|
            0 <= r < s.order@[i]@.len() ==> #[trigger] s.order@[i]@[r] == survey::projection(
                f,
                t,
                i,
            )[r],
        forall|r: int|
            0 <= r < survey::projection(f, t, i).len() ==> i < #[trigger] survey::projection(
                f,
                t,
                i,
            )[r] < t.len(),
        survey::projection(f, t, i).len() < t.len(),
{
    assert(survey::ints(s.order@[i]@) == survey::projection(f, t, i));
    assert forall|r: int| 0 <= r < s.order@[i]@.len() implies #[trigger] s.order@[i]@[r]
        == survey::projection(f, t, i)[r] by {
        assert(survey::ints(s.order@[i]@)[r] == s.order@[i]@[r]);
    }
    assert forall|r: int| 0 <= r < survey::projection(f, t, i).len() implies i
        < #[trigger] survey::projection(f, t, i)[r] < t.len() by {
        assert(i < s.order@[i]@[r] < t.len());
    }
    assert(s.order@[i]@.len() <= t[i].children@.len());
}

/// The names that two children of a node share.
fn duplicate_names(t: &Tree, i: usize) -> (out: TextMap<bool>)
    requires
        t.wf(),
        i < t.nodes@.len(),
    ensures
        out.wf(),
        forall|name: Seq<char>|
            #![trigger is_duplicate(t.nodes@, i as int, name)]
            is_duplicate(t.nodes@, i as int, name) == (out@.contains_key(name) && out@[name]),
{
    let ghost nodes = t.nodes@;
    let count: usize = t.nodes[i].children.len();
    let mut seen: TextMap<bool> = TextMap::new();
    let mut k: usize = 0;
    while k < count
        invariant
            t.wf(),
            nodes == t.nodes@,
            i < nodes.len(),
            count == nodes[i as int].children@.len(),
            k <= count,
            seen.wf(),
            forall|name: Seq<char>| #[trigger]
                seen@.contains_key(name) <==> exists|a: int|
                    0 <= a < k && nodes[#[trigger] nodes[i as int].children@[a] as int].name_text()
                        == Some(name),
            forall|name: Seq<char>| #[trigger]
                seen@.contains_key(name) ==> (seen@[name] <==> exists|a: int, b: int|
                    0 <= a < b < k && nodes[#[trigger] nodes[i as int].children@[a] as int].name_text()
                        == Some(name) && nodes[#[trigger] nodes[i as int].children@[b] as int].name_text()
                        == Some(name)),
        decreases count - k,
    {
        let c: usize = t.nodes[i].children[k];
        let ghost kids = nodes[i as int].children@;
        assert(kids[k as int] == c);
        let ghost before = seen@;
        if let Some(name) = &t.nodes[c].name {
            let twice = seen.contains(name.as_str());
            seen.insert(owned(name.as_str()), twice);
            proof {
                assert(nodes[c as int].name_text() == Some(name@));
                assert forall|other: Seq<char>| #[trigger]
                    seen@.contains_key(other) <==> exists|a: int|
                        0 <= a < k + 1 && nodes[#[trigger] kids[a] as int].name_text() == Some(
                            other,
                        ) by {
                    if seen@.contains_key(other) {
                        if other == name@ {
                            assert(nodes[kids[k as int] as int].name_text() == Some(other));
                        } else {
                            assert(before.contains_key(other));
                            let a = choose|a: int|
                                0 <= a < k && nodes[#[trigger] kids[a] as int].name_text() == Some(
                                    other,
                                );
                            assert(nodes[kids[a] as int].name_text() == Some(other));
                        }
                    }
                    if exists|a: int|
                        0 <= a < k + 1 && nodes[#[trigger] kids[a] as int].name_text() == Some(
                            other,
                        ) {
                        let a = choose|a: int|
                            0 <= a < k + 1 && nodes[#[trigger] kids[a] as int].name_text() == Some(
                                other,
                            );
                        if a < k {
                            assert(before.contains_key(other));
                        }
                    }
                }
                assert forall|other: Seq<char>| #[trigger] seen@.contains_key(other) implies (
                seen@[other] <==> exists|a: int, b: int|
                    0 <= a < b < k + 1 && nodes[#[trigger] kids[a] as int].name_text() == Some(
                        other,
                    ) && nodes[#[trigger] kids[b] as int].name_text() == Some(other)) by {
                    if other == name@ {
                        if twice {
                            let a = choose|a: int|
                                0 <= a < k && nodes[#[trigger] kids[a] as int].name_text() == Some(
                                    other,
                                );
                            assert(nodes[kids[a] as int].name_text() == Some(other)
                                && nodes[kids[k as int] as int].name_text() == Some(other));
                        }
                        if exists|a: int, b: int|
                            0 <= a < b < k + 1 && nodes[#[trigger] kids[a] as int].name_text()
                                == Some(other) && nodes[#[trigger] kids[b] as int].name_text()
                                == Some(other) {
                            let (a, b) = choose|a: int, b: int|
                                0 <= a < b < k + 1 && nodes[#[trigger] kids[a] as int].name_text()
                                    == Some(other) && nodes[#[trigger] kids[b] as int].name_text()
                                    == Some(other);
                            assert(before.contains_key(other));
                        }
                    } else {
                        assert(before.contains_key(other));
                    }
                }
            }
        } else {
            proof {
                assert(nodes[kids[k as int] as int].name_text() is None);
            }
        }
        k += 1;
    }
    proof {
        let kids = nodes[i as int].children@;
        assert forall|name: Seq<char>|
            #![trigger is_duplicate(nodes, i as int, name)]
            is_duplicate(nodes, i as int, name) == (seen@.contains_key(name) && seen@[name]) by {
            if is_duplicate(nodes, i as int, name) {
                let (a, b) = choose|a: int, b: int|
                    0 <= a < b < kids.len() && nodes[#[trigger] kids[a] as int].name_text() == Some(
                        name,
                    ) && nodes[#[trigger] kids[b] as int].name_text() == Some(name);
                assert(nodes[kids[a] as int].name_text() == Some(name));
                assert(seen@.contains_key(name));
            }
        }
    }
    seen
}

/// The children of node `i` with their paths, in order.
pub(crate) fn child_entries(t: &Tree, f: TreeFlavor, s: &Survey, i: usize, path: &str, source_path: &str) -> (out:
    Vec<Pending>)
    requires
        t.wf(),
        s.of(f, t.nodes@),
        i < t.nodes@.len(),
    ensures
        out@.len() == survey::projection(f, t.nodes@, i as int).len(),
        forall|k: int|
            0 <= k < out@.len() ==> {
                let p = #[trigger] out@[k];
                let c = survey::projection(f, t.nodes@, i as int)[k];
                let name = survey::name_or_empty(t.nodes@[c]);
                let segment = child_segments(f, t.nodes@, i as int)[k];
                &&& p.id == c
                &&& i < p.id < t.nodes@.len()
                &&& p.path@ == join(path@, segment)
                &&& p.source_path@ == join(
                    source_path@,
                    source_segment(f, t.nodes@, i as int, name, segment),
                )
            },
{
    let ghost nodes = t.nodes@;
    let ghost ids = survey::projection(f, nodes, i as int);
    let ghost all = child_segments(f, nodes, i as int);
    let ghost names = child_names(nodes, ids);
    let duplicates = duplicate_names(t, i);
    let size: usize = t.nodes.len();
    proof {
        lemma_projection_bounds(f, nodes, i as int, *s);
        lemma_segments_len(names, Set::empty());
    }
    let order = &s.order[i];
    let mut allocator = PathFragmentAllocator::new();
    let mut out: Vec<Pending> = Vec::new();
    let mut k: usize = 0;
    proof {
        assert(names.skip(0) =~= names);
        assert(all.skip(0) =~= all);
        assert(allocator.taken() =~= Set::empty());
    }
    while k < order.len()
        invariant
            t.wf(),
            nodes == t.nodes@,
            i < nodes.len(),
            ids == survey::projection(f, nodes, i as int),
            all == child_segments(f, nodes, i as int),
            names == child_names(nodes, ids),
            all.len() == ids.len(),
            order@.len() == ids.len(),
            ids.len() < nodes.len(),
            forall|r: int| 0 <= r < order@.len() ==> #[trigger] order@[r] == ids[r],
            forall|r: int| 0 <= r < ids.len() ==> i < #[trigger] ids[r] < nodes.len(),
            duplicates.wf(),
            forall|name: Seq<char>|
                #![trigger is_duplicate(nodes, i as int, name)]
                is_duplicate(nodes, i as int, name) == (duplicates@.contains_key(name)
                    && duplicates@[name]),
            nodes.len() == size,
            k <= order@.len(),
            allocator.wf(),
            allocator.count() == k,
            segments(names.skip(k as int), allocator.taken()) == all.skip(k as int),
            out@.len() == k,
            forall|r: int|
                0 <= r < k ==> {
                    let p = #[trigger] out@[r];
                    let name = survey::name_or_empty(nodes[ids[r]]);
                    let segment = all[r];
                    &&& p.id == ids[r]
                    &&& i < p.id < nodes.len()
                    &&& p.path@ == join(path@, segment)
                    &&& p.source_path@ == join(
                        source_path@,
                        source_segment(f, nodes, i as int, name, segment),
                    )
                },
        decreases order@.len() - k,
    {
        let c: usize = order[k];
        assert(c == ids[k as int]);
        let name: &str = match &t.nodes[c].name {
            Some(name) => name.as_str(),
            None => "",
        };
        proof {
            reveal_strlit("");
            assert(name@ =~= survey::name_or_empty(nodes[c as int]));
            assert(names.skip(k as int)[0] == name@);
            assert(names.skip(k as int).drop_first() =~= names.skip(k + 1));
        }
        let inst = InstanceDescriptor { class: "Folder", name, has_children: true };
        proof {
            reveal_strlit("Folder");
            reveal_strlit("ModuleScript");
            reveal_strlit("Script");
            reveal_strlit("LocalScript");
            assert(inst.extension() =~= Seq::<char>::empty());
        }
        let segment = allocator.allocate(&inst).fragment;
        proof {
            assert(all.skip(k as int)[0] == segment@);
            assert(all.skip(k as int).drop_first() =~= all.skip(k + 1));
            assert((seq![segment@] + segments(names.skip(k + 1), allocator.taken())).drop_first()
                =~= segments(names.skip(k + 1), allocator.taken()));
        }
        let full = join_path(path, segment.as_str());
        let keep_segment = match f {
            TreeFlavor::Snapshot => true,
            TreeFlavor::Studio => match duplicates.get(name) {
                Some(twice) => *twice,
                None => false,
            },
        };
        proof {
            assert(is_duplicate(nodes, i as int, name@) == (duplicates@.contains_key(name@)
                && duplicates@[name@]));
        }
        let source = if keep_segment {
            join_path(source_path, segment.as_str())
        } else {
            join_path(source_path, name)
        };
        out.push(Pending { id: c, path: full, source_path: source });
        k += 1;
    }
    out
}

proof fn lemma_segments_len(names: Seq<Seq<char>>, taken: Set<Seq<char>>)
    ensures
        segments(names, taken).len() == names.len(),
    decreases names.len(),
{
    if names.len() > 0 {
        let (segment, next) = fs_map::allocation(taken, names[0], Seq::empty());
        lemma_segments_len(names.drop_first(), next);
    }
}

proof fn lemma_recorded_push(done: Seq<Option<NodeModel>>, v: Option<NodeModel>)
    ensures
        recorded(done.push(v)) == match v {
            Some(node) => recorded(done).insert(node.path, node),
            None => recorded(done),
        },
{
    assert(done.push(v).drop_last() =~= done);
}

/// Pushing the children of a node in reverse makes them the next visits.
proof fn lemma_pending_children(
    f: TreeFlavor,
    t: Seq<TreeNode>,
    i: int,
    path: Seq<char>,
    source_path: Seq<char>,
    base: Seq<Pending>,
    stack: Seq<Pending>,
    k: int,
)
    requires
        0 <= k <= survey::projection(f, t, i).len(),
        stack.len() == base.len() + survey::projection(f, t, i).len() - k,
        stack.take(base.len() as int) == base,
        forall|r: int|
            k <= r < survey::projection(f, t, i).len() ==> {
                let p = stack[base.len() + survey::projection(f, t, i).len() - 1 - r];
                let c = #[trigger] survey::projection(f, t, i)[r];
                let name = survey::name_or_empty(t[c]);
                let segment = child_segments(f, t, i)[r];
                &&& p.id == c
                &&& i < c < t.len()
                &&& p.path@ == join(path, segment)
                &&& p.source_path@ == join(
                    source_path,
                    source_segment(f, t, i, name, segment),
                )
            },
    ensures
        pending_visits(f, t, stack) == child_visits(f, t, i, path, source_path, k)
            + pending_visits(f, t, base),
    decreases survey::projection(f, t, i).len() - k,
{
    let ids = survey::projection(f, t, i);
    if k == ids.len() {
        assert(stack =~= base);
        assert(child_visits(f, t, i, path, source_path, k) =~= Seq::<Option<NodeModel>>::empty());
        assert(Seq::<Option<NodeModel>>::empty() + pending_visits(f, t, base) =~= pending_visits(
            f,
            t,
            base,
        ));
    } else {
        let rest = stack.drop_last();
        assert(rest.take(base.len() as int) =~= base);
        assert forall|r: int| k + 1 <= r < ids.len() implies {
            let p = rest[base.len() + ids.len() - 1 - r];
            let c = #[trigger] ids[r];
            let name = survey::name_or_empty(t[c]);
            let segment = child_segments(f, t, i)[r];
            &&& p.id == c
            &&& i < c < t.len()
            &&& p.path@ == join(path, segment)
            &&& p.source_path@ == join(source_path, source_segment(f, t, i, name, segment))
        } by {
            assert(rest[base.len() + ids.len() - 1 - r] == stack[base.len() + ids.len() - 1 - r]);
        }
        lemma_pending_children(f, t, i, path, source_path, base, rest, k + 1);
        let c = ids[k];
        assert(stack.last() == stack[base.len() + ids.len() - 1 - k]);
        let first = visits(
            f,
            t,
            c,
            stack.last().path@,
            stack.last().source_path@,
        );
        assert(first + (child_visits(f, t, i, path, source_path, k + 1) + pending_visits(f, t, base))
            =~= (first + child_visits(f, t, i, path, source_path, k + 1)) + pending_visits(
            f,
            t,
            base,
        ));
    }
}

/// Moves the children of node `i` onto the stack, the first on top.
fn push_children(
    stack: &mut Vec<Pending>,
    t: &Tree,
    f: TreeFlavor,
    s: &Survey,
    i: usize,
    path: &str,
    source_path: &str,
)
    requires
        t.wf(),
        s.of(f, t.nodes@),
        i < t.nodes@.len(),
        forall|j: int| 0 <= j < old(stack)@.len() ==> (#[trigger] old(stack)@[j]).id < t.nodes@.len(),
    ensures
        forall|j: int| 0 <= j < final(stack)@.len() ==> (#[trigger] final(stack)@[j]).id < t.nodes@.len(),
        pending_visits(f, t.nodes@, final(stack)@) == child_visits(
            f,
            t.nodes@,
            i as int,
            path@,
            source_path@,
            0,
        ) + pending_visits(f, t.nodes@, old(stack)@),
{
    let ghost nodes = t.nodes@;
    let ghost base = stack@;
    let ghost ids = survey::projection(f, nodes, i as int);
    let mut entries = child_entries(t, f, s, i, path, source_path);
    let ghost all = entries@;
    while entries.len() > 0
        invariant
            ids == survey::projection(f, nodes, i as int),
            nodes == t.nodes@,
            all.len() == ids.len(),
            entries@.len() <= all.len(),
            entries@ == all.take(entries@.len() as int),
            stack@.len() == base.len() + all.len() - entries@.len(),
            stack@.take(base.len() as int) == base,
            forall|j: int| 0 <= j < base.len() ==> (#[trigger] base[j]).id < nodes.len(),
            forall|j: int| 0 <= j < all.len() ==> (#[trigger] all[j]).id < nodes.len(),
            forall|r: int|
                entries@.len() <= r < all.len() ==> stack@[base.len() + all.len() - 1 - r]
                    == #[trigger] all[r],
            forall|j: int| 0 <= j < stack@.len() ==> (#[trigger] stack@[j]).id < nodes.len(),
        decreases entries@.len(),
    {
        let ghost before = entries@;
        let ghost stack_before = stack@;
        match entries.pop() {
            Some(p) => {
                assert(p == all[before.len() - 1]);
                stack.push(p);
                proof {
                    assert(entries@ =~= all.take(entries@.len() as int));
                    assert(stack@.take(base.len() as int) =~= base);
                    assert forall|r: int| entries@.len() <= r < all.len() implies stack@[base.len()
                        + all.len() - 1 - r] == #[trigger] all[r] by {
                        if r > entries@.len() {
                            assert(stack_before[base.len() + all.len() - 1 - r] == all[r]);
                        }
                    }
                }
            },
            None => {},
        }
    }
    proof {
        assert forall|r: int| 0 <= r < ids.len() implies {
            let p = stack@[base.len() + ids.len() - 1 - r];
            let c = #[trigger] ids[r];
            let name = survey::name_or_empty(nodes[c]);
            let segment = child_segments(f, nodes, i as int)[r];
            &&& p.id == c
            &&& i < c < nodes.len()
            &&& p.path@ == join(path@, segment)
            &&& p.source_path@ == join(
                source_path@,
                source_segment(f, nodes, i as int, name, segment),
            )
        } by {
            assert(stack@[base.len() + all.len() - 1 - r] == all[r]);
        }
        lemma_pending_children(
            f,
            nodes,
            i as int,
            path@,
            source_path@,
            base,
            stack@,
            0,
        );
    }
}

/// Visits pending nodes and what is below them, and records them in `out`.
fn collect(
    out: &mut TextMap<DiffNode>,
    mut stack: Vec<Pending>,
    t: &Tree,
    f: TreeFlavor,
    s: &Survey,
    done: Ghost<Seq<Option<NodeModel>>>,
)
    requires
        t.wf(),
        s.of(f, t.nodes@),
        old(out).wf(),
        nodes_of(*old(out)) == recorded(done@),
        forall|j: int| 0 <= j < stack@.len() ==> (#[trigger] stack@[j]).id < t.nodes@.len(),
    ensures
        final(out).wf(),
        nodes_of(*final(out)) == recorded(done@ + pending_visits(f, t.nodes@, stack@)),
{
    let ghost nodes = t.nodes@;
    let ghost total = done@ + pending_visits(f, nodes, stack@);
    let ghost mut so_far = done@;
    while stack.len() > 0
        invariant
            t.wf(),
            nodes == t.nodes@,
            s.of(f, nodes),
            out.wf(),
            nodes_of(*out) == recorded(so_far),
            so_far + pending_visits(f, nodes, stack@) == total,
            forall|j: int| 0 <= j < stack@.len() ==> (#[trigger] stack@[j]).id < nodes.len(),
        decreases total.len() - so_far.len(),
    {
        let ghost before = stack@;
        let ghost rest = pending_visits(f, nodes, before.drop_last());
        match stack.pop() {
            None => {},
            Some(p) => {
                assert(p == before.last());
                assert(before[before.len() - 1] == p);
                let i: usize = p.id;
                let node = &t.nodes[i];
                let ghost entry = node_entry(f, nodes, i as int, p.path@, p.source_path@);
                let ghost own = visits(f, nodes, i as int, p.path@, p.source_path@);
                let skip = match &node.class {
                    None => true,
                    Some(_) => match f {
                        TreeFlavor::Studio => node.avoid_sync,
                        TreeFlavor::Snapshot => false,
                    },
                };
                assert(skip == skipped(f, *node));
                if !skip && s.relevant[i] {
                    if let Some(class) = &node.class {
                        let mapped: &str = match f {
                            TreeFlavor::Snapshot => class.as_str(),
                            TreeFlavor::Studio => if sync_scope::script(class.as_str()) || same(
                                class.as_str(),
                                "Folder",
                            ) || !s.carrying[i] {
                                class.as_str()
                            } else {
                                "Folder"
                            },
                        };
                        let kind = if sync_scope::script(mapped) {
                            DiffKind::Script
                        } else {
                            DiffKind::Folder
                        };
                        let source_hash = if sync_scope::script(class.as_str()) {
                            Some(source_hash_from_node(node))
                        } else {
                            None
                        };
                        let record = DiffNode {
                            path: owned(p.path.as_str()),
                            source_path: owned(p.source_path.as_str()),
                            class: owned(mapped),
                            kind,
                            source_hash,
                            stream_id: node.stream_id,
                        };
                        let ghost out_before = *out;
                        let ghost model = record@;
                        proof {
                            assert(entry == Some(model));
                        }
                        out.insert(owned(p.path.as_str()), record);
                        proof {
                            assert(nodes_of(*out) =~= nodes_of(out_before).insert(
                                model.path,
                                model,
                            ));
                        }
                    }
                } else {
                    assert(entry is None);
                }
                let ghost so_far_before = so_far;
                proof {
                    lemma_recorded_push(so_far, entry);
                    so_far = so_far.push(entry);
                }
                let open = !skip && match f {
                    TreeFlavor::Snapshot => crate::survey::node_descends(f, node),
                    TreeFlavor::Studio => true,
                };
                assert(open == opens(f, *node));
                proof {
                    assert(total == so_far_before + (own + rest));
                    if open {
                        let below = child_visits(f, nodes, i as int, p.path@, p.source_path@, 0);
                        assert(own == seq![entry] + below);
                        assert(total =~= so_far + (below + rest));
                    } else {
                        assert(own =~= seq![entry]);
                        assert(total =~= so_far + rest);
                    }
                    assert(stack@ =~= before.drop_last());
                    assert(forall|j: int| 0 <= j < stack@.len() ==> (#[trigger] stack@[j]) == before[j]);
                }
                if open {
                    push_children(
                        &mut stack,
                        t,
                        f,
                        s,
                        i,
                        p.path.as_str(),
                        p.source_path.as_str(),
                    );
                }
            },
        }
    }
    proof {
        assert(pending_visits(f, nodes, stack@) =~= Seq::<Option<NodeModel>>::empty());
        assert(so_far =~= total);
    }
}

/// The nodes of the project directory: those below the services at `services`.
pub fn collect_local_nodes(t: &Tree, services: &[usize]) -> (out: TextMap<DiffNode>)
    requires
        t.wf(),
        forall|k: int| 0 <= k < services@.len() ==> #[trigger] services@[k] < t.nodes@.len(),
    ensures
        out.wf(),
        nodes_of(out) == recorded(local_visits(t.nodes@, services@)),
{
    let ghost nodes = t.nodes@;
    let f = TreeFlavor::Snapshot;
    let s = crate::survey::survey(t, f);
    let mut out: TextMap<DiffNode> = TextMap::new();
    let ghost mut done: Seq<Option<NodeModel>> = Seq::empty();
    let mut k: usize = 0;
    proof {
        assert(nodes_of(out) =~= Map::<Seq<char>, NodeModel>::empty());
        assert(services@.take(0) =~= Seq::<usize>::empty());
    }
    while k < services.len()
        invariant
            t.wf(),
            nodes == t.nodes@,
            f == TreeFlavor::Snapshot,
            s.of(f, nodes),
            forall|k: int| 0 <= k < services@.len() ==> #[trigger] services@[k] < nodes.len(),
            k <= services@.len(),
            out.wf(),
            done == local_visits(nodes, services@.take(k as int)),
            nodes_of(out) == recorded(done),
        decreases services@.len() - k,
    {
        let i: usize = services[k];
        let ghost more = service_visits(f, nodes, i as int);
        proof {
            let t1 = services@.take(k + 1);
            assert(t1.drop_last() =~= services@.take(k as int));
            assert(t1.last() == i);
            assert(local_visits(nodes, t1) == done + more);
        }
        if let Some(name) = &t.nodes[i].name {
            let mut stack: Vec<Pending> = Vec::new();
            push_children(&mut stack, t, f, &s, i, name.as_str(), name.as_str());
            proof {
                assert(more + Seq::<Option<NodeModel>>::empty() =~= more);
            }
            collect(&mut out, stack, t, f, &s, Ghost(done));
        } else {
            proof {
                assert(done + more =~= done);
            }
        }
        proof {
            done = done + more;
        }
        k += 1;
    }
    proof {
        assert(services@.take(k as int) =~= services@);
    }
    out
}

/// The nodes of Studio services, as of a place that holds them.
pub fn collect_studio_services(t: &Tree, services: &[usize]) -> (out: TextMap<DiffNode>)
    requires
        t.wf(),
        forall|k: int| 0 <= k < services@.len() ==> #[trigger] services@[k] < t.nodes@.len(),
    ensures
        out.wf(),
        nodes_of(out) == recorded(synced_visits(t.nodes@, services@)),
{
    let ghost nodes = t.nodes@;
    let f = TreeFlavor::Studio;
    let s = crate::survey::survey(t, f);
    let mut out: TextMap<DiffNode> = TextMap::new();
    let ghost mut done: Seq<Option<NodeModel>> = Seq::empty();
    let mut k: usize = 0;
    proof {
        assert(nodes_of(out) =~= Map::<Seq<char>, NodeModel>::empty());
        assert(services@.take(0) =~= Seq::<usize>::empty());
    }
    while k < services.len()
        invariant
            t.wf(),
            nodes == t.nodes@,
            f == TreeFlavor::Studio,
            s.of(f, nodes),
            forall|k: int| 0 <= k < services@.len() ==> #[trigger] services@[k] < nodes.len(),
            k <= services@.len(),
            out.wf(),
            done == synced_visits(nodes, services@.take(k as int)),
            nodes_of(out) == recorded(done),
        decreases services@.len() - k,
    {
        let i: usize = services[k];
        let ghost before = done;
        proof {
            let t1 = services@.take(k + 1);
            assert(t1.drop_last() =~= services@.take(k as int));
            assert(t1.last() == i);
            done = synced_visits(nodes, t1);
        }
        if let Some(name) = &t.nodes[i].name {
            if sync_scope::synced_service(name.as_str()) {
                let ghost more = service_visits(f, nodes, i as int);
                let mut stack: Vec<Pending> = Vec::new();
                push_children(&mut stack, t, f, &s, i, name.as_str(), name.as_str());
                proof {
                    assert(more + Seq::<Option<NodeModel>>::empty() =~= more);
                }
                collect(&mut out, stack, t, f, &s, Ghost(before));
            } else {
                proof {
                    assert(done =~= before);
                }
            }
        } else {
            proof {
                assert(done =~= before);
            }
        }
        k += 1;
    }
    proof {
        assert(services@.take(k as int) =~= services@);
    }
    out
}

/// The nodes of a Studio tree: those of the synced services of a place, or of
/// the subtree that `root` stands for.
pub fn collect_studio_tree_nodes(t: &Tree, root: usize) -> (out: TextMap<DiffNode>)
    requires
        t.wf(),
        root < t.nodes@.len(),
    ensures
        out.wf(),
        nodes_of(out) == recorded(studio_visits(t.nodes@, root as int)),
{
    let ghost nodes = t.nodes@;
    let f = TreeFlavor::Studio;
    let s = crate::survey::survey(t, f);
    let mut out: TextMap<DiffNode> = TextMap::new();
    proof {
        assert(nodes_of(out) =~= Map::<Seq<char>, NodeModel>::empty());
    }
    let is_place = match &t.nodes[root].class {
        Some(class) => same(class.as_str(), "DataModel"),
        None => false,
    };
    if !is_place {
        let mut stack: Vec<Pending> = Vec::new();
        stack.push(Pending { id: root, path: String::new(), source_path: String::new() });
        proof {
            assert(stack@.drop_last() =~= Seq::<Pending>::empty());
            let v = visits(f, nodes, root as int, Seq::empty(), Seq::empty());
            assert(stack@.last().path@ =~= Seq::<char>::empty());
            assert(stack@.last().source_path@ =~= Seq::<char>::empty());
            assert(pending_visits(f, nodes, stack@.drop_last()) =~= Seq::<
                Option<NodeModel>,
            >::empty());
            assert(pending_visits(f, nodes, stack@) =~= v);
            assert(Seq::<Option<NodeModel>>::empty() + v =~= v);
        }
        collect(&mut out, stack, t, f, &s, Ghost(Seq::empty()));
        return out;
    }
    let ghost mut done: Seq<Option<NodeModel>> = Seq::empty();
    let count: usize = t.nodes[root].children.len();
    let mut k: usize = 0;
    while k < count
        invariant
            t.wf(),
            nodes == t.nodes@,
            root < nodes.len(),
            f == TreeFlavor::Studio,
            s.of(f, nodes),
            count == nodes[root as int].children@.len(),
            k <= count,
            out.wf(),
            done == place_visits(nodes, root as int, k as int),
            nodes_of(out) == recorded(done),
        decreases count - k,
    {
        let i: usize = t.nodes[root].children[k];
        assert(nodes[root as int].children@[k as int] == i);
        let ghost before = done;
        proof {
            done = place_visits(nodes, root as int, k + 1);
        }
        if let Some(name) = &t.nodes[i].name {
            if sync_scope::synced_service(name.as_str()) {
                let ghost more = service_visits(f, nodes, i as int);
                let mut stack: Vec<Pending> = Vec::new();
                push_children(&mut stack, t, f, &s, i, name.as_str(), name.as_str());
                proof {
                    assert(more + Seq::<Option<NodeModel>>::empty() =~= more);
                }
                collect(&mut out, stack, t, f, &s, Ghost(before));
            } else {
                proof {
                    assert(done =~= before);
                }
            }
        } else {
            proof {
                assert(done =~= before);
            }
        }
        k += 1;
    }
    out
}

/// Whether node `i` or one below it was cut short.
pub open spec fn truncated_in(t: Seq<TreeNode>, i: int) -> bool
    decreases t.len() - i,
{
    0 <= i < t.len() && (t[i].truncated || exists|k: int|
        0 <= k < t[i].children@.len() && i < #[trigger] t[i].children@[k] < t.len()
            && truncated_in(t, t[i].children@[k] as int))
}

/// Whether the listing of `root` was cut short anywhere.
pub fn has_truncated_tree(t: &Tree, root: usize) -> (r: bool)
    requires
        t.wf(),
        root < t.nodes@.len(),
    ensures
        r == truncated_in(t.nodes@, root as int),
{
    let ghost nodes = t.nodes@;
    let n: usize = t.nodes.len();
    let mut cut: Vec<bool> = Vec::new();
    let mut k: usize = 0;
    while k < n
        invariant
            k <= n,
            cut@.len() == k,
        decreases n - k,
    {
        cut.push(false);
        k += 1;
    }
    let mut i: usize = n;
    while i > 0
        invariant
            t.wf(),
            nodes == t.nodes@,
            n == nodes.len(),
            i <= n,
            cut@.len() == n,
            forall|j: int| i <= j < n ==> #[trigger] cut@[j] == truncated_in(nodes, j),
        decreases i,
    {
        i -= 1;
        let node = &t.nodes[i];
        let mut any = node.truncated;
        let mut k: usize = 0;
        while k < node.children.len()
            invariant
                t.wf(),
                nodes == t.nodes@,
                n == nodes.len(),
                i < n,
                *node == nodes[i as int],
                cut@.len() == n,
                forall|j: int| i < j < n ==> #[trigger] cut@[j] == truncated_in(nodes, j),
                k <= node.children@.len(),
                any == (node.truncated || exists|a: int|
                    0 <= a < k && i < #[trigger] node.children@[a] < n && truncated_in(
                        nodes,
                        node.children@[a] as int,
                    )),
            decreases node.children@.len() - k,
        {
            let c: usize = node.children[k];
            assert(nodes[i as int].children@[k as int] == c);
            if cut[c] {
                assert(i < node.children@[k as int] < n && truncated_in(nodes, c as int));
                any = true;
            }
            k += 1;
        }
        cut[i] = any;
    }
    cut[root]
}

/// The children of `parent` in the order in which names are given on disk.
pub fn snapshot_sibling_order(t: &Tree, parent: usize) -> (out: Vec<usize>)
    requires
        t.wf(),
        parent < t.nodes@.len(),
    ensures
        survey::ints(out@) == survey::projection(TreeFlavor::Snapshot, t.nodes@, parent as int),
{
    let mut s = crate::survey::survey(t, TreeFlavor::Snapshot);
    let mut out: Vec<usize> = Vec::new();
    std::mem::swap(&mut out, &mut s.order[parent]);
    out
}

/// The paths of the scripts among `nodes`, with the paths under which Studio
/// finds them.
pub open spec fn script_paths(m: TextMap<DiffNode>, n: int) -> Seq<(Seq<char>, Seq<char>)>
    decreases n,
{
    if n <= 0 {
        Seq::empty()
    } else {
        let before = script_paths(m, n - 1);
        let node = m.entries@[n - 1].1;
        if node.kind == DiffKind::Script {
            before.push((node.path@, node.source_path@))
        } else {
            before
        }
    }
}

pub open spec fn pair_texts(v: Seq<(String, String)>) -> Seq<(Seq<char>, Seq<char>)> {
    Seq::new(v.len(), |i: int| (v[i].0@, v[i].1@))
}

pub fn studio_script_paths(nodes: &TextMap<DiffNode>) -> (out: Vec<(String, String)>)
    ensures
        pair_texts(out@) == script_paths(*nodes, nodes.entries@.len() as int),
{
    let mut out: Vec<(String, String)> = Vec::new();
    let mut i: usize = 0;
    while i < nodes.entries.len()
        invariant
            i <= nodes.entries@.len(),
            pair_texts(out@) == script_paths(*nodes, i as int),
        decreases nodes.entries@.len() - i,
    {
        let node = &nodes.entries[i].1;
        if node.kind == DiffKind::Script {
            let ghost before = out@;
            out.push((owned(node.path.as_str()), owned(node.source_path.as_str())));
            proof {
                assert(pair_texts(out@) =~= pair_texts(before).push(
                    (node.path@, node.source_path@),
                ));
            }
        }
        i += 1;
    }
    out
}

/// Gives the node at `path` the digest of `source`, where there is such a node.
pub fn set_node_source(nodes: &mut TextMap<DiffNode>, path: &str, source: String)
    requires
        old(nodes).wf(),
    ensures
        final(nodes).wf(),
        nodes_of(*final(nodes)) == (if nodes_of(*old(nodes)).contains_key(path@) {
            nodes_of(*old(nodes)).insert(
                path@,
                NodeModel {
                    source_hash: Some(survey::text_digest(source@)),
                    ..nodes_of(*old(nodes))[path@]
                },
            )
        } else {
            nodes_of(*old(nodes))
        }),
{
    let (found, at) = nodes.locate(path);
    if found {
        let ghost before = *nodes;
        nodes.entries[at].1.source_hash = Some(normalized_source_hash(source.as_str()));
        proof {
            assert(nodes.keys() =~= before.keys());
            before.lemma_at(at as int);
            nodes.lemma_at(at as int);
            let want = nodes_of(before).insert(
                path@,
                NodeModel {
                    source_hash: Some(survey::text_digest(source@)),
                    ..nodes_of(before)[path@]
                },
            );
            let have = nodes_of(*nodes);
            assert forall|k: Seq<char>| have.contains_key(k) implies have[k] == want[k] by {
                let j = choose|j: int| 0 <= j < nodes.keys().len() && #[trigger] nodes.keys()[j] == k;
                before.lemma_at(j);
                nodes.lemma_at(j);
            }
            assert(have =~= want);
        }
    }
}

/// Takes out a node that the live tree listed but that is gone.
pub fn remove_studio_node(nodes: &mut TextMap<DiffNode>, path: &str)
    requires
        old(nodes).wf(),
    ensures
        final(nodes).wf(),
        nodes_of(*final(nodes)) == nodes_of(*old(nodes)).remove(path@),
{
    let ghost before = *nodes;
    nodes.remove(path);
    proof {
        assert(nodes_of(*nodes) =~= nodes_of(before).remove(path@));
    }
}

#[derive(Debug, Clone, PartialEq, Eq)]
pub struct DiffItem {
    pub path: String,
    pub class: String,
    pub kind: DiffKind,
}

#[derive(Debug, Clone, PartialEq, Eq)]
pub struct ChangedItem {
    pub path: String,
    pub kind: DiffKind,
    pub local_class: String,
    pub studio_class: String,
    pub class_changed: bool,
    pub source_changed: bool,
}

#[derive(Debug, Clone, Copy, PartialEq, Eq, Structural)]
pub struct DiffSummary {
    pub added: usize,
    pub removed: usize,
    pub changed: usize,
}

#[derive(Debug, Clone, PartialEq, Eq)]
pub struct DiffReport {
    pub ok: bool,
    pub summary: DiffSummary,
    /// On disk, but not in what Studio synchronises.
    pub added: Vec<DiffItem>,
    /// In what Studio synchronises, but not on disk.
    pub removed: Vec<DiffItem>,
    pub changed: Vec<ChangedItem>,
}

pub struct ItemModel {
    pub path: Seq<char>,
    pub class: Seq<char>,
    pub kind: DiffKind,
}

pub struct ChangedModel {
    pub path: Seq<char>,
    pub kind: DiffKind,
    pub local_class: Seq<char>,
    pub studio_class: Seq<char>,
    pub class_changed: bool,
    pub source_changed: bool,
}

impl DiffItem {
    pub open spec fn view(&self) -> ItemModel {
        ItemModel { path: self.path@, class: self.class@, kind: self.kind }
    }
}

impl ChangedItem {
    pub open spec fn view(&self) -> ChangedModel {
        ChangedModel {
            path: self.path@,
            kind: self.kind,
            local_class: self.local_class@,
            studio_class: self.studio_class@,
            class_changed: self.class_changed,
            source_changed: self.source_changed,
        }
    }
}

pub open spec fn items(v: Seq<DiffItem>) -> Seq<ItemModel> {
    Seq::new(v.len(), |i: int| v[i]@)
}

pub open spec fn changes(v: Seq<ChangedItem>) -> Seq<ChangedModel> {
    Seq::new(v.len(), |i: int| v[i]@)
}

pub open spec fn item_of(n: NodeModel) -> ItemModel {
    ItemModel { path: n.path, class: n.class, kind: n.kind }
}

pub open spec fn class_differs(l: NodeModel, s: NodeModel) -> bool {
    l.class != s.class
}

pub open spec fn source_differs(l: NodeModel, s: NodeModel) -> bool {
    l.kind == DiffKind::Script && s.kind == DiffKind::Script && l.source_hash != s.source_hash
}

/// The items of the first `n` of `keys` that are in `these` and not in `those`.
pub open spec fn only_in(
    keys: Seq<Seq<char>>,
    these: Map<Seq<char>, NodeModel>,
    those: Map<Seq<char>, NodeModel>,
    n: int,
) -> Seq<ItemModel>
    decreases n,
{
    if n <= 0 {
        Seq::empty()
    } else {
        let before = only_in(keys, these, those, n - 1);
        if those.contains_key(keys[n - 1]) {
            before
        } else {
            before.push(item_of(these[keys[n - 1]]))
        }
    }
}

/// The changes at the first `n` of `keys` that are on both sides.
pub open spec fn changed_in(
    keys: Seq<Seq<char>>,
    local: Map<Seq<char>, NodeModel>,
    studio: Map<Seq<char>, NodeModel>,
    n: int,
) -> Seq<ChangedModel>
    decreases n,
{
    if n <= 0 {
        Seq::empty()
    } else {
        let before = changed_in(keys, local, studio, n - 1);
        let k = keys[n - 1];
        if studio.contains_key(k) && (class_differs(local[k], studio[k]) || source_differs(
            local[k],
            studio[k],
        )) {
            before.push(
                ChangedModel {
                    path: k,
                    kind: local[k].kind,
                    local_class: local[k].class,
                    studio_class: studio[k].class,
                    class_changed: class_differs(local[k], studio[k]),
                    source_changed: source_differs(local[k], studio[k]),
                },
            )
        } else {
            before
        }
    }
}

impl DiffReport {
    pub fn is_clean(&self) -> (r: bool)
        ensures
            r == (self.summary.added == 0 && self.summary.removed == 0 && self.summary.changed
                == 0),
    {
        self.summary.added == 0 && self.summary.removed == 0 && self.summary.changed == 0
    }
}

fn same_source(a: &Option<crate::conflict::Hash>, b: &Option<crate::conflict::Hash>) -> (r: bool)
    ensures
        r == (hash_view(*a) == hash_view(*b)),
{
    match (a, b) {
        (Some(x), Some(y)) => conflict::same_hash(x, y),
        (None, None) => true,
        _ => false,
    }
}

fn item_from_node(node: &DiffNode) -> (item: DiffItem)
    ensures
        item@ == item_of(node@),
{
    DiffItem {
        path: owned(node.path.as_str()),
        class: owned(node.class.as_str()),
        kind: node.kind,
    }
}

/// Lists what `these` has and `those` has not.
fn missing_from(these: &TextMap<DiffNode>, those: &TextMap<DiffNode>) -> (out: Vec<DiffItem>)
    requires
        these.wf(),
        those.wf(),
    ensures
        items(out@) == only_in(
            these.keys(),
            nodes_of(*these),
            nodes_of(*those),
            these.keys().len() as int,
        ),
{
    let mut out: Vec<DiffItem> = Vec::new();
    let mut i: usize = 0;
    while i < these.entries.len()
        invariant
            these.wf(),
            those.wf(),
            i <= these.entries@.len(),
            items(out@) == only_in(these.keys(), nodes_of(*these), nodes_of(*those), i as int),
        decreases these.entries@.len() - i,
    {
        let entry = &these.entries[i];
        proof {
            these.lemma_at(i as int);
        }
        if !those.contains(entry.0.as_str()) {
            let ghost before = out@;
            let item = item_from_node(&entry.1);
            let ghost model = item@;
            out.push(item);
            proof {
                assert(items(out@) =~= items(before).push(model));
            }
        }
        i += 1;
    }
    out
}

/// Whether a report is the one of those two sides.
pub open spec fn reports(
    local: TextMap<DiffNode>,
    studio: TextMap<DiffNode>,
    report: DiffReport,
) -> bool {
    &&& report.ok
    &&& items(report.added@) == only_in(
        local.keys(),
        nodes_of(local),
        nodes_of(studio),
        local.keys().len() as int,
    )
    &&& items(report.removed@) == only_in(
        studio.keys(),
        nodes_of(studio),
        nodes_of(local),
        studio.keys().len() as int,
    )
    &&& changes(report.changed@) == changed_in(
        local.keys(),
        nodes_of(local),
        nodes_of(studio),
        local.keys().len() as int,
    )
    &&& report.summary.added == report.added@.len()
    &&& report.summary.removed == report.removed@.len()
    &&& report.summary.changed == report.changed@.len()
}

/// Compares what is on disk with what Studio has.
pub fn compare(local: &TextMap<DiffNode>, studio: &TextMap<DiffNode>) -> (report: DiffReport)
    requires
        local.wf(),
        studio.wf(),
    ensures
        reports(*local, *studio, report),
{
    let added = missing_from(local, studio);
    let removed = missing_from(studio, local);
    let mut changed: Vec<ChangedItem> = Vec::new();
    let mut i: usize = 0;
    while i < local.entries.len()
        invariant
            local.wf(),
            studio.wf(),
            i <= local.entries@.len(),
            changes(changed@) == changed_in(
                local.keys(),
                nodes_of(*local),
                nodes_of(*studio),
                i as int,
            ),
        decreases local.entries@.len() - i,
    {
        let entry = &local.entries[i];
        proof {
            local.lemma_at(i as int);
        }
        if let Some(other) = studio.get(entry.0.as_str()) {
            let class_changed = !same(entry.1.class.as_str(), other.class.as_str());
            let source_changed = entry.1.kind == DiffKind::Script && other.kind == DiffKind::Script
                && !same_source(&entry.1.source_hash, &other.source_hash);
            if class_changed || source_changed {
                let ghost before = changed@;
                let change = ChangedItem {
                    path: owned(entry.0.as_str()),
                    kind: entry.1.kind,
                    local_class: owned(entry.1.class.as_str()),
                    studio_class: owned(other.class.as_str()),
                    class_changed,
                    source_changed,
                };
                let ghost model = change@;
                changed.push(change);
                proof {
                    assert(changes(changed@) =~= changes(before).push(model));
                }
            }
        }
        i += 1;
    }
    DiffReport {
        ok: true,
        summary: DiffSummary {
            added: added.len(),
            removed: removed.len(),
            changed: changed.len(),
        },
        added,
        removed,
        changed,
    }
}

/// Whether two sides are in step: the same paths with the same classes, and
/// scripts with the same content.
pub open spec fn in_step(
    local: Map<Seq<char>, NodeModel>,
    studio: Map<Seq<char>, NodeModel>,
) -> bool {
    &&& forall|k: Seq<char>| #[trigger] local.contains_key(k) <==> studio.contains_key(k)
    &&& forall|k: Seq<char>| #[trigger]
        local.contains_key(k) && studio.contains_key(k) ==> !class_differs(local[k], studio[k])
            && !source_differs(local[k], studio[k])
}

proof fn lemma_only_in_empty(
    keys: Seq<Seq<char>>,
    these: Map<Seq<char>, NodeModel>,
    those: Map<Seq<char>, NodeModel>,
    n: int,
)
    requires
        0 <= n <= keys.len(),
    ensures
        only_in(keys, these, those, n).len() == 0 <==> forall|i: int|
            0 <= i < n ==> those.contains_key(#[trigger] keys[i]),
    decreases n,
{
    if n > 0 {
        lemma_only_in_empty(keys, these, those, n - 1);
        assert(keys[n - 1] == keys[n - 1]);
    }
}

proof fn lemma_changed_in_empty(
    keys: Seq<Seq<char>>,
    local: Map<Seq<char>, NodeModel>,
    studio: Map<Seq<char>, NodeModel>,
    n: int,
)
    requires
        0 <= n <= keys.len(),
    ensures
        changed_in(keys, local, studio, n).len() == 0 <==> forall|i: int|
            0 <= i < n && studio.contains_key(#[trigger] keys[i]) ==> !class_differs(
                local[keys[i]],
                studio[keys[i]],
            ) && !source_differs(local[keys[i]], studio[keys[i]]),
    decreases n,
{
    if n > 0 {
        lemma_changed_in_empty(keys, local, studio, n - 1);
        assert(keys[n - 1] == keys[n - 1]);
    }
}

/// A comparison finds nothing if and only if the two sides are in step.
pub proof fn law_clean_means_in_step(local: TextMap<DiffNode>, studio: TextMap<DiffNode>)
    requires
        local.wf(),
        studio.wf(),
    ensures
        in_step(nodes_of(local), nodes_of(studio)) <==> ({
            let l = nodes_of(local);
            let s = nodes_of(studio);
            &&& only_in(local.keys(), l, s, local.keys().len() as int).len() == 0
            &&& only_in(studio.keys(), s, l, studio.keys().len() as int).len() == 0
            &&& changed_in(local.keys(), l, s, local.keys().len() as int).len() == 0
        }),
{
    let l = nodes_of(local);
    let s = nodes_of(studio);
    let lk = local.keys();
    let sk = studio.keys();
    lemma_only_in_empty(lk, l, s, lk.len() as int);
    lemma_only_in_empty(sk, s, l, sk.len() as int);
    lemma_changed_in_empty(lk, l, s, lk.len() as int);
    if in_step(l, s) {
        assert forall|i: int| 0 <= i < lk.len() implies s.contains_key(#[trigger] lk[i]) by {
            assert(l.contains_key(lk[i]));
        }
        assert forall|i: int| 0 <= i < sk.len() implies l.contains_key(#[trigger] sk[i]) by {
            assert(s.contains_key(sk[i]));
        }
        assert forall|i: int| 0 <= i < lk.len() && s.contains_key(#[trigger] lk[i]) implies
            !class_differs(l[lk[i]], s[lk[i]]) && !source_differs(l[lk[i]], s[lk[i]]) by {
            assert(l.contains_key(lk[i]));
        }
    }
    if only_in(lk, l, s, lk.len() as int).len() == 0 && only_in(sk, s, l, sk.len() as int).len()
        == 0 && changed_in(lk, l, s, lk.len() as int).len() == 0 {
        assert forall|k: Seq<char>| #[trigger] l.contains_key(k) <==> s.contains_key(k) by {
            if l.contains_key(k) {
                let i = choose|i: int| 0 <= i < lk.len() && lk[i] == k;
                assert(s.contains_key(lk[i]));
            }
            if s.contains_key(k) {
                let i = choose|i: int| 0 <= i < sk.len() && sk[i] == k;
                assert(l.contains_key(sk[i]));
            }
        }
        assert forall|k: Seq<char>| #[trigger]
            l.contains_key(k) && s.contains_key(k) implies !class_differs(l[k], s[k])
            && !source_differs(l[k], s[k]) by {
            let i = choose|i: int| 0 <= i < lk.len() && lk[i] == k;
            assert(s.contains_key(lk[i]));
        }
    }
}

/// Every side is in step with itself.
pub proof fn law_in_step_with_itself(side: Map<Seq<char>, NodeModel>)
    ensures
        in_step(side, side),
{
}

/// Being in step does not depend on which side is which.
pub proof fn law_in_step_is_symmetric(
    local: Map<Seq<char>, NodeModel>,
    studio: Map<Seq<char>, NodeModel>,
)
    requires
        in_step(local, studio),
    ensures
        in_step(studio, local),
{
    assert forall|k: Seq<char>| #[trigger] studio.contains_key(k) <==> local.contains_key(k) by {
        assert(local.contains_key(k) <==> studio.contains_key(k));
    }
    assert forall|k: Seq<char>| #[trigger]
        studio.contains_key(k) && local.contains_key(k) implies !class_differs(
        studio[k],
        local[k],
    ) && !source_differs(studio[k], local[k]) by {
        assert(local.contains_key(k));
    }
}

pub open spec fn change_paths(v: Seq<ChangedModel>) -> Seq<Seq<char>> {
    Seq::new(v.len(), |i: int| v[i].path)
}

/// Whether a path is on both sides, with something else.
pub open spec fn is_changed(
    local: Map<Seq<char>, NodeModel>,
    studio: Map<Seq<char>, NodeModel>,
    k: Seq<char>,
) -> bool {
    &&& local.contains_key(k) && studio.contains_key(k)
    &&& class_differs(local[k], studio[k]) || source_differs(local[k], studio[k])
}

/// Whether a change is the one at its path.
pub open spec fn change_at(
    local: Map<Seq<char>, NodeModel>,
    studio: Map<Seq<char>, NodeModel>,
    c: ChangedModel,
) -> bool {
    let k = c.path;
    c == (ChangedModel {
        path: k,
        kind: local[k].kind,
        local_class: local[k].class,
        studio_class: studio[k].class,
        class_changed: class_differs(local[k], studio[k]),
        source_changed: source_differs(local[k], studio[k]),
    })
}

/// The changes are those of the changed paths, each once and in order.
proof fn lemma_changed_in(
    keys: Seq<Seq<char>>,
    local: Map<Seq<char>, NodeModel>,
    studio: Map<Seq<char>, NodeModel>,
    n: int,
)
    requires
        0 <= n <= keys.len(),
        text_map::ascending(keys),
        forall|i: int| 0 <= i < keys.len() ==> local.contains_key(#[trigger] keys[i]),
    ensures
        ({
            let out = changed_in(keys, local, studio, n);
            &&& text_map::ascending(change_paths(out))
            &&& forall|i: int| 0 <= i < out.len() ==> change_at(local, studio, #[trigger] out[i])
            &&& forall|x: Seq<char>| #[trigger]
                change_paths(out).contains(x) <==> keys.take(n).contains(x) && is_changed(
                    local,
                    studio,
                    x,
                )
        }),
    decreases n,
{
    let out = changed_in(keys, local, studio, n);
    if n > 0 {
        let before = changed_in(keys, local, studio, n - 1);
        let k = keys[n - 1];
        lemma_changed_in(keys, local, studio, n - 1);
        let was = keys.take(n - 1);
        let is = keys.take(n);
        assert(is =~= was.push(k));
        assert(local.contains_key(k));
        assert forall|x: Seq<char>| is.contains(x) <==> was.contains(x) || x == k by {
            if was.contains(x) {
                let i = choose|i: int| 0 <= i < was.len() && was[i] == x;
                assert(is[i] == x);
            }
            assert(is[n - 1] == k);
            if is.contains(x) {
                let i = choose|i: int| 0 <= i < is.len() && is[i] == x;
                if i < n - 1 {
                    assert(was[i] == x);
                }
            }
        }
        if is_changed(local, studio, k) {
            assert(change_paths(out) =~= change_paths(before).push(k));
            assert forall|i: int| 0 <= i < before.len() implies text_map::text_less(
                #[trigger] change_paths(before)[i],
                k,
            ) by {
                assert(change_paths(before).contains(change_paths(before)[i]));
                let j = choose|j: int| 0 <= j < was.len() && was[j] == change_paths(before)[i];
                assert(text_map::text_less(keys[j], keys[n - 1]));
            }
            assert forall|x: Seq<char>| #[trigger]
                change_paths(out).contains(x) <==> is.contains(x) && is_changed(
                    local,
                    studio,
                    x,
                ) by {
                assert(change_paths(before).contains(x) <==> was.contains(x) && is_changed(
                    local,
                    studio,
                    x,
                ));
                if change_paths(before).contains(x) {
                    let i = choose|i: int|
                        0 <= i < before.len() && change_paths(before)[i] == x;
                    assert(change_paths(out)[i] == x);
                }
                assert(change_paths(out)[before.len() as int] == k);
                if change_paths(out).contains(x) {
                    let i = choose|i: int| 0 <= i < out.len() && change_paths(out)[i] == x;
                    if i < before.len() {
                        assert(change_paths(before)[i] == x);
                    }
                }
            }
        } else {
            assert(out == before);
        }
    } else {
        assert(keys.take(0) =~= Seq::<Seq<char>>::empty());
        assert(change_paths(out) =~= Seq::<Seq<char>>::empty());
    }
}

/// The items are those of the keys that the other side lacks, each once and in
/// order: `at` holds these keys.
proof fn lemma_only_in(
    keys: Seq<Seq<char>>,
    these: Map<Seq<char>, NodeModel>,
    those: Map<Seq<char>, NodeModel>,
    n: int,
) -> (at: Seq<Seq<char>>)
    requires
        0 <= n <= keys.len(),
        text_map::ascending(keys),
    ensures
        at.len() == only_in(keys, these, those, n).len(),
        text_map::ascending(at),
        forall|i: int|
            0 <= i < at.len() ==> keys.take(n).contains(#[trigger] at[i]) && !those.contains_key(
                at[i],
            ) && only_in(keys, these, those, n)[i] == item_of(these[at[i]]),
        forall|i: int| 0 <= i < n && !those.contains_key(#[trigger] keys[i]) ==> at.contains(keys[i]),
    decreases n,
{
    if n <= 0 {
        Seq::empty()
    } else {
        let before = lemma_only_in(keys, these, those, n - 1);
        let k = keys[n - 1];
        let was = keys.take(n - 1);
        let is = keys.take(n);
        assert forall|x: Seq<char>| was.contains(x) implies is.contains(x) by {
            let i = choose|i: int| 0 <= i < was.len() && was[i] == x;
            assert(is[i] == x);
        }
        if those.contains_key(k) {
            assert forall|i: int| 0 <= i < n && !those.contains_key(#[trigger] keys[i]) implies
                before.contains(keys[i]) by {}
            before
        } else {
            let at = before.push(k);
            assert(is[n - 1] == k);
            assert forall|i: int| 0 <= i < before.len() implies text_map::text_less(
                #[trigger] before[i],
                k,
            ) by {
                let j = choose|j: int| 0 <= j < was.len() && was[j] == before[i];
                assert(text_map::text_less(keys[j], keys[n - 1]));
            }
            assert forall|i: int| 0 <= i < n && !those.contains_key(#[trigger] keys[i]) implies
                at.contains(keys[i]) by {
                if i < n - 1 {
                    assert(before.contains(keys[i]));
                    let j = choose|j: int| 0 <= j < before.len() && before[j] == keys[i];
                    assert(at[j] == keys[i]);
                } else {
                    assert(at[before.len() as int] == k);
                }
            }
            at
        }
    }
}

/// What is on disk and not in Studio is listed as added, what is in Studio and
/// not on disk as removed: each such path once, in order, with the class and the
/// kind that it has there, and nothing else.
pub proof fn law_one_sided_paths_are_listed(
    local: TextMap<DiffNode>,
    studio: TextMap<DiffNode>,
    report: DiffReport,
)
    requires
        local.wf(),
        studio.wf(),
        reports(local, studio, report),
    ensures
        exists|at: Seq<Seq<char>>|
            {
                &&& #[trigger] at.len() == report.added@.len()
                &&& forall|i: int, j: int|
                    0 <= i < j < at.len() ==> text_map::text_less(#[trigger] at[i], #[trigger] at[j])
                &&& forall|i: int|
                    0 <= i < at.len() ==> {
                        &&& local@.contains_key(#[trigger] at[i]) && !studio@.contains_key(at[i])
                        &&& report.added@[i].path@ == local@[at[i]].path@
                        &&& report.added@[i].class@ == local@[at[i]].class@
                        &&& report.added@[i].kind == local@[at[i]].kind
                    }
                &&& forall|k: Seq<char>| #[trigger]
                    local@.contains_key(k) && !studio@.contains_key(k) ==> at.contains(k)
            },
        exists|at: Seq<Seq<char>>|
            {
                &&& #[trigger] at.len() == report.removed@.len()
                &&& forall|i: int, j: int|
                    0 <= i < j < at.len() ==> text_map::text_less(#[trigger] at[i], #[trigger] at[j])
                &&& forall|i: int|
                    0 <= i < at.len() ==> {
                        &&& studio@.contains_key(#[trigger] at[i]) && !local@.contains_key(at[i])
                        &&& report.removed@[i].path@ == studio@[at[i]].path@
                        &&& report.removed@[i].class@ == studio@[at[i]].class@
                        &&& report.removed@[i].kind == studio@[at[i]].kind
                    }
                &&& forall|k: Seq<char>| #[trigger]
                    studio@.contains_key(k) && !local@.contains_key(k) ==> at.contains(k)
            },
        report.summary.added == report.added@.len(),
        report.summary.removed == report.removed@.len(),
{
    let l = nodes_of(local);
    let s = nodes_of(studio);
    let lk = local.keys();
    let sk = studio.keys();
    let added = lemma_only_in(lk, l, s, lk.len() as int);
    let removed = lemma_only_in(sk, s, l, sk.len() as int);
    assert(lk.take(lk.len() as int) =~= lk);
    assert(sk.take(sk.len() as int) =~= sk);
    assert(items(report.added@).len() == report.added@.len());
    assert(items(report.removed@).len() == report.removed@.len());
    assert forall|i: int| 0 <= i < added.len() implies ({
        &&& local@.contains_key(#[trigger] added[i]) && !studio@.contains_key(added[i])
        &&& report.added@[i].path@ == local@[added[i]].path@
        &&& report.added@[i].class@ == local@[added[i]].class@
        &&& report.added@[i].kind == local@[added[i]].kind
    }) by {
        assert(items(report.added@)[i] == report.added@[i]@);
    }
    assert forall|k: Seq<char>| #[trigger]
        local@.contains_key(k) && !studio@.contains_key(k) implies added.contains(k) by {
        let i = choose|i: int| 0 <= i < lk.len() && lk[i] == k;
        assert(!s.contains_key(lk[i]));
    }
    assert forall|i: int| 0 <= i < removed.len() implies ({
        &&& studio@.contains_key(#[trigger] removed[i]) && !local@.contains_key(removed[i])
        &&& report.removed@[i].path@ == studio@[removed[i]].path@
        &&& report.removed@[i].class@ == studio@[removed[i]].class@
        &&& report.removed@[i].kind == studio@[removed[i]].kind
    }) by {
        assert(items(report.removed@)[i] == report.removed@[i]@);
    }
    assert forall|k: Seq<char>| #[trigger]
        studio@.contains_key(k) && !local@.contains_key(k) implies removed.contains(k) by {
        let i = choose|i: int| 0 <= i < sk.len() && sk[i] == k;
        assert(!l.contains_key(sk[i]));
    }
    assert(added.len() == report.added@.len());
    assert(removed.len() == report.removed@.len());
}

/// A path that both sides have is listed as changed exactly where its classes
/// differ, or both sides have a script there and the digests of the two sources
/// differ, whatever the classes of the scripts. The entry says which of the two
/// it is, and with which classes.
pub proof fn law_every_change_is_listed(
    local: TextMap<DiffNode>,
    studio: TextMap<DiffNode>,
    report: DiffReport,
    k: Seq<char>,
)
    requires
        local.wf(),
        studio.wf(),
        reports(local, studio, report),
    ensures
        ({
            let l = local@[k];
            let s = studio@[k];
            let same_digest = match (l.source_hash, s.source_hash) {
                (Some(x), Some(y)) => x@ == y@,
                (None, None) => true,
                _ => false,
            };
            let edited = l.kind == DiffKind::Script && s.kind == DiffKind::Script && !same_digest;
            let listed = exists|i: int|
                0 <= i < report.changed@.len() && (#[trigger] report.changed@[i]).path@ == k;
            &&& listed == (local@.contains_key(k) && studio@.contains_key(k) && (l.class@
                != s.class@ || edited))
            &&& forall|i: int|
                0 <= i < report.changed@.len() && (#[trigger] report.changed@[i]).path@ == k ==> {
                    let c = report.changed@[i];
                    &&& c.class_changed == (l.class@ != s.class@)
                    &&& c.source_changed == edited
                    &&& c.local_class@ == l.class@ && c.studio_class@ == s.class@
                    &&& c.kind == l.kind
                }
            &&& listed ==> report.summary.changed > 0 && !in_step(
                nodes_of(local),
                nodes_of(studio),
            )
        }),
        forall|i: int, j: int|
            0 <= i < j < report.changed@.len() ==> text_map::text_less(
                (#[trigger] report.changed@[i]).path@,
                (#[trigger] report.changed@[j]).path@,
            ),
        report.summary.changed == report.changed@.len(),
{
    let left = nodes_of(local);
    let right = nodes_of(studio);
    let keys = local.keys();
    let p = changes(report.changed@);
    assert forall|i: int| 0 <= i < keys.len() implies left.contains_key(#[trigger] keys[i]) by {
        local.lemma_at(i);
    }
    lemma_changed_in(keys, left, right, keys.len() as int);
    assert(keys.take(keys.len() as int) =~= keys);
    assert(p.len() == report.changed@.len());
    assert forall|i: int| 0 <= i < p.len() implies p[i] == (#[trigger] report.changed@[i])@ by {}
    assert(change_paths(p).contains(k) <==> keys.contains(k) && is_changed(left, right, k));
    assert(left.contains_key(k) <==> keys.contains(k));
    if exists|i: int|
        0 <= i < report.changed@.len() && (#[trigger] report.changed@[i]).path@ == k {
        let i = choose|i: int|
            0 <= i < report.changed@.len() && (#[trigger] report.changed@[i]).path@ == k;
        assert(change_paths(p)[i] == k);
        assert(left.contains_key(k) && right.contains_key(k));
    }
    if change_paths(p).contains(k) {
        let i = choose|i: int| 0 <= i < p.len() && change_paths(p)[i] == k;
        assert(report.changed@[i].path@ == k);
    }
    assert forall|i: int|
        0 <= i < report.changed@.len() && (#[trigger] report.changed@[i]).path@ == k implies ({
        let c = report.changed@[i];
        change_at(left, right, c@)
    }) by {
        assert(change_at(left, right, p[i]));
    }
    assert forall|i: int, j: int| 0 <= i < j < report.changed@.len() implies text_map::text_less(
        (#[trigger] report.changed@[i]).path@,
        (#[trigger] report.changed@[j]).path@,
    ) by {
        assert(text_map::text_less(change_paths(p)[i], change_paths(p)[j]));
    }
}

/// Nothing is reported exactly where both sides have the same paths, with the
/// same class at each, and the same digest wherever both have a script.
pub proof fn law_nothing_to_report_means_no_difference(
    local: TextMap<DiffNode>,
    studio: TextMap<DiffNode>,
    report: DiffReport,
)
    requires
        local.wf(),
        studio.wf(),
        reports(local, studio, report),
    ensures
        (report.summary.added == 0 && report.summary.removed == 0 && report.summary.changed == 0)
            <==> ({
            &&& forall|k: Seq<char>| #[trigger] local@.contains_key(k) == studio@.contains_key(k)
            &&& forall|k: Seq<char>| #[trigger]
                local@.contains_key(k) && studio@.contains_key(k) ==> {
                    &&& local@[k].class@ == studio@[k].class@
                    &&& local@[k].kind == DiffKind::Script && studio@[k].kind == DiffKind::Script
                        ==> match (local@[k].source_hash, studio@[k].source_hash) {
                        (Some(x), Some(y)) => x@ == y@,
                        (None, None) => true,
                        _ => false,
                    }
                }
        }),
{
    let l = nodes_of(local);
    let s = nodes_of(studio);
    law_clean_means_in_step(local, studio);
    assert(items(report.added@).len() == report.added@.len());
    assert(items(report.removed@).len() == report.removed@.len());
    assert(changes(report.changed@).len() == report.changed@.len());
    assert forall|k: Seq<char>| #[trigger] l.contains_key(k) == local@.contains_key(k) by {}
    assert forall|k: Seq<char>| #[trigger] s.contains_key(k) == studio@.contains_key(k) by {}
    if in_step(l, s) {
        assert forall|k: Seq<char>| #[trigger] local@.contains_key(k) == studio@.contains_key(k) by {
            assert(l.contains_key(k) <==> s.contains_key(k));
        }
        assert forall|k: Seq<char>| #[trigger]
            local@.contains_key(k) && studio@.contains_key(k) implies !class_differs(l[k], s[k])
            && !source_differs(l[k], s[k]) by {
            assert(l.contains_key(k));
        }
    }
}

/// Whether two changes say the same with the sides swapped.
pub open spec fn mirrored(a: ChangedModel, b: ChangedModel) -> bool {
    &&& a.path == b.path
    &&& a.class_changed == b.class_changed && a.source_changed == b.source_changed
    &&& a.local_class == b.studio_class && a.studio_class == b.local_class
}

/// With the two sides swapped a comparison is mirrored: what was added is
/// removed, and the same paths are changed, in the same order.
pub proof fn law_swapped_sides_mirror_the_report(
    a: TextMap<DiffNode>,
    b: TextMap<DiffNode>,
    x: DiffReport,
    y: DiffReport,
)
    requires
        a.wf(),
        b.wf(),
        reports(a, b, x),
        reports(b, a, y),
    ensures
        items(y.added@) == items(x.removed@),
        items(y.removed@) == items(x.added@),
        changes(y.changed@).len() == changes(x.changed@).len(),
        forall|i: int|
            0 <= i < changes(x.changed@).len() ==> mirrored(
                #[trigger] changes(x.changed@)[i],
                changes(y.changed@)[i],
            ),
{
    let p = changes(x.changed@);
    let q = changes(y.changed@);
    let left = nodes_of(a);
    let right = nodes_of(b);
    assert forall|i: int| 0 <= i < a.keys().len() implies left.contains_key(
        #[trigger] a.keys()[i],
    ) by {
        a.lemma_at(i);
    }
    assert forall|i: int| 0 <= i < b.keys().len() implies right.contains_key(
        #[trigger] b.keys()[i],
    ) by {
        b.lemma_at(i);
    }
    lemma_changed_in(a.keys(), left, right, a.keys().len() as int);
    lemma_changed_in(b.keys(), right, left, b.keys().len() as int);
    assert(a.keys().take(a.keys().len() as int) =~= a.keys());
    assert(b.keys().take(b.keys().len() as int) =~= b.keys());
    assert forall|k: Seq<char>| change_paths(p).contains(k) <==> change_paths(q).contains(k) by {
        assert(left.contains_key(k) <==> a.keys().contains(k));
        assert(right.contains_key(k) <==> b.keys().contains(k));
        assert(is_changed(left, right, k) <==> is_changed(right, left, k));
    }
    text_map::lemma_ascending_unique(change_paths(p), change_paths(q));
    assert(change_paths(p).len() == p.len() && change_paths(q).len() == q.len());
    assert forall|i: int| 0 <= i < p.len() implies mirrored(#[trigger] p[i], q[i]) by {
        assert(change_paths(p)[i] == change_paths(q)[i]);
        assert(change_at(left, right, p[i]));
        assert(change_at(right, left, q[i]));
    }
}

/// A source with CRLF line endings has the digest of the same source with LF.
pub proof fn law_line_endings_do_not_matter(crlf: Seq<char>, lf: Seq<char>)
    requires
        encode_utf8(crlf) == fs_map::with_carriage_returns(encode_utf8(lf)),
        !encode_utf8(lf).contains(13u8),
    ensures
        survey::text_digest(crlf) == survey::text_digest(lf),
{
    fs_map::law_normalized_undoes_carriage_returns(encode_utf8(lf));
    fs_map::law_normalized_keeps_plain_text(encode_utf8(lf));
}

} // verus!
