//! Names that Studio reserves without synchronising them.
//!
//! A subtree that is not synchronised still keeps its generated name from its
//! siblings. The markers are laid over the tree that was read from disk, so
//! that both sides allocate names alike.
use vstd::prelude::*;

use crate::fs_safety;
use crate::fs_safety::join_path;
use crate::text;
use crate::text::{lower_text, owned, same};
use crate::text_map::TextMap;
use crate::tree;
use crate::tree::{Tree, TreeNode};

verus! {

/// Whether a node or one below it is marked.
pub open spec fn marked(t: Seq<TreeNode>, i: int) -> bool
    decreases t.len() - i,
{
    0 <= i < t.len() && (t[i].is_reservation() || exists|a: int|
        0 <= a < t[i].children@.len() && i < #[trigger] t[i].children@[a] < t.len() && marked(
            t,
            t[i].children@[a] as int,
        ))
}

/// For each node whether it or one below it is marked.
pub fn reservation_subtree_ids(t: &Tree) -> (out: Vec<bool>)
    requires
        t.wf(),
    ensures
        out@.len() == t.nodes@.len(),
        forall|i: int| 0 <= i < out@.len() ==> #[trigger] out@[i] == marked(t.nodes@, i),
{
    let n: usize = t.nodes.len();
    let mut reversed: Vec<bool> = Vec::new();
    let mut i: usize = n;
    while i > 0
        invariant
            i <= n,
            n == t.nodes@.len(),
            t.wf(),
            reversed@.len() == n - i,
            forall|k: int|
                0 <= k < reversed@.len() ==> #[trigger] reversed@[k] == marked(
                    t.nodes@,
                    n - 1 - k,
                ),
        decreases i,
    {
        i -= 1;
        let node = &t.nodes[i];
        let mut mark = node.avoid_sync || node.avoid_sync_carrier;
        let mut a: usize = 0;
        while a < node.children.len()
            invariant
                a <= node.children@.len(),
                i < n,
                n == t.nodes@.len(),
                t.wf(),
                *node == t.nodes@[i as int],
                reversed@.len() == n - i - 1,
                forall|k: int|
                    0 <= k < reversed@.len() ==> #[trigger] reversed@[k] == marked(
                        t.nodes@,
                        n - 1 - k,
                    ),
                mark == (node.is_reservation() || exists|b: int|
                    0 <= b < a && i < #[trigger] node.children@[b] < t.nodes@.len() && marked(
                        t.nodes@,
                        node.children@[b] as int,
                    )),
            decreases node.children@.len() - a,
        {
            let c: usize = node.children[a];
            assert(i < t.nodes@[i as int].children@[a as int] < t.nodes@.len());
            let below = reversed[n - 1 - c];
            assert(below == marked(t.nodes@, c as int));
            if below {
                assert(i < node.children@[a as int] < t.nodes@.len() && marked(
                    t.nodes@,
                    node.children@[a as int] as int,
                ));
                mark = true;
            }
            a += 1;
        }
        reversed.push(mark);
    }
    let mut out: Vec<bool> = Vec::new();
    let mut j: usize = 0;
    while j < n
        invariant
            j <= n,
            n == t.nodes@.len(),
            reversed@.len() == n,
            out@.len() == j,
            forall|k: int| 0 <= k < n ==> #[trigger] reversed@[k] == marked(t.nodes@, n - 1 - k),
            forall|k: int| 0 <= k < j ==> #[trigger] out@[k] == marked(t.nodes@, k),
        decreases n - j,
    {
        assert(reversed@[n - 1 - j] == marked(t.nodes@, j as int));
        out.push(reversed[n - 1 - j]);
        j += 1;
    }
    out
}

/// The file names that a node in Studio is given, each with whether it is a
/// directory.
#[derive(Debug)]
pub struct PlannedChild {
    pub node: usize,
    pub fragments: Vec<(String, bool)>,
}

/// What a planned child comes to.
#[derive(Debug, Clone, Copy)]
pub struct Placement {
    /// The node in the tree from disk.
    pub local: usize,
    /// The place of its file name among the planned ones.
    pub fragment: usize,
    /// The node was added to the tree from disk.
    pub added: bool,
}

pub open spec fn first_known(known: Map<Seq<char>, usize>, fragments: Seq<(String, bool)>, k: int) -> Option<
    int,
>
    decreases fragments.len() - k,
{
    if k < 0 || k >= fragments.len() {
        None
    } else if known.contains_key(text::lower(fragments[k].0@)) {
        Some(k)
    } else {
        first_known(known, fragments, k + 1)
    }
}

/// The nodes of the tree from disk by folded file name, and how many nodes the
/// tree has.
#[verifier::ext_equal]
pub struct Shelf {
    pub known: Map<Seq<char>, usize>,
    pub count: int,
}

/// Where a planned child goes, and the shelf after it.
pub open spec fn place_child(
    shelf: Shelf,
    studio: Seq<TreeNode>,
    child: PlannedChild,
) -> (Option<Placement>, Shelf) {
    let node = studio[child.node as int];
    let at = first_known(shelf.known, child.fragments@, 0);
    if !marked(studio, child.node as int) {
        (None, shelf)
    } else if at is Some {
        (
            Some(
                Placement {
                    local: shelf.known[text::lower(child.fragments@[at->0].0@)],
                    fragment: at->0 as usize,
                    added: false,
                },
            ),
            shelf,
        )
    } else if node.is_reservation() && child.fragments@.len() > 0 {
        (
            Some(Placement { local: shelf.count as usize, fragment: 0, added: true }),
            Shelf {
                known: shelf.known.insert(
                    text::lower(child.fragments@[0].0@),
                    shelf.count as usize,
                ),
                count: shelf.count + 1,
            },
        )
    } else {
        (None, shelf)
    }
}

/// Where the first `n` planned children go.
pub open spec fn placements(
    shelf: Shelf,
    studio: Seq<TreeNode>,
    plan: Seq<PlannedChild>,
    n: int,
) -> (Seq<Option<Placement>>, Shelf)
    decreases n,
{
    if n <= 0 {
        (Seq::empty(), shelf)
    } else {
        let before = placements(shelf, studio, plan, n - 1);
        let here = place_child(before.1, studio, plan[n - 1]);
        (before.0.push(here.0), here.1)
    }
}

/// Whether a planned child that must be added has no file name.
pub open spec fn lacks_fragment(shelf: Shelf, studio: Seq<TreeNode>, child: PlannedChild) -> bool {
    &&& marked(studio, child.node as int)
    &&& studio[child.node as int].is_reservation()
    &&& child.fragments@.len() == 0
}

/// The file names of the first `n` children of a node; of equal ones the later
/// counts.
pub open spec fn shelved(t: Seq<TreeNode>, parent: int, n: int) -> Map<Seq<char>, usize>
    decreases n,
{
    if n <= 0 {
        Map::empty()
    } else {
        let before = shelved(t, parent, n - 1);
        let child = t[parent].children@[n - 1];
        match t[child as int].disk_fragment {
            Some(fragment) => before.insert(text::lower(fragment@), child),
            None => before,
        }
    }
}

/// Whether only the markers of a node were changed, as `boundary` and
/// `carrier` say.
pub open spec fn remarked(a: TreeNode, b: TreeNode, boundary: bool, carrier: bool) -> bool {
    b == (TreeNode {
        avoid_sync: a.avoid_sync || boundary,
        avoid_sync_carrier: a.avoid_sync_carrier || carrier,
        ..a
    })
}

/// Whether a node added for a Studio node says what it does, but for its
/// markers.
pub open spec fn reserved_copy(studio: TreeNode, fragment: (String, bool), local: TreeNode) -> bool {
    &&& local.class_text() == studio.class_text()
    &&& local.name_text() == studio.name_text()
    &&& text::option_text(local.source) == text::option_text(studio.source)
    &&& local.truncated == studio.truncated
    &&& local.has_children == studio.has_children
    &&& local.source_included == studio.source_included
    &&& local.stream_id == studio.stream_id
    &&& text::option_text(local.disk_fragment) == Some(fragment.0@)
    &&& local.disk_fragment_is_dir == Some(fragment.1)
    &&& local.children@.len() == 0
}

fn copy_text(o: &Option<String>) -> (out: Option<String>)
    ensures
        text::option_text(out) == text::option_text(*o),
{
    match o {
        Some(s) => Some(owned(s.as_str())),
        None => None,
    }
}

fn reserve(studio: &TreeNode, fragment: &(String, bool)) -> (n: TreeNode)
    ensures
        reserved_copy(*studio, *fragment, n),
        n.avoid_sync == studio.avoid_sync,
        n.avoid_sync_carrier == studio.avoid_sync_carrier,
{
    TreeNode {
        class: copy_text(&studio.class),
        name: copy_text(&studio.name),
        avoid_sync: studio.avoid_sync,
        avoid_sync_carrier: studio.avoid_sync_carrier,
        truncated: studio.truncated,
        source: copy_text(&studio.source),
        disk_fragment: Some(owned(fragment.0.as_str())),
        disk_fragment_is_dir: Some(fragment.1),
        has_children: studio.has_children,
        source_included: studio.source_included,
        stream_id: studio.stream_id,
        children: Vec::new(),
    }
}

/// Whether one of the first `n` planned children marks the node `i` as not
/// synchronised.
pub open spec fn bounded_at(
    placed: Seq<Option<Placement>>,
    studio: Seq<TreeNode>,
    plan: Seq<PlannedChild>,
    i: int,
    n: int,
) -> bool {
    exists|k: int|
        0 <= k < n && (#[trigger] placed[k]) is Some && placed[k]->0.local == i
            && studio[plan[k].node as int].avoid_sync
}

/// Whether one of them marks it as a carrier.
pub open spec fn carried_at(
    placed: Seq<Option<Placement>>,
    studio: Seq<TreeNode>,
    plan: Seq<PlannedChild>,
    i: int,
    n: int,
) -> bool {
    exists|k: int|
        0 <= k < n && (#[trigger] placed[k]) is Some && placed[k]->0.local == i
            && !studio[plan[k].node as int].avoid_sync
            && studio[plan[k].node as int].avoid_sync_carrier
}

/// Whether `now` is the tree `first` with the first `k` planned children laid
/// over the children of `parent`, which went to `placed`.
#[verifier::opaque]
pub open spec fn overlaid(
    first: Seq<TreeNode>,
    now: Seq<TreeNode>,
    parent: int,
    studio: Seq<TreeNode>,
    plan: Seq<PlannedChild>,
    placed: Seq<Option<Placement>>,
    k: int,
) -> bool {
    &&& first.len() <= now.len()
    &&& placed.len() == k
    &&& forall|j: int|
        0 <= j < k && (#[trigger] placed[j]) is Some ==> parent < placed[j]->0.local < now.len()
    &&& now[parent] == (TreeNode { children: now[parent].children, ..first[parent] })
    &&& now[parent].children@ == first[parent].children@ + Seq::new(
        (now.len() - first.len()) as nat,
        |j: int| (first.len() + j) as usize,
    )
    &&& forall|i: int|
        0 <= i < first.len() && i != parent ==> remarked(
            first[i],
            #[trigger] now[i],
            bounded_at(placed, studio, plan, i, k),
            carried_at(placed, studio, plan, i, k),
        )
    &&& forall|j: int|
        0 <= j < k && (#[trigger] placed[j]) is Some && placed[j]->0.added ==> {
            let i = placed[j]->0.local as int;
            &&& first.len() <= i
            &&& reserved_copy(studio[plan[j].node as int], plan[j].fragments@[0], now[i])
            &&& now[i].avoid_sync == bounded_at(placed, studio, plan, i, k)
            &&& now[i].avoid_sync_carrier == (studio[plan[j].node as int].avoid_sync_carrier
                || carried_at(placed, studio, plan, i, k))
        }
    &&& forall|i: int|
        first.len() <= i < now.len() ==> (#[trigger] now[i]).is_reservation()
}

/// The tree from disk as a shelf.
pub open spec fn shelf_of(t: Seq<TreeNode>, parent: int) -> Shelf {
    Shelf {
        known: shelved(t, parent, t[parent].children@.len() as int),
        count: t.len() as int,
    }
}

/// Lays the planned children of a Studio node over the children of the node
/// `parent` from disk. Gives where they went, or nothing where one that must
/// be added has no file name.
#[verifier::spinoff_prover]
#[verifier::rlimit(40)]
pub fn overlay_local_avoid_sync_children(
    local: &mut Tree,
    parent: usize,
    studio: &Tree,
    marks: &Vec<bool>,
    plan: &Vec<PlannedChild>,
) -> (r: Option<Vec<Option<Placement>>>)
    requires
        old(local).wf(),
        studio.wf(),
        parent < old(local).nodes@.len(),
        old(local).nodes@.len() + plan@.len() < usize::MAX,
        marks@.len() == studio.nodes@.len(),
        forall|i: int| 0 <= i < marks@.len() ==> #[trigger] marks@[i] == marked(studio.nodes@, i),
        forall|k: int|
            0 <= k < plan@.len() ==> (#[trigger] plan@[k]).node < studio.nodes@.len(),
    ensures
        final(local).wf(),
        ({
            let start = shelf_of(old(local).nodes@, parent as int);
            let all = placements(start, studio.nodes@, plan@, plan@.len() as int);
            match r {
                None => exists|k: int|
                    0 <= k < plan@.len() && lacks_fragment(
                        placements(start, studio.nodes@, plan@, k).1,
                        studio.nodes@,
                        #[trigger] plan@[k],
                    ),
                Some(out) => {
                    &&& out@ == all.0
                    &&& forall|k: int|
                        0 <= k < plan@.len() ==> !lacks_fragment(
                            placements(start, studio.nodes@, plan@, k).1,
                            studio.nodes@,
                            #[trigger] plan@[k],
                        )
                    &&& final(local).nodes@.len() == all.1.count
                    &&& overlaid(
                        old(local).nodes@,
                        final(local).nodes@,
                        parent as int,
                        studio.nodes@,
                        plan@,
                        all.0,
                        plan@.len() as int,
                    )
                },
            }
        }),
{
    let ghost first = local.nodes@;
    let ghost start = shelf_of(first, parent as int);
    let mut known = shelve(local, parent);
    let mut out: Vec<Option<Placement>> = Vec::new();
    let mut k: usize = 0;
    proof {
        assert(out@ =~= placements(start, studio.nodes@, plan@, 0).0);
        lemma_nothing_overlaid(first, parent as int, studio.nodes@, plan@);
        assert(out@ =~= Seq::<Option<Placement>>::empty());
    }
    while k < plan.len()
        invariant
            k <= plan@.len(),
            studio.wf(),
            marks@.len() == studio.nodes@.len(),
            forall|i: int|
                0 <= i < marks@.len() ==> #[trigger] marks@[i] == marked(studio.nodes@, i),
            forall|j: int|
                0 <= j < plan@.len() ==> (#[trigger] plan@[j]).node < studio.nodes@.len(),
            local.wf(),
            parent < first.len() <= local.nodes@.len(),
            local.nodes@.len() <= first.len() + k,
            first.len() + plan@.len() < usize::MAX,
            known.wf(),
            known@ == placements(start, studio.nodes@, plan@, k as int).1.known,
            local.nodes@.len() == placements(start, studio.nodes@, plan@, k as int).1.count,
            out@ == placements(start, studio.nodes@, plan@, k as int).0,
            out@.len() == k,
            forall|key: Seq<char>| #[trigger]
                known@.contains_key(key) ==> parent < known@[key] < local.nodes@.len(),
            forall|j: int|
                0 <= j < k ==> !lacks_fragment(
                    placements(start, studio.nodes@, plan@, j).1,
                    studio.nodes@,
                    #[trigger] plan@[j],
                ),
            overlaid(first, local.nodes@, parent as int, studio.nodes@, plan@, out@, k as int),
            first == old(local).nodes@,
            start == shelf_of(first, parent as int),
        decreases plan@.len() - k,
    {
        let child = &plan[k];
        let ghost out_before = out@;
        let ghost nodes_before = local.nodes@;
        match place_one(local, parent, studio, marks[child.node], child, &mut known) {
            None => {
                return None;
            },
            Some(place) => {
                out.push(place);
            },
        }
        proof {
            assert(out@ =~= out_before.push(out@[k as int]));
            lemma_overlay_step(
                first,
                nodes_before,
                local.nodes@,
                parent as int,
                studio.nodes@,
                plan@,
                out_before,
                out@,
                k as int,
            );
        }
        k += 1;
    }
    Some(out)
}

/// The children of a node by folded file name.
fn shelve(local: &Tree, parent: usize) -> (known: TextMap<usize>)
    requires
        local.wf(),
        parent < local.nodes@.len(),
    ensures
        known.wf(),
        known@ == shelf_of(local.nodes@, parent as int).known,
        forall|key: Seq<char>| #[trigger]
            known@.contains_key(key) ==> parent < known@[key] < local.nodes@.len(),
{
    let mut known: TextMap<usize> = TextMap::new();
    let node = &local.nodes[parent];
    let mut a: usize = 0;
    while a < node.children.len()
        invariant
            parent < local.nodes@.len(),
            local.wf(),
            *node == local.nodes@[parent as int],
            a <= node.children@.len(),
            known.wf(),
            known@ == shelved(local.nodes@, parent as int, a as int),
            forall|key: Seq<char>| #[trigger]
                known@.contains_key(key) ==> parent < known@[key] < local.nodes@.len(),
        decreases node.children@.len() - a,
    {
        let child: usize = node.children[a];
        assert(parent < local.nodes@[parent as int].children@[a as int] < local.nodes@.len());
        if let Some(fragment) = &local.nodes[child].disk_fragment {
            let folded = lower_text(fragment.as_str());
            known.insert(folded, child);
        }
        a += 1;
    }
    known
}

/// Whether `now` is `before` with one planned child laid over the children of
/// `parent`, which went to `place`.
#[verifier::opaque]
pub open spec fn overlaid_one(
    before: Seq<TreeNode>,
    now: Seq<TreeNode>,
    parent: int,
    studio: TreeNode,
    child: PlannedChild,
    place: Option<Placement>,
) -> bool {
    let boundary = studio.avoid_sync;
    let carrier = !studio.avoid_sync && studio.avoid_sync_carrier;
    match place {
        None => now == before,
        Some(p) => {
            &&& parent < p.local < now.len()
            &&& now.len() == before.len() + (if p.added {
                1int
            } else {
                0int
            })
            &&& p.added ==> p.local == before.len() && studio.is_reservation() && reserved_copy(
                studio,
                child.fragments@[0],
                now[p.local as int],
            ) && now[p.local as int].avoid_sync == studio.avoid_sync
                && now[p.local as int].avoid_sync_carrier == studio.avoid_sync_carrier
            &&& forall|i: int|
                0 <= i < before.len() && i != parent ==> remarked(
                    before[i],
                    #[trigger] now[i],
                    p.local == i && boundary,
                    p.local == i && carrier,
                )
            &&& now[parent] == (TreeNode { children: now[parent].children, ..before[parent] })
            &&& now[parent].children@ == (if p.added {
                before[parent].children@.push(p.local)
            } else {
                before[parent].children@
            })
        },
    }
}

fn place_one(
    local: &mut Tree,
    parent: usize,
    studio: &Tree,
    mark: bool,
    child: &PlannedChild,
    known: &mut TextMap<usize>,
) -> (r: Option<Option<Placement>>)
    requires
        old(local).wf(),
        parent < old(local).nodes@.len(),
        old(local).nodes@.len() < usize::MAX,
        child.node < studio.nodes@.len(),
        mark == marked(studio.nodes@, child.node as int),
        old(known).wf(),
        forall|key: Seq<char>| #[trigger]
            old(known)@.contains_key(key) ==> parent < old(known)@[key] < old(local).nodes@.len(),
    ensures
        final(local).wf(),
        final(known).wf(),
        ({
            let shelf = Shelf { known: old(known)@, count: old(local).nodes@.len() as int };
            match r {
                None => lacks_fragment(shelf, studio.nodes@, *child),
                Some(place) => {
                    &&& !lacks_fragment(shelf, studio.nodes@, *child)
                    &&& (
                        place,
                        Shelf { known: final(known)@, count: final(local).nodes@.len() as int },
                    ) == place_child(shelf, studio.nodes@, *child)
                    &&& final(local).nodes@.len() <= old(local).nodes@.len() + 1
                    &&& forall|key: Seq<char>| #[trigger]
                        final(known)@.contains_key(key) ==> parent < final(known)@[key]
                            < final(local).nodes@.len()
                    &&& overlaid_one(
                        old(local).nodes@,
                        final(local).nodes@,
                        parent as int,
                        studio.nodes@[child.node as int],
                        *child,
                        place,
                    )
                },
            }
        }),
{
    let ghost first = local.nodes@;
    proof {
        reveal(overlaid_one);
    }
    let node = &studio.nodes[child.node];
    if !mark {
        return Some(None);
    }
    let reserves = node.avoid_sync || node.avoid_sync_carrier;
    if reserves && child.fragments.len() == 0 {
        return None;
    }
    let place = match find_known(known, &child.fragments) {
        Some(at) => {
            let folded = lower_text(child.fragments[at].0.as_str());
            match known.get(folded.as_str()) {
                Some(found) => Placement { local: *found, fragment: at, added: false },
                None => return Some(None),
            }
        },
        None => {
            if !reserves {
                return Some(None);
            }
            let copy = reserve(node, &child.fragments[0]);
            let id: usize = local.add_node(Some(parent), copy);
            known.insert(lower_text(child.fragments[0].0.as_str()), id);
            Placement { local: id, fragment: 0, added: true }
        },
    };
    let ghost added = local.nodes@;
    if node.avoid_sync {
        local.nodes[place.local].avoid_sync = true;
    } else if node.avoid_sync_carrier {
        local.nodes[place.local].avoid_sync_carrier = true;
    }
    proof {
        lemma_same_shape(added, local.nodes@);
        assert forall|i: int| 0 <= i < first.len() && i != parent implies remarked(
            first[i],
            #[trigger] local.nodes@[i],
            place.local == i && node.avoid_sync,
            place.local == i && !node.avoid_sync && node.avoid_sync_carrier,
        ) by {
            assert(added[i] == first[i]);
        }
    }
    Some(Some(place))
}

proof fn lemma_nothing_overlaid(
    first: Seq<TreeNode>,
    parent: int,
    studio: Seq<TreeNode>,
    plan: Seq<PlannedChild>,
)
    requires
        0 <= parent < first.len(),
    ensures
        overlaid(first, first, parent, studio, plan, Seq::empty(), 0),
{
    reveal(overlaid);
    assert(first[parent].children@ =~= first[parent].children@ + Seq::new(
        0nat,
        |j: int| (first.len() + j) as usize,
    ));
}

proof fn lemma_overlay_step(
    first: Seq<TreeNode>,
    before: Seq<TreeNode>,
    now: Seq<TreeNode>,
    parent: int,
    studio: Seq<TreeNode>,
    plan: Seq<PlannedChild>,
    placed_before: Seq<Option<Placement>>,
    placed: Seq<Option<Placement>>,
    k: int,
)
    requires
        0 <= k < plan.len(),
        0 <= parent < first.len(),
        overlaid(first, before, parent, studio, plan, placed_before, k),
        placed.len() == k + 1,
        placed == placed_before.push(placed[k]),
        now.len() <= usize::MAX,
        overlaid_one(before, now, parent, studio[plan[k].node as int], plan[k], placed[k]),
    ensures
        overlaid(first, now, parent, studio, plan, placed, k + 1),
        first.len() <= now.len(),
{
    reveal(overlaid);
    reveal(overlaid_one);
    assert(placed.drop_last() =~= placed_before);
    assert forall|i: int| 0 <= i < first.len() && i != parent implies remarked(
        first[i],
        #[trigger] now[i],
        bounded_at(placed, studio, plan, i, k + 1),
        carried_at(placed, studio, plan, i, k + 1),
    ) by {
        lemma_flag_step(placed_before, placed, studio, plan, i, k);
        assert(remarked(
            first[i],
            before[i],
            bounded_at(placed_before, studio, plan, i, k),
            carried_at(placed_before, studio, plan, i, k),
        ));
    }
    assert forall|j: int| 0 <= j < k + 1 && (#[trigger] placed[j]) is Some implies parent
        < placed[j]->0.local < now.len() by {
        if j < k {
            assert(placed_before[j] == placed[j]);
        }
    }
    assert forall|j: int|
        0 <= j < k + 1 && (#[trigger] placed[j]) is Some && placed[j]->0.added implies ({
        let i = placed[j]->0.local as int;
        &&& first.len() <= i
        &&& reserved_copy(studio[plan[j].node as int], plan[j].fragments@[0], now[i])
        &&& now[i].avoid_sync == bounded_at(placed, studio, plan, i, k + 1)
        &&& now[i].avoid_sync_carrier == (studio[plan[j].node as int].avoid_sync_carrier
            || carried_at(placed, studio, plan, i, k + 1))
    }) by {
        let i = placed[j]->0.local as int;
        lemma_flag_step(placed_before, placed, studio, plan, i, k);
        if j == k {
            assert(!bounded_at(placed_before, studio, plan, i, k));
            assert(!carried_at(placed_before, studio, plan, i, k));
        }
        if j < k {
            assert(placed_before[j] == placed[j]);
            assert(reserved_copy(studio[plan[j].node as int], plan[j].fragments@[0], before[i]));
            if placed[k] is Some {
                assert(remarked(
                    before[i],
                    now[i],
                    placed[k]->0.local == i && studio[plan[k].node as int].avoid_sync,
                    placed[k]->0.local == i && !studio[plan[k].node as int].avoid_sync
                        && studio[plan[k].node as int].avoid_sync_carrier,
                ));
            }
        }
    }
    assert forall|i: int| first.len() <= i < now.len() implies (
    #[trigger] now[i]).is_reservation() by {
        if i < before.len() {
            assert(before[i].is_reservation());
        }
    }
    assert(now[parent].children@ =~= first[parent].children@ + Seq::new(
        (now.len() - first.len()) as nat,
        |j: int| (first.len() + j) as usize,
    ));
}

fn find_known(known: &TextMap<usize>, fragments: &Vec<(String, bool)>) -> (r: Option<usize>)
    requires
        known.wf(),
    ensures
        match r {
            Some(k) => first_known(known@, fragments@, 0) == Some(k as int) && k < fragments@.len()
                && known@.contains_key(text::lower(fragments@[k as int].0@)),
            None => first_known(known@, fragments@, 0) is None,
        },
{
    let mut k: usize = 0;
    while k < fragments.len()
        invariant
            known.wf(),
            k <= fragments@.len(),
            first_known(known@, fragments@, 0) == first_known(known@, fragments@, k as int),
        decreases fragments@.len() - k,
    {
        let folded = lower_text(fragments[k].0.as_str());
        if known.contains(folded.as_str()) {
            return Some(k);
        }
        k += 1;
    }
    None
}

proof fn lemma_same_shape(a: Seq<TreeNode>, b: Seq<TreeNode>)
    requires
        tree::tree_wf(a),
        a.len() == b.len(),
        forall|i: int| 0 <= i < a.len() ==> (#[trigger] b[i]).children == a[i].children,
    ensures
        tree::tree_wf(b),
{
    assert forall|i: int, x: int|
        0 <= i < b.len() && 0 <= x < b[i].children@.len() implies i < #[trigger] b[i].children@[x]
        < b.len() by {
        assert(b[i].children == a[i].children);
        assert(i < a[i].children@[x] < a.len());
    }
    assert forall|i: int, x: int, j: int, y: int|
        0 <= i < b.len() && 0 <= x < b[i].children@.len() && 0 <= j < b.len() && 0 <= y
            < b[j].children@.len() && #[trigger] b[i].children@[x]
            == #[trigger] b[j].children@[y] implies i == j && x == y by {
        assert(a[i].children@[x] == a[j].children@[y]);
    }
}

proof fn lemma_flag_step(
    before: Seq<Option<Placement>>,
    after: Seq<Option<Placement>>,
    studio: Seq<TreeNode>,
    plan: Seq<PlannedChild>,
    i: int,
    k: int,
)
    requires
        before.len() == k,
        after.len() == k + 1,
        after.drop_last() == before,
        0 <= k < plan.len(),
    ensures
        bounded_at(after, studio, plan, i, k + 1) == (bounded_at(before, studio, plan, i, k) || (
        after[k] is Some && after[k]->0.local == i && studio[plan[k].node as int].avoid_sync)),
        carried_at(after, studio, plan, i, k + 1) == (carried_at(before, studio, plan, i, k) || (
        after[k] is Some && after[k]->0.local == i && !studio[plan[k].node as int].avoid_sync
            && studio[plan[k].node as int].avoid_sync_carrier)),
{
    assert forall|j: int| 0 <= j < k implies before[j] == after[j] by {
        assert(after.drop_last()[j] == after[j]);
    }
    if bounded_at(before, studio, plan, i, k) {
        let j = choose|j: int|
            0 <= j < k && (#[trigger] before[j]) is Some && before[j]->0.local == i
                && studio[plan[j].node as int].avoid_sync;
        assert(after[j] is Some);
    }
    if bounded_at(after, studio, plan, i, k + 1) {
        let j = choose|j: int|
            0 <= j < k + 1 && (#[trigger] after[j]) is Some && after[j]->0.local == i
                && studio[plan[j].node as int].avoid_sync;
        if j < k {
            assert(before[j] is Some);
        }
    }
    if carried_at(before, studio, plan, i, k) {
        let j = choose|j: int|
            0 <= j < k && (#[trigger] before[j]) is Some && before[j]->0.local == i
                && !studio[plan[j].node as int].avoid_sync
                && studio[plan[j].node as int].avoid_sync_carrier;
        assert(after[j] is Some);
    }
    if carried_at(after, studio, plan, i, k + 1) {
        let j = choose|j: int|
            0 <= j < k + 1 && (#[trigger] after[j]) is Some && after[j]->0.local == i
                && !studio[plan[j].node as int].avoid_sync
                && studio[plan[j].node as int].avoid_sync_carrier;
        if j < k {
            assert(before[j] is Some);
        }
    }
}

/// A node whose marked children are still to be laid over a directory.
#[derive(Debug)]
pub struct OverlayTask {
    pub directory: String,
    /// The node in the tree from disk.
    pub local: usize,
    pub studio: usize,
}

#[verifier::ext_equal]
pub struct TaskModel {
    pub directory: Seq<char>,
    pub local: usize,
    pub studio: usize,
}

impl OverlayTask {
    pub open spec fn view(&self) -> TaskModel {
        TaskModel { directory: self.directory@, local: self.local, studio: self.studio }
    }
}

pub open spec fn task_models(v: Seq<OverlayTask>) -> Seq<TaskModel> {
    Seq::new(v.len(), |i: int| v[i]@)
}

/// The first of the services from `k` on that has that name.
pub open spec fn service_named(
    t: Seq<TreeNode>,
    services: Seq<usize>,
    name: Seq<char>,
    k: int,
) -> Option<usize>
    decreases services.len() - k,
{
    if k < 0 || k >= services.len() {
        None
    } else if t[services[k] as int].name_text() == Some(name) {
        Some(services[k])
    } else {
        service_named(t, services, name, k + 1)
    }
}

/// What is laid over the disk for one Studio service: nothing where nothing in it
/// is marked, where it has no name or no children, or where the disk has no such
/// service.
pub open spec fn service_task(
    root: Seq<char>,
    local: Seq<TreeNode>,
    local_services: Seq<usize>,
    studio: Seq<TreeNode>,
    service: usize,
) -> Option<TaskModel> {
    let node = studio[service as int];
    let place = service_named(local, local_services, node.name_text()->0, 0);
    if marked(studio, service as int) && node.name_text() is Some && node.children@.len() > 0
        && place is Some {
        Some(
            TaskModel {
                directory: fs_safety::below(root, node.name_text()->0),
                local: place->0,
                studio: service,
            },
        )
    } else {
        None
    }
}

/// The tasks of the Studio services from `k` on, the first one last.
pub open spec fn service_tasks(
    root: Seq<char>,
    local: Seq<TreeNode>,
    local_services: Seq<usize>,
    studio: Seq<TreeNode>,
    studio_services: Seq<usize>,
    k: int,
) -> Seq<TaskModel>
    decreases studio_services.len() - k,
{
    if k < 0 || k >= studio_services.len() {
        Seq::empty()
    } else {
        let rest = service_tasks(root, local, local_services, studio, studio_services, k + 1);
        match service_task(root, local, local_services, studio, studio_services[k]) {
            Some(task) => rest.push(task),
            None => rest,
        }
    }
}

/// What is laid below a planned child: nothing where it was not placed, is not
/// synchronised at all, is no directory or has no children.
pub open spec fn child_task(
    directory: Seq<char>,
    studio: Seq<TreeNode>,
    child: PlannedChild,
    place: Option<Placement>,
) -> Option<TaskModel> {
    let node = studio[child.node as int];
    match place {
        Some(p) => if p.fragment < child.fragments@.len() && child.fragments@[p.fragment as int].1
            && !node.avoid_sync && node.children@.len() > 0 {
            Some(
                TaskModel {
                    directory: fs_safety::below(
                        directory,
                        child.fragments@[p.fragment as int].0@,
                    ),
                    local: p.local,
                    studio: child.node,
                },
            )
        } else {
            None
        },
        None => None,
    }
}

/// The tasks below the planned children from `k` on, the first one last.
pub open spec fn child_tasks(
    directory: Seq<char>,
    studio: Seq<TreeNode>,
    plan: Seq<PlannedChild>,
    placed: Seq<Option<Placement>>,
    k: int,
) -> Seq<TaskModel>
    decreases plan.len() - k,
{
    if k < 0 || k >= plan.len() {
        Seq::empty()
    } else {
        let rest = child_tasks(directory, studio, plan, placed, k + 1);
        match child_task(directory, studio, plan[k], placed[k]) {
            Some(task) => rest.push(task),
            None => rest,
        }
    }
}

/// The laying of Studio's markers over the tree from disk, one directory at a
/// time.
#[derive(Debug)]
pub struct ReservationOverlay {
    pub local: Tree,
    pub studio: Tree,
    /// For each Studio node whether it or one below it is marked.
    pub marks: Vec<bool>,
    pub stack: Vec<OverlayTask>,
}

/// A marked child has no file name.
#[derive(Debug, Clone, Copy, PartialEq, Eq, Structural)]
pub struct NoFragment;

fn find_service(t: &Tree, services: &[usize], name: &str) -> (r: Option<usize>)
    requires
        forall|k: int| 0 <= k < services@.len() ==> #[trigger] services@[k] < t.nodes@.len(),
    ensures
        r == service_named(t.nodes@, services@, name@, 0),
        r is Some ==> r->0 < t.nodes@.len(),
{
    let mut k: usize = 0;
    while k < services.len()
        invariant
            k <= services@.len(),
            forall|k: int| 0 <= k < services@.len() ==> #[trigger] services@[k] < t.nodes@.len(),
            service_named(t.nodes@, services@, name@, 0) == service_named(
                t.nodes@,
                services@,
                name@,
                k as int,
            ),
        decreases services@.len() - k,
    {
        if let Some(found) = &t.nodes[services[k]].name {
            if same(found.as_str(), name) {
                return Some(services[k]);
            }
        }
        k += 1;
    }
    None
}

/// Starts to lay the markers of Studio services over those on disk.
pub fn overlay_local_avoid_sync_reservations(
    root: &str,
    local: Tree,
    local_services: &[usize],
    studio: Tree,
    studio_services: &[usize],
) -> (o: ReservationOverlay)
    requires
        local.wf(),
        studio.wf(),
        forall|k: int|
            0 <= k < local_services@.len() ==> #[trigger] local_services@[k] < local.nodes@.len(),
        forall|k: int|
            0 <= k < studio_services@.len() ==> #[trigger] studio_services@[k]
                < studio.nodes@.len(),
    ensures
        o.wf(),
        o.local == local,
        o.studio == studio,
        task_models(o.stack@) == service_tasks(
            root@,
            local.nodes@,
            local_services@,
            studio.nodes@,
            studio_services@,
            0,
        ),
{
    let marks = reservation_subtree_ids(&studio);
    let mut stack: Vec<OverlayTask> = Vec::new();
    let mut k: usize = studio_services.len();
    proof {
        assert(task_models(stack@) =~= Seq::<TaskModel>::empty());
    }
    while k > 0
        invariant
            local.wf(),
            studio.wf(),
            k <= studio_services@.len(),
            forall|k: int|
                0 <= k < local_services@.len() ==> #[trigger] local_services@[k]
                    < local.nodes@.len(),
            forall|k: int|
                0 <= k < studio_services@.len() ==> #[trigger] studio_services@[k]
                    < studio.nodes@.len(),
            marks@.len() == studio.nodes@.len(),
            forall|i: int|
                0 <= i < marks@.len() ==> #[trigger] marks@[i] == marked(studio.nodes@, i),
            forall|i: int|
                0 <= i < stack@.len() ==> (#[trigger] stack@[i]).local < local.nodes@.len()
                    && stack@[i].studio < studio.nodes@.len(),
            task_models(stack@) == service_tasks(
                root@,
                local.nodes@,
                local_services@,
                studio.nodes@,
                studio_services@,
                k as int,
            ),
        decreases k,
    {
        k -= 1;
        let service: usize = studio_services[k];
        let node = &studio.nodes[service];
        let ghost before = stack@;
        if marks[service] && node.children.len() > 0 {
            if let Some(name) = &node.name {
                if let Some(place) = find_service(&local, local_services, name.as_str()) {
                    stack.push(
                        OverlayTask {
                            directory: join_path(root, name.as_str()),
                            local: place,
                            studio: service,
                        },
                    );
                    proof {
                        assert(task_models(stack@) =~= task_models(before).push(stack@.last()@));
                    }
                }
            }
        }
    }
    ReservationOverlay { local, studio, marks, stack }
}

impl ReservationOverlay {
    pub open spec fn wf(&self) -> bool {
        &&& self.local.wf() && self.studio.wf()
        &&& self.marks@.len() == self.studio.nodes@.len()
        &&& forall|i: int|
            0 <= i < self.marks@.len() ==> #[trigger] self.marks@[i] == marked(
                self.studio.nodes@,
                i,
            )
        &&& forall|i: int|
            0 <= i < self.stack@.len() ==> (#[trigger] self.stack@[i]).local
                < self.local.nodes@.len() && self.stack@[i].studio < self.studio.nodes@.len()
    }

    /// The directory whose children are planned next; nothing where all markers
    /// are laid.
    pub fn next(&self) -> (r: Option<&OverlayTask>)
        ensures
            match r {
                Some(task) => self.stack@.len() > 0 && *task == self.stack@.last(),
                None => self.stack@.len() == 0,
            },
    {
        let n: usize = self.stack.len();
        if n == 0 {
            None
        } else {
            Some(&self.stack[n - 1])
        }
    }

    /// Lays the children as they were planned over the directory that was asked
    /// for. A node that is on disk, or stands for one that is not, is entered
    /// unless nothing in it is synchronised.
    pub fn lay(&mut self, plan: &Vec<PlannedChild>) -> (r: Result<(), NoFragment>)
        requires
            old(self).wf(),
            old(self).stack@.len() > 0,
            old(self).local.nodes@.len() + plan@.len() < usize::MAX,
            forall|k: int|
                0 <= k < plan@.len() ==> (#[trigger] plan@[k]).node < old(self).studio.nodes@.len(),
        ensures
            final(self).wf(),
            final(self).studio == old(self).studio,
            ({
                let task = task_models(old(self).stack@).last();
                let parent = task.local as int;
                let t = old(self).studio.nodes@;
                let start = shelf_of(old(self).local.nodes@, parent);
                let all = placements(start, t, plan@, plan@.len() as int);
                match r {
                    Err(_) => exists|k: int|
                        0 <= k < plan@.len() && lacks_fragment(
                            placements(start, t, plan@, k).1,
                            t,
                            #[trigger] plan@[k],
                        ),
                    Ok(()) => {
                        &&& forall|k: int|
                            0 <= k < plan@.len() ==> !lacks_fragment(
                                placements(start, t, plan@, k).1,
                                t,
                                #[trigger] plan@[k],
                            )
                        &&& final(self).local.nodes@.len() == all.1.count
                        &&& overlaid(
                            old(self).local.nodes@,
                            final(self).local.nodes@,
                            parent,
                            t,
                            plan@,
                            all.0,
                            plan@.len() as int,
                        )
                        &&& task_models(final(self).stack@) == task_models(
                            old(self).stack@,
                        ).drop_last() + child_tasks(task.directory, t, plan@, all.0, 0)
                    },
                }
            }),
    {
        let ghost stack_before = task_models(self.stack@);
        let task = match self.stack.pop() {
            None => return Ok(()),
            Some(task) => task,
        };
        let ghost d = task.directory@;
        let ghost rest = self.stack@;
        let ghost first = self.local.nodes@;
        let ghost t = self.studio.nodes@;
        proof {
            assert(task@ == stack_before.last());
            assert(task_models(rest) =~= stack_before.drop_last());
        }
        let placed = match overlay_local_avoid_sync_children(
            &mut self.local,
            task.local,
            &self.studio,
            &self.marks,
            plan,
        ) {
            None => {
                self.stack = Vec::new();
                return Err(NoFragment);
            },
            Some(placed) => placed,
        };
        let ghost now = self.local.nodes@;
        proof {
            reveal(overlaid);
        }
        let n: usize = plan.len();
        let mut k: usize = n;
        proof {
            assert(child_tasks(d, t, plan@, placed@, n as int) =~= Seq::<TaskModel>::empty());
            assert(task_models(self.stack@) =~= task_models(rest) + child_tasks(
                d,
                t,
                plan@,
                placed@,
                n as int,
            ));
        }
        while k > 0
            invariant
                k <= n,
                n == plan@.len(),
                placed@.len() == n,
                t == self.studio.nodes@,
                self.studio == old(self).studio,
                self.marks == old(self).marks,
                old(self).wf(),
                now == self.local.nodes@,
                self.local.wf(),
                first.len() <= now.len(),
                d == task.directory@,
                forall|j: int|
                    0 <= j < n && (#[trigger] placed@[j]) is Some ==> placed@[j]->0.local
                        < now.len(),
                forall|j: int| 0 <= j < plan@.len() ==> (#[trigger] plan@[j]).node < t.len(),
                forall|i: int|
                    0 <= i < self.stack@.len() ==> (#[trigger] self.stack@[i]).local < now.len()
                        && self.stack@[i].studio < t.len(),
                task_models(self.stack@) == task_models(rest) + child_tasks(
                    d,
                    t,
                    plan@,
                    placed@,
                    k as int,
                ),
            decreases k,
        {
            k -= 1;
            let child = &plan[k];
            let ghost before = self.stack@;
            if let Some(place) = placed[k] {
                let node = &self.studio.nodes[child.node];
                if place.fragment < child.fragments.len() && child.fragments[place.fragment].1
                    && !node.avoid_sync && node.children.len() > 0 {
                    self.stack.push(
                        OverlayTask {
                            directory: join_path(
                                task.directory.as_str(),
                                child.fragments[place.fragment].0.as_str(),
                            ),
                            local: place.local,
                            studio: child.node,
                        },
                    );
                    proof {
                        assert(task_models(self.stack@) =~= task_models(before).push(
                            self.stack@.last()@,
                        ));
                        assert(task_models(self.stack@) =~= task_models(rest) + child_tasks(
                            d,
                            t,
                            plan@,
                            placed@,
                            k as int,
                        ));
                    }
                }
            }
        }
        Ok(())
    }
}

/// Where Studio marks nothing, nothing is laid over the disk.
pub proof fn law_nothing_marked_is_nothing_laid(
    root: Seq<char>,
    local: Seq<TreeNode>,
    local_services: Seq<usize>,
    studio: Seq<TreeNode>,
    studio_services: Seq<usize>,
    k: int,
)
    requires
        0 <= k,
        forall|j: int|
            0 <= j < studio_services.len() ==> !marked(
                studio,
                #[trigger] studio_services[j] as int,
            ),
    ensures
        service_tasks(root, local, local_services, studio, studio_services, k).len() == 0,
    decreases studio_services.len() - k,
{
    if k < studio_services.len() {
        law_nothing_marked_is_nothing_laid(
            root,
            local,
            local_services,
            studio,
            studio_services,
            k + 1,
        );
        assert(!marked(studio, studio_services[k] as int));
    }
}

} // verus!
