//! Which nodes of a tree take part in a comparison, and the order of siblings.
//!
//! Siblings are ordered by a key that spells out the part of the subtree that
//! takes part: the name in lower case, the name, the class twice, and the keys
//! of the children in order. Scripts whose keys are the same are ordered by
//! their content, so that the order does not depend on how they were listed.
use vstd::prelude::*;
use vstd::utf8::*;

use crate::conflict;
use crate::conflict::hash;
use crate::fs_map;
use crate::fs_map::normalize_line_endings;
use crate::ranking;
use crate::ranking::{rank, Row};
use crate::sync_scope;
use crate::text;
use crate::text::lower_text;
use crate::tree;
use crate::tree::{Tree, TreeNode};

verus! {

/// Where a tree comes from.
#[derive(Debug, Clone, Copy, PartialEq, Eq, Structural)]
pub enum TreeFlavor {
    /// The project directory.
    Snapshot,
    /// A running Studio session.
    Studio,
}

/// What later steps need to know of a node.
pub struct Fact {
    /// The node takes part in the comparison.
    pub relevant: bool,
    /// The bytes by which the node stands among its siblings.
    pub key: Seq<u8>,
}

/// Whether the children of a node are looked at.
pub open spec fn descends(f: TreeFlavor, n: TreeNode) -> bool {
    &&& !n.avoid_sync
    &&& n.class_text() matches Some(class) && match f {
        TreeFlavor::Snapshot => sync_scope::in_scope(class),
        TreeFlavor::Studio => !sync_scope::is_suppressed(class),
    }
}

/// Whether a child of node `i` takes part, given the facts of the later nodes.
pub open spec fn carries(f: TreeFlavor, t: Seq<TreeNode>, i: int, later: Seq<Fact>) -> bool {
    descends(f, t[i]) && exists|k: int|
        0 <= k < t[i].children@.len() && later[#[trigger] t[i].children@[k] - i - 1].relevant
}

pub open spec fn is_relevant(f: TreeFlavor, t: Seq<TreeNode>, i: int, later: Seq<Fact>) -> bool {
    &&& !t[i].avoid_sync
    &&& t[i].class_text() matches Some(class) && match f {
        TreeFlavor::Snapshot => sync_scope::in_scope(class) && !t[i].avoid_sync_carrier,
        TreeFlavor::Studio => !sync_scope::is_suppressed(class) && (sync_scope::is_script(class)
            || (class == "Folder"@ || !sync_scope::in_scope(class)) && carries(f, t, i, later)),
    }
}

/// The class under which a node of class `class` is compared.
pub open spec fn mapped_class(f: TreeFlavor, class: Seq<char>, carrying: bool) -> Seq<char> {
    match f {
        TreeFlavor::Snapshot => class,
        TreeFlavor::Studio => if sync_scope::is_script(class) || class == "Folder"@ || !carrying {
            class
        } else {
            "Folder"@
        },
    }
}

/// The digest of a script's source, line endings aside; of nothing where the
/// source is not known.
pub open spec fn source_digest(n: TreeNode) -> Seq<u8> {
    match n.source {
        Some(s) => text_digest(s@),
        None => conflict::sha256(Seq::empty()),
    }
}

pub open spec fn text_digest(source: Seq<char>) -> Seq<u8> {
    conflict::sha256(fs_map::normalized(encode_utf8(source)))
}

/// What tells apart siblings with the same key: a script's content.
pub open spec fn tiebreak(n: TreeNode) -> Seq<u8> {
    match n.class_text() {
        Some(class) => if sync_scope::is_script(class) {
            source_digest(n)
        } else {
            Seq::empty()
        },
        None => Seq::empty(),
    }
}

/// The first `n` children of node `i` that take part or reserve a name.
pub open spec fn kept(t: Seq<TreeNode>, i: int, later: Seq<Fact>, n: int) -> Seq<int>
    decreases n,
{
    if n <= 0 {
        Seq::empty()
    } else {
        let c = t[i].children@[n - 1] as int;
        let before = kept(t, i, later, n - 1);
        if later[c - i - 1].relevant || t[c].is_reservation() {
            before.push(c)
        } else {
            before
        }
    }
}

pub open spec fn rows(t: Seq<TreeNode>, i: int, later: Seq<Fact>, ids: Seq<int>) -> Seq<
    ranking::RowModel,
> {
    Seq::new(
        ids.len(),
        |r: int|
            (ranking::RowModel { key: later[ids[r] - i - 1].key, content: tiebreak(t[ids[r]]) }),
    )
}

/// The children of node `i` that take part or reserve a name, in order.
pub open spec fn ordered(t: Seq<TreeNode>, i: int, later: Seq<Fact>) -> Seq<int> {
    let ids = kept(t, i, later, t[i].children@.len() as int);
    let order = ranking::ranking(rows(t, i, later, ids));
    Seq::new(ids.len(), |r: int| ids[order[r]])
}

/// The keys of the first `n` of `ids`, each after a zero byte.
pub open spec fn joined_keys(i: int, later: Seq<Fact>, ids: Seq<int>, n: int) -> Seq<u8>
    decreases n,
{
    if n <= 0 {
        Seq::empty()
    } else {
        joined_keys(i, later, ids, n - 1) + seq![0u8] + later[ids[n - 1] - i - 1].key
    }
}

pub open spec fn name_or_empty(n: TreeNode) -> Seq<char> {
    match n.name_text() {
        Some(name) => name,
        None => Seq::empty(),
    }
}

pub open spec fn mapped_or_empty(f: TreeFlavor, n: TreeNode, carrying: bool) -> Seq<char> {
    match n.class_text() {
        Some(class) => mapped_class(f, class, carrying),
        None => Seq::empty(),
    }
}

pub open spec fn fact(f: TreeFlavor, t: Seq<TreeNode>, i: int, later: Seq<Fact>) -> Fact {
    let name = name_or_empty(t[i]);
    let class = encode_utf8(mapped_or_empty(f, t[i], carries(f, t, i, later)));
    let ids = ordered(t, i, later);
    Fact {
        relevant: is_relevant(f, t, i, later),
        key: encode_utf8(text::lower(name)) + seq![0u8] + encode_utf8(name) + seq![0u8] + class
            + seq![0u8] + class + (if descends(f, t[i]) {
            joined_keys(i, later, ids, ids.len() as int)
        } else {
            Seq::empty()
        }),
    }
}

/// The facts of the nodes from `i` on.
pub open spec fn facts_from(f: TreeFlavor, t: Seq<TreeNode>, i: int) -> Seq<Fact>
    decreases t.len() - i,
{
    if i < 0 || i >= t.len() {
        Seq::empty()
    } else {
        let later = facts_from(f, t, i + 1);
        seq![fact(f, t, i, later)] + later
    }
}

pub open spec fn relevant(f: TreeFlavor, t: Seq<TreeNode>, i: int) -> bool {
    is_relevant(f, t, i, facts_from(f, t, i + 1))
}

pub open spec fn carrying(f: TreeFlavor, t: Seq<TreeNode>, i: int) -> bool {
    carries(f, t, i, facts_from(f, t, i + 1))
}

/// Whether a node can be given a path.
pub open spec fn is_named(n: TreeNode) -> bool {
    n.name is Some && n.class is Some
}

/// The first `n` of `ids` that can be given a path and do (or do not) reserve.
pub open spec fn chosen(t: Seq<TreeNode>, ids: Seq<int>, reserving: bool, n: int) -> Seq<int>
    decreases n,
{
    if n <= 0 {
        Seq::empty()
    } else {
        let c = ids[n - 1];
        let before = chosen(t, ids, reserving, n - 1);
        if is_named(t[c]) && t[c].is_reservation() == reserving {
            before.push(c)
        } else {
            before
        }
    }
}

/// The children of node `i` in the order in which names are given: first those
/// that reserve a name, then the others.
pub open spec fn projection(f: TreeFlavor, t: Seq<TreeNode>, i: int) -> Seq<int> {
    let ids = ordered(t, i, facts_from(f, t, i + 1));
    chosen(t, ids, true, ids.len() as int) + chosen(t, ids, false, ids.len() as int)
}

pub proof fn lemma_facts_from(f: TreeFlavor, t: Seq<TreeNode>, i: int, c: int)
    requires
        0 <= i <= c < t.len(),
    ensures
        facts_from(f, t, i).len() == t.len() - i,
        facts_from(f, t, i)[c - i] == fact(f, t, c, facts_from(f, t, c + 1)),
        facts_from(f, t, i)[c - i].relevant == relevant(f, t, c),
    decreases c - i,
{
    if i < c {
        lemma_facts_from(f, t, i + 1, c);
        assert(facts_from(f, t, i)[c - i] == facts_from(f, t, i + 1)[c - i - 1]);
    } else {
        lemma_facts_len(f, t, i);
    }
}

pub proof fn lemma_facts_len(f: TreeFlavor, t: Seq<TreeNode>, i: int)
    requires
        0 <= i <= t.len(),
    ensures
        facts_from(f, t, i).len() == t.len() - i,
    decreases t.len() - i,
{
    if i < t.len() {
        lemma_facts_len(f, t, i + 1);
    }
}

pub proof fn lemma_kept(t: Seq<TreeNode>, i: int, later: Seq<Fact>, n: int)
    requires
        tree::tree_wf(t),
        0 <= i < t.len(),
        0 <= n <= t[i].children@.len(),
    ensures
        kept(t, i, later, n).len() <= n,
        forall|r: int|
            0 <= r < kept(t, i, later, n).len() ==> {
                let c = #[trigger] kept(t, i, later, n)[r];
                i < c < t.len() && exists|k: int|
                    0 <= k < n && #[trigger] t[i].children@[k] == c
            },
    decreases n,
{
    if n > 0 {
        lemma_kept(t, i, later, n - 1);
        let before = kept(t, i, later, n - 1);
        let all = kept(t, i, later, n);
        let c = t[i].children@[n - 1] as int;
        assert forall|r: int| 0 <= r < all.len() implies {
            let c = #[trigger] all[r];
            i < c < t.len() && exists|k: int| 0 <= k < n && #[trigger] t[i].children@[k] == c
        } by {
            if r < before.len() {
                assert(all[r] == before[r]);
                let k = choose|k: int| 0 <= k < n - 1 && #[trigger] t[i].children@[k] == before[r];
                assert(t[i].children@[k] == all[r]);
            } else {
                assert(t[i].children@[n - 1] == c);
            }
        }
    }
}

pub proof fn lemma_ordered(t: Seq<TreeNode>, i: int, later: Seq<Fact>)
    requires
        tree::tree_wf(t),
        0 <= i < t.len(),
        ({
            let ids = kept(t, i, later, t[i].children@.len() as int);
            let m = rows(t, i, later, ids);
            ranking::is_ranking(m, ranking::ranking(m))
        }),
    ensures
        ordered(t, i, later).len() <= t[i].children@.len(),
        forall|r: int|
            0 <= r < ordered(t, i, later).len() ==> {
                let c = #[trigger] ordered(t, i, later)[r];
                i < c < t.len() && exists|k: int|
                    0 <= k < t[i].children@.len() && #[trigger] t[i].children@[k] == c
            },
{
    lemma_kept(t, i, later, t[i].children@.len() as int);
}

pub proof fn lemma_chosen(t: Seq<TreeNode>, ids: Seq<int>, reserving: bool, n: int)
    requires
        0 <= n <= ids.len(),
    ensures
        chosen(t, ids, reserving, n).len() <= n,
        forall|r: int|
            0 <= r < chosen(t, ids, reserving, n).len() ==> {
                let c = #[trigger] chosen(t, ids, reserving, n)[r];
                is_named(t[c]) && t[c].is_reservation() == reserving && ids.take(n).contains(c)
            },
    decreases n,
{
    if n > 0 {
        lemma_chosen(t, ids, reserving, n - 1);
        let before = chosen(t, ids, reserving, n - 1);
        let all = chosen(t, ids, reserving, n);
        assert forall|r: int| 0 <= r < all.len() implies {
            let c = #[trigger] all[r];
            is_named(t[c]) && t[c].is_reservation() == reserving && ids.take(n).contains(c)
        } by {
            if r < before.len() {
                assert(all[r] == before[r]);
                let shorter = ids.take(n - 1);
                let k = choose|k: int| 0 <= k < shorter.len() && shorter[k] == before[r];
                assert(ids.take(n)[k] == all[r]);
            } else {
                assert(ids.take(n)[n - 1] == all[r]);
            }
        }
    }
}

pub proof fn lemma_chosen_total(t: Seq<TreeNode>, ids: Seq<int>, n: int)
    requires
        0 <= n <= ids.len(),
    ensures
        chosen(t, ids, true, n).len() + chosen(t, ids, false, n).len() <= n,
    decreases n,
{
    if n > 0 {
        lemma_chosen_total(t, ids, n - 1);
    }
}

proof fn lemma_choice_bounded(t: Seq<TreeNode>, ids: Seq<int>, i: int)
    requires
        forall|w: int| 0 <= w < ids.len() ==> i < #[trigger] ids[w] < t.len(),
    ensures
        ({
            let n = ids.len() as int;
            let both = chosen(t, ids, true, n) + chosen(t, ids, false, n);
            &&& both.len() <= ids.len()
            &&& forall|q: int| 0 <= q < both.len() ==> i < #[trigger] both[q] < t.len()
        }),
{
    let n = ids.len() as int;
    lemma_chosen_total(t, ids, n);
    lemma_chosen(t, ids, true, n);
    lemma_chosen(t, ids, false, n);
    assert(ids.take(n) =~= ids);
    let first = chosen(t, ids, true, n);
    let rest = chosen(t, ids, false, n);
    let both = first + rest;
    assert forall|q: int| 0 <= q < both.len() implies i < #[trigger] both[q] < t.len() by {
        if q < first.len() {
            assert(ids.take(n).contains(first[q]));
        } else {
            assert(ids.take(n).contains(rest[q - first.len()]));
        }
        let w = choose|w: int| 0 <= w < ids.len() && ids[w] == both[q];
        assert(i < ids[w] < t.len());
    }
}

/// The digest of `source`, line endings aside.
pub fn normalized_source_hash(source: &str) -> (h: conflict::Hash)
    ensures
        h@ == text_digest(source@),
{
    let normal = normalize_line_endings(source.as_bytes());
    match normal {
        std::borrow::Cow::Borrowed(bytes) => hash(bytes),
        std::borrow::Cow::Owned(bytes) => hash(&bytes),
    }
}

/// The digest of a script node's source.
pub fn source_hash_from_node(node: &TreeNode) -> (h: conflict::Hash)
    ensures
        h@ == source_digest(*node),
{
    match &node.source {
        Some(source) => normalized_source_hash(source.as_str()),
        None => {
            let none: [u8; 0] = [];
            proof {
                assert(none@ =~= Seq::<u8>::empty());
            }
            hash(&none)
        },
    }
}

pub(crate) fn node_descends(f: TreeFlavor, n: &TreeNode) -> (r: bool)
    ensures
        r == descends(f, *n),
{
    if n.avoid_sync {
        return false;
    }
    match &n.class {
        None => false,
        Some(class) => match f {
            TreeFlavor::Snapshot => sync_scope::contains(class.as_str()),
            TreeFlavor::Studio => !sync_scope::suppressed(class.as_str()),
        },
    }
}

fn push_bytes(out: &mut Vec<u8>, bytes: &[u8])
    ensures
        final(out)@ == old(out)@ + bytes@,
{
    let ghost before = out@;
    out.extend_from_slice(bytes);
    proof {
        assert(out@ =~= before + bytes@);
    }
}

/// What the comparison of a tree needs, worked out once for every node.
#[derive(Debug)]
pub struct Survey {
    /// Whether each node takes part.
    pub relevant: Vec<bool>,
    /// Whether a child of each node takes part.
    pub carrying: Vec<bool>,
    /// The children of each node in the order in which names are given.
    pub order: Vec<Vec<usize>>,
}

pub open spec fn ints(s: Seq<usize>) -> Seq<int> {
    Seq::new(s.len(), |i: int| s[i] as int)
}

impl Survey {
    pub open spec fn of(&self, f: TreeFlavor, t: Seq<TreeNode>) -> bool {
        &&& self.relevant@.len() == t.len()
        &&& self.carrying@.len() == t.len()
        &&& self.order@.len() == t.len()
        &&& forall|i: int|
            0 <= i < t.len() ==> #[trigger] self.relevant@[i] == relevant(f, t, i)
        &&& forall|i: int|
            0 <= i < t.len() ==> #[trigger] self.carrying@[i] == carrying(f, t, i)
        &&& forall|i: int|
            0 <= i < t.len() ==> ints((#[trigger] self.order@[i])@) == projection(f, t, i)
        &&& forall|i: int|
            0 <= i < t.len() ==> (#[trigger] self.order@[i])@.len() <= t[i].children@.len()
        &&& forall|i: int, r: int|
            0 <= i < t.len() && 0 <= r < self.order@[i]@.len() ==> i < #[trigger] self.order@[i]@[r]
                < t.len()
    }
}

struct Summary {
    relevant: bool,
    carrying: bool,
    order: Vec<usize>,
    key: Vec<u8>,
}

/// Works out one node from its children.
#[verifier::rlimit(40)]
fn summarize(
    t: &Tree,
    f: TreeFlavor,
    i: usize,
    known: &Vec<bool>,
    keys: &Vec<Vec<u8>>,
) -> (s: Summary)
    requires
        t.wf(),
        i < t.nodes@.len(),
        known@.len() == t.nodes@.len(),
        keys@.len() == t.nodes@.len(),
        forall|k: int|
            0 <= k < t.nodes@[i as int].children@.len() ==> {
                let c = #[trigger] t.nodes@[i as int].children@[k] as int;
                let facts = facts_from(f, t.nodes@, i + 1);
                known@[c] == facts[c - i - 1].relevant && keys@[c]@ == facts[c - i - 1].key
            },
    ensures
        s.relevant == relevant(f, t.nodes@, i as int),
        s.carrying == carrying(f, t.nodes@, i as int),
        ints(s.order@) == projection(f, t.nodes@, i as int),
        s.order@.len() <= t.nodes@[i as int].children@.len(),
        forall|r: int| 0 <= r < s.order@.len() ==> i < #[trigger] s.order@[r] < t.nodes@.len(),
        s.key@ == fact(f, t.nodes@, i as int, facts_from(f, t.nodes@, i + 1)).key,
{
    let ghost nodes = t.nodes@;
    let ghost later = facts_from(f, nodes, i + 1);
    let node = &t.nodes[i];
    let goes_down = node_descends(f, node);
    let mut carrying_any = false;
    let mut ids: Vec<usize> = Vec::new();
    let mut table: Vec<Row> = Vec::new();
    let mut k: usize = 0;
    while k < node.children.len()
        invariant
            t.wf(),
            nodes == t.nodes@,
            i < nodes.len(),
            *node == nodes[i as int],
            later == facts_from(f, nodes, i + 1),
            known@.len() == nodes.len(),
            keys@.len() == nodes.len(),
            forall|k: int|
                0 <= k < nodes[i as int].children@.len() ==> {
                    let c = #[trigger] nodes[i as int].children@[k] as int;
                    known@[c] == later[c - i - 1].relevant && keys@[c]@ == later[c - i - 1].key
                },
            k <= node.children@.len(),
            carrying_any == exists|j: int|
                0 <= j < k && later[#[trigger] node.children@[j] - i - 1].relevant,
            ints(ids@) == kept(nodes, i as int, later, k as int),
            ranking::models(table@) == rows(nodes, i as int, later, ints(ids@)),
        decreases node.children@.len() - k,
    {
        let c: usize = node.children[k];
        assert(c == nodes[i as int].children@[k as int]);
        let child = &t.nodes[c];
        let ghost ids_before = ids@;
        let ghost table_before = table@;
        if known[c] {
            assert(later[node.children@[k as int] - i - 1].relevant);
            carrying_any = true;
        }
        if known[c] || child.avoid_sync || child.avoid_sync_carrier {
            let content: Vec<u8> = match &child.class {
                Some(class) => if sync_scope::script(class.as_str()) {
                    let digest = source_hash_from_node(child);
                    let mut bytes: Vec<u8> = Vec::new();
                    push_bytes(&mut bytes, &digest);
                    proof {
                        assert(bytes@ =~= digest@);
                    }
                    bytes
                } else {
                    Vec::new()
                },
                None => Vec::new(),
            };
            let mut key: Vec<u8> = Vec::new();
            push_bytes(&mut key, &keys[c]);
            proof {
                assert(key@ =~= keys@[c as int]@);
                assert(content@ =~= tiebreak(nodes[c as int]));
            }
            ids.push(c);
            table.push(Row { key, content });
            proof {
                assert(ints(ids@) =~= ints(ids_before).push(c as int));
                let new_ids = ints(ids@);
                let want = rows(nodes, i as int, later, new_ids);
                let have = ranking::models(table@);
                let old_have = ranking::models(table_before);
                let old_want = rows(nodes, i as int, later, ints(ids_before));
                assert(old_have.len() == old_want.len());
                assert(table_before.len() == ids_before.len());
                assert(table@ =~= table_before.push(table@.last()));
                assert forall|q: int| 0 <= q < want.len() implies have[q] == want[q] by {
                    if q < ids_before.len() {
                        assert(new_ids[q] == ints(ids_before)[q]);
                        assert(old_have[q] == old_want[q]);
                        assert(table@[q] == table_before[q]);
                    } else {
                        assert(new_ids[q] == c);
                        assert(have[q].key =~= want[q].key);
                        assert(have[q].content =~= want[q].content);
                    }
                }
                assert(have =~= want);
            }
        }
        k += 1;
    }
    let order = rank(&table);
    let ghost plan = ordered(nodes, i as int, later);
    let ghost all = ints(ids@);
    proof {
        lemma_ordered(nodes, i as int, later);
        assert(all == kept(nodes, i as int, later, node.children@.len() as int));
        lemma_kept(nodes, i as int, later, node.children@.len() as int);
    }
    let ghost m = rows(nodes, i as int, later, all);
    // The children in order, and their keys.
    let mut first: Vec<usize> = Vec::new();
    let mut rest: Vec<usize> = Vec::new();
    let mut tail: Vec<u8> = Vec::new();
    let mut r: usize = 0;
    while r < order.len()
        invariant
            t.wf(),
            nodes == t.nodes@,
            i < nodes.len(),
            all == ints(ids@),
            plan == ordered(nodes, i as int, later),
            plan.len() == order@.len(),
            ids@.len() == order@.len(),
            table@.len() == order@.len(),
            m == rows(nodes, i as int, later, all),
            ranking::models(table@) == m,
            ranking::is_ranking(m, ranking::ranking(m)),
            forall|j: int|
                0 <= j < order@.len() ==> #[trigger] order@[j] == ranking::ranking(m)[j],
            forall|j: int| 0 <= j < plan.len() ==> #[trigger] plan[j] == all[ranking::ranking(m)[j]],
            forall|j: int| 0 <= j < all.len() ==> i < #[trigger] all[j] < nodes.len(),
            r <= order@.len(),
            ints(first@) == chosen(nodes, plan, true, r as int),
            ints(rest@) == chosen(nodes, plan, false, r as int),
            tail@ == joined_keys(i as int, later, plan, r as int),
        decreases order@.len() - r,
    {
        assert(order@[r as int] == ranking::ranking(m)[r as int]);
        let at: usize = order[r];
        let c: usize = ids[at];
        let child = &t.nodes[c];
        let ghost first_before = first@;
        let ghost rest_before = rest@;
        let ghost tail_before = tail@;
        proof {
            assert(all[at as int] == c);
            assert(plan[r as int] == c);
            assert(m[at as int] == table@[at as int]@);
        }
        tail.push(0);
        push_bytes(&mut tail, &table[at].key);
        proof {
            assert(tail@ =~= tail_before + seq![0u8] + later[c - i - 1].key);
        }
        if child.name.is_some() && child.class.is_some() {
            if child.avoid_sync || child.avoid_sync_carrier {
                first.push(c);
                proof {
                    assert(ints(first@) =~= ints(first_before).push(c as int));
                }
            } else {
                rest.push(c);
                proof {
                    assert(ints(rest@) =~= ints(rest_before).push(c as int));
                }
            }
        }
        r += 1;
    }
    let ghost first_ids = ints(first@);
    let ghost rest_ids = ints(rest@);
    first.append(&mut rest);
    proof {
        assert(ints(first@) =~= first_ids + rest_ids);
        lemma_choice_bounded(nodes, plan, i as int);
        let both = ints(first@);
        assert forall|q: int| 0 <= q < first@.len() implies i < #[trigger] first@[q]
            < nodes.len() by {
            assert(both[q] == first@[q]);
        }
    }
    let relevant = if node.avoid_sync {
        false
    } else {
        match &node.class {
            None => false,
            Some(class) => {
                let class = class.as_str();
                match f {
                    TreeFlavor::Snapshot => sync_scope::contains(class) && !node.avoid_sync_carrier,
                    TreeFlavor::Studio => !sync_scope::suppressed(class) && (sync_scope::script(
                        class,
                    ) || (text::same(class, "Folder") || !sync_scope::contains(class)) && goes_down
                        && carrying_any),
                }
            },
        }
    };
    let carrying = goes_down && carrying_any;
    let mut key: Vec<u8> = Vec::new();
    let name: &str = match &node.name {
        Some(name) => name.as_str(),
        None => "",
    };
    let class: &str = match &node.class {
        Some(class) => match f {
            TreeFlavor::Snapshot => class.as_str(),
            TreeFlavor::Studio => if sync_scope::script(class.as_str()) || text::same(
                class.as_str(),
                "Folder",
            ) || !carrying {
                class.as_str()
            } else {
                "Folder"
            },
        },
        None => "",
    };
    proof {
        reveal_strlit("");
        assert(name@ =~= name_or_empty(nodes[i as int]));
        assert(class@ =~= mapped_or_empty(f, nodes[i as int], carrying));
    }
    let lowered = lower_text(name);
    push_bytes(&mut key, lowered.as_str().as_bytes());
    key.push(0);
    push_bytes(&mut key, name.as_bytes());
    key.push(0);
    push_bytes(&mut key, class.as_bytes());
    key.push(0);
    push_bytes(&mut key, class.as_bytes());
    if goes_down {
        push_bytes(&mut key, &tail);
    }
    proof {
        let want = fact(f, nodes, i as int, later);
        assert(carrying == carries(f, nodes, i as int, later));
        assert(key@ =~= want.key);
    }
    Summary { relevant, carrying, order: first, key }
}

/// Surveys a tree, from its last node to its first.
pub fn survey(t: &Tree, f: TreeFlavor) -> (s: Survey)
    requires
        t.wf(),
    ensures
        s.of(f, t.nodes@),
{
    let ghost nodes = t.nodes@;
    let n: usize = t.nodes.len();
    let mut relevant: Vec<bool> = Vec::new();
    let mut carrying: Vec<bool> = Vec::new();
    let mut order: Vec<Vec<usize>> = Vec::new();
    let mut keys: Vec<Vec<u8>> = Vec::new();
    let mut k: usize = 0;
    while k < n
        invariant
            k <= n,
            relevant@.len() == k,
            carrying@.len() == k,
            order@.len() == k,
            keys@.len() == k,
        decreases n - k,
    {
        relevant.push(false);
        carrying.push(false);
        order.push(Vec::new());
        keys.push(Vec::new());
        k += 1;
    }
    let mut i: usize = n;
    while i > 0
        invariant
            t.wf(),
            nodes == t.nodes@,
            n == nodes.len(),
            i <= n,
            relevant@.len() == n,
            carrying@.len() == n,
            order@.len() == n,
            keys@.len() == n,
            forall|j: int| i <= j < n ==> #[trigger] relevant@[j] == crate::survey::relevant(f, nodes, j),
            forall|j: int| i <= j < n ==> #[trigger] carrying@[j] == crate::survey::carrying(f, nodes, j),
            forall|j: int| i <= j < n ==> ints((#[trigger] order@[j])@) == projection(f, nodes, j),
            forall|j: int|
                i <= j < n ==> (#[trigger] order@[j])@.len() <= nodes[j].children@.len(),
            forall|j: int, r: int|
                i <= j < n && 0 <= r < order@[j]@.len() ==> j < #[trigger] order@[j]@[r] < n,
            forall|j: int|
                i <= j < n && !(exists|p: int, a: int|
                    i <= p < n && 0 <= a < nodes[p].children@.len() && #[trigger] nodes[p].children@[a] == j)
                    ==> (#[trigger] keys@[j])@ == fact(f, nodes, j, facts_from(f, nodes, j + 1)).key,
        decreases i,
    {
        i -= 1;
        proof {
            let facts = facts_from(f, nodes, i + 1);
            assert forall|k: int| 0 <= k < nodes[i as int].children@.len() implies {
                let c = #[trigger] nodes[i as int].children@[k] as int;
                relevant@[c] == facts[c - i - 1].relevant && keys@[c]@ == facts[c - i - 1].key
            } by {
                let c = nodes[i as int].children@[k] as int;
                assert(i < c < n);
                lemma_facts_from(f, nodes, i + 1, c);
                assert(relevant@[c] == crate::survey::relevant(f, nodes, c));
                assert(keys@[c]@ == fact(f, nodes, c, facts_from(f, nodes, c + 1)).key);
            }
        }
        let s = summarize(t, f, i, &relevant, &keys);
        let ghost keys_before = keys@;
        let count: usize = t.nodes[i].children.len();
        let mut k: usize = 0;
        while k < count
            invariant
                t.wf(),
                nodes == t.nodes@,
                n == nodes.len(),
                i < n,
                count == nodes[i as int].children@.len(),
                k <= count,
                keys@.len() == n,
                keys_before.len() == n,
                forall|j: int|
                    0 <= j < n && !(exists|a: int|
                        0 <= a < count && #[trigger] nodes[i as int].children@[a] == j)
                        ==> (#[trigger] keys@[j]) == keys_before[j],
            decreases count - k,
        {
            let c: usize = t.nodes[i].children[k];
            assert(nodes[i as int].children@[k as int] == c);
            keys[c] = Vec::new();
            k += 1;
        }
        keys[i] = s.key;
        relevant[i] = s.relevant;
        carrying[i] = s.carrying;
        order[i] = s.order;
        proof {
            assert forall|j: int|
                i <= j < n && !(exists|p: int, a: int|
                    i <= p < n && 0 <= a < nodes[p].children@.len()
                        && #[trigger] nodes[p].children@[a] == j) implies (#[trigger] keys@[j])@
                == fact(f, nodes, j, facts_from(f, nodes, j + 1)).key by {
                if j != i {
                    assert(!(exists|a: int|
                        0 <= a < count && #[trigger] nodes[i as int].children@[a] == j));
                    assert(keys@[j] == keys_before[j]);
                    assert(!(exists|p: int, a: int|
                        i + 1 <= p < n && 0 <= a < nodes[p].children@.len()
                            && #[trigger] nodes[p].children@[a] == j));
                }
            }
        }
    }
    Survey { relevant, carrying, order }
}

} // verus!
