//! Instance trees, kept flat: every node stands after its parent.
use vstd::prelude::*;

use crate::text;

verus! {

/// What is known of one instance.
#[derive(Debug)]
pub struct TreeNode {
    pub class: Option<String>,
    pub name: Option<String>,
    /// The subtree is not synchronised; the name stays reserved.
    pub avoid_sync: bool,
    /// The node only carries subtrees that are not synchronised.
    pub avoid_sync_carrier: bool,
    /// The listing of this subtree was cut short.
    pub truncated: bool,
    pub source: Option<String>,
    pub disk_fragment: Option<String>,
    pub disk_fragment_is_dir: Option<bool>,
    pub has_children: Option<bool>,
    pub source_included: Option<bool>,
    pub stream_id: Option<u64>,
    /// The places of the children, in order.
    pub children: Vec<usize>,
}

impl TreeNode {
    pub open spec fn class_text(&self) -> Option<Seq<char>> {
        text::option_text(self.class)
    }

    pub open spec fn name_text(&self) -> Option<Seq<char>> {
        text::option_text(self.name)
    }

    /// Whether the node keeps a name from its siblings without being synced.
    pub open spec fn is_reservation(&self) -> bool {
        self.avoid_sync || self.avoid_sync_carrier
    }

    /// A node of the given class and name, with nothing else known.
    pub fn plain(class: String, name: String) -> (n: TreeNode)
        ensures
            n.class_text() == Some(class@),
            n.name_text() == Some(name@),
            !n.avoid_sync && !n.avoid_sync_carrier && !n.truncated,
            n.source is None && n.disk_fragment is None && n.disk_fragment_is_dir is None,
            n.has_children is None && n.source_included is None && n.stream_id is None,
            n.children@.len() == 0,
    {
        TreeNode {
            class: Some(class),
            name: Some(name),
            avoid_sync: false,
            avoid_sync_carrier: false,
            truncated: false,
            source: None,
            disk_fragment: None,
            disk_fragment_is_dir: None,
            has_children: None,
            source_included: None,
            stream_id: None,
            children: Vec::new(),
        }
    }
}

/// A forest of instances.
#[derive(Debug)]
pub struct Tree {
    pub nodes: Vec<TreeNode>,
}

/// Every child stands after its parent and has no other parent.
pub open spec fn tree_wf(t: Seq<TreeNode>) -> bool {
    &&& forall|i: int, a: int|
        0 <= i < t.len() && 0 <= a < t[i].children@.len() ==> i < #[trigger] t[i].children@[a]
            < t.len()
    &&& forall|i: int, a: int, j: int, b: int|
        0 <= i < t.len() && 0 <= a < t[i].children@.len() && 0 <= j < t.len() && 0 <= b
            < t[j].children@.len() && #[trigger] t[i].children@[a]
            == #[trigger] t[j].children@[b] ==> i == j && a == b
    &&& forall|i: int| 0 <= i < t.len() ==> (#[trigger] t[i]).children@.len() < t.len()
}

impl Tree {
    pub open spec fn wf(&self) -> bool {
        tree_wf(self.nodes@)
    }

    pub fn new() -> (t: Tree)
        ensures
            t.wf(),
            t.nodes@.len() == 0,
    {
        Tree { nodes: Vec::new() }
    }

    /// Puts a node without children below `parent`, after the children that are
    /// there, and gives its place.
    pub fn add_node(&mut self, parent: Option<usize>, node: TreeNode) -> (id: usize)
        requires
            old(self).wf(),
            node.children@.len() == 0,
            parent is Some ==> parent->0 < old(self).nodes@.len(),
            old(self).nodes@.len() < usize::MAX,
        ensures
            final(self).wf(),
            id == old(self).nodes@.len(),
            final(self).nodes@.len() == old(self).nodes@.len() + 1,
            final(self).nodes@[id as int] == node,
            forall|i: int|
                0 <= i < old(self).nodes@.len() && Some(i as usize) != parent
                    ==> (#[trigger] final(self).nodes@[i]) == old(self).nodes@[i],
            parent matches Some(p) ==> {
                let before = old(self).nodes@[p as int];
                let after = final(self).nodes@[p as int];
                &&& after.children@ == before.children@.push(id)
                &&& after == (TreeNode { children: after.children, ..before })
            },
    {
        let id: usize = self.nodes.len();
        let ghost before = self.nodes@;
        if let Some(p) = parent {
            self.nodes[p].children.push(id);
        }
        self.nodes.push(node);
        proof {
            let t = self.nodes@;
            let n = before.len() as int;
            assert(t.len() == n + 1);
            assert forall|i: int| 0 <= i < n && Some(i as usize) != parent implies #[trigger] t[i]
                == before[i] by {}
            assert forall|i: int, a: int|
                0 <= i < t.len() && 0 <= a < t[i].children@.len() implies i
                < #[trigger] t[i].children@[a] < t.len() by {
                if i < n {
                    if Some(i as usize) == parent {
                        if a < before[i].children@.len() {
                            assert(t[i].children@[a] == before[i].children@[a]);
                        }
                    } else {
                        assert(t[i] == before[i]);
                    }
                }
            }
            assert forall|i: int, a: int, j: int, b: int|
                0 <= i < t.len() && 0 <= a < t[i].children@.len() && 0 <= j < t.len() && 0 <= b
                    < t[j].children@.len() && #[trigger] t[i].children@[a]
                    == #[trigger] t[j].children@[b] implies i == j && a == b by {
                let old_i = i < n && a < before[i].children@.len();
                let old_j = j < n && b < before[j].children@.len();
                if old_i {
                    assert(t[i].children@[a] == before[i].children@[a]);
                }
                if old_j {
                    assert(t[j].children@[b] == before[j].children@[b]);
                }
            }
            assert forall|i: int| 0 <= i < t.len() implies (#[trigger] t[i]).children@.len()
                < t.len() by {
                if i < n {
                    assert(before[i].children@.len() < n);
                }
            }
        }
        id
    }
}

} // verus!
