use vstd::prelude::*;
use vstd::multiset::Multiset;
use crate::model::{Node, NodeId, NodeState, NodeView, ResourceName};
use crate::top_files::TopKView;

verus! {

/// The directories found so far; a directory's id is its index.
#[derive(Debug)]
pub struct Tree {
    root: NodeId,
    nodes: Vec<Node>,
}

/// The abstract state of a [`Tree`].
pub struct TreeView {
    pub root: NodeId,
    pub nodes: Seq<Node>,
}

/// The view of a directory as [`Node::new`] makes it.
pub open spec fn fresh_node(id: NodeId, parent: Option<NodeId>, name: Seq<char>, top_k: usize) -> NodeView {
    NodeView {
        id,
        parent,
        name,
        children: Seq::empty(),
        own_bytes: 0,
        own_count: 0,
        subtree_known: 0,
        subtree_unknown: 0,
        state: NodeState::Unseen,
        top_files: TopKView { k: top_k, files: Multiset::empty() },
    }
}

/// The shape of a well-formed tree: node `i` has id `i`; node 0 is the only one
/// without a parent; a parent comes before its children; and each node lists
/// its children in increasing order, exactly the nodes whose parent it is.
pub open spec fn tree_wf(nodes: Seq<Node>) -> bool {
    &&& nodes.len() >= 1
    &&& nodes[0]@.parent is None
    &&& forall|i: int| 0 <= i < nodes.len() ==> #[trigger] nodes[i]@.id == i
    &&& forall|i: int|
        0 < i < nodes.len() ==> (#[trigger] nodes[i]@.parent matches Some(p) && p < i)
    &&& forall|i: int, k: int|
        0 <= i < nodes.len() && 0 <= k < nodes[i]@.children.len() ==> {
            let c = #[trigger] nodes[i]@.children[k];
            &&& i < c < nodes.len()
            &&& nodes[c as int]@.parent == Some(i as NodeId)
        }
    &&& forall|i: int, a: int, b: int|
        0 <= i < nodes.len() && 0 <= a < b < nodes[i]@.children.len()
            ==> #[trigger] nodes[i]@.children[a] < #[trigger] nodes[i]@.children[b]
    &&& forall|j: int|
        0 < j < nodes.len() ==> #[trigger] nodes[nodes[j]@.parent.unwrap() as int]@.children.contains(
            j as NodeId,
        )
}

/// The parent, children and id of every node are the same in both.
pub open spec fn same_shape(a: Seq<Node>, b: Seq<Node>) -> bool {
    &&& a.len() == b.len()
    &&& forall|i: int|
        0 <= i < a.len() ==> {
            &&& (#[trigger] a[i])@.id == b[i]@.id
            &&& a[i]@.parent == b[i]@.parent
            &&& a[i]@.children == b[i]@.children
        }
}

pub proof fn lemma_same_shape_wf(a: Seq<Node>, b: Seq<Node>)
    requires
        tree_wf(a),
        same_shape(a, b),
    ensures
        tree_wf(b),
{
    assert(a[0]@.parent == b[0]@.parent);
    assert forall|i: int| 0 <= i < b.len() implies #[trigger] b[i]@.id == i by {
        assert(a[i]@.id == b[i]@.id);
    }
    assert forall|i: int| 0 < i < b.len() implies (#[trigger] b[i]@.parent matches Some(p) && p < i) by {
        assert(a[i]@.parent == b[i]@.parent);
    }
    assert forall|j: int| 0 < j < b.len() implies #[trigger] b[b[j]@.parent.unwrap() as int]@.children.contains(
        j as NodeId,
    ) by {
        assert(a[j]@.parent == b[j]@.parent);
        let p = a[j]@.parent.unwrap() as int;
        assert(a[p]@.children.contains(j as NodeId));
        assert(a[p]@.children == b[p]@.children);
    }
    assert forall|i: int, k: int|
        0 <= i < b.len() && 0 <= k < b[i]@.children.len() implies {
            let c = #[trigger] b[i]@.children[k];
            &&& i < c < b.len()
            &&& b[c as int]@.parent == Some(i as NodeId)
        } by {
        assert(a[i]@.children == b[i]@.children);
        let c = a[i]@.children[k];
        assert(a[c as int]@.parent == b[c as int]@.parent);
    }
    assert forall|i: int, x: int, y: int|
        0 <= i < b.len() && 0 <= x < y < b[i]@.children.len()
            implies #[trigger] b[i]@.children[x] < #[trigger] b[i]@.children[y] by {
        assert(a[i]@.children == b[i]@.children);
        assert(a[i]@.children[x] < a[i]@.children[y]);
    }
}

impl View for Tree {
    type V = TreeView;

    closed spec fn view(&self) -> TreeView {
        TreeView { root: self.root, nodes: self.nodes@ }
    }
}

impl Tree {
    /// A well-formed tree: root 0 and a well-formed shape.
    pub open spec fn wf(&self) -> bool {
        &&& self@.root == 0
        &&& tree_wf(self@.nodes)
    }

    /// A tree of one unseen root directory.
    pub fn new(root_name: ResourceName, top_k: usize) -> (t: Self)
        ensures
            t.wf(),
            t@.nodes.len() == 1,
            t@.nodes[0]@ == fresh_node(0, None, root_name@, top_k),
    {
        let mut nodes: Vec<Node> = Vec::new();
        let root_id: NodeId = 0;
        nodes.push(Node::new(root_id, None, root_name, top_k));
        let t = Self { root: root_id, nodes };
        t
    }

    /// Adds a new unseen directory under `parent_id`; its id is the number of
    /// directories before the call.
    pub fn add_child(&mut self, parent_id: NodeId, name: ResourceName, top_k: usize) -> (id: NodeId)
        requires
            parent_id <= old(self)@.nodes.len(),
        ensures
            id == old(self)@.nodes.len(),
            final(self)@.root == old(self)@.root,
            final(self)@.nodes.len() == id + 1,
            final(self)@.nodes[id as int]@ == (if parent_id == id {
                NodeView { children: seq![id], ..fresh_node(id, Some(parent_id), name@, top_k) }
            } else {
                fresh_node(id, Some(parent_id), name@, top_k)
            }),
            parent_id < id ==> final(self)@.nodes[parent_id as int]@ == (NodeView {
                children: old(self)@.nodes[parent_id as int]@.children.push(id),
                ..old(self)@.nodes[parent_id as int]@
            }),
            forall|i: int| 0 <= i < id && i != parent_id ==> #[trigger] final(self)@.nodes[i] == old(self)@.nodes[i],
            old(self).wf() && parent_id < old(self)@.nodes.len() ==> final(self).wf(),
    {
        let ghost old_nodes = self@.nodes;
        let id = self.nodes.len();
        self.nodes.push(Node::new(id, Some(parent_id), name, top_k));
        assert(self.nodes.len() == self.nodes@.len());
        let ghost pushed = self@.nodes;
        self.nodes[parent_id].push_child(id);
        let ghost n = self@.nodes;
        assert(n =~= pushed.update(parent_id as int, n[parent_id as int]));
        proof {
            if tree_wf(old_nodes) && self.root == 0 && parent_id < old_nodes.len() {
                assert forall|i: int, k: int|
                    0 <= i < n.len() && 0 <= k < n[i]@.children.len() implies {
                        let c = #[trigger] n[i]@.children[k];
                        &&& i < c < n.len()
                        &&& n[c as int]@.parent == Some(i as NodeId)
                    } by {
                    if i == parent_id && k == old_nodes[i]@.children.len() {
                    } else {
                        assert(n[i]@.children[k] == old_nodes[i]@.children[k]);
                    }
                }
                assert forall|i: int, x: int, y: int|
                    0 <= i < n.len() && 0 <= x < y < n[i]@.children.len()
                        implies #[trigger] n[i]@.children[x] < #[trigger] n[i]@.children[y] by {
                    if i == parent_id && y == old_nodes[i]@.children.len() {
                        assert(old_nodes[i]@.children[x] < old_nodes.len());
                    }
                }
                assert forall|j: int| 0 < j < n.len() implies #[trigger] n[n[j]@.parent.unwrap() as int]@.children.contains(
                    j as NodeId,
                ) by {
                    let p = n[j]@.parent.unwrap() as int;
                    if j == id {
                        assert(n[p]@.children[n[p]@.children.len() - 1] == j);
                    } else {
                        assert(n[j]@.parent == old_nodes[j]@.parent);
                        assert(old_nodes[p]@.children.contains(j as NodeId));
                        let w = choose|w: int| 0 <= w < old_nodes[p]@.children.len() && old_nodes[p]@.children[w] == j as NodeId;
                        assert(n[p]@.children[w] == j as NodeId);
                    }
                }
                assert(forall|i: int| 0 <= i < n.len() ==> #[trigger] n[i]@.id == i);
                assert forall|i: int| 0 < i < n.len() implies (#[trigger] n[i]@.parent matches Some(p) && p < i) by {
                }
            }
        }
        id
    }

    pub fn node(&self, id: NodeId) -> (r: &Node)
        requires
            id < self@.nodes.len(),
        ensures
            r@ == self@.nodes[id as int]@,
            *r == self@.nodes[id as int],
    {
        &self.nodes[id]
    }

    pub fn node_mut(&mut self, id: NodeId) -> (r: &mut Node)
        requires
            id < old(self)@.nodes.len(),
        ensures
            *r == old(self)@.nodes[id as int],
            final(self)@ == (TreeView { nodes: old(self)@.nodes.update(id as int, *final(r)), ..old(self)@ }),
    {
        &mut self.nodes[id]
    }

    /// Whether the tree is well formed, see [`tree_wf`].
    pub fn is_well_formed(&self) -> (b: bool)
        ensures
            b == self.wf(),
    {
        let ghost nodes = self@.nodes;
        let n = self.nodes.len();
        if self.root != 0 || n == 0 {
            return false;
        }
        if self.nodes[0].parent_id().is_some() {
            return false;
        }
        let mut i: usize = 0;
        while i < n
            invariant
                n == nodes.len(),
                nodes == self@.nodes,
                self.root == 0,
                n >= 1,
                nodes[0]@.parent is None,
                i <= n,
                forall|a: int| 0 <= a < i ==> #[trigger] nodes[a]@.id == a,
                forall|a: int| 0 < a < i ==> (#[trigger] nodes[a]@.parent matches Some(p) && p < a),
                forall|a: int, k: int|
                    0 <= a < i && 0 <= k < nodes[a]@.children.len() ==> {
                        let c = #[trigger] nodes[a]@.children[k];
                        &&& a < c < n
                        &&& nodes[c as int]@.parent == Some(a as NodeId)
                    },
                forall|a: int, x: int, y: int|
                    0 <= a < i && 0 <= x < y < nodes[a]@.children.len()
                        ==> #[trigger] nodes[a]@.children[x] < #[trigger] nodes[a]@.children[y],
            decreases n - i,
        {
            let node = &self.nodes[i];
            if node.id() != i {
                return false;
            }
            if i > 0 {
                match node.parent_id() {
                    Some(p) => {
                        if p >= i {
                            return false;
                        }
                    },
                    None => {
                        return false;
                    },
                }
            }
            let ch = node.children();
            let mut k: usize = 0;
            while k < ch.len()
                invariant
                    n == nodes.len(),
                    nodes == self@.nodes,
                    i < n,
                    ch@ == nodes[i as int]@.children,
                    k <= ch@.len(),
                    forall|m: int| 0 <= m < k ==> i < #[trigger] ch@[m] < n && nodes[ch@[m] as int]@.parent == Some(i),
                    forall|x: int, y: int| 0 <= x < y < k ==> #[trigger] ch@[x] < #[trigger] ch@[y],
                decreases ch@.len() - k,
            {
                let c = ch[k];
                if !(i < c && c < n) {
                    return false;
                }
                if self.nodes[c].parent_id() != Some(i) {
                    return false;
                }
                if k > 0 && ch[k - 1] >= c {
                    return false;
                }
                proof {
                    assert forall|x: int| 0 <= x < k implies #[trigger] ch@[x] < c by {
                        if x < k - 1 {
                            assert(ch@[x] < ch@[k - 1]);
                        }
                    }
                }
                k = k + 1;
            }
            i = i + 1;
        }
        let mut j: usize = 1;
        while j < n
            invariant
                n == nodes.len(),
                nodes == self@.nodes,
                1 <= j <= n,
                forall|a: int| 0 < a < n ==> (#[trigger] nodes[a]@.parent matches Some(p) && p < a),
                forall|a: int| 0 < a < j ==> #[trigger] nodes[nodes[a]@.parent.unwrap() as int]@.children.contains(a as NodeId),
            decreases n - j,
        {
            let p = self.nodes[j].parent_id().unwrap();
            let ch = self.nodes[p].children();
            let mut k: usize = 0;
            let mut found = false;
            while k < ch.len() && !found
                invariant
                    k <= ch@.len(),
                    found ==> ch@.contains(j as NodeId),
                    !found ==> forall|m: int| 0 <= m < k ==> ch@[m] != j,
                decreases ch@.len() - k,
            {
                if ch[k] == j {
                    found = true;
                }
                k = k + 1;
            }
            if !found {
                proof {
                    assert(!nodes[nodes[j as int]@.parent.unwrap() as int]@.children.contains(j as NodeId));
                }
                return false;
            }
            j = j + 1;
        }
        true
    }

    /// The number of directories.
    pub fn len(&self) -> (n: usize)
        ensures
            n == self@.nodes.len(),
    {
        self.nodes.len()
    }


    pub fn root(&self) -> (r: NodeId)
        ensures
            r == self@.root,
    {
        self.root
    }
}

/// The nodes of `a` and `b` are alike, node for node.
pub open spec fn same_nodes(a: Seq<Node>, b: Seq<Node>) -> bool {
    &&& a.len() == b.len()
    &&& forall|i: int| 0 <= i < a.len() ==> (#[trigger] a[i])@ == b[i]@
}

impl Clone for Tree {
    fn clone(&self) -> (r: Self)
        ensures
            r@.root == self@.root,
            same_nodes(r@.nodes, self@.nodes),
            self.wf() ==> r.wf(),
    {
        let mut nodes: Vec<Node> = Vec::new();
        let mut i: usize = 0;
        while i < self.nodes.len()
            invariant
                i <= self.nodes@.len(),
                nodes@.len() == i,
                forall|k: int| 0 <= k < i ==> (#[trigger] nodes@[k])@ == self.nodes@[k]@,
            decreases self.nodes@.len() - i,
        {
            nodes.push(self.nodes[i].clone());
            i = i + 1;
        }
        let r = Tree { root: self.root, nodes };
        proof {
            lemma_same_nodes_wf(r@.nodes, self@.nodes);
        }
        r
    }
}

/// Clone law: two trees alike in every node are both well formed or neither is.
pub proof fn lemma_same_nodes_wf(a: Seq<Node>, b: Seq<Node>)
    requires
        same_nodes(a, b),
    ensures
        tree_wf(a) == tree_wf(b),
{
    assert(same_shape(a, b));
    assert(same_shape(b, a));
    if tree_wf(a) {
        lemma_same_shape_wf(a, b);
    }
    if tree_wf(b) {
        lemma_same_shape_wf(b, a);
    }
}

} // verus!
