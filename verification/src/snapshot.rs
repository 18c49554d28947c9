use vstd::prelude::*;
use crate::model::{Node, NodeId};
use crate::totals::{is_ancestor, lemma_ancestor_below, lemma_ancestor_transitive_chain, on_chain, totals_fit};
use crate::tree::{Tree, tree_wf};
use crate::view::{FileMetadata, lists_top_files, view_top_files};
use crate::walk::{
    Entry, depth_of, flat, kids_are_children, kids_cover_within, kids_ok, lemma_children_distinct, lemma_flat_single,
    lemma_flat_step, lemma_preorder_all, lemma_preorder_covers, lemma_preorder_covers_within, lemma_preorder_distinct, lemma_preorder_same,
    lemma_stack_step, pending_of, preorder, steps_below, total_of,
};

verus! {

/// A directory of a tree sent whole to a viewer.
#[derive(Clone, Debug)]
pub struct TreeNode {
    pub id: usize,
    pub parent: Option<usize>,
    pub name: String,
    pub size: u64,
    pub own_size: u64,
    pub children: Vec<usize>,
    pub top_files: Vec<FileMetadata>,
    pub depth: usize,
}

/// The entries for nodes `ids`, one level below `e`.
pub open spec fn level_entries(ids: Seq<NodeId>, e: Entry) -> Seq<Entry> {
    ids.map_values(|c: NodeId| (c, (e.1 + 1) as usize, None::<NodeId>))
}

/// The entries a snapshot walk leads on to from `e`: below `max_depth`, the
/// children of its node, the last child first.
pub open spec fn snapshot_kids(nodes: Seq<Node>, max_depth: int) -> spec_fn(Entry) -> Seq<Entry> {
    |e: Entry|
        if e.1 < max_depth {
            level_entries(nodes[e.0 as int]@.children.reverse(), e)
        } else {
            Seq::empty()
        }
}

/// `tn` shows the node of entry `e`, listing its children where `listed`.
pub open spec fn snapshot_entry(nodes: Seq<Node>, e: Entry, listed: bool, tn: TreeNode) -> bool {
    let v = nodes[e.0 as int]@;
    &&& tn.id == e.0
    &&& tn.parent == v.parent
    &&& tn.depth == e.1
    &&& tn.name@ == v.name
    &&& tn.size == total_of(nodes, e.0 as int)
    &&& tn.own_size == v.own_bytes
    &&& tn.children@ == (if listed { v.children } else { Seq::empty() })
    &&& lists_top_files(v.top_files, nodes[e.0 as int].listed_files(), tn.top_files@)
}

pub proof fn lemma_snapshot_kids_ok(nodes: Seq<Node>, max_depth: int)
    requires
        tree_wf(nodes),
    ensures
        kids_ok(nodes.len() as int, snapshot_kids(nodes, max_depth)),
{
    let kids = snapshot_kids(nodes, max_depth);
    assert forall|e: Entry, k: int| 0 <= e.0 < nodes.len() && 0 <= k < kids(e).len() implies e.0 < (
    #[trigger] kids(e)[k]).0 < nodes.len() by {
        lemma_children_distinct(nodes, e.0 as int);
        let ch = nodes[e.0 as int]@.children;
        assert(ch.reverse()[k] == ch[ch.len() - 1 - k]);
    }
}

/// A snapshot walk leads on from a node only to distinct children of it.
proof fn lemma_snapshot_kids_children(nodes: Seq<Node>, max_depth: int)
    requires
        tree_wf(nodes),
    ensures
        kids_are_children(nodes, snapshot_kids(nodes, max_depth)),
{
    let kids = snapshot_kids(nodes, max_depth);
    assert forall|e: Entry, k: int| 0 <= e.0 < nodes.len() && 0 <= k < kids(e).len() implies nodes[(
    #[trigger] kids(e)[k]).0 as int]@.parent == Some(e.0) by {
        let ch = nodes[e.0 as int]@.children;
        assert(ch.reverse()[k] == ch[ch.len() - 1 - k]);
        assert(nodes[e.0 as int]@.children[ch.len() - 1 - k] == ch[ch.len() - 1 - k]);
    }
    assert forall|e: Entry, a: int, b: int| 0 <= e.0 < nodes.len() && 0 <= a < b < kids(e).len() implies (
    #[trigger] kids(e)[a]).0 != (#[trigger] kids(e)[b]).0 by {
        lemma_children_distinct(nodes, e.0 as int);
        let ch = nodes[e.0 as int]@.children;
        assert(ch.reverse()[a] == ch[ch.len() - 1 - a]);
        assert(ch.reverse()[b] == ch[ch.len() - 1 - b]);
    }
}

/// A snapshot lists the directory it starts from and directories under it,
/// each at most once.
pub proof fn lemma_snapshot_lists_each_once(nodes: Seq<Node>, root_id: NodeId, max_depth: int)
    requires
        tree_wf(nodes),
        root_id < nodes.len(),
    ensures
        ({
            let walk = preorder(nodes.len() as int, snapshot_kids(nodes, max_depth), (root_id, 0, None));
            &&& forall|i: int| 0 <= i < walk.len() ==> on_chain(nodes, root_id as int, (#[trigger] walk[i]).0 as int)
            &&& forall|i: int, j: int| 0 <= i < j < walk.len() ==> (#[trigger] walk[i]).0 != (#[trigger] walk[j]).0
        }),
{
    lemma_snapshot_kids_ok(nodes, max_depth);
    lemma_snapshot_kids_children(nodes, max_depth);
    lemma_preorder_distinct(nodes, snapshot_kids(nodes, max_depth), (root_id, 0, None));
}

/// A whole snapshot reaches every directory under the one it starts from.
pub proof fn lemma_snapshot_lists_all(nodes: Seq<Node>, root_id: NodeId, x: int)
    requires
        tree_wf(nodes),
        root_id < nodes.len(),
        on_chain(nodes, root_id as int, x),
    ensures
        ({
            let walk = preorder(nodes.len() as int, snapshot_kids(nodes, nodes.len() as int), (root_id, 0, None));
            exists|i: int| 0 <= i < walk.len() && walk[i].0 == x
        }),
{
    let n = nodes.len() as int;
    let kids = snapshot_kids(nodes, n);
    let prop = |y: Entry| 0 <= y.1 <= y.0 < n;
    lemma_snapshot_kids_ok(nodes, n);
    assert forall|y: Entry, k: int| 0 <= y.0 < n && prop(y) && 0 <= k < kids(y).len() implies prop(
    #[trigger] kids(y)[k]) by {
        lemma_children_distinct(nodes, y.0 as int);
        let ch = nodes[y.0 as int]@.children;
        assert(ch.reverse()[k] == ch[ch.len() - 1 - k]);
    }
    assert forall|y: Entry, c: int|
        #![trigger prop(y), nodes[c]]
        0 <= y.0 < n && prop(y) && 0 <= c < n && nodes[c]@.parent == Some(y.0) implies exists|k: int|
        0 <= k < kids(y).len() && (#[trigger] kids(y)[k]).0 == c by {
        let ch = nodes[y.0 as int]@.children;
        assert(nodes[c]@.id == c);
        assert(c > 0) by {
            if c == 0 {
                assert(nodes[0]@.parent is None);
            }
        }
        assert(nodes[nodes[c]@.parent.unwrap() as int]@.children.contains(c as NodeId));
        let m = choose|m: int| 0 <= m < ch.len() && ch[m] == c as NodeId;
        let k = ch.len() - 1 - m;
        assert(ch.reverse()[k] == ch[m]);
        assert(kids(y) == level_entries(ch.reverse(), y));
        assert(level_entries(ch.reverse(), y)[k].0 == ch.reverse()[k]);
    }
    lemma_preorder_covers(nodes, kids, prop, (root_id, 0, None), x);
}

/// A snapshot limited to `max_depth` levels reaches every directory under the
/// one it starts from that lies no deeper than that.
pub proof fn lemma_snapshot_lists_within(nodes: Seq<Node>, root_id: NodeId, max_depth: usize, x: int)
    requires
        tree_wf(nodes),
        root_id < nodes.len(),
        on_chain(nodes, root_id as int, x),
        steps_below(nodes, root_id as int, x) <= max_depth,
    ensures
        ({
            let walk = preorder(nodes.len() as int, snapshot_kids(nodes, max_depth as int), (root_id, 0, None));
            exists|i: int| 0 <= i < walk.len() && walk[i].0 == x
        }),
{
    let kids = snapshot_kids(nodes, max_depth as int);
    let limit = max_depth as int;
    lemma_snapshot_kids_ok(nodes, limit);
    assert forall|y: Entry, k: int| 0 <= y.0 < nodes.len() && y.1 < limit && 0 <= k < kids(y).len() implies (
    #[trigger] kids(y)[k]).1 == y.1 + 1 by {
        let ch = nodes[y.0 as int]@.children;
        assert(kids(y) == level_entries(ch.reverse(), y));
    }
    assert forall|y: Entry, c: int|
        #![trigger depth_of(y), nodes[c]]
        0 <= y.0 < nodes.len() && depth_of(y) < limit && 0 <= c < nodes.len() && nodes[c]@.parent == Some(y.0)
            implies exists|k: int| 0 <= k < kids(y).len() && (#[trigger] kids(y)[k]).0 == c by {
        let ch = nodes[y.0 as int]@.children;
        assert(nodes[c]@.id == c);
        assert(c > 0) by {
            if c == 0 {
                assert(nodes[0]@.parent is None);
            }
        }
        assert(nodes[nodes[c]@.parent.unwrap() as int]@.children.contains(c as NodeId));
        let m = choose|m: int| 0 <= m < ch.len() && ch[m] == c as NodeId;
        let k = ch.len() - 1 - m;
        assert(ch.reverse()[k] == ch[m]);
        assert(kids(y) == level_entries(ch.reverse(), y));
        assert(level_entries(ch.reverse(), y)[k].0 == ch.reverse()[k]);
    }
    assert(kids_cover_within(nodes, kids, limit));
    lemma_preorder_covers_within(nodes, kids, limit, (root_id, 0, None), x);
}

/// No directory lies more than `d` levels below `root`.
pub open spec fn height_within(nodes: Seq<Node>, root: int, d: int) -> bool {
    forall|x: int| 0 <= x < nodes.len() && #[trigger] on_chain(nodes, root, x) ==> steps_below(nodes, root, x) <= d
}

/// A limited snapshot whose limit reaches the deepest directory under its
/// start walks the same directories as the whole snapshot, in the same
/// order, and leaves out the children of none that has any: entry by entry
/// the two say the same.
pub proof fn lemma_limited_snapshot_is_whole(nodes: Seq<Node>, root_id: NodeId, max_depth: usize)
    requires
        tree_wf(nodes),
        root_id < nodes.len(),
        height_within(nodes, root_id as int, max_depth as int),
    ensures
        ({
            let start: Entry = (root_id, 0, None);
            let limited = preorder(nodes.len() as int, snapshot_kids(nodes, max_depth as int), start);
            &&& limited == preorder(nodes.len() as int, snapshot_kids(nodes, nodes.len() as int), start)
            &&& forall|i: int|
                0 <= i < limited.len() ==> (#[trigger] limited[i]).1 < max_depth || nodes[limited[i].0 as int]@.children.len()
                    == 0
        }),
{
    let n = nodes.len() as int;
    let r = root_id as int;
    let k1 = snapshot_kids(nodes, max_depth as int);
    let k2 = snapshot_kids(nodes, n);
    let prop = |e: Entry| 0 <= e.1 <= e.0 < n && on_chain(nodes, r, e.0 as int) && e.1 == steps_below(nodes, r, e.0 as int);
    lemma_snapshot_kids_ok(nodes, max_depth as int);
    lemma_snapshot_kids_ok(nodes, n);
    assert forall|x: Entry, k: int| 0 <= x.0 < n && prop(x) && 0 <= k < k1(x).len() implies prop(#[trigger] k1(x)[k]) by {
        lemma_children_distinct(nodes, x.0 as int);
        let ch = nodes[x.0 as int]@.children;
        let c = ch[ch.len() - 1 - k];
        assert(ch.reverse()[k] == c);
        assert(nodes[x.0 as int]@.children[ch.len() - 1 - k] == c);
        assert(nodes[c as int]@.parent == Some(x.0));
        assert(nodes[c as int]@.id == c);
        assert(is_ancestor(nodes, x.0 as int, c as int));
        if x.0 != r {
            lemma_ancestor_transitive_chain(nodes, r, x.0 as int, c as int);
        }
        assert(steps_below(nodes, r, c as int) == steps_below(nodes, r, x.0 as int) + 1) by {
            if x.0 != r {
                lemma_ancestor_below(nodes, r, x.0 as int);
            }
        }
    }
    assert forall|x: Entry| 0 <= x.0 < n && prop(x) implies #[trigger] k1(x) == k2(x) by {
        if x.1 >= max_depth {
            let ch = nodes[x.0 as int]@.children;
            if ch.len() > 0 {
                lemma_children_distinct(nodes, x.0 as int);
                let c = ch[0];
                assert(nodes[x.0 as int]@.children[0] == c);
                assert(nodes[c as int]@.parent == Some(x.0));
                assert(is_ancestor(nodes, x.0 as int, c as int));
                if x.0 != r {
                    lemma_ancestor_transitive_chain(nodes, r, x.0 as int, c as int);
                    lemma_ancestor_below(nodes, r, x.0 as int);
                }
                assert(steps_below(nodes, r, c as int) == steps_below(nodes, r, x.0 as int) + 1);
                assert(on_chain(nodes, r, c as int));
                assert(false);
            }
            assert(ch.reverse() =~= Seq::<NodeId>::empty());
            assert(level_entries(ch.reverse(), x) =~= Seq::<Entry>::empty());
        }
    }
    let start: Entry = (root_id, 0, None);
    assert(prop(start));
    lemma_preorder_same(n, k1, k2, prop, start);
    lemma_preorder_all(n, k1, prop, start);
    let limited = preorder(n, k1, start);
    assert forall|i: int| 0 <= i < limited.len() implies (#[trigger] limited[i]).1 < max_depth || nodes[limited[i].0 as int]@.children.len()
        == 0 by {
        let x = limited[i];
        assert(prop(x));
        if x.1 >= max_depth && nodes[x.0 as int]@.children.len() > 0 {
            let ch = nodes[x.0 as int]@.children;
            lemma_children_distinct(nodes, x.0 as int);
            let c = ch[0];
            assert(nodes[x.0 as int]@.children[0] == c);
            assert(nodes[c as int]@.parent == Some(x.0));
            assert(is_ancestor(nodes, x.0 as int, c as int));
            if x.0 != r {
                lemma_ancestor_transitive_chain(nodes, r, x.0 as int, c as int);
                lemma_ancestor_below(nodes, r, x.0 as int);
            }
            assert(steps_below(nodes, r, c as int) == steps_below(nodes, r, x.0 as int) + 1);
            assert(on_chain(nodes, r, c as int));
        }
    }
}

/// Two entries of snapshots say the same: the same directory, parent,
/// depth, name, sizes, children and largest files, in the same order.
pub open spec fn same_tree_node(a: TreeNode, b: TreeNode) -> bool {
    &&& a.id == b.id
    &&& a.parent == b.parent
    &&& a.name@ == b.name@
    &&& a.size == b.size
    &&& a.own_size == b.own_size
    &&& a.children@ == b.children@
    &&& a.top_files@.map_values(|f: FileMetadata| (f.size, f.name@)) == b.top_files@.map_values(
        |f: FileMetadata| (f.size, f.name@),
    )
    &&& a.depth == b.depth
}

/// Snapshot law: a snapshot limited to `max_depth` levels, where no
/// directory under the start lies deeper than that, says entry by entry
/// what the whole snapshot says (`whole` and `limited` as
/// [`serialize_tree`] and [`serialize_tree_limited`] give them).
pub proof fn lemma_limited_snapshot_equals_whole(
    nodes: Seq<Node>,
    root_id: NodeId,
    max_depth: usize,
    whole: Seq<TreeNode>,
    limited: Seq<TreeNode>,
)
    requires
        tree_wf(nodes),
        root_id < nodes.len(),
        height_within(nodes, root_id as int, max_depth as int),
        ({
            let walk = preorder(nodes.len() as int, snapshot_kids(nodes, nodes.len() as int), (root_id, 0, None));
            &&& whole.len() == walk.len()
            &&& forall|i: int| 0 <= i < walk.len() ==> snapshot_entry(nodes, walk[i], true, #[trigger] whole[i])
        }),
        ({
            let walk = preorder(nodes.len() as int, snapshot_kids(nodes, max_depth as int), (root_id, 0, None));
            &&& limited.len() == walk.len()
            &&& forall|i: int|
                0 <= i < walk.len() ==> snapshot_entry(nodes, walk[i], walk[i].1 < max_depth, #[trigger] limited[i])
        }),
    ensures
        whole.len() == limited.len(),
        forall|i: int| 0 <= i < whole.len() ==> same_tree_node(#[trigger] whole[i], limited[i]),
{
    lemma_limited_snapshot_is_whole(nodes, root_id, max_depth);
    let walk = preorder(nodes.len() as int, snapshot_kids(nodes, max_depth as int), (root_id, 0, None));
    assert forall|i: int| 0 <= i < whole.len() implies same_tree_node(#[trigger] whole[i], limited[i]) by {
        assert(snapshot_entry(nodes, walk[i], true, whole[i]));
        assert(snapshot_entry(nodes, walk[i], walk[i].1 < max_depth, limited[i]));
        assert(walk[i].1 < max_depth || nodes[walk[i].0 as int]@.children.len() == 0);
        if !(walk[i].1 < max_depth) {
            assert(nodes[walk[i].0 as int]@.children =~= Seq::<NodeId>::empty());
        }
    }
}

fn snapshot_node(tree: &Tree, node_id: NodeId, depth: usize, listed: bool) -> (tn: TreeNode)
    requires
        tree.wf(),
        node_id < tree@.nodes.len(),
        totals_fit(tree@.nodes),
    ensures
        forall|p: Option<NodeId>| snapshot_entry(tree@.nodes, (node_id, depth, p), listed, tn),
{
    let node = tree.node(node_id);
    let children = if listed {
        vstd::slice::slice_to_vec(node.children())
    } else {
        Vec::new()
    };
    TreeNode {
        id: node_id,
        parent: node.parent_id(),
        name: node.name().to_owned(),
        size: node.total_bytes(),
        own_size: node.own_bytes(),
        children,
        top_files: view_top_files(tree, node_id),
        depth,
    }
}

/// The walk shared by both snapshots: below `max_depth` (or everywhere, where
/// there is none), every child of a directory follows it, the last child first.
fn snapshot_walk(tree: &Tree, root_id: NodeId, max_depth: Option<usize>) -> (out: Vec<TreeNode>)
    requires
        tree.wf(),
        root_id < tree@.nodes.len(),
        totals_fit(tree@.nodes),
    ensures
        ({
            let nodes = tree@.nodes;
            let limit: int = match max_depth {
                Some(m) => m as int,
                None => nodes.len() as int,
            };
            let walk = preorder(nodes.len() as int, snapshot_kids(nodes, limit), (root_id, 0, None));
            &&& out@.len() == walk.len()
            &&& forall|i: int|
                0 <= i < walk.len() ==> snapshot_entry(nodes, walk[i], walk[i].1 < limit, #[trigger] out@[i])
        }),
{
    let ghost nodes = tree@.nodes;
    let ghost n = nodes.len() as int;
    let ghost limit: int = match max_depth {
        Some(m) => m as int,
        None => n,
    };
    let ghost kids = snapshot_kids(nodes, limit);
    let ghost root_e: Entry = (root_id, 0, None);
    let ghost walk = preorder(n, kids, root_e);
    let mut out: Vec<TreeNode> = Vec::new();
    let mut stack: Vec<Entry> = Vec::new();
    stack.push((root_id, 0, None));
    let ghost mut done: Seq<Entry> = Seq::empty();
    proof {
        lemma_snapshot_kids_ok(nodes, limit);
        lemma_flat_single(n, kids, root_e);
        assert(pending_of(stack@) =~= seq![root_e]);
        assert(done + flat(n, kids, pending_of(stack@)) =~= walk);
    }
    while stack.len() > 0
        invariant
            tree.wf(),
            nodes == tree@.nodes,
            n == nodes.len(),
            totals_fit(nodes),
            limit == (match max_depth {
                Some(m) => m as int,
                None => n,
            }),
            kids == snapshot_kids(nodes, limit),
            kids_ok(n, kids),
            walk == preorder(n, kids, root_e),
            done + flat(n, kids, pending_of(stack@)) == walk,
            out@.len() == done.len(),
            forall|i: int| 0 <= i < done.len() ==> snapshot_entry(nodes, done[i], done[i].1 < limit, #[trigger] out@[i]),
            forall|k: int| 0 <= k < stack@.len() ==> 0 <= (#[trigger] stack@[k]).0 < n && stack@[k].1 <= stack@[k].0 && stack@[k].2 is None,
        decreases walk.len() - done.len(),
    {
        let ghost st = stack@;
        let (node_id, depth, unused) = stack.pop().unwrap();
        let ghost e = (node_id, depth, unused);
        let listed = match max_depth {
            Some(m) => depth < m,
            None => true,
        };
        proof {
            assert(listed == (depth < limit)) by {
                if max_depth is None {
                    assert(depth <= node_id);
                }
            }
        }
        let tn = snapshot_node(tree, node_id, depth, listed);
        let ghost ch = nodes[node_id as int]@.children;
        proof {
            lemma_children_distinct(nodes, node_id as int);
            assert(snapshot_entry(nodes, e, listed, tn));
        }
        if listed {
            let children = tree.node(node_id).children();
            let mut j: usize = 0;
            while j < children.len()
                invariant
                    j <= ch.len(),
                    children@ == ch,
                    st.len() > 0,
                    e == (node_id, depth, unused),
                    depth <= node_id,
                    node_id < n,
                    forall|k: int| 0 <= k < ch.len() ==> node_id < #[trigger] ch[k] < n,
                    stack@ == st.drop_last() + level_entries(ch, e).take(j as int),
                decreases ch.len() - j,
            {
                assert(node_id < ch[j as int]);
                stack.push((children[j], depth + 1, None));
                proof {
                    assert(stack@ =~= st.drop_last() + level_entries(ch, e).take(j + 1));
                }
                j = j + 1;
            }
            proof {
                assert(level_entries(ch, e).take(ch.len() as int) =~= level_entries(ch, e));
            }
        }
        let ghost pushed = if listed { level_entries(ch.reverse(), e) } else { Seq::<Entry>::empty() };
        proof {
            assert(kids(e) == pushed);
            if listed {
                assert(pushed.reverse() =~= level_entries(ch, e));
            } else {
                assert(stack@ =~= st.drop_last() + pushed.reverse());
            }
            assert(stack@ == st.drop_last() + pushed.reverse());
            lemma_stack_step(st, pushed);
            lemma_flat_step(n, kids, pending_of(st));
            assert(pending_of(st).drop_first() =~= pending_of(st.drop_last()));
            assert(pending_of(st)[0] == e);
        }
        let ghost out0 = out@;
        out.push(tn);
        proof {
            done = done.push(e);
            assert(done + flat(n, kids, pending_of(stack@)) =~= walk);
            assert forall|k: int| 0 <= k < stack@.len() implies 0 <= (#[trigger] stack@[k]).0 < n && stack@[k].1
                <= stack@[k].0 && stack@[k].2 is None by {
                if k >= st.len() - 1 {
                    let m = k - (st.len() - 1);
                    assert(stack@[k] == level_entries(ch, e)[m]);
                    assert(node_id < ch[m]);
                } else {
                    assert(stack@[k] == st[k]);
                }
            }
            assert forall|i: int| 0 <= i < done.len() implies snapshot_entry(nodes, done[i], done[i].1 < limit, #[trigger] out@[i]) by {
                if i < done.len() - 1 {
                    assert(out@[i] == out0[i]);
                }
            }
        }
    }
    proof {
        assert(pending_of(stack@) =~= Seq::<Entry>::empty());
        assert(done + Seq::<Entry>::empty() =~= done);
    }
    out
}

/// Every directory from `root_id` down, each before its children, the last
/// child first, each listing all of its children.
pub fn serialize_tree(tree: &Tree, root_id: NodeId) -> (out: Vec<TreeNode>)
    requires
        tree.wf(),
        root_id < tree@.nodes.len(),
        totals_fit(tree@.nodes),
    ensures
        ({
            let nodes = tree@.nodes;
            let walk = preorder(nodes.len() as int, snapshot_kids(nodes, nodes.len() as int), (root_id, 0, None));
            &&& out@.len() == walk.len()
            &&& forall|i: int| 0 <= i < walk.len() ==> snapshot_entry(nodes, walk[i], true, #[trigger] out@[i])
        }),
{
    let out = snapshot_walk(tree, root_id, None);
    proof {
        let nodes = tree@.nodes;
        let kids = snapshot_kids(nodes, nodes.len() as int);
        let walk = preorder(nodes.len() as int, kids, (root_id, 0, None));
        let n = nodes.len() as int;
        let prop = |x: Entry| 0 <= x.1 <= x.0 < n;
        lemma_snapshot_kids_ok(nodes, n);
        assert forall|x: Entry, k: int| 0 <= x.0 < n && prop(x) && 0 <= k < kids(x).len() implies prop(
        #[trigger] kids(x)[k]) by {
            lemma_children_distinct(nodes, x.0 as int);
            let ch = nodes[x.0 as int]@.children;
            assert(ch.reverse()[k] == ch[ch.len() - 1 - k]);
        }
        lemma_preorder_all(n, kids, prop, (root_id, 0, None));
        assert forall|i: int| 0 <= i < walk.len() implies snapshot_entry(nodes, walk[i], true, #[trigger] out@[i]) by {
            assert(prop(walk[i]));
        }
    }
    out
}

/// Every directory from `root_id` down to `max_depth` levels, each before its
/// children, the last child first; the directories at `max_depth` list no
/// children.
pub fn serialize_tree_limited(tree: &Tree, root_id: NodeId, max_depth: usize) -> (out: Vec<TreeNode>)
    requires
        tree.wf(),
        root_id < tree@.nodes.len(),
        totals_fit(tree@.nodes),
    ensures
        ({
            let nodes = tree@.nodes;
            let walk = preorder(nodes.len() as int, snapshot_kids(nodes, max_depth as int), (root_id, 0, None));
            &&& out@.len() == walk.len()
            &&& forall|i: int|
                0 <= i < walk.len() ==> snapshot_entry(nodes, walk[i], walk[i].1 < max_depth, #[trigger] out@[i])
        }),
{
    snapshot_walk(tree, root_id, Some(max_depth))
}

} // verus!
