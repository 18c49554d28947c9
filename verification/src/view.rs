use vstd::prelude::*;
use crate::model::{Node, NodeId};
use crate::top_files::{FileEntry, FileMetaData, TopKView};
use crate::totals::totals_fit;
use crate::tree::{Tree, tree_wf};
use crate::totals::on_chain;
use crate::walk::{
    Entry, by_size, child_entries, children_by_size, first_n, flat, kids_are_children, kids_cover_within, kids_ok,
    lemma_by_size_children, lemma_flat_single, lemma_flat_step, lemma_preorder_covers_within, lemma_preorder_distinct,
    depth_of, lemma_stack_step, pending_of, preorder, ranks_before, steps_below, total_of,
};

verus! {

/// The entries a progress walk leads on to from `e`: below `max_depth`, the
/// largest `max_children` children of its node, largest first.
pub open spec fn progress_kids(nodes: Seq<Node>, max_depth: usize, max_children: usize) -> spec_fn(Entry) -> Seq<Entry> {
    |e: Entry|
        if e.1 < max_depth {
            child_entries(first_n(by_size(nodes, nodes[e.0 as int]@.children), max_children as int), e)
        } else {
            Seq::empty()
        }
}

/// A light summary of a directory, sent while a scan runs.
pub struct ProgressNode {
    pub id: usize,
    pub parent: Option<usize>,
    pub name: String,
    pub size: u64,
    pub own_size: u64,
    pub child_count: u32,
    pub top_child_ids: Vec<usize>,
    pub depth: usize,
}

/// `p` summarizes the node of entry `e`.
pub open spec fn progress_entry(nodes: Seq<Node>, e: Entry, max_children: usize, p: ProgressNode) -> bool {
    let v = nodes[e.0 as int]@;
    &&& p.id == e.0
    &&& p.parent == e.2
    &&& p.depth == e.1
    &&& p.name@ == v.name
    &&& p.size == total_of(nodes, e.0 as int)
    &&& p.own_size == v.own_bytes
    &&& p.child_count == v.children.len() as u32
    &&& p.top_child_ids@ == first_n(by_size(nodes, v.children), max_children as int)
}

pub proof fn lemma_progress_kids_ok(nodes: Seq<Node>, max_depth: usize, max_children: usize)
    requires
        tree_wf(nodes),
    ensures
        kids_ok(nodes.len() as int, progress_kids(nodes, max_depth, max_children)),
{
    let kids = progress_kids(nodes, max_depth, max_children);
    assert forall|e: Entry, k: int| 0 <= e.0 < nodes.len() && 0 <= k < kids(e).len() implies e.0 < (
    #[trigger] kids(e)[k]).0 < nodes.len() by {
        lemma_by_size_children(nodes, e.0 as int);
        let s = by_size(nodes, nodes[e.0 as int]@.children);
        if max_children < s.len() {
            assert(s.take(max_children as int)[k] == s[k]);
        }
    }
}

/// A progress walk leads on from a node only to distinct children of it.
proof fn lemma_progress_kids_children(nodes: Seq<Node>, max_depth: usize, max_children: usize)
    requires
        tree_wf(nodes),
    ensures
        kids_are_children(nodes, progress_kids(nodes, max_depth, max_children)),
{
    let kids = progress_kids(nodes, max_depth, max_children);
    assert forall|e: Entry, k: int| 0 <= e.0 < nodes.len() && 0 <= k < kids(e).len() implies nodes[(
    #[trigger] kids(e)[k]).0 as int]@.parent == Some(e.0) by {
        lemma_by_size_children(nodes, e.0 as int);
        let s = by_size(nodes, nodes[e.0 as int]@.children);
        assert(kids(e)[k].0 == first_n(s, max_children as int)[k]);
        assert(first_n(s, max_children as int)[k] == s[k]);
    }
    assert forall|e: Entry, a: int, b: int| 0 <= e.0 < nodes.len() && 0 <= a < b < kids(e).len() implies (
    #[trigger] kids(e)[a]).0 != (#[trigger] kids(e)[b]).0 by {
        lemma_by_size_children(nodes, e.0 as int);
        let s = by_size(nodes, nodes[e.0 as int]@.children);
        assert(first_n(s, max_children as int)[a] == s[a]);
        assert(first_n(s, max_children as int)[b] == s[b]);
        assert(ranks_before(nodes, s[a], s[b]));
    }
}

/// A progress view lists the directory it starts from and directories under
/// it, each at most once.
pub proof fn lemma_progress_lists_each_once(nodes: Seq<Node>, root_id: NodeId, max_depth: usize, max_children: usize)
    requires
        tree_wf(nodes),
        root_id < nodes.len(),
    ensures
        ({
            let walk = preorder(nodes.len() as int, progress_kids(nodes, max_depth, max_children), (root_id, 0, None));
            &&& forall|i: int| 0 <= i < walk.len() ==> on_chain(nodes, root_id as int, (#[trigger] walk[i]).0 as int)
            &&& forall|i: int, j: int| 0 <= i < j < walk.len() ==> (#[trigger] walk[i]).0 != (#[trigger] walk[j]).0
        }),
{
    lemma_progress_kids_ok(nodes, max_depth, max_children);
    lemma_progress_kids_children(nodes, max_depth, max_children);
    lemma_preorder_distinct(nodes, progress_kids(nodes, max_depth, max_children), (root_id, 0, None));
}

/// A summary of the tree from `root_id` down to `max_depth` levels, listing at
/// most `max_children_per_node` children of each directory: in depth-first
/// order, each directory before its listed children, the largest first.
pub fn generate_progress_view(
    tree: &Tree,
    root_id: NodeId,
    max_depth: usize,
    max_children_per_node: usize,
) -> (out: Vec<ProgressNode>)
    requires
        tree.wf(),
        root_id < tree@.nodes.len(),
        totals_fit(tree@.nodes),
    ensures
        out@.len() == preorder(
            tree@.nodes.len() as int,
            progress_kids(tree@.nodes, max_depth, max_children_per_node),
            (root_id, 0, None),
        ).len(),
        forall|i: int|
            0 <= i < out@.len() ==> progress_entry(
                tree@.nodes,
                preorder(
                    tree@.nodes.len() as int,
                    progress_kids(tree@.nodes, max_depth, max_children_per_node),
                    (root_id, 0, None),
                )[i],
                max_children_per_node,
                #[trigger] out@[i],
            ),
{
    let ghost nodes = tree@.nodes;
    let ghost n = nodes.len() as int;
    let ghost kids = progress_kids(nodes, max_depth, max_children_per_node);
    let ghost walk = preorder(n, kids, (root_id, 0, None));
    let mut out: Vec<ProgressNode> = Vec::new();
    let mut stack: Vec<Entry> = Vec::new();
    stack.push((root_id, 0, None));
    let ghost mut done: Seq<Entry> = Seq::empty();
    proof {
        lemma_progress_kids_ok(nodes, max_depth, max_children_per_node);
        lemma_flat_single(n, kids, (root_id, 0, None));
        assert(pending_of(stack@) =~= seq![(root_id, 0usize, None::<NodeId>)]);
        assert(done + flat(n, kids, pending_of(stack@)) =~= walk);
    }
    while stack.len() > 0
        invariant
            tree.wf(),
            nodes == tree@.nodes,
            n == nodes.len(),
            totals_fit(nodes),
            kids == progress_kids(nodes, max_depth, max_children_per_node),
            kids_ok(n, kids),
            walk == preorder(n, kids, (root_id, 0, None)),
            done + flat(n, kids, pending_of(stack@)) == walk,
            out@.len() == done.len(),
            forall|i: int| 0 <= i < out@.len() ==> progress_entry(nodes, done[i], max_children_per_node, #[trigger] out@[i]),
            forall|k: int| 0 <= k < stack@.len() ==> 0 <= (#[trigger] stack@[k]).0 < n,
        decreases walk.len() - done.len(),
    {
        let ghost st = stack@;
        let (node_id, depth, parent_id) = stack.pop().unwrap();
        let ghost e = (node_id, depth, parent_id);
        let node = tree.node(node_id);
        let children = children_by_size(tree, node_id);
        let child_count = children.len() as u32;
        let mut top_child_ids: Vec<usize> = Vec::new();
        let mut i: usize = 0;
        while i < children.len() && i < max_children_per_node
            invariant
                i <= children@.len(),
                i <= max_children_per_node,
                top_child_ids@ == children@.map_values(|p: (NodeId, u64)| p.0).take(i as int),
            decreases children@.len() - i,
        {
            top_child_ids.push(children[i].0);
            proof {
                assert(top_child_ids@ =~= children@.map_values(|p: (NodeId, u64)| p.0).take(i + 1));
            }
            i = i + 1;
        }
        proof {
            lemma_by_size_children(nodes, node_id as int);
            let ids = children@.map_values(|p: (NodeId, u64)| p.0);
            if max_children_per_node >= ids.len() {
                assert(ids.take(ids.len() as int) =~= ids);
            }
            assert(top_child_ids@ == first_n(ids, max_children_per_node as int));
        }
        let size = node.total_bytes();
        let own_size = node.own_bytes();
        let name = node.name().to_owned();
        let ghost tops = top_child_ids@;
        let mut j: usize = top_child_ids.len();
        if depth < max_depth {
            while j > 0
                invariant
                    j <= tops.len(),
                    st.len() > 0,
                    e == (node_id, depth, parent_id),
                    tops == top_child_ids@,
                    depth < max_depth,
                    stack@ == st.drop_last() + child_entries(tops, e).subrange(j as int, tops.len() as int).reverse(),
                decreases j,
            {
                j = j - 1;
                let ghost before = stack@;
                stack.push((top_child_ids[j], depth + 1, Some(node_id)));
                proof {
                    assert(child_entries(tops, e)[j as int] == (tops[j as int], (depth + 1) as usize, Some(node_id)));
                    assert(stack@ =~= st.drop_last() + child_entries(tops, e).subrange(j as int, tops.len() as int).reverse());
                }
            }
        }
        let ghost pushed = if depth < max_depth { child_entries(tops, e) } else { Seq::<Entry>::empty() };
        proof {
            assert(kids(e) == pushed);
            if depth < max_depth {
                assert(child_entries(tops, e).subrange(0, tops.len() as int) =~= child_entries(tops, e));
            } else {
                assert(stack@ =~= st.drop_last() + pushed.reverse());
            }
            lemma_stack_step(st, pushed);
            lemma_flat_step(n, kids, pending_of(st));
            assert(pending_of(st).drop_first() =~= pending_of(st.drop_last()));
            assert(pending_of(st)[0] == e);
        }
        out.push(
            ProgressNode {
                id: node_id,
                parent: parent_id,
                name,
                size,
                own_size,
                child_count,
                top_child_ids,
                depth,
            },
        );
        proof {
            done = done.push(e);
            assert(done + flat(n, kids, pending_of(stack@)) =~= walk);
            assert forall|k: int| 0 <= k < stack@.len() implies 0 <= (#[trigger] stack@[k]).0 < n by {
                if k >= st.len() - 1 {
                    let m = stack@.len() - 1 - k;
                    assert(pending_of(stack@)[m] == stack@[k]);
                    assert(kids(e)[m] == stack@[k]);
                } else {
                    assert(stack@[k] == st[k]);
                }
            }
        }
    }
    proof {
        assert(pending_of(stack@) =~= Seq::<Entry>::empty());
        assert(done + Seq::<Entry>::empty() =~= done);
    }
    out
}

/// How much of a tree a view may show.
#[derive(Clone, Copy, Debug)]
pub struct BudgetTier {
    pub max_nodes: usize,
    pub max_children: usize,
    pub top_files_k: usize,
}

impl BudgetTier {
    /// The smallest budget, for when memory is short.
    pub fn rescue() -> (b: BudgetTier)
        ensures
            b.max_nodes == 10_000 && b.max_children == 400 && b.top_files_k == 25,
    {
        BudgetTier { max_nodes: 10_000, max_children: 400, top_files_k: 25 }
    }

    /// The usual budget.
    pub fn normal() -> (b: BudgetTier)
        ensures
            b.max_nodes == 50_000 && b.max_children == 1000 && b.top_files_k == 50,
    {
        BudgetTier { max_nodes: 50_000, max_children: 1000, top_files_k: 50 }
    }

    /// The largest budget.
    pub fn beefy() -> (b: BudgetTier)
        ensures
            b.max_nodes == 200_000 && b.max_children == 5000 && b.top_files_k == 100,
    {
        BudgetTier { max_nodes: 200_000, max_children: 5000, top_files_k: 100 }
    }
}

/// A directory as a view shows it.
#[derive(Clone, Debug)]
pub struct ViewNode {
    pub id: usize,
    pub parent: Option<usize>,
    pub name: String,
    pub size: u64,
    pub own_size: u64,
    pub children: Vec<usize>,
    pub top_files: Vec<FileMetadata>,
    pub depth: usize,
    pub is_other: bool,
}

/// A file as a view shows it.
#[derive(Clone, Debug)]
pub struct FileMetadata {
    pub name: String,
    pub size: u64,
}

/// The directories of a view, and the directory it is rooted at.
#[derive(Clone, Debug)]
pub struct ViewPayload {
    pub nodes: Vec<ViewNode>,
    pub root_id: usize,
}

/// `fs` lists the files of `t`, largest first, in the order `listed` holds them.
pub open spec fn lists_top_files(t: TopKView, listed: Seq<FileEntry>, fs: Seq<FileMetadata>) -> bool {
    &&& fs.map_values(|f: FileMetadata| (f.size, f.name@)) == listed
    &&& fs.map_values(|f: FileMetadata| (f.size, f.name@)).to_multiset() == t.files
    &&& forall|i: int, j: int| 0 <= i < j < fs.len() ==> fs[j].size <= fs[i].size
}

/// The entries a view walk leads on to from `e`: below `depth_limit`, all the
/// children of its node, largest first.
pub open spec fn view_kids(nodes: Seq<Node>, depth_limit: usize) -> spec_fn(Entry) -> Seq<Entry> {
    |e: Entry|
        if e.1 < depth_limit {
            child_entries(by_size(nodes, nodes[e.0 as int]@.children), e)
        } else {
            Seq::empty()
        }
}

/// `vn` shows the node of entry `e`, with all of its children, largest first.
pub open spec fn view_entry(nodes: Seq<Node>, e: Entry, vn: ViewNode) -> bool {
    let v = nodes[e.0 as int]@;
    &&& vn.id == e.0
    &&& vn.parent == e.2
    &&& vn.depth == e.1
    &&& vn.name@ == v.name
    &&& vn.size == total_of(nodes, e.0 as int)
    &&& vn.own_size == v.own_bytes
    &&& vn.children@ == by_size(nodes, v.children)
    &&& lists_top_files(v.top_files, nodes[e.0 as int].listed_files(), vn.top_files@)
    &&& !vn.is_other
}

/// `vn` shows node `p` as the way back up from its child `child`.
pub open spec fn parent_entry(nodes: Seq<Node>, p: NodeId, child: NodeId, vn: ViewNode) -> bool {
    let v = nodes[p as int]@;
    &&& vn.id == p
    &&& vn.parent == v.parent
    &&& vn.depth == 0
    &&& vn.name@ == v.name
    &&& vn.size == total_of(nodes, p as int)
    &&& vn.own_size == v.own_bytes
    &&& vn.children@ == seq![child]
    &&& vn.top_files@.len() == 0
    &&& !vn.is_other
}

pub proof fn lemma_view_kids_ok(nodes: Seq<Node>, depth_limit: usize)
    requires
        tree_wf(nodes),
    ensures
        kids_ok(nodes.len() as int, view_kids(nodes, depth_limit)),
{
    let kids = view_kids(nodes, depth_limit);
    assert forall|e: Entry, k: int| 0 <= e.0 < nodes.len() && 0 <= k < kids(e).len() implies e.0 < (
    #[trigger] kids(e)[k]).0 < nodes.len() by {
        lemma_by_size_children(nodes, e.0 as int);
    }
}

/// A view walk leads on from a node only to distinct children of it.
proof fn lemma_view_kids_children(nodes: Seq<Node>, depth_limit: usize)
    requires
        tree_wf(nodes),
    ensures
        kids_are_children(nodes, view_kids(nodes, depth_limit)),
{
    let kids = view_kids(nodes, depth_limit);
    assert forall|e: Entry, k: int| 0 <= e.0 < nodes.len() && 0 <= k < kids(e).len() implies nodes[(
    #[trigger] kids(e)[k]).0 as int]@.parent == Some(e.0) by {
        lemma_by_size_children(nodes, e.0 as int);
        let s = by_size(nodes, nodes[e.0 as int]@.children);
        assert(kids(e)[k].0 == s[k]);
    }
    assert forall|e: Entry, a: int, b: int| 0 <= e.0 < nodes.len() && 0 <= a < b < kids(e).len() implies (
    #[trigger] kids(e)[a]).0 != (#[trigger] kids(e)[b]).0 by {
        lemma_by_size_children(nodes, e.0 as int);
        let s = by_size(nodes, nodes[e.0 as int]@.children);
        assert(ranks_before(nodes, s[a], s[b]));
    }
}

/// A view lists the directory it is rooted at and directories under it, each
/// at most once.
pub proof fn lemma_view_lists_each_once(nodes: Seq<Node>, root_id: NodeId, depth_limit: usize)
    requires
        tree_wf(nodes),
        root_id < nodes.len(),
    ensures
        ({
            let walk = preorder(
                nodes.len() as int,
                view_kids(nodes, depth_limit),
                (root_id, 0, nodes[root_id as int]@.parent),
            );
            &&& forall|i: int| 0 <= i < walk.len() ==> on_chain(nodes, root_id as int, (#[trigger] walk[i]).0 as int)
            &&& forall|i: int, j: int| 0 <= i < j < walk.len() ==> (#[trigger] walk[i]).0 != (#[trigger] walk[j]).0
        }),
{
    lemma_view_kids_ok(nodes, depth_limit);
    lemma_view_kids_children(nodes, depth_limit);
    lemma_preorder_distinct(nodes, view_kids(nodes, depth_limit), (root_id, 0, nodes[root_id as int]@.parent));
}

/// A view reaches every directory under the one it is rooted at that lies no
/// deeper than its depth limit.
pub proof fn lemma_view_lists_all(nodes: Seq<Node>, root_id: NodeId, depth_limit: usize, x: int)
    requires
        tree_wf(nodes),
        root_id < nodes.len(),
        on_chain(nodes, root_id as int, x),
        steps_below(nodes, root_id as int, x) <= depth_limit,
    ensures
        ({
            let walk = preorder(
                nodes.len() as int,
                view_kids(nodes, depth_limit),
                (root_id, 0, nodes[root_id as int]@.parent),
            );
            exists|i: int| 0 <= i < walk.len() && walk[i].0 == x
        }),
{
    let kids = view_kids(nodes, depth_limit);
    lemma_view_kids_ok(nodes, depth_limit);
    lemma_view_kids_cover(nodes, depth_limit);
    lemma_preorder_covers_within(nodes, kids, depth_limit as int, (root_id, 0, nodes[root_id as int]@.parent), x);
}

/// Above its depth limit, a view walk leads on to an entry, one level deeper,
/// of each child of a node.
proof fn lemma_view_kids_cover(nodes: Seq<Node>, depth_limit: usize)
    requires
        tree_wf(nodes),
    ensures
        kids_cover_within(nodes, view_kids(nodes, depth_limit), depth_limit as int),
{
    broadcast use vstd::seq_lib::group_to_multiset_ensures;

    let kids = view_kids(nodes, depth_limit);
    let limit = depth_limit as int;
    assert forall|y: Entry, k: int| 0 <= y.0 < nodes.len() && y.1 < limit && 0 <= k < kids(y).len() implies (
    #[trigger] kids(y)[k]).1 == y.1 + 1 by {
        let s = by_size(nodes, nodes[y.0 as int]@.children);
        assert(kids(y) == child_entries(s, y));
    }
    assert forall|y: Entry, c: int|
        #![trigger depth_of(y), nodes[c]]
        0 <= y.0 < nodes.len() && depth_of(y) < limit && 0 <= c < nodes.len() && nodes[c]@.parent == Some(y.0)
            implies exists|k: int| 0 <= k < kids(y).len() && (#[trigger] kids(y)[k]).0 == c by {
        let ch = nodes[y.0 as int]@.children;
        assert(nodes[c]@.id == c);
        assert(c > 0) by {
            if c == 0 {
                assert(nodes[0]@.parent is None);
            }
        }
        assert(nodes[nodes[c]@.parent.unwrap() as int]@.children.contains(c as NodeId));
        lemma_by_size_children(nodes, y.0 as int);
        let s = by_size(nodes, ch);
        assert(ch.to_multiset().count(c as NodeId) > 0);
        assert(s.contains(c as NodeId));
        let k = choose|k: int| 0 <= k < s.len() && s[k] == c as NodeId;
        assert(kids(y)[k].0 == c);
    }
}

/// The files of node `id`, largest first.
pub(crate) fn view_top_files(tree: &Tree, id: NodeId) -> (fs: Vec<FileMetadata>)
    requires
        id < tree@.nodes.len(),
    ensures
        lists_top_files(tree@.nodes[id as int]@.top_files, tree@.nodes[id as int].listed_files(), fs@),
{
    let sorted = tree.node(id).top_files().to_sorted_vec_desc();
    let mut fs: Vec<FileMetadata> = Vec::new();
    let mut i: usize = 0;
    while i < sorted.len()
        invariant
            i <= sorted@.len(),
            fs@.len() == i,
            forall|k: int| 0 <= k < i ==> (#[trigger] fs@[k]).size == sorted@[k].size && fs@[k].name@ == sorted@[k].name@,
        decreases sorted@.len() - i,
    {
        let f = &sorted[i];
        fs.push(FileMetadata { name: f.name.clone(), size: f.size });
        i = i + 1;
    }
    proof {
        assert(fs@.map_values(|f: FileMetadata| (f.size, f.name@)) =~= sorted@.map_values(
            |f: FileMetaData| crate::top_files::meta_entry(f),
        ));
    }
    fs
}

/// The view of node `id` as the walk reaches it in entry `e`.
fn view_node(tree: &Tree, e: (NodeId, usize, Option<NodeId>)) -> (vn: ViewNode)
    requires
        tree.wf(),
        e.0 < tree@.nodes.len(),
        totals_fit(tree@.nodes),
    ensures
        view_entry(tree@.nodes, e, vn),
{
    let (node_id, depth, parent_id) = e;
    let node = tree.node(node_id);
    let children = children_by_size(tree, node_id);
    let mut ids: Vec<usize> = Vec::new();
    let mut i: usize = 0;
    while i < children.len()
        invariant
            i <= children@.len(),
            ids@ == children@.map_values(|p: (NodeId, u64)| p.0).take(i as int),
        decreases children@.len() - i,
    {
        ids.push(children[i].0);
        proof {
            assert(ids@ =~= children@.map_values(|p: (NodeId, u64)| p.0).take(i + 1));
        }
        i = i + 1;
    }
    proof {
        let all = children@.map_values(|p: (NodeId, u64)| p.0);
        assert(all.take(all.len() as int) =~= all);
    }
    ViewNode {
        id: node_id,
        parent: parent_id,
        name: node.name().to_owned(),
        size: node.total_bytes(),
        own_size: node.own_bytes(),
        children: ids,
        top_files: view_top_files(tree, node_id),
        depth,
        is_other: false,
    }
}

/// The view of the tree from `root_id` down to `depth_limit` levels: first, where
/// `root_id` has a parent, that parent (the way back up) with `root_id` as its
/// only child; then the directories in depth-first order, each before its
/// children, the largest first. `budget` limits nothing.
pub fn generate_view(tree: &Tree, root_id: NodeId, depth_limit: usize, budget: BudgetTier) -> (r: ViewPayload)
    requires
        tree.wf(),
        root_id < tree@.nodes.len(),
        totals_fit(tree@.nodes),
    ensures
        r.root_id == root_id,
        ({
            let nodes = tree@.nodes;
            let walk = preorder(nodes.len() as int, view_kids(nodes, depth_limit), (root_id, 0, nodes[root_id as int]@.parent));
            let off: int = if nodes[root_id as int]@.parent is Some { 1 } else { 0 };
            &&& r.nodes@.len() == off + walk.len()
            &&& (nodes[root_id as int]@.parent matches Some(p) ==> parent_entry(nodes, p, root_id, r.nodes@[0]))
            &&& (nodes[root_id as int]@.parent is None ==> forall|i: int|
                #![trigger walk[i]]
                0 <= i < walk.len() ==> view_entry(nodes, walk[i], r.nodes@[i]))
            &&& (nodes[root_id as int]@.parent is Some ==> forall|i: int|
                #![trigger walk[i]]
                0 <= i < walk.len() ==> view_entry(nodes, walk[i], r.nodes@[i + 1]))
        }),
{
    let ghost nodes = tree@.nodes;
    let ghost n = nodes.len() as int;
    let mut out: Vec<ViewNode> = Vec::new();
    let root_node = tree.node(root_id);
    let actual_parent_id = root_node.parent_id();
    if let Some(parent_id) = actual_parent_id {
        let parent_node = tree.node(parent_id);
        let mut only: Vec<usize> = Vec::new();
        only.push(root_id);
        out.push(
            ViewNode {
                id: parent_id,
                parent: parent_node.parent_id(),
                name: parent_node.name().to_owned(),
                size: parent_node.total_bytes(),
                own_size: parent_node.own_bytes(),
                children: only,
                top_files: Vec::new(),
                depth: 0,
                is_other: false,
            },
        );
        proof {
            assert(out@[0].children@ =~= seq![root_id]);
        }
    }
    let ghost off: int = out@.len() as int;
    let ghost root_e: Entry = (root_id, 0, actual_parent_id);
    let ghost kids = view_kids(nodes, depth_limit);
    let ghost walk = preorder(n, kids, root_e);
    let mut stack: Vec<Entry> = Vec::new();
    stack.push((root_id, 0, actual_parent_id));
    let ghost mut done: Seq<Entry> = Seq::empty();
    proof {
        lemma_view_kids_ok(nodes, depth_limit);
        lemma_flat_single(n, kids, root_e);
        assert(pending_of(stack@) =~= seq![root_e]);
        assert(done + flat(n, kids, pending_of(stack@)) =~= walk);
    }
    while stack.len() > 0
        invariant
            tree.wf(),
            nodes == tree@.nodes,
            n == nodes.len(),
            totals_fit(nodes),
            kids == view_kids(nodes, depth_limit),
            kids_ok(n, kids),
            walk == preorder(n, kids, root_e),
            done + flat(n, kids, pending_of(stack@)) == walk,
            off == (if nodes[root_id as int]@.parent is Some { 1int } else { 0 }),
            root_id < n,
            out@.len() == off + done.len(),
            nodes[root_id as int]@.parent matches Some(p) ==> parent_entry(nodes, p, root_id, out@[0]),
            forall|i: int| 0 <= i < done.len() ==> view_entry(nodes, done[i], #[trigger] out@[off + i]),
            forall|k: int| 0 <= k < stack@.len() ==> 0 <= (#[trigger] stack@[k]).0 < n,
        decreases walk.len() - done.len(),
    {
        let ghost st = stack@;
        let (node_id, depth, parent_id) = stack.pop().unwrap();
        let ghost e = (node_id, depth, parent_id);
        let vn = view_node(tree, (node_id, depth, parent_id));
        let ghost tops = vn.children@;
        proof {
            lemma_by_size_children(nodes, node_id as int);
        }
        if depth < depth_limit {
            let mut j: usize = vn.children.len();
            while j > 0
                invariant
                    j <= tops.len(),
                    st.len() > 0,
                    e == (node_id, depth, parent_id),
                    tops == vn.children@,
                    depth < depth_limit,
                    stack@ == st.drop_last() + child_entries(tops, e).subrange(j as int, tops.len() as int).reverse(),
                decreases j,
            {
                j = j - 1;
                stack.push((vn.children[j], depth + 1, Some(node_id)));
                proof {
                    assert(child_entries(tops, e)[j as int] == (tops[j as int], (depth + 1) as usize, Some(node_id)));
                    assert(stack@ =~= st.drop_last() + child_entries(tops, e).subrange(j as int, tops.len() as int).reverse());
                }
            }
        }
        let ghost pushed = if depth < depth_limit { child_entries(tops, e) } else { Seq::<Entry>::empty() };
        proof {
            assert(kids(e) == pushed);
            if depth < depth_limit {
                assert(child_entries(tops, e).subrange(0, tops.len() as int) =~= child_entries(tops, e));
            } else {
                assert(stack@ =~= st.drop_last() + pushed.reverse());
            }
            lemma_stack_step(st, pushed);
            lemma_flat_step(n, kids, pending_of(st));
            assert(pending_of(st).drop_first() =~= pending_of(st.drop_last()));
            assert(pending_of(st)[0] == e);
        }
        let ghost out0 = out@;
        out.push(vn);
        proof {
            done = done.push(e);
            assert(done + flat(n, kids, pending_of(stack@)) =~= walk);
            assert forall|k: int| 0 <= k < stack@.len() implies 0 <= (#[trigger] stack@[k]).0 < n by {
                if k >= st.len() - 1 {
                    let m = stack@.len() - 1 - k;
                    assert(pending_of(stack@)[m] == stack@[k]);
                    assert(kids(e)[m] == stack@[k]);
                } else {
                    assert(stack@[k] == st[k]);
                }
            }
            assert forall|i: int| 0 <= i < done.len() implies view_entry(nodes, done[i], #[trigger] out@[off + i]) by {
                if i < done.len() - 1 {
                    assert(out@[off + i] == out0[off + i]);
                }
            }
        }
    }
    proof {
        assert(pending_of(stack@) =~= Seq::<Entry>::empty());
        assert(done + Seq::<Entry>::empty() =~= done);
        assert forall|i: int| #![trigger walk[i]] 0 <= i < walk.len() implies view_entry(nodes, walk[i], out@[off + i]) by {
            assert(view_entry(nodes, done[i], out@[off + i]));
        }
    }
    ViewPayload { nodes: out, root_id }
}

} // verus!
