use vstd::prelude::*;
use crate::model::{Node, NodeId};
use crate::tree::{Tree, tree_wf};
use crate::walk::{lemma_child_toward, lemma_children_distinct, lemma_siblings_apart, total_of};

verus! {

/// Node `a` lies above node `j`: it is `j`'s parent, or lies above that parent.
pub open spec fn is_ancestor(nodes: Seq<Node>, a: int, j: int) -> bool
    decreases j,
{
    if 0 <= j < nodes.len() {
        match nodes[j]@.parent {
            Some(p) => p < j && (p == a || is_ancestor(nodes, a, p as int)),
            None => false,
        }
    } else {
        false
    }
}

/// Node `a` is `x` or lies above it.
pub open spec fn on_chain(nodes: Seq<Node>, a: int, x: int) -> bool {
    a == x || is_ancestor(nodes, a, x)
}

/// The bytes of the own files of the nodes below `a` among the first `upto`.
pub open spec fn below_sum(nodes: Seq<Node>, a: int, upto: int) -> nat
    decreases upto,
{
    if upto <= 0 {
        0
    } else {
        below_sum(nodes, a, upto - 1) + (if is_ancestor(nodes, a, upto - 1) {
            nodes[upto - 1]@.own_bytes as nat
        } else {
            0
        })
    }
}

/// The bytes of the own files of the first `upto` nodes.
pub open spec fn all_sum(nodes: Seq<Node>, upto: int) -> nat
    decreases upto,
{
    if upto <= 0 {
        0
    } else {
        all_sum(nodes, upto - 1) + nodes[upto - 1]@.own_bytes as nat
    }
}

/// The bytes of all files recorded in the tree.
pub open spec fn recorded_bytes(nodes: Seq<Node>) -> nat {
    all_sum(nodes, nodes.len() as int)
}

/// Every node knows exactly the bytes of the files recorded below it.
pub open spec fn sums_consistent(nodes: Seq<Node>) -> bool {
    forall|a: int| 0 <= a < nodes.len() ==> #[trigger] nodes[a]@.subtree_known == below_sum(nodes, a, nodes.len() as int)
}

/// The total of every node fits in a `u64`.
pub open spec fn totals_fit(nodes: Seq<Node>) -> bool {
    forall|a: int| 0 <= a < nodes.len() ==> #[trigger] nodes[a]@.own_bytes + nodes[a]@.subtree_known <= u64::MAX
}

pub proof fn lemma_ancestor_below(nodes: Seq<Node>, a: int, j: int)
    requires
        is_ancestor(nodes, a, j),
    ensures
        0 <= a < j < nodes.len(),
    decreases j,
{
    let p = nodes[j]@.parent.unwrap() as int;
    if p != a {
        lemma_ancestor_below(nodes, a, p);
    }
}

/// Whether one node lies above another depends only on the parents of the
/// nodes up to the lower one.
pub proof fn lemma_ancestor_same_parents(n1: Seq<Node>, n2: Seq<Node>, a: int, j: int, bound: int)
    requires
        bound <= n1.len(),
        bound <= n2.len(),
        j < bound,
        forall|i: int| 0 <= i < bound ==> (#[trigger] n1[i])@.parent == n2[i]@.parent,
    ensures
        is_ancestor(n1, a, j) == is_ancestor(n2, a, j),
    decreases j,
{
    if 0 <= j {
        assert(n1[j]@.parent == n2[j]@.parent);
        if let Some(p) = n1[j]@.parent {
            if p < j {
                lemma_ancestor_same_parents(n1, n2, a, p as int, bound);
            }
        }
    }
}

/// A node above `b` lies above every node at or under `b`.
pub proof fn lemma_ancestor_transitive_chain(nodes: Seq<Node>, a: int, b: int, x: int)
    requires
        is_ancestor(nodes, a, b),
        on_chain(nodes, b, x),
    ensures
        is_ancestor(nodes, a, x),
    decreases x,
{
    if b != x {
        let p = nodes[x]@.parent.unwrap() as int;
        if p != b {
            lemma_ancestor_transitive_chain(nodes, a, b, p);
        }
    }
}

/// In a well-formed tree the root lies above every other node.
pub proof fn lemma_root_above_all(nodes: Seq<Node>, j: int)
    requires
        tree_wf(nodes),
        0 < j < nodes.len(),
    ensures
        is_ancestor(nodes, 0, j),
    decreases j,
{
    assert(nodes[j]@.parent matches Some(p) && p < j);
    let p = nodes[j]@.parent.unwrap() as int;
    if p != 0 {
        lemma_root_above_all(nodes, p);
    }
}

/// A node lies above `j` exactly when it is on the chain from `j`'s parent up.
pub proof fn lemma_ancestor_step(nodes: Seq<Node>, a: int, j: int)
    requires
        tree_wf(nodes),
        0 <= j < nodes.len(),
    ensures
        is_ancestor(nodes, a, j) == (match nodes[j]@.parent {
            Some(p) => on_chain(nodes, a, p as int),
            None => false,
        }),
{
    if j > 0 {
        assert(nodes[j]@.parent matches Some(p) && p < j);
    }
}

/// The own bytes of `a` and of the nodes below it are part of the bytes of all nodes.
pub proof fn lemma_below_le_all(nodes: Seq<Node>, a: int, upto: int)
    requires
        0 <= a,
        upto <= nodes.len(),
    ensures
        (if a < upto { nodes[a]@.own_bytes as nat } else { 0 }) + below_sum(nodes, a, upto) <= all_sum(nodes, upto),
    decreases upto,
{
    if upto > 0 {
        lemma_below_le_all(nodes, a, upto - 1);
        if is_ancestor(nodes, a, upto - 1) {
            lemma_ancestor_below(nodes, a, upto - 1);
        }
    }
}

/// In a well-formed tree the root's own bytes and those below it are all bytes.
pub proof fn lemma_root_below_all(nodes: Seq<Node>, upto: int)
    requires
        tree_wf(nodes),
        1 <= upto <= nodes.len(),
    ensures
        nodes[0]@.own_bytes + below_sum(nodes, 0, upto) == all_sum(nodes, upto),
    decreases upto,
{
    if upto > 1 {
        lemma_root_below_all(nodes, upto - 1);
        lemma_root_above_all(nodes, upto - 1);
    } else {
        assert(!is_ancestor(nodes, 0, 0));
        assert(below_sum(nodes, 0, 0) == 0);
        assert(all_sum(nodes, 0) == 0);
    }
}

/// Totals fit in a `u64` while all recorded bytes do.
pub proof fn lemma_totals_fit(nodes: Seq<Node>)
    requires
        sums_consistent(nodes),
        recorded_bytes(nodes) <= u64::MAX,
    ensures
        totals_fit(nodes),
{
    assert forall|a: int| 0 <= a < nodes.len() implies #[trigger] nodes[a]@.own_bytes + nodes[a]@.subtree_known
        <= u64::MAX by {
        lemma_below_le_all(nodes, a, nodes.len() as int);
    }
}

/// Root law: in a well-formed tree whose sums are consistent, the total of the
/// root is the size of all files recorded anywhere in the tree.
pub proof fn lemma_root_total(nodes: Seq<Node>)
    requires
        tree_wf(nodes),
        sums_consistent(nodes),
    ensures
        nodes[0]@.own_bytes + nodes[0]@.subtree_known == recorded_bytes(nodes),
{
    lemma_root_below_all(nodes, nodes.len() as int);
}

/// Sums below and over all nodes change only where own bytes change.
pub proof fn lemma_sums_after_own_change(n1: Seq<Node>, n2: Seq<Node>, p: int, delta: nat, a: int, upto: int)
    requires
        n1.len() == n2.len(),
        0 <= p < n1.len(),
        upto <= n1.len(),
        forall|i: int| 0 <= i < n1.len() ==> (#[trigger] n1[i])@.parent == n2[i]@.parent,
        forall|i: int| 0 <= i < n1.len() && i != p ==> (#[trigger] n1[i])@.own_bytes == n2[i]@.own_bytes,
        n2[p]@.own_bytes == n1[p]@.own_bytes + delta,
    ensures
        below_sum(n2, a, upto) == below_sum(n1, a, upto) + (if p < upto && is_ancestor(n1, a, p) { delta } else { 0 }),
        all_sum(n2, upto) == all_sum(n1, upto) + (if p < upto { delta } else { 0 }),
    decreases upto,
{
    if upto > 0 {
        lemma_sums_after_own_change(n1, n2, p, delta, a, upto - 1);
        lemma_ancestor_same_parents(n1, n2, a, upto - 1, n1.len() as int);
    }
}

/// Sums over a prefix depend only on the parents and own bytes of that prefix.
pub proof fn lemma_sums_same_prefix(n1: Seq<Node>, n2: Seq<Node>, a: int, upto: int)
    requires
        upto <= n1.len(),
        upto <= n2.len(),
        forall|i: int| 0 <= i < upto ==> (#[trigger] n1[i])@.parent == n2[i]@.parent,
        forall|i: int| 0 <= i < upto ==> (#[trigger] n1[i])@.own_bytes == n2[i]@.own_bytes,
    ensures
        below_sum(n2, a, upto) == below_sum(n1, a, upto),
        all_sum(n2, upto) == all_sum(n1, upto),
    decreases upto,
{
    if upto > 0 {
        lemma_sums_same_prefix(n1, n2, a, upto - 1);
        lemma_ancestor_same_parents(n1, n2, a, upto - 1, upto);
    }
}

/// No node lies above `a` among nodes that come before or at it.
pub proof fn lemma_below_sum_zero(nodes: Seq<Node>, a: int, upto: int)
    requires
        upto <= a + 1,
    ensures
        below_sum(nodes, a, upto) == 0,
    decreases upto,
{
    if upto > 0 {
        lemma_below_sum_zero(nodes, a, upto - 1);
        if is_ancestor(nodes, a, upto - 1) {
            lemma_ancestor_below(nodes, a, upto - 1);
        }
    }
}

/// Whether the total of every node of `tree` fits in a `u64`.
pub fn totals_fit_check(tree: &Tree) -> (b: bool)
    ensures
        b == totals_fit(tree@.nodes),
{
    let ghost nodes = tree@.nodes;
    let mut i: usize = 0;
    while i < tree.len()
        invariant
            nodes == tree@.nodes,
            i <= nodes.len(),
            forall|a: int| 0 <= a < i ==> #[trigger] nodes[a]@.own_bytes + nodes[a]@.subtree_known <= u64::MAX,
        decreases nodes.len() - i,
    {
        let node = tree.node(i);
        if node.own_bytes().checked_add(node.subtree_bytes()).is_none() {
            return false;
        }
        i = i + 1;
    }
    true
}

/// The totals of the nodes `ids`, added up.
pub open spec fn totals_sum(nodes: Seq<Node>, ids: Seq<NodeId>) -> int
    decreases ids.len(),
{
    if ids.len() == 0 {
        0
    } else {
        totals_sum(nodes, ids.drop_last()) + total_of(nodes, ids.last() as int)
    }
}

/// The own bytes of `c` and of the nodes below it among the first `upto`.
pub open spec fn chain_sum(nodes: Seq<Node>, c: int, upto: int) -> int
    decreases upto,
{
    if upto <= 0 {
        0
    } else {
        chain_sum(nodes, c, upto - 1) + (if on_chain(nodes, c, upto - 1) {
            nodes[upto - 1]@.own_bytes as int
        } else {
            0
        })
    }
}

/// [`chain_sum`] of each of `ids`, added up.
pub open spec fn chains_sum(nodes: Seq<Node>, ids: Seq<NodeId>, upto: int) -> int
    decreases ids.len(),
{
    if ids.len() == 0 {
        0
    } else {
        chains_sum(nodes, ids.drop_last(), upto) + chain_sum(nodes, ids.last() as int, upto)
    }
}

/// The own bytes of node `x` once for each of `ids` that it is at or under.
pub open spec fn hits_sum(nodes: Seq<Node>, ids: Seq<NodeId>, x: int) -> int
    decreases ids.len(),
{
    if ids.len() == 0 {
        0
    } else {
        hits_sum(nodes, ids.drop_last(), x) + (if on_chain(nodes, ids.last() as int, x) {
            nodes[x]@.own_bytes as int
        } else {
            0
        })
    }
}

/// Node `x` is at or under one of `ids`.
pub open spec fn covered(nodes: Seq<Node>, ids: Seq<NodeId>, x: int) -> bool {
    exists|k: int| 0 <= k < ids.len() && #[trigger] on_chain(nodes, ids[k] as int, x)
}

/// The own bytes of the nodes among the first `upto` that are at or under one of `ids`.
pub open spec fn cover_sum(nodes: Seq<Node>, ids: Seq<NodeId>, upto: int) -> int
    decreases upto,
{
    if upto <= 0 {
        0
    } else {
        cover_sum(nodes, ids, upto - 1) + (if covered(nodes, ids, upto - 1) {
            nodes[upto - 1]@.own_bytes as int
        } else {
            0
        })
    }
}

proof fn lemma_chain_sum(nodes: Seq<Node>, c: int, upto: int)
    requires
        0 <= c,
        upto <= nodes.len(),
    ensures
        chain_sum(nodes, c, upto) == (if c < upto { nodes[c]@.own_bytes as int } else { 0 }) + below_sum(nodes, c, upto),
    decreases upto,
{
    if upto > 0 {
        lemma_chain_sum(nodes, c, upto - 1);
        if is_ancestor(nodes, c, upto - 1) {
            lemma_ancestor_below(nodes, c, upto - 1);
        }
    }
}

proof fn lemma_chains_step(nodes: Seq<Node>, ids: Seq<NodeId>, upto: int)
    requires
        upto > 0,
    ensures
        chains_sum(nodes, ids, upto) == chains_sum(nodes, ids, upto - 1) + hits_sum(nodes, ids, upto - 1),
    decreases ids.len(),
{
    if ids.len() > 0 {
        lemma_chains_step(nodes, ids.drop_last(), upto);
    }
}

proof fn lemma_chains_zero(nodes: Seq<Node>, ids: Seq<NodeId>)
    ensures
        chains_sum(nodes, ids, 0) == 0,
    decreases ids.len(),
{
    if ids.len() > 0 {
        lemma_chains_zero(nodes, ids.drop_last());
    }
}

/// Among distinct children of one node, a node is under at most one, so it
/// counts once where it is under any.
proof fn lemma_hits_once(nodes: Seq<Node>, p: int, ids: Seq<NodeId>, x: int)
    requires
        tree_wf(nodes),
        0 <= p < nodes.len(),
        0 <= x < nodes.len(),
        forall|k: int| 0 <= k < ids.len() ==> 0 <= #[trigger] ids[k] < nodes.len() && nodes[ids[k] as int]@.parent == Some(
            p as NodeId,
        ),
        ids.no_duplicates(),
    ensures
        hits_sum(nodes, ids, x) == (if covered(nodes, ids, x) { nodes[x]@.own_bytes as int } else { 0 }),
    decreases ids.len(),
{
    if ids.len() > 0 {
        let pre = ids.drop_last();
        let last = ids.last() as int;
        assert forall|k: int| 0 <= k < pre.len() implies 0 <= #[trigger] pre[k] < nodes.len() && nodes[pre[k] as int]@.parent
            == Some(p as NodeId) by {
            assert(pre[k] == ids[k]);
        }
        lemma_hits_once(nodes, p, pre, x);
        if on_chain(nodes, last, x) {
            assert(!covered(nodes, pre, x)) by {
                if covered(nodes, pre, x) {
                    let k = choose|k: int| 0 <= k < pre.len() && #[trigger] on_chain(nodes, pre[k] as int, x);
                    assert(pre[k] == ids[k]);
                    assert(ids[k] != ids[ids.len() - 1]);
                    lemma_siblings_apart(nodes, p, last, pre[k] as int, x);
                }
            }
            assert(covered(nodes, ids, x)) by {
                assert(on_chain(nodes, ids[ids.len() - 1] as int, x));
            }
        } else {
            assert(covered(nodes, ids, x) == covered(nodes, pre, x)) by {
                if covered(nodes, ids, x) {
                    let k = choose|k: int| 0 <= k < ids.len() && #[trigger] on_chain(nodes, ids[k] as int, x);
                    assert(k < pre.len());
                    assert(pre[k] == ids[k]);
                }
                if covered(nodes, pre, x) {
                    let k = choose|k: int| 0 <= k < pre.len() && #[trigger] on_chain(nodes, pre[k] as int, x);
                    assert(pre[k] == ids[k]);
                }
            }
        }
    }
}

/// A node lies below `a` exactly when it is at or under a child of `a`.
proof fn lemma_below_is_covered(nodes: Seq<Node>, a: int, x: int)
    requires
        tree_wf(nodes),
        0 <= a < nodes.len(),
        0 <= x < nodes.len(),
    ensures
        is_ancestor(nodes, a, x) == covered(nodes, nodes[a]@.children, x),
{
    let ch = nodes[a]@.children;
    assert(nodes[a]@.id == a);
    if is_ancestor(nodes, a, x) {
        let c = lemma_child_toward(nodes, a, x);
        assert(c > 0) by {
            if c == 0 {
                assert(nodes[0]@.parent is None);
            }
        }
        assert(nodes[c]@.id == c);
        assert(nodes[nodes[c]@.parent.unwrap() as int]@.children.contains(c as NodeId));
        let k = choose|k: int| 0 <= k < ch.len() && ch[k] == c as NodeId;
        assert(on_chain(nodes, ch[k] as int, x));
    }
    if covered(nodes, ch, x) {
        let k = choose|k: int| 0 <= k < ch.len() && #[trigger] on_chain(nodes, ch[k] as int, x);
        let c = ch[k] as int;
        assert(nodes[a]@.children[k] == ch[k]);
        assert(is_ancestor(nodes, a, c)) by {
            assert(nodes[c]@.parent matches Some(q) && q < c);
        }
        lemma_ancestor_transitive_chain(nodes, a, c, x);
    }
}

proof fn lemma_cover_is_below(nodes: Seq<Node>, a: int, upto: int)
    requires
        tree_wf(nodes),
        0 <= a < nodes.len(),
        upto <= nodes.len(),
    ensures
        cover_sum(nodes, nodes[a]@.children, upto) == below_sum(nodes, a, upto),
    decreases upto,
{
    if upto > 0 {
        lemma_cover_is_below(nodes, a, upto - 1);
        lemma_below_is_covered(nodes, a, upto - 1);
    }
}

proof fn lemma_chains_cover(nodes: Seq<Node>, a: int, upto: int)
    requires
        tree_wf(nodes),
        0 <= a < nodes.len(),
        0 <= upto <= nodes.len(),
    ensures
        chains_sum(nodes, nodes[a]@.children, upto) == cover_sum(nodes, nodes[a]@.children, upto),
    decreases upto,
{
    let ch = nodes[a]@.children;
    if upto == 0 {
        lemma_chains_zero(nodes, ch);
    } else {
        lemma_chains_cover(nodes, a, upto - 1);
        lemma_chains_step(nodes, ch, upto);
        lemma_children_distinct(nodes, a);
        assert(nodes[a]@.id == a);
        assert forall|k: int| 0 <= k < ch.len() implies 0 <= #[trigger] ch[k] < nodes.len() && nodes[ch[k] as int]@.parent
            == Some(a as NodeId) by {
            assert(nodes[a]@.children[k] == ch[k]);
        }
        lemma_hits_once(nodes, a, ch, upto - 1);
    }
}

proof fn lemma_chains_totals(nodes: Seq<Node>, ids: Seq<NodeId>)
    requires
        sums_consistent(nodes),
        forall|k: int| 0 <= k < ids.len() ==> 0 <= #[trigger] ids[k] < nodes.len(),
    ensures
        chains_sum(nodes, ids, nodes.len() as int) == totals_sum(nodes, ids),
    decreases ids.len(),
{
    if ids.len() > 0 {
        let pre = ids.drop_last();
        assert forall|k: int| 0 <= k < pre.len() implies 0 <= #[trigger] pre[k] < nodes.len() by {
            assert(pre[k] == ids[k]);
        }
        lemma_chains_totals(nodes, pre);
        let c = ids.last() as int;
        assert(0 <= ids[ids.len() - 1] < nodes.len());
        lemma_chain_sum(nodes, c, nodes.len() as int);
        assert(nodes[c]@.subtree_known == below_sum(nodes, c, nodes.len() as int));
    }
}

/// Directory law: where every node knows exactly the bytes recorded below it,
/// the bytes below a directory are the totals of its children added up.
pub proof fn lemma_known_is_children_totals(nodes: Seq<Node>, a: int)
    requires
        tree_wf(nodes),
        sums_consistent(nodes),
        0 <= a < nodes.len(),
    ensures
        nodes[a]@.subtree_known == totals_sum(nodes, nodes[a]@.children),
{
    let ch = nodes[a]@.children;
    lemma_cover_is_below(nodes, a, nodes.len() as int);
    lemma_chains_cover(nodes, a, nodes.len() as int);
    assert forall|k: int| 0 <= k < ch.len() implies 0 <= #[trigger] ch[k] < nodes.len() by {
        assert(nodes[a]@.children[k] == ch[k]);
    }
    lemma_chains_totals(nodes, ch);
}

} // verus!
