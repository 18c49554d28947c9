use vstd::prelude::*;
use crate::model::{Node, NodeId};
use crate::tree::{Tree, tree_wf};
use crate::totals::{
    is_ancestor, lemma_ancestor_below, lemma_ancestor_step, lemma_ancestor_transitive_chain, on_chain, totals_fit,
};

verus! {

/// A step of a walk over the tree: a node, its depth in the walk, and the node
/// the walk reached it from.
pub type Entry = (NodeId, usize, Option<NodeId>);

/// Each entry of a node below `n` leads on only to entries of later nodes below `n`.
pub open spec fn kids_ok(n: int, kids: spec_fn(Entry) -> Seq<Entry>) -> bool {
    forall|e: Entry, k: int|
        0 <= e.0 < n && 0 <= k < kids(e).len() ==> e.0 < (#[trigger] kids(e)[k]).0 < n
}

/// The entries of a depth-first walk from `e` that visits an entry before the
/// entries `kids` leads on to, in their order.
pub open spec fn preorder(n: int, kids: spec_fn(Entry) -> Seq<Entry>, e: Entry) -> Seq<Entry>
    decreases n - e.0, 1int,
    when 0 <= e.0 < n && kids_ok(n, kids)
{
    seq![e] + forest(n, kids, e.0 as int, kids(e))
}

/// The walks from each entry of `list`, one after the other; every entry of
/// `list` is of a node after `p`.
pub open spec fn forest(n: int, kids: spec_fn(Entry) -> Seq<Entry>, p: int, list: Seq<Entry>) -> Seq<Entry>
    decreases n - p - 1, list.len() + 1,
    when p < n && kids_ok(n, kids) && forall|k: int| 0 <= k < list.len() ==> p < (#[trigger] list[k]).0 < n
{
    if list.len() == 0 {
        Seq::empty()
    } else {
        preorder(n, kids, list[0]) + forest(n, kids, p, list.drop_first())
    }
}

/// The walks from each entry of `list`, one after the other.
pub open spec fn flat(n: int, kids: spec_fn(Entry) -> Seq<Entry>, list: Seq<Entry>) -> Seq<Entry>
    decreases list.len(),
{
    if list.len() == 0 {
        Seq::empty()
    } else {
        preorder(n, kids, list[0]) + flat(n, kids, list.drop_first())
    }
}

pub proof fn lemma_forest_is_flat(n: int, kids: spec_fn(Entry) -> Seq<Entry>, p: int, list: Seq<Entry>)
    requires
        p < n,
        kids_ok(n, kids),
        forall|k: int| 0 <= k < list.len() ==> p < (#[trigger] list[k]).0 < n,
    ensures
        forest(n, kids, p, list) == flat(n, kids, list),
    decreases list.len(),
{
    if list.len() > 0 {
        assert forall|k: int| 0 <= k < list.drop_first().len() implies p < (#[trigger] list.drop_first()[k]).0 < n by {
            assert(list.drop_first()[k] == list[k + 1]);
        }
        lemma_forest_is_flat(n, kids, p, list.drop_first());
    }
}

pub proof fn lemma_flat_concat(n: int, kids: spec_fn(Entry) -> Seq<Entry>, a: Seq<Entry>, b: Seq<Entry>)
    ensures
        flat(n, kids, a + b) == flat(n, kids, a) + flat(n, kids, b),
    decreases a.len(),
{
    if a.len() == 0 {
        assert(a + b =~= b);
    } else {
        assert((a + b).drop_first() =~= a.drop_first() + b);
        lemma_flat_concat(n, kids, a.drop_first(), b);
    }
}

/// Taking the first pending entry of a walk and putting what it leads on to
/// in front of the rest keeps the walk the same.
pub proof fn lemma_flat_step(n: int, kids: spec_fn(Entry) -> Seq<Entry>, list: Seq<Entry>)
    requires
        kids_ok(n, kids),
        list.len() > 0,
        0 <= list[0].0 < n,
    ensures
        flat(n, kids, list) == seq![list[0]] + flat(n, kids, kids(list[0]) + list.drop_first()),
{
    let e = list[0];
    assert forall|k: int| 0 <= k < kids(e).len() implies e.0 < (#[trigger] kids(e)[k]).0 < n by {
    }
    lemma_forest_is_flat(n, kids, e.0 as int, kids(e));
    lemma_flat_concat(n, kids, kids(e), list.drop_first());
}

/// A walk from one entry is that entry's walk.
pub proof fn lemma_flat_single(n: int, kids: spec_fn(Entry) -> Seq<Entry>, e: Entry)
    ensures
        flat(n, kids, seq![e]) == preorder(n, kids, e),
{
    assert(seq![e].drop_first() =~= Seq::<Entry>::empty());
    assert(flat(n, kids, Seq::<Entry>::empty()) == Seq::<Entry>::empty());
    assert(flat(n, kids, seq![e]) == preorder(n, kids, e) + flat(n, kids, Seq::<Entry>::empty()));
    assert(preorder(n, kids, e) + Seq::<Entry>::empty() =~= preorder(n, kids, e));
}

/// The bytes below and in node `c`.
pub open spec fn total_of(nodes: Seq<Node>, c: int) -> int {
    nodes[c]@.own_bytes + nodes[c]@.subtree_known
}

/// Node `a` is listed before node `b` when ordered by size: the larger total
/// first, and of equal totals the smaller id first.
pub open spec fn ranks_before(nodes: Seq<Node>, a: NodeId, b: NodeId) -> bool {
    total_of(nodes, a as int) > total_of(nodes, b as int) || (total_of(nodes, a as int) == total_of(
        nodes,
        b as int,
    ) && a < b)
}

/// `s` lists the nodes of `of`, ordered by size.
pub open spec fn is_size_order(nodes: Seq<Node>, s: Seq<NodeId>, of: Seq<NodeId>) -> bool {
    &&& s.to_multiset() == of.to_multiset()
    &&& forall|i: int, j: int| 0 <= i < j < s.len() ==> ranks_before(nodes, #[trigger] s[i], #[trigger] s[j])
}

/// The nodes of `of`, ordered by size (unique, see `lemma_size_order_unique`).
pub open spec fn by_size(nodes: Seq<Node>, of: Seq<NodeId>) -> Seq<NodeId> {
    choose|s: Seq<NodeId>| is_size_order(nodes, s, of)
}

/// `x` put into the size-ordered `r` before the first node it ranks before.
pub open spec fn insert_by_size(nodes: Seq<Node>, r: Seq<NodeId>, x: NodeId) -> Seq<NodeId>
    decreases r.len(),
{
    if r.len() == 0 {
        seq![x]
    } else if ranks_before(nodes, x, r[0]) {
        seq![x] + r
    } else {
        seq![r[0]] + insert_by_size(nodes, r.drop_first(), x)
    }
}

proof fn lemma_insert_by_size(nodes: Seq<Node>, r: Seq<NodeId>, x: NodeId)
    requires
        forall|i: int, j: int| 0 <= i < j < r.len() ==> ranks_before(nodes, #[trigger] r[i], #[trigger] r[j]),
        !r.contains(x),
    ensures
        insert_by_size(nodes, r, x).to_multiset() == r.to_multiset().insert(x),
        forall|i: int, j: int|
            0 <= i < j < insert_by_size(nodes, r, x).len() ==> ranks_before(
                nodes,
                #[trigger] insert_by_size(nodes, r, x)[i],
                #[trigger] insert_by_size(nodes, r, x)[j],
            ),
        forall|i: int|
            0 <= i < insert_by_size(nodes, r, x).len() ==> #[trigger] insert_by_size(nodes, r, x)[i] == x
                || r.contains(insert_by_size(nodes, r, x)[i]),
        insert_by_size(nodes, r, x).len() == r.len() + 1,
    decreases r.len(),
{
    broadcast use vstd::seq_lib::group_to_multiset_ensures;

    let res = insert_by_size(nodes, r, x);
    if r.len() == 0 {
        assert(seq![x] =~= Seq::<NodeId>::empty().push(x));
    } else if ranks_before(nodes, x, r[0]) {
        assert(res =~= r.insert(0, x));
    } else {
        let rest = r.drop_first();
        assert(!rest.contains(x)) by {
            if rest.contains(x) {
                let k = choose|k: int| 0 <= k < rest.len() && rest[k] == x;
                assert(r[k + 1] == x);
            }
        }
        lemma_insert_by_size(nodes, rest, x);
        let sub = insert_by_size(nodes, rest, x);
        assert(res =~= sub.insert(0, r[0]));
        assert(r =~= rest.insert(0, r[0]));
        assert forall|i: int, j: int| 0 <= i < j < res.len() implies ranks_before(nodes, #[trigger] res[i], #[trigger] res[j]) by {
            if i == 0 {
                assert(res[j] == sub[j - 1]);
                if sub[j - 1] != x {
                    let k = choose|k: int| 0 <= k < rest.len() && rest[k] == sub[j - 1];
                    assert(r[k + 1] == rest[k]);
                }
            } else {
                assert(res[i] == sub[i - 1]);
                assert(res[j] == sub[j - 1]);
            }
        }
        assert forall|i: int| 0 <= i < res.len() implies #[trigger] res[i] == x || r.contains(res[i]) by {
            if i > 0 && sub[i - 1] != x {
                let k = choose|k: int| 0 <= k < rest.len() && rest[k] == sub[i - 1];
                assert(r[k + 1] == rest[k]);
            } else if i == 0 {
                assert(r[0] == res[0]);
            }
        }
    }
}

/// Every list of distinct nodes can be ordered by size.
pub proof fn lemma_size_order_exists(nodes: Seq<Node>, of: Seq<NodeId>)
    requires
        of.no_duplicates(),
    ensures
        is_size_order(nodes, by_size(nodes, of), of),
{
    let s = size_order_witness(nodes, of);
    assert(is_size_order(nodes, s, of));
}

proof fn size_order_witness(nodes: Seq<Node>, of: Seq<NodeId>) -> (s: Seq<NodeId>)
    requires
        of.no_duplicates(),
    ensures
        is_size_order(nodes, s, of),
        forall|i: int| 0 <= i < s.len() ==> of.contains(#[trigger] s[i]),
    decreases of.len(),
{
    broadcast use vstd::seq_lib::group_to_multiset_ensures;

    if of.len() == 0 {
        assert(of =~= Seq::<NodeId>::empty());
        Seq::empty()
    } else {
        let pre = of.drop_last();
        let x = of.last();
        let r = size_order_witness(nodes, pre);
        assert(!r.contains(x)) by {
            if r.contains(x) {
                let k = choose|k: int| 0 <= k < r.len() && r[k] == x;
                assert(pre.contains(x));
                let m = choose|m: int| 0 <= m < pre.len() && pre[m] == x;
                assert(of[m] == of[of.len() - 1]);
            }
        }
        lemma_insert_by_size(nodes, r, x);
        let s = insert_by_size(nodes, r, x);
        assert(of =~= pre.push(x));
        assert(of.to_multiset() == pre.to_multiset().insert(x));
        assert(s.to_multiset() == of.to_multiset());
        assert forall|i: int| 0 <= i < s.len() implies of.contains(#[trigger] s[i]) by {
            if s[i] == x {
                assert(of[of.len() - 1] == x);
            } else {
                let k = choose|k: int| 0 <= k < r.len() && r[k] == s[i];
                let m = choose|m: int| 0 <= m < pre.len() && pre[m] == r[k];
                assert(of[m] == pre[m]);
            }
        }
        s
    }
}

/// Two orders by size of the same nodes are the same list.
pub proof fn lemma_size_order_unique(nodes: Seq<Node>, s1: Seq<NodeId>, s2: Seq<NodeId>)
    requires
        s1.to_multiset() == s2.to_multiset(),
        forall|i: int, j: int| 0 <= i < j < s1.len() ==> ranks_before(nodes, #[trigger] s1[i], #[trigger] s1[j]),
        forall|i: int, j: int| 0 <= i < j < s2.len() ==> ranks_before(nodes, #[trigger] s2[i], #[trigger] s2[j]),
    ensures
        s1 == s2,
    decreases s1.len(),
{
    broadcast use vstd::seq_lib::group_to_multiset_ensures;

    assert(s1.len() == s1.to_multiset().len());
    assert(s2.len() == s2.to_multiset().len());
    if s1.len() == 0 {
        assert(s1 =~= s2);
    } else {
        let x = s1[0];
        let y = s2[0];
        if x != y {
            assert(s2.to_multiset().count(y) > 0);
            assert(s1.contains(y));
            let m = choose|m: int| 0 <= m < s1.len() && s1[m] == y;
            assert(s1.to_multiset().count(x) > 0);
            assert(s2.contains(x));
            let k = choose|k: int| 0 <= k < s2.len() && s2[k] == x;
            assert(ranks_before(nodes, s1[0], s1[m]));
            assert(ranks_before(nodes, s2[0], s2[k]));
        }
        assert(s1.remove(0) =~= s1.drop_first());
        assert(s2.remove(0) =~= s2.drop_first());
        assert(s1.remove(0).to_multiset() == s1.to_multiset().remove(s1[0]));
        assert(s2.remove(0).to_multiset() == s2.to_multiset().remove(s2[0]));
        lemma_size_order_unique(nodes, s1.drop_first(), s2.drop_first());
        assert forall|i: int| 0 <= i < s1.len() implies s1[i] == s2[i] by {
            if i > 0 {
                assert(s1[i] == s1.drop_first()[i - 1]);
                assert(s2[i] == s2.drop_first()[i - 1]);
            }
        }
        assert(s1 =~= s2);
    }
}

/// The children of `id` with their totals, the largest total first and, of
/// equal totals, the child that came first.
pub fn children_by_size(tree: &Tree, id: NodeId) -> (v: Vec<(NodeId, u64)>)
    requires
        tree.wf(),
        id < tree@.nodes.len(),
        totals_fit(tree@.nodes),
    ensures
        v@.map_values(|p: (NodeId, u64)| p.0) == by_size(tree@.nodes, tree@.nodes[id as int]@.children),
        forall|i: int| 0 <= i < v@.len() ==> v@[i].1 == total_of(tree@.nodes, v@[i].0 as int),
        forall|i: int| 0 <= i < v@.len() ==> id < #[trigger] v@[i].0 < tree@.nodes.len(),
{
    broadcast use vstd::seq_lib::group_to_multiset_ensures;

    let ghost nodes = tree@.nodes;
    let children = tree.node(id).children();
    let ghost ch = nodes[id as int]@.children;
    let mut v: Vec<(NodeId, u64)> = Vec::new();
    let mut i: usize = 0;
    while i < children.len()
        invariant
            tree.wf(),
            nodes == tree@.nodes,
            id < nodes.len(),
            totals_fit(nodes),
            children@ == ch,
            ch == nodes[id as int]@.children,
            i <= ch.len(),
            v@.map_values(|p: (NodeId, u64)| p.0).to_multiset() == ch.take(i as int).to_multiset(),
            forall|a: int| 0 <= a < v@.len() ==> v@[a].1 == total_of(nodes, v@[a].0 as int),
            forall|a: int| 0 <= a < v@.len() ==> id < #[trigger] v@[a].0 < nodes.len(),
            forall|a: int| 0 <= a < v@.len() ==> ch.take(i as int).contains(#[trigger] v@[a].0),
            forall|a: int, b: int| 0 <= a < b < v@.len() ==> ranks_before(nodes, #[trigger] v@[a].0, #[trigger] v@[b].0),
        decreases ch.len() - i,
    {
        let c = children[i];
        assert(id < c < nodes.len());
        let t = tree.node(c).total_bytes();
        let mut p: usize = 0;
        while p < v.len() && !(v[p].1 < t || (v[p].1 == t && c < v[p].0))
            invariant
                p <= v@.len(),
                forall|a: int| 0 <= a < p ==> !ranks_before(nodes, c, #[trigger] v@[a].0),
                forall|a: int| 0 <= a < v@.len() ==> v@[a].1 == total_of(nodes, v@[a].0 as int),
                t == total_of(nodes, c as int),
            decreases v@.len() - p,
        {
            p = p + 1;
        }
        let ghost before = v@;
        proof {
            assert forall|a: int| 0 <= a < before.len() implies before[a].0 != c by {
                assert(ch.take(i as int).contains(before[a].0));
                let k = choose|k: int| 0 <= k < i && ch.take(i as int)[k] == before[a].0;
                assert(ch[k] < ch[i as int]);
            }
        }
        v.insert(p, (c, t));
        proof {
            assert(v@.map_values(|q: (NodeId, u64)| q.0) =~= before.map_values(|q: (NodeId, u64)| q.0).insert(p as int, c));
            assert(ch.take(i + 1) =~= ch.take(i as int).push(c));
            vstd::seq_lib::to_multiset_insert(before.map_values(|q: (NodeId, u64)| q.0), p as int, c);
            vstd::seq_lib::to_multiset_build(ch.take(i as int), c);
            assert forall|a: int| 0 <= a < v@.len() implies ch.take(i + 1).contains(#[trigger] v@[a].0) by {
                if a < p {
                    assert(v@[a] == before[a]);
                    let k = choose|k: int| 0 <= k < i && ch.take(i as int)[k] == before[a].0;
                    assert(ch.take(i + 1)[k] == before[a].0);
                } else if a == p {
                    assert(ch.take(i + 1)[i as int] == c);
                } else {
                    assert(v@[a] == before[a - 1]);
                    let k = choose|k: int| 0 <= k < i && ch.take(i as int)[k] == before[a - 1].0;
                    assert(ch.take(i + 1)[k] == before[a - 1].0);
                }
            }
            assert forall|a: int, b: int| 0 <= a < b < v@.len() implies ranks_before(nodes, #[trigger] v@[a].0, #[trigger] v@[b].0) by {
                if a < p && b == p {
                    assert(!ranks_before(nodes, c, before[a].0));
                    assert(before[a].0 != c);
                } else if a < p && b > p {
                    assert(before[a] == v@[a]);
                    assert(before[b - 1] == v@[b]);
                } else if a == p && b > p {
                    assert(before[b - 1] == v@[b]);
                    assert(ranks_before(nodes, c, before[p as int].0));
                    if b - 1 > p {
                        assert(ranks_before(nodes, before[p as int].0, before[b - 1].0));
                    }
                } else if a > p {
                    assert(before[a - 1] == v@[a]);
                    assert(before[b - 1] == v@[b]);
                }
            }
        }
        i = i + 1;
    }
    proof {
        assert(ch.take(ch.len() as int) =~= ch);
        let ids = v@.map_values(|q: (NodeId, u64)| q.0);
        assert forall|a: int, b: int| 0 <= a < b < ids.len() implies ranks_before(nodes, #[trigger] ids[a], #[trigger] ids[b]) by {
            assert(ids[a] == v@[a].0);
            assert(ids[b] == v@[b].0);
        }
        assert(ch.no_duplicates()) by {
            assert forall|a: int, b: int| 0 <= a < ch.len() && 0 <= b < ch.len() && a != b implies ch[a] != ch[b] by {
                if a < b {
                    assert(ch[a] < ch[b]);
                } else {
                    assert(ch[b] < ch[a]);
                }
            }
        }
        lemma_size_order_exists(nodes, ch);
        lemma_size_order_unique(nodes, ids, by_size(nodes, ch));
    }
    v
}

/// The entries for nodes `ids` reached from `e`, one level deeper.
pub open spec fn child_entries(ids: Seq<NodeId>, e: Entry) -> Seq<Entry> {
    ids.map_values(|c: NodeId| (c, (e.1 + 1) as usize, Some(e.0)))
}

/// The first `k` of `s`, or all of `s` where it has fewer.
pub open spec fn first_n(s: Seq<NodeId>, k: int) -> Seq<NodeId> {
    if k < s.len() {
        s.take(k)
    } else {
        s
    }
}

/// The children of a node of a well-formed tree come after it, and without repeats.
pub proof fn lemma_children_distinct(nodes: Seq<Node>, i: int)
    requires
        tree_wf(nodes),
        0 <= i < nodes.len(),
    ensures
        nodes[i]@.children.no_duplicates(),
        forall|k: int| 0 <= k < nodes[i]@.children.len() ==> i < #[trigger] nodes[i]@.children[k] < nodes.len(),
{
    let ch = nodes[i]@.children;
    assert forall|a: int, b: int| 0 <= a < ch.len() && 0 <= b < ch.len() && a != b implies ch[a] != ch[b] by {
        if a < b {
            assert(ch[a] < ch[b]);
        } else {
            assert(ch[b] < ch[a]);
        }
    }
}

/// Ordered by size, the children of a node are still its children.
pub proof fn lemma_by_size_children(nodes: Seq<Node>, i: int)
    requires
        tree_wf(nodes),
        0 <= i < nodes.len(),
    ensures
        is_size_order(nodes, by_size(nodes, nodes[i]@.children), nodes[i]@.children),
        by_size(nodes, nodes[i]@.children).len() == nodes[i]@.children.len(),
        forall|k: int|
            0 <= k < by_size(nodes, nodes[i]@.children).len() ==> i < #[trigger] by_size(nodes, nodes[i]@.children)[k]
                < nodes.len(),
        forall|k: int|
            0 <= k < by_size(nodes, nodes[i]@.children).len() ==> nodes[#[trigger] by_size(
                nodes,
                nodes[i]@.children,
            )[k] as int]@.parent == Some(i as NodeId),
{
    broadcast use vstd::seq_lib::group_to_multiset_ensures;

    let ch = nodes[i]@.children;
    lemma_children_distinct(nodes, i);
    lemma_size_order_exists(nodes, ch);
    let s = by_size(nodes, ch);
    assert(s.len() == s.to_multiset().len());
    assert(ch.len() == ch.to_multiset().len());
    assert forall|k: int| 0 <= k < s.len() implies i < #[trigger] s[k] < nodes.len() && nodes[s[k] as int]@.parent
        == Some(i as NodeId) by {
        assert(s.to_multiset().count(s[k]) > 0);
        assert(ch.contains(s[k]));
        let m = choose|m: int| 0 <= m < ch.len() && ch[m] == s[k];
        assert(nodes[i]@.children[m] == s[k]);
    }
}

/// The entries still to visit when a stack holds them, the top first.
pub open spec fn pending_of(stack: Seq<Entry>) -> Seq<Entry> {
    stack.reverse()
}

/// Popping the top of a stack and pushing `kids` in reverse order puts them in
/// front of what remains to be visited.
pub proof fn lemma_stack_step(stack: Seq<Entry>, kids: Seq<Entry>)
    requires
        stack.len() > 0,
    ensures
        pending_of(stack) == seq![stack.last()] + pending_of(stack.drop_last()),
        pending_of(stack.drop_last() + kids.reverse()) == kids + pending_of(stack.drop_last()),
{
    assert(pending_of(stack) =~= seq![stack.last()] + pending_of(stack.drop_last()));
    assert(pending_of(stack.drop_last() + kids.reverse()) =~= kids + pending_of(stack.drop_last()));
}

/// A property of entries that each entry passes on to the entries it leads to
/// holds of every entry of a walk from an entry that has it.
pub proof fn lemma_preorder_all(n: int, kids: spec_fn(Entry) -> Seq<Entry>, prop: spec_fn(Entry) -> bool, e: Entry)
    requires
        kids_ok(n, kids),
        0 <= e.0 < n,
        prop(e),
        forall|x: Entry, k: int| 0 <= x.0 < n && prop(x) && 0 <= k < kids(x).len() ==> prop(#[trigger] kids(x)[k]),
    ensures
        forall|i: int| 0 <= i < preorder(n, kids, e).len() ==> prop(#[trigger] preorder(n, kids, e)[i]),
    decreases n - e.0, 1int,
{
    assert forall|k: int| 0 <= k < kids(e).len() implies e.0 < (#[trigger] kids(e)[k]).0 < n && prop(kids(e)[k]) by {
    }
    lemma_forest_all(n, kids, prop, e.0 as int, kids(e));
    let f = forest(n, kids, e.0 as int, kids(e));
    assert forall|i: int| 0 <= i < preorder(n, kids, e).len() implies prop(#[trigger] preorder(n, kids, e)[i]) by {
        if i > 0 {
            assert(preorder(n, kids, e)[i] == f[i - 1]);
        }
    }
}

pub proof fn lemma_forest_all(
    n: int,
    kids: spec_fn(Entry) -> Seq<Entry>,
    prop: spec_fn(Entry) -> bool,
    p: int,
    list: Seq<Entry>,
)
    requires
        kids_ok(n, kids),
        p < n,
        forall|k: int| 0 <= k < list.len() ==> p < (#[trigger] list[k]).0 < n && prop(list[k]),
        forall|x: Entry, k: int| 0 <= x.0 < n && prop(x) && 0 <= k < kids(x).len() ==> prop(#[trigger] kids(x)[k]),
    ensures
        forall|i: int| 0 <= i < forest(n, kids, p, list).len() ==> prop(#[trigger] forest(n, kids, p, list)[i]),
    decreases n - p - 1, list.len() + 1,
{
    if list.len() > 0 {
        let rest = list.drop_first();
        assert forall|k: int| 0 <= k < rest.len() implies p < (#[trigger] rest[k]).0 < n && prop(rest[k]) by {
            assert(rest[k] == list[k + 1]);
        }
        assert(list[0].0 > p);
        lemma_preorder_all(n, kids, prop, list[0]);
        lemma_forest_all(n, kids, prop, p, rest);
        let a = preorder(n, kids, list[0]);
        let b = forest(n, kids, p, rest);
        assert(forest(n, kids, p, list) == a + b);
        assert forall|i: int| 0 <= i < forest(n, kids, p, list).len() implies prop(#[trigger] forest(n, kids, p, list)[i]) by {
            if i < a.len() {
                assert(forest(n, kids, p, list)[i] == a[i]);
            } else {
                assert(forest(n, kids, p, list)[i] == b[i - a.len()]);
            }
        }
    }
}

/// Each entry of a node below `n` leads on to entries of distinct children of that node.
pub open spec fn kids_are_children(nodes: Seq<Node>, kids: spec_fn(Entry) -> Seq<Entry>) -> bool {
    &&& forall|e: Entry, k: int|
        0 <= e.0 < nodes.len() && 0 <= k < kids(e).len() ==> nodes[(#[trigger] kids(e)[k]).0 as int]@.parent == Some(
            e.0,
        )
    &&& forall|e: Entry, a: int, b: int|
        0 <= e.0 < nodes.len() && 0 <= a < b < kids(e).len() ==> (#[trigger] kids(e)[a]).0 != (
        #[trigger] kids(e)[b]).0
}

/// Two nodes on the chain above a node lie one above the other.
pub proof fn lemma_chain_linear(nodes: Seq<Node>, a: int, b: int, j: int)
    requires
        tree_wf(nodes),
        0 <= j < nodes.len(),
        on_chain(nodes, a, j),
        on_chain(nodes, b, j),
    ensures
        on_chain(nodes, a, b) || on_chain(nodes, b, a),
    decreases j,
{
    if a != j && b != j {
        lemma_ancestor_step(nodes, a, j);
        lemma_ancestor_step(nodes, b, j);
        let q = nodes[j]@.parent.unwrap() as int;
        assert(nodes[j]@.parent matches Some(p) && p < j);
        lemma_chain_linear(nodes, a, b, q);
    }
}

/// No node lies under two different children of the same node.
pub proof fn lemma_siblings_apart(nodes: Seq<Node>, p: int, c1: int, c2: int, x: int)
    requires
        tree_wf(nodes),
        0 <= p < nodes.len(),
        0 <= c1 < nodes.len(),
        0 <= c2 < nodes.len(),
        0 <= x < nodes.len(),
        c1 != c2,
        nodes[c1]@.parent == Some(p as NodeId),
        nodes[c2]@.parent == Some(p as NodeId),
        on_chain(nodes, c1, x),
    ensures
        !on_chain(nodes, c2, x),
{
    assert(nodes[p]@.id == p);
    assert(nodes[c1]@.parent matches Some(q) && q < c1) by {
        if c1 == 0 {
        }
    }
    assert(nodes[c2]@.parent matches Some(q) && q < c2) by {
        if c2 == 0 {
        }
    }
    if on_chain(nodes, c2, x) {
        lemma_chain_linear(nodes, c1, c2, x);
        if on_chain(nodes, c1, c2) {
            lemma_ancestor_step(nodes, c1, c2);
            assert(on_chain(nodes, c1, p));
            if is_ancestor(nodes, c1, p) {
                lemma_ancestor_below(nodes, c1, p);
            }
        } else {
            lemma_ancestor_step(nodes, c2, c1);
            assert(on_chain(nodes, c2, p));
            if is_ancestor(nodes, c2, p) {
                lemma_ancestor_below(nodes, c2, p);
            }
        }
    }
}

/// A walk from `e` lists only nodes at or under `e`'s node, each at most once.
pub proof fn lemma_preorder_distinct(nodes: Seq<Node>, kids: spec_fn(Entry) -> Seq<Entry>, e: Entry)
    requires
        tree_wf(nodes),
        kids_ok(nodes.len() as int, kids),
        kids_are_children(nodes, kids),
        0 <= e.0 < nodes.len(),
    ensures
        forall|i: int|
            0 <= i < preorder(nodes.len() as int, kids, e).len() ==> on_chain(
                nodes,
                e.0 as int,
                (#[trigger] preorder(nodes.len() as int, kids, e)[i]).0 as int,
            ),
        forall|i: int, j: int|
            0 <= i < j < preorder(nodes.len() as int, kids, e).len() ==> (#[trigger] preorder(
                nodes.len() as int,
                kids,
                e,
            )[i]).0 != (#[trigger] preorder(nodes.len() as int, kids, e)[j]).0,
    decreases nodes.len() - e.0, 1int,
{
    let n = nodes.len() as int;
    let ks = kids(e);
    assert forall|k: int| 0 <= k < ks.len() implies e.0 < (#[trigger] ks[k]).0 < n by {
    }
    lemma_forest_distinct(nodes, kids, e.0 as int, ks);
    let f = forest(n, kids, e.0 as int, ks);
    let pre = preorder(n, kids, e);
    assert(pre == seq![e] + f);
    assert forall|i: int| 0 <= i < pre.len() implies on_chain(nodes, e.0 as int, (#[trigger] pre[i]).0 as int) by {
        if i > 0 {
            assert(pre[i] == f[i - 1]);
        }
    }
    assert forall|i: int, j: int| 0 <= i < j < pre.len() implies (#[trigger] pre[i]).0 != (#[trigger] pre[j]).0 by {
        assert(pre[j] == f[j - 1]);
        if i > 0 {
            assert(pre[i] == f[i - 1]);
        } else {
            let x = f[j - 1].0 as int;
            if x == e.0 {
                lemma_ancestor_below(nodes, e.0 as int, x);
            }
        }
    }
}

/// The walks from entries of distinct children of `p` list only nodes under
/// them, each at most once, and none under another child of `p`.
pub proof fn lemma_forest_distinct(nodes: Seq<Node>, kids: spec_fn(Entry) -> Seq<Entry>, p: int, list: Seq<Entry>)
    requires
        tree_wf(nodes),
        kids_ok(nodes.len() as int, kids),
        kids_are_children(nodes, kids),
        0 <= p < nodes.len(),
        forall|k: int| 0 <= k < list.len() ==> p < (#[trigger] list[k]).0 < nodes.len(),
        forall|k: int| 0 <= k < list.len() ==> nodes[(#[trigger] list[k]).0 as int]@.parent == Some(p as NodeId),
        forall|a: int, b: int| 0 <= a < b < list.len() ==> (#[trigger] list[a]).0 != (#[trigger] list[b]).0,
    ensures
        forall|i: int|
            0 <= i < forest(nodes.len() as int, kids, p, list).len() ==> is_ancestor(
                nodes,
                p,
                (#[trigger] forest(nodes.len() as int, kids, p, list)[i]).0 as int,
            ),
        forall|i: int, c: int|
            0 <= i < forest(nodes.len() as int, kids, p, list).len() && 0 <= c < nodes.len() && nodes[c]@.parent
                == Some(p as NodeId) && (forall|k: int| 0 <= k < list.len() ==> list[k].0 != c) ==> !#[trigger] on_chain(
                nodes,
                c,
                forest(nodes.len() as int, kids, p, list)[i].0 as int,
            ),
        forall|i: int, j: int|
            0 <= i < j < forest(nodes.len() as int, kids, p, list).len() ==> (#[trigger] forest(
                nodes.len() as int,
                kids,
                p,
                list,
            )[i]).0 != (#[trigger] forest(nodes.len() as int, kids, p, list)[j]).0,
    decreases nodes.len() - p - 1, list.len() + 1,
{
    let n = nodes.len() as int;
    if list.len() > 0 {
        let rest = list.drop_first();
        let c0 = list[0].0 as int;
        assert forall|k: int| 0 <= k < rest.len() implies p < (#[trigger] rest[k]).0 < n by {
            assert(rest[k] == list[k + 1]);
        }
        assert forall|k: int| 0 <= k < rest.len() implies nodes[(#[trigger] rest[k]).0 as int]@.parent == Some(p as NodeId) by {
            assert(rest[k] == list[k + 1]);
        }
        assert forall|a: int, b: int| 0 <= a < b < rest.len() implies (#[trigger] rest[a]).0 != (#[trigger] rest[b]).0 by {
            assert(rest[a] == list[a + 1]);
            assert(rest[b] == list[b + 1]);
        }
        lemma_preorder_distinct(nodes, kids, list[0]);
        lemma_forest_distinct(nodes, kids, p, rest);
        let a = preorder(n, kids, list[0]);
        let b = forest(n, kids, p, rest);
        let f = forest(n, kids, p, list);
        assert(f == a + b);
        assert(is_ancestor(nodes, p, c0)) by {
            assert(nodes[c0]@.parent matches Some(q) && q < c0);
        }
        assert forall|i: int| 0 <= i < f.len() implies is_ancestor(nodes, p, (#[trigger] f[i]).0 as int) by {
            if i < a.len() {
                assert(f[i] == a[i]);
                lemma_ancestor_transitive_chain(nodes, p, c0, a[i].0 as int);
            } else {
                assert(f[i] == b[i - a.len()]);
            }
        }
        assert forall|i: int, c: int|
            0 <= i < f.len() && 0 <= c < n && nodes[c]@.parent == Some(p as NodeId) && (forall|k: int|
                0 <= k < list.len() ==> list[k].0 != c) implies !#[trigger] on_chain(nodes, c, f[i].0 as int) by {
            assert(list[0].0 != c);
            if i < a.len() {
                assert(f[i] == a[i]);
                lemma_ancestor_below_chain(nodes, c0, a[i].0 as int);
                lemma_siblings_apart(nodes, p, c0, c, a[i].0 as int);
            } else {
                assert(f[i] == b[i - a.len()]);
                assert forall|k: int| 0 <= k < rest.len() implies rest[k].0 != c by {
                    assert(rest[k] == list[k + 1]);
                }
            }
        }
        assert forall|i: int, j: int| 0 <= i < j < f.len() implies (#[trigger] f[i]).0 != (#[trigger] f[j]).0 by {
            if j < a.len() {
                assert(f[i] == a[i]);
                assert(f[j] == a[j]);
            } else if i >= a.len() {
                assert(f[i] == b[i - a.len()]);
                assert(f[j] == b[j - a.len()]);
            } else {
                assert(f[i] == a[i]);
                assert(f[j] == b[j - a.len()]);
                assert forall|k: int| 0 <= k < rest.len() implies rest[k].0 != c0 by {
                    assert(rest[k] == list[k + 1]);
                }
                if f[i].0 == f[j].0 {
                    assert(on_chain(nodes, c0, a[i].0 as int));
                    assert(!on_chain(nodes, c0, b[j - a.len()].0 as int));
                }
            }
        }
    }
}

/// The first node on the way down from `a` to a node `x` under it: a child of
/// `a` that `x` is at or under.
pub proof fn lemma_child_toward(nodes: Seq<Node>, a: int, x: int) -> (c: int)
    requires
        tree_wf(nodes),
        is_ancestor(nodes, a, x),
    ensures
        0 <= c < nodes.len(),
        nodes[c]@.parent == Some(a as NodeId),
        on_chain(nodes, c, x),
    decreases x,
{
    lemma_ancestor_below(nodes, a, x);
    assert(nodes[a]@.id == a);
    assert(nodes[x]@.parent matches Some(p) && p < x);
    let q = nodes[x]@.parent.unwrap() as int;
    if q == a {
        x
    } else {
        let c = lemma_child_toward(nodes, a, q);
        lemma_ancestor_step(nodes, c, x);
        c
    }
}

/// The walks from each entry of `list` all appear in the walk of the whole list.
pub proof fn lemma_forest_has(n: int, kids: spec_fn(Entry) -> Seq<Entry>, p: int, list: Seq<Entry>, k: int, j: int)
    requires
        kids_ok(n, kids),
        p < n,
        forall|m: int| 0 <= m < list.len() ==> p < (#[trigger] list[m]).0 < n,
        0 <= k < list.len(),
        0 <= j < preorder(n, kids, list[k]).len(),
    ensures
        exists|i: int|
            0 <= i < forest(n, kids, p, list).len() && forest(n, kids, p, list)[i] == preorder(n, kids, list[k])[j],
    decreases list.len(),
{
    let rest = list.drop_first();
    assert forall|m: int| 0 <= m < rest.len() implies p < (#[trigger] rest[m]).0 < n by {
        assert(rest[m] == list[m + 1]);
    }
    let a = preorder(n, kids, list[0]);
    let b = forest(n, kids, p, rest);
    let f = forest(n, kids, p, list);
    assert(f == a + b);
    if k == 0 {
        assert(f[j] == a[j]);
    } else {
        assert(rest[k - 1] == list[k]);
        lemma_forest_has(n, kids, p, rest, k - 1, j);
        let i = choose|i: int| 0 <= i < b.len() && b[i] == preorder(n, kids, rest[k - 1])[j];
        assert(f[a.len() + i] == b[i]);
    }
}

/// Where every entry with `prop` leads on to an entry, with `prop`, of each
/// child of its node, a walk from such an entry reaches every node under it.
pub proof fn lemma_preorder_covers(
    nodes: Seq<Node>,
    kids: spec_fn(Entry) -> Seq<Entry>,
    prop: spec_fn(Entry) -> bool,
    e: Entry,
    x: int,
)
    requires
        tree_wf(nodes),
        kids_ok(nodes.len() as int, kids),
        0 <= e.0 < nodes.len(),
        prop(e),
        forall|y: Entry, k: int|
            0 <= y.0 < nodes.len() && prop(y) && 0 <= k < kids(y).len() ==> prop(#[trigger] kids(y)[k]),
        forall|y: Entry, c: int|
            #![trigger prop(y), nodes[c]]
            0 <= y.0 < nodes.len() && prop(y) && 0 <= c < nodes.len() && nodes[c]@.parent == Some(y.0)
                ==> exists|k: int| 0 <= k < kids(y).len() && (#[trigger] kids(y)[k]).0 == c,
        on_chain(nodes, e.0 as int, x),
    ensures
        exists|i: int|
            0 <= i < preorder(nodes.len() as int, kids, e).len() && preorder(nodes.len() as int, kids, e)[i].0 == x,
    decreases nodes.len() - e.0,
{
    let n = nodes.len() as int;
    let pre = preorder(n, kids, e);
    let ks = kids(e);
    assert(pre == seq![e] + forest(n, kids, e.0 as int, ks));
    if x == e.0 {
        assert(pre[0] == e);
    } else {
        let c = lemma_child_toward(nodes, e.0 as int, x);
        assert(nodes[c]@.parent == Some(e.0));
        let k = choose|k: int| 0 <= k < ks.len() && (#[trigger] ks[k]).0 == c;
        assert(prop(ks[k]));
        lemma_preorder_covers(nodes, kids, prop, ks[k], x);
        let j = choose|j: int| 0 <= j < preorder(n, kids, ks[k]).len() && preorder(n, kids, ks[k])[j].0 == x;
        assert forall|m: int| 0 <= m < ks.len() implies e.0 < (#[trigger] ks[m]).0 < n by {
        }
        lemma_forest_has(n, kids, e.0 as int, ks, k, j);
        let i = choose|i: int|
            0 <= i < forest(n, kids, e.0 as int, ks).len() && forest(n, kids, e.0 as int, ks)[i] == preorder(
                n,
                kids,
                ks[k],
            )[j];
        assert(pre[i + 1] == forest(n, kids, e.0 as int, ks)[i]);
    }
}

/// How many levels node `x` lies below node `a`.
pub open spec fn steps_below(nodes: Seq<Node>, a: int, x: int) -> nat
    decreases x,
{
    if x <= a || x >= nodes.len() {
        0
    } else {
        match nodes[x]@.parent {
            Some(p) => if p < x {
                steps_below(nodes, a, p as int) + 1
            } else {
                0
            },
            None => 0,
        }
    }
}

/// A node under a child `c` of `a` lies one level deeper below `a` than below `c`.
pub proof fn lemma_steps_through_child(nodes: Seq<Node>, a: int, c: int, x: int)
    requires
        tree_wf(nodes),
        0 <= a < nodes.len(),
        0 <= c < nodes.len(),
        nodes[c]@.parent == Some(a as NodeId),
        on_chain(nodes, c, x),
    ensures
        steps_below(nodes, a, x) == steps_below(nodes, c, x) + 1,
    decreases x,
{
    assert(nodes[c]@.parent matches Some(q) && q < c) by {
        if c == 0 {
        }
    }
    assert(nodes[c]@.id == c);
    assert(nodes[a]@.id == a);
    if x != c {
        lemma_ancestor_below(nodes, c, x);
        lemma_ancestor_step(nodes, c, x);
        assert(nodes[x]@.parent matches Some(q) && q < x);
        let p = nodes[x]@.parent.unwrap() as int;
        lemma_steps_through_child(nodes, a, c, p);
        assert(steps_below(nodes, a, x) == steps_below(nodes, a, p) + 1);
        assert(steps_below(nodes, c, x) == steps_below(nodes, c, p) + 1);
    } else {
        assert(steps_below(nodes, a, a) == 0);
        assert(steps_below(nodes, a, c) == 1);
    }
}

/// Every entry above `limit` levels leads on to an entry, one level deeper,
/// of each child of its node.
pub open spec fn kids_cover_within(nodes: Seq<Node>, kids: spec_fn(Entry) -> Seq<Entry>, limit: int) -> bool {
    &&& forall|y: Entry, k: int|
        0 <= y.0 < nodes.len() && y.1 < limit && 0 <= k < kids(y).len() ==> (#[trigger] kids(y)[k]).1 == y.1 + 1
    &&& forall|y: Entry, c: int|
        #![trigger depth_of(y), nodes[c]]
        0 <= y.0 < nodes.len() && depth_of(y) < limit && 0 <= c < nodes.len() && nodes[c]@.parent == Some(y.0)
            ==> exists|k: int| 0 <= k < kids(y).len() && (#[trigger] kids(y)[k]).0 == c
}

/// The depth of an entry in its walk.
pub open spec fn depth_of(e: Entry) -> int {
    e.1 as int
}

/// Where every entry above `limit` levels leads on to an entry, one level
/// deeper, of each child of its node, a walk from an entry reaches every node
/// under it that lies no deeper than `limit` levels.
pub proof fn lemma_preorder_covers_within(
    nodes: Seq<Node>,
    kids: spec_fn(Entry) -> Seq<Entry>,
    limit: int,
    e: Entry,
    x: int,
)
    requires
        tree_wf(nodes),
        kids_ok(nodes.len() as int, kids),
        0 <= e.0 < nodes.len(),
        kids_cover_within(nodes, kids, limit),
        on_chain(nodes, e.0 as int, x),
        e.1 + steps_below(nodes, e.0 as int, x) <= limit,
    ensures
        exists|i: int|
            0 <= i < preorder(nodes.len() as int, kids, e).len() && preorder(nodes.len() as int, kids, e)[i].0 == x,
    decreases nodes.len() - e.0,
{
    let n = nodes.len() as int;
    let pre = preorder(n, kids, e);
    let ks = kids(e);
    assert(pre == seq![e] + forest(n, kids, e.0 as int, ks));
    if x == e.0 {
        assert(pre[0] == e);
    } else {
        let c = lemma_child_toward(nodes, e.0 as int, x);
        assert(nodes[c]@.parent == Some(e.0));
        lemma_steps_through_child(nodes, e.0 as int, c, x);
        assert(depth_of(e) < limit);
        assert(nodes[c]@.parent == Some(e.0));
        let k = choose|k: int| 0 <= k < ks.len() && (#[trigger] ks[k]).0 == c;
        assert(ks[k].1 == e.1 + 1);
        lemma_preorder_covers_within(nodes, kids, limit, ks[k], x);
        let j = choose|j: int| 0 <= j < preorder(n, kids, ks[k]).len() && preorder(n, kids, ks[k])[j].0 == x;
        assert forall|m: int| 0 <= m < ks.len() implies e.0 < (#[trigger] ks[m]).0 < n by {
        }
        lemma_forest_has(n, kids, e.0 as int, ks, k, j);
        let i = choose|i: int|
            0 <= i < forest(n, kids, e.0 as int, ks).len() && forest(n, kids, e.0 as int, ks)[i] == preorder(
                n,
                kids,
                ks[k],
            )[j];
        assert(pre[i + 1] == forest(n, kids, e.0 as int, ks)[i]);
    }
}

/// Walks by two rules for leading on agree where the rules agree on every
/// entry that a property, kept from entry to entry, holds of.
pub proof fn lemma_preorder_same(
    n: int,
    k1: spec_fn(Entry) -> Seq<Entry>,
    k2: spec_fn(Entry) -> Seq<Entry>,
    prop: spec_fn(Entry) -> bool,
    e: Entry,
)
    requires
        kids_ok(n, k1),
        kids_ok(n, k2),
        0 <= e.0 < n,
        prop(e),
        forall|x: Entry, k: int| 0 <= x.0 < n && prop(x) && 0 <= k < k1(x).len() ==> prop(#[trigger] k1(x)[k]),
        forall|x: Entry| 0 <= x.0 < n && prop(x) ==> #[trigger] k1(x) == k2(x),
    ensures
        preorder(n, k1, e) == preorder(n, k2, e),
    decreases n - e.0, 1int,
{
    let ks = k1(e);
    assert(k2(e) == ks);
    assert forall|k: int| 0 <= k < ks.len() implies e.0 < (#[trigger] ks[k]).0 < n && prop(ks[k]) by {
    }
    lemma_forest_same(n, k1, k2, prop, e.0 as int, ks);
}

pub proof fn lemma_forest_same(
    n: int,
    k1: spec_fn(Entry) -> Seq<Entry>,
    k2: spec_fn(Entry) -> Seq<Entry>,
    prop: spec_fn(Entry) -> bool,
    p: int,
    list: Seq<Entry>,
)
    requires
        kids_ok(n, k1),
        kids_ok(n, k2),
        p < n,
        forall|k: int| 0 <= k < list.len() ==> p < (#[trigger] list[k]).0 < n && prop(list[k]),
        forall|x: Entry, k: int| 0 <= x.0 < n && prop(x) && 0 <= k < k1(x).len() ==> prop(#[trigger] k1(x)[k]),
        forall|x: Entry| 0 <= x.0 < n && prop(x) ==> #[trigger] k1(x) == k2(x),
    ensures
        forest(n, k1, p, list) == forest(n, k2, p, list),
    decreases n - p - 1, list.len() + 1,
{
    if list.len() > 0 {
        let rest = list.drop_first();
        assert forall|k: int| 0 <= k < rest.len() implies p < (#[trigger] rest[k]).0 < n && prop(rest[k]) by {
            assert(rest[k] == list[k + 1]);
        }
        assert(list[0].0 > p);
        lemma_preorder_same(n, k1, k2, prop, list[0]);
        lemma_forest_same(n, k1, k2, prop, p, rest);
    }
}

/// A node at or under `c` in a walk is a node of the tree.
proof fn lemma_ancestor_below_chain(nodes: Seq<Node>, c: int, x: int)
    requires
        0 <= c < nodes.len(),
        on_chain(nodes, c, x),
    ensures
        0 <= x < nodes.len(),
{
    if c != x {
        lemma_ancestor_below(nodes, c, x);
    }
}

} // verus!
