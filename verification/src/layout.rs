use vstd::prelude::*;
use crate::model::{Node, NodeId};
use crate::top_files::{FileEntry, FileMetaData, meta_entry};
use crate::totals::totals_fit;
use crate::tree::Tree;
use crate::treemap::{
    Canvas, CanvasView, Cell, TreeMapSettings, TreeMapView, box_drawn, canvas_of, canvas_wf, file_drawn, free_box_drawn, in_block, lines_text, lemma_box_in_block, lemma_file_in_block,
    lemma_same_outside_grow, lemma_same_outside_trans, lemma_text_in_block, make_sized_label, same_outside,
    sized_label, text_drawn,
};
use crate::walk::total_of;

verus! {

/// The arithmetic of a treemap that works on fractions: how much of the space
/// left an item takes, how much of the width used space takes beside free
/// space, and how a size is written in a label.
pub trait Proportions {
    /// How many of `extent` cells an item of `size` bytes of the `total` left
    /// to place takes, before that is kept between one cell and all of them.
    fn share(&self, extent: usize, size: u64, total: u64) -> usize;

    /// How many of `width` cells stand for `used` of `total` bytes, before
    /// the shares of used and free space are widened to be seen.
    fn used_share(&self, width: usize, used: u64, total: u64) -> usize;

    /// How `bytes` is written in a label.
    fn size_label(&self, bytes: u64) -> String;
}

/// What a block of a treemap stands for: a directory, or one of the largest
/// files of a directory.
pub enum LayoutItem {
    Folder(NodeId),
    File(FileMetaData),
}

/// A [`LayoutItem`] as a mathematical value.
pub enum LayoutItemView {
    Folder(NodeId),
    File(u64, Seq<char>),
}

impl View for LayoutItem {
    type V = LayoutItemView;

    open spec fn view(&self) -> LayoutItemView {
        match self {
            LayoutItem::Folder(id) => LayoutItemView::Folder(*id),
            LayoutItem::File(f) => LayoutItemView::File(f.size, f.name@),
        }
    }
}

/// The bytes an item stands for.
pub open spec fn item_size(nodes: Seq<Node>, it: LayoutItemView) -> int {
    match it {
        LayoutItemView::Folder(id) => total_of(nodes, id as int),
        LayoutItemView::File(size, _) => size as int,
    }
}

/// Where `it` is a directory, it is one of the `n` nodes of the tree.
pub open spec fn folder_valid(it: LayoutItemView, n: int) -> bool {
    match it {
        LayoutItemView::Folder(c) => c < n,
        LayoutItemView::File(..) => true,
    }
}

impl LayoutItem {
    /// The bytes the item stands for.
    pub fn size(&self, tree: &Tree) -> (r: u64)
        requires
            tree.wf(),
            totals_fit(tree@.nodes),
            self@ matches LayoutItemView::Folder(id) ==> id < tree@.nodes.len(),
        ensures
            r == item_size(tree@.nodes, self@),
    {
        match self {
            LayoutItem::Folder(id) => tree.node(*id).total_bytes(),
            LayoutItem::File(f) => f.size,
        }
    }

    /// A copy of the item.
    pub fn clone_item(&self) -> (r: Self)
        ensures
            r@ == self@,
    {
        match self {
            LayoutItem::Folder(id) => LayoutItem::Folder(*id),
            LayoutItem::File(f) => LayoutItem::File(FileMetaData { name: f.name.clone(), size: f.size, mtime: f.mtime }),
        }
    }
}

/// The sum of `s`.
pub open spec fn sum_sizes(s: Seq<u64>) -> int {
    s.fold_left(0int, |acc: int, x: u64| acc + x)
}

/// The bytes of the files `q`.
pub open spec fn entry_bytes(q: Seq<FileEntry>) -> int {
    q.fold_left(0int, |acc: int, e: FileEntry| acc + e.0)
}

/// The totals of the children of node `i`.
pub open spec fn child_totals(nodes: Seq<Node>, i: int) -> Seq<u64> {
    nodes[i]@.children.map_values(|c: NodeId| total_of(nodes, c as int) as u64)
}

/// Every directory's children and largest files, laid out together, add up
/// to a size that fits in a `u64`.
pub open spec fn layout_fits(nodes: Seq<Node>) -> bool {
    forall|i: int, q: Seq<FileEntry>|
        #![trigger nodes[i], q.to_multiset()]
        0 <= i < nodes.len() && q.to_multiset() == nodes[i]@.top_files.files ==> sum_sizes(child_totals(nodes, i))
            + entry_bytes(q) <= u64::MAX
}

/// The sizes of `items`.
pub open spec fn item_sizes(nodes: Seq<Node>, items: Seq<LayoutItem>) -> Seq<u64> {
    items.map_values(|it: LayoutItem| item_size(nodes, it@) as u64)
}

pub proof fn lemma_sum_push(s: Seq<u64>, x: u64)
    ensures
        sum_sizes(s.push(x)) == sum_sizes(s) + x,
{
    assert(s.push(x).drop_last() =~= s);
}

pub proof fn lemma_sum_concat(a: Seq<u64>, b: Seq<u64>)
    ensures
        sum_sizes(a + b) == sum_sizes(a) + sum_sizes(b),
    decreases b.len(),
{
    if b.len() == 0 {
        assert(a + b =~= a);
    } else {
        lemma_sum_concat(a, b.drop_last());
        assert(a + b =~= (a + b.drop_last()).push(b.last()));
        assert(b =~= b.drop_last().push(b.last()));
        lemma_sum_push(a + b.drop_last(), b.last());
        lemma_sum_push(b.drop_last(), b.last());
    }
}

/// The sum of a prefix is at most the sum of the whole.
pub proof fn lemma_sum_prefix(s: Seq<u64>, k: int)
    requires
        0 <= k <= s.len(),
    ensures
        0 <= sum_sizes(s.take(k)) <= sum_sizes(s),
    decreases s.len() - k,
{
    if k < s.len() {
        lemma_sum_prefix(s, k + 1);
        assert(s.take(k + 1) =~= s.take(k).push(s[k]));
        lemma_sum_push(s.take(k), s[k]);
        lemma_sum_nonneg(s.take(k));
    } else {
        assert(s.take(k) =~= s);
        lemma_sum_nonneg(s);
    }
}

pub proof fn lemma_sum_nonneg(s: Seq<u64>)
    ensures
        sum_sizes(s) >= 0,
    decreases s.len(),
{
    if s.len() > 0 {
        lemma_sum_nonneg(s.drop_last());
    }
}

/// The sizes of files add up to their bytes.
pub proof fn lemma_file_sizes(fs: Seq<FileMetaData>)
    ensures
        sum_sizes(fs.map_values(|f: FileMetaData| f.size)) == entry_bytes(fs.map_values(|f: FileMetaData| meta_entry(f))),
    decreases fs.len(),
{
    if fs.len() > 0 {
        lemma_file_sizes(fs.drop_last());
        assert(fs.map_values(|f: FileMetaData| f.size).drop_last() =~= fs.drop_last().map_values(|f: FileMetaData| f.size));
        assert(fs.map_values(|f: FileMetaData| meta_entry(f)).drop_last() =~= fs.drop_last().map_values(
            |f: FileMetaData| meta_entry(f),
        ));
    }
}

/// Whether every directory's children and largest files add up to a size
/// that fits in a `u64`, see [`layout_fits`].
pub fn check_layout_fits(tree: &Tree) -> (b: bool)
    requires
        tree.wf(),
        totals_fit(tree@.nodes),
    ensures
        b == layout_fits(tree@.nodes),
{
    let ghost nodes = tree@.nodes;
    let n = tree.len();
    let mut i: usize = 0;
    while i < n
        invariant
            tree.wf(),
            nodes == tree@.nodes,
            totals_fit(nodes),
            n == nodes.len(),
            i <= n,
            forall|a: int, q: Seq<FileEntry>|
                #![trigger nodes[a], q.to_multiset()]
                0 <= a < i && q.to_multiset() == nodes[a]@.top_files.files ==> sum_sizes(child_totals(nodes, a))
                    + entry_bytes(q) <= u64::MAX,
        decreases n - i,
    {
        let node = tree.node(i);
        let files = node.top_files().to_sorted_vec_desc();
        let ghost fsz = files@.map_values(|f: FileMetaData| f.size);
        let ghost fq = files@.map_values(|f: FileMetaData| meta_entry(f));
        proof {
            lemma_file_sizes(files@);
            lemma_sum_nonneg(fsz);
            assert(fq.to_multiset() == nodes[i as int]@.top_files.files);
        }
        let children = node.children();
        let ghost ct = child_totals(nodes, i as int);
        let mut sum: u64 = 0;
        let mut k: usize = 0;
        while k < children.len()
            invariant
                tree.wf(),
                nodes == tree@.nodes,
                totals_fit(nodes),
                i < nodes.len(),
                children@ == nodes[i as int]@.children,
                ct == child_totals(nodes, i as int),
                k <= children@.len(),
                sum == sum_sizes(ct.take(k as int)),
                fq.to_multiset() == nodes[i as int]@.top_files.files,
                entry_bytes(fq) == sum_sizes(fsz),
                sum_sizes(fsz) >= 0,
            decreases children@.len() - k,
        {
            let c = children[k];
            assert(i < c < nodes.len());
            let t = tree.node(c).total_bytes();
            proof {
                assert(ct.take(k + 1) =~= ct.take(k as int).push(t));
                lemma_sum_push(ct.take(k as int), t);
            }
            match sum.checked_add(t) {
                Some(v) => {
                    sum = v;
                },
                None => {
                    proof {
                        lemma_sum_prefix(ct, k + 1);
                        assert(sum_sizes(child_totals(nodes, i as int)) + entry_bytes(fq) > u64::MAX);
                        assert(fq.to_multiset() == nodes[i as int]@.top_files.files);
                    }
                    return false;
                },
            }
            k = k + 1;
        }
        proof {
            assert(ct.take(children@.len() as int) =~= ct);
        }
        let ghost base = sum as int;
        let mut j: usize = 0;
        while j < files.len()
            invariant
                j <= files@.len(),
                fsz == files@.map_values(|f: FileMetaData| f.size),
                sum == base + sum_sizes(fsz.take(j as int)),
                base == sum_sizes(ct),
                nodes == tree@.nodes,
                ct == child_totals(nodes, i as int),
                i < nodes.len(),
                fq.to_multiset() == nodes[i as int]@.top_files.files,
                entry_bytes(fq) == sum_sizes(fsz),
            decreases files@.len() - j,
        {
            let sz = files[j].size;
            proof {
                assert(fsz.take(j + 1) =~= fsz.take(j as int).push(sz));
                lemma_sum_push(fsz.take(j as int), sz);
            }
            match sum.checked_add(sz) {
                Some(v) => {
                    sum = v;
                },
                None => {
                    proof {
                        lemma_sum_prefix(fsz, j + 1);
                        assert(sum_sizes(child_totals(nodes, i as int)) + entry_bytes(fq) > u64::MAX);
                        assert(fq.to_multiset() == nodes[i as int]@.top_files.files);
                    }
                    return false;
                },
            }
            j = j + 1;
        }
        proof {
            assert(fsz.take(files@.len() as int) =~= fsz);
            assert forall|q: Seq<FileEntry>| #[trigger] q.to_multiset() == nodes[i as int]@.top_files.files implies sum_sizes(
                child_totals(nodes, i as int),
            ) + entry_bytes(q) <= u64::MAX by {
                lemma_entry_bytes_permutation(q, fq);
            }
        }
        i = i + 1;
    }
    true
}

/// The bytes of files do not depend on their order.
pub proof fn lemma_entry_bytes_permutation(q1: Seq<FileEntry>, q2: Seq<FileEntry>)
    requires
        q1.to_multiset() == q2.to_multiset(),
    ensures
        entry_bytes(q1) == entry_bytes(q2),
{
    let f = |acc: int, e: FileEntry| acc + e.0;
    assert(vstd::seq_lib::commutative_foldl(f));
    vstd::seq_lib::lemma_fold_left_permutation(q1, q2, f, 0int);
}

/// Item `a` is placed before item `b`: the larger first and, of equal
/// sizes, the one that came first.
pub open spec fn placed_before(sizes: Seq<u64>, a: int, b: int) -> bool {
    sizes[a] > sizes[b] || (sizes[a] == sizes[b] && a < b)
}

/// `order` lists the positions of the items of nonzero size among `sizes`,
/// each once, in the order they are placed.
pub open spec fn is_display_order(sizes: Seq<u64>, order: Seq<usize>) -> bool {
    &&& forall|k: int| 0 <= k < order.len() ==> #[trigger] order[k] < sizes.len() && sizes[order[k] as int] > 0
    &&& forall|i: int| 0 <= i < sizes.len() && sizes[i] > 0 ==> #[trigger] order.contains(i as usize)
    &&& forall|a: int, b: int|
        0 <= a < b < order.len() ==> placed_before(sizes, #[trigger] order[a] as int, #[trigger] order[b] as int)
}

/// The positions of the items of nonzero size, with their sizes, in the
/// order they are placed: the largest first and, of equal sizes, the one that
/// came first.
#[verifier::spinoff_prover]
pub fn display_order(sizes: &Vec<u64>) -> (order: Vec<(usize, u64)>)
    ensures
        is_display_order(sizes@, order@.map_values(|p: (usize, u64)| p.0)),
        forall|k: int| 0 <= k < order@.len() ==> (#[trigger] order@[k]).1 == sizes@[order@[k].0 as int],
{
    let mut order: Vec<(usize, u64)> = Vec::new();
    let mut i: usize = 0;
    while i < sizes.len()
        invariant
            i <= sizes@.len(),
            forall|k: int| 0 <= k < order@.len() ==> (#[trigger] order@[k]).0 < i && sizes@[order@[k].0 as int] > 0
                && order@[k].1 == sizes@[order@[k].0 as int],
            forall|j: int| 0 <= j < i && sizes@[j] > 0 ==> exists|k: int| 0 <= k < order@.len() && (#[trigger] order@[k]).0 == j,
            forall|a: int, b: int|
                0 <= a < b < order@.len() ==> placed_before(sizes@, (#[trigger] order@[a]).0 as int, (#[trigger] order@[b]).0 as int),
        decreases sizes@.len() - i,
    {
        let s = sizes[i];
        if s > 0 {
            let mut p: usize = 0;
            while p < order.len() && s <= order[p].1
                invariant
                    p <= order@.len(),
                    forall|a: int| 0 <= a < p ==> s <= (#[trigger] order@[a]).1,
                decreases order@.len() - p,
            {
                p = p + 1;
            }
            let ghost before = order@;
            order.insert(p, (i, s));
            proof {
                assert forall|k: int| 0 <= k < order@.len() implies (#[trigger] order@[k]).0 < i + 1 && sizes@[order@[k].0 as int] > 0
                    && order@[k].1 == sizes@[order@[k].0 as int] by {
                    if k < p {
                        assert(order@[k] == before[k]);
                    } else if k > p {
                        assert(order@[k] == before[k - 1]);
                    }
                }
                assert forall|j: int| 0 <= j < i + 1 && sizes@[j] > 0 implies exists|k: int|
                    0 <= k < order@.len() && (#[trigger] order@[k]).0 == j by {
                    if j == i {
                        assert(order@[p as int].0 == j);
                    } else {
                        let k = choose|k: int| 0 <= k < before.len() && (#[trigger] before[k]).0 == j;
                        if k < p {
                            assert(order@[k] == before[k]);
                        } else {
                            assert(order@[k + 1] == before[k]);
                        }
                    }
                }
                assert forall|a: int, b: int| 0 <= a < b < order@.len() implies placed_before(
                    sizes@,
                    (#[trigger] order@[a]).0 as int,
                    (#[trigger] order@[b]).0 as int,
                ) by {
                    if b < p {
                        assert(order@[a] == before[a] && order@[b] == before[b]);
                    } else if b == p {
                        assert(order@[a] == before[a]);
                    } else if a < p {
                        assert(order@[a] == before[a] && order@[b] == before[b - 1]);
                    } else if a == p {
                        assert(order@[b] == before[b - 1]);
                        assert(!(s <= before[p as int].1));
                        if b - 1 > p {
                            assert(placed_before(sizes@, before[p as int].0 as int, before[b - 1].0 as int));
                        }
                    } else {
                        assert(order@[a] == before[a - 1] && order@[b] == before[b - 1]);
                    }
                }
            }
        }
        i = i + 1;
    }
    proof {
        let ids = order@.map_values(|p: (usize, u64)| p.0);
        assert forall|k: int| 0 <= k < ids.len() implies #[trigger] ids[k] < sizes@.len() && sizes@[ids[k] as int] > 0 by {
            assert(ids[k] == order@[k].0);
        }
        assert forall|j: int| 0 <= j < sizes@.len() && sizes@[j] > 0 implies #[trigger] ids.contains(j as usize) by {
            let k = choose|k: int| 0 <= k < order@.len() && (#[trigger] order@[k]).0 == j;
            assert(ids[k] == j);
        }
        assert forall|a: int, b: int| 0 <= a < b < ids.len() implies placed_before(sizes@, #[trigger] ids[a] as int, #[trigger] ids[b] as int) by {
            assert(ids[a] == order@[a].0);
            assert(ids[b] == order@[b].0);
        }
    }
    order
}

/// The canvas `v` with the box of a directory named `name`, of the size
/// written `size_label`, drawn in the block at `(x, y)` of `w` by `h` cells:
/// its outline and, where it is wider than 4 cells, its label on the first
/// line inside.
pub open spec fn dir_frame(
    v: CanvasView,
    x: int,
    y: int,
    w: int,
    h: int,
    depth: usize,
    use_colors: bool,
    name: Seq<char>,
    size_label: Seq<char>,
) -> CanvasView {
    let boxed = box_drawn(v, x, y, w, h, depth, use_colors);
    if w > 4 {
        text_drawn(boxed, x + 2, y + 1, sized_label(name, size_label, w - 4), w - 4, depth, use_colors)
    } else {
        boxed
    }
}

/// `b` shows what `frame` shows in the block at `(x, y)` of `w` by `h`
/// cells, but for the area inside the outline and below the label, where the
/// contents of a directory go.
pub open spec fn framed_as(frame: CanvasView, b: CanvasView, x: int, y: int, w: int, h: int) -> bool {
    forall|r: int, c: int|
        0 <= r < b.height && 0 <= c < b.width && in_block(x, y, w, h, r, c) && !in_block(x + 2, y + 2, w - 4, h - 4, r, c)
            ==> #[trigger] b.rows[r][c] == frame.rows[r][c]
}

/// `b` shows, in the block at `(x, y)` of `w` by `h` cells, the box of the
/// directory `name` drawn on `a` with the size label `lbl`, see [`dir_frame`].
pub open spec fn labelled_as(
    a: CanvasView,
    b: CanvasView,
    x: int,
    y: int,
    w: int,
    h: int,
    depth: usize,
    use_colors: bool,
    name: Seq<char>,
    lbl: Seq<char>,
) -> bool {
    framed_as(dir_frame(a, x, y, w, h, depth, use_colors, name, lbl), b, x, y, w, h)
}

/// `lbl` is what `scale` writes for `bytes`.
pub open spec fn gives_label<S: Proportions>(scale: &S, bytes: u64, lbl: Seq<char>) -> bool {
    exists|s: String| #[trigger] call_ensures(S::size_label, (scale, bytes), s) && s@ == lbl
}

/// `b` is `a` with the directory `name` of `bytes` bytes drawn in the block
/// at `(x, y)` of `w` by `h` cells: nothing changes outside the block,
/// nothing at all where it is narrower or lower than 3 cells, and otherwise
/// the block shows the directory's box, labelled where it is wider than 4
/// cells with what `scale` writes for `bytes`, its contents inside.
pub open spec fn node_drawn<S: Proportions>(
    a: CanvasView,
    b: CanvasView,
    x: int,
    y: int,
    w: int,
    h: int,
    depth: usize,
    use_colors: bool,
    name: Seq<char>,
    scale: &S,
    bytes: u64,
) -> bool {
    &&& same_outside(a, b, x, y, w, h)
    &&& (w < 3 || h < 3 ==> b == a)
    &&& (w >= 3 && h >= 3 ==> exists|lbl: Seq<char>|
        #[trigger] labelled_as(a, b, x, y, w, h, depth, use_colors, name, lbl) && (w > 4 ==> gives_label(scale, bytes, lbl)))
}

/// `skipped` lists the items at the positions `order` holds from its `k`-th on.
pub open spec fn listed_from(items: Seq<LayoutItem>, skipped: Seq<LayoutItem>, order: Seq<usize>, k: int) -> bool {
    &&& 0 <= k <= order.len()
    &&& skipped.len() == order.len() - k
    &&& forall|m: int| 0 <= m < skipped.len() ==> (#[trigger] skipped[m])@ == items[order[k + m] as int]@
}

/// A block of cells: its left column, top row, width and height.
pub type Block = (int, int, int, int);

/// What is left of `area` once the first `k` of `blocks` were taken from its
/// front, each beside the rest where `beside` says so and above it otherwise.
pub open spec fn rest_after(area: Block, blocks: Seq<Block>, beside: Seq<bool>, k: int) -> Block
    decreases k,
{
    if k <= 0 {
        area
    } else {
        let r = rest_after(area, blocks, beside, k - 1);
        let b = blocks[k - 1];
        if beside[k - 1] {
            (r.0 + b.2, r.1, r.2 - b.2, r.3)
        } else {
            (r.0, r.1 + b.3, r.2, r.3 - b.3)
        }
    }
}

/// Items go side by side in `r`, rather than one above the other, where it is
/// more than one and a half times wider than high.
pub open spec fn wide(r: Block) -> bool {
    2 * r.2 > 3 * r.3
}

/// `b` is taken from the front of what is left, `r`: all of its height and
/// at least one of its columns where `beside`, else all of its width and at
/// least one of its rows.
pub open spec fn taken_from(r: Block, b: Block, beside: bool) -> bool {
    &&& b.0 == r.0
    &&& b.1 == r.1
    &&& if beside {
        b.3 == r.3 && 1 <= b.2 <= r.2
    } else {
        b.2 == r.2 && 1 <= b.3 <= r.3
    }
}

/// `b` is `a` with the file `name` drawn in `blk` with the size label `lbl`.
pub open spec fn file_shown(
    a: CanvasView,
    b: CanvasView,
    blk: Block,
    depth: usize,
    use_colors: bool,
    name: Seq<char>,
    lbl: Seq<char>,
) -> bool {
    b == file_drawn(a, blk.0, blk.1, blk.2, blk.3, depth, use_colors, name, lbl)
}

/// `b` is `a` with the item `it` drawn in `blk`: a directory as
/// [`node_drawn`] says, a file labelled with what `scale` writes for its size.
pub open spec fn item_drawn<S: Proportions>(
    a: CanvasView,
    b: CanvasView,
    nodes: Seq<Node>,
    it: LayoutItemView,
    blk: Block,
    depth: usize,
    use_colors: bool,
    scale: &S,
) -> bool {
    match it {
        LayoutItemView::Folder(c) => node_drawn(
            a,
            b,
            blk.0,
            blk.1,
            blk.2,
            blk.3,
            depth,
            use_colors,
            nodes[c as int]@.name,
            scale,
            total_of(nodes, c as int) as u64,
        ),
        LayoutItemView::File(size, name) => exists|lbl: Seq<char>|
            #[trigger] file_shown(a, b, blk, depth, use_colors, name, lbl) && gives_label(scale, size, lbl),
    }
}

/// `x` kept between `1` and `hi`.
pub open spec fn clamp_to(x: int, hi: int) -> int {
    if x < 1 {
        1
    } else if x > hi {
        hi
    } else {
        x
    }
}

/// The `k`-th block takes, along its direction, the share of what is left
/// that `scale` gave for the item's size of the bytes left, kept between one
/// cell and all of them.
pub open spec fn share_taken<S: Proportions>(
    scale: &S,
    sizes: Seq<u64>,
    order: Seq<usize>,
    area: Block,
    blocks: Seq<Block>,
    beside: Seq<bool>,
    raws: Seq<usize>,
    k: int,
) -> bool {
    let r = rest_after(area, blocks, beside, k);
    let extent = if beside[k] { r.2 } else { r.3 };
    let taken = if beside[k] { blocks[k].2 } else { blocks[k].3 };
    let left = left_total(sum_sizes(sizes), sizes, order, k);
    &&& call_ensures(S::share, (scale, extent as usize, sizes[order[k] as int], left as u64), raws[k])
    &&& taken == clamp_to(raws[k] as int, extent)
}

/// `cs` are the canvases while the first `m` items in `order` are drawn one
/// after the other, each in the next of `blocks`, taken in turn from `area`.
pub open spec fn layout_steps<S: Proportions>(
    nodes: Seq<Node>,
    items: Seq<LayoutItem>,
    order: Seq<usize>,
    area: Block,
    depth: usize,
    use_colors: bool,
    scale: &S,
    m: int,
    cs: Seq<CanvasView>,
    blocks: Seq<Block>,
    beside: Seq<bool>,
    raws: Seq<usize>,
) -> bool {
    &&& 0 <= m <= order.len()
    &&& cs.len() == m + 1
    &&& blocks.len() == m
    &&& beside.len() == m
    &&& raws.len() == m
    &&& forall|k: int| #![trigger raws[k]] 0 <= k < m ==> share_taken(scale, item_sizes(nodes, items), order, area, blocks, beside, raws, k)
    &&& forall|k: int| 0 <= k < m ==> #[trigger] taken_from(rest_after(area, blocks, beside, k), blocks[k], beside[k])
    &&& forall|k: int| #![trigger beside[k]] 0 <= k < m ==> beside[k] == wide(rest_after(area, blocks, beside, k))
    &&& forall|k: int|
        0 <= k < m ==> #[trigger] item_drawn(cs[k], cs[k + 1], nodes, items[order[k] as int]@, blocks[k], depth, use_colors, scale)
}

/// The bytes left to place of `total` once the first `k` items in `order`
/// are placed, never below zero.
pub open spec fn left_total(total: int, sizes: Seq<u64>, order: Seq<usize>, k: int) -> int
    decreases k,
{
    if k <= 0 {
        total
    } else {
        sat_sub(left_total(total, sizes, order, k - 1), sizes[order[k - 1] as int] as int)
    }
}

/// One way `items` come to be laid out in `area` on `a`, giving `b`: see
/// [`laid_out`].
pub open spec fn layout_run<S: Proportions>(
    a: CanvasView,
    b: CanvasView,
    nodes: Seq<Node>,
    items: Seq<LayoutItem>,
    area: Block,
    depth: usize,
    use_colors: bool,
    scale: &S,
    skipped: Seq<LayoutItem>,
    order: Seq<usize>,
    m: int,
    cs: Seq<CanvasView>,
    blocks: Seq<Block>,
    beside: Seq<bool>,
    raws: Seq<usize>,
) -> bool {
    let sizes = item_sizes(nodes, items);
    let r = rest_after(area, blocks, beside, m);
    &&& is_display_order(sizes, order)
    &&& layout_steps(nodes, items, order, area, depth, use_colors, scale, m, cs, blocks, beside, raws)
    &&& cs[0] == a
    &&& cs[m] == b
    &&& listed_from(items, skipped, order, m)
    &&& (m < order.len() ==> r.2 == 0 || r.3 == 0 || left_total(sum_sizes(sizes), sizes, order, m) == 0)
}

/// `b` is `a` with `items` laid out in `area`: those of nonzero size, the
/// largest first, each drawn in a block taken in turn from the front of what
/// is left (beside the rest where that is more than one and a half times
/// wider than high, else above it) as large as the share `scale` gives for
/// the item's size of the bytes left, until all are drawn or no room or bytes
/// are left; `skipped` are those not drawn, in the same order.
pub open spec fn laid_out<S: Proportions>(
    a: CanvasView,
    b: CanvasView,
    nodes: Seq<Node>,
    items: Seq<LayoutItem>,
    area: Block,
    depth: usize,
    use_colors: bool,
    scale: &S,
    skipped: Seq<LayoutItem>,
) -> bool {
    exists|order: Seq<usize>, m: int, cs: Seq<CanvasView>, blocks: Seq<Block>, beside: Seq<bool>, raws: Seq<usize>|
        #[trigger] layout_run(a, b, nodes, items, area, depth, use_colors, scale, skipped, order, m, cs, blocks, beside, raws)
}

/// The file an item stands for, as a mathematical value.
pub open spec fn file_entry(it: LayoutItemView) -> FileEntry {
    match it {
        LayoutItemView::File(size, name) => (size, name),
        LayoutItemView::Folder(_) => (0, Seq::empty()),
    }
}

/// `items` are the children of node `id`, as directories in their order,
/// then its largest files, the larger first.
pub open spec fn dir_items(nodes: Seq<Node>, id: int, items: Seq<LayoutItem>) -> bool {
    let ch = nodes[id]@.children;
    let files = items.subrange(ch.len() as int, items.len() as int);
    &&& ch.len() <= items.len()
    &&& forall|k: int| 0 <= k < ch.len() ==> (#[trigger] items[k])@ == LayoutItemView::Folder(ch[k])
    &&& forall|k: int| 0 <= k < files.len() ==> (#[trigger] files[k])@ is File
    &&& files.map_values(|it: LayoutItem| file_entry(it@)).to_multiset() == nodes[id]@.top_files.files
    &&& forall|a: int, b: int|
        0 <= a < b < files.len() ==> item_size(nodes, (#[trigger] files[b])@) <= item_size(nodes, (#[trigger] files[a])@)
}

/// `b` is `a` with the box of directory `id` drawn, with the size label
/// `lbl`, in the block at `(x, y)` of `w` by `h` cells, and its children and
/// largest files `items` laid out inside it, `skipped` left without room.
pub open spec fn contents_drawn<S: Proportions>(
    a: CanvasView,
    b: CanvasView,
    nodes: Seq<Node>,
    id: int,
    x: int,
    y: int,
    w: int,
    h: int,
    depth: usize,
    use_colors: bool,
    scale: &S,
    lbl: Seq<char>,
    items: Seq<LayoutItem>,
    skipped: Seq<LayoutItem>,
) -> bool {
    let frame = dir_frame(a, x, y, w, h, depth, use_colors, nodes[id]@.name, lbl);
    &&& gives_label(scale, total_of(nodes, id) as u64, lbl)
    &&& dir_items(nodes, id, items)
    &&& if items.len() == 0 {
        b == frame && skipped.len() == 0
    } else {
        laid_out(frame, b, nodes, items, (x + 2, y + 2, w - 4, h - 4), (depth + 1) as usize, use_colors, scale, skipped)
    }
}

/// `b` is `a` with directory `id` drawn in the block at `(x, y)` of `w` by
/// `h` cells, see [`node_drawn`], and, where the block is wider and higher
/// than 4 cells, its children and largest files laid out inside its box.
pub open spec fn dir_drawn<S: Proportions>(
    a: CanvasView,
    b: CanvasView,
    nodes: Seq<Node>,
    id: int,
    x: int,
    y: int,
    w: int,
    h: int,
    depth: usize,
    use_colors: bool,
    scale: &S,
) -> bool {
    &&& node_drawn(a, b, x, y, w, h, depth, use_colors, nodes[id]@.name, scale, total_of(nodes, id) as u64)
    &&& (w > 4 && h > 4 ==> exists|lbl: Seq<char>, items: Seq<LayoutItem>, skipped: Seq<LayoutItem>|
        #[trigger] contents_drawn(a, b, nodes, id, x, y, w, h, depth, use_colors, scale, lbl, items, skipped))
}

proof fn lemma_rest_after_push(area: Block, blocks: Seq<Block>, beside: Seq<bool>, b: Block, hz: bool, k: int)
    requires
        0 <= k <= blocks.len(),
        blocks.len() == beside.len(),
    ensures
        rest_after(area, blocks.push(b), beside.push(hz), k) == rest_after(area, blocks, beside, k),
    decreases k,
{
    if k > 0 {
        lemma_rest_after_push(area, blocks, beside, b, hz, k - 1);
        assert(blocks.push(b)[k - 1] == blocks[k - 1]);
        assert(beside.push(hz)[k - 1] == beside[k - 1]);
    }
}

/// Each size is at most the sum of all.
proof fn lemma_size_le_sum(s: Seq<u64>, i: int)
    requires
        0 <= i < s.len(),
    ensures
        s[i] <= sum_sizes(s),
    decreases s.len(),
{
    lemma_sum_nonneg(s.drop_last());
    if i < s.len() - 1 {
        lemma_size_le_sum(s.drop_last(), i);
    }
}

impl TreeMapView {
    /// Draws directory `node_id` in the block at `(x, y)` of `width` by
    /// `height` cells: its outline, its label, and inside them its children
    /// and largest files, each in a share of the space that `scale` gives
    /// for its size. Nothing is drawn in a block narrower or lower than 3
    /// cells, and nothing outside the block.
    fn render_node<S: Proportions>(
        &self,
        tree: &Tree,
        node_id: NodeId,
        canvas: &mut Canvas,
        x: usize,
        y: usize,
        width: usize,
        height: usize,
        depth: usize,
        scale: &S,
    )
        requires
            tree.wf(),
            node_id < tree@.nodes.len(),
            totals_fit(tree@.nodes),
            layout_fits(tree@.nodes),
            width > 4 && height > 4 ==> depth + width / 4 < usize::MAX,
            old(canvas).wf(),
            x + width <= old(canvas)@.width,
            y + height <= old(canvas)@.height,
        ensures
            final(canvas).wf(),
            dir_drawn(
                old(canvas)@,
                final(canvas)@,
                tree@.nodes,
                node_id as int,
                x as int,
                y as int,
                width as int,
                height as int,
                depth,
                self@.use_colors,
                scale,
            ),
        decreases width + height, 1int,
    {
        let ghost nodes = tree@.nodes;
        let ghost orig = canvas@;
        if width < 3 || height < 3 {
            return;
        }
        let node = tree.node(node_id);
        self.draw_box(canvas, x, y, width, height, depth);
        proof {
            lemma_box_in_block(orig, x as int, y as int, width as int, height as int, depth, self@.use_colors);
        }
        let ghost boxed = canvas@;
        let ghost mut lbl: Seq<char> = Seq::empty();
        let mut next_content_y = y + 1;
        if width > 4 && height > 2 {
            let label_width = width - 4;
            let size_label = scale.size_label(node.total_bytes());
            let label = make_sized_label(node.name(), size_label.as_str(), label_width);
            self.draw_text(canvas, x + 2, next_content_y, label.as_str(), label_width, depth);
            proof {
                lbl = size_label@;
                assert(gives_label(scale, total_of(nodes, node_id as int) as u64, lbl));
                lemma_text_in_block(boxed, x + 2, y + 1, label@, label_width as int, depth, self@.use_colors);
                lemma_same_outside_grow(boxed, canvas@, x + 2, y + 1, label_width as int, 1, x as int, y as int, width as int, height as int);
                lemma_same_outside_trans(orig, boxed, canvas@, x as int, y as int, width as int, height as int);
            }
            next_content_y = next_content_y + 1;
        }
        let ghost frame = canvas@;
        assert(frame == dir_frame(orig, x as int, y as int, width as int, height as int, depth, self@.use_colors, nodes[node_id as int]@.name, lbl));
        let mut items: Vec<LayoutItem> = Vec::new();
        let children = node.children();
        let ghost ch = nodes[node_id as int]@.children;
        let mut i: usize = 0;
        while i < children.len()
            invariant
                tree.wf(),
                nodes == tree@.nodes,
                node_id < nodes.len(),
                totals_fit(nodes),
                children@ == ch,
                ch == nodes[node_id as int]@.children,
                i <= ch.len(),
                items@.len() == i,
                forall|k: int| 0 <= k < i ==> (#[trigger] items@[k])@ == LayoutItemView::Folder(ch[k]),
            decreases ch.len() - i,
        {
            items.push(LayoutItem::Folder(children[i]));
            i = i + 1;
        }
        let files = node.top_files().to_sorted_vec_desc();
        let ghost nf = items@.len();
        let mut j: usize = 0;
        while j < files.len()
            invariant
                items@.len() == nf + j,
                nf == ch.len(),
                j <= files@.len(),
                forall|k: int| 0 <= k < nf ==> (#[trigger] items@[k])@ == LayoutItemView::Folder(ch[k]),
                forall|k: int| 0 <= k < j ==> (#[trigger] items@[nf + k])@ == LayoutItemView::File(files@[k].size, files@[k].name@),
            decreases files@.len() - j,
        {
            let f = &files[j];
            items.push(LayoutItem::File(FileMetaData { name: f.name.clone(), size: f.size, mtime: f.mtime }));
            j = j + 1;
        }
        proof {
            let fs = items@.subrange(nf as int, items@.len() as int);
            assert forall|k: int| 0 <= k < fs.len() implies (#[trigger] fs[k])@ == LayoutItemView::File(
                files@[k].size,
                files@[k].name@,
            ) by {
                assert(fs[k] == items@[nf + k]);
            }
            assert(fs.map_values(|it: LayoutItem| file_entry(it@)) =~= files@.map_values(|f: FileMetaData| meta_entry(f)));
            assert(dir_items(nodes, node_id as int, items@));
        }
        let ghost skipped: Seq<LayoutItem> = Seq::empty();
        if items.len() > 0 && height > (next_content_y - y + 2) && width > 4 {
            let inner_x = x.saturating_add(2);
            let inner_y = next_content_y;
            let inner_width = width.saturating_sub(4);
            let inner_height = height.saturating_sub(next_content_y - y + 2);
            if inner_width > 0 && inner_height > 0 {
                proof {
                    let fsz = files@.map_values(|f: FileMetaData| f.size);
                    let q = files@.map_values(|f: FileMetaData| meta_entry(f));
                    assert(item_sizes(nodes, items@) =~= child_totals(nodes, node_id as int) + fsz) by {
                        assert forall|k: int| 0 <= k < items@.len() implies #[trigger] item_sizes(nodes, items@)[k] == (
                        child_totals(nodes, node_id as int) + fsz)[k] by {
                            if k >= nf {
                                assert(items@[nf + (k - nf)]@ == LayoutItemView::File(files@[k - nf].size, files@[k - nf].name@));
                            }
                        }
                    }
                    lemma_sum_concat(child_totals(nodes, node_id as int), fsz);
                    lemma_file_sizes(files@);
                    assert(q.to_multiset() == nodes[node_id as int]@.top_files.files);
                    assert(nodes[node_id as int] == nodes[node_id as int]);
                    assert forall|k: int| 0 <= k < items@.len() implies folder_valid((#[trigger] items@[k])@, nodes.len() as int) by {
                        if k < nf {
                            assert(nodes[node_id as int]@.children[k] == ch[k]);
                        } else {
                            assert(items@[nf + (k - nf)]@ == LayoutItemView::File(files@[k - nf].size, files@[k - nf].name@));
                        }
                    }
                }
                let _skipped = self.layout_children(
                    tree,
                    &items,
                    canvas,
                    inner_x,
                    inner_y,
                    inner_width,
                    inner_height,
                    depth + 1,
                    scale,
                );
                proof {
                    lemma_same_outside_grow(frame, canvas@, inner_x as int, inner_y as int, inner_width as int, inner_height as int, x as int, y as int, width as int, height as int);
                    lemma_same_outside_trans(orig, frame, canvas@, x as int, y as int, width as int, height as int);
                    skipped = _skipped@;
                    assert(contents_drawn(orig, canvas@, nodes, node_id as int, x as int, y as int, width as int, height as int, depth, self@.use_colors, scale, lbl, items@, skipped));
                }
            }
        }
        proof {
            assert(framed_as(frame, canvas@, x as int, y as int, width as int, height as int));
            assert(labelled_as(orig, canvas@, x as int, y as int, width as int, height as int, depth, self@.use_colors, nodes[node_id as int]@.name, lbl));
            if width > 4 && height > 4 && items@.len() == 0 {
                assert(contents_drawn(orig, canvas@, nodes, node_id as int, x as int, y as int, width as int, height as int, depth, self@.use_colors, scale, lbl, items@, skipped));
            }
        }
    }

    /// Lays `items` out in the block at `(x, y)` of `width` by `height`
    /// cells, the largest first: each takes the share of what is left that
    /// `scale` gives for its size, beside or above the rest, and is drawn
    /// there, see [`laid_out`]. Returns the items left without room, in the
    /// order they would have been placed.
    fn layout_children<S: Proportions>(
        &self,
        tree: &Tree,
        items: &Vec<LayoutItem>,
        canvas: &mut Canvas,
        x: usize,
        y: usize,
        width: usize,
        height: usize,
        depth: usize,
        scale: &S,
    ) -> (skipped: Vec<LayoutItem>)
        requires
            tree.wf(),
            totals_fit(tree@.nodes),
            layout_fits(tree@.nodes),
            width > 4 && height > 4 ==> depth + width / 4 < usize::MAX,
            forall|k: int| 0 <= k < items@.len() ==> folder_valid((#[trigger] items@[k])@, tree@.nodes.len() as int),
            sum_sizes(item_sizes(tree@.nodes, items@)) <= u64::MAX,
            old(canvas).wf(),
            x + width <= old(canvas)@.width,
            y + height <= old(canvas)@.height,
        ensures
            final(canvas).wf(),
            same_outside(old(canvas)@, final(canvas)@, x as int, y as int, width as int, height as int),
            width == 0 || height == 0 ==> final(canvas)@ == old(canvas)@ && skipped@.len() == 0,
            width > 0 && height > 0 ==> laid_out(
                old(canvas)@,
                final(canvas)@,
                tree@.nodes,
                items@,
                (x as int, y as int, width as int, height as int),
                depth,
                self@.use_colors,
                scale,
                skipped@,
            ),
        decreases width + height, 2int,
    {
        let ghost nodes = tree@.nodes;
        let ghost orig = canvas@;
        let ghost area: Block = (x as int, y as int, width as int, height as int);
        let ghost uc = self@.use_colors;
        if width == 0 || height == 0 {
            return Vec::new();
        }
        if items.len() == 0 {
            proof {
                let e: Seq<usize> = Seq::empty();
                assert(layout_run(orig, canvas@, nodes, items@, area, depth, uc, scale, Seq::empty(), e, 0, seq![orig], Seq::empty(), Seq::empty(), Seq::empty()));
            }
            return Vec::new();
        }
        let ghost all = item_sizes(nodes, items@);
        let mut sizes: Vec<u64> = Vec::new();
        let mut total: u64 = 0;
        let mut i: usize = 0;
        while i < items.len()
            invariant
                tree.wf(),
                nodes == tree@.nodes,
                totals_fit(nodes),
                forall|k: int| 0 <= k < items@.len() ==> folder_valid((#[trigger] items@[k])@, nodes.len() as int),
                all == item_sizes(nodes, items@),
                sum_sizes(all) <= u64::MAX,
                i <= items@.len(),
                sizes@ == all.take(i as int),
                total == sum_sizes(all.take(i as int)),
            decreases items@.len() - i,
        {
            let sz = items[i].size(tree);
            proof {
                assert(all.take(i + 1) =~= all.take(i as int).push(sz));
                lemma_sum_push(all.take(i as int), sz);
                lemma_sum_prefix(all, i + 1);
            }
            sizes.push(sz);
            total = total + sz;
            i = i + 1;
        }
        proof {
            assert(all.take(items@.len() as int) =~= all);
        }
        let order = display_order(&sizes);
        let ghost ids = order@.map_values(|p: (usize, u64)| p.0);
        if total == 0 {
            proof {
                if ids.len() > 0 {
                    lemma_size_le_sum(all, ids[0] as int);
                }
                assert(layout_run(orig, canvas@, nodes, items@, area, depth, uc, scale, Seq::empty(), ids, 0, seq![orig], Seq::empty(), Seq::empty(), Seq::empty()));
            }
            return Vec::new();
        }
        let mut current_x = x;
        let mut current_y = y;
        let mut remaining_width = width;
        let mut remaining_height = height;
        let mut remaining_total = total;
        let mut skipped: Vec<LayoutItem> = Vec::new();
        let ghost mut cs: Seq<CanvasView> = seq![orig];
        let ghost mut blocks: Seq<Block> = Seq::empty();
        let ghost mut beside: Seq<bool> = Seq::empty();
        let ghost mut raws: Seq<usize> = Seq::empty();
        let mut idx: usize = 0;
        while idx < order.len()
            invariant_except_break
                skipped@.len() == 0,
            invariant
                tree.wf(),
                nodes == tree@.nodes,
                totals_fit(nodes),
                layout_fits(nodes),
                width > 4 && height > 4 ==> depth + width / 4 < usize::MAX,
                forall|k: int| 0 <= k < items@.len() ==> folder_valid((#[trigger] items@[k])@, nodes.len() as int),
                sizes@ == all,
                all == item_sizes(nodes, items@),
                total == sum_sizes(all),
                is_display_order(all, ids),
                ids == order@.map_values(|p: (usize, u64)| p.0),
                forall|k: int| 0 <= k < order@.len() ==> (#[trigger] order@[k]).1 == all[order@[k].0 as int],
                canvas.wf(),
                orig.width == canvas@.width,
                x + width <= orig.width,
                y + height <= orig.height,
                same_outside(orig, canvas@, x as int, y as int, width as int, height as int),
                area == (x as int, y as int, width as int, height as int),
                uc == self@.use_colors,
                x <= current_x,
                y <= current_y,
                current_x + remaining_width == x + width,
                current_y + remaining_height == y + height,
                idx <= order@.len(),
                layout_steps(nodes, items@, ids, area, depth, uc, scale, idx as int, cs, blocks, beside, raws),
                cs[0] == orig,
                cs[idx as int] == canvas@,
                rest_after(area, blocks, beside, idx as int) == (
                    current_x as int,
                    current_y as int,
                    remaining_width as int,
                    remaining_height as int,
                ),
                remaining_total == left_total(total as int, all, ids, idx as int),
            ensures
                canvas.wf(),
                same_outside(orig, canvas@, x as int, y as int, width as int, height as int),
                skipped@.len() > 0 ==> laid_out(orig, canvas@, nodes, items@, area, depth, uc, scale, skipped@),
                skipped@.len() == 0 ==> idx == order@.len(),
            decreases order@.len() - idx,
        {
            let pos = order[idx].0;
            let size = order[idx].1;
            proof {
                assert(ids[idx as int] == pos);
            }
            if remaining_width == 0 || remaining_height == 0 || remaining_total == 0 {
                let mut m = idx;
                while m < order.len()
                    invariant
                        idx <= m <= order@.len(),
                        ids == order@.map_values(|p: (usize, u64)| p.0),
                        is_display_order(all, ids),
                        all.len() == items@.len(),
                        skipped@.len() == m - idx,
                        forall|t: int| 0 <= t < skipped@.len() ==> (#[trigger] skipped@[t])@ == items@[ids[idx + t] as int]@,
                    decreases order@.len() - m,
                {
                    let p = order[m].0;
                    proof {
                        assert(ids[m as int] == p);
                    }
                    skipped.push(items[p].clone_item());
                    m = m + 1;
                }
                proof {
                    assert(listed_from(items@, skipped@, ids, idx as int));
                    assert(layout_run(orig, canvas@, nodes, items@, area, depth, uc, scale, skipped@, ids, idx as int, cs, blocks, beside, raws));
                }
                break;
            }
            // A cell is about twice as high as it is wide: items go side by side
            // where what is left is more than one and a half times wider than high.
            let horizontal = (remaining_width as u128) * 2 > (remaining_height as u128) * 3;
            let raw = if horizontal {
                scale.share(remaining_width, size, remaining_total)
            } else {
                scale.share(remaining_height, size, remaining_total)
            };
            let (item_width, item_height) = if horizontal {
                let w = if raw < 1 {
                    1
                } else if raw > remaining_width {
                    remaining_width
                } else {
                    raw
                };
                (w, remaining_height)
            } else {
                let h = if raw < 1 {
                    1
                } else if raw > remaining_height {
                    remaining_height
                } else {
                    raw
                };
                (remaining_width, h)
            };
            let ghost before = canvas@;
            let ghost blk: Block = (current_x as int, current_y as int, item_width as int, item_height as int);
            if item_width < 1 || item_height < 1 {
                skipped.push(items[pos].clone_item());
            } else {
                match &items[pos] {
                    LayoutItem::Folder(child_id) => {
                        self.render_node(tree, *child_id, canvas, current_x, current_y, item_width, item_height, depth, scale);
                        proof {
                            assert(items@[pos as int]@ == LayoutItemView::Folder(*child_id));
                            assert(item_drawn(before, canvas@, nodes, items@[pos as int]@, blk, depth, uc, scale));
                        }
                    },
                    LayoutItem::File(file) => {
                        let label = scale.size_label(file.size);
                        self.render_file(
                            canvas,
                            current_x,
                            current_y,
                            item_width,
                            item_height,
                            depth,
                            file.name.as_str(),
                            label.as_str(),
                        );
                        proof {
                            lemma_file_in_block(
                                before,
                                current_x as int,
                                current_y as int,
                                item_width as int,
                                item_height as int,
                                depth,
                                self@.use_colors,
                                file.name@,
                                label@,
                            );
                            assert(file_shown(before, canvas@, blk, depth, uc, file.name@, label@));
                            assert(items@[pos as int]@ == LayoutItemView::File(file.size, file.name@));
                            let ghost it = items@[pos as int]@;
                            assert(it->File_1 == file.name@);
                            assert(file_shown(before, canvas@, blk, depth, uc, it->File_1, label@));
                            assert(it->File_0 == file.size);
                            assert(gives_label(scale, it->File_0, label@));
                            assert(item_drawn(before, canvas@, nodes, it, blk, depth, uc, scale));
                        }
                    },
                }
                proof {
                    lemma_same_outside_grow(
                        before,
                        canvas@,
                        current_x as int,
                        current_y as int,
                        item_width as int,
                        item_height as int,
                        x as int,
                        y as int,
                        width as int,
                        height as int,
                    );
                    lemma_same_outside_trans(orig, before, canvas@, x as int, y as int, width as int, height as int);
                    assert(item_drawn(before, canvas@, nodes, items@[ids[idx as int] as int]@, blk, depth, uc, scale));
                    let ghost cs2 = cs.push(canvas@);
                    let ghost blocks2 = blocks.push(blk);
                    let ghost beside2 = beside.push(horizontal);
                    let ghost raws2 = raws.push(raw);
                    assert(all[ids[idx as int] as int] == size);
                    assert(call_ensures(
                        S::share,
                        (scale, (if horizontal { remaining_width } else { remaining_height }), size, remaining_total),
                        raw,
                    ));
                    assert forall|k: int| #![trigger raws2[k]] 0 <= k < idx + 1 implies share_taken(
                        scale,
                        all,
                        ids,
                        area,
                        blocks2,
                        beside2,
                        raws2,
                        k,
                    ) by {
                        lemma_rest_after_push(area, blocks, beside, blk, horizontal, k);
                        if k < idx {
                            assert(share_taken(scale, all, ids, area, blocks, beside, raws, k));
                            assert(raws2[k] == raws[k] && blocks2[k] == blocks[k] && beside2[k] == beside[k]);
                        } else {
                            assert(raws2[k] == raw && blocks2[k] == blk && beside2[k] == horizontal);
                        }
                    }
                    assert forall|k: int| 0 <= k < idx + 1 implies #[trigger] taken_from(
                        rest_after(area, blocks2, beside2, k),
                        blocks2[k],
                        beside2[k],
                    ) by {
                        lemma_rest_after_push(area, blocks, beside, blk, horizontal, k);
                        if k < idx {
                            assert(taken_from(rest_after(area, blocks, beside, k), blocks[k], beside[k]));
                        }
                    }
                    assert forall|k: int| #![trigger beside2[k]] 0 <= k < idx + 1 implies beside2[k] == wide(
                        rest_after(area, blocks2, beside2, k),
                    ) by {
                        lemma_rest_after_push(area, blocks, beside, blk, horizontal, k);
                        if k < idx {
                            assert(beside[k] == wide(rest_after(area, blocks, beside, k)));
                        }
                    }
                    assert forall|k: int| 0 <= k < idx + 1 implies #[trigger] item_drawn(
                        cs2[k],
                        cs2[k + 1],
                        nodes,
                        items@[ids[k] as int]@,
                        blocks2[k],
                        depth,
                        uc,
                        scale,
                    ) by {
                        if k < idx {
                            assert(item_drawn(cs[k], cs[k + 1], nodes, items@[ids[k] as int]@, blocks[k], depth, uc, scale));
                            assert(cs2[k] == cs[k] && cs2[k + 1] == cs[k + 1] && blocks2[k] == blocks[k]);
                        }
                    }
                    lemma_rest_after_push(area, blocks, beside, blk, horizontal, idx as int);
                    assert(blocks2[idx as int] == blk && beside2[idx as int] == horizontal);
                    assert(rest_after(area, blocks2, beside2, idx + 1) == (if horizontal {
                        (current_x + item_width, current_y as int, remaining_width - item_width, remaining_height as int)
                    } else {
                        (current_x as int, current_y + item_height, remaining_width as int, remaining_height - item_height)
                    }));
                    cs = cs2;
                    blocks = blocks2;
                    beside = beside2;
                    raws = raws2;
                }
            }
            if horizontal {
                current_x = current_x + item_width;
                remaining_width = remaining_width - item_width;
            } else {
                current_y = current_y + item_height;
                remaining_height = remaining_height - item_height;
            }
            remaining_total = remaining_total.saturating_sub(size);
            idx = idx + 1;
        }
        proof {
            if skipped@.len() == 0 && idx == order@.len() {
                assert(listed_from(items@, skipped@, ids, idx as int));
                assert(layout_run(orig, canvas@, nodes, items@, area, depth, uc, scale, skipped@, ids, idx as int, cs, blocks, beside, raws));
            }
        }
        skipped
    }

    /// Draws the tree used space beside a box for `available_bytes` of free
    /// space, across the width of the view: in proportion to the sizes where
    /// `proportional`, each then widened to 15 cells where it has bytes, and
    /// otherwise in two halves.
    fn render_with_free_space<S: Proportions>(
        &self,
        tree: &Tree,
        root_id: NodeId,
        canvas: &mut Canvas,
        used_bytes: u64,
        available_bytes: u64,
        total_bytes: u64,
        proportional: bool,
        scale: &S,
    ) -> (raw_used: Ghost<int>)
        requires
            tree.wf(),
            root_id < tree@.nodes.len(),
            totals_fit(tree@.nodes),
            layout_fits(tree@.nodes),
            old(canvas).wf(),
            old(canvas)@.width == self@.width,
            old(canvas)@.height == self@.height,
            proportional ==> used_bytes + available_bytes <= u64::MAX,
            proportional && self@.width < MIN_WIDTH ==> used_bytes == 0 && available_bytes == 0,
        ensures
            final(canvas).wf(),
            (proportional ==> 0 <= raw_used@ <= self@.width),
            used_share_of(scale, self@.width, used_bytes, available_bytes, proportional, raw_used@),
            beside_free_space(
                old(canvas)@,
                final(canvas)@,
                shares(self@.width as int, used_bytes, available_bytes, proportional, raw_used@),
                self@.use_colors,
                tree@.nodes,
                root_id as int,
                scale,
                available_bytes,
            ),
    {
        let ghost orig = canvas@;
        let ghost mut given: usize = 0;
        let raw = if proportional {
            let comparison_total = used_bytes + available_bytes;
            let share = scale.used_share(self.width(), used_bytes, comparison_total);
            proof {
                given = share;
            }
            // a share of the width is never wider than the whole
            if share > self.width() {
                self.width()
            } else {
                share
            }
        } else {
            0
        };
        let (used_width, free_width) = free_space_widths(self.width(), used_bytes, available_bytes, proportional, raw);
        let ghost w = shares(self@.width as int, used_bytes, available_bytes, proportional, raw as int);
        proof {
            if proportional {
                assert(call_ensures(S::used_share, (scale, self@.width, used_bytes, (used_bytes + available_bytes) as u64), given));
                assert(raw == min_of(given as int, self@.width as int));
            }
            assert(used_share_of(scale, self@.width, used_bytes, available_bytes, proportional, raw as int));
        }
        if used_width >= 3 {
            self.render_node(tree, root_id, canvas, 0, 0, used_width, self.height(), 0, scale);
        }
        let ghost mid = canvas@;
        if free_width >= 3 {
            let free_x = used_width;
            let label = scale.size_label(available_bytes);
            self.draw_free_space_box(canvas, free_x, 0, free_width, self.height(), label.as_str());
            proof {
                assert(gives_label(scale, available_bytes, label@));
                assert(free_space_as(orig, mid, canvas@, w, self@.use_colors, tree@.nodes, root_id as int, scale, available_bytes, label@));
            }
        } else {
            proof {
                assert(free_space_as(orig, mid, canvas@, w, self@.use_colors, tree@.nodes, root_id as int, scale, available_bytes, Seq::empty()));
            }
        }
        Ghost(raw as int)
    }

    /// Draws `tree` as nested boxes on a canvas of the view's size, and
    /// returns its text, see [`tree_drawing`]: with `fs_stats` (total and
    /// available bytes of the file system), beside a box for the free space.
    pub fn render_tree<S: Proportions>(
        &self,
        tree: &Tree,
        fs_stats: Option<(u64, u64)>,
        proportional: bool,
        scale: &S,
    ) -> (s: String)
        requires
            tree.wf(),
            totals_fit(tree@.nodes),
            layout_fits(tree@.nodes),
            free_space_fits(tree@.nodes, fs_stats, proportional, self@.width),
        ensures
            exists|c: CanvasView|
                #[trigger] tree_drawing(c, tree@.nodes, fs_stats, proportional, self@, scale) && s@ == lines_text(
                    c.rows,
                    self@.use_colors,
                    self@.height as int,
                ),
    {
        let root_id = tree.root();
        let mut canvas = Canvas::new(self.width(), self.height());
        let ghost blank = canvas@;
        match fs_stats {
            Some((total_bytes, available_bytes)) => {
                let used_bytes = tree.node(root_id).total_bytes();
                let raw = self.render_with_free_space(
                    tree,
                    root_id,
                    &mut canvas,
                    used_bytes,
                    available_bytes,
                    total_bytes,
                    proportional,
                    scale,
                );
                proof {
                    assert(drawn_with_free_space(canvas@, tree@.nodes, available_bytes, proportional, self@, scale, raw@));
                }
            },
            None => {
                self.render_node(tree, root_id, &mut canvas, 0, 0, self.width(), self.height(), 0, scale);
            },
        }
        let s = self.canvas_to_string(&canvas);
        proof {
            assert(tree_drawing(canvas@, tree@.nodes, fs_stats, proportional, self@, scale));
        }
        s
    }
}

/// With file system figures and sizes in proportion, the used and available
/// bytes add up to a `u64`, and a view narrower than 15 cells has neither.
pub open spec fn free_space_fits(nodes: Seq<Node>, fs_stats: Option<(u64, u64)>, proportional: bool, width: usize) -> bool {
    match fs_stats {
        Some((_, available)) => proportional ==> {
            &&& total_of(nodes, 0) + available <= u64::MAX
            &&& (width < MIN_WIDTH ==> total_of(nodes, 0) == 0 && available == 0)
        },
        None => true,
    }
}

/// The fewest cells that used or free space is widened to where it has bytes.
pub const MIN_WIDTH: usize = 15;

/// `a - b`, or 0 where `b` is larger.
pub open spec fn sat_sub(a: int, b: int) -> int {
    if a > b {
        a - b
    } else {
        0
    }
}

/// The smaller of `a` and `b`.
pub open spec fn min_of(a: int, b: int) -> int {
    if a < b {
        a
    } else {
        b
    }
}

/// The widths of used and free space from `raw` cells for used space, used
/// space widened first where it has bytes.
pub open spec fn widened_used(width: int, used: u64, raw: int) -> (int, int) {
    if used > 0 && raw < MIN_WIDTH {
        let u = min_of(MIN_WIDTH as int, width - MIN_WIDTH);
        (u, sat_sub(width, u))
    } else {
        (raw, sat_sub(width, raw))
    }
}

/// The widths of used and free space across `width` cells: where
/// `proportional`, `raw` cells for used space and the rest for free space,
/// then each widened to 15 cells where it has bytes, used space first;
/// otherwise half each, the odd cell to free space.
pub open spec fn shares(width: int, used: u64, available: u64, proportional: bool, raw: int) -> (int, int) {
    if !proportional {
        (width / 2, width - width / 2)
    } else {
        let (u, f) = widened_used(width, used, raw);
        if available > 0 && f < MIN_WIDTH {
            let f2 = min_of(MIN_WIDTH as int, width - MIN_WIDTH);
            (sat_sub(width, f2), f2)
        } else {
            (u, f)
        }
    }
}

/// Widening a share to 15 cells needs 15 cells.
pub open spec fn shares_ok(width: int, used: u64, available: u64, proportional: bool, raw: int) -> bool {
    proportional ==> {
        &&& (used > 0 && raw < MIN_WIDTH ==> width >= MIN_WIDTH)
        &&& (available > 0 && widened_used(width, used, raw).1 < MIN_WIDTH ==> width >= MIN_WIDTH)
    }
}

/// Used and free space together take the whole width, each a part of it.
pub proof fn lemma_shares_fill_width(width: int, used: u64, available: u64, proportional: bool, raw: int)
    requires
        width >= 0,
        proportional ==> 0 <= raw <= width,
        shares_ok(width, used, available, proportional, raw),
    ensures
        0 <= shares(width, used, available, proportional, raw).0 <= width,
        0 <= shares(width, used, available, proportional, raw).1 <= width,
        shares(width, used, available, proportional, raw).0 + shares(width, used, available, proportional, raw).1 == width,
{
}

/// The widths of used and free space, see [`shares`], from `raw_used`
/// cells for used space where `proportional`.
pub fn free_space_widths(
    width: usize,
    used_bytes: u64,
    available_bytes: u64,
    proportional: bool,
    raw_used: usize,
) -> (r: (usize, usize))
    requires
        shares_ok(width as int, used_bytes, available_bytes, proportional, raw_used as int),
    ensures
        r.0 == shares(width as int, used_bytes, available_bytes, proportional, raw_used as int).0,
        r.1 == shares(width as int, used_bytes, available_bytes, proportional, raw_used as int).1,
{
    if proportional {
        let mut used_width = raw_used;
        let mut free_width = width.saturating_sub(used_width);
        if used_bytes > 0 && used_width < MIN_WIDTH {
            used_width = if MIN_WIDTH < width - MIN_WIDTH {
                MIN_WIDTH
            } else {
                width - MIN_WIDTH
            };
            free_width = width.saturating_sub(used_width);
        }
        if available_bytes > 0 && free_width < MIN_WIDTH {
            free_width = if MIN_WIDTH < width - MIN_WIDTH {
                MIN_WIDTH
            } else {
                width - MIN_WIDTH
            };
            used_width = width.saturating_sub(free_width);
        }
        (used_width, free_width)
    } else {
        let half_width = width / 2;
        (half_width, width.saturating_sub(half_width))
    }
}

/// `c` is `a` with directory `id` drawn in the used share `w.0` from the
/// left and, after it, the box for free space, labelled `lbl` (what `scale`
/// writes for the `available` bytes), in the free share `w.1`; `mid` is the
/// canvas in between.
pub open spec fn free_space_as<S: Proportions>(
    a: CanvasView,
    mid: CanvasView,
    c: CanvasView,
    w: (int, int),
    use_colors: bool,
    nodes: Seq<Node>,
    id: int,
    scale: &S,
    available: u64,
    lbl: Seq<char>,
) -> bool {
    &&& canvas_wf(mid)
    &&& (w.0 >= 3 ==> dir_drawn(a, mid, nodes, id, 0, 0, w.0, a.height as int, 0, use_colors, scale))
    &&& (w.1 >= 3 ==> gives_label(scale, available, lbl))
    &&& (w.0 < 3 ==> mid == a)
    &&& c == (if w.1 >= 3 {
        free_box_drawn(mid, w.0, 0, w.1, a.height as int, use_colors, lbl)
    } else {
        mid
    })
}

/// `c` is `a` with directory `id` drawn beside the box for free space, in
/// the shares `w`, see [`free_space_as`].
pub open spec fn beside_free_space<S: Proportions>(
    a: CanvasView,
    c: CanvasView,
    w: (int, int),
    use_colors: bool,
    nodes: Seq<Node>,
    id: int,
    scale: &S,
    available: u64,
) -> bool {
    exists|mid: CanvasView, lbl: Seq<char>| #[trigger] free_space_as(a, mid, c, w, use_colors, nodes, id, scale, available, lbl)
}

/// Where `proportional`, `raw` is the share `scale` gave for `used` of the
/// `used + available` bytes across `width` cells, cut back to `width`.
pub open spec fn used_share_of<S: Proportions>(
    scale: &S,
    width: usize,
    used: u64,
    available: u64,
    proportional: bool,
    raw: int,
) -> bool {
    proportional ==> exists|r: usize| #[trigger] call_ensures(S::used_share, (scale, width, used, (used + available) as u64), r)
        && raw == min_of(r as int, width as int)
}

/// A canvas of `width` by `height` blank cells.
pub open spec fn blank_canvas(width: usize, height: usize) -> CanvasView {
    canvas_of(width, height, |r: int, col: int| Cell { ch: ' ', color_index: None })
}

/// `c` is a blank canvas of the view's size with the tree drawn beside the
/// box for `available` free bytes, the used share from `raw` cells where
/// `proportional`, as `scale` gave it.
pub open spec fn drawn_with_free_space<S: Proportions>(
    c: CanvasView,
    nodes: Seq<Node>,
    available: u64,
    proportional: bool,
    settings: TreeMapSettings,
    scale: &S,
    raw: int,
) -> bool {
    let blank = blank_canvas(settings.width, settings.height);
    let used = total_of(nodes, 0) as u64;
    &&& (proportional ==> 0 <= raw <= settings.width)
    &&& used_share_of(scale, settings.width, used, available, proportional, raw)
    &&& beside_free_space(
        blank,
        c,
        shares(settings.width as int, used, available, proportional, raw),
        settings.use_colors,
        nodes,
        0,
        scale,
        available,
    )
}

/// `c` is what a view with `settings` draws of the tree `nodes`: a blank
/// canvas of its size with the root directory drawn across all of it, or,
/// with file system figures, beside the box for free space.
pub open spec fn tree_drawing<S: Proportions>(
    c: CanvasView,
    nodes: Seq<Node>,
    fs_stats: Option<(u64, u64)>,
    proportional: bool,
    settings: TreeMapSettings,
    scale: &S,
) -> bool {
    let blank = blank_canvas(settings.width, settings.height);
    &&& canvas_wf(c)
    &&& match fs_stats {
        None => dir_drawn(
            blank,
            c,
            nodes,
            0,
            0,
            0,
            settings.width as int,
            settings.height as int,
            0,
            settings.use_colors,
            scale,
        ),
        Some((_, available)) => exists|raw: int| #[trigger]
            drawn_with_free_space(c, nodes, available, proportional, settings, scale, raw),
    }
}

/// Drawn beside the free space with sizes in proportion, used space takes the
/// share that `scale` gives for the bytes of the tree (the root's total) of
/// the used and available bytes together, across the whole width, cut back to
/// the width; where neither share needs widening to 15 cells, used space
/// takes exactly that many columns from the left and free space the rest.
pub proof fn lemma_used_space_share<S: Proportions>(
    c: CanvasView,
    nodes: Seq<Node>,
    total: u64,
    available: u64,
    settings: TreeMapSettings,
    scale: &S,
)
    requires
        tree_drawing(c, nodes, Some((total, available)), true, settings, scale),
    ensures
        exists|raw: int, r: usize|
            #![trigger call_ensures(S::used_share, (scale, settings.width, total_of(nodes, 0) as u64, (total_of(nodes, 0) as u64 + available) as u64), r), shares(settings.width as int, total_of(nodes, 0) as u64, available, true, raw)]
            {
                let used = total_of(nodes, 0) as u64;
                let width = settings.width as int;
                let w = shares(width, used, available, true, raw);
                &&& call_ensures(S::used_share, (scale, settings.width, used, (used + available) as u64), r)
                &&& raw == (if r < width { r as int } else { width })
                &&& (raw >= 15 && width - raw >= 15 ==> w.0 == raw && w.1 == width - raw)
                &&& beside_free_space(blank_canvas(settings.width, settings.height), c, w, settings.use_colors, nodes, 0, scale, available)
            },
{
    let raw = choose|raw: int| #[trigger] drawn_with_free_space(c, nodes, available, true, settings, scale, raw);
    let used = total_of(nodes, 0) as u64;
    let r = choose|r: usize| #[trigger] call_ensures(S::used_share, (scale, settings.width, used, (used + available) as u64), r)
        && raw == min_of(r as int, settings.width as int);
    let width = settings.width as int;
    let w = shares(width, used, available, true, raw);
    assert(call_ensures(S::used_share, (scale, settings.width, used, (used + available) as u64), r));
    assert(raw == (if r < width { r as int } else { width }));
    assert(raw >= 15 && width - raw >= 15 ==> w.0 == raw && w.1 == width - raw);
    assert(beside_free_space(blank_canvas(settings.width, settings.height), c, w, settings.use_colors, nodes, 0, scale, available));
}

/// Drawn beside the free space, the box for free space, where it is at least
/// 3 cells wide, is labelled with what `scale` writes for the available bytes
/// of the file system, and is drawn after the tree, right of its share.
pub proof fn lemma_free_space_label<S: Proportions>(
    c: CanvasView,
    nodes: Seq<Node>,
    total: u64,
    available: u64,
    proportional: bool,
    settings: TreeMapSettings,
    scale: &S,
)
    requires
        tree_drawing(c, nodes, Some((total, available)), proportional, settings, scale),
    ensures
        exists|raw: int, mid: CanvasView, lbl: Seq<char>|
            #![trigger free_space_as(blank_canvas(settings.width, settings.height), mid, c, shares(settings.width as int, total_of(nodes, 0) as u64, available, proportional, raw), settings.use_colors, nodes, 0, scale, available, lbl)]
            {
                let used = total_of(nodes, 0) as u64;
                let w = shares(settings.width as int, used, available, proportional, raw);
                &&& free_space_as(blank_canvas(settings.width, settings.height), mid, c, w, settings.use_colors, nodes, 0, scale, available, lbl)
                &&& (w.1 >= 3 ==> exists|s: String| #[trigger] call_ensures(S::size_label, (scale, available), s) && s@ == lbl)
                &&& (w.1 >= 3 ==> c == free_box_drawn(mid, w.0, 0, w.1, settings.height as int, settings.use_colors, lbl))
            },
{
    let raw = choose|raw: int| #[trigger] drawn_with_free_space(c, nodes, available, proportional, settings, scale, raw);
    let used = total_of(nodes, 0) as u64;
    let w = shares(settings.width as int, used, available, proportional, raw);
    let blank = blank_canvas(settings.width, settings.height);
    let (mid, lbl) = choose|mid: CanvasView, lbl: Seq<char>| #[trigger] free_space_as(blank, mid, c, w, settings.use_colors, nodes, 0, scale, available, lbl);
    assert(free_space_as(blank, mid, c, w, settings.use_colors, nodes, 0, scale, available, lbl));
    assert(blank.height == settings.height);
}

/// The bytes of the items at the positions `ids`.
pub open spec fn placed_bytes(sizes: Seq<u64>, ids: Seq<usize>) -> int
    decreases ids.len(),
{
    if ids.len() == 0 {
        0
    } else {
        sizes[ids[0] as int] + placed_bytes(sizes, ids.drop_first())
    }
}

proof fn lemma_placed_bytes_remove(sizes: Seq<u64>, ids: Seq<usize>, p: int)
    requires
        0 <= p < ids.len(),
    ensures
        placed_bytes(sizes, ids) == placed_bytes(sizes, ids.remove(p)) + sizes[ids[p] as int],
    decreases ids.len(),
{
    if p == 0 {
        assert(ids.remove(0) =~= ids.drop_first());
    } else {
        lemma_placed_bytes_remove(sizes, ids.drop_first(), p - 1);
        assert(ids.remove(p).drop_first() =~= ids.drop_first().remove(p - 1));
        assert(ids.remove(p)[0] == ids[0]);
    }
}

proof fn lemma_placed_bytes_prefix(sizes: Seq<u64>, shorter: Seq<u64>, ids: Seq<usize>)
    requires
        shorter.len() <= sizes.len(),
        forall|i: int| 0 <= i < shorter.len() ==> #[trigger] shorter[i] == sizes[i],
        forall|j: int| 0 <= j < ids.len() ==> #[trigger] ids[j] < shorter.len(),
    ensures
        placed_bytes(sizes, ids) == placed_bytes(shorter, ids),
    decreases ids.len(),
{
    if ids.len() > 0 {
        assert(ids[0] < shorter.len());
        assert forall|j: int| 0 <= j < ids.drop_first().len() implies #[trigger] ids.drop_first()[j] < shorter.len() by {
            assert(ids.drop_first()[j] == ids[j + 1]);
        }
        lemma_placed_bytes_prefix(sizes, shorter, ids.drop_first());
    }
}

/// Distinct positions that hold every item of nonzero size of `sizes`, and
/// only such items, account for all the bytes of `sizes`.
proof fn lemma_placed_bytes_all(sizes: Seq<u64>, ids: Seq<usize>)
    requires
        sizes.len() <= usize::MAX,
        forall|j: int| 0 <= j < ids.len() ==> #[trigger] ids[j] < sizes.len() && sizes[ids[j] as int] > 0,
        forall|a: int, b: int| 0 <= a < b < ids.len() ==> #[trigger] ids[a] != #[trigger] ids[b],
        forall|i: int| 0 <= i < sizes.len() && sizes[i] > 0 ==> #[trigger] ids.contains(i as usize),
    ensures
        placed_bytes(sizes, ids) == sum_sizes(sizes),
    decreases sizes.len(),
{
    if sizes.len() == 0 {
        if ids.len() > 0 {
            assert(ids[0] < sizes.len());
        }
    } else {
        let n = sizes.len() - 1;
        let rest = sizes.drop_last();
        assert(sizes =~= rest.push(sizes.last()));
        lemma_sum_push(rest, sizes.last());
        if sizes[n] == 0 {
            assert forall|j: int| 0 <= j < ids.len() implies #[trigger] ids[j] < rest.len() && rest[ids[j] as int] > 0 by {
                assert(ids[j] < sizes.len() && sizes[ids[j] as int] > 0);
            }
            assert forall|i: int| 0 <= i < rest.len() && rest[i] > 0 implies #[trigger] ids.contains(i as usize) by {
                assert(sizes[i] > 0);
            }
            lemma_placed_bytes_all(rest, ids);
            lemma_placed_bytes_prefix(sizes, rest, ids);
        } else {
            assert(ids.contains(n as usize));
            let p = choose|p: int| 0 <= p < ids.len() && ids[p] == n as usize;
            let ids2 = ids.remove(p);
            assert forall|j: int| 0 <= j < ids2.len() implies #[trigger] ids2[j] < rest.len() && rest[ids2[j] as int] > 0 by {
                let q = if j < p { j } else { j + 1 };
                assert(ids2[j] == ids[q]);
                assert(q != p);
                if q < p {
                    assert(ids[q] != ids[p]);
                } else {
                    assert(ids[p] != ids[q]);
                }
            }
            assert forall|a: int, b: int| 0 <= a < b < ids2.len() implies #[trigger] ids2[a] != #[trigger] ids2[b] by {
                let qa = if a < p { a } else { a + 1 };
                let qb = if b < p { b } else { b + 1 };
                assert(ids2[a] == ids[qa]);
                assert(ids2[b] == ids[qb]);
                assert(qa < qb);
            }
            assert forall|i: int| 0 <= i < rest.len() && rest[i] > 0 implies #[trigger] ids2.contains(i as usize) by {
                assert(sizes[i] > 0);
                assert(ids.contains(i as usize));
                let q = choose|q: int| 0 <= q < ids.len() && ids[q] == i as usize;
                assert(q != p);
                if q < p {
                    assert(ids2[q] == ids[q]);
                } else {
                    assert(ids2[q - 1] == ids[q]);
                }
            }
            lemma_placed_bytes_all(rest, ids2);
            assert forall|j: int| 0 <= j < ids2.len() implies #[trigger] ids2[j] < rest.len() by {
            }
            lemma_placed_bytes_prefix(sizes, rest, ids2);
            lemma_placed_bytes_remove(sizes, ids, p);
        }
    }
}

/// What is left of an area keeps its far edges: its right edge and its
/// bottom edge are those of the area.
proof fn lemma_rest_after_edges(area: Block, blocks: Seq<Block>, beside: Seq<bool>, k: int)
    requires
        0 <= k <= blocks.len(),
        k <= beside.len(),
    ensures
        rest_after(area, blocks, beside, k).0 + rest_after(area, blocks, beside, k).2 == area.0 + area.2,
        rest_after(area, blocks, beside, k).1 + rest_after(area, blocks, beside, k).3 == area.1 + area.3,
    decreases k,
{
    if k > 0 {
        lemma_rest_after_edges(area, blocks, beside, k - 1);
    }
}

/// The bytes still to place once the first `k` items in a display order are
/// placed are those of the items in the order from the `k`-th on.
proof fn lemma_left_total_is_rest(sizes: Seq<u64>, order: Seq<usize>, k: int)
    requires
        sizes.len() <= usize::MAX,
        is_display_order(sizes, order),
        0 <= k <= order.len(),
    ensures
        left_total(sum_sizes(sizes), sizes, order, k) == placed_bytes(sizes, order.skip(k)),
    decreases k,
{
    if k == 0 {
        assert(order.skip(0) =~= order);
        assert forall|a: int, b: int| 0 <= a < b < order.len() implies #[trigger] order[a] != #[trigger] order[b] by {
            assert(placed_before(sizes, order[a] as int, order[b] as int));
        }
        lemma_placed_bytes_all(sizes, order);
    } else {
        lemma_left_total_is_rest(sizes, order, k - 1);
        assert(order.skip(k - 1).drop_first() =~= order.skip(k));
        assert(order.skip(k - 1)[0] == order[k - 1]);
        lemma_placed_bytes_nonneg(sizes, order.skip(k));
    }
}

proof fn lemma_placed_bytes_nonneg(sizes: Seq<u64>, ids: Seq<usize>)
    ensures
        placed_bytes(sizes, ids) >= 0,
    decreases ids.len(),
{
    if ids.len() > 0 {
        lemma_placed_bytes_nonneg(sizes, ids.drop_first());
    }
}

/// Treemap law: laying out items, each block is cut from what is left of the
/// area, not from the whole area. Where the `k`-th item goes beside the rest,
/// `scale` is asked for its share of the columns from where its block starts
/// to the area's right edge (else of the rows down to the bottom edge), for
/// its size of the bytes of the items not yet placed, and the block takes that
/// share, at least one cell and at most all of what is left. Items are only
/// left out once no room or no bytes are left. Items of nonzero size are
/// placed each once, the largest first. The blocks follow one another
/// from the area's top-left corner, each beside the rest, with all of its
/// height, where what is left is more than one and a half times wider than
/// high, else above it with all of its width. (`items` are as many as a
/// vector holds.)
pub proof fn lemma_layout_shares_what_is_left<S: Proportions>(
    a: CanvasView,
    b: CanvasView,
    nodes: Seq<Node>,
    items: Seq<LayoutItem>,
    area: Block,
    depth: usize,
    use_colors: bool,
    scale: &S,
    skipped: Seq<LayoutItem>,
    order: Seq<usize>,
    m: int,
    cs: Seq<CanvasView>,
    blocks: Seq<Block>,
    beside: Seq<bool>,
    raws: Seq<usize>,
)
    requires
        items.len() <= usize::MAX,
        layout_run(a, b, nodes, items, area, depth, use_colors, scale, skipped, order, m, cs, blocks, beside, raws),
    ensures
        0 <= m <= order.len(),
        blocks.len() == m && beside.len() == m && raws.len() == m,
        forall|a: int, c: int|
            0 <= a < c < order.len() ==> item_size(nodes, items[#[trigger] order[a] as int]@) as u64 >= item_size(
                nodes,
                items[#[trigger] order[c] as int]@,
            ) as u64 && order[a] != order[c],
        forall|i: int|
            0 <= i < items.len() && item_size(nodes, items[i]@) as u64 > 0 ==> #[trigger] order.contains(i as usize),
        forall|k: int|
            #![trigger raws[k]]
            0 <= k < m ==> {
                let sizes = item_sizes(nodes, items);
                let extent = if beside[k] { area.0 + area.2 - blocks[k].0 } else { area.1 + area.3 - blocks[k].1 };
                let taken = if beside[k] { blocks[k].2 } else { blocks[k].3 };
                &&& call_ensures(
                    S::share,
                    (scale, extent as usize, sizes[order[k] as int], placed_bytes(sizes, order.skip(k)) as u64),
                    raws[k],
                )
                &&& 1 <= taken <= extent
                &&& (1 <= raws[k] <= extent ==> taken == raws[k])
                &&& (raws[k] < 1 ==> taken == 1)
                &&& (raws[k] > extent ==> taken == extent)
            },
        forall|k: int|
            #![trigger blocks[k]]
            0 <= k < m ==> {
                let rest_w = area.0 + area.2 - blocks[k].0;
                let rest_h = area.1 + area.3 - blocks[k].1;
                &&& beside[k] == (2 * rest_w > 3 * rest_h)
                &&& (beside[k] ==> blocks[k].3 == rest_h)
                &&& (!beside[k] ==> blocks[k].2 == rest_w)
            },
        m > 0 ==> blocks[0].0 == area.0 && blocks[0].1 == area.1,
        forall|k: int|
            #![trigger blocks[k + 1]]
            0 <= k < m - 1 ==> if beside[k] {
                blocks[k + 1].0 == blocks[k].0 + blocks[k].2 && blocks[k + 1].1 == blocks[k].1
            } else {
                blocks[k + 1].0 == blocks[k].0 && blocks[k + 1].1 == blocks[k].1 + blocks[k].3
            },
        m < order.len() ==> {
            let sizes = item_sizes(nodes, items);
            let r = rest_after(area, blocks, beside, m);
            r.2 == 0 || r.3 == 0 || placed_bytes(sizes, order.skip(m)) == 0
        },
{
    let sizes = item_sizes(nodes, items);
    assert forall|a: int, c: int| 0 <= a < c < order.len() implies item_size(nodes, items[#[trigger] order[a] as int]@)
        as u64 >= item_size(nodes, items[#[trigger] order[c] as int]@) as u64 && order[a] != order[c] by {
        assert(placed_before(sizes, order[a] as int, order[c] as int));
        assert(order[a] < sizes.len() && order[c] < sizes.len());
        assert(sizes[order[a] as int] == item_size(nodes, items[order[a] as int]@) as u64);
        assert(sizes[order[c] as int] == item_size(nodes, items[order[c] as int]@) as u64);
    }
    assert forall|i: int| 0 <= i < items.len() && item_size(nodes, items[i]@) as u64 > 0 implies #[trigger] order.contains(
        i as usize,
    ) by {
        assert(sizes[i] > 0);
    }
    assert forall|k: int|
        #![trigger raws[k]]
        0 <= k < m implies {
            let extent = if beside[k] { area.0 + area.2 - blocks[k].0 } else { area.1 + area.3 - blocks[k].1 };
            let taken = if beside[k] { blocks[k].2 } else { blocks[k].3 };
            &&& call_ensures(
                S::share,
                (scale, extent as usize, sizes[order[k] as int], placed_bytes(sizes, order.skip(k)) as u64),
                raws[k],
            )
            &&& 1 <= taken <= extent
            &&& (1 <= raws[k] <= extent ==> taken == raws[k])
            &&& (raws[k] < 1 ==> taken == 1)
            &&& (raws[k] > extent ==> taken == extent)
        } by {
        assert(share_taken(scale, sizes, order, area, blocks, beside, raws, k));
        assert(taken_from(rest_after(area, blocks, beside, k), blocks[k], beside[k]));
        lemma_rest_after_edges(area, blocks, beside, k);
        lemma_left_total_is_rest(sizes, order, k);
    }
    assert forall|k: int|
        #![trigger blocks[k]]
        0 <= k < m implies {
            let rest_w = area.0 + area.2 - blocks[k].0;
            let rest_h = area.1 + area.3 - blocks[k].1;
            &&& beside[k] == (2 * rest_w > 3 * rest_h)
            &&& (beside[k] ==> blocks[k].3 == rest_h)
            &&& (!beside[k] ==> blocks[k].2 == rest_w)
        } by {
        assert(taken_from(rest_after(area, blocks, beside, k), blocks[k], beside[k]));
        assert(beside[k] == wide(rest_after(area, blocks, beside, k)));
        lemma_rest_after_edges(area, blocks, beside, k);
    }
    if m > 0 {
        assert(taken_from(rest_after(area, blocks, beside, 0), blocks[0], beside[0]));
    }
    assert forall|k: int|
        #![trigger blocks[k + 1]]
        0 <= k < m - 1 implies if beside[k] {
            blocks[k + 1].0 == blocks[k].0 + blocks[k].2 && blocks[k + 1].1 == blocks[k].1
        } else {
            blocks[k + 1].0 == blocks[k].0 && blocks[k + 1].1 == blocks[k].1 + blocks[k].3
        } by {
        assert(taken_from(rest_after(area, blocks, beside, k), blocks[k], beside[k]));
        assert(taken_from(rest_after(area, blocks, beside, k + 1), blocks[k + 1], beside[k + 1]));
    }
    if m < order.len() {
        lemma_left_total_is_rest(sizes, order, m);
    }
}

/// A directory drawn in a block more than 4 cells wide and at least 3 high
/// shows its box labelled with its name and what `scale` writes for its
/// total bytes (its own files and everything below it).
pub proof fn lemma_directory_label<S: Proportions>(
    a: CanvasView,
    b: CanvasView,
    nodes: Seq<Node>,
    id: int,
    x: int,
    y: int,
    w: int,
    h: int,
    depth: usize,
    use_colors: bool,
    scale: &S,
)
    requires
        dir_drawn(a, b, nodes, id, x, y, w, h, depth, use_colors, scale),
        w > 4,
        h >= 3,
    ensures
        exists|lbl: Seq<char>, s: String|
            #![trigger call_ensures(S::size_label, (scale, total_of(nodes, id) as u64), s), dir_frame(a, x, y, w, h, depth, use_colors, nodes[id]@.name, lbl)]
            call_ensures(S::size_label, (scale, total_of(nodes, id) as u64), s) && s@ == lbl && framed_as(
                dir_frame(a, x, y, w, h, depth, use_colors, nodes[id]@.name, lbl),
                b,
                x,
                y,
                w,
                h,
            ),
{
    let bytes = total_of(nodes, id) as u64;
    let name = nodes[id]@.name;
    let lbl = choose|lbl: Seq<char>|
        #[trigger] labelled_as(a, b, x, y, w, h, depth, use_colors, name, lbl) && (w > 4 ==> gives_label(scale, bytes, lbl));
    let s = choose|s: String| #[trigger] call_ensures(S::size_label, (scale, bytes), s) && s@ == lbl;
    assert(call_ensures(S::size_label, (scale, bytes), s));
    assert(framed_as(dir_frame(a, x, y, w, h, depth, use_colors, name, lbl), b, x, y, w, h));
}

/// In a layout, each file is drawn in its block labelled with what `scale`
/// writes for its own size.
pub proof fn lemma_file_labels_in_layout<S: Proportions>(
    a: CanvasView,
    b: CanvasView,
    nodes: Seq<Node>,
    items: Seq<LayoutItem>,
    area: Block,
    depth: usize,
    use_colors: bool,
    scale: &S,
    skipped: Seq<LayoutItem>,
    order: Seq<usize>,
    m: int,
    cs: Seq<CanvasView>,
    blocks: Seq<Block>,
    beside: Seq<bool>,
    raws: Seq<usize>,
    k: int,
    size: u64,
    name: Seq<char>,
)
    requires
        layout_run(a, b, nodes, items, area, depth, use_colors, scale, skipped, order, m, cs, blocks, beside, raws),
        0 <= k < m,
        items[order[k] as int]@ == LayoutItemView::File(size, name),
    ensures
        exists|lbl: Seq<char>, s: String|
            #![trigger call_ensures(S::size_label, (scale, size), s), file_drawn(cs[k], blocks[k].0, blocks[k].1, blocks[k].2, blocks[k].3, depth, use_colors, name, lbl)]
            call_ensures(S::size_label, (scale, size), s) && s@ == lbl && cs[k + 1] == file_drawn(
                cs[k],
                blocks[k].0,
                blocks[k].1,
                blocks[k].2,
                blocks[k].3,
                depth,
                use_colors,
                name,
                lbl,
            ),
{
    assert(item_drawn(cs[k], cs[k + 1], nodes, items[order[k] as int]@, blocks[k], depth, use_colors, scale));
    let lbl = choose|lbl: Seq<char>|
        #[trigger] file_shown(cs[k], cs[k + 1], blocks[k], depth, use_colors, name, lbl) && gives_label(scale, size, lbl);
    let s = choose|s: String| #[trigger] call_ensures(S::size_label, (scale, size), s) && s@ == lbl;
    assert(call_ensures(S::size_label, (scale, size), s));
    assert(file_drawn(cs[k], blocks[k].0, blocks[k].1, blocks[k].2, blocks[k].3, depth, use_colors, name, lbl) == cs[k + 1]);
}

} // verus!
