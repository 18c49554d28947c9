use vstd::prelude::*;
use vstd::string::StrSliceExecFns;
use vstd::string::StringExecFns;
use vstd::utf8::encode_utf8;

verus! {

/// One character of a drawing, with the color it is drawn in, if any.
#[derive(Clone, Copy, Debug, PartialEq, Eq)]
pub struct Cell {
    pub ch: char,
    pub color_index: Option<usize>,
}

impl Cell {
    /// A cell drawn without color.
    pub fn new(ch: char) -> (c: Self)
        ensures
            c == (Cell { ch, color_index: None }),
    {
        Self { ch, color_index: None }
    }

    /// A cell drawn in color `color_index`.
    pub fn with_color(ch: char, color_index: usize) -> (c: Self)
        ensures
            c == (Cell { ch, color_index: Some(color_index) }),
    {
        Self { ch, color_index: Some(color_index) }
    }
}

/// A grid of cells: `height` rows of `width` cells.
pub struct Canvas {
    width: usize,
    height: usize,
    rows: Vec<Vec<Cell>>,
}

/// The abstract state of a [`Canvas`].
pub struct CanvasView {
    pub width: usize,
    pub height: usize,
    pub rows: Seq<Seq<Cell>>,
}

impl View for Canvas {
    type V = CanvasView;

    closed spec fn view(&self) -> CanvasView {
        CanvasView { width: self.width, height: self.height, rows: self.rows@.map_values(|r: Vec<Cell>| r@) }
    }
}

/// The canvas has `height` rows of `width` cells each.
pub open spec fn canvas_wf(v: CanvasView) -> bool {
    &&& v.rows.len() == v.height
    &&& forall|r: int| 0 <= r < v.height ==> (#[trigger] v.rows[r]).len() == v.width
}

/// The canvas `v` with cell `(r, c)` replaced by `cell`.
pub open spec fn painted(v: CanvasView, r: int, c: int, cell: Cell) -> CanvasView {
    CanvasView { rows: v.rows.update(r, v.rows[r].update(c, cell)), ..v }
}

/// Two canvases of the same size have the same cells.
pub open spec fn same_cells(a: CanvasView, b: CanvasView) -> bool {
    &&& a.width == b.width
    &&& a.height == b.height
    &&& forall|r: int, c: int| 0 <= r < a.height && 0 <= c < a.width ==> #[trigger] a.rows[r][c] == b.rows[r][c]
}

/// The canvas whose cell at `(r, c)` is `f(r, c)`.
pub open spec fn canvas_of(width: usize, height: usize, f: spec_fn(int, int) -> Cell) -> CanvasView {
    CanvasView { width, height, rows: Seq::new(height as nat, |r: int| Seq::new(width as nat, |c: int| f(r, c))) }
}

pub proof fn lemma_same_cells_eq(a: CanvasView, b: CanvasView)
    requires
        canvas_wf(a),
        canvas_wf(b),
        same_cells(a, b),
    ensures
        a == b,
{
    assert forall|r: int| 0 <= r < a.height implies a.rows[r] =~= b.rows[r] by {
        assert forall|c: int| 0 <= c < a.width implies a.rows[r][c] == b.rows[r][c] by {
        }
    }
    assert(a.rows =~= b.rows);
}

impl Canvas {
    pub open spec fn wf(&self) -> bool {
        canvas_wf(self@)
    }

    /// A canvas of blank cells.
    pub fn new(width: usize, height: usize) -> (c: Self)
        ensures
            c.wf(),
            c@ == canvas_of(width, height, |r: int, col: int| Cell { ch: ' ', color_index: None }),
    {
        let mut rows: Vec<Vec<Cell>> = Vec::new();
        let mut r: usize = 0;
        while r < height
            invariant
                r <= height,
                rows@.len() == r,
                forall|k: int| 0 <= k < r ==> (#[trigger] rows@[k])@ == Seq::new(width as nat, |col: int| Cell { ch: ' ', color_index: None }),
            decreases height - r,
        {
            let mut row: Vec<Cell> = Vec::new();
            let mut c: usize = 0;
            while c < width
                invariant
                    c <= width,
                    row@ == Seq::new(c as nat, |col: int| Cell { ch: ' ', color_index: None }),
                decreases width - c,
            {
                row.push(Cell::new(' '));
                proof {
                    assert(row@ =~= Seq::new((c + 1) as nat, |col: int| Cell { ch: ' ', color_index: None }));
                }
                c = c + 1;
            }
            rows.push(row);
            r = r + 1;
        }
        let canvas = Self { width, height, rows };
        proof {
            let want = canvas_of(width, height, |r: int, col: int| Cell { ch: ' ', color_index: None });
            assert forall|k: int| 0 <= k < height implies canvas@.rows[k] =~= want.rows[k] by {
            }
            assert(canvas@.rows =~= want.rows);
        }
        canvas
    }

    pub fn width(&self) -> (w: usize)
        ensures
            w == self@.width,
    {
        self.width
    }

    pub fn height(&self) -> (h: usize)
        ensures
            h == self@.height,
    {
        self.height
    }

    pub fn get(&self, r: usize, c: usize) -> (cell: Cell)
        requires
            self.wf(),
            r < self@.height,
            c < self@.width,
        ensures
            cell == self@.rows[r as int][c as int],
    {
        assert(self@.rows[r as int] == self.rows@[r as int]@);
        self.rows[r][c]
    }

    fn set(&mut self, r: usize, c: usize, cell: Cell)
        requires
            old(self).wf(),
            r < old(self)@.height,
            c < old(self)@.width,
        ensures
            final(self).wf(),
            final(self)@ == painted(old(self)@, r as int, c as int, cell),
            forall|i: int, j: int|
                0 <= i < old(self)@.height && 0 <= j < old(self)@.width ==> #[trigger] final(self)@.rows[i][j] == if i == r
                    && j == c {
                    cell
                } else {
                    old(self)@.rows[i][j]
                },
    {
        let ghost before = self@;
        assert(before.rows[r as int].len() == self.width);
        assert(before.rows[r as int] == self.rows@[r as int]@);
        self.rows[r].set(c, cell);
        proof {
            assert(self@.rows =~= before.rows.update(r as int, before.rows[r as int].update(c as int, cell)));
        }
    }
}

/// The corner, edge characters of a box drawn at `depth`: top-left,
/// top-right, bottom-left, bottom-right, horizontal, vertical.
pub open spec fn box_style_spec(depth: usize) -> (char, char, char, char, char, char) {
    if depth % 4 == 0 {
        ('┌', '┐', '└', '┘', '─', '│')
    } else if depth % 4 == 1 {
        ('╔', '╗', '╚', '╝', '═', '║')
    } else if depth % 4 == 2 {
        ('╭', '╮', '╰', '╯', '─', '│')
    } else {
        ('┏', '┓', '┗', '┛', '━', '┃')
    }
}

fn box_style(depth: usize) -> (s: (char, char, char, char, char, char))
    ensures
        s == box_style_spec(depth),
{
    if depth % 4 == 0 {
        ('┌', '┐', '└', '┘', '─', '│')
    } else if depth % 4 == 1 {
        ('╔', '╗', '╚', '╝', '═', '║')
    } else if depth % 4 == 2 {
        ('╭', '╮', '╰', '╯', '─', '│')
    } else {
        ('┏', '┓', '┗', '┛', '━', '┃')
    }
}

/// The color a drawing at `depth` uses.
pub open spec fn color_of(use_colors: bool, depth: usize) -> Option<usize> {
    if use_colors {
        Some(depth)
    } else {
        None
    }
}

/// The character a box at `(x, y)` of `w` by `h` cells, clipped to a canvas of
/// `cw` by `ch` cells, puts at `(r, c)`, if any. Later strokes cover earlier
/// ones: the edges first, then the top-left, top-right, bottom-left and
/// bottom-right corners.
pub open spec fn box_glyph(x: int, y: int, w: int, h: int, depth: usize, cw: int, ch: int, r: int, c: int) -> Option<char> {
    let max_x = if x + w - 1 < cw - 1 { x + w - 1 } else { cw - 1 };
    let max_y = if y + h - 1 < ch - 1 { y + h - 1 } else { ch - 1 };
    let st = box_style_spec(depth);
    if w < 2 || h < 2 {
        None
    } else if r == max_y && c == max_x {
        Some(st.3)
    } else if r == max_y && c == x {
        Some(st.2)
    } else if r == y && c == max_x {
        Some(st.1)
    } else if r == y && c == x {
        Some(st.0)
    } else if (r == y || r == max_y) && x < c < max_x {
        Some(st.4)
    } else if (c == x || c == max_x) && y < r < max_y {
        Some(st.5)
    } else {
        None
    }
}

/// The canvas `v` with the box at `(x, y)` of `w` by `h` cells drawn on it.
pub open spec fn box_drawn(v: CanvasView, x: int, y: int, w: int, h: int, depth: usize, use_colors: bool) -> CanvasView {
    canvas_of(
        v.width,
        v.height,
        |r: int, c: int|
            match box_glyph(x, y, w, h, depth, v.width as int, v.height as int, r, c) {
                Some(g) => Cell { ch: g, color_index: color_of(use_colors, depth) },
                None => v.rows[r][c],
            },
    )
}

/// `String::push`: appends one character.
#[verifier::external_body]
fn push_char(s: &mut String, c: char)
    ensures
        final(s)@ == old(s)@.push(c),
{
    s.push(c);
}

/// The characters of `s`.
fn chars_of(s: &str) -> (v: Vec<char>)
    ensures
        v@ == s@,
{
    let n = s.unicode_len();
    let mut v: Vec<char> = Vec::new();
    let mut i: usize = 0;
    while i < n
        invariant
            n == s@.len(),
            i <= n,
            v@ == s@.take(i as int),
        decreases n - i,
    {
        v.push(s.get_char(i));
        proof {
            assert(v@ =~= s@.take(i + 1));
        }
        i = i + 1;
    }
    proof {
        assert(s@.take(n as int) =~= s@);
    }
    v
}

/// A string of the characters `v`.
fn string_of(v: &Vec<char>) -> (s: String)
    ensures
        s@ == v@,
{
    let mut s = String::new();
    let mut i: usize = 0;
    while i < v.len()
        invariant
            i <= v@.len(),
            s@ == v@.take(i as int),
        decreases v@.len() - i,
    {
        push_char(&mut s, v[i]);
        proof {
            assert(s@ =~= v@.take(i + 1));
        }
        i = i + 1;
    }
    proof {
        assert(v@.take(v@.len() as int) =~= v@);
    }
    s
}

/// The first `k` characters of `s`, or all of `s` where it has fewer.
pub open spec fn first_chars(s: Seq<char>, k: int) -> Seq<char> {
    if k < s.len() {
        s.take(k)
    } else {
        s
    }
}

/// The length of `s` in bytes, as `str::len` reports it.
pub open spec fn byte_len(s: Seq<char>) -> usize {
    encode_utf8(s).len() as usize
}

/// `name` cut to fit `max_len` bytes: whole where its UTF-8 form fits; else
/// nothing below 1, its first `max_len` characters below 3, and otherwise
/// its first `max_len - 2` characters followed by "..".
pub open spec fn truncated(name: Seq<char>, max_len: int) -> Seq<char> {
    if byte_len(name) <= max_len {
        name
    } else if max_len < 1 {
        Seq::empty()
    } else if max_len < 3 {
        first_chars(name, max_len)
    } else {
        first_chars(name, max_len - 2) + seq!['.', '.']
    }
}

/// Cuts `name` to fit `max_len` bytes, see [`truncated`].
pub fn truncate_name(name: &str, max_len: usize) -> (r: String)
    ensures
        r@ == truncated(name@, max_len as int),
{
    if name.len() <= max_len {
        name.to_owned()
    } else if max_len < 1 {
        String::new()
    } else {
        let chars = chars_of(name);
        let take = if max_len < 3 { max_len } else { max_len - 2 };
        let mut v: Vec<char> = Vec::new();
        let mut i: usize = 0;
        while i < take && i < chars.len()
            invariant
                i <= chars@.len(),
                i <= take,
                v@ == chars@.take(i as int),
            decreases chars@.len() - i,
        {
            v.push(chars[i]);
            proof {
                assert(v@ =~= chars@.take(i + 1));
            }
            i = i + 1;
        }
        proof {
            if take >= chars@.len() {
                assert(chars@.take(chars@.len() as int) =~= chars@);
            }
            assert(v@ == first_chars(name@, take as int));
        }
        if max_len >= 3 {
            v.push('.');
            v.push('.');
            proof {
                assert(v@ =~= first_chars(name@, max_len - 2) + seq!['.', '.']);
            }
        }
        string_of(&v)
    }
}

/// `size_label` in parentheses after a space.
pub open spec fn in_parens(size_label: Seq<char>) -> Seq<char> {
    seq![' ', '('] + size_label + seq![')']
}

/// A name followed by its size in parentheses, the name cut so that both fit
/// `label_width` bytes where they can.
pub open spec fn sized_label(name: Seq<char>, size_label: Seq<char>, label_width: int) -> Seq<char> {
    let room = label_width - byte_len(in_parens(size_label));
    truncated(name, if room < 0 { 0 } else { room }) + in_parens(size_label)
}

/// Labels a box with a name and its size, see [`sized_label`].
pub fn make_sized_label(name: &str, size_label: &str, label_width: usize) -> (r: String)
    ensures
        r@ == sized_label(name@, size_label@, label_width as int),
{
    let mut parens = String::from_str(" (");
    parens.append(size_label);
    parens.append(")");
    proof {
        reveal_strlit(" (");
        reveal_strlit(")");
        assert(parens@ =~= in_parens(size_label@));
    }
    let plen = parens.as_str().len();
    assert(plen == byte_len(in_parens(size_label@)));
    let available = label_width.saturating_sub(plen);
    let mut label = truncate_name(name, available);
    let ghost front = label@;
    label.append(parens.as_str());
    assert(label@ == front + in_parens(size_label@));
    label
}

/// The canvas `v` with `t` written from `(x, y)` rightwards, at most
/// `max_width` characters and none past the right edge.
pub open spec fn text_drawn(v: CanvasView, x: int, y: int, t: Seq<char>, max_width: int, depth: usize, use_colors: bool) -> CanvasView {
    if y >= v.height || x >= v.width || max_width == 0 {
        v
    } else {
        text_painted(v, x, y, t, written_len(v.width - x, max_width, t.len() as int), depth, use_colors)
    }
}

/// The canvas `v` with the first `n` characters of `t` written from `(x, y)` rightwards.
pub open spec fn text_painted(v: CanvasView, x: int, y: int, t: Seq<char>, n: int, depth: usize, use_colors: bool) -> CanvasView {
    canvas_of(v.width, v.height, |r: int, c: int| text_cell(v, x, y, t, n, depth, use_colors, r, c))
}

/// Cell `(r, c)` of [`text_painted`].
pub open spec fn text_cell(v: CanvasView, x: int, y: int, t: Seq<char>, n: int, depth: usize, use_colors: bool, r: int, c: int) -> Cell {
    if r == y && x <= c < x + n {
        Cell { ch: t[c - x], color_index: color_of(use_colors, depth) }
    } else {
        v.rows[r][c]
    }
}

/// How many characters of a text of `len` characters fit in `room` cells when
/// at most `max_width` are written.
pub open spec fn written_len(room: int, max_width: int, len: int) -> int {
    let w = if max_width < room { max_width } else { room };
    if w < len {
        w
    } else {
        len
    }
}

/// The canvas `v` with every blank cell of the block at `(x, y)` of `w` by
/// `h` cells filled with `ch`.
pub open spec fn block_filled(v: CanvasView, x: int, y: int, w: int, h: int, ch: char, depth: usize, use_colors: bool) -> CanvasView {
    canvas_of(v.width, v.height, |r: int, c: int| fill_cell(v, x, y, w, h, ch, depth, use_colors, r, c))
}

/// Cell `(r, c)` of [`block_filled`].
pub open spec fn fill_cell(v: CanvasView, x: int, y: int, w: int, h: int, ch: char, depth: usize, use_colors: bool, r: int, c: int) -> Cell {
    if y <= r < y + h && x <= c < x + w && v.rows[r][c].ch == ' ' {
        Cell { ch, color_index: color_of(use_colors, depth) }
    } else {
        v.rows[r][c]
    }
}

/// The shade that fills a block at `depth` too small for a label.
pub open spec fn shade_spec(depth: usize) -> char {
    if depth % 4 == 0 {
        '░'
    } else if depth % 4 == 1 {
        '▒'
    } else if depth % 4 == 2 {
        '▓'
    } else {
        '█'
    }
}

/// The canvas `v` with the file `name` of size `size_label` drawn in the block
/// at `(x, y)` of `w` by `h` cells: a labelled box where it is at least 5 by
/// 3 cells, and otherwise the block shaded with as much of the name as fits.
pub open spec fn file_drawn(
    v: CanvasView,
    x: int,
    y: int,
    w: int,
    h: int,
    depth: usize,
    use_colors: bool,
    name: Seq<char>,
    size_label: Seq<char>,
) -> CanvasView {
    if w < 1 || h < 1 {
        v
    } else if w >= 5 && h >= 3 {
        text_drawn(
            box_drawn(v, x, y, w, h, depth, use_colors),
            x + 2,
            y + 1,
            sized_label(name, size_label, w - 4),
            w - 4,
            depth,
            use_colors,
        )
    } else {
        let f = block_filled(v, x, y, w, h, shade_spec(depth), depth, use_colors);
        if w >= 5 {
            text_drawn(f, x, y, seq!['-', ' '] + truncated(name, w - 2), w, depth, use_colors)
        } else if w >= 2 {
            text_drawn(f, x, y, truncated(name, w), w, depth, use_colors)
        } else {
            f
        }
    }
}

/// Cell `(r, c)` lies in the block at `(x, y)` of `w` by `h` cells.
pub open spec fn in_block(x: int, y: int, w: int, h: int, r: int, c: int) -> bool {
    y <= r < y + h && x <= c < x + w
}

/// `b` has the size of `a` and the same cells outside the block at `(x, y)`
/// of `w` by `h` cells.
pub open spec fn same_outside(a: CanvasView, b: CanvasView, x: int, y: int, w: int, h: int) -> bool {
    &&& a.width == b.width
    &&& a.height == b.height
    &&& forall|r: int, c: int|
        0 <= r < a.height && 0 <= c < a.width && !in_block(x, y, w, h, r, c) ==> #[trigger] b.rows[r][c] == a.rows[r][c]
}

/// What is the same outside a block is the same outside a larger block, and
/// changes outside a block in two steps stay outside it.
pub proof fn lemma_same_outside_grow(
    a: CanvasView,
    b: CanvasView,
    x: int,
    y: int,
    w: int,
    h: int,
    x2: int,
    y2: int,
    w2: int,
    h2: int,
)
    requires
        same_outside(a, b, x, y, w, h),
        x2 <= x,
        y2 <= y,
        x + w <= x2 + w2,
        y + h <= y2 + h2,
    ensures
        same_outside(a, b, x2, y2, w2, h2),
{
    assert forall|r: int, c: int|
        0 <= r < a.height && 0 <= c < a.width && !in_block(x2, y2, w2, h2, r, c) implies #[trigger] b.rows[r][c]
        == a.rows[r][c] by {
        assert(!in_block(x, y, w, h, r, c));
    }
}

pub proof fn lemma_same_outside_trans(a: CanvasView, b: CanvasView, c: CanvasView, x: int, y: int, w: int, h: int)
    requires
        same_outside(a, b, x, y, w, h),
        same_outside(b, c, x, y, w, h),
    ensures
        same_outside(a, c, x, y, w, h),
{
    assert forall|r: int, col: int|
        0 <= r < a.height && 0 <= col < a.width && !in_block(x, y, w, h, r, col) implies #[trigger] c.rows[r][col]
        == a.rows[r][col] by {
        assert(c.rows[r][col] == b.rows[r][col]);
    }
}

/// A box drawn within a canvas leaves the cells outside it as they were.
pub proof fn lemma_box_in_block(v: CanvasView, x: int, y: int, w: int, h: int, depth: usize, use_colors: bool)
    requires
        0 <= x,
        0 <= y,
        x + w <= v.width,
        y + h <= v.height,
    ensures
        same_outside(v, box_drawn(v, x, y, w, h, depth, use_colors), x, y, w, h),
{
    let b = box_drawn(v, x, y, w, h, depth, use_colors);
    assert forall|r: int, c: int|
        0 <= r < v.height && 0 <= c < v.width && !in_block(x, y, w, h, r, c) implies #[trigger] b.rows[r][c]
        == v.rows[r][c] by {
        assert(box_glyph(x, y, w, h, depth, v.width as int, v.height as int, r, c) is None);
    }
}

/// Text written on a canvas changes at most `max_width` cells of its row.
pub proof fn lemma_text_in_block(v: CanvasView, x: int, y: int, t: Seq<char>, max_width: int, depth: usize, use_colors: bool)
    requires
        max_width >= 0,
    ensures
        same_outside(v, text_drawn(v, x, y, t, max_width, depth, use_colors), x, y, max_width, 1),
{
    let d = text_drawn(v, x, y, t, max_width, depth, use_colors);
    assert forall|r: int, c: int|
        0 <= r < v.height && 0 <= c < v.width && !in_block(x, y, max_width, 1, r, c) implies #[trigger] d.rows[r][c]
        == v.rows[r][c] by {
    }
}

/// A shaded block changes no cell outside it.
pub proof fn lemma_fill_in_block(v: CanvasView, x: int, y: int, w: int, h: int, ch: char, depth: usize, use_colors: bool)
    ensures
        same_outside(v, block_filled(v, x, y, w, h, ch, depth, use_colors), x, y, w, h),
{
    let d = block_filled(v, x, y, w, h, ch, depth, use_colors);
    assert forall|r: int, c: int|
        0 <= r < v.height && 0 <= c < v.width && !in_block(x, y, w, h, r, c) implies #[trigger] d.rows[r][c]
        == v.rows[r][c] by {
    }
}

/// A file drawn in a block within a canvas changes no cell outside the block.
pub proof fn lemma_file_in_block(
    v: CanvasView,
    x: int,
    y: int,
    w: int,
    h: int,
    depth: usize,
    use_colors: bool,
    name: Seq<char>,
    size_label: Seq<char>,
)
    requires
        0 <= x,
        0 <= y,
        x + w <= v.width,
        y + h <= v.height,
    ensures
        same_outside(v, file_drawn(v, x, y, w, h, depth, use_colors, name, size_label), x, y, w, h),
{
    let d = file_drawn(v, x, y, w, h, depth, use_colors, name, size_label);
    if w < 1 || h < 1 {
    } else if w >= 5 && h >= 3 {
        let b = box_drawn(v, x, y, w, h, depth, use_colors);
        lemma_box_in_block(v, x, y, w, h, depth, use_colors);
        lemma_text_in_block(b, x + 2, y + 1, sized_label(name, size_label, w - 4), w - 4, depth, use_colors);
        lemma_same_outside_grow(b, d, x + 2, y + 1, w - 4, 1, x, y, w, h);
        lemma_same_outside_trans(v, b, d, x, y, w, h);
    } else {
        let f = block_filled(v, x, y, w, h, shade_spec(depth), depth, use_colors);
        lemma_fill_in_block(v, x, y, w, h, shade_spec(depth), depth, use_colors);
        if w >= 5 {
            lemma_text_in_block(f, x, y, seq!['-', ' '] + truncated(name, w - 2), w, depth, use_colors);
            lemma_same_outside_grow(f, d, x, y, w, 1, x, y, w, h);
            lemma_same_outside_trans(v, f, d, x, y, w, h);
        } else if w >= 2 {
            lemma_text_in_block(f, x, y, truncated(name, w), w, depth, use_colors);
            lemma_same_outside_grow(f, d, x, y, w, 1, x, y, w, h);
            lemma_same_outside_trans(v, f, d, x, y, w, h);
        }
    }
}

/// A file in a block at least 5 cells wide but lower than 3 cells shows, on
/// the first row of the block, a dash and a space and then its name cut to
/// `w - 2` bytes; a name whose UTF-8 form fits in `w - 2` bytes is shown
/// whole, as far as the block reaches.
pub proof fn lemma_low_file_shows_name(
    v: CanvasView,
    x: int,
    y: int,
    w: int,
    h: int,
    depth: usize,
    use_colors: bool,
    name: Seq<char>,
    size_label: Seq<char>,
)
    requires
        canvas_wf(v),
        0 <= x,
        0 <= y < v.height,
        x + w <= v.width,
        w >= 5,
        1 <= h < 3,
    ensures
        ({
            let c = file_drawn(v, x, y, w, h, depth, use_colors, name, size_label);
            let shown = truncated(name, w - 2);
            &&& c.rows[y][x].ch == '-'
            &&& c.rows[y][x + 1].ch == ' '
            &&& forall|j: int| 0 <= j < shown.len() && j < w - 2 ==> #[trigger] c.rows[y][x + 2 + j].ch == shown[j]
            &&& byte_len(name) <= w - 2 ==> forall|j: int|
                0 <= j < name.len() && j < w - 2 ==> #[trigger] c.rows[y][x + 2 + j].ch == name[j]
        }),
{
    let c = file_drawn(v, x, y, w, h, depth, use_colors, name, size_label);
    let f = block_filled(v, x, y, w, h, shade_spec(depth), depth, use_colors);
    let t = seq!['-', ' '] + truncated(name, w - 2);
    assert(c == text_drawn(f, x, y, t, w, depth, use_colors));
    let n = written_len(f.width - x, w, t.len() as int);
    assert(c == text_painted(f, x, y, t, n, depth, use_colors));
    assert(n >= 2);
    assert(c.rows[y][x] == text_cell(f, x, y, t, n, depth, use_colors, y, x));
    assert(c.rows[y][x + 1] == text_cell(f, x, y, t, n, depth, use_colors, y, x + 1));
    assert forall|j: int| 0 <= j < truncated(name, w - 2).len() && j < w - 2 implies #[trigger] c.rows[y][x + 2 + j].ch
        == truncated(name, w - 2)[j] by {
        assert(c.rows[y][x + 2 + j] == text_cell(f, x, y, t, n, depth, use_colors, y, x + 2 + j));
        assert(t[2 + j] == truncated(name, w - 2)[j]);
    }
}

/// A file in a block 2 to 4 cells wide and lower than 3 cells shows, from
/// the start of the block's first row, its name cut to the block's width in
/// bytes.
pub proof fn lemma_narrow_file_shows_name(
    v: CanvasView,
    x: int,
    y: int,
    w: int,
    h: int,
    depth: usize,
    use_colors: bool,
    name: Seq<char>,
    size_label: Seq<char>,
)
    requires
        canvas_wf(v),
        0 <= x,
        0 <= y < v.height,
        x + w <= v.width,
        2 <= w < 5,
        1 <= h < 3,
    ensures
        ({
            let c = file_drawn(v, x, y, w, h, depth, use_colors, name, size_label);
            let shown = truncated(name, w);
            forall|j: int| 0 <= j < shown.len() && j < w ==> #[trigger] c.rows[y][x + j].ch == shown[j]
        }),
{
    let c = file_drawn(v, x, y, w, h, depth, use_colors, name, size_label);
    let f = block_filled(v, x, y, w, h, shade_spec(depth), depth, use_colors);
    let t = truncated(name, w);
    assert(c == text_drawn(f, x, y, t, w, depth, use_colors));
    let n = written_len(f.width - x, w, t.len() as int);
    assert(c == text_painted(f, x, y, t, n, depth, use_colors));
    assert forall|j: int| 0 <= j < t.len() && j < w implies #[trigger] c.rows[y][x + j].ch == t[j] by {
        assert(c.rows[y][x + j] == text_cell(f, x, y, t, n, depth, use_colors, y, x + j));
    }
}

/// The canvas `v` with the box that stands for free space drawn in the block
/// at `(x, y)` of `w` by `h` cells, in the color of the eighth depth, labelled
/// with the free size written `free_label` where it is wider than 10 cells;
/// nothing where the block is narrower or lower than 3 cells.
pub open spec fn free_box_drawn(v: CanvasView, x: int, y: int, w: int, h: int, use_colors: bool, free_label: Seq<char>) -> CanvasView {
    if w < 3 || h < 3 {
        v
    } else {
        let boxed = box_drawn(v, x, y, w, h, 7, use_colors);
        if w > 10 {
            text_drawn(boxed, x + 2, y + 1, "Free ("@ + free_label + ")"@, w - 4, 7, use_colors)
        } else {
            boxed
        }
    }
}

/// An escape code that switches the terminal to color `ci` of the eight in turn.
pub open spec fn color_code(ci: usize) -> Seq<char> {
    if ci % 8 == 0 {
        "\x1b[38;5;33m"@
    } else if ci % 8 == 1 {
        "\x1b[38;5;46m"@
    } else if ci % 8 == 2 {
        "\x1b[38;5;226m"@
    } else if ci % 8 == 3 {
        "\x1b[38;5;196m"@
    } else if ci % 8 == 4 {
        "\x1b[38;5;165m"@
    } else if ci % 8 == 5 {
        "\x1b[38;5;51m"@
    } else if ci % 8 == 6 {
        "\x1b[38;5;208m"@
    } else {
        "\x1b[38;5;99m"@
    }
}

/// The escape code that switches color off.
pub open spec fn reset_code() -> Seq<char> {
    "\x1b[0m"@
}

/// The escape code for color `ci` of the eight colors, in turn: blue, green,
/// yellow, red, magenta, cyan, orange, purple.
pub fn color_for(ci: usize) -> (s: &'static str)
    ensures
        s@ == color_code(ci),
{
    if ci % 8 == 0 {
        "\x1b[38;5;33m"
    } else if ci % 8 == 1 {
        "\x1b[38;5;46m"
    } else if ci % 8 == 2 {
        "\x1b[38;5;226m"
    } else if ci % 8 == 3 {
        "\x1b[38;5;196m"
    } else if ci % 8 == 4 {
        "\x1b[38;5;165m"
    } else if ci % 8 == 5 {
        "\x1b[38;5;51m"
    } else if ci % 8 == 6 {
        "\x1b[38;5;208m"
    } else {
        "\x1b[38;5;99m"
    }
}

/// The escape code that switches color off.
pub fn reset() -> (s: &'static str)
    ensures
        s@ == reset_code(),
{
    "\x1b[0m"
}

/// The text of a row of cells and the color in force after it, starting
/// without color: where colors are used, an escape code is written wherever
/// the color changes.
pub open spec fn row_text(row: Seq<Cell>, use_colors: bool) -> (Seq<char>, Option<usize>)
    decreases row.len(),
{
    if row.len() == 0 {
        (Seq::empty(), None)
    } else {
        let (t, cur) = row_text(row.drop_last(), use_colors);
        let cell = row.last();
        if use_colors && cell.color_index != cur {
            (
                t + match cell.color_index {
                    Some(ci) => color_code(ci),
                    None => reset_code(),
                } + seq![cell.ch],
                cell.color_index,
            )
        } else {
            (t.push(cell.ch), cur)
        }
    }
}

/// The line a row of cells becomes: its text, color switched off where it is
/// on at the end, and a newline.
pub open spec fn line_text(row: Seq<Cell>, use_colors: bool) -> Seq<char> {
    row_text(row, use_colors).0 + (if use_colors && row_text(row, use_colors).1 is Some {
        reset_code()
    } else {
        Seq::empty()
    }) + seq!['\n']
}

/// The lines of the first `k` rows.
pub open spec fn lines_text(rows: Seq<Seq<Cell>>, use_colors: bool, k: int) -> Seq<char>
    decreases k,
{
    if k <= 0 {
        Seq::empty()
    } else {
        lines_text(rows, use_colors, k - 1) + line_text(rows[k - 1], use_colors)
    }
}

/// Draws a canvas as nested boxes that stand for directories and files.
pub struct TreeMapView {
    width: usize,
    height: usize,
    use_colors: bool,
}

/// The abstract state of a [`TreeMapView`].
pub struct TreeMapSettings {
    pub width: usize,
    pub height: usize,
    pub use_colors: bool,
}

impl View for TreeMapView {
    type V = TreeMapSettings;

    closed spec fn view(&self) -> TreeMapSettings {
        TreeMapSettings { width: self.width, height: self.height, use_colors: self.use_colors }
    }
}

impl Default for TreeMapView {
    /// A view of 120 by 40 cells, in color.
    fn default() -> (v: Self)
        ensures
            v@ == (TreeMapSettings { width: 120, height: 40, use_colors: true }),
    {
        Self::new(120, 40)
    }
}

impl TreeMapView {
    /// A view of `width` by `height` cells, in color.
    pub fn new(width: usize, height: usize) -> (v: Self)
        ensures
            v@ == (TreeMapSettings { width, height, use_colors: true }),
    {
        Self { width, height, use_colors: true }
    }

    /// The same view, in color or not.
    pub fn with_colors(self, use_colors: bool) -> (v: Self)
        ensures
            v@ == (TreeMapSettings { use_colors, ..self@ }),
    {
        let mut s = self;
        s.use_colors = use_colors;
        s
    }

    pub fn width(&self) -> (w: usize)
        ensures
            w == self@.width,
    {
        self.width
    }

    pub fn height(&self) -> (h: usize)
        ensures
            h == self@.height,
    {
        self.height
    }

    pub fn use_colors(&self) -> (b: bool)
        ensures
            b == self@.use_colors,
    {
        self.use_colors
    }

    fn color(&self, depth: usize) -> (ci: Option<usize>)
        ensures
            ci == color_of(self@.use_colors, depth),
    {
        if self.use_colors {
            Some(depth)
        } else {
            None
        }
    }

    /// The escape code of the color for `depth`, or nothing without colors.
    pub fn get_color(&self, depth: usize) -> (s: &'static str)
        ensures
            s@ == (if self@.use_colors { color_code(depth) } else { Seq::empty() }),
    {
        if !self.use_colors {
            proof {
                reveal_strlit("");
            }
            return "";
        }
        color_for(depth)
    }

    /// Writes `text` from `(x, y)` rightwards in the color of `depth`, at most
    /// `max_width` characters and none past the right edge.
    pub fn draw_text(&self, canvas: &mut Canvas, x: usize, y: usize, text: &str, max_width: usize, depth: usize)
        requires
            old(canvas).wf(),
        ensures
            final(canvas).wf(),
            final(canvas)@ == text_drawn(old(canvas)@, x as int, y as int, text@, max_width as int, depth, self@.use_colors),
    {
        let ghost orig = canvas@;
        if y >= canvas.height() || x >= canvas.width() || max_width == 0 {
            return;
        }
        let available_width = canvas.width().saturating_sub(x);
        let write_width = if max_width < available_width { max_width } else { available_width };
        let chars = chars_of(text);
        let n = if write_width < chars.len() { write_width } else { chars.len() };
        let ci = self.color(depth);
        let mut i: usize = 0;
        while i < n
            invariant
                canvas.wf(),
                canvas_wf(orig),
                canvas@.width == orig.width && canvas@.height == orig.height,
                y < orig.height,
                x < orig.width,
                n <= chars@.len(),
                x + n <= orig.width,
                chars@ == text@,
                i <= n,
                ci == color_of(self@.use_colors, depth),
                forall|r: int, c: int|
                    0 <= r < orig.height && 0 <= c < orig.width ==> #[trigger] canvas@.rows[r][c] == if r == y && x <= c < x + i {
                        Cell { ch: chars@[c - x], color_index: ci }
                    } else {
                        orig.rows[r][c]
                    },
            decreases n - i,
        {
            canvas.set(y, x + i, Cell { ch: chars[i], color_index: ci });
            i = i + 1;
        }
        proof {
            let want = text_drawn(orig, x as int, y as int, text@, max_width as int, depth, self@.use_colors);
            assert(n == written_len(orig.width - x, max_width as int, text@.len() as int));
            assert(want == text_painted(orig, x as int, y as int, text@, n as int, depth, self@.use_colors));
            assert forall|r: int, c: int| 0 <= r < orig.height && 0 <= c < orig.width implies #[trigger] canvas@.rows[r][c]
                == want.rows[r][c] by {
            }
            assert(same_cells(canvas@, want));
            lemma_same_cells_eq(canvas@, want);
        }
    }

    /// Shades every blank cell of the block at `(x, y)` of `width` by `height`
    /// cells, in the shade and color of `depth`.
    fn fill_block(&self, canvas: &mut Canvas, x: usize, y: usize, width: usize, height: usize, depth: usize)
        requires
            old(canvas).wf(),
            x + width <= usize::MAX,
            y + height <= usize::MAX,
        ensures
            final(canvas).wf(),
            final(canvas)@ == block_filled(old(canvas)@, x as int, y as int, width as int, height as int, shade_spec(depth), depth, self@.use_colors),
    {
        let ghost orig = canvas@;
        let fill_ch = if depth % 4 == 0 {
            '░'
        } else if depth % 4 == 1 {
            '▒'
        } else if depth % 4 == 2 {
            '▓'
        } else {
            '█'
        };
        let ci = self.color(depth);
        let cell = Cell { ch: fill_ch, color_index: ci };
        let mut row = y;
        while row < y + height
            invariant
                canvas.wf(),
                canvas_wf(orig),
                canvas@.width == orig.width && canvas@.height == orig.height,
                y <= row <= y + height,
                x + width <= usize::MAX,
                y + height <= usize::MAX,
                cell == (Cell { ch: shade_spec(depth), color_index: color_of(self@.use_colors, depth) }),
                forall|r: int, c: int|
                    0 <= r < orig.height && 0 <= c < orig.width ==> #[trigger] canvas@.rows[r][c] == if y <= r < row && x <= c
                        < x + width && orig.rows[r][c].ch == ' ' {
                        cell
                    } else {
                        orig.rows[r][c]
                    },
            decreases y + height - row,
        {
            let mut col = x;
            while col < x + width
                invariant
                    canvas.wf(),
                    canvas_wf(orig),
                    canvas@.width == orig.width && canvas@.height == orig.height,
                    y <= row < y + height,
                    x <= col <= x + width,
                    x + width <= usize::MAX,
                    y + height <= usize::MAX,
                    cell == (Cell { ch: shade_spec(depth), color_index: color_of(self@.use_colors, depth) }),
                    forall|r: int, c: int|
                        0 <= r < orig.height && 0 <= c < orig.width ==> #[trigger] canvas@.rows[r][c] == if ((y <= r < row
                            && x <= c < x + width) || (r == row && x <= c < col)) && orig.rows[r][c].ch == ' ' {
                            cell
                        } else {
                            orig.rows[r][c]
                        },
                decreases x + width - col,
            {
                if row < canvas.height() && col < canvas.width() {
                    if canvas.get(row, col).ch == ' ' {
                        canvas.set(row, col, cell);
                    }
                }
                col = col + 1;
            }
            row = row + 1;
        }
        proof {
            let want = block_filled(orig, x as int, y as int, width as int, height as int, shade_spec(depth), depth, self@.use_colors);
            assert forall|r: int, c: int| 0 <= r < orig.height && 0 <= c < orig.width implies #[trigger] canvas@.rows[r][c]
                == want.rows[r][c] by {
            }
            assert(same_cells(canvas@, want));
            lemma_same_cells_eq(canvas@, want);
        }
    }

    /// Draws the file `name`, of the size written `size_label`, in the block at
    /// `(x, y)` of `width` by `height` cells, see [`file_drawn`].
    pub fn render_file(
        &self,
        canvas: &mut Canvas,
        x: usize,
        y: usize,
        width: usize,
        height: usize,
        depth: usize,
        name: &str,
        size_label: &str,
    )
        requires
            old(canvas).wf(),
            x + width <= usize::MAX,
            y + height <= usize::MAX,
            width >= 5 && height >= 3 ==> old(canvas)@.width > 0 && old(canvas)@.height > 0,
        ensures
            final(canvas).wf(),
            final(canvas)@ == file_drawn(
                old(canvas)@,
                x as int,
                y as int,
                width as int,
                height as int,
                depth,
                self@.use_colors,
                name@,
                size_label@,
            ),
            width >= 5 && 1 <= height < 3 && y < old(canvas)@.height && x + width <= old(canvas)@.width ==> {
                let shown = truncated(name@, width - 2);
                &&& final(canvas)@.rows[y as int][x as int].ch == '-'
                &&& final(canvas)@.rows[y as int][x + 1].ch == ' '
                &&& forall|j: int|
                    0 <= j < shown.len() && j < width - 2 ==> #[trigger] final(canvas)@.rows[y as int][x + 2 + j].ch
                        == shown[j]
            },
    {
        proof {
            if width >= 5 && 1 <= height < 3 && y < old(canvas)@.height && x + width <= old(canvas)@.width {
                lemma_low_file_shows_name(
                    old(canvas)@,
                    x as int,
                    y as int,
                    width as int,
                    height as int,
                    depth,
                    self@.use_colors,
                    name@,
                    size_label@,
                );
            }
        }
        if width < 1 || height < 1 {
            return;
        }
        if width >= 5 && height >= 3 {
            self.draw_box(canvas, x, y, width, height, depth);
            let label_width = width - 4;
            let label = make_sized_label(name, size_label, label_width);
            self.draw_text(canvas, x + 2, y + 1, label.as_str(), label_width, depth);
        } else {
            self.fill_block(canvas, x, y, width, height, depth);
            if width >= 5 {
                let mut label = String::from_str("- ");
                let short = truncate_name(name, width - 2);
                label.append(short.as_str());
                proof {
                    reveal_strlit("- ");
                    assert(label@ =~= seq!['-', ' '] + truncated(name@, width - 2));
                }
                self.draw_text(canvas, x, y, label.as_str(), width, depth);
            } else if width >= 2 {
                let label = truncate_name(name, width);
                self.draw_text(canvas, x, y, label.as_str(), width, depth);
            }
        }
    }

    /// Draws the box that stands for free space, labelled with the free size
    /// written `free_label` where it is wider than 10 cells.
    pub fn draw_free_space_box(&self, canvas: &mut Canvas, x: usize, y: usize, width: usize, height: usize, free_label: &str)
        requires
            old(canvas).wf(),
            width >= 3 && height >= 3 ==> {
                &&& old(canvas)@.width > 0
                &&& old(canvas)@.height > 0
                &&& x + width <= usize::MAX
                &&& y + height <= usize::MAX
            },
        ensures
            final(canvas).wf(),
            final(canvas)@ == free_box_drawn(
                old(canvas)@,
                x as int,
                y as int,
                width as int,
                height as int,
                self@.use_colors,
                free_label@,
            ),
    {
        if width < 3 || height < 3 {
            return;
        }
        let color_idx: usize = 7;
        self.draw_box(canvas, x, y, width, height, color_idx);
        if width > 10 && height > 2 {
            let mut label = String::from_str("Free (");
            label.append(free_label);
            label.append(")");
            let label_width = width.saturating_sub(4);
            self.draw_text(canvas, x + 2, y + 1, label.as_str(), label_width, color_idx);
        }
    }

    /// The text of the canvas: its rows as lines, see [`line_text`].
    pub fn canvas_to_string(&self, canvas: &Canvas) -> (s: String)
        requires
            canvas.wf(),
        ensures
            s@ == lines_text(canvas@.rows, self@.use_colors, canvas@.height as int),
    {
        let mut result = String::new();
        let mut r: usize = 0;
        while r < canvas.height()
            invariant
                canvas.wf(),
                r <= canvas@.height,
                result@ == lines_text(canvas@.rows, self@.use_colors, r as int),
            decreases canvas@.height - r,
        {
            let ghost row = canvas@.rows[r as int];
            let mut current: Option<usize> = None;
            let mut c: usize = 0;
            let ghost start = result@;
            while c < canvas.width()
                invariant
                    canvas.wf(),
                    r < canvas@.height,
                    row == canvas@.rows[r as int],
                    row.len() == canvas@.width,
                    c <= canvas@.width,
                    result@ == start + row_text(row.take(c as int), self@.use_colors).0,
                    current == row_text(row.take(c as int), self@.use_colors).1,
                decreases canvas@.width - c,
            {
                let cell = canvas.get(r, c);
                proof {
                    assert(row.take(c + 1).drop_last() =~= row.take(c as int));
                    assert(row.take(c + 1).last() == cell);
                }
                if self.use_colors && cell.color_index != current {
                    match cell.color_index {
                        Some(ci) => result.append(color_for(ci)),
                        None => result.append(reset()),
                    }
                    current = cell.color_index;
                }
                push_char(&mut result, cell.ch);
                proof {
                    assert(result@ =~= start + row_text(row.take(c + 1), self@.use_colors).0);
                }
                c = c + 1;
            }
            proof {
                assert(row.take(canvas@.width as int) =~= row);
            }
            if self.use_colors && current.is_some() {
                result.append(reset());
            }
            push_char(&mut result, '\n');
            proof {
                assert(result@ =~= lines_text(canvas@.rows, self@.use_colors, r + 1));
            }
            r = r + 1;
        }
        result
    }

    /// Draws the outline of a box at `(x, y)` of `width` by `height` cells, in
    /// the style and color of `depth`; the parts outside the canvas are cut off.
    pub fn draw_box(&self, canvas: &mut Canvas, x: usize, y: usize, width: usize, height: usize, depth: usize)
        requires
            old(canvas).wf(),
            width >= 2 && height >= 2 ==> {
                &&& old(canvas)@.width > 0
                &&& old(canvas)@.height > 0
                &&& x + width <= usize::MAX
                &&& y + height <= usize::MAX
            },
        ensures
            final(canvas).wf(),
            final(canvas)@ == box_drawn(old(canvas)@, x as int, y as int, width as int, height as int, depth, self@.use_colors),
    {
        let ghost orig = canvas@;
        if width < 2 || height < 2 {
            proof {
                lemma_same_cells_eq(canvas@, box_drawn(orig, x as int, y as int, width as int, height as int, depth, self@.use_colors));
            }
            return;
        }
        let (tl, tr, bl, br, hz, vt) = box_style(depth);
        let cw = canvas.width();
        let chh = canvas.height();
        let max_x = if x + width - 1 < cw - 1 { x + width - 1 } else { cw - 1 };
        let max_y = if y + height - 1 < chh - 1 { y + height - 1 } else { chh - 1 };
        let ci = self.color(depth);
        let hcell = Cell { ch: hz, color_index: ci };
        let vcell = Cell { ch: vt, color_index: ci };
        let mut i = x + 1;
        while i < max_x
            invariant
                canvas.wf(),
                canvas@.width == cw && canvas@.height == chh,
                cw == orig.width && chh == orig.height,
                canvas_wf(orig),
                x + 1 <= i,
                i <= max_x || i == x + 1,
                max_y < chh,
                forall|r: int, c: int|
                    0 <= r < chh && 0 <= c < cw ==> #[trigger] canvas@.rows[r][c] == if (r == y || r == max_y) && x < c < i {
                        hcell
                    } else {
                        orig.rows[r][c]
                    },
            decreases max_x - i,
        {
            if y < chh && i < cw {
                canvas.set(y, i, hcell);
            }
            if max_y < chh && i < cw {
                canvas.set(max_y, i, hcell);
            }
            i = i + 1;
        }
        let mut i = y + 1;
        while i < max_y
            invariant
                canvas.wf(),
                canvas@.width == cw && canvas@.height == chh,
                cw == orig.width && chh == orig.height,
                canvas_wf(orig),
                y + 1 <= i,
                i <= max_y || i == y + 1,
                max_x < cw,
                forall|r: int, c: int|
                    0 <= r < chh && 0 <= c < cw ==> #[trigger] canvas@.rows[r][c] == if (r == y || r == max_y) && x < c
                        < max_x {
                        hcell
                    } else if (c == x || c == max_x) && y < r < i {
                        vcell
                    } else {
                        orig.rows[r][c]
                    },
            decreases max_y - i,
        {
            if i < chh && x < cw {
                canvas.set(i, x, vcell);
            }
            if i < chh && max_x < cw {
                canvas.set(i, max_x, vcell);
            }
            i = i + 1;
        }
        if y < chh && x < cw {
            canvas.set(y, x, Cell { ch: tl, color_index: ci });
        }
        if y < chh && max_x < cw {
            canvas.set(y, max_x, Cell { ch: tr, color_index: ci });
        }
        if max_y < chh && x < cw {
            canvas.set(max_y, x, Cell { ch: bl, color_index: ci });
        }
        if max_y < chh && max_x < cw {
            canvas.set(max_y, max_x, Cell { ch: br, color_index: ci });
        }
        proof {
            let want = box_drawn(orig, x as int, y as int, width as int, height as int, depth, self@.use_colors);
            assert forall|r: int, c: int| 0 <= r < chh && 0 <= c < cw implies #[trigger] canvas@.rows[r][c]
                == want.rows[r][c] by {
                assert(want.rows[r][c] == match box_glyph(x as int, y as int, width as int, height as int, depth, cw as int, chh as int, r, c) {
                    Some(g) => Cell { ch: g, color_index: color_of(self@.use_colors, depth) },
                    None => orig.rows[r][c],
                });
            }
            assert(same_cells(canvas@, want));
            lemma_same_cells_eq(canvas@, want);
        }
    }
}

} // verus!
