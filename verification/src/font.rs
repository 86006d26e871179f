use vstd::prelude::*;
use crate::names::{NameMap, NameSet, CodeMap};
use crate::text;

verus! {

/// A single point in a glyph contour.
#[derive(Debug, Clone, Copy, PartialEq, Eq, Structural)]
pub struct Point {
    pub x: i32,
    pub y: i32,
}

/// A closed contour (list of on-curve points, all rectilinear).
#[derive(Debug, Clone)]
pub struct Contour {
    pub points: Vec<Point>,
}

/// Bounding box for a glyph.
#[derive(Debug, Clone, Copy, PartialEq, Eq, Structural)]
pub struct BBox {
    pub x_min: i32,
    pub y_min: i32,
    pub x_max: i32,
    pub y_max: i32,
}

/// Abstract picture of a pixel grid: its dimensions and its cells in row-major order.
pub ghost struct GridView {
    pub width: nat,
    pub height: nat,
    pub cells: Seq<bool>,
}

impl GridView {
    /// The pixel at (`col`, `row`); cells outside the grid read as empty.
    pub open spec fn get(self, col: int, row: int) -> bool {
        if 0 <= col < self.width && 0 <= row < self.height {
            self.cells[row * self.width + col]
        } else {
            false
        }
    }

    pub open spec fn wf(self) -> bool {
        self.cells.len() == self.width * self.height
    }

    pub open spec fn in_grid(self, col: int, row: int) -> bool {
        0 <= col < self.width && 0 <= row < self.height
    }
}

/// `b` is `a` with the pixel at (`col`, `row`) set to `val` (no change when the
/// position lies outside the grid).
pub open spec fn set_at(a: GridView, b: GridView, col: int, row: int, val: bool) -> bool {
    &&& b.width == a.width
    &&& b.height == a.height
    &&& forall|c: int, r: int|
        #[trigger] b.get(c, r) == if c == col && r == row && a.in_grid(col, row) {
            val
        } else {
            a.get(c, r)
        }
}

/// `b` is `a` with the pixel at (`col`, `row`) flipped (no change when the
/// position lies outside the grid).
pub open spec fn toggled_at(a: GridView, b: GridView, col: int, row: int) -> bool {
    set_at(a, b, col, row, !a.get(col, row))
}

/// `b` is `a` turned a quarter turn clockwise: pixel (c, r) of `a` lands on
/// (a.height - 1 - r, c) of `b`.
pub open spec fn rotated_cw(a: GridView, b: GridView) -> bool {
    &&& b.width == a.height
    &&& b.height == a.width
    &&& forall|x: int, y: int|
        0 <= x < b.width && 0 <= y < b.height ==> #[trigger] b.get(x, y) == a.get(
            y,
            a.height - 1 - x,
        )
}

/// Row-major pixel grid for bitmap editing.
#[derive(Debug, Clone)]
pub struct PixelGrid {
    pub width: usize,
    pub height: usize,
    pub data: Vec<bool>,
}

impl View for PixelGrid {
    type V = GridView;

    open spec fn view(&self) -> GridView {
        GridView { width: self.width as nat, height: self.height as nat, cells: self.data@ }
    }
}

/// `row * width + col` addresses a cell inside a `width` x `height` grid.
pub proof fn lemma_cell_index(col: int, row: int, width: int, height: int)
    requires
        0 <= col < width,
        0 <= row < height,
    ensures
        0 <= row * width + col < width * height,
        row * width <= row * width + col,
{
    assert(0 <= row * width + col < width * height) by (nonlinear_arith)
        requires
            0 <= col < width,
            0 <= row < height,
    ;
}

/// Distinct in-range cells have distinct row-major indices.
pub proof fn lemma_cell_index_injective(c1: int, r1: int, c2: int, r2: int, width: int)
    requires
        0 <= c1 < width,
        0 <= c2 < width,
        r1 * width + c1 == r2 * width + c2,
    ensures
        c1 == c2,
        r1 == r2,
{
    if r1 < r2 {
        assert(r1 * width + width <= r2 * width) by (nonlinear_arith)
            requires
                r1 < r2,
                0 < width,
        ;
    } else if r2 < r1 {
        assert(r2 * width + width <= r1 * width) by (nonlinear_arith)
            requires
                r2 < r1,
                0 < width,
        ;
    }
}

/// Every index of a `width` x `height` grid is the index of some in-range cell.
pub proof fn lemma_index_cell(i: int, width: int, height: int)
    requires
        0 <= i < width * height,
        height >= 0,
    ensures
        0 <= i % width < width,
        0 <= i / width < height,
        i == (i / width) * width + i % width,
{
    assert(width > 0) by (nonlinear_arith)
        requires
            0 <= i < width * height,
            height >= 0,
    ;
    vstd::arithmetic::div_mod::lemma_fundamental_div_mod(i, width);
    vstd::arithmetic::div_mod::lemma_mod_pos_bound(i, width);
    let q = i / width;
    let m = i % width;
    assert(i == q * width + m) by (nonlinear_arith)
        requires
            i == width * q + m,
    ;
    assert(q < height) by (nonlinear_arith)
        requires
            i == q * width + m,
            0 <= m < width,
            i < width * height,
            width > 0,
    ;
    assert(q >= 0) by (nonlinear_arith)
        requires
            i == q * width + m,
            0 <= m < width,
            0 <= i,
            width > 0,
    ;
}

/// Two well-formed views with the same dimensions and the same pixels are equal.
pub proof fn lemma_view_ext(a: GridView, b: GridView)
    requires
        a.wf(),
        b.wf(),
        a.width == b.width,
        a.height == b.height,
        forall|c: int, r: int| 0 <= c < a.width && 0 <= r < a.height ==> a.get(c, r) == b.get(c, r),
    ensures
        a == b,
{
    assert forall|i: int| 0 <= i < a.cells.len() implies a.cells[i] == b.cells[i] by {
        lemma_index_cell(i, a.width as int, a.height as int);
        let c = i % (a.width as int);
        let r = i / (a.width as int);
        assert(a.get(c, r) == b.get(c, r));
    }
    assert(a.cells =~= b.cells);
}

impl PixelGrid {
    pub open spec fn wf(&self) -> bool {
        &&& self@.wf()
        &&& self.width * self.height <= usize::MAX
    }

    /// An empty grid of the given size.
    pub fn new(width: usize, height: usize) -> (g: Self)
        requires
            width * height <= usize::MAX,
        ensures
            g.wf(),
            g.width == width,
            g.height == height,
            forall|c: int, r: int| !#[trigger] g@.get(c, r),
    {
        let n = width * height;
        let mut data: Vec<bool> = Vec::new();
        let mut i: usize = 0;
        while i < n
            invariant
                i <= n,
                data@.len() == i,
                forall|j: int| 0 <= j < i ==> !data@[j],
            decreases n - i,
        {
            data.push(false);
            i = i + 1;
        }
        let g = PixelGrid { width, height, data };
        assert forall|c: int, r: int| !#[trigger] g@.get(c, r) by {
            if 0 <= c < width && 0 <= r < height {
                lemma_cell_index(c, r, width as int, height as int);
            }
        }
        g
    }

    /// The pixel at (`col`, `row`); `false` outside the grid.
    pub fn get(&self, col: usize, row: usize) -> (b: bool)
        requires
            self.wf(),
        ensures
            b == self@.get(col as int, row as int),
    {
        if col < self.width && row < self.height {
            proof {
                lemma_cell_index(col as int, row as int, self.width as int, self.height as int);
            }
            self.data[row * self.width + col]
        } else {
            false
        }
    }

    /// Sets the pixel at (`col`, `row`); does nothing outside the grid.
    pub fn set(&mut self, col: usize, row: usize, val: bool)
        requires
            old(self).wf(),
        ensures
            final(self).wf(),
            final(self).width == old(self).width,
            final(self).height == old(self).height,
            set_at(old(self)@, final(self)@, col as int, row as int, val),
    {
        if col < self.width && row < self.height {
            proof {
                lemma_cell_index(col as int, row as int, self.width as int, self.height as int);
            }
            let idx = row * self.width + col;
            self.data.set(idx, val);
            proof {
                assert forall|c: int, r: int|
                    #[trigger] self@.get(c, r) == if c == col && r == row {
                        val
                    } else {
                        old(self)@.get(c, r)
                    } by {
                    if 0 <= c < self.width && 0 <= r < self.height {
                        lemma_cell_index(c, r, self.width as int, self.height as int);
                        if r * self.width + c == idx {
                            lemma_cell_index_injective(c, r, col as int, row as int, self.width as int);
                        }
                    }
                }
            }
        }
    }

    /// Flips the pixel at (`col`, `row`); does nothing outside the grid.
    pub fn toggle(&mut self, col: usize, row: usize)
        requires
            old(self).wf(),
        ensures
            final(self).wf(),
            final(self).width == old(self).width,
            final(self).height == old(self).height,
            toggled_at(old(self)@, final(self)@, col as int, row as int),
    {
        if col < self.width && row < self.height {
            let cur = self.get(col, row);
            self.set(col, row, !cur);
        } else {
            assert(set_at(old(self)@, self@, col as int, row as int, !old(self)@.get(col as int, row as int)));
        }
    }

    /// A copy of the grid.
    pub fn duplicate(&self) -> (g: Self)
        ensures
            g@ == self@,
            g.width == self.width,
            g.height == self.height,
            g.data@ == self.data@,
    {
        let mut data: Vec<bool> = Vec::new();
        let mut i: usize = 0;
        while i < self.data.len()
            invariant
                i <= self.data@.len(),
                data@ == self.data@.subrange(0, i as int),
            decreases self.data@.len() - i,
        {
            data.push(self.data[i]);
            proof {
                assert(data@ =~= self.data@.subrange(0, i + 1));
            }
            i = i + 1;
        }
        assert(data@ =~= self.data@);
        PixelGrid { width: self.width, height: self.height, data }
    }

    /// Rotate 90° clockwise. New dimensions: width=old height, height=old width.
    /// Original (c, r) maps to new (height-1-r, c).
    pub fn rotate_cw(&self) -> (out: Self)
        requires
            self.wf(),
        ensures
            out.wf(),
            rotated_cw(self@, out@),
    {
        let new_w = self.height;
        let new_h = self.width;
        proof {
            vstd::arithmetic::mul::lemma_mul_is_commutative(self.width as int, self.height as int);
        }
        let mut out = PixelGrid::new(new_w, new_h);
        let mut r: usize = 0;
        while r < self.height
            invariant
                self.wf(),
                out.wf(),
                out.width == self.height,
                out.height == self.width,
                r <= self.height,
                forall|x: int, y: int|
                    0 <= x < out.width && 0 <= y < out.height ==> #[trigger] out@.get(x, y) == (
                    self.height - 1 - x < r && self@.get(y, self.height - 1 - x)),
            decreases self.height - r,
        {
            let mut c: usize = 0;
            while c < self.width
                invariant
                    self.wf(),
                    out.wf(),
                    out.width == self.height,
                    out.height == self.width,
                    r < self.height,
                    c <= self.width,
                    forall|x: int, y: int|
                        0 <= x < out.width && 0 <= y < out.height ==> #[trigger] out@.get(x, y) == ((
                        self.height - 1 - x < r || (self.height - 1 - x == r && y < c)) && self@.get(
                            y,
                            self.height - 1 - x,
                        )),
                decreases self.width - c,
            {
                if self.get(c, r) {
                    out.set(self.height - 1 - r, c, true);
                }
                c = c + 1;
            }
            r = r + 1;
        }
        out
    }
}

/// Setting a pixel and reading it back gives the value set; other pixels keep
/// their values.
pub proof fn law_get_after_set(a: GridView, b: GridView, col: int, row: int, val: bool, c: int, r: int)
    requires
        set_at(a, b, col, row, val),
        a.in_grid(col, row),
    ensures
        b.get(col, row) == val,
        (c != col || r != row) ==> b.get(c, r) == a.get(c, r),
{
    assert(b.get(col, row) == val);
    assert(b.get(c, r) == if c == col && r == row && a.in_grid(col, row) { val } else { a.get(c, r) });
}

/// Toggling the same pixel twice restores the grid.
pub proof fn law_toggle_twice(a: GridView, b: GridView, d: GridView, col: int, row: int)
    requires
        a.wf(),
        b.wf(),
        d.wf(),
        toggled_at(a, b, col, row),
        toggled_at(b, d, col, row),
    ensures
        d == a,
{
    assert forall|c: int, r: int| 0 <= c < a.width && 0 <= r < a.height implies a.get(c, r) == d.get(c, r) by {
        assert(b.get(c, r) == if c == col && r == row && a.in_grid(col, row) { !a.get(col, row) } else { a.get(c, r) });
        assert(d.get(c, r) == if c == col && r == row && b.in_grid(col, row) { !b.get(col, row) } else { b.get(c, r) });
        assert(b.get(col, row) == if a.in_grid(col, row) { !a.get(col, row) } else { a.get(col, row) });
    }
    lemma_view_ext(a, d);
}

/// `b` is `a` with every pixel of `layer`, shifted down by `off_row` rows and
/// right by `off_col` columns, OR-ed onto it (pixels falling outside `a` are
/// dropped).
pub open spec fn stamped(a: GridView, b: GridView, layer: GridView, off_row: int, off_col: int) -> bool {
    &&& b.width == a.width
    &&& b.height == a.height
    &&& forall|x: int, y: int|
        #[trigger] b.get(x, y) == (a.get(x, y) || (a.in_grid(x, y) && layer.get(x - off_col, y - off_row)))
}

/// ORs the filled pixels of `layer`, shifted by the offsets, onto `canvas`,
/// only within its bounds.
pub fn stamp(canvas: &mut PixelGrid, layer: &PixelGrid, off_row: i32, off_col: i32)
    requires
        old(canvas).wf(),
        layer.wf(),
        old(canvas).width <= i32::MAX,
        old(canvas).height <= i32::MAX,
        layer.width <= i32::MAX,
        layer.height <= i32::MAX,
        off_row + layer.height <= i32::MAX,
        off_col + layer.width <= i32::MAX,
    ensures
        final(canvas).wf(),
        stamped(old(canvas)@, final(canvas)@, layer@, off_row as int, off_col as int),
{
    let ghost a = canvas@;
    let mut r: usize = 0;
    while r < layer.height
        invariant
            layer.wf(),
            canvas.wf(),
            canvas.width == a.width,
            canvas.height == a.height,
            canvas.width <= i32::MAX,
            canvas.height <= i32::MAX,
            layer.width <= i32::MAX,
            layer.height <= i32::MAX,
            off_row + layer.height <= i32::MAX,
            off_col + layer.width <= i32::MAX,
            r <= layer.height,
            forall|x: int, y: int|
                #[trigger] canvas@.get(x, y) == (a.get(x, y) || (a.in_grid(x, y) && y - off_row < r
                    && layer@.get(x - off_col, y - off_row))),
        decreases layer.height - r,
    {
        let mut c: usize = 0;
        while c < layer.width
            invariant
                layer.wf(),
                canvas.wf(),
                canvas.width == a.width,
                canvas.height == a.height,
                canvas.width <= i32::MAX,
                canvas.height <= i32::MAX,
                layer.width <= i32::MAX,
                layer.height <= i32::MAX,
                off_row + layer.height <= i32::MAX,
                off_col + layer.width <= i32::MAX,
                r < layer.height,
                c <= layer.width,
                forall|x: int, y: int|
                    #[trigger] canvas@.get(x, y) == (a.get(x, y) || (a.in_grid(x, y) && (y - off_row
                        < r || (y - off_row == r && x - off_col < c)) && layer@.get(
                        x - off_col,
                        y - off_row,
                    ))),
            decreases layer.width - c,
        {
            if layer.get(c, r) {
                let cr = r as i32 + off_row;
                let cc = c as i32 + off_col;
                if cr >= 0 && cr < canvas.height as i32 && cc >= 0 && cc < canvas.width as i32 {
                    canvas.set(cc as usize, cr as usize, true);
                }
            }
            c = c + 1;
        }
        r = r + 1;
    }
}

/// Four quarter turns clockwise give the original grid back.
pub proof fn law_rotate_four_times(g0: GridView, g1: GridView, g2: GridView, g3: GridView, g4: GridView)
    requires
        g0.wf(),
        g4.wf(),
        rotated_cw(g0, g1),
        rotated_cw(g1, g2),
        rotated_cw(g2, g3),
        rotated_cw(g3, g4),
    ensures
        g4 == g0,
{
    assert forall|c: int, r: int| 0 <= c < g0.width && 0 <= r < g0.height implies g0.get(c, r) == g4.get(c, r) by {
        let h = g0.height as int;
        let w = g0.width as int;
        assert(g4.get(c, r) == g3.get(r, w - 1 - c));
        assert(g3.get(r, w - 1 - c) == g2.get(w - 1 - c, h - 1 - r));
        assert(g2.get(w - 1 - c, h - 1 - r) == g1.get(h - 1 - r, c));
        assert(g1.get(h - 1 - r, c) == g0.get(c, r));
    }
    lemma_view_ext(g0, g4);
}


/// Horizontal metrics for a glyph.
#[derive(Debug, Clone, Copy, PartialEq, Eq, Structural)]
pub struct HmtxEntry {
    pub width: i32,
    pub lsb: i32,
}

/// A single glyph with both contour and pixel representations.
#[derive(Debug)]
pub struct Glyph {
    pub name: String,
    pub pixels: PixelGrid,
    pub contours: Vec<Contour>,
    pub width: i32,
    pub lsb: i32,
    pub bbox: Option<BBox>,
}

/// A GSUB ligature rule: first_glyph + components -> result_glyph.
#[derive(Debug)]
pub struct LigatureRule {
    pub first_glyph: String,
    pub components: Vec<String>,
    pub result_glyph: String,
}

/// The text a glyph name stands for in a trigger: the character of its first
/// Unicode mapping when there is one that is a scalar value, else the name.
pub open spec fn trigger_piece(name: Seq<char>, cmap_reverse: Map<Seq<char>, Vec<u32>>) -> Seq<char> {
    if cmap_reverse.contains_key(name) && cmap_reverse[name]@.len() > 0 && text::scalar(
        cmap_reverse[name]@[0],
    ) {
        seq![cmap_reverse[name]@[0] as char]
    } else {
        name
    }
}

/// The trigger pieces of the names `names[0..k]`, concatenated.
pub open spec fn trigger_of(names: Seq<Seq<char>>, cmap_reverse: Map<Seq<char>, Vec<u32>>, k: int) -> Seq<char>
    decreases k,
{
    if k <= 0 {
        seq![]
    } else {
        trigger_of(names, cmap_reverse, k - 1) + trigger_piece(names[k - 1], cmap_reverse)
    }
}

impl LigatureRule {
    /// The glyph names of the rule in order: the first glyph, then the components.
    pub open spec fn names(&self) -> Seq<Seq<char>> {
        seq![self.first_glyph@] + self.components@.map_values(|c: String| c@)
    }

    /// Return the trigger string for display (e.g., "->", "<=").
    pub fn trigger_text(&self, cmap_reverse: &NameMap<Vec<u32>>) -> (t: String)
        requires
            cmap_reverse.wf(),
        ensures
            t@ == trigger_of(self.names(), cmap_reverse@, self.names().len() as int),
    {
        let ghost names = self.names();
        let mut out: Vec<char> = Vec::new();
        push_trigger_piece(&mut out, &self.first_glyph, cmap_reverse);
        proof {
            assert(names[0] == self.first_glyph@);
            assert(trigger_of(names, cmap_reverse@, 0) == Seq::<char>::empty());
            assert(out@ =~= trigger_of(names, cmap_reverse@, 1));
        }
        let mut i: usize = 0;
        while i < self.components.len()
            invariant
                cmap_reverse.wf(),
                names == self.names(),
                names.len() == self.components@.len() + 1,
                i <= self.components@.len(),
                out@ == trigger_of(names, cmap_reverse@, i + 1),
            decreases self.components@.len() - i,
        {
            push_trigger_piece(&mut out, &self.components[i], cmap_reverse);
            proof {
                assert(names[i + 1] == self.components@[i as int]@);
            }
            i = i + 1;
        }
        text::string_of(&out)
    }
}

/// Appends the trigger piece of glyph `name`.
fn push_trigger_piece(out: &mut Vec<char>, name: &String, cmap_reverse: &NameMap<Vec<u32>>)
    requires
        cmap_reverse.wf(),
    ensures
        final(out)@ == old(out)@ + trigger_piece(name@, cmap_reverse@),
{
    let mut piece: Option<char> = None;
    match cmap_reverse.get(name) {
        Some(codes) => {
            if codes.len() > 0 {
                piece = text::char_from_u32(codes[0]);
            }
        },
        None => {},
    }
    match piece {
        Some(c) => {
            out.push(c);
            proof {
                vstd::utf8::char_u32_cast(c, cmap_reverse@[name@]@[0]);
                assert(out@ =~= old(out)@ + seq![c]);
            }
        },
        None => {
            let chars = text::chars_of(name.as_str());
            text::append(out, &chars);
        },
    }
}

/// A preprocessor directive line preserved for round-trip save.
#[derive(Debug)]
pub struct PreprocessorLine {
    pub line_number: usize,
    pub content: String,
}

/// Line range in the source file (1-based, inclusive).
#[derive(Debug, Clone, Copy, PartialEq, Eq, Structural)]
pub struct LineRange {
    pub start: usize,
    pub end: usize,
}

/// A glyph whose pixel grid is well formed and small enough for every corner
/// to have font coordinates in `i32`.
pub open spec fn glyph_ok(g: Glyph, ascent: int) -> bool {
    &&& g.pixels.wf()
    &&& crate::grid::grid_fits(g.pixels@, ascent)
}

/// The two glyphs agree on everything but their pixels.
pub open spec fn same_meta(a: Glyph, b: Glyph) -> bool {
    &&& a.name == b.name
    &&& a.contours == b.contours
    &&& a.width == b.width
    &&& a.lsb == b.lsb
    &&& a.bbox == b.bbox
}

/// The two fonts agree on everything but their glyphs and dirty set.
pub open spec fn same_tables(a: Font, b: Font) -> bool {
    &&& a.glyph_order == b.glyph_order
    &&& a.cmap == b.cmap
    &&& a.cmap_reverse == b.cmap_reverse
    &&& a.hmtx == b.hmtx
    &&& a.ligatures == b.ligatures
    &&& a.units_per_em == b.units_per_em
    &&& a.ascent == b.ascent
    &&& a.descent == b.descent
    &&& a.source_lines == b.source_lines
    &&& a.preprocessor_lines == b.preprocessor_lines
    &&& a.glyph_order_range == b.glyph_order_range
    &&& a.hmtx_range == b.hmtx_range
    &&& a.glyf_ranges == b.glyf_ranges
    &&& a.glyf_section_end == b.glyf_section_end
    &&& a.gsub_lookup5_range == b.gsub_lookup5_range
    &&& a.cmap_format4_range == b.cmap_format4_range
}

/// `b`'s glyphs are `a`'s with only the pixels of glyph `n` changed.
pub open spec fn pixels_replaced(a: Font, b: Font, n: Seq<char>) -> bool {
    &&& same_tables(a, b)
    &&& b.glyphs@.dom() == a.glyphs@.dom()
    &&& a.glyphs@.contains_key(n)
    &&& same_meta(a.glyphs@[n], b.glyphs@[n])
    &&& forall|k: Seq<char>| #[trigger] a.glyphs@.contains_key(k) && k != n ==> b.glyphs@[k] == a.glyphs@[k]
}

/// The complete parsed font.
pub struct Font {
    pub glyph_order: Vec<String>,
    pub glyphs: NameMap<Glyph>,
    pub cmap: CodeMap,
    pub cmap_reverse: NameMap<Vec<u32>>,
    pub hmtx: NameMap<HmtxEntry>,
    pub ligatures: Vec<LigatureRule>,
    pub units_per_em: i32,
    pub ascent: i32,
    pub descent: i32,
    pub dirty: NameSet,
    pub source_lines: Vec<String>,
    pub preprocessor_lines: Vec<PreprocessorLine>,
    // Line ranges for surgical save
    pub glyph_order_range: Option<LineRange>,
    pub hmtx_range: Option<LineRange>,
    pub glyf_ranges: NameMap<LineRange>,
    pub glyf_section_end: Option<usize>,
    pub gsub_lookup5_range: Option<LineRange>,
    pub cmap_format4_range: Option<LineRange>,
}

spec fn map_of_old_insert(e: Seq<(String, Glyph)>, k: Seq<char>, g: Glyph) -> Map<Seq<char>, Glyph> {
    crate::names::map_of(e).insert(k, g)
}

/// `(d / 10) as usize` with Rust's truncating division and wrapping cast.
pub open spec fn cells_of(d: int) -> usize {
    (if d >= 0 {
        d / 10
    } else {
        -((-d) / 10)
    }) as usize
}

/// The code points mapped to each glyph name, as plain sequences.
pub open spec fn codes_view(rev: Map<Seq<char>, Vec<u32>>) -> Map<Seq<char>, Seq<u32>> {
    rev.map_values(|v: Vec<u32>| v@)
}

/// The code-point map and the reverse map agree: each mapped code point is
/// listed under the name it maps to, and each listed code point is mapped.
pub open spec fn cmap_agrees(cmap: Map<u32, Seq<char>>, rev: Map<Seq<char>, Seq<u32>>) -> bool {
    &&& forall|cp: u32| #[trigger] cmap.contains_key(cp) ==> rev.contains_key(cmap[cp]) && rev[cmap[cp]].contains(cp)
    &&& forall|n: Seq<char>, i: int|
        rev.contains_key(n) && 0 <= i < rev[n].len() ==> cmap.contains_key(#[trigger] rev[n][i])
}

/// Mapping `code` to `n` (listing it under `n` too) keeps the maps in
/// agreement.
pub proof fn lemma_agrees_insert(cmap: Map<u32, Seq<char>>, rev: Map<Seq<char>, Seq<u32>>, code: u32, n: Seq<char>)
    requires
        cmap_agrees(cmap, rev),
    ensures
        cmap_agrees(
            cmap.insert(code, n),
            rev.insert(
                n,
                if rev.contains_key(n) {
                    rev[n].push(code)
                } else {
                    seq![code]
                },
            ),
        ),
{
    let c2 = cmap.insert(code, n);
    let l = if rev.contains_key(n) { rev[n].push(code) } else { seq![code] };
    let r2 = rev.insert(n, l);
    assert(l[l.len() - 1] == code);
    assert forall|cp: u32| #[trigger] c2.contains_key(cp) implies r2.contains_key(c2[cp]) && r2[c2[cp]].contains(cp) by {
        if cp != code {
            let m = cmap[cp];
            assert(rev.contains_key(m) && rev[m].contains(cp));
            if m == n {
                let i = choose|i: int| 0 <= i < rev[n].len() && rev[n][i] == cp;
                assert(l[i] == cp);
            }
        }
    }
    assert forall|m: Seq<char>, i: int| r2.contains_key(m) && 0 <= i < r2[m].len() implies c2.contains_key(
        #[trigger] r2[m][i],
    ) by {
        if m == n {
            if i < l.len() - 1 {
                assert(rev.contains_key(n));
                assert(l[i] == rev[n][i]);
            }
        } else {
            assert(rev.contains_key(m));
        }
    }
}

impl Font {
    pub open spec fn wf(&self) -> bool {
        &&& self.glyphs.wf()
        &&& self.cmap.wf()
        &&& self.cmap_reverse.wf()
        &&& self.hmtx.wf()
        &&& self.dirty.wf()
        &&& self.glyf_ranges.wf()
        &&& forall|k: Seq<char>| #[trigger] self.glyf_ranges@.contains_key(k) ==> self.glyf_ranges@[k].start
            <= self.glyf_ranges@[k].end
        &&& forall|k: Seq<char>|
            #[trigger] self.glyphs@.contains_key(k) ==> glyph_ok(self.glyphs@[k], self.ascent as int)
        &&& cmap_agrees(self.cmap@, codes_view(self.cmap_reverse@))
    }

    pub fn new() -> (f: Self)
        ensures
            f.wf(),
            f.glyph_order@.len() == 0,
            f.glyphs@ == Map::<Seq<char>, Glyph>::empty(),
            f.cmap@ == Map::<u32, Seq<char>>::empty(),
            f.cmap_reverse@ == Map::<Seq<char>, Vec<u32>>::empty(),
            f.hmtx@ == Map::<Seq<char>, HmtxEntry>::empty(),
            f.ligatures@.len() == 0,
            f.units_per_em == 160,
            f.ascent == 130,
            f.descent == -30,
            f.dirty@ == Set::<Seq<char>>::empty(),
            f.source_lines@.len() == 0,
            f.preprocessor_lines@.len() == 0,
            f.glyph_order_range is None,
            f.hmtx_range is None,
            f.glyf_ranges@ == Map::<Seq<char>, LineRange>::empty(),
            f.glyf_section_end is None,
            f.gsub_lookup5_range is None,
            f.cmap_format4_range is None,
    {
        Font {
            glyph_order: Vec::new(),
            glyphs: NameMap::new(),
            cmap: CodeMap::new(),
            cmap_reverse: NameMap::new(),
            hmtx: NameMap::new(),
            ligatures: Vec::new(),
            units_per_em: 160,
            ascent: 130,
            descent: -30,
            dirty: NameSet::new(),
            source_lines: Vec::new(),
            preprocessor_lines: Vec::new(),
            glyph_order_range: None,
            hmtx_range: None,
            glyf_ranges: NameMap::new(),
            glyf_section_end: None,
            gsub_lookup5_range: None,
            cmap_format4_range: None,
        }
    }

    /// Replaces the pixels of the glyph in entry `i` of the glyph table,
    /// returning the previous pixels.
    pub fn set_glyph_pixels(&mut self, i: usize, pixels: PixelGrid) -> (prev: PixelGrid)
        requires
            old(self).wf(),
            i < old(self).glyphs.entries@.len(),
            pixels.wf(),
            crate::grid::grid_fits(pixels@, old(self).ascent as int),
        ensures
            final(self).wf(),
            pixels_replaced(*old(self), *final(self), old(self).glyphs.entries@[i as int].0@),
            final(self).glyphs@[old(self).glyphs.entries@[i as int].0@].pixels == pixels,
            prev == old(self).glyphs@[old(self).glyphs.entries@[i as int].0@].pixels,
            final(self).dirty == old(self).dirty,
    {
        let ghost e = self.glyphs.entries@;
        proof {
            crate::names::lemma_map_of_at(e, i as int);
        }
        let mut p = pixels;
        let g = self.glyphs.value_mut(i);
        std::mem::swap(&mut g.pixels, &mut p);
        proof {
            let k = e[i as int].0@;
            let ng = self.glyphs.entries@[i as int].1;
            crate::names::lemma_map_of_update(e, i as int, ng);
            assert(self.glyphs@ == map_of_old_insert(e, k, ng));
            assert forall|kk: Seq<char>| #[trigger] self.glyphs@.contains_key(kk) implies glyph_ok(
                self.glyphs@[kk],
                self.ascent as int,
            ) by {
                if kk != k {
                    assert(old(self).glyphs@.contains_key(kk));
                }
            }
            assert(self.glyphs@.dom() =~= old(self).glyphs@.dom());
        }
        p
    }

    /// Get the pixel grid height (always 16 for this font).
    pub fn grid_height(&self) -> (h: usize)
        requires
            i32::MIN <= self.ascent - self.descent <= i32::MAX,
        ensures
            h == cells_of(self.ascent - self.descent),
    {
        ((self.ascent - self.descent) / 10) as usize
    }

    /// Get the pixel grid width for a given advance width.
    pub fn grid_width(&self, advance_width: i32) -> (w: usize)
        ensures
            w == cells_of(advance_width as int),
    {
        (advance_width / 10) as usize
    }

    /// Look up a glyph name by Unicode codepoint.
    pub fn glyph_for_codepoint(&self, cp: u32) -> (r: Option<&str>)
        requires
            self.cmap.wf(),
        ensures
            match r {
                Some(s) => self.cmap@.contains_key(cp) && s@ == self.cmap@[cp],
                None => !self.cmap@.contains_key(cp),
            },
    {
        match self.cmap.get(cp) {
            Some(s) => Some(s.as_str()),
            None => None,
        }
    }

    /// The glyph names, in glyph order, that have a Unicode mapping.
    pub fn unicode_glyph_names(&self) -> (names: Vec<&str>)
        requires
            self.cmap_reverse.wf(),
        ensures
            names@.map_values(|s: &str| s@) == self.glyph_order@.map_values(|s: String| s@).filter(
                |n: Seq<char>| self.cmap_reverse@.contains_key(n),
            ),
    {
        let ghost order = self.glyph_order@.map_values(|s: String| s@);
        let ghost keep = |n: Seq<char>| self.cmap_reverse@.contains_key(n);
        let mut names: Vec<&str> = Vec::new();
        let mut i: usize = 0;
        while i < self.glyph_order.len()
            invariant
                self.cmap_reverse.wf(),
                i <= self.glyph_order@.len(),
                order == self.glyph_order@.map_values(|s: String| s@),
                keep == (|n: Seq<char>| self.cmap_reverse@.contains_key(n)),
                names@.map_values(|s: &str| s@) == order.take(i as int).filter(keep),
            decreases self.glyph_order@.len() - i,
        {
            proof {
                assert(order.take(i + 1).drop_last() =~= order.take(i as int));
                reveal_with_fuel(Seq::filter, 1);
            }
            if self.cmap_reverse.contains_key(&self.glyph_order[i]) {
                names.push(self.glyph_order[i].as_str());
                proof {
                    assert(names@.map_values(|s: &str| s@) =~= order.take(i as int).filter(keep).push(
                        order[i as int],
                    ));
                }
            }
            i = i + 1;
        }
        proof {
            assert(order.take(self.glyph_order@.len() as int) =~= order);
        }
        names
    }
}

} // verus!
