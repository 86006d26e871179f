use vstd::prelude::*;
use crate::font::{Font, cells_of, Glyph, LigatureRule, PixelGrid, GridView, HmtxEntry, Contour, glyph_ok, same_meta, same_tables, pixels_replaced, trigger_of};
use crate::grid::grid_fits;
use crate::names::{lemma_map_of_update, lemma_map_of_at};
use crate::text;
use crate::text::views;
use crate::ui::status::StatusMessage;

verus! {

#[derive(Debug, Clone, Copy, PartialEq, Eq, Structural)]
pub enum Mode {
    GlyphEdit,
    LigatureEdit,
    Search,
    Confirm,
}

#[derive(Debug, Clone, Copy, PartialEq, Eq, Structural)]
pub enum SearchTarget {
    Glyph,
    Ligature,
}

#[derive(Debug, Clone, Copy, PartialEq, Eq, Structural)]
pub enum FloatingOp {
    Paste,
    Move,
}

/// Pixels lifted off (move) or pasted onto (paste) a glyph, floating at an
/// offset until they are committed or the operation is cancelled.
pub struct FloatingState {
    pub op: FloatingOp,
    pub pixels: PixelGrid,
    pub offset_row: i32,
    pub offset_col: i32,
    pub original_pixels: PixelGrid,
    pub glyph_name: String,
}

pub struct App {
    pub font: Font,
    pub file_path: String,
    pub mode: Mode,
    pub prev_mode: Mode,
    pub search_target: SearchTarget,
    pub should_quit: bool,
    // Glyph navigation
    pub glyph_index: usize,
    pub cursor_row: usize,
    pub cursor_col: usize,
    // Ligature navigation
    pub ligature_index: usize,
    // Search state
    pub search_input: String,
    pub search_results: Vec<String>,
    pub search_result_names: Vec<String>,
    pub search_selected: usize,
    // Clipboard & floating overlay
    pub clipboard: Option<PixelGrid>,
    pub floating: Option<FloatingState>,
    // Status
    pub status_message: Option<StatusMessage>,
}

/// A well-formed grid whose sides fit comfortably in `i32` font units.
pub open spec fn grid_small(g: PixelGrid) -> bool {
    &&& g.wf()
    &&& g.width * 10 <= i32::MAX
    &&& g.height * 10 <= i32::MAX
}

/// `v` limited to the last index of a side of `dim` cells (0 for an empty side),
/// as `v.min(dim.saturating_sub(1))`.
pub open spec fn clamp_to(v: usize, dim: usize) -> usize {
    if dim == 0 {
        0
    } else if v < dim - 1 {
        v
    } else {
        (dim - 1) as usize
    }
}

/// The first index of `order` whose name is mapped to a code point of at least
/// 0x20 (skipping `.notdef` and control characters), or 0.
pub open spec fn first_printable(order: Seq<String>, cmap_reverse: Map<Seq<char>, Vec<u32>>) -> usize {
    if exists|i: int| 0 <= i < order.len() && #[trigger] printable_at(order, cmap_reverse, i) {
        (choose|i: int|
            0 <= i < order.len() && #[trigger] printable_at(order, cmap_reverse, i) && forall|j: int|
                0 <= j < i ==> !printable_at(order, cmap_reverse, j)) as usize
    } else {
        0
    }
}

pub open spec fn printable_at(order: Seq<String>, cmap_reverse: Map<Seq<char>, Vec<u32>>, i: int) -> bool {
    cmap_reverse.contains_key(order[i]@) && exists|k: int|
        0 <= k < cmap_reverse[order[i]@]@.len() && #[trigger] cmap_reverse[order[i]@]@[k] >= 0x20
}

impl App {
    pub open spec fn wf(&self) -> bool {
        &&& self.font.wf()
        &&& (self.clipboard matches Some(c) ==> grid_small(c))
        &&& (self.floating matches Some(f) ==> grid_small(f.pixels) && f.original_pixels.wf()
            && grid_fits(f.original_pixels@, self.font.ascent as int))
    }

    /// Name of the glyph at `glyph_index` in glyph order.
    pub open spec fn current_name(&self) -> Option<Seq<char>> {
        if self.glyph_index < self.font.glyph_order@.len() {
            Some(self.font.glyph_order@[self.glyph_index as int]@)
        } else {
            None
        }
    }

    /// The glyph at `glyph_index`, when it exists.
    pub open spec fn current_glyph_spec(&self) -> Option<Glyph> {
        match self.current_name() {
            Some(n) => if self.font.glyphs@.contains_key(n) {
                Some(self.font.glyphs@[n])
            } else {
                None
            },
            None => None,
        }
    }

    /// The ligature at `ligature_index`, when it exists.
    pub open spec fn current_ligature_spec(&self) -> Option<LigatureRule> {
        if self.ligature_index < self.font.ligatures@.len() {
            Some(self.font.ligatures@[self.ligature_index as int])
        } else {
            None
        }
    }

    /// The glyph being edited: the current glyph in glyph mode, the result
    /// glyph of the current ligature in ligature mode, none otherwise.
    pub open spec fn editing_name(&self) -> Option<Seq<char>> {
        match self.mode {
            Mode::GlyphEdit => self.current_name(),
            Mode::LigatureEdit => match self.current_ligature_spec() {
                Some(l) => Some(l.result_glyph@),
                None => None,
            },
            _ => None,
        }
    }

    /// The glyph being edited, when it exists in the font.
    pub open spec fn editing_glyph(&self) -> Option<Glyph> {
        match self.editing_name() {
            Some(n) => if self.font.glyphs@.contains_key(n) {
                Some(self.font.glyphs@[n])
            } else {
                None
            },
            None => None,
        }
    }

    /// The status message shows `t`.
    pub open spec fn status_is(&self, t: Seq<char>) -> bool {
        self.status_message matches Some(m) && m.text@ == t
    }

    pub fn new(font: Font, file_path: String) -> (app: Self)
        requires
            font.wf(),
        ensures
            app.wf(),
            app.font == font,
            app.file_path == file_path,
            app.mode == Mode::GlyphEdit,
            app.prev_mode == Mode::GlyphEdit,
            app.search_target == SearchTarget::Glyph,
            !app.should_quit,
            app.glyph_index == first_printable(font.glyph_order@, font.cmap_reverse@),
            app.cursor_row == 0,
            app.cursor_col == 0,
            app.ligature_index == 0,
            app.search_input@.len() == 0,
            app.search_results@.len() == 0,
            app.search_result_names@.len() == 0,
            app.search_selected == 0,
            app.clipboard is None,
            app.floating is None,
            app.status_message is None,
    {
        // Start at first glyph with a Unicode mapping (skip .notdef, control chars)
        let mut glyph_index: usize = 0;
        let mut i: usize = 0;
        let ghost order = font.glyph_order@;
        let ghost rev = font.cmap_reverse@;
        while i < font.glyph_order.len()
            invariant_except_break
                glyph_index == 0,
                forall|j: int| 0 <= j < i ==> !#[trigger] printable_at(order, rev, j),
            invariant
                font.cmap_reverse.wf(),
                order == font.glyph_order@,
                rev == font.cmap_reverse@,
                i <= order.len(),
            ensures
                glyph_index == first_printable(order, rev),
            decreases order.len() - i,
        {
            let mut found = false;
            match font.cmap_reverse.get(&font.glyph_order[i]) {
                Some(codes) => {
                    let mut k: usize = 0;
                    while k < codes.len()
                        invariant
                            k <= codes@.len(),
                            !found ==> forall|m: int| 0 <= m < k ==> codes@[m] < 0x20,
                            found ==> exists|m: int| 0 <= m < codes@.len() && #[trigger] codes@[m] >= 0x20,
                        decreases codes@.len() - k,
                    {
                        if codes[k] >= 0x20 {
                            found = true;
                        }
                        k = k + 1;
                    }
                },
                None => {},
            }
            if found {
                glyph_index = i;
                proof {
                    assert(printable_at(order, rev, i as int));
                    let c = choose|c: int|
                        0 <= c < order.len() && #[trigger] printable_at(order, rev, c) && forall|j: int|
                            0 <= j < c ==> !printable_at(order, rev, j);
                    if c < i {
                        assert(!printable_at(order, rev, c));
                    } else if c > i {
                        assert(!printable_at(order, rev, i as int));
                    }
                    assert(first_printable(order, rev) == i);
                }
                break;
            }
            i = i + 1;
        }
        App {
            font,
            file_path,
            mode: Mode::GlyphEdit,
            prev_mode: Mode::GlyphEdit,
            search_target: SearchTarget::Glyph,
            should_quit: false,
            glyph_index,
            cursor_row: 0,
            cursor_col: 0,
            ligature_index: 0,
            search_input: String::new(),
            search_results: Vec::new(),
            search_result_names: Vec::new(),
            search_selected: 0,
            clipboard: None,
            floating: None,
            status_message: None,
        }
    }

    pub fn current_glyph(&self) -> (g: Option<&Glyph>)
        requires
            self.wf(),
        ensures
            match g {
                Some(g) => self.current_glyph_spec() == Some(*g),
                None => self.current_glyph_spec() is None,
            },
    {
        if self.glyph_index < self.font.glyph_order.len() {
            self.font.glyphs.get(&self.font.glyph_order[self.glyph_index])
        } else {
            None
        }
    }

    /// The glyph at `glyph_index`, for changing it in place.
    pub fn current_glyph_mut(&mut self) -> (g: Option<&mut Glyph>)
        requires
            old(self).wf(),
        ensures
            match g {
                Some(g) => {
                    &&& old(self).current_glyph_spec() == Some(*g)
                    &&& final(self).font.glyphs@ == old(self).font.glyphs@.insert(
                        old(self).current_name()->0,
                        *final(g),
                    )
                    &&& final(self).font.glyphs.entries@.len() == old(self).font.glyphs.entries@.len()
                    &&& final(self).font.glyph_order == old(self).font.glyph_order
                    &&& final(self).font.dirty == old(self).font.dirty
                    &&& final(self).glyph_index == old(self).glyph_index
                },
                None => {
                    &&& old(self).current_glyph_spec() is None
                    &&& *final(self) == *old(self)
                },
            },
    {
        if self.glyph_index < self.font.glyph_order.len() {
            match self.font.glyphs.index_of(&self.font.glyph_order[self.glyph_index]) {
                Some(i) => {
                    let ghost e = self.font.glyphs.entries@;
                    proof {
                        lemma_map_of_at(e, i as int);
                    }
                    let g = self.font.glyphs.value_mut(i);
                    proof {
                        lemma_map_of_update(e, i as int, *final(g));
                    }
                    Some(g)
                },
                None => None,
            }
        } else {
            None
        }
    }

    pub fn current_glyph_name(&self) -> (n: Option<&str>)
        ensures
            match n {
                Some(s) => self.current_name() == Some(s@),
                None => self.current_name() is None,
            },
    {
        if self.glyph_index < self.font.glyph_order.len() {
            Some(self.font.glyph_order[self.glyph_index].as_str())
        } else {
            None
        }
    }

    pub fn current_ligature(&self) -> (l: Option<&LigatureRule>)
        ensures
            match l {
                Some(l) => self.current_ligature_spec() == Some(*l),
                None => self.current_ligature_spec() is None,
            },
    {
        if self.ligature_index < self.font.ligatures.len() {
            Some(&self.font.ligatures[self.ligature_index])
        } else {
            None
        }
    }
}

/// The navigation and search state of the two apps agree.
pub open spec fn same_nav(a: App, b: App) -> bool {
    &&& a.file_path == b.file_path
    &&& a.mode == b.mode
    &&& a.prev_mode == b.prev_mode
    &&& a.search_target == b.search_target
    &&& a.should_quit == b.should_quit
    &&& a.glyph_index == b.glyph_index
    &&& a.ligature_index == b.ligature_index
    &&& a.search_input == b.search_input
    &&& a.search_results == b.search_results
    &&& a.search_result_names == b.search_result_names
    &&& a.search_selected == b.search_selected
}

/// The bounding box (min_row, max_row, min_col, max_col) of the filled pixels.
pub open spec fn is_filled_bbox(g: GridView, b: (usize, usize, usize, usize)) -> bool {
    &&& forall|c: int, r: int| #[trigger] g.get(c, r) ==> b.0 <= r <= b.1 && b.2 <= c <= b.3
    &&& exists|c: int| #[trigger] g.get(c, b.0 as int)
    &&& exists|c: int| #[trigger] g.get(c, b.1 as int)
    &&& exists|r: int| #[trigger] g.get(b.2 as int, r)
    &&& exists|r: int| #[trigger] g.get(b.3 as int, r)
}

pub open spec fn any_filled(g: GridView) -> bool {
    exists|c: int, r: int| #[trigger] g.get(c, r)
}

/// The bounding box of the filled pixels, if any pixel is filled.
pub open spec fn filled_bbox_of(g: GridView) -> Option<(usize, usize, usize, usize)> {
    if any_filled(g) {
        Some(choose|b: (usize, usize, usize, usize)| is_filled_bbox(g, b))
    } else {
        None
    }
}

proof fn lemma_filled_bbox_unique(g: GridView, b: (usize, usize, usize, usize))
    requires
        is_filled_bbox(g, b),
    ensures
        filled_bbox_of(g) == Some(b),
{
    let c0 = choose|c: int| #[trigger] g.get(c, b.0 as int);
    assert(any_filled(g));
    let b2 = choose|b2: (usize, usize, usize, usize)| is_filled_bbox(g, b2);
    let c1 = choose|c: int| #[trigger] g.get(c, b2.0 as int);
    let c2 = choose|c: int| #[trigger] g.get(c, b.1 as int);
    let c3 = choose|c: int| #[trigger] g.get(c, b2.1 as int);
    let r0 = choose|r: int| #[trigger] g.get(b.2 as int, r);
    let r1 = choose|r: int| #[trigger] g.get(b2.2 as int, r);
    let r2 = choose|r: int| #[trigger] g.get(b.3 as int, r);
    let r3 = choose|r: int| #[trigger] g.get(b2.3 as int, r);
    assert(b2 == b);
}

proof fn lemma_filled_bbox_none(g: GridView)
    requires
        !any_filled(g),
    ensures
        filled_bbox_of(g) is None,
{
}

/// Find the bounding box of filled pixels. Returns (min_row, max_row, min_col, max_col).
pub fn filled_bbox(grid: &PixelGrid) -> (res: Option<(usize, usize, usize, usize)>)
    requires
        grid.wf(),
    ensures
        res is Some <==> any_filled(grid@),
        res matches Some(b) ==> is_filled_bbox(grid@, b),
{
    let mut min_r = usize::MAX;
    let mut max_r: usize = 0;
    let mut min_c = usize::MAX;
    let mut max_c: usize = 0;
    let mut found = false;
    let ghost mut w1 = 0int;
    let ghost mut w2 = 0int;
    let ghost mut w3 = 0int;
    let ghost mut w4 = 0int;
    let mut r: usize = 0;
    while r < grid.height
        invariant
            grid.wf(),
            r <= grid.height,
            !found ==> forall|c: int, rr: int| rr < r ==> !#[trigger] grid@.get(c, rr),
            forall|c: int, rr: int| rr < r && #[trigger] grid@.get(c, rr) ==> min_r <= rr <= max_r && min_c <= c <= max_c,
            found ==> grid@.get(w1, min_r as int) && grid@.get(w2, max_r as int) && grid@.get(min_c as int, w3) && grid@.get(max_c as int, w4),
        decreases grid.height - r,
    {
        let mut c: usize = 0;
        while c < grid.width
            invariant
                grid.wf(),
                r < grid.height,
                c <= grid.width,
                !found ==> forall|cc: int, rr: int| (rr < r || (rr == r && cc < c)) ==> !#[trigger] grid@.get(cc, rr),
                forall|cc: int, rr: int| (rr < r || (rr == r && cc < c)) && #[trigger] grid@.get(cc, rr) ==> min_r <= rr <= max_r && min_c <= cc <= max_c,
                found ==> grid@.get(w1, min_r as int) && grid@.get(w2, max_r as int) && grid@.get(min_c as int, w3) && grid@.get(max_c as int, w4),
            decreases grid.width - c,
        {
            if grid.get(c, r) {
                proof {
                    if !found || r <= min_r {
                        w1 = c as int;
                    }
                    if !found || r >= max_r {
                        w2 = c as int;
                    }
                    if !found || c <= min_c {
                        w3 = r as int;
                    }
                    if !found || c >= max_c {
                        w4 = r as int;
                    }
                }
                if !found {
                    min_r = r;
                    max_r = r;
                    min_c = c;
                    max_c = c;
                } else {
                    min_r = if r < min_r { r } else { min_r };
                    max_r = if r > max_r { r } else { max_r };
                    min_c = if c < min_c { c } else { min_c };
                    max_c = if c > max_c { c } else { max_c };
                }
                found = true;
            }
            c = c + 1;
        }
        r = r + 1;
    }
    proof {
        assert forall|c: int, rr: int| #[trigger] grid@.get(c, rr) implies rr < r by {}
    }
    if found {
        proof {
            let b = (min_r, max_r, min_c, max_c);
            assert(grid@.get(w1, b.0 as int));
            assert(grid@.get(w2, b.1 as int));
            assert(grid@.get(b.2 as int, w3));
            assert(grid@.get(b.3 as int, w4));
        }
        Some((min_r, max_r, min_c, max_c))
    } else {
        None
    }
}

/// `min(max(v, lo), hi)`, as `v.max(lo).min(hi)`.
pub open spec fn max_then_min(v: int, lo: int, hi: int) -> int {
    let m = if v < lo { lo } else { v };
    if m > hi { hi } else { m }
}

impl App {
    // -- Navigation --

    pub fn next_glyph(&mut self)
        requires
            old(self).wf(),
        ensures
            next_glyph_post(*old(self), *final(self)),

    {
        let n = self.font.glyph_order.len();
        if n > 0 && self.glyph_index < n - 1 {
            self.glyph_index = self.glyph_index + 1;
            self.clamp_cursor();
        }
    }

    pub fn prev_glyph(&mut self)
        requires
            old(self).wf(),
        ensures
            prev_glyph_post(*old(self), *final(self)),

    {
        if self.glyph_index > 0 {
            self.glyph_index = self.glyph_index - 1;
            self.clamp_cursor();
        }
    }

    pub fn next_ligature(&mut self)
        requires
            old(self).wf(),
        ensures
            next_ligature_post(*old(self), *final(self)),

    {
        let n = self.font.ligatures.len();
        if n > 0 && self.ligature_index < n - 1 {
            self.ligature_index = self.ligature_index + 1;
            self.clamp_cursor_ligature();
        }
    }

    pub fn prev_ligature(&mut self)
        requires
            old(self).wf(),
        ensures
            prev_ligature_post(*old(self), *final(self)),

    {
        if self.ligature_index > 0 {
            self.ligature_index = self.ligature_index - 1;
            self.clamp_cursor_ligature();
        }
    }

    /// The cursor of `self` is `old`'s cursor limited to the current glyph of
    /// `self`, or unchanged when there is no current glyph.
    pub open spec fn cursor_clamped_from(self, old: App) -> bool {
        match self.current_glyph_spec() {
            Some(g) => self.cursor_col == clamp_to(old.cursor_col, g.pixels.width)
                && self.cursor_row == clamp_to(old.cursor_row, g.pixels.height),
            None => self.cursor_col == old.cursor_col && self.cursor_row == old.cursor_row,
        }
    }

    /// The result glyph of the current ligature, when it exists.
    pub open spec fn ligature_glyph_spec(&self) -> Option<Glyph> {
        match self.current_ligature_spec() {
            Some(l) => if self.font.glyphs@.contains_key(l.result_glyph@) {
                Some(self.font.glyphs@[l.result_glyph@])
            } else {
                None
            },
            None => None,
        }
    }

    pub open spec fn cursor_clamped_to_ligature_from(self, old: App) -> bool {
        match self.ligature_glyph_spec() {
            Some(g) => self.cursor_col == clamp_to(old.cursor_col, g.pixels.width)
                && self.cursor_row == clamp_to(old.cursor_row, g.pixels.height),
            None => self.cursor_col == old.cursor_col && self.cursor_row == old.cursor_row,
        }
    }

    fn clamp_cursor(&mut self)
        requires
            old(self).wf(),
        ensures
            final(self).wf(),
            final(self).cursor_clamped_from(*old(self)),
            final(self).font == old(self).font,
            final(self).clipboard == old(self).clipboard,
            final(self).floating == old(self).floating,
            final(self).status_message == old(self).status_message,
            same_nav(*old(self), *final(self)),
    {
        if let Some(g) = self.current_glyph() {
            let max_col = if g.pixels.width > 0 { g.pixels.width - 1 } else { 0 };
            let max_row = if g.pixels.height > 0 { g.pixels.height - 1 } else { 0 };
            self.cursor_col = if self.cursor_col < max_col { self.cursor_col } else { max_col };
            self.cursor_row = if self.cursor_row < max_row { self.cursor_row } else { max_row };
        }
    }

    fn ligature_glyph(&self) -> (g: Option<&Glyph>)
        requires
            self.wf(),
        ensures
            match g {
                Some(g) => self.ligature_glyph_spec() == Some(*g),
                None => self.ligature_glyph_spec() is None,
            },
    {
        match self.current_ligature() {
            Some(lig) => self.font.glyphs.get(&lig.result_glyph),
            None => None,
        }
    }

    fn clamp_cursor_ligature(&mut self)
        requires
            old(self).wf(),
        ensures
            final(self).wf(),
            final(self).cursor_clamped_to_ligature_from(*old(self)),
            final(self).font == old(self).font,
            final(self).clipboard == old(self).clipboard,
            final(self).floating == old(self).floating,
            final(self).status_message == old(self).status_message,
            same_nav(*old(self), *final(self)),
    {
        if let Some(g) = self.ligature_glyph() {
            let max_col = if g.pixels.width > 0 { g.pixels.width - 1 } else { 0 };
            let max_row = if g.pixels.height > 0 { g.pixels.height - 1 } else { 0 };
            self.cursor_col = if self.cursor_col < max_col { self.cursor_col } else { max_col };
            self.cursor_row = if self.cursor_row < max_row { self.cursor_row } else { max_row };
        }
    }
}

/// `v` limited to `[lo, hi]` (`i32::clamp`).
pub open spec fn clamp_int(v: int, lo: int, hi: int) -> int {
    if v < lo {
        lo
    } else if v > hi {
        hi
    } else {
        v
    }
}

/// The last index of a side of `dim` cells (0 for an empty side).
pub open spec fn last_index(dim: usize) -> int {
    if dim == 0 { 0 } else { dim - 1 }
}

impl App {
    /// The glyph whose grid bounds the cursor in the current mode.
    pub open spec fn cursor_glyph(&self) -> Option<Glyph> {
        match self.mode {
            Mode::GlyphEdit => self.current_glyph_spec(),
            Mode::LigatureEdit => self.ligature_glyph_spec(),
            _ => None,
        }
    }

    pub fn move_cursor(&mut self, dr: i32, dc: i32)
        requires
            old(self).wf(),
        ensures
            move_cursor_post(*old(self), *final(self), dr, dc),

    {
        let (max_col, max_row) = match self.mode {
            Mode::GlyphEdit => {
                if let Some(g) = self.current_glyph() {
                    (
                        if g.pixels.width > 0 { g.pixels.width - 1 } else { 0 },
                        if g.pixels.height > 0 { g.pixels.height - 1 } else { 0 },
                    )
                } else {
                    return;
                }
            },
            Mode::LigatureEdit => {
                if let Some(g) = self.ligature_glyph() {
                    (
                        if g.pixels.width > 0 { g.pixels.width - 1 } else { 0 },
                        if g.pixels.height > 0 { g.pixels.height - 1 } else { 0 },
                    )
                } else {
                    return;
                }
            },
            _ => return,
        };
        // Computed in i128, which holds every usize and every i32 step.
        let vr = self.cursor_row as i128 + dr as i128;
        let vc = self.cursor_col as i128 + dc as i128;
        let hr = max_row as i128;
        let hc = max_col as i128;
        let new_row = (if vr < 0 { 0 } else if vr > hr { hr } else { vr }) as usize;
        let new_col = (if vc < 0 { 0 } else if vc > hc { hc } else { vc }) as usize;
        self.cursor_row = new_row;
        self.cursor_col = new_col;
    }

    /// Position in the glyph table of the glyph being edited.
    fn editing_entry(&self) -> (r: Option<usize>)
        requires
            self.wf(),
        ensures
            match r {
                Some(i) => i < self.font.glyphs.entries@.len() && self.editing_name() == Some(
                    self.font.glyphs.entries@[i as int].0@,
                ) && self.editing_glyph() == Some(self.font.glyphs.entries@[i as int].1),
                None => self.editing_glyph() is None,
            },
    {
        match self.editing_glyph_name() {
            Some(name) => self.font.glyphs.index_of(&name),
            None => None,
        }
    }

    /// Get the glyph name being edited in the current mode.
    fn editing_glyph_name(&self) -> (r: Option<String>)
        ensures
            match r {
                Some(s) => self.editing_name() == Some(s@),
                None => self.editing_name() is None,
            },
    {
        match self.mode {
            Mode::GlyphEdit => {
                if self.glyph_index < self.font.glyph_order.len() {
                    Some(self.font.glyph_order[self.glyph_index].clone())
                } else {
                    None
                }
            },
            Mode::LigatureEdit => {
                if self.ligature_index < self.font.ligatures.len() {
                    Some(self.font.ligatures[self.ligature_index].result_glyph.clone())
                } else {
                    None
                }
            },
            _ => None,
        }
    }

    // -- Editing --

    pub fn toggle_pixel(&mut self)
        requires
            old(self).wf(),
        ensures
            toggle_pixel_post(*old(self), *final(self)),

    {
        let i = match self.editing_entry() {
            Some(i) => i,
            None => return,
        };
        let mut p = self.font.glyphs.value_at(i).pixels.duplicate();
        p.toggle(self.cursor_col, self.cursor_row);
        let name = self.font.glyphs.entries[i].0.clone();
        self.font.set_glyph_pixels(i, p);
        self.font.dirty.insert(name);
    }

    // -- Clipboard & floating overlay --

    pub fn copy(&mut self)
        requires
            old(self).wf(),
        ensures
            copy_post(*old(self), *final(self)),

    {
        let i = match self.editing_entry() {
            Some(i) => i,
            None => return,
        };
        self.clipboard = Some(self.font.glyphs.value_at(i).pixels.duplicate());
        self.status_message = Some(StatusMessage::new(text::owned("Copied to clipboard")));
    }

    pub fn start_paste(&mut self)
        requires
            old(self).wf(),
        ensures
            start_paste_post(*old(self), *final(self)),

    {
        let clip = match &self.clipboard {
            Some(c) => c.duplicate(),
            None => {
                self.status_message = Some(StatusMessage::new(text::owned("Clipboard is empty")));
                return;
            },
        };
        let i = match self.editing_entry() {
            Some(i) => i,
            None => return,
        };
        let original = self.font.glyphs.value_at(i).pixels.duplicate();
        let name = self.font.glyphs.entries[i].0.clone();
        self.floating = Some(
            FloatingState {
                op: FloatingOp::Paste,
                pixels: clip,
                offset_row: 0,
                offset_col: 0,
                original_pixels: original,
                glyph_name: name,
            },
        );
        self.status_message = Some(
            StatusMessage::new(text::owned("Paste: arrows to position, Enter to commit, Esc to cancel")),
        );
    }

    pub fn start_move(&mut self)
        requires
            old(self).wf(),
        ensures
            start_move_post(*old(self), *final(self)),

    {
        let i = match self.editing_entry() {
            Some(i) => i,
            None => return,
        };
        let original = self.font.glyphs.value_at(i).pixels.duplicate();
        let lifted = self.font.glyphs.value_at(i).pixels.duplicate();
        let name = self.font.glyphs.entries[i].0.clone();
        // Clear the canvas — pixels are now in the floating layer
        let cleared = PixelGrid::new(original.width, original.height);
        self.font.set_glyph_pixels(i, cleared);
        self.floating = Some(
            FloatingState {
                op: FloatingOp::Move,
                pixels: lifted,
                offset_row: 0,
                offset_col: 0,
                original_pixels: original,
                glyph_name: name,
            },
        );
        self.status_message = Some(
            StatusMessage::new(text::owned("Move: arrows to position, Enter to commit, Esc to cancel")),
        );
    }

    pub fn reset_canvas(&mut self)
        requires
            old(self).wf(),
        ensures
            reset_canvas_post(*old(self), *final(self)),

    {
        let i = match self.editing_entry() {
            Some(i) => i,
            None => return,
        };
        let w = self.font.glyphs.value_at(i).pixels.width;
        let h = self.font.glyphs.value_at(i).pixels.height;
        let name = self.font.glyphs.entries[i].0.clone();
        self.font.set_glyph_pixels(i, PixelGrid::new(w, h));
        self.font.dirty.insert(name);
        self.status_message = Some(StatusMessage::new(text::owned("Canvas cleared")));
    }

    pub fn move_floating(&mut self, dr: i32, dc: i32)
        requires
            old(self).wf(),
            old(self).floating matches Some(f) ==> i32::MIN <= f.offset_row + dr <= i32::MAX
                && i32::MIN <= f.offset_col + dc <= i32::MAX,
        ensures
            move_floating_post(*old(self), *final(self), dr, dc),

    {
        let fl = match &mut self.floating {
            Some(f) => f,
            None => return,
        };
        let new_row = fl.offset_row + dr;
        let new_col = fl.offset_col + dc;
        if fl.op == FloatingOp::Move {
            // Clamp so the bounding box of filled pixels stays within grid bounds
            if let Some((min_r, max_r, min_c, max_c)) = filled_bbox(&fl.pixels) {
                proof {
                    lemma_filled_bbox_unique(fl.pixels@, (min_r, max_r, min_c, max_c));
                }
                let canvas_h = fl.original_pixels.height as i32;
                let canvas_w = fl.original_pixels.width as i32;
                let lo_r = -(min_r as i32);
                let hi_r = canvas_h - 1 - max_r as i32;
                let lo_c = -(min_c as i32);
                let hi_c = canvas_w - 1 - max_c as i32;
                let m_r = if new_row < lo_r { lo_r } else { new_row };
                let m_c = if new_col < lo_c { lo_c } else { new_col };
                fl.offset_row = if m_r > hi_r { hi_r } else { m_r };
                fl.offset_col = if m_c > hi_c { hi_c } else { m_c };
            } else {
                proof {
                    lemma_filled_bbox_none(fl.pixels@);
                }
            }
        } else {
            // Paste: no clamping, can go partially outside
            fl.offset_row = new_row;
            fl.offset_col = new_col;
        }
    }

    pub fn commit_floating(&mut self)
        requires
            old(self).wf(),
            old(self).floating matches Some(f) ==> f.offset_row + f.pixels.height <= i32::MAX
                && f.offset_col + f.pixels.width <= i32::MAX,
        ensures
            commit_floating_post(*old(self), *final(self)),

    {
        let fl = match self.floating.take() {
            Some(f) => f,
            None => return,
        };
        match self.font.glyphs.index_of(&fl.glyph_name) {
            Some(i) => {
                let mut p = self.font.glyphs.value_at(i).pixels.duplicate();
                crate::font::stamp(&mut p, &fl.pixels, fl.offset_row, fl.offset_col);
                self.font.set_glyph_pixels(i, p);
                self.font.dirty.insert(fl.glyph_name);
            },
            None => {},
        }
        self.status_message = Some(StatusMessage::new(text::owned("Committed")));
    }

    pub fn rotate_floating(&mut self)
        requires
            old(self).wf(),
        ensures
            rotate_floating_post(*old(self), *final(self)),

    {
        let fl = match &mut self.floating {
            Some(f) => f,
            None => return,
        };
        fl.pixels = fl.pixels.rotate_cw();
    }

    pub fn cancel_floating(&mut self)
        requires
            old(self).wf(),
        ensures
            cancel_floating_post(*old(self), *final(self)),

    {
        let fl = match self.floating.take() {
            Some(f) => f,
            None => return,
        };
        match self.font.glyphs.index_of(&fl.glyph_name) {
            Some(i) => {
                self.font.set_glyph_pixels(i, fl.original_pixels);
            },
            None => {},
        }
        self.status_message = Some(StatusMessage::new(text::owned("Cancelled")));
    }
}

// ---------------------------------------------------------------------------
// Search
// ---------------------------------------------------------------------------

/// Results stop being collected once there are this many.
pub open spec fn max_results() -> int {
    50
}

/// `U+` followed by at least four uppercase hex digits.
pub open spec fn u_plus(cp: u32) -> Seq<char> {
    "U+"@ + text::hex_seq(cp as nat, true, 4)
}

/// ` "c"` for the character with code point `cp`, or nothing when `cp` is not
/// a scalar value.
pub open spec fn char_part(cp: u32) -> Seq<char> {
    if text::scalar(cp) {
        " \""@ + seq![cp as char] + "\""@
    } else {
        seq![]
    }
}

/// ` NAME` for a character with a Unicode name, nothing otherwise.
pub open spec fn name_part(c: char) -> Seq<char> {
    match text::char_name(c) {
        Some(n) => " "@ + n,
        None => seq![],
    }
}

/// The result name that asks for a new glyph for `cp`.
pub open spec fn create_name(cp: u32) -> Seq<char> {
    "__create__:"@ + text::dec_seq(cp as nat)
}

/// Glyph-name search: the entries for the first `k` names of `order` whose
/// lowercase form contains `ql`, collected until there are 50.
pub open spec fn name_hits(
    order: Seq<String>,
    rev: Map<Seq<char>, Vec<u32>>,
    ql: Seq<char>,
    k: int,
) -> (Seq<Seq<char>>, Seq<Seq<char>>)
    decreases k,
{
    if k <= 0 {
        (seq![], seq![])
    } else {
        let (rs, ns) = name_hits(order, rev, ql, k - 1);
        let name = order[k - 1]@;
        if rs.len() >= max_results() {
            (rs, ns)
        } else if text::contains_seq(text::lowercase(name), ql) {
            let code_str = if rev.contains_key(name) && rev[name]@.len() > 0 {
                u_plus(rev[name]@[0]) + " "@
            } else {
                seq![]
            };
            (rs.push(code_str + name), ns.push(name))
        } else {
            (rs, ns)
        }
    }
}

/// Unicode-name search over the first `k` code points of the map: the
/// characters whose lowercase name contains `ql`, collected until there are 50.
pub open spec fn unicode_hits(e: Seq<(u32, String)>, ql: Seq<char>, k: int) -> (
    Seq<Seq<char>>,
    Seq<Seq<char>>,
)
    decreases k,
{
    if k <= 0 {
        (seq![], seq![])
    } else {
        let (rs, ns) = unicode_hits(e, ql, k - 1);
        let cp = e[k - 1].0;
        let name = e[k - 1].1@;
        if rs.len() >= max_results() {
            (rs, ns)
        } else if !text::scalar(cp) {
            (rs, ns)
        } else {
            match text::char_name(cp as char) {
                Some(u) => if text::contains_seq(text::lowercase(u), ql) {
                    (
                        rs.push(u_plus(cp) + " \""@ + seq![cp as char] + "\" "@ + u + " → "@ + name),
                        ns.push(name),
                    )
                } else {
                    (rs, ns)
                },
                None => (rs, ns),
            }
        }
    }
}

/// What `parse_codepoint` accepts: after trimming, `U+`, `u+`, `0x` or `0X`
/// followed by a hexadecimal `u32`.
pub open spec fn codepoint_of(s: Seq<char>) -> Option<u32> {
    let t = text::trim_seq(s);
    if text::starts_with_seq(t, "U+"@) || text::starts_with_seq(t, "u+"@) || text::starts_with_seq(
        t,
        "0x"@,
    ) || text::starts_with_seq(t, "0X"@) {
        match text::parse_unsigned_spec(t.subrange(2, t.len() as int), 16, u32::MAX as nat) {
            Some(v) => Some(v as u32),
            None => None,
        }
    } else {
        None
    }
}

/// The results (display strings, result names) of a glyph search for the
/// trimmed, non-empty query `q`.
pub open spec fn glyph_search(font: Font, q: Seq<char>) -> (Seq<Seq<char>>, Seq<Seq<char>>) {
    let ql = text::lowercase(q);
    match codepoint_of(q) {
        // Try exact codepoint (U+XXXX or 0xXXXX)
        Some(cp) => if font.cmap@.contains_key(cp) {
            let name = font.cmap@[cp];
            (seq![u_plus(cp) + char_part(cp) + " → "@ + name], seq![name])
        } else {
            let uname = if text::scalar(cp) {
                name_part(cp as char)
            } else {
                seq![]
            };
            (seq!["+ Create glyph "@ + u_plus(cp) + char_part(cp) + uname], seq![create_name(cp)])
        },
        None => if q.len() == 1 {
            // Try single character literal
            let ch = q[0];
            let cp = ch as u32;
            if font.cmap@.contains_key(cp) {
                let name = font.cmap@[cp];
                (
                    seq![u_plus(cp) + " \""@ + seq![ch] + "\""@ + name_part(ch) + " → "@ + name],
                    seq![name],
                )
            } else {
                (
                    seq!["+ Create glyph "@ + u_plus(cp) + " \""@ + seq![ch] + "\""@ + name_part(ch)],
                    seq![create_name(cp)],
                )
            }
        } else {
            // Search glyph names, then Unicode names
            let hits = name_hits(font.glyph_order@, font.cmap_reverse@, ql, font.glyph_order@.len() as int);
            if hits.0.len() > 0 {
                hits
            } else {
                unicode_hits(font.cmap.entries@, ql, font.cmap.entries@.len() as int)
            }
        },
    }
}

proof fn lemma_name_hits_len(order: Seq<String>, rev: Map<Seq<char>, Vec<u32>>, ql: Seq<char>, k: int)
    ensures
        name_hits(order, rev, ql, k).0.len() == name_hits(order, rev, ql, k).1.len(),
        name_hits(order, rev, ql, k).0.len() <= max_results(),
    decreases k,
{
    if k > 0 {
        lemma_name_hits_len(order, rev, ql, k - 1);
    }
}

proof fn lemma_name_hits_full(order: Seq<String>, rev: Map<Seq<char>, Vec<u32>>, ql: Seq<char>, j: int, k: int)
    requires
        j <= k,
        name_hits(order, rev, ql, j).0.len() >= max_results(),
    ensures
        name_hits(order, rev, ql, k) == name_hits(order, rev, ql, j),
    decreases k - j,
{
    if j < k {
        lemma_name_hits_full(order, rev, ql, j, k - 1);
    }
}

proof fn lemma_unicode_hits_len(e: Seq<(u32, String)>, ql: Seq<char>, k: int)
    ensures
        unicode_hits(e, ql, k).0.len() == unicode_hits(e, ql, k).1.len(),
        unicode_hits(e, ql, k).0.len() <= max_results(),
    decreases k,
{
    if k > 0 {
        lemma_unicode_hits_len(e, ql, k - 1);
    }
}

proof fn lemma_unicode_hits_full(e: Seq<(u32, String)>, ql: Seq<char>, j: int, k: int)
    requires
        j <= k,
        unicode_hits(e, ql, j).0.len() >= max_results(),
    ensures
        unicode_hits(e, ql, k) == unicode_hits(e, ql, j),
    decreases k - j,
{
    if j < k {
        lemma_unicode_hits_full(e, ql, j, k - 1);
    }
}

/// `U+` and the code point in at least four uppercase hex digits.
fn u_plus_exec(cp: u32) -> (s: Vec<char>)
    ensures
        s@ == u_plus(cp),
{
    let mut s = text::lit("U+");
    text::append(&mut s, &text::hex(cp as u64, true, 4));
    s
}

fn char_part_exec(cp: u32) -> (s: Vec<char>)
    ensures
        s@ == char_part(cp),
{
    match text::char_from_u32(cp) {
        Some(c) => {
            let mut s = text::lit(" \"");
            s.push(c);
            text::append(&mut s, &text::lit("\""));
            proof {
                vstd::utf8::char_u32_cast(c, cp);
            }
            s
        },
        None => Vec::new(),
    }
}

fn name_part_exec(c: char) -> (s: Vec<char>)
    ensures
        s@ == name_part(c),
{
    match text::unicode_name(c) {
        Some(n) => {
            let mut s = text::lit(" ");
            text::append(&mut s, &text::chars_of(n.as_str()));
            s
        },
        None => Vec::new(),
    }
}

fn create_name_exec(cp: u32) -> (s: Vec<char>)
    ensures
        s@ == create_name(cp),
{
    let mut s = text::lit("__create__:");
    text::append(&mut s, &text::dec(cp as u64));
    s
}

/// Parses `U+XXXX`, `u+XXXX`, `0xXXXX` or `0XXXXX` (after trimming).
pub fn parse_codepoint(s: &str) -> (r: Option<u32>)
    ensures
        r == codepoint_of(s@),
{
    let t = text::trim(&text::chars_of(s));
    proof {
        reveal_strlit("U+");
        reveal_strlit("u+");
        reveal_strlit("0x");
        reveal_strlit("0X");
    }
    if text::starts_with(&t, &text::lit("U+")) || text::starts_with(&t, &text::lit("u+"))
        || text::starts_with(&t, &text::lit("0x")) || text::starts_with(&t, &text::lit("0X")) {
        let hex = text::slice_vec(&t, 2, t.len());
        text::parse_u32_radix(&hex, 16)
    } else {
        None
    }
}

impl App {
    pub fn open_search(&mut self, target: SearchTarget)
        requires
            old(self).wf(),
        ensures
            open_search_post(*old(self), *final(self), target),

    {
        self.prev_mode = self.mode;
        self.mode = Mode::Search;
        self.search_target = target;
        self.search_input = String::new();
        self.search_results.clear();
        self.search_result_names.clear();
        self.search_selected = 0;
    }

    pub fn close_search(&mut self)
        ensures
            close_search_post(*old(self), *final(self)),

    {
        self.mode = self.prev_mode;
    }

    /// Glyph search for the trimmed, non-empty query `query`; the result
    /// lists must be empty on entry.
    fn search_glyphs(&mut self, query: &Vec<char>)
        requires
            old(self).wf(),
            old(self).search_results@.len() == 0,
            old(self).search_result_names@.len() == 0,
        ensures
            final(self).wf(),
            (views(final(self).search_results@), views(final(self).search_result_names@)) == glyph_search(
                old(self).font,
                query@,
            ),
            final(self).font == old(self).font,
            same_nav_except_results(*old(self), *final(self)),
            final(self).search_selected == old(self).search_selected,
            final(self).cursor_row == old(self).cursor_row,
            final(self).cursor_col == old(self).cursor_col,
            final(self).clipboard == old(self).clipboard,
            final(self).floating == old(self).floating,
            final(self).status_message == old(self).status_message,
    {
        let query_str = text::string_of(query);
        let query_lower = text::chars_of(text::to_lowercase(query_str.as_str()).as_str());
        let ghost ql = query_lower@;
        let ghost font = self.font;
        // Try exact codepoint (U+XXXX or 0xXXXX)
        if let Some(cp) = parse_codepoint(query_str.as_str()) {
            if let Some(name) = self.font.cmap.get(cp) {
                let mut entry = u_plus_exec(cp);
                text::append(&mut entry, &char_part_exec(cp));
                text::append(&mut entry, &text::lit(" → "));
                text::append(&mut entry, &text::chars_of(name.as_str()));
                let name = name.clone();
                self.search_results.push(text::string_of(&entry));
                self.search_result_names.push(name);
            } else {
                let mut entry = text::lit("+ Create glyph ");
                text::append(&mut entry, &u_plus_exec(cp));
                text::append(&mut entry, &char_part_exec(cp));
                match text::char_from_u32(cp) {
                    Some(c) => {
                        text::append(&mut entry, &name_part_exec(c));
                        proof {
                            vstd::utf8::char_u32_cast(c, cp);
                        }
                    },
                    None => {},
                }
                self.search_results.push(text::string_of(&entry));
                self.search_result_names.push(text::string_of(&create_name_exec(cp)));
            }
            proof {
                assert(views(self.search_results@) =~= glyph_search(font, query@).0);
                assert(views(self.search_result_names@) =~= glyph_search(font, query@).1);
            }
            return;
        }
        // Try single character literal
        if query.len() == 1 {
            let ch = query[0];
            let cp = ch as u32;
            let mut entry = u_plus_exec(cp);
            if let Some(name) = self.font.cmap.get(cp) {
                text::append(&mut entry, &text::lit(" \""));
                entry.push(ch);
                text::append(&mut entry, &text::lit("\""));
                text::append(&mut entry, &name_part_exec(ch));
                text::append(&mut entry, &text::lit(" → "));
                text::append(&mut entry, &text::chars_of(name.as_str()));
                let name = name.clone();
                self.search_results.push(text::string_of(&entry));
                self.search_result_names.push(name);
                proof {
                    assert(font.cmap@.contains_key(cp));
                    assert(name@ == font.cmap@[cp]);
                    assert(entry@ == u_plus(cp) + " \""@ + seq![ch] + "\""@ + name_part(ch) + " → "@ + name@);
                    assert(views(self.search_results@) =~= seq![entry@]);
                }
            } else {
                let mut e2 = text::lit("+ Create glyph ");
                text::append(&mut e2, &entry);
                text::append(&mut e2, &text::lit(" \""));
                e2.push(ch);
                text::append(&mut e2, &text::lit("\""));
                text::append(&mut e2, &name_part_exec(ch));
                self.search_results.push(text::string_of(&e2));
                self.search_result_names.push(text::string_of(&create_name_exec(cp)));
                proof {
                    assert(!font.cmap@.contains_key(cp));
                    assert(e2@ == "+ Create glyph "@ + u_plus(cp) + " \""@ + seq![ch] + "\""@ + name_part(ch));
                    assert(views(self.search_results@) =~= seq![e2@]);
                }
            }
            proof {
                assert(views(self.search_results@) =~= glyph_search(font, query@).0);
                assert(views(self.search_result_names@) =~= glyph_search(font, query@).1);
            }
            return;
        }
        // Search glyph names
        let mut i: usize = 0;
        let n = self.font.glyph_order.len();
        while i < n
            invariant_except_break
                (views(self.search_results@), views(self.search_result_names@)) == name_hits(
                    font.glyph_order@,
                    font.cmap_reverse@,
                    ql,
                    i as int,
                ),
                self.search_results@.len() < max_results(),
            invariant
                self.wf(),
                self.font == font,
                n == font.glyph_order@.len(),
                i <= n,
                ql == query_lower@,
                same_nav_except_results(*old(self), *self),
                self.search_selected == old(self).search_selected,
                self.cursor_row == old(self).cursor_row,
                self.cursor_col == old(self).cursor_col,
                self.clipboard == old(self).clipboard,
                self.floating == old(self).floating,
                self.status_message == old(self).status_message,
            ensures
                (views(self.search_results@), views(self.search_result_names@)) == name_hits(
                    font.glyph_order@,
                    font.cmap_reverse@,
                    ql,
                    n as int,
                ),
            decreases n - i,
        {
            let name = &self.font.glyph_order[i];
            let lname = text::chars_of(text::to_lowercase(name.as_str()).as_str());
            if text::contains(&lname, &query_lower) {
                let mut entry: Vec<char> = Vec::new();
                match self.font.cmap_reverse.get(name) {
                    Some(codes) => {
                        if codes.len() > 0 {
                            entry = u_plus_exec(codes[0]);
                            text::append(&mut entry, &text::lit(" "));
                        }
                    },
                    None => {},
                }
                text::append(&mut entry, &text::chars_of(name.as_str()));
                let name = name.clone();
                let ghost rs = self.search_results@;
                let ghost ns = self.search_result_names@;
                self.search_results.push(text::string_of(&entry));
                self.search_result_names.push(name);
                proof {
                    assert(views(self.search_results@) =~= views(rs).push(entry@));
                    assert(views(self.search_result_names@) =~= views(ns).push(name@));
                }
                if self.search_results.len() >= 50 {
                    proof {
                        lemma_name_hits_full(font.glyph_order@, font.cmap_reverse@, ql, i + 1, n as int);
                    }
                    break;
                }
            }
            i = i + 1;
        }
        if self.search_results.len() > 0 {
            return;
        }
        // Search Unicode names
        let mut k: usize = 0;
        let m = self.font.cmap.entries.len();
        proof {
            assert(views(self.search_results@).len() == 0);
            lemma_name_hits_len(font.glyph_order@, font.cmap_reverse@, ql, n as int);
            assert(unicode_hits(font.cmap.entries@, ql, 0) == (Seq::<Seq<char>>::empty(), Seq::<Seq<char>>::empty()));
            assert(views(self.search_results@) =~= Seq::<Seq<char>>::empty());
            assert(views(self.search_result_names@) =~= Seq::<Seq<char>>::empty());
        }
        while k < m
            invariant_except_break
                (views(self.search_results@), views(self.search_result_names@)) == unicode_hits(
                    font.cmap.entries@,
                    ql,
                    k as int,
                ),
                self.search_results@.len() < max_results(),
            invariant
                self.wf(),
                self.font == font,
                m == font.cmap.entries@.len(),
                k <= m,
                ql == query_lower@,
                same_nav_except_results(*old(self), *self),
                self.search_selected == old(self).search_selected,
                self.cursor_row == old(self).cursor_row,
                self.cursor_col == old(self).cursor_col,
                self.clipboard == old(self).clipboard,
                self.floating == old(self).floating,
                self.status_message == old(self).status_message,
            ensures
                (views(self.search_results@), views(self.search_result_names@)) == unicode_hits(
                    font.cmap.entries@,
                    ql,
                    m as int,
                ),
            decreases m - k,
        {
            let cp = self.font.cmap.entries[k].0;
            let ghost e = font.cmap.entries@;
            let ghost prev = (views(self.search_results@), views(self.search_result_names@));
            proof {
                assert(prev.0.len() < max_results());
                assert(e[k as int].0 == cp);
            }
            match text::char_from_u32(cp) {
                Some(ch) => {
                    proof {
                        vstd::utf8::char_u32_cast(ch, cp);
                    }
                    match text::unicode_name(ch) {
                        Some(uname) => {
                            let lu = text::chars_of(text::to_lowercase(uname.as_str()).as_str());
                            if text::contains(&lu, &query_lower) {
                                let name = self.font.cmap.entries[k].1.clone();
                                let mut entry = u_plus_exec(cp);
                                text::append(&mut entry, &text::lit(" \""));
                                entry.push(ch);
                                text::append(&mut entry, &text::lit("\" "));
                                text::append(&mut entry, &text::chars_of(uname.as_str()));
                                text::append(&mut entry, &text::lit(" → "));
                                text::append(&mut entry, &text::chars_of(name.as_str()));
                                let ghost rs = self.search_results@;
                                let ghost ns = self.search_result_names@;
                                self.search_results.push(text::string_of(&entry));
                                self.search_result_names.push(name);
                                proof {
                                    assert(views(self.search_results@) =~= views(rs).push(entry@));
                                    assert(views(self.search_result_names@) =~= views(ns).push(name@));
                                    assert(name@ == e[k as int].1@);
                                    assert(entry@ == u_plus(cp) + " \""@ + seq![cp as char] + "\" "@ + uname@ + " → "@ + e[k as int].1@);
                                }
                                if self.search_results.len() >= 50 {
                                    proof {
                                        lemma_unicode_hits_full(e, ql, k + 1, m as int);
                                    }
                                    break;
                                }
                            } else {
                                proof {
                                    assert(unicode_hits(e, ql, k + 1) == prev);
                                }
                            }
                        },
                        None => {
                            proof {
                                assert(unicode_hits(e, ql, k + 1) == prev);
                            }
                        },
                    }
                },
                None => {
                    proof {
                        assert(unicode_hits(e, ql, k + 1) == prev);
                    }
                },
            }
            k = k + 1;
        }
    }
}

/// The two apps agree on everything but the search results and names.
pub open spec fn same_nav_except_results(a: App, b: App) -> bool {
    &&& a.file_path == b.file_path
    &&& a.mode == b.mode
    &&& a.prev_mode == b.prev_mode
    &&& a.search_target == b.search_target
    &&& a.should_quit == b.should_quit
    &&& a.glyph_index == b.glyph_index
    &&& a.ligature_index == b.ligature_index
    &&& a.search_input == b.search_input
}


/// The trigger text of a ligature.
pub open spec fn lig_trigger(lig: LigatureRule, rev: Map<Seq<char>, Vec<u32>>) -> Seq<char> {
    trigger_of(lig.names(), rev, lig.names().len() as int)
}

/// `"trigger" → result` for a ligature.
pub open spec fn lig_entry(lig: LigatureRule, rev: Map<Seq<char>, Vec<u32>>) -> Seq<char> {
    "\""@ + lig_trigger(lig, rev) + "\" → "@ + lig.result_glyph@
}

/// First ligature pass over the first `k` ligatures: those whose trigger text
/// contains `q`, or whose lowercase trigger contains `ql`, named by their index.
pub open spec fn trigger_hits(
    ligs: Seq<LigatureRule>,
    rev: Map<Seq<char>, Vec<u32>>,
    q: Seq<char>,
    ql: Seq<char>,
    k: int,
) -> (Seq<Seq<char>>, Seq<Seq<char>>)
    decreases k,
{
    if k <= 0 {
        (seq![], seq![])
    } else {
        let (rs, ns) = trigger_hits(ligs, rev, q, ql, k - 1);
        let t = lig_trigger(ligs[k - 1], rev);
        if rs.len() >= max_results() {
            (rs, ns)
        } else if text::contains_seq(t, q) || text::contains_seq(text::lowercase(t), ql) {
            (rs.push(lig_entry(ligs[k - 1], rev)), ns.push(text::dec_seq((k - 1) as nat)))
        } else {
            (rs, ns)
        }
    }
}

/// Second ligature pass over the first `k` ligatures, after the results
/// `base` of the first: those whose lowercase result glyph name contains
/// `ql` and whose entry is not listed yet.
pub open spec fn result_hits(
    ligs: Seq<LigatureRule>,
    rev: Map<Seq<char>, Vec<u32>>,
    ql: Seq<char>,
    base: (Seq<Seq<char>>, Seq<Seq<char>>),
    k: int,
) -> (Seq<Seq<char>>, Seq<Seq<char>>)
    decreases k,
{
    if k <= 0 {
        base
    } else {
        let (rs, ns) = result_hits(ligs, rev, ql, base, k - 1);
        let e = lig_entry(ligs[k - 1], rev);
        if rs.len() >= max_results() {
            (rs, ns)
        } else if text::contains_seq(text::lowercase(ligs[k - 1].result_glyph@), ql) && !rs.contains(e) {
            (rs.push(e), ns.push(text::dec_seq((k - 1) as nat)))
        } else {
            (rs, ns)
        }
    }
}

/// The results (display strings, ligature indices) of a ligature search for
/// the trimmed, non-empty query `q`.
pub open spec fn ligature_search(font: Font, q: Seq<char>) -> (Seq<Seq<char>>, Seq<Seq<char>>) {
    let ql = text::lowercase(q);
    let ligs = font.ligatures@;
    let rev = font.cmap_reverse@;
    result_hits(ligs, rev, ql, trigger_hits(ligs, rev, q, ql, ligs.len() as int), ligs.len() as int)
}

/// What a search for `input` lists, by target; nothing for a blank query.
pub open spec fn search_results_for(font: Font, target: SearchTarget, input: Seq<char>) -> (
    Seq<Seq<char>>,
    Seq<Seq<char>>,
) {
    let q = text::trim_seq(input);
    if q.len() == 0 {
        (seq![], seq![])
    } else {
        match target {
            SearchTarget::Glyph => glyph_search(font, q),
            SearchTarget::Ligature => ligature_search(font, q),
        }
    }
}

proof fn lemma_trigger_hits_len(
    ligs: Seq<LigatureRule>,
    rev: Map<Seq<char>, Vec<u32>>,
    q: Seq<char>,
    ql: Seq<char>,
    k: int,
)
    ensures
        trigger_hits(ligs, rev, q, ql, k).0.len() == trigger_hits(ligs, rev, q, ql, k).1.len(),
        trigger_hits(ligs, rev, q, ql, k).0.len() <= max_results(),
    decreases k,
{
    if k > 0 {
        lemma_trigger_hits_len(ligs, rev, q, ql, k - 1);
    }
}

proof fn lemma_trigger_hits_full(
    ligs: Seq<LigatureRule>,
    rev: Map<Seq<char>, Vec<u32>>,
    q: Seq<char>,
    ql: Seq<char>,
    j: int,
    k: int,
)
    requires
        j <= k,
        trigger_hits(ligs, rev, q, ql, j).0.len() >= max_results(),
    ensures
        trigger_hits(ligs, rev, q, ql, k) == trigger_hits(ligs, rev, q, ql, j),
    decreases k - j,
{
    if j < k {
        lemma_trigger_hits_full(ligs, rev, q, ql, j, k - 1);
    }
}

proof fn lemma_result_hits_full(
    ligs: Seq<LigatureRule>,
    rev: Map<Seq<char>, Vec<u32>>,
    ql: Seq<char>,
    base: (Seq<Seq<char>>, Seq<Seq<char>>),
    j: int,
    k: int,
)
    requires
        j <= k,
        result_hits(ligs, rev, ql, base, j).0.len() >= max_results(),
    ensures
        result_hits(ligs, rev, ql, base, k) == result_hits(ligs, rev, ql, base, j),
    decreases k - j,
{
    if j < k {
        lemma_result_hits_full(ligs, rev, ql, base, j, k - 1);
    }
}

/// Whether `v` lists a string equal to `s`.
fn lists(v: &Vec<String>, s: &String) -> (b: bool)
    ensures
        b == views(v@).contains(s@),
{
    let mut j: usize = 0;
    while j < v.len()
        invariant
            j <= v@.len(),
            forall|m: int| 0 <= m < j ==> v@[m]@ != s@,
        decreases v@.len() - j,
    {
        if v[j] == *s {
            proof {
                assert(views(v@)[j as int] == s@);
            }
            return true;
        }
        j = j + 1;
    }
    proof {
        if views(v@).contains(s@) {
            let m = choose|m: int| 0 <= m < views(v@).len() && views(v@)[m] == s@;
            assert(v@[m]@ == s@);
        }
    }
    false
}

impl App {
    /// Ligature search for the trimmed, non-empty query `query`; the result
    /// lists must be empty on entry.
    fn search_ligatures(&mut self, query: &Vec<char>)
        requires
            old(self).wf(),
            old(self).search_results@.len() == 0,
            old(self).search_result_names@.len() == 0,
        ensures
            final(self).wf(),
            (views(final(self).search_results@), views(final(self).search_result_names@))
                == ligature_search(old(self).font, query@),
            final(self).font == old(self).font,
            same_nav_except_results(*old(self), *final(self)),
            final(self).search_selected == old(self).search_selected,
            final(self).cursor_row == old(self).cursor_row,
            final(self).cursor_col == old(self).cursor_col,
            final(self).clipboard == old(self).clipboard,
            final(self).floating == old(self).floating,
            final(self).status_message == old(self).status_message,
    {
        let query_str = text::string_of(query);
        let query_lower = text::chars_of(text::to_lowercase(query_str.as_str()).as_str());
        let ghost ql = query_lower@;
        let ghost q = query@;
        let ghost font = self.font;
        let ghost ligs = font.ligatures@;
        let ghost rev = font.cmap_reverse@;
        let n = self.font.ligatures.len();
        // Try matching trigger text
        let mut i: usize = 0;
        proof {
            assert(views(self.search_results@) =~= Seq::<Seq<char>>::empty());
            assert(views(self.search_result_names@) =~= Seq::<Seq<char>>::empty());
        }
        while i < n
            invariant
                self.wf(),
                self.font == font,
                ligs == font.ligatures@,
                rev == font.cmap_reverse@,
                font == old(self).font,
                ql == text::lowercase(query@),
                n == ligs.len(),
                i <= n,
                ql == query_lower@,
                q == query@,
                (views(self.search_results@), views(self.search_result_names@)) == trigger_hits(
                    ligs,
                    rev,
                    q,
                    ql,
                    i as int,
                ),
                self.search_results@.len() < max_results(),
                same_nav_except_results(*old(self), *self),
                self.search_selected == old(self).search_selected,
                self.cursor_row == old(self).cursor_row,
                self.cursor_col == old(self).cursor_col,
                self.clipboard == old(self).clipboard,
                self.floating == old(self).floating,
                self.status_message == old(self).status_message,
            decreases n - i,
        {
            let lig = &self.font.ligatures[i];
            let trigger = text::chars_of(lig.trigger_text(&self.font.cmap_reverse).as_str());
            let lower = text::chars_of(text::to_lowercase(text::string_of(&trigger).as_str()).as_str());
            let ghost prev = (views(self.search_results@), views(self.search_result_names@));
            if text::contains(&trigger, query) || text::contains(&lower, &query_lower) {
                let mut entry = text::lit("\"");
                text::append(&mut entry, &trigger);
                text::append(&mut entry, &text::lit("\" → "));
                text::append(&mut entry, &text::chars_of(lig.result_glyph.as_str()));
                let idx = text::string_of(&text::dec(i as u64));
                let ghost rs = self.search_results@;
                let ghost ns = self.search_result_names@;
                self.search_results.push(text::string_of(&entry));
                self.search_result_names.push(idx);
                proof {
                    assert(views(self.search_results@) =~= views(rs).push(entry@));
                    assert(views(self.search_result_names@) =~= views(ns).push(idx@));
                    assert(entry@ == lig_entry(ligs[i as int], rev));
                }
                if self.search_results.len() >= 50 {
                    proof {
                        lemma_trigger_hits_full(ligs, rev, q, ql, i + 1, n as int);
                        lemma_result_hits_full(ligs, rev, ql, trigger_hits(ligs, rev, q, ql, n as int), 0, n as int);
                    }
                    return;
                }
            } else {
                proof {
                    assert(trigger_hits(ligs, rev, q, ql, i + 1) == prev);
                }
            }
            i = i + 1;
        }
        // Search result glyph names
        let ghost base = trigger_hits(ligs, rev, q, ql, n as int);
        let mut i: usize = 0;
        while i < n
            invariant
                self.wf(),
                self.font == font,
                ligs == font.ligatures@,
                rev == font.cmap_reverse@,
                font == old(self).font,
                ql == text::lowercase(query@),
                n == ligs.len(),
                i <= n,
                ql == query_lower@,
                base == trigger_hits(ligs, rev, query@, ql, n as int),
                (views(self.search_results@), views(self.search_result_names@)) == result_hits(
                    ligs,
                    rev,
                    ql,
                    base,
                    i as int,
                ),
                self.search_results@.len() < max_results(),
                same_nav_except_results(*old(self), *self),
                self.search_selected == old(self).search_selected,
                self.cursor_row == old(self).cursor_row,
                self.cursor_col == old(self).cursor_col,
                self.clipboard == old(self).clipboard,
                self.floating == old(self).floating,
                self.status_message == old(self).status_message,
            decreases n - i,
        {
            let lig = &self.font.ligatures[i];
            let lower = text::chars_of(text::to_lowercase(lig.result_glyph.as_str()).as_str());
            let ghost prev = (views(self.search_results@), views(self.search_result_names@));
            if text::contains(&lower, &query_lower) {
                let mut entry = text::lit("\"");
                text::append(&mut entry, &text::chars_of(lig.trigger_text(&self.font.cmap_reverse).as_str()));
                text::append(&mut entry, &text::lit("\" → "));
                text::append(&mut entry, &text::chars_of(lig.result_glyph.as_str()));
                let entry = text::string_of(&entry);
                proof {
                    assert(entry@ == lig_entry(ligs[i as int], rev));
                }
                if !lists(&self.search_results, &entry) {
                    let idx = text::string_of(&text::dec(i as u64));
                    let ghost rs = self.search_results@;
                    let ghost ns = self.search_result_names@;
                    self.search_results.push(entry);
                    self.search_result_names.push(idx);
                    proof {
                        assert(views(self.search_results@) =~= views(rs).push(entry@));
                        assert(views(self.search_result_names@) =~= views(ns).push(idx@));
                    }
                    if self.search_results.len() >= 50 {
                        proof {
                            lemma_result_hits_full(ligs, rev, ql, base, i + 1, n as int);
                        }
                        return;
                    }
                } else {
                    proof {
                        assert(result_hits(ligs, rev, ql, base, i + 1) == prev);
                    }
                }
            } else {
                proof {
                    assert(result_hits(ligs, rev, ql, base, i + 1) == prev);
                }
            }
            i = i + 1;
        }
    }

    /// Reruns the search for the current input.
    pub fn update_search(&mut self)
        requires
            old(self).wf(),
        ensures
            update_search_post(*old(self), *final(self)),

    {
        self.search_results.clear();
        self.search_result_names.clear();
        self.search_selected = 0;
        let query = text::trim(&text::chars_of(self.search_input.as_str()));
        if query.len() == 0 {
            proof {
                assert(views(self.search_results@) =~= Seq::<Seq<char>>::empty());
                assert(views(self.search_result_names@) =~= Seq::<Seq<char>>::empty());
            }
            return;
        }
        match self.search_target {
            SearchTarget::Glyph => self.search_glyphs(&query),
            SearchTarget::Ligature => self.search_ligatures(&query),
        }
    }
}


// ---------------------------------------------------------------------------
// Choosing a search result, creating glyphs
// ---------------------------------------------------------------------------

/// The prefix of a result name that asks for a new glyph.
pub open spec fn create_prefix() -> Seq<char> {
    "__create__:"@
}

/// The code point a result name asks a new glyph for, if it is one.
pub open spec fn create_code(name: Seq<char>) -> Option<u32> {
    if text::starts_with_seq(name, create_prefix()) {
        match text::parse_unsigned_spec(
            name.subrange(create_prefix().len() as int, name.len() as int),
            10,
            u32::MAX as nat,
        ) {
            Some(v) => Some(v as u32),
            None => None,
        }
    } else {
        None
    }
}

/// The first position of `n` in `order`.
pub open spec fn position_of(order: Seq<String>, n: Seq<char>) -> Option<int> {
    if exists|j: int| 0 <= j < order.len() && #[trigger] order[j]@ == n {
        Some(
            choose|j: int|
                0 <= j < order.len() && #[trigger] order[j]@ == n && forall|k: int|
                    0 <= k < j ==> order[k]@ != n,
        )
    } else {
        None
    }
}

/// The name a new glyph for `cp` gets: `uniXXXX` in the Basic Multilingual
/// Plane, `uXXXXXX` beyond it.
pub open spec fn new_glyph_name(cp: u32) -> Seq<char> {
    if cp <= 0xFFFF {
        "uni"@ + text::hex_seq(cp as nat, true, 4)
    } else {
        "u"@ + text::hex_seq(cp as nat, true, 6)
    }
}

/// Rows of a new glyph: the font's line height in cells.
pub open spec fn new_glyph_rows(font: Font) -> usize {
    cells_of(font.ascent - font.descent)
}

/// The font's metrics leave room for a new glyph: its line height is an
/// `i32` and a grid of 8 columns and that many rows fits in font units.
pub open spec fn room_for_new_glyph(font: Font) -> bool {
    &&& i32::MIN <= font.ascent - font.descent <= i32::MAX
    &&& new_glyph_rows(font) * 10 <= i32::MAX
    &&& font.ascent - new_glyph_rows(font) * 10 >= i32::MIN
}

/// `g` is the blank glyph `n` of `rows` rows, 80 units wide.
pub open spec fn blank_glyph(g: Glyph, n: Seq<char>, rows: usize) -> bool {
    &&& g.name@ == n
    &&& g.pixels.wf()
    &&& g.pixels.width == 8
    &&& g.pixels.height == rows
    &&& forall|c: int, r: int| !#[trigger] g.pixels@.get(c, r)
    &&& g.contours@.len() == 0
    &&& g.width == 80
    &&& g.lsb == 0
    &&& g.bbox is None
}

/// `b` is `a` after a new glyph was created for `cp` and opened for editing.
pub open spec fn glyph_created(a: App, b: App, cp: u32) -> bool {
    let n = new_glyph_name(cp);
    let fa = a.font;
    let fb = b.font;
    &&& views(fb.glyph_order@) == views(fa.glyph_order@).push(n)
    &&& fb.glyphs@.dom() == fa.glyphs@.dom().insert(n)
    &&& blank_glyph(fb.glyphs@[n], n, new_glyph_rows(fa))
    &&& forall|k: Seq<char>| #[trigger] fa.glyphs@.contains_key(k) && k != n ==> fb.glyphs@[k] == fa.glyphs@[k]
    &&& fb.cmap@ == fa.cmap@.insert(cp, n)
    &&& fb.cmap_reverse@.dom() == fa.cmap_reverse@.dom().insert(n)
    &&& fb.cmap_reverse@[n]@ == (if fa.cmap_reverse@.contains_key(n) {
        fa.cmap_reverse@[n]@.push(cp)
    } else {
        seq![cp]
    })
    &&& forall|k: Seq<char>| #[trigger] fa.cmap_reverse@.contains_key(k) && k != n ==> fb.cmap_reverse@[k] == fa.cmap_reverse@[k]
    &&& fb.hmtx@ == fa.hmtx@.insert(n, HmtxEntry { width: 80, lsb: 0 })
    &&& fb.dirty@ == fa.dirty@.insert(n)
    &&& fb.ligatures == fa.ligatures
    &&& fb.units_per_em == fa.units_per_em
    &&& fb.ascent == fa.ascent
    &&& fb.descent == fa.descent
    &&& fb.source_lines == fa.source_lines
    &&& fb.preprocessor_lines == fa.preprocessor_lines
    &&& fb.glyph_order_range == fa.glyph_order_range
    &&& fb.hmtx_range == fa.hmtx_range
    &&& fb.glyf_ranges == fa.glyf_ranges
    &&& fb.glyf_section_end == fa.glyf_section_end
    &&& fb.gsub_lookup5_range == fa.gsub_lookup5_range
    &&& fb.cmap_format4_range == fa.cmap_format4_range
    &&& b.glyph_index == fa.glyph_order@.len()
    &&& b.cursor_row == 0
    &&& b.cursor_col == 0
    &&& b.mode == Mode::GlyphEdit
    &&& b.status_is("Created new glyph for "@ + u_plus(cp) + char_part(cp))
    &&& b.file_path == a.file_path
    &&& b.prev_mode == a.prev_mode
    &&& b.search_target == a.search_target
    &&& b.should_quit == a.should_quit
    &&& b.ligature_index == a.ligature_index
    &&& b.search_input == a.search_input
    &&& b.search_results == a.search_results
    &&& b.search_result_names == a.search_result_names
    &&& b.search_selected == a.search_selected
    &&& b.clipboard == a.clipboard
    &&& b.floating == a.floating
}

impl App {
    /// The result name under the selection, if the selection is in range.
    pub open spec fn selected_name(&self) -> Option<Seq<char>> {
        if self.search_selected < self.search_result_names@.len() {
            Some(self.search_result_names@[self.search_selected as int]@)
        } else {
            None
        }
    }

    /// Choosing the selection would create a glyph.
    pub open spec fn selection_creates(&self) -> bool {
        self.selected_name() matches Some(n) && create_code(n) is Some
    }

    /// Whether the font's metrics leave room for a new glyph.
    pub fn has_room_for_new_glyph(&self) -> (b: bool)
        ensures
            b == room_for_new_glyph(self.font),
    {
        let d = self.font.ascent as i64 - self.font.descent as i64;
        if d < i32::MIN as i64 || d > i32::MAX as i64 {
            return false;
        }
        let rows = self.font.grid_height();
        if rows > 214748364 {
            return false;
        }
        self.font.ascent as i64 - (rows as i64) * 10 >= i32::MIN as i64
    }

    /// Goes to the selected search result: a glyph, a ligature, or a new glyph
    /// for a code point.
    pub fn select_search_result(&mut self)
        requires
            old(self).wf(),
            old(self).selection_creates() ==> room_for_new_glyph(old(self).font),
        ensures
            select_search_result_post(*old(self), *final(self)),

    {
        if self.search_selected >= self.search_result_names.len() {
            self.close_search();
            return;
        }
        let name = text::chars_of(self.search_result_names[self.search_selected].as_str());
        // Handle "create new glyph" entries
        proof {
            reveal_strlit("__create__:");
        }
        if let Some(cp_str) = text::strip_prefix(&name, &text::lit("__create__:")) {
            if let Some(cp) = text::parse_u32(&cp_str) {
                self.create_glyph(cp);
                return;
            }
        }
        match self.search_target {
            SearchTarget::Glyph => {
                let ghost order = self.font.glyph_order@;
                let mut i: usize = 0;
                while i < self.font.glyph_order.len()
                    invariant
                        *self == *old(self),
                        self.wf(),
                        old(self).selected_name() == Some(name@),
                        create_code(name@) is None,
                        self.search_target == SearchTarget::Glyph,
                        order == self.font.glyph_order@,
                        i <= order.len(),
                        forall|k: int| 0 <= k < i ==> order[k]@ != name@,
                    decreases order.len() - i,
                {
                    if text::chars_eq(&text::chars_of(self.font.glyph_order[i].as_str()), &name) {
                        proof {
                            assert(order[i as int]@ == name@);
                            let c = choose|j: int|
                                0 <= j < order.len() && #[trigger] order[j]@ == name@ && forall|k: int|
                                    0 <= k < j ==> order[k]@ != name@;
                            if c < i {
                                assert(order[c]@ != name@);
                            } else if c > i {
                                assert(order[i as int]@ != name@);
                            }
                            assert(position_of(order, name@) == Some(i as int));
                        }
                        self.glyph_index = i;
                        self.cursor_row = 0;
                        self.cursor_col = 0;
                        self.mode = Mode::GlyphEdit;
                        return;
                    }
                    i = i + 1;
                }
            },
            SearchTarget::Ligature => {
                if let Some(idx) = text::parse_usize(&name) {
                    self.ligature_index = idx;
                    self.cursor_row = 0;
                    self.cursor_col = 0;
                    self.mode = Mode::LigatureEdit;
                }
            },
        }
    }

    /// Create a new empty glyph for the given Unicode codepoint.
    fn create_glyph(&mut self, cp: u32)
        requires
            old(self).wf(),
            room_for_new_glyph(old(self).font),
        ensures
            final(self).wf(),
            glyph_created(*old(self), *final(self), cp),
    {
        // Generate glyph name: uniXXXX for BMP, uXXXXXX for supplementary
        let name_chars = if cp <= 0xFFFF {
            text::concat(&text::lit("uni"), &text::hex(cp as u64, true, 4))
        } else {
            text::concat(&text::lit("u"), &text::hex(cp as u64, true, 6))
        };
        let glyph_name = text::string_of(&name_chars);
        let ghost n = glyph_name@;
        let ghost a = *self;
        let grid_w = self.font.grid_width(80);
        let grid_h = self.font.grid_height();
        assert(grid_w == 8);
        let glyph = Glyph {
            name: glyph_name.clone(),
            pixels: PixelGrid::new(grid_w, grid_h),
            contours: Vec::new(),
            width: 80,
            lsb: 0,
            bbox: None,
        };
        self.font.glyph_order.push(glyph_name.clone());
        self.font.glyphs.insert(glyph_name.clone(), glyph);
        self.font.cmap.insert(cp, glyph_name.clone());
        match self.font.cmap_reverse.index_of(&glyph_name) {
            Some(i) => {
                let ghost e = self.font.cmap_reverse.entries@;
                let codes = self.font.cmap_reverse.value_mut(i);
                codes.push(cp);
                proof {
                    let v = self.font.cmap_reverse.entries@[i as int].1;
                    lemma_map_of_update(e, i as int, v);
                    assert(self.font.cmap_reverse.entries@ == e.update(i as int, (e[i as int].0, v)));
                    assert(v@ == e[i as int].1@.push(cp));
                    assert(self.font.cmap_reverse@[n]@ == a.font.cmap_reverse@[n]@.push(cp));
                }
            },
            None => {
                let mut codes: Vec<u32> = Vec::new();
                codes.push(cp);
                self.font.cmap_reverse.insert(glyph_name.clone(), codes);
                proof {
                    assert(self.font.cmap_reverse@[n]@ =~= seq![cp]);
                }
            },
        }
        self.font.hmtx.insert(glyph_name.clone(), HmtxEntry { width: 80, lsb: 0 });
        self.font.dirty.insert(glyph_name);
        self.glyph_index = self.font.glyph_order.len() - 1;
        self.cursor_row = 0;
        self.cursor_col = 0;
        self.mode = Mode::GlyphEdit;
        let mut msg = text::lit("Created new glyph for ");
        text::append(&mut msg, &u_plus_exec(cp));
        text::append(&mut msg, &char_part_exec(cp));
        self.status_message = Some(StatusMessage::new(text::string_of(&msg)));
        proof {
            assert(views(self.font.glyph_order@) =~= views(a.font.glyph_order@).push(n));
            assert(self.font.glyphs@.dom() =~= a.font.glyphs@.dom().insert(n));
            assert(self.font.cmap_reverse@.dom() =~= a.font.cmap_reverse@.dom().insert(n));
            let old_codes = crate::font::codes_view(a.font.cmap_reverse@);
            let l = if old_codes.contains_key(n) { old_codes[n].push(cp) } else { seq![cp] };
            crate::font::lemma_agrees_insert(a.font.cmap@, old_codes, cp, n);
            assert(crate::font::codes_view(self.font.cmap_reverse@) =~= old_codes.insert(n, l));
        }
    }
}


// ---------------------------------------------------------------------------
// SVG export and saving
// ---------------------------------------------------------------------------

/// Rust's `v / 10` on integers (truncating toward zero).
pub open spec fn div10(v: int) -> int {
    if v >= 0 {
        v / 10
    } else {
        -((-v) / 10)
    }
}

/// `x y` of a font point in pixel coordinates: `col = x / 10`,
/// `row = (ascent - y) / 10`.
pub open spec fn svg_xy(p: crate::font::Point, ascent: int) -> Seq<char> {
    text::int_seq(div10(p.x as int)) + " "@ + text::int_seq(div10(ascent - p.y))
}

/// The ` L x y` segments of the points `ps`.
pub open spec fn svg_lines(ps: Seq<crate::font::Point>, ascent: int) -> Seq<char>
    decreases ps.len(),
{
    if ps.len() == 0 {
        seq![]
    } else {
        svg_lines(ps.drop_last(), ascent) + " L"@ + svg_xy(ps.last(), ascent)
    }
}

/// Path data of a contour: `Mx y`, ` Lx y` for the other points, ` Z `;
/// nothing for a contour without points.
pub open spec fn svg_contour(c: Contour, ascent: int) -> Seq<char> {
    let ps = c.points@;
    if ps.len() == 0 {
        seq![]
    } else {
        "M"@ + svg_xy(ps[0], ascent) + svg_lines(ps.subrange(1, ps.len() as int), ascent) + " Z "@
    }
}

/// Path data of the contours, in order.
pub open spec fn svg_path(cs: Seq<Contour>, ascent: int) -> Seq<char>
    decreases cs.len(),
{
    if cs.len() == 0 {
        seq![]
    } else {
        svg_path(cs.drop_last(), ascent) + svg_contour(cs.last(), ascent)
    }
}

/// The SVG document of a `w` x `h` glyph with the given contours.
pub open spec fn svg_text(w: usize, h: usize, cs: Seq<Contour>, ascent: int) -> Seq<char> {
    let view_box = "<svg xmlns=\"http://www.w3.org/2000/svg\" viewBox=\"0 0 "@ + text::dec_seq(w as nat) + " "@
        + text::dec_seq(h as nat);
    if cs.len() == 0 {
        view_box + "\"/>\n"@
    } else {
        view_box + "\">\n  <path d=\""@ + text::trim_seq(svg_path(cs, ascent))
            + "\" fill=\"black\" fill-rule=\"nonzero\"/>\n</svg>\n"@
    }
}

/// `x y` of a lattice point in pixel coordinates.
fn svg_xy_exec(p: crate::font::Point, ascent: i32, Ghost(w): Ghost<int>, Ghost(h): Ghost<int>) -> (s: Vec<char>)
    requires
        crate::grid::on_font_lattice(p, ascent as int, w, h),
        h * 10 <= i32::MAX,
    ensures
        s@ == svg_xy(p, ascent as int),
{
    let mut s = text::dec_signed((p.x / 10) as i64);
    text::append(&mut s, &text::lit(" "));
    text::append(&mut s, &text::dec_signed(((ascent - p.y) / 10) as i64));
    s
}

/// The SVG document of a glyph grid, traced by `vectorize`.
#[verifier::spinoff_prover]
#[verifier::rlimit(100)]
/// The SVG document of an outline of a `width` x `height` glyph grid.
fn svg_document(width: usize, height: usize, contours: &Vec<Contour>, ascent: i32) -> (svg: String)
    requires
        height * 10 <= i32::MAX,
        forall|j: int|
            0 <= j < contours@.len() ==> crate::grid::contour_ok(
                #[trigger] contours@[j],
                ascent as int,
                width as int,
                height as int,
            ),
    ensures
        svg@ == svg_text(width, height, contours@, ascent as int),
{
    let mut head = text::lit("<svg xmlns=\"http://www.w3.org/2000/svg\" viewBox=\"0 0 ");
    text::append(&mut head, &text::dec(width as u64));
    text::append(&mut head, &text::lit(" "));
    text::append(&mut head, &text::dec(height as u64));
    if contours.len() == 0 {
        text::append(&mut head, &text::lit("\"/>\n"));
        let svg = text::string_of(&head);
        proof {
            assert(svg@ == svg_text(width, height, contours@, ascent as int));
        }
        return svg;
    }
    let mut path: Vec<char> = Vec::new();
    let mut k: usize = 0;
    while k < contours.len()
        invariant
            k <= contours@.len(),
            forall|j: int|
                0 <= j < contours@.len() ==> crate::grid::contour_ok(
                    #[trigger] contours@[j],
                    ascent as int,
                    width as int,
                    height as int,
                ),
            path@ == svg_path(contours@.subrange(0, k as int), ascent as int),
            height * 10 <= i32::MAX,
        decreases contours@.len() - k,
    {
        let pts = &contours[k].points;
        let ghost before = path@;
        assert(crate::grid::contour_ok(contours@[k as int], ascent as int, width as int, height as int));
        if pts.len() > 0 {
            let mut seg = text::lit("M");
            text::append(&mut seg, &svg_xy_exec(pts[0], ascent, Ghost(width as int), Ghost(height as int)));
            let mut j: usize = 1;
            while j < pts.len()
                invariant
                    1 <= j <= pts@.len(),
                    forall|m: int|
                        0 <= m < pts@.len() ==> crate::grid::on_font_lattice(
                            #[trigger] pts@[m],
                            ascent as int,
                            width as int,
                            height as int,
                        ),
                    seg@ == "M"@ + svg_xy(pts@[0], ascent as int) + svg_lines(pts@.subrange(1, j as int), ascent as int),
                    height * 10 <= i32::MAX,
                decreases pts@.len() - j,
            {
                text::append(&mut seg, &text::lit(" L"));
                text::append(&mut seg, &svg_xy_exec(pts[j], ascent, Ghost(width as int), Ghost(height as int)));
                proof {
                    assert(pts@.subrange(1, j + 1).drop_last() =~= pts@.subrange(1, j as int));
                }
                j = j + 1;
            }
            text::append(&mut seg, &text::lit(" Z "));
            text::append(&mut path, &seg);
        }
        proof {
            assert(contours@.subrange(0, k + 1).drop_last() =~= contours@.subrange(0, k as int));
        }
        k = k + 1;
    }
    proof {
        assert(contours@.subrange(0, contours@.len() as int) =~= contours@);
    }
    text::append(&mut head, &text::lit("\">\n  <path d=\""));
    text::append(&mut head, &text::trim(&path));
    text::append(&mut head, &text::lit("\" fill=\"black\" fill-rule=\"nonzero\"/>\n</svg>\n"));
    let svg = text::string_of(&head);
    proof {
        assert(svg@ == svg_text(width, height, contours@, ascent as int));
    }
    svg
}

pub fn generate_glyph_svg(grid: &PixelGrid, ascent: i32) -> (svg: String)
    requires
        grid.wf(),
        grid_fits(grid@, ascent as int),
    ensures
        exists|o: (Seq<Contour>, Option<crate::font::BBox>)|
            #![trigger svg_text(grid.width, grid.height, o.0, ascent as int)]
            crate::ttx::write::outline_ok(grid@, ascent as int, o) && svg@ == svg_text(
                grid.width,
                grid.height,
                o.0,
                ascent as int,
            ),
{
    let (contours, bb) = crate::grid::vectorize(grid, ascent);
    let ghost o = (contours@, bb);
    let svg = svg_document(grid.width, grid.height, &contours, ascent);
    proof {
        assert(crate::ttx::write::outline_ok(grid@, ascent as int, o));
        assert(svg@ == svg_text(grid.width, grid.height, o.0, ascent as int));
    }
    svg
}

/// Why a save did not happen.
#[derive(Debug, Clone, Copy, PartialEq, Eq, Structural)]
pub enum SaveError {
    /// The file could not be written.
    Write,
    /// A line range of the font points past the end of the file.
    Layout,
}

impl App {
    /// The lines of the TTX file that saving writes (see `write::save_lines`).
    pub fn save_lines(&self) -> (r: Option<Vec<String>>)
        requires
            self.wf(),
        ensures
            exists|outl: Map<Seq<char>, (Seq<Contour>, Option<crate::font::BBox>)>|
                #![trigger crate::ttx::write::save_plan(self.font, outl)]
                crate::ttx::write::outlines_ok(self.font, outl) && match r {
                    Some(v) => crate::ttx::write::save_plan(self.font, outl) == Some(views(v@)),
                    None => crate::ttx::write::save_plan(self.font, outl) is None,
                },
    {
        crate::ttx::write::save_lines(&self.font)
    }

    /// Records the outcome of a save: on success the written lines become the
    /// baseline, the line ranges are rescanned, the modified glyphs are no
    /// longer marked and the status tells how many there were.
    pub fn finish_save(&mut self, result: Result<Vec<String>, SaveError>)
        requires
            old(self).wf(),
        ensures
            final(self).wf(),
            same_nav(*old(self), *final(self)),
            final(self).cursor_row == old(self).cursor_row,
            final(self).cursor_col == old(self).cursor_col,
            final(self).clipboard == old(self).clipboard,
            final(self).floating == old(self).floating,
            match result {
                Ok(lines) => {
                    &&& final(self).font.source_lines == lines
                    &&& final(self).font.glyf_ranges@ == crate::ttx::write::scan_all(views(lines@)).glyf
                    &&& final(self).font.glyph_order_range == crate::ttx::write::scan_all(views(lines@)).glyph_order_range
                    &&& final(self).font.hmtx_range == crate::ttx::write::scan_all(views(lines@)).hmtx_range
                    &&& final(self).font.glyf_section_end == crate::ttx::write::scan_all(views(lines@)).glyf_end
                    &&& final(self).font.cmap_format4_range == crate::ttx::write::scan_all(views(lines@)).cmap4_range
                    &&& final(self).font.gsub_lookup5_range == crate::ttx::write::scan_all(views(lines@)).lookup5_range
                    &&& final(self).font.glyph_order == old(self).font.glyph_order
                    &&& final(self).font.glyphs == old(self).font.glyphs
                    &&& final(self).font.cmap == old(self).font.cmap
                    &&& final(self).font.cmap_reverse == old(self).font.cmap_reverse
                    &&& final(self).font.hmtx == old(self).font.hmtx
                    &&& final(self).font.ligatures == old(self).font.ligatures
                    &&& final(self).font.ascent == old(self).font.ascent
                    &&& final(self).font.descent == old(self).font.descent
                    &&& final(self).font.units_per_em == old(self).font.units_per_em
                    &&& final(self).font.preprocessor_lines == old(self).font.preprocessor_lines
                    &&& final(self).font.dirty@ == Set::<Seq<char>>::empty()
                    &&& final(self).status_is(
                        "Saved "@ + text::dec_seq(old(self).font.dirty@.len()) + " modified glyph(s) to "@
                            + old(self).file_path@,
                    )
                },
                Err(e) => {
                    &&& final(self).font == old(self).font
                    &&& final(self).status_is(
                        match e {
                            SaveError::Write => "Save failed: writing TTX file"@,
                            SaveError::Layout => "Save failed: line ranges out of date"@,
                        },
                    )
                },
            },
    {
        match result {
            Ok(lines) => {
                crate::ttx::write::finish_save(&mut self.font, lines);
                let count = self.font.dirty.len();
                self.font.dirty.clear();
                let mut msg = text::lit("Saved ");
                text::append(&mut msg, &text::dec(count as u64));
                text::append(&mut msg, &text::lit(" modified glyph(s) to "));
                text::append(&mut msg, &text::chars_of(self.file_path.as_str()));
                self.status_message = Some(StatusMessage::new(text::string_of(&msg)));
            },
            Err(SaveError::Write) => {
                self.status_message = Some(StatusMessage::new(text::owned("Save failed: writing TTX file")));
            },
            Err(SaveError::Layout) => {
                self.status_message = Some(
                    StatusMessage::new(text::owned("Save failed: line ranges out of date")),
                );
            },
        }
    }

    /// What exporting the glyph being edited writes: the file name
    /// (`NAME.svg`) and the SVG document; none when no glyph is being edited.
    #[verifier::spinoff_prover]
    #[verifier::rlimit(100)]
    pub fn export_svg(&self) -> (r: Option<(String, String)>)
        requires
            self.wf(),
        ensures
            match r {
                Some((file, svg)) => {
                    &&& self.editing_glyph() is Some
                    &&& file@ == self.editing_name().unwrap() + ".svg"@
                    &&& exists|o: (Seq<Contour>, Option<crate::font::BBox>)|
                        #![trigger svg_text(self.editing_glyph().unwrap().pixels.width, self.editing_glyph().unwrap().pixels.height, o.0, self.font.ascent as int)]
                        crate::ttx::write::outline_ok(self.editing_glyph().unwrap().pixels@, self.font.ascent as int, o)
                            && svg@ == svg_text(
                            self.editing_glyph().unwrap().pixels.width,
                            self.editing_glyph().unwrap().pixels.height,
                            o.0,
                            self.font.ascent as int,
                        )
                },
                None => self.editing_glyph() is None,
            },
    {
        let i = match self.editing_entry() {
            Some(i) => i,
            None => {
                return None;
            },
        };
        let ghost k = self.font.glyphs.entries@[i as int].0@;
        proof {
            crate::names::lemma_map_of_at(self.font.glyphs.entries@, i as int);
            assert(self.font.glyphs@.contains_key(k));
        }
        let glyph = self.font.glyphs.value_at(i);
        let svg = generate_glyph_svg(&glyph.pixels, self.font.ascent);
        let mut file = text::chars_of(self.font.glyphs.entries[i].0.as_str());
        text::append(&mut file, &text::lit(".svg"));
        Some((text::string_of(&file), svg))
    }

    /// Records the outcome of an export: `Exported NAME.svg`, or the error.
    pub fn finish_export(&mut self, file: &str, error: Option<String>)
        requires
            old(self).wf(),
        ensures
            final(self).wf(),
            final(self).font == old(self).font,
            same_nav(*old(self), *final(self)),
            final(self).cursor_row == old(self).cursor_row,
            final(self).cursor_col == old(self).cursor_col,
            final(self).clipboard == old(self).clipboard,
            final(self).floating == old(self).floating,
            match error {
                None => final(self).status_is("Exported "@ + file@),
                Some(e) => final(self).status_is("Export failed: "@ + e@),
            },
    {
        let mut msg = match error {
            None => {
                let mut m = text::lit("Exported ");
                text::append(&mut m, &text::chars_of(file));
                m
            },
            Some(e) => {
                let mut m = text::lit("Export failed: ");
                text::append(&mut m, &text::chars_of(e.as_str()));
                m
            },
        };
        self.status_message = Some(StatusMessage::new(text::string_of(&msg)));
    }
}

// ---------------------------------------------------------------------------
// What the editing commands do
// ---------------------------------------------------------------------------

/// What `next_glyph` does: `b` is `a` after it.
pub open spec fn next_glyph_post(a: App, b: App) -> bool {
    &&& b.wf()
    &&& b.font == a.font
    &&& b.clipboard == a.clipboard
    &&& b.floating == a.floating
    &&& b.status_message == a.status_message
    &&& if a.glyph_index + 1 < a.font.glyph_order@.len() {
        &&& b.glyph_index == a.glyph_index + 1
        &&& b.cursor_clamped_from(a)
    } else {
        &&& b.glyph_index == a.glyph_index
        &&& b.cursor_row == a.cursor_row
        &&& b.cursor_col == a.cursor_col
    }
    &&& b.mode == a.mode
    &&& b.ligature_index == a.ligature_index
    &&& b.search_input == a.search_input
    &&& b.search_results == a.search_results
    &&& b.search_result_names == a.search_result_names
    &&& b.file_path == a.file_path
    &&& b.prev_mode == a.prev_mode
    &&& b.search_target == a.search_target
    &&& b.should_quit == a.should_quit
    &&& b.search_selected == a.search_selected
}

/// What `prev_glyph` does: `b` is `a` after it.
pub open spec fn prev_glyph_post(a: App, b: App) -> bool {
    &&& b.wf()
    &&& b.font == a.font
    &&& b.clipboard == a.clipboard
    &&& b.floating == a.floating
    &&& b.status_message == a.status_message
    &&& if a.glyph_index > 0 {
        &&& b.glyph_index == a.glyph_index - 1
        &&& b.cursor_clamped_from(a)
    } else {
        &&& b.glyph_index == a.glyph_index
        &&& b.cursor_row == a.cursor_row
        &&& b.cursor_col == a.cursor_col
    }
    &&& b.mode == a.mode
    &&& b.ligature_index == a.ligature_index
    &&& b.search_input == a.search_input
    &&& b.search_results == a.search_results
    &&& b.search_result_names == a.search_result_names
    &&& b.file_path == a.file_path
    &&& b.prev_mode == a.prev_mode
    &&& b.search_target == a.search_target
    &&& b.should_quit == a.should_quit
    &&& b.search_selected == a.search_selected
}

/// What `next_ligature` does: `b` is `a` after it.
pub open spec fn next_ligature_post(a: App, b: App) -> bool {
    &&& b.wf()
    &&& b.font == a.font
    &&& b.clipboard == a.clipboard
    &&& b.floating == a.floating
    &&& b.status_message == a.status_message
    &&& if a.ligature_index + 1 < a.font.ligatures@.len() {
        &&& b.ligature_index == a.ligature_index + 1
        &&& b.cursor_clamped_to_ligature_from(a)
    } else {
        &&& b.ligature_index == a.ligature_index
        &&& b.cursor_row == a.cursor_row
        &&& b.cursor_col == a.cursor_col
    }
    &&& b.mode == a.mode
    &&& b.glyph_index == a.glyph_index
    &&& b.search_input == a.search_input
    &&& b.search_results == a.search_results
    &&& b.search_result_names == a.search_result_names
    &&& b.file_path == a.file_path
    &&& b.prev_mode == a.prev_mode
    &&& b.search_target == a.search_target
    &&& b.should_quit == a.should_quit
    &&& b.search_selected == a.search_selected
}

/// What `prev_ligature` does: `b` is `a` after it.
pub open spec fn prev_ligature_post(a: App, b: App) -> bool {
    &&& b.wf()
    &&& b.font == a.font
    &&& b.clipboard == a.clipboard
    &&& b.floating == a.floating
    &&& b.status_message == a.status_message
    &&& if a.ligature_index > 0 {
        &&& b.ligature_index == a.ligature_index - 1
        &&& b.cursor_clamped_to_ligature_from(a)
    } else {
        &&& b.ligature_index == a.ligature_index
        &&& b.cursor_row == a.cursor_row
        &&& b.cursor_col == a.cursor_col
    }
    &&& b.mode == a.mode
    &&& b.glyph_index == a.glyph_index
    &&& b.search_input == a.search_input
    &&& b.search_results == a.search_results
    &&& b.search_result_names == a.search_result_names
    &&& b.file_path == a.file_path
    &&& b.prev_mode == a.prev_mode
    &&& b.search_target == a.search_target
    &&& b.should_quit == a.should_quit
    &&& b.search_selected == a.search_selected
}

/// What `move_cursor` does: `b` is `a` after it.
pub open spec fn move_cursor_post(a: App, b: App, dr: i32, dc: i32) -> bool {
    &&& b.wf()
    &&& b.font == a.font
    &&& b.clipboard == a.clipboard
    &&& b.floating == a.floating
    &&& b.status_message == a.status_message
    &&& same_nav(a, b)
    &&& match a.cursor_glyph() {
        Some(g) => b.cursor_row == clamp_int(
            a.cursor_row + dr,
            0,
            last_index(g.pixels.height),
        ) && b.cursor_col == clamp_int(
            a.cursor_col + dc,
            0,
            last_index(g.pixels.width),
        ),
        None => b.cursor_row == a.cursor_row && b.cursor_col
            == a.cursor_col,
    }
}

/// What `toggle_pixel` does: `b` is `a` after it.
pub open spec fn toggle_pixel_post(a: App, b: App) -> bool {
    &&& b.wf()
    &&& same_nav(a, b)
    &&& b.cursor_row == a.cursor_row
    &&& b.cursor_col == a.cursor_col
    &&& b.clipboard == a.clipboard
    &&& b.floating == a.floating
    &&& b.status_message == a.status_message
    &&& match a.editing_glyph() {
        Some(g) => {
            let n = a.editing_name()->0;
            &&& pixels_replaced(a.font, b.font, n)
            &&& crate::font::toggled_at(
                g.pixels@,
                b.font.glyphs@[n].pixels@,
                a.cursor_col as int,
                a.cursor_row as int,
            )
            &&& b.font.dirty@ == a.font.dirty@.insert(n)
        },
        None => b.font == a.font,
    }
}

/// What `copy` does: `b` is `a` after it.
pub open spec fn copy_post(a: App, b: App) -> bool {
    &&& b.wf()
    &&& same_nav(a, b)
    &&& b.font == a.font
    &&& b.cursor_row == a.cursor_row
    &&& b.cursor_col == a.cursor_col
    &&& b.floating == a.floating
    &&& match a.editing_glyph() {
        Some(g) => {
            &&& b.clipboard matches Some(c) && c@ == g.pixels@ && c.width == g.pixels.width && c.height == g.pixels.height
            &&& b.status_is("Copied to clipboard"@)
        },
        None => b.clipboard == a.clipboard && b.status_message
            == a.status_message,
    }
}

/// What `start_paste` does: `b` is `a` after it.
pub open spec fn start_paste_post(a: App, b: App) -> bool {
    &&& b.wf()
    &&& same_nav(a, b)
    &&& b.font == a.font
    &&& b.cursor_row == a.cursor_row
    &&& b.cursor_col == a.cursor_col
    &&& b.clipboard == a.clipboard
    &&& match (a.clipboard, a.editing_glyph()) {
        (None, _) => b.status_is("Clipboard is empty"@) && b.floating
            == a.floating,
        (Some(clip), Some(g)) => {
            &&& b.floating matches Some(f) && f.op == FloatingOp::Paste
                && f.pixels@ == clip@ && f.pixels.width == clip.width && f.pixels.height == clip.height
                && f.offset_row == 0 && f.offset_col == 0 && f.original_pixels@ == g.pixels@
                && f.original_pixels.width == g.pixels.width && f.original_pixels.height == g.pixels.height
                && f.glyph_name@ == a.editing_name()->0
            &&& b.status_is("Paste: arrows to position, Enter to commit, Esc to cancel"@)
        },
        (Some(_), None) => b.floating == a.floating
            && b.status_message == a.status_message,
    }
}

/// What `start_move` does: `b` is `a` after it.
pub open spec fn start_move_post(a: App, b: App) -> bool {
    &&& b.wf()
    &&& same_nav(a, b)
    &&& b.cursor_row == a.cursor_row
    &&& b.cursor_col == a.cursor_col
    &&& b.clipboard == a.clipboard
    &&& b.font.dirty == a.font.dirty
    &&& match a.editing_glyph() {
        Some(g) => {
            let n = a.editing_name()->0;
            &&& pixels_replaced(a.font, b.font, n)
            &&& b.font.glyphs@[n].pixels.width == g.pixels.width
            &&& b.font.glyphs@[n].pixels.height == g.pixels.height
            &&& forall|c: int, r: int| !#[trigger] b.font.glyphs@[n].pixels@.get(c, r)
            &&& b.floating matches Some(f) && f.op == FloatingOp::Move
                && f.pixels@ == g.pixels@ && f.offset_row == 0 && f.offset_col == 0
                && f.original_pixels@ == g.pixels@ && f.glyph_name@ == n
            &&& b.status_is("Move: arrows to position, Enter to commit, Esc to cancel"@)
        },
        None => b.font == a.font && b.floating == a.floating
            && b.status_message == a.status_message,
    }
}

/// What `reset_canvas` does: `b` is `a` after it.
pub open spec fn reset_canvas_post(a: App, b: App) -> bool {
    &&& b.wf()
    &&& same_nav(a, b)
    &&& b.cursor_row == a.cursor_row
    &&& b.cursor_col == a.cursor_col
    &&& b.clipboard == a.clipboard
    &&& b.floating == a.floating
    &&& match a.editing_glyph() {
        Some(g) => {
            let n = a.editing_name()->0;
            &&& pixels_replaced(a.font, b.font, n)
            &&& b.font.glyphs@[n].pixels.width == g.pixels.width
            &&& b.font.glyphs@[n].pixels.height == g.pixels.height
            &&& forall|c: int, r: int| !#[trigger] b.font.glyphs@[n].pixels@.get(c, r)
            &&& b.font.dirty@ == a.font.dirty@.insert(n)
            &&& b.status_is("Canvas cleared"@)
        },
        None => b.font == a.font && b.status_message
            == a.status_message,
    }
}

/// What `move_floating` does: `b` is `a` after it.
pub open spec fn move_floating_post(a: App, b: App, dr: i32, dc: i32) -> bool {
    &&& b.wf()
    &&& same_nav(a, b)
    &&& b.font == a.font
    &&& b.cursor_row == a.cursor_row
    &&& b.cursor_col == a.cursor_col
    &&& b.clipboard == a.clipboard
    &&& b.status_message == a.status_message
    &&& match a.floating {
        None => b.floating is None,
        Some(f) => b.floating matches Some(g) && g.op == f.op && g.pixels == f.pixels
            && g.original_pixels == f.original_pixels && g.glyph_name == f.glyph_name && if f.op
            == FloatingOp::Move {
            match filled_bbox_of(f.pixels@) {
                Some(bb) => g.offset_row == max_then_min(
                    f.offset_row + dr,
                    -bb.0,
                    f.original_pixels.height - 1 - bb.1,
                ) && g.offset_col == max_then_min(
                    f.offset_col + dc,
                    -bb.2,
                    f.original_pixels.width - 1 - bb.3,
                ),
                None => g.offset_row == f.offset_row && g.offset_col == f.offset_col,
            }
        } else {
            g.offset_row == f.offset_row + dr && g.offset_col == f.offset_col + dc
        },
    }
}

/// What `commit_floating` does: `b` is `a` after it.
pub open spec fn commit_floating_post(a: App, b: App) -> bool {
    &&& b.wf()
    &&& same_nav(a, b)
    &&& b.cursor_row == a.cursor_row
    &&& b.cursor_col == a.cursor_col
    &&& b.clipboard == a.clipboard
    &&& match a.floating {
        None => b.floating is None && b.font == a.font
            && b.status_message == a.status_message,
        Some(f) => {
            let n = f.glyph_name@;
            &&& b.floating is None
            &&& b.status_is("Committed"@)
            &&& if a.font.glyphs@.contains_key(n) {
                &&& pixels_replaced(a.font, b.font, n)
                &&& crate::font::stamped(
                    a.font.glyphs@[n].pixels@,
                    b.font.glyphs@[n].pixels@,
                    f.pixels@,
                    f.offset_row as int,
                    f.offset_col as int,
                )
                &&& b.font.dirty@ == a.font.dirty@.insert(n)
            } else {
                b.font == a.font
            }
        },
    }
}

/// What `rotate_floating` does: `b` is `a` after it.
pub open spec fn rotate_floating_post(a: App, b: App) -> bool {
    &&& b.wf()
    &&& same_nav(a, b)
    &&& b.font == a.font
    &&& b.cursor_row == a.cursor_row
    &&& b.cursor_col == a.cursor_col
    &&& b.clipboard == a.clipboard
    &&& b.status_message == a.status_message
    &&& match a.floating {
        None => b.floating is None,
        Some(f) => b.floating matches Some(g) && g.op == f.op
            && crate::font::rotated_cw(f.pixels@, g.pixels@) && g.offset_row == f.offset_row
            && g.offset_col == f.offset_col && g.original_pixels == f.original_pixels
            && g.glyph_name == f.glyph_name,
    }
}

/// What `cancel_floating` does: `b` is `a` after it.
pub open spec fn cancel_floating_post(a: App, b: App) -> bool {
    &&& b.wf()
    &&& same_nav(a, b)
    &&& b.cursor_row == a.cursor_row
    &&& b.cursor_col == a.cursor_col
    &&& b.clipboard == a.clipboard
    &&& b.font.dirty == a.font.dirty
    &&& match a.floating {
        None => b.floating is None && b.font == a.font
            && b.status_message == a.status_message,
        Some(f) => {
            let n = f.glyph_name@;
            &&& b.floating is None
            &&& b.status_is("Cancelled"@)
            &&& if a.font.glyphs@.contains_key(n) {
                &&& pixels_replaced(a.font, b.font, n)
                &&& b.font.glyphs@[n].pixels == f.original_pixels
            } else {
                b.font == a.font
            }
        },
    }
}

/// What `open_search` does: `b` is `a` after it.
pub open spec fn open_search_post(a: App, b: App, target: SearchTarget) -> bool {
    &&& b.wf()
    &&& b.prev_mode == a.mode
    &&& b.mode == Mode::Search
    &&& b.search_target == target
    &&& b.search_input@.len() == 0
    &&& b.search_results@.len() == 0
    &&& b.search_result_names@.len() == 0
    &&& b.search_selected == 0
    &&& b.font == a.font
    &&& b.file_path == a.file_path
    &&& b.should_quit == a.should_quit
    &&& b.glyph_index == a.glyph_index
    &&& b.ligature_index == a.ligature_index
    &&& b.cursor_row == a.cursor_row
    &&& b.cursor_col == a.cursor_col
    &&& b.clipboard == a.clipboard
    &&& b.floating == a.floating
    &&& b.status_message == a.status_message
}

/// What `close_search` does: `b` is `a` after it.
pub open spec fn close_search_post(a: App, b: App) -> bool {
    &&& b.mode == a.prev_mode
    &&& b.prev_mode == a.prev_mode
    &&& b.font == a.font
    &&& b.file_path == a.file_path
    &&& b.search_target == a.search_target
    &&& b.should_quit == a.should_quit
    &&& b.glyph_index == a.glyph_index
    &&& b.ligature_index == a.ligature_index
    &&& b.cursor_row == a.cursor_row
    &&& b.cursor_col == a.cursor_col
    &&& b.search_input == a.search_input
    &&& b.search_results == a.search_results
    &&& b.search_result_names == a.search_result_names
    &&& b.search_selected == a.search_selected
    &&& b.clipboard == a.clipboard
    &&& b.floating == a.floating
    &&& b.status_message == a.status_message
}

/// What `update_search` does: `b` is `a` after it.
pub open spec fn update_search_post(a: App, b: App) -> bool {
    &&& b.wf()
    &&& (views(b.search_results@), views(b.search_result_names@))
        == search_results_for(a.font, a.search_target, a.search_input@)
    &&& b.search_selected == 0
    &&& b.font == a.font
    &&& same_nav_except_results(a, b)
    &&& b.cursor_row == a.cursor_row
    &&& b.cursor_col == a.cursor_col
    &&& b.clipboard == a.clipboard
    &&& b.floating == a.floating
    &&& b.status_message == a.status_message
}

/// What `select_search_result` does: `b` is `a` after it.
pub open spec fn select_search_result_post(a: App, b: App) -> bool {
    &&& b.wf()
    &&& match a.selected_name() {
        None => b == (App { mode: a.prev_mode, ..a }),
        Some(n) => match create_code(n) {
            Some(cp) => glyph_created(a, b, cp),
            None => match a.search_target {
                SearchTarget::Glyph => match position_of(a.font.glyph_order@, n) {
                    Some(j) => b == (App {
                        glyph_index: j as usize,
                        cursor_row: 0,
                        cursor_col: 0,
                        mode: Mode::GlyphEdit,
                        ..a
                    }),
                    None => b == a,
                },
                SearchTarget::Ligature => match text::parse_unsigned_spec(n, 10, usize::MAX as nat) {
                    Some(v) => b == (App {
                        ligature_index: v as usize,
                        cursor_row: 0,
                        cursor_col: 0,
                        mode: Mode::LigatureEdit,
                        ..a
                    }),
                    None => b == a,
                },
            },
        },
    }
}


// ---------------------------------------------------------------------------
// Title bars
// ---------------------------------------------------------------------------

/// The parts joined with `sep` between them.
pub open spec fn join_sep(parts: Seq<Seq<char>>, sep: Seq<char>) -> Seq<char>
    decreases parts.len(),
{
    if parts.len() == 0 {
        seq![]
    } else if parts.len() == 1 {
        parts[0]
    } else {
        join_sep(parts.drop_last(), sep) + sep + parts.last()
    }
}

/// `U+XXXX "c" NAME` for a code point of the title bar; the name is looked up
/// for NUL when the code point is not a character.
pub open spec fn code_label(cp: u32) -> Seq<char> {
    u_plus(cp) + char_part(cp) + name_part(
        if text::scalar(cp) {
            cp as char
        } else {
            '\0'
        },
    )
}

/// ` *` for a glyph with unsaved changes.
pub open spec fn dirty_mark(font: Font, n: Seq<char>) -> Seq<char> {
    if font.dirty@.contains(n) {
        " *"@
    } else {
        seq![]
    }
}

/// The title bar of glyph `n`: its name, its code points, and the mark of
/// unsaved changes.
pub open spec fn glyph_title_of(font: Font, n: Seq<char>) -> Seq<char> {
    let info = if font.cmap_reverse@.contains_key(n) {
        join_sep(font.cmap_reverse@[n]@.map_values(|c: u32| code_label(c)), ", "@)
    } else {
        "(no Unicode mapping)"@
    };
    " FSEX.ttx | "@ + n + " | "@ + info + dirty_mark(font, n)
}

/// The title bar of a ligature: its trigger, result, glyph sequence and the
/// mark of unsaved changes on its result glyph.
pub open spec fn ligature_title_of(font: Font, lig: LigatureRule) -> Seq<char> {
    " Ligature: \""@ + lig_trigger(lig, font.cmap_reverse@) + "\" → "@ + lig.result_glyph@ + " ("@
        + lig.first_glyph@ + " + "@ + join_sep(views(lig.components@), " + "@) + ")"@ + dirty_mark(
        font,
        lig.result_glyph@,
    )
}

fn code_label_exec(cp: u32) -> (s: Vec<char>)
    ensures
        s@ == code_label(cp),
{
    let mut s = u_plus_exec(cp);
    text::append(&mut s, &char_part_exec(cp));
    let c = match text::char_from_u32(cp) {
        Some(c) => {
            proof {
                vstd::utf8::char_u32_cast(c, cp);
            }
            c
        },
        None => '\0',
    };
    text::append(&mut s, &name_part_exec(c));
    s
}

impl App {
    /// The title bar for glyph `glyph` of the font.
    pub fn glyph_title(&self, glyph: &Glyph) -> (t: String)
        requires
            self.wf(),
        ensures
            t@ == glyph_title_of(self.font, glyph.name@),
    {
        let name = &glyph.name;
        let ghost n = name@;
        let mut t = text::lit(" FSEX.ttx | ");
        text::append(&mut t, &text::chars_of(name.as_str()));
        text::append(&mut t, &text::lit(" | "));
        match self.font.cmap_reverse.get(name) {
            Some(codes) => {
                let ghost labels = codes@.map_values(|c: u32| code_label(c));
                let mut info: Vec<char> = Vec::new();
                let mut i: usize = 0;
                while i < codes.len()
                    invariant
                        i <= codes@.len(),
                        labels == codes@.map_values(|c: u32| code_label(c)),
                        info@ == join_sep(labels.subrange(0, i as int), ", "@),
                    decreases codes@.len() - i,
                {
                    if i > 0 {
                        text::append(&mut info, &text::lit(", "));
                    }
                    text::append(&mut info, &code_label_exec(codes[i]));
                    proof {
                        let v = labels.subrange(0, i + 1);
                        assert(v.drop_last() =~= labels.subrange(0, i as int));
                        if i == 0 {
                            assert(info@ =~= v[0]);
                        }
                    }
                    i = i + 1;
                }
                proof {
                    assert(labels.subrange(0, codes@.len() as int) =~= labels);
                }
                text::append(&mut t, &info);
            },
            None => {
                text::append(&mut t, &text::lit("(no Unicode mapping)"));
            },
        }
        if self.font.dirty.contains(name) {
            text::append(&mut t, &text::lit(" *"));
        }
        proof {
            assert(t@ =~= glyph_title_of(self.font, n));
        }
        text::string_of(&t)
    }

    /// The title bar for ligature `lig` of the font.
    pub fn ligature_title(&self, lig: &LigatureRule) -> (t: String)
        requires
            self.wf(),
        ensures
            t@ == ligature_title_of(self.font, *lig),
    {
        let mut t = text::lit(" Ligature: \"");
        text::append(&mut t, &text::chars_of(lig.trigger_text(&self.font.cmap_reverse).as_str()));
        text::append(&mut t, &text::lit("\" → "));
        text::append(&mut t, &text::chars_of(lig.result_glyph.as_str()));
        text::append(&mut t, &text::lit(" ("));
        text::append(&mut t, &text::chars_of(lig.first_glyph.as_str()));
        text::append(&mut t, &text::lit(" + "));
        let ghost parts = views(lig.components@);
        let mut joined: Vec<char> = Vec::new();
        let mut i: usize = 0;
        while i < lig.components.len()
            invariant
                i <= lig.components@.len(),
                parts == views(lig.components@),
                joined@ == join_sep(parts.subrange(0, i as int), " + "@),
            decreases lig.components@.len() - i,
        {
            if i > 0 {
                text::append(&mut joined, &text::lit(" + "));
            }
            text::append(&mut joined, &text::chars_of(lig.components[i].as_str()));
            proof {
                let v = parts.subrange(0, i + 1);
                assert(v.drop_last() =~= parts.subrange(0, i as int));
                if i == 0 {
                    assert(joined@ =~= v[0]);
                }
            }
            i = i + 1;
        }
        proof {
            assert(parts.subrange(0, lig.components@.len() as int) =~= parts);
        }
        text::append(&mut t, &joined);
        text::append(&mut t, &text::lit(")"));
        if self.font.dirty.contains(&lig.result_glyph) {
            text::append(&mut t, &text::lit(" *"));
        }
        proof {
            assert(t@ =~= ligature_title_of(self.font, *lig));
        }
        text::string_of(&t)
    }
}


// ---------------------------------------------------------------------------
// Laws of the editing commands
// ---------------------------------------------------------------------------

/// Toggling the same pixel of the glyph being edited twice leaves its pixels
/// as they were.
pub proof fn law_toggle_pixel_twice(a: App, b: App, c: App)
    requires
        a.wf(),
        toggle_pixel_post(a, b),
        toggle_pixel_post(b, c),
        a.editing_glyph() is Some,
    ensures
        c.font.glyphs@[a.editing_name()->0].pixels@ == a.font.glyphs@[a.editing_name()->0].pixels@,
        c.font.glyphs@.dom() == a.font.glyphs@.dom(),
{
    let n = a.editing_name()->0;
    let g0 = a.font.glyphs@[n].pixels@;
    let g1 = b.font.glyphs@[n].pixels@;
    let g2 = c.font.glyphs@[n].pixels@;
    assert(b.editing_name() == a.editing_name());
    assert(b.editing_glyph() is Some);
    assert(crate::font::glyph_ok(a.font.glyphs@[n], a.font.ascent as int));
    crate::font::law_toggle_twice(g0, g1, g2, a.cursor_col as int, a.cursor_row as int);
}

/// Starting a move and cancelling it gives the glyph its pixels back.
pub proof fn law_move_then_cancel(a: App, b: App, c: App)
    requires
        start_move_post(a, b),
        cancel_floating_post(b, c),
        a.editing_glyph() is Some,
    ensures
        c.font.glyphs@[a.editing_name()->0].pixels@ == a.font.glyphs@[a.editing_name()->0].pixels@,
        c.floating is None,
{
}

/// A moved layer stays on the canvas: after a move step, the bounding box of
/// its filled pixels lies inside the glyph it was lifted from (when the box
/// fits the glyph at all).
pub proof fn law_move_stays_on_canvas(a: App, b: App, dr: i32, dc: i32)
    requires
        move_floating_post(a, b, dr, dc),
        a.floating matches Some(f) && f.op == FloatingOp::Move && filled_bbox_of(f.pixels@) is Some,
        ({
            let f = a.floating->0;
            let bb = filled_bbox_of(f.pixels@)->0;
            bb.1 - bb.0 < f.original_pixels.height && bb.3 - bb.2 < f.original_pixels.width
        }),
    ensures
        ({
            let f = a.floating->0;
            let g = b.floating->0;
            let bb = filled_bbox_of(f.pixels@)->0;
            &&& 0 <= g.offset_row + bb.0
            &&& g.offset_row + bb.1 < f.original_pixels.height
            &&& 0 <= g.offset_col + bb.2
            &&& g.offset_col + bb.3 < f.original_pixels.width
        }),
{
}

/// Starting a move and committing it at once gives the glyph its pixels back,
/// and marks it modified.
pub proof fn law_move_then_commit(a: App, b: App, c: App)
    requires
        a.wf(),
        start_move_post(a, b),
        commit_floating_post(b, c),
        a.editing_glyph() is Some,
    ensures
        c.font.glyphs@[a.editing_name()->0].pixels@ == a.font.glyphs@[a.editing_name()->0].pixels@,
        c.floating is None,
        c.font.dirty@.contains(a.editing_name()->0),
{
    let n = a.editing_name()->0;
    let p = a.font.glyphs@[n].pixels@;
    let f = b.floating->0;
    assert(crate::font::glyph_ok(a.font.glyphs@[n], a.font.ascent as int));
    assert(crate::font::glyph_ok(c.font.glyphs@[n], c.font.ascent as int));
    let q = c.font.glyphs@[n].pixels@;
    assert forall|x: int, y: int| 0 <= x < p.width && 0 <= y < p.height implies p.get(x, y) == q.get(x, y) by {
        assert(!b.font.glyphs@[n].pixels@.get(x, y));
        assert(q.get(x, y) == (b.font.glyphs@[n].pixels@.get(x, y) || (b.font.glyphs@[n].pixels@.in_grid(x, y)
            && f.pixels@.get(x, y))));
    }
    crate::font::lemma_view_ext(p, q);
}

/// Copying the glyph, pasting it and committing the paste where it lands
/// leaves the glyph's pixels as they were.
pub proof fn law_copy_paste_commit(a: App, b: App, c: App, d: App)
    requires
        a.wf(),
        copy_post(a, b),
        start_paste_post(b, c),
        commit_floating_post(c, d),
        a.editing_glyph() is Some,
    ensures
        d.font.glyphs@[a.editing_name()->0].pixels@ == a.font.glyphs@[a.editing_name()->0].pixels@,
        d.floating is None,
{
    let n = a.editing_name()->0;
    let p = a.font.glyphs@[n].pixels@;
    assert(b.editing_glyph() == a.editing_glyph());
    let f = c.floating->0;
    assert(f.pixels@ == p);
    assert(crate::font::glyph_ok(a.font.glyphs@[n], a.font.ascent as int));
    assert(crate::font::glyph_ok(d.font.glyphs@[n], d.font.ascent as int));
    let q = d.font.glyphs@[n].pixels@;
    assert forall|x: int, y: int| 0 <= x < p.width && 0 <= y < p.height implies p.get(x, y) == q.get(x, y) by {
        assert(q.get(x, y) == (p.get(x, y) || (p.in_grid(x, y) && f.pixels@.get(x, y))));
    }
    crate::font::lemma_view_ext(p, q);
}

/// Starting a paste and cancelling it leaves every glyph's pixels as they
/// were.
pub proof fn law_paste_then_cancel(a: App, b: App, c: App)
    requires
        a.wf(),
        start_paste_post(a, b),
        cancel_floating_post(b, c),
        a.floating is None,
    ensures
        c.font.glyphs@.dom() == a.font.glyphs@.dom(),
        forall|k: Seq<char>| #[trigger] a.font.glyphs@.contains_key(k) ==> c.font.glyphs@[k].pixels@
            == a.font.glyphs@[k].pixels@,
        c.floating is None,
{
}

/// Opening a search and closing it again returns to the mode it was opened in.
pub proof fn law_search_returns_to_mode(a: App, b: App, c: App, target: SearchTarget)
    requires
        open_search_post(a, b, target),
        close_search_post(b, c),
    ensures
        c.mode == a.mode,
        c.font == a.font,
        c.glyph_index == a.glyph_index,
        c.ligature_index == a.ligature_index,
{
}

/// Pasting what was copied floats exactly the copied pixels.
pub proof fn law_copy_then_paste(a: App, b: App, c: App)
    requires
        copy_post(a, b),
        start_paste_post(b, c),
        a.editing_glyph() is Some,
    ensures
        c.floating matches Some(f) && f.pixels@ == a.editing_glyph()->0.pixels@,
{
    assert(b.editing_glyph() == a.editing_glyph());
}

proof fn lemma_result_hits_len(
    ligs: Seq<LigatureRule>,
    rev: Map<Seq<char>, Vec<u32>>,
    ql: Seq<char>,
    base: (Seq<Seq<char>>, Seq<Seq<char>>),
    k: int,
)
    requires
        base.0.len() <= max_results(),
    ensures
        result_hits(ligs, rev, ql, base, k).0.len() <= max_results(),
    decreases k,
{
    if k > 0 {
        lemma_result_hits_len(ligs, rev, ql, base, k - 1);
    }
}

proof fn lemma_name_hits_lists(order: Seq<String>, rev: Map<Seq<char>, Vec<u32>>, ql: Seq<char>, i: int, k: int)
    requires
        0 <= i < k <= order.len(),
        text::contains_seq(text::lowercase(order[i]@), ql),
    ensures
        name_hits(order, rev, ql, k).1.contains(order[i]@) || name_hits(order, rev, ql, k).0.len()
            == max_results(),
    decreases k,
{
    lemma_name_hits_len(order, rev, ql, k);
    lemma_name_hits_len(order, rev, ql, k - 1);
    let prev = name_hits(order, rev, ql, k - 1);
    if k - 1 == i {
        if prev.0.len() < max_results() {
            assert(name_hits(order, rev, ql, k).1 == prev.1.push(order[i]@));
            assert(name_hits(order, rev, ql, k).1[prev.1.len() as int] == order[i]@);
        }
    } else {
        lemma_name_hits_lists(order, rev, ql, i, k - 1);
        if prev.1.contains(order[i]@) {
            let j = choose|j: int| 0 <= j < prev.1.len() && prev.1[j] == order[i]@;
            let cur = name_hits(order, rev, ql, k);
            assert(cur.1 == prev.1 || cur.1 == prev.1.push(order[k - 1]@));
            assert(cur.1[j] == order[i]@);
        }
    }
}

/// Glyph-name search is case-insensitive: for a query of two characters or
/// more that is not a code point, every glyph whose name, lowercased, holds the
/// lowercased query is listed, unless 50 results are listed already. In
/// particular, searching for a glyph's exact name lists it.
pub proof fn law_glyph_name_search_ignores_case(font: Font, input: Seq<char>, i: int)
    requires
        text::trim_seq(input).len() >= 2,
        codepoint_of(text::trim_seq(input)) is None,
        0 <= i < font.glyph_order@.len(),
        text::contains_seq(text::lowercase(font.glyph_order@[i]@), text::lowercase(text::trim_seq(input))),
    ensures
        search_results_for(font, SearchTarget::Glyph, input).1.contains(font.glyph_order@[i]@)
            || search_results_for(font, SearchTarget::Glyph, input).0.len() == 50,
{
    let q = text::trim_seq(input);
    let ql = text::lowercase(q);
    let order = font.glyph_order@;
    lemma_name_hits_lists(order, font.cmap_reverse@, ql, i, order.len() as int);
    lemma_name_hits_len(order, font.cmap_reverse@, ql, order.len() as int);
}

/// Searching for a glyph's exact name (two characters or more, not a code
/// point) lists that glyph, unless 50 results are listed already.
pub proof fn law_glyph_search_finds_exact_name(font: Font, input: Seq<char>, i: int)
    requires
        0 <= i < font.glyph_order@.len(),
        text::trim_seq(input) == font.glyph_order@[i]@,
        font.glyph_order@[i]@.len() >= 2,
        codepoint_of(font.glyph_order@[i]@) is None,
    ensures
        search_results_for(font, SearchTarget::Glyph, input).1.contains(font.glyph_order@[i]@)
            || search_results_for(font, SearchTarget::Glyph, input).0.len() == 50,
{
    let l = text::lowercase(font.glyph_order@[i]@);
    assert(text::occurs_at(l, l, 0)) by {
        assert(l.subrange(0, l.len() as int) =~= l);
    }
    law_glyph_name_search_ignores_case(font, input, i);
}

proof fn lemma_result_hits_lists(
    ligs: Seq<LigatureRule>,
    rev: Map<Seq<char>, Vec<u32>>,
    ql: Seq<char>,
    base: (Seq<Seq<char>>, Seq<Seq<char>>),
    i: int,
    k: int,
)
    requires
        0 <= i < k <= ligs.len(),
        base.0.len() <= max_results(),
        text::contains_seq(text::lowercase(ligs[i].result_glyph@), ql),
    ensures
        result_hits(ligs, rev, ql, base, k).0.contains(lig_entry(ligs[i], rev)) || result_hits(
            ligs,
            rev,
            ql,
            base,
            k,
        ).0.len() == max_results(),
    decreases k,
{
    lemma_result_hits_len(ligs, rev, ql, base, k);
    lemma_result_hits_len(ligs, rev, ql, base, k - 1);
    let prev = result_hits(ligs, rev, ql, base, k - 1);
    let cur = result_hits(ligs, rev, ql, base, k);
    let e = lig_entry(ligs[i], rev);
    if k - 1 == i {
        if prev.0.len() < max_results() && !prev.0.contains(e) {
            assert(cur.0 == prev.0.push(e));
            assert(cur.0[prev.0.len() as int] == e);
        } else if prev.0.len() < max_results() {
            assert(cur.0 == prev.0);
        }
    } else {
        lemma_result_hits_lists(ligs, rev, ql, base, i, k - 1);
        if prev.0.contains(e) {
            let j = choose|j: int| 0 <= j < prev.0.len() && prev.0[j] == e;
            assert(cur.0 == prev.0 || cur.0 == prev.0.push(lig_entry(ligs[k - 1], rev)));
            assert(cur.0[j] == e);
        }
    }
}

/// Ligature search also finds ligatures by their result glyph: every ligature
/// whose result name, lowercased, holds the lowercased query is listed,
/// whether or not its trigger text matches, unless 50 results are listed
/// already.
pub proof fn law_ligature_search_by_result(font: Font, input: Seq<char>, i: int)
    requires
        text::trim_seq(input).len() >= 1,
        0 <= i < font.ligatures@.len(),
        text::contains_seq(
            text::lowercase(font.ligatures@[i].result_glyph@),
            text::lowercase(text::trim_seq(input)),
        ),
    ensures
        search_results_for(font, SearchTarget::Ligature, input).0.contains(
            lig_entry(font.ligatures@[i], font.cmap_reverse@),
        ) || search_results_for(font, SearchTarget::Ligature, input).0.len() == 50,
{
    let q = text::trim_seq(input);
    let ql = text::lowercase(q);
    let ligs = font.ligatures@;
    let rev = font.cmap_reverse@;
    lemma_trigger_hits_len(ligs, rev, q, ql, ligs.len() as int);
    lemma_result_hits_lists(ligs, rev, ql, trigger_hits(ligs, rev, q, ql, ligs.len() as int), i, ligs.len() as int);
}

/// A move step shifts the floating layer by exactly the step asked for, each
/// offset by its own step, wherever the lifted pixels stay on the canvas (a
/// pasted layer is never clamped).
pub proof fn law_move_step_shifts_offsets(a: App, b: App, dr: i32, dc: i32)
    requires
        move_floating_post(a, b, dr, dc),
        a.floating is Some,
    ensures
        ({
            let f = a.floating->0;
            let g = b.floating->0;
            let stays_rows = f.op == FloatingOp::Paste || match filled_bbox_of(f.pixels@) {
                Some(bb) => 0 <= f.offset_row + dr + bb.0 && f.offset_row + dr + bb.1 < f.original_pixels.height,
                None => dr == 0,
            };
            let stays_cols = f.op == FloatingOp::Paste || match filled_bbox_of(f.pixels@) {
                Some(bb) => 0 <= f.offset_col + dc + bb.2 && f.offset_col + dc + bb.3 < f.original_pixels.width,
                None => dc == 0,
            };
            &&& stays_rows ==> g.offset_row == f.offset_row + dr
            &&& stays_cols ==> g.offset_col == f.offset_col + dc
        }),
{
}

/// A search lists at most 50 results.
pub proof fn law_search_at_most_50(font: Font, target: SearchTarget, input: Seq<char>)
    ensures
        search_results_for(font, target, input).0.len() <= 50,
{
    let q = text::trim_seq(input);
    let ql = text::lowercase(q);
    lemma_name_hits_len(font.glyph_order@, font.cmap_reverse@, ql, font.glyph_order@.len() as int);
    lemma_unicode_hits_len(font.cmap.entries@, ql, font.cmap.entries@.len() as int);
    let ligs = font.ligatures@;
    let rev = font.cmap_reverse@;
    lemma_trigger_hits_len(ligs, rev, q, ql, ligs.len() as int);
    lemma_result_hits_len(ligs, rev, ql, trigger_hits(ligs, rev, q, ql, ligs.len() as int), ligs.len() as int);
}

} // verus!
