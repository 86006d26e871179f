use vstd::prelude::*;
use crate::font::{BBox, Contour, Font, Glyph, HmtxEntry, LigatureRule, LineRange, PixelGrid, Point, PreprocessorLine, cells_of};
use quick_xml::Reader;
use quick_xml::events::{BytesEnd, BytesStart, Event};
use crate::grid::{rasterizes_to, total_points};
use crate::text;
use crate::text::views;
use vstd::string::StringSliceAdditionalSpecFns;

verus! {

// ---------------------------------------------------------------------------
// XML items as the parser sees them
// ---------------------------------------------------------------------------

/// An element tag: its name and its attributes, each as (key, raw value), or
/// none where the attribute could not be read.
pub struct Tag {
    pub name: String,
    pub attrs: Vec<Option<(String, String)>>,
}

/// One item of the XML stream.
pub enum XmlItem {
    Start(Tag),
    Empty(Tag),
    End(String),
    Other,
}

/// The attributes of a tag as plain values.
pub open spec fn attrs_view(a: Seq<Option<(String, String)>>) -> Seq<Option<(Seq<char>, Seq<char>)>> {
    a.map_values(
        |o: Option<(String, String)>|
            match o {
                Some((k, v)) => Some((k@, v@)),
                None => None,
            },
    )
}

/// An item of the XML stream as plain values.
pub enum Item {
    Start(Seq<char>, Seq<Option<(Seq<char>, Seq<char>)>>),
    Empty(Seq<char>, Seq<Option<(Seq<char>, Seq<char>)>>),
    End(Seq<char>),
    Other,
}

pub open spec fn item_view(x: XmlItem) -> Item {
    match x {
        XmlItem::Start(t) => Item::Start(t.name@, attrs_view(t.attrs@)),
        XmlItem::Empty(t) => Item::Empty(t.name@, attrs_view(t.attrs@)),
        XmlItem::End(n) => Item::End(n@),
        XmlItem::Other => Item::Other,
    }
}

/// The value of the first readable attribute named `key`.
pub open spec fn attr(attrs: Seq<Option<(Seq<char>, Seq<char>)>>, key: Seq<char>) -> Option<Seq<char>>
    decreases attrs.len(),
{
    if attrs.len() == 0 {
        None
    } else {
        match attrs[0] {
            Some((k, v)) => if k == key {
                Some(v)
            } else {
                attr(attrs.drop_first(), key)
            },
            None => attr(attrs.drop_first(), key),
        }
    }
}

/// `"0x41"` or `"0X41"` in hexadecimal, otherwise decimal.
pub open spec fn hex_or_dec(s: Seq<char>) -> Option<u32> {
    let r = if text::starts_with_seq(s, "0x"@) || text::starts_with_seq(s, "0X"@) {
        text::parse_unsigned_spec(s.subrange(2, s.len() as int), 16, u32::MAX as nat)
    } else {
        text::parse_unsigned_spec(s, 10, u32::MAX as nat)
    };
    match r {
        Some(v) => Some(v as u32),
        None => None,
    }
}

/// An `i32` attribute value.
pub open spec fn i32_of(s: Seq<char>) -> Option<i32> {
    match text::parse_i32_spec(s) {
        Some(v) => Some(v as i32),
        None => None,
    }
}

/// An `i32` attribute value, or `dflt` when it does not parse.
pub open spec fn i32_or(s: Seq<char>, dflt: i32) -> i32 {
    match i32_of(s) {
        Some(v) => v,
        None => dflt,
    }
}

/// The attribute, parsed as an `i32`.
pub open spec fn attr_i32(attrs: Seq<Option<(Seq<char>, Seq<char>)>>, key: Seq<char>) -> Option<i32> {
    match attr(attrs, key) {
        Some(v) => i32_of(v),
        None => None,
    }
}

// ---------------------------------------------------------------------------
// The parser's state as plain values
// ---------------------------------------------------------------------------

/// A glyph as the parser builds it. Its pixels are blank, or the rasterization
/// of its contours at `raster_ascent`.
pub struct GlyphModel {
    pub name: Seq<char>,
    pub contours: Seq<Seq<Point>>,
    pub width: i32,
    pub lsb: i32,
    pub bbox: Option<BBox>,
    pub cols: usize,
    pub rows: usize,
    pub rasterized: bool,
    pub raster_ascent: i32,
}

/// A ligature rule as plain values.
pub struct LigModel {
    pub first: Seq<char>,
    pub components: Seq<Seq<char>>,
    pub result: Seq<char>,
}

/// Everything the parser keeps track of.
pub struct PState {
    pub glyph_order: Seq<Seq<char>>,
    pub glyphs: Map<Seq<char>, GlyphModel>,
    pub cmap: Map<u32, Seq<char>>,
    pub cmap_reverse: Map<Seq<char>, Seq<u32>>,
    pub hmtx: Map<Seq<char>, HmtxEntry>,
    pub ligatures: Seq<LigModel>,
    pub units_per_em: i32,
    pub ascent: i32,
    pub descent: i32,
    pub glyph_order_range: Option<LineRange>,
    pub hmtx_range: Option<LineRange>,
    pub glyf_ranges: Map<Seq<char>, LineRange>,
    pub glyf_section_end: Option<usize>,
    pub gsub_lookup5_range: Option<LineRange>,
    pub cmap_format4_range: Option<LineRange>,
    pub glyph_name: Seq<char>,
    pub contour: Seq<Point>,
    pub contours: Seq<Seq<Point>>,
    pub bbox: Option<BBox>,
    pub glyph_start: usize,
    pub in_gsub: bool,
    pub in_lookup5: bool,
    pub in_ligature_subst: bool,
    pub lig_set_glyph: Seq<char>,
    pub lookup5_start: usize,
    pub in_cmap: bool,
    pub in_cmap4: bool,
    pub cmap4_start: usize,
    pub glyph_order_start: usize,
    pub hmtx_start: usize,
    pub in_glyph_order: bool,
    pub in_hmtx: bool,
    pub in_head: bool,
    pub in_hhea: bool,
    pub in_glyf: bool,
    pub failed: bool,
}

pub open spec fn pstate_start() -> PState {
    PState {
        glyph_order: seq![],
        glyphs: Map::empty(),
        cmap: Map::empty(),
        cmap_reverse: Map::empty(),
        hmtx: Map::empty(),
        ligatures: seq![],
        units_per_em: 160,
        ascent: 130,
        descent: -30i32,
        glyph_order_range: None,
        hmtx_range: None,
        glyf_ranges: Map::empty(),
        glyf_section_end: None,
        gsub_lookup5_range: None,
        cmap_format4_range: None,
        glyph_name: seq![],
        contour: seq![],
        contours: seq![],
        bbox: None,
        glyph_start: 0,
        in_gsub: false,
        in_lookup5: false,
        in_ligature_subst: false,
        lig_set_glyph: seq![],
        lookup5_start: 0,
        in_cmap: false,
        in_cmap4: false,
        cmap4_start: 0,
        glyph_order_start: 0,
        hmtx_start: 0,
        in_glyph_order: false,
        in_hmtx: false,
        in_head: false,
        in_hhea: false,
        in_glyf: false,
        failed: false,
    }
}

/// Points of a list of contours.
pub open spec fn contour_points(cs: Seq<Contour>) -> Seq<Seq<Point>> {
    cs.map_values(|c: Contour| c.points@)
}

/// Number of points in the first `k` point lists.
pub open spec fn count_upto(ps: Seq<Seq<Point>>, k: int) -> int
    decreases k,
{
    if k <= 0 {
        0
    } else {
        count_upto(ps, k - 1) + ps[k - 1].len()
    }
}

/// Number of points of a list of point lists.
pub open spec fn count_points(ps: Seq<Seq<Point>>) -> int {
    count_upto(ps, ps.len() as int)
}

proof fn lemma_count_points(cs: Seq<Contour>, k: int)
    requires
        0 <= k <= cs.len(),
    ensures
        crate::grid::points_upto(cs, k) == count_upto(contour_points(cs), k),
    decreases k,
{
    if k > 0 {
        lemma_count_points(cs, k - 1);
    }
}

/// The metrics of glyph `name`, or 80 units wide with no side bearing.
pub open spec fn metrics_of(m: PState, name: Seq<char>) -> HmtxEntry {
    if m.hmtx.contains_key(name) {
        m.hmtx[name]
    } else {
        HmtxEntry { width: 80, lsb: 0 }
    }
}

/// A `cols` x `rows` grid whose corners have font coordinates in `i32` for
/// the given ascent.
pub open spec fn dims_fit(cols: usize, rows: usize, ascent: i32) -> bool {
    &&& cols * rows <= usize::MAX
    &&& cols * 10 <= i32::MAX
    &&& rows * 10 <= i32::MAX
    &&& ascent - rows * 10 >= i32::MIN
}

/// The line height is an `i32`.
pub open spec fn line_height_ok(m: PState) -> bool {
    i32::MIN <= m.ascent - m.descent <= i32::MAX
}

/// A glyph closed at line `line` is added (with its TTGlyph range); the
/// parser fails instead when its grid would not fit.
pub open spec fn close_glyph(m: PState, line: usize, rasterized: bool) -> PState {
    let name = m.glyph_name;
    let met = metrics_of(m, name);
    let cols = cells_of(met.width as int);
    let rows = cells_of(m.ascent - m.descent);
    let cs = if rasterized {
        m.contours
    } else {
        seq![]
    };
    if !line_height_ok(m) || !dims_fit(cols, rows, m.ascent) || (rasterized && count_points(cs) > i32::MAX) {
        PState { failed: true, ..m }
    } else {
        let g = GlyphModel {
            name,
            contours: cs,
            width: met.width,
            lsb: met.lsb,
            bbox: if rasterized {
                m.bbox
            } else {
                None
            },
            cols,
            rows,
            rasterized,
            raster_ascent: m.ascent,
        };
        PState {
            glyph_name: seq![],
            contours: if rasterized {
                seq![]
            } else {
                m.contours
            },
            glyf_ranges: m.glyf_ranges.insert(name, LineRange { start: m.glyph_start, end: line }),
            glyphs: m.glyphs.insert(name, g),
            ..m
        }
    }
}

/// The opening tags of the glyph order, head, hhea and hmtx tables.
pub open spec fn open_tables(m: PState, tag: Seq<char>, attrs: Seq<Option<(Seq<char>, Seq<char>)>>, line: usize) -> PState {
    if tag == "GlyphOrder"@ || tag == "GlyphID"@ || tag == "head"@ || tag == "unitsPerEm"@ {
        open_order_head(m, tag, attrs, line)
    } else {
        open_metrics(m, tag, attrs, line)
    }
}

/// The opening tags of the glyph order and head tables.
pub open spec fn open_order_head(m: PState, tag: Seq<char>, attrs: Seq<Option<(Seq<char>, Seq<char>)>>, line: usize) -> PState {
    if tag == "GlyphOrder"@ {
        PState { in_glyph_order: true, glyph_order_start: line, ..m }
    } else if tag == "GlyphID"@ && m.in_glyph_order {
        match attr(attrs, "name"@) {
            Some(n) => PState { glyph_order: m.glyph_order.push(n), ..m },
            None => m,
        }
    } else if tag == "head"@ {
        PState { in_head: true, ..m }
    } else if tag == "unitsPerEm"@ && m.in_head {
        match attr(attrs, "value"@) {
            Some(v) => PState { units_per_em: i32_or(v, 160), ..m },
            None => m,
        }
    } else {
        m
    }
}

/// The opening tags of the hhea and hmtx tables.
pub open spec fn open_metrics(m: PState, tag: Seq<char>, attrs: Seq<Option<(Seq<char>, Seq<char>)>>, line: usize) -> PState {
    if tag == "hhea"@ {
        PState { in_hhea: true, ..m }
    } else if tag == "ascent"@ && m.in_hhea {
        match attr(attrs, "value"@) {
            Some(v) => PState { ascent: i32_or(v, 130), ..m },
            None => m,
        }
    } else if tag == "descent"@ && m.in_hhea {
        match attr(attrs, "value"@) {
            Some(v) => PState { descent: i32_or(v, -30i32), ..m },
            None => m,
        }
    } else if tag == "hmtx"@ {
        PState { in_hmtx: true, hmtx_start: line, ..m }
    } else if tag == "mtx"@ && m.in_hmtx {
        match (attr(attrs, "name"@), attr(attrs, "width"@), attr(attrs, "lsb"@)) {
            (Some(n), Some(w), Some(l)) => PState {
                hmtx: m.hmtx.insert(n, HmtxEntry { width: i32_or(w, 80), lsb: i32_or(l, 0) }),
                ..m
            },
            _ => m,
        }
    } else {
        m
    }
}

/// The opening tags of the cmap table.
pub open spec fn open_cmap(m: PState, tag: Seq<char>, attrs: Seq<Option<(Seq<char>, Seq<char>)>>, line: usize) -> PState {
    if tag == "cmap"@ {
        PState { in_cmap: true, ..m }
    } else if tag == "cmap_format_4"@ && m.in_cmap {
        let pid = match attr(attrs, "platformID"@) {
            Some(v) => v,
            None => seq![],
        };
        let eid = match attr(attrs, "platEncID"@) {
            Some(v) => v,
            None => seq![],
        };
        if pid == "3"@ && eid == "1"@ {
            PState { in_cmap4: true, cmap4_start: line, ..m }
        } else {
            m
        }
    } else if tag == "map"@ && m.in_cmap4 {
        match (attr(attrs, "code"@), attr(attrs, "name"@)) {
            (Some(c), Some(n)) => match hex_or_dec(c) {
                Some(code) => PState {
                    cmap: m.cmap.insert(code, n),
                    cmap_reverse: m.cmap_reverse.insert(
                        n,
                        if m.cmap_reverse.contains_key(n) {
                            m.cmap_reverse[n].push(code)
                        } else {
                            seq![code]
                        },
                    ),
                    ..m
                },
                None => m,
            },
            _ => m,
        }
    } else {
        m
    }
}

/// The opening tags of the glyf table.
pub open spec fn open_glyf(m: PState, tag: Seq<char>, attrs: Seq<Option<(Seq<char>, Seq<char>)>>, line: usize) -> PState {
    if tag == "glyf"@ {
        PState { in_glyf: true, ..m }
    } else if tag == "TTGlyph"@ && m.in_glyf {
        PState {
            glyph_name: match attr(attrs, "name"@) {
                Some(n) => n,
                None => seq![],
            },
            contours: seq![],
            glyph_start: line,
            bbox: match (attr_i32(attrs, "xMin"@), attr_i32(attrs, "yMin"@), attr_i32(attrs, "xMax"@), attr_i32(attrs, "yMax"@)) {
                (Some(a), Some(b), Some(c), Some(d)) => Some(BBox { x_min: a, y_min: b, x_max: c, y_max: d }),
                _ => None,
            },
            ..m
        }
    } else if tag == "contour"@ && m.in_glyf {
        PState { contour: seq![], ..m }
    } else if tag == "pt"@ && m.in_glyf {
        match (attr_i32(attrs, "x"@), attr_i32(attrs, "y"@)) {
            (Some(x), Some(y)) => PState { contour: m.contour.push(Point { x, y }), ..m },
            _ => m,
        }
    } else {
        m
    }
}

/// The components of a ligature: the comma-separated names, trimmed.
pub open spec fn components_of(s: Seq<char>) -> Seq<Seq<char>> {
    text::split_seq(s, ',').map_values(|p: Seq<char>| text::trim_seq(p))
}

/// The opening tags of the GSUB table.
pub open spec fn open_gsub(m: PState, tag: Seq<char>, attrs: Seq<Option<(Seq<char>, Seq<char>)>>, line: usize) -> PState {
    if tag == "GSUB"@ {
        PState { in_gsub: true, ..m }
    } else if tag == "Lookup"@ && m.in_gsub {
        if attr_i32(attrs, "index"@) == Some(5i32) {
            PState { in_lookup5: true, lookup5_start: line, ..m }
        } else {
            m
        }
    } else if tag == "LigatureSubst"@ && m.in_lookup5 {
        PState { in_ligature_subst: true, ..m }
    } else if tag == "LigatureSet"@ && m.in_ligature_subst {
        PState {
            lig_set_glyph: match attr(attrs, "glyph"@) {
                Some(g) => g,
                None => seq![],
            },
            ..m
        }
    } else if tag == "Ligature"@ && m.in_ligature_subst {
        match (attr(attrs, "components"@), attr(attrs, "glyph"@)) {
            (Some(c), Some(g)) => PState {
                ligatures: m.ligatures.push(
                    LigModel { first: m.lig_set_glyph, components: components_of(c), result: g },
                ),
                ..m
            },
            _ => m,
        }
    } else {
        m
    }
}

/// The tags whose opening is handled by each table's part.
pub open spec fn table_tag(tag: Seq<char>) -> bool {
    tag == "GlyphOrder"@ || tag == "GlyphID"@ || tag == "head"@ || tag == "unitsPerEm"@ || tag == "hhea"@
        || tag == "ascent"@ || tag == "descent"@ || tag == "hmtx"@ || tag == "mtx"@
}

pub open spec fn cmap_tag(tag: Seq<char>) -> bool {
    tag == "cmap"@ || tag == "cmap_format_4"@ || tag == "map"@
}

pub open spec fn glyf_tag(tag: Seq<char>) -> bool {
    tag == "glyf"@ || tag == "TTGlyph"@ || tag == "contour"@ || tag == "pt"@
}

/// An opening tag (`<tag ...>` or `<tag .../>`) at line `line`.
pub open spec fn open_tag(m: PState, tag: Seq<char>, attrs: Seq<Option<(Seq<char>, Seq<char>)>>, line: usize) -> PState {
    if table_tag(tag) {
        open_tables(m, tag, attrs, line)
    } else if cmap_tag(tag) {
        open_cmap(m, tag, attrs, line)
    } else if glyf_tag(tag) {
        open_glyf(m, tag, attrs, line)
    } else {
        open_gsub(m, tag, attrs, line)
    }
}

/// A self-closing tag: an empty `<TTGlyph .../>` with a name adds a blank
/// glyph.
pub open spec fn empty_tag(m: PState, tag: Seq<char>, attrs: Seq<Option<(Seq<char>, Seq<char>)>>, line: usize) -> PState {
    let m1 = open_tag(m, tag, attrs, line);
    if tag == "TTGlyph"@ && m1.in_glyf && m1.glyph_name.len() > 0 {
        close_glyph(m1, line, false)
    } else {
        m1
    }
}

/// A closing tag `</tag>` at line `line`.
pub open spec fn close_tag(m: PState, tag: Seq<char>, line: usize) -> PState {
    if tag == "GlyphOrder"@ {
        PState {
            in_glyph_order: false,
            glyph_order_range: Some(LineRange { start: m.glyph_order_start, end: line }),
            ..m
        }
    } else if tag == "head"@ {
        PState { in_head: false, ..m }
    } else if tag == "hhea"@ {
        PState { in_hhea: false, ..m }
    } else if tag == "hmtx"@ {
        PState { in_hmtx: false, hmtx_range: Some(LineRange { start: m.hmtx_start, end: line }), ..m }
    } else if tag == "cmap_format_4"@ && m.in_cmap4 {
        PState {
            in_cmap4: false,
            cmap_format4_range: Some(LineRange { start: m.cmap4_start, end: line }),
            ..m
        }
    } else if tag == "cmap"@ {
        PState { in_cmap: false, ..m }
    } else if tag == "contour"@ && m.in_glyf {
        if m.contour.len() > 0 {
            PState { contours: m.contours.push(m.contour), contour: seq![], ..m }
        } else {
            m
        }
    } else if tag == "TTGlyph"@ && m.in_glyf {
        close_glyph(m, line, true)
    } else if tag == "glyf"@ {
        PState { in_glyf: false, glyf_section_end: Some(line), ..m }
    } else if tag == "Lookup"@ && m.in_lookup5 {
        PState {
            in_lookup5: false,
            in_ligature_subst: false,
            gsub_lookup5_range: Some(LineRange { start: m.lookup5_start, end: line }),
            ..m
        }
    } else if tag == "LigatureSubst"@ && m.in_ligature_subst {
        PState { in_ligature_subst: false, ..m }
    } else if tag == "LigatureSet"@ && m.in_ligature_subst {
        PState { lig_set_glyph: seq![], ..m }
    } else if tag == "GSUB"@ {
        PState { in_gsub: false, ..m }
    } else {
        m
    }
}

/// One item of the stream, at line `line`.
pub open spec fn step(m: PState, it: Item, line: usize) -> PState {
    match it {
        Item::Start(tag, attrs) => open_tag(m, tag, attrs, line),
        Item::Empty(tag, attrs) => empty_tag(m, tag, attrs, line),
        Item::End(tag) => close_tag(m, tag, line),
        Item::Other => m,
    }
}


// ---------------------------------------------------------------------------
// Attribute values, numbers and line numbers
// ---------------------------------------------------------------------------

/// Get an attribute value from an XML element: the first readable attribute
/// with the key `name`.
pub fn get_attr(attrs: &Vec<Option<(String, String)>>, name: &str) -> (r: Option<String>)
    ensures
        match r {
            Some(v) => attr(attrs_view(attrs@), name@) == Some(v@),
            None => attr(attrs_view(attrs@), name@) is None,
        },
{
    let ghost v = attrs_view(attrs@);
    let mut i: usize = 0;
    proof {
        assert(v.subrange(0, v.len() as int) =~= v);
    }
    while i < attrs.len()
        invariant
            v == attrs_view(attrs@),
            i <= attrs@.len(),
            attr(v, name@) == attr(v.subrange(i as int, v.len() as int), name@),
        decreases attrs@.len() - i,
    {
        let ghost rest = v.subrange(i as int, v.len() as int);
        proof {
            assert(rest.drop_first() =~= v.subrange(i + 1, v.len() as int));
            assert(rest[0] == v[i as int]);
        }
        match &attrs[i] {
            Some((k, val)) => {
                if text::chars_eq(&text::chars_of(k.as_str()), &text::chars_of(name)) {
                    return Some(val.clone());
                }
            },
            None => {},
        }
        i = i + 1;
    }
    None
}

/// Parse "0x41" or "65" into u32.
pub fn parse_hex_or_dec(s: &str) -> (r: Option<u32>)
    ensures
        r == hex_or_dec(s@),
{
    proof {
        reveal_strlit("0x");
        reveal_strlit("0X");
    }
    let t = text::chars_of(s);
    if text::starts_with(&t, &text::lit("0x")) || text::starts_with(&t, &text::lit("0X")) {
        text::parse_u32_radix(&text::slice_vec(&t, 2, t.len()), 16)
    } else {
        text::parse_u32_radix(&t, 10)
    }
}

/// The starts of the lines of a text (given as bytes): 0, and the position
/// after each newline among the first `k` bytes.
pub open spec fn line_starts(b: Seq<u8>, k: int) -> Seq<usize>
    decreases k,
{
    if k <= 0 {
        seq![0usize]
    } else if b[k - 1] == 10 {
        line_starts(b, k - 1).push(k as usize)
    } else {
        line_starts(b, k - 1)
    }
}

/// The entries ascend strictly.
pub open spec fn ascending(v: Seq<usize>) -> bool {
    forall|i: int, j: int| 0 <= i < j < v.len() ==> v[i] < v[j]
}

proof fn lemma_line_starts(b: Seq<u8>, k: int)
    requires
        0 <= k <= b.len(),
        b.len() <= usize::MAX,
    ensures
        ascending(line_starts(b, k)),
        line_starts(b, k).len() >= 1,
        forall|i: int| 0 <= i < line_starts(b, k).len() ==> #[trigger] line_starts(b, k)[i] <= k,
    decreases k,
{
    if k > 0 {
        lemma_line_starts(b, k - 1);
        let p = line_starts(b, k - 1);
        if b[k - 1] == 10 {
            let q = p.push(k as usize);
            assert forall|i: int, j: int| 0 <= i < j < q.len() implies q[i] < q[j] by {
                if j == q.len() - 1 {
                    assert(q[i] == p[i]);
                    assert(p[i] <= k - 1);
                } else {
                    assert(q[i] == p[i] && q[j] == p[j]);
                }
            }
        }
    }
}

/// Build a list of byte offsets for the start of each line (0-indexed).
pub fn build_line_offsets(text: &str) -> (offsets: Vec<usize>)
    ensures
        offsets@ == line_starts(vstd::string::StringSliceAdditionalSpecFns::spec_bytes(text), vstd::string::StringSliceAdditionalSpecFns::spec_bytes(text).len() as int),
        ascending(offsets@),
{
    let b = text.as_bytes();
    let mut offsets: Vec<usize> = Vec::new();
    offsets.push(0);
    let mut i: usize = 0;
    while i < b.len()
        invariant
            b@ == vstd::string::StringSliceAdditionalSpecFns::spec_bytes(text),
            i <= b@.len(),
            offsets@ == line_starts(b@, i as int),
        decreases b@.len() - i,
    {
        if b[i] == 10u8 {
            offsets.push(i + 1);
        }
        i = i + 1;
    }
    proof {
        assert(b@.len() == b.len());
        lemma_line_starts(b@, b@.len() as int);
    }
    offsets
}

/// The 1-based line of byte `offset`: the number of line starts at or before it.
pub open spec fn line_of(offsets: Seq<usize>, offset: usize, r: usize) -> bool {
    &&& r <= offsets.len()
    &&& forall|j: int| 0 <= j < r ==> offsets[j] <= offset
    &&& forall|j: int| r <= j < offsets.len() ==> offsets[j] > offset
}

/// Convert byte offset to 1-based line number.
pub fn offset_to_line(line_offsets: &Vec<usize>, offset: usize) -> (r: usize)
    requires
        ascending(line_offsets@),
    ensures
        line_of(line_offsets@, offset, r),
{
    // The first entry past `offset`, by halving [lo, hi).
    let mut lo: usize = 0;
    let mut hi: usize = line_offsets.len();
    while lo < hi
        invariant
            ascending(line_offsets@),
            lo <= hi <= line_offsets@.len(),
            forall|j: int| 0 <= j < lo ==> line_offsets@[j] <= offset,
            forall|j: int| hi <= j < line_offsets@.len() ==> line_offsets@[j] > offset,
        decreases hi - lo,
    {
        let mid = lo + (hi - lo) / 2;
        if line_offsets[mid] <= offset {
            lo = mid + 1;
        } else {
            hi = mid;
        }
    }
    lo
}


// ---------------------------------------------------------------------------
// The parser
// ---------------------------------------------------------------------------

/// `g` is the glyph the model describes.
pub open spec fn glyph_matches(g: Glyph, m: GlyphModel) -> bool {
    &&& g.name@ == m.name
    &&& contour_points(g.contours@) == m.contours
    &&& g.width == m.width
    &&& g.lsb == m.lsb
    &&& g.bbox == m.bbox
    &&& g.pixels.wf()
    &&& g.pixels.width == m.cols
    &&& g.pixels.height == m.rows
    &&& if m.rasterized {
        rasterizes_to(g.contours@, m.raster_ascent as int, g.pixels@)
    } else {
        forall|c: int, r: int| !#[trigger] g.pixels@.get(c, r)
    }
}

pub open spec fn lig_view(l: LigatureRule) -> LigModel {
    LigModel { first: l.first_glyph@, components: views(l.components@), result: l.result_glyph@ }
}

pub open spec fn lig_views(ls: Seq<LigatureRule>) -> Seq<LigModel> {
    ls.map_values(|l: LigatureRule| lig_view(l))
}

/// The tables of `f` are those of the model.
pub open spec fn font_matches(f: Font, m: PState) -> bool {
    &&& f.glyphs.wf()
    &&& f.cmap.wf()
    &&& f.cmap_reverse.wf()
    &&& f.hmtx.wf()
    &&& f.glyf_ranges.wf()
    &&& f.dirty.wf()
    &&& f.dirty@ == Set::<Seq<char>>::empty()
    &&& views(f.glyph_order@) == m.glyph_order
    &&& f.glyphs@.dom() == m.glyphs.dom()
    &&& forall|k: Seq<char>| #[trigger] f.glyphs@.contains_key(k) ==> glyph_matches(f.glyphs@[k], m.glyphs[k])
    &&& f.cmap@ == m.cmap
    &&& f.cmap_reverse@.dom() == m.cmap_reverse.dom()
    &&& forall|k: Seq<char>| #[trigger] f.cmap_reverse@.contains_key(k) ==> f.cmap_reverse@[k]@ == m.cmap_reverse[k]
    &&& f.hmtx@ == m.hmtx
    &&& lig_views(f.ligatures@) == m.ligatures
    &&& f.units_per_em == m.units_per_em
    &&& f.ascent == m.ascent
    &&& f.descent == m.descent
    &&& f.glyph_order_range == m.glyph_order_range
    &&& f.hmtx_range == m.hmtx_range
    &&& f.glyf_ranges@ == m.glyf_ranges
    &&& f.glyf_section_end == m.glyf_section_end
    &&& f.gsub_lookup5_range == m.gsub_lookup5_range
    &&& f.cmap_format4_range == m.cmap_format4_range
}

struct Parser {
    font: Font,
    glyph_name: String,
    contour: Vec<Point>,
    contours: Vec<Contour>,
    bbox: Option<BBox>,
    glyph_start: usize,
    in_gsub: bool,
    in_lookup5: bool,
    in_ligature_subst: bool,
    lig_set_glyph: String,
    lookup5_start: usize,
    in_cmap: bool,
    in_cmap4: bool,
    cmap4_start: usize,
    glyph_order_start: usize,
    hmtx_start: usize,
    in_glyph_order: bool,
    in_hmtx: bool,
    in_head: bool,
    in_hhea: bool,
    in_glyf: bool,
    failed: bool,
}

spec fn matches(p: Parser, m: PState) -> bool {
    &&& font_matches(p.font, m)
    &&& p.font.source_lines@.len() == 0
    &&& p.font.preprocessor_lines@.len() == 0
    &&& p.glyph_name@ == m.glyph_name
    &&& p.contour@ == m.contour
    &&& contour_points(p.contours@) == m.contours
    &&& p.bbox == m.bbox
    &&& p.glyph_start == m.glyph_start
    &&& p.in_gsub == m.in_gsub
    &&& p.in_lookup5 == m.in_lookup5
    &&& p.in_ligature_subst == m.in_ligature_subst
    &&& p.lig_set_glyph@ == m.lig_set_glyph
    &&& p.lookup5_start == m.lookup5_start
    &&& p.in_cmap == m.in_cmap
    &&& p.in_cmap4 == m.in_cmap4
    &&& p.cmap4_start == m.cmap4_start
    &&& p.glyph_order_start == m.glyph_order_start
    &&& p.hmtx_start == m.hmtx_start
    &&& p.in_glyph_order == m.in_glyph_order
    &&& p.in_hmtx == m.in_hmtx
    &&& p.in_head == m.in_head
    &&& p.in_hhea == m.in_hhea
    &&& p.in_glyf == m.in_glyf
    &&& p.failed == m.failed
}

/// Whether the characters are the literal `s`.
fn is(t: &Vec<char>, s: &str) -> (b: bool)
    ensures
        b == (t@ == s@),
{
    text::chars_eq(t, &text::lit(s))
}

/// The attribute parsed as an `i32`.
fn get_attr_i32(attrs: &Vec<Option<(String, String)>>, key: &str) -> (r: Option<i32>)
    ensures
        r == attr_i32(attrs_view(attrs@), key@),
{
    match get_attr(attrs, key) {
        Some(v) => text::parse_i32(&text::chars_of(v.as_str())),
        None => None,
    }
}

/// An `i32` value, or `dflt`.
fn i32_or_exec(v: &String, dflt: i32) -> (r: i32)
    ensures
        r == i32_or(v@, dflt),
{
    match text::parse_i32(&text::chars_of(v.as_str())) {
        Some(x) => x,
        None => dflt,
    }
}

impl Parser {
    fn new() -> (p: Self)
        ensures
            matches(p, pstate_start()),
    {
        let p = Parser {
            font: Font::new(),
            glyph_name: String::new(),
            contour: Vec::new(),
            contours: Vec::new(),
            bbox: None,
            glyph_start: 0,
            in_gsub: false,
            in_lookup5: false,
            in_ligature_subst: false,
            lig_set_glyph: String::new(),
            lookup5_start: 0,
            in_cmap: false,
            in_cmap4: false,
            cmap4_start: 0,
            glyph_order_start: 0,
            hmtx_start: 0,
            in_glyph_order: false,
            in_hmtx: false,
            in_head: false,
            in_hhea: false,
            in_glyf: false,
            failed: false,
        };
        proof {
            assert(views(p.font.glyph_order@) =~= Seq::<Seq<char>>::empty());
            assert(lig_views(p.font.ligatures@) =~= Seq::<LigModel>::empty());
            assert(contour_points(p.contours@) =~= Seq::<Seq<Point>>::empty());
            assert(p.font.glyphs@.dom() =~= Map::<Seq<char>, GlyphModel>::empty().dom());
            assert(p.font.cmap_reverse@.dom() =~= Map::<Seq<char>, Seq<u32>>::empty().dom());
        }
        p
    }

    fn open_tables(&mut self, tag: &Vec<char>, attrs: &Vec<Option<(String, String)>>, line: usize, Ghost(m): Ghost<PState>)
        requires
            matches(*old(self), m),
        ensures
            matches(*final(self), open_tables(m, tag@, attrs_view(attrs@), line)),
    {
        if is(tag, "GlyphOrder") || is(tag, "GlyphID") || is(tag, "head") || is(tag, "unitsPerEm") {
            self.open_order_head(tag, attrs, line, Ghost(m));
        } else {
            self.open_metrics(tag, attrs, line, Ghost(m));
        }
    }

    fn open_order_head(&mut self, tag: &Vec<char>, attrs: &Vec<Option<(String, String)>>, line: usize, Ghost(m): Ghost<PState>)
        requires
            matches(*old(self), m),
        ensures
            matches(*final(self), open_order_head(m, tag@, attrs_view(attrs@), line)),
    {
        if is(tag, "GlyphOrder") {
            self.in_glyph_order = true;
            self.glyph_order_start = line;
        } else if is(tag, "GlyphID") && self.in_glyph_order {
            match get_attr(attrs, "name") {
                Some(name) => {
                    let ghost o = self.font.glyph_order@;
                    self.font.glyph_order.push(name);
                    proof {
                        text::lemma_views_push(o, name);
                    }
                },
                None => {},
            }
        } else if is(tag, "head") {
            self.in_head = true;
        } else if is(tag, "unitsPerEm") && self.in_head {
            match get_attr(attrs, "value") {
                Some(v) => {
                    self.font.units_per_em = i32_or_exec(&v, 160);
                },
                None => {},
            }
        }
    }

    fn open_metrics(&mut self, tag: &Vec<char>, attrs: &Vec<Option<(String, String)>>, line: usize, Ghost(m): Ghost<PState>)
        requires
            matches(*old(self), m),
        ensures
            matches(*final(self), open_metrics(m, tag@, attrs_view(attrs@), line)),
    {
        if is(tag, "hhea") {
            self.in_hhea = true;
        } else if is(tag, "ascent") && self.in_hhea {
            match get_attr(attrs, "value") {
                Some(v) => {
                    self.font.ascent = i32_or_exec(&v, 130);
                },
                None => {},
            }
        } else if is(tag, "descent") && self.in_hhea {
            match get_attr(attrs, "value") {
                Some(v) => {
                    self.font.descent = i32_or_exec(&v, -30);
                },
                None => {},
            }
        } else if is(tag, "hmtx") {
            self.in_hmtx = true;
            self.hmtx_start = line;
        } else if is(tag, "mtx") && self.in_hmtx {
            match (get_attr(attrs, "name"), get_attr(attrs, "width"), get_attr(attrs, "lsb")) {
                (Some(name), Some(w), Some(lsb)) => {
                    let e = HmtxEntry { width: i32_or_exec(&w, 80), lsb: i32_or_exec(&lsb, 0) };
                    self.font.hmtx.insert(name, e);
                },
                _ => {},
            }
        }
    }

    #[verifier::spinoff_prover]
    #[verifier::rlimit(60)]
    fn open_cmap(&mut self, tag: &Vec<char>, attrs: &Vec<Option<(String, String)>>, line: usize, Ghost(m): Ghost<PState>)
        requires
            matches(*old(self), m),
        ensures
            matches(*final(self), open_cmap(m, tag@, attrs_view(attrs@), line)),
    {
        if is(tag, "cmap") {
            self.in_cmap = true;
        } else if is(tag, "cmap_format_4") && self.in_cmap {
            let pid = match get_attr(attrs, "platformID") {
                Some(v) => v,
                None => String::new(),
            };
            let eid = match get_attr(attrs, "platEncID") {
                Some(v) => v,
                None => String::new(),
            };
            if is(&text::chars_of(pid.as_str()), "3") && is(&text::chars_of(eid.as_str()), "1") {
                self.in_cmap4 = true;
                self.cmap4_start = line;
            }
        } else if is(tag, "map") && self.in_cmap4 {
            match (get_attr(attrs, "code"), get_attr(attrs, "name")) {
                (Some(code_str), Some(name)) => {
                    match parse_hex_or_dec(code_str.as_str()) {
                        Some(code) => {
                            self.font.cmap.insert(code, name.clone());
                            let ghost before = self.font.cmap_reverse@;
                            match self.font.cmap_reverse.index_of(&name) {
                                Some(i) => {
                                    let ghost e = self.font.cmap_reverse.entries@;
                                    let codes = self.font.cmap_reverse.value_mut(i);
                                    codes.push(code);
                                    proof {
                                        let v = self.font.cmap_reverse.entries@[i as int].1;
                                        crate::names::lemma_map_of_update(e, i as int, v);
                                        assert(self.font.cmap_reverse.entries@ == e.update(i as int, (e[i as int].0, v)));
                                        assert(self.font.cmap_reverse@ == before.insert(name@, v));
                                    }
                                },
                                None => {
                                    let mut codes: Vec<u32> = Vec::new();
                                    codes.push(code);
                                    self.font.cmap_reverse.insert(name.clone(), codes);
                                    proof {
                                        assert(codes@ =~= seq![code]);
                                    }
                                },
                            }
                            proof {
                                assert(self.font.cmap_reverse@.dom() =~= m.cmap_reverse.insert(name@, seq![]).dom());
                            }
                        },
                        None => {},
                    }
                },
                _ => {},
            }
        }
    }

    fn open_glyf(&mut self, tag: &Vec<char>, attrs: &Vec<Option<(String, String)>>, line: usize, Ghost(m): Ghost<PState>)
        requires
            matches(*old(self), m),
        ensures
            matches(*final(self), open_glyf(m, tag@, attrs_view(attrs@), line)),
    {
        if is(tag, "glyf") {
            self.in_glyf = true;
        } else if is(tag, "TTGlyph") && self.in_glyf {
            self.glyph_name = match get_attr(attrs, "name") {
                Some(n) => n,
                None => String::new(),
            };
            self.contours = Vec::new();
            self.glyph_start = line;
            self.bbox = match (
                get_attr_i32(attrs, "xMin"),
                get_attr_i32(attrs, "yMin"),
                get_attr_i32(attrs, "xMax"),
                get_attr_i32(attrs, "yMax"),
            ) {
                (Some(a), Some(b), Some(c), Some(d)) => Some(BBox { x_min: a, y_min: b, x_max: c, y_max: d }),
                _ => None,
            };
            proof {
                assert(contour_points(self.contours@) =~= Seq::<Seq<Point>>::empty());
            }
        } else if is(tag, "contour") && self.in_glyf {
            self.contour = Vec::new();
            proof {
                assert(self.contour@ =~= Seq::<Point>::empty());
            }
        } else if is(tag, "pt") && self.in_glyf {
            match (get_attr_i32(attrs, "x"), get_attr_i32(attrs, "y")) {
                (Some(x), Some(y)) => {
                    self.contour.push(Point { x, y });
                },
                _ => {},
            }
        }
    }

    fn open_gsub(&mut self, tag: &Vec<char>, attrs: &Vec<Option<(String, String)>>, line: usize, Ghost(m): Ghost<PState>)
        requires
            matches(*old(self), m),
        ensures
            matches(*final(self), open_gsub(m, tag@, attrs_view(attrs@), line)),
    {
        if is(tag, "GSUB") {
            self.in_gsub = true;
        } else if is(tag, "Lookup") && self.in_gsub {
            let idx = get_attr_i32(attrs, "index");
            if idx == Some(5i32) {
                self.in_lookup5 = true;
                self.lookup5_start = line;
            }
        } else if is(tag, "LigatureSubst") && self.in_lookup5 {
            self.in_ligature_subst = true;
        } else if is(tag, "LigatureSet") && self.in_ligature_subst {
            self.lig_set_glyph = match get_attr(attrs, "glyph") {
                Some(g) => g,
                None => String::new(),
            };
        } else if is(tag, "Ligature") && self.in_ligature_subst {
            match (get_attr(attrs, "components"), get_attr(attrs, "glyph")) {
                (Some(components_str), Some(result_glyph)) => {
                    let parts = text::split(&text::chars_of(components_str.as_str()), ',');
                    let mut components: Vec<String> = Vec::new();
                    let ghost sp = text::split_seq(components_str@, ',');
                    let mut j: usize = 0;
                    while j < parts.len()
                        invariant
                            j <= parts@.len(),
                            parts@.len() == sp.len(),
                            forall|k: int| 0 <= k < parts@.len() ==> #[trigger] parts@[k]@ == sp[k],
                            views(components@) == sp.subrange(0, j as int).map_values(|p: Seq<char>| text::trim_seq(p)),
                        decreases parts@.len() - j,
                    {
                        let c = text::string_of(&text::trim(&parts[j]));
                        let ghost o = components@;
                        components.push(c);
                        proof {
                            text::lemma_views_push(o, c);
                            assert(sp.subrange(0, j + 1).map_values(|p: Seq<char>| text::trim_seq(p)) =~= sp.subrange(
                                0,
                                j as int,
                            ).map_values(|p: Seq<char>| text::trim_seq(p)).push(text::trim_seq(sp[j as int])));
                        }
                        j = j + 1;
                    }
                    proof {
                        assert(sp.subrange(0, sp.len() as int) =~= sp);
                    }
                    let rule = LigatureRule {
                        first_glyph: self.lig_set_glyph.clone(),
                        components,
                        result_glyph,
                    };
                    let ghost o = self.font.ligatures@;
                    self.font.ligatures.push(rule);
                    proof {
                        assert(lig_views(self.font.ligatures@) =~= lig_views(o).push(lig_view(rule)));
                    }
                },
                _ => {},
            }
        }
    }
}


/// Number of points of the contours, or none when it exceeds `i32::MAX`.
fn points_within_i32(cs: &Vec<Contour>) -> (r: bool)
    ensures
        r == (count_points(contour_points(cs@)) <= i32::MAX),
{
    let ghost ps = contour_points(cs@);
    let mut total: u64 = 0;
    let mut k: usize = 0;
    while k < cs.len()
        invariant
            ps == contour_points(cs@),
            k <= cs@.len(),
            total == count_upto(ps, k as int),
            total <= i32::MAX,
        decreases cs@.len() - k,
    {
        assert(ps[k as int] == cs@[k as int].points@);
        let n = cs[k].points.len() as u64;
        if n > i32::MAX as u64 || total + n > i32::MAX as u64 {
            proof {
                lemma_count_upto_mono(ps, k + 1, ps.len() as int);
            }
            return false;
        }
        total = total + n;
        k = k + 1;
    }
    true
}

proof fn lemma_count_upto_mono(ps: Seq<Seq<Point>>, j: int, k: int)
    requires
        0 <= j <= k <= ps.len(),
    ensures
        count_upto(ps, j) <= count_upto(ps, k),
    decreases k - j,
{
    if j < k {
        lemma_count_upto_mono(ps, j, k - 1);
    }
}

/// A grid of `cols` x `rows` fits, for the given ascent.
fn dims_fit_exec(cols: usize, rows: usize, ascent: i32) -> (r: bool)
    ensures
        r == dims_fit(cols, rows, ascent),
{
    if cols > 214748364 || rows > 214748364 {
        return false;
    }
    assert((cols as u64) * (rows as u64) <= 214748364u64 * 214748364u64) by (nonlinear_arith)
        requires
            cols <= 214748364,
            rows <= 214748364,
    ;
    if (cols as u64) * (rows as u64) > usize::MAX as u64 {
        return false;
    }
    (ascent as i64) - (rows as i64) * 10 >= i32::MIN as i64
}

impl Parser {
    /// The metrics and grid size of the current glyph, or none when the grid
    /// would not fit.
    fn glyph_dims(&self, rasterized: bool, Ghost(m): Ghost<PState>) -> (r: Option<(HmtxEntry, usize, usize)>)
        requires
            matches(*self, m),
        ensures
            match r {
                Some((met, cols, rows)) => {
                    &&& line_height_ok(m)
                    &&& met == metrics_of(m, m.glyph_name)
                    &&& cols == cells_of(met.width as int)
                    &&& rows == cells_of(m.ascent - m.descent)
                    &&& dims_fit(cols, rows, m.ascent)
                    &&& (rasterized ==> count_points(m.contours) <= i32::MAX)
                },
                None => !line_height_ok(m) || !dims_fit(
                    cells_of(metrics_of(m, m.glyph_name).width as int),
                    cells_of(m.ascent - m.descent),
                    m.ascent,
                ) || (rasterized && count_points(m.contours) > i32::MAX),
            },
    {
        let met = match self.font.hmtx.get(&self.glyph_name) {
            Some(e) => *e,
            None => HmtxEntry { width: 80, lsb: 0 },
        };
        let cols = self.font.grid_width(met.width);
        let d = self.font.ascent as i64 - self.font.descent as i64;
        if d < i32::MIN as i64 || d > i32::MAX as i64 {
            return None;
        }
        let rows = self.font.grid_height();
        if !dims_fit_exec(cols, rows, self.font.ascent) {
            return None;
        }
        if rasterized && !points_within_i32(&self.contours) {
            return None;
        }
        Some((met, cols, rows))
    }

    /// Records the current glyph, of the given metrics and grid size.
    #[verifier::rlimit(80)]
    fn add_glyph(&mut self, line: usize, rasterized: bool, met: HmtxEntry, cols: usize, rows: usize, Ghost(m): Ghost<PState>)
        requires
            matches(*old(self), m),
            line_height_ok(m),
            met == metrics_of(m, m.glyph_name),
            cols == cells_of(met.width as int),
            rows == cells_of(m.ascent - m.descent),
            dims_fit(cols, rows, m.ascent),
            rasterized ==> count_points(m.contours) <= i32::MAX,
        ensures
            matches(*final(self), close_glyph(m, line, rasterized)),
    {
        let mut name = String::new();
        std::mem::swap(&mut name, &mut self.glyph_name);
        let ghost gn = name@;
        let (pixels, contours, bbox) = if rasterized {
            proof {
                lemma_count_points(self.contours@, self.contours@.len() as int);
            }
            let px = crate::grid::rasterize(&self.contours, cols, rows, self.font.ascent);
            let mut cs: Vec<Contour> = Vec::new();
            std::mem::swap(&mut cs, &mut self.contours);
            (px, cs, self.bbox)
        } else {
            (PixelGrid::new(cols, rows), Vec::new(), None)
        };
        proof {
            assert(contour_points(self.contours@) =~= (if rasterized {
                Seq::<Seq<Point>>::empty()
            } else {
                m.contours
            }));
            assert(contour_points(contours@) =~= (if rasterized {
                m.contours
            } else {
                Seq::<Seq<Point>>::empty()
            }));
        }
        self.font.glyf_ranges.insert(name.clone(), LineRange { start: self.glyph_start, end: line });
        let g = Glyph { name: name.clone(), pixels, contours, width: met.width, lsb: met.lsb, bbox };
        let ghost before = self.font.glyphs@;
        self.font.glyphs.insert(name, g);
        proof {
            let r = close_glyph(m, line, rasterized);
            assert(self.font.glyphs@.dom() =~= r.glyphs.dom());
            assert forall|k: Seq<char>| #[trigger] self.font.glyphs@.contains_key(k) implies glyph_matches(
                self.font.glyphs@[k],
                r.glyphs[k],
            ) by {
                if k != gn {
                    assert(before.contains_key(k));
                }
            }
            assert(self.glyph_name@ =~= Seq::<char>::empty());
        }
    }

    /// Closes the current glyph at line `line`: rasterizes its contours (or
    /// makes it blank) and records it with its TTGlyph range.
    fn close_glyph(&mut self, line: usize, rasterized: bool, Ghost(m): Ghost<PState>)
        requires
            matches(*old(self), m),
        ensures
            matches(*final(self), close_glyph(m, line, rasterized)),
    {
        match self.glyph_dims(rasterized, Ghost(m)) {
            Some((met, cols, rows)) => {
                self.add_glyph(line, rasterized, met, cols, rows, Ghost(m));
            },
            None => {
                self.failed = true;
            },
        }
    }

    #[verifier::rlimit(80)]
    fn close_tag(&mut self, tag: &Vec<char>, line: usize, Ghost(m): Ghost<PState>)
        requires
            matches(*old(self), m),
        ensures
            matches(*final(self), close_tag(m, tag@, line)),
    {
        if is(tag, "GlyphOrder") {
            self.in_glyph_order = false;
            self.font.glyph_order_range = Some(LineRange { start: self.glyph_order_start, end: line });
        } else if is(tag, "head") {
            self.in_head = false;
        } else if is(tag, "hhea") {
            self.in_hhea = false;
        } else if is(tag, "hmtx") {
            self.in_hmtx = false;
            self.font.hmtx_range = Some(LineRange { start: self.hmtx_start, end: line });
        } else if is(tag, "cmap_format_4") && self.in_cmap4 {
            self.in_cmap4 = false;
            self.font.cmap_format4_range = Some(LineRange { start: self.cmap4_start, end: line });
        } else if is(tag, "cmap") {
            self.in_cmap = false;
        } else if is(tag, "contour") && self.in_glyf {
            if self.contour.len() > 0 {
                let mut pts: Vec<Point> = Vec::new();
                std::mem::swap(&mut pts, &mut self.contour);
                let ghost o = self.contours@;
                let c = Contour { points: pts };
                self.contours.push(c);
                proof {
                    assert(contour_points(self.contours@) =~= contour_points(o).push(c.points@));
                    assert(self.contour@ =~= Seq::<Point>::empty());
                }
            }
        } else if is(tag, "TTGlyph") && self.in_glyf {
            self.close_glyph(line, true, Ghost(m));
        } else if is(tag, "glyf") {
            self.in_glyf = false;
            self.font.glyf_section_end = Some(line);
        } else if is(tag, "Lookup") && self.in_lookup5 {
            self.in_lookup5 = false;
            self.in_ligature_subst = false;
            self.font.gsub_lookup5_range = Some(LineRange { start: self.lookup5_start, end: line });
        } else if is(tag, "LigatureSubst") && self.in_ligature_subst {
            self.in_ligature_subst = false;
        } else if is(tag, "LigatureSet") && self.in_ligature_subst {
            self.lig_set_glyph = String::new();
        } else if is(tag, "GSUB") {
            self.in_gsub = false;
        }
    }

    fn open_tag(&mut self, tag: &Vec<char>, attrs: &Vec<Option<(String, String)>>, line: usize, Ghost(m): Ghost<PState>)
        requires
            matches(*old(self), m),
        ensures
            matches(*final(self), open_tag(m, tag@, attrs_view(attrs@), line)),
    {
        if is(tag, "GlyphOrder") || is(tag, "GlyphID") || is(tag, "head") || is(tag, "unitsPerEm") || is(tag, "hhea")
            || is(tag, "ascent") || is(tag, "descent") || is(tag, "hmtx") || is(tag, "mtx") {
            self.open_tables(tag, attrs, line, Ghost(m));
        } else if is(tag, "cmap") || is(tag, "cmap_format_4") || is(tag, "map") {
            self.open_cmap(tag, attrs, line, Ghost(m));
        } else if is(tag, "glyf") || is(tag, "TTGlyph") || is(tag, "contour") || is(tag, "pt") {
            self.open_glyf(tag, attrs, line, Ghost(m));
        } else {
            self.open_gsub(tag, attrs, line, Ghost(m));
        }
    }

    fn on_item(&mut self, it: &XmlItem, line: usize, Ghost(m): Ghost<PState>)
        requires
            matches(*old(self), m),
        ensures
            matches(*final(self), step(m, item_view(*it), line)),
    {
        match it {
            XmlItem::Start(t) => {
                self.open_tag(&text::chars_of(t.name.as_str()), &t.attrs, line, Ghost(m));
            },
            XmlItem::Empty(t) => {
                let tag = text::chars_of(t.name.as_str());
                self.open_tag(&tag, &t.attrs, line, Ghost(m));
                let ghost m1 = open_tag(m, tag@, attrs_view(t.attrs@), line);
                // Handle self-closing TTGlyph (empty glyphs like <TTGlyph name="space"/>)
                if is(&tag, "TTGlyph") && self.in_glyf && !self.glyph_name.as_str().is_empty() {
                    self.close_glyph(line, false, Ghost(m1));
                }
            },
            XmlItem::End(n) => {
                self.close_tag(&text::chars_of(n.as_str()), line, Ghost(m));
            },
            XmlItem::Other => {},
        }
    }
}


// ---------------------------------------------------------------------------
// Folding the items of a document
// ---------------------------------------------------------------------------

/// How many entries of `s` are at most `x`.
pub open spec fn count_le(s: Seq<usize>, x: usize) -> nat
    decreases s.len(),
{
    if s.len() == 0 {
        0
    } else {
        count_le(s.drop_last(), x) + if s.last() <= x {
            1nat
        } else {
            0nat
        }
    }
}

proof fn lemma_line_of(s: Seq<usize>, x: usize, r: usize)
    requires
        ascending(s),
        line_of(s, x, r),
    ensures
        count_le(s, x) == r,
    decreases s.len(),
{
    if s.len() > 0 {
        let d = s.drop_last();
        if s.last() <= x {
            if r < s.len() {
                assert(s[s.len() - 1] > x);
            }
            assert(line_of(d, x, (r - 1) as usize)) by {
                assert forall|j: int| 0 <= j < r - 1 implies d[j] <= x by {
                    assert(d[j] == s[j]);
                }
            }
            lemma_line_of(d, x, (r - 1) as usize);
        } else {
            if r == s.len() {
                assert(s[s.len() - 1] <= x);
            }
            assert(line_of(d, x, r)) by {
                assert forall|j: int| 0 <= j < r implies d[j] <= x by {
                    assert(d[j] == s[j]);
                }
                assert forall|j: int| r <= j < d.len() implies d[j] > x by {
                    assert(d[j] == s[j]);
                }
            }
            lemma_line_of(d, x, r);
        }
    }
}

/// The number of newline bytes among the first `x` bytes of `b`.
pub open spec fn newlines_before(b: Seq<u8>, x: int) -> nat
    decreases x,
{
    if x <= 0 {
        0
    } else {
        newlines_before(b, x - 1) + if b[x - 1] == 10 { 1nat } else { 0nat }
    }
}

proof fn lemma_count_line_starts(b: Seq<u8>, k: int, x: usize)
    requires
        0 <= k <= b.len(),
        b.len() <= usize::MAX,
    ensures
        count_le(line_starts(b, k), x) == 1 + newlines_before(b, if k < x { k } else { x as int }),
    decreases k,
{
    if k > 0 {
        lemma_count_line_starts(b, k - 1, x);
        let s = line_starts(b, k - 1);
        let m1: int = if k - 1 < x { k - 1 } else { x as int };
        let m: int = if k < x { k } else { x as int };
        if k <= x {
            assert(m == k && m1 == k - 1);
            assert(newlines_before(b, k) == newlines_before(b, k - 1) + if b[k - 1] == 10 { 1nat } else { 0nat });
        } else {
            assert(m == m1);
        }
        if b[k - 1] == 10 {
            let t = line_starts(b, k);
            assert(t == s.push(k as usize));
            assert(t.drop_last() =~= s);
            assert(t.last() == k as usize);
            assert(count_le(t, x) == count_le(s, x) + if (k as usize) <= x { 1nat } else { 0nat });
        } else {
            assert(line_starts(b, k) == s);
        }
    } else {
        let t = line_starts(b, 0);
        assert(t == seq![0usize]);
        assert(t.drop_last() =~= Seq::<usize>::empty());
        assert(count_le(t.drop_last(), x) == 0);
        assert(t.last() == 0usize);
        assert(count_le(t, x) == 1);
        assert(newlines_before(b, 0) == 0);
    }
}

/// The line of a byte offset (counting from 1) is one more than the number of
/// newlines before it.
pub proof fn law_line_counts_newlines(b: Seq<u8>, x: usize, r: usize)
    requires
        b.len() <= usize::MAX,
        line_of(line_starts(b, b.len() as int), x, r),
    ensures
        r == 1 + newlines_before(b, if b.len() < x { b.len() as int } else { x as int }),
{
    lemma_line_starts(b, b.len() as int);
    lemma_line_of(line_starts(b, b.len() as int), x, r);
    lemma_count_line_starts(b, b.len() as int, x);
}

/// The positions and items of a stream as plain values.
pub open spec fn items_view(items: Seq<(u64, XmlItem)>) -> Seq<(u64, Item)> {
    items.map_values(|p: (u64, XmlItem)| (p.0, item_view(p.1)))
}

/// The parser's state after the first `k` items; an item at byte `pos` is on
/// line `count_le(offsets, pos)`.
pub open spec fn fold_items(items: Seq<(u64, Item)>, offsets: Seq<usize>, k: int) -> PState
    decreases k,
{
    if k <= 0 {
        pstate_start()
    } else {
        step(
            fold_items(items, offsets, k - 1),
            items[k - 1].1,
            count_le(offsets, items[k - 1].0 as usize) as usize,
        )
    }
}

/// Why a document is refused.
#[derive(Debug, Clone, Copy, PartialEq, Eq, Structural)]
pub enum ParseError {
    /// A glyph grid too large for font units, or a line height out of range.
    GridTooLarge,
    /// A glyph's range ends before it starts.
    BadRanges,
}

/// Every glyph fits the final ascent.
pub open spec fn glyphs_fit(m: PState) -> bool {
    forall|k: Seq<char>| #[trigger] m.glyphs.contains_key(k) ==> dims_fit(m.glyphs[k].cols, m.glyphs[k].rows, m.ascent)
}

/// Every glyph range starts no later than it ends.
pub open spec fn ranges_ordered(m: PState) -> bool {
    forall|k: Seq<char>| #[trigger] m.glyf_ranges.contains_key(k) ==> m.glyf_ranges[k].start <= m.glyf_ranges[k].end
}

/// The outcome of a parse that ended in state `m`.
pub open spec fn outcome(m: PState) -> Result<(), ParseError> {
    if m.failed || !glyphs_fit(m) {
        Err(ParseError::GridTooLarge)
    } else if !ranges_ordered(m) {
        Err(ParseError::BadRanges)
    } else {
        Ok(())
    }
}

/// `m2` has the code-point maps of `m`.
spec fn keeps_cmap(m: PState, m2: PState) -> bool {
    m2.cmap == m.cmap && m2.cmap_reverse == m.cmap_reverse
}

proof fn lemma_cmap_open_cmap(m: PState, tag: Seq<char>, attrs: Seq<Option<(Seq<char>, Seq<char>)>>, line: usize)
    requires
        crate::font::cmap_agrees(m.cmap, m.cmap_reverse),
    ensures
        crate::font::cmap_agrees(open_cmap(m, tag, attrs, line).cmap, open_cmap(m, tag, attrs, line).cmap_reverse),
{
    if tag == "map"@ && m.in_cmap4 && !(tag == "cmap"@) {
        match (attr(attrs, "code"@), attr(attrs, "name"@)) {
            (Some(c), Some(n)) => match hex_or_dec(c) {
                Some(code) => {
                    crate::font::lemma_agrees_insert(m.cmap, m.cmap_reverse, code, n);
                },
                None => {},
            },
            _ => {},
        }
    }
}

proof fn lemma_cmap_open_tag(m: PState, tag: Seq<char>, attrs: Seq<Option<(Seq<char>, Seq<char>)>>, line: usize)
    requires
        crate::font::cmap_agrees(m.cmap, m.cmap_reverse),
    ensures
        crate::font::cmap_agrees(open_tag(m, tag, attrs, line).cmap, open_tag(m, tag, attrs, line).cmap_reverse),
{
    assert(keeps_cmap(m, open_order_head(m, tag, attrs, line)));
    assert(keeps_cmap(m, open_metrics(m, tag, attrs, line)));
    assert(keeps_cmap(m, open_tables(m, tag, attrs, line)));
    assert(keeps_cmap(m, open_glyf(m, tag, attrs, line)));
    assert(keeps_cmap(m, open_gsub(m, tag, attrs, line)));
    lemma_cmap_open_cmap(m, tag, attrs, line);
}

proof fn lemma_cmap_step(m: PState, it: Item, line: usize)
    requires
        crate::font::cmap_agrees(m.cmap, m.cmap_reverse),
    ensures
        crate::font::cmap_agrees(step(m, it, line).cmap, step(m, it, line).cmap_reverse),
{
    match it {
        Item::Start(tag, attrs) => {
            lemma_cmap_open_tag(m, tag, attrs, line);
        },
        Item::Empty(tag, attrs) => {
            lemma_cmap_open_tag(m, tag, attrs, line);
            let m1 = open_tag(m, tag, attrs, line);
            assert(keeps_cmap(m1, close_glyph(m1, line, false)));
        },
        Item::End(tag) => {
            assert(keeps_cmap(m, close_glyph(m, line, true)));
            assert(keeps_cmap(m, close_tag(m, tag, line)));
        },
        Item::Other => {},
    }
}

/// Every state of the parse keeps the code-point maps in agreement.
proof fn lemma_fold_cmap(items: Seq<(u64, Item)>, offsets: Seq<usize>, k: int)
    requires
        0 <= k <= items.len(),
    ensures
        crate::font::cmap_agrees(fold_items(items, offsets, k).cmap, fold_items(items, offsets, k).cmap_reverse),
    decreases k,
{
    if k > 0 {
        lemma_fold_cmap(items, offsets, k - 1);
        lemma_cmap_step(
            fold_items(items, offsets, k - 1),
            items[k - 1].1,
            count_le(offsets, items[k - 1].0 as usize) as usize,
        );
    }
}

/// Builds the font from the items of a document whose line starts are
/// `offsets`.
pub fn build_font(items: &Vec<(u64, XmlItem)>, offsets: &Vec<usize>) -> (r: Result<Font, ParseError>)
    requires
        ascending(offsets@),
    ensures
        match r {
            Ok(f) => {
                &&& outcome(fold_items(items_view(items@), offsets@, items@.len() as int)) is Ok
                &&& font_matches(f, fold_items(items_view(items@), offsets@, items@.len() as int))
                &&& f.wf()
                &&& f.source_lines@.len() == 0
                &&& f.preprocessor_lines@.len() == 0
            },
            Err(e) => outcome(fold_items(items_view(items@), offsets@, items@.len() as int)) == Err::<(), ParseError>(e),
        },
{
    let ghost iv = items_view(items@);
    let mut p = Parser::new();
    let mut k: usize = 0;
    while k < items.len()
        invariant
            ascending(offsets@),
            iv == items_view(items@),
            k <= items@.len(),
            matches(p, fold_items(iv, offsets@, k as int)),
            p.font.source_lines@.len() == 0,
            p.font.preprocessor_lines@.len() == 0,
        decreases items@.len() - k,
    {
        let pos = items[k].0;
        let line = offset_to_line(offsets, pos as usize);
        proof {
            lemma_line_of(offsets@, pos as usize, line);
            assert(iv[k as int] == (pos, item_view(items@[k as int].1)));
        }
        p.on_item(&items[k].1, line, Ghost(fold_items(iv, offsets@, k as int)));
        k = k + 1;
    }
    let ghost m = fold_items(iv, offsets@, items@.len() as int);
    if p.failed {
        return Err(ParseError::GridTooLarge);
    }
    let mut i: usize = 0;
    while i < p.font.glyphs.entries.len()
        invariant
            matches(p, m),
            iv == items_view(items@),
            m == fold_items(iv, offsets@, items@.len() as int),
            !m.failed,
            i <= p.font.glyphs.entries@.len(),
            forall|j: int| 0 <= j < i ==> #[trigger] dims_fit(
                p.font.glyphs.entries@[j].1.pixels.width,
                p.font.glyphs.entries@[j].1.pixels.height,
                m.ascent,
            ),
        decreases p.font.glyphs.entries@.len() - i,
    {
        let g = &p.font.glyphs.entries[i].1;
        if !dims_fit_exec(g.pixels.width, g.pixels.height, p.font.ascent) {
            proof {
                let k = p.font.glyphs.entries@[i as int].0@;
                crate::names::lemma_map_of_at(p.font.glyphs.entries@, i as int);
                assert(m.glyphs.contains_key(k));
            }
            return Err(ParseError::GridTooLarge);
        }
        i = i + 1;
    }
    proof {
        assert forall|k: Seq<char>| #[trigger] m.glyphs.contains_key(k) implies dims_fit(
            m.glyphs[k].cols,
            m.glyphs[k].rows,
            m.ascent,
        ) by {
            crate::names::lemma_map_of(p.font.glyphs.entries@, k);
            let j = choose|j: int| 0 <= j < p.font.glyphs.entries@.len() && p.font.glyphs.entries@[j].0@ == k;
            crate::names::lemma_map_of_at(p.font.glyphs.entries@, j);
            assert(dims_fit(
                p.font.glyphs.entries@[j].1.pixels.width,
                p.font.glyphs.entries@[j].1.pixels.height,
                m.ascent,
            ));
            assert(p.font.glyphs@.contains_key(k));
            assert(glyph_matches(p.font.glyphs@[k], m.glyphs[k]));
        }
    }
    let mut i: usize = 0;
    while i < p.font.glyf_ranges.entries.len()
        invariant
            matches(p, m),
            iv == items_view(items@),
            m == fold_items(iv, offsets@, items@.len() as int),
            !m.failed,
            glyphs_fit(m),
            i <= p.font.glyf_ranges.entries@.len(),
            forall|j: int| 0 <= j < i ==> #[trigger] p.font.glyf_ranges.entries@[j].1.start
                <= p.font.glyf_ranges.entries@[j].1.end,
        decreases p.font.glyf_ranges.entries@.len() - i,
    {
        let r = p.font.glyf_ranges.entries[i].1;
        if r.start > r.end {
            proof {
                let k = p.font.glyf_ranges.entries@[i as int].0@;
                crate::names::lemma_map_of_at(p.font.glyf_ranges.entries@, i as int);
                assert(m.glyf_ranges.contains_key(k));
            }
            return Err(ParseError::BadRanges);
        }
        i = i + 1;
    }
    proof {
        assert forall|k: Seq<char>| #[trigger] m.glyf_ranges.contains_key(k) implies m.glyf_ranges[k].start
            <= m.glyf_ranges[k].end by {
            crate::names::lemma_map_of(p.font.glyf_ranges.entries@, k);
            let j = choose|j: int| 0 <= j < p.font.glyf_ranges.entries@.len() && p.font.glyf_ranges.entries@[j].0@ == k;
            assert(p.font.glyf_ranges.entries@[j].1.start <= p.font.glyf_ranges.entries@[j].1.end);
        }
        assert forall|k: Seq<char>| #[trigger] p.font.glyphs@.contains_key(k) implies crate::font::glyph_ok(
            p.font.glyphs@[k],
            p.font.ascent as int,
        ) by {
            assert(glyph_matches(p.font.glyphs@[k], m.glyphs[k]));
            assert(dims_fit(m.glyphs[k].cols, m.glyphs[k].rows, m.ascent));
        }
        lemma_fold_cmap(iv, offsets@, items@.len() as int);
        assert(crate::font::codes_view(p.font.cmap_reverse@) =~= m.cmap_reverse);
    }
    Ok(p.font)
}


// ---------------------------------------------------------------------------
// Reading the XML with quick_xml
// ---------------------------------------------------------------------------

#[verifier::external_type_specification]
#[verifier::external_body]
#[verifier::reject_recursive_types(R)]
pub struct ExReader<R>(Reader<R>);

#[verifier::external_type_specification]
#[verifier::external_body]
pub struct ExBytesStart<'a>(BytesStart<'a>);

#[verifier::external_type_specification]
#[verifier::external_body]
pub struct ExBytesEnd<'a>(BytesEnd<'a>);

/// What kind of event the reader gave.
#[derive(PartialEq, Eq, Structural)]
pub enum EventKind {
    Start,
    Empty,
    End,
    Eof,
    Error,
    Other,
}

/// The kind of the `k`-th event (counting from 0) that `Reader::read_event`
/// gives on a reader made by `Reader::from_str(text)`.
pub uninterp spec fn xml_event_kind(text: Seq<char>, k: nat) -> EventKind;

/// `Reader::buffer_position` of a reader made by `Reader::from_str(text)`
/// after `k` events were read.
pub uninterp spec fn xml_position(text: Seq<char>, k: nat) -> u64;

/// `BytesStart::name` of the `k`-th event on `text`, a start or empty tag.
pub uninterp spec fn xml_tag_name(text: Seq<char>, k: nat) -> Seq<char>;

/// `BytesStart::attributes` of the `k`-th event on `text`, a start or empty
/// tag: each attribute as (key, raw value), or none where it could not be read.
pub uninterp spec fn xml_tag_attrs(text: Seq<char>, k: nat) -> Seq<Option<(Seq<char>, Seq<char>)>>;

/// `BytesEnd::name` of the `k`-th event on `text`, an end tag.
pub uninterp spec fn xml_end_name(text: Seq<char>, k: nat) -> Seq<char>;

/// A reader over a text, with the text it reads and how many events it has
/// given so far.
pub struct XmlStream<'a> {
    reader: Reader<&'a [u8]>,
    at: Ghost<(Seq<char>, nat)>,
}

impl<'a> View for XmlStream<'a> {
    type V = (Seq<char>, nat);

    closed spec fn view(&self) -> (Seq<char>, nat) {
        self.at@
    }
}

/// A start or empty tag, with the text and the number of the event it came
/// from.
pub struct StartTag<'a>(BytesStart<'a>, Ghost<(Seq<char>, nat)>);

impl<'a> View for StartTag<'a> {
    type V = (Seq<char>, nat);

    closed spec fn view(&self) -> (Seq<char>, nat) {
        self.1@
    }
}

/// An end tag, with the text and the number of the event it came from.
pub struct EndTag<'a>(BytesEnd<'a>, Ghost<(Seq<char>, nat)>);

impl<'a> View for EndTag<'a> {
    type V = (Seq<char>, nat);

    closed spec fn view(&self) -> (Seq<char>, nat) {
        self.1@
    }
}

/// An event of the reader, as far as the parser tells them apart.
pub enum RawEvent<'a> {
    Start(StartTag<'a>),
    Empty(StartTag<'a>),
    End(EndTag<'a>),
    Eof,
    Error,
    Other,
}

pub open spec fn raw_kind(e: RawEvent) -> EventKind {
    match e {
        RawEvent::Start(_) => EventKind::Start,
        RawEvent::Empty(_) => EventKind::Empty,
        RawEvent::End(_) => EventKind::End,
        RawEvent::Eof => EventKind::Eof,
        RawEvent::Error => EventKind::Error,
        RawEvent::Other => EventKind::Other,
    }
}

/// `Reader::from_str`: a reader at the start of `text`.
#[verifier::external_body]
fn xml_reader<'a>(text: &'a str) -> (r: XmlStream<'a>)
    ensures
        r@ == (text@, 0nat),
{
    XmlStream { reader: Reader::from_str(text), at: Ghost((text@, 0nat)) }
}

/// `Reader::buffer_position`: the byte position the reader has reached, at
/// most the length of the text (the reader only ever adds the bytes it
/// consumed).
#[verifier::external_body]
fn reader_position(r: &XmlStream) -> (p: u64)
    ensures
        p == xml_position(r@.0, r@.1),
        p <= vstd::utf8::encode_utf8(r@.0).len(),
{
    r.reader.buffer_position()
}

/// `Reader::read_event`: the next event, sorted by kind, each tag with the
/// text and the number of its event; reading never moves the position back.
#[verifier::external_body]
fn read_next<'a>(r: &mut XmlStream<'a>) -> (e: RawEvent<'a>)
    ensures
        final(r)@ == (old(r)@.0, old(r)@.1 + 1),
        xml_position(final(r)@.0, final(r)@.1) >= xml_position(old(r)@.0, old(r)@.1),
        raw_kind(e) == xml_event_kind(old(r)@.0, old(r)@.1),
        e matches RawEvent::Start(t) ==> t@ == old(r)@,
        e matches RawEvent::Empty(t) ==> t@ == old(r)@,
        e matches RawEvent::End(t) ==> t@ == old(r)@,
{
    let at = Ghost(r.at@);
    r.at = Ghost((r.at@.0, r.at@.1 + 1));
    match r.reader.read_event() {
        Ok(Event::Start(e)) => RawEvent::Start(StartTag(e, at)),
        Ok(Event::Empty(e)) => RawEvent::Empty(StartTag(e, at)),
        Ok(Event::End(e)) => RawEvent::End(EndTag(e, at)),
        Ok(Event::Eof) => RawEvent::Eof,
        Ok(_) => RawEvent::Other,
        Err(_) => RawEvent::Error,
    }
}

/// `BytesStart::name`: the raw tag name.
#[verifier::external_body]
fn start_name(e: &StartTag) -> (n: String)
    ensures
        n@ == xml_tag_name(e@.0, e@.1),
{
    e.0.name().into_inner().to_string()
}

/// `BytesStart::attributes`: each attribute as (key, raw value), or none
/// where the attribute could not be read.
#[verifier::external_body]
fn start_attrs(e: &StartTag) -> (a: Vec<Option<(String, String)>>)
    ensures
        attrs_view(a@) == xml_tag_attrs(e@.0, e@.1),
{
    e.0.attributes().map(|a| a.ok().map(|a| (a.key.into_inner().to_string(), a.value.to_string()))).collect()
}

/// `BytesEnd::name`: the raw tag name.
#[verifier::external_body]
fn end_name(e: &EndTag) -> (n: String)
    ensures
        n@ == xml_end_name(e@.0, e@.1),
{
    e.0.name().into_inner().to_string()
}

/// How many reader events are read at most from a text of `n` bytes: four
/// per byte and sixteen more, or as many as a `usize` counts.
pub open spec fn read_limit(n: nat) -> nat {
    if n > (usize::MAX - 16) / 4 {
        usize::MAX as nat
    } else {
        4 * n + 16
    }
}

/// The item the `k`-th event on `text` gives the parser: start, empty and end
/// tags; nothing for other events and read errors.
pub open spec fn event_item(text: Seq<char>, k: nat) -> Option<Item> {
    match xml_event_kind(text, k) {
        EventKind::Start => Some(Item::Start(xml_tag_name(text, k), xml_tag_attrs(text, k))),
        EventKind::Empty => Some(Item::Empty(xml_tag_name(text, k), xml_tag_attrs(text, k))),
        EventKind::End => Some(Item::End(xml_end_name(text, k))),
        _ => None,
    }
}

/// The items of the first `k` events on `text`, each with the byte position at
/// which its event starts, and whether the end of the text was reached among
/// them (no event after the end is used).
pub open spec fn tokens_upto(text: Seq<char>, k: nat) -> (Seq<(u64, Item)>, bool)
    decreases k,
{
    if k == 0 {
        (seq![], false)
    } else {
        let (s, done) = tokens_upto(text, (k - 1) as nat);
        if done || xml_event_kind(text, (k - 1) as nat) == EventKind::Eof {
            (s, true)
        } else {
            match event_item(text, (k - 1) as nat) {
                Some(it) => (s.push((xml_position(text, (k - 1) as nat), it)), false),
                None => (s, false),
            }
        }
    }
}

/// The length in bytes of the UTF-8 text `text` (as `str::len` gives it).
pub open spec fn byte_len(text: Seq<char>) -> nat {
    (vstd::utf8::encode_utf8(text).len() as usize) as nat
}

/// The items the parser reads from `text`: those of the events up to the end
/// of the text, or up to `read_limit` events.
pub open spec fn xml_tokens(text: Seq<char>) -> Seq<(u64, Item)> {
    tokens_upto(text, read_limit(byte_len(text))).0
}

/// The positions of the items never decrease, and fit in `bound`.
pub open spec fn positions_ordered(items: Seq<(u64, Item)>, bound: nat) -> bool {
    &&& forall|i: int, j: int| 0 <= i <= j < items.len() ==> items[i].0 <= items[j].0
    &&& forall|i: int| 0 <= i < items.len() ==> items[i].0 <= bound
}

proof fn lemma_tokens_done(text: Seq<char>, k: nat, m: nat)
    requires
        k <= m,
        tokens_upto(text, k).1,
    ensures
        tokens_upto(text, m) == tokens_upto(text, k),
    decreases m - k,
{
    if k < m {
        lemma_tokens_done(text, k, (m - 1) as nat);
    }
}

/// The start, empty and end tags of the XML text with the byte positions at
/// which they start, read until the end of the text. Events the parser has
/// no use for, and read errors, are skipped; reading stops after more events
/// than a text of that size can hold.
pub fn xml_items(xml: &str) -> (items: Vec<(u64, XmlItem)>)
    ensures
        items_view(items@) == xml_tokens(xml@),
        positions_ordered(xml_tokens(xml@), vstd::utf8::encode_utf8(xml@).len()),
{
    let mut reader = xml_reader(xml);
    let mut items: Vec<(u64, XmlItem)> = Vec::new();
    let n = xml.len();
    let bound: usize = if n > (usize::MAX - 16) / 4 {
        usize::MAX
    } else {
        4 * n + 16
    };
    let ghost t = xml@;
    assert(xml.spec_bytes() == vstd::utf8::encode_utf8(t));
    assert(bound == read_limit(byte_len(t)));
    let mut count: usize = 0;
    while count < bound
        invariant
            t == xml@,
            count <= bound,
            bound == read_limit(byte_len(t)),
            reader@ == (t, count as nat),
            items_view(items@) == tokens_upto(t, count as nat).0,
            !tokens_upto(t, count as nat).1,
            positions_ordered(items_view(items@), vstd::utf8::encode_utf8(t).len()),
            forall|i: int| 0 <= i < items@.len() ==> items@[i].0 <= xml_position(t, count as nat),
        decreases bound - count,
    {
        let pos = reader_position(&reader);
        let ghost k = count as nat;
        let ghost before = items@;
        let ghost bv = items_view(items@);
        match read_next(&mut reader) {
            RawEvent::Start(e) => {
                items.push((pos, XmlItem::Start(Tag { name: start_name(&e), attrs: start_attrs(&e) })));
            },
            RawEvent::Empty(e) => {
                items.push((pos, XmlItem::Empty(Tag { name: start_name(&e), attrs: start_attrs(&e) })));
            },
            RawEvent::End(e) => {
                items.push((pos, XmlItem::End(end_name(&e))));
            },
            RawEvent::Eof => {
                proof {
                    assert(tokens_upto(t, k + 1).1);
                    assert(items_view(items@) == tokens_upto(t, k + 1).0);
                    lemma_tokens_done(t, k + 1, bound as nat);
                }
                return items;
            },
            RawEvent::Error => {},
            RawEvent::Other => {},
        }
        proof {
            assert(items_view(items@) =~= tokens_upto(t, k + 1).0);
            let iv = items_view(items@);
            assert forall|i: int| 0 <= i < items@.len() implies items@[i].0 <= pos by {
                if i < before.len() {
                    assert(items@[i] == before[i]);
                }
            }
            assert forall|i: int, j: int| 0 <= i <= j < iv.len() implies iv[i].0 <= iv[j].0 by {
                assert(iv[i].0 == items@[i].0);
                assert(iv[j].0 == items@[j].0);
                if j < before.len() {
                    assert(items@[i] == before[i]);
                    assert(items@[j] == before[j]);
                    assert(bv[i].0 <= bv[j].0);
                }
            }
            assert forall|i: int| 0 <= i < iv.len() implies iv[i].0 <= vstd::utf8::encode_utf8(t).len() by {
                assert(iv[i].0 == items@[i].0);
                if i < before.len() {
                    assert(items@[i] == before[i]);
                    assert(bv[i].0 <= vstd::utf8::encode_utf8(t).len());
                }
            }
        }
        count = count + 1;
    }
    items
}

// ---------------------------------------------------------------------------
// Parsing a TTX document
// ---------------------------------------------------------------------------

/// A preprocessor directive: a line whose text starts with `#`.
pub open spec fn is_directive(line: Seq<char>) -> bool {
    let t = text::trim_start_seq(line);
    text::starts_with_seq(t, "#"@) && !text::starts_with_seq(t, "<?"@)
}

/// The lines with each directive blanked (line numbers stay as they were).
pub open spec fn clean_lines(ls: Seq<Seq<char>>) -> Seq<Seq<char>> {
    ls.map_values(|l: Seq<char>| if is_directive(l) {
        Seq::<char>::empty()
    } else {
        l
    })
}

/// The directives among the first `k` lines, with their 1-based numbers.
pub open spec fn directives_upto(ls: Seq<Seq<char>>, k: int) -> Seq<(usize, Seq<char>)>
    decreases k,
{
    if k <= 0 {
        seq![]
    } else if is_directive(ls[k - 1]) {
        directives_upto(ls, k - 1).push((k as usize, ls[k - 1]))
    } else {
        directives_upto(ls, k - 1)
    }
}

pub open spec fn directives_view(v: Seq<PreprocessorLine>) -> Seq<(usize, Seq<char>)> {
    v.map_values(|p: PreprocessorLine| (p.line_number, p.content@))
}

/// The outcome of parsing the TTX text `raw` when the XML reader gives the
/// items `items` for its cleaned text.
pub open spec fn parsed(raw: Seq<char>, items: Seq<(u64, Item)>, r: Result<Font, ParseError>) -> bool {
    let ls = text::lines_seq(raw);
    let bytes = vstd::utf8::encode_utf8(text::joined(clean_lines(ls)));
    let m = fold_items(items, line_starts(bytes, bytes.len() as int), items.len() as int);
    match r {
        Ok(f) => {
            &&& outcome(m) is Ok
            &&& font_matches(f, m)
            &&& f.wf()
            &&& views(f.source_lines@) == ls
            &&& directives_view(f.preprocessor_lines@) == directives_upto(ls, ls.len() as int)
        },
        Err(e) => outcome(m) == Err::<(), ParseError>(e),
    }
}

proof fn lemma_count_le_mono(s: Seq<usize>, x: usize, y: usize)
    requires
        x <= y,
    ensures
        count_le(s, x) <= count_le(s, y),
        count_le(s, y) <= s.len(),
    decreases s.len(),
{
    if s.len() > 0 {
        lemma_count_le_mono(s.drop_last(), x, y);
    }
}

/// The line of the last of the first `k` items (0 before any).
pub open spec fn line_at(items: Seq<(u64, Item)>, offsets: Seq<usize>, k: int) -> usize {
    if k <= 0 {
        0
    } else {
        count_le(offsets, items[k - 1].0 as usize) as usize
    }
}

/// `m2` has the glyph ranges of `m`, and its open glyph starts where that of
/// `m` did or at `line`.
spec fn keeps_ranges(m: PState, m2: PState, line: usize) -> bool {
    &&& m2.glyf_ranges == m.glyf_ranges
    &&& (m2.glyph_start == m.glyph_start || m2.glyph_start == line)
}

proof fn lemma_open_tables_keeps(m: PState, tag: Seq<char>, attrs: Seq<Option<(Seq<char>, Seq<char>)>>, line: usize)
    ensures
        keeps_ranges(m, open_tables(m, tag, attrs, line), line),
{
    assert(keeps_ranges(m, open_order_head(m, tag, attrs, line), line));
    assert(keeps_ranges(m, open_metrics(m, tag, attrs, line), line));
}

proof fn lemma_open_cmap_keeps(m: PState, tag: Seq<char>, attrs: Seq<Option<(Seq<char>, Seq<char>)>>, line: usize)
    ensures
        keeps_ranges(m, open_cmap(m, tag, attrs, line), line),
{
}

proof fn lemma_open_glyf_keeps(m: PState, tag: Seq<char>, attrs: Seq<Option<(Seq<char>, Seq<char>)>>, line: usize)
    ensures
        keeps_ranges(m, open_glyf(m, tag, attrs, line), line),
{
}

proof fn lemma_open_gsub_keeps(m: PState, tag: Seq<char>, attrs: Seq<Option<(Seq<char>, Seq<char>)>>, line: usize)
    ensures
        keeps_ranges(m, open_gsub(m, tag, attrs, line), line),
{
}

proof fn lemma_open_tag_keeps(m: PState, tag: Seq<char>, attrs: Seq<Option<(Seq<char>, Seq<char>)>>, line: usize)
    ensures
        keeps_ranges(m, open_tag(m, tag, attrs, line), line),
{
    lemma_open_tables_keeps(m, tag, attrs, line);
    lemma_open_cmap_keeps(m, tag, attrs, line);
    lemma_open_glyf_keeps(m, tag, attrs, line);
    lemma_open_gsub_keeps(m, tag, attrs, line);
}

/// Closing a glyph at `line` adds a range that starts at the glyph's start.
proof fn lemma_close_glyph_ordered(m: PState, line: usize, rasterized: bool)
    requires
        ranges_ordered(m),
        m.glyph_start <= line,
    ensures
        ranges_ordered(close_glyph(m, line, rasterized)),
        close_glyph(m, line, rasterized).glyph_start == m.glyph_start,
{
    let m2 = close_glyph(m, line, rasterized);
    assert forall|k: Seq<char>| #[trigger] m2.glyf_ranges.contains_key(k) implies m2.glyf_ranges[k].start
        <= m2.glyf_ranges[k].end by {
        if k != m.glyph_name {
            assert(m.glyf_ranges.contains_key(k));
        }
    }
}

proof fn lemma_close_tag_ordered(m: PState, tag: Seq<char>, line: usize)
    requires
        ranges_ordered(m),
        m.glyph_start <= line,
    ensures
        ranges_ordered(close_tag(m, tag, line)),
        close_tag(m, tag, line).glyph_start == m.glyph_start,
{
    lemma_close_glyph_ordered(m, line, true);
    let m2 = close_tag(m, tag, line);
    if !(tag == "TTGlyph"@ && m.in_glyf) || !(m2 == close_glyph(m, line, true)) {
        assert(m2.glyf_ranges == m.glyf_ranges || m2 == close_glyph(m, line, true));
    }
}

/// A step keeps every glyph range ordered, and the start of the open glyph at
/// or before the current line.
proof fn lemma_step_ordered(m: PState, it: Item, line: usize)
    requires
        ranges_ordered(m),
        m.glyph_start <= line,
    ensures
        ranges_ordered(step(m, it, line)),
        step(m, it, line).glyph_start <= line,
{
    match it {
        Item::Start(tag, attrs) => {
            lemma_open_tag_keeps(m, tag, attrs, line);
        },
        Item::Empty(tag, attrs) => {
            lemma_open_tag_keeps(m, tag, attrs, line);
            let m1 = open_tag(m, tag, attrs, line);
            lemma_close_glyph_ordered(m1, line, false);
        },
        Item::End(tag) => {
            lemma_close_tag_ordered(m, tag, line);
        },
        Item::Other => {},
    }
}

/// Over items whose positions never decrease, every glyph range is ordered.
proof fn lemma_fold_ordered(items: Seq<(u64, Item)>, offsets: Seq<usize>, bound: nat, k: int)
    requires
        0 <= k <= items.len(),
        positions_ordered(items, bound),
        bound <= usize::MAX,
        offsets.len() <= usize::MAX,
    ensures
        ranges_ordered(fold_items(items, offsets, k)),
        fold_items(items, offsets, k).glyph_start <= line_at(items, offsets, k),
    decreases k,
{
    if k > 0 {
        lemma_fold_ordered(items, offsets, bound, k - 1);
        let x = items[k - 1].0 as usize;
        lemma_count_le_mono(offsets, x, x);
        if k > 1 {
            assert(items[k - 2].0 <= items[k - 1].0);
            lemma_count_le_mono(offsets, items[k - 2].0 as usize, x);
        }
        lemma_step_ordered(fold_items(items, offsets, k - 1), items[k - 1].1, line_at(items, offsets, k));
    }
}

/// The text the XML reader is given: the lines of `raw`, with every
/// preprocessor directive blanked, joined with newlines.
pub open spec fn cleaned_text(raw: Seq<char>) -> Seq<char> {
    text::joined(clean_lines(text::lines_seq(raw)))
}

/// Parse the text of a TTX file into a Font structure: the cleaned text is
/// read with quick_xml, and its tags are folded into the font.
pub fn parse_ttx_text(raw: &str) -> (r: Result<Font, ParseError>)
    ensures
        parsed(raw@, xml_tokens(cleaned_text(raw@)), r),
        r matches Err(e) ==> e == ParseError::GridTooLarge,
{
    let ls = text::lines(&text::chars_of(raw));
    let ghost lsv = text::lines_seq(raw@);
    // Keep the source lines, so a save can rewrite only what changed
    let mut source_lines: Vec<String> = Vec::new();
    // Strip preprocessor lines, record their positions (1-based)
    let mut clean: Vec<String> = Vec::new();
    let mut pre: Vec<PreprocessorLine> = Vec::new();
    proof {
        reveal_strlit("#");
        reveal_strlit("<?");
    }
    let mut i: usize = 0;
    while i < ls.len()
        invariant
            lsv == text::lines_seq(raw@),
            ls@.len() == lsv.len(),
            forall|k: int| 0 <= k < ls@.len() ==> #[trigger] ls@[k]@ == lsv[k],
            i <= ls@.len(),
            views(source_lines@) == lsv.subrange(0, i as int),
            views(clean@) == clean_lines(lsv.subrange(0, i as int)),
            directives_view(pre@) == directives_upto(lsv, i as int),
        decreases ls@.len() - i,
    {
        let line = text::string_of(&ls[i]);
        let trimmed = text::trim_start(&ls[i]);
        let ghost before_pre = pre@;
        let ghost before_clean = clean@;
        if text::starts_with(&trimmed, &text::lit("#")) && !text::starts_with(&trimmed, &text::lit("<?")) {
            pre.push(PreprocessorLine { line_number: i + 1, content: line.clone() });
            let blank = String::new();
            clean.push(blank);
            proof {
                text::lemma_views_push(before_clean, blank);
                assert(is_directive(lsv[i as int]));
                assert(directives_view(pre@) =~= directives_view(before_pre).push(((i + 1) as usize, lsv[i as int])));
            }
        } else {
            let same = line.clone();
            clean.push(same);
            proof {
                text::lemma_views_push(before_clean, same);
                assert(!is_directive(lsv[i as int]));
            }
        }
        let ghost before_src = source_lines@;
        source_lines.push(line);
        proof {
            text::lemma_views_push(before_src, line);
            assert(lsv.subrange(0, i + 1) =~= lsv.subrange(0, i as int).push(lsv[i as int]));
            assert(views(clean@) =~= clean_lines(lsv.subrange(0, i + 1)));
        }
        i = i + 1;
    }
    proof {
        assert(lsv.subrange(0, lsv.len() as int) =~= lsv);
    }
    let clean_xml = text::string_of(&text::join_lines(&clean));
    // Track byte offset → line number mapping
    let line_offsets = build_line_offsets(clean_xml.as_str());
    let nbytes = clean_xml.as_str().as_bytes().len();
    let nlines = line_offsets.len();
    let items = xml_items(clean_xml.as_str());
    let r = match build_font(&items, &line_offsets) {
        Ok(font) => {
            let mut font = font;
            font.source_lines = source_lines;
            font.preprocessor_lines = pre;
            Ok(font)
        },
        Err(e) => Err(e),
    };
    proof {
        assert(parsed(raw@, items_view(items@), r));
        let tv = items_view(items@);
        assert(vstd::utf8::encode_utf8(clean_xml@).len() == nbytes);
        lemma_fold_ordered(tv, line_offsets@, nbytes as nat, tv.len() as int);
    }
    r
}


/// A `<Ligature components="c" glyph="g"/>` inside a ligature set adds one
/// ligature whose components are the comma-separated pieces of `c`, each
/// trimmed: one per piece (one more than the commas), none holding a comma,
/// and the untrimmed pieces joined with commas give `c` back.
pub proof fn law_ligature_components_split_at_commas(
    m: PState,
    attrs: Seq<Option<(Seq<char>, Seq<char>)>>,
    line: usize,
    c: Seq<char>,
    g: Seq<char>,
)
    requires
        m.in_ligature_subst,
        attr(attrs, "components"@) == Some(c),
        attr(attrs, "glyph"@) == Some(g),
    ensures
        ({
            let m2 = step(m, Item::Empty("Ligature"@, attrs), line);
            let l = m2.ligatures.last();
            &&& m2.ligatures.len() == m.ligatures.len() + 1
            &&& m2.ligatures.drop_last() == m.ligatures
            &&& l.first == m.lig_set_glyph
            &&& l.result == g
            &&& l.components.len() == text::count_char(c, ',') + 1
            &&& forall|k: int, i: int|
                0 <= k < l.components.len() && 0 <= i < l.components[k].len() ==> #[trigger] l.components[k][i]
                    != ','
            &&& exists|pieces: Seq<Seq<char>>|
                #[trigger] text::join_with(pieces, ',') == c && pieces.len() == l.components.len() && forall|k: int|
                    0 <= k < pieces.len() ==> #[trigger] l.components[k] == text::trim_seq(pieces[k])
        }),
{
    let tag = "Ligature"@;
    reveal_strlit("Ligature");
    assert(tag.len() == 8);
    assert(tag != "GlyphOrder"@) by {
        reveal_strlit("GlyphOrder");
        assert("GlyphOrder"@.len() == 10);
    }
    assert(tag != "GlyphID"@) by {
        reveal_strlit("GlyphID");
        assert("GlyphID"@.len() == 7);
    }
    assert(tag != "head"@) by {
        reveal_strlit("head");
        assert("head"@.len() == 4);
    }
    assert(tag != "unitsPerEm"@) by {
        reveal_strlit("unitsPerEm");
        assert("unitsPerEm"@.len() == 10);
    }
    assert(tag != "hhea"@) by {
        reveal_strlit("hhea");
        assert("hhea"@.len() == 4);
    }
    assert(tag != "ascent"@) by {
        reveal_strlit("ascent");
        assert("ascent"@.len() == 6);
    }
    assert(tag != "descent"@) by {
        reveal_strlit("descent");
        assert("descent"@.len() == 7);
    }
    assert(tag != "hmtx"@) by {
        reveal_strlit("hmtx");
        assert("hmtx"@.len() == 4);
    }
    assert(tag != "mtx"@) by {
        reveal_strlit("mtx");
        assert("mtx"@.len() == 3);
    }
    assert(tag != "cmap"@) by {
        reveal_strlit("cmap");
        assert("cmap"@.len() == 4);
    }
    assert(tag != "cmap_format_4"@) by {
        reveal_strlit("cmap_format_4");
        assert("cmap_format_4"@.len() == 13);
    }
    assert(tag != "map"@) by {
        reveal_strlit("map");
        assert("map"@.len() == 3);
    }
    assert(tag != "glyf"@) by {
        reveal_strlit("glyf");
        assert("glyf"@.len() == 4);
    }
    assert(tag != "TTGlyph"@) by {
        reveal_strlit("TTGlyph");
        assert("TTGlyph"@.len() == 7);
    }
    assert(tag != "contour"@) by {
        reveal_strlit("contour");
        assert("contour"@.len() == 7);
    }
    assert(tag != "pt"@) by {
        reveal_strlit("pt");
        assert("pt"@.len() == 2);
    }
    assert(tag != "GSUB"@) by {
        reveal_strlit("GSUB");
        assert("GSUB"@.len() == 4);
    }
    assert(tag != "Lookup"@) by {
        reveal_strlit("Lookup");
        assert("Lookup"@.len() == 6);
    }
    assert(tag != "LigatureSubst"@) by {
        reveal_strlit("LigatureSubst");
        assert("LigatureSubst"@.len() == 13);
    }
    assert(tag != "LigatureSet"@) by {
        reveal_strlit("LigatureSet");
        assert("LigatureSet"@.len() == 11);
    }
    let m2 = step(m, Item::Empty(tag, attrs), line);
    let l = LigModel { first: m.lig_set_glyph, components: components_of(c), result: g };
    assert(m2.ligatures == m.ligatures.push(l));
    assert(m2.ligatures.drop_last() =~= m.ligatures);
    let sp = text::split_seq(c, ',');
    text::lemma_split_pieces(c, ',');
    assert forall|k: int, i: int|
        0 <= k < l.components.len() && 0 <= i < l.components[k].len() implies #[trigger] l.components[k][i]
        != ',' by {
        assert forall|j: int| 0 <= j < sp[k].len() implies sp[k][j] != ',' by {
            assert(sp[k][j] != ',');
        }
        text::lemma_trim_within(sp[k], ',');
    }
    assert(text::join_with(sp, ',') == c);
}

/// Saving a freshly parsed font, before any edit, writes back the lines of
/// the text it was parsed from.
pub proof fn law_parse_then_save(
    raw: Seq<char>,
    items: Seq<(u64, Item)>,
    f: Font,
    outl: Map<Seq<char>, (Seq<Contour>, Option<BBox>)>,
)
    requires
        parsed(raw, items, Ok(f)),
    ensures
        crate::ttx::write::save_plan(f, outl) == Some(text::lines_seq(raw)),
{
    if f.dirty.items@.len() > 0 {
        assert(crate::names::name_set(f.dirty.items@).contains(f.dirty.items@[0]@));
    }
    crate::ttx::write::law_save_unmodified(f, outl);
}


/// Saving a freshly parsed font, before any edit, writes back the very text
/// it was parsed from, when that text ends with a newline and holds no
/// carriage return.
pub proof fn law_parse_then_save_text(
    raw: Seq<char>,
    items: Seq<(u64, Item)>,
    f: Font,
    outl: Map<Seq<char>, (Seq<Contour>, Option<BBox>)>,
)
    requires
        parsed(raw, items, Ok(f)),
        raw.len() > 0,
        raw.last() == '\n',
        forall|i: int| 0 <= i < raw.len() ==> raw[i] != '\r',
    ensures
        crate::ttx::write::save_plan(f, outl) matches Some(lines) && text::joined(lines) + seq!['\n'] == raw,
{
    law_parse_then_save(raw, items, f, outl);
    text::lemma_lines_roundtrip(raw);
}

} // verus!
