use vstd::prelude::*;
use crate::font::{BBox, Contour, Font, LineRange, Point};
use crate::names::NameMap;
use crate::text;
use crate::text::{int_seq, views};

verus! {

// ---------------------------------------------------------------------------
// TTGlyph XML
// ---------------------------------------------------------------------------

/// `<pt .../>` line for an on-curve point.
pub open spec fn pt_line(p: Point) -> Seq<char> {
    "        <pt x=\""@ + int_seq(p.x as int) + "\" y=\""@ + int_seq(p.y as int) + "\" on=\"1\"/>"@
}

/// The `<pt>` lines of the points, in order.
pub open spec fn points_lines(ps: Seq<Point>) -> Seq<Seq<char>>
    decreases ps.len(),
{
    if ps.len() == 0 {
        seq![]
    } else {
        points_lines(ps.drop_last()).push(pt_line(ps.last()))
    }
}

/// The lines of one `<contour>` element.
pub open spec fn contour_lines(c: Contour) -> Seq<Seq<char>> {
    seq!["      <contour>"@] + points_lines(c.points@) + seq!["      </contour>"@]
}

/// The lines of the `<contour>` elements of `cs`, in order.
pub open spec fn contours_lines(cs: Seq<Contour>) -> Seq<Seq<char>>
    decreases cs.len(),
{
    if cs.len() == 0 {
        seq![]
    } else {
        contours_lines(cs.drop_last()) + contour_lines(cs.last())
    }
}

/// The opening `<TTGlyph>` line with its bounding box.
pub open spec fn ttglyph_open(name: Seq<char>, b: BBox) -> Seq<char> {
    "    <TTGlyph name=\""@ + name + "\" xMin=\""@ + int_seq(b.x_min as int) + "\" yMin=\""@ + int_seq(
        b.y_min as int,
    ) + "\" xMax=\""@ + int_seq(b.x_max as int) + "\" yMax=\""@ + int_seq(b.y_max as int) + "\">"@
}

/// The XML lines of a `<TTGlyph>` element: a single self-closing line for a
/// glyph without contours, otherwise the bounding box, the contours and an
/// empty instruction block.
pub open spec fn ttglyph_xml(name: Seq<char>, cs: Seq<Contour>, bb: Option<BBox>) -> Seq<Seq<char>> {
    if cs.len() == 0 {
        seq!["    <TTGlyph name=\""@ + name + "\"/><!-- contains no outline data -->"@]
    } else {
        seq![ttglyph_open(name, bb.unwrap())] + contours_lines(cs) + seq![
            "      <instructions><assembly>"@,
            "        </assembly></instructions>"@,
            "    </TTGlyph>"@,
        ]
    }
}

/// Generate the XML lines for a TTGlyph element.
pub fn generate_ttglyph_xml(name: &str, contours: &Vec<Contour>, bbox: Option<&BBox>) -> (out: Vec<String>)
    requires
        contours@.len() > 0 ==> bbox is Some,
    ensures
        views(out@) == ttglyph_xml(
            name@,
            contours@,
            match bbox {
                Some(b) => Some(*b),
                None => None,
            },
        ),
{
    let mut out: Vec<String> = Vec::new();
    if contours.len() == 0 {
        let mut l = text::lit("    <TTGlyph name=\"");
        text::append(&mut l, &text::chars_of(name));
        text::append(&mut l, &text::lit("\"/><!-- contains no outline data -->"));
        out.push(text::string_of(&l));
        proof {
            assert(views(out@) =~= ttglyph_xml(name@, contours@, None));
        }
        return out;
    }
    let b = match bbox {
        Some(b) => b,
        None => {
            return out;
        },
    };
    let mut l = text::lit("    <TTGlyph name=\"");
    text::append(&mut l, &text::chars_of(name));
    text::append(&mut l, &text::lit("\" xMin=\""));
    text::append(&mut l, &text::dec_signed(b.x_min as i64));
    text::append(&mut l, &text::lit("\" yMin=\""));
    text::append(&mut l, &text::dec_signed(b.y_min as i64));
    text::append(&mut l, &text::lit("\" xMax=\""));
    text::append(&mut l, &text::dec_signed(b.x_max as i64));
    text::append(&mut l, &text::lit("\" yMax=\""));
    text::append(&mut l, &text::dec_signed(b.y_max as i64));
    text::append(&mut l, &text::lit("\">"));
    out.push(text::string_of(&l));
    proof {
        assert(views(out@) =~= seq![ttglyph_open(name@, *b)] + contours_lines(contours@.subrange(0, 0)));
    }
    let mut k: usize = 0;
    while k < contours.len()
        invariant
            k <= contours@.len(),
            views(out@) == seq![ttglyph_open(name@, *b)] + contours_lines(contours@.subrange(0, k as int)),
        decreases contours@.len() - k,
    {
        let ghost before = views(out@);
        out.push(text::string_of(&text::lit("      <contour>")));
        let pts = &contours[k].points;
        let mut j: usize = 0;
        proof {
            assert(views(out@) =~= before + seq!["      <contour>"@] + points_lines(pts@.subrange(0, 0)));
        }
        while j < pts.len()
            invariant
                j <= pts@.len(),
                views(out@) == before + seq!["      <contour>"@] + points_lines(pts@.subrange(0, j as int)),
            decreases pts@.len() - j,
        {
            let p = pts[j];
            let mut l = text::lit("        <pt x=\"");
            text::append(&mut l, &text::dec_signed(p.x as i64));
            text::append(&mut l, &text::lit("\" y=\""));
            text::append(&mut l, &text::dec_signed(p.y as i64));
            text::append(&mut l, &text::lit("\" on=\"1\"/>"));
            let ghost o = views(out@);
            out.push(text::string_of(&l));
            proof {
                assert(pts@.subrange(0, j + 1).drop_last() =~= pts@.subrange(0, j as int));
                assert(views(out@) =~= o.push(pt_line(p)));
            }
            j = j + 1;
        }
        let ghost o = views(out@);
        out.push(text::string_of(&text::lit("      </contour>")));
        proof {
            assert(views(out@) =~= o.push("      </contour>"@));
            assert(pts@.subrange(0, pts@.len() as int) =~= pts@);
            assert(contours@.subrange(0, k + 1).drop_last() =~= contours@.subrange(0, k as int));
            assert(contours_lines(contours@.subrange(0, k + 1)) == contours_lines(contours@.subrange(0, k as int))
                + contour_lines(contours@[k as int]));
            assert(views(out@) =~= seq![ttglyph_open(name@, *b)] + contours_lines(contours@.subrange(0, k + 1)));
        }
        k = k + 1;
    }
    let ghost o = views(out@);
    out.push(text::string_of(&text::lit("      <instructions><assembly>")));
    out.push(text::string_of(&text::lit("        </assembly></instructions>")));
    out.push(text::string_of(&text::lit("    </TTGlyph>")));
    proof {
        assert(contours@.subrange(0, contours@.len() as int) =~= contours@);
        assert(views(out@) =~= ttglyph_xml(name@, contours@, Some(*b)));
    }
    out
}

// ---------------------------------------------------------------------------
// Line replacement
// ---------------------------------------------------------------------------

/// `lines` with the 1-based inclusive range `start..=end` (cut at the end of
/// the file) replaced by `new`; unchanged when the range is empty or starts
/// past the end.
pub open spec fn replaced(lines: Seq<Seq<char>>, start: usize, end: usize, new: Seq<Seq<char>>) -> Seq<Seq<char>> {
    if start == 0 || end == 0 || start > lines.len() {
        lines
    } else {
        let e = if end < lines.len() {
            end as int
        } else {
            lines.len() as int
        };
        lines.subrange(0, start - 1) + new + lines.subrange(e, lines.len() as int)
    }
}

/// Replace lines[start-1..=end-1] (1-based inclusive range) with new_lines.
pub fn replace_lines(lines: &mut Vec<String>, start: usize, end: usize, new_lines: &Vec<String>)
    requires
        start != 0 && end != 0 && start <= old(lines)@.len() ==> start <= end + 1,
    ensures
        views(final(lines)@) == replaced(views(old(lines)@), start, end, views(new_lines@)),
{
    if start == 0 || end == 0 || start > lines.len() {
        return;
    }
    let s = start - 1;
    let e = if end < lines.len() {
        end
    } else {
        lines.len()
    };
    let ghost v = views(lines@);
    let mut out: Vec<String> = Vec::new();
    let mut i: usize = 0;
    while i < s
        invariant
            s <= e <= lines@.len(),
            i <= s,
            v == views(lines@),
            views(out@) == v.subrange(0, i as int),
        decreases s - i,
    {
        let ghost o = out@;
        let c = lines[i].clone();
        out.push(c);
        proof {
            text::lemma_views_push(o, c);
            assert(views(out@) =~= v.subrange(0, i + 1));
        }
        i = i + 1;
    }
    let mut j: usize = 0;
    while j < new_lines.len()
        invariant
            s <= e <= lines@.len(),
            v == views(lines@),
            j <= new_lines@.len(),
            views(out@) == v.subrange(0, s as int) + views(new_lines@).subrange(0, j as int),
        decreases new_lines@.len() - j,
    {
        let ghost o = out@;
        let c = new_lines[j].clone();
        out.push(c);
        proof {
            text::lemma_views_push(o, c);
            assert(views(out@) =~= v.subrange(0, s as int) + views(new_lines@).subrange(0, j + 1));
        }
        j = j + 1;
    }
    let mut k: usize = e;
    while k < lines.len()
        invariant
            e <= k <= lines@.len(),
            v == views(lines@),
            views(out@) == v.subrange(0, s as int) + views(new_lines@) + v.subrange(e as int, k as int),
        decreases lines@.len() - k,
    {
        let ghost o = out@;
        let c = lines[k].clone();
        out.push(c);
        proof {
            text::lemma_views_push(o, c);
            assert(views(out@) =~= v.subrange(0, s as int) + views(new_lines@) + v.subrange(
                e as int,
                k + 1,
            ));
        }
        k = k + 1;
    }
    proof {
        assert(views(new_lines@).subrange(0, new_lines@.len() as int) =~= views(new_lines@));
    }
    *lines = out;
}


// ---------------------------------------------------------------------------
// Rescanning line ranges
// ---------------------------------------------------------------------------

/// The value of the first `name="..."` attribute of a line.
pub open spec fn ttglyph_name_of(t: Seq<char>) -> Option<Seq<char>> {
    match text::find_seq(t, "name=\""@) {
        None => None,
        Some(i) => {
            let rest = t.subrange(i + "name=\""@.len(), t.len() as int);
            match text::find_seq(rest, "\""@) {
                None => None,
                Some(e) => Some(rest.subrange(0, e)),
            }
        },
    }
}

/// Extract the name attribute from a TTGlyph line.
pub fn extract_ttglyph_name(line: &str) -> (r: Option<String>)
    ensures
        match r {
            Some(n) => ttglyph_name_of(line@) == Some(n@),
            None => ttglyph_name_of(line@) is None,
        },
{
    proof {
        reveal_strlit("name=\"");
    }
    let t = text::chars_of(line);
    let pat = text::lit("name=\"");
    let found = text::find(&t, &pat);
    let i = match found {
        Some(i) => i,
        None => {
            return None;
        },
    };
    assert(text::occurs_at(t@, pat@, i as int));
    assert(i + pat@.len() <= t@.len());
    assert(t@.len() == t.len());
    let idx = i + pat.len();
    let rest = text::slice_vec(&t, idx, t.len());
    let end = match text::find(&rest, &text::lit("\"")) {
        Some(e) => e,
        None => {
            return None;
        },
    };
    Some(text::string_of(&text::slice_vec(&rest, 0, end)))
}

/// What a scan of the lines has found so far.
pub struct Scan {
    pub glyf: Map<Seq<char>, LineRange>,
    pub glyph_order_range: Option<LineRange>,
    pub hmtx_range: Option<LineRange>,
    pub glyf_end: Option<usize>,
    pub cmap4_range: Option<LineRange>,
    pub lookup5_range: Option<LineRange>,
    pub in_glyf: bool,
    pub in_gsub: bool,
    pub in_lookup5: bool,
    pub in_cmap4: bool,
    pub glyph_order_start: usize,
    pub hmtx_start: usize,
    pub cmap4_start: usize,
    pub lookup5_start: usize,
    pub current: Option<(Seq<char>, usize)>,
}

pub open spec fn scan_start() -> Scan {
    Scan {
        glyf: Map::empty(),
        glyph_order_range: None,
        hmtx_range: None,
        glyf_end: None,
        cmap4_range: None,
        lookup5_range: None,
        in_glyf: false,
        in_gsub: false,
        in_lookup5: false,
        in_cmap4: false,
        glyph_order_start: 0,
        hmtx_start: 0,
        cmap4_start: 0,
        lookup5_start: 0,
        current: None,
    }
}

/// An opening tag `<tag` (not a closing one).
pub open spec fn opens(t: Seq<char>, tag: Seq<char>) -> bool {
    text::starts_with_seq(t, tag) && !text::starts_with_seq(t, "</"@)
}

/// The GlyphOrder and hmtx sections.
pub open spec fn scan_tables(s: Scan, ln: usize, t: Seq<char>) -> Scan {
    let s1 = if opens(t, "<GlyphOrder"@) {
        Scan { glyph_order_start: ln, ..s }
    } else if text::starts_with_seq(t, "</GlyphOrder>"@) {
        Scan { glyph_order_range: Some(LineRange { start: s.glyph_order_start, end: ln }), ..s }
    } else {
        s
    };
    if opens(t, "<hmtx"@) {
        Scan { hmtx_start: ln, ..s1 }
    } else if text::starts_with_seq(t, "</hmtx>"@) {
        Scan { hmtx_range: Some(LineRange { start: s1.hmtx_start, end: ln }), ..s1 }
    } else {
        s1
    }
}

/// The glyf section and the TTGlyph elements in it.
pub open spec fn scan_glyf(s: Scan, ln: usize, t: Seq<char>) -> Scan {
    if opens(t, "<glyf"@) {
        Scan { in_glyf: true, ..s }
    } else if text::starts_with_seq(t, "</glyf>"@) {
        Scan { in_glyf: false, glyf_end: Some(ln), ..s }
    } else if s.in_glyf && text::starts_with_seq(t, "<TTGlyph"@) {
        match ttglyph_name_of(t) {
            Some(n) => if text::contains_seq(t, "/>"@) {
                Scan { glyf: s.glyf.insert(n, LineRange { start: ln, end: ln }), ..s }
            } else {
                Scan { current: Some((n, ln)), ..s }
            },
            None => s,
        }
    } else if s.in_glyf && text::starts_with_seq(t, "</TTGlyph>"@) {
        match s.current {
            Some((n, start)) => Scan {
                current: None,
                glyf: s.glyf.insert(n, LineRange { start, end: ln }),
                ..s
            },
            None => s,
        }
    } else {
        s
    }
}

/// The Windows Unicode BMP `cmap_format_4` subtable and GSUB lookup 5.
pub open spec fn scan_cmap_gsub(s: Scan, ln: usize, t: Seq<char>) -> Scan {
    let s1 = if opens(t, "<cmap_format_4"@) && text::contains_seq(t, "platformID=\"3\""@)
        && text::contains_seq(t, "platEncID=\"1\""@) {
        Scan { in_cmap4: true, cmap4_start: ln, ..s }
    } else if text::starts_with_seq(t, "</cmap_format_4>"@) && s.in_cmap4 {
        Scan { in_cmap4: false, cmap4_range: Some(LineRange { start: s.cmap4_start, end: ln }), ..s }
    } else {
        s
    };
    let s2 = if opens(t, "<GSUB"@) {
        Scan { in_gsub: true, ..s1 }
    } else if text::starts_with_seq(t, "</GSUB>"@) {
        Scan { in_gsub: false, ..s1 }
    } else {
        s1
    };
    if s2.in_gsub && text::starts_with_seq(t, "<Lookup"@) && text::contains_seq(t, "index=\"5\""@) {
        Scan { in_lookup5: true, lookup5_start: ln, ..s2 }
    } else if s2.in_lookup5 && text::starts_with_seq(t, "</Lookup>"@) {
        Scan { in_lookup5: false, lookup5_range: Some(LineRange { start: s2.lookup5_start, end: ln }), ..s2 }
    } else {
        s2
    }
}

/// One line, numbered `ln`, whose trimmed text is `t`.
pub open spec fn scan_line(s: Scan, ln: usize, t: Seq<char>) -> Scan {
    scan_cmap_gsub(scan_glyf(scan_tables(s, ln, t), ln, t), ln, t)
}

/// The scan of the first `k` lines.
pub open spec fn scan_upto(lines: Seq<Seq<char>>, k: int) -> Scan
    decreases k,
{
    if k <= 0 {
        scan_start()
    } else {
        scan_line(scan_upto(lines, k - 1), k as usize, text::trim_seq(lines[k - 1]))
    }
}

/// The scan of all the lines.
pub open spec fn scan_all(lines: Seq<Seq<char>>) -> Scan {
    scan_upto(lines, lines.len() as int)
}

/// The exec side of a scan.
struct Scanner {
    glyf: NameMap<LineRange>,
    glyph_order_range: Option<LineRange>,
    hmtx_range: Option<LineRange>,
    glyf_end: Option<usize>,
    cmap4_range: Option<LineRange>,
    lookup5_range: Option<LineRange>,
    in_glyf: bool,
    in_gsub: bool,
    in_lookup5: bool,
    in_cmap4: bool,
    glyph_order_start: usize,
    hmtx_start: usize,
    cmap4_start: usize,
    lookup5_start: usize,
    current: Option<(String, usize)>,
}

impl View for Scanner {
    type V = Scan;

    closed spec fn view(&self) -> Scan {
        Scan {
            glyf: self.glyf@,
            glyph_order_range: self.glyph_order_range,
            hmtx_range: self.hmtx_range,
            glyf_end: self.glyf_end,
            cmap4_range: self.cmap4_range,
            lookup5_range: self.lookup5_range,
            in_glyf: self.in_glyf,
            in_gsub: self.in_gsub,
            in_lookup5: self.in_lookup5,
            in_cmap4: self.in_cmap4,
            glyph_order_start: self.glyph_order_start,
            hmtx_start: self.hmtx_start,
            cmap4_start: self.cmap4_start,
            lookup5_start: self.lookup5_start,
            current: match self.current {
                Some((n, l)) => Some((n@, l)),
                None => None,
            },
        }
    }
}

fn lit_starts(t: &Vec<char>, p: &str) -> (b: bool)
    ensures
        b == text::starts_with_seq(t@, p@),
{
    text::starts_with(t, &text::lit(p))
}

fn lit_contains(t: &Vec<char>, p: &str) -> (b: bool)
    ensures
        b == text::contains_seq(t@, p@),
{
    text::contains(t, &text::lit(p))
}

impl Scanner {
    fn new() -> (s: Self)
        ensures
            s.glyf.wf(),
            s@ == scan_start(),
    {
        Scanner {
            glyf: NameMap::new(),
            glyph_order_range: None,
            hmtx_range: None,
            glyf_end: None,
            cmap4_range: None,
            lookup5_range: None,
            in_glyf: false,
            in_gsub: false,
            in_lookup5: false,
            in_cmap4: false,
            glyph_order_start: 0,
            hmtx_start: 0,
            cmap4_start: 0,
            lookup5_start: 0,
            current: None,
        }
    }

    fn step_tables(&mut self, ln: usize, t: &Vec<char>)
        requires
            old(self).glyf.wf(),
        ensures
            final(self).glyf.wf(),
            final(self)@ == scan_tables(old(self)@, ln, t@),
    {
        // GlyphOrder
        if lit_starts(t, "<GlyphOrder") && !lit_starts(t, "</") {
            self.glyph_order_start = ln;
        } else if lit_starts(t, "</GlyphOrder>") {
            self.glyph_order_range = Some(LineRange { start: self.glyph_order_start, end: ln });
        }
        // hmtx
        if lit_starts(t, "<hmtx") && !lit_starts(t, "</") {
            self.hmtx_start = ln;
        } else if lit_starts(t, "</hmtx>") {
            self.hmtx_range = Some(LineRange { start: self.hmtx_start, end: ln });
        }
    }

    fn step_glyf(&mut self, ln: usize, t: &Vec<char>)
        requires
            old(self).glyf.wf(),
        ensures
            final(self).glyf.wf(),
            final(self)@ == scan_glyf(old(self)@, ln, t@),
    {
        // glyf + TTGlyph ranges
        if lit_starts(t, "<glyf") && !lit_starts(t, "</") {
            self.in_glyf = true;
        } else if lit_starts(t, "</glyf>") {
            self.in_glyf = false;
            self.glyf_end = Some(ln);
        } else if self.in_glyf && lit_starts(t, "<TTGlyph") {
            let line = text::string_of(t);
            if let Some(name) = extract_ttglyph_name(line.as_str()) {
                if lit_contains(t, "/>") {
                    // Self-closing (empty glyph)
                    self.glyf.insert(name, LineRange { start: ln, end: ln });
                } else {
                    self.current = Some((name, ln));
                }
            }
        } else if self.in_glyf && lit_starts(t, "</TTGlyph>") {
            let cur = self.current.take();
            match cur {
                Some((name, start)) => {
                    self.glyf.insert(name, LineRange { start, end: ln });
                },
                None => {},
            }
        }
    }

    fn step_cmap_gsub(&mut self, ln: usize, t: &Vec<char>)
        requires
            old(self).glyf.wf(),
        ensures
            final(self).glyf.wf(),
            final(self)@ == scan_cmap_gsub(old(self)@, ln, t@),
    {
        // cmap_format_4 (platformID=3, platEncID=1)
        if lit_starts(t, "<cmap_format_4") && !lit_starts(t, "</") && lit_contains(t, "platformID=\"3\"")
            && lit_contains(t, "platEncID=\"1\"") {
            self.in_cmap4 = true;
            self.cmap4_start = ln;
        } else if lit_starts(t, "</cmap_format_4>") && self.in_cmap4 {
            self.in_cmap4 = false;
            self.cmap4_range = Some(LineRange { start: self.cmap4_start, end: ln });
        }
        // GSUB Lookup 5
        if lit_starts(t, "<GSUB") && !lit_starts(t, "</") {
            self.in_gsub = true;
        } else if lit_starts(t, "</GSUB>") {
            self.in_gsub = false;
        }
        if self.in_gsub && lit_starts(t, "<Lookup") && lit_contains(t, "index=\"5\"") {
            self.in_lookup5 = true;
            self.lookup5_start = ln;
        } else if self.in_lookup5 && lit_starts(t, "</Lookup>") {
            self.in_lookup5 = false;
            self.lookup5_range = Some(LineRange { start: self.lookup5_start, end: ln });
        }
    }

    fn step(&mut self, ln: usize, t: &Vec<char>)
        requires
            old(self).glyf.wf(),
        ensures
            final(self).glyf.wf(),
            final(self)@ == scan_line(old(self)@, ln, t@),
    {
        self.step_tables(ln, t);
        self.step_glyf(ln, t);
        self.step_cmap_gsub(ln, t);
    }
}

/// Every glyph range of the scan starts no later than it ends, and no range
/// or pending glyph lies past line `k`.
pub open spec fn ordered_upto(s: Scan, k: int) -> bool {
    &&& forall|n: Seq<char>| #[trigger] s.glyf.contains_key(n) ==> s.glyf[n].start <= s.glyf[n].end <= k
    &&& (s.current matches Some((n, st)) ==> st <= k)
}

proof fn lemma_tables_keep(s: Scan, ln: usize, t: Seq<char>)
    ensures
        scan_tables(s, ln, t).glyf == s.glyf,
        scan_tables(s, ln, t).current == s.current,
{
}

proof fn lemma_cmap_gsub_keep(s: Scan, ln: usize, t: Seq<char>)
    ensures
        scan_cmap_gsub(s, ln, t).glyf == s.glyf,
        scan_cmap_gsub(s, ln, t).current == s.current,
{
}

proof fn lemma_glyf_ordered(s: Scan, ln: usize, t: Seq<char>)
    requires
        ordered_upto(s, ln - 1),
    ensures
        ordered_upto(scan_glyf(s, ln, t), ln as int),
{
    let r = scan_glyf(s, ln, t);
    if opens(t, "<glyf"@) || text::starts_with_seq(t, "</glyf>"@) {
        assert(r.glyf == s.glyf && r.current == s.current);
    } else if s.in_glyf && text::starts_with_seq(t, "<TTGlyph"@) {
        match ttglyph_name_of(t) {
            Some(n) => {
                if text::contains_seq(t, "/>"@) {
                    assert(r.glyf == s.glyf.insert(n, LineRange { start: ln, end: ln }));
                    assert(r.current == s.current);
                } else {
                    assert(r.glyf == s.glyf);
                }
            },
            None => {},
        }
    } else if s.in_glyf && text::starts_with_seq(t, "</TTGlyph>"@) {
        match s.current {
            Some((n, start)) => {
                assert(r.glyf == s.glyf.insert(n, LineRange { start, end: ln }));
            },
            None => {},
        }
    }
}

proof fn lemma_scan_line_ordered(s: Scan, ln: usize, t: Seq<char>)
    requires
        ordered_upto(s, ln - 1),
    ensures
        ordered_upto(scan_line(s, ln, t), ln as int),
{
    let s1 = scan_tables(s, ln, t);
    lemma_tables_keep(s, ln, t);
    assert(ordered_upto(s1, ln - 1));
    let s2 = scan_glyf(s1, ln, t);
    lemma_glyf_ordered(s1, ln, t);
    lemma_cmap_gsub_keep(s2, ln, t);
}

/// Every glyph range found by a scan of `k` lines starts no later than it
/// ends, and none lies past line `k`.
pub proof fn lemma_scan_ordered(lines: Seq<Seq<char>>, k: int)
    requires
        0 <= k <= usize::MAX,
    ensures
        ordered_upto(scan_upto(lines, k), k),
    decreases k,
{
    if k > 0 {
        lemma_scan_ordered(lines, k - 1);
        lemma_scan_line_ordered(scan_upto(lines, k - 1), k as usize, text::trim_seq(lines[k - 1]));
    }
}

/// Rescan source_lines to rebuild all line ranges after a save.
/// Single pass over all lines using simple string matching.
/// The scan of all the lines.
fn scan_lines(source: &Vec<String>) -> (sc: Scanner)
    ensures
        sc.glyf.wf(),
        sc@ == scan_all(views(source@)),
        views(source@).len() == source.len(),
{
    let ghost lines = views(source@);
    let mut sc = Scanner::new();
    let mut i: usize = 0;
    while i < source.len()
        invariant
            lines == views(source@),
            i <= lines.len(),
            sc.glyf.wf(),
            sc@ == scan_upto(lines, i as int),
        decreases lines.len() - i,
    {
        let t = text::trim(&text::chars_of(source[i].as_str()));
        sc.step(i + 1, &t);
        i = i + 1;
    }
    sc
}

pub fn rescan_line_ranges(font: &mut Font)
    requires
        old(font).wf(),
    ensures
        final(font).wf(),
        final(font).glyf_ranges@ == scan_all(views(old(font).source_lines@)).glyf,
        final(font).glyph_order_range == scan_all(views(old(font).source_lines@)).glyph_order_range,
        final(font).hmtx_range == scan_all(views(old(font).source_lines@)).hmtx_range,
        final(font).glyf_section_end == scan_all(views(old(font).source_lines@)).glyf_end,
        final(font).cmap_format4_range == scan_all(views(old(font).source_lines@)).cmap4_range,
        final(font).gsub_lookup5_range == scan_all(views(old(font).source_lines@)).lookup5_range,
        final(font).glyph_order == old(font).glyph_order,
        final(font).glyphs == old(font).glyphs,
        final(font).cmap == old(font).cmap,
        final(font).cmap_reverse == old(font).cmap_reverse,
        final(font).hmtx == old(font).hmtx,
        final(font).ligatures == old(font).ligatures,
        final(font).units_per_em == old(font).units_per_em,
        final(font).ascent == old(font).ascent,
        final(font).descent == old(font).descent,
        final(font).dirty == old(font).dirty,
        final(font).source_lines == old(font).source_lines,
        final(font).preprocessor_lines == old(font).preprocessor_lines,
{
    let ghost lines = views(font.source_lines@);
    let sc = scan_lines(&font.source_lines);
    proof {
        lemma_scan_ordered(lines, lines.len() as int);
        assert(sc.glyf@ == sc@.glyf);
    }
    font.glyf_ranges = sc.glyf;
    assert forall|k: Seq<char>| #[trigger] font.glyf_ranges@.contains_key(k) implies font.glyf_ranges@[k].start
        <= font.glyf_ranges@[k].end by {
        assert(scan_upto(lines, lines.len() as int).glyf.contains_key(k));
    }
    font.glyph_order_range = sc.glyph_order_range;
    font.hmtx_range = sc.hmtx_range;
    font.glyf_section_end = sc.glyf_end;
    font.cmap_format4_range = sc.cmap4_range;
    font.gsub_lookup5_range = sc.lookup5_range;
}


// ---------------------------------------------------------------------------
// Sorting by line, last line first
// ---------------------------------------------------------------------------

/// `x` placed into `t` (ordered by descending line) after every entry whose
/// line is not smaller than its own.
pub open spec fn insert_desc<T>(t: Seq<(usize, T)>, x: (usize, T)) -> Seq<(usize, T)>
    decreases t.len(),
{
    if t.len() == 0 {
        seq![x]
    } else if t[0].0 < x.0 {
        seq![x] + t
    } else {
        seq![t[0]] + insert_desc(t.drop_first(), x)
    }
}

/// `s` stably sorted by descending line: entries with the same line keep
/// their relative order.
pub open spec fn sort_desc<T>(s: Seq<(usize, T)>) -> Seq<(usize, T)>
    decreases s.len(),
{
    if s.len() == 0 {
        seq![]
    } else {
        insert_desc(sort_desc(s.drop_last()), s.last())
    }
}

proof fn lemma_insert_desc_at<T>(t: Seq<(usize, T)>, x: (usize, T), p: int)
    requires
        0 <= p <= t.len(),
        forall|i: int| 0 <= i < p ==> t[i].0 >= x.0,
        p < t.len() ==> t[p].0 < x.0,
    ensures
        insert_desc(t, x) == t.insert(p, x),
    decreases p,
{
    if p == 0 {
        assert(insert_desc(t, x) =~= t.insert(p, x));
    } else {
        let d = t.drop_first();
        assert forall|i: int| 0 <= i < p - 1 implies d[i].0 >= x.0 by {
            assert(d[i] == t[i + 1]);
        }
        lemma_insert_desc_at(d, x, p - 1);
        assert(seq![t[0]] + d.insert(p - 1, x) =~= t.insert(p, x));
    }
}

proof fn lemma_insert_desc_len<T>(t: Seq<(usize, T)>, x: (usize, T))
    ensures
        insert_desc(t, x).len() == t.len() + 1,
    decreases t.len(),
{
    if t.len() > 0 && t[0].0 >= x.0 {
        lemma_insert_desc_len(t.drop_first(), x);
    }
}

/// Sorting commutes with a map that keeps the lines.
proof fn lemma_sort_desc_map<A, B>(s: Seq<(usize, A)>, f: spec_fn((usize, A)) -> (usize, B))
    requires
        forall|p: (usize, A)| #[trigger] f(p).0 == p.0,
    ensures
        sort_desc(s.map_values(f)) == sort_desc(s).map_values(f),
    decreases s.len(),
{
    if s.len() > 0 {
        assert(s.map_values(f).drop_last() =~= s.drop_last().map_values(f));
        lemma_sort_desc_map(s.drop_last(), f);
        lemma_insert_desc_map(sort_desc(s.drop_last()), s.last(), f);
    } else {
        assert(sort_desc(s.map_values(f)) =~= sort_desc(s).map_values(f));
    }
}

proof fn lemma_insert_desc_map<A, B>(t: Seq<(usize, A)>, x: (usize, A), f: spec_fn((usize, A)) -> (usize, B))
    requires
        forall|p: (usize, A)| #[trigger] f(p).0 == p.0,
    ensures
        insert_desc(t.map_values(f), f(x)) == insert_desc(t, x).map_values(f),
    decreases t.len(),
{
    let tm = t.map_values(f);
    if t.len() == 0 {
        assert(insert_desc(tm, f(x)) =~= insert_desc(t, x).map_values(f));
    } else {
        assert(tm[0] == f(t[0]));
        assert(f(t[0]).0 == t[0].0);
        assert(f(x).0 == x.0);
        if t[0].0 < x.0 {
            assert(insert_desc(tm, f(x)) =~= insert_desc(t, x).map_values(f));
        } else {
            assert(tm.drop_first() =~= t.drop_first().map_values(f));
            lemma_insert_desc_map(t.drop_first(), x, f);
            assert(insert_desc(tm, f(x)) =~= insert_desc(t, x).map_values(f));
        }
    }
}

/// Stable sort by descending line.
fn sort_by_line_desc<T>(v: Vec<(usize, T)>) -> (out: Vec<(usize, T)>)
    ensures
        out@ == sort_desc(v@),
{
    let ghost all = v@;
    let n = v.len();
    let mut rest = v;
    let mut out: Vec<(usize, T)> = Vec::new();
    let mut k: usize = 0;
    proof {
        assert(all.subrange(0, 0) =~= Seq::<(usize, T)>::empty());
        assert(rest@ =~= all.subrange(0, all.len() as int));
    }
    while rest.len() > 0
        invariant
            n == all.len(),
            k <= all.len(),
            rest@ == all.subrange(k as int, all.len() as int),
            out@ == sort_desc(all.subrange(0, k as int)),
        decreases rest@.len(),
    {
        assert(rest@.len() == all.len() - k);
        let x = rest.remove(0);
        let mut p: usize = 0;
        while p < out.len() && out[p].0 >= x.0
            invariant
                p <= out@.len(),
                forall|i: int| 0 <= i < p ==> out@[i].0 >= x.0,
            decreases out@.len() - p,
        {
            p = p + 1;
        }
        proof {
            lemma_insert_desc_at(out@, x, p as int);
            assert(all.subrange(0, k + 1).drop_last() =~= all.subrange(0, k as int));
            assert(all.subrange(0, k + 1).last() == x);
        }
        out.insert(p, x);
        k = k + 1;
        proof {
            assert(rest@ =~= all.subrange(k as int, all.len() as int));
        }
    }
    proof {
        assert(all.subrange(0, k as int) =~= all);
    }
    out
}

// ---------------------------------------------------------------------------
// Saving
// ---------------------------------------------------------------------------

/// What `vectorize` promises of the outline `o` of a glyph grid.
#[verifier::opaque]
pub open spec fn outline_ok(g: crate::font::GridView, ascent: int, o: (Seq<Contour>, Option<BBox>)) -> bool {
    &&& (forall|c: int, r: int| !#[trigger] g.get(c, r)) <==> o.0.len() == 0
    &&& o.1 is None <==> o.0.len() == 0
    &&& forall|k: int| 0 <= k < o.0.len() ==> crate::grid::contour_ok(#[trigger] o.0[k], ascent, g.width as int, g.height as int)
    &&& crate::grid::total_points(o.0) <= 6 * g.width * g.height
    &&& crate::grid::bbox_of(o.0, o.1)
    &&& forall|b: (usize, usize, usize, usize)|
        crate::app::is_filled_bbox(g, b) ==> o.1 == Some(crate::grid::pixels_bbox(b, ascent))
    &&& crate::grid::winds_like(g, ascent, o.0)
    &&& forall|k: int| 0 <= k < o.0.len() ==> crate::grid::rectilinear(#[trigger] o.0[k])
    &&& forall|k: int| 0 <= k < o.0.len() ==> crate::grid::corners_only(#[trigger] o.0[k])
}

/// `outl` holds an outline, as `vectorize` may give it, for exactly the dirty
/// glyphs that the font has.
pub open spec fn outlines_ok(font: Font, outl: Map<Seq<char>, (Seq<Contour>, Option<BBox>)>) -> bool {
    &&& forall|n: Seq<char>|
        #[trigger] outl.dom().contains(n) <==> (font.dirty@.contains(n) && font.glyphs@.contains_key(n))
    &&& forall|n: Seq<char>|
        #[trigger] outl.dom().contains(n) ==> outline_ok(font.glyphs@[n].pixels@, font.ascent as int, outl[n])
}

/// The TTGlyph replacements (first line, then last line and new lines) and the
/// new glyphs (those without a TTGlyph range) among the first `k` dirty names.
pub open spec fn plan_upto(font: Font, outl: Map<Seq<char>, (Seq<Contour>, Option<BBox>)>, k: int) -> (
    Seq<(usize, (usize, Seq<Seq<char>>))>,
    Seq<Seq<char>>,
)
    decreases k,
{
    if k <= 0 {
        (seq![], seq![])
    } else {
        let (rs, ns) = plan_upto(font, outl, k - 1);
        let n = font.dirty.items@[k - 1]@;
        if !font.glyphs@.contains_key(n) {
            (rs, ns)
        } else if font.glyf_ranges@.contains_key(n) {
            let r = font.glyf_ranges@[n];
            (rs.push((r.start, (r.end, ttglyph_xml(n, outl[n].0, outl[n].1)))), ns)
        } else {
            (rs, ns.push(n))
        }
    }
}

/// The replacements applied in order.
pub open spec fn apply_replacements(lines: Seq<Seq<char>>, rs: Seq<(usize, (usize, Seq<Seq<char>>))>) -> Seq<
    Seq<char>,
>
    decreases rs.len(),
{
    if rs.len() == 0 {
        lines
    } else {
        let r = rs.last();
        replaced(apply_replacements(lines, rs.drop_last()), r.0, r.1.0, r.1.1)
    }
}

/// `<mtx>` line of a new glyph.
pub open spec fn mtx_line(n: Seq<char>, width: i32, lsb: i32) -> Seq<char> {
    "    <mtx name=\""@ + n + "\" width=\""@ + int_seq(width as int) + "\" lsb=\""@ + int_seq(lsb as int) + "\"/>"@
}

/// `<GlyphID>` line of a new glyph.
pub open spec fn glyph_id_line(n: Seq<char>, gid: nat) -> Seq<char> {
    "    <GlyphID id=\""@ + text::dec_seq(gid) + "\" name=\""@ + n + "\"/>"@
}

/// The Unicode name of a code point, empty when it has none.
pub open spec fn code_name(cp: u32) -> Seq<char> {
    if text::scalar(cp) {
        match text::char_name(cp as char) {
            Some(u) => u,
            None => seq![],
        }
    } else {
        seq![]
    }
}

/// `<map>` line of a code point of a new glyph.
pub open spec fn map_line(cp: u32, n: Seq<char>) -> Seq<char> {
    "      <map code=\"0x"@ + text::hex_seq(cp as nat, false, 4) + "\" name=\""@ + n + "\"/><!-- "@
        + code_name(cp) + " -->"@
}

/// The insertions (line before which to insert, lines) for new glyph `n`,
/// whose glyph ID is `gid`, into the sections that the scan `sc` found: each
/// goes before the line that closes its section.
pub open spec fn glyph_insertions(
    font: Font,
    sc: Scan,
    outl: Map<Seq<char>, (Seq<Contour>, Option<BBox>)>,
    n: Seq<char>,
    gid: nat,
) -> Seq<(usize, Seq<Seq<char>>)> {
    let g = font.glyphs@[n];
    (match sc.glyf_end {
        Some(ge) => seq![(ge, ttglyph_xml(n, outl[n].0, outl[n].1))],
        None => seq![],
    }) + (match sc.hmtx_range {
        Some(r) => seq![(r.end, seq![mtx_line(n, g.width, g.lsb)])],
        None => seq![],
    }) + (match sc.glyph_order_range {
        Some(r) => seq![(r.end, seq![glyph_id_line(n, gid)])],
        None => seq![],
    }) + (match sc.cmap4_range {
        Some(r) => if font.cmap_reverse@.contains_key(n) {
            font.cmap_reverse@[n]@.map_values(|cp: u32| (r.end, seq![map_line(cp, n)]))
        } else {
            seq![]
        },
        None => seq![],
    })
}

/// The insertions for the first `k` new glyphs.
pub open spec fn insertions_upto(
    font: Font,
    sc: Scan,
    outl: Map<Seq<char>, (Seq<Contour>, Option<BBox>)>,
    news: Seq<Seq<char>>,
    gid: nat,
    k: int,
) -> Seq<(usize, Seq<Seq<char>>)>
    decreases k,
{
    if k <= 0 {
        seq![]
    } else {
        insertions_upto(font, sc, outl, news, gid, k - 1) + glyph_insertions(font, sc, outl, news[k - 1], gid)
    }
}

/// `block` inserted before the 1-based line `before` (at the start for 0).
pub open spec fn insert_index(before: usize) -> int {
    if before == 0 {
        0
    } else {
        before - 1
    }
}

/// The insertions applied in order; none where an insertion point lies past
/// the end of the lines at its turn.
pub open spec fn apply_insertions(lines: Seq<Seq<char>>, ins: Seq<(usize, Seq<Seq<char>>)>) -> Option<
    Seq<Seq<char>>,
>
    decreases ins.len(),
{
    if ins.len() == 0 {
        Some(lines)
    } else {
        match apply_insertions(lines, ins.drop_last()) {
            None => None,
            Some(l) => {
                let idx = insert_index(ins.last().0);
                if idx > l.len() {
                    None
                } else {
                    Some(l.subrange(0, idx) + ins.last().1 + l.subrange(idx, l.len() as int))
                }
            },
        }
    }
}

/// The lines of the saved file, given the outlines of the dirty glyphs: each
/// dirty glyph with a TTGlyph range gets its range replaced (last range
/// first), then each new glyph gets its TTGlyph, `<mtx>`, `<GlyphID>` and
/// `<map>` lines inserted before the lines that close their sections in the
/// replaced text (`</glyf>`, `</hmtx>`, `</GlyphOrder>`, `</cmap_format_4>`,
/// as a scan of that text finds them; last line first). None where the glyph
/// order is shorter than the list of new glyphs, or an insertion point lies
/// past the end of the lines.
pub open spec fn save_plan(font: Font, outl: Map<Seq<char>, (Seq<Contour>, Option<BBox>)>) -> Option<
    Seq<Seq<char>>,
> {
    let (rs, news) = plan_upto(font, outl, font.dirty.items@.len() as int);
    let lines = apply_replacements(views(font.source_lines@), sort_desc(rs));
    let sc = scan_all(lines);
    if news.len() == 0 {
        Some(lines)
    } else if sc.glyph_order_range is Some && font.glyph_order@.len() < news.len() {
        None
    } else {
        apply_insertions(
            lines,
            sort_desc(insertions_upto(font, sc, outl, news, (font.glyph_order@.len() - news.len()) as nat, news.len() as int)),
        )
    }
}


pub open spec fn repl_view(p: (usize, (usize, Vec<String>))) -> (usize, (usize, Seq<Seq<char>>)) {
    (p.0, (p.1.0, views(p.1.1@)))
}

pub open spec fn ins_view(p: (usize, Vec<String>)) -> (usize, Seq<Seq<char>>) {
    (p.0, views(p.1@))
}

pub open spec fn repl_views(s: Seq<(usize, (usize, Vec<String>))>) -> Seq<(usize, (usize, Seq<Seq<char>>))> {
    s.map_values(|p: (usize, (usize, Vec<String>))| repl_view(p))
}

pub open spec fn ins_views(s: Seq<(usize, Vec<String>)>) -> Seq<(usize, Seq<Seq<char>>)> {
    s.map_values(|p: (usize, Vec<String>)| ins_view(p))
}

proof fn lemma_repl_views_sort(s: Seq<(usize, (usize, Vec<String>))>)
    ensures
        sort_desc(repl_views(s)) == repl_views(sort_desc(s)),
{
    lemma_sort_desc_map(s, |p: (usize, (usize, Vec<String>))| repl_view(p));
}

proof fn lemma_ins_views_sort(s: Seq<(usize, Vec<String>)>)
    ensures
        sort_desc(ins_views(s)) == ins_views(sort_desc(s)),
{
    lemma_sort_desc_map(s, |p: (usize, Vec<String>)| ins_view(p));
}

pub open spec fn new_names(news: Seq<(String, Vec<Contour>, Option<BBox>)>) -> Seq<Seq<char>> {
    news.map_values(|t: (String, Vec<Contour>, Option<BBox>)| t.0@)
}

/// A copy of a list of strings.
fn copy_lines(v: &Vec<String>) -> (out: Vec<String>)
    ensures
        views(out@) == views(v@),
{
    let mut out: Vec<String> = Vec::new();
    let mut i: usize = 0;
    while i < v.len()
        invariant
            i <= v@.len(),
            views(out@) == views(v@).subrange(0, i as int),
        decreases v@.len() - i,
    {
        let ghost o = out@;
        let c = v[i].clone();
        out.push(c);
        proof {
            text::lemma_views_push(o, c);
            assert(views(out@) =~= views(v@).subrange(0, i + 1));
        }
        i = i + 1;
    }
    proof {
        assert(views(v@).subrange(0, v@.len() as int) =~= views(v@));
    }
    out
}

proof fn lemma_plan_frame(
    font: Font,
    o1: Map<Seq<char>, (Seq<Contour>, Option<BBox>)>,
    o2: Map<Seq<char>, (Seq<Contour>, Option<BBox>)>,
    k: int,
)
    requires
        k <= font.dirty.items@.len(),
        forall|j: int| 0 <= j < k ==> o1[#[trigger] font.dirty.items@[j]@] == o2[font.dirty.items@[j]@],
    ensures
        plan_upto(font, o1, k) == plan_upto(font, o2, k),
    decreases k,
{
    if k > 0 {
        lemma_plan_frame(font, o1, o2, k - 1);
        assert(o1[font.dirty.items@[k - 1]@] == o2[font.dirty.items@[k - 1]@]);
    }
}

proof fn lemma_plan_len(font: Font, outl: Map<Seq<char>, (Seq<Contour>, Option<BBox>)>, k: int)
    requires
        font.wf(),
    ensures
        forall|i: int| 0 <= i < plan_upto(font, outl, k).0.len() ==> #[trigger] plan_upto(font, outl, k).0[i].0
            <= plan_upto(font, outl, k).0[i].1.0,
    decreases k,
{
    if k > 0 {
        lemma_plan_len(font, outl, k - 1);
        let n = font.dirty.items@[k - 1]@;
        let prev = plan_upto(font, outl, k - 1).0;
        let cur = plan_upto(font, outl, k).0;
        if font.glyphs@.contains_key(n) && font.glyf_ranges@.contains_key(n) {
            assert(font.glyf_ranges@[n].start <= font.glyf_ranges@[n].end);
            assert forall|i: int| 0 <= i < cur.len() implies #[trigger] cur[i].0 <= cur[i].1.0 by {
                if i < prev.len() {
                    assert(cur[i] == prev[i]);
                }
            }
        } else {
            assert(cur == prev);
        }
    }
}

/// The replacements and the new glyphs (with their outlines) of the dirty
/// glyphs, in the order the glyphs were marked.
fn plan_dirty(font: &Font) -> (res: (
    Vec<(usize, (usize, Vec<String>))>,
    Vec<(String, Vec<Contour>, Option<BBox>)>,
    Ghost<Map<Seq<char>, (Seq<Contour>, Option<BBox>)>>,
))
    requires
        font.wf(),
    ensures
        outlines_ok(*font, res.2@),
        (repl_views(res.0@), new_names(res.1@))
            == plan_upto(*font, res.2@, font.dirty.items@.len() as int),
        forall|i: int| 0 <= i < res.1@.len() ==> res.2@[#[trigger] res.1@[i].0@] == (res.1@[i].1@, res.1@[i].2),
        forall|i: int| 0 <= i < res.1@.len() ==> font.glyphs@.contains_key(#[trigger] res.1@[i].0@),
        forall|i: int| 0 <= i < res.1@.len() ==> res.2@.dom().contains(#[trigger] res.1@[i].0@),
{
    let ghost mut outl: Map<Seq<char>, (Seq<Contour>, Option<BBox>)> = Map::empty();
    let ghost items = font.dirty.items@;
    let mut reps: Vec<(usize, (usize, Vec<String>))> = Vec::new();
    let mut news: Vec<(String, Vec<Contour>, Option<BBox>)> = Vec::new();
    let d = font.dirty.items.len();
    let mut k: usize = 0;
    while k < d
        invariant
            font.wf(),
            items == font.dirty.items@,
            d == items.len(),
            k <= d,
            (repl_views(reps@), new_names(news@))
                == plan_upto(*font, outl, k as int),
            forall|n: Seq<char>|
                #[trigger] outl.dom().contains(n) <==> (exists|j: int| 0 <= j < k && #[trigger] items[j]@ == n)
                    && font.glyphs@.contains_key(n),
            forall|n: Seq<char>|
                #[trigger] outl.dom().contains(n) ==> outline_ok(font.glyphs@[n].pixels@, font.ascent as int, outl[n]),
            forall|i: int| 0 <= i < news@.len() ==> outl[#[trigger] news@[i].0@] == (news@[i].1@, news@[i].2),
            forall|i: int| 0 <= i < news@.len() ==> font.glyphs@.contains_key(#[trigger] news@[i].0@),
            forall|i: int| 0 <= i < news@.len() ==> outl.dom().contains(#[trigger] news@[i].0@),
        decreases d - k,
    {
        let name = &font.dirty.items[k];
        let ghost n = name@;
        let ghost o_before = outl;
        let ghost pr = plan_upto(*font, outl, k as int);
        match font.glyphs.get(name) {
            None => {
                proof {
                    assert forall|m: Seq<char>|
                        #[trigger] outl.dom().contains(m) <==> (exists|j: int| 0 <= j < k + 1 && #[trigger] items[j]@ == m)
                            && font.glyphs@.contains_key(m) by {
                        if exists|j: int| 0 <= j < k + 1 && #[trigger] items[j]@ == m {
                            let j = choose|j: int| 0 <= j < k + 1 && #[trigger] items[j]@ == m;
                            if j < k {
                                assert(exists|j: int| 0 <= j < k && #[trigger] items[j]@ == m);
                            }
                        }
                    }
                }
            },
            Some(g) => {
                let (cs, bb) = crate::grid::vectorize(&g.pixels, font.ascent);
                proof {
                    assert(font.glyphs@.contains_key(n));
                    outl = outl.insert(n, (cs@, bb));
                    assert forall|j: int| 0 <= j < k implies o_before[#[trigger] items[j]@] == outl[items[j]@] by {
                        assert(items[j]@ != n);
                    }
                    lemma_plan_frame(*font, o_before, outl, k as int);
                    assert forall|m: Seq<char>|
                        #[trigger] outl.dom().contains(m) <==> (exists|j: int| 0 <= j < k + 1 && #[trigger] items[j]@ == m)
                            && font.glyphs@.contains_key(m) by {
                        if exists|j: int| 0 <= j < k + 1 && #[trigger] items[j]@ == m {
                            let j = choose|j: int| 0 <= j < k + 1 && #[trigger] items[j]@ == m;
                            if j < k {
                                assert(exists|j: int| 0 <= j < k && #[trigger] items[j]@ == m);
                            }
                        }
                        if m == n {
                            assert(items[k as int]@ == m);
                        }
                    }
                    assert forall|i: int| 0 <= i < news@.len() implies outl[#[trigger] news@[i].0@] == (
                        news@[i].1@,
                        news@[i].2,
                    ) by {
                        assert(o_before.dom().contains(news@[i].0@));
                        let j = choose|j: int| 0 <= j < k && #[trigger] items[j]@ == news@[i].0@;
                        assert(items[j]@ != n);
                    }
                }
                match font.glyf_ranges.get(name) {
                    Some(r) => {
                        let xml = generate_ttglyph_xml(name.as_str(), &cs, bb.as_ref());
                        let ghost rv = repl_views(reps@);
                        reps.push((r.start, (r.end, xml)));
                        proof {
                            assert(repl_views(reps@) =~= rv.push(
                                (r.start, (r.end, ttglyph_xml(n, cs@, bb))),
                            ));
                        }
                    },
                    None => {
                        let ghost nv = new_names(news@);
                        news.push((name.clone(), cs, bb));
                        proof {
                            assert(new_names(news@) =~= nv.push(n));
                        }
                    },
                }
            },
        }
        k = k + 1;
    }
    proof {
        assert forall|m: Seq<char>| #[trigger] outl.dom().contains(m) <==> (font.dirty@.contains(m)
            && font.glyphs@.contains_key(m)) by {
            if font.dirty@.contains(m) {
                let j = choose|j: int| 0 <= j < items.len() && items[j]@ == m;
                assert(items[j]@ == m);
            }
        }
    }
    (reps, news, Ghost(outl))
}


proof fn lemma_insert_desc_all<T>(t: Seq<(usize, T)>, x: (usize, T), pred: spec_fn((usize, T)) -> bool)
    requires
        forall|i: int| 0 <= i < t.len() ==> pred(#[trigger] t[i]),
        pred(x),
    ensures
        forall|i: int| 0 <= i < insert_desc(t, x).len() ==> pred(#[trigger] insert_desc(t, x)[i]),
    decreases t.len(),
{
    if t.len() > 0 && t[0].0 >= x.0 {
        let d = t.drop_first();
        assert forall|i: int| 0 <= i < d.len() implies pred(#[trigger] d[i]) by {
            assert(d[i] == t[i + 1]);
        }
        lemma_insert_desc_all(d, x, pred);
        let r = insert_desc(t, x);
        assert forall|i: int| 0 <= i < r.len() implies pred(#[trigger] r[i]) by {
            if i > 0 {
                assert(r[i] == insert_desc(d, x)[i - 1]);
            }
        }
    } else if t.len() > 0 {
        let r = insert_desc(t, x);
        assert forall|i: int| 0 <= i < r.len() implies pred(#[trigger] r[i]) by {
            if i > 0 {
                assert(r[i] == t[i - 1]);
            }
        }
    }
}

/// Sorting keeps every entry's properties.
proof fn lemma_sort_desc_all<T>(s: Seq<(usize, T)>, pred: spec_fn((usize, T)) -> bool)
    requires
        forall|i: int| 0 <= i < s.len() ==> pred(#[trigger] s[i]),
    ensures
        forall|i: int| 0 <= i < sort_desc(s).len() ==> pred(#[trigger] sort_desc(s)[i]),
    decreases s.len(),
{
    if s.len() > 0 {
        let d = s.drop_last();
        assert forall|i: int| 0 <= i < d.len() implies pred(#[trigger] d[i]) by {
            assert(d[i] == s[i]);
        }
        lemma_sort_desc_all(d, pred);
        lemma_insert_desc_all(sort_desc(d), s.last(), pred);
    }
}

/// Applies the replacements in order.
fn apply_replacements_exec(lines: &mut Vec<String>, rs: &Vec<(usize, (usize, Vec<String>))>)
    requires
        forall|i: int| 0 <= i < rs@.len() ==> #[trigger] rs@[i].0 <= rs@[i].1.0,
    ensures
        views(final(lines)@) == apply_replacements(
            views(old(lines)@),
            repl_views(rs@),
        ),
{
    let ghost start = views(lines@);
    let ghost rv = repl_views(rs@);
    let mut i: usize = 0;
    while i < rs.len()
        invariant
            i <= rs@.len(),
            forall|j: int| 0 <= j < rs@.len() ==> #[trigger] rs@[j].0 <= rs@[j].1.0,
            rv == repl_views(rs@),
            start == views(old(lines)@),
            views(lines@) == apply_replacements(start, rv.subrange(0, i as int)),
        decreases rs@.len() - i,
    {
        let r = &rs[i];
        assert(r.0 <= r.1.0);
        replace_lines(lines, r.0, r.1.0, &r.1.1);
        proof {
            assert(rv.subrange(0, i + 1).drop_last() =~= rv.subrange(0, i as int));
        }
        i = i + 1;
    }
    proof {
        assert(rv.subrange(0, rs@.len() as int) =~= rv);
    }
}

proof fn lemma_apply_insertions_none(lines: Seq<Seq<char>>, ins: Seq<(usize, Seq<Seq<char>>)>, k: int)
    requires
        0 <= k <= ins.len(),
        apply_insertions(lines, ins.subrange(0, k)) is None,
    ensures
        apply_insertions(lines, ins) is None,
    decreases ins.len() - k,
{
    if k < ins.len() {
        assert(ins.subrange(0, k + 1).drop_last() =~= ins.subrange(0, k));
        lemma_apply_insertions_none(lines, ins, k + 1);
    } else {
        assert(ins.subrange(0, k) =~= ins);
    }
}

/// Applies the insertions in order; none where an insertion point lies past
/// the end of the lines at its turn.
fn apply_insertions_exec(lines: Vec<String>, ins: &Vec<(usize, Vec<String>)>) -> (r: Option<Vec<String>>)
    ensures
        match r {
            Some(l) => apply_insertions(views(lines@), ins_views(ins@))
                == Some(views(l@)),
            None => apply_insertions(views(lines@), ins_views(ins@))
                is None,
        },
{
    let ghost start = views(lines@);
    let ghost iv = ins_views(ins@);
    let mut out: Vec<String> = Vec::new();
    let mut c: usize = 0;
    while c < lines.len()
        invariant
            c <= lines@.len(),
            views(out@) == views(lines@).subrange(0, c as int),
        decreases lines@.len() - c,
    {
        let ghost o = out@;
        let x = lines[c].clone();
        out.push(x);
        proof {
            text::lemma_views_push(o, x);
            assert(views(out@) =~= views(lines@).subrange(0, c + 1));
        }
        c = c + 1;
    }
    assert(views(lines@).subrange(0, lines@.len() as int) =~= views(lines@));
    let mut k: usize = 0;
    while k < ins.len()
        invariant
            k <= ins@.len(),
            iv == ins_views(ins@),
            start == views(lines@),
            apply_insertions(start, iv.subrange(0, k as int)) == Some(views(out@)),
        decreases ins@.len() - k,
    {
        proof {
            assert(iv.subrange(0, k + 1).drop_last() =~= iv.subrange(0, k as int));
        }
        let before = ins[k].0;
        let block = &ins[k].1;
        let idx = if before == 0 {
            0
        } else {
            before - 1
        };
        if idx > out.len() {
            proof {
                assert(iv.subrange(0, k + 1).last() == ins_view(ins@[k as int]));
                lemma_apply_insertions_none(start, iv, k + 1);
            }
            return None;
        }
        let ghost l0 = views(out@);
        let mut i: usize = 0;
        while i < block.len()
            invariant
                idx <= l0.len(),
                i <= block@.len(),
                out@.len() == l0.len() + i,
                views(out@) == l0.subrange(0, idx as int) + views(block@).subrange(0, i as int) + l0.subrange(
                    idx as int,
                    l0.len() as int,
                ),
            decreases block@.len() - i,
        {
            let ghost o = out@;
            let c = block[i].clone();
            assert(idx + i <= out.len());
            out.insert(idx + i, c);
            proof {
                text::lemma_views_insert(o, idx + i, c);
                assert(views(out@) =~= l0.subrange(0, idx as int) + views(block@).subrange(0, i + 1)
                    + l0.subrange(idx as int, l0.len() as int));
            }
            i = i + 1;
        }
        proof {
            assert(views(block@).subrange(0, block@.len() as int) =~= views(block@));
        }
        k = k + 1;
    }
    proof {
        assert(iv.subrange(0, ins@.len() as int) =~= iv);
    }
    Some(out)
}

/// The Unicode name of a code point, empty when it has none.
fn code_name_exec(cp: u32) -> (s: Vec<char>)
    ensures
        s@ == code_name(cp),
{
    match text::char_from_u32(cp) {
        Some(c) => {
            proof {
                vstd::utf8::char_u32_cast(c, cp);
            }
            match text::unicode_name(c) {
                Some(n) => text::chars_of(n.as_str()),
                None => Vec::new(),
            }
        },
        None => Vec::new(),
    }
}

/// The insertions for the new glyphs, whose glyph ID is `gid`.
fn new_glyph_insertions(
    font: &Font,
    sc: &Scanner,
    news: &Vec<(String, Vec<Contour>, Option<BBox>)>,
    gid: usize,
    Ghost(outl): Ghost<Map<Seq<char>, (Seq<Contour>, Option<BBox>)>>,
) -> (ins: Vec<(usize, Vec<String>)>)
    requires
        font.wf(),
        forall|i: int| 0 <= i < news@.len() ==> outl[#[trigger] news@[i].0@] == (news@[i].1@, news@[i].2),
        forall|i: int| 0 <= i < news@.len() ==> font.glyphs@.contains_key(#[trigger] news@[i].0@),
        forall|i: int| 0 <= i < news@.len() ==> (#[trigger] news@[i]).1@.len() > 0 ==> news@[i].2 is Some,
    ensures
        ins_views(ins@) == insertions_upto(
            *font,
            sc@,
            outl,
            new_names(news@),
            gid as nat,
            news@.len() as int,
        ),
{
    let mut ins: Vec<(usize, Vec<String>)> = Vec::new();
    let ghost names = new_names(news@);
    let mut i: usize = 0;
    while i < news.len()
        invariant
            font.wf(),
            i <= news@.len(),
            names == new_names(news@),
            forall|i: int| 0 <= i < news@.len() ==> outl[#[trigger] news@[i].0@] == (news@[i].1@, news@[i].2),
            forall|i: int| 0 <= i < news@.len() ==> font.glyphs@.contains_key(#[trigger] news@[i].0@),
            forall|i: int| 0 <= i < news@.len() ==> (#[trigger] news@[i]).1@.len() > 0 ==> news@[i].2 is Some,
            ins_views(ins@) == insertions_upto(
                *font,
                sc@,
                outl,
                names,
                gid as nat,
                i as int,
            ),
        decreases news@.len() - i,
    {
        let name = &news[i].0;
        let cs = &news[i].1;
        let bb = &news[i].2;
        let ghost n = name@;
        let ghost before = ins_views(ins@);
        assert(names[i as int] == n);
        assert(font.glyphs@.contains_key(n));
        assert(cs@.len() > 0 ==> bb is Some);
        let mut mine: Vec<(usize, Vec<String>)> = Vec::new();
        // Insert TTGlyph before </glyf>
        match sc.glyf_end {
            Some(glyf_end) => {
                mine.push((glyf_end, generate_ttglyph_xml(name.as_str(), cs, bb.as_ref())));
            },
            None => {},
        }
        let ghost m1 = ins_views(mine@);
        // Insert <mtx> before </hmtx>
        match sc.hmtx_range {
            Some(r) => {
                match font.glyphs.get(name) {
                    Some(g) => {
                        let mut l = text::lit("    <mtx name=\"");
                        text::append(&mut l, &text::chars_of(name.as_str()));
                        text::append(&mut l, &text::lit("\" width=\""));
                        text::append(&mut l, &text::dec_signed(g.width as i64));
                        text::append(&mut l, &text::lit("\" lsb=\""));
                        text::append(&mut l, &text::dec_signed(g.lsb as i64));
                        text::append(&mut l, &text::lit("\"/>"));
                        let mut v: Vec<String> = Vec::new();
                        v.push(text::string_of(&l));
                        mine.push((r.end, v));
                        proof {
                            assert(views(v@) =~= seq![mtx_line(n, font.glyphs@[n].width, font.glyphs@[n].lsb)]);
                        }
                    },
                    None => {},
                }
            },
            None => {},
        }
        let ghost m2 = ins_views(mine@);
        // Insert <GlyphID> before </GlyphOrder>
        match sc.glyph_order_range {
            Some(r) => {
                let mut l = text::lit("    <GlyphID id=\"");
                text::append(&mut l, &text::dec(gid as u64));
                text::append(&mut l, &text::lit("\" name=\""));
                text::append(&mut l, &text::chars_of(name.as_str()));
                text::append(&mut l, &text::lit("\"/>"));
                let mut v: Vec<String> = Vec::new();
                v.push(text::string_of(&l));
                mine.push((r.end, v));
                proof {
                    assert(views(v@) =~= seq![glyph_id_line(n, gid as nat)]);
                }
            },
            None => {},
        }
        let ghost m3 = ins_views(mine@);
        // Insert <map> into cmap_format_4
        let ghost mut cm: Seq<(usize, Seq<Seq<char>>)> = seq![];
        match sc.cmap4_range {
            Some(r) => {
                match font.cmap_reverse.get(name) {
                    Some(cps) => {
                        let mut j: usize = 0;
                        while j < cps.len()
                            invariant
                                n == name@,
                                j <= cps@.len(),
                                ins_views(mine@) == m3 + cps@.subrange(
                                    0,
                                    j as int,
                                ).map_values(|cp: u32| (r.end, seq![map_line(cp, n)])),
                            decreases cps@.len() - j,
                        {
                            let cp = cps[j];
                            let mut l = text::lit("      <map code=\"0x");
                            text::append(&mut l, &text::hex(cp as u64, false, 4));
                            assert(l@ == "      <map code=\"0x"@ + text::hex_seq(cp as nat, false, 4));
                            text::append(&mut l, &text::lit("\" name=\""));
                            text::append(&mut l, &text::chars_of(name.as_str()));
                            assert(l@ == "      <map code=\"0x"@ + text::hex_seq(cp as nat, false, 4) + "\" name=\""@ + n);
                            text::append(&mut l, &text::lit("\"/><!-- "));
                            text::append(&mut l, &code_name_exec(cp));
                            text::append(&mut l, &text::lit(" -->"));
                            let mut v: Vec<String> = Vec::new();
                            v.push(text::string_of(&l));
                            let ghost mb = ins_views(mine@);
                            mine.push((r.end, v));
                            proof {
                                assert(l@ == map_line(cp, n));
                                assert(views(v@) =~= seq![map_line(cp, n)]);
                                assert(ins_views(mine@) =~= mb.push(
                                    (r.end, seq![map_line(cp, n)]),
                                ));
                                assert(cps@.subrange(0, j + 1).map_values(|cp: u32| (r.end, seq![map_line(cp, n)]))
                                    =~= cps@.subrange(0, j as int).map_values(
                                    |cp: u32| (r.end, seq![map_line(cp, n)]),
                                ).push((r.end, seq![map_line(cp, n)])));
                            }
                            j = j + 1;
                        }
                        proof {
                            assert(cps@.subrange(0, cps@.len() as int) =~= cps@);
                        }
                    },
                    None => {},
                }
            },
            None => {},
        }
        proof {
            assert(ins_views(mine@) =~= glyph_insertions(
                *font,
                sc@,
                outl,
                n,
                gid as nat,
            ));
        }
        let mut k: usize = 0;
        let ghost mv = ins_views(mine@);
        while k < mine.len()
            invariant
                k <= mine@.len(),
                mv == ins_views(mine@),
                ins_views(ins@) == before + mv.subrange(0, k as int),
            decreases mine@.len() - k,
        {
            let e = (mine[k].0, copy_lines(&mine[k].1));
            let ghost ib = ins_views(ins@);
            ins.push(e);
            proof {
                assert(ins_views(ins@) =~= ib.push(ins_view(e)));
                assert(before + mv.subrange(0, k + 1) =~= (before + mv.subrange(0, k as int)).push(mv[k as int]));
            }
            k = k + 1;
        }
        proof {
            assert(mv.subrange(0, mine@.len() as int) =~= mv);
        }
        i = i + 1;
    }
    ins
}


/// The lines of the saved TTX file: only modified glyphs are rewritten and
/// everything else is kept verbatim; new glyphs are inserted at the end of
/// each relevant section. The outlines come from `vectorize`, so the contract
/// holds for some outlines that `vectorize` may give. None where the glyph
/// order is shorter than the list of new glyphs, or an insertion point lies
/// past the end of the file after the replacements.
pub fn save_lines(font: &Font) -> (r: Option<Vec<String>>)
    requires
        font.wf(),
    ensures
        exists|outl: Map<Seq<char>, (Seq<Contour>, Option<BBox>)>|
            #![trigger save_plan(*font, outl)]
            outlines_ok(*font, outl) && match r {
                Some(v) => save_plan(*font, outl) == Some(views(v@)),
                None => save_plan(*font, outl) is None,
            },
{
    let (reps, news, Ghost(outl)) = plan_dirty(font);
    let ghost plan = plan_upto(*font, outl, font.dirty.items@.len() as int);
    proof {
        lemma_plan_len(*font, outl, font.dirty.items@.len() as int);
        assert forall|i: int| 0 <= i < reps@.len() implies #[trigger] reps@[i].0 <= reps@[i].1.0 by {
            assert(plan.0 == repl_views(reps@));
            assert(plan.0[i] == repl_view(reps@[i]));
            assert(plan.0[i].0 <= plan.0[i].1.0);
        }
    }
    // Sort by start line descending — process bottom-to-top so line shifts
    // from earlier replacements don't affect later ones
    let ghost unsorted = reps@;
    let sorted = sort_by_line_desc(reps);
    proof {
        lemma_sort_desc_all(unsorted, |p: (usize, (usize, Vec<String>))| p.0 <= p.1.0);
        lemma_repl_views_sort(unsorted);
    }
    let mut lines = copy_lines(&font.source_lines);
    apply_replacements_exec(&mut lines, &sorted);
    proof {
        assert(views(lines@) == apply_replacements(views(font.source_lines@), sort_desc(plan.0)));
    }
    // The sections are found again in the replaced lines, so that new glyphs
    // go at their ends even where replacements changed the line count.
    let sc = scan_lines(&lines);
    if news.len() == 0 {
        proof {
            assert(outlines_ok(*font, outl) && save_plan(*font, outl) == Some(views(lines@)));
        }
        return Some(lines);
    }
    if sc.glyph_order_range.is_some() && font.glyph_order.len() < news.len() {
        proof {
            assert(outlines_ok(*font, outl) && save_plan(*font, outl) is None);
        }
        return None;
    }
    // Insert new glyphs at the end of each relevant section, bottom-to-top.
    let gid: usize = if font.glyph_order.len() >= news.len() {
        font.glyph_order.len() - news.len()
    } else {
        0
    };
    proof {
        assert forall|i: int| 0 <= i < news@.len() && (#[trigger] news@[i]).1@.len() > 0 implies news@[i].2
            is Some by {
            assert(font.glyphs@.contains_key(news@[i].0@));
            assert(new_names(news@)[i] == news@[i].0@);
            assert(outline_ok(font.glyphs@[news@[i].0@].pixels@, font.ascent as int, outl[news@[i].0@]));
            reveal(outline_ok);
        }
    }
    let ins = new_glyph_insertions(font, &sc, &news, gid, Ghost(outl));
    proof {
        let gs = (font.glyph_order@.len() - news@.len()) as nat;
        if sc@.glyph_order_range is None {
            assert forall|k: int| 0 <= k <= news@.len() implies insertions_upto(*font, sc@, outl, new_names(news@), gid as nat, k)
                == insertions_upto(*font, sc@, outl, new_names(news@), gs, k) by {
                lemma_insertions_gid(*font, sc@, outl, new_names(news@), gid as nat, gs, k);
            }
        }
    }
    let ghost unsorted_ins = ins@;
    let sorted_ins = sort_by_line_desc(ins);
    proof {
        lemma_ins_views_sort(unsorted_ins);
    }
    let r = apply_insertions_exec(lines, &sorted_ins);
    proof {
        assert(outlines_ok(*font, outl));
        assert(save_plan(*font, outl) == apply_insertions(
            views(lines@),
            sort_desc(insertions_upto(*font, sc@, outl, new_names(news@), (font.glyph_order@.len() - news@.len()) as nat, news@.len() as int)),
        ));
    }
    r
}

proof fn lemma_insertions_gid(
    font: Font,
    sc: Scan,
    outl: Map<Seq<char>, (Seq<Contour>, Option<BBox>)>,
    news: Seq<Seq<char>>,
    g1: nat,
    g2: nat,
    k: int,
)
    requires
        sc.glyph_order_range is None,
    ensures
        insertions_upto(font, sc, outl, news, g1, k) == insertions_upto(font, sc, outl, news, g2, k),
    decreases k,
{
    if k > 0 {
        lemma_insertions_gid(font, sc, outl, news, g1, g2, k - 1);
    }
}

/// The text of a file made of `lines`: the lines joined with `\n`, and a
/// trailing newline.
pub fn file_text(lines: &Vec<String>) -> (s: String)
    ensures
        s@ == text::joined(views(lines@)) + seq!['\n'],
{
    let mut out = text::join_lines(lines);
    out.push('\n');
    text::string_of(&out)
}

/// After the file was written: the written lines become the baseline and the
/// line ranges are rescanned, so a later save works on them.
pub fn finish_save(font: &mut Font, lines: Vec<String>)
    requires
        old(font).wf(),
    ensures
        final(font).wf(),
        final(font).source_lines == lines,
        final(font).glyf_ranges@ == scan_all(views(lines@)).glyf,
        final(font).glyph_order_range == scan_all(views(lines@)).glyph_order_range,
        final(font).hmtx_range == scan_all(views(lines@)).hmtx_range,
        final(font).glyf_section_end == scan_all(views(lines@)).glyf_end,
        final(font).cmap_format4_range == scan_all(views(lines@)).cmap4_range,
        final(font).gsub_lookup5_range == scan_all(views(lines@)).lookup5_range,
        final(font).glyph_order == old(font).glyph_order,
        final(font).glyphs == old(font).glyphs,
        final(font).cmap == old(font).cmap,
        final(font).cmap_reverse == old(font).cmap_reverse,
        final(font).hmtx == old(font).hmtx,
        final(font).ligatures == old(font).ligatures,
        final(font).units_per_em == old(font).units_per_em,
        final(font).ascent == old(font).ascent,
        final(font).descent == old(font).descent,
        final(font).dirty == old(font).dirty,
        final(font).preprocessor_lines == old(font).preprocessor_lines,
{
    font.source_lines = lines;
    rescan_line_ranges(font);
}


// ---------------------------------------------------------------------------
// Laws of saving
// ---------------------------------------------------------------------------

proof fn lemma_first_insertion(
    font: Font,
    sc: Scan,
    outl: Map<Seq<char>, (Seq<Contour>, Option<BBox>)>,
    n: Seq<char>,
    gid: nat,
)
    requires
        sc.glyf_end is Some,
    ensures
        glyph_insertions(font, sc, outl, n, gid).len() >= 1,
        glyph_insertions(font, sc, outl, n, gid)[0] == (sc.glyf_end->0, ttglyph_xml(n, outl[n].0, outl[n].1)),
{
    let ins = glyph_insertions(font, sc, outl, n, gid);
    let first: Seq<(usize, Seq<Seq<char>>)> = seq![(sc.glyf_end->0, ttglyph_xml(n, outl[n].0, outl[n].1))];
    let g = font.glyphs@[n];
    let tail = (match sc.hmtx_range {
        Some(r) => seq![(r.end, seq![mtx_line(n, g.width, g.lsb)])],
        None => seq![],
    }) + (match sc.glyph_order_range {
        Some(r) => seq![(r.end, seq![glyph_id_line(n, gid)])],
        None => seq![],
    }) + (match sc.cmap4_range {
        Some(r) => if font.cmap_reverse@.contains_key(n) {
            font.cmap_reverse@[n]@.map_values(|cp: u32| (r.end, seq![map_line(cp, n)]))
        } else {
            seq![]
        },
        None => seq![],
    });
    assert(ins == first + tail);
    assert((first + tail)[0] == first[0]);
}

proof fn lemma_filled_outline_has_contours(px: crate::font::GridView, ascent: int, o: (Seq<Contour>, Option<BBox>))
    requires
        outline_ok(px, ascent, o),
        exists|c: int, r: int| #[trigger] px.get(c, r),
    ensures
        o.0.len() > 0,
{
    reveal(outline_ok);
}

proof fn lemma_ttglyph_block(n: Seq<char>, cs: Seq<Contour>, bb: Option<BBox>)
    requires
        cs.len() > 0,
    ensures
        ttglyph_xml(n, cs, bb).len() > 1,
{
}

/// A new glyph (one without a TTGlyph range yet) is saved with its outline:
/// the block inserted before `</glyf>` is the TTGlyph XML of an outline that
/// winds around exactly the glyph's filled pixels, so a glyph with a filled
/// pixel never gets the one-line empty TTGlyph.
pub proof fn law_new_glyph_saved_with_outline(
    font: Font,
    sc: Scan,
    outl: Map<Seq<char>, (Seq<Contour>, Option<BBox>)>,
    n: Seq<char>,
    gid: nat,
)
    requires
        outlines_ok(font, outl),
        font.dirty@.contains(n),
        font.glyphs@.contains_key(n),
        sc.glyf_end is Some,
    ensures
        ({
            let ins = glyph_insertions(font, sc, outl, n, gid);
            let px = font.glyphs@[n].pixels@;
            &&& ins.len() >= 1
            &&& ins[0].0 == sc.glyf_end->0
            &&& exists|o: (Seq<Contour>, Option<BBox>)|
                outline_ok(px, font.ascent as int, o) && #[trigger] ttglyph_xml(n, o.0, o.1) == ins[0].1
            &&& (exists|c: int, r: int| #[trigger] px.get(c, r)) ==> ins[0].1.len() > 1
        }),
{
    let px = font.glyphs@[n].pixels@;
    let o = outl[n];
    assert(outl.dom().contains(n));
    assert(outline_ok(px, font.ascent as int, o));
    lemma_first_insertion(font, sc, outl, n, gid);
    let ins = glyph_insertions(font, sc, outl, n, gid);
    assert(outline_ok(px, font.ascent as int, o) && ttglyph_xml(n, o.0, o.1) == ins[0].1);
    if exists|c: int, r: int| #[trigger] px.get(c, r) {
        lemma_filled_outline_has_contours(px, font.ascent as int, o);
        lemma_ttglyph_block(n, o.0, o.1);
    }
}

/// Saving a font without modified glyphs writes its source lines back
/// unchanged.
pub proof fn law_save_unmodified(font: Font, outl: Map<Seq<char>, (Seq<Contour>, Option<BBox>)>)
    requires
        font.dirty.items@.len() == 0,
    ensures
        save_plan(font, outl) == Some(views(font.source_lines@)),
{
    assert(plan_upto(font, outl, 0) == (Seq::<(usize, (usize, Seq<Seq<char>>))>::empty(), Seq::<Seq<char>>::empty()));
    assert(sort_desc(Seq::<(usize, (usize, Seq<Seq<char>>))>::empty()) =~= Seq::<(usize, (usize, Seq<Seq<char>>))>::empty());
}

/// Only modified glyphs are rewritten: the lines before the first replaced
/// TTGlyph range stay as they were, when there are no new glyphs to insert.
pub proof fn law_save_keeps_lines_before_edits(
    font: Font,
    outl: Map<Seq<char>, (Seq<Contour>, Option<BBox>)>,
    k: int,
)
    requires
        font.wf(),
        plan_upto(font, outl, font.dirty.items@.len() as int).1.len() == 0,
        0 <= k <= font.source_lines@.len(),
        forall|i: int|
            0 <= i < plan_upto(font, outl, font.dirty.items@.len() as int).0.len() ==> k
                < #[trigger] plan_upto(font, outl, font.dirty.items@.len() as int).0[i].0,
    ensures
        save_plan(font, outl) matches Some(lines) && lines.subrange(0, k) == views(font.source_lines@).subrange(0, k),
{
    let rs = plan_upto(font, outl, font.dirty.items@.len() as int).0;
    lemma_sort_desc_all(rs, |p: (usize, (usize, Seq<Seq<char>>))| k < p.0);
    lemma_apply_keeps_prefix(views(font.source_lines@), sort_desc(rs), k, sort_desc(rs).len() as int);
    assert(sort_desc(rs).subrange(0, sort_desc(rs).len() as int) =~= sort_desc(rs));
}

proof fn lemma_apply_keeps_prefix(
    lines: Seq<Seq<char>>,
    rs: Seq<(usize, (usize, Seq<Seq<char>>))>,
    k: int,
    m: int,
)
    requires
        0 <= k <= lines.len(),
        0 <= m <= rs.len(),
        forall|i: int| 0 <= i < rs.len() ==> k < #[trigger] rs[i].0,
    ensures
        apply_replacements(lines, rs.subrange(0, m)).len() >= k,
        apply_replacements(lines, rs.subrange(0, m)).subrange(0, k) == lines.subrange(0, k),
    decreases m,
{
    if m > 0 {
        lemma_apply_keeps_prefix(lines, rs, k, m - 1);
        assert(rs.subrange(0, m).drop_last() =~= rs.subrange(0, m - 1));
        let prev = apply_replacements(lines, rs.subrange(0, m - 1));
        let r = rs[m - 1];
        assert(rs.subrange(0, m).last() == r);
        let next = replaced(prev, r.0, r.1.0, r.1.1);
        assert(next.subrange(0, k) =~= prev.subrange(0, k));
    } else {
        assert(rs.subrange(0, 0) =~= Seq::<(usize, (usize, Seq<Seq<char>>))>::empty());
    }
}

} // verus!
