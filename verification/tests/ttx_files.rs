use fsexedit::font::Font;
use fsexedit::ttx::parse::{
    build_font, build_line_offsets, get_attr, offset_to_line, parse_hex_or_dec, parse_ttx_text, ParseError, Tag,
    XmlItem,
};
use fsexedit::ttx::write::{
    extract_ttglyph_name, file_text, finish_save, generate_ttglyph_xml, replace_lines, rescan_line_ranges,
    save_lines,
};
use fsexedit::font::{BBox, Contour, LineRange, Point};

const SAMPLE: &str = r#"<?xml version="1.0" encoding="UTF-8"?>
<ttFont sfntVersion="\x00\x01\x00\x00" ttLibVersion="4.0">

  <GlyphOrder>
    <GlyphID id="0" name=".notdef"/>
    <GlyphID id="1" name="space"/>
    <GlyphID id="2" name="A"/>
    <GlyphID id="3" name="hyphen_greater.liga"/>
  </GlyphOrder>

  <head>
    <unitsPerEm value="160"/>
  </head>

  <hhea>
    <ascent value="130"/>
    <descent value="-30"/>
  </hhea>

  <hmtx>
    <mtx name=".notdef" width="80" lsb="0"/>
    <mtx name="A" width="80" lsb="10"/>
    <mtx name="space" width="80" lsb="0"/>
  </hmtx>

  <cmap>
    <cmap_format_4 platformID="3" platEncID="1" language="0">
      <map code="0x20" name="space"/><!-- SPACE -->
      <map code="0x41" name="A"/><!-- LATIN CAPITAL LETTER A -->
    </cmap_format_4>
  </cmap>

  <glyf>
    <TTGlyph name=".notdef"/><!-- contains no outline data -->
#ifdef EXTRA
    <TTGlyph name="A" xMin="30" yMin="70" xMax="40" yMax="80">
      <contour>
        <pt x="30" y="80" on="1"/>
        <pt x="40" y="80" on="1"/>
        <pt x="40" y="70" on="1"/>
        <pt x="30" y="70" on="1"/>
      </contour>
      <instructions><assembly>
        </assembly></instructions>
    </TTGlyph>
    <TTGlyph name="space"/><!-- contains no outline data -->
  </glyf>

  <GSUB>
    <LookupList>
      <Lookup index="5">
        <LigatureSubst index="0">
          <LigatureSet glyph="hyphen">
            <Ligature components="greater" glyph="hyphen_greater.liga"/>
          </LigatureSet>
        </LigatureSubst>
      </Lookup>
    </LookupList>
  </GSUB>

</ttFont>
"#;

fn sample_font() -> Font {
    match parse_ttx_text(SAMPLE) {
        Ok(f) => f,
        Err(e) => panic!("sample did not parse: {:?}", e),
    }
}

#[test]
fn parse_reads_every_table() {
    let font = sample_font();
    let order: Vec<&str> = font.glyph_order.iter().map(|s| s.as_str()).collect();
    assert_eq!(order, vec![".notdef", "space", "A", "hyphen_greater.liga"]);
    assert_eq!(font.units_per_em, 160);
    assert_eq!(font.ascent, 130);
    assert_eq!(font.descent, -30);
    assert_eq!(font.grid_height(), 16);
    assert_eq!(font.grid_width(80), 8);
    assert_eq!(font.glyphs.len(), 3);
    assert_eq!(font.cmap.len(), 2);
    assert_eq!(font.glyph_for_codepoint(0x41), Some("A"));
    assert_eq!(font.glyph_for_codepoint(0x42), None);
    assert_eq!(font.unicode_glyph_names(), vec!["space", "A"]);
    assert_eq!(font.ligatures.len(), 1);
    assert_eq!(font.ligatures[0].first_glyph, "hyphen");
    assert_eq!(font.ligatures[0].components, vec!["greater".to_string()]);
    assert_eq!(font.ligatures[0].result_glyph, "hyphen_greater.liga");
    // The directive line is kept, numbered from 1.
    assert_eq!(font.preprocessor_lines.len(), 1);
    assert_eq!(font.preprocessor_lines[0].line_number, 35);
    assert_eq!(font.preprocessor_lines[0].content, "#ifdef EXTRA");
}

#[test]
fn parse_rasterizes_glyphs_and_records_ranges() {
    let font = sample_font();
    let a = font.glyphs.get(&"A".to_string()).unwrap();
    assert_eq!((a.pixels.width, a.pixels.height), (8, 16));
    assert_eq!(a.width, 80);
    assert_eq!(a.lsb, 10);
    assert!(a.pixels.get(3, 5));
    let filled = (0..16).flat_map(|r| (0..8).map(move |c| (c, r))).filter(|&(c, r)| a.pixels.get(c, r)).count();
    assert_eq!(filled, 1);
    let b = a.bbox.unwrap();
    assert_eq!((b.x_min, b.y_min, b.x_max, b.y_max), (30, 70, 40, 80));
    assert_eq!(font.glyf_ranges.get(&"A".to_string()), Some(&LineRange { start: 36, end: 45 }));
    assert_eq!(font.glyf_ranges.get(&".notdef".to_string()), Some(&LineRange { start: 34, end: 34 }));
    assert_eq!(font.glyf_ranges.get(&"space".to_string()), Some(&LineRange { start: 46, end: 46 }));
    assert_eq!(font.glyph_order_range, Some(LineRange { start: 4, end: 9 }));
    assert_eq!(font.hmtx_range, Some(LineRange { start: 20, end: 24 }));
    assert_eq!(font.cmap_format4_range, Some(LineRange { start: 27, end: 30 }));
    assert_eq!(font.glyf_section_end, Some(47));
    assert_eq!(font.gsub_lookup5_range, Some(LineRange { start: 51, end: 57 }));
    let space = font.glyphs.get(&"space".to_string()).unwrap();
    assert!(space.contours.is_empty());
    assert!(space.bbox.is_none());
}

#[test]
fn parse_refuses_a_glyph_too_wide_for_font_units() {
    let text = "<ttFont><hmtx><mtx name=\"w\" width=\"-10\" lsb=\"0\"/></hmtx><glyf><TTGlyph name=\"w\"/></glyf></ttFont>";
    match parse_ttx_text(text) {
        Err(e) => assert_eq!(e, ParseError::GridTooLarge),
        Ok(_) => panic!("a negative advance width wraps to a huge grid"),
    }
}

#[test]
fn saving_an_unchanged_font_gives_the_file_back() {
    let font = sample_font();
    let lines = save_lines(&font).unwrap();
    let text = file_text(&lines);
    assert_eq!(text, SAMPLE);
}

#[test]
fn saving_an_edited_glyph_rewrites_only_its_range() {
    let mut font = sample_font();
    let i = font.glyphs.index_of(&"A".to_string()).unwrap();
    let mut pixels = font.glyphs.entries[i].1.pixels.duplicate();
    pixels.set(3, 5, false);
    pixels.set(0, 0, true);
    font.set_glyph_pixels(i, pixels);
    font.dirty.insert("A".to_string());
    let lines = save_lines(&font).unwrap();
    let before: Vec<&str> = SAMPLE.lines().collect();
    assert_eq!(lines.len(), before.len());
    assert_eq!(&lines[..35], &before[..35].iter().map(|s| s.to_string()).collect::<Vec<_>>()[..]);
    assert_eq!(lines[35], "    <TTGlyph name=\"A\" xMin=\"0\" yMin=\"120\" xMax=\"10\" yMax=\"130\">");
    assert_eq!(lines[36], "      <contour>");
    assert_eq!(lines[41], "      </contour>");
    assert_eq!(lines[44], "    </TTGlyph>");
    assert_eq!(&lines[45..], &before[45..].iter().map(|s| s.to_string()).collect::<Vec<_>>()[..]);
    // After the write the ranges are rescanned on the new lines.
    finish_save(&mut font, lines);
    assert_eq!(font.glyf_ranges.get(&"A".to_string()), Some(&LineRange { start: 36, end: 45 }));
}

#[test]
fn saving_a_new_glyph_inserts_it_in_every_section() {
    let mut font = sample_font();
    let mut app = fsexedit::app::App::new(font, "sample.ttx".to_string());
    app.open_search(fsexedit::app::SearchTarget::Glyph);
    app.search_input = "U+0042".to_string();
    app.update_search();
    assert_eq!(app.search_results, vec!["+ Create glyph U+0042 \"B\" LATIN CAPITAL LETTER B".to_string()]);
    assert_eq!(app.search_result_names, vec!["__create__:66".to_string()]);
    app.select_search_result();
    assert_eq!(app.current_glyph_name(), Some("uni0042"));
    font = app.font;
    let lines = save_lines(&font).unwrap();
    let text = file_text(&lines);
    assert!(text.contains("    <GlyphID id=\"4\" name=\"uni0042\"/>\n  </GlyphOrder>"));
    assert!(text.contains("    <mtx name=\"uni0042\" width=\"80\" lsb=\"0\"/>\n  </hmtx>"));
    assert!(text.contains("      <map code=\"0x0042\" name=\"uni0042\"/><!-- LATIN CAPITAL LETTER B -->\n    </cmap_format_4>"));
    assert!(text.contains("    <TTGlyph name=\"uni0042\"/><!-- contains no outline data -->\n  </glyf>"));
    assert_eq!(lines.len(), SAMPLE.lines().count() + 4);
}

#[test]
fn ttglyph_xml_of_an_empty_glyph_is_one_line() {
    let lines = generate_ttglyph_xml("space", &Vec::new(), None);
    assert_eq!(lines, vec!["    <TTGlyph name=\"space\"/><!-- contains no outline data -->".to_string()]);
}

#[test]
fn ttglyph_xml_lists_the_points() {
    let contour = Contour { points: vec![Point { x: 0, y: 10 }, Point { x: -5, y: 0 }, Point { x: 5, y: 0 }] };
    let bbox = BBox { x_min: -5, y_min: 0, x_max: 5, y_max: 10 };
    let lines = generate_ttglyph_xml("t", &vec![contour], Some(&bbox));
    assert_eq!(
        lines,
        vec![
            "    <TTGlyph name=\"t\" xMin=\"-5\" yMin=\"0\" xMax=\"5\" yMax=\"10\">",
            "      <contour>",
            "        <pt x=\"0\" y=\"10\" on=\"1\"/>",
            "        <pt x=\"-5\" y=\"0\" on=\"1\"/>",
            "        <pt x=\"5\" y=\"0\" on=\"1\"/>",
            "      </contour>",
            "      <instructions><assembly>",
            "        </assembly></instructions>",
            "    </TTGlyph>",
        ]
        .into_iter()
        .map(|s| s.to_string())
        .collect::<Vec<_>>()
    );
}

#[test]
fn replace_lines_splices_a_range() {
    let mut lines: Vec<String> = vec!["a", "b", "c", "d"].into_iter().map(String::from).collect();
    replace_lines(&mut lines, 2, 3, &vec!["x".to_string(), "y".to_string(), "z".to_string()]);
    assert_eq!(lines, vec!["a", "x", "y", "z", "d"]);
    // A range past the end is cut at the end.
    replace_lines(&mut lines, 5, 9, &vec!["e".to_string()]);
    assert_eq!(lines, vec!["a", "x", "y", "z", "e"]);
    // Empty or out-of-file ranges change nothing.
    replace_lines(&mut lines, 0, 2, &vec!["q".to_string()]);
    replace_lines(&mut lines, 9, 9, &vec!["q".to_string()]);
    assert_eq!(lines, vec!["a", "x", "y", "z", "e"]);
}

#[test]
fn extract_ttglyph_name_reads_the_name_attribute() {
    assert_eq!(extract_ttglyph_name("<TTGlyph name=\"A\" xMin=\"0\">"), Some("A".to_string()));
    assert_eq!(extract_ttglyph_name("<TTGlyph name=\"unterminated"), None);
    assert_eq!(extract_ttglyph_name("<TTGlyph/>"), None);
}

#[test]
fn rescan_finds_the_same_ranges_as_the_parse() {
    let font = sample_font();
    let mut again = sample_font();
    again.glyf_ranges.clear();
    again.hmtx_range = None;
    rescan_line_ranges(&mut again);
    for (name, r) in font.glyf_ranges.entries.iter() {
        assert_eq!(again.glyf_ranges.get(name), Some(r), "range of {name}");
    }
    assert_eq!(again.glyf_ranges.len(), font.glyf_ranges.len());
    assert_eq!(again.glyph_order_range, font.glyph_order_range);
    assert_eq!(again.hmtx_range, font.hmtx_range);
    assert_eq!(again.cmap_format4_range, font.cmap_format4_range);
    assert_eq!(again.glyf_section_end, font.glyf_section_end);
    assert_eq!(again.gsub_lookup5_range, font.gsub_lookup5_range);
}

#[test]
fn line_offsets_and_lines() {
    let offsets = build_line_offsets("ab\ncd\n\ne");
    assert_eq!(offsets, vec![0, 3, 6, 7]);
    assert_eq!(offset_to_line(&offsets, 0), 1);
    assert_eq!(offset_to_line(&offsets, 2), 1);
    assert_eq!(offset_to_line(&offsets, 3), 2);
    assert_eq!(offset_to_line(&offsets, 6), 3);
    assert_eq!(offset_to_line(&offsets, 100), 4);
}

#[test]
fn hex_or_decimal_codes() {
    assert_eq!(parse_hex_or_dec("0x41"), Some(65));
    assert_eq!(parse_hex_or_dec("0X1F600"), Some(0x1F600));
    assert_eq!(parse_hex_or_dec("65"), Some(65));
    assert_eq!(parse_hex_or_dec("0xZZ"), None);
    assert_eq!(parse_hex_or_dec(""), None);
}

#[test]
fn attributes_skip_unreadable_ones() {
    let attrs = vec![None, Some(("name".to_string(), "A".to_string())), Some(("name".to_string(), "B".to_string()))];
    assert_eq!(get_attr(&attrs, "name"), Some("A".to_string()));
    assert_eq!(get_attr(&attrs, "width"), None);
}

fn tag(name: &str, attrs: &[(&str, &str)]) -> Tag {
    Tag {
        name: name.to_string(),
        attrs: attrs.iter().map(|(k, v)| Some((k.to_string(), v.to_string()))).collect(),
    }
}

#[test]
fn a_glyph_closed_before_it_opens_is_refused() {
    let offsets = vec![0, 5, 15];
    let items = vec![
        (0, XmlItem::Start(tag("glyf", &[]))),
        (20, XmlItem::Start(tag("TTGlyph", &[("name", "A")]))),
        (1, XmlItem::End("TTGlyph".to_string())),
    ];
    match build_font(&items, &offsets) {
        Ok(_) => panic!("a glyph whose range ends before it starts was accepted"),
        Err(e) => assert_eq!(e, ParseError::BadRanges),
    }
    let ordered = vec![
        (0, XmlItem::Start(tag("glyf", &[]))),
        (1, XmlItem::Start(tag("TTGlyph", &[("name", "A")]))),
        (20, XmlItem::End("TTGlyph".to_string())),
    ];
    let font = build_font(&ordered, &offsets).unwrap();
    let range = font.glyf_ranges.get(&"A".to_string()).unwrap();
    assert_eq!((range.start, range.end), (1, 3));
}

#[test]
fn a_new_glyph_goes_after_a_grown_glyph_at_the_end_of_glyf() {
    let font = sample_font();
    let mut app = fsexedit::app::App::new(font, "sample.ttx".to_string());
    app.open_search(fsexedit::app::SearchTarget::Glyph);
    app.search_input = "U+0042".to_string();
    app.update_search();
    app.select_search_result();
    let mut font = app.font;
    // "space" is the last glyph before </glyf> and is empty: one pixel makes
    // its TTGlyph grow from one line to a block.
    let i = font.glyphs.index_of(&"space".to_string()).unwrap();
    let mut pixels = font.glyphs.entries[i].1.pixels.duplicate();
    pixels.toggle(2, 3);
    font.set_glyph_pixels(i, pixels);
    font.dirty.insert("space".to_string());
    let lines = save_lines(&font).unwrap();
    let text = file_text(&lines);
    assert!(text.contains(
        "    </TTGlyph>\n    <TTGlyph name=\"uni0042\"/><!-- contains no outline data -->\n  </glyf>"
    ));
    let space_at = lines.iter().position(|l| l.starts_with("    <TTGlyph name=\"space\"")).unwrap();
    let new_at = lines.iter().position(|l| l.starts_with("    <TTGlyph name=\"uni0042\"")).unwrap();
    let close_at = lines.iter().position(|l| l.trim() == "</glyf>").unwrap();
    assert!(space_at < new_at && new_at + 1 == close_at);
    assert_eq!(lines[new_at - 1], "    </TTGlyph>");
}

#[test]
fn the_line_of_an_offset_counts_the_newlines_before_it() {
    let text = "<a>\n\n  <b/>\n</a>";
    let offsets = build_line_offsets(text);
    for x in 0..=text.len() + 2 {
        let newlines = text.bytes().take(x).filter(|&b| b == b'\n').count();
        assert_eq!(offset_to_line(&offsets, x), 1 + newlines, "offset {x}");
    }
}

#[test]
fn a_small_document_with_a_directive_parses() {
    let raw = ["<ttFont>", "#define X", "<glyf>", r#"<TTGlyph name="space"/>"#, "</glyf>", "</ttFont>"].join("\n") + "\n";
    let f = match parse_ttx_text(&raw) {
        Ok(f) => f,
        Err(e) => panic!("refused: {:?}", e),
    };
    let g = f.glyphs.get(&"space".to_string()).unwrap();
    assert_eq!((g.pixels.width, g.pixels.height), (8, 16));
    assert!(g.pixels.data.iter().all(|&b| !b));
    assert!(g.contours.is_empty());
    assert_eq!((g.width, g.lsb), (80, 0));
    assert!(g.bbox.is_none());
    let r = f.glyf_ranges.get(&"space".to_string()).unwrap();
    assert_eq!((r.start, r.end), (4, 4));
    assert_eq!(f.glyf_section_end, Some(5));
    assert_eq!(f.preprocessor_lines.len(), 1);
    assert_eq!(f.preprocessor_lines[0].line_number, 2);
    assert_eq!(f.preprocessor_lines[0].content, "#define X");
    assert_eq!(f.source_lines.len(), 6);
}
