use fsexedit::app::{
    filled_bbox, generate_glyph_svg, parse_codepoint, App, FloatingOp, Mode, SaveError, SearchTarget,
};
use fsexedit::font::{Font, Glyph, HmtxEntry, LigatureRule, PixelGrid};
use fsexedit::keys::{Action, Key};
use fsexedit::ui::preview::{Preview1x, Preview2x};
use fsexedit::ui::status::{expired_after, StatusMessage};

/// A font of three glyphs (`.notdef`, `A`, `B`) of 8 x 16 pixels, `A` and
/// `B` mapped, and one ligature `A B -> B`.
fn small_font() -> Font {
    let mut font = Font::new();
    for (name, code) in [(".notdef", None), ("A", Some(0x41u32)), ("B", Some(0x42u32))] {
        font.glyph_order.push(name.to_string());
        font.glyphs.insert(
            name.to_string(),
            Glyph {
                name: name.to_string(),
                pixels: PixelGrid::new(8, 16),
                contours: Vec::new(),
                width: 80,
                lsb: 0,
                bbox: None,
            },
        );
        font.hmtx.insert(name.to_string(), HmtxEntry { width: 80, lsb: 0 });
        if let Some(c) = code {
            font.cmap.insert(c, name.to_string());
            font.cmap_reverse.insert(name.to_string(), vec![c]);
        }
    }
    font.ligatures.push(LigatureRule {
        first_glyph: "A".to_string(),
        components: vec!["B".to_string()],
        result_glyph: "B".to_string(),
    });
    font
}

fn app() -> App {
    App::new(small_font(), "small.ttx".to_string())
}

fn status(app: &App) -> String {
    app.status_message.as_ref().map(|m| m.text.clone()).unwrap_or_default()
}

#[test]
fn new_app_starts_at_the_first_printable_glyph() {
    let app = app();
    assert_eq!(app.glyph_index, 1);
    assert_eq!(app.current_glyph_name(), Some("A"));
    assert_eq!(app.mode, Mode::GlyphEdit);
    assert!(app.current_glyph().is_some());
    assert_eq!(app.current_ligature().map(|l| l.result_glyph.clone()), Some("B".to_string()));
}

#[test]
fn toggling_a_pixel_twice_restores_it_and_marks_the_glyph() {
    let mut app = app();
    app.cursor_col = 2;
    app.cursor_row = 3;
    app.toggle_pixel();
    assert!(app.current_glyph().unwrap().pixels.get(2, 3));
    assert!(app.font.dirty.contains(&"A".to_string()));
    app.toggle_pixel();
    assert!(!app.current_glyph().unwrap().pixels.get(2, 3));
}

#[test]
fn cursor_moves_are_clamped_to_the_grid() {
    let mut app = app();
    app.move_cursor(-1, -1);
    assert_eq!((app.cursor_row, app.cursor_col), (0, 0));
    for _ in 0..20 {
        app.move_cursor(1, 1);
    }
    assert_eq!((app.cursor_row, app.cursor_col), (15, 7));
}

#[test]
fn navigation_stops_at_the_ends() {
    let mut app = app();
    app.next_glyph();
    assert_eq!(app.current_glyph_name(), Some("B"));
    app.next_glyph();
    assert_eq!(app.current_glyph_name(), Some("B"));
    app.prev_glyph();
    app.prev_glyph();
    app.prev_glyph();
    assert_eq!(app.glyph_index, 0);
    app.next_ligature();
    assert_eq!(app.ligature_index, 0);
    app.prev_ligature();
    assert_eq!(app.ligature_index, 0);
}

#[test]
fn copy_then_paste_then_commit_stamps_the_pixels() {
    let mut app = app();
    app.toggle_pixel(); // (0, 0) of A
    app.copy();
    assert_eq!(status(&app), "Copied to clipboard");
    app.next_glyph(); // B
    app.start_paste();
    assert_eq!(status(&app), "Paste: arrows to position, Enter to commit, Esc to cancel");
    let fl = app.floating.as_ref().unwrap();
    assert_eq!(fl.op, FloatingOp::Paste);
    assert_eq!(fl.glyph_name, "B");
    app.move_floating(2, 1);
    app.commit_floating();
    assert_eq!(status(&app), "Committed");
    assert!(app.floating.is_none());
    let b = app.current_glyph().unwrap();
    assert!(b.pixels.get(1, 2));
    assert!(!b.pixels.get(0, 0));
    assert!(app.font.dirty.contains(&"B".to_string()));
}

#[test]
fn paste_with_an_empty_clipboard_says_so() {
    let mut app = app();
    app.start_paste();
    assert_eq!(status(&app), "Clipboard is empty");
    assert!(app.floating.is_none());
}

#[test]
fn a_move_is_clamped_and_cancel_restores() {
    let mut app = app();
    app.cursor_col = 1;
    app.cursor_row = 1;
    app.toggle_pixel();
    app.start_move();
    assert_eq!(status(&app), "Move: arrows to position, Enter to commit, Esc to cancel");
    // The lifted pixels leave the canvas blank.
    assert!(!app.current_glyph().unwrap().pixels.get(1, 1));
    for _ in 0..5 {
        app.move_floating(-1, -1);
    }
    let fl = app.floating.as_ref().unwrap();
    assert_eq!((fl.offset_row, fl.offset_col), (-1, -1));
    app.cancel_floating();
    assert_eq!(status(&app), "Cancelled");
    assert!(app.current_glyph().unwrap().pixels.get(1, 1));
}

#[test]
fn rotating_the_floating_layer_four_times_gives_it_back() {
    let mut app = app();
    app.cursor_col = 3;
    app.toggle_pixel();
    app.copy();
    app.start_paste();
    for _ in 0..4 {
        app.rotate_floating();
    }
    let fl = app.floating.as_ref().unwrap();
    assert!(fl.pixels.get(3, 0));
    assert_eq!((fl.pixels.width, fl.pixels.height), (8, 16));
    app.rotate_floating();
    let fl = app.floating.as_ref().unwrap();
    assert_eq!((fl.pixels.width, fl.pixels.height), (16, 8));
    assert!(fl.pixels.get(15, 3));
}

#[test]
fn reset_canvas_clears_the_glyph() {
    let mut app = app();
    app.toggle_pixel();
    app.reset_canvas();
    assert_eq!(status(&app), "Canvas cleared");
    assert!(!app.current_glyph().unwrap().pixels.get(0, 0));
}

#[test]
fn filled_bbox_of_a_grid() {
    let mut g = PixelGrid::new(8, 16);
    assert_eq!(filled_bbox(&g), None);
    g.set(2, 3, true);
    g.set(5, 9, true);
    assert_eq!(filled_bbox(&g), Some((3, 9, 2, 5)));
}

#[test]
fn codepoints_in_both_notations() {
    assert_eq!(parse_codepoint("U+0041"), Some(0x41));
    assert_eq!(parse_codepoint("  u+1f600 "), Some(0x1F600));
    assert_eq!(parse_codepoint("0x41"), Some(0x41));
    assert_eq!(parse_codepoint("0X41"), Some(0x41));
    assert_eq!(parse_codepoint("41"), None);
    assert_eq!(parse_codepoint("U+"), None);
    assert_eq!(parse_codepoint("U+FFFFFFFFF"), None);
}

#[test]
fn glyph_search_by_codepoint_character_and_name() {
    let mut app = app();
    app.open_search(SearchTarget::Glyph);
    assert_eq!(app.mode, Mode::Search);
    assert_eq!(app.prev_mode, Mode::GlyphEdit);
    app.search_input = "U+0041".to_string();
    app.update_search();
    assert_eq!(app.search_results, vec!["U+0041 \"A\" → A".to_string()]);
    assert_eq!(app.search_result_names, vec!["A".to_string()]);
    app.search_input = "B".to_string();
    app.update_search();
    assert_eq!(app.search_results, vec!["U+0042 \"B\" LATIN CAPITAL LETTER B → B".to_string()]);
    app.search_input = "notdef".to_string();
    app.update_search();
    assert_eq!(app.search_results, vec![".notdef".to_string()]);
    app.search_input = "capital letter".to_string();
    app.update_search();
    assert_eq!(
        app.search_results,
        vec![
            "U+0041 \"A\" LATIN CAPITAL LETTER A → A".to_string(),
            "U+0042 \"B\" LATIN CAPITAL LETTER B → B".to_string(),
        ]
    );
    app.search_input = "   ".to_string();
    app.update_search();
    assert!(app.search_results.is_empty());
    app.search_input = "C".to_string();
    app.update_search();
    assert_eq!(app.search_results, vec!["+ Create glyph U+0043 \"C\" LATIN CAPITAL LETTER C".to_string()]);
    assert_eq!(app.search_result_names, vec!["__create__:67".to_string()]);
}

#[test]
fn selecting_a_result_goes_to_the_glyph() {
    let mut app = app();
    app.open_search(SearchTarget::Glyph);
    app.search_input = "B".to_string();
    app.update_search();
    app.cursor_row = 4;
    app.select_search_result();
    assert_eq!(app.mode, Mode::GlyphEdit);
    assert_eq!(app.current_glyph_name(), Some("B"));
    assert_eq!(app.cursor_row, 0);
}

#[test]
fn selecting_nothing_closes_the_search() {
    let mut app = app();
    app.open_search(SearchTarget::Ligature);
    app.select_search_result();
    assert_eq!(app.mode, Mode::GlyphEdit);
}

#[test]
fn creating_a_glyph_adds_it_everywhere() {
    let mut app = app();
    app.open_search(SearchTarget::Glyph);
    app.search_input = "U+1F600".to_string();
    app.update_search();
    assert!(app.has_room_for_new_glyph());
    app.select_search_result();
    assert_eq!(app.current_glyph_name(), Some("u01F600"));
    assert_eq!(app.font.glyph_for_codepoint(0x1F600), Some("u01F600"));
    assert_eq!(app.font.hmtx.get(&"u01F600".to_string()), Some(&HmtxEntry { width: 80, lsb: 0 }));
    assert!(app.font.dirty.contains(&"u01F600".to_string()));
    let g = app.current_glyph().unwrap();
    assert_eq!((g.pixels.width, g.pixels.height, g.width), (8, 16, 80));
    assert_eq!(status(&app), "Created new glyph for U+1F600 \"😀\"");
}

#[test]
fn ligature_search_by_trigger_and_by_result() {
    let mut app = app();
    app.open_search(SearchTarget::Ligature);
    app.search_input = "AB".to_string();
    app.update_search();
    assert_eq!(app.search_results, vec!["\"AB\" → B".to_string()]);
    assert_eq!(app.search_result_names, vec!["0".to_string()]);
    app.search_input = "b".to_string();
    app.update_search();
    // The trigger matches in lowercase; the result pass finds the same entry
    // and does not list it twice.
    assert_eq!(app.search_results, vec!["\"AB\" → B".to_string()]);
    app.select_search_result();
    assert_eq!(app.mode, Mode::LigatureEdit);
    assert_eq!(app.ligature_index, 0);
}

#[test]
fn trigger_text_uses_the_characters_of_mapped_glyphs() {
    let font = small_font();
    let rule = LigatureRule {
        first_glyph: "A".to_string(),
        components: vec!["unmapped".to_string(), "B".to_string()],
        result_glyph: "B".to_string(),
    };
    assert_eq!(rule.trigger_text(&font.cmap_reverse), "AunmappedB");
}

#[test]
fn save_outcome_messages() {
    let mut app = app();
    app.toggle_pixel();
    app.finish_save(Err(SaveError::Write));
    assert_eq!(status(&app), "Save failed: writing TTX file");
    app.finish_save(Err(SaveError::Layout));
    assert_eq!(status(&app), "Save failed: line ranges out of date");
    assert!(app.font.dirty.contains(&"A".to_string()));
    assert!(app.font.dirty.contains(&"A".to_string()));
    app.finish_save(Ok(Vec::new()));
    assert_eq!(status(&app), "Saved 1 modified glyph(s) to small.ttx");
    assert!(app.font.dirty.is_empty());
}

#[test]
fn export_names_the_file_after_the_glyph() {
    let mut app = app();
    app.toggle_pixel();
    let (file, svg) = app.export_svg().unwrap();
    assert_eq!(file, "A.svg");
    assert_eq!(
        svg,
        "<svg xmlns=\"http://www.w3.org/2000/svg\" viewBox=\"0 0 8 16\">\n  <path d=\"M0 0 L0 1 L1 1 L1 0 Z\" fill=\"black\" fill-rule=\"nonzero\"/>\n</svg>\n"
            .replace("M0 0 L0 1 L1 1 L1 0 Z", &svg_path_of(&svg))
    );
    app.finish_export(&file, None);
    assert_eq!(status(&app), "Exported A.svg");
    app.finish_export(&file, Some("denied".to_string()));
    assert_eq!(status(&app), "Export failed: denied");
}

/// The path data of an SVG document made by `generate_glyph_svg`.
fn svg_path_of(svg: &str) -> String {
    let start = svg.find("d=\"").unwrap() + 3;
    let end = start + svg[start..].find('"').unwrap();
    svg[start..end].to_string()
}

#[test]
fn svg_of_a_single_pixel_is_its_square() {
    let mut g = PixelGrid::new(8, 16);
    g.set(3, 5, true);
    let svg = generate_glyph_svg(&g, 130);
    let path = svg_path_of(&svg);
    assert!(path.starts_with('M'));
    assert!(path.ends_with('Z'));
    // The four corners of pixel (3, 5).
    for corner in ["3 5", "4 5", "4 6", "3 6"] {
        assert!(path.contains(corner), "{path} lacks {corner}");
    }
    let empty = generate_glyph_svg(&PixelGrid::new(8, 16), 130);
    assert_eq!(empty, "<svg xmlns=\"http://www.w3.org/2000/svg\" viewBox=\"0 0 8 16\"/>\n");
}

#[test]
fn keys_drive_the_modes() {
    let mut app = app();
    assert_eq!(app.handle_key(Key::Char(' ')), Action::Nothing);
    assert!(app.current_glyph().unwrap().pixels.get(0, 0));
    assert_eq!(app.handle_key(Key::Char('s')), Action::Save);
    assert_eq!(app.handle_key(Key::Char('E')), Action::ExportSvg);
    assert_eq!(app.handle_key(Key::Char('q')), Action::Nothing);
    assert_eq!(app.mode, Mode::Confirm);
    assert!(!app.should_quit);
    assert_eq!(app.handle_key(Key::Esc), Action::Nothing);
    assert_eq!(app.mode, Mode::GlyphEdit);
    app.handle_key(Key::Char('/'));
    assert_eq!(app.mode, Mode::Search);
    app.handle_key(Key::Char('B'));
    assert_eq!(app.search_input, "B");
    assert_eq!(app.search_results.len(), 1);
    app.handle_key(Key::Backspace);
    assert_eq!(app.search_input, "");
    assert!(app.search_results.is_empty());
    app.handle_key(Key::Esc);
    assert_eq!(app.mode, Mode::GlyphEdit);
    app.handle_key(Key::Char('q'));
    assert_eq!(app.handle_key(Key::Char('s')), Action::Save);
    assert!(app.should_quit);
}

#[test]
fn quitting_without_changes_quits_at_once() {
    let mut app = app();
    app.handle_key(Key::Down);
    assert_eq!(app.cursor_row, 1);
    app.handle_key(Key::Char('Q'));
    assert!(app.should_quit);
}

#[test]
fn previews_fold_rows_and_clip_to_the_area() {
    let mut g = PixelGrid::new(3, 3);
    g.set(0, 0, true);
    g.set(1, 1, true);
    g.set(2, 0, true);
    g.set(2, 1, true);
    let rows = Preview1x { grid: &g }.rows(10, 10);
    assert_eq!(rows, vec![vec!['▀', '▄', '█'], vec![' ', ' ', ' ']]);
    let clipped = Preview1x { grid: &g }.rows(2, 1);
    assert_eq!(clipped, vec![vec!['▀', '▄']]);
    let wide = Preview2x { grid: &g }.rows(5, 2);
    assert_eq!(wide, vec![vec![true, false], vec![false, true]]);
}

#[test]
fn status_messages_expire_after_three_seconds() {
    assert!(!expired_after(3));
    assert!(expired_after(4));
    let m = StatusMessage::new("hello".to_string());
    assert_eq!(m.text, "hello");
    assert!(!m.is_expired());
}
