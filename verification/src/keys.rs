use vstd::prelude::*;
use crate::app::{App, Mode, SearchTarget, room_for_new_glyph, search_results_for, move_floating_post, rotate_floating_post, commit_floating_post, cancel_floating_post, move_cursor_post, toggle_pixel_post, next_glyph_post, next_ligature_post, prev_glyph_post, prev_ligature_post, open_search_post, copy_post, start_paste_post, start_move_post, reset_canvas_post, close_search_post, select_search_result_post};
use crate::text;
use crate::text::views;

verus! {

/// A key press, as the editor tells keys apart.
#[derive(Debug, Clone, Copy, PartialEq, Eq, Structural)]
pub enum Key {
    Char(char),
    Up,
    Down,
    Left,
    Right,
    Enter,
    Esc,
    Backspace,
    Other,
}

/// What the caller has to do after a key press.
#[derive(Debug, Clone, Copy, PartialEq, Eq, Structural)]
pub enum Action {
    Nothing,
    /// Save the font (then call `finish_save`).
    Save,
    /// Export the glyph being edited (then call `finish_export`).
    ExportSvg,
}

/// The key is the letter in either case.
pub open spec fn letter(key: Key, lower: char, upper: char) -> bool {
    key == Key::Char(lower) || key == Key::Char(upper)
}

/// The row and column step of an arrow key.
pub open spec fn arrow_step(key: Key) -> Option<(i32, i32)> {
    match key {
        Key::Up => Some((-1i32, 0i32)),
        Key::Down => Some((1i32, 0i32)),
        Key::Left => Some((0i32, -1i32)),
        Key::Right => Some((0i32, 1i32)),
        _ => None,
    }
}

/// What the commands a key runs in an editing mode need of the app.
pub open spec fn edit_key_ok(a: App, key: Key) -> bool {
    match a.floating {
        Some(f) => {
            &&& (arrow_step(key) matches Some((dr, dc)) ==> i32::MIN <= f.offset_row + dr <= i32::MAX
                && i32::MIN <= f.offset_col + dc <= i32::MAX)
            &&& (key == Key::Enter ==> f.offset_row + f.pixels.height <= i32::MAX && f.offset_col
                + f.pixels.width <= i32::MAX)
        },
        None => true,
    }
}

/// What the command a key runs needs of the app.
pub open spec fn key_ok(a: App, key: Key) -> bool {
    match a.mode {
        Mode::GlyphEdit | Mode::LigatureEdit => edit_key_ok(a, key),
        Mode::Search => key == Key::Enter ==> (a.selection_creates() ==> room_for_new_glyph(a.font)),
        Mode::Confirm => true,
    }
}

/// A key in glyph (`glyph_mode`) or ligature editing mode.
pub open spec fn edit_key_post(a: App, b: App, key: Key, glyph_mode: bool, act: Action) -> bool {
    if a.floating is Some {
        &&& act == Action::Nothing
        &&& match arrow_step(key) {
            Some((dr, dc)) => move_floating_post(a, b, dr, dc),
            None => if letter(key, 'r', 'R') {
                rotate_floating_post(a, b)
            } else if key == Key::Enter {
                commit_floating_post(a, b)
            } else if key == Key::Esc {
                cancel_floating_post(a, b)
            } else {
                b == a
            },
        }
    } else if letter(key, 's', 'S') {
        act == Action::Save && b == a
    } else if letter(key, 'e', 'E') {
        act == Action::ExportSvg && b == a
    } else {
        &&& act == Action::Nothing
        &&& match arrow_step(key) {
            Some((dr, dc)) => move_cursor_post(a, b, dr, dc),
            None => if letter(key, 'q', 'Q') {
                if a.font.dirty@.len() != 0 {
                    b == (App { mode: Mode::Confirm, ..a })
                } else {
                    b == (App { should_quit: true, ..a })
                }
            } else if key == Key::Char(' ') {
                toggle_pixel_post(a, b)
            } else if letter(key, 'n', 'N') {
                if glyph_mode {
                    next_glyph_post(a, b)
                } else {
                    next_ligature_post(a, b)
                }
            } else if letter(key, 'p', 'P') {
                if glyph_mode {
                    prev_glyph_post(a, b)
                } else {
                    prev_ligature_post(a, b)
                }
            } else if key == Key::Char('/') {
                open_search_post(
                    a,
                    b,
                    if glyph_mode {
                        SearchTarget::Glyph
                    } else {
                        SearchTarget::Ligature
                    },
                )
            } else if glyph_mode && letter(key, 'l', 'L') {
                open_search_post(a, b, SearchTarget::Ligature)
            } else if !glyph_mode && letter(key, 'g', 'G') {
                open_search_post(a, b, SearchTarget::Glyph)
            } else if letter(key, 'c', 'C') {
                copy_post(a, b)
            } else if letter(key, 'v', 'V') {
                start_paste_post(a, b)
            } else if letter(key, 'm', 'M') {
                start_move_post(a, b)
            } else if letter(key, 'r', 'R') {
                reset_canvas_post(a, b)
            } else {
                b == a
            },
        }
    }
}

/// `b` is `a` with the search input set to `input` and the search rerun.
pub open spec fn searched(a: App, b: App, input: Seq<char>) -> bool {
    &&& b.wf()
    &&& b.search_input@ == input
    &&& (views(b.search_results@), views(b.search_result_names@)) == search_results_for(a.font, a.search_target, input)
    &&& b.search_selected == 0
    &&& b.font == a.font
    &&& b.file_path == a.file_path
    &&& b.mode == a.mode
    &&& b.prev_mode == a.prev_mode
    &&& b.search_target == a.search_target
    &&& b.should_quit == a.should_quit
    &&& b.glyph_index == a.glyph_index
    &&& b.ligature_index == a.ligature_index
    &&& b.cursor_row == a.cursor_row
    &&& b.cursor_col == a.cursor_col
    &&& b.clipboard == a.clipboard
    &&& b.floating == a.floating
    &&& b.status_message == a.status_message
}

/// A key in search mode.
pub open spec fn search_key_post(a: App, b: App, key: Key) -> bool {
    match key {
        Key::Esc => close_search_post(a, b),
        Key::Enter => select_search_result_post(a, b),
        Key::Backspace => searched(
            a,
            b,
            if a.search_input@.len() > 0 {
                a.search_input@.drop_last()
            } else {
                a.search_input@
            },
        ),
        Key::Char(c) => searched(a, b, a.search_input@.push(c)),
        Key::Up => if a.search_selected > 0 {
            b == (App { search_selected: (a.search_selected - 1) as usize, ..a })
        } else {
            b == a
        },
        Key::Down => if a.search_selected + 1 < a.search_results@.len() {
            b == (App { search_selected: (a.search_selected + 1) as usize, ..a })
        } else {
            b == a
        },
        _ => b == a,
    }
}

/// A key in the unsaved-changes dialog.
pub open spec fn confirm_key_post(a: App, b: App, key: Key, act: Action) -> bool {
    if letter(key, 's', 'S') {
        act == Action::Save && b == (App { should_quit: true, ..a })
    } else if letter(key, 'q', 'Q') {
        act == Action::Nothing && b == (App { should_quit: true, ..a })
    } else if key == Key::Esc {
        act == Action::Nothing && b == (App { mode: Mode::GlyphEdit, ..a })
    } else {
        act == Action::Nothing && b == a
    }
}

/// The step of an arrow key.
fn arrow_step_exec(key: Key) -> (r: Option<(i32, i32)>)
    ensures
        r == arrow_step(key),
{
    match key {
        Key::Up => Some((-1i32, 0i32)),
        Key::Down => Some((1i32, 0i32)),
        Key::Left => Some((0i32, -1i32)),
        Key::Right => Some((0i32, 1i32)),
        _ => None,
    }
}

fn letter_exec(key: Key, lower: char, upper: char) -> (b: bool)
    ensures
        b == letter(key, lower, upper),
{
    match key {
        Key::Char(c) => c == lower || c == upper,
        _ => false,
    }
}

impl App {
    fn handle_floating_key(&mut self, key: Key)
        requires
            old(self).wf(),
            old(self).floating is Some,
            edit_key_ok(*old(self), key),
        ensures
            edit_key_post(*old(self), *final(self), key, true, Action::Nothing),
    {
        match arrow_step_exec(key) {
            Some((dr, dc)) => self.move_floating(dr, dc),
            None => {
                if letter_exec(key, 'r', 'R') {
                    self.rotate_floating();
                } else if key == Key::Enter {
                    self.commit_floating();
                } else if key == Key::Esc {
                    self.cancel_floating();
                }
            },
        }
    }

    fn handle_edit_key(&mut self, key: Key, glyph_mode: bool) -> (act: Action)
        requires
            old(self).wf(),
            edit_key_ok(*old(self), key),
        ensures
            edit_key_post(*old(self), *final(self), key, glyph_mode, act),
    {
        if self.floating.is_some() {
            self.handle_floating_key(key);
            return Action::Nothing;
        }
        if letter_exec(key, 's', 'S') {
            return Action::Save;
        }
        if letter_exec(key, 'e', 'E') {
            return Action::ExportSvg;
        }
        match arrow_step_exec(key) {
            Some((dr, dc)) => {
                self.move_cursor(dr, dc);
            },
            None => {
                if letter_exec(key, 'q', 'Q') {
                    if !self.font.dirty.is_empty() {
                        self.mode = Mode::Confirm;
                    } else {
                        self.should_quit = true;
                    }
                } else if key == Key::Char(' ') {
                    self.toggle_pixel();
                } else if letter_exec(key, 'n', 'N') {
                    if glyph_mode {
                        self.next_glyph();
                    } else {
                        self.next_ligature();
                    }
                } else if letter_exec(key, 'p', 'P') {
                    if glyph_mode {
                        self.prev_glyph();
                    } else {
                        self.prev_ligature();
                    }
                } else if key == Key::Char('/') {
                    self.open_search(
                        if glyph_mode {
                            SearchTarget::Glyph
                        } else {
                            SearchTarget::Ligature
                        },
                    );
                } else if glyph_mode && letter_exec(key, 'l', 'L') {
                    self.open_search(SearchTarget::Ligature);
                } else if !glyph_mode && letter_exec(key, 'g', 'G') {
                    self.open_search(SearchTarget::Glyph);
                } else if letter_exec(key, 'c', 'C') {
                    self.copy();
                } else if letter_exec(key, 'v', 'V') {
                    self.start_paste();
                } else if letter_exec(key, 'm', 'M') {
                    self.start_move();
                } else if letter_exec(key, 'r', 'R') {
                    self.reset_canvas();
                }
            },
        }
        Action::Nothing
    }

    fn handle_search_key(&mut self, key: Key)
        requires
            old(self).wf(),
            key == Key::Enter ==> (old(self).selection_creates() ==> room_for_new_glyph(old(self).font)),
        ensures
            search_key_post(*old(self), *final(self), key),
    {
        match key {
            Key::Esc => {
                self.close_search();
            },
            Key::Enter => {
                self.select_search_result();
            },
            Key::Backspace => {
                let mut cs = text::chars_of(self.search_input.as_str());
                if cs.len() > 0 {
                    cs.pop();
                }
                self.search_input = text::string_of(&cs);
                let ghost mid = *self;
                self.update_search();
                proof {
                    assert(mid.search_input@ == (if old(self).search_input@.len() > 0 {
                        old(self).search_input@.drop_last()
                    } else {
                        old(self).search_input@
                    }));
                }
            },
            Key::Char(c) => {
                let mut cs = text::chars_of(self.search_input.as_str());
                cs.push(c);
                self.search_input = text::string_of(&cs);
                self.update_search();
            },
            Key::Up => {
                if self.search_selected > 0 {
                    self.search_selected = self.search_selected - 1;
                }
            },
            Key::Down => {
                let n = self.search_results.len();
                if n > 0 && self.search_selected < n - 1 {
                    self.search_selected = self.search_selected + 1;
                }
            },
            _ => {},
        }
    }

    fn handle_confirm_key(&mut self, key: Key) -> (act: Action)
        ensures
            confirm_key_post(*old(self), *final(self), key, act),
    {
        if letter_exec(key, 's', 'S') {
            self.should_quit = true;
            Action::Save
        } else if letter_exec(key, 'q', 'Q') {
            self.should_quit = true;
            Action::Nothing
        } else if key == Key::Esc {
            self.mode = Mode::GlyphEdit;
            Action::Nothing
        } else {
            Action::Nothing
        }
    }

    /// Handles a key press in the current mode. Saving and exporting need the
    /// file system: they are returned for the caller to carry out.
    pub fn handle_key(&mut self, key: Key) -> (act: Action)
        requires
            old(self).wf(),
            key_ok(*old(self), key),
        ensures
            final(self).wf(),
            match old(self).mode {
                Mode::GlyphEdit => edit_key_post(*old(self), *final(self), key, true, act),
                Mode::LigatureEdit => edit_key_post(*old(self), *final(self), key, false, act),
                Mode::Search => act == Action::Nothing && search_key_post(*old(self), *final(self), key),
                Mode::Confirm => confirm_key_post(*old(self), *final(self), key, act),
            },
    {
        match self.mode {
            Mode::GlyphEdit => self.handle_edit_key(key, true),
            Mode::LigatureEdit => self.handle_edit_key(key, false),
            Mode::Search => {
                self.handle_search_key(key);
                Action::Nothing
            },
            Mode::Confirm => self.handle_confirm_key(key),
        }
    }
}

} // verus!
