use vstd::prelude::*;
use crate::app::App;
use crate::font::{GridView, PixelGrid};

verus! {

/// What a cell of the editing canvas shows.
#[derive(Debug, Clone, Copy, PartialEq, Eq, Structural)]
pub enum Cell {
    /// The dotted margin around the grid.
    Margin,
    /// A pixel of the floating layer.
    Floating,
    /// The cursor, over a filled (`true`) or empty pixel.
    Cursor(bool),
    /// An empty pixel on a character-cell boundary (ligature grids).
    Divider,
    Filled,
    Empty,
}

/// The floating layer has a pixel over canvas pixel (`pc`, `pr`).
pub open spec fn floating_over(app: App, pc: int, pr: int) -> bool {
    match app.floating {
        Some(f) => {
            let fr = pr - f.offset_row;
            let fc = pc - f.offset_col;
            0 <= fr < f.pixels.height && 0 <= fc < f.pixels.width && f.pixels@.get(fc, fr)
        },
        None => false,
    }
}

/// The cell at (`row`, `col`) of the canvas of grid `g`, whose pixels are
/// framed by a margin one cell wide.
pub open spec fn cell_at(app: App, g: GridView, dividers: bool, row: int, col: int) -> Cell {
    if row == 0 || row == g.height + 1 || col == 0 || col == g.width + 1 {
        Cell::Margin
    } else {
        let pc = col - 1;
        let pr = row - 1;
        let filled = g.get(pc, pr);
        if floating_over(app, pc, pr) {
            Cell::Floating
        } else if app.floating is None && pc == app.cursor_col && pr == app.cursor_row {
            Cell::Cursor(filled)
        } else if dividers && pc % 8 == 0 && pc > 0 && !filled {
            Cell::Divider
        } else if filled {
            Cell::Filled
        } else {
            Cell::Empty
        }
    }
}

/// The floating layer's offsets leave every pixel of a grid of `height` rows
/// and `width` columns at an `i32` distance.
pub open spec fn offsets_fit(app: App, width: usize, height: usize) -> bool {
    app.floating matches Some(f) ==> f.offset_row >= height - 1 - i32::MAX && f.offset_col >= width - 1
        - i32::MAX
}

/// The cells of the editing canvas of `grid` (the glyph being edited), row by
/// row, margin included; with `dividers`, empty pixels on a character-cell
/// boundary show as dividers.
pub fn canvas_cells(app: &App, grid: &PixelGrid, dividers: bool) -> (out: Vec<Vec<Cell>>)
    requires
        app.wf(),
        grid.wf(),
        grid.width + 2 <= i32::MAX,
        grid.height + 2 <= i32::MAX,
        offsets_fit(*app, grid.width, grid.height),
    ensures
        out@.len() == grid.height + 2,
        forall|r: int| 0 <= r < out@.len() ==> #[trigger] out@[r]@.len() == grid.width + 2,
        forall|r: int, c: int|
            0 <= r < out@.len() && 0 <= c < out@[r]@.len() ==> #[trigger] out@[r]@[c] == cell_at(
                *app,
                grid@,
                dividers,
                r,
                c,
            ),
{
    let h = grid.height;
    let w = grid.width;
    let mut out: Vec<Vec<Cell>> = Vec::new();
    let mut row: usize = 0;
    while row < h + 2
        invariant
            app.wf(),
            grid.wf(),
            h == grid.height,
            w == grid.width,
            w + 2 <= i32::MAX,
            h + 2 <= i32::MAX,
            offsets_fit(*app, w, h),
            row <= h + 2,
            out@.len() == row,
            forall|r: int| 0 <= r < out@.len() ==> #[trigger] out@[r]@.len() == w + 2,
            forall|r: int, c: int|
                0 <= r < out@.len() && 0 <= c < out@[r]@.len() ==> #[trigger] out@[r]@[c] == cell_at(
                    *app,
                    grid@,
                    dividers,
                    r,
                    c,
                ),
        decreases h + 2 - row,
    {
        let mut line: Vec<Cell> = Vec::new();
        let mut col: usize = 0;
        while col < w + 2
            invariant
                app.wf(),
                grid.wf(),
                h == grid.height,
                w == grid.width,
                w + 2 <= i32::MAX,
                h + 2 <= i32::MAX,
                offsets_fit(*app, w, h),
                row < h + 2,
                col <= w + 2,
                line@.len() == col,
                forall|c: int| 0 <= c < line@.len() ==> #[trigger] line@[c] == cell_at(
                    *app,
                    grid@,
                    dividers,
                    row as int,
                    c,
                ),
            decreases w + 2 - col,
        {
            let cell = if row == 0 || row == h + 1 || col == 0 || col == w + 1 {
                Cell::Margin
            } else {
                let pixel_col = col - 1;
                let pixel_row = row - 1;
                let filled = grid.get(pixel_col, pixel_row);
                // Check if floating pixel covers this position
                let floating_here = match &app.floating {
                    Some(fl) => {
                        let fr = pixel_row as i32 - fl.offset_row;
                        let fc = pixel_col as i32 - fl.offset_col;
                        fr >= 0 && (fr as usize) < fl.pixels.height && fc >= 0 && (fc as usize)
                            < fl.pixels.width && fl.pixels.get(fc as usize, fr as usize)
                    },
                    None => false,
                };
                let is_cursor = app.floating.is_none() && pixel_col == app.cursor_col && pixel_row
                    == app.cursor_row;
                if floating_here {
                    Cell::Floating
                } else if is_cursor {
                    Cell::Cursor(filled)
                } else if dividers && pixel_col % 8 == 0 && pixel_col > 0 && !filled {
                    Cell::Divider
                } else if filled {
                    Cell::Filled
                } else {
                    Cell::Empty
                }
            };
            line.push(cell);
            col = col + 1;
        }
        out.push(line);
        row = row + 1;
    }
    out
}

} // verus!
