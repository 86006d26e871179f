use vstd::prelude::*;
use crate::font::PixelGrid;

verus! {

/// 1x preview using half-block characters (▀▄█ ).
/// Each character cell encodes two vertical pixels.
pub struct Preview1x<'a> {
    pub grid: &'a PixelGrid,
}

/// 2x preview: each pixel = 2 chars wide, 1 row tall (using ██ / ░░).
pub struct Preview2x<'a> {
    pub grid: &'a PixelGrid,
}

/// The half-block character for a top and a bottom pixel.
pub open spec fn half_block(top: bool, bottom: bool) -> char {
    if top && bottom {
        '█'
    } else if top {
        '▀'
    } else if bottom {
        '▄'
    } else {
        ' '
    }
}

pub open spec fn min_int(a: int, b: int) -> int {
    if a < b {
        a
    } else {
        b
    }
}

impl<'a> Preview1x<'a> {
    /// The characters drawn in an area of `width` x `height` cells, row by
    /// row: row `r`, column `c` shows pixels (`c`, `2r`) and (`c`, `2r + 1`).
    pub fn rows(&self, width: u16, height: u16) -> (out: Vec<Vec<char>>)
        requires
            self.grid.wf(),
            self.grid.height < usize::MAX,
        ensures
            out@.len() == min_int((self.grid.height + 1) / 2, height as int),
            forall|r: int|
                0 <= r < out@.len() ==> #[trigger] out@[r]@.len() == min_int(self.grid.width as int, width as int),
            forall|r: int, c: int|
                0 <= r < out@.len() && 0 <= c < out@[r]@.len() ==> #[trigger] out@[r]@[c] == half_block(
                    self.grid@.get(c, 2 * r),
                    self.grid@.get(c, 2 * r + 1),
                ),
    {
        let g = self.grid;
        let rows_needed = (g.height + 1) / 2;
        let mut out: Vec<Vec<char>> = Vec::new();
        let mut row_pair: usize = 0;
        while row_pair < rows_needed && row_pair < height as usize
            invariant
                g.wf(),
                g.height < usize::MAX,
                rows_needed == (g.height + 1) / 2,
                row_pair <= rows_needed,
                row_pair <= height,
                out@.len() == row_pair,
                forall|r: int| 0 <= r < out@.len() ==> #[trigger] out@[r]@.len() == min_int(g.width as int, width as int),
                forall|r: int, c: int|
                    0 <= r < out@.len() && 0 <= c < out@[r]@.len() ==> #[trigger] out@[r]@[c] == half_block(
                        g@.get(c, 2 * r),
                        g@.get(c, 2 * r + 1),
                    ),
            decreases rows_needed - row_pair,
        {
            let mut line: Vec<char> = Vec::new();
            let mut col: usize = 0;
            while col < g.width && col < width as usize
                invariant
                    g.wf(),
                    g.height < usize::MAX,
                    rows_needed == (g.height + 1) / 2,
                    row_pair < rows_needed,
                    col <= g.width,
                    col <= width,
                    line@.len() == col,
                    forall|c: int| 0 <= c < line@.len() ==> #[trigger] line@[c] == half_block(
                        g@.get(c, 2 * row_pair),
                        g@.get(c, 2 * row_pair + 1),
                    ),
                decreases g.width - col,
            {
                let top = g.get(col, row_pair * 2);
                let bottom = g.get(col, row_pair * 2 + 1);
                let ch = if top && bottom {
                    '█'
                } else if top {
                    '▀'
                } else if bottom {
                    '▄'
                } else {
                    ' '
                };
                line.push(ch);
                col = col + 1;
            }
            out.push(line);
            row_pair = row_pair + 1;
        }
        out
    }
}

impl<'a> Preview2x<'a> {
    /// The pixels drawn in an area of `width` x `height` cells, row by row:
    /// pixel `c` of row `r` takes the two cells from column `2c`, for the
    /// columns whose second cell is inside the area.
    pub fn rows(&self, width: u16, height: u16) -> (out: Vec<Vec<bool>>)
        requires
            self.grid.wf(),
        ensures
            out@.len() == min_int(self.grid.height as int, height as int),
            forall|r: int|
                0 <= r < out@.len() ==> #[trigger] out@[r]@.len() == min_int(self.grid.width as int, (width / 2) as int),
            forall|r: int, c: int|
                0 <= r < out@.len() && 0 <= c < out@[r]@.len() ==> #[trigger] out@[r]@[c] == self.grid@.get(c, r),
    {
        let g = self.grid;
        let mut out: Vec<Vec<bool>> = Vec::new();
        let mut row: usize = 0;
        while row < g.height && row < height as usize
            invariant
                g.wf(),
                row <= g.height,
                row <= height,
                out@.len() == row,
                forall|r: int|
                    0 <= r < out@.len() ==> #[trigger] out@[r]@.len() == min_int(g.width as int, (width / 2) as int),
                forall|r: int, c: int| 0 <= r < out@.len() && 0 <= c < out@[r]@.len() ==> #[trigger] out@[r]@[c] == g@.get(c, r),
            decreases g.height - row,
        {
            let mut line: Vec<bool> = Vec::new();
            let mut col: usize = 0;
            while col < g.width && col < (width / 2) as usize
                invariant
                    g.wf(),
                    row < g.height,
                    col <= g.width,
                    col <= width / 2,
                    line@.len() == col,
                    forall|c: int| 0 <= c < line@.len() ==> #[trigger] line@[c] == g@.get(c, row as int),
                decreases g.width - col,
            {
                line.push(g.get(col, row));
                col = col + 1;
            }
            out.push(line);
            row = row + 1;
        }
        out
    }
}

} // verus!
