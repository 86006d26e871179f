use vstd::prelude::*;
use crate::font::{BBox, Contour, PixelGrid, Point, GridView};

verus! {

// ---------------------------------------------------------------------------
// Winding numbers of contours (font coordinates)
// ---------------------------------------------------------------------------

/// Signed crossing of the edge `p1 -> p2` with the horizontal ray going right
/// from (`px`, `py`): only vertical edges strictly right of the point count,
/// upward edges count +1, downward edges -1, over the half-open span [low, high).
pub open spec fn edge_cross(p1: Point, p2: Point, px: int, py: int) -> int {
    if p1.x == p2.x && p1.x > px {
        if p1.y < p2.y {
            if p1.y <= py < p2.y { 1 } else { 0 }
        } else if p2.y <= py < p1.y {
            -1
        } else {
            0
        }
    } else {
        0
    }
}

/// Sum of the crossings of the first `k` edges of the closed polygon `pts`.
pub open spec fn contour_partial(pts: Seq<Point>, k: int, px: int, py: int) -> int
    decreases k,
{
    if k <= 0 {
        0
    } else {
        contour_partial(pts, k - 1, px, py) + edge_cross(
            pts[k - 1],
            pts[k % (pts.len() as int)],
            px,
            py,
        )
    }
}

/// Winding number of one closed contour around (`px`, `py`); contours of fewer
/// than two points do not wind.
pub open spec fn contour_winding(pts: Seq<Point>, px: int, py: int) -> int {
    if pts.len() < 2 {
        0
    } else {
        contour_partial(pts, pts.len() as int, px, py)
    }
}

/// Winding number of the first `m` contours around (`px`, `py`).
pub open spec fn winding_upto(cs: Seq<Contour>, m: int, px: int, py: int) -> int
    decreases m,
{
    if m <= 0 {
        0
    } else {
        winding_upto(cs, m - 1, px, py) + contour_winding(cs[m - 1].points@, px, py)
    }
}

/// Winding number of all contours around (`px`, `py`).
pub open spec fn winding(cs: Seq<Contour>, px: int, py: int) -> int {
    winding_upto(cs, cs.len() as int, px, py)
}

/// Number of points in the first `m` contours.
pub open spec fn points_upto(cs: Seq<Contour>, m: int) -> int
    decreases m,
{
    if m <= 0 {
        0
    } else {
        points_upto(cs, m - 1) + cs[m - 1].points@.len()
    }
}

pub open spec fn total_points(cs: Seq<Contour>) -> int {
    points_upto(cs, cs.len() as int)
}

/// The font-space sample point of pixel (`col`, `row`): its centre.
pub open spec fn sample_x(col: int) -> int {
    col * 10 + 5
}

pub open spec fn sample_y(ascent: int, row: int) -> int {
    ascent - row * 10 - 5
}

proof fn lemma_contour_partial_bound(pts: Seq<Point>, k: int, px: int, py: int)
    requires
        0 <= k,
    ensures
        -k <= contour_partial(pts, k, px, py) <= k,
    decreases k,
{
    if k > 0 {
        lemma_contour_partial_bound(pts, k - 1, px, py);
    }
}

proof fn lemma_points_upto_mono(cs: Seq<Contour>, a: int, b: int)
    requires
        0 <= a <= b,
    ensures
        points_upto(cs, a) <= points_upto(cs, b),
    decreases b,
{
    if a < b {
        lemma_points_upto_mono(cs, a, b - 1);
    }
}

proof fn lemma_winding_upto_bound(cs: Seq<Contour>, m: int, px: int, py: int)
    requires
        0 <= m,
    ensures
        -points_upto(cs, m) <= winding_upto(cs, m, px, py) <= points_upto(cs, m),
    decreases m,
{
    if m > 0 {
        lemma_winding_upto_bound(cs, m - 1, px, py);
        let pts = cs[m - 1].points@;
        if pts.len() >= 2 {
            lemma_contour_partial_bound(pts, pts.len() as int, px, py);
        }
    }
}

/// Compute winding number of a point relative to contours.
/// Uses horizontal ray casting to the right.
pub fn winding_number(contours: &Vec<Contour>, px: i32, py: i32) -> (w: i32)
    requires
        total_points(contours@) <= i32::MAX,
    ensures
        w == winding(contours@, px as int, py as int),
{
    let mut wn: i32 = 0;
    let mut ci: usize = 0;
    while ci < contours.len()
        invariant
            ci <= contours@.len(),
            total_points(contours@) <= i32::MAX,
            wn == winding_upto(contours@, ci as int, px as int, py as int),
        decreases contours@.len() - ci,
    {
        let pts = &contours[ci].points;
        let n = pts.len();
        proof {
            lemma_winding_upto_bound(contours@, ci as int, px as int, py as int);
            lemma_points_upto_mono(contours@, ci as int + 1, contours@.len() as int);
        }
        if n >= 2 {
            let mut i: usize = 0;
            let mut local: i32 = 0;
            while i < n
                invariant
                    i <= n,
                    n == pts@.len(),
                    n >= 2,
                    local == contour_partial(pts@, i as int, px as int, py as int),
                    -points_upto(contours@, ci as int) <= wn <= points_upto(contours@, ci as int),
                    points_upto(contours@, ci as int) + n <= i32::MAX,
                decreases n - i,
            {
                proof {
                    lemma_contour_partial_bound(pts@, i as int, px as int, py as int);
                }
                let p1 = pts[i];
                let p2 = pts[(i + 1) % n];
                if p1.x == p2.x {
                    if p1.x > px {
                        let (y_lo, y_hi) = if p1.y < p2.y {
                            (p1.y, p2.y)
                        } else {
                            (p2.y, p1.y)
                        };
                        if py >= y_lo && py < y_hi {
                            if p1.y < p2.y {
                                local = local + 1;
                            } else {
                                local = local - 1;
                            }
                        }
                    }
                }
                i = i + 1;
            }
            proof {
                lemma_contour_partial_bound(pts@, n as int, px as int, py as int);
            }
            wn = wn + local;
        }
        ci = ci + 1;
    }
    wn
}

/// Rasterize contours to a pixel grid using winding number test.
/// Font coordinates: x = col * 10, y = ascent - row * 10 (ascent=130 for this font).
/// A pixel is filled exactly when the contours wind around its centre.
pub fn rasterize(contours: &Vec<Contour>, width: usize, height: usize, ascent: i32) -> (grid:
    PixelGrid)
    requires
        width * height <= usize::MAX,
        width * 10 <= i32::MAX,
        height * 10 <= i32::MAX,
        ascent - height * 10 >= i32::MIN,
        total_points(contours@) <= i32::MAX,
    ensures
        grid.wf(),
        grid.width == width,
        grid.height == height,
        rasterizes_to(contours@, ascent as int, grid@),
{
    let mut grid = PixelGrid::new(width, height);
    let mut row: usize = 0;
    while row < height
        invariant
            row <= height,
            grid.wf(),
            grid.width == width,
            grid.height == height,
            width * 10 <= i32::MAX,
            height * 10 <= i32::MAX,
            ascent - height * 10 >= i32::MIN,
            total_points(contours@) <= i32::MAX,
            forall|c: int, r: int|
                0 <= c < width && 0 <= r < height ==> #[trigger] grid@.get(c, r) == if r < row {
                    winding(contours@, sample_x(c), sample_y(ascent as int, r)) != 0
                } else {
                    false
                },
        decreases height - row,
    {
        let mut col: usize = 0;
        while col < width
            invariant
                row < height,
                col <= width,
                grid.wf(),
                grid.width == width,
                grid.height == height,
                width * 10 <= i32::MAX,
                height * 10 <= i32::MAX,
                ascent - height * 10 >= i32::MIN,
                total_points(contours@) <= i32::MAX,
                forall|c: int, r: int|
                    0 <= c < width && 0 <= r < height ==> #[trigger] grid@.get(c, r) == if r < row
                        || (r == row && c < col) {
                        winding(contours@, sample_x(c), sample_y(ascent as int, r)) != 0
                    } else {
                        false
                    },
            decreases width - col,
        {
            // Sample at pixel center
            let sx = col as i32 * 10 + 5;
            let sy = ascent - row as i32 * 10 - 5;
            if winding_number(contours, sx, sy) != 0 {
                grid.set(col, row, true);
            }
            col = col + 1;
        }
        row = row + 1;
    }
    grid
}


// ---------------------------------------------------------------------------
// Boundary edges of a pixel grid (grid coordinates)
// ---------------------------------------------------------------------------

/// A lattice corner (col, row) in grid coordinates: one unit is one pixel.
#[derive(Clone, Copy, PartialEq, Eq, Structural)]
struct GridPt {
    col: i32,
    row: i32,
}

/// A directed unit edge between two lattice corners.
#[derive(Clone, Copy)]
struct GridEdge {
    from: GridPt,
    to: GridPt,
}

spec fn gp(c: int, r: int) -> GridPt {
    GridPt { col: c as i32, row: r as i32 }
}

spec fn ge(a: GridPt, b: GridPt) -> GridEdge {
    GridEdge { from: a, to: b }
}

/// The grid and the ascent are small enough that every lattice corner has
/// font coordinates in `i32` (`x = 10 * col`, `y = ascent - 10 * row`).
pub open spec fn grid_fits(g: GridView, ascent: int) -> bool {
    &&& g.width * 10 <= i32::MAX
    &&& g.height * 10 <= i32::MAX
    &&& ascent - g.height * 10 >= i32::MIN
}

/// The boundary edges contributed by pixel (`c`, `r`), in the order in which
/// they are emitted: its right side, its bottom side, and its top and left
/// sides where they lie on the border of the grid.  (The right and bottom
/// sides on the border are already right and bottom sides: pixels outside
/// the grid are empty.  Each boundary edge is emitted exactly once.)  Filled pixels lie to the right of their edges
/// when walking in screen coordinates (y pointing down).
spec fn cell_edges(g: GridView, c: int, r: int) -> Seq<GridEdge> {
    let f = g.get(c, r);
    let rf = g.get(c + 1, r);
    let bf = g.get(c, r + 1);
    let e1 = if f && !rf {
        seq![ge(gp(c + 1, r), gp(c + 1, r + 1))]
    } else if !f && rf {
        seq![ge(gp(c + 1, r + 1), gp(c + 1, r))]
    } else {
        seq![]
    };
    let e2 = if f && !bf {
        seq![ge(gp(c + 1, r + 1), gp(c, r + 1))]
    } else if !f && bf {
        seq![ge(gp(c, r + 1), gp(c + 1, r + 1))]
    } else {
        seq![]
    };
    let e3 = if r == 0 && f { seq![ge(gp(c, 0), gp(c + 1, 0))] } else { seq![] };
    let e4 = if c == 0 && f { seq![ge(gp(0, r + 1), gp(0, r))] } else { seq![] };
    e1 + e2 + e3 + e4
}

/// Edges of the first `k` pixels of row `r`.
spec fn row_edges(g: GridView, r: int, k: int) -> Seq<GridEdge>
    decreases k,
{
    if k <= 0 {
        seq![]
    } else {
        row_edges(g, r, k - 1) + cell_edges(g, k - 1, r)
    }
}

/// Edges of the first `m` rows.
spec fn rows_edges(g: GridView, m: int) -> Seq<GridEdge>
    decreases m,
{
    if m <= 0 {
        seq![]
    } else {
        rows_edges(g, m - 1) + row_edges(g, m - 1, g.width as int)
    }
}

spec fn ind(b: bool) -> int {
    if b { 1 } else { 0 }
}

/// Crossing of a grid edge with the ray going right from the centre of pixel
/// (`c`, `r`), in the telescoping form: a vertical edge right of the pixel
/// counts +1 when it goes up across row `r`, -1 when it goes down across it.
spec fn gcross(e: GridEdge, c: int, r: int) -> int {
    if e.from.col == e.to.col && e.from.col > c {
        ind(e.to.row <= r) - ind(e.from.row <= r)
    } else {
        0
    }
}

spec fn edge_sum(es: Seq<GridEdge>, c: int, r: int) -> int
    decreases es.len(),
{
    if es.len() == 0 {
        0
    } else {
        edge_sum(es.drop_last(), c, r) + gcross(es.last(), c, r)
    }
}

proof fn lemma_edge_sum_concat(a: Seq<GridEdge>, b: Seq<GridEdge>, c: int, r: int)
    ensures
        edge_sum(a + b, c, r) == edge_sum(a, c, r) + edge_sum(b, c, r),
    decreases b.len(),
{
    if b.len() > 0 {
        assert((a + b).drop_last() =~= a + b.drop_last());
        lemma_edge_sum_concat(a, b.drop_last(), c, r);
    } else {
        assert(a + b =~= a);
    }
}

proof fn lemma_edge_sum_one(e: GridEdge, c: int, r: int)
    ensures
        edge_sum(seq![e], c, r) == gcross(e, c, r),
{
    assert(seq![e].drop_last() =~= Seq::<GridEdge>::empty());
    assert(edge_sum(Seq::<GridEdge>::empty(), c, r) == 0);
    assert(seq![e].last() == e);
}

/// Net flow at corner (`x`, `y`): edges leaving it minus edges entering it.
spec fn edge_net(e: GridEdge, x: int, y: int) -> int {
    ind(e.from.col == x && e.from.row == y) - ind(e.to.col == x && e.to.row == y)
}

spec fn net_sum(es: Seq<GridEdge>, x: int, y: int) -> int
    decreases es.len(),
{
    if es.len() == 0 {
        0
    } else {
        net_sum(es.drop_last(), x, y) + edge_net(es.last(), x, y)
    }
}

proof fn lemma_net_sum_concat(a: Seq<GridEdge>, b: Seq<GridEdge>, x: int, y: int)
    ensures
        net_sum(a + b, x, y) == net_sum(a, x, y) + net_sum(b, x, y),
    decreases b.len(),
{
    if b.len() > 0 {
        assert((a + b).drop_last() =~= a + b.drop_last());
        lemma_net_sum_concat(a, b.drop_last(), x, y);
    } else {
        assert(a + b =~= a);
    }
}

proof fn lemma_net_sum_one(e: GridEdge, x: int, y: int)
    ensures
        net_sum(seq![e], x, y) == edge_net(e, x, y),
{
    assert(seq![e].drop_last() =~= Seq::<GridEdge>::empty());
    assert(net_sum(Seq::<GridEdge>::empty(), x, y) == 0);
    assert(seq![e].last() == e);
}

/// Pixel values as integers, with empty pixels outside the grid.
spec fn fv(g: GridView, c: int, r: int) -> int {
    ind(g.get(c, r))
}

/// The crossing sum of one pixel's edges, in closed form.
proof fn lemma_cell_cross(g: GridView, cc: int, rr: int, c: int, r: int)
    requires
        grid_fits(g, 0),
        0 <= cc < g.width,
        0 <= rr < g.height,
        0 <= c,
    ensures
        edge_sum(cell_edges(g, cc, rr), c, r) == if rr == r && cc >= c {
            fv(g, cc + 1, r) - fv(g, cc, r)
        } else {
            0
        },
{
    let w = g.width as int;
    let h = g.height as int;
    let f = g.get(cc, rr);
    let rf = g.get(cc + 1, rr);
    let bf = g.get(cc, rr + 1);
    let e1 = if f && !rf {
        seq![ge(gp(cc + 1, rr), gp(cc + 1, rr + 1))]
    } else if !f && rf {
        seq![ge(gp(cc + 1, rr + 1), gp(cc + 1, rr))]
    } else {
        seq![]
    };
    let e2 = if f && !bf {
        seq![ge(gp(cc + 1, rr + 1), gp(cc, rr + 1))]
    } else if !f && bf {
        seq![ge(gp(cc, rr + 1), gp(cc + 1, rr + 1))]
    } else {
        seq![]
    };
    let e3: Seq<GridEdge> = if rr == 0 && f { seq![ge(gp(cc, 0), gp(cc + 1, 0))] } else { seq![] };
    let e4: Seq<GridEdge> = if cc == 0 && f { seq![ge(gp(0, rr + 1), gp(0, rr))] } else { seq![] };
    lemma_edge_sum_concat(e1 + e2 + e3, e4, c, r);
    lemma_edge_sum_concat(e1 + e2, e3, c, r);
    lemma_edge_sum_concat(e1, e2, c, r);
    if e1.len() > 0 {
        lemma_edge_sum_one(e1[0], c, r);
        assert(e1 =~= seq![e1[0]]);
    }
    if e2.len() > 0 {
        lemma_edge_sum_one(e2[0], c, r);
        assert(e2 =~= seq![e2[0]]);
    }
    if e3.len() > 0 {
        lemma_edge_sum_one(e3[0], c, r);
        assert(e3 =~= seq![e3[0]]);
    }
    if e4.len() > 0 {
        lemma_edge_sum_one(e4[0], c, r);
        assert(e4 =~= seq![e4[0]]);
    }
}

proof fn lemma_row_cross(g: GridView, rr: int, k: int, c: int, r: int)
    requires
        grid_fits(g, 0),
        0 <= k <= g.width,
        0 <= rr < g.height,
        0 <= c,
    ensures
        edge_sum(row_edges(g, rr, k), c, r) == if rr == r && k > c {
            fv(g, k, r) - fv(g, c, r)
        } else {
            0
        },
    decreases k,
{
    if k > 0 {
        lemma_row_cross(g, rr, k - 1, c, r);
        lemma_cell_cross(g, k - 1, rr, c, r);
        lemma_edge_sum_concat(row_edges(g, rr, k - 1), cell_edges(g, k - 1, rr), c, r);
    }
}

/// The boundary edges of the first `m` rows cross the ray from pixel (`c`, `r`)
/// with total `-1` when that pixel is filled and `0` when it is empty.
proof fn lemma_rows_cross(g: GridView, m: int, c: int, r: int)
    requires
        grid_fits(g, 0),
        0 <= m <= g.height,
        0 <= c < g.width,
    ensures
        edge_sum(rows_edges(g, m), c, r) == if 0 <= r < m { -fv(g, c, r) } else { 0 },
    decreases m,
{
    if m > 0 {
        lemma_rows_cross(g, m - 1, c, r);
        lemma_row_cross(g, m - 1, g.width as int, c, r);
        lemma_edge_sum_concat(rows_edges(g, m - 1), row_edges(g, m - 1, g.width as int), c, r);
        assert(!g.get(g.width as int, r));
    }
}

spec fn cnet(g: GridView, cc: int, rr: int, x: int, y: int) -> int {
    net_sum(cell_edges(g, cc, rr), x, y)
}

/// The net flow of one pixel's edges at corner (`x`, `y`), edge by edge.
proof fn lemma_cell_net(g: GridView, cc: int, rr: int, x: int, y: int)
    requires
        grid_fits(g, 0),
        0 <= cc < g.width,
        0 <= rr < g.height,
    ensures
        cnet(g, cc, rr, x, y) == {
            let f = g.get(cc, rr);
            let rf = g.get(cc + 1, rr);
            let bf = g.get(cc, rr + 1);
            (if f && !rf {
                ind(x == cc + 1 && y == rr) - ind(x == cc + 1 && y == rr + 1)
            } else if !f && rf {
                ind(x == cc + 1 && y == rr + 1) - ind(x == cc + 1 && y == rr)
            } else {
                0
            }) + (if f && !bf {
                ind(x == cc + 1 && y == rr + 1) - ind(x == cc && y == rr + 1)
            } else if !f && bf {
                ind(x == cc && y == rr + 1) - ind(x == cc + 1 && y == rr + 1)
            } else {
                0
            }) + (if rr == 0 && f {
                ind(x == cc && y == 0) - ind(x == cc + 1 && y == 0)
            } else {
                0
            }) + (if cc == 0 && f {
                ind(x == 0 && y == rr + 1) - ind(x == 0 && y == rr)
            } else {
                0
            })
        },
{
    let w = g.width as int;
    let h = g.height as int;
    let f = g.get(cc, rr);
    let rf = g.get(cc + 1, rr);
    let bf = g.get(cc, rr + 1);
    let e1 = if f && !rf {
        seq![ge(gp(cc + 1, rr), gp(cc + 1, rr + 1))]
    } else if !f && rf {
        seq![ge(gp(cc + 1, rr + 1), gp(cc + 1, rr))]
    } else {
        seq![]
    };
    let e2 = if f && !bf {
        seq![ge(gp(cc + 1, rr + 1), gp(cc, rr + 1))]
    } else if !f && bf {
        seq![ge(gp(cc, rr + 1), gp(cc + 1, rr + 1))]
    } else {
        seq![]
    };
    let e3: Seq<GridEdge> = if rr == 0 && f { seq![ge(gp(cc, 0), gp(cc + 1, 0))] } else { seq![] };
    let e4: Seq<GridEdge> = if cc == 0 && f { seq![ge(gp(0, rr + 1), gp(0, rr))] } else { seq![] };
    lemma_net_sum_concat(e1 + e2 + e3, e4, x, y);
    lemma_net_sum_concat(e1 + e2, e3, x, y);
    lemma_net_sum_concat(e1, e2, x, y);
    if e1.len() > 0 {
        lemma_net_sum_one(e1[0], x, y);
        assert(e1 =~= seq![e1[0]]);
    }
    if e2.len() > 0 {
        lemma_net_sum_one(e2[0], x, y);
        assert(e2 =~= seq![e2[0]]);
    }
    if e3.len() > 0 {
        lemma_net_sum_one(e3[0], x, y);
        assert(e3 =~= seq![e3[0]]);
    }
    if e4.len() > 0 {
        lemma_net_sum_one(e4[0], x, y);
        assert(e4 =~= seq![e4[0]]);
    }
}

/// A pixel's edges only touch the four corners of that pixel.
proof fn lemma_cell_net_support(g: GridView, cc: int, rr: int, x: int, y: int)
    requires
        grid_fits(g, 0),
        0 <= cc < g.width,
        0 <= rr < g.height,
        !((x == cc || x == cc + 1) && (y == rr || y == rr + 1)),
    ensures
        cnet(g, cc, rr, x, y) == 0,
{
    lemma_cell_net(g, cc, rr, x, y);
}

proof fn lemma_row_net(g: GridView, rr: int, k: int, x: int, y: int)
    requires
        grid_fits(g, 0),
        0 <= k <= g.width,
        0 <= rr < g.height,
    ensures
        net_sum(row_edges(g, rr, k), x, y) == (if 0 <= x - 1 < k {
            cnet(g, x - 1, rr, x, y)
        } else {
            0
        }) + (if 0 <= x < k {
            cnet(g, x, rr, x, y)
        } else {
            0
        }),
    decreases k,
{
    if k > 0 {
        lemma_row_net(g, rr, k - 1, x, y);
        lemma_net_sum_concat(row_edges(g, rr, k - 1), cell_edges(g, k - 1, rr), x, y);
        if k - 1 != x - 1 && k - 1 != x {
            lemma_cell_net_support(g, k - 1, rr, x, y);
        }
    }
}

spec fn row_net(g: GridView, rr: int, x: int, y: int) -> int {
    net_sum(row_edges(g, rr, g.width as int), x, y)
}

proof fn lemma_rows_net(g: GridView, m: int, x: int, y: int)
    requires
        grid_fits(g, 0),
        0 <= m <= g.height,
    ensures
        net_sum(rows_edges(g, m), x, y) == (if 0 <= y - 1 < m {
            row_net(g, y - 1, x, y)
        } else {
            0
        }) + (if 0 <= y < m {
            row_net(g, y, x, y)
        } else {
            0
        }),
    decreases m,
{
    if m > 0 {
        lemma_rows_net(g, m - 1, x, y);
        lemma_net_sum_concat(rows_edges(g, m - 1), row_edges(g, m - 1, g.width as int), x, y);
        if m - 1 != y - 1 && m - 1 != y {
            lemma_row_net(g, m - 1, g.width as int, x, y);
            if 0 <= x - 1 < g.width {
                lemma_cell_net_support(g, x - 1, m - 1, x, y);
            }
            if 0 <= x < g.width {
                lemma_cell_net_support(g, x, m - 1, x, y);
            }
        }
    }
}

/// Every corner of the lattice has as many boundary edges leaving it as
/// entering it.
#[verifier::spinoff_prover]
#[verifier::rlimit(100)]
proof fn lemma_boundary_balanced(g: GridView, x: int, y: int)
    requires
        grid_fits(g, 0),
    ensures
        net_sum(rows_edges(g, g.height as int), x, y) == 0,
{
    let w = g.width as int;
    let h = g.height as int;
    lemma_rows_net(g, h, x, y);
    if 0 <= y - 1 < h {
        lemma_row_net(g, y - 1, w, x, y);
        if 0 <= x - 1 < w {
            lemma_cell_net(g, x - 1, y - 1, x, y);
        }
        if 0 <= x < w {
            lemma_cell_net(g, x, y - 1, x, y);
        }
    }
    if 0 <= y < h {
        lemma_row_net(g, y, w, x, y);
        if 0 <= x - 1 < w {
            lemma_cell_net(g, x - 1, y, x, y);
        }
        if 0 <= x < w {
            lemma_cell_net(g, x, y, x, y);
        }
    }
}

spec fn opt_seq(o: Option<GridEdge>) -> Seq<GridEdge> {
    match o {
        Some(e) => seq![e],
        None => seq![],
    }
}

spec fn side_right(g: GridView, c: int, r: int) -> Seq<GridEdge> {
    let f = g.get(c, r);
    let rf = g.get(c + 1, r);
    if f && !rf {
        seq![ge(gp(c + 1, r), gp(c + 1, r + 1))]
    } else if !f && rf {
        seq![ge(gp(c + 1, r + 1), gp(c + 1, r))]
    } else {
        seq![]
    }
}

spec fn side_bottom(g: GridView, c: int, r: int) -> Seq<GridEdge> {
    let f = g.get(c, r);
    let bf = g.get(c, r + 1);
    if f && !bf {
        seq![ge(gp(c + 1, r + 1), gp(c, r + 1))]
    } else if !f && bf {
        seq![ge(gp(c, r + 1), gp(c + 1, r + 1))]
    } else {
        seq![]
    }
}

spec fn side_top(g: GridView, c: int, r: int) -> Seq<GridEdge> {
    if r == 0 && g.get(c, r) { seq![ge(gp(c, 0), gp(c + 1, 0))] } else { seq![] }
}

spec fn side_left(g: GridView, c: int, r: int) -> Seq<GridEdge> {
    if c == 0 && g.get(c, r) { seq![ge(gp(0, r + 1), gp(0, r))] } else { seq![] }
}

proof fn lemma_cell_edges_sides(g: GridView, c: int, r: int)
    ensures
        cell_edges(g, c, r) =~= side_right(g, c, r) + side_bottom(g, c, r) + side_top(g, c, r)
            + side_left(g, c, r),
{
}

fn push_opt(edges: &mut Vec<GridEdge>, o: Option<GridEdge>)
    ensures
        final(edges)@ == old(edges)@ + opt_seq(o),
{
    match o {
        Some(e) => {
            edges.push(e);
            assert(edges@ =~= old(edges)@ + seq![e]);
        },
        None => {
            assert(edges@ =~= old(edges)@ + Seq::<GridEdge>::empty());
        },
    }
}

/// The vertical edge between pixel (`col`, `row`) and its right neighbour.
fn right_side(grid: &PixelGrid, col: usize, row: usize) -> (o: Option<GridEdge>)
    requires
        grid.wf(),
        grid_fits(grid@, 0),
        col < grid.width,
        row < grid.height,
    ensures
        opt_seq(o) =~= side_right(grid@, col as int, row as int),
{
    let filled = grid.get(col, row);
    let c = col as i32;
    let r = row as i32;
    let right_filled = if col + 1 < grid.width {
        grid.get(col + 1, row)
    } else {
        false
    };
    if filled && !right_filled {
        // Right boundary: downward
        Some(GridEdge { from: GridPt { col: c + 1, row: r }, to: GridPt { col: c + 1, row: r + 1 } })
    } else if !filled && right_filled {
        // Left boundary of right pixel: upward
        Some(GridEdge { from: GridPt { col: c + 1, row: r + 1 }, to: GridPt { col: c + 1, row: r } })
    } else {
        None
    }
}

/// The horizontal edge between pixel (`col`, `row`) and the pixel below it.
fn bottom_side(grid: &PixelGrid, col: usize, row: usize) -> (o: Option<GridEdge>)
    requires
        grid.wf(),
        grid_fits(grid@, 0),
        col < grid.width,
        row < grid.height,
    ensures
        opt_seq(o) =~= side_bottom(grid@, col as int, row as int),
{
    let filled = grid.get(col, row);
    let c = col as i32;
    let r = row as i32;
    let bottom_filled = if row + 1 < grid.height {
        grid.get(col, row + 1)
    } else {
        false
    };
    if filled && !bottom_filled {
        // Bottom boundary: leftward
        Some(GridEdge { from: GridPt { col: c + 1, row: r + 1 }, to: GridPt { col: c, row: r + 1 } })
    } else if !filled && bottom_filled {
        // Top boundary of bottom pixel: rightward
        Some(GridEdge { from: GridPt { col: c, row: r + 1 }, to: GridPt { col: c + 1, row: r + 1 } })
    } else {
        None
    }
}

/// Emits the boundary edges of pixel (`col`, `row`).
#[verifier::rlimit(80)]
fn push_cell_edges(grid: &PixelGrid, col: usize, row: usize, edges: &mut Vec<GridEdge>)
    requires
        grid.wf(),
        grid_fits(grid@, 0),
        col < grid.width,
        row < grid.height,
    ensures
        final(edges)@ == old(edges)@ + cell_edges(grid@, col as int, row as int),
{
    let w = grid.width;
    let h = grid.height;
    let filled = grid.get(col, row);
    let c = col as i32;
    let r = row as i32;
    let ghost g = grid@;
    let ghost before = edges@;
    push_opt(edges, right_side(grid, col, row));
    push_opt(edges, bottom_side(grid, col, row));
    // Grid boundary edges (only for filled pixels at edges)
    let top = if row == 0 && filled {
        // Top boundary: rightward
        Some(GridEdge { from: GridPt { col: c, row: 0 }, to: GridPt { col: c + 1, row: 0 } })
    } else {
        None
    };
    assert(opt_seq(top) =~= side_top(g, col as int, row as int));
    push_opt(edges, top);
    let left = if col == 0 && filled {
        // Left boundary: upward
        Some(GridEdge { from: GridPt { col: 0, row: r + 1 }, to: GridPt { col: 0, row: r } })
    } else {
        None
    };
    assert(opt_seq(left) =~= side_left(g, col as int, row as int));
    push_opt(edges, left);
    proof {
        lemma_cell_edges_sides(g, col as int, row as int);
        assert(edges@ =~= before + cell_edges(g, col as int, row as int));
    }
}

/// All directed boundary edges between filled and empty pixels, row by row.
fn boundary_edges(grid: &PixelGrid) -> (edges: Vec<GridEdge>)
    requires
        grid.wf(),
        grid_fits(grid@, 0),
    ensures
        edges@ == rows_edges(grid@, grid.height as int),
{
    let w = grid.width;
    let h = grid.height;
    let mut edges: Vec<GridEdge> = Vec::new();
    let mut row: usize = 0;
    while row < h
        invariant
            grid.wf(),
            grid_fits(grid@, 0),
            w == grid.width,
            h == grid.height,
            row <= h,
            edges@ == rows_edges(grid@, row as int),
        decreases h - row,
    {
        let mut col: usize = 0;
        while col < w
            invariant
                grid.wf(),
                grid_fits(grid@, 0),
                w == grid.width,
                h == grid.height,
                row < h,
                col <= w,
                edges@ == rows_edges(grid@, row as int) + row_edges(grid@, row as int, col as int),
            decreases w - col,
        {
            let ghost prev = edges@;
            push_cell_edges(grid, col, row, &mut edges);
            proof {
                assert(row_edges(grid@, row as int, col + 1) == row_edges(grid@, row as int, col as int)
                    + cell_edges(grid@, col as int, row as int));
                assert(edges@ =~= rows_edges(grid@, row as int) + row_edges(grid@, row as int, col + 1));
            }
            col = col + 1;
        }
        proof {
            assert(rows_edges(grid@, row + 1) == rows_edges(grid@, row as int) + row_edges(grid@, row as int, w as int));
        }
        row = row + 1;
    }
    edges
}

// ---------------------------------------------------------------------------
// Closed polygons over lattice corners and their crossing sums
// ---------------------------------------------------------------------------

spec fn gc(a: GridPt, b: GridPt, c: int, r: int) -> int {
    gcross(ge(a, b), c, r)
}

/// The `i`-th corner of the closed polygon `p`, with indices taken cyclically.
spec fn pt(p: Seq<GridPt>, i: int) -> GridPt {
    p[i % (p.len() as int)]
}

/// Sum of the crossings of the polygon edges `a .. b` (cyclic indices).
spec fn csum(p: Seq<GridPt>, a: int, b: int, c: int, r: int) -> int
    decreases b - a,
{
    if b <= a {
        0
    } else {
        csum(p, a, b - 1, c, r) + gc(pt(p, b - 1), pt(p, b), c, r)
    }
}

/// Sum of the crossings of the open path `p[0] -> p[1] -> ... -> p[k]`.
spec fn path_sum(p: Seq<GridPt>, k: int, c: int, r: int) -> int
    decreases k,
{
    if k <= 0 {
        0
    } else {
        path_sum(p, k - 1, c, r) + gc(p[k - 1], p[k], c, r)
    }
}

/// Sum of the crossings of the closed polygon `p`.
spec fn cyc_sum(p: Seq<GridPt>, c: int, r: int) -> int {
    if p.len() == 0 {
        0
    } else {
        path_sum(p, p.len() - 1, c, r) + gc(p[p.len() - 1], p[0], c, r)
    }
}

/// Corner `j` of `p` continues its incoming edge in the same direction with
/// the same length: it is not a corner of the shape.
spec fn straight(p: Seq<GridPt>, j: int) -> bool {
    let a = pt(p, j - 1);
    let b = pt(p, j);
    let d = pt(p, j + 1);
    b.col - a.col == d.col - b.col && b.row - a.row == d.row - b.row
}

proof fn lemma_pt_shift(p: Seq<GridPt>, i: int)
    requires
        p.len() > 0,
    ensures
        pt(p, i + p.len()) == pt(p, i),
        pt(p, i - p.len()) == pt(p, i),
{
    let n = p.len() as int;
    vstd::arithmetic::div_mod::lemma_mod_add_multiples_vanish(i, n);
    vstd::arithmetic::div_mod::lemma_mod_add_multiples_vanish(i - n, n);
}

proof fn lemma_pt_in_range(p: Seq<GridPt>, i: int)
    requires
        0 <= i < p.len(),
    ensures
        pt(p, i) == p[i],
{
    vstd::arithmetic::div_mod::lemma_small_mod(i as nat, p.len());
}

proof fn lemma_csum_split(p: Seq<GridPt>, a: int, b: int, d: int, c: int, r: int)
    requires
        a <= b <= d,
    ensures
        csum(p, a, b, c, r) + csum(p, b, d, c, r) == csum(p, a, d, c, r),
    decreases d - b,
{
    if b < d {
        lemma_csum_split(p, a, b, d - 1, c, r);
    }
}

proof fn lemma_csum_shift(p: Seq<GridPt>, a: int, b: int, c: int, r: int)
    requires
        a <= b,
        p.len() > 0,
    ensures
        csum(p, a + p.len(), b + p.len(), c, r) == csum(p, a, b, c, r),
    decreases b - a,
{
    if a < b {
        lemma_csum_shift(p, a, b - 1, c, r);
        lemma_pt_shift(p, b - 1);
        lemma_pt_shift(p, b);
    }
}

/// The crossing sum of a closed polygon does not depend on its starting corner.
proof fn lemma_csum_rotate(p: Seq<GridPt>, k: int, c: int, r: int)
    requires
        p.len() > 0,
        0 <= k <= p.len(),
    ensures
        csum(p, k, k + p.len(), c, r) == csum(p, 0, p.len() as int, c, r),
{
    let n = p.len() as int;
    lemma_csum_split(p, k, n, k + n, c, r);
    lemma_csum_split(p, 0, k, n, c, r);
    lemma_csum_shift(p, 0, k, c, r);
}

proof fn lemma_csum_path(p: Seq<GridPt>, k: int, c: int, r: int)
    requires
        0 <= k < p.len(),
    ensures
        csum(p, 0, k, c, r) == path_sum(p, k, c, r),
    decreases k,
{
    if k > 0 {
        lemma_csum_path(p, k - 1, c, r);
        lemma_pt_in_range(p, k - 1);
        lemma_pt_in_range(p, k);
    }
}

proof fn lemma_cyc_csum(p: Seq<GridPt>, c: int, r: int)
    requires
        p.len() > 0,
    ensures
        cyc_sum(p, c, r) == csum(p, 0, p.len() as int, c, r),
{
    let n = p.len() as int;
    lemma_csum_path(p, n - 1, c, r);
    lemma_pt_in_range(p, n - 1);
    lemma_pt_shift(p, 0);
    lemma_pt_in_range(p, 0);
}

/// Crossings add up along three corners that lie on one vertical line, or
/// whose columns are strictly monotone.
proof fn lemma_gc_additive(a: GridPt, b: GridPt, d: GridPt, c: int, r: int)
    requires
        (a.col == b.col && b.col == d.col) || (a.col < b.col && b.col < d.col) || (a.col > b.col
            && b.col > d.col),
    ensures
        gc(a, b, c, r) + gc(b, d, c, r) == gc(a, d, c, r),
{
}

/// Along a run of straight corners the edges form one segment, whose crossing
/// is the sum of theirs.
proof fn lemma_run(p: Seq<GridPt>, a: int, b: int, c: int, r: int)
    requires
        p.len() > 0,
        a < b,
        forall|j: int| a < j < b ==> #[trigger] straight(p, j),
    ensures
        csum(p, a, b, c, r) == gc(pt(p, a), pt(p, b), c, r),
        pt(p, b).col - pt(p, b - 1).col == pt(p, a + 1).col - pt(p, a).col,
        pt(p, b).row - pt(p, b - 1).row == pt(p, a + 1).row - pt(p, a).row,
        pt(p, a + 1).col == pt(p, a).col ==> pt(p, b).col == pt(p, a).col,
        pt(p, a + 1).col > pt(p, a).col ==> pt(p, b).col > pt(p, a).col,
        pt(p, a + 1).col < pt(p, a).col ==> pt(p, b).col < pt(p, a).col,
    decreases b - a,
{
    assert(csum(p, a, a, c, r) == 0);
    if b > a + 1 {
        lemma_run(p, a, b - 1, c, r);
        assert(straight(p, b - 1));
        lemma_gc_additive(pt(p, a), pt(p, b - 1), pt(p, b), c, r);
    }
}

/// The sum from the first kept corner up to the `t`-th kept corner.
proof fn lemma_kept_prefix(p: Seq<GridPt>, q: Seq<GridPt>, ks: Seq<int>, t: int, c: int, r: int)
    requires
        0 <= t < ks.len(),
        forall|u: int| 0 <= u < ks.len() - 1 ==> #[trigger] csum(p, ks[u], ks[u + 1], c, r) == gc(
            q[u],
            q[u + 1],
            c,
            r,
        ),
        forall|s: int, u: int| 0 <= s < u < ks.len() ==> ks[s] < ks[u],
    ensures
        csum(p, ks[0], ks[t], c, r) == path_sum(q, t, c, r),
    decreases t,
{
    if t > 0 {
        lemma_kept_prefix(p, q, ks, t - 1, c, r);
        if t - 1 > 0 {
            assert(ks[0] < ks[t - 1]);
        }
        assert(ks[t - 1] < ks[t]);
        let u = t - 1;
        assert(csum(p, ks[u], ks[u + 1], c, r) == gc(q[u], q[u + 1], c, r));
        assert(u + 1 == t);
        lemma_csum_split(p, ks[0], ks[t - 1], ks[t], c, r);
    }
}

/// Dropping the straight corners of a closed polygon keeps its crossing sum:
/// `q` lists, in order, the corners of `p` at the indices `ks`, and every
/// corner of `p` outside `ks` is straight.
proof fn lemma_simplify_keeps_sum(p: Seq<GridPt>, q: Seq<GridPt>, ks: Seq<int>, c: int, r: int)
    requires
        p.len() > 0,
        q.len() == ks.len(),
        forall|t: int| 0 <= t < ks.len() ==> 0 <= #[trigger] ks[t] < p.len(),
        forall|t: int| 0 <= t < ks.len() ==> q[t] == p[#[trigger] ks[t]],
        forall|s: int, t: int| 0 <= s < t < ks.len() ==> ks[s] < ks[t],
        forall|j: int| 0 <= j < p.len() && !ks.contains(j) ==> #[trigger] straight(p, j),
    ensures
        cyc_sum(q, c, r) == cyc_sum(p, c, r),
{
    let n = p.len() as int;
    let m = ks.len() as int;
    lemma_cyc_csum(p, c, r);
    assert forall|j: int| #[trigger] straight(p, j + n) == straight(p, j) by {
        lemma_pt_shift(p, j - 1);
        lemma_pt_shift(p, j);
        lemma_pt_shift(p, j + 1);
    }
    if m == 0 {
        assert forall|j: int| 0 < j < n implies #[trigger] straight(p, j) by {
            assert(!ks.contains(j));
        }
        lemma_run(p, 0, n, c, r);
        lemma_pt_shift(p, 0);
    } else {
        let k0 = ks[0];
        lemma_csum_rotate(p, k0, c, r);
        // runs between consecutive kept corners
        assert forall|t: int| 0 <= t < m - 1 implies #[trigger] csum(p, ks[t], ks[t + 1], c, r) == gc(
            q[t],
            q[t + 1],
            c,
            r,
        ) by {
            assert forall|j: int| ks[t] < j < ks[t + 1] implies #[trigger] straight(p, j) by {
                if ks.contains(j) {
                    let u = choose|u: int| 0 <= u < ks.len() && ks[u] == j;
                    if u <= t {
                        if u < t {
                            assert(ks[u] < ks[t]);
                        }
                    } else if u >= t + 1 {
                        if u > t + 1 {
                            assert(ks[t + 1] < ks[u]);
                        }
                    }
                }
            }
            lemma_run(p, ks[t], ks[t + 1], c, r);
            lemma_pt_in_range(p, ks[t]);
            lemma_pt_in_range(p, ks[t + 1]);
        }
        lemma_kept_prefix(p, q, ks, m - 1, c, r);
        // the run that wraps around from the last kept corner to the first
        let kl = ks[m - 1];
        assert forall|j: int| kl < j < k0 + n implies #[trigger] straight(p, j) by {
            if j < n {
                if ks.contains(j) {
                    let u = choose|u: int| 0 <= u < ks.len() && ks[u] == j;
                    if u < m - 1 {
                        assert(ks[u] < ks[m - 1]);
                    }
                }
                assert(straight(p, j));
            } else {
                let j0 = j - n;
                if ks.contains(j0) {
                    let u = choose|u: int| 0 <= u < ks.len() && ks[u] == j0;
                    if u > 0 {
                        assert(ks[0] < ks[u]);
                    }
                }
                assert(straight(p, j0));
                assert(straight(p, j0 + n) == straight(p, j0));
            }
        }
        if m - 1 > 0 {
            assert(ks[0] < ks[m - 1]);
        }
        lemma_run(p, kl, k0 + n, c, r);
        lemma_csum_split(p, k0, kl, k0 + n, c, r);
        lemma_pt_shift(p, k0);
        lemma_pt_in_range(p, k0);
        lemma_pt_in_range(p, kl);
    }
}

// ---------------------------------------------------------------------------
// Chaining edges into closed loops
// ---------------------------------------------------------------------------

spec fn on_lattice(p: GridPt, w: int, h: int) -> bool {
    0 <= p.col <= w && 0 <= p.row <= h
}

spec fn edges_on_lattice(es: Seq<GridEdge>, w: int, h: int) -> bool {
    forall|i: int|
        0 <= i < es.len() ==> on_lattice(#[trigger] es[i].from, w, h) && on_lattice(es[i].to, w, h)
}

/// Sum of the crossings of the edges marked used among the first `k`.
spec fn used_sum(es: Seq<GridEdge>, u: Seq<bool>, k: int, c: int, r: int) -> int
    decreases k,
{
    if k <= 0 {
        0
    } else {
        used_sum(es, u, k - 1, c, r) + if u[k - 1] {
            gcross(es[k - 1], c, r)
        } else {
            0
        }
    }
}

/// Unused edges among the first `k` that leave corner (`x`, `y`).
spec fn uout(es: Seq<GridEdge>, u: Seq<bool>, k: int, x: int, y: int) -> int
    decreases k,
{
    if k <= 0 {
        0
    } else {
        uout(es, u, k - 1, x, y) + ind(!u[k - 1] && es[k - 1].from.col == x && es[k - 1].from.row == y)
    }
}

/// Unused edges among the first `k` that enter corner (`x`, `y`).
spec fn uin(es: Seq<GridEdge>, u: Seq<bool>, k: int, x: int, y: int) -> int
    decreases k,
{
    if k <= 0 {
        0
    } else {
        uin(es, u, k - 1, x, y) + ind(!u[k - 1] && es[k - 1].to.col == x && es[k - 1].to.row == y)
    }
}

/// Number of used edges among the first `k`.
spec fn nused(u: Seq<bool>, k: int) -> int
    decreases k,
{
    if k <= 0 {
        0
    } else {
        nused(u, k - 1) + ind(u[k - 1])
    }
}

proof fn lemma_mark(es: Seq<GridEdge>, u: Seq<bool>, m: int, k: int, c: int, r: int, x: int, y: int)
    requires
        0 <= m < u.len(),
        !u[m],
        0 <= k <= u.len(),
    ensures
        used_sum(es, u.update(m, true), k, c, r) == used_sum(es, u, k, c, r) + if m < k {
            gcross(es[m], c, r)
        } else {
            0
        },
        uout(es, u.update(m, true), k, x, y) == uout(es, u, k, x, y) - ind(
            m < k && es[m].from.col == x && es[m].from.row == y,
        ),
        uin(es, u.update(m, true), k, x, y) == uin(es, u, k, x, y) - ind(
            m < k && es[m].to.col == x && es[m].to.row == y,
        ),
        nused(u.update(m, true), k) == nused(u, k) + ind(m < k),
    decreases k,
{
    if k > 0 {
        lemma_mark(es, u, m, k - 1, c, r, x, y);
    }
}

proof fn lemma_unused_initial(es: Seq<GridEdge>, u: Seq<bool>, k: int, x: int, y: int)
    requires
        0 <= k <= u.len(),
        k <= es.len(),
        forall|i: int| 0 <= i < k ==> !u[i],
    ensures
        uout(es, u, k, x, y) - uin(es, u, k, x, y) == net_sum(es.take(k), x, y),
        nused(u, k) == 0,
    decreases k,
{
    if k > 0 {
        lemma_unused_initial(es, u, k - 1, x, y);
        assert(es.take(k).drop_last() =~= es.take(k - 1));
    }
}

proof fn lemma_used_initial(es: Seq<GridEdge>, u: Seq<bool>, k: int, c: int, r: int)
    requires
        0 <= k <= u.len(),
        forall|i: int| 0 <= i < k ==> !u[i],
    ensures
        used_sum(es, u, k, c, r) == 0,
    decreases k,
{
    if k > 0 {
        lemma_used_initial(es, u, k - 1, c, r);
    }
}

proof fn lemma_used_all(es: Seq<GridEdge>, u: Seq<bool>, k: int, c: int, r: int)
    requires
        0 <= k <= u.len(),
        k <= es.len(),
        forall|i: int| 0 <= i < k ==> u[i],
    ensures
        used_sum(es, u, k, c, r) == edge_sum(es.take(k), c, r),
    decreases k,
{
    if k > 0 {
        lemma_used_all(es, u, k - 1, c, r);
        assert(es.take(k).drop_last() =~= es.take(k - 1));
    }
}

proof fn lemma_no_out(es: Seq<GridEdge>, u: Seq<bool>, k: int, x: int, y: int)
    requires
        0 <= k <= u.len(),
        k <= es.len(),
        forall|i: int|
            0 <= i < k ==> u[i] || !(#[trigger] es[i].from.col == x && es[i].from.row == y),
    ensures
        uout(es, u, k, x, y) == 0,
    decreases k,
{
    if k > 0 {
        lemma_no_out(es, u, k - 1, x, y);
    }
}

proof fn lemma_counts_nonneg(es: Seq<GridEdge>, u: Seq<bool>, k: int, x: int, y: int)
    requires
        0 <= k,
    ensures
        uin(es, u, k, x, y) >= 0,
        0 <= nused(u, k) <= k,
    decreases k,
{
    if k > 0 {
        lemma_counts_nonneg(es, u, k - 1, x, y);
    }
}

proof fn lemma_path_sum_push(p: Seq<GridPt>, x: GridPt, k: int, c: int, r: int)
    requires
        0 <= k < p.len(),
    ensures
        path_sum(p.push(x), k, c, r) == path_sum(p, k, c, r),
    decreases k,
{
    if k > 0 {
        lemma_path_sum_push(p, x, k - 1, c, r);
    }
}

/// The first unused edge leaving `end`, if there is one.
fn find_next(edges: &Vec<GridEdge>, used: &Vec<bool>, end: GridPt) -> (res: Option<usize>)
    requires
        used@.len() == edges@.len(),
    ensures
        match res {
            Some(j) => j < edges@.len() && !used@[j as int] && edges@[j as int].from == end,
            None => forall|i: int|
                0 <= i < edges@.len() ==> used@[i] || !(#[trigger] edges@[i].from.col == end.col
                    && edges@[i].from.row == end.row),
        },
{
    let n = edges.len();
    let mut j: usize = 0;
    while j < n
        invariant
            n == edges@.len(),
            used@.len() == n,
            j <= n,
            forall|i: int|
                0 <= i < j ==> used@[i] || !(#[trigger] edges@[i].from.col == end.col
                    && edges@[i].from.row == end.row),
        decreases n - j,
    {
        if !used[j] && edges[j].from == end {
            return Some(j);
        }
        j = j + 1;
    }
    None
}

/// Follows unused edges from edge `start` until no unused edge leaves the
/// current corner, marking them used; returns the corners reached, in order.
/// When every corner is balanced the walk ends where it started.
/// `a` and `b` are neighbouring lattice corners.
spec fn unit_step(a: GridPt, b: GridPt) -> bool {
    ||| a.col == b.col && (a.row - b.row == 1 || b.row - a.row == 1)
    ||| a.row == b.row && (a.col - b.col == 1 || b.col - a.col == 1)
}

/// Every edge joins neighbouring corners.
spec fn edges_unit(es: Seq<GridEdge>) -> bool {
    forall|i: int| 0 <= i < es.len() ==> unit_step(#[trigger] es[i].from, es[i].to)
}

/// The closed walk `p` goes from corner to neighbouring corner, the last
/// back to the first.
spec fn cyc_unit(p: Seq<GridPt>) -> bool {
    &&& p.len() >= 2
    &&& forall|j: int| 0 <= j < p.len() ==> unit_step(#[trigger] pt(p, j), pt(p, j + 1))
}

/// Consecutive corners of the closed polygon `q` share a column or a row.
spec fn axis_cyc(q: Seq<GridPt>) -> bool {
    forall|j: int| 0 <= j < q.len() ==> {
        let a = #[trigger] pt(q, j);
        let b = pt(q, j + 1);
        a.col == b.col || a.row == b.row
    }
}

proof fn lemma_edges_unit_concat(a: Seq<GridEdge>, b: Seq<GridEdge>)
    requires
        edges_unit(a),
        edges_unit(b),
    ensures
        edges_unit(a + b),
{
    assert forall|i: int| 0 <= i < (a + b).len() implies unit_step(#[trigger] (a + b)[i].from, (a + b)[i].to) by {
        if i < a.len() {
            assert((a + b)[i] == a[i]);
        } else {
            assert((a + b)[i] == b[i - a.len()]);
        }
    }
}

proof fn lemma_cell_unit(g: GridView, c: int, r: int)
    requires
        grid_fits(g, 0),
        0 <= c < g.width,
        0 <= r < g.height,
    ensures
        edges_unit(cell_edges(g, c, r)),
{
    let f = g.get(c, r);
    let rf = g.get(c + 1, r);
    let bf = g.get(c, r + 1);
    let e1 = if f && !rf {
        seq![ge(gp(c + 1, r), gp(c + 1, r + 1))]
    } else if !f && rf {
        seq![ge(gp(c + 1, r + 1), gp(c + 1, r))]
    } else {
        seq![]
    };
    let e2 = if f && !bf {
        seq![ge(gp(c + 1, r + 1), gp(c, r + 1))]
    } else if !f && bf {
        seq![ge(gp(c, r + 1), gp(c + 1, r + 1))]
    } else {
        seq![]
    };
    let e3: Seq<GridEdge> = if r == 0 && f { seq![ge(gp(c, 0), gp(c + 1, 0))] } else { seq![] };
    let e4: Seq<GridEdge> = if c == 0 && f { seq![ge(gp(0, r + 1), gp(0, r))] } else { seq![] };
    assert(cell_edges(g, c, r) == e1 + e2 + e3 + e4);
    assert(edges_unit(e1));
    assert(edges_unit(e2));
    assert(edges_unit(e3));
    assert(edges_unit(e4));
    lemma_edges_unit_concat(e1, e2);
    lemma_edges_unit_concat(e1 + e2, e3);
    lemma_edges_unit_concat(e1 + e2 + e3, e4);
}

proof fn lemma_row_unit(g: GridView, rr: int, k: int)
    requires
        grid_fits(g, 0),
        0 <= k <= g.width,
        0 <= rr < g.height,
    ensures
        edges_unit(row_edges(g, rr, k)),
    decreases k,
{
    if k > 0 {
        lemma_row_unit(g, rr, k - 1);
        lemma_cell_unit(g, k - 1, rr);
        lemma_edges_unit_concat(row_edges(g, rr, k - 1), cell_edges(g, k - 1, rr));
    }
}

proof fn lemma_rows_unit(g: GridView, m: int)
    requires
        grid_fits(g, 0),
        0 <= m <= g.height,
    ensures
        edges_unit(rows_edges(g, m)),
    decreases m,
{
    if m > 0 {
        lemma_rows_unit(g, m - 1);
        lemma_row_unit(g, m - 1, g.width as int);
        lemma_edges_unit_concat(rows_edges(g, m - 1), row_edges(g, m - 1, g.width as int));
    }
}

/// Along a run of straight corners from `a` to `b`, the walk keeps one
/// direction, so `a` and `b` share a column or a row.
proof fn lemma_straight_run(p: Seq<GridPt>, a: int, b: int)
    requires
        cyc_unit(p),
        a < b,
        forall|j: int| a < j < b ==> #[trigger] straight(p, j),
    ensures
        pt(p, b).col - pt(p, b - 1).col == pt(p, a + 1).col - pt(p, a).col,
        pt(p, b).row - pt(p, b - 1).row == pt(p, a + 1).row - pt(p, a).row,
        pt(p, a + 1).col == pt(p, a).col ==> pt(p, b).col == pt(p, a).col,
        pt(p, a + 1).row == pt(p, a).row ==> pt(p, b).row == pt(p, a).row,
    decreases b - a,
{
    if b > a + 1 {
        lemma_straight_run(p, a, b - 1);
        assert(straight(p, b - 1));
    }
}

/// The direction the boundary edge on the unit segment of `e` must take: with
/// the filled pixel on its right (screen coordinates), the empty one on its
/// left.
spec fn canonical(g: GridView, e: GridEdge) -> bool {
    let a = e.from;
    let b = e.to;
    if a.col == b.col {
        let x = a.col as int;
        let r = if a.row < b.row { a.row as int } else { b.row as int };
        let left = g.get(x - 1, r);
        let right = g.get(x, r);
        ||| left && !right && a.row == r && b.row == r + 1
        ||| !left && right && a.row == r + 1 && b.row == r
    } else {
        let y = a.row as int;
        let c = if a.col < b.col { a.col as int } else { b.col as int };
        let up = g.get(c, y - 1);
        let down = g.get(c, y);
        ||| up && !down && a.row == b.row && a.col == c + 1 && b.col == c
        ||| !up && down && a.row == b.row && a.col == c && b.col == c + 1
    }
}

spec fn edges_canonical(g: GridView, es: Seq<GridEdge>) -> bool {
    forall|i: int| 0 <= i < es.len() ==> canonical(g, #[trigger] es[i])
}

/// No edge of `es` is the reverse of another.
spec fn no_reverse(es: Seq<GridEdge>) -> bool {
    forall|i: int, j: int|
        0 <= i < es.len() && 0 <= j < es.len() ==> !(#[trigger] es[i].from == #[trigger] es[j].to && es[i].to
            == es[j].from)
}

proof fn lemma_canonical_concat(g: GridView, a: Seq<GridEdge>, b: Seq<GridEdge>)
    requires
        edges_canonical(g, a),
        edges_canonical(g, b),
    ensures
        edges_canonical(g, a + b),
{
    assert forall|i: int| 0 <= i < (a + b).len() implies canonical(g, #[trigger] (a + b)[i]) by {
        if i < a.len() {
            assert((a + b)[i] == a[i]);
        } else {
            assert((a + b)[i] == b[i - a.len()]);
        }
    }
}

proof fn lemma_cell_canonical(g: GridView, c: int, r: int)
    requires
        grid_fits(g, 0),
        0 <= c < g.width,
        0 <= r < g.height,
    ensures
        edges_canonical(g, cell_edges(g, c, r)),
{
    let f = g.get(c, r);
    let rf = g.get(c + 1, r);
    let bf = g.get(c, r + 1);
    let e1 = if f && !rf {
        seq![ge(gp(c + 1, r), gp(c + 1, r + 1))]
    } else if !f && rf {
        seq![ge(gp(c + 1, r + 1), gp(c + 1, r))]
    } else {
        seq![]
    };
    let e2 = if f && !bf {
        seq![ge(gp(c + 1, r + 1), gp(c, r + 1))]
    } else if !f && bf {
        seq![ge(gp(c, r + 1), gp(c + 1, r + 1))]
    } else {
        seq![]
    };
    let e3: Seq<GridEdge> = if r == 0 && f { seq![ge(gp(c, 0), gp(c + 1, 0))] } else { seq![] };
    let e4: Seq<GridEdge> = if c == 0 && f { seq![ge(gp(0, r + 1), gp(0, r))] } else { seq![] };
    assert(cell_edges(g, c, r) == e1 + e2 + e3 + e4);
    assert(!g.get(c, -1));
    assert(!g.get(-1, r));
    assert(edges_canonical(g, e1));
    assert(edges_canonical(g, e2));
    assert(edges_canonical(g, e3));
    assert(edges_canonical(g, e4));
    lemma_canonical_concat(g, e1, e2);
    lemma_canonical_concat(g, e1 + e2, e3);
    lemma_canonical_concat(g, e1 + e2 + e3, e4);
}

proof fn lemma_row_canonical(g: GridView, rr: int, k: int)
    requires
        grid_fits(g, 0),
        0 <= k <= g.width,
        0 <= rr < g.height,
    ensures
        edges_canonical(g, row_edges(g, rr, k)),
    decreases k,
{
    if k > 0 {
        lemma_row_canonical(g, rr, k - 1);
        lemma_cell_canonical(g, k - 1, rr);
        lemma_canonical_concat(g, row_edges(g, rr, k - 1), cell_edges(g, k - 1, rr));
    }
}

proof fn lemma_rows_canonical(g: GridView, m: int)
    requires
        grid_fits(g, 0),
        0 <= m <= g.height,
    ensures
        edges_canonical(g, rows_edges(g, m)),
    decreases m,
{
    if m > 0 {
        lemma_rows_canonical(g, m - 1);
        lemma_row_canonical(g, m - 1, g.width as int);
        lemma_canonical_concat(g, rows_edges(g, m - 1), row_edges(g, m - 1, g.width as int));
    }
}

/// Each unit segment has one canonical direction, so the boundary edges hold
/// no edge together with its reverse.
proof fn lemma_canonical_no_reverse(g: GridView, es: Seq<GridEdge>)
    requires
        edges_canonical(g, es),
        edges_unit(es),
    ensures
        no_reverse(es),
{
    assert forall|i: int, j: int|
        0 <= i < es.len() && 0 <= j < es.len() implies !(#[trigger] es[i].from == #[trigger] es[j].to
        && es[i].to == es[j].from) by {
        assert(canonical(g, es[i]));
        assert(canonical(g, es[j]));
        assert(unit_step(es[i].from, es[i].to));
    }
}

/// One of the edges `es` goes from `a` to `b`.
spec fn step_in(es: Seq<GridEdge>, a: GridPt, b: GridPt) -> bool {
    exists|i: int| 0 <= i < es.len() && (#[trigger] es[i]).from == a && es[i].to == b
}

/// Every step of the closed walk `p`, the closing one included, is an edge.
spec fn cyc_steps(es: Seq<GridEdge>, p: Seq<GridPt>) -> bool {
    forall|j: int| 0 <= j < p.len() ==> step_in(es, #[trigger] pt(p, j), pt(p, j + 1))
}

/// `p` is where one of the edges `es` ends.
spec fn edge_end(es: Seq<GridEdge>, p: GridPt) -> bool {
    exists|i: int| 0 <= i < es.len() && #[trigger] es[i].to == p
}

/// `p` is one of the points `q`.
spec fn among(q: Seq<GridPt>, p: GridPt) -> bool {
    exists|j: int| 0 <= j < q.len() && #[trigger] q[j] == p
}

/// The font point `p` is where one of the edges `es` ends.
spec fn font_edge_end(es: Seq<GridEdge>, ascent: int, p: Point) -> bool {
    exists|i: int| 0 <= i < es.len() && p == font_pt(#[trigger] es[i].to, ascent)
}

fn walk_loop(
    edges: &Vec<GridEdge>,
    used: &mut Vec<bool>,
    start: usize,
    Ghost(bal): Ghost<bool>,
    Ghost(w): Ghost<int>,
    Ghost(h): Ghost<int>,
) -> (pts: Vec<GridPt>)
    requires
        old(used)@.len() == edges@.len(),
        start < edges@.len(),
        !old(used)@[start as int],
        edges_on_lattice(edges@, w, h),
        edges_unit(edges@),
        bal ==> forall|x: int, y: int|
            #[trigger] uout(edges@, old(used)@, edges@.len() as int, x, y) == uin(
                edges@,
                old(used)@,
                edges@.len() as int,
                x,
                y,
            ),
    ensures
        final(used)@.len() == edges@.len(),
        forall|i: int| 0 <= i < edges@.len() && old(used)@[i] ==> final(used)@[i],
        final(used)@[start as int],
        pts@.len() >= 1,
        forall|j: int| 0 <= j < pts@.len() ==> on_lattice(#[trigger] pts@[j], w, h),
        forall|j: int| 0 <= j < pts@.len() ==> edge_end(edges@, #[trigger] pts@[j]),
        bal ==> cyc_unit(pts@),
        bal ==> cyc_steps(edges@, pts@),
        nused(final(used)@, edges@.len() as int) == nused(old(used)@, edges@.len() as int)
            + pts@.len(),
        bal ==> forall|x: int, y: int|
            #[trigger] uout(edges@, final(used)@, edges@.len() as int, x, y) == uin(
                edges@,
                final(used)@,
                edges@.len() as int,
                x,
                y,
            ),
        bal ==> forall|c: int, r: int|
            #[trigger] used_sum(edges@, final(used)@, edges@.len() as int, c, r) == used_sum(
                edges@,
                old(used)@,
                edges@.len() as int,
                c,
                r,
            ) + cyc_sum(pts@, c, r),
{
    let n = edges.len();
    let ghost es = edges@;
    let ghost nn = n as int;
    let ghost u0 = used@;
    let ghost s0 = edges@[start as int].from;
    let mut loop_pts: Vec<GridPt> = Vec::new();
    let mut current_idx = start;
    proof {
        lemma_counts_nonneg(es, used@, nn, 0, 0);
    }
    loop
        invariant_except_break
            current_idx < n,
            !used@[current_idx as int],
            loop_pts@.len() == 0 ==> current_idx == start && used@ == u0,
            loop_pts@.len() > 0 ==> edges@[current_idx as int].from == loop_pts@.last(),
        invariant
            n == edges@.len(),
            es == edges@,
            nn == n,
            start < n,
            u0.len() == n,
            !u0[start as int],
            s0 == es[start as int].from,
            used@.len() == n,
            edges_on_lattice(es, w, h),
            forall|i: int| 0 <= i < n && u0[i] ==> used@[i],
            loop_pts@.len() > 0 ==> used@[start as int],
            loop_pts@.len() > 0 ==> loop_pts@[0] == es[start as int].to,
            forall|j: int| 0 <= j < loop_pts@.len() ==> on_lattice(#[trigger] loop_pts@[j], w, h),
            forall|j: int| 0 <= j < loop_pts@.len() ==> edge_end(es, #[trigger] loop_pts@[j]),
            edges_unit(es),
            forall|j: int| 0 <= j < loop_pts@.len() - 1 ==> #[trigger] unit_step(loop_pts@[j], loop_pts@[j + 1]),
            forall|j: int| 0 <= j < loop_pts@.len() - 1 ==> #[trigger] step_in(es, loop_pts@[j], loop_pts@[j + 1]),
            nused(used@, nn) == nused(u0, nn) + loop_pts@.len(),
            0 <= nused(used@, nn) <= nn,
            bal ==> forall|x: int, y: int|
                #[trigger] uout(es, used@, nn, x, y) - uin(es, used@, nn, x, y) == if loop_pts@.len()
                    > 0 {
                    ind(x == loop_pts@.last().col && y == loop_pts@.last().row) - ind(
                        x == s0.col && y == s0.row,
                    )
                } else {
                    0
                },
            bal ==> forall|c: int, r: int|
                #[trigger] used_sum(es, used@, nn, c, r) == used_sum(es, u0, nn, c, r) + if loop_pts@.len()
                    > 0 {
                    gcross(es[start as int], c, r) + path_sum(loop_pts@, loop_pts@.len() - 1, c, r)
                } else {
                    0
                },
        ensures
            loop_pts@.len() >= 1,
            bal ==> loop_pts@.last() == s0,
        decreases nn - nused(used@, nn),
    {
        if used[current_idx] {
            break ;
        }
        let ghost ub = used@;
        let ghost pb = loop_pts@;
        used.set(current_idx, true);
        let end = edges[current_idx].to;
        loop_pts.push(end);
        proof {
            assert(es[current_idx as int].to == end);
            assert(edge_end(es, end));
            assert(unit_step(es[current_idx as int].from, es[current_idx as int].to));
            assert forall|j: int| 0 <= j < loop_pts@.len() - 1 implies #[trigger] step_in(
                es,
                loop_pts@[j],
                loop_pts@[j + 1],
            ) by {
                if j < pb.len() - 1 {
                    assert(loop_pts@[j] == pb[j]);
                    assert(loop_pts@[j + 1] == pb[j + 1]);
                    assert(step_in(es, pb[j], pb[j + 1]));
                } else {
                    assert(loop_pts@[j] == pb.last());
                    assert(loop_pts@[j + 1] == end);
                    assert(es[current_idx as int].from == pb.last());
                    assert(step_in(es, pb.last(), end));
                }
            }
            assert forall|j: int| 0 <= j < loop_pts@.len() - 1 implies #[trigger] unit_step(
                loop_pts@[j],
                loop_pts@[j + 1],
            ) by {
                if j < pb.len() - 1 {
                    assert(loop_pts@[j] == pb[j]);
                    assert(loop_pts@[j + 1] == pb[j + 1]);
                    assert(unit_step(pb[j], pb[j + 1]));
                } else {
                    assert(loop_pts@[j] == pb.last());
                    assert(loop_pts@[j + 1] == end);
                }
            }
            assert forall|j: int| 0 <= j < loop_pts@.len() implies edge_end(es, #[trigger] loop_pts@[j]) by {
                if j < pb.len() {
                    assert(loop_pts@[j] == pb[j]);
                } else {
                    assert(loop_pts@[j] == end);
                }
            }
            let m = current_idx as int;
            assert(used@ == ub.update(m, true));
            lemma_mark(es, ub, m, nn, 0, 0, 0, 0);
            lemma_counts_nonneg(es, used@, nn, 0, 0);
            if bal {
                assert forall|x: int, y: int|
                    #[trigger] uout(es, used@, nn, x, y) - uin(es, used@, nn, x, y) == ind(
                        x == end.col && y == end.row,
                    ) - ind(x == s0.col && y == s0.row) by {
                    lemma_mark(es, ub, m, nn, 0, 0, x, y);
                }
                assert forall|c: int, r: int|
                    #[trigger] used_sum(es, used@, nn, c, r) == used_sum(es, u0, nn, c, r) + gcross(
                        es[start as int],
                        c,
                        r,
                    ) + path_sum(loop_pts@, loop_pts@.len() - 1, c, r) by {
                    lemma_mark(es, ub, m, nn, c, r, 0, 0);
                    if pb.len() > 0 {
                        lemma_path_sum_push(pb, end, pb.len() - 1, c, r);
                        assert(loop_pts@ == pb.push(end));
                        assert(es[m] == ge(pb.last(), end));
                    }
                }
            }
        }
        // Find next unused edge starting from `end`
        match find_next(edges, used, end) {
            Some(ci) => {
                current_idx = ci;
            },
            None => {
                proof {
                    if bal {
                        lemma_no_out(es, used@, nn, end.col as int, end.row as int);
                        lemma_counts_nonneg(es, used@, nn, end.col as int, end.row as int);
                        assert(uout(es, used@, nn, end.col as int, end.row as int) - uin(
                            es,
                            used@,
                            nn,
                            end.col as int,
                            end.row as int,
                        ) == 1 - ind(end.col == s0.col && end.row == s0.row));
                    }
                }
                break ;
            },
        }
    }
    proof {
        if bal {
            let q = loop_pts@;
            let n1 = q.len() as int;
            assert(unit_step(es[start as int].from, es[start as int].to));
            assert(q.last() == s0 && q[0] == es[start as int].to);
            assert(n1 >= 2);
            assert forall|j: int| 0 <= j < n1 implies step_in(es, #[trigger] pt(q, j), pt(q, j + 1)) by {
                lemma_pt_in_range(q, j);
                if j < n1 - 1 {
                    lemma_pt_in_range(q, j + 1);
                    assert(step_in(es, q[j], q[j + 1]));
                } else {
                    lemma_pt_shift(q, 0);
                    lemma_pt_in_range(q, 0);
                    assert(pt(q, j + 1) == q[0]);
                    assert(step_in(es, q[j], q[0]));
                }
            }
            assert forall|j: int| 0 <= j < n1 implies unit_step(#[trigger] pt(q, j), pt(q, j + 1)) by {
                lemma_pt_in_range(q, j);
                if j < n1 - 1 {
                    lemma_pt_in_range(q, j + 1);
                    assert(unit_step(q[j], q[j + 1]));
                } else {
                    lemma_pt_shift(q, 0);
                    lemma_pt_in_range(q, 0);
                    assert(pt(q, j + 1) == q[0]);
                }
            }
            assert forall|x: int, y: int|
                #[trigger] uout(es, used@, nn, x, y) == uin(es, used@, nn, x, y) by {
                assert(uout(es, used@, nn, x, y) - uin(es, used@, nn, x, y) == ind(
                    x == loop_pts@.last().col && y == loop_pts@.last().row,
                ) - ind(x == s0.col && y == s0.row));
            }
            assert forall|c: int, r: int|
                #[trigger] used_sum(es, used@, nn, c, r) == used_sum(es, u0, nn, c, r) + cyc_sum(
                    loop_pts@,
                    c,
                    r,
                ) by {
                assert(es[start as int] == ge(s0, loop_pts@[0]));
            }
        }
    }
    loop_pts
}

/// Keeps only the corners of a closed loop: the points where the direction
/// changes (no collinear intermediate points).
/// Corners kept after dropping the straight ones, in order, are joined by
/// straight runs, so consecutive kept corners share a column or a row.
proof fn lemma_simplified_axis(p: Seq<GridPt>, q: Seq<GridPt>, ks: Seq<int>)
    requires
        cyc_unit(p),
        q.len() == ks.len(),
        forall|t: int| 0 <= t < ks.len() ==> 0 <= #[trigger] ks[t] < p.len(),
        forall|t: int| 0 <= t < ks.len() ==> q[t] == p[#[trigger] ks[t]],
        forall|s: int, t: int| 0 <= s < t < ks.len() ==> ks[s] < ks[t],
        forall|j: int| 0 <= j < p.len() && !ks.contains(j) ==> #[trigger] straight(p, j),
    ensures
        axis_cyc(q),
{
    let n = p.len() as int;
    let m = q.len() as int;
    assert forall|t: int| 0 <= t < m implies {
        let a = #[trigger] pt(q, t);
        let b = pt(q, t + 1);
        a.col == b.col || a.row == b.row
    } by {
        lemma_pt_in_range(q, t);
        lemma_pt_in_range(p, ks[t]);
        if t < m - 1 {
            lemma_pt_in_range(q, t + 1);
            lemma_pt_in_range(p, ks[t + 1]);
            assert forall|j: int| ks[t] < j < ks[t + 1] implies #[trigger] straight(p, j) by {
                if ks.contains(j) {
                    let u = choose|u: int| 0 <= u < ks.len() && ks[u] == j;
                    if u <= t {
                        if u < t {
                            assert(ks[u] < ks[t]);
                        }
                    } else if u >= t + 1 {
                        if u > t + 1 {
                            assert(ks[t + 1] < ks[u]);
                        }
                    }
                }
            }
            lemma_straight_run(p, ks[t], ks[t + 1]);
            assert(unit_step(pt(p, ks[t]), pt(p, ks[t] + 1)));
        } else {
            lemma_pt_shift(q, 0);
            lemma_pt_in_range(q, 0);
            lemma_pt_in_range(p, ks[0]);
            lemma_pt_shift(p, ks[0]);
            assert(pt(q, t + 1) == q[0]);
            assert forall|j: int| ks[t] < j < ks[0] + n implies #[trigger] straight(p, j) by {
                if j < n {
                    if ks.contains(j) {
                        let u = choose|u: int| 0 <= u < ks.len() && ks[u] == j;
                        if u < t {
                            assert(ks[u] < ks[t]);
                        }
                    }
                    assert(straight(p, j));
                } else {
                    let jj = j - n;
                    if ks.contains(jj) {
                        let u = choose|u: int| 0 <= u < ks.len() && ks[u] == jj;
                        if u > 0 {
                            assert(ks[0] < ks[u]);
                        }
                    }
                    assert(straight(p, jj));
                    lemma_pt_shift(p, jj - 1);
                    lemma_pt_shift(p, jj);
                    lemma_pt_shift(p, jj + 1);
                    assert(pt(p, j - 1) == pt(p, jj - 1));
                    assert(pt(p, j) == pt(p, jj));
                    assert(pt(p, j + 1) == pt(p, jj + 1));
                }
            }
            lemma_straight_run(p, ks[t], ks[0] + n);
            assert(unit_step(pt(p, ks[t]), pt(p, ks[t] + 1)));
        }
    }
}

/// The step of the closed walk `p` leaving its `i`-th corner.
spec fn dir(p: Seq<GridPt>, i: int) -> (int, int) {
    (pt(p, i + 1).col - pt(p, i).col, pt(p, i + 1).row - pt(p, i).row)
}

/// `a` to `b` is a horizontal side of non-zero length.
spec fn hz(a: GridPt, b: GridPt) -> bool {
    a.row == b.row && a.col != b.col
}

/// `a` to `b` is a vertical side of non-zero length.
spec fn vt(a: GridPt, b: GridPt) -> bool {
    a.col == b.col && a.row != b.row
}

/// Every corner of the closed polygon `q` joins a horizontal and a vertical
/// side: sides have non-zero length and alternate in direction.
spec fn corners_cyc(q: Seq<GridPt>) -> bool {
    forall|t: int|
        0 <= t < q.len() ==> {
            let a = #[trigger] pt(q, t);
            let b = pt(q, t + 1);
            let c = pt(q, t + 2);
            (hz(a, b) && vt(b, c)) || (vt(a, b) && hz(b, c))
        }
}

proof fn lemma_pt_mod(p: Seq<GridPt>, j: int)
    requires
        p.len() > 0,
    ensures
        pt(p, j) == pt(p, j % (p.len() as int)),
        pt(p, j + 1) == pt(p, j % (p.len() as int) + 1),
        0 <= j % (p.len() as int) < p.len(),
{
    let n = p.len() as int;
    vstd::arithmetic::div_mod::lemma_mod_twice(j, n);
    vstd::arithmetic::div_mod::lemma_add_mod_noop(j, 1, n);
    vstd::arithmetic::div_mod::lemma_add_mod_noop(j % n, 1, n);
    vstd::arithmetic::div_mod::lemma_mod_twice(j % n, n);
    vstd::arithmetic::div_mod::lemma_mod_twice(1, n);
}

/// Every step of the walk, at any index, goes to a neighbouring corner along
/// an edge.
proof fn lemma_cyc_any(es: Seq<GridEdge>, p: Seq<GridPt>, j: int)
    requires
        cyc_unit(p),
        cyc_steps(es, p),
    ensures
        unit_step(pt(p, j), pt(p, j + 1)),
        step_in(es, pt(p, j), pt(p, j + 1)),
{
    lemma_pt_mod(p, j);
    let k = j % (p.len() as int);
    assert(unit_step(pt(p, k), pt(p, k + 1)));
    assert(step_in(es, pt(p, k), pt(p, k + 1)));
}

/// At a corner that is not straight, the walk turns a quarter: it cannot turn
/// back, since that would use an edge and its reverse.
proof fn lemma_turn(es: Seq<GridEdge>, p: Seq<GridPt>, b: int)
    requires
        cyc_unit(p),
        cyc_steps(es, p),
        no_reverse(es),
        !straight(p, b),
    ensures
        (dir(p, b - 1).0 == 0) != (dir(p, b).0 == 0),
{
    lemma_cyc_any(es, p, b - 1);
    lemma_cyc_any(es, p, b);
    if (dir(p, b - 1).0 == 0) == (dir(p, b).0 == 0) {
        // Same axis, not the same step: the walk turns back.
        assert(pt(p, b + 1) == pt(p, b - 1));
        let i = choose|i: int| 0 <= i < es.len() && (#[trigger] es[i]).from == pt(p, b - 1) && es[i].to == pt(p, b);
        let j = choose|j: int| 0 <= j < es.len() && (#[trigger] es[j]).from == pt(p, b) && es[j].to == pt(p, b + 1);
        assert(es[i].from == es[j].to && es[i].to == es[j].from);
    }
}

/// Along a run of straight corners the walk keeps its first step, so the run
/// ends `b - a` steps away from its start along one axis.
proof fn lemma_run_steps(es: Seq<GridEdge>, p: Seq<GridPt>, a: int, b: int)
    requires
        cyc_unit(p),
        cyc_steps(es, p),
        a < b,
        forall|j: int| a < j < b ==> #[trigger] straight(p, j),
    ensures
        dir(p, b - 1) == dir(p, a),
        dir(p, a).0 == 0 ==> vt(pt(p, a), pt(p, b)),
        dir(p, a).0 != 0 ==> hz(pt(p, a), pt(p, b)),
        dir(p, a).0 == 0 ==> (dir(p, a).1 == 1 ==> pt(p, b).row - pt(p, a).row == b - a) && (dir(p, a).1
            == -1 ==> pt(p, b).row - pt(p, a).row == a - b),
        dir(p, a).0 != 0 ==> (dir(p, a).0 == 1 ==> pt(p, b).col - pt(p, a).col == b - a) && (dir(p, a).0
            == -1 ==> pt(p, b).col - pt(p, a).col == a - b),
    decreases b - a,
{
    lemma_cyc_any(es, p, a);
    if b > a + 1 {
        lemma_run_steps(es, p, a, b - 1);
        assert(straight(p, b - 1));
    }
}

/// The corners kept by the simplification are joined by sides of non-zero
/// length that alternate between horizontal and vertical, and there are an
/// even number of them.
proof fn lemma_simplified_corners(es: Seq<GridEdge>, p: Seq<GridPt>, q: Seq<GridPt>, ks: Seq<int>)
    requires
        cyc_unit(p),
        cyc_steps(es, p),
        no_reverse(es),
        q.len() == ks.len(),
        q.len() >= 3,
        forall|t: int| 0 <= t < ks.len() ==> 0 <= #[trigger] ks[t] < p.len(),
        forall|t: int| 0 <= t < ks.len() ==> q[t] == p[#[trigger] ks[t]],
        forall|s: int, t: int| 0 <= s < t < ks.len() ==> ks[s] < ks[t],
        forall|j: int| 0 <= j < p.len() && !ks.contains(j) ==> #[trigger] straight(p, j),
        forall|t: int| 0 <= t < ks.len() ==> !straight(p, #[trigger] ks[t]),
    ensures
        corners_cyc(q),
        q.len() % 2 == 0,
{
    let n = p.len() as int;
    let m = q.len() as int;
    // The run of side t goes from index `st(t)` to `en(t)` of the walk.
    assert forall|t: int| 0 <= t < m implies side_run(es, p, q, ks, t) by {
        lemma_side_run(es, p, q, ks, t);
    }
    assert forall|t: int| 0 <= t < m implies {
        let a = #[trigger] pt(q, t);
        let b = pt(q, t + 1);
        let c = pt(q, t + 2);
        (hz(a, b) && vt(b, c)) || (vt(a, b) && hz(b, c))
    } by {
        let t1 = if t + 1 < m { t + 1 } else { 0 };
        assert(side_run(es, p, q, ks, t));
        assert(side_run(es, p, q, ks, t1));
        lemma_pt_shift(q, t1);
        lemma_pt_shift(q, t1 + 1);
        assert(pt(q, t + 1) == pt(q, t1));
        assert(pt(q, t + 2) == pt(q, t1 + 1));
        let e = if t < m - 1 { ks[t + 1] } else { ks[0] + n };
        lemma_pt_shift(p, ks[t1]);
        lemma_pt_shift(p, ks[t1] + 1);
        assert(pt(p, e) == pt(p, ks[t1]));
        assert(pt(p, e + 1) == pt(p, ks[t1] + 1));
        assert(!straight(p, ks[t1]));
        lemma_pt_shift(p, ks[t1] - 1);
        assert(straight(p, e) == straight(p, ks[t1]));
        lemma_turn(es, p, e);
    }
    lemma_even_sides(q);
}

/// Side `t` of the kept corners runs straight along the walk from corner
/// `ks[t]` to the next kept corner, turning at its end.
spec fn side_run(es: Seq<GridEdge>, p: Seq<GridPt>, q: Seq<GridPt>, ks: Seq<int>, t: int) -> bool {
    let n = p.len() as int;
    let m = q.len() as int;
    let st = ks[t];
    let en = if t < m - 1 { ks[t + 1] } else { ks[0] + n };
    &&& pt(q, t) == pt(p, st)
    &&& pt(q, t + 1) == pt(p, en)
    &&& st < en
    &&& dir(p, en - 1) == dir(p, st)
    &&& (dir(p, st).0 == 0 ==> vt(pt(p, st), pt(p, en)))
    &&& (dir(p, st).0 != 0 ==> hz(pt(p, st), pt(p, en)))
}

proof fn lemma_side_run(es: Seq<GridEdge>, p: Seq<GridPt>, q: Seq<GridPt>, ks: Seq<int>, t: int)
    requires
        cyc_unit(p),
        cyc_steps(es, p),
        q.len() == ks.len(),
        q.len() >= 3,
        0 <= t < q.len(),
        forall|t: int| 0 <= t < ks.len() ==> 0 <= #[trigger] ks[t] < p.len(),
        forall|t: int| 0 <= t < ks.len() ==> q[t] == p[#[trigger] ks[t]],
        forall|s: int, t: int| 0 <= s < t < ks.len() ==> ks[s] < ks[t],
        forall|j: int| 0 <= j < p.len() && !ks.contains(j) ==> #[trigger] straight(p, j),
    ensures
        side_run(es, p, q, ks, t),
{
    let n = p.len() as int;
    let m = q.len() as int;
    lemma_pt_in_range(q, t);
    lemma_pt_in_range(p, ks[t]);
    if t < m - 1 {
        lemma_pt_in_range(q, t + 1);
        lemma_pt_in_range(p, ks[t + 1]);
        assert forall|j: int| ks[t] < j < ks[t + 1] implies #[trigger] straight(p, j) by {
            if ks.contains(j) {
                let u = choose|u: int| 0 <= u < ks.len() && ks[u] == j;
                if u < t {
                    assert(ks[u] < ks[t]);
                } else if u > t + 1 {
                    assert(ks[t + 1] < ks[u]);
                }
            }
        }
        lemma_run_steps(es, p, ks[t], ks[t + 1]);
    } else {
        lemma_pt_shift(q, 0);
        lemma_pt_in_range(q, 0);
        lemma_pt_in_range(p, ks[0]);
        lemma_pt_shift(p, ks[0]);
        assert(pt(q, t + 1) == q[0]);
        assert(ks[0] <= ks[t]);
        assert forall|j: int| ks[t] < j < ks[0] + n implies #[trigger] straight(p, j) by {
            if j < n {
                if ks.contains(j) {
                    let u = choose|u: int| 0 <= u < ks.len() && ks[u] == j;
                    if u < t {
                        assert(ks[u] < ks[t]);
                    }
                }
                assert(straight(p, j));
            } else {
                let jj = j - n;
                if ks.contains(jj) {
                    let u = choose|u: int| 0 <= u < ks.len() && ks[u] == jj;
                    if u > 0 {
                        assert(ks[0] < ks[u]);
                    }
                }
                assert(straight(p, jj));
                lemma_pt_shift(p, jj - 1);
                lemma_pt_shift(p, jj);
                lemma_pt_shift(p, jj + 1);
                assert(pt(p, j - 1) == pt(p, jj - 1));
                assert(pt(p, j) == pt(p, jj));
                assert(pt(p, j + 1) == pt(p, jj + 1));
            }
        }
        lemma_run_steps(es, p, ks[t], ks[0] + n);
    }
}

/// Sides that alternate between horizontal and vertical around a closed
/// polygon come in an even number.
proof fn lemma_even_sides(q: Seq<GridPt>)
    requires
        q.len() >= 1,
        corners_cyc(q),
    ensures
        q.len() % 2 == 0,
{
    let m = q.len() as int;
    let h0 = hz(pt(q, 0), pt(q, 1));
    lemma_alternate(q, m);
    lemma_pt_shift(q, 0);
    lemma_pt_shift(q, 1);
    assert(pt(q, m) == pt(q, 0));
    assert(pt(q, m + 1) == pt(q, 1));
}

proof fn lemma_alternate(q: Seq<GridPt>, t: int)
    requires
        q.len() >= 1,
        corners_cyc(q),
        0 <= t <= q.len(),
    ensures
        hz(pt(q, t), pt(q, t + 1)) == (hz(pt(q, 0), pt(q, 1)) == (t % 2 == 0)),
    decreases t,
{
    if t > 0 {
        lemma_alternate(q, t - 1);
        assert(0 <= t - 1 < q.len());
        let a = pt(q, t - 1);
        assert((hz(a, pt(q, t)) && vt(pt(q, t), pt(q, t + 1))) || (vt(a, pt(q, t)) && hz(pt(q, t), pt(q, t + 1))));
    }
}

fn simplify_loop(
    loop_pts: &Vec<GridPt>,
    Ghost(w): Ghost<int>,
    Ghost(h): Ghost<int>,
    Ghost(es): Ghost<Seq<GridEdge>>,
) -> (simplified: Vec<GridPt>)
    requires
        loop_pts@.len() >= 1,
        w * 10 <= i32::MAX,
        h * 10 <= i32::MAX,
        forall|j: int| 0 <= j < loop_pts@.len() ==> on_lattice(#[trigger] loop_pts@[j], w, h),
    ensures
        simplified@.len() <= loop_pts@.len(),
        forall|j: int| 0 <= j < simplified@.len() ==> on_lattice(#[trigger] simplified@[j], w, h),
        forall|j: int| 0 <= j < simplified@.len() ==> among(loop_pts@, #[trigger] simplified@[j]),
        cyc_unit(loop_pts@) ==> axis_cyc(simplified@),
        cyc_unit(loop_pts@) && cyc_steps(es, loop_pts@) && no_reverse(es) && simplified@.len() >= 3
            ==> corners_cyc(simplified@) && simplified@.len() % 2 == 0,
        forall|c: int, r: int| #[trigger] cyc_sum(simplified@, c, r) == cyc_sum(loop_pts@, c, r),
{
    let n = loop_pts.len();
    let ghost p = loop_pts@;
    let mut simplified: Vec<GridPt> = Vec::new();
    let ghost mut ks: Seq<int> = seq![];
    let mut i: usize = 0;
    while i < n
        invariant
            n == p.len(),
            p == loop_pts@,
            i <= n,
            n >= 1,
            w * 10 <= i32::MAX,
            h * 10 <= i32::MAX,
            forall|j: int| 0 <= j < p.len() ==> on_lattice(#[trigger] p[j], w, h),
            simplified@.len() == ks.len(),
            forall|t: int| 0 <= t < ks.len() ==> 0 <= #[trigger] ks[t] < i,
            forall|t: int| 0 <= t < ks.len() ==> simplified@[t] == p[#[trigger] ks[t]],
            forall|s: int, t: int| 0 <= s < t < ks.len() ==> ks[s] < ks[t],
            forall|j: int| 0 <= j < i && !ks.contains(j) ==> #[trigger] straight(p, j),
            forall|t: int| 0 <= t < ks.len() ==> !straight(p, #[trigger] ks[t]),
        decreases n - i,
    {
        let prev = if i == 0 {
            loop_pts[n - 1]
        } else {
            loop_pts[i - 1]
        };
        let curr = loop_pts[i];
        let next = loop_pts[(i + 1) % n];
        // Keep point if direction changes (it's a corner)
        let dx1 = curr.col - prev.col;
        let dy1 = curr.row - prev.row;
        let dx2 = next.col - curr.col;
        let dy2 = next.row - curr.row;
        proof {
            let ii = i as int;
            lemma_pt_in_range(p, ii);
            if ii == 0 {
                lemma_pt_shift(p, n - 1);
                lemma_pt_in_range(p, n - 1);
            } else {
                lemma_pt_in_range(p, ii - 1);
            }
            assert(pt(p, ii + 1) == p[(ii + 1) % (n as int)]);
        }
        let ghost ks_before = ks;
        proof {
            if !(dx1 != dx2 || dy1 != dy2) {
                assert(straight(p, i as int));
            }
        }
        if dx1 != dx2 || dy1 != dy2 {
            simplified.push(curr);
            proof {
                assert(!straight(p, i as int));
                ks = ks.push(i as int);
            }
        } else {
            proof {
                assert(straight(p, i as int));
            }
        }
        proof {
            assert forall|j: int| 0 <= j < i + 1 && !ks.contains(j) implies #[trigger] straight(
                p,
                j,
            ) by {
                if j < i {
                    if ks_before.contains(j) {
                        let u = choose|u: int| 0 <= u < ks_before.len() && ks_before[u] == j;
                        assert(ks[u] == j);
                    }
                    assert(straight(p, j));
                } else if ks.len() > ks_before.len() {
                    assert(ks[ks.len() - 1] == j);
                }
            }
        }
        i = i + 1;
    }
    proof {
        assert forall|c: int, r: int| #[trigger] cyc_sum(simplified@, c, r) == cyc_sum(p, c, r) by {
            lemma_simplify_keeps_sum(p, simplified@, ks, c, r);
        }
        assert forall|j: int| 0 <= j < simplified@.len() implies on_lattice(
            #[trigger] simplified@[j],
            w,
            h,
        ) by {
            assert(simplified@[j] == p[ks[j]]);
        }
        assert forall|j: int| 0 <= j < simplified@.len() implies among(loop_pts@, #[trigger] simplified@[j]) by {
            assert(simplified@[j] == p[ks[j]]);
        }
        lemma_sorted_len(ks, n as int);
        if cyc_unit(p) {
            lemma_simplified_axis(p, simplified@, ks);
        }
        if cyc_unit(p) && cyc_steps(es, p) && no_reverse(es) && simplified@.len() >= 3 {
            assert forall|j: int| 0 <= j < p.len() && !ks.contains(j) implies #[trigger] straight(p, j) by {}
            lemma_simplified_corners(es, p, simplified@, ks);
        }
    }
    simplified
}

/// A strictly increasing sequence of indices below `n` has at most `n` entries.
proof fn lemma_sorted_len(ks: Seq<int>, n: int)
    requires
        n >= 0,
        forall|t: int| 0 <= t < ks.len() ==> 0 <= #[trigger] ks[t] < n,
        forall|s: int, t: int| 0 <= s < t < ks.len() ==> ks[s] < ks[t],
    ensures
        ks.len() <= n,
    decreases ks.len(),
{
    if ks.len() > 0 {
        let ks2 = ks.drop_last();
        let last = ks.len() - 1;
        assert(0 <= ks[last] < n);
        assert forall|t: int| 0 <= t < ks2.len() implies 0 <= #[trigger] ks2[t] < n - 1 by {
            assert(ks[t] < ks[last]);
        }
        assert forall|s: int, t: int| 0 <= s < t < ks2.len() implies ks2[s] < ks2[t] by {
            assert(ks[s] < ks[t]);
        }
        lemma_sorted_len(ks2, n - 1);
        assert(ks2.len() + 1 == ks.len());
    }
}

/// The font-space point of a lattice corner.
spec fn font_pt(p: GridPt, ascent: int) -> Point {
    Point { x: (p.col * 10) as i32, y: (ascent - p.row * 10) as i32 }
}

/// A point of the font lattice: `x = col * 10`, `y = ascent - row * 10` for a
/// corner (`col`, `row`) of a `w` x `h` grid.
pub open spec fn on_font_lattice(p: Point, ascent: int, w: int, h: int) -> bool {
    &&& p.x % 10 == 0
    &&& 0 <= p.x <= w * 10
    &&& (ascent - p.y) % 10 == 0
    &&& 0 <= ascent - p.y <= h * 10
}

/// A contour as `vectorize` produces them: at least three corners, all on the
/// font lattice of the grid.
pub open spec fn contour_ok(ct: Contour, ascent: int, w: int, h: int) -> bool {
    &&& ct.points@.len() >= 3
    &&& forall|j: int|
        0 <= j < ct.points@.len() ==> on_font_lattice(#[trigger] ct.points@[j], ascent, w, h)
}

proof fn lemma_font_cross(a: GridPt, b: GridPt, ascent: int, w: int, h: int, c: int, r: int)
    requires
        on_lattice(a, w, h),
        on_lattice(b, w, h),
        w * 10 <= i32::MAX,
        h * 10 <= i32::MAX,
        ascent - h * 10 >= i32::MIN,
        ascent <= i32::MAX,
    ensures
        edge_cross(font_pt(a, ascent), font_pt(b, ascent), sample_x(c), sample_y(ascent, r)) == gc(
            a,
            b,
            c,
            r,
        ),
{
}

proof fn lemma_font_partial(
    q: Seq<GridPt>,
    f: Seq<Point>,
    ascent: int,
    w: int,
    h: int,
    k: int,
    c: int,
    r: int,
)
    requires
        q.len() >= 1,
        f.len() == q.len(),
        forall|j: int| 0 <= j < q.len() ==> on_lattice(#[trigger] q[j], w, h),
        forall|j: int| 0 <= j < q.len() ==> #[trigger] f[j] == font_pt(q[j], ascent),
        w * 10 <= i32::MAX,
        h * 10 <= i32::MAX,
        ascent - h * 10 >= i32::MIN,
        ascent <= i32::MAX,
        0 <= k <= q.len(),
    ensures
        contour_partial(f, k, sample_x(c), sample_y(ascent, r)) == csum(q, 0, k, c, r),
    decreases k,
{
    if k > 0 {
        lemma_font_partial(q, f, ascent, w, h, k - 1, c, r);
        let n = q.len() as int;
        lemma_pt_in_range(q, k - 1);
        vstd::arithmetic::div_mod::lemma_mod_pos_bound(k, n);
        lemma_pt_in_range(q, k % n);
        assert(pt(q, k) == q[k % n]) by {
            vstd::arithmetic::div_mod::lemma_mod_twice(k, n);
        }
        lemma_font_cross(q[k - 1], q[k % n], ascent, w, h, c, r);
    }
}

/// Converts a loop of lattice corners to font coordinates.
fn to_font_contour(q: &Vec<GridPt>, ascent: i32, Ghost(w): Ghost<int>, Ghost(h): Ghost<int>) -> (ct:
    Contour)
    requires
        q@.len() >= 3,
        forall|j: int| 0 <= j < q@.len() ==> on_lattice(#[trigger] q@[j], w, h),
        w * 10 <= i32::MAX,
        h * 10 <= i32::MAX,
        ascent - h * 10 >= i32::MIN,
    ensures
        ct.points@.len() == q@.len(),
        contour_ok(ct, ascent as int, w, h),
        forall|j: int| 0 <= j < q@.len() ==> #[trigger] ct.points@[j] == font_pt(q@[j], ascent as int),
        forall|c: int, r: int|
            #[trigger] contour_winding(ct.points@, sample_x(c), sample_y(ascent as int, r)) == cyc_sum(
                q@,
                c,
                r,
            ),
{
    let mut pts: Vec<Point> = Vec::new();
    let mut i: usize = 0;
    while i < q.len()
        invariant
            i <= q@.len(),
            pts@.len() == i,
            forall|j: int| 0 <= j < q@.len() ==> on_lattice(#[trigger] q@[j], w, h),
            w * 10 <= i32::MAX,
            h * 10 <= i32::MAX,
            ascent - h * 10 >= i32::MIN,
            forall|j: int| 0 <= j < i ==> #[trigger] pts@[j] == font_pt(q@[j], ascent as int),
        decreases q@.len() - i,
    {
        let gp = q[i];
        assert(on_lattice(q@[i as int], w, h));
        pts.push(Point { x: gp.col * 10, y: ascent - gp.row * 10 });
        i = i + 1;
    }
    let ct = Contour { points: pts };
    proof {
        assert forall|j: int| 0 <= j < ct.points@.len() implies on_font_lattice(
            #[trigger] ct.points@[j],
            ascent as int,
            w,
            h,
        ) by {
            assert(on_lattice(q@[j], w, h));
            let p = q@[j];
            assert((p.col * 10) % 10 == 0) by (nonlinear_arith);
            assert((p.row * 10) % 10 == 0) by (nonlinear_arith);
        }
        assert forall|c: int, r: int|
            #[trigger] contour_winding(ct.points@, sample_x(c), sample_y(ascent as int, r)) == cyc_sum(
                q@,
                c,
                r,
            ) by {
            lemma_font_partial(q@, ct.points@, ascent as int, w, h, q@.len() as int, c, r);
            lemma_cyc_csum(q@, c, r);
        }
    }
    ct
}

proof fn lemma_points_upto_push(cs: Seq<Contour>, ct: Contour, m: int)
    requires
        0 <= m <= cs.len(),
    ensures
        points_upto(cs.push(ct), m) == points_upto(cs, m),
    decreases m,
{
    if m > 0 {
        lemma_points_upto_push(cs, ct, m - 1);
    }
}

proof fn lemma_winding_upto_push(cs: Seq<Contour>, ct: Contour, m: int, px: int, py: int)
    requires
        0 <= m <= cs.len(),
    ensures
        winding_upto(cs.push(ct), m, px, py) == winding_upto(cs, m, px, py),
    decreases m,
{
    if m > 0 {
        lemma_winding_upto_push(cs, ct, m - 1, px, py);
    }
}

/// A closed polygon with fewer than three corners crosses every ray zero times.
proof fn lemma_cyc_small(p: Seq<GridPt>, c: int, r: int)
    requires
        p.len() < 3,
    ensures
        cyc_sum(p, c, r) == 0,
{
    assert(path_sum(p, 0, c, r) == 0);
    if p.len() == 2 {
        assert(path_sum(p, 1, c, r) == gc(p[0], p[1], c, r));
    }
}

/// Chains the edges into closed loops, simplifies them and converts them to
/// font coordinates.  When every lattice corner is balanced, the contours
/// wind around each pixel centre as often as the edges cross its ray.
/// Each side of the contour, the closing one included, is horizontal or
/// vertical.
pub open spec fn rectilinear(ct: Contour) -> bool {
    forall|j: int|
        0 <= j < ct.points@.len() ==> {
            let a = #[trigger] ct.points@[j];
            let b = ct.points@[(j + 1) % (ct.points@.len() as int)];
            a.x == b.x || a.y == b.y
        }
}

proof fn lemma_font_rectilinear(q: Seq<GridPt>, ct: Contour, ascent: int)
    requires
        axis_cyc(q),
        ct.points@.len() == q.len(),
        q.len() >= 1,
        forall|j: int| 0 <= j < q.len() ==> #[trigger] ct.points@[j] == font_pt(q[j], ascent),
    ensures
        rectilinear(ct),
{
    let n = q.len() as int;
    assert forall|j: int| 0 <= j < n implies {
        let a = #[trigger] ct.points@[j];
        let b = ct.points@[(j + 1) % n];
        a.x == b.x || a.y == b.y
    } by {
        lemma_pt_in_range(q, j);
        let k = (j + 1) % n;
        assert(0 <= k < n);
        assert(pt(q, j + 1) == q[k]);
        assert(ct.points@[k] == font_pt(q[k], ascent));
        assert(pt(q, j).col == pt(q, j + 1).col || pt(q, j).row == pt(q, j + 1).row);
    }
}

/// The contour has at least four corners and nothing else: each side has
/// non-zero length, and horizontal and vertical sides alternate (so no point
/// lies in the middle of a straight side).
pub open spec fn corners_only(ct: Contour) -> bool {
    let p = ct.points@;
    let n = p.len() as int;
    &&& n >= 4
    &&& forall|j: int|
        0 <= j < n ==> {
            let a = #[trigger] p[j];
            let b = p[(j + 1) % n];
            let c = p[(j + 2) % n];
            ||| a.y == b.y && a.x != b.x && b.x == c.x && b.y != c.y
            ||| a.x == b.x && a.y != b.y && b.y == c.y && b.x != c.x
        }
}

proof fn lemma_font_corners(q: Seq<GridPt>, ct: Contour, ascent: int, w: int, h: int)
    requires
        corners_cyc(q),
        q.len() >= 3,
        q.len() % 2 == 0,
        ct.points@.len() == q.len(),
        forall|j: int| 0 <= j < q.len() ==> #[trigger] ct.points@[j] == font_pt(q[j], ascent),
        forall|j: int| 0 <= j < q.len() ==> on_lattice(#[trigger] q[j], w, h),
        0 <= w,
        0 <= h,
        w * 10 <= i32::MAX,
        h * 10 <= i32::MAX,
        ascent - h * 10 >= i32::MIN,
        ascent <= i32::MAX,
    ensures
        corners_only(ct),
{
    let n = q.len() as int;
    assert forall|j: int| 0 <= j < n implies {
        let a = #[trigger] ct.points@[j];
        let b = ct.points@[(j + 1) % n];
        let c = ct.points@[(j + 2) % n];
        ||| a.y == b.y && a.x != b.x && b.x == c.x && b.y != c.y
        ||| a.x == b.x && a.y != b.y && b.y == c.y && b.x != c.x
    } by {
        lemma_pt_in_range(q, j);
        let j1 = (j + 1) % n;
        let j2 = (j + 2) % n;
        assert(0 <= j1 < n && 0 <= j2 < n);
        assert(pt(q, j + 1) == q[j1]);
        assert(pt(q, j + 2) == q[j2]);
        let (qa, qb, qc) = (q[j], q[j1], q[j2]);
        assert(on_lattice(qa, w, h) && on_lattice(qb, w, h) && on_lattice(qc, w, h));
        assert(ct.points@[j1] == font_pt(qb, ascent));
        assert(ct.points@[j2] == font_pt(qc, ascent));
        assert(0 <= qa.col * 10 <= w * 10 && 0 <= qb.col * 10 <= w * 10 && 0 <= qc.col * 10 <= w * 10);
        assert(0 <= qa.row * 10 <= h * 10 && 0 <= qb.row * 10 <= h * 10 && 0 <= qc.row * 10 <= h * 10);
    }
}

fn trace_contours(edges: &Vec<GridEdge>, ascent: i32, Ghost(w): Ghost<int>, Ghost(h): Ghost<int>) -> (contours: Vec<Contour>)
    requires
        0 <= w,
        0 <= h,
        w * 10 <= i32::MAX,
        h * 10 <= i32::MAX,
        ascent - h * 10 >= i32::MIN,
        edges_on_lattice(edges@, w, h),
        edges_unit(edges@),
        no_reverse(edges@),
    ensures
        forall|k: int| 0 <= k < contours@.len() ==> contour_ok(#[trigger] contours@[k], ascent as int, w, h),
        total_points(contours@) <= edges@.len(),
        (forall|x: int, y: int| #[trigger] net_sum(edges@, x, y) == 0) ==> forall|k: int|
            0 <= k < contours@.len() ==> rectilinear(#[trigger] contours@[k]),
        (forall|x: int, y: int| #[trigger] net_sum(edges@, x, y) == 0) ==> forall|k: int|
            0 <= k < contours@.len() ==> corners_only(#[trigger] contours@[k]),
        forall|k: int, j: int|
            0 <= k < contours@.len() && 0 <= j < contours@[k].points@.len() ==> font_edge_end(
                edges@,
                ascent as int,
                #[trigger] contours@[k].points@[j],
            ),
        (forall|x: int, y: int| #[trigger] net_sum(edges@, x, y) == 0) ==> forall|c: int, r: int|
            #[trigger] winding(contours@, sample_x(c), sample_y(ascent as int, r)) == edge_sum(
                edges@,
                c,
                r,
            ),
{
    let n = edges.len();
    let ghost es = edges@;
    let ghost nn = n as int;
    let ghost bal: bool = forall|x: int, y: int| #[trigger] net_sum(edges@, x, y) == 0;
    let mut used: Vec<bool> = Vec::new();
    let mut i: usize = 0;
    while i < n
        invariant
            i <= n,
            used@.len() == i,
            forall|j: int| 0 <= j < i ==> !used@[j],
        decreases n - i,
    {
        used.push(false);
        i = i + 1;
    }
    proof {
        assert(es.take(nn) =~= es);
        assert forall|x: int, y: int| #[trigger] uout(es, used@, nn, x, y) - uin(es, used@, nn, x, y) == net_sum(es, x, y) by {
            lemma_unused_initial(es, used@, nn, x, y);
        }
        lemma_unused_initial(es, used@, nn, 0, 0);
        assert forall|c: int, r: int| #[trigger] used_sum(es, used@, nn, c, r) == 0 by {
            lemma_used_initial(es, used@, nn, c, r);
        }
    }
    let mut contours: Vec<Contour> = Vec::new();
    let mut start_idx: usize = 0;
    while start_idx < n
        invariant
            n == edges@.len(),
            es == edges@,
            nn == n,
            0 <= w,
            0 <= h,
            w * 10 <= i32::MAX,
            h * 10 <= i32::MAX,
            ascent - h * 10 >= i32::MIN,
            edges_on_lattice(es, w, h),
            edges_unit(es),
            no_reverse(es),
            bal ==> forall|k: int| 0 <= k < contours@.len() ==> rectilinear(#[trigger] contours@[k]),
            bal ==> forall|k: int| 0 <= k < contours@.len() ==> corners_only(#[trigger] contours@[k]),
            bal == (forall|x: int, y: int| #[trigger] net_sum(edges@, x, y) == 0),
            start_idx <= n,
            used@.len() == n,
            forall|j: int| 0 <= j < start_idx ==> used@[j],
            bal ==> forall|x: int, y: int|
                #[trigger] uout(es, used@, nn, x, y) == uin(es, used@, nn, x, y),
            bal ==> forall|c: int, r: int|
                #[trigger] winding(contours@, sample_x(c), sample_y(ascent as int, r)) == used_sum(
                    es,
                    used@,
                    nn,
                    c,
                    r,
                ),
            forall|k: int| 0 <= k < contours@.len() ==> contour_ok(#[trigger] contours@[k], ascent as int, w, h),
            forall|k: int, j: int|
                0 <= k < contours@.len() && 0 <= j < contours@[k].points@.len() ==> font_edge_end(
                    es,
                    ascent as int,
                    #[trigger] contours@[k].points@[j],
                ),
            total_points(contours@) <= nused(used@, nn),
        decreases n - start_idx,
    {
        if !used[start_idx] {
            let ghost ub = used@;
            let ghost cb = contours@;
            let loop_pts = walk_loop(edges, &mut used, start_idx, Ghost(bal), Ghost(w), Ghost(h));
            if loop_pts.len() >= 3 {
                // Simplify: remove collinear intermediate points
                let simplified = simplify_loop(&loop_pts, Ghost(w), Ghost(h), Ghost(es));
                if simplified.len() >= 3 {
                    // Convert grid coordinates to font coordinates
                    let ct = to_font_contour(&simplified, ascent, Ghost(w), Ghost(h));
                    contours.push(ct);
                    proof {
                        if bal {
                            lemma_font_rectilinear(simplified@, ct, ascent as int);
                            lemma_font_corners(simplified@, ct, ascent as int, w, h);
                            assert forall|k: int| 0 <= k < contours@.len() implies rectilinear(#[trigger] contours@[k])
                                && corners_only(contours@[k]) by {
                                if k < cb.len() {
                                    assert(contours@[k] == cb[k]);
                                } else {
                                    assert(contours@[k] == ct);
                                }
                            }
                        }
                        assert forall|k: int, j: int|
                            0 <= k < contours@.len() && 0 <= j < contours@[k].points@.len() implies font_edge_end(
                                es,
                                ascent as int,
                                #[trigger] contours@[k].points@[j],
                            ) by {
                            if k < cb.len() {
                                assert(contours@[k] == cb[k]);
                            } else {
                                assert(contours@[k] == ct);
                                assert(ct.points@[j] == font_pt(simplified@[j], ascent as int));
                                assert(among(loop_pts@, simplified@[j]));
                                let jj = choose|jj: int| 0 <= jj < loop_pts@.len() && #[trigger] loop_pts@[jj] == simplified@[j];
                                assert(edge_end(es, loop_pts@[jj]));
                                let i = choose|i: int| 0 <= i < es.len() && #[trigger] es[i].to == loop_pts@[jj];
                                assert(ct.points@[j] == font_pt(es[i].to, ascent as int));
                            }
                        }
                        lemma_points_upto_push(cb, ct, cb.len() as int);
                        if bal {
                            assert forall|c: int, r: int|
                                #[trigger] winding(contours@, sample_x(c), sample_y(ascent as int, r)) == used_sum(
                                    es,
                                    used@,
                                    nn,
                                    c,
                                    r,
                                ) by {
                                lemma_winding_upto_push(cb, ct, cb.len() as int, sample_x(c), sample_y(ascent as int, r));
                                assert(contours@ == cb.push(ct));
                                assert(contours@[cb.len() as int] == ct);
                                assert(winding(cb, sample_x(c), sample_y(ascent as int, r)) == used_sum(es, ub, nn, c, r));
                                assert(contour_winding(ct.points@, sample_x(c), sample_y(ascent as int, r)) == cyc_sum(simplified@, c, r));
                                assert(cyc_sum(simplified@, c, r) == cyc_sum(loop_pts@, c, r));
                                assert(used_sum(es, used@, nn, c, r) == used_sum(es, ub, nn, c, r) + cyc_sum(loop_pts@, c, r));
                            }
                        }
                    }
                } else {
                    proof {
                        if bal {
                            assert forall|c: int, r: int|
                                #[trigger] winding(contours@, sample_x(c), sample_y(ascent as int, r)) == used_sum(
                                    es,
                                    used@,
                                    nn,
                                    c,
                                    r,
                                ) by {
                                lemma_cyc_small(simplified@, c, r);
                                assert(cyc_sum(simplified@, c, r) == cyc_sum(loop_pts@, c, r));
                                assert(used_sum(es, used@, nn, c, r) == used_sum(es, ub, nn, c, r) + cyc_sum(loop_pts@, c, r));
                            }
                        }
                    }
                }
            } else {
                proof {
                    if bal {
                        assert forall|c: int, r: int|
                            #[trigger] winding(contours@, sample_x(c), sample_y(ascent as int, r)) == used_sum(
                                es,
                                used@,
                                nn,
                                c,
                                r,
                            ) by {
                            lemma_cyc_small(loop_pts@, c, r);
                            assert(used_sum(es, used@, nn, c, r) == used_sum(es, ub, nn, c, r) + cyc_sum(loop_pts@, c, r));
                        }
                    }
                }
            }
        }
        start_idx = start_idx + 1;
    }
    proof {
        lemma_counts_nonneg(es, used@, nn, 0, 0);
        if bal {
            assert forall|c: int, r: int|
                #[trigger] winding(contours@, sample_x(c), sample_y(ascent as int, r)) == edge_sum(
                    es,
                    c,
                    r,
                ) by {
                lemma_used_all(es, used@, nn, c, r);
            }
        }
    }
    contours
}

proof fn lemma_cell_edges_lattice(g: GridView, c: int, r: int)
    requires
        grid_fits(g, 0),
        0 <= c < g.width,
        0 <= r < g.height,
    ensures
        edges_on_lattice(cell_edges(g, c, r), g.width as int, g.height as int),
        cell_edges(g, c, r).len() <= 6,
{
    lemma_cell_edges_sides(g, c, r);
}

proof fn lemma_row_edges_lattice(g: GridView, r: int, k: int)
    requires
        grid_fits(g, 0),
        0 <= k <= g.width,
        0 <= r < g.height,
    ensures
        edges_on_lattice(row_edges(g, r, k), g.width as int, g.height as int),
        row_edges(g, r, k).len() <= 6 * k,
    decreases k,
{
    if k > 0 {
        lemma_row_edges_lattice(g, r, k - 1);
        lemma_cell_edges_lattice(g, k - 1, r);
        let a = row_edges(g, r, k - 1);
        let b = cell_edges(g, k - 1, r);
        assert(row_edges(g, r, k) == a + b);
        assert forall|i: int| 0 <= i < (a + b).len() implies on_lattice(
            #[trigger] (a + b)[i].from,
            g.width as int,
            g.height as int,
        ) && on_lattice((a + b)[i].to, g.width as int, g.height as int) by {
            if i < a.len() {
                assert((a + b)[i] == a[i]);
            } else {
                assert((a + b)[i] == b[i - a.len()]);
            }
        }
    }
}

#[verifier::spinoff_prover]
proof fn lemma_rows_edges_lattice(g: GridView, m: int)
    requires
        grid_fits(g, 0),
        0 <= m <= g.height,
    ensures
        edges_on_lattice(rows_edges(g, m), g.width as int, g.height as int),
        rows_edges(g, m).len() <= 6 * g.width * m,
    decreases m,
{
    if m > 0 {
        lemma_rows_edges_lattice(g, m - 1);
        lemma_row_edges_lattice(g, m - 1, g.width as int);
        let a = rows_edges(g, m - 1);
        let b = row_edges(g, m - 1, g.width as int);
        assert forall|i: int| 0 <= i < (a + b).len() implies on_lattice(
            #[trigger] (a + b)[i].from,
            g.width as int,
            g.height as int,
        ) && on_lattice((a + b)[i].to, g.width as int, g.height as int) by {
            if i < a.len() {
                assert((a + b)[i] == a[i]);
            } else {
                assert((a + b)[i] == b[i - a.len()]);
            }
        }
        assert(6 * g.width * (m - 1) + 6 * g.width == 6 * g.width * m) by (nonlinear_arith);
    }
}

/// `b` is the bounding box of all points of the contours `cs`, or `None` when
/// they have no point.
pub open spec fn bbox_of(cs: Seq<Contour>, b: Option<BBox>) -> bool {
    match b {
        None => forall|k: int| 0 <= k < cs.len() ==> #[trigger] cs[k].points@.len() == 0,
        Some(bb) => {
            &&& forall|k: int, j: int|
                0 <= k < cs.len() && 0 <= j < cs[k].points@.len() ==> {
                    let p = #[trigger] cs[k].points@[j];
                    bb.x_min <= p.x <= bb.x_max && bb.y_min <= p.y <= bb.y_max
                }
            &&& exists|k: int, j: int|
                0 <= k < cs.len() && 0 <= j < cs[k].points@.len() && #[trigger] cs[k].points@[j].x
                    == bb.x_min
            &&& exists|k: int, j: int|
                0 <= k < cs.len() && 0 <= j < cs[k].points@.len() && #[trigger] cs[k].points@[j].x
                    == bb.x_max
            &&& exists|k: int, j: int|
                0 <= k < cs.len() && 0 <= j < cs[k].points@.len() && #[trigger] cs[k].points@[j].y
                    == bb.y_min
            &&& exists|k: int, j: int|
                0 <= k < cs.len() && 0 <= j < cs[k].points@.len() && #[trigger] cs[k].points@[j].y
                    == bb.y_max
        },
    }
}

spec fn is_pt(cs: Seq<Contour>, k: int, j: int) -> bool {
    0 <= k < cs.len() && 0 <= j < cs[k].points@.len()
}

/// Compute the bounding box of all contour points.
fn contours_bbox(contours: &Vec<Contour>) -> (b: Option<BBox>)
    ensures
        bbox_of(contours@, b),
{
    let ghost cs = contours@;
    let mut x_min = i32::MAX;
    let mut y_min = i32::MAX;
    let mut x_max = i32::MIN;
    let mut y_max = i32::MIN;
    let ghost mut found = false;
    let ghost mut w1 = (0int, 0int);
    let ghost mut w2 = (0int, 0int);
    let ghost mut w3 = (0int, 0int);
    let ghost mut w4 = (0int, 0int);
    let mut k: usize = 0;
    while k < contours.len()
        invariant
            cs == contours@,
            k <= cs.len(),
            !found ==> x_min == i32::MAX && x_max == i32::MIN && y_min == i32::MAX && y_max == i32::MIN,
            !found ==> forall|kk: int| 0 <= kk < k ==> #[trigger] cs[kk].points@.len() == 0,
            forall|kk: int, j: int|
                0 <= kk < k && 0 <= j < cs[kk].points@.len() ==> {
                    let p = #[trigger] cs[kk].points@[j];
                    x_min <= p.x <= x_max && y_min <= p.y <= y_max
                },
            found ==> is_pt(cs, w1.0, w1.1) && cs[w1.0].points@[w1.1].x == x_min,
            found ==> is_pt(cs, w2.0, w2.1) && cs[w2.0].points@[w2.1].x == x_max,
            found ==> is_pt(cs, w3.0, w3.1) && cs[w3.0].points@[w3.1].y == y_min,
            found ==> is_pt(cs, w4.0, w4.1) && cs[w4.0].points@[w4.1].y == y_max,
        decreases cs.len() - k,
    {
        let pts = &contours[k].points;
        let mut j: usize = 0;
        while j < pts.len()
            invariant
                cs == contours@,
                k < cs.len(),
                pts@ == cs[k as int].points@,
                j <= pts@.len(),
                !found ==> x_min == i32::MAX && x_max == i32::MIN && y_min == i32::MAX && y_max == i32::MIN,
                !found ==> forall|kk: int| 0 <= kk < k ==> #[trigger] cs[kk].points@.len() == 0,
                !found ==> j == 0,
                forall|kk: int, jj: int|
                    ((0 <= kk < k && 0 <= jj < cs[kk].points@.len()) || (kk == k && 0 <= jj < j))
                        ==> {
                        let p = #[trigger] cs[kk].points@[jj];
                        x_min <= p.x <= x_max && y_min <= p.y <= y_max
                    },
                found ==> is_pt(cs, w1.0, w1.1) && cs[w1.0].points@[w1.1].x == x_min,
                found ==> is_pt(cs, w2.0, w2.1) && cs[w2.0].points@[w2.1].x == x_max,
                found ==> is_pt(cs, w3.0, w3.1) && cs[w3.0].points@[w3.1].y == y_min,
                found ==> is_pt(cs, w4.0, w4.1) && cs[w4.0].points@[w4.1].y == y_max,
            decreases pts@.len() - j,
        {
            let p = pts[j];
            proof {
                let here = (k as int, j as int);
                if !found || p.x <= x_min {
                    w1 = here;
                }
                if !found || p.x >= x_max {
                    w2 = here;
                }
                if !found || p.y <= y_min {
                    w3 = here;
                }
                if !found || p.y >= y_max {
                    w4 = here;
                }
                found = true;
            }
            x_min = if p.x < x_min { p.x } else { x_min };
            y_min = if p.y < y_min { p.y } else { y_min };
            x_max = if p.x > x_max { p.x } else { x_max };
            y_max = if p.y > y_max { p.y } else { y_max };
            j = j + 1;
        }
        k = k + 1;
    }
    if x_min <= x_max {
        Some(BBox { x_min, y_min, x_max, y_max })
    } else {
        None
    }
}

/// The contours wind once (clockwise in font space) around the centre of every
/// filled pixel and not at all around the centre of an empty one.
pub open spec fn winds_like(g: GridView, ascent: int, cs: Seq<Contour>) -> bool {
    forall|c: int, r: int|
        0 <= c < g.width && 0 <= r < g.height ==> #[trigger] winding(
            cs,
            sample_x(c),
            sample_y(ascent, r),
        ) == if g.get(c, r) {
            -1int
        } else {
            0int
        }
}

/// Vectorize a pixel grid back to contours.
/// Traces boundaries between filled and empty pixels, producing clean
/// rectilinear contours with corners only (no collinear intermediate points).
#[verifier::spinoff_prover]
#[verifier::rlimit(100)]
pub fn vectorize(grid: &PixelGrid, ascent: i32) -> (res: (Vec<Contour>, Option<BBox>))
    requires
        grid.wf(),
        (exists|c: int, r: int| #[trigger] grid@.get(c, r)) ==> grid_fits(grid@, ascent as int),
    ensures
        (forall|c: int, r: int| !#[trigger] grid@.get(c, r)) <==> res.0@.len() == 0,
        res.1 is None <==> res.0@.len() == 0,
        forall|k: int|
            0 <= k < res.0@.len() ==> contour_ok(
                #[trigger] res.0@[k],
                ascent as int,
                grid.width as int,
                grid.height as int,
            ),
        total_points(res.0@) <= 6 * grid.width * grid.height,
        bbox_of(res.0@, res.1),
        forall|b: (usize, usize, usize, usize)|
            crate::app::is_filled_bbox(grid@, b) ==> res.1 == Some(pixels_bbox(b, ascent as int)),
        winds_like(grid@, ascent as int, res.0@),
        forall|k: int| 0 <= k < res.0@.len() ==> rectilinear(#[trigger] res.0@[k]),
        forall|k: int| 0 <= k < res.0@.len() ==> corners_only(#[trigger] res.0@[k]),
        crate::ttx::write::outline_ok(grid@, ascent as int, (res.0@, res.1)),
{
    let mut any = false;
    let mut i: usize = 0;
    while i < grid.data.len()
        invariant
            i <= grid.data@.len(),
            any == exists|j: int| 0 <= j < i && #[trigger] grid.data@[j],
        decreases grid.data@.len() - i,
    {
        if grid.data[i] {
            any = true;
        }
        i = i + 1;
    }
    if !any {
        proof {
            if exists|c: int, r: int| #[trigger] grid@.get(c, r) {
                let (c, r) = choose|c: int, r: int| #[trigger] grid@.get(c, r);
                crate::font::lemma_cell_index(c, r, grid.width as int, grid.height as int);
                assert(grid.data@[r * grid.width + c]);
            }
            assert forall|b: (usize, usize, usize, usize)| !crate::app::is_filled_bbox(grid@, b) by {
                if crate::app::is_filled_bbox(grid@, b) {
                    let c = choose|c: int| #[trigger] grid@.get(c, b.0 as int);
                    assert(grid@.get(c, b.0 as int));
                }
            }
        }
        proof {
            let o: (Seq<Contour>, Option<BBox>) = (Seq::empty(), None);
            assert(crate::ttx::write::outline_ok(grid@, ascent as int, o)) by {
                reveal(crate::ttx::write::outline_ok);
            }
        }
        return (Vec::new(), None);
    }
    proof {
        let j = choose|j: int| 0 <= j < grid.data@.len() && #[trigger] grid.data@[j];
        crate::font::lemma_index_cell(j, grid.width as int, grid.height as int);
        assert(grid@.get(j % (grid.width as int), j / (grid.width as int)));
    }
    // Build a set of directed boundary edges.
    // Each edge is between two grid cells; grid coordinates (col, row) name
    // pixel corners, one unit per pixel (10 font units).
    let edges = boundary_edges(grid);
    let ghost g = grid@;
    let ghost w = grid.width as int;
    let ghost h = grid.height as int;
    proof {
        lemma_rows_edges_lattice(g, h);
        lemma_rows_unit(g, h);
        lemma_rows_canonical(g, h);
        lemma_canonical_no_reverse(g, rows_edges(g, h));
    }
    // Chain edges into closed loops
    let contours = trace_contours(&edges, ascent, Ghost(w), Ghost(h));
    // Compute bounding box
    let bbox = contours_bbox(&contours);
    proof {
        assert forall|x: int, y: int| #[trigger] net_sum(edges@, x, y) == 0 by {
            lemma_boundary_balanced(g, x, y);
        }
        assert forall|c: int, r: int|
            0 <= c < g.width && 0 <= r < g.height implies #[trigger] winding(
                contours@,
                sample_x(c),
                sample_y(ascent as int, r),
            ) == if g.get(c, r) {
                -1int
            } else {
                0int
            } by {
            lemma_rows_cross(g, h, c, r);
        }
        // A filled pixel is wound around, so there is a contour.
        let (c0, r0) = choose|c: int, r: int| #[trigger] g.get(c, r);
        assert(0 <= c0 < g.width && 0 <= r0 < g.height);
        assert(winding(contours@, sample_x(c0), sample_y(ascent as int, r0)) == -1);
        if contours@.len() == 0 {
            assert(winding(contours@, sample_x(c0), sample_y(ascent as int, r0)) == 0);
        }
        lemma_bbox_none_iff_empty(contours@, bbox, ascent as int, w, h);
        assert forall|b: (usize, usize, usize, usize)|
            crate::app::is_filled_bbox(g, b) implies bbox == Some(pixels_bbox(b, ascent as int)) by {
            lemma_outline_bbox(g, ascent as int, edges@, contours@, bbox, b);
        }
        assert(crate::ttx::write::outline_ok(g, ascent as int, (contours@, bbox))) by {
            reveal(crate::ttx::write::outline_ok);
        }
    }
    (contours, bbox)
}

/// The corner `p` lies on the outline of the box of rows `r0..=r1` and
/// columns `c0..=c1`, or inside it.
spec fn corner_in(p: GridPt, r0: int, r1: int, c0: int, c1: int) -> bool {
    c0 <= p.col <= c1 + 1 && r0 <= p.row <= r1 + 1
}

spec fn ends_in(es: Seq<GridEdge>, r0: int, r1: int, c0: int, c1: int) -> bool {
    forall|i: int| 0 <= i < es.len() ==> corner_in(#[trigger] es[i].to, r0, r1, c0, c1)
}

proof fn lemma_ends_in_concat(a: Seq<GridEdge>, b: Seq<GridEdge>, r0: int, r1: int, c0: int, c1: int)
    requires
        ends_in(a, r0, r1, c0, c1),
        ends_in(b, r0, r1, c0, c1),
    ensures
        ends_in(a + b, r0, r1, c0, c1),
{
    assert forall|i: int| 0 <= i < (a + b).len() implies corner_in(#[trigger] (a + b)[i].to, r0, r1, c0, c1) by {
        if i < a.len() {
            assert((a + b)[i] == a[i]);
        } else {
            assert((a + b)[i] == b[i - a.len()]);
        }
    }
}

/// Each boundary edge ends at a corner of a filled pixel, so inside the box
/// of the filled pixels.
proof fn lemma_cell_ends_in(g: GridView, c: int, r: int, r0: int, r1: int, c0: int, c1: int)
    requires
        grid_fits(g, 0),
        0 <= c < g.width,
        0 <= r < g.height,
        forall|cc: int, rr: int| #[trigger] g.get(cc, rr) ==> r0 <= rr <= r1 && c0 <= cc <= c1,
    ensures
        ends_in(cell_edges(g, c, r), r0, r1, c0, c1),
{
    let f = g.get(c, r);
    let rf = g.get(c + 1, r);
    let bf = g.get(c, r + 1);
    let e1 = if f && !rf {
        seq![ge(gp(c + 1, r), gp(c + 1, r + 1))]
    } else if !f && rf {
        seq![ge(gp(c + 1, r + 1), gp(c + 1, r))]
    } else {
        seq![]
    };
    let e2 = if f && !bf {
        seq![ge(gp(c + 1, r + 1), gp(c, r + 1))]
    } else if !f && bf {
        seq![ge(gp(c, r + 1), gp(c + 1, r + 1))]
    } else {
        seq![]
    };
    let e3: Seq<GridEdge> = if r == 0 && f { seq![ge(gp(c, 0), gp(c + 1, 0))] } else { seq![] };
    let e4: Seq<GridEdge> = if c == 0 && f { seq![ge(gp(0, r + 1), gp(0, r))] } else { seq![] };
    assert(cell_edges(g, c, r) == e1 + e2 + e3 + e4);
    if f {
        assert(r0 <= r <= r1 && c0 <= c <= c1);
    }
    if rf {
        assert(r0 <= r <= r1 && c0 <= c + 1 <= c1);
    }
    if bf {
        assert(r0 <= r + 1 <= r1 && c0 <= c <= c1);
    }
    assert(ends_in(e1, r0, r1, c0, c1));
    assert(ends_in(e2, r0, r1, c0, c1));
    assert(ends_in(e3, r0, r1, c0, c1));
    assert(ends_in(e4, r0, r1, c0, c1));
    lemma_ends_in_concat(e1, e2, r0, r1, c0, c1);
    lemma_ends_in_concat(e1 + e2, e3, r0, r1, c0, c1);
    lemma_ends_in_concat(e1 + e2 + e3, e4, r0, r1, c0, c1);
}

proof fn lemma_rows_ends_in(g: GridView, m: int, r0: int, r1: int, c0: int, c1: int)
    requires
        grid_fits(g, 0),
        0 <= m <= g.height,
        forall|cc: int, rr: int| #[trigger] g.get(cc, rr) ==> r0 <= rr <= r1 && c0 <= cc <= c1,
    ensures
        ends_in(rows_edges(g, m), r0, r1, c0, c1),
    decreases m,
{
    if m > 0 {
        lemma_rows_ends_in(g, m - 1, r0, r1, c0, c1);
        lemma_row_ends_in(g, m - 1, g.width as int, r0, r1, c0, c1);
        lemma_ends_in_concat(rows_edges(g, m - 1), row_edges(g, m - 1, g.width as int), r0, r1, c0, c1);
    }
}

proof fn lemma_row_ends_in(g: GridView, rr: int, k: int, r0: int, r1: int, c0: int, c1: int)
    requires
        grid_fits(g, 0),
        0 <= k <= g.width,
        0 <= rr < g.height,
        forall|cc: int, rw: int| #[trigger] g.get(cc, rw) ==> r0 <= rw <= r1 && c0 <= cc <= c1,
    ensures
        ends_in(row_edges(g, rr, k), r0, r1, c0, c1),
    decreases k,
{
    if k > 0 {
        lemma_row_ends_in(g, rr, k - 1, r0, r1, c0, c1);
        lemma_cell_ends_in(g, k - 1, rr, r0, r1, c0, c1);
        lemma_ends_in_concat(row_edges(g, rr, k - 1), cell_edges(g, k - 1, rr), r0, r1, c0, c1);
    }
}

/// No contour point has `x` in `(px1, px2]`.
spec fn no_x_between(cs: Seq<Contour>, px1: int, px2: int) -> bool {
    forall|k: int, j: int|
        0 <= k < cs.len() && 0 <= j < cs[k].points@.len() ==> !(px1 < #[trigger] cs[k].points@[j].x <= px2)
}

/// No contour point has `y` in `(py1, py2]`.
spec fn no_y_between(cs: Seq<Contour>, py1: int, py2: int) -> bool {
    forall|k: int, j: int|
        0 <= k < cs.len() && 0 <= j < cs[k].points@.len() ==> !(py1 < #[trigger] cs[k].points@[j].y <= py2)
}

proof fn lemma_partial_x(pts: Seq<Point>, k: int, px1: int, px2: int, py: int)
    requires
        0 <= k <= pts.len(),
        px1 <= px2,
        forall|j: int| 0 <= j < pts.len() ==> !(px1 < #[trigger] pts[j].x <= px2),
    ensures
        contour_partial(pts, k, px1, py) == contour_partial(pts, k, px2, py),
    decreases k,
{
    if k > 0 {
        lemma_partial_x(pts, k - 1, px1, px2, py);
        assert(!(px1 < pts[k - 1].x <= px2));
    }
}

proof fn lemma_partial_y(pts: Seq<Point>, k: int, px: int, py1: int, py2: int)
    requires
        0 <= k <= pts.len(),
        py1 <= py2,
        forall|j: int| 0 <= j < pts.len() ==> !(py1 < #[trigger] pts[j].y <= py2),
    ensures
        contour_partial(pts, k, px, py1) == contour_partial(pts, k, px, py2),
    decreases k,
{
    if k > 0 {
        lemma_partial_y(pts, k - 1, px, py1, py2);
        assert(!(py1 < pts[k - 1].y <= py2));
        assert(0 <= k % (pts.len() as int) < pts.len());
        assert(!(py1 < pts[k % (pts.len() as int)].y <= py2));
    }
}

/// Moving the sample point right across no contour point keeps the winding.
proof fn lemma_winding_x(cs: Seq<Contour>, m: int, px1: int, px2: int, py: int)
    requires
        0 <= m <= cs.len(),
        px1 <= px2,
        no_x_between(cs, px1, px2),
    ensures
        winding_upto(cs, m, px1, py) == winding_upto(cs, m, px2, py),
    decreases m,
{
    if m > 0 {
        lemma_winding_x(cs, m - 1, px1, px2, py);
        let pts = cs[m - 1].points@;
        assert forall|j: int| 0 <= j < pts.len() implies !(px1 < #[trigger] pts[j].x <= px2) by {
            assert(pts[j] == cs[m - 1].points@[j]);
        }
        lemma_partial_x(pts, pts.len() as int, px1, px2, py);
    }
}

/// Moving the sample point up across no contour point keeps the winding.
proof fn lemma_winding_y(cs: Seq<Contour>, m: int, px: int, py1: int, py2: int)
    requires
        0 <= m <= cs.len(),
        py1 <= py2,
        no_y_between(cs, py1, py2),
    ensures
        winding_upto(cs, m, px, py1) == winding_upto(cs, m, px, py2),
    decreases m,
{
    if m > 0 {
        lemma_winding_y(cs, m - 1, px, py1, py2);
        let pts = cs[m - 1].points@;
        assert forall|j: int| 0 <= j < pts.len() implies !(py1 < #[trigger] pts[j].y <= py2) by {
            assert(pts[j] == cs[m - 1].points@[j]);
        }
        lemma_partial_y(pts, pts.len() as int, px, py1, py2);
    }
}

/// Rays from outside the lattice, right of it or level with its top or
/// bottom line or beyond, cross no edge on balance.
proof fn lemma_edge_sum_outside(es: Seq<GridEdge>, w: int, h: int, c: int, r: int)
    requires
        edges_on_lattice(es, w, h),
        c >= w || r < 0 || r >= h,
    ensures
        edge_sum(es, c, r) == 0,
    decreases es.len(),
{
    if es.len() > 0 {
        assert(edges_on_lattice(es.drop_last(), w, h)) by {
            assert forall|i: int| 0 <= i < es.drop_last().len() implies on_lattice(#[trigger] es.drop_last()[i].from, w, h)
                && on_lattice(es.drop_last()[i].to, w, h) by {
                assert(es.drop_last()[i] == es[i]);
            }
        }
        lemma_edge_sum_outside(es.drop_last(), w, h, c, r);
        assert(on_lattice(es[es.len() - 1].from, w, h));
        assert(on_lattice(es[es.len() - 1].to, w, h));
    }
}

/// The crossing sum of one pixel's edges for the ray from left of the grid.
proof fn lemma_cell_cross_left(g: GridView, cc: int, rr: int, r: int)
    requires
        grid_fits(g, 0),
        0 <= cc < g.width,
        0 <= rr < g.height,
    ensures
        edge_sum(cell_edges(g, cc, rr), -1, r) == if rr == r {
            fv(g, cc + 1, r) - fv(g, cc, r) + if cc == 0 { fv(g, 0, r) } else { 0 }
        } else {
            0
        },
{
    let f = g.get(cc, rr);
    let rf = g.get(cc + 1, rr);
    let bf = g.get(cc, rr + 1);
    let e1 = if f && !rf {
        seq![ge(gp(cc + 1, rr), gp(cc + 1, rr + 1))]
    } else if !f && rf {
        seq![ge(gp(cc + 1, rr + 1), gp(cc + 1, rr))]
    } else {
        seq![]
    };
    let e2 = if f && !bf {
        seq![ge(gp(cc + 1, rr + 1), gp(cc, rr + 1))]
    } else if !f && bf {
        seq![ge(gp(cc, rr + 1), gp(cc + 1, rr + 1))]
    } else {
        seq![]
    };
    let e3: Seq<GridEdge> = if rr == 0 && f { seq![ge(gp(cc, 0), gp(cc + 1, 0))] } else { seq![] };
    let e4: Seq<GridEdge> = if cc == 0 && f { seq![ge(gp(0, rr + 1), gp(0, rr))] } else { seq![] };
    assert(cell_edges(g, cc, rr) == e1 + e2 + e3 + e4);
    lemma_edge_sum_concat(e1 + e2 + e3, e4, -1, r);
    lemma_edge_sum_concat(e1 + e2, e3, -1, r);
    lemma_edge_sum_concat(e1, e2, -1, r);
    if e1.len() > 0 {
        lemma_edge_sum_one(e1[0], -1, r);
        assert(e1 =~= seq![e1[0]]);
    }
    if e2.len() > 0 {
        lemma_edge_sum_one(e2[0], -1, r);
        assert(e2 =~= seq![e2[0]]);
    }
    if e3.len() > 0 {
        lemma_edge_sum_one(e3[0], -1, r);
        assert(e3 =~= seq![e3[0]]);
    }
    if e4.len() > 0 {
        lemma_edge_sum_one(e4[0], -1, r);
        assert(e4 =~= seq![e4[0]]);
    }
}

proof fn lemma_row_cross_left(g: GridView, rr: int, k: int, r: int)
    requires
        grid_fits(g, 0),
        0 <= k <= g.width,
        0 <= rr < g.height,
    ensures
        edge_sum(row_edges(g, rr, k), -1, r) == if rr == r && k > 0 { fv(g, k, r) } else { 0 },
    decreases k,
{
    if k > 0 {
        lemma_row_cross_left(g, rr, k - 1, r);
        lemma_cell_cross_left(g, k - 1, rr, r);
        lemma_edge_sum_concat(row_edges(g, rr, k - 1), cell_edges(g, k - 1, rr), -1, r);
    }
}

/// The ray from left of the grid crosses the boundary edges with total 0.
proof fn lemma_rows_cross_left(g: GridView, m: int, r: int)
    requires
        grid_fits(g, 0),
        0 <= m <= g.height,
    ensures
        edge_sum(rows_edges(g, m), -1, r) == 0,
    decreases m,
{
    if m > 0 {
        lemma_rows_cross_left(g, m - 1, r);
        lemma_row_cross_left(g, m - 1, g.width as int, r);
        lemma_edge_sum_concat(rows_edges(g, m - 1), row_edges(g, m - 1, g.width as int), -1, r);
        assert(!g.get(g.width as int, r));
    }
}

/// The font-space box of the pixels in rows `b.0..=b.1` and columns
/// `b.2..=b.3` (as `filled_bbox` gives them): ten units per pixel, rows
/// counted down from `ascent`.
pub open spec fn pixels_bbox(b: (usize, usize, usize, usize), ascent: int) -> BBox {
    BBox {
        x_min: (10 * b.2) as i32,
        y_min: (ascent - 10 * (b.1 + 1)) as i32,
        x_max: (10 * (b.3 + 1)) as i32,
        y_max: (ascent - 10 * b.0) as i32,
    }
}

/// The outline's bounding box is the box of the filled pixels: every contour
/// point lies on it or inside, and each of its four sides holds a contour
/// point, since the winding changes across it.
/// `p` lies on the font-space box of the pixels `b` or inside it.
spec fn point_in_box(p: Point, ascent: int, b: (usize, usize, usize, usize)) -> bool {
    &&& 10 * b.2 <= p.x <= 10 * (b.3 + 1)
    &&& ascent - 10 * (b.1 + 1) <= p.y <= ascent - 10 * b.0
}

proof fn lemma_point_in_box(es: Seq<GridEdge>, ascent: int, w: int, h: int, p: Point, b: (usize, usize, usize, usize))
    requires
        0 <= w,
        0 <= h,
        w * 10 <= i32::MAX,
        h * 10 <= i32::MAX,
        ascent - h * 10 >= i32::MIN,
        ascent <= i32::MAX,
        edges_on_lattice(es, w, h),
        ends_in(es, b.0 as int, b.1 as int, b.2 as int, b.3 as int),
        font_edge_end(es, ascent, p),
    ensures
        point_in_box(p, ascent, b),
{
    let i = choose|i: int| 0 <= i < es.len() && p == font_pt(#[trigger] es[i].to, ascent);
    let q = es[i].to;
    assert(corner_in(q, b.0 as int, b.1 as int, b.2 as int, b.3 as int));
    assert(on_lattice(es[i].from, w, h));
    assert(on_lattice(q, w, h));
    assert(0 <= q.col * 10 <= w * 10);
    assert(0 <= q.row * 10 <= h * 10);
    assert(p.x == q.col * 10);
    assert(p.y == ascent - q.row * 10);
}

#[verifier::spinoff_prover]
#[verifier::rlimit(100)]
proof fn lemma_outline_bbox(
    g: GridView,
    ascent: int,
    es: Seq<GridEdge>,
    cs: Seq<Contour>,
    bb: Option<BBox>,
    b: (usize, usize, usize, usize),
)
    requires
        grid_fits(g, ascent),
        ascent <= i32::MAX,
        es == rows_edges(g, g.height as int),
        edges_on_lattice(es, g.width as int, g.height as int),
        forall|c: int, r: int|
            #[trigger] winding(cs, sample_x(c), sample_y(ascent, r)) == edge_sum(es, c, r),
        winds_like(g, ascent, cs),
        forall|k: int| 0 <= k < cs.len() ==> contour_ok(#[trigger] cs[k], ascent, g.width as int, g.height as int),
        forall|k: int, j: int|
            0 <= k < cs.len() && 0 <= j < cs[k].points@.len() ==> font_edge_end(es, ascent, #[trigger] cs[k].points@[j]),
        bbox_of(cs, bb),
        bb is Some,
        crate::app::is_filled_bbox(g, b),
    ensures
        bb == Some(pixels_bbox(b, ascent)),
{
    let w = g.width as int;
    let h = g.height as int;
    let (r0, r1, c0, c1) = (b.0 as int, b.1 as int, b.2 as int, b.3 as int);
    let x = bb->0;
    lemma_rows_ends_in(g, h, r0, r1, c0, c1);
    // Every contour point lies in the box of the filled pixels.
    assert forall|k: int, j: int| 0 <= k < cs.len() && 0 <= j < cs[k].points@.len() implies point_in_box(
        #[trigger] cs[k].points@[j],
        ascent,
        b,
    ) by {
        lemma_point_in_box(es, ascent, w, h, cs[k].points@[j], b);
    }
    let wl = cs.len() as int;
    // Left side: the winding changes between columns c0 - 1 and c0.
    let rl = choose|r: int| #[trigger] g.get(c0, r);
    assert(g.get(c0, rl));
    assert(winding(cs, sample_x(c0), sample_y(ascent, rl)) == -1);
    if c0 >= 1 {
        assert(!g.get(c0 - 1, rl));
        assert(winding(cs, sample_x(c0 - 1), sample_y(ascent, rl)) == 0);
    } else {
        lemma_rows_cross_left(g, h, rl);
        assert(winding(cs, sample_x(-1), sample_y(ascent, rl)) == edge_sum(es, -1, rl));
    }
    if no_x_between(cs, sample_x(c0 - 1), sample_x(c0)) {
        lemma_winding_x(cs, wl, sample_x(c0 - 1), sample_x(c0), sample_y(ascent, rl));
    }
    let (kl, jl) = choose|k: int, j: int|
        0 <= k < cs.len() && 0 <= j < cs[k].points@.len() && sample_x(c0 - 1) < #[trigger] cs[k].points@[j].x
            <= sample_x(c0);
    assert(contour_ok(cs[kl], ascent, w, h));
    assert(on_font_lattice(cs[kl].points@[jl], ascent, w, h));
    assert(cs[kl].points@[jl].x == 10 * c0);
    // Right side: between columns c1 and c1 + 1.
    let rr = choose|r: int| #[trigger] g.get(c1, r);
    assert(g.get(c1, rr));
    assert(winding(cs, sample_x(c1), sample_y(ascent, rr)) == -1);
    if c1 + 1 < w {
        assert(!g.get(c1 + 1, rr));
        assert(winding(cs, sample_x(c1 + 1), sample_y(ascent, rr)) == 0);
    } else {
        lemma_edge_sum_outside(es, w, h, c1 + 1, rr);
        assert(winding(cs, sample_x(c1 + 1), sample_y(ascent, rr)) == edge_sum(es, c1 + 1, rr));
    }
    if no_x_between(cs, sample_x(c1), sample_x(c1 + 1)) {
        lemma_winding_x(cs, wl, sample_x(c1), sample_x(c1 + 1), sample_y(ascent, rr));
    }
    let (kr, jr) = choose|k: int, j: int|
        0 <= k < cs.len() && 0 <= j < cs[k].points@.len() && sample_x(c1) < #[trigger] cs[k].points@[j].x
            <= sample_x(c1 + 1);
    assert(contour_ok(cs[kr], ascent, w, h));
    assert(on_font_lattice(cs[kr].points@[jr], ascent, w, h));
    assert(cs[kr].points@[jr].x == 10 * (c1 + 1));
    // Top side: between rows r0 - 1 and r0.
    let ct = choose|c: int| #[trigger] g.get(c, r0);
    assert(g.get(ct, r0));
    assert(winding(cs, sample_x(ct), sample_y(ascent, r0)) == -1);
    if r0 >= 1 {
        assert(!g.get(ct, r0 - 1));
        assert(winding(cs, sample_x(ct), sample_y(ascent, r0 - 1)) == 0);
    } else {
        lemma_edge_sum_outside(es, w, h, ct, r0 - 1);
        assert(winding(cs, sample_x(ct), sample_y(ascent, r0 - 1)) == edge_sum(es, ct, r0 - 1));
    }
    if no_y_between(cs, sample_y(ascent, r0), sample_y(ascent, r0 - 1)) {
        lemma_winding_y(cs, wl, sample_x(ct), sample_y(ascent, r0), sample_y(ascent, r0 - 1));
    }
    let (kt, jt) = choose|k: int, j: int|
        0 <= k < cs.len() && 0 <= j < cs[k].points@.len() && sample_y(ascent, r0) < #[trigger] cs[k].points@[j].y
            <= sample_y(ascent, r0 - 1);
    assert(contour_ok(cs[kt], ascent, w, h));
    assert(on_font_lattice(cs[kt].points@[jt], ascent, w, h));
    assert(cs[kt].points@[jt].y == ascent - 10 * r0);
    // Bottom side: between rows r1 and r1 + 1.
    let cb = choose|c: int| #[trigger] g.get(c, r1);
    assert(g.get(cb, r1));
    assert(winding(cs, sample_x(cb), sample_y(ascent, r1)) == -1);
    if r1 + 1 < h {
        assert(!g.get(cb, r1 + 1));
        assert(winding(cs, sample_x(cb), sample_y(ascent, r1 + 1)) == 0);
    } else {
        lemma_edge_sum_outside(es, w, h, cb, r1 + 1);
        assert(winding(cs, sample_x(cb), sample_y(ascent, r1 + 1)) == edge_sum(es, cb, r1 + 1));
    }
    if no_y_between(cs, sample_y(ascent, r1 + 1), sample_y(ascent, r1)) {
        lemma_winding_y(cs, wl, sample_x(cb), sample_y(ascent, r1 + 1), sample_y(ascent, r1));
    }
    let (kb, jb) = choose|k: int, j: int|
        0 <= k < cs.len() && 0 <= j < cs[k].points@.len() && sample_y(ascent, r1 + 1) < #[trigger] cs[k].points@[j].y
            <= sample_y(ascent, r1);
    assert(contour_ok(cs[kb], ascent, w, h));
    assert(on_font_lattice(cs[kb].points@[jb], ascent, w, h));
    assert(cs[kb].points@[jb].y == ascent - 10 * (r1 + 1));
    // The box's sides are contour points, so they are these.
    let (k1, j1) = choose|k: int, j: int|
        0 <= k < cs.len() && 0 <= j < cs[k].points@.len() && #[trigger] cs[k].points@[j].x == x.x_min;
    let (k2, j2) = choose|k: int, j: int|
        0 <= k < cs.len() && 0 <= j < cs[k].points@.len() && #[trigger] cs[k].points@[j].x == x.x_max;
    let (k3, j3) = choose|k: int, j: int|
        0 <= k < cs.len() && 0 <= j < cs[k].points@.len() && #[trigger] cs[k].points@[j].y == x.y_min;
    let (k4, j4) = choose|k: int, j: int|
        0 <= k < cs.len() && 0 <= j < cs[k].points@.len() && #[trigger] cs[k].points@[j].y == x.y_max;
    assert(x.x_min == 10 * c0);
    assert(x.x_max == 10 * (c1 + 1));
    assert(x.y_min == ascent - 10 * (r1 + 1));
    assert(x.y_max == ascent - 10 * r0);
}

/// Contours of at least three points have a bounding box exactly when there
/// is at least one of them.
proof fn lemma_bbox_none_iff_empty(cs: Seq<Contour>, b: Option<BBox>, ascent: int, w: int, h: int)
    requires
        bbox_of(cs, b),
        forall|k: int| 0 <= k < cs.len() ==> contour_ok(#[trigger] cs[k], ascent, w, h),
    ensures
        b is None <==> cs.len() == 0,
{
    if b is None && cs.len() > 0 {
        assert(contour_ok(cs[0], ascent, w, h));
        assert(cs[0].points@.len() == 0);
    }
    if cs.len() == 0 && b is Some {
        let (k, j) = choose|k: int, j: int|
            0 <= k < cs.len() && 0 <= j < cs[k].points@.len() && #[trigger] cs[k].points@[j].x == b->0.x_min;
        assert(false);
    }
}

/// The winding number around a point of two lists of contours together is
/// the sum of their winding numbers.
pub proof fn law_winding_additive(a: Seq<Contour>, b: Seq<Contour>, px: int, py: int)
    ensures
        winding(a + b, px, py) == winding(a, px, py) + winding(b, px, py),
{
    lemma_winding_concat(a, b, b.len() as int, px, py);
}

proof fn lemma_winding_concat(a: Seq<Contour>, b: Seq<Contour>, m: int, px: int, py: int)
    requires
        0 <= m <= b.len(),
    ensures
        winding_upto(a + b, a.len() + m, px, py) == winding(a, px, py) + winding_upto(b, m, px, py),
    decreases m,
{
    if m > 0 {
        lemma_winding_concat(a, b, m - 1, px, py);
        assert((a + b)[a.len() + m - 1] == b[m - 1]);
    } else {
        lemma_winding_prefix(a, b, a.len() as int, px, py);
    }
}

proof fn lemma_winding_prefix(a: Seq<Contour>, b: Seq<Contour>, m: int, px: int, py: int)
    requires
        0 <= m <= a.len(),
    ensures
        winding_upto(a + b, m, px, py) == winding_upto(a, m, px, py),
    decreases m,
{
    if m > 0 {
        lemma_winding_prefix(a, b, m - 1, px, py);
        assert((a + b)[m - 1] == a[m - 1]);
    }
}

/// A contour of fewer than two points has no sides, so it winds around no
/// point.
pub proof fn law_short_contour_winds_zero(ct: Contour, px: int, py: int)
    requires
        ct.points@.len() < 2,
    ensures
        winding(seq![ct], px, py) == 0,
{
    let cs = seq![ct];
    assert(cs[0] == ct);
    assert(winding_upto(cs, 0, px, py) == 0);
    assert(contour_winding(ct.points@, px, py) == 0);
    assert(winding_upto(cs, 1, px, py) == winding_upto(cs, 0, px, py) + contour_winding(cs[0].points@, px, py));
}

/// The points of `pts` in reverse order.
pub open spec fn reversed(pts: Seq<Point>) -> Seq<Point> {
    Seq::new(pts.len(), |i: int| pts[pts.len() - 1 - i])
}

proof fn lemma_edge_cross_flip(a: Point, b: Point, px: int, py: int)
    ensures
        edge_cross(b, a, px, py) == -edge_cross(a, b, px, py),
{
}

proof fn lemma_reversed_partial(pts: Seq<Point>, k: int, px: int, py: int)
    requires
        pts.len() >= 2,
        0 <= k <= pts.len() - 1,
    ensures
        contour_partial(reversed(pts), k, px, py) == contour_partial(pts, pts.len() - 1 - k, px, py)
            - contour_partial(pts, pts.len() - 1, px, py),
    decreases k,
{
    let n = pts.len() as int;
    let r = reversed(pts);
    if k > 0 {
        lemma_reversed_partial(pts, k - 1, px, py);
        let i = k - 1;
        vstd::arithmetic::div_mod::lemma_small_mod(k as nat, n as nat);
        let j = n - 1 - k;
        vstd::arithmetic::div_mod::lemma_small_mod((j + 1) as nat, n as nat);
        assert(r[i] == pts[j + 1]);
        assert(r[k % n] == pts[j]);
        lemma_edge_cross_flip(pts[j], pts[j + 1], px, py);
        assert(contour_partial(pts, j + 1, px, py) == contour_partial(pts, j, px, py) + edge_cross(
            pts[j],
            pts[(j + 1) % n],
            px,
            py,
        ));
    }
}

/// Walking a contour backwards negates its winding number around every
/// point.
pub proof fn law_reversed_contour_winding(pts: Seq<Point>, px: int, py: int)
    ensures
        contour_winding(reversed(pts), px, py) == -contour_winding(pts, px, py),
{
    let n = pts.len() as int;
    if n >= 2 {
        let r = reversed(pts);
        lemma_reversed_partial(pts, n - 1, px, py);
        vstd::arithmetic::div_mod::lemma_mod_self_0(n);
        vstd::arithmetic::div_mod::lemma_small_mod((n - 1) as nat, n as nat);
        assert(r[n - 1] == pts[0]);
        assert(r[n % n] == pts[n - 1]);
        lemma_edge_cross_flip(pts[n - 1], pts[0], px, py);
        assert(contour_partial(pts, n, px, py) == contour_partial(pts, n - 1, px, py) + edge_cross(
            pts[n - 1],
            pts[n % n],
            px,
            py,
        ));
        assert(contour_partial(pts, 0, px, py) == 0);
    }
}

/// Rasterizing puts a pixel exactly where the contours wind around its centre.
pub open spec fn rasterizes_to(cs: Seq<Contour>, ascent: int, g: GridView) -> bool {
    forall|c: int, r: int|
        0 <= c < g.width && 0 <= r < g.height ==> #[trigger] g.get(c, r) == (winding(
            cs,
            sample_x(c),
            sample_y(ascent, r),
        ) != 0)
}

/// Vectorizing a grid and rasterizing the resulting contours at the same size
/// and ascent gives the same grid back.
pub proof fn law_vectorize_rasterize_roundtrip(
    g: GridView,
    ascent: int,
    contours: Seq<Contour>,
    back: GridView,
)
    requires
        g.wf(),
        back.wf(),
        back.width == g.width,
        back.height == g.height,
        winds_like(g, ascent, contours),
        rasterizes_to(contours, ascent, back),
    ensures
        back == g,
{
    assert forall|c: int, r: int|
        0 <= c < g.width && 0 <= r < g.height implies g.get(c, r) == back.get(c, r) by {
        assert(back.get(c, r) == (winding(contours, sample_x(c), sample_y(ascent, r)) != 0));
    }
    crate::font::lemma_view_ext(g, back);
}

} // verus!
