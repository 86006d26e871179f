use fsexedit::font::PixelGrid;
use fsexedit::grid::{rasterize, vectorize, winding_number};

#[test]
fn test_single_pixel_roundtrip() {
    let mut grid = PixelGrid::new(8, 16);
    grid.set(3, 5, true);
    let (contours, bbox) = vectorize(&grid, 130);
    assert!(!contours.is_empty());
    let bbox = bbox.unwrap();
    assert_eq!(bbox.x_min, 30);
    assert_eq!(bbox.x_max, 40);
    assert_eq!(bbox.y_min, 70); // bottom of pixel: 130 - 6*10
    assert_eq!(bbox.y_max, 80); // top of pixel: 130 - 5*10

    let grid2 = rasterize(&contours, 8, 16, 130);
    assert!(grid2.get(3, 5));
    for r in 0..16 {
        for c in 0..8 {
            if r == 5 && c == 3 {
                continue;
            }
            assert!(!grid2.get(c, r), "pixel ({c},{r}) should be empty");
        }
    }
}

#[test]
fn test_block_roundtrip() {
    // 3x2 block of pixels
    let mut grid = PixelGrid::new(8, 16);
    for r in 4..6 {
        for c in 2..5 {
            grid.set(c, r, true);
        }
    }
    let (contours, _) = vectorize(&grid, 130);
    let grid2 = rasterize(&contours, 8, 16, 130);
    for r in 0..16 {
        for c in 0..8 {
            let expected = r >= 4 && r < 6 && c >= 2 && c < 5;
            assert_eq!(grid2.get(c, r), expected, "pixel ({c},{r})");
        }
    }
}

#[test]
fn test_letter_a_roundtrip() {
    // Reconstruct the A glyph from the font
    let mut grid = PixelGrid::new(8, 16);
    // Row 4: cols 3,4 (top of A)
    grid.set(3, 4, true);
    grid.set(4, 4, true);
    // Row 5: cols 2,3,4,5
    grid.set(2, 5, true);
    grid.set(3, 5, true);
    grid.set(4, 5, true);
    grid.set(5, 5, true);
    // Row 6-8: cols 1,2 and 5,6 (sides)
    for r in 6..9 {
        grid.set(1, r, true);
        grid.set(2, r, true);
        grid.set(5, r, true);
        grid.set(6, r, true);
    }
    // Row 9: cols 1-6 (crossbar)
    for c in 1..7 {
        grid.set(c, 9, true);
    }
    // Row 10-12: cols 1,2 and 5,6 (sides)
    for r in 10..13 {
        grid.set(1, r, true);
        grid.set(2, r, true);
        grid.set(5, r, true);
        grid.set(6, r, true);
    }

    let (contours, _) = vectorize(&grid, 130);
    let grid2 = rasterize(&contours, 8, 16, 130);
    for r in 0..16 {
        for c in 0..8 {
            assert_eq!(
                grid.get(c, r),
                grid2.get(c, r),
                "pixel ({c},{r}): expected={}, got={}",
                grid.get(c, r),
                grid2.get(c, r)
            );
        }
    }
}

#[test]
fn roundtrip_keeps_every_pattern_of_a_small_grid() {
    // All 2^9 patterns of a 3x3 grid inside a 4x4 grid whose last row and
    // column stay empty.
    for bits in 0u32..512 {
        let mut grid = PixelGrid::new(4, 4);
        for i in 0..9usize {
            if bits & (1 << i) != 0 {
                grid.set(i % 3, i / 3, true);
            }
        }
        let (contours, bbox) = vectorize(&grid, 40);
        assert_eq!(contours.is_empty(), bits == 0);
        assert_eq!(bbox.is_none(), bits == 0);
        let back = rasterize(&contours, 4, 4, 40);
        for r in 0..4 {
            for c in 0..4 {
                assert_eq!(back.get(c, r), grid.get(c, r), "pattern {bits} pixel ({c},{r})");
            }
        }
    }
}

#[test]
fn vectorize_of_an_empty_grid_is_empty() {
    let grid = PixelGrid::new(8, 16);
    let (contours, bbox) = vectorize(&grid, 130);
    assert!(contours.is_empty());
    assert!(bbox.is_none());
}

#[test]
fn vectorize_gives_corners_only() {
    // A 3x2 block is one rectangle: four corners, no collinear points.
    let mut grid = PixelGrid::new(8, 16);
    for r in 4..6 {
        for c in 2..5 {
            grid.set(c, r, true);
        }
    }
    let (contours, bbox) = vectorize(&grid, 130);
    assert_eq!(contours.len(), 1);
    assert_eq!(contours[0].points.len(), 4);
    let b = bbox.unwrap();
    assert_eq!((b.x_min, b.x_max, b.y_min, b.y_max), (20, 50, 70, 90));
}

#[test]
fn winding_number_of_a_square() {
    let mut grid = PixelGrid::new(4, 4);
    grid.set(1, 1, true);
    let (contours, _) = vectorize(&grid, 40);
    // Centre of pixel (1, 1): x = 15, y = 40 - 15 = 25.
    assert_ne!(fsexedit::grid::winding_number(&contours, 15, 25), 0);
    assert_eq!(fsexedit::grid::winding_number(&contours, 5, 25), 0);
}

#[test]
fn roundtrip_keeps_every_pattern_reaching_the_far_border() {
    // All patterns of 3x3 and 4x2 grids, including pixels in the last row and
    // column (such as the right column of a 2x2 grid).
    for (w, h) in [(3usize, 3usize), (4, 2), (2, 2), (1, 1)] {
        let n = w * h;
        for bits in 0u32..(1u32 << n) {
            let mut grid = PixelGrid::new(w, h);
            for i in 0..n {
                if bits & (1 << i) != 0 {
                    grid.set(i % w, i / w, true);
                }
            }
            let (contours, bbox) = vectorize(&grid, 40);
            assert_eq!(contours.is_empty(), bits == 0);
            assert_eq!(bbox.is_none(), bits == 0);
            let back = rasterize(&contours, w, h, 40);
            for r in 0..h {
                for c in 0..w {
                    assert_eq!(back.get(c, r), grid.get(c, r), "{w}x{h} pattern {bits} pixel ({c},{r})");
                }
            }
        }
    }
}

#[test]
fn a_corner_pixel_is_one_square() {
    let mut grid = PixelGrid::new(8, 16);
    grid.set(7, 15, true);
    let (contours, bbox) = vectorize(&grid, 130);
    assert_eq!(contours.len(), 1);
    assert_eq!(contours[0].points.len(), 4);
    let bbox = bbox.unwrap();
    assert_eq!((bbox.x_min, bbox.y_min, bbox.x_max, bbox.y_max), (70, -30, 80, -20));
}

#[test]
fn windings_of_two_outlines_add_up() {
    let mut a = PixelGrid::new(6, 6);
    a.set(1, 1, true);
    a.set(2, 1, true);
    let mut b = PixelGrid::new(6, 6);
    b.set(2, 1, true);
    b.set(2, 2, true);
    let (ca, _) = vectorize(&a, 60);
    let (cb, _) = vectorize(&b, 60);
    let mut both = ca.clone();
    both.extend(cb.iter().cloned());
    for r in 0..6i32 {
        for c in 0..6i32 {
            let (x, y) = (c * 10 + 5, 60 - r * 10 - 5);
            assert_eq!(winding_number(&both, x, y), winding_number(&ca, x, y) + winding_number(&cb, x, y));
        }
    }
    // The shared pixel (2, 1) is wound twice.
    assert_eq!(winding_number(&both, 25, 45), -2);
}

#[test]
fn every_side_of_a_traced_contour_is_horizontal_or_vertical() {
    for bits in 0u32..(1u32 << 9) {
        let mut grid = PixelGrid::new(3, 3);
        for i in 0..9usize {
            if bits & (1 << i) != 0 {
                grid.set(i % 3, i / 3, true);
            }
        }
        let (contours, _) = vectorize(&grid, 30);
        for ct in &contours {
            let n = ct.points.len();
            assert!(n >= 3);
            for j in 0..n {
                let (a, b) = (ct.points[j], ct.points[(j + 1) % n]);
                assert!(a.x == b.x || a.y == b.y, "pattern {bits}");
            }
        }
    }
}

#[test]
fn traced_contours_have_corners_only() {
    for bits in 0u32..(1u32 << 12) {
        let mut grid = PixelGrid::new(4, 3);
        for i in 0..12usize {
            if bits & (1 << i) != 0 {
                grid.set(i % 4, i / 4, true);
            }
        }
        let (contours, _) = vectorize(&grid, 30);
        for ct in &contours {
            let p = &ct.points;
            let n = p.len();
            assert!(n >= 4 && n % 2 == 0, "pattern {bits}");
            for j in 0..n {
                let (a, b, c) = (p[j], p[(j + 1) % n], p[(j + 2) % n]);
                let h_then_v = a.y == b.y && a.x != b.x && b.x == c.x && b.y != c.y;
                let v_then_h = a.x == b.x && a.y != b.y && b.y == c.y && b.x != c.x;
                assert!(h_then_v || v_then_h, "pattern {bits}");
            }
        }
    }
}

#[test]
fn two_pixels_in_the_far_corner_are_one_rectangle() {
    let mut g = PixelGrid::new(8, 16);
    g.set(7, 14, true);
    g.set(7, 15, true);
    let (cs, bb) = vectorize(&g, 130);
    assert_eq!(cs.len(), 1);
    let mut pts: Vec<(i32, i32)> = cs[0].points.iter().map(|p| (p.x, p.y)).collect();
    pts.sort();
    assert_eq!(pts, vec![(70, -30), (70, -10), (80, -30), (80, -10)]);
    let bb = bb.unwrap();
    assert_eq!((bb.x_min, bb.y_min, bb.x_max, bb.y_max), (70, -30, 80, -10));
}
