use fsexedit::font::PixelGrid;

#[test]
fn a_new_grid_is_blank() {
    let g = PixelGrid::new(8, 16);
    assert_eq!((g.width, g.height), (8, 16));
    for r in 0..16 {
        for c in 0..8 {
            assert!(!g.get(c, r));
        }
    }
    // Outside the grid nothing is filled.
    assert!(!g.get(8, 0));
    assert!(!g.get(0, 16));
}

#[test]
fn set_then_get() {
    let mut g = PixelGrid::new(4, 3);
    g.set(2, 1, true);
    assert!(g.get(2, 1));
    assert!(!g.get(1, 2));
    g.set(2, 1, false);
    assert!(!g.get(2, 1));
    // Setting outside the grid does nothing.
    g.set(9, 9, true);
    assert!(!g.get(9, 9));
}

#[test]
fn toggle_twice_is_no_change() {
    let mut g = PixelGrid::new(4, 3);
    g.set(0, 0, true);
    g.toggle(0, 0);
    assert!(!g.get(0, 0));
    g.toggle(3, 2);
    assert!(g.get(3, 2));
    g.toggle(3, 2);
    assert!(!g.get(3, 2));
}

#[test]
fn rotation_turns_clockwise_and_four_turns_give_the_grid_back() {
    let mut g = PixelGrid::new(3, 2);
    g.set(0, 0, true);
    g.set(2, 1, true);
    let r = g.rotate_cw();
    assert_eq!((r.width, r.height), (2, 3));
    // (c, r) lands on (height - 1 - r, c).
    assert!(r.get(1, 0));
    assert!(r.get(0, 2));
    assert!(!r.get(0, 0));
    let back = r.rotate_cw().rotate_cw().rotate_cw();
    assert_eq!((back.width, back.height), (3, 2));
    for row in 0..2 {
        for col in 0..3 {
            assert_eq!(back.get(col, row), g.get(col, row));
        }
    }
}

#[test]
fn duplicate_is_equal() {
    let mut g = PixelGrid::new(5, 5);
    g.set(4, 4, true);
    let d = g.duplicate();
    assert_eq!(d.width, 5);
    assert!(d.get(4, 4));
    assert_eq!(d.data, g.data);
}
