use toyrender::pixmap::Pixmap;

#[test]
fn test_slice() {
    let w = 100;
    let h = 100;

    let mut p = Pixmap::new(w, h, 0);

    p.set(10, 10, 10);

    assert!(p[10][10] == p.data()[10 * w + 10]);
}

#[test]
fn fill_is_read_back_everywhere() {
    let mut p = Pixmap::new(7, 3, 5);
    for y in 0..3 {
        for x in 0..7 {
            assert_eq!(p.get(x, y), 5);
        }
    }
    p.set(6, 2, 9);
    p.fill(-42);
    assert_eq!(p.width(), 7);
    assert_eq!(p.height(), 3);
    for y in 0..3 {
        for x in 0..7 {
            assert_eq!(p.get(x, y), -42);
        }
    }
    assert_eq!(p.data().len(), 21);
    assert!(p.data().iter().all(|&v| v == -42));
}

#[test]
fn reads_outside_the_grid_give_zero() {
    let p = Pixmap::new(4, 2, 77);
    assert_eq!(p.get(-1, 0), 0);
    assert_eq!(p.get(0, -1), 0);
    assert_eq!(p.get(4, 0), 0);
    assert_eq!(p.get(0, 2), 0);
    assert_eq!(p.get(i32::MAX, i32::MAX), 0);
    assert_eq!(p.get(i32::MIN, i32::MIN), 0);
    assert_eq!(p.get(3, 1), 77);
}

#[test]
fn cells_are_stored_row_by_row() {
    let mut p = Pixmap::new(5, 3, 0);
    p.set(4, 1, 11);
    p.set(0, 2, 22);
    assert_eq!(p.data()[1 * 5 + 4], 11);
    assert_eq!(p.data()[2 * 5 + 0], 22);
    assert_eq!(p.get(4, 1), 11);
    assert_eq!(p.get(1, 4), 0);
    assert_eq!(p[1][4], 11);
    assert_eq!(p[2], [22, 0, 0, 0, 0]);
    assert_eq!(p[0].len(), 5);
}

#[test]
fn the_default_grid_is_empty() {
    let p = Pixmap::default();
    assert_eq!(p.width(), 0);
    assert_eq!(p.height(), 0);
    assert_eq!(p.get(0, 0), 0);
    assert!(p.data().is_empty());
}
