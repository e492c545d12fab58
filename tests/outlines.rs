use maditor::channels::{Matrix, ViewRef};
use maditor::contours::{find_contours, trace_border, Contour, Point};

fn plane(w: u32, h: u32, set: &[(u32, u32)]) -> Matrix<u8> {
    let mut m = Matrix::<u8>::new(w, h);
    for &(x, y) in set {
        m.set(x, y, 255);
    }
    m
}

fn filled(w: u32, h: u32) -> Matrix<u8> {
    let mut all = vec![];
    for y in 0..h {
        for x in 0..w {
            all.push((x, y));
        }
    }
    plane(w, h, &all)
}

fn pts(v: &[(u32, u32)]) -> Vec<Point<u32>> {
    v.iter().map(|&(x, y)| Point::new(x, y)).collect()
}

fn check_chain(c: &Contour) {
    assert!(!c.points.is_empty());
    for w in c.points.windows(2) {
        let dx = w[1].x as i64 - w[0].x as i64;
        let dy = w[1].y as i64 - w[0].y as i64;
        assert!(dx.abs() <= 1 && dy.abs() <= 1 && (dx, dy) != (0, 0));
    }
    if c.points.len() > 1 {
        let first = c.points[0];
        let last = c.points[c.points.len() - 1];
        let dx = first.x as i64 - last.x as i64;
        let dy = first.y as i64 - last.y as i64;
        assert!(dx.abs() <= 1 && dy.abs() <= 1 && (dx, dy) != (0, 0));
    }
}

#[test]
fn empty_selection_has_no_contours() {
    let m = plane(5, 4, &[]);
    assert!(find_contours(m.as_view()).is_empty());
    let m = plane(0, 0, &[]);
    assert!(find_contours(m.as_view()).is_empty());
}

#[test]
fn values_below_255_are_not_selected() {
    let mut m = Matrix::<u8>::new(3, 3);
    m.set(1, 1, 254);
    assert!(find_contours(m.as_view()).is_empty());
}

#[test]
fn single_pixel_gives_outer_and_hole_contours() {
    for &(px, py) in &[(0u32, 0u32), (2, 1), (4, 3)] {
        let m = plane(5, 4, &[(px, py)]);
        let c = find_contours(m.as_view());
        assert_eq!(c.len(), 2);
        assert_eq!(c[0].points, pts(&[(px, py)]));
        assert_eq!(c[1].points, pts(&[(px, py)]));
    }
    let m = plane(3, 3, &[(1, 1)]);
    let c = find_contours(m.as_view());
    assert_eq!(c.len(), 2);
    assert_eq!(c[0].points, pts(&[(1, 1)]));
    assert_eq!(c[1].points, pts(&[(1, 1)]));
}

#[test]
fn filled_plane_has_one_contour_round_its_edge() {
    for &(w, h) in &[(2u32, 2u32), (4, 4), (5, 3), (3, 7)] {
        let m = filled(w, h);
        let c = find_contours(m.as_view());
        assert_eq!(c.len(), 1, "{}x{}", w, h);
        assert_eq!(c[0].points.len() as u32, 2 * (w + h) - 4, "{}x{}", w, h);
        check_chain(&c[0]);
        for p in &c[0].points {
            assert!(p.x == 0 || p.y == 0 || p.x == w - 1 || p.y == h - 1);
        }
    }
}

#[test]
fn two_by_two_contour_in_tracing_order() {
    let m = filled(2, 2);
    let c = find_contours(m.as_view());
    assert_eq!(c[0].points, pts(&[(0, 0), (0, 1), (1, 1), (1, 0)]));
}

#[test]
fn thin_shapes() {
    let m = filled(1, 1);
    let c = find_contours(m.as_view());
    assert_eq!(c.len(), 2);
    assert_eq!(c[0].points, pts(&[(0, 0)]));
    assert_eq!(c[1].points, pts(&[(0, 0)]));

    let m = filled(3, 1);
    let c = find_contours(m.as_view());
    assert_eq!(c.len(), 1);
    assert_eq!(c[0].points, pts(&[(0, 0), (1, 0), (2, 0), (1, 0)]));
}

#[test]
fn ring_has_outer_and_hole_contours() {
    let mut set = vec![];
    for y in 1..4 {
        for x in 1..4 {
            if (x, y) != (2, 2) {
                set.push((x, y));
            }
        }
    }
    let m = plane(5, 5, &set);
    let c = find_contours(m.as_view());
    assert_eq!(c.len(), 2);
    for contour in &c {
        check_chain(contour);
        for p in &contour.points {
            assert!(set.contains(&(p.x, p.y)));
        }
    }
    assert_eq!(c[0].points.len(), 8);
}

#[test]
fn separate_regions_each_get_contours() {
    let m = plane(6, 3, &[(0, 0), (1, 0), (4, 2), (5, 2)]);
    let c = find_contours(m.as_view());
    assert_eq!(c.len(), 2);
    assert_eq!(c[0].points, pts(&[(0, 0), (1, 0)]));
    assert_eq!(c[1].points, pts(&[(4, 2), (5, 2)]));
}

#[test]
fn contours_of_a_window() {
    let m = filled(4, 4);
    let v = m.view(1, 1, 2, 2);
    let c = find_contours(v);
    assert_eq!(c.len(), 1);
    assert_eq!(c[0].points, pts(&[(0, 0), (0, 1), (1, 1), (1, 0)]));
    let data = [0u8, 255, 0, 0];
    let c = find_contours(ViewRef::new(&data, 2, 0, 0, 2, 2));
    assert_eq!(c.len(), 2);
    assert_eq!(c[0].points, pts(&[(1, 0)]));
    assert_eq!(c[1].points, pts(&[(1, 0)]));
}

#[test]
fn trace_walks_a_labelled_square() {
    // a 2x2 square of labels inside a framed 4x4 grid
    let mut mat = Matrix::<i8>::new(4, 4);
    for &(x, y) in &[(1u32, 1u32), (2, 1), (1, 2), (2, 2)] {
        mat.set(x, y, 1);
    }
    let p = trace_border(Point::new(1, 1), Point::new(2, 1), &mut mat);
    assert_eq!(p, pts(&[(0, 0), (0, 1), (1, 1), (1, 0)]));
    assert_eq!(mat.get(1, 1), 2);
    assert_eq!(mat.get(2, 2), -2);
}
