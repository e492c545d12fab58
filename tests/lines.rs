use maditor::contours::Point;
use maditor::utils::{interpolate_points, plot_line, plot_line_high, plot_line_low};

fn pts(v: &[(i32, i32)]) -> Vec<Point<i32>> {
    v.iter().map(|&(x, y)| Point::new(x, y)).collect()
}

fn check_continuous(a: (i32, i32), b: (i32, i32)) {
    let line = plot_line(a.0, a.1, b.0, b.1);
    assert!(!line.is_empty());
    for w in line.windows(2) {
        assert!((w[1].x - w[0].x).abs() <= 1, "{:?}", line);
        assert!((w[1].y - w[0].y).abs() <= 1, "{:?}", line);
    }
    let first = line[0];
    let last = line[line.len() - 1];
    let pa = Point::new(a.0, a.1);
    let pb = Point::new(b.0, b.1);
    assert!((first == pa && last == pb) || (first == pb && last == pa));
    let len = (b.0 - a.0).abs().max((b.1 - a.1).abs()) + 1;
    assert_eq!(line.len() as i32, len);
}

#[test]
fn shallow_line_exact_points() {
    assert_eq!(
        plot_line(0, 0, 5, 2),
        pts(&[(0, 0), (1, 0), (2, 1), (3, 1), (4, 2), (5, 2)])
    );
    assert_eq!(plot_line_low(0, 0, 4, 1), pts(&[(0, 0), (1, 0), (2, 0), (3, 1), (4, 1)]));
}

#[test]
fn steep_line_exact_points() {
    assert_eq!(plot_line(0, 0, 2, 5), pts(&[(0, 0), (0, 1), (1, 2), (1, 3), (2, 4), (2, 5)]));
    assert_eq!(plot_line_high(3, 0, 2, 3), pts(&[(3, 0), (3, 1), (2, 2), (2, 3)]));
}

#[test]
fn line_runs_from_the_lower_end() {
    assert_eq!(plot_line(5, 2, 0, 0), plot_line(0, 0, 5, 2));
    assert_eq!(plot_line(3, 3, 0, 0), pts(&[(0, 0), (1, 1), (2, 2), (3, 3)]));
    assert_eq!(plot_line(4, 7, 4, 4), pts(&[(4, 4), (4, 5), (4, 6), (4, 7)]));
    assert_eq!(plot_line(-2, 1, 1, 1), pts(&[(-2, 1), (-1, 1), (0, 1), (1, 1)]));
}

#[test]
fn degenerate_line_is_one_point() {
    assert_eq!(plot_line(7, -3, 7, -3), pts(&[(7, -3)]));
}

#[test]
fn drag_lines_have_no_gaps() {
    let ends = [(0, 0), (9, 4), (-3, 7), (5, -8), (2, 2), (-6, -6), (1, 13), (13, 1)];
    for &a in &ends {
        for &b in &ends {
            check_continuous(a, b);
        }
    }
}

#[test]
fn interpolation_matches_line_either_way() {
    let a = Point::new(1, 8);
    let b = Point::new(6, 2);
    assert_eq!(interpolate_points(a, b), plot_line(1, 8, 6, 2));
    assert_eq!(interpolate_points(b, a), plot_line(1, 8, 6, 2));
}
