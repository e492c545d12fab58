use maditor::brushes::BasicBrush;
use maditor::channels::Matrix;

fn painted(size: u32, n: u32, cx: i32, cy: i32) -> Vec<(u32, u32)> {
    let mut m = Matrix::<u8>::new(n, n);
    BasicBrush::new(size, 9).apply(m.as_view_mut(), cx, cy);
    let mut out = vec![];
    for y in 0..n {
        for x in 0..n {
            if m.get(x, y) != 0 {
                assert_eq!(m.get(x, y), 9);
                out.push((x, y));
            }
        }
    }
    out
}

#[test]
fn diameter_one_paints_only_the_centre() {
    for n in 1..6u32 {
        for c in 0..n {
            assert_eq!(painted(1, n, c as i32, (n - 1 - c) as i32), vec![(c, n - 1 - c)]);
        }
    }
}

#[test]
fn diameter_three_paints_the_three_by_three_block() {
    // the diagonal neighbours lie at distance sqrt(2) <= 1.5
    let got = painted(3, 5, 2, 2);
    let mut want = vec![];
    for y in 1..4 {
        for x in 1..4 {
            want.push((x, y));
        }
    }
    assert_eq!(got, want);
}

#[test]
fn diameter_five_leaves_out_the_corners() {
    let got = painted(5, 7, 3, 3);
    assert_eq!(got.len(), 21);
    assert!(!got.contains(&(1, 1)));
    assert!(!got.contains(&(5, 5)));
    assert!(got.contains(&(1, 2)));
    assert!(got.contains(&(3, 1)));
}

#[test]
fn diameter_zero_paints_the_centre() {
    assert_eq!(painted(0, 3, 1, 1), vec![(1, 1)]);
}

#[test]
fn disc_is_clipped_at_the_edges() {
    assert_eq!(painted(3, 4, 0, 0), vec![(0, 0), (1, 0), (0, 1), (1, 1)]);
    // a centre outside the plane still paints the part of the disc inside it
    assert_eq!(painted(5, 3, 4, 1), vec![(2, 0), (2, 1), (2, 2)]);
    assert_eq!(painted(3, 3, 10, 10), vec![]);
}

#[test]
fn centre_left_of_or_above_the_plane_is_clipped_not_moved() {
    assert_eq!(painted(1, 4, -5, -5), vec![]);
    assert_eq!(painted(1, 4, -1, 2), vec![]);
    assert_eq!(
        painted(5, 4, -1, 1),
        vec![(0, 0), (1, 0), (0, 1), (1, 1), (0, 2), (1, 2), (0, 3)]
    );
    assert_eq!(painted(3, 3, 1, -1), vec![(0, 0), (1, 0), (2, 0)]);
}

#[test]
fn brush_in_a_window_stays_in_the_window() {
    let mut m = Matrix::<u8>::new(5, 5);
    BasicBrush::new(3, 1).apply(m.view_mut(1, 1, 2, 2), 0, 0);
    let mut got = vec![];
    for y in 0..5 {
        for x in 0..5 {
            if m.get(x, y) != 0 {
                got.push((x, y));
            }
        }
    }
    assert_eq!(got, vec![(1, 1), (2, 1), (1, 2), (2, 2)]);
}
