use maditor::channels::{Matrix, ViewMut, ViewRef};

#[test]
fn matrix_starts_zeroed_and_keeps_writes() {
    let mut m = Matrix::<u8>::new(3, 2);
    assert_eq!(m.width(), 3);
    assert_eq!(m.height(), 2);
    assert_eq!(m.as_slice(), &[0u8; 6][..]);
    m.set(2, 1, 7);
    m.set(0, 1, 9);
    assert_eq!(m.get(2, 1), 7);
    assert_eq!(m.get(0, 1), 9);
    assert_eq!(m.as_slice(), &[0, 0, 0, 9, 0, 7][..]);
}

#[test]
fn sub_view_indexes_against_base_rows() {
    let mut m = Matrix::<u8>::new(4, 3);
    for y in 0..3 {
        for x in 0..4 {
            m.set(x, y, (y * 4 + x) as u8);
        }
    }
    let v = m.view(1, 1, 2, 2);
    assert_eq!(v.width(), 2);
    assert_eq!(v.height(), 2);
    assert_eq!(v.get(0, 0), 5);
    assert_eq!(v.get(1, 0), 6);
    assert_eq!(v.get(0, 1), 9);
    assert_eq!(v.get(1, 1), 10);
    assert!(v.as_slice().is_none());
}

#[test]
fn full_view_exposes_flat_slice() {
    let mut m = Matrix::<u8>::new(2, 2);
    m.set(1, 1, 4);
    let v = m.as_view();
    assert_eq!(v.as_slice(), Some(&[0u8, 0, 0, 4][..]));
    let copy = v.to_matrix();
    assert_eq!(copy.get(1, 1), 4);
}

#[test]
fn view_over_raw_buffer() {
    let data = [1u8, 2, 3, 4, 5, 6];
    let v = ViewRef::new(&data, 3, 1, 0, 2, 2);
    assert_eq!(v.get(0, 0), 2);
    assert_eq!(v.get(1, 1), 6);
    let full = ViewRef::new(&data, 3, 0, 0, 3, 2);
    assert_eq!(full.as_slice(), Some(&data[..]));
}

#[test]
fn mutable_window_writes_into_matrix() {
    let mut m = Matrix::<u8>::new(4, 4);
    {
        let mut w = m.view_mut(2, 1, 2, 3);
        assert_eq!(w.width(), 2);
        assert_eq!(w.height(), 3);
        w.set(1, 2, 8);
        assert_eq!(w.get(1, 2), 8);
    }
    assert_eq!(m.get(3, 3), 8);
    let mut raw = vec![0u8; 6];
    {
        let mut w = ViewMut::new(raw.as_mut_slice(), 3, 0, 1, 3, 1);
        w.set(2, 0, 1);
    }
    assert_eq!(raw, vec![0, 0, 0, 0, 0, 1]);
}

#[test]
fn label_grid_starts_zeroed() {
    let m = Matrix::<i8>::new(2, 3);
    assert_eq!(m.as_slice(), &[0i8; 6][..]);
}
