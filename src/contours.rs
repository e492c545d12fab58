//! Border following over a binary selection plane.
//!
//! The plane is thresholded at 255 into a label grid with a one-cell frame of
//! zeros, then scanned row by row. Each outer or hole border start found by
//! the scan is traced with Moore-neighbour following into one contour; traced
//! pixels are relabelled so that the scan does not start on them again.
use vstd::prelude::*;
use crate::channels::{row_major, Matrix, ViewRef};
use crate::moore::{
    direction_to, lemma_dir_injective, lemma_dir_opposite, lemma_direction_to, lemma_step_valid,
    lemma_walk_returns, lemma_walk_valid, right_examined, search_from, walk_cells, walk_state,
    WalkState,
};

verus! {

/// A point of the plane.
#[derive(Copy, Clone, Debug, Eq, PartialEq)]
pub struct Point<T> {
    pub x: T,
    pub y: T,
}

impl<T> Point<T> {
    pub fn new(x: T, y: T) -> (p: Self)
        ensures
            p.x == x,
            p.y == y,
    {
        Point { x, y }
    }
}

/// One closed border of the selection, as its pixels in tracing order.
/// The nesting links are part of the shape of a contour but are not filled in.
#[derive(Debug)]
pub struct Contour {
    pub points: Vec<Point<u32>>,
    previous: Option<u32>,
    next: Option<u32>,
    parent: Option<u32>,
    child: Option<u32>,
}

impl Contour {
    /// The border pixels, in tracing order.
    pub closed spec fn path(&self) -> Seq<Point<u32>> {
        self.points@
    }

    /// A contour with the given points and no nesting links.
    pub fn from_points(points: Vec<Point<u32>>) -> (c: Self)
        ensures
            c.path() == points@,
    {
        Contour { points, previous: None, next: None, parent: None, child: None }
    }
}

/// Column offset of neighbour `k`, neighbours numbered counter-clockwise from the
/// right one (rows grow downwards).
pub open spec fn dir_dx(k: int) -> int {
    if k == 0 || k == 1 || k == 7 {
        1
    } else if k == 3 || k == 4 || k == 5 {
        -1
    } else {
        0
    }
}

/// Row offset of neighbour `k`, numbered as in `dir_dx`.
pub open spec fn dir_dy(k: int) -> int {
    if k == 1 || k == 2 || k == 3 {
        -1
    } else if k == 5 || k == 6 || k == 7 {
        1
    } else {
        0
    }
}

/// `p` and `q` are distinct 8-neighbours.
pub open spec fn adjacent8(p: Point<u32>, q: Point<u32>) -> bool {
    &&& p != q
    &&& -1 <= p.x - q.x <= 1
    &&& -1 <= p.y - q.y <= 1
}

/// Every point of `s` after the first is an 8-neighbour of the one before it.
pub open spec fn is_chain(s: Seq<Point<u32>>) -> bool {
    forall|i: int| 0 < i < s.len() ==> #[trigger] adjacent8(s[i - 1], s[i])
}

/// `s` is one point, or its last point is an 8-neighbour of its first, so
/// that it closes into a loop.
pub open spec fn closes(s: Seq<Point<u32>>) -> bool {
    s.len() == 1 || adjacent8(s[s.len() - 1], s[0])
}

/// Cell `(x, y)` lies on the outermost frame of a `w` by `h` grid.
pub open spec fn on_frame(w: int, h: int, x: int, y: int) -> bool {
    x == 0 || y == 0 || x == w - 1 || y == h - 1
}

/// The label grid has zeros all round its frame.
pub open spec fn framed(mat: Matrix<i8>) -> bool {
    &&& mat.wf()
    &&& mat.w() >= 2
    &&& mat.h() >= 2
    &&& forall|x: int, y: int|
        0 <= x < mat.w() && 0 <= y < mat.h() && on_frame(mat.w() as int, mat.h() as int, x, y)
            ==> #[trigger] mat.at(x, y) == 0
}

/// `a` and `b` are zero at the same cells.
pub open spec fn same_support(a: Seq<i8>, b: Seq<i8>) -> bool {
    &&& a.len() == b.len()
    &&& forall|i: int| 0 <= i < a.len() ==> (#[trigger] a[i] == 0) == (b[i] == 0)
}

/// The pixel of the plane under grid cell `(x, y)` of the framed grid.
pub open spec fn unframed(x: int, y: int) -> Point<u32> {
    Point { x: (x - 1) as u32, y: (y - 1) as u32 }
}

/// Every point of `s` sits on a non-zero cell of `mat`, one row and column in from
/// where the frame shifts it.
pub open spec fn on_foreground(mat: Matrix<i8>, s: Seq<Point<u32>>) -> bool {
    forall|i: int|
        0 <= i < s.len() ==> {
            &&& 1 <= #[trigger] s[i].x + 1 < mat.w() - 1
            &&& 1 <= s[i].y + 1 < mat.h() - 1
            &&& mat.at(s[i].x + 1, s[i].y + 1) != 0
        }
}

/// `p` is one of the points of `s`.
pub open spec fn lists(s: Seq<Point<u32>>, p: Point<u32>) -> bool {
    exists|q: int| 0 <= q < s.len() && s[q] == p
}

/// Every cell of `after` either holds what it held in `before` or has been
/// relabelled 2 or -2 and lies under one of `points`.
pub open spec fn relabelled_within(before: Matrix<i8>, after: Matrix<i8>, points: Seq<Point<u32>>) -> bool {
    forall|i: int, j: int|
        0 <= i < after.w() && 0 <= j < after.h() ==> #[trigger] after.at(i, j) == before.at(i, j) || (
        (after.at(i, j) == 2 || after.at(i, j) == -2) && lists(points, unframed(i, j)))
}

/// Every cell that differs between `before` and `after` was relabelled by the
/// tracing rule: -2 where its right neighbour is zero, or 2 where it held 1.
pub open spec fn relabel_rule(before: Matrix<i8>, after: Matrix<i8>) -> bool {
    forall|i: int, j: int|
        0 <= i < after.w() && 0 <= j < after.h() && #[trigger] after.at(i, j) != before.at(i, j) ==> (
        after.at(i, j) == -2 && before.at(i + 1, j) == 0) || (after.at(i, j) == 2 && before.at(i, j)
            == 1)
}

/// No cell under a point of `points` holds label 1.
pub open spec fn visited_relabelled(mat: Matrix<i8>, points: Seq<Point<u32>>) -> bool {
    forall|q: int| 0 <= q < points.len() ==> mat.at(#[trigger] points[q].x + 1, points[q].y + 1) != 1
}

/// Cell `(x, y)` plus neighbour offset `k`.
fn neighbour(x: u32, y: u32, k: usize) -> (r: (u32, u32))
    requires
        1 <= x < u32::MAX,
        1 <= y < u32::MAX,
        k < 8,
    ensures
        r.0 == x + dir_dx(k as int),
        r.1 == y + dir_dy(k as int),
{
    let nx = if k == 0 || k == 1 || k == 7 {
        x + 1
    } else if k == 3 || k == 4 || k == 5 {
        x - 1
    } else {
        x
    };
    let ny = if k == 1 || k == 2 || k == 3 {
        y - 1
    } else if k == 5 || k == 6 || k == 7 {
        y + 1
    } else {
        y
    };
    (nx, ny)
}

proof fn lemma_neighbour_inside(mat: Matrix<i8>, x: int, y: int, k: int)
    requires
        mat.wf(),
        1 <= x < mat.w() - 1,
        1 <= y < mat.h() - 1,
        0 <= k < 8,
    ensures
        0 <= x + dir_dx(k) < mat.w(),
        0 <= y + dir_dy(k) < mat.h(),
{
}

/// A non-zero cell of a framed grid lies inside the frame.
pub proof fn lemma_nonzero_inside(mat: Matrix<i8>, x: int, y: int)
    requires
        framed(mat),
        0 <= x < mat.w(),
        0 <= y < mat.h(),
        mat.at(x, y) != 0,
    ensures
        1 <= x < mat.w() - 1,
        1 <= y < mat.h() - 1,
{
    if on_frame(mat.w() as int, mat.h() as int, x, y) {
        assert(mat.at(x, y) == 0);
    }
}

/// Writing a non-zero label over a non-zero cell keeps the grid framed and keeps
/// its support.
proof fn lemma_relabel(before: Matrix<i8>, after: Matrix<i8>, x: int, y: int, v: i8)
    requires
        framed(before),
        0 <= x < before.w(),
        0 <= y < before.h(),
        before.at(x, y) != 0,
        v != 0,
        after.wf(),
        after.w() == before.w(),
        after.h() == before.h(),
        after.cells() == before.cells().update(row_major(before.w() as int, x, y), v),
    ensures
        framed(after),
        same_support(after.cells(), before.cells()),
        forall|i: int, j: int|
            0 <= i < after.w() && 0 <= j < after.h() ==> (#[trigger] after.at(i, j) == 0) == (
            before.at(i, j) == 0),
{
    crate::channels::lemma_window_index(
        before.cells().len(),
        before.w(),
        0,
        0,
        before.w(),
        before.h(),
        x as nat,
        y as nat,
    );
    assert forall|i: int, j: int| 0 <= i < after.w() && 0 <= j < after.h() implies (
    #[trigger] after.at(i, j) == 0) == (before.at(i, j) == 0) by {
        crate::channels::lemma_window_index(
            before.cells().len(),
            before.w(),
            0,
            0,
            before.w(),
            before.h(),
            i as nat,
            j as nat,
        );
    }
}

/// One relabelling step of the walk, at the cell under the last listed point,
/// keeps the tracing rule and leaves no listed cell holding 1.
proof fn lemma_relabel_step(
    initial: Matrix<i8>,
    pre: Matrix<i8>,
    after: Matrix<i8>,
    x: int,
    y: int,
    v: i8,
    changed: bool,
    points: Seq<Point<u32>>,
)
    requires
        pre.wf(),
        after.wf(),
        1 <= x < pre.w() - 1,
        1 <= y < pre.h() - 1,
        x <= u32::MAX,
        y <= u32::MAX,
        after.w() == pre.w() == initial.w(),
        after.h() == pre.h() == initial.h(),
        relabel_rule(initial, pre),
        points.len() >= 1,
        points[points.len() - 1] == unframed(x, y),
        forall|q: int|
            0 <= q < points.len() - 1 ==> pre.at(#[trigger] points[q].x + 1, points[q].y + 1) != 1,
        forall|q: int|
            0 <= q < points.len() ==> 1 <= #[trigger] points[q].x + 1 < pre.w() - 1 && 1
                <= points[q].y + 1 < pre.h() - 1,
        changed ==> after.cells() == pre.cells().update(row_major(pre.w() as int, x, y), v),
        changed ==> (v == -2 && initial.at(x + 1, y) == 0) || (v == 2 && pre.at(x, y) == 1),
        !changed ==> after == pre && pre.at(x, y) != 1,
    ensures
        relabel_rule(initial, after),
        visited_relabelled(after, points),
{
    if changed {
        crate::channels::lemma_window_index(pre.cells().len(), pre.w(), 0, 0, pre.w(), pre.h(), x as nat, y as nat);
        assert forall|i: int, j: int| 0 <= i < after.w() && 0 <= j < after.h() implies #[trigger] after.at(
            i,
            j,
        ) == (if i == x && j == y {
            v
        } else {
            pre.at(i, j)
        }) by {
            crate::channels::lemma_window_index(pre.cells().len(), pre.w(), 0, 0, pre.w(), pre.h(), i as nat, j as nat);
            if (i != x || j != y) && row_major(pre.w() as int, i, j) == row_major(pre.w() as int, x, y) {
                crate::channels::lemma_window_index_injective(pre.w(), i as nat, j as nat, x as nat, y as nat);
            }
        }
        if v == 2 {
            // a cell that still holds 1 was never relabelled
            assert(initial.at(x, y) == 1);
        }
        assert forall|q: int| 0 <= q < points.len() implies after.at(
            #[trigger] points[q].x + 1,
            points[q].y + 1,
        ) != 1 by {
            assert(0 <= points[q].x + 1 < after.w());
            assert(0 <= points[q].y + 1 < after.h());
        }
    } else {
        assert forall|q: int| 0 <= q < points.len() implies after.at(
            #[trigger] points[q].x + 1,
            points[q].y + 1,
        ) != 1 by {
            if q == points.len() - 1 {
                assert(points[q].x + 1 == x && points[q].y + 1 == y);
            }
        }
    }
}

/// Relabelling a cell that lies under a listed point keeps every change listed.
proof fn lemma_relabel_listed(
    before: Matrix<i8>,
    after: Matrix<i8>,
    initial: Matrix<i8>,
    x: int,
    y: int,
    v: i8,
    points: Seq<Point<u32>>,
)
    requires
        before.wf(),
        0 <= x < before.w(),
        0 <= y < before.h(),
        v == 2 || v == -2,
        after.wf(),
        after.w() == before.w(),
        after.h() == before.h(),
        initial.w() == before.w(),
        initial.h() == before.h(),
        after.cells() == before.cells().update(row_major(before.w() as int, x, y), v),
        lists(points, unframed(x, y)),
        relabelled_within(initial, before, points),
    ensures
        relabelled_within(initial, after, points),
{
    assert forall|i: int, j: int| 0 <= i < after.w() && 0 <= j < after.h() implies #[trigger] after.at(i, j)
        == initial.at(i, j) || ((after.at(i, j) == 2 || after.at(i, j) == -2) && lists(
        points,
        unframed(i, j),
    )) by {
        crate::channels::lemma_window_index(
            before.cells().len(),
            before.w(),
            0,
            0,
            before.w(),
            before.h(),
            i as nat,
            j as nat,
        );
        crate::channels::lemma_window_index(
            before.cells().len(),
            before.w(),
            0,
            0,
            before.w(),
            before.h(),
            x as nat,
            y as nat,
        );
        if i != x || j != y {
            if row_major(before.w() as int, i, j) == row_major(before.w() as int, x, y) {
                crate::channels::lemma_window_index_injective(
                    before.w(),
                    i as nat,
                    j as nat,
                    x as nat,
                    y as nat,
                );
            }
            assert(after.at(i, j) == before.at(i, j));
        }
    }
}

/// The walk state at `start`, entered from `before_start`.
pub open spec fn start_pair(start: Point<u32>, before_start: Point<u32>) -> WalkState {
    (
        start.x as int,
        start.y as int,
        direction_to(start.x as int, start.y as int, before_start.x as int, before_start.y as int),
    )
}

/// Follows the border through `start`, entered from its neighbour
/// `before_start`, around the non-zero cells of `mat` and returns the border
/// pixels in order, shifted back out of the frame.
///
/// At each pixel the neighbours are searched counter-clockwise, starting just
/// past the pixel the walk came from, for the first non-zero one, which is the
/// next pixel. The current pixel is relabelled -2 when its right neighbour was
/// searched and is zero, and 2 when its right neighbour was not searched and it
/// still holds 1. The walk ends when it is about to enter `start` from
/// `before_start` again, which it always comes to: one step is one-to-one on
/// (pixel, came-from) pairs, so the starting pair comes round again.
#[verifier::rlimit(80)]
pub fn trace_border(start: Point<u32>, before_start: Point<u32>, mat: &mut Matrix<i8>) -> (points:
    Vec<Point<u32>>)
    requires
        framed(*old(mat)),
        1 <= start.x < old(mat).w() - 1,
        1 <= start.y < old(mat).h() - 1,
        old(mat).at(start.x as int, start.y as int) != 0,
        adjacent8(start, before_start),
        old(mat).at(before_start.x as int, before_start.y as int) != 0,
    ensures
        framed(*final(mat)),
        final(mat).w() == old(mat).w(),
        final(mat).h() == old(mat).h(),
        same_support(final(mat).cells(), old(mat).cells()),
        points@.len() >= 1,
        points@[0] == unframed(start.x as int, start.y as int),
        is_chain(points@),
        on_foreground(*old(mat), points@),
        relabelled_within(*old(mat), *final(mat), points@),
        relabel_rule(*old(mat), *final(mat)),
        visited_relabelled(*final(mat), points@),
        points@[points@.len() - 1] == unframed(before_start.x as int, before_start.y as int),
        closes(points@),
        walk_state(*old(mat), start_pair(start, before_start), points@.len()) == start_pair(
            start,
            before_start,
        ),
        forall|n: nat|
            1 <= n < points@.len() ==> #[trigger] walk_state(*old(mat), start_pair(start, before_start), n)
                != start_pair(start, before_start),
        forall|q: int|
            0 <= q < points@.len() ==> #[trigger] points@[q] == unframed(
                walk_state(*old(mat), start_pair(start, before_start), q as nat).0,
                walk_state(*old(mat), start_pair(start, before_start), q as nat).1,
            ),
        final(mat).cells() == walk_cells(*old(mat), start_pair(start, before_start), points@.len()),
{
    let ghost initial = *mat;
    let mut points: Vec<Point<u32>> = Vec::new();
    let mut cx: u32 = start.x;
    let mut cy: u32 = start.y;
    // direction, seen from the current pixel, of the pixel the walk came from
    let mut from: usize = if before_start.x > start.x {
        if before_start.y < start.y {
            1
        } else if before_start.y > start.y {
            7
        } else {
            0
        }
    } else if before_start.x < start.x {
        if before_start.y < start.y {
            3
        } else if before_start.y > start.y {
            5
        } else {
            4
        }
    } else if before_start.y < start.y {
        2
    } else {
        6
    };
    let mat_w = mat.width();
    let mat_h = mat.height();
    let ghost s0 = start_pair(start, before_start);
    proof {
        assert(from == s0.2);
        lemma_direction_to(start.x as int, start.y as int, s0.2);
        lemma_dir_opposite(s0.2);
        assert(before_start.x == start.x + dir_dx(s0.2) && before_start.y == start.y + dir_dy(s0.2)) by {
            if before_start.x != start.x + dir_dx(s0.2) || before_start.y != start.y + dir_dy(s0.2) {
                assert(false);
            }
        }
        lemma_walk_returns(initial, s0);
    }
    let ghost m: nat = choose|m: nat| 1 <= m <= 8 * (initial.h() * initial.w()) && #[trigger] walk_state(
        initial,
        s0,
        m,
    ) == s0;
    loop
        invariant_except_break
            framed(*mat),
            mat.w() == initial.w() == mat_w,
            mat.h() == initial.h() == mat_h,
            same_support(mat.cells(), initial.cells()),
            forall|i: int, j: int|
                0 <= i < mat.w() && 0 <= j < mat.h() ==> (#[trigger] mat.at(i, j) == 0) == (
                initial.at(i, j) == 0),
            1 <= cx < mat_w - 1,
            1 <= cy < mat_h - 1,
            initial.at(cx as int, cy as int) != 0,
            from < 8,
            initial.at(cx + dir_dx(from as int), cy + dir_dy(from as int)) != 0,
            points@.len() == 0 ==> cx == start.x && cy == start.y,
            points@.len() > 0 ==> points@[0] == unframed(start.x as int, start.y as int),
            points@.len() > 0 ==> adjacent8(
                points@[points@.len() - 1],
                unframed(cx as int, cy as int),
            ),
            is_chain(points@),
            on_foreground(initial, points@),
            relabelled_within(initial, *mat, points@),
            relabel_rule(initial, *mat),
            visited_relabelled(*mat, points@),
            crate::moore::valid(initial, s0),
            framed(initial),
            before_start.x == start.x + dir_dx(s0.2) && before_start.y == start.y + dir_dy(s0.2),
            0 <= s0.2 < 8,
            s0 == start_pair(start, before_start),
            walk_state(initial, s0, m) == s0,
            1 <= m,
            points@.len() < m,
            (cx as int, cy as int, from as int) == walk_state(initial, s0, points@.len()),
            mat.cells() == walk_cells(initial, s0, points@.len()),
            forall|n: nat| 1 <= n <= points@.len() ==> #[trigger] walk_state(initial, s0, n) != s0,
            forall|q: int|
                0 <= q < points@.len() ==> #[trigger] points@[q] == unframed(
                    walk_state(initial, s0, q as nat).0,
                    walk_state(initial, s0, q as nat).1,
                ),
        ensures
            framed(*mat),
            mat.w() == initial.w(),
            mat.h() == initial.h(),
            same_support(mat.cells(), initial.cells()),
            points@.len() >= 1,
            points@[0] == unframed(start.x as int, start.y as int),
            is_chain(points@),
            on_foreground(initial, points@),
            relabelled_within(initial, *mat, points@),
            relabel_rule(initial, *mat),
            visited_relabelled(*mat, points@),
            points@[points@.len() - 1] == unframed(before_start.x as int, before_start.y as int),
            walk_state(initial, s0, points@.len()) == s0,
            forall|n: nat| 1 <= n < points@.len() ==> #[trigger] walk_state(initial, s0, n) != s0,
            forall|q: int|
                0 <= q < points@.len() ==> #[trigger] points@[q] == unframed(
                    walk_state(initial, s0, q as nat).0,
                    walk_state(initial, s0, q as nat).1,
                ),
            mat.cells() == walk_cells(initial, s0, points@.len()),
        decreases m - points@.len(),
    {
        // search counter-clockwise, starting just past the pixel the walk came from
        let mut examined_right = false;
        let mut offset: usize = 0;
        let mut found: usize = 8;
        while offset < 8
            invariant
                framed(*mat),
                mat.w() == mat_w,
                mat.h() == mat_h,
                1 <= cx < mat_w - 1,
                1 <= cy < mat_h - 1,
                from < 8,
                mat.at(cx + dir_dx(from as int), cy + dir_dy(from as int)) != 0,
                offset <= 8,
                examined_right ==> mat.at(cx + 1, cy as int) == 0,
                forall|i: int, j: int|
                    0 <= i < mat.w() && 0 <= j < mat.h() ==> (#[trigger] mat.at(i, j) == 0) == (
                    initial.at(i, j) == 0),
                initial.w() == mat_w,
                initial.h() == mat_h,
                found == 8 ==> search_from(initial, cx as int, cy as int, from as int, offset as int)
                    == search_from(initial, cx as int, cy as int, from as int, 0),
                found == 8 ==> examined_right == (7 - from < offset),
                found < 8 ==> found == (from + 1 + search_from(initial, cx as int, cy as int, from as int, 0)) % 8,
                found < 8 ==> examined_right == (7 - from < search_from(initial, cx as int, cy as int, from as int, 0)),
                found == 8 || found < 8,
                found < 8 ==> offset == 8,
                found < 8 ==> mat.at(cx + dir_dx(found as int), cy + dir_dy(found as int)) != 0,
                found == 8 ==> offset < 8 || offset == 8,
                found == 8 && offset == 8 ==> false,
                found == 8 ==> forall|o: int|
                    0 <= o < offset ==> #[trigger] mat.at(
                        cx + dir_dx((o + from + 1) % 8),
                        cy + dir_dy((o + from + 1) % 8),
                    ) == 0,
            decreases 8 - offset,
        {
            let idx = (offset + from + 1) % 8;
            let (nx, ny) = neighbour(cx, cy, idx);
            proof {
                lemma_neighbour_inside(*mat, cx as int, cy as int, idx as int);
            }
            if mat.get(nx, ny) == 0 {
                if idx == 0 {
                    examined_right = true;
                }
                proof {
                    if offset == 7 {
                        assert((7 + from + 1) % 8 == from as int);
                    }
                }
                offset = offset + 1;
            } else {
                proof {
                    assert(search_from(initial, cx as int, cy as int, from as int, offset as int) == offset);
                }
                found = idx;
                offset = 8;
            }
        }
        let (nx, ny) = neighbour(cx, cy, found);
        proof {
            lemma_neighbour_inside(*mat, cx as int, cy as int, found as int);
            lemma_nonzero_inside(*mat, nx as int, ny as int);
        }
        let ghost before_push = points@;
        points.push(Point::new(cx - 1, cy - 1));
        proof {
            assert(points@[points@.len() - 1] == unframed(cx as int, cy as int));
            assert forall|i: int, j: int| 0 <= i < mat.w() && 0 <= j < mat.h() implies #[trigger] mat.at(i, j)
                == initial.at(i, j) || ((mat.at(i, j) == 2 || mat.at(i, j) == -2) && lists(
                points@,
                unframed(i, j),
            )) by {
                if mat.at(i, j) != initial.at(i, j) {
                    let q = choose|q: int| 0 <= q < before_push.len() && before_push[q] == unframed(i, j);
                    assert(points@[q] == unframed(i, j));
                }
            }
        }
        // relabel the pixel just emitted
        let right = mat.get(cx + 1, cy);
        let here = mat.get(cx, cy);
        let ghost pre = *mat;
        if examined_right && right == 0 {
            let ghost before = *mat;
            mat.set(cx, cy, -2);
            proof {
                lemma_relabel(before, *mat, cx as int, cy as int, -2i8);
                lemma_relabel_listed(before, *mat, initial, cx as int, cy as int, -2i8, points@);
            }
        } else if !examined_right && here == 1 {
            let ghost before = *mat;
            mat.set(cx, cy, 2);
            proof {
                lemma_relabel(before, *mat, cx as int, cy as int, 2i8);
                lemma_relabel_listed(before, *mat, initial, cx as int, cy as int, 2i8, points@);
            }
        }
        proof {
            let changed = (examined_right && right == 0) || (!examined_right && here == 1);
            let v: i8 = if examined_right && right == 0 { -2i8 } else { 2i8 };
            lemma_relabel_step(initial, pre, *mat, cx as int, cy as int, v, changed, points@);
        }
        proof {
            let st = walk_state(initial, s0, (points@.len() - 1) as nat);
            lemma_walk_valid(initial, s0, (points@.len() - 1) as nat);
            lemma_step_valid(initial, st);
            assert(found as int == crate::moore::next_dir(initial, st));
            assert(examined_right == right_examined(initial, st));
            assert(walk_state(initial, s0, points@.len()) == (nx as int, ny as int, ((found + 4) % 8) as int));
            lemma_dir_opposite(found as int);
            lemma_dir_opposite(s0.2);
            if nx == start.x && ny == start.y && cx == before_start.x && cy == before_start.y {
                lemma_dir_injective(((found + 4) % 8) as int, s0.2);
            }
            if walk_state(initial, s0, points@.len()) == s0 {
                assert(cx == before_start.x && cy == before_start.y);
            }
            assert(mat.cells() =~= walk_cells(initial, s0, points@.len()));
        }
        if nx == start.x && ny == start.y && cx == before_start.x && cy == before_start.y {
            break ;
        }
        cx = nx;
        cy = ny;
        from = (found + 4) % 8;
    }
    proof {
        lemma_nonzero_inside(initial, before_start.x as int, before_start.y as int);
        if points@.len() > 1 {
            assert(adjacent8(points@[points@.len() - 1], points@[0]));
        }
    }
    points
}

/// Label of cell `(x, y)` of the framed grid built from `source`: 1 under a
/// pixel that holds 255, 0 elsewhere and on the frame.
pub open spec fn label_of(source: ViewRef<'_, u8>, x: int, y: int) -> i8 {
    if 1 <= x <= source.w() && 1 <= y <= source.h() && source.at(x - 1, y - 1) == 255 {
        1
    } else {
        0
    }
}

/// Pixel `(x, y)` of `source` is selected.
pub open spec fn selected(source: ViewRef<'_, u8>, x: int, y: int) -> bool {
    0 <= x < source.w() && 0 <= y < source.h() && source.at(x, y) == 255
}

/// Every point of `s` is a selected pixel of `source`.
pub open spec fn all_selected(source: ViewRef<'_, u8>, s: Seq<Point<u32>>) -> bool {
    forall|i: int| 0 <= i < s.len() ==> selected(source, #[trigger] s[i].x as int, s[i].y as int)
}

/// `mat` is zero exactly where the labels of `source` are.
pub open spec fn labels_match(mat: Matrix<i8>, source: ViewRef<'_, u8>) -> bool {
    &&& framed(mat)
    &&& mat.w() == source.w() + 2
    &&& mat.h() == source.h() + 2
    &&& forall|i: int, j: int|
        0 <= i < mat.w() && 0 <= j < mat.h() ==> (#[trigger] mat.at(i, j) == 0) == (label_of(
            source,
            i,
            j,
        ) == 0)
}

/// The framed label grid of `source`.
fn threshold(source: &ViewRef<'_, u8>) -> (mat: Matrix<i8>)
    requires
        source.wf(),
        source.w() + 2 <= u32::MAX,
        source.h() + 2 <= u32::MAX,
        (source.h() + 2) * (source.w() + 2) <= usize::MAX,
    ensures
        labels_match(mat, *source),
        forall|i: int, j: int|
            0 <= i < mat.w() && 0 <= j < mat.h() ==> #[trigger] mat.at(i, j) == label_of(
                *source,
                i,
                j,
            ),
{
    let w = source.width();
    let h = source.height();
    let mut mat = Matrix::<i8>::new(w + 2, h + 2);
    let ghost mw = mat.w() as int;
    let ghost mh = mat.h() as int;
    proof {
        assert forall|i: int, j: int| 0 <= i < mw && 0 <= j < mh implies #[trigger] mat.at(i, j) == 0 by {
            crate::channels::lemma_window_index(mat.cells().len(), mat.w(), 0, 0, mat.w(), mat.h(), i as nat, j as nat);
        }
    }
    let mut y: u32 = 0;
    while y < h
        invariant
            source.wf(),
            w == source.w(),
            h == source.h(),
            mat.wf(),
            mat.w() == mw == w + 2,
            mat.h() == mh == h + 2,
            y <= h,
            forall|i: int, j: int|
                0 <= i < mw && 0 <= j < mh ==> #[trigger] mat.at(i, j) == (if 1 <= j <= y {
                    label_of(*source, i, j)
                } else {
                    0i8
                }),
        decreases h - y,
    {
        let mut x: u32 = 0;
        while x < w
            invariant
                source.wf(),
                w == source.w(),
                h == source.h(),
                mat.wf(),
                mat.w() == mw == w + 2,
                mat.h() == mh == h + 2,
                y < h,
                x <= w,
                forall|i: int, j: int|
                    0 <= i < mw && 0 <= j < mh ==> #[trigger] mat.at(i, j) == (if 1 <= j <= y
                        || (j == y + 1 && i <= x) {
                        label_of(*source, i, j)
                    } else {
                        0i8
                    }),
            decreases w - x,
        {
            let v: i8 = if source.get(x, y) == 255 {
                1
            } else {
                0
            };
            let ghost before = mat;
            mat.set(x + 1, y + 1, v);
            proof {
                assert forall|i: int, j: int| 0 <= i < mw && 0 <= j < mh implies #[trigger] mat.at(i, j)
                    == (if 1 <= j <= y || (j == y + 1 && i <= x + 1) {
                    label_of(*source, i, j)
                } else {
                    0i8
                }) by {
                    crate::channels::lemma_window_index(mat.cells().len(), mat.w(), 0, 0, mat.w(), mat.h(), i as nat, j as nat);
                    crate::channels::lemma_window_index(mat.cells().len(), mat.w(), 0, 0, mat.w(), mat.h(), (x + 1) as nat, (y + 1) as nat);
                    if i != x + 1 || j != y + 1 {
                        if row_major(mw, i, j) == row_major(mw, x + 1, y + 1) {
                            crate::channels::lemma_window_index_injective(mw as nat, i as nat, j as nat, (x + 1) as nat, (y + 1) as nat);
                        }
                        assert(mat.at(i, j) == before.at(i, j));
                    }
                }
            }
            x = x + 1;
        }
        y = y + 1;
    }
    mat
}

/// Pixel `(x, y)` is selected and the pixel to its left or to its right is not
/// (pixels beyond the edges count as not selected).
pub open spec fn row_border(source: ViewRef<'_, u8>, x: int, y: int) -> bool {
    &&& selected(source, x, y)
    &&& !selected(source, x - 1, y) || !selected(source, x + 1, y)
}

/// `p` is a point of one of `contours`.
pub open spec fn outlined(contours: Seq<Contour>, p: Point<u32>) -> bool {
    exists|k: int| 0 <= k < contours.len() && lists(#[trigger] contours[k].path(), p)
}

proof fn lemma_outlined_grows(before: Seq<Contour>, after: Seq<Contour>, p: Point<u32>)
    requires
        outlined(before, p),
        before.len() <= after.len(),
        forall|k: int| 0 <= k < before.len() ==> #[trigger] after[k] == before[k],
    ensures
        outlined(after, p),
{
    let k = choose|k: int| 0 <= k < before.len() && lists(#[trigger] before[k].path(), p);
    assert(after[k] == before[k]);
}

/// `path` is the complete Moore walk, over a framed grid whose non-zero cells
/// are exactly the selected pixels of `source`, from its first point entered
/// from its last: the walk's cells in order, up to its first return to that
/// starting pair.
#[verifier::opaque]
pub open spec fn moore_contour(source: ViewRef<'_, u8>, path: Seq<Point<u32>>) -> bool {
    let s0: WalkState = (
        path[0].x + 1,
        path[0].y + 1,
        direction_to(path[0].x + 1, path[0].y + 1, path[path.len() - 1].x + 1, path[path.len() - 1].y + 1),
    );
    exists|g: Matrix<i8>|
        #[trigger] labels_match(g, source) && walk_state(g, s0, path.len()) == s0 && (forall|n: nat|
            1 <= n < path.len() ==> #[trigger] walk_state(g, s0, n) != s0) && (forall|q: int|
            0 <= q < path.len() ==> #[trigger] path[q] == unframed(
                walk_state(g, s0, q as nat).0,
                walk_state(g, s0, q as nat).1,
            ))
}

/// A walk that `trace_border` returned on a grid labelled from `source` is a
/// Moore contour of `source`.
proof fn lemma_traced_is_moore(
    source: ViewRef<'_, u8>,
    g: Matrix<i8>,
    start: Point<u32>,
    bs: Point<u32>,
    path: Seq<Point<u32>>,
)
    requires
        labels_match(g, source),
        1 <= start.x < g.w() - 1,
        1 <= start.y < g.h() - 1,
        1 <= bs.x < g.w() - 1,
        1 <= bs.y < g.h() - 1,
        path.len() >= 1,
        path[0] == unframed(start.x as int, start.y as int),
        path[path.len() - 1] == unframed(bs.x as int, bs.y as int),
        walk_state(g, start_pair(start, bs), path.len()) == start_pair(start, bs),
        forall|n: nat|
            1 <= n < path.len() ==> #[trigger] walk_state(g, start_pair(start, bs), n) != start_pair(start, bs),
        forall|q: int|
            0 <= q < path.len() ==> #[trigger] path[q] == unframed(
                walk_state(g, start_pair(start, bs), q as nat).0,
                walk_state(g, start_pair(start, bs), q as nat).1,
            ),
    ensures
        moore_contour(source, path),
{
    reveal(moore_contour);
    assert(path[0].x + 1 == start.x && path[0].y + 1 == start.y);
    assert(path[path.len() - 1].x + 1 == bs.x && path[path.len() - 1].y + 1 == bs.y);
    let s0: WalkState = (
        path[0].x + 1,
        path[0].y + 1,
        direction_to(path[0].x + 1, path[0].y + 1, path[path.len() - 1].x + 1, path[path.len() - 1].y + 1),
    );
    assert(s0 == start_pair(start, bs));
    assert(labels_match(g, source));
}

/// `p` comes before `q` in row-by-row scan order.
pub open spec fn precedes(p: Point<u32>, q: Point<u32>) -> bool {
    p.y < q.y || (p.y == q.y && p.x < q.x)
}

/// `p` comes before `q` in row-by-row scan order, or is `q`.
pub open spec fn precedes_or_is(p: Point<u32>, q: Point<u32>) -> bool {
    precedes(p, q) || p == q
}

/// Pixel `(x + a, y + b)` of `source` is selected.
pub open spec fn selected_near(source: ViewRef<'_, u8>, x: int, y: int, a: int, b: int) -> bool {
    selected(source, x + a, y + b)
}

/// Pixel `(x, y)` is selected and none of its eight neighbours is.
pub open spec fn isolated(source: ViewRef<'_, u8>, x: int, y: int) -> bool {
    &&& selected(source, x, y)
    &&& forall|a: int, b: int|
        -1 <= a <= 1 && -1 <= b <= 1 && !(a == 0 && b == 0) ==> !#[trigger] selected_near(
            source,
            x,
            y,
            a,
            b,
        )
}

/// Pixel `(x, y)` is the only selected pixel of `source`.
pub open spec fn only_selected(source: ViewRef<'_, u8>, x: int, y: int) -> bool {
    forall|i: int, j: int| #[trigger] selected(source, i, j) <==> (i == x && j == y)
}

/// Two consecutive contours are both the single point `p`.
pub open spec fn doubled(contours: Seq<Contour>, p: Point<u32>) -> bool {
    exists|k: int|
        0 <= k && k + 1 < contours.len() && (#[trigger] contours[k]).path() == seq![p]
            && contours[k + 1].path() == seq![p]
}

proof fn lemma_doubled_grows(before: Seq<Contour>, after: Seq<Contour>, p: Point<u32>)
    requires
        doubled(before, p),
        before.len() <= after.len(),
        forall|k: int| 0 <= k < before.len() ==> #[trigger] after[k] == before[k],
    ensures
        doubled(after, p),
{
    let k = choose|k: int|
        0 <= k && k + 1 < before.len() && (#[trigger] before[k]).path() == seq![p]
            && before[k + 1].path() == seq![p];
    assert(after[k] == before[k]);
    assert(after[k + 1] == before[k + 1]);
}

/// Pixel `(x, y)` comes before pixel `(cx, cy)` in row-by-row scan order.
pub open spec fn scanned_before(x: int, y: int, cx: int, cy: int) -> bool {
    y < cy || (y == cy && x < cx)
}

/// An isolated pixel that the scan has not reached yet still holds label 1: a
/// contour through it would need a selected neighbour, or to start on it.
proof fn lemma_isolated_untouched(
    source: ViewRef<'_, u8>,
    mat: Matrix<i8>,
    labels: Matrix<i8>,
    contours: Seq<Contour>,
    x: int,
    y: int,
)
    requires
        isolated(source, x - 1, y - 1),
        x <= u32::MAX,
        y <= u32::MAX,
        1 <= x < mat.w() - 1,
        1 <= y < mat.h() - 1,
        labels_match(mat, source),
        labels.w() == mat.w(),
        labels.h() == mat.h(),
        forall|i: int, j: int|
            0 <= i < mat.w() && 0 <= j < mat.h() ==> #[trigger] labels.at(i, j) == label_of(source, i, j),
        forall|i: int, j: int|
            0 <= i < mat.w() && 0 <= j < mat.h() ==> #[trigger] mat.at(i, j) == labels.at(i, j) || ((
            mat.at(i, j) == 2 || mat.at(i, j) == -2) && outlined(contours, unframed(i, j))),
        forall|k: int|
            0 <= k < contours.len() ==> {
                &&& (#[trigger] contours[k]).path().len() >= 1
                &&& is_chain(contours[k].path())
                &&& all_selected(source, contours[k].path())
            },
        forall|k: int|
            0 <= k < contours.len() ==> scanned_before(
                (#[trigger] contours[k]).path()[0].x + 1,
                contours[k].path()[0].y + 1,
                x,
                y,
            ),
    ensures
        mat.at(x, y) == 1,
{
    assert(label_of(source, x, y) == 1);
    if mat.at(x, y) != labels.at(x, y) {
        let p = unframed(x, y);
        assert(p.x == x - 1 && p.y == y - 1);
        assert(outlined(contours, p));
        let k = choose|k: int| 0 <= k < contours.len() && lists(#[trigger] contours[k].path(), p);
        let path = contours[k].path();
        let q = choose|q: int| 0 <= q < path.len() && path[q] == p;
        if q > 0 {
            assert(adjacent8(path[q - 1], path[q]));
            let prev = path[q - 1];
            assert(selected(source, prev.x as int, prev.y as int));
            let a = prev.x - (x - 1);
            let b = prev.y - (y - 1);
            assert(-1 <= a <= 1 && -1 <= b <= 1);
            assert(!(a == 0 && b == 0));
            assert(!selected_near(source, x - 1, y - 1, a, b));
            assert(false);
        } else {
            assert(scanned_before(path[0].x + 1, path[0].y + 1, x, y));
            assert(false);
        }
    }
}

/// The outlines of the pixels of `source` that hold 255, one contour per border
/// start met by a row-by-row scan.
///
/// A pixel starts an outer border when it still holds label 1 and its left
/// neighbour is 0, and a hole border when its label is positive and its right
/// neighbour is 0. The first non-zero neighbour clockwise from the left (outer)
/// or right (hole) neighbour is where the border is entered from. A pixel with
/// none is isolated: it is both an outer and a hole border, and gives two
/// one-point contours, the outer one and a degenerate hole.
#[verifier::rlimit(100)]
pub fn find_contours(source: ViewRef<'_, u8>) -> (contours: Vec<Contour>)
    requires
        source.wf(),
        source.w() + 2 <= u32::MAX,
        source.h() + 2 <= u32::MAX,
        (source.h() + 2) * (source.w() + 2) <= usize::MAX,
    ensures
        contours@.len() == 0 <==> !exists|x: int, y: int| selected(source, x, y),
        forall|k: int|
            0 <= k < contours@.len() ==> {
                &&& (#[trigger] contours@[k]).path().len() >= 1
                &&& is_chain(contours@[k].path())
                &&& all_selected(source, contours@[k].path())
                &&& row_border(source, contours@[k].path()[0].x as int, contours@[k].path()[0].y as int)
            },
        forall|x: int, y: int|
            #[trigger] row_border(source, x, y) ==> outlined(contours@, Point { x: x as u32, y: y as u32 }),
        forall|k1: int, k2: int|
            0 <= k1 < k2 < contours@.len() ==> precedes_or_is(
                (#[trigger] contours@[k1]).path()[0],
                (#[trigger] contours@[k2]).path()[0],
            ),
        forall|k: int|
            0 <= k && k + 2 < contours@.len() ==> precedes(
                (#[trigger] contours@[k]).path()[0],
                contours@[k + 2].path()[0],
            ),
        forall|x: int, y: int|
            #[trigger] isolated(source, x, y) ==> doubled(contours@, Point { x: x as u32, y: y as u32 }),
        forall|k: int|
            0 <= k < contours@.len() ==> closes(#[trigger] contours@[k].path()),
        forall|k: int|
            0 <= k < contours@.len() ==> (#[trigger] contours@[k]).path().len() == 1 || moore_contour(
                source,
                contours@[k].path(),
            ),
        forall|x: int, y: int|
            #[trigger] only_selected(source, x, y) ==> {
                &&& contours@.len() == 2
                &&& contours@[0].path() == seq![Point { x: x as u32, y: y as u32 }]
                &&& contours@[1].path() == seq![Point { x: x as u32, y: y as u32 }]
            },
{
    let mut mat = threshold(&source);
    let ghost labels = mat;
    let mat_w = mat.width();
    let mat_h = mat.height();
    let mut contours: Vec<Contour> = Vec::new();
    let mut y: u32 = 1;
    while y < mat_h - 1
        invariant
            source.wf(),
            labels_match(mat, source),
            mat.w() == mat_w,
            mat.h() == mat_h,
            1 <= y <= mat_h - 1,
            contours@.len() == 0 ==> mat == labels,
            labels.w() == mat_w,
            labels.h() == mat_h,
            forall|i: int, j: int|
                0 <= i < mat_w && 0 <= j < mat_h ==> #[trigger] labels.at(i, j) == label_of(
                    source,
                    i,
                    j,
                ),
            contours@.len() == 0 ==> forall|i: int, j: int|
                1 <= i < mat_w - 1 && 1 <= j < y ==> #[trigger] label_of(source, i, j) == 0,
            forall|k: int|
                0 <= k < contours@.len() ==> {
                    &&& (#[trigger] contours@[k]).path().len() >= 1
                    &&& is_chain(contours@[k].path())
                    &&& all_selected(source, contours@[k].path())
                    &&& row_border(source, contours@[k].path()[0].x as int, contours@[k].path()[0].y as int)
                },
            forall|i: int, j: int|
                0 <= i < mat_w && 0 <= j < mat_h ==> #[trigger] mat.at(i, j) == labels.at(i, j) || ((
                mat.at(i, j) == 2 || mat.at(i, j) == -2) && outlined(contours@, unframed(i, j))),
            forall|i: int, j: int|
                1 <= i < mat_w - 1 && 1 <= j < y && row_border(source, i - 1, j - 1) ==> outlined(
                    contours@,
                    #[trigger] unframed(i, j),
                ),
            forall|k: int| 0 <= k < contours@.len() ==> (#[trigger] contours@[k]).path()[0].y + 1 < y,
            forall|k: int|
                0 <= k < contours@.len() ==> closes(#[trigger] contours@[k].path()),
            forall|k: int|
                0 <= k < contours@.len() ==> (#[trigger] contours@[k]).path().len() == 1
                    || moore_contour(source, contours@[k].path()),
            forall|k1: int, k2: int|
                0 <= k1 < k2 < contours@.len() ==> precedes_or_is(
                    (#[trigger] contours@[k1]).path()[0],
                    (#[trigger] contours@[k2]).path()[0],
                ),
            forall|k: int|
                0 <= k && k + 2 < contours@.len() ==> precedes(
                    (#[trigger] contours@[k]).path()[0],
                    contours@[k + 2].path()[0],
                ),
            forall|i: int, j: int|
                1 <= i < mat_w - 1 && 1 <= j < y && isolated(source, i - 1, j - 1) ==> doubled(
                    contours@,
                    #[trigger] unframed(i, j),
                ),
        decreases mat_h - y,
    {
        let mut x: u32 = 1;
        while x < mat_w - 1
            invariant
                source.wf(),
                labels_match(mat, source),
                mat.w() == mat_w,
                mat.h() == mat_h,
                    1 <= y < mat_h - 1,
                1 <= x <= mat_w - 1,
                contours@.len() == 0 ==> mat == labels,
                labels.w() == mat_w,
                labels.h() == mat_h,
                forall|i: int, j: int|
                    0 <= i < mat_w && 0 <= j < mat_h ==> #[trigger] labels.at(i, j) == label_of(
                        source,
                        i,
                        j,
                    ),
            labels.w() == mat_w,
            labels.h() == mat_h,
            forall|i: int, j: int|
                0 <= i < mat_w && 0 <= j < mat_h ==> #[trigger] labels.at(i, j) == label_of(
                    source,
                    i,
                    j,
                ),
                contours@.len() == 0 ==> forall|i: int, j: int|
                    1 <= i < mat_w - 1 && 1 <= j < mat_h - 1 && scanned_before(i, j, x as int, y as int)
                        ==> #[trigger] label_of(source, i, j) == 0,
                forall|k: int|
                    0 <= k < contours@.len() ==> {
                        &&& (#[trigger] contours@[k]).path().len() >= 1
                        &&& is_chain(contours@[k].path())
                        &&& all_selected(source, contours@[k].path())
                        &&& row_border(source, contours@[k].path()[0].x as int, contours@[k].path()[0].y as int)
                    },
                forall|i: int, j: int|
                    0 <= i < mat_w && 0 <= j < mat_h ==> #[trigger] mat.at(i, j) == labels.at(i, j) || ((
                    mat.at(i, j) == 2 || mat.at(i, j) == -2) && outlined(contours@, unframed(i, j))),
                forall|i: int, j: int|
                    1 <= i < mat_w - 1 && 1 <= j < mat_h - 1 && scanned_before(i, j, x as int, y as int)
                        && row_border(source, i - 1, j - 1) ==> outlined(contours@, #[trigger] unframed(i, j)),
                forall|k: int|
                    0 <= k < contours@.len() ==> closes(#[trigger] contours@[k].path()),
                forall|k: int|
                    0 <= k < contours@.len() ==> (#[trigger] contours@[k]).path().len() == 1
                        || moore_contour(source, contours@[k].path()),
                forall|k: int|
                    0 <= k < contours@.len() ==> scanned_before(
                        (#[trigger] contours@[k]).path()[0].x + 1,
                        contours@[k].path()[0].y + 1,
                        x as int,
                        y as int,
                    ),
                forall|k1: int, k2: int|
                    0 <= k1 < k2 < contours@.len() ==> precedes_or_is(
                        (#[trigger] contours@[k1]).path()[0],
                        (#[trigger] contours@[k2]).path()[0],
                    ),
                forall|k: int|
                    0 <= k && k + 2 < contours@.len() ==> precedes(
                        (#[trigger] contours@[k]).path()[0],
                        contours@[k + 2].path()[0],
                    ),
                forall|i: int, j: int|
                    1 <= i < mat_w - 1 && 1 <= j < mat_h - 1 && scanned_before(i, j, x as int, y as int)
                        && isolated(source, i - 1, j - 1) ==> doubled(contours@, #[trigger] unframed(i, j)),
            decreases mat_w - x,
        {
            let prev = mat.get(x - 1, y);
            let curr = mat.get(x, y);
            let next = mat.get(x + 1, y);
            let is_outer = curr == 1 && prev == 0;
            let is_hole = curr >= 1 && next == 0;
            proof {
                if contours@.len() == 0 && label_of(source, x as int, y as int) != 0 {
                    // the left neighbour is on the frame or was scanned already
                    assert(label_of(source, x - 1, y as int) == 0);
                    assert(is_outer);
                }
            }
            let ghost mat0 = mat;
            let ghost cs0 = contours@;
            proof {
                if isolated(source, x - 1, y - 1) {
                    lemma_isolated_untouched(source, mat, labels, contours@, x as int, y as int);
                    assert(!selected_near(source, x - 1, y - 1, -1, 0));
                    assert(!selected_near(source, x - 1, y - 1, 1, 0));
                    assert(is_outer);
                }
            }
            if is_outer || is_hole {
                // clockwise search from the left (outer) or right (hole) neighbour
                let seed: usize = if is_outer {
                    4
                } else {
                    0
                };
                let mut offset: usize = 0;
                let mut found: usize = 8;
                while offset < 8
                    invariant
                        labels_match(mat, source),
                        mat.w() == mat_w,
                        mat.h() == mat_h,
                        1 <= x < mat_w - 1,
                        1 <= y < mat_h - 1,
                        offset <= 8,
                        seed < 8,
                        found == 8 || (found < 8 && offset == 8 && mat.at(
                            x + dir_dx(found as int),
                            y + dir_dy(found as int),
                        ) != 0),
                    decreases 8 - offset,
                {
                    let clockwise = (offset + seed) % 8;
                    let k = (8 - clockwise) % 8;
                    let (nx, ny) = neighbour(x, y, k);
                    proof {
                        lemma_neighbour_inside(mat, x as int, y as int, k as int);
                    }
                    if mat.get(nx, ny) != 0 {
                        found = k;
                        offset = 8;
                    } else {
                        offset = offset + 1;
                    }
                }
                proof {
                    if isolated(source, x - 1, y - 1) && found < 8 {
                        assert(selected_near(
                            source,
                            x - 1,
                            y - 1,
                            dir_dx(found as int),
                            dir_dy(found as int),
                        ));
                    }
                }
                let ghost before = mat;
                if found == 8 {
                    // an isolated pixel
                    let mut points: Vec<Point<u32>> = Vec::new();
                    points.push(Point::new(x - 1, y - 1));
                    mat.set(x, y, -2);
                    proof {
                        lemma_relabel(before, mat, x as int, y as int, -2i8);
                        assert(is_chain(points@));
                        assert(points@[0] == unframed(x as int, y as int));
                        lemma_relabel_listed(before, mat, before, x as int, y as int, -2i8, points@);
                    }
                    contours.push(Contour::from_points(points));
                    // the same pixel is also a degenerate hole border
                    let mut hole: Vec<Point<u32>> = Vec::new();
                    hole.push(Point::new(x - 1, y - 1));
                    contours.push(Contour::from_points(hole));
                } else {
                    let (nx, ny) = neighbour(x, y, found);
                    proof {
                        lemma_neighbour_inside(mat, x as int, y as int, found as int);
                    }
                    let points = trace_border(Point::new(x, y), Point::new(nx, ny), &mut mat);
                    proof {
                        lemma_nonzero_inside(before, nx as int, ny as int);
                        lemma_traced_is_moore(source, before, Point { x: x, y: y }, Point { x: nx, y: ny }, points@);
                    }
                    proof {
                        assert forall|i: int, j: int|
                            0 <= i < mat.w() && 0 <= j < mat.h() implies (#[trigger] mat.at(i, j) == 0)
                            == (before.at(i, j) == 0) by {
                            crate::channels::lemma_window_index(mat.cells().len(), mat.w(), 0, 0, mat.w(), mat.h(), i as nat, j as nat);
                        }
                        assert forall|i: int| 0 <= i < points@.len() implies selected(
                            source,
                            #[trigger] points@[i].x as int,
                            points@[i].y as int,
                        ) by {
                            assert(before.at(points@[i].x + 1, points@[i].y + 1) != 0);
                        }
                    }
                    contours.push(Contour::from_points(points));
                }
                proof {
                    let n0 = cs0.len() as int;
                    let pts = contours@[n0].path();
                    assert(contours@.len() == n0 + 1 || contours@.len() == n0 + 2);
                    assert(contours@.len() == n0 + 2 ==> contours@[n0 + 1].path() == pts);
                    assert(pts.len() >= 1);
                    assert(pts[0] == unframed(x as int, y as int));
                    assert(relabelled_within(mat0, mat, pts));
                    assert forall|k: int| 0 <= k < cs0.len() implies #[trigger] contours@[k] == cs0[k] by {}
                    assert(lists(pts, unframed(x as int, y as int)));
                    assert(outlined(contours@, unframed(x as int, y as int)));
                    assert forall|k1: int, k2: int| 0 <= k1 < k2 < contours@.len() implies precedes_or_is(
                        (#[trigger] contours@[k1]).path()[0],
                        (#[trigger] contours@[k2]).path()[0],
                    ) by {
                        if k2 >= n0 {
                            if k1 < n0 {
                                assert(contours@[k1] == cs0[k1]);
                            }
                        } else {
                            assert(contours@[k1] == cs0[k1]);
                            assert(contours@[k2] == cs0[k2]);
                        }
                    }
                    assert forall|k: int| 0 <= k && k + 2 < contours@.len() implies precedes(
                        (#[trigger] contours@[k]).path()[0],
                        contours@[k + 2].path()[0],
                    ) by {
                        assert(contours@[k] == cs0[k]);
                        if k + 2 < n0 {
                            assert(contours@[k + 2] == cs0[k + 2]);
                        }
                    }
                    assert(selected(source, x - 1, y - 1));
                    assert(row_border(source, pts[0].x as int, pts[0].y as int));
                    assert forall|k: int| 0 <= k < contours@.len() implies {
                        &&& (#[trigger] contours@[k]).path().len() >= 1
                        &&& is_chain(contours@[k].path())
                        &&& all_selected(source, contours@[k].path())
                        &&& row_border(source, contours@[k].path()[0].x as int, contours@[k].path()[0].y as int)
                    } by {
                        if k < n0 {
                            assert(contours@[k] == cs0[k]);
                        }
                    }
                    assert forall|k: int| 0 <= k < contours@.len() implies (#[trigger] contours@[k]).path().len()
                        == 1 || moore_contour(source, contours@[k].path()) by {
                        if k < n0 {
                            assert(contours@[k] == cs0[k]);
                        }
                    }
                    assert forall|k: int| 0 <= k < contours@.len() implies closes(
                        #[trigger] contours@[k].path(),
                    ) by {
                        if k < n0 {
                            assert(contours@[k] == cs0[k]);
                        }
                    }
                    assert forall|k: int| 0 <= k < contours@.len() implies scanned_before(
                        (#[trigger] contours@[k]).path()[0].x + 1,
                        contours@[k].path()[0].y + 1,
                        x + 1,
                        y as int,
                    ) by {
                        if k < n0 {
                            assert(contours@[k] == cs0[k]);
                        }
                    }
                    assert forall|i: int, j: int| 0 <= i < mat_w && 0 <= j < mat_h implies #[trigger] mat.at(
                        i,
                        j,
                    ) == labels.at(i, j) || ((mat.at(i, j) == 2 || mat.at(i, j) == -2) && outlined(
                        contours@,
                        unframed(i, j),
                    )) by {
                        if mat.at(i, j) == mat0.at(i, j) {
                            if mat0.at(i, j) != labels.at(i, j) {
                                lemma_outlined_grows(cs0, contours@, unframed(i, j));
                            }
                        } else {
                            assert(lists(contours@[n0].path(), unframed(i, j)));
                        }
                    }
                    assert forall|i: int, j: int|
                        1 <= i < mat_w - 1 && 1 <= j < mat_h - 1 && scanned_before(
                            i,
                            j,
                            x + 1,
                            y as int,
                        ) && row_border(source, i - 1, j - 1) implies outlined(
                        contours@,
                        #[trigger] unframed(i, j),
                    ) by {
                        if i != x || j != y {
                            lemma_outlined_grows(cs0, contours@, unframed(i, j));
                        }
                    }
                    if isolated(source, x - 1, y - 1) {
                        assert(contours@.len() == n0 + 2);
                        assert(contours@[n0].path() =~= seq![unframed(x as int, y as int)]);
                        assert(doubled(contours@, unframed(x as int, y as int)));
                    }
                    assert forall|i: int, j: int|
                        1 <= i < mat_w - 1 && 1 <= j < mat_h - 1 && scanned_before(
                            i,
                            j,
                            x + 1,
                            y as int,
                        ) && isolated(source, i - 1, j - 1) implies doubled(
                        contours@,
                        #[trigger] unframed(i, j),
                    ) by {
                        if i != x || j != y {
                            lemma_doubled_grows(cs0, contours@, unframed(i, j));
                        }
                    }
                }
            } else {
                proof {
                    if row_border(source, x - 1, y - 1) {
                        assert(label_of(source, x as int, y as int) == 1);
                        assert(mat.at(x as int, y as int) != labels.at(x as int, y as int));
                    }
                }
            }
            x = x + 1;
        }
        y = y + 1;
    }
    proof {
        assert forall|x: int, y: int| #[trigger] row_border(source, x, y) implies outlined(
            contours@,
            Point { x: x as u32, y: y as u32 },
        ) by {
            assert(unframed(x + 1, y + 1) == Point { x: x as u32, y: y as u32 });
            assert(outlined(contours@, unframed(x + 1, y + 1)));
        }
        assert forall|x: int, y: int| #[trigger] isolated(source, x, y) implies doubled(
            contours@,
            Point { x: x as u32, y: y as u32 },
        ) by {
            assert(unframed(x + 1, y + 1) == Point { x: x as u32, y: y as u32 });
            assert(doubled(contours@, unframed(x + 1, y + 1)));
        }
        if contours@.len() == 0 {
            assert forall|i: int, j: int| !selected(source, i, j) by {
                if selected(source, i, j) {
                    assert(label_of(source, i + 1, j + 1) != 0);
                }
            }
        } else {
            let p = contours@[0].path()[0];
            assert(selected(source, p.x as int, p.y as int));
        }
        assert forall|x: int, y: int| #[trigger] only_selected(source, x, y) implies {
            &&& contours@.len() == 2
            &&& contours@[0].path() == seq![Point { x: x as u32, y: y as u32 }]
            &&& contours@[1].path() == seq![Point { x: x as u32, y: y as u32 }]
        } by {
            lemma_only_pixel_contours(source, contours@, x, y);
        }
    }
    contours
}

/// With one selected pixel, the contract of `find_contours` leaves exactly the
/// two one-point contours at that pixel.
proof fn lemma_only_pixel_contours(source: ViewRef<'_, u8>, contours: Seq<Contour>, x: int, y: int)
    requires
        only_selected(source, x, y),
        source.w() <= u32::MAX,
        source.h() <= u32::MAX,
        forall|k: int|
            0 <= k < contours.len() ==> {
                &&& (#[trigger] contours[k]).path().len() >= 1
                &&& is_chain(contours[k].path())
                &&& all_selected(source, contours[k].path())
            },
        forall|k: int|
            0 <= k && k + 2 < contours.len() ==> precedes(
                (#[trigger] contours[k]).path()[0],
                contours[k + 2].path()[0],
            ),
        forall|i: int, j: int|
            #[trigger] isolated(source, i, j) ==> doubled(contours, Point { x: i as u32, y: j as u32 }),
    ensures
        contours.len() == 2,
        contours[0].path() == seq![Point { x: x as u32, y: y as u32 }],
        contours[1].path() == seq![Point { x: x as u32, y: y as u32 }],
{
    let p = Point { x: x as u32, y: y as u32 };
    assert(selected(source, x, y));
    assert(p.x == x && p.y == y);
    assert forall|a: int, b: int| -1 <= a <= 1 && -1 <= b <= 1 && !(a == 0 && b == 0) implies !#[trigger] selected_near(
        source,
        x,
        y,
        a,
        b,
    ) by {
        assert(!selected(source, x + a, y + b));
    }
    assert(isolated(source, x, y));
    let k = choose|k: int|
        0 <= k && k + 1 < contours.len() && (#[trigger] contours[k]).path() == seq![p]
            && contours[k + 1].path() == seq![p];
    assert forall|i: int| 0 <= i < contours.len() implies (#[trigger] contours[i]).path() == seq![p] by {
        assert forall|u: int, v: int| selected(source, u, v) <==> (u == p.x && v == p.y) by {
            assert(selected(source, u, v) <==> (u == x && v == y));
        }
        lemma_single_pixel_contour(source, contours[i].path(), p.x, p.y);
    }
    if contours.len() > 2 {
        assert(precedes(contours[0].path()[0], contours[2].path()[0]));
        assert(contours[0].path()[0] == p);
        assert(contours[2].path()[0] == p);
    }
    assert(k == 0);
}

/// When exactly one pixel `(px, py)` is selected, a contour that meets the
/// contract of `find_contours` is that pixel alone.
pub proof fn lemma_single_pixel_contour(source: ViewRef<'_, u8>, path: Seq<Point<u32>>, px: u32, py: u32)
    requires
        forall|x: int, y: int| selected(source, x, y) <==> (x == px && y == py),
        path.len() >= 1,
        is_chain(path),
        all_selected(source, path),
    ensures
        path == seq![Point { x: px, y: py }],
{
    assert(selected(source, path[0].x as int, path[0].y as int));
    if path.len() > 1 {
        assert(selected(source, path[1].x as int, path[1].y as int));
        assert(adjacent8(path[1 - 1], path[1]));
    }
    assert(path =~= seq![Point { x: px, y: py }]);
}

/// Pixel `(x, y)` of a `w` by `h` row-major plane holds 255.
pub open spec fn plane_selected(plane: Seq<u8>, w: int, h: int, x: int, y: int) -> bool {
    0 <= x < w && 0 <= y < h && plane[y * w + x] == 255
}

/// Pixel `(x, y)` of the plane is selected and the pixel to its left or to its
/// right is not.
pub open spec fn plane_row_border(plane: Seq<u8>, w: int, h: int, x: int, y: int) -> bool {
    &&& plane_selected(plane, w, h, x, y)
    &&& !plane_selected(plane, w, h, x - 1, y) || !plane_selected(plane, w, h, x + 1, y)
}

/// `contours` outline the selected pixels of a `w` by `h` plane as
/// `find_contours` promises: none exactly when nothing is selected; each a
/// non-empty 8-connected chain of selected pixels that starts on a row border;
/// and every row-border pixel on one of them.
pub open spec fn traces(plane: Seq<u8>, w: int, h: int, contours: Seq<Contour>) -> bool {
    &&& contours.len() == 0 <==> !exists|x: int, y: int| plane_selected(plane, w, h, x, y)
    &&& forall|k: int|
        0 <= k < contours.len() ==> {
            &&& (#[trigger] contours[k]).path().len() >= 1
            &&& is_chain(contours[k].path())
            &&& forall|q: int|
                0 <= q < contours[k].path().len() ==> plane_selected(
                    plane,
                    w,
                    h,
                    #[trigger] contours[k].path()[q].x as int,
                    contours[k].path()[q].y as int,
                )
            &&& plane_row_border(
                plane,
                w,
                h,
                contours[k].path()[0].x as int,
                contours[k].path()[0].y as int,
            )
        }
    &&& forall|x: int, y: int|
        #[trigger] plane_row_border(plane, w, h, x, y) ==> outlined(
            contours,
            Point { x: x as u32, y: y as u32 },
        )
}

/// On a window over a whole plane, what `find_contours` promises is `traces`.
pub proof fn lemma_full_view_traces(source: ViewRef<'_, u8>, contours: Seq<Contour>)
    requires
        source.wf(),
        source.is_full(),
        contours.len() == 0 <==> !exists|x: int, y: int| selected(source, x, y),
        forall|k: int|
            0 <= k < contours.len() ==> {
                &&& (#[trigger] contours[k]).path().len() >= 1
                &&& is_chain(contours[k].path())
                &&& all_selected(source, contours[k].path())
                &&& row_border(source, contours[k].path()[0].x as int, contours[k].path()[0].y as int)
            },
        forall|x: int, y: int|
            #[trigger] row_border(source, x, y) ==> outlined(contours, Point { x: x as u32, y: y as u32 }),
    ensures
        traces(source.base(), source.w() as int, source.h() as int, contours),
{
    let w = source.w() as int;
    let h = source.h() as int;
    let plane = source.base();
    assert forall|x: int, y: int| selected(source, x, y) == plane_selected(plane, w, h, x, y) by {}
    assert forall|x: int, y: int| row_border(source, x, y) == plane_row_border(plane, w, h, x, y) by {
        assert(selected(source, x, y) == plane_selected(plane, w, h, x, y));
        assert(selected(source, x - 1, y) == plane_selected(plane, w, h, x - 1, y));
        assert(selected(source, x + 1, y) == plane_selected(plane, w, h, x + 1, y));
    }
    assert forall|k: int| 0 <= k < contours.len() implies forall|q: int|
        0 <= q < (#[trigger] contours[k]).path().len() ==> plane_selected(
            plane,
            w,
            h,
            #[trigger] contours[k].path()[q].x as int,
            contours[k].path()[q].y as int,
        ) by {
        assert forall|q: int| 0 <= q < contours[k].path().len() implies plane_selected(
            plane,
            w,
            h,
            #[trigger] contours[k].path()[q].x as int,
            contours[k].path()[q].y as int,
        ) by {
            assert(selected(source, contours[k].path()[q].x as int, contours[k].path()[q].y as int));
        }
    }
    assert forall|x: int, y: int| #[trigger] plane_row_border(plane, w, h, x, y) implies outlined(
        contours,
        Point { x: x as u32, y: y as u32 },
    ) by {
        assert(row_border(source, x, y));
    }
    assert forall|k: int| 0 <= k < contours.len() implies plane_row_border(
        plane,
        w,
        h,
        (#[trigger] contours[k]).path()[0].x as int,
        contours[k].path()[0].y as int,
    ) by {
        let p = contours[k].path()[0];
        assert(row_border(source, p.x as int, p.y as int));
    }
    if contours.len() == 0 {
        assert forall|x: int, y: int| !plane_selected(plane, w, h, x, y) by {
            assert(!selected(source, x, y));
        }
    } else {
        let p = contours[0].path()[0];
        assert(selected(source, p.x as int, p.y as int));
        assert(plane_selected(plane, w, h, p.x as int, p.y as int));
    }
}

/// Both ends of every row of a fully selected plane are row borders.
proof fn lemma_filled_row_ends(plane: Seq<u8>, w: int, h: int, y: int)
    requires
        1 <= w,
        0 <= y < h,
        plane.len() == w * h,
        forall|i: int| 0 <= i < plane.len() ==> #[trigger] plane[i] == 255,
    ensures
        plane_row_border(plane, w, h, 0, y),
        plane_row_border(plane, w, h, w - 1, y),
{
    assert(y * w + w <= w * h) by (nonlinear_arith)
        requires
            0 <= y < h,
            w >= 1,
    ;
    assert(y * w >= 0) by (nonlinear_arith)
        requires
            y >= 0,
            w >= 1,
    ;
}

/// An outline of a fully selected `w` by `h` plane has at least one contour, and
/// every pixel of the plane's leftmost and rightmost columns lies on it.
pub proof fn lemma_filled_plane_outline(plane: Seq<u8>, w: int, h: int, contours: Seq<Contour>)
    requires
        1 <= w <= u32::MAX,
        1 <= h <= u32::MAX,
        plane.len() == w * h,
        forall|i: int| 0 <= i < plane.len() ==> #[trigger] plane[i] == 255,
        traces(plane, w, h, contours),
    ensures
        contours.len() >= 1,
        forall|y: int| 0 <= y < h ==> #[trigger] outlined(contours, Point { x: 0, y: y as u32 }),
        forall|y: int| 0 <= y < h ==> #[trigger] outlined(contours, Point { x: (w - 1) as u32, y: y as u32 }),
{
    assert(w * h >= 1) by (nonlinear_arith)
        requires
            w >= 1,
            h >= 1,
    ;
    assert(plane_selected(plane, w, h, 0, 0));
    assert forall|y: int| 0 <= y < h implies #[trigger] outlined(contours, Point { x: 0, y: y as u32 }) by {
        lemma_filled_row_ends(plane, w, h, y);
    }
    assert forall|y: int| 0 <= y < h implies #[trigger] outlined(contours, Point { x: (w - 1) as u32, y: y as u32 }) by {
        lemma_filled_row_ends(plane, w, h, y);
    }
}

} // verus!
