//! Round brushes stamped into one plane.
use vstd::prelude::*;
use vstd::arithmetic::div_mod::{lemma_fundamental_div_mod, lemma_fundamental_div_mod_converse};
use crate::channels::{lemma_window_index, ViewMut};

verus! {

/// Pixel `(x, y)` lies within distance `d / 2` of `(cx, cy)`. Squaring both
/// sides of `dist <= d / 2` keeps the test exact in integers.
pub open spec fn in_disc(cx: int, cy: int, d: int, x: int, y: int) -> bool {
    4 * ((x - cx) * (x - cx) + (y - cy) * (y - cy)) <= d * d
}

/// Base-buffer index `i` is a cell of the window at `(x0, y0)` of `width` by
/// `height` cells, in rows of `stride` cells, that a brush of diameter `d`
/// centred on window cell `(cx, cy)` covers.
pub open spec fn covers(
    stride: int,
    x0: int,
    y0: int,
    width: int,
    height: int,
    cx: int,
    cy: int,
    d: int,
    i: int,
) -> bool {
    &&& stride > 0
    &&& x0 <= i % stride < x0 + width
    &&& y0 <= i / stride < y0 + height
    &&& in_disc(cx, cy, d, i % stride - x0, i / stride - y0)
}

/// Base-buffer index `i` is a cell of `view`'s window that a brush of diameter
/// `d` centred on window cell `(cx, cy)` covers.
pub open spec fn brush_covers(view: ViewMut<'_, u8>, cx: int, cy: int, d: int, i: int) -> bool {
    covers(
        view.stride as int,
        view.x as int,
        view.y as int,
        view.width as int,
        view.height as int,
        cx,
        cy,
        d,
        i,
    )
}

/// A whole `width` by `height` plane after a brush of diameter `d` and value
/// `v` is stamped at `(cx, cy)`.
pub open spec fn stamp_plane(
    plane: Seq<u8>,
    width: int,
    height: int,
    cx: int,
    cy: int,
    d: int,
    v: u8,
) -> Seq<u8> {
    Seq::new(
        plane.len(),
        |i: int|
            if covers(width, 0, 0, width, height, cx, cy, d, i) {
                v
            } else {
                plane[i]
            },
    )
}

/// The base buffer of `view` after a brush of diameter `d` and value `v` is
/// stamped at window cell `(cx, cy)`.
pub open spec fn stamped(view: ViewMut<'_, u8>, cx: int, cy: int, d: int, v: u8) -> Seq<u8> {
    Seq::new(
        view.cells().len(),
        |i: int|
            if brush_covers(view, cx, cy, d, i) {
                v
            } else {
                view.cells()[i]
            },
    )
}

/// A disc of diameter `d` reaches no further than `d / 2` cells from its centre
/// along either axis.
proof fn lemma_disc_extent(cx: int, cy: int, d: int, x: int, y: int)
    requires
        d >= 0,
        in_disc(cx, cy, d, x, y),
    ensures
        cx - d / 2 <= x <= cx + d / 2,
        cy - d / 2 <= y <= cy + d / 2,
{
    let a = if x >= cx { x - cx } else { cx - x };
    let b = if y >= cy { y - cy } else { cy - y };
    assert((x - cx) * (x - cx) == a * a) by (nonlinear_arith)
        requires
            a == x - cx || a == cx - x,
    ;
    assert((y - cy) * (y - cy) == b * b) by (nonlinear_arith)
        requires
            b == y - cy || b == cy - y,
    ;
    assert(2 * a <= d) by (nonlinear_arith)
        requires
            a >= 0,
            d >= 0,
            b * b >= 0,
            4 * (a * a + b * b) <= d * d,
    ;
    assert(2 * b <= d) by (nonlinear_arith)
        requires
            b >= 0,
            d >= 0,
            a * a >= 0,
            4 * (a * a + b * b) <= d * d,
    ;
}

/// The row and column of a cell of a row-major buffer are recovered from its index.
proof fn lemma_cell_of_index(stride: int, col: int, row: int)
    requires
        stride > 0,
        0 <= col < stride,
        row >= 0,
    ensures
        (row * stride + col) / stride == row,
        (row * stride + col) % stride == col,
{
    lemma_fundamental_div_mod_converse(row * stride + col, stride, row, col);
}

/// A brush of diameter 1 whose centre lies in the window covers the centre pixel
/// and no other.
pub proof fn lemma_unit_brush_covers_centre(view: ViewMut<'_, u8>, cx: int, cy: int, i: int)
    requires
        view.wf(),
        0 <= cx < view.width,
        0 <= cy < view.height,
        0 <= i < view.cells().len(),
    ensures
        brush_covers(view, cx, cy, 1, i) <==> i == view.index_of(cx, cy),
{
    let stride = view.stride as int;
    assert(stride > 0);
    lemma_cell_of_index(stride, view.x + cx, view.y + cy);
    if brush_covers(view, cx, cy, 1, i) {
        let a = i % stride - view.x - cx;
        let b = i / stride - view.y - cy;
        assert(a == 0 && b == 0) by (nonlinear_arith)
            requires
                4 * (a * a + b * b) <= 1,
        ;
        lemma_fundamental_div_mod(i, stride);
        assert(i == (i / stride) * stride + i % stride) by (nonlinear_arith)
            requires
                i == stride * (i / stride) + i % stride,
        ;
    }
}

/// A brush that paints a filled disc of one value.
pub struct BasicBrush {
    size: u32,
    value: u8,
}

impl BasicBrush {
    pub closed spec fn diameter(&self) -> nat {
        self.size as nat
    }

    pub closed spec fn fill(&self) -> u8 {
        self.value
    }

    pub fn new(size: u32, value: u8) -> (b: Self)
        ensures
            b.diameter() == size,
            b.fill() == value,
    {
        BasicBrush { size, value }
    }

    /// Paints every window pixel within distance `diameter / 2` of window cell
    /// `(x, y)` with the brush value. Pixels of the disc outside the window are
    /// skipped; the centre itself may lie outside, on any side.
    pub fn apply(&self, image: ViewMut<'_, u8>, x: i32, y: i32)
        requires
            image.wf(),
        ensures
            final(image.buffer)@ == stamped(
                image,
                x as int,
                y as int,
                self.diameter() as int,
                self.fill(),
            ),
    {
        let mut image = image;
        let ghost start = image;
        let len = image.buffer.len();
        let ghost d = self.diameter() as int;
        let ghost v = self.fill();
        let r: i64 = (self.size / 2) as i64;
        let cx: i64 = x as i64;
        let cy: i64 = y as i64;
        let width: i64 = image.width() as i64;
        let height: i64 = image.height() as i64;
        let y_lo: i64 = if cy - r > 0 {
            cy - r
        } else {
            0
        };
        let y_hi: i64 = if cy + r + 1 < height {
            cy + r + 1
        } else {
            height
        };
        let x_lo: i64 = if cx - r > 0 {
            cx - r
        } else {
            0
        };
        let x_hi: i64 = if cx + r + 1 < width {
            cx + r + 1
        } else {
            width
        };
        let mut row: i64 = y_lo;
        proof {
            assert forall|i: int| 0 <= i < len implies #[trigger] image.cells()[i] == (if brush_covers(
                start,
                x as int,
                y as int,
                d,
                i,
            ) && i / (start.stride as int) - start.y < row {
                v
            } else {
                start.cells()[i]
            }) by {
                if brush_covers(start, x as int, y as int, d, i) {
                    lemma_disc_extent(
                        x as int,
                        y as int,
                        d,
                        i % (start.stride as int) - start.x,
                        i / (start.stride as int) - start.y,
                    );
                }
            }
        }
        while row < y_hi
            invariant
                image.wf(),
                image.same_window(&start),
                len == image.cells().len() == start.cells().len(),
                final(image.buffer)@ == final(start.buffer)@,
                r == d / 2,
                d == self.size,
                v == self.value,
                cx == x,
                cy == y,
                width == image.width,
                height == image.height,
                x_lo == (if cx - r > 0 { cx - r } else { 0int }),
                x_hi == (if cx + r + 1 < width { cx + r + 1 } else { width as int }),
                y_lo == (if cy - r > 0 { cy - r } else { 0int }),
                y_hi == (if cy + r + 1 < height { cy + r + 1 } else { height as int }),
                y_lo <= row <= y_hi || row == y_lo,
                forall|i: int|
                    0 <= i < len ==> #[trigger] image.cells()[i] == (if brush_covers(
                        start,
                        x as int,
                        y as int,
                        d,
                        i,
                    ) && i / (start.stride as int) - start.y < row {
                        v
                    } else {
                        start.cells()[i]
                    }),
            decreases y_hi - row,
        {
            let mut col: i64 = x_lo;
            proof {
                assert forall|i: int| 0 <= i < len implies #[trigger] image.cells()[i] == (if brush_covers(
                    start,
                    x as int,
                    y as int,
                    d,
                    i,
                ) && (i / (start.stride as int) - start.y < row || (i / (start.stride as int)
                    - start.y == row && i % (start.stride as int) - start.x < col)) {
                    v
                } else {
                    start.cells()[i]
                }) by {
                    if brush_covers(start, x as int, y as int, d, i) {
                        lemma_disc_extent(
                            x as int,
                            y as int,
                            d,
                            i % (start.stride as int) - start.x,
                            i / (start.stride as int) - start.y,
                        );
                    }
                }
            }
            while col < x_hi
                invariant
                    image.wf(),
                    image.same_window(&start),
                    len == image.cells().len() == start.cells().len(),
                    final(image.buffer)@ == final(start.buffer)@,
                    r == d / 2,
                    d == self.size,
                    v == self.value,
                    cx == x,
                    cy == y,
                    width == image.width,
                    height == image.height,
                    x_lo == (if cx - r > 0 { cx - r } else { 0int }),
                    x_hi == (if cx + r + 1 < width { cx + r + 1 } else { width as int }),
                    row < y_hi,
                    row < height,
                    0 <= row,
                    x_lo <= col <= x_hi || col == x_lo,
                    forall|i: int|
                        0 <= i < len ==> #[trigger] image.cells()[i] == (if brush_covers(
                            start,
                            x as int,
                            y as int,
                            d,
                            i,
                        ) && (i / (start.stride as int) - start.y < row || (i / (start.stride as int)
                            - start.y == row && i % (start.stride as int) - start.x < col)) {
                            v
                        } else {
                            start.cells()[i]
                        }),
                decreases x_hi - col,
            {
                let dx: i128 = col as i128 - cx as i128;
                let dy: i128 = row as i128 - cy as i128;
                proof {
                    assert(dx * dx <= 0x1_0000_0000_0000_0000_0000 && dy * dy
                        <= 0x1_0000_0000_0000_0000_0000) by (nonlinear_arith)
                        requires
                            -0x1_0000_0000_0 <= dx <= 0x1_0000_0000_0,
                            -0x1_0000_0000_0 <= dy <= 0x1_0000_0000_0,
                    ;
                    assert(dx * dx >= 0 && dy * dy >= 0) by (nonlinear_arith);
                    assert(self.size as i128 * self.size as i128 <= 0x1_0000_0000_0000_0000) by (nonlinear_arith)
                        requires
                            0 <= self.size <= 0xffff_ffff,
                    ;
                }
                let inside = 4 * (dx * dx + dy * dy) <= self.size as i128 * self.size as i128;
                let ghost before = image;
                let ghost k = start.index_of(col as int, row as int);
                proof {
                    lemma_window_index(
                        len as nat,
                        start.stride as nat,
                        start.x as nat,
                        start.y as nat,
                        start.width as nat,
                        start.height as nat,
                        col as nat,
                        row as nat,
                    );
                    lemma_cell_of_index(start.stride as int, start.x + col, start.y + row);
                    assert(inside == in_disc(x as int, y as int, d, col as int, row as int));
                    assert(inside == brush_covers(start, x as int, y as int, d, k));
                }
                if inside {
                    image.set(col as u32, row as u32, self.value);
                }
                proof {
                    assert forall|i: int| 0 <= i < len implies #[trigger] image.cells()[i] == (if brush_covers(
                        start,
                        x as int,
                        y as int,
                        d,
                        i,
                    ) && (i / (start.stride as int) - start.y < row || (i / (start.stride as int)
                        - start.y == row && i % (start.stride as int) - start.x < col + 1)) {
                        v
                    } else {
                        start.cells()[i]
                    }) by {
                        if i != k {
                            assert(image.cells()[i] == before.cells()[i]);
                            if i / (start.stride as int) - start.y == row && i % (start.stride as int)
                                - start.x == col {
                                let st = start.stride as int;
                                lemma_fundamental_div_mod(i, st);
                                assert(i == (i / st) * st + i % st) by (nonlinear_arith)
                                    requires
                                        i == st * (i / st) + i % st,
                                ;
                                assert(i == k);
                            }
                        }
                    }
                }
                col = col + 1;
            }
            proof {
                assert forall|i: int| 0 <= i < len implies #[trigger] image.cells()[i] == (if brush_covers(
                    start,
                    x as int,
                    y as int,
                    d,
                    i,
                ) && i / (start.stride as int) - start.y < row + 1 {
                    v
                } else {
                    start.cells()[i]
                }) by {
                    if brush_covers(start, x as int, y as int, d, i) {
                        lemma_disc_extent(
                            x as int,
                            y as int,
                            d,
                            i % (start.stride as int) - start.x,
                            i / (start.stride as int) - start.y,
                        );
                    }
                }
            }
            row = row + 1;
        }
        proof {
            assert forall|i: int| 0 <= i < len implies #[trigger] image.cells()[i] == stamped(
                start,
                x as int,
                y as int,
                d,
                v,
            )[i] by {
                if brush_covers(start, x as int, y as int, d, i) {
                    lemma_disc_extent(
                        x as int,
                        y as int,
                        d,
                        i % (start.stride as int) - start.x,
                        i / (start.stride as int) - start.y,
                    );
                }
            }
            assert(image.cells() =~= stamped(start, x as int, y as int, d, v));
        }
    }
}

} // verus!
