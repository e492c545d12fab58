//! Small filters over whole planes.
use vstd::prelude::*;
use vstd::arithmetic::div_mod::lemma_fundamental_div_mod_converse;

verus! {

/// Mean-like blur along a row: a quarter of each of the pixel and its two
/// horizontal neighbours, each rounded down.
pub open spec fn across(bytes: Seq<u8>, i: int) -> u8 {
    (bytes[i - 1] / 4 + bytes[i] / 4 + bytes[i + 1] / 4) as u8
}

/// The same along a column of a plane `width` wide.
pub open spec fn down(bytes: Seq<u8>, width: int, i: int) -> u8 {
    (bytes[i - width] / 4 + bytes[i] / 4 + bytes[i + width] / 4) as u8
}

/// The output of `gaussian`: pixels off the top and bottom rows are blurred down
/// their column, pixels of the top and bottom rows off the left and right
/// columns along their row; the four corner pixels, and whatever `out` holds
/// past the plane, keep what `out` held.
pub open spec fn blurred(bytes: Seq<u8>, width: int, height: int, out: Seq<u8>) -> Seq<u8> {
    Seq::new(
        out.len(),
        |i: int|
            if i < width * height && 1 <= i / width < height - 1 {
                down(bytes, width, i)
            } else if i < width * height && 1 <= i % width < width - 1 {
                across(bytes, i)
            } else {
                out[i]
            },
    )
}

proof fn lemma_cell(width: int, x: int, y: int)
    requires
        width > 0,
        0 <= x < width,
        y >= 0,
    ensures
        (y * width + x) / width == y,
        (y * width + x) % width == x,
{
    lemma_fundamental_div_mod_converse(y * width + x, width, y, x);
}

proof fn lemma_row_bounds(width: int, height: int, x: int, y: int)
    requires
        width > 0,
        0 <= x < width,
        0 <= y < height,
    ensures
        0 <= y * width + x < height * width,
        y * width + width <= height * width,
{
    assert(y * width + width <= height * width) by (nonlinear_arith)
        requires
            y + 1 <= height,
            width > 0,
    ;
    assert(y * width >= 0) by (nonlinear_arith)
        requires
            y >= 0,
            width > 0,
    ;
}

/// Blurs `bytes`, a `width` by `height` plane, into `out`: first every pixel
/// off the left and right columns along its row, then every pixel off the top
/// and bottom rows down its column.
pub fn gaussian(bytes: &[u8], width: usize, height: usize, out: &mut [u8])
    requires
        width >= 1,
        height >= 1,
        bytes@.len() >= width * height,
        old(out)@.len() >= width * height,
    ensures
        final(out)@ == blurred(bytes@, width as int, height as int, old(out)@),
{
    let ghost out0 = out@;
    let ghost w = width as int;
    let ghost h = height as int;
    let len = bytes.len();
    let ghost n = h * w;
    proof {
        assert(w * h == h * w) by (nonlinear_arith);
    }
    let mut y: usize = 0;
    while y < height
        invariant
            w == width,
            h == height,
            width >= 1,
            n == h * w,
            len == bytes@.len(),
            bytes@.len() >= n,
            out@.len() == out0.len(),
            out0.len() >= n,
            forall|i: int| n <= i < out@.len() ==> #[trigger] out@[i] == out0[i],
            y <= height,
            forall|i: int|
                0 <= i < n ==> #[trigger] out@[i] == (if i / w < y && 1 <= i % w < w - 1 {
                    across(bytes@, i)
                } else {
                    out0[i]
                }),
        decreases height - y,
    {
        let mut x: usize = 1;
        while x + 1 < width
            invariant
                w == width,
                h == height,
                width >= 1,
                n == h * w,
                len == bytes@.len(),
                bytes@.len() >= n,
                out@.len() == out0.len(),
                out0.len() >= n,
                forall|i: int| n <= i < out@.len() ==> #[trigger] out@[i] == out0[i],
                y < height,
                1 <= x < width || x == 1,
                forall|i: int|
                    0 <= i < n ==> #[trigger] out@[i] == (if (i / w < y || (i / w == y && i % w < x))
                        && 1 <= i % w < w - 1 {
                        across(bytes@, i)
                    } else {
                        out0[i]
                    }),
            decreases width - x,
        {
            proof {
                lemma_row_bounds(w, h, x as int, y as int);
                lemma_cell(w, x as int, y as int);
            }
            let i = y * width + x;
            let v = bytes[i - 1] / 4 + bytes[i] / 4 + bytes[i + 1] / 4;
            out[i] = v;
            proof {
                assert forall|j: int| 0 <= j < n implies #[trigger] out@[j] == (if (j / w < y || (j
                    / w == y && j % w < x + 1)) && 1 <= j % w < w - 1 {
                    across(bytes@, j)
                } else {
                    out0[j]
                }) by {
                    if j != i && j / w == y && j % w == x {
                        vstd::arithmetic::div_mod::lemma_fundamental_div_mod(j, w);
                        assert(j == (j / w) * w + j % w) by (nonlinear_arith)
                            requires
                                j == w * (j / w) + j % w,
                        ;
                    }
                }
            }
            x = x + 1;
        }
        y = y + 1;
    }
    let ghost mid = out@;
    proof {
        assert forall|i: int| 0 <= i < n implies #[trigger] mid[i] == (if 1 <= i % w < w - 1 {
            across(bytes@, i)
        } else {
            out0[i]
        }) by {
            vstd::arithmetic::div_mod::lemma_fundamental_div_mod(i, w);
            assert(i / w < h) by (nonlinear_arith)
                requires
                    i == w * (i / w) + i % w,
                    0 <= i % w,
                    i < h * w,
                    w >= 1,
            ;
        }
    }
    let mut y: usize = 1;
    while y + 1 < height
        invariant
            w == width,
            h == height,
            width >= 1,
            n == h * w,
            len == bytes@.len(),
            bytes@.len() >= n,
            out@.len() == out0.len(),
            out0.len() >= n,
            forall|i: int| n <= i < out@.len() ==> #[trigger] out@[i] == out0[i],
            1 <= y < height || y == 1,
            forall|i: int|
                0 <= i < n ==> #[trigger] mid[i] == (if 1 <= i % w < w - 1 {
                    across(bytes@, i)
                } else {
                    out0[i]
                }),
            forall|i: int|
                0 <= i < n ==> #[trigger] out@[i] == (if 1 <= i / w < y {
                    down(bytes@, w, i)
                } else {
                    mid[i]
                }),
        decreases height - y,
    {
        let mut x: usize = 0;
        while x < width
            invariant
                w == width,
                h == height,
                width >= 1,
                n == h * w,
                len == bytes@.len(),
                bytes@.len() >= n,
                out@.len() == out0.len(),
                out0.len() >= n,
                forall|i: int| n <= i < out@.len() ==> #[trigger] out@[i] == out0[i],
                1 <= y < height - 1,
                x <= width,
                forall|i: int|
                    0 <= i < n ==> #[trigger] mid[i] == (if 1 <= i % w < w - 1 {
                        across(bytes@, i)
                    } else {
                        out0[i]
                    }),
                forall|i: int|
                    0 <= i < n ==> #[trigger] out@[i] == (if 1 <= i / w < y || (i / w == y && i % w
                        < x) {
                        down(bytes@, w, i)
                    } else {
                        mid[i]
                    }),
            decreases width - x,
        {
            proof {
                lemma_row_bounds(w, h, x as int, y as int);
                lemma_row_bounds(w, h, x as int, (y + 1) as int);
                lemma_cell(w, x as int, y as int);
                assert((y + 1) * w == y * w + w) by (nonlinear_arith);
                assert(y * w >= w) by (nonlinear_arith)
                    requires
                        y >= 1,
                        w >= 1,
                ;
            }
            let i = y * width + x;
            let v = bytes[i - width] / 4 + bytes[i] / 4 + bytes[i + width] / 4;
            out[i] = v;
            proof {
                assert forall|j: int| 0 <= j < n implies #[trigger] out@[j] == (if 1 <= j / w < y || (
                j / w == y && j % w < x + 1) {
                    down(bytes@, w, j)
                } else {
                    mid[j]
                }) by {
                    if j != i && j / w == y && j % w == x {
                        vstd::arithmetic::div_mod::lemma_fundamental_div_mod(j, w);
                        assert(j == (j / w) * w + j % w) by (nonlinear_arith)
                            requires
                                j == w * (j / w) + j % w,
                        ;
                    }
                }
            }
            x = x + 1;
        }
        y = y + 1;
    }
    proof {
        assert forall|i: int| 0 <= i < out@.len() implies #[trigger] out@[i] == blurred(bytes@, w, h, out0)[i] by {
            if 0 <= i {
                vstd::arithmetic::div_mod::lemma_fundamental_div_mod(i, w);
            }
            if i / w >= h - 1 && h >= 2 {
                assert(i / w == h - 1 || i / w >= h);
            }
        }
        assert(out@ =~= blurred(bytes@, w, h, out0));
    }
}

} // verus!
