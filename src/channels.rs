//! Rectangular grids of cells and bounds-checked windows into them.
//!
//! A `Matrix` owns its cells in row-major order. A `ViewRef` or `ViewMut` borrows
//! the cells of a matrix (or of any row-major buffer) and restricts access to a
//! rectangular window; coordinates given to a view are relative to the window,
//! and every access is checked against the base buffer.
use vstd::prelude::*;

verus! {

/// Index of cell `(x, y)` in a row-major buffer whose rows are `stride` cells long.
pub open spec fn row_major(stride: int, x: int, y: int) -> int {
    y * stride + x
}

/// A window's well-formedness, over its plain parts: the window lies within
/// the base rows, and the last window row ends inside the buffer.
pub open spec fn window_fits(
    len: nat,
    stride: nat,
    x0: nat,
    y0: nat,
    width: nat,
    height: nat,
) -> bool {
    &&& x0 + width <= stride
    &&& (y0 + height) * stride <= len
}

/// Cell `x` of row `y` in a window at `(x0, y0)` lies inside a buffer that the window fits.
pub proof fn lemma_window_index(
    len: nat,
    stride: nat,
    x0: nat,
    y0: nat,
    width: nat,
    height: nat,
    x: nat,
    y: nat,
)
    requires
        window_fits(len, stride, x0, y0, width, height),
        x < width,
        y < height,
    ensures
        0 <= row_major(stride as int, (x0 + x) as int, (y0 + y) as int) < len,
        row_major(stride as int, (x0 + x) as int, (y0 + y) as int) < (y0 + y + 1) * stride,
        (y0 + y) * stride <= row_major(stride as int, (x0 + x) as int, (y0 + y) as int),
        x0 + x <= row_major(stride as int, (x0 + x) as int, (y0 + y) as int),
        y0 + y <= row_major(stride as int, (x0 + x) as int, (y0 + y) as int),
{
    assert((y0 + y) * stride >= y0 + y) by (nonlinear_arith)
        requires
            stride >= 1,
    ;
    assert((y0 + y + 1) * stride <= (y0 + height) * stride) by (nonlinear_arith)
        requires
            y + 1 <= height,
    ;
    assert((y0 + y + 1) * stride == (y0 + y) * stride + stride) by (nonlinear_arith);
    assert((y0 + y) * stride >= 0) by (nonlinear_arith);
}

/// Two distinct window cells have distinct buffer indices.
pub proof fn lemma_window_index_injective(stride: nat, x1: nat, y1: nat, x2: nat, y2: nat)
    requires
        x1 < stride,
        x2 < stride,
        row_major(stride as int, x1 as int, y1 as int) == row_major(
            stride as int,
            x2 as int,
            y2 as int,
        ),
    ensures
        x1 == x2,
        y1 == y2,
{
    if y1 < y2 {
        assert(y1 * stride + stride <= y2 * stride) by (nonlinear_arith)
            requires
                y1 < y2,
        ;
    } else if y2 < y1 {
        assert(y2 * stride + stride <= y1 * stride) by (nonlinear_arith)
            requires
                y2 < y1,
        ;
    }
}

/// An owned, row-major grid of `width * height` cells.
pub struct Matrix<T> {
    data: Vec<T>,
    width: u32,
    height: u32,
}

impl<T: Copy> Matrix<T> {
    /// The cells, row after row.
    pub closed spec fn cells(&self) -> Seq<T> {
        self.data@
    }

    pub closed spec fn w(&self) -> nat {
        self.width as nat
    }

    pub closed spec fn h(&self) -> nat {
        self.height as nat
    }

    /// The cell buffer holds exactly one cell per grid position.
    pub open spec fn wf(&self) -> bool {
        self.cells().len() == self.h() * self.w()
    }

    /// The cell at column `x`, row `y`.
    pub open spec fn at(&self, x: int, y: int) -> T {
        self.cells()[row_major(self.w() as int, x, y)]
    }

    /// A `width` by `height` grid with every cell set to `value`.
    pub fn filled(width: u32, height: u32, value: T) -> (m: Self)
        requires
            height * width <= usize::MAX,
        ensures
            m.wf(),
            m.w() == width,
            m.h() == height,
            forall|i: int| 0 <= i < m.cells().len() ==> m.cells()[i] == value,
    {
        let n: usize = height as usize * width as usize;
        let mut data: Vec<T> = Vec::with_capacity(n);
        let mut i: usize = 0;
        while i < n
            invariant
                i <= n,
                data@.len() == i,
                forall|j: int| 0 <= j < i ==> data@[j] == value,
            decreases n - i,
        {
            data.push(value);
            i = i + 1;
        }
        Matrix { data, width, height }
    }

    pub fn width(&self) -> (r: u32)
        ensures
            r == self.w(),
    {
        self.width
    }

    pub fn height(&self) -> (r: u32)
        ensures
            r == self.h(),
    {
        self.height
    }

    /// The cell at `(x, y)`; both must lie inside the grid.
    pub fn get(&self, x: u32, y: u32) -> (r: T)
        requires
            self.wf(),
            x < self.w(),
            y < self.h(),
        ensures
            r == self.at(x as int, y as int),
    {
        proof {
            lemma_window_index(self.cells().len(), self.w(), 0, 0, self.w(), self.h(), x as nat, y as nat);
        }
        // the length bounds the index arithmetic below
        let _len = self.data.len();
        self.data[y as usize * self.width as usize + x as usize]
    }

    /// Overwrites the cell at `(x, y)`; both must lie inside the grid.
    pub fn set(&mut self, x: u32, y: u32, value: T)
        requires
            old(self).wf(),
            x < old(self).w(),
            y < old(self).h(),
        ensures
            final(self).wf(),
            final(self).w() == old(self).w(),
            final(self).h() == old(self).h(),
            final(self).cells() == old(self).cells().update(
                row_major(old(self).w() as int, x as int, y as int),
                value,
            ),
    {
        proof {
            lemma_window_index(self.cells().len(), self.w(), 0, 0, self.w(), self.h(), x as nat, y as nat);
        }
        // the length bounds the index arithmetic below
        let _len = self.data.len();
        let i = y as usize * self.width as usize + x as usize;
        self.data.set(i, value);
    }

    /// All cells as one contiguous row-major slice.
    pub fn as_slice(&self) -> (r: &[T])
        ensures
            r@ == self.cells(),
    {
        self.data.as_slice()
    }

    /// All cells as one contiguous row-major slice that may be written.
    pub fn as_slice_mut(&mut self) -> (r: &mut [T])
        ensures
            r@ == old(self).cells(),
            final(self).cells() == final(r)@,
            final(self).w() == old(self).w(),
            final(self).h() == old(self).h(),
    {
        self.data.as_mut_slice()
    }

    /// A read-only window at `(x, y)` of `width` by `height` cells.
    pub fn view(&self, x: u32, y: u32, width: u32, height: u32) -> (v: ViewRef<'_, T>)
        requires
            self.wf(),
            x + width <= self.w(),
            y + height <= self.h(),
        ensures
            v.wf(),
            v.base() == self.cells(),
            v.stride() == self.w(),
            v.x0() == x,
            v.y0() == y,
            v.w() == width,
            v.h() == height,
    {
        proof {
            assert((y + height) * self.w() <= self.h() * self.w()) by (nonlinear_arith)
                requires
                    y + height <= self.h(),
            ;
            assert(window_fits(self.cells().len(), self.w(), x as nat, y as nat, width as nat, height as nat));
        }
        ViewRef { buffer: self.data.as_slice(), stride: self.width, x, y, width, height }
    }

    /// A read-only window over the whole grid.
    pub fn as_view(&self) -> (v: ViewRef<'_, T>)
        requires
            self.wf(),
        ensures
            v.wf(),
            v.is_full(),
            v.base() == self.cells(),
            v.stride() == self.w(),
            v.x0() == 0,
            v.y0() == 0,
            v.w() == self.w(),
            v.h() == self.h(),
    {
        ViewRef {
            buffer: self.data.as_slice(),
            stride: self.width,
            x: 0,
            y: 0,
            width: self.width,
            height: self.height,
        }
    }

    /// A writable window at `(x, y)` of `width` by `height` cells. What is written
    /// through the window is what the grid holds once the window is gone.
    pub fn view_mut(&mut self, x: u32, y: u32, width: u32, height: u32) -> (v: ViewMut<'_, T>)
        requires
            old(self).wf(),
            x + width <= old(self).w(),
            y + height <= old(self).h(),
        ensures
            v.wf(),
            v.cells() == old(self).cells(),
            v.stride == old(self).w(),
            v.x == x,
            v.y == y,
            v.width == width,
            v.height == height,
            final(self).cells() == final(v.buffer)@,
            final(self).w() == old(self).w(),
            final(self).h() == old(self).h(),
    {
        proof {
            assert((y + height) * self.w() <= self.h() * self.w()) by (nonlinear_arith)
                requires
                    y + height <= self.h(),
            ;
            assert(window_fits(self.cells().len(), self.w(), x as nat, y as nat, width as nat, height as nat));
        }
        let stride = self.width;
        ViewMut { buffer: self.data.as_mut_slice(), stride, x, y, width, height }
    }

    /// A writable window over the whole grid.
    pub fn as_view_mut(&mut self) -> (v: ViewMut<'_, T>)
        requires
            old(self).wf(),
        ensures
            v.wf(),
            v.cells() == old(self).cells(),
            v.stride == old(self).w(),
            v.x == 0,
            v.y == 0,
            v.width == old(self).w(),
            v.height == old(self).h(),
            final(self).cells() == final(v.buffer)@,
            final(self).w() == old(self).w(),
            final(self).h() == old(self).h(),
    {
        let width = self.width;
        let height = self.height;
        ViewMut { buffer: self.data.as_mut_slice(), stride: width, x: 0, y: 0, width, height }
    }
}

impl Matrix<u8> {
    /// A `width` by `height` plane of zero bytes.
    pub fn new(width: u32, height: u32) -> (m: Self)
        requires
            height * width <= usize::MAX,
        ensures
            m.wf(),
            m.w() == width,
            m.h() == height,
            forall|i: int| 0 <= i < m.cells().len() ==> m.cells()[i] == 0,
    {
        Self::filled(width, height, 0)
    }
}

impl Matrix<i8> {
    /// A `width` by `height` grid of zero labels.
    pub fn new(width: u32, height: u32) -> (m: Self)
        requires
            height * width <= usize::MAX,
        ensures
            m.wf(),
            m.w() == width,
            m.h() == height,
            forall|i: int| 0 <= i < m.cells().len() ==> m.cells()[i] == 0,
    {
        Self::filled(width, height, 0)
    }
}

/// A read-only rectangular window into a row-major buffer.
pub struct ViewRef<'a, T> {
    buffer: &'a [T],
    stride: u32,
    x: u32,
    y: u32,
    width: u32,
    height: u32,
}

impl<'a, T: Copy> ViewRef<'a, T> {
    /// The whole base buffer, not only the window.
    pub closed spec fn base(&self) -> Seq<T> {
        self.buffer@
    }

    /// Length of a base row.
    pub closed spec fn stride(&self) -> nat {
        self.stride as nat
    }

    pub closed spec fn x0(&self) -> nat {
        self.x as nat
    }

    pub closed spec fn y0(&self) -> nat {
        self.y as nat
    }

    pub closed spec fn w(&self) -> nat {
        self.width as nat
    }

    pub closed spec fn h(&self) -> nat {
        self.height as nat
    }

    pub open spec fn wf(&self) -> bool {
        window_fits(self.base().len(), self.stride(), self.x0(), self.y0(), self.w(), self.h())
    }

    /// The window covers exactly the whole base buffer.
    pub open spec fn is_full(&self) -> bool {
        &&& self.x0() == 0
        &&& self.y0() == 0
        &&& self.w() == self.stride()
        &&& self.base().len() == self.h() * self.w()
    }

    /// Cell `(x, y)` of the window.
    pub open spec fn at(&self, x: int, y: int) -> T {
        self.base()[row_major(self.stride() as int, self.x0() + x, self.y0() + y)]
    }

    /// A window at `(x, y)` of `width` by `height` cells over a buffer whose rows
    /// are `stride` cells long.
    pub fn new(buffer: &'a [T], stride: u32, x: u32, y: u32, width: u32, height: u32) -> (v: Self)
        requires
            window_fits(buffer@.len(), stride as nat, x as nat, y as nat, width as nat, height as nat),
        ensures
            v.wf(),
            v.base() == buffer@,
            v.stride() == stride,
            v.x0() == x,
            v.y0() == y,
            v.w() == width,
            v.h() == height,
    {
        ViewRef { buffer, stride, x, y, width, height }
    }

    pub fn width(&self) -> (r: u32)
        ensures
            r == self.w(),
    {
        self.width
    }

    pub fn height(&self) -> (r: u32)
        ensures
            r == self.h(),
    {
        self.height
    }

    /// Cell `(x, y)` of the window; both must lie inside the window.
    pub fn get(&self, x: u32, y: u32) -> (r: T)
        requires
            self.wf(),
            x < self.w(),
            y < self.h(),
        ensures
            r == self.at(x as int, y as int),
    {
        proof {
            lemma_window_index(
                self.base().len(),
                self.stride(),
                self.x0(),
                self.y0(),
                self.w(),
                self.h(),
                x as nat,
                y as nat,
            );
        }
        // the length bounds the index arithmetic below
        let _len = self.buffer.len();
        let row = self.y as usize + y as usize;
        let col = self.x as usize + x as usize;
        self.buffer[row * self.stride as usize + col]
    }

    /// The window's cells as one contiguous slice, which exists only when the
    /// window covers the whole base buffer.
    pub fn as_slice(&self) -> (r: Option<&'a [T]>)
        requires
            self.wf(),
        ensures
            r is Some <==> self.is_full(),
            r is Some ==> r->0@ == self.base(),
    {
        let len = self.buffer.len();
        proof {
            assert(self.w() * self.h() <= u64::MAX && self.w() * self.h() == self.h() * self.w())
                by (nonlinear_arith)
                requires
                    self.w() <= u32::MAX,
                    self.h() <= u32::MAX,
            ;
        }
        if self.x == 0 && self.y == 0 && self.width == self.stride
            && self.width as u64 * self.height as u64 == len as u64 {
            Some(self.buffer)
        } else {
            None
        }
    }

    /// A new grid holding a copy of the cells of a window that covers its
    /// whole base buffer.
    pub fn to_matrix(&self) -> (m: Matrix<T>)
        requires
            self.wf(),
            self.is_full(),
        ensures
            m.wf(),
            m.w() == self.w(),
            m.h() == self.h(),
            forall|x: int, y: int|
                0 <= x < self.w() && 0 <= y < self.h() ==> #[trigger] m.at(x, y) == self.at(x, y),
    {
        let len = self.buffer.len();
        let mut data: Vec<T> = Vec::new();
        let mut y: u32 = 0;
        while y < self.height
            invariant
                self.wf(),
                len == self.base().len(),
                y <= self.h(),
                data@.len() == y * self.w(),
                forall|i: int, j: int|
                    0 <= i < self.w() && 0 <= j < y ==> #[trigger] data@[row_major(
                        self.w() as int,
                        i,
                        j,
                    )] == self.at(i, j),
            decreases self.h() - y,
        {
            let mut x: u32 = 0;
            while x < self.width
                invariant
                    self.wf(),
                    len == self.base().len(),
                    y < self.h(),
                    x <= self.w(),
                    data@.len() == y * self.w() + x,
                    forall|i: int, j: int|
                        0 <= i < self.w() && 0 <= j < y ==> #[trigger] data@[row_major(
                            self.w() as int,
                            i,
                            j,
                        )] == self.at(i, j),
                    forall|i: int|
                        0 <= i < x ==> #[trigger] data@[row_major(self.w() as int, i, y as int)]
                            == self.at(i, y as int),
                decreases self.w() - x,
            {
                let c = self.get(x, y);
                let ghost before = data@;
                data.push(c);
                proof {
                    assert forall|i: int, j: int|
                        0 <= i < self.w() && 0 <= j < y implies #[trigger] data@[row_major(
                            self.w() as int,
                            i,
                            j,
                        )] == self.at(i, j) by {
                        lemma_window_index(
                            (y * self.w()) as nat,
                            self.w(),
                            0,
                            0,
                            self.w(),
                            y as nat,
                            i as nat,
                            j as nat,
                        );
                        assert(before[row_major(self.w() as int, i, j)] == self.at(i, j));
                    }
                }
                x = x + 1;
            }
            proof {
                assert((y + 1) * self.w() == y * self.w() + self.w()) by (nonlinear_arith);
                assert forall|i: int, j: int|
                    0 <= i < self.w() && 0 <= j < y + 1 implies #[trigger] data@[row_major(
                        self.w() as int,
                        i,
                        j,
                    )] == self.at(i, j) by {
                    if j < y {
                    } else {
                        assert(j == y);
                    }
                }
            }
            y = y + 1;
        }
        proof {
            assert(data@.len() == self.h() * self.w());
        }
        Matrix { data, width: self.width, height: self.height }
    }
}

/// A writable rectangular window into a row-major buffer. Its parts are public
/// so that contracts can follow what is written through `buffer` back to the
/// buffer's owner; `wf` must hold for the accessors to be used.
pub struct ViewMut<'a, T> {
    pub buffer: &'a mut [T],
    pub stride: u32,
    pub x: u32,
    pub y: u32,
    pub width: u32,
    pub height: u32,
}

impl<'a, T: Copy> ViewMut<'a, T> {
    /// The whole base buffer as it stands now.
    pub open spec fn cells(&self) -> Seq<T> {
        self.buffer@
    }

    pub open spec fn wf(&self) -> bool {
        window_fits(
            self.cells().len(),
            self.stride as nat,
            self.x as nat,
            self.y as nat,
            self.width as nat,
            self.height as nat,
        )
    }

    /// Base-buffer index of window cell `(x, y)`.
    pub open spec fn index_of(&self, x: int, y: int) -> int {
        row_major(self.stride as int, self.x + x, self.y + y)
    }

    /// Cell `(x, y)` of the window.
    pub open spec fn at(&self, x: int, y: int) -> T {
        self.cells()[self.index_of(x, y)]
    }

    /// Same window over the same borrowed buffer.
    pub open spec fn same_window(&self, other: &Self) -> bool {
        &&& self.stride == other.stride
        &&& self.x == other.x
        &&& self.y == other.y
        &&& self.width == other.width
        &&& self.height == other.height
    }

    /// A window at `(x, y)` of `width` by `height` cells over a buffer whose rows
    /// are `stride` cells long.
    pub fn new(buffer: &'a mut [T], stride: u32, x: u32, y: u32, width: u32, height: u32) -> (v: Self)
        requires
            window_fits(old(buffer)@.len(), stride as nat, x as nat, y as nat, width as nat, height as nat),
        ensures
            v.wf(),
            v.cells() == old(buffer)@,
            final(v.buffer)@ == final(buffer)@,
            v.stride == stride,
            v.x == x,
            v.y == y,
            v.width == width,
            v.height == height,
    {
        ViewMut { buffer, stride, x, y, width, height }
    }

    pub fn width(&self) -> (r: u32)
        ensures
            r == self.width,
    {
        self.width
    }

    pub fn height(&self) -> (r: u32)
        ensures
            r == self.height,
    {
        self.height
    }

    /// Cell `(x, y)` of the window; both must lie inside the window.
    pub fn get(&self, x: u32, y: u32) -> (r: T)
        requires
            self.wf(),
            x < self.width,
            y < self.height,
        ensures
            r == self.at(x as int, y as int),
    {
        proof {
            lemma_window_index(
                self.cells().len(),
                self.stride as nat,
                self.x as nat,
                self.y as nat,
                self.width as nat,
                self.height as nat,
                x as nat,
                y as nat,
            );
        }
        // the length bounds the index arithmetic below
        let _len = self.buffer.len();
        let row = self.y as usize + y as usize;
        let col = self.x as usize + x as usize;
        self.buffer[row * self.stride as usize + col]
    }

    /// Overwrites cell `(x, y)` of the window; both must lie inside the window.
    pub fn set(&mut self, x: u32, y: u32, value: T)
        requires
            old(self).wf(),
            x < old(self).width,
            y < old(self).height,
        ensures
            final(self).wf(),
            final(self).same_window(old(self)),
            final(self).cells() == old(self).cells().update(old(self).index_of(x as int, y as int), value),
            final(final(self).buffer)@ == final(old(self).buffer)@,
    {
        proof {
            lemma_window_index(
                self.cells().len(),
                self.stride as nat,
                self.x as nat,
                self.y as nat,
                self.width as nat,
                self.height as nat,
                x as nat,
                y as nat,
            );
        }
        // the length bounds the index arithmetic below
        let _len = self.buffer.len();
        let row = self.y as usize + y as usize;
        let col = self.x as usize + x as usize;
        let i = row * self.stride as usize + col;
        self.buffer[i] = value;
    }
}

} // verus!
