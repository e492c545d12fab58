//! The Moore-neighbour walk that follows one border of a framed label grid,
//! as spec functions: one step, the walk from a starting pair, the labels it
//! leaves, and the proof that the walk comes back to its starting pair.
use vstd::prelude::*;
use vstd::arithmetic::div_mod::lemma_fundamental_div_mod_converse;
use vstd::set_lib::{lemma_int_range, lemma_len_subset, set_int_range};
use crate::channels::{lemma_window_index, lemma_window_index_injective, row_major};
use crate::contours::{dir_dx, dir_dy, framed, lemma_nonzero_inside};
use crate::channels::Matrix;

verus! {

/// A state of the walk: the current cell `(x, y)`, and the direction, seen
/// from it, of the cell the walk came from.
pub type WalkState = (int, int, int);

/// Neighbour `k` of cell `(x, y)` is non-zero.
pub open spec fn lit(mat: Matrix<i8>, x: int, y: int, k: int) -> bool {
    mat.at(x + dir_dx(k), y + dir_dy(k)) != 0
}

/// Offset, counting from just past direction `from` counter-clockwise, of the
/// first non-zero neighbour of `(x, y)` at offset `o` or later (8 if none).
pub open spec fn search_from(mat: Matrix<i8>, x: int, y: int, from: int, o: int) -> int
    decreases 8 - o,
{
    if o >= 8 {
        8
    } else if lit(mat, x, y, (from + 1 + o) % 8) {
        o
    } else {
        search_from(mat, x, y, from, o + 1)
    }
}

/// Offset of the first non-zero neighbour counter-clockwise after `from`.
pub open spec fn first_lit(mat: Matrix<i8>, s: WalkState) -> int {
    search_from(mat, s.0, s.1, s.2, 0)
}

/// Direction of the next cell of the walk.
pub open spec fn next_dir(mat: Matrix<i8>, s: WalkState) -> int {
    (s.2 + 1 + first_lit(mat, s)) % 8
}

/// The search for the next cell passed the right-hand neighbour (and found it zero).
pub open spec fn right_examined(mat: Matrix<i8>, s: WalkState) -> bool {
    7 - s.2 < first_lit(mat, s)
}

/// One step of the walk: on to the first non-zero neighbour counter-clockwise
/// after the cell the walk came from.
pub open spec fn moore_step(mat: Matrix<i8>, s: WalkState) -> WalkState {
    let k = next_dir(mat, s);
    (s.0 + dir_dx(k), s.1 + dir_dy(k), (k + 4) % 8)
}

/// The state after `n` steps from `s`.
pub open spec fn walk_state(mat: Matrix<i8>, s: WalkState, n: nat) -> WalkState
    decreases n,
{
    if n == 0 {
        s
    } else {
        moore_step(mat, walk_state(mat, s, (n - 1) as nat))
    }
}

/// The label written at cell `(x, y)` when the walk leaves it: -2 when the
/// search passed its zero right-hand neighbour, else 2 over a 1.
pub open spec fn relabel(cells: Seq<i8>, w: int, x: int, y: int, examined: bool) -> Seq<i8> {
    if examined {
        cells.update(row_major(w, x, y), -2i8)
    } else if cells[row_major(w, x, y)] == 1 {
        cells.update(row_major(w, x, y), 2i8)
    } else {
        cells
    }
}

/// The labels after the walk from `s` has left `n` cells.
pub open spec fn walk_cells(mat: Matrix<i8>, s: WalkState, n: nat) -> Seq<i8>
    decreases n,
{
    if n == 0 {
        mat.cells()
    } else {
        let st = walk_state(mat, s, (n - 1) as nat);
        relabel(walk_cells(mat, s, (n - 1) as nat), mat.w() as int, st.0, st.1, right_examined(mat, st))
    }
}

/// Direction of the neighbour `(bx, by)` seen from `(ax, ay)`.
pub open spec fn direction_to(ax: int, ay: int, bx: int, by: int) -> int {
    if bx > ax {
        if by < ay {
            1
        } else if by > ay {
            7
        } else {
            0
        }
    } else if bx < ax {
        if by < ay {
            3
        } else if by > ay {
            5
        } else {
            4
        }
    } else if by < ay {
        2
    } else {
        6
    }
}

/// A state whose cell and came-from cell are non-zero cells inside the frame.
pub open spec fn valid(mat: Matrix<i8>, s: WalkState) -> bool {
    &&& 1 <= s.0 < mat.w() - 1
    &&& 1 <= s.1 < mat.h() - 1
    &&& mat.at(s.0, s.1) != 0
    &&& 0 <= s.2 < 8
    &&& lit(mat, s.0, s.1, s.2)
}

/// The search stops at the first non-zero neighbour, which from a valid state
/// lies at most seven places on.
pub proof fn lemma_search(mat: Matrix<i8>, x: int, y: int, from: int, o: int)
    requires
        0 <= from < 8,
        0 <= o <= 8,
        lit(mat, x, y, from),
        o <= 7,
    ensures
        o <= search_from(mat, x, y, from, o) <= 7,
        lit(mat, x, y, (from + 1 + search_from(mat, x, y, from, o)) % 8),
        forall|p: int|
            o <= p < search_from(mat, x, y, from, o) ==> !lit(mat, x, y, #[trigger] ((from + 1 + p) % 8)),
    decreases 8 - o,
{
    if !lit(mat, x, y, (from + 1 + o) % 8) {
        if o == 7 {
            assert((from + 1 + 7) % 8 == from);
        }
        lemma_search(mat, x, y, from, o + 1);
    }
}

pub proof fn lemma_dir_opposite(k: int)
    requires
        0 <= k < 8,
    ensures
        dir_dx((k + 4) % 8) == -dir_dx(k),
        dir_dy((k + 4) % 8) == -dir_dy(k),
        !(dir_dx(k) == 0 && dir_dy(k) == 0),
        -1 <= dir_dx(k) <= 1,
        -1 <= dir_dy(k) <= 1,
{
}

pub proof fn lemma_dir_injective(a: int, b: int)
    requires
        0 <= a < 8,
        0 <= b < 8,
        dir_dx(a) == dir_dx(b),
        dir_dy(a) == dir_dy(b),
    ensures
        a == b,
{
}

pub proof fn lemma_direction_to(ax: int, ay: int, k: int)
    requires
        0 <= k < 8,
    ensures
        direction_to(ax, ay, ax + dir_dx(k), ay + dir_dy(k)) == k,
{
}

/// A step from a valid state leads to a valid state.
pub proof fn lemma_step_valid(mat: Matrix<i8>, s: WalkState)
    requires
        framed(mat),
        valid(mat, s),
    ensures
        valid(mat, moore_step(mat, s)),
        lit(mat, s.0, s.1, next_dir(mat, s)),
        0 <= next_dir(mat, s) < 8,
        0 <= first_lit(mat, s) <= 7,
{
    lemma_search(mat, s.0, s.1, s.2, 0);
    let k = next_dir(mat, s);
    lemma_dir_opposite(k);
    let t = moore_step(mat, s);
    assert(0 <= s.0 + dir_dx(k) < mat.w() && 0 <= s.1 + dir_dy(k) < mat.h());
    lemma_nonzero_inside(mat, t.0, t.1);
}

/// Every state of a walk from a valid state is valid.
pub proof fn lemma_walk_valid(mat: Matrix<i8>, s: WalkState, n: nat)
    requires
        framed(mat),
        valid(mat, s),
    ensures
        valid(mat, walk_state(mat, s, n)),
    decreases n,
{
    if n > 0 {
        lemma_walk_valid(mat, s, (n - 1) as nat);
        lemma_step_valid(mat, walk_state(mat, s, (n - 1) as nat));
    }
}

/// Two valid states with the same successor are the same state: the cell is
/// the successor's came-from cell, and the direction is the nearest non-zero
/// one clockwise from the successor's.
pub proof fn lemma_step_injective(mat: Matrix<i8>, a: WalkState, b: WalkState)
    requires
        framed(mat),
        valid(mat, a),
        valid(mat, b),
        moore_step(mat, a) == moore_step(mat, b),
    ensures
        a == b,
{
    lemma_search(mat, a.0, a.1, a.2, 0);
    lemma_search(mat, b.0, b.1, b.2, 0);
    let ka = next_dir(mat, a);
    let kb = next_dir(mat, b);
    lemma_dir_opposite(ka);
    lemma_dir_opposite(kb);
    lemma_dir_injective((ka + 4) % 8, (kb + 4) % 8);
    assert(ka == kb);
    assert(a.0 == b.0 && a.1 == b.1);
    let oa = first_lit(mat, a);
    let ob = first_lit(mat, b);
    if oa < ob {
        // b's search passes a's came-from direction, which is non-zero
        let p = ob - oa - 1;
        assert((b.2 + 1 + p) % 8 == a.2);
        assert(!lit(mat, b.0, b.1, (b.2 + 1 + p) % 8));
    } else if ob < oa {
        let p = oa - ob - 1;
        assert((a.2 + 1 + p) % 8 == b.2);
        assert(!lit(mat, a.0, a.1, (a.2 + 1 + p) % 8));
    }
}

/// A number for each state of a `w` by `h` grid, below `8 * h * w`.
pub open spec fn code(w: int, s: WalkState) -> int {
    (s.1 * w + s.0) * 8 + s.2
}

proof fn lemma_code_bounds(mat: Matrix<i8>, s: WalkState)
    requires
        valid(mat, s),
        mat.wf(),
    ensures
        0 <= code(mat.w() as int, s) < 8 * (mat.h() * mat.w()),
{
    lemma_window_index(mat.cells().len(), mat.w(), 0, 0, mat.w(), mat.h(), s.0 as nat, s.1 as nat);
    assert(0 <= s.1 * mat.w() + s.0 < mat.h() * mat.w());
}

proof fn lemma_code_injective(mat: Matrix<i8>, a: WalkState, b: WalkState)
    requires
        valid(mat, a),
        valid(mat, b),
        code(mat.w() as int, a) == code(mat.w() as int, b),
    ensures
        a == b,
{
    let w = mat.w() as int;
    lemma_fundamental_div_mod_converse(code(w, a), 8, a.1 * w + a.0, a.2);
    lemma_fundamental_div_mod_converse(code(w, b), 8, b.1 * w + b.0, b.2);
    lemma_window_index_injective(mat.w(), a.0 as nat, a.1 as nat, b.0 as nat, b.1 as nat);
}

/// Equal states stay equal when both walks are traced back one step at a time.
proof fn lemma_walk_back(mat: Matrix<i8>, s: WalkState, i: nat, j: nat)
    requires
        framed(mat),
        valid(mat, s),
        i <= j,
        walk_state(mat, s, i) == walk_state(mat, s, j),
    ensures
        walk_state(mat, s, 0) == walk_state(mat, s, (j - i) as nat),
    decreases i,
{
    if i > 0 {
        lemma_walk_valid(mat, s, (i - 1) as nat);
        lemma_walk_valid(mat, s, (j - 1) as nat);
        lemma_step_injective(mat, walk_state(mat, s, (i - 1) as nat), walk_state(mat, s, (j - 1) as nat));
        lemma_walk_back(mat, s, (i - 1) as nat, (j - 1) as nat);
    }
}

/// The walk from a valid state comes back to it within as many steps as the
/// grid has states.
pub proof fn lemma_walk_returns(mat: Matrix<i8>, s: WalkState)
    requires
        framed(mat),
        valid(mat, s),
    ensures
        exists|m: nat| 1 <= m <= 8 * (mat.h() * mat.w()) && #[trigger] walk_state(mat, s, m) == s,
{
    let n: int = (8 * (mat.h() * mat.w())) as int;
    let w = mat.w() as int;
    let codes = Seq::new((n + 1) as nat, |i: int| code(w, walk_state(mat, s, i as nat)));
    assert forall|i: int| 0 <= i < codes.len() implies 0 <= #[trigger] codes[i] < n by {
        lemma_walk_valid(mat, s, i as nat);
        lemma_code_bounds(mat, walk_state(mat, s, i as nat));
    }
    if codes.no_duplicates() {
        codes.unique_seq_to_set();
        lemma_int_range(0, n);
        assert(codes.to_set().subset_of(set_int_range(0, n)));
        lemma_len_subset(codes.to_set(), set_int_range(0, n));
        assert(false);
    }
    let (i, j) = choose|i: int, j: int|
        0 <= i < codes.len() && 0 <= j < codes.len() && i != j && codes[i] == codes[j];
    let (lo, hi) = if i < j { (i, j) } else { (j, i) };
    lemma_walk_valid(mat, s, lo as nat);
    lemma_walk_valid(mat, s, hi as nat);
    lemma_code_injective(mat, walk_state(mat, s, lo as nat), walk_state(mat, s, hi as nat));
    lemma_walk_back(mat, s, lo as nat, hi as nat);
    assert(walk_state(mat, s, (hi - lo) as nat) == s);
}

} // verus!
