//! Integer line rasterization (Bresenham), used to fill the gaps of a drag.
use vstd::prelude::*;
use vstd::arithmetic::div_mod::{lemma_fundamental_div_mod, lemma_fundamental_div_mod_converse};
use crate::contours::Point;

verus! {

/// Offset along the minor axis of point `i` of a line that advances `major`
/// along its major axis and `minor` along its minor one
/// (`0 <= minor <= major`): the least `k` with `2 * major * k >= 2 * minor * i - major`,
/// that is `i * minor / major` rounded to nearest, halves rounded down.
pub open spec fn minor_step(major: int, minor: int, i: int) -> int {
    if major <= 0 {
        0
    } else {
        (2 * minor * i + major - 1) / (2 * major)
    }
}

/// `k` steps from `a` towards `b`.
pub open spec fn toward(a: int, b: int, k: int) -> int {
    if b < a {
        a - k
    } else {
        a + k
    }
}

pub open spec fn abs(v: int) -> int {
    if v < 0 {
        -v
    } else {
        v
    }
}

/// The points from `(x0, y0)` to `(x1, y1)` of a line at most 45 degrees off
/// the x axis, with `x0 <= x1`: one per column, left to right.
pub open spec fn low_line(x0: int, y0: int, x1: int, y1: int) -> Seq<Point<i32>> {
    Seq::new(
        (x1 - x0 + 1) as nat,
        |i: int|
            Point {
                x: (x0 + i) as i32,
                y: toward(y0, y1, minor_step(x1 - x0, abs(y1 - y0), i)) as i32,
            },
    )
}

/// The points from `(x0, y0)` to `(x1, y1)` of a line at most 45 degrees off
/// the y axis, with `y0 <= y1`: one per row, top to bottom.
pub open spec fn high_line(x0: int, y0: int, x1: int, y1: int) -> Seq<Point<i32>> {
    Seq::new(
        (y1 - y0 + 1) as nat,
        |i: int|
            Point {
                x: toward(x0, x1, minor_step(y1 - y0, abs(x1 - x0), i)) as i32,
                y: (y0 + i) as i32,
            },
    )
}

/// The 8-connected path between two points: along the axis in which they are
/// further apart, from the end with the smaller coordinate on that axis (rows
/// when the distances are equal).
pub open spec fn line_points(x0: int, y0: int, x1: int, y1: int) -> Seq<Point<i32>> {
    if abs(y1 - y0) < abs(x1 - x0) {
        if x0 > x1 {
            low_line(x1, y1, x0, y0)
        } else {
            low_line(x0, y0, x1, y1)
        }
    } else {
        if y0 > y1 {
            high_line(x1, y1, x0, y0)
        } else {
            high_line(x0, y0, x1, y1)
        }
    }
}

/// `k` is `minor_step(major, minor, i)` when it brackets `2 * minor * i - major`.
proof fn lemma_minor_step_from_bounds(major: int, minor: int, i: int, k: int)
    requires
        major >= 1,
        2 * major * (k - 1) < 2 * minor * i - major <= 2 * major * k,
    ensures
        minor_step(major, minor, i) == k,
{
    let num = 2 * minor * i + major - 1;
    let rem = num - 2 * major * k;
    assert(2 * major * (k - 1) == 2 * major * k - 2 * major) by (nonlinear_arith);
    assert(num == k * (2 * major) + rem) by (nonlinear_arith)
        requires
            rem == num - 2 * major * k,
    ;
    lemma_fundamental_div_mod_converse(num, 2 * major, k, rem);
}

/// `minor_step` brackets `2 * minor * i - major`, and grows by 0 or 1 per step.
proof fn lemma_minor_step_bounds(major: int, minor: int, i: int)
    requires
        major >= 1,
        0 <= minor <= major,
        i >= 0,
    ensures
        2 * major * (minor_step(major, minor, i) - 1) < 2 * minor * i - major <= 2 * major
            * minor_step(major, minor, i),
        0 <= minor_step(major, minor, i + 1) - minor_step(major, minor, i) <= 1,
        minor_step(major, minor, 0) == 0,
        minor_step(major, minor, major) == minor,
{
    let num = 2 * minor * i + major - 1;
    lemma_fundamental_div_mod(num, 2 * major);
    let k = minor_step(major, minor, i);
    assert(num == 2 * major * k + num % (2 * major)) by (nonlinear_arith)
        requires
            num == (2 * major) * (num / (2 * major)) + num % (2 * major),
            k == num / (2 * major),
    ;
    assert(2 * major * (k - 1) == 2 * major * k - 2 * major) by (nonlinear_arith);
    let num2 = 2 * minor * (i + 1) + major - 1;
    lemma_fundamental_div_mod(num2, 2 * major);
    let k2 = minor_step(major, minor, i + 1);
    assert(num2 == 2 * major * k2 + num2 % (2 * major)) by (nonlinear_arith)
        requires
            num2 == (2 * major) * (num2 / (2 * major)) + num2 % (2 * major),
            k2 == num2 / (2 * major),
    ;
    assert(2 * minor * (i + 1) == 2 * minor * i + 2 * minor) by (nonlinear_arith);
    assert(k2 <= k + 1) by (nonlinear_arith)
        requires
            2 * major * k2 <= num2,
            num2 == 2 * minor * i + 2 * minor + major - 1,
            num < 2 * major * k + 2 * major,
            num == 2 * minor * i + major - 1,
            minor <= major,
            major >= 1,
    ;
    assert(k2 >= k) by (nonlinear_arith)
        requires
            2 * major * k2 > num2 - 2 * major,
            num2 == num + 2 * minor,
            2 * major * k <= num,
            minor >= 0,
            major >= 1,
    ;
    lemma_minor_step_from_bounds(major, minor, 0, 0);
    assert(2 * major * (minor - 1) < 2 * minor * major - major <= 2 * major * minor)
        by (nonlinear_arith)
        requires
            major >= 1,
    ;
    lemma_minor_step_from_bounds(major, minor, major, minor);
}

/// Consecutive points of `s` differ by at most one in each coordinate.
pub open spec fn steps_by_one(s: Seq<Point<i32>>) -> bool {
    forall|i: int|
        0 < i < s.len() ==> {
            &&& -1 <= #[trigger] s[i].x - s[i - 1].x <= 1
            &&& -1 <= s[i].y - s[i - 1].y <= 1
        }
}

/// `s` runs from `a` to `b` or from `b` to `a`.
pub open spec fn joins(s: Seq<Point<i32>>, a: Point<i32>, b: Point<i32>) -> bool {
    &&& s.len() >= 1
    &&& (s[0] == a && s[s.len() - 1] == b) || (s[0] == b && s[s.len() - 1] == a)
}

/// Consecutive points of a line differ by at most one in each coordinate, and the
/// line runs from one endpoint to the other.
pub proof fn lemma_line_continuity(x0: i32, y0: i32, x1: i32, y1: i32)
    ensures
        line_points(x0 as int, y0 as int, x1 as int, y1 as int).len() >= 1,
        steps_by_one(line_points(x0 as int, y0 as int, x1 as int, y1 as int)),
        joins(
            line_points(x0 as int, y0 as int, x1 as int, y1 as int),
            Point { x: x0, y: y0 },
            Point { x: x1, y: y1 },
        ),
{
    let dx = x1 - x0;
    let dy = y1 - y0;
    if abs(dy) < abs(dx) {
        let (ax, ay, bx, by) = if x0 > x1 {
            (x1 as int, y1 as int, x0 as int, y0 as int)
        } else {
            (x0 as int, y0 as int, x1 as int, y1 as int)
        };
        let s = low_line(ax, ay, bx, by);
        assert(s == line_points(x0 as int, y0 as int, x1 as int, y1 as int));
        let m = bx - ax;
        assert forall|i: int| 0 < i < s.len() implies {
            &&& -1 <= #[trigger] s[i].x - s[i - 1].x <= 1
            &&& -1 <= s[i].y - s[i - 1].y <= 1
        } by {
            lemma_minor_step_bounds(m, abs(by - ay), i - 1);
            lemma_minor_step_bounds(m, abs(by - ay), i);
            lemma_minor_step_bounds(m, abs(by - ay), 0);
            assert(0 <= minor_step(m, abs(by - ay), i) <= abs(by - ay)) by {
                lemma_minor_step_monotone_to(m, abs(by - ay), i);
            }
            assert(0 <= minor_step(m, abs(by - ay), i - 1) <= abs(by - ay)) by {
                lemma_minor_step_monotone_to(m, abs(by - ay), i - 1);
            }
        }
        lemma_minor_step_bounds(m, abs(by - ay), 0);
        lemma_minor_step_bounds(m, abs(by - ay), m);
    } else if dx == 0 && dy == 0 {
        assert(line_points(x0 as int, y0 as int, x1 as int, y1 as int) == high_line(
            x0 as int,
            y0 as int,
            x1 as int,
            y1 as int,
        ));
    } else {
        let (ax, ay, bx, by) = if y0 > y1 {
            (x1 as int, y1 as int, x0 as int, y0 as int)
        } else {
            (x0 as int, y0 as int, x1 as int, y1 as int)
        };
        let s = high_line(ax, ay, bx, by);
        assert(s == line_points(x0 as int, y0 as int, x1 as int, y1 as int));
        let m = by - ay;
        assert forall|i: int| 0 < i < s.len() implies {
            &&& -1 <= #[trigger] s[i].x - s[i - 1].x <= 1
            &&& -1 <= s[i].y - s[i - 1].y <= 1
        } by {
            lemma_minor_step_bounds(m, abs(bx - ax), i - 1);
            lemma_minor_step_bounds(m, abs(bx - ax), i);
            assert(0 <= minor_step(m, abs(bx - ax), i) <= abs(bx - ax)) by {
                lemma_minor_step_monotone_to(m, abs(bx - ax), i);
            }
            assert(0 <= minor_step(m, abs(bx - ax), i - 1) <= abs(bx - ax)) by {
                lemma_minor_step_monotone_to(m, abs(bx - ax), i - 1);
            }
        }
        lemma_minor_step_bounds(m, abs(bx - ax), 0);
        lemma_minor_step_bounds(m, abs(bx - ax), m);
    }
}

/// Within a line, the minor offset stays between 0 and the whole minor distance.
proof fn lemma_minor_step_monotone_to(major: int, minor: int, i: int)
    requires
        major >= 1,
        0 <= minor <= major,
        0 <= i <= major,
    ensures
        0 <= minor_step(major, minor, i) <= minor,
{
    let num = 2 * minor * i + major - 1;
    assert(0 <= num) by (nonlinear_arith)
        requires
            minor >= 0,
            i >= 0,
            major >= 1,
            num == 2 * minor * i + major - 1,
    ;
    assert(num < 2 * major * (minor + 1)) by (nonlinear_arith)
        requires
            0 <= minor <= major,
            0 <= i <= major,
            num == 2 * minor * i + major - 1,
    ;
    lemma_fundamental_div_mod(num, 2 * major);
    let k = num / (2 * major);
    assert(0 <= k <= minor) by (nonlinear_arith)
        requires
            num == (2 * major) * k + num % (2 * major),
            0 <= num % (2 * major) < 2 * major,
            0 <= num < 2 * major * (minor + 1),
            major >= 1,
    ;
}

/// The line from `(x0, y0)` to `(x1, y1)`, one point per column, when it is at
/// most 45 degrees off the x axis and runs left to right.
pub fn plot_line_low(x0: i32, y0: i32, x1: i32, y1: i32) -> (points: Vec<Point<i32>>)
    requires
        x0 <= x1,
        abs(y1 - y0) <= x1 - x0,
    ensures
        points@ == low_line(x0 as int, y0 as int, x1 as int, y1 as int),
{
    let dx: i64 = x1 as i64 - x0 as i64;
    let mut dy: i64 = y1 as i64 - y0 as i64;
    let mut yi: i64 = 1;
    if dy < 0 {
        yi = -1;
        dy = -dy;
    }
    let mut d: i64 = 2 * dy - dx;
    let mut y: i64 = y0 as i64;
    let mut x: i64 = x0 as i64;
    let mut points: Vec<Point<i32>> = Vec::new();
    let ghost mut k: int = 0;
    proof {
        if dx >= 1 {
            lemma_minor_step_from_bounds(dx as int, dy as int, 0, 0);
        }
        assert(2 * dy * (x - x0 + 1) == 2 * dy) by (nonlinear_arith)
            requires
                x == x0,
        ;
        assert(2 * dx * k == 0) by (nonlinear_arith)
            requires
                k == 0,
        ;
    }
    while x <= x1 as i64
        invariant
            dx == x1 - x0,
            dy == abs(y1 - y0),
            yi == (if y1 < y0 { -1int } else { 1int }),
            0 <= dy <= dx,
            x0 <= x <= x1 + 1,
            dx >= 1 ==> 2 * dx * (k - 1) < 2 * dy * (x - x0) - dx <= 2 * dx * k,
            dx == 0 ==> k == 0,
            0 <= k <= dy + 1,
            x <= x1 ==> k <= dy,
            x <= x1 ==> minor_step(dx as int, dy as int, x - x0) == k,
            y == toward(y0 as int, y1 as int, k),
            d == 2 * dy * (x - x0 + 1) - dx - 2 * dx * k,
            points@.len() == x - x0,
            forall|j: int|
                0 <= j < x - x0 ==> #[trigger] points@[j] == low_line(
                    x0 as int,
                    y0 as int,
                    x1 as int,
                    y1 as int,
                )[j],
        decreases x1 + 1 - x,
    {
        proof {
            if dx >= 1 {
                lemma_minor_step_monotone_to(dx as int, dy as int, x - x0);
            }
        }
        points.push(Point::new(x as i32, y as i32));
        proof {
            assert(2 * dy * (x - x0 + 1) == 2 * dy * (x - x0) + 2 * dy) by (nonlinear_arith);
            assert(2 * dy * (x - x0 + 2) == 2 * dy * (x - x0 + 1) + 2 * dy) by (nonlinear_arith);
            assert(2 * dx * (k + 1) == 2 * dx * k + 2 * dx) by (nonlinear_arith);
            assert(2 * dx * (k - 1) == 2 * dx * k - 2 * dx) by (nonlinear_arith);
        }
        if d > 0 {
            y = y + yi;
            d = d - 2 * dx;
            proof {
                k = k + 1;
            }
        }
        d = d + 2 * dy;
        x = x + 1;
        proof {
            if x <= x1 {
                lemma_minor_step_from_bounds(dx as int, dy as int, x - x0, k);
                lemma_minor_step_monotone_to(dx as int, dy as int, x - x0);
            }
        }
    }
    proof {
        assert(points@ =~= low_line(x0 as int, y0 as int, x1 as int, y1 as int));
    }
    points
}

/// The line from `(y0, x0)` to `(y1, x1)`, one point per row, when it is at
/// most 45 degrees off the x axis and runs top to bottom.
pub fn plot_line_high(x0: i32, y0: i32, x1: i32, y1: i32) -> (points: Vec<Point<i32>>)
    requires
        y0 <= y1,
        abs(x1 - x0) <= y1 - y0,
    ensures
        points@ == high_line(x0 as int, y0 as int, x1 as int, y1 as int),
{
    let dy: i64 = y1 as i64 - y0 as i64;
    let mut dx: i64 = x1 as i64 - x0 as i64;
    let mut xi: i64 = 1;
    if dx < 0 {
        xi = -1;
        dx = -dx;
    }
    let mut d: i64 = 2 * dx - dy;
    let mut x: i64 = x0 as i64;
    let mut y: i64 = y0 as i64;
    let mut points: Vec<Point<i32>> = Vec::new();
    let ghost mut k: int = 0;
    proof {
        if dy >= 1 {
            lemma_minor_step_from_bounds(dy as int, dx as int, 0, 0);
        }
        assert(2 * dx * (y - y0 + 1) == 2 * dx) by (nonlinear_arith)
            requires
                y == y0,
        ;
        assert(2 * dy * k == 0) by (nonlinear_arith)
            requires
                k == 0,
        ;
    }
    while y <= y1 as i64
        invariant
            dy == y1 - y0,
            dx == abs(x1 - x0),
            xi == (if x1 < x0 { -1int } else { 1int }),
            0 <= dx <= dy,
            y0 <= y <= y1 + 1,
            dy >= 1 ==> 2 * dy * (k - 1) < 2 * dx * (y - y0) - dy <= 2 * dy * k,
            dy == 0 ==> k == 0,
            0 <= k <= dx + 1,
            y <= y1 ==> k <= dx,
            y <= y1 ==> minor_step(dy as int, dx as int, y - y0) == k,
            x == toward(x0 as int, x1 as int, k),
            d == 2 * dx * (y - y0 + 1) - dy - 2 * dy * k,
            points@.len() == y - y0,
            forall|j: int|
                0 <= j < y - y0 ==> #[trigger] points@[j] == high_line(
                    x0 as int,
                    y0 as int,
                    x1 as int,
                    y1 as int,
                )[j],
        decreases y1 + 1 - y,
    {
        proof {
            if dy >= 1 {
                lemma_minor_step_monotone_to(dy as int, dx as int, y - y0);
            }
        }
        points.push(Point::new(x as i32, y as i32));
        proof {
            assert(2 * dx * (y - y0 + 1) == 2 * dx * (y - y0) + 2 * dx) by (nonlinear_arith);
            assert(2 * dx * (y - y0 + 2) == 2 * dx * (y - y0 + 1) + 2 * dx) by (nonlinear_arith);
            assert(2 * dy * (k + 1) == 2 * dy * k + 2 * dy) by (nonlinear_arith);
            assert(2 * dy * (k - 1) == 2 * dy * k - 2 * dy) by (nonlinear_arith);
        }
        if d > 0 {
            x = x + xi;
            d = d - 2 * dy;
            proof {
                k = k + 1;
            }
        }
        d = d + 2 * dx;
        y = y + 1;
        proof {
            if y <= y1 {
                lemma_minor_step_from_bounds(dy as int, dx as int, y - y0, k);
                lemma_minor_step_monotone_to(dy as int, dx as int, y - y0);
            }
        }
    }
    proof {
        assert(points@ =~= high_line(x0 as int, y0 as int, x1 as int, y1 as int));
    }
    points
}

/// The two endpoints give the same line in either order.
pub proof fn lemma_line_points_symmetric(x0: int, y0: int, x1: int, y1: int)
    ensures
        line_points(x0, y0, x1, y1) == line_points(x1, y1, x0, y0),
{
    if abs(y1 - y0) >= abs(x1 - x0) && y0 == y1 {
        assert(x0 == x1);
    }
}

/// The 8-connected integer path between `(x0, y0)` and `(x1, y1)`, both
/// included, by Bresenham's algorithm.
pub fn plot_line(x0: i32, y0: i32, x1: i32, y1: i32) -> (points: Vec<Point<i32>>)
    ensures
        points@ == line_points(x0 as int, y0 as int, x1 as int, y1 as int),
{
    let dx: i64 = x1 as i64 - x0 as i64;
    let dy: i64 = y1 as i64 - y0 as i64;
    let adx: i64 = if dx < 0 {
        -dx
    } else {
        dx
    };
    let ady: i64 = if dy < 0 {
        -dy
    } else {
        dy
    };
    if ady < adx {
        if x0 > x1 {
            plot_line_low(x1, y1, x0, y0)
        } else {
            plot_line_low(x0, y0, x1, y1)
        }
    } else {
        if y0 > y1 {
            plot_line_high(x1, y1, x0, y0)
        } else {
            plot_line_high(x0, y0, x1, y1)
        }
    }
}

/// The points of a drag from `begin` to `end`, in plane coordinates, at which
/// the brush is stamped: the line between them with no gaps.
pub fn interpolate_points(begin: Point<i32>, end: Point<i32>) -> (points: Vec<Point<i32>>)
    ensures
        points@ == line_points(begin.x as int, begin.y as int, end.x as int, end.y as int),
{
    let (first, last) = if begin.x < end.x {
        (begin, end)
    } else {
        (end, begin)
    };
    proof {
        lemma_line_points_symmetric(begin.x as int, begin.y as int, end.x as int, end.y as int);
    }
    plot_line(first.x, first.y, last.x, last.y)
}

} // verus!
