//! The histogram panel's picture: one bar chart per colour plane, drawn into
//! the red, green and blue bytes of an RGBA image.
use vstd::prelude::*;
use vstd::arithmetic::div_mod::{lemma_fundamental_div_mod, lemma_fundamental_div_mod_converse};
use crate::image_buffer::{ChannelKind, ImageBuffer};

verus! {

/// How many bytes of `s` equal `v`.
pub open spec fn count_in(s: Seq<u8>, v: int) -> nat
    decreases s.len(),
{
    if s.len() == 0 {
        0
    } else {
        count_in(s.drop_last(), v) + if s.last() == v {
            1nat
        } else {
            0nat
        }
    }
}

/// The largest of the counts of the byte values below `n`.
pub open spec fn max_count(s: Seq<u8>, n: int) -> nat
    decreases n,
{
    if n <= 0 {
        0
    } else if count_in(s, n - 1) > max_count(s, n - 1) {
        count_in(s, n - 1)
    } else {
        max_count(s, n - 1)
    }
}

/// Height of the bar of value `v`, out of 256, relative to the tallest bar,
/// kept to its low eight bits.
pub open spec fn level(s: Seq<u8>, v: int) -> u8 {
    ((count_in(s, v) * 256 / max_count(s, 256)) % 256) as u8
}

/// Byte drawn in row `y` of a bar of height `level`: dark above the bar, bright
/// in it.
pub open spec fn bar_byte(level: u8, y: int) -> u8 {
    if (255 - level) / 2 > y % 256 {
        0
    } else {
        255
    }
}

/// Byte `j` of the picture of the red, green and blue planes, `width` pixels wide.
pub open spec fn picture_byte(r: Seq<u8>, g: Seq<u8>, b: Seq<u8>, width: int, j: int) -> u8 {
    let p = j / 4;
    let x = p % width;
    let y = p / width;
    if j % 4 == 0 {
        bar_byte(level(r, x), y)
    } else if j % 4 == 1 {
        bar_byte(level(g, x), y)
    } else if j % 4 == 2 {
        bar_byte(level(b, x), y)
    } else {
        255
    }
}

proof fn lemma_count_bounded(s: Seq<u8>, v: int)
    ensures
        count_in(s, v) <= s.len(),
    decreases s.len(),
{
    if s.len() > 0 {
        lemma_count_bounded(s.drop_last(), v);
    }
}

proof fn lemma_count_positive(s: Seq<u8>, i: int)
    requires
        0 <= i < s.len(),
    ensures
        count_in(s, s[i] as int) >= 1,
    decreases s.len(),
{
    if i < s.len() - 1 {
        lemma_count_positive(s.drop_last(), i);
    }
}

proof fn lemma_max_at_least(s: Seq<u8>, n: int, v: int)
    requires
        0 <= v < n,
    ensures
        max_count(s, n) >= count_in(s, v),
    decreases n,
{
    if v < n - 1 {
        lemma_max_at_least(s, n - 1, v);
    }
}

/// The count of every byte value of `plane`.
fn counts(plane: &[u8]) -> (c: Vec<u64>)
    ensures
        c@.len() == 256,
        forall|v: int| 0 <= v < 256 ==> #[trigger] c@[v] == count_in(plane@, v),
{
    let mut c: Vec<u64> = vec![0u64; 256];
    let n = plane.len();
    let mut i: usize = 0;
    while i < n
        invariant
            n == plane@.len(),
            i <= n,
            c@.len() == 256,
            forall|v: int| 0 <= v < 256 ==> #[trigger] c@[v] == count_in(plane@.take(i as int), v),
        decreases n - i,
    {
        let b = plane[i] as usize;
        proof {
            assert(plane@.take(i + 1).drop_last() =~= plane@.take(i as int));
            lemma_count_bounded(plane@.take(i as int), b as int);
        }
        c.set(b, c[b] + 1);
        i = i + 1;
    }
    proof {
        assert(plane@.take(n as int) =~= plane@);
    }
    c
}

/// The largest of the 256 counts.
fn largest(c: &Vec<u64>, plane: Ghost<Seq<u8>>) -> (m: u64)
    requires
        c@.len() == 256,
        forall|v: int| 0 <= v < 256 ==> #[trigger] c@[v] == count_in(plane@, v),
    ensures
        m == max_count(plane@, 256),
{
    let mut m: u64 = 0;
    let mut v: usize = 0;
    while v < 256
        invariant
            c@.len() == 256,
            forall|u: int| 0 <= u < 256 ==> #[trigger] c@[u] == count_in(plane@, u),
            v <= 256,
            m == max_count(plane@, v as int),
        decreases 256 - v,
    {
        if c[v] > m {
            m = c[v];
        }
        v = v + 1;
    }
    m
}

/// The panel's picture of the three colour planes of an image.
pub struct Histogram {}

impl Histogram {
    /// A `width` by `height` RGBA picture with, in column `x` of each of the red,
    /// green and blue bytes, a bar for byte value `x` of that plane: the number
    /// of its pixels, scaled so that the most frequent value reaches 256.
    pub fn image_data(&self, image: &ImageBuffer, width: usize, height: usize) -> (r: Vec<u8>)
        requires
            image.wf(),
            image.area() >= 1,
            width <= 256,
            4 * (width * height) <= usize::MAX,
        ensures
            r@.len() == 4 * (width * height),
            forall|j: int|
                0 <= j < r@.len() ==> #[trigger] r@[j] == picture_byte(
                    image.plane(ChannelKind::Red),
                    image.plane(ChannelKind::Green),
                    image.plane(ChannelKind::Blue),
                    width as int,
                    j,
                ),
    {
        let red = image.channel(ChannelKind::Red);
        let green = image.channel(ChannelKind::Green);
        let blue = image.channel(ChannelKind::Blue);
        let rs = red.as_slice().unwrap();
        let gs = green.as_slice().unwrap();
        let bs = blue.as_slice().unwrap();
        let ghost rp = rs@;
        let ghost gp = gs@;
        let ghost bp = bs@;
        let rc = counts(rs);
        let gc = counts(gs);
        let bc = counts(bs);
        proof {
            assert(rp.len() == image.area());
            assert(gp.len() == image.area());
            assert(bp.len() == image.area());
            lemma_count_positive(rp, 0);
            lemma_max_at_least(rp, 256, rp[0] as int);
            lemma_count_positive(gp, 0);
            lemma_max_at_least(gp, 256, gp[0] as int);
            lemma_count_positive(bp, 0);
            lemma_max_at_least(bp, 256, bp[0] as int);
        }
        let rm = largest(&rc, Ghost(rp));
        let gm = largest(&gc, Ghost(gp));
        let bm = largest(&bc, Ghost(bp));
        let rl = levels(&rc, rm, Ghost(rp));
        let gl = levels(&gc, gm, Ghost(gp));
        let bl = levels(&bc, bm, Ghost(bp));
        let mut out: Vec<u8> = Vec::new();
        let mut y: usize = 0;
        while y < height
            invariant
                width <= 256,
                4 * (width * height) <= usize::MAX,
                rl@.len() == 256 && gl@.len() == 256 && bl@.len() == 256,
                forall|v: int| 0 <= v < 256 ==> #[trigger] rl@[v] == level(rp, v),
                forall|v: int| 0 <= v < 256 ==> #[trigger] gl@[v] == level(gp, v),
                forall|v: int| 0 <= v < 256 ==> #[trigger] bl@[v] == level(bp, v),
                rp == image.plane(ChannelKind::Red),
                gp == image.plane(ChannelKind::Green),
                bp == image.plane(ChannelKind::Blue),
                y <= height,
                out@.len() == 4 * (y * width),
                forall|j: int| 0 <= j < out@.len() ==> #[trigger] out@[j] == picture_byte(rp, gp, bp, width as int, j),
            decreases height - y,
        {
            let mut x: usize = 0;
            proof {
                assert(y * width + width <= width * height) by (nonlinear_arith)
                    requires
                        y < height,
                ;
            }
            while x < width
                invariant
                    width <= 256,
                    4 * (width * height) <= usize::MAX,
                    y * width + width <= width * height,
                    rl@.len() == 256 && gl@.len() == 256 && bl@.len() == 256,
                    forall|v: int| 0 <= v < 256 ==> #[trigger] rl@[v] == level(rp, v),
                    forall|v: int| 0 <= v < 256 ==> #[trigger] gl@[v] == level(gp, v),
                    forall|v: int| 0 <= v < 256 ==> #[trigger] bl@[v] == level(bp, v),
                    y < height,
                    x <= width,
                    out@.len() == 4 * (y * width + x),
                    forall|j: int| 0 <= j < out@.len() ==> #[trigger] out@[j] == picture_byte(rp, gp, bp, width as int, j),
                decreases width - x,
            {
                let row = (y % 256) as u8;
                let r = if (255 - rl[x]) / 2 > row { 0 } else { 255 };
                let g = if (255 - gl[x]) / 2 > row { 0 } else { 255 };
                let b = if (255 - bl[x]) / 2 > row { 0 } else { 255 };
                let ghost base = 4 * (y * width + x);
                proof {
                    lemma_fundamental_div_mod_converse((y * width + x) as int, width as int, y as int, x as int);
                    assert forall|c: int| 0 <= c < 4 implies (#[trigger] ((base + c) / 4)) == y * width + x
                        && (base + c) % 4 == c by {
                        lemma_fundamental_div_mod_converse(base + c, 4, (y * width + x) as int, c);
                    }
                }
                out.push(r);
                out.push(g);
                out.push(b);
                out.push(255);
                proof {
                    assert(4 * (y * width + x + 1) == base + 4);
                    assert forall|j: int| 0 <= j < out@.len() implies #[trigger] out@[j] == picture_byte(rp, gp, bp, width as int, j) by {
                        if j >= base {
                            let c = j - base;
                            assert((base + c) / 4 == y * width + x);
                        }
                    }
                }
                x = x + 1;
            }
            proof {
                assert(4 * (y * width + width) == 4 * ((y + 1) * width)) by (nonlinear_arith);
            }
            y = y + 1;
        }
        proof {
            assert(y * width == width * height) by (nonlinear_arith)
                requires
                    y == height,
            ;
        }
        out
    }
}

/// The bar height of each byte value.
fn levels(c: &Vec<u64>, m: u64, plane: Ghost<Seq<u8>>) -> (l: Vec<u8>)
    requires
        c@.len() == 256,
        forall|v: int| 0 <= v < 256 ==> #[trigger] c@[v] == count_in(plane@, v),
        m == max_count(plane@, 256),
        m >= 1,
    ensures
        l@.len() == 256,
        forall|v: int| 0 <= v < 256 ==> #[trigger] l@[v] == level(plane@, v),
{
    let mut l: Vec<u8> = Vec::new();
    let mut v: usize = 0;
    while v < 256
        invariant
            c@.len() == 256,
            forall|u: int| 0 <= u < 256 ==> #[trigger] c@[u] == count_in(plane@, u),
            m == max_count(plane@, 256),
            m >= 1,
            v <= 256,
            l@.len() == v,
            forall|u: int| 0 <= u < v ==> #[trigger] l@[u] == level(plane@, u),
        decreases 256 - v,
    {
        let scaled: u128 = c[v] as u128 * 256 / m as u128;
        l.push((scaled % 256) as u8);
        v = v + 1;
    }
    l
}

} // verus!
