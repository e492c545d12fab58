//! What the editing tools do to the session, in plane coordinates: stamping a
//! brush at a point or along a drag, committing a selection stroke, and
//! selecting a rectangle.
use vstd::prelude::*;
use crate::brushes::{covers, stamp_plane, BasicBrush};
use crate::contours::Point;
use crate::image_buffer::{ChannelKind, ImageBuffer};
use crate::state::AppData;
use crate::utils::{interpolate_points, line_points};

verus! {

/// A stamp at one of `pts` covers pixel index `i` of a `w` by `h` plane.
pub open spec fn stroke_covers(w: int, h: int, pts: Seq<Point<i32>>, d: int, i: int) -> bool {
    exists|j: int|
        0 <= j < pts.len() && #[trigger] covers(
            w,
            0,
            0,
            w,
            h,
            pts[j].x as int,
            pts[j].y as int,
            d,
            i,
        )
}

/// A `w` by `h` plane after a brush of diameter `d` and value `v` is stamped
/// at each of `pts`.
pub open spec fn stroked(plane: Seq<u8>, w: int, h: int, pts: Seq<Point<i32>>, d: int, v: u8) -> Seq<
    u8,
> {
    Seq::new(
        plane.len(),
        |i: int|
            if stroke_covers(w, h, pts, d, i) {
                v
            } else {
                plane[i]
            },
    )
}

/// The selection with the stroke in progress added to it, saturating at 255.
pub open spec fn committed(selection: Seq<u8>, hot_selection: Seq<u8>) -> Seq<u8> {
    Seq::new(selection.len(), |i: int| selection[i].saturating_add(hot_selection[i]))
}

/// Pixel index `i` of a plane `w` wide lies in the rectangle with corners
/// `(x1, y1)` and `(x2, y2)`, both included.
pub open spec fn in_rect(w: int, x1: int, y1: int, x2: int, y2: int, i: int) -> bool {
    &&& w > 0
    &&& x1 <= i % w <= x2
    &&& y1 <= i / w <= y2
}

/// `after` is `before` with only plane `kind` of its first layer changed, to
/// `plane`, and the rendering marked out of date.
pub open spec fn only_plane_changed(
    before: AppData,
    after: AppData,
    kind: ChannelKind,
    plane: Seq<u8>,
) -> bool {
    &&& after.wf()
    &&& !after.is_fresh()
    &&& after.channel_list() == before.channel_list()
    &&& after.layer_list().len() == before.layer_list().len()
    &&& forall|i: int|
        0 < i < after.layer_list().len() ==> #[trigger] after.layer_list()[i]
            == before.layer_list()[i]
    &&& after.layer_list()[0].w() == before.layer_list()[0].w()
    &&& after.layer_list()[0].h() == before.layer_list()[0].h()
    &&& after.layer_list()[0].plane(kind) == plane
    &&& forall|k: ChannelKind|
        k != kind ==> #[trigger] after.layer_list()[0].plane(k) == before.layer_list()[0].plane(k)
}

/// Replacing one plane of a well-formed buffer by one of the same length keeps
/// it well formed.
proof fn lemma_plane_replaced(before: ImageBuffer, after: ImageBuffer, kind: ChannelKind)
    requires
        before.wf(),
        after.dims_agree(),
        after.w() == before.w(),
        after.h() == before.h(),
        after.rendered() == before.rendered(),
        after.plane(kind).len() == before.plane(kind).len(),
        forall|k: ChannelKind| k != kind ==> #[trigger] after.plane(k) == before.plane(k),
    ensures
        after.wf(),
{
    assert forall|k: ChannelKind| #[trigger] after.plane(k).len() == after.area() by {
        if k != kind {
            assert(after.plane(k) == before.plane(k));
        }
        assert(before.plane(k).len() == before.area());
    }
}

/// Stamps a brush of diameter `diameter` and value `value` into plane `kind` of
/// the first layer, centred on `at`; the part of the disc outside the plane is
/// skipped.
pub fn paint_at(data: &mut AppData, kind: ChannelKind, at: Point<i32>, diameter: u32, value: u8)
    requires
        old(data).wf(),
    ensures
        only_plane_changed(
            *old(data),
            *final(data),
            kind,
            stamp_plane(
                old(data).layer_list()[0].plane(kind),
                old(data).layer_list()[0].w() as int,
                old(data).layer_list()[0].h() as int,
                at.x as int,
                at.y as int,
                diameter as int,
                value,
            ),
        ),
{
    let ghost before = *data;
    proof {
        assert(before.layer_list()[0].wf());
    }
    let x = at.x;
    let y = at.y;
    let image = data.layer_mut(0);
    let ghost image_before = *image;
    let view = image.channel_mut(kind);
    BasicBrush::new(diameter, value).apply(view, x, y);
    proof {
        assert(image.plane(kind) =~= stamp_plane(
            image_before.plane(kind),
            image_before.w() as int,
            image_before.h() as int,
            x as int,
            y as int,
            diameter as int,
            value,
        ));
        lemma_plane_replaced(image_before, *image, kind);
        assert forall|i: int| 0 <= i < data.layer_list().len() implies #[trigger] data.layer_list()[i].wf() by {
            if i != 0 {
                assert(data.layer_list()[i] == before.layer_list()[i]);
            }
        }
    }
}

/// Stamps a brush of diameter `diameter` and value `value` into plane `kind` of
/// the first layer at every point of the line from `begin` to `end`, so that a
/// fast drag leaves no gaps.
pub fn paint_drag(
    data: &mut AppData,
    kind: ChannelKind,
    begin: Point<i32>,
    end: Point<i32>,
    diameter: u32,
    value: u8,
)
    requires
        old(data).wf(),
    ensures
        only_plane_changed(
            *old(data),
            *final(data),
            kind,
            stroked(
                old(data).layer_list()[0].plane(kind),
                old(data).layer_list()[0].w() as int,
                old(data).layer_list()[0].h() as int,
                line_points(begin.x as int, begin.y as int, end.x as int, end.y as int),
                diameter as int,
                value,
            ),
        ),
{
    let ghost start = *data;
    let ghost w = start.layer_list()[0].w() as int;
    let ghost h = start.layer_list()[0].h() as int;
    let ghost plane0 = start.layer_list()[0].plane(kind);
    let points = interpolate_points(begin, end);
    let ghost pts = points@;
    // a line always has at least one point
    proof {
        crate::utils::lemma_line_continuity(begin.x, begin.y, end.x, end.y);
    }
    let n = points.len();
    let mut i: usize = 0;
    while i < n
        invariant
            n == pts.len(),
            pts == points@,
            pts == line_points(begin.x as int, begin.y as int, end.x as int, end.y as int),
            n >= 1,
            w == start.layer_list()[0].w(),
            h == start.layer_list()[0].h(),
            plane0 == start.layer_list()[0].plane(kind),
            i <= n,
            i == 0 ==> *data == start,
            start.wf(),
            data.wf(),
            i > 0 ==> only_plane_changed(
                start,
                *data,
                kind,
                stroked(plane0, w, h, pts.take(i as int), diameter as int, value),
            ),
        decreases n - i,
    {
        let ghost mid = *data;
        paint_at(data, kind, points[i], diameter, value);
        proof {
            let done = pts.take(i as int);
            let next = pts.take(i + 1);
            let p = pts[i as int];
            let prev_plane = if i == 0 {
                plane0
            } else {
                stroked(plane0, w, h, done, diameter as int, value)
            };
            assert(mid.layer_list()[0].plane(kind) == prev_plane);
            assert(mid.layer_list()[0].w() == w);
            assert(mid.layer_list()[0].h() == h);
            let new_plane = stamp_plane(
                prev_plane,
                w,
                h,
                p.x as int,
                p.y as int,
                diameter as int,
                value,
            );
            assert(prev_plane.len() == plane0.len());
            assert forall|q: int| 0 <= q < plane0.len() implies #[trigger] new_plane[q] == stroked(
                plane0,
                w,
                h,
                next,
                diameter as int,
                value,
            )[q] by {
                if covers(w, 0, 0, w, h, p.x as int, p.y as int, diameter as int, q) {
                    assert(next[i as int] == p);
                    assert(stroke_covers(w, h, next, diameter as int, q));
                } else if stroke_covers(w, h, done, diameter as int, q) {
                    let j = choose|j: int|
                        0 <= j < done.len() && #[trigger] covers(
                            w,
                            0,
                            0,
                            w,
                            h,
                            done[j].x as int,
                            done[j].y as int,
                            diameter as int,
                            q,
                        );
                    assert(next[j] == done[j]);
                    assert(stroke_covers(w, h, next, diameter as int, q));
                } else {
                    if stroke_covers(w, h, next, diameter as int, q) {
                        let j = choose|j: int|
                            0 <= j < next.len() && #[trigger] covers(
                                w,
                                0,
                                0,
                                w,
                                h,
                                next[j].x as int,
                                next[j].y as int,
                                diameter as int,
                                q,
                            );
                        if j < i {
                            assert(done[j] == next[j]);
                        }
                        assert(false);
                    }
                    if i > 0 {
                    } else {
                        assert(!stroke_covers(w, h, next, diameter as int, q));
                    }
                }
            }
            assert(new_plane =~= stroked(plane0, w, h, next, diameter as int, value));
        }
        i = i + 1;
    }
    proof {
        assert(pts.take(n as int) =~= pts);
    }
}

/// Adds the selection stroke in progress to the selection, saturating at 255,
/// and clears the stroke.
pub fn commit_hot_selection(data: &mut AppData)
    requires
        old(data).wf(),
    ensures
        final(data).wf(),
        !final(data).is_fresh(),
        final(data).channel_list() == old(data).channel_list(),
        final(data).layer_list().len() == old(data).layer_list().len(),
        forall|i: int|
            0 < i < final(data).layer_list().len() ==> #[trigger] final(data).layer_list()[i]
                == old(data).layer_list()[i],
        final(data).layer_list()[0].w() == old(data).layer_list()[0].w(),
        final(data).layer_list()[0].h() == old(data).layer_list()[0].h(),
        final(data).layer_list()[0].plane(ChannelKind::Selection) == committed(
            old(data).layer_list()[0].plane(ChannelKind::Selection),
            old(data).layer_list()[0].plane(ChannelKind::HotSelection),
        ),
        forall|i: int|
            0 <= i < final(data).layer_list()[0].area() ==> #[trigger] final(data).layer_list()[0].plane(ChannelKind::HotSelection)[i] == 0,
        forall|k: ChannelKind|
            k != ChannelKind::Selection && k != ChannelKind::HotSelection ==> #[trigger] final(data).layer_list()[0].plane(k) == old(data).layer_list()[0].plane(k),
{
    let ghost before = *data;
    proof {
        assert(before.layer_list()[0].wf());
    }
    let image = data.layer_mut(0);
    let ghost image_before = *image;
    proof {
        assert(image_before.plane(ChannelKind::Selection).len() == image_before.area());
        assert(image_before.plane(ChannelKind::HotSelection).len() == image_before.area());
    }
    let (mut sel, mut hot) = image.selection_mut();
    let ghost sel0 = sel;
    let ghost hot0 = hot;
    let width = sel.width();
    let height = sel.height();
    let ghost n = image_before.area() as int;
    let mut y: u32 = 0;
    while y < height
        invariant
            sel.wf(),
            hot.wf(),
            sel.same_window(&sel0),
            hot.same_window(&hot0),
            final(sel.buffer)@ == final(sel0.buffer)@,
            final(hot.buffer)@ == final(hot0.buffer)@,
            sel0.x == 0 && sel0.y == 0 && sel0.stride == width && sel0.width == width,
            hot0.x == 0 && hot0.y == 0 && hot0.stride == width && hot0.width == width,
            sel0.height == height && hot0.height == height,
            sel0.cells().len() == n && hot0.cells().len() == n,
            n == height * width,
            sel.cells().len() == n && hot.cells().len() == n,
            y <= height,
            forall|i: int|
                0 <= i < n ==> #[trigger] sel.cells()[i] == (if i < y * width {
                    committed(sel0.cells(), hot0.cells())[i]
                } else {
                    sel0.cells()[i]
                }),
            forall|i: int|
                0 <= i < n ==> #[trigger] hot.cells()[i] == (if i < y * width {
                    0
                } else {
                    hot0.cells()[i]
                }),
        decreases height - y,
    {
        let mut x: u32 = 0;
        while x < width
            invariant
                sel.wf(),
                hot.wf(),
                sel.same_window(&sel0),
                hot.same_window(&hot0),
                final(sel.buffer)@ == final(sel0.buffer)@,
                final(hot.buffer)@ == final(hot0.buffer)@,
                sel0.x == 0 && sel0.y == 0 && sel0.stride == width && sel0.width == width,
                hot0.x == 0 && hot0.y == 0 && hot0.stride == width && hot0.width == width,
                sel0.height == height && hot0.height == height,
                sel0.cells().len() == n && hot0.cells().len() == n,
                n == height * width,
                sel.cells().len() == n && hot.cells().len() == n,
                y < height,
                x <= width,
                forall|i: int|
                    0 <= i < n ==> #[trigger] sel.cells()[i] == (if i < y * width + x {
                        committed(sel0.cells(), hot0.cells())[i]
                    } else {
                        sel0.cells()[i]
                    }),
                forall|i: int|
                    0 <= i < n ==> #[trigger] hot.cells()[i] == (if i < y * width + x {
                        0
                    } else {
                        hot0.cells()[i]
                    }),
            decreases width - x,
        {
            proof {
                crate::channels::lemma_window_index(
                    n as nat,
                    width as nat,
                    0,
                    0,
                    width as nat,
                    height as nat,
                    x as nat,
                    y as nat,
                );
            }
            let s = sel.get(x, y);
            let h = hot.get(x, y);
            sel.set(x, y, s.saturating_add(h));
            hot.set(x, y, 0);
            x = x + 1;
        }
        proof {
            assert((y + 1) * width == y * width + width) by (nonlinear_arith);
        }
        y = y + 1;
    }
    proof {
        assert(y * width == n) by (nonlinear_arith)
            requires
                y == height,
                n == height * width,
        ;
        assert(sel.cells() =~= committed(sel0.cells(), hot0.cells()));
        lemma_commit_keeps_wf(image_before, *image);
        assert forall|i: int| 0 <= i < data.layer_list().len() implies #[trigger] data.layer_list()[i].wf() by {
            if i != 0 {
                assert(data.layer_list()[i] == before.layer_list()[i]);
            }
        }
    }
}

proof fn lemma_commit_keeps_wf(before: ImageBuffer, after: ImageBuffer)
    requires
        before.wf(),
        after.dims_agree(),
        after.w() == before.w(),
        after.h() == before.h(),
        after.rendered() == before.rendered(),
        after.plane(ChannelKind::Selection).len() == before.plane(ChannelKind::Selection).len(),
        after.plane(ChannelKind::HotSelection).len() == before.plane(
            ChannelKind::HotSelection,
        ).len(),
        forall|k: ChannelKind|
            k != ChannelKind::Selection && k != ChannelKind::HotSelection ==> #[trigger] after.plane(k)
                == before.plane(k),
    ensures
        after.wf(),
{
    assert forall|k: ChannelKind| #[trigger] after.plane(k).len() == after.area() by {
        if k != ChannelKind::Selection && k != ChannelKind::HotSelection {
            assert(after.plane(k) == before.plane(k));
        }
        assert(before.plane(k).len() == before.area());
    }
}

/// Sets the selection to 255 over the rectangle with corners `corner1` and
/// `corner2`, both included; both must lie inside the image.
pub fn fill_selection_rect(data: &mut AppData, corner1: Point<u32>, corner2: Point<u32>)
    requires
        old(data).wf(),
        corner1.x < old(data).layer_list()[0].w(),
        corner1.y < old(data).layer_list()[0].h(),
        corner2.x < old(data).layer_list()[0].w(),
        corner2.y < old(data).layer_list()[0].h(),
    ensures
        only_plane_changed(
            *old(data),
            *final(data),
            ChannelKind::Selection,
            Seq::new(
                old(data).layer_list()[0].area(),
                |i: int|
                    if in_rect(
                        old(data).layer_list()[0].w() as int,
                        if corner1.x <= corner2.x { corner1.x as int } else { corner2.x as int },
                        if corner1.y <= corner2.y { corner1.y as int } else { corner2.y as int },
                        if corner1.x <= corner2.x { corner2.x as int } else { corner1.x as int },
                        if corner1.y <= corner2.y { corner2.y as int } else { corner1.y as int },
                        i,
                    ) {
                        255u8
                    } else {
                        old(data).layer_list()[0].plane(ChannelKind::Selection)[i]
                    },
            ),
        ),
{
    let ghost before = *data;
    proof {
        assert(before.layer_list()[0].wf());
    }
    let x1 = if corner1.x <= corner2.x { corner1.x } else { corner2.x };
    let x2 = if corner1.x <= corner2.x { corner2.x } else { corner1.x };
    let y1 = if corner1.y <= corner2.y { corner1.y } else { corner2.y };
    let y2 = if corner1.y <= corner2.y { corner2.y } else { corner1.y };
    let image = data.layer_mut(0);
    let ghost image_before = *image;
    proof {
        assert(image_before.plane(ChannelKind::Selection).len() == image_before.area());
    }
    let mut v = image.channel_mut(ChannelKind::Selection);
    let ghost v0 = v;
    let ghost width = v0.width as int;
    let ghost n = image_before.area() as int;
    let ghost target = Seq::new(
        n as nat,
        |i: int|
            if in_rect(width, x1 as int, y1 as int, x2 as int, y2 as int, i) {
                255u8
            } else {
                v0.cells()[i]
            },
    );
    let mut y: u32 = y1;
    while y <= y2
        invariant
            v.wf(),
            v.same_window(&v0),
            final(v.buffer)@ == final(v0.buffer)@,
            v0.x == 0 && v0.y == 0 && v0.stride == width && v0.width == width,
            width == image_before.w(),
            v0.height == image_before.h(),
            v0.cells().len() == n,
            n == v0.height * width,
            v.cells().len() == n,
            x1 <= x2 < width,
            y1 <= y2 < v0.height,
            y1 <= y <= y2 + 1,
            forall|i: int|
                0 <= i < n ==> #[trigger] v.cells()[i] == (if in_rect(
                    width,
                    x1 as int,
                    y1 as int,
                    x2 as int,
                    y2 as int,
                    i,
                ) && i / width < y {
                    255u8
                } else {
                    v0.cells()[i]
                }),
        decreases y2 + 1 - y,
    {
        let mut x: u32 = x1;
        while x <= x2
            invariant
                v.wf(),
                v.same_window(&v0),
                final(v.buffer)@ == final(v0.buffer)@,
                v0.x == 0 && v0.y == 0 && v0.stride == width && v0.width == width,
                v0.height == image_before.h(),
                v0.cells().len() == n,
                n == v0.height * width,
                v.cells().len() == n,
                x1 <= x2 < width,
                y1 <= y <= y2,
                y2 < v0.height,
                x1 <= x <= x2 + 1,
                forall|i: int|
                    0 <= i < n ==> #[trigger] v.cells()[i] == (if in_rect(
                        width,
                        x1 as int,
                        y1 as int,
                        x2 as int,
                        y2 as int,
                        i,
                    ) && (i / width < y || (i / width == y && i % width < x)) {
                        255u8
                    } else {
                        v0.cells()[i]
                    }),
            decreases x2 + 1 - x,
        {
            let ghost prev = v.cells();
            let ghost k = v.index_of(x as int, y as int);
            proof {
                crate::channels::lemma_window_index(
                    n as nat,
                    width as nat,
                    0,
                    0,
                    width as nat,
                    v0.height as nat,
                    x as nat,
                    y as nat,
                );
                lemma_div_mod_of_cell(width, x as int, y as int);
            }
            v.set(x, y, 255);
            proof {
                assert forall|i: int| 0 <= i < n implies #[trigger] v.cells()[i] == (if in_rect(
                    width,
                    x1 as int,
                    y1 as int,
                    x2 as int,
                    y2 as int,
                    i,
                ) && (i / width < y || (i / width == y && i % width < x + 1)) {
                    255u8
                } else {
                    v0.cells()[i]
                }) by {
                    if i != k && i / width == y && i % width == x {
                        lemma_cell_from_div_mod(width, i);
                    }
                }
            }
            x = x + 1;
        }
        y = y + 1;
    }
    proof {
        assert(v.cells() =~= target);
        lemma_plane_replaced(image_before, *image, ChannelKind::Selection);
        assert forall|i: int| 0 <= i < data.layer_list().len() implies #[trigger] data.layer_list()[i].wf() by {
            if i != 0 {
                assert(data.layer_list()[i] == before.layer_list()[i]);
            }
        }
    }
}

proof fn lemma_div_mod_of_cell(width: int, x: int, y: int)
    requires
        width > 0,
        0 <= x < width,
        y >= 0,
    ensures
        (y * width + x) / width == y,
        (y * width + x) % width == x,
{
    vstd::arithmetic::div_mod::lemma_fundamental_div_mod_converse(y * width + x, width, y, x);
}

proof fn lemma_cell_from_div_mod(width: int, i: int)
    requires
        width > 0,
    ensures
        i == (i / width) * width + i % width,
{
    vstd::arithmetic::div_mod::lemma_fundamental_div_mod(i, width);
    assert(i == (i / width) * width + i % width) by (nonlinear_arith)
        requires
            i == width * (i / width) + i % width,
    ;
}

/// Committing a selection stroke that was painted into a cleared stroke plane
/// selects every pixel the stroke touched and leaves every other pixel of the
/// selection as it was (the commit also clears the stroke plane).
pub proof fn lemma_stroke_then_commit(
    selection: Seq<u8>,
    hot_selection: Seq<u8>,
    w: int,
    h: int,
    pts: Seq<Point<i32>>,
    d: int,
    i: int,
)
    requires
        selection.len() == hot_selection.len(),
        forall|j: int| 0 <= j < hot_selection.len() ==> #[trigger] hot_selection[j] == 0,
        0 <= i < selection.len(),
    ensures
        stroke_covers(w, h, pts, d, i) ==> committed(
            selection,
            stroked(hot_selection, w, h, pts, d, 255),
        )[i] == 255,
        !stroke_covers(w, h, pts, d, i) ==> committed(
            selection,
            stroked(hot_selection, w, h, pts, d, 255),
        )[i] == selection[i],
{
    assert(hot_selection[i] == 0);
}

/// Stamping into one plane and then into another gives each plane its own
/// stamp.
proof fn lemma_two_planes(
    a: AppData,
    b: AppData,
    c: AppData,
    k1: ChannelKind,
    first: Seq<u8>,
    k2: ChannelKind,
    second: Seq<u8>,
)
    requires
        k1 != k2,
        only_plane_changed(a, b, k1, first),
        only_plane_changed(b, c, k2, second),
    ensures
        c.wf(),
        !c.is_fresh(),
        c.channel_list() == a.channel_list(),
        c.layer_list().len() == a.layer_list().len(),
        forall|i: int| 0 < i < c.layer_list().len() ==> #[trigger] c.layer_list()[i] == a.layer_list()[i],
        c.layer_list()[0].w() == a.layer_list()[0].w(),
        c.layer_list()[0].h() == a.layer_list()[0].h(),
        c.layer_list()[0].plane(k1) == first,
        c.layer_list()[0].plane(k2) == second,
        forall|k: ChannelKind|
            k != k1 && k != k2 ==> #[trigger] c.layer_list()[0].plane(k) == a.layer_list()[0].plane(k),
{
    assert forall|i: int| 0 < i < c.layer_list().len() implies #[trigger] c.layer_list()[i] == a.layer_list()[i] by {
        assert(b.layer_list()[i] == a.layer_list()[i]);
    }
    assert forall|k: ChannelKind| k != k1 && k != k2 implies #[trigger] c.layer_list()[0].plane(k)
        == a.layer_list()[0].plane(k) by {
        assert(b.layer_list()[0].plane(k) == a.layer_list()[0].plane(k));
    }
    assert(c.layer_list()[0].plane(k1) == b.layer_list()[0].plane(k1));
}

/// The tool that paints all four colour planes with one colour.
pub struct DrawTool {
    brush_size: u32,
    color: [u8; 4],
}

impl DrawTool {
    pub closed spec fn diameter(&self) -> nat {
        self.brush_size as nat
    }

    /// The red, green, blue and alpha values painted.
    pub closed spec fn rgba(&self) -> Seq<u8> {
        self.color@
    }

    pub fn new(brush_size: u32, color: [u8; 4]) -> (t: Self)
        ensures
            t.diameter() == brush_size,
            t.rgba() == color@,
    {
        DrawTool { brush_size, color }
    }

    /// Stamps the brush at `at` into the red, green, blue and alpha planes, each
    /// with its own component of the colour.
    pub fn mouse_down(&self, data: &mut AppData, at: Point<i32>)
        requires
            old(data).wf(),
        ensures
            final(data).wf(),
            !final(data).is_fresh(),
            final(data).channel_list() == old(data).channel_list(),
            final(data).layer_list().len() == old(data).layer_list().len(),
            forall|i: int|
                0 < i < final(data).layer_list().len() ==> #[trigger] final(data).layer_list()[i]
                    == old(data).layer_list()[i],
            final(data).layer_list()[0].w() == old(data).layer_list()[0].w(),
            final(data).layer_list()[0].h() == old(data).layer_list()[0].h(),
            forall|c: int|
                0 <= c < 4 ==> #[trigger] final(data).layer_list()[0].plane(colour_plane(c))
                    == stamp_plane(
                    old(data).layer_list()[0].plane(colour_plane(c)),
                    old(data).layer_list()[0].w() as int,
                    old(data).layer_list()[0].h() as int,
                    at.x as int,
                    at.y as int,
                    self.diameter() as int,
                    self.rgba()[c],
                ),
            final(data).layer_list()[0].plane(ChannelKind::Selection) == old(data).layer_list()[0].plane(ChannelKind::Selection),
            final(data).layer_list()[0].plane(ChannelKind::HotSelection) == old(data).layer_list()[0].plane(ChannelKind::HotSelection),
    {
        let ghost d0 = *data;
        paint_at(data, ChannelKind::Red, at, self.brush_size, self.color[0]);
        let ghost d1 = *data;
        paint_at(data, ChannelKind::Green, at, self.brush_size, self.color[1]);
        let ghost d2 = *data;
        proof {
            lemma_two_planes(
                d0,
                d1,
                d2,
                ChannelKind::Red,
                d1.layer_list()[0].plane(ChannelKind::Red),
                ChannelKind::Green,
                d2.layer_list()[0].plane(ChannelKind::Green),
            );
        }
        paint_at(data, ChannelKind::Blue, at, self.brush_size, self.color[2]);
        let ghost d3 = *data;
        paint_at(data, ChannelKind::Alpha, at, self.brush_size, self.color[3]);
        let ghost d4 = *data;
        proof {
            lemma_two_planes(
                d2,
                d3,
                d4,
                ChannelKind::Blue,
                d3.layer_list()[0].plane(ChannelKind::Blue),
                ChannelKind::Alpha,
                d4.layer_list()[0].plane(ChannelKind::Alpha),
            );
            lemma_four_planes(d0, d2, d4);
        }
    }

    /// Paints the drag from `previous` to `current` into the red, green, blue and
    /// alpha planes, each with its own component of the colour.
    pub fn mouse_move(&self, data: &mut AppData, previous: Point<i32>, current: Point<i32>)
        requires
            old(data).wf(),
        ensures
            final(data).wf(),
            !final(data).is_fresh(),
            final(data).channel_list() == old(data).channel_list(),
            final(data).layer_list().len() == old(data).layer_list().len(),
            forall|i: int|
                0 < i < final(data).layer_list().len() ==> #[trigger] final(data).layer_list()[i]
                    == old(data).layer_list()[i],
            final(data).layer_list()[0].w() == old(data).layer_list()[0].w(),
            final(data).layer_list()[0].h() == old(data).layer_list()[0].h(),
            forall|c: int|
                0 <= c < 4 ==> #[trigger] final(data).layer_list()[0].plane(colour_plane(c))
                    == stroked(
                    old(data).layer_list()[0].plane(colour_plane(c)),
                    old(data).layer_list()[0].w() as int,
                    old(data).layer_list()[0].h() as int,
                    line_points(previous.x as int, previous.y as int, current.x as int, current.y as int),
                    self.diameter() as int,
                    self.rgba()[c],
                ),
            final(data).layer_list()[0].plane(ChannelKind::Selection) == old(data).layer_list()[0].plane(ChannelKind::Selection),
            final(data).layer_list()[0].plane(ChannelKind::HotSelection) == old(data).layer_list()[0].plane(ChannelKind::HotSelection),
    {
        let ghost d0 = *data;
        paint_drag(data, ChannelKind::Red, previous, current, self.brush_size, self.color[0]);
        let ghost d1 = *data;
        paint_drag(data, ChannelKind::Green, previous, current, self.brush_size, self.color[1]);
        let ghost d2 = *data;
        proof {
            lemma_two_planes(
                d0,
                d1,
                d2,
                ChannelKind::Red,
                d1.layer_list()[0].plane(ChannelKind::Red),
                ChannelKind::Green,
                d2.layer_list()[0].plane(ChannelKind::Green),
            );
        }
        paint_drag(data, ChannelKind::Blue, previous, current, self.brush_size, self.color[2]);
        let ghost d3 = *data;
        paint_drag(data, ChannelKind::Alpha, previous, current, self.brush_size, self.color[3]);
        let ghost d4 = *data;
        proof {
            lemma_two_planes(
                d2,
                d3,
                d4,
                ChannelKind::Blue,
                d3.layer_list()[0].plane(ChannelKind::Blue),
                ChannelKind::Alpha,
                d4.layer_list()[0].plane(ChannelKind::Alpha),
            );
            lemma_four_planes(d0, d2, d4);
        }
    }
}

/// The colour planes in the order of a colour's components.
pub open spec fn colour_plane(c: int) -> ChannelKind {
    if c == 0 {
        ChannelKind::Red
    } else if c == 1 {
        ChannelKind::Green
    } else if c == 2 {
        ChannelKind::Blue
    } else {
        ChannelKind::Alpha
    }
}

/// Two steps that each change the red and green, then the blue and alpha planes
/// leave the selection planes and the other layers alone.
proof fn lemma_four_planes(a: AppData, b: AppData, c: AppData)
    requires
        b.wf(),
        c.wf(),
        b.layer_list().len() == a.layer_list().len(),
        c.layer_list().len() == b.layer_list().len(),
        forall|i: int| 0 < i < b.layer_list().len() ==> #[trigger] b.layer_list()[i] == a.layer_list()[i],
        forall|i: int| 0 < i < c.layer_list().len() ==> #[trigger] c.layer_list()[i] == b.layer_list()[i],
        forall|k: ChannelKind|
            k != ChannelKind::Red && k != ChannelKind::Green ==> #[trigger] b.layer_list()[0].plane(k)
                == a.layer_list()[0].plane(k),
        forall|k: ChannelKind|
            k != ChannelKind::Blue && k != ChannelKind::Alpha ==> #[trigger] c.layer_list()[0].plane(k)
                == b.layer_list()[0].plane(k),
    ensures
        forall|i: int| 0 < i < c.layer_list().len() ==> #[trigger] c.layer_list()[i] == a.layer_list()[i],
        c.layer_list()[0].plane(ChannelKind::Red) == b.layer_list()[0].plane(ChannelKind::Red),
        c.layer_list()[0].plane(ChannelKind::Green) == b.layer_list()[0].plane(ChannelKind::Green),
        b.layer_list()[0].plane(ChannelKind::Blue) == a.layer_list()[0].plane(ChannelKind::Blue),
        b.layer_list()[0].plane(ChannelKind::Alpha) == a.layer_list()[0].plane(ChannelKind::Alpha),
        c.layer_list()[0].plane(ChannelKind::Selection) == a.layer_list()[0].plane(ChannelKind::Selection),
        c.layer_list()[0].plane(ChannelKind::HotSelection) == a.layer_list()[0].plane(ChannelKind::HotSelection),
{
    assert forall|i: int| 0 < i < c.layer_list().len() implies #[trigger] c.layer_list()[i] == a.layer_list()[i] by {
        assert(b.layer_list()[i] == a.layer_list()[i]);
    }
    assert(b.layer_list()[0].plane(ChannelKind::Selection) == a.layer_list()[0].plane(ChannelKind::Selection));
    assert(b.layer_list()[0].plane(ChannelKind::HotSelection) == a.layer_list()[0].plane(ChannelKind::HotSelection));
    assert(c.layer_list()[0].plane(ChannelKind::Red) == b.layer_list()[0].plane(ChannelKind::Red));
    assert(c.layer_list()[0].plane(ChannelKind::Green) == b.layer_list()[0].plane(ChannelKind::Green));
}

/// The tool that paints the selection stroke in progress.
pub struct BrushSelectionTool {
    brush_size: u32,
}

impl BrushSelectionTool {
    pub closed spec fn diameter(&self) -> nat {
        self.brush_size as nat
    }

    pub fn new(brush_size: u32) -> (t: Self)
        ensures
            t.diameter() == brush_size,
    {
        BrushSelectionTool { brush_size }
    }

    /// Paints the drag from `previous` to `current` into the selection stroke in
    /// progress, with value 255.
    pub fn mouse_move(&self, data: &mut AppData, previous: Point<i32>, current: Point<i32>)
        requires
            old(data).wf(),
        ensures
            only_plane_changed(
                *old(data),
                *final(data),
                ChannelKind::HotSelection,
                stroked(
                    old(data).layer_list()[0].plane(ChannelKind::HotSelection),
                    old(data).layer_list()[0].w() as int,
                    old(data).layer_list()[0].h() as int,
                    line_points(previous.x as int, previous.y as int, current.x as int, current.y as int),
                    self.diameter() as int,
                    255,
                ),
            ),
    {
        paint_drag(data, ChannelKind::HotSelection, previous, current, self.brush_size, 255);
    }

    /// Ends the stroke: it is added to the selection and cleared.
    pub fn mouse_up(&self, data: &mut AppData)
        requires
            old(data).wf(),
        ensures
            final(data).wf(),
            !final(data).is_fresh(),
            final(data).channel_list() == old(data).channel_list(),
            final(data).layer_list().len() == old(data).layer_list().len(),
            forall|i: int|
                0 < i < final(data).layer_list().len() ==> #[trigger] final(data).layer_list()[i]
                    == old(data).layer_list()[i],
            final(data).layer_list()[0].plane(ChannelKind::Selection) == committed(
                old(data).layer_list()[0].plane(ChannelKind::Selection),
                old(data).layer_list()[0].plane(ChannelKind::HotSelection),
            ),
            forall|i: int|
                0 <= i < final(data).layer_list()[0].area() ==> #[trigger] final(data).layer_list()[0].plane(
                    ChannelKind::HotSelection,
                )[i] == 0,
            forall|k: ChannelKind|
                k != ChannelKind::Selection && k != ChannelKind::HotSelection ==> #[trigger] final(data).layer_list()[0].plane(k)
                    == old(data).layer_list()[0].plane(k),
            final(data).layer_list()[0].w() == old(data).layer_list()[0].w(),
            final(data).layer_list()[0].h() == old(data).layer_list()[0].h(),
    {
        commit_hot_selection(data);
    }
}

} // verus!
