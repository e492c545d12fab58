//! The planes of one raster image and their interleaved RGBA rendering.
use vstd::prelude::*;
use crate::channels::{Matrix, ViewMut, ViewRef};

verus! {

#[verifier::external_type_specification]
#[verifier::external_body]
pub struct ExDynamicImage(image::DynamicImage);

/// The width, height and RGBA bytes of `image` converted to 8-bit RGBA.
pub uninterp spec fn rgba_image_of(image: image::DynamicImage) -> (u32, u32, Seq<u8>);

/// Relies on image's `DynamicImage::to_rgba8`, which builds a fresh RGBA buffer
/// of the image's dimensions with four bytes per pixel from the image alone,
/// and on the buffer's `dimensions` and `into_raw`, which hand out its size
/// and its bytes.
#[verifier::external_body]
fn rgba_of(image: &image::DynamicImage) -> (r: (u32, u32, Vec<u8>))
    ensures
        r.0 == rgba_image_of(*image).0,
        r.1 == rgba_image_of(*image).1,
        r.2@ == rgba_image_of(*image).2,
        r.2@.len() == 4 * (r.0 * r.1),
{
    let rgba = image.to_rgba8();
    let (width, height) = rgba.dimensions();
    (width, height, rgba.into_raw())
}

/// The planes an image buffer holds.
#[derive(Clone, Copy, PartialEq, Eq, Debug, Structural)]
pub enum ChannelKind {
    Red,
    Green,
    Blue,
    Alpha,
    Selection,
    HotSelection,
}

impl ChannelKind {
    /// The name shown for the plane.
    pub fn label(&self) -> (r: &'static str)
        ensures
            *self == ChannelKind::Red ==> r@ == "Red"@,
            *self == ChannelKind::Green ==> r@ == "Green"@,
            *self == ChannelKind::Blue ==> r@ == "Blue"@,
            *self == ChannelKind::Alpha ==> r@ == "Alpha"@,
            *self == ChannelKind::Selection ==> r@ == "Selection"@,
            *self == ChannelKind::HotSelection ==> r@ == "Hot Selection"@,
    {
        match self {
            ChannelKind::Red => "Red",
            ChannelKind::Green => "Green",
            ChannelKind::Blue => "Blue",
            ChannelKind::Alpha => "Alpha",
            ChannelKind::Selection => "Selection",
            ChannelKind::HotSelection => "Hot Selection",
        }
    }
}

/// RGBA bytes of `n` pixels taken from four planes, pixel after pixel.
pub open spec fn interleave(r: Seq<u8>, g: Seq<u8>, b: Seq<u8>, a: Seq<u8>) -> Seq<u8> {
    Seq::new(
        4 * r.len(),
        |i: int|
            if i % 4 == 0 {
                r[i / 4]
            } else if i % 4 == 1 {
                g[i / 4]
            } else if i % 4 == 2 {
                b[i / 4]
            } else {
                a[i / 4]
            },
    )
}

/// Plane `k` (0 red, 1 green, 2 blue, 3 alpha) of interleaved RGBA bytes.
pub open spec fn deinterleave(rgba: Seq<u8>, k: int) -> Seq<u8> {
    Seq::new(rgba.len() / 4, |i: int| rgba[4 * i + k])
}

/// Writes `[r[i], g[i], b[i], a[i]]` to `rgba[4i..4i + 4]` for every pixel `i`.
/// All four planes have one length and `rgba` is four times as long.
pub fn merge_channels(r: &[u8], g: &[u8], b: &[u8], a: &[u8], rgba: &mut [u8])
    requires
        g@.len() == r@.len(),
        b@.len() == r@.len(),
        a@.len() == r@.len(),
        old(rgba)@.len() == 4 * r@.len(),
    ensures
        final(rgba)@ == interleave(r@, g@, b@, a@),
{
    let n = r.len();
    let total = rgba.len();
    let mut i: usize = 0;
    while i < n
        invariant
            n == r@.len(),
            g@.len() == n,
            b@.len() == n,
            a@.len() == n,
            total == rgba@.len(),
            rgba@.len() == 4 * n,
            i <= n,
            forall|j: int| 0 <= j < 4 * i ==> #[trigger] rgba@[j] == interleave(r@, g@, b@, a@)[j],
        decreases n - i,
    {
        rgba[4 * i] = r[i];
        rgba[4 * i + 1] = g[i];
        rgba[4 * i + 2] = b[i];
        rgba[4 * i + 3] = a[i];
        proof {
            assert forall|j: int| 0 <= j < 4 * (i + 1) implies #[trigger] rgba@[j] == interleave(
                r@,
                g@,
                b@,
                a@,
            )[j] by {
                if j >= 4 * i {
                    assert(j / 4 == i);
                }
            }
        }
        i = i + 1;
    }
    proof {
        assert(rgba@ =~= interleave(r@, g@, b@, a@));
    }
}

/// Alpha shown for a pixel while the selection is displayed: the stroke in
/// progress and the selection show through at fixed strengths.
pub open spec fn overlay_alpha(alpha: u8, selection: u8, hot_selection: u8) -> u8 {
    if hot_selection == 255 {
        96
    } else if selection == 255 {
        128
    } else {
        alpha
    }
}

/// `plane` as displayed: itself when visible, zeros when hidden.
pub open spec fn shown(plane: Seq<u8>, visible: bool) -> Seq<u8> {
    if visible {
        plane
    } else {
        Seq::new(plane.len(), |i: int| 0u8)
    }
}

/// The alpha plane as displayed: with the selection overlaid when it is shown.
pub open spec fn shown_alpha(
    alpha: Seq<u8>,
    selection: Seq<u8>,
    hot_selection: Seq<u8>,
    show_selection: bool,
) -> Seq<u8> {
    if show_selection {
        Seq::new(alpha.len(), |i: int| overlay_alpha(alpha[i], selection[i], hot_selection[i]))
    } else {
        alpha
    }
}

/// Stored image data: the four colour planes, the selection and the selection
/// stroke in progress, all of one size, and the interleaved RGBA bytes last
/// rendered from them.
pub struct ImageBuffer {
    red: Matrix<u8>,
    green: Matrix<u8>,
    blue: Matrix<u8>,
    alpha: Matrix<u8>,
    selection: Matrix<u8>,
    hot_selection: Matrix<u8>,
    interleaved: Vec<u8>,
    width: u32,
    height: u32,
}

impl ImageBuffer {
    pub closed spec fn w(&self) -> nat {
        self.width as nat
    }

    pub closed spec fn h(&self) -> nat {
        self.height as nat
    }

    /// The bytes of one plane, row after row.
    pub closed spec fn plane(&self, kind: ChannelKind) -> Seq<u8> {
        match kind {
            ChannelKind::Red => self.red.cells(),
            ChannelKind::Green => self.green.cells(),
            ChannelKind::Blue => self.blue.cells(),
            ChannelKind::Alpha => self.alpha.cells(),
            ChannelKind::Selection => self.selection.cells(),
            ChannelKind::HotSelection => self.hot_selection.cells(),
        }
    }

    /// The interleaved RGBA bytes last rendered.
    pub closed spec fn rendered(&self) -> Seq<u8> {
        self.interleaved@
    }

    /// Every plane has the buffer's width and height.
    pub closed spec fn dims_agree(&self) -> bool {
        &&& self.red.w() == self.w() && self.red.h() == self.h()
        &&& self.green.w() == self.w() && self.green.h() == self.h()
        &&& self.blue.w() == self.w() && self.blue.h() == self.h()
        &&& self.alpha.w() == self.w() && self.alpha.h() == self.h()
        &&& self.selection.w() == self.w() && self.selection.h() == self.h()
        &&& self.hot_selection.w() == self.w() && self.hot_selection.h() == self.h()
    }

    /// Number of pixels of each plane.
    pub open spec fn area(&self) -> nat {
        self.h() * self.w()
    }

    /// Every plane holds one byte per pixel, the rendering four, and the
    /// rendering's length fits in memory.
    pub open spec fn wf(&self) -> bool {
        &&& self.dims_agree()
        &&& forall|k: ChannelKind| #[trigger] self.plane(k).len() == self.area()
        &&& self.rendered().len() == 4 * self.area()
        &&& 4 * self.area() <= usize::MAX
    }

    proof fn lemma_wf_planes(&self)
        requires
            self.wf(),
        ensures
            self.red.wf(),
            self.green.wf(),
            self.blue.wf(),
            self.alpha.wf(),
            self.selection.wf(),
            self.hot_selection.wf(),
    {
        assert(self.plane(ChannelKind::Red).len() == self.area());
        assert(self.plane(ChannelKind::Green).len() == self.area());
        assert(self.plane(ChannelKind::Blue).len() == self.area());
        assert(self.plane(ChannelKind::Alpha).len() == self.area());
        assert(self.plane(ChannelKind::Selection).len() == self.area());
        assert(self.plane(ChannelKind::HotSelection).len() == self.area());
    }

    /// The RGBA bytes to display, given which planes are shown.
    pub open spec fn composite(
        &self,
        show_red: bool,
        show_green: bool,
        show_blue: bool,
        show_selection: bool,
    ) -> Seq<u8> {
        interleave(
            shown(self.plane(ChannelKind::Red), show_red),
            shown(self.plane(ChannelKind::Green), show_green),
            shown(self.plane(ChannelKind::Blue), show_blue),
            shown_alpha(
                self.plane(ChannelKind::Alpha),
                self.plane(ChannelKind::Selection),
                self.plane(ChannelKind::HotSelection),
                show_selection,
            ),
        )
    }

    /// A buffer of `width` by `height` pixels whose colour planes come from the
    /// interleaved RGBA bytes `rgba`; the selection planes and the rendering
    /// start out zero.
    pub fn from_rgba(width: u32, height: u32, rgba: &[u8]) -> (buf: Self)
        requires
            rgba@.len() == 4 * (width * height),
            rgba@.len() <= usize::MAX,
        ensures
            buf.wf(),
            buf.w() == width,
            buf.h() == height,
            buf.plane(ChannelKind::Red) == deinterleave(rgba@, 0),
            buf.plane(ChannelKind::Green) == deinterleave(rgba@, 1),
            buf.plane(ChannelKind::Blue) == deinterleave(rgba@, 2),
            buf.plane(ChannelKind::Alpha) == deinterleave(rgba@, 3),
            forall|i: int| 0 <= i < buf.area() ==> #[trigger] buf.plane(ChannelKind::Selection)[i] == 0,
            forall|i: int| 0 <= i < buf.area() ==> #[trigger] buf.plane(ChannelKind::HotSelection)[i] == 0,
            forall|i: int| 0 <= i < buf.rendered().len() ==> #[trigger] buf.rendered()[i] == 0,
    {
        proof {
            assert(width * height == height * width) by (nonlinear_arith);
        }
        let mut r = Matrix::<u8>::new(width, height);
        let mut g = Matrix::<u8>::new(width, height);
        let mut b = Matrix::<u8>::new(width, height);
        let mut a = Matrix::<u8>::new(width, height);
        let n: usize = height as usize * width as usize;
        let mut i: usize = 0;
        {
            let rs = r.as_slice_mut();
            let gs = g.as_slice_mut();
            let bs = b.as_slice_mut();
            let as_ = a.as_slice_mut();
            while i < n
                invariant
                    n == height * width,
                    rgba@.len() == 4 * n,
                    rgba@.len() <= usize::MAX,
                    rs@.len() == n,
                    gs@.len() == n,
                    bs@.len() == n,
                    as_@.len() == n,
                    i <= n,
                    forall|j: int| 0 <= j < i ==> #[trigger] rs@[j] == rgba@[4 * j],
                    forall|j: int| 0 <= j < i ==> #[trigger] gs@[j] == rgba@[4 * j + 1],
                    forall|j: int| 0 <= j < i ==> #[trigger] bs@[j] == rgba@[4 * j + 2],
                    forall|j: int| 0 <= j < i ==> #[trigger] as_@[j] == rgba@[4 * j + 3],
                decreases n - i,
            {
                rs[i] = rgba[4 * i];
                gs[i] = rgba[4 * i + 1];
                bs[i] = rgba[4 * i + 2];
                as_[i] = rgba[4 * i + 3];
                i = i + 1;
            }
            proof {
                assert(rs@ =~= deinterleave(rgba@, 0));
                assert(gs@ =~= deinterleave(rgba@, 1));
                assert(bs@ =~= deinterleave(rgba@, 2));
                assert(as_@ =~= deinterleave(rgba@, 3));
            }
        }
        let selection = Matrix::<u8>::new(width, height);
        let hot_selection = Matrix::<u8>::new(width, height);
        let interleaved: Vec<u8> = vec![0u8; 4 * n];
        let buf = ImageBuffer {
            red: r,
            green: g,
            blue: b,
            alpha: a,
            selection,
            hot_selection,
            interleaved,
            width,
            height,
        };
        proof {
            assert forall|k: ChannelKind| #[trigger] buf.plane(k).len() == buf.area() by {
                match k {
                    ChannelKind::Red => {},
                    ChannelKind::Green => {},
                    ChannelKind::Blue => {},
                    ChannelKind::Alpha => {},
                    ChannelKind::Selection => {},
                    ChannelKind::HotSelection => {},
                }
            }
        }
        buf
    }

    /// Loads the pixels of a decoded image, converted to RGBA.
    pub fn from_dynamic_image(image_data: image::DynamicImage) -> (buf: ImageBuffer)
        ensures
            buf.wf(),
            buf.w() == rgba_image_of(image_data).0,
            buf.h() == rgba_image_of(image_data).1,
            buf.plane(ChannelKind::Red) == deinterleave(rgba_image_of(image_data).2, 0),
            buf.plane(ChannelKind::Green) == deinterleave(rgba_image_of(image_data).2, 1),
            buf.plane(ChannelKind::Blue) == deinterleave(rgba_image_of(image_data).2, 2),
            buf.plane(ChannelKind::Alpha) == deinterleave(rgba_image_of(image_data).2, 3),
            forall|i: int| 0 <= i < buf.area() ==> #[trigger] buf.plane(ChannelKind::Selection)[i] == 0,
            forall|i: int| 0 <= i < buf.area() ==> #[trigger] buf.plane(ChannelKind::HotSelection)[i] == 0,
    {
        Self::from_dynamic_image_with_alpha(image_data)
    }

    /// Loads the pixels of a decoded image, converted to RGBA, keeping its alpha.
    pub fn from_dynamic_image_with_alpha(image_data: image::DynamicImage) -> (buf: ImageBuffer)
        ensures
            buf.wf(),
            buf.w() == rgba_image_of(image_data).0,
            buf.h() == rgba_image_of(image_data).1,
            buf.plane(ChannelKind::Red) == deinterleave(rgba_image_of(image_data).2, 0),
            buf.plane(ChannelKind::Green) == deinterleave(rgba_image_of(image_data).2, 1),
            buf.plane(ChannelKind::Blue) == deinterleave(rgba_image_of(image_data).2, 2),
            buf.plane(ChannelKind::Alpha) == deinterleave(rgba_image_of(image_data).2, 3),
            forall|i: int| 0 <= i < buf.area() ==> #[trigger] buf.plane(ChannelKind::Selection)[i] == 0,
            forall|i: int| 0 <= i < buf.area() ==> #[trigger] buf.plane(ChannelKind::HotSelection)[i] == 0,
    {
        let (width, height, rgba) = rgba_of(&image_data);
        // a vector's length fits in memory, as `from_rgba` asks
        let _len = rgba.len();
        Self::from_rgba(width, height, rgba.as_slice())
    }

    pub fn width(&self) -> (r: u32)
        ensures
            r == self.w(),
    {
        self.width
    }

    pub fn height(&self) -> (r: u32)
        ensures
            r == self.h(),
    {
        self.height
    }

    /// A read-only window over the whole plane `kind`.
    pub fn channel(&self, kind: ChannelKind) -> (v: ViewRef<'_, u8>)
        requires
            self.wf(),
        ensures
            v.wf(),
            v.is_full(),
            v.base() == self.plane(kind),
            v.stride() == self.w(),
            v.w() == self.w(),
            v.h() == self.h(),
    {
        proof {
            self.lemma_wf_planes();
        }
        match kind {
            ChannelKind::Red => self.red.as_view(),
            ChannelKind::Green => self.green.as_view(),
            ChannelKind::Blue => self.blue.as_view(),
            ChannelKind::Alpha => self.alpha.as_view(),
            ChannelKind::Selection => self.selection.as_view(),
            ChannelKind::HotSelection => self.hot_selection.as_view(),
        }
    }

    /// A writable window over the whole plane `kind`. What is written through it
    /// becomes the plane; every other part of the buffer stays as it was.
    pub fn channel_mut(&mut self, kind: ChannelKind) -> (v: ViewMut<'_, u8>)
        requires
            old(self).wf(),
        ensures
            v.wf(),
            v.cells() == old(self).plane(kind),
            v.stride == old(self).w(),
            v.x == 0,
            v.y == 0,
            v.width == old(self).w(),
            v.height == old(self).h(),
            final(self).plane(kind) == final(v.buffer)@,
            forall|k: ChannelKind| k != kind ==> #[trigger] final(self).plane(k) == old(self).plane(k),
            final(self).rendered() == old(self).rendered(),
            final(self).w() == old(self).w(),
            final(self).h() == old(self).h(),
            final(self).dims_agree(),
    {
        proof {
            self.lemma_wf_planes();
        }
        match kind {
            ChannelKind::Red => self.red.as_view_mut(),
            ChannelKind::Green => self.green.as_view_mut(),
            ChannelKind::Blue => self.blue.as_view_mut(),
            ChannelKind::Alpha => self.alpha.as_view_mut(),
            ChannelKind::Selection => self.selection.as_view_mut(),
            ChannelKind::HotSelection => self.hot_selection.as_view_mut(),
        }
    }

    /// Writable windows over the selection and the selection stroke in progress.
    pub fn selection_mut(&mut self) -> (r: (ViewMut<'_, u8>, ViewMut<'_, u8>))
        requires
            old(self).wf(),
        ensures
            r.0.wf(),
            r.1.wf(),
            r.0.cells() == old(self).plane(ChannelKind::Selection),
            r.1.cells() == old(self).plane(ChannelKind::HotSelection),
            r.0.stride == old(self).w() && r.0.x == 0 && r.0.y == 0,
            r.0.width == old(self).w() && r.0.height == old(self).h(),
            r.1.stride == old(self).w() && r.1.x == 0 && r.1.y == 0,
            r.1.width == old(self).w() && r.1.height == old(self).h(),
            final(self).plane(ChannelKind::Selection) == final(r.0.buffer)@,
            final(self).plane(ChannelKind::HotSelection) == final(r.1.buffer)@,
            forall|k: ChannelKind|
                k != ChannelKind::Selection && k != ChannelKind::HotSelection
                    ==> #[trigger] final(self).plane(k) == old(self).plane(k),
            final(self).rendered() == old(self).rendered(),
            final(self).w() == old(self).w(),
            final(self).h() == old(self).h(),
            final(self).dims_agree(),
    {
        proof {
            self.lemma_wf_planes();
        }
        (self.selection.as_view_mut(), self.hot_selection.as_view_mut())
    }

    /// The interleaved RGBA bytes last rendered.
    pub fn interleaved(&self) -> (r: &[u8])
        ensures
            r@ == self.rendered(),
    {
        self.interleaved.as_slice()
    }

    /// Renders the planes into the interleaved RGBA bytes: hidden colour planes
    /// as zeros, and the alpha plane with the selection overlaid when the
    /// selection is shown. Nothing else changes.
    pub fn render(&mut self, show_red: bool, show_green: bool, show_blue: bool, show_selection: bool)
        requires
            old(self).wf(),
        ensures
            final(self).wf(),
            final(self).rendered() == old(self).composite(
                show_red,
                show_green,
                show_blue,
                show_selection,
            ),
            forall|k: ChannelKind| #[trigger] final(self).plane(k) == old(self).plane(k),
            final(self).w() == old(self).w(),
            final(self).h() == old(self).h(),
    {
        proof {
            self.lemma_wf_planes();
        }
        let ghost planes_before = *self;
        let n: usize = self.red.as_slice().len();
        let zeros: Vec<u8> = vec![0u8; n];
        let mut overlay: Vec<u8> = Vec::new();
        if show_selection {
            let a = self.alpha.as_slice();
            let sel = self.selection.as_slice();
            let hot = self.hot_selection.as_slice();
            proof {
                assert(self.plane(ChannelKind::Alpha).len() == self.area());
                assert(self.plane(ChannelKind::Selection).len() == self.area());
                assert(self.plane(ChannelKind::HotSelection).len() == self.area());
            }
            let mut i: usize = 0;
            while i < n
                invariant
                    n == a@.len(),
                    sel@.len() == n,
                    hot@.len() == n,
                    i <= n,
                    overlay@.len() == i,
                    forall|j: int|
                        0 <= j < i ==> #[trigger] overlay@[j] == overlay_alpha(a@[j], sel@[j], hot@[j]),
                decreases n - i,
            {
                let v = if hot[i] == 255 {
                    96
                } else if sel[i] == 255 {
                    128
                } else {
                    a[i]
                };
                overlay.push(v);
                i = i + 1;
            }
        }
        proof {
            assert(self.plane(ChannelKind::Red).len() == self.area());
            assert(self.plane(ChannelKind::Green).len() == self.area());
            assert(self.plane(ChannelKind::Blue).len() == self.area());
            assert(self.plane(ChannelKind::Alpha).len() == self.area());
        }
        let r = if show_red {
            self.red.as_slice()
        } else {
            zeros.as_slice()
        };
        let g = if show_green {
            self.green.as_slice()
        } else {
            zeros.as_slice()
        };
        let b = if show_blue {
            self.blue.as_slice()
        } else {
            zeros.as_slice()
        };
        let alpha = if show_selection {
            overlay.as_slice()
        } else {
            self.alpha.as_slice()
        };
        proof {
            assert(r@ =~= shown(planes_before.plane(ChannelKind::Red), show_red));
            assert(g@ =~= shown(planes_before.plane(ChannelKind::Green), show_green));
            assert(b@ =~= shown(planes_before.plane(ChannelKind::Blue), show_blue));
            assert(alpha@ =~= shown_alpha(
                planes_before.plane(ChannelKind::Alpha),
                planes_before.plane(ChannelKind::Selection),
                planes_before.plane(ChannelKind::HotSelection),
                show_selection,
            ));
        }
        merge_channels(r, g, b, alpha, self.interleaved.as_mut_slice());
        proof {
            assert forall|k: ChannelKind| #[trigger] self.plane(k) == planes_before.plane(k) by {
                match k {
                    ChannelKind::Red => {},
                    ChannelKind::Green => {},
                    ChannelKind::Blue => {},
                    ChannelKind::Alpha => {},
                    ChannelKind::Selection => {},
                    ChannelKind::HotSelection => {},
                }
            }
        }
    }
}

} // verus!
