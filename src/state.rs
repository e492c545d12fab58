//! The editing session: the channel list shown to the user, the image layers,
//! and memos of the rendered composite and of the selection's outline.
//!
//! Every change to the layers or the channel list bumps a generation counter;
//! a memo is computed again only when the generation it was made at is not the
//! current one.
use vstd::prelude::*;
use crate::contours::{find_contours, lemma_full_view_traces, traces, Contour};
use crate::image_buffer::{ChannelKind, ImageBuffer};

verus! {

/// One entry of the channel list.
#[derive(Clone, Copy, Debug, PartialEq, Eq, Structural)]
pub struct Channel {
    pub kind: ChannelKind,
    pub is_visible: bool,
    pub is_selected: bool,
}

/// Position of a plane's entry in the channel list.
pub open spec fn slot_of(kind: ChannelKind) -> int {
    match kind {
        ChannelKind::Red => 0,
        ChannelKind::Green => 1,
        ChannelKind::Blue => 2,
        ChannelKind::Alpha => 3,
        ChannelKind::Selection => 4,
        ChannelKind::HotSelection => 5,
    }
}

/// The plane `kind` is listed and marked visible.
pub open spec fn visible(channels: Seq<Channel>, kind: ChannelKind) -> bool {
    slot_of(kind) < channels.len() && channels[slot_of(kind)].is_visible
}

/// The composite that the channel list asks for from `image`.
pub open spec fn composite_of(image: ImageBuffer, channels: Seq<Channel>) -> Seq<u8> {
    image.composite(
        visible(channels, ChannelKind::Red),
        visible(channels, ChannelKind::Green),
        visible(channels, ChannelKind::Blue),
        visible(channels, ChannelKind::Selection),
    )
}

/// The state of an editing session.
pub struct AppData {
    channels: Vec<Channel>,
    layers: Vec<ImageBuffer>,
    generation: u64,
    rendered_at: Option<u64>,
    outline: Vec<Contour>,
    outlined_at: Option<u64>,
}

impl AppData {
    pub closed spec fn channel_list(&self) -> Seq<Channel> {
        self.channels@
    }

    pub closed spec fn layer_list(&self) -> Seq<ImageBuffer> {
        self.layers@
    }

    /// The first layer's rendering shows its planes as they are now.
    pub closed spec fn is_fresh(&self) -> bool {
        self.rendered_at == Some(self.generation)
    }

    /// The outline memo was made from the first layer's selection as it is now.
    pub closed spec fn outline_is_fresh(&self) -> bool {
        self.outlined_at == Some(self.generation)
    }

    /// The memoised outline.
    pub closed spec fn outline_list(&self) -> Seq<Contour> {
        self.outline@
    }

    /// There is a first layer, every layer is well formed, a fresh rendering is
    /// the composite of the first layer, and a fresh outline traces its
    /// selection.
    pub open spec fn wf(&self) -> bool {
        &&& self.layer_list().len() >= 1
        &&& forall|i: int| 0 <= i < self.layer_list().len() ==> #[trigger] self.layer_list()[i].wf()
        &&& self.is_fresh() ==> self.layer_list()[0].rendered() == composite_of(
            self.layer_list()[0],
            self.channel_list(),
        )
        &&& self.outline_is_fresh() ==> traces(
            self.layer_list()[0].plane(ChannelKind::Selection),
            self.layer_list()[0].w() as int,
            self.layer_list()[0].h() as int,
            self.outline_list(),
        )
        &&& self.memo_holds()
    }

    /// The generations the memos were made at are never ahead of the current one.
    pub closed spec fn memo_holds(&self) -> bool {
        &&& self.rendered_at matches Some(g) ==> g <= self.generation
        &&& self.outlined_at matches Some(g) ==> g <= self.generation
    }

    /// A session on one image layer, with nothing rendered yet.
    pub fn new(channels: Vec<Channel>, image: ImageBuffer) -> (data: Self)
        requires
            image.wf(),
        ensures
            data.wf(),
            data.channel_list() == channels@,
            data.layer_list() == seq![image],
            !data.is_fresh(),
    {
        let mut layers: Vec<ImageBuffer> = Vec::new();
        layers.push(image);
        AppData {
            channels,
            layers,
            generation: 0,
            rendered_at: None,
            outline: Vec::new(),
            outlined_at: None,
        }
    }

    /// Marks the memos out of date.
    fn touch(&mut self)
        requires
            old(self).memo_holds(),
        ensures
            final(self).memo_holds(),
            !final(self).is_fresh(),
            !final(self).outline_is_fresh(),
            final(self).channel_list() == old(self).channel_list(),
            final(self).layer_list() == old(self).layer_list(),
    {
        if self.generation == u64::MAX {
            self.generation = 0;
            self.rendered_at = None;
            self.outlined_at = None;
        } else {
            self.generation = self.generation + 1;
        }
    }

    /// The layer at `index`, for reading.
    pub fn layer(&self, index: usize) -> (r: &ImageBuffer)
        requires
            index < self.layer_list().len(),
        ensures
            *r == self.layer_list()[index as int],
    {
        &self.layers[index]
    }

    /// The layer at `index`, for writing. The memos are marked out of date.
    pub fn layer_mut(&mut self, index: usize) -> (r: &mut ImageBuffer)
        requires
            old(self).wf(),
            index < old(self).layer_list().len(),
        ensures
            *r == old(self).layer_list()[index as int],
            final(self).layer_list() == old(self).layer_list().update(index as int, *final(r)),
            final(self).channel_list() == old(self).channel_list(),
            !final(self).is_fresh(),
            !final(self).outline_is_fresh(),
            final(self).memo_holds(),
    {
        self.touch();
        &mut self.layers[index]
    }

    /// The channel list.
    pub fn channels(&self) -> (r: &[Channel])
        ensures
            r@ == self.channel_list(),
    {
        self.channels.as_slice()
    }

    /// The list entry of the plane `kind`, if the list has one.
    pub fn channel(&self, kind: ChannelKind) -> (r: Option<&Channel>)
        ensures
            r is Some <==> slot_of(kind) < self.channel_list().len(),
            r is Some ==> *r->0 == self.channel_list()[slot_of(kind)],
    {
        let slot: usize = match kind {
            ChannelKind::Red => 0,
            ChannelKind::Green => 1,
            ChannelKind::Blue => 2,
            ChannelKind::Alpha => 3,
            ChannelKind::Selection => 4,
            ChannelKind::HotSelection => 5,
        };
        if slot < self.channels.len() {
            Some(&self.channels[slot])
        } else {
            None
        }
    }

    /// The plane `kind` is listed and marked visible.
    pub fn is_channel_visible(&self, kind: ChannelKind) -> (r: bool)
        ensures
            r == visible(self.channel_list(), kind),
    {
        match self.channel(kind) {
            Some(ch) => ch.is_visible,
            None => false,
        }
    }

    /// Shows or hides the entry at `index` of the channel list. The rendering is
    /// marked out of date.
    pub fn set_channel_visible(&mut self, index: usize, is_visible: bool)
        requires
            old(self).wf(),
            index < old(self).channel_list().len(),
        ensures
            final(self).wf(),
            final(self).channel_list() == old(self).channel_list().update(
                index as int,
                Channel { is_visible, ..old(self).channel_list()[index as int] },
            ),
            final(self).layer_list() == old(self).layer_list(),
            !final(self).is_fresh(),
    {
        self.touch();
        let mut ch = self.channels[index];
        ch.is_visible = is_visible;
        self.channels.set(index, ch);
    }

    /// Marks or unmarks the entry at `index` of the channel list as selected.
    pub fn set_channel_selected(&mut self, index: usize, is_selected: bool)
        requires
            old(self).wf(),
            index < old(self).channel_list().len(),
        ensures
            final(self).wf(),
            final(self).channel_list() == old(self).channel_list().update(
                index as int,
                Channel { is_selected, ..old(self).channel_list()[index as int] },
            ),
            final(self).layer_list() == old(self).layer_list(),
            !final(self).is_fresh(),
    {
        self.touch();
        let mut ch = self.channels[index];
        ch.is_selected = is_selected;
        self.channels.set(index, ch);
    }

    /// Brings the first layer's rendering up to date with its planes and the
    /// channel list, rendering only when something changed since the last
    /// rendering; when nothing did, the session is left exactly as it was.
    pub fn ensure_fresh(&mut self)
        requires
            old(self).wf(),
        ensures
            final(self).wf(),
            final(self).is_fresh(),
            final(self).layer_list()[0].rendered() == composite_of(
                old(self).layer_list()[0],
                old(self).channel_list(),
            ),
            final(self).channel_list() == old(self).channel_list(),
            final(self).layer_list().len() == old(self).layer_list().len(),
            forall|i: int|
                0 < i < final(self).layer_list().len() ==> #[trigger] final(self).layer_list()[i]
                    == old(self).layer_list()[i],
            forall|k: ChannelKind| #[trigger] final(self).layer_list()[0].plane(k) == old(
                self,
            ).layer_list()[0].plane(k),
            final(self).layer_list()[0].w() == old(self).layer_list()[0].w(),
            final(self).layer_list()[0].h() == old(self).layer_list()[0].h(),
            old(self).is_fresh() ==> *final(self) == *old(self),
    {
        let fresh = match self.rendered_at {
            Some(g) => g == self.generation,
            None => false,
        };
        if fresh {
            return ;
        }
        let show_red = self.is_channel_visible(ChannelKind::Red);
        let show_green = self.is_channel_visible(ChannelKind::Green);
        let show_blue = self.is_channel_visible(ChannelKind::Blue);
        let show_selection = self.is_channel_visible(ChannelKind::Selection);
        let ghost before = self.layers@;
        proof {
            assert(before[0].wf());
        }
        self.layers[0].render(show_red, show_green, show_blue, show_selection);
        self.rendered_at = Some(self.generation);
        proof {
            assert forall|i: int| 0 <= i < self.layer_list().len() implies #[trigger] self.layer_list()[i].wf() by {
                if i != 0 {
                    assert(self.layers@[i] == before[i]);
                }
            }
            assert(self.layers@[0].plane(ChannelKind::Red) == before[0].plane(ChannelKind::Red));
            assert(self.layers@[0].composite(show_red, show_green, show_blue, show_selection)
                == before[0].composite(show_red, show_green, show_blue, show_selection));
        }
    }

    /// The composite of the first layer as it should be displayed now,
    /// rendered again only when something changed since the last call.
    pub fn get_composite(&mut self) -> (r: &[u8])
        requires
            old(self).wf(),
        ensures
            r@ == composite_of(old(self).layer_list()[0], old(self).channel_list()),
            final(self).wf(),
            final(self).is_fresh(),
            r@ == final(self).layer_list()[0].rendered(),
            final(self).channel_list() == old(self).channel_list(),
            final(self).layer_list().len() == old(self).layer_list().len(),
            forall|i: int|
                0 < i < final(self).layer_list().len() ==> #[trigger] final(self).layer_list()[i]
                    == old(self).layer_list()[i],
            forall|k: ChannelKind| #[trigger] final(self).layer_list()[0].plane(k) == old(self).layer_list()[0].plane(k),
            final(self).layer_list()[0].w() == old(self).layer_list()[0].w(),
            final(self).layer_list()[0].h() == old(self).layer_list()[0].h(),
            old(self).is_fresh() ==> *final(self) == *old(self),
    {
        self.ensure_fresh();
        self.layers[0].interleaved()
    }

    /// The outline of the first layer's selection, traced again only when
    /// something changed since the last call. It is `None` exactly when the
    /// image is too large for the tracer's framed grid.
    pub fn selection_outline(&mut self) -> (r: Option<&[Contour]>)
        requires
            old(self).wf(),
        ensures
            r is Some <==> ({
                let image = old(self).layer_list()[0];
                &&& image.w() + 2 <= u32::MAX
                &&& image.h() + 2 <= u32::MAX
                &&& (image.h() + 2) * (image.w() + 2) <= usize::MAX
            }),
            r is Some ==> traces(
                old(self).layer_list()[0].plane(ChannelKind::Selection),
                old(self).layer_list()[0].w() as int,
                old(self).layer_list()[0].h() as int,
                r->0@,
            ),
            final(self).wf(),
            final(self).layer_list() == old(self).layer_list(),
            final(self).channel_list() == old(self).channel_list(),
            final(self).is_fresh() == old(self).is_fresh(),
            r is Some ==> final(self).outline_is_fresh() && r->0@ == final(self).outline_list(),
            r is Some && old(self).outline_is_fresh() ==> r->0@ == old(self).outline_list(),
            r is None ==> *final(self) == *old(self),
    {
        let width = self.layers[0].width() as u64;
        let height = self.layers[0].height() as u64;
        proof {
            assert((height + 2) * (width + 2) <= 0x1_0000_0002_0000_0001) by (nonlinear_arith)
                requires
                    height <= 0xffff_ffff,
                    width <= 0xffff_ffff,
            ;
        }
        if width + 2 > u32::MAX as u64 || height + 2 > u32::MAX as u64
            || (height as u128 + 2) * (width as u128 + 2) > usize::MAX as u128 {
            return None;
        }
        let fresh = match self.outlined_at {
            Some(g) => g == self.generation,
            None => false,
        };
        if !fresh {
            proof {
                assert(self.layers@[0].wf());
            }
            let view = self.layers[0].channel(ChannelKind::Selection);
            let ghost selection = view;
            let contours = find_contours(view);
            proof {
                lemma_full_view_traces(selection, contours@);
            }
            self.outline = contours;
            self.outlined_at = Some(self.generation);
        }
        Some(self.outline.as_slice())
    }
}

} // verus!
