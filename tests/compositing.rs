use maditor::image_buffer::{merge_channels, ChannelKind, ImageBuffer};
use maditor::state::{AppData, Channel};

fn channels(visible: [bool; 5]) -> Vec<Channel> {
    let kinds = [
        ChannelKind::Red,
        ChannelKind::Green,
        ChannelKind::Blue,
        ChannelKind::Alpha,
        ChannelKind::Selection,
    ];
    kinds
        .iter()
        .zip(visible.iter())
        .map(|(&kind, &is_visible)| Channel { kind, is_visible, is_selected: false })
        .collect()
}

fn two_pixels() -> ImageBuffer {
    ImageBuffer::from_rgba(2, 1, &[1, 2, 3, 4, 5, 6, 7, 8])
}

#[test]
fn merge_interleaves_four_planes() {
    let r = [1u8, 2, 3];
    let g = [4u8, 5, 6];
    let b = [7u8, 8, 9];
    let a = [10u8, 11, 12];
    let mut out = [0u8; 12];
    merge_channels(&r, &g, &b, &a, &mut out);
    assert_eq!(out, [1, 4, 7, 10, 2, 5, 8, 11, 3, 6, 9, 12]);
}

#[test]
fn merge_of_odd_lengths() {
    for n in [0usize, 1, 31, 33, 100] {
        let r: Vec<u8> = (0..n).map(|i| i as u8).collect();
        let g: Vec<u8> = (0..n).map(|i| (i * 3) as u8).collect();
        let b: Vec<u8> = (0..n).map(|i| (i * 7) as u8).collect();
        let a: Vec<u8> = (0..n).map(|i| (255 - i) as u8).collect();
        let mut out = vec![0u8; 4 * n];
        merge_channels(&r, &g, &b, &a, &mut out);
        for i in 0..n {
            assert_eq!(&out[4 * i..4 * i + 4], &[r[i], g[i], b[i], a[i]]);
        }
    }
}

#[test]
fn buffer_splits_rgba_into_planes() {
    let buf = two_pixels();
    assert_eq!(buf.width(), 2);
    assert_eq!(buf.height(), 1);
    assert_eq!(buf.channel(ChannelKind::Red).as_slice(), Some(&[1u8, 5][..]));
    assert_eq!(buf.channel(ChannelKind::Green).as_slice(), Some(&[2u8, 6][..]));
    assert_eq!(buf.channel(ChannelKind::Blue).as_slice(), Some(&[3u8, 7][..]));
    assert_eq!(buf.channel(ChannelKind::Alpha).as_slice(), Some(&[4u8, 8][..]));
    assert_eq!(buf.channel(ChannelKind::Selection).as_slice(), Some(&[0u8, 0][..]));
    assert_eq!(buf.channel(ChannelKind::HotSelection).as_slice(), Some(&[0u8, 0][..]));
    assert_eq!(buf.interleaved(), &[0u8; 8][..]);
}

#[test]
fn decoded_image_gets_an_opaque_alpha_plane() {
    let rgb = image::RgbImage::from_raw(2, 1, vec![10, 20, 30, 40, 50, 60]).unwrap();
    let buf = ImageBuffer::from_dynamic_image(image::DynamicImage::ImageRgb8(rgb));
    assert_eq!(buf.width(), 2);
    assert_eq!(buf.channel(ChannelKind::Red).as_slice(), Some(&[10u8, 40][..]));
    assert_eq!(buf.channel(ChannelKind::Blue).as_slice(), Some(&[30u8, 60][..]));
    assert_eq!(buf.channel(ChannelKind::Alpha).as_slice(), Some(&[255u8, 255][..]));
    let rgba = image::RgbaImage::from_raw(1, 1, vec![1, 2, 3, 4]).unwrap();
    let buf = ImageBuffer::from_dynamic_image_with_alpha(image::DynamicImage::ImageRgba8(rgba));
    assert_eq!(buf.channel(ChannelKind::Alpha).as_slice(), Some(&[4u8][..]));
}

#[test]
fn render_hides_planes_and_overlays_selection() {
    let mut buf = two_pixels();
    {
        let mut sel = buf.channel_mut(ChannelKind::Selection);
        sel.set(0, 0, 255);
    }
    buf.render(true, false, true, false);
    assert_eq!(buf.interleaved(), &[1, 0, 3, 4, 5, 0, 7, 8][..]);
    buf.render(true, true, true, true);
    assert_eq!(buf.interleaved(), &[1, 2, 3, 128, 5, 6, 7, 8][..]);
    {
        let (_, mut hot) = buf.selection_mut();
        hot.set(0, 0, 255);
        hot.set(1, 0, 255);
    }
    buf.render(true, true, true, true);
    assert_eq!(buf.interleaved(), &[1, 2, 3, 96, 5, 6, 7, 96][..]);
}

#[test]
fn channel_labels() {
    assert_eq!(ChannelKind::Red.label(), "Red");
    assert_eq!(ChannelKind::HotSelection.label(), "Hot Selection");
    assert_eq!(ChannelKind::Selection.label(), "Selection");
}

#[test]
fn composite_is_memoised_until_a_change() {
    let mut data = AppData::new(channels([true; 5]), two_pixels());
    let first = data.get_composite().to_vec();
    assert_eq!(first, vec![1, 2, 3, 4, 5, 6, 7, 8]);
    let second = data.get_composite().to_vec();
    assert_eq!(first, second);
    {
        let layer = data.layer_mut(0);
        let mut red = layer.channel_mut(ChannelKind::Red);
        red.set(1, 0, 99);
    }
    assert_eq!(data.get_composite(), &[1, 2, 3, 4, 99, 6, 7, 8][..]);
}

#[test]
fn hiding_a_channel_recomposites() {
    let mut data = AppData::new(channels([true; 5]), two_pixels());
    assert_eq!(data.get_composite(), &[1, 2, 3, 4, 5, 6, 7, 8][..]);
    data.set_channel_visible(1, false);
    assert!(!data.is_channel_visible(ChannelKind::Green));
    assert_eq!(data.get_composite(), &[1, 0, 3, 4, 5, 0, 7, 8][..]);
    data.set_channel_visible(1, true);
    assert_eq!(data.get_composite(), &[1, 2, 3, 4, 5, 6, 7, 8][..]);
}

#[test]
fn missing_list_entries_count_as_hidden() {
    let mut data = AppData::new(channels([true; 5]).into_iter().take(2).collect(), two_pixels());
    assert!(data.channel(ChannelKind::Blue).is_none());
    assert!(!data.is_channel_visible(ChannelKind::HotSelection));
    assert_eq!(data.channel(ChannelKind::Green).map(|c| c.kind), Some(ChannelKind::Green));
    assert_eq!(data.get_composite(), &[1, 2, 0, 4, 5, 6, 0, 8][..]);
    data.set_channel_selected(0, true);
    assert!(data.channels()[0].is_selected);
}
