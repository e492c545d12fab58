use maditor::contours::Point;
use maditor::image_buffer::{ChannelKind, ImageBuffer};
use maditor::state::{AppData, Channel};
use maditor::tools::{
    commit_hot_selection, fill_selection_rect, paint_at, paint_drag, BrushSelectionTool, DrawTool,
};
use maditor::utils::plot_line;

fn session(w: u32, h: u32) -> AppData {
    let rgba = vec![0u8; (w * h * 4) as usize];
    let kinds = [
        ChannelKind::Red,
        ChannelKind::Green,
        ChannelKind::Blue,
        ChannelKind::Alpha,
        ChannelKind::Selection,
    ];
    let channels = kinds
        .iter()
        .map(|&kind| Channel { kind, is_visible: true, is_selected: false })
        .collect();
    AppData::new(channels, ImageBuffer::from_rgba(w, h, &rgba))
}

fn plane(data: &AppData, kind: ChannelKind) -> Vec<u8> {
    data.layer(0).channel(kind).as_slice().unwrap().to_vec()
}

fn set_pixels(p: &[u8], w: u32) -> Vec<(u32, u32)> {
    p.iter()
        .enumerate()
        .filter(|(_, &v)| v != 0)
        .map(|(i, _)| (i as u32 % w, i as u32 / w))
        .collect()
}

#[test]
fn paint_at_stamps_one_plane() {
    let mut data = session(5, 5);
    paint_at(&mut data, ChannelKind::Green, Point::new(2, 2), 1, 40);
    assert_eq!(set_pixels(&plane(&data, ChannelKind::Green), 5), vec![(2, 2)]);
    assert_eq!(plane(&data, ChannelKind::Green)[12], 40);
    assert!(plane(&data, ChannelKind::Red).iter().all(|&v| v == 0));
}

#[test]
fn stamps_off_the_plane_are_clipped() {
    let mut data = session(4, 4);
    paint_at(&mut data, ChannelKind::Red, Point::new(-5, 1), 1, 1);
    assert!(plane(&data, ChannelKind::Red).iter().all(|&v| v == 0));
    paint_at(&mut data, ChannelKind::Red, Point::new(-1, 1), 3, 1);
    assert_eq!(set_pixels(&plane(&data, ChannelKind::Red), 4), vec![(0, 0), (0, 1), (0, 2)]);
}

#[test]
fn drag_paints_every_line_pixel() {
    let mut data = session(8, 8);
    paint_drag(&mut data, ChannelKind::Blue, Point::new(1, 1), Point::new(6, 4), 1, 200);
    let mut got = set_pixels(&plane(&data, ChannelKind::Blue), 8);
    let mut want: Vec<(u32, u32)> =
        plot_line(1, 1, 6, 4).iter().map(|p| (p.x as u32, p.y as u32)).collect();
    got.sort();
    want.sort();
    assert_eq!(got, want);
}

#[test]
fn draw_tool_paints_each_component() {
    let mut data = session(3, 3);
    let tool = DrawTool::new(1, [10, 20, 30, 40]);
    tool.mouse_down(&mut data, Point::new(1, 1));
    assert_eq!(plane(&data, ChannelKind::Red)[4], 10);
    assert_eq!(plane(&data, ChannelKind::Green)[4], 20);
    assert_eq!(plane(&data, ChannelKind::Blue)[4], 30);
    assert_eq!(plane(&data, ChannelKind::Alpha)[4], 40);
    assert!(plane(&data, ChannelKind::Selection).iter().all(|&v| v == 0));
    tool.mouse_move(&mut data, Point::new(0, 0), Point::new(2, 0));
    assert_eq!(&plane(&data, ChannelKind::Alpha)[0..3], &[40, 40, 40]);
    assert_eq!(data.get_composite()[0..4], [10, 20, 30, 40]);
}

#[test]
fn selection_stroke_commits_to_255() {
    let mut data = session(6, 6);
    {
        let layer = data.layer_mut(0);
        let mut sel = layer.channel_mut(ChannelKind::Selection);
        sel.set(5, 5, 7);
        sel.set(0, 0, 200);
    }
    let tool = BrushSelectionTool::new(1);
    tool.mouse_move(&mut data, Point::new(0, 0), Point::new(3, 3));
    let hot = plane(&data, ChannelKind::HotSelection);
    assert_eq!(set_pixels(&hot, 6), vec![(0, 0), (1, 1), (2, 2), (3, 3)]);
    tool.mouse_up(&mut data);
    let sel = plane(&data, ChannelKind::Selection);
    for (x, y) in [(0u32, 0u32), (1, 1), (2, 2), (3, 3)] {
        assert_eq!(sel[(y * 6 + x) as usize], 255);
    }
    assert_eq!(sel[35], 7);
    assert_eq!(sel.iter().filter(|&&v| v != 0).count(), 5);
    assert!(plane(&data, ChannelKind::HotSelection).iter().all(|&v| v == 0));
}

#[test]
fn commit_saturates() {
    let mut data = session(2, 1);
    {
        let layer = data.layer_mut(0);
        let (mut sel, mut hot) = layer.selection_mut();
        sel.set(0, 0, 100);
        hot.set(0, 0, 100);
        sel.set(1, 0, 200);
        hot.set(1, 0, 100);
    }
    commit_hot_selection(&mut data);
    assert_eq!(plane(&data, ChannelKind::Selection), vec![200, 255]);
    assert_eq!(plane(&data, ChannelKind::HotSelection), vec![0, 0]);
}

#[test]
fn rectangle_selection_with_swapped_corners() {
    let mut data = session(5, 4);
    fill_selection_rect(&mut data, Point::new(3, 2), Point::new(1, 1));
    let got = set_pixels(&plane(&data, ChannelKind::Selection), 5);
    assert_eq!(got, vec![(1, 1), (2, 1), (3, 1), (1, 2), (2, 2), (3, 2)]);
    assert_eq!(plane(&data, ChannelKind::Selection)[6], 255);
    fill_selection_rect(&mut data, Point::new(4, 3), Point::new(4, 3));
    assert_eq!(plane(&data, ChannelKind::Selection)[19], 255);
}

#[test]
fn selection_overlay_in_composite() {
    let mut data = session(2, 1);
    fill_selection_rect(&mut data, Point::new(1, 0), Point::new(1, 0));
    assert_eq!(data.get_composite(), &[0, 0, 0, 0, 0, 0, 0, 128][..]);
}

#[test]
fn selection_outline_follows_the_selection() {
    let mut data = session(6, 5);
    assert_eq!(data.selection_outline().map(|c| c.len()), Some(0));
    fill_selection_rect(&mut data, Point::new(1, 1), Point::new(3, 2));
    let first: Vec<Vec<Point<u32>>> =
        data.selection_outline().unwrap().iter().map(|c| c.points.clone()).collect();
    assert_eq!(first.len(), 1);
    assert_eq!(first[0].len(), 6);
    assert_eq!(first[0][0], Point::new(1, 1));
    let again: Vec<Vec<Point<u32>>> =
        data.selection_outline().unwrap().iter().map(|c| c.points.clone()).collect();
    assert_eq!(first, again);
    fill_selection_rect(&mut data, Point::new(5, 4), Point::new(5, 4));
    let after = data.selection_outline().unwrap();
    assert_eq!(after.len(), 3);
    assert_eq!(after[1].points, vec![Point::new(5u32, 4u32)]);
    assert_eq!(after[2].points, vec![Point::new(5u32, 4u32)]);
}
