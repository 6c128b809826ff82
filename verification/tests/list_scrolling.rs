use tuie::align::Align;
use tuie::geometry::Sign;
use tuie::geometry::{Axis2D, Vec2};
use tuie::list_window::{smooth_scroll_step, smooth_step_toward, Anchor, ListScroll, ListWindow};
use tuie::pane::PaneScroll;

fn window() -> ListWindow {
    ListWindow {
        len: 10,
        window_start: 2,
        heights: vec![3, 1, 2],
        gap: 1,
        avg_height: 2,
        anchor: Anchor { index: 3, offset: 4 },
        first_item_offset: 0,
        direction: Sign::Positive,
    }
}

fn anchor(index: usize, offset: i32) -> Anchor {
    Anchor { index, offset }
}

#[test]
fn window_slots_and_estimates() {
    let w = window();
    assert_eq!(w.data_to_window(3), Some(1));
    assert_eq!(w.data_to_window(1), None);
    assert_eq!(w.data_to_window(5), None);
    assert_eq!(w.item_height_or_estimate(2), 3);
    assert_eq!(w.item_height_or_estimate(0), 2);
    assert_eq!(w.estimated_step(), 3);
    assert_eq!(Anchor::zero(), anchor(0, 0));
}

#[test]
fn offsets_count_from_the_anchor() {
    let w = window();
    assert_eq!(w.compute_offset_from_anchor(1), 4);
    assert_eq!(w.compute_offset_from_anchor(2), 6);
    assert_eq!(w.compute_offset_from_anchor(3), 9);
    assert_eq!(w.compute_offset_from_anchor(0), 0);
    assert_eq!(w.offset_from_anchor(0), 0);
    let mut far = window();
    far.anchor = anchor(8, 4);
    assert_eq!(far.compute_offset_from_anchor(2), 0);
}

#[test]
fn content_offsets_mix_measured_and_estimated_items() {
    let w = window();
    let expected = [0u32, 3, 6, 10, 12, 15, 18, 21, 24, 27];
    for (i, e) in expected.iter().enumerate() {
        assert_eq!(w.content_offset_of(i), *e);
    }
    assert_eq!(w.get_content_size(), 29);
    assert_eq!(w.scroll_from_anchor(), 6);
    let mut empty = window();
    empty.len = 0;
    empty.window_start = 0;
    empty.heights = vec![];
    assert_eq!(empty.get_content_size(), 0);
}

#[test]
fn anchor_from_content_position() {
    let w = window();
    assert_eq!(w.anchor_from_content_px(10), anchor(3, 0));
    assert_eq!(w.anchor_from_content_px(11), anchor(3, -1));
    assert_eq!(w.anchor_from_content_px(5), anchor(1, -2));
    assert_eq!(w.anchor_from_content_px(16), anchor(5, -1));
    assert_eq!(w.anchor_from_content_px(100), anchor(9, -1));
}

#[test]
fn anchor_of_content_offset_round_trips() {
    let w = window();
    for i in 0..w.len {
        assert_eq!(w.anchor_from_content_px(w.content_offset_of(i)), anchor(i, 0));
    }
}

#[test]
fn screen_positions_mirror_when_reversed() {
    let mut w = window();
    assert_eq!(w.screen_pos(20, 4, 3), 4);
    assert_eq!(w.screen_to_offset(20, 4, 3), 4);
    w.direction = Sign::Negative;
    assert_eq!(w.screen_pos(20, 4, 3), 13);
    assert_eq!(w.screen_to_offset(20, 13, 3), 4);
}

#[test]
fn visibility_of_items() {
    let w = window();
    assert!(w.is_index_visible(3, 10));
    assert!(w.is_index_visible(2, 10));
    assert!(w.is_index_visible(4, 10));
    assert!(!w.is_index_visible(4, 5));
    assert!(!w.is_index_visible(8, 10));
}

#[test]
fn normalizing_moves_the_anchor_by_one_item() {
    let mut w = window();
    w.anchor = anchor(3, -1);
    w.normalize_anchor(10);
    assert_eq!(w.anchor, anchor(4, 1));
    w.anchor = anchor(3, 12);
    w.normalize_anchor(10);
    assert_eq!(w.anchor, anchor(2, 8));
    w.anchor = anchor(3, 2);
    w.normalize_anchor(10);
    assert_eq!(w.anchor, anchor(3, 2));
}

#[test]
fn scroll_capabilities() {
    let mut w = window();
    assert!(w.can_scroll_forward(10));
    assert!(w.can_scroll_backward());
    w.len = 5;
    assert!(!w.can_scroll_forward(10));
    assert!(w.can_scroll_forward(7));
    w.window_start = 0;
    w.anchor = anchor(1, 4);
    w.first_item_offset = -1;
    assert!(w.can_scroll_backward());
    w.first_item_offset = 0;
    assert!(!w.can_scroll_backward());
    w.heights = vec![];
    assert!(w.can_scroll_forward(10));
}

#[test]
fn render_range_rounds_to_chunks_and_reuses_the_window() {
    let mut w = window();
    w.len = 100;
    w.window_start = 0;
    w.heights = vec![];
    assert_eq!(w.compute_render_range(20, 2), 0..32);
    assert_eq!(w.compute_render_range(60, 2), 48..80);
    w.heights = vec![1; 40];
    assert_eq!(w.compute_render_range(20, 2), 0..40);
}

#[test]
fn scrolling_to_an_index() {
    let mut w = window();
    w.scroll_to_index(7, Some(Align::Start), 10);
    assert_eq!(w.anchor, anchor(7, 0));
    w.scroll_to_index(7, Some(Align::Middle), 10);
    assert_eq!(w.anchor, anchor(7, 5));
    w.scroll_to_index(50, Some(Align::End), 10);
    assert_eq!(w.anchor, anchor(9, 8));
    let mut w = window();
    w.scroll_to_index(3, None, 10);
    assert_eq!(w.anchor, anchor(3, 4));
    w.scroll_to_index(8, None, 10);
    assert_eq!(w.anchor, anchor(8, 0));
}

fn short_list(anchor_at: Anchor) -> ListWindow {
    ListWindow {
        len: 3,
        window_start: 0,
        heights: vec![3, 1, 2],
        gap: 1,
        avg_height: 2,
        anchor: anchor_at,
        first_item_offset: 0,
        direction: Sign::Positive,
    }
}

#[test]
fn clamping_pulls_a_short_list_to_the_leading_edge() {
    let mut w = short_list(anchor(1, 6));
    w.clamp_anchor(20);
    assert_eq!(w.anchor, anchor(1, 4));
    assert_eq!(w.compute_offset_from_anchor(0), 0);
    let mut w = short_list(anchor(0, 5));
    w.clamp_anchor(5);
    assert_eq!(w.anchor, anchor(0, 0));
    let mut w = short_list(anchor(2, 0));
    w.clamp_anchor(10);
    assert_eq!(w.anchor, anchor(2, 6));
    assert_eq!(w.compute_offset_from_anchor(0), 0);
}

#[test]
fn clamping_leaves_a_window_short_of_the_end_alone() {
    let mut w = short_list(anchor(2, 0));
    w.len = 10;
    w.clamp_anchor(5);
    assert_eq!(w.anchor, anchor(2, 0));
}

#[test]
fn visible_range_of_the_window() {
    let mut w = window();
    assert_eq!(w.get_visible_range(5), 2..4);
    assert_eq!(w.get_visible_range(10), 2..5);
    assert_eq!(w.get_visible_range(0), 0..0);
    w.first_item_offset = -4;
    assert_eq!(w.get_visible_range(10), 3..5);
    w.heights = vec![];
    assert_eq!(w.get_visible_range(10), 0..0);
}

#[test]
fn scrolling_by_a_delta_moves_and_normalizes_the_anchor() {
    let mut w = window();
    w.scroll_by_delta(2, 10);
    assert_eq!(w.anchor, anchor(3, 2));
    let mut w = window();
    w.scroll_by_delta(5, 10);
    assert_eq!(w.anchor, anchor(4, 1));
    let mut w = window();
    w.scroll_by_delta(-7, 10);
    assert_eq!(w.anchor, anchor(2, 7));
}

#[test]
fn ensure_visible_scrolls_only_when_needed() {
    let mut w = window();
    assert!(!w.ensure_visible_scrolloff(12, 0, 10));
    assert!(!w.ensure_visible_scrolloff(3, 0, 0));
    assert!(!w.ensure_visible_scrolloff(7, 0, 10));
    assert!(!w.ensure_visible_scrolloff(3, 0, 10));
    assert!(!w.ensure_visible_scrolloff(3, 2, 10));
    assert_eq!(w.anchor, anchor(3, 4));
    assert!(w.ensure_visible_scrolloff(4, 0, 7));
    assert_eq!(w.anchor, anchor(4, 5));
    let mut w = window();
    assert!(w.ensure_visible_scrolloff(2, 2, 10));
    assert_eq!(w.anchor, anchor(2, 2));
    let mut w = window();
    w.direction = Sign::Negative;
    assert!(w.ensure_visible_scrolloff(4, 0, 7));
    assert_eq!(w.anchor, anchor(4, 5));
}

#[test]
fn item_count_changes_keep_the_anchor_in_the_list() {
    let mut w = window();
    w.set_item_count(12);
    assert_eq!((w.len, w.anchor), (12, anchor(3, 4)));
    w.set_item_count(3);
    assert_eq!((w.len, w.anchor), (3, anchor(2, 4)));
    w.set_item_count(0);
    assert_eq!((w.len, w.anchor), (0, anchor(0, 0)));
}

#[test]
fn smooth_scrolling_splits_pixels_into_cells_and_clamps() {
    assert_eq!(smooth_scroll_step(2, 3, 10, 5, 8), (3, 5, true));
    assert_eq!(smooth_scroll_step(4, 0, 100, 5, 8), (5, 0, true));
    assert_eq!(smooth_scroll_step(5, 0, 10, 5, 8), (5, 0, false));
    assert_eq!(smooth_scroll_step(0, 3, -10, 5, 8), (0, 0, true));
    assert_eq!(smooth_scroll_step(1, 1, -1, 5, 8), (1, 0, true));
}

#[test]
fn one_sided_smooth_scrolling_caps_only_the_way_it_moves() {
    assert_eq!(smooth_step_toward(1, 0, 20, true, 2, 8), (2, 0, true));
    assert_eq!(smooth_step_toward(1, 4, 20, false, 2, 8), (0, 0, true));
    assert_eq!(smooth_step_toward(5, 0, 3, true, 2, 8), (2, 0, true));
    assert_eq!(smooth_step_toward(5, 0, 3, false, 2, 8), (4, 5, true));
    assert_eq!(smooth_step_toward(0, 0, 3, false, 2, 8), (0, 0, false));
}

#[test]
fn list_and_pane_keep_the_pixels_past_whole_cells() {
    let mut list = ListWindow {
        len: 10,
        window_start: 0,
        heights: vec![2; 10],
        gap: 0,
        avg_height: 2,
        anchor: Anchor { index: 0, offset: 0 },
        first_item_offset: 0,
        direction: Sign::Positive,
    };
    let mut scroll = ListScroll::new();
    assert!(scroll.smooth_main(&mut list, Axis2D::Y, 20, 8, 6));
    assert_eq!(list.scroll_from_anchor(), 2);
    assert_eq!(scroll.subcell, Vec2 { x: 0, y: 4 });
    assert!(scroll.smooth_main(&mut list, Axis2D::Y, 1000, 8, 6));
    assert_eq!(list.scroll_from_anchor(), 14);
    assert_eq!(scroll.subcell.y, 0);
    assert!(!scroll.smooth_main(&mut list, Axis2D::Y, 5, 8, 6));
    assert!(scroll.smooth_cross(Axis2D::X, 12, true, 3, 8));
    assert_eq!((scroll.cross_offset, scroll.subcell.x), (1, 4));

    let mut pane = PaneScroll::new();
    assert!(pane.smooth_scroll(Axis2D::X, 17, true, 4, 8));
    assert_eq!((pane.scroll.x, pane.subcell.x), (2, 1));
    assert!(pane.smooth_scroll(Axis2D::X, 100, false, 4, 8));
    assert_eq!((pane.scroll.x, pane.subcell.x), (0, 0));
    assert!(!pane.smooth_scroll(Axis2D::X, 5, false, 4, 8));
}
