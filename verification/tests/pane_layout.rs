use tuie::pane::{
    axis_overhead, axis_pad, bar_visible, child_basis, child_min_main, children_extent,
    clamp_scroll, max_scroll, measure_cross, measure_main, pane_gap_total, used_cross,
};
use tuie::scrollbar::Scrollbar;

#[test]
fn basis_depends_on_flex_and_flow() {
    assert_eq!(child_basis(1, true, 7, 9), 0);
    assert_eq!(child_basis(0, true, 7, 9), 7);
    assert_eq!(child_basis(0, false, 7, 9), 9);
}

#[test]
fn minimum_prefers_explicit_values_for_flowing_children() {
    assert_eq!(child_min_main(true, Some(3), 7, 1, 10), 3);
    assert_eq!(child_min_main(true, None, 7, 1, 10), 7);
    assert_eq!(child_min_main(false, Some(3), 7, 1, 10), 1);
    assert_eq!(child_min_main(true, None, 12, 1, 10), 10);
}

#[test]
fn measurement_offers() {
    assert_eq!(measure_main(1, 40), 40);
    assert_eq!(measure_main(0, 40), u16::MAX);
    assert_eq!(measure_cross(true, 20, 5, 3), 20);
    assert_eq!(measure_cross(false, 20, 5, 3), 5);
    assert_eq!(measure_cross(false, 20, 30, 3), 20);
    assert_eq!(measure_cross(false, 2, 30, 3), 3);
}

#[test]
fn cross_sizes_follow_stretching_and_scrolling() {
    assert_eq!(used_cross(true, false, 20, 0, 15, 4), 15);
    assert_eq!(used_cross(true, true, 20, 0, 50, 30), 30);
    assert_eq!(used_cross(true, true, 20, 0, 50, 4), 20);
    assert_eq!(used_cross(false, false, 20, 0, 50, 30), 20);
    assert_eq!(used_cross(false, false, 20, 6, 50, 4), 6);
}

#[test]
fn padding_and_overhead() {
    assert_eq!(axis_pad(2, 3, 1), 4);
    assert_eq!(axis_pad(2, 0, 1), 2);
    assert_eq!(axis_overhead(1, 1, false, 4), 7);
    assert_eq!(axis_overhead(1, 1, true, 4), 3);
    assert_eq!(axis_overhead(1, u16::MAX, false, 4), u16::MAX);
}

#[test]
fn gaps_and_extent() {
    assert_eq!(pane_gap_total(0, 3), 0);
    assert_eq!(pane_gap_total(1, 3), 0);
    assert_eq!(pane_gap_total(4, 3), 9);
    assert_eq!(children_extent(&[3, 4], &[5, 2], 1), (8, 5));
    assert_eq!(children_extent(&[], &[], 0), (0, 0));
    assert_eq!(children_extent(&[u16::MAX], &[1], u32::MAX), (u32::MAX, 1));
}

#[test]
fn scroll_offsets_stay_within_reach() {
    assert_eq!(max_scroll(100, 30), 70);
    assert_eq!(max_scroll(10, 30), 0);
    assert_eq!(clamp_scroll(true, 90, 100, 30), 70);
    assert_eq!(clamp_scroll(true, 20, 100, 30), 20);
    assert_eq!(clamp_scroll(false, 20, 100, 30), 0);
    let once = clamp_scroll(true, 500, 100, 30);
    assert_eq!(clamp_scroll(true, once, 100, 30), once);
}

#[test]
fn scrollbar_visibility_by_mode() {
    assert!(!bar_visible(None, 100, 10, 0));
    assert!(!bar_visible(Some(Scrollbar::Hidden), 100, 10, 0));
    assert!(bar_visible(Some(Scrollbar::Visible), 0, 10, 0));
    assert!(bar_visible(Some(Scrollbar::AutoHide), 10, 10, 1));
    assert!(!bar_visible(Some(Scrollbar::AutoHide), 9, 10, 1));
}
