use tuie::align::Align;
use tuie::chrome::{chrome_before, chrome_total, title_placement, Chrome};
use tuie::geometry::{Axis2D, Rect, Vec2, VerticalEdge};
use tuie::revelation::{resolve_revelation_axis, Revelation};
use tuie::scrollbar::BorderStubs;
use tuie::spacing::Spacing;

fn rect(x: i32, y: i32, w: u16, h: u16) -> Rect {
    Rect::new(Vec2::new(x, y), Vec2::new(w, h))
}

#[test]
fn revelation_keeps_priority_order_and_translates() {
    let mut r = Revelation::new();
    assert!(r.get_rects().is_empty());
    r.push(rect(0, 0, 4, 4));
    r.push(rect(10, 2, 1, 1));
    r.translate(Vec2::new(1, -1));
    assert_eq!(r.get_rects(), &[rect(1, -1, 4, 4), rect(11, 1, 1, 1)]);
    r.clear();
    assert!(r.get_rects().is_empty());
}

#[test]
fn clip_axis_trims_and_drops_rects() {
    let mut r = Revelation::new();
    r.push(rect(0, 0, 10, 5));
    r.push(rect(20, 0, 3, 3));
    r.push(rect(4, 1, 2, 2));
    r.clip_axis(Axis2D::X, 2, 6);
    assert_eq!(r.get_rects(), &[rect(2, 0, 4, 5), rect(4, 1, 2, 2)]);
    r.clip_axis(Axis2D::X, 2, 6);
    assert_eq!(r.get_rects(), &[rect(2, 0, 4, 5), rect(4, 1, 2, 2)]);
    r.clip_axis(Axis2D::Y, 0, 2);
    assert_eq!(r.get_rects(), &[rect(2, 0, 4, 2), rect(4, 1, 2, 1)]);
}

#[test]
fn reveal_picks_first_fitting_pass() {
    assert_eq!(resolve_revelation_axis(&[(5, 3)], 10, None, 0), 0);
    assert_eq!(resolve_revelation_axis(&[(12, 3)], 10, None, 0), 5);
    assert_eq!(resolve_revelation_axis(&[(-4, 3)], 10, None, 0), -4);
    assert_eq!(resolve_revelation_axis(&[(20, 20), (12, 3)], 10, None, 0), 5);
    assert_eq!(resolve_revelation_axis(&[(20, 20)], 10, None, 0), 0);
    assert_eq!(resolve_revelation_axis(&[], 10, None, 0), 0);
}

#[test]
fn reveal_alignment_and_scrolloff() {
    assert_eq!(resolve_revelation_axis(&[(12, 3)], 10, Some(Align::Start), 1), 11);
    assert_eq!(resolve_revelation_axis(&[(12, 3)], 10, Some(Align::Middle), 1), 8);
    assert_eq!(resolve_revelation_axis(&[(12, 3)], 10, Some(Align::End), 1), 6);
    assert_eq!(resolve_revelation_axis(&[(7, 2)], 10, None, 2), 1);
    assert_eq!(resolve_revelation_axis(&[(1, 2)], 10, None, 2), -1);
    assert_eq!(resolve_revelation_axis(&[(1, 9)], 10, None, 5), 0);
}

#[test]
fn chrome_titles_read_back() {
    let mut c = Chrome::new();
    assert!(c.border.is_none());
    assert_eq!(c.get_border_size(), 0);
    assert_eq!(c.get_title(), None);
    c.set_title_at(VerticalEdge::Top, Align::Start, Some("one".to_string()));
    c.set_title_at(VerticalEdge::Bottom, Align::End, Some("two".to_string()));
    assert_eq!(c.get_title(), Some("one"));
    assert_eq!(c.get_title_at(VerticalEdge::Bottom, Align::End), Some("two"));
    assert_eq!(c.get_title_at(VerticalEdge::Bottom, Align::Start), None);
    c.set_title_at(VerticalEdge::Top, Align::Start, Some("three".to_string()));
    assert_eq!(c.get_title(), Some("three"));
    assert_eq!(c.titles.len(), 2);
    c.set_title_at(VerticalEdge::Top, Align::Start, None);
    assert_eq!(c.get_title(), None);
    assert_eq!(c.get_title_at(VerticalEdge::Bottom, Align::End), Some("two"));
}

#[test]
fn chrome_cells_before_and_total() {
    let mut c = Chrome::new();
    c.bordered = true;
    c.padding = Spacing::new().left(2).top(1).bottom(3);
    assert_eq!(c.get_border_size(), 1);
    assert_eq!(chrome_before(Some(&c)), Vec2::new(3, 2));
    assert_eq!(chrome_total(Some(&c)), Vec2::new(4, 6));
    assert_eq!(chrome_before(None), Vec2::new(0, 0));
    assert_eq!(chrome_total(None), Vec2::new(0, 0));
}

#[test]
fn title_placement_per_alignment() {
    let size = Vec2::new(20, 5);
    assert_eq!(title_placement(size, VerticalEdge::Top, Align::Start, false, 6), Some((Vec2::new(1, 0), 18)));
    assert_eq!(title_placement(size, VerticalEdge::Top, Align::Middle, false, 6), Some((Vec2::new(7, 0), 12)));
    assert_eq!(title_placement(size, VerticalEdge::Bottom, Align::End, false, 6), Some((Vec2::new(13, 4), 6)));
    assert_eq!(title_placement(size, VerticalEdge::Top, Align::End, false, 40), Some((Vec2::new(1, 0), 18)));
    assert_eq!(title_placement(size, VerticalEdge::Top, Align::Start, true, 6), None);
    assert_eq!(title_placement(Vec2::new(4, 3), VerticalEdge::Top, Align::Start, false, 1), None);
}

#[test]
fn clipping_one_axis_ignores_the_other_axis_extent() {
    let mut r = Revelation::new();
    r.push(Rect::new(Vec2 { x: 0, y: i32::MAX }, Vec2 { x: 10, y: 5 }));
    r.clip_axis(Axis2D::X, 2, 6);
    assert_eq!(r.get_rects().len(), 1);
    assert_eq!(r.get_rects()[0].pos.x, 2);
    assert_eq!(r.get_rects()[0].size.x, 4);
    assert_eq!(r.get_rects()[0].pos.y, i32::MAX);
}

#[test]
fn setting_a_title_twice_changes_nothing_more_and_keeps_one_per_place() {
    let mut c = Chrome::new();
    c.set_title_at(VerticalEdge::Top, Align::Start, Some("a".to_string()));
    c.set_title_at(VerticalEdge::Bottom, Align::End, Some("b".to_string()));
    c.set_title_at(VerticalEdge::Top, Align::Start, Some("c".to_string()));
    let once: Vec<(String, VerticalEdge, Align)> =
        c.titles.iter().map(|t| (t.text.clone(), t.edge, t.align)).collect();
    c.set_title_at(VerticalEdge::Top, Align::Start, Some("c".to_string()));
    let twice: Vec<(String, VerticalEdge, Align)> =
        c.titles.iter().map(|t| (t.text.clone(), t.edge, t.align)).collect();
    assert_eq!(once, twice);
    assert_eq!(
        c.titles.iter().filter(|t| t.edge == VerticalEdge::Top && t.align == Align::Start).count(),
        1
    );
    assert_eq!(c.get_title_at(VerticalEdge::Bottom, Align::End), Some("b"));
    assert_eq!(c.get_title_at(VerticalEdge::Top, Align::Start), Some("c"));
}

#[test]
fn a_chrome_without_its_own_border_uses_the_default_set() {
    let default = BorderStubs { stubs: Vec2 { x: true, y: false } };
    let own = BorderStubs { stubs: Vec2 { x: false, y: true } };
    let mut c = Chrome::new();
    assert_eq!(c.get_resolved_border(default), default);
    c.border = Some(own);
    assert_eq!(c.get_resolved_border(default), own);
}

#[test]
fn revealing_without_alignment_reaches_the_far_end_of_the_range() {
    assert_eq!(resolve_revelation_axis(&[(i32::MIN, 0)], 0, None, 0), i32::MIN);
    assert_eq!(resolve_revelation_axis(&[(i32::MAX - 5, 5)], 10, None, 0), i32::MAX - 10);
}
