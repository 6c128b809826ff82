use tuie::events::{ChangeEvent, ListRequestEvent};
use tuie::geometry::{Axis2D, Rect, Vec2};
use tuie::spacing::Spacing;

#[test]
fn axis_flip_and_vec_access() {
    assert_eq!(Axis2D::X.flip(), Axis2D::Y);
    assert_eq!(Axis2D::Y.flip(), Axis2D::X);
    assert!(Axis2D::X.is_x());
    assert!(!Axis2D::Y.is_x());
    let mut v = Vec2::new(1, 2);
    assert_eq!(v.get(Axis2D::X), 1);
    assert_eq!(v.get(Axis2D::Y), 2);
    v.set(Axis2D::Y, 7);
    assert_eq!(v, Vec2::new(1, 7));
    assert_eq!(Vec2::of(3u16), Vec2::new(3, 3));
    let r = Rect::new(Vec2::new(-1, 2), Vec2::new(3, 4));
    assert_eq!(r.pos.x, -1);
    assert_eq!(r.size.y, 4);
}

#[test]
fn spacing_builders_set_single_edges() {
    let s = Spacing::new().left(1).right(2).top(3).bottom(4);
    assert_eq!(s.get_before(Axis2D::X), 1);
    assert_eq!(s.get_after(Axis2D::X), 2);
    assert_eq!(s.get_before(Axis2D::Y), 3);
    assert_eq!(s.get_after(Axis2D::Y), 4);
    assert_eq!(s.get_total(), Vec2::new(3, 7));
    let s = s.horizontal(5).vertical(6);
    assert_eq!(s.get_total(), Vec2::new(10, 12));
    assert_eq!(Spacing::default(), Spacing::new());
    assert_eq!(Spacing::new().get_total(), Vec2::new(0, 0));
}

#[test]
fn balanced_spacing_scales_rows_by_a_third() {
    let s = Spacing::balanced(2);
    assert_eq!(s.get_before(Axis2D::X), 2);
    assert_eq!(s.get_after(Axis2D::X), 2);
    assert_eq!(s.get_before(Axis2D::Y), 1);
    assert_eq!(s.get_after(Axis2D::Y), 1);
    assert_eq!(Spacing::balanced(4).get_before(Axis2D::Y), 1);
    assert_eq!(Spacing::balanced(5).get_before(Axis2D::Y), 2);
    assert_eq!(Spacing::balanced(254).get_total(), Vec2::new(508, 170));
}

#[test]
fn event_payloads() {
    let r = ListRequestEvent::new(3, 9);
    assert_eq!(r.0, 3..9);
    let c = ChangeEvent(5u8);
    assert_eq!(c.0, 5);
}
