use tuie::widget_path::{WidgetId, WidgetPath};
use tuie::geometry::{Axis2D, Vec2};
use tuie::layout::{
    next_widget_id, Constraints, DirtyImpact, FlowMeasureCache, FlowStart, Layer, Layout,
    LayoutFlags, WidgetState, FLOW_MEASURE_CACHE_SIZE,
};
use tuie::spacing::Spacing;

fn v(x: u16, y: u16) -> Vec2<u16> {
    Vec2::new(x, y)
}

#[test]
fn dirty_impact_merge_takes_the_more_severe() {
    assert_eq!(DirtyImpact::Clean.merge(DirtyImpact::Paint), DirtyImpact::Paint);
    assert_eq!(DirtyImpact::Layout.merge(DirtyImpact::Paint), DirtyImpact::Layout);
    assert_eq!(DirtyImpact::Clean.merge(DirtyImpact::Clean), DirtyImpact::Clean);
    let mut d = DirtyImpact::Paint;
    d.merge_assign(DirtyImpact::Clean);
    assert_eq!(d, DirtyImpact::Paint);
    d.merge_assign(DirtyImpact::Layout);
    assert_eq!(d, DirtyImpact::Layout);
    for a in [DirtyImpact::Clean, DirtyImpact::Paint, DirtyImpact::Layout] {
        for b in [DirtyImpact::Clean, DirtyImpact::Paint, DirtyImpact::Layout] {
            assert_eq!(a.merge(b), b.merge(a));
            assert_eq!(a.merge(a), a);
        }
    }
}

#[test]
fn enum_labels() {
    assert_eq!(DirtyImpact::Clean.label(), "None");
    assert_eq!(DirtyImpact::Layout.label(), "Layout");
    assert_eq!(WidgetState::Idle.label(), "None");
    assert_eq!(WidgetState::FocusedHover.label(), "FocusedHover");
    assert_eq!(Layer::Top.label(), "Top");
}

#[test]
fn widget_ids_never_repeat() {
    let mut counter = 1u64;
    assert_eq!(next_widget_id(&mut counter), 1);
    assert_eq!(next_widget_id(&mut counter), 2);
    assert_eq!(counter, 3);
}

#[test]
fn layout_flags_set_and_get_one_bit() {
    let mut f = LayoutFlags(0);
    f.set(LayoutFlags::OVERFLOWS, true);
    assert!(f.get(LayoutFlags::OVERFLOWS));
    assert!(!f.get(LayoutFlags::DIRTY_PAINT));
    f.set(LayoutFlags::DIRTY_PAINT, true);
    f.set(LayoutFlags::OVERFLOWS, false);
    assert!(!f.get(LayoutFlags::OVERFLOWS));
    assert!(f.get(LayoutFlags::DIRTY_PAINT));
    assert_eq!(f.0, LayoutFlags::DIRTY_PAINT);
}

#[test]
fn measure_cache_finds_and_promotes() {
    let mut c = FlowMeasureCache::new();
    assert_eq!(c.get_len(), 0);
    assert_eq!(c.get_last_output(), v(0, 0));
    c.insert(v(1, 1), v(10, 10));
    c.insert(v(2, 2), v(20, 20));
    assert_eq!(c.get_last_output(), v(20, 20));
    assert_eq!(c.find_and_promote(v(1, 1)), Some(v(10, 10)));
    assert_eq!(c.get_last_output(), v(20, 20));
    assert_eq!(c.find_and_promote(v(3, 3)), None);
    assert_eq!(c.get_len(), 2);
}

#[test]
fn measure_cache_updates_in_place_and_evicts_oldest() {
    let mut c = FlowMeasureCache::new();
    for i in 0..FLOW_MEASURE_CACHE_SIZE as u16 {
        c.insert(v(i, 0), v(i, 100));
    }
    assert_eq!(c.get_len(), FLOW_MEASURE_CACHE_SIZE);
    c.insert(v(1, 0), v(7, 7));
    assert_eq!(c.get_len(), FLOW_MEASURE_CACHE_SIZE);
    assert_eq!(c.get_last_output(), v(7, 7));
    c.insert(v(9, 0), v(9, 9));
    assert_eq!(c.get_len(), FLOW_MEASURE_CACHE_SIZE);
    assert_eq!(c.find_and_promote(v(0, 0)), None);
    assert_eq!(c.find_and_promote(v(1, 0)), Some(v(7, 7)));
    assert_eq!(c.latest_by_main(Axis2D::X, 9), Some(v(9, 9)));
    assert_eq!(c.latest_by_main(Axis2D::Y, 0), Some(v(7, 7)));
    c.clear();
    assert_eq!(c.get_len(), 0);
}

#[test]
fn new_layout_is_pending_layout() {
    let l = Layout::new(42);
    assert_eq!(l.get_id(), 42);
    assert_eq!(l.get_dirty(), DirtyImpact::Layout);
    assert!(!l.is_overflowing());
    assert_eq!(l.constraints.max_size, v(u16::MAX, u16::MAX));
    assert_eq!(l.get_explicit_min(Axis2D::X), None);
}

#[test]
fn dirty_state_reads_back() {
    let mut l = Layout::new(1);
    l.set_dirty(DirtyImpact::Clean);
    assert_eq!(l.get_dirty(), DirtyImpact::Clean);
    l.or_dirty(DirtyImpact::Paint);
    assert_eq!(l.get_dirty(), DirtyImpact::Paint);
    l.or_dirty(DirtyImpact::Clean);
    assert_eq!(l.get_dirty(), DirtyImpact::Paint);
    l.or_dirty(DirtyImpact::Layout);
    assert_eq!(l.get_dirty(), DirtyImpact::Layout);
    l.set_dirty(DirtyImpact::Paint);
    assert_eq!(l.get_dirty(), DirtyImpact::Paint);
    l.set_overflowing(true);
    assert!(l.is_overflowing());
    assert_eq!(l.get_dirty(), DirtyImpact::Paint);
}

#[test]
fn explicit_sizes_read_back_and_max_value_means_unset() {
    let mut l = Layout::new(1);
    l.set_dirty(DirtyImpact::Clean);
    l.set_explicit_min(Axis2D::X, Some(3));
    assert_eq!(l.get_explicit_min(Axis2D::X), Some(3));
    assert_eq!(l.get_dirty(), DirtyImpact::Layout);
    l.set_explicit_max(Axis2D::Y, Some(u16::MAX));
    assert_eq!(l.get_explicit_max(Axis2D::Y), None);
    l.set_size(Axis2D::Y, Some(8));
    assert_eq!(l.get_size(Axis2D::Y), Some(8));
    assert_eq!(l.get_explicit_min(Axis2D::Y), Some(8));
    assert_eq!(l.get_explicit_max(Axis2D::Y), Some(8));
    assert_eq!(l.get_explicit_pref(Axis2D::Y), Some(8));
    l.set_explicit_pref(Axis2D::X, Some(5));
    assert_eq!(l.get_size(Axis2D::X), None);
}

#[test]
fn unchanged_setting_keeps_layout_clean() {
    let mut l = Layout::new(1);
    l.set_dirty(DirtyImpact::Clean);
    l.set_explicit_min(Axis2D::X, None);
    assert_eq!(l.get_dirty(), DirtyImpact::Clean);
    l.set_flex(0);
    assert_eq!(l.get_dirty(), DirtyImpact::Clean);
    l.set_flex(2);
    assert_eq!(l.get_dirty(), DirtyImpact::Layout);
    assert_eq!(l.flex, 2);
}

#[test]
fn margins_and_outer_size() {
    let mut l = Layout::new(1);
    l.set_margin(Spacing::new().left(1).right(2).top(3).bottom(4));
    assert_eq!(l.get_margin_before(), v(1, 3));
    assert_eq!(l.get_margin_after(), v(2, 4));
    assert_eq!(l.get_margin_total(), v(3, 7));
    l.rect.size = v(10, u16::MAX);
    assert_eq!(l.get_outer_size(), v(13, u16::MAX));
}

#[test]
fn child_cursor_is_placed_or_rejected() {
    let mut l = Layout::new(1);
    l.rect.pos = Vec2::new(10, 10);
    l.rect.size = v(5, 5);
    assert_eq!(l.place_child_cursor(Vec2::new(12, 11), Vec2::new(1, 1)), Some(Vec2::new(3, 2)));
    assert_eq!(l.place_child_cursor(Vec2::new(10, 10), Vec2::new(-1, 5)), Some(Vec2::new(-1, 5)));
    assert_eq!(l.place_child_cursor(Vec2::new(10, 10), Vec2::new(-2, 0)), None);
    assert_eq!(l.place_child_cursor(Vec2::new(10, 10), Vec2::new(0, 6)), None);
}

#[test]
fn constraints_follow_explicit_overrides_and_margin() {
    let mut l = Layout::new(1);
    l.set_margin(Spacing::new().horizontal(1));
    l.set_explicit_min(Axis2D::X, Some(6));
    l.set_explicit_max(Axis2D::Y, Some(4));
    l.set_explicit_pref(Axis2D::Y, Some(9));
    let measured = Constraints {
        min_size: v(2, 5),
        max_size: v(20, 30),
        preferred_size: v(4, 6),
    };
    l.apply_constraints(measured);
    assert_eq!(l.constraints.min_size, v(8, 4));
    assert_eq!(l.constraints.max_size, v(22, 4));
    assert_eq!(l.constraints.preferred_size, v(8, 4));
}

#[test]
fn layout_flow_is_cached_until_invalidated() {
    let mut l = Layout::new(1);
    l.set_margin(Spacing::new().left(1).top(2));
    l.set_explicit_max(Axis2D::X, Some(5));
    assert_eq!(l.begin_flow(v(11, 12)), FlowStart::Run(v(10, 10)));
    assert_eq!(l.rect.size, v(10, 10));
    assert_eq!(l.finish_flow(v(7, 3)), v(6, 5));
    assert_eq!(l.get_dirty(), DirtyImpact::Clean);
    assert_eq!(l.get_flow_output_size_layout(), v(6, 5));
    assert_eq!(l.begin_flow(v(11, 12)), FlowStart::Cached(v(6, 5)));
    assert_eq!(l.flow_lookup_by_main(Axis2D::X, 10), Some(v(5, 3)));
    assert_eq!(l.begin_flow(v(12, 12)), FlowStart::Run(v(11, 10)));
    l.or_dirty(DirtyImpact::Layout);
    assert_eq!(l.flow_lookup_by_main(Axis2D::X, 11), None);
}

#[test]
fn measure_flow_is_cached_per_size() {
    let mut l = Layout::new(1);
    l.set_margin(Spacing::new().right(2));
    assert_eq!(l.begin_measure(v(12, 4)), FlowStart::Run(v(10, 4)));
    assert_eq!(l.finish_measure(v(10, 4), v(3, 3)), v(5, 3));
    assert_eq!(l.get_flow_output_size_measure(), v(5, 3));
    assert_eq!(l.begin_measure(v(12, 4)), FlowStart::Cached(v(5, 3)));
    assert_eq!(l.flow_lookup_by_main(Axis2D::Y, 4), Some(v(3, 3)));
    l.set_dirty(DirtyImpact::Layout);
    assert_eq!(l.begin_measure(v(12, 4)), FlowStart::Run(v(10, 4)));
}

#[test]
fn widget_paths_read_back_their_ids() {
    assert!(WidgetId::empty().is_empty());
    assert!(!WidgetId(3).is_empty());
    assert_eq!(WidgetId(3).untyped(), WidgetId(3));
    let p = WidgetPath::from_ids(vec![WidgetId(1), WidgetId(4), WidgetId(9)]);
    assert_eq!(p.len(), 3);
    assert!(!p.is_empty());
    assert_eq!(p.get_target(), WidgetId(9));
    assert_eq!(p.as_slice(), &[WidgetId(1), WidgetId(4), WidgetId(9)]);
    assert!(WidgetPath::from_ids(Vec::new()).is_empty());
}

#[test]
fn last_output_follows_insertion_not_lookups() {
    let mut c = FlowMeasureCache::new();
    c.insert(v(1, 0), v(10, 10));
    c.insert(v(2, 0), v(20, 20));
    assert_eq!(c.find_and_promote(v(1, 0)), Some(v(10, 10)));
    assert_eq!(c.get_last_output(), v(20, 20));
    c.insert(v(1, 0), v(11, 11));
    assert_eq!(c.get_last_output(), v(11, 11));
    c.clear();
    assert_eq!(c.get_last_output(), v(0, 0));
}

#[test]
fn ids_from_the_start_are_fresh_and_never_empty() {
    let mut counter = tuie::layout::WIDGET_ID_START;
    let a = Layout::new(next_widget_id(&mut counter));
    let b = Layout::new(next_widget_id(&mut counter));
    assert_ne!(a.get_id(), b.get_id());
    assert_ne!(a.get_id(), 0);
    assert_ne!(b.get_id(), 0);
    assert_eq!(b.get_dirty(), DirtyImpact::Layout);
}

#[test]
fn an_id_source_never_repeats_and_never_hands_out_zero() {
    let mut ids = tuie::layout::WidgetIds::new();
    let a = ids.fresh().unwrap();
    let b = ids.fresh().unwrap();
    assert_eq!(a, 1);
    assert_eq!(b, 2);
    assert_ne!(a, b);
}
