use tuie::align::Place;
use tuie::drag::apply_drag;
use tuie::flex::FlexItem;
use tuie::geometry::{Axis2D, Vec2};
use tuie::grid::{
    bake_offsets, distribute_min, natural_extent_sum, natural_min_extent_sum, span_size,
    SolveState, Track,
};
use tuie::split::{halve_with_gap, SPLIT_MINIMUM};

fn sized(targets: &[u16]) -> Vec<FlexItem> {
    targets
        .iter()
        .map(|&t| {
            let mut it = FlexItem::new(t, 0, u16::MAX, 0);
            it.target = t;
            it
        })
        .collect()
}

#[test]
fn track_builders() {
    let t = Track::fixed(5);
    assert_eq!((t.min, t.pref, t.max, t.flex), (Some(5), Some(5), Some(5), 0));
    let t = Track::grow(2).min(1).max(9);
    assert_eq!((t.min, t.max, t.flex), (Some(1), Some(9), 2));
    let t = Track::auto().pref(4).flex(3);
    assert_eq!((t.min, t.pref, t.max, t.flex), (None, Some(4), None, 3));
}

#[test]
fn distribute_min_spreads_deficit_front_first() {
    let mut mins = [1u16, 1, 1];
    distribute_min(&mut mins, 0, 3, 10, 1, 0);
    assert_eq!(mins, [3, 3, 2]);
    let total: u32 = mins.iter().map(|&m| m as u32).sum::<u32>() + 2;
    assert!(total >= 10);
}

#[test]
fn distribute_min_leaves_fitting_tracks() {
    let mut mins = [4u16, 4];
    distribute_min(&mut mins, 0, 2, 8, 0, 0);
    assert_eq!(mins, [4, 4]);
    distribute_min(&mut mins, 5, 2, 100, 0, 0);
    assert_eq!(mins, [4, 4]);
    distribute_min(&mut mins, 1, 5, 6, 0, 0);
    assert_eq!(mins, [4, 6]);
}

#[test]
fn bake_offsets_places_slack() {
    let tracks = sized(&[2, 3]);
    let gaps = [1u16];
    let mut off = [0u16; 3];
    bake_offsets(&tracks, &mut off, 10, 1, 1, &gaps, Place::Start);
    assert_eq!(off, [1, 4, 7]);
    bake_offsets(&tracks, &mut off, 10, 1, 1, &gaps, Place::End);
    assert_eq!(off, [3, 6, 9]);
    bake_offsets(&tracks, &mut off, 10, 1, 1, &gaps, Place::Middle);
    assert_eq!(off, [2, 5, 8]);
    bake_offsets(&tracks, &mut off, 10, 1, 1, &gaps, Place::Evenly);
    assert_eq!(off, [1, 5, 8]);
    bake_offsets(&tracks, &mut off, 10, 1, 1, &gaps, Place::Apart);
    assert_eq!(off, [1, 6, 9]);
    let mut none: [u16; 0] = [];
    bake_offsets(&tracks, &mut none, 10, 1, 1, &gaps, Place::Start);
}

#[test]
fn span_and_extent_sums() {
    let tracks = sized(&[2, 3]);
    let off = [1u16, 4, 7];
    assert_eq!(span_size(&tracks, &off, 0, 2), 6);
    assert_eq!(span_size(&tracks, &off, 1, 1), 3);
    assert_eq!(span_size(&tracks, &off, 1, 9), 3);
    assert_eq!(span_size(&tracks, &off, 2, 1), 0);
    assert_eq!(span_size(&tracks, &off, 0, 0), 0);
    assert_eq!(natural_extent_sum(&tracks, 4), 9);
    assert_eq!(natural_extent_sum(&sized(&[u16::MAX, 5]), 0), u16::MAX);
    let mut t = sized(&[2, 3]);
    t[0].basis = 7;
    assert_eq!(natural_min_extent_sum(&t, 1), 11);
}

#[test]
fn solve_state_resizes_offsets_one_past_tracks() {
    let mut s = SolveState::new();
    s.resize(3, 2);
    assert_eq!(s.cols.len(), 3);
    assert_eq!(s.rows.len(), 2);
    assert_eq!(s.col_off.len(), 4);
    assert_eq!(s.row_off.len(), 3);
}

#[test]
fn split_halves_leave_room_for_the_gap() {
    assert_eq!(SPLIT_MINIMUM, 1);
    assert_eq!(halve_with_gap(10, 1), (5, 4));
    assert_eq!(halve_with_gap(1, 0), (1, 0));
    assert_eq!(halve_with_gap(0, 0), (0, 0));
    let (a, b) = halve_with_gap(11, 2);
    assert!(a as u32 + b as u32 + 2 <= 11);
}

#[test]
fn drag_forward_grows_left_track_and_shrinks_right_ones() {
    let r = apply_drag(&[10, 5, 5], &[1, 4, 2], &[None, None, None], 1, 3).unwrap();
    assert_eq!(r, vec![13, 4, 3]);
    assert_eq!(r.iter().map(|&v| v as u32).sum::<u32>(), 20);
}

#[test]
fn drag_backward_grows_right_track_and_shrinks_left_ones() {
    let r = apply_drag(&[3, 6, 5], &[2, 1, 0], &[None, None, None], 2, -8).unwrap();
    assert_eq!(r, vec![2, 1, 11]);
}

#[test]
fn drag_is_capped_by_max_and_by_what_others_can_give() {
    let r = apply_drag(&[10, 5], &[0, 4], &[Some(12), None], 1, 5).unwrap();
    assert_eq!(r, vec![11, 4]);
    let r = apply_drag(&[10, 5], &[0, 0], &[Some(12), None], 1, 5).unwrap();
    assert_eq!(r, vec![12, 3]);
    assert_eq!(apply_drag(&[10, 5], &[0, 0], &[None, None], 1, 0), None);
}

fn solved() -> SolveState {
    let mut s = SolveState::new();
    s.resize(2, 2);
    s.cols[0].target = 3;
    s.cols[1].target = 4;
    s.col_off = vec![0, 5, 9];
    s.rows[0].target = 1;
    s.rows[1].target = 1;
    s.row_off = vec![0, 1, 2];
    s
}

#[test]
fn gutters_between_tracks() {
    let s = solved();
    assert_eq!(s.col_gutter_x(1), Some(3..5));
    assert_eq!(s.col_gutter_x(0), None);
    assert_eq!(s.col_gutter_x(2), None);
    assert_eq!(s.row_gutter_y(1), None);
    assert_eq!(s.divider_center(Axis2D::X, 1), Some(4));
    assert_eq!(s.divider_center(Axis2D::Y, 1), None);
}

#[test]
fn divider_hit_test() {
    let s = solved();
    assert_eq!(s.find_divider_at(Vec2::new(3, 0), true, true), Some((Axis2D::X, 1, 4)));
    assert_eq!(s.find_divider_at(Vec2::new(4, 1), true, false), Some((Axis2D::X, 1, 4)));
    assert_eq!(s.find_divider_at(Vec2::new(5, 0), true, true), None);
    assert_eq!(s.find_divider_at(Vec2::new(3, 0), false, true), None);
    assert_eq!(s.find_divider_at(Vec2::new(3, 2), true, true), None);
}
