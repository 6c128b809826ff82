use tuie::flex::FlexItem;
use tuie::geometry::{Axis2D, Vec2};
use tuie::grid::Track;
use tuie::grid_model::{CellPlacement, EdgeSource, GridModel};
use tuie::spacing::Spacing;

fn cell(row: u16, col: u16, col_span: u16, min: (u16, u16), pref: (u16, u16)) -> CellPlacement {
    CellPlacement {
        row,
        col,
        row_span: 1,
        col_span,
        bordered: false,
        padding: None,
        min_size: Vec2::new(min.0, min.1),
        preferred_size: Vec2::new(pref.0, pref.1),
    }
}

fn model() -> GridModel {
    GridModel {
        cells: vec![cell(0, 0, 2, (10, 1), (12, 2)), cell(1, 1, 1, (3, 4), (5, 4))],
        columns: vec![Track::auto(), Track::auto()],
        rows: vec![Track::auto(), Track::auto()],
        col_gap: 1,
        row_gap: 0,
        bordered: false,
        row_borders: false,
        col_borders: true,
        padding: Spacing::new(),
    }
}

#[test]
fn edges_inside_a_spanning_cell_have_no_border() {
    let g = model();
    assert_eq!(g.resolve_v_edge(0, 1), None);
    assert_eq!(g.resolve_v_edge(1, 1), Some(EdgeSource::Between));
    assert_eq!(g.resolve_v_edge(0, 0), None);
    assert_eq!(g.resolve_h_edge(1, 0), None);
    assert_eq!(g.line_at(Axis2D::X, 1), 1);
    assert_eq!(g.line_at(Axis2D::X, 0), 0);
    assert_eq!(g.line_at(Axis2D::Y, 1), 0);
}

#[test]
fn edge_precedence() {
    let mut g = model();
    g.cells[0].bordered = true;
    assert_eq!(g.resolve_h_edge(1, 0), Some(EdgeSource::Cell(0)));
    g.cells[0].bordered = false;
    g.rows[0].end = true;
    assert_eq!(g.resolve_h_edge(1, 0), Some(EdgeSource::TrackEnd(0)));
    g.rows[0].end = false;
    g.rows[1].start = true;
    assert_eq!(g.resolve_h_edge(1, 0), Some(EdgeSource::TrackStart(1)));
    g.bordered = true;
    assert_eq!(g.resolve_h_edge(0, 1), Some(EdgeSource::Outer));
    assert_eq!(g.resolve_v_edge(1, 2), Some(EdgeSource::Outer));
}

#[test]
fn separators_and_chrome() {
    let g = model();
    assert_eq!(g.sep_total_in(Axis2D::X, 0, 2), 1);
    assert_eq!(g.sep_total_in(Axis2D::X, 1, 1), 0);
    assert_eq!(g.chrome_total(Axis2D::X), 2);
    assert_eq!(g.chrome_total(Axis2D::Y), 0);
    assert_eq!(g.track_gaps(Axis2D::X), vec![2]);
    assert_eq!(g.track_gaps(Axis2D::Y), vec![0]);
}

#[test]
fn track_minimums_make_room_for_every_cell() {
    let g = model();
    assert_eq!(g.track_mins(Axis2D::X), vec![4, 4]);
    assert_eq!(g.track_mins(Axis2D::Y), vec![1, 4]);
    let mut padded = model();
    padded.padding = Spacing::new().left(1).right(1);
    assert_eq!(padded.track_mins(Axis2D::X), vec![4, 6]);
}

#[test]
fn track_minimums_respect_track_bounds() {
    let mut g = model();
    g.columns[0] = Track::auto().max(2);
    g.columns[1] = Track::auto().min(7);
    assert_eq!(g.track_mins(Axis2D::X), vec![1, 7]);
    g.columns[1] = Track::auto();
    g.columns[0] = Track::auto().max(2);
    assert_eq!(g.track_mins(Axis2D::X), vec![2, 4]);
}

#[test]
fn track_preferences_fit_the_preferred_cells() {
    let g = model();
    let mins = g.track_mins(Axis2D::X);
    assert_eq!(g.track_prefs(Axis2D::X, &mins), vec![5, 5]);
    let mut fixed = model();
    fixed.columns[1] = Track::auto().pref(9).max(6);
    assert_eq!(fixed.track_prefs(Axis2D::X, &[4, 4]), vec![5, 6]);
}

#[test]
fn track_items_pin_dragged_tracks() {
    let mut g = model();
    let items = g.track_items(Axis2D::X, &[4, 4], Some(&[5, 5]), &[]);
    assert_eq!(items.len(), 2);
    assert_eq!((items[0].basis, items[0].min, items[0].max, items[0].grow), (5, 4, 65535, 0));
    let items = g.track_items(Axis2D::X, &[4, 4], Some(&[5, 5]), &[Some(2)]);
    assert_eq!((items[0].basis, items[0].min, items[0].max), (4, 4, 4));
    assert_eq!(items[1].basis, 5);
    g.columns[1] = Track::auto().max(3).flex(2);
    let items = g.track_items(Axis2D::X, &[4, 4], Some(&[5, 5]), &[]);
    assert_eq!((items[1].basis, items[1].min, items[1].max, items[1].grow), (4, 4, 4, 2));
    g.rows[0] = Track::auto().pref(3);
    let rows: Vec<FlexItem> = g.track_items(Axis2D::Y, &[1, 4], None, &[]);
    assert_eq!((rows[0].basis, rows[1].basis), (3, 4));
}
