use tuie::cross_edges::{merge_cross_edges, EdgePiece};

fn piece(start: i32, end: i32, a: Option<usize>, b: Option<usize>) -> EdgePiece {
    EdgePiece { start, end, a, b }
}

#[test]
fn overlapping_edges_are_cut_where_either_ends() {
    let out = merge_cross_edges(&[(0, 5), (8, 10)], &[(3, 9)]);
    assert_eq!(
        out,
        vec![
            piece(0, 3, Some(0), None),
            piece(3, 5, Some(0), Some(0)),
            piece(5, 8, None, Some(0)),
            piece(8, 9, Some(1), Some(0)),
            piece(9, 10, Some(1), None),
        ]
    );
}

#[test]
fn gaps_between_edges_give_no_piece() {
    let out = merge_cross_edges(&[(0, 2)], &[(4, 6)]);
    assert_eq!(out, vec![piece(0, 2, Some(0), None), piece(4, 6, None, Some(0))]);
    assert_eq!(merge_cross_edges(&[], &[]), vec![]);
}

#[test]
fn the_first_covering_edge_of_a_side_is_taken() {
    let out = merge_cross_edges(&[(0, 4), (2, 6)], &[]);
    assert_eq!(
        out,
        vec![piece(0, 2, Some(0), None), piece(2, 4, Some(0), None), piece(4, 6, Some(1), None)]
    );
}
