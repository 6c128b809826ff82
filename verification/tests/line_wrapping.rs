use tuie::flex::FlexItem;
use tuie::wrap_layout::{fit_line_cross, line_cross_sizes, resolve_lines, wrap_extent};
use tuie::wrap::wrap_lines;

#[test]
fn first_fit_opens_a_line_when_the_next_item_overflows() {
    assert_eq!(wrap_lines(&[3, 3, 3], 1, 7, false), vec![0, 2]);
    assert_eq!(wrap_lines(&[3, 1, 1, 1, 3], 0, 6, false), vec![0, 4]);
    assert_eq!(wrap_lines(&[1, 1], 0, 10, true), vec![0]);
    assert_eq!(wrap_lines(&[], 2, 10, true), vec![0]);
}

#[test]
fn an_oversized_item_gets_a_line_of_its_own() {
    assert_eq!(wrap_lines(&[2, 8, 1], 0, 6, false), vec![0, 1, 2]);
}

#[test]
fn first_fit_saturates_at_the_largest_size() {
    assert_eq!(wrap_lines(&[65535, 1], 0, 65535, false), vec![0]);
}

#[test]
fn balanced_breaking_evens_out_the_slack() {
    assert_eq!(wrap_lines(&[3, 1, 1, 1, 3], 0, 6, true), vec![0, 3]);
    assert_eq!(wrap_lines(&[3, 3, 3], 1, 7, true), vec![0, 2]);
}

#[test]
fn balanced_breaking_falls_back_to_first_fit_when_nothing_fits() {
    assert_eq!(wrap_lines(&[8, 1], 0, 6, true), vec![0, 1]);
}

fn line_widths(sizes: &[u16], gap: u16, starts: &[usize]) -> Vec<u32> {
    let mut out = Vec::new();
    for (k, &s) in starts.iter().enumerate() {
        let e = if k + 1 < starts.len() { starts[k + 1] } else { sizes.len() };
        let sum: u32 = sizes[s..e].iter().map(|&v| v as u32).sum();
        out.push(sum + (e - s - 1) as u32 * gap as u32);
    }
    out
}

#[test]
fn balanced_lines_all_fit_the_container() {
    let sizes = [2u16, 5, 1, 3, 3, 2, 4, 1];
    let starts = wrap_lines(&sizes, 1, 8, true);
    assert_eq!(starts[0], 0);
    assert!(starts.windows(2).all(|w| w[0] < w[1]));
    assert!(line_widths(&sizes, 1, &starts).iter().all(|&w| w <= 8));
}

#[test]
fn each_line_flexes_on_its_own() {
    let mut items = vec![
        FlexItem::new(4, 0, 100, 1),
        FlexItem::new(4, 0, 100, 1),
        FlexItem::new(6, 0, 100, 1),
    ];
    resolve_lines(&mut items, &[0, 2], 10, 1);
    let t: Vec<u16> = items.iter().map(|i| i.target).collect();
    assert_eq!(t, vec![5, 4, 10]);
}

#[test]
fn lines_take_their_tallest_item() {
    assert_eq!(line_cross_sizes(&[1, 3, 2, 5], &[0, 2]), vec![3, 5]);
    assert_eq!(line_cross_sizes(&[], &[0]), vec![0]);
}

#[test]
fn items_fit_their_line_across() {
    assert_eq!(fit_line_cross(true, 6, 0, 4, 2), 4);
    assert_eq!(fit_line_cross(true, 6, 0, 10, 2), 6);
    assert_eq!(fit_line_cross(false, 6, 0, 10, 2), 2);
    assert_eq!(fit_line_cross(false, 6, 0, 10, 8), 6);
    assert_eq!(fit_line_cross(false, 6, 3, 10, 1), 3);
}

#[test]
fn wrapped_extent_is_widest_line_by_stacked_lines() {
    assert_eq!(wrap_extent(&[5, 4, 10], &[0, 2], &[3, 5], 1, 2), (10, 10));
    assert_eq!(wrap_extent(&[], &[0], &[0], 1, 2), (0, 0));
}

fn squared_slack(sizes: &[u16], gap: u16, container: u16, starts: &[usize]) -> u64 {
    line_widths(sizes, gap, starts)
        .iter()
        .map(|&w| {
            let slack = container as u64 - w as u64;
            slack * slack
        })
        .sum()
}

#[test]
fn balanced_breaking_costs_no_more_than_any_fitting_breaking() {
    let sizes = [6, 3, 3, 6];
    let balanced = wrap_lines(&sizes, 0, 12, true);
    assert_eq!(balanced, vec![0, 2]);
    let best = squared_slack(&sizes, 0, 12, &balanced);
    assert_eq!(best, 18);
    for other in [vec![0, 3], vec![0, 1], vec![0, 1, 2], vec![0, 2, 3], vec![0, 1, 2, 3]] {
        assert!(best <= squared_slack(&sizes, 0, 12, &other));
    }
    assert_eq!(wrap_lines(&sizes, 0, 12, false), vec![0, 3]);
}
