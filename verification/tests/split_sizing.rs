use tuie::split::{
    child_offsets, container_max, container_min, container_preferred, distribute_main,
    divider_offset, gap_between, hits_boundary, leaf_max, leaf_min, leaf_preferred,
    removal_donation, total_gap, SplitSizing,
};
use tuie::split_resize::{reinforce_mins, same_axis_deltas};

fn child(size: u16, min: u16, max: u16, preferred: u16, flex: u8) -> SplitSizing {
    SplitSizing { size, min, max, preferred, flex, borderless: false }
}

#[test]
fn gaps_vanish_between_borderless_neighbours() {
    let mut a = child(1, 0, 10, u16::MAX, 1);
    let mut b = a;
    let c = a;
    a.borderless = true;
    b.borderless = true;
    assert_eq!(gap_between(&a, &b, 2), 0);
    assert_eq!(gap_between(&b, &c, 2), 2);
    assert_eq!(total_gap(&[a, b, c], 2), 2);
    assert_eq!(total_gap(&[a], 2), 0);
    assert_eq!(total_gap(&[], 2), 0);
    assert_eq!(total_gap(&[c, c, c], 40000), u16::MAX);
}

#[test]
fn distribution_grows_children_by_flex() {
    let kids = [child(0, 0, 100, 10, 1), child(0, 0, 100, 10, 1)];
    assert_eq!(distribute_main(&kids, 30, 0), vec![15, 15]);
}

#[test]
fn distribution_trims_minimums_that_overflow() {
    let kids = [child(0, 20, 100, u16::MAX, 1), child(0, 20, 100, u16::MAX, 1)];
    assert_eq!(distribute_main(&kids, 30, 0), vec![15, 15]);
}

#[test]
fn trimming_takes_the_last_cell_by_largest_remainder() {
    let kids = [child(0, 7, 7, u16::MAX, 1), child(0, 7, 7, u16::MAX, 1), child(0, 7, 7, u16::MAX, 1)];
    let r = distribute_main(&kids, 20, 0);
    assert_eq!(r.iter().map(|&v| v as u32).sum::<u32>(), 20);
    assert_eq!(r, vec![6, 7, 7]);
}

#[test]
fn distribution_leaves_room_for_gaps() {
    let kids = [child(0, 0, 100, u16::MAX, 1), child(0, 0, 100, u16::MAX, 1)];
    assert_eq!(distribute_main(&kids, 21, 1), vec![10, 10]);
}

#[test]
fn no_change_when_sizes_already_fit() {
    let kids = [child(10, 0, 100, u16::MAX, 1), child(10, 0, 100, u16::MAX, 1)];
    assert_eq!(same_axis_deltas(&kids, 20, 0), None);
}

#[test]
fn growth_without_flex_is_refused() {
    let kids = [child(10, 0, 100, u16::MAX, 0), child(10, 0, 100, u16::MAX, 0)];
    assert_eq!(same_axis_deltas(&kids, 30, 0), None);
}

#[test]
fn growth_is_shared_by_flex() {
    let kids = [child(10, 0, 100, u16::MAX, 1), child(10, 0, 100, u16::MAX, 1)];
    assert_eq!(same_axis_deltas(&kids, 30, 0), Some(vec![5, 5]));
    let weighted = [child(10, 0, 100, u16::MAX, 3), child(10, 0, 100, u16::MAX, 1)];
    assert_eq!(same_axis_deltas(&weighted, 30, 0), Some(vec![8, 2]));
}

#[test]
fn preferences_are_served_first() {
    let kids = [child(10, 0, 100, 12, 1), child(10, 0, 100, u16::MAX, 1)];
    assert_eq!(same_axis_deltas(&kids, 30, 0), Some(vec![6, 4]));
}

#[test]
fn growth_respects_maximums() {
    let kids = [child(10, 0, 11, u16::MAX, 1), child(10, 0, 100, u16::MAX, 1)];
    assert_eq!(same_axis_deltas(&kids, 30, 0), Some(vec![1, 9]));
}

#[test]
fn shrinking_is_shared_by_size() {
    let kids = [child(30, 0, 100, u16::MAX, 1), child(10, 0, 100, u16::MAX, 1)];
    assert_eq!(same_axis_deltas(&kids, 20, 0), Some(vec![-15, -5]));
}

#[test]
fn shrinking_past_minimums_takes_from_everyone() {
    let kids = [child(10, 8, 100, u16::MAX, 1), child(10, 8, 100, u16::MAX, 1)];
    assert_eq!(same_axis_deltas(&kids, 10, 0), Some(vec![-5, -5]));
}

#[test]
fn gaps_count_against_the_parent() {
    let kids = [child(5, 0, 100, u16::MAX, 1), child(5, 0, 100, u16::MAX, 1)];
    assert_eq!(same_axis_deltas(&kids, 12, 1), Some(vec![1, 0]));
}

#[test]
fn resize_deltas_conserve_the_change() {
    let mut seed: u32 = 777;
    let mut next = move |m: u32| {
        seed = seed.wrapping_mul(1664525).wrapping_add(1013904223);
        (seed >> 8) % m
    };
    for _ in 0..500 {
        let n = 1 + next(5) as usize;
        let mut kids = Vec::new();
        for _ in 0..n {
            let size = next(60) as u16;
            let min = next(30) as u16;
            let max = min + next(80) as u16;
            let preferred = if next(3) == 0 { u16::MAX } else { next(90) as u16 };
            let mut c = child(size, min, max, preferred, next(3) as u8);
            c.borderless = next(2) == 0;
            kids.push(c);
        }
        let parent = next(400) as u16;
        let gap = next(3) as u16;
        let current: i32 = kids.iter().map(|c| c.size as i32).sum();
        let target = parent.saturating_sub(total_gap(&kids, gap)) as i32;
        let net = target - current;
        match same_axis_deltas(&kids, parent, gap) {
            None => assert!(net == 0 || (net > 0 && kids.iter().all(|c| c.flex == 0))),
            Some(d) => {
                let sum: i32 = d.iter().sum();
                if net > 0 {
                    assert!(sum <= net);
                    for (c, &v) in kids.iter().zip(d.iter()) {
                        assert!(v >= 0 && v as i32 <= c.max.saturating_sub(c.size) as i32);
                    }
                } else {
                    assert!(d.iter().all(|&v| v <= 0));
                    if current > 0 {
                        assert_eq!(sum, net);
                    }
                }
            }
        }
        let sizes = distribute_main(&kids, parent, gap);
        let room = parent.saturating_sub(total_gap(&kids, gap)) as u32;
        assert!(sizes.iter().map(|&v| v as u32).sum::<u32>() <= room);
        for (c, &v) in kids.iter().zip(sizes.iter()) {
            assert!(v <= c.max);
        }
    }
}

#[test]
fn container_bounds_add_up_along_the_axis() {
    let kids = [child(0, 3, 10, u16::MAX, 1), child(0, 5, 20, 7, 1)];
    assert_eq!(container_min(true, &kids, 1), 9);
    assert_eq!(container_max(true, &kids, 1), 31);
    assert_eq!(container_min(false, &kids, 1), 5);
    assert_eq!(container_max(false, &kids, 1), 10);
    assert_eq!(container_min(false, &[], 1), 1);
    assert_eq!(container_max(false, &[], 1), u16::MAX);
    let huge = [child(0, 40000, 40000, u16::MAX, 1), child(0, 40000, 40000, u16::MAX, 1)];
    assert_eq!(container_min(true, &huge, 1), u16::MAX);
}

#[test]
fn container_preference_combines_children() {
    let kids = [child(0, 3, 10, u16::MAX, 1), child(0, 5, 20, 7, 1)];
    assert_eq!(container_preferred(true, &kids, 1, None), 11);
    assert_eq!(container_preferred(false, &kids, 1, None), 7);
    assert_eq!(container_preferred(true, &kids, 1, Some(4)), 4);
    let none = [child(0, 3, 10, u16::MAX, 1)];
    assert_eq!(container_preferred(true, &none, 1, None), u16::MAX);
}

#[test]
fn leaf_bounds_include_padding() {
    assert_eq!(leaf_min(0, None, 2), 3);
    assert_eq!(leaf_min(4, Some(6), 2), 8);
    assert_eq!(leaf_min(u16::MAX, None, 2), u16::MAX);
    assert_eq!(leaf_max(10, 2), 12);
    assert_eq!(leaf_preferred(u16::MAX, 2, None), u16::MAX);
    assert_eq!(leaf_preferred(5, 2, None), 7);
    assert_eq!(leaf_preferred(5, 2, Some(9)), 9);
}

#[test]
fn reinforcement_lifts_children_to_their_minimum() {
    let mut kids = [child(2, 5, 100, u16::MAX, 1), child(10, 4, 100, u16::MAX, 1)];
    reinforce_mins(&mut kids);
    assert_eq!((kids[0].size, kids[1].size), (5, 7));
    let mut tight = [child(2, 5, 100, u16::MAX, 1), child(5, 4, 100, u16::MAX, 1), child(6, 4, 100, u16::MAX, 1)];
    reinforce_mins(&mut tight);
    assert_eq!((tight[0].size, tight[1].size, tight[2].size), (5, 4, 4));
    let mut stuck = [child(2, 5, 100, u16::MAX, 1), child(4, 4, 100, u16::MAX, 1)];
    reinforce_mins(&mut stuck);
    assert_eq!((stuck[0].size, stuck[1].size), (2, 4));
}

#[test]
fn offsets_step_over_sizes_and_gaps() {
    let mut kids = [child(3, 0, 10, u16::MAX, 1), child(4, 0, 10, u16::MAX, 1), child(5, 0, 10, u16::MAX, 1)];
    assert_eq!(child_offsets(&kids, 1, 10), vec![10, 14, 19]);
    assert_eq!(divider_offset(&kids, 1, 10, 0), 13);
    assert_eq!(divider_offset(&kids, 1, 10, 1), 18);
    kids[0].borderless = true;
    kids[1].borderless = true;
    assert_eq!(child_offsets(&kids, 1, 0), vec![0, 3, 8]);
}

#[test]
fn removed_space_goes_to_a_neighbour() {
    let kids = [child(3, 0, 10, u16::MAX, 1), child(4, 0, 10, u16::MAX, 1), child(5, 0, 10, u16::MAX, 1)];
    assert_eq!(removal_donation(&kids, 0, 1), Some((1, 4)));
    assert_eq!(removal_donation(&kids, 2, 1), Some((1, 6)));
    assert_eq!(removal_donation(&kids[..1], 0, 1), None);
}

#[test]
fn divider_hits_follow_the_draggable_side() {
    assert!(hits_boundary(10, 0, 5, 1, false, false, 10, 3));
    assert!(!hits_boundary(10, 0, 5, 1, true, true, 9, 3));
    assert!(hits_boundary(10, 0, 5, 0, true, true, 9, 3));
    assert!(hits_boundary(10, 0, 5, 0, true, false, 9, -1));
    assert!(!hits_boundary(10, 0, 5, 0, true, false, 10, 3));
    assert!(hits_boundary(10, 0, 5, 0, false, true, 10, 5));
    assert!(!hits_boundary(10, 0, 5, 0, false, false, 10, 3));
    assert!(!hits_boundary(10, 0, 5, 1, false, false, 10, 6));
}

#[test]
fn reinforcement_keeps_the_total() {
    let mut seed: u32 = 4242;
    let mut next = move |m: u32| {
        seed = seed.wrapping_mul(1664525).wrapping_add(1013904223);
        (seed >> 8) % m
    };
    for _ in 0..300 {
        let n = 1 + next(5) as usize;
        let mut kids: Vec<SplitSizing> =
            (0..n).map(|_| child(next(30) as u16, next(20) as u16, 100, u16::MAX, 1)).collect();
        let before = kids.clone();
        reinforce_mins(&mut kids);
        let sum = |v: &[SplitSizing]| v.iter().map(|c| c.size as u32).sum::<u32>();
        assert_eq!(sum(&kids), sum(&before));
        for (o, c) in before.iter().zip(kids.iter()) {
            if o.size >= o.min {
                assert!(c.size >= c.min);
            }
        }
        if let Some(needy) = kids.iter().position(|c| c.size < c.min) {
            for (j, c) in kids.iter().enumerate() {
                if j != needy {
                    assert!(c.size <= c.min);
                }
            }
        }
    }
}
