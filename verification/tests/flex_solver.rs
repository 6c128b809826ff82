use tuie::flex::{resolve, AsFlexItem, FlexItem, Flexibility};

fn targets(items: &[FlexItem]) -> Vec<u16> {
    items.iter().map(|i| i.target).collect()
}

#[test]
fn new_item_starts_open_with_zero_target() {
    let it = FlexItem::new(5, 1, 9, 2);
    assert_eq!((it.basis, it.min, it.max, it.grow, it.target), (5, 1, 9, 2, 0));
    assert_eq!(it.flex.0, Flexibility::FLEXIBLE);
    assert!(!it.flex.is_locked());
    assert!(Flexibility(Flexibility::RIGID).is_locked());
}

#[test]
fn grow_splits_free_space_by_weight() {
    let mut items = [FlexItem::new(10, 0, 100, 1), FlexItem::new(10, 0, 100, 1)];
    resolve(&mut items, 40, 0);
    assert_eq!(targets(&items), vec![20, 20]);
    assert!(items.iter().all(|i| i.flex.is_locked()));
}

#[test]
fn grow_respects_max_and_redistributes() {
    let mut items = [FlexItem::new(10, 0, 15, 1), FlexItem::new(10, 0, 100, 1)];
    resolve(&mut items, 40, 0);
    assert_eq!(targets(&items), vec![15, 25]);
}

#[test]
fn zero_weight_item_stays_at_basis_when_growing() {
    let mut items = [FlexItem::new(5, 0, 100, 0), FlexItem::new(5, 0, 100, 1)];
    resolve(&mut items, 20, 0);
    assert_eq!(targets(&items), vec![5, 15]);
}

#[test]
fn shrink_takes_deficit_in_proportion_to_basis() {
    let mut items = [FlexItem::new(30, 0, 100, 0), FlexItem::new(10, 0, 100, 0)];
    resolve(&mut items, 20, 0);
    assert_eq!(targets(&items), vec![15, 5]);
}

#[test]
fn gaps_are_taken_out_of_free_space() {
    let mut items = [FlexItem::new(0, 0, 100, 1), FlexItem::new(0, 0, 100, 1)];
    resolve(&mut items, 10, 2);
    assert_eq!(targets(&items), vec![4, 4]);
}

#[test]
fn shrink_respects_min() {
    let mut items = [FlexItem::new(30, 25, 100, 0), FlexItem::new(10, 0, 100, 0)];
    resolve(&mut items, 20, 0);
    assert_eq!(targets(&items), vec![25, 0]);
    assert!(items.iter().all(|i| i.flex.is_locked()));
}

#[test]
fn empty_slice_is_left_alone() {
    let mut items: [FlexItem; 0] = [];
    resolve(&mut items, 10, 0);
    assert!(items.is_empty());
}

#[test]
fn flex_item_access_through_the_trait() {
    let mut it = FlexItem::new(4, 0, 9, 1);
    assert_eq!(it.flex_item().basis, 4);
    it.flex_item_mut().target = 7;
    assert_eq!(it.target, 7);
}

#[test]
fn every_resolved_target_stays_within_its_bounds() {
    // A small deterministic sweep over mixed bounds, weights, containers and gaps.
    let mut seed: u32 = 12345;
    let mut next = move |m: u32| {
        seed = seed.wrapping_mul(1103515245).wrapping_add(12345);
        (seed >> 8) % m
    };
    for _ in 0..400 {
        let n = 1 + next(6) as usize;
        let mut items = Vec::new();
        for _ in 0..n {
            let a = next(200) as u16;
            let b = next(200) as u16;
            let (min, max) = if a <= b { (a, b) } else { (b, a) };
            items.push(FlexItem::new(next(220) as u16, min, max, next(4) as u8));
        }
        let container = next(900) as u16;
        let gap = next(40);
        let hyp: Vec<u16> = items.iter().map(|it| it.basis.max(it.min).min(it.max)).collect();
        let growing = hyp.iter().map(|&h| h as u32).sum::<u32>() + gap < container as u32;
        let mins: u32 = items.iter().map(|it| it.min as u32).sum();
        let reach: u32 = items
            .iter()
            .zip(hyp.iter())
            .map(|(it, &h)| if it.grow > 0 { it.max as u32 } else { h as u32 })
            .sum();
        resolve(&mut items, container, gap);
        let total = items.iter().map(|it| it.target as u32).sum::<u32>() + gap;
        if growing {
            assert!(total <= container as u32);
            if reach + gap >= container as u32 {
                assert_eq!(total, container as u32);
            }
        } else if mins + gap <= container as u32 {
            assert_eq!(total, container as u32);
        }
        for (it, &h) in items.iter().zip(hyp.iter()) {
            assert!(it.flex.is_locked());
            assert!(it.min <= it.target && it.target <= it.max);
            if growing {
                assert!(it.target >= h);
            } else {
                assert!(it.target <= h);
            }
        }
    }
}

#[test]
fn flexing_items_fill_the_container_exactly() {
    let mut grow = [FlexItem::new(10, 0, 100, 1), FlexItem::new(10, 0, 100, 2)];
    resolve(&mut grow, 50, 2);
    assert_eq!(targets(&grow).iter().sum::<u16>() + 2, 50);
    let mut shrink = [FlexItem::new(30, 5, 100, 1), FlexItem::new(30, 5, 100, 1)];
    resolve(&mut shrink, 40, 0);
    assert_eq!(targets(&shrink), vec![20, 20]);
    let mut rigid = [FlexItem::new(10, 0, 100, 0), FlexItem::new(10, 0, 100, 0)];
    resolve(&mut rigid, 50, 0);
    assert_eq!(targets(&rigid), vec![10, 10]);
}

#[test]
fn many_growing_items_share_the_whole_container() {
    let mut items: Vec<FlexItem> = (0..40_000).map(|_| FlexItem::new(0, 0, u16::MAX, 1)).collect();
    resolve(&mut items, 60_000, 0);
    let total: u32 = items.iter().map(|it| it.target as u32).sum();
    assert_eq!(total, 60_000);
    assert!(items.iter().all(|it| it.target <= 2));
}

#[test]
fn frozen_items_keep_their_clamped_basis_and_only_targets_change() {
    let mut items = vec![
        FlexItem::new(10, 0, 100, 0),
        FlexItem::new(50, 0, 30, 2),
        FlexItem::new(5, 0, 100, 1),
    ];
    let before = items.clone();
    resolve(&mut items, 200, 0);
    assert_eq!(items[0].target, 10);
    assert_eq!(items[1].target, 30);
    assert_eq!(items[2].target, 100);
    for (a, b) in before.iter().zip(items.iter()) {
        assert_eq!((a.basis, a.min, a.max, a.grow), (b.basis, b.min, b.max, b.grow));
    }

    let mut shrinking = vec![FlexItem::new(5, 20, 40, 1), FlexItem::new(60, 0, 100, 1)];
    resolve(&mut shrinking, 50, 0);
    assert_eq!(shrinking[0].target, 20);
    assert_eq!(shrinking[1].target, 30);
}

#[test]
fn many_shrinking_items_with_a_small_deficit_are_solved() {
    let mut items: Vec<FlexItem> = (0..40_000).map(|_| FlexItem::new(1, 0, 10, 1)).collect();
    resolve(&mut items, 0, 0);
    assert!(items.iter().all(|it| it.target == 0));
    let mut half: Vec<FlexItem> = (0..40_000).map(|_| FlexItem::new(2, 0, 10, 1)).collect();
    resolve(&mut half, 40_000, 0);
    let total: u32 = half.iter().map(|it| it.target as u32).sum();
    assert_eq!(total, 40_000);
}
