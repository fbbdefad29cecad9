use dataflow_join::advance;
use dataflow_join::graph::gallop;
use dataflow_join::naive::{gallop_ge, gallop_gt, intersect_and};

#[test]
fn advance_counts_the_leading_elements() {
    let values: Vec<u32> = (0..1000).collect();
    for bound in [0u32, 1, 2, 3, 7, 8, 9, 500, 999, 1000, 2000] {
        let count = advance(&values, |x| *x < bound);
        assert_eq!(count, bound.min(1000) as usize);
    }
    assert_eq!(advance(&Vec::<u32>::new(), |x| *x < 5), 0);
    assert_eq!(advance(&[3u32], |x| *x < 5), 1);
    assert_eq!(advance(&[3u32], |x| *x < 3), 0);
}

#[test]
fn advance_steps_over_equal_elements() {
    let values = [1u32, 1, 1, 2, 2, 5, 5, 5, 5, 9];
    assert_eq!(advance(&values, |x| *x <= 1), 3);
    assert_eq!(advance(&values, |x| *x < 5), 5);
    assert_eq!(advance(&values, |x| *x <= 5), 9);
    assert_eq!(advance(&values, |x| *x <= 9), 10);
}

#[test]
fn gallop_stops_at_the_first_value_not_below() {
    let values = [1u32, 3, 3, 4, 8, 20];
    assert_eq!(gallop(&values, &0), &values[..]);
    assert_eq!(gallop(&values, &3), &values[1..]);
    assert_eq!(gallop(&values, &5), &values[4..]);
    assert_eq!(gallop(&values, &21), &values[6..]);
    assert_eq!(gallop_ge(&values, &3), &values[1..]);
    assert_eq!(gallop_ge(&values, &9), &values[5..]);
    assert_eq!(gallop_gt(&values, &3), &values[3..]);
    assert_eq!(gallop_gt(&values, &0), &values[..]);
    assert_eq!(gallop_gt(&values, &20), &values[6..]);
}

#[test]
fn intersect_and_keeps_what_both_hold() {
    let small = [2u32, 5, 9];
    let large: Vec<u32> = (0..100).filter(|x| x % 3 == 2).collect();
    assert_eq!(intersect_and(&small, &large), vec![2, 5]);
    assert_eq!(intersect_and(&large, &small), vec![2, 5]);
    assert_eq!(intersect_and(&[1, 2, 3, 4], &[2, 4, 6, 8]), vec![2, 4]);
    assert_eq!(intersect_and(&[], &[2, 4, 6, 8]), Vec::<u32>::new());
}
