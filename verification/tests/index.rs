use dataflow_join::index::{Index, Visible};

fn key_of(prefix: &u32) -> u32 {
    *prefix
}

fn proposals(index: &mut Index, key: u32, valid: Visible) -> Vec<u32> {
    let mut data = vec![(key, Vec::new(), 1)];
    index.propose(&mut data, &key_of, &valid);
    assert_eq!(data.len(), 1);
    assert_eq!(data[0].0, key);
    assert_eq!(data[0].2, 1);
    data.pop().unwrap().1
}

fn estimate(index: &Index, key: u32) -> u64 {
    let mut data = vec![(key, u64::MAX, 0, 1)];
    index.count(&mut data, &key_of, &Visible::up_to(0), 7);
    assert_eq!(data[0].2, 7);
    data[0].1
}

fn filtered(index: &mut Index, key: u32, list: Vec<u32>, valid: Visible) -> Vec<u32> {
    let mut data = vec![(key, list, -3)];
    index.intersect(&mut data, &key_of, &valid);
    assert_eq!(data[0].2, -3);
    data.pop().unwrap().1
}

fn k4() -> Index {
    let mut index = Index::new();
    let mut batches = vec![
        vec![(0, 1), (0, 2), (0, 3)],
        vec![(1, 2), (1, 3), (2, 3)],
    ];
    index.initialize(&mut batches);
    assert!(batches.is_empty());
    index
}

#[test]
fn empty_index_proposes_nothing() {
    let mut index = Index::new();
    assert_eq!(proposals(&mut index, 3, Visible::up_to(10)), Vec::<u32>::new());
    assert_eq!(estimate(&index, 3), 0);
    assert_eq!(filtered(&mut index, 3, vec![1, 2, 3], Visible::up_to(10)), Vec::<u32>::new());
}

#[test]
fn base_is_proposed_in_order() {
    let mut index = k4();
    assert_eq!(proposals(&mut index, 0, Visible::up_to(0)), vec![1, 2, 3]);
    assert_eq!(proposals(&mut index, 1, Visible::up_to(0)), vec![2, 3]);
    assert_eq!(proposals(&mut index, 2, Visible::up_to(0)), vec![3]);
    assert_eq!(proposals(&mut index, 3, Visible::up_to(0)), Vec::<u32>::new());
}

#[test]
fn count_agrees_with_propose_on_static_data() {
    let mut index = k4();
    for key in 0..5 {
        let proposed = proposals(&mut index, key, Visible::up_to(100));
        assert_eq!(estimate(&index, key), proposed.len() as u64);
    }
}

#[test]
fn count_keeps_a_smaller_count() {
    let index = k4();
    let mut data = vec![(0u32, 2u64, 9u64, 1), (1, 5, 9, -1), (2, 1, 9, 1), (0, 3, 8, 1)];
    index.count(&mut data, &key_of, &Visible::up_to(0), 4);
    data.sort();
    assert_eq!(data, vec![(0, 2, 9, 1), (0, 3, 8, 1), (1, 2, 4, -1), (2, 1, 9, 1)]);
}

#[test]
fn count_sorts_rows_by_key() {
    let index = k4();
    let mut data = vec![(2u32, 0u64, 0u64, 1), (0, 0, 0, 1), (1, 0, 0, 1), (0, 0, 0, 2)];
    index.count(&mut data, &key_of, &Visible::up_to(0), 4);
    let keys: Vec<u32> = data.iter().map(|row| row.0).collect();
    assert_eq!(keys, vec![0, 0, 1, 2]);
}

#[test]
fn propose_appends_to_each_row_of_a_key() {
    let mut index = k4();
    let mut data = vec![(1u32, vec![9u32], 1), (0, vec![], 2), (1, vec![], 3)];
    index.propose(&mut data, &key_of, &Visible::up_to(0));
    data.sort();
    assert_eq!(data, vec![(0, vec![1, 2, 3], 2), (1, vec![2, 3], 3), (1, vec![9, 2, 3], 1)]);
}

#[test]
fn updates_are_seen_by_their_time() {
    let mut index = Index::new();
    index.update(5, &mut vec![((1, 7), 1), ((1, 3), 1), ((2, 4), 1)]);
    assert_eq!(proposals(&mut index, 1, Visible::before(5)), Vec::<u32>::new());
    assert_eq!(proposals(&mut index, 1, Visible::up_to(5)), vec![3, 7]);
    assert_eq!(proposals(&mut index, 1, Visible::before(6)), vec![3, 7]);
    assert_eq!(proposals(&mut index, 2, Visible::up_to(9)), vec![4]);
    assert_eq!(proposals(&mut index, 2, Visible::up_to(4)), Vec::<u32>::new());
}

#[test]
fn update_drains_the_batch() {
    let mut index = Index::new();
    let mut batch = vec![((1, 7), 1), ((1, 3), 1)];
    index.update(5, &mut batch);
    assert!(batch.is_empty());
}

#[test]
fn deletion_cancels_a_base_value() {
    let mut index = k4();
    index.update(2, &mut vec![((0, 2), -1)]);
    assert_eq!(proposals(&mut index, 0, Visible::up_to(1)), vec![1, 2, 3]);
    assert_eq!(proposals(&mut index, 0, Visible::up_to(2)), vec![1, 3]);
    index.merge_to(&2);
    assert_eq!(proposals(&mut index, 0, Visible::up_to(2)), vec![1, 3]);
    assert_eq!(proposals(&mut index, 0, Visible::before(9)), vec![1, 3]);
}

#[test]
fn a_weight_of_two_is_proposed_twice() {
    let mut index = Index::new();
    index.update(1, &mut vec![((4, 6), 2), ((4, 5), 1)]);
    assert_eq!(proposals(&mut index, 4, Visible::up_to(1)), vec![5, 6, 6]);
    index.update(2, &mut vec![((4, 6), 1)]);
    assert_eq!(proposals(&mut index, 4, Visible::up_to(2)), vec![5, 6, 6, 6]);
    index.merge_to(&1);
    assert_eq!(proposals(&mut index, 4, Visible::up_to(2)), vec![5, 6, 6, 6]);
    assert_eq!(proposals(&mut index, 4, Visible::before(2)), vec![5, 6, 6]);
}

#[test]
fn count_over_estimates_with_timed_updates() {
    let mut index = k4();
    index.update(3, &mut vec![((0, 9), 1), ((0, 1), -1)]);
    assert_eq!(estimate(&index, 0), 5);
    assert_eq!(proposals(&mut index, 0, Visible::up_to(3)), vec![2, 3, 9]);
    index.merge_to(&3);
    assert_eq!(estimate(&index, 0), 3);
    assert_eq!(proposals(&mut index, 0, Visible::up_to(3)), vec![2, 3, 9]);
}

#[test]
fn intersect_keeps_what_the_index_holds() {
    let mut index = k4();
    index.update(1, &mut vec![((0, 5), 1), ((0, 2), -1)]);
    assert_eq!(filtered(&mut index, 0, vec![1, 2, 3, 4, 5], Visible::up_to(0)), vec![1, 2, 3]);
    assert_eq!(filtered(&mut index, 0, vec![1, 2, 3, 4, 5], Visible::up_to(1)), vec![1, 3, 5]);
    index.merge_to(&1);
    assert_eq!(filtered(&mut index, 0, vec![1, 2, 3, 4, 5], Visible::up_to(1)), vec![1, 3, 5]);
    assert_eq!(filtered(&mut index, 0, vec![], Visible::up_to(1)), Vec::<u32>::new());
}

#[test]
fn intersect_keeps_the_first_of_equal_extensions() {
    let mut index = k4();
    assert_eq!(filtered(&mut index, 0, vec![1, 1, 3, 3, 3], Visible::up_to(0)), vec![1, 3]);
}

#[test]
fn intersect_twice_is_intersect_once() {
    let mut index = k4();
    index.update(1, &mut vec![((1, 8), 1), ((1, 3), -1)]);
    index.merge_to(&0);
    let once = filtered(&mut index, 1, vec![2, 2, 3, 8, 9], Visible::up_to(1));
    assert_eq!(once, vec![2, 8]);
    let twice = filtered(&mut index, 1, once.clone(), Visible::up_to(1));
    assert_eq!(twice, once);
}

#[test]
fn merge_to_keeps_later_answers() {
    let mut merged = Index::new();
    let mut plain = Index::new();
    for index in [&mut merged, &mut plain] {
        index.update(1, &mut vec![((0, 1), 1), ((0, 2), 1)]);
        index.update(2, &mut vec![((0, 1), -1), ((0, 3), 1)]);
        index.update(3, &mut vec![((0, 4), 1), ((1, 1), 1)]);
    }
    merged.merge_to(&2);
    for time in 2..6 {
        for key in 0..3 {
            let valid = Visible::up_to(time);
            assert_eq!(proposals(&mut merged, key, valid), proposals(&mut plain, key, valid));
        }
    }
    assert_eq!(proposals(&mut merged, 0, Visible::up_to(3)), vec![2, 3, 4]);
}

#[test]
fn merge_to_before_every_update_changes_nothing() {
    let mut merged = Index::new();
    let mut plain = Index::new();
    for index in [&mut merged, &mut plain] {
        index.update(5, &mut vec![((0, 1), 1), ((0, 2), 1)]);
        index.update(7, &mut vec![((0, 1), -1), ((0, 3), 1)]);
    }
    merged.merge_to(&4);
    for time in 7..10 {
        let valid = Visible::up_to(time);
        assert_eq!(proposals(&mut merged, 0, valid), proposals(&mut plain, 0, valid));
        assert_eq!(estimate(&merged, 0), estimate(&plain, 0));
    }
    assert_eq!(proposals(&mut merged, 0, Visible::up_to(7)), vec![2, 3]);
}

#[test]
fn many_merges_keep_the_weights() {
    let mut index = Index::new();
    for time in 0..200u64 {
        let value = (time * 7 % 31) as u32;
        index.update(time, &mut vec![((1, value), 1), ((1, value + 100), 1)]);
        if time % 3 == 0 {
            index.update(time, &mut vec![((1, value + 100), -1)]);
        }
        index.merge_to(&time);
    }
    let proposed = proposals(&mut index, 1, Visible::up_to(1000));
    let mut expected = Vec::new();
    for value in 0..200u32 {
        let mut weight = 0;
        for time in 0..200u64 {
            let at = (time * 7 % 31) as u32;
            if at == value {
                weight += 1;
            }
            if at + 100 == value && time % 3 != 0 {
                weight += 1;
            }
        }
        for _ in 0..weight {
            expected.push(value);
        }
    }
    assert_eq!(proposed, expected);
    assert_eq!(estimate(&index, 1), expected.len() as u64);
}
