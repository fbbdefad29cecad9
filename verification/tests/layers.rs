use dataflow_join::index::compact::CompactIndex;
use dataflow_join::index::edge_list::EdgeList;
use dataflow_join::index::unsorted::Unsorted;

fn sealed(batches: &[Vec<(u32, i32)>]) -> EdgeList {
    let mut list = EdgeList::new();
    for batch in batches {
        let position = list.position();
        for update in batch {
            list.push(*update);
        }
        list.seal_from(position);
    }
    list
}

#[test]
fn new_edge_list_is_empty() {
    let mut list = EdgeList::new();
    assert_eq!(list.count(), 0);
    assert_eq!(list.position(), 0);
    assert_eq!(list.proposals(), &[]);
}

#[test]
fn push_adds_to_the_count() {
    let mut list = EdgeList::new();
    list.push((5, 2));
    list.push((3, -1));
    assert_eq!(list.count(), 1);
    assert_eq!(list.position(), 2);
    list.seal_from(0);
    assert_eq!(list.count(), 1);
    assert_eq!(list.proposals(), &[(3, -1), (5, 2)]);
}

#[test]
fn seal_sorts_and_sums() {
    let mut list = sealed(&[vec![(7, 1), (2, 1), (7, 1), (4, 1), (2, -1)]]);
    assert_eq!(list.position(), 2);
    assert_eq!(list.count(), 3);
    assert_eq!(list.proposals(), &[(4, 1), (7, 2)]);
}

#[test]
fn seal_of_nothing_changes_nothing() {
    let mut list = sealed(&[vec![(1, 1), (2, 1)]]);
    let position = list.position();
    list.seal_from(position);
    assert_eq!(list.position(), 2);
    assert_eq!(list.proposals(), &[(1, 1), (2, 1)]);
}

#[test]
fn a_small_batch_stays_a_run_of_its_own() {
    let first: Vec<(u32, i32)> = (0..8).map(|v| (v, 1)).collect();
    let mut list = sealed(&[first, vec![(3, -1)]]);
    assert_eq!(list.position(), 9);
    assert_eq!(list.count(), 7);
    let mut counts = vec![0; 3];
    list.intersect(&[2, 3, 4], &mut counts);
    assert_eq!(counts, vec![1, 0, 1]);
    assert_eq!(list.proposals().len(), 7);
    assert_eq!(list.position(), 7);
}

#[test]
fn a_large_batch_is_merged_into_the_run_before() {
    let first: Vec<(u32, i32)> = (0..4).map(|v| (v, 1)).collect();
    let list = sealed(&[first, vec![(1, -1), (2, -1), (9, 1)]]);
    assert_eq!(list.position(), 3);
    assert_eq!(list.count(), 3);
}

#[test]
fn runs_of_an_edge_list_halve() {
    let mut list = EdgeList::new();
    let mut expected = 0;
    for round in 0..200u32 {
        let position = list.position();
        for k in 0..(round % 5 + 1) {
            list.push((1000 * round + k, 1));
            expected += 1;
        }
        list.seal_from(position);
        assert_eq!(list.position(), expected);
        assert_eq!(list.count(), expected as i32);
    }
    assert_eq!(list.proposals().len(), expected);
}

#[test]
fn expend_merges_once_the_effort_exceeds_the_entries() {
    let first: Vec<(u32, i32)> = (0..8).map(|v| (v, 1)).collect();
    let mut list = sealed(&[first, vec![(3, -1)]]);
    list.expend(4);
    assert_eq!(list.position(), 9);
    list.expend(5);
    assert_eq!(list.position(), 9);
    list.expend(1);
    assert_eq!(list.position(), 7);
    assert_eq!(list.count(), 7);
    list.expend(100);
    assert_eq!(list.position(), 7);
}

#[test]
fn intersect_counts_the_first_of_equal_values() {
    let list = sealed(&[vec![(1, 1), (3, 2), (5, -1)]]);
    let mut counts = vec![0; 6];
    list.intersect(&[0, 1, 3, 3, 5, 9], &mut counts);
    assert_eq!(counts, vec![0, 1, 2, 0, -1, 0]);
}

#[test]
fn intersect_helper_adds_to_the_counts() {
    let mut counts = vec![10, 20, 30];
    EdgeList::intersect_helper(&[1, 2, 3], &[(2, 5), (3, -30), (4, 1)], &mut counts);
    assert_eq!(counts, vec![10, 25, 0]);
}

#[test]
fn weights_wrap() {
    let mut list = sealed(&[vec![(1, i32::MAX), (1, 1), (2, i32::MIN), (2, -1)]]);
    assert_eq!(list.count(), -1);
    assert_eq!(list.proposals(), &[(1, i32::MIN), (2, i32::MAX)]);
}

#[test]
fn compact_index_finds_the_values_of_a_key() {
    let mut index = CompactIndex::new();
    index.load(6, vec![(1, 4), (1, 7), (3, 2), (8, 1), (8, 1), (8, 9)]);
    let mut cursor = 0;
    assert_eq!(index.values_from(&0, &mut cursor), &[]);
    assert_eq!(cursor, 0);
    assert_eq!(index.values_from(&1, &mut cursor), &[4, 7]);
    assert_eq!(cursor, 1);
    assert_eq!(index.values_from(&2, &mut cursor), &[]);
    assert_eq!(cursor, 1);
    assert_eq!(index.values_from(&8, &mut cursor), &[1, 1, 9]);
    assert_eq!(cursor, 3);
    assert_eq!(index.values_from(&9, &mut cursor), &[]);
    assert_eq!(cursor, 3);
}

#[test]
fn compact_index_does_not_look_behind_the_cursor() {
    let mut index = CompactIndex::new();
    index.load(3, vec![(1, 4), (3, 2), (8, 1)]);
    let mut cursor = 2;
    assert_eq!(index.values_from(&1, &mut cursor), &[]);
    assert_eq!(cursor, 2);
    assert_eq!(index.values_from(&8, &mut cursor), &[1]);
    assert_eq!(cursor, 3);
    let mut cursor = 7;
    assert_eq!(index.values_from(&8, &mut cursor), &[]);
    assert_eq!(cursor, 7);
}

#[test]
fn load_replaces_what_was_loaded() {
    let mut index = CompactIndex::new();
    index.load(2, vec![(1, 4), (3, 2)]);
    index.load(1, vec![(2, 5)]);
    let mut cursor = 0;
    assert_eq!(index.values_from(&1, &mut cursor), &[]);
    assert_eq!(index.values_from(&2, &mut cursor), &[5]);
}

#[test]
fn unsorted_sorts_by_key_and_value() {
    let mut buffer = Unsorted::new();
    let mut batch = vec![((3, 1), 1), ((1, 9), -1), ((3, 0), 1)];
    buffer.extend(4, &mut batch);
    assert!(batch.is_empty());
    buffer.extend(2, &mut vec![((1, 9), 5), ((2, 2), 1)]);
    assert_eq!(
        buffer.updates,
        vec![(1, 9, 4, -1), (1, 9, 2, 5), (2, 2, 2, 1), (3, 0, 4, 1), (3, 1, 4, 1)]
    );
}

#[test]
fn unsorted_finds_the_updates_of_a_key() {
    let mut buffer = Unsorted::new();
    buffer.extend(1, &mut vec![((3, 1), 1), ((1, 9), -1), ((3, 0), 1), ((7, 7), 1)]);
    let mut cursor = 0;
    assert_eq!(buffer.values_from(&0, &mut cursor), &[]);
    assert_eq!(cursor, 0);
    assert_eq!(buffer.values_from(&3, &mut cursor), &[(3, 0, 1, 1), (3, 1, 1, 1)]);
    assert_eq!(cursor, 3);
    assert_eq!(buffer.values_from(&5, &mut cursor), &[]);
    assert_eq!(cursor, 3);
    assert_eq!(buffer.values_from(&7, &mut cursor), &[(7, 7, 1, 1)]);
    assert_eq!(cursor, 4);
    assert_eq!(buffer.values_from(&9, &mut cursor), &[]);
    assert_eq!(cursor, 4);
}
