use dataflow_join::extend;
use dataflow_join::extender::merge_sorter::{MergeSorter, VecQueue};
use dataflow_join::extender::{is_absorbed, IndexExtender, IndexStream, Stash, PROPOSE_EFFORT};
use dataflow_join::index::{Index, Visible};
use dataflow_join::join::Extender;

fn first(prefix: &Vec<u32>) -> u32 {
    prefix[0]
}

fn forward_and_reverse(edges: &[(u32, u32)]) -> Vec<Index> {
    let mut forward = Index::new();
    let mut reverse = Index::new();
    forward.update(0, &mut edges.iter().map(|(s, d)| ((*s, *d), 1)).collect());
    reverse.update(0, &mut edges.iter().map(|(s, d)| ((*d, *s), 1)).collect());
    vec![forward, reverse]
}

#[test]
fn no_extender_extends_nothing() {
    let mut indices = forward_and_reverse(&[(0, 1)]);
    let out = extend(&mut indices, vec![(vec![0u32], 1)], &[], 5);
    assert!(out.is_empty());
}

#[test]
fn a_single_extender_proposes() {
    let mut indices = forward_and_reverse(&[(0, 1), (0, 2), (1, 2)]);
    let forward = Extender { source: 0, attribute: 0, inclusive: true };
    let mut out = extend(&mut indices, vec![(vec![1u32], 5), (vec![0], -1), (vec![2], 1)], &[forward], 5);
    out.sort();
    assert_eq!(out, vec![(vec![0], vec![1, 2], -1), (vec![1], vec![2], 5)]);
}

#[test]
fn extenders_intersect() {
    let mut indices = forward_and_reverse(&[(0, 1), (0, 2), (0, 3), (1, 2), (5, 3), (1, 3)]);
    let from_first = Extender { source: 0, attribute: 0, inclusive: true };
    let from_second = Extender { source: 0, attribute: 1, inclusive: true };
    let prefixes = vec![(vec![0u32, 1], 1), (vec![0, 5], 2), (vec![1, 0], 3), (vec![5, 5], 4)];
    for extenders in [[from_first, from_second], [from_second, from_first]] {
        let mut out = extend(&mut indices, prefixes.clone(), &extenders, 5);
        out.sort();
        assert_eq!(
            out,
            vec![
                (vec![0, 1], vec![2, 3], 1),
                (vec![0, 5], vec![3], 2),
                (vec![1, 0], vec![2, 3], 3),
                (vec![5, 5], vec![3], 4),
            ]
        );
    }
}

#[test]
fn an_extender_sees_by_its_freshness() {
    let mut indices = forward_and_reverse(&[(0, 1)]);
    indices[0].update(5, &mut vec![((0, 2), 1)]);
    let strict = Extender { source: 0, attribute: 0, inclusive: false };
    let fresh = Extender { source: 0, attribute: 0, inclusive: true };
    let out = extend(&mut indices, vec![(vec![0u32], 1)], &[strict], 5);
    assert_eq!(out, vec![(vec![0], vec![1], 1)]);
    let out = extend(&mut indices, vec![(vec![0u32], 1)], &[fresh], 5);
    assert_eq!(out, vec![(vec![0], vec![1, 2], 1)]);
    let out = extend(&mut indices, vec![(vec![0u32], 1)], &[fresh, strict], 5);
    assert_eq!(out, vec![(vec![0], vec![1], 1)]);
}

#[test]
fn index_extender_drops_what_has_no_extension() {
    let mut index = Index::new();
    index.update(1, &mut vec![((1, 5), 1), ((1, 6), 1), ((2, 5), 1)]);
    let extender = IndexExtender { source: 0, logic: first, inclusive: true };
    let mut counts = vec![(vec![1u32], 9, 0, 1), (vec![3], 9, 0, 1), (vec![2], 1, 0, 1)];
    extender.count(&index, &mut counts, 4);
    assert_eq!(counts, vec![(vec![1], 2, 4, 1), (vec![2], 1, 0, 1)]);
    let proposed = extender.propose(&mut index, vec![(vec![2u32], 1), (vec![7], 1), (vec![1], -1)], 1);
    assert_eq!(proposed, vec![(vec![1], vec![5, 6], -1), (vec![2], vec![5], 1)]);
    let strict = IndexExtender { source: 0, logic: first, inclusive: false };
    assert!(strict.propose(&mut index, vec![(vec![2u32], 1)], 1).is_empty());
    let mut rows = vec![(vec![2u32], vec![5, 6], 1), (vec![1], vec![6, 7], 1), (vec![9], vec![5], 1)];
    extender.intersect(&mut index, &mut rows, 1);
    assert_eq!(rows, vec![(vec![1], vec![6], 1), (vec![2], vec![5], 1)]);
}

#[test]
fn a_time_is_absorbed_behind_the_frontier() {
    assert!(is_absorbed(&None, 7));
    assert!(is_absorbed(&Some(8), 7));
    assert!(!is_absorbed(&Some(7), 7));
    assert!(!is_absorbed(&Some(3), 7));
}

#[test]
fn a_stash_holds_batches_until_their_time_is_absorbed() {
    let mut stash: Stash<u32> = Stash::new();
    stash.push(5, vec![1, 2]);
    stash.push(3, vec![3]);
    stash.push(5, vec![4]);
    stash.push(9, vec![5]);
    assert!(stash.release(Some(3)).is_empty());
    assert_eq!(stash.release(Some(6)), vec![(5, vec![vec![1, 2], vec![4]]), (3, vec![vec![3]])]);
    assert_eq!(stash.entries, vec![(9, vec![vec![5]])]);
    assert_eq!(stash.release(None), vec![(9, vec![vec![5]])]);
    assert!(stash.entries.is_empty());
}

#[test]
fn a_stash_hands_out_what_the_effort_pays_for() {
    let mut stash: Stash<u32> = Stash::new();
    stash.push(5, vec![1, 2]);
    stash.push(5, vec![3]);
    stash.push(5, vec![4, 5, 6]);
    stash.push(7, vec![7]);
    stash.push(9, vec![8]);
    // the newest batch takes the three, the one before it is still begun.
    assert_eq!(
        stash.release_within(Some(8), 4),
        vec![(5, vec![vec![4, 5, 6], vec![3]]), (7, vec![vec![7]])]
    );
    assert_eq!(stash.entries, vec![(5, vec![vec![1, 2]]), (9, vec![vec![8]])]);
    assert!(stash.waits_for(5));
    assert!(!stash.waits_for(7));
    assert!(stash.waits_for(9));
    // without effort nothing is handed out, and nothing is lost.
    assert_eq!(stash.release_within(Some(8), 0), vec![(5, vec![])]);
    assert_eq!(stash.entries, vec![(5, vec![vec![1, 2]]), (9, vec![vec![8]])]);
    // a batch larger than the effort is handed out whole.
    assert_eq!(stash.release_within(None, 1), vec![(5, vec![vec![1, 2]]), (9, vec![vec![8]])]);
    assert!(stash.entries.is_empty());
    assert_eq!(PROPOSE_EFFORT, 4096);
}

#[test]
fn an_index_stream_loads_and_then_updates() {
    let mut stream = IndexStream::new();
    let mut batch = vec![(3, 1), (1, 2)];
    assert!(stream.initially(&mut batch));
    assert!(batch.is_empty());
    assert!(stream.initially(&mut vec![(1, 1), (2, 7)]));
    let mut updates = vec![((1, 5), 1)];
    stream.updates(4, &mut updates);
    assert!(updates.is_empty());
    stream.updates(6, &mut vec![((1, 2), -1)]);
    stream.updates(4, &mut vec![((2, 8), 1)]);
    stream.notified(4);
    let mut late = vec![(9, 9)];
    assert!(!stream.initially(&mut late));
    assert_eq!(late, vec![(9, 9)]);
    let mut data = vec![(1u32, vec![], 1), (2, vec![], 1), (3, vec![], 1), (9, vec![], 1)];
    stream.index.propose(&mut data, &|key: &u32| *key, &Visible::up_to(6));
    assert_eq!(
        data,
        vec![(1, vec![1, 2, 5], 1), (2, vec![7, 8], 1), (3, vec![1], 1), (9, vec![], 1)]
    );
    stream.notified(6);
    let mut data = vec![(1u32, vec![], 1)];
    stream.index.propose(&mut data, &|key: &u32| *key, &Visible::up_to(6));
    assert_eq!(data, vec![(1, vec![1, 5], 1)]);
    let mut data = vec![(1u32, vec![], 1)];
    stream.index.propose(&mut data, &|key: &u32| *key, &Visible::before(6));
    assert_eq!(data, vec![(1, vec![1, 2, 5], 1)]);
}

#[test]
fn a_queue_hands_out_from_the_front() {
    let mut queue = VecQueue::from(vec![4, 5, 6]);
    assert_eq!(queue.len(), 3);
    assert_eq!(*queue.peek(), 4);
    assert_eq!(queue.pop(), 4);
    assert_eq!(queue.pop(), 5);
    assert!(!queue.is_empty());
    assert_eq!(queue.pop(), 6);
    assert!(queue.is_empty());
    assert!(queue.done().is_empty());
    assert!(VecQueue::<u32>::new().is_empty());
}

#[test]
fn merge_sorter_sorts_all_batches() {
    let mut sorter = MergeSorter::new();
    let mut expected = Vec::new();
    let mut seed = 12345u64;
    for round in 0..40 {
        let mut batch = Vec::new();
        for _ in 0..(round * 37 % 300) {
            seed = seed.wrapping_mul(6364136223846793005).wrapping_add(1442695040888963407);
            let pair = ((seed >> 40) as u32 % 50, (seed >> 20) as u32 % 50);
            batch.push(pair);
            expected.push(pair);
        }
        sorter.push(&mut batch);
        assert!(batch.is_empty());
    }
    let mut sorted = Vec::new();
    sorter.finish_into(&mut sorted);
    let flat: Vec<(u32, u32)> = sorted.iter().flatten().cloned().collect();
    expected.sort();
    assert_eq!(flat, expected);
    assert!(sorted.iter().all(|chunk| !chunk.is_empty() && chunk.len() <= 1024));
}

#[test]
fn merge_sorter_with_nothing_leaves_the_target() {
    let mut sorter = MergeSorter::new();
    sorter.push(&mut Vec::new());
    let mut target = vec![vec![(1, 1)]];
    sorter.finish_into(&mut target);
    assert_eq!(target, vec![vec![(1, 1)]]);
}

#[test]
fn merge_by_merges_two_sorted_lists() {
    let mut stash = Vec::new();
    let left = vec![vec![(1, 1), (1, 3)], vec![(4, 0)]];
    let right = vec![vec![(0, 9), (1, 2), (9, 9)]];
    let merged = MergeSorter::merge_by(&mut stash, left, right);
    let flat: Vec<(u32, u32)> = merged.iter().flatten().cloned().collect();
    assert_eq!(flat, vec![(0, 9), (1, 1), (1, 2), (1, 3), (4, 0), (9, 9)]);
}

#[test]
fn sort_sorts_a_list_of_batches() {
    let mut sorter = MergeSorter::new();
    let mut list = vec![vec![(3, 3), (1, 1)], vec![], vec![(2, 2), (0, 0)]];
    sorter._sort(&mut list);
    let flat: Vec<(u32, u32)> = list.iter().flatten().cloned().collect();
    assert_eq!(flat, vec![(0, 0), (1, 1), (2, 2), (3, 3)]);
    sorter._push_list(vec![vec![(5, 5)]]);
    sorter._push_list(vec![vec![(4, 4)], vec![(6, 6)]]);
    let mut all = Vec::new();
    sorter.finish_into(&mut all);
    let flat: Vec<(u32, u32)> = all.iter().flatten().cloned().collect();
    assert_eq!(flat, vec![(4, 4), (5, 5), (6, 6)]);
    assert!(sorter._empty().is_empty());
}
