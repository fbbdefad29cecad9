use dataflow_join::graph::{GraphExtenderExt, GraphTrait, GraphVector, PrefixExtender};
use dataflow_join::naive::GraphMap;

fn square() -> GraphVector {
    // 0 -> 1, 2, 3;  1 -> 0, 2;  2 -> 3;  3 -> nothing
    GraphVector { nodes: vec![0, 3, 5, 6, 6], edges: vec![1, 2, 3, 0, 2, 3] }
}

#[test]
fn graph_vector_gives_the_neighbors() {
    let graph = square();
    assert!(graph.check());
    assert_eq!(graph.nodes(), 5);
    assert_eq!(graph.edges(0), &[1, 2, 3]);
    assert_eq!(graph.edges(1), &[0, 2]);
    assert_eq!(graph.edges(3), &[]);
    assert_eq!(graph.edges(4), &[]);
    assert_eq!(graph.edges(usize::MAX), &[]);
}

#[test]
fn graph_vector_checks_its_offsets() {
    assert!(GraphVector { nodes: vec![], edges: vec![] }.check());
    assert!(!GraphVector { nodes: vec![0, 3], edges: vec![1, 2] }.check());
    assert!(!GraphVector { nodes: vec![2, 1], edges: vec![1, 2] }.check());
}

#[test]
fn graph_extender_counts_proposes_and_intersects() {
    let extender = square().extend_using(|prefix: &(u64, u64)| prefix.1);
    assert_eq!(extender.count(&(9, 0)), 3);
    assert_eq!(extender.count(&(9, 3)), 0);
    assert_eq!(extender.propose(&(9, 1)), vec![0, 2]);
    let mut list = vec![0, 2, 2, 3, 7];
    extender.intersect(&(9, 0), &mut list);
    assert_eq!(list, vec![2, 2, 3]);
    let mut list = vec![3];
    extender.intersect(&(9, 2), &mut list);
    assert_eq!(list, vec![3]);
    let mut list = vec![1, 2];
    extender.intersect(&(9, 3), &mut list);
    assert!(list.is_empty());
}

fn answers<E: PrefixExtender<(u64, u64)>>(extender: &E, node: u64, list: &mut Vec<u32>) -> (u64, Vec<u32>) {
    let prefix = (9, node);
    extender.intersect(&prefix, list);
    (extender.count(&prefix), extender.propose(&prefix))
}

#[test]
fn a_graph_extender_extends_record_by_record() {
    let extender = square().extend_using(|prefix: &(u64, u64)| prefix.1);
    let mut list = vec![0, 1, 3, 4];
    assert_eq!(answers(&extender, 0, &mut list), (3, vec![1, 2, 3]));
    assert_eq!(list, vec![1, 3]);
    let mut list = vec![0, 1, 3, 4];
    assert_eq!(answers(&extender, 4, &mut list), (0, vec![]));
    assert!(list.is_empty());
}

#[test]
fn graph_extender_gallops_through_long_lists() {
    let edges: Vec<u32> = (0..1000).map(|x| 2 * x).collect();
    let graph = GraphVector { nodes: vec![0, 1000], edges };
    let extender = graph.extend_using(|_: &u32| 0);
    let mut list = vec![3, 4, 999, 1000, 1998, 5000];
    extender.intersect(&0, &mut list);
    assert_eq!(list, vec![4, 1000, 1998]);
}

#[test]
fn graph_map_counts_the_neighbors_below() {
    let map = GraphMap::new(square());
    assert_eq!(map.nodes(), 5);
    assert_eq!(map.edges(1), &[0, 2]);
    assert_eq!(map.forward(0), &[1, 2, 3]);
    assert_eq!(map.forward(1), &[2]);
    assert_eq!(map.forward(2), &[3]);
    assert_eq!(map.forward(3), &[]);
}
