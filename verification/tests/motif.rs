use dataflow_join::motif::{order_attributes, plan_query, GraphStreamIndex, MotifError};

const TRIANGLE: [(usize, usize); 3] = [(0, 1), (1, 2), (0, 2)];

fn sorted(mut rows: Vec<(Vec<u32>, i32)>) -> Vec<(Vec<u32>, i32)> {
    rows.sort();
    rows
}

#[test]
fn triangle_is_ordered_from_its_first_relation() {
    let (active, relabel, relations) = order_attributes(0, &TRIANGLE).unwrap();
    assert_eq!(active, vec![0, 1, 2]);
    assert_eq!(relabel, vec![0, 1, 2]);
    assert_eq!(relations, vec![(0, 1), (1, 2), (0, 2)]);
}

#[test]
fn triangle_is_ordered_from_its_second_relation() {
    let (active, relabel, relations) = order_attributes(1, &TRIANGLE).unwrap();
    assert_eq!(active, vec![1, 2, 0]);
    assert_eq!(relabel, vec![2, 0, 1]);
    assert_eq!(relations, vec![(2, 0), (0, 1), (2, 1)]);
}

#[test]
fn the_smallest_attribute_is_bound_first() {
    let relations = [(0, 1), (1, 3), (1, 2), (3, 4)];
    let (active, relabel, _) = order_attributes(0, &relations).unwrap();
    assert_eq!(active, vec![0, 1, 2, 3, 4]);
    assert_eq!(relabel, vec![0, 1, 2, 3, 4]);
    let (active, relabel, relations) = order_attributes(3, &relations).unwrap();
    assert_eq!(active, vec![3, 4, 1, 0, 2]);
    assert_eq!(relabel, vec![3, 2, 4, 0, 1]);
    assert_eq!(relations, vec![(3, 2), (2, 0), (2, 4), (0, 1)]);
}

#[test]
fn a_disconnected_motif_is_rejected() {
    assert_eq!(order_attributes(0, &[(0, 1), (2, 3)]), Err(MotifError::Disconnected));
    assert_eq!(order_attributes(0, &[(0, 2)]), Err(MotifError::Disconnected));
}

#[test]
fn a_self_loop_is_rejected_as_source() {
    assert_eq!(order_attributes(0, &[(1, 1), (0, 1)]), Err(MotifError::SelfLoop));
    assert!(order_attributes(1, &[(1, 1), (0, 1)]).is_ok());
}

#[test]
fn triangle_plan_names_index_and_freshness() {
    assert_eq!(plan_query(&TRIANGLE, 0), vec![vec![(1, true, false), (0, true, false)]]);
    let (_, _, relations) = order_attributes(1, &TRIANGLE).unwrap();
    assert_eq!(plan_query(&relations, 1), vec![vec![(0, false, true), (1, false, false)]]);
    let (_, _, relations) = order_attributes(2, &TRIANGLE).unwrap();
    assert_eq!(plan_query(&relations, 2), vec![vec![(0, true, true), (1, false, true)]]);
}

#[test]
fn plan_of_two_attributes_is_empty() {
    assert_eq!(plan_query(&[(0, 1)], 0), Vec::<Vec<(usize, bool, bool)>>::new());
    assert_eq!(plan_query(&[], 0), Vec::<Vec<(usize, bool, bool)>>::new());
}

#[test]
fn four_cycle_plan_has_two_stages() {
    let cycle = [(0, 1), (1, 2), (2, 3), (3, 0)];
    let plan = plan_query(&cycle, 0);
    assert_eq!(plan, vec![vec![(1, true, false)], vec![(2, true, false), (0, false, false)]]);
}

#[test]
fn triangle_from_an_empty_start() {
    let mut graph = GraphStreamIndex::new();
    let updates = vec![((0, 1), 1), ((1, 2), 1), ((0, 2), 1)];
    graph.update(1, &updates);
    let changes = graph.track_motif(&TRIANGLE, 1, &updates).unwrap();
    assert_eq!(changes, vec![(vec![0, 1, 2], 1)]);
}

#[test]
fn triangle_deletion() {
    let mut graph = GraphStreamIndex::new();
    let updates = vec![((0, 1), 1), ((1, 2), 1), ((0, 2), 1)];
    graph.update(1, &updates);
    let mut total = 0;
    for (_, diff) in graph.track_motif(&TRIANGLE, 1, &updates).unwrap() {
        total += diff;
    }
    let deletion = vec![((0, 1), -1)];
    graph.update(2, &deletion);
    let changes = graph.track_motif(&TRIANGLE, 2, &deletion).unwrap();
    assert_eq!(changes, vec![(vec![0, 1, 2], -1)]);
    for (_, diff) in changes {
        total += diff;
    }
    assert_eq!(total, 0);
}

#[test]
fn triangle_deletion_after_merge() {
    let mut graph = GraphStreamIndex::new();
    let updates = vec![((0, 1), 1), ((1, 2), 1), ((0, 2), 1)];
    graph.update(1, &updates);
    graph.merge_to(&1);
    let deletion = vec![((1, 2), -1)];
    graph.update(2, &deletion);
    let changes = graph.track_motif(&TRIANGLE, 2, &deletion).unwrap();
    assert_eq!(changes, vec![(vec![0, 1, 2], -1)]);
}

#[test]
fn triangles_close_one_by_one() {
    let mut graph = GraphStreamIndex::new();
    let mut count = 0;
    let edges = [(0, 1), (1, 2), (0, 2), (2, 3), (1, 3), (0, 3)];
    let expected = [0, 0, 1, 1, 2, 4];
    for (time, edge) in edges.iter().enumerate() {
        let updates = vec![(*edge, 1)];
        graph.update(time as u64, &updates);
        for (_, diff) in graph.track_motif(&TRIANGLE, time as u64, &updates).unwrap() {
            count += diff;
        }
        assert_eq!(count, expected[time]);
    }
}

#[test]
fn four_clique_on_k4() {
    let edges = vec![(0, 1), (0, 2), (0, 3), (1, 2), (1, 3), (2, 3)];
    let mut graph = GraphStreamIndex::from(edges.clone());
    let motif = [(0, 1), (0, 2), (0, 3), (1, 2), (1, 3), (2, 3)];
    let prefixes: Vec<((u32, u32), i32)> = edges.iter().map(|edge| (*edge, 1)).collect();
    let found = graph.relation_update(0, &motif, 0, &prefixes).unwrap();
    assert_eq!(found, vec![(vec![0, 1, 2, 3], 1)]);
}

#[test]
fn four_cycle_without_triangles() {
    let edges = vec![(0, 1), (1, 2), (2, 3), (3, 0)];
    let mut graph = GraphStreamIndex::from(edges.clone());
    let motif = [(0, 1), (1, 2), (2, 3), (3, 0)];
    let prefixes: Vec<((u32, u32), i32)> = edges.iter().map(|edge| (*edge, 1)).collect();
    let found = sorted(graph.relation_update(0, &motif, 0, &prefixes).unwrap());
    assert_eq!(
        found,
        vec![
            (vec![0, 1, 2, 3], 1),
            (vec![1, 2, 3, 0], 1),
            (vec![2, 3, 0, 1], 1),
            (vec![3, 0, 1, 2], 1),
        ]
    );
    let mut cycles: Vec<Vec<u32>> = Vec::new();
    for (nodes, _) in found {
        let least = nodes.iter().position(|node| *node == 0).unwrap();
        let mut turned = nodes.clone();
        turned.rotate_left(least);
        if !cycles.contains(&turned) {
            cycles.push(turned);
        }
    }
    assert_eq!(cycles, vec![vec![0, 1, 2, 3]]);
    let triangles = graph.relation_update(0, &TRIANGLE, 0, &prefixes).unwrap();
    assert_eq!(triangles, Vec::<(Vec<u32>, i32)>::new());
}

#[test]
fn tracking_rejects_a_disconnected_motif() {
    let mut graph = GraphStreamIndex::new();
    let updates = vec![((0, 1), 1)];
    graph.update(1, &updates);
    assert_eq!(graph.track_motif(&[(0, 1), (2, 3)], 1, &updates), Err(MotifError::Disconnected));
    assert_eq!(graph.track_motif(&[(0, 1), (1, 1)], 1, &updates), Err(MotifError::SelfLoop));
}

#[test]
fn an_edge_is_its_own_motif() {
    let mut graph = GraphStreamIndex::new();
    let updates = vec![((4, 7), 1), ((7, 4), -1)];
    graph.update(3, &updates);
    let changes = sorted(graph.track_motif(&[(0, 1)], 3, &updates).unwrap());
    assert_eq!(changes, vec![(vec![4, 7], 1), (vec![7, 4], -1)]);
}
