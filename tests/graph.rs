use libjp::{linear_order, top_sort, GraphRef, LineId, ListGraph, NodeFiltered, PatchId, Status, Visit};

// Given a string like "0-3, 1-2, 3-4, 2-3", creates a graph.
fn graph(s: &str) -> ListGraph {
    let mut edges: Vec<(u64, u64)> = Vec::new();
    for e in s.split(',') {
        let dash_idx = e.find('-').unwrap();
        let u: u64 = e[..dash_idx].trim().parse().unwrap();
        let v: u64 = e[(dash_idx + 1)..].trim().parse().unwrap();
        edges.push((u, v));
    }
    ListGraph::from_edges(&edges)
}

fn id(n: u64) -> LineId {
    LineId {
        patch: PatchId::cur(),
        line: n,
    }
}

fn ids(nums: &[u64]) -> Vec<LineId> {
    nums.iter().cloned().map(id).collect()
}

#[test]
fn top_sort_chain() {
    assert_eq!(top_sort(&graph("0-1, 1-3, 3-2")), Some(ids(&[0, 1, 3, 2])));
}

#[test]
fn top_sort_cycle() {
    assert_eq!(top_sort(&graph("0-1, 1-2, 2-3, 3-1")), None);
}

#[test]
fn top_sort_tree() {
    assert_eq!(top_sort(&graph("0-2, 2-3, 1-3")), Some(ids(&[1, 0, 2, 3])));
}

#[test]
fn linear_order_chain() {
    assert_eq!(linear_order(&graph("0-1, 1-3, 3-2")), Some(ids(&[0, 1, 3, 2])));
}

#[test]
fn linear_order_chain_with_extra() {
    assert_eq!(linear_order(&graph("0-1, 1-3, 3-2, 0-2")), Some(ids(&[0, 1, 3, 2])));
}

#[test]
fn linear_order_chain_with_extra2() {
    assert_eq!(linear_order(&graph("0-1, 0-2, 1-3, 3-2")), Some(ids(&[0, 1, 3, 2])));
}

#[test]
fn linear_order_cycle() {
    assert_eq!(linear_order(&graph("0-1, 1-2, 2-3, 3-1")), None);
}

#[test]
fn linear_order_tree() {
    assert_eq!(linear_order(&graph("0-2, 2-3, 1-3")), None);
}

#[test]
fn linear_order_checks_every_consecutive_pair() {
    // 0 and 1 are joined, 2 and 3 are joined, but nothing joins 1 to 2.
    assert_eq!(top_sort(&graph("0-1, 2-3, 0-3")), Some(ids(&[2, 0, 3, 1])));
    assert_eq!(linear_order(&graph("0-1, 2-3, 0-3")), None);
}

#[test]
fn top_sort_self_loop() {
    assert_eq!(top_sort(&graph("0-0")), None);
}

#[test]
fn top_sort_puts_every_edge_forward() {
    let g = graph("4-1, 3-1, 2-0, 0-4, 2-3, 1-5");
    let order = top_sort(&g).unwrap();
    assert_eq!(order.len(), 6);
    let pos = |n: u64| order.iter().position(|x| *x == id(n)).unwrap();
    for (u, v) in [(4, 1), (3, 1), (2, 0), (0, 4), (2, 3), (1, 5)] {
        assert!(pos(u) < pos(v));
    }
}

#[test]
fn node_filtered_drops_nodes_and_their_edges() {
    let g = graph("0-1, 1-2, 2-3");
    let f = NodeFiltered::new(g, |x: &LineId| x.line != 1);
    assert_eq!(f.nodes(), ids(&[0, 2, 3]));
    assert!(f.out_neighbors(&id(0)).is_empty());
    assert_eq!(f.out_neighbors(&id(2)), ids(&[3]));
    assert!(f.out_neighbors(&id(1)).is_empty());
    assert_eq!(f.in_neighbors(&id(3)), ids(&[2]));
    assert_eq!(linear_order(&f), None);
    assert_eq!(top_sort(&f), Some(ids(&[2, 3, 0])));
}

#[test]
fn list_graph_neighbours() {
    let g = graph("0-1, 0-2, 2-1");
    assert_eq!(g.nodes(), ids(&[0, 1, 2]));
    assert_eq!(g.out_neighbors(&id(0)), ids(&[1, 2]));
    assert_eq!(g.in_neighbors(&id(1)), ids(&[0, 2]));
    assert!(g.out_neighbors(&id(7)).is_empty());
}

fn component_of(components: &Vec<Vec<LineId>>, x: LineId) -> usize {
    let found: Vec<usize> = (0..components.len()).filter(|c| components[*c].contains(&x)).collect();
    assert_eq!(found.len(), 1);
    found[0]
}

#[test]
fn decompose_cycle_and_tail() {
    let g = graph("0-1, 1-2, 2-3, 3-1");
    let d = libjp::decompose(&g);
    assert_eq!(d.components, vec![ids(&[0]), ids(&[1, 2, 3])]);
}

#[test]
fn decompose_partitions_by_mutual_reach() {
    let g = graph("0-1, 1-0, 1-2, 2-3, 3-4, 4-2, 5-5, 4-6");
    let d = libjp::decompose(&g);
    assert_eq!(d.components.len(), 4);
    let c = |n: u64| component_of(&d.components, id(n));
    assert_eq!(c(0), c(1));
    assert_eq!(c(2), c(3));
    assert_eq!(c(3), c(4));
    assert_ne!(c(1), c(2));
    assert_ne!(c(4), c(6));
    assert_ne!(c(5), c(6));
    assert_eq!(d.components[c(5)], ids(&[5]));
}

#[test]
fn decompose_acyclic_graph_gives_singletons() {
    let g = graph("0-2, 2-3, 1-3");
    let d = libjp::decompose(&g);
    assert_eq!(d.components, vec![ids(&[0]), ids(&[1]), ids(&[2]), ids(&[3])]);
}

#[test]
fn decompose_condensation() {
    let g = graph("0-1, 1-0, 1-2, 2-3, 3-2, 0-4, 2-4");
    let d = libjp::decompose(&g);
    assert_eq!(d.components, vec![ids(&[0, 1]), ids(&[2, 3]), ids(&[4])]);
    assert_eq!(d.successors, vec![vec![2, 1], vec![2], vec![]]);
}

#[test]
fn dfs_events_on_chain() {
    let events = libjp::dfs(&graph("0-1, 1-3, 3-2"));
    assert_eq!(
        events,
        vec![
            Visit::Root(id(0)),
            Visit::Edge { src: id(0), dst: id(1), status: Status::New },
            Visit::Edge { src: id(1), dst: id(3), status: Status::New },
            Visit::Edge { src: id(3), dst: id(2), status: Status::New },
            Visit::Retreat { u: id(2), parent: Some(id(3)) },
            Visit::Retreat { u: id(3), parent: Some(id(1)) },
            Visit::Retreat { u: id(1), parent: Some(id(0)) },
            Visit::Retreat { u: id(0), parent: None },
        ]
    );
}

#[test]
fn dfs_events_mark_repeated_heads() {
    let events = libjp::dfs(&graph("0-2, 2-3, 1-3, 3-0"));
    assert_eq!(
        events,
        vec![
            Visit::Root(id(0)),
            Visit::Edge { src: id(0), dst: id(2), status: Status::New },
            Visit::Edge { src: id(2), dst: id(3), status: Status::New },
            Visit::Edge { src: id(3), dst: id(0), status: Status::Repeat },
            Visit::Retreat { u: id(3), parent: Some(id(2)) },
            Visit::Retreat { u: id(2), parent: Some(id(0)) },
            Visit::Retreat { u: id(0), parent: None },
            Visit::Root(id(1)),
            Visit::Edge { src: id(1), dst: id(3), status: Status::Repeat },
            Visit::Retreat { u: id(1), parent: None },
        ]
    );
}
