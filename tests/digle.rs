use libjp::{Digle, DigleData, DigleMut, DigleParts, Edge, GraphRef, LineId, PatchId};

fn line(p: u64, n: u64) -> LineId {
    LineId {
        patch: PatchId(p),
        line: n,
    }
}

fn live(dest: LineId) -> Edge {
    Edge {
        deleted: false,
        dest,
    }
}

fn dead(dest: LineId) -> Edge {
    Edge {
        deleted: true,
        dest,
    }
}

#[test]
fn delete_and_undelete_flag_edges() {
    let (a, b) = (line(1, 0), line(1, 1));
    let mut data = DigleData::new();
    let start = data.clone();
    {
        let mut d = DigleMut::new(&mut data);
        d.add_node(a);
        d.add_node(b);
        d.add_edge(a, b);
        d.delete_node(&b);
        let view = d.as_digle();
        assert!(view.out_edges(&a).is_empty());
        assert_eq!(view.all_out_edges(&a), vec![dead(b)]);
        assert_eq!(view.all_in_edges(&b), vec![live(a)]);
        assert!(!view.is_live(&b));
        assert!(view.assert_consistent());

        d.undelete_node(&b);
        let view = d.as_digle();
        assert_eq!(view.out_edges(&a), vec![live(b)]);
        assert_eq!(view.in_edges(&b), vec![live(a)]);
        assert!(view.is_live(&b));

        // And back again, in reverse.
        d.delete_node(&b);
        d.undelete_node(&b);
        d.unadd_edge(&a, &b);
        d.unadd_node(&b);
        d.unadd_node(&a);
    }
    assert_eq!(data, start);
}

#[test]
fn live_edges_come_first() {
    let (a, b, c, e) = (line(0, 0), line(0, 1), line(0, 2), line(0, 3));
    let mut data = DigleData::new();
    let mut d = DigleMut::new(&mut data);
    for x in [a, b, c, e] {
        d.add_node(x);
    }
    d.add_edge(a, b);
    d.add_edge(a, c);
    d.add_edge(a, e);
    d.delete_node(&b);
    let view = d.as_digle();
    assert_eq!(view.out_edges(&a), vec![live(c), live(e)]);
    assert_eq!(view.all_out_edges(&a), vec![live(c), live(e), dead(b)]);
    assert_eq!(view.in_edges(&b), vec![live(a)]);
}

#[test]
fn edge_to_deleted_line_is_added_deleted() {
    let (a, b) = (line(2, 0), line(2, 1));
    let mut data = DigleData::new();
    let mut d = DigleMut::new(&mut data);
    d.add_node(a);
    d.add_node(b);
    d.delete_node(&a);
    d.add_edge(a, b);
    let view = d.as_digle();
    assert_eq!(view.all_out_edges(&a), vec![live(b)]);
    assert_eq!(view.all_in_edges(&b), vec![dead(a)]);
    assert!(view.in_edges(&b).is_empty());
    assert!(view.assert_consistent());
}

#[test]
fn each_primitive_is_undone_by_its_inverse() {
    let (a, b, c) = (line(3, 0), line(3, 1), line(4, 0));
    let mut data = DigleData::new();
    {
        let mut d = DigleMut::new(&mut data);
        d.add_node(a);
        d.add_node(b);
        d.add_node(c);
        d.add_edge(a, b);
        d.add_edge(c, b);
        d.delete_node(&c);
    }
    let snapshot = data.clone();
    {
        let mut d = DigleMut::new(&mut data);
        d.delete_node(&b);
        d.undelete_node(&b);
    }
    assert_eq!(data, snapshot);
    {
        let mut d = DigleMut::new(&mut data);
        d.undelete_node(&c);
        d.delete_node(&c);
    }
    assert_eq!(data, snapshot);
    {
        let mut d = DigleMut::new(&mut data);
        d.add_edge(b, a);
        d.unadd_edge(&b, &a);
    }
    assert_eq!(data, snapshot);
    {
        let mut d = DigleMut::new(&mut data);
        d.unadd_edge(&c, &b);
        d.add_edge(c, b);
    }
    assert_eq!(data, snapshot);
    {
        let mut d = DigleMut::new(&mut data);
        d.add_node(line(9, 9));
        d.unadd_node(&line(9, 9));
    }
    assert_eq!(data, snapshot);
}

#[test]
fn parts_round_trip() {
    let (a, b, c) = (line(5, 0), line(5, 1), line(6, 0));
    let mut data = DigleData::new();
    {
        let mut d = DigleMut::new(&mut data);
        d.add_node(c);
        d.add_node(b);
        d.add_node(a);
        d.add_edge(a, b);
        d.add_edge(b, c);
        d.delete_node(&b);
    }
    let parts = data.to_parts();
    assert_eq!(parts.lines, vec![a, c]);
    assert_eq!(parts.deleted_lines, vec![b]);
    assert_eq!(parts.edges, vec![(a, dead(b)), (b, live(c))]);
    assert_eq!(parts.back_edges, vec![(b, live(a)), (c, dead(b))]);
    assert_eq!(DigleData::from_parts(&parts), Some(data.clone()));

    let mut shuffled = parts.clone();
    shuffled.edges.reverse();
    shuffled.back_edges.push(shuffled.back_edges[0]);
    assert_eq!(DigleData::from_parts(&shuffled), Some(data));
}

#[test]
fn from_parts_refuses_inconsistent_parts() {
    let (a, b) = (line(7, 0), line(7, 1));
    let missing_back_edge = DigleParts {
        lines: vec![a, b],
        deleted_lines: vec![],
        edges: vec![(a, live(b))],
        back_edges: vec![],
    };
    assert_eq!(DigleData::from_parts(&missing_back_edge), None);
    let both_live_and_deleted = DigleParts {
        lines: vec![a],
        deleted_lines: vec![a],
        edges: vec![],
        back_edges: vec![],
    };
    assert_eq!(DigleData::from_parts(&both_live_and_deleted), None);
    let wrong_flag = DigleParts {
        lines: vec![a, b],
        deleted_lines: vec![],
        edges: vec![(a, dead(b))],
        back_edges: vec![(b, live(a))],
    };
    assert_eq!(DigleData::from_parts(&wrong_flag), None);
    let unknown_line = DigleParts {
        lines: vec![a],
        deleted_lines: vec![],
        edges: vec![(a, live(b))],
        back_edges: vec![(b, live(a))],
    };
    assert_eq!(DigleData::from_parts(&unknown_line), None);
}

#[test]
fn digle_as_graph() {
    let (a, b, c) = (line(8, 0), line(8, 1), line(8, 2));
    let mut data = DigleData::new();
    {
        let mut d = DigleMut::new(&mut data);
        d.add_node(a);
        d.add_node(b);
        d.add_node(c);
        d.add_edge(a, c);
        d.add_edge(c, b);
        d.delete_node(&c);
    }
    let view = Digle::from(&data);
    assert_eq!(view.nodes(), vec![a, b, c]);
    assert_eq!(view.out_neighbors(&a), vec![c]);
    assert_eq!(view.in_neighbors(&b), vec![c]);
    assert_eq!(libjp::linear_order(&view), Some(vec![a, c, b]));
}
