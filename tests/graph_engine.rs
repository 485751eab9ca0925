use audio_graph::graph::{AudioGraphIO, CycleFound, EdgeInsertError, EdgeNotFound, NodeIndex, Port};

fn port(index: usize, node: NodeIndex) -> Port {
    Port::new(index, node)
}

fn proc_node(i: usize) -> NodeIndex {
    NodeIndex::Processor(i)
}

#[test]
fn slots_are_reused_lowest_first() {
    let mut g = AudioGraphIO::with_global_io_config(2, 2);
    assert_eq!(g.insert_processor(1, 1), 0);
    assert_eq!(g.insert_processor(1, 1), 1);
    assert_eq!(g.insert_processor(1, 1), 2);
    assert!(g.remove_processor(1));
    assert!(g.get_node(proc_node(0)).is_some());
    assert!(g.get_node(proc_node(1)).is_none());
    assert!(g.get_node(proc_node(2)).is_some());
    assert_eq!(g.insert_processor(3, 4), 1);
    assert_eq!(g.get_node(proc_node(1)).unwrap().num_ports(), 3);
    assert_eq!(g.get_node(proc_node(1)).unwrap().num_opposite_ports(), 4);
    assert_eq!(g.insert_processor(1, 1), 3);
}

#[test]
fn removing_a_missing_processor_changes_nothing() {
    let mut g = AudioGraphIO::with_global_io_config(1, 1);
    assert!(!g.remove_processor(0));
    let p = g.insert_processor(1, 1);
    assert!(g.remove_processor(p));
    assert!(!g.remove_processor(p));
}

#[test]
fn removal_purges_references() {
    let mut g = AudioGraphIO::with_global_io_config(2, 2);
    let a = g.insert_processor(2, 2);
    let b = g.insert_processor(2, 2);
    let c = g.insert_processor(2, 2);
    assert_eq!(g.insert_edge(port(0, proc_node(a)), port(1, proc_node(b))), Ok(true));
    assert_eq!(g.insert_edge(port(0, proc_node(a)), port(0, proc_node(c))), Ok(true));
    assert_eq!(g.insert_edge(port(1, NodeIndex::Global), port(0, proc_node(b))), Ok(true));
    assert!(g.remove_processor(b));
    let from_a = g.get_connections(port(0, proc_node(a))).unwrap();
    assert_eq!(from_a.len(), 1);
    assert!(from_a.iter().all(|p| p.node_index != proc_node(b)));
    assert!(from_a.contains(&port(0, proc_node(c))));
    assert_eq!(g.get_connections(port(1, NodeIndex::Global)).unwrap().len(), 0);
}

#[test]
fn inserting_an_edge_twice_reports_already_present() {
    let mut g = AudioGraphIO::with_global_io_config(1, 1);
    let a = g.insert_processor(1, 2);
    let b = g.insert_processor(1, 2);
    let from = port(0, proc_node(a));
    let to = port(1, proc_node(b));
    assert_eq!(g.insert_edge(from, to), Ok(true));
    assert_eq!(g.insert_edge(from, to), Ok(false));
    assert_eq!(g.get_connections(from).unwrap().len(), 1);
}

#[test]
fn removing_edges() {
    let mut g = AudioGraphIO::with_global_io_config(1, 1);
    let a = g.insert_processor(1, 1);
    let b = g.insert_processor(1, 1);
    let from = port(0, proc_node(a));
    let to = port(0, proc_node(b));
    assert_eq!(g.remove_edge(from, to), Ok(false));
    assert_eq!(g.insert_edge(from, to), Ok(true));
    assert_eq!(g.remove_edge(from, to), Ok(true));
    assert_eq!(g.get_connections(from).unwrap().len(), 0);
    assert_eq!(g.remove_edge(from, to), Ok(false));
    assert_eq!(
        g.remove_edge(port(5, proc_node(a)), port(0, proc_node(9))),
        Err(EdgeNotFound { from_port: Some(false), to_port: None })
    );
}

#[test]
fn out_of_range_destination_is_not_found() {
    let mut g = AudioGraphIO::with_global_io_config(1, 1);
    let a = g.insert_processor(1, 1);
    let b = g.insert_processor(1, 3);
    for index in 3..6 {
        assert_eq!(
            g.insert_edge(port(0, proc_node(a)), port(index, proc_node(b))),
            Err(EdgeInsertError::NotFound(EdgeNotFound { from_port: Some(true), to_port: Some(false) }))
        );
    }
    assert_eq!(g.insert_edge(port(0, proc_node(a)), port(2, proc_node(b))), Ok(true));
}

#[test]
fn endpoints_are_reported_separately() {
    let mut g = AudioGraphIO::with_global_io_config(1, 1);
    let a = g.insert_processor(1, 1);
    assert_eq!(
        g.insert_edge(port(0, proc_node(7)), port(0, proc_node(a))),
        Err(EdgeInsertError::NotFound(EdgeNotFound { from_port: None, to_port: Some(true) }))
    );
    assert_eq!(
        g.insert_edge(port(1, proc_node(a)), port(0, proc_node(7))),
        Err(EdgeInsertError::NotFound(EdgeNotFound { from_port: Some(false), to_port: None }))
    );
    let e = EdgeNotFound { from_port: Some(true), to_port: Some(true) };
    assert!(e.is_not_error());
    assert!(!EdgeNotFound { from_port: Some(true), to_port: None }.is_not_error());
}

#[test]
fn cycles_are_refused() {
    let mut g = AudioGraphIO::with_global_io_config(1, 1);
    let a = g.insert_processor(1, 1);
    let b = g.insert_processor(1, 1);
    let c = g.insert_processor(1, 1);
    assert_eq!(g.insert_edge(port(0, proc_node(a)), port(0, proc_node(b))), Ok(true));
    assert_eq!(g.insert_edge(port(0, proc_node(b)), port(0, proc_node(c))), Ok(true));
    assert_eq!(
        g.insert_edge(port(0, proc_node(c)), port(0, proc_node(a))),
        Err(EdgeInsertError::CycleFound(CycleFound))
    );
    assert_eq!(
        g.insert_edge(port(0, proc_node(b)), port(0, proc_node(b))),
        Err(EdgeInsertError::CycleFound(CycleFound))
    );
    assert_eq!(g.get_connections(port(0, proc_node(c))).unwrap().len(), 0);
    assert_eq!(g.insert_edge(port(0, proc_node(a)), port(0, proc_node(c))), Ok(true));
}

#[test]
fn global_edges_skip_the_cycle_check() {
    let mut g = AudioGraphIO::with_global_io_config(1, 1);
    let a = g.insert_processor(1, 1);
    assert_eq!(g.insert_edge(port(0, NodeIndex::Global), port(0, proc_node(a))), Ok(true));
    assert_eq!(g.insert_edge(port(0, proc_node(a)), port(0, NodeIndex::Global)), Ok(true));
}

#[test]
fn connectivity() {
    let mut g = AudioGraphIO::with_global_io_config(1, 1);
    let a = g.insert_processor(1, 1);
    let b = g.insert_processor(1, 1);
    let c = g.insert_processor(1, 1);
    g.insert_edge(port(0, proc_node(a)), port(0, proc_node(b))).unwrap();
    g.insert_edge(port(0, proc_node(b)), port(0, proc_node(c))).unwrap();
    assert!(g.connected(proc_node(a), proc_node(c)));
    assert!(g.connected(proc_node(b), proc_node(b)));
    assert!(!g.connected(proc_node(c), proc_node(a)));
    assert!(!g.connected(proc_node(a), NodeIndex::Global));
}

#[test]
fn opposite_port_enumeration() {
    let mut g = AudioGraphIO::with_global_io_config(1, 1);
    let a = g.insert_processor(2, 3);
    let ports = g.opposite_port_indices(proc_node(a));
    assert_eq!(ports, vec![port(0, proc_node(a)), port(1, proc_node(a)), port(2, proc_node(a))]);
}

#[test]
fn mirror_graph_and_registration_order() {
    // `inputs` lists, for each input port, the output ports feeding it.
    let mut inputs = AudioGraphIO::with_global_io_config(1, 1);
    let a = inputs.insert_processor(1, 1);
    let b = inputs.insert_processor(1, 1);
    inputs.insert_edge(port(0, proc_node(a)), port(0, NodeIndex::Global)).unwrap();
    inputs.insert_edge(port(0, proc_node(b)), port(0, proc_node(a))).unwrap();
    inputs.insert_edge(port(0, NodeIndex::Global), port(0, proc_node(b))).unwrap();

    let mut outputs = inputs.with_opposite_config();
    assert_eq!(outputs.get_connections(port(0, proc_node(a))).unwrap().len(), 0);
    let mut registered = vec![false; 3];
    let mut order = Vec::new();
    outputs.insert_opposite_ports(&inputs, NodeIndex::Global, &mut registered, &mut order);

    assert_eq!(order, vec![NodeIndex::Global, proc_node(a), proc_node(b)]);
    assert_eq!(registered, vec![true, true, true]);
    assert_eq!(outputs.get_connections(port(0, proc_node(a))).unwrap(), &vec![port(0, proc_node(b))]);
    assert_eq!(outputs.get_connections(port(0, proc_node(b))).unwrap(), &vec![port(0, NodeIndex::Global)]);
    assert_eq!(outputs.get_connections(port(0, NodeIndex::Global)).unwrap(), &vec![port(0, proc_node(a))]);
}

#[test]
fn diamond_registers_each_node_once() {
    let mut inputs = AudioGraphIO::with_global_io_config(1, 1);
    let top = inputs.insert_processor(2, 1);
    let left = inputs.insert_processor(1, 1);
    let right = inputs.insert_processor(1, 1);
    let source = inputs.insert_processor(1, 2);
    inputs.insert_edge(port(0, proc_node(top)), port(0, proc_node(left))).unwrap();
    inputs.insert_edge(port(1, proc_node(top)), port(0, proc_node(right))).unwrap();
    inputs.insert_edge(port(0, proc_node(left)), port(0, proc_node(source))).unwrap();
    inputs.insert_edge(port(0, proc_node(right)), port(1, proc_node(source))).unwrap();

    let mut outputs = inputs.with_opposite_config();
    let mut registered = vec![false; 5];
    let mut order = Vec::new();
    outputs.insert_opposite_ports(&inputs, proc_node(top), &mut registered, &mut order);
    assert_eq!(order, vec![proc_node(source), proc_node(left), proc_node(right)]);
    assert_eq!(outputs.get_connections(port(0, proc_node(source))).unwrap(), &vec![port(0, proc_node(left))]);
    assert_eq!(outputs.get_connections(port(1, proc_node(source))).unwrap(), &vec![port(0, proc_node(right))]);
}

#[test]
fn connectivity_with_missing_nodes() {
    let mut g = AudioGraphIO::with_global_io_config(1, 1);
    let a = g.insert_processor(1, 1);
    assert!(!g.connected(proc_node(a), proc_node(42)));
    assert!(g.connected(proc_node(42), proc_node(42)));
}

#[test]
fn mirror_walk_skips_marked_nodes() {
    let mut inputs = AudioGraphIO::with_global_io_config(1, 1);
    let a = inputs.insert_processor(1, 1);
    let b = inputs.insert_processor(1, 1);
    inputs.insert_edge(port(0, proc_node(b)), port(0, proc_node(a))).unwrap();
    let mut outputs = inputs.with_opposite_config();
    let mut registered = vec![true, false, false];
    let mut order = vec![proc_node(a)];
    outputs.insert_opposite_ports(&inputs, proc_node(b), &mut registered, &mut order);
    assert_eq!(order, vec![proc_node(a)]);
    assert_eq!(outputs.get_connections(port(0, proc_node(a))).unwrap(), &vec![port(0, proc_node(b))]);
}
