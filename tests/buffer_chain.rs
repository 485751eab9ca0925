use audio_graph::buffer::{new_owned_buffer, BufferIndex, LocalBufferNode, OutputBufferIndex, ReadOnly};

fn three_levels() -> audio_graph::buffer::LocalBufferNode<i32> {
    let top = LocalBufferNode::toplevel(vec![vec![1, 2, 3, 4, 5, 6, 7, 8], vec![10, 20, 30, 40, 50, 60, 70, 80]])
        .with_indices(
            vec![Some(BufferIndex::Output(OutputBufferIndex::Local(0)))],
            vec![Some(OutputBufferIndex::Local(1))],
        );
    let middle = top.append(vec![]).with_indices(
        vec![Some(BufferIndex::MasterInput(0))],
        vec![Some(OutputBufferIndex::Master(0))],
    );
    middle.append(vec![vec![0; 8]])
}

#[test]
fn three_level_input_resolves_to_top_buffer_window() {
    let leaf = three_levels().with_buffer_pos(2, 3);
    assert_eq!(leaf.get_input(BufferIndex::MasterInput(0)), Some(&[3, 4, 5][..]));
    assert_eq!(leaf.get_input_shared(BufferIndex::MasterInput(0)), Some(&[3, 4, 5][..]));
}

#[test]
fn three_level_output_writes_reach_the_top() {
    let mut leaf = three_levels().with_buffer_pos(4, 2);
    {
        let out = leaf.get_output(OutputBufferIndex::Master(0)).unwrap();
        out[0] = -1;
        out[1] = -2;
    }
    assert_eq!(leaf.get_output_shared(OutputBufferIndex::Master(0)), Some(&[-1, -2][..]));
    let whole = leaf.get_input(BufferIndex::Output(OutputBufferIndex::Local(0)));
    assert_eq!(whole, Some(&[0, 0][..]));
}

#[test]
fn unwindowed_resolution() {
    let mut leaf = three_levels();
    assert_eq!(leaf.get_input(BufferIndex::MasterInput(0)).unwrap().len(), 8);
    assert_eq!(
        leaf.get_output_shared(OutputBufferIndex::Master(0)),
        Some(&[10, 20, 30, 40, 50, 60, 70, 80][..])
    );
    leaf.get_output(OutputBufferIndex::Local(0)).unwrap()[7] = 9;
    assert_eq!(leaf.get_input_shared(BufferIndex::Output(OutputBufferIndex::Local(0))).unwrap()[7], 9);
    let (parent, buffers) = leaf.into_parts();
    assert!(parent.is_some());
    assert_eq!(buffers[0][7], 9);
}

#[test]
fn unconnected_and_missing_ports_give_nothing() {
    let node = LocalBufferNode::toplevel(vec![vec![1.0f32, 2.0]]).with_indices(
        vec![None, Some(BufferIndex::Output(OutputBufferIndex::Local(0)))],
        vec![None],
    );
    assert_eq!(node.get_input(0), None);
    assert_eq!(node.get_input(1), Some(&[1.0f32, 2.0][..]));
    assert_eq!(node.get_input(2), None);
    assert_eq!(node.get_output_shared(0), None);
    assert_eq!(node.get_output_shared(5), None);
}

#[test]
fn handles_window_port_tables() {
    let mut handle = LocalBufferNode::toplevel(vec![vec![1, 2, 3, 4], vec![0, 0, 0, 0]])
        .with_indices(
            vec![Some(BufferIndex::Output(OutputBufferIndex::Local(0)))],
            vec![Some(OutputBufferIndex::Local(1)), None],
        )
        .with_buffer_pos(1, 2);
    assert_eq!(handle.buffer_size(), 2);
    assert_eq!(handle.get_input(0), Some(&[2, 3][..]));
    assert_eq!(handle.get_input_shared(0), Some(&[2, 3][..]));
    handle.get_output(0).unwrap()[1] = 7;
    assert_eq!(handle.get_output_shared(0), Some(&[0, 7][..]));
    assert!(handle.get_output(1).is_none());

    let mut child = handle.append(vec![vec![5, 6, 7, 8]]);
    assert_eq!(child.get_input(BufferIndex::MasterInput(0)), Some(&[2, 3][..]));
    assert_eq!(child.get_output_shared(OutputBufferIndex::Local(0)), Some(&[6, 7][..]));
    child.get_output(OutputBufferIndex::Master(0)).unwrap()[0] = 4;
    assert_eq!(child.get_output_shared(OutputBufferIndex::Master(0)), Some(&[4, 7][..]));
    let node = child.with_indices(vec![Some(BufferIndex::MasterInput(0))], vec![]);
    assert_eq!(node.get_input(0), Some(&[2, 3][..]));
}

#[test]
fn read_only_view_reads_its_value() {
    let view = ReadOnly::from_cell(42u8);
    assert_eq!(view.get(), 42);
    let samples = ReadOnly::from_cell([0.5f32, -0.5]);
    assert_eq!(samples.get(), [0.5, -0.5]);
}

#[test]
fn new_buffers_are_zeroed() {
    let b = new_owned_buffer(4, 0i16);
    assert_eq!(b, vec![0, 0, 0, 0]);
    assert!(new_owned_buffer(0, 0u8).is_empty());
}

#[test]
fn default_node_has_no_buffers() {
    let node: audio_graph::buffer::BufferNode<i32> = Default::default();
    assert_eq!(node.get_input(0), None);
    assert_eq!(node.get_output_shared(0), None);
    let (parent, buffers) = LocalBufferNode::<i32>::default().into_parts();
    assert!(parent.is_none());
    assert!(buffers.is_empty());
}

#[test]
fn chain_unwinds_to_the_top_buffers() {
    let mut leaf = three_levels().with_buffer_pos(0, 2);
    leaf.get_output(OutputBufferIndex::Master(0)).unwrap()[1] = 99;
    let (middle, _) = leaf.into_node().into_parts();
    let (middle_scope, inputs, outputs) = middle.unwrap().into_parts();
    assert_eq!(inputs.len(), 1);
    assert_eq!(outputs, vec![Some(OutputBufferIndex::Master(0))]);
    let (top, _) = middle_scope.into_parts();
    let (top_scope, _, _) = top.unwrap().into_parts();
    let (none, buffers) = top_scope.into_parts();
    assert!(none.is_none());
    assert_eq!(buffers[1], vec![10, 99, 30, 40, 50, 60, 70, 80]);
    assert_eq!(buffers[0], vec![1, 2, 3, 4, 5, 6, 7, 8]);

    let node = LocalBufferNode::toplevel(vec![vec![1u8]]).with_indices(vec![], vec![]).with_buffer_pos(0, 1);
    assert_eq!(node.buffer_size(), 1);
    let (scope, _, _) = node.into_node().into_parts();
    assert_eq!(scope.into_parts().1, vec![vec![1u8]]);
}
