use voxel_dag::engine::grid::graph::{SparseDirectedGraph, Step, Node, dfs_leaves, bfs_nodes};
use voxel_dag::engine::grid::basic_node2d::Zorder2d::{self, BottomLeft, BottomRight, TopLeft, TopRight};

fn four_leaves() -> SparseDirectedGraph {
    let mut graph = SparseDirectedGraph::new();
    for expected in 0..4u32 {
        assert_eq!(graph.add_leaf(), expected);
    }
    graph
}

#[test]
fn graph_leaves_are_their_own_children() {
    let graph = four_leaves();
    assert_eq!(*graph.node(2), [2, 2, 2, 2]);
    for &step in Zorder2d::all().iter() {
        assert_eq!(graph.child(3, step), 3);
    }
    assert_eq!(graph.descend(1, &[TopLeft, BottomRight, TopRight]), 1);
}

#[test]
fn graph_set_node_reads_back_what_was_written() {
    let mut graph = four_leaves();
    let head = graph.get_root(1);
    assert_eq!(head, 1);
    let head = graph.set_node(head, &[TopLeft], 0);
    assert_eq!(head, 4);
    assert_eq!(*graph.node(4), [0, 1, 1, 1]);
    assert_eq!(graph.descend(head, &[TopLeft]), 0);
    assert_eq!(graph.descend(head, &[TopRight]), 1);
    assert_eq!(graph.descend(head, &[BottomLeft]), 1);
    assert_eq!(graph.descend(head, &[BottomRight, TopLeft]), 1);
}

#[test]
fn graph_equal_nodes_share_one_index() {
    let mut graph = four_leaves();
    let first = graph.get_root(1);
    let first = graph.set_node(first, &[TopLeft], 0);
    let second = graph.get_root(1);
    let second = graph.set_node(second, &[TopLeft], 0);
    assert_eq!(first, second);
    assert_eq!(first, 4);
}

#[test]
fn graph_set_node_to_the_same_value_changes_nothing() {
    let mut graph = four_leaves();
    let head = graph.get_root(1);
    let head = graph.set_node(head, &[TopLeft], 0);
    let again = graph.set_node(head, &[TopLeft], 0);
    assert_eq!(again, head);
    assert_eq!(graph.add_leaf(), 5);
}

#[test]
fn graph_set_node_on_an_unheld_head_that_already_matches() {
    let mut graph = four_leaves();
    let head = graph.set_node(1, &[TopLeft], 1);
    assert_eq!(head, 1);
    assert_eq!(graph.descend(1, &[TopLeft, BottomRight]), 1);
    assert_eq!(graph.add_leaf(), 4);
}

#[test]
fn graph_deep_edit_keeps_other_roots() {
    let mut graph = four_leaves();
    let kept = graph.get_root(1);
    let kept = graph.set_node(kept, &[TopLeft], 0);
    let edited = graph.get_root(1);
    let edited = graph.set_node(edited, &[TopLeft], 0);
    assert_eq!(kept, edited);
    let edited = graph.set_node(edited, &[BottomRight, BottomRight], 3);
    assert_eq!(edited, 6);
    assert_eq!(*graph.node(5), [1, 1, 1, 3]);
    assert_eq!(*graph.node(6), [0, 1, 1, 5]);
    assert_eq!(graph.descend(edited, &[BottomRight, BottomRight]), 3);
    assert_eq!(graph.descend(edited, &[BottomRight, TopLeft]), 1);
    assert_eq!(graph.descend(edited, &[TopLeft]), 0);
    // The other root still reads the tree it held.
    assert_eq!(graph.descend(kept, &[BottomRight, BottomRight]), 1);
    assert_eq!(*graph.node(kept), [0, 1, 1, 1]);
    assert_eq!(graph.get_trail(edited, &[BottomRight, BottomRight]), vec![6, 5, 3]);
}

#[test]
fn graph_unreferenced_nodes_are_freed_and_reused() {
    let mut graph = four_leaves();
    let head = graph.get_root(1);
    let head = graph.set_node(head, &[TopLeft], 0);
    assert_eq!(head, 4);
    // Writing the leaf back makes the whole tree leaf 1 again; node 4 loses
    // its last reference.
    let head = graph.set_node(head, &[TopLeft], 1);
    assert_eq!(head, 1);
    assert_eq!(graph.add_leaf(), 4);
    assert_eq!(*graph.node(4), [4, 4, 4, 4]);
}

#[test]
fn graph_set_node_at_the_head() {
    let mut graph = four_leaves();
    let head = graph.get_root(1);
    let head = graph.set_node(head, &[], 2);
    assert_eq!(head, 2);
    assert_eq!(graph.descend(head, &[]), 2);
}

#[test]
fn graph_dfs_leaves_in_zorder() {
    let mut graph = four_leaves();
    let head = graph.get_root(1);
    let head = graph.set_node(head, &[TopLeft], 0);
    let head = graph.set_node(head, &[BottomRight, BottomRight], 3);
    let leaves = dfs_leaves(&graph, head);
    let expected: Vec<(u32, Vec<Zorder2d>)> = vec![
        (0, vec![TopLeft]),
        (1, vec![TopRight]),
        (1, vec![BottomLeft]),
        (1, vec![BottomRight, TopLeft]),
        (1, vec![BottomRight, TopRight]),
        (1, vec![BottomRight, BottomLeft]),
        (3, vec![BottomRight, BottomRight]),
    ];
    assert_eq!(leaves, expected);
    for (leaf, path) in leaves.iter() {
        assert_eq!(graph.descend(head, path), *leaf);
    }
    assert_eq!(dfs_leaves(&graph, 2), vec![(2, vec![])]);
}

#[test]
fn graph_node_children() {
    let node: [u32; 4] = [7, 8, 9, 10];
    assert_eq!(node.child(TopLeft), 7);
    assert_eq!(node.child(BottomRight), 10);
    assert_eq!(node.with_child(BottomLeft, 1), [7, 8, 1, 10]);
    assert_eq!(node, [7, 8, 9, 10]);
}

#[test]
fn graph_bfs_nodes_breadth_first() {
    let mut graph = four_leaves();
    let head = graph.get_root(1);
    let head = graph.set_node(head, &[TopLeft], 0);
    let head = graph.set_node(head, &[BottomRight, BottomRight], 3);
    assert_eq!(head, 6);
    assert_eq!(bfs_nodes(&graph, head), vec![6, 0, 1, 1, 5, 1, 1, 1, 3]);
    assert_eq!(bfs_nodes(&graph, 2), vec![2]);
}

#[test]
fn graph_room_is_tested_from_the_counts() {
    let mut graph = four_leaves();
    assert!(graph.has_room_for(0));
    assert!(graph.has_room_for(1000));
    assert!(!graph.has_room_for(usize::MAX));
    // Four leaves hold sixteen self references: 16 + 4 * extra + 1 must stay under u32::MAX.
    assert!(graph.has_room_for(1_073_741_819));
    assert!(!graph.has_room_for(1_073_741_820));
    let head = graph.get_root(1);
    let _ = graph.set_node(head, &[TopLeft], 0);
    assert!(graph.has_room_for(0));
}
