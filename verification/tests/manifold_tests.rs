use voxel_dag::engine::grid::graph::SparseDirectedGraph;
use voxel_dag::engine::grid::basic_node2d::Zorder2d::{BottomLeft, BottomRight, TopLeft, TopRight};
use voxel_dag::engine::grid::{Cell, DagPointer};
use voxel_dag::engine::physics::voxel::Voxels;
use voxel_dag::engine::physics::voxel::voxel_manifolds::{descend_split, descent_root, descend_pair, Descent, DescentStep};

fn split_shape() -> (SparseDirectedGraph, Voxels, u32) {
    let mut graph = SparseDirectedGraph::new();
    for _ in 0..4 {
        graph.add_leaf();
    }
    let inner = graph.get_root(1);
    let inner = graph.set_node(inner, &[TopLeft], 0);
    let head = graph.get_root(1);
    let head = graph.set_node(head, &[TopLeft], inner);
    let mut voxels = Voxels::new();
    voxels.update_shape(&graph, DagPointer::new(head, 2));
    (graph, voxels, head)
}

#[test]
fn descent_root_of_a_shape() {
    let (_, voxels, head) = split_shape();
    let root = descent_root(&voxels);
    assert_eq!(root.cell.len(), 0);
    assert_eq!(root.pointer, DagPointer::new(head, 2));
    assert_eq!(root.face, None);

    let mut graph = SparseDirectedGraph::new();
    for _ in 0..4 {
        graph.add_leaf();
    }
    let block = graph.get_root(3);
    let mut single = Voxels::new();
    single.update_shape(&graph, DagPointer::new(block, 0));
    assert_eq!(descent_root(&single).face, Some(0));
}

#[test]
fn descend_split_finds_the_faces_below_each_quadrant() {
    let (graph, voxels, head) = split_shape();
    let root = descent_root(&voxels);
    let splits = descend_split(&graph, &root, &voxels);
    let inner = graph.child(head, TopLeft);

    let top_left = splits[0].as_ref().unwrap();
    assert_eq!(top_left.cell.steps(), &[TopLeft]);
    assert_eq!(top_left.pointer, DagPointer::new(inner, 1));
    assert_eq!(top_left.face, None);

    let top_right = splits[1].as_ref().unwrap();
    assert_eq!(top_right.cell.steps(), &[TopRight]);
    assert_eq!(top_right.pointer, DagPointer::new(1, 1));
    assert_eq!(top_right.face, None);

    let bottom_left = splits[2].as_ref().unwrap();
    assert_eq!(bottom_left.cell.steps(), &[BottomLeft]);
    assert_eq!(bottom_left.face, None);

    let bottom_right = splits[3].as_ref().unwrap();
    assert_eq!(bottom_right.cell.steps(), &[BottomRight]);
    assert_eq!(bottom_right.pointer, DagPointer::new(1, 1));
    assert_eq!(bottom_right.face, Some(8));
}

#[test]
fn descend_split_leaves_out_quadrants_without_faces() {
    let mut graph = SparseDirectedGraph::new();
    for _ in 0..4 {
        graph.add_leaf();
    }
    let head = graph.get_root(0);
    let head = graph.set_node(head, &[BottomRight], 1);
    let mut voxels = Voxels::new();
    voxels.update_shape(&graph, DagPointer::new(head, 1));
    assert_eq!(voxels.faces.len(), 1);
    let splits = descend_split(&graph, &descent_root(&voxels), &voxels);
    assert!(splits[0].is_none());
    assert!(splits[1].is_none());
    assert!(splits[2].is_none());
    assert_eq!(splits[3].as_ref().unwrap().face, Some(0));
}

#[test]
fn descend_pair_splits_the_higher_cell_or_pairs_faces() {
    let (graph, voxels, head) = split_shape();
    let root = descent_root(&voxels);
    match descend_pair(&graph, &root, &voxels, &root, &voxels) {
        DescentStep::SplitFirst(splits) => assert_eq!(splits[3].as_ref().unwrap().face, Some(8)),
        _ => panic!("the first of two equal cells is split"),
    }
    let face = Descent::new(Cell::new([1, 1], 1), DagPointer::new(1, 1), Some(8));
    match descend_pair(&graph, &face, &voxels, &root, &voxels) {
        DescentStep::SplitSecond(splits) => assert_eq!(splits[0].as_ref().unwrap().pointer.head, graph.child(head, TopLeft)),
        _ => panic!("the cell that is not a face is split"),
    }
    let other = Descent::new(Cell::new([0, 0], 2), DagPointer::new(1, 0), Some(0));
    match descend_pair(&graph, &face, &voxels, &other, &voxels) {
        DescentStep::Candidate(a, b) => assert_eq!((a, b), (8, 0)),
        _ => panic!("two faces make a candidate"),
    }
}
