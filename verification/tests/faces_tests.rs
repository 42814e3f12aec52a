use voxel_dag::engine::systems::collisions::{cell_corner_mask, tree_corner_masks};
use voxel_dag::engine::utility::partition::ZorderPath;
use voxel_dag::engine::grid::graph::SparseDirectedGraph;
use voxel_dag::engine::grid::basic_node2d::Zorder2d::{self, BottomLeft, BottomRight, TopLeft, TopRight};
use voxel_dag::engine::grid::DagPointer;
use voxel_dag::engine::physics::voxel::{Voxels, Faces, Directions};

fn four_leaves() -> SparseDirectedGraph {
    let mut graph = SparseDirectedGraph::new();
    for _ in 0..4 {
        graph.add_leaf();
    }
    graph
}

fn sides(faces: &Faces) -> [bool; 4] {
    [faces.north(), faces.south(), faces.east(), faces.west()]
}

fn summary(voxels: &Voxels) -> Vec<([bool; 4], Vec<Zorder2d>)> {
    voxels.faces.iter().map(|(f, c)| (sides(f), c.steps().to_vec())).collect()
}

#[test]
fn directions_steps() {
    assert_eq!(Directions::North.step(), (0, -1));
    assert_eq!(Directions::South.step(), (0, 1));
    assert_eq!(Directions::East.step(), (1, 0));
    assert_eq!(Directions::West.step(), (-1, 0));
    assert_eq!(Directions::all(), [Directions::North, Directions::South, Directions::East, Directions::West]);
}

#[test]
fn voxels_start_empty() {
    let voxels = Voxels::new();
    assert_eq!(voxels.geometry, DagPointer::new(0, 0));
    assert!(voxels.faces.is_empty());
}

#[test]
fn single_block_is_open_on_every_side() {
    let mut graph = four_leaves();
    let head = graph.get_root(1);
    let mut voxels = Voxels::new();
    voxels.update_shape(&graph, DagPointer::new(head, 0));
    assert_eq!(voxels.geometry, DagPointer::new(1, 0));
    assert_eq!(summary(&voxels), vec![([true, true, true, true], vec![])]);
    let faces = &voxels.faces[0].0;
    assert!(faces.has_some());
    assert_eq!(faces.list(), vec![Directions::North, Directions::South, Directions::East, Directions::West]);
}

#[test]
fn air_has_no_faces() {
    let mut graph = four_leaves();
    let head = graph.get_root(0);
    let mut voxels = Voxels::new();
    voxels.update_shape(&graph, DagPointer::new(head, 0));
    assert!(voxels.faces.is_empty());
}

#[test]
fn blocks_beside_air_and_edges() {
    let mut graph = four_leaves();
    let head = graph.get_root(1);
    let head = graph.set_node(head, &[TopLeft], 0);
    let mut voxels = Voxels::new();
    voxels.update_shape(&graph, DagPointer::new(head, 1));
    assert_eq!(
        summary(&voxels),
        vec![
            ([true, false, true, true], vec![TopRight]),
            ([true, true, false, true], vec![BottomLeft]),
            ([false, true, true, false], vec![BottomRight]),
        ]
    );
    assert_eq!(voxels.faces[0].0.list(), vec![Directions::North, Directions::East, Directions::West]);
    assert_eq!(voxels.faces[2].0.list(), vec![Directions::South, Directions::East]);
}

#[test]
fn split_neighbours_are_looked_at_quadrant_by_quadrant() {
    let mut graph = four_leaves();
    let inner = graph.get_root(1);
    let inner = graph.set_node(inner, &[TopLeft], 0);
    let head = graph.get_root(1);
    let head = graph.set_node(head, &[TopLeft], inner);
    assert_eq!(*graph.node(head), [inner, 1, 1, 1]);
    let mut voxels = Voxels::new();
    voxels.update_shape(&graph, DagPointer::new(head, 2));
    let f = false;
    let t = true;
    assert_eq!(
        summary(&voxels),
        vec![
            ([t, f, f, t], vec![TopLeft, TopRight]),
            ([t, f, f, t], vec![TopLeft, BottomLeft]),
            ([t, f, f, f], vec![TopRight, TopLeft]),
            ([t, f, t, f], vec![TopRight, TopRight]),
            ([f, f, t, f], vec![TopRight, BottomRight]),
            ([f, f, f, t], vec![BottomLeft, TopLeft]),
            ([f, t, f, t], vec![BottomLeft, BottomLeft]),
            ([f, t, f, f], vec![BottomLeft, BottomRight]),
            ([f, t, t, f], vec![BottomRight]),
        ]
    );
    for (faces, _) in voxels.faces.iter() {
        assert!(faces.has_some());
    }
}

#[test]
fn update_shape_replaces_the_faces() {
    let mut graph = four_leaves();
    let solid = graph.get_root(1);
    let air = graph.get_root(0);
    let mut voxels = Voxels::new();
    voxels.update_shape(&graph, DagPointer::new(solid, 0));
    assert_eq!(voxels.faces.len(), 1);
    voxels.update_shape(&graph, DagPointer::new(air, 0));
    assert_eq!(voxels.geometry, DagPointer::new(0, 0));
    assert!(voxels.faces.is_empty());
}

#[test]
fn block_graph_holds_the_four_blocks() {
    let mut graph = voxel_dag::engine::physics::voxel::voxel_faces::block_graph();
    for i in 0..4u32 {
        assert_eq!(*graph.node(i), [i, i, i, i]);
    }
    assert_eq!(graph.add_leaf(), 4);
}

#[test]
fn corner_masks_of_a_two_by_two_grid() {
    let mut graph = four_leaves();
    let head = graph.get_root(1);
    let head = graph.set_node(head, &[TopLeft], 0);
    let start = DagPointer::new(head, 1);
    assert_eq!(cell_corner_mask(&graph, start, ZorderPath { zorder: 0, depth: 1 }), 0b0001);
    assert_eq!(cell_corner_mask(&graph, start, ZorderPath { zorder: 1, depth: 1 }), 0b0011);
    assert_eq!(cell_corner_mask(&graph, start, ZorderPath { zorder: 3, depth: 1 }), 0b1000);
}

#[test]
fn corner_checks_go_down_towards_the_corner() {
    let mut graph = four_leaves();
    let head = graph.get_root(0);
    let head = graph.set_node(head, &[TopRight, BottomLeft], 1);
    let start = DagPointer::new(head, 2);
    assert_eq!(cell_corner_mask(&graph, start, ZorderPath { zorder: 0, depth: 1 }), 0b0111);
    assert_eq!(cell_corner_mask(&graph, start, ZorderPath { zorder: 0, depth: 0 }), 0b1111);
}

#[test]
fn tree_corner_masks_mark_each_leaf() {
    let mut graph = four_leaves();
    let head = graph.get_root(1);
    let head = graph.set_node(head, &[TopLeft], 0);
    let masks = tree_corner_masks(&graph, DagPointer::new(head, 1));
    let expected: Vec<(u32, Vec<Zorder2d>, u8)> = vec![
        (0, vec![TopLeft], 0),
        (1, vec![TopRight], 0b0011),
        (1, vec![BottomLeft], 0b0101),
        (1, vec![BottomRight], 0b1000),
    ];
    assert_eq!(masks, expected);
}

fn comes_before(a: &[Zorder2d], b: &[Zorder2d]) -> bool {
    for (x, y) in a.iter().zip(b.iter()) {
        let (x, y) = (*x as usize, *y as usize);
        if x != y {
            return x < y;
        }
    }
    false
}

#[test]
fn faces_come_in_zorder_and_reshaping_again_changes_nothing() {
    let mut graph = four_leaves();
    let inner = graph.get_root(1);
    let inner = graph.set_node(inner, &[TopLeft], 0);
    let head = graph.get_root(1);
    let head = graph.set_node(head, &[TopLeft], inner);
    let head = graph.set_node(head, &[BottomRight, TopRight], 0);
    let mut voxels = Voxels::new();
    voxels.update_shape(&graph, DagPointer::new(head, 2));
    let cells: Vec<Vec<Zorder2d>> = voxels.faces.iter().map(|(_, c)| c.steps().to_vec()).collect();
    for i in 0..cells.len() {
        for j in i + 1..cells.len() {
            assert!(comes_before(&cells[i], &cells[j]));
        }
    }
    let first = summary(&voxels);
    voxels.update_shape(&graph, DagPointer::new(head, 2));
    assert_eq!(summary(&voxels), first);
}
