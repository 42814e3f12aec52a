use voxel_dag::engine::grid::Cell;
use voxel_dag::engine::grid::graph::Step;
use voxel_dag::engine::grid::basic_node2d::Zorder2d::{self, BottomLeft, BottomRight, TopLeft, TopRight};

#[test]
fn zorder2d_steps_and_subcells() {
    assert_eq!(Zorder2d::all(), [TopLeft, TopRight, BottomLeft, BottomRight]);
    assert_eq!(BottomLeft.as_usize(), 2);
    assert_eq!(Zorder2d::new([1, 0]), Some(TopRight));
    assert_eq!(Zorder2d::new([0, 1]), Some(BottomLeft));
    assert_eq!(Zorder2d::new([2, 0]), None);
    assert_eq!(BottomLeft.subcell(), [0, 1]);
    assert_eq!(BottomRight.subcell(), [1, 1]);
}

#[test]
fn zorder2d_extract_last_step() {
    let mut cell = [5u32, 2u32];
    assert_eq!(Zorder2d::extract_last_step(&mut cell), Some(TopRight));
    assert_eq!(cell, [2, 1]);
    assert_eq!(Zorder2d::extract_last_step(&mut cell), Some(BottomLeft));
    assert_eq!(cell, [1, 0]);
}

#[test]
fn zorder2d_path_from_and_to_cell() {
    assert_eq!(Zorder2d::path_from_cell([5, 2], 3), Some(vec![TopRight, BottomLeft, TopRight]));
    assert_eq!(Zorder2d::path_from_cell([8, 0], 3), None);
    assert_eq!(Zorder2d::path_from_cell([0, 0], 0), Some(vec![]));
    assert_eq!(Zorder2d::path_to_cell(&[TopRight, BottomLeft, TopRight]), [5, 2]);
    assert_eq!(Zorder2d::path_to_cell(&[]), [0, 0]);
    for x in 0..16u32 {
        for y in 0..16u32 {
            let path = Zorder2d::path_from_cell([x, y], 4).unwrap();
            assert_eq!(path.len(), 4);
            assert_eq!(Zorder2d::path_to_cell(&path), [x, y]);
        }
    }
}

#[test]
fn cell_new_and_read_back() {
    let cell = Cell::new([5, 2], 3);
    assert_eq!(cell.len(), 3);
    assert_eq!(cell.steps(), &[TopRight, BottomLeft, TopRight]);
    assert_eq!(cell.cell(), [5, 2]);
    assert_eq!(cell.step_at(1), Some(BottomLeft));
    assert_eq!(cell.step_at(3), None);
}

#[test]
fn cell_push_and_pop() {
    let mut cell = Cell::default();
    assert_eq!(cell.len(), 0);
    assert_eq!(cell.pop_step(), None);
    cell.push_step(BottomRight);
    cell.push_step(TopLeft);
    assert_eq!(cell.cell(), [2, 2]);
    let copy = cell.clone();
    assert_eq!(cell.pop_step(), Some(TopLeft));
    assert_eq!(cell.steps(), &[BottomRight]);
    assert_eq!(copy.steps(), &[BottomRight, TopLeft]);
    let built = Cell::from_steps(vec![TopRight]);
    assert_eq!(built.cell(), [1, 0]);
}
