use voxel_dag::engine::blocks::{BlockPalette, CollisionType};
use voxel_dag::engine::systems::collisions::is_ignore;
use voxel_dag::editing::OtherData;
use voxel_dag::engine::systems::motion_handling::Configurations;
use voxel_dag::engine::grid::DagPointer;
use voxel_dag::enginev2::grid::DagPointer as DagPointerV2;
use voxel_dag::enginev2::physics::voxels::Voxels as VoxelsV2;

#[test]
fn configurations_from_index() {
    assert_eq!(Configurations::from_index(0), Configurations::TopLeft);
    assert_eq!(Configurations::from_index(1), Configurations::TopRight);
    assert_eq!(Configurations::from_index(2), Configurations::BottomLeft);
    assert_eq!(Configurations::from_index(3), Configurations::BottomRight);
}

#[test]
fn dag_pointers_hold_head_and_height() {
    let p = DagPointer::new(7, 3);
    assert_eq!((p.head, p.height), (7, 3));
    let q = DagPointerV2::new(9, 2);
    assert_eq!((q.head, q.height), (9, 2));
    let v = VoxelsV2::new(4, 5);
    assert_eq!((v.head, v.height), (4, 5));
}



#[test]
fn editing_choices_cycle() {
    let mut data = OtherData::default();
    assert_eq!((data.color, data.height, data.entity), (0, 0, 1));
    for expected in [1, 2, 3, 0, 1] {
        data.switch_color();
        assert_eq!(data.color, expected);
    }
    for expected in [1, 2, 3, 0] {
        data.switch_size();
        assert_eq!(data.height, expected);
    }
    data.switch_focus(2);
    assert_eq!(data.entity, 0);
    data.switch_focus(2);
    assert_eq!(data.entity, 1);
    data.switch_focus(1);
    assert_eq!(data.entity, 0);
    let block = data.block();
    assert_eq!((block.head, block.height), (1, 0));
}

#[test]
fn air_and_glass_are_ignored() {
    assert!(is_ignore(0));
    assert!(!is_ignore(1));
    assert!(is_ignore(2));
    assert!(!is_ignore(3));
}

#[test]
fn default_palette_alternates_air_and_solid() {
    let palette = BlockPalette::default();
    assert_eq!(palette.index_type(0), CollisionType::Air);
    assert_eq!(palette.index_type(1), CollisionType::Solid);
    assert_eq!(palette.index_type(2), CollisionType::Air);
    assert_eq!(palette.index_type(3), CollisionType::Solid);
    assert_eq!(palette.cell_type(None), CollisionType::Void);
    assert_eq!(palette.cell_type(Some(3)), CollisionType::Solid);
    assert!(!palette.is_solid_cell(None));
    assert!(palette.is_solid_cell(Some(1)));
    assert!(!palette.is_solid_cell(Some(2)));
    assert!(palette.is_solid_index(3));
    assert!(!palette.is_solid_index(0));
}
