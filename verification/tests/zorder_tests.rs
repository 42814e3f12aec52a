use voxel_dag::graph::Zorder;
use voxel_dag::engine::utility::partition::ZorderPath;

#[test]
fn zorder_from_cell_interleaves_bits() {
    assert_eq!(Zorder::from_cell((3, 1), 2), 7);
    assert_eq!(Zorder::from_cell((5, 2), 3), 25);
    assert_eq!(Zorder::from_cell((0, 0), 0), 0);
}

#[test]
fn zorder_to_cell_reads_back_the_cell() {
    assert_eq!(Zorder::to_cell(7, 2), (3, 1));
    assert_eq!(Zorder::to_cell(25, 3), (5, 2));
    for x in 0..8u32 {
        for y in 0..8u32 {
            let z = Zorder::from_cell((x, y), 3);
            assert!(z < 64);
            assert_eq!(Zorder::to_cell(z, 3), (x, y));
        }
    }
}

#[test]
fn zorder_cell_roundtrip_from_index() {
    for z in 0..256u32 {
        assert_eq!(Zorder::from_cell(Zorder::to_cell(z, 4), 4), z);
    }
}

#[test]
fn zorder_from_cell_drops_bits_beyond_depth() {
    assert_eq!(Zorder::from_cell((5, 2), 2), Zorder::from_cell((1, 2), 2));
}

#[test]
fn zorder_move_cartesianly() {
    assert_eq!(Zorder::move_cartesianly(25, 3, (1, 0)), Some(28));
    assert_eq!(Zorder::move_cartesianly(25, 3, (0, 0)), Some(25));
    assert_eq!(Zorder::move_cartesianly(25, 3, (-6, 0)), None);
    assert_eq!(Zorder::move_cartesianly(25, 3, (3, 0)), None);
    assert_eq!(Zorder::move_cartesianly(25, 3, (0, 5)), Some(Zorder::from_cell((5, 7), 3)));
    assert_eq!(Zorder::move_cartesianly(25, 3, (0, 6)), None);
}

#[test]
fn zorder_read_and_path() {
    assert_eq!(Zorder::read(25, 1, 3), 1);
    assert_eq!(Zorder::read(25, 2, 3), 2);
    assert_eq!(Zorder::read(25, 3, 3), 1);
    assert_eq!(Zorder::path(25, 3), vec![1, 2, 1]);
    assert_eq!(Zorder::path(0, 0), Vec::<u32>::new());
}

#[test]
fn zorder_divergence_depth() {
    assert_eq!(Zorder::divergence_depth(25, 24, 3), Some(3));
    assert_eq!(Zorder::divergence_depth(25, 25, 3), None);
    assert_eq!(Zorder::divergence_depth(25, 9, 3), Some(1));
    assert_eq!(Zorder::divergence_depth(25, 29, 3), Some(2));
}

#[test]
fn zorder_path_root_and_cells() {
    let root = ZorderPath::root();
    assert_eq!(root, ZorderPath { zorder: 0, depth: 0 });
    let p = ZorderPath::from_cell([5, 2], 3);
    assert_eq!(p, ZorderPath { zorder: 25, depth: 3 });
    assert_eq!(p.to_cell(), [5, 2]);
}

#[test]
fn zorder_path_with_depth() {
    let p = ZorderPath { zorder: 25, depth: 3 };
    assert_eq!(p.with_depth(1), ZorderPath { zorder: 1, depth: 1 });
    assert_eq!(p.with_depth(4), ZorderPath { zorder: 100, depth: 4 });
    assert_eq!(p.with_depth(3), p);
    assert_eq!(p.with_depth(5).with_depth(3), p);
    assert_eq!(ZorderPath { zorder: 0xFFFF_FFFF, depth: 1 }.with_depth(2), ZorderPath { zorder: 0xFFFF_FFFC, depth: 2 });
}

#[test]
fn zorder_path_read_step_and_steps() {
    let p = ZorderPath { zorder: 25, depth: 3 };
    assert_eq!(p.read_step(1), 1);
    assert_eq!(p.read_step(2), 2);
    assert_eq!(p.read_step(3), 1);
    assert_eq!(p.steps(), vec![1, 2, 1]);
    assert_eq!(ZorderPath::root().steps(), Vec::<u32>::new());
}

#[test]
fn zorder_path_move_cartesianly() {
    let p = ZorderPath { zorder: 25, depth: 3 };
    assert_eq!(p.move_cartesianly((1, 0)), Some(ZorderPath { zorder: 28, depth: 3 }));
    assert_eq!(p.move_cartesianly((-6, 0)), None);
    assert_eq!(p.move_cartesianly((0, 0)), Some(p));
}

#[test]
fn zorder_path_step_down_and_parent() {
    let p = ZorderPath { zorder: 25, depth: 3 };
    let child = p.step_down(3);
    assert_eq!(child, ZorderPath { zorder: 103, depth: 4 });
    assert_eq!(child.with_depth(3), p);
    assert_eq!(ZorderPath::root().step_down(2), ZorderPath { zorder: 2, depth: 1 });
}

#[test]
fn zorder_path_shared_parent() {
    let a = ZorderPath { zorder: 25, depth: 3 };
    let b = ZorderPath { zorder: 24, depth: 3 };
    assert_eq!(a.shared_parent(b), ZorderPath { zorder: 6, depth: 2 });
    assert_eq!(a.shared_parent(ZorderPath { zorder: 1, depth: 1 }), ZorderPath { zorder: 1, depth: 1 });
    assert_eq!(a.shared_parent(a), a);
    assert_eq!(a.shared_parent(ZorderPath { zorder: 9, depth: 3 }), ZorderPath { zorder: 0, depth: 0 });
}

#[test]
fn zorder_path_shared_parent_without_common_ancestor() {
    let a = ZorderPath { zorder: 0x40, depth: 2 };
    let b = ZorderPath { zorder: 0x00, depth: 2 };
    assert_eq!(a.shared_parent(b), ZorderPath { zorder: 0, depth: 0 });
}

#[test]
fn zorder_move_and_move_back() {
    for depth in 0..5u32 {
        let side = 1i32 << depth;
        for zorder in 0..(1u32 << (2 * depth)) {
            for offset in [(1, 0), (-1, 0), (0, 1), (0, -1), (2, -1), (-3, 3)] {
                if let Some(moved) = Zorder::move_cartesianly(zorder, depth, offset) {
                    assert_eq!(Zorder::move_cartesianly(moved, depth, (-offset.0, -offset.1)), Some(zorder));
                } else {
                    let (x, y) = Zorder::to_cell(zorder, depth);
                    let (ex, ey) = (x as i32 + offset.0, y as i32 + offset.1);
                    assert!(ex < 0 || ey < 0 || ex >= side || ey >= side);
                }
            }
        }
    }
}

#[test]
fn zorder_path_digits_spell_the_index() {
    for depth in 0..6u32 {
        for zorder in 0..(1u32 << (2 * depth)) {
            let digits = Zorder::path(zorder, depth);
            assert_eq!(digits.iter().fold(0u32, |v, &d| 4 * v + d), zorder);
            let steps = ZorderPath { zorder, depth }.steps();
            assert_eq!(steps, digits);
        }
    }
    assert_eq!(Zorder::path(27, 3), vec![1, 2, 3]);
}

#[test]
fn zorder_path_shared_parent_is_symmetric_and_contains_both() {
    let depth = 3u32;
    for za in 0..64u32 {
        for zb in 0..64u32 {
            let a = ZorderPath { zorder: za, depth };
            let b = ZorderPath { zorder: zb, depth };
            let r = a.shared_parent(b);
            assert_eq!(r, b.shared_parent(a));
            assert!(r.depth <= depth);
            assert_eq!(a.with_depth(r.depth), r);
            assert_eq!(b.with_depth(r.depth), r);
            for d in r.depth + 1..=depth {
                assert_ne!(a.with_depth(d), b.with_depth(d));
            }
        }
    }
}
