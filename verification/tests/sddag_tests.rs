use voxel_dag::sddag::{NodeAddress, Path, SparseDimensionlessDAG, EDIT_HEADROOM};

#[test]
fn path_unpacks_highest_slot_first() {
    let path = Path::from(0b0110, 2, 2);
    assert_eq!(path.directions(), &[1u8, 2u8][..]);
    let path = Path::from(0b10_01_11, 3, 2);
    assert_eq!(path.directions(), &[2u8, 1u8, 3u8][..]);
    let path = Path::from(0b101, 3, 1);
    assert_eq!(path.directions(), &[1u8, 0u8, 1u8][..]);
    assert!(Path::from(7, 0, 2).directions().is_empty());
}

#[test]
fn new_graph_holds_only_empty_nodes() {
    let graph = SparseDimensionlessDAG::new(2);
    assert_eq!(graph.node_pot.len(), 3);
    for layer in 0..3 {
        assert_eq!(graph.node_pot[layer].len(), 1);
        let node = graph.get_node(&NodeAddress::new(layer, 0));
        assert_eq!(node.child_indexes, [0, 0, 0, 0]);
        assert_eq!(node.ref_count, 0);
    }
    let root = NodeAddress::new(2, 0);
    assert_eq!(graph.read_node_child(&root, 0, &Path::from(0b01_10_11, 3, 2)), 0);
    assert_eq!(graph.df_to_binary(&root, 2), 0);
}

#[test]
fn set_then_read_gives_the_child() {
    let mut graph = SparseDimensionlessDAG::new(1);
    let mut root = NodeAddress::new(1, 0);
    let path = Path::from(0b0110, 2, 2);
    assert!(graph.counts_within(EDIT_HEADROOM));
    graph.set_node_child(&mut root, 0, &path, 1);
    assert_eq!(root.layer, 1);
    assert_ne!(root.index, 0);
    assert_eq!(graph.read_node_child(&root, 0, &path), 1);
    assert_eq!(graph.read_node_child(&root, 0, &Path::from(0b0111, 2, 2)), 0);
    assert_eq!(graph.read_node_child(&root, 0, &Path::from(0b0010, 2, 2)), 0);
    let top = graph.get_node(&root);
    assert_eq!(top.ref_count, 1);
    assert_eq!(top.child_indexes[0], 0);
    assert_ne!(top.child_indexes[1], 0);
    let bottom = graph.get_node(&NodeAddress::new(0, top.child_indexes[1]));
    assert_eq!(bottom.child_indexes, [0, 0, 1, 0]);
    assert_eq!(bottom.ref_count, 1);
}

#[test]
fn read_on_another_layer_reads_that_layer() {
    let mut graph = SparseDimensionlessDAG::new(1);
    let mut root = NodeAddress::new(1, 0);
    let path = Path::from(0b0110, 2, 2);
    graph.set_node_child(&mut root, 0, &path, 1);
    let below = graph.get_node(&root).child_indexes[1];
    assert_eq!(below, 1);
    assert_eq!(root.index, 1);
    let expected = graph.get_node(&NodeAddress::new(1, below)).child_indexes[2];
    assert_eq!(expected, 0);
    assert_eq!(graph.read_node_child(&root, 1, &path), expected);
    assert_ne!(graph.read_node_child(&root, 1, &Path::from(0b0101, 2, 2)), 0);
}

#[test]
fn second_write_keeps_the_first() {
    let mut graph = SparseDimensionlessDAG::new(1);
    let mut root = NodeAddress::new(1, 0);
    let first = Path::from(0b0110, 2, 2);
    let second = Path::from(0b1001, 2, 2);
    graph.set_node_child(&mut root, 0, &first, 1);
    assert!(graph.counts_within(EDIT_HEADROOM));
    graph.set_node_child(&mut root, 0, &second, 1);
    assert_eq!(graph.read_node_child(&root, 0, &first), 1);
    assert_eq!(graph.read_node_child(&root, 0, &second), 1);
    assert_eq!(graph.df_to_binary(&root, 2), (1u64 << 6) | (1u64 << 9));
}

#[test]
fn equal_subtrees_are_shared() {
    let mut graph = SparseDimensionlessDAG::new(1);
    let mut root = NodeAddress::new(1, 0);
    graph.set_node_child(&mut root, 0, &Path::from(0b0001, 2, 2), 1);
    graph.set_node_child(&mut root, 0, &Path::from(0b1001, 2, 2), 1);
    let top = graph.get_node(&root);
    assert_eq!(top.child_indexes[0], top.child_indexes[2]);
    let shared = graph.get_node(&NodeAddress::new(0, top.child_indexes[0]));
    assert_eq!(shared.child_indexes, [0, 1, 0, 0]);
    assert_eq!(shared.ref_count, 2);
    assert_eq!(graph.df_to_binary(&root, 2), (1u64 << 1) | (1u64 << 9));
}

#[test]
fn clearing_the_last_cell_empties_the_root() {
    let mut graph = SparseDimensionlessDAG::new(2);
    let mut root = NodeAddress::new(2, 0);
    let path = Path::from(0b11_00_10, 3, 2);
    graph.set_node_child(&mut root, 0, &path, 1);
    assert_ne!(root.index, 0);
    assert_eq!(graph.df_to_binary(&root, 2), 1u64 << 50);
    graph.set_node_child(&mut root, 0, &path, 0);
    assert_eq!(root.index, 0);
    assert_eq!(graph.df_to_binary(&root, 2), 0);
    for layer in 0..3 {
        for node in graph.node_pot[layer].iter() {
            assert_eq!(node.child_indexes, [0, 0, 0, 0]);
            assert_eq!(node.ref_count, 0);
        }
    }
}

#[test]
fn two_roots_share_and_stay_apart() {
    let mut graph = SparseDimensionlessDAG::new(1);
    let mut a = NodeAddress::new(1, 0);
    let mut b = NodeAddress::new(1, 0);
    let path = Path::from(0b0011, 2, 2);
    graph.set_node_child(&mut a, 0, &path, 1);
    graph.set_node_child(&mut b, 0, &path, 1);
    assert_eq!(a.index, b.index);
    assert_eq!(graph.get_node(&a).ref_count, 2);
    graph.set_node_child(&mut b, 0, &Path::from(0b0100, 2, 2), 1);
    assert_ne!(a.index, b.index);
    assert_eq!(graph.read_node_child(&a, 0, &path), 1);
    assert_eq!(graph.read_node_child(&a, 0, &Path::from(0b0100, 2, 2)), 0);
    assert_eq!(graph.read_node_child(&b, 0, &Path::from(0b0100, 2, 2)), 1);
    assert_eq!(graph.get_node(&a).ref_count, 1);
    assert_eq!(graph.get_node(&b).ref_count, 1);
}

#[test]
fn node_address_keeps_its_fields() {
    let address = NodeAddress::new(3, 17);
    assert_eq!(address.layer, 3);
    assert_eq!(address.index, 17);
}

#[test]
fn sixty_four_cells_fill_a_u64() {
    let mut graph = SparseDimensionlessDAG::new(2);
    let mut root = NodeAddress::new(2, 0);
    graph.set_node_child(&mut root, 0, &Path::from(0b11_11_11, 3, 2), 1);
    graph.set_node_child(&mut root, 0, &Path::from(0, 3, 2), 1);
    assert_eq!(graph.df_to_binary(&root, 2), (1u64 << 63) | 1);
}
