//! Which blocks the corner search passes through, and which corners of a
//! cell are exposed to it.
use vstd::prelude::*;

verus! {

use crate::engine::grid::DagPointer;
use crate::engine::grid::graph::{SparseDirectedGraph, Step, Index, dfs_leaves, copy_path, leaf_list_view};
use crate::engine::grid::basic_node2d::{Zorder2d, zorder2d_from_index, path_cell_x, path_cell_y, lemma_path_cell_bound};
use vstd::arithmetic::div_mod::lemma_small_mod;
use crate::engine::utility::partition::ZorderPath;
use crate::graph::{cell_x_of, cell_y_of, zorder_of, zorder_digit, wrap32, lemma_cell_bounds};
use vstd::arithmetic::power2::{pow2, lemma2_to64, lemma_pow2_strictly_increases};

/// The block kinds that collisions pass through: air (0) and the see-through
/// block (2).
pub fn is_ignore(index: usize) -> (r: bool)
    ensures
        r == (index == 2 || index == 0),
{
    index == 2 || index == 0
}

/// Check `k` (0 to 2) of corner `c` (0 to 3: top left, top right, bottom
/// left, bottom right): the offset of a neighbouring cell, and the quadrant
/// that, taken all the way down, reaches the part of it that touches the
/// corner.
pub open spec fn corner_check(c: int, k: int) -> ((int, int), u32) {
    if c == 0 {
        if k == 0 { ((-1, 0), 1) } else if k == 1 { ((0, -1), 2) } else { ((-1, -1), 3) }
    } else if c == 1 {
        if k == 0 { ((1, 0), 0) } else if k == 1 { ((0, -1), 3) } else { ((1, -1), 2) }
    } else if c == 2 {
        if k == 0 { ((-1, 0), 3) } else if k == 1 { ((0, 1), 0) } else { ((-1, 1), 1) }
    } else {
        if k == 0 { ((1, 0), 2) } else if k == 1 { ((0, 1), 1) } else { ((1, 1), 0) }
    }
}

/// The checks of a corner look at the three cells around it, and in each go
/// down into the quadrant that touches the corner. Corner `c` lies at
/// `(c % 2, c / 2)` of its cell (`x` to the right, `y` downwards); check 0
/// looks at the cell beside it in `x`, check 1 at the one beside it in `y`,
/// check 2 at the one across it diagonally; and the quadrant taken in that
/// cell has the corner's own coordinates, mirrored across each edge the two
/// cells share.
pub proof fn lemma_checks_touch_the_corner(c: int, k: int)
    requires
        0 <= c < 4,
        0 <= k < 3,
    ensures
        ({
            let cx = c % 2;
            let cy = c / 2;
            let dx = corner_check(c, k).0.0;
            let dy = corner_check(c, k).0.1;
            let q = zorder2d_from_index(corner_check(c, k).1 as nat);
            &&& corner_check(c, k).1 < 4
            &&& dx == (if k == 1 { 0 } else { 2 * cx - 1 })
            &&& dy == (if k == 0 { 0 } else { 2 * cy - 1 })
            &&& q.subcell_x() == (if dx != 0 { 1 - cx } else { cx })
            &&& q.subcell_y() == (if dy != 0 { 1 - cy } else { cy })
        }),
{
}

/// The Z-order index `z` taken `n` layers down, always into quadrant `dir`.
pub open spec fn stepped_down(z: nat, n: nat, dir: nat) -> nat
    decreases n,
{
    if n == 0 {
        z
    } else {
        wrap32(4 * stepped_down(z, (n - 1) as nat, dir) + dir)
    }
}

/// The quadrants, top first, that lead to the cell `z` at `depth`.
pub open spec fn digit_path(z: nat, depth: nat) -> Seq<Zorder2d> {
    Seq::new(depth, |i: int| zorder2d_from_index(zorder_digit(z, (i + 1) as nat, depth)))
}

/// Check `k` of corner `c` of the cell `zorder` finds a block that collisions
/// do not pass through: the neighbouring cell is on the grid, and the leaf
/// reached from `start` by going down it towards the corner is neither air
/// nor the see-through block.
pub open spec fn neighbour_blocked(g: &SparseDirectedGraph, start: DagPointer, zorder: ZorderPath, c: int, k: int) -> bool {
    let check = corner_check(c, k);
    let ex = cell_x_of(zorder.zorder as nat, zorder.depth as nat) + check.0.0;
    let ey = cell_y_of(zorder.zorder as nat, zorder.depth as nat) + check.0.1;
    let side = pow2(zorder.depth as nat);
    if ex < 0 || ey < 0 || ex >= side || ey >= side {
        false
    } else {
        let z = (zorder_of(ex as nat, ey as nat, zorder.depth as nat) as u32) as nat;
        let full = stepped_down(z, (start.height - zorder.depth) as nat, check.1 as nat);
        let leaf = g.descend_spec(start.head, digit_path(full, start.height as nat));
        !(leaf == 2 || leaf == 0)
    }
}

/// Corner `c` of the cell is exposed: none of its three checks finds a block.
pub open spec fn corner_open(g: &SparseDirectedGraph, start: DagPointer, zorder: ZorderPath, c: int) -> bool {
    !neighbour_blocked(g, start, zorder, c, 0) && !neighbour_blocked(g, start, zorder, c, 1) && !neighbour_blocked(
        g,
        start,
        zorder,
        c,
        2,
    )
}

/// The bits of the exposed corners among the first `n`, bit `c` for corner `c`.
pub open spec fn open_bits(g: &SparseDirectedGraph, start: DagPointer, zorder: ZorderPath, n: int) -> int
    decreases n,
{
    if n <= 0 {
        0
    } else {
        open_bits(g, start, zorder, n - 1) + (if corner_open(g, start, zorder, n - 1) { pow2((n - 1) as nat) as int } else { 0 })
    }
}

proof fn lemma_open_bits_nonneg(g: &SparseDirectedGraph, start: DagPointer, zorder: ZorderPath, n: int)
    ensures
        open_bits(g, start, zorder, n) >= 0,
    decreases n,
{
    if n > 0 {
        lemma_open_bits_nonneg(g, start, zorder, n - 1);
    }
}

fn corner_check_of(c: usize, k: usize) -> (r: ((i32, i32), u32))
    requires
        c < 4,
        k < 3,
    ensures
        r.0.0 == corner_check(c as int, k as int).0.0,
        r.0.1 == corner_check(c as int, k as int).0.1,
        r.1 == corner_check(c as int, k as int).1,
{
    let checks: [((i32, i32), u32); 12] = [
        ((-1, 0), 0b01),
        ((0, -1), 0b10),
        ((-1, -1), 0b11),
        ((1, 0), 0b00),
        ((0, -1), 0b11),
        ((1, -1), 0b10),
        ((-1, 0), 0b11),
        ((0, 1), 0b00),
        ((-1, 1), 0b01),
        ((1, 0), 0b10),
        ((0, 1), 0b01),
        ((1, 1), 0b00),
    ];
    checks[c * 3 + k]
}

/// The quadrants named by the digits `digits` (each under 4).
fn digits_to_steps(digits: &Vec<u32>) -> (r: Vec<Zorder2d>)
    requires
        forall|i: int| 0 <= i < digits.len() ==> #[trigger] digits[i] < 4,
    ensures
        r.len() == digits.len(),
        forall|i: int| 0 <= i < digits.len() ==> #[trigger] r[i] == zorder2d_from_index(digits[i] as nat),
{
    let all = Zorder2d::all();
    let mut r: Vec<Zorder2d> = Vec::with_capacity(digits.len());
    let mut i: usize = 0;
    while i < digits.len()
        invariant
            i <= digits.len(),
            r.len() == i,
            forall|k: int| 0 <= k < 4 ==> #[trigger] all[k].step_index() == k,
            forall|j: int| 0 <= j < digits.len() ==> #[trigger] digits[j] < 4,
            forall|j: int| 0 <= j < i ==> #[trigger] r[j] == zorder2d_from_index(digits[j] as nat),
        decreases digits.len() - i,
    {
        let d = digits[i];
        let s = all[d as usize];
        proof {
            assert(s.step_index() == d);
            assert(s == zorder2d_from_index(s.step_index()));
        }
        r.push(s);
        i += 1;
    }
    r
}

/// Whether check `k` of corner `c` of the cell `zorder` finds a block.
fn check_blocked(graph: &SparseDirectedGraph, start: DagPointer, zorder: ZorderPath, c: usize, k: usize) -> (r: bool)
    requires
        graph.wf(),
        graph.is_live(start.head),
        start.height <= 16,
        zorder.depth <= start.height,
        c < 4,
        k < 3,
    ensures
        r == neighbour_blocked(graph, start, zorder, c as int, k as int),
{
    let (offset, direction) = corner_check_of(c, k);
    proof {
        lemma2_to64();
        lemma_cell_bounds(zorder.zorder as nat, zorder.depth as nat);
        lemma_pow2_strictly_increases(zorder.depth as nat, 17);
    }
    let moved = zorder.move_cartesianly(offset);
    match moved {
        None => false,
        Some(neighbour) => {
            let ghost z = neighbour.zorder as nat;
            let ghost dir = direction as nat;
            let mut check_zorder = neighbour;
            let n = start.height - check_zorder.depth;
            let mut s: u32 = 0;
            while s < n
                invariant
                    s <= n,
                    n == start.height - neighbour.depth,
                    neighbour.depth == zorder.depth,
                    start.height <= 16,
                    direction < 4,
                    dir == direction as nat,
                    check_zorder.depth == neighbour.depth + s,
                    check_zorder.zorder as nat == stepped_down(z, s as nat, dir),
                decreases n - s,
            {
                let ghost before = check_zorder.zorder as nat;
                check_zorder = check_zorder.step_down(direction);
                proof {
                    assert(stepped_down(z, (s + 1) as nat, dir) == wrap32(4 * stepped_down(z, s as nat, dir) + dir));
                    assert(check_zorder.zorder as nat == wrap32((4 * before + dir) as nat));
                }
                s += 1;
            }
            let digits = check_zorder.steps();
            proof {
                assert forall|i: int| 0 <= i < digits.len() implies #[trigger] digits[i] < 4 by {}
            }
            let path = digits_to_steps(&digits);
            proof {
                assert(path@ =~= digit_path(check_zorder.zorder as nat, start.height as nat));
            }
            let leaf = graph.descend(start.head, path.as_slice());
            !is_ignore(leaf as usize)
        },
    }
}

/// The exposed corners of the cell `zorder` of the tree `start`, bit `c` set
/// for corner `c` (top left, top right, bottom left, bottom right) where
/// none of the three cells around it holds, towards the corner, a block that
/// collisions stop at.
pub fn cell_corner_mask(graph: &SparseDirectedGraph, start: DagPointer, zorder: ZorderPath) -> (r: u8)
    requires
        graph.wf(),
        graph.is_live(start.head),
        start.height <= 16,
        zorder.depth <= start.height,
    ensures
        r == open_bits(graph, start, zorder, 4),
{
    let mut exposed_mask: u8 = 0b1111;
    let mut i: usize = 0;
    proof {
        lemma2_to64();
    }
    while i < 4
        invariant
            graph.wf(),
            graph.is_live(start.head),
            start.height <= 16,
            zorder.depth <= start.height,
            i <= 4,
            exposed_mask == open_bits(graph, start, zorder, i as int) + (15 - (pow2(i as nat) - 1)),
            pow2(0) == 1 && pow2(1) == 2 && pow2(2) == 4 && pow2(3) == 8 && pow2(4) == 16,
        decreases 4 - i,
    {
        let mut j: usize = 0;
        let mut blocked = false;
        while j < 3 && !blocked
            invariant
                graph.wf(),
                graph.is_live(start.head),
                start.height <= 16,
                zorder.depth <= start.height,
                i < 4,
                j <= 3,
                blocked ==> !corner_open(graph, start, zorder, i as int),
                !blocked ==> forall|k: int| 0 <= k < j ==> !neighbour_blocked(graph, start, zorder, i as int, k),
            decreases 3 - j + (if blocked { 0int } else { 1int }),
        {
            if check_blocked(graph, start, zorder, i, j) {
                blocked = true;
            } else {
                j += 1;
            }
        }
        proof {
            assert(!blocked ==> corner_open(graph, start, zorder, i as int));
            assert(open_bits(graph, start, zorder, i + 1) == open_bits(graph, start, zorder, i as int) + (if corner_open(
                graph,
                start,
                zorder,
                i as int,
            ) { pow2(i as nat) as int } else { 0 }));
        }
        if blocked {
            proof {
                lemma_open_bits_nonneg(graph, start, zorder, i as int);
                if i == 0 {
                    assert(1u8 << 0u8 == 1u8) by (bit_vector);
                } else if i == 1 {
                    assert(1u8 << 1u8 == 2u8) by (bit_vector);
                } else if i == 2 {
                    assert(1u8 << 2u8 == 4u8) by (bit_vector);
                } else {
                    assert(1u8 << 3u8 == 8u8) by (bit_vector);
                }
            }
            exposed_mask -= 1u8 << (i as u8);
        }
        i += 1;
    }
    exposed_mask
}

/// The cell that the quadrants `p` lead to, as a Z-order path.
pub open spec fn path_zorder(p: Seq<Zorder2d>) -> ZorderPath {
    ZorderPath { zorder: wrap32(zorder_of(path_cell_x(p), path_cell_y(p), p.len())) as u32, depth: p.len() as u32 }
}

/// The exposed corners of every leaf of the tree `start`, in the order of
/// `dfs_leaves`: the leaf, the quadrants that lead to it, and its corner mask
/// (zero for a block that collisions pass through).
pub fn tree_corner_masks(graph: &SparseDirectedGraph, start: DagPointer) -> (r: Vec<(Index, Vec<Zorder2d>, u8)>)
    requires
        graph.wf(),
        graph.is_live(start.head),
        graph.height(start.head) <= start.height,
        start.height <= 16,
    ensures
        r.len() == graph.leaf_paths(start.head).len(),
        forall|k: int|
            0 <= k < r.len() ==> {
                let e = graph.leaf_paths(start.head)[k];
                &&& (#[trigger] r[k]).0 == e.0
                &&& r[k].1@ == e.1
                &&& r[k].2 == (if e.0 == 2 || e.0 == 0 {
                    0
                } else {
                    open_bits(graph, start, path_zorder(e.1), 4)
                })
            },
{
    let leaves = dfs_leaves(graph, start.head);
    let ghost lp = graph.leaf_paths(start.head);
    proof {
        graph.lemma_leaf_paths_sound(start.head);
        assert(leaf_list_view(leaves@).len() == leaves@.len());
    }
    let mut corners: Vec<(Index, Vec<Zorder2d>, u8)> = Vec::new();
    let mut k: usize = 0;
    while k < leaves.len()
        invariant
            graph.wf(),
            graph.is_live(start.head),
            graph.height(start.head) <= start.height,
            start.height <= 16,
            lp == graph.leaf_paths(start.head),
            leaf_list_view(leaves@) == lp,
            forall|j: int| 0 <= j < lp.len() ==> (#[trigger] lp[j]).1.len() <= graph.height(start.head),
            k <= leaves.len(),
            corners.len() == k,
            forall|j: int|
                0 <= j < k ==> {
                    let e = lp[j];
                    &&& (#[trigger] corners[j]).0 == e.0
                    &&& corners[j].1@ == e.1
                    &&& corners[j].2 == (if e.0 == 2 || e.0 == 0 {
                        0
                    } else {
                        open_bits(graph, start, path_zorder(e.1), 4)
                    })
                },
        decreases leaves.len() - k,
    {
        let index = leaves[k].0;
        let path = copy_path(&leaves[k].1);
        let ghost e = lp[k as int];
        proof {
            assert(leaf_list_view(leaves@)[k as int] == (leaves@[k as int].0, leaves@[k as int].1@));
            assert(e.1.len() <= 16);
            lemma2_to64();
            lemma_path_cell_bound(path@);
            lemma_pow2_strictly_increases(path@.len(), 32);
            lemma_small_mod(path_cell_x(path@), 0x1_0000_0000);
            lemma_small_mod(path_cell_y(path@), 0x1_0000_0000);
        }
        let cell = Zorder2d::path_to_cell(path.as_slice());
        let depth = path.len() as u32;
        let zorder = ZorderPath::from_cell(cell, depth);
        proof {
            assert(zorder == path_zorder(e.1));
        }
        let mask = if is_ignore(index as usize) {
            0
        } else {
            cell_corner_mask(graph, start, zorder)
        };
        corners.push((index, path, mask));
        k += 1;
    }
    corners
}

} // verus!
