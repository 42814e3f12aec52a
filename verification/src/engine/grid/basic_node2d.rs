//! The two-dimensional node: four children, one per quadrant, in Z-order.
use vstd::prelude::*;

verus! {

use super::graph::{Index, Node, Step};
use crate::graph::wrap32;
use vstd::arithmetic::power2::{pow2, lemma2_to64, lemma_pow2_pos, lemma_pow2_unfold};
use vstd::arithmetic::div_mod::{
    lemma_div_denominator,
    lemma_fundamental_div_mod_converse,
    lemma_mod_breakdown,
    lemma_small_mod,
    lemma_add_mod_noop,
    lemma_mul_mod_noop_right,
    lemma_mod_twice,
};
use vstd::bits::lemma_u32_shl_is_mul;

/// A quadrant of a cell, in Z-order: top left, top right, bottom left, bottom right.
#[derive(Debug, Clone, Copy, PartialEq, Eq, Structural)]
pub enum Zorder2d {
    TopLeft,
    TopRight,
    BottomLeft,
    BottomRight,
}

/// The quadrant with the given Z-order number.
pub open spec fn zorder2d_from_index(i: nat) -> Zorder2d {
    if i == 0 {
        Zorder2d::TopLeft
    } else if i == 1 {
        Zorder2d::TopRight
    } else if i == 2 {
        Zorder2d::BottomLeft
    } else {
        Zorder2d::BottomRight
    }
}

/// The `x` coordinate of the cell that a path of quadrants leads to.
pub open spec fn path_cell_x(p: Seq<Zorder2d>) -> nat
    decreases p.len(),
{
    if p.len() == 0 {
        0
    } else {
        2 * path_cell_x(p.drop_last()) + p.last().subcell_x()
    }
}

/// The `y` coordinate of the cell that a path of quadrants leads to.
pub open spec fn path_cell_y(p: Seq<Zorder2d>) -> nat
    decreases p.len(),
{
    if p.len() == 0 {
        0
    } else {
        2 * path_cell_y(p.drop_last()) + p.last().subcell_y()
    }
}

/// The quadrant at subcell `(x, y)`, for `x, y` in 0..2.
pub open spec fn quadrant(x: nat, y: nat) -> Zorder2d {
    if y == 0 {
        if x == 0 { Zorder2d::TopLeft } else { Zorder2d::TopRight }
    } else {
        if x == 0 { Zorder2d::BottomLeft } else { Zorder2d::BottomRight }
    }
}

/// The path of `depth` steps to the cell `(x, y)`, reading the low `depth`
/// bits of each coordinate.
pub open spec fn cell_path(x: nat, y: nat, depth: nat) -> Seq<Zorder2d>
    decreases depth,
{
    if depth == 0 {
        Seq::empty()
    } else {
        cell_path(x / 2, y / 2, (depth - 1) as nat).push(quadrant(x % 2, y % 2))
    }
}

/// A path leads to a cell inside a grid of side `2^len`.
pub proof fn lemma_path_cell_bound(p: Seq<Zorder2d>)
    ensures
        path_cell_x(p) < pow2(p.len()),
        path_cell_y(p) < pow2(p.len()),
    decreases p.len(),
{
    lemma2_to64();
    if p.len() > 0 {
        lemma_path_cell_bound(p.drop_last());
        lemma_pow2_unfold(p.len());
    }
}

/// The path to a cell is determined by the cell and its depth.
pub proof fn lemma_path_unique(p: Seq<Zorder2d>, x: nat, y: nat)
    requires
        path_cell_x(p) == x,
        path_cell_y(p) == y,
    ensures
        p == cell_path(x, y, p.len()),
    decreases p.len(),
{
    if p.len() > 0 {
        let d = p.drop_last();
        let s = p.last();
        lemma_fundamental_div_mod_converse(x as int, 2, path_cell_x(d) as int, s.subcell_x() as int);
        lemma_fundamental_div_mod_converse(y as int, 2, path_cell_y(d) as int, s.subcell_y() as int);
        lemma_path_unique(d, x / 2, y / 2);
        assert(s == quadrant(x % 2, y % 2));
        assert(p =~= cell_path(x / 2, y / 2, d.len()).push(quadrant(x % 2, y % 2)));
    } else {
        assert(p =~= Seq::<Zorder2d>::empty());
    }
}

/// The path built for a cell of the grid leads back to that cell, one step per
/// layer.
pub proof fn lemma_cell_path_roundtrip(x: nat, y: nat, depth: nat)
    requires
        x < pow2(depth),
        y < pow2(depth),
    ensures
        cell_path(x, y, depth).len() == depth,
        path_cell_x(cell_path(x, y, depth)) == x,
        path_cell_y(cell_path(x, y, depth)) == y,
    decreases depth,
{
    lemma2_to64();
    if depth > 0 {
        let d1 = (depth - 1) as nat;
        lemma_pow2_unfold(depth);
        assert(x / 2 < pow2(d1));
        assert(y / 2 < pow2(d1));
        lemma_cell_path_roundtrip(x / 2, y / 2, d1);
        let p = cell_path(x, y, depth);
        assert(p.drop_last() =~= cell_path(x / 2, y / 2, d1));
        assert(p.last() == quadrant(x % 2, y % 2));
    }
}

/// Shifting in one more coordinate bit doubles the coordinate, wrapped to 32 bits.
proof fn lemma_push_bit(v: u32, d: u32)
    requires
        d < 2,
    ensures
        ((v << 1u32) | d) as nat == wrap32((2 * v + d) as nat),
{
    assert(d < 2 ==> ((v << 1u32) | d) as int == ((v as int) * 2 + d as int) % 0x1_0000_0000)
        by (bit_vector);
}

proof fn lemma_wrap_double(i: nat, d: nat)
    ensures
        wrap32((2 * wrap32(i) + d) as nat) == wrap32((2 * i + d) as nat),
{
    let m = 0x1_0000_0000int;
    lemma_mul_mod_noop_right(2, i as int, m);
    lemma_add_mod_noop(2 * (i as int % m), d as int, m);
    lemma_add_mod_noop(2 * (i as int), d as int, m);
    lemma_mod_twice(d as int, m);
    lemma_mod_twice(2 * (i as int), m);
}

/// A path whose steps carry, top first, the low `n` bits of `x` and `y`
/// leads to the cell `(x mod 2^n, y mod 2^n)`.
proof fn lemma_path_of_bits(r: Seq<Zorder2d>, x: nat, y: nat)
    requires
        forall|i: int|
            0 <= i < r.len() ==> #[trigger] r[i].subcell_x() == (x / pow2((r.len() - 1 - i) as nat)) % 2
                && r[i].subcell_y() == (y / pow2((r.len() - 1 - i) as nat)) % 2,
    ensures
        path_cell_x(r) == x % pow2(r.len()),
        path_cell_y(r) == y % pow2(r.len()),
    decreases r.len(),
{
    lemma2_to64();
    let n = r.len();
    if n == 0 {
        assert(x % 1 == 0);
        assert(y % 1 == 0);
    } else {
        let d = r.drop_last();
        assert forall|i: int| 0 <= i < d.len() implies #[trigger] d[i].subcell_x() == ((x / 2) / pow2(
            (d.len() - 1 - i) as nat,
        )) % 2 && d[i].subcell_y() == ((y / 2) / pow2((d.len() - 1 - i) as nat)) % 2 by {
            let e = (d.len() - 1 - i) as nat;
            assert(r[i] == d[i]);
            assert((r.len() - 1 - i) as nat == e + 1);
            lemma_pow2_pos(e);
            lemma_pow2_unfold(e + 1);
            lemma_div_denominator(x as int, 2, pow2(e) as int);
            lemma_div_denominator(y as int, 2, pow2(e) as int);
        }
        lemma_path_of_bits(d, x / 2, y / 2);
        assert(r[n - 1] == r.last());
        assert(r[n - 1].subcell_x() == (x / pow2(0)) % 2);
        assert(x / pow2(0) == x);
        assert(y / pow2(0) == y);
        assert(r.last().subcell_x() == x % 2);
        assert(r.last().subcell_y() == y % 2);
        lemma_pow2_pos((n - 1) as nat);
        lemma_pow2_unfold(n);
        lemma_mod_breakdown(x as int, 2, pow2((n - 1) as nat) as int);
        lemma_mod_breakdown(y as int, 2, pow2((n - 1) as nat) as int);
    }
}

impl Step for Zorder2d {
    open spec fn step_index(&self) -> nat {
        match self {
            Zorder2d::TopLeft => 0,
            Zorder2d::TopRight => 1,
            Zorder2d::BottomLeft => 2,
            Zorder2d::BottomRight => 3,
        }
    }

    open spec fn subcell_x(&self) -> nat {
        match self {
            Zorder2d::TopLeft => 0,
            Zorder2d::TopRight => 1,
            Zorder2d::BottomLeft => 0,
            Zorder2d::BottomRight => 1,
        }
    }

    open spec fn subcell_y(&self) -> nat {
        match self {
            Zorder2d::TopLeft => 0,
            Zorder2d::TopRight => 0,
            Zorder2d::BottomLeft => 1,
            Zorder2d::BottomRight => 1,
        }
    }

    open spec fn path_x(p: Seq<Self>) -> nat {
        path_cell_x(p)
    }

    open spec fn path_y(p: Seq<Self>) -> nat {
        path_cell_y(p)
    }

    fn all() -> (r: [Self; 4]) {
        [Self::TopLeft, Self::TopRight, Self::BottomLeft, Self::BottomRight]
    }

    fn as_usize(&self) -> (r: usize) {
        match self {
            Self::TopLeft => 0,
            Self::TopRight => 1,
            Self::BottomLeft => 2,
            Self::BottomRight => 3,
        }
    }

    fn new(subcell: [u32; 2]) -> (r: Option<Self>) {
        if subcell[0] == 0 && subcell[1] == 0 {
            Some(Self::TopLeft)
        } else if subcell[0] == 1 && subcell[1] == 0 {
            Some(Self::TopRight)
        } else if subcell[0] == 0 && subcell[1] == 1 {
            Some(Self::BottomLeft)
        } else if subcell[0] == 1 && subcell[1] == 1 {
            Some(Self::BottomRight)
        } else {
            None
        }
    }

    fn subcell(&self) -> (r: [u32; 2]) {
        match self {
            Self::TopLeft => [0, 0],
            Self::TopRight => [1, 0],
            Self::BottomLeft => [0, 1],
            Self::BottomRight => [1, 1],
        }
    }

    fn extract_last_step(cell: &mut [u32; 2]) -> (r: Option<Self>) {
        let subcell: [u32; 2] = [cell[0] & 0b1, cell[1] & 0b1];
        proof {
            let a = cell[0];
            let b = cell[1];
            assert(a & 1u32 == a % 2) by (bit_vector);
            assert(b & 1u32 == b % 2) by (bit_vector);
            assert(a >> 1u32 == a / 2) by (bit_vector);
            assert(b >> 1u32 == b / 2) by (bit_vector);
        }
        cell[0] = cell[0] >> 1u32;
        cell[1] = cell[1] >> 1u32;
        Self::new(subcell)
    }

    fn path_from_cell(cell: [u32; 2], depth: u32) -> (r: Option<Vec<Self>>) {
        let largest: u32 = if cell[0] < cell[1] { cell[1] } else { cell[0] };
        proof {
            lemma2_to64();
            vstd::arithmetic::power2::lemma_pow2_strictly_increases(depth as nat, 32);
            lemma_u32_shl_is_mul(1u32, depth);
        }
        if largest >= 1u32 << depth {
            return None;
        }
        let mut rest = cell;
        let mut extracted: Vec<Self> = Vec::with_capacity(depth as usize);
        let mut k: u32 = 0;
        while k < depth
            invariant
                k <= depth < 32,
                extracted.len() == k,
                rest[0] == cell[0] as nat / pow2(k as nat),
                rest[1] == cell[1] as nat / pow2(k as nat),
                forall|j: int|
                    0 <= j < k ==> #[trigger] extracted[j].subcell_x() == (cell[0] as nat / pow2(j as nat)) % 2
                        && extracted[j].subcell_y() == (cell[1] as nat / pow2(j as nat)) % 2,
            decreases depth - k,
        {
            let step = Self::extract_last_step(&mut rest)?;
            extracted.push(step);
            proof {
                lemma_pow2_pos(k as nat);
                lemma_pow2_unfold((k + 1) as nat);
                lemma_div_denominator(cell[0] as int, pow2(k as nat) as int, 2);
                lemma_div_denominator(cell[1] as int, pow2(k as nat) as int, 2);
            }
            k += 1;
        }
        let mut path: Vec<Self> = Vec::with_capacity(depth as usize);
        let mut i: usize = extracted.len();
        while i > 0
            invariant
                i <= extracted.len(),
                extracted.len() == depth,
                path.len() == depth - i,
                forall|j: int| 0 <= j < path.len() ==> #[trigger] path[j] == extracted[depth - 1 - j],
            decreases i,
        {
            i -= 1;
            path.push(extracted[i]);
        }
        proof {
            assert forall|j: int| 0 <= j < path.len() implies #[trigger] path@[j].subcell_x() == (cell[0] as nat
                / pow2((path@.len() - 1 - j) as nat)) % 2 && path@[j].subcell_y() == (cell[1] as nat / pow2(
                (path@.len() - 1 - j) as nat,
            )) % 2 by {
                assert(path[j] == extracted[depth - 1 - j]);
            }
            lemma_path_of_bits(path@, cell[0] as nat, cell[1] as nat);
            lemma_small_mod(cell[0] as nat, pow2(depth as nat));
            lemma_small_mod(cell[1] as nat, pow2(depth as nat));
        }
        Some(path)
    }

    fn path_to_cell(path: &[Self]) -> (r: [u32; 2]) {
        let mut cell: [u32; 2] = [0u32, 0u32];
        let mut i: usize = 0;
        proof {
            assert(path@.take(0) =~= Seq::<Zorder2d>::empty());
        }
        while i < path.len()
            invariant
                i <= path.len(),
                cell[0] == wrap32(path_cell_x(path@.take(i as int))),
                cell[1] == wrap32(path_cell_y(path@.take(i as int))),
            decreases path.len() - i,
        {
            let delta = path[i].subcell();
            proof {
                let t = path@.take(i + 1);
                assert(t.drop_last() =~= path@.take(i as int));
                assert(t.last() == path@[i as int]);
                lemma_push_bit(cell[0], delta[0]);
                lemma_push_bit(cell[1], delta[1]);
                lemma_wrap_double(path_cell_x(path@.take(i as int)), delta[0] as nat);
                lemma_wrap_double(path_cell_y(path@.take(i as int)), delta[1] as nat);
            }
            cell[0] = (cell[0] << 1u32) | delta[0];
            cell[1] = (cell[1] << 1u32) | delta[1];
            i += 1;
        }
        proof {
            assert(path@.take(path.len() as int) =~= path@);
        }
        cell
    }
}

/// A two-dimensional node: the indices of its four children, in Z-order.
pub type BasicNode2d = [Index; 4];

impl Node for [Index; 4] {
    open spec fn child_at(&self, step: nat) -> Index {
        self[step as int]
    }

    fn child(&self, child: Zorder2d) -> (r: Index) {
        self[child.as_usize()]
    }

    fn with_child(&self, child: Zorder2d, idx: Index) -> (r: Self) {
        let mut new = *self;
        new[child.as_usize()] = idx;
        new
    }
}

} // verus!
