//! A cell of the quadtree grid named by its Z-order index and its depth.
use vstd::prelude::*;

verus! {

use crate::graph::{Zorder, cell_x_of, cell_y_of, zorder_of, zorder_digit, wrap32, lemma_push_step, base4_value, zorder_digits, lemma_digits_spell};
use vstd::arithmetic::power2::{pow2, lemma2_to64, lemma_pow2_unfold, lemma_pow2_pos, lemma_pow2_adds};
use vstd::arithmetic::div_mod::{lemma_mul_mod_noop_right, lemma_small_mod, lemma_div_by_multiple, lemma_fundamental_div_mod_converse};
use vstd::bits::lemma_u32_shr_is_div;

/// A cell at `depth` layers below the whole grid, named by its Z-order index.
#[derive(Clone, Copy, Debug, PartialEq, Eq, Structural)]
pub struct ZorderPath {
    pub zorder: u32,
    pub depth: u32,
}

/// The Z-order index `z` of a cell at `depth`, moved to `new_depth`: shifted
/// up two bits per layer going down (bits beyond 32 are dropped), or down two
/// bits per layer going up (naming the ancestor).
pub open spec fn rescaled(z: nat, depth: nat, new_depth: nat) -> nat {
    if depth < new_depth {
        wrap32(z * pow2((2 * (new_depth - depth)) as nat))
    } else {
        z / pow2((2 * (depth - new_depth)) as nat)
    }
}

/// Two indices at `depth` name the same ancestor at `layer`.
pub open spec fn agree_at(za: nat, zb: nat, depth: nat, layer: nat) -> bool {
    rescaled(za, depth, layer) == rescaled(zb, depth, layer)
}

/// The larger of two depths.
pub open spec fn deeper(a: u32, b: u32) -> u32 {
    if a < b { b } else { a }
}

/// `r` is the shared parent of `a` and `b`: once both are taken to the depth
/// of the deeper one, the deepest layer at which they name the same cell,
/// named at that layer; the whole grid where they agree at no layer.
pub open spec fn is_shared_parent(a: ZorderPath, b: ZorderPath, r: ZorderPath) -> bool {
    let c = deeper(a.depth, b.depth) as nat;
    let za = rescaled(a.zorder as nat, a.depth as nat, c);
    let zb = rescaled(b.zorder as nat, b.depth as nat, c);
    if exists|l: nat| l <= c && #[trigger] agree_at(za, zb, c, l) {
        &&& r.depth <= c
        &&& agree_at(za, zb, c, r.depth as nat)
        &&& r.zorder == rescaled(za, c, r.depth as nat)
        &&& forall|l: nat| r.depth < l <= c ==> !#[trigger] agree_at(za, zb, c, l)
    } else {
        r == ZorderPath { zorder: 0, depth: 0 }
    }
}

/// Two cells have one shared parent.
pub proof fn lemma_shared_parent_unique(a: ZorderPath, b: ZorderPath, r1: ZorderPath, r2: ZorderPath)
    requires
        is_shared_parent(a, b, r1),
        is_shared_parent(a, b, r2),
    ensures
        r1 == r2,
{
    let c = deeper(a.depth, b.depth) as nat;
    let za = rescaled(a.zorder as nat, a.depth as nat, c);
    let zb = rescaled(b.zorder as nat, b.depth as nat, c);
    if exists|l: nat| l <= c && #[trigger] agree_at(za, zb, c, l) {
        if r1.depth < r2.depth {
            assert(!agree_at(za, zb, c, r2.depth as nat));
        }
        if r2.depth < r1.depth {
            assert(!agree_at(za, zb, c, r1.depth as nat));
        }
        assert(r1.depth == r2.depth);
    }
}

/// For two cells of one grid the shared parent does not depend on the order
/// of the two, contains both (each taken up to its depth names it), and is
/// the deepest such cell: at every deeper layer the two cells lie apart.
pub proof fn lemma_shared_parent_law(a: ZorderPath, b: ZorderPath, r: ZorderPath)
    requires
        a.depth == b.depth,
        a.depth <= 16,
        a.zorder < pow2(2 * a.depth as nat),
        b.zorder < pow2(2 * b.depth as nat),
        is_shared_parent(a, b, r),
    ensures
        is_shared_parent(b, a, r),
        r.depth <= a.depth,
        r.zorder == rescaled(a.zorder as nat, a.depth as nat, r.depth as nat),
        r.zorder == rescaled(b.zorder as nat, b.depth as nat, r.depth as nat),
        forall|d: nat|
            r.depth < d <= a.depth ==> rescaled(a.zorder as nat, a.depth as nat, d) != rescaled(
                b.zorder as nat,
                b.depth as nat,
                d,
            ),
{
    let c = a.depth as nat;
    lemma2_to64();
    assert(deeper(a.depth, b.depth) == c);
    assert(deeper(b.depth, a.depth) == c);
    assert(rescaled(a.zorder as nat, c, c) == a.zorder) by {
        assert((2 * (c - c)) as nat == 0);
        assert(pow2(0) == 1);
        assert(a.zorder as nat / 1 == a.zorder);
    }
    assert(rescaled(b.zorder as nat, c, c) == b.zorder) by {
        assert((2 * (c - c)) as nat == 0);
        assert(pow2(0) == 1);
        assert(b.zorder as nat / 1 == b.zorder);
    }
    let za = a.zorder as nat;
    let zb = b.zorder as nat;
    assert(agree_at(za, zb, c, 0)) by {
        assert(2 * (c - 0) == 2 * c);
        lemma_pow2_pos(2 * c);
        assert(za / pow2(2 * c) == 0) by {
            vstd::arithmetic::div_mod::lemma_basic_div(za as int, pow2(2 * c) as int);
        }
        assert(zb / pow2(2 * c) == 0) by {
            vstd::arithmetic::div_mod::lemma_basic_div(zb as int, pow2(2 * c) as int);
        }
    }
    assert(exists|l: nat| l <= c && #[trigger] agree_at(za, zb, c, l));
    assert(exists|l: nat| l <= c && #[trigger] agree_at(zb, za, c, l)) by {
        assert(agree_at(zb, za, c, 0));
    }
    assert forall|d: nat| r.depth < d <= a.depth implies rescaled(a.zorder as nat, a.depth as nat, d) != rescaled(
        b.zorder as nat,
        b.depth as nat,
        d,
    ) by {
        assert(!agree_at(za, zb, c, d));
    }
    assert forall|l: nat| r.depth < l <= c implies !#[trigger] agree_at(zb, za, c, l) by {
        assert(!agree_at(za, zb, c, l));
    }
}

/// Shifting left wraps at 32 bits.
proof fn lemma_shl_wrap(x: u32, s: u32)
    requires
        s < 32,
    ensures
        (x << s) as nat == wrap32((x * pow2(s as nat)) as nat),
    decreases s,
{
    lemma2_to64();
    if s == 0 {
        assert(x << 0u32 == x) by (bit_vector);
        lemma_small_mod(x as nat, 0x1_0000_0000);
    } else {
        let t: u32 = (s - 1) as u32;
        lemma_shl_wrap(x, t);
        assert(0 < s < 32 ==> x << s == (x << t) << 1u32) by (bit_vector)
            requires
                t == s - 1,
        ;
        let y: u32 = x << t;
        assert((y << 1u32) as int == (2 * (y as int)) % 0x1_0000_0000) by (bit_vector);
        lemma_mul_mod_noop_right(2, (x * pow2(t as nat)) as int, 0x1_0000_0000);
        lemma_pow2_unfold(s as nat);
        assert(2 * (x * pow2(t as nat)) == x * pow2(s as nat)) by (nonlinear_arith)
            requires
                pow2(s as nat) == 2 * pow2(t as nat),
        ;
    }
}

/// Going down to a deeper layer and back up gives back the same index, as
/// long as nothing was shifted out of the 32 bits.
pub proof fn lemma_with_depth_roundtrip(z: nat, depth: nat, new_depth: nat)
    requires
        depth <= new_depth <= 16,
        z < pow2(2 * depth),
    ensures
        rescaled(rescaled(z, depth, new_depth), new_depth, depth) == z,
{
    let k = (2 * (new_depth - depth)) as nat;
    lemma2_to64();
    lemma_pow2_pos(k);
    lemma_pow2_pos(2 * depth);
    lemma_pow2_adds(2 * depth, k);
    assert(2 * depth + k == 2 * new_depth);
    crate::graph::lemma_u32_pow2_bound(2 * new_depth);
    assert(z * pow2(k) < pow2(2 * depth) * pow2(k)) by (nonlinear_arith)
        requires
            z < pow2(2 * depth),
            pow2(k) > 0,
    ;
    lemma_small_mod(z * pow2(k), 0x1_0000_0000);
    lemma_div_by_multiple(z as int, pow2(k) as int);
    if depth < new_depth {
        assert(rescaled(z, depth, new_depth) == z * pow2(k));
        assert(rescaled(z * pow2(k), new_depth, depth) == (z * pow2(k)) / pow2(k));
    } else {
        assert(k == 0);
        assert(rescaled(z, depth, new_depth) == z / 1);
    }
}

/// The cell a quadrant was taken from is its parent one layer up.
pub proof fn lemma_step_down_parent(z: nat, depth: nat, direction: nat)
    requires
        depth < 16,
        z < pow2(2 * depth),
        direction < 4,
    ensures
        rescaled(wrap32(4 * z + direction), depth + 1, depth) == z,
{
    lemma2_to64();
    lemma_pow2_adds(2, 2 * depth);
    assert(2 + 2 * depth == 2 * (depth + 1));
    crate::graph::lemma_u32_pow2_bound(2 * (depth + 1));
    lemma_small_mod(4 * z + direction, 0x1_0000_0000);
    assert(2 * ((depth + 1) - depth) == 2);
    lemma_fundamental_div_mod_converse((4 * z + direction) as int, 4, z as int, direction as int);
}

/// The step read at a layer no deeper than the cell is the Z-order digit of
/// that layer.
pub proof fn lemma_read_step_digit(z: nat, depth: nat, layer: nat)
    requires
        layer <= depth,
    ensures
        rescaled(z, depth, layer) % 4 == zorder_digit(z, layer, depth),
{
}

impl ZorderPath {
    /// The whole grid.
    pub fn root() -> (r: Self)
        ensures
            r.zorder == 0,
            r.depth == 0,
    {
        Self { zorder: 0, depth: 0 }
    }

    /// The coordinates `[x, y]` of the cell.
    pub fn to_cell(&self) -> (r: [u32; 2])
        requires
            self.depth <= 16,
        ensures
            r[0] == cell_x_of(self.zorder as nat, self.depth as nat),
            r[1] == cell_y_of(self.zorder as nat, self.depth as nat),
    {
        let cell = Zorder::to_cell(self.zorder, self.depth);
        [cell.0, cell.1]
    }

    /// The cell at `[x, y]` on the grid of the given depth, reading the low
    /// `depth` bits of each coordinate; bits beyond 32 of the index are dropped.
    pub fn from_cell(cell: [u32; 2], depth: u32) -> (r: Self)
        requires
            depth <= 32,
        ensures
            r.zorder == wrap32(zorder_of(cell[0] as nat, cell[1] as nat, depth as nat)),
            r.depth == depth,
    {
        Self { zorder: Zorder::from_cell((cell[0], cell[1]), depth), depth }
    }

    /// The same place at another depth: the ancestor going up, the top left
    /// descendant going down.
    pub fn with_depth(&self, new_depth: u32) -> (r: Self)
        requires
            self.depth < new_depth ==> new_depth - self.depth < 16,
            new_depth <= self.depth ==> self.depth - new_depth < 16,
        ensures
            r.depth == new_depth,
            r.zorder == rescaled(self.zorder as nat, self.depth as nat, new_depth as nat),
    {
        let mut zorder = self.zorder;
        if self.depth < new_depth {
            let shift: u32 = 2 * (new_depth - self.depth);
            proof {
                lemma_shl_wrap(zorder, shift);
            }
            zorder = zorder << shift;
        } else {
            let shift: u32 = 2 * (self.depth - new_depth);
            proof {
                lemma_u32_shr_is_div(zorder, shift);
            }
            zorder = zorder >> shift;
        }
        Self { zorder, depth: new_depth }
    }

    /// The cell `offset` cells away, or `None` where it lies off the grid.
    pub fn move_cartesianly(&self, offset: (i32, i32)) -> (r: Option<Self>)
        requires
            self.depth <= 16,
            i32::MIN <= cell_x_of(self.zorder as nat, self.depth as nat) + offset.0 <= i32::MAX,
            i32::MIN <= cell_y_of(self.zorder as nat, self.depth as nat) + offset.1 <= i32::MAX,
        ensures
            ({
                let ex = cell_x_of(self.zorder as nat, self.depth as nat) + offset.0;
                let ey = cell_y_of(self.zorder as nat, self.depth as nat) + offset.1;
                if ex < 0 || ey < 0 || ex >= pow2(self.depth as nat) || ey >= pow2(self.depth as nat) {
                    r.is_none()
                } else {
                    r == Some(
                        ZorderPath { zorder: zorder_of(ex as nat, ey as nat, self.depth as nat) as u32, depth: self.depth },
                    )
                }
            }),
    {
        match Zorder::move_cartesianly(self.zorder, self.depth, offset) {
            Some(zorder) => Some(Self { zorder, depth: self.depth }),
            None => None,
        }
    }

    /// The quadrant step (0 to 3) taken at `layer`, counting from the top.
    pub fn read_step(&self, layer: u32) -> (r: u32)
        requires
            self.depth < layer ==> layer - self.depth < 16,
            layer <= self.depth ==> self.depth - layer < 16,
        ensures
            r == rescaled(self.zorder as nat, self.depth as nat, layer as nat) % 4,
    {
        let z = self.with_depth(layer).zorder;
        proof {
            assert(z & 3u32 == z % 4) by (bit_vector);
        }
        z & 0b11
    }

    /// The deepest cell that contains both cells, once both are taken to the
    /// depth of the deeper one; the whole grid at depth zero where even their
    /// top-level ancestors differ (which only bits beyond the depth can cause).
    pub fn shared_parent(&self, other: Self) -> (r: Self)
        requires
            deeper(self.depth, other.depth) - self.depth < 16,
            deeper(self.depth, other.depth) - other.depth < 16,
            deeper(self.depth, other.depth) < 16 || agree_at(
                rescaled(self.zorder as nat, self.depth as nat, deeper(self.depth, other.depth) as nat),
                rescaled(other.zorder as nat, other.depth as nat, deeper(self.depth, other.depth) as nat),
                deeper(self.depth, other.depth) as nat,
                (deeper(self.depth, other.depth) - 15) as nat,
            ),
        ensures
            is_shared_parent(*self, other, r),
    {
        let common_depth = if self.depth < other.depth { other.depth } else { self.depth };
        let a_zorder = self.with_depth(common_depth);
        let b_zorder = other.with_depth(common_depth);
        let ghost c = common_depth as nat;
        let ghost za = a_zorder.zorder as nat;
        let ghost zb = b_zorder.zorder as nat;
        proof {
            assert(c == deeper(self.depth, other.depth) as nat);
            assert(za == rescaled(self.zorder as nat, self.depth as nat, c));
            assert(zb == rescaled(other.zorder as nat, other.depth as nat, c));
        }
        let mut next: u64 = common_depth as u64 + 1;
        while next > 0
            invariant
                next <= c + 1,
                c >= 16 ==> next >= c - 14,
                a_zorder.depth == common_depth,
                b_zorder.depth == common_depth,
                za == a_zorder.zorder,
                zb == b_zorder.zorder,
                c == common_depth,
                c == deeper(self.depth, other.depth) as nat,
                za == rescaled(self.zorder as nat, self.depth as nat, c),
                zb == rescaled(other.zorder as nat, other.depth as nat, c),
                c >= 16 ==> agree_at(za, zb, c, (c - 15) as nat),
                forall|l: nat| next <= l <= c ==> !#[trigger] agree_at(za, zb, c, l),
            decreases next,
        {
            next -= 1;
            let layer = next as u32;
            let a_layer = a_zorder.with_depth(layer);
            let b_layer = b_zorder.with_depth(layer);
            if a_layer == b_layer {
                proof {
                    assert(agree_at(za, zb, c, layer as nat));
                }
                return a_layer;
            }
            proof {
                assert(!agree_at(za, zb, c, layer as nat));
            }
        }
        proof {
            assert forall|l: nat| l <= c implies !#[trigger] agree_at(za, zb, c, l) by {}
        }
        Self { zorder: 0, depth: 0 }
    }

    /// The quadrant `direction` (0 to 3) of this cell, one layer down.
    pub fn step_down(&self, direction: u32) -> (r: Self)
        requires
            self.depth < u32::MAX,
        ensures
            r.zorder == (self.zorder << 2u32) | direction,
            direction < 4 ==> r.zorder == wrap32((4 * self.zorder + direction) as nat),
            r.depth == self.depth + 1,
    {
        proof {
            if direction < 4 {
                lemma_push_step(self.zorder, direction);
            }
        }
        Self { zorder: self.zorder << 2 | direction, depth: self.depth + 1 }
    }

    /// The quadrant steps, top layer first, that lead to the cell.
    pub fn steps(&self) -> (steps: Vec<u32>)
        requires
            self.depth <= 16,
        ensures
            steps.len() == self.depth,
            forall|i: int|
                0 <= i < self.depth ==> steps[i] == zorder_digit(
                    self.zorder as nat,
                    (i + 1) as nat,
                    self.depth as nat,
                ),
            base4_value(steps@) == self.zorder as nat % pow2(2 * self.depth as nat),
    {
        let mut steps: Vec<u32> = Vec::with_capacity(self.depth as usize);
        let mut layer: u32 = 1;
        while layer <= self.depth
            invariant
                1 <= layer <= self.depth + 1,
                self.depth <= 16,
                steps.len() == layer - 1,
                forall|i: int|
                    0 <= i < layer - 1 ==> steps[i] == zorder_digit(
                        self.zorder as nat,
                        (i + 1) as nat,
                        self.depth as nat,
                    ),
            decreases self.depth + 1 - layer,
        {
            steps.push(self.read_step(layer));
            layer += 1;
        }
        proof {
            lemma_digits_spell(self.zorder as nat, self.depth as nat);
            assert forall|i: int| 0 <= i < self.depth implies #[trigger] steps@[i] == zorder_digits(
                self.zorder as nat,
                self.depth as nat,
            )[i] by {}
            assert(steps@ =~= zorder_digits(self.zorder as nat, self.depth as nat));
        }
        steps
    }
}

} // verus!
