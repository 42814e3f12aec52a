//! Z-order (Morton) arithmetic on quadtree cells.
//!
//! A cell of a square grid with side `2^depth` is named by its coordinates
//! `(x, y)` or by its Z-order index: the bits of `x` and `y` interleaved, `x`
//! taking the even bit positions and `y` the odd ones. Read two bits at a time
//! from the top, the index is the sequence of quadrant steps that leads from the
//! whole grid down to the cell.
use vstd::prelude::*;

verus! {

use vstd::arithmetic::power2::{pow2, lemma_pow2_unfold, lemma_pow2_adds, lemma_pow2_pos, lemma2_to64};
use vstd::arithmetic::div_mod::{
    lemma_div_denominator,
    lemma_fundamental_div_mod_converse,
    lemma_mod_breakdown,
    lemma_add_mod_noop,
    lemma_mul_mod_noop_right,
    lemma_small_mod,
};
use vstd::bits::{lemma_u32_shr_is_div, lemma_u32_shl_is_mul};

/// `x` coordinate of the cell whose Z-order index is `z`, on a grid of the given depth.
pub open spec fn cell_x_of(z: nat, depth: nat) -> nat
    decreases depth,
{
    if depth == 0 {
        0
    } else {
        z % 2 + 2 * cell_x_of(z / 4, (depth - 1) as nat)
    }
}

/// `y` coordinate of the cell whose Z-order index is `z`, on a grid of the given depth.
pub open spec fn cell_y_of(z: nat, depth: nat) -> nat
    decreases depth,
{
    if depth == 0 {
        0
    } else {
        (z / 2) % 2 + 2 * cell_y_of(z / 4, (depth - 1) as nat)
    }
}

/// Z-order index of the cell `(x, y)`, built from the low `depth` bits of each coordinate.
pub open spec fn zorder_of(x: nat, y: nat, depth: nat) -> nat
    decreases depth,
{
    if depth == 0 {
        0
    } else {
        x % 2 + 2 * (y % 2) + 4 * zorder_of(x / 2, y / 2, (depth - 1) as nat)
    }
}

/// The quadrant step (0..4) taken at `layer` (1-based, from the top) by the path of
/// depth `depth` encoded in `z`.
pub open spec fn zorder_digit(z: nat, layer: nat, depth: nat) -> nat {
    (z / pow2((2 * (depth - layer)) as nat)) % 4
}

/// The value of a `u32` computation whose mathematical result is `v`.
pub open spec fn wrap32(v: nat) -> nat {
    v % 0x1_0000_0000
}

pub proof fn lemma_cell_bounds(z: nat, depth: nat)
    ensures
        cell_x_of(z, depth) < pow2(depth),
        cell_y_of(z, depth) < pow2(depth),
    decreases depth,
{
    lemma_pow2_pos(depth);
    if depth > 0 {
        lemma_cell_bounds(z / 4, (depth - 1) as nat);
        lemma_pow2_unfold(depth);
    } else {
        lemma2_to64();
    }
}

pub proof fn lemma_zorder_bound(x: nat, y: nat, depth: nat)
    ensures
        zorder_of(x, y, depth) < pow2(2 * depth),
    decreases depth,
{
    lemma_pow2_pos(2 * depth);
    if depth > 0 {
        lemma_zorder_bound(x / 2, y / 2, (depth - 1) as nat);
        lemma_pow2_adds(2, (2 * (depth - 1)) as nat);
        lemma2_to64();
        assert(2 * depth == 2 + 2 * (depth - 1));
    } else {
        lemma2_to64();
    }
}

/// Adding the coordinate bit of one more layer, low layers first.
proof fn lemma_cell_step(z: nat, l: nat)
    ensures
        cell_x_of(z, l + 1) == cell_x_of(z, l) + ((z / pow2(2 * l)) % 2) * pow2(l),
        cell_y_of(z, l + 1) == cell_y_of(z, l) + ((z / pow2(2 * l + 1)) % 2) * pow2(l),
    decreases l,
{
    lemma2_to64();
    if l == 0 {
        assert(cell_x_of(z, 1) == z % 2 + 2 * cell_x_of(z / 4, 0));
        assert(cell_y_of(z, 1) == (z / 2) % 2 + 2 * cell_y_of(z / 4, 0));
    } else {
        let lm: nat = (l - 1) as nat;
        lemma_cell_step(z / 4, lm);
        assert(cell_x_of(z, l + 1) == z % 2 + 2 * cell_x_of(z / 4, l));
        assert(cell_x_of(z, l) == z % 2 + 2 * cell_x_of(z / 4, lm));
        assert(cell_y_of(z, l + 1) == (z / 2) % 2 + 2 * cell_y_of(z / 4, l));
        assert(cell_y_of(z, l) == (z / 2) % 2 + 2 * cell_y_of(z / 4, lm));
        lemma_pow2_pos(2 * lm);
        lemma_pow2_pos(2 * lm + 1);
        lemma_pow2_adds(2, 2 * lm);
        lemma_pow2_adds(2, 2 * lm + 1);
        assert(2 + 2 * lm == 2 * l);
        assert(2 + (2 * lm + 1) == 2 * l + 1);
        lemma_div_denominator(z as int, 4, pow2(2 * lm) as int);
        lemma_div_denominator(z as int, 4, pow2(2 * lm + 1) as int);
        assert((z / 4) / pow2(2 * lm) == z / pow2(2 * l));
        assert((z / 4) / pow2(2 * lm + 1) == z / pow2(2 * l + 1));
        lemma_pow2_unfold(l);
        let bx = (z / pow2(2 * l)) % 2;
        let by = (z / pow2(2 * l + 1)) % 2;
        assert(2 * (bx * pow2(lm)) == bx * pow2(l)) by (nonlinear_arith)
            requires
                pow2(l) == 2 * pow2(lm),
        ;
        assert(2 * (by * pow2(lm)) == by * pow2(l)) by (nonlinear_arith)
            requires
                pow2(l) == 2 * pow2(lm),
        ;
    }
}

/// Reading the cell of a Z-order index built from `(x, y)` gives back the low
/// `depth` bits of each coordinate.
pub proof fn lemma_cell_of_zorder(x: nat, y: nat, depth: nat)
    ensures
        cell_x_of(zorder_of(x, y, depth), depth) == x % pow2(depth),
        cell_y_of(zorder_of(x, y, depth), depth) == y % pow2(depth),
    decreases depth,
{
    lemma2_to64();
    if depth == 0 {
        lemma_small_mod(0, 1);
        assert(x % 1 == 0);
        assert(y % 1 == 0);
    } else {
        let d1: nat = (depth - 1) as nat;
        let j = zorder_of(x / 2, y / 2, d1);
        let z = zorder_of(x, y, depth);
        let a = x % 2 + 2 * (y % 2);
        assert(z == a + 4 * j);
        lemma_fundamental_div_mod_converse(z as int, 2, (y % 2 + 2 * j) as int, (x % 2) as int);
        lemma_fundamental_div_mod_converse(z as int, 4, j as int, a as int);
        lemma_fundamental_div_mod_converse(
            (z / 2) as int,
            2,
            j as int,
            (y % 2) as int,
        );
        lemma_cell_of_zorder(x / 2, y / 2, d1);
        lemma_pow2_pos(d1);
        lemma_pow2_unfold(depth);
        lemma_mod_breakdown(x as int, 2, pow2(d1) as int);
        lemma_mod_breakdown(y as int, 2, pow2(d1) as int);
    }
}

/// Building the Z-order index of the cell read from `z` gives back the low
/// `2 * depth` bits of `z`.
pub proof fn lemma_zorder_of_cell(z: nat, depth: nat)
    ensures
        zorder_of(cell_x_of(z, depth), cell_y_of(z, depth), depth) == z % pow2(2 * depth),
    decreases depth,
{
    lemma2_to64();
    if depth == 0 {
        assert(z % 1 == 0);
    } else {
        let d1: nat = (depth - 1) as nat;
        let xp = cell_x_of(z / 4, d1);
        let yp = cell_y_of(z / 4, d1);
        let x = cell_x_of(z, depth);
        let y = cell_y_of(z, depth);
        lemma_fundamental_div_mod_converse(x as int, 2, xp as int, (z % 2) as int);
        lemma_fundamental_div_mod_converse(y as int, 2, yp as int, ((z / 2) % 2) as int);
        lemma_zorder_of_cell(z / 4, d1);
        lemma_pow2_pos(2 * d1);
        lemma_pow2_adds(2, 2 * d1);
        assert(2 + 2 * d1 == 2 * depth);
        lemma_mod_breakdown(z as int, 4, pow2(2 * d1) as int);
        lemma_mod_breakdown(z as int, 2, 2);
    }
}

/// One more layer of a Z-order index, high layers first.
proof fn lemma_zorder_step(x: nat, y: nat, l: nat, n: nat)
    requires
        l > 0,
    ensures
        zorder_of(x / pow2((l - 1) as nat), y / pow2((l - 1) as nat), n + 1) == (x / pow2(
            (l - 1) as nat,
        )) % 2 + 2 * ((y / pow2((l - 1) as nat)) % 2) + 4 * zorder_of(
            x / pow2(l),
            y / pow2(l),
            n,
        ),
{
    let lm: nat = (l - 1) as nat;
    lemma_pow2_pos(lm);
    lemma_pow2_unfold(l);
    lemma_div_denominator(x as int, pow2(lm) as int, 2);
    lemma_div_denominator(y as int, pow2(lm) as int, 2);
    assert(pow2(lm) * 2 == pow2(l));
}

/// `(v >> s) & 1` is bit `s` of `v`.
proof fn lemma_bit_of(v: u32, s: u32)
    requires
        s < 32,
    ensures
        ((v >> s) & 1u32) as nat == (v as nat / pow2(s as nat)) % 2,
{
    lemma_u32_shr_is_div(v, s);
    let w = v >> s;
    assert(w & 1u32 == w % 2) by (bit_vector);
}

/// Setting bit `l` of a value whose bits from `l` up are clear adds `2^l`.
proof fn lemma_or_bit(x: u32, b: u32, l: u32)
    requires
        l < 16,
        b <= 1,
        x < pow2(l as nat),
    ensures
        (x | (b << l)) as nat == x + b * pow2(l as nat),
{
    lemma2_to64();
    vstd::arithmetic::power2::lemma_pow2_strictly_increases(l as nat, 16);
    lemma_u32_shl_is_mul(1u32, l);
    lemma_u32_shl_is_mul(b, l);
    assert(x < (1u32 << l));
    assert(x < (1u32 << l) && b <= 1 && l < 32 ==> (x | (b << l)) == x + (b << l)) by (bit_vector);
}

/// Shifting in a two-bit step is multiplication by four, wrapped to 32 bits.
pub proof fn lemma_push_step(z: u32, s: u32)
    requires
        s < 4,
    ensures
        ((z << 2u32) | s) as nat == wrap32((4 * z + s) as nat),
{
    assert(s < 4 ==> ((z << 2u32) | s) as int == ((z as int) * 4 + s as int) % 0x1_0000_0000)
        by (bit_vector);
}

proof fn lemma_wrap_push(i: nat, s: nat)
    ensures
        wrap32((4 * wrap32(i) + s) as nat) == wrap32((4 * i + s) as nat),
{
    let m = 0x1_0000_0000int;
    lemma_mul_mod_noop_right(4, i as int, m);
    lemma_add_mod_noop(4 * (i as int % m), s as int, m);
    lemma_add_mod_noop(4 * (i as int), s as int, m);
    vstd::arithmetic::div_mod::lemma_mod_twice(s as int, m);
    vstd::arithmetic::div_mod::lemma_mod_twice(4 * (i as int), m);
}

/// Naming a cell of the grid by its Z-order index and reading the cell back
/// gives the same cell.
pub proof fn lemma_zorder_roundtrip(x: nat, y: nat, depth: nat)
    requires
        depth <= 16,
        x < pow2(depth),
        y < pow2(depth),
    ensures
        cell_x_of(wrap32(zorder_of(x, y, depth)), depth) == x,
        cell_y_of(wrap32(zorder_of(x, y, depth)), depth) == y,
{
    lemma_zorder_bound(x, y, depth);
    lemma_u32_pow2_bound(2 * depth);
    lemma_small_mod(zorder_of(x, y, depth), 0x1_0000_0000);
    lemma_cell_of_zorder(x, y, depth);
    lemma_small_mod(x, pow2(depth));
    lemma_small_mod(y, pow2(depth));
}

/// Reading the cell that a Z-order index names and naming that cell again
/// gives the same index.
pub proof fn lemma_cell_roundtrip(z: nat, depth: nat)
    requires
        depth <= 16,
        z < pow2(2 * depth),
    ensures
        wrap32(zorder_of(cell_x_of(z, depth), cell_y_of(z, depth), depth)) == z,
{
    lemma_zorder_of_cell(z, depth);
    lemma_small_mod(z, pow2(2 * depth));
    lemma_u32_pow2_bound(2 * depth);
    lemma_small_mod(z, 0x1_0000_0000);
}

/// Moving a cell by an offset that stays on the grid, and then back by the
/// opposite offset, gives the cell it started from.
pub proof fn lemma_move_back(z: nat, depth: nat, dx: int, dy: int)
    requires
        depth <= 16,
        z < pow2(2 * depth),
        0 <= cell_x_of(z, depth) + dx < pow2(depth),
        0 <= cell_y_of(z, depth) + dy < pow2(depth),
    ensures
        ({
            let z2 = wrap32(zorder_of((cell_x_of(z, depth) + dx) as nat, (cell_y_of(z, depth) + dy) as nat, depth));
            &&& z2 < pow2(2 * depth)
            &&& 0 <= cell_x_of(z2, depth) - dx < pow2(depth)
            &&& 0 <= cell_y_of(z2, depth) - dy < pow2(depth)
            &&& wrap32(zorder_of((cell_x_of(z2, depth) - dx) as nat, (cell_y_of(z2, depth) - dy) as nat, depth)) == z
        }),
{
    let x2 = (cell_x_of(z, depth) + dx) as nat;
    let y2 = (cell_y_of(z, depth) + dy) as nat;
    lemma_zorder_roundtrip(x2, y2, depth);
    lemma_zorder_bound(x2, y2, depth);
    lemma_u32_pow2_bound(2 * depth);
    lemma_small_mod(zorder_of(x2, y2, depth), 0x1_0000_0000);
    lemma_cell_roundtrip(z, depth);
    lemma_cell_bounds(z, depth);
    let z2 = wrap32(zorder_of(x2, y2, depth));
    assert(cell_x_of(z2, depth) == x2);
    assert(cell_y_of(z2, depth) == y2);
    assert((cell_x_of(z2, depth) - dx) as nat == cell_x_of(z, depth));
    assert((cell_y_of(z2, depth) - dy) as nat == cell_y_of(z, depth));
}

/// The number that the base-4 digits `s` spell, most significant first.
pub open spec fn base4_value(s: Seq<u32>) -> nat
    decreases s.len(),
{
    if s.len() == 0 {
        0
    } else {
        4 * base4_value(s.drop_last()) + s.last() as nat
    }
}

/// The Z-order digits of `z` at `depth`, top layer first.
pub open spec fn zorder_digits(z: nat, depth: nat) -> Seq<u32> {
    Seq::new(depth, |i: int| zorder_digit(z, (i + 1) as nat, depth) as u32)
}

/// The Z-order digits of an index, read in base 4, spell the index (its low
/// `2 * depth` bits): the quadrant steps name the cell.
pub proof fn lemma_digits_spell(z: nat, depth: nat)
    ensures
        base4_value(zorder_digits(z, depth)) == z % pow2(2 * depth),
    decreases depth,
{
    lemma2_to64();
    if depth == 0 {
        assert(z % 1 == 0);
    } else {
        let d1 = (depth - 1) as nat;
        let s = zorder_digits(z, depth);
        assert forall|i: int| 0 <= i < d1 implies #[trigger] s.drop_last()[i] == zorder_digits(z / 4, d1)[i] by {
            let k = (2 * (d1 - 1 - i)) as nat;
            lemma_pow2_pos(k);
            lemma_pow2_adds(2, k);
            assert(2 * (depth - (i + 1)) == 2 + k);
            assert(2 * (d1 - (i + 1)) == k);
            lemma_div_denominator(z as int, 4, pow2(k) as int);
        }
        assert(s.drop_last() =~= zorder_digits(z / 4, d1));
        assert(s.last() == (z % 4) as u32) by {
            assert(2 * (depth - depth) == 0);
            assert(z / pow2(0) == z);
        }
        lemma_digits_spell(z / 4, d1);
        lemma_pow2_pos(2 * d1);
        lemma_pow2_adds(2, 2 * d1);
        assert(2 + 2 * d1 == 2 * depth);
        lemma_mod_breakdown(z as int, 4, pow2(2 * d1) as int);
    }
}

/// Z-order arithmetic on the cells of a square grid.
pub struct Zorder;

impl Zorder {
    /// The cell named by `zorder` on a grid of the given depth.
    pub fn to_cell(zorder: u32, depth: u32) -> (cell: (u32, u32))
        requires
            depth <= 16,
        ensures
            cell.0 == cell_x_of(zorder as nat, depth as nat),
            cell.1 == cell_y_of(zorder as nat, depth as nat),
    {
        let mut cell: (u32, u32) = (0, 0);
        let mut layer: u32 = 0;
        while layer < depth
            invariant
                layer <= depth <= 16,
                cell.0 == cell_x_of(zorder as nat, layer as nat),
                cell.1 == cell_y_of(zorder as nat, layer as nat),
            decreases depth - layer,
        {
            proof {
                lemma_cell_step(zorder as nat, layer as nat);
                lemma_cell_bounds(zorder as nat, layer as nat);
                lemma_bit_of(zorder, (2 * layer) as u32);
                lemma_bit_of(zorder, (2 * layer + 1) as u32);
                lemma_or_bit(cell.0, (zorder >> (2 * layer)) & 0b1, layer);
                lemma_or_bit(cell.1, (zorder >> (2 * layer + 1)) & 0b1, layer);
            }
            cell.0 = cell.0 | ((zorder >> (2 * layer)) & 0b1) << layer;
            cell.1 = cell.1 | ((zorder >> (2 * layer + 1)) & 0b1) << layer;
            layer += 1;
        }
        cell
    }

    /// The Z-order index of `cell`, reading the low `depth` bits of each
    /// coordinate; bits beyond the 32 of the result are dropped.
    pub fn from_cell(cell: (u32, u32), depth: u32) -> (zorder: u32)
        requires
            depth <= 32,
        ensures
            zorder == wrap32(zorder_of(cell.0 as nat, cell.1 as nat, depth as nat)),
    {
        let mut zorder: u32 = 0;
        let mut layer: u32 = depth;
        proof {
            lemma2_to64();
        }
        while layer > 0
            invariant
                layer <= depth <= 32,
                zorder == wrap32(
                    zorder_of(
                        cell.0 as nat / pow2(layer as nat),
                        cell.1 as nat / pow2(layer as nat),
                        (depth - layer) as nat,
                    ),
                ),
            decreases layer,
        {
            layer -= 1;
            proof {
                lemma_bit_of(cell.0, layer);
                lemma_bit_of(cell.1, layer);
                lemma_zorder_step(cell.0 as nat, cell.1 as nat, (layer + 1) as nat, (depth - layer
                    - 1) as nat);
            }
            let step: u32 = (((cell.1 >> layer) & 0b1) << 1u32) | ((cell.0 >> layer) & 0b1);
            proof {
                let by = (cell.1 >> layer) & 0b1;
                let bx = (cell.0 >> layer) & 0b1;
                assert(by <= 1 && bx <= 1 ==> ((by << 1u32) | bx) == 2 * by + bx) by (bit_vector);
                assert(step == 2 * by + bx);
                lemma_push_step(zorder, step);
                let inner = zorder_of(
                    cell.0 as nat / pow2((layer + 1) as nat),
                    cell.1 as nat / pow2((layer + 1) as nat),
                    (depth - layer - 1) as nat,
                );
                lemma_wrap_push(inner, step as nat);
                assert((depth - layer - 1) + 1 == depth - layer);
                assert(((layer + 1) - 1) as nat == layer as nat);
                let outer = zorder_of(
                    cell.0 as nat / pow2(layer as nat),
                    cell.1 as nat / pow2(layer as nat),
                    (depth - layer) as nat,
                );
                assert(outer == step + 4 * inner);
                assert(zorder == wrap32(inner));
                assert(wrap32((4 * zorder + step) as nat) == wrap32(outer));
            }
            zorder = (zorder << 2u32) | step;
        }
        proof {
            assert(cell.0 as nat / pow2(0) == cell.0);
            assert(cell.1 as nat / pow2(0) == cell.1);
        }
        zorder
    }

    /// The cell `offset` away from the cell named by `start_zorder`, or `None`
    /// where that cell lies outside the grid.
    pub fn move_cartesianly(start_zorder: u32, depth: u32, offset: (i32, i32)) -> (r: Option<u32>)
        requires
            depth <= 16,
            i32::MIN <= cell_x_of(start_zorder as nat, depth as nat) + offset.0 <= i32::MAX,
            i32::MIN <= cell_y_of(start_zorder as nat, depth as nat) + offset.1 <= i32::MAX,
        ensures
            ({
                let ex = cell_x_of(start_zorder as nat, depth as nat) + offset.0;
                let ey = cell_y_of(start_zorder as nat, depth as nat) + offset.1;
                if ex < 0 || ey < 0 || ex >= pow2(depth as nat) || ey >= pow2(depth as nat) {
                    r.is_none()
                } else {
                    r == Some(zorder_of(ex as nat, ey as nat, depth as nat) as u32)
                }
            }),
    {
        let cell = Self::to_cell(start_zorder, depth);
        proof {
            lemma_cell_bounds(start_zorder as nat, depth as nat);
            lemma2_to64();
            vstd::arithmetic::power2::lemma_pow2_strictly_increases(depth as nat, 17);
        }
        let end_x: i32 = cell.0 as i32 + offset.0;
        let end_y: i32 = cell.1 as i32 + offset.1;
        proof {
            lemma_u32_shl_is_mul(1u32, depth);
        }
        let bound: u32 = 1u32 << depth;
        let min_element: i32 = if end_x < end_y { end_x } else { end_y };
        let max_element: i32 = if end_x < end_y { end_y } else { end_x };
        if min_element < 0 || max_element >= bound as i32 {
            return None;
        }
        let z = Self::from_cell((end_x as u32, end_y as u32), depth);
        proof {
            lemma_zorder_bound(end_x as nat, end_y as nat, depth as nat);
            lemma_u32_pow2_bound(2 * depth as nat);
            lemma_small_mod(zorder_of(end_x as nat, end_y as nat, depth as nat), 0x1_0000_0000);
        }
        Some(z)
    }

    /// The quadrant step taken at `layer` by the path of depth `depth` that
    /// `zorder` encodes.
    pub fn read(zorder: u32, layer: u32, depth: u32) -> (r: u32)
        requires
            layer <= depth,
            depth - layer < 16,
        ensures
            r == zorder_digit(zorder as nat, layer as nat, depth as nat),
    {
        proof {
            lemma_u32_shr_is_div(zorder, (2 * (depth - layer)) as u32);
            let w = zorder >> (2 * (depth - layer));
            assert(w & 3u32 == w % 4) by (bit_vector);
        }
        (zorder >> (2 * (depth - layer))) & 0b11
    }

    /// The first layer at which the paths of depth `depth` encoded in `zorder_a`
    /// and `zorder_b` take different steps, or `None` where they never do.
    pub fn divergence_depth(zorder_a: u32, zorder_b: u32, depth: u32) -> (r: Option<u32>)
        requires
            depth <= 16,
        ensures
            match r {
                Some(layer) => {
                    &&& 1 <= layer <= depth
                    &&& zorder_digit(zorder_a as nat, layer as nat, depth as nat) != zorder_digit(
                        zorder_b as nat,
                        layer as nat,
                        depth as nat,
                    )
                    &&& forall|l: nat|
                        1 <= l < layer ==> zorder_digit(zorder_a as nat, l, depth as nat)
                            == zorder_digit(zorder_b as nat, l, depth as nat)
                },
                None => forall|l: nat|
                    1 <= l <= depth ==> zorder_digit(zorder_a as nat, l, depth as nat)
                        == zorder_digit(zorder_b as nat, l, depth as nat),
            },
    {
        let mut layer: u32 = 1;
        while layer <= depth
            invariant
                1 <= layer <= depth + 1,
                depth <= 16,
                forall|l: nat|
                    1 <= l < layer ==> zorder_digit(zorder_a as nat, l, depth as nat)
                        == zorder_digit(zorder_b as nat, l, depth as nat),
            decreases depth + 1 - layer,
        {
            if Self::read(zorder_a, layer, depth) != Self::read(zorder_b, layer, depth) {
                return Some(layer);
            }
            layer += 1;
        }
        None
    }

    /// The quadrant steps, top layer first, of the path of depth `depth` that
    /// `zorder` encodes.
    pub fn path(zorder: u32, depth: u32) -> (steps: Vec<u32>)
        requires
            depth <= 16,
        ensures
            steps.len() == depth,
            forall|i: int|
                0 <= i < depth ==> steps[i] == zorder_digit(zorder as nat, (i + 1) as nat, depth as nat),
            base4_value(steps@) == zorder as nat % pow2(2 * depth as nat),
    {
        let mut steps: Vec<u32> = Vec::with_capacity(depth as usize);
        let mut layer: u32 = 1;
        while layer <= depth
            invariant
                1 <= layer <= depth + 1,
                depth <= 16,
                steps.len() == layer - 1,
                forall|i: int|
                    0 <= i < layer - 1 ==> steps[i] == zorder_digit(
                        zorder as nat,
                        (i + 1) as nat,
                        depth as nat,
                    ),
            decreases depth + 1 - layer,
        {
            steps.push(Self::read(zorder, layer, depth));
            layer += 1;
        }
        proof {
            lemma_digits_spell(zorder as nat, depth as nat);
            assert forall|i: int| 0 <= i < depth implies #[trigger] steps@[i] == zorder_digits(zorder as nat, depth as nat)[i] by {}
            assert(steps@ =~= zorder_digits(zorder as nat, depth as nat));
        }
        steps
    }
}

/// `2^n` for `n <= 32` is at most `2^32`.
pub proof fn lemma_u32_pow2_bound(n: nat)
    requires
        n <= 32,
    ensures
        pow2(n) <= 0x1_0000_0000,
{
    lemma2_to64();
    if n < 32 {
        vstd::arithmetic::power2::lemma_pow2_strictly_increases(n, 32);
    }
}

} // verus!
