//! The Z-order of cells named by their quadrant steps: which of two cells
//! comes first, and when one lies inside the other.
use vstd::prelude::*;

verus! {

use super::basic_node2d::Zorder2d;
use super::graph::Step;

// ----------------------------------------------------------------------------
// Cells in Z-order
// ----------------------------------------------------------------------------

/// How two paths relate on the steps they share, compared as Z-order
/// numbers: `-1` where `a` comes first, `1` where `b` does, and `0` where one
/// is a prefix of the other (one cell lies inside the other).
pub open spec fn ancestry_order(a: Seq<Zorder2d>, b: Seq<Zorder2d>) -> int
    decreases a.len(),
{
    if a.len() == 0 || b.len() == 0 {
        0
    } else if a[0].step_index() < b[0].step_index() {
        -1
    } else if a[0].step_index() > b[0].step_index() {
        1
    } else {
        ancestry_order(a.drop_first(), b.drop_first())
    }
}

/// Swapping the two cells reverses their order.
pub proof fn lemma_ancestry_antisymmetric(a: Seq<Zorder2d>, b: Seq<Zorder2d>)
    ensures
        ancestry_order(a, b) == -ancestry_order(b, a),
    decreases a.len(),
{
    if a.len() > 0 && b.len() > 0 && a[0].step_index() == b[0].step_index() {
        lemma_ancestry_antisymmetric(a.drop_first(), b.drop_first());
    }
}

/// `x` starts with the steps of `p`: the cell `x` lies inside the cell `p`.
pub open spec fn lies_inside(x: Seq<Zorder2d>, p: Seq<Zorder2d>) -> bool {
    &&& p.len() <= x.len()
    &&& forall|k: int| 0 <= k < p.len() ==> #[trigger] x[k] == p[k]
}

/// Every cell of the list comes strictly before every later one: the cells
/// are in Z-order and none lies inside another.
pub open spec fn sorted_by_cell<T>(s: Seq<(T, Seq<Zorder2d>)>) -> bool {
    forall|i: int, j: int| #![trigger s[i], s[j]] 0 <= i < j < s.len() ==> ancestry_order(s[i].1, s[j].1) == -1
}

/// Order `0` means exactly that one cell lies inside the other.
pub proof fn lemma_related_is_prefix(a: Seq<Zorder2d>, b: Seq<Zorder2d>)
    ensures
        ancestry_order(a, b) == 0 <==> (lies_inside(a, b) || lies_inside(b, a)),
    decreases a.len(),
{
    if a.len() == 0 || b.len() == 0 {
    } else if a[0].step_index() != b[0].step_index() {
        assert(a[0] != b[0]);
        assert(!lies_inside(a, b)) by {
            if lies_inside(a, b) {
                assert(a[0] == b[0]);
            }
        }
        assert(!lies_inside(b, a)) by {
            if lies_inside(b, a) {
                assert(b[0] == a[0]);
            }
        }
    } else {
        assert(a[0] == b[0]);
        let a1 = a.drop_first();
        let b1 = b.drop_first();
        lemma_related_is_prefix(a1, b1);
        assert(lies_inside(a, b) <==> lies_inside(a1, b1)) by {
            if lies_inside(a, b) {
                assert forall|k: int| 0 <= k < b1.len() implies #[trigger] a1[k] == b1[k] by {
                    assert(a[k + 1] == b[k + 1]);
                }
            }
            if lies_inside(a1, b1) {
                assert forall|k: int| 0 <= k < b.len() implies #[trigger] a[k] == b[k] by {
                    if k > 0 {
                        assert(a1[k - 1] == b1[k - 1]);
                    }
                }
            }
        }
        assert(lies_inside(b, a) <==> lies_inside(b1, a1)) by {
            if lies_inside(b, a) {
                assert forall|k: int| 0 <= k < a1.len() implies #[trigger] b1[k] == a1[k] by {
                    assert(b[k + 1] == a[k + 1]);
                }
            }
            if lies_inside(b1, a1) {
                assert forall|k: int| 0 <= k < a.len() implies #[trigger] b[k] == a[k] by {
                    if k > 0 {
                        assert(b1[k - 1] == a1[k - 1]);
                    }
                }
            }
        }
    }
}

/// The order is one of `-1`, `0` and `1`.
pub proof fn lemma_order_range(a: Seq<Zorder2d>, b: Seq<Zorder2d>)
    ensures
        -1 <= ancestry_order(a, b) <= 1,
    decreases a.len(),
{
    if a.len() > 0 && b.len() > 0 && a[0].step_index() == b[0].step_index() {
        lemma_order_range(a.drop_first(), b.drop_first());
    }
}

/// A cell that comes before `b` relates to any third cell no later than `b`
/// does.
pub proof fn lemma_order_mono(a: Seq<Zorder2d>, b: Seq<Zorder2d>, c: Seq<Zorder2d>)
    requires
        ancestry_order(a, b) == -1,
    ensures
        ancestry_order(a, c) <= ancestry_order(b, c),
    decreases a.len(),
{
    let ai = a[0].step_index();
    let bi = b[0].step_index();
    lemma_order_range(a, c);
    lemma_order_range(b, c);
    if c.len() > 0 {
        let ci = c[0].step_index();
        if ai == bi {
            assert(ancestry_order(a, b) == ancestry_order(a.drop_first(), b.drop_first()));
            if ci == ai {
                assert(ancestry_order(a, c) == ancestry_order(a.drop_first(), c.drop_first()));
                assert(ancestry_order(b, c) == ancestry_order(b.drop_first(), c.drop_first()));
                lemma_order_mono(a.drop_first(), b.drop_first(), c.drop_first());
            }
        } else {
            assert(ai < bi);
        }
    }
}

/// Cells inside two cells that come one before the other come in that order.
pub proof fn lemma_extends_order(p: Seq<Zorder2d>, q: Seq<Zorder2d>, x: Seq<Zorder2d>, y: Seq<Zorder2d>)
    requires
        ancestry_order(p, q) == -1,
        lies_inside(x, p),
        lies_inside(y, q),
    ensures
        ancestry_order(x, y) == -1,
    decreases p.len(),
{
    assert(x[0] == p[0]);
    assert(y[0] == q[0]);
    if p[0].step_index() == q[0].step_index() {
        let x1 = x.drop_first();
        let y1 = y.drop_first();
        let p1 = p.drop_first();
        let q1 = q.drop_first();
        assert forall|k: int| 0 <= k < p1.len() implies #[trigger] x1[k] == p1[k] by {
            assert(x[k + 1] == p[k + 1]);
        }
        assert forall|k: int| 0 <= k < q1.len() implies #[trigger] y1[k] == q1[k] by {
            assert(y[k + 1] == q[k + 1]);
        }
        lemma_extends_order(p1, q1, x1, y1);
    }
}

/// The quadrants of one cell come in the order of their steps.
pub proof fn lemma_push_order(path: Seq<Zorder2d>, s1: Zorder2d, s2: Zorder2d)
    requires
        s1.step_index() < s2.step_index(),
    ensures
        ancestry_order(path.push(s1), path.push(s2)) == -1,
    decreases path.len(),
{
    if path.len() > 0 {
        assert(path.push(s1).drop_first() =~= path.drop_first().push(s1));
        assert(path.push(s2).drop_first() =~= path.drop_first().push(s2));
        lemma_push_order(path.drop_first(), s1, s2);
    } else {
        assert(path.push(s1)[0] == s1);
        assert(path.push(s2)[0] == s2);
    }
}

/// A cell inside `path.push(s)` lies inside `path`.
pub proof fn lemma_extends_push(x: Seq<Zorder2d>, path: Seq<Zorder2d>, s: Zorder2d)
    requires
        lies_inside(x, path.push(s)),
    ensures
        lies_inside(x, path),
{
    assert forall|k: int| 0 <= k < path.len() implies #[trigger] x[k] == path[k] by {
        assert(x[k] == path.push(s)[k]);
    }
}

/// Two sorted lists, every cell of the first before every cell of the
/// second, make a sorted list.
pub proof fn lemma_sorted_concat<T>(a: Seq<(T, Seq<Zorder2d>)>, b: Seq<(T, Seq<Zorder2d>)>)
    requires
        sorted_by_cell(a),
        sorted_by_cell(b),
        forall|i: int, j: int|
            #![trigger a[i], b[j]]
            0 <= i < a.len() && 0 <= j < b.len() ==> ancestry_order(a[i].1, b[j].1) == -1,
    ensures
        sorted_by_cell(a + b),
{
    let s = a + b;
    assert forall|i: int, j: int| #![trigger s[i], s[j]] 0 <= i < j < s.len() implies ancestry_order(s[i].1, s[j].1) == -1 by {
        if j < a.len() {
            assert(s[i] == a[i] && s[j] == a[j]);
        } else if i >= a.len() {
            assert(s[i] == b[i - a.len()] && s[j] == b[j - a.len()]);
        } else {
            assert(s[i] == a[i] && s[j] == b[j - a.len()]);
        }
    }
}

/// Every cell of a list inside one quadrant comes before every cell of a list
/// inside a later quadrant.
proof fn lemma_cross<T>(path: Seq<Zorder2d>, sa: Zorder2d, sb: Zorder2d, qa: Seq<(T, Seq<Zorder2d>)>, qb: Seq<(T, Seq<Zorder2d>)>)
    requires
        sa.step_index() < sb.step_index(),
        forall|k: int| 0 <= k < qa.len() ==> lies_inside(#[trigger] qa[k].1, path.push(sa)),
        forall|k: int| 0 <= k < qb.len() ==> lies_inside(#[trigger] qb[k].1, path.push(sb)),
    ensures
        forall|i: int, j: int|
            #![trigger qa[i], qb[j]]
            0 <= i < qa.len() && 0 <= j < qb.len() ==> ancestry_order(qa[i].1, qb[j].1) == -1,
{
    lemma_push_order(path, sa, sb);
    assert forall|i: int, j: int|
        #![trigger qa[i], qb[j]]
        0 <= i < qa.len() && 0 <= j < qb.len() implies ancestry_order(qa[i].1, qb[j].1) == -1 by {
        lemma_extends_order(path.push(sa), path.push(sb), qa[i].1, qb[j].1);
    }
}

/// Sorted lists of cells inside the four quadrants of `path`, in quadrant
/// order, make a sorted list of cells inside `path`.
pub proof fn lemma_quadrants_sorted<T>(
    path: Seq<Zorder2d>,
    q0: Seq<(T, Seq<Zorder2d>)>,
    q1: Seq<(T, Seq<Zorder2d>)>,
    q2: Seq<(T, Seq<Zorder2d>)>,
    q3: Seq<(T, Seq<Zorder2d>)>,
)
    requires
        sorted_by_cell(q0),
        sorted_by_cell(q1),
        sorted_by_cell(q2),
        sorted_by_cell(q3),
        forall|k: int| 0 <= k < q0.len() ==> lies_inside(#[trigger] q0[k].1, path.push(Zorder2d::TopLeft)),
        forall|k: int| 0 <= k < q1.len() ==> lies_inside(#[trigger] q1[k].1, path.push(Zorder2d::TopRight)),
        forall|k: int| 0 <= k < q2.len() ==> lies_inside(#[trigger] q2[k].1, path.push(Zorder2d::BottomLeft)),
        forall|k: int| 0 <= k < q3.len() ==> lies_inside(#[trigger] q3[k].1, path.push(Zorder2d::BottomRight)),
    ensures
        sorted_by_cell(q0 + q1 + q2 + q3),
        forall|k: int| 0 <= k < (q0 + q1 + q2 + q3).len() ==> lies_inside(#[trigger] (q0 + q1 + q2 + q3)[k].1, path),
{
    let tl = Zorder2d::TopLeft;
    let tr = Zorder2d::TopRight;
    let bl = Zorder2d::BottomLeft;
    let br = Zorder2d::BottomRight;
    lemma_cross(path, tl, tr, q0, q1);
    lemma_cross(path, tl, bl, q0, q2);
    lemma_cross(path, tl, br, q0, q3);
    lemma_cross(path, tr, bl, q1, q2);
    lemma_cross(path, tr, br, q1, q3);
    lemma_cross(path, bl, br, q2, q3);
    let a = q0 + q1;
    lemma_sorted_concat(q0, q1);
    assert forall|i: int, j: int| #![trigger a[i], q2[j]] 0 <= i < a.len() && 0 <= j < q2.len() implies ancestry_order(a[i].1, q2[j].1) == -1 by {
        if i < q0.len() {
            assert(a[i] == q0[i]);
        } else {
            assert(a[i] == q1[i - q0.len()]);
        }
    }
    lemma_sorted_concat(a, q2);
    let b = a + q2;
    assert forall|i: int, j: int| #![trigger b[i], q3[j]] 0 <= i < b.len() && 0 <= j < q3.len() implies ancestry_order(b[i].1, q3[j].1) == -1 by {
        if i < q0.len() {
            assert(b[i] == q0[i]);
        } else if i < a.len() {
            assert(b[i] == q1[i - q0.len()]);
        } else {
            assert(b[i] == q2[i - a.len()]);
        }
    }
    lemma_sorted_concat(b, q3);
    let all = b + q3;
    assert forall|k: int| 0 <= k < all.len() implies lies_inside(#[trigger] all[k].1, path) by {
        if k < q0.len() {
            assert(all[k] == q0[k]);
            lemma_extends_push(all[k].1, path, tl);
        } else if k < a.len() {
            assert(all[k] == q1[k - q0.len()]);
            lemma_extends_push(all[k].1, path, tr);
        } else if k < b.len() {
            assert(all[k] == q2[k - a.len()]);
            lemma_extends_push(all[k].1, path, bl);
        } else {
            assert(all[k] == q3[k - b.len()]);
            lemma_extends_push(all[k].1, path, br);
        }
    }
}

} // verus!
