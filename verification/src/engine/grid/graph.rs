//! A sparse directed graph of quadtree nodes, shared by hash-consing.
//!
//! Every distinct node is stored once; a node's four children are indices of
//! other nodes (or of itself, for a leaf). Editing a tree rebuilds the nodes on
//! the edited path and shares everything else. Each node carries a reference
//! count (the edges into it plus the roots held on it) and is freed when that
//! count drops to zero.
use vstd::prelude::*;

verus! {

use super::basic_node2d::{Zorder2d, BasicNode2d};
use super::order::{sorted_by_cell, lies_inside, lemma_quadrants_sorted};
use crate::graph::wrap32;
use vstd::arithmetic::power2::pow2;
use super::storage::{
    NodeData,
    pond_contents,
    pond_in_step,
    lookup_contents,
    is_first_free,
    pond_new,
    pond_next_index,
    pond_insert,
    pond_get,
    pond_free,
    lookup_new,
    lookup_get,
    lookup_insert,
    lookup_remove,
};

pub type Index = u32;

/// A single step into one of the children of a node.
pub trait Step: Sized {
    /// The child slot (0..4) that the step leads into.
    spec fn step_index(&self) -> nat;

    /// The `x` coordinate (0 or 1) of the subcell that the step leads into.
    spec fn subcell_x(&self) -> nat;

    /// The `y` coordinate (0 or 1) of the subcell that the step leads into.
    spec fn subcell_y(&self) -> nat;

    /// The `x` coordinate of the cell that a path of steps leads to.
    spec fn path_x(p: Seq<Self>) -> nat;

    /// The `y` coordinate of the cell that a path of steps leads to.
    spec fn path_y(p: Seq<Self>) -> nat;

    /// Every step, in slot order.
    fn all() -> (r: [Self; 4])
        ensures
            forall|i: int| 0 <= i < 4 ==> #[trigger] r[i].step_index() == i,
    ;

    /// The child slot that the step leads into.
    fn as_usize(&self) -> (r: usize)
        ensures
            r as nat == self.step_index(),
            r < 4,
    ;

    /// The step into subcell `[x, y]`, or `None` where either coordinate is
    /// neither 0 nor 1.
    fn new(subcell: [u32; 2]) -> (r: Option<Self>)
        ensures
            r.is_some() <==> subcell[0] < 2 && subcell[1] < 2,
            r matches Some(s) ==> s.subcell_x() == subcell[0] && s.subcell_y() == subcell[1],
    ;

    /// The subcell `[x, y]` that the step leads into.
    fn subcell(&self) -> (r: [u32; 2])
        ensures
            r[0] == self.subcell_x(),
            r[1] == self.subcell_y(),
            r[0] < 2,
            r[1] < 2,
    ;

    /// Removes the last step from the coordinates of a cell: the coordinates
    /// become those of its parent cell, and the step from the parent to the
    /// cell is returned.
    fn extract_last_step(cell: &mut [u32; 2]) -> (r: Option<Self>)
        ensures
            final(cell)[0] == old(cell)[0] / 2,
            final(cell)[1] == old(cell)[1] / 2,
            r matches Some(s) && s.subcell_x() == old(cell)[0] % 2 && s.subcell_y() == old(cell)[1]
                % 2,
    ;

    /// The path of `depth` steps from the whole grid down to `cell`, or `None`
    /// where the cell lies outside a grid of side `2^depth`.
    fn path_from_cell(cell: [u32; 2], depth: u32) -> (r: Option<Vec<Self>>)
        requires
            depth < 32,
        ensures
            r.is_none() <==> cell[0] >= pow2(depth as nat) || cell[1] >= pow2(depth as nat),
            r matches Some(p) ==> p.len() == depth && Self::path_x(p@) == cell[0] && Self::path_y(p@)
                == cell[1],
    ;

    /// The coordinates of the cell that `path` leads to, wrapped to 32 bits.
    fn path_to_cell(path: &[Self]) -> (r: [u32; 2])
        ensures
            r[0] == wrap32(Self::path_x(path@)),
            r[1] == wrap32(Self::path_y(path@)),
    ;
}

/// Anything with four children that can be read and replaced.
pub trait Node: Sized {
    /// The child in slot `step`.
    spec fn child_at(&self, step: nat) -> Index;

    fn child(&self, child: Zorder2d) -> (r: Index)
        ensures
            r == self.child_at(child.step_index()),
    ;

    /// A copy of the node with the child in slot `child` replaced by `idx`.
    fn with_child(&self, child: Zorder2d, idx: Index) -> (r: Self)
        ensures
            r.child_at(child.step_index()) == idx,
            forall|s: nat| s < 4 && s != child.step_index() ==> r.child_at(s) == self.child_at(s),
    ;
}

// ----------------------------------------------------------------------------
// The mathematical model
// ----------------------------------------------------------------------------

/// The nodes held in a pond, by index.
pub open spec fn nodes_view(p: lilypads::Pond<[u32; 4]>) -> Map<Index, NodeData> {
    Map::new(
        |i: Index| pond_contents(p).dom().contains(i as usize),
        |i: Index| pond_contents(p)[i as usize],
    )
}

/// Every child of every node of `m` is itself a node of `m`.
pub open spec fn closed(m: Map<Index, NodeData>) -> bool {
    forall|i: Index, c: int|
        #![trigger m[i][c]]
        m.dom().contains(i) && 0 <= c < 4 ==> m.dom().contains(m[i][c])
}

/// The node reached from `head` by following `path`, one step per child slot.
/// A leaf is its own child, so a path that runs past a leaf stays on it.
pub open spec fn descend_in(m: Map<Index, NodeData>, head: Index, path: Seq<Zorder2d>) -> Index
    decreases path.len(),
{
    if path.len() == 0 {
        head
    } else {
        descend_in(m, m[head][path[0].step_index() as int], path.drop_first())
    }
}

/// How often `i` occurs among the children of `n`.
pub open spec fn occurrences(n: NodeData, i: Index) -> nat {
    (if n[0] == i { 1nat } else { 0nat }) + (if n[1] == i { 1nat } else { 0nat }) + (if n[2] == i {
        1nat
    } else {
        0nat
    }) + (if n[3] == i { 1nat } else { 0nat })
}

/// The number of edges into `i` from the nodes listed in `live`.
pub open spec fn in_edges(m: Map<Index, NodeData>, live: Seq<Index>, i: Index) -> nat
    decreases live.len(),
{
    if live.len() == 0 {
        0
    } else {
        in_edges(m, live.drop_last(), i) + occurrences(m[live.last()], i)
    }
}

/// The sum of `f` over the first `n` indices.
pub open spec fn index_total(f: spec_fn(Index) -> nat, n: nat) -> nat
    decreases n,
{
    if n == 0 {
        0
    } else {
        index_total(f, (n - 1) as nat) + f((n - 1) as Index)
    }
}

/// The number of all indices.
pub open spec fn index_range() -> nat {
    0x1_0000_0000
}

proof fn lemma_total_add(f: spec_fn(Index) -> nat, g: spec_fn(Index) -> nat, h: spec_fn(Index) -> nat, n: nat)
    requires
        forall|i: Index| #[trigger] h(i) == f(i) + g(i),
    ensures
        index_total(h, n) == index_total(f, n) + index_total(g, n),
    decreases n,
{
    if n > 0 {
        lemma_total_add(f, g, h, (n - 1) as nat);
    }
}

proof fn lemma_total_point(x: Index, n: nat)
    requires
        n <= index_range(),
    ensures
        index_total(point_at(x), n) == (if (x as nat) < n { 1nat } else { 0nat }),
    decreases n,
{
    if n > 0 {
        lemma_total_point(x, (n - 1) as nat);
        assert(((n - 1) as Index) as nat == n - 1);
    }
}

/// One at `x`, zero elsewhere.
pub open spec fn point_at(x: Index) -> spec_fn(Index) -> nat {
    |i: Index| if i == x { 1nat } else { 0nat }
}

/// How often each index is a child of `node`.
pub open spec fn occurrences_of(node: NodeData) -> spec_fn(Index) -> nat {
    |i: Index| occurrences(node, i)
}

/// How often each index occurs in `s`.
pub open spec fn counts_in(s: Seq<Index>) -> spec_fn(Index) -> nat {
    |i: Index| seq_count(s, i)
}

/// The number of edges into each index from the nodes listed in `live`.
pub open spec fn edges_into(m: Map<Index, NodeData>, live: Seq<Index>) -> spec_fn(Index) -> nat {
    |i: Index| in_edges(m, live, i)
}

proof fn lemma_total_ext(f: spec_fn(Index) -> nat, g: spec_fn(Index) -> nat, n: nat)
    requires
        forall|i: Index| #[trigger] f(i) == g(i),
    ensures
        index_total(f, n) == index_total(g, n),
    decreases n,
{
    if n > 0 {
        lemma_total_ext(f, g, (n - 1) as nat);
    }
}

proof fn lemma_total_zero(f: spec_fn(Index) -> nat, n: nat)
    requires
        forall|i: Index| #[trigger] f(i) == 0,
    ensures
        index_total(f, n) == 0,
    decreases n,
{
    if n > 0 {
        lemma_total_zero(f, (n - 1) as nat);
    }
}

proof fn lemma_total_occurrences(node: NodeData)
    ensures
        index_total(occurrences_of(node), index_range()) == 4,
{
    let p0 = point_at(node[0]);
    let p1 = point_at(node[1]);
    let p2 = point_at(node[2]);
    let p3 = point_at(node[3]);
    let a = |i: Index| p0(i) + p1(i);
    let b = |i: Index| a(i) + p2(i);
    let c = |i: Index| b(i) + p3(i);
    lemma_total_point(node[0], index_range());
    lemma_total_point(node[1], index_range());
    lemma_total_point(node[2], index_range());
    lemma_total_point(node[3], index_range());
    lemma_total_add(p0, p1, a, index_range());
    lemma_total_add(a, p2, b, index_range());
    lemma_total_add(b, p3, c, index_range());
    lemma_total_ext(c, occurrences_of(node), index_range());
}

proof fn lemma_total_seq_count(s: Seq<Index>)
    ensures
        index_total(counts_in(s), index_range()) == s.len(),
    decreases s.len(),
{
    if s.len() > 0 {
        let d = s.drop_last();
        lemma_total_seq_count(d);
        lemma_total_point(s.last(), index_range());
        assert forall|i: Index| #[trigger] counts_in(s)(i) == counts_in(d)(i) + point_at(s.last())(i) by {}
        lemma_total_add(counts_in(d), point_at(s.last()), counts_in(s), index_range());
    } else {
        lemma_total_zero(counts_in(s), index_range());
    }
}

proof fn lemma_total_in_edges(m: Map<Index, NodeData>, live: Seq<Index>)
    ensures
        index_total(edges_into(m, live), index_range()) == 4 * live.len(),
    decreases live.len(),
{
    if live.len() > 0 {
        let d = live.drop_last();
        lemma_total_in_edges(m, d);
        lemma_total_occurrences(m[live.last()]);
        assert forall|i: Index| #[trigger] edges_into(m, live)(i) == edges_into(m, d)(i) + occurrences_of(m[live.last()])(i) by {}
        lemma_total_add(edges_into(m, d), occurrences_of(m[live.last()]), edges_into(m, live), index_range());
    } else {
        lemma_total_zero(edges_into(m, live), index_range());
    }
}

proof fn lemma_total_tail(f: spec_fn(Index) -> nat, len: nat, n: nat)
    requires
        len <= n,
        forall|i: Index| (i as nat) >= len ==> #[trigger] f(i) == 0,
        n <= index_range(),
    ensures
        index_total(f, n) == index_total(f, len),
    decreases n,
{
    if n > len {
        lemma_total_tail(f, len, (n - 1) as nat);
        assert(((n - 1) as Index) as nat == n - 1);
    }
}

/// How often `i` occurs in `s`.
pub open spec fn seq_count(s: Seq<Index>, i: Index) -> nat
    decreases s.len(),
{
    if s.len() == 0 {
        0
    } else {
        seq_count(s.drop_last(), i) + (if s.last() == i { 1nat } else { 0nat })
    }
}

// ----------------------------------------------------------------------------
// Lemmas on the model
// ----------------------------------------------------------------------------

proof fn lemma_seq_count_push(s: Seq<Index>, x: Index)
    ensures
        forall|i: Index| #[trigger]
            seq_count(s.push(x), i) == seq_count(s, i) + (if x == i { 1nat } else { 0nat }),
{
    assert(s.push(x).drop_last() =~= s);
}

proof fn lemma_seq_count_remove(s: Seq<Index>, k: int)
    requires
        0 <= k < s.len(),
    ensures
        forall|i: Index| #[trigger]
            seq_count(s, i) == seq_count(s.remove(k), i) + (if s[k] == i { 1nat } else { 0nat }),
    decreases s.len(),
{
    if k == s.len() - 1 {
        assert(s.remove(k) =~= s.drop_last());
        assert forall|i: Index| #[trigger]
            seq_count(s, i) == seq_count(s.remove(k), i) + (if s[k] == i { 1nat } else { 0nat }) by {
            assert(seq_count(s, i) == seq_count(s.drop_last(), i) + (if s.last() == i { 1nat } else { 0nat }));
        }
    } else {
        lemma_seq_count_remove(s.drop_last(), k);
        let r = s.remove(k);
        assert(r.drop_last() =~= s.drop_last().remove(k));
        assert(r.last() == s.last());
        assert forall|i: Index| #[trigger]
            seq_count(s, i) == seq_count(s.remove(k), i) + (if s[k] == i { 1nat } else { 0nat }) by {
            assert(seq_count(s, i) == seq_count(s.drop_last(), i) + (if s.last() == i { 1nat } else { 0nat }));
            assert(seq_count(r, i) == seq_count(r.drop_last(), i) + (if r.last() == i { 1nat } else { 0nat }));
            assert(s.drop_last()[k] == s[k]);
        }
    }
}

proof fn lemma_seq_count_bound(s: Seq<Index>, i: Index)
    ensures
        seq_count(s, i) <= s.len(),
    decreases s.len(),
{
    if s.len() > 0 {
        lemma_seq_count_bound(s.drop_last(), i);
    }
}

proof fn lemma_seq_count_contains(s: Seq<Index>, i: Index)
    ensures
        seq_count(s, i) > 0 <==> s.contains(i),
    decreases s.len(),
{
    if s.len() > 0 {
        lemma_seq_count_contains(s.drop_last(), i);
        if s.contains(i) && s.last() != i {
            let k = choose|k: int| 0 <= k < s.len() && s[k] == i;
            assert(s.drop_last()[k] == i);
        }
        if s.drop_last().contains(i) {
            let k = choose|k: int| 0 <= k < s.drop_last().len() && s.drop_last()[k] == i;
            assert(s[k] == i);
        }
    }
}

/// `in_edges` only reads the nodes that `live` lists.
proof fn lemma_in_edges_frame(m1: Map<Index, NodeData>, m2: Map<Index, NodeData>, live: Seq<Index>)
    requires
        forall|j: int| 0 <= j < live.len() ==> m1[#[trigger] live[j]] == m2[live[j]],
    ensures
        forall|i: Index| #[trigger] in_edges(m1, live, i) == in_edges(m2, live, i),
    decreases live.len(),
{
    if live.len() > 0 {
        let d = live.drop_last();
        assert forall|j: int| 0 <= j < d.len() implies m1[#[trigger] d[j]] == m2[d[j]] by {
            assert(d[j] == live[j]);
        }
        lemma_in_edges_frame(m1, m2, d);
        assert(m1[live[live.len() - 1]] == m2[live[live.len() - 1]]);
        assert forall|i: Index| #[trigger] in_edges(m1, live, i) == in_edges(m2, live, i) by {
            assert(in_edges(m1, live, i) == in_edges(m1, d, i) + occurrences(m1[live.last()], i));
            assert(in_edges(m2, live, i) == in_edges(m2, d, i) + occurrences(m2[live.last()], i));
        }
    }
}

proof fn lemma_in_edges_push(m: Map<Index, NodeData>, live: Seq<Index>, r: Index, n: NodeData)
    requires
        !live.contains(r),
    ensures
        forall|i: Index| #[trigger]
            in_edges(m.insert(r, n), live.push(r), i) == in_edges(m, live, i) + occurrences(n, i),
{
    let m2 = m.insert(r, n);
    assert forall|j: int| 0 <= j < live.len() implies m2[#[trigger] live[j]] == m[live[j]] by {
        assert(live[j] != r);
    }
    lemma_in_edges_frame(m2, m, live);
    let p = live.push(r);
    assert(p.drop_last() =~= live);
    assert forall|i: Index| #[trigger]
        in_edges(m2, p, i) == in_edges(m, live, i) + occurrences(n, i) by {
        assert(in_edges(m2, p, i) == in_edges(m2, p.drop_last(), i) + occurrences(m2[p.last()], i));
    }
}

/// Removing a listed node removes exactly its edges.
proof fn lemma_in_edges_remove(m1: Map<Index, NodeData>, m2: Map<Index, NodeData>, live: Seq<Index>, k: int)
    requires
        0 <= k < live.len(),
        forall|j: int| 0 <= j < live.len() && j != k ==> m1[#[trigger] live[j]] == m2[live[j]],
    ensures
        forall|i: Index| #[trigger]
            in_edges(m1, live, i) == in_edges(m2, live.remove(k), i) + occurrences(m1[live[k]], i),
    decreases live.len(),
{
    let d = live.drop_last();
    let r = live.remove(k);
    if k == live.len() - 1 {
        assert(r =~= d);
        assert forall|j: int| 0 <= j < d.len() implies m1[#[trigger] d[j]] == m2[d[j]] by {
            assert(d[j] == live[j]);
        }
        lemma_in_edges_frame(m1, m2, d);
        assert forall|i: Index| #[trigger]
            in_edges(m1, live, i) == in_edges(m2, r, i) + occurrences(m1[live[k]], i) by {
            assert(in_edges(m1, live, i) == in_edges(m1, d, i) + occurrences(m1[live.last()], i));
        }
    } else {
        assert forall|j: int| 0 <= j < d.len() && j != k implies m1[#[trigger] d[j]] == m2[d[j]] by {
            assert(d[j] == live[j]);
        }
        lemma_in_edges_remove(m1, m2, d, k);
        assert(r.drop_last() =~= d.remove(k));
        assert(r.last() == live.last());
        assert(m1[live[live.len() - 1]] == m2[live[live.len() - 1]]);
        assert forall|i: Index| #[trigger]
            in_edges(m1, live, i) == in_edges(m2, r, i) + occurrences(m1[live[k]], i) by {
            assert(in_edges(m1, live, i) == in_edges(m1, d, i) + occurrences(m1[live.last()], i));
            assert(in_edges(m2, r, i) == in_edges(m2, r.drop_last(), i) + occurrences(m2[r.last()], i));
            assert(d[k] == live[k]);
        }
    }
}

proof fn lemma_in_edges_bound(m: Map<Index, NodeData>, live: Seq<Index>, i: Index)
    ensures
        in_edges(m, live, i) <= 4 * live.len(),
    decreases live.len(),
{
    if live.len() > 0 {
        lemma_in_edges_bound(m, live.drop_last(), i);
    }
}

/// A listed node that has `i` as a child contributes an edge into `i`.
proof fn lemma_in_edges_parent(m: Map<Index, NodeData>, live: Seq<Index>, k: int, i: Index)
    requires
        0 <= k < live.len(),
    ensures
        in_edges(m, live, i) >= occurrences(m[live[k]], i),
{
    lemma_in_edges_remove(m, m, live, k);
}

proof fn lemma_descend_snoc(m: Map<Index, NodeData>, head: Index, path: Seq<Zorder2d>, s: Zorder2d)
    ensures
        descend_in(m, head, path.push(s)) == m[descend_in(m, head, path)][s.step_index() as int],
    decreases path.len(),
{
    let c = m[head][path.push(s)[0].step_index() as int];
    assert(descend_in(m, head, path.push(s)) == descend_in(m, c, path.push(s).drop_first()));
    if path.len() > 0 {
        assert(path.push(s)[0] == path[0]);
        lemma_descend_snoc(m, c, path.drop_first(), s);
        assert(path.push(s).drop_first() =~= path.drop_first().push(s));
    } else {
        assert(path.push(s).drop_first() =~= Seq::<Zorder2d>::empty());
        assert(path.push(s)[0] == s);
    }
}

/// Following `p` then `q` is following `p + q`.
proof fn lemma_descend_concat(
    m: Map<Index, NodeData>,
    head: Index,
    p: Seq<Zorder2d>,
    q: Seq<Zorder2d>,
)
    ensures
        descend_in(m, head, p + q) == descend_in(m, descend_in(m, head, p), q),
    decreases p.len(),
{
    if p.len() > 0 {
        lemma_descend_concat(m, m[head][p[0].step_index() as int], p.drop_first(), q);
        assert((p + q).drop_first() =~= p.drop_first() + q);
    } else {
        assert(p + q =~= q);
    }
}

/// Two closed node maps that agree where both are defined lead the same way
/// from any node they share.
pub proof fn lemma_descend_agree(
    m1: Map<Index, NodeData>,
    m2: Map<Index, NodeData>,
    head: Index,
    path: Seq<Zorder2d>,
)
    requires
        closed(m1),
        closed(m2),
        m1.dom().contains(head),
        m2.dom().contains(head),
        forall|i: Index| m1.dom().contains(i) && m2.dom().contains(i) ==> #[trigger] m1[i] == m2[i],
    ensures
        descend_in(m1, head, path) == descend_in(m2, head, path),
        m1.dom().contains(descend_in(m1, head, path)),
    decreases path.len(),
{
    if path.len() > 0 {
        let c = path[0].step_index() as int;
        assert(m1[head] == m2[head]);
        assert(m1.dom().contains(m1[head][c]));
        assert(m2.dom().contains(m2[head][c]));
        lemma_descend_agree(m1, m2, m1[head][c], path.drop_first());
    }
}

proof fn lemma_descend_live(m: Map<Index, NodeData>, head: Index, path: Seq<Zorder2d>)
    requires
        closed(m),
        m.dom().contains(head),
    ensures
        m.dom().contains(descend_in(m, head, path)),
{
    lemma_descend_agree(m, m, head, path);
}

proof fn lemma_first_free_bound(dom: Set<usize>, r: usize)
    requires
        dom.finite(),
        forall|j: usize| j < r ==> dom.contains(j),
    ensures
        r <= dom.len(),
    decreases r,
{
    if r > 0 {
        let d2 = dom.remove((r - 1) as usize);
        assert forall|j: usize| j < (r - 1) as usize implies d2.contains(j) by {}
        lemma_first_free_bound(d2, (r - 1) as usize);
    }
}

/// The larger of two numbers.
pub open spec fn max_nat(a: nat, b: nat) -> nat {
    if a < b { b } else { a }
}

/// The most that the node rebuilt at depth `d` of an edited path can rise
/// to: the height left below that depth in the old tree, or what the path
/// below it adds to the height of the node written at its end.
pub open spec fn rebuilt_height_bound(h_head: int, len: int, h_new: int, d: int) -> int {
    if h_head - d < len - d + h_new {
        len - d + h_new
    } else {
        h_head - d
    }
}

/// The height of node `i` given the heights of its children: a leaf (its own
/// children) has height zero, any other node one more than its highest child.
pub open spec fn height_from(m: Map<Index, NodeData>, rank: Map<Index, nat>, i: Index) -> nat {
    if m[i][0] == i {
        0
    } else {
        1 + max_nat(max_nat(rank[m[i][0]], rank[m[i][1]]), max_nat(rank[m[i][2]], rank[m[i][3]]))
    }
}

/// The recorded height of `i`, if it is stored, is its height.
pub open spec fn height_ok_at(m: Map<Index, NodeData>, rank: Map<Index, nat>, i: Index) -> bool {
    m.dom().contains(i) ==> rank[i] == height_from(m, rank, i)
}

/// Every stored node's recorded height is its height.
pub open spec fn heights_ok(m: Map<Index, NodeData>, rank: Map<Index, nat>) -> bool {
    forall|i: Index| #[trigger] height_ok_at(m, rank, i)
}

/// Heights stay right when a node whose children are stored (or itself) is added.
proof fn lemma_heights_insert(m: Map<Index, NodeData>, rank: Map<Index, nat>, idx: Index, n: NodeData)
    requires
        heights_ok(m, rank),
        !m.dom().contains(idx),
        forall|i: Index, c: int| #![trigger m[i][c]] m.dom().contains(i) && 0 <= c < 4 ==> m[i][c] != idx,
        forall|c: int| 0 <= c < 4 ==> (#[trigger] n[c] == idx <==> n[0] == idx),
    ensures
        heights_ok(m.insert(idx, n), rank.insert(idx, height_from(m.insert(idx, n), rank, idx))),
{
    let m2 = m.insert(idx, n);
    let r2 = rank.insert(idx, height_from(m2, rank, idx));
    assert forall|i: Index| #[trigger] height_ok_at(m2, r2, i) by {
        if i != idx && m2.dom().contains(i) {
            assert(height_ok_at(m, rank, i));
            assert(m[i][0] != idx);
            assert(m[i][1] != idx);
            assert(m[i][2] != idx);
            assert(m[i][3] != idx);
        }
        if i == idx {
            if n[0] != idx {
                assert(n[1] != idx);
                assert(n[2] != idx);
                assert(n[3] != idx);
            }
        }
    }
}

/// Heights stay right when a node is removed.
proof fn lemma_heights_remove(m: Map<Index, NodeData>, rank: Map<Index, nat>, idx: Index)
    requires
        heights_ok(m, rank),
    ensures
        heights_ok(m.remove(idx), rank),
{
    let m2 = m.remove(idx);
    assert forall|i: Index| #[trigger] height_ok_at(m2, rank, i) by {
        assert(height_ok_at(m, rank, i));
    }
}

/// A path from a leaf stays on it.
proof fn lemma_descend_stays_on_leaf(m: Map<Index, NodeData>, leaf: Index, path: Seq<Zorder2d>)
    requires
        forall|c: int| 0 <= c < 4 ==> #[trigger] m[leaf][c] == leaf,
    ensures
        descend_in(m, leaf, path) == leaf,
    decreases path.len(),
{
    if path.len() > 0 {
        assert(m[leaf][path[0].step_index() as int] == leaf);
        lemma_descend_stays_on_leaf(m, leaf, path.drop_first());
    }
}

/// The number of entries a depth-first walk visits below `i`.
pub open spec fn tree_size(m: Map<Index, NodeData>, rank: Map<Index, nat>, i: Index) -> nat
    decreases rank[i],
{
    if m[i][0] == i {
        1
    } else {
        1 + (if rank[m[i][0]] < rank[i] { tree_size(m, rank, m[i][0]) } else { 0 }) + (if rank[m[i][1]]
            < rank[i] {
            tree_size(m, rank, m[i][1])
        } else {
            0
        }) + (if rank[m[i][2]] < rank[i] { tree_size(m, rank, m[i][2]) } else { 0 }) + (if rank[m[i][3]]
            < rank[i] {
            tree_size(m, rank, m[i][3])
        } else {
            0
        })
    }
}

/// The leaves below `i`, each with the path that leads to it from the top of
/// the walk, in Z-order.
pub open spec fn leaves_of(
    m: Map<Index, NodeData>,
    rank: Map<Index, nat>,
    i: Index,
    prefix: Seq<Zorder2d>,
) -> Seq<(Index, Seq<Zorder2d>)>
    decreases rank[i],
{
    if m[i][0] == i {
        seq![(i, prefix)]
    } else {
        (if rank[m[i][0]] < rank[i] {
            leaves_of(m, rank, m[i][0], prefix.push(Zorder2d::TopLeft))
        } else {
            Seq::empty()
        }) + (if rank[m[i][1]] < rank[i] {
            leaves_of(m, rank, m[i][1], prefix.push(Zorder2d::TopRight))
        } else {
            Seq::empty()
        }) + (if rank[m[i][2]] < rank[i] {
            leaves_of(m, rank, m[i][2], prefix.push(Zorder2d::BottomLeft))
        } else {
            Seq::empty()
        }) + (if rank[m[i][3]] < rank[i] {
            leaves_of(m, rank, m[i][3], prefix.push(Zorder2d::BottomRight))
        } else {
            Seq::empty()
        })
    }
}

/// The leaves still to be reported for a stack of pending walks, top of the
/// stack first.
pub open spec fn pending_leaves(
    m: Map<Index, NodeData>,
    rank: Map<Index, nat>,
    stack: Seq<(Index, Vec<Zorder2d>)>,
) -> Seq<(Index, Seq<Zorder2d>)>
    decreases stack.len(),
{
    if stack.len() == 0 {
        Seq::empty()
    } else {
        leaves_of(m, rank, stack.last().0, stack.last().1@) + pending_leaves(m, rank, stack.drop_last())
    }
}

/// The number of entries the pending walks still visit.
pub open spec fn pending_size(
    m: Map<Index, NodeData>,
    rank: Map<Index, nat>,
    stack: Seq<(Index, Vec<Zorder2d>)>,
) -> nat
    decreases stack.len(),
{
    if stack.len() == 0 {
        0
    } else {
        tree_size(m, rank, stack.last().0) + pending_size(m, rank, stack.drop_last())
    }
}

/// The plain values of a list of leaves and paths.
pub open spec fn leaf_list_view(s: Seq<(Index, Vec<Zorder2d>)>) -> Seq<(Index, Seq<Zorder2d>)> {
    s.map_values(|e: (Index, Vec<Zorder2d>)| (e.0, e.1@))
}

/// The children of `i` that a walk goes on to, in slot order: none for a
/// leaf.
pub open spec fn walk_children(m: Map<Index, NodeData>, rank: Map<Index, nat>, i: Index) -> Seq<Index> {
    if m[i][0] == i {
        Seq::empty()
    } else {
        (if rank[m[i][0]] < rank[i] { seq![m[i][0]] } else { Seq::empty() }) + (if rank[m[i][1]] < rank[i] {
            seq![m[i][1]]
        } else {
            Seq::empty()
        }) + (if rank[m[i][2]] < rank[i] { seq![m[i][2]] } else { Seq::empty() }) + (if rank[m[i][3]]
            < rank[i] {
            seq![m[i][3]]
        } else {
            Seq::empty()
        })
    }
}

/// The number of entries the walks from every entry of `q` visit.
pub open spec fn queue_size(m: Map<Index, NodeData>, rank: Map<Index, nat>, q: Seq<Index>) -> nat
    decreases q.len(),
{
    if q.len() == 0 {
        0
    } else {
        tree_size(m, rank, q[0]) + queue_size(m, rank, q.drop_first())
    }
}

/// The walks from two queues one after the other visit as many entries as both.
pub proof fn lemma_queue_size_concat(m: Map<Index, NodeData>, rank: Map<Index, nat>, a: Seq<Index>, b: Seq<Index>)
    ensures
        queue_size(m, rank, a + b) == queue_size(m, rank, a) + queue_size(m, rank, b),
    decreases a.len(),
{
    if a.len() > 0 {
        assert((a + b)[0] == a[0]);
        assert((a + b).drop_first() =~= a.drop_first() + b);
        lemma_queue_size_concat(m, rank, a.drop_first(), b);
    } else {
        assert(a + b =~= b);
    }
}

/// The walks from a queue of one node are the walk from that node.
pub proof fn lemma_queue_size_single(m: Map<Index, NodeData>, rank: Map<Index, nat>, i: Index)
    ensures
        queue_size(m, rank, seq![i]) == tree_size(m, rank, i),
{
    assert(seq![i].drop_first() =~= Seq::<Index>::empty());
    assert(seq![i][0] == i);
    assert(queue_size(m, rank, Seq::<Index>::empty()) == 0);
}

/// A walk from a node visits the node and then the walks from the children it goes on to.
pub proof fn lemma_walk_children_size(m: Map<Index, NodeData>, rank: Map<Index, nat>, i: Index)
    ensures
        queue_size(m, rank, walk_children(m, rank, i)) + 1 == tree_size(m, rank, i),
{
    if m[i][0] != i {
        let e = Seq::<Index>::empty();
        let part = |c: int| if rank[m[i][c]] < rank[i] { seq![m[i][c]] } else { e };
        assert forall|c: int| 0 <= c < 4 implies queue_size(m, rank, #[trigger] part(c)) == (if rank[m[i][c]] < rank[i] {
            tree_size(m, rank, m[i][c])
        } else {
            0
        }) by {
            if rank[m[i][c]] < rank[i] {
                lemma_queue_size_single(m, rank, m[i][c]);
            }
        }
        assert(walk_children(m, rank, i) == part(0) + part(1) + part(2) + part(3));
        lemma_queue_size_concat(m, rank, part(0), part(1));
        lemma_queue_size_concat(m, rank, part(0) + part(1), part(2));
        lemma_queue_size_concat(m, rank, part(0) + part(1) + part(2), part(3));
    }
}

/// The nodes that a breadth-first walk from the queue `q` visits, in order of
/// visit: each node is listed, and unless it is a leaf its children join the
/// back of the queue.
pub open spec fn bfs_order(m: Map<Index, NodeData>, rank: Map<Index, nat>, q: Seq<Index>) -> Seq<Index>
    decreases queue_size(m, rank, q),
{
    if q.len() == 0 {
        Seq::empty()
    } else {
        proof {
            lemma_queue_size_concat(m, rank, q.drop_first(), walk_children(m, rank, q[0]));
            lemma_walk_children_size(m, rank, q[0]);
        }
        seq![q[0]] + bfs_order(m, rank, q.drop_first() + walk_children(m, rank, q[0]))
    }
}

/// An entry of `leaves_of(m, rank, i, prefix)` is well placed: it names a
/// stored leaf, its path extends `prefix` by at most `rank[i]` steps, and those
/// steps lead from `i` to the leaf.
pub open spec fn leaf_entry_ok(
    m: Map<Index, NodeData>,
    rank: Map<Index, nat>,
    i: Index,
    prefix: Seq<Zorder2d>,
    e: (Index, Seq<Zorder2d>),
) -> bool {
    &&& m.dom().contains(e.0)
    &&& m[e.0][0] == e.0
    &&& prefix.len() <= e.1.len() <= prefix.len() + rank[i]
    &&& e.1.take(prefix.len() as int) == prefix
    &&& descend_in(m, i, e.1.skip(prefix.len() as int)) == e.0
}

/// Every entry of `s` is well placed.
pub open spec fn leaf_entries_ok(
    m: Map<Index, NodeData>,
    rank: Map<Index, nat>,
    i: Index,
    prefix: Seq<Zorder2d>,
    s: Seq<(Index, Seq<Zorder2d>)>,
) -> bool {
    forall|k: int| 0 <= k < s.len() ==> leaf_entry_ok(m, rank, i, prefix, #[trigger] s[k])
}

proof fn lemma_leaf_entries_concat(
    m: Map<Index, NodeData>,
    rank: Map<Index, nat>,
    i: Index,
    prefix: Seq<Zorder2d>,
    a: Seq<(Index, Seq<Zorder2d>)>,
    b: Seq<(Index, Seq<Zorder2d>)>,
)
    requires
        leaf_entries_ok(m, rank, i, prefix, a),
        leaf_entries_ok(m, rank, i, prefix, b),
    ensures
        leaf_entries_ok(m, rank, i, prefix, a + b),
{
    assert forall|k: int| 0 <= k < (a + b).len() implies leaf_entry_ok(m, rank, i, prefix, #[trigger] (a + b)[k]) by {
        if k < a.len() {
            assert((a + b)[k] == a[k]);
        } else {
            assert((a + b)[k] == b[k - a.len()]);
        }
    }
}

/// Entries placed below the child in slot `s` of `i` are placed below `i`.
proof fn lemma_leaf_entries_lift(
    m: Map<Index, NodeData>,
    rank: Map<Index, nat>,
    i: Index,
    s: Zorder2d,
    prefix: Seq<Zorder2d>,
    l: Seq<(Index, Seq<Zorder2d>)>,
)
    requires
        rank[m[i][s.step_index() as int]] < rank[i],
        leaf_entries_ok(m, rank, m[i][s.step_index() as int], prefix.push(s), l),
    ensures
        leaf_entries_ok(m, rank, i, prefix, l),
{
    let c = m[i][s.step_index() as int];
    let n = prefix.len() as int;
    assert forall|k: int| 0 <= k < l.len() implies leaf_entry_ok(m, rank, i, prefix, #[trigger] l[k]) by {
        let e = l[k];
        assert(leaf_entry_ok(m, rank, c, prefix.push(s), e));
        assert(e.1.take(n + 1) == prefix.push(s));
        assert(e.1.take(n) =~= e.1.take(n + 1).take(n));
        assert(prefix.push(s).take(n) =~= prefix);
        let q = e.1.skip(n);
        assert(q[0] == e.1.take(n + 1)[n]);
        assert(q.drop_first() =~= e.1.skip(n + 1));
    }
}

/// Every entry that `leaves_of` reports is well placed.
/// The leaves below `i` come in Z-order, each inside the cell `prefix`.
proof fn lemma_leaves_of_sorted(m: Map<Index, NodeData>, rank: Map<Index, nat>, i: Index, prefix: Seq<Zorder2d>)
    ensures
        sorted_by_cell(leaves_of(m, rank, i, prefix)),
        forall|k: int|
            0 <= k < leaves_of(m, rank, i, prefix).len() ==> lies_inside(#[trigger] leaves_of(m, rank, i, prefix)[k].1, prefix),
    decreases rank[i],
{
    let l = leaves_of(m, rank, i, prefix);
    if m[i][0] == i {
        assert(l == seq![(i, prefix)]);
        assert(lies_inside(prefix, prefix));
    } else {
        let steps = seq![Zorder2d::TopLeft, Zorder2d::TopRight, Zorder2d::BottomLeft, Zorder2d::BottomRight];
        let part = |j: int|
            if rank[m[i][j]] < rank[i] {
                leaves_of(m, rank, m[i][j], prefix.push(steps[j]))
            } else {
                Seq::empty()
            };
        assert forall|j: int| 0 <= j < 4 implies sorted_by_cell(#[trigger] part(j)) && forall|k: int|
            0 <= k < part(j).len() ==> lies_inside(#[trigger] part(j)[k].1, prefix.push(steps[j])) by {
            if rank[m[i][j]] < rank[i] {
                lemma_leaves_of_sorted(m, rank, m[i][j], prefix.push(steps[j]));
            }
        }
        assert(l == part(0) + part(1) + part(2) + part(3));
        lemma_quadrants_sorted(prefix, part(0), part(1), part(2), part(3));
    }
}

proof fn lemma_leaves_of_sound(
    m: Map<Index, NodeData>,
    rank: Map<Index, nat>,
    i: Index,
    prefix: Seq<Zorder2d>,
)
    requires
        closed(m),
        m.dom().contains(i),
    ensures
        leaf_entries_ok(m, rank, i, prefix, leaves_of(m, rank, i, prefix)),
    decreases rank[i],
{
    let l = leaves_of(m, rank, i, prefix);
    if m[i][0] == i {
        assert(l == seq![(i, prefix)]);
        assert(prefix.take(prefix.len() as int) =~= prefix);
        assert(prefix.skip(prefix.len() as int) =~= Seq::<Zorder2d>::empty());
        assert(leaf_entry_ok(m, rank, i, prefix, l[0]));
    } else {
        let steps = seq![Zorder2d::TopLeft, Zorder2d::TopRight, Zorder2d::BottomLeft, Zorder2d::BottomRight];
        let part = |j: int|
            if rank[m[i][j]] < rank[i] {
                leaves_of(m, rank, m[i][j], prefix.push(steps[j]))
            } else {
                Seq::empty()
            };
        assert forall|j: int| 0 <= j < 4 implies leaf_entries_ok(m, rank, i, prefix, #[trigger] part(j)) by {
            assert(steps[j].step_index() == j);
            assert(m.dom().contains(m[i][j]));
            if rank[m[i][j]] < rank[i] {
                lemma_leaves_of_sound(m, rank, m[i][j], prefix.push(steps[j]));
                lemma_leaf_entries_lift(m, rank, i, steps[j], prefix, part(j));
            }
        }
        assert(l == part(0) + part(1) + part(2) + part(3));
        lemma_leaf_entries_concat(m, rank, i, prefix, part(0), part(1));
        lemma_leaf_entries_concat(m, rank, i, prefix, part(0) + part(1), part(2));
        lemma_leaf_entries_concat(m, rank, i, prefix, part(0) + part(1) + part(2), part(3));
    }
}

/// `q` follows `p` for its first `j` steps and leaves it at step `j`.
pub open spec fn diverges(q: Seq<Zorder2d>, p: Seq<Zorder2d>, j: int) -> bool {
    &&& 0 <= j < p.len()
    &&& j < q.len()
    &&& forall|i: int| 0 <= i < j ==> q[i] == p[i]
    &&& q[j] != p[j]
}

/// `m1` is contained in `m2`.
pub open spec fn extends(m1: Map<Index, NodeData>, m2: Map<Index, NodeData>) -> bool {
    forall|i: Index| #[trigger] m1.dom().contains(i) ==> m2.dom().contains(i) && m2[i] == m1[i]
}

/// One step of rebuilding the edited path, from the bottom up.
proof fn lemma_propagate_step(
    m_old: Map<Index, NodeData>,
    m_prev: Map<Index, NodeData>,
    m_new: Map<Index, NodeData>,
    path: Seq<Zorder2d>,
    parent: Index,
    below: Index,
    child_prev: Index,
    idx: Index,
    target: Index,
    d: int,
)
    requires
        closed(m_old),
        closed(m_prev),
        closed(m_new),
        extends(m_old, m_prev),
        extends(m_prev, m_new),
        0 <= d < path.len(),
        m_old.dom().contains(parent),
        below == m_old[parent][path[d].step_index() as int],
        m_prev.dom().contains(child_prev),
        m_new.dom().contains(idx),
        m_new[idx][path[d].step_index() as int] == child_prev,
        forall|s: int|
            0 <= s < 4 && s != path[d].step_index() ==> #[trigger] m_new[idx][s] == m_old[parent][s],
        descend_in(m_prev, child_prev, path.skip(d + 1)) == target,
        forall|q: Seq<Zorder2d>, j: int| #[trigger]
            diverges(q, path.skip(d + 1), j) ==> descend_in(m_prev, child_prev, q) == descend_in(
                m_old,
                below,
                q,
            ),
    ensures
        descend_in(m_new, idx, path.skip(d)) == target,
        forall|q: Seq<Zorder2d>, j: int| #[trigger]
            diverges(q, path.skip(d), j) ==> descend_in(m_new, idx, q) == descend_in(
                m_old,
                parent,
                q,
            ),
{
    let ps = path.skip(d);
    let rest = path.skip(d + 1);
    assert(ps[0] == path[d]);
    assert(ps.drop_first() =~= rest);
    lemma_descend_agree(m_prev, m_new, child_prev, rest);
    assert forall|q: Seq<Zorder2d>, j: int| #[trigger] diverges(q, ps, j) implies descend_in(
        m_new,
        idx,
        q,
    ) == descend_in(m_old, parent, q) by {
        let c = q[0].step_index() as int;
        if j == 0 {
            assert(q[0] != path[d]);
            assert(q[0].step_index() != path[d].step_index());
            assert(m_new[idx][c] == m_old[parent][c]);
            assert(m_old.dom().contains(m_old[parent][c]));
            lemma_descend_agree(m_old, m_new, m_old[parent][c], q.drop_first());
        } else {
            assert(q[0] == ps[0]);
            let qd = q.drop_first();
            assert(diverges(qd, rest, j - 1)) by {
                assert forall|i: int| 0 <= i < j - 1 implies qd[i] == rest[i] by {
                    assert(q[i + 1] == ps[i + 1]);
                }
                assert(q[j] == qd[j - 1]);
                assert(ps[j] == rest[j - 1]);
            }
            lemma_descend_agree(m_prev, m_new, child_prev, qd);
        }
    }
}

// ----------------------------------------------------------------------------
// The graph
// ----------------------------------------------------------------------------

/// A hash-consed, reference-counted store of two-dimensional nodes.
pub struct SparseDirectedGraph {
    pub nodes: lilypads::Pond<BasicNode2d>,
    ref_count: Vec<u32>,
    index_lookup: ahash::AHashMap<BasicNode2d, Index>,
    /// Every stored node, each once.
    live: Ghost<Seq<Index>>,
    /// Every root handle held on the graph, with repetition.
    held: Ghost<Seq<Index>>,
    /// The height of every stored node.
    rank: Ghost<Map<Index, nat>>,
}

impl SparseDirectedGraph {
    /// The stored nodes, by index.
    pub closed spec fn view_nodes(&self) -> Map<Index, NodeData> {
        nodes_view(self.nodes)
    }

    /// `i` is the index of a stored node.
    pub open spec fn is_live(&self, i: Index) -> bool {
        self.view_nodes().dom().contains(i)
    }

    /// `r` is the lowest index that holds no node.
    pub open spec fn is_first_free_index(&self, r: Index) -> bool {
        &&& !self.is_live(r)
        &&& forall|j: Index| j < r ==> #[trigger] self.is_live(j)
    }

    /// The height of the tree below `i`: zero for a leaf, otherwise one more
    /// than the highest child.
    pub closed spec fn height(&self, i: Index) -> nat {
        self.rank@[i]
    }

    /// The node at `i` is a leaf: its own children.
    pub open spec fn is_leaf(&self, i: Index) -> bool {
        self.view_nodes()[i][0] == i
    }

    /// The leaves of the tree below `head`, each with the path that leads to
    /// it, in Z-order.
    pub closed spec fn leaf_paths(&self, head: Index) -> Seq<(Index, Seq<Zorder2d>)> {
        leaves_of(self.view_nodes(), self.rank@, head, Seq::empty())
    }

    /// The nodes of the tree below `head` in breadth-first order, a node
    /// shared by several parents once per parent, each leaf ending its branch.
    pub closed spec fn bfs_walk(&self, head: Index) -> Seq<Index> {
        bfs_order(self.view_nodes(), self.rank@, seq![head])
    }

    /// The number of stored nodes.
    pub closed spec fn node_count(&self) -> nat {
        self.live@.len()
    }

    /// How many root handles are held on `i`.
    pub closed spec fn root_count(&self, i: Index) -> nat {
        seq_count(self.held@, i)
    }

    /// How many root handles are held in all.
    pub closed spec fn root_total(&self) -> nat {
        self.held@.len()
    }

    /// The reference count of `i` (zero beyond the counted range).
    pub closed spec fn ref_of(&self, i: Index) -> nat {
        if (i as int) < self.ref_count@.len() {
            self.ref_count@[i as int] as nat
        } else {
            0
        }
    }

    /// Every stored node is referenced: by a parent, by a root, or, for a
    /// leaf, by itself.
    pub closed spec fn all_referenced(&self) -> bool {
        forall|i: Index| self.is_live(i) ==> #[trigger] self.ref_of(i) > 0
    }

    /// The number of edges into `i` from stored nodes.
    pub closed spec fn parents_of(&self, i: Index) -> nat {
        in_edges(self.view_nodes(), self.live@, i)
    }

    /// The node reached from `head` along `path` in the current graph.
    pub open spec fn descend_spec(&self, head: Index, path: Seq<Zorder2d>) -> Index {
        descend_in(self.view_nodes(), head, path)
    }

    /// Adding `extra` nodes (and a root) keeps every count within 32 bits.
    pub open spec fn has_room(&self, extra: nat) -> bool {
        4 * (self.node_count() + extra) + self.root_total() + 1 < u32::MAX
    }

    /// The structural invariant.
    pub closed spec fn wf(&self) -> bool {
        self.wf_with(Seq::empty())
    }

    /// The structural invariant while the references in `pending` are still to
    /// be released: each one is counted on its node and every one of them is a
    /// stored node.
    #[verifier::opaque]
    closed spec fn wf_with(&self, pending: Seq<Index>) -> bool {
        let p = pond_contents(self.nodes);
        let m = self.view_nodes();
        let lk = lookup_contents(self.index_lookup);
        &&& pond_in_step(self.nodes)
        &&& p.dom().finite()
        &&& p.dom().len() == self.live@.len()
        &&& forall|k: usize| #[trigger] p.dom().contains(k) ==> k < 0xffff_ffff
        &&& self.live@.no_duplicates()
        &&& forall|i: Index| #[trigger] m.dom().contains(i) <==> self.live@.contains(i)
        &&& closed(m)
        &&& forall|i: Index|
            #[trigger] m.dom().contains(i) ==> lk.dom().contains(m[i]) && lk[m[i]] == i
        &&& forall|n: NodeData|
            #[trigger] lk.dom().contains(n) ==> m.dom().contains(lk[n]) && m[lk[n]] == n
        &&& forall|i: Index| #[trigger]
            self.ref_of(i) == in_edges(m, self.live@, i) + seq_count(self.held@, i) + seq_count(
                pending,
                i,
            )
        &&& forall|i: Index| #[trigger] self.held@.contains(i) ==> m.dom().contains(i)
        &&& forall|i: Index| #[trigger] pending.contains(i) ==> m.dom().contains(i)
        &&& forall|i: Index, c: int|
            #![trigger m[i][c]]
            m.dom().contains(i) && 0 <= c < 4 ==> (m[i][c] == i <==> m[i][0] == i)
        &&& heights_ok(m, self.rank@)
    }

    proof fn lemma_pond_insert_view(old_p: Map<usize, NodeData>, new_p: Map<usize, NodeData>, r: usize, n: NodeData)
        requires
            new_p == old_p.insert(r, n),
            r < 0x1_0000_0000,
        ensures
            Map::new(|i: Index| new_p.dom().contains(i as usize), |i: Index| new_p[i as usize])
                =~= Map::new(|i: Index| old_p.dom().contains(i as usize), |i: Index| old_p[i as usize]).insert(r as Index, n),
    {
    }

    proof fn lemma_pond_remove_view(old_p: Map<usize, NodeData>, new_p: Map<usize, NodeData>, r: Index)
        requires
            new_p == old_p.remove(r as usize),
        ensures
            Map::new(|i: Index| new_p.dom().contains(i as usize), |i: Index| new_p[i as usize])
                =~= Map::new(|i: Index| old_p.dom().contains(i as usize), |i: Index| old_p[i as usize]).remove(r),
    {
    }

    /// Every count is bounded by the size of the graph.
    proof fn lemma_ref_bound(&self, i: Index)
        requires
            self.wf(),
        ensures
            self.ref_of(i) <= 4 * self.node_count() + self.root_total(),
            self.is_live(i) ==> i < 0xffff_ffff,
    {
        reveal(SparseDirectedGraph::wf_with);
        lemma_in_edges_bound(self.view_nodes(), self.live@, i);
        lemma_seq_count_bound(self.held@, i);
    }

    /// What the invariant says of the stored nodes and the lookup table.
    proof fn lemma_wf_facts(&self)
        requires
            self.wf(),
        ensures
            pond_in_step(self.nodes),
            heights_ok(self.view_nodes(), self.rank@),
            closed(self.view_nodes()),
            pond_contents(self.nodes).dom().finite(),
            pond_contents(self.nodes).dom().len() == self.node_count(),
            forall|i: Index| #[trigger] self.is_live(i) ==> i < 0xffff_ffff,
            forall|n: NodeData| #[trigger]
                lookup_contents(self.index_lookup).dom().contains(n) ==> self.is_live(
                    lookup_contents(self.index_lookup)[n],
                ) && self.view_nodes()[lookup_contents(self.index_lookup)[n]] == n,
            forall|i: Index| #[trigger]
                self.is_live(i) ==> lookup_contents(self.index_lookup).dom().contains(
                    self.view_nodes()[i],
                ),
            forall|i: Index| #[trigger] self.held@.contains(i) ==> self.is_live(i),
            forall|i: Index| self.root_count(i) > 0 ==> #[trigger] self.is_live(i),
            forall|i: Index, c: int|
                #![trigger self.view_nodes()[i][c]]
                self.is_live(i) && 0 <= c < 4 ==> (self.view_nodes()[i][c] == i <==> self.is_leaf(i)),
            forall|i: Index| #[trigger] self.is_live(i) && self.is_leaf(i) ==> self.height(i) == 0,
            forall|i: Index, c: int|
                #![trigger self.view_nodes()[i][c]]
                self.is_live(i) && !self.is_leaf(i) && 0 <= c < 4 ==> self.height(self.view_nodes()[i][c])
                    < self.height(i),
    {
        reveal(SparseDirectedGraph::wf_with);
        assert forall|i: Index, c: int|
            #![trigger self.view_nodes()[i][c]]
            self.is_live(i) && !self.is_leaf(i) && 0 <= c < 4 implies self.height(self.view_nodes()[i][c])
                < self.height(i) by {
            assert(height_ok_at(self.view_nodes(), self.rank@, i));
        }
        assert forall|i: Index| #[trigger] self.is_live(i) && self.is_leaf(i) implies self.height(i) == 0 by {
            assert(height_ok_at(self.view_nodes(), self.rank@, i));
        }
        assert forall|i: Index| self.root_count(i) > 0 implies #[trigger] self.is_live(i) by {
            lemma_seq_count_contains(self.held@, i);
        }
    }

    /// What every well-formed graph satisfies: children of stored nodes are
    /// stored, a node is a leaf exactly when it is its own child in some (and
    /// then every) slot, a leaf has height zero and every other node is higher
    /// than each of its children.
    pub proof fn lemma_structure(&self)
        requires
            self.wf(),
        ensures
            closed(self.view_nodes()),
            forall|i: Index| self.root_count(i) > 0 ==> #[trigger] self.is_live(i),
            forall|i: Index, c: int|
                #![trigger self.view_nodes()[i][c]]
                self.is_live(i) && 0 <= c < 4 ==> (self.view_nodes()[i][c] == i <==> self.is_leaf(i)),
            forall|i: Index| #[trigger] self.is_live(i) && self.is_leaf(i) ==> self.height(i) == 0,
            forall|i: Index, c: int|
                #![trigger self.view_nodes()[i][c]]
                self.is_live(i) && !self.is_leaf(i) && 0 <= c < 4 ==> self.height(self.view_nodes()[i][c])
                    < self.height(i),
    {
        self.lemma_wf_facts();
    }

    /// A path that ends on a node other than a leaf is shorter than the
    /// height of the tree it starts from.
    pub proof fn lemma_descend_height(&self, head: Index, path: Seq<Zorder2d>)
        requires
            self.wf(),
            self.is_live(head),
            !self.is_leaf(self.descend_spec(head, path)),
        ensures
            path.len() + self.height(self.descend_spec(head, path)) <= self.height(head),
            path.len() < self.height(head),
        decreases path.len(),
    {
        self.lemma_wf_facts();
        let m = self.view_nodes();
        lemma_descend_live(m, head, path);
        let end = self.descend_spec(head, path);
        assert(self.height(m[end][0]) < self.height(end));
        if path.len() > 0 {
            let c = m[head][path[0].step_index() as int];
            if self.is_leaf(head) {
                assert(c == head);
                lemma_descend_stays_on_leaf(m, head, path.drop_first());
                assert(false);
            }
            assert(self.height(c) < self.height(head));
            self.lemma_descend_height(c, path.drop_first());
        }
    }

    /// Every leaf that `leaf_paths` reports for a stored `head` is a stored
    /// leaf, its path leads to it from `head`, and the path is no longer than
    /// the height of `head`.
    pub proof fn lemma_leaf_paths_sound(&self, head: Index)
        requires
            self.wf(),
            self.is_live(head),
        ensures
            forall|k: int|
                0 <= k < self.leaf_paths(head).len() ==> {
                    let e = #[trigger] self.leaf_paths(head)[k];
                    &&& self.is_live(e.0)
                    &&& self.is_leaf(e.0)
                    &&& self.descend_spec(head, e.1) == e.0
                    &&& e.1.len() <= self.height(head)
                },
    {
        self.lemma_wf_facts();
        let m = self.view_nodes();
        lemma_leaves_of_sound(m, self.rank@, head, Seq::empty());
        assert forall|k: int| 0 <= k < self.leaf_paths(head).len() implies {
            let e = #[trigger] self.leaf_paths(head)[k];
            &&& self.is_live(e.0)
            &&& self.is_leaf(e.0)
            &&& self.descend_spec(head, e.1) == e.0
            &&& e.1.len() <= self.height(head)
        } by {
            let e = self.leaf_paths(head)[k];
            assert(leaf_entry_ok(m, self.rank@, head, Seq::empty(), e));
            assert(e.1.skip(0) =~= e.1);
        }
    }

    /// The leaves below `head` come in Z-order, none inside another.
    pub proof fn lemma_leaf_paths_in_zorder(&self, head: Index)
        ensures
            sorted_by_cell(self.leaf_paths(head)),
    {
        lemma_leaves_of_sorted(self.view_nodes(), self.rank@, head, Seq::empty());
    }

    /// Every node is stored once: two stored nodes with the same children are
    /// the same node.
    pub proof fn lemma_nodes_unique(&self, i: Index, j: Index)
        requires
            self.wf(),
            self.is_live(i),
            self.is_live(j),
            self.view_nodes()[i] == self.view_nodes()[j],
        ensures
            i == j,
    {
        reveal(SparseDirectedGraph::wf_with);
        let lk = lookup_contents(self.index_lookup);
        assert(lk[self.view_nodes()[i]] == i);
        assert(lk[self.view_nodes()[j]] == j);
    }

    /// The count of every node is the number of child slots of stored nodes
    /// that point at it plus the number of roots held on it.
    pub proof fn lemma_counts_are_references(&self, i: Index)
        requires
            self.wf(),
        ensures
            self.ref_of(i) == self.parents_of(i) + self.root_count(i),
    {
        reveal(SparseDirectedGraph::wf_with);
        assert(self.ref_of(i) == in_edges(self.view_nodes(), self.live@, i) + seq_count(self.held@, i) + seq_count(
            Seq::<Index>::empty(),
            i,
        ));
    }

    /// The count of each index.
    pub closed spec fn refs(&self) -> spec_fn(Index) -> nat {
        |i: Index| self.ref_of(i)
    }

    /// Whether `extra` more nodes, and a root, still fit the 32-bit counts:
    /// `has_room`, tested at run time from the sum of all counts, which is
    /// four per stored node plus one per root held.
    pub fn has_room_for(&self, extra: usize) -> (r: bool)
        requires
            self.wf(),
        ensures
            r == self.has_room(extra as nat),
    {
        proof {
            reveal(SparseDirectedGraph::wf_with);
            let m = self.view_nodes();
            assert forall|i: Index| #[trigger] self.refs()(i) == edges_into(m, self.live@)(i) + counts_in(self.held@)(i) by {
                assert(self.ref_of(i) == in_edges(m, self.live@, i) + seq_count(self.held@, i) + seq_count(
                    Seq::<Index>::empty(),
                    i,
                ));
            }
            lemma_total_add(edges_into(m, self.live@), counts_in(self.held@), self.refs(), index_range());
            lemma_total_in_edges(m, self.live@);
            lemma_total_seq_count(self.held@);
        }
        let len = self.ref_count.len();
        let mut k: u64 = 0;
        let mut acc: u64 = 0;
        while k < 0x1_0000_0000u64 && (k as usize) < len
            invariant
                len == self.ref_count@.len(),
                k <= 0x1_0000_0000u64,
                k <= len,
                acc == index_total(self.refs(), k as nat),
                acc <= k * 0xffff_ffffu64,
            decreases 0x1_0000_0000u64 - k,
        {
            let v = self.ref_count[k as usize];
            proof {
                assert(((k as nat) as Index) == k as Index);
                assert(self.refs()(k as Index) == v);
                assert((k + 1) * 0xffff_ffffu64 == k * 0xffff_ffffu64 + 0xffff_ffffu64) by (nonlinear_arith);
                assert((k + 1) * 0xffff_ffffu64 <= 0x1_0000_0000u64 * 0xffff_ffffu64) by (nonlinear_arith)
                    requires
                        k < 0x1_0000_0000u64,
                ;
            }
            acc = acc + v as u64;
            k = k + 1;
        }
        proof {
            if k < 0x1_0000_0000u64 {
                lemma_total_tail(self.refs(), k as nat, index_range());
            }
        }
        (acc as u128) + 4 * (extra as u128) + 1 < 0xffff_ffffu128
    }

    /// In a graph built by these operations nothing unreferenced is kept:
    /// every stored node has a parent (a leaf being its own) or a root held
    /// on it, since a node whose count drops to zero is freed.
    pub proof fn lemma_no_garbage(&self, i: Index)
        requires
            self.wf(),
            self.all_referenced(),
            self.is_live(i),
        ensures
            self.parents_of(i) + self.root_count(i) > 0,
    {
        self.lemma_counts_are_references(i);
    }

    /// A graph with no nodes and no roots.
    pub fn new() -> (r: Self)
        ensures
            r.wf(),
            r.view_nodes() == Map::<Index, NodeData>::empty(),
            r.node_count() == 0,
            r.root_total() == 0,
            r.all_referenced(),
    {
        let r = Self {
            nodes: pond_new(),
            ref_count: Vec::new(),
            index_lookup: lookup_new(),
            live: Ghost(Seq::empty()),
            held: Ghost(Seq::empty()),
            rank: Ghost(Map::empty()),
        };
        proof {
            reveal(SparseDirectedGraph::wf_with);
            assert(r.view_nodes() =~= Map::<Index, NodeData>::empty());
            assert forall|i: Index| #[trigger] height_ok_at(r.view_nodes(), r.rank@, i) by {}
            assert forall|i: Index| #[trigger]
                r.ref_of(i) == in_edges(r.view_nodes(), r.live@, i) + seq_count(r.held@, i) by {}
        }
        r
    }

    /// The node stored at `idx`.
    pub fn node(&self, idx: Index) -> (r: &BasicNode2d)
        requires
            self.wf(),
            self.is_live(idx),
        ensures
            *r == self.view_nodes()[idx],
    {
        pond_get(&self.nodes, idx as usize).unwrap()
    }

    /// The child of the node at `idx` in the given slot.
    pub fn child(&self, idx: Index, child: Zorder2d) -> (r: Index)
        requires
            self.wf(),
            self.is_live(idx),
        ensures
            r == self.view_nodes()[idx][child.step_index() as int],
            self.is_live(r),
    {
        proof {
            self.lemma_wf_facts();
        }
        let n = self.node(idx);
        let r = n[child.as_usize()];
        r
    }

    /// The nodes met along `path` from `head`: `head` first, then one node per
    /// step, the node the path leads to last.
    pub fn get_trail(&self, head: Index, path: &[Zorder2d]) -> (trail: Vec<Index>)
        requires
            self.wf(),
            self.is_live(head),
            path.len() < usize::MAX,
        ensures
            trail.len() == path.len() + 1,
            forall|i: int|
                0 <= i <= path.len() ==> trail[i] == self.descend_spec(head, path@.take(i)),
    {
        let mut trail: Vec<Index> = Vec::with_capacity(path.len() + 1);
        trail.push(head);
        let mut step: usize = 0;
        proof {
            self.lemma_wf_facts();
            assert(path@.take(0) =~= Seq::<Zorder2d>::empty());
        }
        while step < path.len()
            invariant
                self.wf(),
                self.is_live(head),
                step <= path.len(),
                trail.len() == step + 1,
                forall|i: int|
                    0 <= i <= step ==> trail[i] == self.descend_spec(head, path@.take(i)),
            decreases path.len() - step,
        {
            proof {
                self.lemma_wf_facts();
                lemma_descend_live(self.view_nodes(), head, path@.take(step as int));
                lemma_descend_snoc(self.view_nodes(), head, path@.take(step as int), path@[step as int]);
                assert(path@.take(step as int).push(path@[step as int]) =~= path@.take(step + 1));
            }
            let next = self.child(trail[step], path[step]);
            trail.push(next);
            step += 1;
        }
        trail
    }

    /// The node that `path` leads to from `head`.
    pub fn descend(&self, head: Index, path: &[Zorder2d]) -> (r: Index)
        requires
            self.wf(),
            self.is_live(head),
            path.len() < usize::MAX,
        ensures
            r == self.descend_spec(head, path@),
            self.is_live(r),
    {
        let trail = self.get_trail(head, path);
        proof {
            self.lemma_wf_facts();
            assert(path@.take(path@.len() as int) =~= path@);
            lemma_descend_live(self.view_nodes(), head, path@);
        }
        trail[trail.len() - 1]
    }

    /// The stored index of a node with these children, if there is one.
    fn find_index(&self, node: &BasicNode2d) -> (r: Option<Index>)
        requires
            self.wf(),
        ensures
            match r {
                Some(i) => self.is_live(i) && self.view_nodes()[i] == *node,
                None => forall|i: Index| self.is_live(i) ==> self.view_nodes()[i] != *node,
            },
    {
        proof {
            self.lemma_wf_facts();
        }
        lookup_get(&self.index_lookup, node)
    }

    fn get_ref(&self, idx: Index) -> (r: u32)
        requires
            (idx as int) < self.ref_count@.len(),
        ensures
            r == self.ref_of(idx),
    {
        self.ref_count[idx as usize]
    }

    /// Counts one more reference to `idx`.
    fn add_ref(&mut self, idx: Index)
        requires
            old(self).ref_of(idx) < u32::MAX,
            idx < u32::MAX,
        ensures
            forall|i: Index| #[trigger]
                final(self).ref_of(i) == old(self).ref_of(i) + (if i == idx { 1nat } else { 0nat }),
            final(self).nodes == old(self).nodes,
            final(self).index_lookup == old(self).index_lookup,
            final(self).live == old(self).live,
            final(self).held == old(self).held,
            final(self).rank == old(self).rank,
    {
        if idx as usize >= self.ref_count.len() {
            self.ref_count.resize(idx as usize + 1, 0);
        }
        self.ref_count.set(idx as usize, self.ref_count[idx as usize] + 1);
    }

    /// The invariant survives storing a new node in a free slot.
    proof fn lemma_add_node_wf(s0: &Self, s1: &Self, idx: Index, node: NodeData)
        requires
            s0.wf(),
            idx < 0xffff_ffff,
            !s0.is_live(idx),
            forall|i: Index| #[trigger] s0.is_live(i) ==> s0.view_nodes()[i] != node,
            forall|c: int| 0 <= c < 4 ==> s0.is_live(#[trigger] node[c]) || node[c] == idx,
            pond_contents(s1.nodes) == pond_contents(s0.nodes).insert(idx as usize, node),
            pond_in_step(s1.nodes),
            s1.live@ == s0.live@.push(idx),
            s1.held@ == s0.held@,
            lookup_contents(s1.index_lookup) == lookup_contents(s0.index_lookup).insert(node, idx),
            forall|i: Index| #[trigger] s1.ref_of(i) == s0.ref_of(i) + occurrences(node, i),
            forall|c: int| 0 <= c < 4 ==> (#[trigger] node[c] == idx <==> node[0] == idx),
            s1.rank@ == s0.rank@.insert(idx, height_from(s0.view_nodes().insert(idx, node), s0.rank@, idx)),
        ensures
            s1.wf(),
            s1.view_nodes() == s0.view_nodes().insert(idx, node),
    {
        reveal(SparseDirectedGraph::wf_with);
        assert forall|i: Index, c: int| #![trigger s0.view_nodes()[i][c]]
            s0.view_nodes().dom().contains(i) && 0 <= c < 4 implies s0.view_nodes()[i][c] != idx by {
            assert(s0.view_nodes().dom().contains(s0.view_nodes()[i][c]));
        }
        lemma_heights_insert(s0.view_nodes(), s0.rank@, idx, node);
        let m0 = s0.view_nodes();
        let m = s1.view_nodes();
        Self::lemma_pond_insert_view(pond_contents(s0.nodes), pond_contents(s1.nodes), idx as usize, node);
        assert(m == m0.insert(idx, node));
        assert(!s0.live@.contains(idx));
        lemma_in_edges_push(m0, s0.live@, idx, node);
        assert forall|i: Index| #[trigger]
            s1.ref_of(i) == in_edges(m, s1.live@, i) + seq_count(s1.held@, i) by {
            assert(in_edges(m, s1.live@, i) == in_edges(m0, s0.live@, i) + occurrences(node, i));
            assert(s0.ref_of(i) == in_edges(m0, s0.live@, i) + seq_count(s0.held@, i));
        }
        assert forall|i: Index| #[trigger] m.dom().contains(i) <==> s1.live@.contains(i) by {
            if i != idx {
                if s1.live@.contains(i) {
                    let k = choose|k: int| 0 <= k < s1.live@.len() && s1.live@[k] == i;
                    assert(s0.live@[k] == i);
                }
                if s0.live@.contains(i) {
                    let k = choose|k: int| 0 <= k < s0.live@.len() && s0.live@[k] == i;
                    assert(s1.live@[k] == i);
                }
            } else {
                assert(s1.live@[s1.live@.len() - 1] == idx);
            }
        }
        assert(closed(m)) by {
            assert forall|i: Index, c: int|
                #![trigger m[i][c]]
                m.dom().contains(i) && 0 <= c < 4 implies m.dom().contains(m[i][c]) by {
                if i != idx {
                    assert(m0.dom().contains(m0[i][c]));
                } else {
                    assert(s0.is_live(node[c]) || node[c] == idx);
                }
            }
        }
        let lk = lookup_contents(s1.index_lookup);
        assert forall|n: NodeData| #[trigger] lk.dom().contains(n) implies m.dom().contains(lk[n])
            && m[lk[n]] == n by {
            if n != node {
                assert(lookup_contents(s0.index_lookup).dom().contains(n));
            }
        }
        assert forall|i: Index| #[trigger] m.dom().contains(i) implies lk.dom().contains(m[i])
            && lk[m[i]] == i by {
            if i != idx {
                assert(s0.is_live(i));
            }
        }
        assert forall|i: Index| #[trigger] s1.held@.contains(i) implies m.dom().contains(i) by {
            assert(m0.dom().contains(i));
        }
        assert(s1.live@.no_duplicates());
        assert(pond_contents(s1.nodes).dom() == pond_contents(s0.nodes).dom().insert(idx as usize));
        assert forall|i: Index, c: int|
            #![trigger m[i][c]]
            m.dom().contains(i) && 0 <= c < 4 implies (m[i][c] == i <==> m[i][0] == i) by {
            if i != idx {
                assert(m0[i][c] == i <==> m0[i][0] == i);
            }
        }
    }

    /// Stores a node that is not stored yet, in the first free slot, counting
    /// the edges to its children.
    fn add_node(&mut self, node: BasicNode2d) -> (r: Index)
        requires
            old(self).wf(),
            old(self).has_room(1),
            forall|i: Index| #[trigger] old(self).is_live(i) ==> old(self).view_nodes()[i] != node,
            forall|c: int|
                0 <= c < 4 ==> old(self).is_live(#[trigger] node[c]) || is_first_free(
                    pond_contents(old(self).nodes),
                    node[c] as usize,
                ),
            forall|c: int|
                0 <= c < 4 ==> (is_first_free(pond_contents(old(self).nodes), #[trigger] node[c] as usize)
                    <==> is_first_free(pond_contents(old(self).nodes), node[0] as usize)),
        ensures
            final(self).wf(),
            is_first_free(pond_contents(old(self).nodes), r as usize),
            !old(self).is_live(r),
            final(self).view_nodes() == old(self).view_nodes().insert(r, node),
            final(self).node_count() == old(self).node_count() + 1,
            final(self).root_total() == old(self).root_total(),
            forall|i: Index| #[trigger] final(self).root_count(i) == old(self).root_count(i),
            forall|i: Index| #[trigger] final(self).ref_of(i) == old(self).ref_of(i) + occurrences(node, i),
            forall|i: Index| old(self).is_live(i) ==> #[trigger] final(self).height(i) == old(self).height(i),
            node[0] != r ==> final(self).height(r) == 1 + max_nat(
                max_nat(old(self).height(node[0]), old(self).height(node[1])),
                max_nat(old(self).height(node[2]), old(self).height(node[3])),
            ),
    {
        proof {
            old(self).lemma_wf_facts();
        }
        let slot = pond_insert(&mut self.nodes, node);
        proof {
            lemma_first_free_bound(pond_contents(old(self).nodes).dom(), slot);
            assert(slot < 0xffff_ffff);
        }
        let idx = slot as Index;
        proof {
            assert(!pond_contents(old(self).nodes).dom().contains(idx as usize));
            assert forall|c: int| 0 <= c < 4 implies old(self).is_live(#[trigger] node[c]) || node[c] == idx by {
                if !old(self).is_live(node[c]) {
                    let f = node[c] as usize;
                    if f < slot {
                        assert(pond_contents(old(self).nodes).dom().contains(f));
                    }
                    if slot < f {
                        assert(pond_contents(old(self).nodes).dom().contains(slot));
                    }
                }
            }
            self.live@ = old(self).live@.push(idx);
            self.rank@ = old(self).rank@.insert(idx, height_from(old(self).view_nodes().insert(idx, node), old(self).rank@, idx));
            assert forall|c: int| 0 <= c < 4 implies (#[trigger] node[c] == idx <==> node[0] == idx) by {
                old(self).lemma_wf_facts();
                if node[c] == idx {
                    assert(is_first_free(pond_contents(old(self).nodes), node[c] as usize));
                }
                if node[0] == idx {
                    assert(is_first_free(pond_contents(old(self).nodes), node[0] as usize));
                }
                if is_first_free(pond_contents(old(self).nodes), node[c] as usize) {
                    assert(node[c] as usize == slot) by {
                        let f = node[c] as usize;
                        if f < slot {
                            assert(pond_contents(old(self).nodes).dom().contains(f));
                        }
                        if slot < f {
                            assert(pond_contents(old(self).nodes).dom().contains(slot));
                        }
                    }
                }
                if is_first_free(pond_contents(old(self).nodes), node[0] as usize) {
                    assert(node[0] as usize == slot) by {
                        let f = node[0] as usize;
                        if f < slot {
                            assert(pond_contents(old(self).nodes).dom().contains(f));
                        }
                        if slot < f {
                            assert(pond_contents(old(self).nodes).dom().contains(slot));
                        }
                    }
                }
            }
            old(self).lemma_ref_bound(node[0]);
            old(self).lemma_ref_bound(node[1]);
            old(self).lemma_ref_bound(node[2]);
            old(self).lemma_ref_bound(node[3]);
        }
        self.add_ref(node[0]);
        self.add_ref(node[1]);
        self.add_ref(node[2]);
        self.add_ref(node[3]);
        proof {
            assert forall|i: Index| #[trigger] self.ref_of(i) == old(self).ref_of(i) + occurrences(node, i) by {}
        }
        let ghost before_lookup = *self;
        lookup_insert(&mut self.index_lookup, node, idx);
        proof {
            assert forall|i: Index| #[trigger] self.ref_of(i) == old(self).ref_of(i) + occurrences(node, i) by {
                assert(self.ref_of(i) == before_lookup.ref_of(i));
            }
            Self::lemma_add_node_wf(old(self), self, idx, node);
            assert(self.live@.len() == old(self).live@.len() + 1);
        }
        idx
    }

    /// Stores a leaf: a node whose four children are itself. It takes the
    /// first free slot.
    pub fn add_leaf(&mut self) -> (r: Index)
        requires
            old(self).wf(),
            old(self).has_room(1),
        ensures
            final(self).wf(),
            old(self).is_first_free_index(r),
            final(self).view_nodes() == old(self).view_nodes().insert(r, [r, r, r, r]),
            final(self).node_count() == old(self).node_count() + 1,
            final(self).root_total() == old(self).root_total(),
            forall|i: Index| #[trigger] final(self).root_count(i) == old(self).root_count(i),
            old(self).all_referenced() ==> final(self).all_referenced(),
    {
        proof {
            self.lemma_wf_facts();
        }
        let next = pond_next_index(&self.nodes);
        proof {
            lemma_first_free_bound(pond_contents(self.nodes).dom(), next);
        }
        let idx = next as Index;
        let mut leaf: BasicNode2d = [0; 4];
        let steps = Zorder2d::all();
        let mut c: usize = 0;
        while c < 4
            invariant
                c <= 4,
                forall|k: int| 0 <= k < 4 ==> #[trigger] steps[k].step_index() == k,
                forall|k: int| 0 <= k < c ==> leaf[k] == idx,
            decreases 4 - c,
        {
            let ghost before = leaf;
            leaf = leaf.with_child(steps[c], idx);
            proof {
                assert forall|k: int| 0 <= k < c + 1 implies leaf[k] == idx by {
                    assert(leaf.child_at(k as nat) == leaf[k]);
                    if k < c {
                        assert(before.child_at(k as nat) == before[k]);
                    }
                }
            }
            c += 1;
        }
        proof {
            self.lemma_wf_facts();
            assert forall|i: Index| #[trigger] self.is_live(i) implies self.view_nodes()[i] != leaf by {
                if self.view_nodes()[i] == leaf {
                    assert(self.is_live(self.view_nodes()[i][0]));
                    assert(pond_contents(self.nodes).dom().contains(idx as usize));
                }
            }
            assert forall|k: int| 0 <= k < 4 implies is_first_free(pond_contents(self.nodes), #[trigger] leaf[k] as usize) by {
                assert(leaf[k] == idx);
            }
        }
        let r = self.add_node(leaf);
        proof {
            let p0 = pond_contents(old(self).nodes);
            if (r as usize) < next {
                assert(p0.dom().contains(r as usize));
            }
            if next < (r as usize) {
                assert(p0.dom().contains(next));
            }
            assert(r == idx);
            assert(leaf =~= [r, r, r, r]);
            assert forall|j: Index| j < r implies #[trigger] old(self).is_live(j) by {
                assert(p0.dom().contains(j as usize));
            }
        }
        r
    }

    /// Holds one more root on `idx` and hands it back.
    pub fn get_root(&mut self, idx: Index) -> (r: Index)
        requires
            old(self).wf(),
            old(self).is_live(idx),
            old(self).has_room(0),
        ensures
            final(self).wf(),
            r == idx,
            final(self).view_nodes() == old(self).view_nodes(),
            final(self).node_count() == old(self).node_count(),
            final(self).root_total() == old(self).root_total() + 1,
            forall|i: Index| #[trigger]
                final(self).root_count(i) == old(self).root_count(i) + (if i == idx { 1nat } else { 0nat }),
            forall|i: Index| #[trigger]
                final(self).ref_of(i) == old(self).ref_of(i) + (if i == idx { 1nat } else { 0nat }),
            old(self).all_referenced() ==> final(self).all_referenced(),
            forall|i: Index| #[trigger] final(self).height(i) == old(self).height(i),
    {
        proof {
            self.lemma_ref_bound(idx);
            reveal(SparseDirectedGraph::wf_with);
            assert(forall|i: Index| #[trigger] self.held@.contains(i) ==> self.view_nodes().dom().contains(i));
            assert(forall|i: Index| #[trigger] self.ref_of(i) == in_edges(self.view_nodes(), self.live@, i) + seq_count(self.held@, i) + seq_count(
                    Seq::<Index>::empty(),
                    i,
                ));
        }
        let ghost s0 = *self;
        self.add_ref(idx);
        let ghost s1 = *self;
        proof {
            self.held@ = old(self).held@.push(idx);
            assert(self.ref_count == s1.ref_count);
            assert forall|i: Index| #[trigger] self.ref_of(i) == s1.ref_of(i) by {}
            lemma_seq_count_push(old(self).held@, idx);
            reveal(SparseDirectedGraph::wf_with);
            assert(self.view_nodes() == old(self).view_nodes());
            assert forall|i: Index| #[trigger]
                self.ref_of(i) == in_edges(self.view_nodes(), self.live@, i) + seq_count(self.held@, i) + seq_count(
                    Seq::<Index>::empty(),
                    i,
                ) by {
                assert(s0.ref_of(i) == in_edges(s0.view_nodes(), s0.live@, i) + seq_count(
                    s0.held@,
                    i,
                ) + seq_count(Seq::<Index>::empty(), i));
                assert(self.view_nodes() == s0.view_nodes());
                assert(self.live@ == s0.live@);
                assert(seq_count(self.held@, i) == seq_count(s0.held@, i) + (if idx == i { 1nat } else { 0nat }));
                assert(self.ref_of(i) == s0.ref_of(i) + (if i == idx { 1nat } else { 0nat }));
            }
            assert forall|i: Index| #[trigger] self.held@.contains(i) implies self.view_nodes().dom().contains(i) by {
                if i != idx {
                    let k = choose|k: int| 0 <= k < self.held@.len() && self.held@[k] == i;
                    assert(s0.held@[k] == i);
                    assert(s0.held@.contains(i));
                }
            }
        }
        idx
    }

    /// Taking one root off leaves the invariant with that root's reference
    /// still to be released.
    proof fn lemma_hand_over_wf(s0: &Self, s1: &Self, k: int)
        requires
            s0.wf(),
            0 <= k < s0.held@.len(),
            s1.nodes == s0.nodes,
            s1.index_lookup == s0.index_lookup,
            s1.ref_count == s0.ref_count,
            s1.live == s0.live,
            s1.rank == s0.rank,
            s1.held@ == s0.held@.remove(k),
        ensures
            s1.wf_with(seq![s0.held@[k]]),
    {
        reveal(SparseDirectedGraph::wf_with);
        lemma_seq_count_remove(s0.held@, k);
        let p = seq![s0.held@[k]];
        assert(p.drop_last() =~= Seq::<Index>::empty());
        assert forall|i: Index| #[trigger]
            s1.ref_of(i) == in_edges(s1.view_nodes(), s1.live@, i) + seq_count(s1.held@, i) + seq_count(p, i) by {
            assert(s0.ref_of(i) == in_edges(s0.view_nodes(), s0.live@, i) + seq_count(s0.held@, i) + seq_count(
                Seq::<Index>::empty(),
                i,
            ));
            assert(seq_count(p, i) == seq_count(p.drop_last(), i) + (if p.last() == i { 1nat } else { 0nat }));
        }
        assert forall|i: Index| #[trigger] s1.held@.contains(i) implies s1.view_nodes().dom().contains(i) by {
            let j = choose|j: int| 0 <= j < s1.held@.len() && s1.held@[j] == i;
            if j < k {
                assert(s0.held@[j] == i);
            } else {
                assert(s0.held@[j + 1] == i);
            }
            assert(s0.held@.contains(i));
        }
        assert forall|i: Index| #[trigger] p.contains(i) implies s1.view_nodes().dom().contains(i) by {
            assert(p[0] == i);
            assert(s0.held@.contains(s0.held@[k]));
        }
    }

    /// Counting one reference fewer on the last pending node keeps the
    /// invariant with that reference released.
    proof fn lemma_release_wf(s0: &Self, s1: &Self, q0: Seq<Index>)
        requires
            s0.wf_with(q0),
            q0.len() > 0,
            s1.nodes == s0.nodes,
            s1.index_lookup == s0.index_lookup,
            s1.live == s0.live,
            s1.held == s0.held,
            s1.rank == s0.rank,
            forall|i: Index| #[trigger] s1.ref_of(i) + (if i == q0.last() { 1nat } else { 0nat }) == s0.ref_of(i),
        ensures
            s1.wf_with(q0.drop_last()),
    {
        reveal(SparseDirectedGraph::wf_with);
        let q1 = q0.drop_last();
        assert forall|i: Index| #[trigger]
            s1.ref_of(i) == in_edges(s1.view_nodes(), s1.live@, i) + seq_count(s1.held@, i) + seq_count(q1, i) by {
            assert(s0.ref_of(i) == in_edges(s0.view_nodes(), s0.live@, i) + seq_count(s0.held@, i) + seq_count(q0, i));
            assert(seq_count(q0, i) == seq_count(q1, i) + (if q0.last() == i { 1nat } else { 0nat }));
        }
        assert forall|i: Index| #[trigger] q1.contains(i) implies s1.view_nodes().dom().contains(i) by {
            let j = choose|j: int| 0 <= j < q1.len() && q1[j] == i;
            assert(q0[j] == i);
            assert(q0.contains(i));
        }
    }

    /// Freeing a stored node that nothing references keeps the invariant, with
    /// its four child references still to be released.
    proof fn lemma_free_wf(s0: &Self, s1: &Self, q0: Seq<Index>, cur: Index, k: int)
        requires
            s0.wf_with(q0),
            s0.ref_of(cur) == 0,
            0 <= k < s0.live@.len(),
            s0.live@[k] == cur,
            pond_contents(s1.nodes) == pond_contents(s0.nodes).remove(cur as usize),
            pond_in_step(s1.nodes),
            lookup_contents(s1.index_lookup) == lookup_contents(s0.index_lookup).remove(s0.view_nodes()[cur]),
            s1.live@ == s0.live@.remove(k),
            s1.held == s0.held,
            s1.rank == s0.rank,
            s1.ref_count == s0.ref_count,
        ensures
            s1.wf_with(q0 + s0.view_nodes()[cur]@),
            s1.view_nodes() == s0.view_nodes().remove(cur),
    {
        reveal(SparseDirectedGraph::wf_with);
        let m0 = s0.view_nodes();
        let m1 = s1.view_nodes();
        let node = m0[cur];
        let live0 = s0.live@;
        let live1 = s1.live@;
        let held = s0.held@;
        let lk0 = lookup_contents(s0.index_lookup);
        let lk1 = lookup_contents(s1.index_lookup);
        Self::lemma_pond_remove_view(pond_contents(s0.nodes), pond_contents(s1.nodes), cur);
        assert(m1 == m0.remove(cur));
        assert(live0.contains(cur));
        assert(m0.dom().contains(cur));
        assert(s0.ref_of(cur) == in_edges(m0, live0, cur) + seq_count(held, cur) + seq_count(q0, cur));
        lemma_seq_count_contains(held, cur);
        lemma_seq_count_contains(q0, cur);
        lemma_in_edges_parent(m0, live0, k, cur);
        assert(occurrences(node, cur) == 0);
        assert forall|c: int| 0 <= c < 4 implies #[trigger] node[c] != cur && m0.dom().contains(node[c]) by {
            assert(m0.dom().contains(m0[cur][c]));
        }
        // No stored node has `cur` as a child.
        assert forall|j: Index, c: int| #![trigger m0[j][c]] m0.dom().contains(j) && 0 <= c < 4 implies m0[j][c] != cur by {
            assert(live0.contains(j));
            let kj = choose|kj: int| 0 <= kj < live0.len() && live0[kj] == j;
            lemma_in_edges_parent(m0, live0, kj, cur);
        }
        // Edges after the removal.
        assert forall|j: int| 0 <= j < live0.len() && j != k implies m0[#[trigger] live0[j]] == m1[live0[j]] by {
            assert(live0[j] != cur);
        }
        lemma_in_edges_remove(m0, m1, live0, k);
        assert(live1 == live0.remove(k));
        // The pending references after the children are queued.
        let q1 = q0 + node@;
        let a = q0.push(node[0]);
        let b = a.push(node[1]);
        let c2 = b.push(node[2]);
        let d = c2.push(node[3]);
        assert(q1 =~= d);
        lemma_seq_count_push(q0, node[0]);
        lemma_seq_count_push(a, node[1]);
        lemma_seq_count_push(b, node[2]);
        lemma_seq_count_push(c2, node[3]);
        assert forall|i: Index| #[trigger]
            s1.ref_of(i) == in_edges(m1, live1, i) + seq_count(s1.held@, i) + seq_count(q1, i) by {
            assert(s0.ref_of(i) == in_edges(m0, live0, i) + seq_count(held, i) + seq_count(q0, i));
            assert(in_edges(m0, live0, i) == in_edges(m1, live1, i) + occurrences(node, i));
            assert(seq_count(q1, i) == seq_count(q0, i) + occurrences(node, i));
        }
        assert forall|i: Index| #[trigger] m1.dom().contains(i) <==> live1.contains(i) by {
            if live1.contains(i) {
                let j = choose|j: int| 0 <= j < live1.len() && live1[j] == i;
                if j < k {
                    assert(live0[j] == i);
                } else {
                    assert(live0[j + 1] == i);
                }
                assert(live0.contains(i));
                assert(i != cur);
            }
            if m1.dom().contains(i) {
                assert(live0.contains(i));
                let j = choose|j: int| 0 <= j < live0.len() && live0[j] == i;
                assert(j != k);
                if j < k {
                    assert(live1[j] == i);
                } else {
                    assert(live1[j - 1] == i);
                }
            }
        }
        assert(live1.no_duplicates()) by {
            assert forall|x: int, y: int| 0 <= x < live1.len() && 0 <= y < live1.len() && x != y implies live1[x]
                != live1[y] by {
                let xo = if x < k { x } else { x + 1 };
                let yo = if y < k { y } else { y + 1 };
                assert(live1[x] == live0[xo]);
                assert(live1[y] == live0[yo]);
            }
        }
        assert(closed(m1)) by {
            assert forall|i: Index, c: int| #![trigger m1[i][c]] m1.dom().contains(i) && 0 <= c < 4 implies m1.dom().contains(
                m1[i][c],
            ) by {
                assert(m0.dom().contains(m0[i][c]));
                assert(m0[i][c] != cur);
            }
        }
        assert forall|i: Index| #[trigger] m1.dom().contains(i) implies lk1.dom().contains(m1[i]) && lk1[m1[i]] == i by {
            assert(lk0.dom().contains(m0[i]) && lk0[m0[i]] == i);
            assert(lk0[m0[cur]] == cur);
            assert(m0[i] != node);
        }
        assert forall|n: NodeData| #[trigger] lk1.dom().contains(n) implies m1.dom().contains(lk1[n]) && m1[lk1[n]]
            == n by {
            assert(lk0.dom().contains(n));
            assert(m0.dom().contains(lk0[n]) && m0[lk0[n]] == n);
            assert(n != node);
            assert(lk0[n] != cur);
        }
        assert forall|i: Index| #[trigger] s1.held@.contains(i) implies m1.dom().contains(i) by {
            assert(m0.dom().contains(i));
        }
        assert forall|i: Index| #[trigger] q1.contains(i) implies m1.dom().contains(i) by {
            let j = choose|j: int| 0 <= j < q1.len() && q1[j] == i;
            if j < q0.len() {
                assert(q0[j] == i);
                assert(q0.contains(i));
            } else {
                assert(node[j - q0.len()] == i);
            }
        }
        assert forall|i: Index, c: int|
            #![trigger m1[i][c]]
            m1.dom().contains(i) && 0 <= c < 4 implies (m1[i][c] == i <==> m1[i][0] == i) by {
            assert(m0[i][c] == i <==> m0[i][0] == i);
        }
        lemma_heights_remove(m0, s0.rank@, cur);
        let p0 = pond_contents(s0.nodes);
        let p1 = pond_contents(s1.nodes);
        assert(p0.dom().contains(cur as usize));
        assert(p1.dom() == p0.dom().remove(cur as usize));
        assert(p1.dom().len() == p0.dom().len() - 1);
    }

    /// Releases one root held on `idx`: the count of `idx` drops by one, and
    /// every node whose count reaches zero is freed, its children released in
    /// turn.
    fn decrement_ref(&mut self, idx: Index)
        requires
            old(self).wf(),
            old(self).root_count(idx) > 0,
        ensures
            final(self).wf(),
            forall|i: Index| #[trigger]
                final(self).root_count(i) + (if i == idx { 1nat } else { 0nat }) == old(self).root_count(i),
            final(self).root_total() + 1 == old(self).root_total(),
            forall|i: Index| #[trigger]
                final(self).is_live(i) ==> old(self).is_live(i) && final(self).view_nodes()[i] == old(
                    self,
                ).view_nodes()[i],
            final(self).node_count() <= old(self).node_count(),
            final(self).rank == old(self).rank,
            forall|i: Index| old(self).is_live(i) && !final(self).is_live(i) ==> #[trigger] final(self).ref_of(i) == 0,
            old(self).all_referenced() ==> final(self).all_referenced(),
    {
        let ghost held1: Seq<Index>;
        proof {
            lemma_seq_count_contains(self.held@, idx);
            let k = choose|k: int| 0 <= k < self.held@.len() && self.held@[k] == idx;
            let s0 = *self;
            self.held@ = self.held@.remove(k);
            held1 = self.held@;
            Self::lemma_hand_over_wf(&s0, self, k);
            lemma_seq_count_remove(s0.held@, k);
        }
        let mut queue: Vec<Index> = Vec::new();
        queue.push(idx);
        proof {
            assert(queue@ =~= seq![idx]);
            assert(self.ref_count == old(self).ref_count);
            assert(self.view_nodes() == old(self).view_nodes());
            if old(self).all_referenced() {
                assert forall|i: Index| self.is_live(i) implies #[trigger] self.ref_of(i) > 0 by {
                    assert(old(self).is_live(i));
                    assert(old(self).ref_of(i) > 0);
                }
            }
        }
        while queue.len() > 0
            invariant
                self.wf_with(queue@),
                self.held@ == held1,
                held1.len() + 1 == old(self).held@.len(),
                forall|i: Index| #[trigger]
                    seq_count(held1, i) + (if i == idx { 1nat } else { 0nat }) == old(self).root_count(i),
                self.rank == old(self).rank,
                forall|i: Index| #[trigger]
                    self.is_live(i) ==> old(self).is_live(i) && self.view_nodes()[i] == old(self).view_nodes()[i],
                self.node_count() <= old(self).node_count(),
                forall|i: Index| old(self).is_live(i) && !self.is_live(i) ==> #[trigger] self.ref_of(i) == 0,
                old(self).all_referenced() ==> forall|i: Index| self.is_live(i) ==> #[trigger] self.ref_of(i) > 0,
            decreases 4 * self.live@.len() + queue.len(),
        {
            let ghost q0 = queue@;
            let cur = queue.pop().unwrap();
            proof {
                assert(q0.last() == cur);
                assert(queue@ =~= q0.drop_last());
                reveal(SparseDirectedGraph::wf_with);
                assert(q0.contains(cur));
                assert(self.is_live(cur));
                assert(self.ref_of(cur) == in_edges(self.view_nodes(), self.live@, cur) + seq_count(self.held@, cur)
                    + seq_count(q0, cur));
                lemma_seq_count_contains(q0, cur);
                assert(self.ref_of(cur) >= 1);
            }
            let ghost s0 = *self;
            let count = self.get_ref(cur);
            self.ref_count.set(cur as usize, count - 1);
            proof {
                assert forall|i: Index| #[trigger] self.ref_of(i) + (if i == q0.last() { 1nat } else { 0nat })
                    == s0.ref_of(i) by {}
                Self::lemma_release_wf(&s0, self, q0);
                assert(self.view_nodes() == s0.view_nodes());
                assert forall|i: Index| #[trigger] self.is_live(i) implies old(self).is_live(i)
                    && self.view_nodes()[i] == old(self).view_nodes()[i] by {
                    assert(s0.is_live(i));
                }
            }
            if self.get_ref(cur) == 0 {
                let ghost s1 = *self;
                let old_node = pond_free(&mut self.nodes, cur as usize).unwrap();
                lookup_remove(&mut self.index_lookup, &old_node);
                proof {
                    reveal(SparseDirectedGraph::wf_with);
                    assert(s1.live@.contains(cur));
                    let k = choose|k: int| 0 <= k < s1.live@.len() && s1.live@[k] == cur;
                    self.live@ = s1.live@.remove(k);
                    assert(old_node == s1.view_nodes()[cur]);
                    Self::lemma_free_wf(&s1, self, queue@, cur, k);
                    assert(self.live@.len() + 1 == s1.live@.len());
                    assert forall|i: Index| #[trigger] self.is_live(i) implies old(self).is_live(i)
                        && self.view_nodes()[i] == old(self).view_nodes()[i] by {
                        assert(s1.is_live(i));
                        assert(s1.view_nodes() == s0.view_nodes());
                        assert(s0.is_live(i));
                    }
                }
                let ghost q1 = queue@;
                let steps = Zorder2d::all();
                let mut c: usize = 0;
                proof {
                    assert(q1 + old_node@.take(0) =~= q1);
                }
                while c < 4
                    invariant
                        c <= 4,
                        forall|j: int| 0 <= j < 4 ==> #[trigger] steps[j].step_index() == j,
                        queue@ == q1 + old_node@.take(c as int),
                    decreases 4 - c,
                {
                    queue.push(old_node.child(steps[c]));
                    proof {
                        assert(old_node.child_at(steps[c as int].step_index()) == old_node[c as int]);
                        assert(q1 + old_node@.take(c + 1) =~= (q1 + old_node@.take(c as int)).push(old_node[c as int]));
                    }
                    c += 1;
                }
                proof {
                    assert(old_node@.take(4) =~= old_node@);
                }
            }
            proof {
                assert(self.view_nodes() == s0.view_nodes() || (self.view_nodes() == s0.view_nodes().remove(cur)
                    && self.ref_of(cur) == 0));
                assert forall|i: Index| old(self).is_live(i) && !self.is_live(i) implies #[trigger] self.ref_of(i) == 0 by {
                    if i != cur {
                        assert(!s0.is_live(i));
                        assert(s0.ref_of(i) == 0);
                    }
                }
                if old(self).all_referenced() {
                    assert forall|i: Index| self.is_live(i) implies #[trigger] self.ref_of(i) > 0 by {
                        assert(s0.is_live(i));
                        if i != cur {
                            assert(s0.ref_of(i) > 0);
                        }
                    }
                }
            }
        }
        proof {
            assert(queue@ =~= Seq::<Index>::empty());
            assert forall|i: Index| #[trigger]
                self.root_count(i) + (if i == idx { 1nat } else { 0nat }) == old(self).root_count(i) by {
                assert(seq_count(held1, i) + (if i == idx { 1nat } else { 0nat }) == old(self).root_count(i));
            }
        }
    }

    /// Rebuilds the nodes along `path` from the bottom up so that the path
    /// leads to `new_child`, sharing each rebuilt node with an equal stored
    /// one where there is one.
    #[verifier::rlimit(60)]
    #[verifier::spinoff_prover]
    fn propagate_change(&mut self, path: &[Zorder2d], trail: &[Index], new_child: Index) -> (r: Index)
        requires
            old(self).wf(),
            trail.len() == path.len() + 1,
            old(self).is_live(trail[0]),
            forall|i: int|
                0 <= i <= path.len() ==> #[trigger] trail[i] == old(self).descend_spec(trail[0], path@.take(i)),
            old(self).is_live(new_child),
            old(self).has_room(path.len() as nat),
        ensures
            final(self).wf(),
            extends(old(self).view_nodes(), final(self).view_nodes()),
            final(self).is_live(r),
            final(self).descend_spec(r, path@) == new_child,
            forall|q: Seq<Zorder2d>, j: int| #[trigger]
                diverges(q, path@, j) ==> final(self).descend_spec(r, q) == old(self).descend_spec(trail[0], q),
            final(self).node_count() <= old(self).node_count() + path.len(),
            final(self).root_total() == old(self).root_total(),
            forall|i: Index| #[trigger] final(self).root_count(i) == old(self).root_count(i),
            old(self).all_referenced() ==> forall|i: Index|
                final(self).is_live(i) && i != r ==> #[trigger] final(self).ref_of(i) > 0,
            forall|i: Index| old(self).is_live(i) ==> #[trigger] final(self).height(i) == old(self).height(i),
            forall|i: Index| #[trigger] final(self).is_live(i) && final(self).is_leaf(i) ==> old(self).is_live(i),
            final(self).height(r) <= rebuilt_height_bound(
                old(self).height(trail[0]) as int,
                path.len() as int,
                old(self).height(new_child) as int,
                0,
            ),
    {
        let ghost m_old = self.view_nodes();
        let ghost target = new_child;
        let mut child = new_child;
        let mut depth: usize = path.len();
        proof {
            self.lemma_wf_facts();
            assert(path@.skip(path.len() as int) =~= Seq::<Zorder2d>::empty());
        }
        while depth > 0
            invariant
                self.wf(),
                m_old == old(self).view_nodes(),
                closed(m_old),
                trail.len() == path.len() + 1,
                m_old.dom().contains(trail[0]),
                forall|i: int| 0 <= i <= path.len() ==> #[trigger] trail[i] == descend_in(m_old, trail[0], path@.take(i)),
                depth <= path.len(),
                extends(m_old, self.view_nodes()),
                self.is_live(child),
                descend_in(self.view_nodes(), child, path@.skip(depth as int)) == target,
                forall|q: Seq<Zorder2d>, j: int| #[trigger]
                    diverges(q, path@.skip(depth as int), j) ==> descend_in(self.view_nodes(), child, q) == descend_in(
                        m_old,
                        trail[depth as int],
                        q,
                    ),
                self.node_count() + depth <= old(self).node_count() + path.len(),
                4 * (old(self).node_count() + path.len()) + old(self).root_total() + 1 < u32::MAX,
                self.root_total() == old(self).root_total(),
                forall|i: Index| #[trigger] self.root_count(i) == old(self).root_count(i),
                old(self).all_referenced() ==> forall|i: Index|
                    self.is_live(i) && i != child ==> #[trigger] self.ref_of(i) > 0,
                forall|i: Index| old(self).is_live(i) ==> #[trigger] self.height(i) == old(self).height(i),
                target == new_child,
                old(self).wf(),
                forall|i: Index| #[trigger] self.is_live(i) && self.is_leaf(i) ==> old(self).is_live(i),
                self.height(child) <= rebuilt_height_bound(
                    old(self).height(trail[0]) as int,
                    path.len() as int,
                    old(self).height(new_child) as int,
                    depth as int,
                ),
            decreases depth,
        {
            depth -= 1;
            let parent = trail[depth];
            let step = path[depth];
            proof {
                let d = depth as int;
                lemma_descend_live(m_old, trail[0], path@.take(d));
                lemma_descend_snoc(m_old, trail[0], path@.take(d), path@[d]);
                assert(path@.take(d).push(path@[d]) =~= path@.take(d + 1));
                assert(trail[d + 1] == m_old[parent][step.step_index() as int]);
                assert(self.is_live(parent));
                self.lemma_wf_facts();
            }
            let ghost m_prev = self.view_nodes();
            let ghost child_prev = child;
            let new_node = self.node(parent).with_child(step, child);
            proof {
                assert(m_prev[parent] == m_old[parent]);
                assert(new_node[step.step_index() as int] == child_prev) by {
                    assert(new_node.child_at(step.step_index()) == child_prev);
                }
                assert forall|s: int| 0 <= s < 4 && s != step.step_index() implies #[trigger] new_node[s]
                    == m_old[parent][s] by {
                    assert(new_node.child_at(s as nat) == m_prev[parent].child_at(s as nat));
                }
                assert forall|c: int| 0 <= c < 4 implies #[trigger] self.is_live(new_node[c]) by {
                    if c != step.step_index() {
                        assert(m_old.dom().contains(m_old[parent][c]));
                    }
                }
            }
            let ghost s_prev = *self;
            let ghost bound = rebuilt_height_bound(
                old(self).height(trail[0]) as int,
                path.len() as int,
                old(self).height(new_child) as int,
                depth as int,
            );
            proof {
                let d = depth as int;
                old(self).lemma_wf_facts();
                assert forall|c: int| 0 <= c < 4 && c != step.step_index() implies #[trigger] self.height(new_node[c]) + 1
                    <= bound by {
                    assert(new_node[c] == m_old[parent][c]);
                    assert(self.height(new_node[c]) == old(self).height(m_old[parent][c]));
                    if old(self).is_leaf(parent) {
                        assert(m_old[parent][c] == parent);
                    } else {
                        assert(trail[d] == old(self).descend_spec(trail[0], path@.take(d)));
                        old(self).lemma_descend_height(trail[0], path@.take(d));
                    }
                }
                assert(self.height(child_prev) + 1 <= bound);
                assert(self.height(new_node[step.step_index() as int]) + 1 <= bound);
                assert forall|c: int| 0 <= c < 4 implies #[trigger] self.height(new_node[c]) + 1 <= bound by {
                    if c == step.step_index() {
                    }
                }
            }
            child = match self.find_index(&new_node) {
                Some(found) => {
                    proof {
                        if old(self).all_referenced() && found != child_prev {
                            self.lemma_counts_are_references(child_prev);
                            self.lemma_wf_facts();
                            reveal(SparseDirectedGraph::wf_with);
                            let k = choose|k: int| 0 <= k < self.live@.len() && self.live@[k] == found;
                            lemma_in_edges_parent(self.view_nodes(), self.live@, k, child_prev);
                            assert(self.view_nodes()[found][step.step_index() as int] == child_prev);
                            assert(occurrences(self.view_nodes()[found], child_prev) >= 1);
                        }
                    }
                    found
                },
                None => {
                    proof {
                        assert forall|c: int| 0 <= c < 4 implies self.is_live(#[trigger] new_node[c]) || is_first_free(
                            pond_contents(self.nodes),
                            new_node[c] as usize,
                        ) by {}
                        assert forall|c: int| 0 <= c < 4 implies (is_first_free(pond_contents(self.nodes), #[trigger] new_node[c] as usize)
                            <==> is_first_free(pond_contents(self.nodes), new_node[0] as usize)) by {
                            assert(self.is_live(new_node[c]));
                            assert(self.is_live(new_node[0]));
                        }
                    }
                    let r = self.add_node(new_node);
                    proof {
                        if old(self).all_referenced() {
                            assert(occurrences(new_node, child_prev) >= 1);
                            assert forall|i: Index| self.is_live(i) && i != r implies #[trigger] self.ref_of(i) > 0 by {
                                assert(s_prev.is_live(i));
                                assert(self.ref_of(i) == s_prev.ref_of(i) + occurrences(new_node, i));
                            }
                        }
                    }
                    r
                },
            };
            proof {
                self.lemma_wf_facts();
                let m_new = self.view_nodes();
                assert(extends(m_prev, m_new));
                assert(extends(m_old, m_new));
                assert forall|i: Index| #[trigger] self.is_live(i) && self.is_leaf(i) implies old(self).is_live(i) by {
                    if !s_prev.is_live(i) {
                        assert(i == child);
                        assert(self.view_nodes()[child] == new_node);
                        assert(s_prev.is_live(new_node[0]));
                    }
                }
                assert(self.height(child) <= bound) by {
                    self.lemma_wf_facts();
                    s_prev.lemma_wf_facts();
                    assert(self.view_nodes()[child] == new_node);
                    if !self.is_leaf(child) {
                        assert(height_ok_at(self.view_nodes(), self.rank@, child));
                        assert forall|c: int| 0 <= c < 4 implies #[trigger] self.height(new_node[c]) == s_prev.height(
                            new_node[c],
                        ) by {
                            assert(s_prev.is_live(new_node[c]));
                        }
                        assert(self.height(new_node[0]) + 1 <= bound);
                        assert(self.height(new_node[1]) + 1 <= bound);
                        assert(self.height(new_node[2]) + 1 <= bound);
                        assert(self.height(new_node[3]) + 1 <= bound);
                    }
                }
                lemma_propagate_step(
                    m_old,
                    m_prev,
                    m_new,
                    path@,
                    parent,
                    trail[depth + 1],
                    child_prev,
                    child,
                    target,
                    depth as int,
                );
            }
        }
        proof {
            assert(path@.skip(0) =~= path@);
        }
        child
    }

    /// Writes `new_idx` at the end of `path` below `head` and hands back the
    /// head of the edited tree; the root held on `head` moves to the new head.
    /// Where the path already leads to `new_idx`, nothing changes.
    pub fn set_node(&mut self, head: Index, path: &[Zorder2d], new_idx: Index) -> (r: Index)
        requires
            old(self).wf(),
            old(self).is_live(head),
            old(self).is_live(new_idx),
            path.len() < usize::MAX,
            old(self).descend_spec(head, path@) != new_idx ==> old(self).root_count(head) > 0,
            old(self).descend_spec(head, path@) != new_idx ==> old(self).has_room(path.len() as nat),
        ensures
            final(self).wf(),
            final(self).is_live(r),
            old(self).descend_spec(head, path@) != new_idx ==> final(self).root_count(r) > 0,
            final(self).root_total() == old(self).root_total(),
            old(self).descend_spec(head, path@) == new_idx ==> r == head && *final(self) == *old(self),
            old(self).descend_spec(head, path@) != new_idx ==> forall|i: Index| #[trigger]
                final(self).root_count(i) + (if i == head { 1nat } else { 0nat }) == old(self).root_count(i)
                    + (if i == r { 1nat } else { 0nat }),
            final(self).node_count() <= old(self).node_count() + path.len(),
            final(self).descend_spec(r, path@) == new_idx,
            forall|q: Seq<Zorder2d>, j: int| #[trigger]
                diverges(q, path@, j) ==> final(self).descend_spec(r, q) == old(self).descend_spec(head, q),
            forall|q: Seq<Zorder2d>| #[trigger]
                final(self).descend_spec(r, path@ + q) == old(self).descend_spec(new_idx, q),
            forall|h: Index, q: Seq<Zorder2d>|
                old(self).root_count(h) > 0 && final(self).root_count(h) > 0
                    ==> #[trigger] final(self).descend_spec(h, q) == old(self).descend_spec(h, q),
            old(self).all_referenced() ==> final(self).all_referenced(),
            final(self).height(r) <= max_nat(old(self).height(head), (path.len() + old(self).height(new_idx)) as nat),
            forall|i: Index| #[trigger] final(self).is_live(i) && final(self).is_leaf(i) ==> old(self).is_live(i) && old(self).is_leaf(i),
    {
        proof {
            self.lemma_wf_facts();
        }
        let trail = self.get_trail(head, path);
        proof {
            assert(path@.take(path.len() as int) =~= path@);
            assert(path@.take(0) =~= Seq::<Zorder2d>::empty());
            assert forall|q: Seq<Zorder2d>| #[trigger] self.descend_spec(head, path@ + q) == self.descend_spec(
                new_idx,
                q,
            ) || self.descend_spec(head, path@) != new_idx by {
                lemma_descend_concat(self.view_nodes(), head, path@, q);
            }
        }
        if trail[trail.len() - 1] == new_idx {
            return head;
        }
        let ghost m_old = self.view_nodes();
        let new_head = self.propagate_change(path, trail.as_slice(), new_idx);
        let ghost m_mid = self.view_nodes();
        proof {
            self.lemma_wf_facts();
            lemma_descend_agree(m_old, m_mid, head, path@);
            assert(new_head != head);
        }
        proof {
            assert(trail[0] == head);
            assert(self.height(new_head) <= max_nat(old(self).height(head), (path.len() + old(self).height(new_idx)) as nat));
        }
        let ghost s_mid = *self;
        let new_head = self.get_root(new_head);
        proof {
            if old(self).all_referenced() {
                assert forall|i: Index| self.is_live(i) implies #[trigger] self.ref_of(i) > 0 by {
                    assert(s_mid.is_live(i));
                    assert(self.ref_of(i) == s_mid.ref_of(i) + (if i == new_head { 1nat } else { 0nat }));
                }
                assert(self.all_referenced());
            }
        }
        let ghost s_root = *self;
        self.decrement_ref(head);
        proof {
            assert(self.height(new_head) == s_root.height(new_head));
            assert(s_root.height(new_head) == s_mid.height(new_head));
            self.lemma_wf_facts();
            old(self).lemma_wf_facts();
            let m_fin = self.view_nodes();
            assert(self.root_count(new_head) > 0);
            assert(self.is_live(new_head));
            assert forall|i: Index| m_fin.dom().contains(i) && m_mid.dom().contains(i) implies #[trigger] m_fin[i]
                == m_mid[i] by {}
            assert forall|i: Index| m_fin.dom().contains(i) && m_old.dom().contains(i) implies #[trigger] m_fin[i]
                == m_old[i] by {}
            lemma_descend_agree(m_fin, m_mid, new_head, path@);
            assert forall|q: Seq<Zorder2d>, j: int| #[trigger] diverges(q, path@, j) implies self.descend_spec(
                new_head,
                q,
            ) == old(self).descend_spec(head, q) by {
                lemma_descend_agree(m_fin, m_mid, new_head, q);
            }
            assert forall|q: Seq<Zorder2d>| #[trigger] self.descend_spec(new_head, path@ + q) == old(
                self,
            ).descend_spec(new_idx, q) by {
                lemma_descend_concat(m_fin, new_head, path@, q);
                lemma_descend_agree(m_fin, m_fin, new_head, path@);
                lemma_descend_agree(m_fin, m_old, new_idx, q);
            }
            assert forall|h: Index, q: Seq<Zorder2d>|
                old(self).root_count(h) > 0 && self.root_count(h) > 0 implies #[trigger] self.descend_spec(h, q)
                == old(self).descend_spec(h, q) by {
                assert(self.is_live(h));
                assert(old(self).is_live(h));
                lemma_descend_agree(m_fin, m_old, h, q);
            }
        }
        new_head
    }
}

/// A copy of a path.
pub fn copy_path(path: &Vec<Zorder2d>) -> (r: Vec<Zorder2d>)
    ensures
        r@ == path@,
{
    let mut r: Vec<Zorder2d> = Vec::with_capacity(path.len());
    let mut i: usize = 0;
    while i < path.len()
        invariant
            i <= path.len(),
            r@ == path@.take(i as int),
        decreases path.len() - i,
    {
        r.push(path[i]);
        i += 1;
        proof {
            assert(r@ =~= path@.take(i as int));
        }
    }
    proof {
        assert(path@.take(path.len() as int) =~= path@);
    }
    r
}

/// Every leaf of the tree below `head`, each with the path that leads to it,
/// in Z-order: a depth-first walk that reports a node as a leaf when it is its
/// own child.
pub fn dfs_leaves(graph: &SparseDirectedGraph, head: Index) -> (r: Vec<(Index, Vec<Zorder2d>)>)
    requires
        graph.wf(),
        graph.is_live(head),
    ensures
        leaf_list_view(r@) == graph.leaf_paths(head),
{
    let ghost m = graph.view_nodes();
    let ghost rank = graph.rank@;
    proof {
        graph.lemma_wf_facts();
    }
    let mut stack: Vec<(Index, Vec<Zorder2d>)> = Vec::new();
    let start: Vec<Zorder2d> = Vec::new();
    stack.push((head, start));
    let mut leaves: Vec<(Index, Vec<Zorder2d>)> = Vec::new();
    proof {
        assert(stack@.drop_last() =~= Seq::<(Index, Vec<Zorder2d>)>::empty());
        assert(stack@.last() == (head, start));
        assert(start@ == Seq::<Zorder2d>::empty());
        assert(leaf_list_view(leaves@) =~= Seq::<(Index, Seq<Zorder2d>)>::empty());
        let e = Seq::<(Index, Vec<Zorder2d>)>::empty();
        assert(pending_leaves(m, rank, e) == Seq::<(Index, Seq<Zorder2d>)>::empty());
        assert(pending_leaves(m, rank, stack@) == leaves_of(m, rank, head, start@) + pending_leaves(m, rank, e));
        assert(pending_leaves(m, rank, stack@) =~= leaves_of(m, rank, head, Seq::empty()));
        assert(leaf_list_view(leaves@) + pending_leaves(m, rank, stack@) =~= graph.leaf_paths(head));
    }
    while stack.len() > 0
        invariant
            graph.wf(),
            m == graph.view_nodes(),
            rank == graph.rank@,
            closed(m),
            forall|k: int| 0 <= k < stack.len() ==> graph.is_live(#[trigger] stack@[k].0),
            leaf_list_view(leaves@) + pending_leaves(m, rank, stack@) == graph.leaf_paths(head),
        decreases pending_size(m, rank, stack@),
    {
        let ghost before = stack@;
        let (idx, zorder) = stack.pop().unwrap();
        proof {
            assert(before =~= stack@.push((idx, zorder)));
            assert(before.drop_last() =~= stack@);
            assert(graph.is_live(before[before.len() - 1].0));
            graph.lemma_wf_facts();
        }
        let cur_node = *graph.node(idx);
        if cur_node.child(Zorder2d::BottomRight) == idx {
            let ghost old_leaves = leaves@;
            leaves.push((idx, zorder));
            proof {
                assert(leaf_list_view(leaves@) =~= leaf_list_view(old_leaves).push((idx, zorder@)));
                assert(m[idx][0] == idx);
                assert(leaves_of(m, rank, idx, zorder@) == seq![(idx, zorder@)]);
                assert(before.last() == (idx, zorder));
                assert(pending_leaves(m, rank, before) == seq![(idx, zorder@)] + pending_leaves(m, rank, stack@));
                assert(leaf_list_view(leaves@) + pending_leaves(m, rank, stack@) =~= leaf_list_view(
                    old_leaves,
                ) + pending_leaves(m, rank, before));
                assert(before.last() == (idx, zorder));
                assert(tree_size(m, rank, idx) == 1);
                assert(pending_size(m, rank, before) == 1 + pending_size(m, rank, stack@));
            }
        } else {
            let ghost rest = stack@;
            let mut p3 = copy_path(&zorder);
            p3.push(Zorder2d::BottomRight);
            stack.push((cur_node.child(Zorder2d::BottomRight), p3));
            let mut p2 = copy_path(&zorder);
            p2.push(Zorder2d::BottomLeft);
            stack.push((cur_node.child(Zorder2d::BottomLeft), p2));
            let mut p1 = copy_path(&zorder);
            p1.push(Zorder2d::TopRight);
            stack.push((cur_node.child(Zorder2d::TopRight), p1));
            let mut p0 = copy_path(&zorder);
            p0.push(Zorder2d::TopLeft);
            stack.push((cur_node.child(Zorder2d::TopLeft), p0));
            proof {
                let z = zorder@;
                assert(m[idx][0] != idx);
                assert(rank[m[idx][0]] < rank[idx]);
                assert(rank[m[idx][1]] < rank[idx]);
                assert(rank[m[idx][2]] < rank[idx]);
                assert(rank[m[idx][3]] < rank[idx]);
                let s1 = rest.push((m[idx][3], p3));
                let s2 = s1.push((m[idx][2], p2));
                let s3 = s2.push((m[idx][1], p1));
                assert(stack@ =~= s3.push((m[idx][0], p0)));
                assert(stack@.drop_last() =~= s3);
                assert(s3.drop_last() =~= s2);
                assert(s2.drop_last() =~= s1);
                assert(s1.drop_last() =~= rest);
                let l0 = leaves_of(m, rank, m[idx][0], z.push(Zorder2d::TopLeft));
                let l1 = leaves_of(m, rank, m[idx][1], z.push(Zorder2d::TopRight));
                let l2 = leaves_of(m, rank, m[idx][2], z.push(Zorder2d::BottomLeft));
                let l3 = leaves_of(m, rank, m[idx][3], z.push(Zorder2d::BottomRight));
                assert(leaves_of(m, rank, idx, z) == l0 + l1 + l2 + l3);
                assert(p0@ == z.push(Zorder2d::TopLeft));
                assert(stack@.last() == (m[idx][0], p0));
                assert(s3.last() == (m[idx][1], p1));
                assert(s2.last() == (m[idx][2], p2));
                assert(s1.last() == (m[idx][3], p3));
                assert(pending_leaves(m, rank, s1) == l3 + pending_leaves(m, rank, rest));
                assert(pending_leaves(m, rank, s2) == l2 + pending_leaves(m, rank, s1));
                assert(pending_leaves(m, rank, s3) == l1 + pending_leaves(m, rank, s2));
                assert(pending_leaves(m, rank, stack@) == l0 + pending_leaves(m, rank, s3));
                assert(pending_size(m, rank, s1) == tree_size(m, rank, m[idx][3]) + pending_size(m, rank, rest));
                assert(pending_size(m, rank, s2) == tree_size(m, rank, m[idx][2]) + pending_size(m, rank, s1));
                assert(pending_size(m, rank, s3) == tree_size(m, rank, m[idx][1]) + pending_size(m, rank, s2));
                assert(pending_size(m, rank, stack@) == tree_size(m, rank, m[idx][0]) + pending_size(m, rank, s3));
                assert(before.last() == (idx, zorder));
                assert(pending_size(m, rank, before) == tree_size(m, rank, idx) + pending_size(m, rank, rest));
                assert(pending_leaves(m, rank, before) == leaves_of(m, rank, idx, z) + pending_leaves(m, rank, rest));
                assert(pending_leaves(m, rank, stack@) == l0 + (l1 + (l2 + (l3 + pending_leaves(
                    m,
                    rank,
                    rest,
                )))));
                assert(pending_leaves(m, rank, stack@) =~= leaves_of(m, rank, idx, z) + pending_leaves(
                    m,
                    rank,
                    rest,
                ));
                assert(pending_size(m, rank, stack@) + 1 == pending_size(m, rank, before));
                assert forall|k: int| 0 <= k < stack.len() implies graph.is_live(#[trigger] stack@[k].0) by {
                    if k >= rest.len() {
                        assert(m.dom().contains(m[idx][(stack.len() - 1 - k)]));
                    } else {
                        assert(stack@[k] == before[k]);
                    }
                }
            }
        }
    }
    proof {
        assert(stack@ =~= Seq::<(Index, Vec<Zorder2d>)>::empty());
        assert(leaf_list_view(leaves@) + Seq::<(Index, Seq<Zorder2d>)>::empty() =~= leaf_list_view(leaves@));
    }
    leaves
}

/// The nodes of the tree below `head`, breadth first: a node is listed each
/// time the walk reaches it, and a leaf ends its branch.
pub fn bfs_nodes(graph: &SparseDirectedGraph, head: Index) -> (r: Vec<Index>)
    requires
        graph.wf(),
        graph.is_live(head),
    ensures
        r@ == graph.bfs_walk(head),
        r@.len() > 0,
        r@[0] == head,
        forall|k: int| 0 <= k < r@.len() ==> graph.is_live(#[trigger] r@[k]),
{
    let ghost m = graph.view_nodes();
    let ghost rank = graph.rank@;
    proof {
        graph.lemma_wf_facts();
    }
    let mut queue: std::collections::VecDeque<Index> = std::collections::VecDeque::new();
    queue.push_back(head);
    let mut bfs_indexes: Vec<Index> = Vec::new();
    proof {
        assert(queue@ =~= seq![head]);
        assert(bfs_indexes@ + bfs_order(m, rank, queue@) =~= graph.bfs_walk(head));
    }
    while queue.len() > 0
        invariant
            graph.wf(),
            m == graph.view_nodes(),
            rank == graph.rank@,
            closed(m),
            forall|k: int| 0 <= k < queue@.len() ==> graph.is_live(#[trigger] queue@[k]),
            forall|k: int| 0 <= k < bfs_indexes@.len() ==> graph.is_live(#[trigger] bfs_indexes@[k]),
            bfs_indexes@ + bfs_order(m, rank, queue@) == graph.bfs_walk(head),
        decreases queue_size(m, rank, queue@),
    {
        let ghost q = queue@;
        let idx = queue.pop_front().unwrap();
        proof {
            assert(idx == q[0]);
            assert(queue@ =~= q.drop_first());
            assert(graph.is_live(q[0]));
            lemma_queue_size_concat(m, rank, q.drop_first(), walk_children(m, rank, idx));
            lemma_walk_children_size(m, rank, idx);
        }
        let ghost before = bfs_indexes@;
        bfs_indexes.push(idx);
        let node = *graph.node(idx);
        let ghost rest = queue@;
        let mut c: usize = 0;
        proof {
            graph.lemma_wf_facts();
            assert(node@.take(0) =~= Seq::<Index>::empty());
            assert(rest + node@.take(0) =~= rest);
        }
        while c < 4
            invariant
                graph.wf(),
                m == graph.view_nodes(),
                closed(m),
                graph.is_live(idx),
                node == m[idx],
                c <= 4,
                node[0] == idx ==> c == 0,
                node[0] != idx ==> forall|k: int| 0 <= k < 4 ==> #[trigger] node[k] != idx,
                node[0] == idx ==> queue@ == rest,
                node[0] != idx ==> queue@ == rest + node@.take(c as int),
                forall|k: int| 0 <= k < queue@.len() ==> graph.is_live(#[trigger] queue@[k]),
            ensures
                node[0] == idx ==> queue@ == rest,
                node[0] != idx ==> queue@ == rest + node@,
                forall|k: int| 0 <= k < queue@.len() ==> graph.is_live(#[trigger] queue@[k]),
            decreases 4 - c,
        {
            let child_idx = node[c];
            if child_idx == idx {
                break;
            }
            queue.push_back(child_idx);
            proof {
                assert(node@.take(c + 1) =~= node@.take(c as int).push(node[c as int]));
                assert(m.dom().contains(m[idx][c as int]));
                assert(rest + node@.take(c + 1) =~= (rest + node@.take(c as int)).push(node[c as int]));
            }
            c += 1;
            proof {
                if c == 4 {
                    assert(node@.take(4) =~= node@);
                }
            }
        }
        proof {
            graph.lemma_wf_facts();
            if node[0] == idx {
                assert(walk_children(m, rank, idx) =~= Seq::<Index>::empty());
                assert(queue@ =~= rest + walk_children(m, rank, idx));
            } else {
                assert(rank[m[idx][0]] < rank[idx]);
                assert(rank[m[idx][1]] < rank[idx]);
                assert(rank[m[idx][2]] < rank[idx]);
                assert(rank[m[idx][3]] < rank[idx]);
                assert(node@ =~= walk_children(m, rank, idx));
                assert(queue@ =~= rest + walk_children(m, rank, idx));
            }
            assert(bfs_order(m, rank, q) == seq![idx] + bfs_order(m, rank, queue@));
            assert(bfs_indexes@ + bfs_order(m, rank, queue@) =~= before + bfs_order(m, rank, q));
        }
    }
    proof {
        assert(bfs_order(m, rank, queue@) =~= Seq::<Index>::empty());
        assert(bfs_indexes@ =~= graph.bfs_walk(head));
        assert(bfs_order(m, rank, seq![head])[0] == head);
    }
    bfs_indexes
}

} // verus!
