//! A layered, dimension-free sparse directed acyclic graph: each layer holds
//! the distinct nodes of one height, a node's children are indices into the
//! layer below (cells, at the bottom layer), index 0 of every layer is the
//! empty node, and nodes are shared and reference counted.
use vstd::prelude::*;

verus! {

/// A node: four child indices (0 for no child) and the number of references
/// held on it.
#[derive(Debug)]
pub struct Node {
    pub child_indexes: [usize; 4],
    pub ref_count: u8,
}

/// The node has no child.
pub open spec fn no_children(c: [usize; 4]) -> bool {
    c[0] == 0 && c[1] == 0 && c[2] == 0 && c[3] == 0
}

/// The number of set children among the first `n` slots.
pub open spec fn kids_among(c: [usize; 4], n: int) -> nat
    decreases n,
{
    if n <= 0 {
        0
    } else {
        kids_among(c, n - 1) + (if c[n - 1] != 0 { 1nat } else { 0nat })
    }
}

/// The last set slot among the first `n` slots, 0 where none is set.
pub open spec fn last_kid_among(c: [usize; 4], n: int) -> int
    decreases n,
{
    if n <= 0 {
        0
    } else if c[n - 1] != 0 {
        n - 1
    } else {
        last_kid_among(c, n - 1)
    }
}

impl Node {
    fn new_empty() -> (r: Self)
        ensures
            no_children(r.child_indexes),
            r.ref_count == 0,
    {
        Self { child_indexes: [0, 0, 0, 0], ref_count: 0 }
    }

    /// Both nodes have the same children.
    fn same_children(node1: &Node, node2: &Node) -> (r: bool)
        ensures
            r == (node1.child_indexes == node2.child_indexes),
    {
        let r = node1.child_indexes[0] == node2.child_indexes[0] && node1.child_indexes[1] == node2.child_indexes[1]
            && node1.child_indexes[2] == node2.child_indexes[2] && node1.child_indexes[3]
            == node2.child_indexes[3];
        proof {
            if r {
                assert(node1.child_indexes =~= node2.child_indexes);
            }
        }
        r
    }

    /// The number of set children, and the last set slot (0 where none is).
    fn count_kids_and_get_last(&self) -> (r: (u32, usize))
        ensures
            r.0 == kids_among(self.child_indexes, 4),
            r.1 == last_kid_among(self.child_indexes, 4),
    {
        let mut count: u32 = 0;
        let mut last_set_kid: usize = 0;
        let mut child: usize = 0;
        while child < 4
            invariant
                child <= 4,
                count == kids_among(self.child_indexes, child as int),
                last_set_kid == last_kid_among(self.child_indexes, child as int),
                count <= child,
            decreases 4 - child,
        {
            if self.child_indexes[child] != 0 {
                last_set_kid = child;
                count += 1;
            }
            child += 1;
        }
        (count, last_set_kid)
    }

    /// A node with the same children and no reference counted.
    fn clone_without_ref(&self) -> (r: Self)
        ensures
            r.child_indexes == self.child_indexes,
            r.ref_count == 0,
    {
        Self { child_indexes: self.child_indexes, ref_count: 0 }
    }
}

/// Where a node is stored: its layer and its index in the layer.
#[derive(Clone, Debug)]
pub struct NodeAddress {
    pub layer: usize,
    pub index: usize,
}

impl NodeAddress {
    pub fn new(layer: usize, index: usize) -> (r: Self)
        ensures
            r.layer == layer,
            r.index == index,
    {
        Self { layer, index }
    }
}

/// A path of child slots, read from a packed number.
#[derive(Debug)]
pub struct Path {
    _dimension: u32,
    directions: Vec<u8>,
}

/// The mask of the low `dimension` bits of a `u32`.
pub open spec fn low_mask(dimension: nat) -> u32
    decreases dimension,
{
    if dimension == 0 {
        0
    } else {
        ((low_mask((dimension - 1) as nat) << 1u32) | 1u32) as u32
    }
}

/// The slot taken at `step` of a path of `steps` slots packed in `bit_path`,
/// `dimension` bits per slot, the first slot in the highest bits.
pub open spec fn packed_direction(bit_path: u32, steps: nat, dimension: u32, step: nat) -> u8 {
    ((bit_path >> ((dimension * (steps - step - 1)) as u32)) & low_mask(dimension as nat)) as u8
}

impl Path {
    /// The `steps` slots packed in `bit_path`, `dimension` bits per slot, the
    /// first slot in the highest bits.
    pub fn from(bit_path: u32, steps: usize, dimension: u32) -> (r: Self)
        requires
            steps > 0 ==> dimension * (steps - 1) < 32,
        ensures
            r@.len() == steps,
            forall|s: int| 0 <= s < steps ==> r@[s] == packed_direction(bit_path, steps as nat, dimension, s as nat),
    {
        let mut directions: Vec<u8> = Vec::with_capacity(steps);
        let mut mask: u32 = 0;
        let mut d: u32 = 0;
        while d < dimension
            invariant
                d <= dimension,
                mask == low_mask(d as nat),
            decreases dimension - d,
        {
            mask = (mask << 1) | 1;
            d += 1;
        }
        let mut step: usize = 0;
        while step < steps
            invariant
                step <= steps,
                steps > 0 ==> dimension * (steps - 1) < 32,
                mask == low_mask(dimension as nat),
                directions@.len() == step,
                forall|s: int| 0 <= s < step ==> directions@[s] == packed_direction(bit_path, steps as nat, dimension, s as nat),
            decreases steps - step,
        {
            let left: usize = steps - step - 1;
            proof {
                assert(dimension * left <= dimension * (steps - 1)) by (nonlinear_arith)
                    requires
                        left <= steps - 1,
                ;
                if dimension > 0 {
                    assert(left <= dimension * left) by (nonlinear_arith)
                        requires
                            dimension > 0,
                    ;
                }
                assert(dimension == 0 || left < 32);
                assert(dimension * ((left as u32) as int) < 32) by (nonlinear_arith)
                    requires
                        dimension == 0 || left < 32,
                        dimension * left < 32,
                ;
            }
            let shift: u32 = dimension * (left as u32);
            let cur_direction = bit_path >> shift & mask;
            directions.push(cur_direction as u8);
            step += 1;
        }
        Self { _dimension: dimension, directions }
    }

    /// The slots of the path.
    pub fn directions(&self) -> (r: &[u8])
        ensures
            r@ == self@,
    {
        self.directions.as_slice()
    }
}

impl View for Path {
    type V = Seq<u8>;

    closed spec fn view(&self) -> Seq<u8> {
        self.directions@
    }
}

// ----------------------------------------------------------------------------
// The model
// ----------------------------------------------------------------------------

/// Where a node stands: its layer and its index in the layer.
pub type Slot = (int, int);

/// How often `i` is among the children `c`.
pub open spec fn occurrences(c: [usize; 4], i: int) -> nat {
    (if c[0] == i { 1nat } else { 0nat }) + (if c[1] == i { 1nat } else { 0nat }) + (if c[2] == i {
        1nat
    } else {
        0nat
    }) + (if c[3] == i { 1nat } else { 0nat })
}

/// The number of child slots, among the nodes `s`, that point at `i`.
pub open spec fn layer_edges(s: Seq<Node>, i: int) -> nat
    decreases s.len(),
{
    if s.len() == 0 {
        0
    } else {
        layer_edges(s.drop_last(), i) + occurrences(s.last().child_indexes, i)
    }
}

/// The number of child slots of the layer above `layer` that point at node
/// `i` of `layer`.
pub open spec fn in_edges(p: Seq<Seq<Node>>, layer: int, i: int) -> nat {
    if layer + 1 < p.len() {
        layer_edges(p[layer + 1], i)
    } else {
        0
    }
}

/// How often `a` occurs in `s`.
pub open spec fn slot_count(s: Seq<Slot>, a: Slot) -> nat
    decreases s.len(),
{
    if s.len() == 0 {
        0
    } else {
        slot_count(s.drop_last(), a) + (if s.last() == a { 1nat } else { 0nat })
    }
}

/// Node `i` of `layer` is stored: it is not the empty node of index 0 and it
/// has a child.
pub open spec fn is_stored(p: Seq<Seq<Node>>, layer: int, i: int) -> bool {
    &&& 0 <= layer < p.len()
    &&& 0 < i < p[layer].len()
    &&& !no_children(p[layer][i].child_indexes)
}

/// The node reached from node `index` of `layer` by following the child slots
/// `dirs`, one layer down per slot.
pub open spec fn descend_from(p: Seq<Seq<Node>>, layer: int, index: int, dirs: Seq<u8>) -> int
    decreases dirs.len(),
{
    if dirs.len() == 0 {
        index
    } else {
        descend_from(p, layer - 1, p[layer][index].child_indexes[dirs[0] as int] as int, dirs.drop_first())
    }
}

/// Every slot of `dirs` is one of the four.
pub open spec fn valid_dirs(dirs: Seq<u8>) -> bool {
    forall|k: int| 0 <= k < dirs.len() ==> #[trigger] dirs[k] < 4
}

// ----------------------------------------------------------------------------
// Lemmas on the model
// ----------------------------------------------------------------------------

proof fn lemma_slot_count_push(s: Seq<Slot>, x: Slot)
    ensures
        forall|a: Slot| #[trigger] slot_count(s.push(x), a) == slot_count(s, a) + (if x == a { 1nat } else { 0nat }),
{
    assert(s.push(x).drop_last() =~= s);
}

proof fn lemma_slot_count_remove(s: Seq<Slot>, k: int)
    requires
        0 <= k < s.len(),
    ensures
        forall|a: Slot| #[trigger] slot_count(s, a) == slot_count(s.remove(k), a) + (if s[k] == a { 1nat } else { 0nat }),
    decreases s.len(),
{
    if k == s.len() - 1 {
        assert(s.remove(k) =~= s.drop_last());
    } else {
        lemma_slot_count_remove(s.drop_last(), k);
        let r = s.remove(k);
        assert(r.drop_last() =~= s.drop_last().remove(k));
        assert(r.last() == s.last());
        assert forall|a: Slot| #[trigger] slot_count(s, a) == slot_count(s.remove(k), a) + (if s[k] == a { 1nat } else { 0nat }) by {
            assert(slot_count(s, a) == slot_count(s.drop_last(), a) + (if s.last() == a { 1nat } else { 0nat }));
            assert(slot_count(r, a) == slot_count(r.drop_last(), a) + (if r.last() == a { 1nat } else { 0nat }));
            assert(s.drop_last()[k] == s[k]);
        }
    }
}

proof fn lemma_slot_count_contains(s: Seq<Slot>, a: Slot)
    ensures
        slot_count(s, a) > 0 <==> s.contains(a),
    decreases s.len(),
{
    if s.len() > 0 {
        lemma_slot_count_contains(s.drop_last(), a);
        if s.contains(a) && s.last() != a {
            let k = choose|k: int| 0 <= k < s.len() && s[k] == a;
            assert(s.drop_last()[k] == a);
        }
        if s.drop_last().contains(a) {
            let k = choose|k: int| 0 <= k < s.drop_last().len() && s.drop_last()[k] == a;
            assert(s[k] == a);
        }
    }
}

proof fn lemma_layer_edges_push(s: Seq<Node>, n: Node)
    ensures
        forall|i: int| #[trigger] layer_edges(s.push(n), i) == layer_edges(s, i) + occurrences(n.child_indexes, i),
{
    assert(s.push(n).drop_last() =~= s);
}

proof fn lemma_layer_edges_update(s: Seq<Node>, j: int, n: Node)
    requires
        0 <= j < s.len(),
    ensures
        forall|i: int| #[trigger] layer_edges(s.update(j, n), i) + occurrences(s[j].child_indexes, i) == layer_edges(s, i)
            + occurrences(n.child_indexes, i),
    decreases s.len(),
{
    let u = s.update(j, n);
    if j == s.len() - 1 {
        assert(u.drop_last() =~= s.drop_last());
    } else {
        lemma_layer_edges_update(s.drop_last(), j, n);
        assert(u.drop_last() =~= s.drop_last().update(j, n));
        assert(u.last() == s.last());
        assert forall|i: int| #[trigger] layer_edges(u, i) + occurrences(s[j].child_indexes, i) == layer_edges(s, i)
            + occurrences(n.child_indexes, i) by {
            assert(layer_edges(u, i) == layer_edges(u.drop_last(), i) + occurrences(u.last().child_indexes, i));
            assert(s.drop_last()[j] == s[j]);
        }
    }
}

/// A node of the layer contributes its edges.
proof fn lemma_layer_edges_parent(s: Seq<Node>, j: int, i: int)
    requires
        0 <= j < s.len(),
    ensures
        layer_edges(s, i) >= occurrences(s[j].child_indexes, i),
{
    let v: usize = if i == 0 { 1 } else { 0 };
    let e = Node { child_indexes: [v, v, v, v], ref_count: 0 };
    lemma_layer_edges_update(s, j, e);
    assert(occurrences(e.child_indexes, i) == 0);
    assert(layer_edges(s.update(j, e), i) + occurrences(s[j].child_indexes, i) == layer_edges(s, i) + occurrences(
        e.child_indexes,
        i,
    ));
}

/// Edges into node 0 are not counted where no layer node points at it...
/// nor is anything else: a layer whose nodes have no children has no edges.
proof fn lemma_layer_edges_empty_children(s: Seq<Node>, i: int)
    requires
        forall|j: int| 0 <= j < s.len() ==> no_children(#[trigger] s[j].child_indexes),
        i > 0,
    ensures
        layer_edges(s, i) == 0,
    decreases s.len(),
{
    if s.len() > 0 {
        lemma_layer_edges_empty_children(s.drop_last(), i);
        assert(no_children(s[s.len() - 1].child_indexes));
    }
}


/// Following one slot more goes one layer further down.
proof fn lemma_descend_snoc(p: Seq<Seq<Node>>, layer: int, index: int, dirs: Seq<u8>, x: u8)
    ensures
        descend_from(p, layer, index, dirs.push(x)) == p[layer - dirs.len()][descend_from(p, layer, index, dirs)].child_indexes[x as int] as int,
    decreases dirs.len(),
{
    let d2 = dirs.push(x);
    if dirs.len() == 0 {
        let c0 = p[layer][index].child_indexes[x as int] as int;
        assert(d2.drop_first() =~= Seq::<u8>::empty());
        assert(d2[0] == x);
        assert(descend_from(p, layer, index, d2) == descend_from(p, layer - 1, c0, d2.drop_first()));
        assert(descend_from(p, layer - 1, c0, Seq::<u8>::empty()) == c0);
        assert(descend_from(p, layer, index, dirs) == index);
    } else {
        let c = p[layer][index].child_indexes[dirs[0] as int] as int;
        assert(d2[0] == dirs[0]);
        assert(d2.drop_first() =~= dirs.drop_first().push(x));
        assert(descend_from(p, layer, index, d2) == descend_from(p, layer - 1, c, d2.drop_first()));
        assert(descend_from(p, layer, index, dirs) == descend_from(p, layer - 1, c, dirs.drop_first()));
        lemma_descend_snoc(p, layer - 1, c, dirs.drop_first(), x);
        assert((layer - 1) - dirs.drop_first().len() == layer - dirs.len());
    }
}


/// A layer none of whose nodes points at `i` has no edge into `i`.
proof fn lemma_layer_edges_absent(s: Seq<Node>, i: int)
    requires
        forall|j: int, c: int| 0 <= j < s.len() && 0 <= c < 4 ==> #[trigger] s[j].child_indexes[c] != i,
    ensures
        layer_edges(s, i) == 0,
    decreases s.len(),
{
    if s.len() > 0 {
        lemma_layer_edges_absent(s.drop_last(), i);
        let l = s[s.len() - 1].child_indexes;
        assert(l[0] != i && l[1] != i && l[2] != i && l[3] != i);
    }
}

/// A layer with a single node that has no child.
pub open spec fn is_blank_layer(s: Seq<Node>) -> bool {
    &&& s.len() == 1
    &&& no_children(s[0].child_indexes)
    &&& s[0].ref_count == 0
}


/// How often `i` is among the first `n` children.
pub open spec fn partial_occurrences(c: [usize; 4], i: int, n: int) -> nat
    decreases n,
{
    if n <= 0 {
        0
    } else {
        partial_occurrences(c, i, n - 1) + (if c[n - 1] == i { 1nat } else { 0nat })
    }
}

proof fn lemma_partial_occurrences_bound(c: [usize; 4], i: int, n: int)
    requires
        0 <= n <= 4,
    ensures
        partial_occurrences(c, i, n) <= n,
        partial_occurrences(c, i, 4) == occurrences(c, i),
    decreases n,
{
    if n > 0 {
        lemma_partial_occurrences_bound(c, i, n - 1);
    }
    assert(partial_occurrences(c, i, 4) == occurrences(c, i)) by {
        reveal_with_fuel(partial_occurrences, 5);
    }
}

/// The edges of a layer depend only on the children of its nodes.
proof fn lemma_layer_edges_children(s: Seq<Node>, t: Seq<Node>, i: int)
    requires
        s.len() == t.len(),
        forall|j: int| 0 <= j < s.len() ==> #[trigger] s[j].child_indexes == t[j].child_indexes,
    ensures
        layer_edges(s, i) == layer_edges(t, i),
    decreases s.len(),
{
    if s.len() > 0 {
        lemma_layer_edges_children(s.drop_last(), t.drop_last(), i);
        assert(s[s.len() - 1].child_indexes == t[t.len() - 1].child_indexes);
    }
}


/// `5^n`.
pub open spec fn five_pow(n: nat) -> nat
    decreases n,
{
    if n == 0 {
        1
    } else {
        5 * five_pow((n - 1) as nat)
    }
}

/// The weight of the releases still to do: `5^layer` each.
pub open spec fn queue_weight(q: Seq<NodeAddress>) -> nat
    decreases q.len(),
{
    if q.len() == 0 {
        0
    } else {
        queue_weight(q.drop_last()) + five_pow(q.last().layer as nat)
    }
}

/// The slots of a list of addresses.
pub open spec fn queue_slots(q: Seq<NodeAddress>) -> Seq<Slot> {
    q.map_values(|a: NodeAddress| (a.layer as int, a.index as int))
}

/// The child references of a node of `layer` among its first `n` slots, in
/// slot order, leaving out empty children.
pub open spec fn kid_slots(layer: int, c: [usize; 4], n: int) -> Seq<Slot>
    decreases n,
{
    if n <= 0 {
        Seq::empty()
    } else {
        kid_slots(layer, c, n - 1) + (if c[n - 1] != 0 { seq![(layer - 1, c[n - 1] as int)] } else { Seq::empty() })
    }
}

proof fn lemma_kid_slots(layer: int, c: [usize; 4], n: int)
    requires
        0 <= n <= 4,
    ensures
        forall|a: Slot| #[trigger] slot_count(kid_slots(layer, c, n), a) == (if a.0 == layer - 1 && a.1 != 0 {
            partial_occurrences(c, a.1, n)
        } else {
            0
        }),
        kid_slots(layer, c, n).len() <= n,
        forall|k: int| 0 <= k < kid_slots(layer, c, n).len() ==> (#[trigger] kid_slots(layer, c, n)[k]).0 == layer - 1 && exists|j: int|
            0 <= j < n && c[j] != 0 && kid_slots(layer, c, n)[k].1 == c[j],
    decreases n,
{
    if n > 0 {
        lemma_kid_slots(layer, c, n - 1);
        let prev = kid_slots(layer, c, n - 1);
        let cur = kid_slots(layer, c, n);
        if c[n - 1] != 0 {
            assert(cur =~= prev.push((layer - 1, c[n - 1] as int)));
            lemma_slot_count_push(prev, (layer - 1, c[n - 1] as int));
            assert forall|k: int| 0 <= k < cur.len() implies (#[trigger] cur[k]).0 == layer - 1 && exists|j: int|
                0 <= j < n && c[j] != 0 && cur[k].1 == c[j] by {
                if k < prev.len() {
                    assert(cur[k] == prev[k]);
                    let j = choose|j: int| 0 <= j < n - 1 && c[j] != 0 && prev[k].1 == c[j];
                    assert(0 <= j < n && c[j] != 0 && cur[k].1 == c[j]);
                } else {
                    assert(0 <= n - 1 < n && c[n - 1] != 0 && cur[k].1 == c[n - 1]);
                }
            }
        } else {
            assert(cur =~= prev);
            assert forall|k: int| 0 <= k < cur.len() implies (#[trigger] cur[k]).0 == layer - 1 && exists|j: int|
                0 <= j < n && c[j] != 0 && cur[k].1 == c[j] by {
                let j = choose|j: int| 0 <= j < n - 1 && prev[k].1 == c[j] && c[j] != 0;
                assert(cur[k] == prev[k]);
                assert(0 <= j < n && c[j] != 0 && cur[k].1 == c[j]);
            }
        }
    } else {
        assert forall|a: Slot| #[trigger] slot_count(kid_slots(layer, c, n), a) == (if a.0 == layer - 1 && a.1 != 0 {
            partial_occurrences(c, a.1, n)
        } else {
            0
        }) by {}
    }
}

proof fn lemma_five_pow_pos(n: nat)
    ensures
        five_pow(n) >= 1,
    decreases n,
{
    if n > 0 {
        lemma_five_pow_pos((n - 1) as nat);
    }
}


proof fn lemma_slot_count_concat(a: Seq<Slot>, b: Seq<Slot>)
    ensures
        forall|x: Slot| #[trigger] slot_count(a + b, x) == slot_count(a, x) + slot_count(b, x),
    decreases b.len(),
{
    if b.len() == 0 {
        assert(a + b =~= a);
    } else {
        lemma_slot_count_concat(a, b.drop_last());
        assert((a + b).drop_last() =~= a + b.drop_last());
        assert((a + b).last() == b.last());
        assert forall|x: Slot| #[trigger] slot_count(a + b, x) == slot_count(a, x) + slot_count(b, x) by {
            assert(slot_count(a + b, x) == slot_count((a + b).drop_last(), x) + (if (a + b).last() == x { 1nat } else { 0nat }));
            assert(slot_count(a + b.drop_last(), x) == slot_count(a, x) + slot_count(b.drop_last(), x));
        }
    }
}


/// Every layer starts with the empty node, and every child of a node above
/// the bottom layer is the empty node or a stored node of the layer below.
pub open spec fn shaped(p: Seq<Seq<Node>>) -> bool {
    &&& forall|l: int| #![trigger p[l]] 0 <= l < p.len() ==> p[l].len() > 0 && no_children(p[l][0].child_indexes)
    &&& forall|l: int, j: int, c: int|
        #![trigger p[l][j].child_indexes[c]]
        0 < l < p.len() && 0 <= j < p[l].len() && 0 <= c < 4 ==> p[l][j].child_indexes[c] < p[l - 1].len() && (
        p[l][j].child_indexes[c] == 0 || is_stored(p, l - 1, p[l][j].child_indexes[c] as int))
}

/// `q` follows `p` for its first `j` slots and leaves it at slot `j`.
pub open spec fn diverges_at(q: Seq<u8>, p: Seq<u8>, j: int) -> bool {
    &&& 0 <= j < p.len()
    &&& j < q.len()
    &&& forall|i: int| 0 <= i < j ==> q[i] == p[i]
    &&& q[j] != p[j]
}

/// From the empty node every path stays on the empty node.
proof fn lemma_descend_zero(p: Seq<Seq<Node>>, layer: int, q: Seq<u8>)
    requires
        shaped(p),
        0 <= layer < p.len(),
        q.len() <= layer + 1,
        valid_dirs(q),
    ensures
        descend_from(p, layer, 0, q) == 0,
    decreases q.len(),
{
    if q.len() > 0 {
        assert(q[0] < 4);
        assert(no_children(p[layer][0].child_indexes));
        assert(p[layer][0].child_indexes[q[0] as int] == 0);
        if q.len() > 1 {
            lemma_descend_zero(p, layer - 1, q.drop_first());
        } else {
            assert(q.drop_first().len() == 0);
        }
    }
}

/// Two graphs that agree on the children of every node stored in the first
/// lead the same way from such a node (or the empty node).
proof fn lemma_descend_agree(small: Seq<Seq<Node>>, big: Seq<Seq<Node>>, layer: int, x: int, q: Seq<u8>)
    requires
        shaped(small),
        shaped(big),
        big.len() == small.len(),
        forall|l: int, i: int| #[trigger] is_stored(small, l, i) ==> is_stored(big, l, i) && big[l][i].child_indexes
            == small[l][i].child_indexes,
        0 <= layer < small.len(),
        x == 0 || is_stored(small, layer, x),
        q.len() <= layer + 1,
        valid_dirs(q),
    ensures
        descend_from(small, layer, x, q) == descend_from(big, layer, x, q),
    decreases q.len(),
{
    if q.len() > 0 {
        assert(q[0] < 4);
        if x == 0 {
            lemma_descend_zero(small, layer, q);
            lemma_descend_zero(big, layer, q);
        } else {
            let c = small[layer][x].child_indexes[q[0] as int] as int;
            assert(big[layer][x].child_indexes == small[layer][x].child_indexes);
            assert(descend_from(small, layer, x, q) == descend_from(small, layer - 1, c, q.drop_first()));
            assert(descend_from(big, layer, x, q) == descend_from(big, layer - 1, c, q.drop_first()));
            if q.len() > 1 {
                assert(layer > 0);
                assert(valid_dirs(q.drop_first())) by {
                    assert forall|k: int| 0 <= k < q.drop_first().len() implies #[trigger] q.drop_first()[k] < 4 by {
                        assert(q.drop_first()[k] == q[k + 1]);
                    }
                }
                lemma_descend_agree(small, big, layer - 1, c, q.drop_first());
            }
        }
    }
}



/// Child `k` of a node with children `c` once slot `d` is made `v`.
pub open spec fn replaced(c: [usize; 4], d: int, v: int, k: int) -> int {
    if k == d {
        v
    } else {
        c[k] as int
    }
}

proof fn lemma_valid_dirs_skip(q: Seq<u8>, k: int)
    requires
        valid_dirs(q),
        0 <= k <= q.len(),
    ensures
        valid_dirs(q.skip(k)),
{
    assert forall|i: int| 0 <= i < q.skip(k).len() implies #[trigger] q.skip(k)[i] < 4 by {
        assert(q.skip(k)[i] == q[k + i]);
    }
}

/// One step of rebuilding an edited path from the bottom up: the rebuilt
/// node `r` of layer `layer` (its old version `parent` with slot `path[t]`
/// now `child_prev`) leads along the rest of the path to `target`, and
/// elsewhere where `parent` led.
proof fn lemma_set_step(
    p0: Seq<Seq<Node>>,
    p_prev: Seq<Seq<Node>>,
    p_new: Seq<Seq<Node>>,
    path: Seq<u8>,
    t: int,
    layer: int,
    parent: int,
    child_prev: int,
    r: int,
    target: int,
)
    requires
        shaped(p0),
        shaped(p_prev),
        shaped(p_new),
        grows(p0, p_prev),
        grows(p_prev, p_new),
        0 <= t < path.len(),
        valid_dirs(path),
        0 <= layer < p0.len(),
        path.len() - t <= layer + 1,
        parent == 0 || is_stored(p0, layer, parent),
        layer > 0 ==> (child_prev == 0 || is_stored(p_prev, layer - 1, child_prev)),
        t + 1 < path.len() ==> layer > 0,
        descend_from(p_prev, layer - 1, child_prev, path.skip(t + 1)) == target,
        forall|q: Seq<u8>, j: int|
            #![trigger diverges_at(q, path.skip(t + 1), j)]
            diverges_at(q, path.skip(t + 1), j) && q.len() <= layer && valid_dirs(q) ==> descend_from(
                p_prev,
                layer - 1,
                child_prev,
                q,
            ) == descend_from(p0, layer - 1, p0[layer][parent].child_indexes[path[t] as int] as int, q),
        r == 0 <==> forall|k: int| 0 <= k < 4 ==> #[trigger] replaced(p0[layer][parent].child_indexes, path[t] as int, child_prev, k) == 0,
        r != 0 ==> is_stored(p_new, layer, r) && forall|k: int| 0 <= k < 4 ==> #[trigger] p_new[layer][r].child_indexes[k]
            == replaced(p0[layer][parent].child_indexes, path[t] as int, child_prev, k),
        0 <= child_prev <= usize::MAX,
    ensures
        descend_from(p_new, layer, r, path.skip(t)) == target,
        forall|q: Seq<u8>, j: int|
            #![trigger diverges_at(q, path.skip(t), j)]
            diverges_at(q, path.skip(t), j) && q.len() <= layer + 1 && valid_dirs(q) ==> descend_from(p_new, layer, r, q)
                == descend_from(p0, layer, parent, q),
{
    let ps = path.skip(t);
    let rest = path.skip(t + 1);
    let d = path[t];
    let old_children = p0[layer][parent].child_indexes;
    let m = |k: int| replaced(old_children, d as int, child_prev, k);
    assert(d < 4);
    assert(ps[0] == d);
    assert(ps.drop_first() =~= rest);
    lemma_valid_dirs_skip(path, t + 1);
    assert(grows(p0, p_new)) by {
        assert forall|l: int, i: int| #[trigger] is_stored(p0, l, i) implies is_stored(p_new, l, i) && p_new[l][i].child_indexes
            == p0[l][i].child_indexes by {
            assert(is_stored(p_prev, l, i));
        }
        assert forall|l: int| #![trigger p_new[l]] 0 <= l < p0.len() implies p_new[l].len() >= p0[l].len() by {
            assert(p_prev[l].len() >= p0[l].len());
            assert(p_new[l].len() >= p_prev[l].len());
        }
    }
    if parent == 0 {
        assert(no_children(p0[layer][0].child_indexes));
    }
    // The path itself.
    if r != 0 {
        assert(p_new[layer][r].child_indexes[d as int] == child_prev);
        assert(descend_from(p_new, layer, r, ps) == descend_from(p_new, layer - 1, child_prev, rest));
        if rest.len() > 0 {
            lemma_descend_agree(p_prev, p_new, layer - 1, child_prev, rest);
        }
    } else {
        assert(child_prev == 0) by {
            assert(m(d as int) == 0);
        }
        lemma_descend_zero(p_new, layer, ps);
        if rest.len() > 0 {
            lemma_descend_zero(p_prev, layer - 1, rest);
        }
    }
    // The paths that leave it.
    assert forall|q: Seq<u8>, j: int|
        #![trigger diverges_at(q, ps, j)]
        diverges_at(q, ps, j) && q.len() <= layer + 1 && valid_dirs(q) implies descend_from(p_new, layer, r, q)
            == descend_from(p0, layer, parent, q) by {
        let q0 = q[0];
        let qr = q.drop_first();
        assert(q0 < 4);
        lemma_valid_dirs_skip(q, 1);
        assert(q.skip(1) =~= qr);
        let sib = old_children[q0 as int] as int;
        assert(descend_from(p0, layer, parent, q) == descend_from(p0, layer - 1, sib, qr));
        if j == 0 {
            assert(q0 != d);
            if r != 0 {
                assert(p_new[layer][r].child_indexes[q0 as int] == old_children[q0 as int]);
                assert(descend_from(p_new, layer, r, q) == descend_from(p_new, layer - 1, sib, qr));
                if qr.len() > 0 {
                    assert(layer > 0);
                    assert(sib == 0 || is_stored(p0, layer - 1, sib)) by {
                        if parent != 0 {
                            assert(old_children[q0 as int] < p0[layer - 1].len());
                        }
                    }
                    lemma_descend_agree(p0, p_new, layer - 1, sib, qr);
                }
            } else {
                assert(sib == 0) by {
                    assert(m(q0 as int) == 0);
                }
                lemma_descend_zero(p_new, layer, q);
                if qr.len() > 0 {
                    lemma_descend_zero(p0, layer - 1, qr);
                }
            }
        } else {
            assert(q0 == d) by {
                assert(q[0] == ps[0]);
            }
            assert(diverges_at(qr, rest, j - 1)) by {
                assert forall|i: int| 0 <= i < j - 1 implies qr[i] == rest[i] by {
                    assert(q[i + 1] == ps[i + 1]);
                }
                assert(q[j] == qr[j - 1]);
                assert(ps[j] == rest[j - 1]);
            }
            assert(descend_from(p_prev, layer - 1, child_prev, qr) == descend_from(p0, layer - 1, sib, qr));
            if r != 0 {
                assert(descend_from(p_new, layer, r, q) == descend_from(p_new, layer - 1, child_prev, qr));
                lemma_descend_agree(p_prev, p_new, layer - 1, child_prev, qr);
            } else {
                assert(child_prev == 0) by {
                    assert(m(d as int) == 0);
                }
                lemma_descend_zero(p_new, layer, q);
                lemma_descend_zero(p_prev, layer - 1, qr);
            }
        }
    }
}


/// Every count of `p2` on layer `from` and above is at most its count in
/// `p`, and zero on slots that `p` does not have.
pub open spec fn counts_not_above(p: Seq<Seq<Node>>, p2: Seq<Seq<Node>>, from: int) -> bool {
    forall|l: int, i: int|
        #![trigger p2[l][i]]
        from <= l < p2.len() && 0 <= l && 0 <= i < p2[l].len() ==> if i < p[l].len() {
            p2[l][i].ref_count <= p[l][i].ref_count
        } else {
            p2[l][i].ref_count == 0
        }
}

proof fn lemma_grows_trans(p0: Seq<Seq<Node>>, p1: Seq<Seq<Node>>, p2: Seq<Seq<Node>>)
    requires
        grows(p0, p1),
        grows(p1, p2),
    ensures
        grows(p0, p2),
{
    assert forall|l: int, i: int| #[trigger] is_stored(p0, l, i) implies is_stored(p2, l, i) && p2[l][i].child_indexes
        == p0[l][i].child_indexes by {
        assert(is_stored(p1, l, i));
    }
    assert forall|l: int| #![trigger p2[l]] 0 <= l < p0.len() implies p2[l].len() >= p0[l].len() by {
        assert(p1[l].len() >= p0[l].len());
        assert(p2[l].len() >= p1[l].len());
    }
}

/// Counts kept under those of `p0` from layer `from` up stay so one layer
/// higher after a step that raises only the counts of layer `from`.
proof fn lemma_counts_step(p0: Seq<Seq<Node>>, p1: Seq<Seq<Node>>, p2: Seq<Seq<Node>>, from: int)
    requires
        grows(p0, p1),
        grows(p1, p2),
        counts_not_above(p0, p1, from),
        counts_bounded(p1, p2, from),
    ensures
        counts_not_above(p0, p2, from + 1),
{
    assert forall|l: int, i: int|
        #![trigger p2[l][i]]
        from + 1 <= l < p2.len() && 0 <= l && 0 <= i < p2[l].len() implies if i < p0[l].len() {
            p2[l][i].ref_count <= p0[l][i].ref_count
        } else {
            p2[l][i].ref_count == 0
        } by {
        assert(p1[l].len() >= p0[l].len());
        if i < p1[l].len() {
            assert(p2[l][i].ref_count <= p1[l][i].ref_count);
            assert(p1[l][i] == p1[l][i]);
        }
    }
}

/// The largest count that a path edit can meet on a node it shares: the
/// rebuilt node of a layer may reference one child in all four slots, and a
/// count is a `u8`, so four references more must still fit under 256.
pub const EDIT_HEADROOM: u8 = 251;

/// The counts that an edit of the path from a root on `root_layer` down to
/// `node_layer` can raise have room for it: on each layer from just below
/// `node_layer` up to just below the root, every count is at most
/// `EDIT_HEADROOM` (a rebuilt node adds up to four references to a child),
/// and on the root's layer every count is below 255 (the new root gains one).
pub open spec fn edit_room(p: Seq<Seq<Node>>, node_layer: int, root_layer: int) -> bool {
    &&& forall|l: int, i: int|
        node_layer - 1 <= l < root_layer && 0 <= l && 0 <= i < p[l].len() ==> #[trigger] p[l][i].ref_count <= EDIT_HEADROOM
    &&& forall|i: int| 0 <= i < p[root_layer].len() ==> #[trigger] p[root_layer][i].ref_count < 255
}

proof fn lemma_room_below(p0: Seq<Seq<Node>>, p1: Seq<Seq<Node>>, node_layer: int, rl: int, layer: int)
    requires
        edit_room(p0, node_layer, rl),
        grows(p0, p1),
        counts_not_above(p0, p1, layer - 1),
        node_layer <= layer <= rl,
        0 < layer < p0.len(),
    ensures
        forall|i: int| 0 < i < p1[layer - 1].len() ==> #[trigger] p1[layer - 1][i].ref_count + 4 <= 255,
{
    assert forall|i: int| 0 < i < p1[layer - 1].len() implies #[trigger] p1[layer - 1][i].ref_count + 4 <= 255 by {
        assert(p1[layer - 1][i] == p1[layer - 1][i]);
        if i < p0[layer - 1].len() {
            assert(p0[layer - 1][i].ref_count <= EDIT_HEADROOM);
        }
    }
}

proof fn lemma_room_root(p0: Seq<Seq<Node>>, p1: Seq<Seq<Node>>, node_layer: int, rl: int)
    requires
        edit_room(p0, node_layer, rl),
        grows(p0, p1),
        counts_not_above(p0, p1, rl),
        0 <= rl < p0.len(),
    ensures
        forall|i: int| 0 <= i < p1[rl].len() ==> #[trigger] p1[rl][i].ref_count < 255,
{
    assert forall|i: int| 0 <= i < p1[rl].len() implies #[trigger] p1[rl][i].ref_count < 255 by {
        assert(p1[rl][i] == p1[rl][i]);
        if i < p0[rl].len() {
            assert(p0[rl][i].ref_count < 255);
        }
    }
}

/// Every count is at most `bound`.
pub open spec fn counts_at_most(p: Seq<Seq<Node>>, bound: int) -> bool {
    forall|l: int, i: int| 0 <= l < p.len() && 0 <= i < p[l].len() ==> #[trigger] p[l][i].ref_count <= bound
}

/// From a stored node (or the empty node) every path leads to a stored node
/// or the empty node.
proof fn lemma_descend_stored(p: Seq<Seq<Node>>, layer: int, x: int, q: Seq<u8>)
    requires
        shaped(p),
        0 <= layer < p.len(),
        x == 0 || is_stored(p, layer, x),
        q.len() <= layer,
        valid_dirs(q),
    ensures
        descend_from(p, layer, x, q) == 0 || is_stored(p, layer - q.len(), descend_from(p, layer, x, q)),
        0 <= descend_from(p, layer, x, q) < p[layer - q.len()].len(),
    decreases q.len(),
{
    if q.len() > 0 {
        assert(q[0] < 4);
        let c = p[layer][x].child_indexes[q[0] as int] as int;
        assert(c < p[layer - 1].len());
        assert(c == 0 || is_stored(p, layer - 1, c));
        lemma_valid_dirs_skip(q, 1);
        assert(q.skip(1) =~= q.drop_first());
        lemma_descend_stored(p, layer - 1, c, q.drop_first());
    } else {
        assert(p[layer].len() > 0);
    }
}

// ----------------------------------------------------------------------------
// The graph
// ----------------------------------------------------------------------------

/// The layers of nodes, lowest first.
pub struct SparseDimensionlessDAG {
    pub node_pot: Vec<Vec<Node>>,
    /// The roots held on the graph, each a stored node, with repetition.
    held: Ghost<Seq<Slot>>,
}

impl SparseDimensionlessDAG {
    /// The nodes of every layer, lowest layer first.
    pub closed spec fn pot(&self) -> Seq<Seq<Node>> {
        self.node_pot@.map_values(|l: Vec<Node>| l@)
    }

    /// How many roots are held on node `index` of `layer`.
    pub closed spec fn root_count(&self, layer: int, index: int) -> nat {
        slot_count(self.held@, (layer, index))
    }

    /// The structural invariant.
    pub closed spec fn wf(&self) -> bool {
        self.wf_with(Seq::empty())
    }

    /// Every layer starts with the empty node; every child of a node above the
    /// bottom layer is the empty node or a stored node of the layer below; no
    /// two stored nodes of a layer have the same children; and every count is
    /// the number of child slots of the layer above pointing at the node, plus
    /// the roots held on it, plus the releases in `pending`.
    #[verifier::opaque]
    closed spec fn wf_with(&self, pending: Seq<Slot>) -> bool {
        let p = self.pot();
        &&& p.len() > 0
        &&& forall|l: int| #![trigger p[l]] 0 <= l < p.len() ==> p[l].len() > 0 && no_children(p[l][0].child_indexes)
            && p[l][0].ref_count == 0
        &&& forall|l: int, j: int, c: int|
            #![trigger p[l][j].child_indexes[c]]
            0 < l < p.len() && 0 <= j < p[l].len() && 0 <= c < 4 ==> p[l][j].child_indexes[c] < p[l - 1].len() && (
            p[l][j].child_indexes[c] == 0 || !no_children(p[l - 1][p[l][j].child_indexes[c] as int].child_indexes))
        &&& forall|l: int, i: int, j: int|
            #![trigger p[l][i], p[l][j]]
            is_stored(p, l, i) && is_stored(p, l, j) && p[l][i].child_indexes == p[l][j].child_indexes ==> i == j
        &&& forall|l: int, i: int|
            #![trigger p[l][i].ref_count]
            0 <= l < p.len() && 0 < i < p[l].len() ==> p[l][i].ref_count == in_edges(p, l, i) + slot_count(
                self.held@,
                (l, i),
            ) + slot_count(pending, (l, i))
        &&& forall|a: Slot| #[trigger] self.held@.contains(a) ==> is_stored(p, a.0, a.1)
        &&& forall|a: Slot| #[trigger] pending.contains(a) ==> is_stored(p, a.0, a.1)
    }

    /// No two stored nodes of a layer have the same children: equal subtrees
    /// are one node.
    pub proof fn lemma_nodes_unique(&self, layer: int, i: int, j: int)
        requires
            self.wf(),
            is_stored(self.pot(), layer, i),
            is_stored(self.pot(), layer, j),
            self.pot()[layer][i].child_indexes == self.pot()[layer][j].child_indexes,
        ensures
            i == j,
    {
        reveal(SparseDimensionlessDAG::wf_with);
        let p = self.pot();
        assert(p[layer][i] == p[layer][i] && p[layer][j] == p[layer][j]);
    }

    /// The count of every node past index 0 is the number of child slots of
    /// the layer above that point at it plus the number of roots held on it.
    pub proof fn lemma_counts_are_references(&self, layer: int, i: int)
        requires
            self.wf(),
            0 <= layer < self.pot().len(),
            0 < i < self.pot()[layer].len(),
        ensures
            self.pot()[layer][i].ref_count == in_edges(self.pot(), layer, i) + self.root_count(layer, i),
    {
        reveal(SparseDimensionlessDAG::wf_with);
        let p = self.pot();
        assert(p[layer][i].ref_count == in_edges(p, layer, i) + slot_count(self.held@, (layer, i)) + slot_count(
            Seq::<Slot>::empty(),
            (layer, i),
        ));
    }

    /// What the invariant says of the layers.
    proof fn lemma_shape(&self)
        requires
            self.wf(),
        ensures
            self.pot().len() > 0,
            forall|l: int| #![trigger self.pot()[l]] 0 <= l < self.pot().len() ==> self.pot()[l].len() > 0 && no_children(
                self.pot()[l][0].child_indexes,
            ) && self.pot()[l][0].ref_count == 0,
            forall|l: int, j: int, c: int|
                #![trigger self.pot()[l][j].child_indexes[c]]
                0 < l < self.pot().len() && 0 <= j < self.pot()[l].len() && 0 <= c < 4 ==> self.pot()[l][j].child_indexes[c]
                    < self.pot()[l - 1].len(),
            forall|l: int| #![trigger self.node_pot@[l]] 0 <= l < self.pot().len() ==> self.node_pot@[l]@ == self.pot()[l],
            self.node_pot@.len() == self.pot().len(),
    {
        reveal(SparseDimensionlessDAG::wf_with);
    }

    /// The node at `address`.
    pub fn get_node(&self, address: &NodeAddress) -> (r: &Node)
        requires
            self.wf(),
            address.layer < self.pot().len(),
            address.index < self.pot()[address.layer as int].len(),
        ensures
            *r == self.pot()[address.layer as int][address.index as int],
    {
        proof {
            self.lemma_shape();
        }
        &self.node_pot[address.layer][address.index]
    }

    /// The child in slot `child_direction` of the node at `address`.
    fn get_node_child_index(&self, address: &NodeAddress, child_direction: usize) -> (r: usize)
        requires
            self.wf(),
            address.layer < self.pot().len(),
            address.index < self.pot()[address.layer as int].len(),
            child_direction < 4,
        ensures
            r == self.pot()[address.layer as int][address.index as int].child_indexes[child_direction as int],
    {
        proof {
            self.lemma_shape();
        }
        self.node_pot[address.layer][address.index].child_indexes[child_direction]
    }

    /// The last index of `layer` whose node has the children of `node`, or 0
    /// where no node past index 0 has them.
    fn find_node_on_layer(&self, node: &Node, layer: usize) -> (r: usize)
        requires
            self.wf(),
            layer < self.pot().len(),
        ensures
            r < self.pot()[layer as int].len(),
            r > 0 ==> self.pot()[layer as int][r as int].child_indexes == node.child_indexes,
            forall|k: int| r < k < self.pot()[layer as int].len() ==> #[trigger] self.pot()[layer as int][k].child_indexes
                != node.child_indexes,
    {
        proof {
            self.lemma_shape();
        }
        let ghost nodes = self.pot()[layer as int];
        let len = self.node_pot[layer].len();
        let mut cur_index = len - 1;
        let mut k = len;
        while k > 0
            invariant
                nodes == self.pot()[layer as int],
                self.node_pot@[layer as int]@ == nodes,
                len == nodes.len(),
                layer < self.node_pot@.len(),
                0 < len,
                k <= len,
                k > 0 ==> cur_index == k - 1,
                k == 0 ==> cur_index == 0,
                forall|j: int| k <= j < len && j > 0 ==> #[trigger] nodes[j].child_indexes != node.child_indexes,
            ensures
                cur_index < len,
                cur_index > 0 ==> nodes[cur_index as int].child_indexes == node.child_indexes,
                forall|j: int| cur_index < j < len ==> #[trigger] nodes[j].child_indexes != node.child_indexes,
            decreases k,
        {
            if Node::same_children(node, &self.node_pot[layer][k - 1]) {
                break;
            }
            if cur_index != 0 {
                cur_index -= 1;
            }
            k -= 1;
        }
        cur_index
    }

    /// The nodes met from `root` along all but the last slot of `path`: the
    /// root first, one layer down per slot.
    fn get_trail(&self, root: &NodeAddress, path: &Path) -> (trail: Vec<usize>)
        requires
            self.wf(),
            root.layer < self.pot().len(),
            root.index < self.pot()[root.layer as int].len(),
            path@.len() >= 1,
            path@.len() < usize::MAX,
            path@.len() - 1 <= root.layer,
            valid_dirs(path@),
        ensures
            trail@.len() == path@.len(),
            forall|k: int|
                0 <= k < path@.len() ==> #[trigger] trail@[k] == descend_from(self.pot(), root.layer as int, root.index as int, path@.take(k)),
            forall|k: int| 0 <= k < path@.len() ==> #[trigger] trail@[k] < self.pot()[root.layer - k].len(),
    {
        proof {
            self.lemma_shape();
        }
        let ghost p = self.pot();
        let mut trail: Vec<usize> = Vec::with_capacity(path.directions.len() + 1);
        trail.push(root.index);
        proof {
            assert(path@.take(0) =~= Seq::<u8>::empty());
        }
        let mut step: usize = 0;
        while step < path.directions.len() - 1
            invariant
                self.wf(),
                p == self.pot(),
                path.directions@ == path@,
                path@.len() >= 1,
                path@.len() - 1 <= root.layer,
                root.layer < p.len(),
                valid_dirs(path@),
                step <= path@.len() - 1,
                trail@.len() == step + 1,
                forall|k: int| 0 <= k <= step ==> #[trigger] trail@[k] == descend_from(p, root.layer as int, root.index as int, path@.take(k)),
                forall|k: int| 0 <= k <= step ==> #[trigger] trail@[k] < p[root.layer - k].len(),
            decreases path@.len() - 1 - step,
        {
            let cur_address = NodeAddress::new(root.layer - step, trail[step]);
            let child_direction = path.directions[step] as usize;
            proof {
                assert(path@[step as int] < 4);
                self.lemma_shape();
                lemma_descend_snoc(p, root.layer as int, root.index as int, path@.take(step as int), path@[step as int]);
                assert(path@.take(step as int).push(path@[step as int]) =~= path@.take(step + 1));
            }
            let next = self.get_node_child_index(&cur_address, child_direction);
            trail.push(next);
            step += 1;
        }
        trail
    }

    /// The child in the last slot of `path`, read from the node of
    /// `node_layer` whose index the rest of the path leads to from `root`;
    /// where `node_layer` is the layer that path reaches, that is the child
    /// the whole path leads to.
    pub fn read_node_child(&self, root: &NodeAddress, node_layer: usize, path: &Path) -> (r: usize)
        requires
            self.wf(),
            root.layer < self.pot().len(),
            root.index < self.pot()[root.layer as int].len(),
            path@.len() >= 1,
            path@.len() < usize::MAX,
            path@.len() - 1 <= root.layer,
            node_layer < self.pot().len(),
            node_layer == root.layer - (path@.len() - 1) || descend_from(
                self.pot(),
                root.layer as int,
                root.index as int,
                path@.take(path@.len() - 1),
            ) < self.pot()[node_layer as int].len(),
            valid_dirs(path@),
        ensures
            r == self.pot()[node_layer as int][descend_from(
                self.pot(),
                root.layer as int,
                root.index as int,
                path@.take(path@.len() - 1),
            )].child_indexes[path@.last() as int],
            node_layer == root.layer - (path@.len() - 1) ==> r == descend_from(
                self.pot(),
                root.layer as int,
                root.index as int,
                path@,
            ),
    {
        let trail = self.get_trail(root, path);
        let address = NodeAddress::new(node_layer, trail[trail.len() - 1]);
        proof {
            let n = path@.len() - 1;
            assert(path@.take(n).push(path@[n]) =~= path@);
            lemma_descend_snoc(self.pot(), root.layer as int, root.index as int, path@.take(n), path@[n]);
            assert(path@[n] < 4);
        }
        self.get_node_child_index(&address, path.directions[path.directions.len() - 1] as usize)
    }
}

impl SparseDimensionlessDAG {
    /// A graph of `max_layer + 1` layers, each holding only the empty node.
    pub fn new(max_layer: usize) -> (r: Self)
        requires
            max_layer < usize::MAX,
        ensures
            r.wf(),
            r.pot().len() == max_layer + 1,
            forall|l: int| 0 <= l <= max_layer ==> is_blank_layer(#[trigger] r.pot()[l]),
            forall|l: int, i: int| #[trigger] r.root_count(l, i) == 0,
    {
        let mut new_self = Self { node_pot: Vec::new(), held: Ghost(Seq::empty()) };
        new_self.ensure_depth(max_layer);
        proof {
            reveal(SparseDimensionlessDAG::wf_with);
            let p = new_self.pot();
            assert forall|l: int| #![trigger p[l]] 0 <= l < p.len() implies p[l].len() > 0 && no_children(p[l][0].child_indexes)
                && p[l][0].ref_count == 0 by {
                assert(is_blank_layer(p[l]));
            }
            assert forall|l: int, j: int, c: int|
                #![trigger p[l][j].child_indexes[c]]
                0 < l < p.len() && 0 <= j < p[l].len() && 0 <= c < 4 implies p[l][j].child_indexes[c] < p[l - 1].len() && (
                p[l][j].child_indexes[c] == 0 || !no_children(p[l - 1][p[l][j].child_indexes[c] as int].child_indexes)) by {
                assert(is_blank_layer(p[l]));
                assert(is_blank_layer(p[l - 1]));
            }
            assert forall|l: int, i: int| #![trigger p[l][i].ref_count] 0 <= l < p.len() && 0 < i < p[l].len() implies p[l][i].ref_count
                == in_edges(p, l, i) + slot_count(new_self.held@, (l, i)) + slot_count(Seq::<Slot>::empty(), (l, i)) by {
                assert(is_blank_layer(p[l]));
            }
            assert forall|l: int, i: int, j: int|
                #![trigger p[l][i], p[l][j]]
                is_stored(p, l, i) && is_stored(p, l, j) && p[l][i].child_indexes == p[l][j].child_indexes implies i == j by {
                assert(is_blank_layer(p[l]));
            }
        }
        new_self
    }

    /// Adds layers holding only the empty node until there is a layer
    /// `layer`.
    fn ensure_depth(&mut self, layer: usize)
        requires
            layer < usize::MAX,
        ensures
            final(self).pot().len() == (if old(self).pot().len() <= layer { layer + 1 } else { old(self).pot().len() as int }),
            forall|l: int| 0 <= l < old(self).pot().len() ==> #[trigger] final(self).pot()[l] == old(self).pot()[l],
            forall|l: int| old(self).pot().len() <= l < final(self).pot().len() ==> is_blank_layer(#[trigger] final(self).pot()[l]),
            final(self).held == old(self).held,
            old(self).wf() ==> final(self).wf(),
    {
        let ghost p0 = self.pot();
        let mut i = self.node_pot.len();
        while i <= layer
            invariant
                p0 == old(self).pot(),
                self.held == old(self).held,
                layer < usize::MAX,
                self.node_pot@.len() == i,
                i >= p0.len(),
                i > layer + 1 ==> i == p0.len(),
                forall|l: int| 0 <= l < p0.len() ==> #[trigger] self.pot()[l] == p0[l],
                forall|l: int| p0.len() <= l < self.pot().len() ==> is_blank_layer(#[trigger] self.pot()[l]),
                old(self).wf() ==> self.wf(),
            decreases layer + 1 - i,
        {
            let ghost before = *self;
            let mut blank: Vec<Node> = Vec::new();
            blank.push(Node::new_empty());
            let ghost bv = blank@;
            self.node_pot.push(blank);
            proof {
                assert(self.pot() =~= before.pot().push(bv));
                assert(is_blank_layer(self.pot()[i as int]));
                if old(self).wf() {
                    Self::lemma_add_blank_layer_wf(&before, self);
                }
            }
            i += 1;
        }
    }

    /// A blank layer on top keeps the invariant.
    proof fn lemma_add_blank_layer_wf(s0: &Self, s1: &Self)
        requires
            s0.wf(),
            s1.held == s0.held,
            s1.pot().len() == s0.pot().len() + 1,
            forall|l: int| 0 <= l < s0.pot().len() ==> #[trigger] s1.pot()[l] == s0.pot()[l],
            is_blank_layer(s1.pot()[s0.pot().len() as int]),
        ensures
            s1.wf(),
    {
        reveal(SparseDimensionlessDAG::wf_with);
        let p0 = s0.pot();
        let p = s1.pot();
        let top = p0.len() as int;
        assert forall|l: int| #![trigger p[l]] 0 <= l < p.len() implies p[l].len() > 0 && no_children(p[l][0].child_indexes)
            && p[l][0].ref_count == 0 by {
            if l < top {
                assert(p[l] == p0[l]);
            }
        }
        assert forall|l: int, j: int, c: int|
            #![trigger p[l][j].child_indexes[c]]
            0 < l < p.len() && 0 <= j < p[l].len() && 0 <= c < 4 implies p[l][j].child_indexes[c] < p[l - 1].len() && (
            p[l][j].child_indexes[c] == 0 || !no_children(p[l - 1][p[l][j].child_indexes[c] as int].child_indexes)) by {
            if l < top {
                assert(p[l] == p0[l]);
                assert(p[l - 1] == p0[l - 1]);
                assert(p0[l][j].child_indexes[c] < p0[l - 1].len());
            } else {
                assert(j == 0);
            }
        }
        assert forall|l: int, i: int, j: int|
            #![trigger p[l][i], p[l][j]]
            is_stored(p, l, i) && is_stored(p, l, j) && p[l][i].child_indexes == p[l][j].child_indexes implies i == j by {
            assert(l < top);
            assert(p[l] == p0[l]);
            assert(p0[l][i] == p[l][i]);
            assert(p0[l][j] == p[l][j]);
        }
        assert forall|l: int, i: int| #![trigger p[l][i].ref_count] 0 <= l < p.len() && 0 < i < p[l].len() implies p[l][i].ref_count
            == in_edges(p, l, i) + slot_count(s1.held@, (l, i)) + slot_count(Seq::<Slot>::empty(), (l, i)) by {
            assert(l < top);
            assert(p[l] == p0[l]);
            assert(p0[l][i].ref_count == in_edges(p0, l, i) + slot_count(s0.held@, (l, i)) + slot_count(
                Seq::<Slot>::empty(),
                (l, i),
            ));
            if l + 1 < top {
                assert(p[l + 1] == p0[l + 1]);
            } else {
                assert(in_edges(p0, l, i) == 0);
                assert(no_children(p[l + 1][0].child_indexes));
                lemma_layer_edges_empty_children(p[l + 1], i);
            }
        }
        assert forall|a: Slot| #[trigger] s1.held@.contains(a) implies is_stored(p, a.0, a.1) by {
            assert(is_stored(p0, a.0, a.1));
            assert(p[a.0] == p0[a.0]);
        }
    }

    /// The last index of `layer` past 0 that holds no node, or a new such
    /// index at the end of the layer where there is none.
    fn get_or_make_empty_index(&mut self, layer: usize) -> (r: usize)
        requires
            old(self).wf(),
            layer < old(self).pot().len(),
        ensures
            final(self).wf(),
            final(self).held == old(self).held,
            0 < r < final(self).pot()[layer as int].len(),
            no_children(final(self).pot()[layer as int][r as int].child_indexes),
            final(self).pot()[layer as int][r as int].ref_count == 0,
            final(self).pot().len() == old(self).pot().len(),
            forall|l: int| 0 <= l < old(self).pot().len() && l != layer ==> #[trigger] final(self).pot()[l] == old(self).pot()[l],
            forall|i: int| 0 <= i < old(self).pot()[layer as int].len() ==> #[trigger] final(self).pot()[layer as int][i]
                == old(self).pot()[layer as int][i],
            final(self).pot()[layer as int].len() <= old(self).pot()[layer as int].len() + 1,
            final(self).pot()[layer as int].len() == old(self).pot()[layer as int].len() || r == old(self).pot()[layer as int].len(),
    {
        let empty_node = Node::new_empty();
        let mut first_avaliable_index = self.find_node_on_layer(&empty_node, layer);
        proof {
            reveal(SparseDimensionlessDAG::wf_with);
            self.lemma_shape();
        }
        if first_avaliable_index == 0 {
            first_avaliable_index = self.node_pot[layer].len();
            let ghost before = *self;
            let ghost en = empty_node;
            self.node_pot[layer].push(empty_node);
            proof {
                assert(self.pot() =~= before.pot().update(layer as int, before.pot()[layer as int].push(en)));
                Self::lemma_push_blank_wf(&before, self, layer as int, en);
            }
        } else {
            proof {
                let p = self.pot();
                let i = first_avaliable_index as int;
                assert(no_children(p[layer as int][i].child_indexes));
                assert(p[layer as int][i].ref_count == in_edges(p, layer as int, i) + slot_count(self.held@, (layer as int, i))
                    + slot_count(Seq::<Slot>::empty(), (layer as int, i)));
                lemma_slot_count_contains(self.held@, (layer as int, i));
                if slot_count(self.held@, (layer as int, i)) > 0 {
                    assert(self.held@.contains((layer as int, i)));
                }
                if layer + 1 < p.len() {
                    assert forall|j: int, c: int| 0 <= j < p[layer + 1].len() && 0 <= c < 4 implies #[trigger] p[layer + 1][j].child_indexes[c]
                        != i by {
                        assert(p[layer + 1][j].child_indexes[c] == 0 || !no_children(
                            p[layer as int][p[layer + 1][j].child_indexes[c] as int].child_indexes,
                        ));
                    }
                    lemma_layer_edges_absent(p[layer + 1], i);
                }
            }
        }
        first_avaliable_index
    }

    /// Adding an empty slot at the end of a layer keeps the invariant.
    proof fn lemma_push_blank_wf(s0: &Self, s1: &Self, layer: int, n: Node)
        requires
            s0.wf(),
            0 <= layer < s0.pot().len(),
            no_children(n.child_indexes),
            n.ref_count == 0,
            s1.held == s0.held,
            s1.pot() == s0.pot().update(layer, s0.pot()[layer].push(n)),
        ensures
            s1.wf(),
    {
        reveal(SparseDimensionlessDAG::wf_with);
        let p0 = s0.pot();
        let p = s1.pot();
        let k = p0[layer].len() as int;
        assert forall|l: int| #![trigger p[l]] 0 <= l < p.len() implies p[l].len() > 0 && no_children(p[l][0].child_indexes)
            && p[l][0].ref_count == 0 by {
            assert(p0[l].len() > 0);
            if l == layer {
                assert(p[l][0] == p0[l][0]);
            }
        }
        assert forall|l: int, j: int, c: int|
            #![trigger p[l][j].child_indexes[c]]
            0 < l < p.len() && 0 <= j < p[l].len() && 0 <= c < 4 implies p[l][j].child_indexes[c] < p[l - 1].len() && (
            p[l][j].child_indexes[c] == 0 || !no_children(p[l - 1][p[l][j].child_indexes[c] as int].child_indexes)) by {
            if l == layer && j == k {
                assert(p[l][j] == n);
            } else {
                assert(p[l][j] == p0[l][j]);
                assert(p0[l][j].child_indexes[c] < p0[l - 1].len());
                let x = p0[l][j].child_indexes[c] as int;
                if x != 0 {
                    assert(p[l - 1][x] == p0[l - 1][x]);
                }
            }
        }
        assert forall|l: int, i: int, j: int|
            #![trigger p[l][i], p[l][j]]
            is_stored(p, l, i) && is_stored(p, l, j) && p[l][i].child_indexes == p[l][j].child_indexes implies i == j by {
            if l == layer {
                assert(i != k && j != k);
            }
            assert(p[l][i] == p0[l][i]);
            assert(p[l][j] == p0[l][j]);
        }
        if layer > 0 {
            lemma_layer_edges_push(p0[layer], n);
        }
        assert forall|l: int, i: int| #![trigger p[l][i].ref_count] 0 <= l < p.len() && 0 < i < p[l].len() implies p[l][i].ref_count
            == in_edges(p, l, i) + slot_count(s1.held@, (l, i)) + slot_count(Seq::<Slot>::empty(), (l, i)) by {
            if l == layer && i == k {
                assert(p[l][i] == n);
                lemma_slot_count_contains(s0.held@, (l, i));
                if s0.held@.contains((l, i)) {
                    assert(is_stored(p0, l, i));
                }
                if l + 1 < p.len() {
                    assert(p[l + 1] == p0[l + 1]);
                    assert forall|j: int, c: int| 0 <= j < p[l + 1].len() && 0 <= c < 4 implies #[trigger] p[l + 1][j].child_indexes[c]
                        != i by {
                        assert(p0[l + 1][j].child_indexes[c] < p0[l].len());
                    }
                    lemma_layer_edges_absent(p[l + 1], i);
                }
            } else {
                assert(p[l][i] == p0[l][i]);
                assert(p0[l][i].ref_count == in_edges(p0, l, i) + slot_count(s0.held@, (l, i)) + slot_count(
                    Seq::<Slot>::empty(),
                    (l, i),
                ));
                if l + 1 == layer {
                    assert(layer_edges(p[l + 1], i) == layer_edges(p0[l + 1], i) + occurrences(n.child_indexes, i));
                } else if l + 1 < p.len() {
                    assert(p[l + 1] == p0[l + 1]);
                }
            }
        }
        assert forall|a: Slot| #[trigger] s1.held@.contains(a) implies is_stored(p, a.0, a.1) by {
            assert(is_stored(p0, a.0, a.1));
            if a.0 == layer {
                assert(p[a.0][a.1] == p0[a.0][a.1]);
            }
        }
    }
}

/// Every stored node of `p` is stored in `p2`, with the same children, and no
/// layer is shorter.
pub open spec fn grows(p: Seq<Seq<Node>>, p2: Seq<Seq<Node>>) -> bool {
    &&& p2.len() == p.len()
    &&& forall|l: int| #![trigger p2[l]] 0 <= l < p.len() ==> p2[l].len() >= p[l].len()
    &&& forall|l: int, i: int| #[trigger] is_stored(p, l, i) ==> is_stored(p2, l, i) && p2[l][i].child_indexes
        == p[l][i].child_indexes
}

/// No count of `p2` is above its count in `p`, except on `layer`, where each
/// is at most four above, and on slots that `p` does not have, where each is
/// zero.
pub open spec fn counts_bounded(p: Seq<Seq<Node>>, p2: Seq<Seq<Node>>, layer: int) -> bool {
    forall|l: int, i: int|
        #![trigger p2[l][i]]
        0 <= l < p2.len() && 0 <= i < p2[l].len() ==> if l < p.len() && i < p[l].len() {
            p2[l][i].ref_count <= p[l][i].ref_count + (if l == layer { 4int } else { 0int })
        } else {
            p2[l][i].ref_count == 0
        }
}

impl SparseDimensionlessDAG {
    /// Stores `node` on `layer` where no stored node has its children, in the
    /// last empty slot of the layer (or a new one at its end), counting one
    /// reference on each child; hands back the index of the node with those
    /// children, 0 for a node with no child.
    fn add_node(&mut self, layer: usize, node: Node) -> (r: usize)
        requires
            old(self).wf(),
            layer < old(self).pot().len(),
            node.ref_count == 0,
            layer > 0 ==> forall|c: int| 0 <= c < 4 ==> (#[trigger] node.child_indexes[c] == 0 || is_stored(
                old(self).pot(),
                layer - 1,
                node.child_indexes[c] as int,
            )),
            layer > 0 ==> forall|i: int| 0 < i < old(self).pot()[layer - 1].len() ==> #[trigger] old(self).pot()[layer - 1][i].ref_count
                + 4 <= 255,
        ensures
            final(self).wf(),
            final(self).held == old(self).held,
            grows(old(self).pot(), final(self).pot()),
            counts_bounded(old(self).pot(), final(self).pot(), layer - 1),
            r == 0 <==> no_children(node.child_indexes),
            r != 0 ==> is_stored(final(self).pot(), layer as int, r as int) && final(self).pot()[layer as int][r as int].child_indexes
                == node.child_indexes,
            r < final(self).pot()[layer as int].len(),
    {
        proof {
            self.lemma_shape();
        }
        let empty = Node::new_empty();
        proof {
            if no_children(node.child_indexes) {
                assert(node.child_indexes =~= empty.child_indexes);
            }
        }
        if Node::same_children(&node, &empty) {
            proof {
                assert(grows(self.pot(), self.pot()));
                reveal(SparseDimensionlessDAG::wf_with);
            }
            return 0;
        }
        let mut index = self.find_node_on_layer(&node, layer);
        if index == 0 {
            let ghost s0 = *self;
            index = self.get_or_make_empty_index(layer);
            let ghost s1 = *self;
            proof {
                self.lemma_shape();
                reveal(SparseDimensionlessDAG::wf_with);
            }
            if layer != 0 {
                let mut c: usize = 0;
                while c < 4
                    invariant
                        c <= 4,
                        0 < layer < self.pot().len(),
                        self.node_pot@.len() == self.pot().len(),
                        forall|l: int| #![trigger self.node_pot@[l]] 0 <= l < self.pot().len() ==> self.node_pot@[l]@ == self.pot()[l],
                        self.held == s1.held,
                        self.pot().len() == s1.pot().len(),
                        forall|l: int| 0 <= l < s1.pot().len() && l != layer - 1 ==> #[trigger] self.pot()[l] == s1.pot()[l],
                        self.pot()[layer - 1].len() == s1.pot()[layer - 1].len(),
                        forall|i: int| 0 <= i < s1.pot()[layer - 1].len() ==> #[trigger] self.pot()[layer - 1][i].child_indexes
                            == s1.pot()[layer - 1][i].child_indexes,
                        forall|i: int| 0 <= i < s1.pot()[layer - 1].len() ==> #[trigger] self.pot()[layer - 1][i].ref_count
                            == s1.pot()[layer - 1][i].ref_count + (if i != 0 { partial_occurrences(node.child_indexes, i, c as int) } else { 0 }),
                        forall|k: int| 0 <= k < 4 ==> (#[trigger] node.child_indexes[k] == 0 || is_stored(
                            s1.pot(),
                            layer - 1,
                            node.child_indexes[k] as int,
                        )),
                        forall|i: int| 0 < i < s1.pot()[layer - 1].len() ==> #[trigger] s1.pot()[layer - 1][i].ref_count + 4 <= 255,
                    decreases 4 - c,
                {
                    let child = node.child_indexes[c];
                    if child != 0 {
                        proof {
                            assert(is_stored(s1.pot(), layer - 1, child as int));
                            lemma_partial_occurrences_bound(node.child_indexes, child as int, c as int);
                        }
                        let ghost before = self.pot();
                        let cur = self.node_pot[layer - 1][child].ref_count;
                        self.node_pot[layer - 1][child].ref_count = cur + 1;
                        proof {
                            assert(self.pot() =~= before.update(layer - 1, before[layer - 1].update(
                                child as int,
                                Node { child_indexes: before[layer - 1][child as int].child_indexes, ref_count: (cur + 1) as u8 },
                            )));
                        }
                    }
                    proof {
                        assert forall|i: int| 0 <= i < s1.pot()[layer - 1].len() implies #[trigger] self.pot()[layer - 1][i].ref_count
                            == s1.pot()[layer - 1][i].ref_count + (if i != 0 { partial_occurrences(node.child_indexes, i, c + 1) } else { 0 }) by {
                            assert(partial_occurrences(node.child_indexes, i, c + 1) == partial_occurrences(node.child_indexes, i, c as int)
                                + (if node.child_indexes[c as int] == i { 1nat } else { 0nat }));
                        }
                    }
                    c += 1;
                }
            }
            let ghost s2 = *self;
            let ghost nd = node;
            self.node_pot[layer][index] = node;
            proof {
                assert(self.pot() =~= s2.pot().update(layer as int, s2.pot()[layer as int].update(index as int, nd)));
                if layer > 0 {
                    assert forall|i: int| 0 <= i < s1.pot()[layer - 1].len() implies #[trigger] self.pot()[layer - 1][i].ref_count
                        == s1.pot()[layer - 1][i].ref_count + (if i != 0 { occurrences(nd.child_indexes, i) } else { 0 }) by {
                        lemma_partial_occurrences_bound(nd.child_indexes, i, 4);
                        assert(self.pot()[layer - 1] == s2.pot()[layer - 1]);
                    }
                }
                Self::lemma_add_node_wf(&s0, &s1, self, layer as int, index as int, nd);
            }
        } else {
            proof {
                assert(grows(self.pot(), self.pot()));
                reveal(SparseDimensionlessDAG::wf_with);
            }
        }
        index
    }
}

impl SparseDimensionlessDAG {
    /// Storing a node with new children in an empty slot, after counting its
    /// child references, keeps the invariant.
    proof fn lemma_add_node_wf(s0: &Self, s1: &Self, s3: &Self, layer: int, index: int, node: Node)
        requires
            s0.wf(),
            s1.wf(),
            s1.held == s0.held,
            s3.held == s0.held,
            0 <= layer < s0.pot().len(),
            s1.pot().len() == s0.pot().len(),
            forall|l: int| 0 <= l < s0.pot().len() && l != layer ==> #[trigger] s1.pot()[l] == s0.pot()[l],
            forall|i: int| 0 <= i < s0.pot()[layer].len() ==> #[trigger] s1.pot()[layer][i] == s0.pot()[layer][i],
            s1.pot()[layer].len() <= s0.pot()[layer].len() + 1,
            s1.pot()[layer].len() == s0.pot()[layer].len() || index == s0.pot()[layer].len(),
            0 < index < s1.pot()[layer].len(),
            no_children(s1.pot()[layer][index].child_indexes),
            s1.pot()[layer][index].ref_count == 0,
            node.ref_count == 0,
            !no_children(node.child_indexes),
            forall|k: int| 0 < k < s0.pot()[layer].len() ==> #[trigger] s0.pot()[layer][k].child_indexes != node.child_indexes,
            layer > 0 ==> forall|c: int| 0 <= c < 4 ==> (#[trigger] node.child_indexes[c] == 0 || is_stored(
                s0.pot(),
                layer - 1,
                node.child_indexes[c] as int,
            )),
            layer > 0 ==> forall|i: int| 0 < i < s0.pot()[layer - 1].len() ==> #[trigger] s0.pot()[layer - 1][i].ref_count
                + 4 <= 255,
            s3.pot().len() == s1.pot().len(),
            forall|l: int| 0 <= l < s1.pot().len() && l != layer && l != layer - 1 ==> #[trigger] s3.pot()[l] == s1.pot()[l],
            s3.pot()[layer] == s1.pot()[layer].update(index, node),
            layer > 0 ==> s3.pot()[layer - 1].len() == s1.pot()[layer - 1].len(),
            layer > 0 ==> forall|i: int| 0 <= i < s1.pot()[layer - 1].len() ==> #[trigger] s3.pot()[layer - 1][i].child_indexes
                == s1.pot()[layer - 1][i].child_indexes,
            layer > 0 ==> forall|i: int| 0 <= i < s1.pot()[layer - 1].len() ==> #[trigger] s3.pot()[layer - 1][i].ref_count
                == s1.pot()[layer - 1][i].ref_count + (if i != 0 { occurrences(node.child_indexes, i) } else { 0 }),
        ensures
            s3.wf(),
            grows(s0.pot(), s3.pot()),
            counts_bounded(s0.pot(), s3.pot(), layer - 1),
            is_stored(s3.pot(), layer, index),
    {
        reveal(SparseDimensionlessDAG::wf_with);
        let p0 = s0.pot();
        let p1 = s1.pot();
        let p = s3.pot();
        let held = s0.held@;
        assert(index >= p0[layer].len() ==> index == p0[layer].len());
        // Stored nodes of the first two states are the same, apart from nothing.
        assert forall|l: int, i: int| #[trigger] is_stored(p1, l, i) <==> is_stored(p0, l, i) by {
            if 0 <= l < p0.len() && l == layer && 0 < i < p1[l].len() && i >= p0[l].len() {
                assert(i == index);
            }
            if 0 <= l < p0.len() && l == layer && 0 < i < p0[l].len() {
                assert(p1[l][i] == p0[l][i]);
            }
        }
        assert forall|l: int, i: int| #[trigger] is_stored(p, l, i) <==> (is_stored(p1, l, i) || (l == layer && i == index)) by {
            if 0 <= l < p.len() && l == layer && 0 < i < p[l].len() && i != index {
                assert(p[l][i] == p1[l][i]);
            }
            if 0 <= l < p.len() && l == layer - 1 && 0 < i < p[l].len() {
                assert(p[l][i].child_indexes == p1[l][i].child_indexes);
            }
        }
        // No node of the layer above points at the empty slot.
        if layer + 1 < p1.len() {
            assert forall|j: int, c: int| 0 <= j < p1[layer + 1].len() && 0 <= c < 4 implies #[trigger] p1[layer + 1][j].child_indexes[c]
                != index by {
                assert(p1[layer + 1][j].child_indexes[c] == 0 || !no_children(
                    p1[layer][p1[layer + 1][j].child_indexes[c] as int].child_indexes,
                ));
            }
            lemma_layer_edges_absent(p1[layer + 1], index);
        }
        assert forall|l: int| #![trigger p[l]] 0 <= l < p.len() implies p[l].len() > 0 && no_children(p[l][0].child_indexes)
            && p[l][0].ref_count == 0 by {
            assert(p1[l].len() > 0 && no_children(p1[l][0].child_indexes) && p1[l][0].ref_count == 0);
            if l == layer {
                assert(p[l][0] == p1[l][0]);
            }
        }
        assert forall|l: int, j: int, c: int|
            #![trigger p[l][j].child_indexes[c]]
            0 < l < p.len() && 0 <= j < p[l].len() && 0 <= c < 4 implies p[l][j].child_indexes[c] < p[l - 1].len() && (
            p[l][j].child_indexes[c] == 0 || !no_children(p[l - 1][p[l][j].child_indexes[c] as int].child_indexes)) by {
            let x = p[l][j].child_indexes[c] as int;
            if l == layer && j == index {
                assert(p[l][j] == node);
                if x != 0 {
                    assert(is_stored(p0, layer - 1, x));
                    assert(is_stored(p1, layer - 1, x));
                    assert(is_stored(p, layer - 1, x));
                }
                assert(p[l - 1].len() == p1[l - 1].len());
            } else {
                assert(p[l][j].child_indexes == p1[l][j].child_indexes);
                assert(p1[l][j].child_indexes[c] < p1[l - 1].len());
                assert(p[l - 1].len() == p1[l - 1].len());
                if x != 0 {
                    assert(is_stored(p1, l - 1, x));
                    assert(is_stored(p, l - 1, x));
                }
            }
        }
        assert forall|l: int, i: int, j: int|
            #![trigger p[l][i], p[l][j]]
            is_stored(p, l, i) && is_stored(p, l, j) && p[l][i].child_indexes == p[l][j].child_indexes implies i == j by {
            if l == layer && i == index && j != index {
                assert(is_stored(p0, l, j));
                assert(p[l][j] == p1[l][j]);
                assert(p1[l][j] == p0[l][j]);
            } else if l == layer && j == index && i != index {
                assert(is_stored(p0, l, i));
                assert(p[l][i] == p1[l][i]);
                assert(p1[l][i] == p0[l][i]);
            } else if i != j {
                assert(is_stored(p1, l, i) && is_stored(p1, l, j));
                assert(p[l][i].child_indexes == p1[l][i].child_indexes);
                assert(p[l][j].child_indexes == p1[l][j].child_indexes);
            }
        }
        if layer > 0 {
            lemma_layer_edges_update(p1[layer], index, node);
        }
        assert forall|l: int, i: int| #![trigger p[l][i].ref_count] 0 <= l < p.len() && 0 < i < p[l].len() implies p[l][i].ref_count
            == in_edges(p, l, i) + slot_count(s3.held@, (l, i)) + slot_count(Seq::<Slot>::empty(), (l, i)) by {
            assert(p1[l][i].ref_count == in_edges(p1, l, i) + slot_count(held, (l, i)) + slot_count(
                Seq::<Slot>::empty(),
                (l, i),
            ));
            if l == layer && i == index {
                lemma_slot_count_contains(held, (l, i));
                if held.contains((l, i)) {
                    assert(is_stored(p1, l, i));
                }
                if l + 1 < p.len() {
                    assert(p[l + 1] == p1[l + 1]);
                }
            } else if l == layer - 1 {
                assert(layer_edges(p[layer], i) + occurrences(p1[layer][index].child_indexes, i) == layer_edges(p1[layer], i)
                    + occurrences(node.child_indexes, i));
                assert(occurrences(p1[layer][index].child_indexes, i) == 0);
            } else if l == layer {
                assert(p[l][i] == p1[l][i]);
                if l + 1 < p.len() {
                    assert(p[l + 1] == p1[l + 1]);
                }
            } else {
                assert(p[l][i] == p1[l][i]);
                if l + 1 == layer - 1 {
                    lemma_layer_edges_children(p[l + 1], p1[l + 1], i);
                } else if l + 1 < p.len() && l + 1 != layer {
                    assert(p[l + 1] == p1[l + 1]);
                }
            }
        }
        assert forall|a: Slot| #[trigger] s3.held@.contains(a) implies is_stored(p, a.0, a.1) by {
            assert(is_stored(p0, a.0, a.1));
        }
        assert forall|l: int| #![trigger p[l]] 0 <= l < p0.len() implies p[l].len() >= p0[l].len() by {
            if l == layer - 1 {
                assert(p1[l] == p0[l]);
            } else if l != layer {
                assert(p1[l] == p0[l]);
            }
        }
        assert forall|l: int, i: int| #[trigger] is_stored(p0, l, i) implies is_stored(p, l, i) && p[l][i].child_indexes
            == p0[l][i].child_indexes by {
            assert(is_stored(p1, l, i));
            if l == layer {
                assert(i != index);
                assert(p1[l][i] == p0[l][i]);
            } else {
                assert(p1[l] == p0[l]);
            }
        }
        assert forall|l: int, i: int|
            #![trigger p[l][i]]
            0 <= l < p.len() && 0 <= i < p[l].len() implies if l < p0.len() && i < p0[l].len() {
                p[l][i].ref_count <= p0[l][i].ref_count + (if l == layer - 1 { 4int } else { 0int })
            } else {
                p[l][i].ref_count == 0
            } by {
            if l == layer && i == index {
                if i < p0[l].len() {
                    assert(p1[l][i] == p0[l][i]);
                }
            } else if l == layer - 1 {
                assert(p1[l] == p0[l]);
                if i != 0 {
                    lemma_partial_occurrences_bound(node.child_indexes, i, 4);
                }
            } else if l == layer {
                if i < p0[l].len() {
                    assert(p1[l][i] == p0[l][i]);
                } else {
                    assert(i == index);
                }
            } else {
                assert(p1[l] == p0[l]);
            }
        }
    }
}

impl SparseDimensionlessDAG {
    /// Counting one reference fewer on the last pending slot keeps the
    /// invariant with that release done.
    proof fn lemma_release_wf(s0: &Self, s1: &Self, q0: Seq<Slot>)
        requires
            s0.wf_with(q0),
            q0.len() > 0,
            s1.held == s0.held,
            s1.pot().len() == s0.pot().len(),
            0 <= q0.last().0 < s0.pot().len(),
            0 < q0.last().1 < s0.pot()[q0.last().0].len(),
            forall|l: int| 0 <= l < s0.pot().len() && l != q0.last().0 ==> #[trigger] s1.pot()[l] == s0.pot()[l],
            s1.pot()[q0.last().0] == s0.pot()[q0.last().0].update(
                q0.last().1,
                Node {
                    child_indexes: s0.pot()[q0.last().0][q0.last().1].child_indexes,
                    ref_count: (s0.pot()[q0.last().0][q0.last().1].ref_count - 1) as u8,
                },
            ),
        ensures
            s1.wf_with(q0.drop_last()),
    {
        reveal(SparseDimensionlessDAG::wf_with);
        let p0 = s0.pot();
        let p = s1.pot();
        let a = q0.last();
        let q1 = q0.drop_last();
        assert(p0[a.0][a.1].ref_count == in_edges(p0, a.0, a.1) + slot_count(s0.held@, a) + slot_count(q0, a));
        assert(slot_count(q0, a) == slot_count(q1, a) + 1);
        assert forall|l: int, i: int| 0 <= l < p.len() && 0 <= i < p[l].len() implies #[trigger] p[l][i].child_indexes
            == p0[l][i].child_indexes && p[l].len() == p0[l].len() by {
            if l == a.0 {
                assert(p[l][i].child_indexes == p0[l][i].child_indexes);
            }
        }
        assert forall|l: int| 0 <= l < p.len() implies #[trigger] p[l].len() == p0[l].len() by {}
        assert forall|l: int, i: int| #[trigger] is_stored(p, l, i) <==> is_stored(p0, l, i) by {
            if 0 <= l < p.len() && 0 <= i < p[l].len() {
                assert(p[l][i].child_indexes == p0[l][i].child_indexes);
            }
        }
        assert forall|l: int, i: int| 0 <= l < p.len() implies #[trigger] in_edges(p, l, i) == in_edges(p0, l, i) by {
            if l + 1 < p.len() {
                lemma_layer_edges_children(p[l + 1], p0[l + 1], i);
            }
        }
        assert forall|l: int| #![trigger p[l]] 0 <= l < p.len() implies p[l].len() > 0 && no_children(p[l][0].child_indexes)
            && p[l][0].ref_count == 0 by {
            assert(p0[l].len() > 0 && no_children(p0[l][0].child_indexes) && p0[l][0].ref_count == 0);
            if l == a.0 {
                assert(p[l][0] == p0[l][0]);
            }
        }
        assert forall|l: int, j: int, c: int|
            #![trigger p[l][j].child_indexes[c]]
            0 < l < p.len() && 0 <= j < p[l].len() && 0 <= c < 4 implies p[l][j].child_indexes[c] < p[l - 1].len() && (
            p[l][j].child_indexes[c] == 0 || !no_children(p[l - 1][p[l][j].child_indexes[c] as int].child_indexes)) by {
            assert(p[l][j].child_indexes == p0[l][j].child_indexes);
            assert(p0[l][j].child_indexes[c] < p0[l - 1].len());
            let x = p0[l][j].child_indexes[c] as int;
            if x != 0 {
                assert(p[l - 1][x].child_indexes == p0[l - 1][x].child_indexes);
            }
        }
        assert forall|l: int, i: int, j: int|
            #![trigger p[l][i], p[l][j]]
            is_stored(p, l, i) && is_stored(p, l, j) && p[l][i].child_indexes == p[l][j].child_indexes implies i == j by {
            assert(p[l][i].child_indexes == p0[l][i].child_indexes);
            assert(p[l][j].child_indexes == p0[l][j].child_indexes);
            assert(is_stored(p0, l, i) && is_stored(p0, l, j));
        }
        assert forall|l: int, i: int| #![trigger p[l][i].ref_count] 0 <= l < p.len() && 0 < i < p[l].len() implies p[l][i].ref_count
            == in_edges(p, l, i) + slot_count(s1.held@, (l, i)) + slot_count(q1, (l, i)) by {
            assert(p0[l][i].ref_count == in_edges(p0, l, i) + slot_count(s0.held@, (l, i)) + slot_count(q0, (l, i)));
            assert(slot_count(q0, (l, i)) == slot_count(q1, (l, i)) + (if q0.last() == (l, i) { 1nat } else { 0nat }));
            assert(in_edges(p, l, i) == in_edges(p0, l, i));
            if (l, i) != a {
                assert(p[l][i] == p0[l][i]);
            }
        }
        assert forall|x: Slot| #[trigger] s1.held@.contains(x) implies is_stored(p, x.0, x.1) by {
            assert(is_stored(p0, x.0, x.1));
        }
        assert forall|x: Slot| #[trigger] q1.contains(x) implies is_stored(p, x.0, x.1) by {
            let j = choose|j: int| 0 <= j < q1.len() && q1[j] == x;
            assert(q0[j] == x);
            assert(q0.contains(x));
            assert(is_stored(p0, x.0, x.1));
        }
    }

    /// Emptying a stored node that nothing references keeps the invariant,
    /// with its child references (above the bottom layer) still to release.
    proof fn lemma_free_wf(s0: &Self, s1: &Self, q0: Seq<Slot>, l: int, i: int, e: Node)
        requires
            s0.wf_with(q0),
            is_stored(s0.pot(), l, i),
            s0.pot()[l][i].ref_count == 0,
            no_children(e.child_indexes),
            e.ref_count == 0,
            s1.held == s0.held,
            s1.pot() == s0.pot().update(l, s0.pot()[l].update(i, e)),
        ensures
            s1.wf_with(q0 + (if l > 0 { kid_slots(l, s0.pot()[l][i].child_indexes, 4) } else { Seq::empty() })),
    {
        reveal(SparseDimensionlessDAG::wf_with);
        let p0 = s0.pot();
        let p = s1.pot();
        let node = p0[l][i].child_indexes;
        let kids: Seq<Slot> = if l > 0 { kid_slots(l, node, 4) } else { Seq::empty() };
        let q1 = q0 + kids;
        assert(p0[l][i].ref_count == in_edges(p0, l, i) + slot_count(s0.held@, (l, i)) + slot_count(q0, (l, i)));
        lemma_slot_count_contains(s0.held@, (l, i));
        lemma_slot_count_contains(q0, (l, i));
        lemma_slot_count_concat(q0, kids);
        lemma_kid_slots(l, node, 4);
        // Nothing on the layer above points at the freed node.
        if l + 1 < p0.len() {
            assert forall|j: int, c: int| 0 <= j < p0[l + 1].len() && 0 <= c < 4 implies #[trigger] p0[l + 1][j].child_indexes[c]
                != i by {
                lemma_layer_edges_parent(p0[l + 1], j, i);
                if p0[l + 1][j].child_indexes[c] == i {
                    assert(occurrences(p0[l + 1][j].child_indexes, i) >= 1);
                }
            }
        }
        if l > 0 {
            lemma_layer_edges_update(p0[l], i, e);
        }
        assert forall|x: int, y: int| #[trigger] is_stored(p, x, y) <==> (is_stored(p0, x, y) && (x, y) != (l, i)) by {
            if 0 <= x < p.len() && 0 <= y < p[x].len() && (x, y) != (l, i) {
                assert(p[x][y] == p0[x][y]);
            }
        }
        assert forall|x: int| #![trigger p[x]] 0 <= x < p.len() implies p[x].len() > 0 && no_children(p[x][0].child_indexes)
            && p[x][0].ref_count == 0 by {
            assert(p0[x].len() > 0 && no_children(p0[x][0].child_indexes) && p0[x][0].ref_count == 0);
            if x == l {
                assert(p[x][0] == p0[x][0]);
            }
        }
        assert forall|x: int, j: int, c: int|
            #![trigger p[x][j].child_indexes[c]]
            0 < x < p.len() && 0 <= j < p[x].len() && 0 <= c < 4 implies p[x][j].child_indexes[c] < p[x - 1].len() && (
            p[x][j].child_indexes[c] == 0 || !no_children(p[x - 1][p[x][j].child_indexes[c] as int].child_indexes)) by {
            if x == l && j == i {
                assert(p[x][j] == e);
            } else {
                assert(p[x][j] == p0[x][j]);
                assert(p0[x][j].child_indexes[c] < p0[x - 1].len());
                let y = p0[x][j].child_indexes[c] as int;
                if y != 0 {
                    assert(is_stored(p0, x - 1, y));
                    if x - 1 == l {
                        assert(y != i);
                    }
                    assert(is_stored(p, x - 1, y));
                }
            }
        }
        assert forall|x: int, a: int, b: int|
            #![trigger p[x][a], p[x][b]]
            is_stored(p, x, a) && is_stored(p, x, b) && p[x][a].child_indexes == p[x][b].child_indexes implies a == b by {
            assert(p[x][a] == p0[x][a]);
            assert(p[x][b] == p0[x][b]);
        }
        assert forall|x: int, y: int| #![trigger p[x][y].ref_count] 0 <= x < p.len() && 0 < y < p[x].len() implies p[x][y].ref_count
            == in_edges(p, x, y) + slot_count(s1.held@, (x, y)) + slot_count(q1, (x, y)) by {
            assert(p0[x][y].ref_count == in_edges(p0, x, y) + slot_count(s0.held@, (x, y)) + slot_count(q0, (x, y)));
            assert(slot_count(q1, (x, y)) == slot_count(q0, (x, y)) + slot_count(kids, (x, y)));
            if x == l && y == i {
                assert(p[x][y] == e);
                if x + 1 < p.len() {
                    assert(p[x + 1] == p0[x + 1]);
                    lemma_layer_edges_absent(p0[x + 1], i);
                }
            } else if x == l - 1 {
                assert(p[x][y] == p0[x][y]);
                assert(layer_edges(p[l], y) + occurrences(node, y) == layer_edges(p0[l], y) + occurrences(e.child_indexes, y));
                lemma_partial_occurrences_bound(node, y, 4);
            } else {
                assert(p[x][y] == p0[x][y]);
                if x + 1 < p.len() {
                    assert(p[x + 1] == p0[x + 1]);
                }
                if l == 0 {
                    assert(kids.len() == 0);
                }
            }
        }
        assert forall|a: Slot| #[trigger] s1.held@.contains(a) implies is_stored(p, a.0, a.1) by {
            assert(is_stored(p0, a.0, a.1));
        }
        assert forall|a: Slot| #[trigger] q1.contains(a) implies is_stored(p, a.0, a.1) by {
            let j = choose|j: int| 0 <= j < q1.len() && q1[j] == a;
            if j < q0.len() {
                assert(q0[j] == a);
                assert(q0.contains(a));
                assert(is_stored(p0, a.0, a.1));
            } else {
                assert(kids[j - q0.len()] == a);
                let k = choose|k: int| 0 <= k < 4 && node[k] != 0 && kids[j - q0.len()].1 == node[k];
                assert(p0[l][i].child_indexes[k] < p0[l - 1].len());
                assert(is_stored(p0, l - 1, node[k] as int));
            }
        }
    }
}

/// Every stored node of `p2` is stored in `p`, with the same children, and
/// the layers have the same lengths.
pub open spec fn shrinks(p: Seq<Seq<Node>>, p2: Seq<Seq<Node>>) -> bool {
    &&& p2.len() == p.len()
    &&& forall|l: int| #![trigger p2[l]] 0 <= l < p.len() ==> p2[l].len() == p[l].len()
    &&& forall|l: int, i: int| #[trigger] is_stored(p2, l, i) ==> is_stored(p, l, i) && p2[l][i].child_indexes
        == p[l][i].child_indexes
}

impl SparseDimensionlessDAG {
    /// Releases one reference on `address`: its count drops by one, and each
    /// node whose count reaches zero is emptied, its children above the
    /// bottom layer released in turn.
    fn dec_ref_count(&mut self, address: &NodeAddress)
        requires
            address.index != 0 ==> old(self).wf_with(seq![(address.layer as int, address.index as int)]),
            address.index == 0 ==> old(self).wf(),
        ensures
            final(self).wf(),
            final(self).held == old(self).held,
            shrinks(old(self).pot(), final(self).pot()),
    {
        let mut queue: Vec<NodeAddress> = Vec::new();
        if address.index != 0 {
            queue.push(NodeAddress::new(address.layer, address.index));
        }
        proof {
            if address.index != 0 {
                assert(queue_slots(queue@) =~= seq![(address.layer as int, address.index as int)]);
            } else {
                assert(queue_slots(queue@) =~= Seq::<Slot>::empty());
            }
        }
        while queue.len() != 0
            invariant
                self.wf_with(queue_slots(queue@)),
                self.held == old(self).held,
                shrinks(old(self).pot(), self.pot()),
            decreases queue_weight(queue@),
        {
            let ghost q = queue@;
            let ghost s0 = *self;
            let cur_address = queue.pop().unwrap();
            let ghost a = (cur_address.layer as int, cur_address.index as int);
            proof {
                assert(q.last() == cur_address);
                assert(queue@ =~= q.drop_last());
                assert(queue_slots(q).last() == a);
                assert(queue_slots(q).drop_last() =~= queue_slots(queue@));
                assert(queue_slots(q).contains(a));
                reveal(SparseDimensionlessDAG::wf_with);
                self.lemma_shape_with(queue_slots(q));
                assert(is_stored(self.pot(), a.0, a.1));
                assert(self.pot()[a.0][a.1].ref_count == in_edges(self.pot(), a.0, a.1) + slot_count(self.held@, a)
                    + slot_count(queue_slots(q), a));
                lemma_slot_count_contains(queue_slots(q), a);
            }
            let layer = cur_address.layer;
            let index = cur_address.index;
            let count = self.node_pot[layer][index].ref_count;
            self.node_pot[layer][index].ref_count = count - 1;
            proof {
                assert(self.pot() =~= s0.pot().update(a.0, s0.pot()[a.0].update(
                    a.1,
                    Node { child_indexes: s0.pot()[a.0][a.1].child_indexes, ref_count: (count - 1) as u8 },
                )));
                Self::lemma_release_wf(&s0, self, queue_slots(q));
                lemma_five_pow_pos(layer as nat);
                assert(queue_weight(q) == queue_weight(queue@) + five_pow(layer as nat));
                assert(shrinks(old(self).pot(), self.pot())) by {
                    assert forall|l: int, i: int| #[trigger] is_stored(self.pot(), l, i) implies is_stored(old(self).pot(), l, i)
                        && self.pot()[l][i].child_indexes == old(self).pot()[l][i].child_indexes by {
                        assert(self.pot()[l][i].child_indexes == s0.pot()[l][i].child_indexes);
                        assert(is_stored(s0.pot(), l, i));
                    }
                }
            }
            if self.node_pot[layer][index].ref_count == 0 {
                let children = self.node_pot[layer][index].child_indexes;
                let ghost q1 = queue@;
                let ghost weight_before = queue_weight(q1);
                if layer != 0 {
                    let mut c: usize = 0;
                    while c < 4
                        invariant
                            c <= 4,
                            layer > 0,
                            queue_slots(queue@) == queue_slots(q1) + kid_slots(layer as int, children, c as int),
                            queue_weight(queue@) <= weight_before + c * five_pow((layer - 1) as nat),
                        decreases 4 - c,
                    {
                        if children[c] != 0 {
                            let ghost before = queue@;
                            queue.push(NodeAddress::new(layer - 1, children[c]));
                            proof {
                                assert(queue_slots(queue@) =~= queue_slots(before).push((layer - 1, children[c as int] as int)));
                                assert(kid_slots(layer as int, children, c + 1) =~= kid_slots(layer as int, children, c as int).push(
                                    (layer - 1, children[c as int] as int),
                                ));
                                assert(queue@.drop_last() =~= before);
                                assert(queue_weight(queue@) == queue_weight(before) + five_pow((layer - 1) as nat));
                                let f = five_pow((layer - 1) as nat);
                                assert((c + 1) * f == c * f + f) by (nonlinear_arith);
                            }
                        } else {
                            proof {
                                assert(kid_slots(layer as int, children, c + 1) =~= kid_slots(layer as int, children, c as int));
                                let f = five_pow((layer - 1) as nat);
                                assert((c + 1) * f == c * f + f) by (nonlinear_arith);
                            }
                        }
                        c += 1;
                    }
                    proof {
                        assert(five_pow(layer as nat) == 5 * five_pow((layer - 1) as nat));
                        lemma_five_pow_pos((layer - 1) as nat);
                        assert(weight_before == queue_weight(q1));
                        assert(queue_weight(q) == weight_before + five_pow(layer as nat));
                        assert(queue_weight(queue@) < queue_weight(q));
                    }
                } else {
                    proof {
                        assert(queue_slots(queue@) =~= queue_slots(q1) + Seq::<Slot>::empty());
                        assert(queue_weight(queue@) < queue_weight(q));
                    }
                }
                let ghost s1 = *self;
                let e = Node::new_empty();
                let ghost eg = e;
                self.node_pot[layer][index] = e;
                proof {
                    assert(self.pot() =~= s1.pot().update(a.0, s1.pot()[a.0].update(a.1, eg)));
                    Self::lemma_free_wf(&s1, self, queue_slots(q1), a.0, a.1, eg);
                    assert(shrinks(old(self).pot(), self.pot())) by {
                        assert forall|l: int, i: int| #[trigger] is_stored(self.pot(), l, i) implies is_stored(
                            old(self).pot(),
                            l,
                            i,
                        ) && self.pot()[l][i].child_indexes == old(self).pot()[l][i].child_indexes by {
                            assert((l, i) != a);
                            assert(self.pot()[l][i] == s1.pot()[l][i]);
                            assert(is_stored(s1.pot(), l, i));
                        }
                    }
                }
            }
        }
        proof {
            assert(queue_slots(queue@) =~= Seq::<Slot>::empty());
        }
    }

    /// What the invariant with pending releases says of the layers.
    proof fn lemma_shape_with(&self, pending: Seq<Slot>)
        requires
            self.wf_with(pending),
        ensures
            forall|l: int| #![trigger self.node_pot@[l]] 0 <= l < self.pot().len() ==> self.node_pot@[l]@ == self.pot()[l],
            self.node_pot@.len() == self.pot().len(),
            forall|a: Slot| #[trigger] pending.contains(a) ==> is_stored(self.pot(), a.0, a.1),
    {
        reveal(SparseDimensionlessDAG::wf_with);
    }
}

impl SparseDimensionlessDAG {
    /// What the invariant says of the shape and of the roots.
    proof fn lemma_wf_shaped(&self)
        requires
            self.wf(),
        ensures
            shaped(self.pot()),
            forall|l: int, i: int| #[trigger] self.root_count(l, i) > 0 ==> is_stored(self.pot(), l, i),
    {
        reveal(SparseDimensionlessDAG::wf_with);
        let p = self.pot();
        assert forall|l: int, j: int, c: int|
            #![trigger p[l][j].child_indexes[c]]
            0 < l < p.len() && 0 <= j < p[l].len() && 0 <= c < 4 implies p[l][j].child_indexes[c] < p[l - 1].len() && (
            p[l][j].child_indexes[c] == 0 || is_stored(p, l - 1, p[l][j].child_indexes[c] as int)) by {}
        assert forall|l: int, i: int| #[trigger] self.root_count(l, i) > 0 implies is_stored(self.pot(), l, i) by {
            lemma_slot_count_contains(self.held@, (l, i));
        }
    }

    /// Holding one more root on a stored node keeps the invariant.
    proof fn lemma_add_root_wf(s0: &Self, s1: &Self, a: Slot)
        requires
            s0.wf(),
            is_stored(s0.pot(), a.0, a.1),
            s1.pot() == s0.pot().update(a.0, s0.pot()[a.0].update(
                a.1,
                Node { child_indexes: s0.pot()[a.0][a.1].child_indexes, ref_count: (s0.pot()[a.0][a.1].ref_count + 1) as u8 },
            )),
            s0.pot()[a.0][a.1].ref_count < 255,
            s1.held@ == s0.held@.push(a),
        ensures
            s1.wf(),
    {
        reveal(SparseDimensionlessDAG::wf_with);
        let p0 = s0.pot();
        let p = s1.pot();
        lemma_slot_count_push(s0.held@, a);
        assert forall|l: int, i: int| 0 <= l < p.len() && 0 <= i < p[l].len() implies #[trigger] p[l][i].child_indexes
            == p0[l][i].child_indexes by {}
        assert forall|l: int, i: int| #[trigger] is_stored(p, l, i) <==> is_stored(p0, l, i) by {
            if 0 <= l < p.len() && 0 <= i < p[l].len() {
                assert(p[l][i].child_indexes == p0[l][i].child_indexes);
            }
        }
        assert forall|l: int, i: int| 0 <= l < p.len() implies #[trigger] in_edges(p, l, i) == in_edges(p0, l, i) by {
            if l + 1 < p.len() {
                lemma_layer_edges_children(p[l + 1], p0[l + 1], i);
            }
        }
        assert forall|l: int| #![trigger p[l]] 0 <= l < p.len() implies p[l].len() > 0 && no_children(p[l][0].child_indexes)
            && p[l][0].ref_count == 0 by {
            assert(p0[l].len() > 0 && no_children(p0[l][0].child_indexes) && p0[l][0].ref_count == 0);
            if l == a.0 {
                assert(p[l][0] == p0[l][0]);
            }
        }
        assert forall|l: int, j: int, c: int|
            #![trigger p[l][j].child_indexes[c]]
            0 < l < p.len() && 0 <= j < p[l].len() && 0 <= c < 4 implies p[l][j].child_indexes[c] < p[l - 1].len() && (
            p[l][j].child_indexes[c] == 0 || !no_children(p[l - 1][p[l][j].child_indexes[c] as int].child_indexes)) by {
            assert(p[l][j].child_indexes == p0[l][j].child_indexes);
            assert(p0[l][j].child_indexes[c] < p0[l - 1].len());
            let x = p0[l][j].child_indexes[c] as int;
            if x != 0 {
                assert(p[l - 1][x].child_indexes == p0[l - 1][x].child_indexes);
            }
        }
        assert forall|l: int, i: int, j: int|
            #![trigger p[l][i], p[l][j]]
            is_stored(p, l, i) && is_stored(p, l, j) && p[l][i].child_indexes == p[l][j].child_indexes implies i == j by {
            assert(p[l][i].child_indexes == p0[l][i].child_indexes);
            assert(p[l][j].child_indexes == p0[l][j].child_indexes);
        }
        assert forall|l: int, i: int| #![trigger p[l][i].ref_count] 0 <= l < p.len() && 0 < i < p[l].len() implies p[l][i].ref_count
            == in_edges(p, l, i) + slot_count(s1.held@, (l, i)) + slot_count(Seq::<Slot>::empty(), (l, i)) by {
            assert(p0[l][i].ref_count == in_edges(p0, l, i) + slot_count(s0.held@, (l, i)) + slot_count(
                Seq::<Slot>::empty(),
                (l, i),
            ));
            if (l, i) != a {
                assert(p[l][i] == p0[l][i]);
            }
        }
        assert forall|x: Slot| #[trigger] s1.held@.contains(x) implies is_stored(p, x.0, x.1) by {
            if x != a {
                let j = choose|j: int| 0 <= j < s1.held@.len() && s1.held@[j] == x;
                assert(s0.held@[j] == x);
                assert(s0.held@.contains(x));
            }
        }
    }

    /// Taking one root off leaves the invariant with its release pending.
    proof fn lemma_hand_over_wf(s0: &Self, s1: &Self, k: int)
        requires
            s0.wf(),
            0 <= k < s0.held@.len(),
            s1.node_pot == s0.node_pot,
            s1.held@ == s0.held@.remove(k),
        ensures
            s1.wf_with(seq![s0.held@[k]]),
    {
        reveal(SparseDimensionlessDAG::wf_with);
        let p = s1.pot();
        let q = seq![s0.held@[k]];
        lemma_slot_count_remove(s0.held@, k);
        assert(q.drop_last() =~= Seq::<Slot>::empty());
        assert forall|l: int, i: int| #![trigger p[l][i].ref_count] 0 <= l < p.len() && 0 < i < p[l].len() implies p[l][i].ref_count
            == in_edges(p, l, i) + slot_count(s1.held@, (l, i)) + slot_count(q, (l, i)) by {
            assert(p[l][i].ref_count == in_edges(p, l, i) + slot_count(s0.held@, (l, i)) + slot_count(
                Seq::<Slot>::empty(),
                (l, i),
            ));
            assert(slot_count(q, (l, i)) == slot_count(q.drop_last(), (l, i)) + (if q.last() == (l, i) { 1nat } else { 0nat }));
        }
        assert forall|x: Slot| #[trigger] s1.held@.contains(x) implies is_stored(p, x.0, x.1) by {
            let j = choose|j: int| 0 <= j < s1.held@.len() && s1.held@[j] == x;
            if j < k {
                assert(s0.held@[j] == x);
            } else {
                assert(s0.held@[j + 1] == x);
            }
            assert(s0.held@.contains(x));
        }
        assert forall|x: Slot| #[trigger] q.contains(x) implies is_stored(p, x.0, x.1) by {
            assert(q[0] == x);
            assert(s0.held@.contains(s0.held@[k]));
        }
    }

    /// Counts one more reference on `address`, unless it is the empty node.
    fn inc_ref_count(&mut self, address: &NodeAddress)
        requires
            address.layer < old(self).pot().len(),
            address.index < old(self).pot()[address.layer as int].len(),
            address.index != 0 ==> old(self).pot()[address.layer as int][address.index as int].ref_count < 255,
        ensures
            final(self).held == old(self).held,
            address.index != 0 ==> final(self).pot() == old(self).pot().update(
                address.layer as int,
                old(self).pot()[address.layer as int].update(
                    address.index as int,
                    Node {
                        child_indexes: old(self).pot()[address.layer as int][address.index as int].child_indexes,
                        ref_count: (old(self).pot()[address.layer as int][address.index as int].ref_count + 1) as u8,
                    },
                ),
            ),
            address.index == 0 ==> final(self).pot() == old(self).pot(),
    {
        if address.index != 0 {
            let ghost p0 = self.pot();
            let cur = self.node_pot[address.layer][address.index].ref_count;
            self.node_pot[address.layer][address.index].ref_count = cur + 1;
            proof {
                assert(self.pot() =~= p0.update(
                    address.layer as int,
                    p0[address.layer as int].update(
                        address.index as int,
                        Node { child_indexes: p0[address.layer as int][address.index as int].child_indexes, ref_count: (cur + 1) as u8 },
                    ),
                ));
            }
        }
    }

    /// Stores the node at `address` with slot `child_direction` set to
    /// `new_index`, as `add_node` does, and hands back its index.
    fn add_modified_node(&mut self, address: &NodeAddress, child_direction: usize, new_index: usize) -> (r: usize)
        requires
            old(self).wf(),
            address.layer < old(self).pot().len(),
            address.index < old(self).pot()[address.layer as int].len(),
            address.index == 0 || is_stored(old(self).pot(), address.layer as int, address.index as int),
            child_direction < 4,
            address.layer > 0 ==> (new_index == 0 || is_stored(old(self).pot(), address.layer - 1, new_index as int)),
            address.layer > 0 ==> forall|i: int| 0 < i < old(self).pot()[address.layer - 1].len() ==> #[trigger] old(self).pot()[address.layer - 1][i].ref_count
                + 4 <= 255,
        ensures
            final(self).wf(),
            final(self).held == old(self).held,
            grows(old(self).pot(), final(self).pot()),
            counts_bounded(old(self).pot(), final(self).pot(), address.layer - 1),
            r == 0 <==> forall|k: int| 0 <= k < 4 ==> #[trigger] replaced(
                old(self).pot()[address.layer as int][address.index as int].child_indexes,
                child_direction as int,
                new_index as int,
                k,
            ) == 0,
            r != 0 ==> is_stored(final(self).pot(), address.layer as int, r as int) && forall|k: int| 0 <= k < 4 ==> #[trigger] final(self).pot()[address.layer as int][r as int].child_indexes[k]
                == replaced(
                old(self).pot()[address.layer as int][address.index as int].child_indexes,
                child_direction as int,
                new_index as int,
                k,
            ),
            r < final(self).pot()[address.layer as int].len(),
    {
        let ghost c0 = self.pot()[address.layer as int][address.index as int].child_indexes;
        let mut mod_node = self.get_node(address).clone_without_ref();
        mod_node.child_indexes.set(child_direction, new_index);
        proof {
            self.lemma_wf_shaped();
            assert forall|k: int| 0 <= k < 4 implies #[trigger] mod_node.child_indexes[k] == replaced(c0, child_direction as int, new_index as int, k) by {}
            if address.layer > 0 {
                assert forall|c: int| 0 <= c < 4 implies (#[trigger] mod_node.child_indexes[c] == 0 || is_stored(
                    self.pot(),
                    address.layer - 1,
                    mod_node.child_indexes[c] as int,
                )) by {
                    if c != child_direction {
                        assert(mod_node.child_indexes[c] == c0[c]);
                    }
                }
            }
            assert(no_children(mod_node.child_indexes) <==> forall|k: int| 0 <= k < 4 ==> #[trigger] replaced(c0, child_direction as int, new_index as int, k) == 0) by {
                if no_children(mod_node.child_indexes) {
                    assert forall|k: int| 0 <= k < 4 implies #[trigger] replaced(c0, child_direction as int, new_index as int, k) == 0 by {
                        assert(mod_node.child_indexes[k] == 0);
                    }
                }
                if forall|k: int| 0 <= k < 4 ==> #[trigger] replaced(c0, child_direction as int, new_index as int, k) == 0 {
                    assert(replaced(c0, child_direction as int, new_index as int, 0) == 0);
                    assert(replaced(c0, child_direction as int, new_index as int, 1) == 0);
                    assert(replaced(c0, child_direction as int, new_index as int, 2) == 0);
                    assert(replaced(c0, child_direction as int, new_index as int, 3) == 0);
                }
            }
        }
        let ghost mc = mod_node.child_indexes;
        let r = self.add_node(address.layer, mod_node);
        proof {
            if r != 0 {
                assert forall|k: int| 0 <= k < 4 implies #[trigger] self.pot()[address.layer as int][r as int].child_indexes[k]
                    == replaced(c0, child_direction as int, new_index as int, k) by {
                    assert(mc[k] == replaced(c0, child_direction as int, new_index as int, k));
                }
            }
        }
        r
    }

    /// Moves a root from `giver` to `reciever` (the empty node holds no root).
    fn transfer_reference(&mut self, giver: &NodeAddress, reciever: &NodeAddress)
        requires
            old(self).wf(),
            reciever.layer < old(self).pot().len(),
            reciever.index < old(self).pot()[reciever.layer as int].len(),
            reciever.index != 0 ==> is_stored(old(self).pot(), reciever.layer as int, reciever.index as int)
                && old(self).pot()[reciever.layer as int][reciever.index as int].ref_count < 255,
            giver.index != 0 ==> old(self).root_count(giver.layer as int, giver.index as int) > 0,
        ensures
            final(self).wf(),
            shrinks(old(self).pot(), final(self).pot()),
            forall|l: int, i: int| #[trigger] final(self).root_count(l, i) + (if giver.index != 0 && (l, i) == (
                giver.layer as int,
                giver.index as int,
            ) { 1nat } else { 0nat }) == old(self).root_count(l, i) + (if reciever.index != 0 && (l, i) == (
                reciever.layer as int,
                reciever.index as int,
            ) { 1nat } else { 0nat }),
    {
        let ghost s0 = *self;
        let ghost ra = (reciever.layer as int, reciever.index as int);
        let ghost ga = (giver.layer as int, giver.index as int);
        self.inc_ref_count(reciever);
        proof {
            if reciever.index != 0 {
                let s1 = *self;
                self.held@ = self.held@.push(ra);
                Self::lemma_add_root_wf(&s0, self, ra);
                lemma_slot_count_push(s0.held@, ra);
            } else {
                reveal(SparseDimensionlessDAG::wf_with);
            }
            assert(self.wf());
        }
        let ghost s2 = *self;
        proof {
            assert(shrinks(s0.pot(), s2.pot())) by {
                assert forall|l: int, i: int| #[trigger] is_stored(s2.pot(), l, i) implies is_stored(s0.pot(), l, i)
                    && s2.pot()[l][i].child_indexes == s0.pot()[l][i].child_indexes by {}
            }
            if giver.index != 0 {
                assert(slot_count(self.held@, ga) > 0) by {
                    if reciever.index != 0 {
                        assert(slot_count(self.held@, ga) == slot_count(s0.held@, ga) + (if ra == ga { 1nat } else { 0nat }));
                    }
                }
                lemma_slot_count_contains(self.held@, ga);
                let k = choose|k: int| 0 <= k < self.held@.len() && self.held@[k] == ga;
                let s3 = *self;
                self.held@ = self.held@.remove(k);
                Self::lemma_hand_over_wf(&s3, self, k);
                lemma_slot_count_remove(s3.held@, k);
            }
        }
        let ghost s4 = *self;
        self.dec_ref_count(giver);
        proof {
            assert forall|l: int, i: int| #[trigger] is_stored(self.pot(), l, i) implies is_stored(s0.pot(), l, i)
                && self.pot()[l][i].child_indexes == s0.pot()[l][i].child_indexes by {
                assert(is_stored(s4.pot(), l, i));
            }
            assert forall|l: int| #![trigger self.pot()[l]] 0 <= l < s0.pot().len() implies self.pot()[l].len() == s0.pot()[l].len() by {
                assert(s4.pot()[l].len() == s0.pot()[l].len());
            }
            assert forall|l: int, i: int| #[trigger] self.root_count(l, i) + (if giver.index != 0 && (l, i) == ga { 1nat } else {
                0nat
            }) == s0.root_count(l, i) + (if reciever.index != 0 && (l, i) == ra { 1nat } else { 0nat }) by {
                assert(self.held@ == s4.held@);
                if reciever.index != 0 {
                    assert(slot_count(s2.held@, (l, i)) == slot_count(s0.held@, (l, i)) + (if ra == (l, i) { 1nat } else { 0nat }));
                } else {
                    assert(s2.held@ == s0.held@);
                }
                if giver.index != 0 {
                    assert(slot_count(s2.held@, (l, i)) == slot_count(s4.held@, (l, i)) + (if ga == (l, i) { 1nat } else { 0nat }));
                } else {
                    assert(s4.held@ == s2.held@);
                }
            }
        }
    }
}

/// One step of `set_node_child`, in the terms of its loop: rebuilding the
/// node of the trail on layer `node_layer + step` moves the rebuilt part of
/// the path one layer up.
proof fn lemma_rebuild_step(
    p0: Seq<Seq<Node>>,
    p_prev: Seq<Seq<Node>>,
    p_new: Seq<Seq<Node>>,
    dirs: Seq<u8>,
    trail: Seq<usize>,
    rl: int,
    ri: int,
    steps: int,
    step: int,
    node_layer: int,
    child_prev: int,
    r: int,
    target: int,
)
    requires
        shaped(p0),
        shaped(p_prev),
        shaped(p_new),
        grows(p0, p_prev),
        grows(p_prev, p_new),
        0 <= rl < p0.len(),
        ri == 0 || is_stored(p0, rl, ri),
        steps == dirs.len() - 1,
        0 <= steps <= rl,
        node_layer == rl - steps,
        valid_dirs(dirs),
        0 <= step <= steps,
        trail.len() == dirs.len(),
        forall|k: int| 0 <= k < dirs.len() ==> #[trigger] trail[k] == descend_from(p0, rl, ri, dirs.take(k)),
        node_layer + step > 0 ==> (child_prev == 0 || is_stored(p_prev, node_layer + step - 1, child_prev)),
        descend_from(p_prev, node_layer + step - 1, child_prev, dirs.skip(steps + 1 - step)) == target,
        forall|q: Seq<u8>, j: int|
            #![trigger diverges_at(q, dirs.skip(steps + 1 - step), j)]
            diverges_at(q, dirs.skip(steps + 1 - step), j) && q.len() <= node_layer + step && valid_dirs(q) ==> descend_from(
                p_prev,
                node_layer + step - 1,
                child_prev,
                q,
            ) == descend_from(p0, node_layer + step - 1, trail[steps + 1 - step] as int, q),
        r == 0 <==> forall|k: int| 0 <= k < 4 ==> #[trigger] replaced(
            p_prev[node_layer + step][trail[steps - step] as int].child_indexes,
            dirs[steps - step] as int,
            child_prev,
            k,
        ) == 0,
        r != 0 ==> is_stored(p_new, node_layer + step, r) && forall|k: int| 0 <= k < 4 ==> #[trigger] p_new[node_layer + step][r].child_indexes[k]
            == replaced(p_prev[node_layer + step][trail[steps - step] as int].child_indexes, dirs[steps - step] as int, child_prev, k),
        0 <= child_prev <= usize::MAX,
    ensures
        descend_from(p_new, node_layer + step, r, dirs.skip(steps - step)) == target,
        forall|q: Seq<u8>, j: int|
            #![trigger diverges_at(q, dirs.skip(steps - step), j)]
            diverges_at(q, dirs.skip(steps - step), j) && q.len() <= node_layer + step + 1 && valid_dirs(q) ==> descend_from(
                p_new,
                node_layer + step,
                r,
                q,
            ) == descend_from(p0, node_layer + step, trail[steps - step] as int, q),
{
    let t = steps - step;
    let layer = node_layer + step;
    let parent = trail[t] as int;
    assert(dirs[t] < 4);
    lemma_descend_stored(p0, rl, ri, dirs.take(t));
    assert(rl - dirs.take(t).len() == layer);
    assert(parent == 0 || is_stored(p0, layer, parent));
    assert(p_prev[layer][parent].child_indexes =~= p0[layer][parent].child_indexes) by {
        if parent == 0 {
            assert(no_children(p_prev[layer][0].child_indexes));
            assert(no_children(p0[layer][0].child_indexes));
        }
    }
    assert(dirs.skip(t + 1) =~= dirs.skip(steps + 1 - step));
    if step > 0 {
        let tk = dirs.take(t);
        assert(tk.push(dirs[t]) =~= dirs.take(t + 1));
        lemma_descend_snoc(p0, rl, ri, tk, dirs[t]);
        assert(trail[t + 1] == p0[layer][parent].child_indexes[dirs[t] as int]);
    }
    assert forall|q: Seq<u8>, j: int|
        #![trigger diverges_at(q, dirs.skip(t + 1), j)]
        diverges_at(q, dirs.skip(t + 1), j) && q.len() <= layer && valid_dirs(q) implies descend_from(
            p_prev,
            layer - 1,
            child_prev,
            q,
        ) == descend_from(p0, layer - 1, p0[layer][parent].child_indexes[dirs[t] as int] as int, q) by {
        assert(diverges_at(q, dirs.skip(steps + 1 - step), j));
    }
    lemma_set_step(p0, p_prev, p_new, dirs, t, layer, parent, child_prev, r, target);
}

impl SparseDimensionlessDAG {
    /// Whether every reference count is at most `bound`.
    pub fn counts_within(&self, bound: u8) -> (r: bool)
        requires
            self.wf(),
        ensures
            r == counts_at_most(self.pot(), bound as int),
    {
        proof {
            self.lemma_shape();
        }
        let ghost p = self.pot();
        let mut l: usize = 0;
        while l < self.node_pot.len()
            invariant
                p == self.pot(),
                self.node_pot@.len() == p.len(),
                forall|x: int| #![trigger self.node_pot@[x]] 0 <= x < p.len() ==> self.node_pot@[x]@ == p[x],
                l <= p.len(),
                forall|x: int, i: int| 0 <= x < l && 0 <= i < p[x].len() ==> #[trigger] p[x][i].ref_count <= bound,
            decreases p.len() - l,
        {
            let mut i: usize = 0;
            while i < self.node_pot[l].len()
                invariant
                    p == self.pot(),
                    self.node_pot@.len() == p.len(),
                    forall|x: int| #![trigger self.node_pot@[x]] 0 <= x < p.len() ==> self.node_pot@[x]@ == p[x],
                    l < p.len(),
                    i <= p[l as int].len(),
                    forall|x: int, j: int| 0 <= x < l && 0 <= j < p[x].len() ==> #[trigger] p[x][j].ref_count <= bound,
                    forall|j: int| 0 <= j < i ==> #[trigger] p[l as int][j].ref_count <= bound,
                decreases p[l as int].len() - i,
            {
                if self.node_pot[l][i].ref_count > bound {
                    return false;
                }
                i += 1;
            }
            l += 1;
        }
        true
    }
}

impl SparseDimensionlessDAG {
    /// Makes `child_index` the child that `path` leads to from `root`, whose
    /// last node lies on `node_layer`: the nodes along the path are rebuilt
    /// from the bottom up, shared where an equal node is already stored, and
    /// `root` is moved onto the rebuilt root, its reference handed over.
    #[verifier::rlimit(80)]
    #[verifier::spinoff_prover]
    pub fn set_node_child(&mut self, root: &mut NodeAddress, node_layer: usize, path: &Path, child_index: usize)
        requires
            old(self).wf(),
            old(root).layer < old(self).pot().len(),
            old(root).index == 0 || old(self).root_count(old(root).layer as int, old(root).index as int) > 0,
            path@.len() >= 1,
            path@.len() < usize::MAX,
            path@.len() - 1 <= old(root).layer,
            node_layer == old(root).layer - (path@.len() - 1),
            valid_dirs(path@),
            node_layer > 0 ==> (child_index == 0 || is_stored(old(self).pot(), node_layer - 1, child_index as int)),
            edit_room(old(self).pot(), node_layer as int, old(root).layer as int),
        ensures
            final(self).wf(),
            final(self).pot().len() == old(self).pot().len(),
            final(root).layer == old(root).layer,
            final(root).index == 0 || is_stored(final(self).pot(), final(root).layer as int, final(root).index as int),
            final(root).index < final(self).pot()[final(root).layer as int].len(),
            child_index != 0 ==> final(root).index != 0,
            descend_from(final(self).pot(), final(root).layer as int, final(root).index as int, path@) == child_index,
            forall|q: Seq<u8>, j: int|
                #![trigger diverges_at(q, path@, j)]
                diverges_at(q, path@, j) && q.len() <= old(root).layer + 1 && valid_dirs(q) ==> descend_from(
                    final(self).pot(),
                    final(root).layer as int,
                    final(root).index as int,
                    q,
                ) == descend_from(old(self).pot(), old(root).layer as int, old(root).index as int, q),
            forall|l: int, i: int, q: Seq<u8>|
                #![trigger descend_from(final(self).pot(), l, i, q)]
                final(self).root_count(l, i) > 0 && (l, i) != (final(root).layer as int, final(root).index as int)
                    && q.len() <= l + 1 && valid_dirs(q) ==> descend_from(final(self).pot(), l, i, q) == descend_from(
                    old(self).pot(),
                    l,
                    i,
                    q,
                ),
            forall|l: int, i: int| #[trigger] final(self).root_count(l, i) + (if old(root).index != 0 && (l, i) == (
                old(root).layer as int,
                old(root).index as int,
            ) { 1nat } else { 0nat }) == old(self).root_count(l, i) + (if final(root).index != 0 && (l, i) == (
                final(root).layer as int,
                final(root).index as int,
            ) { 1nat } else { 0nat }),
    {
        let ghost p0 = self.pot();
        let ghost dirs = path@;
        let ghost rl = root.layer as int;
        let ghost ri = root.index as int;
        proof {
            self.lemma_wf_shaped();
            self.lemma_shape();
        }
        let trail = self.get_trail(root, path);
        let mut new_index = child_index;
        let steps = path.directions.len() - 1;
        proof {
            assert(dirs.skip(steps + 1) =~= Seq::<u8>::empty());
        }
        let mut step: usize = 0;
        while step <= steps
            invariant
                self.wf(),
                self.held == old(self).held,
                p0 == old(self).pot(),
                dirs == path@,
                path.directions@ == dirs,
                rl == root.layer,
                ri == root.index,
                *root == *old(root),
                shaped(p0),
                ri == 0 || is_stored(p0, rl, ri),
                steps == dirs.len() - 1,
                dirs.len() < usize::MAX,
                steps <= rl,
                node_layer == rl - steps,
                valid_dirs(dirs),
                rl < p0.len(),
                edit_room(p0, node_layer as int, rl),
                trail@.len() == dirs.len(),
                forall|k: int| 0 <= k < dirs.len() ==> #[trigger] trail@[k] == descend_from(p0, rl, ri, dirs.take(k)),
                node_layer > 0 ==> (child_index == 0 || is_stored(p0, node_layer - 1, child_index as int)),
                step <= steps + 1,
                grows(p0, self.pot()),
                counts_not_above(p0, self.pot(), node_layer + step - 1),
                step == 0 ==> new_index == child_index,
                step > 0 ==> (new_index == 0 || is_stored(self.pot(), node_layer + step - 1, new_index as int)),
                step > 0 ==> new_index < self.pot()[node_layer + step - 1].len(),
                descend_from(self.pot(), node_layer + step - 1, new_index as int, dirs.skip(steps + 1 - step)) == child_index,
                forall|q: Seq<u8>, j: int|
                    #![trigger diverges_at(q, dirs.skip(steps + 1 - step), j)]
                    diverges_at(q, dirs.skip(steps + 1 - step), j) && q.len() <= node_layer + step && valid_dirs(q)
                        ==> descend_from(self.pot(), node_layer + step - 1, new_index as int, q) == descend_from(
                        p0,
                        node_layer + step - 1,
                        trail@[steps + 1 - step] as int,
                        q,
                    ),
            decreases steps + 1 - step,
        {
            let t: usize = steps - step;
            let cur_address = NodeAddress::new(step + node_layer, trail[t]);
            let child_direction = path.directions[t] as usize;
            let ghost p_prev = self.pot();
            let ghost layer = (step + node_layer) as int;
            proof {
                self.lemma_wf_shaped();
                self.lemma_shape();
                assert(dirs[t as int] < 4);
                lemma_descend_stored(p0, rl, ri, dirs.take(t as int));
                assert(rl - dirs.take(t as int).len() == layer);
                let parent = trail@[t as int] as int;
                assert(parent == 0 || is_stored(p_prev, layer, parent));
                if layer > 0 {
                    lemma_room_below(p0, p_prev, node_layer as int, rl, layer);
                }
            }
            let ghost child_prev = new_index as int;
            new_index = self.add_modified_node(&cur_address, child_direction, new_index);
            proof {
                let p_new = self.pot();
                self.lemma_wf_shaped();
                lemma_grows_trans(p0, p_prev, p_new);
                lemma_counts_step(p0, p_prev, p_new, node_layer + step - 1);
                lemma_rebuild_step(p0, p_prev, p_new, dirs, trail@, rl, ri, steps as int, step as int, node_layer as int,
                    child_prev, new_index as int, child_index as int);
                assert(dirs.skip(steps - step) =~= dirs.skip(steps + 1 - (step + 1)));
            }
            step += 1;
        }
        proof {
            assert(dirs.skip(0) =~= dirs);
            assert(dirs.take(0) =~= Seq::<u8>::empty());
            self.lemma_wf_shaped();
            self.lemma_shape();
        }
        proof {
            lemma_room_root(p0, self.pot(), node_layer as int, rl);
        }
        let ghost s_before = *self;
        let new_root = NodeAddress::new(root.layer, new_index);
        self.transfer_reference(root, &new_root);
        root.index = new_index;
        proof {
            let pb = s_before.pot();
            let pf = self.pot();
            self.lemma_wf_shaped();
            s_before.lemma_wf_shaped();
            let na = (rl, new_index as int);
            if new_index != 0 {
                assert(self.root_count(rl, new_index as int) > 0);
            }
            assert(new_index == 0 || is_stored(pf, rl, new_index as int));
            lemma_descend_agree(pf, pb, rl, new_index as int, dirs);
            if new_index == 0 {
                lemma_descend_zero(pf, rl, dirs);
            }
            assert forall|q: Seq<u8>, j: int|
                #![trigger diverges_at(q, dirs, j)]
                diverges_at(q, dirs, j) && q.len() <= rl + 1 && valid_dirs(q) implies descend_from(pf, rl, new_index as int, q)
                    == descend_from(p0, rl, ri, q) by {
                lemma_descend_agree(pf, pb, rl, new_index as int, q);
                assert(diverges_at(q, dirs.skip(0), j));
            }
            assert forall|l: int, i: int, q: Seq<u8>|
                #![trigger descend_from(pf, l, i, q)]
                self.root_count(l, i) > 0 && (l, i) != na && q.len() <= l + 1 && valid_dirs(q) implies descend_from(pf, l, i, q)
                    == descend_from(p0, l, i, q) by {
                assert(is_stored(pf, l, i));
                assert(old(self).root_count(l, i) > 0);
                old(self).lemma_wf_shaped();
                assert(is_stored(p0, l, i));
                lemma_descend_agree(pf, pb, l, i, q);
                lemma_descend_agree(p0, pb, l, i, q);
            }
        }
    }
}

// ----------------------------------------------------------------------------
// Cells as bits
// ----------------------------------------------------------------------------

/// The packed path of slot `c` below the packed path `path`, `d` bits per
/// slot.
pub open spec fn extend_path(path: u32, d: u32, c: int) -> u32 {
    ((path << d) | (c as u32)) as u32
}

/// The bits of the cells below the first `n` slots of node `index` of
/// `layer`, the node being reached by the packed path `path`: each cell sets
/// the bit numbered by its own packed path.
pub open spec fn bits_among(p: Seq<Seq<Node>>, layer: int, index: int, path: u32, d: u32, n: int) -> u64
    decreases layer, n,
{
    if n <= 0 {
        0
    } else {
        let c = p[layer][index].child_indexes[n - 1];
        let cp = extend_path(path, d, n - 1);
        let here: u64 = if c == 0 {
            0
        } else if layer <= 0 {
            (1u64 << cp) as u64
        } else {
            bits_among(p, layer - 1, c as int, cp, d, 4)
        };
        (bits_among(p, layer, index, path, d, n - 1) | here) as u64
    }
}

/// Every cell below the first `n` slots of node `index` of `layer` has a
/// packed path under 64.
pub open spec fn paths_fit(p: Seq<Seq<Node>>, layer: int, index: int, path: u32, d: u32, n: int) -> bool
    decreases layer, n,
{
    if n <= 0 {
        true
    } else {
        let c = p[layer][index].child_indexes[n - 1];
        let cp = extend_path(path, d, n - 1);
        &&& paths_fit(p, layer, index, path, d, n - 1)
        &&& (c == 0 || (if layer <= 0 {
            cp < 64
        } else {
            paths_fit(p, layer - 1, c as int, cp, d, 4)
        }))
    }
}

/// The bits of the cells below every entry of a stack of nodes to visit.
pub open spec fn stack_bits(p: Seq<Seq<Node>>, q: Seq<(NodeAddress, u32)>, d: u32) -> u64
    decreases q.len(),
{
    if q.len() == 0 {
        0
    } else {
        (stack_bits(p, q.drop_last(), d) | bits_among(p, q.last().0.layer as int, q.last().0.index as int, q.last().1, d, 4)) as u64
    }
}

/// The weight of a stack of nodes to visit: `5^layer` each.
pub open spec fn stack_weight(q: Seq<(NodeAddress, u32)>) -> nat
    decreases q.len(),
{
    if q.len() == 0 {
        0
    } else {
        stack_weight(q.drop_last()) + five_pow(q.last().0.layer as nat)
    }
}

proof fn lemma_or_facts(a: u64, b: u64, c: u64)
    ensures
        (a | b) | c == a | (b | c),
        a | b == b | a,
        a | 0 == a,
        0 | a == a,
{
    assert((a | b) | c == a | (b | c)) by (bit_vector);
    assert(a | b == b | a) by (bit_vector);
    assert(a | 0 == a) by (bit_vector);
    assert(0 | a == a) by (bit_vector);
}

proof fn lemma_extend_bound(path: u32, d: u32, m: u32, c: u32)
    requires
        path < (1u32 << m),
        c < 4,
        2 <= d,
        m + d <= 6,
    ensures
        ((path << d) | c) < (1u32 << (m + d)),
        (1u32 << (m + d)) <= 64,
{
    assert(((path << d) | c) < (1u32 << (m + d)) && (1u32 << (m + d)) <= 64) by (bit_vector)
        requires
            path < (1u32 << m),
            c < 4,
            2 <= d,
            m + d <= 6,
    ;
}

/// Below a node reached by a packed path under `2^m`, with at least two bits
/// per slot and at most six bits in all, every cell's packed path is under 64.
proof fn lemma_fit_below(p: Seq<Seq<Node>>, layer: int, index: int, path: u32, d: u32, m: u32, n: int)
    requires
        shaped(p),
        0 <= layer < p.len(),
        0 <= index < p[layer].len(),
        2 <= d,
        path < (1u32 << m),
        m + d * (layer + 1) <= 6,
        0 <= n <= 4,
    ensures
        paths_fit(p, layer, index, path, d, n),
    decreases layer, n,
{
    if n > 0 {
        lemma_fit_below(p, layer, index, path, d, m, n - 1);
        let c = p[layer][index].child_indexes[n - 1];
        assert(d * (layer + 1) >= d) by (nonlinear_arith)
            requires
                layer >= 0,
                d >= 2,
        ;
        lemma_extend_bound(path, d, m, (n - 1) as u32);
        let cp = extend_path(path, d, n - 1);
        if c != 0 && layer > 0 {
            assert(c < p[layer - 1].len());
            assert(d * (layer + 1) == d * layer + d) by (nonlinear_arith);
            lemma_fit_below(p, layer - 1, c as int, cp, d, (m + d) as u32, 4);
        }
    }
}

/// The packed path of the slots `q` below the packed path `path`, `d` bits
/// per slot: each slot is shifted in after the ones before it.
pub open spec fn pack_dirs(path: u32, d: u32, q: Seq<u8>) -> u32
    decreases q.len(),
{
    if q.len() == 0 {
        path
    } else {
        pack_dirs(extend_path(path, d, q[0] as int), d, q.drop_first())
    }
}

/// Slots `q` lead from node `index` of `layer`, reached by the packed path
/// `path`, down past layer 0 to a nonzero child, through one of the first
/// `n` slots, and pack to `b`.
spec fn filled_cell_at(p: Seq<Seq<Node>>, layer: int, index: int, path: u32, d: u32, n: int, b: u32, q: Seq<u8>) -> bool {
    &&& q.len() == layer + 1
    &&& valid_dirs(q)
    &&& q[0] < n
    &&& pack_dirs(path, d, q) == b
    &&& descend_from(p, layer, index, q) != 0
}

proof fn lemma_bit_or(a: u64, h: u64, m: u64)
    ensures
        ((a | h) & m != 0) == (a & m != 0 || h & m != 0),
        0u64 & m == 0,
{
    assert(((a | h) & m != 0) == (a & m != 0 || h & m != 0)) by (bit_vector);
    assert(0u64 & m == 0) by (bit_vector);
}

proof fn lemma_single_bit(s: u32, b: u32)
    requires
        s < 64,
        b < 64,
    ensures
        ((1u64 << s) & (1u64 << b) != 0) == (s == b),
{
    assert(((1u64 << s) & (1u64 << b) != 0) == (s == b)) by (bit_vector)
        requires
            s < 64,
            b < 64,
    ;
}

/// Every nonzero cell below the first `n` slots has a packed path under 64,
/// and sets its bit.
proof fn lemma_cell_bit_set(p: Seq<Seq<Node>>, layer: int, index: int, path: u32, d: u32, n: int, q: Seq<u8>)
    requires
        shaped(p),
        0 <= layer < p.len(),
        0 <= index < p[layer].len(),
        0 <= n <= 4,
        q.len() == layer + 1,
        valid_dirs(q),
        q[0] < n,
        descend_from(p, layer, index, q) != 0,
        paths_fit(p, layer, index, path, d, n),
    ensures
        pack_dirs(path, d, q) < 64,
        bits_among(p, layer, index, path, d, n) & (1u64 << pack_dirs(path, d, q)) != 0,
    decreases layer, n,
{
    let c = p[layer][index].child_indexes[n - 1];
    let cp = extend_path(path, d, n - 1);
    let rest = bits_among(p, layer, index, path, d, n - 1);
    let below: u64 = if c == 0 {
        0
    } else if layer <= 0 {
        (1u64 << cp) as u64
    } else {
        bits_among(p, layer - 1, c as int, cp, d, 4)
    };
    assert(bits_among(p, layer, index, path, d, n) == (rest | below) as u64);
    let b = pack_dirs(path, d, q);
    if (q[0] as int) < n - 1 {
        lemma_cell_bit_set(p, layer, index, path, d, n - 1, q);
        lemma_bit_or(rest, below, 1u64 << b);
    } else {
        let t = q.drop_first();
        assert(q[0] as int == n - 1);
        assert(descend_from(p, layer, index, q) == descend_from(p, layer - 1, c as int, t));
        assert(b == pack_dirs(cp, d, t));
        assert(valid_dirs(t)) by {
            assert forall|k: int| 0 <= k < t.len() implies #[trigger] t[k] < 4 by {
                assert(t[k] == q[k + 1]);
            }
        }
        if layer == 0 {
            assert(t.len() == 0);
            assert(descend_from(p, layer - 1, c as int, t) == c);
            assert(b == cp);
            lemma_single_bit(cp, cp);
            lemma_bit_or(rest, below, 1u64 << b);
        } else {
            if c == 0 {
                lemma_descend_zero(p, layer - 1, t);
            }
            assert(c < p[layer - 1].len());
            assert(t[0] == q[1]);
            lemma_cell_bit_set(p, layer - 1, c as int, cp, d, 4, t);
            lemma_bit_or(rest, below, 1u64 << b);
        }
    }
}

/// Every bit set below the first `n` slots is the packed path of a nonzero
/// cell.
proof fn lemma_bit_has_cell(p: Seq<Seq<Node>>, layer: int, index: int, path: u32, d: u32, n: int, b: u32)
    requires
        shaped(p),
        0 <= layer < p.len(),
        0 <= index < p[layer].len(),
        0 <= n <= 4,
        b < 64,
        paths_fit(p, layer, index, path, d, n),
        bits_among(p, layer, index, path, d, n) & (1u64 << b) != 0,
    ensures
        exists|q: Seq<u8>| #[trigger] filled_cell_at(p, layer, index, path, d, n, b, q),
    decreases layer, n,
{
    lemma_bit_or(0, 0, 1u64 << b);
    if n > 0 {
        let c = p[layer][index].child_indexes[n - 1];
        let cp = extend_path(path, d, n - 1);
        let rest = bits_among(p, layer, index, path, d, n - 1);
        let below: u64 = if c == 0 {
            0
        } else if layer <= 0 {
            (1u64 << cp) as u64
        } else {
            bits_among(p, layer - 1, c as int, cp, d, 4)
        };
        assert(bits_among(p, layer, index, path, d, n) == (rest | below) as u64);
        lemma_bit_or(rest, below, 1u64 << b);
        if rest & (1u64 << b) != 0 {
            lemma_bit_has_cell(p, layer, index, path, d, n - 1, b);
            let q = choose|q: Seq<u8>| #[trigger] filled_cell_at(p, layer, index, path, d, n - 1, b, q);
            assert(filled_cell_at(p, layer, index, path, d, n, b, q));
        } else {
            assert(c != 0);
            if layer == 0 {
                lemma_single_bit(cp, b);
                let q: Seq<u8> = seq![(n - 1) as u8];
                assert(q.drop_first() =~= Seq::<u8>::empty());
                assert(q[0] == (n - 1) as u8);
                assert(descend_from(p, layer - 1, c as int, q.drop_first()) == c);
                assert(descend_from(p, layer, index, q) == c);
                assert(pack_dirs(path, d, q) == pack_dirs(cp, d, q.drop_first()));
                assert(filled_cell_at(p, layer, index, path, d, n, b, q));
            } else {
                assert(c < p[layer - 1].len());
                lemma_bit_has_cell(p, layer - 1, c as int, cp, d, 4, b);
                let t = choose|t: Seq<u8>| #[trigger] filled_cell_at(p, layer - 1, c as int, cp, d, 4, b, t);
                let q: Seq<u8> = seq![(n - 1) as u8] + t;
                assert(q.drop_first() =~= t);
                assert(q[0] == (n - 1) as u8);
                assert(valid_dirs(q)) by {
                    assert forall|k: int| 0 <= k < q.len() implies #[trigger] q[k] < 4 by {
                        if k > 0 {
                            assert(q[k] == t[k - 1]);
                        }
                    }
                }
                assert(descend_from(p, layer, index, q) == descend_from(p, layer - 1, c as int, t));
                assert(pack_dirs(path, d, q) == pack_dirs(cp, d, t));
                assert(filled_cell_at(p, layer, index, path, d, n, b, q));
            }
        }
    }
}

impl SparseDimensionlessDAG {
    /// A grid of at most 64 cells fits a `u64`: with at least two bits per
    /// slot and at most six bits for the whole path below `root`, every cell
    /// has a packed path under 64, which `df_to_binary` asks for.
    pub proof fn lemma_small_grids_fit(&self, root: NodeAddress, dimensions: u32)
        requires
            self.wf(),
            root.layer < self.pot().len(),
            root.index < self.pot()[root.layer as int].len(),
            2 <= dimensions,
            dimensions * (root.layer + 1) <= 6,
        ensures
            paths_fit(self.pot(), root.layer as int, root.index as int, 0, dimensions, 4),
    {
        self.lemma_wf_shaped();
        assert(0u32 < (1u32 << 0u32)) by (bit_vector);
        lemma_fit_below(self.pot(), root.layer as int, root.index as int, 0, dimensions, 0, 4);
    }

    /// The bits that `df_to_binary` sets are exactly the filled cells: bit
    /// `b` is set if and only if some slots from `root` down past layer 0
    /// pack to `b` (`dimensions` bits each, the first slot highest) and the
    /// child they reach there is nonzero, whatever its value.
    pub proof fn lemma_bits_are_filled_cells(&self, root: NodeAddress, dimensions: u32, b: u32)
        requires
            self.wf(),
            root.layer < self.pot().len(),
            root.index < self.pot()[root.layer as int].len(),
            paths_fit(self.pot(), root.layer as int, root.index as int, 0, dimensions, 4),
            b < 64,
        ensures
            (bits_among(self.pot(), root.layer as int, root.index as int, 0, dimensions, 4) & (1u64 << b) != 0)
                <==> exists|q: Seq<u8>|
                #![trigger pack_dirs(0, dimensions, q)]
                q.len() == root.layer + 1 && valid_dirs(q) && pack_dirs(0, dimensions, q) == b && descend_from(
                    self.pot(),
                    root.layer as int,
                    root.index as int,
                    q,
                ) != 0,
    {
        self.lemma_wf_shaped();
        let p = self.pot();
        let l = root.layer as int;
        let i = root.index as int;
        if bits_among(p, l, i, 0, dimensions, 4) & (1u64 << b) != 0 {
            lemma_bit_has_cell(p, l, i, 0, dimensions, 4, b);
            let q = choose|q: Seq<u8>| #[trigger] filled_cell_at(p, l, i, 0, dimensions, 4, b, q);
            assert(pack_dirs(0, dimensions, q) == b);
        }
        if exists|q: Seq<u8>|
            #![trigger pack_dirs(0, dimensions, q)]
            q.len() == root.layer + 1 && valid_dirs(q) && pack_dirs(0, dimensions, q) == b && descend_from(p, l, i, q) != 0 {
            let q = choose|q: Seq<u8>|
                #![trigger pack_dirs(0, dimensions, q)]
                q.len() == root.layer + 1 && valid_dirs(q) && pack_dirs(0, dimensions, q) == b && descend_from(p, l, i, q) != 0;
            assert(q[0] < 4);
            lemma_cell_bit_set(p, l, i, 0, dimensions, 4, q);
        }
    }

    /// Every filled cell below `root` (slots `q` down past layer 0 reaching a
    /// nonzero child, whatever its value) sets the bit of its packed path in
    /// what `df_to_binary` returns, and that path is under 64.
    pub proof fn lemma_filled_cell_sets_its_bit(&self, root: NodeAddress, dimensions: u32, q: Seq<u8>)
        requires
            self.wf(),
            root.layer < self.pot().len(),
            root.index < self.pot()[root.layer as int].len(),
            paths_fit(self.pot(), root.layer as int, root.index as int, 0, dimensions, 4),
            q.len() == root.layer + 1,
            valid_dirs(q),
            descend_from(self.pot(), root.layer as int, root.index as int, q) != 0,
        ensures
            pack_dirs(0, dimensions, q) < 64,
            bits_among(self.pot(), root.layer as int, root.index as int, 0, dimensions, 4) & (1u64 << pack_dirs(
                0,
                dimensions,
                q,
            )) != 0,
    {
        self.lemma_wf_shaped();
        assert(q[0] < 4);
        lemma_cell_bit_set(self.pot(), root.layer as int, root.index as int, 0, dimensions, 4, q);
    }

    /// The cells below `root` as bits of a `u64`, each cell setting the bit
    /// numbered by its packed path, `dimensions` bits per slot.
    pub fn df_to_binary(&self, root: &NodeAddress, dimensions: u32) -> (r: u64)
        requires
            self.wf(),
            root.layer < self.pot().len(),
            root.index < self.pot()[root.layer as int].len(),
            dimensions < 32,
            paths_fit(self.pot(), root.layer as int, root.index as int, 0, dimensions, 4),
        ensures
            r == bits_among(self.pot(), root.layer as int, root.index as int, 0, dimensions, 4),
    {
        let ghost p = self.pot();
        let ghost target = bits_among(p, root.layer as int, root.index as int, 0, dimensions, 4);
        proof {
            self.lemma_wf_shaped();
            self.lemma_shape();
        }
        let mut resulting_binary: u64 = 0;
        let mut queue: Vec<(NodeAddress, u32)> = Vec::new();
        queue.push((NodeAddress::new(root.layer, root.index), 0));
        proof {
            assert(queue@.drop_last() =~= Seq::<(NodeAddress, u32)>::empty());
            assert(stack_bits(p, queue@.drop_last(), dimensions) == 0);
            assert(queue@.last().0.layer == root.layer && queue@.last().0.index == root.index && queue@.last().1 == 0);
            lemma_or_facts(target, 0, 0);
            assert(stack_bits(p, queue@, dimensions) == target);
        }
        while queue.len() != 0
            invariant
                self.wf(),
                p == self.pot(),
                shaped(p),
                dimensions < 32,
                forall|k: int| 0 <= k < queue@.len() ==> (#[trigger] queue@[k]).0.layer < p.len() && queue@[k].0.index < p[queue@[k].0.layer as int].len()
                    && paths_fit(p, queue@[k].0.layer as int, queue@[k].0.index as int, queue@[k].1, dimensions, 4),
                (resulting_binary | stack_bits(p, queue@, dimensions)) == target,
            decreases stack_weight(queue@),
        {
            let ghost q0 = queue@;
            let (cur_address, cur_bin_path) = queue.pop().unwrap();
            proof {
                assert(q0.last() == (cur_address, cur_bin_path));
                assert(queue@ =~= q0.drop_last());
                assert(q0[q0.len() - 1] == q0.last());
            }
            let ghost base = (resulting_binary | stack_bits(p, queue@, dimensions)) as u64;
            let ghost layer = cur_address.layer as int;
            let ghost index = cur_address.index as int;
            let ghost weight0 = stack_weight(queue@);
            proof {
                self.lemma_shape();
                lemma_or_facts(resulting_binary, stack_bits(p, queue@, dimensions), bits_among(p, layer, index, cur_bin_path, dimensions, 4));
                lemma_or_facts(base, 0, 0);
                lemma_five_pow_pos(layer as nat);
            }
            let cur_node = self.get_node(&cur_address);
            let mut child: usize = 0;
            while child < 4
                invariant
                    self.wf(),
                    p == self.pot(),
                    shaped(p),
                    dimensions < 32,
                    *cur_node == p[layer][index],
                    layer == cur_address.layer,
                    index == cur_address.index,
                    0 <= layer < p.len(),
                    0 <= index < p[layer].len(),
                    paths_fit(p, layer, index, cur_bin_path, dimensions, 4),
                    child <= 4,
                    forall|k: int| 0 <= k < queue@.len() ==> (#[trigger] queue@[k]).0.layer < p.len() && queue@[k].0.index < p[queue@[k].0.layer as int].len()
                        && paths_fit(p, queue@[k].0.layer as int, queue@[k].0.index as int, queue@[k].1, dimensions, 4),
                    (resulting_binary | stack_bits(p, queue@, dimensions)) == (base | bits_among(p, layer, index, cur_bin_path, dimensions, child as int)),
                    (base | bits_among(p, layer, index, cur_bin_path, dimensions, 4)) == target,
                    stack_weight(queue@) + (if layer > 0 { (4 - child) * five_pow((layer - 1) as nat) } else { 0 }) <= weight0 + (if layer > 0 { 4 * five_pow((layer - 1) as nat) } else { 0 }),
                decreases 4 - child,
            {
                let child_index = cur_node.child_indexes[child];
                let child_path = (cur_bin_path << dimensions) | child as u32;
                let ghost cp = extend_path(cur_bin_path, dimensions, child as int);
                let ghost before = (resulting_binary | stack_bits(p, queue@, dimensions)) as u64;
                let ghost prefix = bits_among(p, layer, index, cur_bin_path, dimensions, child as int);
                proof {
                    assert(child_path == cp);
                    assert(bits_among(p, layer, index, cur_bin_path, dimensions, child + 1) == (prefix | (if child_index == 0 {
                        0u64
                    } else if layer <= 0 {
                        (1u64 << cp) as u64
                    } else {
                        bits_among(p, layer - 1, child_index as int, cp, dimensions, 4)
                    })) as u64);
                    assert(paths_fit(p, layer, index, cur_bin_path, dimensions, child + 1)) by {
                        reveal_with_fuel(paths_fit, 4);
                    }
                }
                if child_index == 0 {
                    proof {
                        lemma_or_facts(prefix, 0, 0);
                    }
                } else if cur_address.layer != 0 {
                    proof {
                        assert(p[layer][index].child_indexes[child as int] < p[layer - 1].len());
                    }
                    let ghost qb = queue@;
                    queue.push((NodeAddress::new(cur_address.layer - 1, child_index), child_path));
                    proof {
                        let here = bits_among(p, layer - 1, child_index as int, cp, dimensions, 4);
                        assert(queue@.drop_last() =~= qb);
                        assert(stack_bits(p, queue@, dimensions) == (stack_bits(p, qb, dimensions) | here) as u64);
                        lemma_or_facts(resulting_binary, stack_bits(p, qb, dimensions), here);
                        lemma_or_facts(base, prefix, here);
                        assert forall|k: int| 0 <= k < queue@.len() implies (#[trigger] queue@[k]).0.layer < p.len() && queue@[k].0.index
                            < p[queue@[k].0.layer as int].len() && paths_fit(p, queue@[k].0.layer as int, queue@[k].0.index as int, queue@[k].1, dimensions, 4) by {
                            if k < qb.len() {
                                assert(queue@[k] == qb[k]);
                            }
                        }
                        assert(stack_weight(queue@) == stack_weight(qb) + five_pow((layer - 1) as nat));
                        assert((4 - child) * five_pow((layer - 1) as nat) == (4 - (child + 1)) * five_pow((layer - 1) as nat) + five_pow((layer - 1) as nat)) by (nonlinear_arith);
                    }
                } else {
                    let bit: u64 = 1u64 << child_path;
                    let ghost rb = resulting_binary;
                    resulting_binary = resulting_binary | bit;
                    proof {
                        let sb = stack_bits(p, queue@, dimensions);
                        lemma_or_facts(rb, bit, sb);
                        lemma_or_facts(rb, sb, bit);
                        lemma_or_facts(bit, sb, 0);
                        lemma_or_facts(base, prefix, bit);
                        assert(resulting_binary | sb == (rb | sb) | bit) by {
                            lemma_or_facts(rb, bit, sb);
                            lemma_or_facts(rb, sb, bit);
                            lemma_or_facts(bit, sb, rb);
                        }
                    }
                }
                proof {
                    let f = if layer > 0 { five_pow((layer - 1) as nat) } else { 0 };
                    assert((4 - child) * f == (4 - (child + 1)) * f + f) by (nonlinear_arith);
                }
                child += 1;
            }
            proof {
                if layer > 0 {
                    assert(five_pow(layer as nat) == 5 * five_pow((layer - 1) as nat));
                    lemma_five_pow_pos((layer - 1) as nat);
                }
                assert(stack_weight(q0) == weight0 + five_pow(layer as nat)) by {
                    assert(q0.drop_last() =~= queue@.subrange(0, 0) + q0.drop_last());
                }
            }
        }
        proof {
            assert(queue@ =~= Seq::<(NodeAddress, u32)>::empty());
            lemma_or_facts(resulting_binary, 0, 0);
        }
        resulting_binary
    }
}


} // verus!
