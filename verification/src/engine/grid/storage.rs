//! The two outside collections that hold a graph's nodes: a `lilypads::Pond`,
//! an object pool that hands out the first free slot, and an `ahash::AHashMap`
//! from node contents back to their slot.
//!
//! Nothing here is proved: each item states what the crates' sources and
//! documentation show of the call it makes.
use vstd::prelude::*;

verus! {

/// A node: the indices of its four children, in Z-order.
pub type NodeData = [u32; 4];

#[verifier::external_type_specification]
#[verifier::external_body]
#[verifier::reject_recursive_types(T)]
pub struct ExPond<T>(lilypads::Pond<T>);

#[verifier::external_type_specification]
#[verifier::external_body]
pub struct ExRandomState(ahash::RandomState);

#[verifier::external_type_specification]
#[verifier::external_body]
#[verifier::reject_recursive_types(K)]
#[verifier::reject_recursive_types(V)]
#[verifier::reject_recursive_types(S)]
pub struct ExAHashMap<K, V, S>(ahash::AHashMap<K, V, S>);

/// The occupied slots of a pond and what each one holds.
pub uninterp spec fn pond_contents(p: lilypads::Pond<[u32; 4]>) -> Map<usize, [u32; 4]>;

/// The pond's layered occupancy bitmap is in step with its slots: each bit
/// of a summary layer tells rightly whether the word it stands for, in the
/// layer below, holds a set bit (in the one stack) or a clear bit (in the
/// other), for every word of the base layer. This
/// holds of a new pond and is kept by `insert` and `free`; a `resize` to a
/// smaller size (or `trim`, which calls it) leaves stale summary bits, after
/// which the search for a free slot can index past the base layer and panic.
pub uninterp spec fn pond_in_step(p: lilypads::Pond<[u32; 4]>) -> bool;

/// The entries of a lookup table from node contents to slots.
pub uninterp spec fn lookup_contents(m: ahash::AHashMap<[u32; 4], u32>) -> Map<[u32; 4], u32>;

/// A pond with no occupied slot.
pub open spec fn no_slots() -> Map<usize, NodeData> {
    Map::empty()
}

/// A table with no entry.
pub open spec fn no_entries() -> Map<NodeData, u32> {
    Map::empty()
}

/// `i` is the first slot of the pond that is not occupied.
pub open spec fn is_first_free(contents: Map<usize, [u32; 4]>, i: usize) -> bool {
    &&& !contents.dom().contains(i)
    &&& forall|j: usize| j < i ==> contents.dom().contains(j)
}

/// `Pond::new`: an empty pond.
#[verifier::external_body]
pub(crate) fn pond_new() -> (r: lilypads::Pond<[u32; 4]>)
    ensures
        pond_contents(r) == no_slots(),
        pond_in_step(r),
{
    lilypads::Pond::new()
}

/// `Pond::next_index`: the slot that the next `insert` will fill, which the
/// crate's documentation and source give as the first free slot. Asked only
/// of a pond whose bitmap is in step.
#[verifier::external_body]
pub(crate) fn pond_next_index(p: &lilypads::Pond<[u32; 4]>) -> (r: usize)
    requires
        pond_in_step(*p),
    ensures
        is_first_free(pond_contents(*p), r),
{
    p.next_index()
}

/// `Pond::insert`: stores `data` in the first free slot and returns that
/// slot, growing the pond where no slot is free; the bitmap stays in step.
/// Asked only of a pond whose bitmap is in step.
#[verifier::external_body]
pub(crate) fn pond_insert(p: &mut lilypads::Pond<[u32; 4]>, data: [u32; 4]) -> (r: usize)
    requires
        pond_in_step(*old(p)),
    ensures
        pond_in_step(*final(p)),
        is_first_free(pond_contents(*old(p)), r),
        pond_contents(*final(p)) == pond_contents(*old(p)).insert(r, data),
{
    p.insert(data)
}

/// `Pond::get`: what the slot holds, where it is occupied.
#[verifier::external_body]
pub(crate) fn pond_get(p: &lilypads::Pond<[u32; 4]>, idx: usize) -> (r: Option<&[u32; 4]>)
    ensures
        pond_contents(*p).dom().contains(idx) ==> r == Some(&pond_contents(*p)[idx]),
        !pond_contents(*p).dom().contains(idx) ==> r.is_none(),
{
    p.get(idx)
}

/// `Pond::free`: empties an occupied slot and hands back what it held; on a
/// free slot it changes nothing and returns `None`.
#[verifier::external_body]
pub(crate) fn pond_free(p: &mut lilypads::Pond<[u32; 4]>, idx: usize) -> (r: Option<[u32; 4]>)
    ensures
        pond_contents(*old(p)).dom().contains(idx) ==> r == Some(pond_contents(*old(p))[idx]),
        !pond_contents(*old(p)).dom().contains(idx) ==> r.is_none(),
        pond_contents(*final(p)) == pond_contents(*old(p)).remove(idx),
        pond_in_step(*old(p)) ==> pond_in_step(*final(p)),
{
    p.free(idx)
}

/// `AHashMap::new`: an empty table.
#[verifier::external_body]
pub(crate) fn lookup_new() -> (r: ahash::AHashMap<[u32; 4], u32>)
    ensures
        lookup_contents(r) == no_entries(),
{
    ahash::AHashMap::new()
}

/// `AHashMap::get`, copied out: the slot stored under `key`, if any.
#[verifier::external_body]
pub(crate) fn lookup_get(m: &ahash::AHashMap<[u32; 4], u32>, key: &[u32; 4]) -> (r: Option<u32>)
    ensures
        lookup_contents(*m).dom().contains(*key) ==> r == Some(lookup_contents(*m)[*key]),
        !lookup_contents(*m).dom().contains(*key) ==> r.is_none(),
{
    m.get(key).copied()
}

/// `AHashMap::insert`: stores `value` under `key`, replacing any earlier entry.
#[verifier::external_body]
pub(crate) fn lookup_insert(m: &mut ahash::AHashMap<[u32; 4], u32>, key: [u32; 4], value: u32) -> (r:
    Option<u32>)
    ensures
        lookup_contents(*final(m)) == lookup_contents(*old(m)).insert(key, value),
        lookup_contents(*old(m)).dom().contains(key) ==> r == Some(lookup_contents(*old(m))[key]),
        !lookup_contents(*old(m)).dom().contains(key) ==> r.is_none(),
{
    m.insert(key, value)
}

/// `AHashMap::remove`: drops the entry under `key`, handing back its value.
#[verifier::external_body]
pub(crate) fn lookup_remove(m: &mut ahash::AHashMap<[u32; 4], u32>, key: &[u32; 4]) -> (r: Option<u32>)
    ensures
        lookup_contents(*final(m)) == lookup_contents(*old(m)).remove(*key),
        lookup_contents(*old(m)).dom().contains(*key) ==> r == Some(lookup_contents(*old(m))[*key]),
        !lookup_contents(*old(m)).dom().contains(*key) ==> r.is_none(),
{
    m.remove(key)
}

} // verus!
