//! Laws that relate several operations, proved from their contracts.
//!
//! Each law takes the states that a run of the operations passes through
//! and assumes of them what the operations' contracts ensure.

use vstd::prelude::*;
use crate::bitmap::RoaringBitmap;
use crate::container::{Container, THRESHOLD};

verus! {

/// Inserting a value a second time changes nothing: when `once` is the
/// result of inserting `value` into `start`, and `twice` the result of
/// inserting it into `once`, the second insert reports `false`, and the
/// set and its cardinality are the same after both.
pub proof fn law_insert_idempotent(
    start: RoaringBitmap,
    once: RoaringBitmap,
    twice: RoaringBitmap,
    value: u32,
    first: bool,
    second: bool,
)
    requires
        start.wf(),
        once.wf(),
        twice.wf(),
        once@ == start@.insert(value),
        first == !start@.contains(value),
        twice@ == once@.insert(value),
        second == !once@.contains(value),
    ensures
        !second,
        twice@ == once@,
        twice@.len() == once@.len(),
{
    assert(twice@ =~= once@);
}

/// Removing a value right after inserting it undoes the insert: when
/// `value` is absent from `start`, `inserted` is the result of inserting it
/// and `removed` the result of removing it again, both calls report `true`,
/// and the set, its cardinality and the membership of `value` are as in
/// `start`.
pub proof fn law_insert_remove_inverse(
    start: RoaringBitmap,
    inserted: RoaringBitmap,
    removed: RoaringBitmap,
    value: u32,
    first: bool,
    second: bool,
)
    requires
        start.wf(),
        inserted.wf(),
        removed.wf(),
        !start@.contains(value),
        inserted@ == start@.insert(value),
        first == !start@.contains(value),
        removed@ == inserted@.remove(value),
        second == inserted@.contains(value),
    ensures
        first,
        second,
        removed@ == start@,
        removed@.len() == start@.len(),
        removed@.contains(value) == start@.contains(value),
        inserted@.len() == start@.len() + 1,
{
    start.lemma_finite();
    assert(removed@ =~= start@);
}

/// The same for a single container, whose representation may change
/// between the calls: inserting an absent index and removing it again gives
/// back the same members, and so the same representation.
pub proof fn law_container_insert_remove_inverse(
    start: Container,
    inserted: Container,
    removed: Container,
    index: u16,
)
    requires
        start.wf(),
        inserted.wf(),
        removed.wf(),
        !start@.contains(index),
        inserted@ == start@.insert(index),
        removed@ == inserted@.remove(index),
    ensures
        removed@ == start@,
        removed@.len() == start@.len(),
        removed.dense() == start.dense(),
{
    assert(removed@ =~= start@);
    start.lemma_wf();
    removed.lemma_wf();
}

/// The representation cannot be observed through the members: two
/// containers with the same members are both sparse or both dense, and
/// which of the two depends on the number of members alone.
pub proof fn law_representation_transparent(a: Container, b: Container)
    requires
        a.wf(),
        b.wf(),
        a@ == b@,
    ensures
        a.dense() == b.dense(),
        a.dense() == (a@.len() > THRESHOLD),
        a@.len() <= 65536,
{
    a.lemma_wf();
    b.lemma_wf();
}

} // verus!
