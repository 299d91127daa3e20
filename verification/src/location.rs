//! Splitting a 32-bit value into a block key and an index inside the block.

use vstd::prelude::*;

verus! {

/// The block that holds `value`: its high 16 bits.
pub open spec fn key_of(value: u32) -> u16 {
    (value / 65536) as u16
}

/// The position of `value` inside its block: its low 16 bits.
pub open spec fn index_of(value: u32) -> u16 {
    (value % 65536) as u16
}

/// The value that sits at position `index` of block `key`.
pub open spec fn compose(key: u16, index: u16) -> u32 {
    (key as u32 * 65536 + index as u32) as u32
}

/// Composing what a value was split into gives the value back.
pub proof fn lemma_compose_split(value: u32)
    ensures
        compose(key_of(value), index_of(value)) == value,
{
}

/// Splitting what was composed gives the key and the index back.
pub proof fn lemma_split_compose(key: u16, index: u16)
    ensures
        key_of(compose(key, index)) == key,
        index_of(compose(key, index)) == index,
{
}

/// Two values with the same key and the same index are the same value.
pub proof fn lemma_split_injective(a: u32, b: u32)
    requires
        key_of(a) == key_of(b),
        index_of(a) == index_of(b),
    ensures
        a == b,
{
    lemma_compose_split(a);
    lemma_compose_split(b);
}

/// Splits `value` into its block key and its index inside the block.
pub fn calc_loc(value: u32) -> (loc: (u16, u16))
    ensures
        loc.0 == key_of(value),
        loc.1 == index_of(value),
        compose(loc.0, loc.1) == value,
{
    let high: u32 = value >> 16;
    let low: u32 = value & 0xFFFF;
    assert(high == value / 65536 && high < 65536) by (bit_vector)
        requires
            high == value >> 16,
    ;
    assert(low == value % 65536 && low < 65536) by (bit_vector)
        requires
            low == value & 0xFFFF,
    ;
    (high as u16, low as u16)
}

/// Puts a block key and an index together again.
pub fn join_loc(key: u16, index: u16) -> (value: u32)
    ensures
        value == compose(key, index),
        key_of(value) == key,
        index_of(value) == index,
{
    let high: u32 = key as u32;
    let low: u32 = index as u32;
    high * 65536 + low
}

} // verus!
