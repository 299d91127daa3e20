//! The dense representation: a bit vector with one bit for each of the 65536
//! indices of a block, held in 1024 words of 64 bits.

use vstd::prelude::*;
use vstd::set_lib::*;
use crate::sparse::strictly_increasing;

verus! {

/// Number of 64-bit words in a bit vector.
pub const WORDS: usize = 1024;

/// Whether bit number `bit` of `word` is set.
pub open spec fn bit_at(word: u64, bit: u64) -> bool {
    (word >> bit) & 1 == 1
}

/// Whether the bit that stands for `index` is set in `words`.
pub open spec fn is_set(words: Seq<u64>, index: u16) -> bool {
    bit_at(words[index as int / 64], (index as int % 64) as u64)
}

/// The indices whose bit is set.
pub open spec fn members(words: Seq<u64>) -> Set<u16> {
    Set::new(|index: u16| is_set(words, index))
}

proof fn lemma_set_bit(word: u64, bit: u64, other: u64)
    requires
        bit < 64,
        other < 64,
    ensures
        bit_at(word | (1u64 << bit), other) == (other == bit || bit_at(word, other)),
{
    assert((((word | (1u64 << bit)) >> other) & 1 == 1) == (other == bit || (word >> other) & 1
        == 1)) by (bit_vector)
        requires
            bit < 64,
            other < 64,
    ;
}

proof fn lemma_clear_bit(word: u64, bit: u64, other: u64)
    requires
        bit < 64,
        other < 64,
    ensures
        bit_at(word & !(1u64 << bit), other) == (other != bit && bit_at(word, other)),
{
    assert((((word & !(1u64 << bit)) >> other) & 1 == 1) == (other != bit && (word >> other) & 1
        == 1)) by (bit_vector)
        requires
            bit < 64,
            other < 64,
    ;
}

proof fn lemma_zero_word(bit: u64)
    requires
        bit < 64,
    ensures
        !bit_at(0, bit),
{
    assert(((0u64 >> bit) & 1 == 1) == false) by (bit_vector)
        requires
            bit < 64,
    ;
}

/// All 65536 indices together form a finite set of that size.
pub proof fn lemma_all_indices()
    ensures
        Set::<u16>::full().finite(),
        Set::<u16>::full().len() <= 65536,
{
    let ints = set_int_range(0, 65536);
    let narrow = |i: int| i as u16;
    lemma_int_range(0, 65536);
    assert forall|x: u16| ints.map(narrow).contains(x) by {
        assert(ints.contains(x as int));
        assert(narrow(x as int) == x);
    }
    assert(ints.map(narrow) =~= Set::<u16>::full());
    lemma_map_size_bound(ints, Set::<u16>::full(), narrow);
}

/// A set of indices is finite and has at most 65536 elements.
pub proof fn lemma_index_set_bound(s: Set<u16>)
    ensures
        s.finite(),
        s.len() <= 65536,
{
    lemma_all_indices();
    lemma_len_subset(s, Set::<u16>::full());
}

/// A bit vector with no bit set.
pub fn empty() -> (words: Vec<u64>)
    ensures
        words@.len() == WORDS,
        members(words@) == Set::<u16>::empty(),
{
    let words: Vec<u64> = vec![0u64; WORDS];
    proof {
        assert forall|index: u16| !is_set(words@, index) by {
            lemma_zero_word((index as int % 64) as u64);
        }
        assert(members(words@) =~= Set::<u16>::empty());
    }
    words
}

/// Whether `index` is a member.
pub fn contains(words: &Vec<u64>, index: u16) -> (present: bool)
    requires
        words@.len() == WORDS,
    ensures
        present == members(words@).contains(index),
{
    let word: u64 = words[(index / 64) as usize];
    let bit: u64 = (index % 64) as u64;
    (word >> bit) & 1 == 1
}

/// Sets the bit of `index`. Returns whether it was clear before.
pub fn insert(words: &mut Vec<u64>, index: u16) -> (changed: bool)
    requires
        old(words)@.len() == WORDS,
    ensures
        final(words)@.len() == WORDS,
        members(final(words)@) == members(old(words)@).insert(index),
        changed == !members(old(words)@).contains(index),
{
    let slot: usize = (index / 64) as usize;
    let bit: u64 = (index % 64) as u64;
    let word: u64 = words[slot];
    let present: bool = (word >> bit) & 1 == 1;
    let ghost before = words@;
    words[slot] = word | (1u64 << bit);
    proof {
        assert forall|x: u16| #[trigger] is_set(words@, x) == (x == index || is_set(before, x)) by {
            if x as int / 64 == slot as int {
                lemma_set_bit(word, bit, (x as int % 64) as u64);
            }
        }
        assert(members(words@) =~= members(before).insert(index));
    }
    !present
}

/// Clears the bit of `index`. Returns whether it was set before.
pub fn remove(words: &mut Vec<u64>, index: u16) -> (changed: bool)
    requires
        old(words)@.len() == WORDS,
    ensures
        final(words)@.len() == WORDS,
        members(final(words)@) == members(old(words)@).remove(index),
        changed == members(old(words)@).contains(index),
{
    let slot: usize = (index / 64) as usize;
    let bit: u64 = (index % 64) as u64;
    let word: u64 = words[slot];
    let present: bool = (word >> bit) & 1 == 1;
    let ghost before = words@;
    words[slot] = word & !(1u64 << bit);
    proof {
        assert forall|x: u16| #[trigger] is_set(words@, x) == (x != index && is_set(before, x)) by {
            if x as int / 64 == slot as int {
                lemma_clear_bit(word, bit, (x as int % 64) as u64);
            }
        }
        assert(members(words@) =~= members(before).remove(index));
    }
    present
}

/// Builds the bit vector that has the members of a sorted array.
pub fn from_sparse(arr: &Vec<u16>) -> (words: Vec<u64>)
    ensures
        words@.len() == WORDS,
        members(words@) == arr@.to_set(),
{
    let mut words: Vec<u64> = empty();
    let mut done: usize = 0;
    while done < arr.len()
        invariant
            done <= arr@.len(),
            words@.len() == WORDS,
            members(words@) == arr@.take(done as int).to_set(),
        decreases arr@.len() - done,
    {
        insert(&mut words, arr[done]);
        proof {
            let shorter = arr@.take(done as int);
            assert(arr@.take(done as int + 1) == shorter.push(arr@[done as int]));
            shorter.lemma_push_to_set_commute(arr@[done as int]);
        }
        done = done + 1;
    }
    proof {
        assert(arr@.take(arr@.len() as int) == arr@);
    }
    words
}

/// Lists the members of a bit vector in increasing order.
pub fn to_sparse(words: &Vec<u64>) -> (arr: Vec<u16>)
    requires
        words@.len() == WORDS,
    ensures
        strictly_increasing(arr@),
        arr@.to_set() == members(words@),
{
    let mut arr: Vec<u16> = Vec::new();
    let mut next: u32 = 0;
    while next < 65536
        invariant
            next <= 65536,
            words@.len() == WORDS,
            strictly_increasing(arr@),
            forall|j: int| 0 <= j < arr@.len() ==> arr@[j] < next && is_set(words@, arr@[j]),
            forall|x: u16| x < next && is_set(words@, x) ==> arr@.contains(x),
        decreases 65536 - next,
    {
        let index: u16 = next as u16;
        if contains(words, index) {
            let ghost before = arr@;
            arr.push(index);
            proof {
                assert forall|x: u16| x < next + 1 && is_set(words@, x) implies arr@.contains(x) by {
                    if x == index {
                        assert(arr@[before.len() as int] == x);
                    } else {
                        assert(before.contains(x));
                        let j = choose|j: int| 0 <= j < before.len() && before[j] == x;
                        assert(arr@[j] == x);
                    }
                }
            }
        }
        next = next + 1;
    }
    proof {
        assert forall|x: u16| arr@.to_set().contains(x) == members(words@).contains(x) by {
            if arr@.contains(x) {
                let j = choose|j: int| 0 <= j < arr@.len() && arr@[j] == x;
                assert(is_set(words@, arr@[j]));
            }
        }
        assert(arr@.to_set() =~= members(words@));
    }
    arr
}

} // verus!
