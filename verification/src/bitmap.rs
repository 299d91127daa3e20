//! The set of 32-bit values: containers ordered by block key.
//!
//! A container is created when the first value of its block is inserted and
//! is kept from then on, also when it becomes empty again: the sequence of
//! keys only ever grows.

use vstd::prelude::*;
use vstd::set_lib::*;
use crate::container::Container;
use crate::location::{
    calc_loc, compose, index_of, key_of, lemma_split_compose, lemma_split_injective,
};
use crate::store::{
    all_wf, holds, keys_increasing, keys_of, lemma_holder, lemma_insert_fresh, lemma_key_floor,
    lemma_replace, lemma_values_len, total, values,
};

verus! {

/// A compressed set of 32-bit values.
pub struct RoaringBitmap {
    containers: Vec<Container>,
}

impl RoaringBitmap {
    /// The values in the set.
    pub closed spec fn view(&self) -> Set<u32> {
        values(self.containers@)
    }

    /// The keys of the containers that exist, in the order in which they
    /// are stored.
    pub closed spec fn keys(&self) -> Seq<u16> {
        keys_of(self.containers@)
    }

    /// The indices present in block `key`.
    pub open spec fn block(&self, key: u16) -> Set<u16> {
        Set::new(|index: u16| self@.contains(compose(key, index)))
    }

    /// The invariant: every container is well formed, and the containers
    /// are ordered by strictly increasing key.
    pub closed spec fn wf(&self) -> bool {
        all_wf(self.containers@) && keys_increasing(self.containers@)
    }

    /// Creates an empty set.
    pub fn new() -> (bitmap: RoaringBitmap)
        ensures
            bitmap.wf(),
            bitmap@ == Set::<u32>::empty(),
            bitmap.keys() == Seq::<u16>::empty(),
    {
        let bitmap = RoaringBitmap { containers: Vec::new() };
        proof {
            assert(values(bitmap.containers@) =~= Set::<u32>::empty());
            assert(keys_of(bitmap.containers@) =~= Seq::<u16>::empty());
        }
        bitmap
    }

    /// Binary search for the container of block `key`.
    ///
    /// `Ok(i)` gives its position. `Err(i)` says that there is none and
    /// gives the position of the first container with a greater key, which
    /// is where one for `key` would have to be inserted.
    fn locate(&self, key: u16) -> (found: Result<usize, usize>)
        requires
            self.wf(),
        ensures
            match found {
                Ok(i) => i < self.containers@.len() && self.containers@[i as int].spec_key() == key,
                Err(i) => {
                    &&& i <= self.containers@.len()
                    &&& forall|j: int| 0 <= j < i ==> self.containers@[j].spec_key() < key
                    &&& forall|j: int|
                        i <= j < self.containers@.len() ==> self.containers@[j].spec_key() > key
                },
            },
    {
        let mut lo: usize = 0;
        let mut hi: usize = self.containers.len();
        while lo < hi
            invariant
                lo <= hi <= self.containers@.len(),
                keys_increasing(self.containers@),
                forall|j: int| 0 <= j < lo ==> self.containers@[j].spec_key() < key,
                forall|j: int|
                    hi <= j < self.containers@.len() ==> self.containers@[j].spec_key() > key,
            decreases hi - lo,
        {
            let mid: usize = lo + (hi - lo) / 2;
            let probe: u16 = self.containers[mid].key();
            if probe == key {
                return Ok(mid);
            } else if probe < key {
                lo = mid + 1;
            } else {
                hi = mid;
            }
        }
        Err(lo)
    }

    /// Adds a value to the set. Returns `true` if the value was not already
    /// present.
    ///
    /// A container for the value's block is created if there was none; this
    /// is the only way in which the sequence of keys changes.
    pub fn insert(&mut self, value: u32) -> (changed: bool)
        requires
            old(self).wf(),
        ensures
            final(self).wf(),
            final(self)@ == old(self)@.insert(value),
            changed == !old(self)@.contains(value),
            final(self).keys().to_set() == old(self).keys().to_set().insert(key_of(value)),
            old(self).keys().contains(key_of(value)) ==> final(self).keys() == old(self).keys(),
    {
        let (key, index) = calc_loc(value);
        let loc: usize = match self.locate(key) {
            Ok(loc) => {
                proof {
                    let keys = keys_of(self.containers@);
                    assert(keys[loc as int] == key);
                    assert(keys.to_set().insert(key) =~= keys.to_set());
                }
                loc
            },
            Err(loc) => {
                let fresh = Container::new(key);
                proof {
                    lemma_insert_fresh(self.containers@, loc as int, fresh);
                }
                self.containers.insert(loc, fresh);
                loc
            },
        };
        let ghost before = self.containers@;
        let changed: bool = self.containers[loc].insert(index);
        proof {
            let after = self.containers@;
            assert(after == before.update(loc as int, after[loc as int]));
            lemma_replace(before, loc as int, after[loc as int]);
            lemma_holder(before, loc as int, value);
            assert(values(after) =~= values(before).insert(value)) by {
                assert forall|v: u32| key_of(v) == key implies (index_of(v) == index <==> v
                    == value) && values(before).contains(v) == before[loc as int]@.contains(
                    index_of(v),
                ) by {
                    lemma_holder(before, loc as int, v);
                    if index_of(v) == index {
                        lemma_split_injective(v, value);
                    }
                }
            }
        }
        changed
    }

    /// Removes a value from the set. Returns `true` if the value was
    /// present.
    ///
    /// No container is created or dropped: one that becomes empty stays in
    /// its place.
    pub fn remove(&mut self, value: u32) -> (changed: bool)
        requires
            old(self).wf(),
        ensures
            final(self).wf(),
            final(self)@ == old(self)@.remove(value),
            changed == old(self)@.contains(value),
            final(self).keys() == old(self).keys(),
    {
        let (key, index) = calc_loc(value);
        match self.locate(key) {
            Ok(loc) => {
                let ghost before = self.containers@;
                let changed: bool = self.containers[loc].remove(index);
                proof {
                    let after = self.containers@;
                    assert(after == before.update(loc as int, after[loc as int]));
                    lemma_replace(before, loc as int, after[loc as int]);
                    lemma_holder(before, loc as int, value);
                    assert(values(after) =~= values(before).remove(value)) by {
                        assert forall|v: u32| key_of(v) == key implies (index_of(v) == index <==> v
                            == value) && values(before).contains(v) == before[loc as int]@.contains(
                            index_of(v),
                        ) by {
                            lemma_holder(before, loc as int, v);
                            if index_of(v) == index {
                                lemma_split_injective(v, value);
                            }
                        }
                    }
                }
                changed
            },
            Err(_) => {
                proof {
                    self.lemma_absent_block(value);
                    assert(self@.remove(value) =~= self@);
                }
                false
            },
        }
    }

    /// Returns `true` if the set contains `value`.
    pub fn contains(&self, value: u32) -> (present: bool)
        requires
            self.wf(),
        ensures
            present == self@.contains(value),
    {
        let (key, index) = calc_loc(value);
        match self.locate(key) {
            Ok(loc) => {
                proof {
                    lemma_holder(self.containers@, loc as int, value);
                }
                self.containers[loc].contains(index)
            },
            Err(_) => {
                proof {
                    self.lemma_absent_block(value);
                }
                false
            },
        }
    }

    /// Returns the number of values in the set: the sum of the containers'
    /// cardinalities. The result is 64 bits wide because the full set has
    /// 2^32 values, one more than 32 bits can count.
    pub fn cardinality(&self) -> (count: u64)
        requires
            self.wf(),
        ensures
            count == self@.len(),
            count <= 0x1_0000_0000,
    {
        let n: usize = self.containers.len();
        let mut sum: u64 = 0;
        let mut i: usize = 0;
        proof {
            if n > 0 {
                lemma_key_floor(self.containers@, n - 1);
            }
            assert(self.containers@.take(0) =~= Seq::<Container>::empty());
        }
        while i < n
            invariant
                i <= n <= 65536,
                n == self.containers@.len(),
                all_wf(self.containers@),
                sum == total(self.containers@.take(i as int)),
                sum <= i * 65536,
            decreases n - i,
        {
            proof {
                assert(self.containers@.take(i as int + 1).drop_last() =~= self.containers@.take(
                    i as int,
                ));
                assert(self.containers@.take(i as int + 1).last() == self.containers@[i as int]);
                assert(self.containers@[i as int].wf());
            }
            let part: u32 = self.containers[i].cardinality();
            sum = sum + part as u64;
            i = i + 1;
        }
        proof {
            assert(self.containers@.take(n as int) =~= self.containers@);
            lemma_values_len(self.containers@);
        }
        sum
    }

    /// Returns `true` if there are no values in the set.
    pub fn is_empty(&self) -> (empty: bool)
        requires
            self.wf(),
        ensures
            empty == (self@.len() == 0),
            empty == (self@ == Set::<u32>::empty()),
    {
        proof {
            lemma_values_len(self.containers@);
            lemma_set_empty_equivalency_len(self@);
        }
        self.cardinality() == 0
    }

    /// The number of containers that exist.
    pub fn container_count(&self) -> (count: usize)
        ensures
            count == self.keys().len(),
    {
        self.containers.len()
    }

    /// The keys of the containers that exist, in increasing order.
    pub fn container_keys(&self) -> (keys: Vec<u16>)
        ensures
            keys@ == self.keys(),
    {
        let mut keys: Vec<u16> = Vec::new();
        let mut i: usize = 0;
        while i < self.containers.len()
            invariant
                i <= self.containers@.len(),
                keys@ == keys_of(self.containers@).take(i as int),
            decreases self.containers@.len() - i,
        {
            keys.push(self.containers[i].key());
            assert(keys@ =~= keys_of(self.containers@).take(i as int + 1));
            i = i + 1;
        }
        assert(keys@ =~= keys_of(self.containers@));
        keys
    }

    /// The container of block `key`, if one exists.
    pub fn container(&self, key: u16) -> (found: Option<&Container>)
        requires
            self.wf(),
        ensures
            found is Some == self.keys().contains(key),
            match found {
                Some(container) => {
                    &&& container.wf()
                    &&& container.spec_key() == key
                    &&& container@ == self.block(key)
                },
                None => self.block(key) == Set::<u16>::empty(),
            },
    {
        match self.locate(key) {
            Ok(loc) => {
                proof {
                    assert(keys_of(self.containers@)[loc as int] == key);
                    assert forall|index: u16| self.containers@[loc as int]@.contains(index)
                        == self.block(key).contains(index) by {
                        lemma_split_compose(key, index);
                        lemma_holder(self.containers@, loc as int, compose(key, index));
                    }
                    assert(self.containers@[loc as int]@ =~= self.block(key));
                }
                Some(&self.containers[loc])
            },
            Err(_) => {
                proof {
                    assert(!keys_of(self.containers@).contains(key)) by {
                        if keys_of(self.containers@).contains(key) {
                            let i = choose|i: int|
                                0 <= i < self.containers@.len() && keys_of(self.containers@)[i]
                                    == key;
                            assert(self.containers@[i].spec_key() == key);
                        }
                    }
                    assert forall|index: u16| !self.block(key).contains(index) by {
                        lemma_split_compose(key, index);
                        self.lemma_absent_block(compose(key, index));
                    }
                    assert(self.block(key) =~= Set::<u16>::empty());
                }
                None
            },
        }
    }

    /// A value whose block has no container is not in the set.
    proof fn lemma_absent_block(&self, value: u32)
        requires
            forall|j: int|
                0 <= j < self.containers@.len() ==> self.containers@[j].spec_key() != key_of(value),
        ensures
            !self@.contains(value),
    {
        if self@.contains(value) {
            let i = choose|i: int|
                0 <= i < self.containers@.len() && holds(self.containers@[i], value);
            assert(self.containers@[i].spec_key() == key_of(value));
        }
    }

    /// The set is finite.
    pub proof fn lemma_finite(&self)
        requires
            self.wf(),
        ensures
            self@.finite(),
    {
        lemma_values_len(self.containers@);
    }

    /// The keys of the containers are strictly increasing: the containers
    /// are sorted and no two of them share a key.
    pub proof fn lemma_keys_increasing(&self)
        requires
            self.wf(),
        ensures
            forall|i: int, j: int|
                0 <= i < j < self.keys().len() ==> self.keys()[i] < self.keys()[j],
            self.keys().no_duplicates(),
            self.keys().len() <= 65536,
    {
        let n = self.containers@.len();
        if n > 0 {
            lemma_key_floor(self.containers@, n - 1);
        }
        assert forall|i: int, j: int| 0 <= i < j < self.keys().len() implies self.keys()[i]
            < self.keys()[j] by {
            assert(self.containers@[i].spec_key() < self.containers@[j].spec_key());
        }
    }
}

} // verus!
