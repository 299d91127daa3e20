//! One block of 65536 values, stored sparse or dense according to how many
//! of them are present.

use vstd::prelude::*;
use crate::dense;
use crate::dense::lemma_index_set_bound;
use crate::sparse;
use crate::sparse::strictly_increasing;

verus! {

/// The cardinality up to which a container is sparse. A sorted array of
/// this many 16-bit indices takes as much memory as the bit vector.
///
/// The same threshold is used in both directions: a container is dense
/// exactly while it holds more than this many indices.
pub const THRESHOLD: u32 = 4096;

/// How a container stores its indices.
enum Representation {
    /// A strictly increasing array of the indices present.
    Sparse(Vec<u16>),
    /// A bit vector with one bit for each possible index.
    Dense(Vec<u64>),
}

/// The subset of one block that is currently present.
pub struct Container {
    key: u16,
    len: u32,
    repr: Representation,
}

impl Container {
    /// The indices present, whatever the representation.
    pub closed spec fn view(&self) -> Set<u16> {
        match self.repr {
            Representation::Sparse(arr) => arr@.to_set(),
            Representation::Dense(words) => dense::members(words@),
        }
    }

    /// The key of the block that this container holds.
    pub closed spec fn spec_key(&self) -> u16 {
        self.key
    }

    /// Whether the dense representation is in use.
    pub closed spec fn dense(&self) -> bool {
        self.repr is Dense
    }

    /// The container's invariant: the counter is the number of indices
    /// present, the sparse array is strictly increasing, the bit vector has
    /// its full length, and the representation is dense exactly above the
    /// threshold.
    pub closed spec fn wf(&self) -> bool {
        &&& self@.finite()
        &&& self.len == self@.len()
        &&& match self.repr {
            Representation::Sparse(arr) => strictly_increasing(arr@) && self.len <= THRESHOLD,
            Representation::Dense(words) => words@.len() == dense::WORDS && self.len > THRESHOLD,
        }
    }

    /// What the invariant says to the outside: the set of indices is finite,
    /// holds at most 65536 of them, and the representation follows from its
    /// size alone.
    pub proof fn lemma_wf(&self)
        requires
            self.wf(),
        ensures
            self@.finite(),
            self@.len() <= 65536,
            self.dense() == (self@.len() > THRESHOLD),
    {
        lemma_index_set_bound(self@);
    }

    /// An empty, sparse container for block `key`.
    pub fn new(key: u16) -> (container: Container)
        ensures
            container.wf(),
            container.spec_key() == key,
            container@ == Set::<u16>::empty(),
            !container.dense(),
    {
        let arr: Vec<u16> = Vec::new();
        proof {
            assert(arr@.to_set() =~= Set::<u16>::empty());
        }
        Container { key, len: 0, repr: Representation::Sparse(arr) }
    }

    /// The key of the block that this container holds.
    pub fn key(&self) -> (key: u16)
        ensures
            key == self.spec_key(),
    {
        self.key
    }

    /// The number of indices present, read from the maintained counter.
    pub fn cardinality(&self) -> (count: u32)
        requires
            self.wf(),
        ensures
            count == self@.len(),
            count <= 65536,
    {
        proof {
            self.lemma_wf();
        }
        self.len
    }

    /// Whether the container is stored as a bit vector, which is so exactly
    /// when it holds more than `THRESHOLD` indices.
    pub fn is_dense(&self) -> (dense: bool)
        requires
            self.wf(),
        ensures
            dense == self.dense(),
            dense == (self@.len() > THRESHOLD),
    {
        match &self.repr {
            Representation::Sparse(_) => false,
            Representation::Dense(_) => true,
        }
    }

    /// Whether `index` is present.
    pub fn contains(&self, index: u16) -> (present: bool)
        requires
            self.wf(),
        ensures
            present == self@.contains(index),
    {
        match &self.repr {
            Representation::Sparse(arr) => sparse::search(arr, index).is_ok(),
            Representation::Dense(words) => dense::contains(words, index),
        }
    }

    /// Adds `index`. Returns whether the set changed. A sparse container
    /// becomes dense when this takes it above the threshold.
    pub fn insert(&mut self, index: u16) -> (changed: bool)
        requires
            old(self).wf(),
        ensures
            final(self).wf(),
            final(self).spec_key() == old(self).spec_key(),
            final(self)@ == old(self)@.insert(index),
            changed == !old(self)@.contains(index),
            final(self).dense() == (final(self)@.len() > THRESHOLD),
    {
        let changed: bool = match &mut self.repr {
            Representation::Sparse(arr) => sparse::insert(arr, index),
            Representation::Dense(words) => dense::insert(words, index),
        };
        if changed {
            proof {
                lemma_index_set_bound(self@);
            }
            self.len = self.len + 1;
            if self.len > THRESHOLD {
                self.densify();
            }
        }
        changed
    }

    /// Removes `index`. Returns whether the set changed. A dense container
    /// becomes sparse when this takes it down to the threshold.
    pub fn remove(&mut self, index: u16) -> (changed: bool)
        requires
            old(self).wf(),
        ensures
            final(self).wf(),
            final(self).spec_key() == old(self).spec_key(),
            final(self)@ == old(self)@.remove(index),
            changed == old(self)@.contains(index),
            final(self).dense() == (final(self)@.len() > THRESHOLD),
    {
        let changed: bool = match &mut self.repr {
            Representation::Sparse(arr) => sparse::remove(arr, index),
            Representation::Dense(words) => dense::remove(words, index),
        };
        if changed {
            self.len = self.len - 1;
            if self.len <= THRESHOLD {
                self.sparsify();
            }
        }
        changed
    }

    /// Rebuilds a sparse payload as a bit vector. The indices present, the
    /// counter and the key stay as they are.
    fn densify(&mut self)
        requires
            old(self).repr matches Representation::Dense(words) ==> words@.len() == dense::WORDS,
        ensures
            final(self)@ == old(self)@,
            final(self).key == old(self).key,
            final(self).len == old(self).len,
            final(self).repr matches Representation::Dense(words) && words@.len() == dense::WORDS,
    {
        let words: Option<Vec<u64>> = match &self.repr {
            Representation::Sparse(arr) => Some(dense::from_sparse(arr)),
            Representation::Dense(_) => None,
        };
        match words {
            Some(words) => {
                self.repr = Representation::Dense(words);
            },
            None => {},
        }
    }

    /// Rebuilds a dense payload as a sorted array. The indices present, the
    /// counter and the key stay as they are.
    fn sparsify(&mut self)
        requires
            old(self).repr matches Representation::Dense(words) ==> words@.len() == dense::WORDS,
            old(self).repr matches Representation::Sparse(arr) ==> strictly_increasing(arr@),
        ensures
            final(self)@ == old(self)@,
            final(self).key == old(self).key,
            final(self).len == old(self).len,
            final(self).repr matches Representation::Sparse(arr) && strictly_increasing(arr@),
    {
        let arr: Option<Vec<u16>> = match &self.repr {
            Representation::Sparse(_) => None,
            Representation::Dense(words) => Some(dense::to_sparse(words)),
        };
        match arr {
            Some(arr) => {
                self.repr = Representation::Sparse(arr);
            },
            None => {},
        }
    }
}

} // verus!
