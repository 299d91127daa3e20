//! The ordered sequence of containers, as a mathematical object: which
//! values it holds, what keeps it well formed, and how these change when a
//! container is replaced or a new one is put in.

use vstd::prelude::*;
use vstd::relations::injective_on;
use vstd::set_lib::*;
use crate::container::Container;
use crate::location::{compose, index_of, key_of, lemma_compose_split, lemma_split_compose};
use crate::sparse::lemma_insert_to_set;

verus! {

/// Whether `value` belongs to the block of `container` and is present in it.
pub open spec fn holds(container: Container, value: u32) -> bool {
    container.spec_key() == key_of(value) && container@.contains(index_of(value))
}

/// The values that some container of the sequence holds.
pub open spec fn values(containers: Seq<Container>) -> Set<u32> {
    Set::new(
        |value: u32|
            exists|i: int| 0 <= i < containers.len() && holds(#[trigger] containers[i], value),
    )
}

/// The keys of the containers, in their order.
pub open spec fn keys_of(containers: Seq<Container>) -> Seq<u16> {
    Seq::new(containers.len(), |i: int| containers[i].spec_key())
}

/// The keys grow from each container to the next, so no key occurs twice.
pub open spec fn keys_increasing(containers: Seq<Container>) -> bool {
    forall|i: int, j: int|
        0 <= i < j < containers.len() ==> containers[i].spec_key() < containers[j].spec_key()
}

/// Every container satisfies its own invariant.
pub open spec fn all_wf(containers: Seq<Container>) -> bool {
    forall|i: int| 0 <= i < containers.len() ==> (#[trigger] containers[i]).wf()
}

/// The cardinalities of the containers, added up.
pub open spec fn total(containers: Seq<Container>) -> nat
    decreases containers.len(),
{
    if containers.len() == 0 {
        0
    } else {
        total(containers.drop_last()) + containers.last()@.len()
    }
}

/// The values of one container, as 32-bit values.
pub open spec fn block_values(container: Container) -> Set<u32> {
    container@.map(|index: u16| compose(container.spec_key(), index))
}

/// A container holds as many 32-bit values as it has indices, and they are
/// the values of its block whose index is present.
pub proof fn lemma_block_values(container: Container)
    requires
        container.wf(),
    ensures
        block_values(container).finite(),
        block_values(container).len() == container@.len(),
        forall|value: u32| block_values(container).contains(value) == holds(container, value),
{
    let key = container.spec_key();
    let lift = |index: u16| compose(key, index);
    container.lemma_wf();
    assert(injective_on(lift, container@)) by {
        assert forall|a: u16, b: u16| #[trigger] lift(a) == #[trigger] lift(b) implies a == b by {
            lemma_split_compose(key, a);
            lemma_split_compose(key, b);
        }
    }
    lemma_map_size(container@, block_values(container), lift);
    assert forall|value: u32| block_values(container).contains(value) == holds(
        container,
        value,
    ) by {
        if block_values(container).contains(value) {
            let index = choose|index: u16| container@.contains(index) && lift(index) == value;
            lemma_split_compose(key, index);
        }
        if holds(container, value) {
            lemma_compose_split(value);
            assert(lift(index_of(value)) == value);
        }
    }
}

/// With increasing keys, the values held are as many as the cardinalities
/// of the containers add up to.
pub proof fn lemma_values_len(containers: Seq<Container>)
    requires
        all_wf(containers),
        keys_increasing(containers),
    ensures
        values(containers).finite(),
        values(containers).len() == total(containers),
    decreases containers.len(),
{
    if containers.len() == 0 {
        assert(values(containers) =~= Set::<u32>::empty());
    } else {
        let rest = containers.drop_last();
        let last = containers.last();
        lemma_values_len(rest);
        lemma_block_values(last);
        assert forall|value: u32| values(containers).contains(value) == (values(rest)
            + block_values(last)).contains(value) by {
            if values(containers).contains(value) {
                let i = choose|i: int| 0 <= i < containers.len() && holds(containers[i], value);
                if i < rest.len() {
                    assert(holds(rest[i], value));
                }
            }
            if values(rest).contains(value) {
                let i = choose|i: int| 0 <= i < rest.len() && holds(rest[i], value);
                assert(holds(containers[i], value));
            }
            if block_values(last).contains(value) {
                assert(holds(containers[containers.len() - 1], value));
            }
        }
        assert(values(containers) =~= values(rest) + block_values(last));
        assert(values(rest).disjoint(block_values(last))) by {
            assert forall|value: u32|
                !(values(rest).contains(value) && block_values(last).contains(value)) by {
                if values(rest).contains(value) && block_values(last).contains(value) {
                    let i = choose|i: int| 0 <= i < rest.len() && holds(rest[i], value);
                    assert(containers[i].spec_key() < containers[containers.len() - 1].spec_key());
                }
            }
        }
        lemma_set_disjoint_lens(values(rest), block_values(last));
    }
}

/// With increasing keys, the container at position `i` has a key of at
/// least `i`, so there are at most 65536 containers.
pub proof fn lemma_key_floor(containers: Seq<Container>, i: int)
    requires
        keys_increasing(containers),
        0 <= i < containers.len(),
    ensures
        containers[i].spec_key() >= i,
    decreases i,
{
    if i > 0 {
        lemma_key_floor(containers, i - 1);
    }
}

/// With increasing keys, the one container that has the key of `value`
/// decides whether `value` is held.
pub proof fn lemma_holder(containers: Seq<Container>, at: int, value: u32)
    requires
        keys_increasing(containers),
        0 <= at < containers.len(),
        containers[at].spec_key() == key_of(value),
    ensures
        values(containers).contains(value) == containers[at]@.contains(index_of(value)),
{
    if values(containers).contains(value) {
        let i = choose|i: int| 0 <= i < containers.len() && holds(containers[i], value);
        assert(i == at) by {
            if i < at {
                assert(containers[i].spec_key() < containers[at].spec_key());
            }
            if at < i {
                assert(containers[at].spec_key() < containers[i].spec_key());
            }
        }
    }
    if containers[at]@.contains(index_of(value)) {
        assert(holds(containers[at], value));
    }
}

/// Replacing one container by another with the same key changes the values
/// held in that block only.
pub proof fn lemma_replace(containers: Seq<Container>, at: int, with: Container)
    requires
        keys_increasing(containers),
        0 <= at < containers.len(),
        with.spec_key() == containers[at].spec_key(),
    ensures
        keys_increasing(containers.update(at, with)),
        keys_of(containers.update(at, with)) == keys_of(containers),
        forall|value: u32|
            #[trigger] values(containers.update(at, with)).contains(value) == (if key_of(value)
                == with.spec_key() {
                with@.contains(index_of(value))
            } else {
                values(containers).contains(value)
            }),
{
    let after = containers.update(at, with);
    assert forall|i: int, j: int| 0 <= i < j < after.len() implies after[i].spec_key()
        < after[j].spec_key() by {
        assert(containers[i].spec_key() < containers[j].spec_key());
    }
    assert(keys_of(after) =~= keys_of(containers));
    assert forall|value: u32|
        #[trigger] values(after).contains(value) == (if key_of(value) == with.spec_key() {
            with@.contains(index_of(value))
        } else {
            values(containers).contains(value)
        }) by {
        if key_of(value) == with.spec_key() {
            lemma_holder(after, at, value);
        } else {
            if values(after).contains(value) {
                let i = choose|i: int| 0 <= i < after.len() && holds(after[i], value);
                assert(holds(containers[i], value));
            }
            if values(containers).contains(value) {
                let i = choose|i: int| 0 <= i < containers.len() && holds(containers[i], value);
                assert(holds(after[i], value));
            }
        }
    }
}

/// Putting an empty container for a new key at the place that the order
/// of the keys gives it keeps the sequence well formed, adds the key and
/// adds no value.
pub proof fn lemma_insert_fresh(containers: Seq<Container>, at: int, fresh: Container)
    requires
        all_wf(containers),
        keys_increasing(containers),
        0 <= at <= containers.len(),
        fresh.wf(),
        fresh@ == Set::<u16>::empty(),
        forall|j: int| 0 <= j < at ==> containers[j].spec_key() < fresh.spec_key(),
        forall|j: int| at <= j < containers.len() ==> containers[j].spec_key() > fresh.spec_key(),
    ensures
        all_wf(containers.insert(at, fresh)),
        keys_increasing(containers.insert(at, fresh)),
        values(containers.insert(at, fresh)) == values(containers),
        keys_of(containers.insert(at, fresh)) == keys_of(containers).insert(at, fresh.spec_key()),
        !keys_of(containers).contains(fresh.spec_key()),
        keys_of(containers.insert(at, fresh)).to_set() == keys_of(containers).to_set().insert(
            fresh.spec_key(),
        ),
{
    let after = containers.insert(at, fresh);
    let key = fresh.spec_key();
    assert forall|i: int| 0 <= i < after.len() implies (#[trigger] after[i]).wf() by {
        if i < at {
            assert(after[i] == containers[i]);
        } else if i > at {
            assert(after[i] == containers[i - 1]);
        }
    }
    assert forall|i: int, j: int| 0 <= i < j < after.len() implies after[i].spec_key()
        < after[j].spec_key() by {
        if i < at {
            assert(after[i] == containers[i]);
        } else if i > at {
            assert(after[i] == containers[i - 1]);
        }
        if j < at {
            assert(after[j] == containers[j]);
        } else if j > at {
            assert(after[j] == containers[j - 1]);
        }
    }
    assert forall|value: u32| values(after).contains(value) == values(containers).contains(
        value,
    ) by {
        if values(after).contains(value) {
            let i = choose|i: int| 0 <= i < after.len() && holds(after[i], value);
            if i < at {
                assert(holds(containers[i], value));
            } else {
                assert(i > at);
                assert(holds(containers[i - 1], value));
            }
        }
        if values(containers).contains(value) {
            let i = choose|i: int| 0 <= i < containers.len() && holds(containers[i], value);
            if i < at {
                assert(holds(after[i], value));
            } else {
                assert(holds(after[i + 1], value));
            }
        }
    }
    assert(values(after) =~= values(containers));
    assert(keys_of(after) =~= keys_of(containers).insert(at, key));
    if keys_of(containers).contains(key) {
        let i = choose|i: int| 0 <= i < containers.len() && keys_of(containers)[i] == key;
        assert(containers[i].spec_key() == key);
    }
    lemma_insert_to_set(keys_of(containers), at, key);
}

} // verus!
