//! The sparse representation: a strictly increasing array of 16-bit indices.

use vstd::prelude::*;

verus! {

/// Every element is smaller than all the elements behind it.
pub open spec fn strictly_increasing(s: Seq<u16>) -> bool {
    forall|i: int, j: int| 0 <= i < j < s.len() ==> s[i] < s[j]
}

/// Inserting an element anywhere into a sequence adds it to the set of the
/// sequence's elements.
pub proof fn lemma_insert_to_set(s: Seq<u16>, at: int, element: u16)
    requires
        0 <= at <= s.len(),
    ensures
        s.insert(at, element).to_set() == s.to_set().insert(element),
{
    let longer = s.insert(at, element);
    assert forall|x: u16| longer.to_set().contains(x) == s.to_set().insert(element).contains(
        x,
    ) by {
        if longer.contains(x) {
            let j = choose|j: int| 0 <= j < longer.len() && longer[j] == x;
            if j < at {
                assert(s[j] == x);
            } else if j > at {
                assert(s[j - 1] == x);
            }
        }
        if s.contains(x) {
            let j = choose|j: int| 0 <= j < s.len() && s[j] == x;
            if j < at {
                assert(longer[j] == x);
            } else {
                assert(longer[j + 1] == x);
            }
        }
        if x == element {
            assert(longer[at] == x);
        }
    }
    assert(longer.to_set() =~= s.to_set().insert(element));
}

/// Binary search for `index`.
///
/// `Ok(i)` gives the position of `index`. `Err(i)` says that `index` is
/// absent and gives the position of the first element greater than it, which
/// is where it would have to be inserted.
pub fn search(arr: &Vec<u16>, index: u16) -> (found: Result<usize, usize>)
    requires
        strictly_increasing(arr@),
    ensures
        match found {
            Ok(i) => i < arr@.len() && arr@[i as int] == index,
            Err(i) => {
                &&& i <= arr@.len()
                &&& !arr@.to_set().contains(index)
                &&& forall|j: int| 0 <= j < i ==> arr@[j] < index
                &&& forall|j: int| i <= j < arr@.len() ==> arr@[j] > index
            },
        },
        found is Ok <==> arr@.to_set().contains(index),
{
    let mut lo: usize = 0;
    let mut hi: usize = arr.len();
    while lo < hi
        invariant
            lo <= hi <= arr@.len(),
            strictly_increasing(arr@),
            forall|j: int| 0 <= j < lo ==> arr@[j] < index,
            forall|j: int| hi <= j < arr@.len() ==> arr@[j] > index,
        decreases hi - lo,
    {
        let mid: usize = lo + (hi - lo) / 2;
        let probe: u16 = arr[mid];
        if probe == index {
            assert(arr@.contains(index));
            return Ok(mid);
        } else if probe < index {
            lo = mid + 1;
        } else {
            hi = mid;
        }
    }
    assert(!arr@.contains(index)) by {
        if arr@.contains(index) {
            let j = choose|j: int| 0 <= j < arr@.len() && arr@[j] == index;
            assert(j < lo || j >= hi);
        }
    }
    Err(lo)
}

/// Adds `index` to the array, keeping it strictly increasing. Returns
/// whether the array changed.
pub fn insert(arr: &mut Vec<u16>, index: u16) -> (changed: bool)
    requires
        strictly_increasing(old(arr)@),
    ensures
        strictly_increasing(final(arr)@),
        final(arr)@.to_set() == old(arr)@.to_set().insert(index),
        changed == !old(arr)@.to_set().contains(index),
        final(arr)@.len() == old(arr)@.len() + (if changed { 1int } else { 0int }),
{
    match search(arr, index) {
        Ok(_) => {
            assert(arr@.to_set().insert(index) =~= arr@.to_set());
            false
        },
        Err(loc) => {
            let ghost before = arr@;
            arr.insert(loc, index);
            proof {
                let after = arr@;
                assert(after == before.insert(loc as int, index));
                assert forall|i: int, j: int| 0 <= i < j < after.len() implies after[i]
                    < after[j] by {
                    if i < loc {
                        assert(after[i] == before[i]);
                    } else if i > loc {
                        assert(after[i] == before[i - 1]);
                    }
                    if j < loc {
                        assert(after[j] == before[j]);
                    } else if j > loc {
                        assert(after[j] == before[j - 1]);
                    }
                }
                lemma_insert_to_set(before, loc as int, index);
            }
            true
        },
    }
}

/// Takes `index` out of the array. Returns whether the array changed.
pub fn remove(arr: &mut Vec<u16>, index: u16) -> (changed: bool)
    requires
        strictly_increasing(old(arr)@),
    ensures
        strictly_increasing(final(arr)@),
        final(arr)@.to_set() == old(arr)@.to_set().remove(index),
        changed == old(arr)@.to_set().contains(index),
        final(arr)@.len() == old(arr)@.len() - (if changed { 1int } else { 0int }),
{
    match search(arr, index) {
        Ok(loc) => {
            let ghost before = arr@;
            arr.remove(loc);
            proof {
                let after = arr@;
                assert(after == before.remove(loc as int));
                assert forall|i: int, j: int| 0 <= i < j < after.len() implies after[i]
                    < after[j] by {
                    if i < loc {
                        assert(after[i] == before[i]);
                    } else {
                        assert(after[i] == before[i + 1]);
                    }
                    if j < loc {
                        assert(after[j] == before[j]);
                    } else {
                        assert(after[j] == before[j + 1]);
                    }
                }
                assert forall|x: u16| after.to_set().contains(x) == before.to_set().remove(
                    index,
                ).contains(x) by {
                    if after.contains(x) {
                        let j = choose|j: int| 0 <= j < after.len() && after[j] == x;
                        if j < loc {
                            assert(before[j] == x);
                        } else {
                            assert(before[j + 1] == x);
                        }
                    }
                    if before.contains(x) && x != index {
                        let j = choose|j: int| 0 <= j < before.len() && before[j] == x;
                        if j < loc {
                            assert(after[j] == x);
                        } else {
                            assert(j > loc);
                            assert(after[j - 1] == x);
                        }
                    }
                }
                assert(after.to_set() =~= before.to_set().remove(index));
            }
            true
        },
        Err(_) => {
            assert(arr@.to_set().remove(index) =~= arr@.to_set());
            false
        },
    }
}

} // verus!
