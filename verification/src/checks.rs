//! The outcome of checking numbered items in order.
use vstd::prelude::*;

verus! {

/// The failure of the first of `count` checks that fails, or success when all
/// of them succeed.
pub open spec fn first_error<E>(count: nat, check: spec_fn(int) -> Result<(), E>) -> Result<(), E>
    decreases count,
{
    if count == 0 {
        Ok(())
    } else {
        match first_error((count - 1) as nat, check) {
            Err(error) => Err(error),
            Ok(()) => check(count - 1),
        }
    }
}

/// The least index below `count` that satisfies `wanted`.
pub open spec fn least_index(count: nat, wanted: spec_fn(int) -> bool) -> Option<int>
    decreases count,
{
    if count == 0 {
        None
    } else {
        match least_index((count - 1) as nat, wanted) {
            Some(index) => Some(index),
            None => if wanted(count - 1) {
                Some(count - 1)
            } else {
                None
            },
        }
    }
}

/// A failure among the first checks is the failure of all of them.
pub proof fn lemma_first_error_stays<E>(
    few: nat,
    count: nat,
    check: spec_fn(int) -> Result<(), E>,
)
    requires
        few <= count,
        first_error(few, check) is Err,
    ensures
        first_error(count, check) == first_error(few, check),
    decreases count,
{
    if few < count {
        lemma_first_error_stays(few, (count - 1) as nat, check);
    }
}

/// All checks succeed exactly when each of them does.
pub proof fn lemma_first_error_ok<E>(count: nat, check: spec_fn(int) -> Result<(), E>)
    ensures
        first_error(count, check) is Ok <==> (forall|k: int|
            0 <= k < count ==> (#[trigger] check(k)) is Ok),
    decreases count,
{
    if count > 0 {
        lemma_first_error_ok((count - 1) as nat, check);
        if first_error(count, check) is Ok {
            assert(first_error((count - 1) as nat, check) is Ok);
        }
        if forall|k: int| 0 <= k < count ==> (#[trigger] check(k)) is Ok {
            assert(check(count - 1) is Ok);
        }
    }
}

/// Where checks fail, the first failure is that of some check before which all
/// succeed.
pub proof fn lemma_first_error_at<E>(count: nat, check: spec_fn(int) -> Result<(), E>) -> (at: int)
    requires
        first_error(count, check) is Err,
    ensures
        0 <= at < count,
        check(at) == first_error(count, check),
        forall|k: int| 0 <= k < at ==> (#[trigger] check(k)) is Ok,
    decreases count,
{
    if first_error((count - 1) as nat, check) is Err {
        lemma_first_error_at((count - 1) as nat, check)
    } else {
        lemma_first_error_ok((count - 1) as nat, check);
        count - 1
    }
}

/// What the least index is.
pub proof fn lemma_least_index(count: nat, wanted: spec_fn(int) -> bool)
    ensures
        match least_index(count, wanted) {
            Some(index) => {
                &&& 0 <= index < count
                &&& wanted(index)
                &&& forall|k: int| 0 <= k < index ==> !(#[trigger] wanted(k))
            },
            None => forall|k: int| 0 <= k < count ==> !(#[trigger] wanted(k)),
        },
    decreases count,
{
    if count > 0 {
        lemma_least_index((count - 1) as nat, wanted);
    }
}

/// The least index is the one that is wanted and before which none is.
pub proof fn lemma_least_index_is(count: nat, wanted: spec_fn(int) -> bool, index: int)
    requires
        0 <= index < count,
        wanted(index),
        forall|k: int| 0 <= k < index ==> !(#[trigger] wanted(k)),
    ensures
        least_index(count, wanted) == Some(index),
{
    lemma_least_index(count, wanted);
    match least_index(count, wanted) {
        Some(found) => {
            if found < index {
                assert(!wanted(found));
            } else if index < found {
                assert(!wanted(index));
            }
        },
        None => {
            assert(!wanted(index));
        },
    }
}

} // verus!
