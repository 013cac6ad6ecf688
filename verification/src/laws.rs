//! What holds of every arena whatever is asked of it.

use vstd::prelude::*;
use vstd::arithmetic::power2::pow2;
use vstd::bits::lemma_u64_pow2_no_overflow;
use crate::header::{UID_LOCKED, UID_UNLOCKED};
use crate::occupancy::lemma_occupied_bound;
use crate::storage::{BucketStorage, BucketStorageError};

verus! {

/// One call that changes an arena.
pub enum Call {
    Allocate { ix: u64, is_resizing: bool },
    Free { ix: u64 },
}

/// True if `call` is made for an entry of the arena's own: it occupies a cell
/// for a new entry, which is to be counted, or frees a cell.
pub open spec fn counts(call: Call) -> bool {
    match call {
        Call::Allocate { ix, is_resizing } => !is_resizing,
        Call::Free { ix } => true,
    }
}

/// What `allocate` returns on cell `ix` of `arena`.
pub open spec fn allocate_result(arena: &BucketStorage, ix: int) -> Result<
    (),
    BucketStorageError,
> {
    if arena.is_free_spec(ix) {
        Ok(())
    } else {
        Err(BucketStorageError::AlreadyAllocated)
    }
}

/// True if `call` is one that `before` allows, and leaves `after`.
pub open spec fn leads(before: &BucketStorage, call: Call, after: &BucketStorage) -> bool {
    match call {
        Call::Allocate { ix, is_resizing } => {
            &&& ix < before.capacity_spec()
            &&& BucketStorage::allocates(
                before,
                after,
                ix as int,
                is_resizing,
                allocate_result(before, ix as int),
            )
        },
        Call::Free { ix } => {
            &&& ix < before.capacity_spec()
            &&& !before.is_free_spec(ix as int)
            &&& BucketStorage::frees(before, after, ix as int)
        },
    }
}

/// True if `states` are the states that an arena goes through as `calls` are
/// made on it one after the other, from `states[0]` on.
pub open spec fn is_run(states: Seq<BucketStorage>, calls: Seq<Call>) -> bool {
    &&& states.len() == calls.len() + 1
    &&& forall|k: int|
        0 <= k < calls.len() ==> leads(&#[trigger] states[k], calls[k], &states[k + 1])
}

/// A cell that was occupied cannot be occupied again: of two calls of
/// `allocate` on a free cell the first succeeds and leaves the cell
/// occupied, and the second fails and changes nothing.
pub proof fn lemma_allocate_twice(
    start: &BucketStorage,
    once: &BucketStorage,
    twice: &BucketStorage,
    ix: int,
    first_is_resizing: bool,
    second_is_resizing: bool,
    first: Result<(), BucketStorageError>,
    second: Result<(), BucketStorageError>,
)
    requires
        start.wf(),
        0 <= ix < start.capacity_spec(),
        start.is_free_spec(ix),
        BucketStorage::allocates(start, once, ix, first_is_resizing, first),
        BucketStorage::allocates(once, twice, ix, second_is_resizing, second),
    ensures
        first is Ok,
        !once.is_free_spec(ix),
        second == Err::<(), BucketStorageError>(BucketStorageError::AlreadyAllocated),
        *twice == *once,
{
    BucketStorage::lemma_lock_word_written(start, once, ix, UID_LOCKED);
}

/// A freed cell can be occupied again: after `allocate` has occupied a cell,
/// `free` may be called on it and leaves it free, and `allocate` succeeds on
/// it once more.
pub proof fn lemma_free_then_allocate(
    start: &BucketStorage,
    occupied: &BucketStorage,
    freed: &BucketStorage,
    again: &BucketStorage,
    ix: int,
    first_is_resizing: bool,
    second_is_resizing: bool,
    first: Result<(), BucketStorageError>,
    second: Result<(), BucketStorageError>,
)
    requires
        start.wf(),
        0 <= ix < start.capacity_spec(),
        first is Ok,
        BucketStorage::allocates(start, occupied, ix, first_is_resizing, first),
        BucketStorage::frees(occupied, freed, ix),
        BucketStorage::allocates(freed, again, ix, second_is_resizing, second),
    ensures
        occupied.wf(),
        !occupied.is_free_spec(ix),
        freed.wf(),
        freed.is_free_spec(ix),
        second is Ok,
        !again.is_free_spec(ix),
{
    BucketStorage::lemma_lock_word_written(start, occupied, ix, UID_LOCKED);
    BucketStorage::lemma_lock_word_written(occupied, freed, ix, UID_UNLOCKED);
    BucketStorage::lemma_lock_word_written(freed, again, ix, UID_LOCKED);
}

/// One call keeps the count right: where the count was the number of
/// occupied cells before it, it is so after it.
pub proof fn lemma_call_keeps_count(before: &BucketStorage, call: Call, after: &BucketStorage)
    requires
        before.wf(),
        before.count == before.occupied(),
        leads(before, call, after),
        counts(call),
    ensures
        after.wf(),
        after.count == after.occupied(),
{
    lemma_occupied_bound(before.free_cells());
    lemma_u64_pow2_no_overflow(before.capacity_pow2 as nat);
    match call {
        Call::Allocate { ix, is_resizing } => {
            if before.is_free_spec(ix as int) {
                BucketStorage::lemma_lock_word_written(before, after, ix as int, UID_LOCKED);
            }
        },
        Call::Free { ix } => {
            BucketStorage::lemma_lock_word_written(before, after, ix as int, UID_UNLOCKED);
        },
    }
}

/// The count is the number of occupied cells: where it was so at the start,
/// it is so after every call of `allocate` for a new entry and of `free`,
/// however many are made.
pub proof fn lemma_count_is_occupancy(states: Seq<BucketStorage>, calls: Seq<Call>)
    requires
        is_run(states, calls),
        forall|k: int| 0 <= k < calls.len() ==> counts(#[trigger] calls[k]),
        states[0].wf(),
        states[0].count == states[0].occupied(),
    ensures
        forall|k: int|
            0 <= k < states.len() ==> (#[trigger] states[k]).wf() && states[k].count
                == states[k].occupied(),
    decreases calls.len(),
{
    if calls.len() > 0 {
        let last = calls.len() as int;
        lemma_run_prefix(states, calls);
        assert forall|k: int| 0 <= k < last - 1 implies counts(
            #[trigger] calls.drop_last()[k],
        ) by {
            assert(counts(calls[k]));
        }
        lemma_count_is_occupancy(states.drop_last(), calls.drop_last());
        assert(states.drop_last()[last - 1] == states[last - 1]);
        assert(leads(&states[last - 1], calls[last - 1], &states[last]));
        lemma_call_keeps_count(&states[last - 1], calls[last - 1], &states[last]);
        assert forall|k: int| 0 <= k < states.len() implies (#[trigger] states[k]).wf()
            && states[k].count == states[k].occupied() by {
            if k < last {
                assert(states.drop_last()[k] == states[k]);
            }
        }
    }
}

/// The number of cells is `2^capacity_pow2` of the arena as it was made, and
/// no call of `allocate` or `free` changes it.
pub proof fn lemma_capacity_is_fixed(states: Seq<BucketStorage>, calls: Seq<Call>)
    requires
        is_run(states, calls),
    ensures
        forall|k: int|
            0 <= k < states.len() ==> (#[trigger] states[k]).capacity_spec() == pow2(
                states[0].capacity_pow2 as nat,
            ),
    decreases calls.len(),
{
    if calls.len() > 0 {
        let last = calls.len() as int;
        lemma_run_prefix(states, calls);
        lemma_capacity_is_fixed(states.drop_last(), calls.drop_last());
        assert(states.drop_last()[last - 1] == states[last - 1]);
        assert(states.drop_last()[0] == states[0]);
        assert(leads(&states[last - 1], calls[last - 1], &states[last]));
        assert forall|k: int| 0 <= k < states.len() implies (#[trigger] states[k]).capacity_spec()
            == pow2(states[0].capacity_pow2 as nat) by {
            if k < last {
                assert(states.drop_last()[k] == states[k]);
            }
        }
    }
}

/// A run without its last call is a run.
proof fn lemma_run_prefix(states: Seq<BucketStorage>, calls: Seq<Call>)
    requires
        is_run(states, calls),
        calls.len() > 0,
    ensures
        is_run(states.drop_last(), calls.drop_last()),
{
    assert forall|k: int| 0 <= k < calls.len() - 1 implies leads(
        &#[trigger] states.drop_last()[k],
        calls.drop_last()[k],
        &states.drop_last()[k + 1],
    ) by {
        assert(leads(&states[k], calls[k], &states[k + 1]));
    }
}

} // verus!
