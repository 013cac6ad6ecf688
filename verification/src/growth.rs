//! Moving what an arena holds into a larger one.

use vstd::prelude::*;
use vstd::arithmetic::power2::{lemma_pow2_adds, lemma_pow2_pos, pow2};
use vstd::bits::lemma_u64_shl_is_mul;
use vstd::bits::lemma_u64_pow2_no_overflow;
use memmap2::MmapMut;
use crate::header::{HEADER_SIZE, UID_LOCKED, UID_UNLOCKED, word_of};
use crate::header::lemma_zero_bytes_unlocked;
use crate::layout::{blank, copy_bytes, is_blank, overwrite};
use crate::layout::{lemma_blank_cell, lemma_cell_in_bounds, lemma_multiple, lemma_quotient};
use crate::layout::{lemma_overwrite_other_cell, lemma_overwrite_same_cell};
use crate::mapping::{bytes_of, bytes_of_mut};
use crate::occupancy::{lemma_spread_count, spread};
use crate::stats::BucketStats;
use crate::storage::{BucketStorage, MaxSearch, cell_size_for, fresh_map_for, region_size};
use crate::timing::{measured_us, start_measure, stop_measure};

verus! {

impl BucketStorage {
    /// The factor by which this arena has more cells than `source`.
    pub open spec fn growth_over(&self, source: &Self) -> int {
        pow2((self.capacity_pow2 - source.capacity_pow2) as nat) as int
    }

    /// True if `source` can be moved into this arena: both are well formed,
    /// the cells of this arena are no smaller than those of `source`, and
    /// there are no fewer of them.
    pub open spec fn can_take(&self, source: &Self) -> bool {
        &&& self.wf()
        &&& source.wf()
        &&& source.cell_size <= self.cell_size
        &&& source.capacity_pow2 <= self.capacity_pow2
    }

    /// True if cell `ix` of this arena is where an occupied cell of `source`
    /// goes: cell `i` of `source` goes to the cell whose index is `i` times
    /// the growth factor.
    pub open spec fn takes_from(&self, source: &Self, ix: int) -> bool {
        &&& ix % self.growth_over(source) == 0
        &&& !source.is_free_spec(ix / self.growth_over(source))
    }

    /// True if this arena is `before` with the occupied cells of `source`
    /// whose index is below `limit` copied into it: each lies, header and
    /// payload, over the start of the cell that takes it, and every other
    /// byte is as in `before`.
    pub open spec fn copied_below(&self, before: &Self, source: &Self, limit: int) -> bool {
        forall|ix: int|
            #![trigger self.cell(ix)]
            0 <= ix < self.capacity_spec() ==> self.cell(ix) == if self.takes_from(source, ix)
                && ix / self.growth_over(source) < limit {
                overwrite(before.cell(ix), 0, source.cell(ix / self.growth_over(source)))
            } else {
                before.cell(ix)
            }
    }

    /// True if this arena is `before` with every occupied cell of `source`
    /// copied into it, each over the start of the cell that takes it, and
    /// nothing else changed.
    pub open spec fn copied_from(&self, before: &Self, source: &Self) -> bool {
        self.copied_below(before, source, source.capacity_spec() as int)
    }

    /// True if this arena holds what `source` holds and nothing else: every
    /// cell that takes an occupied cell of `source` begins with that cell,
    /// byte for byte, and is blank behind it, and every other cell is blank.
    pub open spec fn holds_contents_of(&self, source: &Self) -> bool {
        forall|ix: int|
            #![trigger self.cell(ix)]
            0 <= ix < self.capacity_spec() ==> if self.takes_from(source, ix) {
                &&& self.cell(ix).subrange(0, source.cell_size as int) == source.cell(
                    ix / self.growth_over(source),
                )
                &&& blank(self.cell(ix).subrange(source.cell_size as int, self.cell_size as int))
            } else {
                blank(self.cell(ix))
            }
    }

    /// The growth factor is positive, and the number of cells of this arena
    /// is that of `source` times the factor.
    pub proof fn lemma_growth(&self, source: &Self)
        requires
            source.capacity_pow2 <= self.capacity_pow2 < 64,
        ensures
            1 <= self.growth_over(source) <= u64::MAX,
            self.capacity_spec() == source.capacity_spec() * self.growth_over(source),
    {
        let by = (self.capacity_pow2 - source.capacity_pow2) as nat;
        lemma_pow2_pos(by);
        lemma_u64_pow2_no_overflow(by);
        lemma_pow2_adds(source.capacity_pow2 as nat, by);
    }

    /// One step of copying `source` into an arena that started as `start`:
    /// after cell `i` of `source` was looked at, and copied to its place if
    /// it is occupied, the cells below `i + 1` are copied.
    pub proof fn lemma_migration_step(
        start: &Self,
        before: &Self,
        after: &Self,
        source: &Self,
        i: int,
    )
        requires
            before.can_take(source),
            after.same_shape(before),
            0 <= i < source.capacity_spec(),
            before.copied_below(start, source, i),
            source.is_free_spec(i) ==> after.bytes() == before.bytes(),
            !source.is_free_spec(i) ==> after.cell(i * before.growth_over(source)) == overwrite(
                before.cell(i * before.growth_over(source)),
                0,
                source.cell(i),
            ) && after.same_but(before, i * before.growth_over(source)),
        ensures
            after.copied_below(start, source, i + 1),
    {
        let step = before.growth_over(source);
        before.lemma_growth(source);
        lemma_multiple(i, step, source.capacity_spec() as int);
        assert(after.growth_over(source) == step);
        assert forall|ix: int| 0 <= ix < after.capacity_spec() implies #[trigger] after.cell(ix)
            == if after.takes_from(source, ix) && ix / step < i + 1 {
            overwrite(start.cell(ix), 0, source.cell(ix / step))
        } else {
            start.cell(ix)
        } by {
            lemma_quotient(ix, step, source.capacity_spec() as int);
            assert(before.takes_from(source, ix) == after.takes_from(source, ix));
            let _ = before.cell(ix);
            if source.is_free_spec(i) {
                assert(after.cell(ix) == before.cell(ix));
            } else if ix != i * step {
                assert(after.cell(ix) == before.cell(ix));
            }
        }
    }

    /// Copying into a blank arena leaves what `source` holds and nothing
    /// else.
    pub proof fn lemma_copied_into_blank(&self, before: &Self, source: &Self)
        requires
            self.can_take(source),
            self.same_shape(before),
            before.bytes().len() == self.bytes().len(),
            blank(before.bytes()),
            self.copied_from(before, source),
        ensures
            self.holds_contents_of(source),
    {
        let step = self.growth_over(source);
        let size = self.cell_size as int;
        let capacity = self.capacity_spec() as int;
        self.lemma_growth(source);
        assert forall|ix: int| 0 <= ix < capacity implies if self.takes_from(source, ix) {
            &&& (#[trigger] self.cell(ix)).subrange(0, source.cell_size as int) == source.cell(
                ix / step,
            )
            &&& blank(self.cell(ix).subrange(source.cell_size as int, size))
        } else {
            blank(self.cell(ix))
        } by {
            lemma_quotient(ix, step, source.capacity_spec() as int);
            lemma_blank_cell(before.bytes(), size, capacity, ix);
            lemma_cell_in_bounds(
                ix / step,
                source.capacity_spec() as int,
                source.cell_size as int,
            );
            if self.takes_from(source, ix) {
                let taken = source.cell(ix / step);
                assert(self.cell(ix) == overwrite(before.cell(ix), 0, taken));
                assert(self.cell(ix).subrange(0, source.cell_size as int) =~= taken);
            } else {
                assert(self.cell(ix) == before.cell(ix));
            }
        }
    }

    /// Copies every occupied cell of `old_bucket` into this arena: cell `i`
    /// goes over the start of the cell whose index is `i` times the growth
    /// factor. Nothing else in this arena changes. Counts the growth and the
    /// time it took.
    pub fn copy_contents(&mut self, old_bucket: &Self, stats: &mut BucketStats)
        requires
            old(self).can_take(old_bucket),
        ensures
            final(self).wf(),
            final(self).same_shape(old(self)),
            final(self).count == old(self).count,
            final(self).copied_from(old(self), old_bucket),
            blank(old(self).bytes()) ==> final(self).holds_contents_of(old_bucket),
            exists|elapsed_us: u64| *final(stats) == old(stats).after_resize(elapsed_us),
    {
        let mut m = start_measure("grow");
        let old_cap: u64 = old_bucket.capacity();
        let increment: u8 = self.capacity_pow2 - old_bucket.capacity_pow2;
        proof {
            self.lemma_growth(old_bucket);
            old_bucket.lemma_cell_fits();
            lemma_u64_shl_is_mul(1u64, increment as u64);
        }
        let index_grow: u64 = 1u64 << (increment as u64);
        let cell_size: usize = old_bucket.cell_size as usize;
        let mut i: u64 = 0;
        while i < old_cap
            invariant
                i <= old_cap == old_bucket.capacity_spec(),
                index_grow == self.growth_over(old_bucket),
                cell_size == old_bucket.cell_size,
                self.can_take(old_bucket),
                self.same_shape(old(self)),
                self.count == old(self).count,
                self.copied_below(old(self), old_bucket, i as int),
            decreases old_cap - i,
        {
            let ghost before = *self;
            if !old_bucket.is_free(i) {
                proof {
                    self.lemma_growth(old_bucket);
                    self.lemma_cell_fits();
                    lemma_multiple(i as int, index_grow as int, old_cap as int);
                    lemma_cell_in_bounds(
                        i as int,
                        old_bucket.capacity_spec() as int,
                        cell_size as int,
                    );
                }
                let old_ix = old_bucket.cell_offset(i);
                let new_ix = self.cell_offset(i * index_grow);
                let src = bytes_of(&old_bucket.mmap);
                let dst = bytes_of_mut(&mut self.mmap);
                copy_bytes(dst, new_ix, src, old_ix, cell_size);
                proof {
                    let patch = src@.subrange(old_ix as int, old_ix + cell_size);
                    assert(patch == old_bucket.cell(i as int));
                    old_bucket.lemma_lock_words();
                    assert(old_bucket.lock_word(i as int) == UID_UNLOCKED || old_bucket.lock_word(
                        i as int,
                    ) == UID_LOCKED);
                    Self::lemma_cell_written(&before, self, i * index_grow, patch);
                }
            }
            proof {
                Self::lemma_migration_step(old(self), &before, self, old_bucket, i as int);
            }
            i += 1;
        }
        proof {
            if blank(old(self).bytes()) {
                self.lemma_copied_into_blank(old(self), old_bucket);
            }
        }
        stop_measure(&mut m);
        stats.record_resize(measured_us(&m));
    }

    /// Growth keeps what the arena held and where it can be found again:
    /// after `source` was moved into this arena, every occupied cell `i` of
    /// `source` is the start of cell `i` times the growth factor of this
    /// arena, which so has its lock word and begins with its payload, and
    /// every cell of this arena that is no such cell is free and blank.
    pub proof fn lemma_growth_round_trip(&self, source: &Self)
        requires
            self.can_take(source),
            self.holds_contents_of(source),
        ensures
            forall|i: int|
                0 <= i < source.capacity_spec() && !source.is_free_spec(i) ==> {
                    &&& 0 <= #[trigger] (i * self.growth_over(source)) < self.capacity_spec()
                    &&& self.cell(i * self.growth_over(source)).subrange(
                        0,
                        source.cell_size as int,
                    ) == source.cell(i)
                    &&& self.payload(i * self.growth_over(source)).subrange(
                        0,
                        source.payload_size(),
                    ) == source.payload(i)
                    &&& self.lock_word(i * self.growth_over(source)) == source.lock_word(i)
                    &&& !self.is_free_spec(i * self.growth_over(source))
                },
            forall|ix: int|
                0 <= ix < self.capacity_spec() && !self.takes_from(source, ix) ==> blank(
                    #[trigger] self.cell(ix),
                ) && self.is_free_spec(ix),
            forall|ix: int|
                0 <= ix < self.capacity_spec() ==> #[trigger] self.is_free_spec(ix)
                    == !self.takes_from(source, ix),
    {
        let step = self.growth_over(source);
        self.lemma_growth(source);
        assert forall|i: int| 0 <= i < source.capacity_spec() && !source.is_free_spec(i) implies {
            &&& 0 <= #[trigger] (i * step) < self.capacity_spec()
            &&& self.cell(i * step).subrange(0, source.cell_size as int) == source.cell(i)
            &&& self.payload(i * step).subrange(0, source.payload_size()) == source.payload(i)
            &&& self.lock_word(i * step) == source.lock_word(i)
            &&& !self.is_free_spec(i * step)
        } by {
            lemma_multiple(i, step, source.capacity_spec() as int);
            assert(self.takes_from(source, i * step));
            self.lemma_taken_cell(source, i * step);
        }
        assert forall|ix: int| 0 <= ix < self.capacity_spec() implies (#[trigger] self.is_free_spec(
            ix,
        ) == !self.takes_from(source, ix)) && (!self.takes_from(source, ix) ==> blank(
            self.cell(ix),
        )) by {
            lemma_quotient(ix, step, source.capacity_spec() as int);
            lemma_cell_in_bounds(ix, self.capacity_spec() as int, self.cell_size as int);
            if self.takes_from(source, ix) {
                self.lemma_taken_cell(source, ix);
            } else {
                assert(blank(self.cell(ix)));
                lemma_zero_bytes_unlocked(self.cell(ix).subrange(0, HEADER_SIZE as int));
            }
        }
    }

    /// A cell that begins with an occupied cell of `source` has the lock
    /// word of that cell and begins with its payload.
    proof fn lemma_taken_cell(&self, source: &Self, ix: int)
        requires
            self.can_take(source),
            self.holds_contents_of(source),
            0 <= ix < self.capacity_spec(),
            self.takes_from(source, ix),
        ensures
            self.cell(ix).subrange(0, source.cell_size as int) == source.cell(
                ix / self.growth_over(source),
            ),
            self.payload(ix).subrange(0, source.payload_size()) == source.payload(
                ix / self.growth_over(source),
            ),
            self.lock_word(ix) == source.lock_word(ix / self.growth_over(source)),
            !self.is_free_spec(ix),
    {
        let step = self.growth_over(source);
        let from = ix / step;
        self.lemma_growth(source);
        lemma_quotient(ix, step, source.capacity_spec() as int);
        lemma_cell_in_bounds(ix, self.capacity_spec() as int, self.cell_size as int);
        lemma_cell_in_bounds(from, source.capacity_spec() as int, source.cell_size as int);
        let taken = self.cell(ix).subrange(0, source.cell_size as int);
        assert(taken == source.cell(from));
        assert(self.cell(ix).subrange(0, HEADER_SIZE as int) =~= taken.subrange(
            0,
            HEADER_SIZE as int,
        ));
        assert(self.payload(ix).subrange(0, source.payload_size()) =~= taken.subrange(
            HEADER_SIZE as int,
            source.cell_size as int,
        ));
    }

    /// Growth neither loses nor adds an occupant: after `source` was moved
    /// into this arena, as many cells are occupied here as there.
    pub proof fn lemma_growth_keeps_occupied(&self, source: &Self)
        requires
            self.can_take(source),
            self.holds_contents_of(source),
        ensures
            self.occupied() == source.occupied(),
    {
        let step = self.growth_over(source);
        self.lemma_growth(source);
        self.lemma_growth_round_trip(source);
        assert forall|ix: int| 0 <= ix < self.capacity_spec() implies self.free_cells()[ix]
            == #[trigger] spread(source.free_cells(), step)[ix] by {
            lemma_quotient(ix, step, source.capacity_spec() as int);
            assert(self.is_free_spec(ix) == !self.takes_from(source, ix));
        }
        assert(self.free_cells() =~= spread(source.free_cells(), step));
        lemma_spread_count(source.free_cells(), step);
    }

    /// Reports the arena's capacity, to be kept if it is the largest so far.
    pub fn update_max_size(&self, stats: &mut BucketStats)
        requires
            self.capacity_pow2 < 64,
        ensures
            *final(stats) == old(stats).after_max_size(self.capacity_spec() as u64),
    {
        stats.update_max_size(self.capacity());
    }

    /// True if an arena of this shape can take what this arena holds: its
    /// cells are no smaller, and there are no fewer of them.
    pub open spec fn fits_into(&self, num_elems: u64, elem_size: u64, capacity_pow2: u8) -> bool {
        &&& self.cell_size <= cell_size_for(num_elems, elem_size)
        &&& self.capacity_pow2 <= capacity_pow2
    }

    /// True if this is the new arena of the given shape over `mmap` with
    /// what `bucket` holds moved into it, if there is one, and `now` are the
    /// counters `stats` after it was made. The arena goes on with the count
    /// of `bucket`, or starts at zero. A growth is counted with the time
    /// that it took, whatever that was, and the capacity is reported.
    pub open spec fn is_resized(
        &self,
        mmap: MmapMut,
        max_search: MaxSearch,
        bucket: Option<&Self>,
        capacity_pow_2: u8,
        num_elems: u64,
        elem_size: u64,
        stats: BucketStats,
        now: BucketStats,
    ) -> bool {
        match bucket {
            None => {
                &&& self.is_new(mmap, num_elems, elem_size, capacity_pow_2, max_search, 0)
                &&& now == stats.after_max_size(self.capacity_spec() as u64)
            },
            Some(source) => {
                &&& self.wf()
                &&& self.cell_size == cell_size_for(num_elems, elem_size)
                &&& self.capacity_pow2 == capacity_pow_2
                &&& self.max_search == max_search
                &&& self.count == source.count
                &&& self.holds_contents_of(source)
                &&& self.occupied() == source.occupied()
                &&& exists|elapsed_us: u64|
                    now == stats.after_resize(elapsed_us).after_max_size(
                        self.capacity_spec() as u64,
                    )
            },
        }
    }

    /// Makes an arena over a map that was just made and never written, and
    /// moves into it what `bucket` holds, if there is one.
    pub fn new_resized(
        mmap: MmapMut,
        max_search: MaxSearch,
        bucket: Option<&Self>,
        capacity_pow_2: u8,
        num_elems: u64,
        elem_size: u64,
        stats: &mut BucketStats,
    ) -> (new_bucket: Self)
        requires
            fresh_map_for(mmap, num_elems, elem_size, capacity_pow_2),
            bucket matches Some(source) ==> source.wf() && source.fits_into(
                num_elems,
                elem_size,
                capacity_pow_2,
            ),
        ensures
            new_bucket.is_resized(
                mmap,
                max_search,
                bucket,
                capacity_pow_2,
                num_elems,
                elem_size,
                *old(stats),
                *final(stats),
            ),
    {
        let count: u64 = match bucket {
            Some(source) => source.count,
            None => 0,
        };
        let mut new_bucket = Self::new_with_capacity(
            mmap,
            num_elems,
            elem_size,
            capacity_pow_2,
            max_search,
            count,
        );
        if let Some(source) = bucket {
            new_bucket.copy_contents(source, stats);
            proof {
                new_bucket.lemma_growth_keeps_occupied(source);
            }
        }
        new_bucket.update_max_size(stats);
        new_bucket
    }

    /// Makes an arena over `mmap` and moves into it what `bucket` holds, if
    /// the shape can be addressed, `mmap` is a blank region of exactly the
    /// size that the shape takes, and `bucket` has no larger cells and no
    /// more of them. It reads the whole region to see that.
    pub fn try_new_resized(
        mmap: MmapMut,
        max_search: MaxSearch,
        bucket: Option<&Self>,
        capacity_pow_2: u8,
        num_elems: u64,
        elem_size: u64,
        stats: &mut BucketStats,
    ) -> (made: Option<Self>)
        requires
            bucket matches Some(source) ==> source.wf(),
        ensures
            made is Some <==> {
                &&& fresh_map_for(mmap, num_elems, elem_size, capacity_pow_2)
                &&& bucket matches Some(source) ==> source.fits_into(
                    num_elems,
                    elem_size,
                    capacity_pow_2,
                )
            },
            made is None ==> *final(stats) == *old(stats),
            made matches Some(new_bucket) ==> new_bucket.is_resized(
                mmap,
                max_search,
                bucket,
                capacity_pow_2,
                num_elems,
                elem_size,
                *old(stats),
                *final(stats),
            ),
    {
        let size: u64 = match region_size(num_elems, elem_size, capacity_pow_2) {
            Some(size) => size,
            None => {
                return None;
            },
        };
        if let Some(source) = bucket {
            if source.cell_size > elem_size * num_elems + Self::header_size() as u64
                || source.capacity_pow2 > capacity_pow_2 {
                return None;
            }
        }
        let bytes = bytes_of(&mmap);
        if bytes.len() as u64 != size || !is_blank(bytes) {
            return None;
        }
        Some(
            Self::new_resized(
                mmap,
                max_search,
                bucket,
                capacity_pow_2,
                num_elems,
                elem_size,
                stats,
            ),
        )
    }

    /// What follows for the cells when the start of cell `ix` is overwritten
    /// by `patch`, which holds a header with a legal lock word, and no other
    /// byte changes.
    pub proof fn lemma_cell_written(before: &Self, after: &Self, ix: int, patch: Seq<u8>)
        requires
            before.wf(),
            0 <= ix < before.capacity_spec(),
            after.same_shape(before),
            HEADER_SIZE <= patch.len() <= before.cell_size,
            word_of(patch.subrange(0, HEADER_SIZE as int)) == UID_UNLOCKED || word_of(
                patch.subrange(0, HEADER_SIZE as int),
            ) == UID_LOCKED,
            after.bytes() == overwrite(before.bytes(), ix * before.cell_size, patch),
        ensures
            after.wf(),
            after.cell(ix) == overwrite(before.cell(ix), 0, patch),
            after.same_but(before, ix),
    {
        let size = before.cell_size as int;
        let capacity = before.capacity_spec() as int;
        before.lemma_lock_words();
        after.lemma_lock_words();
        lemma_cell_in_bounds(ix, capacity, size);
        lemma_overwrite_same_cell(before.bytes(), size, capacity, ix, 0, patch);
        assert(after.cell(ix).subrange(0, HEADER_SIZE as int) =~= patch.subrange(
            0,
            HEADER_SIZE as int,
        ));
        assert forall|other: int|
            0 <= other < capacity && other != ix implies #[trigger] after.cell(other)
            == before.cell(other) by {
            lemma_overwrite_other_cell(before.bytes(), size, capacity, ix, 0, patch, other);
        }
        assert forall|other: int| 0 <= other < capacity implies #[trigger] after.lock_word(other)
            == UID_UNLOCKED || after.lock_word(other) == UID_LOCKED by {
            if other != ix {
                assert(after.cell(other) == before.cell(other));
                assert(before.lock_word(other) == UID_UNLOCKED || before.lock_word(other)
                    == UID_LOCKED);
            }
        }
    }
}

} // verus!
