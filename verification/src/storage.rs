//! The arena: its cells, their states and the count of the occupied ones.

use vstd::prelude::*;
use vstd::arithmetic::power2::pow2;
use vstd::bits::lemma_u64_shl_is_mul;
use vstd::bits::lemma_u64_pow2_no_overflow;
use memmap2::MmapMut;
use crate::header::{Header, HEADER_SIZE, UID_LOCKED, UID_UNLOCKED, bytes_of_word, word_of};
use crate::header::{IS_ALLOCATED_FLAG_LOCATION, IsAllocatedFlagLocation};
use crate::header::{lemma_word_of_bytes, lemma_zero_bytes_unlocked};
use crate::layout::{blank, cell_of, cells, is_blank, overwrite};
use crate::layout::{lemma_blank_cell, lemma_cell_in_bounds};
use crate::layout::{lemma_overwrite_other_cell, lemma_overwrite_same_cell};
use crate::mapping::{bytes_of, bytes_of_mut, map_bytes};
use crate::occupancy::{lemma_occupied_bound, lemma_occupied_none, lemma_occupied_update};
use crate::occupancy::occupied_in;

verus! {

/// Capacity exponent of an arena that was asked for without one: 32 cells.
pub const DEFAULT_CAPACITY_POW2: u8 = 5;

/// The longest probe sequence that the index above an arena will walk. The
/// arena only carries it.
pub type MaxSearch = u8;

/// What an arena reports instead of doing what it was asked.
#[derive(Clone, Copy, Debug, PartialEq, Eq, Structural)]
pub enum BucketStorageError {
    /// The cell is occupied already.
    AlreadyAllocated,
}

/// An arena of `2^capacity_pow2` cells of `cell_size` bytes each, kept in one
/// memory map. Every cell starts with a header that says whether the cell is
/// occupied; the rest of the cell is payload.
pub struct BucketStorage {
    /// The region that holds the cells, one after the other.
    pub mmap: MmapMut,
    /// Size of a cell in bytes, header and payload.
    pub cell_size: u64,
    /// The arena has `2^capacity_pow2` cells.
    pub capacity_pow2: u8,
    /// Number of occupied cells that were counted. The count is this
    /// arena's own and is shared with no other: a grown arena starts with
    /// the count of the one it was made from, and what is counted through
    /// one of the two afterwards is not seen through the other. Whoever
    /// keeps both in use has to carry the count over. The count wraps
    /// around, as an atomic counter does.
    pub count: u64,
    /// The probe limit that the arena was made with.
    pub max_search: MaxSearch,
}

/// Size in bytes of a cell that holds `num_elems` elements of `elem_size`
/// bytes behind its header.
pub open spec fn cell_size_for(num_elems: u64, elem_size: u64) -> int {
    elem_size * num_elems + HEADER_SIZE
}

/// True if an arena of this shape can be addressed on this machine: the
/// capacity and the size of a cell fit in 64 bits, and the size of the whole
/// region fits in a `usize`.
pub open spec fn shape_fits(num_elems: u64, elem_size: u64, capacity_pow2: u8) -> bool {
    &&& capacity_pow2 < 64
    &&& cell_size_for(num_elems, elem_size) <= u64::MAX
    &&& cells(capacity_pow2) * cell_size_for(num_elems, elem_size) <= usize::MAX
}

/// True if `mmap` can hold a new arena of this shape: the shape can be
/// addressed, and `mmap` is a blank region of exactly the size that the
/// shape takes, as a map is that was just made over a new file of that size.
pub open spec fn fresh_map_for(
    mmap: MmapMut,
    num_elems: u64,
    elem_size: u64,
    capacity_pow2: u8,
) -> bool {
    &&& shape_fits(num_elems, elem_size, capacity_pow2)
    &&& map_bytes(mmap).len() == cells(capacity_pow2) * cell_size_for(num_elems, elem_size)
    &&& blank(map_bytes(mmap))
}

/// Number of bytes of the region that an arena of this shape takes, if such
/// an arena can be addressed on this machine.
pub fn region_size(num_elems: u64, elem_size: u64, capacity_pow2: u8) -> (size: Option<u64>)
    ensures
        size is Some <==> shape_fits(num_elems, elem_size, capacity_pow2),
        size matches Some(bytes) ==> bytes == cells(capacity_pow2) * cell_size_for(
            num_elems,
            elem_size,
        ),
{
    if capacity_pow2 >= 64 {
        return None;
    }
    proof {
        lemma_u64_pow2_no_overflow(capacity_pow2 as nat);
        lemma_u64_shl_is_mul(1u64, capacity_pow2 as u64);
    }
    let capacity: u64 = 1u64 << (capacity_pow2 as u64);
    let payload: u64 = match elem_size.checked_mul(num_elems) {
        Some(payload) => payload,
        None => {
            return None;
        },
    };
    let cell_size: u64 = match payload.checked_add(HEADER_SIZE as u64) {
        Some(cell_size) => cell_size,
        None => {
            return None;
        },
    };
    match capacity.checked_mul(cell_size) {
        Some(bytes) => if bytes > usize::MAX as u64 {
            None
        } else {
            Some(bytes)
        },
        None => None,
    }
}

/// True if the lock word of each of the `capacity` cells of a region is one
/// of the two legal values.
pub open spec fn lock_words_legal(bytes: Seq<u8>, cell_size: int, capacity: int) -> bool {
    forall|ix: int|
        0 <= ix < capacity ==> {
            let header = (#[trigger] cell_of(bytes, cell_size, ix)).subrange(0, HEADER_SIZE as int);
            word_of(header) == UID_UNLOCKED || word_of(header) == UID_LOCKED
        }
}

impl BucketStorage {
    /// The bytes of the whole region.
    pub open spec fn bytes(&self) -> Seq<u8> {
        map_bytes(self.mmap)
    }

    /// Number of cells.
    pub open spec fn capacity_spec(&self) -> nat {
        cells(self.capacity_pow2)
    }

    /// The bytes of cell `ix`: header, then payload.
    pub open spec fn cell(&self, ix: int) -> Seq<u8> {
        cell_of(self.bytes(), self.cell_size as int, ix)
    }

    /// The lock word in the header of cell `ix`.
    pub open spec fn lock_word(&self, ix: int) -> int {
        word_of(self.cell(ix).subrange(0, HEADER_SIZE as int))
    }

    /// The payload bytes of cell `ix`.
    pub open spec fn payload(&self, ix: int) -> Seq<u8> {
        self.cell(ix).subrange(HEADER_SIZE as int, self.cell_size as int)
    }

    /// Number of payload bytes in each cell.
    pub open spec fn payload_size(&self) -> int {
        self.cell_size - HEADER_SIZE
    }

    /// True if cell `ix` is free.
    pub open spec fn is_free_spec(&self, ix: int) -> bool {
        self.lock_word(ix) == UID_UNLOCKED
    }

    /// For each cell, whether it is free.
    pub open spec fn free_cells(&self) -> Seq<bool> {
        Seq::new(self.capacity_spec(), |ix: int| self.is_free_spec(ix))
    }

    /// Number of occupied cells.
    pub open spec fn occupied(&self) -> nat {
        occupied_in(self.free_cells())
    }

    /// The arena's invariant: the region is exactly as large as its cells
    /// take, it can be addressed, and every lock word is one of the two legal
    /// values.
    pub open spec fn wf(&self) -> bool {
        &&& self.capacity_pow2 < 64
        &&& self.cell_size >= HEADER_SIZE
        &&& self.capacity_spec() * self.cell_size <= usize::MAX
        &&& self.bytes().len() == self.capacity_spec() * self.cell_size
        &&& lock_words_legal(self.bytes(), self.cell_size as int, self.capacity_spec() as int)
    }

    /// The lock words of an arena are legal if and only if that of each cell
    /// is.
    pub proof fn lemma_lock_words(&self)
        ensures
            lock_words_legal(self.bytes(), self.cell_size as int, self.capacity_spec() as int)
                <==> forall|ix: int|
                0 <= ix < self.capacity_spec() ==> #[trigger] self.lock_word(ix) == UID_UNLOCKED
                    || self.lock_word(ix) == UID_LOCKED,
    {
        if lock_words_legal(self.bytes(), self.cell_size as int, self.capacity_spec() as int) {
            assert forall|ix: int| 0 <= ix < self.capacity_spec() implies #[trigger] self.lock_word(
                ix,
            ) == UID_UNLOCKED || self.lock_word(ix) == UID_LOCKED by {
                let _ = cell_of(self.bytes(), self.cell_size as int, ix);
            }
        }
        if forall|ix: int|
            0 <= ix < self.capacity_spec() ==> #[trigger] self.lock_word(ix) == UID_UNLOCKED
                || self.lock_word(ix) == UID_LOCKED {
            assert forall|ix: int| 0 <= ix < self.capacity_spec() implies {
                let word = word_of(
                    (#[trigger] cell_of(self.bytes(), self.cell_size as int, ix)).subrange(
                        0,
                        HEADER_SIZE as int,
                    ),
                );
                word == UID_UNLOCKED || word == UID_LOCKED
            } by {
                let _ = self.lock_word(ix);
            }
        }
    }

    /// True if every cell but cell `ix` is in this arena as it is in
    /// `before`.
    pub open spec fn same_but(&self, before: &Self, ix: int) -> bool {
        forall|other: int|
            0 <= other < before.capacity_spec() && other != ix ==> #[trigger] self.cell(other)
                == before.cell(other)
    }

    /// True if `other` has the shape of this arena, as many cells of the
    /// same size, and carries the same probe limit.
    pub open spec fn same_shape(&self, other: &BucketStorage) -> bool {
        &&& self.cell_size == other.cell_size
        &&& self.capacity_pow2 == other.capacity_pow2
        &&& self.max_search == other.max_search
    }

    /// Number of bytes of the header at the start of each cell.
    pub fn header_size() -> (size: usize)
        ensures
            size == HEADER_SIZE,
    {
        match IS_ALLOCATED_FLAG_LOCATION {
            IsAllocatedFlagLocation::InHeader => HEADER_SIZE,
        }
    }

    /// The probe limit that the arena was made with.
    pub fn max_search(&self) -> (limit: u64)
        ensures
            limit == self.max_search,
    {
        self.max_search as u64
    }

    /// Number of cells.
    pub fn capacity(&self) -> (capacity: u64)
        requires
            self.capacity_pow2 < 64,
        ensures
            capacity == self.capacity_spec(),
            capacity == pow2(self.capacity_pow2 as nat),
    {
        proof {
            lemma_u64_pow2_no_overflow(self.capacity_pow2 as nat);
            lemma_u64_shl_is_mul(1u64, self.capacity_pow2 as u64);
        }
        1u64 << (self.capacity_pow2 as u64)
    }

    /// Number of bytes of the whole region.
    pub fn capacity_bytes(&self) -> (size: u64)
        requires
            self.capacity_pow2 < 64,
            self.capacity_spec() * self.cell_size <= u64::MAX,
        ensures
            size == self.capacity_spec() * self.cell_size,
    {
        self.capacity() * self.cell_size
    }

    /// True if this is the new arena of the given shape over `mmap`: it is
    /// well formed, every cell of it is free, and it carries `max_search`
    /// and `count`.
    pub open spec fn is_new(
        &self,
        mmap: MmapMut,
        num_elems: u64,
        elem_size: u64,
        capacity_pow2: u8,
        max_search: MaxSearch,
        count: u64,
    ) -> bool {
        &&& self.wf()
        &&& self.mmap == mmap
        &&& self.cell_size == cell_size_for(num_elems, elem_size)
        &&& self.capacity_pow2 == capacity_pow2
        &&& self.max_search == max_search
        &&& self.count == count
        &&& self.occupied() == 0
        &&& forall|ix: int| 0 <= ix < self.capacity_spec() ==> self.is_free_spec(ix)
    }

    /// Makes an arena over a map that was just made and never written. Every
    /// cell of it is free.
    pub fn new_with_capacity(
        mmap: MmapMut,
        num_elems: u64,
        elem_size: u64,
        capacity_pow2: u8,
        max_search: MaxSearch,
        count: u64,
    ) -> (storage: Self)
        requires
            fresh_map_for(mmap, num_elems, elem_size, capacity_pow2),
        ensures
            storage.is_new(mmap, num_elems, elem_size, capacity_pow2, max_search, count),
    {
        let cell_size: u64 = elem_size * num_elems + Self::header_size() as u64;
        let storage = Self { mmap, cell_size, capacity_pow2, count, max_search };
        proof {
            storage.lemma_blank_is_free();
        }
        storage
    }

    /// Makes an arena over `mmap` if the shape can be addressed and `mmap` is
    /// a blank region of exactly the size that the shape takes. It reads the
    /// whole region to see that.
    pub fn try_new_with_capacity(
        mmap: MmapMut,
        num_elems: u64,
        elem_size: u64,
        capacity_pow2: u8,
        max_search: MaxSearch,
        count: u64,
    ) -> (made: Option<Self>)
        ensures
            made is Some <==> fresh_map_for(mmap, num_elems, elem_size, capacity_pow2),
            made matches Some(storage) ==> storage.is_new(
                mmap,
                num_elems,
                elem_size,
                capacity_pow2,
                max_search,
                count,
            ),
    {
        match region_size(num_elems, elem_size, capacity_pow2) {
            Some(size) => {
                let bytes = bytes_of(&mmap);
                if bytes.len() as u64 == size && is_blank(bytes) {
                    Some(
                        Self::new_with_capacity(
                            mmap,
                            num_elems,
                            elem_size,
                            capacity_pow2,
                            max_search,
                            count,
                        ),
                    )
                } else {
                    None
                }
            },
            None => None,
        }
    }

    /// Makes an arena of the default capacity over a map that was just made
    /// and never written.
    pub fn new(
        mmap: MmapMut,
        num_elems: u64,
        elem_size: u64,
        max_search: MaxSearch,
        count: u64,
    ) -> (storage: Self)
        requires
            fresh_map_for(mmap, num_elems, elem_size, DEFAULT_CAPACITY_POW2),
        ensures
            storage.is_new(mmap, num_elems, elem_size, DEFAULT_CAPACITY_POW2, max_search, count),
    {
        Self::new_with_capacity(
            mmap,
            num_elems,
            elem_size,
            DEFAULT_CAPACITY_POW2,
            max_search,
            count,
        )
    }

    /// An arena over a blank region of the right size is well formed, and all
    /// its cells are free.
    pub proof fn lemma_blank_is_free(&self)
        requires
            self.capacity_pow2 < 64,
            self.cell_size >= HEADER_SIZE,
            self.capacity_spec() * self.cell_size <= usize::MAX,
            self.bytes().len() == self.capacity_spec() * self.cell_size,
            blank(self.bytes()),
        ensures
            self.wf(),
            forall|ix: int| 0 <= ix < self.capacity_spec() ==> self.is_free_spec(ix),
            self.occupied() == 0,
    {
        assert forall|ix: int| 0 <= ix < self.capacity_spec() implies #[trigger] self.lock_word(ix)
            == UID_UNLOCKED by {
            lemma_blank_cell(
                self.bytes(),
                self.cell_size as int,
                self.capacity_spec() as int,
                ix,
            );
            lemma_zero_bytes_unlocked(self.cell(ix).subrange(0, HEADER_SIZE as int));
        }
        self.lemma_lock_words();
        lemma_occupied_none(self.free_cells());
    }

    /// Byte at which cell `ix` starts in the region.
    pub fn cell_offset(&self, ix: u64) -> (at: usize)
        requires
            self.wf(),
            ix < self.capacity_spec(),
        ensures
            at == ix * self.cell_size,
            at + self.cell_size <= self.bytes().len(),
    {
        proof {
            lemma_cell_in_bounds(ix as int, self.capacity_spec() as int, self.cell_size as int);
        }
        (ix * self.cell_size) as usize
    }

    /// Byte at which the payload of cell `ix` starts in the region.
    pub fn get_start_offset(&self, ix: u64) -> (at: usize)
        requires
            self.wf(),
            ix < self.capacity_spec(),
        ensures
            at == ix * self.cell_size + HEADER_SIZE,
            at + self.payload_size() <= self.bytes().len(),
    {
        self.cell_offset(ix) + Self::header_size()
    }

    /// The header of cell `ix`.
    fn header(&self, ix: u64) -> (header: Header)
        requires
            self.wf(),
            ix < self.capacity_spec(),
        ensures
            header.lock == self.lock_word(ix as int),
    {
        let at = self.cell_offset(ix);
        let bytes = bytes_of(&self.mmap);
        assert(bytes@.subrange(at as int, at + 8) =~= self.cell(ix as int).subrange(
            0,
            HEADER_SIZE as int,
        ));
        Header::read(bytes, at)
    }

    /// True if cell `ix` is free.
    pub fn is_free(&self, ix: u64) -> (free: bool)
        requires
            self.wf(),
            ix < self.capacity_spec(),
        ensures
            free == self.is_free_spec(ix as int),
    {
        match IS_ALLOCATED_FLAG_LOCATION {
            IsAllocatedFlagLocation::InHeader => self.header(ix).is_unlocked(),
        }
    }

    /// What follows for the cells when the lock word of cell `ix` is
    /// overwritten and no other byte changes: the cell has the new word, its
    /// payload and all other cells are as before.
    pub proof fn lemma_lock_word_written(before: &Self, after: &Self, ix: int, word: u64)
        requires
            before.wf(),
            0 <= ix < before.capacity_spec(),
            after.same_shape(before),
            word == UID_UNLOCKED || word == UID_LOCKED,
            after.bytes() == overwrite(
                before.bytes(),
                ix * before.cell_size,
                bytes_of_word(word),
            ),
        ensures
            after.wf(),
            after.lock_word(ix) == word,
            after.payload(ix) == before.payload(ix),
            after.same_but(before, ix),
            after.free_cells() == before.free_cells().update(ix, word == UID_UNLOCKED),
            after.occupied() + (if before.is_free_spec(ix) {
                0nat
            } else {
                1nat
            }) == before.occupied() + (if word == UID_UNLOCKED {
                0nat
            } else {
                1nat
            }),
    {
        let size = before.cell_size as int;
        let capacity = before.capacity_spec() as int;
        let patch = bytes_of_word(word);
        before.lemma_lock_words();
        after.lemma_lock_words();
        lemma_word_of_bytes(word);
        lemma_cell_in_bounds(ix, capacity, size);
        lemma_overwrite_same_cell(before.bytes(), size, capacity, ix, 0, patch);
        assert(after.cell(ix).subrange(0, HEADER_SIZE as int) =~= patch);
        assert(after.payload(ix) =~= before.payload(ix));
        assert forall|other: int|
            0 <= other < capacity && other != ix implies #[trigger] after.cell(other)
            == before.cell(other) by {
            lemma_overwrite_other_cell(before.bytes(), size, capacity, ix, 0, patch, other);
        }
        assert forall|other: int| 0 <= other < capacity implies #[trigger] after.lock_word(other)
            == UID_UNLOCKED || after.lock_word(other) == UID_LOCKED by {
            if other != ix {
                assert(after.cell(other) == before.cell(other));
                assert(before.lock_word(other) == UID_UNLOCKED || before.lock_word(other)
                    == UID_LOCKED);
            }
        }
        assert(after.free_cells() =~= before.free_cells().update(ix, word == UID_UNLOCKED)) by {
            assert forall|other: int|
                0 <= other < capacity && other != ix implies after.is_free_spec(other)
                == before.is_free_spec(other) by {
                assert(after.cell(other) == before.cell(other));
            }
        }
        lemma_occupied_update(before.free_cells(), ix, word == UID_UNLOCKED);
    }

    /// Writes `header` over the header of cell `ix`.
    fn set_header(&mut self, ix: u64, header: Header)
        requires
            old(self).wf(),
            ix < old(self).capacity_spec(),
            header.lock == UID_UNLOCKED || header.lock == UID_LOCKED,
        ensures
            final(self).same_shape(old(self)),
            final(self).count == old(self).count,
            final(self).bytes() == overwrite(
                old(self).bytes(),
                ix * old(self).cell_size,
                bytes_of_word(header.lock),
            ),
    {
        let at = self.cell_offset(ix);
        let bytes = bytes_of_mut(&mut self.mmap);
        header.write(bytes, at);
    }

    /// Locks the header of cell `ix` if it is unlocked, and says whether it
    /// did.
    fn try_lock(&mut self, ix: u64) -> (locked: bool)
        requires
            old(self).wf(),
            ix < old(self).capacity_spec(),
        ensures
            locked == old(self).is_free_spec(ix as int),
            locked ==> final(self).same_shape(old(self)) && final(self).count == old(self).count
                && final(self).bytes() == overwrite(
                old(self).bytes(),
                ix * old(self).cell_size,
                bytes_of_word(UID_LOCKED),
            ),
            !locked ==> *final(self) == *old(self),
    {
        match IS_ALLOCATED_FLAG_LOCATION {
            IsAllocatedFlagLocation::InHeader => {
                let mut header = self.header(ix);
                let locked = header.try_lock();
                if locked {
                    self.set_header(ix, header);
                }
                locked
            },
        }
    }

    /// True if this arena is `before` with the lock word of cell `ix` set to
    /// `word`: no other byte differs, and the shape is the same.
    pub open spec fn with_lock_word(&self, before: &Self, ix: int, word: u64) -> bool {
        &&& self.same_shape(before)
        &&& self.bytes() == overwrite(before.bytes(), ix * before.cell_size, bytes_of_word(word))
    }

    /// What `allocate` does: `after` and `result` are what a call on cell
    /// `ix` of `before` leaves and returns.
    pub open spec fn allocates(
        before: &Self,
        after: &Self,
        ix: int,
        is_resizing: bool,
        result: Result<(), BucketStorageError>,
    ) -> bool {
        if before.is_free_spec(ix) {
            &&& result is Ok
            &&& after.with_lock_word(before, ix, UID_LOCKED)
            &&& after.count == if is_resizing {
                before.count
            } else {
                before.count.wrapping_add(1)
            }
        } else {
            &&& result == Err::<(), BucketStorageError>(BucketStorageError::AlreadyAllocated)
            &&& *after == *before
        }
    }

    /// What `free` does: `after` is what a call on the occupied cell `ix` of
    /// `before` leaves.
    pub open spec fn frees(before: &Self, after: &Self, ix: int) -> bool {
        &&& after.with_lock_word(before, ix, UID_UNLOCKED)
        &&& after.count == before.count.wrapping_sub(1)
    }

    /// Occupies cell `ix` if it is free, and reports `AlreadyAllocated` if it
    /// is not, leaving the arena as it was. A new occupant is counted unless
    /// `is_resizing` says that it was counted before, in the arena that it
    /// comes from.
    pub fn allocate(&mut self, ix: u64, is_resizing: bool) -> (result: Result<
        (),
        BucketStorageError,
    >)
        requires
            old(self).wf(),
            ix < old(self).capacity_spec(),
        ensures
            Self::allocates(old(self), final(self), ix as int, is_resizing, result),
            result is Ok <==> old(self).is_free_spec(ix as int),
            final(self).wf(),
            final(self).same_shape(old(self)),
            result is Ok ==> {
                &&& !final(self).is_free_spec(ix as int)
                &&& final(self).payload(ix as int) == old(self).payload(ix as int)
                &&& final(self).same_but(old(self), ix as int)
                &&& final(self).occupied() == old(self).occupied() + 1
            },
            !is_resizing && old(self).count == old(self).occupied() ==> final(self).count
                == final(self).occupied(),
    {
        let mut e = Err(BucketStorageError::AlreadyAllocated);
        if self.try_lock(ix) {
            e = Ok(());
            if !is_resizing {
                self.count = self.count.wrapping_add(1);
            }
            proof {
                Self::lemma_lock_word_written(old(self), self, ix as int, UID_LOCKED);
                lemma_occupied_bound(self.free_cells());
                lemma_u64_pow2_no_overflow(self.capacity_pow2 as nat);
            }
        }
        e
    }

    /// Frees cell `ix`, which must be occupied, and counts one occupant less.
    pub fn free(&mut self, ix: u64)
        requires
            old(self).wf(),
            ix < old(self).capacity_spec(),
            !old(self).is_free_spec(ix as int),
        ensures
            Self::frees(old(self), final(self), ix as int),
            final(self).wf(),
            final(self).same_shape(old(self)),
            final(self).is_free_spec(ix as int),
            final(self).payload(ix as int) == old(self).payload(ix as int),
            final(self).same_but(old(self), ix as int),
            final(self).occupied() + 1 == old(self).occupied(),
            old(self).count == old(self).occupied() ==> final(self).count == final(self).occupied(),
    {
        match IS_ALLOCATED_FLAG_LOCATION {
            IsAllocatedFlagLocation::InHeader => {
                let mut header = self.header(ix);
                header.unlock();
                self.set_header(ix, header);
            },
        }
        self.count = self.count.wrapping_sub(1);
        proof {
            Self::lemma_lock_word_written(old(self), self, ix as int, UID_UNLOCKED);
        }
    }

    /// A well-formed arena has at least one cell, and one cell is no larger
    /// than the whole region.
    pub proof fn lemma_cell_fits(&self)
        requires
            self.wf(),
        ensures
            self.capacity_spec() >= 1,
            self.capacity_spec() <= u64::MAX,
            self.cell_size <= self.bytes().len() <= usize::MAX,
    {
        lemma_u64_pow2_no_overflow(self.capacity_pow2 as nat);
        lemma_cell_in_bounds(0, self.capacity_spec() as int, self.cell_size as int);
    }

}

} // verus!
