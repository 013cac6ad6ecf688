//! Views of the payload of a cell, as bytes.

use vstd::prelude::*;
use crate::header::{HEADER_SIZE, UID_LOCKED, UID_UNLOCKED, word_of};
use crate::layout::{cell_of, overwrite};
use crate::layout::{lemma_cell_in_bounds, lemma_overwrite_other_cell, lemma_overwrite_same_cell};
use crate::mapping::{bytes_of, bytes_of_mut};
use crate::storage::{BucketStorage, lock_words_legal};

verus! {

/// `bytes` with the payload bytes of cell `ix` replaced, from the first on, by
/// `patch`.
pub open spec fn with_payload(bytes: Seq<u8>, cell_size: int, ix: int, patch: Seq<u8>) -> Seq<u8> {
    bytes.subrange(0, ix * cell_size + HEADER_SIZE) + patch + bytes.subrange(
        ix * cell_size + HEADER_SIZE + patch.len(),
        bytes.len() as int,
    )
}

/// The `len` bytes of `bytes` from byte `at` on, to be written in place.
fn range_mut(bytes: &mut [u8], at: usize, len: usize) -> (range: &mut [u8])
    requires
        at + len <= old(bytes)@.len(),
    ensures
        range@ == old(bytes)@.subrange(at as int, at + len),
        final(bytes)@ == old(bytes)@.subrange(0, at as int) + final(range)@ + old(bytes)@.subrange(
            at + len,
            old(bytes)@.len() as int,
        ),
{
    let (_, rest) = bytes.split_at_mut(at);
    let (range, _) = rest.split_at_mut(len);
    proof {
        let whole = old(bytes)@;
        assert(whole.subrange(at as int, whole.len() as int).subrange(0, len as int)
            =~= whole.subrange(at as int, at + len));
        assert(whole.subrange(at as int, whole.len() as int).subrange(
            len as int,
            whole.len() - at,
        ) =~= whole.subrange(at + len, whole.len() as int));
    }
    range
}

/// True if `patched` is `bytes` with payload bytes of cell `ix` replaced by
/// `patch` as far as the cells show it: every header and all other cells are
/// as in `bytes`, the payload of cell `ix` is overwritten by `patch`, and
/// the lock words are legal if they were.
pub open spec fn only_payload_differs(
    bytes: Seq<u8>,
    patched: Seq<u8>,
    cell_size: int,
    capacity: int,
    ix: int,
    patch: Seq<u8>,
) -> bool {
    &&& patched.len() == bytes.len()
    &&& cell_of(patched, cell_size, ix).subrange(HEADER_SIZE as int, cell_size) == overwrite(
        cell_of(bytes, cell_size, ix).subrange(HEADER_SIZE as int, cell_size),
        0,
        patch,
    )
    &&& forall|other: int|
        0 <= other < capacity ==> (#[trigger] cell_of(patched, cell_size, other)).subrange(
            0,
            HEADER_SIZE as int,
        ) == cell_of(bytes, cell_size, other).subrange(0, HEADER_SIZE as int)
    &&& forall|other: int|
        0 <= other < capacity && other != ix ==> #[trigger] cell_of(patched, cell_size, other)
            == cell_of(bytes, cell_size, other)
    &&& lock_words_legal(bytes, cell_size, capacity) ==> lock_words_legal(
        patched,
        cell_size,
        capacity,
    )
}

/// Replacing payload bytes of one cell changes that payload and nothing
/// else.
pub proof fn lemma_payload_patch(
    bytes: Seq<u8>,
    cell_size: int,
    capacity: int,
    ix: int,
    patch: Seq<u8>,
)
    requires
        0 <= ix < capacity,
        HEADER_SIZE <= cell_size,
        bytes.len() == capacity * cell_size,
        patch.len() <= cell_size - HEADER_SIZE,
    ensures
        only_payload_differs(
            bytes,
            with_payload(bytes, cell_size, ix, patch),
            cell_size,
            capacity,
            ix,
            patch,
        ),
{
    let header = HEADER_SIZE as int;
    let patched = with_payload(bytes, cell_size, ix, patch);
    lemma_cell_in_bounds(ix, capacity, cell_size);
    assert(patched =~= overwrite(bytes, ix * cell_size + header, patch));
    lemma_overwrite_same_cell(bytes, cell_size, capacity, ix, header, patch);
    assert(cell_of(patched, cell_size, ix).subrange(0, header) =~= cell_of(
        bytes,
        cell_size,
        ix,
    ).subrange(0, header));
    assert(cell_of(patched, cell_size, ix).subrange(header, cell_size) =~= overwrite(
        cell_of(bytes, cell_size, ix).subrange(header, cell_size),
        0,
        patch,
    ));
    assert forall|other: int| 0 <= other < capacity && other != ix implies #[trigger] cell_of(
        patched,
        cell_size,
        other,
    ) == cell_of(bytes, cell_size, other) by {
        lemma_overwrite_other_cell(bytes, cell_size, capacity, ix, header, patch, other);
    }
    if lock_words_legal(bytes, cell_size, capacity) {
        assert forall|other: int| 0 <= other < capacity implies {
            let word = word_of(
                (#[trigger] cell_of(patched, cell_size, other)).subrange(0, header),
            );
            word == UID_UNLOCKED || word == UID_LOCKED
        } by {
            assert(cell_of(patched, cell_size, other).subrange(0, header) == cell_of(
                bytes,
                cell_size,
                other,
            ).subrange(0, header));
            let _ = cell_of(bytes, cell_size, other);
        }
    }
}

impl BucketStorage {
    /// True if this arena differs from `before` in the payload of cell `ix`
    /// alone, which is overwritten, from its first byte on, by `written`:
    /// every lock word and every other cell is as in `before`.
    pub open spec fn payload_written(&self, before: &Self, ix: int, written: Seq<u8>) -> bool {
        &&& self.payload(ix) == overwrite(before.payload(ix), 0, written)
        &&& self.same_but(before, ix)
        &&& forall|other: int|
            0 <= other < before.capacity_spec() ==> #[trigger] self.lock_word(other)
                == before.lock_word(other)
    }

    /// The first `size` payload bytes of cell `ix`.
    pub fn get(&self, ix: u64, size: usize) -> (view: &[u8])
        requires
            self.wf(),
            ix < self.capacity_spec(),
            size <= self.payload_size(),
        ensures
            view@ == self.payload(ix as int).subrange(0, size as int),
    {
        let start = self.get_start_offset(ix);
        let end = start + size;
        let bytes = bytes_of(&self.mmap);
        let view = &bytes[start..end];
        assert(view@ =~= self.payload(ix as int).subrange(0, size as int));
        view
    }

    /// The first `size` payload bytes of cell `ix`, to be written in place.
    /// What is written to the view is what the arena holds there afterwards;
    /// nothing else changes.
    pub fn get_mut(&mut self, ix: u64, size: usize) -> (view: &mut [u8])
        requires
            old(self).wf(),
            ix < old(self).capacity_spec(),
            size <= old(self).payload_size(),
        ensures
            view@ == old(self).payload(ix as int).subrange(0, size as int),
            final(self).same_shape(old(self)),
            final(self).count == old(self).count,
            final(self).bytes() == old(self).bytes().subrange(
                0,
                ix * old(self).cell_size + HEADER_SIZE,
            ) + final(view)@ + old(self).bytes().subrange(
                ix * old(self).cell_size + HEADER_SIZE + size,
                old(self).bytes().len() as int,
            ),
            final(view)@.len() == size ==> final(self).wf(),
            final(view)@.len() == size ==> final(self).payload_written(
                old(self),
                ix as int,
                final(view)@,
            ),
    {
        let start = self.get_start_offset(ix);
        let view = range_mut(bytes_of_mut(&mut self.mmap), start, size);
        assert(view@ =~= old(self).payload(ix as int).subrange(0, size as int));
        assert(final(view)@.len() == size ==> only_payload_differs(
            old(self).bytes(),
            with_payload(old(self).bytes(), old(self).cell_size as int, ix as int, final(view)@),
            old(self).cell_size as int,
            old(self).capacity_spec() as int,
            ix as int,
            final(view)@,
        )) by {
            if final(view)@.len() == size {
                old(self).lemma_cell_fits();
                lemma_payload_patch(
                    old(self).bytes(),
                    old(self).cell_size as int,
                    old(self).capacity_spec() as int,
                    ix as int,
                    final(view)@,
                );
            }
        }
        view
    }

    /// The payload bytes of cell `ix` that hold its first `len` elements of
    /// `elem_size` bytes each.
    pub fn get_cell_slice(&self, ix: u64, elem_size: usize, len: u64) -> (view: &[u8])
        requires
            self.wf(),
            ix < self.capacity_spec(),
            elem_size * len <= self.payload_size(),
        ensures
            view@ == self.payload(ix as int).subrange(0, elem_size * len),
    {
        proof {
            self.lemma_cell_fits();
        }
        let size = Self::span(elem_size, len);
        self.get(ix, size)
    }

    /// The payload bytes of cell `ix` that hold its first `len` elements of
    /// `elem_size` bytes each, to be written in place.
    pub fn get_mut_cell_slice(&mut self, ix: u64, elem_size: usize, len: u64) -> (view: &mut [u8])
        requires
            old(self).wf(),
            ix < old(self).capacity_spec(),
            elem_size * len <= old(self).payload_size(),
        ensures
            view@ == old(self).payload(ix as int).subrange(0, elem_size * len),
            final(self).same_shape(old(self)),
            final(self).count == old(self).count,
            final(self).bytes() == old(self).bytes().subrange(
                0,
                ix * old(self).cell_size + HEADER_SIZE,
            ) + final(view)@ + old(self).bytes().subrange(
                ix * old(self).cell_size + HEADER_SIZE + elem_size * len,
                old(self).bytes().len() as int,
            ),
            final(view)@.len() == elem_size * len ==> final(self).wf(),
            final(view)@.len() == elem_size * len ==> final(self).payload_written(
                old(self),
                ix as int,
                final(view)@,
            ),
    {
        proof {
            self.lemma_cell_fits();
        }
        let size = Self::span(elem_size, len);
        self.get_mut(ix, size)
    }

    /// Number of bytes that `len` elements of `elem_size` bytes take.
    fn span(elem_size: usize, len: u64) -> (size: usize)
        requires
            elem_size * len <= usize::MAX,
        ensures
            size == elem_size * len,
    {
        if elem_size == 0 {
            0
        } else {
            assert(len <= elem_size * len) by (nonlinear_arith)
                requires
                    elem_size >= 1,
            ;
            elem_size * (len as usize)
        }
    }

    /// The view of a payload that holds no element.
    pub fn get_empty_cell_slice<T>() -> (view: &'static [T])
        ensures
            view@.len() == 0,
    {
        &[]
    }
}

} // verus!
