//! How a region of bytes is cut into cells, and what copying into it does.

use vstd::prelude::*;
use vstd::arithmetic::power2::pow2;
use vstd::arithmetic::div_mod::{lemma_fundamental_div_mod, lemma_fundamental_div_mod_converse};
use vstd::arithmetic::div_mod::{lemma_div_pos_is_pos, lemma_multiply_divide_lt};

verus! {

/// Number of cells of an arena with the given capacity exponent.
pub open spec fn cells(capacity_pow2: u8) -> nat {
    pow2(capacity_pow2 as nat)
}

/// The bytes of cell `ix` in a region cut into cells of `cell_size` bytes.
pub open spec fn cell_of(bytes: Seq<u8>, cell_size: int, ix: int) -> Seq<u8> {
    bytes.subrange(ix * cell_size, ix * cell_size + cell_size)
}

/// True if every byte is zero, as in a region that was mapped and never
/// written.
pub open spec fn blank(bytes: Seq<u8>) -> bool {
    forall|i: int| 0 <= i < bytes.len() ==> bytes[i] == 0
}

/// `bytes` with the `patch.len()` bytes from `at` on replaced by `patch`.
pub open spec fn overwrite(bytes: Seq<u8>, at: int, patch: Seq<u8>) -> Seq<u8>
    recommends
        0 <= at,
        at + patch.len() <= bytes.len(),
{
    Seq::new(
        bytes.len(),
        |i: int|
            if at <= i < at + patch.len() {
                patch[i - at]
            } else {
                bytes[i]
            },
    )
}

/// A cell with a valid index lies inside the region.
pub proof fn lemma_cell_in_bounds(ix: int, capacity: int, cell_size: int)
    requires
        0 <= ix < capacity,
        0 <= cell_size,
    ensures
        0 <= ix * cell_size,
        ix * cell_size + cell_size <= capacity * cell_size,
{
    assert(0 <= ix * cell_size) by (nonlinear_arith)
        requires
            0 <= ix,
            0 <= cell_size,
    ;
    assert((ix + 1) * cell_size <= capacity * cell_size) by (nonlinear_arith)
        requires
            ix + 1 <= capacity,
            0 <= cell_size,
    ;
    assert((ix + 1) * cell_size == ix * cell_size + cell_size) by (nonlinear_arith);
}

/// Cells with different indices share no byte: the lower one ends where the
/// next may begin.
pub proof fn lemma_cells_apart(i: int, j: int, cell_size: int)
    requires
        0 <= i < j,
        0 <= cell_size,
    ensures
        i * cell_size + cell_size <= j * cell_size,
{
    assert((i + 1) * cell_size <= j * cell_size) by (nonlinear_arith)
        requires
            i + 1 <= j,
            0 <= cell_size,
    ;
    assert((i + 1) * cell_size == i * cell_size + cell_size) by (nonlinear_arith);
}

/// Overwriting bytes inside cell `ix` leaves every other cell as it was.
pub proof fn lemma_overwrite_other_cell(
    bytes: Seq<u8>,
    cell_size: int,
    capacity: int,
    ix: int,
    offset: int,
    patch: Seq<u8>,
    other: int,
)
    requires
        0 <= ix < capacity,
        0 <= other < capacity,
        other != ix,
        0 <= cell_size,
        bytes.len() == capacity * cell_size,
        0 <= offset,
        offset + patch.len() <= cell_size,
    ensures
        cell_of(overwrite(bytes, ix * cell_size + offset, patch), cell_size, other) == cell_of(
            bytes,
            cell_size,
            other,
        ),
{
    lemma_cell_in_bounds(ix, capacity, cell_size);
    lemma_cell_in_bounds(other, capacity, cell_size);
    if other < ix {
        lemma_cells_apart(other, ix, cell_size);
    } else {
        lemma_cells_apart(ix, other, cell_size);
    }
    assert(cell_of(overwrite(bytes, ix * cell_size + offset, patch), cell_size, other) =~= cell_of(
        bytes,
        cell_size,
        other,
    ));
}

/// Overwriting bytes inside cell `ix` overwrites them in the cell, at the
/// same offset.
pub proof fn lemma_overwrite_same_cell(
    bytes: Seq<u8>,
    cell_size: int,
    capacity: int,
    ix: int,
    offset: int,
    patch: Seq<u8>,
)
    requires
        0 <= ix < capacity,
        0 <= cell_size,
        bytes.len() == capacity * cell_size,
        0 <= offset,
        offset + patch.len() <= cell_size,
    ensures
        cell_of(overwrite(bytes, ix * cell_size + offset, patch), cell_size, ix) == overwrite(
            cell_of(bytes, cell_size, ix),
            offset,
            patch,
        ),
{
    lemma_cell_in_bounds(ix, capacity, cell_size);
    assert(cell_of(overwrite(bytes, ix * cell_size + offset, patch), cell_size, ix) =~= overwrite(
        cell_of(bytes, cell_size, ix),
        offset,
        patch,
    ));
}

/// Every cell of a blank region is blank.
pub proof fn lemma_blank_cell(bytes: Seq<u8>, cell_size: int, capacity: int, ix: int)
    requires
        0 <= ix < capacity,
        0 <= cell_size,
        bytes.len() == capacity * cell_size,
        blank(bytes),
    ensures
        blank(cell_of(bytes, cell_size, ix)),
        cell_of(bytes, cell_size, ix).len() == cell_size,
{
    lemma_cell_in_bounds(ix, capacity, cell_size);
}

/// The multiple `i * step` is a multiple of `step`, of `i` only, and lies
/// below `count * step` where `i` lies below `count`.
pub proof fn lemma_multiple(i: int, step: int, count: int)
    requires
        0 <= i < count,
        0 < step,
    ensures
        0 <= i * step < count * step,
        (i * step) % step == 0,
        (i * step) / step == i,
{
    lemma_fundamental_div_mod_converse(i * step, step, i, 0);
    assert(0 <= i * step) by (nonlinear_arith)
        requires
            0 <= i,
            0 < step,
    ;
    assert(i * step + step <= count * step) by (nonlinear_arith)
        requires
            i + 1 <= count,
            0 < step,
    ;
}

/// An index below `count * step` that is a multiple of `step` is the
/// multiple of its quotient, and the quotient lies below `count`.
pub proof fn lemma_quotient(ix: int, step: int, count: int)
    requires
        0 <= ix < count * step,
        0 < step,
    ensures
        0 <= ix / step < count,
        ix % step == 0 ==> ix == (ix / step) * step,
{
    lemma_fundamental_div_mod(ix, step);
    lemma_div_pos_is_pos(ix, step);
    assert(count * step == step * count) by (nonlinear_arith);
    lemma_multiply_divide_lt(ix, step, count);
    assert(step * (ix / step) == (ix / step) * step) by (nonlinear_arith);
}

/// Copies `len` bytes of `src`, from byte `src_at` on, over the bytes of `dst`
/// from byte `dst_at` on.
pub fn copy_bytes(dst: &mut [u8], dst_at: usize, src: &[u8], src_at: usize, len: usize)
    requires
        dst_at + len <= old(dst)@.len(),
        src_at + len <= src@.len(),
    ensures
        final(dst)@ == overwrite(
            old(dst)@,
            dst_at as int,
            src@.subrange(src_at as int, src_at + len),
        ),
{
    let dst_len: usize = dst.len();
    let src_len: usize = src.len();
    let mut k: usize = 0;
    while k < len
        invariant
            k <= len,
            dst@.len() == old(dst)@.len(),
            dst_at + len <= dst@.len() == dst_len,
            src_at + len <= src@.len() == src_len,
            forall|i: int|
                0 <= i < dst@.len() ==> dst@[i] == if dst_at <= i < dst_at + k {
                    src@[src_at + i - dst_at]
                } else {
                    old(dst)@[i]
                },
        decreases len - k,
    {
        dst[dst_at + k] = src[src_at + k];
        k += 1;
    }
    assert(dst@ =~= overwrite(
        old(dst)@,
        dst_at as int,
        src@.subrange(src_at as int, src_at + len),
    ));
}

/// True if every byte of `bytes` is zero.
pub fn is_blank(bytes: &[u8]) -> (all_zero: bool)
    ensures
        all_zero == blank(bytes@),
{
    let len: usize = bytes.len();
    let mut k: usize = 0;
    while k < len
        invariant
            k <= len == bytes@.len(),
            forall|i: int| 0 <= i < k ==> bytes@[i] == 0,
        decreases len - k,
    {
        if bytes[k] != 0 {
            return false;
        }
        k += 1;
    }
    true
}

} // verus!
