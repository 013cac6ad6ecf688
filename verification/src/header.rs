//! The header at the start of every cell, and how its lock word lies in
//! memory.

use vstd::prelude::*;
use crate::layout::overwrite;

verus! {

/// Where an arena keeps the flag that says whether a cell is occupied.
#[derive(Clone, Copy, Debug, PartialEq, Eq, Structural)]
pub enum IsAllocatedFlagLocation {
    /// In a header of its own at the start of each cell.
    InHeader,
}

/// Where the arenas of this library keep the flag.
pub const IS_ALLOCATED_FLAG_LOCATION: IsAllocatedFlagLocation = IsAllocatedFlagLocation::InHeader;

/// Lock word of a cell that nobody holds.
pub const UID_UNLOCKED: u64 = 0;

/// Lock word of a cell that is in use.
pub const UID_LOCKED: u64 = 1;

/// Number of bytes that a header takes at the start of every cell.
pub const HEADER_SIZE: usize = 8;

/// The record at the start of every cell: one lock word.
#[derive(Clone, Copy, Debug, PartialEq, Eq, Structural)]
pub struct Header {
    pub lock: u64,
}

/// The lock word that eight bytes stand for, least significant byte first.
pub open spec fn word_of(s: Seq<u8>) -> int
    recommends
        s.len() == 8,
{
    s[0] as int
        + 0x100 * (s[1] as int)
        + 0x1_0000 * (s[2] as int)
        + 0x100_0000 * (s[3] as int)
        + 0x1_0000_0000 * (s[4] as int)
        + 0x100_0000_0000 * (s[5] as int)
        + 0x1_0000_0000_0000 * (s[6] as int)
        + 0x100_0000_0000_0000 * (s[7] as int)
}

/// The eight bytes that stand for a lock word, least significant byte first.
pub open spec fn bytes_of_word(w: u64) -> Seq<u8> {
    let q0 = w as int;
    let q1 = q0 / 0x100;
    let q2 = q1 / 0x100;
    let q3 = q2 / 0x100;
    let q4 = q3 / 0x100;
    let q5 = q4 / 0x100;
    let q6 = q5 / 0x100;
    let q7 = q6 / 0x100;
    seq![
        (q0 % 0x100) as u8,
        (q1 % 0x100) as u8,
        (q2 % 0x100) as u8,
        (q3 % 0x100) as u8,
        (q4 % 0x100) as u8,
        (q5 % 0x100) as u8,
        (q6 % 0x100) as u8,
        (q7 % 0x100) as u8,
    ]
}

/// Decoding undoes encoding: the bytes of a word stand for that word.
pub proof fn lemma_word_of_bytes(w: u64)
    ensures
        bytes_of_word(w).len() == 8,
        word_of(bytes_of_word(w)) == w,
{
    let q0 = w as int;
    let q1 = q0 / 0x100;
    let q2 = q1 / 0x100;
    let q3 = q2 / 0x100;
    let q4 = q3 / 0x100;
    let q5 = q4 / 0x100;
    let q6 = q5 / 0x100;
    let q7 = q6 / 0x100;
    assert(q0 == 0x100 * q1 + q0 % 0x100);
    assert(q1 == 0x100 * q2 + q1 % 0x100);
    assert(q2 == 0x100 * q3 + q2 % 0x100);
    assert(q3 == 0x100 * q4 + q3 % 0x100);
    assert(q4 == 0x100 * q5 + q4 % 0x100);
    assert(q5 == 0x100 * q6 + q5 % 0x100);
    assert(q6 == 0x100 * q7 + q6 % 0x100);
    assert(0 <= q7 < 0x100);
}

/// Eight zero bytes are the unlocked word, and no other eight bytes are.
pub proof fn lemma_zero_bytes_unlocked(s: Seq<u8>)
    requires
        s.len() == 8,
    ensures
        word_of(s) == UID_UNLOCKED <==> (forall|i: int| 0 <= i < 8 ==> s[i] == 0),
{
    if word_of(s) == UID_UNLOCKED {
        assert(s[0] == 0 && s[1] == 0 && s[2] == 0 && s[3] == 0);
        assert(s[4] == 0 && s[5] == 0 && s[6] == 0 && s[7] == 0);
    }
}

impl Header {
    /// Takes the lock if nobody holds it, and says whether it did.
    pub fn try_lock(&mut self) -> (locked: bool)
        ensures
            locked == (old(self).lock == UID_UNLOCKED),
            locked ==> final(self).lock == UID_LOCKED,
            !locked ==> *final(self) == *old(self),
    {
        if self.lock == UID_UNLOCKED {
            self.lock = UID_LOCKED;
            true
        } else {
            false
        }
    }

    /// Gives the lock back. The lock must be held.
    pub fn unlock(&mut self)
        requires
            old(self).lock == UID_LOCKED,
        ensures
            final(self).lock == UID_UNLOCKED,
    {
        self.lock = UID_UNLOCKED;
    }

    /// True if nobody holds the lock.
    pub fn is_unlocked(&self) -> (unlocked: bool)
        ensures
            unlocked == (self.lock == UID_UNLOCKED),
    {
        self.lock == UID_UNLOCKED
    }

    /// Reads the header that starts at byte `at` of `bytes`.
    pub fn read(bytes: &[u8], at: usize) -> (header: Header)
        requires
            at + HEADER_SIZE <= bytes@.len(),
        ensures
            header.lock == word_of(bytes@.subrange(at as int, at + HEADER_SIZE)),
    {
        let b0: u64 = bytes[at] as u64;
        let b1: u64 = bytes[at + 1] as u64;
        let b2: u64 = bytes[at + 2] as u64;
        let b3: u64 = bytes[at + 3] as u64;
        let b4: u64 = bytes[at + 4] as u64;
        let b5: u64 = bytes[at + 5] as u64;
        let b6: u64 = bytes[at + 6] as u64;
        let b7: u64 = bytes[at + 7] as u64;
        proof {
            let s = bytes@.subrange(at as int, at + 8);
            assert(s[0] == b0 && s[1] == b1 && s[2] == b2 && s[3] == b3);
            assert(s[4] == b4 && s[5] == b5 && s[6] == b6 && s[7] == b7);
        }
        let lock: u64 = b0 + 0x100 * b1 + 0x1_0000 * b2 + 0x100_0000 * b3 + 0x1_0000_0000 * b4
            + 0x100_0000_0000 * b5 + 0x1_0000_0000_0000 * b6 + 0x100_0000_0000_0000 * b7;
        Header { lock }
    }

    /// Writes this header over the eight bytes that start at byte `at` of
    /// `bytes`, so that `read` finds it there.
    pub fn write(&self, bytes: &mut [u8], at: usize)
        requires
            at + HEADER_SIZE <= old(bytes)@.len(),
        ensures
            final(bytes)@ == overwrite(old(bytes)@, at as int, bytes_of_word(self.lock)),
            word_of(final(bytes)@.subrange(at as int, at + HEADER_SIZE)) == self.lock,
    {
        let q0: u64 = self.lock;
        let q1: u64 = q0 / 0x100;
        let q2: u64 = q1 / 0x100;
        let q3: u64 = q2 / 0x100;
        let q4: u64 = q3 / 0x100;
        let q5: u64 = q4 / 0x100;
        let q6: u64 = q5 / 0x100;
        let q7: u64 = q6 / 0x100;
        bytes[at] = (q0 % 0x100) as u8;
        bytes[at + 1] = (q1 % 0x100) as u8;
        bytes[at + 2] = (q2 % 0x100) as u8;
        bytes[at + 3] = (q3 % 0x100) as u8;
        bytes[at + 4] = (q4 % 0x100) as u8;
        bytes[at + 5] = (q5 % 0x100) as u8;
        bytes[at + 6] = (q6 % 0x100) as u8;
        bytes[at + 7] = (q7 % 0x100) as u8;
        proof {
            lemma_word_of_bytes(self.lock);
            assert(bytes@ =~= overwrite(old(bytes)@, at as int, bytes_of_word(self.lock)));
            assert(bytes@.subrange(at as int, at + 8) =~= bytes_of_word(self.lock));
        }
    }
}

} // verus!
