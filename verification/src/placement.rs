//! Where the file behind a new arena goes, and what it is called.

use vstd::prelude::*;
use rand::{thread_rng, Rng};
use crate::layout::cells;

verus! {

/// Calls `Rng::gen_range(0, high)` on `rand::thread_rng()`, which draws a
/// number from zero up to, but not including, `high`, and panics if there is
/// no such number. Which number comes is left open.
#[verifier::external_body]
fn random_below(high: u128) -> (drawn: u128)
    requires
        high > 0,
    ensures
        drawn < high,
{
    thread_rng().gen_range(0, high)
}

/// The decimal digits of `n`, as ASCII bytes, most significant first and
/// without leading zeros.
pub open spec fn decimal(n: nat) -> Seq<u8>
    decreases n,
{
    if n < 10 {
        seq![(48 + n) as u8]
    } else {
        decimal(n / 10).push((48 + n % 10) as u8)
    }
}

/// The number that a run of ASCII digits stands for.
pub open spec fn decimal_value(digits: Seq<u8>) -> nat
    decreases digits.len(),
{
    if digits.len() == 0 {
        0
    } else {
        (10 * decimal_value(digits.drop_last()) + (digits.last() - 48)) as nat
    }
}

/// The digits of a number are ASCII digits and stand for that number, so
/// that two numbers with the same digits are one number.
pub proof fn lemma_decimal_value(n: nat)
    ensures
        decimal(n).len() >= 1,
        forall|i: int| 0 <= i < decimal(n).len() ==> 48 <= #[trigger] decimal(n)[i] <= 57,
        decimal_value(decimal(n)) == n,
    decreases n,
{
    if n < 10 {
        assert(decimal(n).drop_last() =~= Seq::<u8>::empty());
        assert(decimal_value(decimal(n).drop_last()) == 0);
    } else {
        lemma_decimal_value(n / 10);
        assert(decimal(n).drop_last() =~= decimal(n / 10));
    }
}

/// Appends the decimal digits of `n` to `out`.
pub fn push_decimal(n: u128, out: &mut Vec<u8>)
    ensures
        final(out)@ == old(out)@ + decimal(n as nat),
    decreases n,
{
    if n >= 10 {
        push_decimal(n / 10, out);
    }
    let digit: u8 = (n % 10) as u8;
    out.push(48 + digit);
    assert(out@ =~= old(out)@ + decimal(n as nat));
}

/// Where the file behind a new arena goes, and how large it is.
#[derive(Clone, Copy, Debug, PartialEq, Eq, Structural)]
pub struct BackingFile {
    /// Index of the directory, among the candidates, that the file goes to.
    pub drive: usize,
    /// The number that, written in decimal, is the file's name.
    pub name: u128,
    /// Size of the file in bytes.
    pub len: u64,
}

impl BackingFile {
    /// True if this is a file for an arena of `2^capacity_pow2` cells of
    /// `cell_size` bytes, in one of `num_drives` directories.
    pub open spec fn serves(self, num_drives: usize, cell_size: u64, capacity_pow2: u8) -> bool {
        &&& self.drive < num_drives
        &&& self.name < u128::MAX
        &&& self.len == cells(capacity_pow2) * cell_size
    }

    /// The file for an arena of `2^capacity_pow2` cells of `cell_size` bytes
    /// that the two draws select: `drive_draw` the directory, `name_draw`
    /// the name.
    pub fn from_draws(
        drive_draw: u128,
        name_draw: u128,
        num_drives: usize,
        cell_size: u64,
        capacity_pow2: u8,
    ) -> (file: Self)
        requires
            drive_draw < num_drives,
            name_draw < u128::MAX,
            capacity_pow2 < 64,
            cells(capacity_pow2) * cell_size <= u64::MAX,
        ensures
            file.serves(num_drives, cell_size, capacity_pow2),
            file.drive == drive_draw,
            file.name == name_draw,
    {
        proof {
            vstd::bits::lemma_u64_pow2_no_overflow(capacity_pow2 as nat);
            vstd::bits::lemma_u64_shl_is_mul(1u64, capacity_pow2 as u64);
        }
        let capacity: u64 = 1u64 << (capacity_pow2 as u64);
        BackingFile { drive: drive_draw as usize, name: name_draw, len: capacity * cell_size }
    }

    /// Picks, at random, one of `num_drives` directories and a file name for
    /// an arena of `2^capacity_pow2` cells of `cell_size` bytes.
    pub fn pick(num_drives: usize, cell_size: u64, capacity_pow2: u8) -> (file: Self)
        requires
            num_drives > 0,
            capacity_pow2 < 64,
            cells(capacity_pow2) * cell_size <= u64::MAX,
        ensures
            file.serves(num_drives, cell_size, capacity_pow2),
    {
        let drive_draw = random_below(num_drives as u128);
        let name_draw = random_below(u128::MAX);
        Self::from_draws(drive_draw, name_draw, num_drives, cell_size, capacity_pow2)
    }

    /// The file's name: its number in decimal, as ASCII digits. Files with
    /// different numbers have different names.
    pub fn file_name(&self) -> (name: Vec<u8>)
        ensures
            name@ == decimal(self.name as nat),
            name@.len() >= 1,
            forall|i: int| 0 <= i < name@.len() ==> 48 <= #[trigger] name@[i] <= 57,
            decimal_value(name@) == self.name,
    {
        let mut name: Vec<u8> = Vec::new();
        push_decimal(self.name, &mut name);
        proof {
            lemma_decimal_value(self.name as nat);
            assert(name@ =~= decimal(self.name as nat));
        }
        name
    }

    /// Offset of the last byte of the file: writing one byte there gives the
    /// file its size.
    pub fn last_byte(&self) -> (offset: u64)
        requires
            self.len >= 1,
        ensures
            offset == self.len - 1,
    {
        self.len - 1
    }
}

} // verus!
