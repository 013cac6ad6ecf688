//! The counters that arenas report to.

use vstd::prelude::*;

verus! {

/// Counters that arenas add to as they work. Nothing an arena does depends
/// on them. The sums wrap around at `u64::MAX`. An arena holds no counters:
/// it adds to the ones that it is handed, so that their owner decides which
/// arenas report to the same ones.
#[derive(Clone, Copy, Debug, PartialEq, Eq, Structural)]
pub struct BucketStats {
    /// Number of times an arena was grown.
    pub resizes: u64,
    /// Largest capacity, in cells, that any arena reported.
    pub max_size: u64,
    /// Microseconds spent moving cells into grown arenas.
    pub resize_us: u64,
    /// Microseconds spent making and sizing backing files.
    pub new_file_us: u64,
    /// Microseconds spent flushing backing files.
    pub flush_file_us: u64,
    /// Microseconds spent mapping backing files.
    pub mmap_us: u64,
}

impl BucketStats {
    /// Counters that have counted nothing yet.
    pub open spec fn zero() -> BucketStats {
        BucketStats {
            resizes: 0,
            max_size: 0,
            resize_us: 0,
            new_file_us: 0,
            flush_file_us: 0,
            mmap_us: 0,
        }
    }

    /// The counters after an arena of `size` cells has reported itself.
    pub open spec fn after_max_size(self, size: u64) -> BucketStats {
        BucketStats {
            max_size: if size > self.max_size {
                size
            } else {
                self.max_size
            },
            ..self
        }
    }

    /// The counters after one growth that took `elapsed_us` microseconds.
    pub open spec fn after_resize(self, elapsed_us: u64) -> BucketStats {
        BucketStats {
            resizes: self.resizes.wrapping_add(1),
            resize_us: self.resize_us.wrapping_add(elapsed_us),
            ..self
        }
    }

    /// The counters after one backing file was made, flushed and mapped in
    /// the given numbers of microseconds.
    pub open spec fn after_new_map(
        self,
        new_file_us: u64,
        flush_file_us: u64,
        mmap_us: u64,
    ) -> BucketStats {
        BucketStats {
            new_file_us: self.new_file_us.wrapping_add(new_file_us),
            flush_file_us: self.flush_file_us.wrapping_add(flush_file_us),
            mmap_us: self.mmap_us.wrapping_add(mmap_us),
            ..self
        }
    }

    /// Makes counters that have counted nothing yet.
    pub fn new() -> (stats: Self)
        ensures
            stats == Self::zero(),
    {
        BucketStats {
            resizes: 0,
            max_size: 0,
            resize_us: 0,
            new_file_us: 0,
            flush_file_us: 0,
            mmap_us: 0,
        }
    }

    /// Raises the high-water mark of capacity to `size` if it is below.
    pub fn update_max_size(&mut self, size: u64)
        ensures
            *final(self) == old(self).after_max_size(size),
            final(self).max_size >= old(self).max_size,
            final(self).max_size >= size,
    {
        if size > self.max_size {
            self.max_size = size;
        }
    }

    /// Counts one growth that took `elapsed_us` microseconds.
    pub fn record_resize(&mut self, elapsed_us: u64)
        ensures
            *final(self) == old(self).after_resize(elapsed_us),
    {
        self.resizes = self.resizes.wrapping_add(1);
        self.resize_us = self.resize_us.wrapping_add(elapsed_us);
    }

    /// Adds the time that making, flushing and mapping one backing file took.
    pub fn record_new_map(&mut self, new_file_us: u64, flush_file_us: u64, mmap_us: u64)
        ensures
            *final(self) == old(self).after_new_map(new_file_us, flush_file_us, mmap_us),
    {
        self.new_file_us = self.new_file_us.wrapping_add(new_file_us);
        self.flush_file_us = self.flush_file_us.wrapping_add(flush_file_us);
        self.mmap_us = self.mmap_us.wrapping_add(mmap_us);
    }
}

impl Default for BucketStats {
    fn default() -> (stats: Self)
        ensures
            stats == Self::zero(),
    {
        BucketStats::new()
    }
}

} // verus!
