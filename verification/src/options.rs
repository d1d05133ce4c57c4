//! Configuration for a page store and for manual flush operations.

use vstd::prelude::*;

verus! {

/// Options to configure a page store.
#[non_exhaustive]
#[derive(Clone, Debug)]
pub struct Options {
    /// The capacity of the write buffer, in bytes. It should be a power of
    /// two.
    pub write_buffer_capacity: u32,
    /// The maximum number of write buffers held before writers stall.
    pub max_write_buffers: usize,
    /// If true, page files are read and written with direct I/O.
    pub use_direct_io: bool,
    /// If true, no space reclamation runs.
    pub disable_space_reclaiming: bool,
    /// The highest tolerated space amplification, in percent.
    pub max_space_amplification_percent: usize,
    /// The high watermark of used storage space, in bytes.
    pub space_used_high: u64,
    /// Target file size for compaction, in bytes.
    pub file_base_size: usize,
    /// The capacity of the page read cache, in bytes.
    pub cache_capacity: usize,
    /// The estimated average charge associated with one cache entry.
    pub cache_estimated_entry_charge: usize,
    /// The capacity of the file-reader cache, in readers.
    pub cache_file_reader_capacity: u64,
    /// Whether exceeding the page-cache capacity reports an error.
    pub cache_strict_capacity_limit: bool,
    /// Whether warm pages enter the page cache during a flush.
    pub prepopulate_cache_on_flush: bool,
    /// Whether unpersisted data may be dropped on close to speed it up.
    pub avoid_flush_during_shutdown: bool,
}

impl Default for Options {
    /// The stock configuration.
    fn default() -> (r: Self)
        ensures
            r.write_buffer_capacity == 128u32 << 20,
            r.max_write_buffers == 8,
            !r.use_direct_io,
            !r.disable_space_reclaiming,
            r.max_space_amplification_percent == 100,
            r.space_used_high == u64::MAX,
            r.file_base_size == 64usize << 20,
            r.cache_capacity == 8usize << 20,
            r.cache_estimated_entry_charge == 8usize << 10,
            r.cache_file_reader_capacity == 5000,
            !r.cache_strict_capacity_limit,
            r.prepopulate_cache_on_flush,
            !r.avoid_flush_during_shutdown,
    {
        Options {
            write_buffer_capacity: 128 << 20,
            max_write_buffers: 8,
            use_direct_io: false,
            disable_space_reclaiming: false,
            max_space_amplification_percent: 100,
            space_used_high: u64::MAX,
            file_base_size: 64 << 20,
            cache_capacity: 8 << 20,
            cache_estimated_entry_charge: 8 << 10,
            cache_file_reader_capacity: 5000,
            cache_strict_capacity_limit: false,
            prepopulate_cache_on_flush: true,
            avoid_flush_during_shutdown: false,
        }
    }
}

/// Options that control manual flush operations.
#[derive(Clone, Debug)]
pub struct FlushOptions {
    /// If true, the call waits until the flush is done.
    pub wait: bool,
    /// If true, the flush starts even during a write stall.
    pub allow_write_stall: bool,
}

impl Default for FlushOptions {
    /// The stock flush behaviour: wait, and yield to write stalls.
    fn default() -> (r: Self)
        ensures
            r.wait,
            !r.allow_write_stall,
    {
        FlushOptions { wait: true, allow_write_stall: false }
    }
}

} // verus!
