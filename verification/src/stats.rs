//! Instrumentation counters for the runtime.
use vstd::prelude::*;

verus! {

/// `a + b`, reduced to sixty-four bits.
pub open spec fn wrapped(a: u64, b: u64) -> u64 {
    if a + b > u64::MAX {
        (a + b - 0x1_0000_0000_0000_0000) as u64
    } else {
        (a + b) as u64
    }
}

/// Counters of what was read and of how the cache did. A counter that runs
/// over starts again at zero.
#[derive(Clone, Copy, Debug, PartialEq, Eq, Structural)]
pub struct RuntimeStats {
    /// Number of tensor access calls made.
    pub tensor_accesses: u64,
    /// Number of bytes read.
    pub bytes_read: u64,
    /// Number of cache hits.
    pub cache_hits: u64,
    /// Number of cache misses.
    pub cache_misses: u64,
}

impl RuntimeStats {
    /// Counters at zero.
    pub open spec fn zero() -> RuntimeStats {
        RuntimeStats { tensor_accesses: 0, bytes_read: 0, cache_hits: 0, cache_misses: 0 }
    }

    /// The counters after one more access that read `bytes` bytes.
    pub open spec fn after_access(self, bytes: u64) -> RuntimeStats {
        RuntimeStats {
            tensor_accesses: wrapped(self.tensor_accesses, 1),
            bytes_read: wrapped(self.bytes_read, bytes),
            ..self
        }
    }

    /// The counters after one more cache hit.
    pub open spec fn after_hit(self) -> RuntimeStats {
        RuntimeStats { cache_hits: wrapped(self.cache_hits, 1), ..self }
    }

    /// The counters after one more cache miss.
    pub open spec fn after_miss(self) -> RuntimeStats {
        RuntimeStats { cache_misses: wrapped(self.cache_misses, 1), ..self }
    }

    /// Counters at zero.
    pub fn new() -> (r: RuntimeStats)
        ensures
            r == RuntimeStats::zero(),
    {
        RuntimeStats { tensor_accesses: 0, bytes_read: 0, cache_hits: 0, cache_misses: 0 }
    }

    /// Counts an access that read `bytes` bytes.
    pub fn record_access(&mut self, bytes: u64)
        ensures
            *final(self) == old(self).after_access(bytes),
    {
        self.tensor_accesses = self.tensor_accesses.wrapping_add(1);
        self.bytes_read = self.bytes_read.wrapping_add(bytes);
    }

    /// Counts a cache hit.
    pub fn record_cache_hit(&mut self)
        ensures
            *final(self) == old(self).after_hit(),
    {
        self.cache_hits = self.cache_hits.wrapping_add(1);
    }

    /// Counts a cache miss.
    pub fn record_cache_miss(&mut self)
        ensures
            *final(self) == old(self).after_miss(),
    {
        self.cache_misses = self.cache_misses.wrapping_add(1);
    }

    /// Total tensor access calls made.
    pub fn tensor_accesses(&self) -> (r: u64)
        ensures
            r == self.tensor_accesses,
    {
        self.tensor_accesses
    }

    /// Bytes read, over all accesses.
    pub fn bytes_read(&self) -> (r: u64)
        ensures
            r == self.bytes_read,
    {
        self.bytes_read
    }

    /// Cache hit count.
    pub fn cache_hits(&self) -> (r: u64)
        ensures
            r == self.cache_hits,
    {
        self.cache_hits
    }

    /// Cache miss count.
    pub fn cache_misses(&self) -> (r: u64)
        ensures
            r == self.cache_misses,
    {
        self.cache_misses
    }

    /// The cache hits and the lookups that they are a share of, or `None` where
    /// nothing was looked up.
    pub fn cache_hit_ratio(&self) -> (r: Option<(u64, u128)>)
        ensures
            r == (if self.cache_hits + self.cache_misses == 0 {
                None::<(u64, u128)>
            } else {
                Some((self.cache_hits, (self.cache_hits + self.cache_misses) as u128))
            }),
    {
        let total = self.cache_hits as u128 + self.cache_misses as u128;
        if total == 0 {
            None
        } else {
            Some((self.cache_hits, total))
        }
    }
}

/// Every count is one of sixty-four bits, which begins anew where it would be larger. An
/// access counts once, with its bytes; a hit and a miss count once each.
pub proof fn lemma_counted(k: RuntimeStats, bytes: u64)
    ensures
        k.after_access(bytes).tensor_accesses == (k.tensor_accesses + 1) % 0x1_0000_0000_0000_0000,
        k.after_access(bytes).bytes_read == (k.bytes_read + bytes) % 0x1_0000_0000_0000_0000,
        k.after_access(bytes).cache_hits == k.cache_hits,
        k.after_access(bytes).cache_misses == k.cache_misses,
        k.after_hit().cache_hits == (k.cache_hits + 1) % 0x1_0000_0000_0000_0000,
        k.after_hit().cache_misses == k.cache_misses,
        k.after_miss().cache_misses == (k.cache_misses + 1) % 0x1_0000_0000_0000_0000,
        k.after_miss().cache_hits == k.cache_hits,
        k.after_hit().tensor_accesses == k.tensor_accesses,
        k.after_miss().tensor_accesses == k.tensor_accesses,
        k.after_hit().bytes_read == k.bytes_read,
        k.after_miss().bytes_read == k.bytes_read,
        RuntimeStats::zero().tensor_accesses == 0,
        RuntimeStats::zero().bytes_read == 0,
        RuntimeStats::zero().cache_hits == 0,
        RuntimeStats::zero().cache_misses == 0,
{
}

} // verus!
