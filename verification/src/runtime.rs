//! Access to the tensors of a mapped `.axon` file.
//!
//! Opening a file reads its structure alone. The bytes of a tensor are touched
//! when they are asked for.
use std::sync::Arc;

use vstd::prelude::*;

use crate::bytes::to_vec;
use crate::container::{
    find_descriptor, find_name, lemma_find_name, open_file, read_container, AxonHeader, Opened,
};
use crate::descriptor::{descriptor_models, Descriptor, TensorDescriptor};
use crate::error::{clamp, eof, AxonError, AxonResult, Failure};
use crate::manifest::Manifest;
use crate::slice::SliceSpec;
use crate::slices::copy_u64;
use crate::stats::{wrapped, RuntimeStats};
use crate::store::{range_of, MmapStore};
use crate::tensor::{dtype_size, DType};
use crate::tensor_cache::{
    after_get, after_put, find_entry, leave_on_put, lemma_get_entries, lemma_put_entries,
    lemma_without_entries, without, CacheStats, Entries, TensorCache,
};

verus! {

// ── The model ───────────────────────────────────────────────────────
/// What is known of a tensor without its bytes.
#[verifier::ext_equal]
pub struct TensorFacts {
    pub name: Seq<char>,
    pub dtype: DType,
    pub shape: Seq<u64>,
    pub data_offset: u64,
    pub data_size: u64,
}

/// The facts that a descriptor states.
pub open spec fn facts_of(x: Descriptor) -> TensorFacts {
    TensorFacts {
        name: x.name,
        dtype: x.dtype,
        shape: x.shape,
        data_offset: x.data_offset,
        data_size: x.data_size,
    }
}

/// The first descriptor that has the name.
pub open spec fn lookup(x: Seq<Descriptor>, name: Seq<char>) -> Result<Descriptor, Failure> {
    match find_name(x, name, 0) {
        Some(i) => Ok(x[i]),
        None => Err(Failure::TensorNotFound(name)),
    }
}

/// The bytes of the tensor with the name.
pub open spec fn whole_tensor(d: Seq<u8>, x: Seq<Descriptor>, name: Seq<char>) -> Result<
    Seq<u8>,
    Failure,
> {
    match lookup(x, name) {
        Err(e) => Err(e),
        Ok(t) => range_of(d, t.data_offset as int, t.data_size as int),
    }
}

/// What is counted once the tensor with the name was read. Without a name, or
/// where the tensor cannot be read, nothing is counted.
#[verifier::opaque]
pub open spec fn after_read(
    k: RuntimeStats,
    d: Seq<u8>,
    x: Seq<Descriptor>,
    name: Option<Seq<char>>,
) -> RuntimeStats {
    match name {
        Some(n) => match whole_tensor(d, x, n) {
            Ok(b) => k.after_access(b.len() as u64),
            Err(_) => k,
        },
        None => k,
    }
}

/// What is counted once the first `n` of the tensors with the names were read.
pub open spec fn after_reads(
    k: RuntimeStats,
    d: Seq<u8>,
    x: Seq<Descriptor>,
    names: Seq<Option<Seq<char>>>,
    n: int,
) -> RuntimeStats
    decreases n,
{
    if n <= 0 {
        k
    } else {
        after_read(after_reads(k, d, x, names, n - 1), d, x, names[n - 1])
    }
}

/// `size` bytes of the tensor with the name, from `offset` on within it.
pub open spec fn part_of_tensor(
    d: Seq<u8>,
    x: Seq<Descriptor>,
    name: Seq<char>,
    offset: int,
    size: int,
) -> Result<Seq<u8>, Failure> {
    match lookup(x, name) {
        Err(e) => Err(e),
        Ok(t) => if offset + size > t.data_size {
            Err(eof(t.data_offset + offset + size, t.data_offset + t.data_size))
        } else {
            range_of(d, t.data_offset + offset, size)
        },
    }
}

/// The bytes of the tensor with the name from `start` up to `end` within it.
pub open spec fn range_of_tensor(
    d: Seq<u8>,
    x: Seq<Descriptor>,
    name: Seq<char>,
    start: int,
    end: int,
) -> Result<Seq<u8>, Failure> {
    match lookup(x, name) {
        Err(e) => Err(e),
        Ok(t) => if start > end {
            Err(eof(t.data_offset + start, t.data_offset + end))
        } else {
            part_of_tensor(d, x, name, start, end - start)
        },
    }
}

/// The rows of the matrix with the name from `start` up to `end`.
pub open spec fn rows_of_tensor(
    d: Seq<u8>,
    x: Seq<Descriptor>,
    name: Seq<char>,
    start: u64,
    end: u64,
) -> Result<Seq<u8>, Failure> {
    match lookup(x, name) {
        Err(e) => Err(e),
        Ok(t) => match (SliceSpec::Rows { row_start: start, row_end: end }).resolved(
            t.dtype,
            t.shape,
            0,
            t.data_size,
        ) {
            Err(e) => Err(e),
            Ok((offset, size)) => part_of_tensor(d, x, name, offset as int, size as int),
        },
    }
}

/// What is known of a tensor without its bytes.
#[derive(Debug)]
pub struct TensorInfo {
    /// The tensor's name.
    pub name: String,
    /// The type of its elements.
    pub dtype: DType,
    /// Its dimensions.
    pub shape: Vec<u64>,
    /// Where in the file its bytes begin.
    pub data_offset: u64,
    /// How many bytes it has.
    pub data_size: u64,
}

impl View for TensorInfo {
    type V = TensorFacts;

    open spec fn view(&self) -> TensorFacts {
        TensorFacts {
            name: self.name@,
            dtype: self.dtype,
            shape: self.shape@,
            data_offset: self.data_offset,
            data_size: self.data_size,
        }
    }
}

impl TensorInfo {
    /// The facts that a descriptor states.
    pub fn from_descriptor(x: &TensorDescriptor) -> (r: TensorInfo)
        ensures
            r@ == facts_of(x@),
    {
        TensorInfo {
            name: x.name.clone(),
            dtype: x.dtype,
            shape: copy_u64(x.shape.as_slice()),
            data_offset: x.data_offset,
            data_size: x.data_size,
        }
    }
}

/// What a result stands for.
pub open spec fn outcome(r: AxonResult<Vec<u8>>) -> Result<Seq<u8>, Failure> {
    match r {
        Ok(b) => Ok(b@),
        Err(e) => Err(e@),
    }
}

/// Ways to get at the bytes of tensors.
pub trait TensorAccess {
    /// The value can be asked for tensors.
    spec fn ready(&self) -> bool;

    /// The bytes of the tensor with the name.
    spec fn whole(&self, name: Seq<char>) -> Result<Seq<u8>, Failure>;

    /// `size` bytes of the tensor with the name, from `offset` on within it.
    spec fn part_at(&self, name: Seq<char>, offset: int, size: int) -> Result<Seq<u8>, Failure>;

    /// The bytes of a tensor.
    fn tensor_bytes(&mut self, name: &str) -> (r: AxonResult<Vec<u8>>)
        requires
            old(self).ready(),
        ensures
            final(self).ready(),
            outcome(r) == old(self).whole(name@),
            forall|n: Seq<char>| #[trigger] final(self).whole(n) == old(self).whole(n),
            forall|n: Seq<char>, a: int, b: int| #[trigger]
                final(self).part_at(n, a, b) == old(self).part_at(n, a, b),
    ;

    /// `size` bytes of a tensor, from `byte_offset` on within it.
    fn tensor_byte_range(&mut self, name: &str, byte_offset: u64, size: u64) -> (r: AxonResult<
        Vec<u8>,
    >)
        requires
            old(self).ready(),
        ensures
            final(self).ready(),
            outcome(r) == old(self).part_at(name@, byte_offset as int, size as int),
            forall|n: Seq<char>| #[trigger] final(self).whole(n) == old(self).whole(n),
            forall|n: Seq<char>, a: int, b: int| #[trigger]
                final(self).part_at(n, a, b) == old(self).part_at(n, a, b),
    ;
}

/// A mapped `.axon` file.
#[derive(Debug)]
pub struct AxonRuntime<'a> {
    store: MmapStore<'a>,
    header: AxonHeader,
    manifest: Manifest,
    descriptors: Vec<TensorDescriptor>,
    stats: RuntimeStats,
}

impl<'a> AxonRuntime<'a> {
    /// The bytes of the file.
    pub closed spec fn bytes(self) -> Seq<u8> {
        self.store.data@
    }

    /// The structure of the file.
    pub closed spec fn opened(self) -> Opened {
        Opened {
            header: self.header,
            manifest: self.manifest@,
            descriptors: descriptor_models(self.descriptors@),
        }
    }

    /// The descriptors of the file.
    pub open spec fn descs(self) -> Seq<Descriptor> {
        self.opened().descriptors
    }

    /// What was counted.
    pub closed spec fn counts(self) -> RuntimeStats {
        self.stats
    }

    /// The same file, with other counts.
    pub open spec fn same_file(self, other: AxonRuntime<'a>) -> bool {
        self.bytes() == other.bytes() && self.opened() == other.opened()
    }

    /// The file that the mapped bytes are. No tensor is touched.
    pub fn open(data: &'a [u8]) -> (r: AxonResult<AxonRuntime<'a>>)
        ensures
            match r {
                Ok(rt) => open_file(data@) == Ok::<Opened, Failure>(rt.opened()) && rt.bytes()
                    == data@ && rt.counts() == RuntimeStats::zero(),
                Err(e) => open_file(data@) == Err::<Opened, Failure>(e@),
            },
    {
        let (header, manifest, descriptors) = read_container(data)?;
        Ok(
            AxonRuntime {
                store: MmapStore::new(data),
                header,
                manifest,
                descriptors,
                stats: RuntimeStats::new(),
            },
        )
    }

    /// The file that the mapped bytes are, with a cache of the given size.
    pub fn with_cache(data: &'a [u8], cache_budget: usize) -> (r: AxonResult<CachedRuntime<'a>>)
        ensures
            match r {
                Ok(c) => open_file(data@) == Ok::<Opened, Failure>(c.rt().opened())
                    && c.rt().bytes() == data@ && c.rt().counts() == RuntimeStats::zero() && c.wf()
                    && c.cached() == Entries::empty() && c.pins() == Seq::<Seq<char>>::empty()
                    && c.limit() == cache_budget && c.cache_counts() == (CacheStats {
                    hits: 0,
                    misses: 0,
                    evictions: 0,
                }),
                Err(e) => open_file(data@) == Err::<Opened, Failure>(e@),
            },
    {
        let rt = AxonRuntime::open(data)?;
        Ok(CachedRuntime::new(rt, cache_budget))
    }

    /// The model's name, empty where the manifest has none.
    pub fn model_name(&self) -> (r: &str)
        ensures
            r@ == match self.opened().manifest.model {
                Some(s) => s,
                None => ""@,
            },
    {
        match &self.manifest.model {
            Some(s) => s.as_str(),
            None => "",
        }
    }

    /// The model's architecture, empty where the manifest has none.
    pub fn architecture(&self) -> (r: &str)
        ensures
            r@ == match self.opened().manifest.architecture {
                Some(s) => s,
                None => ""@,
            },
    {
        match &self.manifest.architecture {
            Some(s) => s.as_str(),
            None => "",
        }
    }

    /// The number of tensors.
    pub fn tensor_count(&self) -> (r: usize)
        ensures
            r == self.descs().len(),
    {
        self.descriptors.len()
    }

    /// The bytes that all tensors have together, as the header states them.
    pub fn payload_size(&self) -> (r: u64)
        ensures
            r == self.opened().header.payload_size,
    {
        self.header.payload_size
    }

    /// The number of bytes of the file.
    pub fn file_size(&self) -> (r: u64)
        ensures
            r == self.bytes().len(),
    {
        self.store.len()
    }

    /// The names of all tensors, in file order.
    pub fn tensor_names(&self) -> (r: Vec<&str>)
        ensures
            r@.len() == self.descs().len(),
            forall|i: int| 0 <= i < r@.len() ==> (#[trigger] r@[i])@ == self.descs()[i].name,
    {
        let mut out: Vec<&str> = Vec::new();
        let mut i: usize = 0;
        while i < self.descriptors.len()
            invariant
                i <= self.descriptors@.len(),
                out@.len() == i,
                forall|k: int| 0 <= k < i ==> (#[trigger] out@[k])@ == self.descs()[k].name,
            decreases self.descriptors@.len() - i,
        {
            out.push(self.descriptors[i].name.as_str());
            i += 1;
        }
        out
    }

    /// What is known of a tensor, without its bytes.
    pub fn tensor_info(&self, name: &str) -> (r: AxonResult<TensorInfo>)
        ensures
            match r {
                Ok(i) => lookup(self.descs(), name@) matches Ok(t) && i@ == facts_of(t),
                Err(e) => lookup(self.descs(), name@) == Err::<Descriptor, Failure>(e@),
            },
    {
        let x = self.find(name)?;
        Ok(TensorInfo::from_descriptor(x))
    }

    /// What is known of every tensor, in file order.
    pub fn tensors(&self) -> (r: Vec<TensorInfo>)
        ensures
            r@.len() == self.descs().len(),
            forall|i: int| 0 <= i < r@.len() ==> (#[trigger] r@[i])@ == facts_of(self.descs()[i]),
    {
        let mut out: Vec<TensorInfo> = Vec::new();
        let mut i: usize = 0;
        while i < self.descriptors.len()
            invariant
                i <= self.descriptors@.len(),
                out@.len() == i,
                forall|k: int| 0 <= k < i ==> (#[trigger] out@[k])@ == facts_of(self.descs()[k]),
            decreases self.descriptors@.len() - i,
        {
            out.push(TensorInfo::from_descriptor(&self.descriptors[i]));
            i += 1;
        }
        out
    }

    fn find(&self, name: &str) -> (r: AxonResult<&TensorDescriptor>)
        ensures
            match r {
                Ok(x) => lookup(self.descs(), name@) == Ok::<Descriptor, Failure>(x@),
                Err(e) => lookup(self.descs(), name@) == Err::<Descriptor, Failure>(e@),
            },
    {
        match find_descriptor(&self.descriptors, name) {
            Some(x) => Ok(x),
            None => Err(AxonError::TensorNotFound(name.to_owned())),
        }
    }

    /// A copy of the bytes of a tensor. The access is counted.
    pub fn tensor(&mut self, name: &str) -> (r: AxonResult<Vec<u8>>)
        ensures
            final(self).same_file(*old(self)),
            match r {
                Ok(b) => whole_tensor(old(self).bytes(), old(self).descs(), name@) == Ok::<
                    Seq<u8>,
                    Failure,
                >(b@) && final(self).counts() == old(self).counts().after_access(b@.len() as u64),
                Err(e) => whole_tensor(old(self).bytes(), old(self).descs(), name@) == Err::<
                    Seq<u8>,
                    Failure,
                >(e@) && final(self).counts() == old(self).counts(),
            },
    {
        let x = self.find(name)?;
        let size = x.data_size;
        let b = self.store.read_bytes(x.data_offset, size)?;
        self.stats.record_access(size);
        Ok(b)
    }

    /// A copy of `size` bytes of a tensor, from `byte_offset` on within it. The
    /// access is counted.
    pub fn tensor_byte_range(&mut self, name: &str, byte_offset: u64, size: u64) -> (r: AxonResult<
        Vec<u8>,
    >)
        ensures
            final(self).same_file(*old(self)),
            match r {
                Ok(b) => part_of_tensor(
                    old(self).bytes(),
                    old(self).descs(),
                    name@,
                    byte_offset as int,
                    size as int,
                ) == Ok::<Seq<u8>, Failure>(b@) && final(self).counts()
                    == old(self).counts().after_access(size),
                Err(e) => part_of_tensor(
                    old(self).bytes(),
                    old(self).descs(),
                    name@,
                    byte_offset as int,
                    size as int,
                ) == Err::<Seq<u8>, Failure>(e@) && final(self).counts() == old(self).counts(),
            },
    {
        let b = self.part(name, byte_offset, size)?;
        let owned = to_vec(b);
        self.stats.record_access(size);
        Ok(owned)
    }

    fn part(&self, name: &str, offset: u64, size: u64) -> (r: AxonResult<&'a [u8]>)
        ensures
            match r {
                Ok(b) => part_of_tensor(
                    self.bytes(),
                    self.descs(),
                    name@,
                    offset as int,
                    size as int,
                ) == Ok::<Seq<u8>, Failure>(b@),
                Err(e) => part_of_tensor(
                    self.bytes(),
                    self.descs(),
                    name@,
                    offset as int,
                    size as int,
                ) == Err::<Seq<u8>, Failure>(e@),
            },
    {
        let x = self.find(name)?;
        let stop = offset as u128 + size as u128;
        if stop > x.data_size as u128 {
            return Err(
                AxonError::UnexpectedEof {
                    needed: clamp(x.data_offset as u128 + stop),
                    available: clamp(x.data_offset as u128 + x.data_size as u128),
                },
            );
        }
        let at = x.data_offset as u128 + offset as u128;
        let end = at + size as u128;
        if end > self.store.len() as u128 {
            return Err(AxonError::UnexpectedEof { needed: clamp(end), available: self.store.len() });
        }
        self.store.view_bytes(at as u64, size)
    }

    /// The bytes of a tensor, borrowed from the mapped file.
    pub fn tensor_view(&self, name: &str) -> (r: AxonResult<&'a [u8]>)
        ensures
            match r {
                Ok(b) => whole_tensor(self.bytes(), self.descs(), name@) == Ok::<Seq<u8>, Failure>(
                    b@,
                ),
                Err(e) => whole_tensor(self.bytes(), self.descs(), name@) == Err::<
                    Seq<u8>,
                    Failure,
                >(e@),
            },
    {
        let x = self.find(name)?;
        self.store.view_bytes(x.data_offset, x.data_size)
    }

    /// The bytes of a tensor from `start` up to `end` within it, borrowed.
    pub fn tensor_byte_view(&self, name: &str, start: usize, end: usize) -> (r: AxonResult<
        &'a [u8],
    >)
        ensures
            match r {
                Ok(b) => range_of_tensor(
                    self.bytes(),
                    self.descs(),
                    name@,
                    start as int,
                    end as int,
                ) == Ok::<Seq<u8>, Failure>(b@),
                Err(e) => range_of_tensor(
                    self.bytes(),
                    self.descs(),
                    name@,
                    start as int,
                    end as int,
                ) == Err::<Seq<u8>, Failure>(e@),
            },
    {
        let x = self.find(name)?;
        if start > end {
            return Err(
                AxonError::UnexpectedEof {
                    needed: clamp(x.data_offset as u128 + start as u128),
                    available: clamp(x.data_offset as u128 + end as u128),
                },
            );
        }
        self.part(name, start as u64, (end - start) as u64)
    }

    /// The rows of a matrix from `start_row` up to `end_row`, borrowed.
    pub fn tensor_rows(&self, name: &str, start_row: usize, end_row: usize) -> (r: AxonResult<
        &'a [u8],
    >)
        ensures
            match r {
                Ok(b) => rows_of_tensor(
                    self.bytes(),
                    self.descs(),
                    name@,
                    start_row as u64,
                    end_row as u64,
                ) == Ok::<Seq<u8>, Failure>(b@),
                Err(e) => rows_of_tensor(
                    self.bytes(),
                    self.descs(),
                    name@,
                    start_row as u64,
                    end_row as u64,
                ) == Err::<Seq<u8>, Failure>(e@),
            },
    {
        let x = self.find(name)?;
        let spec = SliceSpec::rows(start_row as u64, end_row as u64);
        let (offset, size) = spec.resolve(x.dtype, x.shape.as_slice(), 0, x.data_size)?;
        self.part(name, offset, size)
    }

    /// What was counted.
    pub fn stats(&self) -> (r: &RuntimeStats)
        ensures
            *r == self.counts(),
    {
        &self.stats
    }

    /// The mapped bytes.
    pub fn store(&self) -> (r: &MmapStore<'a>)
        ensures
            r.data@ == self.bytes(),
    {
        &self.store
    }

    /// The header.
    pub fn header(&self) -> (r: &AxonHeader)
        ensures
            *r == self.opened().header,
    {
        &self.header
    }

    /// The manifest.
    pub fn manifest(&self) -> (r: &Manifest)
        ensures
            r@ == self.opened().manifest,
    {
        &self.manifest
    }
}

impl<'a> TensorAccess for AxonRuntime<'a> {
    open spec fn ready(&self) -> bool {
        true
    }

    open spec fn whole(&self, name: Seq<char>) -> Result<Seq<u8>, Failure> {
        whole_tensor(self.bytes(), self.descs(), name)
    }

    open spec fn part_at(&self, name: Seq<char>, offset: int, size: int) -> Result<
        Seq<u8>,
        Failure,
    > {
        part_of_tensor(self.bytes(), self.descs(), name, offset, size)
    }

    fn tensor_bytes(&mut self, name: &str) -> (r: AxonResult<Vec<u8>>) {
        self.tensor(name)
    }

    fn tensor_byte_range(&mut self, name: &str, byte_offset: u64, size: u64) -> (r: AxonResult<
        Vec<u8>,
    >) {
        AxonRuntime::tensor_byte_range(self, name, byte_offset, size)
    }
}

// ── A runtime with a cache ──────────────────────────────────────────
/// A mapped file together with a cache of tensors.
#[derive(Debug)]
pub struct CachedRuntime<'a> {
    inner: AxonRuntime<'a>,
    cache: TensorCache,
}

impl<'a> CachedRuntime<'a> {
    /// The mapped file.
    pub closed spec fn rt(self) -> AxonRuntime<'a> {
        self.inner
    }

    /// The tensors in the cache, from the least to the most recently used.
    pub closed spec fn cached(self) -> Entries {
        self.cache.contents()
    }

    /// The names that never leave to make room.
    pub closed spec fn pins(self) -> Seq<Seq<char>> {
        self.cache.pins()
    }

    /// The bytes that the cached tensors may have together.
    pub closed spec fn limit(self) -> int {
        self.cache.limit()
    }

    /// How the cache did.
    pub closed spec fn cache_counts(self) -> CacheStats {
        self.cache.counts()
    }

    /// The cache is well formed, and holds of every tensor what the file holds.
    pub closed spec fn wf(self) -> bool {
        &&& self.cache.wf()
        &&& forall|i: int|
            0 <= i < self.cache.contents().len() ==> whole_tensor(
                self.inner.bytes(),
                self.inner.descs(),
                (#[trigger] self.cache.contents()[i]).0,
            ) == Ok::<Seq<u8>, Failure>(self.cache.contents()[i].1)
    }

    /// A mapped file with an empty cache.
    pub fn new(inner: AxonRuntime<'a>, cache_budget: usize) -> (r: CachedRuntime<'a>)
        ensures
            r.wf(),
            r.rt() == inner,
            r.cached() == Entries::empty(),
            r.pins() == Seq::<Seq<char>>::empty(),
            r.limit() == cache_budget,
            r.cache_counts() == (CacheStats { hits: 0, misses: 0, evictions: 0 }),
    {
        CachedRuntime { inner, cache: TensorCache::new(cache_budget) }
    }

    /// A tensor, from the cache where it is there, else from the file and then
    /// into the cache.
    pub fn tensor_cached(&mut self, name: &str) -> (r: AxonResult<Arc<Vec<u8>>>)
        requires
            old(self).wf(),
        ensures
            final(self).wf(),
            final(self).rt().same_file(old(self).rt()),
            final(self).pins() == old(self).pins(),
            final(self).limit() == old(self).limit(),
            match r {
                Ok(a) => whole_tensor(old(self).rt().bytes(), old(self).rt().descs(), name@)
                    == Ok::<Seq<u8>, Failure>(a@),
                Err(e) => whole_tensor(old(self).rt().bytes(), old(self).rt().descs(), name@)
                    == Err::<Seq<u8>, Failure>(e@),
            },
            match find_entry(old(self).cached(), name@, 0) {
                Some(_) => final(self).cached() == after_get(old(self).cached(), name@)
                    && final(self).rt().counts() == old(self).rt().counts().after_hit()
                    && final(self).cache_counts() == (CacheStats {
                    hits: wrapped(old(self).cache_counts().hits, 1),
                    ..old(self).cache_counts()
                }),
                None => match r {
                    Ok(a) => final(self).cached() == after_put(
                        old(self).cached(),
                        old(self).pins(),
                        old(self).limit(),
                        name@,
                        a@,
                    ) && final(self).rt().counts()
                        == old(self).rt().counts().after_miss().after_access(a@.len() as u64)
                        && final(self).cache_counts() == (CacheStats {
                        misses: wrapped(old(self).cache_counts().misses, 1),
                        evictions: wrapped(
                            old(self).cache_counts().evictions,
                            leave_on_put(
                                old(self).cached(),
                                old(self).pins(),
                                old(self).limit(),
                                name@,
                                a@,
                            ) as u64,
                        ),
                        ..old(self).cache_counts()
                    }),
                    Err(_) => final(self).cached() == old(self).cached()
                        && final(self).rt().counts() == old(self).rt().counts().after_miss()
                        && final(self).cache_counts() == (CacheStats {
                        misses: wrapped(old(self).cache_counts().misses, 1),
                        ..old(self).cache_counts()
                    }),
                },
            },
    {
        let ghost e = self.cached();
        proof {
            self.cache.lemma_wf();
            lemma_get_entries(e, name@);
        }
        if let Some(a) = self.cache.get(name) {
            self.inner.stats.record_cache_hit();
            return Ok(a);
        }
        self.inner.stats.record_cache_miss();
        let b = self.inner.tensor(name)?;
        proof {
            lemma_put_entries(e, self.pins(), self.limit(), name@, b@);
        }
        let a = self.cache.put(name.to_owned(), b);
        Ok(a)
    }

    /// Keeps a tensor from leaving the cache to make room.
    pub fn pin(&mut self, name: &str)
        requires
            old(self).wf(),
        ensures
            final(self).wf(),
            final(self).rt() == old(self).rt(),
            final(self).cached() == old(self).cached(),
            final(self).limit() == old(self).limit(),
            final(self).cache_counts() == old(self).cache_counts(),
            forall|n: Seq<char>| #[trigger]
                final(self).pins().contains(n) <==> n == name@ || old(self).pins().contains(n),
    {
        self.cache.pin(name);
    }

    /// Lets a tensor leave the cache again to make room.
    pub fn unpin(&mut self, name: &str)
        requires
            old(self).wf(),
        ensures
            final(self).wf(),
            final(self).rt() == old(self).rt(),
            final(self).cached() == old(self).cached(),
            final(self).limit() == old(self).limit(),
            final(self).cache_counts() == old(self).cache_counts(),
            forall|n: Seq<char>| #[trigger]
                final(self).pins().contains(n) <==> n != name@ && old(self).pins().contains(n),
    {
        self.cache.unpin(name);
    }

    /// How the cache did.
    pub fn cache_stats(&self) -> (r: &CacheStats)
        ensures
            *r == self.cache_counts(),
    {
        self.cache.stats()
    }

    /// The mapped file.
    pub fn runtime(&self) -> (r: &AxonRuntime<'a>)
        ensures
            *r == self.rt(),
    {
        &self.inner
    }

    /// The mapped file, for access past the cache.
    pub fn runtime_mut(&mut self) -> (r: &mut AxonRuntime<'a>)
        ensures
            *r == old(self).rt(),
            final(self).rt() == *final(r),
            final(self).cached() == old(self).cached(),
            final(self).pins() == old(self).pins(),
            final(self).limit() == old(self).limit(),
            final(self).cache_counts() == old(self).cache_counts(),
            old(self).wf() && final(r).same_file(old(self).rt()) ==> final(self).wf(),
    {
        &mut self.inner
    }

    /// Takes a tensor out of the cache.
    pub fn evict(&mut self, name: &str)
        requires
            old(self).wf(),
        ensures
            final(self).wf(),
            final(self).rt() == old(self).rt(),
            final(self).cached() == without(old(self).cached(), name@),
            final(self).pins() == old(self).pins(),
            final(self).limit() == old(self).limit(),
            final(self).cache_counts() == old(self).cache_counts(),
    {
        proof {
            lemma_without_entries(self.cached(), name@);
        }
        self.cache.evict(name);
    }

    /// Takes every tensor out of the cache.
    pub fn clear_cache(&mut self)
        requires
            old(self).wf(),
        ensures
            final(self).wf(),
            final(self).rt() == old(self).rt(),
            final(self).cached() == Entries::empty(),
            final(self).pins() == old(self).pins(),
            final(self).limit() == old(self).limit(),
            final(self).cache_counts() == old(self).cache_counts(),
    {
        self.cache.clear();
    }
}

// ── Laws ────────────────────────────────────────────────────────────
/// Loading a part of a tensor gives the same bytes as loading the whole and
/// taking the part.
pub proof fn lemma_part_of_whole(
    d: Seq<u8>,
    x: Seq<Descriptor>,
    name: Seq<char>,
    offset: int,
    size: int,
)
    requires
        0 <= offset,
        0 <= size,
        whole_tensor(d, x, name) is Ok,
        part_of_tensor(d, x, name, offset, size) is Ok,
    ensures
        offset + size <= whole_tensor(d, x, name)->Ok_0.len(),
        part_of_tensor(d, x, name, offset, size)->Ok_0 == whole_tensor(d, x, name)->Ok_0.subrange(
            offset,
            offset + size,
        ),
{
    let t = lookup(x, name)->Ok_0;
    assert(part_of_tensor(d, x, name, offset, size)->Ok_0 =~= whole_tensor(
        d,
        x,
        name,
    )->Ok_0.subrange(offset, offset + size));
}

/// A part of a tensor that lies within it is always there when the whole is.
pub proof fn lemma_part_exists(
    d: Seq<u8>,
    x: Seq<Descriptor>,
    name: Seq<char>,
    offset: int,
    size: int,
)
    requires
        0 <= offset,
        0 <= size,
        whole_tensor(d, x, name) is Ok,
        offset + size <= whole_tensor(d, x, name)->Ok_0.len(),
    ensures
        part_of_tensor(d, x, name, offset, size) is Ok,
{
}

/// The rows of a matrix are those bytes of it that its row stride says.
pub proof fn lemma_rows_of_whole(
    d: Seq<u8>,
    x: Seq<Descriptor>,
    name: Seq<char>,
    start: u64,
    end: u64,
)
    requires
        whole_tensor(d, x, name) is Ok,
        rows_of_tensor(d, x, name, start, end) is Ok,
    ensures
        ({
            let t = lookup(x, name)->Ok_0;
            let stride = t.shape[1] * dtype_size(t.dtype);
            &&& t.shape.len() == 2
            &&& start * stride + (end - start) * stride <= whole_tensor(d, x, name)->Ok_0.len()
            &&& rows_of_tensor(d, x, name, start, end)->Ok_0 == whole_tensor(
                d,
                x,
                name,
            )->Ok_0.subrange(start * stride, start * stride + (end - start) * stride)
        }),
{
    let t = lookup(x, name)->Ok_0;
    let (offset, size) = (SliceSpec::Rows { row_start: start, row_end: end }).resolved(
        t.dtype,
        t.shape,
        0,
        t.data_size,
    )->Ok_0;
    let (a, b, c, w) = (start as int, end as int, t.shape[1] as int, dtype_size(t.dtype) as int);
    assert(0 <= a * (c * w) && 0 <= (b - a) * (c * w)) by (nonlinear_arith)
        requires
            0 <= a <= b,
            0 <= c,
            0 <= w,
    ;
    lemma_part_of_whole(d, x, name, offset as int, size as int);
}

/// Only what is not there is refused: a name that no tensor has, and bytes behind the
/// end of the tensor, or of the file. The report gives the name, or where the bytes
/// would end and where those that there are do.
pub proof fn lemma_part_refused(
    d: Seq<u8>,
    x: Seq<Descriptor>,
    name: Seq<char>,
    offset: int,
    size: int,
)
    requires
        0 <= offset,
        0 <= size,
    ensures
        (forall|i: int| 0 <= i < x.len() ==> (#[trigger] x[i]).name != name) ==> part_of_tensor(
            d,
            x,
            name,
            offset,
            size,
        ) == Err::<Seq<u8>, Failure>(Failure::TensorNotFound(name)) && range_of_tensor(
            d,
            x,
            name,
            offset,
            size,
        ) == Err::<Seq<u8>, Failure>(Failure::TensorNotFound(name)) && whole_tensor(d, x, name)
            == Err::<Seq<u8>, Failure>(Failure::TensorNotFound(name)),
        lookup(x, name) matches Ok(t) ==> {
            &&& t.name == name
            &&& part_of_tensor(d, x, name, offset, size) == (if offset + size > t.data_size {
                Err::<Seq<u8>, Failure>(
                    eof(t.data_offset + offset + size, t.data_offset + t.data_size),
                )
            } else if t.data_offset + offset + size > d.len() {
                Err::<Seq<u8>, Failure>(eof(t.data_offset + offset + size, d.len() as int))
            } else {
                Ok::<Seq<u8>, Failure>(
                    d.subrange(t.data_offset + offset, t.data_offset + offset + size),
                )
            })
            &&& offset <= size ==> range_of_tensor(d, x, name, offset, size) == part_of_tensor(
                d,
                x,
                name,
                offset,
                size - offset,
            )
            &&& offset > size ==> range_of_tensor(d, x, name, offset, size) == Err::<
                Seq<u8>,
                Failure,
            >(eof(t.data_offset + offset, t.data_offset + size))
        },
{
    lemma_find_name(x, name, 0);
}

} // verus!
