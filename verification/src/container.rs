//! The `.axon` container: its header, and reading a whole file.
//!
//! A file begins with a header of sixty-four bytes. The manifest, a JSON
//! document, stands where the header says; behind it, at the next multiple of
//! sixty-four, stands the table of tensor descriptors, and behind that the bytes
//! of the tensors, each at a multiple of sixty-four.
use vstd::prelude::*;

use crate::bytes::{
    align_up_int, get_u32, get_u64, le32, le32_bytes, le64, le64_bytes, lemma_align_up, lemma_chain,
    lemma_le32_roundtrip, lemma_le32_unique, lemma_le64_roundtrip, lemma_le64_unique, lemma_parts,
    put_u32, put_u64, put_zeros, slice, zeros,
};
use crate::descriptor::{
    descriptor_models, descriptor_table, lemma_table, lemma_table_own_bytes, parse_descriptor_table,
    Descriptor, TensorDescriptor, DESCRIPTOR_SIZE,
};
use crate::error::{clamp, eof, AxonError, AxonResult, Failure};
use crate::json_codec::{json_document, parse_json};
use crate::manifest::{manifest_of, Manifest, ManifestModel};
use crate::tensor::MAX_TENSOR_RANK;
use crate::text::{concat2, decimal, decimal_text, str_eq};

verus! {

/// The version of the format.
pub const AXON_VERSION: u32 = 1;

/// The alignment of the table and of every tensor.
pub const CACHE_LINE_SIZE: u64 = 64;

/// The bytes of a header.
pub const HEADER_SIZE: usize = 64;

/// Where the manifest of a written file begins.
pub const MANIFEST_OFFSET: u64 = 4096;

/// The flag of a file whose descriptors hold checksums.
pub const HAS_CHECKSUMS: u32 = 1;

/// The header of a file.
#[derive(Clone, Copy, Debug, PartialEq, Eq, Structural)]
pub struct AxonHeader {
    /// The version of the format.
    pub version: u32,
    /// Where the manifest begins.
    pub manifest_offset: u64,
    /// How many bytes the manifest has.
    pub manifest_size: u64,
    /// How many tensors there are.
    pub tensor_count: u64,
    /// How many bytes all tensors have together.
    pub payload_size: u64,
    /// What the file holds besides.
    pub flags: u32,
}

/// The report of flags that are not known.
pub open spec fn bad_flags(flags: u32) -> Failure {
    Failure::InvalidManifest("unsupported header flags "@ + decimal_text(flags as nat))
}

/// The header that the first bytes of a file hold.
pub open spec fn header_of(d: Seq<u8>) -> Result<AxonHeader, Failure> {
    if d.len() < HEADER_SIZE {
        Err(eof(HEADER_SIZE as int, d.len() as int))
    } else if !(d[0] == 0x41 && d[1] == 0x58 && d[2] == 0x4f && d[3] == 0x4e) {
        Err(Failure::InvalidMagic)
    } else if le32(d, 4) != AXON_VERSION {
        Err(Failure::UnsupportedVersion(le32(d, 4)))
    } else if le32(d, 40) > HAS_CHECKSUMS {
        Err(bad_flags(le32(d, 40)))
    } else {
        Ok(
            AxonHeader {
                version: le32(d, 4),
                manifest_offset: le64(d, 8),
                manifest_size: le64(d, 16),
                tensor_count: le64(d, 24),
                payload_size: le64(d, 32),
                flags: le32(d, 40),
            },
        )
    }
}

/// The bytes of a header.
#[verifier::opaque]
pub open spec fn header_bytes(h: AxonHeader) -> Seq<u8> {
    seq![0x41u8, 0x58u8, 0x4fu8, 0x4eu8] + (le32_bytes(h.version) + (le64_bytes(h.manifest_offset)
        + (le64_bytes(h.manifest_size) + (le64_bytes(h.tensor_count) + (le64_bytes(h.payload_size)
        + (le32_bytes(h.flags) + zeros(20)))))))
}

/// A header is read back from its own bytes.
pub proof fn lemma_header_roundtrip(d: Seq<u8>, h: AxonHeader)
    requires
        d.len() >= HEADER_SIZE,
        d.subrange(0, HEADER_SIZE as int) == header_bytes(h),
        h.version == AXON_VERSION,
        h.flags <= HAS_CHECKSUMS,
    ensures
        header_of(d) == Ok::<AxonHeader, Failure>(h),
{
    reveal(header_bytes);
    let m = seq![0x41u8, 0x58u8, 0x4fu8, 0x4eu8];
    let (f1, f2, f3) = (
        le32_bytes(h.version),
        le64_bytes(h.manifest_offset),
        le64_bytes(h.manifest_size),
    );
    let (f4, f5, f6) = (
        le64_bytes(h.tensor_count),
        le64_bytes(h.payload_size),
        le32_bytes(h.flags),
    );
    let z = zeros(20);
    lemma_parts(d, 0, m, f1 + (f2 + (f3 + (f4 + (f5 + (f6 + z))))));
    lemma_parts(d, 4, f1, f2 + (f3 + (f4 + (f5 + (f6 + z)))));
    lemma_parts(d, 8, f2, f3 + (f4 + (f5 + (f6 + z))));
    lemma_parts(d, 16, f3, f4 + (f5 + (f6 + z)));
    lemma_parts(d, 24, f4, f5 + (f6 + z));
    lemma_parts(d, 32, f5, f6 + z);
    lemma_parts(d, 40, f6, z);
    assert(d[0] == d.subrange(0, 4)[0]);
    assert(d[1] == d.subrange(0, 4)[1]);
    assert(d[2] == d.subrange(0, 4)[2]);
    assert(d[3] == d.subrange(0, 4)[3]);
    lemma_le32_roundtrip(d, 4, h.version);
    lemma_le64_roundtrip(d, 8, h.manifest_offset);
    lemma_le64_roundtrip(d, 16, h.manifest_size);
    lemma_le64_roundtrip(d, 24, h.tensor_count);
    lemma_le64_roundtrip(d, 32, h.payload_size);
    lemma_le32_roundtrip(d, 40, h.flags);
}

impl AxonHeader {
    /// The header that the first bytes of a file hold.
    pub fn from_bytes(d: &[u8]) -> (r: AxonResult<AxonHeader>)
        ensures
            match r {
                Ok(h) => header_of(d@) == Ok::<AxonHeader, Failure>(h),
                Err(e) => header_of(d@) == Err::<AxonHeader, Failure>(e@),
            },
    {
        if d.len() < HEADER_SIZE {
            return Err(
                AxonError::UnexpectedEof { needed: HEADER_SIZE as u64, available: d.len() as u64 },
            );
        }
        if !(d[0] == 0x41 && d[1] == 0x58 && d[2] == 0x4f && d[3] == 0x4e) {
            return Err(AxonError::InvalidMagic);
        }
        let version = get_u32(d, 4)?;
        if version != AXON_VERSION {
            return Err(AxonError::UnsupportedVersion(version));
        }
        let flags = get_u32(d, 40)?;
        if flags > HAS_CHECKSUMS {
            return Err(
                AxonError::InvalidManifest(
                    concat2("unsupported header flags ", decimal(flags as u64).as_str()),
                ),
            );
        }
        Ok(
            AxonHeader {
                version,
                manifest_offset: get_u64(d, 8)?,
                manifest_size: get_u64(d, 16)?,
                tensor_count: get_u64(d, 24)?,
                payload_size: get_u64(d, 32)?,
                flags,
            },
        )
    }

    /// Writes the bytes of the header behind `out`.
    pub fn write(&self, out: &mut Vec<u8>)
        ensures
            final(out)@ == old(out)@ + header_bytes(*self),
    {
        out.push(0x41);
        out.push(0x58);
        out.push(0x4f);
        out.push(0x4e);
        let ghost m = seq![0x41u8, 0x58u8, 0x4fu8, 0x4eu8];
        assert(out@ =~= old(out)@ + m);
        put_u32(out, self.version);
        put_u64(out, self.manifest_offset);
        put_u64(out, self.manifest_size);
        put_u64(out, self.tensor_count);
        put_u64(out, self.payload_size);
        put_u32(out, self.flags);
        put_zeros(out, 20);
        proof {
            reveal(header_bytes);
            lemma_chain(
                old(out)@,
                m,
                le32_bytes(self.version),
                le64_bytes(self.manifest_offset),
                le64_bytes(self.manifest_size),
                le64_bytes(self.tensor_count),
                le64_bytes(self.payload_size),
                le32_bytes(self.flags),
                zeros(20),
            );
        }
    }
}

// ── A whole file ────────────────────────────────────────────────────
/// The structure of a file.
#[verifier::ext_equal]
pub struct Opened {
    pub header: AxonHeader,
    pub manifest: ManifestModel,
    pub descriptors: Seq<Descriptor>,
}

/// Where the descriptor table begins.
pub open spec fn table_start(h: AxonHeader) -> int {
    align_up_int(h.manifest_offset + h.manifest_size, CACHE_LINE_SIZE as int)
}

/// The manifest that a file holds where its header says.
pub open spec fn manifest_in(d: Seq<u8>, h: AxonHeader) -> Result<ManifestModel, Failure> {
    let end = h.manifest_offset + h.manifest_size;
    if end > d.len() {
        Err(eof(end, d.len() as int))
    } else {
        match json_document(d.subrange(h.manifest_offset as int, end)) {
            Err(e) => Err(Failure::InvalidManifest(e)),
            Ok(j) => manifest_of(j),
        }
    }
}

/// The descriptors that a file holds behind its manifest.
pub open spec fn descriptors_in(d: Seq<u8>, h: AxonHeader) -> Result<Seq<Descriptor>, Failure> {
    let end = table_start(h) + h.tensor_count * DESCRIPTOR_SIZE;
    if h.tensor_count == 0 {
        Ok(Seq::empty())
    } else if end > d.len() {
        Err(eof(end, d.len() as int))
    } else {
        descriptor_table(d, table_start(h), h.tensor_count as int, Seq::empty())
    }
}

/// The structure of the file that the bytes are, or why they are none. The
/// bytes of the tensors are not looked at.
pub open spec fn open_file(d: Seq<u8>) -> Result<Opened, Failure> {
    match header_of(d) {
        Err(e) => Err(e),
        Ok(header) => match manifest_in(d, header) {
            Err(e) => Err(e),
            Ok(manifest) => match descriptors_in(d, header) {
                Err(e) => Err(e),
                Ok(descriptors) => Ok(Opened { header, manifest, descriptors }),
            },
        },
    }
}

/// A file that opens begins with the magic bytes and is of the one version, with
/// known flags. Its manifest and its table stand within it, and the table has as
/// many descriptors as the header says, none with too many dimensions.
pub proof fn lemma_opened(d: Seq<u8>)
    requires
        open_file(d) is Ok,
    ensures
        open_file(d) matches Ok(o) && {
            &&& d.len() >= HEADER_SIZE
            &&& d.subrange(0, 4) == seq![0x41u8, 0x58u8, 0x4fu8, 0x4eu8]
            &&& o.header.version == AXON_VERSION
            &&& o.header.flags <= HAS_CHECKSUMS
            &&& o.header.manifest_offset + o.header.manifest_size <= d.len()
            &&& o.descriptors.len() == o.header.tensor_count
            &&& o.header.tensor_count > 0 ==> table_start(o.header) + o.header.tensor_count
                * DESCRIPTOR_SIZE <= d.len()
            &&& forall|i: int|
                0 <= i < o.descriptors.len() ==> (#[trigger] o.descriptors[i]).shape.len()
                    <= MAX_TENSOR_RANK
        },
{
    if let Ok(o) = open_file(d) {
        assert(d.subrange(0, 4) =~= seq![0x41u8, 0x58u8, 0x4fu8, 0x4eu8]);
        let none = Seq::<Descriptor>::empty();
        lemma_table(d, table_start(o.header), o.header.tensor_count as int, none);
        assert forall|i: int| 0 <= i < o.descriptors.len() implies (
        #[trigger] o.descriptors[i]).shape.len() <= MAX_TENSOR_RANK by {
            assert(o.descriptors[none.len() + i] == o.descriptors[i]);
        }
    }
}

/// The sixty-four bytes of a header, in their order: four letters, the version, where
/// the manifest begins and how many bytes it has, how many tensors there are, how many
/// bytes they have together, and the flags. The table begins at the first multiple of
/// sixty-four behind the manifest.
pub proof fn lemma_header_layout(d: Seq<u8>, h: AxonHeader)
    requires
        header_of(d) == Ok::<AxonHeader, Failure>(h),
    ensures
        d.len() >= 64,
        d.subrange(0, 4) == seq![0x41u8, 0x58u8, 0x4fu8, 0x4eu8],
        h.version == 1,
        d.subrange(4, 8) == le32_bytes(h.version),
        d.subrange(8, 16) == le64_bytes(h.manifest_offset),
        d.subrange(16, 24) == le64_bytes(h.manifest_size),
        d.subrange(24, 32) == le64_bytes(h.tensor_count),
        d.subrange(32, 40) == le64_bytes(h.payload_size),
        d.subrange(40, 44) == le32_bytes(h.flags),
        table_start(h) % 64 == 0,
        h.manifest_offset + h.manifest_size <= table_start(h) < h.manifest_offset + h.manifest_size
            + 64,
{
    assert(d.subrange(0, 4) =~= seq![0x41u8, 0x58u8, 0x4fu8, 0x4eu8]);
    lemma_le32_unique(d, 4);
    lemma_le64_unique(d, 8);
    lemma_le64_unique(d, 16);
    lemma_le64_unique(d, 24);
    lemma_le64_unique(d, 32);
    lemma_le32_unique(d, 40);
    lemma_align_up(h.manifest_offset + h.manifest_size, 64);
}

/// The table alone says what tensors a file has: where two files open with the
/// same header and the same table, they have the same descriptors, whatever
/// their manifests and the bytes of their tensors are.
pub proof fn lemma_table_decides(d: Seq<u8>, e: Seq<u8>)
    requires
        open_file(d) is Ok,
        open_file(e) is Ok,
        header_of(d) == header_of(e),
        header_of(d) matches Ok(h) ==> d.subrange(
            table_start(h),
            table_start(h) + h.tensor_count * DESCRIPTOR_SIZE,
        ) == e.subrange(table_start(h), table_start(h) + h.tensor_count * DESCRIPTOR_SIZE),
    ensures
        open_file(d) matches Ok(a) && open_file(e) matches Ok(b) && a.descriptors == b.descriptors,
{
    if let Ok(h) = header_of(d) {
        lemma_align_up(h.manifest_offset + h.manifest_size, CACHE_LINE_SIZE as int);
        if h.tensor_count > 0 {
            lemma_table_own_bytes(
                d,
                table_start(h),
                e,
                table_start(h),
                h.tensor_count as int,
                Seq::empty(),
            );
        }
    }
}

/// The first descriptor from the `k`th on that has the name.
pub open spec fn find_name(x: Seq<Descriptor>, name: Seq<char>, k: int) -> Option<int>
    decreases x.len() - k,
{
    if k >= x.len() {
        None
    } else if x[k].name == name {
        Some(k)
    } else {
        find_name(x, name, k + 1)
    }
}

/// What is found has the name, and nothing before it has; nothing is found only
/// where nothing has the name.
pub proof fn lemma_find_name(x: Seq<Descriptor>, name: Seq<char>, k: int)
    requires
        0 <= k,
    ensures
        match find_name(x, name, k) {
            Some(i) => k <= i < x.len() && x[i].name == name && (forall|j: int|
                k <= j < i ==> (#[trigger] x[j]).name != name),
            None => forall|j: int| k <= j < x.len() ==> (#[trigger] x[j]).name != name,
        },
    decreases x.len() - k,
{
    if k < x.len() && x[k].name != name {
        lemma_find_name(x, name, k + 1);
    }
}

/// The bytes that a descriptor points at, where the file has them.
pub open spec fn payload_of(d: Seq<u8>, x: Descriptor) -> Option<Seq<u8>> {
    if x.data_offset + x.data_size <= d.len() {
        Some(d.subrange(x.data_offset as int, x.data_offset + x.data_size))
    } else {
        None
    }
}

/// The first descriptor that has the name.
pub fn find_descriptor<'a>(v: &'a Vec<TensorDescriptor>, name: &str) -> (r: Option<
    &'a TensorDescriptor,
>)
    ensures
        match r {
            Some(x) => find_name(descriptor_models(v@), name@, 0) matches Some(i)
                && descriptor_models(v@)[i] == x@ && 0 <= i < v@.len(),
            None => find_name(descriptor_models(v@), name@, 0) is None,
        },
{
    let mut i: usize = 0;
    while i < v.len()
        invariant
            i <= v@.len(),
            find_name(descriptor_models(v@), name@, 0) == find_name(
                descriptor_models(v@),
                name@,
                i as int,
            ),
        decreases v@.len() - i,
    {
        if str_eq(v[i].name.as_str(), name) {
            assert(descriptor_models(v@)[i as int] == v@[i as int]@);
            return Some(&v[i]);
        }
        i += 1;
    }
    None
}

/// Reads the structure of a file.
pub fn read_container(d: &[u8]) -> (r: AxonResult<(AxonHeader, Manifest, Vec<TensorDescriptor>)>)
    ensures
        match r {
            Ok(x) => open_file(d@) == Ok::<Opened, Failure>(
                Opened { header: x.0, manifest: x.1@, descriptors: descriptor_models(x.2@) },
            ),
            Err(e) => open_file(d@) == Err::<Opened, Failure>(e@),
        },
{
    let header = AxonHeader::from_bytes(d)?;
    let manifest = read_manifest(d, &header)?;
    let descriptors = read_descriptors(d, &header)?;
    Ok((header, manifest, descriptors))
}

fn read_manifest(d: &[u8], h: &AxonHeader) -> (r: AxonResult<Manifest>)
    ensures
        match r {
            Ok(m) => manifest_in(d@, *h) == Ok::<ManifestModel, Failure>(m@),
            Err(e) => manifest_in(d@, *h) == Err::<ManifestModel, Failure>(e@),
        },
{
    let end = h.manifest_offset as u128 + h.manifest_size as u128;
    if end > d.len() as u128 {
        return Err(AxonError::UnexpectedEof { needed: clamp(end), available: d.len() as u64 });
    }
    match parse_json(slice(d, h.manifest_offset as usize, end as usize)) {
        Err(e) => Err(AxonError::InvalidManifest(e)),
        Ok(j) => Manifest::from_json(&j),
    }
}

fn read_descriptors(d: &[u8], h: &AxonHeader) -> (r: AxonResult<Vec<TensorDescriptor>>)
    ensures
        match r {
            Ok(v) => descriptors_in(d@, *h) == Ok::<Seq<Descriptor>, Failure>(
                descriptor_models(v@),
            ),
            Err(e) => descriptors_in(d@, *h) == Err::<Seq<Descriptor>, Failure>(e@),
        },
{
    if h.tensor_count == 0 {
        let none: Vec<TensorDescriptor> = Vec::new();
        assert(descriptor_models(none@) =~= Seq::empty());
        return Ok(none);
    }
    let behind = h.manifest_offset as u128 + h.manifest_size as u128;
    proof {
        lemma_align_up(behind as int, 64);
    }
    let start = (behind + 63) / 64 * 64;
    let end = start + h.tensor_count as u128 * DESCRIPTOR_SIZE as u128;
    if end > d.len() as u128 {
        return Err(AxonError::UnexpectedEof { needed: clamp(end), available: d.len() as u64 });
    }
    parse_descriptor_table(d, start as usize, h.tensor_count as usize)
}

/// A file held in memory.
#[derive(Debug)]
pub struct AxonFile {
    /// The header.
    pub header: AxonHeader,
    /// The manifest.
    pub manifest: Manifest,
    /// The descriptors, in file order.
    pub descriptors: Vec<TensorDescriptor>,
    /// The bytes of the whole file.
    pub data: Vec<u8>,
}

impl AxonFile {
    /// The structure of the file.
    pub open spec fn opened(self) -> Opened {
        Opened {
            header: self.header,
            manifest: self.manifest@,
            descriptors: descriptor_models(self.descriptors@),
        }
    }

    /// The bytes of the first tensor that has the name.
    pub open spec fn tensor_bytes(self, name: Seq<char>) -> Option<Seq<u8>> {
        match find_name(descriptor_models(self.descriptors@), name, 0) {
            Some(i) => payload_of(self.data@, descriptor_models(self.descriptors@)[i]),
            None => None,
        }
    }

    /// Reads the structure of a file, and keeps its bytes.
    pub fn from_bytes(data: Vec<u8>) -> (r: AxonResult<AxonFile>)
        ensures
            match r {
                Ok(f) => open_file(data@) == Ok::<Opened, Failure>(f.opened()) && f.data@ == data@,
                Err(e) => open_file(data@) == Err::<Opened, Failure>(e@),
            },
    {
        let (header, manifest, descriptors) = read_container(data.as_slice())?;
        Ok(AxonFile { header, manifest, descriptors, data })
    }

    /// The number of tensors.
    pub fn tensor_count(&self) -> (r: usize)
        ensures
            r == self.descriptors@.len(),
    {
        self.descriptors.len()
    }

    /// The descriptor of the first tensor that has the name.
    pub fn get_tensor(&self, name: &str) -> (r: Option<&TensorDescriptor>)
        ensures
            match r {
                Some(x) => find_name(descriptor_models(self.descriptors@), name@, 0) matches Some(
                    i,
                ) && descriptor_models(self.descriptors@)[i] == x@ && 0 <= i
                    < self.descriptors@.len(),
                None => find_name(descriptor_models(self.descriptors@), name@, 0) is None,
            },
    {
        find_descriptor(&self.descriptors, name)
    }

    /// The bytes of the first tensor that has the name, where the file has them.
    pub fn tensor_data(&self, name: &str) -> (r: Option<&[u8]>)
        ensures
            match r {
                Some(b) => self.tensor_bytes(name@) == Some(b@),
                None => self.tensor_bytes(name@) is None,
            },
    {
        let x = match find_descriptor(&self.descriptors, name) {
            Some(x) => x,
            None => return None,
        };
        let end = x.data_offset as u128 + x.data_size as u128;
        if end > self.data.len() as u128 {
            return None;
        }
        Some(slice(self.data.as_slice(), x.data_offset as usize, end as usize))
    }
}

/// What is no container is refused, with the first reason that holds: too few bytes for
/// a header, other letters at the front, another version, flags that are not known, or
/// an end of the file before that of the manifest or of the table.
pub proof fn lemma_refused(d: Seq<u8>)
    ensures
        d.len() < 64 ==> open_file(d) == Err::<Opened, Failure>(eof(64, d.len() as int)),
        d.len() >= 64 && d.subrange(0, 4) != seq![0x41u8, 0x58u8, 0x4fu8, 0x4eu8] ==> open_file(d)
            == Err::<Opened, Failure>(Failure::InvalidMagic),
        d.len() >= 64 && d.subrange(0, 4) == seq![0x41u8, 0x58u8, 0x4fu8, 0x4eu8] ==> {
            &&& le32(d, 4) != 1 ==> open_file(d) == Err::<Opened, Failure>(
                Failure::UnsupportedVersion(le32(d, 4)),
            )
            &&& le32(d, 4) == 1 && le32(d, 40) > 1 ==> open_file(d) == Err::<Opened, Failure>(
                bad_flags(le32(d, 40)),
            )
            &&& le32(d, 4) == 1 && le32(d, 40) <= 1 && le64(d, 8) + le64(d, 16) > d.len()
                ==> open_file(d) == Err::<Opened, Failure>(
                eof(le64(d, 8) + le64(d, 16), d.len() as int),
            )
        },
        header_of(d) matches Ok(h) ==> (manifest_in(d, h) is Ok && h.tensor_count > 0
            && table_start(h) + 192 * h.tensor_count > d.len() ==> open_file(d) == Err::<
            Opened,
            Failure,
        >(eof(table_start(h) + 192 * h.tensor_count, d.len() as int))),
{
    if d.len() >= 64 {
        let m = seq![0x41u8, 0x58u8, 0x4fu8, 0x4eu8];
        let s = d.subrange(0, 4);
        assert(s[0] == d[0] && s[1] == d[1] && s[2] == d[2] && s[3] == d[3]);
        assert(d[0] == 0x41 && d[1] == 0x58 && d[2] == 0x4f && d[3] == 0x4e ==> s =~= m);
    }
}

} // verus!
