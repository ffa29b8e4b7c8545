//! Writing `.axon` files.
use crate::slices::copy_u64;
use vstd::prelude::*;
use vstd::utf8::encode_utf8;

use crate::bytes::{align_up_int, lemma_align_up, lemma_parts, put_bytes, put_zeros, zeros};
use crate::container::{
    descriptors_in, header_bytes, header_of, lemma_header_roundtrip, open_file, payload_of,
    table_start, AxonHeader, AXON_VERSION, CACHE_LINE_SIZE, MANIFEST_OFFSET,
};
use crate::descriptor::{
    check_name, descriptor_bytes, descriptor_models, descriptor_table, lemma_descriptor_len,
    lemma_descriptor_roundtrip, name_fits, rank_error, writable, Affinity, Descriptor,
    TensorDescriptor, DESCRIPTOR_SIZE,
};
use crate::error::{AxonError, AxonResult, Failure};
use crate::json::{
    entry_models, fraction_free, lemma_alike_exact, normal, object_copy, object_insert, object_put,
    storable, Json, JsonValue,
};
use crate::json_codec::{json_document, json_text, json_to_string, reads_like};
use crate::manifest::{
    alike_manifest, lemma_manifest_alike, lemma_manifest_roundtrip, manifest_json, normal_manifest,
    opt_text, Manifest, ManifestModel,
};
use crate::tensor::{dtype_size, element_count, product, DType, MAX_TENSOR_RANK};
use crate::text::{concat2, concat4, concat5, decimal, decimal_text, texts};

verus! {

// ── The model ───────────────────────────────────────────────────────
/// A tensor that waits to be written.
#[verifier::ext_equal]
pub struct Pending {
    pub name: Seq<char>,
    pub data: Seq<u8>,
    pub dtype: DType,
    pub shape: Seq<u64>,
    pub checked: bool,
}

/// What was given to a builder.
#[verifier::ext_equal]
pub struct Draft {
    pub model: Option<Seq<char>>,
    pub architecture: Option<Seq<char>>,
    pub metadata: Seq<(Seq<char>, Json)>,
    pub tensors: Seq<Pending>,
}

/// Why a tensor cannot be written.
pub open spec fn problem(t: Pending) -> Option<Failure> {
    if !name_fits(t.name) {
        Some(Failure::InvalidManifest("tensor name cannot be stored: "@ + t.name))
    } else if t.shape.len() > MAX_TENSOR_RANK {
        Some(rank_error(t.name, t.shape.len() as u32))
    } else if t.checked && product(t.shape) * dtype_size(t.dtype) != t.data.len() {
        Some(
            Failure::InvalidManifest(
                "tensor "@ + t.name + ": data size "@ + decimal_text(t.data.len())
                    + " does not match its shape"@,
            ),
        )
    } else {
        None
    }
}

/// Why the first of the tensors that cannot be written cannot, from the `k`th on.
pub open spec fn first_problem(ts: Seq<Pending>, k: int) -> Option<Failure>
    decreases ts.len() - k,
{
    if k >= ts.len() {
        None
    } else {
        match problem(ts[k]) {
            Some(e) => Some(e),
            None => first_problem(ts, k + 1),
        }
    }
}

/// The manifest that goes with a draft.
pub open spec fn draft_manifest(b: Draft) -> ManifestModel {
    ManifestModel {
        model: b.model,
        architecture: b.architecture,
        hyperparameters: b.metadata,
        tokenizer: None,
        context_length: None,
        quantization: None,
        tensor_order: Seq::new(b.tensors.len(), |i: int| b.tensors[i].name),
    }
}

/// The bytes of the manifest.
pub open spec fn manifest_bytes(b: Draft) -> Seq<u8> {
    encode_utf8(json_text(normal(manifest_json(draft_manifest(b)))))
}

/// The next multiple of sixty-four.
pub open spec fn aligned(n: int) -> int {
    align_up_int(n, 64)
}

/// Where the descriptor table begins.
pub open spec fn table_at(b: Draft) -> int {
    aligned(MANIFEST_OFFSET + manifest_bytes(b).len())
}

/// Where the bytes of the tensors begin.
pub open spec fn data_at(b: Draft) -> int {
    aligned(table_at(b) + b.tensors.len() * DESCRIPTOR_SIZE)
}

/// Where the first `k` tensors end, the first of them at `start`.
pub open spec fn payload_end(ts: Seq<Pending>, start: int, k: int) -> int
    decreases k,
{
    if k <= 0 {
        start
    } else {
        aligned(payload_end(ts, start, k - 1)) + ts[k - 1].data.len()
    }
}

/// The bytes of all tensors together.
pub open spec fn total_size(ts: Seq<Pending>, k: int) -> int
    decreases k,
{
    if k <= 0 {
        0
    } else {
        total_size(ts, k - 1) + ts[k - 1].data.len()
    }
}

/// The descriptors of the tensors.
pub open spec fn draft_descriptors(ts: Seq<Pending>, start: int) -> Seq<Descriptor> {
    Seq::new(
        ts.len(),
        |i: int|
            Descriptor {
                name: ts[i].name,
                dtype: ts[i].dtype,
                shape: ts[i].shape,
                data_offset: aligned(payload_end(ts, start, i)) as u64,
                data_size: ts[i].data.len() as u64,
                affinity: 0,
                checksum: 0,
            },
    )
}

/// The header of the file.
pub open spec fn draft_header(b: Draft) -> AxonHeader {
    AxonHeader {
        version: AXON_VERSION,
        manifest_offset: MANIFEST_OFFSET,
        manifest_size: manifest_bytes(b).len() as u64,
        tensor_count: b.tensors.len() as u64,
        payload_size: total_size(b.tensors, b.tensors.len() as int) as u64,
        flags: 0,
    }
}

/// The bytes of the first `k` descriptors.
pub open spec fn table_bytes(x: Seq<Descriptor>, k: int) -> Seq<u8>
    decreases k,
{
    if k <= 0 {
        Seq::empty()
    } else {
        table_bytes(x, k - 1) + descriptor_bytes(x[k - 1])
    }
}

/// The bytes of the first `k` tensors, each at its place.
pub open spec fn payload_bytes(ts: Seq<Pending>, start: int, k: int) -> Seq<u8>
    decreases k,
{
    if k <= 0 {
        Seq::empty()
    } else {
        let end = payload_end(ts, start, k - 1);
        payload_bytes(ts, start, k - 1) + zeros((aligned(end) - end) as nat) + ts[k - 1].data
    }
}

/// The bytes of the file.
pub open spec fn file_bytes(b: Draft) -> Seq<u8> {
    let m = manifest_bytes(b);
    let n = b.tensors.len() as int;
    let x = draft_descriptors(b.tensors, data_at(b));
    header_bytes(draft_header(b)) + (zeros((MANIFEST_OFFSET - 64) as nat) + (m + (zeros(
        (table_at(b) - (MANIFEST_OFFSET + m.len())) as nat,
    ) + (table_bytes(x, n) + (zeros((data_at(b) - (table_at(b) + n * DESCRIPTOR_SIZE)) as nat)
        + payload_bytes(b.tensors, data_at(b), n))))))
}

/// The bytes of the file that a draft makes, or why it makes none.
pub open spec fn built(b: Draft) -> Result<Seq<u8>, Failure> {
    match first_problem(b.tensors, 0) {
        Some(e) => Err(e),
        None => if payload_end(b.tensors, data_at(b), b.tensors.len() as int) > u64::MAX {
            Err(Failure::InvalidManifest("file is too large"@))
        } else {
            Ok(file_bytes(b))
        },
    }
}

/// The bytes open as a file that holds what the draft was given. Fractions of the
/// manifest may have other bits.
pub open spec fn opens_as(d: Seq<u8>, b: Draft) -> bool {
    &&& open_file(d) matches Ok(o) && o.header == draft_header(b) && o.descriptors
        == draft_descriptors(b.tensors, data_at(b)) && alike_manifest(
        normal_manifest(draft_manifest(b)),
        o.manifest,
    ) && (fraction_free(normal(manifest_json(draft_manifest(b)))) ==> o.manifest
        == normal_manifest(draft_manifest(b)))
    &&& forall|i: int|
        0 <= i < b.tensors.len() ==> payload_of(
            d,
            #[trigger] draft_descriptors(b.tensors, data_at(b))[i],
        ) == Some(b.tensors[i].data)
}

/// Wherever the bytes open, they hold the tensors that the draft was given, and no
/// others: each with its name, its type, its shape and its bytes.
pub open spec fn keeps_tensors(d: Seq<u8>, b: Draft) -> bool {
    open_file(d) matches Ok(o) ==> {
        &&& o.header == draft_header(b)
        &&& o.descriptors == draft_descriptors(b.tensors, data_at(b))
        &&& forall|i: int|
            0 <= i < b.tensors.len() ==> payload_of(d, #[trigger] o.descriptors[i]) == Some(
                b.tensors[i].data,
            )
    }
}

/// The bytes hold the tensors of the draft wherever they open, and they open as what
/// the draft was given where the text of its manifest can be read back.
pub open spec fn faithful(d: Seq<u8>, b: Draft) -> bool {
    &&& keeps_tensors(d, b)
    &&& storable(normal(manifest_json(draft_manifest(b)))) ==> opens_as(d, b)
}

// ── Round trip ──────────────────────────────────────────────────────
proof fn lemma_ends(ts: Seq<Pending>, start: int, k: int, n: int)
    requires
        0 <= k <= n <= ts.len(),
        0 <= start,
    ensures
        start <= payload_end(ts, start, k) <= payload_end(ts, start, n),
        k < n ==> aligned(payload_end(ts, start, k)) + ts[k].data.len() <= payload_end(
            ts,
            start,
            n,
        ),
    decreases n,
{
    if n > 0 {
        if k < n {
            lemma_ends(ts, start, k, n - 1);
            lemma_align_up(payload_end(ts, start, n - 1), 64);
        } else {
            lemma_ends(ts, start, n - 1, n - 1);
            lemma_align_up(payload_end(ts, start, n - 1), 64);
        }
    }
}

proof fn lemma_total(ts: Seq<Pending>, start: int, k: int)
    requires
        0 <= k <= ts.len(),
        0 <= start,
    ensures
        0 <= total_size(ts, k) <= payload_end(ts, start, k) - start,
    decreases k,
{
    if k > 0 {
        lemma_total(ts, start, k - 1);
        lemma_align_up(payload_end(ts, start, k - 1), 64);
    }
}

proof fn lemma_payload_len(ts: Seq<Pending>, start: int, k: int)
    requires
        0 <= k <= ts.len(),
        0 <= start,
    ensures
        payload_bytes(ts, start, k).len() == payload_end(ts, start, k) - start,
    decreases k,
{
    if k > 0 {
        lemma_payload_len(ts, start, k - 1);
        lemma_ends(ts, start, 0, k - 1);
        lemma_align_up(payload_end(ts, start, k - 1), 64);
    }
}

proof fn lemma_payload_at(ts: Seq<Pending>, start: int, k: int, i: int)
    requires
        0 <= i < k <= ts.len(),
        0 <= start,
    ensures
        payload_bytes(ts, start, k).len() == payload_end(ts, start, k) - start,
        0 <= aligned(payload_end(ts, start, i)) - start,
        aligned(payload_end(ts, start, i)) + ts[i].data.len() <= payload_end(ts, start, k),
        payload_bytes(ts, start, k).subrange(
            aligned(payload_end(ts, start, i)) - start,
            aligned(payload_end(ts, start, i)) - start + ts[i].data.len(),
        ) == ts[i].data,
    decreases k,
{
    let at = aligned(payload_end(ts, start, i)) - start;
    let n = ts[i].data.len() as int;
    lemma_payload_len(ts, start, k);
    lemma_payload_len(ts, start, k - 1);
    lemma_ends(ts, start, i, k);
    lemma_ends(ts, start, 0, i);
    lemma_align_up(payload_end(ts, start, i), 64);
    let whole = payload_bytes(ts, start, k);
    let before = payload_bytes(ts, start, k - 1);
    if i == k - 1 {
        assert(whole.subrange(at, at + n) =~= ts[i].data);
    } else {
        lemma_payload_at(ts, start, k - 1, i);
        lemma_ends(ts, start, i, k - 1);
        assert(whole.subrange(at, at + n) =~= before.subrange(at, at + n));
    }
}

proof fn lemma_table_len(x: Seq<Descriptor>, k: int)
    requires
        0 <= k <= x.len(),
        forall|i: int| 0 <= i < x.len() ==> writable(#[trigger] x[i]),
    ensures
        table_bytes(x, k).len() == k * DESCRIPTOR_SIZE,
    decreases k,
{
    if k > 0 {
        lemma_table_len(x, k - 1);
        lemma_descriptor_len(x[k - 1]);
    }
}

proof fn lemma_table_part(x: Seq<Descriptor>, k: int, i: int)
    requires
        0 <= i < k <= x.len(),
        forall|j: int| 0 <= j < x.len() ==> writable(#[trigger] x[j]),
    ensures
        table_bytes(x, k).len() == k * DESCRIPTOR_SIZE,
        table_bytes(x, k).subrange(i * DESCRIPTOR_SIZE, (i + 1) * DESCRIPTOR_SIZE)
            == descriptor_bytes(x[i]),
    decreases k,
{
    lemma_table_len(x, k);
    lemma_table_len(x, k - 1);
    lemma_descriptor_len(x[k - 1]);
    let whole = table_bytes(x, k);
    if i == k - 1 {
        assert(whole.subrange(i * DESCRIPTOR_SIZE, (i + 1) * DESCRIPTOR_SIZE)
            =~= descriptor_bytes(x[i]));
    } else {
        lemma_table_part(x, k - 1, i);
        assert(whole.subrange(i * DESCRIPTOR_SIZE, (i + 1) * DESCRIPTOR_SIZE) =~= table_bytes(
            x,
            k - 1,
        ).subrange(i * DESCRIPTOR_SIZE, (i + 1) * DESCRIPTOR_SIZE));
    }
}

/// A table is read back from its own bytes.
proof fn lemma_table_roundtrip(d: Seq<u8>, p: int, x: Seq<Descriptor>, k: int)
    requires
        0 <= k <= x.len(),
        forall|j: int| 0 <= j < x.len() ==> writable(#[trigger] x[j]),
        0 <= p,
        p + x.len() * DESCRIPTOR_SIZE <= d.len(),
        d.subrange(p, p + x.len() * DESCRIPTOR_SIZE) == table_bytes(x, x.len() as int),
    ensures
        descriptor_table(d, p + k * DESCRIPTOR_SIZE, x.len() - k, x.take(k)) == Ok::<
            Seq<Descriptor>,
            Failure,
        >(x),
    decreases x.len() - k,
{
    if k < x.len() {
        let at = p + k * DESCRIPTOR_SIZE;
        lemma_table_part(x, x.len() as int, k);
        assert(d.subrange(at, at + DESCRIPTOR_SIZE) =~= d.subrange(
            p,
            p + x.len() * DESCRIPTOR_SIZE,
        ).subrange(k * DESCRIPTOR_SIZE, (k + 1) * DESCRIPTOR_SIZE));
        lemma_descriptor_roundtrip(d, at, x[k]);
        assert(x.take(k).push(x[k]) =~= x.take(k + 1));
        lemma_table_roundtrip(d, p, x, k + 1);
    } else {
        assert(x.take(k) =~= x);
    }
}

proof fn lemma_no_problem(ts: Seq<Pending>, k: int, i: int)
    requires
        0 <= k <= i < ts.len(),
        first_problem(ts, k) is None,
    ensures
        problem(ts[i]) is None,
    decreases i - k,
{
    if k < i {
        lemma_no_problem(ts, k + 1, i);
    }
}

/// The regions of a built file stand where its header and its descriptors say.
proof fn lemma_regions(b: Draft)
    requires
        built(b) is Ok,
    ensures
        ({
            let d = file_bytes(b);
            let n = b.tensors.len() as int;
            let x = draft_descriptors(b.tensors, data_at(b));
            let m = manifest_bytes(b);
            &&& d.len() == payload_end(b.tensors, data_at(b), n)
            &&& MANIFEST_OFFSET + m.len() <= table_at(b)
            &&& table_at(b) + n * DESCRIPTOR_SIZE <= data_at(b) <= d.len()
            &&& forall|i: int| 0 <= i < n ==> writable(#[trigger] x[i])
            &&& d.subrange(0, 64) == header_bytes(draft_header(b))
            &&& d.subrange(MANIFEST_OFFSET as int, MANIFEST_OFFSET + m.len()) == m
            &&& d.subrange(table_at(b), table_at(b) + n * DESCRIPTOR_SIZE) == table_bytes(x, n)
            &&& d.subrange(data_at(b), d.len() as int) == payload_bytes(b.tensors, data_at(b), n)
        }),
{
    let d = file_bytes(b);
    let n = b.tensors.len() as int;
    let x = draft_descriptors(b.tensors, data_at(b));
    let m = manifest_bytes(b);
    let (t, s) = (table_at(b), data_at(b));
    lemma_align_up(MANIFEST_OFFSET + m.len(), 64);
    lemma_align_up(t + n * DESCRIPTOR_SIZE, 64);
    assert forall|i: int| 0 <= i < n implies writable(#[trigger] x[i]) by {
        lemma_no_problem(b.tensors, 0, i);
    }
    lemma_table_len(x, n);
    lemma_payload_len(b.tensors, s, n);
    lemma_ends(b.tensors, s, 0, n);
    let h = header_bytes(draft_header(b));
    assert(h.len() == 64) by {
        reveal(header_bytes);
    }
    let z1 = zeros((MANIFEST_OFFSET - 64) as nat);
    let z2 = zeros((t - (MANIFEST_OFFSET + m.len())) as nat);
    let tb = table_bytes(x, n);
    let z3 = zeros((s - (t + n * DESCRIPTOR_SIZE)) as nat);
    let pb = payload_bytes(b.tensors, s, n);
    assert(d.len() == s + pb.len());
    assert(d.subrange(0, d.len() as int) =~= d);
    lemma_parts(d, 0, h, z1 + (m + (z2 + (tb + (z3 + pb)))));
    lemma_parts(d, 64, z1, m + (z2 + (tb + (z3 + pb))));
    lemma_parts(d, MANIFEST_OFFSET as int, m, z2 + (tb + (z3 + pb)));
    lemma_parts(d, MANIFEST_OFFSET + m.len(), z2, tb + (z3 + pb));
    lemma_parts(d, t, tb, z3 + pb);
    lemma_parts(d, t + n * DESCRIPTOR_SIZE, z3, pb);
}

/// In a built file the table and the bytes of every tensor begin at a multiple of
/// sixty-four. The tensors stand behind the table, in the file, and apart from
/// each other, in the order in which they were added.
pub proof fn lemma_layout(b: Draft)
    requires
        built(b) is Ok,
    ensures
        ({
            let x = draft_descriptors(b.tensors, data_at(b));
            &&& MANIFEST_OFFSET % CACHE_LINE_SIZE == 0
            &&& table_at(b) % CACHE_LINE_SIZE as int == 0
            &&& table_at(b) == table_start(draft_header(b))
            &&& MANIFEST_OFFSET + draft_header(b).manifest_size <= table_at(b)
            &&& forall|i: int|
                0 <= i < x.len() ==> {
                    &&& (#[trigger] x[i]).data_offset % CACHE_LINE_SIZE == 0
                    &&& table_at(b) + x.len() * DESCRIPTOR_SIZE <= x[i].data_offset
                    &&& x[i].data_offset + x[i].data_size <= file_bytes(b).len()
                }
            &&& forall|i: int, j: int|
                0 <= i < j < x.len() ==> (#[trigger] x[i]).data_offset + x[i].data_size <= (
                #[trigger] x[j]).data_offset
        }),
{
    let ts = b.tensors;
    let s = data_at(b);
    let n = ts.len() as int;
    let x = draft_descriptors(ts, s);
    lemma_regions(b);
    lemma_align_up(MANIFEST_OFFSET + manifest_bytes(b).len(), 64);
    assert forall|i: int| 0 <= i < n implies {
        let at = aligned(payload_end(ts, s, i));
        &&& at % 64 == 0
        &&& s <= at
        &&& at + ts[i].data.len() <= payload_end(ts, s, n)
        &&& (#[trigger] x[i]).data_offset == at
        &&& x[i].data_size == ts[i].data.len()
    } by {
        lemma_ends(ts, s, 0, i);
        lemma_ends(ts, s, i, n);
        lemma_align_up(payload_end(ts, s, i), 64);
    }
    assert forall|i: int, j: int| 0 <= i < j < n implies (#[trigger] x[i]).data_offset
        + x[i].data_size <= (#[trigger] x[j]).data_offset by {
        lemma_ends(ts, s, i, j);
        lemma_ends(ts, s, 0, j);
        lemma_align_up(payload_end(ts, s, j), 64);
    }
}

/// The table of a built file holds the descriptors of its tensors, and each points
/// at the tensor's bytes.
proof fn lemma_tensors_at(b: Draft)
    requires
        built(b) is Ok,
    ensures
        header_of(file_bytes(b)) == Ok::<AxonHeader, Failure>(draft_header(b)),
        descriptors_in(file_bytes(b), draft_header(b)) == Ok::<Seq<Descriptor>, Failure>(
            draft_descriptors(b.tensors, data_at(b)),
        ),
        forall|i: int|
            0 <= i < b.tensors.len() ==> payload_of(
                file_bytes(b),
                #[trigger] draft_descriptors(b.tensors, data_at(b))[i],
            ) == Some(b.tensors[i].data),
{
    let d = file_bytes(b);
    let n = b.tensors.len() as int;
    let x = draft_descriptors(b.tensors, data_at(b));
    let h = draft_header(b);
    lemma_regions(b);
    lemma_ends(b.tensors, data_at(b), 0, n);
    lemma_total(b.tensors, data_at(b), n);
    lemma_header_roundtrip(d, h);
    lemma_table_roundtrip(d, table_at(b), x, 0);
    assert(x.take(0) =~= Seq::empty());
    assert(n == 0 ==> x =~= Seq::empty());
    assert forall|i: int| 0 <= i < n implies payload_of(d, #[trigger] x[i]) == Some(
        b.tensors[i].data,
    ) by {
        let s = data_at(b);
        lemma_payload_at(b.tensors, s, n, i);
        lemma_ends(b.tensors, s, i, n);
        lemma_ends(b.tensors, s, 0, i);
        lemma_align_up(payload_end(b.tensors, s, i), 64);
        let at = aligned(payload_end(b.tensors, s, i));
        let len = b.tensors[i].data.len() as int;
        assert(d.subrange(at, at + len) =~= d.subrange(s, d.len() as int).subrange(
            at - s,
            at - s + len,
        ));
    }
}

/// Wherever a built file opens, it holds the tensors that it was built from.
pub proof fn lemma_build_keeps(b: Draft)
    requires
        built(b) is Ok,
    ensures
        keeps_tensors(file_bytes(b), b),
{
    lemma_tensors_at(b);
}

/// A built file whose manifest can be read back opens as what it was built
/// from: the same model, names, types and shapes, and for every tensor the same
/// bytes.
pub proof fn lemma_build_open(b: Draft)
    requires
        built(b) is Ok,
        reads_like(manifest_bytes(b), normal(manifest_json(draft_manifest(b)))),
    ensures
        opens_as(file_bytes(b), b),
{
    lemma_regions(b);
    lemma_tensors_at(b);
    lemma_manifest_roundtrip(draft_manifest(b));
    let j = normal(manifest_json(draft_manifest(b)));
    let k = json_document(manifest_bytes(b))->Ok_0;
    lemma_manifest_alike(j, k);
    if fraction_free(j) {
        lemma_alike_exact(j, k);
    }
}

// ── The builder ─────────────────────────────────────────────────────
/// A tensor that waits to be written.
#[derive(Debug)]
struct PendingTensor {
    name: String,
    data: Vec<u8>,
    dtype: DType,
    shape: Vec<u64>,
    checked: bool,
}

impl PendingTensor {
    spec fn pending(self) -> Pending {
        Pending {
            name: self.name@,
            data: self.data@,
            dtype: self.dtype,
            shape: self.shape@,
            checked: self.checked,
        }
    }

    fn problem(&self) -> (r: Option<AxonError>)
        ensures
            match r {
                Some(e) => problem(self.pending()) == Some(e@),
                None => problem(self.pending()) is None,
            },
    {
        if !check_name(self.name.as_str()) {
            return Some(
                AxonError::InvalidManifest(
                    concat2("tensor name cannot be stored: ", self.name.as_str()),
                ),
            );
        }
        if self.shape.len() > MAX_TENSOR_RANK {
            return Some(
                AxonError::InvalidManifest(
                    concat4(
                        "tensor ",
                        self.name.as_str(),
                        " has unsupported rank ",
                        decimal((self.shape.len() as u32) as u64).as_str(),
                    ),
                ),
            );
        }
        if self.checked {
            let count = element_count(self.shape.as_slice());
            let width = self.dtype.size_in_bytes() as u128;
            proof {
                let (p, c, w) = (product(self.shape@) as int, count as int, width as int);
                assert(1 <= w <= 8);
                assert(c * w <= 8 * c && c * w >= c) by (nonlinear_arith)
                    requires
                        0 <= c,
                        1 <= w <= 8,
                ;
                assert(p * w >= p) by (nonlinear_arith)
                    requires
                        0 <= p,
                        1 <= w,
                ;
            }
            if count * width != self.data.len() as u128 {
                return Some(
                    AxonError::InvalidManifest(
                        concat5(
                            "tensor ",
                            self.name.as_str(),
                            ": data size ",
                            decimal(self.data.len() as u64).as_str(),
                            " does not match its shape",
                        ),
                    ),
                );
            }
        }
        None
    }
}

spec fn pendings(v: Seq<PendingTensor>) -> Seq<Pending> {
    Seq::new(v.len(), |i: int| v[i].pending())
}

/// Gathers a model's facts and tensors, and writes the file that holds them.
#[derive(Debug)]
pub struct AxonBuilder {
    model: Option<String>,
    architecture: Option<String>,
    metadata: Vec<(String, JsonValue)>,
    tensors: Vec<PendingTensor>,
}

impl View for AxonBuilder {
    type V = Draft;

    closed spec fn view(&self) -> Draft {
        Draft {
            model: opt_text(self.model),
            architecture: opt_text(self.architecture),
            metadata: entry_models(self.metadata@),
            tensors: pendings(self.tensors@),
        }
    }
}

/// A draft to which nothing was given.
pub open spec fn empty_draft() -> Draft {
    Draft { model: None, architecture: None, metadata: Seq::empty(), tensors: Seq::empty() }
}

impl AxonBuilder {
    /// A builder to which nothing was given.
    pub fn new() -> (r: AxonBuilder)
        ensures
            r@ == empty_draft(),
    {
        let r = AxonBuilder {
            model: None,
            architecture: None,
            metadata: Vec::new(),
            tensors: Vec::new(),
        };
        assert(r@ =~= empty_draft());
        r
    }

    /// Sets the model's name.
    pub fn model(self, name: &str) -> (r: AxonBuilder)
        ensures
            r@ == (Draft { model: Some(name@), ..self@ }),
    {
        AxonBuilder { model: Some(name.to_owned()), ..self }
    }

    /// Sets the model's architecture.
    pub fn architecture(self, name: &str) -> (r: AxonBuilder)
        ensures
            r@ == (Draft { architecture: Some(name@), ..self@ }),
    {
        AxonBuilder { architecture: Some(name.to_owned()), ..self }
    }

    /// Puts a fact about the model under `key`, in place of an earlier one.
    pub fn metadata(self, key: &str, value: JsonValue) -> (r: AxonBuilder)
        ensures
            r@ == (Draft { metadata: object_put(self@.metadata, key@, value@), ..self@ }),
    {
        let mut b = self;
        object_insert(&mut b.metadata, key.to_owned(), value);
        b
    }

    /// Adds a tensor whose bytes must be as many as its shape and type ask for.
    pub fn add_tensor(self, name: &str, data: Vec<u8>, dtype: DType, shape: &[u64]) -> (r:
        AxonBuilder)
        ensures
            r@ == added(self@, name@, data@, dtype, shape@, true),
    {
        self.add(name, data, dtype, shape, true)
    }

    /// Adds a tensor with any number of bytes.
    pub fn add_tensor_unchecked(self, name: &str, data: Vec<u8>, dtype: DType, shape: &[u64]) -> (r:
        AxonBuilder)
        ensures
            r@ == added(self@, name@, data@, dtype, shape@, false),
    {
        self.add(name, data, dtype, shape, false)
    }

    fn add(self, name: &str, data: Vec<u8>, dtype: DType, shape: &[u64], checked: bool) -> (r:
        AxonBuilder)
        ensures
            r@ == added(self@, name@, data@, dtype, shape@, checked),
    {
        let mut b = self;
        let t = PendingTensor {
            name: name.to_owned(),
            data,
            dtype,
            shape: copy_u64(shape),
            checked,
        };
        assert(pendings(b.tensors@.push(t)) =~= pendings(b.tensors@).push(t.pending()));
        b.tensors.push(t);
        b
    }

    /// The file: a header, the manifest, the descriptor table and the bytes of
    /// the tensors. Wherever the file opens it holds the tensors, and where the text
    /// of the manifest can be read back it opens as what it was built from.
    pub fn build(self) -> (r: AxonResult<Vec<u8>>)
        ensures
            match r {
                Ok(d) => built(self@) == Ok::<Seq<u8>, Failure>(d@) && faithful(d@, self@),
                Err(e) => built(self@) == Err::<Seq<u8>, Failure>(e@),
            },
    {
        if let Some(e) = find_problem(&self.tensors) {
            return Err(e);
        }
        let ghost ts = pendings(self.tensors@);
        let ghost b = self@;
        let text = manifest_text(&self);
        let m = text.as_str().as_bytes();
        let count = self.tensors.len();
        proof {
            lemma_align_up(MANIFEST_OFFSET + m@.len(), 64);
            lemma_align_up(table_at(b) + count * DESCRIPTOR_SIZE, 64);
        }
        let table = (MANIFEST_OFFSET as u128 + m.len() as u128 + 63) / 64 * 64;
        let start = (table + count as u128 * DESCRIPTOR_SIZE as u128 + 63) / 64 * 64;
        let (descriptors, size) = match lay_out(&self.tensors, start) {
            Some(x) => x,
            None => return Err(AxonError::InvalidManifest("file is too large".to_owned())),
        };
        proof {
            lemma_regions(b);
        }
        let header = AxonHeader {
            version: AXON_VERSION,
            manifest_offset: MANIFEST_OFFSET,
            manifest_size: m.len() as u64,
            tensor_count: count as u64,
            payload_size: size,
            flags: 0,
        };
        assert(descriptor_models(descriptors@).len() == descriptors@.len());
        let out = assemble(
            &header,
            m,
            (table - (MANIFEST_OFFSET as u128 + m.len() as u128)) as usize,
            &descriptors,
            (start - (table + count as u128 * DESCRIPTOR_SIZE as u128)) as usize,
            &self.tensors,
            start as u64,
        );
        proof {
            assert(header == draft_header(b));
            lemma_build_keeps(b);
            if storable(normal(manifest_json(draft_manifest(b)))) {
                lemma_build_open(b);
            }
        }
        Ok(out)
    }
}

/// The draft with one more tensor.
pub open spec fn added(
    b: Draft,
    name: Seq<char>,
    data: Seq<u8>,
    dtype: DType,
    shape: Seq<u64>,
    checked: bool,
) -> Draft {
    Draft { tensors: b.tensors.push(Pending { name, data, dtype, shape, checked }), ..b }
}

proof fn lemma_file_chain(
    a: Seq<u8>,
    b: Seq<u8>,
    c: Seq<u8>,
    d: Seq<u8>,
    e: Seq<u8>,
    f: Seq<u8>,
    g: Seq<u8>,
)
    ensures
        Seq::<u8>::empty() + a + b + c + d + e + f + g == a + (b + (c + (d + (e + (f + g))))),
{
    assert(Seq::<u8>::empty() + a + b + c + d + e + f + g =~= a + (b + (c + (d + (e + (f + g))))));
}

/// The regions of a file, one behind the other.
fn assemble(
    header: &AxonHeader,
    m: &[u8],
    gap: usize,
    descriptors: &Vec<TensorDescriptor>,
    second_gap: usize,
    tensors: &Vec<PendingTensor>,
    start: u64,
) -> (r: Vec<u8>)
    requires
        forall|i: int|
            0 <= i < descriptors@.len() ==> writable(
                #[trigger] descriptor_models(descriptors@)[i],
            ),
        payload_end(pendings(tensors@), start as int, tensors@.len() as int) <= u64::MAX,
    ensures
        r@ == header_bytes(*header) + (zeros((MANIFEST_OFFSET - 64) as nat) + (m@ + (zeros(
            gap as nat,
        ) + (table_bytes(descriptor_models(descriptors@), descriptors@.len() as int) + (zeros(
            second_gap as nat,
        ) + payload_bytes(pendings(tensors@), start as int, tensors@.len() as int)))))),
{
    let mut out: Vec<u8> = Vec::new();
    header.write(&mut out);
    put_zeros(&mut out, MANIFEST_OFFSET as usize - 64);
    put_bytes(&mut out, m);
    put_zeros(&mut out, gap);
    write_table(&mut out, descriptors);
    put_zeros(&mut out, second_gap);
    write_payloads(&mut out, tensors, start);
    proof {
        lemma_file_chain(
            header_bytes(*header),
            zeros((MANIFEST_OFFSET - 64) as nat),
            m@,
            zeros(gap as nat),
            table_bytes(descriptor_models(descriptors@), descriptors@.len() as int),
            zeros(second_gap as nat),
            payload_bytes(pendings(tensors@), start as int, tensors@.len() as int),
        );
    }
    out
}

/// Why the first of the tensors that cannot be written cannot.
fn find_problem(v: &Vec<PendingTensor>) -> (r: Option<AxonError>)
    ensures
        match r {
            Some(e) => first_problem(pendings(v@), 0) == Some(e@),
            None => first_problem(pendings(v@), 0) is None,
        },
{
    let mut i: usize = 0;
    while i < v.len()
        invariant
            i <= v@.len(),
            first_problem(pendings(v@), 0) == first_problem(pendings(v@), i as int),
        decreases v@.len() - i,
    {
        assert(pendings(v@)[i as int] == v@[i as int].pending());
        if let Some(e) = v[i].problem() {
            return Some(e);
        }
        i += 1;
    }
    None
}

/// The text of the manifest.
fn manifest_text(b: &AxonBuilder) -> (r: String)
    ensures
        encode_utf8(r@) == manifest_bytes(b@),
        storable(normal(manifest_json(draft_manifest(b@)))) ==> reads_like(
            manifest_bytes(b@),
            normal(manifest_json(draft_manifest(b@))),
        ),
{
    let mut m = Manifest::new();
    m.model = match &b.model {
        Some(s) => Some(s.clone()),
        None => None,
    };
    m.architecture = match &b.architecture {
        Some(s) => Some(s.clone()),
        None => None,
    };
    m.hyperparameters = object_copy(&b.metadata);
    let mut names: Vec<String> = Vec::new();
    let mut i: usize = 0;
    while i < b.tensors.len()
        invariant
            i <= b.tensors@.len(),
            names@.len() == i,
            forall|k: int| 0 <= k < i ==> (#[trigger] names@[k])@ == b.tensors@[k].name@,
        decreases b.tensors@.len() - i,
    {
        names.push(b.tensors[i].name.clone());
        i += 1;
    }
    m.tensor_order = names;
    assert(texts(m.tensor_order@) =~= draft_manifest(b@).tensor_order);
    assert(m@ =~= draft_manifest(b@));
    json_to_string(&m.to_json())
}

/// The descriptors of the tensors and the bytes that they have together, or
/// `None` where the last of them would end too far.
fn lay_out(v: &Vec<PendingTensor>, start: u128) -> (r: Option<(Vec<TensorDescriptor>, u64)>)
    requires
        first_problem(pendings(v@), 0) is None,
    ensures
        match r {
            Some(x) => payload_end(pendings(v@), start as int, v@.len() as int) <= u64::MAX
                && descriptor_models(x.0@) == draft_descriptors(pendings(v@), start as int)
                && x.1 == total_size(pendings(v@), v@.len() as int) as u64,
            None => payload_end(pendings(v@), start as int, v@.len() as int) > u64::MAX,
        },
{
    let ghost ts = pendings(v@);
    let ghost n = v@.len() as int;
    let mut out: Vec<TensorDescriptor> = Vec::new();
    let mut end: u128 = start;
    let mut size: u64 = 0;
    let mut i: usize = 0;
    proof {
        lemma_ends(ts, start as int, 0, n);
    }
    if end > u64::MAX as u128 {
        return None;
    }
    while i < v.len()
        invariant
            i <= v@.len(),
            n == v@.len(),
            ts == pendings(v@),
            end == payload_end(ts, start as int, i as int),
            end <= u64::MAX,
            size == total_size(ts, i as int),
            size <= end - start,
            out@.len() == i,
            forall|k: int|
                0 <= k < i ==> (#[trigger] out@[k])@ == draft_descriptors(ts, start as int)[k],
        decreases v@.len() - i,
    {
        proof {
            lemma_align_up(end as int, 64);
            lemma_ends(ts, start as int, i + 1, n);
            assert(ts[i as int] == v@[i as int].pending());
            lemma_total(ts, start as int, i + 1);
        }
        let at = (end + 63) / 64 * 64;
        let next = at + v[i].data.len() as u128;
        if next > u64::MAX as u128 {
            return None;
        }
        let x = TensorDescriptor::new(
            v[i].name.as_str(),
            v[i].dtype,
            v[i].shape.as_slice(),
            at as u64,
            v[i].data.len() as u64,
            Affinity::Default,
            0,
        );
        out.push(x);
        size = size + v[i].data.len() as u64;
        end = next;
        i += 1;
    }
    assert(descriptor_models(out@) =~= draft_descriptors(ts, start as int));
    Some((out, size))
}

/// Writes the descriptor table behind `out`.
fn write_table(out: &mut Vec<u8>, v: &Vec<TensorDescriptor>)
    requires
        forall|i: int| 0 <= i < v@.len() ==> writable(#[trigger] descriptor_models(v@)[i]),
    ensures
        final(out)@ == old(out)@ + table_bytes(descriptor_models(v@), v@.len() as int),
{
    let mut i: usize = 0;
    let ghost x = descriptor_models(v@);
    assert(out@ =~= old(out)@ + table_bytes(x, 0));
    while i < v.len()
        invariant
            i <= v@.len(),
            x == descriptor_models(v@),
            forall|k: int| 0 <= k < v@.len() ==> writable(#[trigger] descriptor_models(v@)[k]),
            out@ == old(out)@ + table_bytes(x, i as int),
        decreases v@.len() - i,
    {
        assert(x[i as int] == v@[i as int]@);
        v[i].write(out);
        assert(out@ =~= old(out)@ + table_bytes(x, i + 1));
        i += 1;
    }
}

/// Writes the bytes of the tensors behind `out`, each at its place, where `out`
/// ends at `start`.
fn write_payloads(out: &mut Vec<u8>, v: &Vec<PendingTensor>, start: u64)
    requires
        payload_end(pendings(v@), start as int, v@.len() as int) <= u64::MAX,
    ensures
        final(out)@ == old(out)@ + payload_bytes(pendings(v@), start as int, v@.len() as int),
{
    let ghost ts = pendings(v@);
    let mut i: usize = 0;
    let mut end: u64 = start;
    assert(out@ =~= old(out)@ + payload_bytes(ts, start as int, 0));
    while i < v.len()
        invariant
            i <= v@.len(),
            ts == pendings(v@),
            end == payload_end(ts, start as int, i as int),
            payload_end(ts, start as int, v@.len() as int) <= u64::MAX,
            out@ == old(out)@ + payload_bytes(ts, start as int, i as int),
        decreases v@.len() - i,
    {
        proof {
            lemma_align_up(end as int, 64);
            lemma_ends(ts, start as int, i + 1, v@.len() as int);
            assert(ts[i as int] == v@[i as int].pending());
        }
        let at = ((end as u128 + 63) / 64 * 64) as u64;
        put_zeros(out, (at - end) as usize);
        put_bytes(out, v[i].data.as_slice());
        assert(out@ =~= old(out)@ + payload_bytes(ts, start as int, i + 1));
        end = at + v[i].data.len() as u64;
        i += 1;
    }
}

/// What is written of a draft: the version, no flags, the number of its tensors and of
/// their bytes, and of each tensor its name, type, dimensions and number of bytes,
/// without a hint or a checksum. The manifest has the draft's model, architecture and
/// facts, and the names of its tensors in their order.
pub proof fn lemma_described(b: Draft, start: int, i: int)
    requires
        0 <= i < b.tensors.len() <= u64::MAX,
        b.tensors[i].data.len() <= u64::MAX,
    ensures
        ({
            let (h, m) = (draft_header(b), draft_manifest(b));
            let (t, x) = (b.tensors[i], draft_descriptors(b.tensors, start)[i]);
            &&& h.version == 1 && h.flags == 0 && h.tensor_count == b.tensors.len()
            &&& x.name == t.name && x.dtype == t.dtype && x.shape == t.shape
            &&& x.data_size == t.data.len()
            &&& x.affinity == 0 && x.checksum == 0
            &&& m.model == b.model && m.architecture == b.architecture
            &&& m.hyperparameters == b.metadata
            &&& m.tokenizer is None && m.context_length is None && m.quantization is None
            &&& m.tensor_order.len() == b.tensors.len() && m.tensor_order[i] == t.name
        }),
{
}

/// The manifest begins behind the first four thousand and ninety-six bytes. The table, and
/// every tensor behind it, begins at the first multiple of sixty-four behind what stands
/// before, and the file ends where its last tensor does.
pub proof fn lemma_compact(b: Draft, i: int)
    requires
        built(b) is Ok,
        0 <= i < b.tensors.len(),
    ensures
        ({
            let x = draft_descriptors(b.tensors, data_at(b));
            let n = b.tensors.len() as int;
            let manifest_end = MANIFEST_OFFSET + draft_header(b).manifest_size;
            let before = if i == 0 {
                table_at(b) + n * DESCRIPTOR_SIZE
            } else {
                x[i - 1].data_offset + x[i - 1].data_size
            };
            &&& MANIFEST_OFFSET == 4096
            &&& manifest_end <= table_at(b) < manifest_end + 64
            &&& before <= x[i].data_offset < before + 64
            &&& i == n - 1 ==> file_bytes(b).len() == x[i].data_offset + x[i].data_size
        }),
{
    let ts = b.tensors;
    let s = data_at(b);
    let n = ts.len() as int;
    lemma_layout(b);
    lemma_regions(b);
    lemma_align_up(MANIFEST_OFFSET + manifest_bytes(b).len(), 64);
    lemma_align_up(table_at(b) + n * DESCRIPTOR_SIZE, 64);
    lemma_ends(ts, s, 0, i);
    lemma_ends(ts, s, i, n);
    lemma_align_up(payload_end(ts, s, i), 64);
    if i == 0 {
        assert(payload_end(ts, s, 0) == s);
    } else {
        lemma_ends(ts, s, 0, i - 1);
        lemma_ends(ts, s, i - 1, n);
        lemma_align_up(payload_end(ts, s, i - 1), 64);
    }
}

/// The header counts the bytes of all tensors: as many as those of all but the last, and
/// those of the last.
pub proof fn lemma_payload_counted(ts: Seq<Pending>, k: int)
    requires
        0 <= k < ts.len(),
    ensures
        total_size(ts, 0) == 0,
        total_size(ts, k + 1) == total_size(ts, k) + ts[k].data.len(),
{
}

/// A tensor can be written where its name has less than ninety-six bytes, none of them
/// zero, where it has no more than eight dimensions, and where it has the bytes that its
/// shape asks for, or is not to be checked for them. The report names it.
pub proof fn lemma_problems(t: Pending)
    ensures
        ({
            let name = encode_utf8(t.name);
            let fits = name.len() < 96 && !name.contains(0u8);
            let whole = product(t.shape) * dtype_size(t.dtype) == t.data.len();
            &&& problem(t) is None <==> fits && t.shape.len() <= 8 && (whole || !t.checked)
            &&& !fits ==> problem(t) == Some(
                Failure::InvalidManifest("tensor name cannot be stored: "@ + t.name),
            )
            &&& fits && 8 < t.shape.len() <= u32::MAX ==> problem(t) == Some(
                Failure::InvalidManifest(
                    "tensor "@ + t.name + " has unsupported rank "@ + decimal_text(t.shape.len()),
                ),
            )
            &&& fits && t.shape.len() <= 8 && t.checked && !whole ==> problem(t) == Some(
                Failure::InvalidManifest(
                    "tensor "@ + t.name + ": data size "@ + decimal_text(t.data.len())
                        + " does not match its shape"@,
                ),
            )
        }),
{
    let name = encode_utf8(t.name);
    if name.contains(0u8) {
        let i = choose|i: int| 0 <= i < name.len() && name[i] == 0u8;
        assert(name[i] == 0);
    } else {
        assert forall|i: int| 0 <= i < name.len() implies #[trigger] name[i] != 0 by {
            assert(name.contains(name[i]));
        }
    }
}

/// A file is built where every tensor can be written and its end fits sixty-four bits.
/// Else the first tensor that cannot be written is reported.
pub proof fn lemma_built(b: Draft, i: int)
    requires
        0 <= i < b.tensors.len(),
        forall|j: int| 0 <= j < i ==> problem(#[trigger] b.tensors[j]) is None,
    ensures
        problem(b.tensors[i]) matches Some(e) ==> built(b) == Err::<Seq<u8>, Failure>(e),
        i + 1 == b.tensors.len() && problem(b.tensors[i]) is None ==> (built(b) is Ok
            <==> payload_end(b.tensors, data_at(b), i + 1) <= u64::MAX),
{
    lemma_first_problem(b.tensors, 0, i);
}

proof fn lemma_first_problem(ts: Seq<Pending>, k: int, i: int)
    requires
        0 <= k <= i < ts.len(),
        forall|j: int| k <= j < i ==> problem(#[trigger] ts[j]) is None,
    ensures
        problem(ts[i]) matches Some(e) ==> first_problem(ts, k) == Some(e),
        i + 1 == ts.len() && problem(ts[i]) is None ==> first_problem(ts, k) is None,
    decreases i - k,
{
    if k < i {
        lemma_first_problem(ts, k + 1, i);
    } else {
        assert(i + 1 == ts.len() ==> first_problem(ts, i + 1) is None);
    }
}

} // verus!
