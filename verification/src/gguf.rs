//! GGUF files: header, metadata and tensor directory.
use vstd::prelude::*;

use crate::bytes::{
    align_up_int, get_u16, get_u32, get_u64, get_u8, le16, le32, le32_bytes, le64, le64_bytes,
    lemma_align_up, lemma_le32_roundtrip, lemma_le64_roundtrip, slice,
};
use crate::descriptor::shape_bytes;
use crate::dtype::{block_bytes, block_values};
use crate::error::{
    clamp, eof, invalid, short_read, short_read_error, AxonError, AxonResult, Failure,
};
use crate::json::{
    entry_models, finite_double, finite_single, lemma_models_push, lemma_view, models, normal,
    object_find, object_get, object_insert, object_put, uint_of, Json, JsonValue,
};
use crate::json_codec::{json_single, single_model, widened};
use crate::tensor::{dtype_size, DType, MAX_TENSOR_RANK};
use crate::text::{concat2, concat4, decimal, decimal_text};
use crate::unicode::{from_utf8_lossy, utf8_lossy};

verus! {

// ── The grammar ─────────────────────────────────────────────────────
/// A string: a length of eight bytes, then that many bytes of text.
pub open spec fn gguf_string(d: Seq<u8>, p: int) -> Result<(Seq<char>, int), Failure> {
    if p + 8 > d.len() {
        Err(short_read())
    } else {
        let end = p + 8 + le64(d, p);
        if end > u64::MAX {
            Err(Failure::InvalidManifest("GGUF string length overflow"@))
        } else if end > d.len() {
            Err(eof(end, d.len() as int))
        } else {
            Ok((utf8_lossy(d.subrange(p + 8, end)), end))
        }
    }
}

/// The integer whose two's complement is `v`, in a width whose sign bit counts
/// `half`.
pub open spec fn signed(v: int, half: int) -> Json {
    if v < half {
        Json::UInt(v as u64)
    } else {
        Json::Int((v - 2 * half) as i64)
    }
}

/// The value `j` and the place behind it, `width` bytes on, where the data
/// reaches that far.
pub open spec fn fixed(d: Seq<u8>, p: int, width: int, j: Json) -> Result<(Json, int), Failure> {
    if p + width > d.len() {
        Err(short_read())
    } else {
        Ok((j, p + width))
    }
}

/// The report of a value type that is not known.
pub open spec fn unknown_type(kind: u32) -> Failure {
    Failure::InvalidManifest("unsupported GGUF metadata value type "@ + decimal_text(kind as nat))
}

/// A metadata value of the given type.
pub open spec fn gguf_value(d: Seq<u8>, p: int, kind: u32) -> Result<(Json, int), Failure>
    decreases d.len() - p, 0int, 0int,
{
    if kind == 0 {
        fixed(d, p, 1, Json::UInt(d[p] as u64))
    } else if kind == 1 {
        fixed(d, p, 1, signed(d[p] as int, 0x80))
    } else if kind == 2 {
        fixed(d, p, 2, Json::UInt(le16(d, p) as u64))
    } else if kind == 3 {
        fixed(d, p, 2, signed(le16(d, p) as int, 0x8000))
    } else if kind == 4 {
        fixed(d, p, 4, Json::UInt(le32(d, p) as u64))
    } else if kind == 5 {
        fixed(d, p, 4, signed(le32(d, p) as int, 0x8000_0000))
    } else if kind == 6 {
        fixed(d, p, 4, single_model(le32(d, p)))
    } else if kind == 7 {
        fixed(d, p, 1, Json::Bool(d[p] != 0))
    } else if kind == 8 {
        match gguf_string(d, p) {
            Ok((s, q)) => Ok((Json::Text(s), q)),
            Err(e) => Err(e),
        }
    } else if kind == 9 {
        if p + 12 > d.len() {
            Err(short_read())
        } else {
            match gguf_items(d, p + 12, le32(d, p), le64(d, p + 4) as int, Seq::empty()) {
                Ok((items, q)) => Ok((Json::Array(items), q)),
                Err(e) => Err(e),
            }
        }
    } else if kind == 10 {
        fixed(d, p, 8, Json::UInt(le64(d, p)))
    } else if kind == 11 {
        fixed(d, p, 8, signed(le64(d, p) as int, 0x8000_0000_0000_0000))
    } else if kind == 12 {
        fixed(d, p, 8, normal(Json::Float(le64(d, p))))
    } else {
        Err(unknown_type(kind))
    }
}

/// `n` more values of one type, behind those already read.
pub open spec fn gguf_items(d: Seq<u8>, p: int, kind: u32, n: int, done: Seq<Json>) -> Result<
    (Seq<Json>, int),
    Failure,
>
    decreases d.len() - p, 1int, n,
{
    if n <= 0 {
        Ok((done, p))
    } else {
        match gguf_value(d, p, kind) {
            Ok((v, q)) => if p < q <= d.len() {
                gguf_items(d, q, kind, n - 1, done.push(v))
            } else {
                Err(short_read())
            },
            Err(e) => Err(e),
        }
    }
}

/// A metadata entry: a key, the type of the value, and the value.
#[verifier::opaque]
pub open spec fn gguf_entry(d: Seq<u8>, p: int) -> Result<(Seq<char>, Json, int), Failure> {
    match gguf_string(d, p) {
        Err(e) => Err(e),
        Ok((key, q)) => if q + 4 > d.len() {
            Err(short_read())
        } else {
            match gguf_value(d, q + 4, le32(d, q)) {
                Err(e) => Err(e),
                Ok((v, r)) => Ok((key, v, r)),
            }
        },
    }
}

/// `n` more metadata entries, put into those already read. A key that comes
/// again keeps its last value.
pub open spec fn gguf_metadata(
    d: Seq<u8>,
    p: int,
    n: int,
    done: Seq<(Seq<char>, Json)>,
) -> Result<(Seq<(Seq<char>, Json)>, int), Failure>
    decreases n,
{
    if n <= 0 {
        Ok((done, p))
    } else {
        match gguf_entry(d, p) {
            Err(e) => Err(e),
            Ok((key, v, q)) => gguf_metadata(d, q, n - 1, object_put(done, key, v)),
        }
    }
}

/// What the directory says of one tensor.
#[verifier::ext_equal]
pub struct GgufRecord {
    pub name: Seq<char>,
    pub shape: Seq<u64>,
    pub ggml_type: u32,
    pub relative: u64,
}

/// The report of a tensor with too few or too many dimensions.
pub open spec fn bad_rank(name: Seq<char>, rank: u32) -> Failure {
    Failure::InvalidManifest(
        "GGUF tensor "@ + name + " has unsupported rank "@ + decimal_text(rank as nat),
    )
}

/// One entry of the tensor directory: a name, the number of dimensions, the
/// dimensions, a type and an offset.
pub open spec fn gguf_record(d: Seq<u8>, p: int) -> Result<(GgufRecord, int), Failure> {
    match gguf_string(d, p) {
        Err(e) => Err(e),
        Ok((name, q)) => if q + 4 > d.len() {
            Err(short_read())
        } else {
            let rank = le32(d, q);
            let end = q + 4 + 8 * rank;
            if rank == 0 || rank > MAX_TENSOR_RANK {
                Err(bad_rank(name, rank))
            } else if end + 12 > d.len() {
                Err(short_read())
            } else {
                Ok(
                    (
                        GgufRecord {
                            name,
                            shape: Seq::new(rank as nat, |i: int| le64(d, q + 4 + 8 * i)),
                            ggml_type: le32(d, end),
                            relative: le64(d, end + 4),
                        },
                        end + 12,
                    ),
                )
            }
        },
    }
}

/// `n` more entries of the tensor directory, behind those already read.
pub open spec fn gguf_directory(d: Seq<u8>, p: int, n: int, done: Seq<GgufRecord>) -> Result<
    (Seq<GgufRecord>, int),
    Failure,
>
    decreases n,
{
    if n <= 0 {
        Ok((done, p))
    } else {
        match gguf_record(d, p) {
            Err(e) => Err(e),
            Ok((r, q)) => gguf_directory(d, q, n - 1, done.push(r)),
        }
    }
}

/// The element type that stands for a type of the directory. The block types
/// are told apart by their width alone, and a type without one counts bytes.
pub open spec fn dtype_of_ggml(t: u32) -> DType {
    if t == 0 {
        DType::F32
    } else if t == 1 {
        DType::F16
    } else if t == 2 || t == 3 || 12 <= t <= 18 {
        DType::Q4
    } else if t == 8 || t == 10 || t == 11 || 19 <= t <= 22 {
        DType::Q8
    } else if t == 24 {
        DType::I8
    } else if t == 25 {
        DType::I16
    } else if t == 26 {
        DType::I32
    } else {
        DType::U8
    }
}

/// The smallest of the offsets that lies above `at`.
pub open spec fn smallest_above(offsets: Seq<int>, at: int) -> Option<int>
    decreases offsets.len(),
{
    if offsets.len() == 0 {
        None
    } else {
        let x = offsets.last();
        match smallest_above(offsets.drop_last(), at) {
            None => if x > at {
                Some(x)
            } else {
                None
            },
            Some(y) => if at < x < y {
                Some(x)
            } else {
                Some(y)
            },
        }
    }
}

/// The result is one of the offsets, lies above `at`, and nothing lies between;
/// there is none only where no offset lies above `at`.
pub proof fn lemma_smallest_above(offsets: Seq<int>, at: int)
    ensures
        match smallest_above(offsets, at) {
            Some(y) => offsets.contains(y) && y > at && (forall|i: int|
                0 <= i < offsets.len() && #[trigger] offsets[i] > at ==> offsets[i] >= y),
            None => forall|i: int| 0 <= i < offsets.len() ==> #[trigger] offsets[i] <= at,
        },
    decreases offsets.len(),
{
    if offsets.len() > 0 {
        let rest = offsets.drop_last();
        lemma_smallest_above(rest, at);
        assert forall|i: int| 0 <= i < offsets.len() - 1 implies offsets[i] == rest[i] by {}
        match smallest_above(rest, at) {
            Some(y) => {
                let k = rest.index_of(y);
                assert(offsets[k] == y);
            },
            None => {},
        }
        assert(offsets[offsets.len() - 1] == offsets.last());
    }
}

/// A tensor of a GGUF file.
#[verifier::ext_equal]
pub struct GgufTensor {
    pub name: Seq<char>,
    pub ggml_type: u32,
    pub dtype: DType,
    pub shape: Seq<u64>,
    pub data_offset: u64,
    pub data_size: u64,
}

/// Where the tensors of the directory begin.
pub open spec fn offsets_of(records: Seq<GgufRecord>, start: int) -> Seq<int> {
    Seq::new(records.len(), |i: int| start + records[i].relative)
}

/// A tensor reaches to where the next one begins, the last one to the end of
/// the file.
pub open spec fn gguf_tensor(r: GgufRecord, offsets: Seq<int>, start: int, file_len: int) -> Result<
    GgufTensor,
    Failure,
> {
    let at = start + r.relative;
    let next = match smallest_above(offsets, at) {
        Some(y) => y,
        None => file_len,
    };
    if at > file_len || next > file_len {
        Err(eof(next, file_len))
    } else {
        Ok(
            GgufTensor {
                name: r.name,
                ggml_type: r.ggml_type,
                dtype: dtype_of_ggml(r.ggml_type),
                shape: r.shape,
                data_offset: at as u64,
                data_size: (next - at) as u64,
            },
        )
    }
}

/// The tensors of the directory from the `k`th on, behind those already placed.
pub open spec fn gguf_tensors(
    records: Seq<GgufRecord>,
    start: int,
    file_len: int,
    k: int,
    done: Seq<GgufTensor>,
) -> Result<Seq<GgufTensor>, Failure>
    decreases records.len() - k,
{
    if k >= records.len() {
        Ok(done)
    } else {
        match gguf_tensor(records[k], offsets_of(records, start), start, file_len) {
            Err(e) => Err(e),
            Ok(t) => gguf_tensors(records, start, file_len, k + 1, done.push(t)),
        }
    }
}

/// The alignment of the tensor data.
pub open spec fn gguf_alignment(metadata: Seq<(Seq<char>, Json)>) -> int {
    match uint_of(object_get(metadata, "general.alignment"@)) {
        Some(n) => if n == 0 {
            1
        } else {
            n as int
        },
        None => 32,
    }
}

/// What a GGUF file holds.
#[verifier::ext_equal]
pub struct GgufModel {
    pub version: u32,
    pub tensor_count: u64,
    pub metadata: Seq<(Seq<char>, Json)>,
    pub tensors: Seq<GgufTensor>,
}

/// The report of a file that does not begin with the four letters.
pub open spec fn bad_magic(d: Seq<u8>) -> Failure {
    Failure::InvalidManifest(
        "invalid GGUF magic: expected GGUF, got ["@ + decimal_text(d[0] as nat) + ", "@
            + decimal_text(d[1] as nat) + ", "@ + decimal_text(d[2] as nat) + ", "@ + decimal_text(
            d[3] as nat,
        ) + "]"@,
    )
}

/// What the bytes of a GGUF file hold, or why they are none.
pub open spec fn gguf_file(d: Seq<u8>) -> Result<GgufModel, Failure> {
    if d.len() < 4 {
        Err(short_read())
    } else if !(d[0] == 0x47 && d[1] == 0x47 && d[2] == 0x55 && d[3] == 0x46) {
        Err(bad_magic(d))
    } else if d.len() < 8 {
        Err(short_read())
    } else if le32(d, 4) != 2 && le32(d, 4) != 3 {
        Err(Failure::UnsupportedVersion(le32(d, 4)))
    } else if d.len() < 24 {
        Err(short_read())
    } else {
        match gguf_metadata(d, 24, le64(d, 16) as int, Seq::empty()) {
            Err(e) => Err(e),
            Ok((metadata, p)) => match gguf_directory(d, p, le64(d, 8) as int, Seq::empty()) {
                Err(e) => Err(e),
                Ok((records, q)) => {
                    let start = align_up_int(q, gguf_alignment(metadata));
                    match gguf_tensors(records, start, d.len() as int, 0, Seq::empty()) {
                        Err(e) => Err(e),
                        Ok(tensors) => Ok(
                            GgufModel {
                                version: le32(d, 4),
                                tensor_count: le64(d, 8),
                                metadata,
                                tensors,
                            },
                        ),
                    }
                },
            },
        }
    }
}

// ── Where reading leads ─────────────────────────────────────────────
/// A value takes at least one byte and ends within the data.
proof fn lemma_value_advances(d: Seq<u8>, p: int, kind: u32)
    requires
        0 <= p,
    ensures
        gguf_value(d, p, kind) matches Ok((v, q)) ==> p < q <= d.len(),
    decreases d.len() - p, 0int, 0int,
{
    if kind == 9 && p + 12 <= d.len() {
        lemma_items_advance(d, p + 12, le32(d, p), le64(d, p + 4) as int, Seq::empty());
    }
}

proof fn lemma_items_advance(d: Seq<u8>, p: int, kind: u32, n: int, done: Seq<Json>)
    requires
        0 <= p <= d.len(),
    ensures
        gguf_items(d, p, kind, n, done) matches Ok((v, q)) ==> p <= q <= d.len(),
    decreases d.len() - p, 1int, n,
{
    if n > 0 {
        if let Ok((v, q)) = gguf_value(d, p, kind) {
            if p < q <= d.len() {
                lemma_items_advance(d, q, kind, n - 1, done.push(v));
            }
        }
    }
}

proof fn lemma_metadata_advances(d: Seq<u8>, p: int, n: int, done: Seq<(Seq<char>, Json)>)
    requires
        0 <= p,
    ensures
        gguf_metadata(d, p, n, done) matches Ok((v, q)) ==> p <= q,
    decreases n,
{
    if n > 0 {
        reveal(gguf_entry);
        if let Ok((key, q)) = gguf_string(d, p) {
            lemma_value_advances(d, q + 4, le32(d, q));
        }
        if let Ok((key, v, q)) = gguf_entry(d, p) {
            lemma_metadata_advances(d, q, n - 1, object_put(done, key, v));
        }
    }
}

proof fn lemma_directory_advances(d: Seq<u8>, p: int, n: int, done: Seq<GgufRecord>)
    requires
        0 <= p,
    ensures
        gguf_directory(d, p, n, done) matches Ok((v, q)) ==> p <= q,
    decreases n,
{
    if n > 0 {
        if let Ok((r, q)) = gguf_record(d, p) {
            lemma_directory_advances(d, q, n - 1, done.push(r));
        }
    }
}

// ── Reading ─────────────────────────────────────────────────────────
/// A string and the place behind it.
fn read_gguf_string(d: &[u8], p: usize) -> (r: AxonResult<(String, usize)>)
    requires
        p <= d@.len(),
    ensures
        match r {
            Ok(x) => gguf_string(d@, p as int) == Ok::<(Seq<char>, int), Failure>(
                (x.0@, x.1 as int),
            ) && p < x.1 <= d@.len(),
            Err(e) => gguf_string(d@, p as int) == Err::<(Seq<char>, int), Failure>(e@),
        },
{
    let n = d.len();
    let len = get_u64(d, p)?;
    let start = p + 8;
    let end = start as u128 + len as u128;
    if end > u64::MAX as u128 {
        return Err(invalid("GGUF string length overflow"));
    }
    if end > n as u128 {
        return Err(AxonError::UnexpectedEof { needed: clamp(end), available: n as u64 });
    }
    let end = end as usize;
    let text = from_utf8_lossy(slice(d, start, end));
    Ok((text, end))
}

/// The two's complement integer `v`, in a width whose sign bit counts `half`.
fn signed_value(v: u64, half: u64) -> (r: JsonValue)
    requires
        v < 2 * half,
        half <= 0x8000_0000_0000_0000,
    ensures
        r@ == signed(v as int, half as int),
{
    if v < half {
        JsonValue::UInt(v)
    } else {
        JsonValue::Int((v as i128 - 2 * half as i128) as i64)
    }
}

/// What a value and the place behind it stand for.
pub open spec fn read_value(r: AxonResult<(JsonValue, usize)>) -> Result<(Json, int), Failure> {
    match r {
        Ok(x) => Ok((x.0@, x.1 as int)),
        Err(e) => Err(e@),
    }
}

/// A metadata value of the given type, and the place behind it.
fn read_gguf_value(d: &[u8], p: usize, kind: u32) -> (r: AxonResult<(JsonValue, usize)>)
    requires
        p <= d@.len(),
    ensures
        read_value(r) == gguf_value(d@, p as int, kind),
        r matches Ok(x) ==> p < x.1 <= d@.len(),
    decreases d@.len() - p, 0int, 0int,
{
    broadcast use lemma_view;

    proof {
        lemma_value_advances(d@, p as int, kind);
        assert(d@.len() == d.len());
    }
    match kind {
        0 => {
            let v = get_u8(d, p)?;
            Ok((JsonValue::UInt(v as u64), p + 1))
        },
        1 => {
            let v = get_u8(d, p)?;
            Ok((signed_value(v as u64, 0x80), p + 1))
        },
        2 => {
            let v = get_u16(d, p)?;
            Ok((JsonValue::UInt(v as u64), p + 2))
        },
        3 => {
            let v = get_u16(d, p)?;
            Ok((signed_value(v as u64, 0x8000), p + 2))
        },
        4 => {
            let v = get_u32(d, p)?;
            Ok((JsonValue::UInt(v as u64), p + 4))
        },
        5 => {
            let v = get_u32(d, p)?;
            Ok((signed_value(v as u64, 0x8000_0000), p + 4))
        },
        6 => {
            let v = get_u32(d, p)?;
            Ok((json_single(v), p + 4))
        },
        7 => {
            let v = get_u8(d, p)?;
            Ok((JsonValue::Bool(v != 0), p + 1))
        },
        8 => {
            let (s, q) = read_gguf_string(d, p)?;
            Ok((JsonValue::Text(s), q))
        },
        9 => {
            let item = get_u32(d, p)?;
            let count = get_u64(d, p + 4)?;
            let (items, q) = read_gguf_items(d, p + 12, item, count)?;
            Ok((JsonValue::Array(items), q))
        },
        10 => {
            let v = get_u64(d, p)?;
            Ok((JsonValue::UInt(v), p + 8))
        },
        11 => {
            let v = get_u64(d, p)?;
            Ok((signed_value(v, 0x8000_0000_0000_0000), p + 8))
        },
        12 => {
            let v = get_u64(d, p)?;
            if v / 0x10_0000_0000_0000 % 0x800 != 0x7ff {
                Ok((JsonValue::Float(v), p + 8))
            } else {
                Ok((JsonValue::Null, p + 8))
            }
        },
        _ => Err(
            AxonError::InvalidManifest(
                concat2("unsupported GGUF metadata value type ", decimal(kind as u64).as_str()),
            ),
        ),
    }
}

/// `count` values of one type, and the place behind them.
fn read_gguf_items(d: &[u8], p: usize, kind: u32, count: u64) -> (r: AxonResult<
    (Vec<JsonValue>, usize),
>)
    requires
        p <= d@.len(),
    ensures
        match r {
            Ok(x) => gguf_items(d@, p as int, kind, count as int, Seq::empty()) == Ok::<
                (Seq<Json>, int),
                Failure,
            >((models(x.0@), x.1 as int)),
            Err(e) => gguf_items(d@, p as int, kind, count as int, Seq::empty()) == Err::<
                (Seq<Json>, int),
                Failure,
            >(e@),
        },
    decreases d@.len() - p, 1int, 0int,
{
    let mut items: Vec<JsonValue> = Vec::new();
    let mut q: usize = p;
    let mut i: u64 = 0;
    assert(models(items@) =~= Seq::empty());
    while i < count
        invariant
            i <= count,
            p <= q <= d@.len(),
            gguf_items(d@, p as int, kind, count as int, Seq::empty()) == gguf_items(
                d@,
                q as int,
                kind,
                count - i,
                models(items@),
            ),
        decreases count - i,
    {
        let (v, next) = read_gguf_value(d, q, kind)?;
        proof {
            lemma_models_push(items@, v);
        }
        items.push(v);
        q = next;
        i += 1;
    }
    Ok((items, q))
}

/// A metadata entry and the place behind it.
fn read_gguf_entry(d: &[u8], p: usize) -> (r: AxonResult<(String, JsonValue, usize)>)
    requires
        p <= d@.len(),
    ensures
        match r {
            Ok(x) => gguf_entry(d@, p as int) == Ok::<(Seq<char>, Json, int), Failure>(
                (x.0@, x.1@, x.2 as int),
            ) && x.2 <= d@.len(),
            Err(e) => gguf_entry(d@, p as int) == Err::<(Seq<char>, Json, int), Failure>(e@),
        },
{
    proof {
        reveal(gguf_entry);
        assert(d@.len() == d.len());
    }
    let (key, at) = read_gguf_string(d, p)?;
    let kind = get_u32(d, at)?;
    let (value, next) = read_gguf_value(d, at + 4, kind)?;
    Ok((key, value, next))
}

/// The metadata entries, `count` of them, and the place behind them.
fn read_gguf_metadata(d: &[u8], p: usize, count: u64) -> (r: AxonResult<
    (Vec<(String, JsonValue)>, usize),
>)
    requires
        p <= d@.len(),
    ensures
        match r {
            Ok(x) => gguf_metadata(d@, p as int, count as int, Seq::empty()) == Ok::<
                (Seq<(Seq<char>, Json)>, int),
                Failure,
            >((entry_models(x.0@), x.1 as int)) && x.1 <= d@.len(),
            Err(e) => gguf_metadata(d@, p as int, count as int, Seq::empty()) == Err::<
                (Seq<(Seq<char>, Json)>, int),
                Failure,
            >(e@),
        },
{
    let mut entries: Vec<(String, JsonValue)> = Vec::new();
    let mut q: usize = p;
    let mut i: u64 = 0;
    assert(entry_models(entries@) =~= Seq::empty());
    while i < count
        invariant
            i <= count,
            q <= d@.len(),
            gguf_metadata(d@, p as int, count as int, Seq::empty()) == gguf_metadata(
                d@,
                q as int,
                count - i,
                entry_models(entries@),
            ),
        decreases count - i,
    {
        let (key, value, next) = read_gguf_entry(d, q)?;
        object_insert(&mut entries, key, value);
        q = next;
        i += 1;
    }
    Ok((entries, q))
}

/// One entry of the tensor directory.
struct DirectoryEntry {
    name: String,
    shape: Vec<u64>,
    ggml_type: u32,
    relative: u64,
}

impl DirectoryEntry {
    spec fn record(self) -> GgufRecord {
        GgufRecord {
            name: self.name@,
            shape: self.shape@,
            ggml_type: self.ggml_type,
            relative: self.relative,
        }
    }
}

spec fn records(v: Seq<DirectoryEntry>) -> Seq<GgufRecord> {
    Seq::new(v.len(), |i: int| v[i].record())
}

/// An entry of the tensor directory and the place behind it.
fn read_gguf_record(d: &[u8], p: usize) -> (r: AxonResult<(DirectoryEntry, usize)>)
    requires
        p <= d@.len(),
    ensures
        match r {
            Ok(x) => gguf_record(d@, p as int) == Ok::<(GgufRecord, int), Failure>(
                (x.0.record(), x.1 as int),
            ) && x.1 <= d@.len(),
            Err(e) => gguf_record(d@, p as int) == Err::<(GgufRecord, int), Failure>(e@),
        },
{
    assert(d@.len() == d.len());
    let (name, q) = read_gguf_string(d, p)?;
    let rank = get_u32(d, q)?;
    if rank == 0 || rank as usize > MAX_TENSOR_RANK {
        return Err(
            AxonError::InvalidManifest(
                concat4(
                    "GGUF tensor ",
                    name.as_str(),
                    " has unsupported rank ",
                    decimal(rank as u64).as_str(),
                ),
            ),
        );
    }
    let mut shape: Vec<u64> = Vec::new();
    let mut at: usize = q + 4;
    let mut i: u32 = 0;
    while i < rank
        invariant
            i <= rank <= MAX_TENSOR_RANK,
            at == q + 4 + 8 * i,
            at <= d@.len(),
            d@.len() == d.len(),
            shape@ == Seq::new(i as nat, |j: int| le64(d@, q + 4 + 8 * j)),
            gguf_string(d@, p as int) == Ok::<(Seq<char>, int), Failure>((name@, q as int)),
            q + 4 <= d@.len(),
            rank == le32(d@, q as int),
            rank != 0,
        decreases rank - i,
    {
        let dim = get_u64(d, at)?;
        shape.push(dim);
        at = at + 8;
        i += 1;
        assert(shape@ =~= Seq::new(i as nat, |j: int| le64(d@, q + 4 + 8 * j)));
    }
    let ggml_type = get_u32(d, at)?;
    let relative = get_u64(d, at + 4)?;
    Ok((DirectoryEntry { name, shape, ggml_type, relative }, at + 12))
}

/// The tensor directory of `count` entries, and the place behind it.
fn read_gguf_directory(d: &[u8], p: usize, count: u64) -> (r: AxonResult<
    (Vec<DirectoryEntry>, usize),
>)
    requires
        p <= d@.len(),
    ensures
        match r {
            Ok(x) => gguf_directory(d@, p as int, count as int, Seq::empty()) == Ok::<
                (Seq<GgufRecord>, int),
                Failure,
            >((records(x.0@), x.1 as int)) && x.1 <= d@.len(),
            Err(e) => gguf_directory(d@, p as int, count as int, Seq::empty()) == Err::<
                (Seq<GgufRecord>, int),
                Failure,
            >(e@),
        },
{
    let mut entries: Vec<DirectoryEntry> = Vec::new();
    let mut q: usize = p;
    let mut i: u64 = 0;
    assert(records(entries@) =~= Seq::empty());
    while i < count
        invariant
            i <= count,
            q <= d@.len(),
            gguf_directory(d@, p as int, count as int, Seq::empty()) == gguf_directory(
                d@,
                q as int,
                count - i,
                records(entries@),
            ),
        decreases count - i,
    {
        let (entry, next) = read_gguf_record(d, q)?;
        proof {
            assert(records(entries@.push(entry)) =~= records(entries@).push(entry.record()));
        }
        entries.push(entry);
        q = next;
        i += 1;
    }
    Ok((entries, q))
}

/// The element type that stands for a type of the directory.
fn ggml_type_to_dtype(t: u32) -> (r: DType)
    ensures
        r == dtype_of_ggml(t),
{
    match t {
        0 => DType::F32,
        1 => DType::F16,
        2 | 3 | 12 | 13 | 14 | 15 | 16 | 17 | 18 => DType::Q4,
        8 | 10 | 11 | 19 | 20 | 21 | 22 => DType::Q8,
        24 => DType::I8,
        25 => DType::I16,
        26 => DType::I32,
        _ => DType::U8,
    }
}

/// A tensor of a GGUF file.
#[derive(Debug)]
pub struct GgufTensorEntry {
    /// The tensor's name.
    pub name: String,
    /// The number that the file gives its type.
    pub ggml_type: u32,
    /// The element type that stands for it.
    pub dtype: DType,
    /// The dimensions.
    pub shape: Vec<u64>,
    /// Where in the file its bytes begin.
    pub data_offset: u64,
    /// How many bytes it has.
    pub data_size: u64,
}

impl View for GgufTensorEntry {
    type V = GgufTensor;

    open spec fn view(&self) -> GgufTensor {
        GgufTensor {
            name: self.name@,
            ggml_type: self.ggml_type,
            dtype: self.dtype,
            shape: self.shape@,
            data_offset: self.data_offset,
            data_size: self.data_size,
        }
    }
}

/// What a row of tensors stands for.
pub open spec fn tensor_models(v: Seq<GgufTensorEntry>) -> Seq<GgufTensor> {
    Seq::new(v.len(), |i: int| v[i]@)
}

/// The smallest offset above `at` at which an entry of the directory begins.
fn next_offset(entries: &Vec<DirectoryEntry>, start: u128, at: u128) -> (r: Option<u128>)
    requires
        start <= 2 * u64::MAX,
    ensures
        match r {
            Some(y) => smallest_above(offsets_of(records(entries@), start as int), at as int)
                == Some(y as int),
            None => smallest_above(offsets_of(records(entries@), start as int), at as int) is None,
        },
{
    let mut best: Option<u128> = None;
    let mut i: usize = 0;
    let ghost all = offsets_of(records(entries@), start as int);
    assert(all.take(0) =~= Seq::empty());
    while i < entries.len()
        invariant
            i <= entries@.len(),
            start <= 2 * u64::MAX,
            all == offsets_of(records(entries@), start as int),
            match best {
                Some(y) => smallest_above(all.take(i as int), at as int) == Some(y as int),
                None => smallest_above(all.take(i as int), at as int) is None,
            },
        decreases entries@.len() - i,
    {
        let x = start + entries[i].relative as u128;
        proof {
            assert(all.take(i + 1).drop_last() =~= all.take(i as int));
            assert(all.take(i + 1).last() == x);
        }
        match best {
            None => {
                if x > at {
                    best = Some(x);
                }
            },
            Some(y) => {
                if at < x && x < y {
                    best = Some(x);
                }
            },
        }
        i += 1;
    }
    assert(all.take(i as int) =~= all);
    best
}

/// Gives every entry of the directory its place in the file.
fn place_tensors(entries: Vec<DirectoryEntry>, start: u128, file_len: u64) -> (r: AxonResult<
    Vec<GgufTensorEntry>,
>)
    requires
        start <= 2 * u64::MAX,
    ensures
        match r {
            Ok(v) => gguf_tensors(records(entries@), start as int, file_len as int, 0, Seq::empty())
                == Ok::<Seq<GgufTensor>, Failure>(tensor_models(v@)),
            Err(e) => gguf_tensors(records(entries@), start as int, file_len as int, 0, Seq::empty())
                == Err::<Seq<GgufTensor>, Failure>(e@),
        },
{
    let mut out: Vec<GgufTensorEntry> = Vec::new();
    let mut i: usize = 0;
    let ghost all = records(entries@);
    assert(tensor_models(out@) =~= Seq::empty());
    while i < entries.len()
        invariant
            i <= entries@.len(),
            start <= 2 * u64::MAX,
            all == records(entries@),
            gguf_tensors(all, start as int, file_len as int, 0, Seq::empty()) == gguf_tensors(
                all,
                start as int,
                file_len as int,
                i as int,
                tensor_models(out@),
            ),
        decreases entries@.len() - i,
    {
        let at = start + entries[i].relative as u128;
        let next = match next_offset(&entries, start, at) {
            Some(y) => y,
            None => file_len as u128,
        };
        proof {
            lemma_smallest_above(offsets_of(all, start as int), at as int);
            assert(all[i as int] == entries@[i as int].record());
        }
        if at > file_len as u128 || next > file_len as u128 {
            return Err(AxonError::UnexpectedEof { needed: clamp(next), available: file_len });
        }
        let entry = GgufTensorEntry {
            name: entries[i].name.clone(),
            ggml_type: entries[i].ggml_type,
            dtype: ggml_type_to_dtype(entries[i].ggml_type),
            shape: crate::slices::copy_u64(entries[i].shape.as_slice()),
            data_offset: at as u64,
            data_size: (next - at) as u64,
        };
        proof {
            assert(tensor_models(out@.push(entry)) =~= tensor_models(out@).push(entry@));
        }
        out.push(entry);
        i += 1;
    }
    Ok(out)
}

/// A GGUF file: its header, its metadata and its tensors.
#[derive(Debug)]
pub struct GgufHeader {
    /// The version of the format.
    pub version: u32,
    /// How many tensors the file announces.
    pub tensor_count: u64,
    /// The metadata, in the order of the keys.
    pub metadata: Vec<(String, JsonValue)>,
    /// The tensors, in the order of the directory.
    pub tensors: Vec<GgufTensorEntry>,
}

impl View for GgufHeader {
    type V = GgufModel;

    open spec fn view(&self) -> GgufModel {
        GgufModel {
            version: self.version,
            tensor_count: self.tensor_count,
            metadata: entry_models(self.metadata@),
            tensors: tensor_models(self.tensors@),
        }
    }
}

/// Reads the header, the metadata and the tensor directory of a GGUF file of
/// version 2 or 3. The bytes of the tensors are not looked at.
pub fn parse_gguf_header(d: &[u8]) -> (r: AxonResult<GgufHeader>)
    ensures
        match r {
            Ok(h) => gguf_file(d@) == Ok::<GgufModel, Failure>(h@),
            Err(e) => gguf_file(d@) == Err::<GgufModel, Failure>(e@),
        },
{
    if d.len() < 4 {
        return Err(short_read_error());
    }
    if !(d[0] == 0x47 && d[1] == 0x47 && d[2] == 0x55 && d[3] == 0x46) {
        let mut m = "invalid GGUF magic: expected GGUF, got [".to_owned();
        m.append(decimal(d[0] as u64).as_str());
        m.append(", ");
        m.append(decimal(d[1] as u64).as_str());
        m.append(", ");
        m.append(decimal(d[2] as u64).as_str());
        m.append(", ");
        m.append(decimal(d[3] as u64).as_str());
        m.append("]");
        return Err(AxonError::InvalidManifest(m));
    }
    let version = get_u32(d, 4)?;
    if version != 2 && version != 3 {
        return Err(AxonError::UnsupportedVersion(version));
    }
    let tensor_count = get_u64(d, 8)?;
    let metadata_count = get_u64(d, 16)?;
    let (metadata, p) = read_gguf_metadata(d, 24, metadata_count)?;
    let (entries, q) = read_gguf_directory(d, p, tensor_count)?;
    let alignment = data_alignment(&metadata);
    let blocks = (q as u128 + alignment as u128 - 1) / alignment as u128;
    proof {
        lemma_align_up(q as int, alignment as int);
    }
    let start = blocks * alignment as u128;
    let tensors = place_tensors(entries, start, d.len() as u64)?;
    Ok(GgufHeader { version, tensor_count, metadata, tensors })
}

/// The alignment of the tensor data.
fn data_alignment(metadata: &Vec<(String, JsonValue)>) -> (r: u64)
    ensures
        r == gguf_alignment(entry_models(metadata@)),
        r > 0,
{
    match object_find(metadata, "general.alignment") {
        Some(v) => match v.as_u64() {
            Some(n) => if n == 0 {
                1
            } else {
                n
            },
            None => 32,
        },
        None => 32,
    }
}

// ── Laws ────────────────────────────────────────────────────────────
/// The bytes of every tensor lie within the file.
pub proof fn lemma_tensors_in_file(d: Seq<u8>, h: GgufModel, i: int)
    requires
        d.len() <= u64::MAX,
        gguf_file(d) == Ok::<GgufModel, Failure>(h),
        0 <= i < h.tensors.len(),
    ensures
        h.tensors[i].data_offset + h.tensors[i].data_size <= d.len(),
{
    let (metadata, p) = gguf_metadata(d, 24, le64(d, 16) as int, Seq::empty())->Ok_0;
    let (recs, q) = gguf_directory(d, p, le64(d, 8) as int, Seq::empty())->Ok_0;
    let start = align_up_int(q, gguf_alignment(metadata));
    lemma_metadata_advances(d, 24, le64(d, 16) as int, Seq::empty());
    lemma_directory_advances(d, p, le64(d, 8) as int, Seq::empty());
    lemma_align_up(q, gguf_alignment(metadata));
    lemma_placed_in_file(recs, start, d.len() as int, 0, Seq::empty(), i);
}

proof fn lemma_placed_in_file(
    recs: Seq<GgufRecord>,
    start: int,
    file_len: int,
    k: int,
    done: Seq<GgufTensor>,
    i: int,
)
    requires
        0 <= start,
        0 <= file_len <= u64::MAX,
        0 <= k,
        gguf_tensors(recs, start, file_len, k, done) is Ok,
        forall|j: int|
            0 <= j < done.len() ==> (#[trigger] done[j]).data_offset + done[j].data_size
                <= file_len,
        0 <= i < gguf_tensors(recs, start, file_len, k, done)->Ok_0.len(),
    ensures
        gguf_tensors(recs, start, file_len, k, done)->Ok_0[i].data_offset + gguf_tensors(
            recs,
            start,
            file_len,
            k,
            done,
        )->Ok_0[i].data_size <= file_len,
    decreases recs.len() - k,
{
    if k < recs.len() {
        let t = gguf_tensor(recs[k], offsets_of(recs, start), start, file_len)->Ok_0;
        let at = start + recs[k].relative;
        lemma_smallest_above(offsets_of(recs, start), at);
        lemma_placed_in_file(recs, start, file_len, k + 1, done.push(t), i);
    }
}

/// The element type of an imported tensor agrees with the number of its type. Plain
/// numbers keep their format and their width, four-bit and eight-bit blocks keep
/// theirs, and every other type is taken as bytes.
pub proof fn lemma_ggml_types(t: u32)
    ensures
        dtype_of_ggml(t) == DType::F32 <==> t == 0,
        dtype_of_ggml(t) == DType::F16 <==> t == 1,
        dtype_of_ggml(t) == DType::Q4 <==> t == 2 || t == 3 || 12 <= t <= 18,
        dtype_of_ggml(t) == DType::Q8 <==> t == 8 || t == 10 || t == 11 || 19 <= t <= 22,
        dtype_of_ggml(t) == DType::I8 <==> t == 24,
        dtype_of_ggml(t) == DType::I16 <==> t == 25,
        dtype_of_ggml(t) == DType::I32 <==> t == 26,
        dtype_of_ggml(t) == DType::U8 <==> 4 <= t <= 7 || t == 9 || t == 23 || t > 26,
        t == 0 || t == 26 ==> dtype_size(dtype_of_ggml(t)) == 4,
        t == 1 || t == 25 ==> dtype_size(dtype_of_ggml(t)) == 2,
        t == 24 ==> dtype_size(dtype_of_ggml(t)) == 1,
        t == 2 ==> block_bytes(dtype_of_ggml(t)) == 18 && block_values(dtype_of_ggml(t))
            == 32,
        t == 8 ==> block_bytes(dtype_of_ggml(t)) == 34 && block_values(dtype_of_ggml(t)) == 32,
{
}

/// The bytes of a text in a GGUF file: how many there are, and the text.
pub open spec fn gguf_text_bytes(text: Seq<u8>) -> Seq<u8> {
    le64_bytes(text.len() as u64) + text
}

/// The bytes of an entry of the tensor directory.
pub open spec fn gguf_record_bytes(
    name: Seq<u8>,
    shape: Seq<u64>,
    ggml_type: u32,
    relative: u64,
) -> Seq<u8> {
    gguf_text_bytes(name) + le32_bytes(shape.len() as u32) + shape_bytes(shape) + le32_bytes(
        ggml_type,
    ) + le64_bytes(relative)
}

/// A text that was written is read, wherever it stands.
pub proof fn lemma_text_read(d: Seq<u8>, p: int, text: Seq<u8>)
    requires
        0 <= p,
        p + 8 + text.len() <= d.len() <= u64::MAX,
        d.subrange(p, p + 8 + text.len()) == gguf_text_bytes(text),
    ensures
        gguf_string(d, p) == Ok::<(Seq<char>, int), Failure>(
            (utf8_lossy(text), p + 8 + text.len()),
        ),
{
    let own = d.subrange(p, p + 8 + text.len());
    assert(d.subrange(p, p + 8) =~= own.subrange(0, 8));
    assert(own.subrange(0, 8) =~= le64_bytes(text.len() as u64));
    lemma_le64_roundtrip(d, p, text.len() as u64);
    assert(d.subrange(p + 8, p + 8 + text.len()) =~= own.subrange(8, own.len() as int));
    assert(own.subrange(8, own.len() as int) =~= text);
}

proof fn lemma_shape_read(d: Seq<u8>, p: int, shape: Seq<u64>)
    requires
        0 <= p,
        p + 8 * shape.len() <= d.len(),
        d.subrange(p, p + 8 * shape.len()) == shape_bytes(shape),
    ensures
        shape_bytes(shape).len() == 8 * shape.len(),
        forall|i: int| 0 <= i < shape.len() ==> #[trigger] le64(d, p + 8 * i) == shape[i],
    decreases shape.len(),
{
    if shape.len() > 0 {
        let own = shape_bytes(shape);
        let n = shape.len() - 1;
        let before = shape_bytes(shape.drop_last());
        assert(own.len() == 8 * shape.len());
        assert(before.len() == 8 * n);
        assert(d.subrange(p, p + 8 * n) =~= own.subrange(0, 8 * n));
        assert(own.subrange(0, 8 * n) =~= before);
        lemma_shape_read(d, p, shape.drop_last());
        assert(d.subrange(p + 8 * n, p + 8 * n + 8) =~= own.subrange(8 * n, 8 * n + 8));
        assert(own.subrange(8 * n, 8 * n + 8) =~= le64_bytes(shape.last()));
        lemma_le64_roundtrip(d, p + 8 * n, shape.last());
        assert forall|i: int| 0 <= i < shape.len() implies #[trigger] le64(d, p + 8 * i)
            == shape[i] by {
            if i < n {
                assert(le64(d, p + 8 * i) == shape.drop_last()[i]);
            }
        }
    }
}

/// An entry of the tensor directory that was written is read, wherever it stands: its
/// name, its dimensions, its type and where its data begin.
pub proof fn lemma_record_read(
    d: Seq<u8>,
    p: int,
    name: Seq<u8>,
    shape: Seq<u64>,
    ggml_type: u32,
    relative: u64,
)
    requires
        0 <= p,
        0 < shape.len() <= MAX_TENSOR_RANK,
        p + 24 + name.len() + 8 * shape.len() <= d.len() <= u64::MAX,
        d.subrange(p, p + 24 + name.len() + 8 * shape.len()) == gguf_record_bytes(
            name,
            shape,
            ggml_type,
            relative,
        ),
    ensures
        gguf_record(d, p) == Ok::<(GgufRecord, int), Failure>(
            (
                GgufRecord { name: utf8_lossy(name), shape, ggml_type, relative },
                p + 24 + name.len() + 8 * shape.len(),
            ),
        ),
{
    let (a, b, c) = (8 + name.len() as int, 12 + name.len() as int, 8 * shape.len() as int);
    let own = d.subrange(p, p + b + c + 12);
    let all = gguf_record_bytes(name, shape, ggml_type, relative);
    assert(own == all);
    lemma_shape_len(shape);
    assert(d.subrange(p, p + a) =~= own.subrange(0, a));
    assert(all.subrange(0, a) =~= gguf_text_bytes(name));
    lemma_text_read(d, p, name);
    assert(d.subrange(p + a, p + b) =~= own.subrange(a, b));
    assert(all.subrange(a, b) =~= le32_bytes(shape.len() as u32));
    lemma_le32_roundtrip(d, p + a, shape.len() as u32);
    assert(d.subrange(p + b, p + b + c) =~= own.subrange(b, b + c));
    assert(all.subrange(b, b + c) =~= shape_bytes(shape));
    lemma_shape_read(d, p + b, shape);
    assert(d.subrange(p + b + c, p + b + c + 4) =~= own.subrange(b + c, b + c + 4));
    assert(all.subrange(b + c, b + c + 4) =~= le32_bytes(ggml_type));
    lemma_le32_roundtrip(d, p + b + c, ggml_type);
    assert(d.subrange(p + b + c + 4, p + b + c + 12) =~= own.subrange(b + c + 4, b + c + 12));
    assert(all.subrange(b + c + 4, b + c + 12) =~= le64_bytes(relative));
    lemma_le64_roundtrip(d, p + b + c + 4, relative);
    assert(Seq::new(shape.len(), |i: int| le64(d, p + b + 8 * i)) =~= shape);
}

proof fn lemma_shape_len(shape: Seq<u64>)
    ensures
        shape_bytes(shape).len() == 8 * shape.len(),
    decreases shape.len(),
{
    if shape.len() > 0 {
        lemma_shape_len(shape.drop_last());
    }
}

/// Every entry of the directory becomes a tensor, in its place, with its name, its
/// dimensions and its type. Its data begin where the entry says, counted from where
/// all data begin, and reach to the next place where some tensor's data begin, or to
/// the end of the file.
pub proof fn lemma_tensors_placed(
    recs: Seq<GgufRecord>,
    start: int,
    file_len: int,
    k: int,
    done: Seq<GgufTensor>,
    i: int,
)
    requires
        0 <= start,
        0 <= file_len <= u64::MAX,
        0 <= k <= i < recs.len(),
        done.len() == k,
        gguf_tensors(recs, start, file_len, k, done) is Ok,
    ensures
        ({
            let ts = gguf_tensors(recs, start, file_len, k, done)->Ok_0;
            let (t, r) = (ts[i], recs[i]);
            let end = t.data_offset + t.data_size;
            &&& ts.len() == recs.len()
            &&& t.name == r.name
            &&& t.shape == r.shape
            &&& t.ggml_type == r.ggml_type
            &&& t.dtype == dtype_of_ggml(r.ggml_type)
            &&& t.data_offset == start + r.relative
            &&& end <= file_len
            &&& forall|j: int|
                0 <= j < recs.len() && start + (#[trigger] recs[j]).relative > t.data_offset ==> end
                    <= start + recs[j].relative
            &&& end == file_len || exists|j: int|
                0 <= j < recs.len() && start + (#[trigger] recs[j]).relative == end
        }),
    decreases recs.len() - k,
{
    let t = gguf_tensor(recs[k], offsets_of(recs, start), start, file_len)->Ok_0;
    if k < i {
        lemma_tensors_placed(recs, start, file_len, k + 1, done.push(t), i);
    } else {
        lemma_placed_kept(recs, start, file_len, k + 1, done.push(t));
        let at = start + recs[k].relative;
        let offsets = offsets_of(recs, start);
        lemma_smallest_above(offsets, at);
        let ts = gguf_tensors(recs, start, file_len, k, done)->Ok_0;
        assert(ts[k] == done.push(t)[k]);
        assert forall|j: int|
            0 <= j < recs.len() && start + (#[trigger] recs[j]).relative
                > t.data_offset implies t.data_offset + t.data_size <= start + recs[j].relative by {
            assert(offsets[j] > at);
        }
        if let Some(y) = smallest_above(offsets, at) {
            let j = offsets.index_of(y);
            assert(start + recs[j].relative == y);
        }
    }
}

proof fn lemma_placed_kept(
    recs: Seq<GgufRecord>,
    start: int,
    file_len: int,
    k: int,
    done: Seq<GgufTensor>,
)
    requires
        0 <= k <= recs.len(),
        done.len() == k,
        gguf_tensors(recs, start, file_len, k, done) is Ok,
    ensures
        gguf_tensors(recs, start, file_len, k, done)->Ok_0.len() == recs.len(),
        forall|j: int|
            0 <= j < k ==> #[trigger] gguf_tensors(recs, start, file_len, k, done)->Ok_0[j]
                == done[j],
    decreases recs.len() - k,
{
    if k < recs.len() {
        let t = gguf_tensor(recs[k], offsets_of(recs, start), start, file_len)->Ok_0;
        let next = done.push(t);
        lemma_placed_kept(recs, start, file_len, k + 1, next);
        assert forall|j: int| 0 <= j < k implies #[trigger] gguf_tensors(
            recs,
            start,
            file_len,
            k,
            done,
        )->Ok_0[j] == done[j] by {
            assert(next[j] == done[j]);
        }
    }
}

/// What a JSON value is of an integer.
pub open spec fn json_integer(v: int) -> Json {
    if v >= 0 {
        Json::UInt(v as u64)
    } else {
        Json::Int(v as i64)
    }
}

/// A metadata value of a type without a sign is the number whose bytes were written:
/// types 0, 2, 4 and 10 have one byte, two, four and eight.
pub proof fn lemma_unsigned_read(d: Seq<u8>, p: int, kind: u32, width: int, v: nat)
    requires
        0 <= p <= d.len() - width,
        ({
            ||| kind == 0 && width == 1 && d[p] == v
            ||| kind == 2 && width == 2 && le16(d, p) == v
            ||| kind == 4 && width == 4 && le32(d, p) == v
            ||| kind == 10 && width == 8 && le64(d, p) == v
        }),
    ensures
        gguf_value(d, p, kind) == Ok::<(Json, int), Failure>((Json::UInt(v as u64), p + width)),
{
}

/// A metadata value of a type with a sign is the number whose two's complement was
/// written: types 1, 3, 5 and 11 have one byte, two, four and eight.
pub proof fn lemma_signed_read(d: Seq<u8>, p: int, kind: u32, width: int, half: int, v: int)
    requires
        0 <= p <= d.len() - width,
        -half <= v < half,
        ({
            ||| kind == 1 && width == 1 && half == 0x80 && d[p] == v % (2 * half)
            ||| kind == 3 && width == 2 && half == 0x8000 && le16(d, p) == v % (2 * half)
            ||| kind == 5 && width == 4 && half == 0x8000_0000 && le32(d, p) == v % (2 * half)
            ||| kind == 11 && width == 8 && half == 0x8000_0000_0000_0000 && le64(d, p) == v % (2
                * half)
        }),
    ensures
        gguf_value(d, p, kind) == Ok::<(Json, int), Failure>((json_integer(v), p + width)),
{
    let w = v % (2 * half);
    vstd::arithmetic::div_mod::lemma_fundamental_div_mod_converse(
        v,
        2 * half,
        if v < 0 {
            -1
        } else {
            0
        },
        if v < 0 {
            v + 2 * half
        } else {
            v
        },
    );
    assert(w == (if v < 0 {
        v + 2 * half
    } else {
        v
    }));
}

/// A metadata entry that was written is read: its key, and the value of the type that
/// stands behind the key.
pub proof fn lemma_entry_read(d: Seq<u8>, p: int, key: Seq<u8>, kind: u32, v: Json, end: int)
    requires
        0 <= p,
        p + 12 + key.len() <= d.len() <= u64::MAX,
        d.subrange(p, p + 12 + key.len()) == gguf_text_bytes(key) + le32_bytes(kind),
        gguf_value(d, p + 12 + key.len(), kind) == Ok::<(Json, int), Failure>((v, end)),
    ensures
        gguf_entry(d, p) == Ok::<(Seq<char>, Json, int), Failure>((utf8_lossy(key), v, end)),
{
    reveal(gguf_entry);
    let a = 8 + key.len() as int;
    let own = d.subrange(p, p + a + 4);
    assert(d.subrange(p, p + a) =~= own.subrange(0, a));
    assert(own.subrange(0, a) =~= gguf_text_bytes(key));
    lemma_text_read(d, p, key);
    assert(d.subrange(p + a, p + a + 4) =~= own.subrange(a, a + 4));
    assert(own.subrange(a, a + 4) =~= le32_bytes(kind));
    lemma_le32_roundtrip(d, p + a, kind);
}

/// A file is the four letters, its version, how many tensors and how many metadata
/// entries it has; then come the entries, and then the directory. It has a tensor for
/// every entry of the directory, and the data begin at the first multiple of the
/// alignment behind it.
pub proof fn lemma_file_read(d: Seq<u8>, h: GgufModel)
    requires
        d.len() <= u64::MAX,
        gguf_file(d) == Ok::<GgufModel, Failure>(h),
    ensures
        d.len() >= 24,
        d.subrange(0, 4) == seq![0x47u8, 0x47, 0x55, 0x46],
        h.version == 2 || h.version == 3,
        h.version == le32(d, 4),
        h.tensor_count == le64(d, 8),
        h.tensors.len() == h.tensor_count,
        gguf_metadata(d, 24, le64(d, 16) as int, Seq::empty()) matches Ok((entries, p)) && entries
            == h.metadata && (gguf_directory(d, p, h.tensor_count as int, Seq::empty()) matches Ok(
            (recs, q),
        ) && ({
            let align = gguf_alignment(entries);
            let start = align_up_int(q, align);
            &&& recs.len() == h.tensor_count
            &&& 0 < align
            &&& start % align == 0
            &&& q <= start < q + align
            &&& gguf_tensors(recs, start, d.len() as int, 0, Seq::empty()) == Ok::<
                Seq<GgufTensor>,
                Failure,
            >(h.tensors)
        })),
{
    let (metadata, p) = gguf_metadata(d, 24, le64(d, 16) as int, Seq::empty())->Ok_0;
    let (recs, q) = gguf_directory(d, p, le64(d, 8) as int, Seq::empty())->Ok_0;
    lemma_metadata_advances(d, 24, le64(d, 16) as int, Seq::empty());
    lemma_directory_advances(d, p, le64(d, 8) as int, Seq::empty());
    lemma_directory_len(d, p, le64(d, 8) as int, Seq::empty());
    let start = align_up_int(q, gguf_alignment(metadata));
    lemma_align_up(q, gguf_alignment(metadata));
    lemma_placed_kept(recs, start, d.len() as int, 0, Seq::empty());
    assert(d.subrange(0, 4) =~= seq![0x47u8, 0x47, 0x55, 0x46]);
}

proof fn lemma_directory_len(d: Seq<u8>, p: int, n: int, done: Seq<GgufRecord>)
    requires
        0 <= n,
    ensures
        gguf_directory(d, p, n, done) matches Ok((r, q)) ==> r.len() == done.len() + n,
    decreases n,
{
    if n > 0 {
        if let Ok((r, q)) = gguf_record(d, p) {
            lemma_directory_len(d, q, n - 1, done.push(r));
        }
    }
}

/// Types 7 and 8 are truth values, one byte that is zero or not, and texts; 6 and 12 are
/// fractions of single and double precision, null where they are not finite; from 13 on
/// there are none.
pub proof fn lemma_other_values_read(d: Seq<u8>, p: int, kind: u32, text: Seq<u8>)
    requires
        0 <= p,
        d.len() <= u64::MAX,
    ensures
        p + 1 <= d.len() ==> gguf_value(d, p, 7) == Ok::<(Json, int), Failure>(
            (Json::Bool(d[p] != 0), p + 1),
        ),
        p + 8 + text.len() <= d.len() && d.subrange(p, p + 8 + text.len()) == gguf_text_bytes(text)
            ==> gguf_value(d, p, 8) == Ok::<(Json, int), Failure>(
            (Json::Text(utf8_lossy(text)), p + 8 + text.len()),
        ),
        p + 4 <= d.len() && finite_single(le32(d, p)) ==> gguf_value(d, p, 6) == Ok::<
            (Json, int),
            Failure,
        >((Json::Float(widened(le32(d, p))), p + 4)),
        p + 8 <= d.len() && finite_double(le64(d, p)) ==> gguf_value(d, p, 12) == Ok::<
            (Json, int),
            Failure,
        >((Json::Float(le64(d, p)), p + 8)),
        kind >= 13 ==> gguf_value(d, p, kind) is Err,
{
    if p + 8 + text.len() <= d.len() && d.subrange(p, p + 8 + text.len()) == gguf_text_bytes(text) {
        lemma_text_read(d, p, text);
    }
}

/// A list, type 9, states the type of its items and how many there are, and holds them
/// one behind the other: each begins where the one before it ends.
pub proof fn lemma_list_read(
    d: Seq<u8>,
    p: int,
    kind: u32,
    items: Seq<Json>,
    at: Seq<int>,
)
    requires
        0 <= p,
        p + 12 <= d.len() <= u64::MAX,
        d.subrange(p, p + 12) == le32_bytes(kind) + le64_bytes(items.len() as u64),
        items.len() <= u64::MAX,
        at.len() == items.len() + 1,
        at[0] == p + 12,
        forall|i: int|
            #![trigger items[i]]
            0 <= i < items.len() ==> gguf_value(d, at[i], kind) == Ok::<(Json, int), Failure>(
                (items[i], at[i + 1]),
            ),
    ensures
        gguf_value(d, p, 9) == Ok::<(Json, int), Failure>(
            (Json::Array(items), at[items.len() as int]),
        ),
{
    let own = d.subrange(p, p + 12);
    assert(d.subrange(p, p + 4) =~= own.subrange(0, 4));
    assert(own.subrange(0, 4) =~= le32_bytes(kind));
    lemma_le32_roundtrip(d, p, kind);
    assert(d.subrange(p + 4, p + 12) =~= own.subrange(4, 12));
    assert(own.subrange(4, 12) =~= le64_bytes(items.len() as u64));
    lemma_le64_roundtrip(d, p + 4, items.len() as u64);
    lemma_items_read(d, kind, items, at, 0);
    assert(items.take(0) =~= Seq::empty());
}

proof fn lemma_items_read(d: Seq<u8>, kind: u32, items: Seq<Json>, at: Seq<int>, k: int)
    requires
        0 <= k <= items.len(),
        at.len() == items.len() + 1,
        0 <= at[k] <= d.len(),
        forall|i: int|
            #![trigger items[i]]
            0 <= i < items.len() ==> gguf_value(d, at[i], kind) == Ok::<(Json, int), Failure>(
                (items[i], at[i + 1]),
            ),
    ensures
        gguf_items(d, at[k], kind, items.len() - k, items.take(k)) == Ok::<
            (Seq<Json>, int),
            Failure,
        >((items, at[items.len() as int])),
    decreases items.len() - k,
{
    if k < items.len() {
        assert(gguf_value(d, at[k], kind) == Ok::<(Json, int), Failure>((items[k], at[k + 1])));
        lemma_value_advances(d, at[k], kind);
        lemma_items_read(d, kind, items, at, k + 1);
        assert(items.take(k).push(items[k]) =~= items.take(k + 1));
    } else {
        assert(items.take(k) =~= items);
    }
}

/// The data are aligned to what the metadata say, to one where they say zero, and to
/// thirty-two where they say nothing.
pub proof fn lemma_alignment(metadata: Seq<(Seq<char>, Json)>, n: u64)
    ensures
        object_get(metadata, "general.alignment"@) == Some(Json::UInt(n)) ==> gguf_alignment(metadata)
            == (if n == 0 {
            1
        } else {
            n as int
        }),
        object_get(metadata, "general.alignment"@) is None ==> gguf_alignment(metadata) == 32,
{
}

/// What is no file of the format is refused: one that ends within its first twenty-four
/// bytes, one with other letters at the front, and one of another version.
pub proof fn lemma_file_refused(d: Seq<u8>)
    ensures
        d.len() < 4 ==> gguf_file(d) == Err::<GgufModel, Failure>(short_read()),
        d.len() >= 4 && d.subrange(0, 4) != seq![0x47u8, 0x47u8, 0x55u8, 0x46u8] ==> gguf_file(d)
            == Err::<GgufModel, Failure>(bad_magic(d)),
        d.len() >= 4 && d.subrange(0, 4) == seq![0x47u8, 0x47u8, 0x55u8, 0x46u8] ==> {
            &&& d.len() < 8 ==> gguf_file(d) == Err::<GgufModel, Failure>(short_read())
            &&& d.len() >= 8 && le32(d, 4) != 2 && le32(d, 4) != 3 ==> gguf_file(d) == Err::<
                GgufModel,
                Failure,
            >(Failure::UnsupportedVersion(le32(d, 4)))
            &&& 8 <= d.len() < 24 && (le32(d, 4) == 2 || le32(d, 4) == 3) ==> gguf_file(d) == Err::<
                GgufModel,
                Failure,
            >(short_read())
        },
{
    if d.len() >= 4 {
        let s = d.subrange(0, 4);
        assert(s[0] == d[0] && s[1] == d[1] && s[2] == d[2] && s[3] == d[3]);
        assert(d[0] == 0x47 && d[1] == 0x47 && d[2] == 0x55 && d[3] == 0x46 ==> s =~= seq![
            0x47u8,
            0x47u8,
            0x55u8,
            0x46u8,
        ]);
    }
}

/// A tensor of the directory has one to eight dimensions, and its entry ends within the
/// file. Else it is refused.
pub proof fn lemma_record_refused(d: Seq<u8>, p: int, name: Seq<char>, q: int)
    requires
        gguf_string(d, p) == Ok::<(Seq<char>, int), Failure>((name, q)),
        0 <= q,
    ensures
        q + 4 > d.len() ==> gguf_record(d, p) == Err::<(GgufRecord, int), Failure>(short_read()),
        q + 4 <= d.len() && (le32(d, q) == 0 || le32(d, q) > 8) ==> gguf_record(d, p) == Err::<
            (GgufRecord, int),
            Failure,
        >(
            Failure::InvalidManifest(
                "GGUF tensor "@ + name + " has unsupported rank "@ + decimal_text(
                    le32(d, q) as nat,
                ),
            ),
        ),
        q + 4 <= d.len() && 1 <= le32(d, q) <= 8 ==> (gguf_record(d, p) is Ok <==> q + 16 + 8 * le32(
            d,
            q,
        ) <= d.len()) && (gguf_record(d, p) matches Err(e) ==> e == short_read()),
{
}

/// A text is refused where the file ends before its length, or before its last byte, and
/// where its end cannot be written down.
pub proof fn lemma_text_refused(d: Seq<u8>, p: int)
    requires
        0 <= p,
    ensures
        p + 8 > d.len() ==> gguf_string(d, p) == Err::<(Seq<char>, int), Failure>(short_read()),
        p + 8 <= d.len() ==> {
            let end = p + 8 + le64(d, p);
            &&& end > u64::MAX ==> gguf_string(d, p) == Err::<(Seq<char>, int), Failure>(
                Failure::InvalidManifest("GGUF string length overflow"@),
            )
            &&& d.len() < end <= u64::MAX ==> gguf_string(d, p) == Err::<(Seq<char>, int), Failure>(
                eof(end, d.len() as int),
            )
            &&& end <= d.len() && end <= u64::MAX ==> gguf_string(d, p) is Ok
        },
{
}

/// A tensor that begins or ends behind the end of the file is refused.
pub proof fn lemma_tensor_refused(r: GgufRecord, offsets: Seq<int>, start: int, file_len: int)
    requires
        forall|i: int| 0 <= i < offsets.len() ==> #[trigger] offsets[i] <= start + r.relative,
    ensures
        start + r.relative > file_len <==> gguf_tensor(r, offsets, start, file_len) is Err,
        gguf_tensor(r, offsets, start, file_len) matches Err(e) ==> e == eof(file_len, file_len),
{
    lemma_smallest_above(offsets, start + r.relative);
}

} // verus!
