//! Tensor descriptors, and their place in the descriptor table.
use vstd::prelude::*;
use vstd::utf8::{encode_utf8, encode_utf8_decode_utf8, encode_utf8_valid_utf8};

use crate::bytes::{
    get_u32, get_u64, le32, le32_bytes, le64, le64_bytes, lemma_chain, lemma_le32_roundtrip,
    lemma_le32_unique, lemma_le64_roundtrip, lemma_le64_unique, lemma_parts, put_bytes, put_u32,
    put_u64, put_zeros, slice, zeros,
};
use crate::error::{eof, invalid, AxonError, AxonResult, Failure};
use crate::slices::copy_u64;
use crate::tensor::{dtype_code, dtype_of, lemma_dtype_code, DType, MAX_TENSOR_RANK};
use crate::text::{concat4, decimal, decimal_text};
use crate::unicode::{from_utf8, utf8_text};

verus! {

/// The bytes of one descriptor.
pub const DESCRIPTOR_SIZE: usize = 192;

/// The bytes that a descriptor sets aside for a name and its terminator.
pub const NAME_SIZE: usize = 96;

/// A hint on where a tensor should live. Its number is carried along.
#[derive(Clone, Copy, Debug, PartialEq, Eq, Structural)]
pub enum Affinity {
    /// No preference.
    Default,
    /// A preference by its number.
    Hint(u32),
}

/// The number of a hint.
pub open spec fn affinity_code(a: Affinity) -> u32 {
    match a {
        Affinity::Default => 0,
        Affinity::Hint(n) => n,
    }
}

/// What a descriptor says.
#[verifier::ext_equal]
pub struct Descriptor {
    pub name: Seq<char>,
    pub dtype: DType,
    pub shape: Seq<u64>,
    pub data_offset: u64,
    pub data_size: u64,
    pub affinity: u32,
    pub checksum: u32,
}

// ── The layout ──────────────────────────────────────────────────────
/// How far the name reaches that begins at `p`: up to a zero byte or the end of
/// its field. The first `k` bytes are known to belong to it.
pub open spec fn name_len(d: Seq<u8>, p: int, k: int) -> int
    decreases NAME_SIZE - k,
{
    if k >= NAME_SIZE || d[p + k] == 0 {
        k
    } else {
        name_len(d, p, k + 1)
    }
}

/// The report of a tensor with too many dimensions.
pub open spec fn rank_error(name: Seq<char>, rank: u32) -> Failure {
    Failure::InvalidManifest(
        "tensor "@ + name + " has unsupported rank "@ + decimal_text(rank as nat),
    )
}

/// The descriptor whose bytes begin at `p`.
#[verifier::opaque]
pub open spec fn descriptor_at(d: Seq<u8>, p: int) -> Result<Descriptor, Failure> {
    match utf8_text(d.subrange(p, p + name_len(d, p, 0))) {
        None => Err(Failure::InvalidManifest("tensor name is not valid UTF-8"@)),
        Some(name) => match dtype_of(le32(d, p + 96)) {
            None => Err(Failure::InvalidDtype(le32(d, p + 96))),
            Some(dtype) => {
                let rank = le32(d, p + 100);
                if rank > MAX_TENSOR_RANK {
                    Err(rank_error(name, rank))
                } else {
                    Ok(
                        Descriptor {
                            name,
                            dtype,
                            shape: Seq::new(rank as nat, |i: int| le64(d, p + 104 + 8 * i)),
                            data_offset: le64(d, p + 168),
                            data_size: le64(d, p + 176),
                            affinity: le32(d, p + 184),
                            checksum: le32(d, p + 188),
                        },
                    )
                }
            },
        },
    }
}

/// The `n` descriptors from `p` on, behind those already read.
pub open spec fn descriptor_table(d: Seq<u8>, p: int, n: int, done: Seq<Descriptor>) -> Result<
    Seq<Descriptor>,
    Failure,
>
    decreases n,
{
    if n <= 0 {
        Ok(done)
    } else {
        match descriptor_at(d, p) {
            Err(e) => Err(e),
            Ok(x) => descriptor_table(d, p + DESCRIPTOR_SIZE, n - 1, done.push(x)),
        }
    }
}

/// A table that can be read has as many descriptors as were asked for. Each is
/// what stands at its place, and has no more dimensions than there may be.
pub proof fn lemma_table(d: Seq<u8>, p: int, n: int, done: Seq<Descriptor>)
    requires
        0 <= n,
    ensures
        descriptor_table(d, p, n, done) matches Ok(x) ==> {
            &&& x.len() == done.len() + n
            &&& x.subrange(0, done.len() as int) == done
            &&& forall|i: int|
                0 <= i < n ==> descriptor_at(d, p + DESCRIPTOR_SIZE * i) == Ok::<
                    Descriptor,
                    Failure,
                >(#[trigger] x[done.len() + i]) && x[done.len() + i].shape.len() <= MAX_TENSOR_RANK
        },
    decreases n,
{
    if n > 0 {
        if let Ok(t) = descriptor_at(d, p) {
            let more = done.push(t);
            lemma_table(d, p + DESCRIPTOR_SIZE, n - 1, more);
            if let Ok(x) = descriptor_table(d, p, n, done) {
                assert(x.subrange(0, done.len() as int) =~= x.subrange(
                    0,
                    more.len() as int,
                ).subrange(0, done.len() as int));
                assert(more.subrange(0, done.len() as int) =~= done);
                assert(x[done.len() as int] == x.subrange(0, more.len() as int)[done.len() as int]);
                reveal(descriptor_at);
                assert forall|i: int| 0 <= i < n implies descriptor_at(d, p + DESCRIPTOR_SIZE * i)
                    == Ok::<Descriptor, Failure>(#[trigger] x[done.len() + i])
                    && x[done.len() + i].shape.len() <= MAX_TENSOR_RANK by {
                    if i > 0 {
                        assert(x[done.len() + i] == x[more.len() + (i - 1)]);
                        assert(p + DESCRIPTOR_SIZE + DESCRIPTOR_SIZE * (i - 1) == p
                            + DESCRIPTOR_SIZE * i);
                    }
                }
            }
        }
    } else {
        assert(done.subrange(0, done.len() as int) =~= done);
    }
}

proof fn lemma_same_name(d: Seq<u8>, p: int, e: Seq<u8>, q: int, k: int)
    requires
        0 <= k,
        forall|i: int| 0 <= i < NAME_SIZE ==> #[trigger] d[p + i] == e[q + i],
    ensures
        name_len(d, p, k) == name_len(e, q, k),
        k <= name_len(d, p, k),
        k <= NAME_SIZE ==> name_len(d, p, k) <= NAME_SIZE,
    decreases NAME_SIZE - k,
{
    if k < NAME_SIZE {
        assert(d[p + k] == e[q + k]);
        lemma_same_name(d, p, e, q, k + 1);
    }
}

/// A descriptor is read from its own bytes alone.
pub proof fn lemma_own_bytes(d: Seq<u8>, p: int, e: Seq<u8>, q: int)
    requires
        0 <= p <= d.len() - DESCRIPTOR_SIZE,
        0 <= q <= e.len() - DESCRIPTOR_SIZE,
        d.subrange(p, p + DESCRIPTOR_SIZE) == e.subrange(q, q + DESCRIPTOR_SIZE),
    ensures
        descriptor_at(d, p) == descriptor_at(e, q),
{
    let own = d.subrange(p, p + DESCRIPTOR_SIZE);
    assert forall|i: int| 0 <= i < DESCRIPTOR_SIZE implies #[trigger] d[p + i] == e[q + i] by {
        assert(d[p + i] == own[i]);
    }
    reveal(descriptor_at);
    lemma_same_name(d, p, e, q, 0);
    let n = name_len(d, p, 0);
    assert(d.subrange(p, p + n) =~= e.subrange(q, q + n));
    assert forall|o: int| 0 <= o <= DESCRIPTOR_SIZE - 4 implies #[trigger] le32(d, p + o) == le32(
        e,
        q + o,
    ) by {
        assert(d[p + o] == e[q + o]);
        assert(d[p + (o + 1)] == e[q + (o + 1)]);
        assert(d[p + (o + 2)] == e[q + (o + 2)]);
        assert(d[p + (o + 3)] == e[q + (o + 3)]);
    }
    assert forall|o: int| 0 <= o <= DESCRIPTOR_SIZE - 8 implies #[trigger] le64(d, p + o) == le64(
        e,
        q + o,
    ) by {
        assert(le32(d, p + o) == le32(e, q + o));
        assert(le32(d, p + (o + 4)) == le32(e, q + (o + 4)));
    }
    assert(le32(d, p + 96) == le32(e, q + 96));
    let rank = le32(d, p + 100);
    assert(rank == le32(e, q + 100));
    if rank <= MAX_TENSOR_RANK {
        let a = Seq::new(rank as nat, |i: int| le64(d, p + 104 + 8 * i));
        let b = Seq::new(rank as nat, |i: int| le64(e, q + 104 + 8 * i));
        assert forall|i: int| 0 <= i < rank implies a[i] == b[i] by {
            assert(le64(d, p + (104 + 8 * i)) == le64(e, q + (104 + 8 * i)));
        }
        assert(a =~= b);
        assert(le64(d, p + 168) == le64(e, q + 168));
        assert(le64(d, p + 176) == le64(e, q + 176));
        assert(le32(d, p + 184) == le32(e, q + 184));
        assert(le32(d, p + 188) == le32(e, q + 188));
    }
}

/// A table is read from its own bytes alone.
pub proof fn lemma_table_own_bytes(
    d: Seq<u8>,
    p: int,
    e: Seq<u8>,
    q: int,
    n: int,
    done: Seq<Descriptor>,
)
    requires
        0 <= n,
        0 <= p <= d.len() - n * DESCRIPTOR_SIZE,
        0 <= q <= e.len() - n * DESCRIPTOR_SIZE,
        d.subrange(p, p + n * DESCRIPTOR_SIZE) == e.subrange(q, q + n * DESCRIPTOR_SIZE),
    ensures
        descriptor_table(d, p, n, done) == descriptor_table(e, q, n, done),
    decreases n,
{
    if n > 0 {
        let size = DESCRIPTOR_SIZE as int;
        let a = d.subrange(p, p + n * DESCRIPTOR_SIZE);
        let b = e.subrange(q, q + n * DESCRIPTOR_SIZE);
        assert(d.subrange(p, p + size) =~= a.subrange(0, size));
        assert(e.subrange(q, q + size) =~= b.subrange(0, size));
        lemma_own_bytes(d, p, e, q);
        assert(d.subrange(p + size, p + size + (n - 1) * DESCRIPTOR_SIZE) =~= a.subrange(
            size,
            a.len() as int,
        ));
        assert(e.subrange(q + size, q + size + (n - 1) * DESCRIPTOR_SIZE) =~= b.subrange(
            size,
            b.len() as int,
        ));
        if let Ok(t) = descriptor_at(d, p) {
            lemma_table_own_bytes(d, p + size, e, q + size, n - 1, done.push(t));
        }
    }
}

/// The hundred and ninety-two bytes of a descriptor, in their order: the name in
/// ninety-six, up to the first zero; the number of the type; how many dimensions there
/// are, and room for eight; where the data begin and how many bytes they have; the
/// affinity and the checksum.
pub proof fn lemma_descriptor_layout(d: Seq<u8>, p: int, x: Descriptor)
    requires
        0 <= p <= d.len() - DESCRIPTOR_SIZE,
        descriptor_at(d, p) == Ok::<Descriptor, Failure>(x),
    ensures
        DESCRIPTOR_SIZE == 192,
        utf8_text(d.subrange(p, p + name_len(d, p, 0))) == Some(x.name),
        d.subrange(p + 96, p + 100) == le32_bytes(dtype_code(x.dtype)),
        d.subrange(p + 100, p + 104) == le32_bytes(x.shape.len() as u32),
        x.shape.len() <= 8,
        forall|i: int|
            0 <= i < x.shape.len() ==> d.subrange(p + 104 + 8 * i, p + 112 + 8 * i) == le64_bytes(
                #[trigger] x.shape[i],
            ),
        d.subrange(p + 168, p + 176) == le64_bytes(x.data_offset),
        d.subrange(p + 176, p + 184) == le64_bytes(x.data_size),
        d.subrange(p + 184, p + 188) == le32_bytes(x.affinity),
        d.subrange(p + 188, p + 192) == le32_bytes(x.checksum),
{
    reveal(descriptor_at);
    lemma_dtype_code(x.dtype, le32(d, p + 96));
    lemma_le32_unique(d, p + 96);
    lemma_le32_unique(d, p + 100);
    assert forall|i: int| 0 <= i < x.shape.len() implies d.subrange(p + 104 + 8 * i, p + 112 + 8 * i)
        == le64_bytes(#[trigger] x.shape[i]) by {
        lemma_le64_unique(d, p + 104 + 8 * i);
    }
    lemma_le64_unique(d, p + 168);
    lemma_le64_unique(d, p + 176);
    lemma_le32_unique(d, p + 184);
    lemma_le32_unique(d, p + 188);
}

/// The dimensions, eight bytes each.
pub open spec fn shape_bytes(shape: Seq<u64>) -> Seq<u8>
    decreases shape.len(),
{
    if shape.len() == 0 {
        Seq::empty()
    } else {
        shape_bytes(shape.drop_last()) + le64_bytes(shape.last())
    }
}

/// The field of a name: its bytes, and zeros behind them.
pub open spec fn name_field(name: Seq<char>) -> Seq<u8> {
    encode_utf8(name) + zeros((NAME_SIZE - encode_utf8(name).len()) as nat)
}

/// The field of a shape: its dimensions, and zeros behind them.
pub open spec fn shape_field(shape: Seq<u64>) -> Seq<u8> {
    shape_bytes(shape) + zeros((8 * (MAX_TENSOR_RANK - shape.len())) as nat)
}

/// The bytes of a descriptor.
#[verifier::opaque]
pub open spec fn descriptor_bytes(x: Descriptor) -> Seq<u8> {
    name_field(x.name) + (le32_bytes(dtype_code(x.dtype)) + (le32_bytes(x.shape.len() as u32) + (
    shape_field(x.shape) + (le64_bytes(x.data_offset) + (le64_bytes(x.data_size) + (le32_bytes(
        x.affinity,
    ) + le32_bytes(x.checksum)))))))
}

/// The name fits its field with a terminator, and holds none itself.
pub open spec fn name_fits(name: Seq<char>) -> bool {
    let b = encode_utf8(name);
    b.len() < NAME_SIZE && forall|i: int| 0 <= i < b.len() ==> #[trigger] b[i] != 0
}

/// A descriptor that can be written down.
pub open spec fn writable(x: Descriptor) -> bool {
    name_fits(x.name) && x.shape.len() <= MAX_TENSOR_RANK
}

// ── Round trip ──────────────────────────────────────────────────────
proof fn lemma_name_len(d: Seq<u8>, p: int, k: int, n: int)
    requires
        0 <= k <= n < NAME_SIZE,
        forall|i: int| k <= i < n ==> #[trigger] d[p + i] != 0,
        d[p + n] == 0,
    ensures
        name_len(d, p, k) == n,
    decreases n - k,
{
    if k < n {
        assert(d[p + k] != 0);
        lemma_name_len(d, p, k + 1, n);
    }
}

proof fn lemma_shape_bytes_len(shape: Seq<u64>)
    ensures
        shape_bytes(shape).len() == 8 * shape.len(),
    decreases shape.len(),
{
    if shape.len() > 0 {
        lemma_shape_bytes_len(shape.drop_last());
    }
}

proof fn lemma_shape_bytes_at(shape: Seq<u64>, i: int)
    requires
        0 <= i < shape.len(),
    ensures
        shape_bytes(shape).len() == 8 * shape.len(),
        shape_bytes(shape).subrange(8 * i, 8 * i + 8) == le64_bytes(shape[i]),
    decreases shape.len(),
{
    lemma_shape_bytes_len(shape);
    lemma_shape_bytes_len(shape.drop_last());
    if i == shape.len() - 1 {
        assert(shape_bytes(shape).subrange(8 * i, 8 * i + 8) =~= le64_bytes(shape[i]));
    } else {
        lemma_shape_bytes_at(shape.drop_last(), i);
        assert(shape_bytes(shape).subrange(8 * i, 8 * i + 8) =~= shape_bytes(
            shape.drop_last(),
        ).subrange(8 * i, 8 * i + 8));
    }
}

/// The bytes of a descriptor that can be written down are as many as the table
/// sets aside.
pub proof fn lemma_descriptor_len(x: Descriptor)
    requires
        writable(x),
    ensures
        descriptor_bytes(x).len() == DESCRIPTOR_SIZE,
{
    reveal(descriptor_bytes);
    lemma_shape_bytes_len(x.shape);
}

proof fn lemma_name_at(d: Seq<u8>, p: int, name: Seq<char>)
    requires
        name_fits(name),
        0 <= p,
        p + NAME_SIZE <= d.len(),
        d.subrange(p, p + NAME_SIZE) == name_field(name),
    ensures
        utf8_text(d.subrange(p, p + name_len(d, p, 0))) == Some(name),
{
    let b = encode_utf8(name);
    let n = b.len() as int;
    let f = name_field(name);
    assert forall|i: int| 0 <= i < NAME_SIZE implies #[trigger] d[p + i] == f[i] by {
        assert(d.subrange(p, p + NAME_SIZE)[i] == d[p + i]);
    }
    assert forall|i: int| 0 <= i < n implies #[trigger] d[p + i] != 0 by {
        assert(f[i] == b[i]);
    }
    lemma_name_len(d, p, 0, n);
    assert(d.subrange(p, p + n) =~= b);
    encode_utf8_valid_utf8(name);
    encode_utf8_decode_utf8(name);
}

proof fn lemma_shape_at(d: Seq<u8>, p: int, shape: Seq<u64>)
    requires
        shape.len() <= MAX_TENSOR_RANK,
        0 <= p,
        p + 64 <= d.len(),
        d.subrange(p, p + 64) == shape_field(shape),
    ensures
        forall|i: int| 0 <= i < shape.len() ==> #[trigger] le64(d, p + 8 * i) == shape[i],
{
    let s = shape_bytes(shape);
    let f = shape_field(shape);
    lemma_shape_bytes_len(shape);
    assert forall|i: int| 0 <= i < shape.len() implies #[trigger] le64(d, p + 8 * i)
        == shape[i] by {
        lemma_shape_bytes_at(shape, i);
        let at = p + 8 * i;
        let w = le64_bytes(shape[i]);
        assert(w.len() == 8);
        assert forall|k: int| 0 <= k < 8 implies d.subrange(at, at + 8)[k] == #[trigger] w[k] by {
            assert(d.subrange(p, p + 64)[8 * i + k] == d[p + (8 * i + k)]);
            assert(f[8 * i + k] == s[8 * i + k]);
            assert(s.subrange(8 * i, 8 * i + 8)[k] == s[8 * i + k]);
        }
        assert(d.subrange(at, at + 8) =~= w);
        lemma_le64_roundtrip(d, at, shape[i]);
    }
}

/// A descriptor is read back from its own bytes.
pub proof fn lemma_descriptor_roundtrip(d: Seq<u8>, p: int, x: Descriptor)
    requires
        writable(x),
        0 <= p,
        p + DESCRIPTOR_SIZE <= d.len(),
        d.subrange(p, p + DESCRIPTOR_SIZE) == descriptor_bytes(x),
    ensures
        descriptor_at(d, p) == Ok::<Descriptor, Failure>(x),
{
    reveal(descriptor_at);
    reveal(descriptor_bytes);
    let (f0, f1, f2, f3) = (
        name_field(x.name),
        le32_bytes(dtype_code(x.dtype)),
        le32_bytes(x.shape.len() as u32),
        shape_field(x.shape),
    );
    let (f4, f5, f6, f7) = (
        le64_bytes(x.data_offset),
        le64_bytes(x.data_size),
        le32_bytes(x.affinity),
        le32_bytes(x.checksum),
    );
    lemma_shape_bytes_len(x.shape);
    lemma_parts(d, p, f0, f1 + (f2 + (f3 + (f4 + (f5 + (f6 + f7))))));
    lemma_parts(d, p + 96, f1, f2 + (f3 + (f4 + (f5 + (f6 + f7)))));
    lemma_parts(d, p + 100, f2, f3 + (f4 + (f5 + (f6 + f7))));
    lemma_parts(d, p + 104, f3, f4 + (f5 + (f6 + f7)));
    lemma_parts(d, p + 168, f4, f5 + (f6 + f7));
    lemma_parts(d, p + 176, f5, f6 + f7);
    lemma_parts(d, p + 184, f6, f7);
    lemma_name_at(d, p, x.name);
    lemma_dtype_code(x.dtype, 0);
    lemma_le32_roundtrip(d, p + 96, dtype_code(x.dtype));
    lemma_le32_roundtrip(d, p + 100, x.shape.len() as u32);
    lemma_shape_at(d, p + 104, x.shape);
    lemma_le64_roundtrip(d, p + 168, x.data_offset);
    lemma_le64_roundtrip(d, p + 176, x.data_size);
    lemma_le32_roundtrip(d, p + 184, x.affinity);
    lemma_le32_roundtrip(d, p + 188, x.checksum);
    assert(Seq::new(x.shape.len(), |i: int| le64(d, p + 104 + 8 * i)) =~= x.shape);
}

// ── Executable descriptors ──────────────────────────────────────────
/// What a file says of one tensor.
#[derive(Debug)]
pub struct TensorDescriptor {
    /// The tensor's name.
    pub name: String,
    /// The type of its elements.
    pub dtype: DType,
    /// Its dimensions.
    pub shape: Vec<u64>,
    /// Where in the file its bytes begin.
    pub data_offset: u64,
    /// How many bytes it has.
    pub data_size: u64,
    /// Where it should live.
    pub affinity: Affinity,
    /// The checksum of its bytes, zero where none was computed.
    pub checksum: u32,
}

impl View for TensorDescriptor {
    type V = Descriptor;

    open spec fn view(&self) -> Descriptor {
        Descriptor {
            name: self.name@,
            dtype: self.dtype,
            shape: self.shape@,
            data_offset: self.data_offset,
            data_size: self.data_size,
            affinity: affinity_code(self.affinity),
            checksum: self.checksum,
        }
    }
}

/// What a row of descriptors stands for.
pub open spec fn descriptor_models(v: Seq<TensorDescriptor>) -> Seq<Descriptor> {
    Seq::new(v.len(), |i: int| v[i]@)
}

/// Whether a name can be written into a descriptor.
pub fn check_name(name: &str) -> (r: bool)
    ensures
        r == name_fits(name@),
{
    let b = name.as_bytes();
    if b.len() >= NAME_SIZE {
        return false;
    }
    let mut i: usize = 0;
    while i < b.len()
        invariant
            i <= b@.len() < NAME_SIZE,
            b@ == encode_utf8(name@),
            forall|k: int| 0 <= k < i ==> #[trigger] b@[k] != 0,
        decreases b@.len() - i,
    {
        if b[i] == 0 {
            return false;
        }
        i += 1;
    }
    true
}

impl TensorDescriptor {
    /// A descriptor with the given contents.
    pub fn new(
        name: &str,
        dtype: DType,
        shape: &[u64],
        data_offset: u64,
        data_size: u64,
        affinity: Affinity,
        checksum: u32,
    ) -> (r: TensorDescriptor)
        ensures
            r@ == (Descriptor {
                name: name@,
                dtype,
                shape: shape@,
                data_offset,
                data_size,
                affinity: affinity_code(affinity),
                checksum,
            }),
    {
        TensorDescriptor {
            name: name.to_owned(),
            dtype,
            shape: copy_u64(shape),
            data_offset,
            data_size,
            affinity,
            checksum,
        }
    }

    /// The descriptor whose bytes begin at `p`.
    pub fn from_bytes_at(d: &[u8], p: usize) -> (r: AxonResult<TensorDescriptor>)
        requires
            p + DESCRIPTOR_SIZE <= d@.len(),
        ensures
            match r {
                Ok(x) => descriptor_at(d@, p as int) == Ok::<Descriptor, Failure>(x@),
                Err(e) => descriptor_at(d@, p as int) == Err::<Descriptor, Failure>(e@),
            },
    {
        proof {
            reveal(descriptor_at);
            assert(d@.len() == d.len());
        }
        let mut n: usize = 0;
        while n < NAME_SIZE && d[p + n] != 0
            invariant
                n <= NAME_SIZE,
                p + DESCRIPTOR_SIZE <= d@.len(),
                d@.len() == d.len(),
                name_len(d@, p as int, 0) == name_len(d@, p as int, n as int),
            decreases NAME_SIZE - n,
        {
            n += 1;
        }
        let name = match from_utf8(slice(d, p, p + n)) {
            Some(s) => s,
            None => return Err(invalid("tensor name is not valid UTF-8")),
        };
        let dtype = DType::from_code(get_u32(d, p + 96)?)?;
        let rank = get_u32(d, p + 100)?;
        if rank as usize > MAX_TENSOR_RANK {
            return Err(
                AxonError::InvalidManifest(
                    concat4(
                        "tensor ",
                        name.as_str(),
                        " has unsupported rank ",
                        decimal(rank as u64).as_str(),
                    ),
                ),
            );
        }
        let mut shape: Vec<u64> = Vec::new();
        let mut i: u32 = 0;
        while i < rank
            invariant
                i <= rank <= MAX_TENSOR_RANK,
                p + DESCRIPTOR_SIZE <= d@.len(),
                d@.len() == d.len(),
                shape@ == Seq::new(i as nat, |j: int| le64(d@, p + 104 + 8 * j)),
            decreases rank - i,
        {
            match get_u64(d, p + 104 + 8 * i as usize) {
                Ok(dim) => {
                    shape.push(dim);
                },
                Err(e) => return Err(e),
            }
            i += 1;
            assert(shape@ =~= Seq::new(i as nat, |j: int| le64(d@, p + 104 + 8 * j)));
        }
        let code = get_u32(d, p + 184)?;
        Ok(
            TensorDescriptor {
                name,
                dtype,
                shape,
                data_offset: get_u64(d, p + 168)?,
                data_size: get_u64(d, p + 176)?,
                affinity: if code == 0 {
                    Affinity::Default
                } else {
                    Affinity::Hint(code)
                },
                checksum: get_u32(d, p + 188)?,
            },
        )
    }

    /// The descriptor of exactly the bytes given.
    pub fn from_bytes(d: &[u8]) -> (r: AxonResult<TensorDescriptor>)
        ensures
            match r {
                Ok(x) => d@.len() >= DESCRIPTOR_SIZE && descriptor_at(d@, 0) == Ok::<
                    Descriptor,
                    Failure,
                >(x@),
                Err(e) => if d@.len() < DESCRIPTOR_SIZE {
                    e@ == eof(DESCRIPTOR_SIZE as int, d@.len() as int)
                } else {
                    descriptor_at(d@, 0) == Err::<Descriptor, Failure>(e@)
                },
            },
    {
        if d.len() < DESCRIPTOR_SIZE {
            return Err(
                AxonError::UnexpectedEof {
                    needed: DESCRIPTOR_SIZE as u64,
                    available: d.len() as u64,
                },
            );
        }
        TensorDescriptor::from_bytes_at(d, 0)
    }

    /// Writes the bytes of the descriptor behind `out`.
    pub fn write(&self, out: &mut Vec<u8>)
        requires
            writable(self@),
        ensures
            final(out)@ == old(out)@ + descriptor_bytes(self@),
    {
        put_name(out, self.name.as_str());
        put_u32(out, self.dtype.code());
        put_u32(out, self.shape.len() as u32);
        put_shape(out, &self.shape);
        put_u64(out, self.data_offset);
        put_u64(out, self.data_size);
        put_u32(
            out,
            match self.affinity {
                Affinity::Default => 0,
                Affinity::Hint(n) => n,
            },
        );
        put_u32(out, self.checksum);
        proof {
            reveal(descriptor_bytes);
            let x = self@;
            lemma_chain(
                old(out)@,
                name_field(x.name),
                le32_bytes(dtype_code(x.dtype)),
                le32_bytes(x.shape.len() as u32),
                shape_field(x.shape),
                le64_bytes(x.data_offset),
                le64_bytes(x.data_size),
                le32_bytes(x.affinity),
                le32_bytes(x.checksum),
            );
        }
    }
}

/// Writes the field of a name behind `out`.
fn put_name(out: &mut Vec<u8>, name: &str)
    requires
        name_fits(name@),
    ensures
        final(out)@ == old(out)@ + name_field(name@),
{
    let b = name.as_bytes();
    put_bytes(out, b);
    put_zeros(out, NAME_SIZE - b.len());
    assert(out@ =~= old(out)@ + name_field(name@));
}

/// Writes the field of a shape behind `out`.
fn put_shape(out: &mut Vec<u8>, shape: &Vec<u64>)
    requires
        shape@.len() <= MAX_TENSOR_RANK,
    ensures
        final(out)@ == old(out)@ + shape_field(shape@),
{
    let mut i: usize = 0;
    assert(out@ =~= old(out)@ + shape_bytes(shape@.take(0)));
    while i < shape.len()
        invariant
            i <= shape@.len(),
            out@ == old(out)@ + shape_bytes(shape@.take(i as int)),
        decreases shape@.len() - i,
    {
        put_u64(out, shape[i]);
        assert(shape@.take(i + 1).drop_last() =~= shape@.take(i as int));
        assert(out@ =~= old(out)@ + shape_bytes(shape@.take(i + 1)));
        i += 1;
    }
    assert(shape@.take(i as int) =~= shape@);
    put_zeros(out, 8 * (MAX_TENSOR_RANK - shape.len()));
    assert(out@ =~= old(out)@ + shape_field(shape@));
}

/// The descriptor table of `count` entries that begins at `p`.
pub fn parse_descriptor_table(d: &[u8], p: usize, count: usize) -> (r: AxonResult<
    Vec<TensorDescriptor>,
>)
    requires
        p + count * DESCRIPTOR_SIZE <= d@.len(),
    ensures
        match r {
            Ok(v) => descriptor_table(d@, p as int, count as int, Seq::empty()) == Ok::<
                Seq<Descriptor>,
                Failure,
            >(descriptor_models(v@)) && v@.len() == count,
            Err(e) => descriptor_table(d@, p as int, count as int, Seq::empty()) == Err::<
                Seq<Descriptor>,
                Failure,
            >(e@),
        },
{
    assert(d@.len() == d.len());
    let mut out: Vec<TensorDescriptor> = Vec::new();
    let mut i: usize = 0;
    let mut at: usize = p;
    assert(descriptor_models(out@) =~= Seq::empty());
    while i < count
        invariant
            i <= count,
            out@.len() == i,
            at == p + i * DESCRIPTOR_SIZE,
            p + count * DESCRIPTOR_SIZE <= d@.len(),
            d@.len() == d.len(),
            descriptor_table(d@, p as int, count as int, Seq::empty()) == descriptor_table(
                d@,
                at as int,
                count - i,
                descriptor_models(out@),
            ),
        decreases count - i,
    {
        let x = TensorDescriptor::from_bytes_at(d, at)?;
        proof {
            assert(descriptor_models(out@.push(x)) =~= descriptor_models(out@).push(x@));
        }
        out.push(x);
        at = at + DESCRIPTOR_SIZE;
        i += 1;
    }
    Ok(out)
}

} // verus!
