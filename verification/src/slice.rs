//! Which part of a tensor to load, and where it lies in the file.
use vstd::prelude::*;

use crate::error::{clamp, eof, AxonError, AxonResult, Failure};
use crate::tensor::{dtype_size, element_count, product, DType};
use crate::text::{concat3, decimal, decimal_text};

verus! {

/// Which portion of a tensor to load. Matrices are stored row by row.
#[derive(Clone, Copy, Debug, PartialEq, Eq, Structural)]
pub enum SliceSpec {
    /// The bytes from `byte_offset` up to `byte_offset + size`.
    Bytes { byte_offset: u64, size: u64 },
    /// The rows of a matrix from `row_start` up to `row_end`.
    Rows { row_start: u64, row_end: u64 },
    /// A rectangle of a matrix: rows and columns, each from a start up to an end.
    RowCol { row_start: u64, row_end: u64, col_start: u64, col_end: u64 },
    /// `count` elements from the one at `element_offset`.
    Elements { element_offset: u64, count: u64 },
}

/// The text that a slice of a tensor of the wrong rank is refused with.
pub open spec fn rank_text(kind: Seq<char>, rank: nat) -> Seq<char> {
    kind + " slice requires 2D tensor, got "@ + (decimal_text(rank) + "D"@)
}

fn rank_error(kind: &str, rank: usize) -> (r: AxonError)
    ensures
        r@ == Failure::InvalidManifest(rank_text(kind@, rank as nat)),
{
    let d = decimal(rank as u64);
    let tail = crate::text::concat2(d.as_str(), "D");
    AxonError::InvalidManifest(concat3(kind, " slice requires 2D tensor, got ", tail.as_str()))
}

/// Where a part that begins `start` bytes into the tensor lies, where its place
/// and size can be written down; else the report of the bounds.
pub open spec fn placed(
    data_offset: u64,
    start: int,
    size: int,
    needed: int,
    available: int,
) -> Result<(u64, u64), Failure> {
    if data_offset + start <= u64::MAX && size <= u64::MAX {
        Ok(((data_offset + start) as u64, size as u64))
    } else {
        Err(eof(needed, available))
    }
}

/// Far above every offset that can be written down.
pub const FAR: u128 = 0x10_0000_0000_0000_0000_0000_0000;

/// The number, or the far bound where it is larger.
pub open spec fn reach(n: int) -> int {
    if n > FAR {
        FAR as int
    } else {
        n
    }
}

fn bounds(needed: u128, available: u128) -> (r: AxonError)
    ensures
        r@ == eof(needed as int, available as int),
{
    AxonError::UnexpectedEof { needed: clamp(needed), available: clamp(available) }
}

/// The bytes of `n` elements.
fn wide(n: u64, dtype: DType) -> (r: u128)
    ensures
        r == n * dtype_size(dtype),
        r < 0x8_0000_0000_0000_0000,
{
    let w = dtype.size_in_bytes() as u128;
    assert(n * w <= 0xffff_ffff_ffff_ffff * 8) by (nonlinear_arith)
        requires
            0 <= n <= 0xffff_ffff_ffff_ffff,
            0 <= w <= 8,
    ;
    n as u128 * w
}

/// `n` times `stride`, up to the far bound.
fn scaled(stride: u128, n: u64) -> (r: u128)
    requires
        stride < 0x8_0000_0000_0000_0000,
    ensures
        r == reach(stride * n),
        r == reach(n * stride),
{
    proof {
        let (a, b) = (stride as int, n as int);
        assert(a * b == b * a) by (nonlinear_arith);
        assert(b == 0 ==> a * b == 0) by (nonlinear_arith);
    }
    if n == 0 {
        return 0;
    }
    let q = FAR / n as u128;
    proof {
        let (f, a, b, c) = (FAR as int, stride as int, n as int, q as int);
        assert(a > c ==> a * b > f) by (nonlinear_arith)
            requires
                b > 0,
                c == f / b,
        ;
        assert(a <= c ==> a * b <= f) by (nonlinear_arith)
            requires
                b > 0,
                c == f / b,
        ;
    }
    if stride > q {
        FAR
    } else {
        stride * n as u128
    }
}

fn place(data_offset: u64, start: u128, size: u128, needed: u128, available: u128) -> (r: AxonResult<
    (u64, u64),
>)
    requires
        start <= 2 * FAR,
    ensures
        match r {
            Ok(p) => placed(
                data_offset,
                start as int,
                size as int,
                needed as int,
                available as int,
            ) == Ok::<(u64, u64), Failure>(p),
            Err(e) => placed(
                data_offset,
                start as int,
                size as int,
                needed as int,
                available as int,
            ) == Err::<(u64, u64), Failure>(e@),
        },
{
    let at = data_offset as u128 + start;
    if at <= u64::MAX as u128 && size <= u64::MAX as u128 {
        Ok((at as u64, size as u64))
    } else {
        Err(bounds(needed, available))
    }
}

impl SliceSpec {
    /// The absolute offset and the size in bytes of the part, or why there is
    /// none.
    pub open spec fn resolved(
        self,
        dtype: DType,
        shape: Seq<u64>,
        data_offset: u64,
        data_size: u64,
    ) -> Result<(u64, u64), Failure> {
        let width = dtype_size(dtype) as int;
        let end = data_offset + data_size;
        match self {
            SliceSpec::Bytes { byte_offset, size } => {
                let needed = data_offset + byte_offset + size;
                if byte_offset + size > data_size {
                    Err(eof(needed, end))
                } else {
                    placed(data_offset, byte_offset as int, size as int, needed, end)
                }
            },
            SliceSpec::Rows { row_start, row_end } => {
                if shape.len() != 2 {
                    Err(Failure::InvalidManifest(rank_text("Rows"@, shape.len())))
                } else {
                    let stride = shape[1] * width;
                    let needed = data_offset + stride * shape[0];
                    if row_end > shape[0] || row_start > row_end {
                        Err(eof(needed, end))
                    } else {
                        placed(
                            data_offset,
                            row_start * stride,
                            (row_end - row_start) * stride,
                            needed,
                            end,
                        )
                    }
                }
            },
            SliceSpec::RowCol { row_start, row_end, col_start, col_end } => {
                if shape.len() != 2 {
                    Err(Failure::InvalidManifest(rank_text("RowCol"@, shape.len())))
                } else {
                    let stride = shape[1] * width;
                    let needed = data_offset + stride * shape[0] + col_end * width;
                    if row_end > shape[0] || col_end > shape[1] || row_start > row_end || col_start
                        > col_end {
                        Err(eof(needed, end))
                    } else {
                        placed(
                            data_offset,
                            row_start * stride + col_start * width,
                            (col_end - col_start) * width * (row_end - row_start),
                            needed,
                            end,
                        )
                    }
                }
            },
            SliceSpec::Elements { element_offset, count } => {
                let needed = data_offset + (element_offset + count) * width;
                if element_offset + count > product(shape) {
                    Err(eof(needed, end))
                } else {
                    placed(data_offset, element_offset * width, count * width, needed, end)
                }
            },
        }
    }

    /// The bytes from `byte_offset` on, `size` of them.
    pub fn byte_range(byte_offset: u64, size: u64) -> (r: SliceSpec)
        ensures
            r == (SliceSpec::Bytes { byte_offset, size }),
    {
        SliceSpec::Bytes { byte_offset, size }
    }

    /// The rows from `start` up to `end`.
    pub fn rows(start: u64, end: u64) -> (r: SliceSpec)
        ensures
            r == (SliceSpec::Rows { row_start: start, row_end: end }),
    {
        SliceSpec::Rows { row_start: start, row_end: end }
    }

    /// A rectangle of a matrix.
    pub fn row_col(row_start: u64, row_end: u64, col_start: u64, col_end: u64) -> (r: SliceSpec)
        ensures
            r == (SliceSpec::RowCol { row_start, row_end, col_start, col_end }),
    {
        SliceSpec::RowCol { row_start, row_end, col_start, col_end }
    }

    /// The absolute offset and the size in bytes of the part of a tensor with
    /// the given type and shape, whose data begins at `data_offset` and is
    /// `data_size` bytes long.
    pub fn resolve(&self, dtype: DType, shape: &[u64], data_offset: u64, data_size: u64) -> (r:
        AxonResult<(u64, u64)>)
        ensures
            match r {
                Ok(p) => self.resolved(dtype, shape@, data_offset, data_size) == Ok::<
                    (u64, u64),
                    Failure,
                >(p),
                Err(e) => self.resolved(dtype, shape@, data_offset, data_size) == Err::<
                    (u64, u64),
                    Failure,
                >(e@),
            },
    {
        let base = data_offset as u128;
        let end = base + data_size as u128;
        match self {
            SliceSpec::Bytes { byte_offset, size } => {
                let needed = base + *byte_offset as u128 + *size as u128;
                if *byte_offset as u128 + *size as u128 > data_size as u128 {
                    return Err(bounds(needed, end));
                }
                place(data_offset, *byte_offset as u128, *size as u128, needed, end)
            },
            SliceSpec::Rows { row_start, row_end } => {
                if shape.len() != 2 {
                    return Err(rank_error("Rows", shape.len()));
                }
                let stride = wide(shape[1], dtype);
                let needed = base + scaled(stride, shape[0]);
                if *row_end > shape[0] || *row_start > *row_end {
                    return Err(bounds(needed, end));
                }
                let start = scaled(stride, *row_start);
                let size = scaled(stride, *row_end - *row_start);
                place(data_offset, start, size, needed, end)
            },
            SliceSpec::RowCol { row_start, row_end, col_start, col_end } => {
                if shape.len() != 2 {
                    return Err(rank_error("RowCol", shape.len()));
                }
                let stride = wide(shape[1], dtype);
                let needed = base + scaled(stride, shape[0]) + wide(*col_end, dtype);
                if *row_end > shape[0] || *col_end > shape[1] || *row_start > *row_end || *col_start
                    > *col_end {
                    return Err(bounds(needed, end));
                }
                let start = scaled(stride, *row_start) + wide(*col_start, dtype);
                let size = scaled(wide(*col_end - *col_start, dtype), *row_end - *row_start);
                place(data_offset, start, size, needed, end)
            },
            SliceSpec::Elements { element_offset, count } => {
                let total = element_count(shape);
                let stop = *element_offset as u128 + *count as u128;
                let needed = base + wide(*element_offset, dtype) + wide(*count, dtype);
                proof {
                    let (a, b, w) = (*element_offset as int, *count as int, dtype_size(dtype) as int);
                    assert((a + b) * w == a * w + b * w) by (nonlinear_arith);
                }
                if stop > total {
                    return Err(bounds(needed, end));
                }
                place(
                    data_offset,
                    wide(*element_offset, dtype),
                    wide(*count, dtype),
                    needed,
                    end,
                )
            },
        }
    }
}

/// A part of a tensor: its bytes, and the shape and type that they have.
#[derive(Debug)]
pub struct TensorSlice {
    /// The bytes.
    pub data: Vec<u8>,
    /// The shape of the part.
    pub shape: Vec<u64>,
    /// The type of the elements.
    pub dtype: DType,
}

impl TensorSlice {
    /// A part with the given bytes, shape and type.
    pub fn new(data: Vec<u8>, shape: Vec<u64>, dtype: DType) -> (r: TensorSlice)
        ensures
            r.data@ == data@,
            r.shape@ == shape@,
            r.dtype == dtype,
    {
        TensorSlice { data, shape, dtype }
    }

    /// Number of elements in this part.
    pub fn num_elements(&self) -> (r: u64)
        requires
            product(self.shape@) <= u64::MAX,
        ensures
            r == product(self.shape@),
    {
        element_count(self.shape.as_slice()) as u64
    }
}

// ── Laws ────────────────────────────────────────────────────────────
proof fn lemma_matrix_product(shape: Seq<u64>)
    requires
        shape.len() == 2,
    ensures
        product(shape) == shape[0] * shape[1],
{
    reveal_with_fuel(product, 3);
    let s = shape.drop_last();
    assert(s.last() == shape[0]);
    assert(1 * shape[0] as nat == shape[0] as nat) by (nonlinear_arith);
}

/// A part that resolves lies within the tensor, where the tensor has as many
/// bytes as its shape asks for. A rectangle must have a row: one without rows
/// and with a column behind the first may lie behind the last row.
pub proof fn lemma_slice_in_tensor(
    spec: SliceSpec,
    dtype: DType,
    shape: Seq<u64>,
    data_offset: u64,
    data_size: u64,
)
    requires
        product(shape) * dtype_size(dtype) == data_size,
        spec.resolved(dtype, shape, data_offset, data_size) is Ok,
        spec matches SliceSpec::RowCol { row_start, row_end, .. } ==> row_start < row_end,
    ensures
        ({
            let (offset, size) = spec.resolved(dtype, shape, data_offset, data_size)->Ok_0;
            data_offset <= offset && offset + size <= data_offset + data_size
        }),
{
    let w = dtype_size(dtype) as int;
    match spec {
        SliceSpec::Bytes { byte_offset, size } => {},
        SliceSpec::Rows { row_start, row_end } => {
            lemma_matrix_product(shape);
            let (a, b, r, c) = (
                row_start as int,
                row_end as int,
                shape[0] as int,
                shape[1] as int,
            );
            let stride = c * w;
            assert(0 <= a * stride) by (nonlinear_arith)
                requires
                    0 <= a,
                    stride == c * w,
                    0 <= c,
                    0 <= w,
            ;
            assert(a * stride + (b - a) * stride <= (r * c) * w) by (nonlinear_arith)
                requires
                    0 <= a <= b <= r,
                    0 <= c,
                    0 <= w,
                    stride == c * w,
            ;
        },
        SliceSpec::RowCol { row_start, row_end, col_start, col_end } => {
            lemma_matrix_product(shape);
            let (a, b, r, c) = (
                row_start as int,
                row_end as int,
                shape[0] as int,
                shape[1] as int,
            );
            let (p, q) = (col_start as int, col_end as int);
            let stride = c * w;
            assert(0 <= a * stride + p * w) by (nonlinear_arith)
                requires
                    0 <= a,
                    0 <= p,
                    stride == c * w,
                    0 <= c,
                    0 <= w,
            ;
            lemma_rectangle(a, b, r, p, q, c, w);
        },
        SliceSpec::Elements { element_offset, count } => {
            let (a, n, total) = (element_offset as int, count as int, product(shape) as int);
            assert(a * w + n * w <= total * w) by (nonlinear_arith)
                requires
                    0 <= a,
                    0 <= n,
                    a + n <= total,
                    0 <= w,
            ;
        },
    }
}

proof fn lemma_rectangle(a: int, b: int, r: int, p: int, q: int, c: int, w: int)
    requires
        0 <= a < b <= r,
        0 <= p <= q <= c,
        0 <= w,
    ensures
        a * (c * w) + p * w + (q - p) * w * (b - a) <= (r * c) * w,
{
    let h = b - a;
    assert(p * w <= p * w * h) by (nonlinear_arith)
        requires
            0 <= p,
            0 <= w,
            h >= 1,
    ;
    assert(p * w * h + (q - p) * w * h == q * w * h) by (nonlinear_arith);
    assert(q * w * h <= c * w * h) by (nonlinear_arith)
        requires
            q <= c,
            0 <= w,
            h >= 1,
    ;
    assert(a * (c * w) + c * w * h == b * (c * w)) by (nonlinear_arith)
        requires
            h == b - a,
    ;
    assert(b * (c * w) <= (r * c) * w) by (nonlinear_arith)
        requires
            b <= r,
            0 <= c,
            0 <= w,
    ;
}

/// The place of an element in a tensor whose bytes begin at `data_offset`.
pub open spec fn element_place(dtype: DType, data_offset: int, index: int) -> int {
    data_offset + index * dtype_size(dtype)
}

/// Of a matrix that is stored row by row, some rows begin where the first element of
/// their first row does, and end where their last element does. A rectangle begins
/// where its first element does, and has the bytes of its elements. A range of
/// elements begins and ends where its elements do.
pub proof fn lemma_parts_placed(
    dtype: DType,
    shape: Seq<u64>,
    data_offset: u64,
    data_size: u64,
    a: u64,
    b: u64,
    p: u64,
    q: u64,
)
    requires
        data_offset + product(shape) * dtype_size(dtype) <= u64::MAX,
        a <= b,
        p <= q,
    ensures
        shape.len() == 2 && b <= shape[0] ==> ({
            let r = (SliceSpec::Rows { row_start: a, row_end: b }).resolved(
                dtype,
                shape,
                data_offset,
                data_size,
            );
            &&& r is Ok
            &&& r->Ok_0.0 == element_place(dtype, data_offset as int, a * shape[1])
            &&& r->Ok_0.0 + r->Ok_0.1 == element_place(dtype, data_offset as int, b * shape[1])
        }),
        shape.len() == 2 && a < b <= shape[0] && q <= shape[1] ==> ({
            let r = (SliceSpec::RowCol {
                row_start: a,
                row_end: b,
                col_start: p,
                col_end: q,
            }).resolved(dtype, shape, data_offset, data_size);
            &&& r is Ok
            &&& r->Ok_0.0 == element_place(dtype, data_offset as int, a * shape[1] + p)
            &&& r->Ok_0.1 == ((b - a) * (q - p)) * dtype_size(dtype)
        }),
        a + p <= product(shape) ==> ({
            let r = (SliceSpec::Elements { element_offset: a, count: p }).resolved(
                dtype,
                shape,
                data_offset,
                data_size,
            );
            &&& r is Ok
            &&& r->Ok_0.0 == element_place(dtype, data_offset as int, a as int)
            &&& r->Ok_0.0 + r->Ok_0.1 == element_place(dtype, data_offset as int, a + p)
        }),
{
    let (w, total) = (dtype_size(dtype) as int, product(shape) as int);
    let (x, y, s, t) = (a as int, b as int, p as int, q as int);
    assert((x + s) * w == x * w + s * w) by (nonlinear_arith);
    assert(x + s <= total ==> (x + s) * w <= total * w) by (nonlinear_arith)
        requires
            0 <= w,
    ;
    assert(0 <= x * w && 0 <= s * w) by (nonlinear_arith)
        requires
            0 <= x,
            0 <= s,
            0 <= w,
    ;
    if shape.len() == 2 {
        lemma_matrix_product(shape);
        let (r, c) = (shape[0] as int, shape[1] as int);
        assert(x * (c * w) == (x * c) * w && y * (c * w) == (y * c) * w) by (nonlinear_arith);
        assert((y - x) * (c * w) == (y * c) * w - (x * c) * w) by (nonlinear_arith);
        assert(0 <= x * (c * w) <= y * (c * w)) by (nonlinear_arith)
            requires
                0 <= x <= y,
                0 <= c,
                0 <= w,
        ;
        assert(y <= r ==> (y * c) * w <= (r * c) * w) by (nonlinear_arith)
            requires
                0 <= c,
                0 <= w,
        ;
        assert((x * c + s) * w == (x * c) * w + s * w) by (nonlinear_arith);
        assert((t - s) * w * (y - x) == ((y - x) * (t - s)) * w) by (nonlinear_arith);
        if x < y <= r && t <= c {
            lemma_rectangle(x, y, r, s, t, c, w);
            assert(0 <= (t - s) * w * (y - x)) by (nonlinear_arith)
                requires
                    s <= t,
                    0 <= w,
                    x <= y,
            ;
        }
    }
}

/// A part that is not wholly in the tensor is refused, and so is one that ends before
/// it begins. The report says where the bytes that it was measured by end, and where
/// the tensor's do.
pub proof fn lemma_parts_refused(
    dtype: DType,
    shape: Seq<u64>,
    data_offset: u64,
    data_size: u64,
    a: u64,
    b: u64,
    p: u64,
    q: u64,
)
    ensures
        a + b > data_size ==> (SliceSpec::Bytes { byte_offset: a, size: b }).resolved(
            dtype,
            shape,
            data_offset,
            data_size,
        ) == Err::<(u64, u64), Failure>(eof(data_offset + a + b, data_offset + data_size)),
        a + b <= data_size && data_offset + data_size <= u64::MAX ==> (SliceSpec::Bytes {
            byte_offset: a,
            size: b,
        }).resolved(dtype, shape, data_offset, data_size) == Ok::<(u64, u64), Failure>(
            ((data_offset + a) as u64, b),
        ),
        shape.len() == 2 && (b > shape[0] || a > b) ==> (SliceSpec::Rows {
            row_start: a,
            row_end: b,
        }).resolved(dtype, shape, data_offset, data_size) == Err::<(u64, u64), Failure>(
            eof(
                element_place(dtype, data_offset as int, product(shape) as int),
                data_offset + data_size,
            ),
        ),
        shape.len() == 2 && (b > shape[0] || a > b || q > shape[1] || p > q) ==> (SliceSpec::RowCol {
            row_start: a,
            row_end: b,
            col_start: p,
            col_end: q,
        }).resolved(dtype, shape, data_offset, data_size) == Err::<(u64, u64), Failure>(
            eof(
                element_place(dtype, data_offset as int, product(shape) + q),
                data_offset + data_size,
            ),
        ),
        a + b > product(shape) ==> (SliceSpec::Elements { element_offset: a, count: b }).resolved(
            dtype,
            shape,
            data_offset,
            data_size,
        ) == Err::<(u64, u64), Failure>(
            eof(element_place(dtype, data_offset as int, a + b), data_offset + data_size),
        ),
{
    if shape.len() == 2 {
        lemma_matrix_product(shape);
        let (r, c, w) = (shape[0] as int, shape[1] as int, dtype_size(dtype) as int);
        let t = q as int;
        assert((c * w) * r == (r * c) * w) by (nonlinear_arith);
        assert((r * c + t) * w == (r * c) * w + t * w) by (nonlinear_arith);
    }
}

} // verus!
