//! Element types and shapes.
use vstd::prelude::*;

use crate::error::{AxonError, AxonResult, Failure};
use crate::text::decimal_text;

verus! {

/// The largest number of dimensions that a descriptor can hold.
pub const MAX_TENSOR_RANK: usize = 8;

/// The type of a tensor's elements.
#[derive(Clone, Copy, Debug, PartialEq, Eq, Structural)]
pub enum DType {
    F32,
    F16,
    BF16,
    I32,
    I64,
    U8,
    I8,
    I16,
    Q4,
    Q8,
}

/// The number that stands for the type in a file.
pub open spec fn dtype_code(d: DType) -> u32 {
    match d {
        DType::F32 => 0,
        DType::F16 => 1,
        DType::BF16 => 2,
        DType::I32 => 3,
        DType::I64 => 4,
        DType::U8 => 5,
        DType::I8 => 6,
        DType::I16 => 7,
        DType::Q4 => 8,
        DType::Q8 => 9,
    }
}

/// The type that a number in a file stands for.
pub open spec fn dtype_of(code: u32) -> Option<DType> {
    if code == 0 {
        Some(DType::F32)
    } else if code == 1 {
        Some(DType::F16)
    } else if code == 2 {
        Some(DType::BF16)
    } else if code == 3 {
        Some(DType::I32)
    } else if code == 4 {
        Some(DType::I64)
    } else if code == 5 {
        Some(DType::U8)
    } else if code == 6 {
        Some(DType::I8)
    } else if code == 7 {
        Some(DType::I16)
    } else if code == 8 {
        Some(DType::Q4)
    } else if code == 9 {
        Some(DType::Q8)
    } else {
        None
    }
}

/// The name that the type is shown with.
pub open spec fn dtype_name(d: DType) -> Seq<char> {
    match d {
        DType::F32 => "F32"@,
        DType::F16 => "F16"@,
        DType::BF16 => "BF16"@,
        DType::I32 => "I32"@,
        DType::I64 => "I64"@,
        DType::U8 => "U8"@,
        DType::I8 => "I8"@,
        DType::I16 => "I16"@,
        DType::Q4 => "Q4"@,
        DType::Q8 => "Q8"@,
    }
}

/// The bytes that one element takes. The block types count one byte.
pub open spec fn dtype_size(d: DType) -> nat {
    match d {
        DType::F32 => 4,
        DType::F16 => 2,
        DType::BF16 => 2,
        DType::I32 => 4,
        DType::I64 => 8,
        DType::U8 => 1,
        DType::I8 => 1,
        DType::I16 => 2,
        DType::Q4 => 1,
        DType::Q8 => 1,
    }
}

/// The letters that the name of a type begins with.
pub open spec fn dtype_letters(d: DType) -> Seq<char> {
    match d {
        DType::F32 | DType::F16 => "F"@,
        DType::BF16 => "BF"@,
        DType::I32 | DType::I64 | DType::I8 | DType::I16 => "I"@,
        DType::U8 => "U"@,
        DType::Q4 | DType::Q8 => "Q"@,
    }
}

/// The name of a type is its letters and how many bits an element has; the elements
/// of the block types have four and eight.
pub proof fn lemma_dtype_name(d: DType)
    ensures
        dtype_name(d) == dtype_letters(d) + decimal_text(
            if d == DType::Q4 {
                4
            } else {
                8 * dtype_size(d)
            },
        ),
{
    reveal_strlit("F");
    reveal_strlit("BF");
    reveal_strlit("I");
    reveal_strlit("U");
    reveal_strlit("Q");
    reveal_strlit("F32");
    reveal_strlit("F16");
    reveal_strlit("BF16");
    reveal_strlit("I32");
    reveal_strlit("I64");
    reveal_strlit("U8");
    reveal_strlit("I8");
    reveal_strlit("I16");
    reveal_strlit("Q4");
    reveal_strlit("Q8");
    reveal_with_fuel(decimal_text, 3);
    assert(dtype_name(d) =~= dtype_letters(d) + decimal_text(
        if d == DType::Q4 {
            4
        } else {
            8 * dtype_size(d)
        },
    ));
}

/// The numbers of the types in a file are fixed.
pub proof fn lemma_dtype_numbers(d: DType)
    ensures
        dtype_code(d) == 0 <==> d == DType::F32,
        dtype_code(d) == 1 <==> d == DType::F16,
        dtype_code(d) == 2 <==> d == DType::BF16,
        dtype_code(d) == 3 <==> d == DType::I32,
        dtype_code(d) == 4 <==> d == DType::I64,
        dtype_code(d) == 5 <==> d == DType::U8,
        dtype_code(d) == 6 <==> d == DType::I8,
        dtype_code(d) == 7 <==> d == DType::I16,
        dtype_code(d) == 8 <==> d == DType::Q4,
        dtype_code(d) == 9 <==> d == DType::Q8,
{
}

/// Every type is read back from its own number, and no two types share one.
pub proof fn lemma_dtype_code(d: DType, code: u32)
    ensures
        dtype_of(dtype_code(d)) == Some(d),
        dtype_of(code) matches Some(e) ==> dtype_code(e) == code,
{
}

impl DType {
    /// The number that stands for the type in a file.
    pub fn code(self) -> (r: u32)
        ensures
            r == dtype_code(self),
    {
        match self {
            DType::F32 => 0,
            DType::F16 => 1,
            DType::BF16 => 2,
            DType::I32 => 3,
            DType::I64 => 4,
            DType::U8 => 5,
            DType::I8 => 6,
            DType::I16 => 7,
            DType::Q4 => 8,
            DType::Q8 => 9,
        }
    }

    /// The type that a number in a file stands for.
    pub fn from_code(code: u32) -> (r: AxonResult<DType>)
        ensures
            match r {
                Ok(d) => dtype_of(code) == Some(d),
                Err(e) => dtype_of(code) is None && e@ == Failure::InvalidDtype(code),
            },
    {
        match code {
            0 => Ok(DType::F32),
            1 => Ok(DType::F16),
            2 => Ok(DType::BF16),
            3 => Ok(DType::I32),
            4 => Ok(DType::I64),
            5 => Ok(DType::U8),
            6 => Ok(DType::I8),
            7 => Ok(DType::I16),
            8 => Ok(DType::Q4),
            9 => Ok(DType::Q8),
            _ => Err(AxonError::InvalidDtype(code)),
        }
    }

    /// The name that the type is shown with.
    pub fn name(self) -> (r: &'static str)
        ensures
            r@ == dtype_name(self),
    {
        match self {
            DType::F32 => "F32",
            DType::F16 => "F16",
            DType::BF16 => "BF16",
            DType::I32 => "I32",
            DType::I64 => "I64",
            DType::U8 => "U8",
            DType::I8 => "I8",
            DType::I16 => "I16",
            DType::Q4 => "Q4",
            DType::Q8 => "Q8",
        }
    }

    /// The bytes that one element takes. The block types count one byte.
    pub fn size_in_bytes(self) -> (r: usize)
        ensures
            r == dtype_size(self),
    {
        match self {
            DType::F32 => 4,
            DType::F16 => 2,
            DType::BF16 => 2,
            DType::I32 => 4,
            DType::I64 => 8,
            DType::U8 => 1,
            DType::I8 => 1,
            DType::I16 => 2,
            DType::Q4 => 1,
            DType::Q8 => 1,
        }
    }
}

// ── Shapes ──────────────────────────────────────────────────────────
/// The number of elements of a shape.
pub open spec fn product(shape: Seq<u64>) -> nat
    decreases shape.len(),
{
    if shape.len() == 0 {
        1
    } else {
        product(shape.drop_last()) * shape.last() as nat
    }
}

/// The bound above which a product is no longer told apart.
pub const PRODUCT_CAP: u128 = 0x4_0000_0000_0000_0000;

/// The product, or the cap where it is larger.
pub open spec fn capped(n: nat) -> nat {
    if n > PRODUCT_CAP {
        PRODUCT_CAP as nat
    } else {
        n
    }
}

proof fn lemma_product_step(p: nat, d: nat)
    ensures
        d == 0 ==> p * d == 0,
        d >= 1 ==> p * d >= p,
        d >= 4 && p >= 0x1_0000_0000_0000_0000 ==> p * d >= PRODUCT_CAP,
        p <= 0xffff_ffff_ffff_ffff && d <= 0xffff_ffff_ffff_ffff ==> p * d < 0x1_0000_0000_0000_0000
            * 0x1_0000_0000_0000_0000,
        d <= 3 && p <= PRODUCT_CAP ==> p * d <= 3 * PRODUCT_CAP,
{
    assert(d == 0 ==> p * d == 0) by (nonlinear_arith);
    assert(d >= 1 ==> p * d >= p) by (nonlinear_arith);
    assert(d >= 4 && p >= 0x1_0000_0000_0000_0000 ==> p * d >= 0x4_0000_0000_0000_0000)
        by (nonlinear_arith);
    assert(p <= 0xffff_ffff_ffff_ffff && d <= 0xffff_ffff_ffff_ffff ==> p * d
        < 0x1_0000_0000_0000_0000 * 0x1_0000_0000_0000_0000) by (nonlinear_arith);
    assert(d <= 3 && p <= 0x4_0000_0000_0000_0000 ==> p * d <= 3 * 0x4_0000_0000_0000_0000)
        by (nonlinear_arith);
}

/// The number of elements of a shape, up to the cap.
pub fn element_count(shape: &[u64]) -> (r: u128)
    ensures
        r == capped(product(shape@)),
{
    let mut acc: u128 = 1;
    let mut i: usize = 0;
    assert(shape@.take(0) =~= Seq::empty());
    while i < shape.len()
        invariant
            i <= shape@.len(),
            acc == capped(product(shape@.take(i as int))),
        decreases shape@.len() - i,
    {
        let d = shape[i];
        let ghost p = product(shape@.take(i as int));
        proof {
            assert(shape@.take(i + 1).drop_last() =~= shape@.take(i as int));
            lemma_product_step(p, d as nat);
            lemma_product_step(acc as nat, d as nat);
        }
        if d >= 4 && acc > 0xffff_ffff_ffff_ffff {
            acc = PRODUCT_CAP;
        } else {
            assert(acc * d <= u128::MAX);
            acc = acc * d as u128;
            if acc > PRODUCT_CAP {
                acc = PRODUCT_CAP;
            }
        }
        i += 1;
    }
    assert(shape@.take(i as int) =~= shape@);
    acc
}

} // verus!
