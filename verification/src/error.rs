//! The errors that the container's operations report.
use vstd::prelude::*;

use crate::text::{concat2, concat4, decimal, decimal_text};

verus! {

/// What went wrong.
#[derive(Debug)]
pub enum AxonError {
    /// Reading from a source failed.
    Io(String),
    /// The data ends before a region that it announces.
    UnexpectedEof { needed: u64, available: u64 },
    /// Structural metadata that cannot be used.
    InvalidManifest(String),
    /// An element type that is not known.
    InvalidDtype(u32),
    /// A format version that is not supported.
    UnsupportedVersion(u32),
    /// The file does not begin with the container's magic bytes.
    InvalidMagic,
    /// No tensor has this name.
    TensorNotFound(String),
}

/// The mathematical value of an [`AxonError`].
#[verifier::ext_equal]
pub enum Failure {
    Io(Seq<char>),
    UnexpectedEof { needed: u64, available: u64 },
    InvalidManifest(Seq<char>),
    InvalidDtype(u32),
    UnsupportedVersion(u32),
    InvalidMagic,
    TensorNotFound(Seq<char>),
}

impl View for AxonError {
    type V = Failure;

    open spec fn view(&self) -> Failure {
        match self {
            AxonError::Io(m) => Failure::Io(m@),
            AxonError::UnexpectedEof { needed, available } => Failure::UnexpectedEof {
                needed: *needed,
                available: *available,
            },
            AxonError::InvalidManifest(m) => Failure::InvalidManifest(m@),
            AxonError::InvalidDtype(c) => Failure::InvalidDtype(*c),
            AxonError::UnsupportedVersion(v) => Failure::UnsupportedVersion(*v),
            AxonError::InvalidMagic => Failure::InvalidMagic,
            AxonError::TensorNotFound(n) => Failure::TensorNotFound(n@),
        }
    }
}

/// The result of an operation on the container.
pub type AxonResult<T> = Result<T, AxonError>;

/// The number as it fits sixty-four bits: itself, or the largest one.
pub open spec fn clamp_u64(n: int) -> u64 {
    if n > u64::MAX {
        u64::MAX
    } else {
        n as u64
    }
}

/// `n` as sixty-four bits, or the largest number that fits.
pub fn clamp(n: u128) -> (r: u64)
    ensures
        r == clamp_u64(n as int),
{
    if n > u64::MAX as u128 {
        u64::MAX
    } else {
        n as u64
    }
}

/// The report that `needed` bytes were asked of `available`.
pub open spec fn eof(needed: int, available: int) -> Failure {
    Failure::UnexpectedEof { needed: clamp_u64(needed), available: clamp_u64(available) }
}

/// The text that a short read is reported with.
pub open spec fn short_read() -> Failure {
    Failure::Io("failed to fill whole buffer"@)
}

/// The error of a read that found too few bytes.
pub fn short_read_error() -> (r: AxonError)
    ensures
        r@ == short_read(),
{
    AxonError::Io("failed to fill whole buffer".to_owned())
}

/// An [`AxonError::InvalidManifest`] with the given text.
pub fn invalid(message: &str) -> (r: AxonError)
    ensures
        r@ == Failure::InvalidManifest(message@),
{
    AxonError::InvalidManifest(message.to_owned())
}

/// The text that an error is shown with.
pub open spec fn failure_text(e: Failure) -> Seq<char> {
    match e {
        Failure::Io(m) => "I/O error: "@ + m,
        Failure::UnexpectedEof { needed, available } => "unexpected end of file: needed "@
            + decimal_text(needed as nat) + " bytes, have "@ + decimal_text(available as nat),
        Failure::InvalidManifest(m) => "invalid manifest: "@ + m,
        Failure::InvalidDtype(c) => "invalid dtype code: "@ + decimal_text(c as nat),
        Failure::UnsupportedVersion(v) => "unsupported version: "@ + decimal_text(v as nat),
        Failure::InvalidMagic => "invalid magic bytes"@,
        Failure::TensorNotFound(n) => "tensor not found: "@ + n,
    }
}

impl AxonError {
    /// The text that the error is shown with.
    pub fn message(&self) -> (r: String)
        ensures
            r@ == failure_text(self@),
    {
        match self {
            AxonError::Io(m) => concat2("I/O error: ", m.as_str()),
            AxonError::UnexpectedEof { needed, available } => concat4(
                "unexpected end of file: needed ",
                decimal(*needed).as_str(),
                " bytes, have ",
                decimal(*available).as_str(),
            ),
            AxonError::InvalidManifest(m) => concat2("invalid manifest: ", m.as_str()),
            AxonError::InvalidDtype(c) => concat2(
                "invalid dtype code: ",
                decimal(*c as u64).as_str(),
            ),
            AxonError::UnsupportedVersion(v) => concat2(
                "unsupported version: ",
                decimal(*v as u64).as_str(),
            ),
            AxonError::InvalidMagic => "invalid magic bytes".to_owned(),
            AxonError::TensorNotFound(n) => concat2("tensor not found: ", n.as_str()),
        }
    }
}

} // verus!
