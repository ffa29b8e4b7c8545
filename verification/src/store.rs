//! Byte ranges of a file.
use vstd::prelude::*;

use crate::bytes::{slice, to_vec};
use crate::error::{clamp, eof, AxonError, AxonResult, Failure};

verus! {

/// The bytes from `offset` on, `size` of them, where there are so many.
pub open spec fn range_of(d: Seq<u8>, offset: int, size: int) -> Result<Seq<u8>, Failure> {
    if offset + size > d.len() {
        Err(eof(offset + size, d.len() as int))
    } else {
        Ok(d.subrange(offset, offset + size))
    }
}

/// The bytes of a file, which are mapped and not copied.
#[derive(Clone, Copy, Debug)]
pub struct MmapStore<'a> {
    /// The bytes.
    pub data: &'a [u8],
}

impl<'a> MmapStore<'a> {
    /// A store of the given bytes.
    pub fn new(data: &'a [u8]) -> (r: MmapStore<'a>)
        ensures
            r.data@ == data@,
    {
        MmapStore { data }
    }

    /// The number of bytes.
    pub fn len(&self) -> (r: u64)
        ensures
            r == self.data@.len(),
    {
        self.data.len() as u64
    }

    /// The bytes from `offset` on, `size` of them, where there are so many.
    pub fn raw_slice(&self, offset: u64, size: u64) -> (r: Option<&'a [u8]>)
        ensures
            match r {
                Some(b) => range_of(self.data@, offset as int, size as int) == Ok::<
                    Seq<u8>,
                    Failure,
                >(b@),
                None => range_of(self.data@, offset as int, size as int) is Err,
            },
    {
        let end = offset as u128 + size as u128;
        if end > self.data.len() as u128 {
            return None;
        }
        Some(slice(self.data, offset as usize, end as usize))
    }

    /// The bytes from `offset` on, `size` of them, borrowed.
    pub fn view_bytes(&self, offset: u64, size: u64) -> (r: AxonResult<&'a [u8]>)
        ensures
            match r {
                Ok(b) => range_of(self.data@, offset as int, size as int) == Ok::<
                    Seq<u8>,
                    Failure,
                >(b@),
                Err(e) => range_of(self.data@, offset as int, size as int) == Err::<
                    Seq<u8>,
                    Failure,
                >(e@),
            },
    {
        match self.raw_slice(offset, size) {
            Some(b) => Ok(b),
            None => Err(
                AxonError::UnexpectedEof {
                    needed: clamp(offset as u128 + size as u128),
                    available: self.len(),
                },
            ),
        }
    }

    /// A copy of the bytes from `offset` on, `size` of them.
    pub fn read_bytes(&self, offset: u64, size: u64) -> (r: AxonResult<Vec<u8>>)
        ensures
            match r {
                Ok(b) => range_of(self.data@, offset as int, size as int) == Ok::<
                    Seq<u8>,
                    Failure,
                >(b@),
                Err(e) => range_of(self.data@, offset as int, size as int) == Err::<
                    Seq<u8>,
                    Failure,
                >(e@),
            },
    {
        let b = self.view_bytes(offset, size)?;
        Ok(to_vec(b))
    }
}

} // verus!
