//! The `.fbin` format: `[npoints: u32][ndims: u32]`, followed by tightly packed row-major data
//! of 32-bit elements.

use vstd::prelude::*;

use crate::words::{bytes_of, law_word_read_back, push_word, read_word, word_at};

verus! {

/// The size of the header, in bytes.
pub const HEADER_BYTES: usize = 8;

/// What the header of a `.fbin` file says.
#[derive(Debug, Clone, Copy)]
pub struct Metadata {
    /// The number of rows.
    pub npoints: u32,
    /// The number of elements in a row.
    pub ndims: u32,
}

/// The low 32 bits of a count.
pub open spec fn low_word(count: usize) -> u32 {
    (count as int % 0x1_0000_0000) as u32
}

/// The header for `npoints` rows of `ndims` elements, each count cut to its low 32 bits.
pub open spec fn header(npoints: usize, ndims: usize) -> Seq<u8> {
    bytes_of(seq![low_word(npoints), low_word(ndims)])
}

/// The elements of row `index`, as bytes, in a file whose rows have `ndims` elements.
pub open spec fn fbin_row(file: Seq<u8>, ndims: nat, index: int) -> Seq<u8> {
    file.subrange(HEADER_BYTES + index * (4 * ndims), HEADER_BYTES + (index + 1) * (4 * ndims))
}

impl Metadata {
    /// The bytes of the header.
    pub open spec fn bytes(self) -> Seq<u8> {
        bytes_of(seq![self.npoints, self.ndims])
    }

    /// The metadata of `npoints` rows of `ndims` elements, each count cut to its low 32 bits.
    pub fn new(npoints: usize, ndims: usize) -> (metadata: Self)
        ensures
            metadata.npoints == low_word(npoints),
            metadata.ndims == low_word(ndims),
            metadata.bytes() == header(npoints, ndims),
    {
        Metadata {
            npoints: (npoints as u64 % 0x1_0000_0000) as u32,
            ndims: (ndims as u64 % 0x1_0000_0000) as u32,
        }
    }

    /// The header, as bytes.
    pub fn to_bytes(&self) -> (bytes: Vec<u8>)
        ensures
            bytes@ == self.bytes(),
    {
        let mut bytes: Vec<u8> = Vec::new();
        push_word(&mut bytes, self.npoints);
        push_word(&mut bytes, self.ndims);
        assert(bytes@ =~= self.bytes());
        bytes
    }

    /// The metadata that a file begins with, if it is long enough for a header.
    pub fn from_bytes(file: &[u8]) -> (metadata: Option<Self>)
        ensures
            metadata == if file@.len() < HEADER_BYTES {
                None
            } else {
                Some(Metadata { npoints: word_at(file@, 0), ndims: word_at(file@, 4) })
            },
            metadata is Some <==> file@.len() >= 8,
    {
        if file.len() < HEADER_BYTES {
            None
        } else {
            Some(Metadata { npoints: read_word(file, 0), ndims: read_word(file, 4) })
        }
    }

    /// The number of elements in all rows, if there can be so many.
    pub fn num_elements(&self) -> (count: Option<usize>)
        ensures
            count == if self.npoints * self.ndims <= usize::MAX {
                Some((self.npoints * self.ndims) as usize)
            } else {
                None
            },
    {
        let npoints: u64 = self.npoints as u64;
        let ndims: u64 = self.ndims as u64;
        assert(npoints * ndims <= u64::MAX) by (nonlinear_arith)
            requires
                npoints <= u32::MAX,
                ndims <= u32::MAX,
        ;
        let count: u64 = npoints * ndims;
        if count <= usize::MAX as u64 {
            Some(count as usize)
        } else {
            None
        }
    }

    /// Where the elements of row `index` begin and end among those of all rows.
    pub fn row_range(&self, index: usize) -> (range: (usize, usize))
        requires
            index < self.npoints,
            self.npoints * self.ndims <= usize::MAX,
        ensures
            range.0 == index * self.ndims,
            range.1 == (index + 1) * self.ndims,
            range.0 <= range.1 <= self.npoints * self.ndims,
    {
        let ndims: usize = self.ndims as usize;
        assert(0 <= index * ndims && index * ndims + ndims == (index + 1) * ndims && (index + 1)
            * ndims <= self.npoints * self.ndims) by (nonlinear_arith)
            requires
                0 <= index < self.npoints,
                ndims == self.ndims,
        ;
        let start: usize = index * ndims;
        (start, start + ndims)
    }
}

/// The elements in the range of a row are the bytes of that row, behind the header.
pub proof fn law_row_range_is_row(file: Seq<u8>, metadata: Metadata, index: int)
    ensures
        file.subrange(
            HEADER_BYTES + 4 * (index * metadata.ndims),
            HEADER_BYTES + 4 * ((index + 1) * metadata.ndims),
        ) == fbin_row(file, metadata.ndims as nat, index),
{
    let ndims = metadata.ndims as int;
    assert(4 * (index * ndims) == index * (4 * ndims)) by (nonlinear_arith);
    assert(4 * ((index + 1) * ndims) == (index + 1) * (4 * ndims)) by (nonlinear_arith);
}

/// The header of a file gives back the metadata that it was written for.
pub proof fn law_metadata_read_back(metadata: Metadata, data: Seq<u8>)
    ensures
        word_at(metadata.bytes() + data, 0) == metadata.npoints,
        word_at(metadata.bytes() + data, 4) == metadata.ndims,
        metadata.bytes().len() == 8,
        (metadata.bytes() + data).skip(8) == data,
{
    let words = seq![metadata.npoints, metadata.ndims];
    let file = metadata.bytes() + data;
    law_word_read_back(words, 0);
    law_word_read_back(words, 1);
    assert(forall|i: int| 0 <= i < 8 ==> file[i] == bytes_of(words)[i]);
    assert(file.skip(8) =~= data);
}

/// A header is eight bytes that hold first the number of rows and then that of the elements in a
/// row. Each stands for its count, as long as 32 bits can say it, and elsewhere differs from it by
/// a multiple of two to the power of 32.
pub proof fn law_header_counts(npoints: usize, ndims: usize)
    ensures
        header(npoints, ndims).len() == 8,
        (npoints - word_at(header(npoints, ndims), 0)) % 0x1_0000_0000 == 0,
        (ndims - word_at(header(npoints, ndims), 4)) % 0x1_0000_0000 == 0,
        npoints <= u32::MAX ==> word_at(header(npoints, ndims), 0) == npoints,
        ndims <= u32::MAX ==> word_at(header(npoints, ndims), 4) == ndims,
        low_word(npoints) == word_at(header(npoints, ndims), 0),
        low_word(ndims) == word_at(header(npoints, ndims), 4),
{
    let metadata = Metadata { npoints: low_word(npoints), ndims: low_word(ndims) };
    law_metadata_read_back(metadata, Seq::empty());
    assert(header(npoints, ndims) + Seq::empty() =~= header(npoints, ndims));
}

} // verus!
