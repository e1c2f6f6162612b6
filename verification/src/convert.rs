//! Conversion of `.fvecs` files to `.fbin`, in chunks that bound the peak memory.

use vstd::arithmetic::div_mod::lemma_fundamental_div_mod;
use vstd::prelude::*;

use crate::fbin::{
    fbin_row, header, law_header_counts, law_metadata_read_back, low_word, Metadata, HEADER_BYTES,
};
use crate::vecs::{
    law_chunks_add_up, law_payload_bytes, lemma_payloads_len, lemma_payloads_row, payloads,
    row_payload, row_size, shape, strip_dims, vecs_shape, VecsError, CHUNK_BYTES, DIM_BYTES,
    ELEM_BYTES,
};
use crate::words::word_at;

verus! {

/// A conversion in progress: it says how many bytes of the `.fvecs` file to read next, and turns
/// them into the bytes of the `.fbin` file to write next.
#[derive(Debug)]
pub struct FvecsConverter {
    /// The number of rows in the file.
    pub nrows: usize,
    /// The number of elements in a row.
    pub dim: usize,
    /// The number of rows converted so far.
    pub rows_done: usize,
}

/// The `.fbin` file for `nrows` rows of `dim` elements of a `.fvecs` file.
pub open spec fn fbin_file(fvecs: Seq<u8>, nrows: usize, dim: usize) -> Seq<u8> {
    header(nrows, dim) + payloads(fvecs, row_size(dim as int, ELEM_BYTES as int), nrows as nat)
}

impl FvecsConverter {
    /// The size of a row in the file.
    pub open spec fn row_bytes(&self) -> int {
        row_size(self.dim as int, ELEM_BYTES as int)
    }

    /// The invariant of the conversion.
    pub open spec fn wf(&self) -> bool {
        &&& self.dim > 0
        &&& self.rows_done <= self.nrows
        &&& self.nrows > 0
        &&& self.nrows * self.row_bytes() <= usize::MAX
    }

    /// The number of rows that are read at a time.
    pub open spec fn chunk_rows(&self) -> int {
        if CHUNK_BYTES as int / self.row_bytes() > 1 {
            CHUNK_BYTES as int / self.row_bytes()
        } else {
            1
        }
    }

    /// The number of rows to read next.
    pub open spec fn next_rows(&self) -> int {
        if self.nrows - self.rows_done < self.chunk_rows() {
            self.nrows - self.rows_done
        } else {
            self.chunk_rows()
        }
    }

    /// Begin the conversion of a file of `file_len` bytes, given its first bytes.
    pub fn new(file_len: usize, head: &[u8]) -> (result: Result<Self, VecsError>)
        requires
            file_len >= DIM_BYTES ==> head@.len() >= DIM_BYTES,
        ensures
            match shape(file_len, head@, ELEM_BYTES) {
                Ok((nrows, dim)) => {
                    &&& result == Ok::<Self, VecsError>(
                        FvecsConverter { nrows, dim, rows_done: 0 },
                    )
                    &&& result->Ok_0.wf()
                    &&& nrows * result->Ok_0.row_bytes() == file_len
                },
                Err(error) => result == Err::<Self, VecsError>(error),
            },
    {
        match vecs_shape(file_len, head, ELEM_BYTES) {
            Ok((nrows, dim)) => Ok(FvecsConverter { nrows, dim, rows_done: 0 }),
            Err(error) => Err(error),
        }
    }

    /// The header of the `.fbin` file.
    pub fn header(&self) -> (bytes: Vec<u8>)
        ensures
            bytes@ == header(self.nrows, self.dim),
    {
        Metadata::new(self.nrows, self.dim).to_bytes()
    }

    /// The size of a row, which fits where the whole file does.
    fn row_len(&self) -> (len: usize)
        requires
            self.wf(),
        ensures
            len == self.row_bytes(),
            len > DIM_BYTES,
    {
        assert(self.row_bytes() <= usize::MAX) by (nonlinear_arith)
            requires
                self.nrows * self.row_bytes() <= usize::MAX,
                self.nrows > 0,
                self.row_bytes() > 0,
        ;
        DIM_BYTES + self.dim * ELEM_BYTES
    }

    /// How many bytes of the file to read next: whole rows, and none once all rows are done.
    /// No more than [`CHUNK_BYTES`] bytes are asked for, unless a single row is larger.
    pub fn next_chunk_len(&self) -> (len: usize)
        requires
            self.wf(),
        ensures
            len == self.next_rows() * self.row_bytes(),
            len == 0 <==> self.rows_done == self.nrows,
            len <= CHUNK_BYTES || len == self.row_bytes(),
    {
        let row_len: usize = self.row_len();
        let chunk_rows: usize = (CHUNK_BYTES / row_len).max(1);
        let rows: usize = (self.nrows - self.rows_done).min(chunk_rows);
        assert(rows == self.next_rows());
        assert(rows * row_len <= usize::MAX && (rows * row_len == 0 <==> rows == 0))
            by (nonlinear_arith)
            requires
                0 <= rows <= self.nrows,
                self.nrows * row_len <= usize::MAX,
                row_len > 0,
        ;
        assert(rows * row_len <= CHUNK_BYTES || rows * row_len == row_len) by (nonlinear_arith)
            requires
                0 <= rows <= chunk_rows,
                chunk_rows == 1 || chunk_rows == CHUNK_BYTES as int / row_len as int,
                row_len > 0,
        ;
        rows * row_len
    }

    /// Convert the bytes that were read: drop the dimension of every row.
    pub fn convert_chunk(&mut self, raw: &[u8]) -> (data: Vec<u8>)
        requires
            old(self).wf(),
            raw@.len() == old(self).next_rows() * old(self).row_bytes(),
        ensures
            final(self).wf(),
            data@ == payloads(raw@, old(self).row_bytes(), old(self).next_rows() as nat),
            final(self).nrows == old(self).nrows,
            final(self).dim == old(self).dim,
            final(self).rows_done == old(self).rows_done + old(self).next_rows(),
    {
        let row_len: usize = self.row_len();
        let ghost rows = self.next_rows();
        proof {
            vstd::arithmetic::div_mod::lemma_div_multiples_vanish(rows, row_len as int);
            vstd::arithmetic::div_mod::lemma_mod_multiples_basic(rows, row_len as int);
            assert(rows * row_len == row_len * rows) by (nonlinear_arith);
        }
        let data: Vec<u8> = strip_dims(raw, row_len);
        self.rows_done = self.rows_done + raw.len() / row_len;
        data
    }
}

/// Convert a `.fvecs` file to a `.fbin` file.
pub fn fvecs_to_fbin(fvecs: &[u8]) -> (result: Result<Vec<u8>, VecsError>)
    ensures
        match shape(fvecs@.len() as usize, fvecs@, ELEM_BYTES) {
            Ok((nrows, dim)) => result is Ok && result->Ok_0@ == fbin_file(fvecs@, nrows, dim),
            Err(error) => result == Err::<Vec<u8>, VecsError>(error),
        },
{
    let mut converter = match FvecsConverter::new(fvecs.len(), fvecs) {
        Ok(converter) => converter,
        Err(error) => return Err(error),
    };
    let ghost begun = converter;
    let ghost row_bytes = begun.row_bytes();
    let mut fbin: Vec<u8> = converter.header();
    let mut at: usize = 0;
    let file_len: usize = fvecs.len();
    assert(0 * row_bytes == 0);
    assert(fbin@ =~= header(begun.nrows, begun.dim) + payloads(fvecs@, row_bytes, 0));
    while converter.rows_done < converter.nrows
        invariant
            converter.wf(),
            converter.nrows == begun.nrows,
            converter.dim == begun.dim,
            row_bytes == begun.row_bytes(),
            row_bytes > DIM_BYTES,
            begun.nrows * row_bytes == file_len,
            file_len == fvecs@.len(),
            at == converter.rows_done * row_bytes,
            fbin@ == header(begun.nrows, begun.dim) + payloads(
                fvecs@,
                row_bytes,
                converter.rows_done as nat,
            ),
        decreases converter.nrows - converter.rows_done,
    {
        let len: usize = converter.next_chunk_len();
        let ghost done = converter.rows_done as nat;
        let ghost rows = converter.next_rows() as nat;
        assert((done + rows) * row_bytes == at + len && at + len <= file_len) by (nonlinear_arith)
            requires
                at == done * row_bytes,
                len == rows * row_bytes,
                done + rows <= begun.nrows,
                begun.nrows * row_bytes == file_len,
                row_bytes > 0,
        ;
        let chunk: &[u8] = vstd::slice::slice_subrange(fvecs, at, at + len);
        let mut data: Vec<u8> = converter.convert_chunk(chunk);
        fbin.append(&mut data);
        at = at + len;
        proof {
            law_chunks_add_up(fvecs@, row_bytes, done, rows);
            assert(fbin@ =~= header(begun.nrows, begun.dim) + payloads(
                fvecs@,
                row_bytes,
                done + rows,
            ));
        }
    }
    Ok(fbin)
}

/// Reading a converted file gives back what the `.fvecs` file holds: the header says how many
/// rows of how many elements there are, as long as 32 bits can say it, the rows are those of the
/// `.fvecs` file, and nothing follows them.
pub proof fn law_fbin_holds_rows(fvecs: Seq<u8>, nrows: usize, dim: usize, index: int)
    requires
        dim > 0,
        nrows * row_size(dim as int, ELEM_BYTES as int) == fvecs.len(),
        0 <= index < nrows,
    ensures
        nrows <= u32::MAX ==> word_at(fbin_file(fvecs, nrows, dim), 0) == nrows,
        dim <= u32::MAX ==> word_at(fbin_file(fvecs, nrows, dim), 4) == dim,
        fbin_row(fbin_file(fvecs, nrows, dim), dim as nat, index) == row_payload(
            fvecs,
            row_size(dim as int, ELEM_BYTES as int),
            index,
        ),
        fbin_file(fvecs, nrows, dim).len() == HEADER_BYTES + nrows * (4 * dim),
{
    let row_bytes = row_size(dim as int, ELEM_BYTES as int);
    let data = payloads(fvecs, row_bytes, nrows as nat);
    let file = fbin_file(fvecs, nrows, dim);
    let width = 4 * dim as int;
    assert(row_bytes == DIM_BYTES + width) by {
        assert(dim * ELEM_BYTES == 4 * dim) by (nonlinear_arith)
            requires
                ELEM_BYTES == 4,
        ;
    }
    law_metadata_read_back(
        Metadata { npoints: low_word(nrows), ndims: low_word(dim) },
        data,
    );
    lemma_payloads_len(fvecs, row_bytes, nrows as nat);
    lemma_payloads_row(fvecs, row_bytes, nrows as nat, index);
    assert(0 <= index * width && (index + 1) * width == index * width + width)
        by (nonlinear_arith)
        requires
            0 <= index,
            width > 0,
    ;
    assert(fbin_row(file, dim as nat, index) =~= data.subrange(
        index * width,
        (index + 1) * width,
    ));
}

/// The bytes of a `.fbin` file: eight for the counts, and behind them every row of the `.fvecs` file
/// without the four bytes of its dimension.
pub proof fn law_fbin_bytes(fvecs: Seq<u8>, nrows: usize, dim: usize, row: int, column: int)
    requires
        nrows * (4 + 4 * dim) == fvecs.len(),
        0 <= row < nrows,
        0 <= column < 4 * dim,
    ensures
        fbin_file(fvecs, nrows, dim).len() == 8 + nrows * (4 * dim),
        (nrows - word_at(fbin_file(fvecs, nrows, dim), 0)) % 0x1_0000_0000 == 0,
        (dim - word_at(fbin_file(fvecs, nrows, dim), 4)) % 0x1_0000_0000 == 0,
        fbin_file(fvecs, nrows, dim)[8 + row * (4 * dim) + column] == fvecs[row * (4 + 4 * dim) + 4
            + column],
{
    let row_bytes = row_size(dim as int, ELEM_BYTES as int);
    let width = 4 * dim as int;
    assert(row_bytes == 4 + width) by {
        assert(dim * ELEM_BYTES == 4 * dim) by (nonlinear_arith)
            requires
                ELEM_BYTES == 4,
        ;
    }
    let counts = header(nrows, dim);
    let data = payloads(fvecs, row_bytes, nrows as nat);
    law_payload_bytes(fvecs, row_bytes, nrows as nat, row, column);
    law_header_counts(nrows, dim);
    law_metadata_read_back(Metadata { npoints: low_word(nrows), ndims: low_word(dim) }, data);
    assert(0 <= row * width && (row + 1) * width == row * width + width && (row + 1) * width
        <= nrows * width) by (nonlinear_arith)
        requires
            0 <= row < nrows,
            width > 0,
    ;
    assert((counts + data)[8 + row * width + column] == data[row * width + column]);
}

/// A chunk is as many rows as are left or as fit into 64 MiB, and a single row where not even that
/// fits, so that no conversion stops before its last row.
pub proof fn law_chunk_is_full(converter: FvecsConverter)
    requires
        converter.wf(),
    ensures
        converter.row_bytes() == 4 + 4 * converter.dim,
        0 <= converter.next_rows() <= converter.nrows - converter.rows_done,
        converter.rows_done < converter.nrows ==> converter.next_rows() >= 1,
        converter.next_rows() <= 1 || converter.next_rows() * (4 + 4 * converter.dim) <= 0x400_0000,
        converter.next_rows() == converter.nrows - converter.rows_done || (converter.next_rows()
            + 1) * (4 + 4 * converter.dim) > 0x400_0000,
{
    let dim = converter.dim as int;
    let row_bytes = converter.row_bytes();
    let rows = converter.next_rows();
    let chunk = CHUNK_BYTES as int;
    let fitting = chunk / row_bytes;
    assert(dim * ELEM_BYTES == 4 * dim) by (nonlinear_arith)
        requires
            ELEM_BYTES == 4,
    ;
    lemma_fundamental_div_mod(chunk, row_bytes);
    assert(fitting * row_bytes <= chunk && (fitting + 1) * row_bytes > chunk && fitting >= 0)
        by (nonlinear_arith)
        requires
            chunk == row_bytes * fitting + chunk % row_bytes,
            0 <= chunk % row_bytes < row_bytes,
            chunk > 0,
    ;
    if rows > 1 {
        assert(rows * row_bytes <= chunk) by (nonlinear_arith)
            requires
                rows <= fitting,
                fitting * row_bytes <= chunk,
                row_bytes > 0,
        ;
    }
    if rows != converter.nrows - converter.rows_done {
        assert((rows + 1) * row_bytes > chunk) by (nonlinear_arith)
            requires
                rows >= fitting,
                (fitting + 1) * row_bytes > chunk,
                row_bytes > 0,
        ;
    }
}

} // verus!
