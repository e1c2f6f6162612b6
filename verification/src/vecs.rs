//! The row-prefixed `.fvecs` and `.ivecs` formats of the public benchmark datasets.
//!
//! `.fvecs` rows are `[dim: i32][dim x f32]` and `.ivecs` rows are `[dim: i32][dim x i32]`.

use vstd::arithmetic::div_mod::{lemma_fundamental_div_mod, lemma_mod_multiples_basic};
use vstd::prelude::*;

use crate::words::{read_word, signed, to_signed, word_at};

verus! {

/// The size of the dimension that a row begins with, in bytes.
pub const DIM_BYTES: usize = 4;

/// The size of an element, in bytes.
pub const ELEM_BYTES: usize = 4;

/// The number of bytes that a conversion holds at a time, unless a single row is larger.
pub const CHUNK_BYTES: usize = 0x400_0000;

/// Why a file is no sequence of rows.
#[derive(Debug, Clone, Copy, PartialEq, Eq)]
pub enum VecsError {
    /// The file is too small to contain a row dimension.
    TooSmall,
    /// The row dimension is not positive.
    InvalidDimension(i32),
    /// The file size is not a multiple of the row size.
    PartialRow { file_len: usize, row_bytes: u128, dim: usize },
}

/// The size of a row of `dim` elements of `elem_size` bytes.
pub open spec fn row_size(dim: int, elem_size: int) -> int {
    DIM_BYTES + dim * elem_size
}

/// The number of rows and the row dimension of a file of `file_len` bytes that begins with
/// `head`.
pub open spec fn shape(file_len: usize, head: Seq<u8>, elem_size: usize) -> Result<
    (usize, usize),
    VecsError,
> {
    let dim = signed(word_at(head, 0));
    let row_bytes = row_size(dim as int, elem_size as int);
    if file_len < DIM_BYTES {
        Err(VecsError::TooSmall)
    } else if dim <= 0 {
        Err(VecsError::InvalidDimension(dim))
    } else if file_len as int % row_bytes != 0 {
        Err(VecsError::PartialRow { file_len, row_bytes: row_bytes as u128, dim: dim as usize })
    } else {
        Ok(((file_len as int / row_bytes) as usize, dim as usize))
    }
}

/// Read the row dimensionality and row count of a `.fvecs`/`.ivecs` file of `file_len` bytes
/// from its first bytes.
pub fn vecs_shape(file_len: usize, head: &[u8], elem_size: usize) -> (result: Result<
    (usize, usize),
    VecsError,
>)
    requires
        file_len >= DIM_BYTES ==> head@.len() >= DIM_BYTES,
    ensures
        result == shape(file_len, head@, elem_size),
        result matches Ok((nrows, dim)) ==> {
            &&& nrows > 0
            &&& dim > 0
            &&& nrows * row_size(dim as int, elem_size as int) == file_len
        },
{
    if file_len < DIM_BYTES {
        return Err(VecsError::TooSmall);
    }
    let dim: i32 = to_signed(read_word(head, 0));
    if dim <= 0 {
        return Err(VecsError::InvalidDimension(dim));
    }
    let dim: usize = dim as usize;
    assert(dim * elem_size <= 0x8000_0000 * 0x1_0000_0000_0000_0000) by (nonlinear_arith)
        requires
            dim <= 0x8000_0000,
            elem_size <= 0xFFFF_FFFF_FFFF_FFFF,
    ;
    assert(dim * elem_size >= 0) by (nonlinear_arith)
        requires
            dim >= 0,
            elem_size >= 0,
    ;
    let row_bytes: u128 = DIM_BYTES as u128 + dim as u128 * elem_size as u128;
    if file_len as u128 % row_bytes != 0 {
        return Err(VecsError::PartialRow { file_len, row_bytes, dim });
    }
    let nrows: u128 = file_len as u128 / row_bytes;
    proof {
        lemma_fundamental_div_mod(file_len as int, row_bytes as int);
        assert(0 < nrows <= file_len && nrows * row_bytes == file_len) by (nonlinear_arith)
            requires
                file_len == row_bytes * nrows,
                file_len > 0,
                row_bytes > 0,
                nrows >= 0,
        ;
    }
    Ok((nrows as usize, dim))
}

/// The elements of row `index`, as bytes.
pub open spec fn row_payload(raw: Seq<u8>, row_bytes: int, index: int) -> Seq<u8> {
    raw.subrange(index * row_bytes + DIM_BYTES, (index + 1) * row_bytes)
}

/// The elements of the first `rows` rows, as bytes, without the dimensions in between.
pub open spec fn payloads(raw: Seq<u8>, row_bytes: int, rows: nat) -> Seq<u8>
    decreases rows,
{
    if rows == 0 {
        Seq::empty()
    } else {
        payloads(raw, row_bytes, (rows - 1) as nat) + row_payload(raw, row_bytes, rows - 1)
    }
}

/// Drop the dimension of every row.
pub fn strip_dims(raw: &[u8], row_bytes: usize) -> (data: Vec<u8>)
    requires
        row_bytes > DIM_BYTES,
        raw@.len() % (row_bytes as nat) == 0,
    ensures
        data@ == payloads(raw@, row_bytes as int, raw@.len() / (row_bytes as nat)),
{
    let len: usize = raw.len();
    let rows: usize = len / row_bytes;
    let mut data: Vec<u8> = Vec::new();
    let mut row: usize = 0;
    let mut at: usize = 0;
    proof {
        lemma_fundamental_div_mod(raw@.len() as int, row_bytes as int);
        assert(0 * row_bytes == 0);
    }
    while row < rows
        invariant
            row <= rows,
            row_bytes > DIM_BYTES,
            at == row * row_bytes,
            row_bytes * rows == len,
            len == raw@.len(),
            data@ == payloads(raw@, row_bytes as int, row as nat),
        decreases rows - row,
    {
        assert((row + 1) * row_bytes == at + row_bytes && at + row_bytes <= len)
            by (nonlinear_arith)
            requires
                at == row * row_bytes,
                row < rows,
                row_bytes * rows == len,
        ;
        data.extend_from_slice(vstd::slice::slice_subrange(raw, at + DIM_BYTES, at + row_bytes));
        proof {
            assert(data@ =~= payloads(raw@, row_bytes as int, (row + 1) as nat));
        }
        at = at + row_bytes;
        row = row + 1;
    }
    data
}

/// Rows that lie in both sequences at the same place have the same elements.
proof fn lemma_payloads_agree(a: Seq<u8>, b: Seq<u8>, row_bytes: int, rows: nat)
    requires
        row_bytes > DIM_BYTES,
        rows * row_bytes <= a.len(),
        rows * row_bytes <= b.len(),
        forall|i: int| 0 <= i < rows * row_bytes ==> a[i] == b[i],
    ensures
        payloads(a, row_bytes, rows) == payloads(b, row_bytes, rows),
    decreases rows,
{
    if rows > 0 {
        let before = (rows - 1) as nat;
        assert(rows * row_bytes == before * row_bytes + row_bytes && before * row_bytes >= 0)
            by (nonlinear_arith)
            requires
                before == rows - 1,
                before >= 0,
                row_bytes > 0,
        ;
        lemma_payloads_agree(a, b, row_bytes, before);
        assert(row_payload(a, row_bytes, before as int) =~= row_payload(
            b,
            row_bytes,
            before as int,
        ));
    }
}

/// The number of bytes in the elements of `rows` rows.
pub proof fn lemma_payloads_len(raw: Seq<u8>, row_bytes: int, rows: nat)
    requires
        row_bytes > DIM_BYTES,
        rows * row_bytes <= raw.len(),
    ensures
        payloads(raw, row_bytes, rows).len() == rows * (row_bytes - DIM_BYTES),
    decreases rows,
{
    if rows > 0 {
        let before = (rows - 1) as nat;
        assert(rows * row_bytes == before * row_bytes + row_bytes && before * row_bytes >= 0 && rows
            * (row_bytes - 4) == before * (row_bytes - 4) + (row_bytes - 4)) by (nonlinear_arith)
            requires
                before == rows - 1,
                before >= 0,
                row_bytes > 0,
        ;
        lemma_payloads_len(raw, row_bytes, before);
    } else {
        assert(0 * (row_bytes - 4) == 0);
    }
}

/// Where the elements of a row stand among those of all rows.
pub proof fn lemma_payloads_row(raw: Seq<u8>, row_bytes: int, rows: nat, index: int)
    requires
        row_bytes > DIM_BYTES,
        rows * row_bytes <= raw.len(),
        0 <= index < rows,
    ensures
        (index + 1) * (row_bytes - DIM_BYTES) <= payloads(raw, row_bytes, rows).len(),
        payloads(raw, row_bytes, rows).subrange(
            index * (row_bytes - DIM_BYTES),
            (index + 1) * (row_bytes - DIM_BYTES),
        ) == row_payload(raw, row_bytes, index),
    decreases rows,
{
    let width = row_bytes - DIM_BYTES;
    let before = (rows - 1) as nat;
    assert(rows * row_bytes == before * row_bytes + row_bytes && before * row_bytes >= 0)
        by (nonlinear_arith)
        requires
            before == rows - 1,
            before >= 0,
            row_bytes > 0,
    ;
    assert(0 <= index * width && (index + 1) * width == index * width + width && (index + 1)
        * width <= rows * width) by (nonlinear_arith)
        requires
            0 <= index < rows,
            width > 0,
    ;
    lemma_payloads_len(raw, row_bytes, rows);
    lemma_payloads_len(raw, row_bytes, before);
    let all = payloads(raw, row_bytes, rows);
    if index == before {
        assert(all.subrange(index * width, (index + 1) * width) =~= row_payload(
            raw,
            row_bytes,
            index,
        ));
    } else {
        lemma_payloads_row(raw, row_bytes, before, index);
        assert(all.subrange(index * width, (index + 1) * width) =~= payloads(
            raw,
            row_bytes,
            before,
        ).subrange(index * width, (index + 1) * width));
    }
}

/// What the shape of a file says: a file of less than four bytes has none, the first four bytes
/// are the dimension, which has to be positive, and the file is that many rows of a dimension and
/// its elements, or it is no number of such rows.
pub proof fn law_shape(file_len: usize, head: Seq<u8>, elem_size: usize)
    ensures
        match shape(file_len, head, elem_size) {
            Err(VecsError::TooSmall) => file_len < 4,
            Err(VecsError::InvalidDimension(dim)) => {
                &&& file_len >= 4
                &&& dim == signed(word_at(head, 0))
                &&& dim <= 0
            },
            Err(VecsError::PartialRow { file_len: len, row_bytes, dim }) => {
                &&& file_len >= 4
                &&& dim == signed(word_at(head, 0))
                &&& dim > 0
                &&& len == file_len
                &&& row_bytes == 4 + dim * elem_size
                &&& forall|nrows: int| #[trigger] (nrows * (4 + dim * elem_size)) != file_len
            },
            Ok((nrows, dim)) => {
                &&& file_len >= 4
                &&& dim == signed(word_at(head, 0))
                &&& dim > 0
                &&& nrows * (4 + dim * elem_size) == file_len
                &&& nrows > 0
            },
        },
{
    let dim = signed(word_at(head, 0)) as int;
    let row_bytes = row_size(dim, elem_size as int);
    if file_len >= 4 && dim > 0 {
        let elem = elem_size as int;
        assert(0 <= dim * elem <= 0x8000_0000 * 0x1_0000_0000_0000_0000) by (nonlinear_arith)
            requires
                0 < dim <= 0x8000_0000,
                0 <= elem <= 0xFFFF_FFFF_FFFF_FFFF,
        ;
        let nrows = file_len as int / row_bytes;
        lemma_fundamental_div_mod(file_len as int, row_bytes);
        if file_len as int % row_bytes == 0 {
            assert(0 < nrows <= file_len && nrows * row_bytes == file_len) by (nonlinear_arith)
                requires
                    file_len == row_bytes * nrows,
                    file_len > 0,
                    row_bytes > 0,
            ;
        } else {
            assert forall|n: int| #[trigger] (n * (4 + dim * elem)) != file_len by {
                lemma_mod_multiples_basic(n, row_bytes);
            }
        }
    }
}

/// The elements of all rows are the bytes of the rows behind their first four, row by row.
pub proof fn law_payload_bytes(raw: Seq<u8>, row_bytes: int, rows: nat, row: int, column: int)
    requires
        row_bytes > 4,
        rows * row_bytes <= raw.len(),
        0 <= row < rows,
        0 <= column < row_bytes - 4,
    ensures
        payloads(raw, row_bytes, rows).len() == rows * (row_bytes - 4),
        payloads(raw, row_bytes, rows)[row * (row_bytes - 4) + column] == raw[row * row_bytes + 4
            + column],
{
    let width = row_bytes - 4;
    lemma_payloads_len(raw, row_bytes, rows);
    lemma_payloads_row(raw, row_bytes, rows, row);
    assert(0 <= row * width && (row + 1) * width == row * width + width && 0 <= row * row_bytes
        && (row + 1) * row_bytes == row * row_bytes + row_bytes && (row + 1) * row_bytes <= rows
        * row_bytes) by (nonlinear_arith)
        requires
            0 <= row < rows,
            width > 0,
            row_bytes > 0,
    ;
    let all = payloads(raw, row_bytes, rows);
    assert(all.subrange(row * width, (row + 1) * width)[column] == row_payload(
        raw,
        row_bytes,
        row,
    )[column]);
}

/// Converting a file chunk by chunk gives what converting it at once gives: the elements of the
/// first `done` rows, followed by those of the next chunk of `rows` rows, are the elements of
/// the first `done + rows` rows.
pub proof fn law_chunks_add_up(file: Seq<u8>, row_bytes: int, done: nat, rows: nat)
    requires
        row_bytes > DIM_BYTES,
        (done + rows) * row_bytes <= file.len(),
    ensures
        payloads(file, row_bytes, done) + payloads(
            file.subrange(done * row_bytes, (done + rows) * row_bytes),
            row_bytes,
            rows,
        ) == payloads(file, row_bytes, done + rows),
    decreases rows,
{
    assert((done + rows) * row_bytes == done * row_bytes + rows * row_bytes && done * row_bytes >= 0
        && rows * row_bytes >= 0) by (nonlinear_arith)
        requires
            done >= 0,
            rows >= 0,
            row_bytes > 0,
    ;
    let chunk = file.subrange(done * row_bytes, (done + rows) * row_bytes);
    if rows == 0 {
        assert(payloads(file, row_bytes, done) + payloads(chunk, row_bytes, rows) =~= payloads(
            file,
            row_bytes,
            done,
        ));
    } else {
        let before = (rows - 1) as nat;
        assert(rows * row_bytes == before * row_bytes + row_bytes && (done + before) * row_bytes
            == done * row_bytes + before * row_bytes && before * row_bytes >= 0)
            by (nonlinear_arith)
            requires
                before == rows - 1,
                before >= 0,
                row_bytes > 0,
        ;
        law_chunks_add_up(file, row_bytes, done, before);
        let shorter = file.subrange(done * row_bytes, (done + before) * row_bytes);
        lemma_payloads_agree(chunk, shorter, row_bytes, before);
        assert(row_payload(chunk, row_bytes, before as int) =~= row_payload(
            file,
            row_bytes,
            (done + before) as int,
        )) by {
            assert((done + before + 1) * row_bytes == done * row_bytes + (before + 1) * row_bytes)
                by (nonlinear_arith);
            assert((before + 1) * row_bytes == before * row_bytes + row_bytes) by (nonlinear_arith);
        }
        assert(payloads(file, row_bytes, done) + payloads(chunk, row_bytes, rows) =~= payloads(
            file,
            row_bytes,
            done + rows,
        ));
    }
}

} // verus!
