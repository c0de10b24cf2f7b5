//! DZBLOCK: a zipped data fragment, inflated (and un-transposed) into a
//! plain data block.
//!
//! Layout after the 24-byte header: block type of the inflated data (2 bytes), zip type
//! (1 byte: 0 = deflate, 1 = transpose + deflate), a reserved byte, the zip
//! parameter (4 bytes: the transpose row length), the inflated length
//! (8 bytes) and the compressed length (8 bytes); the zlib stream follows.

use vstd::prelude::*;
use vstd::slice::{slice_subrange, slice_to_vec};
use vstd::arithmetic::div_mod::lemma_fundamental_div_mod_converse;
use crate::bytes::{le_u32_at, le_u64_at, read_u32_le, read_u64_le};
use crate::mf4::blocks::header::{BlockHeader, ID_DZ, spec_id, spec_read_header, too_short, same_id};
use crate::mf4::blocks::data_block::DataBlock;
use crate::mf4::error::{MdfError, ExpectedBlock, LayoutProblem, view_result};

verus! {

/// The bytes `miniz_oxide::inflate::decompress_to_vec_zlib` inflates a zlib
/// stream to, or `None` where it reports an error.
pub uninterp spec fn zlib_inflated(input: Seq<u8>) -> Option<Seq<u8>>;

/// Calls `miniz_oxide::inflate::decompress_to_vec_zlib`. Claimed: the result
/// is what that function returns for these bytes (its error mapped to `None`);
/// nothing is claimed about what the inflated bytes are.
#[verifier::external_body]
fn inflate_zlib(input: &[u8]) -> (out: Option<Vec<u8>>)
    ensures
        match out {
            Some(v) => zlib_inflated(input@) == Some(v@),
            None => zlib_inflated(input@) is None,
        },
{
    miniz_oxide::inflate::decompress_to_vec_zlib(input).ok()
}

/// The fields of a DZ header: zip type, zip parameter, inflated length, compressed length.
pub open spec fn spec_dz_fields(s: Seq<u8>) -> (u8, u32, u64, u64) {
    (s[26], le_u32_at(s, 28), le_u64_at(s, 32), le_u64_at(s, 40))
}

/// Reading a DZ header: a `##DZ` block of at least 48 bytes.
pub open spec fn spec_read_dz_header(s: Seq<u8>) -> Result<(u8, u32, u64, u64), MdfError> {
    match spec_read_header(s) {
        Err(e) => Err(e),
        Ok(h) => if spec_id(s) != ID_DZ@ {
            Err(MdfError::BlockIDError { actual: h.id, expected: ExpectedBlock::One(ID_DZ) })
        } else if s.len() < 48 {
            Err(too_short(s.len() as int, 48))
        } else {
            Ok(spec_dz_fields(s))
        },
    }
}

/// Reads the DZ-specific fields: zip type, zip parameter, inflated length
/// and compressed length.
pub fn read_dz_header(bytes: &[u8]) -> (res: Result<(u8, u32, u64, u64), MdfError>)
    ensures
        res == spec_read_dz_header(bytes@),
{
    let header = BlockHeader::from_bytes(bytes)?;
    assert(header.id@ =~= spec_id(bytes@));
    if !same_id(&header.id, &ID_DZ) {
        return Err(MdfError::BlockIDError { actual: header.id, expected: ExpectedBlock::One(ID_DZ) });
    }
    if bytes.len() < 48 {
        return Err(MdfError::TooShortBuffer { actual: bytes.len(), expected: 48 });
    }
    let zip_type = bytes[26];
    let zip_parameter = read_u32_le(bytes, 28);
    let org_data_length = read_u64_le(bytes, 32);
    let data_length = read_u64_le(bytes, 40);
    Ok((zip_type, zip_parameter, org_data_length, data_length))
}

/// Undoes the transposition of `row_len`-byte rows: byte `col` of row `row`
/// is stored at `col * rows + row`; bytes after the last whole row stay put.
pub open spec fn untransposed(data: Seq<u8>, row_len: nat) -> Seq<u8> {
    if row_len == 0 {
        data
    } else {
        let r = row_len as int;
        let rows = data.len() as int / r;
        Seq::new(
            data.len(),
            |i: int|
                if i < rows * r {
                    data[(i % r) * rows + i / r]
                } else {
                    data[i]
                },
        )
    }
}

/// The transposition a writer applies before deflating: rows of `row_len`
/// bytes, stored column by column; bytes after the last whole row stay put.
pub open spec fn transposed(data: Seq<u8>, row_len: nat) -> Seq<u8> {
    if row_len == 0 {
        data
    } else {
        let r = row_len as int;
        let rows = data.len() as int / r;
        Seq::new(
            data.len(),
            |i: int|
                if i < rows * r {
                    data[(i % rows) * r + i / rows]
                } else {
                    data[i]
                },
        )
    }
}

proof fn lemma_cell(row: int, col: int, r: int, n: int)
    requires
        0 <= row < n,
        0 <= col < r,
    ensures
        row * r + col < n * r,
        col * n + row < n * r,
        (row * r + col) / r == row,
        (row * r + col) % r == col,
        (col * n + row) / n == col,
        (col * n + row) % n == row,
{
    assert(row * r + col < n * r) by (nonlinear_arith)
        requires
            0 <= row < n,
            0 <= col < r,
    ;
    assert(col * n + row < n * r) by (nonlinear_arith)
        requires
            0 <= row < n,
            0 <= col < r,
    ;
    lemma_fundamental_div_mod_converse(row * r + col, r, row, col);
    lemma_fundamental_div_mod_converse(col * n + row, n, col, row);
}

proof fn lemma_split(i: int, r: int, n: int)
    requires
        0 <= i < n * r,
        r > 0,
    ensures
        0 <= i / r < n,
        0 <= i % r < r,
        i == (i / r) * r + i % r,
{
    assert(i == (i / r) * r + i % r && 0 <= i % r < r && 0 <= i / r) by (nonlinear_arith)
        requires
            r > 0,
            0 <= i,
    ;
    assert(i / r < n) by (nonlinear_arith)
        requires
            0 <= i < n * r,
            r > 0,
            i == (i / r) * r + i % r,
            0 <= i % r,
    ;
}

/// Reverses MDF4's DZ "transpose" pre-compression step (see `untransposed`).
pub fn untranspose(data: &[u8], row_len: usize) -> (out: Vec<u8>)
    ensures
        out@ == untransposed(data@, row_len as nat),
{
    if row_len == 0 {
        return slice_to_vec(data);
    }
    let num_rows = data.len() / row_len;
    assert(num_rows * row_len <= data@.len()) by (nonlinear_arith)
        requires
            num_rows == data@.len() as int / (row_len as int),
            row_len > 0,
    ;
    let transposed_len = num_rows * row_len;
    let ghost len = data@.len() as int;
    let ghost r = row_len as int;
    let ghost n = num_rows as int;
    let ghost target = untransposed(data@, row_len as nat);
    let mut out: Vec<u8> = vec![0u8; data.len()];
    let mut col: usize = 0;
    while col < row_len
        invariant
            out@.len() == len,
            len == data@.len(),
            r == row_len,
            n == num_rows,
            transposed_len == n * r,
            n * r <= len,
            n == len / r,
            r > 0,
            col <= row_len,
            target == untransposed(data@, row_len as nat),
            forall|i: int| 0 <= i < n * r && i % r < col ==> out@[i] == target[i],
        decreases row_len - col,
    {
        let mut row: usize = 0;
        while row < num_rows
            invariant
                out@.len() == len,
                len == data@.len(),
                r == row_len,
                n == num_rows,
                transposed_len == n * r,
                n * r <= len,
                n == len / r,
                r > 0,
                col < row_len,
                row <= num_rows,
                target == untransposed(data@, row_len as nat),
                forall|i: int|
                    0 <= i < n * r && (i % r < col || (i % r == col && i / r < row)) ==> out@[i]
                        == target[i],
            decreases num_rows - row,
        {
            proof {
                lemma_cell(row as int, col as int, r, n);
            }
            let dst = row * row_len + col;
            let src = col * num_rows + row;
            let ghost before = out@;
            out.set(dst, data[src]);
            proof {
                assert forall|i: int|
                    0 <= i < n * r && (i % r < col || (i % r == col && i / r < row + 1)) implies out@[i]
                    == target[i] by {
                    if i == dst as int {
                        assert(target[i] == data@[(i % r) * n + i / r]);
                    } else {
                        assert(out@[i] == before[i]);
                        if i % r == col && i / r == row {
                            lemma_split(i, r, n);
                        }
                    }
                }
            }
            row += 1;
        }
        proof {
            assert forall|i: int| 0 <= i < n * r && i % r < col + 1 implies out@[i] == target[i] by {
                lemma_split(i, r, n);
            }
        }
        col += 1;
    }
    let mut k: usize = transposed_len;
    while k < data.len()
        invariant
            out@.len() == len,
            len == data@.len(),
            r == row_len,
            n == num_rows,
            transposed_len == n * r,
            n * r <= k <= len,
            n == len / r,
            r > 0,
            target == untransposed(data@, row_len as nat),
            forall|i: int| 0 <= i < n * r ==> out@[i] == target[i],
            forall|i: int| n * r <= i < k ==> out@[i] == target[i],
        decreases data@.len() - k,
    {
        out.set(k, data[k]);
        k += 1;
    }
    proof {
        assert forall|i: int| 0 <= i < n * r implies out@[i] == target[i] by {
            lemma_split(i, r, n);
        }
        assert(out@ =~= target);
    }
    out
}

/// Un-transposing undoes the writer's transposition, for every row length.
pub proof fn lemma_untranspose_inverts_transpose(data: Seq<u8>, row_len: nat)
    ensures
        untransposed(transposed(data, row_len), row_len) == data,
{
    if row_len > 0 {
        let r = row_len as int;
        let n = data.len() as int / r;
        let t = transposed(data, row_len);
        let u = untransposed(t, row_len);
        assert(t.len() == data.len());
        assert(n * r <= data.len()) by (nonlinear_arith)
            requires
                n == data.len() as int / r,
                r > 0,
        ;
        assert forall|i: int| 0 <= i < data.len() implies u[i] == data[i] by {
            if i < n * r {
                lemma_split(i, r, n);
                let row = i / r;
                let col = i % r;
                lemma_cell(row, col, r, n);
                assert(u[i] == t[col * n + row]);
                assert(t[col * n + row] == data[row * r + col]);
            }
        }
        assert(u =~= data);
    }
}

/// Reading a DZ block: its header, the compressed bytes it declares, their
/// inflation to exactly the declared length, and the zip type's
/// post-processing.
pub open spec fn spec_read_dz_block(s: Seq<u8>) -> Result<(BlockHeader, Seq<u8>), MdfError> {
    match spec_read_header(s) {
        Err(e) => Err(e),
        Ok(h) => match spec_read_dz_header(s) {
            Err(e) => Err(e),
            Ok((zip_type, zip_parameter, org_len, data_len)) => {
                let end = if 48 + (data_len as usize) > usize::MAX {
                    usize::MAX as int
                } else {
                    48 + (data_len as usize)
                };
                if end > s.len() {
                    Err(too_short(s.len() as int, end))
                } else {
                    match zlib_inflated(s.subrange(48, end)) {
                        None => Err(MdfError::BlockSerializationError(LayoutProblem::InflateFailed)),
                        Some(inflated) => if inflated.len() != org_len {
                            Err(
                                MdfError::BlockSerializationError(
                                    LayoutProblem::InflatedLengthMismatch {
                                        inflated: inflated.len() as u64,
                                        declared: org_len,
                                    },
                                ),
                            )
                        } else if zip_type == 0 {
                            Ok((h, inflated))
                        } else if zip_type == 1 {
                            Ok((h, untransposed(inflated, zip_parameter as usize as nat)))
                        } else {
                            Err(
                                MdfError::BlockSerializationError(
                                    LayoutProblem::UnsupportedZipType(zip_type),
                                ),
                            )
                        },
                    }
                }
            },
        },
    }
}

/// Parses and fully decodes a `##DZ` fragment into a plain data block, as
/// if it had been an uncompressed fragment all along.
pub fn read_dz_block(bytes: &[u8]) -> (res: Result<DataBlock, MdfError>)
    ensures
        view_result(res) == spec_read_dz_block(bytes@),
{
    let header = BlockHeader::from_bytes(bytes)?;
    let (zip_type, zip_parameter, org_data_length, data_length) = read_dz_header(bytes)?;
    let payload_start: usize = 48;
    let payload_end = payload_start.saturating_add(data_length as usize);
    if payload_end > bytes.len() {
        return Err(MdfError::TooShortBuffer { actual: bytes.len(), expected: payload_end });
    }
    let compressed = slice_subrange(bytes, payload_start, payload_end);
    let inflated = match inflate_zlib(compressed) {
        Some(v) => v,
        None => {
            return Err(MdfError::BlockSerializationError(LayoutProblem::InflateFailed));
        },
    };
    if inflated.len() as u64 != org_data_length {
        return Err(
            MdfError::BlockSerializationError(
                LayoutProblem::InflatedLengthMismatch {
                    inflated: inflated.len() as u64,
                    declared: org_data_length,
                },
            ),
        );
    }
    let data = match zip_type {
        0 => inflated,
        1 => untranspose(&inflated, zip_parameter as usize),
        other => {
            return Err(
                MdfError::BlockSerializationError(LayoutProblem::UnsupportedZipType(other)),
            );
        },
    };
    Ok(DataBlock { header, data })
}

} // verus!
