use ici_core::mf4::blocks::compressed_data_block::{read_dz_block, untranspose};

#[test]
fn untranspose_reverses_a_hand_built_transpose() {
    let transposed = [1u8, 4, 2, 5, 3, 6];
    let restored = untranspose(&transposed, 3);
    assert_eq!(restored, vec![1, 2, 3, 4, 5, 6]);
}

#[test]
fn untranspose_leaves_a_trailing_partial_row_untouched() {
    let transposed = [1u8, 3, 2, 4, 5];
    let restored = untranspose(&transposed, 2);
    assert_eq!(restored, vec![1, 2, 3, 4, 5]);
}

#[test]
fn untranspose_row_len_zero_is_identity() {
    let data = [9u8, 8, 7];
    assert_eq!(untranspose(&data, 0), vec![9, 8, 7]);
}

fn dz_bytes(zip_type: u8, zip_parameter: u32, inflated_len: u64, compressed: &[u8]) -> Vec<u8> {
    let mut bytes = Vec::new();
    bytes.extend_from_slice(b"##DZ");
    bytes.extend_from_slice(&[0u8; 4]);
    let block_len = (48 + compressed.len()) as u64;
    bytes.extend_from_slice(&block_len.to_le_bytes());
    bytes.extend_from_slice(&1u64.to_le_bytes());
    bytes.extend_from_slice(b"DT");
    bytes.push(zip_type);
    bytes.push(0);
    bytes.extend_from_slice(&zip_parameter.to_le_bytes());
    bytes.extend_from_slice(&inflated_len.to_le_bytes());
    bytes.extend_from_slice(&(compressed.len() as u64).to_le_bytes());
    bytes.extend_from_slice(compressed);
    bytes
}

#[test]
fn read_dz_block_roundtrips_plain_deflate() {
    let payload = b"hello ici world, this is a test payload for deflate";
    let compressed = miniz_oxide::deflate::compress_to_vec_zlib(payload, 6);
    let bytes = dz_bytes(0, 0, payload.len() as u64, &compressed);
    let block = read_dz_block(&bytes).unwrap();
    assert_eq!(block.data, payload);
}

#[test]
fn read_dz_block_roundtrips_transpose_deflate() {
    let row_len = 3usize;
    let rows: [[u8; 3]; 4] = [[1, 2, 3], [4, 5, 6], [7, 8, 9], [10, 11, 12]];
    let plain: Vec<u8> = rows.iter().flatten().copied().collect();
    let num_rows = plain.len() / row_len;
    let mut transposed = vec![0u8; plain.len()];
    for col in 0..row_len {
        for row in 0..num_rows {
            transposed[col * num_rows + row] = plain[row * row_len + col];
        }
    }
    let compressed = miniz_oxide::deflate::compress_to_vec_zlib(&transposed, 6);
    let bytes = dz_bytes(1, row_len as u32, transposed.len() as u64, &compressed);
    let block = read_dz_block(&bytes).unwrap();
    assert_eq!(block.data, plain);
}
