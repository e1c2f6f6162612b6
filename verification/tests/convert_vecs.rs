use diskann::convert::{fvecs_to_fbin, FvecsConverter};
use diskann::fbin::Metadata;
use diskann::ground_truth::{
    ground_truth, ivecs_to_ground_truth, read_neighbor_ids, GroundTruthError,
};
use diskann::vecs::{strip_dims, vecs_shape, VecsError, CHUNK_BYTES};
use diskann::words::{push_words, read_word, to_signed};

fn fvecs(rows: &[&[f32]]) -> Vec<u8> {
    let mut file = Vec::new();
    for row in rows {
        file.extend_from_slice(&(row.len() as i32).to_le_bytes());
        for x in row.iter() {
            file.extend_from_slice(&x.to_le_bytes());
        }
    }
    file
}

fn ivecs(rows: &[&[i32]]) -> Vec<u8> {
    let mut file = Vec::new();
    for row in rows {
        file.extend_from_slice(&(row.len() as i32).to_le_bytes());
        for x in row.iter() {
            file.extend_from_slice(&x.to_le_bytes());
        }
    }
    file
}

#[test]
fn shape_of_a_file() {
    assert_eq!(vecs_shape(24, &[2, 0, 0, 0], 4), Ok((2, 2)));
    assert_eq!(vecs_shape(6, &[2, 0, 0, 0], 1), Ok((1, 2)));
    assert_eq!(vecs_shape(0, &[], 4), Err(VecsError::TooSmall));
    assert_eq!(vecs_shape(3, &[2, 0, 0], 4), Err(VecsError::TooSmall));
    assert_eq!(
        vecs_shape(8, &[0, 0, 0, 0], 4),
        Err(VecsError::InvalidDimension(0))
    );
    assert_eq!(
        vecs_shape(8, &[255, 255, 255, 255], 4),
        Err(VecsError::InvalidDimension(-1))
    );
    assert_eq!(
        vecs_shape(25, &[2, 0, 0, 0], 4),
        Err(VecsError::PartialRow {
            file_len: 25,
            row_bytes: 12,
            dim: 2
        })
    );
    assert_eq!(
        vecs_shape(4, &[255, 255, 255, 127], 4),
        Err(VecsError::PartialRow {
            file_len: 4,
            row_bytes: 8_589_934_592,
            dim: 2_147_483_647
        })
    );
}

#[test]
fn a_converted_file_holds_the_rows() {
    let rows: [&[f32]; 3] = [&[1.0, -2.5], &[3.0, 4.0], &[f32::MAX, 0.125]];
    let fbin = fvecs_to_fbin(&fvecs(&rows)).unwrap();
    let mut expected = vec![3, 0, 0, 0, 2, 0, 0, 0];
    for row in rows {
        for x in row {
            expected.extend_from_slice(&x.to_le_bytes());
        }
    }
    assert_eq!(fbin, expected);
    let metadata = Metadata::from_bytes(&fbin).unwrap();
    assert_eq!((metadata.npoints, metadata.ndims), (3, 2));
    assert_eq!(metadata.num_elements(), Some(6));
}

#[test]
fn a_refused_file_is_not_converted() {
    assert_eq!(fvecs_to_fbin(&[1, 0]), Err(VecsError::TooSmall));
    assert_eq!(
        fvecs_to_fbin(&[254, 255, 255, 255]),
        Err(VecsError::InvalidDimension(-2))
    );
    let mut file = fvecs(&[&[1.0, 2.0]]);
    file.push(0);
    assert_eq!(
        fvecs_to_fbin(&file),
        Err(VecsError::PartialRow {
            file_len: 13,
            row_bytes: 12,
            dim: 2
        })
    );
}

#[test]
fn chunks_add_up_to_the_file() {
    // Rows of one and a half million elements: eleven of them make a chunk.
    let dim: usize = 1_500_000;
    let row_bytes = 4 + 4 * dim;
    let nrows = 25;
    let mut head = [0u8; 4];
    head.copy_from_slice(&(dim as u32).to_le_bytes());
    let mut converter = FvecsConverter::new(nrows * row_bytes, &head).unwrap();
    assert_eq!(converter.header(), Metadata::new(nrows, dim).to_bytes());
    let mut sizes = Vec::new();
    let mut row = vec![0u8; row_bytes];
    row[..4].copy_from_slice(&head);
    while converter.next_chunk_len() > 0 {
        let len = converter.next_chunk_len();
        assert!(len <= CHUNK_BYTES);
        let mut chunk = Vec::new();
        for i in 0..len / row_bytes {
            row[4] = (converter.rows_done + i) as u8;
            chunk.extend_from_slice(&row);
        }
        let before = converter.rows_done;
        let data = converter.convert_chunk(&chunk);
        for i in 0..converter.rows_done - before {
            assert_eq!(data[i * 4 * dim], (before + i) as u8);
        }
        assert_eq!(data.len(), (converter.rows_done - before) * 4 * dim);
        sizes.push(len / row_bytes);
    }
    assert_eq!(sizes, vec![11, 11, 3]);
    assert_eq!(converter.rows_done, 25);
}

#[test]
fn a_row_larger_than_a_chunk_is_read_alone() {
    let dim: u32 = 20_000_000;
    let row_bytes = 4 + 4 * dim as usize;
    let converter = FvecsConverter::new(3 * row_bytes, &dim.to_le_bytes()).unwrap();
    assert!(row_bytes > CHUNK_BYTES);
    assert_eq!(converter.next_chunk_len(), row_bytes);
}

#[test]
fn dimensions_are_stripped() {
    assert_eq!(
        strip_dims(&[9, 9, 9, 9, 1, 2, 8, 8, 8, 8, 3, 4], 6),
        vec![1, 2, 3, 4]
    );
    assert_eq!(strip_dims(&[], 6), Vec::<u8>::new());
}

#[test]
fn metadata_is_read_back() {
    let metadata = Metadata::new(0x0102_0304, 0x1_0000_0007);
    assert_eq!(metadata.npoints, 0x0102_0304);
    assert_eq!(metadata.ndims, 7);
    let bytes = metadata.to_bytes();
    assert_eq!(bytes, vec![4, 3, 2, 1, 7, 0, 0, 0]);
    let back = Metadata::from_bytes(&bytes).unwrap();
    assert_eq!((back.npoints, back.ndims), (0x0102_0304, 7));
    assert!(Metadata::from_bytes(&bytes[..7]).is_none());
}

#[test]
fn a_row_has_its_range_of_elements() {
    let metadata = Metadata::new(3, 4);
    assert_eq!(metadata.num_elements(), Some(12));
    assert_eq!(metadata.row_range(0), (0, 4));
    assert_eq!(metadata.row_range(1), (4, 8));
    assert_eq!(metadata.row_range(2), (8, 12));
    assert_eq!(Metadata::new(5, 0).row_range(4), (0, 0));

    // The elements of the range are the bytes of the row, behind the header.
    let fbin = fvecs_to_fbin(&fvecs(&[&[1.0, 2.0], &[3.0, 4.0]])).unwrap();
    let (start, end) = Metadata::from_bytes(&fbin).unwrap().row_range(1);
    let row: Vec<f32> = fbin[8 + 4 * start..8 + 4 * end]
        .chunks(4)
        .map(|bytes| f32::from_bits(read_word(bytes, 0)))
        .collect();
    assert_eq!(row, vec![3.0, 4.0]);
}

#[test]
fn words_are_little_endian() {
    let mut out = vec![77];
    push_words(&mut out, &[0x0403_0201, u32::MAX, 0]);
    assert_eq!(out, vec![77, 1, 2, 3, 4, 255, 255, 255, 255, 0, 0, 0, 0]);
    assert_eq!(read_word(&out, 1), 0x0403_0201);
    assert_eq!(read_word(&out, 2), 0xFF04_0302);
    assert_eq!(to_signed(0x7FFF_FFFF), i32::MAX);
    assert_eq!(to_signed(0x8000_0000), i32::MIN);
    assert_eq!(to_signed(u32::MAX), -1);
}

#[test]
fn ground_truth_holds_ids_and_distances() {
    let file = ivecs(&[&[2, 0], &[1, 1], &[0, 2]]);
    let base = Metadata::new(3, 4);
    let queries = Metadata::new(3, 4);
    let distance = |query: usize, id: usize| (query as f32 + 0.5 * id as f32).to_bits();
    let made = ivecs_to_ground_truth(&file, &base, &queries, &distance).unwrap();
    let mut expected = vec![3, 0, 0, 0, 2, 0, 0, 0];
    for id in [2u32, 0, 1, 1, 0, 2] {
        expected.extend_from_slice(&id.to_le_bytes());
    }
    for d in [1.0f32, 0.0, 1.5, 1.5, 2.0, 3.0] {
        expected.extend_from_slice(&d.to_le_bytes());
    }
    assert_eq!(made, expected);
    // The ids keep their bytes.
    assert_eq!(made[8..32], strip_dims(&file, 12)[..]);
}

#[test]
fn neighbor_ids_are_read() {
    let neighbors = read_neighbor_ids(&ivecs(&[&[5, 6, 7], &[8, 9, i32::MAX]])).unwrap();
    assert_eq!((neighbors.num_queries, neighbors.k), (2, 3));
    assert_eq!(neighbors.ids, vec![5, 6, 7, 8, 9, 0x7FFF_FFFF]);
}

#[test]
fn unusable_ground_truth_is_refused() {
    let distance = |_: usize, _: usize| 0;
    let good = Metadata::new(2, 4);
    let refuse = |file: &[u8], base: &Metadata, queries: &Metadata| {
        ivecs_to_ground_truth(file, base, queries, &distance).unwrap_err()
    };
    assert_eq!(
        refuse(&[1], &good, &good),
        GroundTruthError::Vecs(VecsError::TooSmall)
    );
    // The first negative id is reported, before anything else.
    assert_eq!(
        refuse(&ivecs(&[&[9, -3], &[-4, 0]]), &good, &Metadata::new(7, 7)),
        GroundTruthError::NegativeId(-3)
    );
    // Then the count of queries, the dimension, and the first id out of range.
    let file = ivecs(&[&[0, 1], &[3, 2]]);
    assert_eq!(
        refuse(&file, &good, &Metadata::new(3, 5)),
        GroundTruthError::QueryCount {
            queries: 3,
            rows: 2
        }
    );
    assert_eq!(
        refuse(&file, &good, &Metadata::new(2, 5)),
        GroundTruthError::Dimension { query: 5, base: 4 }
    );
    assert_eq!(
        refuse(&file, &good, &good),
        GroundTruthError::IdOutOfRange { id: 3, base: 2 }
    );
}

#[test]
fn distances_are_asked_for_in_order() {
    let neighbors = read_neighbor_ids(&ivecs(&[&[3, 1], &[0, 2]])).unwrap();
    let shape = Metadata::new(4, 1);
    let queries = Metadata::new(2, 1);
    let distance = |query: usize, id: usize| (10 * query + id) as u32;
    let file = ground_truth(&neighbors, &shape, &queries, &distance).unwrap();
    let distances: Vec<u32> = (0..4).map(|i| read_word(&file, 8 + 16 + 4 * i)).collect();
    assert_eq!(distances, vec![3, 1, 10, 12]);
}
