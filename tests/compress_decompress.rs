use fpc_compression::{
    compress, compress_into, decompress, decompress_into, FPCCompressedBlock, FpcError,
    DEFAULT_TABLE_SIZE,
};

fn bits(vals: &Vec<f64>) -> Vec<u64> {
    vals.iter().map(|x| x.to_bits()).collect()
}

fn bitwise_compare(a: &Vec<u64>, b: &Vec<f64>) -> bool {
    a.len() == b.len() && a.iter().zip(b).all(|(x, y)| *x == y.to_bits())
}

/// A small deterministic generator of doubles (xorshift64*).
fn pseudo_random_doubles(seed: u64, n: usize) -> Vec<f64> {
    let mut state = seed;
    let mut out = Vec::with_capacity(n);
    for _ in 0..n {
        state ^= state >> 12;
        state ^= state << 25;
        state ^= state >> 27;
        let r = state.wrapping_mul(0x2545_F491_4F6C_DD1D);
        out.push((r >> 11) as f64 / (1u64 << 53) as f64 * 1000.0 - 500.0);
    }
    out
}

fn nibble(header: &Vec<u8>, i: usize) -> u8 {
    if i % 2 == 0 {
        header[i / 2] >> 4
    } else {
        header[i / 2] & 0xf
    }
}

#[test]
fn test_compress_even_number_of_zeros() {
    let vals: Vec<f64> = vec![0.0; 16];
    let compressed = compress(DEFAULT_TABLE_SIZE, &bits(&vals)).unwrap();
    assert_eq!(compressed, FPCCompressedBlock {
        num_bytes_encoded: vals.len(),
        encoding: vec![0b01110111; 8],
        residual: vec![],
    });
    let decompressed = decompress(DEFAULT_TABLE_SIZE, &compressed).unwrap();
    assert!(bitwise_compare(&decompressed, &vals));
}

#[test]
fn test_compress_odd_number_of_zeros() {
    let vals: Vec<f64> = vec![0.0; 15];
    let compressed = compress(DEFAULT_TABLE_SIZE, &bits(&vals)).unwrap();
    assert_eq!(compressed, FPCCompressedBlock {
        num_bytes_encoded: vals.len(),
        encoding: vec![
            0b01110111, 0b01110111, 0b01110111, 0b01110111,
            0b01110111, 0b01110111, 0b01110111, 0b01110000,
        ],
        residual: vec![],
    });
    let decompressed = decompress(DEFAULT_TABLE_SIZE, &compressed).unwrap();
    assert!(bitwise_compare(&decompressed, &vals));
}

#[test]
fn test_compress_same_positive_value() {
    let vals: Vec<f64> = vec![1.0; 16];
    let compressed = compress(DEFAULT_TABLE_SIZE, &bits(&vals)).unwrap();
    assert_eq!(compressed, FPCCompressedBlock {
        num_bytes_encoded: vals.len(),
        encoding: vec![
            0b00001000, 0b01110111, 0b01110111, 0b01110111,
            0b01110111, 0b01110111, 0b01110111, 0b01110111,
        ],
        residual: vec![63, 240, 0, 0, 0, 0, 0, 0, 63, 240, 0, 0, 0, 0, 0, 0],
    });
    let decompressed = decompress(DEFAULT_TABLE_SIZE, &compressed).unwrap();
    assert!(bitwise_compare(&decompressed, &vals));
}

#[test]
fn test_compress_same_negative_value() {
    let vals: Vec<f64> = vec![-1.0; 16];
    let compressed = compress(DEFAULT_TABLE_SIZE, &bits(&vals)).unwrap();
    assert_eq!(compressed, FPCCompressedBlock {
        num_bytes_encoded: vals.len(),
        encoding: vec![
            0b00001000, 0b01110111, 0b01110111, 0b01110111,
            0b01110111, 0b01110111, 0b01110111, 0b01110111,
        ],
        residual: vec![191, 240, 0, 0, 0, 0, 0, 0, 191, 240, 0, 0, 0, 0, 0, 0],
    });
    let decompressed = decompress(DEFAULT_TABLE_SIZE, &compressed).unwrap();
    assert!(bitwise_compare(&decompressed, &vals));
}

#[test]
fn test_compress_nan_and_infinities() {
    let vals: Vec<f64> = vec![f64::NAN, f64::INFINITY, f64::NEG_INFINITY];
    let compressed = compress(DEFAULT_TABLE_SIZE, &bits(&vals)).unwrap();
    assert_eq!(compressed, FPCCompressedBlock {
        num_bytes_encoded: 3,
        encoding: vec![8, 0],
        residual: vec![
            127, 248, 0, 0, 0, 0, 0, 0,
            127, 240, 0, 0, 0, 0, 0, 0,
            128, 24, 0, 0, 0, 0, 0, 0,
        ],
    });
    let decompressed = decompress(DEFAULT_TABLE_SIZE, &compressed).unwrap();
    assert!(bitwise_compare(&decompressed, &vals));
}

#[test]
fn empty_input_gives_empty_block() {
    let compressed = compress(DEFAULT_TABLE_SIZE, &vec![]).unwrap();
    assert_eq!(compressed, FPCCompressedBlock {
        num_bytes_encoded: 0,
        encoding: vec![],
        residual: vec![],
    });
    assert_eq!(decompress(DEFAULT_TABLE_SIZE, &compressed).unwrap(), Vec::<u64>::new());
}

#[test]
fn invalid_table_sizes_are_rejected() {
    let vals = bits(&vec![1.0, 2.0, 3.0]);
    let good = compress(DEFAULT_TABLE_SIZE, &vals).unwrap();
    for t in [0u64, 3, 6, 10, 12] {
        assert_eq!(compress(t, &vals), Err(FpcError::InvalidTableSize));
        assert_eq!(compress(t, &vec![]), Err(FpcError::InvalidTableSize));
        assert_eq!(decompress(t, &good), Err(FpcError::InvalidTableSize));
        let empty = FPCCompressedBlock { num_bytes_encoded: 0, encoding: vec![], residual: vec![] };
        assert_eq!(decompress(t, &empty), Err(FpcError::InvalidTableSize));
    }
}

#[test]
fn invalid_table_size_leaves_buffers_alone() {
    let vals = bits(&vec![1.0, 2.0]);
    let mut header = vec![0u8; 1];
    let mut residual = vec![9u8];
    assert_eq!(compress_into(6, &vals, &mut header, &mut residual), Err(FpcError::InvalidTableSize));
    assert_eq!(header, vec![0u8]);
    assert_eq!(residual, vec![9u8]);
    let blk = compress(32, &vals).unwrap();
    let mut out = vec![7u64];
    assert_eq!(decompress_into(0, &blk, &mut out), Err(FpcError::InvalidTableSize));
    assert_eq!(out, vec![7u64]);
}

#[test]
fn random_values_round_trip_for_each_table_size() {
    let vals = pseudo_random_doubles(124840, 10_000);
    for t in [32u64, 64, 128, 256, 1024, 4096] {
        let compressed = compress(t, &bits(&vals)).unwrap();
        let decompressed = decompress(t, &compressed).unwrap();
        assert!(bitwise_compare(&decompressed, &vals));
    }
}

#[test]
fn mixed_values_round_trip() {
    let vals: Vec<f64> = vec![
        0.0, -0.0, 1.5, 1.5, 2.25, f64::MIN_POSITIVE, f64::MAX, f64::MIN, f64::EPSILON,
        f64::from_bits(0x7ff0_0000_0000_0001), f64::from_bits(0xfff8_dead_beef_0001), 3.0, 4.0,
    ];
    for t in [1u64, 2, 32, 4096] {
        let compressed = compress(t, &bits(&vals)).unwrap();
        let decompressed = decompress(t, &compressed).unwrap();
        assert!(bitwise_compare(&decompressed, &vals));
    }
}

#[test]
fn block_shape_matches_tags() {
    let vals = pseudo_random_doubles(7, 1001);
    let compressed = compress(64, &bits(&vals)).unwrap();
    assert_eq!(compressed.num_bytes_encoded, 1001);
    assert_eq!(compressed.encoding.len(), 501);
    assert_eq!(compressed.encoding[500] & 0xf, 0);
    let mut total = 0usize;
    for i in 0..1001 {
        let code = (nibble(&compressed.encoding, i) & 7) as usize;
        let lzb = if code < 4 { code } else { code + 1 };
        total += 8 - lzb;
    }
    assert_eq!(compressed.residual.len(), total);
}

#[test]
fn four_leading_zero_bytes_keep_an_extra_zero() {
    let compressed = compress(32, &vec![0x1000_0000u64]).unwrap();
    assert_eq!(compressed, FPCCompressedBlock {
        num_bytes_encoded: 1,
        encoding: vec![0x30],
        residual: vec![0, 0x10, 0, 0, 0],
    });
    assert_eq!(decompress(32, &compressed).unwrap(), vec![0x1000_0000u64]);
}

#[test]
fn five_leading_zero_bytes_use_code_four() {
    let compressed = compress(32, &vec![0x1_0000u64]).unwrap();
    assert_eq!(compressed, FPCCompressedBlock {
        num_bytes_encoded: 1,
        encoding: vec![0x40],
        residual: vec![1, 0, 0],
    });
    assert_eq!(decompress(32, &compressed).unwrap(), vec![0x1_0000u64]);
}

#[test]
fn short_residual_is_malformed() {
    let blk = FPCCompressedBlock { num_bytes_encoded: 1, encoding: vec![0x00], residual: vec![1, 2, 3] };
    assert_eq!(decompress(32, &blk), Err(FpcError::MalformedBlock));
    let mut out = vec![5u64];
    assert_eq!(decompress_into(32, &blk, &mut out), Err(FpcError::MalformedBlock));
    assert_eq!(out[0], 5);
}

#[test]
fn short_header_is_malformed() {
    let blk = FPCCompressedBlock { num_bytes_encoded: 3, encoding: vec![0x77], residual: vec![] };
    assert_eq!(decompress(32, &blk), Err(FpcError::MalformedBlock));
}

#[test]
fn trailing_residual_bytes_are_ignored() {
    let mut blk = compress(32, &bits(&vec![1.0, 2.0])).unwrap();
    blk.residual.push(0xab);
    assert!(bitwise_compare(&decompress(32, &blk).unwrap(), &vec![1.0, 2.0]));
}

#[test]
fn into_variants_append() {
    let vals = bits(&vec![1.0, 1.0, 2.5]);
    let mut header = vec![0u8; 2];
    let mut residual = vec![42u8];
    compress_into(32, &vals, &mut header, &mut residual).unwrap();
    let fresh = compress(32, &vals).unwrap();
    assert_eq!(header, fresh.encoding);
    assert_eq!(residual[0], 42);
    assert_eq!(residual[1..].to_vec(), fresh.residual);
    let mut out = vec![99u64];
    decompress_into(32, &fresh, &mut out).unwrap();
    assert_eq!(out[0], 99);
    assert_eq!(out[1..].to_vec(), vals);
}
