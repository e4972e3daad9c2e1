use aura_decomp::lzx::{lzx_decompress, BitReader, LzxError};

#[test]
fn rejects_zero_window_size() {
    let r = lzx_decompress(&[0u8; 16], 0, 16);
    assert_eq!(r.unwrap_err(), LzxError::Args);
}

#[test]
fn rejects_non_power_of_two_window() {
    let r = lzx_decompress(&[0u8; 16], 0x30000, 16);
    assert_eq!(r.unwrap_err(), LzxError::Args);
}

#[test]
fn rejects_out_of_range_window_bits() {
    let r = lzx_decompress(&[0u8; 16], 0x4000, 16);
    assert_eq!(r.unwrap_err(), LzxError::Args);
    let r = lzx_decompress(&[0u8; 16], 0x400000, 16);
    assert_eq!(r.unwrap_err(), LzxError::Args);
}

#[test]
fn accepts_in_range_window_size_but_fails_on_garbage() {
    let r = lzx_decompress(&[0x55u8; 64], 0x20000, 64);
    let err = r.unwrap_err();
    assert!(
        err == LzxError::Decrunched || err == LzxError::Read,
        "expected Decrunched/Read, got {:?}",
        err
    );
}

/// Header bit 0, an uncompressed block of `data.len()` bytes, R0..R2 = 1.
fn uncompressed_stream(data: &[u8]) -> Vec<u8> {
    let n = data.len() as u32;
    assert!(n < 0x1_0000);
    // 0 | 011 | hi16 | lo8 | 4 padding bits
    let bits: u32 = (0b0011u32 << 28) | ((n >> 8) << 12) | ((n & 0xFF) << 4);
    let w1 = (bits >> 16) as u16;
    let w2 = (bits & 0xFFFF) as u16;
    let mut s = Vec::new();
    s.extend_from_slice(&w1.to_le_bytes());
    s.extend_from_slice(&w2.to_le_bytes());
    for _ in 0..3 {
        s.extend_from_slice(&1u32.to_le_bytes());
    }
    s.extend_from_slice(data);
    s
}

#[test]
fn decodes_uncompressed_block() {
    let stream = uncompressed_stream(b"hello");
    assert_eq!(lzx_decompress(&stream, 0x8000, 5), Ok(b"hello".to_vec()));
}

#[test]
fn decodes_uncompressed_block_with_every_window_size() {
    let data: Vec<u8> = (0u8..200).collect();
    let stream = uncompressed_stream(&data);
    for bits in 15..=21 {
        assert_eq!(lzx_decompress(&stream, 1u32 << bits, data.len()), Ok(data.clone()));
    }
}

#[test]
fn zero_length_output_is_empty() {
    assert_eq!(lzx_decompress(&[], 0x8000, 0), Ok(Vec::new()));
}

#[test]
fn empty_input_runs_out_of_bits() {
    assert_eq!(lzx_decompress(&[], 0x8000, 5), Err(LzxError::Read));
}

#[test]
fn invalid_block_type_is_decrunched() {
    assert_eq!(lzx_decompress(&[0u8; 16], 0x8000, 4), Err(LzxError::Decrunched));
}

#[test]
fn output_too_long_for_stream_fails() {
    let stream = uncompressed_stream(b"hello");
    let r = lzx_decompress(&stream, 0x8000, 6);
    assert!(r.is_err());
}

#[test]
fn decode_table_places_short_codes_canonically() {
    // Lengths 1, 2, 2 fill a 6-bit lookup: symbol 0 takes the first half,
    // then symbols 1 and 2 a quarter each.
    let lengths: Vec<u8> = vec![1, 2, 2];
    let mut table: Vec<u16> = Vec::new();
    let failed = aura_decomp::lzx::make_decode_table(3, 6, &lengths, &mut table);
    assert!(!failed);
    assert!(table[0..32].iter().all(|&v| v == 0));
    assert!(table[32..48].iter().all(|&v| v == 1));
    assert!(table[48..64].iter().all(|&v| v == 2));
}

#[test]
fn decode_table_rejects_incomplete_code() {
    let lengths: Vec<u8> = vec![2, 2, 2];
    let mut table: Vec<u16> = Vec::new();
    assert!(aura_decomp::lzx::make_decode_table(3, 6, &lengths, &mut table));
}

#[test]
fn bit_reader_reads_words_msb_first() {
    let input = [0x34u8, 0x12, 0x78, 0x56];
    let mut b = BitReader::new(&input);
    assert_eq!(b.read_bits(4), Ok(0x1));
    assert_eq!(b.read_bits(12), Ok(0x234));
    // The next word, then one word of zero padding past the end.
    assert_eq!(b.read_bits(17), Ok(0xACF0));
    assert_eq!(b.read_bits(15), Ok(0));
    assert_eq!(b.read_bits(1), Err(LzxError::Read));
}
