use grleconvert::errors::CodecError;
use grleconvert::gdm::{decode_gdm_file, encode_gdm_file};
use grleconvert::gdm_block::{decode_gdm_block, encode_gdm_block};

/// A uniform chunk encodes to exactly four bytes: depth, palette count,
/// and one palette entry.
#[test]
fn block_uniform_is_four_bytes() {
    let pixels = vec![5u16; 1024];
    let block = encode_gdm_block(&pixels, 32);
    assert_eq!(block, vec![0, 1, 5, 0]);
}

/// Two distinct values use bit depth one with a two-entry palette: a
/// 134-byte block whose bitmap holds one bit per pixel.
#[test]
fn block_two_values_is_134_bytes() {
    let mut pixels = vec![3u16; 512];
    pixels.extend(vec![7u16; 512]);
    let block = encode_gdm_block(&pixels, 32);
    assert_eq!(block.len(), 2 + 4 + 128);
    assert_eq!(block[0], 1);
    assert_eq!(block[1], 2);
    assert_eq!(&block[2..6], &[3, 0, 7, 0]);
    for k in 0..64 {
        assert_eq!(block[6 + k], 0x00);
    }
    for k in 64..128 {
        assert_eq!(block[6 + k], 0xff);
    }
    let (back, size) = decode_gdm_block(&block, 0, 32);
    assert_eq!(size, block.len());
    assert_eq!(back, pixels);
}

/// Up to four distinct values use two-bit palette indices.
#[test]
fn block_four_values_round_trip() {
    let pixels: Vec<u16> = (0..1024).map(|i| [2u16, 9, 4, 11][i % 4]).collect();
    let block = encode_gdm_block(&pixels, 32);
    assert_eq!(block[0], 2);
    assert_eq!(block[1], 4);
    // the palette is the distinct values, ascending
    assert_eq!(&block[2..10], &[2, 0, 4, 0, 9, 0, 11, 0]);
    let (back, _) = decode_gdm_block(&block, 0, 32);
    assert_eq!(back, pixels);
}

/// More than four distinct values store raw fields at the width of the
/// largest value.
#[test]
fn block_raw_round_trip() {
    let pixels: Vec<u16> = (0..1024).map(|i| (i % 7) as u16).collect();
    let block = encode_gdm_block(&pixels, 32);
    assert_eq!(block[0], 3);
    assert_eq!(block[1], 0);
    assert_eq!(block.len(), 2 + 3 * 128);
    let (back, _) = decode_gdm_block(&block, 0, 32);
    assert_eq!(back, pixels);
}

/// A 32x32 single-range file of one uniform value is the 16-byte header
/// plus one uniform block: twenty bytes in all.
#[test]
fn file_uniform_single_range() {
    let values = vec![5u32; 1024];
    let file = encode_gdm_file(&values, 32, 4, None).unwrap();
    assert_eq!(file.len(), 20);
    assert_eq!(&file[0..4], b"\"MDF");
    assert_eq!(&file[4..8], &[0, 0, 0, 0]);
    assert_eq!(file[8], 0); // dimension 32 = 1 << (0 + 5)
    assert_eq!(file[9], 5); // chunk 32 = 1 << 5
    assert_eq!(file[10], 2);
    assert_eq!(file[11], 4);
    assert_eq!(file[12], 1);
    assert_eq!(&file[16..20], &[0, 1, 5, 0]);
    let img = decode_gdm_file(&file).unwrap();
    assert_eq!(img.dimension, 32);
    assert_eq!(img.num_channels, 4);
    assert_eq!(img.num_ranges, 1);
    assert_eq!(img.values, values);
}

/// A 32x32 single-range file with two halves uses the palette block and
/// decodes back exactly.
#[test]
fn file_two_halves_single_range() {
    let mut values = vec![3u32; 512];
    values.extend(vec![7u32; 512]);
    let file = encode_gdm_file(&values, 32, 4, None).unwrap();
    assert_eq!(file.len(), 16 + 134);
    assert_eq!(file[16], 1);
    assert_eq!(file[17], 2);
    let img = decode_gdm_file(&file).unwrap();
    assert_eq!(img.values, values);
}

/// A 64x64 two-range file split at channel three: each chunk carries two
/// blocks and each pixel combines as `low | high << 3`.
#[test]
fn file_two_ranges_split() {
    let mut values = Vec::with_capacity(64 * 64);
    for i in 0..64 * 64usize {
        let low = (i % 7) as u32; // fits three bits
        let high = (i % 29) as u32; // fits five bits
        values.push(low | (high << 3));
    }
    let file = encode_gdm_file(&values, 64, 8, Some(3)).unwrap();
    assert_eq!(file[12], 2); // two ranges
    assert_eq!(file[16], 3); // the split boundary byte
    let img = decode_gdm_file(&file).unwrap();
    assert_eq!(img.dimension, 64);
    assert_eq!(img.num_ranges, 2);
    assert_eq!(img.values, values);
}

/// A multi-chunk image round-trips with chunks laid out row-major.
#[test]
fn file_multi_chunk_round_trip() {
    let dim = 128usize;
    let values: Vec<u32> = (0..dim * dim).map(|i| ((i / 97) % 13) as u32).collect();
    let file = encode_gdm_file(&values, dim, 4, None).unwrap();
    let img = decode_gdm_file(&file).unwrap();
    assert_eq!(img.values, values);
}

/// The short `!MDF` header variant is decoded too.
#[test]
fn file_old_variant_decodes() {
    // 9-byte header: magic, dim_log2 0, chunk_log2 5, reserved,
    // numChannels 4, numRanges 1; then one uniform block
    let mut file = vec![b'!', b'M', b'D', b'F', 0, 5, 0, 4, 1];
    file.extend_from_slice(&[0, 1, 9, 0]);
    // padding so the file reaches the sixteen bytes any header must have
    file.extend_from_slice(&[0, 0, 0]);
    let img = decode_gdm_file(&file).unwrap();
    assert_eq!(img.dimension, 32);
    assert_eq!(img.values, vec![9u32; 1024]);
}

/// Encoding rejects a side that is not a power of two of at least 32.
#[test]
fn file_rejects_bad_dimension() {
    let values = vec![0u32; 33 * 33];
    match encode_gdm_file(&values, 33, 4, None) {
        Err(CodecError::BadDimensions(_)) => {}
        _ => panic!("expected a dimensions error"),
    }
    let small = vec![0u32; 16 * 16];
    match encode_gdm_file(&small, 16, 4, None) {
        Err(CodecError::BadDimensions(_)) => {}
        _ => panic!("expected a dimensions error"),
    }
}

/// Decoding tells apart truncation, magic, version and boundary faults.
#[test]
fn file_rejects_bad_input() {
    match decode_gdm_file(&[1, 2, 3]) {
        Err(CodecError::Truncated(_)) => {}
        _ => panic!("expected a truncation error"),
    }
    let mut bad_magic = vec![0u8; 20];
    bad_magic[0] = b'X';
    match decode_gdm_file(&bad_magic) {
        Err(CodecError::BadMagic(_)) => {}
        _ => panic!("expected a magic error"),
    }
    let mut bad_version = vec![b'"', b'M', b'D', b'F', 1, 0, 0, 0, 0, 5, 0, 4, 1, 0, 0, 0];
    bad_version.extend_from_slice(&[0, 1, 0, 0]);
    match decode_gdm_file(&bad_version) {
        Err(CodecError::Unsupported(_)) => {}
        _ => panic!("expected an unsupported error"),
    }
    // two ranges with a boundary above the channel count
    let bad_bounds = vec![b'"', b'M', b'D', b'F', 0, 0, 0, 0, 0, 5, 2, 4, 2, 0, 0, 0, 9];
    match decode_gdm_file(&bad_bounds) {
        Err(CodecError::Unsupported(_)) => {}
        _ => panic!("expected an unsupported error"),
    }
    // a block promising more bytes than the file holds
    let truncated_block = vec![b'"', b'M', b'D', b'F', 0, 0, 0, 0, 0, 5, 2, 4, 1, 0, 0, 0, 3, 0];
    match decode_gdm_file(&truncated_block) {
        Err(CodecError::Truncated(_)) => {}
        _ => panic!("expected a truncation error"),
    }
}
