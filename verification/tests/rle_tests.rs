use grleconvert::errors::CodecError;
use grleconvert::grle::{decode_grle_file, encode_grle_file};
use grleconvert::rle::{decode_grle_rle, encode_grle_rle};

/// Encode-decode round trip over the payload for a buffer of mixed runs.
#[test]
fn rle_round_trip_mixed_runs() {
    let mut pixels = Vec::new();
    for i in 0..65536usize {
        // long runs, short runs, then a closing run so the grammar can
        // carry the final pixel
        let v = if i < 30000 {
            7u8
        } else if i < 30005 {
            (i % 5) as u8
        } else if i < 60000 {
            200u8
        } else {
            9u8
        };
        pixels.push(v);
    }
    let payload = encode_grle_rle(&pixels);
    let back = decode_grle_rle(&payload, pixels.len());
    assert_eq!(back, pixels);
}

/// A run spanning several 255-blocks of count bytes is reproduced exactly.
#[test]
fn rle_round_trip_very_long_run() {
    let mut pixels = vec![42u8; 70000];
    pixels.extend_from_slice(&[1, 1, 1, 1]);
    let payload = encode_grle_rle(&pixels);
    let back = decode_grle_rle(&payload, pixels.len());
    assert_eq!(back, pixels);
}

/// A single-pixel buffer relies on the padded pair and still decodes.
#[test]
fn rle_round_trip_single_pixel() {
    let pixels = [77u8];
    let payload = encode_grle_rle(&pixels);
    assert_eq!(payload, vec![0x00, 77, 77, 0x00]);
    let back = decode_grle_rle(&payload, 1);
    assert_eq!(back, vec![77]);
}

/// For a run of length `L >= 2` the encoder spends `2 + (L-2)/255 + 1`
/// bytes, measured through the payload length.
#[test]
fn rle_run_byte_count_formula() {
    for len in [2usize, 3, 256, 257, 511, 512, 65536] {
        let pixels = vec![5u8; len];
        let payload = encode_grle_rle(&pixels);
        // one leading zero byte plus the run bytes
        assert_eq!(payload.len(), 1 + 2 + (len - 2) / 255 + 1, "run length {}", len);
    }
}

/// 256x256 all-zero: 3-byte run header, 256 full count bytes, one
/// remainder byte; decoding restores all 65536 zero pixels.
#[test]
fn rle_all_zero_image() {
    let pixels = vec![0u8; 65536];
    let payload = encode_grle_rle(&pixels);
    assert_eq!(payload.len(), 1 + 2 + 256 + 1);
    assert_eq!(&payload[0..3], &[0x00, 0x00, 0x00]);
    for k in 0..256 {
        assert_eq!(payload[3 + k], 0xff);
    }
    assert_eq!(payload[259], 254);
    let back = decode_grle_rle(&payload, 65536);
    assert_eq!(back, pixels);

    let file = encode_grle_file(&pixels, 256, 256).unwrap();
    assert_eq!(file.len(), 20 + payload.len());
    let img = decode_grle_file(&file).unwrap();
    assert_eq!(img.pixels, pixels);
}

/// 256x256 alternating 0,1: every pair is a transition, so the payload is
/// the leading zero plus one byte per pixel. The decoder cannot reach the
/// final pixel — a trailing nonzero singleton — and zero-fills it.
#[test]
fn rle_alternating_image() {
    let pixels: Vec<u8> = (0..65536usize).map(|i| (i % 2) as u8).collect();
    let payload = encode_grle_rle(&pixels);
    assert_eq!(payload.len(), 1 + 65536);
    let back = decode_grle_rle(&payload, 65536);
    assert_eq!(&back[..65535], &pixels[..65535]);
    assert_eq!(back[65535], 0);
}

/// 256x256 with rows 0..=255: all singletons; every pixel but the final
/// nonzero singleton survives the round trip, and the final one zero-fills.
#[test]
fn rle_row_gradient_image() {
    let mut pixels = Vec::with_capacity(65536);
    for _row in 0..256 {
        for col in 0..256 {
            pixels.push(col as u8);
        }
    }
    let file = encode_grle_file(&pixels, 256, 256).unwrap();
    let img = decode_grle_file(&file).unwrap();
    assert_eq!(img.width, 256);
    assert_eq!(img.height, 256);
    assert_eq!(&img.pixels[..65535], &pixels[..65535]);
    assert_eq!(img.pixels[65535], 0);

    // ending the image on a run instead carries every pixel
    let mut pixels2 = pixels.clone();
    pixels2[65534] = 255;
    let file2 = encode_grle_file(&pixels2, 256, 256).unwrap();
    let img2 = decode_grle_file(&file2).unwrap();
    assert_eq!(img2.pixels, pixels2);
}

/// The header width and height fields recover the dimensions.
#[test]
fn grle_header_dimensions() {
    let pixels = vec![3u8; 512 * 256];
    let file = encode_grle_file(&pixels, 512, 256).unwrap();
    assert_eq!(&file[0..4], b"GRLE");
    assert_eq!(u16::from_le_bytes([file[6], file[7]]), 2);
    assert_eq!(u16::from_le_bytes([file[10], file[11]]), 1);
    let img = decode_grle_file(&file).unwrap();
    assert_eq!(img.width, 512);
    assert_eq!(img.height, 256);
    assert_eq!(img.version, 1);
}

/// The stored 24-bit length field holds one less than the payload length,
/// after one zero byte.
#[test]
fn grle_stored_length_field() {
    let pixels = vec![9u8; 65536];
    let file = encode_grle_file(&pixels, 256, 256).unwrap();
    let payload_len = file.len() - 20;
    assert_eq!(file[16], 0);
    let stored =
        file[17] as usize + file[18] as usize * 256 + file[19] as usize * 65536;
    assert_eq!(stored, payload_len - 1);
}

/// Dimensions not divisible by 256 are rejected on encode.
#[test]
fn grle_rejects_bad_dimensions() {
    let pixels = vec![0u8; 100 * 256];
    match encode_grle_file(&pixels, 100, 256) {
        Err(CodecError::BadDimensions(_)) => {}
        _ => panic!("expected a dimensions error"),
    }
}

/// Short input and wrong magic are told apart on decode.
#[test]
fn grle_rejects_bad_input() {
    match decode_grle_file(&[1, 2, 3]) {
        Err(CodecError::Truncated(m)) => assert!(!m.is_empty()),
        _ => panic!("expected a truncation error"),
    }
    let mut file = vec![0u8; 24];
    file[0] = b'X';
    match decode_grle_file(&file) {
        Err(e @ CodecError::BadMagic(_)) => assert!(!e.message().is_empty()),
        _ => panic!("expected a magic error"),
    }
}
