//! The `.grle` file container: a 20-byte header followed by the run-length
//! payload of a single grayscale channel. Dimensions are multiples of 256 and
//! are stored divided by 256.

use vstd::prelude::*;
use crate::cursor::{read_u16_le, spec_u16_le, spec_le16, push_u16_le};
use crate::errors::CodecError;
use crate::rle::{decode_grle_rle, encode_grle_rle, spec_rle_decode, spec_rle_encode};

verus! {

/// A decoded layer file: its header fields and its pixels, row-major.
pub struct GrleImage {
    pub width: usize,
    pub height: usize,
    pub version: u16,
    pub pixels: Vec<u8>,
}

/// The file magic, `"GRLE"` in ASCII.
pub open spec fn spec_grle_magic_ok(d: Seq<u8>) -> bool {
    d.len() >= 4 && d[0] == 0x47 && d[1] == 0x52 && d[2] == 0x4c && d[3] == 0x45
}

/// The 20-byte header written for `width` x `height` pixels and a payload of
/// `pl` bytes: magic, version 1, width/256, reserved, height/256, the
/// constant 256, reserved, and one zero byte followed by the 24-bit
/// little-endian value `pl - 1`.
pub open spec fn spec_grle_header(width: nat, height: nat, pl: nat) -> Seq<u8> {
    seq![0x47u8, 0x52u8, 0x4cu8, 0x45u8, 1u8, 0u8] + spec_le16(
        ((width / 256) % 0x10000) as u16,
    ) + seq![0u8, 0u8] + spec_le16(((height / 256) % 0x10000) as u16) + seq![0u8, 1u8, 0u8, 0u8]
        + seq![
        0u8,
        (((pl - 1) as nat % 256) as u8),
        ((((pl - 1) as nat / 256) % 256) as u8),
        ((((pl - 1) as nat / 0x10000) % 256) as u8),
    ]
}

/// A whole encoded file: the header, then the run-length payload.
pub open spec fn spec_grle_file(p: Seq<u8>, width: nat, height: nat) -> Seq<u8> {
    spec_grle_header(width, height, spec_rle_encode(p).len()) + spec_rle_encode(p)
}

/// Encodes a grayscale pixel buffer as a complete `.grle` file.
/// Both dimensions must be multiples of 256; anything else is rejected.
pub fn encode_grle_file(pixels: &[u8], width: usize, height: usize) -> (r: Result<
    Vec<u8>,
    CodecError,
>)
    requires
        pixels@.len() == width * height,
    ensures
        r is Ok <==> (width % 256 == 0 && height % 256 == 0),
        r matches Ok(out) ==> out@ == spec_grle_file(pixels@, width as nat, height as nat),
        r matches Err(e) ==> e is BadDimensions,
{
    if width % 256 != 0 || height % 256 != 0 {
        return Err(
            CodecError::BadDimensions(String::from_str("dimensions must be multiples of 256")),
        );
    }

    let compressed = encode_grle_rle(pixels);
    let comp_size: usize = compressed.len() - 1;

    let mut out: Vec<u8> = Vec::new();
    out.push(0x47);
    out.push(0x52);
    out.push(0x4c);
    out.push(0x45);
    out.push(1);
    out.push(0);
    push_u16_le(&mut out, ((width / 256) % 0x10000) as u16);
    out.push(0);
    out.push(0);
    push_u16_le(&mut out, ((height / 256) % 0x10000) as u16);
    out.push(0);
    out.push(1);
    out.push(0);
    out.push(0);
    out.push(0);
    out.push((comp_size % 256) as u8);
    out.push(((comp_size / 256) % 256) as u8);
    out.push(((comp_size / 0x10000) % 256) as u8);
    assert(out@ =~= spec_grle_header(
        width as nat,
        height as nat,
        spec_rle_encode(pixels@).len(),
    ));

    let mut result = out;
    let mut i: usize = 0;
    let ghost header = result@;
    while i < compressed.len()
        invariant
            i <= compressed@.len(),
            result@ == header + compressed@.take(i as int),
        decreases compressed@.len() - i,
    {
        let b = compressed[i];
        result.push(b);
        assert(result@ =~= header + compressed@.take(i + 1));
        i += 1;
    }
    assert(result@ =~= spec_grle_file(pixels@, width as nat, height as nat));
    Ok(result)
}

/// Decodes a complete `.grle` file. The pixel count is taken from the header
/// dimensions; a short payload is zero-filled, as the stream grammar says.
pub fn decode_grle_file(data: &[u8]) -> (r: Result<GrleImage, CodecError>)
    ensures
        r matches Ok(img) ==> ({
            &&& data@.len() >= 20
            &&& spec_grle_magic_ok(data@)
            &&& img.width == 256 * spec_u16_le(data@[6], data@[7])
            &&& img.height == 256 * spec_u16_le(data@[10], data@[11])
            &&& img.version == spec_u16_le(data@[4], data@[5])
            &&& img.pixels@ == spec_rle_decode(
                data@.skip(20),
                (img.width * img.height) as nat,
            )
            &&& img.pixels@.len() == img.width * img.height
        }),
        data@.len() < 20 ==> (r matches Err(e) && e is Truncated),
        data@.len() >= 20 && !spec_grle_magic_ok(data@) ==> (r matches Err(e) && e is BadMagic),
        data@.len() >= 20 && spec_grle_magic_ok(data@) && 256 * spec_u16_le(data@[6], data@[7])
            * 256 * spec_u16_le(data@[10], data@[11]) <= usize::MAX ==> r is Ok,
        data@.len() >= 20 && spec_grle_magic_ok(data@) && 256 * spec_u16_le(data@[6], data@[7])
            * 256 * spec_u16_le(data@[10], data@[11]) > usize::MAX ==> (r matches Err(e)
            && e is Unsupported),
        r matches Err(e) ==> (e is Truncated || e is BadMagic || e is Unsupported),
{
    if data.len() < 20 {
        return Err(CodecError::Truncated(String::from_str("file shorter than the 20-byte header")));
    }
    if !(data[0] == 0x47 && data[1] == 0x52 && data[2] == 0x4c && data[3] == 0x45) {
        return Err(CodecError::BadMagic(String::from_str("missing GRLE magic")));
    }

    let version = read_u16_le(data, 4);
    let width_u64 = (read_u16_le(data, 6) as u64) * 256;
    let height_u64 = (read_u16_le(data, 10) as u64) * 256;
    proof {
        let a = spec_u16_le(data@[6], data@[7]) as int;
        let b = spec_u16_le(data@[10], data@[11]) as int;
        assert((a * 256) * (b * 256) == 256 * a * 256 * b && 0 <= (a * 256) * (b * 256)
            < 0x1000000000000) by (nonlinear_arith)
            requires
                0 <= a <= 0xffff,
                0 <= b <= 0xffff,
        ;
        assert(width_u64 == a * 256);
        assert(height_u64 == b * 256);
    }
    let expected_u64 = width_u64 * height_u64;
    if expected_u64 > usize::MAX as u64 {
        return Err(CodecError::Unsupported(String::from_str("pixel count exceeds this machine")));
    }
    let width = width_u64 as usize;
    let height = height_u64 as usize;
    let expected = expected_u64 as usize;
    proof {
        assert(width * height == width_u64 * height_u64) by (nonlinear_arith)
            requires
                width == width_u64,
                height == height_u64,
        ;
    }

    let payload = slice_drop(data, 20);
    let pixels = decode_grle_rle(payload, expected);
    Ok(GrleImage { width, height, version, pixels })
}

/// The suffix of a slice from `from` on.
fn slice_drop(data: &[u8], from: usize) -> (r: &[u8])
    requires
        from <= data@.len(),
    ensures
        r@ == data@.skip(from as int),
{
    let r = vstd::slice::slice_subrange(data, from, data.len());
    assert(r@ =~= data@.skip(from as int));
    r
}

// ---------------------------------------------------------------------------
// Header laws
// ---------------------------------------------------------------------------

/// The width/256 and height/256 header fields recover the dimensions
/// exactly, for every dimension pair the 16-bit fields can carry.
pub proof fn lemma_grle_header_dims(width: nat, height: nat, pl: nat)
    requires
        width % 256 == 0,
        height % 256 == 0,
        width <= 256 * 0xffff,
        height <= 256 * 0xffff,
    ensures
        ({
            let h = spec_grle_header(width, height, pl);
            256 * spec_u16_le(h[6], h[7]) == width && 256 * spec_u16_le(h[10], h[11]) == height
        }),
{
    lemma_dim_field_recovers(width);
    lemma_dim_field_recovers(height);
}

proof fn lemma_dim_field_recovers(dim: nat)
    requires
        dim % 256 == 0,
        dim <= 256 * 0xffff,
    ensures
        256 * spec_u16_le(spec_le16(((dim / 256) % 0x10000) as u16)[0], spec_le16(
            ((dim / 256) % 0x10000) as u16,
        )[1]) == dim,
{
    let q = dim / 256;
    assert(q <= 0xffff) by {
        vstd::arithmetic::div_mod::lemma_div_is_ordered(dim as int, 256 * 0xffff as int, 256);
    }
    assert(q % 0x10000 == q);
    let x = (q % 0x10000) as u16;
    crate::cursor::lemma_le16_round_trip(x);
    assert(dim == 256 * q) by {
        vstd::arithmetic::div_mod::lemma_fundamental_div_mod(dim as int, 256);
    }
}

/// Round trip at the file level: a file written for a pixel buffer parses
/// back to the same dimensions and the same pixels, for every buffer the
/// stream grammar can carry (see `spec_rle_tail_ok`) whose dimensions fit
/// the header fields.
pub proof fn lemma_grle_file_round_trip(p: Seq<u8>, width: nat, height: nat)
    requires
        p.len() == width * height,
        width % 256 == 0,
        height % 256 == 0,
        width <= 256 * 0xffff,
        height <= 256 * 0xffff,
        crate::rle::spec_rle_tail_ok(p),
    ensures
        ({
            let out = spec_grle_file(p, width, height);
            &&& out.len() >= 20
            &&& spec_grle_magic_ok(out)
            &&& 256 * spec_u16_le(out[6], out[7]) == width
            &&& 256 * spec_u16_le(out[10], out[11]) == height
            &&& spec_rle_decode(out.skip(20), (width * height) as nat) == p
        }),
{
    let pl = spec_rle_encode(p).len();
    let h = spec_grle_header(width, height, pl);
    let out = spec_grle_file(p, width, height);
    assert(h.len() == 20);
    lemma_grle_header_dims(width, height, pl);
    assert(out[6] == h[6] && out[7] == h[7] && out[10] == h[10] && out[11] == h[11]);
    assert(out.skip(20) =~= spec_rle_encode(p));
    crate::rle::lemma_rle_round_trip(p);
}

/// The 24-bit little-endian field at bytes 17..20 stores exactly one less
/// than the payload length, and byte 16 is zero, for every payload whose
/// length fits the field.
pub proof fn lemma_grle_stored_length(width: nat, height: nat, pl: nat)
    requires
        1 <= pl <= 0x1000000,
    ensures
        ({
            let h = spec_grle_header(width, height, pl);
            h[16] == 0 && h[17] + h[18] * 256 + h[19] * 0x10000 == pl - 1
        }),
{
    let x = (pl - 1) as nat;
    assert(x < 0x1000000);
    assert(x / 0x10000 <= 0xffffffint / 0x10000) by {
        vstd::arithmetic::div_mod::lemma_div_is_ordered(x as int, 0xffffff, 0x10000);
    }
    assert((x / 0x10000) % 256 == x / 0x10000);
    assert((x / 256) / 256 == x / 0x10000) by {
        vstd::arithmetic::div_mod::lemma_div_denominator(x as int, 256, 256);
    }
    assert(x / 256 == 256 * ((x / 256) / 256) + (x / 256) % 256) by {
        vstd::arithmetic::div_mod::lemma_fundamental_div_mod((x / 256) as int, 256);
    }
    assert(x == 256 * (x / 256) + x % 256) by {
        vstd::arithmetic::div_mod::lemma_fundamental_div_mod(x as int, 256);
    }
}

} // verus!
