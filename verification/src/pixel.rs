//! Mapping between plain image buffers and the codec's value buffers.
//!
//! Up to eight channels travel in a grayscale byte; more channels pack into
//! red, green and blue bytes from the lowest bits up.

use vstd::prelude::*;

verus! {

/// The red, green and blue bytes painted for a packed value: the value byte
/// three times when at most eight channels, else bits 0-7, 8-15 and 16-23.
pub open spec fn spec_value_to_rgb(value: u32, num_channels: u32) -> (u8, u8, u8) {
    if num_channels <= 8 {
        let v = (value & 0xff) as u8;
        (v, v, v)
    } else {
        ((value & 0xff) as u8, ((value >> 8u32) & 0xff) as u8, ((value >> 16u32) & 0xff) as u8)
    }
}

/// Splits a packed value into the color bytes its image shows.
pub fn value_to_rgb(value: u32, num_channels: u32) -> (r: (u8, u8, u8))
    ensures
        r == spec_value_to_rgb(value, num_channels),
{
    proof {
        assert(value & 0xff < 256 && (value >> 8u32) & 0xff < 256 && (value >> 16u32) & 0xff < 256)
            by (bit_vector);
    }
    if num_channels <= 8 {
        let v = (value & 0xff) as u8;
        (v, v, v)
    } else {
        let r = (value & 0xff) as u8;
        let g = ((value >> 8u32) & 0xff) as u8;
        let b = ((value >> 16u32) & 0xff) as u8;
        (r, g, b)
    }
}

/// Takes the first byte of every `stride`-byte pixel — the red channel of
/// an RGB or RGBA buffer, including a trailing partial pixel.
pub fn grayscale_from_channels(pixels: &[u8], stride: usize) -> (r: Vec<u8>)
    requires
        1 <= stride,
        pixels@.len() + stride <= usize::MAX,
    ensures
        r@.len() == (pixels@.len() + stride - 1) / (stride as int),
        forall|i: int| 0 <= i < r@.len() ==> r@[i] == pixels@[stride * i],
{
    let mut out: Vec<u8> = Vec::new();
    let mut i: usize = 0;
    proof {
        assert(stride * out@.len() == 0) by (nonlinear_arith)
            requires
                out@.len() == 0,
        ;
    }
    while i < pixels.len()
        invariant
            1 <= stride,
            pixels@.len() + stride <= usize::MAX,
            i == stride * out@.len(),
            out@.len() > 0 ==> stride * (out@.len() - 1) < pixels@.len(),
            forall|q: int| 0 <= q < out@.len() ==> #[trigger] (stride * q) < pixels@.len(),
            forall|q: int| 0 <= q < out@.len() ==> out@[q] == pixels@[stride * q],
        decreases pixels@.len() + stride - i,
    {
        let b = pixels[i];
        out.push(b);
        proof {
            let n0 = out@.len() - 1;
            assert(out@[n0] == pixels@[i as int]);
            assert(i + stride == stride * out@.len()) by (nonlinear_arith)
                requires
                    i == stride * (out@.len() - 1),
            ;
            assert forall|q: int| 0 <= q < out@.len() implies #[trigger] (stride * q) < pixels@.len() by {
                if q == n0 {
                    assert(stride * q == i);
                }
            }
            assert forall|q: int| 0 <= q < out@.len() implies out@[q] == pixels@[stride * q] by {
                if q == n0 {
                    assert(stride * q == i);
                } else {
                    assert(out@[q] == out@.subrange(0, n0)[q]);
                }
            }
        }
        i += stride;
    }
    proof {
        let n = out@.len() as int;
        let len = pixels@.len() as int;
        let st = stride as int;
        assert(len + st - 1 == n * st + (len + st - 1 - st * n)) by (nonlinear_arith);
        assert(0 <= len + st - 1 - st * n < st) by {
            if n > 0 {
                assert(st * (n - 1) == st * n - st) by (nonlinear_arith);
            }
        }
        vstd::arithmetic::div_mod::lemma_fundamental_div_mod_converse(
            len + st - 1,
            st,
            n,
            len + st - 1 - st * n,
        );
    }
    out
}

/// Widens grayscale bytes to combined values.
pub fn values_from_gray(pixels: &[u8]) -> (r: Vec<u32>)
    ensures
        r@.len() == pixels@.len(),
        forall|i: int| 0 <= i < r@.len() ==> r@[i] == pixels@[i] as u32,
{
    let mut out: Vec<u32> = Vec::new();
    let mut i: usize = 0;
    while i < pixels.len()
        invariant
            i <= pixels@.len(),
            out@.len() == i,
            forall|q: int| 0 <= q < i ==> out@[q] == pixels@[q] as u32,
        decreases pixels@.len() - i,
    {
        let b = pixels[i];
        out.push(b as u32);
        i += 1;
    }
    out
}

/// The combined value of one color pixel: red in the low bits, then green,
/// then blue.
pub open spec fn spec_rgb_value(r: u8, g: u8, b: u8) -> u32 {
    ((r as u32) | (((g as u32) << 8u32) as u32) | (((b as u32) << 16u32) as u32)) as u32
}

/// Packs each `stride`-byte color pixel into one combined value, red low.
pub fn values_from_rgb(pixels: &[u8], stride: usize) -> (r: Vec<u32>)
    requires
        3 <= stride,
        pixels@.len() as int % (stride as int) == 0,
        pixels@.len() + stride <= usize::MAX,
    ensures
        r@.len() == pixels@.len() as int / (stride as int),
        forall|i: int|
            0 <= i < r@.len() ==> r@[i] == spec_rgb_value(
                pixels@[stride * i],
                pixels@[stride * i + 1],
                pixels@[stride * i + 2],
            ),
{
    let mut out: Vec<u32> = Vec::new();
    let mut i: usize = 0;
    proof {
        assert(stride * out@.len() == 0) by (nonlinear_arith)
            requires
                out@.len() == 0,
        ;
    }
    while i + stride <= pixels.len()
        invariant
            3 <= stride,
            pixels@.len() + stride <= usize::MAX,
            pixels@.len() as int % (stride as int) == 0,
            i == stride * out@.len(),
            i <= pixels@.len(),
            forall|q: int| 0 <= q < out@.len() ==> #[trigger] (stride * q) + stride <= pixels@.len(),
            forall|q: int|
                0 <= q < out@.len() ==> out@[q] == spec_rgb_value(
                    pixels@[stride * q],
                    pixels@[stride * q + 1],
                    pixels@[stride * q + 2],
                ),
        decreases pixels@.len() - i,
    {
        let r = pixels[i] as u32;
        let g = pixels[i + 1] as u32;
        let b = pixels[i + 2] as u32;
        let v = r | (g << 8u32) | (b << 16u32);
        out.push(v);
        proof {
            let n0 = out@.len() - 1;
            assert(out@[n0] == v);
            assert(i + stride == stride * out@.len()) by (nonlinear_arith)
                requires
                    i == stride * (out@.len() - 1),
            ;
            assert forall|q: int| 0 <= q < out@.len() implies #[trigger] (stride * q) + stride
                <= pixels@.len() by {
                if q == n0 {
                    assert(stride * q == i);
                }
            }
            assert forall|q: int| 0 <= q < out@.len() implies out@[q] == spec_rgb_value(
                pixels@[stride * q],
                pixels@[stride * q + 1],
                pixels@[stride * q + 2],
            ) by {
                if q == n0 {
                    assert(stride * q == i);
                } else {
                    assert(out@[q] == out@.subrange(0, n0)[q]);
                }
            }
        }
        i += stride;
    }
    proof {
        let n = out@.len() as int;
        let len = pixels@.len() as int;
        let st = stride as int;
        // the loop consumed everything: a partial pixel would contradict the
        // stride dividing the length
        assert(len - i < st);
        vstd::arithmetic::div_mod::lemma_fundamental_div_mod(len, st);
        assert(len == st * (len / st));
        assert(i == len) by {
            if i < len {
                assert(st * n < st * (len / st));
                assert(n < len / st) by (nonlinear_arith)
                    requires
                        st * n < st * (len / st),
                        st >= 1,
                ;
                assert(st * (n + 1) <= st * (len / st)) by (nonlinear_arith)
                    requires
                        n + 1 <= len / st,
                        st >= 1,
                ;
                assert(st * (n + 1) == st * n + st) by (nonlinear_arith);
            }
        }
        vstd::arithmetic::div_mod::lemma_fundamental_div_mod_converse(len, st, n, 0);
    }
    out
}

/// The low byte of every combined value, for a grayscale image.
pub fn gray_from_values(values: &[u32]) -> (r: Vec<u8>)
    ensures
        r@.len() == values@.len(),
        forall|i: int| 0 <= i < r@.len() ==> r@[i] == (values@[i] & 0xff) as u8,
{
    let mut out: Vec<u8> = Vec::new();
    let mut i: usize = 0;
    while i < values.len()
        invariant
            i <= values@.len(),
            out@.len() == i,
            forall|q: int| 0 <= q < i ==> out@[q] == (values@[q] & 0xff) as u8,
        decreases values@.len() - i,
    {
        let v = values[i];
        proof {
            assert(v & 0xff < 256) by (bit_vector);
        }
        out.push((v & 0xff) as u8);
        i += 1;
    }
    out
}

/// Three bytes per combined value — red, green, blue — for a color image.
pub fn rgb_from_values(values: &[u32]) -> (r: Vec<u8>)
    ensures
        r@.len() == 3 * values@.len(),
        forall|i: int|
            0 <= i < values@.len() ==> r@[3 * i] == (values@[i] & 0xff) as u8 && r@[3 * i + 1] == ((
            values@[i] >> 8u32) & 0xff) as u8 && r@[3 * i + 2] == ((values@[i] >> 16u32)
                & 0xff) as u8,
{
    let mut out: Vec<u8> = Vec::new();
    let mut i: usize = 0;
    while i < values.len()
        invariant
            i <= values@.len(),
            out@.len() == 3 * i,
            forall|q: int|
                0 <= q < i ==> out@[3 * q] == (values@[q] & 0xff) as u8 && out@[3 * q + 1] == ((
                values@[q] >> 8u32) & 0xff) as u8 && out@[3 * q + 2] == ((values@[q] >> 16u32)
                    & 0xff) as u8,
        decreases values@.len() - i,
    {
        let v = values[i];
        proof {
            assert(v & 0xff < 256 && (v >> 8u32) & 0xff < 256 && (v >> 16u32) & 0xff < 256)
                by (bit_vector);
        }
        out.push((v & 0xff) as u8);
        out.push(((v >> 8u32) & 0xff) as u8);
        out.push(((v >> 16u32) & 0xff) as u8);
        i += 1;
    }
    out
}

} // verus!
