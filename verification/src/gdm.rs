//! The `.gdm` file container: a header in one of two variants, optional
//! range boundaries, then for every 32x32 chunk (row-major) one block per
//! compression range. Each pixel's value is the OR of the per-range block
//! values, each shifted by the channels below its range.

use vstd::prelude::*;
use crate::cursor::{read_u32_le, spec_u32_le};
use crate::errors::CodecError;
use crate::gdm_block::{
    decode_gdm_block, encode_gdm_block, spec_block_size, spec_block_pixel, spec_bit_depth,
    spec_palette_count, spec_palette, spec_bitmap,
};

verus! {

/// A decoded density map: its geometry and one combined value per pixel,
/// row-major over the whole image.
pub struct GdmImage {
    pub dimension: usize,
    pub num_channels: u8,
    pub num_ranges: u8,
    pub values: Vec<u32>,
}

// ---------------------------------------------------------------------------
// Header observers
// ---------------------------------------------------------------------------

/// Magic `"MDF` (0x22 variant, the full 16-byte header).
pub open spec fn spec_gdm_magic_new(d: Seq<u8>) -> bool {
    d.len() >= 4 && d[0] == 0x22 && d[1] == 0x4d && d[2] == 0x44 && d[3] == 0x46
}

/// Magic `!MDF` (0x21 variant, the short 9-byte header).
pub open spec fn spec_gdm_magic_old(d: Seq<u8>) -> bool {
    d.len() >= 4 && d[0] == 0x21 && d[1] == 0x4d && d[2] == 0x44 && d[3] == 0x46
}

pub open spec fn spec_gdm_dim_log2(d: Seq<u8>) -> nat {
    if spec_gdm_magic_new(d) {
        d[8] as nat
    } else {
        d[4] as nat
    }
}

pub open spec fn spec_gdm_chunk_log2(d: Seq<u8>) -> nat {
    if spec_gdm_magic_new(d) {
        d[9] as nat
    } else {
        d[5] as nat
    }
}

pub open spec fn spec_gdm_num_channels(d: Seq<u8>) -> nat {
    if spec_gdm_magic_new(d) {
        d[11] as nat
    } else {
        d[7] as nat
    }
}

pub open spec fn spec_gdm_num_ranges(d: Seq<u8>) -> nat {
    if spec_gdm_magic_new(d) {
        d[12] as nat
    } else {
        d[8] as nat
    }
}

pub open spec fn spec_gdm_header_size(d: Seq<u8>) -> int {
    if spec_gdm_magic_new(d) {
        16
    } else {
        9
    }
}

pub open spec fn spec_gdm_dimension(d: Seq<u8>) -> nat {
    vstd::arithmetic::power2::pow2(spec_gdm_dim_log2(d) + 5)
}

pub open spec fn spec_gdm_chunk_size(d: Seq<u8>) -> nat {
    vstd::arithmetic::power2::pow2(spec_gdm_chunk_log2(d))
}

/// Where the blocks begin: after the header and the inner boundary bytes.
pub open spec fn spec_gdm_data_start(d: Seq<u8>) -> int {
    spec_gdm_header_size(d) + if spec_gdm_num_ranges(d) > 1 {
        spec_gdm_num_ranges(d) - 1
    } else {
        0
    }
}

/// The range boundaries: zero, the inner boundary bytes, the channel count.
pub open spec fn spec_gdm_boundary(d: Seq<u8>, k: int) -> nat {
    if k <= 0 {
        0
    } else if k < spec_gdm_num_ranges(d) {
        d[spec_gdm_header_size(d) + k - 1] as nat
    } else {
        spec_gdm_num_channels(d)
    }
}

/// Bits of range `k`: the width of its channel band.
pub open spec fn spec_gdm_range_bits(d: Seq<u8>, k: int) -> nat {
    (spec_gdm_boundary(d, k + 1) - spec_gdm_boundary(d, k)) as nat
}

/// The shift of range `k`: all channels below its band.
pub open spec fn spec_gdm_range_shift(d: Seq<u8>, k: int) -> nat {
    spec_gdm_boundary(d, k)
}

// ---------------------------------------------------------------------------
// Block positions
// ---------------------------------------------------------------------------

/// The position of block `k`, counting every block of every chunk from
/// `start` on: blocks are laid end to end.
pub open spec fn spec_block_pos(d: Seq<u8>, start: int, k: nat) -> int
    decreases k,
{
    if k == 0 {
        start
    } else {
        let p = spec_block_pos(d, start, (k - 1) as nat);
        p + spec_block_size(d, p)
    }
}

/// Block `k` lies fully inside the data.
pub open spec fn spec_block_in_range(d: Seq<u8>, p: int) -> bool {
    0 <= p && p + 2 <= d.len() && p + spec_block_size(d, p) <= d.len()
}

/// The first `n` blocks all lie inside the data.
pub open spec fn spec_blocks_ok(d: Seq<u8>, start: int, n: nat) -> bool {
    forall|k: nat| k < n ==> spec_block_in_range(d, #[trigger] spec_block_pos(d, start, k))
}

// ---------------------------------------------------------------------------
// Combined pixel values
// ---------------------------------------------------------------------------

/// The combined value of in-chunk pixel `pi` of chunk `c`, using the first
/// `r` ranges: each range's block value shifted up by the channels below it.
pub open spec fn spec_combined_upto(d: Seq<u8>, start: int, c: int, r: nat, pi: int) -> u32
    decreases r,
{
    if r == 0 {
        0u32
    } else {
        let nr = spec_gdm_num_ranges(d) as int;
        let p = spec_block_pos(d, start, (c * nr + r - 1) as nat);
        spec_combined_upto(d, start, c, (r - 1) as nat, pi) | (
        (spec_block_pixel(d, p, pi) as u32) << (spec_gdm_range_shift(d, r - 1) as u32))
    }
}

/// The fully combined value of in-chunk pixel `pi` of chunk `c`.
pub open spec fn spec_gdm_pixel(d: Seq<u8>, c: int, pi: int) -> u32 {
    spec_combined_upto(d, spec_gdm_data_start(d), c, spec_gdm_num_ranges(d), pi)
}

// ---------------------------------------------------------------------------
// Well-formedness: exactly the files the decoder accepts
// ---------------------------------------------------------------------------

/// The header alone is acceptable: magic, version, and the size caps this
/// decoder enforces so that no shift or index can leave its range.
pub open spec fn spec_gdm_header_ok(d: Seq<u8>) -> bool {
    &&& d.len() >= 16
    &&& (spec_gdm_magic_new(d) || spec_gdm_magic_old(d))
    &&& (spec_gdm_magic_new(d) ==> spec_u32_le(d[4], d[5], d[6], d[7]) == 0)
    &&& spec_gdm_dim_log2(d) <= 15
    &&& spec_gdm_chunk_log2(d) <= 5
    &&& spec_gdm_num_channels(d) <= 24
}

/// The boundary bytes are present and ascend weakly from 0 to the channel
/// count.
pub open spec fn spec_gdm_boundaries_ok(d: Seq<u8>) -> bool {
    &&& spec_gdm_data_start(d) <= d.len()
    &&& forall|k: int|
        0 <= k < spec_gdm_num_ranges(d) ==> #[trigger] spec_gdm_boundary(d, k)
            <= spec_gdm_boundary(d, k + 1)
}

/// Everything the decoder checks before it accepts a file.
pub open spec fn spec_gdm_wf(d: Seq<u8>) -> bool {
    let cpd = spec_gdm_dimension(d) / spec_gdm_chunk_size(d);
    &&& spec_gdm_header_ok(d)
    &&& spec_gdm_boundaries_ok(d)
    &&& spec_gdm_dimension(d) * spec_gdm_dimension(d) <= usize::MAX
    &&& spec_blocks_ok(d, spec_gdm_data_start(d), (cpd * cpd * spec_gdm_num_ranges(d)) as nat)
}

// ---------------------------------------------------------------------------
// Chunk and coordinate arithmetic
// ---------------------------------------------------------------------------

/// The image coordinates written for in-chunk pixel `pi` of chunk `c` are in
/// range, and recover `c` and `pi`.
pub proof fn lemma_coord_bijection(c: int, pi: int, cs: nat, cpd: nat)
    requires
        1 <= cs,
        1 <= cpd,
        0 <= c < cpd * cpd,
        0 <= pi < cs * cs,
    ensures
        ({
            let y = (c / cpd as int) * cs + pi / cs as int;
            let x = (c % cpd as int) * cs + pi % cs as int;
            &&& 0 <= y < cs * cpd
            &&& 0 <= x < cs * cpd
            &&& y / cs as int == c / cpd as int
            &&& y % cs as int == pi / cs as int
            &&& x / cs as int == c % cpd as int
            &&& x % cs as int == pi % cs as int
            &&& y * (cs * cpd) + x == (c / cpd as int) * (cs * (cs * cpd)) + (c % cpd as int) * cs
                + (pi / cs as int) * (cs * cpd) + pi % cs as int
        }),
{
    let csi = cs as int;
    let cpdi = cpd as int;
    let cr = c / cpdi;
    let cc = c % cpdi;
    let pr = pi / csi;
    let pc = pi % csi;
    vstd::arithmetic::div_mod::lemma_fundamental_div_mod(c, cpdi);
    vstd::arithmetic::div_mod::lemma_mod_bound(c, cpdi);
    vstd::arithmetic::div_mod::lemma_fundamental_div_mod(pi, csi);
    vstd::arithmetic::div_mod::lemma_mod_bound(pi, csi);
    assert(cr < cpdi) by {
        if cr >= cpdi {
            vstd::arithmetic::mul::lemma_mul_inequality(cpdi, cr, cpdi);
            assert(c >= cpdi * cpdi + cc);
        }
    }
    assert(pr < csi) by {
        if pr >= csi {
            vstd::arithmetic::mul::lemma_mul_inequality(csi, pr, csi);
            assert(pi >= csi * csi + pc);
        }
    }
    let y = cr * csi + pr;
    let x = cc * csi + pc;
    vstd::arithmetic::div_mod::lemma_fundamental_div_mod_converse(y, csi, cr, pr);
    vstd::arithmetic::div_mod::lemma_fundamental_div_mod_converse(x, csi, cc, pc);
    assert(y < csi * cpdi) by {
        vstd::arithmetic::mul::lemma_mul_inequality(cr + 1, cpdi, csi);
        assert((cr + 1) * csi == cr * csi + csi) by (nonlinear_arith);
        assert(cpdi * csi == csi * cpdi) by (nonlinear_arith);
    }
    assert(x < csi * cpdi) by {
        vstd::arithmetic::mul::lemma_mul_inequality(cc + 1, cpdi, csi);
        assert((cc + 1) * csi == cc * csi + csi) by (nonlinear_arith);
        assert(cpdi * csi == csi * cpdi) by (nonlinear_arith);
    }
    assert(y * (csi * cpdi) == cr * (csi * (csi * cpdi)) + pr * (csi * cpdi)) by (nonlinear_arith)
        requires
            y == cr * csi + pr,
    ;
}

proof fn lemma_pow2_le(e1: nat, e2: nat)
    requires
        e1 <= e2,
    ensures
        vstd::arithmetic::power2::pow2(e1) <= vstd::arithmetic::power2::pow2(e2),
{
    if e1 < e2 {
        vstd::arithmetic::power2::lemma_pow2_strictly_increases(e1, e2);
    }
}

proof fn lemma_div_lt(x: int, a: int, b: int)
    requires
        0 <= x,
        1 <= b,
        x < a * b,
    ensures
        x / b < a,
{
    vstd::arithmetic::div_mod::lemma_fundamental_div_mod(x, b);
    vstd::arithmetic::div_mod::lemma_mod_bound(x, b);
    if x / b >= a {
        vstd::arithmetic::mul::lemma_mul_inequality(a, x / b, b);
        assert((x / b) * b == b * (x / b)) by (nonlinear_arith);
    }
}

/// Two different chunk/pixel pairs land on two different image indices.
proof fn lemma_coord_injective(c1: int, pi1: int, c2: int, pi2: int, cs: nat, cpd: nat)
    requires
        1 <= cs,
        1 <= cpd,
        0 <= c1 < cpd * cpd,
        0 <= c2 < cpd * cpd,
        0 <= pi1 < cs * cs,
        0 <= pi2 < cs * cs,
        c1 != c2 || pi1 != pi2,
    ensures
        ((c1 / cpd as int) * cs + pi1 / cs as int) * (cs * cpd) + (c1 % cpd as int) * cs + pi1
            % cs as int != ((c2 / cpd as int) * cs + pi2 / cs as int) * (cs * cpd) + (c2
            % cpd as int) * cs + pi2 % cs as int,
{
    lemma_coord_bijection(c1, pi1, cs, cpd);
    lemma_coord_bijection(c2, pi2, cs, cpd);
    let dim = (cs * cpd) as int;
    let y1 = (c1 / cpd as int) * cs + pi1 / cs as int;
    let x1 = (c1 % cpd as int) * cs + pi1 % cs as int;
    let y2 = (c2 / cpd as int) * cs + pi2 / cs as int;
    let x2 = (c2 % cpd as int) * cs + pi2 % cs as int;
    if y1 * dim + x1 == y2 * dim + x2 {
        vstd::arithmetic::div_mod::lemma_fundamental_div_mod_converse(y1 * dim + x1, dim, y1, x1);
        vstd::arithmetic::div_mod::lemma_fundamental_div_mod_converse(y2 * dim + x2, dim, y2, x2);
        assert(y1 == y2 && x1 == x2);
        vstd::arithmetic::div_mod::lemma_fundamental_div_mod(c1, cpd as int);
        vstd::arithmetic::div_mod::lemma_fundamental_div_mod(c2, cpd as int);
        vstd::arithmetic::div_mod::lemma_fundamental_div_mod(pi1, cs as int);
        vstd::arithmetic::div_mod::lemma_fundamental_div_mod(pi2, cs as int);
        assert(false);
    }
}

/// The shared geometry facts the decoding loops carry.
pub open spec fn spec_geom(d: Seq<u8>, dimension: nat, cs: nat, cpd: nat, nr: nat, ds: int) -> bool {
    &&& spec_gdm_header_ok(d)
    &&& spec_gdm_boundaries_ok(d)
    &&& dimension == spec_gdm_dimension(d)
    &&& cs == spec_gdm_chunk_size(d)
    &&& nr == spec_gdm_num_ranges(d)
    &&& ds == spec_gdm_data_start(d)
    &&& dimension == cs * cpd
    &&& 1 <= cs <= 32
    &&& 1 <= cpd
    &&& 32 <= dimension
    &&& dimension * dimension <= usize::MAX
    &&& d.len() <= usize::MAX
}

/// Every chunk below `upto_chunk` has been written to the image at its
/// row-major place.
pub open spec fn spec_chunks_decoded(
    vals: Seq<u32>,
    d: Seq<u8>,
    dimension: nat,
    cs: nat,
    cpd: nat,
    upto_chunk: int,
) -> bool {
    forall|c2: int, pi: int|
        0 <= c2 < upto_chunk && 0 <= pi < cs * cs ==> vals[((c2 / cpd as int) * cs + pi
            / cs as int) * dimension + (c2 % cpd as int) * cs + pi % cs as int]
            == #[trigger] spec_gdm_pixel(d, c2, pi)
}

/// Every boundary lies at or below the channel count.
proof fn lemma_boundary_le_nch(d: Seq<u8>, k: int)
    requires
        spec_gdm_boundaries_ok(d),
        0 <= k <= spec_gdm_num_ranges(d),
    ensures
        spec_gdm_boundary(d, k) <= spec_gdm_num_channels(d),
    decreases spec_gdm_num_ranges(d) - k,
{
    if k < spec_gdm_num_ranges(d) {
        lemma_boundary_le_nch(d, k + 1);
        assert(spec_gdm_boundary(d, k) <= spec_gdm_boundary(d, k + 1));
    }
}

/// Decodes the blocks of one chunk, one per range, and combines them into
/// one value per pixel.
#[verifier::rlimit(100)]
fn decode_chunk_blocks(
    data: &[u8],
    pos_in: usize,
    c: usize,
    dimension: usize,
    chunk_size: usize,
    cpd: usize,
    header_size: usize,
    data_start: usize,
    num_channels: u8,
    num_ranges: u8,
) -> (r: Result<(Vec<u32>, usize), CodecError>)
    requires
        spec_geom(
            data@,
            dimension as nat,
            chunk_size as nat,
            cpd as nat,
            num_ranges as nat,
            data_start as int,
        ),
        num_channels == spec_gdm_num_channels(data@),
        header_size == spec_gdm_header_size(data@),
        cpd == spec_gdm_dimension(data@) / spec_gdm_chunk_size(data@),
        c < cpd * cpd,
        pos_in == spec_block_pos(data@, data_start as int, (c * num_ranges) as nat),
        data_start <= pos_in <= data@.len(),
        spec_blocks_ok(data@, data_start as int, (c * num_ranges) as nat),
    ensures
        r matches Ok(p) ==> ({
            &&& p.0@.len() == chunk_size * chunk_size
            &&& forall|q: int|
                0 <= q < chunk_size * chunk_size ==> p.0@[q] == spec_gdm_pixel(data@, c as int, q)
            &&& p.1 == spec_block_pos(
                data@,
                data_start as int,
                (c * num_ranges + num_ranges) as nat,
            )
            &&& data_start <= p.1 <= data@.len()
            &&& spec_blocks_ok(data@, data_start as int, (c * num_ranges + num_ranges) as nat)
        }),
        r is Err ==> !spec_gdm_wf(data@),
        r matches Err(e) ==> e is Truncated,
{
    let d = Ghost(data@);
    let nr: usize = num_ranges as usize;
    proof {
        assert(chunk_size * chunk_size <= 1024) by (nonlinear_arith)
            requires
                chunk_size <= 32,
        ;
    }
    let in_chunk: usize = chunk_size * chunk_size;

    let mut chunk_vals: Vec<u32> = Vec::new();
    let mut z: usize = 0;
    while z < in_chunk
        invariant
            z <= in_chunk,
            chunk_vals@.len() == z,
            forall|q: int| 0 <= q < z ==> chunk_vals@[q] == 0u32,
        decreases in_chunk - z,
    {
        chunk_vals.push(0);
        z += 1;
    }

    let mut pos: usize = pos_in;
    let mut shift: u8 = 0;
    let mut r: usize = 0;
    while r < nr
        invariant
            r <= nr,
            d@ == data@,
            nr == num_ranges,
            spec_geom(d@, dimension as nat, chunk_size as nat, cpd as nat, nr as nat,
                data_start as int),
            in_chunk == chunk_size * chunk_size,
            in_chunk <= 1024,
            num_channels == spec_gdm_num_channels(d@),
            header_size == spec_gdm_header_size(d@),
            cpd == spec_gdm_dimension(d@) / spec_gdm_chunk_size(d@),
            c < cpd * cpd,
            chunk_vals@.len() == in_chunk,
            data_start <= pos <= data@.len(),
            pos == spec_block_pos(d@, data_start as int, (c * nr + r) as nat),
            spec_blocks_ok(d@, data_start as int, (c * nr + r) as nat),
            shift == spec_gdm_boundary(d@, r as int),
            shift <= 24,
            forall|pi: int|
                0 <= pi < in_chunk ==> chunk_vals@[pi] == spec_combined_upto(
                    d@,
                    data_start as int,
                    c as int,
                    r as nat,
                    pi,
                ),
        decreases nr - r,
    {
        if data.len() - pos < 2 {
            proof {
                if spec_gdm_wf(d@) {
                    assert(c * nr + r < cpd * cpd * nr) by (nonlinear_arith)
                        requires
                            c < cpd * cpd,
                            r < nr,
                    ;
                    assert(spec_block_in_range(
                        d@,
                        spec_block_pos(d@, data_start as int, (c * nr + r) as nat),
                    ));
                }
            }
            return Err(CodecError::Truncated(String::from_str("block header past the end")));
        }
        let bdep = data[pos] as usize;
        let pcount = data[pos + 1] as usize;
        let bsize: usize = 2 + 2 * pcount + if bdep > 0 {
            128 * bdep
        } else {
            0
        };
        assert(bsize == spec_block_size(d@, pos as int));
        if bsize > data.len() - pos {
            proof {
                if spec_gdm_wf(d@) {
                    assert(c * nr + r < cpd * cpd * nr) by (nonlinear_arith)
                        requires
                            c < cpd * cpd,
                            r < nr,
                    ;
                    assert(spec_block_in_range(
                        d@,
                        spec_block_pos(d@, data_start as int, (c * nr + r) as nat),
                    ));
                }
            }
            return Err(CodecError::Truncated(String::from_str("block data past the end")));
        }
        assert(spec_block_in_range(d@, pos as int));

        let (pix, _bsize2) = decode_gdm_block(data, pos, chunk_size);

        let ghost vals0 = chunk_vals@;
        let mut pi: usize = 0;
        while pi < in_chunk
            invariant
                pi <= in_chunk,
                chunk_vals@.len() == in_chunk,
                shift <= 24,
                pix@.len() == in_chunk,
                forall|q: int| pi <= q < in_chunk ==> chunk_vals@[q] == vals0[q],
                forall|q: int|
                    0 <= q < pi ==> chunk_vals@[q] == (vals0[q] | ((pix@[q] as u32) << (
                    shift as u32))),
            decreases in_chunk - pi,
        {
            let nv = chunk_vals[pi] | ((pix[pi] as u32) << (shift as u32));
            chunk_vals.set(pi, nv);
            pi += 1;
        }

        proof {
            let kb = (c * nr + r) as nat;
            assert(spec_block_pos(d@, data_start as int, (kb + 1) as nat) == pos
                + spec_block_size(d@, pos as int));
            assert forall|kk: nat| kk < kb + 1 implies spec_block_in_range(
                d@,
                #[trigger] spec_block_pos(d@, data_start as int, kk),
            ) by {
                if kk < kb {
                }
            }
            assert forall|q: int| 0 <= q < in_chunk implies chunk_vals@[q] == spec_combined_upto(
                d@,
                data_start as int,
                c as int,
                (r + 1) as nat,
                q,
            ) by {
                assert(chunk_vals@[q] == (vals0[q] | ((pix@[q] as u32) << (shift as u32))));
                assert(vals0[q] == spec_combined_upto(d@, data_start as int, c as int, r as nat,
                    q));
                assert(pix@[q] == spec_block_pixel(d@, pos as int, q));
            }
            lemma_boundary_le_nch(d@, r + 1);
        }
        let step: u8 = if r + 1 < nr {
            data[header_size + r]
        } else {
            num_channels
        };
        assert(step == spec_gdm_boundary(d@, r + 1));
        shift = step;
        pos += bsize;
        r += 1;
        proof {
            assert(c * nr + (r - 1) + 1 == c * nr + r);
        }
    }
    Ok((chunk_vals, pos))
}

/// Writes one chunk of combined values into the image at its row-major
/// place, leaving every other chunk untouched.
#[verifier::rlimit(100)]
fn scatter_chunk(
    values: &mut Vec<u32>,
    chunk_vals: &Vec<u32>,
    c: usize,
    dimension: usize,
    chunk_size: usize,
    cpd: usize,
    Ghost(d): Ghost<Seq<u8>>,
)
    requires
        1 <= chunk_size <= 32,
        1 <= cpd,
        dimension == chunk_size * cpd,
        dimension * dimension <= usize::MAX,
        c < cpd * cpd,
        chunk_vals@.len() == chunk_size * chunk_size,
        forall|q: int|
            0 <= q < chunk_size * chunk_size ==> chunk_vals@[q] == spec_gdm_pixel(d, c as int, q),
        old(values)@.len() == dimension * dimension,
        spec_chunks_decoded(
            old(values)@,
            d,
            dimension as nat,
            chunk_size as nat,
            cpd as nat,
            c as int,
        ),
    ensures
        final(values)@.len() == dimension * dimension,
        spec_chunks_decoded(
            final(values)@,
            d,
            dimension as nat,
            chunk_size as nat,
            cpd as nat,
            c as int + 1,
        ),
{
    proof {
        lemma_div_lt(c as int, cpd as int, cpd as int);
        vstd::arithmetic::div_mod::lemma_mod_bound(c as int, cpd as int);
        assert((c as int / cpd as int) * chunk_size < cpd * chunk_size) by (nonlinear_arith)
            requires
                (c as int / cpd as int) < cpd,
                0 <= (c as int / cpd as int),
                1 <= chunk_size,
        ;
        assert((c as int % cpd as int) * chunk_size < cpd * chunk_size) by (nonlinear_arith)
            requires
                (c as int % cpd as int) < cpd,
                0 <= (c as int % cpd as int),
                1 <= chunk_size,
        ;
        assert(cpd * chunk_size == chunk_size * cpd) by (nonlinear_arith);
        assert(chunk_size * chunk_size <= 1024) by (nonlinear_arith)
            requires
                chunk_size <= 32,
        ;
    }
    let in_chunk: usize = chunk_size * chunk_size;
    let base_y: usize = (c / cpd) * chunk_size;
    let base_x: usize = (c % cpd) * chunk_size;
    let mut pi: usize = 0;
    while pi < in_chunk
        invariant
            pi <= in_chunk,
            1 <= chunk_size <= 32,
            1 <= cpd,
            dimension == chunk_size * cpd,
            dimension * dimension <= usize::MAX,
            in_chunk == chunk_size * chunk_size,
            c < cpd * cpd,
            base_y == (c as int / cpd as int) * chunk_size,
            base_x == (c as int % cpd as int) * chunk_size,
            values@.len() == dimension * dimension,
            chunk_vals@.len() == in_chunk,
            forall|q: int|
                0 <= q < in_chunk ==> chunk_vals@[q] == spec_gdm_pixel(d, c as int, q),
            spec_chunks_decoded(values@, d, dimension as nat, chunk_size as nat, cpd as nat,
                c as int),
            forall|q: int|
                0 <= q < pi ==> values@[((c as int / cpd as int) * chunk_size + q
                    / chunk_size as int) * dimension + (c as int % cpd as int) * chunk_size + q
                    % chunk_size as int] == spec_gdm_pixel(d, c as int, q),
        decreases in_chunk - pi,
    {
        let py = pi / chunk_size;
        let px = pi % chunk_size;
        proof {
            lemma_coord_bijection(c as int, pi as int, chunk_size as nat, cpd as nat);
        }
        let img_y = base_y + py;
        let img_x = base_x + px;
        proof {
            assert(img_y < dimension && img_x < dimension);
            assert(img_y * dimension + img_x < dimension * dimension) by (nonlinear_arith)
                requires
                    img_y < dimension,
                    img_x < dimension,
            ;
        }
        let idx = img_y * dimension + img_x;
        let v = chunk_vals[pi];
        values.set(idx, v);
        proof {
            assert(idx == ((c as int / cpd as int) * chunk_size + pi as int / chunk_size as int)
                * (chunk_size * cpd) + (c as int % cpd as int) * chunk_size + pi as int
                % chunk_size as int);
            assert forall|c2: int, pi2: int|
                0 <= c2 < c && 0 <= pi2 < chunk_size * chunk_size implies values@[((c2
                / cpd as int) * chunk_size + pi2 / chunk_size as int) * dimension + (c2
                % cpd as int) * chunk_size + pi2 % chunk_size as int] == #[trigger] spec_gdm_pixel(
                d,
                c2,
                pi2,
            ) by {
                lemma_coord_injective(c2, pi2, c as int, pi as int, chunk_size as nat, cpd as nat);
                lemma_coord_bijection(c2, pi2, chunk_size as nat, cpd as nat);
                let y2 = (c2 / cpd as int) * chunk_size as int + pi2 / chunk_size as int;
                let x2 = (c2 % cpd as int) * chunk_size as int + pi2 % chunk_size as int;
                assert(0 <= y2 < dimension && 0 <= x2 < dimension);
                assert(y2 * dimension + x2 < dimension * dimension) by (nonlinear_arith)
                    requires
                        0 <= y2 < dimension,
                        0 <= x2 < dimension,
                ;
            }
            assert forall|q: int| 0 <= q < pi + 1 implies values@[((c as int / cpd as int)
                * chunk_size + q / chunk_size as int) * dimension + (c as int % cpd as int)
                * chunk_size + q % chunk_size as int] == spec_gdm_pixel(d, c as int, q) by {
                if q != pi {
                    lemma_coord_injective(c as int, q, c as int, pi as int, chunk_size as nat,
                        cpd as nat);
                    lemma_coord_bijection(c as int, q, chunk_size as nat, cpd as nat);
                    let y2 = (c as int / cpd as int) * chunk_size as int + q / chunk_size as int;
                    let x2 = (c as int % cpd as int) * chunk_size as int + q % chunk_size as int;
                    assert(0 <= y2 < dimension && 0 <= x2 < dimension);
                    assert(y2 * dimension + x2 < dimension * dimension) by (nonlinear_arith)
                        requires
                            0 <= y2 < dimension,
                            0 <= x2 < dimension,
                    ;
                }
            }
        }
        pi += 1;
    }
    proof {
        assert forall|c2: int, pi2: int|
            0 <= c2 < c + 1 && 0 <= pi2 < chunk_size * chunk_size implies values@[((c2
            / cpd as int) * chunk_size + pi2 / chunk_size as int) * dimension + (c2 % cpd as int)
            * chunk_size + pi2 % chunk_size as int] == #[trigger] spec_gdm_pixel(d, c2, pi2) by {}
    }
}

/// Decodes a complete `.gdm` file into one combined value per pixel.
/// Accepts both header variants; rejects bad magic, a nonzero version,
/// sizes past this machine, boundaries that do not ascend, and truncation.
#[verifier::rlimit(100)]
pub fn decode_gdm_file(data: &[u8]) -> (r: Result<GdmImage, CodecError>)
    ensures
        r is Ok <==> spec_gdm_wf(data@),
        r matches Ok(img) ==> ({
            let cpd = spec_gdm_dimension(data@) / spec_gdm_chunk_size(data@);
            let cs = spec_gdm_chunk_size(data@);
            &&& img.dimension == spec_gdm_dimension(data@)
            &&& img.num_channels == spec_gdm_num_channels(data@)
            &&& img.num_ranges == spec_gdm_num_ranges(data@)
            &&& img.values@.len() == img.dimension * img.dimension
            &&& spec_chunks_decoded(
                img.values@,
                data@,
                spec_gdm_dimension(data@),
                cs,
                cpd,
                (cpd * cpd) as int,
            )
        }),
        data@.len() < 16 ==> (r matches Err(e) && e is Truncated),
        data@.len() >= 16 && !(spec_gdm_magic_new(data@) || spec_gdm_magic_old(data@)) ==> (
        r matches Err(e) && e is BadMagic),
        data@.len() >= 16 && (spec_gdm_magic_new(data@) || spec_gdm_magic_old(data@))
            && !spec_gdm_header_ok(data@) ==> (r matches Err(e) && e is Unsupported),
        spec_gdm_header_ok(data@) && spec_gdm_dimension(data@) * spec_gdm_dimension(data@)
            > usize::MAX ==> (r matches Err(e) && e is Unsupported),
        spec_gdm_header_ok(data@) && spec_gdm_dimension(data@) * spec_gdm_dimension(data@)
            <= usize::MAX && spec_gdm_data_start(data@) > data@.len() ==> (r matches Err(e)
            && e is Truncated),
        spec_gdm_header_ok(data@) && spec_gdm_dimension(data@) * spec_gdm_dimension(data@)
            <= usize::MAX && spec_gdm_data_start(data@) <= data@.len() && !spec_gdm_boundaries_ok(
            data@,
        ) ==> (r matches Err(e) && e is Unsupported),
        spec_gdm_header_ok(data@) && spec_gdm_boundaries_ok(data@) && spec_gdm_dimension(data@)
            * spec_gdm_dimension(data@) <= usize::MAX && !spec_gdm_wf(data@) ==> (r matches Err(e)
            && e is Truncated),
        r matches Err(e) ==> (e is Truncated || e is BadMagic || e is Unsupported),
{
    let d = Ghost(data@);
    if data.len() < 16 {
        return Err(CodecError::Truncated(String::from_str("file shorter than its header")));
    }
    let m0 = data[0];
    if !((m0 == 0x22 || m0 == 0x21) && data[1] == 0x4d && data[2] == 0x44 && data[3] == 0x46) {
        return Err(CodecError::BadMagic(String::from_str("missing MDF magic")));
    }
    let is_new = m0 == 0x22;

    let dim_log2: u8;
    let chunk_log2: u8;
    let num_channels: u8;
    let num_ranges: u8;
    let header_size: usize;
    if is_new {
        let version = read_u32_le(data, 4);
        if version != 0 {
            return Err(CodecError::Unsupported(String::from_str("unsupported version")));
        }
        dim_log2 = data[8];
        chunk_log2 = data[9];
        num_channels = data[11];
        num_ranges = data[12];
        header_size = 16;
    } else {
        dim_log2 = data[4];
        chunk_log2 = data[5];
        num_channels = data[7];
        num_ranges = data[8];
        header_size = 9;
    }
    if dim_log2 > 15 || chunk_log2 > 5 || num_channels > 24 {
        return Err(
            CodecError::Unsupported(String::from_str("header field outside the supported range")),
        );
    }
    assert(spec_gdm_header_ok(d@));

    proof {
        vstd::arithmetic::power2::lemma2_to64();
        lemma_pow2_le((dim_log2 + 5) as nat, 20);
        lemma_pow2_le(chunk_log2 as nat, 5);
        vstd::bits::lemma_usize_shl_is_mul(1, (dim_log2 + 5) as usize);
        vstd::bits::lemma_usize_shl_is_mul(1, chunk_log2 as usize);
    }
    let dimension: usize = 1usize << ((dim_log2 as usize) + 5);
    let chunk_size: usize = 1usize << (chunk_log2 as usize);
    assert(dimension == spec_gdm_dimension(d@));
    assert(chunk_size == spec_gdm_chunk_size(d@));
    assert(1 <= chunk_size <= 32 && 32 <= dimension <= 0x100000);
    let cpd: usize = dimension / chunk_size;
    proof {
        let a = (spec_gdm_dim_log2(d@) + 5 - spec_gdm_chunk_log2(d@)) as nat;
        vstd::arithmetic::power2::lemma_pow2_adds(a, spec_gdm_chunk_log2(d@));
        vstd::arithmetic::power2::lemma_pow2_pos(a);
        let pa = vstd::arithmetic::power2::pow2(a) as int;
        assert(dimension as int == pa * chunk_size as int);
        assert(pa * chunk_size as int == chunk_size as int * pa) by (nonlinear_arith);
        vstd::arithmetic::div_mod::lemma_div_multiples_vanish(pa, chunk_size as int);
        assert(cpd == pa);
        assert(dimension == chunk_size * cpd);
        assert(cpd == spec_gdm_dimension(d@) / spec_gdm_chunk_size(d@));
        if spec_gdm_dim_log2(d@) + 5 < 20 {
            vstd::arithmetic::power2::lemma_pow2_strictly_increases(
                spec_gdm_dim_log2(d@) + 5,
                20,
            );
        }
        assert(dimension <= 0x100000);
        assert((dimension as int) * (dimension as int) <= 0x10000000000) by (nonlinear_arith)
            requires
                0 <= dimension <= 0x100000,
        ;
    }

    let total_pixels_u64: u64 = (dimension as u64) * (dimension as u64);
    if total_pixels_u64 > usize::MAX as u64 {
        return Err(CodecError::Unsupported(String::from_str("image exceeds this machine")));
    }
    let total_pixels: usize = total_pixels_u64 as usize;
    assert(total_pixels == dimension * dimension);

    let nr: usize = num_ranges as usize;
    let boundaries_size: usize = if nr > 1 {
        nr - 1
    } else {
        0
    };
    if boundaries_size > data.len() - header_size {
        return Err(CodecError::Truncated(String::from_str("missing range boundaries")));
    }
    let data_start: usize = header_size + boundaries_size;
    assert(data_start == spec_gdm_data_start(d@));

    let mut prev: u8 = 0;
    let mut k: usize = 0;
    while k < nr
        invariant
            k <= nr,
            d@ == data@,
            nr == spec_gdm_num_ranges(d@),
            header_size == spec_gdm_header_size(d@),
            spec_gdm_header_ok(d@),
            data_start == spec_gdm_data_start(d@),
            data_start <= data@.len(),
            data@.len() <= usize::MAX,
            num_channels == spec_gdm_num_channels(d@),
            prev == spec_gdm_boundary(d@, k as int),
            forall|q: int|
                0 <= q < k ==> #[trigger] spec_gdm_boundary(d@, q) <= spec_gdm_boundary(d@, q + 1),
        decreases nr - k,
    {
        let next: u8 = if k + 1 < nr {
            data[header_size + k]
        } else {
            num_channels
        };
        assert(next == spec_gdm_boundary(d@, k + 1));
        if next < prev {
            return Err(
                CodecError::Unsupported(String::from_str("range boundaries do not ascend")),
            );
        }
        prev = next;
        k += 1;
    }
    assert(spec_gdm_boundaries_ok(d@));

    proof {
        assert(cpd <= dimension) by {
            vstd::arithmetic::div_mod::lemma_div_is_ordered_by_denominator(
                dimension as int,
                1,
                chunk_size as int,
            );
            vstd::arithmetic::div_mod::lemma_div_basics_1(dimension as int);
        }
        assert(cpd * cpd <= dimension * dimension) by {
            vstd::arithmetic::mul::lemma_mul_inequality(cpd as int, dimension as int, cpd as int);
            vstd::arithmetic::mul::lemma_mul_inequality(cpd as int, dimension as int, dimension as int);
            assert(cpd as int * dimension as int == dimension as int * cpd as int)
                by (nonlinear_arith);
        }
    }
    let total_chunks: usize = cpd * cpd;

    let mut values: Vec<u32> = Vec::new();
    let mut z: usize = 0;
    while z < total_pixels
        invariant
            z <= total_pixels,
            values@.len() == z,
        decreases total_pixels - z,
    {
        values.push(0);
        z += 1;
    }

    let mut pos: usize = data_start;
    let mut c: usize = 0;
    while c < total_chunks
        invariant
            c <= total_chunks,
            d@ == data@,
            spec_geom(d@, dimension as nat, chunk_size as nat, cpd as nat, nr as nat,
                data_start as int),
            nr == num_ranges,
            total_chunks == cpd * cpd,
            total_pixels == dimension * dimension,
            num_channels == spec_gdm_num_channels(d@),
            num_ranges == spec_gdm_num_ranges(d@),
            header_size == spec_gdm_header_size(d@),
            cpd == spec_gdm_dimension(d@) / spec_gdm_chunk_size(d@),
            values@.len() == total_pixels,
            data_start <= pos <= data@.len(),
            pos == spec_block_pos(d@, data_start as int, (c * num_ranges) as nat),
            spec_blocks_ok(d@, data_start as int, (c * num_ranges) as nat),
            spec_chunks_decoded(values@, d@, dimension as nat, chunk_size as nat, cpd as nat,
                c as int),
        decreases total_chunks - c,
    {
        let rr = decode_chunk_blocks(data, pos, c, dimension, chunk_size, cpd, header_size,
            data_start, num_channels, num_ranges);
        let (chunk_vals, new_pos) = match rr {
            Ok(p) => p,
            Err(e) => {
                return Err(e);
            },
        };
        pos = new_pos;
        scatter_chunk(&mut values, &chunk_vals, c, dimension, chunk_size, cpd, Ghost(d@));
        proof {
            assert((c as int + 1) * num_ranges == c as int * num_ranges + num_ranges)
                by (nonlinear_arith);
        }
        c += 1;
    }

    proof {
        assert(spec_gdm_wf(d@)) by {
            assert(total_chunks as int * num_ranges == cpd as int * cpd as int * num_ranges)
                by (nonlinear_arith)
                requires
                    total_chunks == cpd as int * cpd as int,
            ;
            assert(c * num_ranges == total_chunks * num_ranges);
        }
    }
    Ok(
        GdmImage {
            dimension,
            num_channels,
            num_ranges,
            values,
        },
    )
}

// ---------------------------------------------------------------------------
// Encoding
// ---------------------------------------------------------------------------

/// How many ranges a layout has: two when split, else one.
pub open spec fn spec_split_count(split: Option<u8>) -> nat {
    if split is Some {
        2
    } else {
        1
    }
}

/// The channel width of range `r` under a layout.
pub open spec fn spec_split_width(nch: nat, split: Option<u8>, r: int) -> nat {
    match split {
        Option::Some(cb) => if r == 0 {
            cb as nat
        } else {
            (nch - cb) as nat
        },
        Option::None => nch,
    }
}

/// The shift of range `r` under a layout: the channels below it.
pub open spec fn spec_split_shift(split: Option<u8>, r: int) -> nat {
    match split {
        Option::Some(cb) => if r == 0 {
            0
        } else {
            cb as nat
        },
        Option::None => 0,
    }
}

/// The low `w` bits of a combined value, `w < 32`.
pub open spec fn spec_mask32(w: nat) -> u32 {
    !(0xffffffffu32 << (w as u32))
}

/// The image index of in-chunk pixel `pi` of chunk `c`.
pub open spec fn spec_flat_index(dim: nat, c: int, pi: int) -> int {
    let cpd = (dim / 32) as int;
    ((c / cpd) * 32 + pi / 32) * dim + (c % cpd) * 32 + pi % 32
}

/// The value range `r` of chunk `c` stores for pixel `pi`: the combined
/// value, shifted down to the range and masked to its width.
pub open spec fn spec_range_value(
    v: Seq<u32>,
    dim: nat,
    nch: nat,
    split: Option<u8>,
    c: int,
    r: int,
    pi: int,
) -> u16 {
    ((v[spec_flat_index(dim, c, pi)] >> (spec_split_shift(split, r) as u32)) & spec_mask32(
        spec_split_width(nch, split, r),
    )) as u16
}

/// The 1024 values of one chunk-range, in chunk order.
pub open spec fn spec_chunk_range_seq(
    v: Seq<u32>,
    dim: nat,
    nch: nat,
    split: Option<u8>,
    c: int,
    r: int,
) -> Seq<u16> {
    Seq::new(1024, |pi: int| spec_range_value(v, dim, nch, split, c, r, pi))
}

/// The block at `p` is the canonical encoding of the pixel values `pix`.
pub open spec fn spec_block_encodes(d: Seq<u8>, p: int, pix: Seq<u16>) -> bool {
    &&& spec_bit_depth(d, p) == crate::gdm_block::spec_canonical_depth(pix)
    &&& spec_palette(d, p) == crate::gdm_block::spec_canonical_palette(pix)
    &&& crate::gdm_block::spec_safe_depth(crate::gdm_block::spec_canonical_depth(pix))
        ==> forall|pi: int| 0 <= pi < 1024 ==> spec_block_pixel(d, p, pi) == pix[pi]
}

/// What the encoder guarantees of its output: the exact header, the split
/// byte, and for every chunk and range the canonical block, laid end to end
/// and ending exactly at the end of the file.
pub open spec fn spec_gdm_encoding_of(
    out: Seq<u8>,
    v: Seq<u32>,
    dim: nat,
    nch: nat,
    split: Option<u8>,
) -> bool {
    let nr = spec_split_count(split);
    let ds: int = 16 + if nr > 1 {
        nr - 1
    } else {
        0
    };
    let cpd = (dim / 32) as int;
    &&& out.len() >= ds
    &&& out[0] == 0x22 && out[1] == 0x4d && out[2] == 0x44 && out[3] == 0x46
    &&& out[4] == 0 && out[5] == 0 && out[6] == 0 && out[7] == 0
    &&& vstd::arithmetic::power2::pow2(out[8] as nat + 5) == dim
    &&& out[9] == 5 && out[10] == 2
    &&& out[11] == nch && out[12] == nr && out[13] == 0 && out[14] == 0 && out[15] == 0
    &&& (split matches Option::Some(cb) ==> out[16] == cb)
    &&& spec_blocks_ok(out, ds, (cpd * cpd * nr) as nat)
    &&& (forall|c: int, r: int|
        0 <= c < cpd * cpd && 0 <= r < nr ==> spec_block_encodes(
            out,
            spec_block_pos(out, ds, (c * nr + r) as nat),
            #[trigger] spec_chunk_range_seq(v, dim, nch, split, c, r),
        ))
    &&& out.len() == spec_block_pos(out, ds, (cpd * cpd * nr) as nat)
}

/// Appending bytes after a block changes nothing a reader of that block
/// sees.
proof fn lemma_block_obs_prefix(d1: Seq<u8>, d2: Seq<u8>, p: int)
    requires
        d1.len() <= d2.len(),
        d2.subrange(0, d1.len() as int) == d1,
        0 <= p,
        p + 2 <= d1.len(),
        p + spec_block_size(d1, p) <= d1.len(),
    ensures
        spec_bit_depth(d2, p) == spec_bit_depth(d1, p),
        spec_palette_count(d2, p) == spec_palette_count(d1, p),
        spec_block_size(d2, p) == spec_block_size(d1, p),
        spec_palette(d2, p) == spec_palette(d1, p),
        spec_bitmap(d2, p) == spec_bitmap(d1, p),
        spec_block_in_range(d2, p),
        forall|pi: int| spec_block_pixel(d2, p, pi) == #[trigger] spec_block_pixel(d1, p, pi),
{
    assert forall|i: int| 0 <= i < d1.len() implies d2[i] == d1[i] by {
        assert(d2.subrange(0, d1.len() as int)[i] == d2[i]);
    }
    assert(spec_palette(d2, p) =~= spec_palette(d1, p));
    assert(spec_bitmap(d2, p) =~= spec_bitmap(d1, p));
    assert forall|pi: int| spec_block_pixel(d2, p, pi) == #[trigger] spec_block_pixel(
        d1,
        p,
        pi,
    ) by {
        assert(spec_bitmap(d2, p) == spec_bitmap(d1, p));
    }
}

/// Nor does appending bytes move any earlier block.
proof fn lemma_block_pos_prefix(d1: Seq<u8>, d2: Seq<u8>, ds: int, n: nat)
    requires
        d1.len() <= d2.len(),
        d2.subrange(0, d1.len() as int) == d1,
        0 <= ds,
        spec_blocks_ok(d1, ds, n),
    ensures
        forall|k: nat| k <= n ==> #[trigger] spec_block_pos(d2, ds, k) == spec_block_pos(d1, ds, k),
        spec_blocks_ok(d2, ds, n),
    decreases n,
{
    if n > 0 {
        lemma_block_pos_prefix(d1, d2, ds, (n - 1) as nat);
        let p = spec_block_pos(d1, ds, (n - 1) as nat);
        lemma_block_obs_prefix(d1, d2, p);
        assert forall|k: nat| k <= n implies #[trigger] spec_block_pos(d2, ds, k)
            == spec_block_pos(d1, ds, k) by {
            if k == n {
                assert(spec_block_pos(d2, ds, ((n - 1) as nat + 1) as nat) == spec_block_pos(
                    d2,
                    ds,
                    (n - 1) as nat,
                ) + spec_block_size(d2, spec_block_pos(d2, ds, (n - 1) as nat)));
            }
        }
        assert forall|k: nat| k < n implies spec_block_in_range(
            d2,
            #[trigger] spec_block_pos(d2, ds, k),
        ) by {
            let pk = spec_block_pos(d1, ds, k);
            lemma_block_obs_prefix(d1, d2, pk);
        }
    }
}

/// Encodes a combined-value image as a complete `.gdm` file in the full
/// header variant, splitting each pixel into the layout's ranges and each
/// 32x32 chunk into one block per range. Only a square power-of-two side
/// of at least 32 is accepted.
#[verifier::rlimit(100)]
pub fn encode_gdm_file(values: &[u32], dimension: usize, num_channels: u8, split: Option<u8>) -> (r:
    Result<Vec<u8>, CodecError>)
    requires
        values@.len() == dimension * dimension,
        1 <= num_channels <= 24,
        split matches Some(cb) ==> 0 < cb < num_channels,
    ensures
        r is Ok <==> (exists|dl: nat|
            dl <= 58 && dimension == #[trigger] vstd::arithmetic::power2::pow2(dl + 5)),
        r matches Ok(out) ==> spec_gdm_encoding_of(
            out@,
            values@,
            dimension as nat,
            num_channels as nat,
            split,
        ),
        r matches Err(e) ==> e is BadDimensions,
{
    let v = Ghost(values@);
    let _vlen: usize = values.len();
    assert(values@.len() <= usize::MAX);
    proof {
        vstd::arithmetic::power2::lemma2_to64();
    }

    // dimension must be a power of two, at least 32
    let mut t: usize = dimension;
    let mut dl: u8 = 0;
    while t > 32 && t % 2 == 0
        invariant
            dimension == t * vstd::arithmetic::power2::pow2(dl as nat),
            dl <= 63,
            dl == 0 ==> t == dimension,
            dl > 0 ==> t > 16,
        decreases t,
    {
        proof {
            vstd::arithmetic::power2::lemma2_to64();
            vstd::arithmetic::power2::lemma_pow2_adds(dl as nat, 1);
            vstd::arithmetic::power2::lemma_pow2_pos(dl as nat);
            assert(t == 2 * (t / 2)) by {
                vstd::arithmetic::div_mod::lemma_fundamental_div_mod(t as int, 2);
            }
            assert((2 * (t / 2)) * vstd::arithmetic::power2::pow2(dl as nat) == (t / 2) * (2
                * vstd::arithmetic::power2::pow2(dl as nat))) by (nonlinear_arith);
            assert(dimension == (t / 2) * vstd::arithmetic::power2::pow2(dl as nat + 1));
            if dl == 63 {
                assert(vstd::arithmetic::power2::pow2(63) == 0x8000000000000000);
                assert(t * vstd::arithmetic::power2::pow2(dl as nat) > 0xffffffffffffffff)
                    by (nonlinear_arith)
                    requires
                        t > 32,
                        vstd::arithmetic::power2::pow2(dl as nat) == 0x8000000000000000,
                ;
                assert(dimension <= usize::MAX);
                assert(false);
            }
        }
        t = t / 2;
        dl = dl + 1;
    }
    if t != 32 {
        proof {
            if exists|dlw: nat|
                dlw <= 58 && dimension == #[trigger] vstd::arithmetic::power2::pow2(dlw + 5) {
                let dlw = choose|dlw: nat|
                    dlw <= 58 && dimension == #[trigger] vstd::arithmetic::power2::pow2(dlw + 5);
                // dimension is a power of two >= 32, so the halving loop can
                // only have stopped at exactly 32
                lemma_pot_loop_exit(dimension as nat, t as nat, dl as nat, dlw);
            }
        }
        return Err(
            CodecError::BadDimensions(
                String::from_str("dimension must be a square power of two of at least 32"),
            ),
        );
    }
    assert(dimension == 32 * vstd::arithmetic::power2::pow2(dl as nat));
    proof {
        vstd::arithmetic::power2::lemma_pow2_adds(5, dl as nat);
        assert(dimension == vstd::arithmetic::power2::pow2(dl as nat + 5));
        assert(dl <= 58) by {
            if dl > 58 {
                vstd::arithmetic::power2::lemma2_to64();
                if dl as nat + 5 > 64 {
                    vstd::arithmetic::power2::lemma_pow2_strictly_increases(64, dl as nat + 5);
                }
                assert(dimension >= 0x10000000000000000);
            }
        }
    }

    let nr: usize = if split.is_some() {
        2
    } else {
        1
    };
    let cpd: usize = dimension / 32;
    proof {
        vstd::arithmetic::div_mod::lemma_div_multiples_vanish(
            vstd::arithmetic::power2::pow2(dl as nat) as int,
            32,
        );
        assert(cpd == vstd::arithmetic::power2::pow2(dl as nat));
        vstd::arithmetic::power2::lemma_pow2_pos(dl as nat);
        assert(dimension == 32 * cpd);
        assert(cpd * cpd <= dimension * dimension) by (nonlinear_arith)
            requires
                0 <= cpd,
                dimension == 32 * cpd,
        ;
    }
    let total_chunks: usize = cpd * cpd;

    let mut out: Vec<u8> = Vec::new();
    out.push(0x22);
    out.push(0x4d);
    out.push(0x44);
    out.push(0x46);
    out.push(0);
    out.push(0);
    out.push(0);
    out.push(0);
    out.push(dl);
    out.push(5);
    out.push(2);
    out.push(num_channels);
    out.push(nr as u8);
    out.push(0);
    out.push(0);
    out.push(0);
    if let Some(cb) = split {
        out.push(cb);
    }
    let data_start: usize = out.len();
    assert(data_start == 16 + if nr > 1 {
        nr - 1
    } else {
        0int
    });
    let ghost header = out@;
    proof {
        assert(header[0] == 0x22 && header[1] == 0x4d && header[2] == 0x44 && header[3] == 0x46);
        assert(header[4] == 0 && header[5] == 0 && header[6] == 0 && header[7] == 0);
        assert(header[8] == dl && header[9] == 5 && header[10] == 2);
        assert(header[11] == num_channels && header[12] == nr as u8);
        assert(header[13] == 0 && header[14] == 0 && header[15] == 0);
        assert(split matches Some(cb) ==> header[16] == cb);
    }

    let mut c: usize = 0;
    while c < total_chunks
        invariant
            c <= total_chunks,
            v@ == values@,
            values@.len() == dimension * dimension,
            values@.len() <= usize::MAX,
            1 <= num_channels <= 24,
            split matches Some(cb) ==> 0 < cb < num_channels,
            nr == spec_split_count(split),
            1 <= nr <= 2,
            dimension == 32 * cpd,
            1 <= cpd,
            cpd == dimension as int / 32,
            total_chunks == cpd * cpd,
            data_start == 16 + if nr > 1 {
                nr - 1
            } else {
                0int
            },
            header.len() == data_start,
            out@.len() >= data_start,
            out@.subrange(0, data_start as int) == header,
            out@.len() == spec_block_pos(out@, data_start as int, (c * nr) as nat),
            spec_blocks_ok(out@, data_start as int, (c * nr) as nat),
            forall|c2: int, r2: int|
                0 <= c2 && 0 <= r2 < nr && c2 * nr + r2 < c * nr ==> spec_block_encodes(
                    out@,
                    spec_block_pos(out@, data_start as int, (c2 * nr + r2) as nat),
                    #[trigger] spec_chunk_range_seq(v@, dimension as nat, num_channels as nat,
                        split, c2, r2),
                ),
        decreases total_chunks - c,
    {
        let mut r: usize = 0;
        while r < nr
            invariant
                r <= nr,
                c < total_chunks,
                v@ == values@,
                values@.len() == dimension * dimension,
                values@.len() <= usize::MAX,
                1 <= num_channels <= 24,
                split matches Some(cb) ==> 0 < cb < num_channels,
                nr == spec_split_count(split),
                1 <= nr <= 2,
                dimension == 32 * cpd,
                1 <= cpd,
                cpd == dimension as int / 32,
                total_chunks == cpd * cpd,
                data_start == 16 + if nr > 1 {
                    nr - 1
                } else {
                    0int
                },
                header.len() == data_start,
                out@.len() >= data_start,
                out@.subrange(0, data_start as int) == header,
                out@.len() == spec_block_pos(out@, data_start as int, (c * nr + r) as nat),
                spec_blocks_ok(out@, data_start as int, (c * nr + r) as nat),
                forall|c2: int, r2: int|
                    0 <= c2 && 0 <= r2 < nr && c2 * nr + r2 < c * nr + r ==> spec_block_encodes(
                        out@,
                        spec_block_pos(out@, data_start as int, (c2 * nr + r2) as nat),
                        #[trigger] spec_chunk_range_seq(v@, dimension as nat, num_channels as nat,
                            split, c2, r2),
                    ),
            decreases nr - r,
        {
            let shift: u8 = match split {
                Some(cb) => if r == 0 {
                    0
                } else {
                    cb
                },
                None => 0,
            };
            let width: u8 = match split {
                Some(cb) => if r == 0 {
                    cb
                } else {
                    num_channels - cb
                },
                None => num_channels,
            };
            assert(shift as nat == spec_split_shift(split, r as int));
            assert(width as nat == spec_split_width(num_channels as nat, split, r as int));
            let mask: u32 = !(0xffffffffu32 << (width as u32));

            // gather this chunk-range's 1024 values
            let mut pix: Vec<u16> = Vec::new();
            let mut pi: usize = 0;
            while pi < 1024
                invariant
                    pi <= 1024,
                    v@ == values@,
                    values@.len() == dimension * dimension,
                    values@.len() <= usize::MAX,
                    num_channels <= 24,
                    split matches Some(cb) ==> 0 < cb < num_channels,
                    shift <= 24,
                    dimension == 32 * cpd,
                    1 <= cpd,
                    cpd == dimension as int / 32,
                    c < total_chunks,
                    total_chunks == cpd * cpd,
                    shift as nat == spec_split_shift(split, r as int),
                    width as nat == spec_split_width(num_channels as nat, split, r as int),
                    mask == spec_mask32(width as nat),
                    pix@.len() == pi,
                    forall|q: int|
                        0 <= q < pi ==> pix@[q] == spec_range_value(v@, dimension as nat,
                            num_channels as nat, split, c as int, r as int, q),
                decreases 1024 - pi,
            {
                proof {
                    lemma_coord_bijection(c as int, pi as int, 32, cpd as nat);
                    lemma_div_lt(c as int, cpd as int, cpd as int);
                    vstd::arithmetic::div_mod::lemma_mod_bound(c as int, cpd as int);
                    assert((c as int / cpd as int) * 32 + pi as int / 32 < dimension
                        && (c as int % cpd as int) * 32 + pi as int % 32 < dimension) by {
                        assert(32 * cpd == cpd * 32) by (nonlinear_arith);
                    }
                    assert(((c as int / cpd as int) * 32 + pi as int / 32) * dimension + (c as int
                        % cpd as int) * 32 + pi as int % 32 < dimension * dimension)
                        by (nonlinear_arith)
                        requires
                            0 <= ((c as int / cpd as int) * 32 + pi as int / 32) < dimension,
                            0 <= (c as int % cpd as int) * 32 + pi as int % 32 < dimension,
                    ;
                }
                let py = pi / 32;
                let px = pi % 32;
                let img_y = (c / cpd) * 32 + py;
                let img_x = (c % cpd) * 32 + px;
                let idx = img_y * dimension + img_x;
                let combined = values[idx];
                let rv = #[verifier::truncate] (((combined >> (shift as u32)) & mask) as u16);
                pix.push(rv);
                pi += 1;
            }

            let block = encode_gdm_block(pix.as_slice(), 32);
            let ghost out0 = out@;
            let ghost pos0 = out@.len() as int;
            let mut bi: usize = 0;
            while bi < block.len()
                invariant
                    bi <= block@.len(),
                    out@ == out0 + block@.take(bi as int),
                decreases block@.len() - bi,
            {
                let byte = block[bi];
                out.push(byte);
                assert(out@ =~= out0 + block@.take(bi + 1));
                bi += 1;
            }
            assert(out@ =~= out0 + block@);

            proof {
                let d1 = out0;
                let d2 = out@;
                let ds = data_start as int;
                let kb = (c * nr + r) as nat;
                assert(d2.subrange(0, d1.len() as int) =~= d1);
                lemma_block_pos_prefix(d1, d2, ds, kb);
                // the freshly appended block
                assert(spec_block_pos(d2, ds, kb) == pos0);
                assert(d2.subrange(pos0, pos0 + block@.len() as int) =~= block@);
                lemma_block_obs_shift(block@, d2, pos0);
                assert(spec_block_in_range(d2, pos0));
                assert(pix@ =~= spec_chunk_range_seq(v@, dimension as nat, num_channels as nat,
                    split, c as int, r as int));
                assert(spec_block_encodes(d2, pos0, pix@));
                assert(spec_block_pos(d2, ds, (kb + 1) as nat) == pos0 + spec_block_size(
                    d2,
                    pos0,
                ));
                assert(out@.len() == spec_block_pos(d2, ds, (kb + 1) as nat));
                assert forall|kk: nat| kk < kb + 1 implies spec_block_in_range(
                    d2,
                    #[trigger] spec_block_pos(d2, ds, kk),
                ) by {
                    if kk < kb {
                        assert(spec_block_pos(d2, ds, kk) == spec_block_pos(d1, ds, kk));
                    }
                }
                assert forall|c2: int, r2: int|
                    0 <= c2 && 0 <= r2 < nr && c2 * nr + r2 < c * nr + r + 1 implies
                    spec_block_encodes(
                    d2,
                    spec_block_pos(d2, ds, (c2 * nr + r2) as nat),
                    #[trigger] spec_chunk_range_seq(v@, dimension as nat, num_channels as nat,
                        split, c2, r2),
                ) by {
                    if c2 * nr + r2 < c * nr + r {
                        let pk = spec_block_pos(d1, ds, (c2 * nr + r2) as nat);
                        assert(spec_block_pos(d2, ds, (c2 * nr + r2) as nat) == pk);
                        assert(spec_block_in_range(d1, pk));
                        lemma_block_obs_prefix(d1, d2, pk);
                        assert(spec_palette(d2, pk) == spec_palette(d1, pk));
                    } else {
                        assert(c2 * nr + r2 == c * nr + r) by (nonlinear_arith)
                            requires
                                0 <= c2,
                                0 <= r2 < nr,
                                c * nr + r <= c2 * nr + r2 < c * nr + r + 1,
                        ;
                        assert(c2 * nr + r2 == nr * c2 + r2 && c as int * nr + r == nr * (
                        c as int) + r) by (nonlinear_arith);
                        vstd::arithmetic::div_mod::lemma_fundamental_div_mod_converse(
                            c2 * nr + r2,
                            nr as int,
                            c2,
                            r2,
                        );
                        vstd::arithmetic::div_mod::lemma_fundamental_div_mod_converse(
                            c2 * nr + r2,
                            nr as int,
                            c as int,
                            r as int,
                        );
                        assert(c2 == c && r2 == r);
                        assert(spec_block_pos(d2, ds, (c2 * nr + r2) as nat) == pos0);
                        assert(spec_chunk_range_seq(v@, dimension as nat, num_channels as nat,
                            split, c2, r2) == pix@);
                    }
                }
                assert((c * nr + r) + 1 == c * nr + (r + 1));
            }
            r += 1;
        }
        proof {
            assert((c as int + 1) * nr == c as int * nr + nr) by (nonlinear_arith);
        }
        c += 1;
    }

    proof {
        assert(total_chunks as int * nr == cpd as int * cpd as int * nr) by (nonlinear_arith)
            requires
                total_chunks == cpd as int * cpd as int,
        ;
        assert(spec_gdm_encoding_of(out@, values@, dimension as nat, num_channels as nat, split))
            by {
            assert forall|i: int| 0 <= i < data_start implies out@[i] == header[i] by {
                assert(out@.subrange(0, data_start as int)[i] == out@[i]);
            }
            assert(out@[8] == dl);
            assert forall|c2: int, r2: int|
                0 <= c2 < cpd * cpd && 0 <= r2 < nr implies spec_block_encodes(
                out@,
                spec_block_pos(out@, data_start as int, (c2 * nr + r2) as nat),
                #[trigger] spec_chunk_range_seq(v@, dimension as nat, num_channels as nat, split,
                    c2, r2),
            ) by {
                assert(c2 * nr + r2 < total_chunks * nr) by (nonlinear_arith)
                    requires
                        0 <= c2 < total_chunks,
                        0 <= r2 < nr,
                ;
            }
        }
    }
    Ok(out)
}

/// If the dimension is a power of two of at least 32, the halving loop in
/// the encoder can only stop at exactly 32.
proof fn lemma_pot_loop_exit(dimension: nat, t: nat, dl: nat, dlw: nat)
    requires
        dimension == t * vstd::arithmetic::power2::pow2(dl),
        dimension == vstd::arithmetic::power2::pow2(dlw + 5),
        dl == 0 ==> t == dimension,
        dl > 0 ==> t > 16,
        !(t > 32 && t % 2 == 0),
    ensures
        t == 32,
{
    vstd::arithmetic::power2::lemma2_to64();
    vstd::arithmetic::power2::lemma_pow2_pos(dl);
    vstd::arithmetic::power2::lemma_pow2_pos(dlw + 5);
    assert(t >= 1) by {
        if t == 0 {
            assert(dimension == 0) by (nonlinear_arith)
                requires
                    dimension == t * vstd::arithmetic::power2::pow2(dl),
                    t == 0,
            ;
        }
    }
    if dl > dlw + 5 {
        vstd::arithmetic::power2::lemma_pow2_strictly_increases(dlw + 5, dl);
        vstd::arithmetic::mul::lemma_mul_inequality(
            1,
            t as int,
            vstd::arithmetic::power2::pow2(dl) as int,
        );
    } else {
        let e = (dlw + 5 - dl) as nat;
        vstd::arithmetic::power2::lemma_pow2_adds(e, dl);
        assert(t == vstd::arithmetic::power2::pow2(e)) by (nonlinear_arith)
            requires
                vstd::arithmetic::power2::pow2(e) * vstd::arithmetic::power2::pow2(dl) == t
                    * vstd::arithmetic::power2::pow2(dl),
                vstd::arithmetic::power2::pow2(dl) >= 1,
        ;
        // t exceeds 16: either the loop never ran and t is the whole
        // dimension, at least 32, or it halved a value above 32
        assert(t > 16) by {
            if dl == 0 {
                vstd::arithmetic::power2::lemma_pow2_adds(dlw, 5);
                vstd::arithmetic::mul::lemma_mul_inequality(
                    1,
                    vstd::arithmetic::power2::pow2(dlw) as int,
                    32,
                );
                assert(vstd::arithmetic::power2::pow2(dlw) * 32 == 32 * vstd::arithmetic::power2::pow2(dlw))
                    by (nonlinear_arith);
            }
        }
        // a power of two above 16 that is not 32 is above 32 and even
        assert(e >= 5) by {
            if e < 5 {
                vstd::arithmetic::power2::lemma_pow2_strictly_increases(e, 5);
            }
        }
        if e == 5 {
            assert(t == 32);
        } else {
            vstd::arithmetic::power2::lemma_pow2_strictly_increases(5, e);
            assert(t > 32);
            assert(t % 2 == 0) by {
                vstd::arithmetic::power2::lemma_pow2_adds((e - 1) as nat, 1);
                assert(t == 2 * vstd::arithmetic::power2::pow2((e - 1) as nat));
                vstd::arithmetic::div_mod::lemma_mod_multiples_basic(
                    vstd::arithmetic::power2::pow2((e - 1) as nat) as int,
                    2,
                );
            }
        }
    }
}

/// One range combines back: OR-ing a masked, shifted slice of a value onto
/// an accumulator holding the bits below the slice yields the bits through
/// the slice.
proof fn lemma_combine_range(acc: u32, x: u32, s: u32, w: u32)
    requires
        s + w <= 24,
        1 <= w <= 10,
        acc == x & !(0xffffffffu32 << s),
    ensures
        (acc | ((((x >> s) & !(0xffffffffu32 << w)) as u16) as u32) << s) == x & !(0xffffffffu32
            << ((s + w) as u32)),
{
    assert((acc | ((((x >> s) & !(0xffffffffu32 << w)) as u16) as u32) << s) == x & !(
    0xffffffffu32 << ((s + w) as u32))) by (bit_vector)
        requires
            s + w <= 24,
            1 <= w <= 10,
            acc == x & !(0xffffffffu32 << s),
    ;
}

/// The values a range block stores are below two to its width.
proof fn lemma_range_value_bound(x: u32, s: u32, w: u32)
    requires
        1 <= w <= 10,
    ensures
        ((((x >> s) & !(0xffffffffu32 << w)) as u16) as nat) < vstd::arithmetic::power2::pow2(
            w as nat,
        ),
{
    assert((((x >> s) & !(0xffffffffu32 << w)) as u16) < (1u16 << (w as u16))) by (bit_vector)
        requires
            1 <= w <= 10,
    ;
    vstd::arithmetic::power2::lemma2_to64();
    lemma_pow2_le(w as nat, 15);
    vstd::bits::lemma_u16_shl_is_mul(1u16, w as u16);
}

/// Round trip: a file the encoder wrote decodes to the values it was given,
/// for every combined-value image whose values fit the channel count and
/// whose ranges are at most ten channels wide — wider ranges can force a
/// bit depth whose fields straddle more bytes than the 16-bit window the
/// block format reads.
pub proof fn lemma_gdm_round_trip(out: Seq<u8>, v: Seq<u32>, dim: nat, nch: nat, split: Option<u8>)
    requires
        spec_gdm_encoding_of(out, v, dim, nch, split),
        v.len() == dim * dim,
        dim * dim <= usize::MAX,
        32 <= dim <= 0x100000,
        1 <= nch <= 24,
        split matches Some(cb) ==> 0 < cb < nch,
        forall|r: int|
            0 <= r < spec_split_count(split) ==> #[trigger] spec_split_width(nch, split, r) <= 10,
        forall|i: int| 0 <= i < v.len() ==> v[i] < vstd::arithmetic::power2::pow2(nch),
    ensures
        spec_gdm_wf(out),
        spec_gdm_dimension(out) == dim,
        spec_gdm_chunk_size(out) == 32,
        spec_gdm_num_channels(out) == nch,
        spec_gdm_num_ranges(out) == spec_split_count(split),
        forall|c: int, pi: int|
            0 <= c < (dim / 32) * (dim / 32) && 0 <= pi < 1024 ==> #[trigger] spec_gdm_pixel(
                out,
                c,
                pi,
            ) == v[spec_flat_index(dim, c, pi)],
{
    vstd::arithmetic::power2::lemma2_to64();
    let nr = spec_split_count(split);
    let cpd = (dim / 32) as int;
    let ds: int = 16 + if nr > 1 {
        nr - 1
    } else {
        0
    };

    // header getters
    assert(spec_gdm_magic_new(out));
    assert(spec_gdm_dim_log2(out) == out[8] as nat);
    assert(spec_gdm_dimension(out) == dim);
    assert(spec_gdm_chunk_size(out) == 32);
    assert(spec_gdm_num_channels(out) == nch);
    assert(spec_gdm_num_ranges(out) == nr);
    assert(spec_gdm_header_size(out) == 16);
    assert(spec_gdm_data_start(out) == ds);
    assert(out[8] as nat <= 15) by {
        if out[8] as nat > 15 {
            vstd::arithmetic::power2::lemma_pow2_strictly_increases(20, out[8] as nat + 5);
        }
    }
    assert(spec_u32_le(out[4], out[5], out[6], out[7]) == 0);
    assert(spec_gdm_header_ok(out));

    // boundaries
    assert forall|k: int| 0 <= k < nr implies #[trigger] spec_gdm_boundary(out, k)
        <= spec_gdm_boundary(out, k + 1) by {
        if nr == 2 && k == 1 {
            assert(spec_gdm_boundary(out, 1) == out[16] as nat);
        }
    }
    assert(spec_gdm_boundaries_ok(out));

    // the decoder's chunk grid is the encoder's
    assert(dim == 32 * (dim / 32)) by {
        vstd::arithmetic::power2::lemma_pow2_adds(out[8] as nat, 5);
        let pa = vstd::arithmetic::power2::pow2(out[8] as nat) as int;
        assert(dim as int == pa * 32);
        assert(pa * 32 == 32 * pa) by (nonlinear_arith);
        vstd::arithmetic::div_mod::lemma_div_multiples_vanish(pa, 32);
    }
    assert(spec_gdm_dimension(out) / spec_gdm_chunk_size(out) == dim / 32);
    assert(spec_gdm_wf(out));

    // every pixel combines back
    assert forall|c: int, pi: int|
        0 <= c < (dim / 32) * (dim / 32) && 0 <= pi < 1024 implies #[trigger] spec_gdm_pixel(
        out,
        c,
        pi,
    ) == v[spec_flat_index(dim, c, pi)] by {
        lemma_coord_bijection(c, pi, 32, (dim / 32) as nat);
        let fi = spec_flat_index(dim, c, pi);
        assert(0 <= fi < dim * dim) by {
            let y = (c / cpd) * 32 + pi / 32;
            let x = (c % cpd) * 32 + pi % 32;
            assert(32 * (dim / 32) as nat == (dim / 32) as nat * 32) by (nonlinear_arith);
            assert(0 <= y < dim && 0 <= x < dim);
            assert(y * dim + x < dim * dim) by (nonlinear_arith)
                requires
                    0 <= y < dim,
                    0 <= x < dim,
            ;
            vstd::arithmetic::mul::lemma_mul_nonnegative(y, dim as int);
        }
        let x = v[fi];
        assert(x < vstd::arithmetic::power2::pow2(nch));

        assert forall|r: int| 0 <= r < nr implies spec_block_pixel(
            out,
            spec_block_pos(out, ds, (c * nr + r) as nat),
            pi,
        ) == spec_range_value(v, dim, nch, split, c, r, pi) by {
            let pix = spec_chunk_range_seq(v, dim, nch, split, c, r);
            assert(spec_block_encodes(out, spec_block_pos(out, ds, (c * nr + r) as nat), pix));
            let w = spec_split_width(nch, split, r);
            let sh = spec_split_shift(split, r);
            assert(1 <= w <= 10);
            // the canonical depth of this block is safe
            assert(crate::gdm_block::spec_safe_depth(crate::gdm_block::spec_canonical_depth(pix)))
                by {
                crate::gdm_block::lemma_sorted_unique_props(pix);
                let u = crate::gdm_block::spec_sorted_unique(pix);
                let depth = crate::gdm_block::spec_canonical_depth(pix);
                if u.len() > 4 {
                    assert(u.contains(u.last()));
                    assert(pix.contains(u.last()));
                    let wi = choose|wi: int| 0 <= wi < pix.len() && pix[wi] == u.last();
                    lemma_range_value_bound(v[spec_flat_index(dim, c, wi)], sh as u32, w as u32);
                    assert((u.last() as nat) < vstd::arithmetic::power2::pow2(w));
                    crate::gdm_block::lemma_bit_width_le(u.last() as nat, w);
                    assert(depth <= 10);
                }
                crate::gdm_block::lemma_safe_depth_classification(depth);
            }
            assert(pix[pi] == spec_range_value(v, dim, nch, split, c, r, pi));
        }

        // fold the ranges together
        let m0 = spec_combined_upto(out, ds, c, 0, pi);
        assert(m0 == 0);
        assert(0u32 == x & !(0xffffffffu32 << 0u32)) by (bit_vector);
        let w0 = spec_split_width(nch, split, 0) as u32;
        let b0v = spec_block_pixel(out, spec_block_pos(out, ds, (c * nr as int) as nat), pi);
        assert(spec_gdm_range_shift(out, 0) == 0);
        let m1 = spec_combined_upto(out, ds, c, 1, pi);
        assert(m1 == (m0 | ((b0v as u32) << 0u32)));
        assert((b0v as u32) == (((x >> 0u32) & !(0xffffffffu32 << w0)) as u16) as u32) by {
            assert(b0v == spec_range_value(v, dim, nch, split, c, 0, pi));
        }
        lemma_combine_range(0, x, 0, w0);
        assert(m1 == (x & !(0xffffffffu32 << ((0 + w0) as u32))));
        let nchw: u32 = nch as u32;
        if nr == 1 {
            assert(w0 == nch);
            assert(spec_gdm_pixel(out, c, pi) == m1);
            assert(x < (1u32 << nchw)) by {
                lemma_pow2_le(nchw as nat, 31);
                vstd::bits::lemma_u32_shl_is_mul(1u32, nchw);
            }
            assert((x & !(0xffffffffu32 << nchw)) == x) by (bit_vector)
                requires
                    x < (1u32 << nchw),
                    nchw <= 24,
            ;
        } else {
            let cb = split->Some_0;
            let w1 = spec_split_width(nch, split, 1) as u32;
            assert(w0 == cb as u32 && w1 == (nch - cb) as u32);
            let b1v = spec_block_pixel(
                out,
                spec_block_pos(out, ds, (c * nr as int + 1) as nat),
                pi,
            );
            assert(spec_gdm_range_shift(out, 1) == out[16] as nat);
            assert(out[16] == cb);
            let m2 = spec_combined_upto(out, ds, c, 2, pi);
            assert(m2 == (m1 | ((b1v as u32) << (cb as u32))));
            assert((b1v as u32) == (((x >> (cb as u32)) & !(0xffffffffu32 << w1)) as u16) as u32)
                by {
                assert(b1v == spec_range_value(v, dim, nch, split, c, 1, pi));
            }
            lemma_combine_range(m1, x, cb as u32, w1);
            assert(m2 == (x & !(0xffffffffu32 << (((cb as u32) + w1) as u32))));
            assert(spec_gdm_pixel(out, c, pi) == m2);
            assert(x < (1u32 << nchw)) by {
                lemma_pow2_le(nchw as nat, 31);
                vstd::bits::lemma_u32_shl_is_mul(1u32, nchw);
            }
            assert((x & !(0xffffffffu32 << nchw)) == x) by (bit_vector)
                requires
                    x < (1u32 << nchw),
                    nchw <= 24,
            ;
        }
    }
}

/// A block placed at `p` inside a longer stream reads back exactly as it
/// did standing alone.
proof fn lemma_block_obs_shift(b: Seq<u8>, d: Seq<u8>, p: int)
    requires
        0 <= p,
        p + b.len() <= d.len(),
        d.subrange(p, p + b.len() as int) == b,
        b.len() >= 2,
        b.len() == crate::gdm_block::spec_block_size(b, 0),
    ensures
        spec_bit_depth(d, p) == spec_bit_depth(b, 0),
        spec_palette_count(d, p) == spec_palette_count(b, 0),
        spec_block_size(d, p) == spec_block_size(b, 0),
        spec_palette(d, p) == spec_palette(b, 0),
        spec_bitmap(d, p) == spec_bitmap(b, 0),
        spec_block_in_range(d, p),
        forall|pi: int| spec_block_pixel(d, p, pi) == #[trigger] spec_block_pixel(b, 0, pi),
{
    assert forall|i: int| 0 <= i < b.len() implies d[p + i] == b[i] by {
        assert(d.subrange(p, p + b.len() as int)[i] == d[p + i]);
    }
    assert(spec_palette(d, p) =~= spec_palette(b, 0));
    assert(spec_bitmap(d, p) =~= spec_bitmap(b, 0));
    assert forall|pi: int| spec_block_pixel(d, p, pi) == #[trigger] spec_block_pixel(b, 0, pi) by {
        assert(spec_bitmap(d, p) == spec_bitmap(b, 0));
    }
}

} // verus!
