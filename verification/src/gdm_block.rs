//! One per-range block of a 32x32 chunk in the density-map format.
//!
//! A block is `bitDepth`, `paletteCount`, `paletteCount` little-endian 16-bit
//! palette entries, and — when `bitDepth > 0` — a bitmap of `bitDepth * 128`
//! bytes holding 1024 fields of `bitDepth` bits each, packed LSB-first.
//! With `bitDepth <= 2` and a nonempty palette the fields index the palette;
//! otherwise they are the pixel values themselves.

use vstd::prelude::*;
use crate::cursor::{read_u16_le, spec_u16_le, spec_le16, push_u16_le};

verus! {

// ---------------------------------------------------------------------------
// Observers of an encoded block at position `pos`
// ---------------------------------------------------------------------------

pub open spec fn spec_bit_depth(d: Seq<u8>, pos: int) -> nat {
    d[pos] as nat
}

pub open spec fn spec_palette_count(d: Seq<u8>, pos: int) -> nat {
    d[pos + 1] as nat
}

/// Total size in bytes of the block at `pos`: the two header bytes, the
/// palette, and the bitmap when the bit depth is nonzero.
pub open spec fn spec_block_size(d: Seq<u8>, pos: int) -> int {
    2 + 2 * (spec_palette_count(d, pos) as int) + if spec_bit_depth(d, pos) > 0 {
        128 * (spec_bit_depth(d, pos) as int)
    } else {
        0
    }
}

pub open spec fn spec_palette(d: Seq<u8>, pos: int) -> Seq<u16> {
    Seq::new(
        spec_palette_count(d, pos),
        |i: int| spec_u16_le(d[pos + 2 + 2 * i], d[pos + 3 + 2 * i]),
    )
}

pub open spec fn spec_bitmap(d: Seq<u8>, pos: int) -> Seq<u8> {
    d.subrange(
        pos + 2 + 2 * spec_palette_count(d, pos),
        pos + 2 + 2 * spec_palette_count(d, pos) + 128 * spec_bit_depth(d, pos),
    )
}

/// The extraction mask: the low `bd` bits, capped at all sixteen.
pub open spec fn spec_mask16(bd: nat) -> u16 {
    if bd >= 16 {
        0xffffu16
    } else {
        !(0xffffu16 << (bd as u16))
    }
}

/// The field of pixel `idx` read from the bitmap: sixteen bits straddling
/// two adjacent bytes, shifted down and masked. A missing second byte at the
/// very end reads as zero.
pub open spec fn spec_extract(bm: Seq<u8>, idx: int, bd: nat) -> u16 {
    let byte = (idx * bd) / 8;
    let off = ((idx * bd) % 8) as u16;
    let raw = if byte + 1 < bm.len() {
        ((bm[byte] as u16) | (((bm[byte + 1] as u16) << 8u16) as u16)) as u16
    } else {
        bm[byte] as u16
    };
    ((raw >> off) & spec_mask16(bd)) as u16
}

/// The decoded pixel `i` of the block at `pos`.
pub open spec fn spec_block_pixel(d: Seq<u8>, pos: int, i: int) -> u16 {
    let bd = spec_bit_depth(d, pos);
    let pc = spec_palette_count(d, pos);
    let pal = spec_palette(d, pos);
    if bd == 0 {
        if pc >= 1 {
            pal[0]
        } else {
            0
        }
    } else {
        let v = spec_extract(spec_bitmap(d, pos), i, bd);
        if bd <= 2 && pc > 0 {
            if (v as int) < pc {
                pal[v as int]
            } else {
                0
            }
        } else {
            v
        }
    }
}

// ---------------------------------------------------------------------------
// Small arithmetic helpers
// ---------------------------------------------------------------------------

proof fn lemma_pow2_le(e1: nat, e2: nat)
    requires
        e1 <= e2,
    ensures
        vstd::arithmetic::power2::pow2(e1) <= vstd::arithmetic::power2::pow2(e2),
{
    if e1 < e2 {
        vstd::arithmetic::power2::lemma_pow2_strictly_increases(e1, e2);
    }
}

proof fn lemma_div8_lt(x: int, y: int)
    requires
        0 <= x,
        x < 8 * y,
    ensures
        x / 8 < y,
{
    vstd::arithmetic::div_mod::lemma_fundamental_div_mod(x, 8);
    vstd::arithmetic::div_mod::lemma_mod_bound(x, 8);
}

/// Field `i` of a 1024-field bitmap lies inside the bitmap, and its second
/// byte exists unless the field fits entirely in the last byte.
proof fn lemma_field_in_bitmap(i: int, bd: nat)
    requires
        0 <= i < 1024,
        1 <= bd <= 255,
    ensures
        0 <= i * bd <= 260865,
        0 <= (i * bd) / 8 < 128 * bd,
        (i * bd) % 8 + bd <= 8 ==> (i * bd) / 8 + 1 <= 128 * bd,
        (i * bd) % 8 + bd > 8 ==> (i * bd) / 8 + 1 < 128 * bd,
{
    vstd::arithmetic::mul::lemma_mul_inequality(i, 1023, bd as int);
    vstd::arithmetic::mul::lemma_mul_inequality(bd as int, 255, 1023);
    assert(1023 * (bd as int) == (bd as int) * 1023) by (nonlinear_arith);
    vstd::arithmetic::mul::lemma_mul_inequality(i + 1, 1024, bd as int);
    assert((i + 1) * bd == i * bd + bd) by (nonlinear_arith);
    assert(1024 * bd == 8 * (128 * bd)) by (nonlinear_arith);
    vstd::arithmetic::mul::lemma_mul_nonnegative(i, bd as int);
    lemma_div8_lt(i * bd, 128 * (bd as int));
    vstd::arithmetic::div_mod::lemma_fundamental_div_mod(i * bd, 8);
    vstd::arithmetic::div_mod::lemma_mod_bound(i * bd, 8);
}

// ---------------------------------------------------------------------------
// Sorted distinct values
// ---------------------------------------------------------------------------

/// Strictly ascending, hence free of duplicates.
pub open spec fn spec_is_sorted_unique(u: Seq<u16>) -> bool {
    forall|a: int, b: int| 0 <= a < b < u.len() ==> u[a] < u[b]
}

/// Inserts `v` into a strictly ascending sequence, keeping it ascending and
/// dropping `v` when it is already present.
pub open spec fn spec_insert_unique(u: Seq<u16>, v: u16) -> Seq<u16>
    decreases u.len(),
{
    if u.len() == 0 {
        seq![v]
    } else if v > u.last() {
        u.push(v)
    } else if v == u.last() {
        u
    } else {
        spec_insert_unique(u.drop_last(), v).push(u.last())
    }
}

/// The distinct values of `s`, in ascending order.
pub open spec fn spec_sorted_unique(s: Seq<u16>) -> Seq<u16>
    decreases s.len(),
{
    if s.len() == 0 {
        Seq::empty()
    } else {
        spec_insert_unique(spec_sorted_unique(s.drop_last()), s.last())
    }
}

proof fn lemma_insert_unique_props(u: Seq<u16>, v: u16)
    requires
        spec_is_sorted_unique(u),
    ensures
        spec_is_sorted_unique(spec_insert_unique(u, v)),
        forall|x: u16|
            #![trigger spec_insert_unique(u, v).contains(x)]
            #![trigger u.contains(x)]
            spec_insert_unique(u, v).contains(x) <==> (u.contains(x) || x == v),
        u.len() <= spec_insert_unique(u, v).len() <= u.len() + 1,
    decreases u.len(),
{
    let r = spec_insert_unique(u, v);
    if u.len() == 0 {
        assert forall|x: u16| r.contains(x) <==> (u.contains(x) || x == v) by {
            if x == v {
                assert(r[0] == v);
            }
        }
    } else if v > u.last() {
        assert forall|x: u16| r.contains(x) <==> (u.contains(x) || x == v) by {
            if x == v {
                assert(r[u.len() as int] == v);
            } else if u.contains(x) {
                let k = choose|k: int| 0 <= k < u.len() && u[k] == x;
                assert(r[k] == x);
            } else if r.contains(x) {
                let k = choose|k: int| 0 <= k < r.len() && r[k] == x;
                assert(k < u.len() ==> u[k] == x);
            }
        }
    } else if v == u.last() {
        assert forall|x: u16| r.contains(x) <==> (u.contains(x) || x == v) by {
            if x == v {
                assert(u[u.len() - 1] == v);
            }
        }
    } else {
        let du = u.drop_last();
        assert(spec_is_sorted_unique(du));
        lemma_insert_unique_props(du, v);
        let r2 = spec_insert_unique(du, v);
        assert(r == r2.push(u.last()));
        assert forall|a: int, b: int| 0 <= a < b < r.len() implies r[a] < r[b] by {
            if b == r.len() - 1 {
                assert(r2.contains(r2[a]));
                if du.contains(r2[a]) {
                    let k = choose|k: int| 0 <= k < du.len() && du[k] == r2[a];
                    assert(u[k] < u.last());
                }
            }
        }
        assert forall|x: u16| r.contains(x) <==> (u.contains(x) || x == v) by {
            if r.contains(x) {
                let k = choose|k: int| 0 <= k < r.len() && r[k] == x;
                if k == r.len() - 1 {
                    assert(u[u.len() - 1] == x);
                } else {
                    assert(r2.contains(x));
                    if du.contains(x) {
                        let k2 = choose|k2: int| 0 <= k2 < du.len() && du[k2] == x;
                        assert(u[k2] == x);
                    }
                }
            }
            if u.contains(x) {
                let k = choose|k: int| 0 <= k < u.len() && u[k] == x;
                if k == u.len() - 1 {
                    assert(r[r.len() - 1] == x);
                } else {
                    assert(du[k] == x);
                    assert(r2.contains(x));
                    let k2 = choose|k2: int| 0 <= k2 < r2.len() && r2[k2] == x;
                    assert(r[k2] == x);
                }
            }
            if x == v {
                assert(r2.contains(v));
                let k2 = choose|k2: int| 0 <= k2 < r2.len() && r2[k2] == v;
                assert(r[k2] == v);
            }
        }
    }
}

/// The distinct-value sequence is ascending and holds exactly the values
/// of `s`.
pub proof fn lemma_sorted_unique_props(s: Seq<u16>)
    ensures
        spec_is_sorted_unique(spec_sorted_unique(s)),
        forall|x: u16|
            #![trigger spec_sorted_unique(s).contains(x)]
            #![trigger s.contains(x)]
            spec_sorted_unique(s).contains(x) <==> s.contains(x),
    decreases s.len(),
{
    if s.len() > 0 {
        lemma_sorted_unique_props(s.drop_last());
        let du = spec_sorted_unique(s.drop_last());
        lemma_insert_unique_props(du, s.last());
        assert forall|x: u16| spec_sorted_unique(s).contains(x) <==> s.contains(x) by {
            if s.contains(x) {
                let k = choose|k: int| 0 <= k < s.len() && s[k] == x;
                if k < s.len() - 1 {
                    assert(s.drop_last()[k] == x);
                }
            }
            if s.drop_last().contains(x) {
                let k = choose|k: int| 0 <= k < s.len() - 1 && s.drop_last()[k] == x;
                assert(s[k] == x);
            }
        }
    }
}

proof fn lemma_insert_unique_found(u: Seq<u16>, v: u16, k: int)
    requires
        spec_is_sorted_unique(u),
        0 <= k < u.len(),
        u[k] == v,
    ensures
        spec_insert_unique(u, v) == u,
    decreases u.len(),
{
    if k == u.len() - 1 {
    } else {
        assert(v < u.last());
        assert(spec_is_sorted_unique(u.drop_last()));
        lemma_insert_unique_found(u.drop_last(), v, k);
        assert(spec_insert_unique(u, v) =~= u);
    }
}

proof fn lemma_insert_unique_at(u: Seq<u16>, v: u16, k: int)
    requires
        spec_is_sorted_unique(u),
        0 <= k <= u.len(),
        forall|j: int| 0 <= j < k ==> u[j] < v,
        forall|j: int| k <= j < u.len() ==> u[j] > v,
    ensures
        spec_insert_unique(u, v) == u.subrange(0, k) + seq![v] + u.subrange(k, u.len() as int),
    decreases u.len(),
{
    if u.len() == 0 {
        assert(spec_insert_unique(u, v) =~= u.subrange(0, k) + seq![v] + u.subrange(
            k,
            u.len() as int,
        ));
    } else if k == u.len() {
        assert(v > u.last());
        assert(spec_insert_unique(u, v) =~= u.subrange(0, k) + seq![v] + u.subrange(
            k,
            u.len() as int,
        ));
    } else {
        assert(u.last() > v);
        assert(spec_is_sorted_unique(u.drop_last()));
        lemma_insert_unique_at(u.drop_last(), v, k);
        assert(spec_insert_unique(u, v) =~= u.subrange(0, k) + seq![v] + u.subrange(
            k,
            u.len() as int,
        ));
    }
}

/// Inserts `v` into the ascending vector `u`, unless already present.
fn insert_unique_exec(u: &mut Vec<u16>, v: u16)
    requires
        spec_is_sorted_unique(old(u)@),
    ensures
        final(u)@ == spec_insert_unique(old(u)@, v),
        spec_is_sorted_unique(final(u)@),
{
    proof {
        lemma_insert_unique_props(old(u)@, v);
    }
    let mut k: usize = u.len();
    while k > 0 && u[k - 1] > v
        invariant
            k <= u@.len(),
            u@ == old(u)@,
            spec_is_sorted_unique(u@),
            forall|j: int| k <= j < u@.len() ==> u@[j] > v,
        decreases k,
    {
        k -= 1;
    }
    if k > 0 && u[k - 1] == v {
        proof {
            lemma_insert_unique_found(u@, v, k - 1);
        }
        return ;
    }
    proof {
        if k > 0 {
            assert forall|j: int| 0 <= j < k implies u@[j] < v by {
                if j < k - 1 {
                    assert(u@[j] < u@[k - 1]);
                }
            }
        }
        lemma_insert_unique_at(u@, v, k as int);
    }
    u.insert(k, v);
    assert(u@ =~= spec_insert_unique(old(u)@, v));
}

/// The distinct pixel values of a chunk, ascending.
fn sorted_unique_exec(pixels: &[u16]) -> (u: Vec<u16>)
    ensures
        u@ == spec_sorted_unique(pixels@),
        spec_is_sorted_unique(u@),
{
    let mut u: Vec<u16> = Vec::new();
    let mut i: usize = 0;
    while i < pixels.len()
        invariant
            i <= pixels@.len(),
            u@ == spec_sorted_unique(pixels@.take(i as int)),
            spec_is_sorted_unique(u@),
        decreases pixels@.len() - i,
    {
        proof {
            assert(pixels@.take(i + 1).drop_last() =~= pixels@.take(i as int));
            assert(pixels@.take(i + 1).last() == pixels@[i as int]);
        }
        insert_unique_exec(&mut u, pixels[i]);
        i += 1;
    }
    assert(pixels@.take(pixels@.len() as int) =~= pixels@);
    u
}

/// The position of `v` in `u`.
fn index_of_exec(u: &Vec<u16>, v: u16) -> (idx: usize)
    requires
        u@.contains(v),
    ensures
        idx < u@.len(),
        u@[idx as int] == v,
{
    let mut i: usize = 0;
    while i < u.len()
        invariant
            i <= u@.len(),
            forall|j: int| 0 <= j < i ==> u@[j] != v,
            u@.contains(v),
        decreases u@.len() - i,
    {
        if u[i] == v {
            return i;
        }
        i += 1;
    }
    proof {
        let k = choose|k: int| 0 <= k < u@.len() && u@[k] == v;
        assert(false);
    }
    0
}

// ---------------------------------------------------------------------------
// Bit width
// ---------------------------------------------------------------------------

/// The number of bits needed for `x`, at least one: the smallest `n >= 1`
/// with `x < 2^n`.
pub open spec fn spec_bit_width(x: nat) -> nat
    decreases x,
{
    if x <= 1 {
        1
    } else {
        1 + spec_bit_width(x / 2)
    }
}

pub proof fn lemma_bit_width_bounds(x: nat)
    ensures
        1 <= spec_bit_width(x),
        x < vstd::arithmetic::power2::pow2(spec_bit_width(x)),
        x <= 0xffff ==> spec_bit_width(x) <= 16,
    decreases x,
{
    vstd::arithmetic::power2::lemma2_to64();
    if x <= 1 {
    } else {
        lemma_bit_width_bounds(x / 2);
        let w = spec_bit_width(x / 2);
        vstd::arithmetic::power2::lemma_pow2_adds(w, 1);
        assert(x < 2 * vstd::arithmetic::power2::pow2(w)) by {
            vstd::arithmetic::div_mod::lemma_fundamental_div_mod(x as int, 2);
            vstd::arithmetic::div_mod::lemma_mod_bound(x as int, 2);
        }
        if x <= 0xffff {
            if w >= 16 {
                assert(spec_bit_width(x / 2) <= 15) by {
                    lemma_bit_width_le(x / 2, 15);
                }
            } else {
                if spec_bit_width(x) > 16 {
                    lemma_bit_width_le(x, 16);
                }
            }
        }
    }
}

pub proof fn lemma_bit_width_le(x: nat, n: nat)
    requires
        n >= 1,
        x < vstd::arithmetic::power2::pow2(n),
    ensures
        spec_bit_width(x) <= n,
    decreases x,
{
    if x <= 1 {
    } else {
        vstd::arithmetic::power2::lemma2_to64();
        assert(n >= 2);
        assert(x / 2 < vstd::arithmetic::power2::pow2((n - 1) as nat)) by {
            vstd::arithmetic::power2::lemma2_to64();
            vstd::arithmetic::power2::lemma_pow2_adds((n - 1) as nat, 1);
            vstd::arithmetic::div_mod::lemma_fundamental_div_mod(x as int, 2);
            vstd::arithmetic::div_mod::lemma_mod_bound(x as int, 2);
        }
        lemma_bit_width_le(x / 2, (n - 1) as nat);
    }
}

/// The bit width of `max`, computed by halving.
fn bit_width_exec(max: u16) -> (bd: u8)
    ensures
        bd as nat == spec_bit_width(max as nat),
        1 <= bd <= 16,
{
    proof {
        lemma_bit_width_bounds(max as nat);
    }
    let mut bd: u8 = 1;
    let mut x: u16 = max / 2;
    while x > 0
        invariant
            1 <= bd <= 16,
            x > 0 ==> spec_bit_width(max as nat) == bd + spec_bit_width(x as nat),
            x == 0 ==> spec_bit_width(max as nat) == bd,
            spec_bit_width(max as nat) <= 16,
            x > 0 ==> spec_bit_width(x as nat) >= 1,
        decreases x,
    {
        proof {
            lemma_bit_width_bounds((x / 2) as nat);
        }
        bd += 1;
        x = x / 2;
    }
    bd
}

// ---------------------------------------------------------------------------
// Safe packing depths
// ---------------------------------------------------------------------------

/// A bit depth is safe when every field of the bitmap fits the 16-bit
/// window that the decoder reads: the field's offset within its first byte
/// plus the depth never passes sixteen.
pub open spec fn spec_safe_depth(bd: nat) -> bool {
    forall|i: int| i >= 0 ==> #[trigger] ((i * bd) % 8) + bd <= 16
}

/// Exactly the depths up to ten, twelve, and sixteen are safe: other depths
/// above ten put some field across more than two bytes.
pub proof fn lemma_safe_depth_classification(bd: nat)
    ensures
        spec_safe_depth(bd) <==> (bd <= 10 || bd == 12 || bd == 16),
{
    if bd <= 8 {
        assert forall|i: int| i >= 0 implies #[trigger] ((i * bd) % 8) + bd <= 16 by {
            vstd::arithmetic::div_mod::lemma_mod_bound(i * bd, 8);
            vstd::arithmetic::mul::lemma_mul_nonnegative(i, bd as int);
        }
    } else if bd == 9 || bd == 10 || bd == 12 || bd == 16 {
        let r = (bd - 8) as int;
        assert forall|i: int| i >= 0 implies #[trigger] ((i * bd) % 8) + bd <= 16 by {
            vstd::arithmetic::mul::lemma_mul_is_distributive_add_other_way(i, 8, r);
            assert(i * bd == 8 * i + i * r) by (nonlinear_arith)
                requires
                    bd == 8 + r,
            ;
            vstd::arithmetic::div_mod::lemma_mod_multiples_vanish(i, i * r, 8);
            assert((i * bd) % 8 == (i * r) % 8);
            if r == 1 {
                vstd::arithmetic::div_mod::lemma_mod_bound(i * r, 8);
            } else if r == 2 {
                let q = i % 4;
                assert(i * 2 == 8 * (i / 4) + 2 * q) by {
                    vstd::arithmetic::div_mod::lemma_fundamental_div_mod(i, 4);
                    assert((4 * (i / 4) + q) * 2 == 8 * (i / 4) + 2 * q) by (nonlinear_arith);
                }
                vstd::arithmetic::div_mod::lemma_mod_multiples_vanish(i / 4, 2 * q, 8);
                vstd::arithmetic::div_mod::lemma_mod_bound(i, 4);
                vstd::arithmetic::div_mod::lemma_small_mod((2 * q) as nat, 8);
            } else if r == 4 {
                let q = i % 2;
                assert(i * 4 == 8 * (i / 2) + 4 * q) by {
                    vstd::arithmetic::div_mod::lemma_fundamental_div_mod(i, 2);
                    assert((2 * (i / 2) + q) * 4 == 8 * (i / 2) + 4 * q) by (nonlinear_arith);
                }
                vstd::arithmetic::div_mod::lemma_mod_multiples_vanish(i / 2, 4 * q, 8);
                vstd::arithmetic::div_mod::lemma_mod_bound(i, 2);
                vstd::arithmetic::div_mod::lemma_small_mod((4 * q) as nat, 8);
            } else {
                assert(r == 8);
                assert(i * 8 == 8 * i + 0) by (nonlinear_arith);
                vstd::arithmetic::div_mod::lemma_mod_multiples_vanish(i, 0, 8);
                vstd::arithmetic::div_mod::lemma_small_mod(0, 8);
            }
        }
    } else if bd == 11 {
        assert((2 * 11) % 8 == 6);
        assert(!(((2 * 11) % 8) + 11 <= 16));
    } else if bd == 13 {
        assert((3 * 13) % 8 == 7);
        assert(!(((3 * 13) % 8) + 13 <= 16));
    } else if bd == 14 {
        assert((1 * 14) % 8 == 6);
        assert(!(((1 * 14) % 8) + 14 <= 16));
    } else if bd == 15 {
        assert((1 * 15) % 8 == 7);
        assert(!(((1 * 15) % 8) + 15 <= 16));
    } else {
        assert(bd > 16);
        assert(((0 * bd) % 8) + bd > 16) by {
            vstd::arithmetic::div_mod::lemma_small_mod(0, 8);
        }
    }
}

// ---------------------------------------------------------------------------
// Bit packing
// ---------------------------------------------------------------------------

/// The low `k` bits, for `k < 16`.
pub open spec fn spec_lowmask16(k: u16) -> u16 {
    !(0xffffu16 << k)
}

/// Everything from bit `cursor` on is still zero: the byte holding the
/// cursor has only bits below the cursor, and every later byte is zero.
pub open spec fn spec_high_bits_zero(bm: Seq<u8>, cursor: int) -> bool {
    &&& (0 <= cursor / 8 < bm.len() ==> (bm[cursor / 8] as nat) < vstd::arithmetic::power2::pow2(
        (cursor % 8) as nat,
    ))
    &&& (forall|t: int| cursor / 8 < t < bm.len() ==> bm[t] == 0)
}

/// What one write does to the two bytes of a field: the field reads back,
/// bits below the field's byte offset keep their value, and everything
/// above the field stays zero.
proof fn lemma_pack_write_bits(b0: u8, b1: u8, w: u16, off: u16, bd: u16)
    requires
        off < 8,
        1 <= bd <= 16,
        off + bd <= 16,
        bd < 16 ==> (w as int) < ((1u16 << bd) as int),
        off == 0 ==> b0 == 0,
        off > 0 ==> (b0 as u16) < (1u16 << off),
        b1 == 0,
    ensures
        ({
            let n0 = b0 | ((w << off) as u8);
            let n1 = b1 | ((w >> ((8 - off) as u16)) as u8);
            &&& (bd < 16 ==> (((((n0 as u16) | (((n1 as u16) << 8u16) as u16)) as u16) >> off)
                & spec_lowmask16(bd)) == w)
            &&& (bd == 16 ==> (((((n0 as u16) | (((n1 as u16) << 8u16) as u16)) as u16) >> off)
                & 0xffffu16) == w)
            &&& (off + bd <= 8 ==> ((((n0 as u16) >> off) & spec_lowmask16(bd)) == w && n1 == 0))
            &&& ((n0 as u16) & spec_lowmask16(off)) == ((b0 as u16) & spec_lowmask16(off))
            &&& (off + bd < 8 ==> (n0 as u16) < (1u16 << ((off + bd) as u16)))
            &&& (off + bd == 8 ==> n1 == 0)
            &&& (8 < off + bd < 16 ==> (n1 as u16) < (1u16 << ((off + bd - 8) as u16)))
        }),
{
    let n0 = b0 | ((w << off) as u8);
    let n1 = b1 | ((w >> ((8 - off) as u16)) as u8);
    let window = (n0 as u16) | ((n1 as u16) << 8u16);
    assert((bd < 16 ==> (window >> off) & !(0xffffu16 << bd) == w) && (bd == 16 ==> (window >> off)
        & 0xffffu16 == w) && (off + bd <= 8 ==> (((n0 as u16) >> off) & !(0xffffu16 << bd) == w
        && n1 == 0)) && (n0 as u16) & !(0xffffu16 << off) == (b0 as u16) & !(0xffffu16 << off) && (
    off + bd < 8 ==> (n0 as u16) < (1u16 << ((off + bd) as u16))) && (off + bd == 8 ==> n1 == 0)
        && (8 < off + bd < 16 ==> (n1 as u16) < (1u16 << ((off + bd - 8) as u16)))) by (bit_vector)
        requires
            off < 8,
            1 <= bd <= 16,
            off + bd <= 16,
            bd < 16 ==> (w as int) < ((1u16 << bd) as int),
            off == 0 ==> b0 == 0,
            off > 0 ==> (b0 as u16) < (1u16 << off),
            b1 == 0,
            n0 == b0 | ((w << off) as u8),
            n1 == b1 | ((w >> ((8 - off) as u16)) as u8),
            window == (n0 as u16) | ((n1 as u16) << 8u16),
    ;
}

/// An extraction whose field ends at or before window bit `8 + off` does not
/// see changes to bits `off` and above of the window's second byte.
proof fn lemma_extract_pres_second(c: u8, x: u8, y: u8, offj: u16, bd: u16, off: u16)
    requires
        offj < 8,
        off < 8,
        1 <= bd <= 16,
        offj + bd <= 8 + off,
        ((x as u16) & spec_lowmask16(off)) == ((y as u16) & spec_lowmask16(off)),
    ensures
        (((((c as u16) | (((x as u16) << 8u16) as u16)) as u16) >> offj) & spec_lowmask16(bd)) == (
        ((((c as u16) | (((y as u16) << 8u16) as u16)) as u16) >> offj) & spec_lowmask16(bd)),
{
    let wx = (c as u16) | ((x as u16) << 8u16);
    let wy = (c as u16) | ((y as u16) << 8u16);
    assert((wx >> offj) & !(0xffffu16 << bd) == (wy >> offj) & !(0xffffu16 << bd)) by (bit_vector)
        requires
            offj < 8,
            off < 8,
            1 <= bd <= 16,
            offj + bd <= 8 + off,
            (x as u16) & !(0xffffu16 << off) == (y as u16) & !(0xffffu16 << off),
            wx == (c as u16) | ((x as u16) << 8u16),
            wy == (c as u16) | ((y as u16) << 8u16),
    ;
}

/// An extraction whose field ends at or before bit `off` of its first byte
/// sees neither changes to that byte's bits `off` and above nor any change
/// to the second byte.
proof fn lemma_extract_pres_low(x: u8, y: u8, s1: u8, s2: u8, offj: u16, bd: u16, off: u16)
    requires
        offj < 8,
        off < 8,
        1 <= bd,
        offj + bd <= off,
        ((x as u16) & spec_lowmask16(off)) == ((y as u16) & spec_lowmask16(off)),
    ensures
        (((((x as u16) | (((s1 as u16) << 8u16) as u16)) as u16) >> offj) & spec_lowmask16(bd)) == (
        ((((y as u16) | (((s2 as u16) << 8u16) as u16)) as u16) >> offj) & spec_lowmask16(bd)),
        (((x as u16) >> offj) & spec_lowmask16(bd)) == (((y as u16) >> offj) & spec_lowmask16(bd)),
{
    let wx = (x as u16) | ((s1 as u16) << 8u16);
    let wy = (y as u16) | ((s2 as u16) << 8u16);
    assert((wx >> offj) & !(0xffffu16 << bd) == (wy >> offj) & !(0xffffu16 << bd) && ((x as u16)
        >> offj) & !(0xffffu16 << bd) == ((y as u16) >> offj) & !(0xffffu16 << bd)) by (bit_vector)
        requires
            offj < 8,
            off < 8,
            1 <= bd,
            offj + bd <= off,
            (x as u16) & !(0xffffu16 << off) == (y as u16) & !(0xffffu16 << off),
            wx == (x as u16) | ((s1 as u16) << 8u16),
            wy == (y as u16) | ((s2 as u16) << 8u16),
    ;
}

/// Packs 1024 field values of `bd` bits each, LSB-first, into `bd * 128`
/// bytes. For every safe depth each field can be read back through the
/// decoder's 16-bit window.
#[verifier::rlimit(100)]
fn pack_bitmap(values: &Vec<u16>, bd: u8) -> (bm: Vec<u8>)
    requires
        1 <= bd <= 16,
        values@.len() == 1024,
        forall|j: int|
            0 <= j < 1024 ==> (values@[j] as nat) < vstd::arithmetic::power2::pow2(bd as nat),
    ensures
        bm@.len() == 128 * (bd as int),
        spec_safe_depth(bd as nat) ==> forall|j: int|
            0 <= j < 1024 ==> spec_extract(bm@, j, bd as nat) == values@[j],
{
    let ghost safe = spec_safe_depth(bd as nat);
    let size: usize = 128 * (bd as usize);
    let mut bm: Vec<u8> = Vec::new();
    let mut z: usize = 0;
    while z < size
        invariant
            z <= size,
            bm@.len() == z,
            forall|t: int| 0 <= t < z ==> bm@[t] == 0,
        decreases size - z,
    {
        bm.push(0);
        z += 1;
    }
    proof {
        vstd::arithmetic::power2::lemma2_to64();
    }

    let mut i: usize = 0;
    while i < 1024
        invariant
            i <= 1024,
            bm@.len() == size,
            size == 128 * (bd as int),
            1 <= bd <= 16,
            safe == spec_safe_depth(bd as nat),
            values@.len() == 1024,
            forall|j: int|
                0 <= j < 1024 ==> (values@[j] as nat) < vstd::arithmetic::power2::pow2(bd as nat),
            safe ==> spec_high_bits_zero(bm@, i as int * bd as int),
            safe ==> forall|j: int|
                0 <= j < i ==> spec_extract(bm@, j, bd as nat) == values@[j],
        decreases 1024 - i,
    {
        let ghost bm0 = bm@;
        proof {
            lemma_field_in_bitmap(i as int, bd as nat);
            vstd::arithmetic::power2::lemma2_to64();
        }
        let w = values[i];
        let bit_pos: usize = i * (bd as usize);
        let b: usize = bit_pos / 8;
        let off: usize = bit_pos % 8;

        let n0 = bm[b] | ((w << (off as u16)) as u8);
        bm.set(b, n0);
        if b + 1 < size {
            let n1 = bm[b + 1] | ((w >> ((8 - off) as u16)) as u8);
            bm.set(b + 1, n1);
        }

        proof {
            if safe {
                let bdi = bd as int;
                let cursor = i as int * bdi;
                let offi = off as int;
                let bi = b as int;
                assert(cursor % 8 + bdi <= 16);
                assert(cursor == 8 * bi + offi) by {
                    vstd::arithmetic::div_mod::lemma_fundamental_div_mod(cursor, 8);
                }
                let b0 = bm0[bi];
                let b1: u8 = if bi + 1 < size {
                    bm0[bi + 1]
                } else {
                    0
                };
                assert(b1 == 0);
                // the cursor byte holds only bits below `off`
                assert((b0 as nat) < vstd::arithmetic::power2::pow2(off as nat));
                if off > 0 {
                    lemma_pow2_le(off as nat, 15);
                    vstd::bits::lemma_u16_shl_is_mul(1u16, off as u16);
                    assert((b0 as u16) < (1u16 << (off as u16)));
                }
                if bd < 16 {
                    lemma_pow2_le(bd as nat, 15);
                    vstd::bits::lemma_u16_shl_is_mul(1u16, bd as u16);
                    assert((w as int) < ((1u16 << (bd as u16)) as int));
                }
                lemma_pack_write_bits(b0, b1, w, off as u16, bd as u16);
                let n0v = (b0 | ((w << (off as u16)) as u8)) as u8;
                let n1v = (b1 | ((w >> ((8 - off) as u16)) as u8)) as u8;
                assert(bm@[bi] == n0v);
                assert(bi + 1 < size ==> bm@[bi + 1] == n1v);
                assert(forall|t: int| 0 <= t < size && t != bi && t != bi + 1 ==> bm@[t] == bm0[t]);

                // the new field reads back
                assert(spec_extract(bm@, i as int, bd as nat) == values@[i as int]) by {
                    if bd < 16 {
                        assert(spec_mask16(bd as nat) == spec_lowmask16(bd as u16));
                    } else {
                        assert(spec_mask16(bd as nat) == 0xffffu16);
                    }
                    if bi + 1 < size {
                        assert(bm@[bi] == n0v && bm@[bi + 1] == n1v);
                    } else {
                        assert(offi + bdi <= 8);
                    }
                }

                // older fields are untouched
                assert forall|j: int| 0 <= j < i implies spec_extract(bm@, j, bd as nat)
                    == spec_extract(bm0, j, bd as nat) by {
                    let fj = j * bdi;
                    let bj = fj / 8;
                    let offj = fj % 8;
                    lemma_field_in_bitmap(j, bd as nat);
                    assert(fj == 8 * bj + offj) by {
                        vstd::arithmetic::div_mod::lemma_fundamental_div_mod(fj, 8);
                    }
                    assert(fj + bdi <= cursor) by {
                        vstd::arithmetic::mul::lemma_mul_inequality(j + 1, i as int, bdi);
                        assert((j + 1) * bdi == j * bdi + bdi) by (nonlinear_arith);
                    }
                    if bj + 1 < bi {
                        assert(bm@[bj] == bm0[bj] && bm@[bj + 1] == bm0[bj + 1]);
                    } else if bj + 1 == bi {
                        assert(offj + bdi <= 8 + offi);
                        assert(bd < 16);
                        assert(spec_mask16(bd as nat) == spec_lowmask16(bd as u16));
                        assert(bm@[bj] == bm0[bj]);
                        lemma_extract_pres_second(
                            bm0[bj],
                            bm@[bi],
                            bm0[bi],
                            offj as u16,
                            bd as u16,
                            off as u16,
                        );
                    } else {
                        assert(bj == bi);
                        assert(offj + bdi <= offi);
                        assert(bd < 16);
                        assert(spec_mask16(bd as nat) == spec_lowmask16(bd as u16));
                        if bj + 1 < size {
                            lemma_extract_pres_low(
                                bm@[bi],
                                bm0[bi],
                                bm@[bi + 1],
                                bm0[bi + 1],
                                offj as u16,
                                bd as u16,
                                off as u16,
                            );
                        } else {
                            lemma_extract_pres_low(
                                bm@[bi],
                                bm0[bi],
                                0,
                                0,
                                offj as u16,
                                bd as u16,
                                off as u16,
                            );
                        }
                    }
                }

                // everything from the new cursor on is still zero
                assert(spec_high_bits_zero(bm@, (i + 1) as int * bdi)) by {
                    let nc = (i + 1) as int * bdi;
                    assert((i as int + 1) * bdi == i as int * bdi + bdi) by (nonlinear_arith);
                    assert(nc == cursor + bdi);
                    if offi + bdi < 8 {
                        vstd::arithmetic::div_mod::lemma_fundamental_div_mod_converse(
                            nc,
                            8,
                            bi,
                            offi + bdi,
                        );
                        lemma_pow2_le((off + bd) as nat, 15);
                        vstd::bits::lemma_u16_shl_is_mul(1u16, (off + bd) as u16);
                    } else if offi + bdi == 8 {
                        vstd::arithmetic::div_mod::lemma_fundamental_div_mod_converse(
                            nc,
                            8,
                            bi + 1,
                            0,
                        );
                    } else if offi + bdi < 16 {
                        vstd::arithmetic::div_mod::lemma_fundamental_div_mod_converse(
                            nc,
                            8,
                            bi + 1,
                            offi + bdi - 8,
                        );
                        lemma_pow2_le((off + bd - 8) as nat, 15);
                        vstd::bits::lemma_u16_shl_is_mul(1u16, (off + bd - 8) as u16);
                    } else {
                        assert(offi + bdi == 16);
                        vstd::arithmetic::div_mod::lemma_fundamental_div_mod_converse(
                            nc,
                            8,
                            bi + 2,
                            0,
                        );
                    }
                }
            }
        }
        i += 1;
    }
    bm
}

// ---------------------------------------------------------------------------
// The canonical encoding choices
// ---------------------------------------------------------------------------

/// The bit depth the encoder chooses: zero for a uniform chunk, one for two
/// distinct values, two for up to four, and otherwise the bit width of the
/// largest value.
pub open spec fn spec_canonical_depth(p: Seq<u16>) -> nat {
    let u = spec_sorted_unique(p);
    if u.len() <= 1 {
        0
    } else if u.len() <= 2 {
        1
    } else if u.len() <= 4 {
        2
    } else {
        spec_bit_width(u.last() as nat)
    }
}

/// The palette the encoder writes: the distinct values ascending, or none
/// at all in the raw form.
pub open spec fn spec_canonical_palette(p: Seq<u16>) -> Seq<u16> {
    let u = spec_sorted_unique(p);
    if u.len() <= 4 {
        u
    } else {
        Seq::empty()
    }
}

/// A uniform chunk encodes as the smallest possible block: depth zero, one
/// palette entry, four bytes in all.
pub proof fn lemma_uniform_chunk_block(p: Seq<u16>)
    requires
        spec_sorted_unique(p).len() == 1,
    ensures
        spec_canonical_depth(p) == 0,
        spec_canonical_palette(p).len() == 1,
        forall|d: Seq<u8>, pos: int|
            spec_bit_depth(d, pos) == 0 && spec_palette_count(d, pos) == 1
                ==> #[trigger] spec_block_size(d, pos) == 4,
{
}

/// A chunk with exactly two distinct values encodes at bit depth one with a
/// two-entry palette: two header bytes, four palette bytes, 128 bitmap
/// bytes — 134 in all.
pub proof fn lemma_two_value_chunk_block(p: Seq<u16>)
    requires
        spec_sorted_unique(p).len() == 2,
    ensures
        spec_canonical_depth(p) == 1,
        spec_canonical_palette(p).len() == 2,
        forall|d: Seq<u8>, pos: int|
            spec_bit_depth(d, pos) == 1 && spec_palette_count(d, pos) == 2
                ==> #[trigger] spec_block_size(d, pos) == 134,
{
}

// ---------------------------------------------------------------------------
// Encoder
// ---------------------------------------------------------------------------

/// Encodes the 1024 pixel values of one chunk as a block: uniform when one
/// value, palette form up to four distinct values, raw bit-packed beyond.
/// For every safe bit depth the block decodes back to the pixels.
pub fn encode_gdm_block(pixels: &[u16], chunk_size: usize) -> (out: Vec<u8>)
    requires
        chunk_size == 32,
        pixels@.len() == 1024,
    ensures
        out@.len() == spec_block_size(out@, 0),
        spec_bit_depth(out@, 0) == spec_canonical_depth(pixels@),
        spec_palette(out@, 0) == spec_canonical_palette(pixels@),
        spec_palette_count(out@, 0) == if spec_canonical_depth(pixels@) == 0 {
            1nat
        } else {
            spec_canonical_palette(pixels@).len()
        },
        spec_safe_depth(spec_canonical_depth(pixels@)) ==> forall|i: int|
            0 <= i < 1024 ==> spec_block_pixel(out@, 0, i) == pixels@[i],
{
    proof {
        lemma_sorted_unique_props(pixels@);
        vstd::arithmetic::power2::lemma2_to64();
    }
    let uniq = sorted_unique_exec(pixels);
    proof {
        assert(pixels@.contains(pixels@[0]));
        assert(uniq@.len() >= 1);
    }

    let mut out: Vec<u8> = Vec::new();

    if uniq.len() == 1 {
        out.push(0);
        out.push(1);
        push_u16_le(&mut out, uniq[0]);
        proof {
            crate::cursor::lemma_le16_round_trip(uniq@[0]);
            assert(out@.len() == 4);
            assert(spec_bit_depth(out@, 0) == 0);
            assert(spec_palette_count(out@, 0) == 1);
            assert(spec_palette(out@, 0) =~= seq![uniq@[0]]);
            assert(spec_canonical_palette(pixels@) =~= seq![uniq@[0]]);
            assert forall|i: int| 0 <= i < 1024 implies spec_block_pixel(out@, 0, i)
                == pixels@[i] by {
                assert(pixels@.contains(pixels@[i]));
                assert(uniq@.contains(pixels@[i]));
                let k = choose|k: int| 0 <= k < uniq@.len() && uniq@[k] == pixels@[i];
                assert(k == 0);
            }
        }
    } else if uniq.len() <= 4 {
        let bdepth: u8 = if uniq.len() <= 2 {
            1
        } else {
            2
        };
        out.push(bdepth);
        out.push(uniq.len() as u8);
        let mut k: usize = 0;
        while k < uniq.len()
            invariant
                k <= uniq@.len(),
                2 <= uniq@.len() <= 4,
                out@.len() == 2 + 2 * k,
                out@[0] == bdepth,
                out@[1] == uniq@.len() as u8,
                forall|q: int|
                    0 <= q < k ==> out@[2 + 2 * q] == spec_le16(uniq@[q])[0] && out@[3 + 2 * q]
                        == spec_le16(uniq@[q])[1],
            decreases uniq@.len() - k,
        {
            push_u16_le(&mut out, uniq[k]);
            k += 1;
        }

        let mut idxs: Vec<u16> = Vec::new();
        let mut i: usize = 0;
        while i < 1024
            invariant
                i <= 1024,
                idxs@.len() == i,
                pixels@.len() == 1024,
                2 <= uniq@.len() <= 4,
                uniq@ == spec_sorted_unique(pixels@),
                spec_is_sorted_unique(uniq@),
                forall|x: u16| #[trigger] uniq@.contains(x) <==> pixels@.contains(x),
                forall|j: int|
                    0 <= j < i ==> (#[trigger] idxs@[j] as int) < uniq@.len() && uniq@[idxs@[j]
                        as int] == pixels@[j],
            decreases 1024 - i,
        {
            proof {
                assert(pixels@.contains(pixels@[i as int]));
            }
            let idx = index_of_exec(&uniq, pixels[i]);
            assert(idx < uniq@.len());
            assert(uniq@[idx as int] == pixels@[i as int]);
            assert(idx < 4);
            let ghost idxs0 = idxs@;
            idxs.push(idx as u16);
            proof {
                assert(idxs@ == idxs0.push(idx as u16));
                assert forall|j: int|
                    0 <= j < i + 1 implies (idxs@[j] as int) < uniq@.len() && uniq@[idxs@[j] as int]
                    == pixels@[j] by {
                    if j == i {
                        assert(idxs@[j] == idx as u16);
                        assert((idxs@[j] as int) == idx as int);
                        assert((idxs@[j] as int) < uniq@.len());
                        assert(uniq@[idxs@[j] as int] == pixels@[j]);
                    } else {
                        assert(0 <= j < i);
                        assert(idxs@[j] == idxs0[j]);
                        assert((idxs0[j] as int) < uniq@.len());
                        assert(uniq@[idxs0[j] as int] == pixels@[j]);
                        assert((idxs@[j] as int) < uniq@.len());
                        assert(uniq@[idxs@[j] as int] == pixels@[j]);
                    }
                }
            }
            i += 1;
        }

        proof {
            assert forall|j: int|
                0 <= j < 1024 implies (idxs@[j] as nat) < vstd::arithmetic::power2::pow2(
                bdepth as nat,
            ) by {
                assert((idxs@[j] as int) < uniq@.len());
            }
        }
        let bm = pack_bitmap(&idxs, bdepth);

        let ghost header = out@;
        let mut t: usize = 0;
        while t < bm.len()
            invariant
                t <= bm@.len(),
                out@ == header + bm@.take(t as int),
            decreases bm@.len() - t,
        {
            let byte = bm[t];
            out.push(byte);
            assert(out@ =~= header + bm@.take(t + 1));
            t += 1;
        }
        assert(out@ =~= header + bm@);

        proof {
            assert(spec_bit_depth(out@, 0) == bdepth as nat);
            assert(spec_palette_count(out@, 0) == uniq@.len());
            assert(spec_palette(out@, 0) =~= uniq@) by {
                assert forall|q: int| 0 <= q < uniq@.len() implies spec_palette(out@, 0)[q]
                    == uniq@[q] by {
                    crate::cursor::lemma_le16_round_trip(uniq@[q]);
                }
            }
            assert(spec_bitmap(out@, 0) =~= bm@);
            assert(out@.len() == spec_block_size(out@, 0));
            if spec_safe_depth(bdepth as nat) {
                assert forall|i2: int| 0 <= i2 < 1024 implies spec_block_pixel(out@, 0, i2)
                    == pixels@[i2] by {
                    assert(spec_extract(bm@, i2, bdepth as nat) == idxs@[i2]);
                }
            }
        }
    } else {
        let maxv = uniq[uniq.len() - 1];
        let bdepth = bit_width_exec(maxv);
        proof {
            lemma_bit_width_bounds(maxv as nat);
            assert forall|j: int|
                0 <= j < 1024 implies (pixels@[j] as nat) < vstd::arithmetic::power2::pow2(
                bdepth as nat,
            ) by {
                assert(pixels@.contains(pixels@[j]));
                assert(uniq@.contains(pixels@[j]));
                let k = choose|k: int| 0 <= k < uniq@.len() && uniq@[k] == pixels@[j];
                if k < uniq@.len() - 1 {
                    assert(uniq@[k] < uniq@[uniq@.len() - 1]);
                }
            }
        }
        out.push(bdepth);
        out.push(0);

        let mut vals: Vec<u16> = Vec::new();
        let mut i: usize = 0;
        while i < 1024
            invariant
                i <= 1024,
                pixels@.len() == 1024,
                vals@.len() == i,
                forall|j: int| 0 <= j < i ==> vals@[j] == pixels@[j],
            decreases 1024 - i,
        {
            vals.push(pixels[i]);
            i += 1;
        }
        assert(vals@ =~= pixels@);
        let bm = pack_bitmap(&vals, bdepth);

        let ghost header = out@;
        let mut t: usize = 0;
        while t < bm.len()
            invariant
                t <= bm@.len(),
                out@ == header + bm@.take(t as int),
            decreases bm@.len() - t,
        {
            let byte = bm[t];
            out.push(byte);
            assert(out@ =~= header + bm@.take(t + 1));
            t += 1;
        }
        assert(out@ =~= header + bm@);

        proof {
            assert(spec_bit_depth(out@, 0) == bdepth as nat);
            assert(spec_palette_count(out@, 0) == 0);
            assert(spec_palette(out@, 0) =~= Seq::<u16>::empty());
            assert(spec_canonical_palette(pixels@) =~= Seq::<u16>::empty());
            assert(spec_bitmap(out@, 0) =~= bm@);
            assert(out@.len() == spec_block_size(out@, 0));
            if spec_safe_depth(bdepth as nat) {
                assert forall|i2: int| 0 <= i2 < 1024 implies spec_block_pixel(out@, 0, i2)
                    == pixels@[i2] by {
                    assert(spec_extract(bm@, i2, bdepth as nat) == vals@[i2]);
                }
            }
        }
    }
    out
}

// ---------------------------------------------------------------------------
// Decoder
// ---------------------------------------------------------------------------

/// Decodes the block at `pos` into the 1024 pixel values of one chunk,
/// and returns the values together with the size of the block.
pub fn decode_gdm_block(data: &[u8], pos: usize, chunk_size: usize) -> (r: (Vec<u16>, usize))
    requires
        chunk_size <= 32,
        pos + 2 <= data@.len(),
        pos + spec_block_size(data@, pos as int) <= data@.len(),
    ensures
        r.1 == spec_block_size(data@, pos as int),
        r.0@.len() == chunk_size * chunk_size,
        forall|i: int|
            0 <= i < chunk_size * chunk_size ==> r.0@[i] == spec_block_pixel(
                data@,
                pos as int,
                i,
            ),
{
    let bit_depth = data[pos];
    let palette_count = data[pos + 1] as usize;
    let palette_size = 2 * palette_count;
    let bitmap_size = if bit_depth > 0 {
        (bit_depth as usize) * 128
    } else {
        0
    };
    let block_size = 2 + palette_size + bitmap_size;

    let mut palette: Vec<u16> = Vec::new();
    let mut k: usize = 0;
    while k < palette_count
        invariant
            k <= palette_count,
            palette_count == spec_palette_count(data@, pos as int),
            pos + spec_block_size(data@, pos as int) <= data@.len(),
            pos + 2 <= data@.len(),
            data@.len() <= usize::MAX,
            palette@.len() == k,
            forall|j: int| 0 <= j < k ==> palette@[j] == spec_palette(data@, pos as int)[j],
        decreases palette_count - k,
    {
        assert(pos + 2 + 2 * k + 2 <= pos + 2 + 2 * spec_palette_count(data@, pos as int));
        let e = read_u16_le(data, pos + 2 + k * 2);
        palette.push(e);
        k += 1;
    }

    proof {
        assert(chunk_size * chunk_size <= 1024) by (nonlinear_arith)
            requires
                chunk_size <= 32,
        ;
    }
    let total_pixels = chunk_size * chunk_size;
    let mut pixels: Vec<u16> = Vec::new();

    if bit_depth == 0 {
        let value = if palette.len() > 0 {
            palette[0]
        } else {
            0
        };
        let mut i: usize = 0;
        while i < total_pixels
            invariant
                i <= total_pixels,
                pixels@.len() == i,
                forall|j: int| 0 <= j < i ==> pixels@[j] == value,
            decreases total_pixels - i,
        {
            pixels.push(value);
            i += 1;
        }
    } else {
        let bitmap = vstd::slice::slice_subrange(
            data,
            pos + 2 + palette_size,
            pos + 2 + palette_size + bitmap_size,
        );
        assert(bitmap@ == spec_bitmap(data@, pos as int));
        let bd = bit_depth as usize;
        let mask: u16 = if bit_depth >= 16 {
            0xffff
        } else {
            !(0xffffu16 << (bit_depth as u16))
        };
        assert(mask == spec_mask16(bit_depth as nat));

        let mut i: usize = 0;
        while i < total_pixels
            invariant
                i <= total_pixels <= 1024,
                pixels@.len() == i,
                1 <= bd <= 255,
                bd == bit_depth as usize,
                bd == spec_bit_depth(data@, pos as int),
                bitmap@ == spec_bitmap(data@, pos as int),
                bitmap@.len() == 128 * bd,
                mask == spec_mask16(bd as nat),
                palette@ == spec_palette(data@, pos as int),
                forall|j: int|
                    0 <= j < i ==> pixels@[j] == spec_block_pixel(data@, pos as int, j),
        decreases total_pixels - i,
        {
            proof {
                lemma_field_in_bitmap(i as int, bd as nat);
            }
            let bit_pos = i * bd;
            let byte_idx = bit_pos / 8;
            let bit_offset = bit_pos % 8;

            let b0 = bitmap[byte_idx] as u16;
            let raw_value: u16;
            if byte_idx + 1 < bitmap.len() {
                let b1 = bitmap[byte_idx + 1] as u16;
                let sh = b1 << 8u16;
                raw_value = b0 | sh;
                assert(sh == ((bitmap@[byte_idx as int + 1] as u16) << 8u16));
                assert(raw_value == ((bitmap@[byte_idx as int] as u16) | ((bitmap@[byte_idx as int
                    + 1] as u16) << 8u16)));
            } else {
                raw_value = b0;
            }
            assert(byte_idx == (i as int * bd as int) / 8);
            assert(bit_offset == (i as int * bd as int) % 8);
            let idx_or_value = (raw_value >> (bit_offset as u16)) & mask;
            assert(idx_or_value == spec_extract(bitmap@, i as int, bd as nat));

            let pixel_value = if bit_depth <= 2 && palette.len() > 0 {
                if (idx_or_value as usize) < palette.len() {
                    palette[idx_or_value as usize]
                } else {
                    0
                }
            } else {
                idx_or_value
            };
            pixels.push(pixel_value);
            i += 1;
        }
    }
    (pixels, block_size)
}

} // verus!
