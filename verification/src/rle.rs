//! The run-length byte stream of the 8-bit layer format.
//!
//! The payload starts with one literal zero byte. The decoder walks pairs of
//! adjacent bytes: an equal pair starts a run (a variable-length count
//! follows, biased by two), an unequal pair is a transition that emits one
//! pixel and rewinds the cursor by one so the second byte is read again.

use vstd::prelude::*;

verus! {

// ---------------------------------------------------------------------------
// Decoder model
// ---------------------------------------------------------------------------

/// Reads a run count at position `j`: every `0xff` byte contributes 255, the
/// first other byte contributes its own value and ends the count. Returns the
/// accumulated count and the position after the count.
pub open spec fn spec_run_count(d: Seq<u8>, j: int) -> (nat, int)
    decreases d.len() - j,
{
    if 0 <= j < d.len() {
        if d[j] == 0xff {
            let (c, j2) = spec_run_count(d, j + 1);
            ((c + 255) as nat, j2)
        } else {
            (d[j] as nat, j + 1)
        }
    } else {
        (0, j)
    }
}

/// One pass of the decoder from cursor `i` with `out` already emitted:
/// stops when fewer than two bytes remain or `expected` pixels are out.
pub open spec fn spec_rle_decode_loop(d: Seq<u8>, i: int, out: Seq<u8>, expected: nat) -> Seq<u8>
    decreases d.len() - i,
    via spec_rle_decode_loop_dec
{
    if !(0 <= i && i + 1 < d.len() && out.len() < expected) {
        out
    } else {
        let prev = d[i];
        if prev == d[i + 1] {
            let (c, j) = spec_run_count(d, i + 2);
            let total = (c + 2) as nat;
            let emit = if total < expected - out.len() {
                total
            } else {
                (expected - out.len()) as nat
            };
            spec_rle_decode_loop(d, j, out + Seq::new(emit, |k: int| prev), expected)
        } else {
            spec_rle_decode_loop(d, i + 1, out.push(prev), expected)
        }
    }
}

#[via_fn]
proof fn spec_rle_decode_loop_dec(d: Seq<u8>, i: int, out: Seq<u8>, expected: nat) {
    if 0 <= i && i + 1 < d.len() && out.len() < expected {
        lemma_run_count_advances(d, i + 2);
    }
}

/// Reading a run count never moves the cursor backwards.
pub proof fn lemma_run_count_advances(d: Seq<u8>, j: int)
    ensures
        spec_run_count(d, j).1 >= j,
        spec_run_count(d, j).1 <= d.len() || spec_run_count(d, j).1 == j,
    decreases d.len() - j,
{
    if 0 <= j < d.len() && d[j] == 0xff {
        lemma_run_count_advances(d, j + 1);
    }
}

/// The decoded pixels of payload `d`: the pass starts after the leading
/// zero byte, and whatever is missing at the end is filled with zeroes.
pub open spec fn spec_rle_decode(d: Seq<u8>, expected: nat) -> Seq<u8> {
    let core = spec_rle_decode_loop(d, 1, Seq::empty(), expected);
    core + Seq::new((expected - core.len()) as nat, |k: int| 0u8)
}

// ---------------------------------------------------------------------------
// Encoder model
// ---------------------------------------------------------------------------

/// Length of the maximal run of equal bytes starting at `i`.
pub open spec fn spec_run_len_at(p: Seq<u8>, i: int) -> nat
    decreases p.len() - i,
{
    if 0 <= i && i + 1 < p.len() && p[i + 1] == p[i] {
        (1 + spec_run_len_at(p, i + 1)) as nat
    } else {
        1
    }
}

/// The count bytes of a run: one `0xff` for each full 255, then the rest.
pub open spec fn spec_run_count_bytes(rem: nat) -> Seq<u8>
    decreases rem,
{
    if rem >= 255 {
        seq![0xffu8] + spec_run_count_bytes((rem - 255) as nat)
    } else {
        seq![rem as u8]
    }
}

/// The encoded events for the pixels from position `i` on: a run of length
/// `r >= 2` becomes the value twice plus the count bytes of `r - 2`; a
/// singleton becomes the bare value.
pub open spec fn spec_rle_encode_body(p: Seq<u8>, i: int) -> Seq<u8>
    decreases p.len() - i,
    via spec_rle_encode_body_dec
{
    if !(0 <= i < p.len()) {
        Seq::empty()
    } else {
        let r = spec_run_len_at(p, i);
        if r >= 2 {
            seq![p[i], p[i]] + spec_run_count_bytes((r - 2) as nat) + spec_rle_encode_body(
                p,
                i + r,
            )
        } else {
            seq![p[i]] + spec_rle_encode_body(p, i + 1)
        }
    }
}

#[via_fn]
proof fn spec_rle_encode_body_dec(p: Seq<u8>, i: int) {
    if 0 <= i < p.len() {
        lemma_run_len_at_bounds(p, i);
    }
}

/// The whole payload: the leading zero byte, the events, and — only for a
/// single-pixel buffer — the value again plus one zero byte, so that the
/// decoder can read a full pair.
pub open spec fn spec_rle_encode(p: Seq<u8>) -> Seq<u8> {
    let stream = seq![0u8] + spec_rle_encode_body(p, 0);
    if stream.len() == 2 {
        stream + seq![stream[1], 0u8]
    } else {
        stream
    }
}

// ---------------------------------------------------------------------------
// Facts about runs
// ---------------------------------------------------------------------------

/// A maximal run is nonempty, stays in bounds, holds one repeated value, and
/// is followed by a different byte (or the end).
pub proof fn lemma_run_len_at_bounds(p: Seq<u8>, i: int)
    requires
        0 <= i < p.len(),
    ensures
        1 <= spec_run_len_at(p, i) <= p.len() - i,
        forall|k: int| i <= k < i + spec_run_len_at(p, i) ==> p[k] == p[i],
        i + spec_run_len_at(p, i) < p.len() ==> p[i + spec_run_len_at(p, i)] != p[i],
    decreases p.len() - i,
{
    if i + 1 < p.len() && p[i + 1] == p[i] {
        lemma_run_len_at_bounds(p, i + 1);
    }
}

/// A stretch of equal bytes that a different byte (or the end) closes is
/// exactly the maximal run.
pub proof fn lemma_run_len_at_eq(p: Seq<u8>, i: int, m: nat)
    requires
        0 <= i,
        m >= 1,
        i + m <= p.len(),
        forall|k: int| i <= k < i + m ==> p[k] == p[i],
        i + m < p.len() ==> p[i + m] != p[i],
    ensures
        spec_run_len_at(p, i) == m,
    decreases m,
{
    if m == 1 {
    } else {
        assert(p[i + 1] == p[i]);
        lemma_run_len_at_eq(p, i + 1, (m - 1) as nat);
    }
}

// ---------------------------------------------------------------------------
// The encoding laws
// ---------------------------------------------------------------------------

/// The count bytes of a run remainder are one byte per full 255 plus one.
pub proof fn lemma_run_count_bytes_len(rem: nat)
    ensures
        spec_run_count_bytes(rem).len() == 1 + rem / 255,
    decreases rem,
{
    if rem >= 255 {
        lemma_run_count_bytes_len((rem - 255) as nat);
        vstd::arithmetic::div_mod::lemma_div_plus_one((rem - 255) as int, 255);
    } else {
        vstd::arithmetic::div_mod::lemma_basic_div(rem as int, 255);
    }
}

/// A maximal run of length `r >= 2` costs exactly `2 + (r-2)/255 + 1`
/// payload bytes: the value twice, the full-count bytes, one remainder byte.
pub proof fn lemma_run_byte_count(p: Seq<u8>, i: int)
    requires
        0 <= i < p.len(),
        spec_run_len_at(p, i) >= 2,
    ensures
        spec_rle_encode_body(p, i).len() == 3 + (spec_run_len_at(p, i) - 2) / 255
            + spec_rle_encode_body(p, i + spec_run_len_at(p, i)).len(),
{
    lemma_run_count_bytes_len((spec_run_len_at(p, i) - 2) as nat);
}

/// Every event sequence starts with the pixel value it is about.
proof fn lemma_encode_body_first(p: Seq<u8>, i: int)
    requires
        0 <= i < p.len(),
    ensures
        spec_rle_encode_body(p, i).len() >= 1,
        spec_rle_encode_body(p, i)[0] == p[i],
{
}

/// Reading a run count over exactly the bytes `spec_run_count_bytes(rem)`
/// recovers `rem` and stops right after them.
proof fn lemma_run_count_reads_bytes(d: Seq<u8>, j: int, rem: nat)
    requires
        0 <= j,
        j + spec_run_count_bytes(rem).len() <= d.len(),
        d.subrange(j, j + spec_run_count_bytes(rem).len() as int) == spec_run_count_bytes(rem),
    ensures
        spec_run_count(d, j) == (rem, j + spec_run_count_bytes(rem).len() as int),
    decreases rem,
{
    let cb = spec_run_count_bytes(rem);
    assert(d[j] == cb[0]);
    if rem >= 255 {
        let cb2 = spec_run_count_bytes((rem - 255) as nat);
        assert(d[j] == 0xff);
        assert forall|k: int| 0 <= k < cb2.len() implies d[j + 1 + k] == cb2[k] by {
            assert(d.subrange(j, j + cb.len() as int)[k + 1] == d[j + 1 + k]);
            assert(cb[k + 1] == cb2[k]);
        }
        assert(d.subrange(j + 1, j + 1 + cb2.len() as int) =~= cb2);
        lemma_run_count_reads_bytes(d, j + 1, (rem - 255) as nat);
    } else {
        assert(d[j] == rem as u8);
        assert(d[j] != 0xff);
    }
}

/// Zero-fill a pixel buffer up to `n` entries.
pub open spec fn spec_pad(s: Seq<u8>, n: nat) -> Seq<u8> {
    if s.len() >= n {
        s
    } else {
        s + Seq::new((n - s.len()) as nat, |k: int| 0u8)
    }
}

/// The inputs on which decoding undoes encoding: everything except a buffer
/// that ends with a nonzero singleton, whose final pixel the decoder cannot
/// reach because no byte follows it in the payload.
pub open spec fn spec_rle_tail_ok(p: Seq<u8>) -> bool {
    p.len() <= 1 || p[p.len() - 1] == p[p.len() - 2] || p[p.len() - 1] == 0
}

/// Decoding the encoded events of `p[i..]`, placed after any already-consumed
/// prefix, appends exactly `p[i..]` to the pixels already out.
proof fn lemma_decode_encoded_suffix(p: Seq<u8>, pre: Seq<u8>, i: int, out: Seq<u8>)
    requires
        p.len() >= 2,
        0 <= i <= p.len(),
        out.len() == i,
        spec_rle_tail_ok(p),
        i == 0 || i == p.len() || p[i] != p[i - 1],
    ensures
        ({
            let d = pre + spec_rle_encode_body(p, i);
            spec_pad(
                spec_rle_decode_loop(d, pre.len() as int, out, p.len() as nat),
                p.len() as nat,
            ) == out + p.skip(i)
        }),
    decreases p.len() - i,
{
    let d = pre + spec_rle_encode_body(p, i);
    let c = pre.len() as int;
    if i == p.len() {
        assert(d =~= pre);
        assert(spec_rle_decode_loop(d, c, out, p.len() as nat) == out);
        assert(out + p.skip(i) =~= out);
    } else {
        lemma_run_len_at_bounds(p, i);
        let r = spec_run_len_at(p, i) as int;
        let v = p[i];
        let body = spec_rle_encode_body(p, i);
        if r >= 2 {
            let cb = spec_run_count_bytes((r - 2) as nat);
            let rest = spec_rle_encode_body(p, i + r);
            assert(body == seq![v, v] + cb + rest);
            assert(d[c] == v && d[c + 1] == v);
            assert(c + 1 < d.len());
            assert(out.len() < p.len());
            assert(d.subrange(c + 2, c + 2 + cb.len() as int) =~= cb);
            lemma_run_count_reads_bytes(d, c + 2, (r - 2) as nat);
            let (cnt, j) = spec_run_count(d, c + 2);
            assert(cnt == r - 2 && j == c + 2 + cb.len());
            let emit = if ((cnt + 2) as nat) < p.len() - out.len() {
                (cnt + 2) as nat
            } else {
                (p.len() - out.len()) as nat
            };
            assert(emit == r);
            let out2 = out + Seq::new(r as nat, |k: int| v);
            assert(spec_rle_decode_loop(d, c, out, p.len() as nat) == spec_rle_decode_loop(
                d,
                j,
                out2,
                p.len() as nat,
            ));
            let pre2 = pre + seq![v, v] + cb;
            assert(d =~= pre2 + rest);
            assert(pre2.len() == j);
            assert(out2 =~= out + p.subrange(i, i + r));
            if i + r < p.len() {
                assert(p[i + r] != p[i + r - 1]);
            }
            lemma_decode_encoded_suffix(p, pre2, i + r, out2);
            assert(out2 + p.skip(i + r) =~= out + p.skip(i));
        } else {
            assert(r == 1);
            if i == p.len() - 1 {
                // The final pixel stands alone: its byte is the last of the
                // payload, so the decoder stops and zero-fill finishes.
                assert(p[i] != p[i - 1]);
                assert(p[p.len() - 1] == 0);
                assert(spec_rle_encode_body(p, i + 1) =~= Seq::<u8>::empty());
                assert(body =~= seq![v]);
                assert(d.len() == c + 1);
                assert(spec_rle_decode_loop(d, c, out, p.len() as nat) == out);
                assert(out.len() < p.len());
                assert(spec_pad(out, p.len() as nat) =~= out + Seq::new(1, |k: int| 0u8));
                assert(p.skip(i) =~= seq![p[p.len() - 1]]);
                assert(out + p.skip(i) =~= out + Seq::new(1, |k: int| 0u8));
            } else {
                assert(i + 1 < p.len());
                assert(p[i + 1] != v);
                let rest = spec_rle_encode_body(p, i + 1);
                assert(body == seq![v] + rest);
                lemma_encode_body_first(p, i + 1);
                assert(d[c] == v);
                assert(d[c + 1] == rest[0]);
                assert(d[c + 1] == p[i + 1]);
                assert(c + 1 < d.len());
                assert(out.len() < p.len());
                let out2 = out.push(v);
                assert(spec_rle_decode_loop(d, c, out, p.len() as nat) == spec_rle_decode_loop(
                    d,
                    c + 1,
                    out2,
                    p.len() as nat,
                ));
                let pre2 = pre + seq![v];
                assert(d =~= pre2 + rest);
                assert(pre2.len() == c + 1);
                lemma_decode_encoded_suffix(p, pre2, i + 1, out2);
                assert(out2 + p.skip(i + 1) =~= out + p.skip(i));
            }
        }
    }
}

/// Round trip: decoding an encoded pixel buffer gives the buffer back, for
/// every buffer whose final pixel the stream grammar can carry — every buffer
/// that does not end with a nonzero singleton.
pub proof fn lemma_rle_round_trip(p: Seq<u8>)
    requires
        spec_rle_tail_ok(p),
    ensures
        spec_rle_decode(spec_rle_encode(p), p.len() as nat) == p,
    decreases p.len(),
{
    let e = spec_rle_encode(p);
    if p.len() == 0 {
        assert(spec_rle_encode_body(p, 0) =~= Seq::<u8>::empty());
        assert(e =~= seq![0u8]);
        assert(spec_rle_decode_loop(e, 1, Seq::empty(), 0) == Seq::<u8>::empty());
        assert(spec_rle_decode(e, 0) =~= p);
    } else if p.len() == 1 {
        let v = p[0];
        assert(spec_run_len_at(p, 0) == 1);
        assert(spec_rle_encode_body(p, 1) =~= Seq::<u8>::empty());
        assert(spec_rle_encode_body(p, 0) =~= seq![v]);
        let stream = seq![0u8] + spec_rle_encode_body(p, 0);
        assert(stream.len() == 2);
        assert(e =~= seq![0u8, v, v, 0u8]);
        assert(e[1] == v && e[2] == v && e[3] == 0);
        assert(spec_run_count(e, 3) == (0nat, 4int));
        let emit = 1nat;
        let out2 = Seq::<u8>::empty() + Seq::new(emit, |k: int| v);
        assert(spec_rle_decode_loop(e, 1, Seq::empty(), 1) == spec_rle_decode_loop(e, 4, out2, 1));
        assert(spec_rle_decode_loop(e, 4, out2, 1) == out2);
        assert(out2 =~= p);
        assert(spec_rle_decode(e, 1) =~= p);
    } else {
        let body = spec_rle_encode_body(p, 0);
        lemma_run_len_at_bounds(p, 0);
        let r = spec_run_len_at(p, 0) as int;
        if r >= 2 {
            assert(body.len() >= 3);
        } else {
            lemma_encode_body_first(p, 1);
            assert(body == seq![p[0]] + spec_rle_encode_body(p, 1));
            assert(body.len() >= 2);
        }
        let stream = seq![0u8] + body;
        assert(stream.len() != 2);
        assert(e == stream);
        lemma_decode_encoded_suffix(p, seq![0u8], 0, Seq::empty());
        let core = spec_rle_decode_loop(e, 1, Seq::empty(), p.len() as nat);
        assert(spec_pad(core, p.len() as nat) == Seq::<u8>::empty() + p.skip(0));
        assert(Seq::<u8>::empty() + p.skip(0) =~= p);
        if core.len() >= p.len() {
            assert(core == p);
            assert(spec_rle_decode(e, p.len() as nat) =~= p);
        } else {
            assert(spec_rle_decode(e, p.len() as nat) =~= spec_pad(core, p.len() as nat));
        }
    }
}

// ---------------------------------------------------------------------------
// Executable decoder
// ---------------------------------------------------------------------------

/// Decodes a run-length payload into exactly `expected_size` pixels,
/// zero-filling whatever the payload does not cover.
pub fn decode_grle_rle(data: &[u8], expected_size: usize) -> (out: Vec<u8>)
    ensures
        out@ == spec_rle_decode(data@, expected_size as nat),
        out@.len() == expected_size,
{
    let d = Ghost(data@);
    let mut out: Vec<u8> = Vec::new();
    let mut i: usize = 1;

    while i < data.len() && i + 1 < data.len() && out.len() < expected_size
        invariant
            1 <= i <= data@.len() + 1,
            out@.len() <= expected_size,
            spec_rle_decode_loop(d@, i as int, out@, expected_size as nat)
                == spec_rle_decode_loop(d@, 1, Seq::empty(), expected_size as nat),
            d@ == data@,
        decreases data@.len() - i,
    {
        let ghost i0 = i as int;
        let ghost out0 = out@;
        let prev = data[i];
        let next_val = data[i + 1];
        i += 2;

        if prev == next_val {
            let ghost j0 = i as int;
            let mut count: u128 = 0;
            while i < data.len() && data[i] == 0xff
                invariant
                    j0 <= i <= data@.len(),
                    d@ == data@,
                    count == 255 * (i - j0),
                    spec_run_count(d@, j0) == ((count + spec_run_count(d@, i as int).0) as nat,
                        spec_run_count(d@, i as int).1),
                decreases data@.len() - i,
            {
                count += 255;
                i += 1;
            }
            if i < data.len() {
                count += data[i] as u128;
                i += 1;
                assert(spec_run_count(d@, j0) == (count as nat, i as int));
            } else {
                assert(spec_run_count(d@, j0) == (count as nat, i as int));
            }

            let total: u128 = count + 2;
            let remaining: usize = expected_size - out.len();
            let to_emit: usize = if total < remaining as u128 {
                total as usize
            } else {
                remaining
            };
            let ghost out_mid = out@;
            let mut k: usize = 0;
            while k < to_emit
                invariant
                    k <= to_emit,
                    out@ == out_mid + Seq::new(k as nat, |q: int| prev),
                decreases to_emit - k,
            {
                out.push(prev);
                assert(out@ =~= out_mid + Seq::new((k + 1) as nat, |q: int| prev));
                k += 1;
            }
            proof {
                let (c, j) = spec_run_count(d@, i0 + 2);
                assert(c == count && j == i as int);
                let emit = if ((c + 2) as nat) < expected_size - out0.len() {
                    (c + 2) as nat
                } else {
                    (expected_size - out0.len()) as nat
                };
                assert(to_emit as nat == emit);
                assert(out@ =~= out0 + Seq::new(emit, |q: int| prev));
            }
        } else {
            out.push(prev);
            i -= 1;
            assert(out@ =~= out0.push(prev));
        }
        proof {
            assert(spec_rle_decode_loop(d@, i0, out0, expected_size as nat)
                == spec_rle_decode_loop(d@, i as int, out@, expected_size as nat));
        }
    }

    proof {
        assert(spec_rle_decode_loop(d@, i as int, out@, expected_size as nat) == out@);
    }
    let ghost core = out@;
    while out.len() < expected_size
        invariant
            core.len() <= out@.len() <= expected_size,
            out@ == core + Seq::new((out@.len() - core.len()) as nat, |q: int| 0u8),
        decreases expected_size - out@.len(),
    {
        out.push(0);
        assert(out@ =~= core + Seq::new((out@.len() - core.len()) as nat, |q: int| 0u8));
    }
    assert(out@ =~= spec_rle_decode(data@, expected_size as nat));
    out
}

// ---------------------------------------------------------------------------
// Executable encoder
// ---------------------------------------------------------------------------

/// Encodes a pixel buffer as a run-length payload, leading zero included.
pub fn encode_grle_rle(pixels: &[u8]) -> (out: Vec<u8>)
    ensures
        out@ == spec_rle_encode(pixels@),
{
    let p = Ghost(pixels@);
    let ghost full = seq![0u8] + spec_rle_encode_body(p@, 0);
    let mut out: Vec<u8> = Vec::new();
    out.push(0);

    let mut i: usize = 0;
    while i < pixels.len()
        invariant
            i <= pixels@.len(),
            p@ == pixels@,
            full == seq![0u8] + spec_rle_encode_body(p@, 0),
            out@ + spec_rle_encode_body(p@, i as int) == full,
        decreases pixels@.len() - i,
    {
        let ghost out0 = out@;
        let value = pixels[i];

        let mut run_len: usize = 1;
        while run_len < pixels.len() - i && pixels[i + run_len] == value
            invariant
                1 <= run_len,
                i + run_len <= pixels@.len(),
                p@ == pixels@,
                i < pixels@.len(),
                value == p@[i as int],
                forall|k: int| i <= k < i + run_len ==> p@[k] == value,
            decreases pixels@.len() - i - run_len,
        {
            run_len += 1;
        }
        proof {
            lemma_run_len_at_eq(p@, i as int, run_len as nat);
        }

        if run_len >= 2 {
            out.push(value);
            out.push(value);
            let ghost rest = spec_rle_encode_body(p@, i + run_len);
            assert(out@ + spec_run_count_bytes((run_len - 2) as nat) + rest =~= full);

            let mut remaining: usize = run_len - 2;
            while remaining >= 255
                invariant
                    out@ + spec_run_count_bytes(remaining as nat) + rest == full,
                decreases remaining,
            {
                out.push(0xff);
                assert(out@ + spec_run_count_bytes((remaining - 255) as nat) + rest =~= full);
                remaining -= 255;
            }
            out.push(remaining as u8);
            assert(out@ + rest =~= full);
            i += run_len;
        } else {
            out.push(value);
            assert(out@ + spec_rle_encode_body(p@, i + 1) =~= full);
            i += 1;
        }
    }
    assert(out@ =~= full);

    if out.len() == 2 {
        let v = out[1];
        out.push(v);
        out.push(0);
        assert(out@ =~= spec_rle_encode(p@));
    }
    out
}

} // verus!
