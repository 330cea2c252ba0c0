//! Byte-level text scanning: substring search, line splitting, decimal
//! parsing and ASCII case mapping, with exact specifications.

use vstd::prelude::*;

verus! {

// ---------------------------------------------------------------------------
// Substring search
// ---------------------------------------------------------------------------

/// `n` occurs in `h` at position `j`.
pub open spec fn spec_match_at(h: Seq<u8>, n: Seq<u8>, j: int) -> bool {
    0 <= j && j + n.len() <= h.len() && h.subrange(j, j + n.len() as int) == n
}

/// The first position where `n` occurs in `h`, if any.
pub open spec fn spec_find(h: Seq<u8>, n: Seq<u8>) -> Option<int>
    decreases h.len(),
{
    if n.len() > h.len() {
        Option::None
    } else if h.subrange(0, n.len() as int) == n {
        Option::Some(0)
    } else if h.len() == 0 {
        Option::None
    } else {
        match spec_find(h.skip(1), n) {
            Option::Some(i) => Option::Some(i + 1),
            Option::None => Option::None,
        }
    }
}

/// `h` contains `n` somewhere.
pub open spec fn spec_contains(h: Seq<u8>, n: Seq<u8>) -> bool {
    spec_find(h, n) is Some
}

/// What `spec_find` returns: the first match, or nothing when there is no
/// match at all.
pub proof fn lemma_find_props(h: Seq<u8>, n: Seq<u8>)
    ensures
        match spec_find(h, n) {
            Option::Some(i) => spec_match_at(h, n, i) && forall|j: int|
                0 <= j < i ==> !spec_match_at(h, n, j),
            Option::None => forall|j: int| !spec_match_at(h, n, j),
        },
    decreases h.len(),
{
    if n.len() > h.len() {
        assert forall|j: int| !spec_match_at(h, n, j) by {}
    } else if h.subrange(0, n.len() as int) == n {
    } else if h.len() == 0 {
        assert(h.subrange(0, n.len() as int) =~= n);
    } else {
        lemma_find_props(h.skip(1), n);
        assert forall|j: int| 1 <= j implies (spec_match_at(h, n, j) <==> spec_match_at(
            h.skip(1),
            n,
            j - 1,
        )) by {
            if j + n.len() <= h.len() {
                assert(h.subrange(j, j + n.len() as int) =~= h.skip(1).subrange(
                    j - 1,
                    j - 1 + n.len() as int,
                ));
            }
        }
        match spec_find(h.skip(1), n) {
            Option::Some(i) => {
                assert(spec_match_at(h.skip(1), n, i));
                assert(spec_match_at(h, n, i + 1));
                assert forall|j: int| 0 <= j < i + 1 implies !spec_match_at(h, n, j) by {
                    if j == 0 {
                        if spec_match_at(h, n, 0) {
                            assert(h.subrange(0, n.len() as int) == n);
                        }
                    }
                }
            },
            Option::None => {
                assert forall|j: int| !spec_match_at(h, n, j) by {
                    if j == 0 && spec_match_at(h, n, 0) {
                        assert(h.subrange(0, n.len() as int) == n);
                    }
                }
            },
        }
    }
}

/// Whether two byte slices hold the same bytes.
fn bytes_eq(a: &[u8], b: &[u8]) -> (r: bool)
    ensures
        r <==> a@ == b@,
{
    if a.len() != b.len() {
        assert(a@.len() != b@.len());
        return false;
    }
    let mut i: usize = 0;
    while i < a.len()
        invariant
            i <= a@.len(),
            a@.len() == b@.len(),
            forall|j: int| 0 <= j < i ==> a@[j] == b@[j],
        decreases a@.len() - i,
    {
        if a[i] != b[i] {
            return false;
        }
        i += 1;
    }
    assert(a@ =~= b@);
    true
}

/// The first occurrence of `n` in `h`, byte for byte.
pub fn find_sub(h: &[u8], n: &[u8]) -> (r: Option<usize>)
    ensures
        r matches Some(i) ==> spec_find(h@, n@) == Option::Some(i as int),
        r is None ==> spec_find(h@, n@) is None,
{
    proof {
        lemma_find_props(h@, n@);
    }
    if n.len() > h.len() {
        return None;
    }
    if n.len() == 0 {
        assert(h@.subrange(0, 0) =~= n@);
        return Some(0);
    }
    let last = h.len() - n.len();
    let mut i: usize = 0;
    while i <= last
        invariant
            i <= last + 1,
            last == h@.len() - n@.len(),
            1 <= n@.len() <= h@.len(),
            h@.len() <= usize::MAX,
            forall|j: int| 0 <= j < i ==> !spec_match_at(h@, n@, j),
        decreases last + 1 - i,
    {
        let w = vstd::slice::slice_subrange(h, i, i + n.len());
        if bytes_eq(w, n) {
            proof {
                assert(spec_match_at(h@, n@, i as int));
                lemma_find_props(h@, n@);
                match spec_find(h@, n@) {
                    Option::Some(f) => {
                        if f < i {
                        } else if f > i {
                            assert(!spec_match_at(h@, n@, i as int));
                        }
                    },
                    Option::None => {
                        assert(!spec_match_at(h@, n@, i as int));
                    },
                }
            }
            return Some(i);
        }
        i += 1;
    }
    proof {
        lemma_find_props(h@, n@);
        match spec_find(h@, n@) {
            Option::Some(f) => {
                assert(spec_match_at(h@, n@, f));
            },
            Option::None => {},
        }
    }
    None
}

/// Whether `h` contains `n`.
pub fn contains_sub(h: &[u8], n: &[u8]) -> (r: bool)
    ensures
        r == spec_contains(h@, n@),
{
    match find_sub(h, n) {
        Some(_) => true,
        None => false,
    }
}

// ---------------------------------------------------------------------------
// Lines
// ---------------------------------------------------------------------------

/// Drops one carriage return before a line feed, as text lines do.
pub open spec fn spec_strip_cr(l: Seq<u8>) -> Seq<u8> {
    if l.len() > 0 && l.last() == 13 {
        l.drop_last()
    } else {
        l
    }
}

/// The lines of a byte text: split at every line feed, one carriage return
/// stripped before each split, no empty final line after a trailing feed.
pub open spec fn spec_lines(b: Seq<u8>) -> Seq<Seq<u8>>
    decreases b.len(),
    via spec_lines_dec
{
    if b.len() == 0 {
        Seq::empty()
    } else {
        match spec_find(b, seq![10u8]) {
            Option::Some(i) => seq![spec_strip_cr(b.subrange(0, i))] + spec_lines(b.skip(i + 1)),
            Option::None => seq![b],
        }
    }
}

#[via_fn]
proof fn spec_lines_dec(b: Seq<u8>) {
    if b.len() > 0 {
        lemma_find_props(b, seq![10u8]);
    }
}

/// Splits a byte text into its lines.
pub fn split_lines(b: &[u8]) -> (r: Vec<Vec<u8>>)
    ensures
        r@.len() == spec_lines(b@).len(),
        forall|i: int| 0 <= i < r@.len() ==> r@[i]@ == spec_lines(b@)[i],
{
    let mut nl: Vec<u8> = Vec::new();
    nl.push(10);
    assert(nl@ =~= seq![10u8]);

    let mut out: Vec<Vec<u8>> = Vec::new();
    let mut pos: usize = 0;
    proof {
        assert(b@.skip(0) =~= b@);
    }
    while pos < b.len()
        invariant
            pos <= b@.len(),
            nl@ == seq![10u8],
            spec_lines(b@).len() == out@.len() + spec_lines(b@.skip(pos as int)).len(),
            forall|i: int| 0 <= i < out@.len() ==> r_line(out@, i) == spec_lines(b@)[i],
            forall|i: int|
                0 <= i < spec_lines(b@.skip(pos as int)).len() ==> spec_lines(b@.skip(pos as int))[i]
                    == spec_lines(b@)[out@.len() + i],
        decreases b@.len() - pos,
    {
        let rest = vstd::slice::slice_subrange(b, pos, b.len());
        let ghost rests = b@.skip(pos as int);
        assert(rest@ == rests);
        proof {
            lemma_find_props(rests, seq![10u8]);
        }
        let found = find_sub(rest, nl.as_slice());
        let (line_end, next_pos): (usize, usize) = match found {
            Some(i) => (pos + i, pos + i + 1),
            None => (b.len(), b.len()),
        };
        let mut stop = line_end;
        if matches!(found, Some(_)) && stop > pos && b[stop - 1] == 13 {
            stop = stop - 1;
        }
        let mut line: Vec<u8> = Vec::new();
        let mut q: usize = pos;
        while q < stop
            invariant
                pos <= q <= stop <= b@.len(),
                line@.len() == q - pos,
                forall|j: int| 0 <= j < line@.len() ==> line@[j] == b@[pos + j],
            decreases stop - q,
        {
            let byte = b[q];
            line.push(byte);
            q += 1;
        }
        let ghost tail = spec_lines(b@.skip(next_pos as int));
        proof {
            match found {
                Some(i) => {
                    assert(spec_find(rests, seq![10u8]) == Option::Some(i as int));
                    let raw = rests.subrange(0, i as int);
                    assert(line@ =~= spec_strip_cr(raw)) by {
                        assert(raw =~= b@.subrange(pos as int, line_end as int));
                        if raw.len() > 0 && raw.last() == 13 {
                            assert(b@[line_end - 1] == 13);
                            assert(line@ =~= raw.drop_last());
                        } else {
                            if line_end > pos {
                                assert(b@[line_end - 1] == raw.last());
                            }
                            assert(line@ =~= raw);
                        }
                    }
                    assert(rests.skip(i + 1) =~= b@.skip(next_pos as int));
                    assert(spec_lines(rests) == seq![spec_strip_cr(raw)] + spec_lines(
                        rests.skip(i + 1),
                    ));
                    assert(spec_lines(rests) =~= seq![line@] + tail);
                },
                None => {
                    assert(spec_find(rests, seq![10u8]) is None);
                    assert(line@ =~= rests);
                    assert(b@.skip(next_pos as int) =~= Seq::<u8>::empty());
                    assert(tail =~= Seq::<Seq<u8>>::empty());
                    assert(spec_lines(rests) =~= seq![line@] + tail);
                },
            }
        }
        let ghost n0 = out@.len() as int;
        let ghost out0 = out@;
        out.push(line);
        pos = next_pos;
        proof {
            assert(out@ == out0.push(line));
            assert(spec_lines(rests).len() == 1 + tail.len());
            assert(spec_lines(b@).len() == out@.len() + tail.len());
            assert forall|i: int| 0 <= i < out@.len() implies r_line(out@, i) == spec_lines(
                b@,
            )[i] by {
                if i < n0 {
                    assert(out@[i] == out0[i]);
                    assert(r_line(out0, i) == spec_lines(b@)[i]);
                } else {
                    assert(out@[i]@ == line@);
                    assert(spec_lines(rests)[0] == line@);
                    assert(spec_lines(rests)[0] == spec_lines(b@)[n0]);
                }
            }
            assert forall|i: int| 0 <= i < tail.len() implies tail[i] == spec_lines(b@)[out@.len()
                + i] by {
                assert(spec_lines(rests)[i + 1] == tail[i]);
                assert(spec_lines(rests)[i + 1] == spec_lines(b@)[n0 + i + 1]);
            }
        }
    }
    proof {
        assert(b@.skip(pos as int) =~= Seq::<u8>::empty());
        assert(spec_lines(b@.skip(pos as int)).len() == 0);
        assert forall|i: int| 0 <= i < out@.len() implies out@[i]@ == spec_lines(b@)[i] by {
            assert(r_line(out@, i) == spec_lines(b@)[i]);
        }
    }
    out
}

/// The bytes of line `i` of a split text.
pub open spec fn r_line(ls: Seq<Vec<u8>>, i: int) -> Seq<u8> {
    ls[i]@
}

// ---------------------------------------------------------------------------
// Decimal parsing
// ---------------------------------------------------------------------------

/// Every byte is an ASCII digit, and there is at least one.
pub open spec fn spec_all_digits(b: Seq<u8>) -> bool {
    b.len() >= 1 && forall|i: int| 0 <= i < b.len() ==> 48 <= #[trigger] b[i] <= 57
}

/// The number an ASCII digit string denotes.
pub open spec fn spec_dec_value(b: Seq<u8>) -> nat
    decreases b.len(),
{
    if b.len() == 0 {
        0
    } else {
        (spec_dec_value(b.drop_last()) * 10 + (b.last() - 48)) as nat
    }
}

/// What parsing an unsigned decimal returns: an optional leading plus sign,
/// then digits only, and a value within `max`.
pub open spec fn spec_parse_dec(b: Seq<u8>, max: nat) -> Option<nat> {
    let body = if b.len() >= 1 && b[0] == 43 {
        b.skip(1)
    } else {
        b
    };
    if spec_all_digits(body) && spec_dec_value(body) <= max {
        Option::Some(spec_dec_value(body))
    } else {
        Option::None
    }
}

/// A digit string is worth at least any of its prefixes.
proof fn lemma_dec_value_monotone(b: Seq<u8>, i: int)
    requires
        0 <= i <= b.len(),
        forall|j: int| 0 <= j < b.len() ==> 48 <= #[trigger] b[j],
    ensures
        spec_dec_value(b.take(i)) <= spec_dec_value(b),
    decreases b.len() - i,
{
    if i < b.len() {
        lemma_dec_value_monotone(b, i + 1);
        assert(b.take(i + 1).drop_last() =~= b.take(i));
        let v = spec_dec_value(b.take(i));
        assert(v <= v * 10) by (nonlinear_arith)
            requires
                v >= 0,
        ;
        assert(spec_dec_value(b.take(i + 1)) == v * 10 + (b.take(i + 1).last() - 48));
    } else {
        assert(b.take(i) =~= b);
    }
}

/// Parses an unsigned decimal with an optional leading plus, rejecting
/// stray characters and values above `max`.
pub fn parse_dec(b: &[u8], max: u64) -> (r: Option<u64>)
    ensures
        match spec_parse_dec(b@, max as nat) {
            Option::Some(v) => r matches Some(x) && x == v,
            Option::None => r is None,
        },
{
    let start: usize = if b.len() >= 1 && b[0] == 43 {
        1
    } else {
        0
    };
    let ghost body = if b@.len() >= 1 && b@[0] == 43 {
        b@.skip(1)
    } else {
        b@
    };
    assert(body =~= b@.skip(start as int));
    if b.len() == start {
        assert(!spec_all_digits(body));
        return None;
    }
    let mut acc: u128 = 0;
    let mut i: usize = start;
    while i < b.len()
        invariant
            start <= i <= b@.len(),
            start <= 1,
            b@.len() > start,
            body == b@.skip(start as int),
            body == (if b@.len() >= 1 && b@[0] == 43 {
                b@.skip(1)
            } else {
                b@
            }),
            forall|j: int| 0 <= j < i - start ==> 48 <= #[trigger] body[j] <= 57,
            acc == spec_dec_value(body.take(i - start)),
            acc <= max,
            max <= u64::MAX,
        decreases b@.len() - i,
    {
        let d = b[i];
        if d < 48 || d > 57 {
            assert(!spec_all_digits(body)) by {
                assert(body[i - start] == d);
            }
            assert(spec_parse_dec(b@, max as nat) is None);
            return None;
        }
        proof {
            assert(body.take(i - start + 1).drop_last() =~= body.take(i - start));
            assert(body.take(i - start + 1).last() == d);
            assert(spec_dec_value(body.take(i - start + 1)) == spec_dec_value(
                body.take(i - start),
            ) * 10 + (d - 48));
        }
        acc = acc * 10 + ((d - 48) as u128);
        i += 1;
        if acc > max as u128 {
            proof {
                if spec_all_digits(body) {
                    lemma_dec_value_monotone(body, i - start);
                    assert(body.take(body.len() as int) =~= body);
                }
                assert(spec_parse_dec(b@, max as nat) is None);
            }
            return None;
        }
    }
    assert(body.take(body.len() as int) =~= body);
    assert(spec_all_digits(body));
    Some(acc as u64)
}

// ---------------------------------------------------------------------------
// ASCII case
// ---------------------------------------------------------------------------

/// The ASCII lowercase of one byte: letters map, everything else stays.
pub open spec fn spec_lower_byte(b: u8) -> u8 {
    if 65 <= b <= 90 {
        (b + 32) as u8
    } else {
        b
    }
}

/// The ASCII uppercase of one byte.
pub open spec fn spec_upper_byte(b: u8) -> u8 {
    if 97 <= b <= 122 {
        (b - 32) as u8
    } else {
        b
    }
}

/// Lowercases every ASCII letter of a byte text.
pub fn ascii_lower(b: &[u8]) -> (r: Vec<u8>)
    ensures
        r@.len() == b@.len(),
        forall|i: int| 0 <= i < b@.len() ==> r@[i] == spec_lower_byte(b@[i]),
{
    let mut out: Vec<u8> = Vec::new();
    let mut i: usize = 0;
    while i < b.len()
        invariant
            i <= b@.len(),
            out@.len() == i,
            forall|j: int| 0 <= j < i ==> out@[j] == spec_lower_byte(b@[j]),
        decreases b@.len() - i,
    {
        let c = b[i];
        if c >= 65 && c <= 90 {
            out.push(c + 32);
        } else {
            out.push(c);
        }
        i += 1;
    }
    out
}

} // verus!
