//! Helpers for the pixel-value guide: readable names, configuration-file
//! lookups, and value tables, all specified at the byte level. ASCII text is
//! transformed exactly; bytes outside ASCII pass through unchanged.

use vstd::prelude::*;
use vstd::string::StringSliceAdditionalSpecFns;
use crate::textscan::{
    spec_find, spec_contains, spec_lines, find_sub, contains_sub, split_lines, parse_dec,
    spec_lower_byte, spec_upper_byte, ascii_lower,
};
use crate::resolver::{spec_extract_attr_value, spec_extract_attr_num};

verus! {

/// An ASCII uppercase letter.
pub open spec fn spec_is_upper(b: u8) -> bool {
    65 <= b <= 90
}

// ---------------------------------------------------------------------------
// Building strings from bytes
// ---------------------------------------------------------------------------

/// Relies on `String::from_utf8`: valid UTF-8 bytes become the string of
/// exactly those bytes; anything else is replaced by the empty string.
#[verifier::external_body]
fn string_from_utf8_or_empty(bytes: Vec<u8>) -> (r: String)
    ensures
        vstd::utf8::valid_utf8(bytes@) ==> vstd::utf8::encode_utf8(r@) == bytes@,
        !vstd::utf8::valid_utf8(bytes@) ==> r@ == Seq::<char>::empty(),
{
    match String::from_utf8(bytes) {
        Ok(s) => s,
        Err(_) => String::new(),
    }
}

/// The byte-level result lifted to a `String`: the transformed bytes when
/// they are valid UTF-8, else the empty string.
pub open spec fn spec_string_of(r: String, bytes: Seq<u8>) -> bool {
    &&& (vstd::utf8::valid_utf8(bytes) ==> vstd::utf8::encode_utf8(r@) == bytes)
    &&& (!vstd::utf8::valid_utf8(bytes) ==> r@ == Seq::<char>::empty())
}

// ---------------------------------------------------------------------------
// Trim and prefixes
// ---------------------------------------------------------------------------

/// An ASCII whitespace byte.
pub open spec fn spec_is_space(b: u8) -> bool {
    b == 32 || b == 9 || b == 10 || b == 11 || b == 12 || b == 13
}

/// The line with ASCII whitespace removed from both ends.
pub open spec fn spec_trim(b: Seq<u8>) -> Seq<u8>
    decreases b.len(),
{
    if b.len() == 0 {
        b
    } else if spec_is_space(b[0]) {
        spec_trim(b.skip(1))
    } else if spec_is_space(b.last()) {
        spec_trim(b.drop_last())
    } else {
        b
    }
}

fn is_space(b: u8) -> (r: bool)
    ensures
        r == spec_is_space(b),
{
    b == 32 || b == 9 || b == 10 || b == 11 || b == 12 || b == 13
}

fn space_at(b: &[u8], i: usize) -> (r: bool)
    requires
        i < b@.len(),
    ensures
        r == spec_is_space(b@[i as int]),
{
    let c = b[i];
    is_space(c)
}

/// Removes ASCII whitespace from both ends of a byte line.
pub fn trim_bytes(b: &[u8]) -> (r: Vec<u8>)
    ensures
        r@ == spec_trim(b@),
{
    let mut lo: usize = 0;
    let mut hi: usize = b.len();
    proof {
        assert(b@.subrange(0, b@.len() as int) =~= b@);
    }
    while lo < hi && space_at(b, lo)
        invariant
            lo <= hi <= b@.len(),
            spec_trim(b@) == spec_trim(b@.subrange(lo as int, hi as int)),
        decreases hi - lo,
    {
        proof {
            assert(b@.subrange(lo as int, hi as int).skip(1) =~= b@.subrange(
                lo + 1,
                hi as int,
            ));
        }
        lo += 1;
    }
    while lo < hi && space_at(b, hi - 1)
        invariant
            lo <= hi <= b@.len(),
            spec_trim(b@) == spec_trim(b@.subrange(lo as int, hi as int)),
            lo < hi ==> !spec_is_space(b@[lo as int]),
        decreases hi,
    {
        proof {
            assert(b@.subrange(lo as int, hi as int).drop_last() =~= b@.subrange(
                lo as int,
                hi - 1,
            ));
        }
        hi -= 1;
    }
    let mut out: Vec<u8> = Vec::new();
    let mut q: usize = lo;
    while q < hi
        invariant
            lo <= q <= hi <= b@.len(),
            out@ == b@.subrange(lo as int, q as int),
        decreases hi - q,
    {
        let c = b[q];
        out.push(c);
        assert(out@ =~= b@.subrange(lo as int, q + 1));
        q += 1;
    }
    proof {
        let w = b@.subrange(lo as int, hi as int);
        if w.len() > 0 {
            assert(!spec_is_space(w[0]));
            assert(!spec_is_space(w.last()));
        }
        assert(spec_trim(w) == w);
    }
    out
}

/// `p` is a prefix of `b`.
pub open spec fn spec_starts_with(b: Seq<u8>, p: Seq<u8>) -> bool {
    p.len() <= b.len() && b.subrange(0, p.len() as int) == p
}

/// Whether `b` starts with the bytes `p`.
pub fn starts_with_bytes(b: &[u8], p: &[u8]) -> (r: bool)
    ensures
        r == spec_starts_with(b@, p@),
{
    if p.len() > b.len() {
        return false;
    }
    let mut i: usize = 0;
    while i < p.len()
        invariant
            i <= p@.len() <= b@.len(),
            forall|j: int| 0 <= j < i ==> b@[j] == p@[j],
        decreases p@.len() - i,
    {
        if b[i] != p[i] {
            assert(b@.subrange(0, p@.len() as int)[i as int] != p@[i as int]);
            return false;
        }
        i += 1;
    }
    assert(b@.subrange(0, p@.len() as int) =~= p@);
    true
}

/// `p` is a suffix of `b`.
pub open spec fn spec_ends_with(b: Seq<u8>, p: Seq<u8>) -> bool {
    p.len() <= b.len() && b.subrange(b.len() - p.len(), b.len() as int) == p
}

/// Whether `b` ends with the bytes `p`.
pub fn ends_with_bytes(b: &[u8], p: &[u8]) -> (r: bool)
    ensures
        r == spec_ends_with(b@, p@),
{
    if p.len() > b.len() {
        return false;
    }
    let off = b.len() - p.len();
    let mut i: usize = 0;
    while i < p.len()
        invariant
            i <= p@.len() <= b@.len(),
            b@.len() <= usize::MAX,
            off == b@.len() - p@.len(),
            forall|j: int| 0 <= j < i ==> b@[off + j] == p@[j],
        decreases p@.len() - i,
    {
        if b[off + i] != p[i] {
            assert(b@.subrange(b@.len() - p@.len(), b@.len() as int)[i as int] != p@[i as int]);
            return false;
        }
        i += 1;
    }
    assert(b@.subrange(b@.len() - p@.len(), b@.len() as int) =~= p@);
    true
}

// ---------------------------------------------------------------------------
// Readable names
// ---------------------------------------------------------------------------

/// Title case over ASCII bytes: the first byte uppercased, a space before
/// every run of uppercase letters that follows a non-uppercase byte.
pub open spec fn spec_titlecase_rec(b: Seq<u8>, i: int, prev_upper: bool) -> Seq<u8>
    decreases b.len() - i,
{
    if i < 0 || i >= b.len() {
        Seq::empty()
    } else {
        let c = b[i];
        if i == 0 {
            seq![spec_upper_byte(c)] + spec_titlecase_rec(b, 1, spec_is_upper(c))
        } else if spec_is_upper(c) && !prev_upper {
            seq![32u8, c] + spec_titlecase_rec(b, i + 1, true)
        } else {
            seq![c] + spec_titlecase_rec(b, i + 1, spec_is_upper(c))
        }
    }
}

/// Spaces a camel-case ASCII name into words: `someLongName` becomes
/// `Some Long Name`. Bytes outside ASCII pass through unchanged.
pub fn titlecase(s: &str) -> (r: String)
    ensures
        spec_string_of(r, spec_titlecase_rec(s.spec_bytes(), 0, false)),
{
    let b = s.as_bytes();
    let mut out: Vec<u8> = Vec::new();
    let ghost full = spec_titlecase_rec(b@, 0, false);
    let mut prev_upper = false;
    let mut i: usize = 0;
    while i < b.len()
        invariant
            i <= b@.len(),
            full == spec_titlecase_rec(b@, 0, false),
            i == 0 ==> out@ =~= Seq::<u8>::empty() && !prev_upper,
            i > 0 ==> full == out@ + spec_titlecase_rec(b@, i as int, prev_upper),
        decreases b@.len() - i,
    {
        let c = b[i];
        if i == 0 {
            if c >= 97 && c <= 122 {
                out.push(c - 32);
            } else {
                out.push(c);
            }
            prev_upper = c >= 65 && c <= 90;
            assert(out@ =~= Seq::<u8>::empty() + seq![spec_upper_byte(b@[0])]);
        } else if c >= 65 && c <= 90 && !prev_upper {
            out.push(32);
            out.push(c);
            prev_upper = true;
            assert(out@ =~= (out@.subrange(0, out@.len() - 2) + seq![32u8, c]));
        } else {
            out.push(c);
            prev_upper = c >= 65 && c <= 90;
            assert(out@ =~= (out@.subrange(0, out@.len() - 1) + seq![c]));
        }
        i += 1;
    }
    proof {
        if b@.len() == 0 {
            assert(full =~= Seq::<u8>::empty());
        }
        assert(spec_titlecase_rec(b@, b@.len() as int, prev_upper) =~= Seq::<u8>::empty());
        assert(out@ =~= full);
    }
    string_from_utf8_or_empty(out)
}

/// Camel case to readable over ASCII bytes: uppercase first byte, a space
/// before every later uppercase letter.
pub open spec fn spec_camel_rec(b: Seq<u8>, i: int) -> Seq<u8>
    decreases b.len() - i,
{
    if i < 0 || i >= b.len() {
        Seq::empty()
    } else {
        let c = b[i];
        if i == 0 {
            seq![spec_upper_byte(c)] + spec_camel_rec(b, 1)
        } else if spec_is_upper(c) {
            seq![32u8, c] + spec_camel_rec(b, i + 1)
        } else {
            seq![c] + spec_camel_rec(b, i + 1)
        }
    }
}

/// Spaces a camel-case ASCII name: `greenSmall` becomes `Green Small`.
/// Bytes outside ASCII pass through unchanged.
pub fn camel_to_readable(s: &str) -> (r: String)
    ensures
        spec_string_of(r, spec_camel_rec(s.spec_bytes(), 0)),
{
    let out = camel_bytes(s.as_bytes());
    string_from_utf8_or_empty(out)
}

/// The byte transformation behind `camel_to_readable`.
fn camel_bytes(b: &[u8]) -> (out: Vec<u8>)
    ensures
        out@ == spec_camel_rec(b@, 0),
{
    let mut out: Vec<u8> = Vec::new();
    let ghost full = spec_camel_rec(b@, 0);
    let mut i: usize = 0;
    while i < b.len()
        invariant
            i <= b@.len(),
            full == spec_camel_rec(b@, 0),
            i == 0 ==> out@ =~= Seq::<u8>::empty(),
            i > 0 ==> full == out@ + spec_camel_rec(b@, i as int),
        decreases b@.len() - i,
    {
        let c = b[i];
        if i == 0 {
            if c >= 97 && c <= 122 {
                out.push(c - 32);
            } else {
                out.push(c);
            }
            assert(out@ =~= Seq::<u8>::empty() + seq![spec_upper_byte(b@[0])]);
        } else if c >= 65 && c <= 90 {
            out.push(32);
            out.push(c);
            assert(out@ =~= (out@.subrange(0, out@.len() - 2) + seq![32u8, c]));
        } else {
            out.push(c);
            assert(out@ =~= (out@.subrange(0, out@.len() - 1) + seq![c]));
        }
        i += 1;
    }
    proof {
        if b@.len() == 0 {
            assert(full =~= Seq::<u8>::empty());
        }
        assert(spec_camel_rec(b@, b@.len() as int) =~= Seq::<u8>::empty());
        assert(out@ =~= full);
    }
    out
}

/// One word of an underscored name: the first byte uppercased, the rest
/// lowercased.
pub open spec fn spec_word_title(w: Seq<u8>) -> Seq<u8> {
    if w.len() == 0 {
        w
    } else {
        seq![spec_upper_byte(w[0])] + w.skip(1).map_values(|c: u8| spec_lower_byte(c))
    }
}

/// The words of `b` split at underscores, title-cased, joined by spaces.
pub open spec fn spec_underscore_title(b: Seq<u8>) -> Seq<u8>
    decreases b.len(),
    via spec_underscore_title_dec
{
    match spec_find(b, seq![95u8]) {
        Option::Some(i) => spec_word_title(b.subrange(0, i)) + seq![32u8] + spec_underscore_title(
            b.skip(i + 1),
        ),
        Option::None => spec_word_title(b),
    }
}

#[via_fn]
proof fn spec_underscore_title_dec(b: Seq<u8>) {
    crate::textscan::lemma_find_props(b, seq![95u8]);
}

/// A readable name over bytes: underscored names become title-cased words,
/// anything else is spaced at capitals.
pub open spec fn spec_readable_name(b: Seq<u8>) -> Seq<u8> {
    if spec_contains(b, seq![95u8]) {
        spec_underscore_title(b)
    } else {
        spec_camel_rec(b, 0)
    }
}

/// The byte transformation behind `titlecase_name`.
fn readable_name_bytes(b: &[u8]) -> (out: Vec<u8>)
    ensures
        out@ == spec_readable_name(b@),
{
    let mut us: Vec<u8> = Vec::new();
    us.push(95);
    assert(us@ =~= seq![95u8]);
    if !contains_sub(b, us.as_slice()) {
        return camel_bytes(b);
    }

    let mut out: Vec<u8> = Vec::new();
    let mut pos: usize = 0;
    let ghost full = spec_underscore_title(b@);
    proof {
        assert(b@.skip(0) =~= b@);
    }
    while pos < b.len()
        invariant
            pos <= b@.len(),
            us@ == seq![95u8],
            full == spec_underscore_title(b@),
            full == out@ + spec_underscore_title(b@.skip(pos as int)),
        decreases b@.len() - pos,
    {
        let rest = vstd::slice::slice_subrange(b, pos, b.len());
        let ghost rests = b@.skip(pos as int);
        proof {
            crate::textscan::lemma_find_props(rests, seq![95u8]);
        }
        let (wend, npos): (usize, usize) = match find_sub(rest, us.as_slice()) {
            Some(i) => (pos + i, pos + i + 1),
            None => (b.len(), b.len()),
        };
        let word = vstd::slice::slice_subrange(b, pos, wend);
        assert(word@ =~= rests.subrange(0, wend - pos));
        let ghost out0 = out@;
        if word.len() > 0 {
            let c0 = word[0];
            if c0 >= 97 && c0 <= 122 {
                out.push(c0 - 32);
            } else {
                out.push(c0);
            }
            let mut q: usize = 1;
            while q < word.len()
                invariant
                    1 <= q <= word@.len(),
                    out@ == out0 + seq![spec_upper_byte(word@[0])] + word@.subrange(
                        1,
                        q as int,
                    ).map_values(|c: u8| spec_lower_byte(c)),
                decreases word@.len() - q,
            {
                let c = word[q];
                if c >= 65 && c <= 90 {
                    out.push(c + 32);
                } else {
                    out.push(c);
                }
                assert(out@ =~= out0 + seq![spec_upper_byte(word@[0])] + word@.subrange(
                    1,
                    q + 1,
                ).map_values(|c: u8| spec_lower_byte(c)));
                q += 1;
            }
            proof {
                assert(word@.subrange(1, word@.len() as int) =~= word@.skip(1));
                assert(out@ =~= out0 + spec_word_title(word@));
            }
        } else {
            assert(out@ =~= out0 + spec_word_title(word@));
        }
        if wend < b.len() {
            out.push(32);
            proof {
                assert(out@ =~= out0 + spec_word_title(word@) + seq![32u8]);
                assert(rests.skip(wend - pos + 1) =~= b@.skip(npos as int));
                assert(spec_underscore_title(rests) == spec_word_title(word@) + seq![32u8]
                    + spec_underscore_title(b@.skip(npos as int)));
            }
        } else {
            proof {
                assert(spec_find(rests, seq![95u8]) is None);
                assert(word@ =~= rests);
                assert(spec_underscore_title(rests) == spec_word_title(rests));
                assert(b@.skip(npos as int) =~= Seq::<u8>::empty());
                assert(spec_underscore_title(b@.skip(npos as int)) =~= spec_word_title(
                    Seq::<u8>::empty(),
                ));
            }
        }
        pos = npos;
    }
    proof {
        assert(b@.skip(pos as int) =~= Seq::<u8>::empty());
        assert(spec_underscore_title(Seq::<u8>::empty()) =~= Seq::<u8>::empty());
        assert(out@ =~= full);
    }
    out
}

/// A readable name from `UPPERCASE_NAME` or `camelCase`: underscored names
/// become title-cased words, anything else is spaced at capitals. Bytes
/// outside ASCII pass through unchanged.
pub fn titlecase_name(name: &str) -> (r: String)
    ensures
        spec_string_of(r, spec_readable_name(name.spec_bytes())),
{
    let out = readable_name_bytes(name.as_bytes());
    string_from_utf8_or_empty(out)
}

} // verus!

verus! {

// ---------------------------------------------------------------------------
// Configuration lookups
// ---------------------------------------------------------------------------

/// `filename` in ASCII bytes.
pub open spec fn spec_filename_attr() -> Seq<u8> {
    seq![102u8, 105u8, 108u8, 101u8, 110u8, 97u8, 109u8, 101u8]
}

/// A line holds both patterns, looked at trimmed or raw.
pub open spec fn spec_with2_sat(l: Seq<u8>, p1: Seq<u8>, p2: Seq<u8>, trimmed: bool) -> bool {
    let key = if trimmed {
        spec_trim(l)
    } else {
        l
    };
    spec_contains(key, p1) && spec_contains(key, p2)
}

/// The first line holding both patterns.
pub open spec fn spec_first_with2(ls: Seq<Seq<u8>>, p1: Seq<u8>, p2: Seq<u8>, trimmed: bool) -> Option<
    int,
>
    decreases ls.len(),
{
    if ls.len() == 0 {
        Option::None
    } else if spec_with2_sat(ls[0], p1, p2, trimmed) {
        Option::Some(0)
    } else {
        match spec_first_with2(ls.skip(1), p1, p2, trimmed) {
            Option::Some(i) => Option::Some(i + 1),
            Option::None => Option::None,
        }
    }
}

/// Finds the first line holding both patterns.
fn find_with2(lines: &Vec<Vec<u8>>, p1: &[u8], p2: &[u8], trimmed: bool) -> (r: Option<usize>)
    ensures
        match spec_first_with2(lines@.map_values(|v: Vec<u8>| v@), p1@, p2@, trimmed) {
            Option::Some(i) => r matches Some(x) && x == i && x < lines@.len()
                && spec_with2_sat(lines@.map_values(|v: Vec<u8>| v@)[i], p1@, p2@, trimmed),
            Option::None => r is None,
        },
{
    let ghost ls = lines@.map_values(|v: Vec<u8>| v@);
    proof {
        assert(ls.skip(0) =~= ls);
    }
    let mut i: usize = 0;
    while i < lines.len()
        invariant
            i <= lines@.len(),
            ls == lines@.map_values(|v: Vec<u8>| v@),
            forall|j: int| 0 <= j < i ==> !spec_with2_sat(ls[j], p1@, p2@, trimmed),
            spec_first_with2(ls, p1@, p2@, trimmed) == match spec_first_with2(
                ls.skip(i as int),
                p1@,
                p2@,
                trimmed,
            ) {
                Option::Some(k) => Option::Some(k + i),
                Option::None => Option::None::<int>,
            },
        decreases lines@.len() - i,
    {
        let line = &lines[i];
        let ok: bool;
        if trimmed {
            let t = trim_bytes(line.as_slice());
            ok = contains_sub(t.as_slice(), p1) && contains_sub(t.as_slice(), p2);
        } else {
            ok = contains_sub(line.as_slice(), p1) && contains_sub(line.as_slice(), p2);
        }
        proof {
            assert(ls[i as int] == lines@[i as int]@);
            assert(ls.skip(i as int)[0] == ls[i as int]);
        }
        if ok {
            assert(spec_with2_sat(ls[i as int], p1@, p2@, trimmed));
            return Some(i);
        }
        assert(!spec_with2_sat(ls[i as int], p1@, p2@, trimmed));
        proof {
            assert(ls.skip(i as int).skip(1) =~= ls.skip(i + 1));
        }
        i += 1;
    }
    proof {
        assert(ls.skip(i as int) =~= Seq::<Seq<u8>>::empty());
    }
    None
}

/// `<blockingState` and `value=` and `value`, in ASCII bytes.
pub open spec fn spec_blocking_tag() -> Seq<u8> {
    seq![
        60u8,
        98u8,
        108u8,
        111u8,
        99u8,
        107u8,
        105u8,
        110u8,
        103u8,
        83u8,
        116u8,
        97u8,
        116u8,
        101u8,
    ]
}

pub open spec fn spec_value_eq_pat() -> Seq<u8> {
    seq![118u8, 97u8, 108u8, 117u8, 101u8, 61u8]
}

pub open spec fn spec_value_attr() -> Seq<u8> {
    seq![118u8, 97u8, 108u8, 117u8, 101u8]
}

/// The weed blocking-state value the text declares: the `value` attribute
/// of the first trimmed line holding `<blockingState` and `value=`.
pub open spec fn spec_weed_blocking(content: Seq<u8>) -> Option<nat> {
    let ls = spec_lines(content);
    match spec_first_with2(ls, spec_blocking_tag(), spec_value_eq_pat(), true) {
        Option::Some(i) => spec_extract_attr_num(spec_trim(ls[i]), spec_value_attr(),
            u32::MAX as nat),
        Option::None => Option::None,
    }
}

/// Reads the weed blocking-state value from configuration text.
pub fn parse_weed_blocking_value(content: &str) -> (r: Option<u32>)
    ensures
        match spec_weed_blocking(content.spec_bytes()) {
            Option::Some(v) => r matches Some(x) && x == v,
            Option::None => r is None,
        },
{
    let cb = content.as_bytes();
    let ghost lsspec = spec_lines(cb@);
    let lines = split_lines(cb);
    proof {
        assert(lines@.map_values(|v: Vec<u8>| v@) =~= lsspec);
    }
    let tag = [60u8, 98u8, 108u8, 111u8, 99u8, 107u8, 105u8, 110u8, 103u8, 83u8, 116u8, 97u8,
        116u8, 101u8];
    let veq = [118u8, 97u8, 108u8, 117u8, 101u8, 61u8];
    let vattr = [118u8, 97u8, 108u8, 117u8, 101u8];
    assert(tag@ =~= spec_blocking_tag());
    assert(veq@ =~= spec_value_eq_pat());
    assert(vattr@ =~= spec_value_attr());
    match find_with2(&lines, tag.as_slice(), veq.as_slice(), true) {
        Some(i) => {
            proof {
                assert(lines@[i as int]@ == lsspec[i as int]);
            }
            let t = trim_bytes(lines[i].as_slice());
            match crate::resolver::extract_attr_bytes(t.as_slice(), vattr.as_slice()) {
                Some(v) => match parse_dec(v.as_slice(), u32::MAX as u64) {
                    Some(n) => Some(n as u32),
                    None => None,
                },
                None => None,
            }
        },
        None => None,
    }
}

/// The configuration filename a maps document names for an element: the
/// `filename` attribute of the first line holding `<element` and
/// `filename=`.
pub open spec fn spec_config_filename(content: Seq<u8>, element: Seq<u8>) -> Option<Seq<u8>> {
    let ls = spec_lines(content);
    match spec_first_with2(ls, seq![60u8] + element, spec_filename_attr() + seq![61u8], false) {
        Option::Some(i) => spec_extract_attr_value(ls[i], spec_filename_attr()),
        Option::None => Option::None,
    }
}

/// Finds the configuration filename declared for `element_name`.
pub fn find_config_filename(maps_content: &str, element_name: &str) -> (r: Option<String>)
    ensures
        match spec_config_filename(maps_content.spec_bytes(), element_name.spec_bytes()) {
            Option::Some(v) => r matches Some(x) && spec_string_of(x, v),
            Option::None => r is None,
        },
{
    let cb = maps_content.as_bytes();
    let ghost lsspec = spec_lines(cb@);
    let lines = split_lines(cb);
    proof {
        assert(lines@.map_values(|v: Vec<u8>| v@) =~= lsspec);
    }
    let mut search: Vec<u8> = Vec::new();
    search.push(60);
    let eb = element_name.as_bytes();
    let mut k: usize = 0;
    while k < eb.len()
        invariant
            k <= eb@.len(),
            search@ == seq![60u8] + eb@.take(k as int),
        decreases eb@.len() - k,
    {
        let byte = eb[k];
        search.push(byte);
        assert(search@ =~= seq![60u8] + eb@.take(k + 1));
        k += 1;
    }
    assert(eb@.take(eb@.len() as int) =~= eb@);
    let fneq = [102u8, 105u8, 108u8, 101u8, 110u8, 97u8, 109u8, 101u8, 61u8];
    let fattr = [102u8, 105u8, 108u8, 101u8, 110u8, 97u8, 109u8, 101u8];
    assert(fneq@ =~= spec_filename_attr() + seq![61u8]);
    assert(fattr@ =~= spec_filename_attr());
    match find_with2(&lines, search.as_slice(), fneq.as_slice(), false) {
        Some(i) => {
            proof {
                assert(lines@[i as int]@ == lsspec[i as int]);
            }
            match crate::resolver::extract_attr_bytes(lines[i].as_slice(), fattr.as_slice()) {
                Some(v) => Some(string_from_utf8_or_empty(v)),
                None => None,
            }
        },
        None => None,
    }
}

// ---------------------------------------------------------------------------
// Filenames
// ---------------------------------------------------------------------------

/// The position of the last `c` in `h`, if any.
pub open spec fn spec_rfind(h: Seq<u8>, c: u8) -> Option<int>
    decreases h.len(),
{
    if h.len() == 0 {
        Option::None
    } else if h.last() == c {
        Option::Some(h.len() - 1)
    } else {
        spec_rfind(h.drop_last(), c)
    }
}

/// The name after the last slash.
pub open spec fn spec_basename(p: Seq<u8>) -> Seq<u8> {
    match spec_rfind(p, 47u8) {
        Option::Some(k) => p.skip(k + 1),
        Option::None => p,
    }
}

fn rfind_byte(h: &[u8], c: u8) -> (r: Option<usize>)
    ensures
        match spec_rfind(h@, c) {
            Option::Some(k) => r matches Some(x) && x == k && x < h@.len(),
            Option::None => r is None,
        },
{
    let mut i: usize = h.len();
    proof {
        assert(h@.take(h@.len() as int) =~= h@);
    }
    while i > 0
        invariant
            i <= h@.len(),
            spec_rfind(h@, c) == spec_rfind(h@.take(i as int), c),
        decreases i,
    {
        proof {
            assert(h@.take(i as int).drop_last() =~= h@.take(i - 1));
        }
        if h[i - 1] == c {
            assert(h@.take(i as int).last() == c);
            return Some(i - 1);
        }
        i -= 1;
    }
    assert(h@.take(0) =~= Seq::<u8>::empty());
    None
}

/// `.png`, `infoLayer`, `densityMap`, `.grle`, `.gdm` in ASCII bytes.
pub open spec fn spec_png_ext() -> Seq<u8> {
    seq![46u8, 112u8, 110u8, 103u8]
}

pub open spec fn spec_info_layer_pat() -> Seq<u8> {
    seq![105u8, 110u8, 102u8, 111u8, 76u8, 97u8, 121u8, 101u8, 114u8]
}

pub open spec fn spec_density_map_pat() -> Seq<u8> {
    seq![100u8, 101u8, 110u8, 115u8, 105u8, 116u8, 121u8, 77u8, 97u8, 112u8]
}

pub open spec fn spec_grle_ext() -> Seq<u8> {
    seq![46u8, 103u8, 114u8, 108u8, 101u8]
}

pub open spec fn spec_gdm_ext() -> Seq<u8> {
    seq![46u8, 103u8, 100u8, 109u8]
}

/// The actual data filename a referenced image maps to: the basename, with
/// a `.png` suffix swapped for the binary extension its name implies.
pub open spec fn spec_data_filename(fname: Seq<u8>) -> Seq<u8> {
    let name = spec_basename(fname);
    if spec_ends_with(name, spec_png_ext()) {
        let base = name.take(name.len() - 4);
        if spec_contains(base, spec_info_layer_pat()) {
            base + spec_grle_ext()
        } else if spec_contains(base, spec_density_map_pat()) {
            base + spec_gdm_ext()
        } else {
            name
        }
    } else {
        name
    }
}

/// What `find_filename_by_id` reads from the document: the filename
/// attribute of the first line that holds `fileId="id"` and `filename=`
/// and carries a readable filename.
pub open spec fn spec_filename_by_id_sat(l: Seq<u8>, id: Seq<u8>) -> bool {
    let search = crate::resolver::spec_file_id_attr() + seq![61u8, 34u8] + id + seq![34u8];
    spec_contains(l, search) && spec_contains(l, spec_filename_attr() + seq![61u8])
        && spec_extract_attr_value(l, spec_filename_attr()) is Some
}

pub open spec fn spec_first_filename_by_id(ls: Seq<Seq<u8>>, id: Seq<u8>) -> Option<int>
    decreases ls.len(),
{
    if ls.len() == 0 {
        Option::None
    } else if spec_filename_by_id_sat(ls[0], id) {
        Option::Some(0)
    } else {
        match spec_first_filename_by_id(ls.skip(1), id) {
            Option::Some(i) => Option::Some(i + 1),
            Option::None => Option::None,
        }
    }
}

/// Looks up the data filename that the document gives a file identifier.
pub fn find_filename_by_id(content: &str, file_id: &str) -> (r: Option<String>)
    ensures
        match spec_first_filename_by_id(
            spec_lines(content.spec_bytes()),
            file_id.spec_bytes(),
        ) {
            Option::Some(i) => r matches Some(x) && spec_string_of(
                x,
                spec_data_filename(
                    spec_extract_attr_value(
                        spec_lines(content.spec_bytes())[i],
                        spec_filename_attr(),
                    )->Some_0,
                ),
            ),
            Option::None => r is None,
        },
{
    let cb = content.as_bytes();
    let idb = file_id.as_bytes();
    let ghost lsspec = spec_lines(cb@);
    let lines = split_lines(cb);
    proof {
        assert(lines@.map_values(|v: Vec<u8>| v@) =~= lsspec);
        assert(lsspec.skip(0) =~= lsspec);
    }

    // build fileId="id"
    let mut search: Vec<u8> = Vec::new();
    let fid = [102u8, 105u8, 108u8, 101u8, 73u8, 100u8, 61u8, 34u8];
    let mut k: usize = 0;
    while k < fid.len()
        invariant
            k <= 8,
            fid@.len() == 8,
            search@ == fid@.take(k as int),
        decreases 8 - k,
    {
        let byte = fid[k];
        search.push(byte);
        assert(search@ =~= fid@.take(k + 1));
        k += 1;
    }
    assert(fid@.take(8) =~= fid@);
    let mut k2: usize = 0;
    while k2 < idb.len()
        invariant
            k2 <= idb@.len(),
            search@ == fid@ + idb@.take(k2 as int),
        decreases idb@.len() - k2,
    {
        let byte = idb[k2];
        search.push(byte);
        assert(search@ =~= fid@ + idb@.take(k2 + 1));
        k2 += 1;
    }
    search.push(34);
    proof {
        assert(idb@.take(idb@.len() as int) =~= idb@);
        assert(fid@ =~= crate::resolver::spec_file_id_attr() + seq![61u8, 34u8]);
        assert(search@ =~= crate::resolver::spec_file_id_attr() + seq![61u8, 34u8] + idb@ + seq![
            34u8,
        ]);
    }
    let fneq = [102u8, 105u8, 108u8, 101u8, 110u8, 97u8, 109u8, 101u8, 61u8];
    let fattr = [102u8, 105u8, 108u8, 101u8, 110u8, 97u8, 109u8, 101u8];
    assert(fneq@ =~= spec_filename_attr() + seq![61u8]);
    assert(fattr@ =~= spec_filename_attr());

    let mut i: usize = 0;
    while i < lines.len()
        invariant
            i <= lines@.len(),
            lsspec == lines@.map_values(|v: Vec<u8>| v@),
            lsspec == spec_lines(content.spec_bytes()),
            search@ == crate::resolver::spec_file_id_attr() + seq![61u8, 34u8] + idb@ + seq![34u8],
            fneq@ == spec_filename_attr() + seq![61u8],
            fattr@ == spec_filename_attr(),
            idb@ == file_id.spec_bytes(),
            forall|j: int| 0 <= j < i ==> !spec_filename_by_id_sat(lsspec[j], idb@),
            spec_first_filename_by_id(lsspec, idb@) == match spec_first_filename_by_id(
                lsspec.skip(i as int),
                idb@,
            ) {
                Option::Some(k) => Option::Some(k + i),
                Option::None => Option::None::<int>,
            },
        decreases lines@.len() - i,
    {
        let line = &lines[i];
        proof {
            assert(lsspec[i as int] == lines@[i as int]@);
            assert(lsspec.skip(i as int)[0] == lsspec[i as int]);
        }
        let mut fname: Option<Vec<u8>> = None;
        if contains_sub(line.as_slice(), search.as_slice()) && contains_sub(
            line.as_slice(),
            fneq.as_slice(),
        ) {
            fname = crate::resolver::extract_attr_bytes(line.as_slice(), fattr.as_slice());
        }
        match fname {
            Some(v) => {
                assert(spec_filename_by_id_sat(lsspec[i as int], idb@));
                assert(spec_first_filename_by_id(lsspec.skip(i as int), idb@) == Option::Some(
                    0int,
                ));
                // basename
                let ghost vspec = v@;
                let _vl = v.len();
                let name: Vec<u8> = match rfind_byte(v.as_slice(), 47) {
                    Some(kk) => {
                        let w = vstd::slice::slice_subrange(v.as_slice(), kk + 1, v.len());
                        assert(w@ =~= v@.skip(kk + 1));
                        let mut nv: Vec<u8> = Vec::new();
                        let mut q: usize = 0;
                        while q < w.len()
                            invariant
                                q <= w@.len(),
                                nv@ == w@.take(q as int),
                            decreases w@.len() - q,
                        {
                            let byte = w[q];
                            nv.push(byte);
                            assert(nv@ =~= w@.take(q + 1));
                            q += 1;
                        }
                        assert(w@.take(w@.len() as int) =~= w@);
                        nv
                    },
                    None => v,
                };
                let ghost namespec = name@;
                proof {
                    match spec_rfind(vspec, 47u8) {
                        Option::Some(kk) => {
                            assert(namespec =~= vspec.skip(kk + 1));
                        },
                        Option::None => {
                            assert(namespec == vspec);
                        },
                    }
                    assert(namespec == spec_basename(vspec));
                }
                let ghost target = spec_data_filename(
                    spec_extract_attr_value(lsspec[i as int], spec_filename_attr())->Some_0,
                );

                let png = [46u8, 112u8, 110u8, 103u8];
                let ilpat = [105u8, 110u8, 102u8, 111u8, 76u8, 97u8, 121u8, 101u8, 114u8];
                let dmpat = [100u8, 101u8, 110u8, 115u8, 105u8, 116u8, 121u8, 77u8, 97u8, 112u8];
                let grle = [46u8, 103u8, 114u8, 108u8, 101u8];
                let gdm = [46u8, 103u8, 100u8, 109u8];
                assert(png@ =~= spec_png_ext());
                assert(ilpat@ =~= spec_info_layer_pat());
                assert(dmpat@ =~= spec_density_map_pat());
                assert(grle@ =~= spec_grle_ext());
                assert(gdm@ =~= spec_gdm_ext());

                let result: Vec<u8>;
                if ends_with_bytes(name.as_slice(), png.as_slice()) {
                    let blen = name.len() - 4;
                    let base = vstd::slice::slice_subrange(name.as_slice(), 0, blen);
                    assert(base@ =~= namespec.take(namespec.len() - 4));
                    if contains_sub(base, ilpat.as_slice()) {
                        let mut out2: Vec<u8> = Vec::new();
                        let mut q2: usize = 0;
                        while q2 < base.len()
                            invariant
                                q2 <= base@.len(),
                                out2@ == base@.take(q2 as int),
                            decreases base@.len() - q2,
                        {
                            let byte = base[q2];
                            out2.push(byte);
                            assert(out2@ =~= base@.take(q2 + 1));
                            q2 += 1;
                        }
                        assert(base@.take(base@.len() as int) =~= base@);
                        out2.push(46);
                        out2.push(103);
                        out2.push(114);
                        out2.push(108);
                        out2.push(101);
                        assert(out2@ =~= base@ + spec_grle_ext());
                        result = out2;
                    } else if contains_sub(base, dmpat.as_slice()) {
                        let mut out2: Vec<u8> = Vec::new();
                        let mut q2: usize = 0;
                        while q2 < base.len()
                            invariant
                                q2 <= base@.len(),
                                out2@ == base@.take(q2 as int),
                            decreases base@.len() - q2,
                        {
                            let byte = base[q2];
                            out2.push(byte);
                            assert(out2@ =~= base@.take(q2 + 1));
                            q2 += 1;
                        }
                        assert(base@.take(base@.len() as int) =~= base@);
                        out2.push(46);
                        out2.push(103);
                        out2.push(100);
                        out2.push(109);
                        assert(out2@ =~= base@ + spec_gdm_ext());
                        result = out2;
                    } else {
                        result = name;
                    }
                } else {
                    result = name;
                }
                assert(result@ == target);
                assert(spec_first_filename_by_id(lsspec, idb@) == Option::Some(i as int));
                assert(spec_extract_attr_value(lsspec[i as int], spec_filename_attr())->Some_0
                    == vspec);
                assert(target == spec_data_filename(
                    spec_extract_attr_value(
                        spec_lines(content.spec_bytes())[i as int],
                        spec_filename_attr(),
                    )->Some_0,
                ));
                return Some(string_from_utf8_or_empty(result));
            },
            None => {
                assert(!spec_filename_by_id_sat(lsspec[i as int], idb@));
            },
        }
        proof {
            assert(lsspec.skip(i as int).skip(1) =~= lsspec.skip(i + 1));
        }
        i += 1;
    }
    proof {
        assert(lsspec.skip(i as int) =~= Seq::<Seq<u8>>::empty());
    }
    None
}

// ---------------------------------------------------------------------------
// State and type tables
// ---------------------------------------------------------------------------

/// `<foliageState ` and `name` in ASCII bytes.
pub open spec fn spec_fstate_tag() -> Seq<u8> {
    seq![
        60u8,
        102u8,
        111u8,
        108u8,
        105u8,
        97u8,
        103u8,
        101u8,
        83u8,
        116u8,
        97u8,
        116u8,
        101u8,
        32u8,
    ]
}

pub open spec fn spec_name_attr() -> Seq<u8> {
    seq![110u8, 97u8, 109u8, 101u8]
}

/// The attribute markers and suffixes of a foliage state line.
pub open spec fn spec_harvest_pat() -> Seq<u8> {
    seq![
        105u8,
        115u8,
        72u8,
        97u8,
        114u8,
        118u8,
        101u8,
        115u8,
        116u8,
        82u8,
        101u8,
        97u8,
        100u8,
        121u8,
        61u8,
        34u8,
        116u8,
        114u8,
        117u8,
        101u8,
        34u8,
    ]
}

pub open spec fn spec_withered_pat() -> Seq<u8> {
    seq![
        105u8,
        115u8,
        87u8,
        105u8,
        116u8,
        104u8,
        101u8,
        114u8,
        101u8,
        100u8,
        61u8,
        34u8,
        116u8,
        114u8,
        117u8,
        101u8,
        34u8,
    ]
}

pub open spec fn spec_cut_pat() -> Seq<u8> {
    seq![105u8, 115u8, 67u8, 117u8, 116u8, 61u8, 34u8, 116u8, 114u8, 117u8, 101u8, 34u8]
}

pub open spec fn spec_growing_pat() -> Seq<u8> {
    seq![
        105u8,
        115u8,
        71u8,
        114u8,
        111u8,
        119u8,
        105u8,
        110u8,
        103u8,
        61u8,
        34u8,
        116u8,
        114u8,
        117u8,
        101u8,
        34u8,
    ]
}

pub open spec fn spec_invisible_pat() -> Seq<u8> {
    seq![105u8, 110u8, 118u8, 105u8, 115u8, 105u8, 98u8, 108u8, 101u8]
}

pub open spec fn spec_harvest_suffix() -> Seq<u8> {
    seq![
        32u8,
        40u8,
        104u8,
        97u8,
        114u8,
        118u8,
        101u8,
        115u8,
        116u8,
        32u8,
        114u8,
        101u8,
        97u8,
        100u8,
        121u8,
        41u8,
    ]
}

pub open spec fn spec_withered_suffix() -> Seq<u8> {
    seq![32u8, 40u8, 119u8, 105u8, 116u8, 104u8, 101u8, 114u8, 101u8, 100u8, 41u8]
}

pub open spec fn spec_cut_suffix() -> Seq<u8> {
    seq![32u8, 40u8, 99u8, 117u8, 116u8, 41u8]
}

pub open spec fn spec_growing_suffix() -> Seq<u8> {
    seq![32u8, 40u8, 103u8, 114u8, 111u8, 119u8, 105u8, 110u8, 103u8, 41u8]
}

/// The description of one foliage state line: the readable name plus a
/// suffix for a harvest-ready, withered, cut, or growing state.
pub open spec fn spec_state_desc(t: Seq<u8>) -> Seq<u8> {
    let readable = spec_camel_rec(spec_extract_attr_value(t, spec_name_attr())->Some_0, 0);
    if spec_contains(t, spec_harvest_pat()) {
        readable + spec_harvest_suffix()
    } else if spec_contains(t, spec_withered_pat()) {
        readable + spec_withered_suffix()
    } else if spec_contains(t, spec_cut_pat()) {
        readable + spec_cut_suffix()
    } else if spec_contains(t, spec_growing_pat()) && !spec_contains(
        readable.map_values(|c: u8| spec_lower_byte(c)),
        spec_invisible_pat(),
    ) {
        readable + spec_growing_suffix()
    } else {
        readable
    }
}

/// Entry `i` of the result matches entry `i - 1` of the spec list.
pub open spec fn spec_state_entry_ok(
    out: Seq<(u32, String)>,
    full: Seq<(u32, Seq<u8>)>,
    i: int,
) -> bool {
    out[i].0 == full[i - 1].0 && spec_string_of(out[i].1, full[i - 1].1)
}

/// Entries one and up match the spec list, pairwise.
pub open spec fn spec_states_match(out: Seq<(u32, String)>, full: Seq<(u32, Seq<u8>)>) -> bool {
    forall|i: int| 1 <= i < out.len() ==> #[trigger] spec_state_entry_ok(out, full, i)
}

/// The next state index, held at the top of the range.
pub open spec fn spec_next_idx(idx: u32) -> u32 {
    if idx < 0xffffffffu32 {
        (idx + 1) as u32
    } else {
        idx
    }
}

/// The foliage states read from line `k` on, numbering from `idx`: one
/// entry per trimmed line that opens a foliage state and names it.
pub open spec fn spec_foliage_rec(ls: Seq<Seq<u8>>, k: int, idx: u32) -> Seq<(u32, Seq<u8>)>
    decreases ls.len() - k,
{
    if k < 0 || k >= ls.len() {
        Seq::empty()
    } else {
        let t = spec_trim(ls[k]);
        if spec_starts_with(t, spec_fstate_tag()) && spec_extract_attr_value(
            t,
            spec_name_attr(),
        ) is Some {
            seq![(idx, spec_state_desc(t))] + spec_foliage_rec(ls, k + 1, spec_next_idx(idx))
        } else {
            spec_foliage_rec(ls, k + 1, idx)
        }
    }
}

/// Reads the foliage state table of a foliage document: entry zero is
/// always `None/Empty`, then one numbered entry per state element.
#[verifier::rlimit(100)]
pub fn parse_foliage_states(xml_content: &str) -> (r: Vec<(u32, String)>)
    ensures
        ({
            let states = spec_foliage_rec(spec_lines(xml_content.spec_bytes()), 0, 1);
            &&& r@.len() == 1 + states.len()
            &&& r@[0].0 == 0
            &&& r@[0].1@ == "None/Empty"@
            &&& spec_states_match(r@, states)
        }),
{
    let cb = xml_content.as_bytes();
    let ghost lsspec = spec_lines(cb@);
    let lines = split_lines(cb);
    proof {
        assert(lines@.map_values(|v: Vec<u8>| v@) =~= lsspec);
    }

    let mut out: Vec<(u32, String)> = Vec::new();
    out.push((0, String::from_str("None/Empty")));
    let mut state_index: u32 = 1;

    let tag = [60u8, 102u8, 111u8, 108u8, 105u8, 97u8, 103u8, 101u8, 83u8, 116u8, 97u8, 116u8,
        101u8, 32u8];
    let nattr = [110u8, 97u8, 109u8, 101u8];
    let hpat = [105u8, 115u8, 72u8, 97u8, 114u8, 118u8, 101u8, 115u8, 116u8, 82u8, 101u8, 97u8,
        100u8, 121u8, 61u8, 34u8, 116u8, 114u8, 117u8, 101u8, 34u8];
    let wpat = [105u8, 115u8, 87u8, 105u8, 116u8, 104u8, 101u8, 114u8, 101u8, 100u8, 61u8, 34u8,
        116u8, 114u8, 117u8, 101u8, 34u8];
    let cpat = [105u8, 115u8, 67u8, 117u8, 116u8, 61u8, 34u8, 116u8, 114u8, 117u8, 101u8, 34u8];
    let gpat = [105u8, 115u8, 71u8, 114u8, 111u8, 119u8, 105u8, 110u8, 103u8, 61u8, 34u8, 116u8,
        114u8, 117u8, 101u8, 34u8];
    let ipat = [105u8, 110u8, 118u8, 105u8, 115u8, 105u8, 98u8, 108u8, 101u8];
    assert(tag@ =~= spec_fstate_tag());
    assert(nattr@ =~= spec_name_attr());
    assert(hpat@ =~= spec_harvest_pat());
    assert(wpat@ =~= spec_withered_pat());
    assert(cpat@ =~= spec_cut_pat());
    assert(gpat@ =~= spec_growing_pat());
    assert(ipat@ =~= spec_invisible_pat());

    let ghost full = spec_foliage_rec(lsspec, 0, 1);
    let mut k: usize = 0;
    while k < lines.len()
        invariant
            k <= lines@.len(),
            lsspec == lines@.map_values(|v: Vec<u8>| v@),
            full == spec_foliage_rec(lsspec, 0, 1),
            tag@ == spec_fstate_tag(),
            nattr@ == spec_name_attr(),
            hpat@ == spec_harvest_pat(),
            wpat@ == spec_withered_pat(),
            cpat@ == spec_cut_pat(),
            gpat@ == spec_growing_pat(),
            ipat@ == spec_invisible_pat(),
            out@.len() >= 1,
            out@[0].0 == 0 && out@[0].1@ == "None/Empty"@,
            out@.len() == 1 + (full.len() - spec_foliage_rec(lsspec, k as int, state_index).len()),
            full == full.take(out@.len() - 1) + spec_foliage_rec(lsspec, k as int, state_index),
            spec_states_match(out@, full),
        decreases lines@.len() - k,
    {
        let t = trim_bytes(lines[k].as_slice());
        proof {
            assert(lsspec[k as int] == lines@[k as int]@);
        }
        let ghost ts = spec_trim(lsspec[k as int]);
        assert(t@ == ts);
        if starts_with_bytes(t.as_slice(), tag.as_slice()) {
            match crate::resolver::extract_attr_bytes(t.as_slice(), nattr.as_slice()) {
                Some(nb) => {
                    let readable = camel_bytes(nb.as_slice());
                    let mut desc = readable.clone();
                    let ghost rs = readable@;
                    assert(desc@ == rs);
                    let low = ascii_lower(readable.as_slice());
                    assert(low@ =~= rs.map_values(|c: u8| spec_lower_byte(c)));
                    if contains_sub(t.as_slice(), hpat.as_slice()) {
                        let sfx = [32u8, 40u8, 104u8, 97u8, 114u8, 118u8, 101u8, 115u8, 116u8,
                            32u8, 114u8, 101u8, 97u8, 100u8, 121u8, 41u8];
                        let mut q: usize = 0;
                        while q < sfx.len()
                            invariant
                                q <= 16,
                                sfx@.len() == 16,
                                desc@ == rs + sfx@.take(q as int),
                            decreases 16 - q,
                        {
                            let byte = sfx[q];
                            desc.push(byte);
                            assert(desc@ =~= rs + sfx@.take(q + 1));
                            q += 1;
                        }
                        proof {
                            assert(sfx@.take(16) =~= sfx@);
                            assert(sfx@ =~= spec_harvest_suffix());
                        }
                    } else if contains_sub(t.as_slice(), wpat.as_slice()) {
                        let sfx = [32u8, 40u8, 119u8, 105u8, 116u8, 104u8, 101u8, 114u8, 101u8,
                            100u8, 41u8];
                        let mut q: usize = 0;
                        while q < sfx.len()
                            invariant
                                q <= 11,
                                sfx@.len() == 11,
                                desc@ == rs + sfx@.take(q as int),
                            decreases 11 - q,
                        {
                            let byte = sfx[q];
                            desc.push(byte);
                            assert(desc@ =~= rs + sfx@.take(q + 1));
                            q += 1;
                        }
                        proof {
                            assert(sfx@.take(11) =~= sfx@);
                            assert(sfx@ =~= spec_withered_suffix());
                        }
                    } else if contains_sub(t.as_slice(), cpat.as_slice()) {
                        let sfx = [32u8, 40u8, 99u8, 117u8, 116u8, 41u8];
                        let mut q: usize = 0;
                        while q < sfx.len()
                            invariant
                                q <= 6,
                                sfx@.len() == 6,
                                desc@ == rs + sfx@.take(q as int),
                            decreases 6 - q,
                        {
                            let byte = sfx[q];
                            desc.push(byte);
                            assert(desc@ =~= rs + sfx@.take(q + 1));
                            q += 1;
                        }
                        proof {
                            assert(sfx@.take(6) =~= sfx@);
                            assert(sfx@ =~= spec_cut_suffix());
                        }
                    } else if contains_sub(t.as_slice(), gpat.as_slice()) && !contains_sub(
                        low.as_slice(),
                        ipat.as_slice(),
                    ) {
                        let sfx = [32u8, 40u8, 103u8, 114u8, 111u8, 119u8, 105u8, 110u8, 103u8,
                            41u8];
                        let mut q: usize = 0;
                        while q < sfx.len()
                            invariant
                                q <= 10,
                                sfx@.len() == 10,
                                desc@ == rs + sfx@.take(q as int),
                            decreases 10 - q,
                        {
                            let byte = sfx[q];
                            desc.push(byte);
                            assert(desc@ =~= rs + sfx@.take(q + 1));
                            q += 1;
                        }
                        proof {
                            assert(sfx@.take(10) =~= sfx@);
                            assert(sfx@ =~= spec_growing_suffix());
                        }
                    } else {
                        assert(desc@ =~= rs + Seq::<u8>::empty());
                    }
                    proof {
                        assert(desc@ == spec_state_desc(ts));
                    }
                    let ghost out0 = out@;
                    let ghost descs = desc@;
                    let sdesc = string_from_utf8_or_empty(desc);
                    assert(spec_string_of(sdesc, descs));
                    out.push((state_index, sdesc));
                    proof {
                        assert(spec_foliage_rec(lsspec, k as int, state_index) == seq![
                            (state_index, spec_state_desc(ts)),
                        ] + spec_foliage_rec(lsspec, k + 1, spec_next_idx(state_index)));
                        let done = out@.len() - 1;
                        assert(full.take(done)
                            =~= full.take(done - 1) + seq![full[done - 1]]);
                        assert(full[done - 1] == (state_index, spec_state_desc(ts)));
                        assert(full =~= full.take(done) + spec_foliage_rec(lsspec, k + 1,
                            spec_next_idx(state_index)));
                        assert forall|i: int| 1 <= i < out@.len() implies #[trigger]
                        spec_state_entry_ok(out@, full, i) by {
                            if i < out@.len() - 1 {
                                assert(out@[i] == out0[i]);
                                assert(spec_state_entry_ok(out0, full, i));
                            } else {
                                assert(out@[i].0 == state_index);
                                assert(full[i - 1].0 == state_index);
                                assert(out@[i].1 == sdesc);
                                assert(full[i - 1].1 == descs);
                                assert(spec_string_of(sdesc, descs));
                            }
                        }
                    }
                    if state_index < 0xffffffffu32 {
                        state_index = state_index + 1;
                    }
                },
                None => {
                    proof {
                        assert(spec_foliage_rec(lsspec, k as int, state_index)
                            == spec_foliage_rec(lsspec, k + 1, state_index));
                    }
                },
            }
        } else {
            proof {
                assert(spec_foliage_rec(lsspec, k as int, state_index) == spec_foliage_rec(
                    lsspec,
                    k + 1,
                    state_index,
                ));
            }
        }
        k += 1;
    }
    proof {
        assert(spec_foliage_rec(lsspec, k as int, state_index) =~= Seq::<(u32, Seq<u8>)>::empty());
        assert(full =~= full.take(out@.len() - 1));
        assert(full.len() == out@.len() - 1);
    }
    out
}

// ---------------------------------------------------------------------------
// Fill types and paths
// ---------------------------------------------------------------------------

/// `<densityMapHeightType ` and `fillTypeName` in ASCII bytes.
pub open spec fn spec_height_type_tag() -> Seq<u8> {
    seq![
        60u8,
        100u8,
        101u8,
        110u8,
        115u8,
        105u8,
        116u8,
        121u8,
        77u8,
        97u8,
        112u8,
        72u8,
        101u8,
        105u8,
        103u8,
        104u8,
        116u8,
        84u8,
        121u8,
        112u8,
        101u8,
        32u8,
    ]
}

pub open spec fn spec_fill_type_name_attr() -> Seq<u8> {
    seq![102u8, 105u8, 108u8, 108u8, 84u8, 121u8, 112u8, 101u8, 78u8, 97u8, 109u8, 101u8]
}

/// The fill types read from line `k` on, numbering from `idx`: one entry
/// per trimmed line that holds a height-type element and names its fill
/// type.
pub open spec fn spec_fill_rec(ls: Seq<Seq<u8>>, k: int, idx: u32) -> Seq<(u32, Seq<u8>)>
    decreases ls.len() - k,
{
    if k < 0 || k >= ls.len() {
        Seq::empty()
    } else {
        let t = spec_trim(ls[k]);
        if spec_contains(t, spec_height_type_tag()) && spec_extract_attr_value(
            t,
            spec_fill_type_name_attr(),
        ) is Some {
            seq![
                (
                    idx,
                    spec_readable_name(
                        spec_extract_attr_value(t, spec_fill_type_name_attr())->Some_0,
                    ),
                ),
            ] + spec_fill_rec(ls, k + 1, spec_next_idx(idx))
        } else {
            spec_fill_rec(ls, k + 1, idx)
        }
    }
}

/// Reads the fill-type table of a height-types document: entry zero is
/// `Empty`, then one numbered entry per declared type — or nothing at all
/// when the document declares none.
#[verifier::rlimit(100)]
pub fn parse_fill_types(content: &str) -> (r: Vec<(u32, String)>)
    ensures
        ({
            let types = spec_fill_rec(spec_lines(content.spec_bytes()), 0, 1);
            &&& (types.len() == 0 ==> r@.len() == 0)
            &&& (types.len() > 0 ==> ({
                &&& r@.len() == 1 + types.len()
                &&& r@[0].0 == 0
                &&& r@[0].1@ == "Empty"@
                &&& spec_states_match(r@, types)
            }))
        }),
{
    let cb = content.as_bytes();
    let ghost lsspec = spec_lines(cb@);
    let lines = split_lines(cb);
    proof {
        assert(lines@.map_values(|v: Vec<u8>| v@) =~= lsspec);
    }

    let mut out: Vec<(u32, String)> = Vec::new();
    out.push((0, String::from_str("Empty")));
    let mut index: u32 = 1;

    let tag = [60u8, 100u8, 101u8, 110u8, 115u8, 105u8, 116u8, 121u8, 77u8, 97u8, 112u8, 72u8,
        101u8, 105u8, 103u8, 104u8, 116u8, 84u8, 121u8, 112u8, 101u8, 32u8];
    let fattr = [102u8, 105u8, 108u8, 108u8, 84u8, 121u8, 112u8, 101u8, 78u8, 97u8, 109u8, 101u8];
    assert(tag@ =~= spec_height_type_tag());
    assert(fattr@ =~= spec_fill_type_name_attr());

    let ghost full = spec_fill_rec(lsspec, 0, 1);
    let mut k: usize = 0;
    while k < lines.len()
        invariant
            k <= lines@.len(),
            lsspec == lines@.map_values(|v: Vec<u8>| v@),
            full == spec_fill_rec(lsspec, 0, 1),
            tag@ == spec_height_type_tag(),
            fattr@ == spec_fill_type_name_attr(),
            out@.len() >= 1,
            out@[0].0 == 0 && out@[0].1@ == "Empty"@,
            out@.len() == 1 + (full.len() - spec_fill_rec(lsspec, k as int, index).len()),
            full == full.take(out@.len() - 1) + spec_fill_rec(lsspec, k as int, index),
            spec_states_match(out@, full),
        decreases lines@.len() - k,
    {
        let t = trim_bytes(lines[k].as_slice());
        proof {
            assert(lsspec[k as int] == lines@[k as int]@);
        }
        let ghost ts = spec_trim(lsspec[k as int]);
        assert(t@ == ts);
        let mut name: Option<Vec<u8>> = None;
        if contains_sub(t.as_slice(), tag.as_slice()) {
            name = crate::resolver::extract_attr_bytes(t.as_slice(), fattr.as_slice());
        }
        match name {
            Some(nb) => {
                let readable = readable_name_bytes(nb.as_slice());
                let ghost descs = readable@;
                let sdesc = string_from_utf8_or_empty(readable);
                assert(spec_string_of(sdesc, descs));
                let ghost out0 = out@;
                out.push((index, sdesc));
                proof {
                    assert(spec_fill_rec(lsspec, k as int, index) == seq![(index, descs)]
                        + spec_fill_rec(lsspec, k + 1, spec_next_idx(index)));
                    let done = out@.len() - 1;
                    assert(full.take(done) =~= full.take(done - 1) + seq![full[done - 1]]);
                    assert(full[done - 1] == (index, descs));
                    assert(full =~= full.take(done) + spec_fill_rec(lsspec, k + 1, spec_next_idx(
                        index,
                    )));
                    assert forall|i: int| 1 <= i < out@.len() implies #[trigger]
                    spec_state_entry_ok(out@, full, i) by {
                        if i < out@.len() - 1 {
                            assert(out@[i] == out0[i]);
                            assert(spec_state_entry_ok(out0, full, i));
                        } else {
                            assert(out@[i].0 == index);
                            assert(full[i - 1] == (index, descs));
                            assert(out@[i].1 == sdesc);
                            assert(spec_string_of(sdesc, descs));
                        }
                    }
                }
                if index < 0xffffffffu32 {
                    index = index + 1;
                }
            },
            None => {
                proof {
                    assert(spec_fill_rec(lsspec, k as int, index) == spec_fill_rec(lsspec, k + 1,
                        index));
                }
            },
        }
        k += 1;
    }
    proof {
        assert(spec_fill_rec(lsspec, k as int, index) =~= Seq::<(u32, Seq<u8>)>::empty());
        assert(full =~= full.take(out@.len() - 1));
        assert(full.len() == out@.len() - 1);
    }
    if out.len() == 1 {
        let empty: Vec<(u32, String)> = Vec::new();
        return empty;
    }
    out
}

/// `$data/` in ASCII bytes.
pub open spec fn spec_data_prefix() -> Seq<u8> {
    seq![36u8, 100u8, 97u8, 116u8, 97u8, 47u8]
}

/// The path a configuration filename resolves to: `$data/` paths land under
/// the game data directory, anything else under the mod root, joined with a
/// slash.
pub open spec fn spec_resolve_path(
    f: Seq<u8>,
    mod_root: Option<Seq<u8>>,
    data_dir: Option<Seq<u8>>,
) -> Option<Seq<u8>> {
    if spec_starts_with(f, spec_data_prefix()) {
        match data_dir {
            Option::Some(d) => Option::Some(d + seq![47u8] + f.skip(6)),
            Option::None => Option::None,
        }
    } else {
        match mod_root {
            Option::Some(root) => Option::Some(root + seq![47u8] + f),
            Option::None => Option::None,
        }
    }
}

/// Resolves a configuration filename against the game data directory or
/// the mod root.
pub fn resolve_path(filename: &str, mod_root: &Option<String>, data_dir: Option<&str>) -> (r:
    Option<String>)
    ensures
        ({
            let mr = match mod_root {
                Option::Some(root) => Option::Some(vstd::utf8::encode_utf8(root@)),
                Option::None => Option::None,
            };
            let dd = match data_dir {
                Option::Some(d) => Option::Some(d.spec_bytes()),
                Option::None => Option::None,
            };
            match spec_resolve_path(filename.spec_bytes(), mr, dd) {
                Option::Some(v) => r matches Some(x) && spec_string_of(x, v),
                Option::None => r is None,
            }
        }),
{
    let fb = filename.as_bytes();
    let pre = [36u8, 100u8, 97u8, 116u8, 97u8, 47u8];
    assert(pre@ =~= spec_data_prefix());
    if starts_with_bytes(fb, pre.as_slice()) {
        match data_dir {
            Some(d) => {
                let db = d.as_bytes();
                let mut out: Vec<u8> = Vec::new();
                let mut q: usize = 0;
                while q < db.len()
                    invariant
                        q <= db@.len(),
                        out@ == db@.take(q as int),
                    decreases db@.len() - q,
                {
                    let byte = db[q];
                    out.push(byte);
                    assert(out@ =~= db@.take(q + 1));
                    q += 1;
                }
                assert(db@.take(db@.len() as int) =~= db@);
                out.push(47);
                let mut q2: usize = 6;
                while q2 < fb.len()
                    invariant
                        6 <= q2 <= fb@.len(),
                        out@ == db@ + seq![47u8] + fb@.subrange(6, q2 as int),
                    decreases fb@.len() - q2,
                {
                    let byte = fb[q2];
                    out.push(byte);
                    assert(out@ =~= db@ + seq![47u8] + fb@.subrange(6, q2 + 1));
                    q2 += 1;
                }
                proof {
                    assert(out@ =~= db@ + seq![47u8] + fb@.skip(6));
                }
                Some(string_from_utf8_or_empty(out))
            },
            None => None,
        }
    } else {
        match mod_root {
            Some(root) => {
                let rb = root.as_str().as_bytes();
                let mut out: Vec<u8> = Vec::new();
                let mut q: usize = 0;
                while q < rb.len()
                    invariant
                        q <= rb@.len(),
                        out@ == rb@.take(q as int),
                    decreases rb@.len() - q,
                {
                    let byte = rb[q];
                    out.push(byte);
                    assert(out@ =~= rb@.take(q + 1));
                    q += 1;
                }
                assert(rb@.take(rb@.len() as int) =~= rb@);
                out.push(47);
                let mut q2: usize = 0;
                while q2 < fb.len()
                    invariant
                        q2 <= fb@.len(),
                        out@ == rb@ + seq![47u8] + fb@.take(q2 as int),
                    decreases fb@.len() - q2,
                {
                    let byte = fb[q2];
                    out.push(byte);
                    assert(out@ =~= rb@ + seq![47u8] + fb@.take(q2 + 1));
                    q2 += 1;
                }
                proof {
                    assert(fb@.take(fb@.len() as int) =~= fb@);
                }
                Some(string_from_utf8_or_empty(out))
            },
            None => None,
        }
    }
}

} // verus!
