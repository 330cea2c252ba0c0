//! The channel-layout resolver: given the text of a scene-description
//! document and a target image name, finds the file's identifier and the
//! layer element referencing it, and reads the channel layout from it.

use vstd::prelude::*;
use vstd::string::StringSliceAdditionalSpecFns;
use crate::textscan::{
    spec_find, spec_contains, spec_lines, spec_parse_dec, find_sub, contains_sub, split_lines,
    parse_dec,
};

verus! {

/// Which binary format a layer uses.
#[derive(Debug, Clone, PartialEq, Eq, Structural)]
pub enum LayerType {
    /// An info layer, stored run-length encoded.
    InfoLayer,
    /// A detail or foliage layer, stored as a chunked density map.
    GdmLayer,
}

/// The channel layout resolved for one file.
#[derive(Debug, Clone)]
pub struct LayerParams {
    pub layer_type: LayerType,
    pub num_channels: usize,
    pub compression_channels: Option<usize>,
}

// ---------------------------------------------------------------------------
// Attribute extraction
// ---------------------------------------------------------------------------

/// The bytes between `attr="` and the next quote, if both appear.
pub open spec fn spec_extract_attr_value(l: Seq<u8>, attr: Seq<u8>) -> Option<Seq<u8>> {
    let pat = attr + seq![61u8, 34u8];
    match spec_find(l, pat) {
        Option::Some(s) => {
            let rest = l.skip(s + pat.len());
            match spec_find(rest, seq![34u8]) {
                Option::Some(e) => Option::Some(rest.subrange(0, e)),
                Option::None => Option::None,
            }
        },
        Option::None => Option::None,
    }
}

/// The attribute value read as an unsigned decimal within `max`.
pub open spec fn spec_extract_attr_num(l: Seq<u8>, attr: Seq<u8>, max: nat) -> Option<nat> {
    match spec_extract_attr_value(l, attr) {
        Option::Some(v) => spec_parse_dec(v, max),
        Option::None => Option::None,
    }
}

/// Extracts the value bytes of `attr="..."` from a line of bytes.
pub fn extract_attr_bytes(lb: &[u8], attr: &[u8]) -> (r: Option<Vec<u8>>)
    ensures
        match spec_extract_attr_value(lb@, attr@) {
            Option::Some(v) => r matches Some(x) && x@ == v,
            Option::None => r is None,
        },
{
    let mut pat: Vec<u8> = Vec::new();
    let mut k: usize = 0;
    while k < attr.len()
        invariant
            k <= attr@.len(),
            pat@ == attr@.take(k as int),
        decreases attr@.len() - k,
    {
        let byte = attr[k];
        pat.push(byte);
        assert(pat@ =~= attr@.take(k + 1));
        k += 1;
    }
    pat.push(61);
    pat.push(34);
    assert(attr@.take(attr@.len() as int) =~= attr@);
    assert(pat@ =~= attr@ + seq![61u8, 34u8]);

    let s = match find_sub(lb, pat.as_slice()) {
        Some(s) => s,
        None => {
            return None;
        },
    };
    proof {
        crate::textscan::lemma_find_props(lb@, pat@);
    }
    let lblen = lb.len();
    let rest = vstd::slice::slice_subrange(lb, s + pat.len(), lblen);
    assert(rest@ =~= lb@.skip(s + pat@.len()));
    let mut quote: Vec<u8> = Vec::new();
    quote.push(34);
    assert(quote@ =~= seq![34u8]);
    let e = match find_sub(rest, quote.as_slice()) {
        Some(e) => e,
        None => {
            return None;
        },
    };
    proof {
        crate::textscan::lemma_find_props(rest@, quote@);
    }
    let val = vstd::slice::slice_subrange(rest, 0, e);
    let mut out: Vec<u8> = Vec::new();
    let mut q: usize = 0;
    while q < val.len()
        invariant
            q <= val@.len(),
            out@ == val@.take(q as int),
        decreases val@.len() - q,
    {
        let byte = val[q];
        out.push(byte);
        assert(out@ =~= val@.take(q + 1));
        q += 1;
    }
    assert(out@ =~= rest@.subrange(0, e as int));
    Some(out)
}

/// Reads the unsigned decimal value of `attr="..."` from a line.
pub fn extract_attr(line: &str, attr_name: &str) -> (r: Option<usize>)
    ensures
        match spec_extract_attr_num(line.spec_bytes(), attr_name.spec_bytes(), usize::MAX as nat) {
            Option::Some(v) => r matches Some(x) && x == v,
            Option::None => r is None,
        },
{
    let lb = line.as_bytes();
    let ab = attr_name.as_bytes();
    match extract_attr_bytes(lb, ab) {
        Some(v) => {
            match parse_dec(v.as_slice(), usize::MAX as u64) {
                Some(n) => Some(n as usize),
                None => None,
            }
        },
        None => None,
    }
}

// ---------------------------------------------------------------------------
// Layer lookup
// ---------------------------------------------------------------------------

/// `<File` in ASCII bytes.
pub open spec fn spec_file_tag() -> Seq<u8> {
    seq![60u8, 70u8, 105u8, 108u8, 101u8]
}

/// `fileId` in ASCII bytes.
pub open spec fn spec_file_id_attr() -> Seq<u8> {
    seq![102u8, 105u8, 108u8, 101u8, 73u8, 100u8]
}

/// A line declares the target file and carries a readable file identifier.
pub open spec fn spec_file_line_sat(l: Seq<u8>, target: Seq<u8>) -> bool {
    spec_contains(l, spec_file_tag()) && spec_contains(l, target) && spec_extract_attr_value(
        l,
        spec_file_id_attr(),
    ) is Some
}

/// The first line satisfying a predicate, as an index into the lines.
pub open spec fn spec_first_file_line(ls: Seq<Seq<u8>>, target: Seq<u8>) -> Option<int>
    decreases ls.len(),
{
    if ls.len() == 0 {
        Option::None
    } else if spec_file_line_sat(ls[0], target) {
        Option::Some(0)
    } else {
        match spec_first_file_line(ls.skip(1), target) {
            Option::Some(i) => Option::Some(i + 1),
            Option::None => Option::None,
        }
    }
}

/// The identifier of the target file: read from the first `<File` line that
/// names the target and carries one.
pub open spec fn spec_target_file_id(content: Seq<u8>, target: Seq<u8>) -> Option<Seq<u8>> {
    let ls = spec_lines(content);
    match spec_first_file_line(ls, target) {
        Option::Some(i) => spec_extract_attr_value(ls[i], spec_file_id_attr()),
        Option::None => Option::None,
    }
}

/// A layer line: holds the element tag and the reference `attr="id"`, and
/// its channel-count attribute parses.
pub open spec fn spec_layer_line_sat(
    l: Seq<u8>,
    tag: Seq<u8>,
    ref_attr: Seq<u8>,
    id: Seq<u8>,
    count_attr: Seq<u8>,
    count_must_parse: bool,
) -> bool {
    let ref_pat = ref_attr + seq![61u8, 34u8] + id + seq![34u8];
    spec_contains(l, tag) && spec_contains(l, ref_pat) && (count_must_parse ==> spec_extract_attr_num(
        l,
        count_attr,
        usize::MAX as nat,
    ) is Some)
}

/// The first layer line of a kind.
pub open spec fn spec_first_layer_line(
    ls: Seq<Seq<u8>>,
    tag: Seq<u8>,
    ref_attr: Seq<u8>,
    id: Seq<u8>,
    count_attr: Seq<u8>,
    count_must_parse: bool,
) -> Option<int>
    decreases ls.len(),
{
    if ls.len() == 0 {
        Option::None
    } else if spec_layer_line_sat(ls[0], tag, ref_attr, id, count_attr, count_must_parse) {
        Option::Some(0)
    } else {
        match spec_first_layer_line(ls.skip(1), tag, ref_attr, id, count_attr, count_must_parse) {
            Option::Some(i) => Option::Some(i + 1),
            Option::None => Option::None,
        }
    }
}

/// Finds the first line satisfying `spec_file_line_sat`.
fn find_file_line(lines: &Vec<Vec<u8>>, target: &[u8], file_tag: &[u8], file_id_attr: &[u8]) -> (r:
    Option<usize>)
    requires
        file_tag@ == spec_file_tag(),
        file_id_attr@ == spec_file_id_attr(),
    ensures
        match spec_first_file_line(lines@.map_values(|v: Vec<u8>| v@), target@) {
            Option::Some(i) => r matches Some(x) && x == i && x < lines@.len()
                && spec_file_line_sat(lines@.map_values(|v: Vec<u8>| v@)[i], target@),
            Option::None => r is None,
        },
{
    let ghost ls = lines@.map_values(|v: Vec<u8>| v@);
    proof {
        assert(ls.skip(0) =~= ls);
    }
    let mut i: usize = 0;
    while i < lines.len()
        invariant
            i <= lines@.len(),
            ls == lines@.map_values(|v: Vec<u8>| v@),
            file_tag@ == spec_file_tag(),
            file_id_attr@ == spec_file_id_attr(),
            forall|j: int| 0 <= j < i ==> !spec_file_line_sat(ls[j], target@),
            spec_first_file_line(ls, target@) == match spec_first_file_line(
                ls.skip(i as int),
                target@,
            ) {
                Option::Some(k) => Option::Some(k + i),
                Option::None => Option::None::<int>,
            },
        decreases lines@.len() - i,
    {
        let line = &lines[i];
        let ok = contains_sub(line.as_slice(), file_tag) && contains_sub(line.as_slice(), target)
            && matches!(extract_attr_bytes(line.as_slice(), file_id_attr), Some(_));
        proof {
            assert(ls[i as int] == lines@[i as int]@);
            assert(ls.skip(i as int)[0] == ls[i as int]);
        }
        if ok {
            assert(spec_file_line_sat(ls[i as int], target@));
            assert(spec_first_file_line(ls.skip(i as int), target@) == Option::Some(0int));
            return Some(i);
        }
        assert(!spec_file_line_sat(ls[i as int], target@));
        proof {
            assert(ls.skip(i as int).skip(1) =~= ls.skip(i + 1));
        }
        i += 1;
    }
    proof {
        assert(ls.skip(i as int) =~= Seq::<Seq<u8>>::empty());
    }
    None
}

/// Finds the first line satisfying `spec_layer_line_sat`.
fn find_layer_line(
    lines: &Vec<Vec<u8>>,
    tag: &[u8],
    ref_attr: &[u8],
    id: &[u8],
    count_attr: &[u8],
    count_must_parse: bool,
) -> (r: Option<usize>)
    ensures
        match spec_first_layer_line(
            lines@.map_values(|v: Vec<u8>| v@),
            tag@,
            ref_attr@,
            id@,
            count_attr@,
            count_must_parse,
        ) {
            Option::Some(i) => r matches Some(x) && x == i && x < lines@.len()
                && spec_layer_line_sat(
                lines@.map_values(|v: Vec<u8>| v@)[i],
                tag@,
                ref_attr@,
                id@,
                count_attr@,
                count_must_parse,
            ),
            Option::None => r is None,
        },
{
    let ghost ls = lines@.map_values(|v: Vec<u8>| v@);
    let mut ref_pat: Vec<u8> = Vec::new();
    let mut k: usize = 0;
    while k < ref_attr.len()
        invariant
            k <= ref_attr@.len(),
            ref_pat@ == ref_attr@.take(k as int),
        decreases ref_attr@.len() - k,
    {
        let byte = ref_attr[k];
        ref_pat.push(byte);
        assert(ref_pat@ =~= ref_attr@.take(k + 1));
        k += 1;
    }
    ref_pat.push(61);
    ref_pat.push(34);
    let mut k2: usize = 0;
    while k2 < id.len()
        invariant
            k2 <= id@.len(),
            ref_pat@ == ref_attr@.take(ref_attr@.len() as int) + seq![61u8, 34u8] + id@.take(
                k2 as int,
            ),
        decreases id@.len() - k2,
    {
        let byte = id[k2];
        ref_pat.push(byte);
        assert(ref_pat@ =~= ref_attr@.take(ref_attr@.len() as int) + seq![61u8, 34u8] + id@.take(
            k2 + 1,
        ));
        k2 += 1;
    }
    ref_pat.push(34);
    proof {
        assert(ref_attr@.take(ref_attr@.len() as int) =~= ref_attr@);
        assert(id@.take(id@.len() as int) =~= id@);
        assert(ref_pat@ =~= ref_attr@ + seq![61u8, 34u8] + id@ + seq![34u8]);
    }

    proof {
        assert(ls.skip(0) =~= ls);
    }
    let mut i: usize = 0;
    while i < lines.len()
        invariant
            i <= lines@.len(),
            ls == lines@.map_values(|v: Vec<u8>| v@),
            ref_pat@ == ref_attr@ + seq![61u8, 34u8] + id@ + seq![34u8],
            forall|j: int|
                0 <= j < i ==> !spec_layer_line_sat(ls[j], tag@, ref_attr@, id@, count_attr@,
                    count_must_parse),
            spec_first_layer_line(ls, tag@, ref_attr@, id@, count_attr@, count_must_parse)
                == match spec_first_layer_line(
                ls.skip(i as int),
                tag@,
                ref_attr@,
                id@,
                count_attr@,
                count_must_parse,
            ) {
                Option::Some(k) => Option::Some(k + i),
                Option::None => Option::None::<int>,
            },
        decreases lines@.len() - i,
    {
        let line = &lines[i];
        let mut ok = contains_sub(line.as_slice(), tag) && contains_sub(
            line.as_slice(),
            ref_pat.as_slice(),
        );
        if ok && count_must_parse {
            ok = match extract_attr_bytes(line.as_slice(), count_attr) {
                Some(v) => matches!(parse_dec(v.as_slice(), usize::MAX as u64), Some(_)),
                None => false,
            };
        }
        proof {
            assert(ls[i as int] == lines@[i as int]@);
            assert(ls.skip(i as int)[0] == ls[i as int]);
        }
        if ok {
            assert(spec_layer_line_sat(ls[i as int], tag@, ref_attr@, id@, count_attr@,
                count_must_parse));
            return Some(i);
        }
        assert(!spec_layer_line_sat(ls[i as int], tag@, ref_attr@, id@, count_attr@,
            count_must_parse));
        proof {
            assert(ls.skip(i as int).skip(1) =~= ls.skip(i + 1));
        }
        i += 1;
    }
    proof {
        assert(ls.skip(i as int) =~= Seq::<Seq<u8>>::empty());
    }
    None
}

// ---------------------------------------------------------------------------
// The resolver itself
// ---------------------------------------------------------------------------

/// `numChannels` in ASCII bytes.
pub open spec fn spec_info_attr() -> Seq<u8> {
    seq![110u8, 117u8, 109u8, 67u8, 104u8, 97u8, 110u8, 110u8, 101u8, 108u8, 115u8]
}

/// `<InfoLayer` in ASCII bytes.
pub open spec fn spec_info_tag() -> Seq<u8> {
    seq![60u8, 73u8, 110u8, 102u8, 111u8, 76u8, 97u8, 121u8, 101u8, 114u8]
}

/// `<DetailLayer` in ASCII bytes.
pub open spec fn spec_detail_tag() -> Seq<u8> {
    seq![60u8, 68u8, 101u8, 116u8, 97u8, 105u8, 108u8, 76u8, 97u8, 121u8, 101u8, 114u8]
}

/// `<FoliageMultiLayer` in ASCII bytes.
pub open spec fn spec_foliage_tag() -> Seq<u8> {
    seq![
        60u8,
        70u8,
        111u8,
        108u8,
        105u8,
        97u8,
        103u8,
        101u8,
        77u8,
        117u8,
        108u8,
        116u8,
        105u8,
        76u8,
        97u8,
        121u8,
        101u8,
        114u8,
    ]
}

/// `densityMapId` in ASCII bytes.
pub open spec fn spec_density_attr() -> Seq<u8> {
    seq![100u8, 101u8, 110u8, 115u8, 105u8, 116u8, 121u8, 77u8, 97u8, 112u8, 73u8, 100u8]
}

/// `numDensityMapChannels` in ASCII bytes.
pub open spec fn spec_ndmc_attr() -> Seq<u8> {
    seq![
        110u8,
        117u8,
        109u8,
        68u8,
        101u8,
        110u8,
        115u8,
        105u8,
        116u8,
        121u8,
        77u8,
        97u8,
        112u8,
        67u8,
        104u8,
        97u8,
        110u8,
        110u8,
        101u8,
        108u8,
        115u8,
    ]
}

/// `compressionChannels` in ASCII bytes.
pub open spec fn spec_cc_attr() -> Seq<u8> {
    seq![
        99u8,
        111u8,
        109u8,
        112u8,
        114u8,
        101u8,
        115u8,
        115u8,
        105u8,
        111u8,
        110u8,
        67u8,
        104u8,
        97u8,
        110u8,
        110u8,
        101u8,
        108u8,
        115u8,
    ]
}

/// The channel layout the descriptor text resolves for the target name:
/// the target's file identifier is looked up, then the first info, detail
/// or foliage layer that references it decides format and channels.
pub open spec fn spec_find_layer_params(content: Seq<u8>, target: Seq<u8>) -> Option<LayerParams> {
    let ls = spec_lines(content);
    match spec_target_file_id(content, target) {
        Option::None => Option::None,
        Option::Some(id) => {
            match spec_first_layer_line(ls, spec_info_tag(), spec_file_id_attr(), id,
                spec_info_attr(), true) {
                Option::Some(i) => Option::Some(
                    LayerParams {
                        layer_type: LayerType::InfoLayer,
                        num_channels: spec_extract_attr_num(
                            ls[i],
                            spec_info_attr(),
                            usize::MAX as nat,
                        )->Some_0 as usize,
                        compression_channels: Option::None,
                    },
                ),
                Option::None => {
                    match spec_first_layer_line(ls, spec_detail_tag(), spec_density_attr(), id,
                        spec_ndmc_attr(), false) {
                        Option::Some(i) => spec_gdm_layer_of(ls[i], spec_ndmc_attr()),
                        Option::None => {
                            match spec_first_layer_line(ls, spec_foliage_tag(),
                                spec_density_attr(), id, spec_info_attr(), false) {
                                Option::Some(i) => spec_gdm_layer_of(ls[i], spec_info_attr()),
                                Option::None => Option::None,
                            }
                        },
                    }
                },
            }
        },
    }
}

/// The density-map layout read from one layer line: the channel count is
/// required, the compression split optional.
pub open spec fn spec_gdm_layer_of(l: Seq<u8>, count_attr: Seq<u8>) -> Option<LayerParams> {
    match spec_extract_attr_num(l, count_attr, usize::MAX as nat) {
        Option::Some(nc) => Option::Some(
            LayerParams {
                layer_type: LayerType::GdmLayer,
                num_channels: nc as usize,
                compression_channels: match spec_extract_attr_num(
                    l,
                    spec_cc_attr(),
                    usize::MAX as nat,
                ) {
                    Option::Some(c) => Option::Some(c as usize),
                    Option::None => Option::None,
                },
            },
        ),
        Option::None => Option::None,
    }
}

fn tag_file() -> (r: Vec<u8>)
    ensures
        r@ == spec_file_tag(),
{
    let mut v: Vec<u8> = Vec::new();
    v.push(60);
    v.push(70);
    v.push(105);
    v.push(108);
    v.push(101);
    assert(v@ =~= spec_file_tag());
    v
}

fn attr_file_id() -> (r: Vec<u8>)
    ensures
        r@ == spec_file_id_attr(),
{
    let mut v: Vec<u8> = Vec::new();
    v.push(102);
    v.push(105);
    v.push(108);
    v.push(101);
    v.push(73);
    v.push(100);
    assert(v@ =~= spec_file_id_attr());
    v
}

fn attr_num_channels() -> (r: Vec<u8>)
    ensures
        r@ == spec_info_attr(),
{
    let mut v: Vec<u8> = Vec::new();
    v.push(110);
    v.push(117);
    v.push(109);
    v.push(67);
    v.push(104);
    v.push(97);
    v.push(110);
    v.push(110);
    v.push(101);
    v.push(108);
    v.push(115);
    assert(v@ =~= spec_info_attr());
    v
}

fn tag_info_layer() -> (r: Vec<u8>)
    ensures
        r@ == spec_info_tag(),
{
    let mut v: Vec<u8> = Vec::new();
    v.push(60);
    v.push(73);
    v.push(110);
    v.push(102);
    v.push(111);
    v.push(76);
    v.push(97);
    v.push(121);
    v.push(101);
    v.push(114);
    assert(v@ =~= spec_info_tag());
    v
}

fn tag_detail_layer() -> (r: Vec<u8>)
    ensures
        r@ == spec_detail_tag(),
{
    let mut v: Vec<u8> = Vec::new();
    v.push(60);
    v.push(68);
    v.push(101);
    v.push(116);
    v.push(97);
    v.push(105);
    v.push(108);
    v.push(76);
    v.push(97);
    v.push(121);
    v.push(101);
    v.push(114);
    assert(v@ =~= spec_detail_tag());
    v
}

fn tag_foliage_layer() -> (r: Vec<u8>)
    ensures
        r@ == spec_foliage_tag(),
{
    let mut v: Vec<u8> = Vec::new();
    v.push(60);
    v.push(70);
    v.push(111);
    v.push(108);
    v.push(105);
    v.push(97);
    v.push(103);
    v.push(101);
    v.push(77);
    v.push(117);
    v.push(108);
    v.push(116);
    v.push(105);
    v.push(76);
    v.push(97);
    v.push(121);
    v.push(101);
    v.push(114);
    assert(v@ =~= spec_foliage_tag());
    v
}

fn attr_density_map_id() -> (r: Vec<u8>)
    ensures
        r@ == spec_density_attr(),
{
    let mut v: Vec<u8> = Vec::new();
    v.push(100);
    v.push(101);
    v.push(110);
    v.push(115);
    v.push(105);
    v.push(116);
    v.push(121);
    v.push(77);
    v.push(97);
    v.push(112);
    v.push(73);
    v.push(100);
    assert(v@ =~= spec_density_attr());
    v
}

fn attr_ndm_channels() -> (r: Vec<u8>)
    ensures
        r@ == spec_ndmc_attr(),
{
    let mut v: Vec<u8> = Vec::new();
    v.push(110);
    v.push(117);
    v.push(109);
    v.push(68);
    v.push(101);
    v.push(110);
    v.push(115);
    v.push(105);
    v.push(116);
    v.push(121);
    v.push(77);
    v.push(97);
    v.push(112);
    v.push(67);
    v.push(104);
    v.push(97);
    v.push(110);
    v.push(110);
    v.push(101);
    v.push(108);
    v.push(115);
    assert(v@ =~= spec_ndmc_attr());
    v
}

fn attr_compression_channels() -> (r: Vec<u8>)
    ensures
        r@ == spec_cc_attr(),
{
    let mut v: Vec<u8> = Vec::new();
    v.push(99);
    v.push(111);
    v.push(109);
    v.push(112);
    v.push(114);
    v.push(101);
    v.push(115);
    v.push(115);
    v.push(105);
    v.push(111);
    v.push(110);
    v.push(67);
    v.push(104);
    v.push(97);
    v.push(110);
    v.push(110);
    v.push(101);
    v.push(108);
    v.push(115);
    assert(v@ =~= spec_cc_attr());
    v
}

/// Reads the density-map layout from one layer line.
fn gdm_layer_of(line: &[u8], count_attr: &[u8]) -> (r: Option<LayerParams>)
    ensures
        match spec_gdm_layer_of(line@, count_attr@) {
            Option::Some(p) => r matches Some(x) && x.layer_type == p.layer_type
                && x.num_channels == p.num_channels && x.compression_channels
                == p.compression_channels,
            Option::None => r is None,
        },
{
    let nc = match extract_attr_bytes(line, count_attr) {
        Some(v) => match parse_dec(v.as_slice(), usize::MAX as u64) {
            Some(n) => n as usize,
            None => {
                return None;
            },
        },
        None => {
            return None;
        },
    };
    let ccattr = attr_compression_channels();
    let cc = match extract_attr_bytes(line, ccattr.as_slice()) {
        Some(v) => match parse_dec(v.as_slice(), usize::MAX as u64) {
            Some(n) => Some(n as usize),
            None => None,
        },
        None => None,
    };
    Some(LayerParams { layer_type: LayerType::GdmLayer, num_channels: nc, compression_channels: cc })
}

/// Resolves the channel layout of `target_png` from the text of the scene
/// descriptor: the file's identifier is looked up, then the first layer
/// element that references it.
pub fn find_layer_params(content: &str, target_png: &str) -> (r: Option<LayerParams>)
    ensures
        match spec_find_layer_params(content.spec_bytes(), target_png.spec_bytes()) {
            Option::Some(p) => r matches Some(x) && x.layer_type == p.layer_type
                && x.num_channels == p.num_channels && x.compression_channels
                == p.compression_channels,
            Option::None => r is None,
        },
{
    let cb = content.as_bytes();
    let tb = target_png.as_bytes();
    let ghost lsspec = spec_lines(cb@);
    let lines = split_lines(cb);
    proof {
        assert(lines@.map_values(|v: Vec<u8>| v@) =~= lsspec);
    }

    let file_tag = tag_file();
    let file_id_attr = attr_file_id();
    let fi = match find_file_line(&lines, tb, file_tag.as_slice(), file_id_attr.as_slice()) {
        Some(i) => i,
        None => {
            return None;
        },
    };
    proof {
        assert(lines@[fi as int]@ == lsspec[fi as int]);
    }
    let id = match extract_attr_bytes(lines[fi].as_slice(), file_id_attr.as_slice()) {
        Some(v) => v,
        None => {
            proof {
                assert(spec_file_line_sat(lsspec[fi as int], tb@));
            }
            assert(false);
            return None;
        },
    };
    proof {
        assert(lines@[fi as int]@ == lsspec[fi as int]);
        assert(spec_target_file_id(cb@, tb@) == Option::Some(id@));
    }

    let info_tag = tag_info_layer();
    let info_attr = attr_num_channels();
    match find_layer_line(&lines, info_tag.as_slice(), file_id_attr.as_slice(), id.as_slice(),
        info_attr.as_slice(), true) {
        Some(i) => {
            proof {
                assert(lines@[i as int]@ == lsspec[i as int]);
            }
            let nc = match extract_attr_bytes(lines[i].as_slice(), info_attr.as_slice()) {
                Some(v) => match parse_dec(v.as_slice(), usize::MAX as u64) {
                    Some(n) => n as usize,
                    None => {
                        proof {
                            assert(spec_layer_line_sat(lsspec[i as int], spec_info_tag(),
                                spec_file_id_attr(), id@, spec_info_attr(), true));
                        }
                        assert(false);
                        return None;
                    },
                },
                None => {
                    proof {
                        assert(spec_layer_line_sat(lsspec[i as int], spec_info_tag(),
                            spec_file_id_attr(), id@, spec_info_attr(), true));
                    }
                    assert(false);
                    return None;
                },
            };
            return Some(
                LayerParams {
                    layer_type: LayerType::InfoLayer,
                    num_channels: nc,
                    compression_channels: None,
                },
            );
        },
        None => {},
    }

    let detail_tag = tag_detail_layer();
    let density_attr = attr_density_map_id();
    let ndmc_attr = attr_ndm_channels();
    match find_layer_line(&lines, detail_tag.as_slice(), density_attr.as_slice(), id.as_slice(),
        ndmc_attr.as_slice(), false) {
        Some(i) => {
            proof {
                assert(lines@[i as int]@ == lsspec[i as int]);
            }
            return gdm_layer_of(lines[i].as_slice(), ndmc_attr.as_slice());
        },
        None => {},
    }

    let foliage_tag = tag_foliage_layer();
    match find_layer_line(&lines, foliage_tag.as_slice(), density_attr.as_slice(), id.as_slice(),
        info_attr.as_slice(), false) {
        Some(i) => {
            proof {
                assert(lines@[i as int]@ == lsspec[i as int]);
            }
            return gdm_layer_of(lines[i].as_slice(), info_attr.as_slice());
        },
        None => {},
    }
    None
}

} // verus!
