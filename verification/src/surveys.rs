//! What walks from header to header, which look into no slices, find in streams of
//! whole data units.
use crate::bitio::Input;
use crate::coding;
use crate::conformance;
use crate::conformance::Grading;
use crate::error::Error;
use crate::grading;
use crate::headers;
use crate::headers::MatrixChoice;
use crate::mxf;
use crate::mxf::Scan;
use crate::params;
use crate::params::SequenceHeader;
use crate::probe;
use crate::probe::Evidence;
use crate::sequence;
use crate::sequence::{DataUnit, FragmentHeader, ParseInfo};
use crate::transform;
use crate::transform::{PictureKind, Transform};
use crate::units;
use crate::units::WrittenHeader;
use crate::writing;
use vstd::arithmetic::power2;
use vstd::prelude::*;

verus! {

/// A data unit: its header, and its bytes, header included.
pub struct WholeUnit {
    pub header: ParseInfo,
    pub bytes: Seq<u8>,
}

impl WholeUnit {
    /// Whether the bytes begin with the header and are as many as it says; that of
    /// an end of sequence need not say.
    pub open spec fn whole(self) -> bool {
        &&& Input::start(self.bytes).offers(headers::parse_info_bits(self.header))
        &&& self.bytes.len() >= 13
        &&& {
            ||| self.header.next_parse_offset == self.bytes.len()
            ||| self.header.parse_code == 0x10 && self.header.next_parse_offset == 0
                && self.bytes.len() == 13
        }
    }
}

/// Data units one after another, from number `from` on.
pub open spec fn joined(us: Seq<WholeUnit>, from: int) -> Seq<u8>
    decreases us.len() - from,
{
    if from < 0 || from >= us.len() {
        seq![]
    } else {
        us[from].bytes + joined(us, from + 1)
    }
}

/// More data behind do not change what comes first.
proof fn lemma_offers_more(i: Input, more: Seq<u8>, x: Seq<int>)
    requires
        i.wf(),
        !i.overrun,
        i.offers(x),
    ensures
        (Input { rest: i.rest + more, ..i }).offers(x),
    decreases x.len(),
{
    if x.len() > 0 {
        let j = Input { rest: i.rest + more, ..i };
        let k = i.after_bit();
        lemma_offers_more(k, more, x.skip(1));
        assert(j.after_bit().rest =~= k.rest + more);
        assert(j.after_bit() == (Input { rest: k.rest + more, ..k }));
    }
}

/// The header of a data unit that more data units follow.
proof fn lemma_header_at(us: Seq<WholeUnit>, from: int) -> (j: Input)
    requires
        0 <= from < us.len(),
        us[from].whole(),
    ensures
        ({
            let data = joined(us, from);
            &&& sequence::spec_parse_info(Input::start(data)) == (
                j,
                Ok::<ParseInfo, Error>(us[from].header),
            )
            &&& j == Input::start(data).after_bits(104)
            &&& sequence::distance(us[from].header) == Some(us[from].bytes.len() as int)
            &&& data.len() == us[from].bytes.len() + joined(us, from + 1).len()
            &&& data.skip(us[from].bytes.len() as int) == joined(us, from + 1)
            &&& data.take(us[from].bytes.len() as int) == us[from].bytes
        }),
{
    let u = us[from];
    let (data, rest) = (joined(us, from), joined(us, from + 1));
    let i = Input::start(u.bytes);
    lemma_offers_more(i, rest, headers::parse_info_bits(u.header));
    assert(Input::start(data) == (Input { rest: i.rest + rest, ..i }));
    headers::law_parse_infos_read_back(Input::start(data), u.header);
    assert(data.skip(u.bytes.len() as int) =~= rest);
    assert(data.take(u.bytes.len() as int) =~= u.bytes);
    Input::start(data).after_bits(104)
}

/// Data units are at least as long as their headers.
proof fn lemma_joined_size(us: Seq<WholeUnit>, from: int)
    requires
        forall|k: int| 0 <= k < us.len() ==> (#[trigger] us[k]).whole(),
        0 <= from < us.len(),
    ensures
        joined(us, from).len() >= 13,
{
    assert(us[from].whole());
}

/// Whether a data unit has a defined code.
pub open spec fn known(u: WholeUnit) -> bool {
    sequence::spec_classify(u.header.parse_code) != DataUnit::Reserved
}

/// Whole data units confirm that a stream is what its tag says, and those of
/// undefined codes leave it open.
pub proof fn law_whole_units_are_confirmed(us: Seq<WholeUnit>, from: int)
    requires
        forall|k: int| 0 <= k < us.len() ==> (#[trigger] us[k]).whole(),
        0 <= from < us.len(),
    ensures
        probe::spec_grade(joined(us, from)) == if forall|k: int|
            from <= k < us.len() ==> known(#[trigger] us[k]) {
            Evidence::Confirmed
        } else {
            Evidence::Weak
        },
    decreases us.len() - from,
{
    assert(us[from].whole());
    let j = lemma_header_at(us, from);
    let all = forall|k: int| from <= k < us.len() ==> known(#[trigger] us[k]);
    if from + 1 < us.len() {
        lemma_joined_size(us, from + 1);
        law_whole_units_are_confirmed(us, from + 1);
        let more = forall|k: int| from + 1 <= k < us.len() ==> known(#[trigger] us[k]);
        if known(us[from]) && more {
            assert(all);
        }
        if !known(us[from]) {
            assert(!all);
        }
    } else {
        assert(joined(us, from + 1).len() == 0);
        if known(us[from]) {
            assert(all);
        } else {
            assert(!all);
        }
    }
}

/// Whole data units are a complete sequence where the first is a sequence header and
/// the last, and no other, an end of sequence.
pub proof fn law_whole_sequences_are_complete(us: Seq<WholeUnit>, from: int)
    requires
        forall|k: int| 0 <= k < us.len() ==> (#[trigger] us[k]).whole(),
        0 <= from < us.len(),
        forall|k: int|
            0 <= k < us.len() ==> ((#[trigger] us[k]).header.parse_code == 0x10 <==> k == us.len()
                - 1),
        us[us.len() - 1].bytes.len() == 13,
    ensures
        mxf::complete_from(joined(us, from), false),
        us[from].header.parse_code == 0x00 ==> mxf::complete_from(joined(us, from), true),
        us[from].header.parse_code != 0x00 ==> !mxf::complete_from(joined(us, from), true),
    decreases us.len() - from,
{
    assert(us[from].whole());
    let j = lemma_header_at(us, from);
    if from + 1 < us.len() {
        lemma_joined_size(us, from + 1);
        law_whole_sequences_are_complete(us, from + 1);
        assert(us[from].header.parse_code != 0x10);
    } else {
        assert(joined(us, from + 1).len() == 0);
    }
}

/// What a data unit holds, as far as a scan looks.
pub enum Content {
    Header(WrittenHeader, SequenceHeader),
    /// A picture: its kind and number, and the transform parameters.
    Picture(PictureKind, u32, Transform, MatrixChoice),
    /// The fragment that sets a picture up.
    Setup(PictureKind, FragmentHeader, Transform, MatrixChoice),
    /// Auxiliary data or padding.
    Other,
}

/// The version of the streams that a header describes.
pub open spec fn version(seq: SequenceHeader) -> u64 {
    seq.parse_parameters.major_version
}

/// Whether a data unit holds this, for pictures in a sequence with a given header.
pub open spec fn contains(u: WholeUnit, c: Content, seq: SequenceHeader) -> bool {
    let i = Input::start(u.bytes);
    let code = u.header.parse_code;
    match c {
        Content::Header(w, h) => {
            &&& code == 0x00
            &&& w.writable()
            &&& w.says(h)
            &&& i.offers(headers::parse_info_bits(u.header) + w.bits())
        },
        Content::Picture(kind, number, t, m) => {
            &&& code == if kind == PictureKind::LowDelay {
                0xC8int
            } else {
                0xE8
            }
            &&& headers::writable(t, seq.coding_parameters, version(seq), kind, m)
            &&& i.offers(
                headers::parse_info_bits(u.header) + (writing::literal(number as nat, 32)
                    + headers::transform_parameters_bits(t, version(seq), kind, m)),
            )
        },
        Content::Setup(kind, fh, t, m) => {
            &&& code == if kind == PictureKind::LowDelay {
                0xCCint
            } else {
                0xEC
            }
            &&& fh.fragment_slice_count == 0
            &&& fh.fragment_x_offset == 0 && fh.fragment_y_offset == 0
            &&& headers::writable(t, seq.coding_parameters, version(seq), kind, m)
            &&& i.offers(
                headers::parse_info_bits(u.header) + (headers::fragment_header_bits(fh)
                    + headers::transform_parameters_bits(t, version(seq), kind, m)),
            )
        },
        Content::Other => code == 0x20 || code == 0x30,
    }
}

/// The wavelet filter that a data unit makes use of, if any.
pub open spec fn filter_in(c: Content) -> Option<u8> {
    match c {
        Content::Picture(_, _, t, _) => Some(t.wavelet_index as u8),
        Content::Setup(_, _, t, _) => Some(t.wavelet_index as u8),
        _ => None,
    }
}

/// Whether what a data unit holds is what is read behind its header.
spec fn read_at(j: Input, c: Content, seq: SequenceHeader) -> bool {
    match c {
        Content::Header(_, h) => params::spec_sequence_header(j).1 == Ok::<SequenceHeader, Error>(h),
        Content::Picture(kind, number, t, _) => {
            let (j1, n) = j.aligned().uint_lit(4);
            &&& n == number
            &&& transform::spec_transform_parameters(j1.aligned(), seq, kind).1 == Ok::<
                Transform,
                Error,
            >(t)
        },
        Content::Setup(kind, fh, t, _) => {
            let (j1, read) = sequence::spec_fragment_header(j);
            &&& read == Ok::<FragmentHeader, Error>(fh)
            &&& transform::spec_transform_parameters(j1, seq, kind).1 == Ok::<Transform, Error>(t)
        },
        Content::Other => true,
    }
}

proof fn lemma_read_at(us: Seq<WholeUnit>, from: int, c: Content, seq: SequenceHeader) -> (j: Input)
    requires
        0 <= from < us.len(),
        us[from].whole(),
        contains(us[from], c, seq),
    ensures
        sequence::spec_parse_info(Input::start(joined(us, from))) == (
            j,
            Ok::<ParseInfo, Error>(us[from].header),
        ),
        read_at(j, c, seq),
{
    let u = us[from];
    let (data, rest) = (joined(us, from), joined(us, from + 1));
    let i = Input::start(u.bytes);
    let j = lemma_header_at(us, from);
    let head = headers::parse_info_bits(u.header);
    headers::lemma_parse_info_size(u.header);
    let start = Input::start(data);
    assert(start == (Input { rest: i.rest + rest, ..i }));
    match c {
        Content::Header(w, h) => {
            lemma_offers_more(i, rest, head + w.bits());
            writing::lemma_split(start, head, w.bits());
            headers::law_sequence_headers_read_back(
                j,
                w.parse_parameters,
                w.base_video_format,
                w.overrides,
                w.picture_coding_mode,
            );
            let read = params::spec_sequence_header(j).1->Ok_0;
            units::lemma_says_one(w, read, h);
        },
        Content::Picture(kind, number, t, m) => {
            let number_bits = writing::literal(number as nat, 32);
            let parameters = headers::transform_parameters_bits(t, version(seq), kind, m);
            lemma_offers_more(i, rest, head + (number_bits + parameters));
            writing::lemma_split(start, head, number_bits + parameters);
            coding::lemma_bit_position(start, head);
            writing::lemma_split(j, number_bits, parameters);
            power2::lemma2_to64();
            writing::lemma_literal_len(number as nat, 32);
            writing::law_literals_read_back(j, number as nat, 32);
            coding::lemma_bit_position(j, number_bits);
            headers::law_transform_parameters_read_back(j.after_bits(32), t, seq, kind, m);
        },
        Content::Setup(kind, fh, t, m) => {
            let parameters = headers::transform_parameters_bits(t, version(seq), kind, m);
            let front = headers::fragment_header_bits(fh);
            lemma_offers_more(i, rest, head + (front + parameters));
            writing::lemma_split(start, head, front + parameters);
            writing::lemma_split(j, front, parameters);
            headers::law_fragment_headers_read_back(j, fh);
            headers::law_transform_parameters_read_back(
                j.after_bits(front.len()),
                t,
                seq,
                kind,
                m,
            );
        },
        Content::Other => {},
    }
    j
}

/// The kind of data unit that a code announces.
proof fn lemma_announced(u: WholeUnit, c: Content, seq: SequenceHeader)
    requires
        contains(u, c, seq),
    ensures
        ({
            let unit = sequence::spec_classify(u.header.parse_code);
            match c {
                Content::Header(_, _) => unit == DataUnit::SequenceHeader,
                Content::Picture(kind, _, _, _) => unit == DataUnit::Picture(kind),
                Content::Setup(kind, _, _, _) => unit == DataUnit::Fragment(kind),
                Content::Other => unit == DataUnit::AuxiliaryData || unit == DataUnit::Padding,
            }
        }),
        c matches Content::Setup(_, fh, _, _) ==> fh.fragment_slice_count == 0,
{
}

/// What a scan makes of one data unit of a sequence with header `seq`.
proof fn lemma_scan_unit(s: Scan, us: Seq<WholeUnit>, from: int, c: Content, seq: SequenceHeader)
    requires
        0 <= from < us.len(),
        us[from].whole(),
        contains(us[from], c, seq),
        s.header == Some(seq),
        s.scalars == Some(mxf::scalars_of(seq)),
        c matches Content::Header(_, h) ==> h == seq,
    ensures
        mxf::scan_unit(s, joined(us, from)) is Ok,
        ({
            let (s1, pi) = mxf::scan_unit(s, joined(us, from))->Ok_0;
            &&& pi == us[from].header
            &&& s1.header == s.header
            &&& s1.scalars == s.scalars
            &&& s1.filters == match filter_in(c) {
                Some(w) => s.filters.insert(w),
                None => s.filters,
            }
            &&& c is Header ==> s1 == s.with_body(us[from].bytes.skip(13))
            &&& !(c is Header) ==> s1.identical == s.identical && s1.first_body == s.first_body
        }),
{
    let u = us[from];
    let h = lemma_header_at(us, from);
    let j = lemma_read_at(us, from, c, seq);
    lemma_announced(u, c, seq);
    reveal(mxf::scan_unit);
    if c is Header {
        let data = joined(us, from);
        assert(mxf::body_of(data, u.header.next_parse_offset) =~= u.bytes.skip(13));
    }
}

/// Whether data units are those of one sequence: each holds what is said of it, every
/// sequence header is the same, and an end of sequence comes last.
pub open spec fn one_sequence(us: Seq<WholeUnit>, cs: Seq<Content>, seq: SequenceHeader) -> bool {
    &&& us.len() == cs.len() + 1
    &&& forall|k: int| 0 <= k < us.len() ==> (#[trigger] us[k]).whole()
    &&& forall|k: int| 0 <= k < cs.len() ==> contains(us[k], #[trigger] cs[k], seq)
    &&& forall|k: int|
        0 <= k < cs.len() ==> ((#[trigger] cs[k]) matches Content::Header(_, h) ==> h == seq)
    &&& us[us.len() - 1].header.parse_code == 0x10
    &&& us[us.len() - 1].bytes.len() == 13
}

/// Whether some data unit from number `from` on uses a filter.
pub open spec fn used(cs: Seq<Content>, from: int, w: u8) -> bool {
    exists|k: int| from <= k < cs.len() && filter_in(#[trigger] cs[k]) == Some(w)
}

/// Whether all sequence headers from number `from` on have the body `body`.
pub open spec fn alike(us: Seq<WholeUnit>, cs: Seq<Content>, from: int, body: Seq<u8>) -> bool {
    forall|k: int|
        from <= k < cs.len() && (#[trigger] cs[k]) is Header ==> us[k].bytes.skip(13) == body
}

proof fn lemma_scan_rest(
    s: Scan,
    us: Seq<WholeUnit>,
    cs: Seq<Content>,
    from: int,
    seq: SequenceHeader,
    body: Seq<u8>,
)
    requires
        one_sequence(us, cs, seq),
        0 <= from <= cs.len(),
        s.header == Some(seq),
        s.scalars == Some(mxf::scalars_of(seq)),
        s.first_body == Some(body),
    ensures
        mxf::scan(s, joined(us, from)) matches Ok(end) && {
            &&& end.scalars == s.scalars
            &&& forall|w: u8|
                #[trigger] end.filters.contains(w) <==> s.filters.contains(w) || used(cs, from, w)
            &&& end.identical <==> s.identical && alike(us, cs, from, body)
        },
    decreases cs.len() - from,
{
    assert(us[from].whole());
    let j = lemma_header_at(us, from);
    if from == cs.len() {
        assert(joined(us, from + 1).len() == 0);
        reveal(mxf::scan_unit);
    } else {
        let c = cs[from];
        assert(contains(us[from], c, seq));
        lemma_scan_unit(s, us, from, c, seq);
        let s1 = mxf::scan_unit(s, joined(us, from))->Ok_0.0;
        lemma_joined_size(us, from + 1);
        lemma_scan_rest(s1, us, cs, from + 1, seq, body);
        let end = mxf::scan(s, joined(us, from))->Ok_0;
        assert forall|w: u8| #[trigger] end.filters.contains(w) <==> s.filters.contains(w) || used(
            cs,
            from,
            w,
        ) by {
            if filter_in(c) == Some(w) {
                assert(used(cs, from, w));
            }
            if used(cs, from + 1, w) {
                let k = choose|k: int| from + 1 <= k < cs.len() && filter_in(#[trigger] cs[k]) == Some(w);
                assert(used(cs, from, w));
            }
            if used(cs, from, w) && filter_in(c) != Some(w) {
                let k = choose|k: int| from <= k < cs.len() && filter_in(#[trigger] cs[k]) == Some(w);
                assert(used(cs, from + 1, w));
            }
        }
        let own = c is Header ==> us[from].bytes.skip(13) == body;
        if alike(us, cs, from + 1, body) && own {
            assert(alike(us, cs, from, body));
        }
    }
}

/// A scan of a sequence finds what was written: version, profile and level, the
/// filters of all pictures, fragmented ones included, and whether the sequence
/// headers are the same byte by byte.
pub proof fn law_scans_find_what_was_written(
    us: Seq<WholeUnit>,
    cs: Seq<Content>,
    seq: SequenceHeader,
)
    requires
        one_sequence(us, cs, seq),
        cs.len() >= 1,
        cs[0] is Header,
    ensures
        mxf::scan(Scan::fresh(), joined(us, 0)) matches Ok(s) && {
            let pp = seq.parse_parameters;
            &&& s.scalars == Some((pp.major_version, pp.minor_version, pp.profile, pp.level))
            &&& forall|w: u8| #[trigger] s.filters.contains(w) <==> used(cs, 0, w)
            &&& s.identical <==> alike(us, cs, 0, us[0].bytes.skip(13))
        },
{
    let s = Scan::fresh();
    assert(us[0].whole());
    let c = cs[0];
    assert(contains(us[0], c, seq));
    let begun = Scan {
        header: Some(seq),
        scalars: Some(mxf::scalars_of(seq)),
        first_body: None,
        identical: true,
        filters: Set::empty(),
    };
    lemma_scan_unit(begun, us, 0, c, seq);
    let body = us[0].bytes.skip(13);
    let s1 = mxf::scan_unit(begun, joined(us, 0))->Ok_0.0;
    assert(mxf::scan_unit(s, joined(us, 0)) == mxf::scan_unit(begun, joined(us, 0))) by {
        reveal(mxf::scan_unit);
    }
    let j = lemma_header_at(us, 0);
    lemma_joined_size(us, 1);
    lemma_scan_rest(s1, us, cs, 1, seq, body);
    let end = mxf::scan(s, joined(us, 0))->Ok_0;
    assert forall|w: u8| #[trigger] end.filters.contains(w) <==> used(cs, 0, w) by {
        if used(cs, 1, w) {
            let k = choose|k: int| 1 <= k < cs.len() && filter_in(#[trigger] cs[k]) == Some(w);
            assert(used(cs, 0, w));
        }
        if used(cs, 0, w) {
            let k = choose|k: int| 0 <= k < cs.len() && filter_in(#[trigger] cs[k]) == Some(w);
            assert(used(cs, 1, w));
        }
    }
    if alike(us, cs, 1, body) {
        assert(alike(us, cs, 0, body));
    }
}

/// The number of the picture that a data unit opens, if it does.
pub open spec fn number_in(c: Content) -> Option<u32> {
    match c {
        Content::Picture(_, number, _, _) => Some(number),
        Content::Setup(_, fh, _, _) => Some(fh.picture_number),
        _ => None,
    }
}

/// The transform parameters in a data unit.
pub open spec fn transform_in(c: Content) -> Option<Transform> {
    match c {
        Content::Picture(_, _, t, _) => Some(t),
        Content::Setup(_, _, t, _) => Some(t),
        _ => None,
    }
}

/// The number of the last picture that opens before data unit `upto`.
pub open spec fn last_number(cs: Seq<Content>, upto: int) -> Option<u32>
    decreases upto,
{
    if upto <= 0 || upto > cs.len() {
        None
    } else {
        match number_in(cs[upto - 1]) {
            Some(n) => Some(n),
            None => last_number(cs, upto - 1),
        }
    }
}

/// Whether whole pictures stand among the first `upto` data units.
pub open spec fn pictures_before(cs: Seq<Content>, upto: int) -> bool {
    exists|k: int| 0 <= k < upto && (#[trigger] cs[k]) is Picture
}

/// Whether fragments stand among the first `upto` data units.
pub open spec fn fragments_before(cs: Seq<Content>, upto: int) -> bool {
    exists|k: int| 0 <= k < upto && (#[trigger] cs[k]) is Setup
}

/// Whether a level is one of those with rules.
pub open spec fn levelled(seq: SequenceHeader) -> bool {
    1 <= seq.parse_parameters.level <= 7
}

/// Whether a data unit breaks no rule: its code is one of the profile, its header and
/// transform parameters are without fault, its number follows that of the picture
/// before, and the sequence has not come to hold both pictures and fragments.
#[verifier::opaque]
pub open spec fn faultless(us: Seq<WholeUnit>, cs: Seq<Content>, seq: SequenceHeader, k: int) -> bool {
    let c = cs[k];
    &&& k > 0 ==> conformance::spec_profile_allows(
        seq.parse_parameters.profile,
        us[k].header.parse_code,
    ) != Some(false)
    &&& c is Header ==> conformance::header_violations(seq).len() == 0
    &&& transform_in(c) matches Some(t) ==> conformance::transform_violations(seq, t).len() == 0
    &&& number_in(c) matches Some(n) ==> match last_number(cs, k) {
        Some(before) => (before + 1 - n) % 0x1_0000_0000 == 0,
        None => n % 2 == 0 || seq.picture_coding_mode == 0,
    }
    &&& !(levelled(seq) && pictures_before(cs, k + 1) && fragments_before(cs, k + 1))
}

/// What a grading has to know in front of data unit `from`.
#[verifier::opaque]
spec fn aware(g: Grading, cs: Seq<Content>, seq: SequenceHeader, from: int) -> bool {
    &&& g.expected_number == match last_number(cs, from) {
        Some(n) => Some(conformance::successor(n)),
        None => None,
    }
    &&& g.saw_picture == pictures_before(cs, from)
    &&& g.saw_fragment == fragments_before(cs, from)
    &&& g.mixed_flagged == (levelled(seq) && g.saw_picture && g.saw_fragment)
}

proof fn lemma_seen(cs: Seq<Content>, from: int)
    requires
        0 <= from < cs.len(),
    ensures
        pictures_before(cs, from + 1) <==> pictures_before(cs, from) || cs[from] is Picture,
        fragments_before(cs, from + 1) <==> fragments_before(cs, from) || cs[from] is Setup,
{
    if pictures_before(cs, from) {
        let k = choose|k: int| 0 <= k < from && (#[trigger] cs[k]) is Picture;
        assert(0 <= k < from + 1 && cs[k] is Picture);
    }
    if fragments_before(cs, from) {
        let k = choose|k: int| 0 <= k < from && (#[trigger] cs[k]) is Setup;
        assert(0 <= k < from + 1 && cs[k] is Setup);
    }
}

/// What a grading makes of one data unit.
#[verifier::spinoff_prover]
#[verifier::rlimit(50)]
proof fn lemma_grade_unit(
    g: Grading,
    us: Seq<WholeUnit>,
    cs: Seq<Content>,
    from: int,
    seq: SequenceHeader,
)
    requires
        us.len() == cs.len() + 1,
        0 <= from < cs.len(),
        us[from].whole(),
        contains(us[from], cs[from], seq),
        cs[from] matches Content::Header(_, h) ==> h == seq,
        seq.picture_coding_mode <= 1,
        g.header == Some(seq) || (g.header is None && cs[from] is Header && from == 0),
        aware(g, cs, seq, from),
    ensures
        conformance::grade_unit(g, joined(us, from)) matches Ok((g1, v, pi)) && {
            &&& pi == us[from].header
            &&& g1.header == Some(seq)
            &&& aware(g1, cs, seq, from + 1)
            &&& !g.mixed_flagged && (from > 0 ==> g.header is Some) && (from == 0
                ==> g.header is None) ==> (v.len() == 0 <==> faultless(us, cs, seq, from))
            &&& !g.mixed_flagged && g1.mixed_flagged ==> v.len() > 0
        },
{
    let c = cs[from];
    let j = lemma_read_at(us, from, c, seq);
    lemma_announced(us[from], c, seq);
    reveal(conformance::grade_unit);
    reveal(faultless);
    reveal(aware);
    lemma_seen(cs, from);
    if let Some(number) = number_in(c) {
        grading::law_picture_numbers_count_up(seq, last_number(cs, from), number);
    }
}

proof fn lemma_grade_end(g: Grading, us: Seq<WholeUnit>, from: int, seq: SequenceHeader)
    requires
        0 <= from < us.len(),
        us[from].whole(),
        us[from].header.parse_code == 0x10,
        g.header == Some(seq),
    ensures
        conformance::grade_unit(g, joined(us, from)) matches Ok((_, v, pi)) && pi == us[from].header
            && v.len() == 0,
{
    let j = lemma_header_at(us, from);
    reveal(conformance::grade_unit);
}

#[verifier::spinoff_prover]
proof fn lemma_grade_rest(
    g: Grading,
    us: Seq<WholeUnit>,
    cs: Seq<Content>,
    from: int,
    seq: SequenceHeader,
)
    requires
        one_sequence(us, cs, seq),
        seq.picture_coding_mode <= 1,
        0 <= from <= cs.len(),
        from > 0 ==> g.header == Some(seq),
        from == 0 ==> g.header is None && cs.len() > 0 && cs[0] is Header,
        aware(g, cs, seq, from),
    ensures
        conformance::stream_violations(g, joined(us, from)) matches Ok(v) && (!g.mixed_flagged ==> (
        v.len() == 0 <==> forall|k: int|
            from <= k < cs.len() ==> #[trigger] faultless(us, cs, seq, k))),
    decreases cs.len() - from,
{
    assert(us[from].whole());
    let j = lemma_header_at(us, from);
    if from == cs.len() {
        assert(joined(us, from + 1).len() == 0);
        lemma_grade_end(g, us, from, seq);
    } else {
        let c = cs[from];
        assert(contains(us[from], c, seq));
        lemma_grade_unit(g, us, cs, from, seq);
        let (g1, v, pi) = conformance::grade_unit(g, joined(us, from))->Ok_0;
        lemma_joined_size(us, from + 1);
        lemma_grade_rest(g1, us, cs, from + 1, seq);
        let rest = conformance::stream_violations(g1, joined(us, from + 1));
        assert(conformance::stream_violations(g, joined(us, from)) == conformance::after(v, rest));
        assert((v + rest->Ok_0).len() == v.len() + rest->Ok_0.len());
        let more = forall|k: int|
            from + 1 <= k < cs.len() ==> #[trigger] faultless(us, cs, seq, k);
        if more && faultless(us, cs, seq, from) {
            assert forall|k: int| from <= k < cs.len() implies #[trigger] faultless(
                us,
                cs,
                seq,
                k,
            ) by {}
        }
    }
}

/// A sequence passes exactly where none of its data units breaks a rule.
pub proof fn law_sequences_are_graded(us: Seq<WholeUnit>, cs: Seq<Content>, seq: SequenceHeader)
    requires
        one_sequence(us, cs, seq),
        seq.picture_coding_mode <= 1,
        cs.len() >= 1,
        cs[0] is Header,
    ensures
        conformance::stream_violations(Grading::fresh(), joined(us, 0)) matches Ok(v) && (v.len()
            == 0 <==> forall|k: int| 0 <= k < cs.len() ==> #[trigger] faultless(us, cs, seq, k)),
{
    assert(!pictures_before(cs, 0) && !fragments_before(cs, 0));
    reveal(aware);
    lemma_grade_rest(Grading::fresh(), us, cs, 0, seq);
}

} // verus!
