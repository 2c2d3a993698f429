//! Container tags that VC-2 streams come under, and how well the data of a
//! stream bear out such a tag.
//!
//! The tags are shared with an older stream family of the same framing, so a
//! tag alone is weak evidence, and data units of unknown codes are weak evidence
//! too: another decoder may know them.
use crate::bitio::{BitReader, Input};
use crate::decoder;
use crate::sequence;
use crate::sequence::{DataUnit, ParseInfo};
use vstd::prelude::*;

verus! {

/// The codec identifier of Matroska.
pub const MATROSKA_CODEC_ID: &'static str = "V_DIRAC";

/// The sample entry of MP4.
pub const MP4_SAMPLE_ENTRY: [u8; 4] = [0x64, 0x72, 0x61, 0x63];

/// The object type indication of MP4.
pub const MP4_OBJECT_TYPE: u8 = 0xA4;

/// How well data bear out a VC-2 tag.
#[derive(Debug, Clone, Copy, PartialEq, Eq)]
pub enum Evidence {
    /// Data units of defined codes, and nothing else.
    Confirmed,
    /// Nothing that speaks against VC-2, and not enough that speaks for it.
    Weak,
    /// Not VC-2 framing.
    Vetoed,
}

/// Whether `data`, fewer than a whole header, can be the start of one.
pub open spec fn may_become_header(data: Seq<u8>) -> bool {
    forall|k: int|
        0 <= k < data.len() && k < 4 ==> (#[trigger] data[k]) == sequence::PARSE_INFO_PREFIX@[k]
}

/// What the headers in `data` say of it, from the first on: each has to be
/// intact, but for a last one that is cut short. A body with no offset, and one
/// that the data do not reach the end of, end the walk.
pub open spec fn spec_grade(data: Seq<u8>) -> Evidence
    decreases data.len(),
{
    match sequence::spec_parse_info(Input::start(data)).1 {
        Err(_) => Evidence::Vetoed,
        Ok(pi) => {
            let own = if sequence::spec_classify(pi.parse_code) == DataUnit::Reserved {
                Evidence::Weak
            } else {
                Evidence::Confirmed
            };
            match sequence::distance(pi) {
                None => own,
                Some(d) => if d < 13 {
                    Evidence::Vetoed
                } else if d >= data.len() {
                    own
                } else if data.len() - d < 13 {
                    if may_become_header(data.skip(d)) {
                        own
                    } else {
                        Evidence::Vetoed
                    }
                } else {
                    weaker(own, spec_grade(data.skip(d)))
                },
            }
        },
    }
}

/// The weaker of two pieces of evidence.
pub open spec fn weaker(a: Evidence, b: Evidence) -> Evidence {
    if a == Evidence::Vetoed || b == Evidence::Vetoed {
        Evidence::Vetoed
    } else if a == Evidence::Weak || b == Evidence::Weak {
        Evidence::Weak
    } else {
        Evidence::Confirmed
    }
}

/// See [`may_become_header`].
fn could_become_header(data: &[u8]) -> (b: bool)
    ensures
        b == may_become_header(data@),
{
    let prefix: [u8; 4] = sequence::PARSE_INFO_PREFIX;
    let mut k: usize = 0;
    while k < data.len() && k < 4
        invariant
            k <= data.len(),
            k <= 4,
            prefix@ == sequence::PARSE_INFO_PREFIX@,
            forall|j: int| 0 <= j < k ==> (#[trigger] data@[j]) == prefix@[j],
        decreases data.len() - k,
    {
        if data[k] != prefix[k] {
            assert(data@[k as int] != prefix@[k as int]);
            return false;
        }
        k = k + 1;
    }
    true
}

/// Walks the parse codes of a packet, which has to hold whole data units: data
/// units of defined codes confirm, broken framing vetoes, and intact framing
/// around codes that are not defined is weak evidence.
pub fn grade_units(data: &[u8]) -> (e: Evidence)
    ensures
        e == spec_grade(data@),
{
    let mut pos: usize = 0;
    let mut unknown: bool = false;
    assert(data@.skip(0) =~= data@);
    loop
        invariant
            pos <= data.len(),
            spec_grade(data@) == if unknown {
                weaker(Evidence::Weak, spec_grade(data@.skip(pos as int)))
            } else {
                spec_grade(data@.skip(pos as int))
            },
        decreases data.len() - pos,
    {
        let rest: &[u8] = &data[pos..data.len()];
        let ghost here = data@.skip(pos as int);
        assert(rest@ =~= here);
        let mut r = BitReader::new(rest);
        let pi: ParseInfo = match sequence::parse_info(&mut r) {
            Ok(pi) => pi,
            Err(_) => {
                return Evidence::Vetoed;
            },
        };
        if sequence::classify(pi.parse_code) == DataUnit::Reserved {
            unknown = true;
        }
        let so_far: Evidence = if unknown {
            Evidence::Weak
        } else {
            Evidence::Confirmed
        };
        let next: u32 = match sequence::next_unit(&pi) {
            None => {
                return so_far;
            },
            Some(next) => next,
        };
        if next < 13 {
            return Evidence::Vetoed;
        }
        if next as u64 >= rest.len() as u64 {
            return so_far;
        }
        let step: usize = next as usize;
        assert(here.skip(step as int) =~= data@.skip(pos + step));
        if rest.len() - step < 13 {
            let tail: &[u8] = &rest[step..rest.len()];
            assert(tail@ =~= here.skip(step as int));
            return if could_become_header(tail) {
                so_far
            } else {
                Evidence::Vetoed
            };
        }
        pos = pos + step;
    }
}

/// How well the first packet and the stream header of a container bear out a VC-2
/// tag. A packet decides. Without one, a header of the shape of data units is
/// walked in its place; headers of other shapes, and a bare tag, are weak
/// evidence.
pub fn grade(packet: Option<&[u8]>, header: Option<&[u8]>) -> (e: Evidence)
    ensures
        e == match (packet, header) {
            (Some(p), _) => spec_grade(p@),
            (None, Some(h)) => if decoder::starts_with_prefix(h@) {
                spec_grade(h@)
            } else {
                Evidence::Weak
            },
            (None, None) => Evidence::Weak,
        },
{
    match packet {
        Some(p) => grade_units(p),
        None => match header {
            Some(h) => if decoder::has_prefix(h) {
                grade_units(h)
            } else {
                Evidence::Weak
            },
            None => Evidence::Weak,
        },
    }
}

} // verus!
