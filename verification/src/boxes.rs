//! The two boxes that the codec decodes for the remuxer: each is kept as
//! its bytes, with what the codec reads in them.

use vstd::prelude::*;
use vstd::slice::{slice_subrange, slice_to_vec};
use crate::bytes::{header_at, MOOF, MOOV};
use crate::codec::{decode_moof, decode_moov, invalid_data, moof_decoding, moov_decoding};
use crate::error::{reports, Failure, Fmp4ParseError};
use crate::model::{MoofBox, MoofBoxView, MoovBox, MoovBoxView};
use crate::tables::fragments_sized;
use crate::tiling::{check_decodable, decodable, next_header};

verus! {

/// Whether `bytes` are one box of type `name`, from the start of its header
/// to its end.
pub open spec fn is_box(bytes: Seq<u8>, name: u32) -> bool {
    header_at(bytes, 0) matches Some(h) && h.name == name && h.next - 8 + h.size == bytes.len()
}

/// The part of a box that is handed to the codec: from eight bytes before
/// its content to its end. For a box with a compact header this is the
/// whole box.
pub open spec fn codec_part(bytes: Seq<u8>) -> Seq<u8> {
    bytes.subrange(header_at(bytes, 0)->0.next - 8, bytes.len() as int)
}

/// The movie-fragment box that `bytes` are: one box of that type whose
/// boxes tile it, with the track fragments that the codec reads in it.
pub open spec fn moof_of(bytes: Seq<u8>) -> Result<MoofBoxView, Failure> {
    if !is_box(bytes, MOOF) || !decodable(codec_part(bytes), MOOF) {
        Err(Failure::Malformed)
    } else {
        match moof_decoding(codec_part(bytes)) {
            None => Err(Failure::Codec),
            Some(trafs) => Ok(MoofBoxView { bytes, trafs }),
        }
    }
}

/// The movie box that `bytes` are: one box of that type whose boxes tile
/// it, with what the codec reads in it.
pub open spec fn moov_of(bytes: Seq<u8>) -> Result<MoovBoxView, Failure> {
    if !is_box(bytes, MOOV) || !decodable(codec_part(bytes), MOOV) {
        Err(Failure::Malformed)
    } else {
        match moov_decoding(codec_part(bytes)) {
            None => Err(Failure::Codec),
            Some(facts) => Ok(MoovBoxView { bytes, mvex: facts.mvex, traks: facts.traks }),
        }
    }
}

/// A movie-fragment box says what the codec reads in its bytes.
pub open spec fn moof_well_formed(moof: MoofBoxView) -> bool {
    moof_of(moof.bytes) == Ok::<MoofBoxView, Failure>(moof)
}

/// A movie box says what the codec reads in its bytes.
pub open spec fn moov_well_formed(moov: MoovBoxView) -> bool {
    moov_of(moov.bytes) == Ok::<MoovBoxView, Failure>(moov)
}

/// Whether `r` is the outcome `expected`: the value with that view, or an
/// error that reports that failure.
pub open spec fn is_outcome<T: View>(r: Result<T, Fmp4ParseError>, expected: Result<T::V, Failure>) -> bool {
    match (r, expected) {
        (Ok(value), Ok(view)) => value@ == view,
        (Err(e), Err(f)) => reports(e, f),
        _ => false,
    }
}

/// Where the part of a box for the codec starts, if `bytes` are one box of
/// type `name`.
fn box_start(bytes: &[u8], name: u32) -> (start: Option<usize>)
    ensures
        match start {
            Some(at) => is_box(bytes@, name) && at == header_at(bytes@, 0)->0.next - 8 && at
                <= bytes@.len(),
            None => !is_box(bytes@, name),
        },
{
    match next_header(bytes, 0) {
        Err(_) => None,
        Ok((found, size, next)) => {
            if found != name || size > (bytes.len() - (next - 8)) as u64 || (next - 8)
                + size as usize != bytes.len() {
                None
            } else {
                Some(next - 8)
            }
        },
    }
}

impl MoofBox {
    /// The movie-fragment box that `bytes` are, as [`moof_of`] says. Each
    /// of its runs lists either no sample size or one for each sample.
    pub fn read(bytes: &[u8]) -> (r: Result<MoofBox, Fmp4ParseError>)
        ensures
            is_outcome(r, moof_of(bytes@)),
            r matches Ok(moof) ==> moof_well_formed(moof@) && fragments_sized(moof@.trafs),
    {
        let start = match box_start(bytes, MOOF) {
            None => {
                return Err(Fmp4ParseError::Mp4Error(invalid_data("not a moof box")));
            },
            Some(start) => start,
        };
        let part = slice_subrange(bytes, start, bytes.len());
        if !check_decodable(part, MOOF) {
            return Err(
                Fmp4ParseError::Mp4Error(invalid_data("moof box is not made of whole boxes")),
            );
        }
        match decode_moof(part) {
            Err(e) => Err(Fmp4ParseError::Mp4Error(e)),
            Ok(trafs) => Ok(MoofBox { bytes: slice_to_vec(bytes), trafs }),
        }
    }
}

impl MoovBox {
    /// The movie box that `bytes` are, as [`moov_of`] says.
    pub fn read(bytes: &[u8]) -> (r: Result<MoovBox, Fmp4ParseError>)
        ensures
            is_outcome(r, moov_of(bytes@)),
            r matches Ok(moov) ==> moov_well_formed(moov@),
    {
        let start = match box_start(bytes, MOOV) {
            None => {
                return Err(Fmp4ParseError::Mp4Error(invalid_data("not a moov box")));
            },
            Some(start) => start,
        };
        let part = slice_subrange(bytes, start, bytes.len());
        if !check_decodable(part, MOOV) {
            return Err(
                Fmp4ParseError::Mp4Error(invalid_data("moov box is not made of whole boxes")),
            );
        }
        match decode_moov(part, part.len() as u64) {
            Err(e) => Err(Fmp4ParseError::Mp4Error(e)),
            Ok(facts) => Ok(MoovBox { bytes: slice_to_vec(bytes), mvex: facts.0, traks: facts.1 }),
        }
    }
}

} // verus!
