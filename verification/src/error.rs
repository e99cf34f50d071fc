//! The errors of parsing and remuxing.

use vstd::prelude::*;

verus! {

/// Message of the error for an initial segment whose movie box has no
/// movie-extends box.
pub const MVEX_REQUIRED: &'static str = "Fmp4 initial segment must be set MvexBox.";

/// Message of the error for a movie-fragment box that is not followed by a
/// media-data box.
pub const MDAT_REQUIRED: &'static str = "MdatBox should be after MoofBox in the media segment";

/// Message of the error for a movie box without a movie-extends box.
pub const MVEX_MISSING: &'static str = "Missing mvex box";

/// Message of the error for a movie box without the track box that its
/// movie-extends box names.
pub const TRAK_MISSING: &'static str = "Missing trak box";

/// Why a segment could not be parsed, written or remuxed.
#[derive(Debug)]
pub enum Fmp4ParseError {
    /// The input ended inside a box.
    IoError(std::io::Error),
    /// The box codec refused a box.
    Mp4Error(mp4::Error),
    /// The boxes are well formed but not laid out as a segment must be.
    InvalidFormat(&'static str),
}

/// Why a segment is not parsed, not written or not taken as a track.
pub enum Failure {
    /// A payload box declares more bytes than are left.
    Truncated,
    /// The box codec refused a box.
    Codec,
    /// A box cannot be decoded or written as what its type says: it
    /// declares more bytes than are left; it is a brand box whose size is
    /// under 16 or no multiple of 4, or one to be written whose size does
    /// not fit a compact header; it is a movie or movie-fragment box of 8
    /// bytes or fewer, or one that the boxes inside do not tile; or it is a
    /// payload box of fewer than 8 bytes or of more than 64 bits can count.
    Malformed,
    /// An initial segment has no movie box, or one without a movie-extends
    /// box.
    MvexRequired,
    /// A movie-fragment box is not followed by a payload box: another box
    /// follows it, or no box at all.
    MdatRequired,
    /// A movie box has no movie-extends box.
    MvexMissing,
    /// A movie box has no track box for the track of its movie-extends box.
    TrakMissing,
}

/// Whether the error `e` reports the failure `f`.
pub open spec fn reports(e: Fmp4ParseError, f: Failure) -> bool {
    match f {
        Failure::Truncated => e is IoError,
        Failure::Codec => e is Mp4Error,
        Failure::Malformed => e is Mp4Error,
        Failure::MvexRequired => e matches Fmp4ParseError::InvalidFormat(m) && m@
            == MVEX_REQUIRED@,
        Failure::MdatRequired => e matches Fmp4ParseError::InvalidFormat(m) && m@
            == MDAT_REQUIRED@,
        Failure::MvexMissing => e matches Fmp4ParseError::InvalidFormat(m) && m@
            == MVEX_MISSING@,
        Failure::TrakMissing => e matches Fmp4ParseError::InvalidFormat(m) && m@
            == TRAK_MISSING@,
    }
}

} // verus!
