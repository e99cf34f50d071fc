//! What the remuxer keeps of a track: its geometry, its timescale, its
//! codec, and the defaults of its fragments.

use vstd::prelude::*;
use vstd::slice::slice_to_vec;
use crate::error::{reports, Failure, Fmp4ParseError, MVEX_MISSING, TRAK_MISSING};
use crate::model::{
    FourCC, MoovBox, MoovBoxView, SampleEntry, SampleEntryView, TrackExtendData, TrackSource,
};

verus! {

/// The codec family of a track, with its sample entry.
#[derive(Debug, Clone, PartialEq, Eq)]
pub enum MediaBox {
    Avc1(SampleEntry),
    Hev1(SampleEntry),
    Vp9(SampleEntry),
    Mp4a(SampleEntry),
    Tx3g(SampleEntry),
    __Unknown,
}

/// The mathematical content of a [`MediaBox`].
pub enum MediaBoxView {
    Avc1(SampleEntryView),
    Hev1(SampleEntryView),
    Vp9(SampleEntryView),
    Mp4a(SampleEntryView),
    Tx3g(SampleEntryView),
    __Unknown,
}

impl View for MediaBox {
    type V = MediaBoxView;

    open spec fn view(&self) -> MediaBoxView {
        match self {
            MediaBox::Avc1(entry) => MediaBoxView::Avc1(entry@),
            MediaBox::Hev1(entry) => MediaBoxView::Hev1(entry@),
            MediaBox::Vp9(entry) => MediaBoxView::Vp9(entry@),
            MediaBox::Mp4a(entry) => MediaBoxView::Mp4a(entry@),
            MediaBox::Tx3g(entry) => MediaBoxView::Tx3g(entry@),
            MediaBox::__Unknown => MediaBoxView::__Unknown,
        }
    }
}

/// The codec family of a track box: the first, in the order AVC, HEVC, VP9,
/// AAC, timed text, of which its sample-description box holds an entry;
/// unknown where it holds none of them.
pub open spec fn media_box_of(source: TrackSource, entry: SampleEntryView) -> MediaBoxView {
    if source.has_avc1 {
        MediaBoxView::Avc1(entry)
    } else if source.has_hev1 {
        MediaBoxView::Hev1(entry)
    } else if source.has_vp09 {
        MediaBoxView::Vp9(entry)
    } else if source.has_mp4a {
        MediaBoxView::Mp4a(entry)
    } else if source.has_tx3g {
        MediaBoxView::Tx3g(entry)
    } else {
        MediaBoxView::__Unknown
    }
}

/// The handler type that goes with a codec family: `vide` for the video
/// codecs, `soun` for AAC and timed text, none for an unknown codec.
pub open spec fn handler_of(media_box: MediaBoxView) -> Option<Seq<u8>> {
    match media_box {
        MediaBoxView::Avc1(_) | MediaBoxView::Hev1(_) | MediaBoxView::Vp9(_) => Some(
            seq![0x76u8, 0x69u8, 0x64u8, 0x65u8],
        ),
        MediaBoxView::Mp4a(_) | MediaBoxView::Tx3g(_) => Some(
            seq![0x73u8, 0x6fu8, 0x75u8, 0x6eu8],
        ),
        MediaBoxView::__Unknown => None,
    }
}

impl SampleEntry {
    /// A copy of the sample entry.
    pub fn duplicate(&self) -> (copy: SampleEntry)
        ensures
            copy@ == self@,
    {
        SampleEntry { moov: slice_to_vec(self.moov.as_slice()), track: self.track }
    }
}

impl MediaBox {
    /// Classifies a track box by the sample entries that it holds, as
    /// [`media_box_of`] says; `entry` is where the entries are kept.
    pub fn from(source: &TrackSource, entry: SampleEntry) -> (media_box: MediaBox)
        ensures
            media_box@ == media_box_of(*source, entry@),
    {
        if source.has_avc1 {
            MediaBox::Avc1(entry)
        } else if source.has_hev1 {
            MediaBox::Hev1(entry)
        } else if source.has_vp09 {
            MediaBox::Vp9(entry)
        } else if source.has_mp4a {
            MediaBox::Mp4a(entry)
        } else if source.has_tx3g {
            MediaBox::Tx3g(entry)
        } else {
            MediaBox::__Unknown
        }
    }

    /// The handler type that goes with the codec family, as
    /// [`handler_of`] says.
    pub fn handler_type(&self) -> (handler: Option<FourCC>)
        ensures
            match handler {
                Some(code) => handler_of(self@) == Some(code@),
                None => handler_of(self@) is None,
            },
    {
        match self {
            MediaBox::Avc1(_) | MediaBox::Hev1(_) | MediaBox::Vp9(_) => {
                let code = FourCC { value: [0x76u8, 0x69u8, 0x64u8, 0x65u8] };
                assert(code@ =~= seq![0x76u8, 0x69u8, 0x64u8, 0x65u8]);
                Some(code)
            },
            MediaBox::Mp4a(_) | MediaBox::Tx3g(_) => {
                let code = FourCC { value: [0x73u8, 0x6fu8, 0x75u8, 0x6eu8] };
                assert(code@ =~= seq![0x73u8, 0x6fu8, 0x75u8, 0x6eu8]);
                Some(code)
            },
            MediaBox::__Unknown => None,
        }
    }

    /// A copy of the codec family and its sample entry.
    pub fn duplicate(&self) -> (copy: MediaBox)
        ensures
            copy@ == self@,
    {
        match self {
            MediaBox::Avc1(entry) => MediaBox::Avc1(entry.duplicate()),
            MediaBox::Hev1(entry) => MediaBox::Hev1(entry.duplicate()),
            MediaBox::Vp9(entry) => MediaBox::Vp9(entry.duplicate()),
            MediaBox::Mp4a(entry) => MediaBox::Mp4a(entry.duplicate()),
            MediaBox::Tx3g(entry) => MediaBox::Tx3g(entry.duplicate()),
            MediaBox::__Unknown => MediaBox::__Unknown,
        }
    }
}

/// The geometry, timescale and codec of a track.
#[derive(Debug, Clone, PartialEq, Eq)]
pub struct TrackBaseData {
    pub width: u16,
    pub height: u16,
    pub timescale: u32,
    pub media_box: MediaBox,
}

/// The mathematical content of a [`TrackBaseData`].
pub struct TrackBaseDataView {
    pub width: u16,
    pub height: u16,
    pub timescale: u32,
    pub media_box: MediaBoxView,
}

impl View for TrackBaseData {
    type V = TrackBaseDataView;

    open spec fn view(&self) -> TrackBaseDataView {
        TrackBaseDataView {
            width: self.width,
            height: self.height,
            timescale: self.timescale,
            media_box: self.media_box@,
        }
    }
}

/// What is kept of a track box: the width and height in whole pixels, the
/// media timescale and the codec family.
pub open spec fn base_of(source: TrackSource, entry: SampleEntryView) -> TrackBaseDataView {
    TrackBaseDataView {
        width: source.width,
        height: source.height,
        timescale: source.timescale,
        media_box: media_box_of(source, entry),
    }
}

impl TrackBaseData {
    /// Takes from a track box what [`base_of`] says; `entry` is where its
    /// sample entries are kept.
    pub fn from(source: &TrackSource, entry: SampleEntry) -> (base: TrackBaseData)
        ensures
            base@ == base_of(*source, entry@),
    {
        TrackBaseData {
            width: source.width,
            height: source.height,
            timescale: source.timescale,
            media_box: MediaBox::from(source, entry),
        }
    }
}

/// A track as the remuxer needs it: what its track box says, and the
/// defaults of its fragments.
#[derive(Debug, Clone, PartialEq, Eq)]
pub struct TrackData {
    pub base: TrackBaseData,
    pub extend: TrackExtendData,
}

/// The mathematical content of a [`TrackData`].
pub struct TrackDataView {
    pub base: TrackBaseDataView,
    pub extend: TrackExtendData,
}

impl View for TrackData {
    type V = TrackDataView;

    open spec fn view(&self) -> TrackDataView {
        TrackDataView { base: self.base@, extend: self.extend }
    }
}

/// The position of the first of `tracks[from..]` with `track_id`.
pub open spec fn find_track_from(tracks: Seq<TrackSource>, track_id: u32, from: int) -> Option<int>
    decreases tracks.len() - from,
{
    if from < 0 || from >= tracks.len() {
        None
    } else if tracks[from].track_id == track_id {
        Some(from)
    } else {
        find_track_from(tracks, track_id, from + 1)
    }
}

/// The track that a movie box declares: the fragment defaults of its
/// movie-extends box, with the first track box of that track. A movie box
/// without a movie-extends box, or without a track box of that track,
/// declares none.
pub open spec fn track_data_of(moov: MoovBoxView) -> Result<TrackDataView, Failure> {
    match moov.mvex {
        None => Err(Failure::MvexMissing),
        Some(extend) => match find_track_from(moov.traks, extend.track_id, 0) {
            None => Err(Failure::TrakMissing),
            Some(i) => Ok(
                TrackDataView {
                    base: base_of(
                        moov.traks[i],
                        SampleEntryView { moov: moov.bytes, track: i as usize },
                    ),
                    extend,
                },
            ),
        },
    }
}

impl TrackData {
    /// The track that a movie box declares, as [`track_data_of`] says.
    pub fn try_from(moov: &MoovBox) -> (r: Result<TrackData, Fmp4ParseError>)
        ensures
            match track_data_of(moov@) {
                Ok(data) => r matches Ok(found) && found@ == data,
                Err(f) => r matches Err(e) && reports(e, f),
            },
    {
        let extend = match moov.mvex {
            None => {
                return Err(Fmp4ParseError::InvalidFormat(MVEX_MISSING));
            },
            Some(extend) => extend,
        };
        let mut i: usize = 0;
        while i < moov.traks.len()
            invariant
                i <= moov.traks.len(),
                moov.mvex == Some(extend),
                find_track_from(moov.traks@, extend.track_id, 0) == find_track_from(
                    moov.traks@,
                    extend.track_id,
                    i as int,
                ),
            decreases moov.traks.len() - i,
        {
            if moov.traks[i].track_id == extend.track_id {
                let entry = SampleEntry { moov: slice_to_vec(moov.bytes.as_slice()), track: i };
                return Ok(TrackData { base: TrackBaseData::from(&moov.traks[i], entry), extend });
            }
            i += 1;
        }
        Err(Fmp4ParseError::InvalidFormat(TRAK_MISSING))
    }

    /// A copy of the track.
    pub fn duplicate(&self) -> (copy: TrackData)
        ensures
            copy@ == self@,
    {
        TrackData {
            base: TrackBaseData {
                width: self.base.width,
                height: self.base.height,
                timescale: self.base.timescale,
                media_box: self.base.media_box.duplicate(),
            },
            extend: self.extend,
        }
    }
}

} // verus!
