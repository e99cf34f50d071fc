//! Plain values that stand for what the remuxer reads from and writes to boxes.

use vstd::prelude::*;

verus! {

/// A four-character code.
#[derive(Debug, Clone, Copy, PartialEq, Eq, Default)]
pub struct FourCC {
    pub value: [u8; 4],
}

impl View for FourCC {
    type V = Seq<u8>;

    open spec fn view(&self) -> Seq<u8> {
        self.value@
    }
}

/// The content of a file-type or segment-type box: a major brand, its minor
/// version and the brands the file is compatible with.
#[derive(Debug, Clone, PartialEq, Eq, Default)]
pub struct BrandBox {
    pub major_brand: FourCC,
    pub minor_version: u32,
    pub compatible_brands: Vec<FourCC>,
}

/// The mathematical content of a [`BrandBox`].
pub struct BrandBoxView {
    pub major_brand: Seq<u8>,
    pub minor_version: u32,
    pub compatible_brands: Seq<Seq<u8>>,
}

impl View for BrandBox {
    type V = BrandBoxView;

    open spec fn view(&self) -> BrandBoxView {
        BrandBoxView {
            major_brand: self.major_brand@,
            minor_version: self.minor_version,
            compatible_brands: Seq::new(
                self.compatible_brands@.len(),
                |i: int| self.compatible_brands@[i]@,
            ),
        }
    }
}

/// The run of samples that one fragment holds for its track.
#[derive(Debug, Clone, PartialEq, Eq, Default)]
pub struct TrackRun {
    pub sample_count: u32,
    /// The size of each sample, or nothing where the fragment's default
    /// size holds for all of them.
    pub sample_sizes: Vec<u32>,
}

/// The mathematical content of a [`TrackRun`].
pub struct TrackRunView {
    pub sample_count: u32,
    pub sample_sizes: Seq<u32>,
}

impl View for TrackRun {
    type V = TrackRunView;

    open spec fn view(&self) -> TrackRunView {
        TrackRunView { sample_count: self.sample_count, sample_sizes: self.sample_sizes@ }
    }
}

/// What one track fragment of a movie fragment says of its track: the
/// fragment header's track and optional defaults, and the run if it has one.
#[derive(Debug, Clone, PartialEq, Eq, Default)]
pub struct TrackFragment {
    pub track_id: u32,
    pub sample_description_index: Option<u32>,
    pub default_sample_duration: Option<u32>,
    pub default_sample_size: Option<u32>,
    pub run: Option<TrackRun>,
}

/// The mathematical content of a [`TrackFragment`].
pub struct TrackFragmentView {
    pub track_id: u32,
    pub sample_description_index: Option<u32>,
    pub default_sample_duration: Option<u32>,
    pub default_sample_size: Option<u32>,
    pub run: Option<TrackRunView>,
}

impl View for TrackFragment {
    type V = TrackFragmentView;

    open spec fn view(&self) -> TrackFragmentView {
        TrackFragmentView {
            track_id: self.track_id,
            sample_description_index: self.sample_description_index,
            default_sample_duration: self.default_sample_duration,
            default_sample_size: self.default_sample_size,
            run: match self.run {
                Some(run) => Some(run@),
                None => None,
            },
        }
    }
}

/// The views of a list of track fragments, in order.
pub open spec fn fragment_views(fragments: Seq<TrackFragment>) -> Seq<TrackFragmentView> {
    Seq::new(fragments.len(), |i: int| fragments[i]@)
}

/// One entry of a time-to-sample table.
#[derive(Debug, Clone, Copy, PartialEq, Eq, Structural, Default)]
pub struct SttsEntry {
    pub sample_count: u32,
    pub sample_delta: u32,
}

/// One entry of a sample-to-chunk table.
#[derive(Debug, Clone, Copy, PartialEq, Eq, Structural, Default)]
pub struct StscEntry {
    pub first_chunk: u32,
    pub samples_per_chunk: u32,
    pub sample_description_index: u32,
    pub first_sample: u32,
}

/// The fragment defaults that a movie-extends box declares for its track.
#[derive(Debug, Clone, Copy, PartialEq, Eq, Structural, Default)]
pub struct TrackExtendData {
    pub track_id: u32,
    pub default_sample_description_index: u32,
    pub default_sample_duration: u32,
    pub default_sample_size: u32,
    pub _default_sample_flags: u32,
}

/// What a track box says of its track: the identifier, the presentation
/// size, the media timescale, and which sample entries its
/// sample-description box holds.
#[derive(Debug, Clone, Copy, PartialEq, Eq, Structural, Default)]
pub struct TrackSource {
    pub track_id: u32,
    pub width: u16,
    pub height: u16,
    pub timescale: u32,
    pub has_avc1: bool,
    pub has_hev1: bool,
    pub has_vp09: bool,
    pub has_mp4a: bool,
    pub has_tx3g: bool,
}

impl TrackExtendData {
    /// The fragment defaults that a track-extends box with these fields
    /// declares.
    pub fn from(
        track_id: u32,
        default_sample_description_index: u32,
        default_sample_duration: u32,
        default_sample_size: u32,
        default_sample_flags: u32,
    ) -> (data: TrackExtendData)
        ensures
            data == (TrackExtendData {
                track_id,
                default_sample_description_index,
                default_sample_duration,
                default_sample_size,
                _default_sample_flags: default_sample_flags,
            }),
    {
        TrackExtendData {
            track_id,
            default_sample_description_index,
            default_sample_duration,
            default_sample_size,
            _default_sample_flags: default_sample_flags,
        }
    }
}

impl TrackSource {
    /// What a track box says; `entries` tells of the AVC, HEVC, VP9, AAC and
    /// timed-text sample entry, in this order, whether it is there.
    pub fn new(track_id: u32, width: u16, height: u16, timescale: u32, entries: [bool; 5]) -> (source: TrackSource)
        ensures
            source == (TrackSource {
                track_id,
                width,
                height,
                timescale,
                has_avc1: entries[0],
                has_hev1: entries[1],
                has_vp09: entries[2],
                has_mp4a: entries[3],
                has_tx3g: entries[4],
            }),
    {
        TrackSource {
            track_id,
            width,
            height,
            timescale,
            has_avc1: entries[0],
            has_hev1: entries[1],
            has_vp09: entries[2],
            has_mp4a: entries[3],
            has_tx3g: entries[4],
        }
    }
}

/// A movie-fragment box: its bytes, header included, and what they say of
/// each track.
#[derive(Debug, Clone, PartialEq, Eq, Default)]
pub struct MoofBox {
    pub bytes: Vec<u8>,
    pub trafs: Vec<TrackFragment>,
}

/// The mathematical content of a [`MoofBox`].
pub struct MoofBoxView {
    pub bytes: Seq<u8>,
    pub trafs: Seq<TrackFragmentView>,
}

impl View for MoofBox {
    type V = MoofBoxView;

    open spec fn view(&self) -> MoofBoxView {
        MoofBoxView { bytes: self.bytes@, trafs: fragment_views(self.trafs@) }
    }
}

/// A movie box: its bytes, header included, and what they say of the
/// fragment defaults and of each track.
#[derive(Debug, Clone, PartialEq, Eq, Default)]
pub struct MoovBox {
    pub bytes: Vec<u8>,
    pub mvex: Option<TrackExtendData>,
    pub traks: Vec<TrackSource>,
}

/// What the codec reads in a movie box: the fragment defaults of its
/// movie-extends box, if it has one, and its track boxes in order.
pub struct MovieFacts {
    pub mvex: Option<TrackExtendData>,
    pub traks: Seq<TrackSource>,
}

/// The mathematical content of a [`MoovBox`].
pub struct MoovBoxView {
    pub bytes: Seq<u8>,
    pub mvex: Option<TrackExtendData>,
    pub traks: Seq<TrackSource>,
}

impl View for MoovBox {
    type V = MoovBoxView;

    open spec fn view(&self) -> MoovBoxView {
        MoovBoxView { bytes: self.bytes@, mvex: self.mvex, traks: self.traks@ }
    }
}

/// The sample entry of a track, kept where it was found: in the
/// sample-description box of track box number `track` of the movie box
/// with the bytes `moov`.
#[derive(Debug, Clone, PartialEq, Eq, Default)]
pub struct SampleEntry {
    pub moov: Vec<u8>,
    pub track: usize,
}

/// The mathematical content of a [`SampleEntry`].
pub struct SampleEntryView {
    pub moov: Seq<u8>,
    pub track: usize,
}

impl View for SampleEntry {
    type V = SampleEntryView;

    open spec fn view(&self) -> SampleEntryView {
        SampleEntryView { moov: self.moov@, track: self.track }
    }
}

} // verus!
