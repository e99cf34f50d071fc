//! The hybrid writer: it takes media segments one after the other, keeps the
//! sample tables of each track, hands out the bytes to append to the output,
//! and at the end the movie box and the header that turns the placeholder
//! into the payload box.

use vstd::prelude::*;
use crate::bytes::{header_bytes, lemma_header_bytes_len, FREE, FTYP, MDAT};
use crate::codec::{brand_box_bytes, encode_ftyp, invalid_data, write_header};
use crate::config::{ascending, FMp4Config};
use crate::error::{reports, Failure, Fmp4ParseError};
use crate::laws::lemma_gained_offsets_len;
use crate::model::{BrandBox, BrandBoxView, FourCC, StscEntry, SttsEntry};
use crate::movie::{
    checked_movie_duration, creation_time_of, finishable, movie_duration, movie_of, next_track_id,
    track_box_of, Movie, TrackBox, MOVIE_TIMESCALE, MOVIE_VERSION,
};
use crate::round_trip::lemma_brand_bytes_layout;
use crate::segment::{
    chunk_views, chunks_bytes, lemma_chunks_bytes_fails, payload_box_size, payload_start,
    segment_lane, Chunk,
    ChunkView, MediaSegment, MediaSegmentView, MAX_BRANDS,
};
use crate::tables::{
    counters_fit, find_fragment, lane_runs, lane_samples, lane_sized, lemma_stsc_counters,
    lemma_stsz_len, lemma_stts_duration_bound, slot_run, stsc_table, stsz_table, stts_table,
    table_duration,
};
use crate::track::{TrackData, TrackDataView};

verus! {

// ---------------------------------------------------------------------------
// The state of one track
// ---------------------------------------------------------------------------

/// The sample tables of one track as they stand, and its counters.
#[derive(Debug)]
pub struct Track {
    data: TrackData,
    stts_entries: Vec<SttsEntry>,
    stsc_entries: Vec<StscEntry>,
    stsz_entries: Vec<u32>,
    co64_entries: Vec<u64>,
    chunk_offset: u32,
    sample_offset: u32,
}

/// The mathematical content of a [`Track`].
pub struct TrackView {
    pub data: TrackDataView,
    pub stts_entries: Seq<SttsEntry>,
    pub stsc_entries: Seq<StscEntry>,
    pub stsz_entries: Seq<u32>,
    pub co64_entries: Seq<u64>,
    /// Number of the next chunk, counted from 1.
    pub chunk_offset: u32,
    /// Number of the next sample, counted from 1.
    pub sample_offset: u32,
}

impl View for Track {
    type V = TrackView;

    closed spec fn view(&self) -> TrackView {
        TrackView {
            data: self.data@,
            stts_entries: self.stts_entries@,
            stsc_entries: self.stsc_entries@,
            stsz_entries: self.stsz_entries@,
            co64_entries: self.co64_entries@,
            chunk_offset: self.chunk_offset,
            sample_offset: self.sample_offset,
        }
    }
}

/// What holds of every track: the counters are at least 1, and the duration
/// of the time-to-sample table is at most what the samples counted would
/// last if each lasted as long as 32 bits can say; so it fits 64 bits.
pub open spec fn track_valid(track: TrackView) -> bool {
    &&& track.chunk_offset >= 1
    &&& track.sample_offset >= 1
    &&& table_duration(track.stts_entries) <= (track.sample_offset - 1) * 0xffff_ffff
}

/// A track before its first segment: empty tables, and the counters at 1.
pub open spec fn fresh_track(data: TrackDataView) -> TrackView {
    TrackView {
        data,
        stts_entries: Seq::empty(),
        stsc_entries: Seq::empty(),
        stsz_entries: Seq::empty(),
        co64_entries: Seq::empty(),
        chunk_offset: 1,
        sample_offset: 1,
    }
}

/// The duration of a table that is extended is the duration of what was
/// there and of what was added.
pub proof fn lemma_table_duration_add(a: Seq<SttsEntry>, b: Seq<SttsEntry>)
    ensures
        table_duration(a + b) == table_duration(a) + table_duration(b),
    decreases b.len(),
{
    if b.len() == 0 {
        assert(a + b =~= a);
    } else {
        assert((a + b).drop_last() =~= a + b.drop_last());
        lemma_table_duration_add(a, b.drop_last());
    }
}

impl Track {
    #[verifier::type_invariant]
    spec fn valid(self) -> bool {
        track_valid(self@)
    }

    /// Does nothing; for the caller, the track is as [`track_valid`] says.
    pub fn check_valid(&self)
        ensures
            track_valid(self@),
    {
        proof {
            use_type_invariant(self);
        }
    }

    /// The track before its first segment.
    pub fn new(data: TrackData) -> (track: Track)
        ensures
            track@ == fresh_track(data@),
    {
        Track {
            data,
            stts_entries: Vec::new(),
            stsc_entries: Vec::new(),
            stsz_entries: Vec::new(),
            co64_entries: Vec::new(),
            chunk_offset: 1,
            sample_offset: 1,
        }
    }

    /// What was taken of the track from its initial segment.
    pub fn data(&self) -> (data: &TrackData)
        ensures
            data@ == self@.data,
    {
        &self.data
    }

    /// The identifier of the track.
    pub fn track_id(&self) -> (id: u32)
        ensures
            id == self@.data.extend.track_id,
    {
        self.data.extend.track_id
    }

    /// The time-to-sample table.
    pub fn stts_entries(&self) -> (entries: &Vec<SttsEntry>)
        ensures
            entries@ == self@.stts_entries,
    {
        &self.stts_entries
    }

    /// The sample-to-chunk table.
    pub fn stsc_entries(&self) -> (entries: &Vec<StscEntry>)
        ensures
            entries@ == self@.stsc_entries,
    {
        &self.stsc_entries
    }

    /// The sample-size table.
    pub fn stsz_entries(&self) -> (entries: &Vec<u32>)
        ensures
            entries@ == self@.stsz_entries,
    {
        &self.stsz_entries
    }

    /// The chunk-offset table.
    pub fn co64_entries(&self) -> (entries: &Vec<u64>)
        ensures
            entries@ == self@.co64_entries,
    {
        &self.co64_entries
    }

    /// The number of the next chunk.
    pub fn chunk_offset(&self) -> (n: u32)
        ensures
            n == self@.chunk_offset,
    {
        self.chunk_offset
    }

    /// The number of the next sample.
    pub fn sample_offset(&self) -> (n: u32)
        ensures
            n == self@.sample_offset,
    {
        self.sample_offset
    }

    /// The duration of the track: the sum, over the time-to-sample table,
    /// of sample count times sample delta.
    pub fn duration(&self) -> (duration: u64)
        ensures
            duration == table_duration(self@.stts_entries),
    {
        proof {
            use_type_invariant(self);
        }
        table_duration_of(&self.stts_entries)
    }

    /// Adds what one segment gives to the tables, and moves the counters on.
    fn absorb(
        &mut self,
        stts: Vec<SttsEntry>,
        stsc: Vec<StscEntry>,
        chunk_offset: u32,
        sample_offset: u32,
        stsz: Vec<u32>,
        co64: Vec<u64>,
    )
        requires
            chunk_offset >= 1,
            sample_offset >= old(self)@.sample_offset,
            table_duration(old(self)@.stts_entries) + table_duration(stts@) <= (sample_offset
                - 1) * 0xffff_ffff,
        ensures
            final(self)@ == (TrackView {
                data: old(self)@.data,
                stts_entries: old(self)@.stts_entries + stts@,
                stsc_entries: old(self)@.stsc_entries + stsc@,
                stsz_entries: old(self)@.stsz_entries + stsz@,
                co64_entries: old(self)@.co64_entries + co64@,
                chunk_offset,
                sample_offset,
            }),
    {
        proof {
            use_type_invariant(&*self);
            lemma_table_duration_add(self.stts_entries@, stts@);
        }
        let mut stts = stts;
        let mut stsc = stsc;
        let mut stsz = stsz;
        let mut co64 = co64;
        let ghost before: int = self.sample_offset as int;
        assert((before - 1) * 0xffff_ffff <= (sample_offset - 1) * 0xffff_ffff)
            by (nonlinear_arith)
            requires
                before <= sample_offset,
        ;
        self.chunk_offset = chunk_offset;
        self.sample_offset = sample_offset;
        let mut all_stts: Vec<SttsEntry> = Vec::new();
        core::mem::swap(&mut self.stts_entries, &mut all_stts);
        all_stts.append(&mut stts);
        core::mem::swap(&mut self.stts_entries, &mut all_stts);
        let mut all_stsc: Vec<StscEntry> = Vec::new();
        core::mem::swap(&mut self.stsc_entries, &mut all_stsc);
        all_stsc.append(&mut stsc);
        core::mem::swap(&mut self.stsc_entries, &mut all_stsc);
        let mut all_stsz: Vec<u32> = Vec::new();
        core::mem::swap(&mut self.stsz_entries, &mut all_stsz);
        all_stsz.append(&mut stsz);
        core::mem::swap(&mut self.stsz_entries, &mut all_stsz);
        let mut all_co64: Vec<u64> = Vec::new();
        core::mem::swap(&mut self.co64_entries, &mut all_co64);
        all_co64.append(&mut co64);
        core::mem::swap(&mut self.co64_entries, &mut all_co64);
    }
}

/// What samples can last at most adds up as the samples do.
pub proof fn lemma_duration_bound_add(a: int, b: int)
    ensures
        (a + b) * 0xffff_ffff == a * 0xffff_ffff + b * 0xffff_ffff,
{
    assert((a + b) * 0xffff_ffff == a * 0xffff_ffff + b * 0xffff_ffff) by (nonlinear_arith);
}

/// The duration of the first entries of a table is no more than that of
/// all.
pub proof fn lemma_table_duration_prefix(entries: Seq<SttsEntry>, n: int)
    requires
        0 <= n <= entries.len(),
    ensures
        table_duration(entries.take(n)) <= table_duration(entries),
{
    assert(entries.take(n) + entries.skip(n) =~= entries);
    lemma_table_duration_add(entries.take(n), entries.skip(n));
}

/// The duration of a time-to-sample table, or nothing where it does not fit
/// 64 bits.
pub fn checked_table_duration(entries: &Vec<SttsEntry>) -> (duration: Option<u64>)
    ensures
        match duration {
            Some(d) => d == table_duration(entries@),
            None => table_duration(entries@) > u64::MAX,
        },
{
    let mut total: u64 = 0;
    let mut i: usize = 0;
    while i < entries.len()
        invariant
            i <= entries.len(),
            total == table_duration(entries@.take(i as int)),
        decreases entries.len() - i,
    {
        let count: u64 = entries[i].sample_count as u64;
        let delta: u64 = entries[i].sample_delta as u64;
        assert(count * delta <= 0xffff_ffff * 0xffff_ffff) by (nonlinear_arith)
            requires
                count <= 0xffff_ffff,
                delta <= 0xffff_ffff,
        ;
        let product: u64 = count * delta;
        proof {
            assert(entries@.take(i + 1).drop_last() =~= entries@.take(i as int));
            assert(table_duration(entries@.take(i + 1)) == total + product);
        }
        if product > u64::MAX - total {
            proof {
                lemma_table_duration_prefix(entries@, i + 1);
            }
            return None;
        }
        total = total + product;
        i += 1;
    }
    assert(entries@.take(i as int) =~= entries@);
    Some(total)
}

/// The duration of a time-to-sample table.
pub fn table_duration_of(entries: &Vec<SttsEntry>) -> (duration: u64)
    requires
        table_duration(entries@) <= u64::MAX,
    ensures
        duration == table_duration(entries@),
{
    match checked_table_duration(entries) {
        Some(duration) => duration,
        None => 0,
    }
}

// ---------------------------------------------------------------------------
// What a segment does to the tracks
// ---------------------------------------------------------------------------

/// Whether the chunk holds a run for the track.
pub open spec fn has_run(chunk: ChunkView, track_id: u32) -> bool {
    slot_run(find_fragment(chunk.moof.trafs, track_id)) is Some
}

/// Whether the chunk holds a run for one of the tracks before place `t`.
pub open spec fn claimed_before(tracks: Seq<TrackView>, t: int, chunk: ChunkView) -> bool {
    exists|s: int| 0 <= s < t && has_run(chunk, (#[trigger] tracks[s]).data.extend.track_id)
}

/// Whether the chunk counts for the track at place `t`: it holds a run for
/// it, and for no track before it.
pub open spec fn owns(tracks: Seq<TrackView>, t: int, chunk: ChunkView) -> bool {
    has_run(chunk, tracks[t].data.extend.track_id) && !claimed_before(tracks, t, chunk)
}

/// The position in the output at which the payload of chunk `i` starts,
/// where the first chunk is written at `position`.
pub open spec fn payload_offset(position: int, chunks: Seq<ChunkView>, i: int) -> int {
    position + chunks_bytes(chunks, i)->Ok_0.len() + payload_start(chunks[i])
}

/// The chunk offsets that the first `n` chunks give to the track at place
/// `t`: the payload offsets of the chunks that count for it.
pub open spec fn gained_offsets(
    tracks: Seq<TrackView>,
    t: int,
    position: int,
    chunks: Seq<ChunkView>,
    n: int,
) -> Seq<u64>
    decreases n,
{
    if n <= 0 {
        Seq::empty()
    } else if owns(tracks, t, chunks[n - 1]) {
        gained_offsets(tracks, t, position, chunks, n - 1).push(
            payload_offset(position, chunks, n - 1) as u64,
        )
    } else {
        gained_offsets(tracks, t, position, chunks, n - 1)
    }
}

/// The track at place `t` after a segment whose first chunk is written at
/// `position`: its tables extended by what the segment holds for it, and
/// its counters moved on.
pub open spec fn track_after(
    tracks: Seq<TrackView>,
    t: int,
    position: int,
    chunks: Seq<ChunkView>,
) -> TrackView {
    let track = tracks[t];
    let lane = segment_lane(chunks, track.data.extend.track_id);
    let state = stsc_table(
        lane,
        track.data.extend.default_sample_description_index,
        track.chunk_offset as int,
        track.sample_offset as int,
    );
    TrackView {
        data: track.data,
        stts_entries: track.stts_entries + stts_table(
            lane,
            track.data.extend.default_sample_duration,
        ),
        stsc_entries: track.stsc_entries + state.entries,
        stsz_entries: track.stsz_entries + stsz_table(lane, track.data.extend.default_sample_size),
        co64_entries: track.co64_entries + gained_offsets(
            tracks,
            t,
            position,
            chunks,
            chunks.len() as int,
        ),
        chunk_offset: state.chunk as u32,
        sample_offset: state.sample as u32,
    }
}

/// Whether the track can take the segment: its counters stay within 32
/// bits.
pub open spec fn track_accepts(track: TrackView, chunks: Seq<ChunkView>) -> bool {
    counters_fit(
        segment_lane(chunks, track.data.extend.track_id),
        track.chunk_offset as int,
        track.sample_offset as int,
    )
}

// ---------------------------------------------------------------------------
// The writer
// ---------------------------------------------------------------------------

/// The writer of a hybrid file.
#[derive(Debug)]
pub struct HybridMp4Writer {
    free_pos: u64,
    free_size: u64,
    tracks: Vec<Track>,
}

/// The mathematical content of a [`HybridMp4Writer`].
pub struct WriterView {
    /// Where the placeholder stands in the output.
    pub free_pos: u64,
    /// The bytes handed out since the placeholder.
    pub free_size: u64,
    /// The tracks, in the order of their identifiers.
    pub tracks: Seq<TrackView>,
}

/// The views of a list of tracks, in order.
pub open spec fn track_views(tracks: Seq<Track>) -> Seq<TrackView> {
    Seq::new(tracks.len(), |i: int| tracks[i]@)
}

/// What was taken of each track from its initial segment, in order.
pub open spec fn track_datas(tracks: Seq<TrackView>) -> Seq<TrackDataView> {
    Seq::new(tracks.len(), |i: int| tracks[i].data)
}

impl View for HybridMp4Writer {
    type V = WriterView;

    closed spec fn view(&self) -> WriterView {
        WriterView {
            free_pos: self.free_pos,
            free_size: self.free_size,
            tracks: track_views(self.tracks@),
        }
    }
}

/// The position in the output behind all that was handed out: behind the
/// placeholder of 8 bytes and what followed it.
pub open spec fn position(writer: WriterView) -> int {
    writer.free_pos + 8 + writer.free_size
}

/// What holds of every writer: the position fits 64 bits, the tracks stand
/// in the order of their identifiers, and each is as [`track_valid`] says.
pub open spec fn writer_valid(writer: WriterView) -> bool {
    &&& position(writer) <= u64::MAX
    &&& ascending(track_datas(writer.tracks))
    &&& forall|t: int| 0 <= t < writer.tracks.len() ==> track_valid(#[trigger] writer.tracks[t])
}

/// The brands of a configuration as a brand box.
pub open spec fn config_brands(config: FMp4Config) -> BrandBoxView {
    BrandBoxView {
        major_brand: config.major_brand@,
        minor_version: config.minor_version,
        compatible_brands: Seq::new(
            config.compatible_brands@.len(),
            |i: int| config.compatible_brands@[i]@,
        ),
    }
}

/// The bytes that open the output: the file-type box, then a placeholder,
/// which is the compact header of a free-space box that declares no size.
pub open spec fn opening_bytes(config: FMp4Config) -> Seq<u8> {
    brand_box_bytes(FTYP, config_brands(config)) + header_bytes(FREE, 0)
}

/// The bytes that open the output are a file-type box of 16 bytes and 4
/// for each compatible brand, 8 more where its size needs a long header,
/// and 8 bytes of placeholder.
pub proof fn lemma_opening_bytes_len(config: FMp4Config)
    ensures
        opening_bytes(config).len() == 24 + 4 * config.compatible_brands@.len() + if 16 + 4
            * config.compatible_brands@.len() > u32::MAX {
            8int
        } else {
            0int
        },
{
    let brands = config_brands(config);
    lemma_header_bytes_len(FTYP, 16 + 4 * (brands.compatible_brands.len() as int));
    lemma_header_bytes_len(FREE, 0);
    lemma_brand_bytes_layout(brands.compatible_brands, 0);
}

/// The writer before its first segment, for an output that stands at
/// `start`.
pub open spec fn fresh_writer(start: u64, config: FMp4Config) -> WriterView {
    WriterView {
        free_pos: (start + brand_box_bytes(FTYP, config_brands(config)).len()) as u64,
        free_size: 0,
        tracks: Seq::new(config.tracks().len(), |i: int| fresh_track(config.tracks()[i])),
    }
}

/// Whether the writer can take the segment: the position stays within 64
/// bits where the chunks can be written, and each track can take it.
pub open spec fn accepts(writer: WriterView, media: MediaSegmentView) -> bool {
    &&& chunks_bytes(media.chunks, media.chunks.len() as int) matches Ok(bytes) ==> position(
        writer,
    ) + bytes.len() <= u64::MAX
    &&& forall|t: int|
        0 <= t < writer.tracks.len() ==> track_accepts(#[trigger] writer.tracks[t], media.chunks)
}

/// The writer after a segment of these bytes: every track as
/// [`track_after`] says, and the bytes counted.
pub open spec fn writer_after(writer: WriterView, media: MediaSegmentView, bytes: Seq<u8>) -> WriterView {
    WriterView {
        free_pos: writer.free_pos,
        free_size: (writer.free_size + bytes.len()) as u64,
        tracks: Seq::new(
            writer.tracks.len(),
            |t: int| track_after(writer.tracks, t, position(writer), media.chunks),
        ),
    }
}

/// Whether the sample sizes were counted from `before` to `after`: each
/// track whose runs in the chunks list either no sample size or one for
/// each sample has gained one size for each sample that the chunks hold for
/// it.
pub open spec fn sizes_counted(
    before: Seq<TrackView>,
    after: Seq<TrackView>,
    chunks: Seq<ChunkView>,
) -> bool {
    &&& after.len() == before.len()
    &&& forall|t: int|
        0 <= t < before.len() && lane_sized(
            segment_lane(chunks, before[t].data.extend.track_id),
        ) ==> (#[trigger] after[t]).stsz_entries.len() == before[t].stsz_entries.len()
            + lane_samples(segment_lane(chunks, before[t].data.extend.track_id))
}

/// Whether the chunk offsets were counted from `before` to `after`: each
/// track has gained at most one offset for each chunk that holds a run for
/// it, and exactly one for each where no chunk holds a run for a track
/// before it.
pub open spec fn offsets_counted(
    before: Seq<TrackView>,
    after: Seq<TrackView>,
    chunks: Seq<ChunkView>,
) -> bool {
    &&& after.len() == before.len()
    &&& forall|t: int|
        0 <= t < before.len() ==> {
            &&& (#[trigger] after[t]).co64_entries.len() <= before[t].co64_entries.len()
                + lane_runs(segment_lane(chunks, before[t].data.extend.track_id))
            &&& (forall|i: int| 0 <= i < chunks.len() ==> !claimed_before(before, t, #[trigger] chunks[i]))
                ==> after[t].co64_entries.len() == before[t].co64_entries.len() + lane_runs(
                segment_lane(chunks, before[t].data.extend.track_id),
            )
        }
}

/// After a segment, as [`writer_after`] says, the sample sizes and the
/// chunk offsets of every track are counted.
pub proof fn lemma_segment_counted(writer: WriterView, media: MediaSegmentView, bytes: Seq<u8>)
    ensures
        sizes_counted(writer.tracks, writer_after(writer, media, bytes).tracks, media.chunks),
        offsets_counted(writer.tracks, writer_after(writer, media, bytes).tracks, media.chunks),
{
    let before = writer.tracks;
    let after = writer_after(writer, media, bytes).tracks;
    let chunks = media.chunks;
    assert forall|t: int| 0 <= t < before.len() implies {
        &&& lane_sized(segment_lane(chunks, before[t].data.extend.track_id)) ==> (
        #[trigger] after[t]).stsz_entries.len() == before[t].stsz_entries.len() + lane_samples(
            segment_lane(chunks, before[t].data.extend.track_id),
        )
        &&& after[t].co64_entries.len() <= before[t].co64_entries.len() + lane_runs(
            segment_lane(chunks, before[t].data.extend.track_id),
        )
        &&& (forall|i: int| 0 <= i < chunks.len() ==> !claimed_before(before, t, #[trigger] chunks[i]))
            ==> after[t].co64_entries.len() == before[t].co64_entries.len() + lane_runs(
            segment_lane(chunks, before[t].data.extend.track_id),
        )
    } by {
        let lane = segment_lane(chunks, before[t].data.extend.track_id);
        if lane_sized(lane) {
            lemma_stsz_len(lane, before[t].data.extend.default_sample_size);
        }
        lemma_gained_offsets_len(before, t, position(writer), chunks, chunks.len() as int);
        assert(lane.take(chunks.len() as int) =~= lane);
    }
}

/// Claiming goes on track by track: a chunk is claimed before place `t + 1`
/// where it was claimed before `t` or holds a run for the track at `t`.
pub proof fn lemma_claimed_next(tracks: Seq<TrackView>, t: int, chunk: ChunkView)
    requires
        0 <= t < tracks.len(),
    ensures
        claimed_before(tracks, t + 1, chunk) == (claimed_before(tracks, t, chunk) || has_run(
            chunk,
            tracks[t].data.extend.track_id,
        )),
        !claimed_before(tracks, 0, chunk),
{
    if claimed_before(tracks, t, chunk) {
        let s = choose|s: int|
            0 <= s < t && has_run(chunk, (#[trigger] tracks[s]).data.extend.track_id);
        assert(0 <= s < t + 1);
    }
    if has_run(chunk, tracks[t].data.extend.track_id) {
        assert(0 <= t < t + 1);
    }
}

/// Whether the bytes of the chunks, where they can be written, are no more
/// than `limit`; the chunks are measured, not written.
fn chunks_within(chunks: &Vec<Chunk>, limit: u64) -> (within: bool)
    ensures
        within == (chunks_bytes(chunk_views(chunks@), chunks@.len() as int) matches Ok(bytes)
            ==> bytes.len() <= limit),
{
    let ghost views = chunk_views(chunks@);
    let mut total: u64 = 0;
    let mut over = false;
    let mut i: usize = 0;
    while i < chunks.len()
        invariant
            i <= chunks.len(),
            views == chunk_views(chunks@),
            chunks_bytes(views, i as int) is Ok,
            over == (chunks_bytes(views, i as int)->Ok_0.len() > limit),
            !over ==> total == chunks_bytes(views, i as int)->Ok_0.len(),
        decreases chunks.len() - i,
    {
        assert(views[i as int] == chunks@[i as int]@);
        let payload: usize = chunks[i].mdat.len();
        if payload as u64 > u64::MAX - 16 {
            proof {
                lemma_chunks_bytes_fails(views, i + 1, views.len() as int);
            }
            return true;
        }
        let moof: usize = chunks[i].moof.bytes.len();
        proof {
            lemma_header_bytes_len(MDAT, payload_box_size(payload as nat));
        }
        let header: u64 = if 8 + payload as u64 > u32::MAX as u64 {
            16
        } else {
            8
        };
        if !over {
            let left: u64 = limit - total;
            if moof as u64 > left || header > left - moof as u64 || payload as u64 > left
                - moof as u64 - header {
                over = true;
            } else {
                total = total + moof as u64 + header + payload as u64;
            }
        }
        i += 1;
    }
    !over
}

/// Writes the chunks one behind the other, and says for each where in the
/// bytes its payload starts.
fn write_chunks(chunks: &Vec<Chunk>) -> (r: Result<
    (Vec<u8>, Vec<usize>),
    Fmp4ParseError,
>)
    ensures
        match chunks_bytes(chunk_views(chunks@), chunks@.len() as int) {
            Ok(bytes) => {
                &&& r matches Ok(pair)
                &&& pair.0@ == bytes
                &&& pair.1@.len() == chunks@.len()
                &&& forall|i: int|
                    0 <= i < chunks@.len() ==> {
                        &&& (#[trigger] pair.1@[i]) == payload_offset(0, chunk_views(chunks@), i)
                        &&& pair.1@[i] <= bytes.len()
                    }
            },
            Err(f) => r matches Err(e) && reports(e, f),
        },
{
    let ghost views = chunk_views(chunks@);
    let mut out: Vec<u8> = Vec::new();
    let mut starts: Vec<usize> = Vec::new();
    let mut i: usize = 0;
    while i < chunks.len()
        invariant
            i <= chunks.len(),
            views == chunk_views(chunks@),
            chunks_bytes(views, i as int) == Ok::<Seq<u8>, Failure>(out@),
            starts@.len() == i,
            forall|k: int|
                0 <= k < i ==> {
                    &&& (#[trigger] starts@[k]) == payload_offset(0, views, k)
                    &&& starts@[k] <= out@.len()
                },
        decreases chunks.len() - i,
    {
        assert(views[i as int] == chunks@[i as int]@);
        match chunks[i].write_located(&mut out) {
            Err(e) => {
                proof {
                    lemma_chunks_bytes_fails(views, i + 1, views.len() as int);
                }
                return Err(e);
            },
            Ok(at) => {
                starts.push(at);
            },
        }
        i += 1;
    }
    Ok((out, starts))
}

/// The chunk offsets that a segment gives to the track at place `t`;
/// `claimed` says which chunks count for an earlier track, and then also
/// which count for this one.
fn claim_offsets(
    media: &MediaSegment,
    track_id: u32,
    claimed: &mut Vec<bool>,
    base: u64,
    starts: &Vec<usize>,
    Ghost(tracks): Ghost<Seq<TrackView>>,
    Ghost(t): Ghost<int>,
) -> (offsets: Vec<u64>)
    requires
        0 <= t < tracks.len(),
        track_id == tracks[t].data.extend.track_id,
        old(claimed)@.len() == media@.chunks.len(),
        starts@.len() == media@.chunks.len(),
        forall|i: int|
            0 <= i < media@.chunks.len() ==> (#[trigger] old(claimed)@[i]) == claimed_before(
                tracks,
                t,
                media@.chunks[i],
            ),
        forall|i: int|
            0 <= i < media@.chunks.len() ==> {
                &&& (#[trigger] starts@[i]) == payload_offset(0, media@.chunks, i)
                &&& base + starts@[i] <= u64::MAX
            },
    ensures
        offsets@ == gained_offsets(
            tracks,
            t,
            base as int,
            media@.chunks,
            media@.chunks.len() as int,
        ),
        final(claimed)@.len() == media@.chunks.len(),
        forall|i: int|
            0 <= i < media@.chunks.len() ==> (#[trigger] final(claimed)@[i]) == claimed_before(
                tracks,
                t + 1,
                media@.chunks[i],
            ),
{
    let ghost chunks = media@.chunks;
    let mut offsets: Vec<u64> = Vec::new();
    let mut i: usize = 0;
    while i < media.chunks.len()
        invariant
            i <= media.chunks.len(),
            0 <= t < tracks.len(),
            track_id == tracks[t].data.extend.track_id,
            chunks == media@.chunks,
            claimed@.len() == chunks.len(),
            starts@.len() == chunks.len(),
            offsets@ == gained_offsets(tracks, t, base as int, chunks, i as int),
            forall|k: int|
                0 <= k < i ==> (#[trigger] claimed@[k]) == claimed_before(tracks, t + 1, chunks[k]),
            forall|k: int|
                i <= k < chunks.len() ==> (#[trigger] claimed@[k]) == claimed_before(
                    tracks,
                    t,
                    chunks[k],
                ),
            forall|k: int|
                0 <= k < chunks.len() ==> {
                    &&& (#[trigger] starts@[k]) == payload_offset(0, chunks, k)
                    &&& base + starts@[k] <= u64::MAX
                },
        decreases media.chunks.len() - i,
    {
        assert(chunks[i as int] == media.chunks@[i as int]@);
        let runs = media.chunks[i].has_run(track_id);
        proof {
            lemma_claimed_next(tracks, t, chunks[i as int]);
        }
        if runs && !claimed[i] {
            let start: usize = starts[i];
            offsets.push(base + start as u64);
            claimed[i] = true;
        }
        i += 1;
    }
    offsets
}

impl HybridMp4Writer {
    #[verifier::type_invariant]
    spec fn valid(self) -> bool {
        writer_valid(self@)
    }

    /// Does nothing; for the caller, the writer is as [`writer_valid`]
    /// says.
    pub fn check_valid(&self)
        ensures
            writer_valid(self@),
    {
        proof {
            use_type_invariant(self);
        }
    }

    /// Where the placeholder stands in the output.
    pub fn free_pos(&self) -> (at: u64)
        ensures
            at == self@.free_pos,
    {
        self.free_pos
    }

    /// The bytes handed out since the placeholder.
    pub fn free_size(&self) -> (size: u64)
        ensures
            size == self@.free_size,
    {
        self.free_size
    }

    /// The position in the output behind all that was handed out.
    pub fn position(&self) -> (at: u64)
        ensures
            at == position(self@),
    {
        proof {
            use_type_invariant(self);
        }
        self.free_pos + 8 + self.free_size
    }

    /// The tracks, in the order of their identifiers.
    pub fn tracks(&self) -> (tracks: &Vec<Track>)
        ensures
            track_views(tracks@) == self@.tracks,
    {
        &self.tracks
    }

    /// Starts the output of `config` at position `start`: the writer, with
    /// an empty accumulator for each track, and the bytes to write first,
    /// the file-type box and the placeholder.
    pub fn initialize(start: u64, config: &FMp4Config) -> (r: Result<
        (HybridMp4Writer, Vec<u8>),
        Fmp4ParseError,
    >)
        requires
            config.compatible_brands@.len() <= MAX_BRANDS ==> start + opening_bytes(
                *config,
            ).len() <= u64::MAX,
        ensures
            if config.compatible_brands@.len() <= MAX_BRANDS {
                &&& r matches Ok(pair)
                &&& pair.0@ == fresh_writer(start, *config)
                &&& pair.1@ == opening_bytes(*config)
                &&& position(pair.0@) == start + pair.1@.len()
                &&& writer_valid(pair.0@)
            } else {
                r matches Err(e) && reports(e, Failure::Malformed)
            },
    {
        if config.compatible_brands.len() as u64 > MAX_BRANDS {
            return Err(Fmp4ParseError::Mp4Error(invalid_data("too many compatible brands")));
        }
        let mut compatible_brands: Vec<FourCC> = Vec::new();
        let mut i: usize = 0;
        while i < config.compatible_brands.len()
            invariant
                i <= config.compatible_brands.len(),
                compatible_brands@ == config.compatible_brands@.take(i as int),
            decreases config.compatible_brands.len() - i,
        {
            compatible_brands.push(config.compatible_brands[i]);
            assert(config.compatible_brands@.take(i + 1) =~= config.compatible_brands@.take(
                i as int,
            ).push(config.compatible_brands@[i as int]));
            i += 1;
        }
        assert(config.compatible_brands@.take(i as int) =~= config.compatible_brands@);
        let brands = BrandBox {
            major_brand: config.major_brand,
            minor_version: config.minor_version,
            compatible_brands,
        };
        assert(brands@.compatible_brands =~= config_brands(*config).compatible_brands);
        let mut out = encode_ftyp(&brands);
        let ftyp_len = out.len();
        let mut placeholder = write_header(FREE, 0);
        proof {
            lemma_header_bytes_len(FREE, 0);
        }
        out.append(&mut placeholder);
        config.tracks.ordered_tracks();
        let mut tracks: Vec<Track> = Vec::new();
        let mut t: usize = 0;
        let count = config.tracks.len();
        while t < count
            invariant
                t <= count,
                count == config.tracks().len(),
                tracks@.len() == t,
                forall|k: int|
                    0 <= k < t ==> (#[trigger] tracks@[k])@ == fresh_track(config.tracks()[k]),
            decreases count - t,
        {
            tracks.push(Track::new(config.tracks.get(t).duplicate()));
            t += 1;
        }
        let ghost views = track_views(tracks@);
        proof {
            assert(views =~= fresh_writer(start, *config).tracks);
            assert(track_datas(views) =~= config.tracks());
            assert forall|k: int| 0 <= k < views.len() implies track_valid(
                #[trigger] views[k],
            ) by {
                assert(table_duration(views[k].stts_entries) == 0);
            }
        }
        let writer = HybridMp4Writer { free_pos: start + ftyp_len as u64, free_size: 0, tracks };
        Ok((writer, out))
    }

    /// Whether the writer can take the segment, as [`accepts`] says.
    pub fn fits(&self, media: &MediaSegment) -> (fit: bool)
        ensures
            fit == accepts(self@, media@),
    {
        proof {
            use_type_invariant(self);
        }
        let ghost chunks = media@.chunks;
        if !chunks_within(&media.chunks, u64::MAX - (self.free_pos + 8 + self.free_size)) {
            return false;
        }
        let mut t: usize = 0;
        while t < self.tracks.len()
            invariant
                t <= self.tracks.len(),
                chunks == media@.chunks,
                chunks_bytes(chunks, chunks.len() as int) matches Ok(bytes) ==> position(self@)
                    + bytes.len() <= u64::MAX,
                forall|s: int| 0 <= s < t ==> track_accepts(#[trigger] self@.tracks[s], chunks),
            decreases self.tracks.len() - t,
        {
            let track = &self.tracks[t];
            let ghost view = self@.tracks[t as int];
            assert(view == track@);
            track.check_valid();
            if !media.counters_fit(
                track.track_id(),
                Some(track.chunk_offset()),
                Some(track.sample_offset()),
            ) {
                assert(!track_accepts(self@.tracks[t as int], chunks));
                return false;
            }
            t += 1;
        }
        true
    }

    /// Takes a media segment: hands back the bytes to append to the output,
    /// the chunks one behind the other, and adds to each track what the
    /// segment holds for it, as [`writer_after`] says. The payload offset
    /// of a chunk goes to the first track, in the order of the identifiers,
    /// for which the chunk holds a run. So each track gains one sample size
    /// for each of its samples, and one chunk offset for each chunk of
    /// which it is the first track. Where a chunk cannot be written the
    /// writer stays as it is.
    pub fn add_fragment(&mut self, media: MediaSegment) -> (r: Result<Vec<u8>, Fmp4ParseError>)
        requires
            accepts(old(self)@, media@),
        ensures
            writer_valid(final(self)@),
            match chunks_bytes(media@.chunks, media@.chunks.len() as int) {
                Ok(bytes) => {
                    &&& r matches Ok(out)
                    &&& out@ == bytes
                    &&& final(self)@ == writer_after(old(self)@, media@, bytes)
                    &&& position(final(self)@) == position(old(self)@) + bytes.len()
                    &&& sizes_counted(old(self)@.tracks, final(self)@.tracks, media@.chunks)
                    &&& offsets_counted(old(self)@.tracks, final(self)@.tracks, media@.chunks)
                },
                Err(f) => r matches Err(e) && reports(e, f) && final(self)@ == old(self)@,
            },
    {
        proof {
            use_type_invariant(&*self);
        }
        let ghost before = self@;
        let ghost chunks = media@.chunks;
        let (out, starts) = match write_chunks(&media.chunks) {
            Err(e) => {
                return Err(e);
            },
            Ok(pair) => pair,
        };
        let base: u64 = self.free_pos + 8 + self.free_size;
        let mut claimed: Vec<bool> = Vec::new();
        let mut i: usize = 0;
        while i < media.chunks.len()
            invariant
                i <= media.chunks.len(),
                claimed@.len() == i,
                forall|k: int| 0 <= k < i ==> !(#[trigger] claimed@[k]),
            decreases media.chunks.len() - i,
        {
            claimed.push(false);
            i += 1;
        }
        let mut tracks: Vec<Track> = Vec::new();
        core::mem::swap(&mut self.tracks, &mut tracks);
        proof {
            assert forall|k: int| 0 <= k < chunks.len() implies (#[trigger] claimed@[k])
                == claimed_before(before.tracks, 0, chunks[k]) by {
                assert(!claimed_before(before.tracks, 0, chunks[k]));
            }
        }
        let mut t: usize = 0;
        while t < tracks.len()
            invariant
                t <= tracks.len(),
                chunks == media@.chunks,
                base == position(before),
                writer_valid(before),
                accepts(before, media@),
                chunks_bytes(chunks, chunks.len() as int) == Ok::<Seq<u8>, Failure>(out@),
                tracks@.len() == before.tracks.len(),
                claimed@.len() == chunks.len(),
                starts@.len() == chunks.len(),
                forall|k: int|
                    0 <= k < chunks.len() ==> {
                        &&& (#[trigger] starts@[k]) == payload_offset(0, chunks, k)
                        &&& starts@[k] <= out@.len()
                    },
                forall|k: int|
                    0 <= k < chunks.len() ==> (#[trigger] claimed@[k]) == claimed_before(
                        before.tracks,
                        t as int,
                        chunks[k],
                    ),
                forall|s: int|
                    0 <= s < t ==> (#[trigger] tracks@[s])@ == track_after(
                        before.tracks,
                        s,
                        base as int,
                        chunks,
                    ),
                forall|s: int| t <= s < tracks@.len() ==> (#[trigger] tracks@[s])@ == before.tracks[s],
            decreases tracks.len() - t,
        {
            let ghost view = before.tracks[t as int];
            assert(tracks@[t as int]@ == view);
            assert(track_accepts(view, chunks));
            assert(track_valid(view));
            let id = tracks[t].track_id();
            let extend = tracks[t].data().extend;
            let stts = media.stts_entries(id, extend.default_sample_duration);
            let (stsc, chunk_offset, sample_offset) = media.stsc_entries(
                id,
                extend.default_sample_description_index,
                Some(tracks[t].chunk_offset()),
                Some(tracks[t].sample_offset()),
            );
            let stsz = media.stsz_entries(id, extend.default_sample_size);
            let co64 = claim_offsets(
                &media,
                id,
                &mut claimed,
                base,
                &starts,
                Ghost(before.tracks),
                Ghost(t as int),
            );
            proof {
                lemma_stsc_counters(
                    segment_lane(chunks, id),
                    extend.default_sample_description_index,
                    view.chunk_offset as int,
                    view.sample_offset as int,
                );
                lemma_stts_duration_bound(segment_lane(chunks, id), extend.default_sample_duration);
                lemma_duration_bound_add(
                    view.sample_offset - 1,
                    lane_samples(segment_lane(chunks, id)) as int,
                );
            }
            let ghost rest = tracks@;
            tracks[t].absorb(stts, stsc, chunk_offset, sample_offset, stsz, co64);
            proof {
                assert(tracks@[t as int]@ == track_after(before.tracks, t as int, base as int, chunks));
                assert forall|s: int| 0 <= s < t implies (#[trigger] tracks@[s])@ == track_after(
                    before.tracks,
                    s,
                    base as int,
                    chunks,
                ) by {
                    assert(tracks@[s] == rest[s]);
                }
                assert forall|s: int| t + 1 <= s < tracks@.len() implies (#[trigger] tracks@[s])@
                    == before.tracks[s] by {
                    assert(tracks@[s] == rest[s]);
                }
            }
            t += 1;
        }
        let ghost after = writer_after(before, media@, out@);
        proof {
            lemma_segment_counted(before, media@, out@);
            assert(track_views(tracks@) =~= after.tracks);
            assert(track_datas(after.tracks) =~= track_datas(before.tracks));
            assert forall|s: int| 0 <= s < after.tracks.len() implies track_valid(
                #[trigger] after.tracks[s],
            ) by {
                let view = before.tracks[s];
                assert(track_accepts(view, chunks));
                assert(track_valid(view));
                let lane = segment_lane(chunks, view.data.extend.track_id);
                lemma_stsc_counters(
                    lane,
                    view.data.extend.default_sample_description_index,
                    view.chunk_offset as int,
                    view.sample_offset as int,
                );
                lemma_table_duration_add(
                    view.stts_entries,
                    stts_table(lane, view.data.extend.default_sample_duration),
                );
                lemma_stts_duration_bound(lane, view.data.extend.default_sample_duration);
                lemma_duration_bound_add(view.sample_offset - 1, lane_samples(lane) as int);
            }
        }
        core::mem::swap(&mut self.tracks, &mut tracks);
        self.free_size = self.free_size + out.len() as u64;
        Ok(out)
    }

    /// Whether the movie box can be made, as [`finishable`] says.
    pub fn can_finalize(&self) -> (can: bool)
        ensures
            can == finishable(self@.tracks),
    {
        match checked_movie_duration(&self.tracks) {
            Some(_) => true,
            None => false,
        }
    }

    /// The duration of the movie: the longest of the tracks in whole units
    /// of time, in the timescale of the movie.
    pub fn movie_duration(&self) -> (duration: u64)
        requires
            finishable(self@.tracks),
        ensures
            duration == movie_duration(self@.tracks),
    {
        match checked_movie_duration(&self.tracks) {
            Some(duration) => duration,
            None => 0,
        }
    }

    /// Ends the output at the time `now`, in seconds since 1970 as the
    /// caller's clock shows them: hands back what the movie box is to hold,
    /// to be written where the output stands, and the header to write over
    /// the placeholder, as [`finalized`] says.
    pub fn finalize(self, now: i64) -> (boxes: FinalBoxes)
        requires
            finishable(self@.tracks),
        ensures
            finalized(self@, now, boxes),
    {
        proof {
            use_type_invariant(&self);
        }
        let ghost views = self@.tracks;
        let duration = self.movie_duration();
        let moov_position = self.free_pos + 8 + self.free_size;
        let patch = write_header(MDAT, 8 + self.free_size);
        let patch_position = self.free_pos;
        let next: u32 = if self.tracks.len() == 0 {
            1
        } else {
            let last: u32 = self.tracks[self.tracks.len() - 1].track_id();
            assert(views.last() == self.tracks@[self.tracks@.len() - 1]@);
            if last == u32::MAX {
                u32::MAX
            } else {
                last + 1
            }
        };
        let HybridMp4Writer { free_pos: _, free_size: _, tracks } = self;
        let mut rest = tracks;
        let mut traks: Vec<TrackBox> = Vec::new();
        let ghost count = views.len();
        while rest.len() > 0
            invariant
                views.len() == count,
                traks@.len() + rest@.len() == count,
                forall|k: int|
                    0 <= k < traks@.len() ==> (#[trigger] traks@[k])@ == track_box_of(views[k]),
                forall|k: int|
                    0 <= k < rest@.len() ==> (#[trigger] rest@[k])@ == views[traks@.len() + k],
            decreases rest.len(),
        {
            let ghost done = traks@;
            let ghost left = rest@;
            let track = rest.remove(0);
            assert(track@ == views[done.len() as int]);
            traks.push(track.into_box());
            proof {
                assert forall|k: int| 0 <= k < rest@.len() implies (#[trigger] rest@[k])@
                    == views[traks@.len() + k] by {
                    assert(rest@[k] == left[k + 1]);
                }
                assert forall|k: int| 0 <= k < traks@.len() implies (#[trigger] traks@[k])@
                    == track_box_of(views[k]) by {
                    if k < done.len() {
                        assert(traks@[k] == done[k]);
                    }
                }
            }
        }
        let movie = Movie {
            version: MOVIE_VERSION,
            creation_time: creation_time_of(now),
            modification_time: creation_time_of(now),
            timescale: MOVIE_TIMESCALE,
            duration,
            next_track_id: next,
            traks,
        };
        assert(movie@.traks =~= movie_of(views, now).traks);
        FinalBoxes { movie, moov_position, patch, patch_position }
    }
}

impl Track {
    /// What the track box of the track is to hold, as [`track_box_of`]
    /// says.
    pub fn into_box(self) -> (trak: TrackBox)
        ensures
            trak@ == track_box_of(self@),
    {
        proof {
            use_type_invariant(&self);
        }
        let duration = self.duration();
        let handler_type = self.data.base.media_box.handler_type();
        let Track {
            data,
            stts_entries,
            stsc_entries,
            stsz_entries,
            co64_entries,
            chunk_offset: _,
            sample_offset: _,
        } = self;
        TrackBox {
            track_id: data.extend.track_id,
            width: data.base.width,
            height: data.base.height,
            timescale: data.base.timescale,
            duration,
            handler_type,
            media_box: data.base.media_box,
            stts_entries,
            stsc_entries,
            stsz_entries,
            co64_entries,
        }
    }
}

/// What the writer hands out at the end.
#[derive(Debug)]
pub struct FinalBoxes {
    /// What the movie box is to hold.
    pub movie: Movie,
    /// Where the movie box goes: behind all that was handed out before.
    pub moov_position: u64,
    /// The header of the payload box.
    pub patch: Vec<u8>,
    /// Where the header goes: over the placeholder.
    pub patch_position: u64,
}

/// Whether `boxes` are what a writer hands out at the end, at `now` seconds
/// since 1970: the movie of [`movie_of`], for the position behind all that
/// was handed out, and for the place of the placeholder the header of a
/// payload box that declares 8 bytes and all that was handed out since.
pub open spec fn finalized(writer: WriterView, now: i64, boxes: FinalBoxes) -> bool {
    &&& boxes.movie@ == movie_of(writer.tracks, now)
    &&& boxes.moov_position == position(writer)
    &&& boxes.patch@ == header_bytes(MDAT, 8 + writer.free_size)
    &&& boxes.patch_position == writer.free_pos
}

} // verus!
