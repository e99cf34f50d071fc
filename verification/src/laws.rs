//! What holds of the tables of a track over any number of segments.

use vstd::prelude::*;
use crate::segment::{chunks_bytes, chunks_sized, segment_lane, ChunkView, MediaSegmentView};
use crate::tables::{
    find_fragment, lane_runs, lane_samples, lane_sized, lemma_found_fragment_sized,
    lemma_stsc_counters, lemma_stsz_len, slot_sized,
};
use crate::writer::{
    claimed_before, gained_offsets, has_run, owns, position, track_accepts, track_after,
    writer_after, TrackView, WriterView,
};

verus! {

/// The writer after these segments, one after the other, each written as a
/// whole.
pub open spec fn segments_written(writer: WriterView, segments: Seq<MediaSegmentView>) -> WriterView
    decreases segments.len(),
{
    if segments.len() == 0 {
        writer
    } else {
        writer_after(
            segments_written(writer, segments.drop_last()),
            segments.last(),
            chunks_bytes(segments.last().chunks, segments.last().chunks.len() as int)->Ok_0,
        )
    }
}

/// The samples that the chunks of these segments hold for the track.
pub open spec fn samples_in(segments: Seq<MediaSegmentView>, track_id: u32) -> nat
    decreases segments.len(),
{
    if segments.len() == 0 {
        0
    } else {
        samples_in(segments.drop_last(), track_id) + lane_samples(
            segment_lane(segments.last().chunks, track_id),
        )
    }
}

/// The chunks of these segments that hold a run for the track.
pub open spec fn runs_in(segments: Seq<MediaSegmentView>, track_id: u32) -> nat
    decreases segments.len(),
{
    if segments.len() == 0 {
        0
    } else {
        runs_in(segments.drop_last(), track_id) + lane_runs(
            segment_lane(segments.last().chunks, track_id),
        )
    }
}

/// Every run of these segments for the track lists either no sample size
/// or one for each of its samples.
pub open spec fn all_sized(segments: Seq<MediaSegmentView>, track_id: u32) -> bool {
    forall|k: int|
        0 <= k < segments.len() ==> lane_sized(
            segment_lane((#[trigger] segments[k]).chunks, track_id),
        )
}

/// No chunk of these segments holds a run for a track before place `t`.
pub open spec fn none_claimed(tracks: Seq<TrackView>, t: int, segments: Seq<MediaSegmentView>) -> bool {
    forall|k: int, i: int|
        0 <= k < segments.len() && 0 <= i < segments[k].chunks.len() ==> !claimed_before(
            tracks,
            t,
            #[trigger] segments[k].chunks[i],
        )
}

/// Whether a chunk counts for a track depends on the identifiers of the
/// tracks alone.
pub proof fn lemma_owns_by_identifier(
    a: Seq<TrackView>,
    b: Seq<TrackView>,
    t: int,
    chunk: ChunkView,
)
    requires
        0 <= t < a.len(),
        a.len() == b.len(),
        forall|s: int| 0 <= s < a.len() ==> (#[trigger] a[s]).data == (#[trigger] b[s]).data,
    ensures
        claimed_before(a, t, chunk) == claimed_before(b, t, chunk),
        owns(a, t, chunk) == owns(b, t, chunk),
{
    if claimed_before(a, t, chunk) {
        let s = choose|s: int|
            0 <= s < t && has_run(chunk, (#[trigger] a[s]).data.extend.track_id);
        assert(a[s].data == b[s].data);
        assert(has_run(chunk, b[s].data.extend.track_id));
    }
    if claimed_before(b, t, chunk) {
        let s = choose|s: int|
            0 <= s < t && has_run(chunk, (#[trigger] b[s]).data.extend.track_id);
        assert(a[s].data == b[s].data);
        assert(has_run(chunk, a[s].data.extend.track_id));
    }
    assert(a[t].data == b[t].data);
}

/// A track gains at most one chunk offset for each chunk that holds a run
/// for it, and exactly one where no chunk holds a run for a track before
/// it.
pub proof fn lemma_gained_offsets_len(
    tracks: Seq<TrackView>,
    t: int,
    position: int,
    chunks: Seq<ChunkView>,
    n: int,
)
    requires
        0 <= t < tracks.len(),
        0 <= n <= chunks.len(),
    ensures
        gained_offsets(tracks, t, position, chunks, n).len() <= lane_runs(
            segment_lane(chunks, tracks[t].data.extend.track_id).take(n),
        ),
        (forall|i: int| 0 <= i < n ==> !claimed_before(tracks, t, #[trigger] chunks[i]))
            ==> gained_offsets(tracks, t, position, chunks, n).len() == lane_runs(
            segment_lane(chunks, tracks[t].data.extend.track_id).take(n),
        ),
    decreases n,
{
    let lane = segment_lane(chunks, tracks[t].data.extend.track_id);
    if n > 0 {
        lemma_gained_offsets_len(tracks, t, position, chunks, n - 1);
        assert(lane.take(n).drop_last() =~= lane.take(n - 1));
        assert(lane.take(n).last() == lane[n - 1]);
        if forall|i: int| 0 <= i < n ==> !claimed_before(tracks, t, #[trigger] chunks[i]) {
            assert(!claimed_before(tracks, t, chunks[n - 1]));
        }
    }
}

/// After any number of segments the tracks are the same tracks, in the same
/// order.
pub proof fn lemma_tracks_kept(writer: WriterView, segments: Seq<MediaSegmentView>)
    ensures
        segments_written(writer, segments).tracks.len() == writer.tracks.len(),
        segments_written(writer, segments).free_pos == writer.free_pos,
        forall|s: int|
            0 <= s < writer.tracks.len() ==> (#[trigger] segments_written(
                writer,
                segments,
            ).tracks[s]).data == writer.tracks[s].data,
    decreases segments.len(),
{
    if segments.len() > 0 {
        lemma_tracks_kept(writer, segments.drop_last());
    }
}

/// Sample sizes. After any number of segments, the sample-size table of a
/// track has grown by one size for each sample that the chunks of the
/// segments hold for the track, where each run lists either no size or one
/// for each of its samples.
pub proof fn lemma_sample_sizes_count(writer: WriterView, segments: Seq<MediaSegmentView>, t: int)
    requires
        0 <= t < writer.tracks.len(),
        all_sized(segments, writer.tracks[t].data.extend.track_id),
    ensures
        segments_written(writer, segments).tracks.len() == writer.tracks.len(),
        segments_written(writer, segments).tracks[t].stsz_entries.len()
            == writer.tracks[t].stsz_entries.len() + samples_in(
            segments,
            writer.tracks[t].data.extend.track_id,
        ),
    decreases segments.len(),
{
    let id = writer.tracks[t].data.extend.track_id;
    if segments.len() > 0 {
        let rest = segments.drop_last();
        assert forall|k: int| 0 <= k < rest.len() implies lane_sized(
            segment_lane((#[trigger] rest[k]).chunks, id),
        ) by {
            assert(rest[k] == segments[k]);
        }
        lemma_sample_sizes_count(writer, rest, t);
        lemma_tracks_kept(writer, rest);
        let before = segments_written(writer, rest);
        assert(before.tracks[t].data == writer.tracks[t].data);
        assert(lane_sized(segment_lane(segments[segments.len() - 1].chunks, id)));
        lemma_stsz_len(
            segment_lane(segments.last().chunks, id),
            before.tracks[t].data.extend.default_sample_size,
        );
    }
}

/// Sample sizes of parsed segments. Where the runs of the segments list
/// either no size or one for each sample, as those of every parsed segment
/// do, the sample-size table of each track has grown by one size for each
/// sample that the chunks of the segments hold for the track.
pub proof fn lemma_parsed_sample_sizes_count(
    writer: WriterView,
    segments: Seq<MediaSegmentView>,
    t: int,
)
    requires
        0 <= t < writer.tracks.len(),
        forall|k: int| 0 <= k < segments.len() ==> chunks_sized((#[trigger] segments[k]).chunks),
    ensures
        all_sized(segments, writer.tracks[t].data.extend.track_id),
        segments_written(writer, segments).tracks.len() == writer.tracks.len(),
        segments_written(writer, segments).tracks[t].stsz_entries.len()
            == writer.tracks[t].stsz_entries.len() + samples_in(
            segments,
            writer.tracks[t].data.extend.track_id,
        ),
{
    let id = writer.tracks[t].data.extend.track_id;
    assert forall|k: int| 0 <= k < segments.len() implies lane_sized(
        segment_lane((#[trigger] segments[k]).chunks, id),
    ) by {
        let chunks = segments[k].chunks;
        assert(chunks_sized(chunks));
        assert forall|i: int| 0 <= i < chunks.len() implies slot_sized(
            #[trigger] segment_lane(chunks, id)[i],
        ) by {
            assert(segment_lane(chunks, id)[i] == find_fragment(chunks[i].moof.trafs, id));
            lemma_found_fragment_sized(chunks[i].moof.trafs, id, 0);
        }
    }
    lemma_sample_sizes_count(writer, segments, t);
}

/// Chunk offsets. After any number of segments, the chunk-offset table of
/// a track has grown by at most one offset for each chunk of the segments
/// that holds a run for the track, and by exactly one where no chunk holds
/// a run for a track before it.
pub proof fn lemma_chunk_offsets_count(writer: WriterView, segments: Seq<MediaSegmentView>, t: int)
    requires
        0 <= t < writer.tracks.len(),
    ensures
        segments_written(writer, segments).tracks.len() == writer.tracks.len(),
        segments_written(writer, segments).tracks[t].co64_entries.len()
            <= writer.tracks[t].co64_entries.len() + runs_in(
            segments,
            writer.tracks[t].data.extend.track_id,
        ),
        none_claimed(writer.tracks, t, segments) ==> segments_written(
            writer,
            segments,
        ).tracks[t].co64_entries.len() == writer.tracks[t].co64_entries.len() + runs_in(
            segments,
            writer.tracks[t].data.extend.track_id,
        ),
    decreases segments.len(),
{
    let id = writer.tracks[t].data.extend.track_id;
    if segments.len() > 0 {
        let rest = segments.drop_last();
        let last = segments.last();
        lemma_chunk_offsets_count(writer, rest, t);
        lemma_tracks_kept(writer, rest);
        let before = segments_written(writer, rest);
        assert(before.tracks[t].data == writer.tracks[t].data);
        let n = last.chunks.len() as int;
        lemma_gained_offsets_len(before.tracks, t, position(before), last.chunks, n);
        assert(segment_lane(last.chunks, id).take(n) =~= segment_lane(last.chunks, id));
        if none_claimed(writer.tracks, t, segments) {
            assert forall|k: int, i: int|
                0 <= k < rest.len() && 0 <= i < rest[k].chunks.len() implies !claimed_before(
                writer.tracks,
                t,
                #[trigger] rest[k].chunks[i],
            ) by {
                assert(rest[k] == segments[k]);
            }
            assert forall|i: int| 0 <= i < n implies !claimed_before(
                before.tracks,
                t,
                #[trigger] last.chunks[i],
            ) by {
                assert(!claimed_before(writer.tracks, t, segments[segments.len() - 1].chunks[i]));
                lemma_owns_by_identifier(writer.tracks, before.tracks, t, last.chunks[i]);
            }
        }
    }
}

/// Counters. After a segment that the track can take, its counters have
/// not gone back: the chunk counter has moved on by the chunks of the
/// segment, the sample counter by the samples that they hold for the
/// track.
pub proof fn lemma_counters_move_on(tracks: Seq<TrackView>, t: int, position: int, chunks: Seq<ChunkView>)
    requires
        0 <= t < tracks.len(),
        track_accepts(tracks[t], chunks),
    ensures
        track_after(tracks, t, position, chunks).chunk_offset == tracks[t].chunk_offset
            + chunks.len(),
        track_after(tracks, t, position, chunks).sample_offset == tracks[t].sample_offset
            + lane_samples(segment_lane(chunks, tracks[t].data.extend.track_id)),
{
    let track = tracks[t];
    lemma_stsc_counters(
        segment_lane(chunks, track.data.extend.track_id),
        track.data.extend.default_sample_description_index,
        track.chunk_offset as int,
        track.sample_offset as int,
    );
}

} // verus!
