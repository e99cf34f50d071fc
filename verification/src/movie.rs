//! The movie box of the finished file: what it is to hold.

use vstd::prelude::*;
use crate::bytes::{
    be_u32_bytes, header_at, header_bytes, lemma_compact_header_bytes,
    lemma_header_at_header_bytes, lemma_header_at_long_header_bytes, lemma_header_bytes_len,
    HeaderView, MDAT,
};
use crate::model::{FourCC, StscEntry, SttsEntry};
use crate::tables::table_duration;
use crate::track::{handler_of, MediaBox, MediaBoxView};
use crate::writer::{position, track_views, writer_valid, Track, TrackView, WriterView};

verus! {

/// The timescale of the movie header: units per second.
pub const MOVIE_TIMESCALE: u32 = 1000;

/// The version of the movie header: the one with times of 64 bits.
pub const MOVIE_VERSION: u8 = 1;

/// Seconds from 1904-01-01T00:00:00 UTC, where the times of the container
/// start, to 1970-01-01T00:00:00 UTC.
pub const EPOCH_OFFSET: u64 = 2_082_844_800;

/// What the track box of one track is to hold: the identifier and the
/// size for the track header; the duration for the track header and the
/// media header; the timescale for the media header; the handler type, if
/// the codec has one; the sample entry of the codec, none for an unknown
/// codec; and the four tables, the chunk offsets in 64 bits.
#[derive(Debug, Clone, PartialEq, Eq)]
pub struct TrackBox {
    pub track_id: u32,
    pub width: u16,
    pub height: u16,
    pub timescale: u32,
    pub duration: u64,
    pub handler_type: Option<FourCC>,
    pub media_box: MediaBox,
    pub stts_entries: Vec<SttsEntry>,
    pub stsc_entries: Vec<StscEntry>,
    pub stsz_entries: Vec<u32>,
    pub co64_entries: Vec<u64>,
}

/// The mathematical content of a [`TrackBox`].
pub struct TrackBoxView {
    pub track_id: u32,
    pub width: u16,
    pub height: u16,
    pub timescale: u32,
    pub duration: u64,
    pub handler_type: Option<Seq<u8>>,
    pub media_box: MediaBoxView,
    pub stts_entries: Seq<SttsEntry>,
    pub stsc_entries: Seq<StscEntry>,
    pub stsz_entries: Seq<u32>,
    pub co64_entries: Seq<u64>,
}

impl View for TrackBox {
    type V = TrackBoxView;

    open spec fn view(&self) -> TrackBoxView {
        TrackBoxView {
            track_id: self.track_id,
            width: self.width,
            height: self.height,
            timescale: self.timescale,
            duration: self.duration,
            handler_type: match self.handler_type {
                Some(code) => Some(code@),
                None => None,
            },
            media_box: self.media_box@,
            stts_entries: self.stts_entries@,
            stsc_entries: self.stsc_entries@,
            stsz_entries: self.stsz_entries@,
            co64_entries: self.co64_entries@,
        }
    }
}

/// What the movie box of the finished file is to hold: the version, the
/// times, the timescale, the duration and the next track of the movie
/// header, and the track boxes in order.
#[derive(Debug, Clone, PartialEq, Eq)]
pub struct Movie {
    pub version: u8,
    pub creation_time: u64,
    pub modification_time: u64,
    pub timescale: u32,
    pub duration: u64,
    pub next_track_id: u32,
    pub traks: Vec<TrackBox>,
}

/// The mathematical content of a [`Movie`].
pub struct MovieView {
    pub version: u8,
    pub creation_time: u64,
    pub modification_time: u64,
    pub timescale: u32,
    pub duration: u64,
    pub next_track_id: u32,
    pub traks: Seq<TrackBoxView>,
}

impl View for Movie {
    type V = MovieView;

    open spec fn view(&self) -> MovieView {
        MovieView {
            version: self.version,
            creation_time: self.creation_time,
            modification_time: self.modification_time,
            timescale: self.timescale,
            duration: self.duration,
            next_track_id: self.next_track_id,
            traks: Seq::new(self.traks@.len(), |i: int| self.traks@[i]@),
        }
    }
}

/// The creation time for a clock that shows `now` seconds since 1970: the
/// seconds since 1904, and for a clock before 1904 that number taken in 64
/// bits without a sign.
pub open spec fn creation_time(now: i64) -> u64 {
    if now + EPOCH_OFFSET >= 0 {
        (now + EPOCH_OFFSET) as u64
    } else {
        (now + EPOCH_OFFSET + 0x1_0000_0000_0000_0000) as u64
    }
}

/// The creation time, as [`creation_time`] says.
pub fn creation_time_of(now: i64) -> (time: u64)
    ensures
        time == creation_time(now),
{
    if now >= 0 {
        now as u64 + EPOCH_OFFSET
    } else {
        let back: u64 = (-(now + 1)) as u64 + 1;
        if back <= EPOCH_OFFSET {
            EPOCH_OFFSET - back
        } else {
            u64::MAX - (back - EPOCH_OFFSET) + 1
        }
    }
}

/// The duration of a track in whole units of time: its duration divided by
/// its timescale.
pub open spec fn whole_units(track: TrackView) -> nat {
    table_duration(track.stts_entries) / (track.data.base.timescale as nat)
}

/// The longest of the tracks in whole units of time, 0 without a track.
pub open spec fn longest_units(tracks: Seq<TrackView>) -> nat
    decreases tracks.len(),
{
    if tracks.len() == 0 {
        0
    } else if whole_units(tracks.last()) > longest_units(tracks.drop_last()) {
        whole_units(tracks.last())
    } else {
        longest_units(tracks.drop_last())
    }
}

/// The duration of the movie: the longest of its tracks in whole units of
/// time, in the timescale of the movie.
pub open spec fn movie_duration(tracks: Seq<TrackView>) -> nat {
    longest_units(tracks) * (MOVIE_TIMESCALE as nat)
}

/// Whether the movie box can be made: every track has a timescale, and the
/// duration of the movie fits 64 bits.
pub open spec fn finishable(tracks: Seq<TrackView>) -> bool {
    &&& forall|t: int| 0 <= t < tracks.len() ==> (#[trigger] tracks[t]).data.base.timescale > 0
    &&& movie_duration(tracks) <= u64::MAX
}

/// The identifier that the movie header offers to a next track: one more
/// than the last, which is the highest, and 1 without a track.
pub open spec fn next_track_id(tracks: Seq<TrackView>) -> u32 {
    if tracks.len() == 0 {
        1
    } else if tracks.last().data.extend.track_id == u32::MAX {
        u32::MAX
    } else {
        (tracks.last().data.extend.track_id + 1) as u32
    }
}

/// What the track box of a track is to hold: its identifier, its size and
/// its timescale, its duration, the handler type and the sample entry of
/// its codec, and its four tables.
pub open spec fn track_box_of(track: TrackView) -> TrackBoxView {
    TrackBoxView {
        track_id: track.data.extend.track_id,
        width: track.data.base.width,
        height: track.data.base.height,
        timescale: track.data.base.timescale,
        duration: table_duration(track.stts_entries) as u64,
        handler_type: handler_of(track.data.base.media_box),
        media_box: track.data.base.media_box,
        stts_entries: track.stts_entries,
        stsc_entries: track.stsc_entries,
        stsz_entries: track.stsz_entries,
        co64_entries: track.co64_entries,
    }
}

/// What the movie box of the finished file is to hold, made at `now`
/// seconds since 1970: a movie header with the creation time, the movie
/// timescale, the duration of the movie and the next track, and a track
/// box for each track in the order of the identifiers.
pub open spec fn movie_of(tracks: Seq<TrackView>, now: i64) -> MovieView {
    MovieView {
        version: MOVIE_VERSION,
        creation_time: creation_time(now),
        modification_time: creation_time(now),
        timescale: MOVIE_TIMESCALE,
        duration: movie_duration(tracks) as u64,
        next_track_id: next_track_id(tracks),
        traks: Seq::new(tracks.len(), |i: int| track_box_of(tracks[i])),
    }
}

/// The longest of the tracks is as long as one of them, and none is longer.
pub proof fn lemma_longest_units(tracks: Seq<TrackView>)
    ensures
        forall|t: int| 0 <= t < tracks.len() ==> whole_units(#[trigger] tracks[t]) <= longest_units(tracks),
        tracks.len() > 0 ==> exists|t: int|
            0 <= t < tracks.len() && whole_units(#[trigger] tracks[t]) == longest_units(tracks),
    decreases tracks.len(),
{
    if tracks.len() > 0 {
        let rest = tracks.drop_last();
        lemma_longest_units(rest);
        assert forall|t: int| 0 <= t < tracks.len() implies whole_units(#[trigger] tracks[t])
            <= longest_units(tracks) by {
            if t < rest.len() {
                assert(rest[t] == tracks[t]);
            }
        }
        if whole_units(tracks.last()) > longest_units(rest) || rest.len() == 0 {
            assert(whole_units(tracks[tracks.len() - 1]) == longest_units(tracks));
        } else {
            let t = choose|t: int|
                0 <= t < rest.len() && whole_units(#[trigger] rest[t]) == longest_units(rest);
            assert(rest[t] == tracks[t]);
        }
    }
}

/// The duration of the movie, or nothing where the movie cannot be made.
pub fn checked_movie_duration(tracks: &Vec<Track>) -> (duration: Option<u64>)
    ensures
        match duration {
            Some(d) => finishable(track_views(tracks@)) && d == movie_duration(
                track_views(tracks@),
            ),
            None => !finishable(track_views(tracks@)),
        },
{
    let ghost views = track_views(tracks@);
    let mut longest: u64 = 0;
    let mut t: usize = 0;
    while t < tracks.len()
        invariant
            t <= tracks.len(),
            views == track_views(tracks@),
            longest == longest_units(views.take(t as int)),
            forall|s: int| 0 <= s < t ==> (#[trigger] views[s]).data.base.timescale > 0,
        decreases tracks.len() - t,
    {
        assert(views[t as int] == tracks@[t as int]@);
        let timescale: u32 = tracks[t].data().base.timescale;
        if timescale == 0 {
            return None;
        }
        let units: u64 = tracks[t].duration() / timescale as u64;
        proof {
            assert(views.take(t + 1).drop_last() =~= views.take(t as int));
            assert(views.take(t + 1).last() == views[t as int]);
            assert(units == whole_units(views[t as int]));
        }
        if units > longest {
            longest = units;
        }
        t += 1;
    }
    assert(views.take(t as int) =~= views);
    if longest > u64::MAX / (MOVIE_TIMESCALE as u64) {
        assert(longest * 1000 > u64::MAX) by (nonlinear_arith)
            requires
                longest > u64::MAX / 1000,
        ;
        return None;
    }
    assert(longest * 1000 <= u64::MAX) by (nonlinear_arith)
        requires
            longest <= u64::MAX / 1000,
    ;
    Some(longest * (MOVIE_TIMESCALE as u64))
}

/// Placeholder patch. In an output that holds, at the placeholder, the
/// header that the writer hands out at the end, a payload box starts there
/// that reaches to where the movie box starts. Where 8 bytes and all the
/// bytes handed out since the placeholder fit 32 bits, that is the size
/// that its header declares, and the header is these 8 bytes: that size,
/// then the type of the payload box.
pub proof fn lemma_placeholder_patch(writer: WriterView, output: Seq<u8>)
    requires
        writer_valid(writer),
        writer.free_pos + header_bytes(MDAT, 8 + writer.free_size).len() <= output.len(),
        output.subrange(
            writer.free_pos as int,
            writer.free_pos + header_bytes(MDAT, 8 + writer.free_size).len(),
        ) == header_bytes(MDAT, 8 + writer.free_size),
    ensures
        header_at(output, writer.free_pos as int) is Some,
        header_at(output, writer.free_pos as int)->0.name == MDAT,
        header_at(output, writer.free_pos as int)->0.next - 8 + header_at(
            output,
            writer.free_pos as int,
        )->0.size == position(writer),
        8 + writer.free_size <= u32::MAX ==> header_at(output, writer.free_pos as int) == Some(
            HeaderView {
                name: MDAT,
                size: (8 + writer.free_size) as u64,
                next: writer.free_pos + 8,
            },
        ),
        8 + writer.free_size <= u32::MAX ==> output.subrange(
            writer.free_pos as int,
            writer.free_pos + 8,
        ) == be_u32_bytes((8 + writer.free_size) as u32) + be_u32_bytes(MDAT),
{
    let size = 8 + writer.free_size;
    lemma_header_bytes_len(MDAT, size);
    if size > u32::MAX {
        lemma_header_at_long_header_bytes(output, writer.free_pos as int, MDAT, size);
    } else {
        lemma_compact_header_bytes(MDAT, size);
        lemma_header_at_header_bytes(output, writer.free_pos as int, MDAT, size);
    }
}

} // verus!
