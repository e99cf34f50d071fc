//! The sample tables of one track, derived from the fragments of a segment.
//!
//! A segment is seen here as a lane: for each of its chunks, in order, the
//! track fragment that the chunk holds for the track, if it holds one.

use vstd::prelude::*;
use crate::model::{
    fragment_views, StscEntry, SttsEntry, TrackFragment, TrackFragmentView, TrackRunView,
};

verus! {

/// One place of a lane: what a chunk holds for the track.
pub type Slot = Option<TrackFragmentView>;

/// The first fragment of `fragments[from..]` that belongs to `track_id`.
pub open spec fn find_fragment_from(
    fragments: Seq<TrackFragmentView>,
    track_id: u32,
    from: int,
) -> Slot
    decreases fragments.len() - from,
{
    if from < 0 || from >= fragments.len() {
        None
    } else if fragments[from].track_id == track_id {
        Some(fragments[from])
    } else {
        find_fragment_from(fragments, track_id, from + 1)
    }
}

/// The fragment that a chunk holds for `track_id`: the first of its track
/// fragments with that track.
pub open spec fn find_fragment(fragments: Seq<TrackFragmentView>, track_id: u32) -> Slot {
    find_fragment_from(fragments, track_id, 0)
}

/// The run of a slot, if the chunk holds a fragment with a run for the
/// track.
pub open spec fn slot_run(slot: Slot) -> Option<TrackRunView> {
    match slot {
        Some(fragment) => fragment.run,
        None => None,
    }
}

/// The number of samples that a chunk holds for the track: the sample count
/// of the run, 0 without one.
pub open spec fn slot_samples(slot: Slot) -> nat {
    match slot_run(slot) {
        Some(run) => run.sample_count as nat,
        None => 0,
    }
}

/// The number of samples that the chunks of a lane hold for the track.
pub open spec fn lane_samples(lane: Seq<Slot>) -> nat
    decreases lane.len(),
{
    if lane.len() == 0 {
        0
    } else {
        lane_samples(lane.drop_last()) + slot_samples(lane.last())
    }
}

/// The number of chunks of a lane that hold a run for the track.
pub open spec fn lane_runs(lane: Seq<Slot>) -> nat
    decreases lane.len(),
{
    if lane.len() == 0 {
        0
    } else {
        lane_runs(lane.drop_last()) + if slot_run(lane.last()) is Some {
            1nat
        } else {
            0nat
        }
    }
}

// ---------------------------------------------------------------------------
// Time-to-sample
// ---------------------------------------------------------------------------

/// The time-to-sample entry of one chunk: the run's sample count with the
/// fragment's default duration, or `default` where the fragment has none;
/// all zero where the chunk holds no fragment for the track.
pub open spec fn stts_entry(slot: Slot, default: u32) -> SttsEntry {
    match slot {
        Some(fragment) => SttsEntry {
            sample_count: match fragment.run {
                Some(run) => run.sample_count,
                None => 0,
            },
            sample_delta: match fragment.default_sample_duration {
                Some(duration) => duration,
                None => default,
            },
        },
        None => SttsEntry { sample_count: 0, sample_delta: 0 },
    }
}

/// The time-to-sample entries of a lane: one for each chunk.
pub open spec fn stts_table(lane: Seq<Slot>, default: u32) -> Seq<SttsEntry> {
    Seq::new(lane.len(), |i: int| stts_entry(lane[i], default))
}

/// The duration of a time-to-sample table: the sum, over its entries, of
/// sample count times sample delta.
pub open spec fn table_duration(entries: Seq<SttsEntry>) -> nat
    decreases entries.len(),
{
    if entries.len() == 0 {
        0
    } else {
        table_duration(entries.drop_last()) + (entries.last().sample_count as nat) * (
        entries.last().sample_delta as nat)
    }
}

// ---------------------------------------------------------------------------
// Sample sizes
// ---------------------------------------------------------------------------

/// The sample sizes of one chunk: those of the run where it lists any, else
/// the fragment's default size (or `default` where the fragment has none)
/// once for each sample of the run; nothing without a run.
pub open spec fn slot_sizes(slot: Slot, default: u32) -> Seq<u32> {
    match slot {
        Some(fragment) => match fragment.run {
            Some(run) => if run.sample_sizes.len() > 0 {
                run.sample_sizes
            } else {
                Seq::new(
                    run.sample_count as nat,
                    |i: int|
                        match fragment.default_sample_size {
                            Some(size) => size,
                            None => default,
                        },
                )
            },
            None => Seq::empty(),
        },
        None => Seq::empty(),
    }
}

/// The sample sizes of a lane: those of its chunks, in order.
pub open spec fn stsz_table(lane: Seq<Slot>, default: u32) -> Seq<u32>
    decreases lane.len(),
{
    if lane.len() == 0 {
        Seq::empty()
    } else {
        stsz_table(lane.drop_last(), default) + slot_sizes(lane.last(), default)
    }
}

/// A slot lists either no sample size or one for each sample of its run.
pub open spec fn slot_sized(slot: Slot) -> bool {
    match slot_run(slot) {
        Some(run) => run.sample_sizes.len() == 0 || run.sample_sizes.len() == run.sample_count,
        None => true,
    }
}

/// Every slot of the lane is sized as [`slot_sized`] says.
pub open spec fn lane_sized(lane: Seq<Slot>) -> bool {
    forall|i: int| 0 <= i < lane.len() ==> slot_sized(#[trigger] lane[i])
}

/// Every run among the fragments lists either no sample size or one for
/// each of its samples.
pub open spec fn fragments_sized(fragments: Seq<TrackFragmentView>) -> bool {
    forall|i: int| 0 <= i < fragments.len() ==> slot_sized(Some(#[trigger] fragments[i]))
}

// ---------------------------------------------------------------------------
// Sample-to-chunk
// ---------------------------------------------------------------------------

/// The sample-to-chunk entries of a lane and the counters behind it.
pub struct StscState {
    pub entries: Seq<StscEntry>,
    /// Number of the next chunk, counted from 1.
    pub chunk: int,
    /// Number of the next sample, counted from 1.
    pub sample: int,
}

/// The sample-description index of a fragment: its own, or `default`.
pub open spec fn slot_description(fragment: TrackFragmentView, default: u32) -> u32 {
    match fragment.sample_description_index {
        Some(index) => index,
        None => default,
    }
}

/// Whether the last of `entries` has this many samples per chunk and this
/// sample-description index.
pub open spec fn continues_run(entries: Seq<StscEntry>, samples: u32, description: u32) -> bool {
    entries.len() > 0 && entries.last().samples_per_chunk == samples
        && entries.last().sample_description_index == description
}

/// The state after one more chunk. A chunk with a run for the track starts
/// an entry at the counters as they stand, unless the last entry has its
/// samples per chunk and its sample-description index; a chunk without one
/// adds nothing. Every chunk advances the chunk counter by one and the
/// sample counter by its samples.
pub open spec fn stsc_step(state: StscState, slot: Slot, default: u32) -> StscState {
    StscState {
        entries: match slot {
            Some(fragment) => match fragment.run {
                Some(run) => if continues_run(
                    state.entries,
                    run.sample_count,
                    slot_description(fragment, default),
                ) {
                    state.entries
                } else {
                    state.entries.push(
                        StscEntry {
                            first_chunk: state.chunk as u32,
                            samples_per_chunk: run.sample_count,
                            sample_description_index: slot_description(fragment, default),
                            first_sample: state.sample as u32,
                        },
                    )
                },
                None => state.entries,
            },
            None => state.entries,
        },
        chunk: state.chunk + 1,
        sample: state.sample + slot_samples(slot),
    }
}

/// The sample-to-chunk entries of a lane whose first chunk has number
/// `chunk` and whose first sample has number `sample`, with the counters
/// behind the lane.
pub open spec fn stsc_table(lane: Seq<Slot>, default: u32, chunk: int, sample: int) -> StscState
    decreases lane.len(),
{
    if lane.len() == 0 {
        StscState { entries: Seq::empty(), chunk, sample }
    } else {
        stsc_step(stsc_table(lane.drop_last(), default, chunk, sample), lane.last(), default)
    }
}

/// Whether `entry` is the entry that chunk `i` of the lane starts: the
/// chunk holds a run, the entry has its sample count and its
/// sample-description index, and its first chunk and first sample are the
/// counters before chunk `i`.
pub open spec fn started_by(
    entry: StscEntry,
    lane: Seq<Slot>,
    default: u32,
    chunk: int,
    sample: int,
    i: int,
) -> bool {
    &&& lane[i] is Some
    &&& lane[i]->0.run is Some
    &&& entry.samples_per_chunk == lane[i]->0.run->0.sample_count
    &&& entry.sample_description_index == slot_description(lane[i]->0, default)
    &&& entry.first_chunk == chunk + i
    &&& entry.first_sample == sample + lane_samples(lane.take(i))
}

/// Whether the counters stay within 32 bits over a lane that starts at
/// chunk `chunk` and sample `sample`.
pub open spec fn counters_fit(lane: Seq<Slot>, chunk: int, sample: int) -> bool {
    chunk + lane.len() <= u32::MAX && sample + lane_samples(lane) <= u32::MAX
}

// ---------------------------------------------------------------------------
// Laws
// ---------------------------------------------------------------------------

/// The counters behind a lane: each chunk counts one, each sample one.
pub proof fn lemma_stsc_counters(lane: Seq<Slot>, default: u32, chunk: int, sample: int)
    ensures
        stsc_table(lane, default, chunk, sample).chunk == chunk + lane.len(),
        stsc_table(lane, default, chunk, sample).sample == sample + lane_samples(lane),
        stsc_table(lane, default, chunk, sample).entries.len() <= lane_runs(lane),
    decreases lane.len(),
{
    if lane.len() > 0 {
        lemma_stsc_counters(lane.drop_last(), default, chunk, sample);
    }
}

/// The samples and runs of a lane grow with the lane.
pub proof fn lemma_lane_prefix(lane: Seq<Slot>, n: int)
    requires
        0 <= n <= lane.len(),
    ensures
        lane_samples(lane.take(n)) <= lane_samples(lane),
        lane_runs(lane.take(n)) <= lane_runs(lane),
        lane_runs(lane) <= lane.len(),
    decreases lane.len(),
{
    if lane.len() > 0 {
        if n == lane.len() {
            assert(lane.take(n) =~= lane);
            lemma_lane_prefix(lane.drop_last(), n - 1);
        } else {
            assert(lane.drop_last().take(n) =~= lane.take(n));
            lemma_lane_prefix(lane.drop_last(), n);
        }
    } else {
        assert(lane.take(n) =~= lane);
    }
}

/// The duration of the time-to-sample entries of a lane is at most what its
/// samples would last if each lasted as long as 32 bits can say.
pub proof fn lemma_stts_duration_bound(lane: Seq<Slot>, default: u32)
    ensures
        table_duration(stts_table(lane, default)) <= lane_samples(lane) * 0xffff_ffff,
    decreases lane.len(),
{
    if lane.len() > 0 {
        let rest = lane.drop_last();
        lemma_stts_duration_bound(rest, default);
        let table = stts_table(lane, default);
        assert(table.drop_last() =~= stts_table(rest, default));
        let entry = table.last();
        assert(entry == stts_entry(lane.last(), default));
        assert(entry.sample_count == slot_samples(lane.last()));
        assert((entry.sample_count as nat) * (entry.sample_delta as nat) <= (
        entry.sample_count as nat) * 0xffff_ffff) by (nonlinear_arith)
            requires
                entry.sample_delta <= 0xffff_ffff,
        ;
        assert((lane_samples(rest) + slot_samples(lane.last())) * 0xffff_ffff == lane_samples(
            rest,
        ) * 0xffff_ffff + slot_samples(lane.last()) * 0xffff_ffff) by (nonlinear_arith);
    }
}

/// Among fragments that are sized, the one found for a track is sized.
pub proof fn lemma_found_fragment_sized(
    fragments: Seq<TrackFragmentView>,
    track_id: u32,
    from: int,
)
    requires
        fragments_sized(fragments),
        0 <= from,
    ensures
        slot_sized(find_fragment_from(fragments, track_id, from)),
    decreases fragments.len() - from,
{
    if from < fragments.len() {
        assert(slot_sized(Some(fragments[from])));
        if fragments[from].track_id != track_id {
            lemma_found_fragment_sized(fragments, track_id, from + 1);
        }
    }
}

/// The sample-size table of a lane has one size for each sample that the
/// chunks hold for the track, where each run lists either no size or one
/// for each of its samples.
pub proof fn lemma_stsz_len(lane: Seq<Slot>, default: u32)
    requires
        lane_sized(lane),
    ensures
        stsz_table(lane, default).len() == lane_samples(lane),
    decreases lane.len(),
{
    if lane.len() > 0 {
        let rest = lane.drop_last();
        assert forall|i: int| 0 <= i < rest.len() implies slot_sized(#[trigger] rest[i]) by {
            assert(rest[i] == lane[i]);
        }
        lemma_stsz_len(rest, default);
        assert(slot_sized(lane[lane.len() - 1]));
    }
}

/// Run merge. Two chunks one after the other with runs of the same sample
/// count and sample-description index make one entry between them, not
/// two; a chunk behind them whose run differs in either starts an entry at
/// the counters as they stand there: two chunks and the samples of both
/// runs further on.
pub proof fn lemma_stsc_run_merge(
    lane: Seq<Slot>,
    default: u32,
    chunk: int,
    sample: int,
    a: TrackFragmentView,
    b: TrackFragmentView,
    c: TrackFragmentView,
)
    requires
        a.run is Some,
        b.run is Some,
        c.run is Some,
        a.run->0.sample_count == b.run->0.sample_count,
        slot_description(a, default) == slot_description(b, default),
        c.run->0.sample_count != a.run->0.sample_count || slot_description(c, default)
            != slot_description(a, default),
    ensures
        ({
            let one = stsc_table(lane.push(Some(a)), default, chunk, sample);
            let two = stsc_table(lane.push(Some(a)).push(Some(b)), default, chunk, sample);
            let three = stsc_table(
                lane.push(Some(a)).push(Some(b)).push(Some(c)),
                default,
                chunk,
                sample,
            );
            &&& two.entries == one.entries
            &&& three.entries == one.entries.push(
                StscEntry {
                    first_chunk: (chunk + lane.len() + 2) as u32,
                    samples_per_chunk: c.run->0.sample_count,
                    sample_description_index: slot_description(c, default),
                    first_sample: (sample + lane_samples(lane) + 2 * a.run->0.sample_count) as u32,
                },
            )
        }),
{
    let l1 = lane.push(Some(a));
    let l2 = l1.push(Some(b));
    let l3 = l2.push(Some(c));
    assert(l1.drop_last() =~= lane);
    assert(l2.drop_last() =~= l1);
    assert(l3.drop_last() =~= l2);
    lemma_stsc_counters(lane, default, chunk, sample);
    lemma_stsc_counters(l1, default, chunk, sample);
    lemma_stsc_counters(l2, default, chunk, sample);
    let zero = stsc_table(lane, default, chunk, sample);
    let one = stsc_table(l1, default, chunk, sample);
    assert(one == stsc_step(zero, Some(a), default));
    assert(continues_run(one.entries, a.run->0.sample_count, slot_description(a, default)));
    let two = stsc_table(l2, default, chunk, sample);
    assert(two == stsc_step(one, Some(b), default));
    let three = stsc_table(l3, default, chunk, sample);
    assert(three == stsc_step(two, Some(c), default));
    assert(lane_samples(l2) == lane_samples(lane) + 2 * a.run->0.sample_count) by {
        assert(lane_samples(l1) == lane_samples(lane) + slot_samples(Some(a)));
        assert(lane_samples(l2) == lane_samples(l1) + slot_samples(Some(b)));
    }
}

/// No two entries of a sample-to-chunk table that stand one behind the
/// other have both the same samples per chunk and the same
/// sample-description index.
pub proof fn lemma_stsc_no_repeat(lane: Seq<Slot>, default: u32, chunk: int, sample: int, k: int)
    requires
        0 < k < stsc_table(lane, default, chunk, sample).entries.len(),
    ensures
        ({
            let entries = stsc_table(lane, default, chunk, sample).entries;
            entries[k].samples_per_chunk != entries[k - 1].samples_per_chunk
                || entries[k].sample_description_index != entries[k
                - 1].sample_description_index
        }),
    decreases lane.len(),
{
    if lane.len() > 0 {
        let before = stsc_table(lane.drop_last(), default, chunk, sample);
        if k < before.entries.len() {
            lemma_stsc_no_repeat(lane.drop_last(), default, chunk, sample, k);
        }
    }
}

/// Where a sample-to-chunk entry comes from. Every entry of the table of a
/// lane was started by one of its chunks with a run: it has the sample
/// count and the sample-description index of that run, and its first chunk
/// and first sample are the counters as they stood before that chunk.
pub proof fn lemma_stsc_entry_origin(
    lane: Seq<Slot>,
    default: u32,
    chunk: int,
    sample: int,
    k: int,
)
    requires
        0 <= chunk,
        0 <= sample,
        counters_fit(lane, chunk, sample),
        0 <= k < stsc_table(lane, default, chunk, sample).entries.len(),
    ensures
        exists|i: int|
            0 <= i < lane.len() && started_by(
                stsc_table(lane, default, chunk, sample).entries[k],
                lane,
                default,
                chunk,
                sample,
                i,
            ),
    decreases lane.len(),
{
    if lane.len() > 0 {
        let rest = lane.drop_last();
        let before = stsc_table(rest, default, chunk, sample);
        lemma_stsc_counters(rest, default, chunk, sample);
        if k < before.entries.len() {
            lemma_stsc_entry_origin(rest, default, chunk, sample, k);
            let i = choose|i: int|
                0 <= i < rest.len() && started_by(
                    before.entries[k],
                    rest,
                    default,
                    chunk,
                    sample,
                    i,
                );
            assert(rest[i] == lane[i]);
            assert(rest.take(i) =~= lane.take(i));
            assert(started_by(
                stsc_table(lane, default, chunk, sample).entries[k],
                lane,
                default,
                chunk,
                sample,
                i,
            ));
        } else {
            let i = lane.len() - 1;
            assert(lane.take(i) =~= rest);
            assert(started_by(
                stsc_table(lane, default, chunk, sample).entries[k],
                lane,
                default,
                chunk,
                sample,
                i,
            ));
        }
    }
}

// ---------------------------------------------------------------------------
// Finding a fragment
// ---------------------------------------------------------------------------

/// The place of the fragment that a chunk holds for `track_id`.
pub fn find_traf(trafs: &Vec<TrackFragment>, track_id: u32) -> (found: Option<usize>)
    ensures
        match found {
            Some(i) => i < trafs@.len() && find_fragment(fragment_views(trafs@), track_id) == Some(
                trafs@[i as int]@,
            ),
            None => find_fragment(fragment_views(trafs@), track_id) is None,
        },
{
    let ghost views = fragment_views(trafs@);
    let mut i: usize = 0;
    while i < trafs.len()
        invariant
            i <= trafs.len(),
            views == fragment_views(trafs@),
            find_fragment(views, track_id) == find_fragment_from(views, track_id, i as int),
        decreases trafs.len() - i,
    {
        assert(views[i as int] == trafs@[i as int]@);
        if trafs[i].track_id == track_id {
            return Some(i);
        }
        i += 1;
    }
    None
}

} // verus!
