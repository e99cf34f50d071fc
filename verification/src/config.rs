//! The configuration of a remux: the brands of the output and its tracks.

use vstd::prelude::*;
use crate::error::{reports, Fmp4ParseError};
use crate::model::FourCC;
use crate::segment::InitialSegment;
use crate::track::{track_data_of, TrackData, TrackDataView};

verus! {

/// Whether the tracks stand in the order of their identifiers, each
/// identifier once.
pub open spec fn ascending(tracks: Seq<TrackDataView>) -> bool {
    forall|i: int, j: int|
        0 <= i < j < tracks.len() ==> (#[trigger] tracks[i]).extend.track_id < (
        #[trigger] tracks[j]).extend.track_id
}

/// The track with this identifier, if there is one among `tracks`.
pub open spec fn track_with(tracks: Seq<TrackDataView>, track_id: u32) -> Option<
    TrackDataView,
> {
    if exists|i: int| 0 <= i < tracks.len() && (#[trigger] tracks[i]).extend.track_id == track_id {
        let i = choose|i: int|
            0 <= i < tracks.len() && (#[trigger] tracks[i]).extend.track_id == track_id;
        Some(tracks[i])
    } else {
        None
    }
}

/// The tracks of a configuration, kept in the order of their identifiers.
#[derive(Debug)]
pub struct TrackList {
    items: Vec<TrackData>,
}

/// The views of a list of tracks, in order.
pub open spec fn data_views(tracks: Seq<TrackData>) -> Seq<TrackDataView> {
    Seq::new(tracks.len(), |i: int| tracks[i]@)
}

impl View for TrackList {
    type V = Seq<TrackDataView>;

    closed spec fn view(&self) -> Seq<TrackDataView> {
        data_views(self.items@)
    }
}

impl TrackList {
    #[verifier::type_invariant]
    spec fn ordered(self) -> bool {
        ascending(data_views(self.items@))
    }

    /// No track.
    pub fn new() -> (list: TrackList)
        ensures
            list@ == Seq::<TrackDataView>::empty(),
    {
        let list = TrackList { items: Vec::new() };
        assert(list@ =~= Seq::<TrackDataView>::empty());
        list
    }

    /// Does nothing; for the caller, the tracks stand in the order of their
    /// identifiers.
    pub fn ordered_tracks(&self)
        ensures
            ascending(self@),
    {
        proof {
            use_type_invariant(self);
        }
    }

    /// The number of tracks.
    pub fn len(&self) -> (n: usize)
        ensures
            n == self@.len(),
    {
        self.items.len()
    }

    /// The track at place `i`.
    pub fn get(&self, i: usize) -> (data: &TrackData)
        requires
            i < self@.len(),
        ensures
            data@ == self@[i as int],
    {
        &self.items[i]
    }

    /// Puts a track in at its place; a track with the same identifier
    /// leaves for it.
    pub fn insert(&mut self, data: TrackData)
        ensures
            ascending(final(self)@),
            track_with(final(self)@, data.extend.track_id) == Some(data@),
            forall|id: u32|
                id != data.extend.track_id ==> track_with(final(self)@, id) == track_with(
                    old(self)@,
                    id,
                ),
            final(self)@.len() == old(self)@.len() + if track_with(
                old(self)@,
                data.extend.track_id,
            ) is Some {
                0int
            } else {
                1int
            },
    {
        proof {
            use_type_invariant(&*self);
        }
        let id = data.extend.track_id;
        let ghost before = data_views(self.items@);
        let ghost added = data@;
        let mut at: usize = 0;
        while at < self.items.len() && self.items[at].extend.track_id < id
            invariant
                at <= self.items.len(),
                data_views(self.items@) == before,
                forall|i: int| 0 <= i < at ==> (#[trigger] before[i]).extend.track_id < id,
            decreases self.items.len() - at,
        {
            assert(before[at as int] == self.items@[at as int]@);
            at += 1;
        }
        proof {
            if at < self.items.len() {
                assert(before[at as int] == self.items@[at as int]@);
            }
        }
        if at < self.items.len() && self.items[at].extend.track_id == id {
            let mut items: Vec<TrackData> = Vec::new();
            core::mem::swap(&mut self.items, &mut items);
            items[at] = data;
            let ghost after = data_views(items@);
            proof {
                assert(after =~= before.update(at as int, added));
                assert forall|i: int, j: int| 0 <= i < j < after.len() implies (
                #[trigger] after[i]).extend.track_id < (#[trigger] after[j]).extend.track_id by {
                    assert(after[i].extend.track_id == before[i].extend.track_id);
                    assert(after[j].extend.track_id == before[j].extend.track_id);
                }
                lemma_track_with(after, at as int);
                lemma_track_with(before, at as int);
                assert forall|other: u32| other != id implies track_with(after, other)
                    == track_with(before, other) by {
                    if exists|i: int|
                        0 <= i < before.len() && (#[trigger] before[i]).extend.track_id == other {
                        let i = choose|i: int|
                            0 <= i < before.len() && (#[trigger] before[i]).extend.track_id
                                == other;
                        assert(after[i] == before[i]);
                        lemma_track_with(before, i);
                        lemma_track_with(after, i);
                    } else {
                        assert forall|i: int| 0 <= i < after.len() implies (
                        #[trigger] after[i]).extend.track_id != other by {
                            if i != at {
                                assert(after[i] == before[i]);
                            }
                        }
                    }
                }
            }
            core::mem::swap(&mut self.items, &mut items);
        } else {
            let mut items: Vec<TrackData> = Vec::new();
            core::mem::swap(&mut self.items, &mut items);
            items.insert(at, data);
            let ghost after = data_views(items@);
            proof {
                assert(after =~= before.insert(at as int, added));
                assert forall|i: int, j: int| 0 <= i < j < after.len() implies (
                #[trigger] after[i]).extend.track_id < (#[trigger] after[j]).extend.track_id by {
                    if i < at {
                        assert(after[i] == before[i]);
                    } else if i > at {
                        assert(after[i] == before[i - 1]);
                    }
                    if j < at {
                        assert(after[j] == before[j]);
                    } else if j > at {
                        assert(after[j] == before[j - 1]);
                    }
                    if at < before.len() {
                        assert(before[at as int].extend.track_id > id);
                    }
                }
                lemma_track_with(after, at as int);
                assert forall|i: int| 0 <= i < before.len() implies (
                #[trigger] before[i]).extend.track_id != id by {
                    if i >= at {
                        assert(before[at as int].extend.track_id > id);
                    }
                }
                assert forall|other: u32| other != id implies track_with(after, other)
                    == track_with(before, other) by {
                    if exists|i: int|
                        0 <= i < before.len() && (#[trigger] before[i]).extend.track_id == other {
                        let i = choose|i: int|
                            0 <= i < before.len() && (#[trigger] before[i]).extend.track_id
                                == other;
                        let k = if i < at {
                            i
                        } else {
                            i + 1
                        };
                        assert(after[k] == before[i]);
                        lemma_track_with(before, i);
                        lemma_track_with(after, k);
                    } else {
                        assert forall|k: int| 0 <= k < after.len() implies (
                        #[trigger] after[k]).extend.track_id != other by {
                            if k < at {
                                assert(after[k] == before[k]);
                            } else if k > at {
                                assert(after[k] == before[k - 1]);
                            }
                        }
                    }
                }
            }
            core::mem::swap(&mut self.items, &mut items);
        }
    }
}

/// Among tracks in ascending order, the track at a place is the track with
/// its identifier.
pub proof fn lemma_track_with(tracks: Seq<TrackDataView>, i: int)
    requires
        ascending(tracks),
        0 <= i < tracks.len(),
    ensures
        track_with(tracks, tracks[i].extend.track_id) == Some(tracks[i]),
{
    let id = tracks[i].extend.track_id;
    let k = choose|k: int| 0 <= k < tracks.len() && (#[trigger] tracks[k]).extend.track_id == id;
    if k < i {
        assert(tracks[k].extend.track_id < tracks[i].extend.track_id);
    } else if i < k {
        assert(tracks[i].extend.track_id < tracks[k].extend.track_id);
    }
}

/// The configuration of a remux.
#[derive(Debug)]
pub struct FMp4Config {
    pub major_brand: FourCC,
    pub minor_version: u32,
    pub compatible_brands: Vec<FourCC>,
    pub tracks: TrackList,
}

impl Default for FMp4Config {
    /// A configuration without brands and without tracks.
    fn default() -> (config: FMp4Config)
        ensures
            config.major_brand@ == seq![0u8, 0u8, 0u8, 0u8],
            config.minor_version == 0,
            config.compatible_brands@.len() == 0,
            config.tracks().len() == 0,
    {
        let major_brand = FourCC { value: [0u8, 0u8, 0u8, 0u8] };
        assert(major_brand@ =~= seq![0u8, 0u8, 0u8, 0u8]);
        FMp4Config {
            major_brand,
            minor_version: 0,
            compatible_brands: Vec::new(),
            tracks: TrackList::new(),
        }
    }
}

impl FMp4Config {
    /// The tracks of the configuration, in the order of their identifiers.
    pub open spec fn tracks(&self) -> Seq<TrackDataView> {
        self.tracks@
    }

    /// Adds the track that an initial segment declares, in place of a track
    /// with the same identifier if there is one. Where the segment declares
    /// no track the configuration stays as it is.
    pub fn add_track(&mut self, initial_segment: &InitialSegment) -> (r: Result<
        (),
        Fmp4ParseError,
    >)
        ensures
            final(self).major_brand == old(self).major_brand,
            final(self).minor_version == old(self).minor_version,
            final(self).compatible_brands == old(self).compatible_brands,
            ascending(final(self).tracks()),
            match track_data_of(initial_segment.moov@) {
                Ok(data) => {
                    &&& r is Ok
                    &&& track_with(final(self).tracks(), data.extend.track_id) == Some(data)
                    &&& forall|id: u32|
                        id != data.extend.track_id ==> track_with(final(self).tracks(), id)
                            == track_with(old(self).tracks(), id)
                    &&& final(self).tracks().len() == old(self).tracks().len() + if track_with(
                        old(self).tracks(),
                        data.extend.track_id,
                    ) is Some {
                        0int
                    } else {
                        1int
                    }
                },
                Err(f) => r matches Err(e) && reports(e, f) && final(self).tracks() == old(
                    self,
                ).tracks(),
            },
    {
        self.tracks.ordered_tracks();
        match TrackData::try_from(&initial_segment.moov) {
            Err(e) => Err(e),
            Ok(data) => {
                self.tracks.insert(data);
                Ok(())
            },
        }
    }
}

} // verus!
