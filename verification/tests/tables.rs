use hybrid_mp4::tables::find_traf;
use hybrid_mp4::{Chunk, MediaSegment, MoofBox, StscEntry, SttsEntry, TrackFragment, TrackRun};

fn fragment_of(
    track_id: u32,
    description: Option<u32>,
    duration: Option<u32>,
    size: Option<u32>,
    run: Option<(u32, Vec<u32>)>,
) -> MoofBox {
    MoofBox {
        bytes: vec![0; 8],
        trafs: vec![TrackFragment {
            track_id,
            sample_description_index: description,
            default_sample_duration: duration,
            default_sample_size: size,
            run: run.map(|(sample_count, sample_sizes)| TrackRun { sample_count, sample_sizes }),
        }],
    }
}

fn segment_of(moofs: Vec<MoofBox>) -> MediaSegment {
    let mut segment = MediaSegment::default();
    for moof in moofs {
        segment.chunks.push(Chunk { moof, mdat: vec![0u8; 4] });
    }
    segment
}

#[test]
fn stts_has_one_entry_for_each_chunk() {
    let segment = segment_of(vec![
        fragment_of(1, None, Some(40), None, Some((3, vec![]))),
        fragment_of(2, None, Some(50), None, Some((7, vec![]))),
        fragment_of(1, None, None, None, Some((5, vec![]))),
        fragment_of(1, None, Some(9), None, None),
    ]);
    assert_eq!(
        segment.stts_entries(1, 1000),
        vec![
            SttsEntry { sample_count: 3, sample_delta: 40 },
            SttsEntry { sample_count: 0, sample_delta: 0 },
            SttsEntry { sample_count: 5, sample_delta: 1000 },
            SttsEntry { sample_count: 0, sample_delta: 9 },
        ]
    );
    assert_eq!(
        segment.stts_entries(2, 7),
        vec![
            SttsEntry { sample_count: 0, sample_delta: 0 },
            SttsEntry { sample_count: 7, sample_delta: 50 },
            SttsEntry { sample_count: 0, sample_delta: 0 },
            SttsEntry { sample_count: 0, sample_delta: 0 },
        ]
    );
}

#[test]
fn the_tables_of_an_empty_segment_are_empty() {
    let segment = MediaSegment::default();
    assert!(segment.stts_entries(1, 5).is_empty());
    assert!(segment.stsz_entries(1, 5).is_empty());
    assert_eq!(segment.stsc_entries(1, 5, None, None), (vec![], 1, 1));
    assert_eq!(segment.stsc_entries(1, 5, Some(8), Some(9)), (vec![], 8, 9));
}

#[test]
fn stsc_merges_chunks_with_the_same_run_shape() {
    let segment = segment_of(vec![
        fragment_of(1, Some(1), None, None, Some((30, vec![]))),
        fragment_of(1, Some(1), None, None, Some((30, vec![]))),
        fragment_of(1, Some(2), None, None, Some((30, vec![]))),
    ]);
    let (entries, chunk, sample) = segment.stsc_entries(1, 9, None, None);
    assert_eq!(
        entries,
        vec![
            StscEntry {
                first_chunk: 1,
                samples_per_chunk: 30,
                sample_description_index: 1,
                first_sample: 1,
            },
            StscEntry {
                first_chunk: 3,
                samples_per_chunk: 30,
                sample_description_index: 2,
                first_sample: 61,
            },
        ]
    );
    assert_eq!(chunk, 4);
    assert_eq!(sample, 91);
}

#[test]
fn stsc_starts_an_entry_when_the_sample_count_changes() {
    let segment = segment_of(vec![
        fragment_of(1, None, None, None, Some((10, vec![]))),
        fragment_of(1, None, None, None, Some((12, vec![]))),
        fragment_of(1, None, None, None, Some((12, vec![]))),
    ]);
    let (entries, chunk, sample) = segment.stsc_entries(1, 4, Some(7), Some(100));
    assert_eq!(
        entries,
        vec![
            StscEntry {
                first_chunk: 7,
                samples_per_chunk: 10,
                sample_description_index: 4,
                first_sample: 100,
            },
            StscEntry {
                first_chunk: 8,
                samples_per_chunk: 12,
                sample_description_index: 4,
                first_sample: 110,
            },
        ]
    );
    assert_eq!((chunk, sample), (10, 134));
}

#[test]
fn stsc_counts_every_chunk_and_passes_over_those_without_a_run() {
    let segment = segment_of(vec![
        fragment_of(1, None, None, None, Some((5, vec![]))),
        fragment_of(2, None, None, None, Some((9, vec![]))),
        fragment_of(1, None, None, None, None),
        fragment_of(1, None, None, None, Some((5, vec![]))),
        fragment_of(1, None, None, None, Some((6, vec![]))),
    ]);
    let (entries, chunk, sample) = segment.stsc_entries(1, 1, None, None);
    assert_eq!(
        entries,
        vec![
            StscEntry {
                first_chunk: 1,
                samples_per_chunk: 5,
                sample_description_index: 1,
                first_sample: 1,
            },
            StscEntry {
                first_chunk: 5,
                samples_per_chunk: 6,
                sample_description_index: 1,
                first_sample: 11,
            },
        ]
    );
    assert_eq!((chunk, sample), (6, 17));
}

#[test]
fn stsc_counters_carry_over_from_one_segment_to_the_next() {
    let first = segment_of(vec![fragment_of(1, Some(1), None, None, Some((30, vec![])))]);
    let second = segment_of(vec![fragment_of(1, Some(2), None, None, Some((30, vec![])))]);
    let (one, chunk, sample) = first.stsc_entries(1, 1, None, None);
    let (two, next_chunk, next_sample) = second.stsc_entries(1, 1, Some(chunk), Some(sample));
    assert_eq!(one[0].first_chunk, 1);
    assert_eq!(one[0].first_sample, 1);
    assert_eq!(two[0].first_chunk, 2);
    assert_eq!(two[0].first_sample, 31);
    assert_eq!((next_chunk, next_sample), (3, 61));
}

#[test]
fn stsz_takes_listed_sizes_or_repeats_the_default() {
    let segment = segment_of(vec![
        fragment_of(1, None, None, Some(77), Some((3, vec![10, 20, 30]))),
        fragment_of(1, None, None, Some(77), Some((2, vec![]))),
        fragment_of(1, None, None, None, Some((2, vec![]))),
        fragment_of(2, None, None, None, Some((4, vec![1, 2, 3, 4]))),
        fragment_of(1, None, None, Some(5), None),
    ]);
    assert_eq!(segment.stsz_entries(1, 500), vec![10, 20, 30, 77, 77, 500, 500]);
    assert_eq!(segment.stsz_entries(2, 500), vec![1, 2, 3, 4]);
    assert!(segment.stsz_entries(3, 500).is_empty());
}

#[test]
fn stsz_has_one_size_for_each_sample() {
    let segment = segment_of(vec![
        fragment_of(1, None, None, None, Some((30, vec![100; 30]))),
        fragment_of(1, None, None, None, Some((12, vec![]))),
        fragment_of(1, None, None, None, Some((0, vec![]))),
    ]);
    let sizes = segment.stsz_entries(1, 8);
    let (_, _, sample) = segment.stsc_entries(1, 1, None, None);
    assert_eq!(sizes.len(), 42);
    assert_eq!(sizes.len() as u32, sample - 1);
}

#[test]
fn the_first_fragment_of_a_track_is_the_one_that_counts() {
    let mut moof = fragment_of(1, None, Some(11), None, Some((2, vec![])));
    let second = fragment_of(1, None, Some(22), None, Some((9, vec![])));
    moof.trafs.push(second.trafs[0].clone());
    let segment = segment_of(vec![moof]);
    assert_eq!(
        segment.stts_entries(1, 0),
        vec![SttsEntry { sample_count: 2, sample_delta: 11 }]
    );
    assert_eq!(segment.stsz_entries(1, 3), vec![3, 3]);
}

#[test]
fn a_fragment_is_found_by_its_track() {
    let fragments = vec![
        TrackFragment { track_id: 4, ..Default::default() },
        TrackFragment { track_id: 5, default_sample_size: Some(3), ..Default::default() },
        TrackFragment { track_id: 4, default_sample_size: Some(9), ..Default::default() },
    ];
    assert_eq!(find_traf(&fragments, 5), Some(1));
    assert_eq!(find_traf(&fragments, 4), Some(0));
    assert_eq!(find_traf(&fragments, 6), None);
    assert_eq!(find_traf(&vec![], 4), None);
}

#[test]
fn a_chunk_holds_a_run_for_the_tracks_of_its_fragments_with_runs() {
    let chunk = Chunk {
        moof: MoofBox {
            bytes: vec![],
            trafs: vec![
                fragment_of(1, None, None, None, Some((2, vec![]))).trafs.remove(0),
                fragment_of(2, None, None, None, None).trafs.remove(0),
            ],
        },
        mdat: vec![],
    };
    assert!(chunk.has_run(1));
    assert!(!chunk.has_run(2));
    assert!(!chunk.has_run(3));
}

#[test]
fn counters_fit_until_they_pass_32_bits() {
    let segment = segment_of(vec![
        fragment_of(1, None, None, None, Some((10, vec![]))),
        fragment_of(1, None, None, None, Some((10, vec![]))),
    ]);
    assert!(segment.counters_fit(1, None, None));
    assert!(segment.counters_fit(1, Some(u32::MAX - 2), Some(u32::MAX - 20)));
    assert!(!segment.counters_fit(1, Some(u32::MAX - 1), Some(1)));
    assert!(!segment.counters_fit(1, Some(1), Some(u32::MAX - 19)));
    assert!(segment.counters_fit(2, Some(1), Some(u32::MAX)));
    assert_eq!(
        segment.stsc_entries(1, 1, Some(u32::MAX - 2), Some(u32::MAX - 20)),
        (
            vec![StscEntry {
                first_chunk: u32::MAX - 2,
                samples_per_chunk: 10,
                sample_description_index: 1,
                first_sample: u32::MAX - 20,
            }],
            u32::MAX,
            u32::MAX
        )
    );
}
