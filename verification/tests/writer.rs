use hybrid_mp4::movie::{creation_time_of, EPOCH_OFFSET};
use hybrid_mp4::writer::{checked_table_duration, table_duration_of};
use hybrid_mp4::{
    BrandBox, Chunk, FMp4Config, FourCC, HybridMp4Writer, InitialSegment, MediaBox,
    MediaSegment, MoofBox, MoovBox, Movie, SampleEntry, Segment, StscEntry, SttsEntry,
    TrackExtendData, TrackFragment, TrackRun, TrackSource,
};
use mp4::WriteBox;

fn boxed(name: &[u8; 4], body: &[u8]) -> Vec<u8> {
    let mut out = Vec::new();
    out.extend_from_slice(&((body.len() as u32 + 8).to_be_bytes()));
    out.extend_from_slice(name);
    out.extend_from_slice(body);
    out
}

fn initial_of(track_id: u32, timescale: u32, duration: u32, codec: &str) -> InitialSegment {
    let mut source = TrackSource { track_id, width: 1280, height: 720, timescale, ..Default::default() };
    match codec {
        "avc1" => source.has_avc1 = true,
        "hev1" => source.has_hev1 = true,
        "vp09" => source.has_vp09 = true,
        "mp4a" => source.has_mp4a = true,
        "tx3g" => source.has_tx3g = true,
        _ => {}
    }
    let moov = MoovBox {
        bytes: codec.as_bytes().to_vec(),
        mvex: Some(TrackExtendData::from(track_id, 1, duration, 10, 0)),
        traks: vec![source],
    };
    InitialSegment { ftyp: BrandBox::default(), moov }
}

fn config_of(tracks: &[(u32, u32, u32, &str)]) -> FMp4Config {
    let mut config = FMp4Config::default();
    config.major_brand = FourCC { value: *b"isom" };
    config.minor_version = 512;
    config.compatible_brands = vec![FourCC { value: *b"isom" }, FourCC { value: *b"avc1" }];
    for (track_id, timescale, duration, codec) in tracks {
        config.add_track(&initial_of(*track_id, *timescale, *duration, codec)).unwrap();
    }
    config
}

fn chunk_of(runs: &[(u32, Option<u32>, u32, Vec<u32>)], payload: Vec<u8>) -> Chunk {
    let trafs = runs
        .iter()
        .map(|(track_id, description, count, sizes)| TrackFragment {
            track_id: *track_id,
            sample_description_index: *description,
            default_sample_duration: None,
            default_sample_size: None,
            run: Some(TrackRun { sample_count: *count, sample_sizes: sizes.clone() }),
        })
        .collect();
    Chunk { moof: MoofBox { bytes: vec![0x6d; 16 + 4 * runs.len()], trafs }, mdat: payload }
}

fn segment_of(chunks: Vec<Chunk>) -> MediaSegment {
    MediaSegment { styp: BrandBox::default(), chunks }
}

fn moof_len(chunk: &Chunk) -> u64 {
    chunk.moof.bytes.len() as u64
}

fn track_bytes(track_id: u32, timescale: u32, codec: &str) -> Vec<u8> {
    let mut moov = mp4::MoovBox::default();
    moov.traks.push(Default::default());
    let trak = &mut moov.traks[0];
    trak.tkhd.track_id = track_id;
    trak.tkhd.set_width(640);
    trak.tkhd.set_height(480);
    trak.mdia.mdhd.timescale = timescale;
    trak.mdia.minf.stbl.stco = Some(Default::default());
    let stsd = &mut trak.mdia.minf.stbl.stsd;
    match codec {
        "avc1" => stsd.avc1 = Some(Default::default()),
        "hev1" => stsd.hev1 = Some(Default::default()),
        "vp09" => stsd.vp09 = Some(Default::default()),
        "tx3g" => stsd.tx3g = Some(Default::default()),
        _ => stsd.mp4a = Some(Default::default()),
    }
    if let Some(avc1) = stsd.avc1.as_mut() {
        avc1.width = 640;
        avc1.height = 480;
    }
    let mut out = Vec::new();
    trak.write_box(&mut out).unwrap();
    out
}

fn initial_bytes(tracks: &[(u32, u32, &str)], extends: u32, duration: u32) -> Vec<u8> {
    let mut moov = mp4::MoovBox::default();
    let mut body = Vec::new();
    moov.mvhd.write_box(&mut body).unwrap();
    for (track_id, timescale, codec) in tracks {
        body.extend_from_slice(&track_bytes(*track_id, *timescale, codec));
    }
    moov.mvex = Some(Default::default());
    let mvex = moov.mvex.as_mut().unwrap();
    mvex.trex.track_id = extends;
    mvex.trex.default_sample_description_index = 1;
    mvex.trex.default_sample_duration = duration;
    let mut trex = Vec::new();
    mvex.trex.write_box(&mut trex).unwrap();
    body.extend_from_slice(&boxed(b"mvex", &trex));
    let mut bytes = boxed(b"ftyp", b"iso5\x00\x00\x00\x01iso5iso6");
    bytes.extend_from_slice(&boxed(b"moov", &body));
    bytes
}

fn media_bytes(sequence: u32, track_id: u32, description: u32, sizes: &[u32], fill: u8) -> Vec<u8> {
    let mut tfhd = vec![0, 0, 0, 2];
    tfhd.extend_from_slice(&track_id.to_be_bytes());
    tfhd.extend_from_slice(&description.to_be_bytes());
    let mut trun = vec![0, 0, 2, 0];
    trun.extend_from_slice(&(sizes.len() as u32).to_be_bytes());
    for size in sizes {
        trun.extend_from_slice(&size.to_be_bytes());
    }
    let mut traf = boxed(b"tfhd", &tfhd);
    traf.extend_from_slice(&boxed(b"trun", &trun));
    let mut moof = boxed(b"mfhd", &[&[0u8; 4][..], &sequence.to_be_bytes()[..]].concat());
    moof.extend_from_slice(&boxed(b"traf", &traf));
    let mut bytes = boxed(b"styp", b"msdh\x00\x00\x00\x00msdh");
    bytes.extend_from_slice(&boxed(b"moof", &moof));
    let payload: Vec<u8> = vec![fill; sizes.iter().sum::<u32>() as usize];
    bytes.extend_from_slice(&boxed(b"mdat", &payload));
    bytes
}

fn decoded(bytes: &[u8]) -> mp4::MoovBox {
    let mut reader = std::io::Cursor::new(bytes);
    let header = mp4::BoxHeader::read(&mut reader).unwrap();
    assert!(header.name == mp4::BoxType::MoovBox);
    mp4::ReadBox::read_box(&mut reader, header.size).unwrap()
}

fn assembled(movie: &Movie) -> mp4::MoovBox {
    let mut moov = mp4::MoovBox::default();
    moov.mvhd.version = movie.version;
    moov.mvhd.creation_time = movie.creation_time;
    moov.mvhd.modification_time = movie.modification_time;
    moov.mvhd.timescale = movie.timescale;
    moov.mvhd.duration = movie.duration;
    moov.mvhd.next_track_id = movie.next_track_id;
    for plan in &movie.traks {
        moov.traks.push(Default::default());
        let trak = moov.traks.last_mut().unwrap();
        trak.tkhd.track_id = plan.track_id;
        trak.tkhd.set_width(plan.width);
        trak.tkhd.set_height(plan.height);
        trak.tkhd.duration = plan.duration;
        trak.mdia.mdhd.duration = plan.duration;
        trak.mdia.mdhd.timescale = plan.timescale;
        if let Some(handler) = plan.handler_type {
            trak.mdia.hdlr.handler_type = mp4::FourCC { value: handler.value };
        }
        let stbl = &mut trak.mdia.minf.stbl;
        match &plan.media_box {
            MediaBox::Avc1(e) => stbl.stsd.avc1 = decoded(&e.moov).traks[e.track].mdia.minf.stbl.stsd.avc1.clone(),
            MediaBox::Hev1(e) => stbl.stsd.hev1 = decoded(&e.moov).traks[e.track].mdia.minf.stbl.stsd.hev1.clone(),
            MediaBox::Vp9(e) => stbl.stsd.vp09 = decoded(&e.moov).traks[e.track].mdia.minf.stbl.stsd.vp09.clone(),
            MediaBox::Mp4a(e) => stbl.stsd.mp4a = decoded(&e.moov).traks[e.track].mdia.minf.stbl.stsd.mp4a.clone(),
            MediaBox::Tx3g(e) => stbl.stsd.tx3g = decoded(&e.moov).traks[e.track].mdia.minf.stbl.stsd.tx3g.clone(),
            MediaBox::__Unknown => {}
        }
        for entry in &plan.stts_entries {
            stbl.stts.entries.push(Default::default());
            let last = stbl.stts.entries.last_mut().unwrap();
            last.sample_count = entry.sample_count;
            last.sample_delta = entry.sample_delta;
        }
        stbl.stss = Some(Default::default());
        for entry in &plan.stsc_entries {
            stbl.stsc.entries.push(Default::default());
            let last = stbl.stsc.entries.last_mut().unwrap();
            last.first_chunk = entry.first_chunk;
            last.samples_per_chunk = entry.samples_per_chunk;
            last.sample_description_index = entry.sample_description_index;
            last.first_sample = entry.first_sample;
        }
        stbl.stsz.sample_count = plan.stsz_entries.len() as u32;
        stbl.stsz.sample_sizes = plan.stsz_entries.clone();
        stbl.co64 = Some(Default::default());
        stbl.co64.as_mut().unwrap().entries = plan.co64_entries.clone();
        stbl.stco = None;
    }
    moov
}

#[test]
fn the_output_opens_with_file_type_and_placeholder() {
    let config = config_of(&[(1, 1000, 1000, "avc1")]);
    let (writer, bytes) = HybridMp4Writer::initialize(100, &config).unwrap();
    let mut expected = vec![0, 0, 0, 24];
    expected.extend_from_slice(b"ftypisom");
    expected.extend_from_slice(&[0, 0, 2, 0]);
    expected.extend_from_slice(b"isomavc1");
    expected.extend_from_slice(&[0, 0, 0, 0]);
    expected.extend_from_slice(b"free");
    assert_eq!(bytes, expected);
    assert_eq!(writer.free_pos(), 124);
    assert_eq!(writer.free_size(), 0);
    assert_eq!(writer.position(), 132);
    assert_eq!(writer.tracks().len(), 1);
    let track = &writer.tracks()[0];
    assert_eq!(track.track_id(), 1);
    assert_eq!((track.chunk_offset(), track.sample_offset()), (1, 1));
    assert!(track.stts_entries().is_empty());
    assert!(track.stsc_entries().is_empty());
    assert!(track.stsz_entries().is_empty());
    assert!(track.co64_entries().is_empty());
    assert_eq!(track.duration(), 0);
    assert_eq!(track.data().base.width, 1280);
    assert_eq!(track.data(), config.tracks.get(0));
}

#[test]
fn two_segments_of_one_video_track_end_to_end() {
    let initial = InitialSegment::read(&initial_bytes(&[(1, 1000, "avc1")], 1, 1000)).unwrap();
    let mut config = FMp4Config::default();
    config.major_brand = FourCC { value: *b"isom" };
    config.add_track(&initial).unwrap();
    let (mut writer, opening) = HybridMp4Writer::initialize(0, &config).unwrap();
    let mut output = opening;
    let first = MediaSegment::read(&media_bytes(1, 1, 1, &[100; 30], 0xa1)).unwrap();
    let second = MediaSegment::read(&media_bytes(2, 1, 2, &[200; 30], 0xb2)).unwrap();
    assert!(writer.fits(&first));
    output.extend_from_slice(&writer.add_fragment(first).unwrap());
    assert!(writer.fits(&second));
    output.extend_from_slice(&writer.add_fragment(second).unwrap());

    let track = &writer.tracks()[0];
    let entries = vec![
        StscEntry {
            first_chunk: 1,
            first_sample: 1,
            samples_per_chunk: 30,
            sample_description_index: 1,
        },
        StscEntry {
            first_chunk: 2,
            first_sample: 31,
            samples_per_chunk: 30,
            sample_description_index: 2,
        },
    ];
    assert_eq!(track.stsc_entries(), &entries);
    assert_eq!(track.stsz_entries().len(), 60);
    assert_eq!(&track.stsz_entries()[..30], &[100u32; 30][..]);
    assert_eq!(&track.stsz_entries()[30..], &[200u32; 30][..]);
    assert_eq!(track.co64_entries().len(), 2);
    let times = vec![
        SttsEntry { sample_count: 30, sample_delta: 1000 },
        SttsEntry { sample_count: 30, sample_delta: 1000 },
    ];
    assert_eq!(track.stts_entries(), &times);
    assert_eq!(track.duration(), 60000);
    assert_eq!((track.chunk_offset(), track.sample_offset()), (3, 61));
    let offsets = track.co64_entries().clone();
    assert_eq!(&output[offsets[0] as usize..offsets[0] as usize + 3000], &[0xa1u8; 3000][..]);
    assert_eq!(&output[offsets[1] as usize..offsets[1] as usize + 6000], &[0xb2u8; 6000][..]);
    assert_eq!(writer.position(), output.len() as u64);
    assert_eq!(writer.movie_duration(), 60000);

    assert!(writer.can_finalize());
    let free_pos = writer.free_pos();
    let free_size = writer.free_size();
    let boxes = writer.finalize(0);
    assert_eq!(boxes.moov_position, output.len() as u64);
    assert_eq!(boxes.patch_position, free_pos);
    let at = boxes.patch_position as usize;
    output[at..at + boxes.patch.len()].copy_from_slice(&boxes.patch);
    let header = mp4::BoxHeader::read(&mut &output[at..]).unwrap();
    assert!(header.name == mp4::BoxType::MdatBox);
    assert_eq!(header.size, 8 + free_size);
    assert_eq!(at as u64 + header.size, boxes.moov_position);

    let movie = &boxes.movie;
    assert_eq!((movie.version, movie.timescale, movie.duration), (1, 1000, 60000));
    assert_eq!((movie.creation_time, movie.modification_time), (EPOCH_OFFSET, EPOCH_OFFSET));
    assert_eq!(movie.next_track_id, 2);
    assert_eq!(movie.traks.len(), 1);
    let plan = &movie.traks[0];
    assert_eq!((plan.track_id, plan.width, plan.height, plan.timescale), (1, 640, 480, 1000));
    assert_eq!(plan.duration, 60000);
    assert_eq!(plan.handler_type, Some(FourCC { value: *b"vide" }));
    assert_eq!(
        plan.media_box,
        MediaBox::Avc1(SampleEntry { moov: initial.moov.bytes.clone(), track: 0 })
    );
    assert_eq!(plan.stts_entries, times);
    assert_eq!(plan.stsc_entries, entries);
    assert_eq!(plan.stsz_entries.len(), 60);
    assert_eq!(plan.co64_entries, offsets);

    let mut written = Vec::new();
    assembled(movie).write_box(&mut written).unwrap();
    let moov = decoded(&written);
    assert_eq!(moov.mvhd.duration, 60000);
    assert_eq!(moov.traks[0].tkhd.duration, 60000);
    assert_eq!(moov.traks[0].mdia.hdlr.handler_type.value, *b"vide");
    let stbl = &moov.traks[0].mdia.minf.stbl;
    assert_eq!(stbl.stsd.avc1.as_ref().unwrap().width, 640);
    assert_eq!(stbl.stsc.entries.len(), 2);
    assert_eq!(stbl.stsc.entries[1].first_chunk, 2);
    assert_eq!(stbl.stsc.entries[1].first_sample, 31);
    assert_eq!(stbl.stsz.sample_sizes.len(), 60);
    assert_eq!(stbl.co64.as_ref().unwrap().entries, offsets);
    assert!(stbl.stco.is_none());
}

#[test]
fn every_chunk_is_written_once_and_its_offset_goes_to_the_track_of_its_run() {
    let config = config_of(&[(1, 1000, 40, "avc1"), (2, 48000, 1024, "mp4a")]);
    let (mut writer, opening) = HybridMp4Writer::initialize(0, &config).unwrap();
    let chunks = vec![
        chunk_of(&[(1, None, 2, vec![])], vec![1; 20]),
        chunk_of(&[(2, None, 3, vec![])], vec![2; 30]),
        chunk_of(&[(9, None, 5, vec![])], vec![3; 7]),
        chunk_of(&[(2, None, 3, vec![])], vec![4; 30]),
        chunk_of(&[(1, None, 2, vec![])], vec![5; 20]),
    ];
    let lens: Vec<u64> = chunks.iter().map(|c| moof_len(c) + 8 + c.mdat.len() as u64).collect();
    let heads: Vec<u64> = chunks.iter().map(|c| moof_len(c) + 8).collect();
    let segment = segment_of(chunks);
    let mut expected = Vec::new();
    segment.write(&mut expected).unwrap();
    let bytes = writer.add_fragment(segment).unwrap();
    assert_eq!(&bytes[..], &expected[16..]);
    assert_eq!(bytes.len() as u64, lens.iter().sum::<u64>());
    assert_eq!(writer.free_size(), bytes.len() as u64);
    let start = opening.len() as u64;
    let video = &writer.tracks()[0];
    let audio = &writer.tracks()[1];
    assert_eq!(
        video.co64_entries(),
        &vec![start + heads[0], start + lens[..4].iter().sum::<u64>() + heads[4]]
    );
    assert_eq!(
        audio.co64_entries(),
        &vec![start + lens[0] + heads[1], start + lens[..3].iter().sum::<u64>() + heads[3]]
    );
    assert_eq!(video.stts_entries().len(), 5);
    assert_eq!(audio.stts_entries().len(), 5);
    assert_eq!(video.stsz_entries(), &vec![10u32; 4]);
    assert_eq!(audio.stsz_entries(), &vec![10u32; 6]);
    assert_eq!(video.duration(), 4 * 40);
    assert_eq!(audio.duration(), 6 * 1024);
    assert_eq!((video.chunk_offset(), video.sample_offset()), (6, 5));
    assert_eq!((audio.chunk_offset(), audio.sample_offset()), (6, 7));
}

#[test]
fn a_chunk_with_runs_for_two_tracks_counts_for_the_first() {
    let config = config_of(&[(2, 1000, 1, "mp4a"), (1, 1000, 1, "avc1")]);
    let (mut writer, _) = HybridMp4Writer::initialize(0, &config).unwrap();
    let chunks = vec![
        chunk_of(&[(2, None, 1, vec![]), (1, None, 1, vec![])], vec![0; 4]),
        chunk_of(&[(2, None, 1, vec![])], vec![0; 4]),
    ];
    writer.add_fragment(segment_of(chunks)).unwrap();
    assert_eq!(writer.tracks()[0].track_id(), 1);
    assert_eq!(writer.tracks()[0].co64_entries().len(), 1);
    assert_eq!(writer.tracks()[1].co64_entries().len(), 1);
    assert_eq!(writer.tracks()[1].stsz_entries().len(), 2);
}

#[test]
fn the_chunk_offsets_of_a_track_count_its_runs_over_all_segments() {
    let config = config_of(&[(1, 1000, 10, "avc1")]);
    let (mut writer, _) = HybridMp4Writer::initialize(0, &config).unwrap();
    let mut runs = 0;
    let mut samples = 0;
    for round in 0..4u32 {
        let mut chunks = Vec::new();
        for k in 0..round + 1 {
            chunks.push(chunk_of(&[(1, None, k + 1, vec![])], vec![0; 3]));
            chunks.push(chunk_of(&[(8, None, 2, vec![])], vec![0; 3]));
            runs += 1;
            samples += k + 1;
        }
        writer.add_fragment(segment_of(chunks)).unwrap();
    }
    let track = &writer.tracks()[0];
    assert_eq!(track.co64_entries().len(), runs);
    assert_eq!(track.stsz_entries().len() as u32, samples);
    assert_eq!(track.sample_offset(), samples + 1);
    assert_eq!(track.chunk_offset(), 2 * runs as u32 + 1);
    assert_eq!(track.duration(), samples as u64 * 10);
}

#[test]
fn a_writer_without_tracks_still_writes_the_chunks() {
    let config = config_of(&[]);
    let (mut writer, opening) = HybridMp4Writer::initialize(0, &config).unwrap();
    let chunk = chunk_of(&[(1, None, 2, vec![])], vec![6; 16]);
    let len = moof_len(&chunk) + 8 + 16;
    let bytes = writer.add_fragment(segment_of(vec![chunk])).unwrap();
    assert_eq!(bytes.len() as u64, len);
    assert_eq!(writer.position(), opening.len() as u64 + len);
    let boxes = writer.finalize(1);
    assert_eq!(boxes.patch, [&(8 + len as u32).to_be_bytes()[..], b"mdat"].concat());
    assert!(boxes.movie.traks.is_empty());
    assert_eq!(boxes.movie.duration, 0);
    assert_eq!(boxes.movie.next_track_id, 1);
    assert_eq!(boxes.movie.creation_time, EPOCH_OFFSET + 1);
}

#[test]
fn every_track_is_written_whatever_its_identifier() {
    let config = config_of(&[
        (7, 1000, 500, "mp4a"),
        (3, 90000, 3000, "hev1"),
        (20, 1000, 1, "none"),
        (1, 600, 2, "tx3g"),
        (12, 1000, 3, "vp09"),
    ]);
    let (mut writer, _) = HybridMp4Writer::initialize(0, &config).unwrap();
    let chunks = vec![
        chunk_of(&[(7, None, 10, vec![])], vec![0; 8]),
        chunk_of(&[(3, None, 90, vec![])], vec![0; 8]),
    ];
    writer.add_fragment(segment_of(chunks)).unwrap();
    assert_eq!(writer.movie_duration(), 5000);
    let movie = writer.finalize(-1).movie;
    let ids: Vec<u32> = movie.traks.iter().map(|t| t.track_id).collect();
    assert_eq!(ids, vec![1, 3, 7, 12, 20]);
    assert_eq!(movie.next_track_id, 21);
    assert_eq!(movie.creation_time, EPOCH_OFFSET - 1);
    assert_eq!(movie.duration, 5000);
    let video = Some(FourCC { value: *b"vide" });
    let sound = Some(FourCC { value: *b"soun" });
    let handlers: Vec<Option<FourCC>> = movie.traks.iter().map(|t| t.handler_type).collect();
    assert_eq!(handlers, vec![sound, video, sound, video, None]);
    assert!(matches!(movie.traks[0].media_box, MediaBox::Tx3g(_)));
    assert!(matches!(movie.traks[1].media_box, MediaBox::Hev1(_)));
    assert!(matches!(movie.traks[2].media_box, MediaBox::Mp4a(_)));
    assert!(matches!(movie.traks[3].media_box, MediaBox::Vp9(_)));
    assert!(matches!(movie.traks[4].media_box, MediaBox::__Unknown));
    assert_eq!(movie.traks[1].duration, 270000);
    assert_eq!(movie.traks[1].timescale, 90000);
    assert_eq!(movie.traks[2].duration, 5000);
    assert_eq!(movie.traks[0].duration, 0);
    assert_eq!(movie.traks[2].co64_entries.len(), 1);
    assert_eq!(movie.traks[2].stts_entries.len(), 2);
}

#[test]
fn the_movie_of_several_codecs_can_be_written_by_the_codec() {
    let tracks = [(1, 600, "tx3g"), (3, 90000, "hev1"), (7, 1000, "mp4a"), (12, 1000, "vp09")];
    let mut config = FMp4Config::default();
    for (track_id, _, _) in tracks {
        let initial = InitialSegment::read(&initial_bytes(&tracks, track_id, 100)).unwrap();
        config.add_track(&initial).unwrap();
    }
    let (mut writer, _) = HybridMp4Writer::initialize(0, &config).unwrap();
    let segment = MediaSegment::read(&media_bytes(1, 7, 1, &[4; 10], 0)).unwrap();
    writer.add_fragment(segment).unwrap();
    let movie = writer.finalize(0).movie;
    assert_eq!(movie.traks[2].duration, 1000);
    let mut written = Vec::new();
    assembled(&movie).write_box(&mut written).unwrap();
    let moov = decoded(&written);
    let ids: Vec<u32> = moov.traks.iter().map(|t| t.tkhd.track_id).collect();
    assert_eq!(ids, vec![1, 3, 7, 12]);
    assert!(moov.traks[0].mdia.minf.stbl.stsd.tx3g.is_some());
    assert!(moov.traks[1].mdia.minf.stbl.stsd.hev1.is_some());
    assert!(moov.traks[2].mdia.minf.stbl.stsd.mp4a.is_some());
    assert!(moov.traks[3].mdia.minf.stbl.stsd.vp09.is_some());
    assert_eq!(moov.traks[2].mdia.hdlr.handler_type.value, *b"soun");
    assert_eq!(moov.traks[2].mdia.minf.stbl.stsz.sample_sizes, vec![4; 10]);
    assert_eq!(moov.mvhd.next_track_id, 13);
}

#[test]
fn the_movie_is_as_long_as_its_longest_track_in_whole_units() {
    let config = config_of(&[(1, 1000, 999, "avc1"), (2, 48000, 1024, "mp4a")]);
    let (mut writer, _) = HybridMp4Writer::initialize(0, &config).unwrap();
    let chunks = vec![
        chunk_of(&[(1, None, 3, vec![])], vec![0; 8]),
        chunk_of(&[(2, None, 200, vec![])], vec![0; 8]),
    ];
    writer.add_fragment(segment_of(chunks)).unwrap();
    assert_eq!(writer.tracks()[0].duration(), 2997);
    assert_eq!(writer.tracks()[1].duration(), 204800);
    assert_eq!(writer.movie_duration(), 4000);
    assert_eq!(writer.finalize(0).movie.duration, 4000);
}

#[test]
fn a_track_without_a_timescale_cannot_be_finished() {
    let config = config_of(&[(1, 0, 1000, "avc1")]);
    let (writer, _) = HybridMp4Writer::initialize(0, &config).unwrap();
    assert!(!writer.can_finalize());
    let good = config_of(&[(1, 1, 1000, "avc1")]);
    let (writer, _) = HybridMp4Writer::initialize(0, &good).unwrap();
    assert!(writer.can_finalize());
}

#[test]
fn a_segment_that_would_overflow_the_counters_does_not_fit() {
    let config = config_of(&[(1, 1000, u32::MAX, "avc1")]);
    let (mut writer, _) = HybridMp4Writer::initialize(0, &config).unwrap();
    let big = || segment_of(vec![chunk_of(&[(1, None, u32::MAX - 1, vec![1])], vec![])]);
    assert!(!writer.fits(&segment_of(vec![chunk_of(&[(1, None, u32::MAX, vec![])], vec![])])));
    assert!(writer.fits(&big()));
    writer.add_fragment(big()).unwrap();
    assert_eq!(writer.tracks()[0].sample_offset(), u32::MAX);
    assert_eq!(writer.tracks()[0].duration(), 0xffff_fffe * 0xffff_ffffu64);
    assert!(!writer.fits(&big()));
    assert!(!writer.fits(&segment_of(vec![chunk_of(&[(1, None, 1, vec![])], vec![])])));
    let small = segment_of(vec![chunk_of(&[(1, None, 0, vec![])], vec![])]);
    assert!(writer.fits(&small));
    let other = segment_of(vec![chunk_of(&[(2, None, 5, vec![])], vec![])]);
    assert!(writer.fits(&other));
    assert!(writer.can_finalize());
    assert_eq!(writer.movie_duration(), 0xffff_fffe * 0xffff_ffffu64 / 1000 * 1000);
}

#[test]
fn a_movie_too_long_for_64_bits_cannot_be_finished() {
    let config = config_of(&[(1, 1, u32::MAX, "avc1")]);
    let (mut writer, _) = HybridMp4Writer::initialize(0, &config).unwrap();
    let chunk = chunk_of(&[(1, None, 5_000_000, vec![1])], vec![]);
    writer.add_fragment(segment_of(vec![chunk])).unwrap();
    assert_eq!(writer.tracks()[0].duration(), 5_000_000 * 0xffff_ffffu64);
    assert!(!writer.can_finalize());
}

#[test]
fn a_segment_that_would_overflow_the_position_does_not_fit() {
    let config = config_of(&[]);
    let (writer, opening) = HybridMp4Writer::initialize(u64::MAX - 100, &config).unwrap();
    assert_eq!(writer.position(), u64::MAX - 100 + opening.len() as u64);
    let left = 100 - opening.len();
    let head = moof_len(&chunk_of(&[], vec![])) as usize + 8;
    assert!(writer.fits(&segment_of(vec![chunk_of(&[], vec![0; left - head])])));
    assert!(!writer.fits(&segment_of(vec![chunk_of(&[], vec![0; left - head + 1])])));
}

#[test]
fn the_duration_of_a_table_is_the_sum_of_count_times_delta() {
    let table = vec![
        SttsEntry { sample_count: 30, sample_delta: 1000 },
        SttsEntry { sample_count: 0, sample_delta: 77 },
        SttsEntry { sample_count: 2, sample_delta: 3 },
        SttsEntry { sample_count: u32::MAX, sample_delta: u32::MAX },
    ];
    assert_eq!(table_duration_of(&table), 30006 + 0xffff_fffe_0000_0001);
    assert_eq!(table_duration_of(&vec![]), 0);
    let mut long = table.clone();
    long.push(SttsEntry { sample_count: 3, sample_delta: u32::MAX });
    assert_eq!(checked_table_duration(&long), None);
    assert_eq!(checked_table_duration(&table), Some(30006 + 0xffff_fffe_0000_0001));
}

#[test]
fn the_creation_time_counts_from_1904() {
    assert_eq!(creation_time_of(0), 2_082_844_800);
    assert_eq!(creation_time_of(1_700_000_000), 3_782_844_800);
    assert_eq!(creation_time_of(-2_082_844_800), 0);
    assert_eq!(creation_time_of(-2_082_844_801), u64::MAX);
    assert_eq!(creation_time_of(i64::MAX), i64::MAX as u64 + 2_082_844_800);
    assert_eq!(creation_time_of(i64::MIN), (1u64 << 63) + 2_082_844_800);
}

#[test]
fn the_movie_is_made_at_the_time_given() {
    let config = config_of(&[(1, 1000, 1000, "avc1")]);
    let (writer, _) = HybridMp4Writer::initialize(0, &config).unwrap();
    let movie = writer.finalize(1_700_000_000).movie;
    assert_eq!(movie.creation_time, 3_782_844_800);
    assert_eq!(movie.creation_time, movie.modification_time);
    let (writer, _) = HybridMp4Writer::initialize(0, &config).unwrap();
    let movie = writer.finalize(-1).movie;
    assert_eq!(movie.creation_time, 2_082_844_799);
}

#[test]
fn many_brands_take_four_bytes_each() {
    let mut config = FMp4Config::default();
    config.compatible_brands = vec![FourCC { value: *b"abcd" }; 1000];
    let (writer, bytes) = HybridMp4Writer::initialize(7, &config).unwrap();
    assert_eq!(bytes.len(), 16 + 4000 + 8);
    assert_eq!(writer.free_pos(), 7 + 16 + 4000);
}
