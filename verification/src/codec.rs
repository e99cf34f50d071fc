//! The boundary to the outside: the calls into the `mp4` box codec.
//!
//! The functions of this file are not proved. Each states what the code it
//! calls does, and the rest of the crate is proved from these statements.

use vstd::prelude::*;
use std::io::Cursor;
use mp4::ReadBox;
use crate::bytes::{
    be_u32_bytes, be_u32_value, header_at, header_bytes, HeaderView, FTYP, MOOF, MOOV,
};
use crate::tables::fragments_sized;
use crate::tiling::decodable;
use crate::model::{
    fragment_views, BrandBox, BrandBoxView, FourCC, MovieFacts, TrackExtendData, TrackFragment,
    TrackFragmentView, TrackRun, TrackSource,
};

verus! {

/// An error of the `mp4` crate.
#[verifier::external_type_specification]
#[verifier::external_body]
pub struct ExMp4Error(mp4::Error);

/// An I/O error of the standard library.
#[verifier::external_type_specification]
#[verifier::external_body]
pub struct ExIoError(std::io::Error);

// ---------------------------------------------------------------------------
// Box headers
// ---------------------------------------------------------------------------

/// Reads the header at `at` with `mp4::BoxHeader::read`: the type code, the
/// declared size and the position behind the header. It fails exactly where
/// [`header_at`] finds no header.
#[verifier::external_body]
pub(crate) fn read_header(bytes: &[u8], at: usize) -> (r: Result<(u32, u64, usize), mp4::Error>)
    ensures
        match r {
            Ok(h) => header_at(bytes@, at as int) == Some(
                HeaderView { name: h.0, size: h.1, next: h.2 as int },
            ),
            Err(_) => header_at(bytes@, at as int) is None,
        },
{
    let mut reader = Cursor::new(bytes);
    reader.set_position(at as u64);
    let header = mp4::BoxHeader::read(&mut reader)?;
    Ok((u32::from(header.name), header.size, reader.position() as usize))
}

/// The bytes that `mp4::BoxHeader::write` writes for a box of type `name`
/// that declares `size` bytes.
#[verifier::external_body]
pub(crate) fn write_header(name: u32, size: u64) -> (out: Vec<u8>)
    ensures
        out@ == header_bytes(name, size as int),
{
    let mut out = Vec::new();
    let _ = mp4::BoxHeader::new(mp4::BoxType::from(name), size).write(&mut out);
    out
}

// ---------------------------------------------------------------------------
// File-type box
// ---------------------------------------------------------------------------

/// Whether a box of these bytes can hold a brand list: a major brand and a
/// minor version behind the header, then whole brands to the end.
pub open spec fn brands_decodable(boxed: Seq<u8>) -> bool {
    boxed.len() >= 16 && boxed.len() % 4 == 0
}

/// The brand list that a box of these bytes holds.
pub open spec fn brands_at(boxed: Seq<u8>) -> BrandBoxView {
    BrandBoxView {
        major_brand: boxed.subrange(8, 12),
        minor_version: be_u32_value(boxed.subrange(12, 16)),
        compatible_brands: Seq::new(
            ((boxed.len() - 16) / 4) as nat,
            |i: int| boxed.subrange(16 + 4 * i, 20 + 4 * i),
        ),
    }
}

/// The brands of `brands[from..]`, one behind the other.
pub open spec fn brand_bytes(brands: Seq<Seq<u8>>, from: int) -> Seq<u8>
    decreases brands.len() - from,
{
    if from < 0 || from >= brands.len() {
        Seq::empty()
    } else {
        brands[from] + brand_bytes(brands, from + 1)
    }
}

/// The bytes of a box of type `name` that holds a brand list.
pub open spec fn brand_box_bytes(name: u32, brands: BrandBoxView) -> Seq<u8> {
    header_bytes(name, 16 + 4 * (brands.compatible_brands.len() as int)) + brands.major_brand
        + be_u32_bytes(brands.minor_version) + brand_bytes(brands.compatible_brands, 0)
}

/// Decodes a file-type box with `mp4::FtypBox::read_box`. `boxed` is the box
/// from eight bytes before its content to its end. The call succeeds exactly
/// on a size of at least 16 that is a multiple of 4, and reads the brands
/// from the bytes as they stand.
#[verifier::external_body]
pub(crate) fn decode_ftyp(boxed: &[u8]) -> (r: Result<BrandBox, mp4::Error>)
    ensures
        r is Ok <==> brands_decodable(boxed@),
        r matches Ok(b) ==> b@ == brands_at(boxed@),
{
    let mut reader = Cursor::new(boxed);
    reader.set_position(8);
    let size = boxed.len() as u64;
    let b = mp4::FtypBox::read_box(&mut reader, size)?;
    Ok(BrandBox {
        major_brand: FourCC { value: b.major_brand.value },
        minor_version: b.minor_version,
        compatible_brands: b.compatible_brands.iter().map(|c| FourCC { value: c.value }).collect(),
    })
}

/// The bytes that `mp4::FtypBox::write_box` writes: a header that declares
/// 16 bytes and 4 for each compatible brand, the major brand, the minor
/// version, and the compatible brands.
#[verifier::external_body]
pub(crate) fn encode_ftyp(brands: &BrandBox) -> (out: Vec<u8>)
    requires
        16 + 4 * brands@.compatible_brands.len() <= u64::MAX,
    ensures
        out@ == brand_box_bytes(FTYP, brands@),
{
    let ftyp = mp4::FtypBox {
        major_brand: mp4::FourCC { value: brands.major_brand.value },
        minor_version: brands.minor_version,
        compatible_brands: brands.compatible_brands.iter().map(|c| mp4::FourCC { value: c.value }).collect(),
    };
    let mut out = Vec::new();
    let _ = mp4::WriteBox::write_box(&ftyp, &mut out);
    out
}

// ---------------------------------------------------------------------------
// Movie-fragment box and movie box
// ---------------------------------------------------------------------------

/// What `mp4::MoofBox::read_box` finds in a movie-fragment box, given from
/// eight bytes before its content to its end: its track fragments in
/// order, each with what it says of its track; nothing where the crate
/// refuses the box.
pub uninterp spec fn moof_decoding(boxed: Seq<u8>) -> Option<Seq<TrackFragmentView>>;

/// What `mp4::MoovBox::read_box` finds in a movie box, given from eight
/// bytes before its content to its end; nothing where the crate refuses
/// the box.
pub uninterp spec fn moov_decoding(boxed: Seq<u8>) -> Option<MovieFacts>;

/// Decodes a movie-fragment box with `mp4::MoofBox::read_box` and copies
/// out of it what each track fragment says: the track, the optional
/// defaults of the fragment header, and the run's sample count and sample
/// sizes where there is a run. A run that the crate reads lists either no
/// sample size or as many as its sample count says. `boxed` must be
/// [`decodable`]: the crate walks the boxes inside by their declared sizes,
/// and a box of no size would be read again and again.
#[verifier::external_body]
pub(crate) fn decode_moof(boxed: &[u8]) -> (r: Result<Vec<TrackFragment>, mp4::Error>)
    requires
        decodable(boxed@, MOOF),
    ensures
        match r {
            Ok(trafs) => moof_decoding(boxed@) == Some(fragment_views(trafs@)),
            Err(_) => moof_decoding(boxed@) is None,
        },
        r matches Ok(trafs) ==> fragments_sized(fragment_views(trafs@)),
{
    let mut reader = Cursor::new(boxed);
    reader.set_position(8);
    let moof = mp4::MoofBox::read_box(&mut reader, boxed.len() as u64)?;
    Ok(moof.trafs.iter().map(|traf| TrackFragment {
        track_id: traf.tfhd.track_id,
        sample_description_index: traf.tfhd.sample_description_index,
        default_sample_duration: traf.tfhd.default_sample_duration,
        default_sample_size: traf.tfhd.default_sample_size,
        run: traf.trun.as_ref().map(|trun| TrackRun {
            sample_count: trun.sample_count,
            sample_sizes: trun.sample_sizes.clone(),
        }),
    }).collect())
}

/// Decodes a movie box with `mp4::MoovBox::read_box` and copies out of it
/// the fields of the track-extends box, where there is a movie-extends box,
/// and for each track box the track, the width and height in whole pixels
/// (by `mp4::FixedPointU16::value`), the media timescale, and which sample
/// entries the sample-description box holds. `size` is the length of
/// `boxed`, which must be [`decodable`]: the crate walks the boxes inside by
/// their declared sizes, a box of no size would be read again and again,
/// and the crate takes the header's 8 bytes off the size of a box inside a
/// metadata box, and 16 off that of a data box, without a test.
#[verifier::external_body]
pub(crate) fn decode_moov(boxed: &[u8], size: u64) -> (r: Result<(Option<TrackExtendData>, Vec<TrackSource>), mp4::Error>)
    requires
        decodable(boxed@, MOOV),
        size == boxed@.len(),
    ensures
        match r {
            Ok(facts) => moov_decoding(boxed@) == Some(MovieFacts { mvex: facts.0, traks: facts.1@ }),
            Err(_) => moov_decoding(boxed@) is None,
        },
{
    let mut reader = Cursor::new(boxed);
    reader.set_position(8);
    let moov = mp4::MoovBox::read_box(&mut reader, size)?;
    Ok((moov.mvex.map(|m| TrackExtendData::from(
        m.trex.track_id, m.trex.default_sample_description_index,
        m.trex.default_sample_duration, m.trex.default_sample_size, m.trex.default_sample_flags
    )), moov.traks.iter().map(|t| {
        let s = &t.mdia.minf.stbl.stsd;
        TrackSource::new(
            t.tkhd.track_id, t.tkhd.width.value(), t.tkhd.height.value(), t.mdia.mdhd.timescale,
            [s.avc1.is_some(), s.hev1.is_some(), s.vp09.is_some(), s.mp4a.is_some(), s.tx3g.is_some()]
        )
    }).collect()))
}

// ---------------------------------------------------------------------------
// Errors
// ---------------------------------------------------------------------------

/// The I/O error of the kind `UnexpectedEof`.
#[verifier::external_body]
pub(crate) fn unexpected_eof() -> std::io::Error {
    std::io::Error::from(std::io::ErrorKind::UnexpectedEof)
}

/// The error `mp4::Error::InvalidData` with this message.
#[verifier::external_body]
pub(crate) fn invalid_data(message: &'static str) -> mp4::Error {
    mp4::Error::InvalidData(message)
}

} // verus!
