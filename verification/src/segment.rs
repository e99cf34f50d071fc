//! The segments of a fragmented file: how their boxes are laid out, and how
//! they are parsed from bytes and written back.

use vstd::prelude::*;
use vstd::slice::{slice_subrange, slice_to_vec};
use crate::boxes::{is_outcome, moof_of, moof_well_formed, moov_of, moov_well_formed};
use crate::bytes::{
    header_at, header_bytes, lemma_header_at_bounds, lemma_header_bytes_len, push_be_u32,
    read_be_u32, FTYP, MDAT, MOOF, MOOV, STYP,
};
use crate::codec::{
    brand_box_bytes, brand_bytes, brands_at, brands_decodable, decode_ftyp, encode_ftyp,
    invalid_data, unexpected_eof, write_header,
};
use crate::error::{reports, Failure, Fmp4ParseError, MDAT_REQUIRED, MVEX_REQUIRED};
use crate::model::{
    BrandBox, BrandBoxView, FourCC, MoofBox, MoofBoxView, MoovBox, MoovBoxView, StscEntry,
    SttsEntry, TrackFragment,
};
use crate::tables::{
    counters_fit, find_fragment, find_traf, fragments_sized, lane_samples, lemma_lane_prefix,
    lemma_stsc_counters, slot_run, slot_samples, slot_sizes, stsc_table, stsz_table, stts_entry,
    stts_table, Slot,
};
use crate::tiling::next_header;

verus! {

/// The most compatible brands that a brand box can be written with: with
/// more, the size of the box does not fit the 32 bits of a compact header.
pub const MAX_BRANDS: u64 = 0x3fff_fffb;

/// A segment that can be parsed from the bytes of its boxes and written
/// back as bytes.
pub trait Segment: Sized + View {
    /// The segment that `bytes` hold, or why they hold none.
    spec fn parsed(bytes: Seq<u8>) -> Result<Self::V, Failure>;

    /// The bytes of a segment, or why it cannot be written.
    spec fn written(segment: Self::V) -> Result<Seq<u8>, Failure>;

    /// Parses the boxes in `bytes`, from the first byte to the last.
    fn read(bytes: &[u8]) -> (r: Result<Self, Fmp4ParseError>)
        ensures
            is_outcome(r, Self::parsed(bytes@)),
    ;

    /// Appends the boxes of the segment to `out`, which is left as it was
    /// where a box cannot be written.
    fn write(&self, out: &mut Vec<u8>) -> (r: Result<(), Fmp4ParseError>)
        ensures
            match Self::written(self@) {
                Ok(bytes) => r is Ok && final(out)@ == old(out)@ + bytes,
                Err(f) => r matches Err(e) && reports(e, f) && final(out)@ == old(out)@,
            },
    ;
}

/// The initialization segment: the file-type box and the movie box.
#[derive(Debug, Clone, PartialEq, Eq, Default)]
pub struct InitialSegment {
    pub ftyp: BrandBox,
    pub moov: MoovBox,
}

/// The mathematical content of an [`InitialSegment`].
pub struct InitialSegmentView {
    pub ftyp: BrandBoxView,
    pub moov: MoovBoxView,
}

impl View for InitialSegment {
    type V = InitialSegmentView;

    open spec fn view(&self) -> InitialSegmentView {
        InitialSegmentView { ftyp: self.ftyp@, moov: self.moov@ }
    }
}

/// A movie-fragment box with the payload that follows it.
#[derive(Debug, Clone, PartialEq, Eq, Default)]
pub struct Chunk {
    pub moof: MoofBox,
    pub mdat: Vec<u8>,
}

/// The mathematical content of a [`Chunk`].
pub struct ChunkView {
    pub moof: MoofBoxView,
    pub mdat: Seq<u8>,
}

impl View for Chunk {
    type V = ChunkView;

    open spec fn view(&self) -> ChunkView {
        ChunkView { moof: self.moof@, mdat: self.mdat@ }
    }
}

/// The views of a list of chunks, in order.
pub open spec fn chunk_views(chunks: Seq<Chunk>) -> Seq<ChunkView> {
    Seq::new(chunks.len(), |i: int| chunks[i]@)
}

/// A media segment: the segment-type box and the chunks in their order.
#[derive(Debug, Clone, PartialEq, Eq, Default)]
pub struct MediaSegment {
    pub styp: BrandBox,
    pub chunks: Vec<Chunk>,
}

/// The mathematical content of a [`MediaSegment`].
pub struct MediaSegmentView {
    pub styp: BrandBoxView,
    pub chunks: Seq<ChunkView>,
}

impl View for MediaSegment {
    type V = MediaSegmentView;

    open spec fn view(&self) -> MediaSegmentView {
        MediaSegmentView { styp: self.styp@, chunks: chunk_views(self.chunks@) }
    }
}

// ---------------------------------------------------------------------------
// Layout of an initial segment
// ---------------------------------------------------------------------------

/// The brand box with no brand in it.
pub open spec fn empty_brands() -> BrandBoxView {
    BrandBoxView {
        major_brand: seq![0u8, 0u8, 0u8, 0u8],
        minor_version: 0,
        compatible_brands: Seq::empty(),
    }
}

/// What has been found of an initial segment.
pub struct InitialFound {
    pub ftyp: BrandBoxView,
    pub moov: Option<MoovBoxView>,
}

/// The boxes of an initial segment from position `at` on, behind what was
/// `found` before it. A file-type or movie box replaces the one found
/// before; any other box is passed over, and one that declares no size
/// reaches to the end.
pub open spec fn scan_initial(bytes: Seq<u8>, at: int, found: InitialFound) -> Result<
    InitialFound,
    Failure,
>
    decreases bytes.len() - at,
{
    match header_at(bytes, at) {
        None => Ok(found),
        Some(h) => {
            proof {
                lemma_header_at_bounds(bytes, at);
            }
            let start = h.next - 8;
            let end = start + h.size;
            if h.name == FTYP {
                if end > bytes.len() || !brands_decodable(bytes.subrange(start, end)) {
                    Err(Failure::Malformed)
                } else {
                    scan_initial(
                        bytes,
                        end,
                        InitialFound {
                            ftyp: brands_at(bytes.subrange(start, end)),
                            moov: found.moov,
                        },
                    )
                }
            } else if h.name == MOOV {
                if end > bytes.len() || h.size <= 8 {
                    Err(Failure::Malformed)
                } else {
                    match moov_of(bytes.subrange(at, end)) {
                        Err(f) => Err(f),
                        Ok(moov) => scan_initial(
                            bytes,
                            end,
                            InitialFound { ftyp: found.ftyp, moov: Some(moov) },
                        ),
                    }
                }
            } else if h.size == 0 || end > bytes.len() {
                Ok(found)
            } else {
                scan_initial(bytes, end, found)
            }
        },
    }
}

/// The initial segment that `bytes` hold: the last file-type box, or one
/// without brands, and the last movie box, which must be there and have a
/// movie-extends box.
pub open spec fn parse_initial(bytes: Seq<u8>) -> Result<InitialSegmentView, Failure> {
    match scan_initial(bytes, 0, InitialFound { ftyp: empty_brands(), moov: None }) {
        Err(f) => Err(f),
        Ok(found) => match found.moov {
            None => Err(Failure::MvexRequired),
            Some(moov) => if moov.mvex is None {
                Err(Failure::MvexRequired)
            } else {
                Ok(InitialSegmentView { ftyp: found.ftyp, moov })
            },
        },
    }
}

/// The bytes of an initial segment: the file-type box, then the movie box
/// as its bytes are. A segment with more than [`MAX_BRANDS`] compatible
/// brands cannot be written.
pub open spec fn initial_bytes(segment: InitialSegmentView) -> Result<Seq<u8>, Failure> {
    if segment.ftyp.compatible_brands.len() > MAX_BRANDS {
        Err(Failure::Malformed)
    } else {
        Ok(brand_box_bytes(FTYP, segment.ftyp) + segment.moov.bytes)
    }
}

// ---------------------------------------------------------------------------
// Layout of a media segment
// ---------------------------------------------------------------------------

/// What has been found of a media segment.
pub struct MediaFound {
    pub styp: BrandBoxView,
    pub chunks: Seq<ChunkView>,
}

/// The boxes of a media segment from position `at` on, behind what was
/// `found` before it. A segment-type box replaces the one found before; a
/// movie-fragment box with the payload box that must follow it is one more
/// chunk, and where the input ends behind it, or another box follows, the
/// payload box is missing; any other box is passed over, and one that
/// declares no size reaches to the end.
pub open spec fn scan_media(bytes: Seq<u8>, at: int, found: MediaFound) -> Result<
    MediaFound,
    Failure,
>
    decreases bytes.len() - at,
{
    match header_at(bytes, at) {
        None => Ok(found),
        Some(h) => {
            proof {
                lemma_header_at_bounds(bytes, at);
            }
            let start = h.next - 8;
            let end = start + h.size;
            if h.name == STYP {
                if end > bytes.len() || !brands_decodable(bytes.subrange(start, end)) {
                    Err(Failure::Malformed)
                } else {
                    scan_media(
                        bytes,
                        end,
                        MediaFound {
                            styp: brands_at(bytes.subrange(start, end)),
                            chunks: found.chunks,
                        },
                    )
                }
            } else if h.name == MOOF {
                if end > bytes.len() || h.size <= 8 {
                    Err(Failure::Malformed)
                } else {
                    match moof_of(bytes.subrange(at, end)) {
                        Err(f) => Err(f),
                        Ok(moof) => match header_at(bytes, end) {
                            None => Err(Failure::MdatRequired),
                            Some(m) => {
                                proof {
                                    lemma_header_at_bounds(bytes, end);
                                }
                                let stop = m.next - 8 + m.size;
                                if m.name != MDAT {
                                    Err(Failure::MdatRequired)
                                } else if m.size < 8 {
                                    Err(Failure::Malformed)
                                } else if stop > bytes.len() {
                                    Err(Failure::Truncated)
                                } else {
                                    scan_media(
                                        bytes,
                                        stop,
                                        MediaFound {
                                            styp: found.styp,
                                            chunks: found.chunks.push(
                                                ChunkView {
                                                    moof,
                                                    mdat: bytes.subrange(m.next, stop),
                                                },
                                            ),
                                        },
                                    )
                                }
                            },
                        },
                    }
                }
            } else if h.size == 0 || end > bytes.len() {
                Ok(found)
            } else {
                scan_media(bytes, end, found)
            }
        },
    }
}

/// The media segment that `bytes` hold: the last segment-type box, or one
/// without brands, and the chunks in their order.
pub open spec fn parse_media(bytes: Seq<u8>) -> Result<MediaSegmentView, Failure> {
    match scan_media(bytes, 0, MediaFound { styp: empty_brands(), chunks: Seq::empty() }) {
        Err(f) => Err(f),
        Ok(found) => Ok(MediaSegmentView { styp: found.styp, chunks: found.chunks }),
    }
}

/// The size that the payload box of a payload of `len` bytes declares: the
/// payload and its header, which has 8 bytes where the two fit 32 bits and
/// 16 where they do not.
pub open spec fn payload_box_size(len: nat) -> int {
    if 8 + len > u32::MAX {
        16 + (len as int)
    } else {
        8 + (len as int)
    }
}

/// Where the payload starts within the bytes of a chunk: behind the
/// movie-fragment box and the header of the payload box.
pub open spec fn payload_start(chunk: ChunkView) -> nat {
    chunk.moof.bytes.len() + header_bytes(MDAT, payload_box_size(chunk.mdat.len())).len()
}

/// The bytes of a chunk: the movie-fragment box as its bytes are, then a
/// payload box whose header declares the payload and the header itself.
pub open spec fn chunk_bytes(chunk: ChunkView) -> Result<Seq<u8>, Failure> {
    if payload_box_size(chunk.mdat.len()) > u64::MAX {
        Err(Failure::Malformed)
    } else {
        Ok(chunk.moof.bytes + header_bytes(MDAT, payload_box_size(chunk.mdat.len())) + chunk.mdat)
    }
}

/// The bytes of the first `n` chunks, one behind the other, or the failure
/// of the first that cannot be written.
pub open spec fn chunks_bytes(chunks: Seq<ChunkView>, n: int) -> Result<Seq<u8>, Failure>
    decreases n,
{
    if n <= 0 {
        Ok(Seq::empty())
    } else {
        match chunks_bytes(chunks, n - 1) {
            Err(f) => Err(f),
            Ok(before) => match chunk_bytes(chunks[n - 1]) {
                Err(f) => Err(f),
                Ok(bytes) => Ok(before + bytes),
            },
        }
    }
}

/// The bytes of a media segment: the segment-type box, then the chunks. A
/// segment with more than [`MAX_BRANDS`] compatible brands cannot be
/// written.
pub open spec fn media_bytes(segment: MediaSegmentView) -> Result<Seq<u8>, Failure> {
    if segment.styp.compatible_brands.len() > MAX_BRANDS {
        Err(Failure::Malformed)
    } else {
        match chunks_bytes(segment.chunks, segment.chunks.len() as int) {
            Err(f) => Err(f),
            Ok(chunks) => Ok(brand_box_bytes(STYP, segment.styp) + chunks),
        }
    }
}

/// Every chunk of the segment has a movie-fragment box that says what the
/// codec reads in its bytes.
pub open spec fn chunks_well_formed(chunks: Seq<ChunkView>) -> bool {
    forall|i: int| 0 <= i < chunks.len() ==> moof_well_formed((#[trigger] chunks[i]).moof)
}

/// Every run of the chunks lists either no sample size or one for each of
/// its samples.
pub open spec fn chunks_sized(chunks: Seq<ChunkView>) -> bool {
    forall|i: int| 0 <= i < chunks.len() ==> fragments_sized((#[trigger] chunks[i]).moof.trafs)
}

// ---------------------------------------------------------------------------
// Brand boxes
// ---------------------------------------------------------------------------

impl BrandBox {
    /// The brand box with no brand in it.
    pub fn empty() -> (brands: BrandBox)
        ensures
            brands@ == empty_brands(),
    {
        let brands = BrandBox {
            major_brand: FourCC { value: [0u8, 0u8, 0u8, 0u8] },
            minor_version: 0,
            compatible_brands: Vec::new(),
        };
        assert(brands@.major_brand =~= empty_brands().major_brand);
        assert(brands@.compatible_brands =~= empty_brands().compatible_brands);
        brands
    }
}

/// The four-character code at `at`.
fn read_fourcc(bytes: &[u8], at: usize) -> (code: FourCC)
    requires
        at + 4 <= bytes@.len(),
    ensures
        code@ == bytes@.subrange(at as int, at + 4),
{
    let code = FourCC { value: [bytes[at], bytes[at + 1], bytes[at + 2], bytes[at + 3]] };
    assert(code@ =~= bytes@.subrange(at as int, at + 4));
    code
}

/// Appends a four-character code.
fn push_fourcc(out: &mut Vec<u8>, code: &FourCC)
    ensures
        final(out)@ == old(out)@ + code@,
{
    out.push(code.value[0]);
    out.push(code.value[1]);
    out.push(code.value[2]);
    out.push(code.value[3]);
    assert(out@ =~= old(out)@ + code@);
}

/// Decodes a segment-type box, given from eight bytes before its content
/// to its end.
pub fn decode_styp(boxed: &[u8]) -> (r: Option<BrandBox>)
    ensures
        r is Some <==> brands_decodable(boxed@),
        r matches Some(b) ==> b@ == brands_at(boxed@),
{
    let len = boxed.len();
    if len < 16 || len % 4 != 0 {
        return None;
    }
    let major_brand = read_fourcc(boxed, 8);
    let minor_version = read_be_u32(boxed, 12);
    let count: usize = (len - 16) / 4;
    let mut compatible_brands: Vec<FourCC> = Vec::new();
    let mut i: usize = 0;
    while i < count
        invariant
            i <= count,
            count == (len - 16) / 4,
            len == boxed@.len(),
            len >= 16,
            compatible_brands@.len() == i,
            forall|k: int|
                0 <= k < i ==> (#[trigger] compatible_brands@[k])@ == boxed@.subrange(
                    16 + 4 * k,
                    20 + 4 * k,
                ),
        decreases count - i,
    {
        let brand = read_fourcc(boxed, 16 + 4 * i);
        compatible_brands.push(brand);
        i += 1;
    }
    let brands = BrandBox { major_brand, minor_version, compatible_brands };
    assert(brands@.compatible_brands =~= brands_at(boxed@).compatible_brands);
    Some(brands)
}

/// Appends the compatible brands, one behind the other.
fn push_brands(out: &mut Vec<u8>, brands: &Vec<FourCC>)
    ensures
        final(out)@ == old(out)@ + brand_bytes(
            Seq::new(brands@.len(), |i: int| brands@[i]@),
            0,
        ),
{
    let ghost views = Seq::new(brands@.len(), |i: int| brands@[i]@);
    let mut k: usize = 0;
    let ghost start = out@;
    while k < brands.len()
        invariant
            k <= brands.len(),
            views == Seq::new(brands@.len(), |j: int| brands@[j]@),
            start == old(out)@,
            out@ + brand_bytes(views, k as int) == start + brand_bytes(views, 0),
        decreases brands.len() - k,
    {
        let ghost before = out@;
        push_fourcc(out, &brands[k]);
        assert(brand_bytes(views, k as int) == views[k as int] + brand_bytes(views, k + 1));
        assert(out@ + brand_bytes(views, k + 1) =~= before + brand_bytes(views, k as int));
        k += 1;
    }
    assert(brand_bytes(views, k as int) =~= Seq::<u8>::empty());
    assert(out@ =~= out@ + brand_bytes(views, k as int));
}

/// Encodes a segment-type box.
pub fn encode_styp(brands: &BrandBox) -> (out: Vec<u8>)
    requires
        16 + 4 * brands@.compatible_brands.len() <= u64::MAX,
    ensures
        out@ == brand_box_bytes(STYP, brands@),
{
    let size: u64 = 16 + 4 * (brands.compatible_brands.len() as u64);
    let mut out = write_header(STYP, size);
    push_fourcc(&mut out, &brands.major_brand);
    push_be_u32(&mut out, brands.minor_version);
    push_brands(&mut out, &brands.compatible_brands);
    assert(Seq::new(brands.compatible_brands@.len(), |i: int| brands.compatible_brands@[i]@)
        =~= brands@.compatible_brands);
    out
}

// ---------------------------------------------------------------------------
// Parsing and writing
// ---------------------------------------------------------------------------

/// Appends the bytes of `from`.
fn push_all(out: &mut Vec<u8>, from: &Vec<u8>)
    ensures
        final(out)@ == old(out)@ + from@,
{
    let mut i: usize = 0;
    while i < from.len()
        invariant
            i <= from.len(),
            out@ == old(out)@ + from@.take(i as int),
        decreases from.len() - i,
    {
        out.push(from[i]);
        assert(from@.take(i + 1) =~= from@.take(i as int).push(from@[i as int]));
        i += 1;
    }
    assert(from@.take(i as int) =~= from@);
}

impl Segment for InitialSegment {
    open spec fn parsed(bytes: Seq<u8>) -> Result<InitialSegmentView, Failure> {
        parse_initial(bytes)
    }

    open spec fn written(segment: InitialSegmentView) -> Result<Seq<u8>, Failure> {
        initial_bytes(segment)
    }

    /// Parses an initial segment: the outcome is [`parse_initial`] of the
    /// bytes, and the movie box of a segment that is parsed says what the
    /// codec reads in its bytes.
    fn read(bytes: &[u8]) -> (r: Result<InitialSegment, Fmp4ParseError>)
        ensures
            is_outcome(r, parse_initial(bytes@)),
            r matches Ok(segment) ==> moov_well_formed(segment@.moov),
    {
        let len = bytes.len();
        let mut ftyp = BrandBox::empty();
        let mut moov: Option<MoovBox> = None;
        let mut at: usize = 0;
        let mut done = false;
        let ghost total = scan_initial(
            bytes@,
            0,
            InitialFound { ftyp: empty_brands(), moov: None },
        );
        while !done
            invariant
                len == bytes@.len(),
                at <= len,
                total == scan_initial(
                    bytes@,
                    0,
                    InitialFound { ftyp: empty_brands(), moov: None },
                ),
                !done ==> total == scan_initial(
                    bytes@,
                    at as int,
                    InitialFound { ftyp: ftyp@, moov: found_moov(moov) },
                ),
                done ==> total == Ok::<InitialFound, Failure>(
                    InitialFound { ftyp: ftyp@, moov: found_moov(moov) },
                ),
                moov matches Some(m) ==> moov_well_formed(m@),
            decreases
                    (if done {
                        0
                    } else {
                        1 + len - at
                    }),
        {
            match next_header(bytes, at) {
                Err(_) => {
                    done = true;
                },
                Ok((name, size, next)) => {
                    let start: usize = next - 8;
                    if name == FTYP {
                        if size > (len - start) as u64 {
                            return Err(
                                Fmp4ParseError::Mp4Error(
                                    invalid_data("box reaches past the end of the input"),
                                ),
                            );
                        }
                        let end: usize = start + size as usize;
                        match decode_ftyp(slice_subrange(bytes, start, end)) {
                            Err(e) => {
                                return Err(Fmp4ParseError::Mp4Error(e));
                            },
                            Ok(brands) => {
                                ftyp = brands;
                                at = end;
                            },
                        }
                    } else if name == MOOV {
                        if size <= 8 {
                            return Err(
                                Fmp4ParseError::Mp4Error(invalid_data("moov box too small")),
                            );
                        }
                        if size > (len - start) as u64 {
                            return Err(
                                Fmp4ParseError::Mp4Error(
                                    invalid_data("box reaches past the end of the input"),
                                ),
                            );
                        }
                        let end: usize = start + size as usize;
                        match MoovBox::read(slice_subrange(bytes, at, end)) {
                            Err(e) => {
                                return Err(e);
                            },
                            Ok(decoded) => {
                                moov = Some(decoded);
                                at = end;
                            },
                        }
                    } else if size == 0 || size > (len - start) as u64 {
                        done = true;
                    } else {
                        at = start + size as usize;
                    }
                },
            }
        }
        match moov {
            None => Err(Fmp4ParseError::InvalidFormat(MVEX_REQUIRED)),
            Some(moov) => {
                if moov.mvex.is_none() {
                    Err(Fmp4ParseError::InvalidFormat(MVEX_REQUIRED))
                } else {
                    Ok(InitialSegment { ftyp, moov })
                }
            },
        }
    }

    /// Appends the file-type box and the movie box: [`initial_bytes`] of
    /// the segment.
    fn write(&self, out: &mut Vec<u8>) -> (r: Result<(), Fmp4ParseError>)
        ensures
            match initial_bytes(self@) {
                Ok(bytes) => r is Ok && final(out)@ == old(out)@ + bytes,
                Err(f) => r matches Err(e) && reports(e, f) && final(out)@ == old(out)@,
            },
    {
        if self.ftyp.compatible_brands.len() as u64 > MAX_BRANDS {
            return Err(Fmp4ParseError::Mp4Error(invalid_data("too many compatible brands")));
        }
        let mut ftyp = encode_ftyp(&self.ftyp);
        out.append(&mut ftyp);
        push_all(out, &self.moov.bytes);
        assert(out@ =~= old(out)@ + (brand_box_bytes(FTYP, self@.ftyp) + self.moov.bytes@));
        Ok(())
    }
}

/// The view of the movie box that was found, if one was.
pub open spec fn found_moov(moov: Option<MoovBox>) -> Option<MoovBoxView> {
    match moov {
        Some(m) => Some(m@),
        None => None,
    }
}

impl Chunk {
    /// Appends the movie-fragment box and the payload box,
    /// [`chunk_bytes`] of the chunk, and says where in `out` the payload
    /// starts. `out` is left as it was where the chunk cannot be written.
    pub fn write_located(&self, out: &mut Vec<u8>) -> (r: Result<usize, Fmp4ParseError>)
        ensures
            match chunk_bytes(self@) {
                Ok(bytes) => r matches Ok(at) && final(out)@ == old(out)@ + bytes && at == old(
                    out,
                )@.len() + payload_start(self@) && at <= final(out)@.len(),
                Err(f) => r matches Err(e) && reports(e, f) && final(out)@ == old(out)@,
            },
    {
        let len: u64 = self.mdat.len() as u64;
        if len > u64::MAX - 16 {
            return Err(Fmp4ParseError::Mp4Error(invalid_data("payload too large")));
        }
        let size: u64 = if 8 + len > u32::MAX as u64 {
            16 + len
        } else {
            8 + len
        };
        let mut header = write_header(MDAT, size);
        push_all(out, &self.moof.bytes);
        out.append(&mut header);
        let at = out.len();
        push_all(out, &self.mdat);
        assert(out@ =~= old(out)@ + (self.moof.bytes@ + header_bytes(
            MDAT,
            payload_box_size(self.mdat@.len()),
        ) + self.mdat@));
        Ok(at)
    }

    /// Whether the chunk holds a run for `track_id`.
    pub fn has_run(&self, track_id: u32) -> (runs: bool)
        ensures
            runs == (slot_run(find_fragment(self@.moof.trafs, track_id)) is Some),
    {
        match fragment_of(self, track_id) {
            Some(fragment) => fragment.run.is_some(),
            None => false,
        }
    }

    /// Appends the movie-fragment box and the payload box:
    /// [`chunk_bytes`] of the chunk. `out` is left as it was where the
    /// chunk cannot be written.
    pub fn write(&self, out: &mut Vec<u8>) -> (r: Result<(), Fmp4ParseError>)
        ensures
            match chunk_bytes(self@) {
                Ok(bytes) => r is Ok && final(out)@ == old(out)@ + bytes,
                Err(f) => r matches Err(e) && reports(e, f) && final(out)@ == old(out)@,
            },
    {
        match self.write_located(out) {
            Ok(_) => Ok(()),
            Err(e) => Err(e),
        }
    }
}

impl Segment for MediaSegment {
    open spec fn parsed(bytes: Seq<u8>) -> Result<MediaSegmentView, Failure> {
        parse_media(bytes)
    }

    open spec fn written(segment: MediaSegmentView) -> Result<Seq<u8>, Failure> {
        media_bytes(segment)
    }

    /// Parses a media segment: the outcome is [`parse_media`] of the
    /// bytes, the movie-fragment boxes of a segment that is parsed say what
    /// the codec reads in their bytes, and each of its runs lists either no
    /// sample size or one for each sample.
    fn read(bytes: &[u8]) -> (r: Result<MediaSegment, Fmp4ParseError>)
        ensures
            is_outcome(r, parse_media(bytes@)),
            r matches Ok(segment) ==> chunks_well_formed(segment@.chunks) && chunks_sized(
                segment@.chunks,
            ),
    {
        let len = bytes.len();
        let mut styp = BrandBox::empty();
        let mut chunks: Vec<Chunk> = Vec::new();
        let mut at: usize = 0;
        let mut done = false;
        let ghost total = scan_media(
            bytes@,
            0,
            MediaFound { styp: empty_brands(), chunks: Seq::empty() },
        );
        assert(chunk_views(chunks@) =~= Seq::<ChunkView>::empty());
        while !done
            invariant
                len == bytes@.len(),
                at <= len,
                total == scan_media(
                    bytes@,
                    0,
                    MediaFound { styp: empty_brands(), chunks: Seq::empty() },
                ),
                !done ==> total == scan_media(
                    bytes@,
                    at as int,
                    MediaFound { styp: styp@, chunks: chunk_views(chunks@) },
                ),
                done ==> total == Ok::<MediaFound, Failure>(
                    MediaFound { styp: styp@, chunks: chunk_views(chunks@) },
                ),
                chunks_well_formed(chunk_views(chunks@)),
                chunks_sized(chunk_views(chunks@)),
            decreases
                    (if done {
                        0
                    } else {
                        1 + len - at
                    }),
        {
            match next_header(bytes, at) {
                Err(_) => {
                    done = true;
                },
                Ok((name, size, next)) => {
                    let start: usize = next - 8;
                    if name == STYP {
                        if size > (len - start) as u64 {
                            return Err(
                                Fmp4ParseError::Mp4Error(
                                    invalid_data("box reaches past the end of the input"),
                                ),
                            );
                        }
                        let end: usize = start + size as usize;
                        match decode_styp(slice_subrange(bytes, start, end)) {
                            None => {
                                return Err(
                                    Fmp4ParseError::Mp4Error(
                                        invalid_data("styp size too small or not aligned"),
                                    ),
                                );
                            },
                            Some(brands) => {
                                styp = brands;
                                at = end;
                            },
                        }
                    } else if name == MOOF {
                        if size <= 8 {
                            return Err(
                                Fmp4ParseError::Mp4Error(invalid_data("moof box too small")),
                            );
                        }
                        if size > (len - start) as u64 {
                            return Err(
                                Fmp4ParseError::Mp4Error(
                                    invalid_data("box reaches past the end of the input"),
                                ),
                            );
                        }
                        let end: usize = start + size as usize;
                        let moof = match MoofBox::read(slice_subrange(bytes, at, end)) {
                            Err(e) => {
                                return Err(e);
                            },
                            Ok(decoded) => decoded,
                        };
                        let (payload_name, payload_size, payload_start) = match next_header(
                            bytes,
                            end,
                        ) {
                            Err(_) => {
                                return Err(Fmp4ParseError::InvalidFormat(MDAT_REQUIRED));
                            },
                            Ok(header) => header,
                        };
                        if payload_name != MDAT {
                            return Err(Fmp4ParseError::InvalidFormat(MDAT_REQUIRED));
                        }
                        if payload_size < 8 {
                            return Err(
                                Fmp4ParseError::Mp4Error(invalid_data("mdat box too small")),
                            );
                        }
                        if payload_size - 8 > (len - payload_start) as u64 {
                            return Err(Fmp4ParseError::IoError(unexpected_eof()));
                        }
                        let stop: usize = payload_start + (payload_size - 8) as usize;
                        let mdat = slice_to_vec(slice_subrange(bytes, payload_start, stop));
                        let ghost before = chunk_views(chunks@);
                        let ghost view = moof@;
                        chunks.push(Chunk { moof, mdat });
                        proof {
                            let added = ChunkView {
                                moof: view,
                                mdat: bytes@.subrange(payload_start as int, stop as int),
                            };
                            assert(chunk_views(chunks@) =~= before.push(added));
                            assert forall|i: int| 0 <= i < chunk_views(chunks@).len() implies moof_well_formed(
                                (#[trigger] chunk_views(chunks@)[i]).moof,
                            ) && fragments_sized(chunk_views(chunks@)[i].moof.trafs) by {
                                if i < before.len() {
                                    assert(chunk_views(chunks@)[i] == before[i]);
                                }
                            }
                        }
                        at = stop;
                    } else if size == 0 || size > (len - start) as u64 {
                        done = true;
                    } else {
                        at = start + size as usize;
                    }
                },
            }
        }
        Ok(MediaSegment { styp, chunks })
    }

    /// Appends the segment-type box and the chunks: [`media_bytes`] of the
    /// segment.
    fn write(&self, out: &mut Vec<u8>) -> (r: Result<(), Fmp4ParseError>)
        ensures
            match media_bytes(self@) {
                Ok(bytes) => r is Ok && final(out)@ == old(out)@ + bytes,
                Err(f) => r matches Err(e) && reports(e, f) && final(out)@ == old(out)@,
            },
    {
        if self.styp.compatible_brands.len() as u64 > MAX_BRANDS {
            return Err(Fmp4ParseError::Mp4Error(invalid_data("too many compatible brands")));
        }
        let mut buffer = encode_styp(&self.styp);
        let ghost views = chunk_views(self.chunks@);
        let ghost styp = buffer@;
        let mut i: usize = 0;
        while i < self.chunks.len()
            invariant
                i <= self.chunks.len(),
                views == chunk_views(self.chunks@),
                chunks_bytes(views, i as int) is Ok,
                buffer@ == styp + chunks_bytes(views, i as int)->Ok_0,
            decreases self.chunks.len() - i,
        {
            assert(views[i as int] == self.chunks@[i as int]@);
            match self.chunks[i].write(&mut buffer) {
                Err(e) => {
                    proof {
                        lemma_chunks_bytes_fails(views, i + 1, views.len() as int);
                    }
                    return Err(e);
                },
                Ok(()) => {},
            }
            assert(buffer@ =~= styp + chunks_bytes(views, i + 1)->Ok_0);
            i += 1;
        }
        out.append(&mut buffer);
        Ok(())
    }
}

/// Where the first `n` chunks cannot be written, no more of them can, and
/// for the same reason.
pub proof fn lemma_chunks_bytes_fails(chunks: Seq<ChunkView>, n: int, m: int)
    requires
        chunks_bytes(chunks, n) is Err,
        n <= m,
    ensures
        chunks_bytes(chunks, m) == chunks_bytes(chunks, n),
    decreases m - n,
{
    if n < m {
        lemma_chunks_bytes_fails(chunks, n, m - 1);
    }
}

// ---------------------------------------------------------------------------
// The sample tables of a media segment
// ---------------------------------------------------------------------------

/// The lane of `track_id` through the chunks: for each chunk, the first of
/// its track fragments that belongs to the track.
pub open spec fn segment_lane(chunks: Seq<ChunkView>, track_id: u32) -> Seq<Slot> {
    Seq::new(chunks.len(), |i: int| find_fragment(chunks[i].moof.trafs, track_id))
}

/// The counter to start from: the one given, or 1.
pub open spec fn counter_from(offset: Option<u32>) -> int {
    match offset {
        Some(n) => n as int,
        None => 1,
    }
}

/// The fragment that a chunk holds for `track_id`.
fn fragment_of(chunk: &Chunk, track_id: u32) -> (found: Option<&TrackFragment>)
    ensures
        match found {
            Some(fragment) => find_fragment(chunk@.moof.trafs, track_id) == Some(fragment@),
            None => find_fragment(chunk@.moof.trafs, track_id) is None,
        },
{
    match find_traf(&chunk.moof.trafs, track_id) {
        Some(i) => Some(&chunk.moof.trafs[i]),
        None => None,
    }
}

/// The samples that a chunk holds for `track_id`.
fn samples_of(chunk: &Chunk, track_id: u32) -> (count: u32)
    ensures
        count == slot_samples(find_fragment(chunk@.moof.trafs, track_id)),
{
    match fragment_of(chunk, track_id) {
        Some(fragment) => match &fragment.run {
            Some(run) => run.sample_count,
            None => 0,
        },
        None => 0,
    }
}

impl MediaSegment {
    /// The lane of `track_id` through this segment.
    pub open spec fn lane(&self, track_id: u32) -> Seq<Slot> {
        segment_lane(self@.chunks, track_id)
    }

    /// Time-to-sample table: one entry for each chunk, as
    /// [`stts_table`] says.
    pub fn stts_entries(&self, track_id: u32, default: u32) -> (entries: Vec<SttsEntry>)
        ensures
            entries@ == stts_table(self.lane(track_id), default),
    {
        let ghost lane = self.lane(track_id);
        let mut entries: Vec<SttsEntry> = Vec::new();
        let mut i: usize = 0;
        while i < self.chunks.len()
            invariant
                i <= self.chunks.len(),
                lane == self.lane(track_id),
                entries@.len() == i,
                forall|k: int| 0 <= k < i ==> entries@[k] == stts_entry(#[trigger] lane[k], default),
            decreases self.chunks.len() - i,
        {
            assert(lane[i as int] == find_fragment(self.chunks@[i as int]@.moof.trafs, track_id));
            let entry = match fragment_of(&self.chunks[i], track_id) {
                Some(fragment) => SttsEntry {
                    sample_count: match &fragment.run {
                        Some(run) => run.sample_count,
                        None => 0,
                    },
                    sample_delta: match fragment.default_sample_duration {
                        Some(duration) => duration,
                        None => default,
                    },
                },
                None => SttsEntry { sample_count: 0, sample_delta: 0 },
            };
            entries.push(entry);
            i += 1;
        }
        assert(entries@ =~= stts_table(lane, default));
        entries
    }

    /// Sample-to-chunk table: the entries of the segment and the counters
    /// behind it, as [`stsc_table`] says. The counters start at the offsets
    /// given, or at 1.
    pub fn stsc_entries(
        &self,
        track_id: u32,
        default: u32,
        chunk_offset: Option<u32>,
        sample_offset: Option<u32>,
    ) -> (r: (Vec<StscEntry>, u32, u32))
        requires
            counters_fit(
                self.lane(track_id),
                counter_from(chunk_offset),
                counter_from(sample_offset),
            ),
        ensures
            ({
                let state = stsc_table(
                    self.lane(track_id),
                    default,
                    counter_from(chunk_offset),
                    counter_from(sample_offset),
                );
                &&& r.0@ == state.entries
                &&& r.1 == state.chunk
                &&& r.2 == state.sample
            }),
    {
        let ghost lane = self.lane(track_id);
        let chunk: u32 = match chunk_offset {
            Some(n) => n,
            None => 1,
        };
        let sample: u32 = match sample_offset {
            Some(n) => n,
            None => 1,
        };
        let mut entries: Vec<StscEntry> = Vec::new();
        let mut chunk_count: u32 = chunk;
        let mut sample_count: u32 = sample;
        let mut i: usize = 0;
        while i < self.chunks.len()
            invariant
                i <= self.chunks.len(),
                lane == self.lane(track_id),
                counters_fit(lane, chunk as int, sample as int),
                entries@ == stsc_table(lane.take(i as int), default, chunk as int, sample as int).entries,
                chunk_count == chunk + i,
                sample_count == sample + lane_samples(lane.take(i as int)),
            decreases self.chunks.len() - i,
        {
            proof {
                assert(lane.take(i + 1).drop_last() =~= lane.take(i as int));
                assert(lane[i as int] == find_fragment(
                    self.chunks@[i as int]@.moof.trafs,
                    track_id,
                ));
                lemma_stsc_counters(lane.take(i as int), default, chunk as int, sample as int);
                lemma_lane_prefix(lane, i + 1);
            }
            let mut samples: u32 = 0;
            if let Some(fragment) = fragment_of(&self.chunks[i], track_id) {
                if let Some(run) = &fragment.run {
                    let description: u32 = match fragment.sample_description_index {
                        Some(index) => index,
                        None => default,
                    };
                    let merged = entries.len() > 0 && entries[entries.len()
                        - 1].samples_per_chunk == run.sample_count && entries[entries.len()
                        - 1].sample_description_index == description;
                    if !merged {
                        entries.push(
                            StscEntry {
                                first_chunk: chunk_count,
                                samples_per_chunk: run.sample_count,
                                sample_description_index: description,
                                first_sample: sample_count,
                            },
                        );
                    }
                    samples = run.sample_count;
                }
            }
            assert(samples == slot_samples(lane[i as int]));
            chunk_count = chunk_count + 1;
            sample_count = sample_count + samples;
            i += 1;
        }
        proof {
            assert(lane.take(i as int) =~= lane);
            lemma_stsc_counters(lane, default, chunk as int, sample as int);
        }
        (entries, chunk_count, sample_count)
    }

    /// Whether [`MediaSegment::stsc_entries`] can count this segment from
    /// these offsets within 32 bits.
    pub fn counters_fit(
        &self,
        track_id: u32,
        chunk_offset: Option<u32>,
        sample_offset: Option<u32>,
    ) -> (fit: bool)
        ensures
            fit == counters_fit(
                self.lane(track_id),
                counter_from(chunk_offset),
                counter_from(sample_offset),
            ),
    {
        let ghost lane = self.lane(track_id);
        let chunk: u32 = match chunk_offset {
            Some(n) => n,
            None => 1,
        };
        let sample: u32 = match sample_offset {
            Some(n) => n,
            None => 1,
        };
        if self.chunks.len() > (u32::MAX - chunk) as usize {
            return false;
        }
        let mut total: u32 = sample;
        let mut i: usize = 0;
        while i < self.chunks.len()
            invariant
                i <= self.chunks.len(),
                lane == self.lane(track_id),
                chunk == counter_from(chunk_offset),
                sample == counter_from(sample_offset),
                chunk + self.chunks.len() <= u32::MAX,
                total == sample + lane_samples(lane.take(i as int)),
            decreases self.chunks.len() - i,
        {
            let count: u32 = samples_of(&self.chunks[i], track_id);
            assert(lane[i as int] == find_fragment(self.chunks@[i as int]@.moof.trafs, track_id));
            assert(lane.take(i + 1).drop_last() =~= lane.take(i as int));
            assert(lane.take(i + 1).last() == lane[i as int]);
            assert(lane_samples(lane.take(i + 1)) == lane_samples(lane.take(i as int)) + count);
            if count > u32::MAX - total {
                proof {
                    lemma_lane_prefix(lane, i + 1);
                }
                return false;
            }
            total = total + count;
            i += 1;
        }
        assert(lane.take(i as int) =~= lane);
        true
    }

    /// Sample size table: the sizes of the samples, chunk by chunk, as
    /// [`stsz_table`] says.
    pub fn stsz_entries(&self, track_id: u32, default: u32) -> (sizes: Vec<u32>)
        ensures
            sizes@ == stsz_table(self.lane(track_id), default),
    {
        let ghost lane = self.lane(track_id);
        let mut sizes: Vec<u32> = Vec::new();
        let mut i: usize = 0;
        while i < self.chunks.len()
            invariant
                i <= self.chunks.len(),
                lane == self.lane(track_id),
                sizes@ == stsz_table(lane.take(i as int), default),
            decreases self.chunks.len() - i,
        {
            let ghost before = sizes@;
            assert(lane[i as int] == find_fragment(self.chunks@[i as int]@.moof.trafs, track_id));
            if let Some(fragment) = fragment_of(&self.chunks[i], track_id) {
                if let Some(run) = &fragment.run {
                    if run.sample_sizes.len() > 0 {
                        push_sizes(&mut sizes, &run.sample_sizes);
                    } else {
                        let size: u32 = match fragment.default_sample_size {
                            Some(size) => size,
                            None => default,
                        };
                        let mut j: u32 = 0;
                        while j < run.sample_count
                            invariant
                                j <= run.sample_count,
                                sizes@ == before + Seq::new(j as nat, |k: int| size),
                            decreases run.sample_count - j,
                        {
                            sizes.push(size);
                            assert(Seq::new((j + 1) as nat, |k: int| size) =~= Seq::new(
                                j as nat,
                                |k: int| size,
                            ).push(size));
                            j += 1;
                        }
                        assert(Seq::new(run.sample_count as nat, |k: int| size) =~= slot_sizes(
                            lane[i as int],
                            default,
                        ));
                    }
                }
            }
            assert(sizes@ =~= before + slot_sizes(lane[i as int], default));
            assert(lane.take(i + 1).drop_last() =~= lane.take(i as int));
            i += 1;
        }
        assert(lane.take(i as int) =~= lane);
        sizes
    }

    /// The size of the chunks as they are written, or nothing where they
    /// cannot be written or the size does not fit 64 bits.
    pub fn checked_size(&self) -> (size: Option<u64>)
        ensures
            match size {
                Some(n) => chunks_bytes(self@.chunks, self@.chunks.len() as int) matches Ok(bytes)
                    && n == bytes.len(),
                None => chunks_bytes(self@.chunks, self@.chunks.len() as int) matches Ok(bytes)
                    ==> bytes.len() > u64::MAX,
            },
    {
        let ghost views = self@.chunks;
        let mut total: u64 = 0;
        let mut i: usize = 0;
        while i < self.chunks.len()
            invariant
                i <= self.chunks.len(),
                views == chunk_views(self.chunks@),
                chunks_bytes(views, i as int) matches Ok(bytes) && total == bytes.len(),
            decreases self.chunks.len() - i,
        {
            assert(views[i as int] == self.chunks@[i as int]@);
            let moof: u64 = self.chunks[i].moof.bytes.len() as u64;
            let payload: u64 = self.chunks[i].mdat.len() as u64;
            if payload > u64::MAX - 16 {
                proof {
                    lemma_chunks_bytes_fails(views, i + 1, views.len() as int);
                }
                return None;
            }
            proof {
                lemma_header_bytes_len(MDAT, payload_box_size(payload as nat));
            }
            let header: u64 = if 8 + payload > u32::MAX as u64 {
                16
            } else {
                8
            };
            let left: u64 = u64::MAX - total;
            if moof > left || header > left - moof || payload > left - moof - header {
                proof {
                    lemma_chunks_len_grows(views, i + 1, views.len() as int);
                }
                return None;
            }
            total = total + moof + header + payload;
            i += 1;
        }
        Some(total)
    }

    /// The size of the chunks as they are written: for each, the
    /// movie-fragment box, the header of the payload box and the payload.
    pub fn get_size(&self) -> (size: u64)
        requires
            chunks_bytes(self@.chunks, self@.chunks.len() as int) matches Ok(bytes) && bytes.len()
                <= u64::MAX,
        ensures
            size == chunks_bytes(self@.chunks, self@.chunks.len() as int)->Ok_0.len(),
    {
        match self.checked_size() {
            Some(size) => size,
            None => 0,
        }
    }
}

/// Appends the sizes of `from`.
fn push_sizes(out: &mut Vec<u32>, from: &Vec<u32>)
    ensures
        final(out)@ == old(out)@ + from@,
{
    let mut i: usize = 0;
    while i < from.len()
        invariant
            i <= from.len(),
            out@ == old(out)@ + from@.take(i as int),
        decreases from.len() - i,
    {
        out.push(from[i]);
        assert(from@.take(i + 1) =~= from@.take(i as int).push(from@[i as int]));
        i += 1;
    }
    assert(from@.take(i as int) =~= from@);
}

/// The bytes of more chunks are no fewer, where they can be written.
pub proof fn lemma_chunks_len_grows(chunks: Seq<ChunkView>, n: int, m: int)
    requires
        0 <= n <= m,
        chunks_bytes(chunks, n) is Ok,
    ensures
        chunks_bytes(chunks, m) matches Ok(bytes) ==> bytes.len() >= chunks_bytes(
            chunks,
            n,
        )->Ok_0.len(),
    decreases m - n,
{
    if n < m {
        lemma_chunks_len_grows(chunks, n, m - 1);
    }
}

} // verus!
