//! A segment that is written and parsed again is the same segment.

use vstd::prelude::*;
use crate::boxes::{codec_part, is_box, moof_of, moof_well_formed, moov_of, moov_well_formed};
use crate::bytes::{
    be_u32_bytes, header_at, header_bytes, lemma_be_u32_value_of_bytes, lemma_header_at_bounds,
    lemma_header_at_header_bytes, lemma_header_at_long_header_bytes, lemma_header_bytes_len,
    HeaderView, FTYP, MDAT, MOOF, MOOV, STYP,
};
use crate::codec::{brand_box_bytes, brand_bytes, brands_at, brands_decodable};
use crate::error::Failure;
use crate::model::{BrandBoxView, MoovBoxView};
use crate::segment::{
    chunk_bytes, chunks_bytes, chunks_well_formed, empty_brands, initial_bytes, media_bytes,
    parse_initial, parse_media, payload_box_size, scan_initial, scan_media, ChunkView,
    InitialFound, InitialSegment,
    InitialSegmentView, MediaFound, MediaSegment, MediaSegmentView,
};

verus! {

/// Every brand of the box has four bytes, as each four-character code has.
pub open spec fn brands_well_formed(brands: BrandBoxView) -> bool {
    &&& brands.major_brand.len() == 4
    &&& forall|i: int|
        0 <= i < brands.compatible_brands.len() ==> (#[trigger] brands.compatible_brands[i]).len()
            == 4
}

/// No header starts where fewer than 8 bytes are left.
pub proof fn lemma_no_header_at_end(bytes: Seq<u8>, at: int)
    requires
        at + 8 > bytes.len(),
    ensures
        header_at(bytes, at) is None,
{
    reveal(header_at);
}

/// A box that starts with a compact header declaring its own length is
/// found where it stands.
pub proof fn lemma_header_of_box(bytes: Seq<u8>, at: int, name: u32, boxed: Seq<u8>)
    requires
        0 <= at,
        8 <= boxed.len() <= u32::MAX,
        at + boxed.len() <= bytes.len(),
        bytes.subrange(at, at + boxed.len()) == boxed,
        boxed.subrange(0, 8) == header_bytes(name, boxed.len() as int),
    ensures
        header_at(bytes, at) == Some(
            HeaderView { name, size: boxed.len() as u64, next: at + 8 },
        ),
{
    assert(bytes.subrange(at, at + 8) =~= bytes.subrange(at, at + boxed.len()).subrange(0, 8));
    lemma_header_at_header_bytes(bytes, at, name, boxed.len() as int);
}

/// The brands from `from` on take four bytes each, and each stands at its
/// place.
pub proof fn lemma_brand_bytes_layout(brands: Seq<Seq<u8>>, from: int)
    requires
        0 <= from <= brands.len(),
        forall|i: int| 0 <= i < brands.len() ==> (#[trigger] brands[i]).len() == 4,
    ensures
        brand_bytes(brands, from).len() == 4 * (brands.len() - from),
        forall|k: int|
            from <= k < brands.len() ==> #[trigger] brand_bytes(brands, from).subrange(
                4 * (k - from),
                4 * (k - from) + 4,
            ) == brands[k],
    decreases brands.len() - from,
{
    if from < brands.len() {
        lemma_brand_bytes_layout(brands, from + 1);
        let all = brand_bytes(brands, from);
        let rest = brand_bytes(brands, from + 1);
        assert(all == brands[from] + rest);
        assert forall|k: int| from <= k < brands.len() implies #[trigger] all.subrange(
            4 * (k - from),
            4 * (k - from) + 4,
        ) == brands[k] by {
            if k == from {
                assert(all.subrange(0, 4) =~= brands[from]);
            } else {
                assert(rest.subrange(4 * (k - (from + 1)), 4 * (k - (from + 1)) + 4)
                    == brands[k]);
                assert(all.subrange(4 * (k - from), 4 * (k - from) + 4) =~= rest.subrange(
                    4 * (k - (from + 1)),
                    4 * (k - (from + 1)) + 4,
                ));
            }
        }
    }
}

/// A brand box that is written takes 16 bytes and 4 for each compatible
/// brand, starts with a compact header of its type where that fits 32
/// bits, and holds the brands that were written.
pub proof fn lemma_brand_box_round_trip(name: u32, brands: BrandBoxView)
    requires
        brands_well_formed(brands),
        16 + 4 * brands.compatible_brands.len() <= u32::MAX,
    ensures
        brand_box_bytes(name, brands).len() == 16 + 4 * brands.compatible_brands.len(),
        brand_box_bytes(name, brands).subrange(0, 8) == header_bytes(
            name,
            16 + 4 * (brands.compatible_brands.len() as int),
        ),
        brands_decodable(brand_box_bytes(name, brands)),
        brands_at(brand_box_bytes(name, brands)) == brands,
{
    let n = brands.compatible_brands.len() as int;
    let boxed = brand_box_bytes(name, brands);
    let header = header_bytes(name, 16 + 4 * n);
    let tail = brand_bytes(brands.compatible_brands, 0);
    lemma_brand_bytes_layout(brands.compatible_brands, 0);
    lemma_be_u32_value_of_bytes(brands.minor_version);
    lemma_header_bytes_len(name, 16 + 4 * n);
    assert(header.len() == 8);
    assert(boxed.len() == 16 + 4 * n);
    assert(boxed.subrange(0, 8) =~= header);
    assert(boxed.subrange(8, 12) =~= brands.major_brand);
    assert(boxed.subrange(12, 16) =~= be_u32_bytes(brands.minor_version));
    let found = brands_at(boxed);
    assert((boxed.len() - 16) / 4 == n);
    assert forall|i: int| 0 <= i < n implies found.compatible_brands[i]
        == brands.compatible_brands[i] by {
        assert(tail.subrange(4 * (i - 0), 4 * (i - 0) + 4) == brands.compatible_brands[i]);
        assert(boxed.subrange(16 + 4 * i, 20 + 4 * i) =~= tail.subrange(
            4 * (i - 0),
            4 * (i - 0) + 4,
        ));
    }
    assert(found.compatible_brands =~= brands.compatible_brands);
}

/// A header is read the same where the bytes that hold it lie inside other
/// bytes.
pub proof fn lemma_header_embedded(bytes: Seq<u8>, at: int, inner: Seq<u8>)
    requires
        0 <= at,
        at + inner.len() <= bytes.len(),
        bytes.subrange(at, at + inner.len()) == inner,
        header_at(inner, 0) is Some,
    ensures
        header_at(bytes, at) == Some(
            HeaderView {
                name: header_at(inner, 0)->0.name,
                size: header_at(inner, 0)->0.size,
                next: header_at(inner, 0)->0.next + at,
            },
        ),
{
    reveal(header_at);
    assert(inner.len() >= 8);
    assert(bytes.subrange(at, at + 4) =~= inner.subrange(0, 4));
    assert(bytes.subrange(at + 4, at + 8) =~= inner.subrange(4, 8));
    if header_at(inner, 0)->0.next == 16 {
        assert(inner.len() >= 16);
        assert(bytes.subrange(at + 8, at + 16) =~= inner.subrange(8, 16));
    }
}

/// A box of more than 8 bytes that lies inside other bytes is found where
/// it lies, and reaches to where it ends.
proof fn lemma_box_embedded(bytes: Seq<u8>, at: int, inner: Seq<u8>, name: u32)
    requires
        0 <= at,
        at + inner.len() <= bytes.len(),
        bytes.subrange(at, at + inner.len()) == inner,
        is_box(inner, name),
        codec_part(inner).len() > 8,
    ensures
        header_at(bytes, at) is Some,
        header_at(bytes, at)->0.name == name,
        header_at(bytes, at)->0.size > 8,
        header_at(bytes, at)->0.next - 8 + header_at(bytes, at)->0.size == at + inner.len(),
{
    lemma_header_embedded(bytes, at, inner);
    lemma_header_at_bounds(inner, 0);
}

/// Round trip of an initial segment: one with a movie-extends box, whose
/// movie box says what the codec reads in its bytes, as that of every
/// parsed segment does, and which can be written, is written to bytes that
/// parse as the same segment.
pub proof fn lemma_initial_round_trip(segment: InitialSegment)
    requires
        segment.moov.mvex is Some,
        moov_well_formed(segment.moov@),
        initial_bytes(segment@) is Ok,
    ensures
        parse_initial(initial_bytes(segment@)->Ok_0) == Ok::<InitialSegmentView, Failure>(
            segment@,
        ),
{
    let view = segment@;
    assert(brands_well_formed(view.ftyp));
    lemma_brand_box_round_trip(FTYP, view.ftyp);
    lemma_scan_two_boxes(brand_box_bytes(FTYP, view.ftyp), view.ftyp, view.moov);
}

/// A file-type box and a movie box, one behind the other, are found as
/// they stand.
proof fn lemma_scan_two_boxes(ftyp: Seq<u8>, brands: BrandBoxView, moov: MoovBoxView)
    requires
        16 <= ftyp.len() <= u32::MAX,
        ftyp.subrange(0, 8) == header_bytes(FTYP, ftyp.len() as int),
        brands_decodable(ftyp),
        brands_at(ftyp) == brands,
        moov_well_formed(moov),
    ensures
        scan_initial(ftyp + moov.bytes, 0, InitialFound { ftyp: empty_brands(), moov: None })
            == Ok::<InitialFound, Failure>(InitialFound { ftyp: brands, moov: Some(moov) }),
{
    let bytes = ftyp + moov.bytes;
    let first = InitialFound { ftyp: empty_brands(), moov: None };
    let second = InitialFound { ftyp: brands, moov: None };
    let third = InitialFound { ftyp: brands, moov: Some(moov) };
    let middle = ftyp.len() as int;
    let end = bytes.len() as int;
    assert(bytes.subrange(0, middle) =~= ftyp);
    assert(bytes.subrange(middle, end) =~= moov.bytes);
    lemma_header_of_box(bytes, 0, FTYP, ftyp);
    lemma_box_embedded(bytes, middle, moov.bytes, MOOV);
    lemma_no_header_at_end(bytes, end);
    assert(scan_initial(bytes, end, third) == Ok::<InitialFound, Failure>(third));
    assert(scan_initial(bytes, middle, second) == scan_initial(bytes, end, third));
    assert(scan_initial(bytes, 0, first) == scan_initial(bytes, middle, second));
}

/// A chunk whose movie-fragment box says what the codec reads in its bytes
/// and whose payload box can be written.
pub open spec fn chunk_round_trips(chunk: ChunkView) -> bool {
    moof_well_formed(chunk.moof) && payload_box_size(chunk.mdat.len()) <= u64::MAX
}

/// The bytes of the first `n` chunks are there where each of them round
/// trips, and the bytes of more chunks start with them.
pub proof fn lemma_chunks_bytes_prefix(chunks: Seq<ChunkView>, k: int, n: int)
    requires
        0 <= k <= n <= chunks.len(),
        forall|i: int| 0 <= i < chunks.len() ==> chunk_round_trips(#[trigger] chunks[i]),
    ensures
        chunks_bytes(chunks, k) is Ok,
        chunks_bytes(chunks, n) is Ok,
        chunks_bytes(chunks, k)->Ok_0.len() <= chunks_bytes(chunks, n)->Ok_0.len(),
        chunks_bytes(chunks, n)->Ok_0.subrange(0, chunks_bytes(chunks, k)->Ok_0.len() as int)
            == chunks_bytes(chunks, k)->Ok_0,
        k < n ==> chunk_bytes(chunks[k]) is Ok && chunks_bytes(chunks, k)->Ok_0.len()
            + chunk_bytes(chunks[k])->Ok_0.len() <= chunks_bytes(chunks, n)->Ok_0.len()
            && chunks_bytes(chunks, n)->Ok_0.subrange(
            chunks_bytes(chunks, k)->Ok_0.len() as int,
            (chunks_bytes(chunks, k)->Ok_0.len() + chunk_bytes(chunks[k])->Ok_0.len()) as int,
        ) == chunk_bytes(chunks[k])->Ok_0,
    decreases n,
{
    if n == 0 {
        assert(chunks_bytes(chunks, 0)->Ok_0.subrange(0, 0) =~= chunks_bytes(chunks, 0)->Ok_0);
    } else if k == n {
        lemma_chunks_bytes_prefix(chunks, n - 1, n - 1);
        assert(chunk_round_trips(chunks[n - 1]));
        let all = chunks_bytes(chunks, n)->Ok_0;
        assert(all.subrange(0, all.len() as int) =~= all);
    } else {
        lemma_chunks_bytes_prefix(chunks, k, n - 1);
        assert(chunk_round_trips(chunks[n - 1]));
        let before = chunks_bytes(chunks, n - 1)->Ok_0;
        let last = chunk_bytes(chunks[n - 1])->Ok_0;
        let all = chunks_bytes(chunks, n)->Ok_0;
        let head = chunks_bytes(chunks, k)->Ok_0;
        assert(all == before + last);
        assert(all.subrange(0, head.len() as int) =~= before.subrange(0, head.len() as int));
        if k < n - 1 {
            let one = chunk_bytes(chunks[k])->Ok_0;
            assert(all.subrange(head.len() as int, (head.len() + one.len()) as int)
                =~= before.subrange(head.len() as int, (head.len() + one.len()) as int));
        } else {
            assert(head == before);
            assert(all.subrange(head.len() as int, (head.len() + last.len()) as int) =~= last);
        }
    }
}

/// From the start of chunk `k` on, the bytes of a written segment hold the
/// chunks from `k` on.
proof fn lemma_scan_written_chunks(
    bytes: Seq<u8>,
    styp: BrandBoxView,
    head: int,
    chunks: Seq<ChunkView>,
    k: int,
)
    requires
        0 <= k <= chunks.len(),
        0 <= head,
        forall|i: int| 0 <= i < chunks.len() ==> chunk_round_trips(#[trigger] chunks[i]),
        chunks_bytes(chunks, chunks.len() as int) is Ok,
        bytes.len() == head + chunks_bytes(chunks, chunks.len() as int)->Ok_0.len(),
        bytes.subrange(head, bytes.len() as int) == chunks_bytes(
            chunks,
            chunks.len() as int,
        )->Ok_0,
    ensures
        chunks_bytes(chunks, k) is Ok,
        scan_media(
            bytes,
            head + chunks_bytes(chunks, k)->Ok_0.len(),
            MediaFound { styp, chunks: chunks.take(k) },
        ) == Ok::<MediaFound, Failure>(MediaFound { styp, chunks }),
    decreases chunks.len() - k,
{
    let n = chunks.len() as int;
    let all = chunks_bytes(chunks, n)->Ok_0;
    lemma_chunks_bytes_prefix(chunks, k, n);
    let at = head + chunks_bytes(chunks, k)->Ok_0.len();
    let found = MediaFound { styp, chunks: chunks.take(k) };
    if k == n {
        assert(chunks.take(k) =~= chunks);
        lemma_no_header_at_end(bytes, at);
    } else {
        let chunk = chunks[k];
        assert(chunk_round_trips(chunk));
        let moof = chunk.moof.bytes;
        let size = payload_box_size(chunk.mdat.len());
        let header = header_bytes(MDAT, size);
        let one = chunk_bytes(chunk)->Ok_0;
        assert(one == moof + header + chunk.mdat);
        lemma_header_bytes_len(MDAT, size);
        let payload = header + chunk.mdat;
        let end = at + moof.len();
        let stop = end + header.len() + chunk.mdat.len();
        assert(bytes.subrange(at, at + one.len()) =~= all.subrange(at - head, at - head + one.len()));
        assert(bytes.subrange(at, end) =~= moof) by {
            assert(bytes.subrange(at, end) =~= bytes.subrange(at, at + one.len()).subrange(
                0,
                moof.len() as int,
            ));
            assert(one.subrange(0, moof.len() as int) =~= moof);
        }
        assert(bytes.subrange(end, stop) =~= payload) by {
            assert(bytes.subrange(end, stop) =~= bytes.subrange(at, at + one.len()).subrange(
                moof.len() as int,
                one.len() as int,
            ));
            assert(one.subrange(moof.len() as int, one.len() as int) =~= payload);
        }
        assert(payload.subrange(0, header.len() as int) =~= header);
        assert(bytes.subrange(end + header.len(), stop) =~= chunk.mdat) by {
            assert(bytes.subrange(end + header.len(), stop) =~= bytes.subrange(
                end,
                stop,
            ).subrange(header.len() as int, payload.len() as int));
            assert(payload.subrange(header.len() as int, payload.len() as int) =~= chunk.mdat);
        }
        lemma_box_embedded(bytes, at, moof, MOOF);
        if size > u32::MAX {
            assert(bytes.subrange(end, end + 16) =~= bytes.subrange(end, stop).subrange(0, 16));
            lemma_header_at_long_header_bytes(bytes, end, MDAT, size);
        } else {
            lemma_header_of_box(bytes, end, MDAT, payload);
        }
        lemma_scan_written_chunks(bytes, styp, head, chunks, k + 1);
        lemma_chunks_bytes_prefix(chunks, k + 1, n);
        assert(chunks_bytes(chunks, k + 1)->Ok_0 == chunks_bytes(chunks, k)->Ok_0 + one);
        assert(chunks.take(k).push(chunk) =~= chunks.take(k + 1));
        assert(scan_media(bytes, at, found) == scan_media(
            bytes,
            stop,
            MediaFound { styp, chunks: chunks.take(k + 1) },
        ));
    }
}

/// A segment-type box and the chunks behind it are found as they stand.
proof fn lemma_scan_styp_and_chunks(
    styp: Seq<u8>,
    brands: BrandBoxView,
    chunks: Seq<ChunkView>,
)
    requires
        16 <= styp.len() <= u32::MAX,
        styp.subrange(0, 8) == header_bytes(STYP, styp.len() as int),
        brands_decodable(styp),
        brands_at(styp) == brands,
        forall|i: int| 0 <= i < chunks.len() ==> chunk_round_trips(#[trigger] chunks[i]),
    ensures
        chunks_bytes(chunks, chunks.len() as int) is Ok,
        scan_media(
            styp + chunks_bytes(chunks, chunks.len() as int)->Ok_0,
            0,
            MediaFound { styp: empty_brands(), chunks: Seq::empty() },
        ) == Ok::<MediaFound, Failure>(MediaFound { styp: brands, chunks }),
{
    let n = chunks.len() as int;
    lemma_chunks_bytes_prefix(chunks, 0, n);
    let written = chunks_bytes(chunks, n)->Ok_0;
    let bytes = styp + written;
    let head = styp.len() as int;
    assert(bytes.subrange(0, head) =~= styp);
    assert(bytes.subrange(head, bytes.len() as int) =~= written);
    lemma_header_of_box(bytes, 0, STYP, styp);
    lemma_scan_written_chunks(bytes, brands, head, chunks, 0);
    assert(chunks.take(0) =~= Seq::<ChunkView>::empty());
    let first = MediaFound { styp: empty_brands(), chunks: Seq::empty() };
    let second = MediaFound { styp: brands, chunks: Seq::empty() };
    assert(scan_media(bytes, 0, first) == scan_media(bytes, head, second));
}

/// Where the first `n` chunks can be written, each of them can.
pub proof fn lemma_chunks_bytes_each(chunks: Seq<ChunkView>, n: int)
    requires
        0 <= n <= chunks.len(),
        chunks_bytes(chunks, n) is Ok,
    ensures
        forall|i: int| 0 <= i < n ==> chunk_bytes(#[trigger] chunks[i]) is Ok,
    decreases n,
{
    if n > 0 {
        lemma_chunks_bytes_each(chunks, n - 1);
    }
}

/// Round trip of a media segment: one whose movie-fragment boxes say what
/// the codec reads in their bytes, as those of every parsed segment do,
/// and which can be written, is written to bytes that parse as the same
/// segment, payloads included.
pub proof fn lemma_media_round_trip(segment: MediaSegment)
    requires
        chunks_well_formed(segment@.chunks),
        media_bytes(segment@) is Ok,
    ensures
        parse_media(media_bytes(segment@)->Ok_0) == Ok::<MediaSegmentView, Failure>(segment@),
{
    let view = segment@;
    assert(brands_well_formed(view.styp));
    lemma_brand_box_round_trip(STYP, view.styp);
    lemma_chunks_bytes_each(view.chunks, view.chunks.len() as int);
    assert forall|i: int| 0 <= i < view.chunks.len() implies chunk_round_trips(
        #[trigger] view.chunks[i],
    ) by {
        assert(moof_well_formed(view.chunks[i].moof));
        assert(chunk_bytes(view.chunks[i]) is Ok);
    }
    lemma_scan_styp_and_chunks(brand_box_bytes(STYP, view.styp), view.styp, view.chunks);
}

/// What is found of an initial segment has a well-formed movie box where
/// what was found before had one.
proof fn lemma_scan_initial_well_formed(bytes: Seq<u8>, at: int, found: InitialFound)
    requires
        found.moov matches Some(moov) ==> moov_well_formed(moov),
    ensures
        scan_initial(bytes, at, found) matches Ok(last) ==> (last.moov matches Some(moov)
            ==> moov_well_formed(moov)),
    decreases bytes.len() - at,
{
    match header_at(bytes, at) {
        None => {},
        Some(h) => {
            lemma_header_at_bounds(bytes, at);
            let start = h.next - 8;
            let end = start + h.size;
            if h.name == FTYP {
                if !(end > bytes.len() || !brands_decodable(bytes.subrange(start, end))) {
                    lemma_scan_initial_well_formed(
                        bytes,
                        end,
                        InitialFound {
                            ftyp: brands_at(bytes.subrange(start, end)),
                            moov: found.moov,
                        },
                    );
                }
            } else if h.name == MOOV {
                if !(end > bytes.len() || h.size <= 8) {
                    match moov_of(bytes.subrange(at, end)) {
                        Err(_) => {},
                        Ok(moov) => {
                            lemma_scan_initial_well_formed(
                                bytes,
                                end,
                                InitialFound { ftyp: found.ftyp, moov: Some(moov) },
                            );
                        },
                    }
                }
            } else if !(h.size == 0 || end > bytes.len()) {
                lemma_scan_initial_well_formed(bytes, end, found);
            }
        },
    }
}

/// What is found of a media segment has well-formed chunks where what was
/// found before had.
proof fn lemma_scan_media_well_formed(bytes: Seq<u8>, at: int, found: MediaFound)
    requires
        chunks_well_formed(found.chunks),
    ensures
        scan_media(bytes, at, found) matches Ok(last) ==> chunks_well_formed(last.chunks),
    decreases bytes.len() - at,
{
    match header_at(bytes, at) {
        None => {},
        Some(h) => {
            lemma_header_at_bounds(bytes, at);
            let start = h.next - 8;
            let end = start + h.size;
            if h.name == STYP {
                if !(end > bytes.len() || !brands_decodable(bytes.subrange(start, end))) {
                    lemma_scan_media_well_formed(
                        bytes,
                        end,
                        MediaFound {
                            styp: brands_at(bytes.subrange(start, end)),
                            chunks: found.chunks,
                        },
                    );
                }
            } else if h.name == MOOF {
                if !(end > bytes.len() || h.size <= 8) {
                    match moof_of(bytes.subrange(at, end)) {
                        Err(_) => {},
                        Ok(moof) => match header_at(bytes, end) {
                            None => {},
                            Some(m) => {
                                lemma_header_at_bounds(bytes, end);
                                let stop = m.next - 8 + m.size;
                                if m.name == MDAT && m.size >= 8 && stop <= bytes.len() {
                                    let added = ChunkView {
                                        moof,
                                        mdat: bytes.subrange(m.next, stop),
                                    };
                                    let more = found.chunks.push(added);
                                    assert forall|i: int| 0 <= i < more.len() implies moof_well_formed(
                                        (#[trigger] more[i]).moof,
                                    ) by {
                                        if i < found.chunks.len() {
                                            assert(more[i] == found.chunks[i]);
                                        }
                                    }
                                    lemma_scan_media_well_formed(
                                        bytes,
                                        stop,
                                        MediaFound { styp: found.styp, chunks: more },
                                    );
                                }
                            },
                        },
                    }
                }
            } else if !(h.size == 0 || end > bytes.len()) {
                lemma_scan_media_well_formed(bytes, end, found);
            }
        },
    }
}

/// Round trip of what was parsed. An initial segment that was parsed from
/// bytes and can be written is written to bytes that parse as the same
/// segment.
pub proof fn lemma_parsed_initial_round_trip(bytes: Seq<u8>, segment: InitialSegment)
    requires
        parse_initial(bytes) == Ok::<InitialSegmentView, Failure>(segment@),
        initial_bytes(segment@) is Ok,
    ensures
        parse_initial(initial_bytes(segment@)->Ok_0) == Ok::<InitialSegmentView, Failure>(
            segment@,
        ),
{
    lemma_scan_initial_well_formed(
        bytes,
        0,
        InitialFound { ftyp: empty_brands(), moov: None },
    );
    lemma_initial_round_trip(segment);
}

/// Round trip of what was parsed. A media segment that was parsed from
/// bytes and can be written is written to bytes that parse as the same
/// segment, payloads included.
pub proof fn lemma_parsed_media_round_trip(bytes: Seq<u8>, segment: MediaSegment)
    requires
        parse_media(bytes) == Ok::<MediaSegmentView, Failure>(segment@),
        media_bytes(segment@) is Ok,
    ensures
        parse_media(media_bytes(segment@)->Ok_0) == Ok::<MediaSegmentView, Failure>(segment@),
{
    lemma_scan_media_well_formed(
        bytes,
        0,
        MediaFound { styp: empty_brands(), chunks: Seq::empty() },
    );
    lemma_media_round_trip(segment);
}

} // verus!
