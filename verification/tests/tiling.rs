use hybrid_mp4::bytes::{MOOF, MOOV};
use hybrid_mp4::tiling::{
    check_box, check_children, check_decodable, walked, DATA, DREF, ILST, MDIA, META, MINF, NAME,
    STBL, TRAF, TRAK, UDTA,
};

fn wrapped(name: &[u8; 4], body: &[u8]) -> Vec<u8> {
    let mut out = Vec::new();
    out.extend_from_slice(&((body.len() as u32 + 8).to_be_bytes()));
    out.extend_from_slice(name);
    out.extend_from_slice(body);
    out
}

#[test]
fn boxes_one_behind_the_other_tile_what_holds_them() {
    let mut bytes = wrapped(b"mvhd", &[0; 10]);
    bytes.extend_from_slice(&wrapped(b"trak", &wrapped(b"tkhd", &[1, 2, 3])));
    bytes.extend_from_slice(&wrapped(b"free", &[]));
    assert!(check_children(&bytes, MOOV, 0, bytes.len(), 1));
    assert!(!check_children(&bytes, MOOV, 0, bytes.len(), 0));
    assert!(!check_children(&bytes, MOOV, 0, bytes.len() - 1, 4));
    assert!(!check_children(&bytes, MOOV, 1, bytes.len(), 4));
    assert!(check_children(&bytes, MOOV, 18, bytes.len(), 4));
    assert!(check_children(&bytes, MOOV, 7, 7, 0));
}

#[test]
fn a_box_is_walked_only_where_the_codec_reads_it() {
    let mut bytes = wrapped(b"mvhd", &[0; 10]);
    bytes.extend_from_slice(&wrapped(b"trak", &[1, 2, 3]));
    assert!(!check_children(&bytes, MOOV, 0, bytes.len(), 4));
    assert!(check_children(&bytes, UDTA, 0, bytes.len(), 4));
    assert!(check_children(&bytes, UDTA, 0, bytes.len(), 0));
    let text = wrapped(b"\xa9nam", &[0, 2, 0x15, 0xc7, b'h', b'i']);
    assert!(check_children(&text, UDTA, 0, text.len(), 0));
    assert!(!check_children(&text, ILST, 0, text.len(), 4));
}

#[test]
fn the_codec_goes_from_a_box_into_some_of_its_boxes() {
    assert!(walked(MOOV, TRAK));
    assert!(walked(MOOV, UDTA));
    assert!(walked(MOOV, META));
    assert!(!walked(MOOV, MOOV));
    assert!(!walked(MOOV, MDIA));
    assert!(walked(TRAK, MDIA));
    assert!(walked(MDIA, MINF));
    assert!(walked(MINF, STBL));
    assert!(!walked(STBL, MINF));
    assert!(walked(UDTA, META));
    assert!(!walked(UDTA, NAME));
    assert!(walked(META, ILST));
    assert!(walked(ILST, NAME));
    assert!(walked(NAME, DATA));
    assert!(!walked(ILST, DATA));
    assert!(walked(MOOF, TRAF));
    assert!(!walked(TRAF, TRAF));
    assert!(!walked(DREF, DATA));
}

#[test]
fn a_box_is_tiled_by_its_boxes_and_a_data_box_by_its_length() {
    let bytes = [1u8, 2, 3, 4, 5, 6, 7, 8, 9];
    assert!(!check_box(&bytes, TRAK, 0, 9, 3));
    assert!(check_box(&bytes, TRAK, 4, 4, 1));
    assert!(!check_box(&bytes, TRAK, 4, 4, 0));
    assert!(check_box(&bytes, DATA, 0, 8, 0));
    assert!(!check_box(&bytes, DATA, 0, 7, 0));
}

#[test]
fn the_boxes_of_a_metadata_box_start_behind_its_version_or_at_a_handler() {
    let mut plain = vec![0, 0, 0, 0];
    plain.extend_from_slice(&wrapped(b"hdlr", &[0; 4]));
    assert!(check_box(&plain, META, 0, plain.len(), 1));
    assert!(!check_box(&plain, META, 0, plain.len(), 0));
    assert!(!check_box(&plain, META, 0, plain.len() - 1, 1));
    let bare = wrapped(b"hdlr", &[0; 4]);
    assert!(check_box(&bare, META, 0, bare.len(), 1));
    assert!(!check_box(&bare, META, 0, bare.len() - 2, 1));
    let other = wrapped(b"abcd", &[0; 4]);
    assert!(check_box(&other, META, 0, other.len(), 0));
    assert!(check_box(&[0, 0, 0], META, 0, 3, 0));
    assert!(check_box(&[0, 0, 0, 1, 0], META, 0, 5, 0));
}

#[test]
fn a_long_header_counts_with_its_box() {
    let mut bytes = vec![0, 0, 0, 1, b'f', b'r', b'e', b'e', 0, 0, 0, 0, 0, 0, 0, 18, 7, 7];
    bytes.extend_from_slice(&wrapped(b"free", &[]));
    assert!(check_children(&bytes, MOOV, 0, bytes.len(), 0));
    bytes[15] = 15;
    assert!(!check_children(&bytes, MOOV, 0, bytes.len(), 0));
}

#[test]
fn a_box_can_be_handed_to_the_codec_when_its_boxes_tile_it() {
    let good = wrapped(b"moov", &wrapped(b"mvhd", &[0; 100]));
    assert!(check_decodable(&good, MOOV));
    assert!(!check_decodable(&wrapped(b"moov", &[]), MOOV));
    assert!(!check_decodable(&wrapped(b"moof", &[0, 0, 0, 0, 0, 0, 0, 0]), MOOF));
    assert!(!check_decodable(&wrapped(b"moof", &[0, 0, 0, 9, 0, 0, 0, 0]), MOOF));
    assert!(check_decodable(&wrapped(b"moof", &[0, 0, 0, 8, 0, 0, 0, 0]), MOOF));
}

#[test]
fn the_boxes_of_a_data_reference_box_start_behind_its_count() {
    let mut bytes = vec![0, 0, 0, 0, 0, 0, 0, 1];
    bytes.extend_from_slice(&wrapped(b"url ", &[0, 0, 0, 1]));
    assert!(check_box(&bytes, DREF, 0, bytes.len(), 1));
    assert!(!check_box(&bytes, DREF, 0, bytes.len(), 0));
    assert!(!check_box(&bytes, DREF, 0, bytes.len() - 1, 1));
    assert!(!check_box(&bytes, DREF, 0, 7, 1));
    assert!(check_box(&bytes, DREF, 0, 8, 1));
}
