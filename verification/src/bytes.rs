//! Big-endian integers and the layout of a box header.

use vstd::prelude::*;

verus! {

/// Type code of the file-type box, `ftyp`.
pub const FTYP: u32 = 0x6674_7970;

/// Type code of the segment-type box, `styp`.
pub const STYP: u32 = 0x7374_7970;

/// Type code of the movie box, `moov`.
pub const MOOV: u32 = 0x6d6f_6f76;

/// Type code of the movie-fragment box, `moof`.
pub const MOOF: u32 = 0x6d6f_6f66;

/// Type code of the media-data box, `mdat`.
pub const MDAT: u32 = 0x6d64_6174;

/// Type code of the free-space box, `free`.
pub const FREE: u32 = 0x6672_6565;

/// The four bytes of `x`, most significant first.
pub open spec fn be_u32_bytes(x: u32) -> Seq<u8> {
    seq![
        (x / 0x100_0000) as u8,
        ((x / 0x1_0000) % 0x100) as u8,
        ((x / 0x100) % 0x100) as u8,
        (x % 0x100) as u8,
    ]
}

/// The number whose four bytes, most significant first, are `s[0..4]`.
pub open spec fn be_u32_value(s: Seq<u8>) -> u32 {
    (s[0] * 0x100_0000 + s[1] * 0x1_0000 + s[2] * 0x100 + s[3]) as u32
}

/// The eight bytes of `x`, most significant first.
pub open spec fn be_u64_bytes(x: u64) -> Seq<u8> {
    be_u32_bytes((x / 0x1_0000_0000) as u32) + be_u32_bytes((x % 0x1_0000_0000) as u32)
}

/// The number whose eight bytes, most significant first, are `s[0..8]`.
pub open spec fn be_u64_value(s: Seq<u8>) -> u64 {
    (be_u32_value(s.subrange(0, 4)) * 0x1_0000_0000 + be_u32_value(s.subrange(4, 8))) as u64
}

/// Reading back the bytes of a 32-bit number gives the number.
pub proof fn lemma_be_u32_value_of_bytes(x: u32)
    ensures
        be_u32_bytes(x).len() == 4,
        be_u32_value(be_u32_bytes(x)) == x,
{
}

/// Reading back the bytes of a 64-bit number gives the number.
pub proof fn lemma_be_u64_value_of_bytes(x: u64)
    ensures
        be_u64_bytes(x).len() == 8,
        be_u64_value(be_u64_bytes(x)) == x,
{
    let hi: u32 = (x / 0x1_0000_0000) as u32;
    let lo: u32 = (x % 0x1_0000_0000) as u32;
    lemma_be_u32_value_of_bytes(hi);
    lemma_be_u32_value_of_bytes(lo);
    assert(be_u64_bytes(x).subrange(0, 4) =~= be_u32_bytes(hi));
    assert(be_u64_bytes(x).subrange(4, 8) =~= be_u32_bytes(lo));
}

/// A box header as it is read: the type code, the size that the box
/// declares counted from eight bytes before its content, and the position of
/// the content.
pub struct HeaderView {
    pub name: u32,
    pub size: u64,
    pub next: int,
}

/// The bytes of a header for a box of type `name` that declares `size` bytes:
/// the compact form where the size fits 32 bits, else the marker `1`, the
/// type and the size in 64 bits.
#[verifier::opaque]
pub open spec fn header_bytes(name: u32, size: int) -> Seq<u8> {
    if size > u32::MAX {
        be_u32_bytes(1) + be_u32_bytes(name) + be_u64_bytes(size as u64)
    } else {
        be_u32_bytes(size as u32) + be_u32_bytes(name)
    }
}

/// The header that starts at `at`, if one can be read there: eight bytes,
/// and eight more where the 32-bit size is the marker `1`. A 64-bit size of
/// 1 to 15 is no header; the size reported for the long form is the 64-bit
/// size less the eight bytes that hold it.
#[verifier::opaque]
pub open spec fn header_at(bytes: Seq<u8>, at: int) -> Option<HeaderView> {
    if at < 0 || at + 8 > bytes.len() {
        None
    } else {
        let size = be_u32_value(bytes.subrange(at, at + 4));
        let name = be_u32_value(bytes.subrange(at + 4, at + 8));
        if size != 1 {
            Some(HeaderView { name, size: size as u64, next: at + 8 })
        } else if at + 16 > bytes.len() {
            None
        } else {
            let large = be_u64_value(bytes.subrange(at + 8, at + 16));
            if large == 0 {
                Some(HeaderView { name, size: 0, next: at + 16 })
            } else if large < 16 {
                None
            } else {
                Some(HeaderView { name, size: (large - 8) as u64, next: at + 16 })
            }
        }
    }
}

/// A compact header that is written and read back gives its type and size.
pub proof fn lemma_header_at_header_bytes(bytes: Seq<u8>, at: int, name: u32, size: int)
    requires
        0 <= at,
        0 <= size <= u32::MAX,
        size != 1,
        at + 8 <= bytes.len(),
        bytes.subrange(at, at + 8) == header_bytes(name, size),
    ensures
        header_at(bytes, at) == Some(HeaderView { name, size: size as u64, next: at + 8 }),
{
    reveal(header_at);
    reveal(header_bytes);
    let h = header_bytes(name, size);
    lemma_be_u32_value_of_bytes(size as u32);
    lemma_be_u32_value_of_bytes(name);
    assert(bytes.subrange(at, at + 4) =~= bytes.subrange(at, at + 8).subrange(0, 4));
    assert(bytes.subrange(at + 4, at + 8) =~= bytes.subrange(at, at + 8).subrange(4, 8));
    assert(h.subrange(0, 4) =~= be_u32_bytes(size as u32));
    assert(h.subrange(4, 8) =~= be_u32_bytes(name));
}

/// A long header that is written and read back gives its type, and its
/// size less the eight bytes that hold the size.
pub proof fn lemma_header_at_long_header_bytes(bytes: Seq<u8>, at: int, name: u32, size: int)
    requires
        0 <= at,
        u32::MAX < size <= u64::MAX,
        at + 16 <= bytes.len(),
        bytes.subrange(at, at + 16) == header_bytes(name, size),
    ensures
        header_at(bytes, at) == Some(
            HeaderView { name, size: (size - 8) as u64, next: at + 16 },
        ),
{
    reveal(header_at);
    reveal(header_bytes);
    let h = header_bytes(name, size);
    lemma_be_u32_value_of_bytes(1);
    lemma_be_u32_value_of_bytes(name);
    lemma_be_u64_value_of_bytes(size as u64);
    assert(bytes.subrange(at, at + 4) =~= bytes.subrange(at, at + 16).subrange(0, 4));
    assert(bytes.subrange(at + 4, at + 8) =~= bytes.subrange(at, at + 16).subrange(4, 8));
    assert(bytes.subrange(at + 8, at + 16) =~= bytes.subrange(at, at + 16).subrange(8, 16));
    assert(h.subrange(0, 4) =~= be_u32_bytes(1));
    assert(h.subrange(4, 8) =~= be_u32_bytes(name));
    assert(h.subrange(8, 16) =~= be_u64_bytes(size as u64));
}

/// A compact header is the size and the type, in four bytes each.
pub proof fn lemma_compact_header_bytes(name: u32, size: int)
    requires
        0 <= size <= u32::MAX,
    ensures
        header_bytes(name, size) == be_u32_bytes(size as u32) + be_u32_bytes(name),
{
    reveal(header_bytes);
}

/// A compact header has 8 bytes, a long one 16.
pub proof fn lemma_header_bytes_len(name: u32, size: int)
    ensures
        header_bytes(name, size).len() == if size > u32::MAX {
            16nat
        } else {
            8nat
        },
{
    reveal(header_bytes);
}

/// A header lies within the bytes, and the content of its box starts 8 or
/// 16 bytes behind the start of the header.
pub proof fn lemma_header_at_bounds(bytes: Seq<u8>, at: int)
    requires
        header_at(bytes, at) is Some,
    ensures
        0 <= at,
        header_at(bytes, at)->0.next == at + 8 || header_at(bytes, at)->0.next == at + 16,
        header_at(bytes, at)->0.next <= bytes.len(),
        header_at(bytes, at)->0.next == at + 16 ==> header_at(bytes, at)->0.size == 0
            || header_at(bytes, at)->0.size >= 8,
        header_at(bytes, at)->0.next == at + 8 ==> header_at(bytes, at)->0.size != 1,
{
    reveal(header_at);
}

/// The number whose bytes, most significant first, are `s[at..at + 4]`.
pub fn read_be_u32(s: &[u8], at: usize) -> (x: u32)
    requires
        at + 4 <= s@.len(),
    ensures
        x == be_u32_value(s@.subrange(at as int, at + 4)),
{
    let b0: u32 = s[at] as u32;
    let b1: u32 = s[at + 1] as u32;
    let b2: u32 = s[at + 2] as u32;
    let b3: u32 = s[at + 3] as u32;
    b0 * 0x100_0000 + b1 * 0x1_0000 + b2 * 0x100 + b3
}

/// Appends the four bytes of `x`, most significant first.
pub fn push_be_u32(out: &mut Vec<u8>, x: u32)
    ensures
        final(out)@ == old(out)@ + be_u32_bytes(x),
{
    out.push((x / 0x100_0000) as u8);
    out.push(((x / 0x1_0000) % 0x100) as u8);
    out.push(((x / 0x100) % 0x100) as u8);
    out.push((x % 0x100) as u8);
    assert(out@ =~= old(out)@ + be_u32_bytes(x));
}

} // verus!
