//! Boxes within boxes: whether the boxes inside a box lie one behind the
//! other and fill it.
//!
//! The box codec walks the boxes inside a movie box or a movie-fragment box
//! by the sizes that they declare, and goes into some of them. Only where
//! the boxes that it walks tile the box that holds them is the walk sure to
//! end, so only such a box is handed to the codec.

use vstd::prelude::*;
use crate::bytes::{
    be_u32_value, header_at, lemma_header_at_bounds, read_be_u32, HeaderView, MOOF, MOOV,
};
use crate::codec::read_header;

verus! {

/// Type code of the movie-extends box, `mvex`.
pub const MVEX: u32 = 0x6d76_6578;

/// Type code of the track box, `trak`.
pub const TRAK: u32 = 0x7472_616b;

/// Type code of the media box, `mdia`.
pub const MDIA: u32 = 0x6d64_6961;

/// Type code of the media-information box, `minf`.
pub const MINF: u32 = 0x6d69_6e66;

/// Type code of the data-information box, `dinf`.
pub const DINF: u32 = 0x6469_6e66;

/// Type code of the sample-table box, `stbl`.
pub const STBL: u32 = 0x7374_626c;

/// Type code of the user-data box, `udta`.
pub const UDTA: u32 = 0x7564_7461;

/// Type code of the metadata box, `meta`.
pub const META: u32 = 0x6d65_7461;

/// Type code of the handler box, `hdlr`.
pub const HDLR: u32 = 0x6864_6c72;

/// Type code of the metadata item list, `ilst`.
pub const ILST: u32 = 0x696c_7374;

/// Type code of the title item of a metadata item list.
pub const NAME: u32 = 0xa96e_616d;

/// Type code of the year item of a metadata item list.
pub const DAY: u32 = 0xa964_6179;

/// Type code of the cover item of a metadata item list, `covr`.
pub const COVR: u32 = 0x636f_7672;

/// Type code of the description item of a metadata item list, `desc`.
pub const DESC: u32 = 0x6465_7363;

/// Type code of the value of a metadata item, `data`.
pub const DATA: u32 = 0x6461_7461;

/// Type code of the track-fragment box, `traf`.
pub const TRAF: u32 = 0x7472_6166;

/// Type code of the data-reference box, `dref`.
pub const DREF: u32 = 0x6472_6566;

/// Whether a box of this type is an item of a metadata item list.
pub open spec fn is_item(name: u32) -> bool {
    name == NAME || name == DAY || name == COVR || name == DESC
}

/// Whether the codec, reading a box of type `parent`, reads what lies inside
/// a box of type `child` that it finds there. A box of any other type it
/// passes over, or reads as a whole.
pub open spec fn walks(parent: u32, child: u32) -> bool {
    if parent == MOOV {
        child == META || child == MVEX || child == TRAK || child == UDTA
    } else if parent == TRAK {
        child == META || child == MDIA
    } else if parent == MDIA {
        child == MINF
    } else if parent == MINF {
        child == DINF || child == STBL
    } else if parent == DINF {
        child == DREF
    } else if parent == UDTA {
        child == META
    } else if parent == META {
        child == ILST
    } else if parent == ILST {
        is_item(child)
    } else if is_item(parent) {
        child == DATA
    } else if parent == MOOF {
        child == TRAF
    } else {
        false
    }
}

/// Where the boxes inside a metadata box start, whose content starts at
/// `from`: behind four bytes of version and flags where these are zero; at
/// `from` where they are not and a handler box seems to start there; or
/// nowhere, where neither is so or the bytes end before.
pub open spec fn meta_children(bytes: Seq<u8>, from: int) -> Option<int> {
    if from < 0 || from + 4 > bytes.len() {
        None
    } else if be_u32_value(bytes.subrange(from, from + 4)) == 0 {
        Some(from + 4)
    } else if from + 8 > bytes.len() {
        None
    } else if be_u32_value(bytes.subrange(from + 4, from + 8)) == HDLR {
        Some(from)
    } else {
        None
    }
}

/// How deep the codec reads boxes within boxes: from a movie box through a
/// track box, a media box, a media-information box and a data-information
/// box into a data-reference box.
pub const MAX_DEPTH: u32 = 6;

/// Whether the content of a box of type `name` that the codec reads, which
/// lies from `from` to `end`, is made of boxes that tile it, to the depth
/// `depth`: a data box has at least 16 bytes with its header; in a
/// data-reference box the boxes tile what lies behind its version and its
/// count; in a metadata box they tile what [`meta_children`] says, and of a
/// metadata box that the codec refuses at its start nothing is asked; in
/// any other box they tile the content.
pub open spec fn box_tiled(bytes: Seq<u8>, name: u32, from: int, end: int, depth: nat) -> bool
    decreases depth, end - from, 1int,
{
    if name == DATA {
        end - from >= 8
    } else if name == DREF {
        depth > 0 && from + 8 <= end && children_tiled(
            bytes,
            name,
            from + 8,
            end,
            (depth - 1) as nat,
        )
    } else if name == META {
        match meta_children(bytes, from) {
            Some(at) => depth > 0 && from <= at <= end && children_tiled(
                bytes,
                name,
                at,
                end,
                (depth - 1) as nat,
            ),
            None => true,
        }
    } else {
        depth > 0 && children_tiled(bytes, name, from, end, (depth - 1) as nat)
    }
}

/// Whether boxes tile the bytes from `at` to `end` inside a box of type
/// `parent`: one box starts at `at` with a header that can be read, it
/// declares at least 8 bytes and ends at or before `end`, its own content
/// is tiled as [`box_tiled`] says where the codec reads it, and boxes tile
/// what is left behind it; or nothing is left.
pub open spec fn children_tiled(bytes: Seq<u8>, parent: u32, at: int, end: int, depth: nat) -> bool
    decreases depth, end - at, 0int,
{
    if at >= end {
        at == end
    } else {
        match header_at(bytes, at) {
            None => false,
            Some(h) => {
                proof {
                    lemma_header_at_bounds(bytes, at);
                }
                let stop = h.next - 8 + h.size;
                h.size >= 8 && stop <= end && (walks(parent, h.name) ==> box_tiled(
                    bytes,
                    h.name,
                    h.next,
                    stop,
                    depth,
                )) && children_tiled(bytes, parent, stop, end, depth)
            },
        }
    }
}

/// Whether a movie box or a movie-fragment box, given from eight bytes
/// before its content to its end, can be handed to the codec: it has more
/// than 8 bytes, and the boxes inside tile it.
pub open spec fn decodable(boxed: Seq<u8>, name: u32) -> bool {
    boxed.len() > 8 && box_tiled(boxed, name, 8, boxed.len() as int, MAX_DEPTH as nat)
}

/// The header at `at`: its type, its size and the position of the box's
/// content, or the error of reading where there is none.
pub(crate) fn next_header(bytes: &[u8], at: usize) -> (r: Result<(u32, u64, usize), mp4::Error>)
    ensures
        match r {
            Ok(h) => {
                &&& header_at(bytes@, at as int) == Some(
                    HeaderView { name: h.0, size: h.1, next: h.2 as int },
                )
                &&& at + 8 <= h.2 <= bytes@.len()
                &&& h.2 == at + 8 || h.2 == at + 16
                &&& h.2 == at + 16 ==> h.1 == 0 || h.1 >= 8
                &&& h.2 == at + 8 ==> h.1 != 1
            },
            Err(_) => header_at(bytes@, at as int) is None,
        },
{
    let r = read_header(bytes, at);
    proof {
        if r is Ok {
            lemma_header_at_bounds(bytes@, at as int);
        }
    }
    r
}

/// Tests [`is_item`].
fn item(name: u32) -> (b: bool)
    ensures
        b == is_item(name),
{
    name == NAME || name == DAY || name == COVR || name == DESC
}

/// Tests [`walks`].
pub fn walked(parent: u32, child: u32) -> (b: bool)
    ensures
        b == walks(parent, child),
{
    if parent == MOOV {
        child == META || child == MVEX || child == TRAK || child == UDTA
    } else if parent == TRAK {
        child == META || child == MDIA
    } else if parent == MDIA {
        child == MINF
    } else if parent == MINF {
        child == DINF || child == STBL
    } else if parent == DINF {
        child == DREF
    } else if parent == UDTA {
        child == META
    } else if parent == META {
        child == ILST
    } else if parent == ILST {
        item(child)
    } else if item(parent) {
        child == DATA
    } else if parent == MOOF {
        child == TRAF
    } else {
        false
    }
}

/// Tests [`box_tiled`].
pub fn check_box(bytes: &[u8], name: u32, from: usize, end: usize, depth: u32) -> (tiled: bool)
    requires
        from <= end <= bytes@.len(),
    ensures
        tiled == box_tiled(bytes@, name, from as int, end as int, depth as nat),
    decreases depth, end - from, 1int,
{
    if name == DATA {
        end - from >= 8
    } else if name == DREF {
        depth > 0 && end - from >= 8 && check_children(bytes, name, from + 8, end, depth - 1)
    } else if name == META {
        if bytes.len() - from < 4 {
            true
        } else if read_be_u32(bytes, from) == 0 {
            depth > 0 && from + 4 <= end && check_children(bytes, name, from + 4, end, depth - 1)
        } else if bytes.len() - from < 8 {
            true
        } else if read_be_u32(bytes, from + 4) == HDLR {
            depth > 0 && check_children(bytes, name, from, end, depth - 1)
        } else {
            true
        }
    } else {
        depth > 0 && check_children(bytes, name, from, end, depth - 1)
    }
}

/// Tests [`children_tiled`].
pub fn check_children(bytes: &[u8], parent: u32, at: usize, end: usize, depth: u32) -> (tiled: bool)
    requires
        at <= end <= bytes@.len(),
    ensures
        tiled == children_tiled(bytes@, parent, at as int, end as int, depth as nat),
    decreases depth, end - at, 0int,
{
    let mut pos: usize = at;
    while pos < end
        invariant
            at <= pos <= end <= bytes@.len(),
            children_tiled(bytes@, parent, at as int, end as int, depth as nat) == children_tiled(
                bytes@,
                parent,
                pos as int,
                end as int,
                depth as nat,
            ),
        decreases end - pos,
    {
        match next_header(bytes, pos) {
            Err(_) => {
                return false;
            },
            Ok((name, size, next)) => {
                if size < 8 || next > end || size - 8 > (end - next) as u64 {
                    return false;
                }
                let stop: usize = next + (size - 8) as usize;
                if walked(parent, name) && !check_box(bytes, name, next, stop, depth) {
                    return false;
                }
                pos = stop;
            },
        }
    }
    true
}

/// Tests [`decodable`].
pub fn check_decodable(boxed: &[u8], name: u32) -> (b: bool)
    ensures
        b == decodable(boxed@, name),
{
    boxed.len() > 8 && check_box(boxed, name, 8, boxed.len(), MAX_DEPTH)
}

} // verus!
