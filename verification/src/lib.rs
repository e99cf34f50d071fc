//! Remuxing of fragmented MP4 input into a single seekable MP4 file.
//!
//! An initialization segment and a sequence of media segments, each a list
//! of movie fragments with their payloads, become one file with classic
//! sample tables. The library works on bytes in memory: it parses segments,
//! keeps the tables of each track, and hands out the bytes to write and the
//! positions to write them at.

pub mod boxes;
pub mod bytes;
pub mod codec;
pub mod config;
pub mod error;
pub mod laws;
pub mod model;
pub mod movie;
pub mod round_trip;
pub mod segment;
pub mod tables;
pub mod tiling;
pub mod track;
pub mod writer;

pub use config::FMp4Config;
pub use error::Fmp4ParseError;
pub use model::{
    BrandBox, FourCC, MoofBox, MoovBox, SampleEntry, StscEntry, SttsEntry, TrackExtendData,
    TrackFragment, TrackRun, TrackSource,
};
pub use movie::{Movie, TrackBox};
pub use segment::{Chunk, InitialSegment, MediaSegment, Segment};
pub use track::{MediaBox, TrackBaseData, TrackData};
pub use writer::{FinalBoxes, HybridMp4Writer, Track};
