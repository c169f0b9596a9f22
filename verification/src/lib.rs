//! Decoder for df2 waveform files, the capture format of an airborne LiDAR
//! sensor.
//!
//! A df2 stream is a run of shot records stored back to back with no index.
//! Each record holds the outgoing laser pulse and the echo segments that came
//! back. Every function of this crate is verified against a mathematical
//! description of that byte layout.

pub mod encoding;
pub mod error;
pub mod layout;
pub mod reader;
pub mod segment;
pub mod shot;
pub mod source;
pub mod stream;

pub use error::Error;
pub use reader::Reader;
pub use segment::Segment;
pub use shot::Shot;
pub use source::ByteSource;
