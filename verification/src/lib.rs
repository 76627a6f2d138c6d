//! Reading of ICY metadata interleaved in internet-radio byte streams.
//!
//! An ICY stream carries, every `interval` audio bytes, a length-prefixed
//! metadata frame. This crate demultiplexes the frames from the audio
//! payload, decodes each frame's `Key='Value';` record into a structured
//! value, and supports seeking in terms of audio-only offsets.

pub mod error;
pub mod headers;
pub mod metadata;
pub mod parse;
pub mod reader;
pub mod source;
pub mod stream_model;
pub mod text;
