//! Lossless transcoding of PCM audio between container formats.
//!
//! Audio moves through the library as a stream of [`codec::Frame`]s: a source
//! stage turns a container into frames, a sink stage turns frames into a
//! container.
//!
//! - [`codec::pcm`] converts between packed bytes and interleaved samples.
//! - [`codec::wav`] reads the raw-PCM container; [`codec::wav_sink`] writes
//!   it, one frame at a time.
//! - [`codec::flac`] stands between frames and a codec library that works on
//!   blocks.
//! - [`pipeline`] holds the rule by which the outcomes of the two stages
//!   become the outcome of the transcode, and the whole pipeline on a
//!   container held in memory.
//! - [`endian`] places numbers in byte buffers.

pub mod codec;
pub mod endian;
pub mod error;
pub mod pipeline;
