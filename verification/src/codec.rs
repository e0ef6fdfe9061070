//! Frames of interleaved samples and the codecs that produce and consume
//! them.

pub mod flac;
pub mod frame;
pub mod pcm;
pub mod wav;
pub mod wav_sink;

pub use frame::Frame;
pub use pcm::{pack_pcm, unpack_pcm};
