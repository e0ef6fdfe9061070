//! The ways in which a stage of the transcoder can fail.

use vstd::prelude::*;

verus! {

/// Why a stage, and with it the whole transcode, stopped.
#[derive(Clone, Copy, Debug, PartialEq, Eq, Structural)]
pub enum Error {
    /// The input could not be opened or read, or the output could not be
    /// created.
    OpenError,
    /// The header of a container is truncated or amiss, or a header cannot
    /// hold what it would have to record.
    MalformedContainer,
    /// The sample codec was asked for a bit depth other than 8, 16, 24 or 32.
    UnsupportedBitDepth,
    /// Writing to the output failed.
    WriteError,
    /// The output cannot be repositioned, so the size fields cannot be patched.
    NotSeekable,
    /// The peer stage went away before the stream was complete.
    ChannelBroken,
}

} // verus!
