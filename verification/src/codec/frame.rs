//! The frame: the unit of audio that moves from a source stage to a sink
//! stage, and where a sink stands in a stream of frames.

use vstd::prelude::*;

use crate::codec::pcm::{sample_in_range, supported_depth};

verus! {

/// A block of interleaved samples, or the marker that ends a stream.
///
/// Sample `i` belongs to channel `i % channels`. The frame with `eof` set is
/// the last of its stream.
#[derive(Clone, Debug, PartialEq, Eq)]
pub struct Frame {
    /// The number of interleaved channels.
    pub channels: usize,
    /// Samples per second and channel.
    pub sample_rate: usize,
    /// The bit depth of every sample: 8, 16, 24 or 32.
    pub bits_per_sample: usize,
    /// The samples, channel after channel, time step after time step.
    pub samples: Vec<i32>,
    /// Whether this frame ends the stream.
    pub eof: bool,
}

/// Where a sink stands in its stream.
#[derive(Clone, Copy, Debug, PartialEq, Eq, Structural)]
pub enum SinkPhase {
    /// No frame has arrived; the format is not known yet.
    AwaitingFirst,
    /// The first frame has fixed the format and frames are being taken.
    Streaming,
    /// The frame that ends the stream has arrived.
    Finished,
    /// The stream was refused or broke off.
    Failed,
}

/// A frame as a mathematical value.
pub struct FrameView {
    pub channels: nat,
    pub sample_rate: nat,
    pub bits_per_sample: nat,
    pub samples: Seq<i32>,
    pub eof: bool,
}

impl View for Frame {
    type V = FrameView;

    open spec fn view(&self) -> FrameView {
        FrameView {
            channels: self.channels as nat,
            sample_rate: self.sample_rate as nat,
            bits_per_sample: self.bits_per_sample as nat,
            samples: self.samples@,
            eof: self.eof,
        }
    }
}

impl FrameView {
    /// What holds of every frame of a stream: at least one channel, a
    /// positive rate, a depth the codec converts, whole time steps only, and
    /// every sample within the range of the depth.
    pub open spec fn wf(self) -> bool {
        &&& self.channels >= 1
        &&& self.sample_rate >= 1
        &&& supported_depth(self.bits_per_sample as int)
        &&& self.samples.len() % self.channels == 0
        &&& forall|i: int|
            0 <= i < self.samples.len() ==> sample_in_range(
                #[trigger] self.samples[i] as int,
                self.bits_per_sample as int,
            )
    }

    /// Whether two frames belong to one stream: the format of a stream does
    /// not change.
    pub open spec fn same_format(self, other: FrameView) -> bool {
        &&& self.channels == other.channels
        &&& self.sample_rate == other.sample_rate
        &&& self.bits_per_sample == other.bits_per_sample
    }
}

impl Frame {
    /// A frame that carries `samples` and does not end the stream.
    pub fn data(channels: usize, sample_rate: usize, bits_per_sample: usize, samples: Vec<i32>) -> (frame:
        Frame)
        ensures
            frame@ == (FrameView {
                channels: channels as nat,
                sample_rate: sample_rate as nat,
                bits_per_sample: bits_per_sample as nat,
                samples: samples@,
                eof: false,
            }),
    {
        Frame { channels, sample_rate, bits_per_sample, samples, eof: false }
    }

    /// The frame that ends a stream. It carries no samples.
    pub fn terminal(channels: usize, sample_rate: usize, bits_per_sample: usize) -> (frame: Frame)
        ensures
            frame@ == (FrameView {
                channels: channels as nat,
                sample_rate: sample_rate as nat,
                bits_per_sample: bits_per_sample as nat,
                samples: Seq::<i32>::empty(),
                eof: true,
            }),
    {
        Frame { channels, sample_rate, bits_per_sample, samples: Vec::new(), eof: true }
    }
}

} // verus!
