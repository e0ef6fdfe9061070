//! The frame side of a codec library that works on blocks: decoded blocks
//! come one buffer per channel and become frames; frames become calls that
//! hand the encoder whole time steps.
//!
//! The library itself is not called from here. What it is given and in what
//! order is decided here; the calls are made by whoever drives the sink.

use vstd::arithmetic::div_mod::{lemma_fundamental_div_mod, lemma_fundamental_div_mod_converse};
use vstd::prelude::*;

use crate::codec::frame::{Frame, FrameView, SinkPhase};
use crate::error::Error;

verus! {

/// The buffers of the channels as mathematical values.
pub open spec fn planes_view(planes: Seq<Vec<i32>>) -> Seq<Seq<i32>> {
    planes.map_values(|p: Vec<i32>| p@)
}

/// The first `block_size` samples of every channel, interleaved: sample `i`
/// of channel `c` is sample `i * channels + c` of the result.
pub open spec fn interleave_spec(planes: Seq<Seq<i32>>, block_size: int) -> Seq<i32> {
    Seq::new(
        (block_size * planes.len()) as nat,
        |k: int| planes[k % (planes.len() as int)][k / (planes.len() as int)],
    )
}

/// Interleaves a block that comes as one buffer per channel.
pub fn interleave(planes: &[Vec<i32>], block_size: usize) -> (samples: Vec<i32>)
    requires
        forall|c: int| 0 <= c < planes@.len() ==> (#[trigger] planes@[c])@.len() >= block_size,
    ensures
        samples@ == interleave_spec(planes_view(planes@), block_size as int),
{
    let channels = planes.len();
    let mut samples: Vec<i32> = Vec::new();
    let mut i: usize = 0;
    while i < block_size
        invariant
            channels == planes@.len(),
            i <= block_size,
            forall|c: int| 0 <= c < planes@.len() ==> (#[trigger] planes@[c])@.len() >= block_size,
            samples@.len() == i * channels,
            forall|k: int|
                0 <= k < samples@.len() ==> #[trigger] samples@[k] == planes@[k % (channels as int)]@[k
                    / (channels as int)],
        decreases block_size - i,
    {
        let mut c: usize = 0;
        while c < channels
            invariant
                channels == planes@.len(),
                i < block_size,
                c <= channels,
                forall|c: int|
                    0 <= c < planes@.len() ==> (#[trigger] planes@[c])@.len() >= block_size,
                samples@.len() == i * channels + c,
                forall|k: int|
                    0 <= k < samples@.len() ==> #[trigger] samples@[k] == planes@[k % (
                    channels as int)]@[k / (channels as int)],
            decreases channels - c,
        {
            proof {
                lemma_fundamental_div_mod_converse(
                    i * channels + c,
                    channels as int,
                    i as int,
                    c as int,
                );
            }
            samples.push(planes[c][i]);
            c += 1;
        }
        proof {
            assert(i * channels + channels == (i + 1) * channels) by (nonlinear_arith);
        }
        i += 1;
    }
    proof {
        assert(samples@ =~= interleave_spec(planes_view(planes@), block_size as int));
    }
    samples
}

/// The frame for a decoded block of `block_size` time steps that comes as one
/// buffer per channel.
pub fn block_frame(
    sample_rate: usize,
    bits_per_sample: usize,
    planes: &[Vec<i32>],
    block_size: usize,
) -> (frame: Frame)
    requires
        forall|c: int| 0 <= c < planes@.len() ==> (#[trigger] planes@[c])@.len() >= block_size,
    ensures
        frame@ == (FrameView {
            channels: planes@.len(),
            sample_rate: sample_rate as nat,
            bits_per_sample: bits_per_sample as nat,
            samples: interleave_spec(planes_view(planes@), block_size as int),
            eof: false,
        }),
{
    Frame::data(planes.len(), sample_rate, bits_per_sample, interleave(planes, block_size))
}

/// An interleaved block holds whole time steps: as many samples as there are
/// channels, `block_size` times.
pub proof fn lemma_interleaved_steps(planes: Seq<Seq<i32>>, block_size: int)
    requires
        0 <= block_size,
        planes.len() > 0,
    ensures
        interleave_spec(planes, block_size).len() == block_size * planes.len(),
        interleave_spec(planes, block_size).len() % planes.len() == 0,
        forall|i: int, c: int|
            0 <= i < block_size && 0 <= c < planes.len() ==> interleave_spec(planes, block_size)[i
                * planes.len() + c] == #[trigger] planes[c][i],
{
    let channels = planes.len() as int;
    assert(0 <= block_size * channels) by (nonlinear_arith)
        requires
            0 <= block_size,
            0 < channels,
    ;
    lemma_fundamental_div_mod_converse(block_size * channels, channels, block_size, 0);
    assert forall|i: int, c: int| 0 <= i < block_size && 0 <= c < planes.len() implies interleave_spec(
        planes,
        block_size,
    )[i * planes.len() + c] == #[trigger] planes[c][i] by {
        lemma_fundamental_div_mod_converse(i * channels + c, channels, i, c);
        assert(0 <= i * channels + c < block_size * channels) by (nonlinear_arith)
            requires
                0 <= i < block_size,
                0 <= c < channels,
        ;
    }
}

/// What the encoder is told of a stream before its first block.
#[derive(Clone, Copy, Debug, PartialEq, Eq, Structural)]
pub struct EncoderSettings {
    pub channels: u32,
    pub bits_per_sample: u32,
    pub sample_rate: u32,
}

/// What the driver of the sink does with the frame it has just handed in.
#[derive(Clone, Copy, Debug, PartialEq, Eq)]
pub struct EncoderStep {
    /// The settings to give the encoder before anything else: on the first
    /// frame of a stream.
    pub configure: Option<EncoderSettings>,
    /// The number of time steps of the frame's samples to encode.
    pub time_steps: u32,
    /// Whether to finish the encoder.
    pub finish: bool,
}

/// The state of the sink as a mathematical value.
pub struct EncoderSinkView {
    pub phase: SinkPhase,
    /// The number of channels of the stream, fixed by its first frame.
    pub channels: nat,
}

impl EncoderSinkView {
    /// The state of a sink that has seen no frame.
    pub open spec fn initial() -> EncoderSinkView {
        EncoderSinkView { phase: SinkPhase::AwaitingFirst, channels: 0 }
    }

    /// What holds in every state that a sink reaches: once the stream runs,
    /// it has at least one channel.
    pub open spec fn wf(self) -> bool {
        &&& self.phase is AwaitingFirst ==> self == EncoderSinkView::initial()
        &&& self.phase is Streaming || self.phase is Finished ==> 1 <= self.channels <= u32::MAX
    }

    /// This state after a failure.
    pub open spec fn failed(self) -> EncoderSinkView {
        EncoderSinkView { phase: SinkPhase::Failed, ..self }
    }
}

/// The settings that the first frame of a stream gives, or the refusal of a
/// stream without channels or with a value that the encoder cannot be told.
pub open spec fn accepted_settings(frame: FrameView) -> Result<EncoderSettings, Error> {
    if frame.channels < 1 || frame.channels > u32::MAX || frame.bits_per_sample > u32::MAX
        || frame.sample_rate > u32::MAX {
        Err(Error::MalformedContainer)
    } else {
        Ok(
            EncoderSettings {
                channels: frame.channels as u32,
                bits_per_sample: frame.bits_per_sample as u32,
                sample_rate: frame.sample_rate as u32,
            },
        )
    }
}

/// A frame arrives at a sink that knows the number of channels.
///
/// The frame that ends the stream finishes the encoder and gives it nothing
/// to encode. Any other frame gives its whole time steps; samples after the
/// last whole time step are left out.
pub open spec fn encoder_stream_next(
    s: EncoderSinkView,
    frame: FrameView,
    configure: Option<EncoderSettings>,
) -> (EncoderSinkView, Result<EncoderStep, Error>) {
    let time_steps = frame.samples.len() as int / s.channels as int;
    if frame.eof {
        (
            EncoderSinkView { phase: SinkPhase::Finished, ..s },
            Ok(EncoderStep { configure, time_steps: 0, finish: true }),
        )
    } else if time_steps > u32::MAX {
        (s.failed(), Err(Error::MalformedContainer))
    } else {
        (
            EncoderSinkView { phase: SinkPhase::Streaming, ..s },
            Ok(EncoderStep { configure, time_steps: time_steps as u32, finish: false }),
        )
    }
}

/// The state after `frame` has arrived in state `s`, and what the driver is
/// to do.
pub open spec fn encoder_next(s: EncoderSinkView, frame: FrameView) -> (
    EncoderSinkView,
    Result<EncoderStep, Error>,
) {
    match s.phase {
        SinkPhase::AwaitingFirst => match accepted_settings(frame) {
            Ok(settings) => {
                let (next, step) = encoder_stream_next(
                    EncoderSinkView { phase: SinkPhase::Streaming, channels: frame.channels },
                    frame,
                    Some(settings),
                );
                if step is Ok {
                    (next, step)
                } else {
                    (s.failed(), step)
                }
            },
            Err(e) => (s.failed(), Err(e)),
        },
        SinkPhase::Streaming => encoder_stream_next(s, frame, None),
        SinkPhase::Finished => (s, Err(Error::ChannelBroken)),
        SinkPhase::Failed => (s, Err(Error::ChannelBroken)),
    }
}

/// The state after the source has gone away in state `s`, and whether that
/// was in order: it is only once the stream has finished.
pub open spec fn encoder_closed(s: EncoderSinkView) -> (EncoderSinkView, Result<(), Error>) {
    match s.phase {
        SinkPhase::Finished => (s, Ok(())),
        _ => (s.failed(), Err(Error::ChannelBroken)),
    }
}

/// The sink stage in front of a block encoder.
pub struct EncoderSink {
    phase: SinkPhase,
    channels: u32,
}

impl View for EncoderSink {
    type V = EncoderSinkView;

    closed spec fn view(&self) -> EncoderSinkView {
        EncoderSinkView { phase: self.phase, channels: self.channels as nat }
    }
}

/// Takes the settings of a stream from its first frame.
fn accept_settings(frame: &Frame) -> (r: Result<EncoderSettings, Error>)
    ensures
        r == accepted_settings(frame@),
{
    if frame.channels < 1 || frame.channels > 0xffff_ffff || frame.bits_per_sample > 0xffff_ffff
        || frame.sample_rate > 0xffff_ffff {
        return Err(Error::MalformedContainer);
    }
    Ok(
        EncoderSettings {
            channels: frame.channels as u32,
            bits_per_sample: frame.bits_per_sample as u32,
            sample_rate: frame.sample_rate as u32,
        },
    )
}

impl EncoderSink {
    #[verifier::type_invariant]
    spec fn inv(self) -> bool {
        self@.wf()
    }

    /// A sink that awaits the first frame of its stream.
    pub fn new() -> (sink: EncoderSink)
        ensures
            sink@ == EncoderSinkView::initial(),
    {
        EncoderSink { phase: SinkPhase::AwaitingFirst, channels: 0 }
    }

    /// Takes the next frame of the stream and says what to tell the encoder.
    ///
    /// On an error the sink has failed, and the encoder is told nothing.
    pub fn on_frame(&mut self, frame: &Frame) -> (r: Result<EncoderStep, Error>)
        ensures
            old(self)@.wf(),
            final(self)@.wf(),
            (final(self)@, r) == encoder_next(old(self)@, frame@),
    {
        proof {
            use_type_invariant(&*self);
        }
        let (channels, configure) = match self.phase {
            SinkPhase::AwaitingFirst => {
                match accept_settings(frame) {
                    Ok(settings) => (settings.channels, Some(settings)),
                    Err(e) => {
                        self.phase = SinkPhase::Failed;
                        return Err(e);
                    },
                }
            },
            SinkPhase::Streaming => (self.channels, None),
            SinkPhase::Finished => {
                return Err(Error::ChannelBroken);
            },
            SinkPhase::Failed => {
                return Err(Error::ChannelBroken);
            },
        };
        if frame.eof {
            *self = EncoderSink { phase: SinkPhase::Finished, channels };
            return Ok(EncoderStep { configure, time_steps: 0, finish: true });
        }
        let time_steps: usize = frame.samples.len() / channels as usize;
        if time_steps > 0xffff_ffff {
            self.phase = SinkPhase::Failed;
            return Err(Error::MalformedContainer);
        }
        *self = EncoderSink { phase: SinkPhase::Streaming, channels };
        Ok(EncoderStep { configure, time_steps: time_steps as u32, finish: false })
    }

    /// Takes notice that the source has gone away.
    ///
    /// That is in order once the stream has finished. Before that the stream
    /// is broken and the sink has failed.
    pub fn on_closed(&mut self) -> (r: Result<(), Error>)
        ensures
            old(self)@.wf(),
            final(self)@.wf(),
            (final(self)@, r) == encoder_closed(old(self)@),
    {
        proof {
            use_type_invariant(&*self);
        }
        match self.phase {
            SinkPhase::Finished => Ok(()),
            _ => {
                self.phase = SinkPhase::Failed;
                Err(Error::ChannelBroken)
            },
        }
    }
}

/// A sink only moves forward. A well-formed state is followed by a
/// well-formed state; a sink that has finished or failed stays as it is; the
/// encoder is given its settings on the first frame of a stream and never
/// again; and it is never given more time steps than the frame holds.
pub proof fn lemma_encoder_moves_forward(s: EncoderSinkView, frame: FrameView)
    requires
        s.wf(),
    ensures
        encoder_next(s, frame).0.wf(),
        !(s.phase is AwaitingFirst || s.phase is Streaming) ==> encoder_next(s, frame).0 == s,
        !(encoder_next(s, frame).0.phase is AwaitingFirst),
        s.phase is Streaming ==> encoder_next(s, frame).0.channels == s.channels,
        encoder_next(s, frame).1 matches Ok(step) ==> {
            &&& step.configure is Some <==> s.phase is AwaitingFirst
            &&& step.finish == frame.eof
            &&& step.time_steps * encoder_next(s, frame).0.channels <= frame.samples.len()
        },
{
    let next = encoder_next(s, frame).0;
    if encoder_next(s, frame).1 is Ok && !frame.eof {
        let channels = next.channels as int;
        let len = frame.samples.len() as int;
        lemma_fundamental_div_mod(len, channels);
        assert((len / channels) * channels == channels * (len / channels)) by (nonlinear_arith);
    }
}

} // verus!
