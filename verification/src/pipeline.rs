//! The pipeline: a source stage and a sink stage that run side by side, and
//! the rule by which their outcomes become the outcome of the transcode.
//!
//! [`Pipeline`] is the state of the orchestrator. Whoever runs the stages
//! tells it when the pipeline starts and when a stage has finished, and reads
//! the outcome from it. [`transcode`] is the whole pipeline on a container
//! held in memory.

use vstd::arithmetic::div_mod::{
    lemma_add_mod_noop, lemma_fundamental_div_mod, lemma_mod_multiples_basic, lemma_small_mod,
};
use vstd::prelude::*;

use crate::codec::frame::FrameView;
use crate::codec::pcm::{
    lemma_pack_layout, lemma_pack_unpack, lemma_unpack_pack, pack_spec, sample_in_range, sample_width,
    supported_depth, unpack_spec,
};
use crate::codec::wav::{
    decode_stream, header_format, header_image, header_ok, lemma_header_reads_back,
    lemma_whole_steps, payload, read_wav, whole_steps, WavFormat, GROUP_OVERHEAD,
};
use crate::codec::wav_sink::{
    accepted_format, encode_stream, first_terminal, lemma_terminal_bounds, samples_before, write_wav,
};
use crate::error::Error;

verus! {

/// One of the two stages of a pipeline.
#[derive(Clone, Copy, Debug, PartialEq, Eq, Structural)]
pub enum Stage {
    /// The stage that reads the input and emits frames.
    Source,
    /// The stage that takes frames and writes the output.
    Sink,
}

/// What the orchestrator is told.
#[derive(Clone, Copy, Debug, PartialEq, Eq)]
pub enum Event {
    /// Both stages have been started.
    Started,
    /// A stage has come to its end, well or with an error.
    Finished(Stage, Result<(), Error>),
}

/// The state of a pipeline. It only moves forward: from `Idle` to `Running`,
/// and from there to `Completed` or `Failed`, where it stays.
#[derive(Clone, Copy, Debug, PartialEq, Eq, Structural)]
pub enum Pipeline {
    /// The stages exist and have not been started.
    Idle,
    /// The stages run; each flag says whether that stage has finished well.
    Running { source_done: bool, sink_done: bool },
    /// Both stages have finished well.
    Completed,
    /// A stage has failed; the error is the first that was reported.
    Failed(Error),
}

impl Pipeline {
    /// Whether the pipeline has come to rest.
    pub open spec fn is_settled(self) -> bool {
        self is Completed || self is Failed
    }

    /// The state that follows `self` on `event`.
    ///
    /// An error of either stage fails a running pipeline at once. The
    /// pipeline completes when both stages have finished well. An event that
    /// does not fit the state changes nothing.
    pub open spec fn next(self, event: Event) -> Pipeline {
        match (self, event) {
            (Pipeline::Idle, Event::Started) => Pipeline::Running {
                source_done: false,
                sink_done: false,
            },
            (Pipeline::Running { .. }, Event::Finished(_, Err(e))) => Pipeline::Failed(e),
            (Pipeline::Running { source_done, sink_done }, Event::Finished(stage, Ok(_))) => {
                let source_done = source_done || stage == Stage::Source;
                let sink_done = sink_done || stage == Stage::Sink;
                if source_done && sink_done {
                    Pipeline::Completed
                } else {
                    Pipeline::Running { source_done, sink_done }
                }
            },
            _ => self,
        }
    }

    /// The state after a sequence of events.
    pub open spec fn after(self, events: Seq<Event>) -> Pipeline
        decreases events.len(),
    {
        if events.len() == 0 {
            self
        } else {
            self.after(events.drop_last()).next(events.last())
        }
    }

    /// What the transcode came to, once the pipeline has come to rest.
    pub open spec fn outcome_spec(self) -> Option<Result<(), Error>> {
        match self {
            Pipeline::Completed => Some(Ok(())),
            Pipeline::Failed(e) => Some(Err(e)),
            _ => None,
        }
    }

    /// A pipeline whose stages have not been started.
    pub fn new() -> (pipeline: Pipeline)
        ensures
            pipeline == Pipeline::Idle,
    {
        Pipeline::Idle
    }

    /// Moves the pipeline on by one event.
    pub fn on_event(&mut self, event: Event)
        ensures
            *final(self) == old(self).next(event),
    {
        let next = match (*self, event) {
            (Pipeline::Idle, Event::Started) => Pipeline::Running {
                source_done: false,
                sink_done: false,
            },
            (Pipeline::Running { .. }, Event::Finished(_, Err(e))) => Pipeline::Failed(e),
            (Pipeline::Running { source_done, sink_done }, Event::Finished(stage, Ok(_))) => {
                let source_done = source_done || stage == Stage::Source;
                let sink_done = sink_done || stage == Stage::Sink;
                if source_done && sink_done {
                    Pipeline::Completed
                } else {
                    Pipeline::Running { source_done, sink_done }
                }
            },
            (state, _) => state,
        };
        *self = next;
    }

    /// What the transcode came to: nothing yet while the pipeline is idle or
    /// running, success once it has completed, the first error once it has
    /// failed.
    pub fn outcome(&self) -> (r: Option<Result<(), Error>>)
        ensures
            r == self.outcome_spec(),
    {
        match *self {
            Pipeline::Completed => Some(Ok(())),
            Pipeline::Failed(e) => Some(Err(e)),
            _ => None,
        }
    }
}

/// A pipeline that has come to rest stays as it is, whatever it is told.
pub proof fn lemma_settled_stays(pipeline: Pipeline, events: Seq<Event>)
    requires
        pipeline.is_settled(),
    ensures
        pipeline.after(events) == pipeline,
    decreases events.len(),
{
    if events.len() > 0 {
        lemma_settled_stays(pipeline, events.drop_last());
    }
}

/// The first error that a stage reports to a running pipeline is the outcome
/// of the transcode; nothing that is reported later masks it.
pub proof fn lemma_first_error_surfaces(pipeline: Pipeline, stage: Stage, e: Error, later: Seq<Event>)
    requires
        pipeline is Running,
    ensures
        pipeline.next(Event::Finished(stage, Err(e))).after(later).outcome_spec() == Some(
            Err::<(), Error>(e),
        ),
{
    lemma_settled_stays(Pipeline::Failed(e), later);
}

/// A pipeline never leaves the path from idle over running to rest: no event
/// takes it back.
pub proof fn lemma_one_way(pipeline: Pipeline, event: Event)
    ensures
        pipeline.is_settled() ==> pipeline.next(event) == pipeline,
        pipeline is Running ==> !(pipeline.next(event) is Idle),
        pipeline.next(event) is Completed && !(pipeline is Completed) ==> pipeline is Running
            && event matches Event::Finished(_, Ok(_)),
{
}

/// Whether `events` holds the report that `stage` finished well.
pub open spec fn reported_done(events: Seq<Event>, stage: Stage) -> bool {
    exists|i: int| 0 <= i < events.len() && #[trigger] events[i] == Event::Finished(stage, Ok(()))
}

/// A pipeline completes only after each stage has reported that it finished
/// well.
pub proof fn lemma_completed_means_both(events: Seq<Event>)
    requires
        Pipeline::Idle.after(events) is Completed,
    ensures
        reported_done(events, Stage::Source),
        reported_done(events, Stage::Sink),
{
    lemma_reports_seen(events);
}

/// While a pipeline runs, each flag stands for a report that was made.
proof fn lemma_reports_seen(events: Seq<Event>)
    ensures
        ({
            let state = Pipeline::Idle.after(events);
            &&& state matches Pipeline::Running { source_done, sink_done } ==> (source_done
                ==> reported_done(events, Stage::Source)) && (sink_done ==> reported_done(
                events,
                Stage::Sink,
            ))
            &&& state is Completed ==> reported_done(events, Stage::Source) && reported_done(
                events,
                Stage::Sink,
            )
        }),
    decreases events.len(),
{
    if events.len() > 0 {
        let front = events.drop_last();
        let last = events.last();
        lemma_reports_seen(front);
        if reported_done(front, Stage::Source) {
            lemma_report_kept(events, Stage::Source);
        }
        if reported_done(front, Stage::Sink) {
            lemma_report_kept(events, Stage::Sink);
        }
        match last {
            Event::Finished(stage, Ok(u)) => {
                assert(events[events.len() - 1] == Event::Finished(stage, Ok(())));
            },
            _ => {},
        }
    }
}

/// A report that was made stays made when another event follows.
proof fn lemma_report_kept(events: Seq<Event>, stage: Stage)
    requires
        events.len() > 0,
        reported_done(events.drop_last(), stage),
    ensures
        reported_done(events, stage),
{
    let front = events.drop_last();
    let i = choose|i: int|
        0 <= i < front.len() && #[trigger] front[i] == Event::Finished(stage, Ok(()));
    assert(events[i] == Event::Finished(stage, Ok(())));
}

/// What transcoding makes of a container: the source stage turns it into
/// frames and the sink stage turns the frames into the new container. The
/// first error ends it.
pub open spec fn transcode_spec(input: Seq<u8>) -> Result<Seq<u8>, Error> {
    match decode_stream(input) {
        Ok(frames) => encode_stream(frames),
        Err(e) => Err(e),
    }
}

/// Transcodes a container held in memory into a new one.
pub fn transcode(input: &[u8]) -> (r: Result<Vec<u8>, Error>)
    ensures
        match r {
            Ok(output) => transcode_spec(input@) == Ok::<Seq<u8>, Error>(output@),
            Err(e) => transcode_spec(input@) == Err::<Seq<u8>, Error>(e),
        },
{
    match read_wav(input) {
        Ok(frames) => write_wav(frames.as_slice()),
        Err(e) => Err(e),
    }
}

/// What the source stage reports to the orchestrator when it is given
/// `input`.
pub open spec fn source_report(input: Seq<u8>) -> Result<(), Error> {
    match decode_stream(input) {
        Ok(_) => Ok(()),
        Err(e) => Err(e),
    }
}

/// What the sink stage reports to the orchestrator when the source stage is
/// given `input`: how the stream ended for it, or that the stream broke off
/// because the source stage had nothing to send.
pub open spec fn sink_report(input: Seq<u8>) -> Result<(), Error> {
    match decode_stream(input) {
        Ok(frames) => match encode_stream(frames) {
            Ok(_) => Ok(()),
            Err(e) => Err(e),
        },
        Err(_) => Err(Error::ChannelBroken),
    }
}

/// The orchestrator comes to the outcome of the transcode: it completes where
/// the transcode gives a container and fails with the error of the transcode
/// where it gives none. A source stage that fails reports before the sink
/// stage can see the channel close; where it does not fail, the order of the
/// two reports makes no difference.
pub proof fn lemma_pipeline_follows_transcode(input: Seq<u8>)
    ensures
        ({
            let outcome: Result<(), Error> = match transcode_spec(input) {
                Ok(_) => Ok(()),
                Err(e) => Err(e),
            };
            let source = Event::Finished(Stage::Source, source_report(input));
            let sink = Event::Finished(Stage::Sink, sink_report(input));
            let running = Pipeline::Idle.next(Event::Started);
            &&& running.next(source).next(sink).outcome_spec() == Some(outcome)
            &&& source_report(input) is Ok ==> running.next(sink).next(source).outcome_spec() == Some(
                outcome,
            )
        }),
{
}

/// Transcoding has one outcome for one input: two pipelines that are given
/// the same container end alike, byte for byte.
pub proof fn lemma_transcode_deterministic(
    input: Seq<u8>,
    first: Result<Seq<u8>, Error>,
    second: Result<Seq<u8>, Error>,
)
    requires
        first == transcode_spec(input),
        second == transcode_spec(input),
    ensures
        first == second,
{
}

/// A container whose header is amiss is refused as malformed, whatever else
/// it holds.
pub proof fn lemma_bad_header_refused(input: Seq<u8>)
    requires
        !header_ok(input),
    ensures
        decode_stream(input) == Err::<Seq<FrameView>, Error>(Error::MalformedContainer),
        transcode_spec(input) == Err::<Seq<u8>, Error>(Error::MalformedContainer),
{
}

/// Transcoding a container gives a container of the same format with the
/// same audio, byte for byte, under a header whose size fields count that
/// audio.
///
/// This holds where the header has room for the byte rate and the block
/// align of the format and for the size of the audio.
pub proof fn lemma_transcode_keeps_audio(input: Seq<u8>)
    requires
        header_ok(input),
        supported_depth(header_format(input).bits_per_sample as int),
        header_format(input).fits(),
        GROUP_OVERHEAD + whole_steps(input).len() <= u32::MAX,
    ensures
        transcode_spec(input) == Ok::<Seq<u8>, Error>(
            header_image(header_format(input), whole_steps(input).len() as int) + whole_steps(input),
        ),
        transcode_spec(input) matches Ok(output) && {
            &&& header_ok(output)
            &&& header_format(output) == header_format(input)
            &&& payload(output) == whole_steps(input)
        },
{
    let format = header_format(input);
    let bits = format.bits_per_sample as int;
    let audio = whole_steps(input);
    let frames = decode_stream(input)->Ok_0;
    lemma_whole_steps(input);
    lemma_pack_unpack(audio, bits);
    assert(accepted_format(frames[0]) == Ok::<WavFormat, Error>(format));
    assert(first_terminal(frames, 0) == 1) by {
        reveal_with_fuel(first_terminal, 3);
    }
    assert(samples_before(frames, 1) =~= frames[0].samples) by {
        reveal_with_fuel(samples_before, 3);
    }
    lemma_header_reads_back(format, audio.len() as int, audio);
}

/// A stream that goes into a container and is read back comes out with its
/// format and its samples intact, and still in whole time steps: the number
/// of samples is a multiple of the number of channels on the way in and on
/// the way out.
///
/// This holds where the frames before the end of the stream are well formed
/// and of one format.
pub proof fn lemma_stream_survives(frames: Seq<FrameView>)
    requires
        encode_stream(frames) is Ok,
        forall|i: int|
            0 <= i < first_terminal(frames, 0) ==> (#[trigger] frames[i]).wf()
                && frames[i].same_format(frames[0]),
    ensures
        decode_stream(encode_stream(frames)->Ok_0) matches Ok(decoded) && {
            &&& decoded.len() == 2
            &&& decoded[0].same_format(frames[0])
            &&& decoded[0].samples == samples_before(frames, first_terminal(frames, 0))
            &&& decoded[0].samples.len() % frames[0].channels == 0
            &&& !decoded[0].eof
            &&& decoded[1].same_format(frames[0])
            &&& decoded[1].samples.len() == 0
            &&& decoded[1].eof
        },
{
    let format = accepted_format(frames[0])->Ok_0;
    let end = first_terminal(frames, 0);
    let samples = samples_before(frames, end);
    lemma_terminal_bounds(frames, 0);
    lemma_gathered_samples(frames, end);
    lemma_image_decodes(format, samples);
}

/// The container of a format and of samples in whole time steps, all in the
/// range of the depth, is read back as that format and those samples.
proof fn lemma_image_decodes(format: WavFormat, samples: Seq<i32>)
    requires
        supported_depth(format.bits_per_sample as int),
        format.fits(),
        samples.len() % (format.channels as nat) == 0,
        forall|k: int|
            0 <= k < samples.len() ==> sample_in_range(
                #[trigger] samples[k] as int,
                format.bits_per_sample as int,
            ),
        GROUP_OVERHEAD + pack_spec(samples, format.bits_per_sample as int).len() <= u32::MAX,
    ensures
        ({
            let data = pack_spec(samples, format.bits_per_sample as int);
            decode_stream(header_image(format, data.len() as int) + data) == Ok::<
                Seq<FrameView>,
                Error,
            >(
                seq![
                    FrameView {
                        channels: format.channels as nat,
                        sample_rate: format.sample_rate as nat,
                        bits_per_sample: format.bits_per_sample as nat,
                        samples,
                        eof: false,
                    },
                    FrameView {
                        channels: format.channels as nat,
                        sample_rate: format.sample_rate as nat,
                        bits_per_sample: format.bits_per_sample as nat,
                        samples: Seq::empty(),
                        eof: true,
                    },
                ],
            )
        }),
{
    let bits = format.bits_per_sample as int;
    let width = sample_width(bits);
    let channels = format.channels as int;
    let data = pack_spec(samples, bits);
    let file = header_image(format, data.len() as int) + data;
    lemma_pack_layout(samples, bits);
    lemma_unpack_pack(samples, bits);
    lemma_header_reads_back(format, data.len() as int, data);
    assert(data.len() as int % format.block_align() == 0) by {
        let steps = samples.len() as int / channels;
        lemma_fundamental_div_mod(samples.len() as int, channels);
        assert(data.len() == steps * (channels * width)) by (nonlinear_arith)
            requires
                data.len() == samples.len() * width,
                samples.len() == channels * steps,
        ;
        assert(0 < channels * width) by (nonlinear_arith)
            requires
                0 < channels,
                0 < width,
        ;
        lemma_mod_multiples_basic(steps, channels * width);
    }
    lemma_whole_steps(file);
}

/// The samples of well-formed frames of one format, gathered, are whole time
/// steps of samples in range.
proof fn lemma_gathered_samples(frames: Seq<FrameView>, n: int)
    requires
        0 <= n <= frames.len(),
        forall|i: int|
            0 <= i < n ==> (#[trigger] frames[i]).wf() && frames[i].same_format(frames[0]),
        frames.len() > 0,
        frames[0].channels > 0,
    ensures
        samples_before(frames, n).len() % frames[0].channels == 0,
        forall|k: int|
            0 <= k < samples_before(frames, n).len() ==> sample_in_range(
                #[trigger] samples_before(frames, n)[k] as int,
                frames[0].bits_per_sample as int,
            ),
    decreases n,
{
    let channels = frames[0].channels as int;
    lemma_small_mod(0, channels as nat);
    if n > 0 {
        lemma_gathered_samples(frames, n - 1);
        let front = samples_before(frames, n - 1);
        let last = frames[n - 1];
        assert(last.wf() && last.same_format(frames[0]));
        lemma_add_mod_noop(front.len() as int, last.samples.len() as int, channels);
        assert forall|k: int| 0 <= k < samples_before(frames, n).len() implies sample_in_range(
            #[trigger] samples_before(frames, n)[k] as int,
            frames[0].bits_per_sample as int,
        ) by {
            if k < front.len() {
                assert(samples_before(frames, n)[k] == front[k]);
            } else {
                assert(samples_before(frames, n)[k] == last.samples[k - front.len()]);
            }
        }
    }
}

} // verus!
