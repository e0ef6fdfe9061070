//! The sink stage of the raw-PCM container: frames in, bytes to write out.
//!
//! The sink is a state machine. Its driver hands it one frame at a time and
//! performs what each step asks for: bytes to append to the output, and, once
//! the stream has ended, the size fields to write over the placeholders of
//! the header.

use vstd::prelude::*;

use crate::codec::frame::{Frame, FrameView, SinkPhase};
use crate::codec::pcm::{
    is_supported_depth, lemma_pack_concat, lemma_pack_layout, pack_slice, pack_spec, sample_width,
    supported_depth,
};
use crate::codec::wav::{
    build_header, format_block, frames_view, header_image, lemma_header_reads_back, payload,
    WavFormat, DATA_SIZE_OFFSET, GROUP_OVERHEAD, GROUP_SIZE_OFFSET, HEADER_LEN, RIFF_CHUNK_ID,
};
use crate::endian::{le_u32_at, u32_be_bytes, u32_le_bytes, write_u32_le};
use crate::error::Error;

verus! {

/// Bytes to write over what the output holds at `offset`.
#[derive(Clone, Debug, PartialEq, Eq)]
pub struct Patch {
    /// Where in the output the bytes go.
    pub offset: usize,
    /// The bytes to write there.
    pub bytes: Vec<u8>,
}

/// A patch as a mathematical value.
pub struct PatchView {
    pub offset: nat,
    pub bytes: Seq<u8>,
}

impl View for Patch {
    type V = PatchView;

    open spec fn view(&self) -> PatchView {
        PatchView { offset: self.offset as nat, bytes: self.bytes@ }
    }
}

/// What the driver of a sink does after one frame: append, then patch.
#[derive(Clone, Debug, PartialEq, Eq)]
pub struct SinkStep {
    /// The bytes to append to the output.
    pub append: Vec<u8>,
    /// What to overwrite once the bytes are appended, in this order.
    pub patches: Vec<Patch>,
    /// Whether the output is complete.
    pub finished: bool,
}

/// A step as a mathematical value.
pub struct SinkStepView {
    pub append: Seq<u8>,
    pub patches: Seq<PatchView>,
    pub finished: bool,
}

impl View for SinkStep {
    type V = SinkStepView;

    open spec fn view(&self) -> SinkStepView {
        SinkStepView {
            append: self.append@,
            patches: self.patches@.map_values(|p: Patch| p@),
            finished: self.finished,
        }
    }
}

/// The state of a sink as a mathematical value.
pub struct SinkView {
    pub phase: SinkPhase,
    /// The format of the stream, fixed by its first frame.
    pub format: WavFormat,
    /// The bytes of data that the steps so far have appended.
    pub data_len: nat,
}

impl SinkView {
    /// The state of a sink that has seen no frame.
    pub open spec fn initial() -> SinkView {
        SinkView {
            phase: SinkPhase::AwaitingFirst,
            format: WavFormat { channels: 0, sample_rate: 0, bits_per_sample: 0 },
            data_len: 0,
        }
    }

    /// What holds in every state that a sink reaches: before the first frame
    /// nothing is recorded; afterwards the format is one that the container
    /// holds and the size fields have room for the data.
    pub open spec fn wf(self) -> bool {
        &&& self.phase == SinkPhase::AwaitingFirst ==> self == SinkView::initial()
        &&& self.phase == SinkPhase::Streaming || self.phase == SinkPhase::Finished ==> {
            &&& supported_depth(self.format.bits_per_sample as int)
            &&& self.format.fits()
        }
        &&& GROUP_OVERHEAD + self.data_len <= u32::MAX
    }

    /// Whether the sink still takes frames.
    pub open spec fn is_open(self) -> bool {
        self.phase == SinkPhase::AwaitingFirst || self.phase == SinkPhase::Streaming
    }

    /// This state after a failure.
    pub open spec fn failed(self) -> SinkView {
        SinkView { phase: SinkPhase::Failed, ..self }
    }
}

/// The format that a sink takes from the first frame of a stream, or why it
/// refuses the stream: a depth that the codec does not convert, or a format
/// for which the header has no room.
pub open spec fn accepted_format(frame: FrameView) -> Result<WavFormat, Error> {
    let format = WavFormat {
        channels: frame.channels as u16,
        sample_rate: frame.sample_rate as u32,
        bits_per_sample: frame.bits_per_sample as u16,
    };
    if !supported_depth(frame.bits_per_sample as int) {
        Err(Error::UnsupportedBitDepth)
    } else if frame.channels > 0xffff || frame.sample_rate > 0xffff_ffff || !format.fits() {
        Err(Error::MalformedContainer)
    } else {
        Ok(format)
    }
}

/// The two patches that make the size fields of the header final.
pub open spec fn size_patches(data_len: int) -> Seq<PatchView> {
    seq![
        PatchView { offset: GROUP_SIZE_OFFSET as nat, bytes: u32_le_bytes(GROUP_OVERHEAD + data_len) },
        PatchView { offset: DATA_SIZE_OFFSET as nat, bytes: u32_le_bytes(data_len) },
    ]
}

/// A frame arrives at a sink that knows the format of its stream. `lead` is
/// what goes out before the frame's own bytes: the header, when the frame is
/// the first.
///
/// The frame that ends the stream adds no data; it makes the sizes final. Any
/// other frame adds its packed samples, unless the size fields have no room
/// for them.
pub open spec fn stream_next(s: SinkView, frame: FrameView, lead: Seq<u8>) -> (
    SinkView,
    Result<SinkStepView, Error>,
) {
    let data = pack_spec(frame.samples, s.format.bits_per_sample as int);
    if frame.eof {
        (
            SinkView { phase: SinkPhase::Finished, ..s },
            Ok(
                SinkStepView {
                    append: lead,
                    patches: size_patches(s.data_len as int),
                    finished: true,
                },
            ),
        )
    } else if GROUP_OVERHEAD + s.data_len + data.len() > u32::MAX {
        (s.failed(), Err(Error::MalformedContainer))
    } else {
        (
            SinkView { phase: SinkPhase::Streaming, data_len: s.data_len + data.len(), ..s },
            Ok(SinkStepView { append: lead + data, patches: Seq::empty(), finished: false }),
        )
    }
}

/// The state after `frame` has arrived in state `s`, and what the driver is
/// to do.
///
/// The first frame fixes the format and puts out the header with
/// placeholder sizes; the format fields of later frames are not looked at. A
/// sink that has finished or failed takes no frame.
pub open spec fn sink_next(s: SinkView, frame: FrameView) -> (SinkView, Result<SinkStepView, Error>) {
    match s.phase {
        SinkPhase::AwaitingFirst => match accepted_format(frame) {
            Ok(format) => {
                let (next, step) = stream_next(
                    SinkView { phase: SinkPhase::Streaming, format, data_len: 0 },
                    frame,
                    header_image(format, 0),
                );
                if step is Ok {
                    (next, step)
                } else {
                    (s.failed(), step)
                }
            },
            Err(e) => (s.failed(), Err(e)),
        },
        SinkPhase::Streaming => stream_next(s, frame, Seq::empty()),
        SinkPhase::Finished => (s, Err(Error::ChannelBroken)),
        SinkPhase::Failed => (s, Err(Error::ChannelBroken)),
    }
}

/// The state after the source has gone away in state `s`, and whether that
/// was in order: it is only once the stream has finished.
pub open spec fn sink_closed(s: SinkView) -> (SinkView, Result<(), Error>) {
    match s.phase {
        SinkPhase::Finished => (s, Ok(())),
        _ => (s.failed(), Err(Error::ChannelBroken)),
    }
}

/// `file` with the bytes of `p` written over what it held at the offset of
/// `p`.
pub open spec fn patched(file: Seq<u8>, p: PatchView) -> Seq<u8>
    recommends
        p.offset + p.bytes.len() <= file.len(),
{
    file.subrange(0, p.offset as int) + p.bytes + file.subrange(
        (p.offset + p.bytes.len()) as int,
        file.len() as int,
    )
}

/// `file` after the patches, applied in order.
pub open spec fn all_patched(file: Seq<u8>, patches: Seq<PatchView>) -> Seq<u8>
    decreases patches.len(),
{
    if patches.len() == 0 {
        file
    } else {
        patched(all_patched(file, patches.drop_last()), patches.last())
    }
}

/// The output after its driver has performed `step` on `file`.
pub open spec fn performed(file: Seq<u8>, step: SinkStepView) -> Seq<u8> {
    all_patched(file + step.append, step.patches)
}

/// The sink stage of the raw-PCM container.
pub struct WavSink {
    phase: SinkPhase,
    format: WavFormat,
    data_len: u32,
}

impl View for WavSink {
    type V = SinkView;

    closed spec fn view(&self) -> SinkView {
        SinkView { phase: self.phase, format: self.format, data_len: self.data_len as nat }
    }
}

/// Takes the format of a stream from its first frame.
fn accept_format(frame: &Frame) -> (r: Result<WavFormat, Error>)
    ensures
        r == accepted_format(frame@),
{
    if !is_supported_depth(frame.bits_per_sample) {
        return Err(Error::UnsupportedBitDepth);
    }
    if frame.channels > 0xffff || frame.sample_rate > 0xffff_ffff {
        return Err(Error::MalformedContainer);
    }
    let format = WavFormat {
        channels: frame.channels as u16,
        sample_rate: frame.sample_rate as u32,
        bits_per_sample: frame.bits_per_sample as u16,
    };
    match format.check() {
        Ok(()) => Ok(format),
        Err(e) => Err(e),
    }
}

/// Builds the two patches that make the size fields final.
fn build_size_patches(data_len: u32) -> (patches: Vec<Patch>)
    requires
        GROUP_OVERHEAD + data_len <= u32::MAX,
    ensures
        patches@.map_values(|p: Patch| p@) == size_patches(data_len as int),
{
    let mut group_size: Vec<u8> = Vec::with_capacity(4);
    group_size.extend_from_slice(write_u32_le(GROUP_OVERHEAD + data_len).as_slice());
    assert(group_size@ =~= u32_le_bytes(GROUP_OVERHEAD + data_len));
    let mut data_size: Vec<u8> = Vec::with_capacity(4);
    data_size.extend_from_slice(write_u32_le(data_len).as_slice());
    assert(data_size@ =~= u32_le_bytes(data_len as int));
    let mut patches: Vec<Patch> = Vec::with_capacity(2);
    patches.push(Patch { offset: GROUP_SIZE_OFFSET, bytes: group_size });
    patches.push(Patch { offset: DATA_SIZE_OFFSET, bytes: data_size });
    proof {
        let views = patches@.map_values(|p: Patch| p@);
        assert(views.len() == 2);
        assert(views[0] == size_patches(data_len as int)[0]);
        assert(views[1] == size_patches(data_len as int)[1]);
        assert(views =~= size_patches(data_len as int));
    }
    patches
}

impl WavSink {
    #[verifier::type_invariant]
    spec fn inv(self) -> bool {
        self@.wf()
    }

    /// A sink that awaits the first frame of its stream.
    pub fn new() -> (sink: WavSink)
        ensures
            sink@ == SinkView::initial(),
    {
        WavSink {
            phase: SinkPhase::AwaitingFirst,
            format: WavFormat { channels: 0, sample_rate: 0, bits_per_sample: 0 },
            data_len: 0,
        }
    }

    /// Where the sink stands in its stream.
    pub fn phase(&self) -> (phase: SinkPhase)
        ensures
            phase == self@.phase,
    {
        self.phase
    }

    /// Whether the sink still takes frames.
    pub fn is_open(&self) -> (open: bool)
        ensures
            open == self@.is_open(),
    {
        match self.phase {
            SinkPhase::AwaitingFirst => true,
            SinkPhase::Streaming => true,
            _ => false,
        }
    }

    /// The format of the stream, once its first frame has been granted.
    pub fn format(&self) -> (format: Option<WavFormat>)
        ensures
            format == (if self@.phase is Streaming || self@.phase is Finished {
                Some(self@.format)
            } else {
                None
            }),
    {
        match self.phase {
            SinkPhase::Streaming => Some(self.format),
            SinkPhase::Finished => Some(self.format),
            _ => None,
        }
    }

    /// The bytes of data that the steps so far have appended.
    pub fn data_len(&self) -> (len: u32)
        ensures
            len == self@.data_len,
    {
        self.data_len
    }

    /// Takes the next frame of the stream and says what to write.
    ///
    /// On an error the sink has failed, and nothing is to be written.
    pub fn on_frame(&mut self, frame: &Frame) -> (r: Result<SinkStep, Error>)
        ensures
            old(self)@.wf(),
            final(self)@.wf(),
            final(self)@ == sink_next(old(self)@, frame@).0,
            match r {
                Ok(step) => sink_next(old(self)@, frame@).1 == Ok::<SinkStepView, Error>(step@),
                Err(e) => sink_next(old(self)@, frame@).1 == Err::<SinkStepView, Error>(e),
            },
    {
        proof {
            use_type_invariant(&*self);
        }
        let (format, lead) = match self.phase {
            SinkPhase::AwaitingFirst => {
                let format = match accept_format(frame) {
                    Ok(format) => format,
                    Err(e) => {
                        self.phase = SinkPhase::Failed;
                        return Err(e);
                    },
                };
                match build_header(format, 0) {
                    Ok(header) => (format, header),
                    Err(e) => {
                        self.phase = SinkPhase::Failed;
                        return Err(e);
                    },
                }
            },
            SinkPhase::Streaming => (self.format, Vec::new()),
            SinkPhase::Finished => {
                return Err(Error::ChannelBroken);
            },
            SinkPhase::Failed => {
                return Err(Error::ChannelBroken);
            },
        };
        if frame.eof {
            let patches = build_size_patches(self.data_len);
            *self = WavSink { phase: SinkPhase::Finished, format, data_len: self.data_len };
            return Ok(SinkStep { append: lead, patches, finished: true });
        }
        let data = match pack_slice(frame.samples.as_slice(), format.bits_per_sample as usize) {
            Ok(data) => data,
            Err(e) => {
                self.phase = SinkPhase::Failed;
                return Err(e);
            },
        };
        let room: u32 = u32::MAX - GROUP_OVERHEAD - self.data_len;
        if data.len() > room as usize {
            self.phase = SinkPhase::Failed;
            return Err(Error::MalformedContainer);
        }
        let data_len: u32 = self.data_len + data.len() as u32;
        *self = WavSink { phase: SinkPhase::Streaming, format, data_len };
        let mut append = lead;
        append.extend_from_slice(data.as_slice());
        let step = SinkStep { append, patches: Vec::new(), finished: false };
        proof {
            assert(step@.patches =~= Seq::<PatchView>::empty());
            assert(sink_next(old(self)@, frame@).1->Ok_0.append == step@.append);
        }
        Ok(step)
    }

    /// Takes notice that the source has gone away.
    ///
    /// That is in order once the stream has finished. Before that the stream
    /// is broken and the sink has failed.
    pub fn on_closed(&mut self) -> (r: Result<(), Error>)
        ensures
            old(self)@.wf(),
            final(self)@.wf(),
            (final(self)@, r) == sink_closed(old(self)@),
    {
        proof {
            use_type_invariant(&*self);
        }
        match self.phase {
            SinkPhase::Finished => Ok(()),
            _ => {
                self.phase = SinkPhase::Failed;
                Err(Error::ChannelBroken)
            },
        }
    }
}

/// The index of the first frame at or after `from` that ends the stream; the
/// number of frames if there is none.
pub open spec fn first_terminal(frames: Seq<FrameView>, from: int) -> int
    decreases frames.len() - from,
{
    if from >= frames.len() {
        frames.len() as int
    } else if frames[from].eof {
        from
    } else {
        first_terminal(frames, from + 1)
    }
}

/// The samples of the first `n` frames, in order.
pub open spec fn samples_before(frames: Seq<FrameView>, n: int) -> Seq<i32>
    decreases n,
{
    if n <= 0 {
        Seq::empty()
    } else {
        samples_before(frames, n - 1) + frames[n - 1].samples
    }
}

/// The container that a stream of frames becomes, or why it becomes none.
///
/// The first frame fixes the format. The data are the packed samples of the
/// frames before the first one that ends the stream; what that frame itself
/// carries, and what follows it, is not written. A stream that never ends is
/// broken.
pub open spec fn encode_stream(frames: Seq<FrameView>) -> Result<Seq<u8>, Error> {
    if frames.len() == 0 {
        Err(Error::ChannelBroken)
    } else {
        match accepted_format(frames[0]) {
            Err(e) => Err(e),
            Ok(format) => {
                let end = first_terminal(frames, 0);
                let data = pack_spec(samples_before(frames, end), format.bits_per_sample as int);
                if GROUP_OVERHEAD + data.len() > u32::MAX {
                    Err(Error::MalformedContainer)
                } else if end == frames.len() {
                    Err(Error::ChannelBroken)
                } else {
                    Ok(header_image(format, data.len() as int) + data)
                }
            },
        }
    }
}

/// Performs a step on an output held in memory.
fn perform(out: &mut Vec<u8>, step: &SinkStep)
    requires
        forall|i: int|
            0 <= i < step.patches@.len() ==> (#[trigger] step.patches@[i]).offset
                + step.patches@[i].bytes@.len() <= old(out)@.len() + step.append@.len(),
    ensures
        final(out)@ == performed(old(out)@, step@),
        final(out)@.len() == old(out)@.len() + step.append@.len(),
{
    out.extend_from_slice(step.append.as_slice());
    let ghost base = out@;
    assert(base.len() == out.len());
    let ghost views = step@.patches;
    let mut i: usize = 0;
    while i < step.patches.len()
        invariant
            i <= step.patches@.len(),
            views == step@.patches,
            out@.len() == base.len(),
            base.len() <= usize::MAX,
            forall|j: int|
                0 <= j < step.patches@.len() ==> (#[trigger] step.patches@[j]).offset
                    + step.patches@[j].bytes@.len() <= base.len(),
            out@ == all_patched(base, views.take(i as int)),
        decreases step.patches@.len() - i,
    {
        let patch = &step.patches[i];
        let ghost before = out@;
        let mut k: usize = 0;
        while k < patch.bytes.len()
            invariant
                k <= patch.bytes@.len(),
                patch.offset + patch.bytes@.len() <= before.len(),
                before.len() <= usize::MAX,
                out@.len() == before.len(),
                out@ == before.subrange(0, patch.offset as int) + patch.bytes@.take(k as int)
                    + before.subrange(patch.offset + k, before.len() as int),
            decreases patch.bytes@.len() - k,
        {
            out[patch.offset + k] = patch.bytes[k];
            k += 1;
            assert(out@ =~= before.subrange(0, patch.offset as int) + patch.bytes@.take(k as int)
                + before.subrange(patch.offset + k, before.len() as int));
        }
        proof {
            assert(patch.bytes@.take(k as int) =~= patch.bytes@);
            assert(views.take(i as int + 1).drop_last() =~= views.take(i as int));
            assert(views.take(i as int + 1).last() == patch@);
            assert(out@ == patched(before, patch@));
        }
        i += 1;
    }
    proof {
        assert(views.take(i as int) =~= views);
        assert(base == old(out)@ + step.append@);
    }
}

/// Turns a stream of frames into a container held in memory: the sink, driven
/// over the frames in order.
///
/// The stream is refused for what its first frame says of the format, or for
/// more data than the size fields can count. A stream without a frame that
/// ends it is broken.
pub fn write_wav(frames: &[Frame]) -> (r: Result<Vec<u8>, Error>)
    ensures
        match r {
            Ok(file) => encode_stream(frames_view(frames@)) == Ok::<Seq<u8>, Error>(file@),
            Err(e) => encode_stream(frames_view(frames@)) == Err::<Seq<u8>, Error>(e),
        },
{
    let ghost stream = frames_view(frames@);
    let mut sink = WavSink::new();
    let mut out: Vec<u8> = Vec::new();
    let mut i: usize = 0;
    while i < frames.len()
        invariant
            stream == frames_view(frames@),
            on_track(stream, i as int, sink@, out@),
        decreases frames@.len() - i,
    {
        let ghost before = sink@;
        let ghost held = out@;
        let ghost frame = stream[i as int];
        assert(frame == frames@[i as int]@);
        match sink.on_frame(&frames[i]) {
            Err(e) => {
                proof {
                    lemma_refused(stream, i as int, before, held, e);
                }
                return Err(e);
            },
            Ok(step) => {
                proof {
                    lemma_advance(stream, i as int, before, held, step@);
                }
                perform(&mut out, &step);
                if step.finished {
                    return Ok(out);
                }
            },
        }
        i += 1;
    }
    proof {
        lemma_unended(stream, sink@, out@);
    }
    match sink.on_closed() {
        Ok(()) => Ok(out),
        Err(e) => Err(e),
    }
}

/// What holds while a sink is driven over a stream, after `i` frames none of
/// which ended the stream or was refused: the sink knows the format, and the
/// output holds the header with placeholder sizes and the data so far.
spec fn on_track(stream: Seq<FrameView>, i: int, sink: SinkView, out: Seq<u8>) -> bool {
    &&& 0 <= i <= stream.len()
    &&& forall|j: int| 0 <= j < i ==> !(#[trigger] stream[j]).eof
    &&& i == 0 ==> sink == SinkView::initial() && out.len() == 0
    &&& i > 0 ==> {
        let data = pack_spec(samples_before(stream, i), sink.format.bits_per_sample as int);
        &&& accepted_format(stream[0]) == Ok::<WavFormat, Error>(sink.format)
        &&& sink.phase == SinkPhase::Streaming
        &&& sink.wf()
        &&& sink.data_len == data.len()
        &&& out == header_image(sink.format, 0) + data
    }
}

/// The first frame that ends the stream is where the frames before it do
/// not.
proof fn lemma_first_terminal(frames: Seq<FrameView>, from: int, i: int)
    requires
        0 <= from <= i <= frames.len(),
        forall|j: int| from <= j < i ==> !(#[trigger] frames[j]).eof,
        i == frames.len() || frames[i].eof,
    ensures
        first_terminal(frames, from) == i,
    decreases i - from,
{
    if from < i {
        lemma_first_terminal(frames, from + 1, i);
    }
}

/// The data grow by the packed samples of each further frame.
proof fn lemma_data_step(frames: Seq<FrameView>, n: int, bits: int)
    requires
        0 <= n,
    ensures
        pack_spec(samples_before(frames, n + 1), bits) == pack_spec(samples_before(frames, n), bits)
            + pack_spec(frames[n].samples, bits),
{
    lemma_pack_concat(samples_before(frames, n), frames[n].samples, bits);
}

/// The data of more frames are not shorter.
proof fn lemma_data_monotone(frames: Seq<FrameView>, n: int, m: int, bits: int)
    requires
        0 <= n <= m,
    ensures
        pack_spec(samples_before(frames, n), bits).len() <= pack_spec(
            samples_before(frames, m),
            bits,
        ).len(),
    decreases m - n,
{
    if n < m {
        lemma_data_monotone(frames, n, m - 1, bits);
        lemma_data_step(frames, m - 1, bits);
    }
}

/// Writing the final sizes over the placeholders gives the header of the
/// finished container.
proof fn lemma_sizes_patched(format: WavFormat, data: Seq<u8>)
    ensures
        all_patched(header_image(format, 0) + data, size_patches(data.len() as int))
            == header_image(format, data.len() as int) + data,
        forall|i: int|
            0 <= i < 2 ==> (#[trigger] size_patches(data.len() as int)[i]).offset + size_patches(
                data.len() as int,
            )[i].bytes.len() <= HEADER_LEN,
        header_image(format, 0).len() == HEADER_LEN,
{
    reveal(header_image);
    let n = data.len() as int;
    let file = header_image(format, 0) + data;
    let patches = size_patches(n);
    assert(format_block(format).len() == 32);
    assert(patches.drop_last() =~= seq![patches[0]]);
    assert(patches.drop_last().drop_last() =~= Seq::<PatchView>::empty());
    reveal_with_fuel(all_patched, 3);
    let first = patched(file, patches[0]);
    assert(all_patched(file, patches) == patched(first, patches[1]));
    assert(first =~= u32_be_bytes(RIFF_CHUNK_ID as int) + u32_le_bytes(GROUP_OVERHEAD + n)
        + format_block(format) + u32_le_bytes(0) + data);
    assert(patched(first, patches[1]) =~= header_image(format, n) + data);
}

/// A stream whose frame the sink refuses becomes no container, for the reason
/// that the sink gives.
proof fn lemma_refused(stream: Seq<FrameView>, i: int, sink: SinkView, out: Seq<u8>, e: Error)
    requires
        on_track(stream, i, sink, out),
        i < stream.len(),
        sink_next(sink, stream[i]).1 == Err::<SinkStepView, Error>(e),
    ensures
        encode_stream(stream) == Err::<Seq<u8>, Error>(e),
{
    if accepted_format(stream[0]) is Ok {
        let format = accepted_format(stream[0])->Ok_0;
        let bits = format.bits_per_sample as int;
        let end = first_terminal(stream, 0);
        assert(!stream[i].eof);
        lemma_terminal_bounds(stream, 0);
        if end <= i {
            lemma_terminal_ends(stream, 0);
            assert(stream[end].eof);
            assert(false);
        }
        lemma_data_step(stream, i, bits);
        lemma_data_monotone(stream, i + 1, end, bits);
    }
}

/// The first terminal frame ends the stream, if there is one.
proof fn lemma_terminal_ends(frames: Seq<FrameView>, from: int)
    requires
        0 <= from,
        first_terminal(frames, from) < frames.len(),
    ensures
        frames[first_terminal(frames, from)].eof,
    decreases frames.len() - from,
{
    if from < frames.len() && !frames[from].eof {
        lemma_terminal_ends(frames, from + 1);
    }
}

/// The first terminal frame lies between where the search starts and the end
/// of the stream.
pub proof fn lemma_terminal_bounds(frames: Seq<FrameView>, from: int)
    requires
        0 <= from <= frames.len(),
    ensures
        from <= first_terminal(frames, from) <= frames.len(),
    decreases frames.len() - from,
{
    if from < frames.len() && !frames[from].eof {
        lemma_terminal_bounds(frames, from + 1);
    }
}

/// A step that the sink grants keeps the drive on track, or finishes the
/// container.
proof fn lemma_advance(stream: Seq<FrameView>, i: int, sink: SinkView, out: Seq<u8>, step: SinkStepView)
    requires
        on_track(stream, i, sink, out),
        i < stream.len(),
        sink_next(sink, stream[i]).1 == Ok::<SinkStepView, Error>(step),
    ensures
        forall|k: int|
            0 <= k < step.patches.len() ==> (#[trigger] step.patches[k]).offset
                + step.patches[k].bytes.len() <= out.len() + step.append.len(),
        step.finished ==> encode_stream(stream) == Ok::<Seq<u8>, Error>(performed(out, step)),
        !step.finished ==> on_track(stream, i + 1, sink_next(sink, stream[i]).0, performed(out, step)),
{
    let frame = stream[i];
    let format = accepted_format(stream[0])->Ok_0;
    let bits = format.bits_per_sample as int;
    let data = pack_spec(samples_before(stream, i), bits);
    let grown = pack_spec(samples_before(stream, i + 1), bits);
    lemma_data_step(stream, i, bits);
    lemma_sizes_patched(format, data);
    if i == 0 {
        assert(data =~= Seq::<u8>::empty());
        assert(out =~= Seq::<u8>::empty());
    }
    if frame.eof {
        assert(out + step.append =~= header_image(format, 0) + data);
        lemma_first_terminal(stream, 0, i);
    } else {
        assert(out + step.append =~= header_image(format, 0) + grown);
    }
}

/// A stream that the sink has taken to its end without a terminal frame
/// becomes no container.
proof fn lemma_unended(stream: Seq<FrameView>, sink: SinkView, out: Seq<u8>)
    requires
        on_track(stream, stream.len() as int, sink, out),
    ensures
        sink.phase != SinkPhase::Finished,
        encode_stream(stream) == Err::<Seq<u8>, Error>(Error::ChannelBroken),
{
    lemma_first_terminal(stream, 0, stream.len() as int);
}

/// A sink only moves forward. A well-formed state is followed by a
/// well-formed state; a sink that has finished or failed stays as it is; the
/// format, once fixed, stays fixed; and the count of data grows by exactly
/// the packed samples of each frame that is granted.
pub proof fn lemma_sink_moves_forward(s: SinkView, frame: FrameView)
    requires
        s.wf(),
    ensures
        sink_next(s, frame).0.wf(),
        !s.is_open() ==> sink_next(s, frame).0 == s,
        !(sink_next(s, frame).0.phase is AwaitingFirst),
        s.phase is Streaming ==> sink_next(s, frame).0.format == s.format,
        sink_next(s, frame).1 is Ok ==> sink_next(s, frame).0.data_len == s.data_len + (if frame.eof {
            0
        } else {
            pack_spec(frame.samples, sink_next(s, frame).0.format.bits_per_sample as int).len()
        }),
        sink_next(s, frame).1 is Err ==> !sink_next(s, frame).0.is_open(),
{
}

/// What a granted step asks of the driver. It finishes the output exactly on
/// the frame that ends the stream; only then does it patch, and then only
/// inside the header; and the first step of a stream puts the whole header
/// out before anything else.
pub proof fn lemma_step_shape(s: SinkView, frame: FrameView)
    requires
        s.wf(),
        sink_next(s, frame).1 is Ok,
    ensures
        ({
            let step = sink_next(s, frame).1->Ok_0;
            &&& step.finished == frame.eof
            &&& !step.finished ==> step.patches.len() == 0
            &&& forall|i: int|
                0 <= i < step.patches.len() ==> (#[trigger] step.patches[i]).offset
                    + step.patches[i].bytes.len() <= HEADER_LEN
            &&& s.phase is AwaitingFirst ==> step.append.len() >= HEADER_LEN && step.append.take(
                HEADER_LEN as int,
            ) == header_image(sink_next(s, frame).0.format, 0)
        }),
{
    let next = sink_next(s, frame).0;
    if s.phase is AwaitingFirst {
        lemma_header_reads_back(next.format, 0, Seq::empty());
        let step = sink_next(s, frame).1->Ok_0;
        assert(step.append.take(HEADER_LEN as int) =~= header_image(next.format, 0));
    }
}

/// The data section of a finished container holds the packed samples of the
/// frames before the one that ended the stream, one group for every sample,
/// and both size fields of the header count exactly those bytes.
pub proof fn lemma_encoded_sizes(frames: Seq<FrameView>)
    requires
        encode_stream(frames) is Ok,
    ensures
        ({
            let file = encode_stream(frames)->Ok_0;
            let format = accepted_format(frames[0])->Ok_0;
            let samples = samples_before(frames, first_terminal(frames, 0));
            let data_len = samples.len() * sample_width(format.bits_per_sample as int);
            &&& file.len() == HEADER_LEN + data_len
            &&& payload(file) == pack_spec(samples, format.bits_per_sample as int)
            &&& le_u32_at(file, GROUP_SIZE_OFFSET as int) == GROUP_OVERHEAD + data_len
            &&& le_u32_at(file, DATA_SIZE_OFFSET as int) == data_len
        }),
{
    let format = accepted_format(frames[0])->Ok_0;
    let samples = samples_before(frames, first_terminal(frames, 0));
    let data = pack_spec(samples, format.bits_per_sample as int);
    lemma_pack_layout(samples, format.bits_per_sample as int);
    lemma_header_reads_back(format, data.len() as int, data);
}

} // verus!
