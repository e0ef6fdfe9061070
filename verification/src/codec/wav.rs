//! The raw-PCM container: a header of 44 bytes followed by the packed
//! samples.
//!
//! | Offset | Field            | Layout               |
//! |--------|------------------|----------------------|
//! | 0      | group id         | 4 bytes, big-endian  |
//! | 4      | group size       | u32, little-endian   |
//! | 8      | format           | 4 bytes, big-endian  |
//! | 12     | format block id  | 4 bytes, big-endian  |
//! | 16     | format block size| u32, little-endian   |
//! | 20     | audio format     | u16, little-endian   |
//! | 22     | channels         | u16, little-endian   |
//! | 24     | sample rate      | u32, little-endian   |
//! | 28     | byte rate        | u32, little-endian   |
//! | 32     | block align      | u16, little-endian   |
//! | 34     | bits per sample  | u16, little-endian   |
//! | 36     | data block id    | 4 bytes, big-endian  |
//! | 40     | data size        | u32, little-endian   |
//! | 44     | data             | packed samples       |

use vstd::arithmetic::div_mod::{
    lemma_fundamental_div_mod, lemma_fundamental_div_mod_converse, lemma_mod_multiples_basic,
};
use vstd::prelude::*;
use vstd::slice::slice_subrange;

use crate::codec::frame::{Frame, FrameView};
use crate::codec::pcm::{
    is_supported_depth, lemma_unpack_in_range, sample_width, supported_depth, unpack_slice, unpack_spec,
};
pub use crate::codec::wav_sink::write_wav;
use crate::endian::{
    be_u32_at, le_u16_at, le_u32_at, lemma_read_written, read_u16_le, read_u32_be, read_u32_le,
    u16_le_bytes, u32_be_bytes, u32_le_bytes, write_u16_le, write_u32_be, write_u32_le,
};
use crate::error::Error;

verus! {

/// The group id: `RIFF`.
pub const RIFF_CHUNK_ID: u32 = 0x5249_4646;

/// The format of the group: `WAVE`.
pub const RIFF_FORMAT: u32 = 0x5741_5645;

/// The id of the format block: `fmt `.
pub const FMT_CHUNK_ID: u32 = 0x666d_7420;

/// The id of the data block: `data`.
pub const DATA_CHUNK_ID: u32 = 0x6461_7461;

/// The audio format of linear PCM, the only one the container holds.
pub const AUDIO_FORMAT_PCM: u16 = 1;

/// The size of the format block.
pub const FMT_CHUNK_SIZE: u32 = 16;

/// The length of the header; the data starts here.
pub const HEADER_LEN: usize = 44;

/// Where the group size lies in the header.
pub const GROUP_SIZE_OFFSET: usize = 4;

/// Where the data size lies in the header.
pub const DATA_SIZE_OFFSET: usize = 40;

/// What the group holds besides the data: the header after the group size.
pub const GROUP_OVERHEAD: u32 = 36;

/// The format of a stream as the header records it.
#[derive(Clone, Copy, Debug, PartialEq, Eq, Structural)]
pub struct WavFormat {
    /// The number of interleaved channels, at least 1.
    pub channels: u16,
    /// Samples per second and channel, at least 1.
    pub sample_rate: u32,
    /// The bit depth of every sample.
    pub bits_per_sample: u16,
}

impl WavFormat {
    /// The bytes of one time step: one sample of every channel.
    pub open spec fn block_align(self) -> int {
        self.channels * sample_width(self.bits_per_sample as int)
    }

    /// The bytes of one second.
    pub open spec fn byte_rate(self) -> int {
        self.sample_rate * self.block_align()
    }

    /// Whether a header can record this format: at least one channel, a
    /// positive rate, and a block align and a byte rate that fit their
    /// fields.
    pub open spec fn fits(self) -> bool {
        &&& self.channels >= 1
        &&& self.sample_rate >= 1
        &&& self.block_align() <= 0xffff
        &&& self.byte_rate() <= 0xffff_ffff
    }

    /// Why no container is written in this format, if none is: the codec
    /// does not convert the depth, or the header has no room.
    pub open spec fn refusal(self) -> Option<Error> {
        if !supported_depth(self.bits_per_sample as int) {
            Some(Error::UnsupportedBitDepth)
        } else if !self.fits() {
            Some(Error::MalformedContainer)
        } else {
            None
        }
    }

    /// Checks that a container can be written in this format.
    pub fn check(&self) -> (r: Result<(), Error>)
        ensures
            match r {
                Ok(_) => self.refusal() is None,
                Err(e) => self.refusal() == Some(e),
            },
    {
        if !is_supported_depth(self.bits_per_sample as usize) {
            return Err(Error::UnsupportedBitDepth);
        }
        if self.channels < 1 || self.sample_rate < 1 {
            return Err(Error::MalformedContainer);
        }
        let width: u64 = self.bits_per_sample as u64 / 8;
        assert(self.channels * width <= 0xffff * 4) by (nonlinear_arith)
            requires
                self.channels <= 0xffff,
                width <= 4,
        ;
        let block_align: u64 = self.channels as u64 * width;
        assert(self.sample_rate * block_align <= 0xffff_ffff * (0xffff * 4)) by (nonlinear_arith)
            requires
                self.sample_rate <= 0xffff_ffff,
                block_align <= 0xffff * 4,
        ;
        let byte_rate: u64 = self.sample_rate as u64 * block_align;
        if block_align > 0xffff || byte_rate > 0xffff_ffff {
            return Err(Error::MalformedContainer);
        }
        Ok(())
    }
}

/// Whether `bytes` starts with a header that this library reads: long
/// enough, the four identifiers in place, linear PCM, at least one channel
/// and a positive rate. The size fields, the byte rate and the block align
/// are not looked at.
#[verifier::opaque]
pub open spec fn header_ok(bytes: Seq<u8>) -> bool {
    &&& bytes.len() >= HEADER_LEN
    &&& be_u32_at(bytes, 0) == RIFF_CHUNK_ID
    &&& be_u32_at(bytes, 8) == RIFF_FORMAT
    &&& be_u32_at(bytes, 12) == FMT_CHUNK_ID
    &&& le_u16_at(bytes, 20) == AUDIO_FORMAT_PCM
    &&& le_u16_at(bytes, 22) >= 1
    &&& le_u32_at(bytes, 24) >= 1
    &&& be_u32_at(bytes, 36) == DATA_CHUNK_ID
}

/// The format that the header of `bytes` records.
pub open spec fn header_format(bytes: Seq<u8>) -> WavFormat {
    WavFormat {
        channels: le_u16_at(bytes, 22) as u16,
        sample_rate: le_u32_at(bytes, 24) as u32,
        bits_per_sample: le_u16_at(bytes, 34) as u16,
    }
}

/// The 32 bytes of the header between the group size and the data size: the
/// format of the group, the format block and the id of the data block.
pub open spec fn format_block(format: WavFormat) -> Seq<u8> {
    u32_be_bytes(RIFF_FORMAT as int) + u32_be_bytes(FMT_CHUNK_ID as int) + u32_le_bytes(
        FMT_CHUNK_SIZE as int,
    ) + u16_le_bytes(AUDIO_FORMAT_PCM as int) + u16_le_bytes(format.channels as int) + u32_le_bytes(
        format.sample_rate as int,
    ) + u32_le_bytes(format.byte_rate()) + u16_le_bytes(format.block_align()) + u16_le_bytes(
        format.bits_per_sample as int,
    ) + u32_be_bytes(DATA_CHUNK_ID as int)
}

/// The header of a stream of the given format with `data_len` bytes of data.
#[verifier::opaque]
pub open spec fn header_image(format: WavFormat, data_len: int) -> Seq<u8> {
    u32_be_bytes(RIFF_CHUNK_ID as int) + u32_le_bytes(GROUP_OVERHEAD + data_len) + format_block(
        format,
    ) + u32_le_bytes(data_len)
}

/// Reads the number of four bytes at `at`, most significant byte first.
fn u32_be_at(bytes: &[u8], at: usize) -> (n: u32)
    requires
        at + 4 <= bytes@.len(),
    ensures
        n as int == be_u32_at(bytes@, at as int),
{
    assert(bytes@.len() == bytes.len());
    read_u32_be(slice_subrange(bytes, at, at + 4))
}

/// Reads the number of four bytes at `at`, least significant byte first.
fn u32_le_at(bytes: &[u8], at: usize) -> (n: u32)
    requires
        at + 4 <= bytes@.len(),
    ensures
        n as int == le_u32_at(bytes@, at as int),
{
    assert(bytes@.len() == bytes.len());
    read_u32_le(slice_subrange(bytes, at, at + 4))
}

/// Reads the number of two bytes at `at`, least significant byte first.
fn u16_le_at(bytes: &[u8], at: usize) -> (n: u16)
    requires
        at + 2 <= bytes@.len(),
    ensures
        n as int == le_u16_at(bytes@, at as int),
{
    assert(bytes@.len() == bytes.len());
    read_u16_le(slice_subrange(bytes, at, at + 2))
}

/// Reads the header at the start of `bytes`.
///
/// The header is refused when it is shorter than 44 bytes, when one of the
/// four identifiers is not in its place, when the audio format is not linear
/// PCM, or when it records no channel or a rate of zero.
pub fn parse_header(bytes: &[u8]) -> (r: Result<WavFormat, Error>)
    ensures
        match r {
            Ok(format) => header_ok(bytes@) && format == header_format(bytes@),
            Err(e) => !header_ok(bytes@) && e == Error::MalformedContainer,
        },
{
    proof {
        reveal(header_ok);
    }
    if bytes.len() < HEADER_LEN {
        return Err(Error::MalformedContainer);
    }
    if u32_be_at(bytes, 0) != RIFF_CHUNK_ID {
        return Err(Error::MalformedContainer);
    }
    if u32_be_at(bytes, 8) != RIFF_FORMAT {
        return Err(Error::MalformedContainer);
    }
    if u32_be_at(bytes, 12) != FMT_CHUNK_ID {
        return Err(Error::MalformedContainer);
    }
    if u16_le_at(bytes, 20) != AUDIO_FORMAT_PCM {
        return Err(Error::MalformedContainer);
    }
    let channels = u16_le_at(bytes, 22);
    let sample_rate = u32_le_at(bytes, 24);
    let bits_per_sample = u16_le_at(bytes, 34);
    if channels == 0 || sample_rate == 0 {
        return Err(Error::MalformedContainer);
    }
    if u32_be_at(bytes, 36) != DATA_CHUNK_ID {
        return Err(Error::MalformedContainer);
    }
    Ok(WavFormat { channels, sample_rate, bits_per_sample })
}

/// Builds the header of a stream of the given format with `data_len` bytes
/// of data.
///
/// A depth that the codec does not convert is refused; so is a format or a
/// size of the data for which the header has no room.
pub fn build_header(format: WavFormat, data_len: u32) -> (r: Result<Vec<u8>, Error>)
    ensures
        match r {
            Ok(header) => {
                &&& format.refusal() is None
                &&& GROUP_OVERHEAD + data_len <= u32::MAX
                &&& header@ == header_image(format, data_len as int)
                &&& header@.len() == HEADER_LEN
            },
            Err(e) => if format.refusal() is Some {
                format.refusal() == Some(e)
            } else {
                GROUP_OVERHEAD + data_len > u32::MAX && e == Error::MalformedContainer
            },
        },
{
    match format.check() {
        Ok(()) => {},
        Err(e) => {
            return Err(e);
        },
    }
    if data_len > u32::MAX - GROUP_OVERHEAD {
        return Err(Error::MalformedContainer);
    }
    let block_align: u32 = format.channels as u32 * (format.bits_per_sample as u32 / 8);
    let byte_rate: u64 = format.sample_rate as u64 * block_align as u64;
    let mut header: Vec<u8> = Vec::with_capacity(HEADER_LEN);
    header.extend_from_slice(write_u32_be(RIFF_CHUNK_ID).as_slice());
    header.extend_from_slice(write_u32_le(GROUP_OVERHEAD + data_len).as_slice());
    header.extend_from_slice(write_u32_be(RIFF_FORMAT).as_slice());
    header.extend_from_slice(write_u32_be(FMT_CHUNK_ID).as_slice());
    header.extend_from_slice(write_u32_le(FMT_CHUNK_SIZE).as_slice());
    header.extend_from_slice(write_u16_le(AUDIO_FORMAT_PCM).as_slice());
    header.extend_from_slice(write_u16_le(format.channels).as_slice());
    header.extend_from_slice(write_u32_le(format.sample_rate).as_slice());
    header.extend_from_slice(write_u32_le(byte_rate as u32).as_slice());
    header.extend_from_slice(write_u16_le(block_align as u16).as_slice());
    header.extend_from_slice(write_u16_le(format.bits_per_sample).as_slice());
    header.extend_from_slice(write_u32_be(DATA_CHUNK_ID).as_slice());
    header.extend_from_slice(write_u32_le(data_len).as_slice());
    proof {
        reveal(header_image);
        assert(header@ =~= header_image(format, data_len as int));
    }
    Ok(header)
}

/// The frames of a stream as mathematical values.
pub open spec fn frames_view(frames: Seq<Frame>) -> Seq<FrameView> {
    frames.map_values(|f: Frame| f@)
}

/// The data of a container: what follows the header.
pub open spec fn payload(bytes: Seq<u8>) -> Seq<u8> {
    bytes.subrange(HEADER_LEN as int, bytes.len() as int)
}

/// The longest prefix of `len` bytes that is made of whole steps of `step`
/// bytes.
pub open spec fn whole_len(len: int, step: int) -> int {
    (len / step) * step
}

/// The part of the data that makes whole time steps. What follows the last
/// whole time step is not audio.
pub open spec fn whole_steps(bytes: Seq<u8>) -> Seq<u8> {
    payload(bytes).take(whole_len(payload(bytes).len() as int, header_format(bytes).block_align()))
}

/// What the source stage makes of a container: the error, or the whole
/// audio in one frame and then the frame that ends the stream.
pub open spec fn decode_stream(bytes: Seq<u8>) -> Result<Seq<FrameView>, Error> {
    let format = header_format(bytes);
    if !header_ok(bytes) {
        Err(Error::MalformedContainer)
    } else if !supported_depth(format.bits_per_sample as int) {
        Err(Error::UnsupportedBitDepth)
    } else {
        Ok(
            seq![
                FrameView {
                    channels: format.channels as nat,
                    sample_rate: format.sample_rate as nat,
                    bits_per_sample: format.bits_per_sample as nat,
                    samples: unpack_spec(whole_steps(bytes), format.bits_per_sample as int),
                    eof: false,
                },
                FrameView {
                    channels: format.channels as nat,
                    sample_rate: format.sample_rate as nat,
                    bits_per_sample: format.bits_per_sample as nat,
                    samples: Seq::empty(),
                    eof: true,
                },
            ],
        )
    }
}

/// Turns a container into its stream of frames.
///
/// The header is checked first and a container that fails the check is
/// refused as malformed; a depth that the codec does not convert is refused
/// next. Otherwise the samples of all whole time steps come in one frame,
/// followed by the frame that ends the stream.
pub fn read_wav(data: &[u8]) -> (r: Result<Vec<Frame>, Error>)
    ensures
        match r {
            Ok(frames) => decode_stream(data@) == Ok::<Seq<FrameView>, Error>(frames_view(frames@)),
            Err(e) => decode_stream(data@) == Err::<Seq<FrameView>, Error>(e),
        },
{
    let format = match parse_header(data) {
        Ok(format) => format,
        Err(e) => {
            return Err(e);
        },
    };
    let channels: usize = format.channels as usize;
    let sample_rate: usize = format.sample_rate as usize;
    let bits_per_sample: usize = format.bits_per_sample as usize;
    if !is_supported_depth(bits_per_sample) {
        return Err(Error::UnsupportedBitDepth);
    }
    proof {
        lemma_header_ok(data@);
    }
    let step: usize = channels * (bits_per_sample / 8);
    let available: usize = data.len() - HEADER_LEN;
    proof {
        lemma_whole_len(available as int, step as int);
    }
    let usable: usize = (available / step) * step;
    let body = slice_subrange(data, HEADER_LEN, HEADER_LEN + usable);
    assert(body@ =~= whole_steps(data@));
    let samples = match unpack_slice(body, bits_per_sample) {
        Ok(samples) => samples,
        Err(e) => {
            return Err(e);
        },
    };
    let mut frames: Vec<Frame> = Vec::with_capacity(2);
    frames.push(Frame::data(channels, sample_rate, bits_per_sample, samples));
    frames.push(Frame::terminal(channels, sample_rate, bits_per_sample));
    assert(frames_view(frames@) =~= decode_stream(data@)->Ok_0);
    Ok(frames)
}

/// A header that is read is not cut short and records at least one channel
/// and a positive rate.
pub proof fn lemma_header_ok(bytes: Seq<u8>)
    requires
        header_ok(bytes),
    ensures
        bytes.len() >= HEADER_LEN,
        header_format(bytes).channels >= 1,
        header_format(bytes).sample_rate >= 1,
{
    reveal(header_ok);
}

/// The whole steps of a buffer lie inside the buffer and leave no partial
/// step.
proof fn lemma_whole_len(len: int, step: int)
    requires
        0 <= len,
        0 < step,
    ensures
        0 <= whole_len(len, step) <= len,
        whole_len(len, step) % step == 0,
{
    let q = len / step;
    lemma_fundamental_div_mod(len, step);
    assert(step * q == q * step) by (nonlinear_arith);
    assert(0 <= q * step) by (nonlinear_arith)
        requires
            0 <= q,
            0 < step,
    ;
    lemma_mod_multiples_basic(q, step);
}

/// Every frame that the source stage emits is well formed, the frames agree
/// on the format, and exactly the last one ends the stream.
pub proof fn lemma_decoded_stream_wf(bytes: Seq<u8>)
    requires
        decode_stream(bytes) is Ok,
    ensures
        ({
            let frames = decode_stream(bytes)->Ok_0;
            &&& frames.len() >= 1
            &&& forall|i: int| 0 <= i < frames.len() ==> (#[trigger] frames[i]).wf()
            &&& forall|i: int| 0 <= i < frames.len() ==> (#[trigger] frames[i]).same_format(frames[0])
            &&& forall|i: int|
                0 <= i < frames.len() ==> ((#[trigger] frames[i]).eof <==> i == frames.len() - 1)
        }),
{
    let format = header_format(bytes);
    let bits = format.bits_per_sample as int;
    let width = sample_width(bits);
    let channels = format.channels as int;
    let body = whole_steps(bytes);
    let samples = unpack_spec(body, bits);
    let frames = decode_stream(bytes)->Ok_0;
    lemma_header_ok(bytes);
    assert(samples.len() as int % channels == 0) by {
        assert(0 < channels * width) by (nonlinear_arith)
            requires
                0 < channels,
                0 < width,
        ;
        lemma_whole_len(payload(bytes).len() as int, channels * width);
        lemma_steps_to_samples(body.len() as int, channels, width);
    }
    lemma_unpack_in_range(body, bits);
    assert(frames[0].wf());
    assert(frames[1].wf()) by {
        assert(0int % channels == 0) by (nonlinear_arith)
            requires
                0 < channels,
        ;
    }
}

/// A buffer of whole time steps holds a whole number of samples for every
/// channel.
proof fn lemma_steps_to_samples(len: int, channels: int, width: int)
    requires
        0 <= len,
        0 < channels,
        0 < width,
        len % (channels * width) == 0,
    ensures
        (len / width) % channels == 0,
        len % width == 0,
{
    let step = channels * width;
    assert(0 < step) by (nonlinear_arith)
        requires
            step == channels * width,
            0 < channels,
            0 < width,
    ;
    let q = len / step;
    lemma_fundamental_div_mod(len, step);
    assert(len == (q * channels) * width) by (nonlinear_arith)
        requires
            len == step * q,
            step == channels * width,
    ;
    lemma_fundamental_div_mod_converse(len, width, q * channels, 0);
    lemma_mod_multiples_basic(q, channels);
}

/// A container that starts with the header of a format that the header has
/// room for reads back as that format, with the sizes that were written and
/// with everything after the header as its data.
pub proof fn lemma_header_reads_back(format: WavFormat, data_len: int, data: Seq<u8>)
    requires
        format.fits(),
        0 <= data_len,
        GROUP_OVERHEAD + data_len <= u32::MAX,
    ensures
        header_image(format, data_len).len() == HEADER_LEN,
        header_ok(header_image(format, data_len) + data),
        header_format(header_image(format, data_len) + data) == format,
        payload(header_image(format, data_len) + data) == data,
        le_u32_at(header_image(format, data_len) + data, GROUP_SIZE_OFFSET as int) == GROUP_OVERHEAD
            + data_len,
        le_u32_at(header_image(format, data_len) + data, DATA_SIZE_OFFSET as int) == data_len,
{
    reveal(header_ok);
    reveal(header_image);
    let file = header_image(format, data_len) + data;
    let block = format_block(format);
    assert(block.len() == 32);
    lemma_read_written(RIFF_CHUNK_ID as int);
    lemma_read_written(GROUP_OVERHEAD + data_len);
    lemma_read_written(RIFF_FORMAT as int);
    lemma_read_written(FMT_CHUNK_ID as int);
    lemma_read_written(AUDIO_FORMAT_PCM as int);
    lemma_read_written(format.channels as int);
    lemma_read_written(format.sample_rate as int);
    lemma_read_written(format.bits_per_sample as int);
    lemma_read_written(DATA_CHUNK_ID as int);
    lemma_read_written(data_len);
    assert(be_u32_at(file, 0) == be_u32_at(u32_be_bytes(RIFF_CHUNK_ID as int), 0));
    assert(le_u32_at(file, 4) == le_u32_at(u32_le_bytes(GROUP_OVERHEAD + data_len), 0));
    assert(be_u32_at(file, 8) == be_u32_at(u32_be_bytes(RIFF_FORMAT as int), 0)) by {
        assert(forall|k: int| 0 <= k < 4 ==> file[8 + k] == #[trigger] block[k]);
    }
    assert(be_u32_at(file, 12) == be_u32_at(u32_be_bytes(FMT_CHUNK_ID as int), 0)) by {
        assert(forall|k: int| 4 <= k < 8 ==> file[8 + k] == #[trigger] block[k]);
    }
    assert(le_u16_at(file, 20) == le_u16_at(u16_le_bytes(AUDIO_FORMAT_PCM as int), 0)) by {
        assert(forall|k: int| 12 <= k < 14 ==> file[8 + k] == #[trigger] block[k]);
    }
    assert(le_u16_at(file, 22) == le_u16_at(u16_le_bytes(format.channels as int), 0)) by {
        assert(forall|k: int| 14 <= k < 16 ==> file[8 + k] == #[trigger] block[k]);
    }
    assert(le_u32_at(file, 24) == le_u32_at(u32_le_bytes(format.sample_rate as int), 0)) by {
        assert(forall|k: int| 16 <= k < 20 ==> file[8 + k] == #[trigger] block[k]);
    }
    assert(le_u16_at(file, 34) == le_u16_at(u16_le_bytes(format.bits_per_sample as int), 0)) by {
        assert(forall|k: int| 26 <= k < 28 ==> file[8 + k] == #[trigger] block[k]);
    }
    assert(be_u32_at(file, 36) == be_u32_at(u32_be_bytes(DATA_CHUNK_ID as int), 0)) by {
        assert(forall|k: int| 28 <= k < 32 ==> file[8 + k] == #[trigger] block[k]);
    }
    assert(le_u32_at(file, 40) == le_u32_at(u32_le_bytes(data_len), 0));
    assert(payload(file) =~= data);
}

/// The audio of a container is made of whole samples and whole time steps,
/// and it is all of the data where the data leave no partial time step.
pub proof fn lemma_whole_steps(bytes: Seq<u8>)
    requires
        header_ok(bytes),
        supported_depth(header_format(bytes).bits_per_sample as int),
    ensures
        whole_steps(bytes).len() <= payload(bytes).len(),
        whole_steps(bytes).len() as int % header_format(bytes).block_align() == 0,
        whole_steps(bytes).len() as int % sample_width(header_format(bytes).bits_per_sample as int)
            == 0,
        payload(bytes).len() as int % header_format(bytes).block_align() == 0 ==> whole_steps(bytes)
            == payload(bytes),
{
    let format = header_format(bytes);
    let width = sample_width(format.bits_per_sample as int);
    let channels = format.channels as int;
    let step = format.block_align();
    let len = payload(bytes).len() as int;
    lemma_header_ok(bytes);
    assert(0 < step) by (nonlinear_arith)
        requires
            step == channels * width,
            0 < channels,
            0 < width,
    ;
    lemma_whole_len(len, step);
    lemma_steps_to_samples(whole_steps(bytes).len() as int, channels, width);
    if len % step == 0 {
        lemma_fundamental_div_mod(len, step);
        assert(step * (len / step) == (len / step) * step) by (nonlinear_arith);
        assert(whole_steps(bytes) =~= payload(bytes));
    }
}

} // verus!
