use transcode::codec::wav::{
    build_header, parse_header, read_wav, WavFormat, DATA_CHUNK_ID, DATA_SIZE_OFFSET, FMT_CHUNK_ID,
    GROUP_SIZE_OFFSET, HEADER_LEN, RIFF_CHUNK_ID, RIFF_FORMAT,
};
use transcode::codec::frame::SinkPhase;
use transcode::codec::wav_sink::{write_wav, SinkStep, WavSink};
use transcode::codec::Frame;
use transcode::error::Error;

/// The header of a stereo file of 44100 Hz and 16 bits, written out by hand.
fn stereo_header(data_len: u8) -> Vec<u8> {
    vec![
        0x52, 0x49, 0x46, 0x46, // RIFF
        36 + data_len, 0x00, 0x00, 0x00, // group size
        0x57, 0x41, 0x56, 0x45, // WAVE
        0x66, 0x6D, 0x74, 0x20, // fmt
        0x10, 0x00, 0x00, 0x00, // format block size: 16
        0x01, 0x00, // linear PCM
        0x02, 0x00, // channels: 2
        0x44, 0xAC, 0x00, 0x00, // sample rate: 44100
        0x10, 0xB1, 0x02, 0x00, // byte rate: 176400
        0x04, 0x00, // block align: 4
        0x10, 0x00, // bits per sample: 16
        0x64, 0x61, 0x74, 0x61, // data
        data_len, 0x00, 0x00, 0x00, // data size
    ]
}

fn stereo_file(data: &[u8]) -> Vec<u8> {
    let mut file = stereo_header(data.len() as u8);
    file.extend_from_slice(data);
    file
}

/// Does to `out` what the driver of a sink does with a step.
fn perform(out: &mut Vec<u8>, step: &SinkStep) {
    out.extend_from_slice(&step.append);
    for patch in &step.patches {
        out[patch.offset..patch.offset + patch.bytes.len()].copy_from_slice(&patch.bytes);
    }
}

const STEREO: WavFormat = WavFormat { channels: 2, sample_rate: 44100, bits_per_sample: 16 };

#[test]
fn the_constants_spell_the_identifiers() {
    assert_eq!(RIFF_CHUNK_ID.to_be_bytes(), *b"RIFF");
    assert_eq!(RIFF_FORMAT.to_be_bytes(), *b"WAVE");
    assert_eq!(FMT_CHUNK_ID.to_be_bytes(), *b"fmt ");
    assert_eq!(DATA_CHUNK_ID.to_be_bytes(), *b"data");
    assert_eq!(HEADER_LEN, 44);
    assert_eq!(GROUP_SIZE_OFFSET, 4);
    assert_eq!(DATA_SIZE_OFFSET, 40);
}

#[test]
fn header_is_built_byte_for_byte() {
    assert_eq!(build_header(STEREO, 8), Ok(stereo_header(8)));
    assert_eq!(build_header(STEREO, 0), Ok(stereo_header(0)));
}

#[test]
fn header_numbers_are_written_in_their_byte_order() {
    let format = WavFormat { channels: 0x0102, sample_rate: 0x0003_0405, bits_per_sample: 8 };
    let header = build_header(format, 0x0A0B_0C0D).unwrap();
    assert_eq!(header.len(), 44);
    assert_eq!(&header[0..4], b"RIFF");
    assert_eq!(&header[4..8], &[0x31, 0x0C, 0x0B, 0x0A]);
    assert_eq!(&header[22..24], &[0x02, 0x01]);
    assert_eq!(&header[24..28], &[0x05, 0x04, 0x03, 0x00]);
    // The byte rate: 0x030405 * 0x0102 = 0x030A0D0A.
    assert_eq!(&header[28..32], &[0x0A, 0x0D, 0x0A, 0x03]);
    assert_eq!(&header[32..34], &[0x02, 0x01]);
    assert_eq!(&header[34..36], &[0x08, 0x00]);
    assert_eq!(&header[36..40], b"data");
    assert_eq!(&header[40..44], &[0x0D, 0x0C, 0x0B, 0x0A]);
}

#[test]
fn a_header_that_cannot_be_valid_is_not_built() {
    let odd = WavFormat { channels: 2, sample_rate: 44100, bits_per_sample: 12 };
    assert_eq!(build_header(odd, 0), Err(Error::UnsupportedBitDepth));
    assert_eq!(odd.check(), Err(Error::UnsupportedBitDepth));
    let silent = WavFormat { channels: 0, sample_rate: 44100, bits_per_sample: 16 };
    assert_eq!(build_header(silent, 0), Err(Error::MalformedContainer));
    assert_eq!(silent.check(), Err(Error::MalformedContainer));
    let still = WavFormat { channels: 2, sample_rate: 0, bits_per_sample: 16 };
    assert_eq!(build_header(still, 0), Err(Error::MalformedContainer));
    let wide = WavFormat { channels: 0x8000, sample_rate: 1, bits_per_sample: 16 };
    assert_eq!(build_header(wide, 0), Err(Error::MalformedContainer));
    let fast = WavFormat { channels: 1, sample_rate: 0xFFFF_FFFF, bits_per_sample: 16 };
    assert_eq!(build_header(fast, 0), Err(Error::MalformedContainer));
    assert_eq!(STEREO.check(), Ok(()));
    assert!(build_header(STEREO, 0xFFFF_FFFF - 36).is_ok());
    assert_eq!(build_header(STEREO, 0xFFFF_FFFF - 35), Err(Error::MalformedContainer));
}

#[test]
fn header_is_parsed() {
    assert_eq!(parse_header(&stereo_header(8)), Ok(STEREO));
    assert_eq!(parse_header(&stereo_file(&[1, 2, 3, 4])), Ok(STEREO));
}

#[test]
fn header_numbers_are_read_in_their_byte_order() {
    let mut header = stereo_header(0);
    header[22] = 0x02;
    header[23] = 0x01;
    header[24..28].copy_from_slice(&[0x06, 0x05, 0x04, 0x03]);
    header[34] = 0x18;
    header[35] = 0x00;
    assert_eq!(
        parse_header(&header),
        Ok(WavFormat { channels: 0x0102, sample_rate: 0x0304_0506, bits_per_sample: 24 })
    );
}

#[test]
fn built_headers_parse_back() {
    for bits in [8u16, 16, 24, 32] {
        for channels in [1u16, 2, 6] {
            let format = WavFormat { channels, sample_rate: 48000, bits_per_sample: bits };
            assert_eq!(parse_header(&build_header(format, 1234).unwrap()), Ok(format));
        }
    }
}

#[test]
fn a_wrong_identifier_is_refused() {
    for at in [0usize, 1, 2, 3, 8, 9, 10, 11, 12, 13, 14, 15, 36, 37, 38, 39] {
        let mut header = stereo_header(0);
        header[at] ^= 0x01;
        assert_eq!(parse_header(&header), Err(Error::MalformedContainer));
        assert_eq!(read_wav(&header), Err(Error::MalformedContainer));
    }
    // The identifiers are not read in the other byte order.
    let mut header = stereo_header(0);
    header[0..4].copy_from_slice(b"FFIR");
    assert_eq!(parse_header(&header), Err(Error::MalformedContainer));
}

#[test]
fn an_audio_format_other_than_pcm_is_refused() {
    let mut header = stereo_header(0);
    header[20] = 3;
    assert_eq!(parse_header(&header), Err(Error::MalformedContainer));
    let mut header = stereo_header(0);
    header[21] = 1;
    assert_eq!(parse_header(&header), Err(Error::MalformedContainer));
}

#[test]
fn a_truncated_header_is_refused() {
    let header = stereo_header(0);
    for len in 0..44 {
        assert_eq!(parse_header(&header[..len]), Err(Error::MalformedContainer));
        assert_eq!(read_wav(&header[..len]), Err(Error::MalformedContainer));
    }
}

#[test]
fn no_channel_or_no_rate_is_refused() {
    let mut header = stereo_header(0);
    header[22] = 0;
    assert_eq!(parse_header(&header), Err(Error::MalformedContainer));
    let mut header = stereo_header(0);
    header[24] = 0;
    header[25] = 0;
    assert_eq!(parse_header(&header), Err(Error::MalformedContainer));
}

#[test]
fn the_size_fields_are_not_looked_at_when_reading() {
    let mut file = stereo_file(&[1, 0, 2, 0]);
    file[4..8].copy_from_slice(&[0xFF, 0xFF, 0xFF, 0xFF]);
    file[28..34].copy_from_slice(&[0, 0, 0, 0, 0, 0]);
    file[40..44].copy_from_slice(&[0, 0, 0, 0]);
    let frames = read_wav(&file).unwrap();
    assert_eq!(frames[0].samples, vec![1, 2]);
}

#[test]
fn a_container_becomes_a_data_frame_and_a_terminal_frame() {
    let file = stereo_file(&[0x01, 0x00, 0xFF, 0xFF, 0x00, 0x80, 0xFF, 0x7F]);
    let frames = read_wav(&file).unwrap();
    assert_eq!(
        frames,
        vec![
            Frame {
                channels: 2,
                sample_rate: 44100,
                bits_per_sample: 16,
                samples: vec![1, -1, -32768, 32767],
                eof: false,
            },
            Frame {
                channels: 2,
                sample_rate: 44100,
                bits_per_sample: 16,
                samples: vec![],
                eof: true,
            },
        ]
    );
}

#[test]
fn an_unsupported_depth_in_the_header_is_refused() {
    let mut file = stereo_file(&[1, 2, 3, 4]);
    file[34] = 12;
    assert_eq!(parse_header(&file).map(|f| f.bits_per_sample), Ok(12));
    assert_eq!(read_wav(&file), Err(Error::UnsupportedBitDepth));
    // A header that is amiss is reported before the depth.
    file[0] = b'X';
    assert_eq!(read_wav(&file), Err(Error::MalformedContainer));
}

#[test]
fn a_partial_time_step_at_the_end_is_dropped() {
    for extra in 1..4usize {
        let mut data = vec![0x01, 0x00, 0x02, 0x00];
        data.extend(std::iter::repeat(0x55).take(extra));
        let frames = read_wav(&stereo_file(&data)).unwrap();
        assert_eq!(frames[0].samples, vec![1, 2]);
    }
}

#[test]
fn decoded_frames_hold_whole_time_steps() {
    for channels in [1u8, 2, 6] {
        for bits in [8u8, 16, 24, 32] {
            for len in 0..60usize {
                let mut file = stereo_header(0);
                file[22] = channels;
                file[34] = bits;
                file.extend((0..len).map(|i| i as u8));
                let frames = read_wav(&file).unwrap();
                assert_eq!(frames.len(), 2);
                for frame in &frames {
                    assert_eq!(frame.channels, channels as usize);
                    assert_eq!(frame.sample_rate, 44100);
                    assert_eq!(frame.bits_per_sample, bits as usize);
                    assert_eq!(frame.samples.len() % frame.channels, 0);
                }
                let step = channels as usize * (bits as usize / 8);
                assert_eq!(frames[0].samples.len(), (len / step) * channels as usize);
                assert!(!frames[0].eof);
                assert!(frames[1].eof);
                assert!(frames[1].samples.is_empty());
            }
        }
    }
}

#[test]
fn a_stream_becomes_a_container() {
    let frames = vec![
        Frame::data(2, 44100, 16, vec![1, -1]),
        Frame::data(2, 44100, 16, vec![-32768, 32767]),
        Frame::terminal(2, 44100, 16),
    ];
    assert_eq!(
        write_wav(&frames),
        Ok(stereo_file(&[0x01, 0x00, 0xFF, 0xFF, 0x00, 0x80, 0xFF, 0x7F]))
    );
}

#[test]
fn a_stream_without_data_becomes_a_bare_header() {
    assert_eq!(write_wav(&[Frame::terminal(2, 44100, 16)]), Ok(stereo_header(0)));
    assert_eq!(
        write_wav(&[Frame::data(2, 44100, 16, vec![]), Frame::terminal(2, 44100, 16)]),
        Ok(stereo_header(0))
    );
}

#[test]
fn a_stream_that_never_ends_is_broken() {
    assert_eq!(write_wav(&[]), Err(Error::ChannelBroken));
    assert_eq!(write_wav(&[Frame::data(2, 44100, 16, vec![1, 2])]), Err(Error::ChannelBroken));
}

#[test]
fn what_the_terminal_frame_carries_is_not_written() {
    let mut last = Frame::terminal(2, 44100, 16);
    last.samples = vec![7, 7];
    let frames = vec![Frame::data(2, 44100, 16, vec![1, 2]), last];
    assert_eq!(write_wav(&frames), Ok(stereo_file(&[1, 0, 2, 0])));
}

#[test]
fn what_follows_the_terminal_frame_is_not_written() {
    let frames = vec![
        Frame::data(2, 44100, 16, vec![1, 2]),
        Frame::terminal(2, 44100, 16),
        Frame::data(2, 44100, 16, vec![3, 4]),
    ];
    assert_eq!(write_wav(&frames), Ok(stereo_file(&[1, 0, 2, 0])));
}

#[test]
fn the_first_frame_fixes_the_format() {
    let frames = vec![
        Frame::data(2, 44100, 16, vec![1, 2]),
        Frame::data(1, 8000, 8, vec![3, 4]),
        Frame::terminal(6, 96000, 32),
    ];
    assert_eq!(write_wav(&frames), Ok(stereo_file(&[1, 0, 2, 0, 3, 0, 4, 0])));
}

#[test]
fn a_stream_of_an_unsupported_depth_is_refused() {
    let frames = vec![Frame::data(2, 44100, 12, vec![1, 2]), Frame::terminal(2, 44100, 12)];
    assert_eq!(write_wav(&frames), Err(Error::UnsupportedBitDepth));
    // The depth is looked at before the rest of the format.
    assert_eq!(write_wav(&[Frame::terminal(0, 0, 12)]), Err(Error::UnsupportedBitDepth));
}

#[test]
fn a_format_without_room_in_the_header_is_refused() {
    assert_eq!(write_wav(&[Frame::terminal(0, 44100, 16)]), Err(Error::MalformedContainer));
    assert_eq!(write_wav(&[Frame::terminal(2, 0, 16)]), Err(Error::MalformedContainer));
    assert_eq!(write_wav(&[Frame::terminal(65536, 44100, 16)]), Err(Error::MalformedContainer));
    // The block align of 32768 channels of two bytes is 65536.
    assert_eq!(write_wav(&[Frame::terminal(32768, 1, 16)]), Err(Error::MalformedContainer));
    assert!(write_wav(&[Frame::terminal(32767, 1, 16)]).is_ok());
    // The byte rate of 4294967295 Hz is too large from two bytes a time step on.
    assert!(write_wav(&[Frame::terminal(1, 0xFFFF_FFFF, 8)]).is_ok());
    assert_eq!(write_wav(&[Frame::terminal(1, 0xFFFF_FFFF, 16)]), Err(Error::MalformedContainer));
    assert_eq!(write_wav(&[Frame::terminal(2, 0x8000_0000, 8)]), Err(Error::MalformedContainer));
}

#[test]
fn written_sizes_count_the_data() {
    for (bits, width) in [(8usize, 1usize), (16, 2), (24, 3), (32, 4)] {
        let frames = vec![
            Frame::data(1, 8000, bits, vec![1, 2, 3]),
            Frame::data(1, 8000, bits, vec![4, 5]),
            Frame::data(1, 8000, bits, vec![]),
            Frame::data(1, 8000, bits, vec![6]),
            Frame::terminal(1, 8000, bits),
        ];
        let file = write_wav(&frames).unwrap();
        assert_eq!(file.len(), 44 + 6 * width);
        let group = u32::from_le_bytes([file[4], file[5], file[6], file[7]]);
        let data = u32::from_le_bytes([file[40], file[41], file[42], file[43]]);
        assert_eq!(data as usize, 6 * width);
        assert_eq!(group as usize, 36 + 6 * width);
    }
}

#[test]
fn the_sink_steps_through_a_stream() {
    let mut sink = WavSink::new();
    let mut out = Vec::new();

    let step = sink.on_frame(&Frame::data(2, 44100, 16, vec![1, 2])).unwrap();
    let mut expected = stereo_header(0);
    expected.extend_from_slice(&[1, 0, 2, 0]);
    assert_eq!(step.append, expected);
    assert!(step.patches.is_empty());
    assert!(!step.finished);
    perform(&mut out, &step);

    let step = sink.on_frame(&Frame::data(2, 44100, 16, vec![3, 4])).unwrap();
    assert_eq!(step.append, vec![3, 0, 4, 0]);
    assert!(step.patches.is_empty());
    assert!(!step.finished);
    perform(&mut out, &step);

    let step = sink.on_frame(&Frame::terminal(2, 44100, 16)).unwrap();
    assert!(step.append.is_empty());
    assert_eq!(step.patches.len(), 2);
    assert_eq!(step.patches[0].offset, 4);
    assert_eq!(step.patches[0].bytes, vec![44, 0, 0, 0]);
    assert_eq!(step.patches[1].offset, 40);
    assert_eq!(step.patches[1].bytes, vec![8, 0, 0, 0]);
    assert!(step.finished);
    perform(&mut out, &step);

    assert_eq!(out, stereo_file(&[1, 0, 2, 0, 3, 0, 4, 0]));
    assert_eq!(sink.on_closed(), Ok(()));
}

#[test]
fn stepping_the_sink_gives_what_write_wav_gives() {
    let frames = vec![
        Frame::data(6, 48000, 24, (0..12).collect()),
        Frame::data(6, 48000, 24, (-6..0).collect()),
        Frame::terminal(6, 48000, 24),
    ];
    let mut sink = WavSink::new();
    let mut out = Vec::new();
    for frame in &frames {
        let step = sink.on_frame(frame).unwrap();
        perform(&mut out, &step);
    }
    assert_eq!(Ok(out), write_wav(&frames));
}

#[test]
fn the_sink_tells_where_it_stands() {
    let mut sink = WavSink::new();
    assert_eq!(sink.phase(), SinkPhase::AwaitingFirst);
    assert!(sink.is_open());
    assert_eq!(sink.format(), None);
    assert_eq!(sink.data_len(), 0);

    sink.on_frame(&Frame::data(2, 44100, 16, vec![1, 2, 3, 4])).unwrap();
    assert_eq!(sink.phase(), SinkPhase::Streaming);
    assert!(sink.is_open());
    assert_eq!(sink.format(), Some(STEREO));
    assert_eq!(sink.data_len(), 8);

    sink.on_frame(&Frame::terminal(2, 44100, 16)).unwrap();
    assert_eq!(sink.phase(), SinkPhase::Finished);
    assert!(!sink.is_open());
    assert_eq!(sink.format(), Some(STEREO));
    assert_eq!(sink.data_len(), 8);
}

#[test]
fn a_finished_sink_takes_no_frame() {
    let mut sink = WavSink::new();
    sink.on_frame(&Frame::terminal(2, 44100, 16)).unwrap();
    assert_eq!(sink.on_frame(&Frame::data(2, 44100, 16, vec![1, 2])), Err(Error::ChannelBroken));
    assert_eq!(sink.on_frame(&Frame::terminal(2, 44100, 16)), Err(Error::ChannelBroken));
    assert_eq!(sink.phase(), SinkPhase::Finished);
    assert_eq!(sink.on_closed(), Ok(()));
}

#[test]
fn a_failed_sink_stays_failed() {
    let mut sink = WavSink::new();
    assert_eq!(sink.on_frame(&Frame::data(2, 44100, 7, vec![1, 2])), Err(Error::UnsupportedBitDepth));
    assert_eq!(sink.phase(), SinkPhase::Failed);
    assert_eq!(sink.on_frame(&Frame::data(2, 44100, 16, vec![1, 2])), Err(Error::ChannelBroken));
    assert_eq!(sink.on_closed(), Err(Error::ChannelBroken));
    assert_eq!(sink.phase(), SinkPhase::Failed);
}

#[test]
fn a_source_that_goes_away_early_breaks_the_stream() {
    let mut sink = WavSink::new();
    assert_eq!(sink.on_closed(), Err(Error::ChannelBroken));
    assert_eq!(sink.phase(), SinkPhase::Failed);

    let mut sink = WavSink::new();
    sink.on_frame(&Frame::data(2, 44100, 16, vec![1, 2])).unwrap();
    assert_eq!(sink.on_closed(), Err(Error::ChannelBroken));
    assert_eq!(sink.phase(), SinkPhase::Failed);
}

#[test]
fn a_stream_survives_the_container() {
    for channels in [1usize, 2, 6] {
        let cases: [(usize, Vec<i32>); 4] = [
            (8, vec![0, 1, 127, 128, 200, 255]),
            (16, vec![0, -1, 32767, -32768, 12345, -12345]),
            (24, vec![0, -1, 8_388_607, -8_388_608, 1_000_000, -1_000_000]),
            (32, vec![0, -1, i32::MAX, i32::MIN, 1_000_000_000, -1_000_000_000]),
        ];
        for (bits, samples) in cases {
            let frames = vec![
                Frame::data(channels, 22050, bits, samples.clone()),
                Frame::data(channels, 22050, bits, samples.clone()),
                Frame::terminal(channels, 22050, bits),
            ];
            let decoded = read_wav(&write_wav(&frames).unwrap()).unwrap();
            let mut all = samples.clone();
            all.extend_from_slice(&samples);
            assert_eq!(
                decoded,
                vec![
                    Frame::data(channels, 22050, bits, all),
                    Frame::terminal(channels, 22050, bits),
                ]
            );
            assert_eq!(decoded[0].samples.len() % channels, 0);
        }
    }
}
