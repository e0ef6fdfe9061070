use transcode::codec::frame::SinkPhase;
use transcode::codec::wav::read_wav;
use transcode::codec::wav_sink::WavSink;
use transcode::error::Error;
use transcode::pipeline::{transcode, Event, Pipeline, Stage};

fn container(channels: u16, rate: u32, bits: u16, sizes: u32, data: &[u8]) -> Vec<u8> {
    let mut file = Vec::new();
    file.extend_from_slice(b"RIFF");
    file.extend_from_slice(&(36 + sizes).to_le_bytes());
    file.extend_from_slice(b"WAVE");
    file.extend_from_slice(b"fmt ");
    file.extend_from_slice(&16u32.to_le_bytes());
    file.extend_from_slice(&1u16.to_le_bytes());
    file.extend_from_slice(&channels.to_le_bytes());
    file.extend_from_slice(&rate.to_le_bytes());
    file.extend_from_slice(&(rate * channels as u32 * bits as u32 / 8).to_le_bytes());
    file.extend_from_slice(&(channels * bits / 8).to_le_bytes());
    file.extend_from_slice(&bits.to_le_bytes());
    file.extend_from_slice(b"data");
    file.extend_from_slice(&sizes.to_le_bytes());
    file.extend_from_slice(data);
    file
}

fn ok(stage: Stage) -> Event {
    Event::Finished(stage, Ok(()))
}

fn failed(stage: Stage, e: Error) -> Event {
    Event::Finished(stage, Err(e))
}

fn after(events: &[Event]) -> Pipeline {
    let mut pipeline = Pipeline::new();
    for event in events {
        pipeline.on_event(*event);
    }
    pipeline
}

#[test]
fn two_frames_of_stereo_are_transcoded_byte_for_byte() {
    let data = [0x01, 0x00, 0xFF, 0xFF, 0x00, 0x80, 0xFF, 0x7F];
    let input = container(2, 44100, 16, 8, &data);
    let output = transcode(&input).unwrap();
    assert_eq!(&output[44..], &data);
    assert_eq!(u32::from_le_bytes([output[4], output[5], output[6], output[7]]), 44);
    assert_eq!(u32::from_le_bytes([output[40], output[41], output[42], output[43]]), 8);
    assert_eq!(output, input);
}

#[test]
fn the_size_fields_are_counted_anew() {
    let data = [0x01, 0x00, 0xFF, 0xFF, 0x00, 0x80, 0xFF, 0x7F];
    let input = container(2, 44100, 16, 1000, &data);
    assert_eq!(transcode(&input), Ok(container(2, 44100, 16, 8, &data)));
}

#[test]
fn a_wrong_group_id_fails_the_pipeline_before_anything_is_written() {
    let mut input = container(2, 44100, 16, 8, &[1, 0, 2, 0, 3, 0, 4, 0]);
    input[0] = b'X';
    assert_eq!(transcode(&input), Err(Error::MalformedContainer));

    // The same in steps: the source fails, the sink sees the channel close
    // before its first frame and is never asked to write.
    let mut pipeline = Pipeline::new();
    pipeline.on_event(Event::Started);
    let mut sink = WavSink::new();
    let source = read_wav(&input).map(|_| ());
    assert_eq!(source, Err(Error::MalformedContainer));
    pipeline.on_event(Event::Finished(Stage::Source, source));
    assert_eq!(pipeline, Pipeline::Failed(Error::MalformedContainer));
    let closed = sink.on_closed();
    assert_eq!(closed, Err(Error::ChannelBroken));
    assert_eq!(sink.phase(), SinkPhase::Failed);
    assert_eq!(sink.data_len(), 0);
    pipeline.on_event(Event::Finished(Stage::Sink, closed));
    assert_eq!(pipeline, Pipeline::Failed(Error::MalformedContainer));
    assert_eq!(pipeline.outcome(), Some(Err(Error::MalformedContainer)));
}

#[test]
fn an_empty_data_section_gives_a_valid_container() {
    let input = container(2, 44100, 16, 0, &[]);
    let output = transcode(&input).unwrap();
    assert_eq!(output.len(), 44);
    assert_eq!(u32::from_le_bytes([output[40], output[41], output[42], output[43]]), 0);
    assert_eq!(u32::from_le_bytes([output[4], output[5], output[6], output[7]]), 36);
    assert_eq!(output, input);
    assert!(read_wav(&output).is_ok());
}

#[test]
fn two_pipelines_give_the_same_bytes() {
    let data: Vec<u8> = (0..240u32).map(|i| (i * 7 % 256) as u8).collect();
    for bits in [8u16, 16, 24, 32] {
        for channels in [1u16, 2, 6] {
            let input = container(channels, 48000, bits, 240, &data);
            let first = transcode(&input);
            let second = transcode(&input);
            assert!(first.is_ok());
            assert_eq!(first, second);
        }
    }
    let mut bad = container(2, 48000, 16, 4, &[1, 2, 3, 4]);
    bad[9] = 0;
    assert_eq!(transcode(&bad), transcode(&bad));
}

#[test]
fn whole_time_steps_are_kept_and_a_partial_one_is_dropped() {
    let data: Vec<u8> = (1..=13).collect();
    let output = transcode(&container(2, 44100, 24, 13, &data)).unwrap();
    assert_eq!(output, container(2, 44100, 24, 12, &data[..12]));
}

#[test]
fn any_depth_and_channel_count_is_transcoded_byte_for_byte() {
    let data: Vec<u8> = (0..720u32).map(|i| (255 - i % 256) as u8).collect();
    for bits in [8u16, 16, 24, 32] {
        for channels in [1u16, 2, 6] {
            let input = container(channels, 8000, bits, 720, &data);
            assert_eq!(transcode(&input), Ok(input));
        }
    }
}

#[test]
fn an_unsupported_depth_fails_the_transcode() {
    let input = container(2, 44100, 12, 4, &[1, 2, 3, 4]);
    assert_eq!(transcode(&input), Err(Error::UnsupportedBitDepth));
}

#[test]
fn a_format_that_the_sink_has_no_room_for_fails_the_transcode() {
    // 65535 channels of four bytes: the block align does not fit its field.
    let mut input = container(1, 8000, 32, 0, &[]);
    input[22] = 0xFF;
    input[23] = 0xFF;
    assert!(read_wav(&input).is_ok());
    assert_eq!(transcode(&input), Err(Error::MalformedContainer));
}

#[test]
fn a_pipeline_starts_idle_and_runs_when_started() {
    assert_eq!(Pipeline::new(), Pipeline::Idle);
    assert_eq!(Pipeline::new().outcome(), None);
    let running = after(&[Event::Started]);
    assert_eq!(running, Pipeline::Running { source_done: false, sink_done: false });
    assert_eq!(running.outcome(), None);
}

#[test]
fn a_pipeline_completes_when_both_stages_have_finished() {
    let half = after(&[Event::Started, ok(Stage::Source)]);
    assert_eq!(half, Pipeline::Running { source_done: true, sink_done: false });
    assert_eq!(half.outcome(), None);
    let half = after(&[Event::Started, ok(Stage::Sink)]);
    assert_eq!(half, Pipeline::Running { source_done: false, sink_done: true });
    for order in [[Stage::Source, Stage::Sink], [Stage::Sink, Stage::Source]] {
        let done = after(&[Event::Started, ok(order[0]), ok(order[1])]);
        assert_eq!(done, Pipeline::Completed);
        assert_eq!(done.outcome(), Some(Ok(())));
    }
}

#[test]
fn one_stage_reporting_twice_does_not_complete_the_pipeline() {
    let state = after(&[Event::Started, ok(Stage::Source), ok(Stage::Source)]);
    assert_eq!(state, Pipeline::Running { source_done: true, sink_done: false });
}

#[test]
fn the_first_error_is_the_outcome() {
    let errors = [
        Error::OpenError,
        Error::MalformedContainer,
        Error::UnsupportedBitDepth,
        Error::WriteError,
        Error::NotSeekable,
        Error::ChannelBroken,
    ];
    for e in errors {
        for stage in [Stage::Source, Stage::Sink] {
            let state = after(&[Event::Started, failed(stage, e)]);
            assert_eq!(state, Pipeline::Failed(e));
            assert_eq!(state.outcome(), Some(Err(e)));
        }
    }
    let state = after(&[
        Event::Started,
        failed(Stage::Sink, Error::WriteError),
        failed(Stage::Source, Error::ChannelBroken),
    ]);
    assert_eq!(state.outcome(), Some(Err(Error::WriteError)));
    let state = after(&[
        Event::Started,
        failed(Stage::Source, Error::OpenError),
        failed(Stage::Sink, Error::ChannelBroken),
    ]);
    assert_eq!(state.outcome(), Some(Err(Error::OpenError)));
}

#[test]
fn a_failure_is_not_masked_by_a_success() {
    let state = after(&[Event::Started, ok(Stage::Source), failed(Stage::Sink, Error::NotSeekable)]);
    assert_eq!(state, Pipeline::Failed(Error::NotSeekable));
    let state = after(&[
        Event::Started,
        failed(Stage::Source, Error::MalformedContainer),
        ok(Stage::Sink),
        ok(Stage::Source),
    ]);
    assert_eq!(state, Pipeline::Failed(Error::MalformedContainer));
}

#[test]
fn a_settled_pipeline_stays_as_it_is() {
    let events = [
        Event::Started,
        ok(Stage::Source),
        ok(Stage::Sink),
        failed(Stage::Source, Error::OpenError),
        failed(Stage::Sink, Error::WriteError),
    ];
    for event in events {
        let mut done = Pipeline::Completed;
        done.on_event(event);
        assert_eq!(done, Pipeline::Completed);
        let mut broken = Pipeline::Failed(Error::ChannelBroken);
        broken.on_event(event);
        assert_eq!(broken, Pipeline::Failed(Error::ChannelBroken));
    }
}

#[test]
fn events_that_do_not_fit_the_state_change_nothing() {
    assert_eq!(after(&[ok(Stage::Source)]), Pipeline::Idle);
    assert_eq!(after(&[failed(Stage::Sink, Error::WriteError)]), Pipeline::Idle);
    assert_eq!(
        after(&[Event::Started, ok(Stage::Source), Event::Started]),
        Pipeline::Running { source_done: true, sink_done: false }
    );
}
