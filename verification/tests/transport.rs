use yamux_low_mem::chunk::ChunkView;
use yamux_low_mem::frame::{Frame, FrameSessionEvent, FrameStreamEvent};
use yamux_low_mem::packet::{Flags, ParserError, StreamID};
use yamux_low_mem::transport::{
    FlushEvent, FlushStep, ReadEvent, ReadStep, YamuxTransport, YamuxTransportError,
};

/// Flushes everything into a stream that takes at most `most` bytes at a time.
fn flush(transport: &mut YamuxTransport, stream: &mut Vec<u8>, most: usize) {
    let mut event = FlushEvent::Start;
    loop {
        match transport.poll_write(event) {
            FlushStep::Done => return,
            FlushStep::Write => {
                let front = transport.front_slice().expect("bytes to write");
                let len = front.len().min(most);
                stream.extend_from_slice(&front[..len]);
                event = FlushEvent::Written(len);
            }
            other => panic!("unexpected step: {other:?}"),
        }
    }
}

/// The next frame out of what the stream holds.
fn next(transport: &mut YamuxTransport, stream: &mut Vec<u8>) -> Option<Frame> {
    let mut step = transport.poll_next(ReadEvent::Start);
    loop {
        match step {
            ReadStep::Frame(frame) => return Some(frame),
            ReadStep::Pending => return None,
            ReadStep::NeedRead => {
                let event = if stream.is_empty() {
                    ReadEvent::Blocked
                } else {
                    let bytes: Vec<u8> = stream.drain(..).collect();
                    assert!(transport.can_buffer(bytes.len()));
                    ReadEvent::Bytes(bytes)
                };
                step = transport.poll_next(event);
            }
            other => panic!("unexpected step: {other:?}"),
        }
    }
}

#[test]
fn pipe_2_streams() {
    let mut left = YamuxTransport::new(64 * 1024);
    let mut right = YamuxTransport::new(64 * 1024);
    let mut pipe: Vec<u8> = Vec::new();

    let ping_frame = Frame::Session(FrameSessionEvent::Ping(Flags::empty(), 12345));
    assert!(left.poll_ready(true));

    // write to left
    assert!(left.has_room(&ping_frame));
    left.start_send(ping_frame.clone());

    // flush left
    flush(&mut left, &mut pipe, usize::MAX);

    // read from right
    assert_eq!(next(&mut right, &mut pipe), Some(ping_frame));
}

#[test]
fn pipe_2_streams_data() {
    let mut left = YamuxTransport::new(64 * 1024);
    let mut right = YamuxTransport::new(64 * 1024);
    let mut pipe: Vec<u8> = Vec::new();

    let data_frame = Frame::Stream(StreamID(1), FrameStreamEvent::Data(Flags::empty(), 5));
    let data_chunk = Frame::Stream(
        StreamID(1),
        FrameStreamEvent::DataChunk(ChunkView::from(vec![0; 5])),
    );
    assert!(left.poll_ready(true));

    // write to left
    left.start_send(data_frame.clone());
    left.start_send(data_chunk.clone());

    // flush left
    flush(&mut left, &mut pipe, usize::MAX);

    // read from right
    assert_eq!(next(&mut right, &mut pipe), Some(data_frame));
    assert_eq!(next(&mut right, &mut pipe), Some(data_chunk));
    assert_eq!(next(&mut right, &mut pipe), None);
}

#[test]
fn stream_may_take_few_bytes_at_a_time() {
    let mut left = YamuxTransport::new(100);
    let mut pipe: Vec<u8> = Vec::new();
    left.start_send(Frame::Session(FrameSessionEvent::GoAway(1)));
    left.start_send(Frame::Session(FrameSessionEvent::GoAway(2)));
    flush(&mut left, &mut pipe, 5);
    assert_eq!(
        pipe,
        vec![0, 3, 0, 0, 0, 0, 0, 0, 0, 0, 0, 1, 0, 3, 0, 0, 0, 0, 0, 0, 0, 0, 0, 2]
    );
}

#[test]
fn full_buffer_holds_frames_back() {
    let mut left = YamuxTransport::new(20);
    assert!(matches!(left.poll_write(FlushEvent::Start), FlushStep::Done));
    assert!(left.poll_ready(true));
    left.start_send(Frame::Session(FrameSessionEvent::GoAway(0)));

    // The stream blocks, and 12 bytes wait: there is room below the limit.
    assert!(matches!(left.poll_write(FlushEvent::Start), FlushStep::Write));
    assert!(matches!(left.poll_write(FlushEvent::Blocked), FlushStep::Pending));
    assert!(left.poll_ready(false));
    left.start_send(Frame::Session(FrameSessionEvent::GoAway(0)));

    // Now 24 bytes wait.
    assert!(!left.poll_ready(false));

    // A stream that took 5 of them leaves 19.
    assert!(matches!(left.poll_write(FlushEvent::Written(5)), FlushStep::Write));
    assert!(left.poll_ready(false));
}

#[test]
fn failures_of_the_stream_are_reported() {
    let mut left = YamuxTransport::new(20);
    left.start_send(Frame::Session(FrameSessionEvent::GoAway(0)));
    match left.poll_write(FlushEvent::Failed(String::from("gone"))) {
        FlushStep::Failed(error) => {
            assert_eq!(error, YamuxTransportError::Io(String::from("gone")));
        }
        other => panic!("unexpected step: {other:?}"),
    }
    match left.poll_next(ReadEvent::Failed(String::from("gone"))) {
        ReadStep::Failed(error) => {
            assert_eq!(error, YamuxTransportError::Io(String::from("gone")));
        }
        other => panic!("unexpected step: {other:?}"),
    }
    assert!(matches!(left.poll_next(ReadEvent::Bytes(Vec::new())), ReadStep::Ended));
}

#[test]
fn frames_that_cannot_be_parsed_are_reported() {
    let mut right = YamuxTransport::new(20);
    let bytes = vec![0u8, 77, 0, 0, 0, 0, 0, 0, 0, 0, 0, 0];
    match right.poll_next(ReadEvent::Bytes(bytes)) {
        ReadStep::Failed(error) => {
            assert_eq!(error, YamuxTransportError::ParserError(ParserError::UnknownType(77)));
        }
        other => panic!("unexpected step: {other:?}"),
    }
}

/// However often the stream blocks, no more than the limit and one frame wait.
#[test]
fn waiting_bytes_stay_bounded() {
    let limit: usize = 100;
    let mut left = YamuxTransport::new(limit);
    let mut sent: Vec<u8> = Vec::new();
    let mut taken: Vec<u8> = Vec::new();
    let mut round: u32 = 0;
    while round < 200 {
        // The stream takes a few bytes every third round and blocks otherwise.
        if let FlushStep::Write = left.poll_write(FlushEvent::Start) {
            if round % 3 == 0 {
                let front = left.front_slice().unwrap();
                let len = front.len().min(30);
                taken.extend_from_slice(&front[..len]);
                left.poll_write(FlushEvent::Written(len));
            }
            left.poll_write(FlushEvent::Blocked);
        }
        if left.poll_ready(false) {
            let frame = Frame::Session(FrameSessionEvent::GoAway(round));
            frame.write(&mut sent);
            left.start_send(frame);
        }
        assert!(sent.len() - taken.len() <= limit + 12);
        round += 1;
    }
    assert!(sent.len() > taken.len());
    flush(&mut left, &mut taken, 7);
    assert_eq!(taken, sent);
}
