use yamux_low_mem::chunk::{
    ChainedChunkBufferReader, ChainedChunkBufferWriter, ChunkBufferSource, ChunkView,
    DEFAULT_CHUNK_CAPACITY,
};
use yamux_low_mem::frame::{
    Frame, FrameReader, FrameSessionEvent, FrameStreamEvent, FrameWriter, FrameWriterError,
};
use yamux_low_mem::packet::{Flags, ParserError, StreamID};

#[test]
fn write_frame_then_parse() {
    let frame = Frame::Session(FrameSessionEvent::Ping(Flags::syn(), 123));

    let mut buf = ChainedChunkBufferWriter::new();
    frame.write(&mut buf);

    let mut view: ChunkView = buf.pop_front().expect("encoded header").into();
    assert_eq!(Frame::read(&mut view), Ok(Some(frame)));
}

#[test]
fn read_from_frame_bytes() {
    // version=0, type=WindowUpdate(1), flags=FIN(0x4), stream_id=7, delta=99
    let bytes = [
        0u8, 1u8, //
        0u8, 4u8, //
        0u8, 0u8, 0u8, 7u8, //
        0u8, 0u8, 0u8, 99u8,
    ];
    let mut view: ChunkView = bytes.to_vec().into();
    assert_eq!(
        Frame::read(&mut view),
        Ok(Some(Frame::Stream(
            StreamID(7),
            FrameStreamEvent::WindowUpdate(Flags::fin(), 99)
        )))
    );
    assert_eq!(view.len(), 0);
}

#[test]
fn pipe_writer_to_reader_frames() {
    let stream_id = StreamID(1);
    let data: Vec<u8> = (0..(DEFAULT_CHUNK_CAPACITY * 2 + 17)).map(|i| (i % 251) as u8).collect();

    let mut writer = FrameWriter::new(ChainedChunkBufferWriter::new());
    writer
        .write(Frame::Stream(
            stream_id,
            FrameStreamEvent::Data(Flags::empty(), data.len() as u32),
        ))
        .expect("should write");
    for chunk in data.chunks(777) {
        writer
            .write(Frame::Stream(stream_id, FrameStreamEvent::DataChunk(chunk.to_vec().into())))
            .expect("should write");
    }
    writer.write(Frame::Session(FrameSessionEvent::GoAway(0))).expect("should write");

    let buffer = writer.take();
    let mut reader = FrameReader::new(ChainedChunkBufferReader::from(buffer));

    let mut got_header = false;
    let mut got = Vec::new();
    let mut got_goaway = false;

    loop {
        match reader.next_frame().expect("should not fail") {
            None => break,
            Some(Frame::Stream(id, FrameStreamEvent::Data(_, size))) => {
                assert_eq!(id, stream_id);
                assert_eq!(size as usize, data.len());
                got_header = true;
            }
            Some(Frame::Stream(id, FrameStreamEvent::DataChunk(chunk))) => {
                assert_eq!(id, stream_id);
                got.extend_from_slice(&chunk);
            }
            Some(Frame::Session(FrameSessionEvent::GoAway(0))) => {
                got_goaway = true;
            }
            other => panic!("unexpected frame: {other:?}"),
        }
    }

    assert!(got_header);
    assert!(got_goaway);
    assert_eq!(got, data);
}

#[test]
fn small_data_frame() {
    let stream_id = StreamID(9);
    let data = b"hello".to_vec();
    let mut writer = FrameWriter::new(ChainedChunkBufferWriter::new());
    writer
        .write(Frame::Stream(
            stream_id,
            FrameStreamEvent::Data(Flags::empty(), data.len() as u32),
        ))
        .expect("should write");
    writer
        .write(Frame::Stream(stream_id, FrameStreamEvent::DataChunk(data.clone().into())))
        .expect("should write");

    let mut reader = FrameReader::new(ChainedChunkBufferReader::from(writer.take()));
    assert!(matches!(
        reader.next_frame().expect("should not fail"),
        Some(Frame::Stream(StreamID(9), FrameStreamEvent::Data(_, 5)))
    ));
    let chunk = match reader.next_frame().expect("should not fail").expect("should not fail") {
        Frame::Stream(StreamID(9), FrameStreamEvent::DataChunk(chunk)) => chunk,
        other => panic!("unexpected frame: {other:?}"),
    };
    assert_eq!(&*chunk, &data);
    assert_eq!(reader.next_frame().expect("should not fail"), None);
}

#[test]
fn large_data_frame() {
    let stream_id = StreamID(11);
    let data: Vec<u8> = (0..(DEFAULT_CHUNK_CAPACITY * 3 + 1)).map(|i| (i % 251) as u8).collect();
    let mut writer = FrameWriter::new(ChainedChunkBufferWriter::new());
    writer
        .write(Frame::Stream(
            stream_id,
            FrameStreamEvent::Data(Flags::empty(), data.len() as u32),
        ))
        .expect("should write");
    for chunk in data.chunks(DEFAULT_CHUNK_CAPACITY) {
        writer
            .write(Frame::Stream(stream_id, FrameStreamEvent::DataChunk(chunk.to_vec().into())))
            .expect("should write");
    }

    let mut reader = FrameReader::new(ChainedChunkBufferReader::from(writer.take()));
    let header = reader.next_frame().expect("should not fail");
    assert_eq!(
        header,
        Some(Frame::Stream(
            stream_id,
            FrameStreamEvent::Data(Flags::empty(), data.len() as u32)
        ))
    );

    let mut got = Vec::new();
    let mut chunks = 0usize;
    loop {
        match reader.next_frame().expect("should not fail") {
            None => break,
            Some(Frame::Stream(StreamID(11), FrameStreamEvent::DataChunk(chunk))) => {
                chunks += 1;
                got.extend_from_slice(&chunk);
            }
            other => panic!("unexpected frame: {other:?}"),
        }
    }
    assert!(chunks > 1);
    assert_eq!(got, data);
}

#[test]
fn reader_wrong_frame_type() {
    let stream_id = StreamID(1);
    let other_stream = StreamID(3);
    let mut writer = FrameWriter::new(ChainedChunkBufferWriter::new());

    writer
        .write(Frame::Stream(stream_id, FrameStreamEvent::Data(Flags::empty(), 3)))
        .expect("should write");

    let err = writer
        .write(Frame::Session(FrameSessionEvent::Ping(Flags::syn(), 0)))
        .unwrap_err();
    assert_eq!(err, FrameWriterError::UnexpectedFrameType);

    // Reset writer state.
    let mut writer = FrameWriter::new(ChainedChunkBufferWriter::new());
    writer
        .write(Frame::Stream(stream_id, FrameStreamEvent::Data(Flags::empty(), 3)))
        .expect("should write");
    let err = writer
        .write(Frame::Stream(other_stream, FrameStreamEvent::DataChunk(vec![1, 2, 3].into())))
        .unwrap_err();
    assert_eq!(err, FrameWriterError::InvalidStreamId);

    // Oversized chunk should error.
    let mut writer = FrameWriter::new(ChainedChunkBufferWriter::new());
    writer
        .write(Frame::Stream(stream_id, FrameStreamEvent::Data(Flags::empty(), 2)))
        .expect("should write");
    let err = writer
        .write(Frame::Stream(stream_id, FrameStreamEvent::DataChunk(vec![1, 2, 3].into())))
        .unwrap_err();
    assert_eq!(err, FrameWriterError::ChunkTooLarge);
}

#[test]
fn chunk_without_header_is_refused() {
    let mut writer = FrameWriter::new(ChainedChunkBufferWriter::new());
    let err = writer
        .write(Frame::Stream(StreamID(1), FrameStreamEvent::DataChunk(vec![1].into())))
        .unwrap_err();
    assert_eq!(err, FrameWriterError::UnexpectedFrameType);
    assert!(writer.pop_front().is_none());
}

#[test]
fn unknown_type_takes_its_header_away() {
    let mut bytes = vec![0u8, 9, 0, 0, 0, 0, 0, 1, 0, 0, 0, 0];
    bytes.extend_from_slice(&[0, 3, 0, 0, 0, 0, 0, 0, 0, 0, 0, 2]);
    let mut reader = FrameReader::new(ChainedChunkBufferReader::from(bytes));
    assert_eq!(reader.next_frame(), Err(ParserError::UnknownType(9)));
    assert_eq!(
        reader.next_frame(),
        Ok(Some(Frame::Session(FrameSessionEvent::GoAway(2))))
    );
    assert_eq!(reader.next_frame(), Ok(None));
}

#[test]
fn flags_of_events() {
    assert_eq!(FrameStreamEvent::Data(Flags::syn(), 1).flags(), Some(Flags::syn()));
    assert_eq!(FrameStreamEvent::WindowUpdate(Flags::fin(), 1).flags(), Some(Flags::fin()));
    assert_eq!(FrameStreamEvent::DataChunk(vec![1].into()).flags(), None);
}

/// However the bytes are cut on the way, the same frames come out.
#[test]
fn same_frames_come_out_of_any_pieces() {
    let mut bytes = ChainedChunkBufferWriter::new();
    Frame::Stream(StreamID(5), FrameStreamEvent::WindowUpdate(Flags::syn(), 262_144))
        .write(&mut bytes);
    Frame::Stream(StreamID(5), FrameStreamEvent::Data(Flags::empty(), 4)).write(&mut bytes);
    Frame::Stream(StreamID(5), FrameStreamEvent::DataChunk(vec![1, 2, 3, 4].into()))
        .write(&mut bytes);
    Frame::Session(FrameSessionEvent::GoAway(1)).write(&mut bytes);
    let bytes = bytes.into_bytes();
    assert_eq!(bytes.len(), 3 * 12 + 4);

    for piece in 1..bytes.len() {
        let mut reader = FrameReader::new(ChainedChunkBufferReader::new());
        let mut announced = Vec::new();
        let mut payload: Vec<u8> = Vec::new();
        for part in bytes.chunks(piece) {
            reader.push_back(part.to_vec().into());
            while let Some(frame) = reader.next_frame().unwrap() {
                match frame {
                    Frame::Stream(StreamID(5), FrameStreamEvent::DataChunk(chunk)) => {
                        payload.extend_from_slice(&chunk);
                    }
                    other => announced.push(other),
                }
            }
        }
        assert_eq!(payload, vec![1, 2, 3, 4]);
        assert_eq!(
            announced,
            vec![
                Frame::Stream(
                    StreamID(5),
                    FrameStreamEvent::WindowUpdate(Flags::syn(), 262_144)
                ),
                Frame::Stream(StreamID(5), FrameStreamEvent::Data(Flags::empty(), 4)),
                Frame::Session(FrameSessionEvent::GoAway(1)),
            ]
        );
        assert_eq!(reader.buffered_len(), 0);
    }
}
