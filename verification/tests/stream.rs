use yamux_low_mem::chunk::{ChunkView, DEFAULT_CHUNK_CAPACITY};
use yamux_low_mem::frame::FrameStreamEvent;
use yamux_low_mem::packet::Flags;
use yamux_low_mem::stream::{
    HeadPoll, Pulled, ReadPoll, SendReady, StreamInputError, WritePoll, YamuxStream,
    YamuxStreamHead, INITIAL_WINDOW,
};

fn emitted(poll: HeadPoll) -> FrameStreamEvent {
    match poll {
        HeadPoll::Emit(event) => event,
        other => panic!("no event: {other:?}"),
    }
}

/// An accepted head whose first frame is sent.
fn accepted() -> YamuxStreamHead {
    let mut head = YamuxStreamHead::accept();
    assert_eq!(
        emitted(head.poll_next()),
        FrameStreamEvent::WindowUpdate(Flags::ack(), INITIAL_WINDOW)
    );
    head
}

/// Sends one chunk of the user.
fn send(head: &mut YamuxStreamHead, len: usize) {
    assert!(matches!(head.poll_next(), HeadPoll::Pull));
    let chunk = ChunkView::from(vec![7u8; len]);
    assert_eq!(
        emitted(head.on_pulled(Pulled::Chunk(chunk.clone()))),
        FrameStreamEvent::Data(Flags::empty(), len as u32)
    );
    assert_eq!(emitted(head.poll_next()), FrameStreamEvent::DataChunk(chunk));
}

#[test]
fn open_stream_should_wait_remote_open() {
    let mut head = YamuxStreamHead::open();
    assert_eq!(
        emitted(head.poll_next()),
        FrameStreamEvent::WindowUpdate(Flags::syn(), INITIAL_WINDOW)
    );
    assert!(matches!(head.poll_next(), HeadPoll::Pending));

    // The acknowledgement opens the remote half.
    let delivered = head.on_input(FrameStreamEvent::WindowUpdate(Flags::ack(), 0)).unwrap();
    assert_eq!(delivered, None);
    assert!(matches!(head.poll_next(), HeadPoll::Pull));
}

#[test]
fn accept_stream_should_able_to_send_data() {
    let mut head = accepted();
    send(&mut head, 5);
    assert!(matches!(head.poll_next(), HeadPoll::Pull));
    assert!(matches!(head.on_pulled(Pulled::Pending), HeadPoll::Pending));
}

#[test]
fn haft_close_should_send_fin() {
    let mut head = accepted();
    send(&mut head, 5);

    // The user writes no more: the peer is told, and the remote half stays open.
    assert!(matches!(head.poll_next(), HeadPoll::Pull));
    let fin = emitted(head.on_pulled(Pulled::Ended));
    assert_eq!(fin, FrameStreamEvent::WindowUpdate(Flags::fin(), 0));
    assert!(fin.flags().unwrap().fin);
    assert!(matches!(head.poll_next(), HeadPoll::Pending));

    // The peer can still write.
    head.on_input(FrameStreamEvent::Data(Flags::empty(), 2)).unwrap();
    assert_eq!(
        head.on_input(FrameStreamEvent::DataChunk(vec![1u8, 2].into())),
        Ok(Some(ChunkView::from(vec![1u8, 2])))
    );
    assert!(matches!(head.poll_next(), HeadPoll::Pending));

    // The stream is over once the peer has closed its half too.
    head.on_input(FrameStreamEvent::WindowUpdate(Flags::fin(), 0)).unwrap();
    assert!(matches!(head.poll_next(), HeadPoll::Closed));
}

#[test]
fn fin_of_the_peer_ends_what_the_user_reads() {
    let mut head = accepted();

    // FIN ends what the user reads with an empty chunk, and closes the remote half only.
    let delivered = head.on_input(FrameStreamEvent::WindowUpdate(Flags::fin(), 0)).unwrap();
    assert_eq!(delivered, Some(ChunkView::from(Vec::<u8>::new())));

    let mut stream = YamuxStream::new();
    let mut buf = [9u8; 4];
    assert_eq!(stream.poll_read(Pulled::Chunk(delivered.unwrap()), &mut buf), ReadPoll::Read(0));
    assert_eq!(buf, [9u8; 4]);

    // The user can still write back, also after an update that carries ACK.
    send(&mut head, 3);
    head.on_input(FrameStreamEvent::WindowUpdate(Flags::ack(), 3)).unwrap();
    send(&mut head, 4);
    assert!(matches!(head.poll_next(), HeadPoll::Pull));
    assert_eq!(
        emitted(head.on_pulled(Pulled::Ended)),
        FrameStreamEvent::WindowUpdate(Flags::fin(), 0)
    );
    assert!(matches!(head.poll_next(), HeadPoll::Closed));
}

#[test]
fn fin_before_ack_opens_the_stream() {
    let mut head = YamuxStreamHead::open();
    emitted(head.poll_next());
    assert!(matches!(head.poll_next(), HeadPoll::Pending));
    head.on_input(FrameStreamEvent::WindowUpdate(Flags::fin(), 0)).unwrap();
    send(&mut head, 2);
    assert_eq!(
        emitted(match head.poll_next() {
            HeadPoll::Pull => head.on_pulled(Pulled::Ended),
            other => other,
        }),
        FrameStreamEvent::WindowUpdate(Flags::fin(), 0)
    );
    assert!(matches!(head.poll_next(), HeadPoll::Closed));
}

#[test]
fn wrong_data_chunk_size_should_return_error() {
    let mut head = accepted();
    assert_eq!(head.on_input(FrameStreamEvent::Data(Flags::empty(), 3)), Ok(None));
    assert_eq!(
        head.on_input(FrameStreamEvent::DataChunk(vec![1u8; 4].into())),
        Err(StreamInputError::ChunkTooLarge)
    );

    // The refused chunk left the payload as it was.
    assert_eq!(
        head.on_input(FrameStreamEvent::DataChunk(vec![1u8; 3].into())),
        Ok(Some(ChunkView::from(vec![1u8; 3])))
    );
}

#[test]
fn wrong_data_chunk_state_should_return_error() {
    let mut head = accepted();
    assert_eq!(
        head.on_input(FrameStreamEvent::DataChunk(vec![1u8].into())),
        Err(StreamInputError::ChunkWithoutData)
    );
    assert_eq!(head.on_input(FrameStreamEvent::Data(Flags::empty(), 2)), Ok(None));
    assert_eq!(
        head.on_input(FrameStreamEvent::Data(Flags::empty(), 2)),
        Err(StreamInputError::DataWhileReceiving)
    );
}

#[test]
fn should_pending_after_exceed_window() {
    let mut head = accepted();
    let mut left: usize = INITIAL_WINDOW as usize;
    while left >= DEFAULT_CHUNK_CAPACITY {
        send(&mut head, DEFAULT_CHUNK_CAPACITY);
        left -= DEFAULT_CHUNK_CAPACITY;
    }
    assert_eq!(left, 262_144 % DEFAULT_CHUNK_CAPACITY);
    assert!(matches!(head.poll_next(), HeadPoll::Pending));
}

#[test]
fn should_send_window_update_after_received_large_data() {
    let mut head = accepted();
    let mut granted: u64 = 0;
    let mut received: u64 = 0;
    for _ in 0..100 {
        head.on_input(FrameStreamEvent::Data(Flags::empty(), DEFAULT_CHUNK_CAPACITY as u32))
            .unwrap();
        head.on_input(FrameStreamEvent::DataChunk(vec![1u8; DEFAULT_CHUNK_CAPACITY].into()))
            .unwrap();
        received += DEFAULT_CHUNK_CAPACITY as u64;
        if let HeadPoll::Emit(event) = head.poll_next() {
            match event {
                FrameStreamEvent::WindowUpdate(flags, delta) => {
                    assert_eq!(flags, Flags::ack());
                    granted += delta as u64;
                }
                other => panic!("unexpected event: {other:?}"),
            }
        }
    }
    // All but the last bytes, fewer than half a window, came back.
    assert!(granted <= received);
    assert!(received - granted < INITIAL_WINDOW as u64 / 2);
    assert!(granted > INITIAL_WINDOW as u64);
}

#[test]
fn should_able_to_send_after_received_window_update() {
    let mut head = accepted();
    while let HeadPoll::Pull = head.poll_next() {
        head.on_pulled(Pulled::Chunk(vec![0u8; DEFAULT_CHUNK_CAPACITY].into()));
        head.poll_next();
    }
    assert!(matches!(head.poll_next(), HeadPoll::Pending));

    let update = FrameStreamEvent::WindowUpdate(Flags::empty(), DEFAULT_CHUNK_CAPACITY as u32);
    assert!(head.accepts(&update));
    head.on_input(update).unwrap();
    send(&mut head, DEFAULT_CHUNK_CAPACITY);
    assert!(matches!(head.poll_next(), HeadPoll::Pending));
}

#[test]
fn received_bytes_are_granted_half_a_window_at_a_time() {
    let mut head = accepted();
    head.on_input(FrameStreamEvent::Data(Flags::empty(), 10)).unwrap();
    head.on_input(FrameStreamEvent::DataChunk(vec![1u8; 10].into())).unwrap();
    assert!(matches!(head.poll_next(), HeadPoll::Pull));

    // Half a window less a chunk has to come together.
    let needed: usize = INITIAL_WINDOW as usize / 2 - DEFAULT_CHUNK_CAPACITY - 10;
    head.on_input(FrameStreamEvent::Data(Flags::empty(), needed as u32)).unwrap();
    head.on_input(FrameStreamEvent::DataChunk(vec![1u8; needed - 1].into())).unwrap();
    assert!(matches!(head.poll_next(), HeadPoll::Pull));
    head.on_input(FrameStreamEvent::DataChunk(vec![1u8; 1].into())).unwrap();
    assert_eq!(
        emitted(head.poll_next()),
        FrameStreamEvent::WindowUpdate(Flags::ack(), needed as u32 + 10)
    );
    assert!(matches!(head.poll_next(), HeadPoll::Pull));
}

#[test]
fn rst_closes_both_halves() {
    let mut head = accepted();
    let rst = Flags::new(false, false, false, true);
    assert_eq!(head.on_input(FrameStreamEvent::WindowUpdate(rst, 0)), Ok(None));
    assert!(matches!(head.poll_next(), HeadPoll::Closed));

    // A late ACK does not open it again.
    let mut head = YamuxStreamHead::open();
    head.on_input(FrameStreamEvent::WindowUpdate(rst, 0)).unwrap();
    head.on_input(FrameStreamEvent::WindowUpdate(Flags::ack(), 0)).unwrap();
    assert!(matches!(head.poll_next(), HeadPoll::Closed));
}

#[test]
fn payload_reaches_user_in_any_chunks() {
    let payload: Vec<u8> = (0..100u8).collect();
    for size in 1..payload.len() {
        let mut head = accepted();
        head.on_input(FrameStreamEvent::Data(Flags::empty(), 100)).unwrap();
        let mut got: Vec<u8> = Vec::new();
        for part in payload.chunks(size) {
            let delivered = head
                .on_input(FrameStreamEvent::DataChunk(part.to_vec().into()))
                .unwrap()
                .unwrap();
            got.extend_from_slice(&delivered);
        }
        assert_eq!(got, payload);
        assert_eq!(head.on_input(FrameStreamEvent::Data(Flags::empty(), 1)), Ok(None));
    }
}

#[test]
fn reads_go_through_a_chunk() {
    let mut stream = YamuxStream::new();
    let mut buf = [0u8; 3];
    assert!(stream.needs_chunk());
    assert_eq!(stream.poll_read(Pulled::Pending, &mut buf), ReadPoll::Pending);
    let chunk = ChunkView::from(vec![1u8, 2, 3, 4]);
    assert_eq!(stream.poll_read(Pulled::Chunk(chunk), &mut buf), ReadPoll::Read(3));
    assert_eq!(buf, [1, 2, 3]);
    assert!(!stream.needs_chunk());
    assert_eq!(stream.poll_read(Pulled::Pending, &mut buf), ReadPoll::Read(1));
    assert_eq!(buf, [4, 2, 3]);
    assert!(stream.needs_chunk());
    assert_eq!(stream.poll_read(Pulled::Ended, &mut buf), ReadPoll::Broken);
}

#[test]
fn writes_take_a_chunk_at_most() {
    let data = vec![3u8; DEFAULT_CHUNK_CAPACITY + 1];
    match YamuxStream::poll_write(SendReady::Ready, &data) {
        WritePoll::Send(chunk) => assert_eq!(&*chunk, &data[..DEFAULT_CHUNK_CAPACITY]),
        other => panic!("unexpected answer: {other:?}"),
    }
    match YamuxStream::poll_write(SendReady::Ready, &data[..2]) {
        WritePoll::Send(chunk) => assert_eq!(&*chunk, &[3u8, 3][..]),
        other => panic!("unexpected answer: {other:?}"),
    }
    assert!(matches!(YamuxStream::poll_write(SendReady::Pending, &data), WritePoll::Pending));
    assert!(matches!(YamuxStream::poll_write(SendReady::Closed, &data), WritePoll::Broken));
}
