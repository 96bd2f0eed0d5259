use std::collections::{HashMap, VecDeque};

use yamux_low_mem::chunk::{ChunkView, DEFAULT_CHUNK_CAPACITY};
use yamux_low_mem::frame::{Frame, FrameSessionEvent, FrameStreamEvent};
use yamux_low_mem::packet::{Flags, StreamID};
use yamux_low_mem::session::{
    Inbound, KeepAliveConfig, Outcome, SessionAction, SessionEvent, TickPoll, YamuxSession,
    YamuxSessionConfig,
};
use yamux_low_mem::stream::Pulled;
use yamux_low_mem::transport::{FlushEvent, FlushStep, ReadEvent, ReadStep, YamuxTransport};

/// The two channels between a session and the user of a stream.
#[derive(Default)]
struct Channels {
    to_session: VecDeque<ChunkView>,
    to_user: Vec<u8>,
    /// How many bytes the user had got each time it was told of the end.
    told_after: Vec<usize>,
    user_gone: bool,
}

/// A session with its transport and the users of its streams.
struct Side {
    session: YamuxSession,
    transport: YamuxTransport,
    users: HashMap<u32, Channels>,
    tick: TickPoll,
    now: u128,
}

impl Side {
    fn new(session: YamuxSession) -> Self {
        Side {
            session,
            transport: YamuxTransport::new(64 * 1024),
            users: HashMap::new(),
            tick: TickPoll::Pending,
            now: 0,
        }
    }

    fn open(&mut self) -> u32 {
        let StreamID(id) = self.session.open_stream();
        self.users.insert(id, Channels::default());
        id
    }

    fn flush(&mut self, output: &mut Vec<u8>) {
        let mut event = FlushEvent::Start;
        loop {
            match self.transport.poll_write(event) {
                FlushStep::Write => {
                    let front = self.transport.front_slice().unwrap();
                    output.extend_from_slice(front);
                    event = FlushEvent::Written(front.len());
                }
                _ => return,
            }
        }
    }

    fn next_frame(&mut self, input: &mut Vec<u8>) -> Inbound {
        let mut event = ReadEvent::Start;
        loop {
            match self.transport.poll_next(event) {
                ReadStep::Frame(frame) => return Inbound::Frame(frame),
                ReadStep::Pending => return Inbound::Pending,
                ReadStep::Ended => return Inbound::Ended,
                ReadStep::Failed(_) => return Inbound::Failed,
                ReadStep::NeedRead => {
                    event = if input.is_empty() {
                        ReadEvent::Blocked
                    } else {
                        ReadEvent::Bytes(input.drain(..).collect())
                    };
                }
            }
        }
    }

    /// One turn over two pipes of bytes.
    fn poll(&mut self, input: &mut Vec<u8>, output: &mut Vec<u8>) -> Outcome {
        let (mut turn, mut action) = self.session.begin();
        loop {
            let event = match action {
                SessionAction::PollTick => {
                    let tick = self.tick;
                    self.tick = TickPoll::Pending;
                    SessionEvent::Tick(tick)
                }
                SessionAction::PollReady => {
                    self.flush(output);
                    SessionEvent::Ready(true)
                }
                SessionAction::Send(frame) => {
                    self.transport.start_send(frame);
                    SessionEvent::Sent(true)
                }
                SessionAction::PollClose => {
                    self.flush(output);
                    SessionEvent::Closed(true)
                }
                SessionAction::PollInbound => SessionEvent::Inbound(self.next_frame(input)),
                SessionAction::Deliver(StreamID(id), chunk) => {
                    let channels = self.users.get_mut(&id).unwrap();
                    if chunk.is_empty() {
                        channels.told_after.push(channels.to_user.len());
                    }
                    channels.to_user.extend_from_slice(&chunk);
                    SessionEvent::Delivered
                }
                SessionAction::Pull(StreamID(id)) => {
                    let channels = self.users.get_mut(&id).unwrap();
                    SessionEvent::Pulled(match channels.to_session.pop_front() {
                        Some(chunk) => Pulled::Chunk(chunk),
                        None if channels.user_gone => Pulled::Ended,
                        None => Pulled::Pending,
                    })
                }
                SessionAction::Release(StreamID(id)) => {
                    self.users.remove(&id);
                    SessionEvent::Released
                }
                SessionAction::PollFlush => {
                    self.flush(output);
                    SessionEvent::Flushed(false)
                }
                SessionAction::Finish(outcome) => {
                    if let Outcome::Accepted(StreamID(id), _) = &outcome {
                        self.users.insert(*id, Channels::default());
                    }
                    return outcome;
                }
            };
            assert!(self.session.fits(&turn, &event));
            action = self.session.step_at(&mut turn, event, self.now);
        }
    }
}

fn plain_config() -> YamuxSessionConfig {
    YamuxSessionConfig {
        max_write_buffer: 64 * 1024,
        keep_alive_config: None,
    }
}

fn pair() -> (Side, Side) {
    (
        Side::new(YamuxSession::client(plain_config())),
        Side::new(YamuxSession::server(plain_config())),
    )
}

/// The frames that a byte stream holds.
fn frames(bytes: &[u8]) -> Vec<Frame> {
    let mut transport = YamuxTransport::new(0);
    let mut event = ReadEvent::Bytes(bytes.to_vec());
    let mut read = Vec::new();
    while let ReadStep::Frame(frame) = transport.poll_next(event) {
        read.push(frame);
        event = ReadEvent::Start;
    }
    read
}

#[test]
fn should_able_to_open_stream_and_receive_stream() {
    let (mut client, mut server) = pair();
    let mut to_server: Vec<u8> = Vec::new();
    let mut to_client: Vec<u8> = Vec::new();

    // The first frame of the stream is sent once the session is polled.
    let _client_stream = client.open();
    assert!(matches!(client.poll(&mut to_client, &mut to_server), Outcome::Pending));

    // Server should yield the accepted stream
    assert!(matches!(
        server.poll(&mut to_server, &mut to_client),
        Outcome::Accepted(StreamID(1), None)
    ));
}

#[test]
fn should_able_to_close_and_wait_sent_out() {
    let (mut client, mut server) = pair();
    let mut to_server: Vec<u8> = Vec::new();
    let mut to_client: Vec<u8> = Vec::new();

    client.session.close(0);

    assert!(matches!(client.poll(&mut to_client, &mut to_server), Outcome::Ended));
    assert!(matches!(server.poll(&mut to_server, &mut to_client), Outcome::Ended));
}

#[test]
fn data_goes_both_ways() {
    let (mut client, mut server) = pair();
    let mut to_server: Vec<u8> = Vec::new();
    let mut to_client: Vec<u8> = Vec::new();
    let id = client.open();
    let request: Vec<u8> = (0..20_000usize).map(|i| (i % 251) as u8).collect();
    for part in request.chunks(DEFAULT_CHUNK_CAPACITY) {
        client.users.get_mut(&id).unwrap().to_session.push_back(part.to_vec().into());
    }
    client.poll(&mut to_client, &mut to_server);
    assert!(matches!(
        server.poll(&mut to_server, &mut to_client),
        Outcome::Accepted(StreamID(1), None)
    ));
    server
        .users
        .get_mut(&id)
        .unwrap()
        .to_session
        .push_back(b"hello".to_vec().into());
    for _ in 0..3 {
        assert!(matches!(server.poll(&mut to_server, &mut to_client), Outcome::Pending));
        assert!(matches!(client.poll(&mut to_client, &mut to_server), Outcome::Pending));
    }
    assert_eq!(server.users[&id].to_user, request);
    assert_eq!(client.users[&id].to_user, b"hello".to_vec());
}

#[test]
fn sides_have_their_own_identifiers() {
    let (mut client, mut server) = pair();
    assert_eq!(client.session.open_stream(), StreamID(1));
    assert_eq!(client.session.open_stream(), StreamID(3));
    assert_eq!(client.session.open_stream(), StreamID(5));
    assert_eq!(server.session.open_stream(), StreamID(2));
    assert_eq!(server.session.open_stream(), StreamID(4));
}

#[test]
fn ping_is_echoed() {
    let (mut client, _) = pair();
    let mut input: Vec<u8> = vec![0, 2, 0, 1, 0, 0, 0, 0, 0, 0, 0, 9];
    let mut output: Vec<u8> = Vec::new();
    assert!(matches!(client.poll(&mut input, &mut output), Outcome::Pending));
    assert_eq!(output, vec![0, 2, 0, 2, 0, 0, 0, 0, 0, 0, 0, 9]);
}

#[test]
fn ping_without_flags_is_ignored() {
    let (mut client, _) = pair();
    client.session.on_ping(Flags::empty(), 4);
    client.session.on_ping(Flags::ack(), 4);
    let mut input: Vec<u8> = Vec::new();
    let mut output: Vec<u8> = Vec::new();
    assert!(matches!(client.poll(&mut input, &mut output), Outcome::Pending));
    assert!(output.is_empty());

    client.session.on_ping(Flags::syn(), 4);
    client.poll(&mut input, &mut output);
    assert_eq!(
        frames(&output),
        vec![Frame::Session(FrameSessionEvent::Ping(Flags::ack(), 4))]
    );
}

#[test]
fn keep_alive_pings_and_gives_up() {
    let cfg = YamuxSessionConfig {
        max_write_buffer: 64 * 1024,
        keep_alive_config: Some(KeepAliveConfig { interval: 10, timeout: 100 }),
    };
    let mut client = Side::new(YamuxSession::client(cfg));
    let mut server = Side::new(YamuxSession::server(plain_config()));
    let mut to_server: Vec<u8> = Vec::new();
    let mut to_client: Vec<u8> = Vec::new();

    // No tick, no ping.
    assert!(matches!(client.poll(&mut to_client, &mut to_server), Outcome::Pending));
    assert!(to_server.is_empty());

    client.tick = TickPoll::Elapsed;
    assert!(matches!(client.poll(&mut to_client, &mut to_server), Outcome::Wake));
    assert_eq!(
        frames(&to_server),
        vec![Frame::Session(FrameSessionEvent::Ping(Flags::syn(), 1))]
    );

    // The answer comes at 5, so the next ping is due at 15.
    assert!(matches!(server.poll(&mut to_server, &mut to_client), Outcome::Pending));
    client.now = 5;
    assert!(matches!(client.poll(&mut to_client, &mut to_server), Outcome::Pending));
    client.now = 14;
    client.tick = TickPoll::Elapsed;
    assert!(matches!(client.poll(&mut to_client, &mut to_server), Outcome::Wake));
    assert!(to_server.is_empty());
    client.now = 15;
    client.tick = TickPoll::Elapsed;
    assert!(matches!(client.poll(&mut to_client, &mut to_server), Outcome::Wake));
    assert_eq!(
        frames(&to_server),
        vec![Frame::Session(FrameSessionEvent::Ping(Flags::syn(), 2))]
    );

    // Nobody answers: at 115 the session closes itself.
    to_server.clear();
    client.now = 115;
    client.tick = TickPoll::Elapsed;
    assert!(matches!(client.poll(&mut to_client, &mut to_server), Outcome::Pending));
    assert!(matches!(client.poll(&mut to_client, &mut to_server), Outcome::Ended));
    assert_eq!(
        frames(&to_server),
        vec![Frame::Session(FrameSessionEvent::GoAway(0))]
    );
}

#[test]
fn interval_that_ends_closes_the_session() {
    let cfg = YamuxSessionConfig {
        max_write_buffer: 64 * 1024,
        keep_alive_config: Some(KeepAliveConfig::default()),
    };
    let mut client = Side::new(YamuxSession::client(cfg));
    client.tick = TickPoll::Ended;
    let mut input: Vec<u8> = Vec::new();
    let mut output: Vec<u8> = Vec::new();
    assert!(matches!(client.poll(&mut input, &mut output), Outcome::Pending));
    assert!(matches!(client.poll(&mut input, &mut output), Outcome::Ended));
}

#[test]
fn unknown_streams_are_ignored() {
    let (mut client, _) = pair();
    // A window update without SYN, and a data frame, for a stream that is not there.
    let mut input: Vec<u8> = vec![0, 1, 0, 2, 0, 0, 0, 8, 0, 0, 0, 1];
    input.extend_from_slice(&[0, 0, 0, 0, 0, 0, 0, 8, 0, 0, 0, 1, 42]);
    let mut output: Vec<u8> = Vec::new();
    assert!(matches!(client.poll(&mut input, &mut output), Outcome::Pending));
    assert!(output.is_empty());
}

#[test]
fn stream_can_be_opened_with_data() {
    let (_, mut server) = pair();
    let mut input: Vec<u8> = vec![0, 0, 0, 1, 0, 0, 0, 7, 0, 0, 0, 2, 5, 6];
    let mut output: Vec<u8> = Vec::new();
    assert!(matches!(
        server.poll(&mut input, &mut output),
        Outcome::Accepted(StreamID(7), None)
    ));
    assert!(matches!(server.poll(&mut input, &mut output), Outcome::Pending));
    assert_eq!(server.users[&7].to_user, vec![5, 6]);
}

#[test]
fn stream_that_is_over_is_released() {
    let (mut client, mut server) = pair();
    let mut to_server: Vec<u8> = Vec::new();
    let mut to_client: Vec<u8> = Vec::new();
    let id = client.open();
    client.poll(&mut to_client, &mut to_server);
    server.poll(&mut to_server, &mut to_client);
    server
        .users
        .get_mut(&id)
        .unwrap()
        .to_session
        .push_back(vec![1u8, 2, 3].into());
    server.users.get_mut(&id).unwrap().user_gone = true;
    assert!(matches!(server.poll(&mut to_server, &mut to_client), Outcome::Pending));

    // The server has closed its half, after its data; the stream stays for the client's half.
    let sent = frames(&to_client);
    assert_eq!(
        sent.last(),
        Some(&Frame::Stream(
            StreamID(id),
            FrameStreamEvent::WindowUpdate(Flags::fin(), 0)
        ))
    );
    assert!(server.users.contains_key(&id));
    assert!(matches!(client.poll(&mut to_client, &mut to_server), Outcome::Pending));
    assert_eq!(client.users[&id].to_user, vec![1, 2, 3]);

    // The client writes back, and closes its half: now the stream is over on both sides.
    client
        .users
        .get_mut(&id)
        .unwrap()
        .to_session
        .push_back(vec![4u8].into());
    client.users.get_mut(&id).unwrap().user_gone = true;
    assert!(matches!(client.poll(&mut to_client, &mut to_server), Outcome::Pending));
    assert!(!client.users.contains_key(&id));
    assert_eq!(
        frames(&to_server).last(),
        Some(&Frame::Stream(
            StreamID(id),
            FrameStreamEvent::WindowUpdate(Flags::fin(), 0)
        ))
    );
    assert!(matches!(server.poll(&mut to_server, &mut to_client), Outcome::Pending));
    assert!(!server.users.contains_key(&id));
}

#[test]
fn queued_frames_leave_before_go_away() {
    let (mut client, _) = pair();
    let mut input: Vec<u8> = Vec::new();
    let mut output: Vec<u8> = Vec::new();
    client.session.on_ping(Flags::syn(), 1);
    client.session.on_ping(Flags::syn(), 2);
    client.session.close(7);
    assert!(matches!(client.poll(&mut input, &mut output), Outcome::Ended));
    assert_eq!(
        frames(&output),
        vec![
            Frame::Session(FrameSessionEvent::Ping(Flags::ack(), 1)),
            Frame::Session(FrameSessionEvent::Ping(Flags::ack(), 2)),
            Frame::Session(FrameSessionEvent::GoAway(7)),
        ]
    );
}

#[test]
fn closing_waits_for_a_transport_that_is_not_ready() {
    let (mut client, _) = pair();
    client.session.close(3);
    let (mut turn, action) = client.session.begin();
    assert!(matches!(action, SessionAction::PollReady));
    let action = client.session.step(&mut turn, SessionEvent::Ready(false));
    assert!(matches!(action, SessionAction::Finish(Outcome::Pending)));

    let (mut turn, action) = client.session.begin();
    assert!(matches!(action, SessionAction::PollReady));
    let action = client.session.step(&mut turn, SessionEvent::Ready(true));
    assert!(matches!(
        action,
        SessionAction::Send(Frame::Session(FrameSessionEvent::GoAway(3)))
    ));
    let action = client.session.step(&mut turn, SessionEvent::Sent(true));
    assert!(matches!(action, SessionAction::PollClose));
    let action = client.session.step(&mut turn, SessionEvent::Closed(false));
    assert!(matches!(action, SessionAction::Finish(Outcome::Pending)));
}

#[test]
fn failures_of_the_transport_end_the_session() {
    let (mut client, _) = pair();
    let (mut turn, action) = client.session.begin();
    assert!(matches!(action, SessionAction::PollInbound));
    let action = client.session.step(&mut turn, SessionEvent::Inbound(Inbound::Failed));
    assert!(matches!(action, SessionAction::Finish(Outcome::Ended)));

    client.session.on_ping(Flags::syn(), 1);
    let (mut turn, _) = client.session.begin();
    client.session.step(&mut turn, SessionEvent::Ready(true));
    let action = client.session.step(&mut turn, SessionEvent::Sent(false));
    assert!(matches!(action, SessionAction::Finish(Outcome::Ended)));

    client.session.on_ping(Flags::syn(), 1);
    let (mut turn, _) = client.session.begin();
    client.session.step(&mut turn, SessionEvent::Ready(true));
    client.session.step(&mut turn, SessionEvent::Sent(true));
    let action = client.session.step(&mut turn, SessionEvent::Inbound(Inbound::Pending));
    assert!(matches!(action, SessionAction::PollFlush));
    let action = client.session.step(&mut turn, SessionEvent::Flushed(true));
    assert!(matches!(action, SessionAction::Finish(Outcome::Ended)));
}

#[test]
fn events_that_were_not_asked_for_do_not_fit() {
    let (mut client, _) = pair();
    let (turn, _) = client.session.begin();
    assert!(client.session.fits(&turn, &SessionEvent::Inbound(Inbound::Pending)));
    assert!(!client.session.fits(&turn, &SessionEvent::Ready(true)));
    assert!(!client.session.fits(&turn, &SessionEvent::Tick(TickPoll::Elapsed)));
    assert!(!client.session.fits(&turn, &SessionEvent::Released));
}

#[test]
fn header_and_chunk_stay_together() {
    let (mut client, mut server) = pair();
    let mut to_server: Vec<u8> = Vec::new();
    let mut to_client: Vec<u8> = Vec::new();
    let ids = [client.open(), client.open(), client.open()];
    client.poll(&mut to_client, &mut to_server);
    for _ in 0..4 {
        server.poll(&mut to_server, &mut to_client);
    }
    for id in ids {
        for n in 1..4u8 {
            client.users.get_mut(&id).unwrap().to_session.push_back(vec![n; n as usize].into());
        }
    }
    client.session.on_ping(Flags::syn(), 5);
    client.poll(&mut to_client, &mut to_server);

    let sent = frames(&to_server);
    let mut headers = 0;
    for (i, frame) in sent.iter().enumerate() {
        if let Frame::Stream(id, FrameStreamEvent::Data(_, size)) = frame {
            headers += 1;
            match &sent[i + 1] {
                Frame::Stream(other, FrameStreamEvent::DataChunk(chunk)) => {
                    assert_eq!(other, id);
                    assert_eq!(chunk.len(), *size as usize);
                }
                other => panic!("unexpected frame: {other:?}"),
            }
        }
    }
    assert_eq!(headers, 9);

    server.poll(&mut to_server, &mut to_client);
    for id in ids {
        assert_eq!(server.users[&id].to_user, vec![1, 2, 2, 3, 3, 3]);
    }
}

#[test]
fn closing_session_reads_nothing() {
    let (mut client, _) = pair();
    // A stream that the peer opens, and a GoAway behind it, wait to be read.
    let mut input: Vec<u8> = vec![0, 1, 0, 1, 0, 0, 0, 2, 0, 0, 0, 0];
    input.extend_from_slice(&[0, 3, 0, 0, 0, 0, 0, 0, 0, 0, 0, 0]);
    let waiting = input.clone();
    let mut output: Vec<u8> = Vec::new();
    client.session.close(0);
    assert!(matches!(client.poll(&mut input, &mut output), Outcome::Ended));
    assert_eq!(input, waiting);
    assert_eq!(
        frames(&output),
        vec![Frame::Session(FrameSessionEvent::GoAway(0))]
    );
}

#[test]
fn out_of_order_frames_are_dropped() {
    let (mut client, _) = pair();
    client.open();
    let (mut turn, action) = client.session.begin();
    assert!(matches!(action, SessionAction::PollInbound));
    let data = |size: u32| {
        Inbound::Frame(Frame::Stream(
            StreamID(1),
            FrameStreamEvent::Data(Flags::empty(), size),
        ))
    };
    let chunk = |len: usize| {
        Inbound::Frame(Frame::Stream(
            StreamID(1),
            FrameStreamEvent::DataChunk(vec![5u8; len].into()),
        ))
    };
    // A chunk before its header, a second header, and a chunk that is too large.
    for inbound in [chunk(1), data(2), data(3), chunk(3)] {
        let action = client.session.step(&mut turn, SessionEvent::Inbound(inbound));
        assert!(matches!(action, SessionAction::PollInbound));
    }
    // The payload that was announced first is still awaited.
    match client.session.step(&mut turn, SessionEvent::Inbound(chunk(2))) {
        SessionAction::Deliver(id, bytes) => {
            assert_eq!(id, StreamID(1));
            assert_eq!(&*bytes, &[5u8, 5][..]);
        }
        other => panic!("unexpected action: {other:?}"),
    }
    let action = client.session.step(&mut turn, SessionEvent::Delivered);
    assert!(matches!(action, SessionAction::PollInbound));
}

#[test]
fn reset_of_one_stream_leaves_the_others() {
    let (mut client, mut server) = pair();
    let mut to_server: Vec<u8> = Vec::new();
    let mut to_client: Vec<u8> = Vec::new();
    let first = client.open();
    let second = client.open();
    client.poll(&mut to_client, &mut to_server);
    for _ in 0..3 {
        server.poll(&mut to_server, &mut to_client);
    }
    to_client.extend_from_slice(&[0, 1, 0, 8, 0, 0, 0, first as u8, 0, 0, 0, 0]);
    client
        .users
        .get_mut(&second)
        .unwrap()
        .to_session
        .push_back(vec![1u8, 2, 3].into());
    client.poll(&mut to_client, &mut to_server);
    assert!(!client.users.contains_key(&first));
    server.poll(&mut to_server, &mut to_client);
    assert_eq!(server.users[&second].to_user, vec![1, 2, 3]);
}

#[test]
fn first_chunk_of_an_accepted_stream_can_end_it() {
    let (_, mut server) = pair();
    // SYN and FIN together: the byte stream ends before it began.
    let mut input: Vec<u8> = vec![0, 1, 0, 5, 0, 0, 0, 3, 0, 0, 0, 0];
    let mut output: Vec<u8> = Vec::new();
    match server.poll(&mut input, &mut output) {
        Outcome::Accepted(StreamID(3), Some(chunk)) => assert!(chunk.is_empty()),
        other => panic!("unexpected outcome: {other:?}"),
    }
}

/// However the connection cuts and delays the bytes, what was delivered is the start of what was
/// written, on every stream, and in the end all of it.
#[test]
fn delivered_is_what_was_written_however_the_bytes_are_cut() {
    for cut in [1usize, 7, 12, 13, 100, 4096] {
        let (mut client, mut server) = pair();
        let mut to_server: Vec<u8> = Vec::new();
        let mut to_client: Vec<u8> = Vec::new();
        let ids = [client.open(), client.open()];
        let mut written: HashMap<u32, Vec<u8>> = HashMap::new();
        for (n, id) in ids.into_iter().enumerate() {
            let bytes: Vec<u8> = (0..300 + n).map(|i| (i * (n + 3) % 251) as u8).collect();
            for part in bytes.chunks(70 + n) {
                client.users.get_mut(&id).unwrap().to_session.push_back(part.to_vec().into());
            }
            client.users.get_mut(&id).unwrap().user_gone = true;
            written.insert(id, bytes);
        }
        let mut rounds: usize = 0;
        loop {
            // A few bytes get through in each direction.
            let len = to_server.len().min(cut);
            let mut arrived: Vec<u8> = to_server.drain(..len).collect();
            while let Outcome::Accepted(..) = server.poll(&mut arrived, &mut to_client) {}
            let len = to_client.len().min(cut);
            let mut arrived: Vec<u8> = to_client.drain(..len).collect();
            client.poll(&mut arrived, &mut to_server);
            for id in ids {
                if let Some(channels) = server.users.get(&id) {
                    assert!(written[&id].starts_with(&channels.to_user));
                }
            }
            rounds += 1;
            if to_server.is_empty() && to_client.is_empty() {
                break;
            }
            assert!(rounds < 10_000);
        }
        for id in ids {
            assert_eq!(server.users[&id].to_user, written[&id]);
            // The server's half is still open.
            assert!(client.users.contains_key(&id));
        }
    }
}

/// However the connection cuts and delays the bytes, the end of a stream is told once, after all
/// its bytes, in either direction.
#[test]
fn end_is_told_after_all_bytes() {
    for cut in [1usize, 5, 12, 13, 90, 4096] {
        for server_ends in [false, true] {
            let (mut client, mut server) = pair();
            let mut to_server: Vec<u8> = Vec::new();
            let mut to_client: Vec<u8> = Vec::new();
            let id = client.open();
            client.poll(&mut to_client, &mut to_server);
            while let Outcome::Accepted(..) = server.poll(&mut to_server, &mut to_client) {}
            let written: Vec<u8> = (0..500usize).map(|i| (i * 7 % 251) as u8).collect();
            let writer = if server_ends { &mut server } else { &mut client };
            for part in written.chunks(64) {
                writer.users.get_mut(&id).unwrap().to_session.push_back(part.to_vec().into());
            }
            writer.users.get_mut(&id).unwrap().user_gone = true;
            let mut rounds: usize = 0;
            loop {
                let len = to_server.len().min(cut);
                let mut arrived: Vec<u8> = to_server.drain(..len).collect();
                server.poll(&mut arrived, &mut to_client);
                let len = to_client.len().min(cut);
                let mut arrived: Vec<u8> = to_client.drain(..len).collect();
                client.poll(&mut arrived, &mut to_server);
                let reader = if server_ends { &client } else { &server };
                let channels = &reader.users[&id];
                assert!(written.starts_with(&channels.to_user));
                assert!(channels.told_after.iter().all(|got| *got == written.len()));
                rounds += 1;
                if to_server.is_empty() && to_client.is_empty() {
                    break;
                }
                assert!(rounds < 10_000);
            }
            let reader = if server_ends { &client } else { &server };
            assert_eq!(reader.users[&id].to_user, written);
            assert_eq!(reader.users[&id].told_after, vec![500]);
        }
    }
}

/// An empty chunk reads as an end where it comes out, also in the middle of a stream.
#[test]
fn empty_chunk_reads_as_an_end() {
    let (mut client, mut server) = pair();
    let mut to_server: Vec<u8> = Vec::new();
    let mut to_client: Vec<u8> = Vec::new();
    let id = client.open();
    for chunk in [vec![1u8, 2], vec![], vec![3u8]] {
        client.users.get_mut(&id).unwrap().to_session.push_back(chunk.into());
    }
    for _ in 0..4 {
        client.poll(&mut to_client, &mut to_server);
        while let Outcome::Accepted(..) = server.poll(&mut to_server, &mut to_client) {}
    }
    assert_eq!(server.users[&id].to_user, vec![1, 2, 3]);
    assert_eq!(server.users[&id].told_after, vec![2]);
}
