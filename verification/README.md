# yamux_low_mem

Low-allocation implementation of the Yamux (Yet Another MUltipleXer) protocol, verified with
Verus. It is meant for many concurrent logical streams, where buffering must stay bounded.

- `src/` is the library: the protocol as state machines over plain values. The contracts of its
  functions are proved, and what holds of the library as a whole is stated in public proof
  functions named `law_..`. Only the readings of the clock are taken as they come.
  - `chunk`: fixed-size chunks, views into them, and chained buffers.
  - `packet`, `frame`: headers and frames, read and written incrementally.
  - `wire`: what a byte stream means; a reader gives back what a writer wrote.
  - `transport`: the bytes between frames and a byte stream, with backpressure.
  - `stream`: one logical stream with its flow-control windows.
  - `session`: many streams over one transport, keep-alive, and shutdown. `session::history`
    states what holds over the life of a session, and `session::pair` what holds of the two
    sessions at the ends of a connection.
- `app/` is the async front end: `futures` I/O traits, channels and timers around the state
  machines.
- `tests/` runs the library.

A session does no I/O. `YamuxSession::begin` starts a turn and says what to do first; each
`YamuxSession::step` takes what came of it and says what to do next, until the turn is finished.

Streams are closed half by half: a user that writes no more makes the session send FIN, after all
that was written, and can still read. A stream is over when both ends have closed their half.

Sessions are closed gracefully: the transport is closed once all queued frames and the GoAway
behind them are handed to it.
