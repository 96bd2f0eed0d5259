//! Low-allocation implementation of the Yamux stream multiplexing protocol.
//!
//! The crate holds the protocol as state machines over plain values, with contracts that Verus
//! proves.
//!
//! - Bytes live in fixed-size chunks (see [`chunk`]), so no large contiguous buffer is needed.
//! - Frames are parsed and emitted incrementally (see [`packet`] and [`frame`]): a data frame is
//!   surfaced as its header followed by one or more data chunks. What a byte stream means, and
//!   that a reader gives back what a writer wrote, is stated in [`wire`].
//! - [`transport`] holds the bytes between frames and a byte stream, with backpressure.
//! - [`stream`] is one logical stream: its halves, its flow-control windows, and the user's end.
//! - [`session::YamuxSession`] multiplexes streams over a transport. What holds over the life of
//!   a session is stated in [`session::history`], and that what is written at one end of a
//!   connection is what is read at the other in [`session::pair`].
//!
//! No module does I/O. Where the protocol has to wait for the outside, a state machine says what
//! to do, and takes what came of it.

pub mod chunk;
pub mod frame;
pub mod packet;
pub mod session;
pub mod stream;
pub mod transport;
pub mod wire;

pub use session::YamuxSession;
