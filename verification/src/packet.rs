//! Yamux wire-level packet definitions.
//!
//! This module contains the byte-level representation of Yamux frames. Higher-level parsing and
//! chunked streaming are implemented in [`crate::frame`].

use vstd::prelude::*;

use crate::chunk;
use crate::chunk::{ChunkBufferReader, ChunkBufferWriter};

verus! {

// === Constants ===

/// Number of bytes in a Yamux header.
pub const HEADER_LEN: usize = 12;

// === Errors ===

/// Errors emitted while parsing or encoding frames.
#[derive(Debug, Clone, Copy, PartialEq, Eq, Structural)]
#[allow(inconsistent_fields)]
pub enum ParserError {
    /// Frame type is not recognized.
    UnknownType(u8),
    /// Length or delta field exceeded `u32`.
    LengthOverflow,
    /// A data chunk arrived before a data frame header.
    UnexpectedDataChunk,
    /// A data frame started before the previous payload completed.
    PendingData { remaining: u32 },
    /// The provided stream identifier did not match the expected stream.
    StreamMismatch { expected: StreamID, got: StreamID },
    /// A chunk length or `remain` field disagreed with the data frame size.
    DataSizeMismatch { expected: u32, got: u32 },
    /// A zero-length chunk would stall progress.
    EmptyChunk,
    /// Invalid stream ID for pending data.
    InvalidStreamId,
    /// Unexpected frame type while waiting for data chunk.
    UnexpectedFrameType,
}

/// Errors emitted while serializing frames.
///
/// Note: this type is currently unused; callers generally use [`ParserError`]
/// because parsing and encoding share the same invariants.
#[derive(Debug, Clone, Copy, PartialEq, Eq, Structural)]
#[allow(inconsistent_fields)]
pub enum SerializeError {
    /// Frame type is not recognized.
    UnknownType(u8),
    /// Length or delta field exceeded `u32`.
    LengthOverflow,
    /// A data chunk arrived before a data frame header.
    UnexpectedDataChunk,
    /// A data frame started before the previous payload completed.
    PendingData { remaining: u32 },
    /// The provided stream identifier did not match the expected stream.
    StreamMismatch { expected: StreamID, got: StreamID },
    /// A chunk length or `remain` field disagreed with the data frame size.
    DataSizeMismatch { expected: u32, got: u32 },
    /// A zero-length chunk would stall progress.
    EmptyChunk,
    /// Invalid stream ID for pending data.
    InvalidStreamId,
    /// Unexpected frame type while waiting for data chunk.
    UnexpectedFrameType,
}

// === Identifiers ===

/// Yamux stream identifier.
#[derive(Debug, Clone, Copy, PartialEq, Eq, Hash, Structural)]
pub struct StreamID(pub u32);

impl StreamID {
    /// True if the stream was opened by the client (odd IDs).
    pub fn is_client(&self) -> (r: bool)
        ensures
            r == (self.0 % 2 == 1),
    {
        let id: u32 = self.0;
        assert((id & 1 == 1) == (id % 2 == 1)) by (bit_vector);
        id & 1 == 1
    }

    /// True if the stream was opened by the server (even IDs).
    pub fn is_server(&self) -> (r: bool)
        ensures
            r == (self.0 % 2 == 0),
    {
        let id: u32 = self.0;
        assert((id & 1 == 0) == (id % 2 == 0)) by (bit_vector);
        id & 1 == 0
    }

    /// True when the ID refers to the session control stream (0).
    pub fn is_session(&self) -> (r: bool)
        ensures
            r == (self.0 == 0),
    {
        self.0 == 0
    }
}

// === Flags ===

/// Yamux control flags.
#[derive(Debug, Clone, Copy, PartialEq, Eq, Structural)]
pub struct Flags {
    /// SYN (open stream).
    pub syn: bool,
    /// ACK (accept stream).
    pub ack: bool,
    /// FIN (half-close).
    pub fin: bool,
    /// RST (hard reset).
    pub rst: bool,
}

/// The flags that a bitfield carries, one bit each from the lowest up; other bits mean nothing.
pub open spec fn flags_of(bits: u16) -> Flags {
    Flags {
        syn: bits % 2 == 1,
        ack: bits / 2 % 2 == 1,
        fin: bits / 4 % 2 == 1,
        rst: bits / 8 % 2 == 1,
    }
}

/// The bitfield of a set of flags.
pub open spec fn bits_of(flags: Flags) -> u16 {
    ((if flags.syn {
        1int
    } else {
        0
    }) + (if flags.ack {
        2int
    } else {
        0
    }) + (if flags.fin {
        4int
    } else {
        0
    }) + (if flags.rst {
        8int
    } else {
        0
    })) as u16
}

/// Decoding the bits of a set of flags gives the flags back.
pub proof fn law_flags_round_trip(flags: Flags)
    ensures
        flags_of(bits_of(flags)) == flags,
        bits_of(flags) < 16,
{
}

/// Encoding decoded bits gives the four flag bits back.
pub proof fn law_bits_round_trip(bits: u16)
    ensures
        bits_of(flags_of(bits)) == bits % 16,
{
    assert((bits % 2) + 2 * (bits / 2 % 2) + 4 * (bits / 4 % 2) + 8 * (bits / 8 % 2) == bits % 16)
        by (bit_vector);
    assert(bits % 2 <= 1 && bits / 2 % 2 <= 1 && bits / 4 % 2 <= 1 && bits / 8 % 2 <= 1)
        by (bit_vector);
}

impl Flags {
    /// Creates a new set of flags.
    pub fn new(syn: bool, ack: bool, fin: bool, rst: bool) -> (r: Self)
        ensures
            r == (Flags { syn, ack, fin, rst }),
    {
        Flags { syn, ack, fin, rst }
    }

    /// Creates an empty set of flags.
    pub fn empty() -> (r: Self)
        ensures
            r == (Flags { syn: false, ack: false, fin: false, rst: false }),
    {
        Self::new(false, false, false, false)
    }

    /// Only the SYN flag.
    pub fn syn() -> (r: Self)
        ensures
            r == (Flags { syn: true, ack: false, fin: false, rst: false }),
    {
        Self::new(true, false, false, false)
    }

    /// Only the ACK flag.
    pub fn ack() -> (r: Self)
        ensures
            r == (Flags { syn: false, ack: true, fin: false, rst: false }),
    {
        Self::new(false, true, false, false)
    }

    /// Only the FIN flag.
    pub fn fin() -> (r: Self)
        ensures
            r == (Flags { syn: false, ack: false, fin: true, rst: false }),
    {
        Self::new(false, false, true, false)
    }

    /// Converts the bitfield into flags.
    pub fn from_bits(flags: u16) -> (r: Self)
        ensures
            r == flags_of(flags),
    {
        assert((flags & 0x1 != 0) == (flags % 2 == 1)) by (bit_vector);
        assert((flags & 0x2 != 0) == (flags / 2 % 2 == 1)) by (bit_vector);
        assert((flags & 0x4 != 0) == (flags / 4 % 2 == 1)) by (bit_vector);
        assert((flags & 0x8 != 0) == (flags / 8 % 2 == 1)) by (bit_vector);
        Flags {
            syn: (flags & 0x1) != 0,
            ack: (flags & 0x2) != 0,
            fin: (flags & 0x4) != 0,
            rst: (flags & 0x8) != 0,
        }
    }

    /// Returns the flag bitfield.
    pub fn bits(&self) -> (r: u16)
        ensures
            r == bits_of(*self),
    {
        self.syn as u16 + 2 * self.ack as u16 + 4 * self.fin as u16 + 8 * self.rst as u16
    }
}

/// Step-by-step construction of [`Flags`]; what is not set stays off.
#[derive(Debug, Clone, Copy)]
pub struct FlagsBuilder {
    flags: Flags,
}

impl FlagsBuilder {
    /// The flags set so far.
    pub closed spec fn flags(&self) -> Flags {
        self.flags
    }

    /// Starts with all flags off.
    pub fn new() -> (r: Self)
        ensures
            r.flags() == (Flags { syn: false, ack: false, fin: false, rst: false }),
    {
        FlagsBuilder { flags: Flags::empty() }
    }

    /// Sets the SYN flag to `syn`.
    pub fn with_syn(self, syn: bool) -> (r: Self)
        ensures
            r.flags() == (Flags { syn, ..self.flags() }),
    {
        FlagsBuilder { flags: Flags { syn, ..self.flags } }
    }

    /// Sets the ACK flag to `ack`.
    pub fn with_ack(self, ack: bool) -> (r: Self)
        ensures
            r.flags() == (Flags { ack, ..self.flags() }),
    {
        FlagsBuilder { flags: Flags { ack, ..self.flags } }
    }

    /// Sets the FIN flag to `fin`.
    pub fn with_fin(self, fin: bool) -> (r: Self)
        ensures
            r.flags() == (Flags { fin, ..self.flags() }),
    {
        FlagsBuilder { flags: Flags { fin, ..self.flags } }
    }

    /// Sets the RST flag to `rst`.
    pub fn with_rst(self, rst: bool) -> (r: Self)
        ensures
            r.flags() == (Flags { rst, ..self.flags() }),
    {
        FlagsBuilder { flags: Flags { rst, ..self.flags } }
    }

    /// Hands out the flags.
    pub fn build(self) -> (r: Flags)
        ensures
            r == self.flags(),
    {
        self.flags
    }
}

// === Frame metadata ===

/// Yamux frame type discriminator.
#[derive(Debug, Clone, Copy, PartialEq, Eq, Structural)]
pub enum FrameType {
    Data,
    WindowUpdate,
    Ping,
    GoAway,
}

/// The on-the-wire discriminant of a frame type.
pub open spec fn type_byte(type_: FrameType) -> u8 {
    match type_ {
        FrameType::Data => 0,
        FrameType::WindowUpdate => 1,
        FrameType::Ping => 2,
        FrameType::GoAway => 3,
    }
}

/// The frame type of an on-the-wire discriminant.
pub open spec fn type_of(value: u8) -> Result<FrameType, ParserError> {
    if value == 0 {
        Ok(FrameType::Data)
    } else if value == 1 {
        Ok(FrameType::WindowUpdate)
    } else if value == 2 {
        Ok(FrameType::Ping)
    } else if value == 3 {
        Ok(FrameType::GoAway)
    } else {
        Err(ParserError::UnknownType(value))
    }
}

impl FrameType {
    /// Parses the on-the-wire discriminant.
    ///
    /// # Errors
    ///
    /// Returns [`ParserError::UnknownType`] if `value` is not a known frame type.
    pub fn from_u8(value: u8) -> (r: Result<Self, ParserError>)
        ensures
            r == type_of(value),
    {
        match value {
            0 => Ok(FrameType::Data),
            1 => Ok(FrameType::WindowUpdate),
            2 => Ok(FrameType::Ping),
            3 => Ok(FrameType::GoAway),
            other => Err(ParserError::UnknownType(other)),
        }
    }

    /// Returns the on-the-wire discriminant.
    pub fn as_u8(self) -> (r: u8)
        ensures
            r == type_byte(self),
    {
        match self {
            FrameType::Data => 0,
            FrameType::WindowUpdate => 1,
            FrameType::Ping => 2,
            FrameType::GoAway => 3,
        }
    }
}

/// Wire header for Yamux frames.
#[derive(Debug, Clone, Copy, PartialEq, Eq, Structural)]
pub struct Header {
    /// Yamux protocol version (currently always 0).
    pub version: u8,
    /// Frame type discriminant.
    pub type_: FrameType,
    /// Frame flags (SYN/ACK/FIN/RST).
    pub flags: Flags,
    /// Destination stream identifier.
    pub stream_id: StreamID,
    /// Payload length or control value (depends on frame type).
    pub length: u32,
}

/// The bytes of a header on the wire: version, type, flags, stream and length, in network order.
pub open spec fn header_bytes(header: Header) -> Seq<u8> {
    seq![header.version, type_byte(header.type_)] + chunk::be_u16(bits_of(header.flags))
        + chunk::be_u32(header.stream_id.0) + chunk::be_u32(header.length)
}

/// The header that the first [`HEADER_LEN`] bytes spell.
pub open spec fn header_of(bytes: Seq<u8>) -> Result<Header, ParserError> {
    match type_of(bytes[1]) {
        Ok(type_) => Ok(
            Header {
                version: bytes[0],
                type_,
                flags: flags_of(chunk::u16_at_front(bytes.skip(2))),
                stream_id: StreamID(chunk::u32_at_front(bytes.skip(4))),
                length: chunk::u32_at_front(bytes.skip(8)),
            },
        ),
        Err(error) => Err(error),
    }
}

/// The network-order bytes of a 16-bit value spell it.
proof fn lemma_u16_round_trip(value: u16)
    ensures
        chunk::u16_at_front(chunk::be_u16(value)) == value,
{
}

/// The network-order bytes of a 32-bit value spell it.
proof fn lemma_u32_round_trip(value: u32)
    ensures
        chunk::u32_at_front(chunk::be_u32(value)) == value,
{
    assert((value / 0x100_0000) * 0x100_0000 + (value / 0x1_0000 % 256) * 0x1_0000 + (value / 0x100
        % 256) * 0x100 + value % 256 == value && value / 0x100_0000 < 256) by (bit_vector);
}

/// A header that was written is read back as it was, whatever follows it.
pub proof fn law_header_round_trip(header: Header, rest: Seq<u8>)
    ensures
        header_bytes(header).len() == HEADER_LEN,
        header_of(header_bytes(header) + rest) == Ok::<Header, ParserError>(header),
{
    let bytes = header_bytes(header) + rest;
    let flags = chunk::be_u16(bits_of(header.flags));
    let id = chunk::be_u32(header.stream_id.0);
    let length = chunk::be_u32(header.length);
    law_flags_round_trip(header.flags);
    lemma_u16_round_trip(bits_of(header.flags));
    lemma_u32_round_trip(header.stream_id.0);
    lemma_u32_round_trip(header.length);
    assert(bytes.skip(2)[0] == flags[0] && bytes.skip(2)[1] == flags[1]);
    assert(forall|i: int| 0 <= i < 4 ==> bytes.skip(4)[i] == id[i]);
    assert(forall|i: int| 0 <= i < 4 ==> bytes.skip(8)[i] == length[i]);
}

/// The 16-bit number that two bytes spell in network order.
pub open spec fn number_of_two(high: u8, low: u8) -> int {
    high * 0x100 + low
}

/// The 32-bit number that four bytes spell in network order.
pub open spec fn number_of_four(first: u8, second: u8, third: u8, fourth: u8) -> int {
    first * 0x100_0000 + second * 0x1_0000 + third * 0x100 + fourth
}

/// SYN is the lowest bit of the flags, then come ACK, FIN and RST; the other bits say nothing when
/// they are read, and are off when flags are written.
pub proof fn law_each_flag_has_its_bit(bits: u16, flags: Flags)
    ensures
        flags_of(bits).syn <==> bits & 1 != 0,
        flags_of(bits).ack <==> bits & 2 != 0,
        flags_of(bits).fin <==> bits & 4 != 0,
        flags_of(bits).rst <==> bits & 8 != 0,
        flags.syn <==> bits_of(flags) & 1 != 0,
        flags.ack <==> bits_of(flags) & 2 != 0,
        flags.fin <==> bits_of(flags) & 4 != 0,
        flags.rst <==> bits_of(flags) & 8 != 0,
        bits_of(flags) < 16,
{
    let written = bits_of(flags);
    law_flags_round_trip(flags);
    assert((bits & 1 != 0) == (bits % 2 == 1) && (bits & 2 != 0) == (bits / 2 % 2 == 1) && (bits & 4
        != 0) == (bits / 4 % 2 == 1) && (bits & 8 != 0) == (bits / 8 % 2 == 1)) by (bit_vector);
    assert((written & 1 != 0) == (written % 2 == 1) && (written & 2 != 0) == (written / 2 % 2 == 1)
        && (written & 4 != 0) == (written / 4 % 2 == 1) && (written & 8 != 0) == (written / 8 % 2
        == 1)) by (bit_vector);
}

/// A builder sets the flags that it is told to and no others, whatever it started with.
pub proof fn law_builder_sets_each_flag(
    start: FlagsBuilder,
    wanted: Flags,
    syn: FlagsBuilder,
    ack: FlagsBuilder,
    fin: FlagsBuilder,
    rst: FlagsBuilder,
    built: Flags,
)
    requires
        call_ensures(FlagsBuilder::with_syn, (start, wanted.syn), syn),
        call_ensures(FlagsBuilder::with_ack, (syn, wanted.ack), ack),
        call_ensures(FlagsBuilder::with_fin, (ack, wanted.fin), fin),
        call_ensures(FlagsBuilder::with_rst, (fin, wanted.rst), rst),
        call_ensures(FlagsBuilder::build, (rst,), built),
    ensures
        built == wanted,
        syn.flags().ack == start.flags().ack && syn.flags().fin == start.flags().fin
            && syn.flags().rst == start.flags().rst,
        ack.flags().syn == syn.flags().syn && ack.flags().fin == syn.flags().fin && ack.flags().rst
            == syn.flags().rst,
        fin.flags().syn == ack.flags().syn && fin.flags().ack == ack.flags().ack && fin.flags().rst
            == ack.flags().rst,
        rst.flags().syn == fin.flags().syn && rst.flags().ack == fin.flags().ack && rst.flags().fin
            == fin.flags().fin,
{
}

/// Every stream is of one side: of the client where its identifier is odd, of the server where it
/// is even. Stream 0 alone is the session's own.
pub proof fn law_stream_is_of_one_side(id: StreamID, client: bool, server: bool, session: bool)
    requires
        call_ensures(StreamID::is_client, (&id,), client),
        call_ensures(StreamID::is_server, (&id,), server),
        call_ensures(StreamID::is_session, (&id,), session),
    ensures
        client != server,
        client <==> exists|n: int| id.0 == #[trigger] (2 * n) + 1,
        session <==> id.0 == 0,
{
    if client {
        assert(id.0 == 2 * (id.0 as int / 2) + 1);
    }
}

/// The four frame types are the bytes from 0 to 3: data, window update, ping and GoAway. Every
/// other byte is refused, and the error names it.
pub proof fn law_frame_types_are_the_first_four_bytes(type_: FrameType, value: u8)
    ensures
        type_of(type_byte(type_)) == Ok::<FrameType, ParserError>(type_),
        type_byte(type_) < 4,
        type_ is Data ==> type_byte(type_) == 0,
        type_ is WindowUpdate ==> type_byte(type_) == 1,
        type_ is Ping ==> type_byte(type_) == 2,
        type_ is GoAway ==> type_byte(type_) == 3,
        type_of(value) is Ok <==> value < 4,
        value < 4 ==> type_byte(type_of(value)->Ok_0) == value,
        value >= 4 ==> type_of(value) == Err::<FrameType, ParserError>(
            ParserError::UnknownType(value),
        ),
{
}

/// A header is laid out in twelve bytes: the version, the type, the flags in two bytes, the stream
/// in four and the length in four, each number with its highest byte first.
pub proof fn law_header_layout(header: Header)
    ensures
        ({
            let bytes = header_bytes(header);
            &&& bytes.len() == 12
            &&& bytes[0] == header.version
            &&& bytes[1] == type_byte(header.type_)
            &&& number_of_two(bytes[2], bytes[3]) == bits_of(header.flags)
            &&& number_of_four(bytes[4], bytes[5], bytes[6], bytes[7]) == header.stream_id.0
            &&& number_of_four(bytes[8], bytes[9], bytes[10], bytes[11]) == header.length
        }),
{
    lemma_u16_round_trip(bits_of(header.flags));
    lemma_u32_round_trip(header.stream_id.0);
    lemma_u32_round_trip(header.length);
}

/// Any twelve bytes are read by the same layout, whatever follows them: they are a header exactly
/// when the second byte is a frame type, and of any version.
pub proof fn law_header_is_read_by_its_layout(bytes: Seq<u8>)
    requires
        bytes.len() >= 12,
    ensures
        header_of(bytes) is Ok <==> bytes[1] < 4,
        bytes[1] >= 4 ==> header_of(bytes) == Err::<Header, ParserError>(
            ParserError::UnknownType(bytes[1]),
        ),
        header_of(bytes) matches Ok(header) ==> {
            &&& header.version == bytes[0]
            &&& type_byte(header.type_) == bytes[1]
            &&& bits_of(header.flags) == number_of_two(bytes[2], bytes[3]) % 16
            &&& header.stream_id.0 == number_of_four(bytes[4], bytes[5], bytes[6], bytes[7])
            &&& header.length == number_of_four(bytes[8], bytes[9], bytes[10], bytes[11])
        },
{
    law_bits_round_trip(chunk::u16_at_front(bytes.skip(2)));
}

impl Header {
    /// Constructs a new header for Yamux protocol version 0.
    pub fn new(type_: FrameType, flags: Flags, stream_id: StreamID, length: u32) -> (r: Self)
        ensures
            r == (Header { version: 0, type_, flags, stream_id, length }),
    {
        Header { version: 0, type_, flags, stream_id, length }
    }

    /// Attempts to parse a header.
    ///
    /// Returns `Ok(None)` when fewer than [`HEADER_LEN`] bytes are available. Otherwise the
    /// header's bytes are consumed, also where its type is not known.
    pub fn read<B: ChunkBufferReader>(buffer: &mut B) -> (r: Result<Option<Self>, ParserError>)
        requires
            old(buffer).wf(),
        ensures
            final(buffer).wf(),
            if chunk::bytes_of(*old(buffer)).len() < HEADER_LEN {
                &&& r == Ok::<Option<Header>, ParserError>(None)
                &&& final(buffer).pieces() == old(buffer).pieces()
            } else {
                &&& r == (match header_of(chunk::bytes_of(*old(buffer))) {
                    Ok(header) => Ok(Some(header)),
                    Err(error) => Err(error),
                })
                &&& final(buffer).pieces() == chunk::without_bytes(
                    old(buffer).pieces(),
                    HEADER_LEN as nat,
                )
            },
    {
        if buffer.len() < HEADER_LEN {
            return Ok(None);
        }
        let ghost pieces = buffer.pieces();
        let ghost bytes = pieces.flatten();
        proof {
            chunk::lemma_without_bytes(pieces, 1);
            chunk::lemma_without_bytes(pieces, 2);
            chunk::lemma_without_bytes(pieces, 4);
            chunk::lemma_without_bytes(pieces, 8);
            chunk::lemma_without_bytes_adds(pieces, 1, 1);
            chunk::lemma_without_bytes_adds(pieces, 2, 2);
            chunk::lemma_without_bytes_adds(pieces, 4, 4);
            chunk::lemma_without_bytes_adds(pieces, 8, 4);
        }
        let version: u8 = buffer.next_u8().unwrap();
        let type_byte: u8 = buffer.next_u8().unwrap();
        let flags_bits: u16 = buffer.next_u16().unwrap();
        let stream_id: u32 = buffer.next_u32().unwrap();
        let length: u32 = buffer.next_u32().unwrap();
        match FrameType::from_u8(type_byte) {
            Ok(type_) => Ok(
                Some(
                    Header {
                        version,
                        type_,
                        flags: Flags::from_bits(flags_bits),
                        stream_id: StreamID(stream_id),
                        length,
                    },
                ),
            ),
            Err(error) => Err(error),
        }
    }

    /// Writes the header into the provided buffer.
    pub fn write<B: ChunkBufferWriter>(&self, buffer: &mut B)
        requires
            old(buffer).wf(),
            old(buffer).room() >= HEADER_LEN,
        ensures
            final(buffer).wf(),
            final(buffer).room() == old(buffer).room() - HEADER_LEN,
            chunk::bytes_of(*final(buffer)) == chunk::bytes_of(*old(buffer)) + header_bytes(*self),
            chunk::wrote(*old(buffer), *final(buffer), header_bytes(*self)),
    {
        let ghost start = *buffer;
        buffer.write_u8(self.version);
        let ghost after_version = *buffer;
        buffer.write_u8(self.type_.as_u8());
        let ghost after_type = *buffer;
        buffer.write_u16(self.flags.bits());
        let ghost after_flags = *buffer;
        buffer.write_u32(self.stream_id.0);
        let ghost after_id = *buffer;
        buffer.write_u32(self.length);
        proof {
            let version = seq![self.version];
            let type_ = version + seq![type_byte(self.type_)];
            let flags = type_ + chunk::be_u16(bits_of(self.flags));
            let id = flags + chunk::be_u32(self.stream_id.0);
            chunk::lemma_wrote_adds(start, after_version, after_type, version, seq![type_byte(self.type_)]);
            chunk::lemma_wrote_adds(
                start,
                after_type,
                after_flags,
                type_,
                chunk::be_u16(bits_of(self.flags)),
            );
            chunk::lemma_wrote_adds(
                start,
                after_flags,
                after_id,
                flags,
                chunk::be_u32(self.stream_id.0),
            );
            chunk::lemma_wrote_adds(start, after_id, *buffer, id, chunk::be_u32(self.length));
            assert(id + chunk::be_u32(self.length) =~= header_bytes(*self));
            assert(chunk::bytes_of(*buffer) =~= chunk::bytes_of(start) + header_bytes(*self));
        }
    }
}

} // verus!
