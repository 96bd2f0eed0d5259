use yamux_low_mem::chunk::{ChunkOwned, ChunkView};
use yamux_low_mem::packet::{
    Flags, FlagsBuilder, FrameType, Header, ParserError, StreamID, HEADER_LEN,
};

#[test]
fn stream_build_test() {
    assert!(StreamID(0).is_session());
    assert!(!StreamID(0).is_client());
    assert!(StreamID(0).is_server());

    assert!(StreamID(1).is_client());
    assert!(!StreamID(1).is_server());
    assert!(!StreamID(1).is_session());

    assert!(StreamID(2).is_server());
    assert!(!StreamID(2).is_client());
}

#[test]
fn flags_build_test() {
    let flags = FlagsBuilder::new()
        .with_syn(true)
        .with_ack(true)
        .with_fin(true)
        .with_rst(true)
        .build();
    assert_eq!(flags.bits() & 0xF, 0xF);

    for bits in 0u16..16u16 {
        let decoded = Flags::from_bits(bits);
        assert_eq!(decoded.bits(), bits);
    }
}

#[test]
fn frame_type_vs_u8_test() {
    assert_eq!(FrameType::from_u8(0), Ok(FrameType::Data));
    assert_eq!(FrameType::from_u8(1), Ok(FrameType::WindowUpdate));
    assert_eq!(FrameType::from_u8(2), Ok(FrameType::Ping));
    assert_eq!(FrameType::from_u8(3), Ok(FrameType::GoAway));

    assert_eq!(FrameType::from_u8(250), Err(ParserError::UnknownType(250)));
}

#[test]
fn header_build_parse_test() {
    let header = Header::new(
        FrameType::Data,
        FlagsBuilder::new().with_syn(true).build(),
        StreamID(3),
        42,
    );
    assert_eq!(header.version, 0);

    let mut out = ChunkOwned::default();
    header.write(&mut out);
    let mut view: ChunkView = out.into();
    assert_eq!(Header::read(&mut view), Ok(Some(header)));
    assert_eq!(view.len(), 0);

    let mut short: ChunkView = vec![0u8; HEADER_LEN - 1].into();
    assert_eq!(Header::read(&mut short), Ok(None));

    let mut bad_type_bytes = vec![0u8; HEADER_LEN];
    bad_type_bytes[0] = 0;
    bad_type_bytes[1] = 99;
    let mut bad: ChunkView = bad_type_bytes.into();
    assert_eq!(Header::read(&mut bad), Err(ParserError::UnknownType(99)));
}

#[test]
fn header_bytes_are_big_endian() {
    let header = Header::new(
        FrameType::WindowUpdate,
        Flags::new(true, false, false, true),
        StreamID(0x0102_0304),
        0x0a0b_0c0d,
    );
    let mut out: Vec<u8> = Vec::new();
    header.write(&mut out);
    assert_eq!(out, vec![0, 1, 0, 9, 1, 2, 3, 4, 0x0a, 0x0b, 0x0c, 0x0d]);
}

#[test]
fn flags_have_their_bits() {
    assert_eq!(Flags::empty().bits(), 0);
    assert_eq!(Flags::syn().bits(), 1);
    assert_eq!(Flags::ack().bits(), 2);
    assert_eq!(Flags::fin().bits(), 4);
    assert_eq!(Flags::new(false, false, false, true).bits(), 8);

    // Bits without a meaning are dropped.
    assert_eq!(Flags::from_bits(0xfff3), Flags::new(true, true, false, false));
}

#[test]
fn frame_types_have_their_codes() {
    for code in 0u8..4 {
        assert_eq!(FrameType::from_u8(code).unwrap().as_u8(), code);
    }
}

#[test]
fn version_is_kept_as_it_came() {
    let mut bytes = vec![0u8; HEADER_LEN + 1];
    bytes[0] = 1;
    bytes[11] = 5;
    let mut view: ChunkView = bytes.into();
    let header = Header::read(&mut view).unwrap().unwrap();
    assert_eq!(header.version, 1);
    assert_eq!(header.length, 5);
    assert_eq!(view.len(), 1);
}
