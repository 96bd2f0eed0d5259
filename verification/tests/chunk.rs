use yamux_low_mem::chunk::{
    ChainedChunkBufferReader, ChainedChunkBufferWriter, ChunkBufferReader, ChunkBufferSink,
    ChunkBufferSource, ChunkBufferWriter, ChunkOwned, ChunkView,
    DEFAULT_CHUNK_CAPACITY,
};

fn pattern(len: usize) -> Vec<u8> {
    (0..len).map(|i| (i % 251) as u8).collect()
}

#[test]
fn chunk_view_build_from_vec() {
    let view = ChunkView::from(vec![1u8, 2, 3]);
    assert_eq!(view.len(), 3);
    assert!(!view.is_empty());
    assert_eq!(view.as_slice(), &[1u8, 2, 3][..]);
    assert_eq!(&*view, &[1u8, 2, 3][..]);

    let empty = ChunkView::from(Vec::<u8>::new());
    assert_eq!(empty.len(), 0);
    assert!(empty.is_empty());
}

#[test]
fn chunk_view_subview() {
    let view = ChunkView::from(vec![10u8, 11, 12, 13, 14]);
    let middle = view.view(1..4).unwrap();
    assert_eq!(middle.as_slice(), &[11u8, 12, 13][..]);

    // A view of a view counts from the start of the view.
    let inner = middle.view(1..3).unwrap();
    assert_eq!(inner.as_slice(), &[12u8, 13][..]);

    assert_eq!(middle.view(0..3), Ok(middle.clone()));
    assert_eq!(view.view(5..5).unwrap().len(), 0);
}

#[test]
fn chunk_owned_build_from_vec() {
    let owned = ChunkOwned::from(vec![7u8; 5]);
    assert_eq!(owned.len(), 5);
    assert_eq!(owned.as_slice(), &[7u8; 5][..]);
    assert_eq!(owned.remaining(), DEFAULT_CHUNK_CAPACITY - 5);

    let large = ChunkOwned::from(vec![1u8; DEFAULT_CHUNK_CAPACITY + 1]);
    assert_eq!(large.len(), DEFAULT_CHUNK_CAPACITY + 1);
    assert_eq!(large.remaining(), 0);
    assert_eq!(ChunkOwned::from(vec![0u8; 5000]).remaining(), 0);
}

#[test]
fn chunk_owned_push() {
    let mut owned = ChunkOwned::new();
    assert!(owned.is_empty());
    for i in 0..DEFAULT_CHUNK_CAPACITY {
        assert!(owned.push((i % 251) as u8));
    }
    assert_eq!(owned.len(), DEFAULT_CHUNK_CAPACITY);
    assert_eq!(owned.remaining(), 0);

    // A full chunk takes nothing.
    assert!(!owned.push(1));
    assert_eq!(owned.as_slice(), &pattern(DEFAULT_CHUNK_CAPACITY)[..]);
}

#[test]
fn chunk_owned_to_view() {
    let mut owned = ChunkOwned::default();
    owned.push(1);
    owned.push(2);
    let view = ChunkView::from(owned);
    assert_eq!(view.as_slice(), &[1u8, 2][..]);
    let copy = view.clone();
    assert_eq!(copy, view);
}

#[test]
fn chunk_owned_extend_slice() {
    let mut owned = ChunkOwned::new();
    assert_eq!(owned.extend_from_slice(&[1, 2, 3]), 3);
    assert_eq!(owned.as_slice(), &[1u8, 2, 3][..]);

    // Only what fits is taken.
    let large = pattern(DEFAULT_CHUNK_CAPACITY);
    assert_eq!(owned.extend_from_slice(&large), DEFAULT_CHUNK_CAPACITY - 3);
    assert_eq!(owned.len(), DEFAULT_CHUNK_CAPACITY);
    assert_eq!(&owned.as_slice()[3..], &large[..DEFAULT_CHUNK_CAPACITY - 3]);
    assert_eq!(owned.extend_from_slice(&[9]), 0);

    // A chunk over capacity takes nothing.
    let mut over = ChunkOwned::from(vec![0u8; 5000]);
    assert_eq!(over.extend_from_slice(&[9]), 0);
    assert!(!over.push(9));
    assert_eq!(over.len(), 5000);
}

#[test]
fn chain_chunk_buffer_writer_write_datas() {
    let mut writer = ChainedChunkBufferWriter::new();
    assert!(ChunkBufferWriter::is_empty(&writer));
    writer.write_u8(0x01);
    writer.write_u16(0x0203);
    writer.write_u32(0x0405_0607);
    writer.write_chunk(&ChunkView::from(vec![8u8, 9]));
    assert_eq!(ChunkBufferWriter::len(&writer), 9);
    assert_eq!(writer.filled_len(), 9);
    assert_eq!(writer.into_bytes(), vec![1u8, 2, 3, 4, 5, 6, 7, 8, 9]);
}

#[test]
fn chain_chunk_buffer_writer_pop() {
    let data = pattern(DEFAULT_CHUNK_CAPACITY + 10);
    let mut writer = ChainedChunkBufferWriter::default();
    writer.write_chunk(&ChunkView::from(data.clone()));
    assert_eq!(ChunkBufferWriter::len(&writer), data.len());

    let mut popped: Vec<u8> = Vec::new();
    let mut sizes: Vec<usize> = Vec::new();
    while let Some(chunk) = writer.pop_front() {
        sizes.push(chunk.len());
        popped.extend_from_slice(&chunk);
        assert_eq!(ChunkBufferWriter::len(&writer), data.len() - popped.len());
    }
    assert_eq!(popped, data);
    assert_eq!(sizes, vec![DEFAULT_CHUNK_CAPACITY, 10]);
    assert!(ChunkBufferWriter::is_empty(&writer));
}

#[test]
fn writer_consumes_from_the_front() {
    let mut writer = ChainedChunkBufferWriter::new();
    assert!(writer.front_slice().is_none());
    writer.write_u32(0x0102_0304);
    assert_eq!(writer.front_slice().unwrap(), &[1u8, 2, 3, 4][..]);
    writer.consume_front(1);
    assert_eq!(writer.front_slice().unwrap(), &[2u8, 3, 4][..]);
    assert_eq!(writer.filled_len(), 3);

    // What was consumed does not come out again.
    let chunk = writer.pop_front().unwrap();
    assert_eq!(&*chunk, &[2u8, 3, 4][..]);
    assert!(writer.front_slice().is_none());
}

#[test]
fn consumed_bytes_are_not_part_of_the_reader() {
    let mut writer = ChainedChunkBufferWriter::new();
    writer.write_u32(0x0102_0304);
    writer.consume_front(3);
    let mut reader = ChainedChunkBufferReader::from(writer);
    assert_eq!(ChunkBufferReader::len(&reader), 1);
    assert_eq!(reader.next_u8(), Some(4));
    assert!(reader.is_empty());
}

#[test]
fn vec_takes_everything() {
    let mut out: Vec<u8> = Vec::new();
    out.write_u16(0xabcd);
    out.write_u8(0xef);
    out.write_chunk(&ChunkView::from(vec![0x01u8]));
    out.write_u32(0xdead_beef);
    assert_eq!(out, vec![0xab, 0xcd, 0xef, 0x01, 0xde, 0xad, 0xbe, 0xef]);
}

#[test]
fn reader_crosses_chunks() {
    let mut reader = ChainedChunkBufferReader::new();
    assert!(reader.is_empty());
    assert_eq!(reader.next_u8(), None);
    reader.push_back(ChunkView::from(vec![0x01u8, 0x02]));
    reader.push_back(ChunkView::from(vec![0x03u8]));
    reader.push_back(ChunkView::from(Vec::<u8>::new()));
    reader.push_back(ChunkView::from(vec![0x04u8, 0x05, 0x06, 0x07, 0x08]));
    assert_eq!(ChunkBufferReader::len(&reader), 8);
    assert_eq!(reader.next_u8(), Some(0x01));
    assert_eq!(reader.next_u32(), Some(0x0203_0405));
    assert_eq!(reader.next_u16(), Some(0x0607));

    // A number that is not complete takes nothing.
    assert_eq!(reader.next_u16(), None);
    assert_eq!(reader.next_u32(), None);
    assert_eq!(reader.next_u8(), Some(0x08));
    assert_eq!(ChunkBufferReader::len(&reader), 0);
}

#[test]
fn reader_hands_out_slices_of_one_chunk() {
    let mut reader = ChainedChunkBufferReader::from(vec![1u8, 2, 3]);
    reader.push_back(ChunkView::from(vec![4u8, 5]));
    assert_eq!(&*reader.next_chunk(2).unwrap(), &[1u8, 2][..]);

    // The next slice ends with its chunk.
    assert_eq!(&*reader.next_chunk(2).unwrap(), &[3u8][..]);
    assert_eq!(&*reader.next_chunk(9).unwrap(), &[4u8, 5][..]);
    assert!(reader.next_chunk(1).is_none());
}

#[test]
fn view_is_a_reader() {
    let mut view = ChunkView::from(vec![1u8, 2, 3, 4, 5, 6, 7, 8]);
    assert_eq!(view.next_u8(), Some(1));
    assert_eq!(view.next_u16(), Some(0x0203));
    assert_eq!(view.next_u32(), Some(0x0405_0607));
    assert_eq!(view.next_u16(), None);
    assert_eq!(&*view.next_chunk(5).unwrap(), &[8u8][..]);
    assert_eq!(view.len(), 0);
}
