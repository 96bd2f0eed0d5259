//! Chunked buffer primitives used to keep allocations small while parsing frames.
//!
//! A buffer is modelled as a sequence of *pieces*, the byte runs that are still to be handed
//! out, in order. The bytes of a buffer are the concatenation of its pieces.

use std::collections::VecDeque;
use std::ops::Range;
use std::sync::Arc;

use vstd::prelude::*;

verus! {

/// Number of bytes a [`ChunkOwned`] can store.
pub const CHUNK_CAPACITY: usize = 4090;

/// Largest chunk that a stream hands to the session in one piece.
pub const DEFAULT_CHUNK_CAPACITY: usize = CHUNK_CAPACITY;

// === Model ===

/// The pieces left when the first byte is taken away; empty pieces before it go with it, and so
/// does a piece that becomes empty.
pub open spec fn without_first_byte(pieces: Seq<Seq<u8>>) -> Seq<Seq<u8>>
    decreases pieces.len(),
{
    if pieces.len() == 0 {
        pieces
    } else if pieces[0].len() == 0 {
        without_first_byte(pieces.drop_first())
    } else if pieces[0].len() == 1 {
        pieces.drop_first()
    } else {
        pieces.update(0, pieces[0].skip(1))
    }
}

/// The pieces left when `n` bytes are taken away one by one.
pub open spec fn without_bytes(pieces: Seq<Seq<u8>>, n: nat) -> Seq<Seq<u8>>
    decreases n,
{
    if n == 0 {
        pieces
    } else {
        without_bytes(without_first_byte(pieces), (n - 1) as nat)
    }
}

/// The start of the first piece, at most `max_len` bytes of it.
pub open spec fn front_piece(pieces: Seq<Seq<u8>>, max_len: nat) -> Seq<u8> {
    if pieces[0].len() > max_len {
        pieces[0].take(max_len as int)
    } else {
        pieces[0]
    }
}

/// The pieces left when [`front_piece`] is taken away.
pub open spec fn without_front_piece(pieces: Seq<Seq<u8>>, max_len: nat) -> Seq<Seq<u8>> {
    if pieces[0].len() > max_len {
        pieces.update(0, pieces[0].skip(max_len as int))
    } else {
        pieces.drop_first()
    }
}

/// The pieces of a queue of chunks of which the first `offset` bytes were consumed already.
pub open spec fn pieces_of(chunks: Seq<Seq<u8>>, offset: nat) -> Seq<Seq<u8>> {
    if chunks.len() == 0 {
        chunks
    } else {
        chunks.update(0, chunks[0].skip(offset as int))
    }
}

/// The chunks of a writer after one more byte: the last chunk is filled up before a new one starts.
pub open spec fn with_byte(chunks: Seq<Seq<u8>>, byte: u8) -> Seq<Seq<u8>> {
    if chunks.len() > 0 && chunks.last().len() < CHUNK_CAPACITY {
        chunks.update(chunks.len() - 1, chunks.last().push(byte))
    } else {
        chunks.push(seq![byte])
    }
}

/// The chunks of a writer after several more bytes.
pub open spec fn with_bytes(chunks: Seq<Seq<u8>>, bytes: Seq<u8>) -> Seq<Seq<u8>>
    decreases bytes.len(),
{
    if bytes.len() == 0 {
        chunks
    } else {
        with_byte(with_bytes(chunks, bytes.drop_last()), bytes.last())
    }
}

/// Network-order bytes of a 16-bit value.
pub open spec fn be_u16(value: u16) -> Seq<u8> {
    seq![(value / 256) as u8, (value % 256) as u8]
}

/// Network-order bytes of a 32-bit value.
pub open spec fn be_u32(value: u32) -> Seq<u8> {
    seq![
        (value / 0x100_0000) as u8,
        (value / 0x1_0000 % 256) as u8,
        (value / 0x100 % 256) as u8,
        (value % 256) as u8,
    ]
}

/// The 16-bit value whose network-order bytes start `bytes`.
pub open spec fn u16_at_front(bytes: Seq<u8>) -> u16 {
    (bytes[0] * 0x100 + bytes[1]) as u16
}

/// The 32-bit value whose network-order bytes start `bytes`.
pub open spec fn u32_at_front(bytes: Seq<u8>) -> u32 {
    (bytes[0] * 0x100_0000 + bytes[1] * 0x1_0000 + bytes[2] * 0x100 + bytes[3]) as u32
}

// === Lemmas on the model ===

/// Taking the first byte away from the pieces takes it away from their bytes.
pub proof fn lemma_without_first_byte(pieces: Seq<Seq<u8>>)
    requires
        pieces.flatten().len() > 0,
    ensures
        without_first_byte(pieces).flatten() == pieces.flatten().skip(1),
    decreases pieces.len(),
{
    let rest = pieces.drop_first();
    if pieces[0].len() == 0 {
        assert(pieces.flatten() =~= rest.flatten());
        lemma_without_first_byte(rest);
    } else if pieces[0].len() == 1 {
        assert(rest.flatten() =~= pieces.flatten().skip(1));
    } else {
        let next = pieces.update(0, pieces[0].skip(1));
        assert(next.drop_first() =~= rest);
        assert(next.flatten() =~= pieces.flatten().skip(1));
    }
}

/// Taking `n` bytes away from the pieces takes them away from their bytes.
pub proof fn lemma_without_bytes(pieces: Seq<Seq<u8>>, n: nat)
    requires
        n <= pieces.flatten().len(),
    ensures
        without_bytes(pieces, n).flatten() == pieces.flatten().skip(n as int),
    decreases n,
{
    if n > 0 {
        lemma_without_first_byte(pieces);
        lemma_without_bytes(without_first_byte(pieces), (n - 1) as nat);
        assert(pieces.flatten().skip(1).skip(n - 1) =~= pieces.flatten().skip(n as int));
    } else {
        assert(pieces.flatten().skip(0) =~= pieces.flatten());
    }
}

/// Bytes taken away from a piece that has more of them leave the rest of the piece.
pub proof fn lemma_without_bytes_of_one(piece: Seq<u8>, n: nat)
    requires
        n < piece.len(),
    ensures
        without_bytes(seq![piece], n) == seq![piece.skip(n as int)],
    decreases n,
{
    if n == 0 {
        assert(piece.skip(0) =~= piece);
    } else {
        assert(without_first_byte(seq![piece]) =~= seq![piece.skip(1)]);
        lemma_without_bytes_of_one(piece.skip(1), (n - 1) as nat);
        assert(piece.skip(1).skip(n - 1) =~= piece.skip(n as int));
    }
}

/// Taking `a` and then `b` bytes is taking `a + b` bytes.
pub proof fn lemma_without_bytes_adds(pieces: Seq<Seq<u8>>, a: nat, b: nat)
    ensures
        without_bytes(without_bytes(pieces, a), b) == without_bytes(pieces, a + b),
    decreases a,
{
    if a > 0 {
        lemma_without_bytes_adds(without_first_byte(pieces), (a - 1) as nat, b);
        assert((a + b - 1) as nat == (a - 1) as nat + b);
    }
}

/// The front piece and what is left of the pieces make up the bytes of the pieces.
pub proof fn lemma_front_piece(pieces: Seq<Seq<u8>>, max_len: nat)
    requires
        pieces.len() > 0,
    ensures
        pieces.flatten() == front_piece(pieces, max_len) + without_front_piece(
            pieces,
            max_len,
        ).flatten(),
        front_piece(pieces, max_len).len() <= max_len,
{
    if pieces[0].len() > max_len {
        let next = without_front_piece(pieces, max_len);
        assert(next.drop_first() =~= pieces.drop_first());
        assert(pieces[0] =~= pieces[0].take(max_len as int) + pieces[0].skip(max_len as int));
        assert(pieces.flatten() =~= front_piece(pieces, max_len) + next.flatten());
    }
}

/// Consuming an offset from the first chunk consumes it from the bytes.
pub proof fn lemma_pieces_of(chunks: Seq<Seq<u8>>, offset: nat)
    requires
        chunks.len() == 0 ==> offset == 0,
        chunks.len() > 0 ==> offset <= chunks[0].len(),
    ensures
        pieces_of(chunks, offset).flatten() == chunks.flatten().skip(offset as int),
        offset <= chunks.flatten().len(),
{
    if chunks.len() > 0 {
        let pieces = pieces_of(chunks, offset);
        assert(pieces.drop_first() =~= chunks.drop_first());
        assert(pieces.flatten() =~= chunks.flatten().skip(offset as int));
    } else {
        assert(chunks.flatten().skip(0) =~= chunks.flatten());
    }
}

/// With nothing consumed the pieces are the chunks.
pub proof fn lemma_pieces_of_all(chunks: Seq<Seq<u8>>)
    ensures
        pieces_of(chunks, 0) == chunks,
{
    if chunks.len() > 0 {
        assert(chunks[0].skip(0) =~= chunks[0]);
    }
    assert(pieces_of(chunks, 0) =~= chunks);
}

/// A further piece appends its bytes.
pub proof fn lemma_flatten_push(pieces: Seq<Seq<u8>>, piece: Seq<u8>)
    ensures
        pieces.push(piece).flatten() == pieces.flatten() + piece,
{
    pieces.lemma_flatten_and_flatten_alt_are_equivalent();
    pieces.push(piece).lemma_flatten_and_flatten_alt_are_equivalent();
    assert(pieces.push(piece).drop_last() =~= pieces);
}

/// Growing the last piece appends to the bytes.
proof fn lemma_flatten_grow_last(pieces: Seq<Seq<u8>>, more: Seq<u8>)
    requires
        pieces.len() > 0,
    ensures
        pieces.update(pieces.len() - 1, pieces.last() + more).flatten() == pieces.flatten() + more,
{
    let grown = pieces.update(pieces.len() - 1, pieces.last() + more);
    pieces.lemma_flatten_and_flatten_alt_are_equivalent();
    grown.lemma_flatten_and_flatten_alt_are_equivalent();
    assert(grown.drop_last() =~= pieces.drop_last());
    assert(grown.flatten() =~= pieces.flatten() + more);
}

/// A byte written to the chunks is appended to their bytes.
pub proof fn lemma_with_byte(chunks: Seq<Seq<u8>>, byte: u8)
    ensures
        with_byte(chunks, byte).flatten() == chunks.flatten().push(byte),
{
    if chunks.len() > 0 && chunks.last().len() < CHUNK_CAPACITY {
        lemma_flatten_grow_last(chunks, seq![byte]);
        assert(chunks.last() + seq![byte] =~= chunks.last().push(byte));
    } else {
        lemma_flatten_push(chunks, seq![byte]);
    }
    assert(chunks.flatten() + seq![byte] =~= chunks.flatten().push(byte));
}

/// Bytes that fit into the last chunk are appended to it.
pub proof fn lemma_with_bytes_in_last(chunks: Seq<Seq<u8>>, bytes: Seq<u8>)
    requires
        chunks.len() > 0,
        chunks.last().len() + bytes.len() <= CHUNK_CAPACITY,
    ensures
        with_bytes(chunks, bytes) == chunks.update(chunks.len() - 1, chunks.last() + bytes),
    decreases bytes.len(),
{
    let goal = chunks.update(chunks.len() - 1, chunks.last() + bytes);
    if bytes.len() == 0 {
        assert(chunks.last() + bytes =~= chunks.last());
        assert(goal =~= chunks);
    } else {
        lemma_with_bytes_in_last(chunks, bytes.drop_last());
        assert((chunks.last() + bytes.drop_last()).push(bytes.last()) =~= chunks.last() + bytes);
        assert(with_bytes(chunks, bytes) =~= goal);
    }
}

/// Bytes that fit into a new chunk make it up, once the last chunk is full.
pub proof fn lemma_with_bytes_in_new(chunks: Seq<Seq<u8>>, bytes: Seq<u8>)
    requires
        chunks.len() > 0 ==> chunks.last().len() >= CHUNK_CAPACITY,
        0 < bytes.len() <= CHUNK_CAPACITY,
    ensures
        with_bytes(chunks, bytes) == chunks.push(bytes),
    decreases bytes.len(),
{
    if bytes.len() == 1 {
        assert(with_bytes(chunks, bytes.drop_last()) == chunks);
        assert(seq![bytes.last()] =~= bytes);
    } else {
        lemma_with_bytes_in_new(chunks, bytes.drop_last());
        assert(bytes.drop_last().push(bytes.last()) =~= bytes);
        assert(with_bytes(chunks, bytes) =~= chunks.push(bytes));
    }
}

/// Writing two runs of bytes is writing their concatenation.
pub proof fn lemma_with_bytes_adds(chunks: Seq<Seq<u8>>, a: Seq<u8>, b: Seq<u8>)
    ensures
        with_bytes(with_bytes(chunks, a), b) == with_bytes(chunks, a + b),
    decreases b.len(),
{
    if b.len() == 0 {
        assert(a + b =~= a);
    } else {
        lemma_with_bytes_adds(chunks, a, b.drop_last());
        assert((a + b).drop_last() =~= a + b.drop_last());
    }
}

/// Bytes written to the chunks are appended to their bytes.
pub proof fn lemma_with_bytes(chunks: Seq<Seq<u8>>, bytes: Seq<u8>)
    ensures
        with_bytes(chunks, bytes).flatten() == chunks.flatten() + bytes,
    decreases bytes.len(),
{
    if bytes.len() == 0 {
        assert(chunks.flatten() + bytes =~= chunks.flatten());
    } else {
        lemma_with_bytes(chunks, bytes.drop_last());
        lemma_with_byte(with_bytes(chunks, bytes.drop_last()), bytes.last());
        assert((chunks.flatten() + bytes.drop_last()).push(bytes.last()) =~= chunks.flatten()
            + bytes);
    }
}

// === Buffer traits ===

/// A queue of bytes held in pieces.
pub trait ChunkBuffer {
    /// Validity of the buffer; every operation needs it and keeps it.
    spec fn wf(&self) -> bool;

    /// The byte runs that the buffer still holds, front first.
    spec fn pieces(&self) -> Seq<Seq<u8>>;
}

/// The bytes that a buffer holds, front first.
pub open spec fn bytes_of<B: ChunkBuffer>(buffer: B) -> Seq<u8> {
    buffer.pieces().flatten()
}

/// Trait for sequentially consuming bytes from chained chunks without copying.
pub trait ChunkBufferReader: ChunkBuffer + Sized {
    /// Returns how many bytes are buffered so far.
    fn len(&self) -> (n: usize)
        requires
            self.wf(),
        ensures
            n == bytes_of(*self).len(),
    ;

    /// Pulls the next byte if available.
    fn next_u8(&mut self) -> (r: Option<u8>)
        requires
            old(self).wf(),
        ensures
            final(self).wf(),
            r == (if bytes_of(*old(self)).len() > 0 {
                Some(bytes_of(*old(self))[0])
            } else {
                None
            }),
            final(self).pieces() == (if r is Some {
                without_bytes(old(self).pieces(), 1)
            } else {
                old(self).pieces()
            }),
    ;

    /// Pulls two bytes in network order.
    fn next_u16(&mut self) -> (r: Option<u16>)
        requires
            old(self).wf(),
        ensures
            final(self).wf(),
            r == (if bytes_of(*old(self)).len() >= 2 {
                Some(u16_at_front(bytes_of(*old(self))))
            } else {
                None
            }),
            final(self).pieces() == (if r is Some {
                without_bytes(old(self).pieces(), 2)
            } else {
                old(self).pieces()
            }),
    ;

    /// Pulls a `u32` encoded as a 4-byte network-order integer.
    fn next_u32(&mut self) -> (r: Option<u32>)
        requires
            old(self).wf(),
        ensures
            final(self).wf(),
            r == (if bytes_of(*old(self)).len() >= 4 {
                Some(u32_at_front(bytes_of(*old(self))))
            } else {
                None
            }),
            final(self).pieces() == (if r is Some {
                without_bytes(old(self).pieces(), 4)
            } else {
                old(self).pieces()
            }),
    ;

    /// Returns a view limited by `max_len`: the front piece, or the start of it.
    fn next_chunk(&mut self, max_len: usize) -> (r: Option<ChunkView>)
        requires
            old(self).wf(),
        ensures
            final(self).wf(),
            r is Some <==> old(self).pieces().len() > 0,
            match r {
                Some(chunk) => {
                    &&& chunk.bytes() == front_piece(old(self).pieces(), max_len as nat)
                    &&& final(self).pieces() == without_front_piece(
                        old(self).pieces(),
                        max_len as nat,
                    )
                },
                None => final(self).pieces() == old(self).pieces(),
            },
    ;
}

/// A buffer that bytes can be written to, and where it cuts them into pieces.
pub trait ChunkBufferGrowth: ChunkBuffer {
    /// The pieces of the buffer once `bytes` are written behind what it holds.
    spec fn pieces_with(&self, bytes: Seq<u8>) -> Seq<Seq<u8>>;

    /// With nothing written the pieces stay as they are.
    proof fn lemma_nothing_written(&self)
        requires
            self.wf(),
        ensures
            self.pieces_with(seq![]) == self.pieces(),
    ;
}

/// Between `before` and `after`, `bytes` were written: the pieces are cut as
/// [`ChunkBufferGrowth::pieces_with`] says, and what is written next joins behind them.
pub open spec fn wrote<W: ChunkBufferGrowth>(before: W, after: W, bytes: Seq<u8>) -> bool {
    &&& after.pieces() == before.pieces_with(bytes)
    &&& forall|more: Seq<u8>| #[trigger]
        after.pieces_with(more) == before.pieces_with(bytes + more)
}

/// Two writes one after the other are one write of their bytes.
pub proof fn lemma_wrote_adds<W: ChunkBufferGrowth>(
    before: W,
    between: W,
    after: W,
    a: Seq<u8>,
    b: Seq<u8>,
)
    requires
        wrote(before, between, a),
        wrote(between, after, b),
    ensures
        wrote(before, after, a + b),
{
    assert forall|more: Seq<u8>| #[trigger]
        after.pieces_with(more) == before.pieces_with(a + b + more) by {
        assert(a + (b + more) =~= a + b + more);
    }
}

/// Writer for populating chained chunks.
pub trait ChunkBufferWriter: ChunkBufferGrowth + Sized {
    /// How many more bytes the buffer can take.
    spec fn room(&self) -> nat;

    /// Returns how many bytes are buffered so far.
    fn len(&self) -> (n: usize)
        requires
            self.wf(),
        ensures
            n == bytes_of(*self).len(),
    ;

    /// True when no bytes are buffered.
    fn is_empty(&self) -> (r: bool)
        requires
            self.wf(),
        ensures
            r == (bytes_of(*self).len() == 0),
    {
        self.len() == 0
    }

    /// Appends a single byte.
    fn write_u8(&mut self, byte: u8)
        requires
            old(self).wf(),
            old(self).room() >= 1,
        ensures
            final(self).wf(),
            final(self).room() == old(self).room() - 1,
            bytes_of(*final(self)) == bytes_of(*old(self)).push(byte),
            wrote(*old(self), *final(self), seq![byte]),
    ;

    /// Appends two bytes in network order.
    fn write_u16(&mut self, value: u16)
        requires
            old(self).wf(),
            old(self).room() >= 2,
        ensures
            final(self).wf(),
            final(self).room() == old(self).room() - 2,
            bytes_of(*final(self)) == bytes_of(*old(self)) + be_u16(value),
            wrote(*old(self), *final(self), be_u16(value)),
    ;

    /// Appends a `u32` encoded as a 4-byte network-order integer.
    fn write_u32(&mut self, value: u32)
        requires
            old(self).wf(),
            old(self).room() >= 4,
        ensures
            final(self).wf(),
            final(self).room() == old(self).room() - 4,
            bytes_of(*final(self)) == bytes_of(*old(self)) + be_u32(value),
            wrote(*old(self), *final(self), be_u32(value)),
    ;

    /// Appends the contents of an existing [`ChunkView`].
    fn write_chunk(&mut self, chunk: &ChunkView)
        requires
            old(self).wf(),
            old(self).room() >= chunk.bytes().len(),
        ensures
            final(self).wf(),
            final(self).room() == old(self).room() - chunk.bytes().len(),
            bytes_of(*final(self)) == bytes_of(*old(self)) + chunk.bytes(),
            wrote(*old(self), *final(self), chunk.bytes()),
    ;
}

/// A buffer whose front piece can be taken away whole.
pub trait ChunkBufferSource: ChunkBuffer + Sized {
    /// Pops the next chunk from the front of the queue.
    fn pop_front(&mut self) -> (r: Option<ChunkView>)
        requires
            old(self).wf(),
        ensures
            final(self).wf(),
            r is Some <==> old(self).pieces().len() > 0,
            match r {
                Some(chunk) => {
                    &&& chunk.bytes() == old(self).pieces()[0]
                    &&& final(self).pieces() == old(self).pieces().drop_first()
                },
                None => final(self).pieces() == old(self).pieces(),
            },
    ;
}

/// A buffer that takes further chunks at its back.
pub trait ChunkBufferSink: ChunkBuffer + Sized {
    /// Pushes a new chunk to the back of the queue.
    fn push_back(&mut self, chunk: ChunkView)
        requires
            old(self).wf(),
            bytes_of(*old(self)).len() + chunk.bytes().len() <= usize::MAX,
        ensures
            final(self).wf(),
            final(self).pieces() == old(self).pieces().push(chunk.bytes()),
    ;
}

// === Chunks ===

/// Errors emitted by chunk helpers.
#[derive(Debug, Clone, Copy, PartialEq, Eq, Structural)]
pub enum ChunkError {
    /// A range ends beyond the visible bytes; `attempted` is where it would end in the underlying
    /// chunk.
    Overflow { attempted: usize },
}

/// Fixed-capacity buffer for ingesting bytes before slicing into views.
#[derive(Debug)]
pub struct ChunkOwned {
    data: Vec<u8>,
}

/// Immutable window into a [`ChunkOwned`].
#[derive(Debug)]
pub struct ChunkView {
    data: Arc<ChunkOwned>,
    start: usize,
    end: usize,
}

impl ChunkOwned {
    /// The written bytes.
    pub closed spec fn bytes(&self) -> Seq<u8> {
        self.data@
    }

    /// Creates an empty chunk.
    pub fn new() -> (r: Self)
        ensures
            r.bytes() == Seq::<u8>::empty(),
    {
        ChunkOwned { data: Vec::with_capacity(CHUNK_CAPACITY) }
    }

    /// Returns true when the chunk holds no bytes.
    pub fn is_empty(&self) -> (r: bool)
        ensures
            r == (self.bytes().len() == 0),
    {
        self.data.len() == 0
    }

    /// Returns the number of bytes stored in the chunk.
    pub fn len(&self) -> (n: usize)
        ensures
            n == self.bytes().len(),
    {
        self.data.len()
    }

    /// Returns how many bytes can still be written; none, if the chunk was made of more bytes than
    /// it has capacity for.
    pub fn remaining(&self) -> (n: usize)
        ensures
            n == vstd::math::max(0, CHUNK_CAPACITY - self.bytes().len()),
    {
        if self.data.len() >= CHUNK_CAPACITY {
            return 0;
        }
        CHUNK_CAPACITY - self.data.len()
    }

    /// Appends as many bytes as possible from `bytes`.
    ///
    /// Returns the number of bytes written.
    pub fn extend_from_slice(&mut self, bytes: &[u8]) -> (n: usize)
        ensures
            n == vstd::math::min(
                bytes@.len() as int,
                vstd::math::max(0, CHUNK_CAPACITY - old(self).bytes().len()),
            ),
            final(self).bytes() == old(self).bytes() + bytes@.take(n as int),
    {
        let remaining: usize = self.remaining();
        let write_len: usize = if bytes.len() < remaining {
            bytes.len()
        } else {
            remaining
        };
        self.data.extend_from_slice(&bytes[0..write_len]);
        assert(self.data@ =~= old(self).data@ + bytes@.take(write_len as int));
        write_len
    }

    /// Appends a single byte if capacity allows; tells whether it did.
    pub fn push(&mut self, byte: u8) -> (r: bool)
        ensures
            r == (old(self).bytes().len() < CHUNK_CAPACITY),
            final(self).bytes() == (if r {
                old(self).bytes().push(byte)
            } else {
                old(self).bytes()
            }),
    {
        if self.data.len() >= CHUNK_CAPACITY {
            return false;
        }
        self.data.push(byte);
        true
    }

    /// Exposes the written bytes as a slice.
    pub fn as_slice(&self) -> (r: &[u8])
        ensures
            r@ == self.bytes(),
    {
        self.data.as_slice()
    }
}

impl Default for ChunkOwned {
    fn default() -> (r: Self)
        ensures
            r.bytes() == Seq::<u8>::empty(),
    {
        Self::new()
    }
}

impl From<Vec<u8>> for ChunkOwned {
    fn from(value: Vec<u8>) -> (r: Self)
        ensures
            r.bytes() == value@,
    {
        ChunkOwned { data: value }
    }
}

impl vstd::std_specs::convert::FromSpecImpl<Vec<u8>> for ChunkOwned {
    open spec fn obeys_from_spec() -> bool {
        false
    }

    open spec fn from_spec(value: Vec<u8>) -> Self {
        arbitrary()
    }
}

impl ChunkView {
    /// The window lies inside its chunk.
    #[verifier::type_invariant]
    spec fn window_inside(self) -> bool {
        self.start <= self.end <= self.data.data@.len()
    }

    /// The visible bytes.
    pub closed spec fn bytes(&self) -> Seq<u8> {
        self.data.data@.subrange(self.start as int, self.end as int)
    }

    /// Where the window starts in the underlying chunk.
    pub closed spec fn origin(&self) -> nat {
        self.start as nat
    }

    /// Returns the number of visible bytes.
    pub fn len(&self) -> (n: usize)
        ensures
            n == self.bytes().len(),
    {
        proof {
            use_type_invariant(self);
        }
        self.end - self.start
    }

    /// Returns true when no data is visible.
    pub fn is_empty(&self) -> (r: bool)
        ensures
            r == (self.bytes().len() == 0),
    {
        self.len() == 0
    }

    /// Borrows a narrower view of this chunk. The range lies inside of the current view, so this
    /// does not fail.
    pub fn view(&self, range: Range<usize>) -> (r: Result<ChunkView, ChunkError>)
        requires
            range.start <= range.end <= self.bytes().len(),
        ensures
            r matches Ok(view) && {
                &&& view.bytes() == self.bytes().subrange(range.start as int, range.end as int)
                &&& view.origin() == self.origin() + range.start
            },
    {
        proof {
            use_type_invariant(self);
        }
        let start: usize = self.start + range.start;
        let end: usize = self.start + range.end;
        let view = ChunkView { data: Arc::clone(&self.data), start, end };
        assert(view.bytes() =~= self.bytes().subrange(range.start as int, range.end as int));
        Ok(view)
    }

    /// Exposes the visible bytes as a slice.
    pub fn as_slice(&self) -> (r: &[u8])
        ensures
            r@ == self.bytes(),
    {
        proof {
            use_type_invariant(self);
        }
        &self.data.data.as_slice()[self.start..self.end]
    }
}

impl Clone for ChunkView {
    fn clone(&self) -> (r: Self)
        ensures
            r.bytes() == self.bytes(),
            r.origin() == self.origin(),
    {
        proof {
            use_type_invariant(self);
        }
        ChunkView { data: Arc::clone(&self.data), start: self.start, end: self.end }
    }
}

impl From<ChunkOwned> for ChunkView {
    fn from(chunk: ChunkOwned) -> (r: Self)
        ensures
            r.bytes() == chunk.bytes(),
            r.origin() == 0,
    {
        let end: usize = chunk.len();
        let view = ChunkView { data: Arc::new(chunk), start: 0, end };
        assert(view.bytes() =~= chunk.bytes());
        view
    }
}

impl vstd::std_specs::convert::FromSpecImpl<ChunkOwned> for ChunkView {
    open spec fn obeys_from_spec() -> bool {
        false
    }

    open spec fn from_spec(chunk: ChunkOwned) -> Self {
        arbitrary()
    }
}

impl From<Vec<u8>> for ChunkView {
    fn from(value: Vec<u8>) -> (r: Self)
        ensures
            r.bytes() == value@,
            r.origin() == 0,
    {
        ChunkView::from(ChunkOwned::from(value))
    }
}

impl vstd::std_specs::convert::FromSpecImpl<Vec<u8>> for ChunkView {
    open spec fn obeys_from_spec() -> bool {
        false
    }

    open spec fn from_spec(value: Vec<u8>) -> Self {
        arbitrary()
    }
}

/// Two views are equal when they show the same bytes.
impl PartialEq for ChunkView {
    fn eq(&self, other: &Self) -> (r: bool) {
        let left = self.as_slice();
        let right = other.as_slice();
        if left.len() != right.len() {
            return false;
        }
        let mut i: usize = 0;
        while i < left.len()
            invariant
                left@ == self.bytes(),
                right@ == other.bytes(),
                left.len() == right.len(),
                i <= left.len(),
                left@.take(i as int) == right@.take(i as int),
            decreases left.len() - i,
        {
            if left[i] != right[i] {
                return false;
            }
            i = i + 1;
            assert(left@.take(i as int) =~= right@.take(i as int)) by {
                assert(left@.take(i as int) =~= left@.take(i - 1).push(left@[i - 1]));
                assert(right@.take(i as int) =~= right@.take(i - 1).push(right@[i - 1]));
            }
        }
        assert(left@.take(i as int) =~= left@);
        assert(right@.take(i as int) =~= right@);
        true
    }
}

impl vstd::std_specs::cmp::PartialEqSpecImpl for ChunkView {
    open spec fn obeys_eq_spec() -> bool {
        true
    }

    open spec fn eq_spec(&self, other: &Self) -> bool {
        self.bytes() == other.bytes()
    }
}

impl Eq for ChunkView {

}

impl core::ops::Deref for ChunkView {
    type Target = [u8];

    fn deref(&self) -> (r: &[u8])
        ensures
            r@ == self.bytes(),
    {
        self.as_slice()
    }
}

// === Laws on chunks ===

/// A chunk takes bytes up to its capacity and no further: what is taken is the start of what is
/// offered, behind what is there, and bytes are left over only when the chunk is full.
pub proof fn law_chunk_takes_what_fits(chunk: &mut ChunkOwned, bytes: &[u8], n: usize)
    requires
        call_ensures(ChunkOwned::extend_from_slice, (chunk, bytes), n),
    ensures
        n <= bytes@.len(),
        final(chunk).bytes() == old(chunk).bytes() + bytes@.take(n as int),
        n < bytes@.len() ==> final(chunk).bytes().len() >= 4090,
        n > 0 ==> final(chunk).bytes().len() <= 4090,
{
}

/// A single byte is taken exactly when there is room for it, and a refused one changes nothing.
pub proof fn law_chunk_takes_a_byte_that_fits(chunk: &mut ChunkOwned, byte: u8, taken: bool)
    requires
        call_ensures(ChunkOwned::push, (chunk, byte), taken),
    ensures
        taken <==> old(chunk).bytes().len() < 4090,
        taken ==> final(chunk).bytes() == old(chunk).bytes().push(byte),
        !taken ==> final(chunk).bytes() == old(chunk).bytes(),
{
}

/// What a chunk has left and what it holds make up its capacity; a chunk that was made of more
/// bytes has nothing left.
pub proof fn law_chunk_has_its_capacity(chunk: ChunkOwned, left: usize, held: usize)
    requires
        call_ensures(ChunkOwned::remaining, (&chunk,), left),
        call_ensures(ChunkOwned::len, (&chunk,), held),
    ensures
        held <= 4090 ==> left + held == 4090,
        held > 4090 ==> left == 0,
        held == chunk.bytes().len(),
{
}

/// A view of a view is a view of the whole: the ranges add up.
pub proof fn law_views_nest(
    whole: ChunkView,
    outer: Range<usize>,
    inner: Range<usize>,
    between: ChunkView,
    view: ChunkView,
)
    requires
        outer.start <= outer.end <= whole.bytes().len(),
        inner.start <= inner.end <= outer.end - outer.start,
        call_ensures(
            ChunkView::view,
            (&whole, outer),
            Ok::<ChunkView, ChunkError>(between),
        ),
        call_ensures(ChunkView::view, (&between, inner), Ok::<ChunkView, ChunkError>(view)),
    ensures
        view.bytes() == whole.bytes().subrange(
            outer.start + inner.start,
            outer.start + inner.end,
        ),
        view.origin() == whole.origin() + outer.start + inner.start,
{
    assert(view.bytes() =~= whole.bytes().subrange(
        outer.start + inner.start,
        outer.start + inner.end,
    ));
}

/// Views are equal exactly when they show the same bytes, wherever they lie.
pub proof fn law_views_are_equal_by_their_bytes(left: ChunkView, right: ChunkView)
    ensures
        vstd::std_specs::cmp::PartialEqSpec::eq_spec(&left, &right) <==> left.bytes().len()
            == right.bytes().len() && forall|i: int|
            0 <= i < left.bytes().len() ==> left.bytes()[i] == right.bytes()[i],
{
    if left.bytes().len() == right.bytes().len() && (forall|i: int|
        0 <= i < left.bytes().len() ==> left.bytes()[i] == right.bytes()[i]) {
        assert(left.bytes() =~= right.bytes());
    }
}

// === Single buffers ===

impl ChunkBuffer for Vec<u8> {
    open spec fn wf(&self) -> bool {
        true
    }

    open spec fn pieces(&self) -> Seq<Seq<u8>> {
        seq![self@]
    }
}

/// A single piece is its own bytes.
pub proof fn lemma_flatten_one(piece: Seq<u8>)
    ensures
        seq![piece].flatten() == piece,
{
    seq![piece].lemma_flatten_one_element();
}

impl ChunkBufferGrowth for Vec<u8> {
    open spec fn pieces_with(&self, bytes: Seq<u8>) -> Seq<Seq<u8>> {
        seq![self@ + bytes]
    }

    proof fn lemma_nothing_written(&self) {
        assert(self@ + seq![] =~= self@);
    }
}

impl ChunkBufferWriter for Vec<u8> {
    open spec fn room(&self) -> nat {
        (usize::MAX - self@.len()) as nat
    }

    fn len(&self) -> (n: usize) {
        proof {
            lemma_flatten_one(self@);
        }
        Vec::len(self)
    }

    fn write_u8(&mut self, byte: u8) {
        self.push(byte);
        proof {
            lemma_flatten_one(old(self)@);
            lemma_flatten_one(self@);
            assert(vstd::std_specs::vec::spec_vec_len(self) == self@.len());
            lemma_vec_wrote(*old(self), *self, seq![byte]);
        }
    }

    fn write_u16(&mut self, value: u16) {
        self.push((value / 256) as u8);
        self.push((value % 256) as u8);
        proof {
            lemma_flatten_one(old(self)@);
            lemma_flatten_one(self@);
            assert(vstd::std_specs::vec::spec_vec_len(self) == self@.len());
            lemma_vec_wrote(*old(self), *self, be_u16(value));
        }
    }

    fn write_u32(&mut self, value: u32) {
        self.push((value / 0x100_0000) as u8);
        self.push((value / 0x1_0000 % 256) as u8);
        self.push((value / 0x100 % 256) as u8);
        self.push((value % 256) as u8);
        proof {
            lemma_flatten_one(old(self)@);
            lemma_flatten_one(self@);
            assert(vstd::std_specs::vec::spec_vec_len(self) == self@.len());
            lemma_vec_wrote(*old(self), *self, be_u32(value));
        }
    }

    fn write_chunk(&mut self, chunk: &ChunkView) {
        self.extend_from_slice(chunk.as_slice());
        proof {
            lemma_flatten_one(old(self)@);
            lemma_flatten_one(self@);
            assert(vstd::std_specs::vec::spec_vec_len(self) == self@.len());
            lemma_vec_wrote(*old(self), *self, chunk.bytes());
        }
    }
}

/// A vector that grew by `bytes` is the vector with `bytes` written.
proof fn lemma_vec_wrote(before: Vec<u8>, after: Vec<u8>, bytes: Seq<u8>)
    requires
        after@ =~= before@ + bytes,
    ensures
        after@ == before@ + bytes,
        wrote(before, after, bytes),
{
    assert forall|more: Seq<u8>| #[trigger]
        after.pieces_with(more) == before.pieces_with(bytes + more) by {
        assert(before@ + bytes + more =~= before@ + (bytes + more));
    }
}

/// A chunk that grew by `bytes` is the chunk with `bytes` written.
proof fn lemma_owned_wrote(before: ChunkOwned, after: ChunkOwned, bytes: Seq<u8>)
    requires
        after.bytes() =~= before.bytes() + bytes,
    ensures
        wrote(before, after, bytes),
{
    assert forall|more: Seq<u8>| #[trigger]
        after.pieces_with(more) == before.pieces_with(bytes + more) by {
        assert(before.bytes() + bytes + more =~= before.bytes() + (bytes + more));
    }
}

impl ChunkBuffer for ChunkOwned {
    open spec fn wf(&self) -> bool {
        self.bytes().len() <= CHUNK_CAPACITY
    }

    open spec fn pieces(&self) -> Seq<Seq<u8>> {
        seq![self.bytes()]
    }
}

impl ChunkBufferGrowth for ChunkOwned {
    open spec fn pieces_with(&self, bytes: Seq<u8>) -> Seq<Seq<u8>> {
        seq![self.bytes() + bytes]
    }

    proof fn lemma_nothing_written(&self) {
        assert(self.bytes() + seq![] =~= self.bytes());
    }
}

impl ChunkBufferWriter for ChunkOwned {
    open spec fn room(&self) -> nat {
        (CHUNK_CAPACITY - self.bytes().len()) as nat
    }

    fn len(&self) -> (n: usize) {
        proof {
            lemma_flatten_one(self.bytes());
        }
        self.data.len()
    }

    fn write_u8(&mut self, byte: u8) {
        self.data.write_u8(byte);
        proof {
            lemma_flatten_one(self.bytes());
            lemma_flatten_one(old(self).bytes());
            lemma_owned_wrote(*old(self), *self, seq![byte]);
        }
    }

    fn write_u16(&mut self, value: u16) {
        self.data.write_u16(value);
        proof {
            lemma_flatten_one(self.bytes());
            lemma_flatten_one(old(self).bytes());
            lemma_owned_wrote(*old(self), *self, be_u16(value));
        }
    }

    fn write_u32(&mut self, value: u32) {
        self.data.write_u32(value);
        proof {
            lemma_flatten_one(self.bytes());
            lemma_flatten_one(old(self).bytes());
            lemma_owned_wrote(*old(self), *self, be_u32(value));
        }
    }

    fn write_chunk(&mut self, chunk: &ChunkView) {
        self.data.write_chunk(chunk);
        proof {
            lemma_flatten_one(self.bytes());
            lemma_flatten_one(old(self).bytes());
            lemma_owned_wrote(*old(self), *self, chunk.bytes());
        }
    }
}

impl ChunkBuffer for ChunkView {
    open spec fn wf(&self) -> bool {
        true
    }

    open spec fn pieces(&self) -> Seq<Seq<u8>> {
        if self.bytes().len() == 0 {
            seq![]
        } else {
            seq![self.bytes()]
        }
    }
}

impl ChunkView {
    /// The bytes of a view as a buffer are its visible bytes.
    pub proof fn lemma_bytes(self)
        ensures
            bytes_of(self) == self.bytes(),
    {
        lemma_flatten_one(self.bytes());
        if self.bytes().len() == 0 {
            assert(self.bytes() =~= Seq::empty());
        }
    }
}

/// Reading from a view narrows it from the front.
impl ChunkBufferReader for ChunkView {
    fn len(&self) -> (n: usize) {
        proof {
            self.lemma_bytes();
            use_type_invariant(self);
        }
        self.end - self.start
    }

    fn next_u8(&mut self) -> (r: Option<u8>) {
        proof {
            use_type_invariant(&*self);
            self.lemma_bytes();
            reveal_with_fuel(without_bytes, 2);
        }
        if self.start == self.end {
            return None;
        }
        let byte: u8 = self.data.data[self.start];
        self.start = self.start + 1;
        assert(self.bytes() =~= old(self).bytes().skip(1));
        assert(self.pieces() =~= without_first_byte(old(self).pieces()));
        Some(byte)
    }

    fn next_u16(&mut self) -> (r: Option<u16>) {
        if ChunkBufferReader::len(self) < 2 {
            return None;
        }
        proof {
            lemma_without_bytes(self.pieces(), 1);
            lemma_without_bytes_adds(self.pieces(), 1, 1);
        }
        let hi: u8 = self.next_u8()?;
        let lo: u8 = self.next_u8()?;
        Some(hi as u16 * 256 + lo as u16)
    }

    fn next_u32(&mut self) -> (r: Option<u32>) {
        if ChunkBufferReader::len(self) < 4 {
            return None;
        }
        proof {
            lemma_without_bytes(self.pieces(), 1);
            lemma_without_bytes(self.pieces(), 2);
            lemma_without_bytes(self.pieces(), 3);
            lemma_without_bytes_adds(self.pieces(), 1, 1);
            lemma_without_bytes_adds(self.pieces(), 2, 1);
            lemma_without_bytes_adds(self.pieces(), 3, 1);
        }
        let b0: u8 = self.next_u8()?;
        let b1: u8 = self.next_u8()?;
        let b2: u8 = self.next_u8()?;
        let b3: u8 = self.next_u8()?;
        Some(b0 as u32 * 0x100_0000 + b1 as u32 * 0x1_0000 + b2 as u32 * 0x100 + b3 as u32)
    }

    fn next_chunk(&mut self, max_len: usize) -> (r: Option<ChunkView>) {
        proof {
            use_type_invariant(&*self);
        }
        if self.start == self.end {
            return None;
        }
        let len: usize = self.end - self.start;
        let taken: usize = if len > max_len {
            max_len
        } else {
            len
        };
        let front = ChunkView {
            data: Arc::clone(&self.data),
            start: self.start,
            end: self.start + taken,
        };
        self.start = self.start + taken;
        assert(front.bytes() =~= front_piece(old(self).pieces(), max_len as nat));
        assert(self.bytes() =~= old(self).bytes().skip(taken as int));
        assert(self.pieces() =~= without_front_piece(old(self).pieces(), max_len as nat));
        Some(front)
    }
}

// === Chained writer ===

/// The bytes of each chunk of a queue.
pub open spec fn owned_bytes(queue: Seq<ChunkOwned>) -> Seq<Seq<u8>> {
    Seq::new(queue.len(), |i: int| queue[i].bytes())
}

/// Writer that appends encoded bytes into chained [`ChunkOwned`] blocks.
///
/// This adapter keeps chunk logic centralized so callers can grow a queue
/// without inlining capacity checks.
pub struct ChainedChunkBufferWriter {
    queue: VecDeque<ChunkOwned>,
    len: usize,
    front_offset: usize,
}

impl ChunkBuffer for ChainedChunkBufferWriter {
    /// No chunk is empty or over capacity, all but the last are full, and the consumed part of
    /// the first chunk is less than all of it.
    closed spec fn wf(&self) -> bool {
        &&& forall|i: int|
            #![trigger self.chunks()[i]]
            0 <= i < self.chunks().len() ==> 0 < self.chunks()[i].len() <= CHUNK_CAPACITY
        &&& forall|i: int|
            #![trigger self.chunks()[i]]
            0 <= i < self.chunks().len() - 1 ==> self.chunks()[i].len() == CHUNK_CAPACITY
        &&& self.chunks().len() == 0 ==> self.front_offset == 0
        &&& self.chunks().len() > 0 ==> self.front_offset < self.chunks()[0].len()
        &&& self.len == self.chunks().flatten().len() - self.front_offset
    }

    open spec fn pieces(&self) -> Seq<Seq<u8>> {
        pieces_of(self.chunks(), self.consumed())
    }
}

impl ChainedChunkBufferWriter {
    /// The chunks of the queue, the consumed start of the first one included.
    pub closed spec fn chunks(&self) -> Seq<Seq<u8>> {
        owned_bytes(self.queue@)
    }

    /// How many bytes of the first chunk were consumed.
    pub closed spec fn consumed(&self) -> nat {
        self.front_offset as nat
    }

    /// Bytes are stored in small chunks, and no chunk is wasted: every chunk holds between one byte
    /// and [`CHUNK_CAPACITY`] bytes, and all but the last are full.
    pub proof fn law_chunks_are_bounded(&self)
        requires
            self.wf(),
        ensures
            forall|i: int|
                #![trigger self.chunks()[i]]
                0 <= i < self.chunks().len() ==> 0 < self.chunks()[i].len() <= CHUNK_CAPACITY,
            forall|i: int|
                #![trigger self.chunks()[i]]
                0 <= i < self.chunks().len() - 1 ==> self.chunks()[i].len() == CHUNK_CAPACITY,
            self.chunks().len() == 0 ==> self.consumed() == 0,
            self.chunks().len() > 0 ==> self.consumed() < self.chunks()[0].len(),
    {
    }

    proof fn lemma_len(&self)
        requires
            self.wf(),
        ensures
            bytes_of(*self) == self.chunks().flatten().skip(self.front_offset as int),
            bytes_of(*self).len() == self.len,
    {
        lemma_pieces_of(self.chunks(), self.consumed());
    }

    /// Creates an empty chunk queue.
    pub fn new() -> (r: Self)
        ensures
            r.wf(),
            r.chunks() == Seq::<Seq<u8>>::empty(),
            r.consumed() == 0,
    {
        let r = ChainedChunkBufferWriter { queue: VecDeque::new(), len: 0, front_offset: 0 };
        assert(r.chunks() =~= Seq::<Seq<u8>>::empty());
        r
    }

    /// Returns how many bytes wait to be flushed.
    pub fn filled_len(&self) -> (n: usize)
        requires
            self.wf(),
        ensures
            n == bytes_of(*self).len(),
    {
        proof {
            self.lemma_len();
        }
        self.len
    }

    /// Borrows the next available bytes for flushing to an I/O sink.
    pub fn front_slice(&self) -> (r: Option<&[u8]>)
        requires
            self.wf(),
        ensures
            r is Some <==> self.pieces().len() > 0,
            r matches Some(front) ==> front@ == self.pieces()[0] && front@.len() > 0,
    {
        if self.queue.len() == 0 {
            return None;
        }
        let front = self.queue[0].as_slice();
        assert(front@ == self.chunks()[0]);
        let rest = &front[self.front_offset..front.len()];
        assert(rest@ =~= self.pieces()[0]);
        Some(rest)
    }

    /// Advances the current chunk by `len` bytes, dropping it when fully consumed.
    pub fn consume_front(&mut self, len: usize)
        requires
            old(self).wf(),
            old(self).pieces().len() == 0 ==> len == 0,
            old(self).pieces().len() > 0 ==> len <= old(self).pieces()[0].len(),
        ensures
            final(self).wf(),
            final(self).pieces() == (if old(self).pieces().len() == 0 {
                old(self).pieces()
            } else {
                without_front_piece(old(self).pieces(), len as nat)
            }),
    {
        if self.queue.len() == 0 {
            return;
        }
        proof {
            lemma_pieces_of(self.chunks(), self.consumed());
            lemma_front_piece(self.pieces(), len as nat);
        }
        assert(self.queue@[0].bytes() == self.chunks()[0]);
        let front_len: usize = self.queue[0].len();
        self.front_offset = self.front_offset + len;
        self.len = self.len - len;
        if self.front_offset == front_len {
            let dropped = self.queue.pop_front();
            self.front_offset = 0;
            proof {
                assert(self.chunks() =~= old(self).chunks().drop_first());
                lemma_pieces_of_all(self.chunks());
                assert(self.pieces() =~= without_front_piece(old(self).pieces(), len as nat));
            }
        } else {
            assert(old(self).chunks()[0].skip(old(self).front_offset as int).skip(len as int)
                =~= self.chunks()[0].skip(self.front_offset as int));
            assert(self.pieces() =~= without_front_piece(old(self).pieces(), len as nat));
        }
    }

    /// Exposes buffered data as a contiguous vector (primarily for tests).
    pub fn into_bytes(self) -> (r: Vec<u8>)
        requires
            self.wf(),
        ensures
            r@ == bytes_of(self),
    {
        let mut out: Vec<u8> = Vec::new();
        let count: usize = self.queue.len();
        let mut i: usize = 0;
        proof {
            self.lemma_len();
            assert(self.chunks().take(0) =~= Seq::empty());
        }
        while i < count
            invariant
                count == self.chunks().len(),
                count == self.queue@.len(),
                i <= count,
                out@ == self.chunks().take(i as int).flatten(),
            decreases count - i,
        {
            let chunk = self.queue[i].as_slice();
            assert(chunk@ == self.chunks()[i as int]);
            out.extend_from_slice(chunk);
            proof {
                let before = self.chunks().take(i as int);
                lemma_flatten_push(before, self.chunks()[i as int]);
                assert(self.chunks().take(i + 1) =~= before.push(self.chunks()[i as int]));
                assert(out@ =~= self.chunks().take(i + 1).flatten());
            }
            i = i + 1;
        }
        proof {
            assert(self.chunks().take(count as int) =~= self.chunks());
            lemma_pieces_of(self.chunks(), self.consumed());
        }
        let rest = out.split_off(self.front_offset);
        assert(rest@ =~= bytes_of(self));
        rest
    }

    /// Makes sure that the last chunk can take a byte.
    fn ensure_tail(&mut self)
        requires
            old(self).queue@.len() > 0 ==> old(self).queue@.last().bytes().len() <= CHUNK_CAPACITY,
        ensures
            final(self).len == old(self).len,
            final(self).front_offset == old(self).front_offset,
            if old(self).queue@.len() > 0 && old(self).queue@.last().bytes().len()
                < CHUNK_CAPACITY {
                final(self).queue@ == old(self).queue@
            } else {
                &&& final(self).queue@.len() == old(self).queue@.len() + 1
                &&& final(self).queue@.drop_last() == old(self).queue@
                &&& final(self).queue@.last().bytes() == Seq::<u8>::empty()
            },
    {
        let count: usize = self.queue.len();
        if count == 0 || self.queue[count - 1].remaining() == 0 {
            self.queue.push_back(ChunkOwned::new());
            assert(self.queue@.drop_last() =~= old(self).queue@);
        }
    }
}

impl Default for ChainedChunkBufferWriter {
    fn default() -> (r: Self)
        ensures
            r.wf(),
            r.chunks() == Seq::<Seq<u8>>::empty(),
            r.consumed() == 0,
    {
        Self::new()
    }
}

impl ChunkBufferSource for ChainedChunkBufferWriter {
    fn pop_front(&mut self) -> (r: Option<ChunkView>) {
        match self.queue.pop_front() {
            None => None,
            Some(chunk) => {
                proof {
                    assert(self.chunks() =~= old(self).chunks().drop_first());
                    assert(chunk.bytes() == old(self).chunks()[0]);
                    lemma_pieces_of(old(self).chunks(), old(self).consumed());
                    lemma_pieces_of_all(self.chunks());
                }
                let offset: usize = self.front_offset;
                let end: usize = chunk.len();
                self.front_offset = 0;
                self.len = self.len - (end - offset);
                let view = ChunkView { data: Arc::new(chunk), start: offset, end };
                assert(view.bytes() =~= old(self).pieces()[0]);
                assert(self.pieces() =~= old(self).pieces().drop_first());
                Some(view)
            },
        }
    }
}

impl ChunkBufferGrowth for ChainedChunkBufferWriter {
    /// The last chunk is filled up before a new one starts.
    open spec fn pieces_with(&self, bytes: Seq<u8>) -> Seq<Seq<u8>> {
        pieces_of(with_bytes(self.chunks(), bytes), self.consumed())
    }

    proof fn lemma_nothing_written(&self) {
    }
}

impl ChunkBufferWriter for ChainedChunkBufferWriter {
    open spec fn room(&self) -> nat {
        (usize::MAX - bytes_of(*self).len()) as nat
    }

    fn len(&self) -> (n: usize) {
        proof {
            self.lemma_len();
        }
        self.len
    }

    fn write_u8(&mut self, byte: u8)
        ensures
            final(self).chunks() == with_byte(old(self).chunks(), byte),
            final(self).consumed() == old(self).consumed(),
    {
        proof {
            self.lemma_len();
            lemma_with_byte(self.chunks(), byte);
            if self.queue@.len() > 0 {
                assert(self.queue@.last().bytes() == self.chunks().last());
            }
        }
        self.len = self.len + 1;
        self.ensure_tail();
        let ghost queue = self.queue@;
        let popped = self.queue.pop_back();
        if let Some(mut tail) = popped {
            let pushed = tail.push(byte);
            self.queue.push_back(tail);
        }
        proof {
            let chunks = with_byte(old(self).chunks(), byte);
            assert(forall|i: int| 0 <= i < queue.len() - 1 ==> self.queue@[i] == queue[i]);
            assert(self.queue@.last().bytes() == queue.last().bytes().push(byte));
            if old(self).queue@.len() > 0 && old(self).queue@.last().bytes().len()
                < CHUNK_CAPACITY {
                assert(self.chunks() =~= chunks);
            } else {
                assert(queue.drop_last() =~= old(self).queue@);
                assert forall|i: int| 0 <= i < old(self).queue@.len() implies self.queue@[i]
                    == old(self).queue@[i] by {
                    assert(queue.drop_last()[i] == queue[i]);
                }
                assert(self.queue@.last().bytes() =~= seq![byte]);
                assert(self.chunks() =~= chunks);
            }
            assert(self.wf());
            self.lemma_len();
            let before = old(self).chunks().flatten();
            assert(before.push(byte).skip(self.front_offset as int) =~= before.skip(
                self.front_offset as int,
            ).push(byte));
            reveal_with_fuel(with_bytes, 2);
            assert(seq![byte].drop_last() =~= seq![]);
            lemma_chained_wrote(*old(self), *self, seq![byte]);
        }
    }

    fn write_u16(&mut self, value: u16)
        ensures
            final(self).chunks() == with_bytes(old(self).chunks(), be_u16(value)),
            final(self).consumed() == old(self).consumed(),
    {
        self.write_u8((value / 256) as u8);
        self.write_u8((value % 256) as u8);
        proof {
            lemma_with_two(old(self).chunks(), be_u16(value));
            assert(bytes_of(*self) =~= bytes_of(*old(self)) + be_u16(value));
            lemma_chained_wrote(*old(self), *self, be_u16(value));
        }
    }

    fn write_u32(&mut self, value: u32)
        ensures
            final(self).chunks() == with_bytes(old(self).chunks(), be_u32(value)),
            final(self).consumed() == old(self).consumed(),
    {
        let high: u16 = (value / 0x1_0000) as u16;
        let low: u16 = (value % 0x1_0000) as u16;
        self.write_u16(high);
        self.write_u16(low);
        proof {
            lemma_be_u32_halves(value);
            lemma_with_bytes_adds(old(self).chunks(), be_u16(high), be_u16(low));
            assert(bytes_of(*self) =~= bytes_of(*old(self)) + (be_u16(high) + be_u16(low)));
            lemma_chained_wrote(*old(self), *self, be_u32(value));
        }
    }

    fn write_chunk(&mut self, chunk: &ChunkView)
        ensures
            final(self).chunks() == with_bytes(old(self).chunks(), chunk.bytes()),
            final(self).consumed() == old(self).consumed(),
    {
        let bytes = chunk.as_slice();
        let mut offset: usize = 0;
        proof {
            self.lemma_len();
            assert(bytes@.take(0) =~= Seq::empty());
        }
        while offset < bytes.len()
            invariant
                self.wf(),
                old(self).wf(),
                offset <= bytes@.len(),
                bytes@ == chunk.bytes(),
                old(self).len == bytes_of(*old(self)).len(),
                old(self).len + bytes@.len() <= usize::MAX,
                self.len == old(self).len + offset,
                self.front_offset == old(self).front_offset,
                self.chunks() == with_bytes(old(self).chunks(), bytes@.take(offset as int)),
            decreases bytes@.len() - offset,
        {
            let ghost before = self.chunks();
            let ghost before_queue = self.queue@;
            proof {
                if self.queue@.len() > 0 {
                    assert(self.queue@.last().bytes() == self.chunks().last());
                }
            }
            self.ensure_tail();
            let ghost queue = self.queue@;
            let popped = self.queue.pop_back();
            if let Some(mut tail) = popped {
                let wrote: usize = tail.extend_from_slice(&bytes[offset..bytes.len()]);
                self.queue.push_back(tail);
                let ghost part = bytes@.subrange(offset as int, offset + wrote);
                proof {
                    assert(bytes@.subrange(offset as int, bytes@.len() as int).take(wrote as int)
                        =~= part);
                    assert(tail.bytes() == queue.last().bytes() + part);
                    assert(forall|i: int| 0 <= i < queue.len() - 1 ==> self.queue@[i] == queue[i]);
                    if before_queue.len() > 0 && before_queue.last().bytes().len()
                        < CHUNK_CAPACITY {
                        lemma_with_bytes_in_last(before, part);
                        assert(self.chunks() =~= with_bytes(before, part));
                    } else {
                        lemma_with_bytes_in_new(before, part);
                        assert(queue.drop_last() =~= before_queue);
                        assert forall|i: int| 0 <= i < before_queue.len() implies self.queue@[i]
                            == before_queue[i] by {
                            assert(queue.drop_last()[i] == queue[i]);
                        }
                        assert(self.queue@.last().bytes() =~= part);
                        assert(self.chunks() =~= with_bytes(before, part));
                    }
                    lemma_with_bytes(before, part);
                    lemma_with_bytes_adds(old(self).chunks(), bytes@.take(offset as int), part);
                    assert(bytes@.take(offset as int) + part =~= bytes@.take(offset + wrote));
                }
                self.len = self.len + wrote;
                offset = offset + wrote;
            }
        }
        proof {
            assert(bytes@.take(offset as int) =~= bytes@);
            lemma_with_bytes(old(self).chunks(), chunk.bytes());
            old(self).lemma_len();
            self.lemma_len();
            let all = old(self).chunks().flatten();
            assert((all + chunk.bytes()).skip(self.front_offset as int) =~= all.skip(
                self.front_offset as int,
            ) + chunk.bytes());
            lemma_chained_wrote(*old(self), *self, chunk.bytes());
        }
    }
}

/// A chained writer whose chunks took `bytes` is the writer with `bytes` written.
proof fn lemma_chained_wrote(
    before: ChainedChunkBufferWriter,
    after: ChainedChunkBufferWriter,
    bytes: Seq<u8>,
)
    requires
        after.chunks() == with_bytes(before.chunks(), bytes),
        after.consumed() == before.consumed(),
    ensures
        wrote(before, after, bytes),
{
    assert forall|more: Seq<u8>| #[trigger]
        after.pieces_with(more) == before.pieces_with(bytes + more) by {
        lemma_with_bytes_adds(before.chunks(), bytes, more);
    }
}

/// Writing two bytes one by one.
proof fn lemma_with_two(chunks: Seq<Seq<u8>>, bytes: Seq<u8>)
    requires
        bytes.len() == 2,
    ensures
        with_bytes(chunks, bytes) == with_byte(with_byte(chunks, bytes[0]), bytes[1]),
{
    reveal_with_fuel(with_bytes, 3);
}

/// A 32-bit value in network order is its high half and then its low half.
proof fn lemma_be_u32_halves(value: u32)
    ensures
        be_u32(value) == be_u16((value / 0x1_0000) as u16) + be_u16((value % 0x1_0000) as u16),
{
    assert(value / 0x1_0000 <= 0xffff && value / 0x1_0000 / 256 == value / 0x100_0000) by (bit_vector);
    assert(value % 0x1_0000 / 256 == value / 0x100 % 256 && value % 0x1_0000 % 256 == value % 256)
        by (bit_vector);
    assert(be_u32(value) =~= be_u16((value / 0x1_0000) as u16) + be_u16(
        (value % 0x1_0000) as u16,
    ));
}

// === Chained reader ===

/// The visible bytes of each view of a queue.
pub open spec fn visible_bytes(queue: Seq<ChunkView>) -> Seq<Seq<u8>> {
    Seq::new(queue.len(), |i: int| queue[i].bytes())
}

/// Reader that walks across chained [`ChunkView`] blocks.
pub struct ChainedChunkBufferReader {
    chunks: VecDeque<ChunkView>,
    front_offset: usize,
    len: usize,
}

impl ChunkBuffer for ChainedChunkBufferReader {
    /// The consumed part of the first chunk is less than all of it, unless it is empty.
    closed spec fn wf(&self) -> bool {
        let chunks = visible_bytes(self.chunks@);
        &&& self.front_offset == 0 || (chunks.len() > 0 && self.front_offset < chunks[0].len())
        &&& self.len == chunks.flatten().len() - self.front_offset
    }

    closed spec fn pieces(&self) -> Seq<Seq<u8>> {
        pieces_of(visible_bytes(self.chunks@), self.front_offset as nat)
    }
}

impl ChainedChunkBufferReader {
    proof fn lemma_len(&self)
        requires
            self.wf(),
        ensures
            bytes_of(*self) == visible_bytes(self.chunks@).flatten().skip(self.front_offset as int),
            bytes_of(*self).len() == self.len,
            self.pieces().len() == self.chunks@.len(),
    {
        lemma_pieces_of(visible_bytes(self.chunks@), self.front_offset as nat);
    }

    /// Creates an empty reader.
    pub fn new() -> (r: Self)
        ensures
            r.wf(),
            r.pieces() == Seq::<Seq<u8>>::empty(),
    {
        let r = ChainedChunkBufferReader { chunks: VecDeque::new(), front_offset: 0, len: 0 };
        assert(visible_bytes(r.chunks@) =~= Seq::<Seq<u8>>::empty());
        r
    }

    /// True when no chunk is queued.
    pub fn is_empty(&self) -> (r: bool)
        requires
            self.wf(),
        ensures
            r == (self.pieces().len() == 0),
    {
        self.chunks.len() == 0
    }
}

impl Default for ChainedChunkBufferReader {
    fn default() -> (r: Self)
        ensures
            r.wf(),
            r.pieces() == Seq::<Seq<u8>>::empty(),
    {
        Self::new()
    }
}

impl From<Vec<u8>> for ChainedChunkBufferReader {
    fn from(value: Vec<u8>) -> (r: Self)
        ensures
            r.wf(),
            r.pieces() == seq![value@],
    {
        let len: usize = value.len();
        let mut chunks: VecDeque<ChunkView> = VecDeque::new();
        chunks.push_back(ChunkView::from(ChunkOwned::from(value)));
        let r = ChainedChunkBufferReader { chunks, front_offset: 0, len };
        proof {
            assert(visible_bytes(r.chunks@) =~= seq![value@]);
            lemma_flatten_one(value@);
            assert(value@.skip(0) =~= value@);
            assert(r.pieces() =~= seq![value@]);
        }
        r
    }
}

impl vstd::std_specs::convert::FromSpecImpl<Vec<u8>> for ChainedChunkBufferReader {
    open spec fn obeys_from_spec() -> bool {
        false
    }

    open spec fn from_spec(value: Vec<u8>) -> Self {
        arbitrary()
    }
}

/// A reader over what a writer holds: nothing is copied, and the pieces stay as they are.
impl From<ChainedChunkBufferWriter> for ChainedChunkBufferReader {
    fn from(value: ChainedChunkBufferWriter) -> (r: Self)
        ensures
            value.wf() ==> r.wf(),
            value.wf() ==> r.pieces() == value.pieces(),
    {
        let len: usize = value.len;
        let front_offset: usize = value.front_offset;
        let mut queue = value.queue;
        let ghost all = owned_bytes(queue@);
        let mut chunks: VecDeque<ChunkView> = VecDeque::new();
        while queue.len() > 0
            invariant
                all == owned_bytes(value.queue@),
                visible_bytes(chunks@) + owned_bytes(queue@) == all,
            decreases queue@.len(),
        {
            let ghost shown = visible_bytes(chunks@);
            let ghost kept = owned_bytes(queue@);
            if let Some(chunk) = queue.pop_front() {
                let view = ChunkView::from(chunk);
                chunks.push_back(view);
                proof {
                    assert(visible_bytes(chunks@) =~= shown.push(kept[0]));
                    assert(owned_bytes(queue@) =~= kept.drop_first());
                    assert(shown.push(kept[0]) + kept.drop_first() =~= shown + kept);
                }
            }
        }
        proof {
            assert(visible_bytes(chunks@) =~= all);
        }
        ChainedChunkBufferReader { chunks, front_offset, len }
    }
}

impl vstd::std_specs::convert::FromSpecImpl<ChainedChunkBufferWriter> for ChainedChunkBufferReader {
    open spec fn obeys_from_spec() -> bool {
        false
    }

    open spec fn from_spec(value: ChainedChunkBufferWriter) -> Self {
        arbitrary()
    }
}

impl ChunkBufferSink for ChainedChunkBufferReader {
    fn push_back(&mut self, chunk: ChunkView) {
        proof {
            self.lemma_len();
            lemma_flatten_push(visible_bytes(self.chunks@), chunk.bytes());
        }
        self.len = self.len + chunk.len();
        self.chunks.push_back(chunk);
        proof {
            let before = visible_bytes(old(self).chunks@);
            assert(visible_bytes(self.chunks@) =~= before.push(chunk.bytes()));
            assert(chunk.bytes().skip(0) =~= chunk.bytes());
            assert(self.pieces() =~= old(self).pieces().push(chunk.bytes()));
        }
    }
}

impl ChunkBufferReader for ChainedChunkBufferReader {
    fn len(&self) -> (n: usize) {
        proof {
            self.lemma_len();
        }
        self.len
    }

    fn next_u8(&mut self) -> (r: Option<u8>) {
        proof {
            self.lemma_len();
        }
        if self.len == 0 {
            return None;
        }
        while self.chunks.len() > 0 && self.chunks[0].len() == 0
            invariant
                self.wf(),
                self.len > 0,
                bytes_of(*self) == bytes_of(*old(self)),
                without_first_byte(self.pieces()) == without_first_byte(old(self).pieces()),
            decreases self.chunks@.len(),
        {
            let ghost before = *self;
            assert(before.chunks@[0].bytes().len() == 0);
            let dropped = self.chunks.pop_front();
            proof {
                let chunks = visible_bytes(before.chunks@);
                assert(visible_bytes(self.chunks@) =~= chunks.drop_first());
                assert(chunks.flatten() =~= chunks.drop_first().flatten());
                lemma_pieces_of_all(chunks);
                lemma_pieces_of_all(chunks.drop_first());
            }
        }
        let ghost middle = *self;
        proof {
            self.lemma_len();
        }
        let front = self.chunks[0].as_slice();
        let ghost chunks = visible_bytes(self.chunks@);
        assert(front@ == chunks[0]);
        let value: u8 = front[self.front_offset];
        let front_len: usize = front.len();
        proof {
            assert(self.pieces().flatten()[0] == self.pieces()[0][0]);
            lemma_without_first_byte(self.pieces());
            reveal_with_fuel(without_bytes, 2);
        }
        self.front_offset = self.front_offset + 1;
        self.len = self.len - 1;
        if self.front_offset == front_len {
            let dropped = self.chunks.pop_front();
            self.front_offset = 0;
            proof {
                assert(visible_bytes(self.chunks@) =~= chunks.drop_first());
                lemma_pieces_of_all(chunks.drop_first());
                assert(middle.pieces().drop_first() =~= chunks.drop_first());
            }
        } else {
            proof {
                assert(chunks[0].skip(middle.front_offset as int).skip(1) =~= chunks[0].skip(
                    self.front_offset as int,
                ));
                assert(self.pieces() =~= without_first_byte(middle.pieces()));
            }
        }
        Some(value)
    }

    fn next_u16(&mut self) -> (r: Option<u16>) {
        if ChunkBufferReader::len(self) < 2 {
            return None;
        }
        proof {
            lemma_without_bytes(self.pieces(), 1);
            lemma_without_bytes_adds(self.pieces(), 1, 1);
        }
        let hi: u8 = self.next_u8()?;
        let lo: u8 = self.next_u8()?;
        Some(hi as u16 * 256 + lo as u16)
    }

    fn next_u32(&mut self) -> (r: Option<u32>) {
        if ChunkBufferReader::len(self) < 4 {
            return None;
        }
        proof {
            lemma_without_bytes(self.pieces(), 1);
            lemma_without_bytes(self.pieces(), 2);
            lemma_without_bytes(self.pieces(), 3);
            lemma_without_bytes_adds(self.pieces(), 1, 1);
            lemma_without_bytes_adds(self.pieces(), 2, 1);
            lemma_without_bytes_adds(self.pieces(), 3, 1);
        }
        let b0: u8 = self.next_u8()?;
        let b1: u8 = self.next_u8()?;
        let b2: u8 = self.next_u8()?;
        let b3: u8 = self.next_u8()?;
        Some(b0 as u32 * 0x100_0000 + b1 as u32 * 0x1_0000 + b2 as u32 * 0x100 + b3 as u32)
    }

    fn next_chunk(&mut self, max_len: usize) -> (r: Option<ChunkView>) {
        proof {
            self.lemma_len();
        }
        if self.chunks.len() == 0 {
            return None;
        }
        let ghost chunks = visible_bytes(self.chunks@);
        let front = &self.chunks[0];
        assert(front.bytes() == chunks[0]);
        let front_len: usize = front.len();
        proof {
            lemma_front_piece(self.pieces(), max_len as nat);
        }
        if front_len - self.front_offset > max_len {
            let out = front.view(self.front_offset..self.front_offset + max_len);
            self.front_offset = self.front_offset + max_len;
            self.len = self.len - max_len;
            proof {
                assert(chunks[0].skip(old(self).front_offset as int).skip(max_len as int)
                    =~= chunks[0].skip(self.front_offset as int));
                assert(self.pieces() =~= without_front_piece(
                    old(self).pieces(),
                    max_len as nat,
                ));
                assert(out->Ok_0.bytes() =~= front_piece(old(self).pieces(), max_len as nat));
            }
            out.ok()
        } else {
            let out = front.view(self.front_offset..front_len);
            let taken: usize = front_len - self.front_offset;
            let dropped = self.chunks.pop_front();
            self.front_offset = 0;
            self.len = self.len - taken;
            proof {
                assert(visible_bytes(self.chunks@) =~= chunks.drop_first());
                lemma_pieces_of_all(chunks.drop_first());
                assert(old(self).pieces().drop_first() =~= chunks.drop_first());
                assert(out->Ok_0.bytes() =~= front_piece(old(self).pieces(), max_len as nat));
            }
            out.ok()
        }
    }
}

} // verus!
