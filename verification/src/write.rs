//! Push adapters: the caller hands in bytes as they come.
//!
//! The encoder collects plain bytes into blocks and frames what the codec
//! makes of each. The decoder takes the bytes of a stream in chunks of any
//! size, cut anywhere, and finds the header and the records in them.
//!
//! A call of `write` takes bytes from the front of a chunk and returns how
//! many it took, together with an [`Action`]: what the caller has to do
//! before the next call. The caller runs the codec and writes to its sink,
//! and tells the adapter when that is done. A codec call or a write to the
//! sink that fails is the caller's to report; the adapter has not heard of
//! it and asks for the same again.
use vstd::prelude::*;
use crate::errors::Error;
use crate::errors::ErrorView;
use crate::errors::Result;
use crate::format::append;
use crate::format::header_bytes;
use crate::format::parse_header;
use crate::format::read_header;
use crate::format::record_bytes;
use crate::format::write_header;
use crate::format::BlockHeader;
use crate::format::BLOCK_HEADER_SIZE;
use crate::format::HEADER_SIZE;
use crate::Bz3State;
use crate::BLOCK_SIZE_MAX;
use crate::BLOCK_SIZE_MIN;

verus! {

/// What the caller has to do after a call of `write` or `flush`.
#[derive(Clone, Copy, Debug, PartialEq, Eq, Structural)]
pub enum Action {
    /// Nothing: hand in more bytes.
    Continue,
    /// A block is ready: compress [`Bz3Encoder::block`], then hand what the
    /// codec made of it to [`Bz3Encoder::compress_block`] and forward the
    /// record that comes back.
    Compress,
    /// The header is complete: create the codec state for `block_size`, then
    /// call [`Bz3Decoder::initialize`].
    Initialize { block_size: usize },
    /// A record is complete: decompress [`Bz3Decoder::block`], which is
    /// `new_size` bytes long, to `read_size` bytes, forward them, then call
    /// [`Bz3Decoder::decompress_block`].
    Decompress { new_size: usize, read_size: usize },
}

/// Result of a call of `write`.
#[derive(Clone, Copy, Debug, PartialEq, Eq, Structural)]
pub struct Written {
    /// Number of bytes taken from the front of the chunk.
    pub size: usize,
    /// What the caller has to do before the next call.
    pub action: Action,
}

/// Mathematical value of a [`Bz3Encoder`].
pub struct EncoderView {
    /// Block size of the stream.
    pub block_size: int,
    /// The plain bytes collected for the next block.
    pub buffered: Seq<u8>,
}

impl EncoderView {
    /// Number of bytes that the block still takes.
    pub open spec fn room(self) -> int {
        self.block_size - self.buffered.len()
    }

    /// Number of bytes that a call of [`Bz3Encoder::write`] takes from a
    /// chunk of `len` bytes: all of them, or as many as the block still
    /// takes.
    pub open spec fn taken(self, len: int) -> int {
        if len < self.room() {
            len
        } else {
            self.room()
        }
    }

    /// The encoder after a call of [`Bz3Encoder::write`] with the chunk
    /// `bytes`.
    pub open spec fn write(self, bytes: Seq<u8>) -> EncoderView {
        EncoderView { buffered: self.buffered + bytes.take(self.taken(bytes.len() as int)), ..self }
    }

    /// The record that [`Bz3Encoder::compress_block`] returns when the codec
    /// has made `compressed` of the collected bytes.
    pub open spec fn record(self, compressed: Seq<u8>) -> Seq<u8> {
        record_bytes(compressed, self.buffered.len() as int)
    }
}

/// Encoder for plain bytes that arrive in chunks.
pub struct Bz3Encoder {
    state: Bz3State,
    /// The plain bytes collected for the next block.
    buffer: Vec<u8>,
}

impl View for Bz3Encoder {
    type V = EncoderView;

    closed spec fn view(&self) -> EncoderView {
        EncoderView { block_size: self.state.block_size() as int, buffered: self.buffer@ }
    }
}

impl Bz3Encoder {
    /// What every encoder satisfies: the block size is in range, and no
    /// more is collected than a block holds.
    pub closed spec fn wf(&self) -> bool {
        &&& BLOCK_SIZE_MIN <= self.state.block_size() <= BLOCK_SIZE_MAX
        &&& self.buffer@.len() <= self.state.block_size()
    }

    /// What every encoder's value satisfies.
    pub proof fn lemma_wf(&self)
        requires
            self.wf(),
        ensures
            BLOCK_SIZE_MIN <= self@.block_size <= BLOCK_SIZE_MAX,
            self@.buffered.len() <= self@.block_size,
    {
    }

    /// Creates an encoder for blocks of `block_size` bytes, together with
    /// the container header, which the caller forwards at once. A block size
    /// out of range is refused.
    pub fn new(block_size: usize) -> (r: Result<(Bz3Encoder, Vec<u8>)>)
        ensures
            BLOCK_SIZE_MIN <= block_size <= BLOCK_SIZE_MAX ==> (r matches Ok(made) && made.0.wf()
                && made.0@ == (EncoderView { block_size: block_size as int, buffered: Seq::empty() })
                && made.1@ == header_bytes(block_size as int)),
            !(BLOCK_SIZE_MIN <= block_size <= BLOCK_SIZE_MAX) ==> (r matches Err(e) && e@
                == ErrorView::BlockSize),
    {
        let state = Bz3State::new(block_size)?;
        let header = write_header(block_size);
        let buffer: Vec<u8> = Vec::with_capacity(block_size);
        assert(buffer@ =~= Seq::<u8>::empty());
        Ok((Bz3Encoder { state, buffer }, header))
    }

    /// Takes bytes from the front of `buf` into the block, as many as the
    /// block still holds, and says how many they were. When the block is
    /// full after that, the caller has to compress it before the next
    /// call.
    pub fn write(&mut self, buf: &[u8]) -> (written: Written)
        requires
            old(self).wf(),
        ensures
            final(self).wf(),
            final(self)@ == old(self)@.write(buf@),
            written.size == old(self)@.taken(buf@.len() as int),
            written.action == if final(self)@.room() == 0 {
                Action::Compress
            } else {
                Action::Continue
            },
    {
        let block_size = self.state.block_size();
        let room = block_size - self.buffer.len();
        let size = if buf.len() < room {
            buf.len()
        } else {
            room
        };
        assert(buf@.subrange(0, size as int) == buf@.take(size as int));
        append(&mut self.buffer, &buf[0..size]);
        let action = if self.buffer.len() == block_size {
            Action::Compress
        } else {
            Action::Continue
        };
        Written { size, action }
    }

    /// Says whether anything is collected that a flush has to emit: with
    /// nothing collected there is nothing to do, and no empty record is
    /// made.
    pub fn flush(&self) -> (action: Action)
        requires
            self.wf(),
        ensures
            action == if self@.buffered.len() == 0 {
                Action::Continue
            } else {
                Action::Compress
            },
    {
        if self.buffer.len() != 0 {
            Action::Compress
        } else {
            Action::Continue
        }
    }

    /// The plain bytes collected for the next block.
    pub fn block(&self) -> (plain: &[u8])
        ensures
            plain@ == self@.buffered,
    {
        self.buffer.as_slice()
    }

    /// Takes what the codec made of the collected bytes and returns the
    /// record to forward: the two lengths, then `compressed`. The encoder
    /// then starts a new block.
    pub fn compress_block(&mut self, compressed: &[u8]) -> (record: Vec<u8>)
        requires
            old(self).wf(),
            compressed@.len() <= i32::MAX,
        ensures
            final(self).wf(),
            final(self)@ == (EncoderView { buffered: Seq::empty(), ..old(self)@ }),
            record@ == old(self)@.record(compressed@),
    {
        let header = BlockHeader {
            new_size: compressed.len() as i32,
            read_size: self.buffer.len() as i32,
        };
        let mut record: Vec<u8> = Vec::with_capacity(BLOCK_HEADER_SIZE + compressed.len());
        header.write_to(&mut record);
        append(&mut record, compressed);
        self.buffer.clear();
        assert(self.buffer@ =~= Seq::<u8>::empty());
        assert(record@ =~= old(self)@.record(compressed@));
        record
    }
}

/// What the decoder is collecting bytes for.
pub enum Phase {
    /// The container header.
    AwaitingHeader,
    /// The two lengths of the next record.
    AwaitingBlockHeader,
    /// The payload of a record with these lengths.
    AwaitingBlockData { new_size: usize, read_size: usize },
}

/// Mathematical value of a [`Bz3Decoder`].
pub struct DecoderView {
    pub phase: Phase,
    /// The bytes collected so far for the phase.
    pub buffered: Seq<u8>,
    /// Block size of the stream; 0 until the header is complete.
    pub block_size: int,
    /// Longest payload that a record may have; 0 until the header is
    /// complete.
    pub bound: int,
}

/// One call of [`Bz3Decoder::write`], as a function of the decoder and the
/// chunk.
pub struct Step {
    /// The decoder after the call.
    pub next: DecoderView,
    /// Number of bytes taken.
    pub size: int,
    /// What the call returns: the action, or why it failed.
    pub outcome: core::result::Result<Action, ErrorView>,
}

impl DecoderView {
    /// A decoder that has seen nothing.
    pub open spec fn start() -> DecoderView {
        DecoderView { phase: Phase::AwaitingHeader, buffered: Seq::empty(), block_size: 0, bound: 0 }
    }

    /// Number of bytes that the phase takes in all.
    pub open spec fn target(self) -> int {
        match self.phase {
            Phase::AwaitingHeader => HEADER_SIZE as int,
            Phase::AwaitingBlockHeader => BLOCK_HEADER_SIZE as int,
            Phase::AwaitingBlockData { new_size, read_size } => new_size as int,
        }
    }

    /// Number of bytes that the phase still takes.
    pub open spec fn needed(self) -> int {
        self.target() - self.buffered.len()
    }

    /// What every decoder satisfies.
    pub open spec fn wf(self) -> bool {
        &&& self.buffered.len() <= self.target()
        &&& match self.phase {
            Phase::AwaitingHeader => self.block_size == 0 && self.bound == 0,
            Phase::AwaitingBlockHeader => {
                &&& BLOCK_SIZE_MIN <= self.block_size <= BLOCK_SIZE_MAX
                &&& 0 <= self.bound <= usize::MAX
            },
            Phase::AwaitingBlockData { new_size, read_size } => {
                &&& BLOCK_SIZE_MIN <= self.block_size <= BLOCK_SIZE_MAX
                &&& 0 <= self.bound <= usize::MAX
                &&& new_size <= self.bound
                &&& new_size <= i32::MAX
                &&& read_size <= self.block_size
            },
        }
    }

    /// The decoder with `bytes` added to what it has collected.
    pub open spec fn fill(self, bytes: Seq<u8>) -> DecoderView {
        DecoderView { buffered: self.buffered + bytes, ..self }
    }

    /// What a decoder whose phase is complete does. A complete header is
    /// read; the decoder then waits for the codec state. Two complete
    /// lengths are read and checked against the block size and the bound;
    /// the decoder then collects the payload. A complete payload waits to
    /// be decompressed. A header or lengths that are refused stay as they
    /// are, so that every later call fails in the same way.
    pub open spec fn complete(self) -> Step {
        match self.phase {
            Phase::AwaitingHeader => Step {
                next: self,
                size: 0,
                outcome: match parse_header(self.buffered) {
                    Ok(block_size) => Ok(Action::Initialize { block_size: block_size as usize }),
                    Err(e) => Err(e),
                },
            },
            Phase::AwaitingBlockHeader => {
                let header = BlockHeader::parse(self.buffered);
                let new_size = header.new_size as usize;
                let read_size = header.read_size as usize;
                if !header.fits(self.block_size, self.bound) {
                    Step { next: self, size: 0, outcome: Err(ErrorView::BlockSize) }
                } else {
                    Step {
                        next: DecoderView {
                            phase: Phase::AwaitingBlockData { new_size, read_size },
                            buffered: Seq::empty(),
                            ..self
                        },
                        size: 0,
                        outcome: if new_size == 0 {
                            Ok(Action::Decompress { new_size, read_size })
                        } else {
                            Ok(Action::Continue)
                        },
                    }
                }
            },
            Phase::AwaitingBlockData { new_size, read_size } => Step {
                next: self,
                size: 0,
                outcome: Ok(Action::Decompress { new_size, read_size }),
            },
        }
    }

    /// What a call of [`Bz3Decoder::write`] with the chunk `bytes` does:
    /// it takes from the front of the chunk what the phase still needs, and
    /// no more; a phase that this completes is acted on at once.
    pub open spec fn accept(self, bytes: Seq<u8>) -> Step {
        let size = if bytes.len() < self.needed() {
            bytes.len() as int
        } else {
            self.needed()
        };
        let filled = self.fill(bytes.take(size));
        if filled.needed() > 0 {
            Step { next: filled, size, outcome: Ok(Action::Continue) }
        } else {
            Step { size, ..filled.complete() }
        }
    }

    /// The decoder after the caller has created the codec state and given
    /// the bound: it waits for the first record. Without a complete and
    /// valid header nothing changes.
    pub open spec fn initialize(self, bound: int) -> DecoderView {
        if self.phase is AwaitingHeader && parse_header(self.buffered) is Ok {
            DecoderView {
                phase: Phase::AwaitingBlockHeader,
                buffered: Seq::empty(),
                block_size: parse_header(self.buffered)->Ok_0,
                bound,
            }
        } else {
            self
        }
    }

    /// The complete payload that waits to be decompressed, or nothing.
    pub open spec fn block(self) -> Seq<u8> {
        if self.phase is AwaitingBlockData && self.needed() == 0 {
            self.buffered
        } else {
            Seq::empty()
        }
    }

    /// The decoder after the caller has decompressed and forwarded the
    /// complete payload: it waits for the next record. Without a complete
    /// payload nothing changes.
    pub open spec fn decompress_block(self) -> DecoderView {
        if self.phase is AwaitingBlockData && self.needed() == 0 {
            DecoderView { phase: Phase::AwaitingBlockHeader, buffered: Seq::empty(), ..self }
        } else {
            self
        }
    }
}

/// Decoder for a stream that arrives in chunks.
pub struct Bz3Decoder {
    /// The codec state's block size, once the header is complete.
    state: Option<Bz3State>,
    bound: usize,
    /// The header until it is complete, then the payload of the record.
    buffer: Vec<u8>,
    /// The two lengths of the next record, as far as they have arrived.
    block_header_buf: Vec<u8>,
    /// The lengths of the record whose payload is being collected.
    block_header: Option<BlockHeader>,
}

impl View for Bz3Decoder {
    type V = DecoderView;

    closed spec fn view(&self) -> DecoderView {
        match (self.state, self.block_header) {
            (None, _) => DecoderView {
                phase: Phase::AwaitingHeader,
                buffered: self.buffer@,
                block_size: 0,
                bound: 0,
            },
            (Some(state), None) => DecoderView {
                phase: Phase::AwaitingBlockHeader,
                buffered: self.block_header_buf@,
                block_size: state.block_size() as int,
                bound: self.bound as int,
            },
            (Some(state), Some(header)) => DecoderView {
                phase: Phase::AwaitingBlockData {
                    new_size: header.new_size as usize,
                    read_size: header.read_size as usize,
                },
                buffered: self.buffer@,
                block_size: state.block_size() as int,
                bound: self.bound as int,
            },
        }
    }
}

impl Bz3Decoder {
    /// What every decoder satisfies.
    pub closed spec fn wf(&self) -> bool {
        &&& self@.wf()
        &&& match (self.state, self.block_header) {
            (None, _) => self.block_header is None && self.block_header_buf@.len() == 0,
            (Some(state), None) => self.buffer@.len() == 0,
            (Some(state), Some(header)) => {
                &&& self.block_header_buf@.len() == 0
                &&& header.new_size >= 0
                &&& header.read_size >= 0
            },
        }
    }

    /// A decoder's value satisfies what every decoder's value does.
    pub proof fn lemma_wf(&self)
        requires
            self.wf(),
        ensures
            self@.wf(),
    {
    }

    /// Creates a decoder that waits for the start of a stream.
    pub fn new() -> (decoder: Bz3Decoder)
        ensures
            decoder.wf(),
            decoder@ == DecoderView::start(),
    {
        Bz3Decoder {
            state: None,
            bound: 0,
            buffer: Vec::with_capacity(HEADER_SIZE),
            block_header_buf: Vec::with_capacity(BLOCK_HEADER_SIZE),
            block_header: None,
        }
    }

    /// Takes from the front of `buf` the bytes that the current phase still
    /// needs, and says how many they were and what the caller has to do
    /// next. A call that fails leaves the decoder so that every later call
    /// fails in the same way.
    pub fn write(&mut self, buf: &[u8]) -> (r: Result<Written>)
        requires
            old(self).wf(),
        ensures
            final(self).wf(),
            final(self)@ == old(self)@.accept(buf@).next,
            r matches Ok(written) ==> old(self)@.accept(buf@).outcome == Ok::<Action, ErrorView>(
                written.action,
            ) && written.size == old(self)@.accept(buf@).size,
            r matches Err(e) ==> old(self)@.accept(buf@).outcome == Err::<Action, ErrorView>(e@),
    {
        assert(forall|size: int| buf@.subrange(0, size) == buf@.take(size));
        match &self.state {
            None => {
                let needed = HEADER_SIZE - self.buffer.len();
                let size = if buf.len() < needed {
                    buf.len()
                } else {
                    needed
                };
                append(&mut self.buffer, &buf[0..size]);
                if self.buffer.len() == HEADER_SIZE {
                    let block_size = read_header(self.buffer.as_slice())?;
                    return Ok(Written { size, action: Action::Initialize { block_size } });
                }
                Ok(Written { size, action: Action::Continue })
            },
            Some(state) => {
                let block_size = state.block_size();
                match self.block_header {
                    None => {
                        let needed = BLOCK_HEADER_SIZE - self.block_header_buf.len();
                        let size = if buf.len() < needed {
                            buf.len()
                        } else {
                            needed
                        };
                        append(&mut self.block_header_buf, &buf[0..size]);
                        if self.block_header_buf.len() == BLOCK_HEADER_SIZE {
                            let header = BlockHeader::read_from(self.block_header_buf.as_slice())?;
                            if !header.check(block_size, self.bound) {
                                return Err(Error::BlockSize);
                            }
                            self.block_header = Some(header);
                            self.block_header_buf.clear();
                            assert(self.buffer@ =~= Seq::<u8>::empty());
                            if header.new_size == 0 {
                                return Ok(
                                    Written {
                                        size,
                                        action: Action::Decompress {
                                            new_size: 0,
                                            read_size: header.read_size as usize,
                                        },
                                    },
                                );
                            }
                        }
                        Ok(Written { size, action: Action::Continue })
                    },
                    Some(header) => {
                        let new_size = header.new_size as usize;
                        let needed = new_size - self.buffer.len();
                        let size = if buf.len() < needed {
                            buf.len()
                        } else {
                            needed
                        };
                        append(&mut self.buffer, &buf[0..size]);
                        if self.buffer.len() == new_size {
                            return Ok(
                                Written {
                                    size,
                                    action: Action::Decompress {
                                        new_size,
                                        read_size: header.read_size as usize,
                                    },
                                },
                            );
                        }
                        Ok(Written { size, action: Action::Continue })
                    },
                }
            },
        }
    }

    /// Tells the decoder that the codec state for the stream's block size
    /// exists, and that the codec makes at most `bound` bytes of a block.
    /// The decoder then waits for the first record, and the block size is
    /// returned. Without a complete and valid header the decoder stays as it
    /// is, and the call fails as [`write`](Self::write) did; once the decoder
    /// has got its codec state the call changes nothing.
    pub fn initialize(&mut self, bound: usize) -> (r: Result<usize>)
        requires
            old(self).wf(),
        ensures
            final(self).wf(),
            final(self)@ == old(self)@.initialize(bound as int),
            old(self)@.phase is AwaitingHeader ==> {
                &&& r matches Ok(block_size) ==> parse_header(old(self)@.buffered) == Ok::<
                    int,
                    ErrorView,
                >(block_size as int)
                &&& r matches Err(e) ==> parse_header(old(self)@.buffered) == Err::<
                    int,
                    ErrorView,
                >(e@)
            },
            !(old(self)@.phase is AwaitingHeader) ==> r == Ok::<usize, Error>(
                old(self)@.block_size as usize,
            ),
    {
        match &self.state {
            Some(state) => Ok(state.block_size()),
            None => {
                let block_size = read_header(self.buffer.as_slice())?;
                let state = Bz3State::new(block_size)?;
                self.state = Some(state);
                self.bound = bound;
                self.buffer.clear();
                assert(self.block_header_buf@ =~= Seq::<u8>::empty());
                Ok(block_size)
            },
        }
    }

    /// The complete payload that waits to be decompressed; empty when there
    /// is none.
    pub fn block(&self) -> (payload: &[u8])
        requires
            self.wf(),
        ensures
            payload@ == self@.block(),
    {
        match (&self.state, &self.block_header) {
            (Some(_), Some(header)) => {
                if self.buffer.len() == header.new_size as usize {
                    self.buffer.as_slice()
                } else {
                    let none = &self.buffer[0..0];
                    assert(none@ =~= Seq::<u8>::empty());
                    none
                }
            },
            _ => {
                let none = &self.buffer[0..0];
                assert(none@ =~= Seq::<u8>::empty());
                none
            },
        }
    }

    /// Tells the decoder that the complete payload has been decompressed and
    /// forwarded. The decoder then waits for the next record. Without a
    /// complete payload nothing changes.
    pub fn decompress_block(&mut self)
        requires
            old(self).wf(),
        ensures
            final(self).wf(),
            final(self)@ == old(self)@.decompress_block(),
    {
        match (&self.state, &self.block_header) {
            (Some(_), Some(header)) => {
                if self.buffer.len() == header.new_size as usize {
                    self.block_header = None;
                    self.buffer.clear();
                    assert(self.block_header_buf@ =~= Seq::<u8>::empty());
                }
            },
            _ => {},
        }
    }
}

} // verus!
