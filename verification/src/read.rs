//! Pull adapters: the caller asks for bytes.
//!
//! The encoder serves the bytes of a stream and asks for a block of plain
//! bytes whenever it has none left to serve. The decoder serves plain bytes
//! and asks for the next record of a stream whenever it has none left.
//!
//! A caller asks an adapter what it needs, with `demand`, and does that
//! until the answer is [`Demand::Ready`] or [`Demand::End`]: it pulls from
//! its source, runs the codec, and hands over what came of it. Then `read`
//! serves bytes into a buffer of any length. A pull or a codec call that
//! fails is the caller's to report; the adapter has not heard of it and
//! asks for the same again.
use vstd::prelude::*;
use crate::errors::Error;
use crate::errors::ErrorView;
use crate::errors::Result;
use crate::format::append;
use crate::format::corrupt;
use crate::format::corrupt_error;
use crate::format::header_bytes;
use crate::format::record_bytes;
use crate::format::write_header;
use crate::format::BlockHeader;
use crate::format::BLOCK_HEADER_SIZE;
use crate::Bz3State;
use crate::BLOCK_SIZE_MAX;
use crate::BLOCK_SIZE_MIN;

verus! {

/// What a pull adapter needs before it can serve bytes.
#[derive(Clone, Copy, Debug, PartialEq, Eq, Structural)]
pub enum Demand {
    /// Nothing: bytes are ready, and `read` serves them.
    Ready,
    /// The encoder needs a block: pull from the source until `block_size`
    /// bytes are there or the source has ended, compress what came, and call
    /// [`Bz3Encoder::compress_block`].
    Block { block_size: usize },
    /// The decoder needs the two lengths of the next record: pull eight
    /// bytes from the source, or as many as it still has, and call
    /// [`Bz3Decoder::read_block_header`].
    BlockHeader,
    /// The decoder needs the block of the record: pull `new_size` bytes from
    /// the source, decompress them to `read_size` bytes, and call
    /// [`Bz3Decoder::decompress_block`].
    BlockData { new_size: usize, read_size: usize },
    /// Nothing will help: the data has ended, and `read` serves no byte from
    /// now on.
    End,
}

/// The slice method `copy_from_slice` of std: it makes `dst` a copy of
/// `src`, and panics when the two differ in length.
#[verifier::external_body]
fn copy_from_slice(dst: &mut [u8], src: &[u8])
    requires
        old(dst)@.len() == src@.len(),
    ensures
        final(dst)@ == src@,
{
    dst.copy_from_slice(src)
}

/// Number of bytes that a call of `read` serves into a buffer of `len`
/// bytes when `pending` are ready: all that are ready, or as many as the
/// buffer holds.
pub open spec fn served(pending: Seq<u8>, len: int) -> int {
    if len < pending.len() {
        len
    } else {
        pending.len() as int
    }
}

/// Copies bytes from `buffer`, starting at `pos`, to the front of `buf`: as
/// many as are there, or as many as `buf` holds.
fn serve(buffer: &Vec<u8>, pos: usize, buf: &mut [u8]) -> (size: usize)
    requires
        pos <= buffer@.len(),
    ensures
        size == served(buffer@.skip(pos as int), old(buf)@.len() as int),
        final(buf)@ == buffer@.skip(pos as int).take(size as int) + old(buf)@.skip(size as int),
{
    let remaining = buffer.len() - pos;
    let size = if buf.len() < remaining {
        buf.len()
    } else {
        remaining
    };
    let (head, tail) = buf.split_at_mut(size);
    copy_from_slice(head, &buffer[pos..pos + size]);
    assert(buffer@.subrange(pos as int, pos + size) =~= buffer@.skip(pos as int).take(size as int));
    assert(old(buf)@.subrange(size as int, old(buf)@.len() as int) =~= old(buf)@.skip(size as int));
    size
}

/// Mathematical value of a [`Bz3Encoder`].
pub struct EncoderView {
    /// Block size of the stream.
    pub block_size: int,
    /// The bytes of the stream that are ready to be served.
    pub pending: Seq<u8>,
    /// Whether the source has ended.
    pub eof: bool,
}

impl EncoderView {
    /// What the encoder needs: nothing while bytes are ready; then a block,
    /// until the source has ended.
    pub open spec fn demand(self) -> Demand {
        if self.pending.len() > 0 {
            Demand::Ready
        } else if self.eof {
            Demand::End
        } else {
            Demand::Block { block_size: self.block_size as usize }
        }
    }

    /// The encoder after the source has given `read_size` bytes of which the
    /// codec has made `compressed`. No byte at all ends the data, and makes
    /// no record. Fewer bytes than a block holds make the last record.
    pub open spec fn compress_block(self, read_size: int, compressed: Seq<u8>) -> EncoderView {
        if read_size == 0 {
            EncoderView { pending: Seq::empty(), eof: true, ..self }
        } else {
            EncoderView {
                pending: record_bytes(compressed, read_size),
                eof: read_size < self.block_size,
                ..self
            }
        }
    }

    /// The encoder after it has served the first `size` bytes.
    pub open spec fn read(self, size: int) -> EncoderView {
        EncoderView { pending: self.pending.skip(size), ..self }
    }
}

/// Encoder that serves the bytes of a stream on demand.
pub struct Bz3Encoder {
    state: Bz3State,
    /// The header at first, then one record at a time.
    buffer: Vec<u8>,
    /// How much of `buffer` has been served.
    buffer_pos: usize,
    eof: bool,
}

impl View for Bz3Encoder {
    type V = EncoderView;

    closed spec fn view(&self) -> EncoderView {
        EncoderView {
            block_size: self.state.block_size() as int,
            pending: self.buffer@.skip(self.buffer_pos as int),
            eof: self.eof,
        }
    }
}

impl Bz3Encoder {
    /// What every encoder satisfies.
    pub closed spec fn wf(&self) -> bool {
        &&& BLOCK_SIZE_MIN <= self.state.block_size() <= BLOCK_SIZE_MAX
        &&& self.buffer_pos <= self.buffer@.len()
    }

    /// What every encoder's value satisfies.
    pub proof fn lemma_wf(&self)
        requires
            self.wf(),
        ensures
            BLOCK_SIZE_MIN <= self@.block_size <= BLOCK_SIZE_MAX,
    {
    }

    /// Creates an encoder for blocks of `block_size` bytes. It serves the
    /// container header first. A block size out of range is refused.
    pub fn new(block_size: usize) -> (r: Result<Bz3Encoder>)
        ensures
            BLOCK_SIZE_MIN <= block_size <= BLOCK_SIZE_MAX ==> (r matches Ok(encoder)
                && encoder.wf() && encoder@ == (EncoderView {
                block_size: block_size as int,
                pending: header_bytes(block_size as int),
                eof: false,
            })),
            !(BLOCK_SIZE_MIN <= block_size <= BLOCK_SIZE_MAX) ==> (r matches Err(e) && e@
                == ErrorView::BlockSize),
    {
        let state = Bz3State::new(block_size)?;
        let buffer = write_header(block_size);
        assert(buffer@.skip(0) =~= buffer@);
        Ok(Bz3Encoder { state, buffer, buffer_pos: 0, eof: false })
    }

    /// Block size of the stream.
    pub fn block_size(&self) -> (size: usize)
        ensures
            size == self@.block_size,
    {
        self.state.block_size()
    }

    /// What the encoder needs before it can serve bytes.
    pub fn demand(&self) -> (demand: Demand)
        requires
            self.wf(),
        ensures
            demand == self@.demand(),
    {
        if self.buffer_pos < self.buffer.len() {
            Demand::Ready
        } else if self.eof {
            Demand::End
        } else {
            Demand::Block { block_size: self.state.block_size() }
        }
    }

    /// Takes a block: the source has given `read_size` bytes, and the codec
    /// has made `compressed` of them. The encoder then serves the record,
    /// unless the source gave nothing.
    pub fn compress_block(&mut self, read_size: usize, compressed: &[u8])
        requires
            old(self).wf(),
            old(self)@.demand() is Block,
            read_size <= old(self)@.block_size,
            compressed@.len() <= i32::MAX,
        ensures
            final(self).wf(),
            final(self)@ == old(self)@.compress_block(read_size as int, compressed@),
    {
        self.buffer.clear();
        self.buffer_pos = 0;
        if read_size == 0 {
            self.eof = true;
            assert(self.buffer@.skip(0) =~= Seq::<u8>::empty());
            return ;
        }
        let header = BlockHeader { new_size: compressed.len() as i32, read_size: read_size as i32 };
        header.write_to(&mut self.buffer);
        append(&mut self.buffer, compressed);
        if read_size < self.state.block_size() {
            self.eof = true;
        }
        assert(self.buffer@.skip(0) =~= record_bytes(compressed@, read_size as int));
    }

    /// Serves bytes into the front of `buf`: all that are ready, or as many
    /// as `buf` holds. The rest of `buf` stays as it is.
    pub fn read(&mut self, buf: &mut [u8]) -> (size: usize)
        requires
            old(self).wf(),
        ensures
            final(self).wf(),
            size == served(old(self)@.pending, old(buf)@.len() as int),
            final(buf)@ == old(self)@.pending.take(size as int) + old(buf)@.skip(size as int),
            final(self)@ == old(self)@.read(size as int),
    {
        let size = serve(&self.buffer, self.buffer_pos, buf);
        assert(self.buffer_pos + size <= self.buffer.len());
        assert(self.buffer@.skip(self.buffer_pos as int).skip(size as int) =~= self.buffer@.skip(
            self.buffer_pos + size,
        ));
        self.buffer_pos += size;
        size
    }
}

/// Mathematical value of a [`Bz3Decoder`].
pub struct DecoderView {
    /// Block size of the stream.
    pub block_size: int,
    /// Longest payload that a record may have.
    pub bound: int,
    /// The plain bytes that are ready to be served.
    pub pending: Seq<u8>,
    /// Whether the source has ended.
    pub eof: bool,
    /// The two lengths of the record whose block is awaited.
    pub block_header: Option<BlockHeader>,
}

impl DecoderView {
    /// What the decoder needs: nothing while bytes are ready; then the next
    /// record, first its two lengths and then its block, until the source
    /// has ended.
    pub open spec fn demand(self) -> Demand {
        if self.pending.len() > 0 {
            Demand::Ready
        } else if self.eof {
            Demand::End
        } else {
            match self.block_header {
                Some(header) => Demand::BlockData {
                    new_size: header.new_size as usize,
                    read_size: header.read_size as usize,
                },
                None => Demand::BlockHeader,
            }
        }
    }

    /// What taking the bytes `bytes`, pulled where two lengths are due,
    /// gives: the decoder after it, or the reason why the bytes are
    /// refused. No byte at all is the end of the data. Fewer than eight
    /// are a corrupt stream. Lengths that the block size or the bound do
    /// not admit are refused.
    pub open spec fn read_block_header(self, bytes: Seq<u8>) -> core::result::Result<
        DecoderView,
        ErrorView,
    > {
        if bytes.len() == 0 {
            Ok(DecoderView { eof: true, ..self })
        } else if bytes.len() < BLOCK_HEADER_SIZE {
            Err(ErrorView::Io(corrupt()))
        } else if !BlockHeader::parse(bytes).fits(self.block_size, self.bound) {
            Err(ErrorView::BlockSize)
        } else {
            Ok(DecoderView { block_header: Some(BlockHeader::parse(bytes)), ..self })
        }
    }

    /// The decoder after the codec has made `plain` of the awaited block: it
    /// serves `plain`. An empty block leaves nothing to serve, and the
    /// decoder asks for the next record.
    pub open spec fn decompress_block(self, plain: Seq<u8>) -> DecoderView {
        DecoderView { pending: plain, block_header: None, ..self }
    }

    /// The decoder after it has served the first `size` bytes.
    pub open spec fn read(self, size: int) -> DecoderView {
        DecoderView { pending: self.pending.skip(size), ..self }
    }
}

/// Decoder that serves the plain bytes of a stream on demand.
pub struct Bz3Decoder {
    state: Bz3State,
    bound: usize,
    /// The plain bytes of one block.
    buffer: Vec<u8>,
    /// How much of `buffer` has been served.
    buffer_pos: usize,
    eof: bool,
    block_header: Option<BlockHeader>,
}

impl View for Bz3Decoder {
    type V = DecoderView;

    closed spec fn view(&self) -> DecoderView {
        DecoderView {
            block_size: self.state.block_size() as int,
            bound: self.bound as int,
            pending: self.buffer@.skip(self.buffer_pos as int),
            eof: self.eof,
            block_header: self.block_header,
        }
    }
}

impl Bz3Decoder {
    /// What every decoder satisfies.
    pub closed spec fn wf(&self) -> bool {
        &&& BLOCK_SIZE_MIN <= self.state.block_size() <= BLOCK_SIZE_MAX
        &&& self.buffer_pos <= self.buffer@.len()
        &&& self.block_header matches Some(header) ==> header.fits(
            self.state.block_size() as int,
            self.bound as int,
        )
    }

    /// What every decoder's value satisfies.
    pub proof fn lemma_wf(&self)
        requires
            self.wf(),
        ensures
            BLOCK_SIZE_MIN <= self@.block_size <= BLOCK_SIZE_MAX,
            self@.block_header matches Some(header) ==> header.fits(self@.block_size, self@.bound),
    {
    }

    /// Creates a decoder for a stream whose header declares blocks of
    /// `block_size` bytes and whose codec makes at most `bound` bytes of a
    /// block. A block size out of range is refused.
    pub fn new(block_size: usize, bound: usize) -> (r: Result<Bz3Decoder>)
        ensures
            BLOCK_SIZE_MIN <= block_size <= BLOCK_SIZE_MAX ==> (r matches Ok(decoder)
                && decoder.wf() && decoder@ == (DecoderView {
                block_size: block_size as int,
                bound: bound as int,
                pending: Seq::empty(),
                eof: false,
                block_header: None,
            })),
            !(BLOCK_SIZE_MIN <= block_size <= BLOCK_SIZE_MAX) ==> (r matches Err(e) && e@
                == ErrorView::BlockSize),
    {
        let state = Bz3State::new(block_size)?;
        let buffer: Vec<u8> = Vec::with_capacity(block_size);
        assert(buffer@.skip(0) =~= Seq::<u8>::empty());
        Ok(Bz3Decoder { state, bound, buffer, buffer_pos: 0, eof: false, block_header: None })
    }

    /// Block size of the stream.
    pub fn block_size(&self) -> (size: usize)
        ensures
            size == self@.block_size,
    {
        self.state.block_size()
    }

    /// What the decoder needs before it can serve bytes.
    pub fn demand(&self) -> (demand: Demand)
        requires
            self.wf(),
        ensures
            demand == self@.demand(),
    {
        if self.buffer_pos < self.buffer.len() {
            Demand::Ready
        } else if self.eof {
            Demand::End
        } else {
            match self.block_header {
                Some(header) => Demand::BlockData {
                    new_size: header.new_size as usize,
                    read_size: header.read_size as usize,
                },
                None => Demand::BlockHeader,
            }
        }
    }

    /// Takes the bytes that were pulled where the two lengths of a record
    /// are due. A call that fails leaves the decoder as it is.
    pub fn read_block_header(&mut self, bytes: &[u8]) -> (r: Result<()>)
        requires
            old(self).wf(),
            old(self)@.demand() is BlockHeader,
        ensures
            final(self).wf(),
            r is Ok ==> old(self)@.read_block_header(bytes@) == Ok::<DecoderView, ErrorView>(
                final(self)@,
            ),
            r matches Err(e) ==> old(self)@.read_block_header(bytes@) == Err::<
                DecoderView,
                ErrorView,
            >(e@) && final(self)@ == old(self)@,
    {
        if bytes.len() == 0 {
            self.eof = true;
            return Ok(());
        }
        if bytes.len() < BLOCK_HEADER_SIZE {
            return Err(corrupt_error());
        }
        let header = BlockHeader::read_from(bytes)?;
        if !header.check(self.state.block_size(), self.bound) {
            return Err(Error::BlockSize);
        }
        self.block_header = Some(header);
        Ok(())
    }

    /// Takes the plain bytes that the codec has made of the awaited block.
    /// The decoder then serves them.
    pub fn decompress_block(&mut self, plain: &[u8])
        requires
            old(self).wf(),
            old(self)@.demand() matches Demand::BlockData { new_size, read_size } && plain@.len()
                == read_size,
        ensures
            final(self).wf(),
            final(self)@ == old(self)@.decompress_block(plain@),
    {
        self.buffer.clear();
        append(&mut self.buffer, plain);
        self.buffer_pos = 0;
        self.block_header = None;
        assert(self.buffer@.skip(0) =~= plain@);
    }

    /// Serves bytes into the front of `buf`: all that are ready, or as many
    /// as `buf` holds. The rest of `buf` stays as it is.
    pub fn read(&mut self, buf: &mut [u8]) -> (size: usize)
        requires
            old(self).wf(),
        ensures
            final(self).wf(),
            size == served(old(self)@.pending, old(buf)@.len() as int),
            final(buf)@ == old(self)@.pending.take(size as int) + old(buf)@.skip(size as int),
            final(self)@ == old(self)@.read(size as int),
    {
        let size = serve(&self.buffer, self.buffer_pos, buf);
        assert(self.buffer_pos + size <= self.buffer.len());
        assert(self.buffer@.skip(self.buffer_pos as int).skip(size as int) =~= self.buffer@.skip(
            self.buffer_pos + size,
        ));
        self.buffer_pos += size;
        size
    }
}

} // verus!
