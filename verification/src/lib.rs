//! Streaming container format around a block compressor.
//!
//! A stream is a header followed by block records:
//!
//! \[ signature (5 bytes) | block size (4 bytes) | record | record | ... \]
//!
//! and a record is
//!
//! \[ new size (4 bytes) | read size (4 bytes) | data (new size bytes) \]
//!
//! where `new size` is the length of the data after compression and
//! `read size` the length before it.
//!
//! The adapters in [`read`] and [`write`] are state machines. They frame and
//! parse the stream and decide what has to happen next; the caller moves the
//! bytes and runs the block compressor, and reports back what came of it.
use vstd::prelude::*;
use crate::errors::Error;
use crate::errors::ErrorView;
use crate::errors::Result;

pub mod errors;
pub mod format;
pub mod read;
pub mod stream;
pub mod write;

verus! {

/// Signature that opens every stream.
pub const MAGIC_NUMBER: &'static [u8; 5] = &[0x42, 0x5a, 0x33, 0x76, 0x31];

/// Smallest block size a stream may declare.
pub const BLOCK_SIZE_MIN: usize = 65 * 1024;

/// Largest block size a stream may declare.
pub const BLOCK_SIZE_MAX: usize = 511 * 1024 * 1024;

/// Progress of one pull that stops only when the buffer is full or the
/// source has ended: the caller reads into the rest of the buffer and
/// reports each count.
pub struct TryReadExact {
    len: usize,
    read: usize,
}

impl TryReadExact {
    /// Length of the buffer to fill.
    pub closed spec fn len(&self) -> int {
        self.len as int
    }

    /// Number of bytes obtained so far.
    pub closed spec fn obtained(&self) -> int {
        self.read as int
    }

    /// Whether no more was obtained than the buffer holds.
    pub closed spec fn wf(&self) -> bool {
        self.read <= self.len
    }

    /// Starts a pull into a buffer of `len` bytes.
    pub fn new(len: usize) -> (pull: TryReadExact)
        ensures
            pull.wf(),
            pull.len() == len,
            pull.obtained() == 0,
    {
        TryReadExact { len, read: 0 }
    }

    /// Where in the buffer the next read starts.
    pub fn read(&self) -> (read: usize)
        ensures
            read == self.obtained(),
    {
        self.read
    }

    /// Takes the count `r` of one read into the rest of the buffer. Gives the
    /// total when the pull is over: the source has ended (`r` is 0) or the
    /// buffer is full. Gives `None` when another read has to follow.
    pub fn try_read_exact(&mut self, r: usize) -> (total: Option<usize>)
        requires
            old(self).wf(),
            r <= old(self).len() - old(self).obtained(),
        ensures
            final(self).wf(),
            final(self).len() == old(self).len(),
            final(self).obtained() == old(self).obtained() + r,
            r == 0 || final(self).obtained() == final(self).len() ==> total == Some(
                (old(self).obtained() + r) as usize,
            ),
            r != 0 && final(self).obtained() != final(self).len() ==> total.is_none(),
    {
        if r == 0 {
            return Some(self.read);
        }
        self.read += r;
        if self.read == self.len {
            return Some(self.read);
        }
        None
    }
}

/// What came of handing a block to the codec, by the code that the codec
/// returned and its diagnostic: a negative code is a rejected block, any
/// other is the length of the output.
pub open spec fn process_code(code: int, diagnostic: Seq<char>) -> core::result::Result<
    int,
    ErrorView,
> {
    if code < 0 {
        Err(ErrorView::ProcessBlock(diagnostic))
    } else {
        Ok(code)
    }
}

/// What came of decompressing a block that is `original_size` bytes long:
/// the codec must accept the block and report that length.
pub open spec fn decoded(code: int, original_size: int, diagnostic: Seq<char>) -> core::result::Result<
    (),
    ErrorView,
> {
    if code < 0 {
        Err(ErrorView::ProcessBlock(diagnostic))
    } else if code != original_size {
        Err(ErrorView::ProcessBlock("Data not match the origin size after decompression"@))
    } else {
        Ok(())
    }
}

/// What the adapters record of a codec state: the block size that it is
/// bound to, which is in range.
pub struct Bz3State {
    block_size: usize,
}

impl Bz3State {
    #[verifier::type_invariant]
    spec fn in_range(self) -> bool {
        BLOCK_SIZE_MIN <= self.block_size <= BLOCK_SIZE_MAX
    }

    /// The block size that the state is bound to.
    pub closed spec fn spec_block_size(&self) -> usize {
        self.block_size
    }

    /// Whether `size` is a block size that a stream may have.
    pub fn check_block_size(size: usize) -> (ok: bool)
        ensures
            ok == (BLOCK_SIZE_MIN <= size <= BLOCK_SIZE_MAX),
    {
        BLOCK_SIZE_MIN <= size && size <= BLOCK_SIZE_MAX
    }

    /// Records a codec state for blocks of `block_size` bytes, unless the
    /// size is out of range.
    pub fn new(block_size: usize) -> (r: Result<Bz3State>)
        ensures
            BLOCK_SIZE_MIN <= block_size <= BLOCK_SIZE_MAX ==> (r matches Ok(state)
                && state.spec_block_size() == block_size),
            !(BLOCK_SIZE_MIN <= block_size <= BLOCK_SIZE_MAX) ==> (r matches Err(e) && e@
                == ErrorView::BlockSize),
    {
        if !Self::check_block_size(block_size) {
            return Err(Error::BlockSize);
        }
        Ok(Bz3State { block_size })
    }

    /// The block size that the state is bound to.
    #[verifier::when_used_as_spec(spec_block_size)]
    pub fn block_size(&self) -> (size: usize)
        ensures
            size == self.spec_block_size(),
            BLOCK_SIZE_MIN <= size <= BLOCK_SIZE_MAX,
    {
        proof {
            use_type_invariant(self);
        }
        self.block_size
    }

    /// Reads the code that the codec returned for a block: the length of
    /// its output, or the failure that carries `diagnostic`.
    pub fn check_block_process_code(code: i32, diagnostic: &str) -> (r: Result<usize>)
        ensures
            r matches Ok(size) ==> process_code(code as int, diagnostic@) == Ok::<int, ErrorView>(
                size as int,
            ),
            r matches Err(e) ==> process_code(code as int, diagnostic@) == Err::<int, ErrorView>(
                e@,
            ),
    {
        if code < 0 {
            return Err(Error::ProcessBlock(diagnostic.to_owned()));
        }
        Ok(code as usize)
    }

    /// Reads the code that the codec returned for compressing a block: the
    /// length of the compressed block, or the failure that carries
    /// `diagnostic`.
    pub fn encode_block(&self, code: i32, diagnostic: &str) -> (r: Result<usize>)
        ensures
            r matches Ok(size) ==> process_code(code as int, diagnostic@) == Ok::<int, ErrorView>(
                size as int,
            ),
            r matches Err(e) ==> process_code(code as int, diagnostic@) == Err::<int, ErrorView>(
                e@,
            ),
    {
        Self::check_block_process_code(code, diagnostic)
    }

    /// Reads the code that the codec returned for decompressing a block
    /// that is `original_size` bytes long. The codec must have accepted the
    /// block, and the length that it reports must be `original_size`.
    pub fn decode_block(&self, original_size: usize, code: i32, diagnostic: &str) -> (r: Result<()>)
        ensures
            r is Ok ==> decoded(code as int, original_size as int, diagnostic@) is Ok,
            r matches Err(e) ==> decoded(code as int, original_size as int, diagnostic@) == Err::<
                (),
                ErrorView,
            >(e@),
    {
        let size = Self::check_block_process_code(code, diagnostic)?;
        if size != original_size {
            return Err(
                Error::ProcessBlock("Data not match the origin size after decompression".to_owned()),
            );
        }
        Ok(())
    }
}

} // verus!
