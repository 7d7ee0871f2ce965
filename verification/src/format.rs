//! Byte layout of a stream: the container header and the block records.
//!
//! A stream is the container header followed by any number of block records.
//! The header is the signature and the block size; a record is two lengths
//! and the codec's output for one block. Every integer is four bytes, least
//! significant byte first.
use vstd::prelude::*;
use byteorder::ByteOrder;
use byteorder::LittleEndian;
use crate::errors::Error;
use crate::errors::ErrorKind;
use crate::errors::ErrorView;
use crate::errors::IoError;
use crate::errors::IoErrorView;
use crate::errors::Result;
use crate::BLOCK_SIZE_MAX;
use crate::BLOCK_SIZE_MIN;
use crate::MAGIC_NUMBER;

verus! {

/// Length of the container header.
pub const HEADER_SIZE: usize = 9;

/// Length of the two lengths that open a block record.
pub const BLOCK_HEADER_SIZE: usize = 8;

/// The unsigned number that the first four bytes of `s` spell.
pub open spec fn le_u32(s: Seq<u8>) -> int
    recommends
        s.len() >= 4,
{
    s[0] as int + 0x100 * (s[1] as int) + 0x1_0000 * (s[2] as int) + 0x100_0000 * (s[3] as int)
}

/// The signed number that the first four bytes of `s` spell.
pub open spec fn le_i32(s: Seq<u8>) -> int
    recommends
        s.len() >= 4,
{
    if le_u32(s) >= 0x8000_0000 {
        le_u32(s) - 0x1_0000_0000
    } else {
        le_u32(s)
    }
}

/// The four bytes that spell the unsigned number `u`.
pub open spec fn u32_le_bytes(u: int) -> Seq<u8>
    recommends
        0 <= u < 0x1_0000_0000,
{
    seq![
        (u % 0x100) as u8,
        (u / 0x100 % 0x100) as u8,
        (u / 0x1_0000 % 0x100) as u8,
        (u / 0x100_0000 % 0x100) as u8,
    ]
}

/// The four bytes that spell the signed number `n`.
pub open spec fn i32_le_bytes(n: int) -> Seq<u8>
    recommends
        -0x8000_0000 <= n < 0x8000_0000,
{
    u32_le_bytes(if n < 0 { n + 0x1_0000_0000 } else { n })
}

/// Four digits in base 256 are the digits of the number they spell.
proof fn lemma_digits(a: int, b: int, c: int, d: int)
    requires
        0 <= a < 0x100,
        0 <= b < 0x100,
        0 <= c < 0x100,
        0 <= d < 0x100,
    ensures
        ({
            let u = a + 0x100 * b + 0x1_0000 * c + 0x100_0000 * d;
            &&& 0 <= u < 0x1_0000_0000
            &&& u % 0x100 == a
            &&& u / 0x100 % 0x100 == b
            &&& u / 0x1_0000 % 0x100 == c
            &&& u / 0x100_0000 % 0x100 == d
        }),
{
    let u = a + 0x100 * b + 0x1_0000 * c + 0x100_0000 * d;
    let u1 = b + 0x100 * c + 0x1_0000 * d;
    let u2 = c + 0x100 * d;
    assert(u == 0x100 * u1 + a);
    assert(u / 0x100 == u1);
    assert(u == 0x1_0000 * u2 + (a + 0x100 * b));
    assert(u / 0x1_0000 == u2);
    assert(u == 0x100_0000 * d + (a + 0x100 * b + 0x1_0000 * c));
    assert(u / 0x100_0000 == d);
}

/// Reading back the bytes of a number gives the number.
pub proof fn lemma_le_i32_of_bytes(n: int)
    requires
        -0x8000_0000 <= n < 0x8000_0000,
    ensures
        i32_le_bytes(n).len() == 4,
        le_i32(i32_le_bytes(n)) == n,
        n >= 0 ==> le_u32(i32_le_bytes(n)) == n,
{
    let u = if n < 0 { n + 0x1_0000_0000 } else { n };
    let a = u % 0x100;
    let b = u / 0x100 % 0x100;
    let c = u / 0x1_0000 % 0x100;
    let d = u / 0x100_0000 % 0x100;
    assert(u == a + 0x100 * b + 0x1_0000 * c + 0x100_0000 * d);
    assert(le_u32(i32_le_bytes(n)) == u);
}

/// Writing the number that four bytes spell gives the four bytes.
pub proof fn lemma_bytes_of_le_i32(s: Seq<u8>)
    requires
        s.len() == 4,
    ensures
        -0x8000_0000 <= le_i32(s) < 0x8000_0000,
        i32_le_bytes(le_i32(s)) == s,
{
    lemma_digits(s[0] as int, s[1] as int, s[2] as int, s[3] as int);
    let u = le_u32(s);
    let n = le_i32(s);
    assert((if n < 0 { n + 0x1_0000_0000 } else { n }) == u);
    assert(i32_le_bytes(n) =~= s);
}

/// `byteorder::LittleEndian::read_i32`: the signed number that the first four
/// bytes of `buf` spell, least significant byte first. It panics on a
/// shorter `buf`.
#[verifier::external_body]
fn read_i32(buf: &[u8]) -> (n: i32)
    requires
        buf@.len() >= 4,
    ensures
        n as int == le_i32(buf@),
{
    LittleEndian::read_i32(buf)
}

/// `byteorder::LittleEndian::write_i32` on four bytes: they then spell `n`,
/// least significant byte first.
#[verifier::external_body]
fn write_i32(n: i32) -> (bytes: [u8; 4])
    ensures
        bytes@ == i32_le_bytes(n as int),
{
    let mut bytes = [0u8; 4];
    LittleEndian::write_i32(&mut bytes, n);
    bytes
}

/// Appends `bytes` to `out`.
pub(crate) fn append(out: &mut Vec<u8>, bytes: &[u8])
    ensures
        final(out)@ == old(out)@ + bytes@,
{
    out.extend_from_slice(bytes);
    assert(out@ =~= old(out)@ + bytes@);
}

/// Appends to `out` the four bytes that spell `n`.
fn push_i32(out: &mut Vec<u8>, n: i32)
    ensures
        final(out)@ == old(out)@ + i32_le_bytes(n as int),
{
    let word = write_i32(n);
    out.push(word[0]);
    out.push(word[1]);
    out.push(word[2]);
    out.push(word[3]);
    assert(out@ =~= old(out)@ + i32_le_bytes(n as int));
}

/// The container header of a stream with blocks of `block_size` bytes.
pub open spec fn header_bytes(block_size: int) -> Seq<u8> {
    MAGIC_NUMBER@ + i32_le_bytes(block_size)
}

/// Whether `bytes` starts with the signature.
pub open spec fn has_signature(bytes: Seq<u8>) -> bool {
    bytes.len() >= 5 && bytes.subrange(0, 5) == MAGIC_NUMBER@
}

/// The block size that the header at the start of `bytes` declares, read
/// as an unsigned number.
pub open spec fn declared_block_size(bytes: Seq<u8>) -> int
    recommends
        bytes.len() >= HEADER_SIZE,
{
    le_u32(bytes.subrange(5, 9))
}

/// What reading the container header from `bytes` gives: the block size, or
/// the reason why there is none. A wrong or short signature comes first,
/// then a short block size, then a block size out of range.
pub open spec fn parse_header(bytes: Seq<u8>) -> core::result::Result<int, ErrorView> {
    if !has_signature(bytes) {
        Err(ErrorView::InvalidSignature)
    } else if bytes.len() < HEADER_SIZE {
        Err(ErrorView::Io(truncated()))
    } else if BLOCK_SIZE_MIN <= declared_block_size(bytes) <= BLOCK_SIZE_MAX {
        Ok(declared_block_size(bytes))
    } else {
        Err(ErrorView::BlockSize)
    }
}

/// The failure that stands for an item cut short by the end of the source.
pub open spec fn truncated() -> IoErrorView {
    IoErrorView { kind: ErrorKind::UnexpectedEof, message: "failed to fill whole buffer"@ }
}

/// The failure that stands for a block record whose two lengths are cut
/// short by the end of the source.
pub open spec fn corrupt() -> IoErrorView {
    IoErrorView {
        kind: ErrorKind::UnexpectedEof,
        message: "Corrupt file; insufficient block head info"@,
    }
}

/// Builds the failure [`truncated`].
pub fn truncated_error() -> (e: Error)
    ensures
        e@ == ErrorView::Io(truncated()),
{
    Error::Io(
        IoError { kind: ErrorKind::UnexpectedEof, message: "failed to fill whole buffer".to_owned() },
    )
}

/// Builds the failure [`corrupt`].
pub fn corrupt_error() -> (e: Error)
    ensures
        e@ == ErrorView::Io(corrupt()),
{
    Error::Io(
        IoError {
            kind: ErrorKind::UnexpectedEof,
            message: "Corrupt file; insufficient block head info".to_owned(),
        },
    )
}

/// The container header for blocks of `block_size` bytes.
pub fn write_header(block_size: usize) -> (out: Vec<u8>)
    requires
        block_size <= i32::MAX,
    ensures
        out@ == header_bytes(block_size as int),
{
    let mut out: Vec<u8> = Vec::with_capacity(HEADER_SIZE);
    let mut i: usize = 0;
    while i < 5
        invariant
            i <= 5,
            out@ == MAGIC_NUMBER@.subrange(0, i as int),
        decreases 5 - i,
    {
        out.push(MAGIC_NUMBER[i]);
        assert(out@ =~= MAGIC_NUMBER@.subrange(0, i + 1));
        i += 1;
    }
    assert(out@ =~= MAGIC_NUMBER@);
    push_i32(&mut out, block_size as i32);
    out
}

/// Whether `bytes` starts with the signature.
fn check_signature(bytes: &[u8]) -> (ok: bool)
    ensures
        ok == has_signature(bytes@),
{
    if bytes.len() < 5 {
        return false;
    }
    let mut i: usize = 0;
    while i < 5
        invariant
            i <= 5,
            bytes@.len() >= 5,
            forall|j: int| 0 <= j < i ==> bytes@[j] == MAGIC_NUMBER@[j],
        decreases 5 - i,
    {
        if bytes[i] != MAGIC_NUMBER[i] {
            assert(bytes@.subrange(0, 5)[i as int] != MAGIC_NUMBER@[i as int]);
            return false;
        }
        i += 1;
    }
    assert(bytes@.subrange(0, 5) =~= MAGIC_NUMBER@);
    true
}

/// Reads the container header from the start of `bytes` and gives the block
/// size that it declares.
pub fn read_header(bytes: &[u8]) -> (r: Result<usize>)
    ensures
        r matches Ok(block_size) ==> parse_header(bytes@) == Ok::<int, ErrorView>(
            block_size as int,
        ),
        r matches Err(e) ==> parse_header(bytes@) == Err::<int, ErrorView>(e@),
{
    if !check_signature(bytes) {
        return Err(Error::InvalidSignature);
    }
    if bytes.len() < HEADER_SIZE {
        return Err(truncated_error());
    }
    let word = &bytes[5..9];
    let n = read_i32(word);
    if n < 0 {
        return Err(Error::BlockSize);
    }
    let block_size = n as usize;
    if BLOCK_SIZE_MIN <= block_size && block_size <= BLOCK_SIZE_MAX {
        Ok(block_size)
    } else {
        Err(Error::BlockSize)
    }
}

/// A written header reads back as its block size.
pub proof fn lemma_header_round_trip(block_size: int)
    requires
        BLOCK_SIZE_MIN <= block_size <= BLOCK_SIZE_MAX,
    ensures
        header_bytes(block_size).len() == HEADER_SIZE,
        parse_header(header_bytes(block_size)) == Ok::<int, ErrorView>(block_size),
{
    let h = header_bytes(block_size);
    lemma_le_i32_of_bytes(block_size);
    assert(h.subrange(0, 5) =~= MAGIC_NUMBER@);
    assert(h.subrange(5, 9) =~= i32_le_bytes(block_size));
}

/// The two lengths that open a block record.
#[derive(Clone, Copy, Debug, PartialEq, Eq, Structural)]
pub struct BlockHeader {
    /// Length of the record's payload: the block after compression.
    pub new_size: i32,
    /// Length of the block before compression.
    pub read_size: i32,
}

impl BlockHeader {
    /// The eight bytes of this header in a stream.
    pub open spec fn bytes(self) -> Seq<u8> {
        i32_le_bytes(self.new_size as int) + i32_le_bytes(self.read_size as int)
    }

    /// The header that the first eight bytes of `bytes` spell.
    pub open spec fn parse(bytes: Seq<u8>) -> BlockHeader
        recommends
            bytes.len() >= BLOCK_HEADER_SIZE,
    {
        BlockHeader {
            new_size: le_i32(bytes.subrange(0, 4)) as i32,
            read_size: le_i32(bytes.subrange(4, 8)) as i32,
        }
    }

    /// Whether a record with this header can belong to a stream with blocks
    /// of `block_size` bytes whose payloads take at most `bound` bytes.
    pub open spec fn fits(self, block_size: int, bound: int) -> bool {
        &&& 0 <= self.new_size <= bound
        &&& 0 <= self.read_size <= block_size
    }

    /// Reads a block header from the start of `bytes`; fewer than eight
    /// bytes are a stream cut short.
    pub fn read_from(bytes: &[u8]) -> (r: Result<BlockHeader>)
        ensures
            bytes@.len() >= BLOCK_HEADER_SIZE ==> r == Ok::<BlockHeader, Error>(
                BlockHeader::parse(bytes@),
            ),
            bytes@.len() < BLOCK_HEADER_SIZE ==> (r matches Err(e) && e@ == ErrorView::Io(
                truncated(),
            )),
    {
        if bytes.len() < BLOCK_HEADER_SIZE {
            return Err(truncated_error());
        }
        let new_size = read_i32(&bytes[0..4]);
        let read_size = read_i32(&bytes[4..8]);
        Ok(BlockHeader { new_size, read_size })
    }

    /// Appends the eight bytes of this header to `out`.
    pub fn write_to(&self, out: &mut Vec<u8>)
        ensures
            final(out)@ == old(out)@ + self.bytes(),
    {
        push_i32(out, self.new_size);
        push_i32(out, self.read_size);
        assert(out@ =~= old(out)@ + self.bytes());
    }

    /// Whether this header [`fits`](Self::fits).
    pub fn check(&self, block_size: usize, bound: usize) -> (ok: bool)
        ensures
            ok == self.fits(block_size as int, bound as int),
    {
        0 <= self.new_size && self.new_size as usize <= bound && 0 <= self.read_size
            && self.read_size as usize <= block_size
    }
}

/// A written block header reads back as itself.
pub proof fn lemma_block_header_round_trip(header: BlockHeader)
    ensures
        header.bytes().len() == BLOCK_HEADER_SIZE,
        BlockHeader::parse(header.bytes()) == header,
{
    let b = header.bytes();
    lemma_le_i32_of_bytes(header.new_size as int);
    lemma_le_i32_of_bytes(header.read_size as int);
    assert(b.subrange(0, 4) =~= i32_le_bytes(header.new_size as int));
    assert(b.subrange(4, 8) =~= i32_le_bytes(header.read_size as int));
}

/// The bytes of a block record: its header, then its payload.
pub open spec fn record_bytes(payload: Seq<u8>, read_size: int) -> Seq<u8>
    recommends
        payload.len() <= i32::MAX,
        0 <= read_size <= i32::MAX,
{
    BlockHeader { new_size: payload.len() as i32, read_size: read_size as i32 }.bytes() + payload
}

} // verus!
