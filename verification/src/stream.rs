//! Whole streams: what a stream of blocks is as bytes, and what the
//! adapters make of a whole stream, however it is cut into calls.
//!
//! An adapter works one call at a time, and its caller does the codec's and
//! the transport's part between the calls. This module says what comes of
//! all the calls together. For each adapter it holds a function that stands
//! for a caller who does what the adapter asks for: [`push_decode`],
//! [`pull_decode`], [`pull_encode`] and [`push_encode`]. They are made of the
//! functions by which the adapters' contracts describe a single call. The
//! codec is a pair of functions, `compress` and `decompress`, of which a
//! statement knows what it assumes and no more.
//!
//! Nothing here is executed: the module holds definitions and proofs.
use vstd::prelude::*;
use crate::errors::ErrorView;
use crate::format::has_signature;
use crate::format::header_bytes;
use crate::format::lemma_block_header_round_trip;
use crate::format::lemma_header_round_trip;
use crate::format::parse_header;
use crate::format::record_bytes;
use crate::format::truncated;
use crate::format::BlockHeader;
use crate::format::BLOCK_HEADER_SIZE;
use crate::format::HEADER_SIZE;
use crate::read::served;
use crate::write::Action;
use crate::write::DecoderView;
use crate::write::Phase;
use crate::write::Step;
use crate::BLOCK_SIZE_MAX;
use crate::BLOCK_SIZE_MIN;

verus! {

/// A block as a record carries it.
pub struct Block {
    /// The block after compression.
    pub payload: Seq<u8>,
    /// Length of the block before compression.
    pub read_size: int,
}

impl Block {
    /// Whether a record can carry the block in a stream with blocks of
    /// `block_size` bytes, to a decoder that admits payloads of `bound`
    /// bytes.
    pub open spec fn fits(self, block_size: int, bound: int) -> bool {
        &&& self.payload.len() <= bound
        &&& self.payload.len() <= i32::MAX
        &&& 0 <= self.read_size <= block_size
    }

    /// The record that carries the block.
    pub open spec fn bytes(self) -> Seq<u8> {
        record_bytes(self.payload, self.read_size)
    }
}

/// The records that carry `blocks`, one after the other.
pub open spec fn records_bytes(blocks: Seq<Block>) -> Seq<u8>
    decreases blocks.len(),
{
    if blocks.len() == 0 {
        Seq::empty()
    } else {
        blocks[0].bytes() + records_bytes(blocks.skip(1))
    }
}

/// The stream that carries `blocks`: the header, then the records.
pub open spec fn stream_bytes(block_size: int, blocks: Seq<Block>) -> Seq<u8> {
    header_bytes(block_size) + records_bytes(blocks)
}

/// The plain bytes of `blocks`, one block after the other, where
/// `decompress` gives the plain bytes of a block.
pub open spec fn plain_bytes(blocks: Seq<Block>, decompress: spec_fn(Block) -> Seq<u8>) -> Seq<u8>
    decreases blocks.len(),
{
    if blocks.len() == 0 {
        Seq::empty()
    } else {
        decompress(blocks[0]) + plain_bytes(blocks.skip(1), decompress)
    }
}

/// The blocks among `blocks` that are not empty before compression.
pub open spec fn real_blocks(blocks: Seq<Block>) -> Seq<Block>
    decreases blocks.len(),
{
    if blocks.len() == 0 {
        Seq::empty()
    } else if blocks[0].read_size == 0 {
        real_blocks(blocks.skip(1))
    } else {
        seq![blocks[0]] + real_blocks(blocks.skip(1))
    }
}

/// The blocks that encoding `data` with blocks of `block_size` bytes
/// gives, where `compress` gives what the codec makes of a block: a block
/// for every `block_size` bytes, and a last one for what is left, if
/// anything is.
pub open spec fn split_blocks(
    data: Seq<u8>,
    block_size: int,
    compress: spec_fn(Seq<u8>) -> Seq<u8>,
) -> Seq<Block>
    decreases data.len(),
{
    if data.len() == 0 || block_size <= 0 {
        Seq::empty()
    } else {
        let size = if data.len() < block_size {
            data.len() as int
        } else {
            block_size
        };
        seq![Block { payload: compress(data.take(size)), read_size: size }] + split_blocks(
            data.skip(size),
            block_size,
            compress,
        )
    }
}

/// The stream that encoding `data` gives.
pub open spec fn encode(
    data: Seq<u8>,
    block_size: int,
    compress: spec_fn(Seq<u8>) -> Seq<u8>,
) -> Seq<u8> {
    stream_bytes(block_size, split_blocks(data, block_size, compress))
}

/// What the round trip asks of the codec: that it makes of a block of up
/// to `block_size` bytes no more than `bound` bytes, and no more than a
/// record can declare, and that decompressing what it made gives the block
/// back.
pub open spec fn codec_inverts(
    compress: spec_fn(Seq<u8>) -> Seq<u8>,
    decompress: spec_fn(Block) -> Seq<u8>,
    block_size: int,
    bound: int,
) -> bool {
    forall|plain: Seq<u8>|
        0 < plain.len() <= block_size ==> {
            &&& (#[trigger] compress(plain)).len() <= bound
            &&& compress(plain).len() <= i32::MAX
            &&& decompress(Block { payload: compress(plain), read_size: plain.len() as int })
                == plain
        }
}

/// The records of a block and of more blocks are the record of the block,
/// then those of the others.
proof fn lemma_records_bytes_cons(block: Block, rest: Seq<Block>)
    ensures
        records_bytes(seq![block] + rest) == block.bytes() + records_bytes(rest),
{
    let all = seq![block] + rest;
    assert(all.skip(1) =~= rest);
}

/// Bytes that do not fill a block make one block, and no bytes make none.
proof fn lemma_split_blocks_short(
    data: Seq<u8>,
    block_size: int,
    compress: spec_fn(Seq<u8>) -> Seq<u8>,
)
    requires
        data.len() <= block_size,
    ensures
        split_blocks(data, block_size, compress) == if data.len() == 0 {
            Seq::<Block>::empty()
        } else {
            seq![Block { payload: compress(data), read_size: data.len() as int }]
        },
{
    if data.len() > 0 {
        let size = data.len() as int;
        assert(data.take(size) =~= data);
        assert(data.skip(size).len() == 0);
        assert(split_blocks(data.skip(size), block_size, compress) =~= Seq::<Block>::empty());
        let block = Block { payload: compress(data), read_size: size };
        assert(seq![block] + Seq::<Block>::empty() =~= seq![block]);
    }
}

/// The blocks of some data fit into records, and their plain bytes are the
/// data.
pub proof fn lemma_split_blocks(
    data: Seq<u8>,
    block_size: int,
    bound: int,
    compress: spec_fn(Seq<u8>) -> Seq<u8>,
    decompress: spec_fn(Block) -> Seq<u8>,
)
    requires
        block_size > 0,
        codec_inverts(compress, decompress, block_size, bound),
    ensures
        forall|i: int|
            0 <= i < split_blocks(data, block_size, compress).len() ==> (#[trigger] split_blocks(
                data,
                block_size,
                compress,
            )[i]).fits(block_size, bound),
        forall|i: int|
            0 <= i < split_blocks(data, block_size, compress).len() ==> decompress(
                #[trigger] split_blocks(data, block_size, compress)[i],
            ).len() == split_blocks(data, block_size, compress)[i].read_size,
        plain_bytes(split_blocks(data, block_size, compress), decompress) == data,
    decreases data.len(),
{
    let blocks = split_blocks(data, block_size, compress);
    if data.len() == 0 {
        assert(data =~= Seq::<u8>::empty());
    } else {
        let size = if data.len() < block_size {
            data.len() as int
        } else {
            block_size
        };
        let first = Block { payload: compress(data.take(size)), read_size: size };
        let rest = split_blocks(data.skip(size), block_size, compress);
        lemma_split_blocks(data.skip(size), block_size, bound, compress, decompress);
        assert(data.take(size).len() == size);
        assert(decompress(first) == data.take(size));
        assert(blocks == seq![first] + rest);
        assert forall|i: int| 0 <= i < blocks.len() implies (#[trigger] blocks[i]).fits(
            block_size,
            bound,
        ) && decompress(blocks[i]).len() == blocks[i].read_size by {
            if i > 0 {
                assert(blocks[i] == rest[i - 1]);
            }
        }
        assert(blocks.skip(1) =~= rest);
        assert(data.take(size) + data.skip(size) =~= data);
    }
}

/// Empty blocks add nothing: the plain bytes of some blocks are those of
/// the blocks among them that are not empty, in order.
pub proof fn lemma_empty_blocks(blocks: Seq<Block>, decompress: spec_fn(Block) -> Seq<u8>)
    requires
        forall|i: int|
            0 <= i < blocks.len() ==> decompress(#[trigger] blocks[i]).len() == blocks[i].read_size,
    ensures
        plain_bytes(blocks, decompress) == plain_bytes(real_blocks(blocks), decompress),
    decreases blocks.len(),
{
    if blocks.len() > 0 {
        let rest = blocks.skip(1);
        assert forall|i: int| 0 <= i < rest.len() implies decompress(#[trigger] rest[i]).len()
            == rest[i].read_size by {
            assert(rest[i] == blocks[i + 1]);
        }
        lemma_empty_blocks(rest, decompress);
        if blocks[0].read_size == 0 {
            assert(decompress(blocks[0]) =~= Seq::<u8>::empty());
            assert(decompress(blocks[0]) + plain_bytes(rest, decompress) =~= plain_bytes(
                rest,
                decompress,
            ));
        } else {
            let kept = seq![blocks[0]] + real_blocks(rest);
            assert(kept.skip(1) =~= real_blocks(rest));
        }
    }
}

// The push decoder over a whole stream.

/// What a push decoder has made of some bytes.
pub struct Run {
    /// The decoder after the last byte.
    pub end: DecoderView,
    /// The blocks that it handed out to be decompressed, in order.
    pub blocks: Seq<Block>,
    /// Why it stopped before the last byte, if it did.
    pub failure: Option<ErrorView>,
}

/// Whether the decoder waits for bytes, and not for its caller.
pub open spec fn idle(decoder: DecoderView) -> bool {
    decoder.needed() > 0
}

/// The decoder after its caller has done what a call of `write` asked for.
pub open spec fn respond(step: Step, bound: int) -> DecoderView {
    match step.outcome {
        Ok(Action::Initialize { block_size }) => step.next.initialize(bound),
        Ok(Action::Decompress { new_size, read_size }) => step.next.decompress_block(),
        _ => step.next,
    }
}

/// The block that a call of `write` hands out, if it hands one out.
pub open spec fn emitted(step: Step) -> Seq<Block> {
    match step.outcome {
        Ok(Action::Decompress { new_size, read_size }) => seq![
            Block { payload: step.next.block(), read_size: read_size as int },
        ],
        _ => Seq::empty(),
    }
}

/// What a push decoder makes of `bytes` when its caller writes all of them:
/// call after call with what is left, doing after each call what it asks
/// for, until a call fails or nothing is left. `bound` is what the caller
/// gives as the bound when the header is complete.
pub open spec fn push_decode(decoder: DecoderView, bytes: Seq<u8>, bound: int) -> Run
    decreases bytes.len(),
{
    if bytes.len() == 0 {
        Run { end: decoder, blocks: Seq::empty(), failure: None }
    } else {
        let step = decoder.accept(bytes);
        match step.outcome {
            Err(e) => Run { end: step.next, blocks: Seq::empty(), failure: Some(e) },
            Ok(action) => {
                if step.size <= 0 {
                    Run { end: step.next, blocks: Seq::empty(), failure: None }
                } else {
                    let rest = push_decode(respond(step, bound), bytes.skip(step.size), bound);
                    Run { end: rest.end, blocks: emitted(step) + rest.blocks, failure: rest.failure }
                }
            },
        }
    }
}

/// The run that goes on with `second` where `first` ended, unless `first`
/// failed.
pub open spec fn then_run(first: Run, second: Run) -> Run {
    if first.failure is Some {
        first
    } else {
        Run { end: second.end, blocks: first.blocks + second.blocks, failure: second.failure }
    }
}

/// A push decoder that waits for the next record of a stream.
pub open spec fn awaiting(block_size: int, bound: int) -> DecoderView {
    DecoderView {
        phase: Phase::AwaitingBlockHeader,
        buffered: Seq::empty(),
        block_size,
        bound,
    }
}

/// The bytes of `chunks`, one chunk after the other.
pub open spec fn concat(chunks: Seq<Seq<u8>>) -> Seq<u8>
    decreases chunks.len(),
{
    if chunks.len() == 0 {
        Seq::empty()
    } else {
        chunks[0] + concat(chunks.skip(1))
    }
}

/// What a push decoder makes of bytes that arrive as `chunks`: of each
/// chunk what it makes of its bytes, going on where the chunk before it
/// ended.
pub open spec fn push_decode_chunks(decoder: DecoderView, chunks: Seq<Seq<u8>>, bound: int) -> Run
    decreases chunks.len(),
{
    if chunks.len() == 0 {
        Run { end: decoder, blocks: Seq::empty(), failure: None }
    } else {
        let first = push_decode(decoder, chunks[0], bound);
        then_run(first, push_decode_chunks(first.end, chunks.skip(1), bound))
    }
}

/// A decoder that waits for bytes takes at least one byte of a chunk that
/// is not empty, and waits for bytes again once its caller has done what
/// the call asked for.
pub proof fn lemma_step(decoder: DecoderView, bytes: Seq<u8>, bound: int)
    requires
        decoder.wf(),
        idle(decoder),
        bytes.len() > 0,
        0 <= bound <= usize::MAX,
    ensures
        decoder.accept(bytes).size > 0,
        decoder.accept(bytes).size <= bytes.len(),
        decoder.accept(bytes).outcome is Ok ==> respond(decoder.accept(bytes), bound).wf() && idle(
            respond(decoder.accept(bytes), bound),
        ),
{
    let step = decoder.accept(bytes);
    let filled = decoder.fill(bytes.take(step.size));
    if filled.needed() <= 0 {
        match decoder.phase {
            Phase::AwaitingHeader => {},
            Phase::AwaitingBlockHeader => {
                let header = BlockHeader::parse(filled.buffered);
                if header.fits(decoder.block_size, decoder.bound) {
                    assert(header.new_size as usize == header.new_size);
                    assert(header.read_size as usize == header.read_size);
                }
            },
            Phase::AwaitingBlockData { new_size, read_size } => {},
        }
    }
}

/// Nothing is made of no bytes.
proof fn lemma_push_decode_empty(decoder: DecoderView, bytes: Seq<u8>, bound: int)
    requires
        bytes.len() == 0,
    ensures
        push_decode(decoder, bytes, bound) == (Run {
            end: decoder,
            blocks: Seq::empty(),
            failure: None,
        }),
{
}

/// One step of a run.
proof fn lemma_push_decode_unfold(decoder: DecoderView, bytes: Seq<u8>, bound: int)
    requires
        decoder.wf(),
        idle(decoder),
        bytes.len() > 0,
        0 <= bound <= usize::MAX,
    ensures
        decoder.accept(bytes).outcome matches Err(e) ==> push_decode(decoder, bytes, bound) == (Run {
            end: decoder.accept(bytes).next,
            blocks: Seq::empty(),
            failure: Some(e),
        }),
        decoder.accept(bytes).outcome is Ok ==> push_decode(decoder, bytes, bound) == then_run(
            Run { end: decoder, blocks: emitted(decoder.accept(bytes)), failure: None },
            push_decode(
                respond(decoder.accept(bytes), bound),
                bytes.skip(decoder.accept(bytes).size),
                bound,
            ),
        ),
{
    lemma_step(decoder, bytes, bound);
}

/// A call that completes the phase does not look at what follows in the
/// chunk.
proof fn lemma_accept_prefix(decoder: DecoderView, a: Seq<u8>, b: Seq<u8>)
    requires
        decoder.wf(),
        idle(decoder),
        decoder.needed() <= a.len(),
    ensures
        decoder.accept(a + b) == decoder.accept(a),
        (a + b).skip(decoder.accept(a).size) == a.skip(decoder.accept(a).size) + b,
{
    let size = decoder.needed();
    assert((a + b).take(size) =~= a.take(size));
    assert((a + b).skip(size) =~= a.skip(size) + b);
}

/// A call with a chunk that does not complete the phase only collects the
/// chunk, and a call with more bytes then does what one call with all of
/// them does.
proof fn lemma_accept_fill(decoder: DecoderView, a: Seq<u8>, b: Seq<u8>)
    requires
        decoder.wf(),
        idle(decoder),
        decoder.needed() > a.len(),
        b.len() > 0,
    ensures
        decoder.fill(a).wf(),
        idle(decoder.fill(a)),
        decoder.accept(a) == (Step {
            next: decoder.fill(a),
            size: a.len() as int,
            outcome: Ok(Action::Continue),
        }),
        decoder.accept(a + b).next == decoder.fill(a).accept(b).next,
        decoder.accept(a + b).outcome == decoder.fill(a).accept(b).outcome,
        decoder.accept(a + b).size == a.len() + decoder.fill(a).accept(b).size,
        (a + b).skip(decoder.accept(a + b).size) == b.skip(decoder.fill(a).accept(b).size),
{
    let filled = decoder.fill(a);
    assert(a.take(a.len() as int) =~= a);
    let after = filled.accept(b);
    let both = decoder.accept(a + b);
    assert(both.size == a.len() + after.size);
    assert((a + b).take(both.size) =~= a + b.take(after.size));
    assert(decoder.fill((a + b).take(both.size)).buffered =~= filled.fill(
        b.take(after.size),
    ).buffered);
    assert(decoder.fill((a + b).take(both.size)) == filled.fill(b.take(after.size)));
    assert((a + b).skip(both.size) =~= b.skip(after.size));
}

/// Chunks do not matter: what a push decoder makes of bytes that arrive in
/// two parts is what it makes of the whole. It hands out the same blocks
/// in the same order, ends in the same state, and fails on the one if and
/// only if it fails on the other, for the same reason.
pub proof fn lemma_push_decode_split(decoder: DecoderView, a: Seq<u8>, b: Seq<u8>, bound: int)
    requires
        decoder.wf(),
        idle(decoder),
        0 <= bound <= usize::MAX,
    ensures
        push_decode(decoder, a + b, bound) == then_run(
            push_decode(decoder, a, bound),
            push_decode(push_decode(decoder, a, bound).end, b, bound),
        ),
    decreases a.len(),
{
    let first = push_decode(decoder, a, bound);
    let whole = push_decode(decoder, a + b, bound);
    if a.len() == 0 {
        assert(a + b =~= b);
        lemma_push_decode_empty(decoder, a, bound);
        assert(Seq::<Block>::empty() + push_decode(decoder, b, bound).blocks =~= push_decode(
            decoder,
            b,
            bound,
        ).blocks);
    } else if b.len() == 0 {
        assert(a + b =~= a);
        lemma_push_decode_empty(first.end, b, bound);
        assert(first.blocks + Seq::<Block>::empty() =~= first.blocks);
    } else {
        let step = decoder.accept(a);
        lemma_push_decode_unfold(decoder, a, bound);
        lemma_push_decode_unfold(decoder, a + b, bound);
        lemma_step(decoder, a, bound);
        if decoder.needed() <= a.len() {
            lemma_accept_prefix(decoder, a, b);
            if step.outcome is Ok {
                let next = respond(step, bound);
                lemma_push_decode_split(next, a.skip(step.size), b, bound);
                let rest = push_decode(next, a.skip(step.size), bound);
                if rest.failure is None {
                    let second = push_decode(rest.end, b, bound);
                    assert(emitted(step) + (rest.blocks + second.blocks) =~= (emitted(step)
                        + rest.blocks) + second.blocks);
                }
            }
        } else {
            let filled = decoder.fill(a);
            lemma_accept_fill(decoder, a, b);
            assert(a.skip(a.len() as int) =~= Seq::<u8>::empty());
            lemma_push_decode_empty(filled, a.skip(a.len() as int), bound);
            assert(emitted(step) + Seq::<Block>::empty() =~= Seq::<Block>::empty());
            assert(first == Run { end: filled, blocks: Seq::empty(), failure: None });
            let after = filled.accept(b);
            let both = decoder.accept(a + b);
            lemma_push_decode_unfold(filled, b, bound);
            let second = push_decode(filled, b, bound);
            assert(respond(both, bound) == respond(after, bound));
            assert(emitted(both) == emitted(after));
            assert(whole == second);
            assert(Seq::<Block>::empty() + second.blocks =~= second.blocks);
        }
    }
}

/// A run that does not fail ends with a decoder that waits for bytes.
pub proof fn lemma_push_decode_ends_idle(decoder: DecoderView, bytes: Seq<u8>, bound: int)
    requires
        decoder.wf(),
        idle(decoder),
        0 <= bound <= usize::MAX,
    ensures
        push_decode(decoder, bytes, bound).failure is None ==> push_decode(
            decoder,
            bytes,
            bound,
        ).end.wf() && idle(push_decode(decoder, bytes, bound).end),
    decreases bytes.len(),
{
    if bytes.len() > 0 {
        let step = decoder.accept(bytes);
        lemma_step(decoder, bytes, bound);
        if step.outcome is Ok {
            lemma_push_decode_ends_idle(respond(step, bound), bytes.skip(step.size), bound);
        }
    }
}

/// Chunks do not matter, however many there are: what a push decoder makes
/// of bytes that arrive as chunks of any sizes, of one byte each or all in
/// one, is what it makes of the bytes.
pub proof fn lemma_push_decode_chunks(decoder: DecoderView, chunks: Seq<Seq<u8>>, bound: int)
    requires
        decoder.wf(),
        idle(decoder),
        0 <= bound <= usize::MAX,
    ensures
        push_decode_chunks(decoder, chunks, bound) == push_decode(decoder, concat(chunks), bound),
    decreases chunks.len(),
{
    if chunks.len() == 0 {
        lemma_push_decode_empty(decoder, concat(chunks), bound);
    } else {
        let first = push_decode(decoder, chunks[0], bound);
        lemma_push_decode_split(decoder, chunks[0], concat(chunks.skip(1)), bound);
        lemma_push_decode_ends_idle(decoder, chunks[0], bound);
        if first.failure is None {
            lemma_push_decode_chunks(first.end, chunks.skip(1), bound);
        }
    }
}

/// A push decoder makes of a header a decoder that waits for the first
/// record.
proof fn lemma_push_decode_header(block_size: int, bound: int)
    requires
        BLOCK_SIZE_MIN <= block_size <= BLOCK_SIZE_MAX,
        0 <= bound <= usize::MAX,
    ensures
        push_decode(DecoderView::start(), header_bytes(block_size), bound) == (Run {
            end: awaiting(block_size, bound),
            blocks: Seq::empty(),
            failure: None,
        }),
{
    let start = DecoderView::start();
    let bytes = header_bytes(block_size);
    lemma_header_round_trip(block_size);
    lemma_push_decode_unfold(start, bytes, bound);
    let step = start.accept(bytes);
    assert(bytes.take(9) =~= bytes);
    assert(start.fill(bytes).buffered =~= bytes);
    assert(step.next.buffered == bytes);
    assert(step.outcome == Ok::<Action, ErrorView>(
        Action::Initialize { block_size: block_size as usize },
    ));
    assert(respond(step, bound) == awaiting(block_size, bound));
    lemma_push_decode_empty(awaiting(block_size, bound), bytes.skip(9), bound);
    assert(Seq::<Block>::empty() + Seq::<Block>::empty() =~= Seq::<Block>::empty());
}

/// A push decoder that waits for a record makes of a record its block, and
/// waits for the next record.
proof fn lemma_push_decode_record(block_size: int, bound: int, block: Block)
    requires
        BLOCK_SIZE_MIN <= block_size <= BLOCK_SIZE_MAX,
        0 <= bound <= usize::MAX,
        block.fits(block_size, bound),
    ensures
        push_decode(awaiting(block_size, bound), block.bytes(), bound) == (Run {
            end: awaiting(block_size, bound),
            blocks: seq![block],
            failure: None,
        }),
{
    let decoder = awaiting(block_size, bound);
    let header = BlockHeader {
        new_size: block.payload.len() as i32,
        read_size: block.read_size as i32,
    };
    let lengths = header.bytes();
    lemma_block_header_round_trip(header);
    lemma_push_decode_split(decoder, lengths, block.payload, bound);
    // the two lengths
    lemma_push_decode_unfold(decoder, lengths, bound);
    let step = decoder.accept(lengths);
    assert(lengths.take(8) =~= lengths);
    assert(decoder.fill(lengths).buffered =~= lengths);
    lemma_push_decode_empty(respond(step, bound), lengths.skip(8), bound);
    let data = DecoderView {
        phase: Phase::AwaitingBlockData {
            new_size: block.payload.len() as usize,
            read_size: block.read_size as usize,
        },
        buffered: Seq::empty(),
        block_size,
        bound,
    };
    assert(step.next == data);
    if block.payload.len() == 0 {
        assert(data.block() =~= block.payload);
        assert(emitted(step) =~= seq![block]);
        assert(respond(step, bound) == decoder);
        assert(seq![block] + Seq::<Block>::empty() =~= seq![block]);
        lemma_push_decode_empty(decoder, block.payload, bound);
    } else {
        assert(emitted(step) =~= Seq::<Block>::empty());
        assert(respond(step, bound) == data);
        assert(Seq::<Block>::empty() + Seq::<Block>::empty() =~= Seq::<Block>::empty());
        // the payload
        lemma_push_decode_unfold(data, block.payload, bound);
        let last = data.accept(block.payload);
        assert(block.payload.take(block.payload.len() as int) =~= block.payload);
        assert(data.fill(block.payload).buffered =~= block.payload);
        assert(last.next.block() == block.payload);
        assert(emitted(last) =~= seq![block]);
        assert(respond(last, bound) == decoder);
        lemma_push_decode_empty(decoder, block.payload.skip(block.payload.len() as int), bound);
        assert(seq![block] + Seq::<Block>::empty() =~= seq![block]);
        assert(Seq::<Block>::empty() + seq![block] =~= seq![block]);
    }
}

/// A push decoder that waits for a record makes of the records of some
/// blocks those blocks, in order.
proof fn lemma_push_decode_records(block_size: int, bound: int, blocks: Seq<Block>)
    requires
        BLOCK_SIZE_MIN <= block_size <= BLOCK_SIZE_MAX,
        0 <= bound <= usize::MAX,
        forall|i: int| 0 <= i < blocks.len() ==> (#[trigger] blocks[i]).fits(block_size, bound),
    ensures
        push_decode(awaiting(block_size, bound), records_bytes(blocks), bound) == (Run {
            end: awaiting(block_size, bound),
            blocks,
            failure: None,
        }),
    decreases blocks.len(),
{
    let decoder = awaiting(block_size, bound);
    if blocks.len() == 0 {
        lemma_push_decode_empty(decoder, records_bytes(blocks), bound);
        assert(blocks =~= Seq::<Block>::empty());
    } else {
        let rest = blocks.skip(1);
        assert forall|i: int| 0 <= i < rest.len() implies (#[trigger] rest[i]).fits(
            block_size,
            bound,
        ) by {
            assert(rest[i] == blocks[i + 1]);
        }
        lemma_push_decode_record(block_size, bound, blocks[0]);
        lemma_push_decode_records(block_size, bound, rest);
        lemma_push_decode_split(decoder, blocks[0].bytes(), records_bytes(rest), bound);
        assert(seq![blocks[0]] + rest =~= blocks);
    }
}

/// Framing can be undone: of the stream that carries some blocks, a push
/// decoder makes those blocks, in order and with nothing left over,
/// however the stream is cut into chunks. A block that is empty before
/// compression is handed out like any other, and does not end the data.
pub proof fn lemma_push_decode_stream(block_size: int, bound: int, blocks: Seq<Block>)
    requires
        BLOCK_SIZE_MIN <= block_size <= BLOCK_SIZE_MAX,
        0 <= bound <= usize::MAX,
        forall|i: int| 0 <= i < blocks.len() ==> (#[trigger] blocks[i]).fits(block_size, bound),
    ensures
        push_decode(DecoderView::start(), stream_bytes(block_size, blocks), bound) == (Run {
            end: awaiting(block_size, bound),
            blocks,
            failure: None,
        }),
{
    lemma_push_decode_header(block_size, bound);
    lemma_push_decode_records(block_size, bound, blocks);
    lemma_push_decode_split(
        DecoderView::start(),
        header_bytes(block_size),
        records_bytes(blocks),
        bound,
    );
    assert(Seq::<Block>::empty() + blocks =~= blocks);
}

/// A wrong signature is found before any block: of nine bytes or more that
/// do not start with the signature, a push decoder hands out no block and
/// fails, and reading the header for a pull decoder fails, both because
/// the signature is invalid.
pub proof fn lemma_wrong_signature(stream: Seq<u8>, bound: int)
    requires
        stream.len() >= HEADER_SIZE,
        !has_signature(stream),
        0 <= bound <= usize::MAX,
    ensures
        push_decode(DecoderView::start(), stream, bound).blocks.len() == 0,
        push_decode(DecoderView::start(), stream, bound).failure == Some(
            ErrorView::InvalidSignature,
        ),
        parse_header(stream.take(HEADER_SIZE as int)) == Err::<int, ErrorView>(
            ErrorView::InvalidSignature,
        ),
{
    let start = DecoderView::start();
    let head = stream.take(HEADER_SIZE as int);
    assert(head.subrange(0, 5) =~= stream.subrange(0, 5));
    assert(start.fill(head).buffered =~= head);
    let step = start.accept(stream);
    assert(step.outcome == Err::<Action, ErrorView>(ErrorView::InvalidSignature));
}

/// A failure stays: a push decoder that has refused a header or the
/// lengths of a record takes no more bytes, and refuses every later chunk
/// for the same reason.
pub proof fn lemma_failure_stays(decoder: DecoderView, first: Seq<u8>, later: Seq<u8>)
    requires
        decoder.wf(),
        decoder.accept(first).outcome is Err,
    ensures
        decoder.accept(first).next.accept(later).outcome == decoder.accept(first).outcome,
        decoder.accept(first).next.accept(later).size == 0,
        decoder.accept(first).next.accept(later).next == decoder.accept(first).next,
{
    let failed = decoder.accept(first).next;
    assert(failed.needed() == 0);
    assert(later.take(0) =~= Seq::<u8>::empty());
    assert(failed.fill(later.take(0)).buffered =~= failed.buffered);
    assert(failed.fill(later.take(0)) == failed);
}

// The pull decoder over a whole stream.

/// What a pull decoder has made of a source.
pub struct Pulled {
    /// The decoder after the last byte that it served.
    pub end: crate::read::DecoderView,
    /// The blocks that it asked to be decompressed, in order.
    pub blocks: Seq<Block>,
    /// The plain bytes that it served.
    pub plain: Seq<u8>,
    /// Why it stopped before the end of the source, if it did.
    pub failure: Option<ErrorView>,
}

/// What a pull decoder makes of the source `source` when its caller reads
/// until the end: whenever nothing is left to serve, the caller pulls the
/// two lengths of the next record, then its payload, has it decompressed,
/// and hands the plain bytes to the decoder, which serves them. A source
/// that ends inside a payload is a failure of the pull.
pub open spec fn pull_decode(
    decoder: crate::read::DecoderView,
    source: Seq<u8>,
    decompress: spec_fn(Block) -> Seq<u8>,
) -> Pulled
    decreases source.len(),
{
    let lengths = if source.len() < BLOCK_HEADER_SIZE {
        source
    } else {
        source.take(BLOCK_HEADER_SIZE as int)
    };
    match decoder.read_block_header(lengths) {
        Err(e) => Pulled { end: decoder, blocks: Seq::empty(), plain: Seq::empty(), failure: Some(e) },
        Ok(next) => {
            if source.len() == 0 {
                Pulled { end: next, blocks: Seq::empty(), plain: Seq::empty(), failure: None }
            } else {
                let header = BlockHeader::parse(lengths);
                let end = BLOCK_HEADER_SIZE + header.new_size;
                if source.len() < end {
                    Pulled {
                        end: next,
                        blocks: Seq::empty(),
                        plain: Seq::empty(),
                        failure: Some(ErrorView::Io(truncated())),
                    }
                } else {
                    let block = Block {
                        payload: source.subrange(BLOCK_HEADER_SIZE as int, end),
                        read_size: header.read_size as int,
                    };
                    let plain = decompress(block);
                    let served = next.decompress_block(plain).read(plain.len() as int);
                    let rest = pull_decode(served, source.skip(end), decompress);
                    Pulled {
                        end: rest.end,
                        blocks: seq![block] + rest.blocks,
                        plain: plain + rest.plain,
                        failure: rest.failure,
                    }
                }
            }
        },
    }
}

/// A pull decoder that waits for a record makes of a record its block and
/// serves the block's plain bytes; then it goes on with what follows.
proof fn lemma_pull_decode_record(
    decoder: crate::read::DecoderView,
    block: Block,
    tail: Seq<u8>,
    decompress: spec_fn(Block) -> Seq<u8>,
)
    requires
        decoder.demand() is BlockHeader,
        BLOCK_SIZE_MIN <= decoder.block_size <= BLOCK_SIZE_MAX,
        block.fits(decoder.block_size, decoder.bound),
        decompress(block).len() == block.read_size,
    ensures
        pull_decode(decoder, block.bytes() + tail, decompress) == (Pulled {
            end: pull_decode(decoder, tail, decompress).end,
            blocks: seq![block] + pull_decode(decoder, tail, decompress).blocks,
            plain: decompress(block) + pull_decode(decoder, tail, decompress).plain,
            failure: pull_decode(decoder, tail, decompress).failure,
        }),
{
    let source = block.bytes() + tail;
    let header = BlockHeader {
        new_size: block.payload.len() as i32,
        read_size: block.read_size as i32,
    };
    lemma_block_header_round_trip(header);
    assert(block.bytes() == header.bytes() + block.payload);
    assert(header.bytes().len() == 8);
    let lengths = source.take(BLOCK_HEADER_SIZE as int);
    assert(lengths =~= header.bytes());
    assert(BlockHeader::parse(lengths) == header);
    let end = BLOCK_HEADER_SIZE + header.new_size;
    assert(end == 8 + block.payload.len());
    assert(source.subrange(BLOCK_HEADER_SIZE as int, end) =~= block.payload);
    assert(source.skip(end) =~= tail);
    let next = crate::read::DecoderView { block_header: Some(header), ..decoder };
    assert(decoder.read_block_header(lengths) == Ok::<crate::read::DecoderView, ErrorView>(next));
    let plain = decompress(block);
    let served = next.decompress_block(plain).read(plain.len() as int);
    assert(served.pending =~= decoder.pending);
    assert(served == decoder);
}

/// Framing can be undone on demand: from a source that holds the records
/// of some blocks, a pull decoder asks for those blocks, in order, and
/// serves their plain bytes, in order; then it sees the end of the data. A
/// block without plain bytes adds nothing, and does not end the data.
pub proof fn lemma_pull_decode_records(
    decoder: crate::read::DecoderView,
    blocks: Seq<Block>,
    decompress: spec_fn(Block) -> Seq<u8>,
)
    requires
        decoder.demand() is BlockHeader,
        BLOCK_SIZE_MIN <= decoder.block_size <= BLOCK_SIZE_MAX,
        forall|i: int|
            0 <= i < blocks.len() ==> (#[trigger] blocks[i]).fits(decoder.block_size, decoder.bound),
        forall|i: int|
            0 <= i < blocks.len() ==> decompress(#[trigger] blocks[i]).len() == blocks[i].read_size,
    ensures
        pull_decode(decoder, records_bytes(blocks), decompress) == (Pulled {
            end: crate::read::DecoderView { eof: true, ..decoder },
            blocks,
            plain: plain_bytes(blocks, decompress),
            failure: None,
        }),
    decreases blocks.len(),
{
    if blocks.len() == 0 {
        assert(blocks =~= Seq::<Block>::empty());
    } else {
        let rest = blocks.skip(1);
        assert forall|i: int| 0 <= i < rest.len() implies (#[trigger] rest[i]).fits(
            decoder.block_size,
            decoder.bound,
        ) && decompress(rest[i]).len() == rest[i].read_size by {
            assert(rest[i] == blocks[i + 1]);
        }
        lemma_pull_decode_records(decoder, rest, decompress);
        lemma_pull_decode_record(decoder, blocks[0], records_bytes(rest), decompress);
        assert(seq![blocks[0]] + rest =~= blocks);
    }
}

/// The end is final: a pull decoder whose data has ended serves nothing,
/// and its data has ended after that too.
pub proof fn lemma_decoder_end_is_final(decoder: crate::read::DecoderView, len: int)
    requires
        decoder.demand() == crate::read::Demand::End,
        0 <= len,
    ensures
        served(decoder.pending, len) == 0,
        decoder.read(served(decoder.pending, len)) == decoder,
{
    assert(decoder.pending.skip(0) =~= decoder.pending);
}

// The pull encoder over a whole source.

/// What a pull encoder serves from the source `source` when its caller
/// reads until the end: what is ready, and then, until the source has
/// ended, the record of each block that the caller pulls from the source
/// and has compressed.
pub open spec fn pull_encode(
    encoder: crate::read::EncoderView,
    source: Seq<u8>,
    compress: spec_fn(Seq<u8>) -> Seq<u8>,
) -> Seq<u8>
    decreases source.len(), (if encoder.eof { 0int } else { 1int }),
{
    if encoder.eof {
        encoder.pending
    } else {
        let size = if encoder.block_size <= 0 {
            0
        } else if source.len() < encoder.block_size {
            source.len() as int
        } else {
            encoder.block_size
        };
        let drained = encoder.read(encoder.pending.len() as int);
        let next = drained.compress_block(size, compress(source.take(size)));
        encoder.pending + pull_encode(next, source.skip(size), compress)
    }
}

/// A pull encoder whose source has ended serves what is ready.
proof fn lemma_pull_encode_eof(
    encoder: crate::read::EncoderView,
    source: Seq<u8>,
    compress: spec_fn(Seq<u8>) -> Seq<u8>,
)
    requires
        encoder.eof,
    ensures
        pull_encode(encoder, source, compress) == encoder.pending,
{
}

/// A pull encoder serves what is ready, then the records of the blocks of
/// its source.
pub proof fn lemma_pull_encode_records(
    encoder: crate::read::EncoderView,
    source: Seq<u8>,
    compress: spec_fn(Seq<u8>) -> Seq<u8>,
)
    requires
        !encoder.eof,
        encoder.block_size > 0,
    ensures
        pull_encode(encoder, source, compress) == encoder.pending + records_bytes(
            split_blocks(source, encoder.block_size, compress),
        ),
    decreases source.len(),
{
    let block_size = encoder.block_size;
    let size = if source.len() < block_size {
        source.len() as int
    } else {
        block_size
    };
    let drained = encoder.read(encoder.pending.len() as int);
    let next = drained.compress_block(size, compress(source.take(size)));
    if source.len() == 0 {
        lemma_pull_encode_eof(next, source.skip(size), compress);
        assert(encoder.pending + Seq::<u8>::empty() =~= encoder.pending);
        assert(split_blocks(source, block_size, compress) =~= Seq::<Block>::empty());
    } else {
        let block = Block { payload: compress(source.take(size)), read_size: size };
        let rest = split_blocks(source.skip(size), block_size, compress);
        lemma_records_bytes_cons(block, rest);
        assert(next.pending == block.bytes());
        if next.eof {
            lemma_pull_encode_eof(next, source.skip(size), compress);
            assert(source.skip(size).len() == 0);
            assert(rest =~= Seq::<Block>::empty());
            assert(block.bytes() + Seq::<u8>::empty() =~= block.bytes());
        } else {
            lemma_pull_encode_records(next, source.skip(size), compress);
        }
    }
}

/// A pull encoder serves the stream that encoding its source gives. Of an
/// empty source that is the header alone.
pub proof fn lemma_pull_encode(
    block_size: int,
    source: Seq<u8>,
    compress: spec_fn(Seq<u8>) -> Seq<u8>,
)
    requires
        BLOCK_SIZE_MIN <= block_size <= BLOCK_SIZE_MAX,
    ensures
        pull_encode(
            crate::read::EncoderView { block_size, pending: header_bytes(block_size), eof: false },
            source,
            compress,
        ) == encode(source, block_size, compress),
        source.len() == 0 ==> encode(source, block_size, compress) == header_bytes(block_size),
{
    lemma_pull_encode_records(
        crate::read::EncoderView { block_size, pending: header_bytes(block_size), eof: false },
        source,
        compress,
    );
    if source.len() == 0 {
        assert(header_bytes(block_size) + Seq::<u8>::empty() =~= header_bytes(block_size));
    }
}

/// The end is final: a pull encoder whose data has ended serves nothing,
/// and its data has ended after that too.
pub proof fn lemma_encoder_end_is_final(encoder: crate::read::EncoderView, len: int)
    requires
        encoder.demand() == crate::read::Demand::End,
        0 <= len,
    ensures
        served(encoder.pending, len) == 0,
        encoder.read(served(encoder.pending, len)) == encoder,
{
    assert(encoder.pending.skip(0) =~= encoder.pending);
}

/// Reading in parts serves what one read serves: two reads, into buffers
/// of `a` and of `b` bytes, serve together the bytes that one read into a
/// buffer of `a + b` bytes serves.
pub proof fn lemma_read_in_parts(pending: Seq<u8>, a: int, b: int)
    requires
        0 <= a,
        0 <= b,
    ensures
        served(pending, a) + served(pending.skip(served(pending, a)), b) == served(pending, a + b),
        pending.take(served(pending, a)) + pending.skip(served(pending, a)).take(
            served(pending.skip(served(pending, a)), b),
        ) == pending.take(served(pending, a + b)),
        pending.skip(served(pending, a)).skip(served(pending.skip(served(pending, a)), b))
            == pending.skip(served(pending, a + b)),
{
    let first = served(pending, a);
    let second = served(pending.skip(first), b);
    assert(pending.take(first) + pending.skip(first).take(second) =~= pending.take(first + second));
    assert(pending.skip(first).skip(second) =~= pending.skip(first + second));
}

// The push encoder over whole data.

/// What a push encoder has made of some bytes.
pub struct Pushed {
    /// The encoder after the last byte.
    pub end: crate::write::EncoderView,
    /// The blocks whose records it returned, in order.
    pub blocks: Seq<Block>,
}

/// The block that a push encoder makes of what it has collected.
pub open spec fn collected(
    encoder: crate::write::EncoderView,
    compress: spec_fn(Seq<u8>) -> Seq<u8>,
) -> Block {
    Block { payload: compress(encoder.buffered), read_size: encoder.buffered.len() as int }
}

/// What a push encoder makes of `data` when its caller writes all of it:
/// call after call with what is left, compressing the block whenever a
/// call asks for it.
pub open spec fn push_encode(
    encoder: crate::write::EncoderView,
    data: Seq<u8>,
    compress: spec_fn(Seq<u8>) -> Seq<u8>,
) -> Pushed
    decreases data.len(),
{
    if data.len() == 0 || encoder.taken(data.len() as int) <= 0 {
        Pushed { end: encoder, blocks: Seq::empty() }
    } else {
        let size = encoder.taken(data.len() as int);
        let filled = encoder.write(data);
        if filled.room() == 0 {
            let rest = push_encode(
                crate::write::EncoderView { buffered: Seq::empty(), ..filled },
                data.skip(size),
                compress,
            );
            Pushed { end: rest.end, blocks: seq![collected(filled, compress)] + rest.blocks }
        } else {
            let rest = push_encode(filled, data.skip(size), compress);
            Pushed { end: rest.end, blocks: rest.blocks }
        }
    }
}

/// The block that a flush of a push encoder emits, if it emits one: with
/// nothing collected it emits none.
pub open spec fn flushed(
    encoder: crate::write::EncoderView,
    compress: spec_fn(Seq<u8>) -> Seq<u8>,
) -> Seq<Block> {
    if encoder.buffered.len() == 0 {
        Seq::empty()
    } else {
        seq![collected(encoder, compress)]
    }
}

/// Nothing is made of no bytes.
proof fn lemma_push_encode_empty(
    encoder: crate::write::EncoderView,
    data: Seq<u8>,
    compress: spec_fn(Seq<u8>) -> Seq<u8>,
)
    requires
        data.len() == 0,
    ensures
        push_encode(encoder, data, compress) == (Pushed { end: encoder, blocks: Seq::empty() }),
{
}

/// A push encoder that has room makes of bytes, together with what it had
/// collected before, the blocks of the whole: those that it returns while
/// the bytes are written, and the one that a flush emits at the end.
pub proof fn lemma_push_encode_blocks(
    encoder: crate::write::EncoderView,
    data: Seq<u8>,
    compress: spec_fn(Seq<u8>) -> Seq<u8>,
)
    requires
        0 <= encoder.buffered.len() < encoder.block_size,
    ensures
        push_encode(encoder, data, compress).blocks + flushed(
            push_encode(encoder, data, compress).end,
            compress,
        ) == split_blocks(encoder.buffered + data, encoder.block_size, compress),
        push_encode(encoder, data, compress).end.block_size == encoder.block_size,
    decreases data.len(),
{
    let block_size = encoder.block_size;
    let whole = encoder.buffered + data;
    if data.len() == 0 {
        assert(whole =~= encoder.buffered);
        lemma_split_blocks_short(encoder.buffered, block_size, compress);
        assert(Seq::<Block>::empty() + flushed(encoder, compress) =~= flushed(encoder, compress));
    } else {
        let size = encoder.taken(data.len() as int);
        let filled = encoder.write(data);
        if filled.room() == 0 {
            let cleared = crate::write::EncoderView { buffered: Seq::empty(), ..filled };
            let rest = push_encode(cleared, data.skip(size), compress);
            lemma_push_encode_blocks(cleared, data.skip(size), compress);
            assert(whole.take(block_size) =~= filled.buffered);
            assert(whole.skip(block_size) =~= data.skip(size));
            assert(cleared.buffered + data.skip(size) =~= data.skip(size));
            let block = collected(filled, compress);
            assert((seq![block] + rest.blocks) + flushed(rest.end, compress) =~= seq![block] + (
            rest.blocks + flushed(rest.end, compress)));
        } else {
            assert(data.take(size) =~= data);
            assert(data.skip(size).len() == 0);
            assert(filled.buffered =~= whole);
            lemma_split_blocks_short(whole, block_size, compress);
            assert(push_encode(filled, data.skip(size), compress) == Pushed {
                end: filled,
                blocks: Seq::empty(),
            });
            assert(Seq::<Block>::empty() + flushed(filled, compress) =~= flushed(filled, compress));
        }
    }
}

/// A push encoder returns the records of the stream that encoding its
/// bytes gives: the header when it is made, then the records of the
/// blocks. Of no bytes that is the header alone.
pub proof fn lemma_push_encode(
    block_size: int,
    data: Seq<u8>,
    compress: spec_fn(Seq<u8>) -> Seq<u8>,
)
    requires
        BLOCK_SIZE_MIN <= block_size <= BLOCK_SIZE_MAX,
    ensures
        ({
            let start = crate::write::EncoderView { block_size, buffered: Seq::empty() };
            let run = push_encode(start, data, compress);
            header_bytes(block_size) + records_bytes(run.blocks + flushed(run.end, compress))
                == encode(data, block_size, compress)
        }),
{
    let start = crate::write::EncoderView { block_size, buffered: Seq::empty() };
    lemma_push_encode_blocks(start, data, compress);
    assert(start.buffered + data =~= data);
}

/// Chunks do not matter to the encoder either: what a push encoder makes
/// of bytes that arrive in two parts is what it makes of the whole. It
/// returns the same records in the same order, and has collected the same
/// bytes at the end.
pub proof fn lemma_push_encode_split(
    encoder: crate::write::EncoderView,
    a: Seq<u8>,
    b: Seq<u8>,
    compress: spec_fn(Seq<u8>) -> Seq<u8>,
)
    requires
        0 <= encoder.buffered.len() < encoder.block_size,
    ensures
        push_encode(encoder, a + b, compress) == (Pushed {
            end: push_encode(push_encode(encoder, a, compress).end, b, compress).end,
            blocks: push_encode(encoder, a, compress).blocks + push_encode(
                push_encode(encoder, a, compress).end,
                b,
                compress,
            ).blocks,
        }),
        0 <= push_encode(encoder, a, compress).end.buffered.len() < encoder.block_size,
        push_encode(encoder, a, compress).end.block_size == encoder.block_size,
    decreases a.len(),
{
    let first = push_encode(encoder, a, compress);
    if a.len() == 0 {
        assert(a + b =~= b);
        let second = push_encode(encoder, b, compress);
        assert(Seq::<Block>::empty() + second.blocks =~= second.blocks);
    } else {
        let room = encoder.room();
        let size = encoder.taken(a.len() as int);
        let filled = encoder.write(a);
        if room <= a.len() {
            let cleared = crate::write::EncoderView { buffered: Seq::empty(), ..filled };
            assert((a + b).take(size) =~= a.take(size));
            assert(encoder.write(a + b) == filled);
            assert((a + b).skip(size) =~= a.skip(size) + b);
            lemma_push_encode_split(cleared, a.skip(size), b, compress);
            let rest = push_encode(cleared, a.skip(size), compress);
            let second = push_encode(rest.end, b, compress);
            let block = collected(filled, compress);
            assert(seq![block] + (rest.blocks + second.blocks) =~= (seq![block] + rest.blocks)
                + second.blocks);
        } else {
            assert(a.take(size) =~= a);
            assert(a.skip(size).len() == 0);
            lemma_push_encode_empty(filled, a.skip(size), compress);
            assert(first == Pushed { end: filled, blocks: Seq::empty() });
            let second = push_encode(filled, b, compress);
            assert(Seq::<Block>::empty() + second.blocks =~= second.blocks);
            if b.len() == 0 {
                assert(a + b =~= a);
            } else {
                let more = filled.taken(b.len() as int);
                let both = encoder.taken((a + b).len() as int);
                assert(both == a.len() + more);
                assert((a + b).take(both) =~= a + b.take(more));
                assert(encoder.write(a + b).buffered =~= filled.write(b).buffered);
                assert(encoder.write(a + b) == filled.write(b));
                assert((a + b).skip(both) =~= b.skip(more));
            }
        }
    }
}

// Encoding, then decoding.

/// The plain bytes that decoding `stream` gives: those of the blocks that
/// a push decoder makes of it.
pub open spec fn decode(stream: Seq<u8>, bound: int, decompress: spec_fn(Block) -> Seq<u8>) -> Seq<
    u8,
> {
    plain_bytes(push_decode(DecoderView::start(), stream, bound).blocks, decompress)
}

/// Decoding what encoding gave gives the data back. A push decoder makes of
/// the stream the blocks of the data, and their plain bytes are the data.
/// A pull decoder, made for the block size that the header of the stream
/// declares, serves the data from the records that follow the header.
pub proof fn lemma_round_trip(
    data: Seq<u8>,
    block_size: int,
    bound: int,
    compress: spec_fn(Seq<u8>) -> Seq<u8>,
    decompress: spec_fn(Block) -> Seq<u8>,
)
    requires
        BLOCK_SIZE_MIN <= block_size <= BLOCK_SIZE_MAX,
        0 <= bound <= usize::MAX,
        codec_inverts(compress, decompress, block_size, bound),
    ensures
        push_decode(DecoderView::start(), encode(data, block_size, compress), bound) == (Run {
            end: awaiting(block_size, bound),
            blocks: split_blocks(data, block_size, compress),
            failure: None,
        }),
        decode(encode(data, block_size, compress), bound, decompress) == data,
        parse_header(encode(data, block_size, compress).take(HEADER_SIZE as int)) == Ok::<
            int,
            ErrorView,
        >(block_size),
        ({
            let decoder = crate::read::DecoderView {
                block_size,
                bound,
                pending: Seq::empty(),
                eof: false,
                block_header: None,
            };
            let pulled = pull_decode(
                decoder,
                encode(data, block_size, compress).skip(HEADER_SIZE as int),
                decompress,
            );
            &&& pulled.failure is None
            &&& pulled.plain == data
            &&& pulled.end.demand() == crate::read::Demand::End
        }),
{
    let blocks = split_blocks(data, block_size, compress);
    let stream = encode(data, block_size, compress);
    lemma_split_blocks(data, block_size, bound, compress, decompress);
    lemma_push_decode_stream(block_size, bound, blocks);
    lemma_header_round_trip(block_size);
    assert(stream.take(HEADER_SIZE as int) =~= header_bytes(block_size));
    assert(stream.skip(HEADER_SIZE as int) =~= records_bytes(blocks));
    let decoder = crate::read::DecoderView {
        block_size,
        bound,
        pending: Seq::empty(),
        eof: false,
        block_header: None,
    };
    lemma_pull_decode_records(decoder, blocks, decompress);
}

/// The stream that a chain of encoders gives: `data` is encoded with the
/// first block size, the stream that this gives with the second, and so
/// on.
pub open spec fn encode_chain(
    data: Seq<u8>,
    block_sizes: Seq<int>,
    compress: spec_fn(Seq<u8>) -> Seq<u8>,
) -> Seq<u8>
    decreases block_sizes.len(),
{
    if block_sizes.len() == 0 {
        data
    } else {
        encode(encode_chain(data, block_sizes.drop_last(), compress), block_sizes.last(), compress)
    }
}

/// The plain bytes that a chain of decoders gives: `stream` is decoded by
/// the decoder whose bound is the last, the plain bytes that this gives by
/// the one before it, and so on.
pub open spec fn decode_chain(
    stream: Seq<u8>,
    bounds: Seq<int>,
    decompress: spec_fn(Block) -> Seq<u8>,
) -> Seq<u8>
    decreases bounds.len(),
{
    if bounds.len() == 0 {
        stream
    } else {
        decode_chain(decode(stream, bounds.last(), decompress), bounds.drop_last(), decompress)
    }
}

/// Chains can be undone: decoding through as many decoders as there were
/// encoders, the last encoder's stream first, gives the data back,
/// whatever the block size of each encoder is.
pub proof fn lemma_chain_round_trip(
    data: Seq<u8>,
    block_sizes: Seq<int>,
    bounds: Seq<int>,
    compress: spec_fn(Seq<u8>) -> Seq<u8>,
    decompress: spec_fn(Block) -> Seq<u8>,
)
    requires
        block_sizes.len() == bounds.len(),
        forall|i: int|
            0 <= i < block_sizes.len() ==> BLOCK_SIZE_MIN <= #[trigger] block_sizes[i]
                <= BLOCK_SIZE_MAX,
        forall|i: int| 0 <= i < bounds.len() ==> 0 <= #[trigger] bounds[i] <= usize::MAX,
        forall|i: int|
            0 <= i < block_sizes.len() ==> codec_inverts(
                compress,
                decompress,
                #[trigger] block_sizes[i],
                bounds[i],
            ),
    ensures
        decode_chain(encode_chain(data, block_sizes, compress), bounds, decompress) == data,
    decreases block_sizes.len(),
{
    if block_sizes.len() > 0 {
        let inner = encode_chain(data, block_sizes.drop_last(), compress);
        let last = block_sizes.len() - 1;
        assert(block_sizes.last() == block_sizes[last]);
        assert(bounds.last() == bounds[last]);
        assert(codec_inverts(compress, decompress, block_sizes[last], bounds[last]));
        lemma_round_trip(inner, block_sizes.last(), bounds.last(), compress, decompress);
        assert forall|i: int| 0 <= i < block_sizes.drop_last().len() implies BLOCK_SIZE_MIN
            <= #[trigger] block_sizes.drop_last()[i] <= BLOCK_SIZE_MAX && codec_inverts(
            compress,
            decompress,
            block_sizes.drop_last()[i],
            bounds.drop_last()[i],
        ) by {
            assert(block_sizes.drop_last()[i] == block_sizes[i]);
            assert(bounds.drop_last()[i] == bounds[i]);
        }
        assert forall|i: int| 0 <= i < bounds.drop_last().len() implies 0
            <= #[trigger] bounds.drop_last()[i] <= usize::MAX by {
            assert(bounds.drop_last()[i] == bounds[i]);
        }
        lemma_chain_round_trip(
            data,
            block_sizes.drop_last(),
            bounds.drop_last(),
            compress,
            decompress,
        );
    }
}

/// Nothing in, nothing out: encoding no bytes gives the header alone, with
/// no record, and decoding that gives no bytes.
pub proof fn lemma_empty_input(
    block_size: int,
    bound: int,
    compress: spec_fn(Seq<u8>) -> Seq<u8>,
    decompress: spec_fn(Block) -> Seq<u8>,
)
    requires
        BLOCK_SIZE_MIN <= block_size <= BLOCK_SIZE_MAX,
        0 <= bound <= usize::MAX,
    ensures
        encode(Seq::empty(), block_size, compress) == header_bytes(block_size),
        encode(Seq::empty(), block_size, compress).len() == HEADER_SIZE,
        push_decode(DecoderView::start(), header_bytes(block_size), bound).blocks.len() == 0,
        decode(header_bytes(block_size), bound, decompress).len() == 0,
{
    lemma_header_round_trip(block_size);
    lemma_push_decode_header(block_size, bound);
    assert(header_bytes(block_size) + Seq::<u8>::empty() =~= header_bytes(block_size));
}

} // verus!
