use bzip3::errors::{Error, ErrorKind};
use bzip3::format::write_header;
use bzip3::read::{Bz3Decoder, Bz3Encoder, Demand};
use bzip3::{BLOCK_SIZE_MAX, BLOCK_SIZE_MIN, MAGIC_NUMBER};

const EMPTY_BLOCK: [u8; 16] = [
    0x08, 0x00, 0x00, 0x00, 0x00, 0x00, 0x00, 0x00, 0x01, 0x00, 0x00, 0x00, 0xff, 0xff, 0xff, 0xff,
];

const HELLO_BLOCK: [u8; 21] = [
    0x0d, 0x00, 0x00, 0x00, 0x05, 0x00, 0x00, 0x00, 0xd5, 0xa2, 0x12, 0xe7, 0xff, 0xff, 0xff, 0xff,
    0x68, 0x65, 0x6c, 0x6c, 0x6f,
];

/// Everything that the encoder serves from `source`, read into buffers of
/// `chunk` bytes; the codec leaves the bytes as they are.
fn encode(source: &[u8], block_size: usize, chunk: usize) -> Vec<u8> {
    let mut encoder = Bz3Encoder::new(block_size).unwrap();
    let mut source = source;
    let mut out = Vec::new();
    let mut buf = vec![0xee_u8; chunk];
    loop {
        match encoder.demand() {
            Demand::Ready => {
                let size = encoder.read(&mut buf);
                assert!(size > 0);
                out.extend_from_slice(&buf[..size]);
            }
            Demand::Block { block_size } => {
                let read_size = source.len().min(block_size);
                encoder.compress_block(read_size, &source[..read_size]);
                source = &source[read_size..];
            }
            Demand::End => {
                assert_eq!(encoder.read(&mut buf), 0);
                assert_eq!(encoder.demand(), Demand::End);
                return out;
            }
            _ => unreachable!(),
        }
    }
}

/// Everything that the decoder serves from the records in `source`, read
/// into buffers of `chunk` bytes; the codec leaves the bytes as they are,
/// after the eight bytes that a stored block starts with.
fn decode(block_size: usize, records: &[u8], chunk: usize) -> Result<Vec<u8>, Error> {
    let mut decoder = Bz3Decoder::new(block_size, block_size + 8)?;
    let mut source = records;
    let mut out = Vec::new();
    let mut buf = vec![0xee_u8; chunk];
    loop {
        match decoder.demand() {
            Demand::Ready => {
                let size = decoder.read(&mut buf);
                assert!(size > 0);
                out.extend_from_slice(&buf[..size]);
            }
            Demand::BlockHeader => {
                let got = source.len().min(8);
                decoder.read_block_header(&source[..got])?;
                source = &source[got..];
            }
            Demand::BlockData { new_size, read_size } => {
                assert_eq!(new_size, read_size + 8);
                decoder.decompress_block(&source[8..new_size]);
                source = &source[new_size..];
            }
            Demand::End => {
                assert_eq!(decoder.read(&mut buf), 0);
                assert_eq!(decoder.demand(), Demand::End);
                return Ok(out);
            }
            _ => unreachable!(),
        }
    }
}

#[test]
fn pull_encoder_refuses_block_size_out_of_range() {
    assert!(matches!(Bz3Encoder::new(BLOCK_SIZE_MIN - 1), Err(Error::BlockSize)));
    assert!(matches!(Bz3Encoder::new(BLOCK_SIZE_MAX + 1), Err(Error::BlockSize)));
    assert_eq!(Bz3Encoder::new(BLOCK_SIZE_MIN).unwrap().block_size(), BLOCK_SIZE_MIN);
    assert_eq!(Bz3Encoder::new(BLOCK_SIZE_MAX).unwrap().block_size(), BLOCK_SIZE_MAX);
}

#[test]
fn pull_encoder_of_nothing_serves_the_header_alone() {
    for chunk in [1, 2, 9, 100] {
        let stream = encode(&[], 16 * 1024 * 1024, chunk);
        let mut expected = Vec::from(*MAGIC_NUMBER);
        expected.extend_from_slice(&[0x00, 0x00, 0x00, 0x01]);
        assert_eq!(stream, expected);
    }
}

#[test]
fn pull_encoder_serves_the_header_first() {
    let mut encoder = Bz3Encoder::new(BLOCK_SIZE_MIN).unwrap();
    assert_eq!(encoder.demand(), Demand::Ready);
    let mut buf = [0xee_u8; 4];
    assert_eq!(encoder.read(&mut buf), 4);
    assert_eq!(&buf, b"BZ3v");
    assert_eq!(encoder.demand(), Demand::Ready);
    let mut buf = [0xee_u8; 8];
    assert_eq!(encoder.read(&mut buf), 5);
    assert_eq!(buf, [b'1', 0x00, 0x04, 0x01, 0x00, 0xee, 0xee, 0xee]);
    assert_eq!(encoder.demand(), Demand::Block { block_size: BLOCK_SIZE_MIN });
    assert_eq!(encoder.read(&mut buf), 0);
}

#[test]
fn pull_encoder_reads_into_no_buffer() {
    let mut encoder = Bz3Encoder::new(BLOCK_SIZE_MIN).unwrap();
    assert_eq!(encoder.read(&mut []), 0);
    assert_eq!(encoder.demand(), Demand::Ready);
    let mut buf = [0_u8; 9];
    assert_eq!(encoder.read(&mut buf), 9);
    assert_eq!(buf.to_vec(), write_header(BLOCK_SIZE_MIN));
}

#[test]
fn pull_encoder_serves_a_record_for_each_block() {
    let mut encoder = Bz3Encoder::new(BLOCK_SIZE_MIN).unwrap();
    let mut buf = [0_u8; 64];
    assert_eq!(encoder.read(&mut buf), 9);
    // a full block: the source may have more
    encoder.compress_block(BLOCK_SIZE_MIN, &HELLO_BLOCK[8..]);
    assert_eq!(encoder.demand(), Demand::Ready);
    assert_eq!(encoder.read(&mut buf), 21);
    let mut expected = vec![0x0d, 0, 0, 0, 0x00, 0x04, 0x01, 0x00];
    expected.extend_from_slice(&HELLO_BLOCK[8..]);
    assert_eq!(&buf[..21], expected.as_slice());
    assert_eq!(encoder.demand(), Demand::Block { block_size: BLOCK_SIZE_MIN });
    // a short block: the source has ended
    encoder.compress_block(5, &HELLO_BLOCK[8..]);
    assert_eq!(encoder.demand(), Demand::Ready);
    assert_eq!(encoder.read(&mut buf[..20]), 20);
    assert_eq!(encoder.demand(), Demand::Ready);
    assert_eq!(encoder.read(&mut buf[20..]), 1);
    assert_eq!(&buf[..21], &HELLO_BLOCK);
    assert_eq!(encoder.demand(), Demand::End);
    assert_eq!(encoder.read(&mut buf), 0);
    assert_eq!(encoder.demand(), Demand::End);
}

#[test]
fn pull_encoder_makes_no_record_of_nothing() {
    let mut encoder = Bz3Encoder::new(BLOCK_SIZE_MIN).unwrap();
    let mut buf = [0_u8; 64];
    assert_eq!(encoder.read(&mut buf), 9);
    encoder.compress_block(BLOCK_SIZE_MIN, &HELLO_BLOCK[8..]);
    assert_eq!(encoder.read(&mut buf), 21);
    // the source ends where a block ends
    encoder.compress_block(0, &EMPTY_BLOCK[8..]);
    assert_eq!(encoder.demand(), Demand::End);
    assert_eq!(encoder.read(&mut buf), 0);
}

#[test]
fn pull_encoder_splits_the_source_into_blocks() {
    let block_size = BLOCK_SIZE_MIN;
    for len in [1, block_size - 1, block_size, block_size + 1, 2 * block_size, 2 * block_size + 5] {
        let data: Vec<u8> = (0..len).map(|i| (i % 253) as u8).collect();
        let whole = encode(&data, block_size, len + 100);
        let blocks = (len + block_size - 1) / block_size;
        assert_eq!(whole.len(), 9 + 8 * blocks + len);
        assert_eq!(&whole[..9], write_header(block_size).as_slice());
        let first = len.min(block_size);
        assert_eq!(&whole[9..13], (first as i32).to_le_bytes());
        assert_eq!(&whole[13..17], (first as i32).to_le_bytes());
        assert_eq!(&whole[17..17 + first], &data[..first]);
        for chunk in [1, 7, 4096] {
            assert_eq!(encode(&data, block_size, chunk), whole);
        }
    }
}

#[test]
fn pull_decoder_refuses_block_size_out_of_range() {
    assert!(matches!(Bz3Decoder::new(BLOCK_SIZE_MIN - 1, 1 << 20), Err(Error::BlockSize)));
    assert!(matches!(Bz3Decoder::new(BLOCK_SIZE_MAX + 1, 1 << 30), Err(Error::BlockSize)));
    assert_eq!(Bz3Decoder::new(BLOCK_SIZE_MIN, 1 << 20).unwrap().block_size(), BLOCK_SIZE_MIN);
    assert_eq!(Bz3Decoder::new(BLOCK_SIZE_MAX, 1 << 30).unwrap().block_size(), BLOCK_SIZE_MAX);
}

#[test]
fn pull_decoder_of_no_record_serves_nothing() {
    assert_eq!(decode(BLOCK_SIZE_MIN, &[], 10).unwrap(), Vec::<u8>::new());
    let mut decoder = Bz3Decoder::new(BLOCK_SIZE_MIN, 100).unwrap();
    assert_eq!(decoder.demand(), Demand::BlockHeader);
    let mut buf = [0_u8; 4];
    assert_eq!(decoder.read(&mut buf), 0);
    decoder.read_block_header(&[]).unwrap();
    assert_eq!(decoder.demand(), Demand::End);
    assert_eq!(decoder.read(&mut buf), 0);
    assert_eq!(decoder.demand(), Demand::End);
}

#[test]
fn pull_decoder_skips_empty_blocks() {
    let mut records = Vec::new();
    for _ in 0..10 {
        records.extend_from_slice(&EMPTY_BLOCK);
    }
    records.extend_from_slice(&HELLO_BLOCK);
    records.extend_from_slice(&EMPTY_BLOCK);
    records.extend_from_slice(&HELLO_BLOCK);
    records.extend_from_slice(&EMPTY_BLOCK);
    for chunk in [1, 2, 5, 6, 100] {
        assert_eq!(decode(16 * 1024 * 1024, &records, chunk).unwrap(), b"hellohello");
    }
}

#[test]
fn pull_decoder_asks_for_the_next_record_after_an_empty_block() {
    let mut decoder = Bz3Decoder::new(BLOCK_SIZE_MIN, 100).unwrap();
    decoder.read_block_header(&EMPTY_BLOCK[..8]).unwrap();
    assert_eq!(decoder.demand(), Demand::BlockData { new_size: 8, read_size: 0 });
    decoder.decompress_block(&[]);
    assert_eq!(decoder.demand(), Demand::BlockHeader);
    decoder.read_block_header(&HELLO_BLOCK[..8]).unwrap();
    assert_eq!(decoder.demand(), Demand::BlockData { new_size: 13, read_size: 5 });
    decoder.decompress_block(b"hello");
    assert_eq!(decoder.demand(), Demand::Ready);
    let mut buf = [0xee_u8; 3];
    assert_eq!(decoder.read(&mut buf), 3);
    assert_eq!(&buf, b"hel");
    assert_eq!(decoder.demand(), Demand::Ready);
    let mut buf = [0xee_u8; 3];
    assert_eq!(decoder.read(&mut buf), 2);
    assert_eq!(&buf, b"lo\xee");
    assert_eq!(decoder.demand(), Demand::BlockHeader);
}

#[test]
fn pull_decoder_refuses_lengths_cut_short() {
    for len in 1..8 {
        let mut decoder = Bz3Decoder::new(BLOCK_SIZE_MIN, 100).unwrap();
        match decoder.read_block_header(&HELLO_BLOCK[..len]) {
            Err(Error::Io(e)) => {
                assert_eq!(e.kind, ErrorKind::UnexpectedEof);
                assert_eq!(e.message, "Corrupt file; insufficient block head info");
            }
            other => panic!("{:?}", other),
        }
        // nothing has changed
        assert_eq!(decoder.demand(), Demand::BlockHeader);
    }
    let mut records = HELLO_BLOCK.to_vec();
    records.extend_from_slice(&HELLO_BLOCK[..3]);
    assert!(matches!(decode(BLOCK_SIZE_MIN, &records, 10), Err(Error::Io(_))));
}

#[test]
fn pull_decoder_refuses_lengths_out_of_range() {
    let lengths: [(i32, i32); 5] = [
        (101, 5),
        (-1, 5),
        (13, -1),
        (13, BLOCK_SIZE_MIN as i32 + 1),
        (i32::MIN, i32::MAX),
    ];
    for (new_size, read_size) in lengths {
        let mut decoder = Bz3Decoder::new(BLOCK_SIZE_MIN, 100).unwrap();
        let mut bytes = Vec::new();
        bytes.extend_from_slice(&new_size.to_le_bytes());
        bytes.extend_from_slice(&read_size.to_le_bytes());
        assert!(matches!(decoder.read_block_header(&bytes), Err(Error::BlockSize)));
        assert_eq!(decoder.demand(), Demand::BlockHeader);
    }
    let mut decoder = Bz3Decoder::new(BLOCK_SIZE_MIN, 100).unwrap();
    let mut bytes = Vec::new();
    bytes.extend_from_slice(&100_i32.to_le_bytes());
    bytes.extend_from_slice(&(BLOCK_SIZE_MIN as i32).to_le_bytes());
    decoder.read_block_header(&bytes).unwrap();
    assert_eq!(
        decoder.demand(),
        Demand::BlockData { new_size: 100, read_size: BLOCK_SIZE_MIN }
    );
}

#[test]
fn pull_encoder_and_decoder_agree() {
    let block_size = BLOCK_SIZE_MIN;
    for len in [0, 1, block_size, block_size + 1, 3 * block_size + 17] {
        let data: Vec<u8> = (0..len).map(|i| (i % 251) as u8).collect();
        // a codec that stores: eight bytes, then the block
        let mut encoder = Bz3Encoder::new(block_size).unwrap();
        let mut source = data.as_slice();
        let mut stream = Vec::new();
        let mut buf = vec![0_u8; 1000];
        loop {
            match encoder.demand() {
                Demand::Ready => {
                    let size = encoder.read(&mut buf);
                    stream.extend_from_slice(&buf[..size]);
                }
                Demand::Block { block_size } => {
                    let read_size = source.len().min(block_size);
                    let mut compressed = vec![0xab_u8; 8];
                    compressed.extend_from_slice(&source[..read_size]);
                    encoder.compress_block(read_size, &compressed);
                    source = &source[read_size..];
                }
                _ => break,
            }
        }
        assert_eq!(bzip3::format::read_header(&stream[..9]).unwrap(), block_size);
        for chunk in [1, 1000, 100_000] {
            assert_eq!(decode(block_size, &stream[9..], chunk).unwrap(), data);
        }
    }
}
