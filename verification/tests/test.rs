use std::io::{self, Cursor, Read, Write};

use bytesize::{ByteSize, MIB};
use rand::{thread_rng, RngCore};

use bzip3::errors::{Error, ErrorKind, IoError};
use bzip3::format::read_header;
use bzip3::read::Demand;
use bzip3::write::Action;
use bzip3::{Bz3State, TryReadExact, BLOCK_SIZE_MAX, BLOCK_SIZE_MIN, MAGIC_NUMBER};

const KB: usize = 1024;

// A block codec that stores every block as it is: a checksum, the mark of a
// stored block, then the bytes. These are the bytes of a stream's small
// blocks, which are stored.

const STORED: [u8; 4] = [0xff, 0xff, 0xff, 0xff];

fn bound(input: usize) -> usize {
    input + input / 50 + 32
}

fn checksum(data: &[u8]) -> u32 {
    let mut sum = 1_u32;
    for &byte in data {
        sum ^= byte as u32;
        for _ in 0..8 {
            sum = if sum & 1 == 1 {
                (sum >> 1) ^ 0x82f6_3b78
            } else {
                sum >> 1
            };
        }
    }
    sum
}

struct Codec {
    state: Bz3State,
    error: &'static str,
}

impl Codec {
    fn new(block_size: usize) -> Result<Self, Error> {
        Ok(Codec {
            state: Bz3State::new(block_size)?,
            error: "No error",
        })
    }

    fn encode_block(&mut self, buf: &mut [u8], input_size: usize) -> Result<usize, Error> {
        assert!(input_size <= self.state.block_size());
        assert!(buf.len() >= bound(input_size));
        let sum = checksum(&buf[..input_size]);
        buf.copy_within(..input_size, 8);
        buf[..4].copy_from_slice(&sum.to_le_bytes());
        buf[4..8].copy_from_slice(&STORED);
        let code = (input_size + 8) as i32;
        self.state.encode_block(code, self.error)
    }

    fn decode_block(
        &mut self,
        buf: &mut [u8],
        compressed_size: usize,
        original_size: usize,
    ) -> Result<(), Error> {
        assert!(buf.len() >= original_size && buf.len() >= compressed_size);
        let code = if compressed_size < 8 || buf[4..8] != STORED {
            self.error = "Malformed header";
            -1
        } else if buf[..4] != checksum(&buf[8..compressed_size]).to_le_bytes() {
            self.error = "CRC32 check failed";
            -1
        } else {
            buf.copy_within(8..compressed_size, 0);
            (compressed_size - 8) as i32
        };
        self.state.decode_block(original_size, code, self.error)
    }
}

fn into_io(e: Error) -> io::Error {
    let IoError { kind, message } = e.into_io_error();
    let kind = match kind {
        ErrorKind::UnexpectedEof => io::ErrorKind::UnexpectedEof,
        ErrorKind::Other => io::ErrorKind::Other,
    };
    io::Error::new(kind, message)
}

fn try_read_exact<R: Read>(reader: &mut R, buf: &mut [u8]) -> io::Result<usize> {
    let mut pull = TryReadExact::new(buf.len());
    loop {
        let r = reader.read(&mut buf[pull.read()..])?;
        assert!(r <= buf.len() - pull.read());
        if let Some(total) = pull.try_read_exact(r) {
            return Ok(total);
        }
    }
}

// The four adapters over a source or a sink.

struct ReadEncoder<R: Read> {
    core: bzip3::read::Bz3Encoder,
    codec: Codec,
    reader: R,
    work: Vec<u8>,
}

impl<R: Read> ReadEncoder<R> {
    fn new(reader: R, block_size: usize) -> Result<Self, Error> {
        let core = bzip3::read::Bz3Encoder::new(block_size)?;
        Ok(ReadEncoder {
            core,
            codec: Codec::new(block_size)?,
            reader,
            work: vec![0; bound(block_size)],
        })
    }
}

impl<R: Read> Read for ReadEncoder<R> {
    fn read(&mut self, buf: &mut [u8]) -> io::Result<usize> {
        loop {
            match self.core.demand() {
                Demand::Ready => return Ok(self.core.read(buf)),
                Demand::End => return Ok(0),
                Demand::Block { block_size } => {
                    let read_size = try_read_exact(&mut self.reader, &mut self.work[..block_size])?;
                    let new_size = self
                        .codec
                        .encode_block(&mut self.work, read_size)
                        .map_err(into_io)?;
                    self.core.compress_block(read_size, &self.work[..new_size]);
                }
                _ => unreachable!(),
            }
        }
    }
}

struct ReadDecoder<R: Read> {
    core: bzip3::read::Bz3Decoder,
    codec: Codec,
    reader: R,
    work: Vec<u8>,
}

impl<R: Read> ReadDecoder<R> {
    fn new(mut reader: R) -> Result<Self, Error> {
        let mut header = [0_u8; 9];
        let got = match try_read_exact(&mut reader, &mut header) {
            Ok(got) => got,
            Err(e) => {
                return Err(Error::Io(IoError {
                    kind: ErrorKind::Other,
                    message: e.to_string(),
                }))
            }
        };
        let block_size = read_header(&header[..got])?;
        let core = bzip3::read::Bz3Decoder::new(block_size, bound(block_size))?;
        Ok(ReadDecoder {
            core,
            codec: Codec::new(block_size)?,
            reader,
            work: vec![0; bound(block_size)],
        })
    }

    fn block_size(&self) -> usize {
        self.core.block_size()
    }
}

impl<R: Read> Read for ReadDecoder<R> {
    fn read(&mut self, buf: &mut [u8]) -> io::Result<usize> {
        loop {
            match self.core.demand() {
                Demand::Ready => return Ok(self.core.read(buf)),
                Demand::End => return Ok(0),
                Demand::BlockHeader => {
                    let mut header = [0_u8; 8];
                    let got = try_read_exact(&mut self.reader, &mut header)?;
                    self.core.read_block_header(&header[..got]).map_err(into_io)?;
                }
                Demand::BlockData { new_size, read_size } => {
                    self.reader.read_exact(&mut self.work[..new_size])?;
                    self.codec
                        .decode_block(&mut self.work, new_size, read_size)
                        .map_err(into_io)?;
                    self.core.decompress_block(&self.work[..read_size]);
                }
                _ => unreachable!(),
            }
        }
    }
}

struct WriteEncoder<W: Write> {
    core: bzip3::write::Bz3Encoder,
    codec: Codec,
    writer: W,
    work: Vec<u8>,
}

impl<W: Write> WriteEncoder<W> {
    fn new(mut writer: W, block_size: usize) -> Result<Self, Error> {
        let (core, header) = bzip3::write::Bz3Encoder::new(block_size)?;
        if let Err(e) = writer.write_all(&header) {
            return Err(Error::Io(IoError {
                kind: ErrorKind::Other,
                message: e.to_string(),
            }));
        }
        Ok(WriteEncoder {
            core,
            codec: Codec::new(block_size)?,
            writer,
            work: vec![0; bound(block_size)],
        })
    }

    fn compress_block(&mut self) -> io::Result<()> {
        let data_size = self.core.block().len();
        self.work[..data_size].copy_from_slice(self.core.block());
        let new_size = self
            .codec
            .encode_block(&mut self.work, data_size)
            .map_err(into_io)?;
        let record = self.core.compress_block(&self.work[..new_size]);
        self.writer.write_all(&record)
    }
}

impl<W: Write> Write for WriteEncoder<W> {
    fn write(&mut self, buf: &[u8]) -> io::Result<usize> {
        let written = self.core.write(buf);
        if written.action == Action::Compress {
            self.compress_block()?;
        }
        Ok(written.size)
    }

    fn flush(&mut self) -> io::Result<()> {
        if self.core.flush() == Action::Compress {
            self.compress_block()?;
        }
        Ok(())
    }
}

impl<W: Write> Drop for WriteEncoder<W> {
    fn drop(&mut self) {
        let _ = self.flush();
    }
}

struct WriteDecoder<W: Write> {
    core: bzip3::write::Bz3Decoder,
    codec: Option<Codec>,
    writer: W,
    work: Vec<u8>,
}

impl<W: Write> WriteDecoder<W> {
    fn new(writer: W) -> Self {
        WriteDecoder {
            core: bzip3::write::Bz3Decoder::new(),
            codec: None,
            writer,
            work: Vec::new(),
        }
    }
}

impl<W: Write> Write for WriteDecoder<W> {
    fn write(&mut self, buf: &[u8]) -> io::Result<usize> {
        let written = self.core.write(buf).map_err(into_io)?;
        match written.action {
            Action::Initialize { block_size } => {
                self.codec = Some(Codec::new(block_size).map_err(into_io)?);
                self.work = vec![0; bound(block_size)];
                self.core.initialize(bound(block_size)).map_err(into_io)?;
            }
            Action::Decompress { new_size, read_size } => {
                self.work[..new_size].copy_from_slice(self.core.block());
                let codec = self.codec.as_mut().unwrap();
                codec
                    .decode_block(&mut self.work, new_size, read_size)
                    .map_err(into_io)?;
                self.writer.write_all(&self.work[..read_size])?;
                self.core.decompress_block();
            }
            _ => {}
        }
        Ok(written.size)
    }

    fn flush(&mut self) -> io::Result<()> {
        Ok(())
    }
}

#[test]
fn compress_and_decompress_parallel() {
    let test_size_array = [
        0_usize,
        1,
        2,
        3,
        4,
        5,
        8191,
        8192,
        8193,
        1048576,
        ByteSize::mib(10).0 as usize,
        ByteSize::mib(30).0 as usize,
    ];
    let block_size_array = [
        ByteSize::kib(65),
        ByteSize::kib(100),
        ByteSize::mib(1),
        ByteSize::mib(5),
        ByteSize::mib(10),
    ]
    .map(|x| x.0 as usize);

    rayon::scope(|scope| {
        for data_size in test_size_array {
            for block_size in block_size_array {
                scope.spawn(move |_| {
                    println!("Test read-based: {:?}", (data_size, block_size));
                    test_read_based(data_size, block_size);
                });
                scope.spawn(move |_| {
                    println!("Test write-based: {:?}", (data_size, block_size));
                    test_write_based(data_size, block_size);
                });
            }
        }
    });
}

#[test]
fn test_compressing_and_decompressing_small_input() {
    // Input to be compressed and decompressed
    let input: &[u8] = &[1, 2, 3];

    let compressed = {
        let mut output = vec![];
        io::copy(
            &mut &*input,
            &mut WriteEncoder::new(&mut output, 100 * KB).unwrap(),
        )
        .unwrap();

        output
    };

    let decompressed = {
        let mut output = vec![];
        io::copy(
            &mut ReadDecoder::new(compressed.as_slice()).unwrap(),
            &mut output,
        )
        .unwrap();

        output
    };

    assert_eq!(input, decompressed);

    // Input to be compressed and decompressed
    let input: &[u8] = &[1, 2, 3];

    let compressed = {
        let mut output = vec![];
        io::copy(
            &mut ReadEncoder::new(input, 100 * KB).unwrap(),
            &mut output,
        )
        .unwrap();

        output
    };

    let decompressed = {
        let mut output = vec![];
        io::copy(&mut &*compressed, &mut WriteDecoder::new(&mut output)).unwrap();

        output
    };

    assert_eq!(input, decompressed);
}

#[test]
fn test_chained_encoders_and_decoders_with_single_block() {
    let input = generate_deterministic_data(100 * KB);
    let mut reader = create_encoder_chain(input.as_slice(), 10, 70 * KB);

    let mut output = vec![];
    let mut writer = create_decoder_chain(10, &mut output);

    io::copy(&mut reader, &mut writer).unwrap();

    drop(writer);
    assert_eq!(input, output);
}

#[test]
fn test_chained_encoders_and_decoders_with_multiple_blocks() {
    let input = generate_deterministic_data(1400 * KB);
    let mut reader = create_encoder_chain(input.as_slice(), 10, 70 * KB);

    let mut output = vec![];
    let mut writer = create_decoder_chain(10, &mut output);

    io::copy(&mut reader, &mut writer).unwrap();

    drop(writer);
    assert_eq!(input, output);
}

#[test]
fn avoid_creating_empty_blocks_by_flush_calls() {
    let mut buf = Vec::new();
    let mut encoder = WriteEncoder::new(&mut buf, 16 * MIB as usize).unwrap();
    encoder.flush().unwrap();
    encoder.flush().unwrap();
    encoder.flush().unwrap();
    encoder.flush().unwrap();
    drop(encoder);
    assert_eq!(buf, {
        let mut vec = Vec::from(*MAGIC_NUMBER);
        vec.extend_from_slice(&[0x00, 0x00, 0x00, 0x01]);
        vec
    });

    let mut buf = Vec::new();
    let mut encoder = WriteEncoder::new(&mut buf, 16 * MIB as usize).unwrap();
    encoder.flush().unwrap();
    encoder.write_all(b"hello").unwrap();
    drop(encoder);
    assert_eq!(find_subsequence(&buf, &EMPTY_BLOCK), None);
}

const EMPTY_BLOCK: [u8; 16] = [
    0x08, 0x00, 0x00, 0x00, 0x00, 0x00, 0x00, 0x00, 0x01, 0x00, 0x00, 0x00, 0xff, 0xff, 0xff, 0xff,
];

const HELLO_BLOCK: [u8; 21] = [
    0x0d, 0x00, 0x00, 0x00, 0x05, 0x00, 0x00, 0x00, 0xd5, 0xa2, 0x12, 0xe7, 0xff, 0xff, 0xff, 0xff,
    0x68, 0x65, 0x6c, 0x6c, 0x6f,
];

#[test]
fn decode_empty_blocks() {
    let block_size = [0x00, 0x00, 0x00, 0x01];
    let data_block = HELLO_BLOCK;
    let mut archive: Vec<u8> = Vec::new();
    archive.write_all(MAGIC_NUMBER).unwrap();
    archive.write_all(&block_size).unwrap();
    for _ in 0..10 {
        archive.write_all(&EMPTY_BLOCK).unwrap();
    }
    archive.write_all(&data_block).unwrap();
    archive.write_all(&EMPTY_BLOCK).unwrap();
    archive.write_all(&data_block).unwrap();

    // read-based
    let decoder = ReadDecoder::new(archive.as_slice()).unwrap();
    assert_eq!(io::read_to_string(decoder).unwrap(), "hellohello");

    // write-based
    let mut writer = Cursor::new(Vec::new());
    let mut decoder = WriteDecoder::new(&mut writer);
    io::copy(&mut Cursor::new(archive), &mut decoder).unwrap();
    drop(decoder);
    assert_eq!(
        String::from_utf8(writer.into_inner()).unwrap(),
        "hellohello"
    );
}

fn create_encoder_chain<'a>(
    reader: impl Read + 'a,
    chain_size: usize,
    block_size: usize,
) -> Box<dyn Read + 'a> {
    assert!(chain_size >= 1);
    let mut encoder: Box<dyn Read> = Box::new(ReadEncoder::new(reader, block_size).unwrap());

    for _ in 1..chain_size {
        encoder = Box::new(ReadEncoder::new(encoder, block_size).unwrap());
    }

    encoder
}

fn create_decoder_chain<'a>(chain_size: usize, reader: impl Write + 'a) -> Box<dyn Write + 'a> {
    assert!(chain_size >= 1);
    let mut decoder: Box<dyn Write> = Box::new(WriteDecoder::new(reader));

    for _ in 1..chain_size {
        decoder = Box::new(WriteDecoder::new(decoder));
    }

    decoder
}

fn test_write_based(data_size: usize, block_size: usize) {
    let data = generate_random_data(data_size);
    let mut reader = Cursor::new(&data);
    let mut writer = Cursor::new(Vec::new());

    let mut encoder = WriteEncoder::new(&mut writer, block_size).unwrap();
    io::copy(&mut reader, &mut encoder).unwrap();
    drop(encoder);

    let compressed = writer.into_inner();

    let mut reader = Cursor::new(compressed);
    let mut writer = Cursor::new(Vec::new());

    let mut decoder = WriteDecoder::new(&mut writer);
    io::copy(&mut reader, &mut decoder).unwrap();
    drop(decoder);

    assert_eq!(writer.into_inner(), data);
}

fn test_read_based(data_size: usize, block_size: usize) {
    let mut data = generate_random_data(data_size);

    let mut compressed = Cursor::new(Vec::new());
    {
        let mut reader = Cursor::new(&mut data);
        let mut encoder = ReadEncoder::new(&mut reader, block_size).unwrap();
        io::copy(&mut encoder, &mut compressed).unwrap();
    }
    let compressed = compressed.into_inner();

    let mut uncompressed = Cursor::new(Vec::new());
    {
        let mut reader = Cursor::new(compressed);
        let mut decoder = ReadDecoder::new(&mut reader).unwrap();
        assert_eq!(decoder.block_size(), block_size);
        io::copy(&mut decoder, &mut uncompressed).unwrap();
    }

    assert_eq!(uncompressed.get_ref().as_slice(), data.as_slice());
}

fn generate_random_data(size: usize) -> Vec<u8> {
    let mut rng = thread_rng();

    let mut data = vec![0_u8; size];
    rng.fill_bytes(&mut data);
    data
}

fn generate_deterministic_data(size: usize) -> Vec<u8> {
    let mut string = String::with_capacity(size + 20);

    for number in 0..u64::MAX {
        if string.len() > size {
            break;
        }
        string.push_str(&format!("{number}"));
    }

    string.truncate(size);
    string.into_bytes()
}

fn find_subsequence(haystack: &[u8], needle: &[u8]) -> Option<usize> {
    haystack
        .windows(needle.len())
        .position(|window| window == needle)
}

#[test]
fn block_size() {
    assert!(Bz3State::new(BLOCK_SIZE_MIN).is_ok());
    assert!(Bz3State::new(BLOCK_SIZE_MAX).is_ok());
    assert!(Bz3State::new(BLOCK_SIZE_MIN - 1).is_err());
    assert!(Bz3State::new(BLOCK_SIZE_MAX + 1).is_err());
}

fn encode_by_read(data: &[u8], block_size: usize) -> Vec<u8> {
    let mut output = vec![];
    io::copy(&mut ReadEncoder::new(data, block_size).unwrap(), &mut output).unwrap();
    output
}

fn encode_by_write(data: &[u8], block_size: usize) -> Vec<u8> {
    let mut output = vec![];
    let mut encoder = WriteEncoder::new(&mut output, block_size).unwrap();
    encoder.write_all(data).unwrap();
    drop(encoder);
    output
}

fn decode_by_read(stream: &[u8]) -> io::Result<Vec<u8>> {
    let mut output = vec![];
    let mut decoder = ReadDecoder::new(stream).map_err(into_io)?;
    decoder.read_to_end(&mut output)?;
    Ok(output)
}

fn decode_by_write(stream: &[u8], chunk: usize) -> io::Result<Vec<u8>> {
    let mut output = vec![];
    let mut decoder = WriteDecoder::new(&mut output);
    for piece in stream.chunks(chunk) {
        decoder.write_all(piece)?;
    }
    drop(decoder);
    Ok(output)
}

#[test]
fn round_trip_with_every_pair_of_adapters() {
    let block_size = 70 * KB;
    for size in [0, 1, 63, 64, block_size - 1, block_size, block_size + 1, 5 * block_size + 3] {
        let data = generate_deterministic_data(size);
        let by_read = encode_by_read(&data, block_size);
        let by_write = encode_by_write(&data, block_size);
        assert_eq!(by_read, by_write);
        assert_eq!(decode_by_read(&by_read).unwrap(), data);
        assert_eq!(decode_by_write(&by_read, 4096).unwrap(), data);
        assert_eq!(decode_by_read(&by_write).unwrap(), data);
        assert_eq!(decode_by_write(&by_write, 4096).unwrap(), data);
    }
}

#[test]
fn stream_of_small_blocks_is_byte_exact() {
    let stream = encode_by_write(b"hello", 16 * MIB as usize);
    let mut expected = Vec::from(*MAGIC_NUMBER);
    expected.extend_from_slice(&[0x00, 0x00, 0x00, 0x01]);
    expected.extend_from_slice(&HELLO_BLOCK);
    assert_eq!(stream, expected);
    assert_eq!(encode_by_read(b"hello", 16 * MIB as usize), expected);
}

#[test]
fn write_decoder_fed_one_byte_at_a_time() {
    let data = generate_deterministic_data(200 * KB);
    let stream = encode_by_read(&data, 70 * KB);
    let whole = decode_by_write(&stream, stream.len()).unwrap();
    let bytewise = decode_by_write(&stream, 1).unwrap();
    assert_eq!(whole, data);
    assert_eq!(bytewise, whole);
    for chunk in [2, 3, 8, 9, 17, 1000] {
        assert_eq!(decode_by_write(&stream, chunk).unwrap(), whole);
    }
}

#[test]
fn read_adapters_read_one_byte_at_a_time() {
    let data = generate_deterministic_data(100 * KB);
    let mut encoder = ReadEncoder::new(data.as_slice(), 70 * KB).unwrap();
    let mut stream = vec![];
    let mut byte = [0_u8; 1];
    assert_eq!(encoder.read(&mut []).unwrap(), 0);
    while encoder.read(&mut byte).unwrap() == 1 {
        stream.push(byte[0]);
    }
    assert_eq!(encoder.read(&mut byte).unwrap(), 0);
    assert_eq!(stream, encode_by_read(&data, 70 * KB));

    let mut decoder = ReadDecoder::new(stream.as_slice()).unwrap();
    let mut plain = vec![];
    while decoder.read(&mut byte).unwrap() == 1 {
        plain.push(byte[0]);
    }
    assert_eq!(decoder.read(&mut byte).unwrap(), 0);
    assert_eq!(plain, data);
}

#[test]
fn empty_input_is_the_header_alone() {
    let mut expected = Vec::from(*MAGIC_NUMBER);
    expected.extend_from_slice(&[0x00, 0x18, 0x01, 0x00]);
    let by_read = encode_by_read(&[], 70 * KB);
    let by_write = encode_by_write(&[], 70 * KB);
    assert_eq!(by_read.len(), 9);
    assert_eq!(by_read, expected);
    assert_eq!(by_write, expected);
    assert_eq!(decode_by_read(&expected).unwrap(), Vec::<u8>::new());
    assert_eq!(decode_by_write(&expected, 1).unwrap(), Vec::<u8>::new());
}

#[test]
fn chained_encoders_with_their_own_block_sizes() {
    let input = generate_deterministic_data(300 * KB);
    let block_sizes = [70 * KB, 65 * KB, 1024 * KB, 100 * KB];

    let mut reader: Box<dyn Read> = Box::new(input.as_slice());
    for block_size in block_sizes {
        reader = Box::new(ReadEncoder::new(reader, block_size).unwrap());
    }
    let mut stream = vec![];
    reader.read_to_end(&mut stream).unwrap();

    let mut output = vec![];
    {
        let mut writer: Box<dyn Write> = Box::new(&mut output);
        for _ in block_sizes {
            writer = Box::new(WriteDecoder::new(writer));
        }
        writer.write_all(&stream).unwrap();
    }
    assert_eq!(input, output);

    // and through the decoders that read
    let mut reader: Box<dyn Read> = Box::new(stream.as_slice());
    for block_size in block_sizes.iter().rev() {
        let decoder = ReadDecoder::new(reader).unwrap();
        assert_eq!(decoder.block_size(), *block_size);
        reader = Box::new(decoder);
    }
    let mut output = vec![];
    reader.read_to_end(&mut output).unwrap();
    assert_eq!(input, output);
}

#[test]
fn wrong_signature_fails_before_any_block() {
    let mut stream = encode_by_read(b"hello", 70 * KB);
    stream[0] = b'b';
    assert!(matches!(ReadDecoder::new(stream.as_slice()), Err(Error::InvalidSignature)));
    let e = decode_by_write(&stream, 1).unwrap_err();
    assert_eq!(e.kind(), io::ErrorKind::Other);
    assert_eq!(e.to_string(), "Invalid file signature");
    let mut output = vec![];
    let mut decoder = WriteDecoder::new(&mut output);
    assert!(decoder.write_all(&stream).is_err());
    drop(decoder);
    assert!(output.is_empty());
}

#[test]
fn block_size_in_the_header_out_of_range() {
    for block_size in [BLOCK_SIZE_MIN - 1, BLOCK_SIZE_MAX + 1] {
        let mut stream = Vec::from(*MAGIC_NUMBER);
        stream.extend_from_slice(&(block_size as u32).to_le_bytes());
        stream.extend_from_slice(&HELLO_BLOCK);
        assert!(matches!(ReadDecoder::new(stream.as_slice()), Err(Error::BlockSize)));
        let e = decode_by_write(&stream, 5).unwrap_err();
        assert_eq!(e.to_string(), "Invalid block size: must be between 65kiB and 511MiB");
    }
    assert!(matches!(ReadEncoder::new(&[][..], BLOCK_SIZE_MIN - 1), Err(Error::BlockSize)));
    assert!(matches!(WriteEncoder::new(vec![], BLOCK_SIZE_MAX + 1), Err(Error::BlockSize)));
    assert!(ReadEncoder::new(&[][..], BLOCK_SIZE_MIN).is_ok());
    assert!(ReadEncoder::new(&[][..], BLOCK_SIZE_MAX).is_ok());
}

#[test]
fn record_cut_short() {
    let stream = encode_by_read(b"hello", 70 * KB);
    // inside the two lengths
    let e = decode_by_read(&stream[..12]).unwrap_err();
    assert_eq!(e.kind(), io::ErrorKind::UnexpectedEof);
    assert_eq!(e.to_string(), "Corrupt file; insufficient block head info");
    // inside the payload
    let e = decode_by_read(&stream[..stream.len() - 1]).unwrap_err();
    assert_eq!(e.kind(), io::ErrorKind::UnexpectedEof);
}

#[test]
fn codec_rejects_a_block() {
    let mut stream = encode_by_read(b"hello", 70 * KB);
    let last = stream.len() - 1;
    stream[last] ^= 1;
    let e = decode_by_read(&stream).unwrap_err();
    assert_eq!(e.kind(), io::ErrorKind::Other);
    assert_eq!(e.to_string(), "CRC32 check failed");
    let e = decode_by_write(&stream, 3).unwrap_err();
    assert_eq!(e.to_string(), "CRC32 check failed");

    // the record declares one byte more than the block holds
    let mut stream = encode_by_read(b"hello", 70 * KB);
    stream[13] = 6;
    let e = decode_by_read(&stream).unwrap_err();
    assert_eq!(e.to_string(), "Data not match the origin size after decompression");
    let e = decode_by_write(&stream, 100).unwrap_err();
    assert_eq!(e.to_string(), "Data not match the origin size after decompression");
}
