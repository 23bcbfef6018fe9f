use std::cell::Cell;
use std::fmt;
use std::io::{self, Cursor, Read, Seek, SeekFrom, Write};
use std::mem;
use std::ops::{Bound, RangeBounds};
use std::rc::Rc;

use fast_floe::io::{
    complete_header, DrainStep, FinishStep, ReadProgress, ReadStep, StreamError, StreamErrorKind,
    WriteStep,
};
use fast_floe::low_level::{
    start_decryption, start_decryption_inferred, start_encryption, DecryptionState,
};
use fast_floe::online::{Decryptor, Encryptor};
use fast_floe::random_access::{
    remaining_length, validate_header_bound, MessageLayout, RangeBound, RangeRead, RangeStep,
    Request, SeekTarget, SegmentStep,
};
use fast_floe::{
    decrypt, decrypt_with_parameters, encrypt, Error, Header, Key, LengthRequirement, Parameters,
    Provider, SEGMENT_PREFIX_LENGTH,
};
use zeroize::Zeroizing;

/// A FLOE error as the source of an `io::Error`.
#[derive(Debug)]
struct Source(Error);

impl fmt::Display for Source {
    fn fmt(&self, formatter: &mut fmt::Formatter<'_>) -> fmt::Result {
        formatter.write_str(&self.0.to_string())
    }
}

impl std::error::Error for Source {}

fn stream_error(error: StreamError) -> io::Error {
    let kind = match error.kind() {
        StreamErrorKind::Other => io::ErrorKind::Other,
        StreamErrorKind::BrokenPipe => io::ErrorKind::BrokenPipe,
        StreamErrorKind::InvalidData => io::ErrorKind::InvalidData,
        StreamErrorKind::InvalidInput => io::ErrorKind::InvalidInput,
    };
    match error.source() {
        Some(source) => io::Error::new(kind, Source(source)),
        None => io::Error::new(kind, error.to_string()),
    }
}

fn crate_error(error: &io::Error) -> Option<&Error> {
    error
        .get_ref()
        .and_then(|source| source.downcast_ref::<Source>())
        .map(|source| &source.0)
}

fn test_key() -> Key {
    Key::from_bytes_with_provider([0; Key::LEN], Provider::COMPILED[0])
}

fn read_fully(reader: &mut impl Read, output: &mut [u8]) -> io::Result<usize> {
    let mut progress = ReadProgress::new(output.len(), 0);
    while !progress.is_done() {
        let left = &mut output[progress.filled()..];
        let length = left.len();
        match reader.read(left) {
            Ok(read) => {
                assert!(read <= length, "a reader returned more than it was asked for");
                progress.advance(read);
            }
            Err(error) if error.kind() == io::ErrorKind::Interrupted => {}
            Err(error) => return Err(error),
        }
    }
    Ok(progress.filled())
}

fn read_header(reader: &mut impl Read) -> io::Result<Header> {
    let mut header = [0; Header::LEN];
    let actual = read_fully(reader, &mut header)?;
    complete_header(header, actual)
        .map_err(StreamError::Decryption)
        .map_err(stream_error)
}

struct FinishError<W>(fast_floe::io::FinishError<W, io::Error>);

impl<W> FinishError<W> {
    fn error(&self) -> &io::Error {
        self.0.error()
    }

    fn into_inner(self) -> W {
        self.0.into_inner()
    }

    fn into_parts(self) -> (io::Error, W) {
        self.0.into_parts()
    }
}

impl<W> fmt::Display for FinishError<W> {
    fn fmt(&self, formatter: &mut fmt::Formatter<'_>) -> fmt::Result {
        formatter.write_str(&format!("failed to finish FLOE stream: {}", self.error()))
    }
}

impl<W> fmt::Debug for FinishError<W> {
    fn fmt(&self, formatter: &mut fmt::Formatter<'_>) -> fmt::Result {
        formatter
            .debug_struct("FinishError")
            .field("error", self.error())
            .finish_non_exhaustive()
    }
}

impl<W> std::error::Error for FinishError<W> {
    fn source(&self) -> Option<&(dyn std::error::Error + 'static)> {
        Some(self.error())
    }
}

struct EncryptWriter<W>(fast_floe::io::EncryptWriter<W>);

impl<W> fmt::Debug for EncryptWriter<W> {
    fn fmt(&self, formatter: &mut fmt::Formatter<'_>) -> fmt::Result {
        formatter.debug_struct("EncryptWriter").finish_non_exhaustive()
    }
}

impl<W: Write> EncryptWriter<W> {
    fn new(inner: W, key: &Key, aad: &[u8], parameters: Parameters) -> io::Result<Self> {
        let writer = fast_floe::io::EncryptWriter::new(inner, key, aad, parameters)
            .map_err(stream_error)?;
        let mut writer = Self(writer);
        writer.emit(false)?;
        Ok(writer)
    }

    fn header(&self) -> &Header {
        self.0.header()
    }

    fn parameters(&self) -> Parameters {
        self.0.parameters()
    }

    fn get_ref(&self) -> &W {
        self.0.get_ref()
    }

    fn get_mut(&mut self) -> &mut W {
        self.0.get_mut()
    }

    fn is_finished(&self) -> bool {
        self.0.is_finished()
    }

    fn try_finish(&mut self) -> io::Result<()> {
        loop {
            match self.0.try_finish().map_err(stream_error)? {
                FinishStep::Done => return Ok(()),
                FinishStep::Emit => {
                    self.emit(true)?;
                }
            }
        }
    }

    fn finish(mut self) -> Result<W, FinishError<W>> {
        let result = self.try_finish();
        self.0.finish(result).map_err(FinishError)
    }

    fn into_inner_unfinished(self) -> W {
        self.0.into_inner_unfinished()
    }

    fn emit(&mut self, flush: bool) -> io::Result<usize> {
        let (inner, bytes) = self.0.output();
        let mut result = inner.write_all(bytes);
        if flush && result.is_ok() {
            result = inner.flush();
        }
        match result {
            Ok(()) => Ok(self.0.output_written()),
            Err(error) => {
                self.0.output_failed();
                Err(error)
            }
        }
    }
}

impl<W: Write> Write for EncryptWriter<W> {
    fn write(&mut self, input: &[u8]) -> io::Result<usize> {
        loop {
            match self.0.write(input).map_err(stream_error)? {
                WriteStep::Accepted(accepted) => return Ok(accepted),
                WriteStep::Emit => {
                    let accepted = self.emit(false)?;
                    if accepted > 0 {
                        return Ok(accepted);
                    }
                }
            }
        }
    }

    fn flush(&mut self) -> io::Result<()> {
        self.0.flush().map_err(stream_error)?;
        self.0.get_mut().flush()
    }
}

struct EncryptReader<R>(fast_floe::io::EncryptReader<R>);

impl<R> fmt::Debug for EncryptReader<R> {
    fn fmt(&self, formatter: &mut fmt::Formatter<'_>) -> fmt::Result {
        formatter.debug_struct("EncryptReader").finish_non_exhaustive()
    }
}

impl<R: Read> EncryptReader<R> {
    fn new(inner: R, key: &Key, aad: &[u8], parameters: Parameters) -> io::Result<Self> {
        fast_floe::io::EncryptReader::new(inner, key, aad, parameters)
            .map(Self)
            .map_err(stream_error)
    }

    fn header(&self) -> &Header {
        self.0.header()
    }

    fn parameters(&self) -> Parameters {
        self.0.parameters()
    }

    fn get_ref(&self) -> &R {
        self.0.get_ref()
    }

    fn get_mut(&mut self) -> &mut R {
        self.0.get_mut()
    }

    fn is_finished(&self) -> bool {
        self.0.is_finished()
    }

    fn into_inner_unfinished(self) -> R {
        self.0.into_inner_unfinished()
    }

    fn fetch(&mut self) -> io::Result<()> {
        while self.0.input_length() > 0 {
            let (inner, target) = self.0.input();
            let length = target.len();
            match inner.read(target) {
                Ok(read) => {
                    assert!(read <= length, "a reader returned more than it was asked for");
                    self.0.input_read(read);
                }
                Err(error) if error.kind() == io::ErrorKind::Interrupted => {}
                Err(error) => {
                    self.0.input_failed();
                    return Err(error);
                }
            }
        }
        Ok(())
    }
}

impl<R: Read> Read for EncryptReader<R> {
    fn read(&mut self, output: &mut [u8]) -> io::Result<usize> {
        loop {
            match self.0.read(output).map_err(stream_error)? {
                ReadStep::Served(read) => return Ok(read),
                ReadStep::Fetch => self.fetch()?,
            }
        }
    }
}

struct DecryptReader<R>(fast_floe::io::DecryptReader<R>);

impl<R> fmt::Debug for DecryptReader<R> {
    fn fmt(&self, formatter: &mut fmt::Formatter<'_>) -> fmt::Result {
        formatter.debug_struct("DecryptReader").finish_non_exhaustive()
    }
}

impl<R: Read> DecryptReader<R> {
    fn new(mut inner: R, key: &Key, aad: &[u8]) -> io::Result<Self> {
        let header = read_header(&mut inner)?;
        fast_floe::io::DecryptReader::new(inner, key, aad, header)
            .map(Self)
            .map_err(stream_error)
    }

    fn header(&self) -> &Header {
        self.0.header()
    }

    fn parameters(&self) -> Parameters {
        self.0.parameters()
    }

    fn get_ref(&self) -> &R {
        self.0.get_ref()
    }

    fn get_mut(&mut self) -> &mut R {
        self.0.get_mut()
    }

    fn is_finished(&self) -> bool {
        self.0.is_finished()
    }

    fn try_finish(&mut self) -> io::Result<()> {
        self.try_finish_frame()?;
        let mut trailing = [0; 1];
        match read_fully(self.0.get_mut(), &mut trailing) {
            Ok(read) => self.0.try_finish(read).map_err(stream_error),
            Err(error) => {
                self.0.input_failed();
                Err(error)
            }
        }
    }

    fn try_finish_frame(&mut self) -> io::Result<()> {
        loop {
            match self.0.try_finish_frame().map_err(stream_error)? {
                DrainStep::Done => return Ok(()),
                DrainStep::Fetch => self.fetch()?,
            }
        }
    }

    fn finish(mut self) -> Result<R, FinishError<R>> {
        let result = self.try_finish();
        self.0.finish(result).map_err(FinishError)
    }

    fn finish_frame(mut self) -> Result<R, FinishError<R>> {
        let result = self.try_finish_frame();
        self.0.finish(result).map_err(FinishError)
    }

    fn into_inner_unchecked(self) -> R {
        self.0.into_inner_unchecked()
    }

    fn fetch(&mut self) -> io::Result<()> {
        while self.0.input_length() > 0 {
            let (inner, target) = self.0.input();
            let length = target.len();
            match inner.read(target) {
                Ok(read) => {
                    assert!(read <= length, "a reader returned more than it was asked for");
                    self.0.input_read(read).map_err(stream_error)?;
                }
                Err(error) if error.kind() == io::ErrorKind::Interrupted => {}
                Err(error) => {
                    self.0.input_failed();
                    return Err(error);
                }
            }
        }
        Ok(())
    }
}

impl<R: Read> Read for DecryptReader<R> {
    fn read(&mut self, output: &mut [u8]) -> io::Result<usize> {
        loop {
            match self.0.read(output).map_err(stream_error)? {
                ReadStep::Served(read) => return Ok(read),
                ReadStep::Fetch => self.fetch()?,
            }
        }
    }
}

struct Reader<R>(fast_floe::random_access::Reader<R>);

impl<R> fmt::Debug for Reader<R> {
    fn fmt(&self, formatter: &mut fmt::Formatter<'_>) -> fmt::Result {
        formatter.debug_struct("Reader").finish_non_exhaustive()
    }
}

impl<R: Read + Seek> Reader<R> {
    fn new(mut inner: R, key: &Key, aad: &[u8]) -> io::Result<Self> {
        let message_start = inner.stream_position()?;
        let header = read_header(&mut inner)?;
        let state = start_decryption_inferred(key, aad, &header).map_err(decryption_error)?;
        let end = inner.seek(SeekFrom::End(0))?;
        let ciphertext_length = remaining_length(end, message_start).map_err(stream_error)?;
        Self::from_parts(inner, state, header, message_start, ciphertext_length)
    }

    fn new_with_parameters(
        mut inner: R,
        key: &Key,
        aad: &[u8],
        parameters: Parameters,
    ) -> io::Result<Self> {
        let message_start = inner.stream_position()?;
        let header = read_header(&mut inner)?;
        let state = start_decryption(key, aad, parameters, &header).map_err(decryption_error)?;
        let end = inner.seek(SeekFrom::End(0))?;
        let ciphertext_length = remaining_length(end, message_start).map_err(stream_error)?;
        Self::from_parts(inner, state, header, message_start, ciphertext_length)
    }

    fn new_with_length(
        mut inner: R,
        key: &Key,
        aad: &[u8],
        ciphertext_length: u64,
    ) -> io::Result<Self> {
        validate_header_bound(ciphertext_length).map_err(stream_error)?;
        let message_start = inner.stream_position()?;
        let header = read_header(&mut inner)?;
        let state = start_decryption_inferred(key, aad, &header).map_err(decryption_error)?;
        Self::from_parts(inner, state, header, message_start, ciphertext_length)
    }

    fn new_with_length_and_parameters(
        mut inner: R,
        key: &Key,
        aad: &[u8],
        ciphertext_length: u64,
        parameters: Parameters,
    ) -> io::Result<Self> {
        validate_header_bound(ciphertext_length).map_err(stream_error)?;
        let message_start = inner.stream_position()?;
        let header = read_header(&mut inner)?;
        let state = start_decryption(key, aad, parameters, &header).map_err(decryption_error)?;
        Self::from_parts(inner, state, header, message_start, ciphertext_length)
    }

    fn from_parts(
        inner: R,
        state: DecryptionState,
        header: Header,
        message_start: u64,
        ciphertext_length: u64,
    ) -> io::Result<Self> {
        let reader = fast_floe::random_access::Reader::from_parts(
            inner,
            state,
            header,
            message_start,
            ciphertext_length,
        )
        .map_err(stream_error)?;
        let mut reader = Self(reader);
        reader.follow()?;
        reader.0.authenticate_end().map_err(stream_error)?;
        reader.follow()?;
        Ok(reader)
    }

    fn header(&self) -> &Header {
        self.0.header()
    }

    fn parameters(&self) -> Parameters {
        self.0.parameters()
    }

    fn plaintext_length(&self) -> u64 {
        self.0.plaintext_length()
    }

    fn segment_count(&self) -> u64 {
        self.0.segment_count()
    }

    fn layout(&self) -> MessageLayout {
        self.0.layout()
    }

    fn read_segment(&mut self, position: u64) -> io::Result<Vec<u8>> {
        loop {
            match self.0.read_segment(position).map_err(stream_error)? {
                SegmentStep::Done(plaintext) => return Ok(plaintext),
                SegmentStep::Fetch => self.follow()?,
            }
        }
    }

    fn read_segment_into(&mut self, position: u64, output: &mut [u8]) -> io::Result<usize> {
        loop {
            match self
                .0
                .read_segment_into(position, output)
                .map_err(stream_error)?
            {
                ReadStep::Served(read) => return Ok(read),
                ReadStep::Fetch => self.follow()?,
            }
        }
    }

    fn read_range(&mut self, range: impl RangeBounds<u64>) -> io::Result<Vec<u8>> {
        let mut range = self.range(&range)?;
        let mut output = Zeroizing::new(vec![0; range.length()]);
        self.read_resolved_range_into(&mut range, &mut output)?;
        Ok(mem::take(&mut *output))
    }

    fn read_range_into(
        &mut self,
        range: impl RangeBounds<u64>,
        output: &mut [u8],
    ) -> io::Result<usize> {
        let mut range = self.range(&range)?;
        self.read_resolved_range_into(&mut range, output)
    }

    fn range(&self, range: &impl RangeBounds<u64>) -> io::Result<RangeRead> {
        self.0
            .range(bound(range.start_bound()), bound(range.end_bound()))
            .map_err(stream_error)
    }

    fn read_resolved_range_into(
        &mut self,
        range: &mut RangeRead,
        output: &mut [u8],
    ) -> io::Result<usize> {
        loop {
            match self.0.read_range_into(range, output).map_err(stream_error)? {
                RangeStep::Done(written) => return Ok(written),
                RangeStep::Next => {}
                RangeStep::Fetch => self.follow()?,
            }
        }
    }

    fn get_ref(&self) -> &R {
        self.0.get_ref()
    }

    fn get_mut(&mut self) -> &mut R {
        self.0.get_mut()
    }

    fn into_inner(self) -> R {
        self.0.into_inner()
    }

    fn follow(&mut self) -> io::Result<()> {
        loop {
            match self.0.request() {
                Request::Nothing => return Ok(()),
                Request::Seek(offset) => {
                    self.0.get_mut().seek(SeekFrom::Start(offset))?;
                    self.0.sought();
                }
                Request::Read => {
                    let (inner, target) = self.0.input();
                    let length = target.len();
                    match inner.read(target) {
                        Ok(read) => {
                            assert!(
                                read <= length,
                                "a reader returned more than it was asked for"
                            );
                            self.0.input_read(read).map_err(stream_error)?;
                        }
                        Err(error) if error.kind() == io::ErrorKind::Interrupted => {}
                        Err(error) => return Err(error),
                    }
                }
            }
        }
    }
}

fn bound(bound: Bound<&u64>) -> RangeBound {
    match bound {
        Bound::Included(position) => RangeBound::Included(*position),
        Bound::Excluded(position) => RangeBound::Excluded(*position),
        Bound::Unbounded => RangeBound::Unbounded,
    }
}

fn decryption_error(error: fast_floe::Error) -> io::Error {
    stream_error(StreamError::Decryption(error))
}

impl<R: Read + Seek> Read for Reader<R> {
    fn read(&mut self, output: &mut [u8]) -> io::Result<usize> {
        loop {
            match self.0.read(output).map_err(stream_error)? {
                ReadStep::Served(read) => return Ok(read),
                ReadStep::Fetch => self.follow()?,
            }
        }
    }
}

impl<R: Read + Seek> Seek for Reader<R> {
    fn seek(&mut self, position: SeekFrom) -> io::Result<u64> {
        let target = match position {
            SeekFrom::Start(offset) => SeekTarget::Start(offset),
            SeekFrom::End(delta) => SeekTarget::End(delta),
            SeekFrom::Current(delta) => SeekTarget::Current(delta),
        };
        self.0.seek(target).map_err(stream_error)
    }

    fn stream_position(&mut self) -> io::Result<u64> {
        Ok(self.0.stream_position())
    }
}

#[derive(Debug, Default)]
struct FlushFails(Vec<u8>);

impl Write for FlushFails {
    fn write(&mut self, input: &[u8]) -> io::Result<usize> {
        self.0.extend_from_slice(input);
        Ok(input.len())
    }

    fn flush(&mut self) -> io::Result<()> {
        Err(io::Error::other("injected flush failure"))
    }
}

/// Accepts writes until a configured byte budget is exhausted, then fails
/// every write; counts calls so tests can prove a poisoned adapter stops
/// touching its sink.
#[derive(Debug)]
struct FailingWriter {
    accepted: Vec<u8>,
    budget: usize,
    write_calls: usize,
}

impl FailingWriter {
    fn new(budget: usize) -> Self {
        Self {
            accepted: Vec::new(),
            budget,
            write_calls: 0,
        }
    }
}

impl Write for FailingWriter {
    fn write(&mut self, input: &[u8]) -> io::Result<usize> {
        self.write_calls += 1;
        if self.accepted.len() + input.len() > self.budget {
            return Err(io::Error::other("injected write failure"));
        }
        self.accepted.extend_from_slice(input);
        Ok(input.len())
    }

    fn flush(&mut self) -> io::Result<()> {
        Ok(())
    }
}

/// Serves its configured data, then returns an injected error where a
/// well-behaved reader would report end of stream.
#[derive(Debug)]
struct FailingReader {
    data: Cursor<Vec<u8>>,
}

impl Read for FailingReader {
    fn read(&mut self, output: &mut [u8]) -> io::Result<usize> {
        let read = self.data.read(output)?;
        if read == 0 {
            return Err(io::Error::other("injected read failure"));
        }
        Ok(read)
    }
}

/// Returns `ErrorKind::Interrupted` on every other call, serving data in
/// between, so retry loops must preserve progress across interruptions.
#[derive(Debug)]
struct InterruptedReader {
    data: Cursor<Vec<u8>>,
    interrupt_next: bool,
}

impl Read for InterruptedReader {
    fn read(&mut self, output: &mut [u8]) -> io::Result<usize> {
        self.interrupt_next = !self.interrupt_next;
        if self.interrupt_next {
            return Err(io::Error::new(
                io::ErrorKind::Interrupted,
                "injected interruption",
            ));
        }
        self.data.read(output)
    }
}

#[test]
fn encrypt_reader_round_trips_plaintext_boundaries() {
    // Given plaintext lengths at and around the segment boundary
    let parameters = Parameters::segment_4_kib();
    let capacity = parameters.plaintext_segment_length();
    for length in [0, 1, capacity - 1, capacity, capacity + 1, 2 * capacity] {
        let plaintext = vec![0x31; length];

        // When the plaintext is pulled through an EncryptReader
        let mut reader =
            EncryptReader::new(Cursor::new(&plaintext), &test_key(), b"io", parameters)
                .unwrap();
        let mut ciphertext = Vec::new();
        reader.read_to_end(&mut ciphertext).unwrap();

        // Then the reader finishes and the ciphertext round-trips
        assert!(
            reader.is_finished(),
            "reader did not finish at length {length}"
        );
        assert_eq!(
            decrypt(&test_key(), b"io", &ciphertext).unwrap(),
            plaintext,
            "reader round trip failed at length {length}"
        );
    }
}

#[test]
fn encrypt_reader_serves_whole_segments_into_large_buffers() {
    // Given plaintext lengths at and around every segment boundary
    let parameters = Parameters::segment_4_kib();
    let capacity = parameters.plaintext_segment_length();
    for length in [0, 1, capacity - 1, capacity, capacity + 1, 3 * capacity + 7] {
        let plaintext: Vec<u8> = (0..length)
            .map(|index| u8::try_from(index % 251).unwrap())
            .collect();

        // When the ciphertext is pulled through segment-sized reads
        let mut reader =
            EncryptReader::new(Cursor::new(&plaintext), &test_key(), b"io", parameters)
                .unwrap();
        let mut ciphertext = Vec::new();
        let mut chunk = vec![0u8; parameters.ciphertext_segment_length()];
        loop {
            let read = reader.read(&mut chunk).unwrap();
            if read == 0 {
                break;
            }
            ciphertext.extend_from_slice(&chunk[..read]);
        }

        // Then the reader finishes and the message round-trips
        assert!(reader.is_finished(), "not finished at length {length}");
        assert_eq!(
            decrypt(&test_key(), b"io", &ciphertext).unwrap(),
            plaintext,
            "direct-read round trip failed at length {length}"
        );
    }
}

#[test]
fn encrypt_reader_alternates_small_and_segment_sized_reads() {
    // Given a reader over a multi-segment message
    let parameters = Parameters::segment_4_kib();
    let capacity = parameters.plaintext_segment_length();
    let plaintext: Vec<u8> = (0..4 * capacity + 13)
        .map(|index| u8::try_from(index % 249).unwrap())
        .collect();
    let mut reader =
        EncryptReader::new(Cursor::new(&plaintext), &test_key(), b"io", parameters).unwrap();

    // When reads alternate between sub-segment and whole-segment sizes
    let mut ciphertext = Vec::new();
    let mut small = [0u8; 7];
    let mut large = vec![0u8; parameters.ciphertext_segment_length()];
    let mut use_small = true;
    loop {
        let read = if use_small {
            let read = reader.read(&mut small).unwrap();
            ciphertext.extend_from_slice(&small[..read]);
            read
        } else {
            let read = reader.read(&mut large).unwrap();
            ciphertext.extend_from_slice(&large[..read]);
            read
        };
        if read == 0 {
            break;
        }
        use_small = !use_small;
    }

    // Then buffered and direct segments interleave into one valid message
    assert!(reader.is_finished());
    assert_eq!(decrypt(&test_key(), b"io", &ciphertext).unwrap(), plaintext);
}

#[test]
fn adapters_round_trip_across_parameter_sets() {
    // Given a message longer than one segment, under each parameter set
    for parameters in [Parameters::segment_4_kib(), Parameters::segment_1_mib()] {
        let plaintext = vec![0x31; parameters.plaintext_segment_length() + 7];

        // When it is written through an EncryptWriter and read back
        // through a DecryptReader
        let mut writer =
            EncryptWriter::new(Vec::new(), &test_key(), b"io", parameters).unwrap();
        writer.write_all(&plaintext).unwrap();
        let ciphertext = writer.finish().unwrap();
        let mut reader =
            DecryptReader::new(Cursor::new(ciphertext), &test_key(), b"io").unwrap();
        let mut recovered = Vec::new();
        reader.read_to_end(&mut recovered).unwrap();

        // Then the plaintext round-trips and the reader finishes
        assert_eq!(recovered, plaintext);
        assert!(reader.is_finished());
    }
}

#[test]
fn decrypt_reader_serves_whole_segments_into_large_buffers() {
    // Given message lengths at and around every segment boundary
    let parameters = Parameters::segment_4_kib();
    let capacity = parameters.plaintext_segment_length();
    for length in [0, 1, capacity - 1, capacity, capacity + 1, 3 * capacity + 7] {
        let plaintext: Vec<u8> = (0..length)
            .map(|index| u8::try_from(index % 251).unwrap())
            .collect();
        let ciphertext = encrypt(&test_key(), b"io", parameters, &plaintext).unwrap();

        // When the plaintext is pulled through segment-sized reads
        let mut reader =
            DecryptReader::new(Cursor::new(&ciphertext), &test_key(), b"io").unwrap();
        let mut recovered = Vec::new();
        let mut chunk = vec![0u8; capacity];
        loop {
            let read = reader.read(&mut chunk).unwrap();
            if read == 0 {
                break;
            }
            recovered.extend_from_slice(&chunk[..read]);
        }

        // Then the reader finishes cleanly and the plaintext matches
        assert_eq!(recovered, plaintext, "direct read failed at {length}");
        assert!(reader.is_finished(), "not finished at length {length}");
        reader.try_finish().unwrap();
    }
}

#[test]
fn decrypt_reader_alternates_small_and_segment_sized_reads() {
    // Given a multi-segment message
    let parameters = Parameters::segment_4_kib();
    let capacity = parameters.plaintext_segment_length();
    let plaintext: Vec<u8> = (0..4 * capacity + 13)
        .map(|index| u8::try_from(index % 249).unwrap())
        .collect();
    let ciphertext = encrypt(&test_key(), b"io", parameters, &plaintext).unwrap();
    let mut reader = DecryptReader::new(Cursor::new(&ciphertext), &test_key(), b"io").unwrap();

    // When reads alternate between sub-segment and whole-segment sizes
    let mut recovered = Vec::new();
    let mut small = [0u8; 7];
    let mut large = vec![0u8; capacity];
    let mut use_small = true;
    loop {
        let read = if use_small {
            let read = reader.read(&mut small).unwrap();
            recovered.extend_from_slice(&small[..read]);
            read
        } else {
            let read = reader.read(&mut large).unwrap();
            recovered.extend_from_slice(&large[..read]);
            read
        };
        if read == 0 {
            break;
        }
        use_small = !use_small;
    }

    // Then buffered and direct segments reassemble the plaintext
    assert_eq!(recovered, plaintext);
    assert!(reader.is_finished());
    reader.try_finish().unwrap();
}

#[test]
fn direct_segment_reads_preserve_a_following_frame() {
    // Given one complete message followed by a second frame
    let parameters = Parameters::segment_4_kib();
    let capacity = parameters.plaintext_segment_length();
    let plaintext = vec![0x42; capacity + 9];
    let mut framed = encrypt(&test_key(), b"io", parameters, &plaintext).unwrap();
    framed.extend_from_slice(b"next frame");

    // When the message is drained with whole-segment reads
    let mut reader = DecryptReader::new(Cursor::new(framed), &test_key(), b"io").unwrap();
    let mut recovered = Vec::new();
    let mut chunk = vec![0u8; capacity];
    loop {
        let read = reader.read(&mut chunk).unwrap();
        if read == 0 {
            break;
        }
        recovered.extend_from_slice(&chunk[..read]);
    }
    assert_eq!(recovered, plaintext);

    // Then the frame finisher leaves the next frame unread
    let inner = reader.finish_frame().unwrap();
    assert_eq!(
        &inner.get_ref()[usize::try_from(inner.position()).unwrap()..],
        b"next frame"
    );
}

#[test]
fn try_finish_verifies_complete_message_without_reading() {
    // Given a reader over a complete valid ciphertext
    let parameters = Parameters::segment_4_kib();
    let plaintext = vec![0x31; parameters.plaintext_segment_length() + 7];
    let mut reader = DecryptReader::new(
        Cursor::new(encrypt(&test_key(), b"io", parameters, &plaintext).unwrap()),
        &test_key(),
        b"io",
    )
    .unwrap();

    // When the remainder is verified without extracting plaintext
    reader.try_finish().unwrap();

    // Then the reader reaches the finished state
    assert!(reader.is_finished());
}

#[test]
fn writer_boundary_lengths_round_trip() {
    // Given plaintext lengths at and around the segment boundary
    let parameters = Parameters::segment_4_kib();
    let capacity = parameters.plaintext_segment_length();
    for length in [0, 1, capacity - 1, capacity, capacity + 1, 2 * capacity] {
        let plaintext = vec![0x32; length];

        // When the plaintext is written through an EncryptWriter
        let mut writer =
            EncryptWriter::new(Vec::new(), &test_key(), b"io", parameters).unwrap();
        writer.write_all(&plaintext).unwrap();
        let ciphertext = writer.finish().unwrap();

        // Then the finished ciphertext round-trips
        assert_eq!(
            decrypt(&test_key(), b"io", &ciphertext).unwrap(),
            plaintext,
            "writer round trip failed at length {length}"
        );
    }
}

#[test]
fn writer_mixes_buffered_and_full_segment_writes() {
    // Given plaintext delivered as a partial write, one huge write
    // covering several segments, and a small tail
    let parameters = Parameters::segment_4_kib();
    let capacity = parameters.plaintext_segment_length();
    let plaintext: Vec<u8> = (0..3 * capacity + 41)
        .map(|index| u8::try_from(index % 251).unwrap())
        .collect();
    let mut writer = EncryptWriter::new(Vec::new(), &test_key(), b"io", parameters).unwrap();

    // When the pieces are written in mixed sizes
    writer.write_all(&plaintext[..17]).unwrap();
    writer.write_all(&plaintext[17..3 * capacity]).unwrap();
    writer.write_all(&plaintext[3 * capacity..]).unwrap();
    let ciphertext = writer.finish().unwrap();

    // Then the message round-trips regardless of which path each
    // write took
    assert_eq!(decrypt(&test_key(), b"io", &ciphertext).unwrap(), plaintext);
}

#[test]
fn writer_consumes_at_most_one_segment_per_write_call() {
    // Given an empty writer and input longer than one segment
    let parameters = Parameters::segment_4_kib();
    let capacity = parameters.plaintext_segment_length();
    let input = vec![0x31; capacity + 100];
    let mut writer = EncryptWriter::new(Vec::new(), &test_key(), b"io", parameters).unwrap();

    // When a single write is issued
    // Then exactly one full segment is consumed and emitted
    assert_eq!(writer.write(&input).unwrap(), capacity);
    assert_eq!(
        writer.get_ref().len(),
        Header::LEN + parameters.ciphertext_segment_length()
    );

    // Then the remainder buffers and the whole message round-trips
    assert_eq!(writer.write(&input[capacity..]).unwrap(), 100);
    let ciphertext = writer.finish().unwrap();
    assert_eq!(
        decrypt(&test_key(), b"io", &ciphertext).unwrap(),
        input[..capacity + 100]
    );
}

#[test]
fn writer_flush_does_not_emit_partial_segment() {
    // Given a writer holding buffered, unfinalized plaintext
    let mut writer =
        EncryptWriter::new(Vec::new(), &test_key(), b"io", Parameters::segment_4_kib()).unwrap();
    writer.write_all(b"buffered plaintext").unwrap();

    // When the writer is flushed before finish
    writer.flush().unwrap();

    // Then only the header has been emitted
    assert_eq!(writer.get_ref().len(), Header::LEN);

    // Then finishing still produces a complete round-trippable message
    let ciphertext = writer.finish().unwrap();
    assert_eq!(
        decrypt(&test_key(), b"io", &ciphertext).unwrap(),
        b"buffered plaintext"
    );
}

#[test]
fn frame_finish_preserves_trailing_data() {
    // Given a stream holding one complete message followed by more data
    let parameters = Parameters::segment_4_kib();
    let mut writer = EncryptWriter::new(Vec::new(), &test_key(), b"io", parameters).unwrap();
    writer.write_all(b"message").unwrap();
    let mut framed = writer.finish().unwrap();
    framed.extend_from_slice(b"next frame");

    // When the message is read and finished as a frame
    let mut reader = DecryptReader::new(Cursor::new(framed), &test_key(), b"io").unwrap();
    let mut plaintext = Vec::new();
    reader.read_to_end(&mut plaintext).unwrap();
    assert_eq!(plaintext, b"message");
    let inner = reader.finish_frame().unwrap();

    // Then the inner reader is positioned exactly at the trailing data
    assert_eq!(
        &inner.get_ref()[usize::try_from(inner.position()).unwrap()..],
        b"next frame"
    );
}

#[test]
fn default_finish_rejects_trailing_data() {
    // Given a stream holding one complete message plus one extra byte
    let parameters = Parameters::segment_4_kib();
    let mut writer = EncryptWriter::new(Vec::new(), &test_key(), b"io", parameters).unwrap();
    writer.write_all(b"message").unwrap();
    let mut bytes = writer.finish().unwrap();
    bytes.push(0);

    // When the message is read and finished with the whole-stream API
    let mut reader = DecryptReader::new(Cursor::new(bytes), &test_key(), b"io").unwrap();
    let mut plaintext = Vec::new();
    reader.read_to_end(&mut plaintext).unwrap();

    // Then the unconsumed trailing byte is rejected
    assert_eq!(
        reader.finish().unwrap_err().error().kind(),
        io::ErrorKind::InvalidData
    );
}

#[test]
fn consuming_reader_finish_error_preserves_wrapped_reader() {
    // Given a reader over a ciphertext missing its final byte
    let mut ciphertext = {
        let mut writer =
            EncryptWriter::new(Vec::new(), &test_key(), b"io", Parameters::segment_4_kib())
                .unwrap();
        writer.write_all(b"message").unwrap();
        writer.finish().unwrap()
    };
    ciphertext.pop();
    let reader = DecryptReader::new(Cursor::new(ciphertext), &test_key(), b"io").unwrap();

    // When the consuming finish fails
    let failure = reader.finish().unwrap_err();

    // Then the error is classified and the wrapped reader is returned
    // intact
    assert_eq!(failure.error().kind(), io::ErrorKind::InvalidData);
    let inner = failure.into_inner();
    assert!(inner.position() >= u64::try_from(Header::LEN).unwrap());
}

#[test]
fn reader_constructors_classify_short_headers_consistently() {
    // Given inputs shorter than a complete header
    for length in 0..Header::LEN {
        let input = vec![0u8; length];

        // When each reader constructor parses the input
        let stream_error =
            DecryptReader::new(Cursor::new(&input), &test_key(), b"io").unwrap_err();
        let random_error =
            Reader::new(Cursor::new(&input), &test_key(), b"io").unwrap_err();

        // Then both classify the short header identically
        for error in [stream_error, random_error] {
            assert_eq!(error.kind(), io::ErrorKind::InvalidData);
            assert!(matches!(
                crate_error(&error),
                Some(Error::InvalidHeaderLength { actual }) if *actual == length
            ));
        }
    }
}

#[test]
fn unfinished_extraction_is_explicit_and_truncated() {
    // Given a writer that has emitted no final segment
    let writer =
        EncryptWriter::new(Vec::new(), &test_key(), b"io", Parameters::segment_4_kib()).unwrap();

    // When its inner buffer is extracted through the explicit
    // unfinished API
    let ciphertext = writer.into_inner_unfinished();

    // Then the extracted bytes decrypt as a truncated message
    assert_eq!(
        decrypt(&test_key(), b"io", &ciphertext),
        Err(Error::Truncated)
    );
}

#[test]
fn consuming_finish_error_preserves_wrapped_writer() {
    // Given a writer whose inner sink fails on flush
    let mut writer = EncryptWriter::new(
        FlushFails::default(),
        &test_key(),
        b"io",
        Parameters::segment_4_kib(),
    )
    .unwrap();
    writer.write_all(b"message").unwrap();

    // When the consuming finish fails
    let error = writer.finish().unwrap_err();

    // Then the error is classified and the wrapped sink is returned
    // with the bytes it accepted
    assert_eq!(error.error().kind(), io::ErrorKind::Other);
    assert!(!error.into_inner().0.is_empty());
}

#[test]
fn finish_error_does_not_require_inner_type_to_implement_debug() {
    // Given a wrapped type without a Debug implementation
    struct NoDebug;

    // Then FinishError still implements the standard Error trait
    fn assert_error<T: std::error::Error>() {}
    assert_error::<FinishError<NoDebug>>();
}

#[test]
fn parameter_policy_checkable_after_construction() {
    // Given a message written with the 1 MiB profile
    let parameters = Parameters::segment_1_mib();
    let mut writer = EncryptWriter::new(Vec::new(), &test_key(), b"io", parameters).unwrap();
    writer.write_all(b"message").unwrap();
    let ciphertext = writer.finish().unwrap();

    // When the profile is demanded explicitly during whole-message
    // decryption, then the message decrypts
    assert_eq!(
        decrypt_with_parameters(&test_key(), b"io", parameters, &ciphertext).unwrap(),
        b"message"
    );

    // When a streaming reader is constructed, then the authenticated
    // parameters are available for a policy check
    let reader = DecryptReader::new(Cursor::new(ciphertext), &test_key(), b"io").unwrap();
    assert_eq!(reader.parameters(), parameters);
}

#[test]
fn writer_rejects_writes_after_finish() {
    // Given a writer finalized in place
    let mut writer =
        EncryptWriter::new(Vec::new(), &test_key(), b"io", Parameters::segment_4_kib()).unwrap();
    writer.write_all(b"message").unwrap();
    writer.try_finish().unwrap();
    assert!(writer.is_finished());

    // When more plaintext is written, then the write is rejected
    assert_eq!(
        writer.write(b"more").unwrap_err().kind(),
        io::ErrorKind::BrokenPipe
    );

    // Then the documented empty-write early return still applies
    assert_eq!(writer.write(&[]).unwrap(), 0);
}

#[test]
fn writer_try_finish_is_idempotent_after_success() {
    // Given a writer finalized in place
    let parameters = Parameters::segment_4_kib();
    let mut writer = EncryptWriter::new(Vec::new(), &test_key(), b"io", parameters).unwrap();
    writer.write_all(b"message").unwrap();
    writer.try_finish().unwrap();
    let emitted = writer.get_ref().len();

    // When finalization is requested again
    writer.try_finish().unwrap();

    // Then no additional bytes are written and the message round-trips
    assert_eq!(writer.get_ref().len(), emitted);
    let ciphertext = writer.finish().unwrap();
    assert_eq!(
        decrypt(&test_key(), b"io", &ciphertext).unwrap(),
        b"message"
    );
}

#[test]
fn writer_empty_write_is_a_noop() {
    // Given a fresh writer
    let mut writer =
        EncryptWriter::new(Vec::new(), &test_key(), b"io", Parameters::segment_4_kib()).unwrap();

    // When empty writes surround a buffered write
    assert_eq!(writer.write(&[]).unwrap(), 0);
    writer.write_all(b"buffered").unwrap();
    assert_eq!(writer.write(&[]).unwrap(), 0);

    // Then no segment was emitted and the message still round-trips
    assert_eq!(writer.get_ref().len(), Header::LEN);
    let ciphertext = writer.finish().unwrap();
    assert_eq!(
        decrypt(&test_key(), b"io", &ciphertext).unwrap(),
        b"buffered"
    );
}

#[test]
fn writer_is_poisoned_after_segment_write_failure() {
    // Given a sink that accepts only the header
    let parameters = Parameters::segment_4_kib();
    let capacity = parameters.plaintext_segment_length();
    let mut writer = EncryptWriter::new(
        FailingWriter::new(Header::LEN),
        &test_key(),
        b"io",
        parameters,
    )
    .unwrap();

    // When a full non-final segment fails to reach the sink
    let error = writer.write(&vec![0x33; capacity]).unwrap_err();
    assert!(error.to_string().contains("injected write failure"));

    // Then write, flush, and try_finish report the poisoned stream
    // without touching the sink again
    let calls = writer.get_ref().write_calls;
    for error in [
        writer.write(b"x").unwrap_err(),
        writer.flush().unwrap_err(),
        writer.try_finish().unwrap_err(),
    ] {
        assert!(error.to_string().contains("poisoned"));
    }
    assert_eq!(writer.get_ref().write_calls, calls);
    assert_eq!(writer.get_ref().accepted.len(), Header::LEN);
}

#[test]
fn writer_is_poisoned_after_final_segment_write_failure() {
    // Given buffered plaintext and a sink that accepts only the header
    let mut writer = EncryptWriter::new(
        FailingWriter::new(Header::LEN),
        &test_key(),
        b"io",
        Parameters::segment_4_kib(),
    )
    .unwrap();
    writer.write_all(b"partial final").unwrap();

    // When finalization fails while emitting the final segment
    let error = writer.try_finish().unwrap_err();
    assert!(error.to_string().contains("injected write failure"));

    // Then later finalization attempts report the poisoned stream
    assert!(!writer.is_finished());
    assert!(
        writer
            .try_finish()
            .unwrap_err()
            .to_string()
            .contains("poisoned")
    );
}

#[test]
fn finish_error_exposes_standard_error_interfaces() {
    // Given a finalization failure from a flush-failing sink
    let mut writer = EncryptWriter::new(
        FlushFails::default(),
        &test_key(),
        b"io",
        Parameters::segment_4_kib(),
    )
    .unwrap();
    writer.write_all(b"message").unwrap();
    let failure = writer.finish().unwrap_err();

    // Then Display, Debug, and source describe the failure without
    // exposing the wrapped sink's contents
    assert!(failure.to_string().contains("failed to finish FLOE stream"));
    let debug = format!("{failure:?}");
    assert!(debug.contains("FinishError"));
    assert!(debug.contains("injected flush failure"));
    let source = std::error::Error::source(&failure).unwrap();
    assert!(source.to_string().contains("injected flush failure"));

    // Then into_parts separates the error from the recovered sink
    let (error, sink) = failure.into_parts();
    assert!(error.to_string().contains("injected flush failure"));
    assert!(!sink.0.is_empty());
}

#[test]
fn encrypt_reader_empty_read_is_a_noop() {
    // Given a fresh encrypting reader
    let mut reader = EncryptReader::new(
        Cursor::new(b"data".to_vec()),
        &test_key(),
        b"io",
        Parameters::segment_4_kib(),
    )
    .unwrap();

    // When an empty read is issued, then it returns zero without
    // disturbing the stream
    assert_eq!(reader.read(&mut []).unwrap(), 0);
    let mut ciphertext = Vec::new();
    reader.read_to_end(&mut ciphertext).unwrap();
    assert_eq!(decrypt(&test_key(), b"io", &ciphertext).unwrap(), b"data");
}

#[test]
fn encrypt_reader_poisoned_after_source_read_failure() {
    // Given a plaintext source that fails after ten bytes, exercised
    // through both the buffered and direct segment paths
    let parameters = Parameters::segment_4_kib();
    for direct in [false, true] {
        let source = FailingReader {
            data: Cursor::new(vec![0x31; 10]),
        };
        let mut reader = EncryptReader::new(source, &test_key(), b"io", parameters).unwrap();
        let mut header = [0u8; Header::LEN];
        reader.read_exact(&mut header).unwrap();

        // When the next segment needs plaintext from the failing source
        let mut output = vec![
            0u8;
            if direct {
                parameters.ciphertext_segment_length()
            } else {
                32
            }
        ];
        let error = reader.read(&mut output).unwrap_err();
        assert!(
            error.to_string().contains("injected read failure"),
            "unexpected first error on direct={direct}: {error}"
        );

        // Then later non-empty reads report the poisoned stream while
        // empty reads keep their documented early return
        let error = reader.read(&mut output).unwrap_err();
        assert!(error.to_string().contains("poisoned"));
        assert_eq!(reader.read(&mut []).unwrap(), 0);
    }
}

#[test]
fn encrypt_reader_accessors_preserve_inner_reader() {
    // Given an encrypting reader over a short message
    let parameters = Parameters::segment_4_kib();
    let mut reader = EncryptReader::new(
        Cursor::new(b"accessor data".to_vec()),
        &test_key(),
        b"io",
        parameters,
    )
    .unwrap();
    assert_eq!(reader.parameters(), parameters);
    assert!(!reader.is_finished());
    let header = *reader.header();

    // When the ciphertext is drained
    let mut ciphertext = Vec::new();
    reader.read_to_end(&mut ciphertext).unwrap();

    // Then the header accessor matches the emitted prefix and the
    // wrapped reader is observable and recoverable
    assert!(reader.is_finished());
    assert_eq!(&ciphertext[..Header::LEN], header.as_bytes());
    assert_eq!(reader.get_ref().position(), 13);
    reader.get_mut().set_position(0);
    let mut more = [0u8; 8];
    assert_eq!(reader.read(&mut more).unwrap(), 0);
    let inner = reader.into_inner_unfinished();
    assert_eq!(inner.position(), 0);
    assert_eq!(
        decrypt(&test_key(), b"io", &ciphertext).unwrap(),
        b"accessor data"
    );
}

#[test]
fn decrypt_reader_empty_read_is_a_noop() {
    // Given a decrypting reader over a valid message
    let parameters = Parameters::segment_4_kib();
    let ciphertext = encrypt(&test_key(), b"io", parameters, b"data").unwrap();
    let mut reader = DecryptReader::new(Cursor::new(ciphertext), &test_key(), b"io").unwrap();

    // When an empty read is issued, then it returns zero without
    // disturbing the stream
    assert_eq!(reader.read(&mut []).unwrap(), 0);
    let mut plaintext = Vec::new();
    reader.read_to_end(&mut plaintext).unwrap();
    assert_eq!(plaintext, b"data");
    reader.try_finish().unwrap();
}

#[test]
fn decrypt_reader_poisoned_after_truncated_prefix() {
    // Given a two-segment message cut off inside the second segment's
    // prefix
    let parameters = Parameters::segment_4_kib();
    let capacity = parameters.plaintext_segment_length();
    let plaintext = vec![0x37; capacity + 10];
    let mut ciphertext = encrypt(&test_key(), b"io", parameters, &plaintext).unwrap();
    ciphertext.truncate(Header::LEN + parameters.ciphertext_segment_length() + 2);
    let mut reader = DecryptReader::new(Cursor::new(ciphertext), &test_key(), b"io").unwrap();

    // When the message is drained through sub-segment reads
    let mut recovered = Vec::new();
    let mut chunk = [0u8; 1024];
    let error = loop {
        match reader.read(&mut chunk) {
            Ok(read) => recovered.extend_from_slice(&chunk[..read]),
            Err(error) => break error,
        }
    };

    // Then only the authenticated first segment was returned and the
    // failure is classified as truncation
    assert_eq!(recovered, plaintext[..capacity]);
    assert_eq!(error.kind(), io::ErrorKind::InvalidData);
    assert!(matches!(crate_error(&error), Some(Error::Truncated)));

    // Then later reads report the poisoned stream
    let error = reader.read(&mut chunk).unwrap_err();
    assert!(error.to_string().contains("poisoned"));
}

#[test]
fn decrypt_reader_poisoned_after_truncated_segment_body() {
    // Given a single-segment message missing its last three bytes
    let parameters = Parameters::segment_4_kib();
    let ciphertext = encrypt(&test_key(), b"io", parameters, b"message").unwrap();
    let segment_length = ciphertext.len() - Header::LEN;
    let mut truncated = ciphertext;
    truncated.truncate(Header::LEN + segment_length - 3);
    let mut reader = DecryptReader::new(Cursor::new(truncated), &test_key(), b"io").unwrap();

    // When the segment body comes up short
    let mut chunk = [0u8; 4];
    let error = reader.read(&mut chunk).unwrap_err();

    // Then the exact length diagnosis is preserved and the reader is
    // poisoned
    assert_eq!(error.kind(), io::ErrorKind::InvalidData);
    assert!(matches!(
        crate_error(&error),
        Some(Error::InvalidCiphertextLength {
            actual,
            required: LengthRequirement::Exactly(required),
        }) if *actual == segment_length - 3 && *required == segment_length
    ));
    assert!(
        reader
            .read(&mut chunk)
            .unwrap_err()
            .to_string()
            .contains("poisoned")
    );
}

#[test]
fn decrypt_reader_returns_no_plaintext_after_tag_corruption() {
    // Given a single-segment message with a corrupted authentication
    // tag, exercised through both the buffered and direct read paths
    let parameters = Parameters::segment_4_kib();
    let capacity = parameters.plaintext_segment_length();
    let ciphertext = encrypt(&test_key(), b"io", parameters, b"secret payload").unwrap();
    for direct in [false, true] {
        let mut corrupted = ciphertext.clone();
        *corrupted.last_mut().unwrap() ^= 0x01;
        let mut reader =
            DecryptReader::new(Cursor::new(corrupted), &test_key(), b"io").unwrap();

        // When the corrupted segment is read
        let mut output = vec![0u8; if direct { capacity } else { 4 }];
        let error = reader.read(&mut output).unwrap_err();

        // Then no plaintext is returned, the failure is classified, and
        // the reader stays poisoned
        assert_eq!(error.kind(), io::ErrorKind::InvalidData);
        assert!(
            matches!(crate_error(&error), Some(Error::AuthenticationFailed)),
            "unexpected error on direct={direct}: {error}"
        );
        assert!(
            reader
                .read(&mut output)
                .unwrap_err()
                .to_string()
                .contains("poisoned")
        );
    }
}

#[test]
fn decrypt_reader_finish_propagates_underlying_read_error() {
    // Given a complete message whose source fails at end of stream
    let parameters = Parameters::segment_4_kib();
    let ciphertext = encrypt(&test_key(), b"io", parameters, b"message").unwrap();
    let source = FailingReader {
        data: Cursor::new(ciphertext),
    };
    let mut reader = DecryptReader::new(source, &test_key(), b"io").unwrap();
    let mut plaintext = Vec::new();
    reader.read_to_end(&mut plaintext).unwrap();
    assert_eq!(plaintext, b"message");

    // When the trailing-data check hits the injected source error
    let error = reader.try_finish().unwrap_err();
    assert!(error.to_string().contains("injected read failure"));

    // Then the reader is poisoned for finalization and reads alike
    assert!(
        reader
            .try_finish()
            .unwrap_err()
            .to_string()
            .contains("poisoned")
    );
    assert!(
        reader
            .read(&mut [0u8; 5])
            .unwrap_err()
            .to_string()
            .contains("poisoned")
    );
}

#[test]
fn decrypt_reader_try_finish_is_idempotent_after_success() {
    // Given a reader finished successfully in place
    let parameters = Parameters::segment_4_kib();
    let ciphertext = encrypt(&test_key(), b"io", parameters, b"message").unwrap();
    let mut reader = DecryptReader::new(Cursor::new(ciphertext), &test_key(), b"io").unwrap();
    reader.try_finish().unwrap();

    // When finalization is requested again, then it still succeeds
    reader.try_finish().unwrap();
    assert!(reader.is_finished());
}

#[test]
fn decrypt_reader_accessors_and_unchecked_extraction_are_observable() {
    // Given a decrypting reader over a valid message
    let parameters = Parameters::segment_4_kib();
    let ciphertext = encrypt(&test_key(), b"io", parameters, b"peek").unwrap();
    let mut reader =
        DecryptReader::new(Cursor::new(ciphertext.clone()), &test_key(), b"io").unwrap();

    // Then the accessors reflect the authenticated header and the
    // wrapped reader's position past it
    assert_eq!(reader.header().as_bytes(), &ciphertext[..Header::LEN]);
    assert_eq!(reader.parameters(), parameters);
    assert!(!reader.is_finished());
    assert_eq!(
        reader.get_ref().position(),
        u64::try_from(Header::LEN).unwrap()
    );

    // When the wrapped reader is repositioned through get_mut and
    // extracted unchecked, then no draining or authentication happens
    reader.get_mut().set_position(0);
    let inner = reader.into_inner_unchecked();
    assert_eq!(inner.position(), 0);
}

#[test]
fn decrypt_reader_retries_interrupted_reads() {
    // Given a multi-segment message served with an interruption before
    // every successful source read
    let parameters = Parameters::segment_4_kib();
    let capacity = parameters.plaintext_segment_length();
    let plaintext: Vec<u8> = (0..2 * capacity + 5)
        .map(|index| u8::try_from(index % 251).unwrap())
        .collect();
    let ciphertext = encrypt(&test_key(), b"io", parameters, &plaintext).unwrap();
    let source = InterruptedReader {
        data: Cursor::new(ciphertext),
        interrupt_next: false,
    };

    // When the message is decrypted end to end
    let mut reader = DecryptReader::new(source, &test_key(), b"io").unwrap();
    let mut recovered = Vec::new();
    reader.read_to_end(&mut recovered).unwrap();
    reader.try_finish().unwrap();

    // Then interruptions were retried without losing any progress
    assert_eq!(recovered, plaintext);
    assert!(reader.is_finished());
}

/// Delegating reader that counts how many `seek` calls reach the
/// underlying stream.
struct SeekCounting<R> {
    inner: R,
    seeks: Rc<Cell<usize>>,
}

impl<R: Read> Read for SeekCounting<R> {
    fn read(&mut self, output: &mut [u8]) -> io::Result<usize> {
        self.inner.read(output)
    }
}

impl<R: Seek> Seek for SeekCounting<R> {
    fn seek(&mut self, position: SeekFrom) -> io::Result<u64> {
        self.seeks.set(self.seeks.get() + 1);
        self.inner.seek(position)
    }
}

/// Delegating seekable reader with injectable seek and read failures and
/// an optional cap on total bytes served, after which it reports end of
/// stream early.
struct FailingSeeker<R> {
    inner: R,
    fail_seeks: bool,
    fail_reads: bool,
    remaining: Option<usize>,
}

impl<R> FailingSeeker<R> {
    fn new(inner: R) -> Self {
        Self {
            inner,
            fail_seeks: false,
            fail_reads: false,
            remaining: None,
        }
    }
}

impl<R: Read> Read for FailingSeeker<R> {
    fn read(&mut self, output: &mut [u8]) -> io::Result<usize> {
        if self.fail_reads {
            return Err(io::Error::other("injected read failure"));
        }
        match self.remaining {
            None => self.inner.read(output),
            Some(remaining) => {
                let allowed = remaining.min(output.len());
                let read = self.inner.read(&mut output[..allowed])?;
                self.remaining = Some(remaining - read);
                Ok(read)
            }
        }
    }
}

impl<R: Seek> Seek for FailingSeeker<R> {
    fn seek(&mut self, position: SeekFrom) -> io::Result<u64> {
        if self.fail_seeks {
            return Err(io::Error::other("injected seek failure"));
        }
        self.inner.seek(position)
    }
}

/// Broken `Seek` implementation whose reported end position lies before
/// the message start.
#[derive(Debug)]
struct LyingEndSeeker(Cursor<Vec<u8>>);

impl Read for LyingEndSeeker {
    fn read(&mut self, output: &mut [u8]) -> io::Result<usize> {
        self.0.read(output)
    }
}

impl Seek for LyingEndSeeker {
    fn seek(&mut self, position: SeekFrom) -> io::Result<u64> {
        match position {
            SeekFrom::End(_) => Ok(0),
            other => self.0.seek(other),
        }
    }
}

type FailingSeekerReader = Reader<FailingSeeker<Cursor<Vec<u8>>>>;

fn failing_reader_fixture() -> (FailingSeekerReader, Vec<u8>, Parameters) {
    let (plaintext, ciphertext, parameters) = fixture_message();
    let reader = Reader::new(
        FailingSeeker::new(Cursor::new(ciphertext)),
        &test_key(),
        b"random reader",
    )
    .unwrap();
    (reader, plaintext, parameters)
}

/// The shared three-segment fixture message.
fn fixture_message() -> (Vec<u8>, Vec<u8>, Parameters) {
    let parameters = Parameters::segment_4_kib();
    let plaintext: Vec<u8> = (0..2 * parameters.plaintext_segment_length() + 37)
        .map(|position| u8::try_from(position % 251).unwrap())
        .collect();
    let ciphertext = encrypt(&test_key(), b"random reader", parameters, &plaintext).unwrap();
    (plaintext, ciphertext, parameters)
}

fn framed_reader_fixture() -> (Reader<Cursor<Vec<u8>>>, Vec<u8>, Parameters) {
    let (plaintext, ciphertext, parameters) = fixture_message();
    let mut framed = b"pre".to_vec();
    framed.extend_from_slice(&ciphertext);
    let mut cursor = Cursor::new(framed);
    cursor.set_position(3);
    let reader = Reader::new(cursor, &test_key(), b"random reader").unwrap();
    (reader, plaintext, parameters)
}

#[test]
fn reads_individual_segments_without_decrypting_complete_message() {
    // Given a reader over a three-segment message that starts mid-stream
    let (mut reader, plaintext, parameters) = framed_reader_fixture();
    assert_eq!(reader.parameters(), parameters);
    assert_eq!(
        reader.plaintext_length(),
        u64::try_from(plaintext.len()).unwrap()
    );

    // When the middle segment is read by position
    // Then exactly that segment's plaintext is returned
    assert_eq!(
        reader.read_segment(1).unwrap(),
        plaintext
            [parameters.plaintext_segment_length()..2 * parameters.plaintext_segment_length()]
    );

    // When it is read into a caller-provided buffer
    // Then the same bytes are written at the declared length
    let mut segment_output = vec![0; parameters.plaintext_segment_length()];
    assert_eq!(
        reader.read_segment_into(1, &mut segment_output).unwrap(),
        segment_output.len()
    );
    assert_eq!(
        segment_output,
        plaintext
            [parameters.plaintext_segment_length()..2 * parameters.plaintext_segment_length()]
    );

    // When the buffer is too small, then the read is rejected
    assert_eq!(
        reader.read_segment_into(1, &mut []).unwrap_err().kind(),
        io::ErrorKind::InvalidInput
    );
}

#[test]
fn reads_arbitrary_ranges_across_segment_boundaries() {
    // Given a reader over a three-segment message that starts mid-stream
    let (mut reader, plaintext, parameters) = framed_reader_fixture();

    // When a range straddling a segment boundary is read
    // Then exactly the requested bytes are returned
    let range =
        parameters.plaintext_segment_length() - 11..parameters.plaintext_segment_length() + 19;
    let range = u64::try_from(range.start).unwrap()..u64::try_from(range.end).unwrap();
    assert_eq!(
        reader.read_range(range.clone()).unwrap(),
        plaintext[usize::try_from(range.start).unwrap()..usize::try_from(range.end).unwrap()]
    );

    // When every open and closed range form is read
    // Then each resolves against the plaintext length.
    // A range spanning a fully covered middle segment exercises the
    // direct-into-output path together with both cached edges.
    let full = reader.read_range(..).unwrap();
    assert_eq!(full, plaintext);
    let tail = reader.read_range(5..).unwrap();
    assert_eq!(tail, plaintext[5..]);
    let head = reader.read_range(..=9).unwrap();
    assert_eq!(head, plaintext[..10]);
}

#[test]
fn read_and_seek_provide_authenticated_plaintext_view() {
    // Given a reader over a message spanning three segments
    let key = test_key();
    let parameters = Parameters::segment_4_kib();
    let segment_length = parameters.plaintext_segment_length();
    let plaintext: Vec<u8> = (0..2 * segment_length + 23)
        .map(|position| u8::try_from(position % 249).unwrap())
        .collect();
    let ciphertext = encrypt(&key, b"seekable", parameters, &plaintext).unwrap();
    let mut reader = Reader::new(Cursor::new(ciphertext), &key, b"seekable").unwrap();

    // When the whole view is streamed with the Read implementation
    let mut streamed = Vec::new();
    reader.read_to_end(&mut streamed).unwrap();

    // Then the complete plaintext is produced
    assert_eq!(streamed, plaintext);

    // When the reader seeks from the start and reads a chunk
    let offset = u64::try_from(segment_length + 100).unwrap();
    assert_eq!(reader.seek(SeekFrom::Start(offset)).unwrap(), offset);
    let mut chunk = [0u8; 64];
    reader.read_exact(&mut chunk).unwrap();

    // Then the chunk matches the plaintext at that offset
    let start = usize::try_from(offset).unwrap();
    assert_eq!(chunk, plaintext[start..start + 64]);

    // When the reader seeks from the end and reads to the end
    assert_eq!(
        reader.seek(SeekFrom::End(-8)).unwrap(),
        u64::try_from(plaintext.len() - 8).unwrap()
    );
    let mut tail = Vec::new();
    reader.read_to_end(&mut tail).unwrap();

    // Then exactly the plaintext tail is produced
    assert_eq!(tail, plaintext[plaintext.len() - 8..]);
}

#[test]
fn seeks_past_end_read_as_empty_and_negative_seeks_rejected() {
    // Given a seekable reader over a short message
    let key = test_key();
    let parameters = Parameters::segment_4_kib();
    let plaintext = b"seek boundaries";
    let ciphertext = encrypt(&key, b"seekable", parameters, plaintext).unwrap();
    let mut reader = Reader::new(Cursor::new(ciphertext), &key, b"seekable").unwrap();

    // When the reader seeks past the end of the plaintext
    reader
        .seek(SeekFrom::Start(u64::try_from(plaintext.len() + 1).unwrap()))
        .unwrap();

    // Then reading produces end-of-stream rather than an error
    let mut empty = Vec::new();
    reader.read_to_end(&mut empty).unwrap();
    assert!(empty.is_empty());

    // When the reader seeks before position zero
    // Then the seek is rejected
    reader.seek(SeekFrom::Start(0)).unwrap();
    assert_eq!(
        reader.seek(SeekFrom::Current(-1)).unwrap_err().kind(),
        io::ErrorKind::InvalidInput
    );
}

#[test]
#[allow(clippy::reversed_empty_ranges)] // deliberately invalid range input
fn rejects_invalid_ranges_and_supports_a_parameter_check() {
    // Given a reader over a single-segment message
    let key = test_key();
    let ciphertext = encrypt(
        &key,
        b"random reader",
        Parameters::segment_4_kib(),
        b"plaintext",
    )
    .unwrap();
    let mut reader = Reader::new(Cursor::new(ciphertext), &key, b"random reader").unwrap();

    // Then the authenticated parameters are available
    assert_ne!(reader.parameters(), Parameters::segment_1_mib());

    // When a range beyond the plaintext or a reversed range is read
    // Then each is rejected as invalid input
    assert_eq!(
        reader.read_range(0..u64::MAX).unwrap_err().kind(),
        io::ErrorKind::InvalidInput
    );
    assert_eq!(
        reader.read_range(5..2).unwrap_err().kind(),
        io::ErrorKind::InvalidInput
    );
}

#[test]
fn contiguous_segment_reads_skip_redundant_seeks() {
    // Given a reader over a three-segment message whose underlying
    // stream counts seek calls
    let key = test_key();
    let parameters = Parameters::segment_4_kib();
    let plaintext: Vec<u8> = (0..2 * parameters.plaintext_segment_length() + 11)
        .map(|position| u8::try_from(position % 251).unwrap())
        .collect();
    let ciphertext = encrypt(&key, b"seek count", parameters, &plaintext).unwrap();
    let seeks = Rc::new(Cell::new(0));
    let counting = SeekCounting {
        inner: Cursor::new(ciphertext),
        seeks: Rc::clone(&seeks),
    };
    let mut reader = Reader::new(counting, &key, b"seek count").unwrap();

    // When the plaintext is streamed sequentially after construction
    seeks.set(0);
    let mut streamed = Vec::new();
    reader.read_to_end(&mut streamed).unwrap();

    // Then every segment followed the previous one and no seek was needed
    assert_eq!(streamed, plaintext);
    assert_eq!(seeks.get(), 0, "contiguous reads must not reseek");

    // When a whole-message range read follows the sequential pass
    seeks.set(0);
    assert_eq!(reader.read_range(..).unwrap(), plaintext);

    // Then only the initial repositioning to the first segment seeks
    assert_eq!(seeks.get(), 1, "only the first segment requires a seek");
}

#[test]
fn moving_the_inner_reader_through_get_mut_is_tolerated() {
    // Given a reader over a three-segment message
    let key = test_key();
    let parameters = Parameters::segment_4_kib();
    let segment_length = parameters.plaintext_segment_length();
    let plaintext: Vec<u8> = (0..2 * segment_length + 17)
        .map(|position| u8::try_from(position % 251).unwrap())
        .collect();
    let ciphertext = encrypt(&key, b"get_mut", parameters, &plaintext).unwrap();
    let mut reader = Reader::new(Cursor::new(ciphertext), &key, b"get_mut").unwrap();
    assert_eq!(
        reader.read_segment(1).unwrap(),
        plaintext[segment_length..2 * segment_length]
    );

    // When the wrapped reader is repositioned behind the reader's back
    reader.get_mut().seek(SeekFrom::Start(0)).unwrap();

    // Then subsequent segment reads reposition explicitly and still
    // authenticate the correct segments
    assert_eq!(
        reader.read_segment(2).unwrap(),
        plaintext[2 * segment_length..]
    );
    assert_eq!(reader.read_segment(0).unwrap(), plaintext[..segment_length]);
}

#[test]
fn construction_authenticates_complete_message_tail() {
    // Given a valid two-segment ciphertext
    let key = test_key();
    let parameters = Parameters::segment_4_kib();
    let plaintext = vec![0x5a; parameters.plaintext_segment_length() + 19];
    let ciphertext = encrypt(&key, b"random reader", parameters, &plaintext).unwrap();

    // When a reader is constructed over every truncation of it
    for length in 0..ciphertext.len() {
        let truncated = &ciphertext[..length];

        // Then construction rejects the incomplete message up front
        assert!(
            Reader::new(Cursor::new(truncated), &key, b"random reader").is_err(),
            "constructor accepted truncation at {length}"
        );
    }

    // When one byte is appended to the complete message
    // Then construction rejects the trailing data
    let mut appended = ciphertext.clone();
    appended.push(0);
    assert!(Reader::new(Cursor::new(appended), &key, b"random reader").is_err());

    // When the final segment's length prefix understates its length
    // Then construction rejects the forged tail
    let layout = parameters
        .ciphertext_layout(u64::try_from(ciphertext.len()).unwrap())
        .unwrap();
    let final_segment = layout.final_segment();
    let mut forged = ciphertext;
    let prefix_start = usize::try_from(final_segment.ciphertext_offset()).unwrap();
    let forged_length = u32::try_from(final_segment.ciphertext_length() - 1)
        .unwrap()
        .to_be_bytes();
    forged[prefix_start..prefix_start + SEGMENT_PREFIX_LENGTH]
        .copy_from_slice(&forged_length);
    assert!(Reader::new(Cursor::new(forged), &key, b"random reader").is_err());
}

#[test]
fn bounded_constructor_preserves_following_frame() {
    // Given a stream holding a complete message between unrelated bytes
    let key = test_key();
    let parameters = Parameters::segment_4_kib();
    let plaintext = b"bounded random access";
    let ciphertext = encrypt(&key, b"random reader", parameters, plaintext).unwrap();
    let ciphertext_length = u64::try_from(ciphertext.len()).unwrap();
    let mut framed = b"pre".to_vec();
    framed.extend_from_slice(&ciphertext);
    framed.extend_from_slice(b"next frame");

    // When a reader is constructed with the message's explicit length
    let mut cursor = Cursor::new(framed.clone());
    cursor.set_position(3);
    let mut reader =
        Reader::new_with_length(cursor, &key, b"random reader", ciphertext_length).unwrap();

    // Then the bounded message reads fully and the inner reader stops
    // exactly at the following frame
    assert_eq!(reader.parameters(), parameters);
    assert_eq!(
        reader.read_range(0..plaintext.len() as u64).unwrap(),
        plaintext
    );
    let inner = reader.into_inner();
    let position = usize::try_from(inner.position()).unwrap();
    assert_eq!(&inner.get_ref()[position..], b"next frame");

    // When the unbounded constructor sees the same stream
    // Then the trailing frame makes construction fail
    let mut cursor = Cursor::new(framed);
    cursor.set_position(3);
    assert!(Reader::new(cursor, &key, b"random reader").is_err());

    // When the declared bound cannot hold a complete header
    // Then construction fails
    assert!(
        Reader::new_with_length(
            Cursor::new(vec![0; Header::LEN]),
            &key,
            b"random reader",
            u64::try_from(Header::LEN - 1).unwrap(),
        )
        .is_err()
    );
}

#[test]
fn read_range_into_writes_exact_range() {
    // Given a range spanning a partial, a full, and a partial segment
    let (mut reader, plaintext, parameters) = framed_reader_fixture();
    let capacity = parameters.plaintext_segment_length();
    let start = capacity - 7;
    let end = 2 * capacity + 5;
    let required = end - start;

    // When the range is read into an oversized output allocation
    let mut output = vec![0xEE; required + 9];
    let written = reader
        .read_range_into(
            u64::try_from(start).unwrap()..u64::try_from(end).unwrap(),
            &mut output,
        )
        .unwrap();

    // Then exactly the requested bytes are written and the remainder of
    // the allocation is untouched
    assert_eq!(written, required);
    assert_eq!(&output[..written], &plaintext[start..end]);
    assert!(output[written..].iter().all(|&byte| byte == 0xEE));
}

#[test]
fn read_range_into_rejects_small_output() {
    // Given an output allocation one byte too small for the range
    let (mut reader, _, _) = framed_reader_fixture();
    let mut output = [0u8; 9];

    // When the range is read into it
    let error = reader.read_range_into(0u64..10, &mut output).unwrap_err();

    // Then the exact shortfall is classified as invalid input
    assert_eq!(error.kind(), io::ErrorKind::InvalidInput);
    assert!(matches!(
        crate_error(&error),
        Some(Error::OutputTooSmall {
            actual: 9,
            required: 10,
        })
    ));
}

#[test]
fn empty_range_reads_no_segments() {
    // Given a reader whose source fails on any further seek or read
    let (mut reader, _, _) = failing_reader_fixture();
    reader.get_mut().fail_seeks = true;
    reader.get_mut().fail_reads = true;

    // When empty ranges are read through both range APIs
    // Then both succeed without performing any I/O
    assert_eq!(reader.read_range(7u64..7).unwrap(), Vec::<u8>::new());
    let mut output = [0u8; 4];
    assert_eq!(reader.read_range_into(7u64..7, &mut output).unwrap(), 0);
}

#[test]
fn read_segment_rejects_position_equal_to_segment_count() {
    // Given a reader over a three-segment message
    let (mut reader, _, _) = framed_reader_fixture();
    let count = reader.segment_count();
    assert_eq!(count, 3);

    // When the first out-of-range position is read
    let error = reader.read_segment(count).unwrap_err();

    // Then the position and valid range are reported as invalid input
    assert_eq!(error.kind(), io::ErrorKind::InvalidInput);
    assert!(
        error
            .to_string()
            .contains(&format!("position {count} is outside 0..{count}"))
    );
}

#[test]
fn range_bounds_overflowing_u64_are_rejected() {
    // Given range bounds whose resolution overflows u64
    struct ExcludedMaxStart;

    impl RangeBounds<u64> for ExcludedMaxStart {
        fn start_bound(&self) -> Bound<&u64> {
            Bound::Excluded(&u64::MAX)
        }

        fn end_bound(&self) -> Bound<&u64> {
            Bound::Unbounded
        }
    }

    let (mut reader, _, _) = framed_reader_fixture();

    // When either overflowing form is read
    // Then both are classified as invalid input carrying LengthOverflow
    for error in [
        reader.read_range(ExcludedMaxStart).unwrap_err(),
        reader.read_range(0..=u64::MAX).unwrap_err(),
    ] {
        assert_eq!(error.kind(), io::ErrorKind::InvalidInput);
        assert!(matches!(
            crate_error(&error),
            Some(Error::LengthOverflow)
        ));
    }
}

#[test]
fn seek_failure_while_loading_a_segment_propagates() {
    // Given a reader whose source rejects seeks, with the tracked
    // position discarded by get_mut
    let (mut reader, plaintext, parameters) = failing_reader_fixture();
    reader.get_mut().fail_seeks = true;

    // When a non-cached segment is loaded
    let error = reader.read_segment(1).unwrap_err();

    // Then the injected failure is propagated
    assert!(error.to_string().contains("injected seek failure"));

    // Then clearing the fault restores the reader
    reader.get_mut().fail_seeks = false;
    assert_eq!(
        reader.read_segment(1).unwrap(),
        plaintext
            [parameters.plaintext_segment_length()..2 * parameters.plaintext_segment_length()]
    );
}

#[test]
fn read_failure_after_successful_seek_propagates() {
    // Given a reader whose source fails reads but not seeks
    let (mut reader, _, _) = failing_reader_fixture();
    reader.get_mut().fail_reads = true;

    // When a segment is loaded, then the injected failure is propagated
    let error = reader.read_segment(1).unwrap_err();
    assert!(error.to_string().contains("injected read failure"));
}

#[test]
fn short_segment_read_reports_exact_length_diagnostics() {
    // Given a source that serves only 100 more bytes of a full segment
    let (mut reader, _, parameters) = failing_reader_fixture();
    reader.get_mut().remaining = Some(100);

    // When the full first segment is read
    let error = reader.read_segment(0).unwrap_err();

    // Then the short read is classified with both exact lengths
    assert_eq!(error.kind(), io::ErrorKind::InvalidData);
    assert!(matches!(
        crate_error(&error),
        Some(Error::InvalidCiphertextLength {
            actual: 100,
            required: LengthRequirement::Exactly(required),
        }) if *required == parameters.ciphertext_segment_length()
    ));
}

#[test]
fn construction_rejects_end_position_before_message_start() {
    // Given a broken source whose reported end lies before the message
    // start position
    let key = test_key();
    let parameters = Parameters::segment_4_kib();
    let ciphertext = encrypt(&key, b"random reader", parameters, b"data").unwrap();
    let mut framed = b"pre".to_vec();
    framed.extend_from_slice(&ciphertext);
    let mut cursor = Cursor::new(framed);
    cursor.set_position(3);

    // When a reader is constructed over it
    let error = Reader::new(LyingEndSeeker(cursor), &key, b"random reader").unwrap_err();

    // Then the impossible geometry is rejected as invalid data
    assert_eq!(error.kind(), io::ErrorKind::InvalidData);
    assert!(
        error
            .to_string()
            .contains("ends before its starting position")
    );
}

#[test]
fn accessors_and_plaintext_position_are_observable() {
    // Given a reader over a three-segment message
    let (mut reader, plaintext, parameters) = framed_reader_fixture();
    let total = u64::try_from(plaintext.len()).unwrap();

    // Then the header, layout, and count accessors agree with the
    // authenticated message geometry
    assert_eq!(reader.header().unverified_parameters().unwrap(), parameters);
    assert_eq!(reader.layout().plaintext_length(), total);
    assert_eq!(reader.layout().segment_count(), 3);
    assert_eq!(reader.segment_count(), 3);
    assert!(reader.get_ref().position() > 0);

    // When the plaintext view seeks and reads
    // Then empty reads leave the position alone and reads advance it
    reader.seek(SeekFrom::Start(5)).unwrap();
    assert_eq!(reader.read(&mut []).unwrap(), 0);
    assert_eq!(reader.stream_position().unwrap(), 5);
    reader.read_exact(&mut [0u8; 4]).unwrap();
    assert_eq!(reader.stream_position().unwrap(), 9);

    // Then the wrapped reader is recoverable
    let inner = reader.into_inner();
    assert!(inner.position() > 0);
}

#[test]
fn ambiguous_keys_fail_from_every_entry_layer() {
    // Given a multi-provider build and a key with no explicit provider
    if Provider::build_default().is_some() {
        return;
    }
    let key = Key::from_bytes([0; Key::LEN]);
    let parameters = Parameters::segment_4_kib();
    let aad = b"ambiguous provider";

    // When each encryption entry point uses the ambiguous key
    // Then each demands an explicit provider selection
    assert_eq!(key.provider(), Err(Error::ProviderSelectionRequired));
    assert!(matches!(
        encrypt(&key, aad, parameters, b"message"),
        Err(Error::ProviderSelectionRequired)
    ));
    assert!(matches!(
        Encryptor::new(&key, aad, parameters),
        Err(Error::ProviderSelectionRequired)
    ));
    assert!(matches!(
        start_encryption(&key, aad, parameters),
        Err(Error::ProviderSelectionRequired)
    ));

    // When each decryption entry point uses the ambiguous key on a valid
    // ciphertext, then each demands an explicit provider selection
    let ciphertext = encrypt(&test_key(), aad, parameters, b"message").unwrap();
    let header = Header::try_from(&ciphertext[..Header::LEN]).unwrap();
    assert_eq!(
        decrypt(&key, aad, &ciphertext),
        Err(Error::ProviderSelectionRequired)
    );
    assert!(matches!(
        Decryptor::new(&key, aad, &header),
        Err(Error::ProviderSelectionRequired)
    ));
    assert!(matches!(
        start_decryption(&key, aad, parameters, &header),
        Err(Error::ProviderSelectionRequired)
    ));

    // When the io and random-access layers use the ambiguous key
    // Then each wraps the same selection error in its io::Error
    let encryption_error =
        EncryptWriter::new(Vec::new(), &key, aad, parameters).unwrap_err();
    assert_eq!(encryption_error.kind(), io::ErrorKind::Other);
    assert!(matches!(
        crate_error(&encryption_error),
        Some(Error::ProviderSelectionRequired)
    ));

    let decryption_error =
        DecryptReader::new(Cursor::new(ciphertext.clone()), &key, aad)
            .unwrap_err();
    assert_eq!(decryption_error.kind(), io::ErrorKind::InvalidData);
    assert!(matches!(
        crate_error(&decryption_error),
        Some(Error::ProviderSelectionRequired)
    ));

    let random_access_error =
        Reader::new(Cursor::new(ciphertext), &key, aad).unwrap_err();
    assert_eq!(random_access_error.kind(), io::ErrorKind::InvalidData);
    assert!(matches!(
        crate_error(&random_access_error),
        Some(Error::ProviderSelectionRequired)
    ));

    // Then the error message names every compiled provider and the
    // constructors that resolve the ambiguity
    let message = Error::ProviderSelectionRequired.to_string();
    for provider in Provider::COMPILED {
        assert!(message.contains(provider.name()));
    }
    assert!(message.contains("Key::from_bytes_with_provider"));
    assert!(message.contains("Key::generate_with_provider"));
}
