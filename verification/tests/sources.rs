use shuf::io::buffer::BUFFER_SIZE;
use shuf::io::files::{FileReader, FileRef};
use shuf::io::source::{ByteSource, MemorySource};
use shuf::io::utf8::Utf8Scanner;
use shuf::io::{DataReference, DataSource, ReadError, ReadState};

/// A source over bytes in memory that can be told to fail, to lie about how much it
/// delivered, or to keep delivering after it has said that it ended.
struct Moody {
    data: Vec<u8>,
    pos: u64,
    reads_left: usize,
    seeks_left: usize,
    positions_left: usize,
    claim_extra: usize,
}

impl Moody {
    fn over(data: &[u8]) -> Self {
        Moody {
            data: data.to_vec(),
            pos: 0,
            reads_left: usize::MAX,
            seeks_left: usize::MAX,
            positions_left: usize::MAX,
            claim_extra: 0,
        }
    }
}

impl ByteSource for Moody {
    fn read(&mut self, buf: &mut Vec<u8>) -> Result<usize, String> {
        if self.reads_left == 0 {
            return Err(String::from("read refused"));
        }
        self.reads_left -= 1;
        let start = (self.pos as usize).min(self.data.len());
        let n = buf.len().min(self.data.len() - start);
        buf[..n].copy_from_slice(&self.data[start..start + n]);
        self.pos += n as u64;
        Ok(n + self.claim_extra)
    }

    fn seek(&mut self, target: u64) -> Result<(), String> {
        if self.seeks_left == 0 {
            return Err(String::from("seek refused"));
        }
        self.seeks_left -= 1;
        self.pos = target;
        Ok(())
    }

    fn stream_position(&mut self) -> Result<u64, String> {
        if self.positions_left == 0 {
            return Err(String::from("position refused"));
        }
        self.positions_left -= 1;
        Ok(self.pos)
    }
}

#[test]
fn memory_source_reads_from_its_position_and_moves_on() {
    let mut source = MemorySource::new(vec![1, 2, 3, 4, 5]);
    let mut buf = vec![0u8; 3];
    assert_eq!(source.stream_position(), Ok(0));
    assert_eq!(source.read(&mut buf), Ok(3));
    assert_eq!(buf, vec![1, 2, 3]);
    assert_eq!(source.stream_position(), Ok(3));
    assert_eq!(source.read(&mut buf), Ok(2));
    assert_eq!(buf, vec![4, 5, 3]);
    assert_eq!(source.read(&mut buf), Ok(0));
    assert_eq!(source.stream_position(), Ok(5));
}

#[test]
fn memory_source_seeks_anywhere() {
    let mut source = MemorySource::new(vec![1, 2, 3, 4, 5]);
    let mut buf = vec![0u8; 2];
    assert_eq!(source.seek(3), Ok(()));
    assert_eq!(source.read(&mut buf), Ok(2));
    assert_eq!(buf, vec![4, 5]);
    assert_eq!(source.seek(u64::MAX), Ok(()));
    assert_eq!(source.read(&mut buf), Ok(0));
    assert_eq!(source.stream_position(), Ok(u64::MAX));
    assert_eq!(source.seek(0), Ok(()));
    assert_eq!(source.read(&mut buf), Ok(2));
    assert_eq!(buf, vec![1, 2]);
}

#[test]
fn memory_source_reads_nothing_into_an_empty_buffer() {
    let mut source = MemorySource::new(vec![1, 2, 3]);
    let mut buf = Vec::new();
    assert_eq!(source.read(&mut buf), Ok(0));
    assert_eq!(source.stream_position(), Ok(0));
}

#[test]
fn memory_source_keeps_to_its_chunk_limit() {
    let mut source = MemorySource::with_chunk_limit(vec![1, 2, 3, 4, 5], 2);
    let mut buf = vec![0u8; 4];
    assert_eq!(source.read(&mut buf), Ok(2));
    assert_eq!(&buf[..2], &[1, 2]);
    assert_eq!(source.read(&mut buf), Ok(2));
    assert_eq!(&buf[..2], &[3, 4]);
    assert_eq!(source.read(&mut buf), Ok(1));
    assert_eq!(buf[0], 5);
    assert_eq!(source.read(&mut buf), Ok(0));
}

#[test]
fn the_scanner_reads_ahead_in_pieces_of_the_buffer_size() {
    let mut source = MemorySource::new(vec![0x41u8; BUFFER_SIZE + 10]);
    let mut scanner = match Utf8Scanner::attach(&mut source) {
        Ok(scanner) => scanner,
        Err(_) => panic!("a memory source does not fail"),
    };
    assert_eq!(BUFFER_SIZE, 65535);
    assert_eq!(scanner.next_utf8_char(&mut source), ReadState::Successful(0x41));
    assert_eq!(source.stream_position(), Ok(BUFFER_SIZE as u64));
    assert_eq!(scanner.current_position(), 1);
    for _ in 1..BUFFER_SIZE {
        assert_eq!(scanner.next_utf8_char(&mut source), ReadState::Successful(0x41));
    }
    assert_eq!(source.stream_position(), Ok(BUFFER_SIZE as u64));
    assert_eq!(scanner.next_utf8_char(&mut source), ReadState::Successful(0x41));
    assert_eq!(source.stream_position(), Ok(BUFFER_SIZE as u64 + 10));
    assert_eq!(scanner.current_position(), BUFFER_SIZE as u64 + 1);
}

#[test]
fn the_scanner_starts_where_the_source_stands() {
    let mut source = MemorySource::new(vec![1, 2, 3, 4]);
    assert_eq!(source.seek(2), Ok(()));
    let mut scanner = match Utf8Scanner::attach(&mut source) {
        Ok(scanner) => scanner,
        Err(_) => panic!("a memory source does not fail"),
    };
    assert_eq!(scanner.current_position(), 2);
    assert_eq!(scanner.next_utf8_char(&mut source), ReadState::Successful(3));
    assert_eq!(scanner.current_position(), 3);
}

#[test]
fn a_failing_read_is_an_io_error_with_its_reason() {
    let mut source = Moody::over(b"abc");
    source.reads_left = 0;
    let mut scanner = match Utf8Scanner::attach(&mut source) {
        Ok(scanner) => scanner,
        Err(_) => panic!("the position was not refused"),
    };
    assert_eq!(
        scanner.next_utf8_char(&mut source),
        ReadState::Error(ReadError::Io(String::from("read refused")))
    );
}

#[test]
fn a_source_that_cannot_tell_its_position_cannot_be_indexed() {
    let mut source = Moody::over(b"abc");
    source.positions_left = 0;
    let failed = FileReader::new(source, false);
    assert_eq!(failed.err(), Some(ReadError::Io(String::from("position refused"))));
}

#[test]
fn a_failing_read_leaves_no_reader() {
    let mut source = Moody::over(b"abc\rdef");
    source.reads_left = 0;
    let failed = FileReader::new(source, false);
    assert_eq!(failed.err(), Some(ReadError::Io(String::from("read refused"))));
}

#[test]
fn a_failing_seek_while_caching_leaves_no_reader() {
    let mut source = Moody::over(b"abc\rdef");
    source.seeks_left = 0;
    let failed = FileReader::new(source, true);
    assert_eq!(failed.err(), Some(ReadError::Io(String::from("seek refused"))));
}

#[test]
fn a_failing_seek_fails_the_line_and_nothing_else() {
    let mut source = Moody::over(b"abc\rdef");
    source.seeks_left = 2;
    let mut reader = match FileReader::new(source, false) {
        Ok(reader) => reader,
        Err(_) => panic!("indexing does not seek"),
    };
    assert_eq!(reader.resolve(1), Ok(b"def".to_vec()));
    assert_eq!(reader.resolve(1), Err(ReadError::Io(String::from("seek refused"))));
    assert_eq!(reader.line_count(), 2);
    assert_eq!(reader.resolve(2), Err(ReadError::Index { index: 2, count: 2 }));
}

#[test]
fn a_failing_read_fails_the_line() {
    let mut source = Moody::over(b"abc\rdef");
    source.reads_left = 3;
    let mut reader = match FileReader::new(source, false) {
        Ok(reader) => reader,
        Err(_) => panic!("three reads index this source"),
    };
    assert_eq!(reader.next_line(), ReadState::Error(ReadError::Io(String::from("read refused"))));
    assert_eq!(reader.cursor(), 1);
}

#[test]
fn a_source_that_claims_more_than_the_buffer_holds_is_refused() {
    let mut source = Moody::over(b"abc");
    source.claim_extra = BUFFER_SIZE;
    let failed = FileReader::new(source, false);
    assert_eq!(
        failed.err(),
        Some(ReadError::Mismatch { expected: BUFFER_SIZE, got: BUFFER_SIZE + 3 })
    );
}

#[test]
fn a_source_that_claims_more_than_the_line_has_is_refused() {
    let mut source = Moody::over(b"abc\rdef");
    let line = FileRef::new(4, 3);
    source.claim_extra = 1;
    assert_eq!(line.read(&mut source), Err(ReadError::Mismatch { expected: 3, got: 4 }));
}

#[test]
fn a_reference_reads_what_lies_at_its_offset() {
    let mut source = Moody::over(b"abc\rdef");
    let line = FileRef::new(4, 3);
    assert_eq!(line.offset(), 4);
    assert_eq!(line.length(), 3);
    assert!(!line.has_cached_content());
    assert_eq!(line.read(&mut source), Ok(b"def".to_vec()));
    assert_eq!(source.stream_position(), Ok(0));
    let behind = FileRef::new(5, 3);
    assert_eq!(behind.read(&mut source), Err(ReadError::Mismatch { expected: 3, got: 2 }));
    let empty = FileRef::new(100, 0);
    assert_eq!(empty.read(&mut source), Ok(Vec::new()));
}
