use shuf::io::files::{FileReader, DEFAULT_SEPARATOR};
use shuf::io::source::{ByteSource, MemorySource};
use shuf::io::DataReference;

fn index(bytes: &[u8], separator: u32, cache: bool, chunk: usize) -> FileReader<MemorySource> {
    let source = MemorySource::with_chunk_limit(bytes.to_vec(), chunk);
    match FileReader::with_separator(source, separator, cache) {
        Ok(reader) => reader,
        Err(_) => panic!("indexing a memory source failed"),
    }
}

fn spans(reader: &FileReader<MemorySource>) -> Vec<(u64, usize)> {
    let mut found = Vec::new();
    for i in 0..reader.line_count() {
        let line = reader.reference(i).unwrap();
        found.push((line.offset(), line.length()));
    }
    found
}

fn contents(reader: &mut FileReader<MemorySource>) -> Vec<Vec<u8>> {
    let mut found = Vec::new();
    for i in 0..reader.line_count() {
        match reader.resolve(i) {
            Ok(bytes) => found.push(bytes),
            Err(_) => panic!("a line could not be resolved"),
        }
    }
    found
}

#[test]
fn four_lines_with_an_empty_one_between_adjacent_separators() {
    let mut reader = index(b"abc\rdef\r\rghi", 13, false, usize::MAX);
    assert_eq!(reader.line_count(), 4);
    assert_eq!(spans(&reader), vec![(0, 3), (4, 3), (8, 0), (9, 3)]);
    assert_eq!(
        contents(&mut reader),
        vec![b"abc".to_vec(), b"def".to_vec(), b"".to_vec(), b"ghi".to_vec()]
    );
}

#[test]
fn new_splits_at_carriage_returns() {
    let source = MemorySource::new(b"one\ntwo\rthree".to_vec());
    let reader = match FileReader::new(source, false) {
        Ok(reader) => reader,
        Err(_) => panic!("indexing a memory source failed"),
    };
    assert_eq!(DEFAULT_SEPARATOR, 13);
    assert_eq!(reader.separator_code_point(), 13);
    assert_eq!(spans(&reader), vec![(0, 7), (8, 5)]);
}

#[test]
fn an_empty_file_has_no_lines() {
    assert_eq!(index(b"", 13, false, usize::MAX).line_count(), 0);
    assert_eq!(index(b"", 13, true, usize::MAX).line_count(), 0);
}

#[test]
fn a_file_of_separators_has_an_empty_line_for_each() {
    let reader = index(b"\r\r\r", 13, false, usize::MAX);
    assert_eq!(spans(&reader), vec![(0, 0), (1, 0), (2, 0)]);
    let reader = index(b"\r", 13, false, usize::MAX);
    assert_eq!(spans(&reader), vec![(0, 0)]);
}

#[test]
fn separators_count_lines() {
    assert_eq!(index(b"a\rb\rc", 13, false, usize::MAX).line_count(), 3);
    assert_eq!(index(b"a\rb\rc\r", 13, false, usize::MAX).line_count(), 3);
    assert_eq!(index(b"abc", 13, false, usize::MAX).line_count(), 1);
    assert_eq!(index(b"abc\r", 13, false, usize::MAX).line_count(), 1);
    assert_eq!(index(b"\rabc", 13, false, usize::MAX).line_count(), 2);
}

#[test]
fn no_empty_line_follows_a_closing_separator() {
    let reader = index(b"abc\rdef\r", 13, false, usize::MAX);
    assert_eq!(spans(&reader), vec![(0, 3), (4, 3)]);
}

#[test]
fn another_separator_can_be_asked_for() {
    let reader = index(b"a\rb\nc\n", 10, false, usize::MAX);
    assert_eq!(spans(&reader), vec![(0, 3), (4, 1)]);
}

#[test]
fn a_separator_of_several_bytes_is_left_out_whole() {
    let bytes = [0x61, 0xE2, 0x80, 0xA8, 0x62, 0x63, 0xE2, 0x80, 0xA8, 0xE2, 0x80, 0xA8, 0x64];
    let mut reader = index(&bytes, 0x2028, false, usize::MAX);
    assert_eq!(spans(&reader), vec![(0, 1), (4, 2), (9, 0), (12, 1)]);
    assert_eq!(
        contents(&mut reader),
        vec![b"a".to_vec(), b"bc".to_vec(), b"".to_vec(), b"d".to_vec()]
    );
}

#[test]
fn an_overlong_separator_closes_a_line_too() {
    let reader = index(&[0x61, 0xC0, 0x8D, 0x62], 13, false, usize::MAX);
    assert_eq!(spans(&reader), vec![(0, 1), (3, 1)]);
}

#[test]
fn the_replacement_code_point_can_separate() {
    let reader = index(&[0x61, 0xFF, 0x62, 0xEF, 0xBF, 0xBD, 0x63], 0xFFFD, false, usize::MAX);
    assert_eq!(spans(&reader), vec![(0, 1), (2, 1), (6, 1)]);
}

#[test]
fn line_boundaries_hold_in_malformed_content() {
    let bytes = [0xC3, 0x0D, 0x61, 0xE2, 0x82, 0x0D, 0xFF, 0x80, 0x0D, 0x62];
    let mut reader = index(&bytes, 13, false, usize::MAX);
    assert_eq!(spans(&reader), vec![(0, 1), (2, 3), (6, 2), (9, 1)]);
    assert_eq!(
        contents(&mut reader),
        vec![vec![0xC3], vec![0x61, 0xE2, 0x82], vec![0xFF, 0x80], vec![0x62]]
    );
}

#[test]
fn a_sequence_cut_short_by_the_end_belongs_to_the_last_line() {
    let mut reader = index(&[0x61, 0x0D, 0x62, 0xE2, 0x82], 13, false, usize::MAX);
    assert_eq!(spans(&reader), vec![(0, 1), (2, 3)]);
    assert_eq!(contents(&mut reader), vec![vec![0x61], vec![0x62, 0xE2, 0x82]]);
    let reader = index(&[0x61, 0x0D, 0xF0], 13, false, usize::MAX);
    assert_eq!(spans(&reader), vec![(0, 1), (2, 1)]);
}

#[test]
fn the_index_does_not_depend_on_how_the_source_delivers() {
    let bytes = [
        0x61, 0xC3, 0xA9, 0x0D, 0xE2, 0x82, 0x0D, 0x0D, 0xF0, 0x9F, 0x98, 0x80, 0x0D, 0x62, 0xC3,
    ];
    let whole = spans(&index(&bytes, 13, false, usize::MAX));
    assert_eq!(whole, vec![(0, 3), (4, 2), (7, 0), (8, 4), (13, 2)]);
    for chunk in 1..6 {
        assert_eq!(spans(&index(&bytes, 13, false, chunk)), whole);
    }
}

#[test]
fn indexing_starts_where_the_source_stands() {
    let mut source = MemorySource::new(b"abc\rdef\rghi".to_vec());
    assert_eq!(source.seek(5), Ok(()));
    let mut reader = match FileReader::new(source, false) {
        Ok(reader) => reader,
        Err(_) => panic!("indexing a memory source failed"),
    };
    assert_eq!(spans(&reader), vec![(5, 2), (8, 3)]);
    assert_eq!(contents(&mut reader), vec![b"ef".to_vec(), b"ghi".to_vec()]);
}

#[test]
fn a_source_that_stands_behind_its_end_has_no_lines() {
    let mut source = MemorySource::new(b"abc".to_vec());
    assert_eq!(source.seek(10), Ok(()));
    let reader = match FileReader::new(source, true) {
        Ok(reader) => reader,
        Err(_) => panic!("indexing a memory source failed"),
    };
    assert_eq!(reader.line_count(), 0);
}

#[test]
fn a_file_larger_than_the_buffer_is_indexed_whole() {
    let mut bytes = Vec::new();
    let mut expected = Vec::new();
    let mut offset: u64 = 0;
    for i in 0..5000usize {
        let length = i % 97;
        expected.push((offset, length));
        for k in 0..length {
            bytes.push(b'a' + (k % 26) as u8);
        }
        bytes.push(13);
        offset += length as u64 + 1;
    }
    assert!(bytes.len() > 3 * 65535);
    let mut reader = index(&bytes, 13, false, usize::MAX);
    assert_eq!(spans(&reader), expected);
    let line = reader.resolve(4999).unwrap_or_default();
    assert_eq!(line.len(), 4999 % 97);
    assert_eq!(line[0], b'a');
}

#[test]
fn offsets_rise_and_lines_do_not_overlap() {
    let reader = index(b"a\r\rbcd\r\r\re", 13, false, 2);
    let found = spans(&reader);
    for pair in found.windows(2) {
        assert!(pair[0].0 < pair[1].0);
        assert!(pair[0].0 + pair[0].1 as u64 <= pair[1].0);
    }
    assert_eq!(found.len(), 6);
}

#[test]
fn cached_lines_hold_their_bytes() {
    let reader = index(b"abc\rdef\r\rghi", 13, true, usize::MAX);
    for i in 0..reader.line_count() {
        assert!(reader.reference(i).unwrap().has_cached_content());
    }
    assert_eq!(reader.reference(1).unwrap().cached_content(), Some(&b"def".to_vec()));
    assert_eq!(reader.reference(2).unwrap().cached_content(), Some(&Vec::new()));
    let reader = index(b"abc\rdef\r\rghi", 13, false, usize::MAX);
    for i in 0..reader.line_count() {
        assert!(!reader.reference(i).unwrap().has_cached_content());
        assert_eq!(reader.reference(i).unwrap().cached_content(), None);
    }
    assert!(reader.reference(4).is_none());
}

#[test]
fn a_reference_reads_its_line_from_any_source_with_that_content() {
    let reader = index(b"abc\rdefg\rhi", 13, false, usize::MAX);
    let mut other = MemorySource::new(b"abc\rdefg\rhi".to_vec());
    assert_eq!(other.seek(2), Ok(()));
    let line = reader.reference(1).unwrap();
    assert_eq!(line.read(&mut other), Ok(b"defg".to_vec()));
    assert_eq!(other.stream_position(), Ok(2));
}

#[test]
fn the_indexer_hands_out_one_line_per_call() {
    let mut source = MemorySource::with_chunk_limit(b"ab\r\rcde".to_vec(), 2);
    let mut indexer = match shuf::io::files::LineIndexer::attach(&mut source, 13, true) {
        Ok(indexer) => indexer,
        Err(_) => panic!("a memory source does not fail"),
    };
    let mut found = Vec::new();
    loop {
        match indexer.read_next_line_internal(&mut source) {
            shuf::io::ReadState::Successful(line) => {
                found.push((line.offset(), line.length(), line.cached_content().cloned()))
            }
            shuf::io::ReadState::EndOfData => break,
            shuf::io::ReadState::Error(e) => {
                assert_eq!(e, shuf::io::ReadError::Mismatch { expected: 3, got: 2 });
                found.push((u64::MAX, 0, None));
                break;
            }
        }
    }
    assert_eq!(
        found,
        vec![(0, 2, Some(b"ab".to_vec())), (3, 0, Some(Vec::new())), (u64::MAX, 0, None)]
    );
}
