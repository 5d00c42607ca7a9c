use gzeus::gzcsv_core;
use gzeus::gzeus as chunk_seq;
use gzeus::source::MemSource;

#[test]
fn byte_chunker_empty_source_is_finished() {
    let mut chunker = gzcsv_core::CsvChunker::new(b'\n');
    let mut source = MemSource::new(Vec::new());
    let mut buffer = vec![0u8; 8];
    let r = chunker.read_and_write(&mut source, &mut buffer);
    assert_eq!(r, Err(gzcsv_core::ReaderErr::Finished));
}

#[test]
fn byte_chunker_splits_after_last_delimiter() {
    let mut chunker = gzcsv_core::CsvChunker::new(b'\n');
    let mut source = MemSource::new(b"ab\ncd\nef".to_vec());
    let mut buffer = vec![0u8; 16];
    let produced = chunker
        .read_and_write(&mut source, &mut buffer)
        .expect("first call reads data");
    assert_eq!(&buffer[..produced], b"ab\ncd\n");
    let produced = chunker
        .read_and_write(&mut source, &mut buffer)
        .expect("second call flushes the tail");
    assert_eq!(&buffer[..produced], b"ef");
    let r = chunker.read_and_write(&mut source, &mut buffer);
    assert_eq!(r, Err(gzcsv_core::ReaderErr::Finished));
}

#[test]
fn byte_chunker_no_delimiter_hands_region_through() {
    let mut chunker = gzcsv_core::CsvChunker::new(b'\n');
    let mut source = MemSource::new(b"abcdef".to_vec());
    let mut buffer = vec![0u8; 4];
    let produced = chunker
        .read_and_write(&mut source, &mut buffer)
        .expect("read succeeds");
    assert_eq!(&buffer[..produced], b"abcd");
    let produced = chunker
        .read_and_write(&mut source, &mut buffer)
        .expect("read succeeds");
    assert_eq!(&buffer[..produced], b"ef");
}

#[test]
fn seq_chunker_detects_delimiter_split_across_reads() {
    // "\r\n" arrives in two physical reads of three bytes each; it is
    // still found as one delimiter, not as two partial matches.
    let mut chunker = chunk_seq::CsvChunker::new("\r\n");
    let mut source = MemSource::with_step(b"ab\r\ncd".to_vec(), 3);
    let mut buffer = vec![0u8; 6];
    let produced = chunker
        .read_and_write(&mut source, &mut buffer)
        .expect("fill succeeds");
    assert_eq!(&buffer[..produced], b"ab\r\n");
    let produced = chunker
        .read_and_write(&mut source, &mut buffer)
        .expect("tail is emitted at end of data");
    assert_eq!(&buffer[..produced], b"cd");
    let r = chunker.read_and_write(&mut source, &mut buffer);
    assert!(matches!(r, Err(chunk_seq::ReaderErr::Finished)));
}

#[test]
fn seq_chunker_leftover_carries_partial_record() {
    let mut chunker = chunk_seq::CsvChunker::new("\r\n");
    let mut source = MemSource::new(b"a\r\nbb\r\nc".to_vec());
    let mut buffer = vec![0u8; 5];
    let produced = chunker
        .read_and_write(&mut source, &mut buffer)
        .expect("fill succeeds");
    assert_eq!(&buffer[..produced], b"a\r\n");
    let produced = chunker
        .read_and_write(&mut source, &mut buffer)
        .expect("fill succeeds");
    assert_eq!(&buffer[..produced], b"bb\r\n");
    let produced = chunker
        .read_and_write(&mut source, &mut buffer)
        .expect("tail is emitted at end of data");
    assert_eq!(&buffer[..produced], b"c");
}

#[test]
fn push_leftover_moves_pending_bytes_to_front() {
    let mut chunker = chunk_seq::CsvChunker::new("\n");
    let mut source = MemSource::new(b"ab\ncd".to_vec());
    let mut buffer = vec![0u8; 5];
    let produced = chunker
        .read_and_write(&mut source, &mut buffer)
        .expect("fill succeeds");
    assert_eq!(&buffer[..produced], b"ab\n");
    // the bytes after the delimiter are pending; they go to the front of
    // the next buffer
    let mut fresh = vec![9u8; 4];
    let n = chunker.push_leftover_to_buffer(&mut fresh);
    assert_eq!(n, 2);
    assert_eq!(&fresh[..2], b"cd");
    assert_eq!(&fresh[2..], &[9u8, 9u8]);
}

#[test]
fn push_leftover_reports_zero_when_empty() {
    let mut chunker = chunk_seq::CsvChunker::new("\n");
    let mut buffer = vec![7u8; 4];
    let n = chunker.push_leftover_to_buffer(&mut buffer);
    assert_eq!(n, 0);
    assert_eq!(buffer, vec![7u8; 4]);
}
