use gzeus::session::{FillSession, StreamSession};
use gzeus::source::MemSource;

#[test]
fn stream_session_partitions_at_delimiters() {
    let data = b"aaaa\nbbbbbbbbbbbbbbbb\ncc".to_vec();
    let source = MemSource::new(data);
    let mut session = StreamSession::new(source, 16, b'\n');
    assert!(!session.has_started());
    let c1 = session.read_chunk().unwrap();
    assert_eq!(c1, b"aaaa\n".to_vec());
    assert!(session.has_started());
    let c2 = session.read_chunk().unwrap();
    assert_eq!(c2, b"bbbbbbbbbbbbbbbb\n".to_vec());
    let c3 = session.read_chunk().unwrap();
    assert_eq!(c3, b"cc".to_vec());
    assert!(!session.is_finished());
    let c4 = session.read_chunk().unwrap();
    assert!(c4.is_empty());
    assert!(session.is_finished());
    assert_eq!(session.n_reads(), 3);
    assert_eq!(session.bytes_decompressed(), 24);
}

#[test]
fn stream_session_empty_source_finishes_at_once() {
    let source = MemSource::new(Vec::new());
    let mut session = StreamSession::new(source, 8, b'\n');
    let c = session.read_chunk().unwrap();
    assert!(c.is_empty());
    assert!(session.is_finished());
    // this implementation leaves the read counter untouched on the
    // finishing call
    assert_eq!(session.n_reads(), 0);
    assert_eq!(session.bytes_decompressed(), 0);
}

#[test]
fn stream_session_termination_is_idempotent() {
    let source = MemSource::new(b"x\ny\n".to_vec());
    let mut session = StreamSession::new(source, 4, b'\n');
    while !session.is_finished() {
        session.read_chunk().unwrap();
    }
    let reads = session.n_reads();
    let bytes = session.bytes_decompressed();
    for _ in 0..3 {
        let c = session.read_chunk().unwrap();
        assert!(c.is_empty());
    }
    assert!(session.is_finished());
    assert_eq!(session.n_reads(), reads);
    assert_eq!(session.bytes_decompressed(), bytes);
}

#[test]
fn stream_session_concatenation_reproduces_source() {
    // the source returns at most five bytes per read, so records straddle
    // physical read boundaries
    let data = b"alpha,1\nbeta,22\ngamma,333\ndelta".to_vec();
    let source = MemSource::with_step(data.clone(), 5);
    let mut session = StreamSession::new(source, 7, b'\n');
    let capacity = 7 + 7 / 4;
    let mut collected: Vec<u8> = Vec::new();
    while !session.is_finished() {
        let c = session.read_chunk().unwrap();
        assert!(c.len() <= capacity);
        collected.extend_from_slice(&c);
    }
    assert_eq!(collected, data);
}

#[test]
fn stream_session_record_straddles_capacity_boundary() {
    // one record exactly one byte longer than the destination buffer
    let data = b"aaaaaaaaaa\nbb\n".to_vec();
    let source = MemSource::new(data.clone());
    let mut session = StreamSession::new(source, 8, b'\n');
    let mut collected: Vec<u8> = Vec::new();
    while !session.is_finished() {
        let c = session.read_chunk().unwrap();
        collected.extend_from_slice(&c);
    }
    assert_eq!(collected, data);
}

#[test]
fn fill_session_emits_tail_at_end_of_data() {
    let data = b"a,b\r\nc,d\r\ne".to_vec();
    let source = MemSource::new(data.clone());
    let mut session = FillSession::new(source, 16, "\r\n");
    let c1 = session.read_chunk().unwrap();
    assert_eq!(c1, data);
    let c2 = session.read_chunk().unwrap();
    assert!(c2.is_empty());
    assert!(session.is_finished());
    assert_eq!(session.n_reads(), 1);
    assert_eq!(session.bytes_decompressed(), 11);
}

#[test]
fn fill_session_read_full_finishes_in_one_call() {
    let data = b"1,2,3\n4,5,6\n".to_vec();
    let source = MemSource::new(data.clone());
    let mut session = FillSession::new(source, 64, "\n");
    let c = session.read_full().unwrap();
    assert_eq!(c, data);
    assert!(session.is_finished());
    assert!(session.has_started());
    assert_eq!(session.n_reads(), 1);
    assert_eq!(session.bytes_decompressed(), 12);
    let after = session.read_chunk().unwrap();
    assert!(after.is_empty());
}
