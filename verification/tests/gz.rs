use flate2::write::GzEncoder;
use flate2::Compression;
use gzeus::gz::GzipSource;
use gzeus::gzcsv_core::ReaderErr;
use gzeus::session::StreamSession;
use std::io::Write;

fn gzip(bytes: &[u8]) -> Vec<u8> {
    let mut encoder = GzEncoder::new(Vec::new(), Compression::default());
    encoder.write_all(bytes).unwrap();
    encoder.finish().unwrap()
}

#[test]
fn gzip_source_round_trips_through_session() {
    let text = b"id,name\n1,ada\n2,grace\n3,edsger".to_vec();
    let compressed = gzip(&text);
    assert_ne!(compressed, text);
    let source = GzipSource::new(compressed);
    let mut session = StreamSession::new(source, 8, b'\n');
    let mut collected: Vec<u8> = Vec::new();
    while !session.is_finished() {
        let c = session.read_chunk().unwrap();
        collected.extend_from_slice(&c);
    }
    assert_eq!(collected, text);
}

#[test]
fn gzip_source_decodes_all_members() {
    let mut compressed = gzip(b"first,member\n");
    compressed.extend_from_slice(&gzip(b"second,member\n"));
    let source = GzipSource::new(compressed);
    let mut session = StreamSession::new(source, 32, b'\n');
    let mut collected: Vec<u8> = Vec::new();
    while !session.is_finished() {
        let c = session.read_chunk().unwrap();
        collected.extend_from_slice(&c);
    }
    assert_eq!(collected, b"first,member\nsecond,member\n".to_vec());
}

#[test]
fn gzip_source_empty_payload_finishes_at_once() {
    let compressed = gzip(b"");
    let source = GzipSource::new(compressed);
    let mut session = StreamSession::new(source, 8, b'\n');
    let c = session.read_chunk().unwrap();
    assert!(c.is_empty());
    assert!(session.is_finished());
}

#[test]
fn gzip_source_malformed_input_surfaces_io_error() {
    let source = GzipSource::new(b"this is not a gzip stream".to_vec());
    let mut session = StreamSession::new(source, 8, b'\n');
    let r = session.read_chunk();
    assert!(matches!(r, Err(ReaderErr::IoError(_))));
    assert!(!session.is_finished());
}
