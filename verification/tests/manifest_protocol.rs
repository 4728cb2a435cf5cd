use aurorium::errors::{ParseError, ProtocolError};
use aurorium::manifest::parse;
use aurorium::patch_info::{decode_response, encode_request};

#[test]
fn parse_reads_records_in_order() {
    let doc = b"a.dat 1f 100\nsub/b.dat 2e 200 7\n".to_vec();
    let out = parse(&doc).unwrap();
    assert_eq!(out.assets.len(), 2);
    assert_eq!(out.duplicates_dropped, 0);
    assert_eq!(out.assets[0].path, b"a.dat".to_vec());
    assert_eq!(out.assets[0].fingerprint, b"1f".to_vec());
    assert_eq!(out.assets[0].size, 100);
    assert_eq!(out.assets[0].flags, 0);
    assert_eq!(out.assets[1].path, b"sub/b.dat".to_vec());
    assert_eq!(out.assets[1].size, 200);
    assert_eq!(out.assets[1].flags, 7);
}

#[test]
fn parse_empty_document_is_empty() {
    let out = parse(&Vec::new()).unwrap();
    assert!(out.assets.is_empty());
    assert_eq!(out.duplicates_dropped, 0);
}

#[test]
fn parse_first_duplicate_wins_and_is_counted() {
    let doc = b"a 11 1\nb 22 2\na 99 9\na 88 8\n".to_vec();
    let out = parse(&doc).unwrap();
    assert_eq!(out.assets.len(), 2);
    assert_eq!(out.duplicates_dropped, 2);
    assert_eq!(out.assets[0].fingerprint, b"11".to_vec());
    assert_eq!(out.assets[0].size, 1);
}

#[test]
fn parse_rejects_unterminated_final_record() {
    let doc = b"a 11 1\nb 22 2".to_vec();
    assert_eq!(parse(&doc).unwrap_err(), ParseError::UnterminatedRecord);
}

#[test]
fn parse_rejects_malformed_records() {
    assert_eq!(parse(&b"only-two-fields 11\n".to_vec()).unwrap_err(), ParseError::MalformedRecord);
    assert_eq!(parse(&b"a zz 1\n".to_vec()).unwrap_err(), ParseError::MalformedRecord);
    assert_eq!(parse(&b"a 11 x\n".to_vec()).unwrap_err(), ParseError::MalformedRecord);
    assert_eq!(parse(&b" 11 1\n".to_vec()).unwrap_err(), ParseError::MalformedRecord);
    assert_eq!(parse(&b"a 11 1 2 3\n".to_vec()).unwrap_err(), ParseError::MalformedRecord);
}

#[test]
fn parse_size_field_is_bounded() {
    // nineteen digits fit
    let ok = parse(&b"a 11 9999999999999999999\n".to_vec()).unwrap();
    assert_eq!(ok.assets[0].size, 9_999_999_999_999_999_999);
    // twenty digits do not
    assert_eq!(parse(&b"a 11 99999999999999999990\n".to_vec()).unwrap_err(), ParseError::MalformedRecord);
}

#[test]
fn parse_stops_at_first_failure() {
    // a malformed second record is reported even though the third lacks a newline
    let doc = b"a 11 1\nbad\nc 33 3".to_vec();
    assert_eq!(parse(&doc).unwrap_err(), ParseError::MalformedRecord);
}

fn frame(revision: u64, locator: &[u8]) -> Vec<u8> {
    let mut f = vec![0x50, 0x41];
    f.extend_from_slice(&revision.to_be_bytes());
    f.extend_from_slice(&(locator.len() as u16).to_be_bytes());
    f.extend_from_slice(locator);
    f
}

#[test]
fn request_frame_is_fixed() {
    assert_eq!(encode_request(), vec![0x50, 0x41, 0x3f]);
}

#[test]
fn decode_reads_revision_and_locator() {
    let f = frame(746756, b"patch/LatestFileList");
    let info = decode_response(&f, b"patch.example.net".to_vec(), 12500).unwrap();
    assert_eq!(info.revision, 746756);
    assert_eq!(info.locator, b"patch/LatestFileList".to_vec());
    assert_eq!(info.host, b"patch.example.net".to_vec());
    assert_eq!(info.port, 12500);
}

#[test]
fn decode_rejects_short_frames() {
    assert_eq!(decode_response(&vec![0x50], b"h".to_vec(), 1).unwrap_err(), ProtocolError::Truncated);
    assert_eq!(decode_response(&vec![0x50, 0x41, 0, 0], b"h".to_vec(), 1).unwrap_err(), ProtocolError::Truncated);
    let mut cut = frame(1, b"abc");
    cut.pop();
    assert_eq!(decode_response(&cut, b"h".to_vec(), 1).unwrap_err(), ProtocolError::Truncated);
}

#[test]
fn decode_rejects_bad_magic() {
    let mut f = frame(1, b"abc");
    f[0] = 0x51;
    assert_eq!(decode_response(&f, b"h".to_vec(), 1).unwrap_err(), ProtocolError::BadMagic);
}

#[test]
fn decode_rejects_trailing_bytes() {
    let mut f = frame(1, b"abc");
    f.push(0x00);
    assert_eq!(decode_response(&f, b"h".to_vec(), 1).unwrap_err(), ProtocolError::TrailingBytes);
}

#[test]
fn decode_rejects_unprintable_locator() {
    let f = frame(1, b"a b");
    assert_eq!(decode_response(&f, b"h".to_vec(), 1).unwrap_err(), ProtocolError::BadLocator);
}

#[test]
fn protocol_error_messages_name_the_failure() {
    assert_eq!(ProtocolError::BadMagic.message(), "upstream response: bad magic");
    assert_eq!(ProtocolError::Truncated.message(), "upstream response: truncated frame");
    assert_eq!(ProtocolError::TrailingBytes.message(), "upstream response: trailing bytes");
    assert_eq!(ProtocolError::BadLocator.message(), "upstream response: bad locator");
    assert_eq!(ParseError::UnterminatedRecord.message(), "manifest: unterminated record");
    assert_eq!(ParseError::MalformedRecord.message(), "manifest: malformed record");
}

#[test]
fn parse_accepts_uppercase_hex_fingerprints() {
    let out = parse(&b"a AB12cd 5\n".to_vec()).unwrap();
    assert_eq!(out.assets[0].fingerprint, b"AB12cd".to_vec());
}
