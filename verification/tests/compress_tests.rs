use std::io::Read;

use blogcore::compress::{compressible, CompressMiddleware};

#[test]
fn eligibility_by_content_type() {
    assert!(compressible("text/html"));
    assert!(!compressible("image/png"));
    assert!(compressible("application/json"));
}

#[test]
fn eligibility_covers_xml_families_and_parameters() {
    assert!(compressible("application/xml"));
    assert!(compressible("application/xhtml+xml"));
    assert!(compressible("application/javascript"));
    assert!(compressible("text/plain; charset=utf-8"));
    assert!(compressible("TEXT/HTML"));
    assert!(!compressible("application/octet-stream"));
    assert!(!compressible("audio/mpeg"));
}

#[test]
fn ineligible_body_passes_through() {
    let body = b"\x89PNG....".to_vec();
    let out = CompressMiddleware::new()
        .handle(Some("image/png"), false, Some("gzip"), body.clone())
        .unwrap();
    assert!(out.content_encoding.is_none());
    assert_eq!(out.body, body);
    assert_eq!(out.content_length, body.len());
}

#[test]
fn missing_accept_encoding_passes_through() {
    let body = b"<html></html>".to_vec();
    let out = CompressMiddleware::new()
        .handle(Some("text/html"), false, None, body.clone())
        .unwrap();
    assert!(out.content_encoding.is_none());
    assert_eq!(out.body, body);
}

#[test]
fn already_encoded_body_is_not_reencoded() {
    let body = b"pretend this is already gzip".to_vec();
    let out = CompressMiddleware::new()
        .handle(Some("text/html"), true, Some("gzip"), body.clone())
        .unwrap();
    assert!(out.content_encoding.is_none());
    assert_eq!(out.body, body);
}

#[test]
fn gzip_round_trip_through_negotiation() {
    let body = b"hello hello hello hello hello hello hello".to_vec();
    let out = CompressMiddleware::new()
        .handle(Some("text/html"), false, Some("gzip;q=1.0, deflate;q=0.5"), body.clone())
        .unwrap();
    assert_eq!(out.content_encoding.as_deref(), Some("gzip"));
    assert_eq!(out.content_length, out.body.len());
    assert_ne!(out.body, body);
    let mut decoder = flate2::read::GzDecoder::new(out.body.as_slice());
    let mut restored = Vec::new();
    decoder.read_to_end(&mut restored).unwrap();
    assert_eq!(restored, body);
}

#[test]
fn deflate_round_trip_through_negotiation() {
    let body = b"abcabcabcabcabcabcabcabc".to_vec();
    let out = CompressMiddleware::new()
        .handle(Some("text/html"), false, Some("deflate"), body.clone())
        .unwrap();
    assert_eq!(out.content_encoding.as_deref(), Some("deflate"));
    let mut decoder = flate2::read::DeflateDecoder::new(out.body.as_slice());
    let mut restored = Vec::new();
    decoder.read_to_end(&mut restored).unwrap();
    assert_eq!(restored, body);
}

#[test]
fn zlib_round_trip_through_negotiation() {
    let body = b"zzzzzzzzzzzzzzzzzzzzzzzzzzzz".to_vec();
    let out = CompressMiddleware::new()
        .handle(Some("application/json"), false, Some("zlib"), body.clone())
        .unwrap();
    assert_eq!(out.content_encoding.as_deref(), Some("zlib"));
    let mut decoder = flate2::read::ZlibDecoder::new(out.body.as_slice());
    let mut restored = Vec::new();
    decoder.read_to_end(&mut restored).unwrap();
    assert_eq!(restored, body);
}

#[test]
fn zero_quality_codec_is_never_chosen() {
    let body = b"some text body".to_vec();
    let out = CompressMiddleware::new()
        .handle(Some("text/html"), false, Some("gzip;q=0"), body.clone())
        .unwrap();
    assert!(out.content_encoding.is_none());
    assert_eq!(out.body, body);
}
