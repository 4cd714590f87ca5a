use std::io::Read;

use conduit_compress::compressors::{Body, Compressor, Response};
use conduit_compress::parse::CompressError;
use conduit_compress::Compress;

fn sample_data() -> Vec<u8> {
    let mut data = b"Hello World Hello World Hello World".to_vec();
    for i in 0..200u8 {
        data.push(i);
        data.push(i / 3);
    }
    data
}

#[test]
fn gzip_round_trip() {
    let data = sample_data();
    let compressed = Compressor::Gzip.compress_bytes(&data).unwrap();
    assert_ne!(compressed, data);
    let mut decoder = flate2::read::GzDecoder::new(&compressed[..]);
    let mut restored = Vec::new();
    decoder.read_to_end(&mut restored).unwrap();
    assert_eq!(restored, data);
}

#[test]
fn deflate_round_trip() {
    let data = sample_data();
    let compressed = Compressor::Deflate.compress_bytes(&data).unwrap();
    assert_ne!(compressed, data);
    let mut decoder = flate2::read::DeflateDecoder::new(&compressed[..]);
    let mut restored = Vec::new();
    decoder.read_to_end(&mut restored).unwrap();
    assert_eq!(restored, data);
}

#[test]
fn empty_buffer_round_trip() {
    let data: Vec<u8> = Vec::new();
    for scheme in [Compressor::Gzip, Compressor::Deflate] {
        let compressed = scheme.compress_bytes(&data).unwrap();
        let restored = match scheme {
            Compressor::Gzip => {
                let mut decoder = flate2::read::GzDecoder::new(&compressed[..]);
                let mut out = Vec::new();
                decoder.read_to_end(&mut out).unwrap();
                out
            }
            Compressor::Deflate => {
                let mut decoder = flate2::read::DeflateDecoder::new(&compressed[..]);
                let mut out = Vec::new();
                decoder.read_to_end(&mut out).unwrap();
                out
            }
        };
        assert_eq!(restored, data);
    }
}

#[test]
fn compress_replaces_body_with_encoded_stream() {
    let data = sample_data();
    let mut response = Response {
        body: Body::new(data.clone()),
    };
    Compressor::Gzip.compress(&mut response).unwrap();
    let compressed = response.body.read_to_end();
    assert_eq!(compressed, Compressor::Gzip.compress_bytes(&data).unwrap());
}

#[test]
fn body_is_one_shot() {
    let data = sample_data();
    let mut body = Body::new(data.clone());
    assert_eq!(body.remaining(), data.len());
    let first = body.read_to_end();
    assert_eq!(first, data);
    assert_eq!(body.remaining(), 0);
    let second = body.read_to_end();
    assert!(second.is_empty());
}

#[test]
fn clone_remaining_does_not_consume() {
    let data = sample_data();
    let body = Body::new(data.clone());
    assert_eq!(body.clone_remaining(), data);
    assert_eq!(body.remaining(), data.len());
}

#[test]
fn absent_header_leaves_body_unchanged() {
    let data = sample_data();
    let response = Response {
        body: Body::new(data.clone()),
    };
    let middleware = Compress;
    let result = middleware.after(None, Ok(response));
    let mut unchanged = result.ok().unwrap();
    assert_eq!(unchanged.body.read_to_end(), data);
}

#[test]
fn negotiated_scheme_rewrites_body() {
    let data = sample_data();
    let response = Response {
        body: Body::new(data.clone()),
    };
    let middleware = Compress;
    let tokens = vec!["gzip;q=0.8", "deflate"];
    let result = middleware.after(Some(&tokens), Ok(response));
    let compressed = result.ok().unwrap().body.read_to_end();
    let mut decoder = flate2::read::DeflateDecoder::new(&compressed[..]);
    let mut restored = Vec::new();
    decoder.read_to_end(&mut restored).unwrap();
    assert_eq!(restored, data);
}

#[test]
fn failed_negotiation_fails_the_response() {
    let data = sample_data();
    let response = Response {
        body: Body::new(data),
    };
    let middleware = Compress;
    let tokens = vec!["br", "gzip;q=0"];
    let result = middleware.after(Some(&tokens), Ok(response));
    assert!(matches!(result, Err(CompressError::NoCompressor)));
}

#[test]
fn downstream_error_passes_through() {
    let middleware = Compress;
    let tokens = vec!["gzip"];
    let downstream: Result<Response, CompressError> =
        Err(CompressError::CompressionFailure("boom".to_string()));
    let result = middleware.after(Some(&tokens), downstream);
    match result {
        Err(CompressError::CompressionFailure(message)) => assert_eq!(message, "boom"),
        other => panic!("expected the downstream error, got {:?}", other.map(|_| ())),
    }
}
