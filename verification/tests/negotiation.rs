use conduit_compress::compressors::Compressor;
use conduit_compress::parse::{
    best_encoder, get_compressor, parse_accept_encoding, CompressError, EncodingPriorities,
};

fn to_priorities(priorities: Vec<(Compressor, f64)>) -> EncodingPriorities {
    let mut table = EncodingPriorities::new();
    for (compressor, priority) in priorities {
        table.insert(compressor, (priority * 1000.0) as u64);
    }
    table
}

#[test]
fn parse_no_q() {
    let test_accept_encoding = vec!["gzip", "deflate"];
    assert_eq!(
        parse_accept_encoding(&test_accept_encoding).ok().unwrap(),
        to_priorities(vec![(Compressor::Gzip, 1.0), (Compressor::Deflate, 1.0)])
    );
}

#[test]
fn parse_with_q() {
    let test_accept_encoding = vec!["gzip;q=0.8", "deflate"];
    assert_eq!(
        parse_accept_encoding(&test_accept_encoding).ok().unwrap(),
        to_priorities(vec![(Compressor::Gzip, 0.8), (Compressor::Deflate, 1.0)])
    );
}

#[test]
fn best_encoder_detection() {
    assert_eq!(
        best_encoder(to_priorities(vec![
            (Compressor::Gzip, 0.8),
            (Compressor::Deflate, 1.0)
        ]))
        .ok()
        .unwrap(),
        Compressor::Deflate
    );
}

#[test]
fn end_to_end() {
    let test_accept_encoding = vec!["gzip;q=0.8", "deflate"];
    assert_eq!(
        get_compressor(&test_accept_encoding).ok().unwrap(),
        Compressor::Deflate
    );
}

#[test]
fn tie_break_keeps_first_seen() {
    let tokens = vec!["gzip", "deflate"];
    assert_eq!(get_compressor(&tokens).ok().unwrap(), Compressor::Gzip);
}

#[test]
fn zero_weight_is_excluded() {
    let tokens = vec!["gzip;q=0"];
    assert!(matches!(
        get_compressor(&tokens),
        Err(CompressError::NoCompressor)
    ));
}

#[test]
fn zero_weight_as_decimal_is_excluded() {
    let tokens = vec!["gzip;q=0.000"];
    assert!(matches!(
        get_compressor(&tokens),
        Err(CompressError::NoCompressor)
    ));
}

#[test]
fn unknown_scheme_tokens_are_ignored() {
    let tokens = vec!["br", "gzip"];
    assert_eq!(
        parse_accept_encoding(&tokens).ok().unwrap(),
        to_priorities(vec![(Compressor::Gzip, 1.0)])
    );
}

#[test]
fn malformed_token_is_dropped() {
    let tokens = vec!["gzip;bad;extra"];
    assert_eq!(
        parse_accept_encoding(&tokens).ok().unwrap(),
        to_priorities(vec![])
    );
}

#[test]
fn bad_q_value_is_dropped() {
    let tokens = vec!["gzip;q=abc"];
    assert_eq!(
        parse_accept_encoding(&tokens).ok().unwrap(),
        to_priorities(vec![])
    );
}

#[test]
fn parameter_name_is_not_inspected() {
    let tokens = vec!["gzip;x=0.5"];
    assert_eq!(
        parse_accept_encoding(&tokens).ok().unwrap(),
        to_priorities(vec![(Compressor::Gzip, 0.5)])
    );
}

#[test]
fn short_parameter_is_dropped() {
    let tokens = vec!["gzip;q", "deflate;"];
    assert_eq!(
        parse_accept_encoding(&tokens).ok().unwrap(),
        to_priorities(vec![])
    );
}

#[test]
fn later_duplicate_overwrites_earlier_weight() {
    let tokens = vec!["gzip;q=0.5", "deflate;q=0.9", "gzip"];
    assert_eq!(
        parse_accept_encoding(&tokens).ok().unwrap(),
        to_priorities(vec![(Compressor::Gzip, 1.0), (Compressor::Deflate, 0.9)])
    );
    assert_eq!(get_compressor(&tokens).ok().unwrap(), Compressor::Gzip);
}

#[test]
fn three_fraction_digits_are_exact() {
    let tokens = vec!["gzip;q=0.851", "deflate;q=0.85"];
    assert_eq!(
        parse_accept_encoding(&tokens).ok().unwrap(),
        to_priorities(vec![(Compressor::Gzip, 0.851), (Compressor::Deflate, 0.85)])
    );
    assert_eq!(get_compressor(&tokens).ok().unwrap(), Compressor::Gzip);
}

#[test]
fn fraction_digits_beyond_three_are_truncated() {
    let tokens = vec!["gzip;q=0.8999"];
    assert_eq!(
        parse_accept_encoding(&tokens).ok().unwrap(),
        to_priorities(vec![(Compressor::Gzip, 0.899)])
    );
}

#[test]
fn oversized_q_value_is_dropped() {
    let tokens = vec!["gzip;q=99999999999999999999"];
    assert_eq!(
        parse_accept_encoding(&tokens).ok().unwrap(),
        to_priorities(vec![])
    );
}

#[test]
fn empty_token_list_has_no_scheme() {
    let tokens: Vec<&str> = vec![];
    assert!(matches!(
        get_compressor(&tokens),
        Err(CompressError::NoCompressor)
    ));
}

#[test]
fn negotiation_is_idempotent() {
    let tokens = vec!["gzip;q=0.8", "deflate", "br", "gzip;bad;extra"];
    let first = get_compressor(&tokens);
    let second = get_compressor(&tokens);
    assert_eq!(first, second);
    assert_eq!(first.ok().unwrap(), Compressor::Deflate);
}

#[test]
fn error_descriptions() {
    assert_eq!(
        CompressError::NoCompressor.description(),
        "No compressor supported for the requested encodings."
    );
    assert_eq!(
        CompressError::CompressionFailure("stream failed".to_string()).description(),
        "stream failed"
    );
}

#[test]
fn scheme_tokens_are_case_sensitive() {
    assert_eq!(Compressor::from_str("gzip"), Some(Compressor::Gzip));
    assert_eq!(Compressor::from_str("deflate"), Some(Compressor::Deflate));
    assert_eq!(Compressor::from_str("GZIP"), None);
    assert_eq!(Compressor::from_str("gzipx"), None);
    assert_eq!(Compressor::from_str(""), None);
}
