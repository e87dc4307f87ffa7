use http_file_headers::accept_encoding::{AcceptEncodingParser, Encoding, parse_q};

fn to_ext(h: &str) -> Vec<&'static str> {
    let mut parser = AcceptEncodingParser::new();
    parser.add_header(h.as_bytes());
    let ae = parser.done();
    let mut it = ae.iter();
    let mut out = Vec::new();
    while let Some(e) = it.next() {
        out.push(e.suffix());
    }
    out
}

#[test]
fn accept_encoding_size() {
    assert!(std::mem::size_of::<Option<Encoding>>() <= 2);
}

#[test]
fn parse_q_none() {
    assert_eq!(parse_q(None), Some(1000));
}

#[test]
fn parse_q_one() {
    assert_eq!(parse_q(Some(b"q=1")), Some(1000));
    assert_eq!(parse_q(Some(b"q=1.0")), Some(1000));
    assert_eq!(parse_q(Some(b"q=1.00")), Some(1000));
    assert_eq!(parse_q(Some(b"q=1.000")), Some(1000));
}

#[test]
fn parse_q_bad() {
    assert_eq!(parse_q(Some(b"q=1.1")), None);
    assert_eq!(parse_q(Some(b"q=0.0000")), None);
    assert_eq!(parse_q(Some(b"q=1.0000")), None);
    assert_eq!(parse_q(Some(b"q=1.37372")), None);
    assert_eq!(parse_q(Some(b"q=0.37372")), None);
    assert_eq!(parse_q(Some(b"q=2.0")), None);
}

#[test]
fn parse_q_norm() {
    assert_eq!(parse_q(Some(b"q=0")), Some(0));
    assert_eq!(parse_q(Some(b"q=0.0")), Some(0));
    assert_eq!(parse_q(Some(b"q=0.00")), Some(0));
    assert_eq!(parse_q(Some(b"q=0.000")), Some(0));
    assert_eq!(parse_q(Some(b"q=0")), Some(0));
    assert_eq!(parse_q(Some(b"q=0.1")), Some(100));
    assert_eq!(parse_q(Some(b"q=0.23")), Some(230));
    assert_eq!(parse_q(Some(b"q=0.456")), Some(456));
}

#[test]
fn test_norm() {
    assert_eq!(to_ext(""), vec![""]);
}

#[test]
fn test_br() {
    assert_eq!(to_ext("br"), vec![".br", ""]);
}

#[test]
fn test_gz() {
    assert_eq!(to_ext("gzip"), vec![".gz", ""]);
}

#[test]
fn test_br_gz() {
    assert_eq!(to_ext("br, gzip"), vec![".br", ".gz", ""]);
}

#[test]
fn test_gz_br() {
    // same weight, brotli wins, as it compresses better
    assert_eq!(to_ext("gzip, br"), vec![".br", ".gz", ""]);
}

#[test]
fn test_gz_br_q() {
    assert_eq!(to_ext("gzip, br;q=0.5"), vec![".gz", ".br", ""]);
}

#[test]
fn test_identity() {
    assert_eq!(to_ext("identity"), vec![""]);
    assert_eq!(to_ext("gzip, br, identity"), vec![".br", ".gz", ""]);
    assert_eq!(to_ext("identity, br"), vec![".br", ""]);
    assert_eq!(to_ext("identity, br;q=0.5"), vec!["", ".br"]);
}

#[test]
fn identity_reachable_once() {
    for header in ["", "br", "gzip, br", "identity;q=0.5, br", "br, br;q=0.5, gzip"] {
        let mut parser = AcceptEncodingParser::new();
        parser.add_header(header.as_bytes());
        let ae = parser.done();
        let mut it = ae.iter();
        let yielded = it.collect_all();
        let identities = yielded
            .iter()
            .filter(|e| **e == Encoding::Identity)
            .count();
        assert_eq!(identities, 1, "header {:?}", header);
    }
}

#[test]
fn higher_q_first() {
    assert_eq!(to_ext("br;q=0.3, gzip;q=0.9"), vec![".gz", ".br", ""]);
    assert_eq!(to_ext("br;q=0.9, gzip;q=0.3"), vec![".br", ".gz", ""]);
}

#[test]
fn q_zero_dropped() {
    assert_eq!(to_ext("br;q=0"), vec![""]);
    assert_eq!(to_ext("br;q=0, gzip"), vec![".gz", ""]);
}
