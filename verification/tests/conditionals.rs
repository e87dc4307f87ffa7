use http_file_headers::conditionals::{ModifiedParser, NoneMatchParser};
use http_file_headers::etag::Etag;
use http_file_headers::metadata::Timestamp;

fn parse_etag(val: &str) -> Vec<Etag> {
    let mut parser = NoneMatchParser::new();
    parser.add_header(val.as_bytes());
    parser.done()
}

fn parse_mod(val: &str) -> Option<Timestamp> {
    let mut parser = ModifiedParser::new();
    parser.add_header(val.as_bytes());
    parser.done()
}

#[test]
fn single_etag() {
    assert_eq!(
        parse_etag(r#"W/"tYJT9KJUI0KX2I5q""#),
        vec![Etag([181, 130, 83, 244, 162, 84, 35, 66, 151, 216, 142, 106])]
    );
    assert_eq!(
        parse_etag(r#"    W/"tYJT9KJUI0KX2I5q"  "#),
        vec![Etag([181, 130, 83, 244, 162, 84, 35, 66, 151, 216, 142, 106])]
    );
}

#[test]
fn two_tags() {
    assert_eq!(
        parse_etag(r#"W/"tYJT9KJUI0KX2I5q", W/"tYJT9KJUI0KX2I5q""#),
        vec![
            Etag([181, 130, 83, 244, 162, 84, 35, 66, 151, 216, 142, 106]),
            Etag([181, 130, 83, 244, 162, 84, 35, 66, 151, 216, 142, 106]),
        ]
    );
}

#[test]
fn last_modified() {
    assert_eq!(
        parse_mod(r#"Tue, 22 Aug 2017 20:47:13 GMT"#),
        Some(Timestamp { secs: 1503434833, nanos: 0 })
    );
}

#[test]
fn bad_etags() {
    assert_eq!(parse_etag(r#"W/"tYJT9KJ^^UI0KX2I5q""#), vec![]);
    assert_eq!(parse_etag(r#""tYJT9KJUI0KX2I5q""#), vec![]);
    assert_eq!(parse_etag(r#""tYJT9KJUI  0KX2I5q""#), vec![]);
    assert_eq!(parse_etag(r#""tYJT9KJUI0KX2I5q"+1"#), vec![]);
    assert_eq!(parse_etag(r#"X/"tYJT9KJUI0KX2I5q""#), vec![]);
}

#[test]
fn strong_and_short_tags_ignored() {
    // not weak, wrong length, trailing junk: all dropped
    assert_eq!(parse_etag(r#"W/"short""#), vec![]);
    assert_eq!(parse_etag(r#"W/"tYJT9KJUI0KX2I5qq""#), vec![]);
    assert_eq!(parse_etag(r#"w/"tYJT9KJUI0KX2I5q""#), vec![]);
}

#[test]
fn duplicate_modified_treated_as_absent() {
    let mut parser = ModifiedParser::new();
    parser.add_header(b"Tue, 22 Aug 2017 20:47:13 GMT");
    parser.add_header(b"Tue, 22 Aug 2017 20:47:13 GMT");
    assert_eq!(parser.done(), None);
}

#[test]
fn malformed_modified_treated_as_absent() {
    assert_eq!(parse_mod("yesterday-ish"), None);
}
