use http_file_headers::accept_encoding::AcceptEncodingParser;
use http_file_headers::input::content_type_for;
use http_file_headers::config::Config;
use http_file_headers::input::{Input, Mode};
use http_file_headers::range::Range;

fn send<T: Send>(_: &T) {}
fn self_contained<T: 'static>(_: &T) {}

fn get(method: &str, headers: &[(&str, &[u8])]) -> Input {
    let cfg = Config::new().done();
    let hs: Vec<(String, Vec<u8>)> = headers
        .iter()
        .map(|(k, v)| (k.to_string(), v.to_vec()))
        .collect();
    Input::from_headers(&cfg, method, &hs)
}

#[test]
fn input_traits() {
    let v = Input {
        config: Config::new().done(),
        mode: Mode::Get,
        accept_encoding: AcceptEncodingParser::new().done(),
        range: None,
        if_range: None,
        if_match: Vec::new(),
        if_none: Vec::new(),
        if_unmodified: None,
        if_modified: None,
    };
    send(&v);
    self_contained(&v);
}

#[test]
fn input_size() {
    assert_eq!(std::mem::size_of::<Input>(), 184);
}

#[test]
fn method_selection() {
    assert_eq!(get("GET", &[]).mode, Mode::Get);
    assert_eq!(get("HEAD", &[]).mode, Mode::Head);
    assert_eq!(get("POST", &[]).mode, Mode::InvalidMethod);
    assert_eq!(get("get", &[]).mode, Mode::InvalidMethod);
}

#[test]
fn header_names_case_insensitive() {
    let inp = get("GET", &[("RaNgE", b"bytes=1-2")]);
    assert!(matches!(inp.range, Some(Range::SingleRangeOfBytes(_))));
}

#[test]
fn bad_range_header_is_invalid_range() {
    let inp = get("GET", &[("Range", b"bytes=0-500,1000-2000")]);
    assert_eq!(inp.mode, Mode::InvalidRange);
    assert!(inp.range.is_none());
}

#[test]
fn conditions_follow_config() {
    let mut cfg = Config::new();
    cfg.etag(false);
    cfg.last_modified(false);
    let cfg = cfg.done();
    let hs: Vec<(String, Vec<u8>)> = vec![
        (
            "If-None-Match".to_string(),
            br#"W/"tYJT9KJUI0KX2I5q""#.to_vec(),
        ),
        (
            "If-Modified-Since".to_string(),
            b"Tue, 22 Aug 2017 20:47:13 GMT".to_vec(),
        ),
    ];
    let inp = Input::from_headers(&cfg, "GET", &hs);
    assert!(inp.if_none.is_empty());
    assert!(inp.if_modified.is_none());
}

#[test]
fn content_type_lookup() {
    assert_eq!(content_type_for("/srv/www/a.html"), "text/html");
    assert_eq!(content_type_for("/srv/www/a.txt"), "text/plain");
    assert_eq!(content_type_for("/srv/www/archive.tar.gz"), "application/gzip");
    assert_eq!(content_type_for("/srv/www/no_extension"), "application/octet-stream");
    assert_eq!(content_type_for("/srv/www/.hidden"), "application/octet-stream");
    assert_eq!(content_type_for("/srv/www/a.unknownext"), "application/octet-stream");
}

#[test]
fn index_candidates_in_order() {
    let mut cfg = Config::new();
    cfg.add_index_file("index.html");
    cfg.add_index_file("index.htm");
    let cfg = cfg.done();
    let inp = Input::from_headers(&cfg, "GET", &Vec::new());
    let cands = inp.index_candidates("/srv/www/dir");
    assert_eq!(
        cands,
        vec![
            "/srv/www/dir/index.html".to_string(),
            "/srv/www/dir/index.htm".to_string()
        ]
    );
}

#[test]
fn encoding_candidates_preference_order() {
    let inp = get("GET", &[("Accept-Encoding", b"br, gzip")]);
    let cands = inp.encoding_candidates("/srv/www/a.txt", "text/plain");
    let paths: Vec<String> = cands.iter().map(|c| c.0.clone()).collect();
    assert_eq!(
        paths,
        vec![
            "/srv/www/a.txt.br".to_string(),
            "/srv/www/a.txt.gz".to_string(),
            "/srv/www/a.txt".to_string()
        ]
    );
}

#[test]
fn encoding_candidates_disabled_for_binary() {
    let inp = get("GET", &[("Accept-Encoding", b"br, gzip")]);
    let cands = inp.encoding_candidates("/srv/www/a.bin", "application/octet-stream");
    assert_eq!(cands.len(), 1);
    assert_eq!(cands[0].0, "/srv/www/a.bin".to_string());
}
