use http_file_headers::config::Config;
use http_file_headers::etag::Etag;
use http_file_headers::input::Input;
use http_file_headers::metadata::{FileMetadata, Timestamp, UnixMeta};
use http_file_headers::output::Output;
use std::sync::Arc;

fn meta(len: u64, mtime: u64) -> FileMetadata {
    FileMetadata {
        len,
        is_dir: false,
        modified: Some(Timestamp { secs: mtime, nanos: 0 }),
        created: Some(Timestamp { secs: mtime, nanos: 0 }),
        unix: Some(UnixMeta { dev: 2049, ino: 4242, ctime: mtime as i64, ctime_nsec: 0 }),
    }
}

fn request(cfg: &Arc<Config>, method: &str, headers: &[(&str, &[u8])]) -> Input {
    let hs: Vec<(String, Vec<u8>)> = headers
        .iter()
        .map(|(k, v)| (k.to_string(), v.to_vec()))
        .collect();
    Input::from_headers(cfg, method, &hs)
}

fn header_value(hs: &[(&'static str, String)], name: &str) -> Option<String> {
    hs.iter().find(|(k, _)| *k == name).map(|(_, v)| v.clone())
}

// 2023-01-01T00:00:00Z
const NEW_YEAR_2023: u64 = 1672531200;

#[test]
fn get_index_file_of_directory() {
    let mut cfg = Config::new();
    cfg.add_index_file("index.html");
    let cfg = cfg.done();
    let inp = request(&cfg, "GET", &[]);
    let cands = inp.index_candidates("/srv/www");
    assert_eq!(cands, vec!["/srv/www/index.html".to_string()]);
    let out = inp
        .outcome_for_open(
            http_file_headers::accept_encoding::Encoding::Identity,
            &meta(42, NEW_YEAR_2023),
            "text/html",
        )
        .unwrap();
    match out {
        Output::File(fw) => {
            assert_eq!(fw.content_length(), 42);
            let hs = fw.headers();
            assert_eq!(
                header_value(&hs, "Last-Modified"),
                Some("Sun, 01 Jan 2023 00:00:00 GMT".to_string())
            );
            let tag = header_value(&hs, "ETag").unwrap();
            assert!(tag.starts_with("W/\"") && tag.len() == 20);
            assert_eq!(header_value(&hs, "Accept-Ranges"), Some("bytes".to_string()));
            assert_eq!(
                header_value(&hs, "Content-Type"),
                Some("text/html; charset=utf-8".to_string())
            );
            assert_eq!(header_value(&hs, "Content-Range"), None);
            assert_eq!(header_value(&hs, "Content-Encoding"), None);
        }
        other => panic!("expected File, got {:?}", other),
    }
}

#[test]
fn get_precompressed_brotli_variant() {
    let cfg = Config::new().done();
    let inp = request(&cfg, "GET", &[("Accept-Encoding", b"br, gzip")]);
    let cands = inp.encoding_candidates("/srv/www/a.txt", "text/plain");
    assert_eq!(cands[0].0, "/srv/www/a.txt.br");
    let out = inp
        .outcome_for_open(cands[0].1, &meta(100, NEW_YEAR_2023), "text/plain")
        .unwrap();
    match out {
        Output::File(fw) => {
            assert_eq!(fw.content_length(), 100);
            let hs = fw.headers();
            assert_eq!(header_value(&hs, "Content-Encoding"), Some("br".to_string()));
        }
        other => panic!("expected File, got {:?}", other),
    }
}

#[test]
fn get_merged_range_is_partial() {
    let cfg = Config::new().done();
    let inp = request(&cfg, "GET", &[("Range", b"bytes=0-999, 1000-2000")]);
    let out = inp
        .outcome_for_open(
            http_file_headers::accept_encoding::Encoding::Identity,
            &meta(10000, NEW_YEAR_2023),
            "application/octet-stream",
        )
        .unwrap();
    match out {
        Output::FileRange(fw) => {
            assert_eq!(fw.content_length(), 2001);
            let hs = fw.headers();
            assert_eq!(
                header_value(&hs, "Content-Range"),
                Some("bytes 0-2000/10000".to_string())
            );
        }
        other => panic!("expected FileRange, got {:?}", other),
    }
}

#[test]
fn get_disjoint_range_is_invalid() {
    let cfg = Config::new().done();
    let inp = request(&cfg, "GET", &[("Range", b"bytes=0-500,1000-2000")]);
    let out = inp.mode_outcome();
    assert!(matches!(out, Some(Output::InvalidRange)));
}

#[test]
fn head_with_matching_tag_is_not_modified() {
    let cfg = Config::new().done();
    let m = meta(512, NEW_YEAR_2023);
    let current = Etag::from_metadata(&m).render();
    let inp = request(&cfg, "HEAD", &[("If-None-Match", current.as_bytes())]);
    let out = inp
        .outcome_for_open(
            http_file_headers::accept_encoding::Encoding::Identity,
            &m,
            "text/plain",
        )
        .unwrap();
    match out {
        Output::NotModified(head) => {
            assert_eq!(head.content_length(), 0);
            let hs = head.headers();
            assert_eq!(hs.len(), 2);
            assert_eq!(hs[0].0, "Last-Modified");
            assert_eq!(hs[1].0, "ETag");
            assert_eq!(hs[1].1, current);
        }
        other => panic!("expected NotModified, got {:?}", other),
    }
}

#[test]
fn non_matching_tag_serves_file() {
    let cfg = Config::new().done();
    let m = meta(512, NEW_YEAR_2023);
    let inp = request(&cfg, "GET", &[("If-None-Match", br#"W/"tYJT9KJUI0KX2I5q""#)]);
    let out = inp
        .outcome_for_open(
            http_file_headers::accept_encoding::Encoding::Identity,
            &m,
            "text/plain",
        )
        .unwrap();
    assert!(matches!(out, Output::File(_)));
}

#[test]
fn if_modified_since_after_mtime_is_not_modified() {
    let cfg = Config::new().done();
    let m = meta(512, NEW_YEAR_2023);
    let inp = request(
        &cfg,
        "GET",
        &[("If-Modified-Since", b"Sun, 01 Jan 2023 00:00:00 GMT")],
    );
    let out = inp
        .outcome_for_open(
            http_file_headers::accept_encoding::Encoding::Identity,
            &m,
            "text/plain",
        )
        .unwrap();
    assert!(matches!(out, Output::NotModified(_)));
}

#[test]
fn if_modified_since_before_mtime_serves_file() {
    let cfg = Config::new().done();
    let m = meta(512, NEW_YEAR_2023);
    let inp = request(
        &cfg,
        "GET",
        &[("If-Modified-Since", b"Sat, 31 Dec 2022 23:59:59 GMT")],
    );
    let out = inp
        .outcome_for_open(
            http_file_headers::accept_encoding::Encoding::Identity,
            &m,
            "text/plain",
        )
        .unwrap();
    assert!(matches!(out, Output::File(_)));
}

#[test]
fn tags_take_precedence_over_date() {
    // a non-matching tag blocks the 304 even with a satisfied date
    let cfg = Config::new().done();
    let m = meta(512, NEW_YEAR_2023);
    let inp = request(
        &cfg,
        "GET",
        &[
            ("If-None-Match", br#"W/"tYJT9KJUI0KX2I5q""#),
            ("If-Modified-Since", b"Mon, 02 Jan 2023 00:00:00 GMT"),
        ],
    );
    let out = inp
        .outcome_for_open(
            http_file_headers::accept_encoding::Encoding::Identity,
            &m,
            "text/plain",
        )
        .unwrap();
    assert!(matches!(out, Output::File(_)));
}

#[test]
fn post_is_invalid_method() {
    let cfg = Config::new().done();
    let inp = request(&cfg, "POST", &[]);
    assert!(matches!(inp.mode_outcome(), Some(Output::InvalidMethod)));
}

#[test]
fn opened_directory_is_treated_as_absent() {
    let cfg = Config::new().done();
    let inp = request(&cfg, "GET", &[]);
    let mut m = meta(0, NEW_YEAR_2023);
    m.is_dir = true;
    assert!(inp
        .outcome_for_open(
            http_file_headers::accept_encoding::Encoding::Identity,
            &m,
            "text/plain",
        )
        .is_err());
}

#[test]
fn suffix_range_on_empty_file() {
    let cfg = Config::new().done();
    let inp = request(&cfg, "GET", &[("Range", b"bytes=-100")]);
    let out = inp
        .outcome_for_open(
            http_file_headers::accept_encoding::Encoding::Identity,
            &meta(0, NEW_YEAR_2023),
            "text/plain",
        )
        .unwrap();
    match out {
        Output::FileRange(fw) => {
            assert_eq!(fw.content_length(), 0);
            let hs = fw.headers();
            assert_eq!(
                header_value(&hs, "Content-Range"),
                Some("bytes */0".to_string())
            );
        }
        other => panic!("expected FileRange, got {:?}", other),
    }
}

#[test]
fn head_promises_the_get_length() {
    let cfg = Config::new().done();
    let m = meta(10000, NEW_YEAR_2023);
    let head_inp = request(&cfg, "HEAD", &[("Range", b"bytes=100-199")]);
    let get_inp = request(&cfg, "GET", &[("Range", b"bytes=100-199")]);
    let h = match head_inp
        .outcome_for_open(
            http_file_headers::accept_encoding::Encoding::Identity,
            &m,
            "text/plain",
        )
        .unwrap()
    {
        Output::FileHead(h) => h,
        other => panic!("expected FileHead, got {:?}", other),
    };
    let fw = match get_inp
        .outcome_for_open(
            http_file_headers::accept_encoding::Encoding::Identity,
            &m,
            "text/plain",
        )
        .unwrap()
    {
        Output::FileRange(fw) => fw,
        other => panic!("expected FileRange, got {:?}", other),
    };
    assert_eq!(h.content_length(), 100);
    assert_eq!(fw.content_length(), h.content_length());
}

#[test]
fn body_accounting_delivers_exactly_the_length() {
    let cfg = Config::new().done();
    let inp = request(&cfg, "GET", &[("Range", b"bytes=10-24")]);
    let out = inp
        .outcome_for_open(
            http_file_headers::accept_encoding::Encoding::Identity,
            &meta(100, NEW_YEAR_2023),
            "text/plain",
        )
        .unwrap();
    let mut fw = match out {
        Output::FileRange(fw) => fw,
        other => panic!("expected FileRange, got {:?}", other),
    };
    assert_eq!(fw.start_offset(), 10);
    assert_eq!(fw.content_length(), 15);
    let mut delivered: u64 = 0;
    // the writer accepts only 4 bytes of each 6-byte read
    loop {
        let want = fw.chunk_size();
        if want == 0 {
            break;
        }
        let read = want.min(6);
        let written = read.min(4);
        let seek_back = fw.commit(read, written);
        assert_eq!(seek_back, read - written);
        delivered += written;
    }
    assert_eq!(delivered, 15);
    assert_eq!(fw.start_offset() + fw.content_length(), 25);
}
