use http_file_headers::etag::Etag;
use http_file_headers::metadata::{FileMetadata, Timestamp, UnixMeta};

fn meta(len: u64, mtime: u64) -> FileMetadata {
    FileMetadata {
        len,
        is_dir: false,
        modified: Some(Timestamp { secs: mtime, nanos: 0 }),
        created: None,
        unix: Some(UnixMeta { dev: 2049, ino: 99, ctime: mtime as i64, ctime_nsec: 0 }),
    }
}

#[test]
fn format() {
    assert_eq!(
        Etag([181, 130, 83, 244, 162, 84, 35, 66, 151, 216, 142, 106]).render(),
        String::from(r#"W/"tYJT9KJUI0KX2I5q""#)
    );
}

#[test]
fn derived_tag_deterministic() {
    let a = Etag::from_metadata(&meta(42, 1672531200));
    let b = Etag::from_metadata(&meta(42, 1672531200));
    assert_eq!(a, b);
    assert_eq!(a.render(), b.render());
}

#[test]
fn derived_tag_shape_and_sensitivity() {
    let a = Etag::from_metadata(&meta(42, 1672531200));
    let b = Etag::from_metadata(&meta(43, 1672531200));
    let c = Etag::from_metadata(&meta(42, 1672531201));
    let ra = a.render();
    assert_eq!(ra.len(), 20);
    assert!(ra.starts_with("W/\""));
    assert!(ra.ends_with('"'));
    // any change of the metadata invalidates the tag
    assert_ne!(a, b);
    assert_ne!(a, c);
    // the digest is no echo of its input: the canonical bytes of `meta`
    // begin with the length, yet tags of equal-length files differ
    assert_ne!(
        Etag::from_metadata(&meta(42, 1672531200)),
        Etag::from_metadata(&FileMetadata {
            unix: None,
            ..meta(42, 1672531200)
        })
    );
}

#[test]
fn decode_matches_render() {
    let tag = Etag([181, 130, 83, 244, 162, 84, 35, 66, 151, 216, 142, 106]);
    let rendered = tag.render();
    let body = &rendered.as_bytes()[3..19];
    assert_eq!(Etag::decode_base64(body), Ok(tag));
}

#[test]
fn decode_rejects_foreign_chars() {
    assert_eq!(Etag::decode_base64(b"tYJT9KJUI0KX2I5+"), Err(()));
    assert_eq!(Etag::decode_base64(b"tYJT9KJUI0KX2I5/"), Err(()));
    assert_eq!(Etag::decode_base64(b"tYJT9KJUI0KX2I5 "), Err(()));
}
