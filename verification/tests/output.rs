use http_file_headers::output::{ContentRange, Output, resolve_range};
use http_file_headers::range::{Range, Slice};

fn send<T: Send>(_: &T) {}
fn self_contained<T: 'static>(_: &T) {}

fn last(num: u64) -> Range {
    Range::SingleRangeOfBytes(Slice::Last(num))
}

fn from(num: u64) -> Range {
    Range::SingleRangeOfBytes(Slice::AllFrom(num))
}

fn range(from: u64, to: u64) -> Range {
    Range::SingleRangeOfBytes(Slice::FromTo(from, to))
}

fn res(start: u64, end: u64, size: u64) -> ContentRange {
    ContentRange {
        start,
        end,
        file_size: size,
    }
}

fn resolve(rng: Range, file_size: u64) -> ContentRange {
    resolve_range(&Some(rng), file_size).unwrap().0.unwrap()
}

fn resolve_clen(rng: Range, file_size: u64) -> u64 {
    resolve_range(&Some(rng), file_size).unwrap().1
}

#[test]
fn output_traits() {
    let v = Output::NotFound;
    send(&v);
    self_contained(&v);
}

#[test]
fn output_size() {
    assert_eq!(std::mem::size_of::<Output>(), 128);
}

#[test]
fn format_range() {
    assert_eq!(
        ContentRange {
            start: 10,
            end: 100,
            file_size: 1000,
        }
        .render(),
        "bytes 10-100/1000"
    );
}

#[test]
fn format_zero_file_size() {
    assert_eq!(
        ContentRange {
            start: 0,
            end: 0,
            file_size: 0,
        }
        .render(),
        "bytes */0"
    );
}

#[test]
fn range_on_zero_length() {
    assert_eq!(resolve(last(100), 0), res(0, 0, 0));
    assert_eq!(resolve_clen(last(100), 0), 0);
    resolve_range(&Some(from(100)), 0).unwrap_err();
    resolve_range(&Some(range(0, 100)), 0).unwrap_err();
}

#[test]
fn range_on_short() {
    assert_eq!(resolve(last(1000), 100), res(0, 99, 100));
    assert_eq!(resolve_clen(last(1000), 100), 100);
    resolve_range(&Some(range(1000, 2000)), 100).unwrap_err();
    assert_eq!(resolve(range(10, 1000), 100), res(10, 99, 100));
    assert_eq!(resolve_clen(range(10, 1000), 100), 90);
}

#[test]
fn norm_ranges() {
    assert_eq!(resolve(last(1000), 10000), res(9000, 9999, 10000));
    assert_eq!(resolve(range(100, 1000), 10000), res(100, 1000, 10000));
    assert_eq!(resolve(from(777), 10000), res(777, 9999, 10000));
}

#[test]
fn no_range_keeps_size() {
    assert_eq!(resolve_range(&None, 12345), Ok((None, 12345)));
}

#[test]
fn window_matches_length() {
    for (rng, size) in [
        (range(0, 999), 10000u64),
        (range(10, 1000), 100),
        (from(777), 10000),
        (last(1000), 10000),
        (last(1000), 100),
    ] {
        let (cr, clen) = resolve_range(&Some(rng), size).unwrap();
        let cr = cr.unwrap();
        assert!(cr.start <= cr.end);
        assert!(cr.end < size);
        assert_eq!(clen, cr.end - cr.start + 1);
    }
}

#[test]
fn last_zero_is_empty_window() {
    let (cr, clen) = resolve_range(&Some(last(0)), 100).unwrap();
    let cr = cr.unwrap();
    assert_eq!(clen, 0);
    assert_eq!(cr.start, 100);
    assert_eq!(cr.end, 99);
}
