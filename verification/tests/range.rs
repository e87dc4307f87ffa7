use http_file_headers::range::{Range, RangeParser, Slice};

fn send<T: Send>(_: &T) {}
fn self_contained<T: 'static>(_: &T) {}

fn parse(x: &str) -> Result<Option<Range>, ()> {
    let mut parser = RangeParser::new();
    parser.add_header(x.as_bytes());
    parser.done()
}

#[test]
fn range_size() {
    assert_eq!(std::mem::size_of::<Option<Range>>(), 24);
    assert_eq!(std::mem::size_of::<Range>(), 24);
    assert_eq!(std::mem::size_of::<Slice>(), 24);
}

#[test]
fn range_traits() {
    let v = Range::SingleRangeOfBytes(Slice::FromTo(0, 1));
    send(&v);
    self_contained(&v);
}

#[test]
fn parse_range() {
    assert_eq!(
        parse("bytes=0-1000"),
        Ok(Some(Range::SingleRangeOfBytes(Slice::FromTo(0, 1000))))
    );
    assert_eq!(
        parse("bytes=-1000"),
        Ok(Some(Range::SingleRangeOfBytes(Slice::Last(1000))))
    );
    assert_eq!(
        parse("bytes=1000-"),
        Ok(Some(Range::SingleRangeOfBytes(Slice::AllFrom(1000))))
    );
}

#[test]
fn bad_ranges() {
    assert_eq!(parse("bytes=1000-100"), Err(()));
}

#[test]
fn merge_adjacent() {
    assert_eq!(
        parse("bytes=0-999, 1000-2000"),
        Ok(Some(Range::SingleRangeOfBytes(Slice::FromTo(0, 2000))))
    );
    assert_eq!(
        parse("bytes=1000-2000, 0-999"),
        Ok(Some(Range::SingleRangeOfBytes(Slice::FromTo(0, 2000))))
    );
}

#[test]
fn merge_overlapping() {
    assert_eq!(
        parse("bytes=0-1000, 1000-2000"),
        Ok(Some(Range::SingleRangeOfBytes(Slice::FromTo(0, 2000))))
    );
    assert_eq!(
        parse("bytes=0-1010, 1000-2000"),
        Ok(Some(Range::SingleRangeOfBytes(Slice::FromTo(0, 2000))))
    );
    assert_eq!(
        parse("bytes=1000-2000, 0-1000"),
        Ok(Some(Range::SingleRangeOfBytes(Slice::FromTo(0, 2000))))
    );
    assert_eq!(
        parse("bytes=1000-2000, 0-1010"),
        Ok(Some(Range::SingleRangeOfBytes(Slice::FromTo(0, 2000))))
    );
}

#[test]
fn no_merge() {
    assert_eq!(parse("bytes=0-500,1000-2000"), Err(()));
}

#[test]
fn merge_overflow() {
    assert_eq!(
        parse(
            "bytes=18446744073709551615-18446744073709551615, \
             18446744073709551615-18446744073709551615"
        ),
        Ok(Some(Range::SingleRangeOfBytes(Slice::FromTo(
            u64::MAX,
            u64::MAX
        ))))
    );
}

#[test]
fn render_and_reparse() {
    for (s, e) in [(0u64, 0u64), (5, 9), (100, 2000), (u64::MAX - 1, u64::MAX)] {
        let parsed = parse(&format!("bytes={}-{}", s, e));
        assert_eq!(parsed, Ok(Some(Range::SingleRangeOfBytes(Slice::FromTo(s, e)))));
    }
}

#[test]
fn disjoint_rejected_in_both_orders() {
    assert_eq!(parse("bytes=0-500,1000-2000"), Err(()));
    assert_eq!(parse("bytes=1000-2000,0-500"), Err(()));
}

#[test]
fn duplicate_header_rejected() {
    let mut parser = RangeParser::new();
    parser.add_header(b"bytes=0-10");
    parser.add_header(b"bytes=20-30");
    assert_eq!(parser.done(), Err(()));
}

#[test]
fn not_bytes_rejected() {
    assert_eq!(parse("lines=0-10"), Err(()));
    assert_eq!(parse("bytes=") , Err(()));
    assert_eq!(parse("bytes=-"), Err(()));
}
