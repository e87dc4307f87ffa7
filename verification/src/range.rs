//! The `Range` request header: grammar, parsing, and merging of the
//! listed byte ranges into one contiguous slice.
//!
//! Only `bytes=`-prefixed values are accepted.  Each comma-separated
//! piece is `a-b`, `a-` or `-b`; the pieces must merge pairwise into one
//! contiguous slice, anything else is a parse error (which the decision
//! engine later turns into a 416 outcome).
use crate::ascii::all_digits;
use crate::ascii::digits_val;
use crate::ascii::lemma_dec_parse;
use crate::ascii::parse_u64;
use crate::ascii::spec_dec;
use crate::ascii::spec_parse_u64;
use crate::ascii::spec_trim;
use crate::ascii::trim_bytes;
use crate::ascii::find_byte;
use crate::ascii::is_ascii_ws;
use crate::ascii::is_digit;
use vstd::prelude::*;

verus! {

/// One byte range as the client asked for it: `a-b`, `a-`, or `-b`.
#[derive(Clone, Copy, PartialEq, Debug)]
pub enum Slice {
    FromTo(u64, u64),
    AllFrom(u64),
    Last(u64),
}

/// The parsed `Range` header: a single contiguous byte range.
#[derive(Clone, Copy, PartialEq, Debug)]
pub enum Range {
    SingleRangeOfBytes(Slice),
}

/// Index of the first occurrence of `b` in `s`, or `s.len()` if absent.
pub open spec fn spec_find(s: Seq<u8>, b: u8) -> int
    decreases s.len(),
{
    if s.len() == 0 {
        0
    } else if s[0] == b {
        0
    } else {
        1 + spec_find(s.skip(1), b)
    }
}

pub proof fn lemma_spec_find(s: Seq<u8>, b: u8)
    ensures
        0 <= spec_find(s, b) <= s.len(),
        forall|j: int| 0 <= j < spec_find(s, b) ==> s[j] != b,
        spec_find(s, b) < s.len() ==> s[spec_find(s, b)] == b,
    decreases s.len(),
{
    if s.len() > 0 && s[0] != b {
        lemma_spec_find(s.skip(1), b);
        assert(forall|j: int| 1 <= j < spec_find(s, b) ==> s[j] == s.skip(1)[j - 1]);
    }
}

/// An index with the first-occurrence properties is `spec_find`.
pub proof fn lemma_find_is_spec(s: Seq<u8>, b: u8, idx: int)
    requires
        0 <= idx <= s.len(),
        forall|j: int| 0 <= j < idx ==> s[j] != b,
        idx < s.len() ==> s[idx] == b,
    ensures
        idx == spec_find(s, b),
{
    lemma_spec_find(s, b);
    let f = spec_find(s, b);
    if idx < f {
        assert(s[idx] != b);
        assert(false);
    } else if f < idx {
        assert(s[f] != b);
        assert(false);
    }
}

/// What one comma-separated piece of the header means, if anything.
pub open spec fn spec_parse_slice(s: Seq<u8>) -> Option<Slice> {
    let i = spec_find(s, 45);
    if i == s.len() {
        None
    } else {
        let l = spec_trim(s.take(i));
        let r = spec_trim(s.skip(i + 1));
        if l.len() == 0 && r.len() == 0 {
            None
        } else if l.len() == 0 {
            match spec_parse_u64(r) {
                Some(n) => Some(Slice::Last(n)),
                None => None,
            }
        } else if r.len() == 0 {
            match spec_parse_u64(l) {
                Some(n) => Some(Slice::AllFrom(n)),
                None => None,
            }
        } else {
            match (spec_parse_u64(l), spec_parse_u64(r)) {
                (Some(x), Some(y)) => if x <= y {
                    Some(Slice::FromTo(x, y))
                } else {
                    None
                },
                _ => None,
            }
        }
    }
}

/// Parses one piece of a `Range` header value: `a-b`, `a-` or `-b`, each
/// side trimmed, numbers decimal 64-bit, and `a <= b` in the first form.
pub fn parse_slice(slc: &[u8]) -> (r: Result<Slice, ()>)
    ensures
        match spec_parse_slice(slc@) {
            Some(sl) => r == Ok::<Slice, ()>(sl),
            None => r == Err::<Slice, ()>(()),
        },
{
    let i = find_byte(slc, 0, 45);
    proof {
        lemma_find_is_spec(slc@, 45, i as int);
    }
    if i == slc.len() {
        return Err(());
    }
    let l = trim_bytes(&slc[0..i]);
    let r = trim_bytes(&slc[i + 1..slc.len()]);
    proof {
        assert(slc@.subrange(0, i as int) == slc@.take(i as int));
        assert(slc@.subrange(i + 1, slc@.len() as int) == slc@.skip(i + 1));
    }
    if l.len() == 0 && r.len() == 0 {
        Err(())
    } else if l.len() == 0 {
        match parse_u64(r) {
            Some(n) => Ok(Slice::Last(n)),
            None => Err(()),
        }
    } else if r.len() == 0 {
        match parse_u64(l) {
            Some(n) => Ok(Slice::AllFrom(n)),
            None => Err(()),
        }
    } else {
        let x = match parse_u64(l) {
            Some(x) => x,
            None => return Err(()),
        };
        let y = match parse_u64(r) {
            Some(y) => y,
            None => return Err(()),
        };
        if x > y {
            return Err(());
        }
        Ok(Slice::FromTo(x, y))
    }
}

/// The merge of two slices, when their union is one contiguous range.
/// Only two explicit `a-b` ranges that overlap or are adjacent merge;
/// every combination involving `a-` or `-b` is refused.
pub open spec fn spec_merge(a: Slice, b: Slice) -> Option<Slice> {
    match (a, b) {
        (Slice::FromTo(x1, y1), Slice::FromTo(x2, y2)) => {
            if x2 <= y1 + 1 && x1 <= y2 + 1 {
                Some(
                    Slice::FromTo(
                        if x1 <= x2 {
                            x1
                        } else {
                            x2
                        },
                        if y1 >= y2 {
                            y1
                        } else {
                            y2
                        },
                    ),
                )
            } else {
                None
            }
        },
        _ => None,
    }
}

impl Slice {
    /// Absorbs `other` when the union of the two ranges is contiguous;
    /// returns whether it did.  On failure `self` is unchanged.
    pub fn merge(&mut self, other: Slice) -> (r: bool)
        ensures
            match spec_merge(*old(self), other) {
                Some(m) => r == true && *final(self) == m,
                None => r == false && *final(self) == *old(self),
            },
    {
        match (*self, other) {
            (Slice::FromTo(x1, y1), Slice::FromTo(x2, y2)) => {
                let touch_right = x2 == 0 || x2 - 1 <= y1;
                let touch_left = x1 == 0 || x1 - 1 <= y2;
                if touch_right && touch_left {
                    let lo = if x1 <= x2 {
                        x1
                    } else {
                        x2
                    };
                    let hi = if y1 >= y2 {
                        y1
                    } else {
                        y2
                    };
                    *self = Slice::FromTo(lo, hi);
                    true
                } else {
                    false
                }
            },
            _ => false,
        }
    }
}

/// The `bytes=` prefix, byte for byte.
pub open spec fn bytes_prefix() -> Seq<u8> {
    seq![98u8, 121u8, 116u8, 101u8, 115u8, 61u8]
}

/// Folds the pieces after the first one into the accumulator; `s` is the
/// text after a comma.
pub open spec fn spec_fold_more(acc: Slice, s: Seq<u8>) -> Option<Slice>
    decreases s.len(),
        via spec_fold_more_dec
{
    let i = spec_find(s, 44);
    match spec_parse_slice(s.take(i)) {
        None => None,
        Some(sl) => match spec_merge(acc, sl) {
            None => None,
            Some(m) => if i == s.len() {
                Some(m)
            } else {
                spec_fold_more(m, s.skip(i + 1))
            },
        },
    }
}

#[via_fn]
proof fn spec_fold_more_dec(acc: Slice, s: Seq<u8>) {
    lemma_spec_find(s, 44);
}

/// The merged slice of the comma-separated list `s` (the text after
/// `bytes=`), if every piece parses and every merge succeeds.
pub open spec fn spec_slices_fold(s: Seq<u8>) -> Option<Slice> {
    let i = spec_find(s, 44);
    match spec_parse_slice(s.take(i)) {
        None => None,
        Some(first) => if i == s.len() {
            Some(first)
        } else {
            spec_fold_more(first, s.skip(i + 1))
        },
    }
}

/// What a whole `Range` header value means, if anything.
pub open spec fn spec_parse_header(h: Seq<u8>) -> Option<Range> {
    if h.len() < 6 || h.take(6) != bytes_prefix() {
        None
    } else {
        match spec_slices_fold(h.skip(6)) {
            Some(sl) => Some(Range::SingleRangeOfBytes(sl)),
            None => None,
        }
    }
}

/// Parses a `Range` header value into a single contiguous slice.
pub fn parse_header(header: &[u8]) -> (res: Result<Range, ()>)
    ensures
        match spec_parse_header(header@) {
            Some(rg) => res == Ok::<Range, ()>(rg),
            None => res == Err::<Range, ()>(()),
        },
{
    if header.len() < 6 {
        return Err(());
    }
    if !(header[0] == 98 && header[1] == 121 && header[2] == 116 && header[3] == 101
        && header[4] == 115 && header[5] == 61) {
        proof {
            assert(header@.take(6) != bytes_prefix());
        }
        return Err(());
    }
    proof {
        assert(header@.take(6) =~= bytes_prefix());
    }
    let t = &header[6..header.len()];
    proof {
        assert(t@ == header@.skip(6));
    }
    let mut i = find_byte(t, 0, 44);
    proof {
        lemma_find_is_spec(t@, 44, i as int);
        assert(t@.subrange(0, i as int) == t@.take(i as int));
    }
    let mut cur: Slice = match parse_slice(&t[0..i]) {
        Ok(sl) => sl,
        Err(()) => {
            return Err(());
        },
    };
    while i < t.len()
        invariant
            i <= t@.len(),
            t@ == header@.skip(6),
            header@.len() >= 6,
            header@.take(6) == bytes_prefix(),
            spec_slices_fold(t@) == (if i == t@.len() {
                Some(cur)
            } else {
                spec_fold_more(cur, t@.skip(i + 1))
            }),
        decreases t@.len() - i,
    {
        let start = i + 1;
        let next = find_byte(t, start, 44);
        proof {
            let rest = t@.skip(i + 1);
            lemma_find_is_spec(rest, 44, next - start);
            assert(rest.take(next - start) == t@.subrange(start as int, next as int));
        }
        let piece = match parse_slice(&t[start..next]) {
            Ok(sl) => sl,
            Err(()) => {
                return Err(());
            },
        };
        if !cur.merge(piece) {
            return Err(());
        }
        proof {
            let rest = t@.skip(i + 1);
            if next < t@.len() {
                assert(rest.skip(next - start + 1) == t@.skip(next + 1));
            }
        }
        i = next;
    }
    Ok(Range::SingleRangeOfBytes(cur))
}

/// Merging two slices succeeds for one order exactly when it succeeds
/// for the other, and the merged range is the same.
pub proof fn lemma_merge_symmetric(a: Slice, b: Slice)
    ensures
        spec_merge(a, b) == spec_merge(b, a),
{
}

/// The byte positions a slice asks for, where it states them absolutely.
pub open spec fn slice_covers(sl: Slice, p: int) -> bool {
    match sl {
        Slice::FromTo(x, y) => x <= p <= y,
        Slice::AllFrom(_) => false,
        Slice::Last(_) => false,
    }
}

/// Some comma-separated piece of `s` parses to a slice covering `p`.
pub open spec fn any_piece_covers(s: Seq<u8>, p: int) -> bool
    decreases s.len(),
        via any_piece_covers_dec
{
    let i = spec_find(s, 44);
    (match spec_parse_slice(s.take(i)) {
        Some(sl) => slice_covers(sl, p),
        None => false,
    }) || (i < s.len() && any_piece_covers(s.skip(i + 1), p))
}

#[via_fn]
proof fn any_piece_covers_dec(s: Seq<u8>, p: int) {
    lemma_spec_find(s, 44);
}

/// A successful merge covers exactly the union of its two ranges.
proof fn lemma_merge_union(a: Slice, b: Slice)
    requires
        spec_merge(a, b) is Some,
    ensures
        forall|p: int|
            slice_covers(spec_merge(a, b).unwrap(), p) <==> slice_covers(a, p) || slice_covers(
                b,
                p,
            ),
{
}

/// When the tail of the list merges into `acc`, the result covers
/// exactly what `acc` and the listed pieces cover: merging loses no byte
/// of any accepted range and adds none.
pub proof fn lemma_fold_more_union(acc: Slice, s: Seq<u8>)
    requires
        spec_fold_more(acc, s) is Some,
    ensures
        forall|p: int|
            slice_covers(spec_fold_more(acc, s).unwrap(), p) <==> slice_covers(acc, p)
                || any_piece_covers(s, p),
    decreases s.len(),
{
    lemma_spec_find(s, 44);
    let i = spec_find(s, 44);
    let sl = spec_parse_slice(s.take(i)).unwrap();
    let m = spec_merge(acc, sl).unwrap();
    lemma_merge_union(acc, sl);
    if i < s.len() {
        lemma_fold_more_union(m, s.skip(i + 1));
    }
}

/// A set of pieces whose union leaves a gap is never accepted: if the
/// fold succeeds and two covered positions bracket `g`, then `g` is
/// covered too.  Truly disjoint ranges therefore always fail, in every
/// order in which they could be listed.
pub proof fn lemma_accepted_has_no_gap(acc: Slice, s: Seq<u8>, p1: int, g: int, p2: int)
    requires
        spec_fold_more(acc, s) is Some,
        p1 <= g <= p2,
        slice_covers(acc, p1) || any_piece_covers(s, p1),
        slice_covers(acc, p2) || any_piece_covers(s, p2),
    ensures
        slice_covers(acc, g) || any_piece_covers(s, g),
{
    lemma_fold_more_union(acc, s);
    let m = spec_fold_more(acc, s).unwrap();
    assert(slice_covers(m, p1));
    assert(slice_covers(m, p2));
    assert(slice_covers(m, g));
}

/// Rendering a slice as `bytes=S-E` and parsing it again yields the
/// same slice.
pub proof fn lemma_range_roundtrip(s: u64, e: u64)
    requires
        s <= e,
    ensures
        spec_parse_header(bytes_prefix() + spec_dec(s as nat) + seq![45u8] + spec_dec(e as nat))
            == Some(Range::SingleRangeOfBytes(Slice::FromTo(s, e))),
{
    let ds = spec_dec(s as nat);
    let de = spec_dec(e as nat);
    lemma_dec_parse(s as nat);
    lemma_dec_parse(e as nat);
    let h = bytes_prefix() + ds + seq![45u8] + de;
    assert(h.take(6) =~= bytes_prefix());
    let t = h.skip(6);
    assert(t =~= ds + seq![45u8] + de);
    assert(forall|j: int|
        0 <= j < t.len() ==> t[j] != 44 && (j < ds.len() ==> is_digit(t[j])) && (j == ds.len()
            ==> t[j] == 45) && (j > ds.len() ==> is_digit(t[j]))) by {
        assert(forall|j: int| 0 <= j < ds.len() ==> is_digit(#[trigger] ds[j]));
        assert(forall|j: int| 0 <= j < de.len() ==> is_digit(#[trigger] de[j]));
    }
    lemma_find_is_spec(t, 44, t.len() as int);
    assert(t.take(t.len() as int) == t);
    lemma_find_is_spec(t, 45, ds.len() as int);
    let l = t.take(ds.len() as int);
    let r = t.skip(ds.len() as int + 1);
    assert(l =~= ds);
    assert(r =~= de);
    assert(!is_ascii_ws(ds[0]) && !is_ascii_ws(ds[ds.len() - 1]));
    assert(!is_ascii_ws(de[0]) && !is_ascii_ws(de[de.len() - 1]));
    assert(spec_trim(ds) == ds);
    assert(spec_trim(de) == de);
    assert(spec_parse_slice(t) == Some(Slice::FromTo(s, e)));
    assert(spec_slices_fold(t) == Some(Slice::FromTo(s, e)));
}

/// Parser state for the `Range` request header; duplicate headers and
/// unparseable values both end in the error state.
pub struct RangeParser {
    pub result: Result<Option<Range>, ()>,
}

impl RangeParser {
    pub fn new() -> (r: RangeParser)
        ensures
            r.result == Ok::<Option<Range>, ()>(None::<Range>),
    {
        RangeParser { result: Ok(None) }
    }

    /// Feeds one `Range` header line.  A second header, like a parse
    /// failure, is an error.
    pub fn add_header(&mut self, header: &[u8])
        ensures
            old(self).result is Err ==> final(self).result is Err,
            old(self).result matches Ok(Some(_)) ==> final(self).result is Err,
            old(self).result matches Ok(None) ==> final(self).result == (
            match spec_parse_header(header@) {
                Some(rg) => Ok::<Option<Range>, ()>(Some(rg)),
                None => Err::<Option<Range>, ()>(()),
            }),
    {
        match self.result {
            Err(()) => {},
            Ok(Some(_)) => {
                self.result = Err(());
            },
            Ok(None) => {
                match parse_header(header) {
                    Ok(x) => {
                        self.result = Ok(Some(x));
                    },
                    Err(()) => {
                        self.result = Err(());
                    },
                }
            },
        }
    }

    pub fn done(self) -> (r: Result<Option<Range>, ()>)
        ensures
            r == self.result,
    {
        self.result
    }
}

} // verus!

verus! {

/// A slice is well formed: an explicit range runs forward.
pub open spec fn slice_valid(sl: Slice) -> bool {
    match sl {
        Slice::FromTo(x, y) => x <= y,
        Slice::AllFrom(_) => true,
        Slice::Last(_) => true,
    }
}

proof fn lemma_parse_slice_valid(s: Seq<u8>)
    ensures
        spec_parse_slice(s) matches Some(sl) ==> slice_valid(sl),
{
}

proof fn lemma_fold_more_valid(acc: Slice, s: Seq<u8>)
    requires
        slice_valid(acc),
    ensures
        spec_fold_more(acc, s) matches Some(m) ==> slice_valid(m),
    decreases s.len(),
{
    lemma_spec_find(s, 44);
    let i = spec_find(s, 44);
    lemma_parse_slice_valid(s.take(i));
    match spec_parse_slice(s.take(i)) {
        None => {},
        Some(sl) => {
            match spec_merge(acc, sl) {
                None => {},
                Some(m) => {
                    if i < s.len() {
                        lemma_fold_more_valid(m, s.skip(i + 1));
                    }
                },
            }
        },
    }
}

/// Every range the header parser accepts runs forward.
pub proof fn lemma_parse_header_valid(h: Seq<u8>)
    ensures
        spec_parse_header(h) matches Some(Range::SingleRangeOfBytes(sl)) ==> slice_valid(sl),
{
    if h.len() >= 6 && h.take(6) == bytes_prefix() {
        let t = h.skip(6);
        lemma_spec_find(t, 44);
        let i = spec_find(t, 44);
        lemma_parse_slice_valid(t.take(i));
        match spec_parse_slice(t.take(i)) {
            None => {},
            Some(first) => {
                if i < t.len() {
                    lemma_fold_more_valid(first, t.skip(i + 1));
                }
            },
        }
    }
}

} // verus!
