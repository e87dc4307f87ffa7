//! The `Accept-Encoding` request header: the token and q-value grammar,
//! and the ordered preference list the engine probes variants with.
//!
//! Recognized tokens are `identity`, `gzip`, `br` and `*`; every other
//! token, and every token with a malformed q-value, is silently dropped.
//! The accepted pairs are ordered by q descending (ties broken by the
//! enum order Brotli, Gzip, Identity), cut to three entries and padded
//! with `Identity`.
use crate::ascii::all_digits;
use crate::ascii::find_byte;
use crate::ascii::is_digit;
use crate::ascii::spec_trim;
use crate::ascii::trim_bytes;
use vstd::prelude::*;

verus! {

/// Single content encoding that a user agent may accept.
#[derive(Debug, Clone, Copy, PartialEq, Eq, Hash, PartialOrd, Ord, Structural)]
pub enum Encoding {
    /// Brotli encoding (transferred as `br`, extension `.br`)
    Brotli,
    /// Gzip encoding (transferred as `gzip`, extension `.gz`)
    Gzip,
    /// Identity: no encoding at all
    Identity,
}

/// Position of an encoding in the tie-break order.
pub open spec fn rank(e: Encoding) -> int {
    match e {
        Encoding::Brotli => 0,
        Encoding::Gzip => 1,
        Encoding::Identity => 2,
    }
}

/// Filename suffix of an encoding's pre-compressed sibling file.
pub open spec fn spec_suffix(e: Encoding) -> Seq<char> {
    match e {
        Encoding::Identity => ""@,
        Encoding::Gzip => ".gz"@,
        Encoding::Brotli => ".br"@,
    }
}

/// Wire name of an encoding, as `Content-Encoding` carries it.
pub open spec fn spec_enc_name(e: Encoding) -> Seq<char> {
    match e {
        Encoding::Identity => "identity"@,
        Encoding::Gzip => "gzip"@,
        Encoding::Brotli => "br"@,
    }
}

impl Encoding {
    /// Default filename suffix used for this encoding when probing the
    /// filesystem.
    pub fn suffix(&self) -> (r: &'static str)
        ensures
            r@ == spec_suffix(*self),
    {
        match *self {
            Encoding::Identity => "",
            Encoding::Gzip => ".gz",
            Encoding::Brotli => ".br",
        }
    }

    /// The encoding's name on the wire.
    pub fn name(&self) -> (r: &'static str)
        ensures
            r@ == spec_enc_name(*self),
    {
        match *self {
            Encoding::Identity => "identity",
            Encoding::Gzip => "gzip",
            Encoding::Brotli => "br",
        }
    }
}

/// The negotiated encoding preference: three slots, q-descending,
/// padded with `Identity`.
#[derive(Debug, Clone)]
pub struct AcceptEncoding {
    pub ordered: Vec<Encoding>,
}

/// The sequence an `Iter` over `ordered` yields: the entries in order,
/// with `Identity` kept only at its first occurrence, or appended at the
/// end when it does not occur at all.
pub open spec fn spec_yield_from(s: Seq<Encoding>, seen_identity: bool) -> Seq<Encoding>
    decreases s.len(),
{
    if s.len() == 0 {
        if seen_identity {
            Seq::<Encoding>::empty()
        } else {
            seq![Encoding::Identity]
        }
    } else if s[0] == Encoding::Identity {
        if seen_identity {
            spec_yield_from(s.skip(1), true)
        } else {
            seq![Encoding::Identity] + spec_yield_from(s.skip(1), true)
        }
    } else {
        seq![s[0]] + spec_yield_from(s.skip(1), seen_identity)
    }
}

pub open spec fn spec_yield(s: Seq<Encoding>) -> Seq<Encoding> {
    spec_yield_from(s, false)
}

/// Iterator over encodings in preferred order.
///
/// Create one with `AcceptEncoding::iter` or `Input::encodings`.
#[derive(Debug)]
pub struct Iter {
    pub items: Vec<Encoding>,
    pub pos: usize,
}

impl Iter {
    /// The next encoding to try, or `None` when the list is exhausted.
    pub fn next(&mut self) -> (r: Option<Encoding>)
        requires
            old(self).pos <= old(self).items@.len(),
        ensures
            final(self).items == old(self).items,
            old(self).pos < old(self).items@.len() ==> r == Some(
                old(self).items@[old(self).pos as int],
            ) && final(self).pos == old(self).pos + 1,
            old(self).pos == old(self).items@.len() ==> r is None && final(self).pos == old(
                self,
            ).pos,
    {
        if self.pos < self.items.len() {
            let e = self.items[self.pos];
            self.pos = self.pos + 1;
            Some(e)
        } else {
            None
        }
    }

    /// All remaining encodings, in order.
    pub fn collect_all(&mut self) -> (r: Vec<Encoding>)
        requires
            old(self).pos <= old(self).items@.len(),
        ensures
            r@ == old(self).items@.skip(old(self).pos as int),
            final(self).pos == final(self).items@.len(),
            final(self).items == old(self).items,
    {
        let mut out: Vec<Encoding> = Vec::new();
        while self.pos < self.items.len()
            invariant
                self.pos <= self.items@.len(),
                self.items == old(self).items,
                old(self).pos <= self.pos,
                out@ == self.items@.subrange(old(self).pos as int, self.pos as int),
            decreases self.items@.len() - self.pos,
        {
            out.push(self.items[self.pos]);
            self.pos = self.pos + 1;
        }
        proof {
            assert(out@ == old(self).items@.skip(old(self).pos as int));
        }
        out
    }
}

impl AcceptEncoding {
    /// Whether the three preference slots are filled.
    pub open spec fn wf(&self) -> bool {
        self.ordered@.len() == 3
    }

    /// Iterate the accepted encodings in preferred order; `Identity` is
    /// yielded exactly once.
    pub fn iter(&self) -> (r: Iter)
        ensures
            r.items@ == spec_yield(self.ordered@),
            r.pos == 0,
    {
        let mut items: Vec<Encoding> = Vec::new();
        let mut seen: bool = false;
        let mut i: usize = 0;
        proof {
            assert(self.ordered@.skip(0) == self.ordered@);
        }
        while i < self.ordered.len()
            invariant
                i <= self.ordered@.len(),
                spec_yield(self.ordered@) == items@ + spec_yield_from(
                    self.ordered@.skip(i as int),
                    seen,
                ),
            decreases self.ordered@.len() - i,
        {
            let e = self.ordered[i];
            proof {
                let rest = self.ordered@.skip(i as int);
                assert(rest[0] == e);
                assert(rest.skip(1) == self.ordered@.skip(i + 1));
            }
            match e {
                Encoding::Identity => {
                    if !seen {
                        items.push(Encoding::Identity);
                    }
                    seen = true;
                },
                other => {
                    items.push(other);
                },
            }
            i = i + 1;
        }
        proof {
            assert(self.ordered@.skip(i as int) =~= Seq::<Encoding>::empty());
        }
        if !seen {
            items.push(Encoding::Identity);
        }
        Iter { items, pos: 0 }
    }

    /// The preference list of a request without a usable
    /// `Accept-Encoding` header: identity only.
    pub fn identity() -> (r: AcceptEncoding)
        ensures
            r.ordered@ == seq![Encoding::Identity, Encoding::Identity, Encoding::Identity],
            r.wf(),
    {
        let mut v: Vec<Encoding> = Vec::new();
        v.push(Encoding::Identity);
        v.push(Encoding::Identity);
        v.push(Encoding::Identity);
        proof {
            assert(v@ =~= seq![Encoding::Identity, Encoding::Identity, Encoding::Identity]);
        }
        AcceptEncoding { ordered: v }
    }
}

/// The value of the digits after `0.`, scaled to thousandths.
pub open spec fn q_frac_val(d: Seq<u8>) -> u16 {
    (((if d.len() > 0 {
        (d[0] - 48) * 100
    } else {
        0
    }) + (if d.len() > 1 {
        (d[1] - 48) * 10
    } else {
        0
    }) + (if d.len() > 2 {
        (d[2] - 48)
    } else {
        0
    })) as u16)
}

/// The strict q-value grammar: after trimming, exactly `q=` followed by
/// `0`, `0.` with up to three digits, `1`, or `1.` with up to three
/// zeros.  The value is in thousandths.  Anything else is refused.
pub open spec fn spec_parse_q_bytes(s: Seq<u8>) -> Option<u16> {
    let t = spec_trim(s);
    if t.len() < 3 || t.len() > 7 || t[0] != 113 || t[1] != 61 {
        None
    } else if t[2] == 49 {
        if t.len() == 3 {
            Some(1000u16)
        } else if t[3] == 46 && (forall|j: int| 4 <= j < t.len() ==> t[j] == 48) {
            Some(1000u16)
        } else {
            None
        }
    } else if t[2] == 48 {
        if t.len() == 3 {
            Some(0u16)
        } else if t[3] != 46 {
            None
        } else if all_digits(t.skip(4)) {
            Some(q_frac_val(t.skip(4)))
        } else {
            None
        }
    } else {
        None
    }
}

/// Parses one `;q=...` parameter.  `None` input (no parameter at all)
/// counts as q=1; a malformed parameter is refused.
pub fn parse_q(val: Option<&[u8]>) -> (r: Option<u16>)
    ensures
        val is None ==> r == Some(1000u16),
        val matches Some(b) ==> r == spec_parse_q_bytes(b@),
{
    let b = match val {
        Some(b) => b,
        None => {
            return Some(1000);
        },
    };
    let t = trim_bytes(b);
    if t.len() < 3 || t.len() > 7 || t[0] != 113 || t[1] != 61 {
        return None;
    }
    if t[2] == 49 {
        if t.len() == 3 {
            return Some(1000);
        }
        if t[3] != 46 {
            return None;
        }
        let mut j: usize = 4;
        while j < t.len()
            invariant
                val == Some(b),
                t@ == spec_trim(b@),
                4 <= j <= t@.len() <= 7,
                t@[0] == 113 && t@[1] == 61 && t@[2] == 49 && t@[3] == 46,
                forall|k: int| 4 <= k < j ==> t@[k] == 48,
            decreases t@.len() - j,
        {
            if t[j] != 48 {
                return None;
            }
            j = j + 1;
        }
        Some(1000)
    } else if t[2] == 48 {
        if t.len() == 3 {
            return Some(0);
        }
        if t[3] != 46 {
            return None;
        }
        let mut j: usize = 4;
        let mut v: u16 = 0;
        while j < t.len()
            invariant
                val == Some(b),
                t@ == spec_trim(b@),
                4 <= j <= t@.len() <= 7,
                t@[0] == 113 && t@[1] == 61 && t@[2] == 48 && t@[3] == 46,
                forall|k: int| 4 <= k < j ==> is_digit(#[trigger] t@[k]),
                v == q_frac_val(t@.skip(4).take(j - 4)),
                v <= 999,
            decreases t@.len() - j,
        {
            let b = t[j];
            if !(48 <= b && b <= 57) {
                proof {
                    assert(t@.skip(4)[j - 4] == b);
                    assert(!all_digits(t@.skip(4)));
                }
                return None;
            }
            let scale: u16 = if j == 4 {
                100
            } else if j == 5 {
                10
            } else {
                1
            };
            v = v + (b - 48) as u16 * scale;
            proof {
                let d = t@.skip(4);
                assert(d.take(j - 4 + 1) =~= d.take(j - 4).push(b));
            }
            j = j + 1;
        }
        proof {
            assert(t@.skip(4).take(j - 4) =~= t@.skip(4));
            assert(all_digits(t@.skip(4)));
        }
        Some(v)
    } else {
        None
    }
}

/// The bytes of the token `identity`.
pub open spec fn tok_identity() -> Seq<u8> {
    seq![105u8, 100u8, 101u8, 110u8, 116u8, 105u8, 116u8, 121u8]
}

/// The bytes of the token `br`.
pub open spec fn tok_br() -> Seq<u8> {
    seq![98u8, 114u8]
}

/// The bytes of the token `gzip`.
pub open spec fn tok_gzip() -> Seq<u8> {
    seq![103u8, 122u8, 105u8, 112u8]
}

/// The bytes of the token `*`.
pub open spec fn tok_star() -> Seq<u8> {
    seq![42u8]
}

/// The recognized token of a chunk, read before the first `;`: the
/// encoding, `None` for `*`, and no result at all for foreign tokens.
pub open spec fn chunk_token(c: Seq<u8>) -> Option<Option<Encoding>> {
    let tok = spec_trim(c.take(spec_find_semi(c)));
    if tok == tok_identity() {
        Some(Some(Encoding::Identity))
    } else if tok == tok_br() {
        Some(Some(Encoding::Brotli))
    } else if tok == tok_gzip() {
        Some(Some(Encoding::Gzip))
    } else if tok == tok_star() {
        Some(None)
    } else {
        None
    }
}

/// Byte-wise token tests, each true exactly on its token.
fn is_tok_identity(t: &[u8]) -> (r: bool)
    ensures
        r == (t@ == tok_identity()),
{
    let r = t.len() == 8 && t[0] == 105 && t[1] == 100 && t[2] == 101 && t[3] == 110 && t[4] == 116
        && t[5] == 105 && t[6] == 116 && t[7] == 121;
    proof {
        if r {
            assert(t@ =~= tok_identity());
        }
    }
    r
}

fn is_tok_br(t: &[u8]) -> (r: bool)
    ensures
        r == (t@ == tok_br()),
{
    let r = t.len() == 2 && t[0] == 98 && t[1] == 114;
    proof {
        if r {
            assert(t@ =~= tok_br());
        }
    }
    r
}

fn is_tok_gzip(t: &[u8]) -> (r: bool)
    ensures
        r == (t@ == tok_gzip()),
{
    let r = t.len() == 4 && t[0] == 103 && t[1] == 122 && t[2] == 105 && t[3] == 112;
    proof {
        if r {
            assert(t@ =~= tok_gzip());
        }
    }
    r
}

fn is_tok_star(t: &[u8]) -> (r: bool)
    ensures
        r == (t@ == tok_star()),
{
    let r = t.len() == 1 && t[0] == 42;
    proof {
        if r {
            assert(t@ =~= tok_star());
        }
    }
    r
}

/// Index of the first `;` in `c`, or its length.
pub open spec fn spec_find_semi(c: Seq<u8>) -> int {
    crate::range::spec_find(c, 59)
}

/// The q-value of a chunk: taken from the text between the first and the
/// second `;`, or 1000 when the chunk has no parameter.
pub open spec fn chunk_q(c: Seq<u8>) -> Option<u16> {
    let i = spec_find_semi(c);
    if i == c.len() {
        Some(1000u16)
    } else {
        let after = c.skip(i + 1);
        spec_parse_q_bytes(after.take(spec_find_semi(after)))
    }
}

/// The `(encoding, q)` pair a chunk contributes, if any.
pub open spec fn spec_chunk_push(c: Seq<u8>) -> Seq<(Encoding, u16)> {
    match chunk_token(c) {
        Some(Some(e)) => match chunk_q(c) {
            Some(q) => seq![(e, q)],
            None => Seq::<(Encoding, u16)>::empty(),
        },
        _ => Seq::<(Encoding, u16)>::empty(),
    }
}

/// Whether a chunk is `*` with q=0, which forbids unlisted encodings.
pub open spec fn spec_chunk_disallows(c: Seq<u8>) -> bool {
    chunk_token(c) == Some(None::<Encoding>) && chunk_q(c) == Some(0u16)
}

/// All pairs the comma-separated chunks of a header line contribute.
pub open spec fn spec_header_pushes(h: Seq<u8>) -> Seq<(Encoding, u16)>
    decreases h.len(),
        via spec_header_pushes_dec
{
    let i = crate::range::spec_find(h, 44);
    spec_chunk_push(h.take(i)) + (if i < h.len() {
        spec_header_pushes(h.skip(i + 1))
    } else {
        Seq::<(Encoding, u16)>::empty()
    })
}

#[via_fn]
proof fn spec_header_pushes_dec(h: Seq<u8>) {
    crate::range::lemma_spec_find(h, 44);
}

/// Whether some chunk of the header line is `*` with q=0.
pub open spec fn spec_header_disallows(h: Seq<u8>) -> bool
    decreases h.len(),
        via spec_header_disallows_dec
{
    let i = crate::range::spec_find(h, 44);
    spec_chunk_disallows(h.take(i)) || (i < h.len() && spec_header_disallows(h.skip(i + 1)))
}

#[via_fn]
proof fn spec_header_disallows_dec(h: Seq<u8>) {
    crate::range::lemma_spec_find(h, 44);
}

/// Parser for the `Accept-Encoding` header.
///
/// It drops unaccepted encodings and returns only supported ones.
pub struct AcceptEncodingParser {
    pub buf: Vec<(Encoding, u16)>,
    /// Set when the client sent `*;q=0`; kept for a future decision on
    /// whether identity may be excluded, and not consulted otherwise.
    pub allow_any: bool,
}

impl AcceptEncodingParser {
    pub fn new() -> (r: AcceptEncodingParser)
        ensures
            r.buf@ == Seq::<(Encoding, u16)>::empty(),
            r.allow_any == true,
    {
        AcceptEncodingParser { buf: Vec::new(), allow_any: true }
    }

    /// Feeds one comma-separated chunk of a header line.
    fn add_chunk(&mut self, chunk: &[u8])
        ensures
            final(self).buf@ == old(self).buf@ + spec_chunk_push(chunk@),
            final(self).allow_any == (old(self).allow_any && !spec_chunk_disallows(chunk@)),
    {
        let i = find_byte(chunk, 0, 59);
        proof {
            crate::range::lemma_find_is_spec(chunk@, 59, i as int);
            assert(chunk@.subrange(0, i as int) == chunk@.take(i as int));
        }
        let tok = trim_bytes(&chunk[0..i]);
        let enc: Option<Encoding> = if is_tok_identity(tok) {
            Some(Encoding::Identity)
        } else if is_tok_br(tok) {
            Some(Encoding::Brotli)
        } else if is_tok_gzip(tok) {
            Some(Encoding::Gzip)
        } else if is_tok_star(tok) {
            None
        } else {
            proof {
                assert(chunk_token(chunk@) is None);
                assert(self.buf@ == old(self).buf@ + spec_chunk_push(chunk@));
            }
            return ;
        };
        let q: u16 = {
            let qr = if i == chunk.len() {
                parse_q(None)
            } else {
                let rest = &chunk[i + 1..chunk.len()];
                proof {
                    assert(rest@ == chunk@.skip(i + 1));
                }
                let j = find_byte(rest, 0, 59);
                proof {
                    crate::range::lemma_find_is_spec(rest@, 59, j as int);
                    assert(rest@.subrange(0, j as int) == rest@.take(j as int));
                }
                parse_q(Some(&rest[0..j]))
            };
            match qr {
                Some(q) => q,
                None => {
                    proof {
                        assert(chunk_q(chunk@) is None);
                    }
                    return ;
                },
            }
        };
        match (enc, q) {
            (None, 0u16) => {
                self.allow_any = false;
            },
            (None, _) => {},
            (Some(e), _) => {
                self.buf.push((e, q));
                proof {
                    assert(self.buf@ =~= old(self).buf@ + spec_chunk_push(chunk@));
                }
            },
        }
    }

    /// Feeds one `Accept-Encoding` header line.
    pub fn add_header(&mut self, header: &[u8])
        ensures
            final(self).buf@ == old(self).buf@ + spec_header_pushes(header@),
            final(self).allow_any == (old(self).allow_any && !spec_header_disallows(header@)),
    {
        let mut pos: usize = 0;
        let mut more: bool = true;
        proof {
            assert(header@.skip(0) == header@);
        }
        while more
            invariant
                pos <= header@.len(),
                old(self).buf@ + spec_header_pushes(header@) == self.buf@ + (if more {
                    spec_header_pushes(header@.skip(pos as int))
                } else {
                    Seq::<(Encoding, u16)>::empty()
                }),
                (old(self).allow_any && !spec_header_disallows(header@)) == (self.allow_any && !(
                more && spec_header_disallows(header@.skip(pos as int)))),
            decreases header@.len() - pos + (if more {
                1int
            } else {
                0int
            }),
        {
            let next = find_byte(header, pos, 44);
            proof {
                let rest = header@.skip(pos as int);
                crate::range::lemma_find_is_spec(rest, 44, next - pos);
                assert(rest.take(next - pos) == header@.subrange(pos as int, next as int));
                if (next as int) < header@.len() {
                    assert(rest.skip(next - pos + 1) == header@.skip(next + 1));
                }
            }
            self.add_chunk(&header[pos..next]);
            if next == header.len() {
                more = false;
            } else {
                pos = next + 1;
            }
        }
        proof {
            assert(self.buf@ + Seq::<(Encoding, u16)>::empty() =~= self.buf@);
        }
    }
}

/// Order of the accepted pairs: q descending, ties broken by the enum
/// order Brotli, Gzip, Identity.
pub open spec fn pair_le(a: (Encoding, u16), b: (Encoding, u16)) -> bool {
    a.1 > b.1 || (a.1 == b.1 && rank(a.0) <= rank(b.0))
}

/// `x` inserted into `s` after every element that orders at or before it.
pub open spec fn spec_insert(x: (Encoding, u16), s: Seq<(Encoding, u16)>) -> Seq<(Encoding, u16)>
    decreases s.len(),
{
    if s.len() > 0 && pair_le(s[0], x) {
        seq![s[0]] + spec_insert(x, s.skip(1))
    } else {
        seq![x] + s
    }
}

/// Insertion sort of the accepted pairs under `pair_le`.
pub open spec fn spec_sort(s: Seq<(Encoding, u16)>) -> Seq<(Encoding, u16)>
    decreases s.len(),
{
    if s.len() == 0 {
        Seq::<(Encoding, u16)>::empty()
    } else {
        spec_insert(s[s.len() - 1], spec_sort(s.take(s.len() - 1)))
    }
}

proof fn lemma_insert_at(x: (Encoding, u16), s: Seq<(Encoding, u16)>, k: int)
    requires
        0 <= k <= s.len(),
        forall|j: int| 0 <= j < k ==> pair_le(#[trigger] s[j], x),
        k < s.len() ==> !pair_le(s[k], x),
    ensures
        spec_insert(x, s) == s.take(k) + seq![x] + s.skip(k),
    decreases s.len(),
{
    if k == 0 {
        assert(s.take(0) + seq![x] + s.skip(0) =~= seq![x] + s);
    } else {
        assert(pair_le(s[0], x));
        lemma_insert_at(x, s.skip(1), k - 1);
        assert(s.skip(1).take(k - 1) == s.take(k).skip(1));
        assert(s.skip(1).skip(k - 1) == s.skip(k));
        assert(seq![s[0]] + (s.skip(1).take(k - 1) + seq![x] + s.skip(1).skip(k - 1)) =~= s.take(k)
            + seq![x] + s.skip(k));
    }
}

fn rank_of(e: Encoding) -> (r: u8)
    ensures
        r as int == rank(e),
{
    match e {
        Encoding::Brotli => 0,
        Encoding::Gzip => 1,
        Encoding::Identity => 2,
    }
}

fn pair_le_exec(a: (Encoding, u16), b: (Encoding, u16)) -> (r: bool)
    ensures
        r == pair_le(a, b),
{
    a.1 > b.1 || (a.1 == b.1 && rank_of(a.0) <= rank_of(b.0))
}

/// The first `room` encodings of `s` whose q is not zero, in order.
pub open spec fn spec_pick(s: Seq<(Encoding, u16)>, room: int) -> Seq<Encoding>
    decreases s.len(),
{
    if s.len() == 0 || room <= 0 {
        Seq::<Encoding>::empty()
    } else if s[0].1 != 0 {
        seq![s[0].0] + spec_pick(s.skip(1), room - 1)
    } else {
        spec_pick(s.skip(1), room)
    }
}

proof fn lemma_pick_len(s: Seq<(Encoding, u16)>, room: int)
    ensures
        spec_pick(s, room).len() <= (if room >= 0 {
            room
        } else {
            0
        }),
    decreases s.len(),
{
    if s.len() > 0 && room > 0 {
        lemma_pick_len(s.skip(1), room - 1);
        lemma_pick_len(s.skip(1), room);
    }
}

/// `s` padded with `Identity` up to three entries.
pub open spec fn pad3(s: Seq<Encoding>) -> Seq<Encoding> {
    if s.len() >= 3 {
        s
    } else {
        s + Seq::<Encoding>::new((3 - s.len()) as nat, |i: int| Encoding::Identity)
    }
}

/// The final preference list of a set of accepted pairs: sorted by
/// `pair_le`, q=0 entries dropped, cut to three, padded with `Identity`.
pub open spec fn spec_done_of(buf: Seq<(Encoding, u16)>) -> Seq<Encoding> {
    pad3(spec_pick(spec_sort(buf), 3))
}

impl AcceptEncodingParser {
    /// The final ordered preference list.
    pub fn done(self) -> (r: AcceptEncoding)
        ensures
            r.ordered@ == spec_done_of(self.buf@),
            r.wf(),
    {
        let mut sorted: Vec<(Encoding, u16)> = Vec::new();
        let mut i: usize = 0;
        proof {
            assert(self.buf@.take(0) =~= Seq::<(Encoding, u16)>::empty());
        }
        while i < self.buf.len()
            invariant
                i <= self.buf@.len(),
                sorted@ == spec_sort(self.buf@.take(i as int)),
            decreases self.buf@.len() - i,
        {
            let x = self.buf[i];
            let mut k: usize = 0;
            while k < sorted.len() && pair_le_exec(sorted[k], x)
                invariant
                    k <= sorted@.len(),
                    forall|j: int| 0 <= j < k ==> pair_le(#[trigger] sorted@[j], x),
                decreases sorted@.len() - k,
            {
                k = k + 1;
            }
            let ghost before = sorted@;
            proof {
                lemma_insert_at(x, before, k as int);
            }
            sorted.insert(k, x);
            proof {
                assert(sorted@ =~= before.take(k as int) + seq![x] + before.skip(k as int));
                let cur = self.buf@.take(i + 1);
                assert(cur.take(cur.len() - 1) == self.buf@.take(i as int));
                assert(cur[cur.len() - 1] == x);
                assert(sorted@ == spec_sort(cur));
            }
            i = i + 1;
        }
        proof {
            assert(self.buf@.take(i as int) =~= self.buf@);
        }
        let mut out: Vec<Encoding> = Vec::new();
        let mut j: usize = 0;
        proof {
            assert(sorted@.skip(0) == sorted@);
        }
        while j < sorted.len() && out.len() < 3
            invariant
                j <= sorted@.len(),
                out@.len() <= 3,
                spec_pick(sorted@, 3) == out@ + spec_pick(
                    sorted@.skip(j as int),
                    3 - out@.len(),
                ),
            decreases sorted@.len() - j,
        {
            let p = sorted[j];
            proof {
                let rest = sorted@.skip(j as int);
                assert(rest[0] == p);
                assert(rest.skip(1) == sorted@.skip(j + 1));
                lemma_pick_len(sorted@.skip(j + 1), 3 - out@.len() - 1);
            }
            if p.1 != 0 {
                out.push(p.0);
            }
            j = j + 1;
        }
        proof {
            if j == sorted@.len() {
                assert(sorted@.skip(j as int) =~= Seq::<(Encoding, u16)>::empty());
            }
            assert(out@ == spec_pick(sorted@, 3));
            lemma_pick_len(sorted@, 3);
        }
        let ghost picked = out@;
        while out.len() < 3
            invariant
                picked.len() <= out@.len() <= 3,
                out@.take(picked.len() as int) == picked,
                forall|t: int| picked.len() <= t < out@.len() ==> out@[t] == Encoding::Identity,
            decreases 3 - out@.len(),
        {
            out.push(Encoding::Identity);
        }
        proof {
            assert(out@ =~= pad3(picked));
        }
        AcceptEncoding { ordered: out }
    }
}

} // verus!

verus! {

/// How many times `Identity` occurs in a yielded sequence.
pub open spec fn count_identity(s: Seq<Encoding>) -> int
    decreases s.len(),
{
    if s.len() == 0 {
        0
    } else {
        (if s[0] == Encoding::Identity {
            1int
        } else {
            0int
        }) + count_identity(s.skip(1))
    }
}

proof fn lemma_count_cons(x: Encoding, z: Seq<Encoding>)
    ensures
        count_identity(seq![x] + z) == (if x == Encoding::Identity {
            1int
        } else {
            0int
        }) + count_identity(z),
{
    let y = seq![x] + z;
    assert(y[0] == x);
    assert(y.skip(1) =~= z);
}

proof fn lemma_yield_from_count(s: Seq<Encoding>, seen: bool)
    ensures
        count_identity(spec_yield_from(s, seen)) == (if seen {
            0int
        } else {
            1int
        }),
    decreases s.len(),
{
    if s.len() == 0 {
        if !seen {
            lemma_count_cons(Encoding::Identity, Seq::<Encoding>::empty());
            assert(seq![Encoding::Identity] + Seq::<Encoding>::empty() =~= seq![
                Encoding::Identity,
            ]);
        }
    } else if s[0] == Encoding::Identity {
        lemma_yield_from_count(s.skip(1), true);
        if !seen {
            lemma_count_cons(Encoding::Identity, spec_yield_from(s.skip(1), true));
        }
    } else {
        lemma_yield_from_count(s.skip(1), seen);
        lemma_count_cons(s[0], spec_yield_from(s.skip(1), seen));
    }
}

/// Identity reachability: whatever the three preference slots hold, the
/// iteration yields `Identity` exactly once — at its place in the list,
/// or appended at the end when the list does not name it.
pub proof fn lemma_identity_yielded_once(ordered: Seq<Encoding>)
    ensures
        count_identity(spec_yield(ordered)) == 1,
{
    lemma_yield_from_count(ordered, false);
}

/// The pairs are ordered: q descending, rank ascending on ties.
pub open spec fn sorted_le(s: Seq<(Encoding, u16)>) -> bool {
    forall|i: int, j: int|
        #![trigger s[i], s[j]]
        0 <= i < j < s.len() ==> pair_le(s[i], s[j])
}

/// Each encoding occurs in at most one accepted pair.
pub open spec fn distinct_encodings(s: Seq<(Encoding, u16)>) -> bool {
    forall|i: int, j: int|
        #![trigger s[i], s[j]]
        0 <= i < j < s.len() ==> s[i].0 != s[j].0
}

proof fn lemma_insert_split(x: (Encoding, u16), s: Seq<(Encoding, u16)>) -> (k: int)
    ensures
        0 <= k <= s.len(),
        spec_insert(x, s) == s.take(k) + seq![x] + s.skip(k),
        forall|j: int| 0 <= j < k ==> pair_le(#[trigger] s[j], x),
        k < s.len() ==> !pair_le(s[k], x),
    decreases s.len(),
{
    if s.len() > 0 && pair_le(s[0], x) {
        let k0 = lemma_insert_split(x, s.skip(1));
        let k = k0 + 1;
        assert(s.skip(1).take(k0) == s.take(k).skip(1));
        assert(s.skip(1).skip(k0) == s.skip(k));
        assert(seq![s[0]] + (s.skip(1).take(k0) + seq![x] + s.skip(1).skip(k0)) =~= s.take(k)
            + seq![x] + s.skip(k));
        assert(forall|j: int| 1 <= j < k ==> s[j] == s.skip(1)[j - 1]);
        k
    } else {
        assert(s.take(0) + seq![x] + s.skip(0) =~= seq![x] + s);
        0
    }
}

proof fn lemma_insert_props(x: (Encoding, u16), s: Seq<(Encoding, u16)>)
    ensures
        spec_insert(x, s).len() == s.len() + 1,
        forall|y: (Encoding, u16)|
            #[trigger] spec_insert(x, s).contains(y) <==> (y == x || s.contains(y)),
        sorted_le(s) ==> sorted_le(spec_insert(x, s)),
{
    let k = lemma_insert_split(x, s);
    let r = spec_insert(x, s);
    assert(forall|i: int|
        0 <= i < r.len() ==> r[i] == (if i < k {
            s[i]
        } else if i == k {
            x
        } else {
            s[i - 1]
        }));
    assert forall|y: (Encoding, u16)| #[trigger] r.contains(y) implies (y == x || s.contains(
        y,
    )) by {
        let i = choose|i: int| 0 <= i < r.len() && r[i] == y;
        if i < k {
            assert(s[i] == y);
        } else if i > k {
            assert(s[i - 1] == y);
        }
    }
    assert forall|y: (Encoding, u16)| y == x || s.contains(y) implies #[trigger] r.contains(
        y,
    ) by {
        if y == x {
            assert(r[k] == y);
        } else {
            let i = choose|i: int| 0 <= i < s.len() && s[i] == y;
            if i < k {
                assert(r[i] == y);
            } else {
                assert(r[i + 1] == y);
            }
        }
    }
    if sorted_le(s) {
        assert forall|i: int, j: int|
            #![trigger r[i], r[j]]
            0 <= i < j < r.len() implies pair_le(r[i], r[j]) by {
            if k < s.len() {
                assert(pair_le(x, s[k]) || pair_le(s[k], x));
            }
            assert(forall|m: int|
                k <= m < s.len() ==> pair_le(s[k], #[trigger] s[m]));
        }
    }
}

proof fn lemma_sort_props(s: Seq<(Encoding, u16)>)
    ensures
        spec_sort(s).len() == s.len(),
        sorted_le(spec_sort(s)),
        forall|y: (Encoding, u16)| #[trigger] spec_sort(s).contains(y) <==> s.contains(y),
    decreases s.len(),
{
    if s.len() > 0 {
        let last = s[s.len() - 1];
        let pre = s.take(s.len() - 1);
        lemma_sort_props(pre);
        lemma_insert_props(last, spec_sort(pre));
        assert forall|y: (Encoding, u16)| #[trigger] s.contains(y) implies (y == last
            || pre.contains(y)) by {
            let i = choose|i: int| 0 <= i < s.len() && s[i] == y;
            if i < s.len() - 1 {
                assert(pre[i] == y);
            }
        }
        assert forall|y: (Encoding, u16)| y == last || pre.contains(y) implies #[trigger] s
            .contains(y) by {
            if y == last {
                assert(s[s.len() - 1] == y);
            } else {
                let i = choose|i: int| 0 <= i < pre.len() && pre[i] == y;
                assert(s[i] == y);
            }
        }
    }
}

proof fn lemma_sort_distinct(s: Seq<(Encoding, u16)>)
    requires
        distinct_encodings(s),
    ensures
        distinct_encodings(spec_sort(s)),
    decreases s.len(),
{
    if s.len() > 0 {
        let last = s[s.len() - 1];
        let pre = s.take(s.len() - 1);
        assert(distinct_encodings(pre)) by {
            assert(forall|i: int, j: int|
                #![trigger pre[i], pre[j]]
                0 <= i < j < pre.len() ==> s[i] == pre[i] && s[j] == pre[j]);
        }
        lemma_sort_distinct(pre);
        lemma_sort_props(pre);
        let sp = spec_sort(pre);
        assert forall|m: int| 0 <= m < sp.len() implies sp[m].0 != last.0 by {
            assert(sp.contains(sp[m]));
            let i = choose|i: int| 0 <= i < pre.len() && pre[i] == sp[m];
            assert(s[i] == sp[m]);
            assert(s[i].0 != s[s.len() - 1].0);
        }
        let k = lemma_insert_split(last, sp);
        let r = spec_insert(last, sp);
        assert(forall|i: int|
            0 <= i < r.len() ==> r[i] == (if i < k {
                sp[i]
            } else if i == k {
                last
            } else {
                sp[i - 1]
            }));
        assert forall|i: int, j: int|
            #![trigger r[i], r[j]]
            0 <= i < j < r.len() implies r[i].0 != r[j].0 by {}
    }
}

/// First position of `e` in `s`; `s.len()` when it does not occur.
pub open spec fn first_idx(s: Seq<Encoding>, e: Encoding) -> int
    decreases s.len(),
{
    if s.len() == 0 {
        0
    } else if s[0] == e {
        0
    } else {
        1 + first_idx(s.skip(1), e)
    }
}

pub proof fn lemma_first_idx_props(s: Seq<Encoding>, e: Encoding)
    ensures
        0 <= first_idx(s, e) <= s.len(),
        s.contains(e) <==> first_idx(s, e) < s.len(),
        first_idx(s, e) < s.len() ==> s[first_idx(s, e)] == e,
        forall|j: int| 0 <= j < first_idx(s, e) ==> s[j] != e,
    decreases s.len(),
{
    if s.len() > 0 && s[0] != e {
        lemma_first_idx_props(s.skip(1), e);
        assert(forall|j: int| 1 <= j < s.len() ==> s[j] == s.skip(1)[j - 1]);
        if s.contains(e) {
            let i = choose|i: int| 0 <= i < s.len() && s[i] == e;
            assert(s.skip(1)[i - 1] == e);
            assert(s.skip(1).contains(e));
        }
        if s.skip(1).contains(e) {
            let i = choose|i: int| 0 <= i < s.skip(1).len() && s.skip(1)[i] == e;
            assert(s[i + 1] == e);
        }
    }
}

proof fn lemma_first_idx_cons(x: Encoding, z: Seq<Encoding>, e: Encoding)
    ensures
        first_idx(seq![x] + z, e) == (if x == e {
            0int
        } else {
            1 + first_idx(z, e)
        }),
        (seq![x] + z).contains(e) <==> (x == e || z.contains(e)),
{
    let y = seq![x] + z;
    assert(y[0] == x);
    assert(y.skip(1) =~= z);
    lemma_first_idx_props(y, e);
    lemma_first_idx_props(z, e);
}

proof fn lemma_pick_order(s: Seq<(Encoding, u16)>, room: int, ia: int, ib: int)
    requires
        distinct_encodings(s),
        0 <= ia < ib < s.len(),
        s[ia].1 != 0,
        spec_pick(s, room).contains(s[ib].0),
    ensures
        spec_pick(s, room).contains(s[ia].0),
        first_idx(spec_pick(s, room), s[ia].0) < first_idx(spec_pick(s, room), s[ib].0),
    decreases s.len(),
{
    let p = spec_pick(s, room);
    assert(s.len() > 0);
    assert(distinct_encodings(s.skip(1))) by {
        assert(forall|i: int, j: int|
            #![trigger s.skip(1)[i], s.skip(1)[j]]
            0 <= i < j < s.skip(1).len() ==> s.skip(1)[i] == s[i + 1] && s.skip(1)[j] == s[j
                + 1]);
    }
    if room <= 0 {
        assert(!p.contains(s[ib].0));
    } else if ia == 0 {
        let tail = spec_pick(s.skip(1), room - 1);
        assert(p == seq![s[0].0] + tail);
        lemma_first_idx_cons(s[0].0, tail, s[ia].0);
        lemma_first_idx_cons(s[0].0, tail, s[ib].0);
        assert(s[ib].0 != s[0].0);
        lemma_first_idx_props(tail, s[ib].0);
    } else {
        if s[0].1 != 0 {
            let tail = spec_pick(s.skip(1), room - 1);
            assert(p == seq![s[0].0] + tail);
            lemma_first_idx_cons(s[0].0, tail, s[ib].0);
            assert(s[ib].0 != s[0].0);
            assert(s.skip(1)[ia - 1] == s[ia]);
            assert(s.skip(1)[ib - 1] == s[ib]);
            lemma_pick_order(s.skip(1), room - 1, ia - 1, ib - 1);
            lemma_first_idx_cons(s[0].0, tail, s[ia].0);
            assert(s[ia].0 != s[0].0);
        } else {
            assert(p == spec_pick(s.skip(1), room));
            assert(s.skip(1)[ia - 1] == s[ia]);
            assert(s.skip(1)[ib - 1] == s[ib]);
            lemma_pick_order(s.skip(1), room, ia - 1, ib - 1);
        }
    }
}

proof fn lemma_first_idx_append(s: Seq<Encoding>, z: Seq<Encoding>, e: Encoding)
    requires
        s.contains(e),
    ensures
        (s + z).contains(e),
        first_idx(s + z, e) == first_idx(s, e),
    decreases s.len(),
{
    lemma_first_idx_props(s, e);
    let i = first_idx(s, e);
    assert((s + z)[i] == e);
    assert((s + z).contains(e));
    lemma_first_idx_props(s + z, e);
    let j = first_idx(s + z, e);
    if j < i {
        assert((s + z)[j] == e);
        assert(s[j] == e);
        assert(false);
    }
    if i < j {
        assert((s + z)[i] != e);
        assert(false);
    }
}

proof fn lemma_pad_keeps_nonid(s: Seq<Encoding>, e: Encoding)
    requires
        e != Encoding::Identity,
    ensures
        pad3(s).contains(e) <==> s.contains(e),
        s.contains(e) ==> first_idx(pad3(s), e) == first_idx(s, e),
{
    if s.len() >= 3 {
    } else {
        let fill = Seq::<Encoding>::new((3 - s.len()) as nat, |i: int| Encoding::Identity);
        if s.contains(e) {
            lemma_first_idx_append(s, fill, e);
        }
        if pad3(s).contains(e) {
            let i = choose|i: int| 0 <= i < pad3(s).len() && pad3(s)[i] == e;
            if i < s.len() {
                assert(s[i] == e);
            } else {
                assert(fill[i - s.len()] == e);
                assert(false);
            }
        }
    }
}

proof fn lemma_yield_from_nonid(s: Seq<Encoding>, seen: bool, e: Encoding)
    requires
        e != Encoding::Identity,
    ensures
        spec_yield_from(s, seen).contains(e) <==> s.contains(e),
    decreases s.len(),
{
    if s.len() == 0 {
        if !seen {
            lemma_first_idx_cons(Encoding::Identity, Seq::<Encoding>::empty(), e);
            assert(seq![Encoding::Identity] + Seq::<Encoding>::empty() =~= seq![
                Encoding::Identity,
            ]);
        }
    } else {
        lemma_yield_from_nonid(s.skip(1), if s[0] == Encoding::Identity {
            true
        } else {
            seen
        }, e);
        assert(forall|j: int| 1 <= j < s.len() ==> s[j] == s.skip(1)[j - 1]);
        if s[0] == Encoding::Identity {
            if !seen {
                lemma_first_idx_cons(Encoding::Identity, spec_yield_from(s.skip(1), true), e);
            }
            if s.contains(e) {
                let i = choose|i: int| 0 <= i < s.len() && s[i] == e;
                assert(s.skip(1)[i - 1] == e);
            }
            if s.skip(1).contains(e) {
                let i = choose|i: int| 0 <= i < s.skip(1).len() && s.skip(1)[i] == e;
                assert(s[i + 1] == e);
            }
        } else {
            lemma_first_idx_cons(s[0], spec_yield_from(s.skip(1), seen), e);
            if s.contains(e) && s[0] != e {
                let i = choose|i: int| 0 <= i < s.len() && s[i] == e;
                assert(s.skip(1)[i - 1] == e);
            }
            if s.skip(1).contains(e) {
                let i = choose|i: int| 0 <= i < s.skip(1).len() && s.skip(1)[i] == e;
                assert(s[i + 1] == e);
            }
            if s[0] == e {
                assert(s.contains(e)) by {
                    assert(s[0] == e);
                }
            }
        }
    }
}

proof fn lemma_yield_order(s: Seq<Encoding>, seen: bool, e1: Encoding, e2: Encoding)
    requires
        e1 != Encoding::Identity,
        e2 != Encoding::Identity,
        e1 != e2,
        s.contains(e1),
        s.contains(e2),
        first_idx(s, e1) < first_idx(s, e2),
    ensures
        spec_yield_from(s, seen).contains(e1),
        spec_yield_from(s, seen).contains(e2),
        first_idx(spec_yield_from(s, seen), e1) < first_idx(spec_yield_from(s, seen), e2),
    decreases s.len(),
{
    lemma_first_idx_props(s, e1);
    lemma_first_idx_props(s, e2);
    lemma_yield_from_nonid(s, seen, e1);
    lemma_yield_from_nonid(s, seen, e2);
    assert(s.len() > 0);
    assert(forall|j: int| 1 <= j < s.len() ==> s[j] == s.skip(1)[j - 1]);
    let y = spec_yield_from(s, seen);
    if s[0] == e1 {
        let tail = spec_yield_from(s.skip(1), seen);
        assert(y == seq![e1] + tail);
        lemma_first_idx_cons(e1, tail, e1);
        lemma_first_idx_cons(e1, tail, e2);
        lemma_first_idx_props(tail, e2);
        assert(tail.contains(e2)) by {
            let i = choose|i: int| 0 <= i < s.len() && s[i] == e2;
            assert(s.skip(1)[i - 1] == e2);
            lemma_yield_from_nonid(s.skip(1), seen, e2);
        }
    } else if s[0] == e2 {
        assert(first_idx(s, e2) == 0);
        assert(first_idx(s, e1) < 0);
        assert(false);
    } else {
        let seen2 = if s[0] == Encoding::Identity {
            true
        } else {
            seen
        };
        assert(s.skip(1).contains(e1)) by {
            let i = choose|i: int| 0 <= i < s.len() && s[i] == e1;
            assert(s.skip(1)[i - 1] == e1);
        }
        assert(s.skip(1).contains(e2)) by {
            let i = choose|i: int| 0 <= i < s.len() && s[i] == e2;
            assert(s.skip(1)[i - 1] == e2);
        }
        assert(first_idx(s, e1) == 1 + first_idx(s.skip(1), e1));
        assert(first_idx(s, e2) == 1 + first_idx(s.skip(1), e2));
        lemma_yield_order(s.skip(1), seen2, e1, e2);
        let tail = spec_yield_from(s.skip(1), seen2);
        if s[0] == Encoding::Identity {
            if seen {
                assert(y == tail);
            } else {
                assert(y == seq![Encoding::Identity] + tail);
                lemma_first_idx_cons(Encoding::Identity, tail, e1);
                lemma_first_idx_cons(Encoding::Identity, tail, e2);
            }
        } else {
            assert(y == seq![s[0]] + tail);
            lemma_first_idx_cons(s[0], tail, e1);
            lemma_first_idx_cons(s[0], tail, e2);
        }
    }
}

/// Accept-Encoding monotonicity: when each encoding is named at most
/// once, an encoding accepted with a strictly higher q is yielded before
/// one with a lower (non-zero) q, whenever the latter is yielded at all.
/// `Identity` stands apart: its place is also governed by the
/// always-reachable rule, stated by `lemma_identity_yielded_once`.
pub proof fn lemma_preference_monotone(
    buf: Seq<(Encoding, u16)>,
    a: Encoding,
    qa: u16,
    b: Encoding,
    qb: u16,
)
    requires
        distinct_encodings(buf),
        buf.contains((a, qa)),
        buf.contains((b, qb)),
        qa > qb > 0,
        a != Encoding::Identity,
        b != Encoding::Identity,
        spec_yield(spec_done_of(buf)).contains(b),
    ensures
        spec_yield(spec_done_of(buf)).contains(a),
        first_idx(spec_yield(spec_done_of(buf)), a) < first_idx(spec_yield(spec_done_of(buf)), b),
{
    let sorted = spec_sort(buf);
    lemma_sort_props(buf);
    lemma_sort_distinct(buf);
    assert(a != b) by {
        if a == b {
            let i = choose|i: int| 0 <= i < buf.len() && buf[i] == (a, qa);
            let j = choose|j: int| 0 <= j < buf.len() && buf[j] == (b, qb);
            assert(buf[i].0 == buf[j].0);
            assert(i != j);
            assert(false);
        }
    }
    assert(sorted.contains((a, qa)));
    assert(sorted.contains((b, qb)));
    let ia = choose|i: int| 0 <= i < sorted.len() && sorted[i] == (a, qa);
    let ib = choose|i: int| 0 <= i < sorted.len() && sorted[i] == (b, qb);
    assert(!pair_le((b, qb), (a, qa)));
    assert(ia != ib);
    if ib < ia {
        assert(pair_le(sorted[ib], sorted[ia]));
        assert(false);
    }
    let picked = spec_pick(sorted, 3);
    let padded = pad3(picked);
    let it = spec_yield(padded);
    lemma_yield_from_nonid(padded, false, b);
    lemma_pad_keeps_nonid(picked, b);
    assert(picked.contains(sorted[ib].0));
    lemma_pick_order(sorted, 3, ia, ib);
    lemma_pad_keeps_nonid(picked, a);
    lemma_first_idx_append(picked, Seq::<Encoding>::new((3 - picked.len()) as nat, |i: int| Encoding::Identity), a);
    lemma_first_idx_props(picked, a);
    lemma_first_idx_props(picked, b);
    lemma_yield_order(padded, false, a, b);
}

} // verus!
