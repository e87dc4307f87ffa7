//! Weak ETags: a 12-byte digest of the file's metadata, rendered as 16
//! URL-safe base64 characters inside `W/"..."`.
//!
//! The digest input is a canonical byte string assembled, big-endian,
//! from size, modification and creation time, and on POSIX hosts the
//! device, inode and ctime fields; two processes on one host therefore
//! derive the same tag for the same file.
use crate::ascii::ascii_to_string;
use crate::ascii::bytes_as_chars;
use crate::metadata::FileMetadata;
use crate::metadata::Timestamp;
use blake2::Digest;
use vstd::prelude::*;

verus! {

/// A weak entity tag: 12 opaque bytes.
#[derive(Clone, Copy, Eq, Debug)]
pub struct Etag(pub [u8; 12]);

impl View for Etag {
    type V = Seq<u8>;

    open spec fn view(&self) -> Seq<u8> {
        self.0@
    }
}

impl PartialEq for Etag {
    /// Two tags are equal exactly when their twelve bytes are.
    fn eq(&self, o: &Etag) -> (r: bool) {
        let r = self.0[0] == o.0[0] && self.0[1] == o.0[1] && self.0[2] == o.0[2] && self.0[3]
            == o.0[3] && self.0[4] == o.0[4] && self.0[5] == o.0[5] && self.0[6] == o.0[6]
            && self.0[7] == o.0[7] && self.0[8] == o.0[8] && self.0[9] == o.0[9] && self.0[10]
            == o.0[10] && self.0[11] == o.0[11];
        proof {
            if r {
                assert(self.0@ =~= o.0@);
            }
            if self.0@ == o.0@ {
                assert(forall|i: int| 0 <= i < 12 ==> self.0@[i] == o.0@[i]);
            }
        }
        r
    }
}

impl vstd::std_specs::cmp::PartialEqSpecImpl for Etag {
    open spec fn obeys_eq_spec() -> bool {
        true
    }

    open spec fn eq_spec(&self, o: &Etag) -> bool {
        self.0@ == o.0@
    }
}

/// The 8 bytes of `n`, big-endian.
pub open spec fn u64_be(n: u64) -> Seq<u8> {
    seq![
        ((n >> 56) & 0xff) as u8,
        ((n >> 48) & 0xff) as u8,
        ((n >> 40) & 0xff) as u8,
        ((n >> 32) & 0xff) as u8,
        ((n >> 24) & 0xff) as u8,
        ((n >> 16) & 0xff) as u8,
        ((n >> 8) & 0xff) as u8,
        (n & 0xff) as u8,
    ]
}

/// The 4 bytes of `n`, big-endian.
pub open spec fn u32_be(n: u32) -> Seq<u8> {
    seq![
        ((n >> 24) & 0xff) as u8,
        ((n >> 16) & 0xff) as u8,
        ((n >> 8) & 0xff) as u8,
        (n & 0xff) as u8,
    ]
}

/// The 8 bytes of `n`'s two's-complement value, big-endian.
pub open spec fn i64_be(n: i64) -> Seq<u8> {
    u64_be(n as u64)
}

/// A timestamp's canonical bytes: seconds, then nanoseconds; 0/0 when
/// the filesystem reported none.
pub open spec fn time_bytes(t: Option<Timestamp>) -> Seq<u8> {
    match t {
        Some(ts) => u64_be(ts.secs) + u32_be(ts.nanos),
        None => u64_be(0) + u32_be(0),
    }
}

/// The canonical byte string the tag digests: length, modification
/// time, creation time, and on POSIX hosts device, inode and ctime.
pub open spec fn canonical_bytes(m: FileMetadata) -> Seq<u8> {
    u64_be(m.len) + time_bytes(m.modified) + time_bytes(m.created) + (match m.unix {
        Some(u) => u64_be(u.dev) + u64_be(u.ino) + i64_be(u.ctime) + i64_be(u.ctime_nsec),
        None => Seq::<u8>::empty(),
    })
}

/// What the tag digest is: a name for blake2's Blake2b with 12-byte
/// output, a function of the input bytes alone.
pub uninterp spec fn blake2b12_of(data: Seq<u8>) -> Seq<u8>;

/// Relies on blake2's `Blake2b` parameterized with a 12-byte output
/// size: the digest depends on the input bytes alone and is 12 bytes
/// long.
#[verifier::external_body]
fn blake2b_12(data: &[u8]) -> (r: Vec<u8>)
    ensures
        r@ == blake2b12_of(data@),
        r@.len() == 12,
{
    let mut h: blake2::Blake2b<blake2::digest::consts::U12> = blake2::Blake2b::new();
    h.update(data);
    let out = h.finalize();
    out.to_vec()
}

fn push_u64_be(n: u64, out: &mut Vec<u8>)
    ensures
        final(out)@ == old(out)@ + u64_be(n),
{
    out.push(#[verifier::truncate] (((n >> 56) & 0xff) as u8));
    out.push(#[verifier::truncate] (((n >> 48) & 0xff) as u8));
    out.push(#[verifier::truncate] (((n >> 40) & 0xff) as u8));
    out.push(#[verifier::truncate] (((n >> 32) & 0xff) as u8));
    out.push(#[verifier::truncate] (((n >> 24) & 0xff) as u8));
    out.push(#[verifier::truncate] (((n >> 16) & 0xff) as u8));
    out.push(#[verifier::truncate] (((n >> 8) & 0xff) as u8));
    out.push(#[verifier::truncate] ((n & 0xff) as u8));
    proof {
        assert(out@ =~= old(out)@ + u64_be(n));
    }
}

fn push_u32_be(n: u32, out: &mut Vec<u8>)
    ensures
        final(out)@ == old(out)@ + u32_be(n),
{
    out.push(#[verifier::truncate] (((n >> 24) & 0xff) as u8));
    out.push(#[verifier::truncate] (((n >> 16) & 0xff) as u8));
    out.push(#[verifier::truncate] (((n >> 8) & 0xff) as u8));
    out.push(#[verifier::truncate] ((n & 0xff) as u8));
    proof {
        assert(out@ =~= old(out)@ + u32_be(n));
    }
}

/// The canonical metadata bytes, as `canonical_bytes` lays them out.
pub fn metadata_bytes(m: &FileMetadata) -> (r: Vec<u8>)
    ensures
        r@ == canonical_bytes(*m),
{
    let mut out: Vec<u8> = Vec::new();
    push_u64_be(m.len, &mut out);
    match m.modified {
        Some(ts) => {
            push_u64_be(ts.secs, &mut out);
            push_u32_be(ts.nanos, &mut out);
        },
        None => {
            push_u64_be(0, &mut out);
            push_u32_be(0, &mut out);
        },
    }
    match m.created {
        Some(ts) => {
            push_u64_be(ts.secs, &mut out);
            push_u32_be(ts.nanos, &mut out);
        },
        None => {
            push_u64_be(0, &mut out);
            push_u32_be(0, &mut out);
        },
    }
    match m.unix {
        Some(u) => {
            push_u64_be(u.dev, &mut out);
            push_u64_be(u.ino, &mut out);
            push_u64_be(#[verifier::truncate] (u.ctime as u64), &mut out);
            push_u64_be(#[verifier::truncate] (u.ctime_nsec as u64), &mut out);
        },
        None => {},
    }
    proof {
        assert(out@ =~= canonical_bytes(*m));
    }
    out
}

/// The URL-safe base64 alphabet: `A-Z`, `a-z`, `0-9`, `-`, `_`.
pub open spec fn b64_char(v: u32) -> u8 {
    if v < 26 {
        (65 + v) as u8
    } else if v < 52 {
        (97 + (v - 26)) as u8
    } else if v < 62 {
        (48 + (v - 52)) as u8
    } else if v == 62 {
        45u8
    } else {
        95u8
    }
}

/// The 24-bit group of three bytes.
pub open spec fn triple_val(b0: u8, b1: u8, b2: u8) -> u32 {
    ((b0 as u32) << 16) | ((b1 as u32) << 8) | (b2 as u32)
}

/// Four base64 characters encoding three bytes.
pub open spec fn b64_triple(b0: u8, b1: u8, b2: u8) -> Seq<u8> {
    let n = triple_val(b0, b1, b2);
    seq![
        b64_char((n >> 18) & 63),
        b64_char((n >> 12) & 63),
        b64_char((n >> 6) & 63),
        b64_char(n & 63),
    ]
}

/// The 16 base64 characters of a 12-byte tag.
pub open spec fn etag_encoded(t: Seq<u8>) -> Seq<u8> {
    b64_triple(t[0], t[1], t[2]) + b64_triple(t[3], t[4], t[5]) + b64_triple(t[6], t[7], t[8])
        + b64_triple(t[9], t[10], t[11])
}

/// A whole rendered weak tag: `W/"` + 16 characters + `"`.
pub open spec fn etag_rendered(t: Seq<u8>) -> Seq<u8> {
    seq![87u8, 47u8, 34u8] + etag_encoded(t) + seq![34u8]
}

fn b64_char_of(v: u32) -> (r: u8)
    requires
        v < 64,
    ensures
        r == b64_char(v),
{
    if v < 26 {
        (65 + v) as u8
    } else if v < 52 {
        (97 + (v - 26)) as u8
    } else if v < 62 {
        (48 + (v - 52)) as u8
    } else if v == 62 {
        45
    } else {
        95
    }
}

fn push_b64_triple(b0: u8, b1: u8, b2: u8, out: &mut Vec<u8>)
    ensures
        final(out)@ == old(out)@ + b64_triple(b0, b1, b2),
{
    let n: u32 = ((b0 as u32) << 16u32) | ((b1 as u32) << 8u32) | (b2 as u32);
    proof {
        assert(n == triple_val(b0, b1, b2));
        assert((n >> 18u32) & 63 < 64 && (n >> 12u32) & 63 < 64 && (n >> 6u32) & 63 < 64 && n & 63
            < 64) by (bit_vector);
    }
    out.push(b64_char_of((n >> 18u32) & 63));
    out.push(b64_char_of((n >> 12u32) & 63));
    out.push(b64_char_of((n >> 6u32) & 63));
    out.push(b64_char_of(n & 63));
    proof {
        assert(out@ =~= old(out)@ + b64_triple(b0, b1, b2));
    }
}

/// What one base64 character stands for, if it is in the alphabet.
pub open spec fn spec_decode_char(c: u8) -> Option<u8> {
    if c == 45 {
        Some(62u8)
    } else if c == 95 {
        Some(63u8)
    } else if 48 <= c <= 57 {
        Some(((c - 48) + 52) as u8)
    } else if 65 <= c <= 90 {
        Some((c - 65) as u8)
    } else if 97 <= c <= 122 {
        Some(((c - 97) + 26) as u8)
    } else {
        None
    }
}

/// Decodes one base64 character; `Err` outside the alphabet.
pub fn decode_char(c: u8) -> (r: Result<u8, ()>)
    ensures
        match spec_decode_char(c) {
            Some(v) => r == Ok::<u8, ()>(v),
            None => r == Err::<u8, ()>(()),
        },
{
    if c == 45 {
        Ok(62)
    } else if c == 95 {
        Ok(63)
    } else if 48 <= c && c <= 57 {
        Ok((c - 48) + 52)
    } else if 65 <= c && c <= 90 {
        Ok(c - 65)
    } else if 97 <= c && c <= 122 {
        Ok((c - 97) + 26)
    } else {
        Err(())
    }
}

/// The three bytes four base64 characters stand for, when all four are
/// in the alphabet.
pub open spec fn spec_decode4(c1: u8, c2: u8, c3: u8, c4: u8) -> Option<Seq<u8>> {
    match (
        spec_decode_char(c1),
        spec_decode_char(c2),
        spec_decode_char(c3),
        spec_decode_char(c4),
    ) {
        (Some(v1), Some(v2), Some(v3), Some(v4)) => {
            let n = ((v1 as u32) << 18) | ((v2 as u32) << 12) | ((v3 as u32) << 6) | (v4 as u32);
            Some(seq![((n >> 16) & 0xff) as u8, ((n >> 8) & 0xff) as u8, (n & 0xff) as u8])
        },
        _ => None,
    }
}

/// The 12 bytes a 16-character tag body stands for.
pub open spec fn spec_decode_base64(s: Seq<u8>) -> Option<Seq<u8>> {
    if s.len() != 16 {
        None
    } else {
        match (
            spec_decode4(s[0], s[1], s[2], s[3]),
            spec_decode4(s[4], s[5], s[6], s[7]),
            spec_decode4(s[8], s[9], s[10], s[11]),
            spec_decode4(s[12], s[13], s[14], s[15]),
        ) {
            (Some(a), Some(b), Some(c), Some(d)) => Some(a + b + c + d),
            _ => None,
        }
    }
}

fn decode4(c1: u8, c2: u8, c3: u8, c4: u8) -> (r: Result<(u8, u8, u8), ()>)
    ensures
        match spec_decode4(c1, c2, c3, c4) {
            Some(bs) => r matches Ok(t) && bs == seq![t.0, t.1, t.2],
            None => r is Err,
        },
{
    let v1 = match decode_char(c1) {
        Ok(v) => v,
        Err(()) => return Err(()),
    };
    let v2 = match decode_char(c2) {
        Ok(v) => v,
        Err(()) => return Err(()),
    };
    let v3 = match decode_char(c3) {
        Ok(v) => v,
        Err(()) => return Err(()),
    };
    let v4 = match decode_char(c4) {
        Ok(v) => v,
        Err(()) => return Err(()),
    };
    let n: u32 = ((v1 as u32) << 18u32) | ((v2 as u32) << 12u32) | ((v3 as u32) << 6u32) | (
    v4 as u32);
    let b0 = #[verifier::truncate] (((n >> 16u32) & 0xff) as u8);
    let b1 = #[verifier::truncate] (((n >> 8u32) & 0xff) as u8);
    let b2 = #[verifier::truncate] ((n & 0xff) as u8);
    Ok((b0, b1, b2))
}

impl Etag {
    /// Derives the tag of a file: the 12-byte digest of its canonical
    /// metadata bytes.
    pub fn from_metadata(metadata: &FileMetadata) -> (r: Etag)
        ensures
            r@ == blake2b12_of(canonical_bytes(*metadata)),
    {
        let bytes = metadata_bytes(metadata);
        let d = blake2b_12(bytes.as_slice());
        let tag = Etag(
            [
                d[0],
                d[1],
                d[2],
                d[3],
                d[4],
                d[5],
                d[6],
                d[7],
                d[8],
                d[9],
                d[10],
                d[11],
            ],
        );
        proof {
            assert(tag@ =~= blake2b12_of(canonical_bytes(*metadata)));
        }
        tag
    }

    /// Reads a tag back from its 16 base64 characters; anything of
    /// another length or outside the alphabet is refused.
    pub fn decode_base64(slice: &[u8]) -> (r: Result<Etag, ()>)
        ensures
            match spec_decode_base64(slice@) {
                Some(bs) => r matches Ok(t) && t@ == bs,
                None => r is Err,
            },
    {
        if slice.len() != 16 {
            return Err(());
        }
        let a = match decode4(slice[0], slice[1], slice[2], slice[3]) {
            Ok(t) => t,
            Err(()) => return Err(()),
        };
        let b = match decode4(slice[4], slice[5], slice[6], slice[7]) {
            Ok(t) => t,
            Err(()) => return Err(()),
        };
        let c = match decode4(slice[8], slice[9], slice[10], slice[11]) {
            Ok(t) => t,
            Err(()) => return Err(()),
        };
        let d = match decode4(slice[12], slice[13], slice[14], slice[15]) {
            Ok(t) => t,
            Err(()) => return Err(()),
        };
        let tag = Etag([a.0, a.1, a.2, b.0, b.1, b.2, c.0, c.1, c.2, d.0, d.1, d.2]);
        proof {
            assert(tag@ =~= spec_decode_base64(slice@).unwrap());
        }
        Ok(tag)
    }

    /// The tag as it goes on the wire: `W/"` + 16 characters + `"`.
    pub fn render(&self) -> (r: String)
        ensures
            r@ == bytes_as_chars(etag_rendered(self@)),
    {
        let mut out: Vec<u8> = Vec::new();
        out.push(87);
        out.push(47);
        out.push(34);
        push_b64_triple(self.0[0], self.0[1], self.0[2], &mut out);
        push_b64_triple(self.0[3], self.0[4], self.0[5], &mut out);
        push_b64_triple(self.0[6], self.0[7], self.0[8], &mut out);
        push_b64_triple(self.0[9], self.0[10], self.0[11], &mut out);
        out.push(34);
        proof {
            assert(out@ =~= etag_rendered(self@));
            assert forall|i: int| 0 <= i < out@.len() implies out@[i] < 128 by {
                let t = self@;
                assert(forall|v: u32| #[trigger] b64_char(v) < 128);
            }
        }
        ascii_to_string(out)
    }
}

/// Decoding an encoded tag gives the tag back: emission and
/// `If-None-Match` parsing speak of identical bytes.
pub proof fn lemma_etag_roundtrip(t: Seq<u8>)
    requires
        t.len() == 12,
    ensures
        spec_decode_base64(etag_encoded(t)) == Some(t),
{
    lemma_triple_roundtrip(t[0], t[1], t[2]);
    lemma_triple_roundtrip(t[3], t[4], t[5]);
    lemma_triple_roundtrip(t[6], t[7], t[8]);
    lemma_triple_roundtrip(t[9], t[10], t[11]);
    let e = etag_encoded(t);
    assert(e.len() == 16);
    let g1 = b64_triple(t[0], t[1], t[2]);
    let g2 = b64_triple(t[3], t[4], t[5]);
    let g3 = b64_triple(t[6], t[7], t[8]);
    let g4 = b64_triple(t[9], t[10], t[11]);
    assert(e[0] == g1[0] && e[1] == g1[1] && e[2] == g1[2] && e[3] == g1[3]);
    assert(e[4] == g2[0] && e[5] == g2[1] && e[6] == g2[2] && e[7] == g2[3]);
    assert(e[8] == g3[0] && e[9] == g3[1] && e[10] == g3[2] && e[11] == g3[3]);
    assert(e[12] == g4[0] && e[13] == g4[1] && e[14] == g4[2] && e[15] == g4[3]);
    assert(spec_decode_base64(e).unwrap() =~= t);
}

/// One group: the four characters of three bytes decode to those bytes.
proof fn lemma_triple_roundtrip(b0: u8, b1: u8, b2: u8)
    ensures
        ({
            let g = b64_triple(b0, b1, b2);
            spec_decode4(g[0], g[1], g[2], g[3]) == Some(seq![b0, b1, b2])
        }),
{
    let n = triple_val(b0, b1, b2);
    let v1 = (n >> 18) & 63;
    let v2 = (n >> 12) & 63;
    let v3 = (n >> 6) & 63;
    let v4 = n & 63;
    assert(v1 < 64 && v2 < 64 && v3 < 64 && v4 < 64) by (bit_vector)
        requires
            v1 == (n >> 18) & 63,
            v2 == (n >> 12) & 63,
            v3 == (n >> 6) & 63,
            v4 == n & 63,
    ;
    lemma_char_roundtrip(v1);
    lemma_char_roundtrip(v2);
    lemma_char_roundtrip(v3);
    lemma_char_roundtrip(v4);
    let m = ((v1 as u32) << 18) | ((v2 as u32) << 12) | ((v3 as u32) << 6) | (v4 as u32);
    assert(m == n && ((n >> 16) & 0xff) == b0 && ((n >> 8) & 0xff) == b1 && (n & 0xff) == b2) by (bit_vector)
        requires
            n == ((b0 as u32) << 16) | ((b1 as u32) << 8) | (b2 as u32),
            v1 == (n >> 18) & 63,
            v2 == (n >> 12) & 63,
            v3 == (n >> 6) & 63,
            v4 == n & 63,
            m == ((v1 as u32) << 18) | ((v2 as u32) << 12) | ((v3 as u32) << 6) | (v4 as u32),
    ;
    assert(spec_decode4(b64_char(v1), b64_char(v2), b64_char(v3), b64_char(v4)).unwrap() =~= seq![
        b0,
        b1,
        b2,
    ]);
}

/// Every 6-bit value comes back from its alphabet character.
proof fn lemma_char_roundtrip(v: u32)
    requires
        v < 64,
    ensures
        spec_decode_char(b64_char(v)) == Some(v as u8),
{
}

/// ETag determinism: equal metadata gives byte-equal canonical input,
/// an equal digest, and an identical rendered tag, in every process on
/// the host.
pub proof fn lemma_etag_deterministic(m1: FileMetadata, m2: FileMetadata)
    requires
        m1 == m2,
    ensures
        canonical_bytes(m1) == canonical_bytes(m2),
        blake2b12_of(canonical_bytes(m1)) == blake2b12_of(canonical_bytes(m2)),
        etag_rendered(blake2b12_of(canonical_bytes(m1))) == etag_rendered(
            blake2b12_of(canonical_bytes(m2)),
        ),
{
}

} // verus!
