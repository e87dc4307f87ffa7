//! Byte-level helpers for the header parsers and renderers: ASCII
//! whitespace trimming, case folding, decimal numbers, and conversion of
//! ASCII byte strings into `String` values for the emitted headers.
use vstd::prelude::*;

verus! {

/// ASCII whitespace, as the header grammar treats it.
pub open spec fn is_ascii_ws(b: u8) -> bool {
    b == 32 || b == 9 || b == 10 || b == 11 || b == 12 || b == 13
}

/// `s` with leading and trailing ASCII whitespace removed.
pub open spec fn spec_trim(s: Seq<u8>) -> Seq<u8>
    decreases s.len(),
{
    if s.len() == 0 {
        s
    } else if is_ascii_ws(s[0]) {
        spec_trim(s.skip(1))
    } else if is_ascii_ws(s[s.len() - 1]) {
        spec_trim(s.take(s.len() - 1))
    } else {
        s
    }
}

pub fn is_ws(b: u8) -> (r: bool)
    ensures
        r == is_ascii_ws(b),
{
    b == 32 || b == 9 || b == 10 || b == 11 || b == 12 || b == 13
}

/// Strips ASCII whitespace from both ends of a byte slice.
pub fn trim_bytes(s: &[u8]) -> (r: &[u8])
    ensures
        r@ == spec_trim(s@),
{
    let mut lo: usize = 0;
    let mut hi: usize = s.len();
    proof {
        assert(s@.subrange(0, s@.len() as int) == s@);
    }
    while lo < hi && is_ws(s[lo])
        invariant
            lo <= hi <= s.len(),
            spec_trim(s@) == spec_trim(s@.subrange(lo as int, hi as int)),
            hi == s.len(),
        decreases hi - lo,
    {
        proof {
            let sub = s@.subrange(lo as int, hi as int);
            assert(is_ascii_ws(sub[0]));
            assert(spec_trim(sub) == spec_trim(sub.skip(1)));
            assert(sub.skip(1) == s@.subrange(lo + 1, hi as int));
        }
        lo = lo + 1;
    }
    while lo < hi && is_ws(s[hi - 1])
        invariant
            lo <= hi <= s.len(),
            spec_trim(s@) == spec_trim(s@.subrange(lo as int, hi as int)),
            lo == hi || !is_ascii_ws(s@[lo as int]),
        decreases hi - lo,
    {
        proof {
            let sub = s@.subrange(lo as int, hi as int);
            assert(!is_ascii_ws(sub[0]));
            assert(is_ascii_ws(sub[sub.len() - 1]));
            assert(spec_trim(sub) == spec_trim(sub.take(sub.len() - 1)));
            assert(sub.take(sub.len() - 1) == s@.subrange(lo as int, hi - 1));
        }
        hi = hi - 1;
    }
    proof {
        let sub = s@.subrange(lo as int, hi as int);
        if sub.len() > 0 {
            assert(!is_ascii_ws(sub[0]));
            assert(!is_ascii_ws(sub[sub.len() - 1]));
        }
        assert(spec_trim(sub) == sub);
    }
    &s[lo..hi]
}

pub open spec fn is_digit(b: u8) -> bool {
    48 <= b <= 57
}

/// Value of a decimal digit string, most significant digit first.
pub open spec fn digits_val(s: Seq<u8>) -> int
    decreases s.len(),
{
    if s.len() == 0 {
        0
    } else {
        digits_val(s.take(s.len() - 1)) * 10 + (s[s.len() - 1] - 48)
    }
}

pub open spec fn all_digits(s: Seq<u8>) -> bool {
    forall|i: int| 0 <= i < s.len() ==> is_digit(#[trigger] s[i])
}

/// An unsigned decimal number as `str::parse::<u64>` reads it: an
/// optional leading `+`, then at least one digit, and the value must fit.
pub open spec fn spec_parse_u64(s: Seq<u8>) -> Option<u64> {
    let t = if s.len() > 0 && s[0] == 43 {
        s.skip(1)
    } else {
        s
    };
    if t.len() > 0 && all_digits(t) && digits_val(t) <= u64::MAX {
        Some(digits_val(t) as u64)
    } else {
        None
    }
}

proof fn lemma_digits_val_nonneg(s: Seq<u8>)
    requires
        all_digits(s),
    ensures
        digits_val(s) >= 0,
    decreases s.len(),
{
    if s.len() > 0 {
        assert(all_digits(s.take(s.len() - 1)));
        lemma_digits_val_nonneg(s.take(s.len() - 1));
    }
}

proof fn lemma_digits_val_prefix_le(s: Seq<u8>, i: int)
    requires
        all_digits(s),
        0 <= i <= s.len(),
    ensures
        digits_val(s.take(i)) <= digits_val(s),
    decreases s.len() - i,
{
    if i < s.len() {
        lemma_digits_val_prefix_le(s, i + 1);
        let p = s.take(i + 1);
        assert(p.take(p.len() - 1) == s.take(i));
        assert(all_digits(s.take(i)));
        lemma_digits_val_nonneg(s.take(i));
        assert(digits_val(p) == digits_val(s.take(i)) * 10 + (s[i] - 48));
    } else {
        assert(s.take(i) == s);
    }
}

/// Parses an unsigned 64-bit decimal number; `None` on any malformed
/// input or overflow, exactly as `spec_parse_u64` says.
pub fn parse_u64(s: &[u8]) -> (r: Option<u64>)
    ensures
        r == spec_parse_u64(s@),
{
    let start: usize = if s.len() > 0 && s[0] == 43 {
        1
    } else {
        0
    };
    let ghost t = if s@.len() > 0 && s@[0] == 43 {
        s@.skip(1)
    } else {
        s@
    };
    proof {
        assert(t == s@.subrange(start as int, s@.len() as int));
    }
    if start == s.len() {
        return None;
    }
    let mut acc: u64 = 0;
    let mut i: usize = start;
    while i < s.len()
        invariant
            start <= i <= s.len(),
            start < s@.len(),
            t == s@.subrange(start as int, s@.len() as int),
            t == (if s@.len() > 0 && s@[0] == 43 {
                s@.skip(1)
            } else {
                s@
            }),
            all_digits(t.take(i - start)),
            acc == digits_val(t.take(i - start)),
        decreases s.len() - i,
    {
        let b = s[i];
        if !(48 <= b && b <= 57) {
            proof {
                assert(t[i - start] == b);
                assert(!is_digit(t[i - start]));
                assert(!all_digits(t));
            }
            return None;
        }
        let d: u64 = (b - 48) as u64;
        if acc > (u64::MAX - d) / 10 {
            proof {
                let p = t.take(i - start + 1);
                assert(p.take(p.len() - 1) == t.take(i - start));
                assert(p[p.len() - 1] == b);
                assert(digits_val(p) == acc * 10 + d);
                let md = (u64::MAX - d) as int;
                vstd::arithmetic::div_mod::lemma_fundamental_div_mod(md, 10);
                vstd::arithmetic::div_mod::lemma_mod_bound(md, 10);
                assert(10 * acc >= 10 * (md / 10) + 10);
                assert(digits_val(p) > u64::MAX);
                if all_digits(t) && digits_val(t) <= u64::MAX {
                    lemma_digits_val_prefix_le(t, i - start + 1);
                    assert(false);
                }
            }
            return None;
        }
        proof {
            let p = t.take(i - start + 1);
            assert(p.take(p.len() - 1) == t.take(i - start));
            assert(p[p.len() - 1] == b);
            assert(all_digits(p));
        }
        acc = acc * 10 + d;
        i = i + 1;
    }
    proof {
        assert(t.take(i - start) == t);
    }
    Some(acc)
}

/// The decimal digit string of a non-negative number.
pub open spec fn spec_dec(n: nat) -> Seq<u8>
    decreases n,
{
    if n <= 9 {
        seq![(48 + n) as u8]
    } else {
        spec_dec(n / 10).push((48 + n % 10) as u8)
    }
}

/// Appends the decimal rendering of `n` to `out`.
pub fn push_dec(n: u64, out: &mut Vec<u8>)
    ensures
        final(out)@ == old(out)@ + spec_dec(n as nat),
    decreases n,
{
    if n <= 9 {
        out.push((48 + n) as u8);
        proof {
            assert(out@ == old(out)@ + spec_dec(n as nat));
        }
    } else {
        push_dec(n / 10, out);
        out.push((48 + (n % 10)) as u8);
        proof {
            assert(out@ == old(out)@ + spec_dec(n as nat));
        }
    }
}

/// The decimal digits of `n`, most significant first.
pub fn u64_to_dec(n: u64) -> (r: Vec<u8>)
    ensures
        r@ == spec_dec(n as nat),
{
    let mut out: Vec<u8> = Vec::new();
    push_dec(n, &mut out);
    proof {
        assert(out@ == spec_dec(n as nat));
    }
    out
}

/// Rendering a number and parsing it back gives the number again; the
/// rendering consists of digits only.
pub proof fn lemma_dec_parse(n: nat)
    requires
        n <= u64::MAX,
    ensures
        all_digits(spec_dec(n)),
        spec_dec(n).len() >= 1,
        digits_val(spec_dec(n)) == n,
        spec_parse_u64(spec_dec(n)) == Some(n as u64),
    decreases n,
{
    if n <= 9 {
        let s = spec_dec(n);
        assert(s == seq![(48 + n) as u8]);
        assert(s.take(s.len() - 1) =~= Seq::<u8>::empty());
        assert(digits_val(s) == digits_val(s.take(s.len() - 1)) * 10 + (s[0] - 48));
        assert(digits_val(s) == n);
    } else {
        lemma_dec_parse(n / 10);
        let s = spec_dec(n);
        let p = spec_dec(n / 10);
        assert(s == p.push((48 + n % 10) as u8));
        assert(s.take(s.len() - 1) =~= p);
        assert(digits_val(s) == digits_val(p) * 10 + (n % 10));
        vstd::arithmetic::div_mod::lemma_fundamental_div_mod(n as int, 10);
        assert(digits_val(s) == n);
        assert(all_digits(s));
    }
    let s = spec_dec(n);
    assert(is_digit(s[0]));
    assert(s[0] != 43);
}

/// ASCII lower-casing of one byte.
pub open spec fn spec_lower(b: u8) -> u8 {
    if 65 <= b <= 90 {
        (b + 32) as u8
    } else {
        b
    }
}

pub open spec fn lower_seq(s: Seq<u8>) -> Seq<u8> {
    s.map_values(|b: u8| spec_lower(b))
}

/// The characters with the same code points as the given bytes.
pub open spec fn bytes_as_chars(s: Seq<u8>) -> Seq<char> {
    s.map_values(|b: u8| b as char)
}

/// Relies on `String::from_utf8`: a byte string of ASCII values decodes
/// to the string whose chars have the same code points.
#[verifier::external_body]
pub fn ascii_to_string(bytes: Vec<u8>) -> (r: String)
    requires
        forall|i: int| 0 <= i < bytes@.len() ==> bytes@[i] < 128,
    ensures
        r@ == bytes_as_chars(bytes@),
{
    match String::from_utf8(bytes) {
        Ok(s) => s,
        Err(_) => String::new(),
    }
}

/// Index of the first occurrence of `b` in `s` at or after `from`;
/// `s.len()` when there is none.
pub fn find_byte(s: &[u8], from: usize, b: u8) -> (idx: usize)
    requires
        from <= s@.len(),
    ensures
        from <= idx <= s@.len(),
        forall|j: int| from <= j < idx ==> s@[j] != b,
        idx < s@.len() ==> s@[idx as int] == b,
{
    let mut i: usize = from;
    while i < s.len()
        invariant
            from <= i <= s.len(),
            forall|j: int| from <= j < i ==> s@[j] != b,
        decreases s.len() - i,
    {
        if s[i] == b {
            return i;
        }
        i = i + 1;
    }
    i
}

} // verus!


verus! {

/// ASCII lower-casing of one byte, executable.
pub fn lower_byte(b: u8) -> (r: u8)
    ensures
        r == spec_lower(b),
{
    if 65 <= b && b <= 90 {
        b + 32
    } else {
        b
    }
}

} // verus!
