//! The request side: the parsed request context, built from the method
//! and headers, and the decisions of the filesystem probe — which paths
//! to try, in which order, and what outcome an opened file gives.
use crate::accept_encoding::AcceptEncoding;
use crate::accept_encoding::AcceptEncodingParser;
use crate::accept_encoding::Encoding;
use crate::accept_encoding::Iter;
use crate::accept_encoding::spec_done_of;
use crate::accept_encoding::spec_header_pushes;
use crate::accept_encoding::spec_suffix;
use crate::accept_encoding::spec_yield;
use crate::ascii::lower_byte;
use crate::ascii::lower_seq;
use crate::ascii::spec_lower;
use crate::conditionals::ModifiedParser;
use crate::conditionals::NoneMatchParser;
use crate::conditionals::http_date_of;
use crate::conditionals::spec_none_match_tags;
use crate::conditionals::tag_views;
use crate::config::Config;
use crate::config::EncodingSupport;
use crate::config::index_files_of;
use crate::etag::Etag;
use crate::metadata::FileMetadata;
use crate::metadata::Timestamp;
use crate::range::Range;
use crate::range::RangeParser;
use crate::range::Slice;
use crate::range::slice_valid;
use crate::range::spec_parse_header;
use std::sync::Arc;
use vstd::prelude::*;
use vstd::string::StringSliceAdditionalSpecFns;

verus! {

/// The kind of request: the two supported methods, or one of the two
/// invalid shapes that short-circuit to an error response.
#[derive(Debug, Clone, Copy, PartialEq, Eq, Structural)]
pub enum Mode {
    Head,
    Get,
    InvalidMethod,
    InvalidRange,
}

/// The lower-case bytes of the `accept-encoding` header name.
pub open spec fn name_accept_encoding() -> Seq<u8> {
    seq![97u8, 99u8, 99u8, 101u8, 112u8, 116u8, 45u8, 101u8, 110u8, 99u8, 111u8, 100u8, 105u8, 110u8, 103u8]
}

fn key_is_accept_encoding(k: &[u8]) -> (r: bool)
    ensures
        r == (lower_seq(k@) == name_accept_encoding()),
{
    let r = k.len() == 15 && lower_byte(k[0]) == 97 && lower_byte(k[1]) == 99 && lower_byte(k[2]) == 99 && lower_byte(k[3]) == 101 && lower_byte(k[4]) == 112 && lower_byte(k[5]) == 116 && lower_byte(k[6]) == 45 && lower_byte(k[7]) == 101 && lower_byte(k[8]) == 110 && lower_byte(k[9]) == 99 && lower_byte(k[10]) == 111 && lower_byte(k[11]) == 100 && lower_byte(k[12]) == 105 && lower_byte(k[13]) == 110 && lower_byte(k[14]) == 103;
    proof {
        if r {
            assert(lower_seq(k@) =~= name_accept_encoding());
        }
        if lower_seq(k@) == name_accept_encoding() {
            assert(k@.len() == 15) by {
                assert(lower_seq(k@).len() == k@.len());
            }
            assert(forall|i: int| 0 <= i < 15 ==> lower_seq(k@)[i] == spec_lower(k@[i]));
        }
    }
    r
}

/// The lower-case bytes of the `range` header name.
pub open spec fn name_range() -> Seq<u8> {
    seq![114u8, 97u8, 110u8, 103u8, 101u8]
}

fn key_is_range(k: &[u8]) -> (r: bool)
    ensures
        r == (lower_seq(k@) == name_range()),
{
    let r = k.len() == 5 && lower_byte(k[0]) == 114 && lower_byte(k[1]) == 97 && lower_byte(k[2]) == 110 && lower_byte(k[3]) == 103 && lower_byte(k[4]) == 101;
    proof {
        if r {
            assert(lower_seq(k@) =~= name_range());
        }
        if lower_seq(k@) == name_range() {
            assert(k@.len() == 5) by {
                assert(lower_seq(k@).len() == k@.len());
            }
            assert(forall|i: int| 0 <= i < 5 ==> lower_seq(k@)[i] == spec_lower(k@[i]));
        }
    }
    r
}

/// The lower-case bytes of the `if-modified-since` header name.
pub open spec fn name_if_modified_since() -> Seq<u8> {
    seq![105u8, 102u8, 45u8, 109u8, 111u8, 100u8, 105u8, 102u8, 105u8, 101u8, 100u8, 45u8, 115u8, 105u8, 110u8, 99u8, 101u8]
}

fn key_is_if_modified_since(k: &[u8]) -> (r: bool)
    ensures
        r == (lower_seq(k@) == name_if_modified_since()),
{
    let r = k.len() == 17 && lower_byte(k[0]) == 105 && lower_byte(k[1]) == 102 && lower_byte(k[2]) == 45 && lower_byte(k[3]) == 109 && lower_byte(k[4]) == 111 && lower_byte(k[5]) == 100 && lower_byte(k[6]) == 105 && lower_byte(k[7]) == 102 && lower_byte(k[8]) == 105 && lower_byte(k[9]) == 101 && lower_byte(k[10]) == 100 && lower_byte(k[11]) == 45 && lower_byte(k[12]) == 115 && lower_byte(k[13]) == 105 && lower_byte(k[14]) == 110 && lower_byte(k[15]) == 99 && lower_byte(k[16]) == 101;
    proof {
        if r {
            assert(lower_seq(k@) =~= name_if_modified_since());
        }
        if lower_seq(k@) == name_if_modified_since() {
            assert(k@.len() == 17) by {
                assert(lower_seq(k@).len() == k@.len());
            }
            assert(forall|i: int| 0 <= i < 17 ==> lower_seq(k@)[i] == spec_lower(k@[i]));
        }
    }
    r
}

/// The lower-case bytes of the `if-none-match` header name.
pub open spec fn name_if_none_match() -> Seq<u8> {
    seq![105u8, 102u8, 45u8, 110u8, 111u8, 110u8, 101u8, 45u8, 109u8, 97u8, 116u8, 99u8, 104u8]
}

fn key_is_if_none_match(k: &[u8]) -> (r: bool)
    ensures
        r == (lower_seq(k@) == name_if_none_match()),
{
    let r = k.len() == 13 && lower_byte(k[0]) == 105 && lower_byte(k[1]) == 102 && lower_byte(k[2]) == 45 && lower_byte(k[3]) == 110 && lower_byte(k[4]) == 111 && lower_byte(k[5]) == 110 && lower_byte(k[6]) == 101 && lower_byte(k[7]) == 45 && lower_byte(k[8]) == 109 && lower_byte(k[9]) == 97 && lower_byte(k[10]) == 116 && lower_byte(k[11]) == 99 && lower_byte(k[12]) == 104;
    proof {
        if r {
            assert(lower_seq(k@) =~= name_if_none_match());
        }
        if lower_seq(k@) == name_if_none_match() {
            assert(k@.len() == 13) by {
                assert(lower_seq(k@).len() == k@.len());
            }
            assert(forall|i: int| 0 <= i < 13 ==> lower_seq(k@)[i] == spec_lower(k@[i]));
        }
    }
    r
}

/// The bytes `text/`.
pub open spec fn text_prefix() -> Seq<u8> {
    seq![116u8, 101u8, 120u8, 116u8, 47u8]
}

/// The bytes `application/javascript`.
pub open spec fn app_js() -> Seq<u8> {
    seq![97u8, 112u8, 112u8, 108u8, 105u8, 99u8, 97u8, 116u8, 105u8, 111u8, 110u8, 47u8, 106u8, 97u8, 118u8, 97u8, 115u8, 99u8, 114u8, 105u8, 112u8, 116u8]
}

/// The bytes `HEAD`.
pub open spec fn head_bytes() -> Seq<u8> {
    seq![72u8, 69u8, 65u8, 68u8]
}

/// The bytes `GET`.
pub open spec fn get_bytes() -> Seq<u8> {
    seq![71u8, 69u8, 84u8]
}


/// The mode a method name selects.
pub open spec fn spec_method_mode(mb: Seq<u8>) -> Mode {
    if mb == head_bytes() {
        Mode::Head
    } else if mb == get_bytes() {
        Mode::Get
    } else {
        Mode::InvalidMethod
    }
}

/// A text mime type: `text/*` or `application/javascript`.
pub open spec fn spec_is_text_mime(b: Seq<u8>) -> bool {
    (b.len() >= 5 && b.subrange(0, 5) == text_prefix()) || b == app_js()
}

/// Whether a mime type gets a charset and pre-compressed text variants.
pub fn is_text_file(val: &str) -> (r: bool)
    ensures
        r == spec_is_text_mime(val.spec_bytes()),
{
    let b = val.as_bytes();
    let prefix = b.len() >= 5 && b[0] == 116 && b[1] == 101 && b[2] == 120 && b[3] == 116 && b[4]
        == 47;
    proof {
        if prefix {
            assert(b@.subrange(0, 5) =~= text_prefix());
        } else if b@.len() >= 5 && b@.subrange(0, 5) == text_prefix() {
            assert(b@[0] == 116 && b@[1] == 101 && b@[2] == 120 && b@[3] == 116 && b@[4] == 47);
        }
    }
    if prefix {
        return true;
    }
    let r = (b.len() == 22 && b[0] == 97 && b[1] == 112 && b[2] == 112 && b[3] == 108 && b[4] == 105 && b[5] == 99 && b[6] == 97 && b[7] == 116 && b[8] == 105 && b[9] == 111 && b[10] == 110 && b[11] == 47 && b[12] == 106 && b[13] == 97 && b[14] == 118 && b[15] == 97 && b[16] == 115 && b[17] == 99 && b[18] == 114 && b[19] == 105 && b[20] == 112 && b[21] == 116);
    proof {
        if r {
            assert(b@ =~= app_js());
        }
        if b@ == app_js() {
            assert(forall|i: int| 0 <= i < 22 ==> b@[i] == app_js()[i]);
        }
    }
    r
}

/// Index of the last occurrence of `b` in `s`, or -1.
pub open spec fn spec_rfind(s: Seq<u8>, b: u8) -> int
    decreases s.len(),
{
    if s.len() == 0 {
        -1
    } else if s[s.len() - 1] == b {
        s.len() - 1
    } else {
        spec_rfind(s.take(s.len() - 1), b)
    }
}

pub proof fn lemma_spec_rfind(s: Seq<u8>, b: u8)
    ensures
        -1 <= spec_rfind(s, b) < s.len(),
        spec_rfind(s, b) >= 0 ==> s[spec_rfind(s, b)] == b,
        forall|j: int| spec_rfind(s, b) < j < s.len() ==> s[j] != b,
    decreases s.len(),
{
    if s.len() > 0 && s[s.len() - 1] != b {
        lemma_spec_rfind(s.take(s.len() - 1), b);
        assert(forall|j: int| 0 <= j < s.len() - 1 ==> s[j] == s.take(s.len() - 1)[j]);
    }
}

/// Finds the last occurrence of `b` in `s`.
fn rfind_byte(s: &[u8], b: u8) -> (r: Option<usize>)
    ensures
        match r {
            Some(k) => k == spec_rfind(s@, b),
            None => spec_rfind(s@, b) == -1,
        },
{
    proof {
        lemma_spec_rfind(s@, b);
    }
    let mut i: usize = s.len();
    while i > 0
        invariant
            i <= s@.len(),
            forall|j: int| i <= j < s@.len() ==> s@[j] != b,
        decreases i,
    {
        i = i - 1;
        if s[i] == b {
            proof {
                lemma_spec_rfind(s@, b);
                if i as int != spec_rfind(s@, b) {
                    if (i as int) < spec_rfind(s@, b) {
                        assert(s@[spec_rfind(s@, b)] != b);
                    } else {
                        assert(s@[i as int] != b);
                    }
                    assert(false);
                }
            }
            return Some(i);
        }
    }
    proof {
        if spec_rfind(s@, b) >= 0 {
            assert(s@[spec_rfind(s@, b)] != b);
            assert(false);
        }
    }
    None
}

/// The extension of a path's final component: what follows its last
/// dot, unless the component has no dot or starts with its only one.
pub open spec fn spec_ext_of(p: Seq<u8>) -> Option<Seq<u8>> {
    let name = p.skip(spec_rfind(p, 47) + 1);
    let d = spec_rfind(name, 46);
    if d <= 0 {
        None
    } else {
        Some(name.skip(d + 1))
    }
}

/// What a file extension's mime lookup returns: a name for
/// `mime_guess::from_ext(..).first_raw()`, a fixed table lookup that
/// depends on the extension alone.
pub uninterp spec fn mime_of(ext: Seq<u8>) -> Option<Seq<char>>;

/// Relies on `mime_guess::from_ext` and `MimeGuess::first_raw`: the
/// best-known mime type of an extension, from a fixed table, `None` for
/// an empty or unknown extension.
#[verifier::external_body]
fn mime_lookup(ext: &[u8]) -> (r: Option<&'static str>)
    ensures
        match r {
            Some(s) => mime_of(ext@) == Some(s@),
            None => mime_of(ext@) is None,
        },
{
    match core::str::from_utf8(ext) {
        Ok(e) => mime_guess::from_ext(e).first_raw(),
        Err(_) => None,
    }
}

/// The content type a path is served with.
pub open spec fn spec_ctype(pb: Seq<u8>) -> Seq<char> {
    match spec_ext_of(pb) {
        Some(e) => match mime_of(e) {
            Some(m) => m,
            None => "application/octet-stream"@,
        },
        None => "application/octet-stream"@,
    }
}

/// Determines the `Content-Type` for a path from its extension;
/// unknown extensions fall back to `application/octet-stream`.
pub fn content_type_for(path: &str) -> (r: &'static str)
    ensures
        r@ == spec_ctype(path.spec_bytes()),
{
    let pb = path.as_bytes();
    proof {
        lemma_spec_rfind(pb@, 47);
    }
    let name: &[u8] = match rfind_byte(pb, 47) {
        Some(k) => {
            let n = pb.len();
            proof {
                lemma_spec_rfind(pb@, 47);
                assert(k < n);
            }
            &pb[k + 1..n]
        },
        None => pb,
    };
    proof {
        assert(name@ == pb@.skip(spec_rfind(pb@, 47) + 1));
        lemma_spec_rfind(name@, 46);
    }
    let ext: Option<&[u8]> = match rfind_byte(name, 46) {
        Some(d) => if d == 0 {
            None
        } else {
            let n = name.len();
            proof {
                lemma_spec_rfind(name@, 46);
                assert(d < n);
            }
            Some(&name[d + 1..n])
        },
        None => None,
    };
    match ext {
        Some(e) => {
            proof {
                assert(e@ == name@.skip(spec_rfind(name@, 46) + 1));
            }
            match mime_lookup(e) {
                Some(m) => m,
                None => "application/octet-stream",
            }
        },
        None => "application/octet-stream",
    }
}

} // verus!

verus! {

/// The keys (utf-8 bytes) and values of a header list.
pub open spec fn hdr_views(hs: Seq<(String, Vec<u8>)>) -> Seq<(Seq<u8>, Seq<u8>)> {
    hs.map_values(|p: (String, Vec<u8>)| (vstd::utf8::encode_utf8(p.0@), p.1@))
}

/// The accepted `(encoding, q)` pairs all `Accept-Encoding` lines of a
/// request contribute, in order.
pub open spec fn spec_ae_buf(hs: Seq<(Seq<u8>, Seq<u8>)>) -> Seq<(Encoding, u16)>
    decreases hs.len(),
{
    if hs.len() == 0 {
        Seq::<(Encoding, u16)>::empty()
    } else {
        spec_ae_buf(hs.drop_last()) + (if lower_seq(hs.last().0) == name_accept_encoding() {
            spec_header_pushes(hs.last().1)
        } else {
            Seq::<(Encoding, u16)>::empty()
        })
    }
}

/// What the `Range` lines of a request amount to: none, one parsed
/// range, or an error (unparseable or duplicate).
pub open spec fn spec_range_result(hs: Seq<(Seq<u8>, Seq<u8>)>) -> Result<Option<Range>, ()>
    decreases hs.len(),
{
    if hs.len() == 0 {
        Ok(None)
    } else {
        let prev = spec_range_result(hs.drop_last());
        if lower_seq(hs.last().0) == name_range() {
            match prev {
                Err(()) => Err(()),
                Ok(Some(_)) => Err(()),
                Ok(None) => match spec_parse_header(hs.last().1) {
                    Some(rg) => Ok(Some(rg)),
                    None => Err(()),
                },
            }
        } else {
            prev
        }
    }
}

/// What the `If-Modified-Since` lines amount to.
pub open spec fn spec_ims_result(hs: Seq<(Seq<u8>, Seq<u8>)>) -> Result<Option<Timestamp>, ()>
    decreases hs.len(),
{
    if hs.len() == 0 {
        Ok(None)
    } else {
        let prev = spec_ims_result(hs.drop_last());
        if lower_seq(hs.last().0) == name_if_modified_since() {
            match prev {
                Err(()) => Err(()),
                Ok(Some(_)) => Err(()),
                Ok(None) => match http_date_of(hs.last().1) {
                    Some(secs) => Ok(Some(Timestamp { secs, nanos: 0 })),
                    None => Err(()),
                },
            }
        } else {
            prev
        }
    }
}

/// The weak tags all `If-None-Match` lines carry, in order.
pub open spec fn spec_inm_tags(hs: Seq<(Seq<u8>, Seq<u8>)>) -> Seq<Seq<u8>>
    decreases hs.len(),
{
    if hs.len() == 0 {
        Seq::<Seq<u8>>::empty()
    } else {
        spec_inm_tags(hs.drop_last()) + (if lower_seq(hs.last().0) == name_if_none_match() {
            spec_none_match_tags(hs.last().1)
        } else {
            Seq::<Seq<u8>>::empty()
        })
    }
}

proof fn lemma_range_result_valid(hs: Seq<(Seq<u8>, Seq<u8>)>)
    ensures
        spec_range_result(hs) matches Ok(Some(Range::SingleRangeOfBytes(sl))) ==> slice_valid(
            sl,
        ),
    decreases hs.len(),
{
    if hs.len() > 0 {
        lemma_range_result_valid(hs.drop_last());
        crate::range::lemma_parse_header_valid(hs.last().1);
    }
}

/// Two parse states agree: both failed, or both hold the same value.
pub open spec fn same_state<T>(a: Result<Option<T>, ()>, b: Result<Option<T>, ()>) -> bool {
    match (a, b) {
        (Err(()), Err(())) => true,
        (Ok(x), Ok(y)) => x == y,
        _ => false,
    }
}

/// The structure represents parsed input headers.
///
/// Create it with `Input::from_headers`; the host then drives the
/// filesystem probe with the decision methods below.
#[derive(Debug, Clone)]
pub struct Input {
    pub config: Arc<Config>,
    pub mode: Mode,
    pub accept_encoding: AcceptEncoding,
    pub range: Option<Range>,
    pub if_range: Option<Result<Timestamp, Etag>>,
    pub if_match: Vec<Etag>,
    pub if_none: Vec<Etag>,
    pub if_unmodified: Option<Timestamp>,
    pub if_modified: Option<Timestamp>,
}

/// The fields of a request that short-circuits before header parsing:
/// identity preference and no conditions.
pub open spec fn spec_blank(r: Input) -> bool {
    &&& r.accept_encoding.ordered@ == seq![
        Encoding::Identity,
        Encoding::Identity,
        Encoding::Identity,
    ]
    &&& r.range is None
    &&& r.if_none@.len() == 0
    &&& r.if_modified is None
}

impl Input {
    /// Every parsed request satisfies this: the preference slots are
    /// filled and an explicit range runs forward.
    pub open spec fn wf(&self) -> bool {
        &&& self.accept_encoding.wf()
        &&& (match self.range {
            Some(Range::SingleRangeOfBytes(sl)) => slice_valid(sl),
            None => true,
        })
    }

    /// A constructor for an `Input` object: reads the method and the
    /// request headers (names matched ASCII case-insensitively) into a
    /// request context.
    pub fn from_headers(cfg: &Arc<Config>, method: &str, headers: &Vec<(String, Vec<u8>)>) -> (r:
        Input)
        ensures
            r.wf(),
            r.config == *cfg,
            r.if_range is None,
            r.if_match@.len() == 0,
            r.if_unmodified is None,
            ({
                let hv = hdr_views(headers@);
                let mm = spec_method_mode(method.spec_bytes());
                let ae_on = cfg.encoding_support != EncodingSupport::Never;
                if mm == Mode::InvalidMethod {
                    r.mode == Mode::InvalidMethod && spec_blank(r)
                } else {
                    match spec_range_result(hv) {
                        Err(()) => r.mode == Mode::InvalidRange && spec_blank(r),
                        Ok(rng) => {
                            &&& r.mode == mm
                            &&& r.range == rng
                            &&& r.accept_encoding.ordered@ == spec_done_of(
                                if ae_on {
                                    spec_ae_buf(hv)
                                } else {
                                    Seq::<(Encoding, u16)>::empty()
                                },
                            )
                            &&& tag_views(r.if_none@) == (if cfg.etag {
                                spec_inm_tags(hv)
                            } else {
                                Seq::<Seq<u8>>::empty()
                            })
                            &&& r.if_modified == (if cfg.last_modified {
                                match spec_ims_result(hv) {
                                    Ok(o) => o,
                                    Err(()) => None::<Timestamp>,
                                }
                            } else {
                                None::<Timestamp>
                            })
                        },
                    }
                }
            }),
    {
        let mb = method.as_bytes();
        let is_head = mb.len() == 4 && mb[0] == 72 && mb[1] == 69 && mb[2] == 65 && mb[3] == 68;
        let is_get = mb.len() == 3 && mb[0] == 71 && mb[1] == 69 && mb[2] == 84;
        proof {
            if is_head {
                assert(mb@ =~= head_bytes());
            }
            if is_get {
                assert(mb@ =~= get_bytes());
            }
            if mb@ == head_bytes() {
                assert(mb@.len() == 4 && mb@[0] == 72 && mb@[1] == 69 && mb@[2] == 65 && mb@[3]
                    == 68);
            }
            if mb@ == get_bytes() {
                assert(mb@.len() == 3 && mb@[0] == 71 && mb@[1] == 69 && mb@[2] == 84);
            }
        }
        if !is_head && !is_get {
            let r = Input {
                config: crate::config::clone_config(cfg),
                mode: Mode::InvalidMethod,
                accept_encoding: AcceptEncoding::identity(),
                range: None,
                if_range: None,
                if_match: Vec::new(),
                if_none: Vec::new(),
                if_unmodified: None,
                if_modified: None,
            };
            return r;
        }
        let ae_on = match cfg.encoding_support {
            EncodingSupport::Never => false,
            _ => true,
        };
        let lm_on = cfg.last_modified;
        let et_on = cfg.etag;
        let ghost hv = hdr_views(headers@);
        let mut ae_parser = AcceptEncodingParser::new();
        let mut range_parser = RangeParser::new();
        let mut modified_parser = ModifiedParser::new();
        let mut none_match_parser = NoneMatchParser::new();
        let mut i: usize = 0;
        proof {
            assert(hv.take(0) =~= Seq::<(Seq<u8>, Seq<u8>)>::empty());
            assert(tag_views(none_match_parser.etags@) =~= Seq::<Seq<u8>>::empty());
        }
        while i < headers.len()
            invariant
                i <= headers@.len(),
                hv == hdr_views(headers@),
                hv.len() == headers@.len(),
                ae_parser.buf@ == (if ae_on {
                    spec_ae_buf(hv.take(i as int))
                } else {
                    Seq::<(Encoding, u16)>::empty()
                }),
                same_state(range_parser.result, spec_range_result(hv.take(i as int))),
                same_state(
                    modified_parser.result,
                    (if lm_on {
                        spec_ims_result(hv.take(i as int))
                    } else {
                        Ok::<Option<Timestamp>, ()>(None::<Timestamp>)
                    }),
                ),
                tag_views(none_match_parser.etags@) == (if et_on {
                    spec_inm_tags(hv.take(i as int))
                } else {
                    Seq::<Seq<u8>>::empty()
                }),
            decreases headers@.len() - i,
        {
            let key = headers[i].0.as_str().as_bytes();
            let val = headers[i].1.as_slice();
            proof {
                assert(hv[i as int] == (
                    vstd::utf8::encode_utf8(headers@[i as int].0@),
                    headers@[i as int].1@,
                ));
                assert(key@ == hv[i as int].0);
                assert(val@ == hv[i as int].1);
                assert(hv.take(i + 1).drop_last() =~= hv.take(i as int));
                assert(hv.take(i + 1).last() == hv[i as int]);
            }
            if ae_on && key_is_accept_encoding(key) {
                ae_parser.add_header(val);
            } else if key_is_range(key) {
                range_parser.add_header(val);
            } else if lm_on && key_is_if_modified_since(key) {
                modified_parser.add_header(val);
            } else if et_on && key_is_if_none_match(key) {
                none_match_parser.add_header(val);
            }
            proof {
                if ae_on && lower_seq(hv[i as int].0) != name_accept_encoding() {
                    assert(ae_parser.buf@ + Seq::<(Encoding, u16)>::empty() =~= ae_parser.buf@);
                }
                if et_on && lower_seq(hv[i as int].0) != name_if_none_match() {
                    assert(tag_views(none_match_parser.etags@) + Seq::<Seq<u8>>::empty()
                        =~= tag_views(none_match_parser.etags@));
                }
            }
            i = i + 1;
        }
        proof {
            assert(hv.take(i as int) =~= hv);
        }
        let range = match range_parser.done() {
            Ok(range) => range,
            Err(()) => {
                let r = Input {
                    config: crate::config::clone_config(cfg),
                    mode: Mode::InvalidRange,
                    accept_encoding: AcceptEncoding::identity(),
                    range: None,
                    if_range: None,
                    if_match: Vec::new(),
                    if_none: Vec::new(),
                    if_unmodified: None,
                    if_modified: None,
                };
                return r;
            },
        };
        proof {
            lemma_range_result_valid(hv);
        }
        Input {
            config: crate::config::clone_config(cfg),
            mode: if is_head {
                Mode::Head
            } else {
                Mode::Get
            },
            accept_encoding: ae_parser.done(),
            range,
            if_range: None,
            if_match: Vec::new(),
            if_none: none_match_parser.done(),
            if_unmodified: None,
            if_modified: modified_parser.done(),
        }
    }

    /// Iterate over the encodings the user agent accepts, in preferred
    /// order; `Identity` is always reachable, exactly once.
    pub fn encodings(&self) -> (r: Iter)
        ensures
            r.items@ == spec_yield(self.accept_encoding.ordered@),
            r.pos == 0,
    {
        self.accept_encoding.iter()
    }
}

} // verus!

verus! {

/// Whether pre-compressed variants are probed for a mime type under an
/// encoding-support policy.
pub open spec fn spec_encoding_enabled(es: EncodingSupport, text: bool) -> bool {
    match es {
        EncodingSupport::Never => false,
        EncodingSupport::TextFiles => text,
        EncodingSupport::AllFiles => true,
    }
}

impl Input {
    /// The short-circuit outcome of an invalid request, if any; a real
    /// `HEAD` or `GET` goes on to the filesystem probe.
    pub fn mode_outcome(&self) -> (r: Option<crate::output::Output>)
        ensures
            self.mode == Mode::InvalidMethod ==> (r matches Some(o) && o is InvalidMethod),
            self.mode == Mode::InvalidRange ==> (r matches Some(o) && o is InvalidRange),
            (self.mode == Mode::Head || self.mode == Mode::Get) ==> r is None,
    {
        match self.mode {
            Mode::Head => None,
            Mode::Get => None,
            Mode::InvalidMethod => Some(crate::output::Output::InvalidMethod),
            Mode::InvalidRange => Some(crate::output::Output::InvalidRange),
        }
    }

    /// The paths at which a directory's index files would sit, in the
    /// configured probe order.
    pub fn index_candidates(&self, base: &str) -> (r: Vec<String>)
        ensures
            r@.len() == index_files_of(*self.config).len(),
            forall|i: int|
                0 <= i < r@.len() ==> (#[trigger] r@[i])@ == base@ + "/"@ + index_files_of(
                    *self.config,
                )[i],
    {
        let mut out: Vec<String> = Vec::new();
        let mut i: usize = 0;
        while i < self.config.index_files.len()
            invariant
                i <= self.config.index_files@.len(),
                out@.len() == i,
                forall|j: int|
                    0 <= j < i ==> (#[trigger] out@[j])@ == base@ + "/"@ + index_files_of(
                        *self.config,
                    )[j],
            decreases self.config.index_files@.len() - i,
        {
            let mut s = String::from_str(base);
            s.append("/");
            s.append(self.config.index_files[i].as_str());
            out.push(s);
            i = i + 1;
        }
        out
    }

    /// Whether pre-compressed sibling files are probed for this mime
    /// type under the configured policy.
    pub fn variants_enabled(&self, ctype: &str) -> (r: bool)
        ensures
            r == spec_encoding_enabled(
                self.config.encoding_support,
                spec_is_text_mime(ctype.spec_bytes()),
            ),
    {
        match self.config.encoding_support {
            EncodingSupport::Never => false,
            EncodingSupport::TextFiles => is_text_file(ctype),
            EncodingSupport::AllFiles => true,
        }
    }

    /// The file paths to try for one physical path, with the encoding
    /// each stands for: the encoded siblings in preference order when
    /// variants are enabled for this mime type, else the path itself.
    pub fn encoding_candidates(&self, path: &str, ctype: &'static str) -> (r: Vec<
        (String, Encoding),
    >)
        ensures
            ({
                let enabled = spec_encoding_enabled(
                    self.config.encoding_support,
                    spec_is_text_mime(ctype.spec_bytes()),
                );
                if enabled {
                    let ys = spec_yield(self.accept_encoding.ordered@);
                    r@.len() == ys.len() && (forall|i: int|
                        0 <= i < ys.len() ==> (#[trigger] r@[i]).1 == ys[i] && r@[i].0@ == path@
                            + spec_suffix(ys[i]))
                } else {
                    r@.len() == 1 && r@[0].1 == Encoding::Identity && r@[0].0@ == path@
                }
            }),
    {
        let enabled = self.variants_enabled(ctype);
        if !enabled {
            let mut out: Vec<(String, Encoding)> = Vec::new();
            out.push((String::from_str(path), Encoding::Identity));
            return out;
        }
        let mut it = self.encodings();
        let mut out: Vec<(String, Encoding)> = Vec::new();
        while it.pos < it.items.len()
            invariant
                it.items@ == spec_yield(self.accept_encoding.ordered@),
                it.pos <= it.items@.len(),
                out@.len() == it.pos,
                forall|j: int|
                    0 <= j < it.pos ==> (#[trigger] out@[j]).1 == it.items@[j] && out@[j].0@
                        == path@ + spec_suffix(it.items@[j]),
            decreases it.items@.len() - it.pos,
        {
            match it.next() {
                Some(enc) => {
                    let mut s = String::from_str(path);
                    s.append(enc.suffix());
                    out.push((s, enc));
                },
                None => {
                    proof {
                        assert(false);
                    }
                },
            }
        }
        out
    }

    /// The outcome once a candidate file is open and its metadata read.
    /// `Err` means the opened path turned out to be a directory and the
    /// probe must treat it as absent.  Otherwise: a 304 when the
    /// conditionals hit, a 416 when the range cannot be satisfied, and
    /// else the head — bare for `HEAD`, wrapped in a body reader owing
    /// exactly `content_length` bytes for `GET`.
    pub fn outcome_for_open(
        &self,
        enc: Encoding,
        metadata: &FileMetadata,
        ctype: &'static str,
    ) -> (r: Result<crate::output::Output, ()>)
        requires
            self.mode == Mode::Head || self.mode == Mode::Get,
            (match self.range {
                Some(Range::SingleRangeOfBytes(Slice::FromTo(s, e))) => s <= e,
                _ => true,
            }),
        ensures
            metadata.is_dir ==> r is Err,
            !metadata.is_dir ==> (r matches Ok(o) && {
                let mt = crate::output::spec_mod_time(self.config.last_modified, *metadata);
                let et = crate::output::spec_etag_bytes(self.config.etag, *metadata);
                let nm = crate::output::spec_not_modified(
                    tag_views(self.if_none@),
                    self.if_modified,
                    mt,
                    et,
                );
                &&& (nm ==> (o matches crate::output::Output::NotModified(h) && h.wf()
                    && crate::output::head_core(
                    h,
                    self,
                    enc,
                    0,
                    true,
                    mt,
                    et,
                    None::<crate::output::ContentRange>,
                )))
                &&& (!nm ==> (match crate::output::spec_resolve_range(self.range, metadata.len) {
                    None => o is InvalidRange,
                    Some((rng, clen)) => {
                        &&& (self.mode == Mode::Head ==> (
                        o matches crate::output::Output::FileHead(h) && h.wf()
                            && crate::output::head_core(
                            h,
                            self,
                            enc,
                            clen,
                            false,
                            mt,
                            et,
                            rng,
                        )))
                        &&& (self.mode == Mode::Get && rng is Some ==> (
                        o matches crate::output::Output::FileRange(fw) && fw.wf()
                            && crate::output::head_core(fw.head, self, enc, clen, false, mt, et, rng)
                            && fw.bytes_left == clen && fw.pos == rng.unwrap().start))
                        &&& (self.mode == Mode::Get && rng is None ==> (
                        o matches crate::output::Output::File(fw) && fw.wf()
                            && crate::output::head_core(fw.head, self, enc, clen, false, mt, et, rng)
                            && fw.bytes_left == clen && fw.pos == 0))
                    },
                }))
            }),
    {
        if metadata.is_dir {
            return Err(());
        }
        match crate::output::Head::from_meta(self, enc, metadata, ctype) {
            Err(output) => Ok(output),
            Ok(head) => {
                match self.mode {
                    Mode::Head => Ok(crate::output::Output::FileHead(head)),
                    Mode::Get => {
                        let partial = head.is_partial();
                        if partial {
                            Ok(
                                crate::output::Output::FileRange(
                                    crate::output::FileWrapper::new(head),
                                ),
                            )
                        } else {
                            Ok(crate::output::Output::File(crate::output::FileWrapper::new(head)))
                        }
                    },
                    Mode::InvalidMethod => vstd::pervasive::unreached(),
                    Mode::InvalidRange => vstd::pervasive::unreached(),
                }
            },
        }
    }
}

/// HEAD emits no body: two outcomes computed for the same request,
/// metadata and encoding — one under `HEAD`, one under `GET` — promise
/// the same `content_length`; the `HEAD` one merely carries no reader,
/// while the `GET` reader owes exactly that many bytes.
pub proof fn lemma_head_no_body(
    h: crate::output::Head,
    fw: crate::output::FileWrapper,
    inp_head: &Input,
    inp_get: &Input,
    enc: Encoding,
    clen: u64,
    mt: Option<Timestamp>,
    et: Option<Seq<u8>>,
    rng: Option<crate::output::ContentRange>,
)
    requires
        crate::output::head_core(h, inp_head, enc, clen, false, mt, et, rng),
        crate::output::head_core(fw.head, inp_get, enc, clen, false, mt, et, rng),
        fw.bytes_left == fw.head.content_length,
    ensures
        h.content_length == fw.head.content_length,
        fw.bytes_left == h.content_length,
{
}

} // verus!
