//! The response side: the outcome variants, the `Head` with its header
//! sequence, range resolution, and the body accounting that a chunked
//! reader follows.
use crate::accept_encoding::Encoding;
use crate::accept_encoding::spec_enc_name;
use crate::ascii::ascii_to_string;
use crate::ascii::bytes_as_chars;
use crate::ascii::is_digit;
use crate::ascii::lemma_dec_parse;
use crate::ascii::push_dec;
use crate::ascii::spec_dec;
use crate::config::Config;
use crate::config::charset_of;
use crate::conditionals::tag_views;
use crate::etag::Etag;
use crate::etag::blake2b12_of;
use crate::etag::canonical_bytes;
use crate::etag::etag_rendered;
use crate::input::Input;
use crate::input::is_text_file;
use crate::input::spec_is_text_mime;
use crate::metadata::FileMetadata;
use crate::metadata::Timestamp;
use crate::metadata::time_le;
use crate::range::Range;
use crate::range::Slice;
use std::sync::Arc;
use vstd::prelude::*;
use vstd::string::StringSliceAdditionalSpecFns;

verus! {

/// No `Last-Modified` header is emitted for dates before 1990-01-01:
/// low timestamps stand for "no sensible date" on several systems.
pub const MIN_DATE: u64 = 631152000;

/// The date library renders years up to 9999 only; a modification time
/// at or past this bound is treated as unavailable.
pub const MAX_HTTP_DATE: u64 = 253402300800;

/// The chunk buffer of the body reader: 64 KiB.
pub const CHUNK: u64 = 65536;

/// Everything needed to form a response to one request.
///
/// The variants are the distinct ways of responding.
#[derive(Debug)]
pub enum Output {
    /// File not found
    NotFound,
    /// File was requested using `HEAD`
    FileHead(Head),
    /// The cache is fresh; respond 304 with headers only
    NotModified(Head),
    /// Normal file requested using `GET`
    File(FileWrapper),
    /// `GET` with a contiguous `Range`; respond 206
    FileRange(FileWrapper),
    /// The matching path is a directory
    Directory,
    /// Invalid method; respond 405
    InvalidMethod,
    /// Invalid `Range` header; respond 416
    InvalidRange,
}

/// The resolved byte window of a partial response.
#[derive(Debug, Clone, Copy, PartialEq, Eq, Structural)]
pub struct ContentRange {
    pub start: u64,
    pub end: u64,
    pub file_size: u64,
}

/// All the metadata for the response headers.
#[derive(Debug)]
pub struct Head {
    pub config: Arc<Config>,
    pub encoding: Encoding,
    pub content_length: u64,
    pub content_type: Option<&'static str>,
    pub last_modified: Option<Timestamp>,
    pub etag: Option<Etag>,
    pub range: Option<ContentRange>,
    pub not_modified: bool,
}

/// Metadata plus the accounting of the body bytes still owed; the host
/// pairs it with the open file.
#[derive(Debug)]
pub struct FileWrapper {
    pub head: Head,
    pub bytes_left: u64,
    pub pos: u64,
}

/// Range resolution: the window and the content length, or nothing when
/// the request is unsatisfiable (a 416).
pub open spec fn spec_resolve_range(inp: Option<Range>, size: u64) -> Option<
    (Option<ContentRange>, u64),
> {
    match inp {
        Some(Range::SingleRangeOfBytes(sl)) => {
            let cr = match sl {
                Slice::FromTo(s, e) => {
                    if s >= size {
                        None
                    } else {
                        let nbytes = if (size - s) as u64 <= (e - s) as u64 + 1 {
                            (size - s) as u64
                        } else {
                            ((e - s) as u64 + 1) as u64
                        };
                        Some(ContentRange { start: s, end: (s + nbytes - 1) as u64, file_size: size })
                    }
                },
                Slice::AllFrom(s) => {
                    if s >= size {
                        None
                    } else {
                        Some(ContentRange { start: s, end: (size - 1) as u64, file_size: size })
                    }
                },
                Slice::Last(n) => {
                    if n >= size {
                        Some(
                            ContentRange {
                                start: 0,
                                end: (if size == 0 {
                                    0u64
                                } else {
                                    (size - 1) as u64
                                }),
                                file_size: size,
                            },
                        )
                    } else {
                        Some(ContentRange { start: (size - n) as u64, end: (size - 1) as u64, file_size: size })
                    }
                },
            };
            match cr {
                None => None,
                Some(rng) => Some(
                    (
                        Some(rng),
                        if size == 0 {
                            0u64
                        } else {
                            (rng.end - rng.start + 1) as u64
                        },
                    ),
                ),
            }
        },
        None => Some((None::<ContentRange>, size)),
    }
}

/// Resolves the requested slice against the file size.  `Err` means the
/// range cannot be satisfied and the response is a 416.
pub fn resolve_range(inp_range: &Option<Range>, size: u64) -> (r: Result<
    (Option<ContentRange>, u64),
    (),
>)
    requires
        (match *inp_range {
            Some(Range::SingleRangeOfBytes(Slice::FromTo(s, e))) => s <= e,
            _ => true,
        }),
    ensures
        match spec_resolve_range(*inp_range, size) {
            Some(v) => r == Ok::<(Option<ContentRange>, u64), ()>(v),
            None => r == Err::<(Option<ContentRange>, u64), ()>(()),
        },
{
    let cr: Option<ContentRange> = match *inp_range {
        Some(Range::SingleRangeOfBytes(Slice::FromTo(s, e))) => {
            if s >= size {
                return Err(());
            }
            let span = e - s;
            let want = if span == u64::MAX {
                u64::MAX
            } else {
                span + 1
            };
            let nbytes = if size - s <= want {
                size - s
            } else {
                want
            };
            Some(ContentRange { start: s, end: s + nbytes - 1, file_size: size })
        },
        Some(Range::SingleRangeOfBytes(Slice::AllFrom(s))) => {
            if s >= size {
                return Err(());
            }
            Some(ContentRange { start: s, end: size - 1, file_size: size })
        },
        Some(Range::SingleRangeOfBytes(Slice::Last(n))) => {
            if n >= size {
                Some(
                    ContentRange {
                        start: 0,
                        end: if size == 0 {
                            0
                        } else {
                            size - 1
                        },
                        file_size: size,
                    },
                )
            } else {
                Some(ContentRange { start: size - n, end: size - 1, file_size: size })
            }
        },
        None => None,
    };
    proof {
        assert(match cr {
            Some(c) => size == 0 || (c.start <= c.end + 1 <= size),
            None => true,
        });
    }
    let clen: u64 = match &cr {
        Some(rng) => if size == 0 {
            0
        } else {
            rng.end + 1 - rng.start
        },
        None => size,
    };
    Ok((cr, clen))
}

/// The shape of every resolved window: it closes at or before the end
/// of the file and the content length is its width, `end + 1 - start`
/// (zero for the empty window a last-0 request gets).
pub proof fn lemma_resolve_shape(inp: Option<Range>, size: u64)
    requires
        (match inp {
            Some(Range::SingleRangeOfBytes(Slice::FromTo(s, e))) => s <= e,
            _ => true,
        }),
    ensures
        match spec_resolve_range(inp, size) {
            Some((Some(cr), clen)) => cr.file_size == size && ((size == 0 && cr.start == 0
                && cr.end == 0 && clen == 0) || (cr.start <= cr.end + 1 <= size && clen == cr.end
                + 1 - cr.start)),
            Some((None, clen)) => clen == size,
            None => true,
        },
{
    match inp {
        Some(Range::SingleRangeOfBytes(sl)) => {
            match sl {
                Slice::FromTo(s, e) => {
                    if s < size {
                        let want = (e - s) as u64 + 1;
                        let nbytes: int = if size - s <= want {
                            size - s
                        } else {
                            want as int
                        };
                        assert(1 <= nbytes <= size - s);
                    }
                },
                Slice::AllFrom(s) => {},
                Slice::Last(n) => {},
            }
        },
        None => {},
    }
}

/// Range-header-size invariant: an accepted window (asked for with at
/// least one byte) sits inside the file (`start <= end < size`) and the
/// content length is exactly `end - start + 1`; the empty file is the
/// one exception, answered with the window `0-0/0` and length 0.  A
/// `-0` suffix range on a non-empty file is the second degenerate case:
/// its window is empty and its content length 0.
pub proof fn lemma_range_window(inp: Option<Range>, size: u64)
    requires
        (match inp {
            Some(Range::SingleRangeOfBytes(Slice::FromTo(s, e))) => s <= e,
            _ => true,
        }),
        (match inp {
            Some(Range::SingleRangeOfBytes(Slice::Last(n))) => n > 0 || size == 0,
            _ => true,
        }),
    ensures
        match spec_resolve_range(inp, size) {
            Some((Some(cr), clen)) => cr.file_size == size && (if size == 0 {
                cr.start == 0 && cr.end == 0 && clen == 0
            } else {
                cr.start <= cr.end < size && clen == cr.end - cr.start + 1
            }),
            _ => true,
        },
{
    lemma_resolve_shape(inp, size);
    match inp {
        Some(Range::SingleRangeOfBytes(sl)) => {
            match sl {
                Slice::FromTo(s, e) => {
                    if s < size {
                        let want = (e - s) as u64 + 1;
                        let nbytes: int = if size - s <= want {
                            size - s
                        } else {
                            want as int
                        };
                        assert(1 <= nbytes <= size - s);
                    }
                },
                Slice::AllFrom(s) => {},
                Slice::Last(n) => {},
            }
        },
        None => {},
    }
}

/// Whether the requested window is the whole file.
pub open spec fn start_of(h: Head) -> u64 {
    match h.range {
        Some(cr) => cr.start,
        None => 0,
    }
}

impl Head {
    /// The shape every head the engine builds satisfies: a window sits
    /// inside the file and matches the content length, and a 304 head
    /// carries no body, no window and no content type.
    pub open spec fn wf(&self) -> bool {
        (match self.range {
            Some(cr) => (cr.file_size == 0 && cr.start == 0 && cr.end == 0 && self.content_length
                == 0) || (cr.start <= cr.end + 1 <= cr.file_size && self.content_length == cr.end
                + 1 - cr.start),
            None => true,
        }) && (self.not_modified ==> self.content_length == 0 && self.range is None
            && self.content_type is None)
    }

    /// Returns true if the response contains partial content (206).
    pub fn is_partial(&self) -> (r: bool)
        ensures
            r == (self.range is Some),
    {
        match &self.range {
            Some(_) => true,
            None => false,
        }
    }

    /// Returns true if the response is skipped because the cache is
    /// fresh (304).
    pub fn is_not_modified(&self) -> (r: bool)
        ensures
            r == self.not_modified,
    {
        self.not_modified
    }

    /// The value of the `Content-Length` header to send.
    pub fn content_length(&self) -> (r: u64)
        ensures
            r == self.content_length,
    {
        self.content_length
    }
}

/// The `Last-Modified` date a response carries, if any: only when the
/// configuration asks for it, and only for dates from 1990-01-01 up to
/// what an HTTP date can express.
pub open spec fn spec_mod_time(cfg_last_modified: bool, md: FileMetadata) -> Option<Timestamp> {
    if cfg_last_modified {
        match md.modified {
            Some(ts) => if MIN_DATE <= ts.secs < MAX_HTTP_DATE {
                Some(ts)
            } else {
                None
            },
            None => None,
        }
    } else {
        None
    }
}

/// The tag bytes a response carries, when tags are enabled.
pub open spec fn spec_etag_bytes(cfg_etag: bool, md: FileMetadata) -> Option<Seq<u8>> {
    if cfg_etag {
        Some(blake2b12_of(canonical_bytes(md)))
    } else {
        None
    }
}

/// Whether some collected `If-None-Match` tag equals the current one.
pub open spec fn spec_tag_match(tags: Seq<Seq<u8>>, t: Option<Seq<u8>>) -> bool {
    match t {
        Some(bs) => exists|i: int| 0 <= i < tags.len() && tags[i] == bs,
        None => false,
    }
}

/// The 304 decision: a matching `If-None-Match` tag wins; with no
/// `If-None-Match` tags at all, an `If-Modified-Since` at or after the
/// modification date suffices.
pub open spec fn spec_not_modified(
    tags: Seq<Seq<u8>>,
    if_modified: Option<Timestamp>,
    mod_time: Option<Timestamp>,
    etag: Option<Seq<u8>>,
) -> bool {
    if tags.len() > 0 {
        spec_tag_match(tags, etag)
    } else {
        match (if_modified, mod_time) {
            (Some(ims), Some(mt)) => time_le(mt, ims),
            _ => false,
        }
    }
}

} // verus!

verus! {

/// What an HTTP date looks like as text: a name for
/// `httpdate::fmt_http_date`, a function of the seconds alone.
pub uninterp spec fn http_date_str_of(secs: u64) -> Seq<char>;

/// Relies on `httpdate::fmt_http_date`: it renders a time as an
/// IMF-fixdate from the whole seconds alone.  The library refuses dates
/// at or past year 10000, so those stay out.
#[verifier::external_body]
fn http_date_string(secs: u64) -> (r: String)
    requires
        secs < MAX_HTTP_DATE,
    ensures
        r@ == http_date_str_of(secs),
{
    httpdate::fmt_http_date(std::time::UNIX_EPOCH + std::time::Duration::from_secs(secs))
}

/// The text of a `Content-Range` value: `bytes <s>-<e>/<size>`, or
/// `bytes */0` for the empty file.
pub open spec fn spec_cr_text(cr: ContentRange) -> Seq<u8> {
    if cr.file_size == 0 {
        seq![98u8, 121u8, 116u8, 101u8, 115u8, 32u8, 42u8, 47u8, 48u8]
    } else {
        seq![98u8, 121u8, 116u8, 101u8, 115u8, 32u8] + spec_dec(cr.start as nat) + seq![45u8]
            + spec_dec(cr.end as nat) + seq![47u8] + spec_dec(cr.file_size as nat)
    }
}

/// Decimal renderings are plain ASCII.
proof fn lemma_dec_ascii(n: nat)
    requires
        n <= u64::MAX,
    ensures
        forall|j: int| 0 <= j < spec_dec(n).len() ==> spec_dec(n)[j] < 128,
{
    lemma_dec_parse(n);
    assert forall|j: int| 0 <= j < spec_dec(n).len() implies spec_dec(n)[j] < 128 by {
        assert(is_digit(spec_dec(n)[j]));
    }
}

impl ContentRange {
    /// The value of the `Content-Range` header for this window.
    pub fn render(&self) -> (r: String)
        ensures
            r@ == bytes_as_chars(spec_cr_text(*self)),
    {
        let mut out: Vec<u8> = Vec::new();
        out.push(98);
        out.push(121);
        out.push(116);
        out.push(101);
        out.push(115);
        out.push(32);
        if self.file_size == 0 {
            out.push(42);
            out.push(47);
            out.push(48);
            proof {
                assert(out@ =~= spec_cr_text(*self));
            }
        } else {
            push_dec(self.start, &mut out);
            out.push(45);
            push_dec(self.end, &mut out);
            out.push(47);
            push_dec(self.file_size, &mut out);
            proof {
                assert(out@ =~= spec_cr_text(*self));
            }
        }
        proof {
            lemma_dec_ascii(self.start as nat);
            lemma_dec_ascii(self.end as nat);
            lemma_dec_ascii(self.file_size as nat);
            assert(forall|j: int| 0 <= j < out@.len() ==> out@[j] < 128);
        }
        ascii_to_string(out)
    }
}

/// The text of a `Content-Type` value: the mime type, with
/// `; charset=<cs>` appended for text types when a charset is set.
pub open spec fn spec_ct_value(ct: Seq<char>, text: bool, charset: Option<Seq<char>>) -> Seq<
    char,
> {
    match charset {
        Some(cs) => if text {
            ct + "; charset="@ + cs
        } else {
            ct
        },
        None => ct,
    }
}

/// Builds the `Content-Type` value for a mime type under a config.
fn content_type_value(ct: &'static str, cfg: &Config) -> (r: String)
    ensures
        r@ == spec_ct_value(ct@, spec_is_text_mime(ct.spec_bytes()), charset_of(*cfg)),
{
    let mut s = String::from_str(ct);
    if is_text_file(ct) {
        match &cfg.text_charset {
            Some(cs) => {
                s.append("; charset=");
                s.append(cs.as_str());
            },
            None => {},
        }
    }
    s
}

/// The header sequence of a response, in emission order: `Last-Modified`
/// and `ETag` always when present; for everything but a 304 also
/// `Content-Encoding` (when not identity), `Accept-Ranges`,
/// `Content-Range` (when partial) and `Content-Type`.
pub open spec fn spec_headers(h: Head) -> Seq<(Seq<char>, Seq<char>)> {
    let lm: Seq<(Seq<char>, Seq<char>)> = match h.last_modified {
        Some(t) => seq![("Last-Modified"@, http_date_str_of(t.secs))],
        None => Seq::<(Seq<char>, Seq<char>)>::empty(),
    };
    let et: Seq<(Seq<char>, Seq<char>)> = match h.etag {
        Some(t) => seq![("ETag"@, bytes_as_chars(etag_rendered(t@)))],
        None => Seq::<(Seq<char>, Seq<char>)>::empty(),
    };
    if h.not_modified {
        lm + et
    } else {
        let ce: Seq<(Seq<char>, Seq<char>)> = if h.encoding != Encoding::Identity {
            seq![("Content-Encoding"@, spec_enc_name(h.encoding))]
        } else {
            Seq::<(Seq<char>, Seq<char>)>::empty()
        };
        let ar: Seq<(Seq<char>, Seq<char>)> = seq![("Accept-Ranges"@, "bytes"@)];
        let cr: Seq<(Seq<char>, Seq<char>)> = match h.range {
            Some(w) => seq![("Content-Range"@, bytes_as_chars(spec_cr_text(w)))],
            None => Seq::<(Seq<char>, Seq<char>)>::empty(),
        };
        let ct: Seq<(Seq<char>, Seq<char>)> = match h.content_type {
            Some(s) => seq![
                (
                    "Content-Type"@,
                    spec_ct_value(s@, spec_is_text_mime(s.spec_bytes()), charset_of(*h.config)),
                ),
            ],
            None => Seq::<(Seq<char>, Seq<char>)>::empty(),
        };
        lm + et + ce + ar + cr + ct
    }
}

impl Head {
    /// The headers to send, in order.
    ///
    /// Note: `Content-Length` is not part of this list; read it from
    /// `content_length()` so the transport can choose its framing.
    #[verifier::rlimit(100)]
    pub fn headers(&self) -> (r: Vec<(&'static str, String)>)
        requires
            (match self.last_modified {
                Some(t) => t.secs < MAX_HTTP_DATE,
                None => true,
            }),
        ensures
            r@.len() == spec_headers(*self).len(),
            forall|i: int|
                0 <= i < r@.len() ==> (#[trigger] r@[i]).0@ == spec_headers(*self)[i].0
                    && r@[i].1@ == spec_headers(*self)[i].1,
    {
        let mut out: Vec<(&'static str, String)> = Vec::new();
        match &self.last_modified {
            Some(t) => {
                out.push(("Last-Modified", http_date_string(t.secs)));
            },
            None => {},
        }
        match &self.etag {
            Some(t) => {
                out.push(("ETag", t.render()));
            },
            None => {},
        }
        if !self.not_modified {
            match self.encoding {
                Encoding::Identity => {},
                enc => {
                    out.push(("Content-Encoding", String::from_str(enc.name())));
                },
            }
            out.push(("Accept-Ranges", String::from_str("bytes")));
            match &self.range {
                Some(w) => {
                    out.push(("Content-Range", w.render()));
                },
                None => {},
            }
            match &self.content_type {
                Some(s) => {
                    out.push(("Content-Type", content_type_value(s, &self.config)));
                },
                None => {},
            }
        }
        proof {
            let sh = spec_headers(*self);
            assert(headers_match_spec(out@, sh));
        }
        out
    }
}

/// Element-wise agreement of built headers with their specification.
pub open spec fn headers_match_spec(out: Seq<(&'static str, String)>, sh: Seq<(Seq<char>, Seq<char>)>) -> bool {
    out.len() == sh.len() && (forall|i: int|
        0 <= i < out.len() ==> (#[trigger] out[i]).0@ == sh[i].0 && out[i].1@ == sh[i].1)
}

impl Head {
    /// Derives a response head from the request and the opened file's
    /// metadata: the conditional short-circuit first, then range
    /// resolution.  `Err` carries the short-circuit outcome (a 304 or a
    /// 416).
    pub fn from_meta(
        inp: &Input,
        encoding: Encoding,
        metadata: &FileMetadata,
        ctype: &'static str,
    ) -> (r: Result<Head, Output>)
        requires
            (match inp.range {
                Some(Range::SingleRangeOfBytes(Slice::FromTo(s, e))) => s <= e,
                _ => true,
            }),
        ensures
            ({
                let mt = spec_mod_time(inp.config.last_modified, *metadata);
                let et = spec_etag_bytes(inp.config.etag, *metadata);
                let nm = spec_not_modified(tag_views(inp.if_none@), inp.if_modified, mt, et);
                &&& (nm ==> (r matches Err(o) && o matches Output::NotModified(h) && h.wf()
                    && head_core(h, inp, encoding, 0, true, mt, et, None::<ContentRange>)
                    && h.content_type is None))
                &&& (!nm ==> (match spec_resolve_range(inp.range, metadata.len) {
                    None => r matches Err(o) && o is InvalidRange,
                    Some((rng, clen)) => r matches Ok(h) && h.wf() && head_core(
                        h,
                        inp,
                        encoding,
                        clen,
                        false,
                        mt,
                        et,
                        rng,
                    ) && (match h.content_type {
                        Some(s) => inp.config.content_type && s == ctype,
                        None => !inp.config.content_type,
                    }),
                }))
            }),
    {
        let mod_time: Option<Timestamp> = if inp.config.last_modified {
            match metadata.modified {
                Some(ts) => if MIN_DATE <= ts.secs && ts.secs < MAX_HTTP_DATE {
                    Some(ts)
                } else {
                    None
                },
                None => None,
            }
        } else {
            None
        };
        let etag: Option<Etag> = if inp.config.etag {
            Some(Etag::from_metadata(metadata))
        } else {
            None
        };
        let mut not_modified = false;
        if inp.if_none.len() > 0 {
            match &etag {
                Some(cur) => {
                    let mut i: usize = 0;
                    while i < inp.if_none.len()
                        invariant
                            i <= inp.if_none@.len(),
                            not_modified == exists|j: int|
                                0 <= j < i && tag_views(inp.if_none@)[j] == cur@,
                        decreases inp.if_none@.len() - i,
                    {
                        let hit = inp.if_none[i] == *cur;
                        proof {
                            assert(tag_views(inp.if_none@)[i as int] == inp.if_none@[
                                i as int
                            ]@);
                        }
                        if hit {
                            not_modified = true;
                            proof {
                                assert(tag_views(inp.if_none@)[i as int] == cur@);
                            }
                        }
                        i = i + 1;
                    }
                },
                None => {},
            }
        } else {
            match (&inp.if_modified, &mod_time) {
                (Some(ims), Some(mt)) => {
                    if mt.le(ims) {
                        not_modified = true;
                    }
                },
                _ => {},
            }
        }
        if not_modified {
            return Err(
                Output::NotModified(
                    Head {
                        config: crate::config::clone_config(&inp.config),
                        encoding,
                        content_length: 0,
                        content_type: None,
                        last_modified: mod_time,
                        etag,
                        range: None,
                        not_modified: true,
                    },
                ),
            );
        }
        let (range, clen) = match resolve_range(&inp.range, metadata.len) {
            Ok(v) => v,
            Err(()) => {
                return Err(Output::InvalidRange);
            },
        };
        proof {
            lemma_resolve_shape(inp.range, metadata.len);
        }
        Ok(
            Head {
                config: crate::config::clone_config(&inp.config),
                encoding,
                content_length: clen,
                content_type: if inp.config.content_type {
                    Some(ctype)
                } else {
                    None
                },
                last_modified: mod_time,
                etag,
                range,
                not_modified: false,
            },
        )
    }
}

/// The fields every head the engine builds has: the request's config,
/// the probed encoding, and the computed length, dates, tag and window.
pub open spec fn head_core(
    h: Head,
    inp: &Input,
    encoding: Encoding,
    clen: u64,
    nm: bool,
    mt: Option<Timestamp>,
    et: Option<Seq<u8>>,
    rng: Option<ContentRange>,
) -> bool {
    &&& h.config == inp.config
    &&& h.encoding == encoding
    &&& h.content_length == clen
    &&& h.not_modified == nm
    &&& h.last_modified == mt
    &&& (match h.etag {
        Some(t) => et == Some(t@),
        None => et is None,
    })
    &&& h.range == rng
}

/// 304 requires a match: `NotModified` is decided exactly when the
/// request's `If-None-Match` tags contain the current tag, or, with no
/// tags at all, when `If-Modified-Since` is at or after the
/// modification date the response would carry.
pub proof fn lemma_not_modified_iff(
    tags: Seq<Seq<u8>>,
    if_modified: Option<Timestamp>,
    mod_time: Option<Timestamp>,
    etag: Option<Seq<u8>>,
)
    ensures
        spec_not_modified(tags, if_modified, mod_time, etag) <==> ((tags.len() > 0
            && spec_tag_match(tags, etag)) || (tags.len() == 0 && (match (if_modified, mod_time) {
            (Some(ims), Some(mt)) => time_le(mt, ims),
            _ => false,
        }))),
{
}

impl FileWrapper {
    /// The accounting invariant of a body reader: what is still owed
    /// never exceeds the promised length, and the position is the start
    /// of the window plus what has been delivered.
    pub open spec fn wf(&self) -> bool {
        &&& self.head.wf()
        &&& self.bytes_left <= self.head.content_length
        &&& self.pos == start_of(self.head) + self.head.content_length - self.bytes_left
        &&& start_of(self.head) + self.head.content_length <= u64::MAX
    }

    /// Wraps a head for body delivery.  The reader starts at the
    /// window's start and owes exactly `content_length` bytes; the host
    /// seeks the file there and then alternates reads with `commit`.
    pub fn new(head: Head) -> (r: FileWrapper)
        requires
            head.wf(),
        ensures
            r.head == head,
            r.bytes_left == head.content_length,
            r.pos == start_of(head),
            r.wf(),
    {
        let pos = match &head.range {
            Some(cr) => cr.start,
            None => 0,
        };
        let bytes_left = head.content_length;
        FileWrapper { head, bytes_left, pos }
    }

    /// Where the body starts in the file; the host seeks here before
    /// the first read.
    pub fn start_offset(&self) -> (r: u64)
        ensures
            r == start_of(self.head),
    {
        match &self.head.range {
            Some(cr) => cr.start,
            None => 0,
        }
    }

    /// How many bytes to ask of the file next: a chunk, or what is
    /// left.
    pub fn chunk_size(&self) -> (r: u64)
        ensures
            r == (if self.bytes_left <= CHUNK {
                self.bytes_left
            } else {
                CHUNK
            }),
    {
        if self.bytes_left <= 65536 {
            self.bytes_left
        } else {
            65536
        }
    }

    /// Accounts for one read of `read` bytes of which the writer
    /// accepted `written`: the position advances by what was accepted,
    /// and the returned distance is how far the host must seek back so
    /// that the unaccepted bytes are read again.
    pub fn commit(&mut self, read: u64, written: u64) -> (seek_back: u64)
        requires
            old(self).wf(),
            written <= read,
            read <= old(self).bytes_left,
        ensures
            final(self).head == old(self).head,
            final(self).bytes_left == old(self).bytes_left - written,
            final(self).pos == old(self).pos + written,
            final(self).wf(),
            seek_back == read - written,
    {
        self.bytes_left = self.bytes_left - written;
        self.pos = self.pos + written;
        read - written
    }

    /// Returns true if the response contains partial content (206).
    pub fn is_partial(&self) -> (r: bool)
        ensures
            r == (self.head.range is Some),
    {
        self.head.is_partial()
    }

    /// The value of the `Content-Length` header to send.
    pub fn content_length(&self) -> (r: u64)
        ensures
            r == self.head.content_length,
    {
        self.head.content_length
    }

    /// The headers to send, in order; see `Head::headers`.
    pub fn headers(&self) -> (r: Vec<(&'static str, String)>)
        requires
            (match self.head.last_modified {
                Some(t) => t.secs < MAX_HTTP_DATE,
                None => true,
            }),
        ensures
            r@.len() == spec_headers(self.head).len(),
            forall|i: int|
                0 <= i < r@.len() ==> (#[trigger] r@[i]).0@ == spec_headers(self.head)[i].0
                    && r@[i].1@ == spec_headers(self.head)[i].1,
    {
        self.head.headers()
    }
}

/// The chunk sizes a writer accepted, one per `commit`, are feasible:
/// each is at most what was still owed at its turn.
pub open spec fn writes_ok(ws: Seq<u64>, left: u64) -> bool
    decreases ws.len(),
{
    ws.len() == 0 || (ws[0] <= left && writes_ok(ws.skip(1), (left - ws[0]) as u64))
}

/// The total of the accepted chunk sizes.
pub open spec fn total_written(ws: Seq<u64>) -> int
    decreases ws.len(),
{
    if ws.len() == 0 {
        0
    } else {
        ws[0] + total_written(ws.skip(1))
    }
}

/// What is still owed after the accepted chunks.
pub open spec fn left_after(ws: Seq<u64>, left: u64) -> u64
    decreases ws.len(),
{
    if ws.len() == 0 {
        left
    } else {
        left_after(ws.skip(1), (left - ws[0]) as u64)
    }
}

proof fn lemma_write_accounting(ws: Seq<u64>, left: u64)
    requires
        writes_ok(ws, left),
    ensures
        0 <= total_written(ws) <= left,
        left_after(ws, left) == left - total_written(ws),
    decreases ws.len(),
{
    if ws.len() > 0 {
        lemma_write_accounting(ws.skip(1), (left - ws[0]) as u64);
    }
}

/// Exact byte count: when the reader has nothing left to deliver, the
/// sum of the accepted chunk sizes is exactly the promised content
/// length.  Each `commit` lowers `bytes_left` by what was accepted, so
/// a drained reader has delivered the length and no more.
pub proof fn lemma_exact_byte_count(ws: Seq<u64>, content_length: u64)
    requires
        writes_ok(ws, content_length),
        left_after(ws, content_length) == 0,
    ensures
        total_written(ws) == content_length,
{
    lemma_write_accounting(ws, content_length);
}

/// Partial-write resumability: chunks that each deliver at least one
/// byte drain the reader in at most `content_length` steps, and the
/// byte ranges delivered by the steps are consecutive and disjoint —
/// step `i` ends where step `j > i` has not yet begun, so no byte is
/// delivered twice.
pub proof fn lemma_partial_write_resumable(ws: Seq<u64>, content_length: u64)
    requires
        writes_ok(ws, content_length),
        forall|i: int| 0 <= i < ws.len() ==> ws[i] >= 1,
    ensures
        ws.len() <= content_length,
        total_written(ws) >= ws.len(),
        left_after(ws, content_length) <= content_length - ws.len(),
        forall|i: int, j: int|
            #![trigger ws.take(i), ws.take(j)]
            0 <= i < j <= ws.len() ==> total_written(ws.take(i)) + ws[i] <= total_written(
                ws.take(j),
            ),
    decreases ws.len(),
{
    lemma_write_accounting(ws, content_length);
    if ws.len() > 0 {
        lemma_partial_write_resumable(ws.skip(1), (content_length - ws[0]) as u64);
        assert(ws.take(0) =~= Seq::<u64>::empty());
        assert forall|i: int, j: int|
            #![trigger ws.take(i), ws.take(j)]
            0 <= i < j <= ws.len() implies total_written(ws.take(i)) + ws[i] <= total_written(
            ws.take(j)) by {
            if i == 0 {
                lemma_take_total(ws, j);
            } else {
                assert(ws.take(i).skip(1) =~= ws.skip(1).take(i - 1));
                assert(ws.take(j).skip(1) =~= ws.skip(1).take(j - 1));
                assert(total_written(ws.take(i)) == ws[0] + total_written(ws.skip(1).take(i - 1)));
                assert(total_written(ws.take(j)) == ws[0] + total_written(ws.skip(1).take(j - 1)));
                assert(ws.skip(1)[i - 1] == ws[i]);
            }
        }
    }
}

/// A longer prefix of feasible positive chunks has delivered at least
/// one more chunk.
proof fn lemma_take_total(ws: Seq<u64>, j: int)
    requires
        0 < j <= ws.len(),
        forall|i: int| 0 <= i < ws.len() ==> ws[i] >= 1,
    ensures
        total_written(ws.take(j)) >= ws[0] + (j - 1),
    decreases j,
{
    if j == 1 {
        assert(ws.take(1).skip(1) =~= Seq::<u64>::empty());
        assert(ws.take(1)[0] == ws[0]);
        assert(total_written(ws.take(1)) == ws.take(1)[0] + total_written(ws.take(1).skip(1)));
        assert(total_written(ws.take(1)) == ws[0]);
    } else {
        assert(ws.take(j).skip(1) =~= ws.skip(1).take(j - 1));
        lemma_take_total(ws.skip(1), j - 1);
        assert(forall|i: int| 0 <= i < ws.skip(1).len() ==> ws.skip(1)[i] == ws[i + 1]);
        assert(total_written(ws.take(j)) == ws[0] + total_written(ws.skip(1).take(j - 1)));
    }
}

} // verus!
