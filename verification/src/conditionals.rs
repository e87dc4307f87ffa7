//! The conditional request headers: `If-Modified-Since`, parsed by the
//! date library behind a named result, and `If-None-Match`, which
//! accepts weak 16-character tags only.
use crate::etag::Etag;
use crate::etag::spec_decode_base64;
use crate::metadata::Timestamp;
use vstd::prelude::*;

verus! {

/// What an HTTP date string denotes: a name for
/// `httpdate::parse_http_date`, a function of the characters alone.
/// `Some` carries whole seconds since the Unix epoch.
pub uninterp spec fn http_date_of(s: Seq<u8>) -> Option<u64>;

/// Relies on `httpdate::parse_http_date`: it reads the RFC 1123, RFC
/// 850 and asctime date formats, depends on its argument alone, and
/// yields a time at or after the epoch with second resolution.
#[verifier::external_body]
fn parse_http_date_secs(s: &[u8]) -> (r: Option<u64>)
    ensures
        r == http_date_of(s@),
{
    match core::str::from_utf8(s) {
        Ok(text) => match httpdate::parse_http_date(text) {
            Ok(t) => match t.duration_since(std::time::UNIX_EPOCH) {
                Ok(d) => Some(d.as_secs()),
                Err(_) => None,
            },
            Err(_) => None,
        },
        Err(_) => None,
    }
}

/// Parser state for `If-Modified-Since`: one well-formed date binds the
/// conditional; a duplicate or malformed header voids it.
pub struct ModifiedParser {
    pub result: Result<Option<Timestamp>, ()>,
}

impl ModifiedParser {
    pub fn new() -> (r: ModifiedParser)
        ensures
            r.result == Ok::<Option<Timestamp>, ()>(None::<Timestamp>),
    {
        ModifiedParser { result: Ok(None) }
    }

    /// Feeds one `If-Modified-Since` header line.
    pub fn add_header(&mut self, header: &[u8])
        ensures
            old(self).result is Err ==> final(self).result is Err,
            old(self).result matches Ok(Some(_)) ==> final(self).result is Err,
            old(self).result matches Ok(None) ==> final(self).result == (
            match http_date_of(header@) {
                Some(secs) => Ok::<Option<Timestamp>, ()>(
                    Some(Timestamp { secs, nanos: 0 }),
                ),
                None => Err::<Option<Timestamp>, ()>(()),
            }),
    {
        match self.result {
            Err(()) => {},
            Ok(Some(_)) => {
                self.result = Err(());
            },
            Ok(None) => {
                match parse_http_date_secs(header) {
                    Some(secs) => {
                        self.result = Ok(Some(Timestamp { secs, nanos: 0 }));
                    },
                    None => {
                        self.result = Err(());
                    },
                }
            },
        }
    }

    /// The binding date, if one well-formed header arrived; an invalid
    /// or duplicate header counts as no header at all.
    pub fn done(self) -> (r: Option<Timestamp>)
        ensures
            r == (match self.result {
                Ok(o) => o,
                Err(()) => None::<Timestamp>,
            }),
    {
        match self.result {
            Ok(o) => o,
            Err(()) => None,
        }
    }
}

/// `c` with its leading spaces removed.
pub open spec fn strip_spaces(c: Seq<u8>) -> Seq<u8>
    decreases c.len(),
{
    if c.len() > 0 && c[0] == 32 {
        strip_spaces(c.skip(1))
    } else {
        c
    }
}

/// The 12 tag bytes of a chunk of the form `W/"<16 base64 chars>"`,
/// allowing leading and trailing spaces; `None` for anything else.
pub open spec fn weak_tag_of(c: Seq<u8>) -> Option<Seq<u8>> {
    let t = strip_spaces(c);
    if t.len() < 20 {
        None
    } else if t[0] != 87 || t[1] != 47 || t[2] != 34 || t[19] != 34 {
        None
    } else if exists|j: int| 20 <= j < t.len() && t[j] != 32 {
        None
    } else {
        spec_decode_base64(t.subrange(3, 19))
    }
}

/// The tag bytes one chunk contributes: one entry or none.
pub open spec fn spec_chunk_tags(c: Seq<u8>) -> Seq<Seq<u8>> {
    match weak_tag_of(c) {
        Some(bs) => seq![bs],
        None => Seq::<Seq<u8>>::empty(),
    }
}

/// All tag bytes the comma-separated chunks of a header line carry.
pub open spec fn spec_none_match_tags(h: Seq<u8>) -> Seq<Seq<u8>>
    decreases h.len(),
        via spec_none_match_tags_dec
{
    let i = crate::range::spec_find(h, 44);
    spec_chunk_tags(h.take(i)) + (if i < h.len() {
        spec_none_match_tags(h.skip(i + 1))
    } else {
        Seq::<Seq<u8>>::empty()
    })
}

#[via_fn]
proof fn spec_none_match_tags_dec(h: Seq<u8>) {
    crate::range::lemma_spec_find(h, 44);
}

/// The byte strings of a list of tags.
pub open spec fn tag_views(s: Seq<Etag>) -> Seq<Seq<u8>> {
    s.map_values(|t: Etag| t@)
}

/// ETag weak-only parsing: a chunk that does not consist of `W/"`,
/// exactly sixteen characters of the URL-safe base64 alphabet, and a
/// closing quote — spaces aside — contributes no tag and can never
/// cause a 304.
pub proof fn lemma_weak_only(c: Seq<u8>)
    requires
        weak_tag_of(c) is None,
    ensures
        spec_chunk_tags(c) == Seq::<Seq<u8>>::empty(),
{
}

/// Parser state for `If-None-Match`: the weak tags seen so far.
pub struct NoneMatchParser {
    pub etags: Vec<Etag>,
}

impl NoneMatchParser {
    pub fn new() -> (r: NoneMatchParser)
        ensures
            r.etags@ == Seq::<Etag>::empty(),
    {
        NoneMatchParser { etags: Vec::new() }
    }

    /// Feeds one comma-separated chunk: a well-formed weak tag is
    /// collected, anything else is dropped.
    fn add_chunk(&mut self, chunk: &[u8])
        ensures
            tag_views(final(self).etags@) == tag_views(old(self).etags@) + spec_chunk_tags(
                chunk@,
            ),
    {
        let mut i: usize = 0;
        proof {
            assert(chunk@.skip(0) == chunk@);
        }
        while i < chunk.len() && chunk[i] == 32
            invariant
                i <= chunk@.len(),
                strip_spaces(chunk@) == strip_spaces(chunk@.skip(i as int)),
            decreases chunk@.len() - i,
        {
            proof {
                assert(chunk@.skip(i as int).skip(1) == chunk@.skip(i + 1));
            }
            i = i + 1;
        }
        let t = &chunk[i..chunk.len()];
        proof {
            assert(t@ == chunk@.skip(i as int));
            assert(strip_spaces(t@) == t@);
        }
        if t.len() < 20 {
            return ;
        }
        if t[0] != 87 || t[1] != 47 || t[2] != 34 || t[19] != 34 {
            return ;
        }
        let mut j: usize = 20;
        while j < t.len()
            invariant
                20 <= j <= t@.len(),
                t@ == strip_spaces(chunk@),
                forall|k: int| 20 <= k < j ==> t@[k] == 32,
            decreases t@.len() - j,
        {
            if t[j] != 32 {
                return ;
            }
            j = j + 1;
        }
        let body = &t[3..19];
        proof {
            assert(body@ == t@.subrange(3, 19));
        }
        match Etag::decode_base64(body) {
            Ok(tag) => {
                self.etags.push(tag);
                proof {
                    assert(tag_views(self.etags@) =~= tag_views(old(self).etags@)
                        + spec_chunk_tags(chunk@));
                }
            },
            Err(()) => {},
        }
    }

    /// Feeds one `If-None-Match` header line.
    pub fn add_header(&mut self, header: &[u8])
        ensures
            tag_views(final(self).etags@) == tag_views(old(self).etags@) + spec_none_match_tags(
                header@,
            ),
    {
        let mut pos: usize = 0;
        let mut more: bool = true;
        proof {
            assert(header@.skip(0) == header@);
        }
        while more
            invariant
                pos <= header@.len(),
                tag_views(old(self).etags@) + spec_none_match_tags(header@) == tag_views(
                    self.etags@,
                ) + (if more {
                    spec_none_match_tags(header@.skip(pos as int))
                } else {
                    Seq::<Seq<u8>>::empty()
                }),
            decreases header@.len() - pos + (if more {
                1int
            } else {
                0int
            }),
        {
            let next = crate::ascii::find_byte(header, pos, 44);
            proof {
                let rest = header@.skip(pos as int);
                crate::range::lemma_find_is_spec(rest, 44, next - pos);
                assert(rest.take(next - pos) == header@.subrange(pos as int, next as int));
                if (next as int) < header@.len() {
                    assert(rest.skip(next - pos + 1) == header@.skip(next + 1));
                }
            }
            self.add_chunk(&header[pos..next]);
            if next == header.len() {
                more = false;
            } else {
                pos = next + 1;
            }
        }
        proof {
            assert(tag_views(self.etags@) + Seq::<Seq<u8>>::empty() =~= tag_views(self.etags@));
        }
    }

    /// The weak tags the request carried.
    pub fn done(self) -> (r: Vec<Etag>)
        ensures
            r == self.etags,
    {
        self.etags
    }
}

} // verus!
