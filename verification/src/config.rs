//! Configuration of the engine: charset, directory index files,
//! pre-compressed variant policy, and which response headers to emit.
use std::sync::Arc;
use vstd::prelude::*;

verus! {

/// When to probe for `.br` / `.gz` sibling files.
#[derive(Clone, Copy, Debug, PartialEq, Eq, Structural)]
pub enum EncodingSupport {
    Never,
    TextFiles,
    AllFiles,
}

/// A configuration with the builder interface.
#[derive(Clone, Debug)]
pub struct Config {
    pub text_charset: Option<String>,
    pub index_files: Vec<String>,
    pub encoding_support: EncodingSupport,
    pub content_type: bool,
    pub etag: bool,
    pub last_modified: bool,
}

/// The charset as text, when one is configured.
pub open spec fn charset_of(c: Config) -> Option<Seq<char>> {
    match c.text_charset {
        Some(s) => Some(s@),
        None => None,
    }
}

/// The configured index file names, as text, in probe order.
pub open spec fn index_files_of(c: Config) -> Seq<Seq<char>> {
    c.index_files@.map_values(|s: String| s@)
}

impl Config {
    /// New configuration with default values
    ///
    /// Defaults:
    ///
    /// * `text_charset("utf-8")`
    /// * no index files
    /// * `encodings_on_text_files()`
    /// * etags, last-modified and conditions based on them are enabled
    /// * content-type is enabled
    pub fn new() -> (r: Config)
        ensures
            charset_of(r) == Some("utf-8"@),
            index_files_of(r) == Seq::<Seq<char>>::empty(),
            r.encoding_support == EncodingSupport::TextFiles,
            r.content_type == true,
            r.etag == true,
            r.last_modified == true,
    {
        let c = Config {
            text_charset: Some(String::from_str("utf-8")),
            index_files: Vec::new(),
            encoding_support: EncodingSupport::TextFiles,
            content_type: true,
            etag: true,
            last_modified: true,
        };
        proof {
            assert(index_files_of(c) =~= Seq::<Seq<char>>::empty());
        }
        c
    }

    /// Set default charset for all text mime types
    ///
    /// Note: by default it's `utf-8`; disable it with `no_text_charset()`.
    pub fn text_charset(&mut self, charset: &str)
        ensures
            charset_of(*final(self)) == Some(charset@),
            index_files_of(*final(self)) == index_files_of(*old(self)),
            final(self).encoding_support == old(self).encoding_support,
            final(self).content_type == old(self).content_type,
            final(self).etag == old(self).etag,
            final(self).last_modified == old(self).last_modified,
    {
        self.text_charset = Some(String::from_str(charset));
    }

    /// Disable adding a charset value to all text mime types.
    pub fn no_text_charset(&mut self)
        ensures
            charset_of(*final(self)) is None,
            index_files_of(*final(self)) == index_files_of(*old(self)),
            final(self).encoding_support == old(self).encoding_support,
            final(self).content_type == old(self).content_type,
            final(self).etag == old(self).etag,
            final(self).last_modified == old(self).last_modified,
    {
        self.text_charset = None;
    }

    /// Add a name of the file used as the directory index, like
    /// `index.html`.
    ///
    /// Multiple names can be added; they are probed in the order given
    /// here, and with encoding extensions too.
    pub fn add_index_file(&mut self, name: &str)
        ensures
            index_files_of(*final(self)) == index_files_of(*old(self)).push(name@),
            charset_of(*final(self)) == charset_of(*old(self)),
            final(self).encoding_support == old(self).encoding_support,
            final(self).content_type == old(self).content_type,
            final(self).etag == old(self).etag,
            final(self).last_modified == old(self).last_modified,
    {
        self.index_files.push(String::from_str(name));
        proof {
            assert(index_files_of(*self) =~= index_files_of(*old(self)).push(name@));
        }
    }

    /// Do not search for `.br` and `.gz` files.
    pub fn no_encodings(&mut self)
        ensures
            final(self).encoding_support == EncodingSupport::Never,
            charset_of(*final(self)) == charset_of(*old(self)),
            index_files_of(*final(self)) == index_files_of(*old(self)),
            final(self).content_type == old(self).content_type,
            final(self).etag == old(self).etag,
            final(self).last_modified == old(self).last_modified,
    {
        self.encoding_support = EncodingSupport::Never;
    }

    /// Search for `.br` and `.gz` files for text files: those with a
    /// `text/*` mime type or `application/javascript`.
    pub fn encodings_on_text_files(&mut self)
        ensures
            final(self).encoding_support == EncodingSupport::TextFiles,
            charset_of(*final(self)) == charset_of(*old(self)),
            index_files_of(*final(self)) == index_files_of(*old(self)),
            final(self).content_type == old(self).content_type,
            final(self).etag == old(self).etag,
            final(self).last_modified == old(self).last_modified,
    {
        self.encoding_support = EncodingSupport::TextFiles;
    }

    /// Search for `.br` and `.gz` files for all files regardless of
    /// mime type.
    pub fn encodings_on_all_files(&mut self)
        ensures
            final(self).encoding_support == EncodingSupport::AllFiles,
            charset_of(*final(self)) == charset_of(*old(self)),
            index_files_of(*final(self)) == index_files_of(*old(self)),
            final(self).content_type == old(self).content_type,
            final(self).etag == old(self).etag,
            final(self).last_modified == old(self).last_modified,
    {
        self.encoding_support = EncodingSupport::AllFiles;
    }

    /// Toggles generation of the `Content-Type` header (so the caller
    /// can override it).  Enabled by default.
    pub fn content_type(&mut self, value: bool)
        ensures
            final(self).content_type == value,
            charset_of(*final(self)) == charset_of(*old(self)),
            index_files_of(*final(self)) == index_files_of(*old(self)),
            final(self).encoding_support == old(self).encoding_support,
            final(self).etag == old(self).etag,
            final(self).last_modified == old(self).last_modified,
    {
        self.content_type = value;
    }

    /// Toggles ETag generation (and so `If-None-Match` too).  Enabled
    /// by default.
    pub fn etag(&mut self, value: bool)
        ensures
            final(self).etag == value,
            charset_of(*final(self)) == charset_of(*old(self)),
            index_files_of(*final(self)) == index_files_of(*old(self)),
            final(self).encoding_support == old(self).encoding_support,
            final(self).content_type == old(self).content_type,
            final(self).last_modified == old(self).last_modified,
    {
        self.etag = value;
    }

    /// Toggles generation of `Last-Modified` (and so `If-Modified-Since`
    /// too).
    ///
    /// Note: a `Last-Modified` date earlier than 1990-01-01 is never
    /// sent.
    pub fn last_modified(&mut self, value: bool)
        ensures
            final(self).last_modified == value,
            charset_of(*final(self)) == charset_of(*old(self)),
            index_files_of(*final(self)) == index_files_of(*old(self)),
            final(self).encoding_support == old(self).encoding_support,
            final(self).content_type == old(self).content_type,
            final(self).etag == old(self).etag,
    {
        self.last_modified = value;
    }

    /// Finalize the configuration and wrap it into an `Arc`.
    pub fn done(&self) -> (r: Arc<Config>)
        ensures
            charset_of(*r) == charset_of(*self),
            index_files_of(*r) == index_files_of(*self),
            r.encoding_support == self.encoding_support,
            r.content_type == self.content_type,
            r.etag == self.etag,
            r.last_modified == self.last_modified,
    {
        let charset: Option<String> = match &self.text_charset {
            Some(s) => Some(s.clone()),
            None => None,
        };
        let mut names: Vec<String> = Vec::new();
        let mut i: usize = 0;
        while i < self.index_files.len()
            invariant
                i <= self.index_files@.len(),
                names@ == self.index_files@.take(i as int),
            decreases self.index_files@.len() - i,
        {
            names.push(self.index_files[i].clone());
            proof {
                assert(names@ =~= self.index_files@.take(i + 1));
            }
            i = i + 1;
        }
        proof {
            assert(self.index_files@.take(i as int) =~= self.index_files@);
        }
        let c = Config {
            text_charset: charset,
            index_files: names,
            encoding_support: self.encoding_support,
            content_type: self.content_type,
            etag: self.etag,
            last_modified: self.last_modified,
        };
        proof {
            assert(index_files_of(c) =~= index_files_of(*self));
        }
        Arc::new(c)
    }
}

} // verus!

verus! {

/// Relies on `Arc::clone`: the new handle refers to the same
/// configuration value.
#[verifier::external_body]
pub fn clone_config(c: &Arc<Config>) -> (r: Arc<Config>)
    ensures
        r == *c,
{
    c.clone()
}

} // verus!
