//! The engine's view of a file's metadata: the plain values the
//! decision logic reads.  The host fills one in from whatever its
//! filesystem reports; times are seconds and nanoseconds since the Unix
//! epoch, with `None` standing for "unavailable or before the epoch".
use vstd::prelude::*;

verus! {

/// A point in time: whole seconds since the Unix epoch plus the
/// nanosecond remainder.
#[derive(Debug, Clone, Copy, PartialEq, Eq, Structural)]
pub struct Timestamp {
    pub secs: u64,
    pub nanos: u32,
}

/// `a` is at or before `b`.
pub open spec fn time_le(a: Timestamp, b: Timestamp) -> bool {
    a.secs < b.secs || (a.secs == b.secs && a.nanos <= b.nanos)
}

impl Timestamp {
    /// Whether `self` is at or before `other`.
    pub fn le(&self, other: &Timestamp) -> (r: bool)
        ensures
            r == time_le(*self, *other),
    {
        self.secs < other.secs || (self.secs == other.secs && self.nanos <= other.nanos)
    }
}

/// The POSIX-only identity fields that keep the tag stable when the
/// modification date is not reliable.
#[derive(Debug, Clone, Copy, PartialEq, Eq, Structural)]
pub struct UnixMeta {
    pub dev: u64,
    pub ino: u64,
    pub ctime: i64,
    pub ctime_nsec: i64,
}

/// What the engine knows of a file after a `stat`: size, kind, the two
/// dates, and on POSIX hosts the identity fields.
#[derive(Debug, Clone, Copy, PartialEq)]
pub struct FileMetadata {
    pub len: u64,
    pub is_dir: bool,
    pub modified: Option<Timestamp>,
    pub created: Option<Timestamp>,
    pub unix: Option<UnixMeta>,
}

} // verus!
