//! What was observed of one path, as plain values, and the ways in which an
//! observation can fall short of an entry.

use vstd::prelude::*;

verus! {

/// A point in time as seconds and nanoseconds since the Unix epoch, or the
/// reason why the platform could not tell.
#[derive(Debug)]
pub enum Timestamp {
    At { secs: u64, nanos: u32 },
    Unavailable(String),
}

/// The final component of a path, as far as it could be read.
#[derive(Debug)]
pub enum NameProbe {
    /// The path has no final component.
    Missing,
    /// The final component is not text.
    Undecodable,
    /// The final component.
    Name(String),
}

/// The metadata of one filesystem object. Each timestamp is fallible by itself.
#[derive(Debug)]
pub struct Stat {
    pub size: u64,
    pub accessed: Timestamp,
    pub modified: Timestamp,
    pub created: Timestamp,
}

/// Everything that was observed of one path at discovery time.
#[derive(Debug)]
pub struct PathInfo {
    /// The path as text: the key under which the entry will be known.
    pub path: String,
    pub name: NameProbe,
    pub is_dir: bool,
    /// The metadata, or why it could not be read.
    pub stat: Result<Stat, String>,
}

/// Why an observation did not become an entry, or a directory no listing.
#[derive(Clone, Copy, Debug, PartialEq, Eq, Structural)]
pub enum ErrorKind {
    /// The path has no final component; the detail is the path.
    NameMissing,
    /// The final component is not text; the detail is the path.
    NameUndecodable,
    /// The metadata could not be read; the detail is the reason given.
    Unreadable,
    /// A directory, or one item of its listing, could not be listed; the
    /// detail is the reason given.
    Unlistable,
}

/// A failure met while capturing an entry or listing a directory.
#[derive(Debug)]
pub struct EntryError {
    pub kind: ErrorKind,
    pub detail: String,
}

/// The keys that a vector of strings stands for.
pub open spec fn keys_of(v: Seq<String>) -> Seq<Seq<char>> {
    Seq::new(v.len(), |i: int| v[i]@)
}

/// The key that an optional string stands for.
pub open spec fn opt_key(p: Option<String>) -> Option<Seq<char>> {
    match p {
        Some(s) => Some(s@),
        None => None,
    }
}

/// An independent copy of a timestamp.
pub fn copy_timestamp(t: &Timestamp) -> (r: Timestamp)
    ensures
        r == *t,
{
    match t {
        Timestamp::At { secs, nanos } => Timestamp::At { secs: *secs, nanos: *nanos },
        Timestamp::Unavailable(reason) => Timestamp::Unavailable(reason.clone()),
    }
}

/// An independent copy of an optional key.
pub fn copy_opt_key(p: &Option<String>) -> (r: Option<String>)
    ensures
        opt_key(r) == opt_key(*p),
{
    match p {
        Some(s) => Some(s.clone()),
        None => None,
    }
}

/// An independent copy of a list of keys, in the same order.
pub fn copy_keys(v: &Vec<String>) -> (r: Vec<String>)
    ensures
        keys_of(r@) == keys_of(v@),
{
    let mut out: Vec<String> = Vec::new();
    let mut i: usize = 0;
    while i < v.len()
        invariant
            i <= v.len(),
            out.len() == i,
            forall|j: int| 0 <= j < i ==> out@[j]@ == v@[j]@,
        decreases v.len() - i,
    {
        out.push(v[i].clone());
        i = i + 1;
    }
    assert(keys_of(out@) =~= keys_of(v@));
    out
}

} // verus!
