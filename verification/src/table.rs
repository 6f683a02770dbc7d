//! The snapshot table: what one scan of a root found.
use vstd::prelude::*;

verus! {

/// Version of the table format.
pub const SCHEMA: u32 = 1;

#[derive(Clone, Copy, Debug, PartialEq, Eq, Structural)]
pub enum EntryKind {
    File,
    Dir,
    Symlink,
}

/// One line of the table.
#[derive(Debug)]
pub struct Entry {
    /// Relative to the root, `/`-separated.
    pub path: String,
    pub kind: EntryKind,
    pub size: u64,
    pub mtime_ms: i64,
    pub hash: Option<String>,
    pub file_id: Option<String>,
    pub mode: Option<u32>,
}

/// Where and how a table came about.
#[derive(Debug)]
pub struct Header {
    pub schema: u32,
    pub kind: String,
    pub root: String,
    pub host: String,
    pub os: String,
    pub scanned_at_ms: u64,
    pub duration_ms: u64,
    pub entry_count: u64,
    /// Every file of the table carries a hash.
    pub hashed: bool,
}

#[derive(Debug)]
pub struct Snapshot {
    pub header: Header,
    pub entries: Vec<Entry>,
}

/// What comparing reads of an entry.
pub struct EntryModel {
    pub path: Seq<char>,
    pub kind: EntryKind,
    pub size: u64,
    pub mtime_ms: i64,
    pub hash: Option<Seq<char>>,
}

/// The view of an optional text.
pub open spec fn opt_text(o: Option<String>) -> Option<Seq<char>> {
    match o {
        Some(s) => Some(s@),
        None => None,
    }
}

/// A copy of an optional text.
pub fn copy_opt(o: &Option<String>) -> (r: Option<String>)
    ensures
        r == *o,
{
    match o {
        Some(s) => Some(s.clone()),
        None => None,
    }
}

impl View for Entry {
    type V = EntryModel;

    open spec fn view(&self) -> EntryModel {
        EntryModel {
            path: self.path@,
            kind: self.kind,
            size: self.size,
            mtime_ms: self.mtime_ms,
            hash: opt_text(self.hash),
        }
    }
}

/// The entries of a table.
pub open spec fn entry_models(v: Seq<Entry>) -> Seq<EntryModel> {
    Seq::new(v.len(), |i: int| v[i]@)
}

} // verus!
