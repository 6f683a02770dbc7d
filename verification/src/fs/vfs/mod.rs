//! The virtual filesystem that a sync root lives on.
//!
//! One `Vfs` is one root. Every path is a table path: `/`-separated, no `/` at either end, the
//! empty path is the root itself. What a backend can do is declared, not found out by failing.
//! `stat` giving `Ok(None)` is a confirmed absence. Writes are staged and land by rename. A
//! modification time that does not stick is a report, not a failure.
use vstd::prelude::*;
use crate::fs::vfs::error::{is_error, Os, VfsError, VfsErrorKind, VfsResult};
use crate::fs::vfs::ftp::FtpBackend;
use crate::fs::vfs::local::LocalVfs;
use crate::fs::vfs::remote::timeout_of;
use crate::fs::vfs::sftp::SftpBackend;
use crate::fs::vfs::smb::{no_share_text, share_of, sub_of, SmbBackend};
use crate::fs::vfs::spec::{known_schemes, parse, root_of, RemoteSpec, RootModel, RootSpec};
use crate::strings::same;
use crate::table::{opt_text, EntryKind};

pub mod cred;
pub mod error;
pub mod fake;
pub mod ftp;
pub mod local;
pub mod remote;
pub mod sftp;
pub mod smb;
pub mod spec;
pub mod tree;

verus! {

/// What the filesystem says of an entry now.
#[derive(Debug)]
pub struct VMeta {
    pub kind: EntryKind,
    pub size: u64,
    pub mtime_ms: i64,
    /// Unix permission bits; `None` where the backend has none.
    pub mode: Option<u32>,
    /// Stable identity of the file. It only ever corroborates a move.
    pub file_id: Option<String>,
    /// Target of a symlink. `None` does not mean that there is none: reading it may cost a trip.
    pub link: Option<String>,
}

#[derive(Debug)]
pub struct VDirEntry {
    /// One path segment.
    pub name: String,
    pub meta: VMeta,
}

/// An entry over its texts.
pub struct MetaModel {
    pub kind: EntryKind,
    pub size: u64,
    pub mtime_ms: i64,
    pub mode: Option<u32>,
    pub file_id: Option<Seq<char>>,
    pub link: Option<Seq<char>>,
}

impl View for VMeta {
    type V = MetaModel;

    open spec fn view(&self) -> MetaModel {
        MetaModel {
            kind: self.kind,
            size: self.size,
            mtime_ms: self.mtime_ms,
            mode: self.mode,
            file_id: opt_text(self.file_id),
            link: opt_text(self.link),
        }
    }
}

impl View for VDirEntry {
    type V = (Seq<char>, MetaModel);

    open spec fn view(&self) -> (Seq<char>, MetaModel) {
        (self.name@, self.meta@)
    }
}

/// A listing over its texts.
pub open spec fn listed(v: Seq<VDirEntry>) -> Seq<(Seq<char>, MetaModel)> {
    Seq::new(v.len(), |i: int| v[i]@)
}

/// The names and kinds of a listing.
pub fn names_of(entries: &Vec<VDirEntry>) -> (r: Vec<(String, EntryKind)>)
    ensures
        r@.len() == entries@.len(),
        forall|i: int|
            0 <= i < r@.len() ==> (#[trigger] r@[i]).0@ == entries@[i].name@ && r@[i].1
                == entries@[i].meta.kind,
{
    let mut out: Vec<(String, EntryKind)> = Vec::new();
    let mut i: usize = 0;
    while i < entries.len()
        invariant
            i <= entries@.len(),
            out@.len() == i,
            forall|j: int|
                0 <= j < i ==> (#[trigger] out@[j]).0@ == entries@[j].name@ && out@[j].1
                    == entries@[j].meta.kind,
        decreases entries@.len() - i,
    {
        out.push((entries[i].name.clone(), entries[i].meta.kind));
        i = i + 1;
    }
    out
}

/// A capability; `Unknown` where it cannot be told before connecting.
#[derive(Clone, Copy, Debug, PartialEq, Eq, Structural)]
pub enum Support {
    Yes,
    No,
    Unknown,
}

impl Support {
    pub fn yes(self) -> (r: bool)
        ensures
            r == (self == Support::Yes),
    {
        self == Support::Yes
    }

    /// `No` where something is missing, else `Yes`.
    pub open spec fn unless_spec(missing: bool) -> Support {
        if missing {
            Support::No
        } else {
            Support::Yes
        }
    }

    pub fn unless(missing: bool) -> (r: Support)
        ensures
            r == Support::unless_spec(missing),
    {
        if missing {
            Support::No
        } else {
            Support::Yes
        }
    }
}

#[derive(Clone, Copy, Debug, PartialEq, Eq, Structural)]
pub enum CaseSense {
    Sensitive,
    Insensitive,
    Unknown,
}

/// The kind of storage that a root sits on. A local path does not tell: a drive and a mounted
/// share look alike.
#[derive(Clone, Copy, Debug, PartialEq, Eq, Structural)]
pub enum Medium {
    FixedDisk,
    RemovableDisk,
    /// Reached over a network.
    NetworkShare,
    /// Not to be told. Nothing is assumed of it, least of all that it is local.
    Unknown,
}

impl Medium {
    pub open spec fn text(self) -> Seq<char> {
        match self {
            Medium::FixedDisk => "fixed disk"@,
            Medium::RemovableDisk => "removable disk"@,
            Medium::NetworkShare => "network share"@,
            Medium::Unknown => "unknown"@,
        }
    }

    pub fn as_str(self) -> (r: &'static str)
        ensures
            r@ == self.text(),
    {
        match self {
            Medium::FixedDisk => "fixed disk",
            Medium::RemovableDisk => "removable disk",
            Medium::NetworkShare => "network share",
            Medium::Unknown => "unknown",
        }
    }
}

/// The naming rules that a write to a root is subject to. They belong to the path layer that the
/// write goes through, not to the machine at the far end.
#[derive(Clone, Copy, Debug, PartialEq, Eq, Structural)]
pub enum NameRules {
    /// Device names are reserved; no `< > : " | ? *`; no dot or space at the end.
    Windows,
    /// Anything but `/` and NUL.
    Posix,
    /// Not to be known from here.
    Unknown,
}

impl NameRules {
    pub open spec fn text(self) -> Seq<char> {
        match self {
            NameRules::Windows => "windows"@,
            NameRules::Posix => "posix"@,
            NameRules::Unknown => "unknown"@,
        }
    }

    pub open spec fn named(s: Seq<char>) -> NameRules {
        if s == "windows"@ {
            NameRules::Windows
        } else if s == "posix"@ {
            NameRules::Posix
        } else {
            NameRules::Unknown
        }
    }

    pub fn as_str(self) -> (r: &'static str)
        ensures
            r@ == self.text(),
    {
        match self {
            NameRules::Windows => "windows",
            NameRules::Posix => "posix",
            NameRules::Unknown => "unknown",
        }
    }

    pub fn parse(s: &str) -> (r: NameRules)
        ensures
            r == NameRules::named(s@),
    {
        if same(s, "windows") {
            NameRules::Windows
        } else if same(s, "posix") {
            NameRules::Posix
        } else {
            NameRules::Unknown
        }
    }

    /// The rules of a root that is reached through this process's own path layer.
    pub fn host(windows: bool) -> (r: NameRules)
        ensures
            r == if windows {
                NameRules::Windows
            } else {
                NameRules::Posix
            },
    {
        if windows {
            NameRules::Windows
        } else {
            NameRules::Posix
        }
    }
}

/// The name of a rule set reads back as that rule set.
pub proof fn name_rules_read_back(r: NameRules)
    ensures
        NameRules::named(r.text()) == r,
{
    reveal_strlit("windows");
    reveal_strlit("posix");
    reveal_strlit("unknown");
    assert("windows"@[0] == 'w');
    assert("posix"@[0] == 'p');
    assert("unknown"@[0] == 'u');
}

/// What a backend can do. Authoritative only once connected.
#[derive(Debug)]
pub struct VfsCaps {
    pub protocol: &'static str,
    /// Granularity of stored modification times.
    pub mtime_precision_ms: u32,
    pub set_mtime: Support,
    pub fsync: Support,
    pub rename: Support,
    /// `No`: the destination has to be cleared before a rename.
    pub rename_overwrite: Support,
    pub ranged_read: Support,
    pub write_at: Support,
    pub unix_mode: Support,
    pub symlink: Support,
    pub file_id: Support,
    pub free_space: Support,
    /// Reading the staged file again before it is committed.
    pub read_back: Support,
    pub medium: Medium,
    /// The central trash may take this root's deletions. `false` means that keeping them there
    /// would copy the bytes off the root.
    pub local_trash: bool,
    pub case_sensitivity: CaseSense,
    pub name_rules: NameRules,
    /// How many streams at once the backend is comfortable with.
    pub max_parallel_streams: usize,
}

/// What a staged write is about to be.
#[derive(Clone, Copy, Debug)]
pub struct WriteHint {
    pub size_hint: Option<u64>,
    pub mtime_ms: Option<i64>,
    pub mode: Option<u32>,
}

impl Default for WriteHint {
    fn default() -> (r: WriteHint)
        ensures
            r == (WriteHint { size_hint: None, mtime_ms: None, mode: None }),
    {
        WriteHint { size_hint: None, mtime_ms: None, mode: None }
    }
}

/// What a commit did. A time or a mode that did not stick is told here.
#[derive(Debug)]
pub struct CommitReport {
    /// The modification time seen on the final file.
    pub mtime_ondisk_ms: Option<i64>,
    pub mtime_error: Option<VfsError>,
    pub mode_error: Option<VfsError>,
}

/// A file of the root `R`, being read.
pub trait ReadStream<R> {
    /// The next bytes, at most `max`; none at the end.
    fn read(&mut self, root: &mut R, max: usize) -> VfsResult<Vec<u8>>;

    /// The chunk size that the backend prefers.
    fn block_size(&self) -> usize;
}

/// A write to the root `R` that nobody sees before it is committed. One that is dropped leaves
/// nothing behind.
pub trait WriteStaged<R>: Sized {
    /// What the staged content is read back through.
    type Back;

    fn write(&mut self, root: &mut R, buf: &[u8]) -> VfsResult<()>;

    fn block_size(&self) -> usize;

    /// Only where the root's `write_at` says yes.
    fn write_at(&mut self, root: &mut R, off: u64, buf: &[u8]) -> VfsResult<()>
        requires
            off + buf@.len() <= usize::MAX,
    ;

    fn seal(&mut self, fsync: bool) -> VfsResult<()>;

    /// The bytes that the backend holds for the staged file.
    fn staged_len(&self) -> VfsResult<u64>;

    /// Only where the root's `read_back` says yes.
    fn open_staged_read(&self) -> VfsResult<Self::Back>;

    fn commit(self, root: &mut R) -> VfsResult<CommitReport>;
}

/// One sync root on some filesystem.
pub trait Vfs: Sized {
    type Read;

    type Staged;

    fn caps(&self) -> VfsCaps;

    /// For headers, logs and the interface.
    fn display(&self) -> String;

    /// What caches and locks hang off.
    fn identity(&self) -> String;

    /// Connects and authenticates, unless that is done.
    fn connect(&mut self) -> VfsResult<()>;

    /// Never follows links. `Ok(None)` is a confirmed absence.
    fn stat(&mut self, rel: &str) -> VfsResult<Option<VMeta>>;

    /// One directory level.
    fn read_dir(&mut self, rel: &str) -> VfsResult<Vec<VDirEntry>>;

    fn open_read(&mut self, rel: &str) -> VfsResult<Self::Read>;

    /// `len` bytes at `off`, fewer only at the end.
    fn read_range(&mut self, rel: &str, off: u64, len: u32) -> VfsResult<Vec<u8>>;

    fn read_link(&mut self, rel: &str) -> VfsResult<String>;

    fn mkdir_all(&mut self, rel: &str) -> VfsResult<()>;

    fn open_write(&mut self, rel: &str, hint: &WriteHint) -> VfsResult<Self::Staged>;

    fn rename(&mut self, from_rel: &str, to_rel: &str) -> VfsResult<()>;

    fn remove_file(&mut self, rel: &str) -> VfsResult<()>;

    /// Empty directories only.
    fn remove_dir(&mut self, rel: &str) -> VfsResult<()>;

    fn set_mtime(&mut self, rel: &str, mtime_ms: i64) -> VfsResult<()>;

    fn set_mode(&mut self, rel: &str, mode: u32) -> VfsResult<()>;

    fn make_symlink(&mut self, rel: &str, target: &str) -> VfsResult<()>;

    /// Free and total bytes; `Ok(None)` where that cannot be told.
    fn free_space(&mut self) -> VfsResult<Option<(u64, u64)>>;
}

/// What a backend authenticates with.
pub struct Credentials {
    pub password: Option<String>,
    pub keyfile: Option<String>,
    pub passphrase: Option<String>,
    pub use_agent: bool,
    /// The phrase asked for it. Never a fallback.
    pub anonymous: bool,
}

/// Where credentials come from.
pub trait CredentialProvider {
    fn credentials_for(&self, spec: &RemoteSpec) -> VfsResult<Credentials>;
}

/// The backend that a root phrase is served by.
pub enum Backend {
    Local(LocalVfs),
    Smb(SmbBackend),
    Sftp(SftpBackend),
    Ftp(FtpBackend),
    /// A filesystem in memory, by its phrase.
    Fake(String),
}

pub open spec fn unknown_scheme_text(scheme: Seq<char>, raw: Seq<char>) -> Seq<char> {
    "unknown scheme '"@ + scheme + "://' in '"@ + raw
        + "' — refusing to treat it as a local path; known schemes: "@ + "sftp, ftp, ftps, smb"@
}

/// Routes a root phrase to its backend. A scheme that is not known is refused and never read as a local
/// path.
pub fn open(phrase: &str, os: Os) -> (r: VfsResult<Backend>)
    ensures
        match root_of(phrase@) {
            RootModel::Local(p) => r matches Ok(Backend::Local(l)) && l.root@ == p && l.os == os && l.vol is None,
            RootModel::Fake(p) => r matches Ok(Backend::Fake(x)) && x@ == p,
            RootModel::UnknownScheme { raw, scheme } => r matches Err(e) && is_error(
                e,
                VfsErrorKind::Unsupported,
                unknown_scheme_text(scheme, raw),
            ),
            RootModel::Remote(m) => if m.scheme == "smb"@ {
                if share_of(m.root).len() == 0 {
                    r matches Err(e) && is_error(e, VfsErrorKind::Protocol, no_share_text(m.shown()))
                } else {
                    r matches Ok(Backend::Smb(b)) && b.spec@ == m && b.share@ == share_of(m.root) && b.sub@
                        == sub_of(m.root) && b.os == os && b.inner is None
                }
            } else if m.scheme == "sftp"@ {
                r matches Ok(Backend::Sftp(b)) && b.spec@ == m && b.timeout_secs == timeout_of(
                    m.option("timeout"@),
                ) && b.root_abs is None && b.server_line is None
            } else {
                r matches Ok(Backend::Ftp(b)) && b.spec@ == m && b.timeout_secs == timeout_of(
                    m.option("timeout"@),
                ) && !b.connected && b.feats is None
            },
        },
{
    match parse(phrase) {
        RootSpec::Local(p) => Ok(Backend::Local(LocalVfs::new(p.as_str(), os))),
        RootSpec::Fake(p) => Ok(Backend::Fake(p)),
        RootSpec::UnknownScheme { raw, scheme } => {
            let mut s = "unknown scheme '".to_owned();
            s.append(scheme.as_str());
            s.append("://' in '");
            s.append(raw.as_str());
            s.append("' — refusing to treat it as a local path; known schemes: ");
            s.append("sftp, ftp, ftps, smb");
            Err(VfsError::new(VfsErrorKind::Unsupported, s.as_str()))
        },
        RootSpec::Remote(r) => {
            if same(r.scheme.as_str(), "smb") {
                match SmbBackend::new(r, os) {
                    Ok(b) => Ok(Backend::Smb(b)),
                    Err(e) => Err(e),
                }
            } else if same(r.scheme.as_str(), "sftp") {
                Ok(Backend::Sftp(SftpBackend::new(r)))
            } else {
                Ok(Backend::Ftp(FtpBackend::new(r)))
            }
        },
    }
}

/// A remote phrase always names one of the schemes that have a backend, so that it is never served by a
/// backend of another scheme.
pub proof fn remote_phrases_have_a_backend(phrase: Seq<char>)
    ensures
        root_of(phrase) matches RootModel::Remote(m) ==> known_schemes().contains(m.scheme),
{
    if root_of(phrase) is Remote {
        let s = root_of(phrase)->Remote_0.scheme;
        let k = known_schemes();
        assert(k[0] == "sftp"@ && k[1] == "ftp"@ && k[2] == "ftps"@ && k[3] == "smb"@);
        assert(crate::fs::vfs::spec::known_scheme(s));
    }
}

} // verus!
