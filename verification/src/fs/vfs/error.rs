//! The error taxonomy of the virtual filesystem.
//!
//! The distinction that carries the load is `Transient` against `NotFound`: a dropped
//! connection reported as "file gone" turns into a reverse delete on the next compare.
use vstd::prelude::*;

verus! {

pub type VfsResult<T> = Result<T, VfsError>;

#[derive(Clone, Copy, Debug, PartialEq, Eq, Structural)]
pub enum VfsErrorKind {
    /// Confirmed absent, never a guess.
    NotFound,
    /// Network, timeout or connection failure. Can be tried again.
    Transient,
    /// Credentials missing or rejected. A hard stop.
    Auth,
    PermissionDenied,
    /// The backend does not have this capability.
    Unsupported,
    /// A directory to be removed holds something.
    NotEmpty,
    /// A rename was refused because its destination exists.
    AlreadyExists,
    /// A rename crossed a volume boundary.
    CrossDevice,
    /// The server answered with an error code: the connection itself is fine.
    Protocol,
    /// Cooperative cancel.
    Cancelled,
    /// A local failure that fits none of the above.
    Io,
}

/// What the operating system's failures are told apart by.
#[derive(Clone, Copy, Debug, PartialEq, Eq, Structural)]
pub enum IoKind {
    NotFound,
    PermissionDenied,
    AlreadyExists,
    CrossesDevices,
    Unsupported,
    DirectoryNotEmpty,
    Interrupted,
    ReadOnlyFilesystem,
    StaleNetworkFileHandle,
    TimedOut,
    ConnectionReset,
    ConnectionAborted,
    BrokenPipe,
    ConnectionRefused,
    HostUnreachable,
    NetworkUnreachable,
    NetworkDown,
    InvalidData,
    InvalidInput,
    WouldBlock,
    /// Everything else, and what the standard library gives no kind of its own.
    Other,
}

/// A failed call into the operating system.
#[derive(Debug)]
pub struct IoFailure {
    pub kind: IoKind,
    /// The system's own error number, where the failure came from it.
    pub raw: Option<i32>,
    pub message: String,
}

/// A failed call over its text.
pub struct FailureModel {
    pub kind: IoKind,
    pub raw: Option<i32>,
    pub message: Seq<char>,
}

impl View for IoFailure {
    type V = FailureModel;

    open spec fn view(&self) -> FailureModel {
        FailureModel { kind: self.kind, raw: self.raw, message: self.message@ }
    }
}

/// Whose error numbers a failure carries.
#[derive(Clone, Copy, Debug, PartialEq, Eq, Structural)]
pub enum Os {
    Windows,
    Macos,
    Unix,
}

/// The error numbers of a unix that are classified by number.
#[derive(Clone, Copy, Debug, PartialEq, Eq, Structural)]
pub struct Errnos {
    pub exdev: i32,
    pub enotsup: i32,
    pub eopnotsupp: i32,
    pub enosys: i32,
}

#[derive(Debug)]
pub struct VfsError {
    pub kind: VfsErrorKind,
    /// What happened, in words: protocol, host, path, the server's own text.
    pub detail: String,
    pub source: Option<IoFailure>,
}

/// An error of that kind in those words.
pub open spec fn is_error(e: VfsError, kind: VfsErrorKind, detail: Seq<char>) -> bool {
    e.kind == kind && e.detail@ == detail && e.source is None
}

/// The error number alone decides: the kind it stands for, and the words that explain it.
pub open spec fn numbered(os: Os, errnos: Errnos, raw: i32) -> Option<(VfsErrorKind, Seq<char>)> {
    match os {
        Os::Windows => if raw == 17 {
            Some((VfsErrorKind::CrossDevice, " — source and destination are on different volumes"@))
        } else if raw == 32 {
            Some(
                (
                    VfsErrorKind::Transient,
                    " — file is open in another program (sharing violation); it will be retried on the next run"@,
                ),
            )
        } else if raw == 33 {
            Some(
                (
                    VfsErrorKind::Transient,
                    " — a byte range of the file is locked by another program; it will be retried on the next run"@,
                ),
            )
        } else if raw == 1314 {
            Some(
                (
                    VfsErrorKind::PermissionDenied,
                    " — creating symlinks needs Windows Developer Mode or an elevated process (SeCreateSymbolicLinkPrivilege)"@,
                ),
            )
        } else {
            None
        },
        _ => if raw == errnos.exdev {
            Some((VfsErrorKind::CrossDevice, ""@))
        } else if raw == errnos.enotsup || raw == errnos.eopnotsupp || raw == errnos.enosys {
            Some((VfsErrorKind::Unsupported, ""@))
        } else if os == Os::Macos && raw == 70 {
            Some(
                (
                    VfsErrorKind::Transient,
                    " — the network volume was remounted and this handle is stale; it will be retried on the next run"@,
                ),
            )
        } else if os == Os::Macos && raw == 1 {
            Some(
                (
                    VfsErrorKind::PermissionDenied,
                    " — not permitted: the file may be locked (chflags uchg), owned by another user, or the app may need Full Disk Access in System Settings > Privacy & Security"@,
                ),
            )
        } else {
            None
        },
    }
}

fn number_class(os: Os, errnos: Errnos, raw: i32) -> (r: Option<(VfsErrorKind, &'static str)>)
    ensures
        match r {
            Some((kind, hint)) => numbered(os, errnos, raw) == Some((kind, hint@)),
            None => numbered(os, errnos, raw) is None,
        },
{
    match os {
        Os::Windows => if raw == 17 {
            Some((VfsErrorKind::CrossDevice, " — source and destination are on different volumes"))
        } else if raw == 32 {
            Some(
                (
                    VfsErrorKind::Transient,
                    " — file is open in another program (sharing violation); it will be retried on the next run",
                ),
            )
        } else if raw == 33 {
            Some(
                (
                    VfsErrorKind::Transient,
                    " — a byte range of the file is locked by another program; it will be retried on the next run",
                ),
            )
        } else if raw == 1314 {
            Some(
                (
                    VfsErrorKind::PermissionDenied,
                    " — creating symlinks needs Windows Developer Mode or an elevated process (SeCreateSymbolicLinkPrivilege)",
                ),
            )
        } else {
            None
        },
        _ => if raw == errnos.exdev {
            Some((VfsErrorKind::CrossDevice, ""))
        } else if raw == errnos.enotsup || raw == errnos.eopnotsupp || raw == errnos.enosys {
            Some((VfsErrorKind::Unsupported, ""))
        } else if os == Os::Macos && raw == 70 {
            Some(
                (
                    VfsErrorKind::Transient,
                    " — the network volume was remounted and this handle is stale; it will be retried on the next run",
                ),
            )
        } else if os == Os::Macos && raw == 1 {
            Some(
                (
                    VfsErrorKind::PermissionDenied,
                    " — not permitted: the file may be locked (chflags uchg), owned by another user, or the app may need Full Disk Access in System Settings > Privacy & Security",
                ),
            )
        } else {
            None
        },
    }
}

/// What an operating system kind stands for.
pub open spec fn from_kind(k: IoKind) -> VfsErrorKind {
    match k {
        IoKind::NotFound => VfsErrorKind::NotFound,
        IoKind::PermissionDenied | IoKind::ReadOnlyFilesystem => VfsErrorKind::PermissionDenied,
        IoKind::AlreadyExists => VfsErrorKind::AlreadyExists,
        IoKind::CrossesDevices => VfsErrorKind::CrossDevice,
        IoKind::Unsupported => VfsErrorKind::Unsupported,
        IoKind::DirectoryNotEmpty => VfsErrorKind::NotEmpty,
        IoKind::Interrupted => VfsErrorKind::Cancelled,
        IoKind::StaleNetworkFileHandle
        | IoKind::TimedOut
        | IoKind::ConnectionReset
        | IoKind::ConnectionAborted
        | IoKind::BrokenPipe
        | IoKind::ConnectionRefused
        | IoKind::HostUnreachable
        | IoKind::NetworkUnreachable
        | IoKind::NetworkDown => VfsErrorKind::Transient,
        IoKind::InvalidData | IoKind::InvalidInput | IoKind::WouldBlock | IoKind::Other => VfsErrorKind::Io,
    }
}

/// The operating system kind that stands for an error.
pub open spec fn to_kind(k: VfsErrorKind) -> IoKind {
    match k {
        VfsErrorKind::NotFound => IoKind::NotFound,
        VfsErrorKind::PermissionDenied | VfsErrorKind::Auth => IoKind::PermissionDenied,
        VfsErrorKind::AlreadyExists => IoKind::AlreadyExists,
        VfsErrorKind::CrossDevice => IoKind::CrossesDevices,
        VfsErrorKind::NotEmpty => IoKind::DirectoryNotEmpty,
        VfsErrorKind::Cancelled => IoKind::Interrupted,
        VfsErrorKind::Transient => IoKind::TimedOut,
        VfsErrorKind::Unsupported => IoKind::Unsupported,
        VfsErrorKind::Protocol | VfsErrorKind::Io => IoKind::Other,
    }
}

/// A kind's own name.
pub open spec fn kind_text(k: VfsErrorKind) -> Seq<char> {
    match k {
        VfsErrorKind::NotFound => "NotFound"@,
        VfsErrorKind::Transient => "Transient"@,
        VfsErrorKind::Auth => "Auth"@,
        VfsErrorKind::PermissionDenied => "PermissionDenied"@,
        VfsErrorKind::Unsupported => "Unsupported"@,
        VfsErrorKind::NotEmpty => "NotEmpty"@,
        VfsErrorKind::AlreadyExists => "AlreadyExists"@,
        VfsErrorKind::CrossDevice => "CrossDevice"@,
        VfsErrorKind::Protocol => "Protocol"@,
        VfsErrorKind::Cancelled => "Cancelled"@,
        VfsErrorKind::Io => "Io"@,
    }
}

impl VfsErrorKind {
    /// The name of the kind.
    pub fn name(self) -> (r: &'static str)
        ensures
            r@ == kind_text(self),
    {
        match self {
            VfsErrorKind::NotFound => "NotFound",
            VfsErrorKind::Transient => "Transient",
            VfsErrorKind::Auth => "Auth",
            VfsErrorKind::PermissionDenied => "PermissionDenied",
            VfsErrorKind::Unsupported => "Unsupported",
            VfsErrorKind::NotEmpty => "NotEmpty",
            VfsErrorKind::AlreadyExists => "AlreadyExists",
            VfsErrorKind::CrossDevice => "CrossDevice",
            VfsErrorKind::Protocol => "Protocol",
            VfsErrorKind::Cancelled => "Cancelled",
            VfsErrorKind::Io => "Io",
        }
    }
}

/// The classification of an operating system failure: by its number where that is known, else
/// by its kind.
pub open spec fn classified(e: IoFailure, os: Os, errnos: Errnos) -> (VfsErrorKind, Seq<char>) {
    match e.raw {
        Some(raw) => match numbered(os, errnos, raw) {
            Some((kind, hint)) => (kind, e.message@ + hint),
            None => (from_kind(e.kind), e.message@),
        },
        None => (from_kind(e.kind), e.message@),
    }
}

impl IoFailure {
    pub fn new(kind: IoKind, message: &str) -> (r: IoFailure)
        ensures
            r.kind == kind,
            r.raw is None,
            r.message@ == message@,
    {
        IoFailure { kind, raw: None, message: message.to_owned() }
    }
}

impl VfsError {
    pub fn new(kind: VfsErrorKind, detail: &str) -> (r: VfsError)
        ensures
            r.kind == kind,
            r.detail@ == detail@,
            r.source is None,
    {
        VfsError { kind, detail: detail.to_owned(), source: None }
    }

    pub fn unsupported(what: &str) -> (r: VfsError)
        ensures
            r.kind == VfsErrorKind::Unsupported,
            r.detail@ == what@,
            r.source is None,
    {
        VfsError::new(VfsErrorKind::Unsupported, what)
    }

    /// The kind and the detail as one line.
    pub fn message(&self) -> (r: String)
        ensures
            r@ == kind_text(self.kind) + ": "@ + self.detail@,
    {
        let mut m = self.kind.name().to_owned();
        m.append(": ");
        m.append(self.detail.as_str());
        m
    }

    /// A failure of the operating system, for everything that sits on local files. On a local
    /// filesystem "not found" really is confirmed absence, so the kinds map directly.
    pub fn from_io(e: IoFailure, os: Os, errnos: Errnos) -> (r: VfsError)
        ensures
            (r.kind, r.detail@) == classified(e, os, errnos),
            r.source == Some(e),
    {
        let known = match e.raw {
            Some(raw) => number_class(os, errnos, raw),
            None => None,
        };
        let mut detail = e.message.clone();
        match known {
            Some((kind, hint)) => {
                detail.append(hint);
                VfsError { kind, detail, source: Some(e) }
            },
            None => {
                let kind = match e.kind {
                    IoKind::NotFound => VfsErrorKind::NotFound,
                    IoKind::PermissionDenied => VfsErrorKind::PermissionDenied,
                    IoKind::AlreadyExists => VfsErrorKind::AlreadyExists,
                    IoKind::CrossesDevices => VfsErrorKind::CrossDevice,
                    IoKind::Unsupported => VfsErrorKind::Unsupported,
                    IoKind::DirectoryNotEmpty => VfsErrorKind::NotEmpty,
                    IoKind::Interrupted => VfsErrorKind::Cancelled,
                    // Every operation on a read-only volume fails the same way: a refusal.
                    IoKind::ReadOnlyFilesystem => VfsErrorKind::PermissionDenied,
                    IoKind::StaleNetworkFileHandle => VfsErrorKind::Transient,
                    IoKind::TimedOut
                    | IoKind::ConnectionReset
                    | IoKind::ConnectionAborted
                    | IoKind::BrokenPipe
                    | IoKind::ConnectionRefused
                    | IoKind::HostUnreachable
                    | IoKind::NetworkUnreachable
                    | IoKind::NetworkDown => VfsErrorKind::Transient,
                    _ => VfsErrorKind::Io,
                };
                VfsError { kind, detail, source: Some(e) }
            },
        }
    }

    /// The error as a failure of the operating system, its line as the message.
    pub fn to_io(&self) -> (r: IoFailure)
        ensures
            r.kind == to_kind(self.kind),
            r.raw is None,
            r.message@ == kind_text(self.kind) + ": "@ + self.detail@,
    {
        let kind = match self.kind {
            VfsErrorKind::NotFound => IoKind::NotFound,
            VfsErrorKind::PermissionDenied | VfsErrorKind::Auth => IoKind::PermissionDenied,
            VfsErrorKind::AlreadyExists => IoKind::AlreadyExists,
            VfsErrorKind::CrossDevice => IoKind::CrossesDevices,
            VfsErrorKind::NotEmpty => IoKind::DirectoryNotEmpty,
            VfsErrorKind::Cancelled => IoKind::Interrupted,
            VfsErrorKind::Transient => IoKind::TimedOut,
            VfsErrorKind::Unsupported => IoKind::Unsupported,
            VfsErrorKind::Protocol | VfsErrorKind::Io => IoKind::Other,
        };
        IoFailure { kind, raw: None, message: self.message() }
    }
}

/// The classification survives the way through the operating system's kinds and back. Only
/// refused credentials come back as a refusal, and a protocol error as a plain failure.
pub proof fn kinds_survive_the_round_trip(k: VfsErrorKind)
    requires
        k != VfsErrorKind::Auth,
        k != VfsErrorKind::Protocol,
    ensures
        from_kind(to_kind(k)) == k,
{
}

/// A failure counts as confirmed absence only where the operating system said so by kind: no error
/// number, and no trouble with a connection, is ever taken for it.
pub proof fn absence_is_never_guessed(e: IoFailure, os: Os, errnos: Errnos)
    requires
        classified(e, os, errnos).0 == VfsErrorKind::NotFound,
    ensures
        e.kind == IoKind::NotFound,
{
}

/// A file that another program holds, and a connection that broke, are worth another try; what is refused
/// for good is not.
pub proof fn what_is_worth_another_try(e: IoFailure, os: Os, errnos: Errnos)
    ensures
        e.raw is None && (e.kind == IoKind::TimedOut || e.kind == IoKind::ConnectionReset || e.kind
            == IoKind::ConnectionAborted || e.kind == IoKind::BrokenPipe || e.kind == IoKind::ConnectionRefused
            || e.kind == IoKind::HostUnreachable || e.kind == IoKind::NetworkUnreachable || e.kind
            == IoKind::NetworkDown || e.kind == IoKind::StaleNetworkFileHandle) ==> classified(
            e,
            os,
            errnos,
        ).0 == VfsErrorKind::Transient,
        os == Os::Windows && (e.raw == Some(32i32) || e.raw == Some(33i32)) ==> classified(e, os, errnos).0
            == VfsErrorKind::Transient,
        os == Os::Macos && e.raw == Some(70i32) && e.raw != Some(errnos.exdev) && e.raw != Some(
            errnos.enotsup,
        ) && e.raw != Some(errnos.eopnotsupp) && e.raw != Some(errnos.enosys) ==> classified(e, os, errnos).0
            == VfsErrorKind::Transient,
        e.raw is None && (e.kind == IoKind::PermissionDenied || e.kind == IoKind::ReadOnlyFilesystem)
            ==> classified(e, os, errnos).0 == VfsErrorKind::PermissionDenied,
        e.raw is None && (e.kind == IoKind::InvalidData || e.kind == IoKind::InvalidInput || e.kind
            == IoKind::Other) ==> classified(e, os, errnos).0 == VfsErrorKind::Io,
        e.raw is None && e.kind == IoKind::NotFound ==> classified(e, os, errnos).0 == VfsErrorKind::NotFound,
        e.raw is None && e.kind == IoKind::DirectoryNotEmpty ==> classified(e, os, errnos).0
            == VfsErrorKind::NotEmpty,
        e.raw is None && e.kind == IoKind::AlreadyExists ==> classified(e, os, errnos).0
            == VfsErrorKind::AlreadyExists,
{
}

/// A rename across volumes is told by its number on every system.
pub proof fn crossing_volumes_is_told_by_its_number(e: IoFailure, os: Os, errnos: Errnos)
    ensures
        os == Os::Windows && e.raw == Some(17i32) ==> classified(e, os, errnos).0 == VfsErrorKind::CrossDevice,
        os != Os::Windows && e.raw == Some(errnos.exdev) ==> classified(e, os, errnos).0
            == VfsErrorKind::CrossDevice,
        os == Os::Windows && e.raw == Some(1314i32) ==> classified(e, os, errnos).0
            == VfsErrorKind::PermissionDenied,
{
}

/// Whatever the class, the words of the operating system come first.
pub proof fn the_systems_own_words_come_first(e: IoFailure, os: Os, errnos: Errnos)
    ensures
        e.message@.is_prefix_of(classified(e, os, errnos).1),
        e.raw is None ==> classified(e, os, errnos).1 == e.message@,
{
    let text = classified(e, os, errnos).1;
    assert(e.message@ =~= text.take(e.message@.len() as int));
}

} // verus!
