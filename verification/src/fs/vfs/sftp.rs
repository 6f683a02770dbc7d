//! The SFTP backend: what it asks of a server and what the answers mean.
//!
//! One session, one channel. A rename refuses an existing target. Times are set by path, in whole
//! seconds, after the handle is closed. The free space is never asked for. An absence is believed
//! only once the listing of the parent bears it out.
use vstd::prelude::*;
use vstd::utf8::is_ascii_chars;
use crate::foundation::text::ascii_lowered;
use crate::fs::ssh::{
    connect_error, connect_timeout, login_after, login_next, map_connect_err, HostCheckError, Login,
    LoginDeed, LoginModel, LoginNext, LoginNextModel, LoginReply,
};
use crate::fs::vfs::error::{is_error, kind_text, IoFailure, VfsError, VfsErrorKind, VfsResult};
use crate::fs::vfs::remote::{
    read_timeout, seconds_text, show_seconds, timeout_of, unconnected, unconnected_text,
};
use crate::fs::vfs::spec::RemoteSpec;
use crate::fs::vfs::{
    listed, CaseSense, Medium, MetaModel, NameRules, Support, VDirEntry, VMeta, VfsCaps,
};
use crate::strings::{chars_of, numeral, same, slice, text_of, texts, unslashed};
use crate::table::{copy_opt, opt_text, EntryKind};

verus! {

/// What a server says of a file.
#[derive(Clone, Copy, Debug, PartialEq, Eq, Structural)]
pub struct SftpAttrs {
    pub size: Option<u64>,
    /// Type and permission bits.
    pub permissions: Option<u32>,
    /// Seconds since the Unix epoch.
    pub mtime: Option<u32>,
}

/// All the bits of a type are set.
pub open spec fn typed(permissions: Option<u32>, bits: u32) -> bool {
    permissions matches Some(b) && b & bits == bits
}

/// `russh_sftp::protocol::FileAttributes::is_dir`, which looks at the permissions alone: the bit of a
/// directory is set.
#[verifier::external_body]
fn attrs_dir(permissions: Option<u32>) -> (r: bool)
    ensures
        r == typed(permissions, 0x4000),
{
    let a = russh_sftp::protocol::FileAttributes {
        size: None,
        uid: None,
        user: None,
        gid: None,
        group: None,
        permissions,
        atime: None,
        mtime: None,
    };
    a.is_dir()
}

/// `russh_sftp::protocol::FileAttributes::is_symlink`, which looks at the permissions alone: both bits
/// of a symlink are set.
#[verifier::external_body]
fn attrs_symlink(permissions: Option<u32>) -> (r: bool)
    ensures
        r == typed(permissions, 0xA000),
{
    let a = russh_sftp::protocol::FileAttributes {
        size: None,
        uid: None,
        user: None,
        gid: None,
        group: None,
        permissions,
        atime: None,
        mtime: None,
    };
    a.is_symlink()
}

pub open spec fn attrs_meta(a: SftpAttrs) -> MetaModel {
    MetaModel {
        kind: if typed(a.permissions, 0x4000) {
            EntryKind::Dir
        } else if typed(a.permissions, 0xA000) {
            EntryKind::Symlink
        } else {
            EntryKind::File
        },
        size: match a.size {
            Some(n) => n,
            None => 0,
        },
        mtime_ms: match a.mtime {
            Some(s) => (s * 1000) as i64,
            None => 0,
        },
        mode: match a.permissions {
            Some(p) => Some(p & 0o7777),
            None => None,
        },
        file_id: None,
        link: None,
    }
}

/// An entry as the server describes it. The protocol carries whole seconds.
pub fn meta_of(a: &SftpAttrs) -> (r: VMeta)
    ensures
        r@ == attrs_meta(*a),
{
    let kind = if attrs_dir(a.permissions) {
        EntryKind::Dir
    } else if attrs_symlink(a.permissions) {
        EntryKind::Symlink
    } else {
        EntryKind::File
    };
    VMeta {
        kind,
        size: match a.size {
            Some(n) => n,
            None => 0,
        },
        mtime_ms: match a.mtime {
            Some(s) => s as i64 * 1000,
            None => 0,
        },
        mode: match a.permissions {
            Some(p) => Some(p & 0o7777),
            None => None,
        },
        file_id: None,
        link: None,
    }
}

/// What the server's status says, as far as it matters.
#[derive(Clone, Copy, Debug, PartialEq, Eq, Structural)]
pub enum SftpStatus {
    NoSuchFile,
    PermissionDenied,
    Other,
}

/// Why the server did not do what it was asked.
pub enum SftpFault {
    /// The server answered with this status, named so, and this text.
    Status { status: SftpStatus, name: String, message: String },
    Timeout,
    Other(String),
}

/// What a fault means. Callers confirm an absence before they believe it.
pub open spec fn fault_error(what: Seq<char>, e: SftpFault) -> (VfsErrorKind, Seq<char>) {
    match e {
        SftpFault::Status { status, name, message } => (
            match status {
                SftpStatus::NoSuchFile => VfsErrorKind::NotFound,
                SftpStatus::PermissionDenied => VfsErrorKind::PermissionDenied,
                SftpStatus::Other => VfsErrorKind::Protocol,
            },
            what + ": server answered "@ + name@ + ": "@ + message@,
        ),
        SftpFault::Timeout => (VfsErrorKind::Transient, what + ": sftp request timed out"@),
        SftpFault::Other(t) => (VfsErrorKind::Transient, what + ": "@ + t@),
    }
}

pub fn map_sftp_err(what: &str, e: &SftpFault) -> (r: VfsError)
    ensures
        (r.kind, r.detail@) == fault_error(what@, *e),
        r.source is None,
{
    let mut s = what.to_owned();
    match e {
        SftpFault::Status { status, name, message } => {
            s.append(": server answered ");
            s.append(name.as_str());
            s.append(": ");
            s.append(message.as_str());
            let kind = match status {
                SftpStatus::NoSuchFile => VfsErrorKind::NotFound,
                SftpStatus::PermissionDenied => VfsErrorKind::PermissionDenied,
                SftpStatus::Other => VfsErrorKind::Protocol,
            };
            VfsError::new(kind, s.as_str())
        },
        SftpFault::Timeout => {
            s.append(": sftp request timed out");
            VfsError::new(VfsErrorKind::Transient, s.as_str())
        },
        SftpFault::Other(t) => {
            s.append(": ");
            s.append(t.as_str());
            VfsError::new(VfsErrorKind::Transient, s.as_str())
        },
    }
}

/// An SFTP root.
pub struct SftpBackend {
    pub spec: RemoteSpec,
    pub timeout_secs: u64,
    /// The root on the server, without a `/` at the end; known once connected.
    pub root_abs: Option<String>,
    pub server_line: Option<String>,
}

pub open spec fn sftp_caps(c: VfsCaps) -> bool {
    &&& c.protocol@ == "sftp"@
    &&& c.mtime_precision_ms == 1000
    &&& c.set_mtime == Support::Yes
    &&& c.fsync == Support::Unknown
    &&& c.rename == Support::Yes
    &&& c.rename_overwrite == Support::No
    &&& c.ranged_read == Support::Yes
    &&& c.write_at == Support::No
    &&& c.unix_mode == Support::Yes
    &&& c.symlink == Support::Yes
    &&& c.file_id == Support::No
    &&& c.free_space == Support::No
    &&& c.read_back == Support::Yes
    &&& c.medium == Medium::NetworkShare
    &&& !c.local_trash
    &&& c.case_sensitivity == CaseSense::Unknown
    &&& c.name_rules == NameRules::Unknown
    &&& c.max_parallel_streams == 4
}

/// The path of `rel` on the server.
pub open spec fn abs_of(root: Seq<char>, rel: Seq<char>) -> Seq<char> {
    if rel.len() == 0 {
        root
    } else {
        root + "/"@ + rel
    }
}

impl SftpBackend {
    pub fn new(spec: RemoteSpec) -> (r: SftpBackend)
        ensures
            r.spec == spec,
            r.timeout_secs == timeout_of(spec@.option("timeout"@)),
            r.root_abs is None,
            r.server_line is None,
    {
        let timeout_secs = read_timeout(&spec);
        SftpBackend { spec, timeout_secs, root_abs: None, server_line: None }
    }

    pub fn caps(&self) -> (r: VfsCaps)
        ensures
            sftp_caps(r),
    {
        VfsCaps {
            protocol: "sftp",
            mtime_precision_ms: 1000,
            set_mtime: Support::Yes,
            fsync: Support::Unknown,
            rename: Support::Yes,
            rename_overwrite: Support::No,
            ranged_read: Support::Yes,
            write_at: Support::No,
            unix_mode: Support::Yes,
            symlink: Support::Yes,
            file_id: Support::No,
            free_space: Support::No,
            read_back: Support::Yes,
            medium: Medium::NetworkShare,
            local_trash: false,
            case_sensitivity: CaseSense::Unknown,
            name_rules: NameRules::Unknown,
            max_parallel_streams: 4,
        }
    }

    pub fn display(&self) -> (r: String)
        ensures
            r@ == self.spec@.shown(),
    {
        self.spec.display()
    }

    pub fn identity(&self) -> (r: String)
        ensures
            r@ == self.spec@.canonical(),
            is_ascii_chars(self.spec.host@) ==> r@ == self.spec@.canonical_at(
                ascii_lowered(self.spec.host@),
            ),
    {
        self.spec.identity()
    }

    /// One line about the server, once it is known.
    pub fn server_info(&self) -> (r: Option<String>)
        ensures
            opt_text(r) == opt_text(self.server_line),
    {
        copy_opt(&self.server_line)
    }

    /// The path of `rel` on the server. Nothing can be asked before the root is connected.
    pub fn abs(&self, rel: &str) -> (r: VfsResult<String>)
        ensures
            match self.root_abs {
                Some(root) => r matches Ok(p) && p@ == abs_of(root@, rel@),
                None => r matches Err(e) && is_error(
                    e,
                    VfsErrorKind::Transient,
                    unconnected_text(self.spec@.shown()),
                ),
            },
    {
        match &self.root_abs {
            Some(root) => {
                let mut s = root.clone();
                if rel.unicode_len() > 0 {
                    s.append("/");
                    s.append(rel);
                }
                Ok(s)
            },
            None => Err(unconnected(self.spec.display().as_str())),
        }
    }

    pub open spec fn timeout_text(self, what: Seq<char>) -> Seq<char> {
        what + " timed out after "@ + seconds_text(self.timeout_secs) + " on '"@ + self.spec@.shown()
            + "'"@
    }

    /// An operation took too long. That is trouble with the connection, and says nothing of the file.
    pub fn timed_out(&self, what: &str) -> (r: VfsError)
        ensures
            is_error(r, VfsErrorKind::Transient, self.timeout_text(what@)),
    {
        let mut s = what.to_owned();
        s.append(" timed out after ");
        s.append(show_seconds(self.timeout_secs).as_str());
        s.append(" on '");
        s.append(self.spec.display().as_str());
        s.append("'");
        VfsError::new(VfsErrorKind::Transient, s.as_str())
    }

    /// Never asked for: the question breaks the sessions of some servers.
    pub fn free_space(&self) -> (r: VfsResult<Option<(u64, u64)>>)
        ensures
            r matches Ok(x) && x is None,
    {
        Ok(None)
    }
}

/// What a server's word that a path is missing comes to, once its parent was listed.
pub open spec fn absence_error(rel: Seq<char>, name: Seq<char>, listing: VfsResult<Vec<String>>) -> Option<
    Seq<char>,
> {
    match listing {
        Ok(names) => if texts(names@).contains(name) {
            Some(
                "the server reported '"@ + rel
                    + "' missing but its parent still lists it — treating as a temporary fault, not a deletion"@,
            )
        } else {
            None
        },
        Err(e) => if e.kind == VfsErrorKind::NotFound {
            None
        } else {
            Some(
                "cannot confirm '"@ + rel + "' is really absent (parent listing failed: "@ + kind_text(
                    e.kind,
                ) + ": "@ + e.detail@ + ")"@,
            )
        },
    }
}

fn names_entry(names: &Vec<String>, name: &str) -> (r: bool)
    ensures
        r == texts(names@).contains(name@),
{
    let ghost all = texts(names@);
    let mut i: usize = 0;
    while i < names.len()
        invariant
            i <= names@.len(),
            all == texts(names@),
            forall|j: int| 0 <= j < i ==> #[trigger] all[j] != name@,
        decreases names@.len() - i,
    {
        if same(names[i].as_str(), name) {
            assert(all[i as int] == name@);
            return true;
        }
        i = i + 1;
    }
    false
}

/// Believes that `rel` is absent only if its parent does not list its name, or is absent itself.
pub fn confirm_absent(rel: &str, name: &str, listing: VfsResult<Vec<String>>) -> (r: VfsResult<()>)
    ensures
        match absence_error(rel@, name@, listing) {
            None => r is Ok,
            Some(t) => r matches Err(e) && is_error(e, VfsErrorKind::Transient, t),
        },
{
    match listing {
        Ok(names) => {
            if names_entry(&names, name) {
                let mut s = "the server reported '".to_owned();
                s.append(rel);
                s.append(
                    "' missing but its parent still lists it — treating as a temporary fault, not a deletion",
                );
                return Err(VfsError::new(VfsErrorKind::Transient, s.as_str()));
            }
            Ok(())
        },
        Err(e) => {
            if e.kind == VfsErrorKind::NotFound {
                return Ok(());
            }
            let mut s = "cannot confirm '".to_owned();
            s.append(rel);
            s.append("' is really absent (parent listing failed: ");
            let kind = e.kind.name();
            s.append(kind);
            s.append(": ");
            s.append(e.detail.as_str());
            s.append(")");
            Err(VfsError::new(VfsErrorKind::Transient, s.as_str()))
        },
    }
}

pub enum StatNext {
    Over(VfsResult<Option<VMeta>>),
    /// The parent is to be listed, for `confirm_absent`.
    Confirm,
}

/// What the server's answer about `rel` comes to. Only of the root is an absence believed at once.
pub fn weigh_stat(rel: &str, reply: VfsResult<SftpAttrs>) -> (r: StatNext)
    ensures
        match reply {
            Ok(a) => r matches StatNext::Over(Ok(Some(m))) && m@ == attrs_meta(a),
            Err(e) => if e.kind != VfsErrorKind::NotFound {
                r matches StatNext::Over(Err(x)) && x == e
            } else if rel@.len() == 0 {
                r matches StatNext::Over(Ok(m)) && m is None
            } else {
                r is Confirm
            },
        },
{
    match reply {
        Ok(a) => StatNext::Over(Ok(Some(meta_of(&a)))),
        Err(e) => {
            if e.kind != VfsErrorKind::NotFound {
                StatNext::Over(Err(e))
            } else if rel.unicode_len() == 0 {
                StatNext::Over(Ok(None))
            } else {
                StatNext::Confirm
            }
        },
    }
}

/// A path counts as absent only if its parent was listed without it, or is absent too.
pub proof fn absence_is_confirmed(rel: Seq<char>, name: Seq<char>, listing: VfsResult<Vec<String>>)
    requires
        absence_error(rel, name, listing) is None,
    ensures
        match listing {
            Ok(names) => !texts(names@).contains(name),
            Err(e) => e.kind == VfsErrorKind::NotFound,
        },
{
}

/// The entries of a listing, without the directory itself and its parent.
pub open spec fn kept(found: Seq<(String, SftpAttrs)>) -> Seq<(Seq<char>, MetaModel)>
    decreases found.len(),
{
    if found.len() == 0 {
        Seq::empty()
    } else {
        let rest = kept(found.drop_last());
        let (name, attrs) = found.last();
        if name@ == "."@ || name@ == ".."@ {
            rest
        } else {
            rest.push((name@, attrs_meta(attrs)))
        }
    }
}

pub fn dir_entries(found: &Vec<(String, SftpAttrs)>) -> (r: Vec<VDirEntry>)
    ensures
        listed(r@) == kept(found@),
{
    let mut out: Vec<VDirEntry> = Vec::new();
    let mut i: usize = 0;
    assert(found@.take(0) =~= Seq::<(String, SftpAttrs)>::empty());
    assert(listed(out@) =~= kept(found@.take(0)));
    while i < found.len()
        invariant
            i <= found@.len(),
            listed(out@) == kept(found@.take(i as int)),
        decreases found@.len() - i,
    {
        assert(found@.take(i as int + 1).drop_last() =~= found@.take(i as int));
        let name = &found[i].0;
        if !same(name.as_str(), ".") && !same(name.as_str(), "..") {
            let e = VDirEntry { name: name.clone(), meta: meta_of(&found[i].1) };
            assert(listed(out@.push(e)) =~= listed(out@).push(e@));
            out.push(e);
        }
        i = i + 1;
    }
    assert(found@.take(found@.len() as int) =~= found@);
    out
}

/// A directory that could not be made is no trouble if it is there: the protocol has no word for that.
/// `found` is what stands at the path.
pub fn weigh_mkdir(e: VfsError, found: VfsResult<Option<VMeta>>) -> (r: VfsResult<()>)
    ensures
        match found {
            Err(x) => r matches Err(y) && y == x,
            Ok(m) => if m matches Some(d) && d.kind == EntryKind::Dir {
                r is Ok
            } else {
                r matches Err(y) && y == e
            },
        },
{
    match found {
        Err(x) => Err(x),
        Ok(m) => {
            if let Some(d) = m {
                if d.kind == EntryKind::Dir {
                    return Ok(());
                }
            }
            Err(e)
        },
    }
}

/// What a refused removal of a directory means: whether it is empty is found out by looking. `left` is
/// how many entries a listing showed, `None` where there was none.
pub fn weigh_rmdir(e: VfsError, left: Option<usize>, rel: &str) -> (r: VfsError)
    ensures
        if e.kind == VfsErrorKind::Protocol && (left matches Some(n) && n > 0) {
            is_error(r, VfsErrorKind::NotEmpty, "directory not empty: "@ + rel@)
        } else {
            r == e
        },
{
    if e.kind == VfsErrorKind::Protocol {
        if let Some(n) = left {
            if n > 0 {
                let mut s = "directory not empty: ".to_owned();
                s.append(rel);
                return VfsError::new(VfsErrorKind::NotEmpty, s.as_str());
            }
        }
    }
    e
}

/// Whole seconds, towards zero.
pub open spec fn seconds_of(ms: i64) -> int {
    if ms >= 0 {
        ms as int / 1000
    } else {
        -((-ms) / 1000)
    }
}

/// The seconds that are sent to set a time: 32 bits, as the protocol has it.
pub fn mtime_secs(mtime_ms: i64) -> (r: u32)
    ensures
        r == seconds_of(mtime_ms) as u32,
{
    let secs: i64 = if mtime_ms >= 0 {
        mtime_ms / 1000
    } else {
        let wide: i128 = -(mtime_ms as i128) / 1000;
        (-wide) as i64
    };
    assert(secs == seconds_of(mtime_ms));
    #[verifier::truncate]
    (secs as u32)
}

/// What connecting is waiting for.
pub enum SftpDeed {
    Credentials,
    /// Connect and let the host key be judged.
    Reach,
    Login(LoginDeed),
    Channel,
    Subsystem,
    Handshake,
    /// Ask where the user's own directory is.
    Home,
}

/// What came of it.
pub enum SftpReply {
    Done,
    /// What is stored for the server.
    Stored { keyfile: Option<String>, has_password: bool },
    /// Connected; these of the default keys exist.
    Reached { existing: Vec<String> },
    Host(HostCheckError),
    TimedOut,
    Attempt(LoginReply),
    /// The failure in words.
    Broke(String),
    Fault(SftpFault),
    Path(String),
    Failed(VfsError),
}

pub enum SftpNext {
    Do(SftpDeed),
    Connected,
    Refused(VfsError),
}

/// A connection that is being made.
pub struct SftpConnect {
    pub keyfile: Option<String>,
    pub has_password: bool,
    pub login: Option<Login>,
}

pub enum SftpNextModel {
    Do(SftpDeed),
    Connected,
    Refused(VfsErrorKind, Seq<char>, Option<IoFailure>),
}

impl View for SftpNext {
    type V = SftpNextModel;

    open spec fn view(&self) -> SftpNextModel {
        match *self {
            SftpNext::Do(d) => SftpNextModel::Do(d),
            SftpNext::Connected => SftpNextModel::Connected,
            SftpNext::Refused(e) => SftpNextModel::Refused(e.kind, e.detail@, e.source),
        }
    }
}

/// The reply is one that the deed can have.
pub open spec fn sftp_answers(deed: SftpDeed, reply: SftpReply) -> bool {
    match deed {
        SftpDeed::Credentials => reply is Stored || reply is Failed,
        SftpDeed::Reach => reply is Reached || reply is Host || reply is TimedOut,
        SftpDeed::Login(d) => reply matches SftpReply::Attempt(a) && (d == LoginDeed::Password ==> !(
        a is Unreadable)),
        SftpDeed::Channel | SftpDeed::Subsystem | SftpDeed::Handshake => reply is Done || reply is Broke,
        SftpDeed::Home => reply is Path || reply is Fault,
    }
}

/// A deed is open only while what it needs is there.
pub open spec fn deed_ready(c: SftpConnect, deed: SftpDeed) -> bool {
    match deed {
        SftpDeed::Login(d) => c.login matches Some(l) && (d == LoginDeed::Key ==> l.at < l.keys@.len()),
        SftpDeed::Channel | SftpDeed::Subsystem | SftpDeed::Handshake | SftpDeed::Home => c.login is Some,
        _ => true,
    }
}

pub open spec fn after_login(n: LoginNextModel) -> SftpNextModel {
    match n {
        LoginNextModel::Do(d) => SftpNextModel::Do(SftpDeed::Login(d)),
        LoginNextModel::In => SftpNextModel::Do(SftpDeed::Channel),
        LoginNextModel::Failed(k, t, s) => SftpNextModel::Refused(k, t, s),
    }
}

impl SftpBackend {
    pub open spec fn no_user_text(self) -> Seq<char> {
        "'"@ + self.spec@.shown() + "' names no user — spell it sftp://user@host/…"@
    }

    pub open spec fn port_spec(self) -> u16 {
        match self.spec.port {
            Some(p) => p,
            None => 22,
        }
    }

    /// The port to connect to.
    pub fn port(&self) -> (r: u16)
        ensures
            r == self.port_spec(),
    {
        match self.spec.port {
            Some(p) => p,
            None => 22,
        }
    }

    /// Begins to connect: there is nothing to do where it is done, and nobody is logged in whom the
    /// phrase does not name.
    pub fn start_connect(&self) -> (r: SftpNext)
        ensures
            r@ == if self.root_abs is Some {
                SftpNextModel::Connected
            } else if self.spec.user is None {
                SftpNextModel::Refused(VfsErrorKind::Auth, self.no_user_text(), None)
            } else {
                SftpNextModel::Do(SftpDeed::Credentials)
            },
    {
        if self.root_abs.is_some() {
            return SftpNext::Connected;
        }
        if self.spec.user.is_none() {
            let mut s = "'".to_owned();
            s.append(self.spec.display().as_str());
            s.append("' names no user — spell it sftp://user@host/…");
            return SftpNext::Refused(VfsError::new(VfsErrorKind::Auth, s.as_str()));
        }
        SftpNext::Do(SftpDeed::Credentials)
    }

    /// The login that a reached server begins with.
    pub open spec fn first_login(self, c: SftpConnect, existing: Vec<String>) -> LoginModel {
        LoginModel {
            user: self.spec.user->0@,
            host: self.spec.host@,
            keys: match c.keyfile {
                Some(k) => seq![k@],
                None => texts(existing@),
            },
            explicit: c.keyfile is Some,
            has_password: c.has_password,
            at: 0,
            tried: Seq::empty(),
        }
    }

    /// How connecting goes on after a reply.
    pub open spec fn connect_after(self, c: SftpConnect, deed: SftpDeed, reply: SftpReply) -> SftpNextModel {
        match reply {
            SftpReply::Failed(e) => SftpNextModel::Refused(e.kind, e.detail@, e.source),
            SftpReply::Stored { .. } => SftpNextModel::Do(SftpDeed::Reach),
            SftpReply::Host(e) => {
                let v = connect_error(e, self.spec.host@, self.spec@.shown());
                SftpNextModel::Refused(v.0, v.1, None)
            },
            SftpReply::TimedOut => SftpNextModel::Refused(
                VfsErrorKind::Transient,
                "connecting to "@ + self.spec.host@ + ":"@ + numeral(self.port_spec() as nat)
                    + " timed out after "@ + seconds_text(self.timeout_secs),
                None,
            ),
            SftpReply::Reached { existing } => after_login(login_next(self.first_login(c, existing)).1),
            SftpReply::Attempt(a) => match deed {
                SftpDeed::Login(d) => after_login(login_after(c.login->0@, d, a).1),
                _ => SftpNextModel::Connected,
            },
            SftpReply::Broke(e) => match deed {
                SftpDeed::Channel => SftpNextModel::Refused(
                    VfsErrorKind::Transient,
                    "cannot open a channel: "@ + e@,
                    None,
                ),
                SftpDeed::Subsystem => SftpNextModel::Refused(
                    VfsErrorKind::Protocol,
                    "the server refused the sftp subsystem: "@ + e@,
                    None,
                ),
                _ => SftpNextModel::Refused(
                    VfsErrorKind::Protocol,
                    "sftp handshake failed: "@ + e@,
                    None,
                ),
            },
            SftpReply::Fault(e) => {
                let v = fault_error("canonicalize home"@, e);
                SftpNextModel::Refused(v.0, v.1, None)
            },
            SftpReply::Path(_) => SftpNextModel::Connected,
            SftpReply::Done => match deed {
                SftpDeed::Channel => SftpNextModel::Do(SftpDeed::Subsystem),
                SftpDeed::Subsystem => SftpNextModel::Do(SftpDeed::Handshake),
                _ => if self.spec.root@.len() == 0 {
                    SftpNextModel::Do(SftpDeed::Home)
                } else {
                    SftpNextModel::Connected
                },
            },
        }
    }

    /// The root once connected: the one that the phrase names, else the user's own directory.
    pub open spec fn root_found(self, reply: SftpReply) -> Seq<char> {
        unslashed(
            match reply {
                SftpReply::Path(p) => p@,
                _ => "/"@ + self.spec.root@,
            },
        )
    }

    /// Takes the reply to a deed.
    pub fn connect(&mut self, c: &mut SftpConnect, deed: SftpDeed, reply: SftpReply) -> (r: SftpNext)
        requires
            old(self).spec.user is Some,
            sftp_answers(deed, reply),
            deed_ready(*old(c), deed),
        ensures
            final(self).spec == old(self).spec,
            final(self).timeout_secs == old(self).timeout_secs,
            r@ == old(self).connect_after(*old(c), deed, reply),
            r matches SftpNext::Do(d) ==> deed_ready(*final(c), d),
            r is Connected ==> (final(self).root_abs matches Some(root) && root@ == old(self).root_found(
                reply,
            )),
            r is Connected ==> (final(self).server_line matches Some(line) && line@
                == "sftp v3 via ssh, auth: "@ + (if old(c).login->0.tried@.len() == 0 {
                Seq::empty()
            } else {
                old(c).login->0.tried@.last()@
            })),
            !(r is Connected) ==> *final(self) == *old(self),
            match reply {
                SftpReply::Stored { keyfile, has_password } => final(c).keyfile == keyfile
                    && final(c).has_password == has_password && final(c).login == old(c).login,
                SftpReply::Reached { existing } => final(c).keyfile == old(c).keyfile
                    && final(c).has_password == old(c).has_password && (final(c).login matches Some(l)
                    && l@ == login_next(old(self).first_login(*old(c), existing)).0),
                SftpReply::Attempt(a) => final(c).keyfile == old(c).keyfile && final(c).has_password
                    == old(c).has_password && (deed matches SftpDeed::Login(d) ==> (final(c).login matches Some(
                    l,
                ) && l@ == login_after(old(c).login->0@, d, a).0)),
                _ => *final(c) == *old(c),
            },
    {
        match reply {
            SftpReply::Failed(e) => SftpNext::Refused(e),
            SftpReply::Stored { keyfile, has_password } => {
                c.keyfile = keyfile;
                c.has_password = has_password;
                SftpNext::Do(SftpDeed::Reach)
            },
            SftpReply::Host(e) => {
                let shown = self.spec.display();
                SftpNext::Refused(map_connect_err(&e, self.spec.host.as_str(), shown.as_str()))
            },
            SftpReply::TimedOut => {
                let after = show_seconds(self.timeout_secs);
                let port = self.port();
                SftpNext::Refused(connect_timeout(self.spec.host.as_str(), port, after.as_str()))
            },
            SftpReply::Reached { existing } => {
                let user = match &self.spec.user {
                    Some(u) => u.clone(),
                    None => String::new(),
                };
                let (login, next) = Login::start(
                    user.as_str(),
                    self.spec.host.as_str(),
                    &c.keyfile,
                    existing,
                    c.has_password,
                );
                c.login = Some(login);
                pass_on(next)
            },
            SftpReply::Attempt(a) => {
                if let SftpDeed::Login(d) = deed {
                    let mut taken: Option<Login> = None;
                    std::mem::swap(&mut taken, &mut c.login);
                    if let Some(mut login) = taken {
                        let next = login.feed(d, a);
                        c.login = Some(login);
                        return pass_on(next);
                    }
                }
                SftpNext::Connected
            },
            SftpReply::Broke(e) => {
                let (kind, text) = match deed {
                    SftpDeed::Channel => (VfsErrorKind::Transient, "cannot open a channel: "),
                    SftpDeed::Subsystem => (
                        VfsErrorKind::Protocol,
                        "the server refused the sftp subsystem: ",
                    ),
                    _ => (VfsErrorKind::Protocol, "sftp handshake failed: "),
                };
                let mut s = text.to_owned();
                s.append(e.as_str());
                SftpNext::Refused(VfsError::new(kind, s.as_str()))
            },
            SftpReply::Fault(e) => SftpNext::Refused(map_sftp_err("canonicalize home", &e)),
            SftpReply::Path(p) => {
                self.settle(c, p.as_str());
                SftpNext::Connected
            },
            SftpReply::Done => match deed {
                SftpDeed::Channel => SftpNext::Do(SftpDeed::Subsystem),
                SftpDeed::Subsystem => SftpNext::Do(SftpDeed::Handshake),
                _ => {
                    if self.spec.root.as_str().unicode_len() == 0 {
                        return SftpNext::Do(SftpDeed::Home);
                    }
                    let mut root = "/".to_owned();
                    root.append(self.spec.root.as_str());
                    self.settle(c, root.as_str());
                    SftpNext::Connected
                },
            },
        }
    }

    fn settle(&mut self, c: &SftpConnect, root: &str)
        requires
            c.login is Some,
        ensures
            final(self).spec == old(self).spec,
            final(self).timeout_secs == old(self).timeout_secs,
            final(self).root_abs matches Some(r) && r@ == unslashed(root@),
            final(self).server_line matches Some(line) && line@ == "sftp v3 via ssh, auth: "@ + (if c.login->0.tried@.len()
                == 0 {
                Seq::empty()
            } else {
                c.login->0.tried@.last()@
            }),
    {
        let v = chars_of(root);
        let mut n: usize = v.len();
        assert(v@.take(n as int) =~= v@);
        while n > 0 && v[n - 1] == '/'
            invariant
                n <= v@.len(),
                unslashed(v@) == unslashed(v@.take(n as int)),
            decreases n,
        {
            assert(v@.take(n as int).drop_last() =~= v@.take(n as int - 1));
            n = n - 1;
        }
        let cut = slice(v.as_slice(), 0, n);
        assert(cut@ =~= v@.take(n as int));
        self.root_abs = Some(text_of(cut.as_slice()));
        let mut line = "sftp v3 via ssh, auth: ".to_owned();
        if let Some(l) = &c.login {
            line.append(l.auth_summary().as_str());
        }
        self.server_line = Some(line);
    }
}

fn pass_on(n: LoginNext) -> (r: SftpNext)
    ensures
        r@ == after_login(n@),
{
    match n {
        LoginNext::Do(d) => SftpNext::Do(SftpDeed::Login(d)),
        LoginNext::In => SftpNext::Do(SftpDeed::Channel),
        LoginNext::Failed(e) => SftpNext::Refused(e),
    }
}

/// Nothing is offered to a server whose key was not accepted: a refused host key ends the attempt.
pub proof fn a_refused_host_is_offered_nothing(b: SftpBackend, c: SftpConnect, e: HostCheckError)
    ensures
        b.connect_after(c, SftpDeed::Reach, SftpReply::Host(e)) is Refused,
{
}

/// A channel is opened only after the server accepted a key or the password.
pub proof fn a_channel_needs_a_login(b: SftpBackend, c: SftpConnect, deed: SftpDeed, reply: SftpReply)
    requires
        sftp_answers(deed, reply),
        b.connect_after(c, deed, reply) == SftpNextModel::Do(SftpDeed::Channel),
    ensures
        deed is Login,
        reply == SftpReply::Attempt(LoginReply::Accepted),
{
}

/// A path that the parent still lists, and one whose parent could not be listed for any reason but its own
/// absence, are never taken for absent.
pub proof fn a_listed_path_is_not_absent(rel: Seq<char>, name: Seq<char>, listing: VfsResult<Vec<String>>)
    ensures
        listing matches Ok(names) && texts(names@).contains(name) ==> absence_error(rel, name, listing) is Some,
        listing matches Ok(names) && !texts(names@).contains(name) ==> absence_error(rel, name, listing) is None,
        listing matches Err(e) && e.kind != VfsErrorKind::NotFound ==> absence_error(rel, name, listing) is Some,
        listing matches Err(e) && e.kind == VfsErrorKind::NotFound ==> absence_error(rel, name, listing) is None,
{
}

/// Connecting goes by its steps: the stored credentials, then the server, then the login, then the
/// channel, the subsystem and the handshake; no step stands for another, and only where the phrase names
/// no directory is the user's own one asked for.
pub proof fn connecting_goes_step_by_step(b: SftpBackend, c: SftpConnect, deed: SftpDeed, reply: SftpReply)
    requires
        sftp_answers(deed, reply),
    ensures
        b.connect_after(c, deed, reply) matches SftpNextModel::Do(next) ==> match next {
            SftpDeed::Credentials => false,
            SftpDeed::Reach => deed == SftpDeed::Credentials && reply is Stored,
            SftpDeed::Login(_) => (deed == SftpDeed::Reach && reply is Reached) || (deed is Login && reply
                != SftpReply::Attempt(LoginReply::Accepted)),
            SftpDeed::Channel => deed is Login && reply == SftpReply::Attempt(LoginReply::Accepted),
            SftpDeed::Subsystem => deed == SftpDeed::Channel && reply is Done,
            SftpDeed::Handshake => deed == SftpDeed::Subsystem && reply is Done,
            SftpDeed::Home => deed == SftpDeed::Handshake && reply is Done && b.spec.root@.len() == 0,
        },
        b.connect_after(c, deed, reply) is Connected ==> (deed == SftpDeed::Home && reply is Path) || (deed
            == SftpDeed::Handshake && reply is Done && b.spec.root@.len() > 0),
        reply is Failed || reply is Host || reply is TimedOut || reply is Broke || reply is Fault
            ==> b.connect_after(c, deed, reply) is Refused,
        reply is TimedOut ==> (b.connect_after(c, deed, reply) matches SftpNextModel::Refused(kind, _, _) && kind
            == VfsErrorKind::Transient),
{
}

/// A listing keeps every entry but the directory itself and its parent.
pub proof fn a_listing_keeps_every_entry(found: Seq<(String, SftpAttrs)>, i: int)
    requires
        0 <= i < found.len(),
    ensures
        found[i].0@ != "."@ && found[i].0@ != ".."@ ==> kept(found).contains(
            (found[i].0@, attrs_meta(found[i].1)),
        ),
        forall|k: int|
            0 <= k < kept(found).len() ==> (#[trigger] kept(found)[k]).0 != "."@ && kept(found)[k].0 != ".."@,
        kept(found).len() <= found.len(),
    decreases found.len(),
{
    let less = found.drop_last();
    let rest = kept(less);
    let now = kept(found);
    if less.len() > 0 {
        a_listing_keeps_every_entry(
            less,
            if i < less.len() {
                i
            } else {
                0
            },
        );
    }
    if found[i].0@ != "."@ && found[i].0@ != ".."@ {
        let e = (found[i].0@, attrs_meta(found[i].1));
        if i < less.len() {
            assert(less[i] == found[i]);
            let k = choose|k: int| 0 <= k < rest.len() && rest[k] == e;
            assert(now[k] == e);
        } else {
            assert(now[rest.len() as int] == e);
        }
    }
}

/// A directory is one by its bit, a symlink by both of its, and all else is a file; the time is the
/// server's in whole seconds.
pub proof fn kinds_are_read_from_the_bits(a: SftpAttrs)
    ensures
        attrs_meta(a).kind == EntryKind::Dir <==> typed(a.permissions, 0x4000),
        attrs_meta(a).kind == EntryKind::Symlink <==> typed(a.permissions, 0xA000) && !typed(
            a.permissions,
            0x4000,
        ),
        a.permissions is None ==> attrs_meta(a).kind == EntryKind::File && attrs_meta(a).mode is None,
        a.mtime matches Some(s) ==> attrs_meta(a).mtime_ms == s * 1000,
        a.size matches Some(n) ==> attrs_meta(a).size == n,
{
}

/// The seconds that are sent are those of the time, cut towards zero: less than one second is lost.
pub proof fn seconds_lose_less_than_one(ms: i64)
    ensures
        -1000 < ms - 1000 * seconds_of(ms) < 1000,
        ms >= 0 ==> 0 <= seconds_of(ms) && 1000 * seconds_of(ms) <= ms,
        ms <= 0 ==> seconds_of(ms) <= 0 && ms <= 1000 * seconds_of(ms),
{
}

/// Only the status that says so means that a file is absent.
pub proof fn only_its_status_means_absence(what: Seq<char>, e: SftpFault)
    ensures
        fault_error(what, e).0 == VfsErrorKind::NotFound <==> (e matches SftpFault::Status { status, .. } && status
            == SftpStatus::NoSuchFile),
        e is Timeout ==> fault_error(what, e).0 == VfsErrorKind::Transient,
{
}

/// Paths on the server are built one below the other, and the root is its own path.
pub proof fn server_paths_are_built_downwards(root: Seq<char>, dir: Seq<char>, name: Seq<char>)
    requires
        dir.len() > 0,
        name.len() > 0,
    ensures
        abs_of(root, Seq::empty()) == root,
        abs_of(root, dir + "/"@ + name) == abs_of(abs_of(root, dir), name),
        root.is_prefix_of(abs_of(root, dir)),
        abs_of(root, dir).skip(root.len() as int) == "/"@ + dir,
{
    assert(abs_of(root, dir + "/"@ + name) =~= abs_of(abs_of(root, dir), name));
    assert(root =~= abs_of(root, dir).take(root.len() as int));
    assert(abs_of(root, dir).skip(root.len() as int) =~= "/"@ + dir);
}

/// What is relied on over SFTP: a file replaces none by a rename, times are kept to the second, nothing is
/// written in place, and nothing goes to the trash of this machine.
pub proof fn sftp_promises_no_more_than_it_keeps(c: VfsCaps)
    requires
        sftp_caps(c),
    ensures
        c.rename_overwrite != Support::Yes,
        c.write_at != Support::Yes,
        c.fsync != Support::Yes,
        c.set_mtime == Support::Yes,
        c.ranged_read == Support::Yes,
        c.read_back == Support::Yes,
        c.unix_mode == Support::Yes,
        c.mtime_precision_ms == 1000,
        !c.local_trash,
        c.medium == Medium::NetworkShare,
{
}

/// A key that the user named is the only one tried, and a broken one ends the login; without it the keys
/// that exist are tried from the first.
pub proof fn a_named_key_is_the_only_one(b: SftpBackend, c: SftpConnect, existing: Vec<String>)
    ensures
        ({
            let m = b.first_login(c, existing);
            &&& c.keyfile matches Some(k) ==> m.keys.len() == 1 && m.keys[0] == k@ && m.explicit
            &&& c.keyfile is None ==> m.keys == texts(existing@) && !m.explicit
            &&& m.at == 0
            &&& m.tried.len() == 0
            &&& m.has_password == c.has_password
            &&& m.host == b.spec.host@
        }),
{
}

} // verus!
