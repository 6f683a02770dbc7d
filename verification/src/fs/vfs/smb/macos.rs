//! macOS: a mount of the share that is there already, or one that is made in a directory of its own.
//!
//! The password never goes to the mount command, where every process could read it: the system's own
//! keychain and, as the last resort, its own dialog answer for that.
use vstd::prelude::*;
use vstd::utf8::is_ascii_chars;
use crate::foundation::dirs::{below_of, in_dir};
use crate::foundation::path::{join_native, joined};
use crate::foundation::text::{ascii_lowered, lowercase, to_ascii_lower, to_lowercase};
use crate::fs::vfs::error::{IoFailure, VfsError, VfsErrorKind};
use crate::fs::vfs::spec::RemoteSpec;
use crate::strings::{
    char_lists, chars_of, contains_text, find, find_text, first_index, lemma_first_index, same_chars,
    slice, split, split_chars, starts_with, text_index, text_of, trim, trimmed,
};
use crate::table::opt_text;

verus! {

/// Everything before the first `p`; all of `s` where there is none.
pub open spec fn until(s: Seq<char>, p: Seq<char>) -> Seq<char> {
    match text_index(s, p) {
        Some(i) => s.take(i),
        None => s,
    }
}

fn cut_at(s: &[char], p: &[char]) -> (r: Vec<char>)
    ensures
        r@ == until(s@, p@),
{
    let n = s.len();
    match find_text(s, p) {
        Some(i) => {
            let v = slice(s, 0, i);
            assert(v@ =~= s@.take(i as int));
            v
        },
        None => {
            let v = slice(s, 0, n);
            assert(v@ =~= s@);
            v
        },
    }
}

/// Two texts that differ at most in the case of ASCII letters.
pub open spec fn alike(a: Seq<char>, b: Seq<char>) -> bool {
    ascii_lowered(a) == ascii_lowered(b)
}

fn are_alike(a: &[char], b: &[char]) -> (r: bool)
    ensures
        r == alike(a@, b@),
{
    let x = to_ascii_lower(a);
    let y = to_ascii_lower(b);
    same_chars(x.as_slice(), y.as_slice())
}

/// What a line of the mount table says of an SMB mount: user, host, share and where it is mounted.
pub struct MountLine {
    pub user: Option<Vec<char>>,
    pub host: Vec<char>,
    pub share: Vec<char>,
    pub at: Vec<char>,
}

pub struct MountModel {
    pub user: Option<Seq<char>>,
    pub host: Seq<char>,
    pub share: Seq<char>,
    pub at: Seq<char>,
}

impl View for MountLine {
    type V = MountModel;

    open spec fn view(&self) -> MountModel {
        MountModel {
            user: match self.user {
                Some(u) => Some(u@),
                None => None,
            },
            host: self.host@,
            share: self.share@,
            at: self.at@,
        }
    }
}

/// `//user@host/share on /place (smbfs, …)`; `None` for a line of any other shape.
pub open spec fn mount_line(line: Seq<char>) -> Option<MountModel> {
    if text_index(line, "(smbfs"@) is None || !"//"@.is_prefix_of(line) {
        None
    } else {
        let rest = line.skip("//"@.len() as int);
        match text_index(rest, " on "@) {
            None => None,
            Some(k) => {
                let source = rest.take(k);
                let after = rest.skip(k + " on "@.len());
                let a = first_index(source, '@');
                let named = a < source.len();
                let place = if named {
                    source.skip(a + 1)
                } else {
                    source
                };
                let b = first_index(place, '/');
                if b >= place.len() {
                    None
                } else {
                    Some(
                        MountModel {
                            user: if named {
                                Some(source.take(a))
                            } else {
                                None
                            },
                            host: place.take(b),
                            share: place.skip(b + 1),
                            at: trim(until(after, " ("@)),
                        },
                    )
                }
            },
        }
    }
}

fn read_mount_line(line: &[char]) -> (r: Option<MountLine>)
    ensures
        match r {
            Some(m) => mount_line(line@) == Some(m@),
            None => mount_line(line@) is None,
        },
{
    let head = chars_of("//");
    let on = chars_of(" on ");
    let smbfs = chars_of("(smbfs");
    let paren = chars_of(" (");
    if !contains_text(line, smbfs.as_slice()) || !starts_with(line, head.as_slice()) {
        return None;
    }
    let rest = slice(line, head.len(), line.len());
    assert(rest@ =~= line@.skip(head@.len() as int));
    let k = match find_text(rest.as_slice(), on.as_slice()) {
        Some(k) => k,
        None => {
            return None;
        },
    };
    let source = slice(rest.as_slice(), 0, k);
    let after = slice(rest.as_slice(), k + on.len(), rest.len());
    proof {
        assert(source@ =~= rest@.take(k as int));
        assert(after@ =~= rest@.skip(k + on@.len()));
        lemma_first_index(source@, '@');
    }
    let n = source.len();
    let (user, place) = match find(source.as_slice(), '@') {
        Some(a) => {
            let u = slice(source.as_slice(), 0, a);
            let p = slice(source.as_slice(), a + 1, n);
            assert(u@ =~= source@.take(a as int));
            assert(p@ =~= source@.skip(a as int + 1));
            (Some(u), p)
        },
        None => {
            let p = slice(source.as_slice(), 0, n);
            assert(p@ =~= source@);
            (None, p)
        },
    };
    proof {
        lemma_first_index(place@, '/');
    }
    let b = match find(place.as_slice(), '/') {
        Some(b) => b,
        None => {
            return None;
        },
    };
    let host = slice(place.as_slice(), 0, b);
    let share = slice(place.as_slice(), b + 1, place.len());
    assert(host@ =~= place@.take(b as int));
    assert(share@ =~= place@.skip(b as int + 1));
    let cut = cut_at(after.as_slice(), paren.as_slice());
    let at = trimmed(cut.as_slice());
    Some(MountLine { user, host, share, at })
}

/// The mount is one of this share. The host may be spelled as the local network announces it; a mount
/// of somebody else is not ours.
pub open spec fn mount_serves(
    m: MountModel,
    host: Seq<char>,
    share: Seq<char>,
    user: Option<Seq<char>>,
) -> bool {
    &&& alike(until(m.host, "._smb"@), host.take(first_index(host, '.'))) || alike(m.host, host)
    &&& alike(m.share, share)
    &&& (user is Some && m.user is Some) ==> alike(m.user->0, user->0)
    &&& m.at.len() > 0
}

/// Where the first line of the table that serves the share has it mounted.
pub open spec fn mounted_at(
    lines: Seq<Seq<char>>,
    host: Seq<char>,
    share: Seq<char>,
    user: Option<Seq<char>>,
) -> Option<Seq<char>>
    decreases lines.len(),
{
    if lines.len() == 0 {
        None
    } else {
        match mount_line(lines[0]) {
            Some(m) => if mount_serves(m, host, share, user) {
                Some(m.at)
            } else {
                mounted_at(lines.skip(1), host, share, user)
            },
            None => mounted_at(lines.skip(1), host, share, user),
        }
    }
}

fn serves(m: &MountLine, host: &str, share: &str, user: &Option<String>) -> (r: bool)
    ensures
        r == mount_serves(m@, host@, share@, opt_text(*user)),
{
    let h = chars_of(host);
    let tag = chars_of("._smb");
    proof {
        lemma_first_index(h@, '.');
    }
    let n = h.len();
    let base = match find(h.as_slice(), '.') {
        Some(i) => slice(h.as_slice(), 0, i),
        None => slice(h.as_slice(), 0, n),
    };
    assert(base@ =~= h@.take(first_index(h@, '.')));
    let announced = cut_at(m.host.as_slice(), tag.as_slice());
    if !are_alike(announced.as_slice(), base.as_slice()) && !are_alike(m.host.as_slice(), h.as_slice()) {
        return false;
    }
    if !are_alike(m.share.as_slice(), chars_of(share).as_slice()) {
        return false;
    }
    if let Some(want) = user {
        if let Some(got) = &m.user {
            if !are_alike(got.as_slice(), chars_of(want.as_str()).as_slice()) {
                return false;
            }
        }
    }
    m.at.len() > 0
}

/// Where the share is mounted already, according to the mount table.
pub fn find_existing_mount(table: &str, host: &str, share: &str, user: &Option<String>) -> (r: Option<
    String,
>)
    ensures
        opt_text(r) == mounted_at(split(table@, '\n'), host@, share@, opt_text(*user)),
{
    let all = chars_of(table);
    let lines = split_chars(all.as_slice(), '\n');
    let ghost ls = char_lists(lines@);
    let ghost u = opt_text(*user);
    let mut i: usize = 0;
    assert(ls.skip(0) =~= ls);
    while i < lines.len()
        invariant
            i <= lines@.len(),
            ls == char_lists(lines@),
            ls == split(table@, '\n'),
            u == opt_text(*user),
            mounted_at(ls, host@, share@, u) == mounted_at(ls.skip(i as int), host@, share@, u),
        decreases lines@.len() - i,
    {
        proof {
            assert(ls.skip(i as int)[0] == lines@[i as int]@);
            assert(ls.skip(i as int).skip(1) =~= ls.skip(i as int + 1));
        }
        if let Some(m) = read_mount_line(lines[i].as_slice()) {
            if serves(&m, host, share, user) {
                return Some(text_of(m.at.as_slice()));
            }
        }
        i = i + 1;
    }
    assert(ls.skip(ls.len() as int) =~= Seq::<Seq<char>>::empty());
    None
}

/// The directory of the mounts that are our own.
pub open spec fn private_mounts(home: Option<Seq<char>>) -> Seq<char> {
    let h = match home {
        Some(h) => h,
        None => "/tmp"@,
    };
    below_of(
        below_of(
            below_of(below_of(h, false, "Library"@), false, "Caches"@),
            false,
            "syncdash"@,
        ),
        false,
        "mnt"@,
    )
}

pub fn private_mount_dir(home: &Option<String>) -> (r: String)
    ensures
        r@ == private_mounts(opt_text(*home)),
{
    let h = match home {
        Some(h) => h.clone(),
        None => "/tmp".to_owned(),
    };
    let a = in_dir(h.as_str(), false, "Library");
    let b = in_dir(a.as_str(), false, "Caches");
    let c = in_dir(b.as_str(), false, "syncdash");
    in_dir(c.as_str(), false, "mnt")
}

/// What resolving is waiting for.
#[derive(Clone, Copy, Debug, PartialEq, Eq, Structural)]
pub enum MacDeed {
    /// Read the mount table.
    Scan,
    /// Make the mount point.
    MakeDir,
    /// Mount the share there.
    Mount,
    /// Let the system's own dialog mount it.
    Prompt,
    /// Read the mount table once more.
    ScanAgain,
}

pub enum MacReply {
    Done,
    /// The mount table, where it could be had.
    Table(Option<String>),
    /// The failure in words.
    Broke(String),
    /// The command ran and failed, with this on its error output.
    Refused(String),
}

pub enum MacNext {
    Do(MacDeed),
    /// The path of the root.
    At(String),
    Failed(VfsError),
}

pub enum MacNextModel {
    Do(MacDeed),
    At(Seq<char>),
    Failed(VfsErrorKind, Seq<char>, Option<IoFailure>),
}

impl View for MacNext {
    type V = MacNextModel;

    open spec fn view(&self) -> MacNextModel {
        match *self {
            MacNext::Do(d) => MacNextModel::Do(d),
            MacNext::At(p) => MacNextModel::At(p@),
            MacNext::Failed(e) => MacNextModel::Failed(e.kind, e.detail@, e.source),
        }
    }
}

pub open spec fn mac_answers(deed: MacDeed, reply: MacReply) -> bool {
    match deed {
        MacDeed::Scan | MacDeed::ScanAgain => reply is Table,
        MacDeed::MakeDir => reply is Done || reply is Broke,
        MacDeed::Mount => reply is Done || reply is Broke || reply is Refused,
        MacDeed::Prompt => reply is Done || reply is Broke,
    }
}

/// A share that is being resolved.
pub struct MacResolve {
    pub spec: RemoteSpec,
    pub share: String,
    pub sub: String,
    /// Our own mount point for the share.
    pub mount_point: String,
    /// What the mount command was refused with.
    pub message: String,
}

pub open spec fn below_mount(at: Seq<char>, sub: Seq<char>) -> Seq<char> {
    if sub.len() == 0 {
        at
    } else {
        joined(at, sub, false)
    }
}

fn join_sub(at: &str, sub: &str) -> (r: String)
    ensures
        r@ == below_mount(at@, sub@),
{
    if sub.unicode_len() == 0 {
        at.to_owned()
    } else {
        join_native(at, sub, false)
    }
}

/// The words with which a mount is refused for the want of a password.
pub open spec fn wants_login(message: Seq<char>) -> bool {
    text_index(message, "Authentication error"@) is Some || text_index(message, "Permission denied"@) is Some
}

impl MacResolve {
    pub fn new(spec: RemoteSpec, share: &str, sub: &str, home: &Option<String>) -> (r: MacResolve)
        ensures
            r.spec == spec,
            r.share@ == share@,
            r.sub@ == sub@,
            r.mount_point@ == below_of(
                private_mounts(opt_text(*home)),
                false,
                lowercase(spec.host@) + "-"@ + lowercase(share@),
            ),
            is_ascii_chars(spec.host@) && is_ascii_chars(share@) ==> r.mount_point@ == below_of(
                private_mounts(opt_text(*home)),
                false,
                ascii_lowered(spec.host@) + "-"@ + ascii_lowered(share@),
            ),
            r.message@.len() == 0,
    {
        let mut leaf = to_lowercase(spec.host.as_str());
        leaf.append("-");
        leaf.append(to_lowercase(share).as_str());
        let dir = private_mount_dir(home);
        let mount_point = in_dir(dir.as_str(), false, leaf.as_str());
        MacResolve {
            spec,
            share: share.to_owned(),
            sub: sub.to_owned(),
            mount_point,
            message: String::new(),
        }
    }

    /// The share as the mount command wants it.
    pub open spec fn url_of(self) -> Seq<char> {
        match self.spec.user {
            Some(u) => "//"@ + u@ + "@"@ + self.spec.host@ + "/"@ + self.share@,
            None => "//"@ + self.spec.host@ + "/"@ + self.share@,
        }
    }

    pub fn url(&self) -> (r: String)
        ensures
            r@ == self.url_of(),
    {
        let mut s = "//".to_owned();
        if let Some(u) = &self.spec.user {
            s.append(u.as_str());
            s.append("@");
        }
        s.append(self.spec.host.as_str());
        s.append("/");
        s.append(self.share.as_str());
        s
    }

    pub open spec fn found_in(self, table: Option<Seq<char>>) -> Option<Seq<char>> {
        match table {
            Some(t) => mounted_at(split(t, '\n'), self.spec.host@, self.share@, opt_text(self.spec.user)),
            None => None,
        }
    }

    pub open spec fn refused_text(self, message: Seq<char>) -> Seq<char> {
        "mount_smbfs was refused for "@ + self.url_of() + " ("@ + message
            + ") — connect once in Finder with 'remember password' ticked, then retry"@
    }

    /// How resolving goes on after a reply.
    pub open spec fn after(self, deed: MacDeed, reply: MacReply) -> MacNextModel {
        match deed {
            MacDeed::Scan => match reply {
                MacReply::Table(t) => match self.found_in(opt_text(t)) {
                    Some(at) => MacNextModel::At(below_mount(at, self.sub@)),
                    None => MacNextModel::Do(MacDeed::MakeDir),
                },
                _ => MacNextModel::Do(MacDeed::MakeDir),
            },
            MacDeed::MakeDir => match reply {
                MacReply::Broke(e) => MacNextModel::Failed(
                    VfsErrorKind::Io,
                    "cannot create mount point '"@ + self.mount_point@ + "': "@ + e@,
                    None,
                ),
                _ => MacNextModel::Do(MacDeed::Mount),
            },
            MacDeed::Mount => match reply {
                MacReply::Broke(e) => MacNextModel::Failed(
                    VfsErrorKind::Io,
                    "cannot run mount_smbfs: "@ + e@,
                    None,
                ),
                MacReply::Refused(t) => {
                    let message = trim(t@);
                    if wants_login(message) {
                        MacNextModel::Do(MacDeed::Prompt)
                    } else {
                        MacNextModel::Failed(
                            VfsErrorKind::Transient,
                            "mount_smbfs "@ + self.url_of() + " failed: "@ + message,
                            None,
                        )
                    }
                },
                _ => MacNextModel::At(below_mount(self.mount_point@, self.sub@)),
            },
            MacDeed::Prompt => match reply {
                MacReply::Done => MacNextModel::Do(MacDeed::ScanAgain),
                _ => MacNextModel::Failed(VfsErrorKind::Auth, self.refused_text(self.message@), None),
            },
            MacDeed::ScanAgain => match reply {
                MacReply::Table(t) => match self.found_in(opt_text(t)) {
                    Some(at) => MacNextModel::At(below_mount(at, self.sub@)),
                    None => MacNextModel::Failed(VfsErrorKind::Auth, self.refused_text(self.message@), None),
                },
                _ => MacNextModel::Failed(VfsErrorKind::Auth, self.refused_text(self.message@), None),
            },
        }
    }

    fn look_up(&self, table: &Option<String>) -> (r: Option<String>)
        ensures
            opt_text(r) == self.found_in(opt_text(*table)),
    {
        match table {
            Some(t) => find_existing_mount(
                t.as_str(),
                self.spec.host.as_str(),
                self.share.as_str(),
                &self.spec.user,
            ),
            None => None,
        }
    }

    fn refused(&self) -> (r: MacNext)
        ensures
            r@ == MacNextModel::Failed(VfsErrorKind::Auth, self.refused_text(self.message@), None),
    {
        let mut s = "mount_smbfs was refused for ".to_owned();
        s.append(self.url().as_str());
        s.append(" (");
        s.append(self.message.as_str());
        s.append(") — connect once in Finder with 'remember password' ticked, then retry");
        MacNext::Failed(VfsError::new(VfsErrorKind::Auth, s.as_str()))
    }

    /// Takes the reply to a deed.
    pub fn feed(&mut self, deed: MacDeed, reply: MacReply) -> (r: MacNext)
        requires
            mac_answers(deed, reply),
        ensures
            r@ == old(self).after(deed, reply),
            final(self).spec == old(self).spec,
            final(self).share == old(self).share,
            final(self).sub == old(self).sub,
            final(self).mount_point == old(self).mount_point,
            match reply {
                MacReply::Refused(t) => final(self).message@ == trim(t@),
                _ => final(self).message == old(self).message,
            },
    {
        match deed {
            MacDeed::Scan => {
                if let MacReply::Table(t) = reply {
                    if let Some(at) = self.look_up(&t) {
                        return MacNext::At(join_sub(at.as_str(), self.sub.as_str()));
                    }
                }
                MacNext::Do(MacDeed::MakeDir)
            },
            MacDeed::MakeDir => {
                if let MacReply::Broke(e) = reply {
                    let mut s = "cannot create mount point '".to_owned();
                    s.append(self.mount_point.as_str());
                    s.append("': ");
                    s.append(e.as_str());
                    return MacNext::Failed(VfsError::new(VfsErrorKind::Io, s.as_str()));
                }
                MacNext::Do(MacDeed::Mount)
            },
            MacDeed::Mount => match reply {
                MacReply::Broke(e) => {
                    let mut s = "cannot run mount_smbfs: ".to_owned();
                    s.append(e.as_str());
                    MacNext::Failed(VfsError::new(VfsErrorKind::Io, s.as_str()))
                },
                MacReply::Refused(t) => {
                    let m = trimmed(chars_of(t.as_str()).as_slice());
                    self.message = text_of(m.as_slice());
                    if contains_text(m.as_slice(), chars_of("Authentication error").as_slice())
                        || contains_text(m.as_slice(), chars_of("Permission denied").as_slice()) {
                        return MacNext::Do(MacDeed::Prompt);
                    }
                    let mut s = "mount_smbfs ".to_owned();
                    s.append(self.url().as_str());
                    s.append(" failed: ");
                    s.append(self.message.as_str());
                    MacNext::Failed(VfsError::new(VfsErrorKind::Transient, s.as_str()))
                },
                _ => MacNext::At(join_sub(self.mount_point.as_str(), self.sub.as_str())),
            },
            MacDeed::Prompt => {
                if let MacReply::Done = reply {
                    return MacNext::Do(MacDeed::ScanAgain);
                }
                self.refused()
            },
            MacDeed::ScanAgain => {
                if let MacReply::Table(t) = reply {
                    if let Some(at) = self.look_up(&t) {
                        return MacNext::At(join_sub(at.as_str(), self.sub.as_str()));
                    }
                }
                self.refused()
            },
        }
    }
}

/// A mount that is found is one of the share, and not somebody else's.
pub proof fn a_found_mount_serves_the_share(
    lines: Seq<Seq<char>>,
    host: Seq<char>,
    share: Seq<char>,
    user: Option<Seq<char>>,
)
    requires
        mounted_at(lines, host, share, user) is Some,
    ensures
        exists|i: int|
            0 <= i < lines.len() && (mount_line(#[trigger] lines[i]) matches Some(m) && mount_serves(
                m,
                host,
                share,
                user,
            ) && mounted_at(lines, host, share, user) == Some(m.at)),
    decreases lines.len(),
{
    let first = mount_line(lines[0]);
    if !(first matches Some(m) && mount_serves(m, host, share, user)) {
        a_found_mount_serves_the_share(lines.skip(1), host, share, user);
        let i = choose|i: int|
            0 <= i < lines.skip(1).len() && (mount_line(#[trigger] lines.skip(1)[i]) matches Some(m)
                && mount_serves(m, host, share, user) && mounted_at(lines.skip(1), host, share, user)
                == Some(m.at));
        assert(lines.skip(1)[i] == lines[i + 1]);
    }
}

/// No mount of the share is found only where no line serves it: a mount that is there is used, and the
/// first of several.
pub proof fn a_serving_mount_is_found(
    lines: Seq<Seq<char>>,
    host: Seq<char>,
    share: Seq<char>,
    user: Option<Seq<char>>,
    i: int,
)
    requires
        0 <= i < lines.len(),
        mount_line(lines[i]) matches Some(m) && mount_serves(m, host, share, user),
    ensures
        mounted_at(lines, host, share, user) is Some,
        (forall|k: int|
            0 <= k < i ==> !(mount_line(#[trigger] lines[k]) matches Some(m) && mount_serves(
                m,
                host,
                share,
                user,
            ))) ==> mounted_at(lines, host, share, user) == Some(mount_line(lines[i])->0.at),
    decreases lines.len(),
{
    if i > 0 {
        let more = lines.skip(1);
        assert(more[i - 1] == lines[i]);
        a_serving_mount_is_found(more, host, share, user, i - 1);
        if forall|k: int|
            0 <= k < i ==> !(mount_line(#[trigger] lines[k]) matches Some(m) && mount_serves(
                m,
                host,
                share,
                user,
            )) {
            assert forall|k: int| 0 <= k < i - 1 implies !(mount_line(#[trigger] more[k]) matches Some(m)
                && mount_serves(m, host, share, user)) by {
                assert(more[k] == lines[k + 1]);
            }
            assert(!(mount_line(lines[0]) matches Some(m) && mount_serves(m, host, share, user)));
        }
    }
}

/// A mount of another share or of another user is not ours, whatever the case of the letters.
pub proof fn a_foreign_mount_is_not_ours(m: MountModel, host: Seq<char>, share: Seq<char>, user: Option<Seq<char>>)
    ensures
        mount_serves(m, host, share, user) ==> ascii_lowered(m.share) == ascii_lowered(share) && m.at.len() > 0,
        mount_serves(m, host, share, user) ==> (user matches Some(u) ==> m.user matches Some(v) ==> ascii_lowered(
            u,
        ) == ascii_lowered(v)),
        ascii_lowered(m.host) == ascii_lowered(host) && ascii_lowered(m.share) == ascii_lowered(share) && user is None
            && m.at.len() > 0 ==> mount_serves(m, host, share, user),
{
}

/// A share is mounted only where the table did not have it; the dialog of the system is shown only where
/// the mount asked for a password; and a place is given only for a mount that was found or made.
pub proof fn a_share_is_mounted_once(r: MacResolve, deed: MacDeed, reply: MacReply)
    requires
        mac_answers(deed, reply),
    ensures
        match r.after(deed, reply) {
            MacNextModel::Do(next) => match next {
                MacDeed::Scan => false,
                MacDeed::MakeDir => deed == MacDeed::Scan && (reply matches MacReply::Table(t) && r.found_in(
                    opt_text(t),
                ) is None),
                MacDeed::Mount => deed == MacDeed::MakeDir && reply is Done,
                MacDeed::Prompt => deed == MacDeed::Mount && (reply matches MacReply::Refused(t)
                    && wants_login(trim(t@))),
                MacDeed::ScanAgain => deed == MacDeed::Prompt && reply is Done,
            },
            MacNextModel::At(p) => (deed == MacDeed::Mount && reply is Done) || ((deed == MacDeed::Scan || deed
                == MacDeed::ScanAgain) && (reply matches MacReply::Table(t) && r.found_in(opt_text(t)) is Some)),
            MacNextModel::Failed(kind, _, _) => reply !is Done && (kind == VfsErrorKind::Auth <==> deed
                == MacDeed::Prompt || deed == MacDeed::ScanAgain) && (kind == VfsErrorKind::Transient
                <==> reply is Refused),
        },
{
}

} // verus!
