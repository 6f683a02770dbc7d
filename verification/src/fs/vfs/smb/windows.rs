//! Windows: the share is a UNC path, and a session is opened for it where the plain path is refused.
use vstd::prelude::*;
use crate::foundation::path::{native_of, to_native};
use crate::fs::vfs::error::{classified, Errnos, IoFailure, IoKind, Os, VfsError, VfsErrorKind};
use crate::fs::vfs::spec::RemoteSpec;
use crate::strings::{
    carries, chars_of, decimal, find, joined, lemma_first_index, join_texts, numeral, texts,
};

verus! {

/// What looking at a path came to.
pub enum Probed {
    There,
    /// Denied under the session at hand: credentials may help.
    Denied,
    Hard(VfsError),
}

pub enum ProbedModel {
    There,
    Denied,
    Hard(VfsErrorKind, Seq<char>, Option<IoFailure>),
}

impl View for Probed {
    type V = ProbedModel;

    open spec fn view(&self) -> ProbedModel {
        match *self {
            Probed::There => ProbedModel::There,
            Probed::Denied => ProbedModel::Denied,
            Probed::Hard(e) => ProbedModel::Hard(e.kind, e.detail@, e.source),
        }
    }
}

/// The numbers with which Windows says that a host cannot be reached.
pub open spec fn unreachable_code(n: int) -> bool {
    n == 53 || n == 1231 || n == 1232 || n == 121 || n == 1203
}

/// What a failed look at `path` means.
pub open spec fn probe_failure(path: Seq<char>, f: IoFailure, errnos: Errnos) -> ProbedModel {
    if f.raw == Some(5i32) || f.raw == Some(1326i32) || f.raw == Some(86i32) {
        ProbedModel::Denied
    } else if f.raw matches Some(n) && unreachable_code(n as int) {
        ProbedModel::Hard(
            VfsErrorKind::Transient,
            "cannot reach '"@ + path + "': "@ + f.message@,
            None,
        )
    } else if f.raw == Some(67i32) {
        ProbedModel::Hard(
            VfsErrorKind::Protocol,
            "the server answered: no such share ('"@ + path + "', error 67)"@,
            None,
        )
    } else if f.kind == IoKind::NotFound {
        ProbedModel::Hard(
            VfsErrorKind::NotFound,
            "the share is reachable but '"@ + path + "' does not exist on it"@,
            None,
        )
    } else {
        let c = classified(f, Os::Windows, errnos);
        ProbedModel::Hard(c.0, c.1, Some(f))
    }
}

pub fn weigh_probe(path: &str, look: Result<(), IoFailure>, errnos: Errnos) -> (r: Probed)
    ensures
        r@ == (match look {
            Ok(_) => ProbedModel::There,
            Err(f) => probe_failure(path@, f, errnos),
        }),
{
    match look {
        Ok(_) => Probed::There,
        Err(f) => {
            let raw: i32 = match f.raw {
                Some(n) => n,
                None => 0,
            };
            if raw == 5 || raw == 1326 || raw == 86 {
                Probed::Denied
            } else if raw == 53 || raw == 1231 || raw == 1232 || raw == 121 || raw == 1203 {
                let mut s = "cannot reach '".to_owned();
                s.append(path);
                s.append("': ");
                s.append(f.message.as_str());
                Probed::Hard(VfsError::new(VfsErrorKind::Transient, s.as_str()))
            } else if raw == 67 {
                let mut s = "the server answered: no such share ('".to_owned();
                s.append(path);
                s.append("', error 67)");
                Probed::Hard(VfsError::new(VfsErrorKind::Protocol, s.as_str()))
            } else if f.kind == IoKind::NotFound {
                let mut s = "the share is reachable but '".to_owned();
                s.append(path);
                s.append("' does not exist on it");
                Probed::Hard(VfsError::new(VfsErrorKind::NotFound, s.as_str()))
            } else {
                Probed::Hard(VfsError::from_io(f, Os::Windows, errnos))
            }
        },
    }
}

/// What resolving is waiting for.
pub enum WinDeed {
    /// Look at the full path.
    Probe,
    Credentials,
    /// Open a session for the share as this user.
    Connect(String),
    /// Look again, in the session of this user.
    ProbeAgain(String),
}

pub enum WinReply {
    Look(Probed),
    Password(Option<String>),
    Failed(VfsError),
    /// Windows' error number, 0 for success.
    Code(u32),
}

pub enum WinNext {
    Do(WinDeed),
    /// The share is there.
    Served,
    Refused(VfsError),
}

pub enum WinDeedModel {
    Probe,
    Credentials,
    Connect(Seq<char>),
    ProbeAgain(Seq<char>),
}

impl View for WinDeed {
    type V = WinDeedModel;

    open spec fn view(&self) -> WinDeedModel {
        match *self {
            WinDeed::Probe => WinDeedModel::Probe,
            WinDeed::Credentials => WinDeedModel::Credentials,
            WinDeed::Connect(u) => WinDeedModel::Connect(u@),
            WinDeed::ProbeAgain(u) => WinDeedModel::ProbeAgain(u@),
        }
    }
}

pub enum WinNextModel {
    Do(WinDeedModel),
    Served,
    Refused(VfsErrorKind, Seq<char>, Option<IoFailure>),
}

impl View for WinNext {
    type V = WinNextModel;

    open spec fn view(&self) -> WinNextModel {
        match *self {
            WinNext::Do(d) => WinNextModel::Do(d@),
            WinNext::Served => WinNextModel::Served,
            WinNext::Refused(e) => WinNextModel::Refused(e.kind, e.detail@, e.source),
        }
    }
}

pub open spec fn win_answers(deed: WinDeedModel, reply: WinReply) -> bool {
    match deed {
        WinDeedModel::Probe | WinDeedModel::ProbeAgain(_) => reply is Look,
        WinDeedModel::Credentials => reply is Password || reply is Failed,
        WinDeedModel::Connect(_) => reply is Code,
    }
}

/// A share that is being resolved.
pub struct WinResolve {
    pub spec: RemoteSpec,
    pub share: String,
    /// `\\host\share`
    pub unc: String,
    /// The path of the root.
    pub full: String,
    /// The users that were turned away, and with what.
    pub tried: Vec<String>,
}

pub open spec fn unc_of(host: Seq<char>, share: Seq<char>) -> Seq<char> {
    "\\\\"@ + host + "\\"@ + share
}

pub open spec fn full_of(unc: Seq<char>, sub: Seq<char>) -> Seq<char> {
    if sub.len() == 0 {
        unc
    } else {
        unc + "\\"@ + native_of(sub, true)
    }
}

impl WinResolve {
    pub fn new(spec: RemoteSpec, share: &str, sub: &str) -> (r: WinResolve)
        ensures
            r.spec == spec,
            r.share@ == share@,
            r.unc@ == unc_of(spec.host@, share@),
            r.full@ == full_of(r.unc@, sub@),
            r.tried@.len() == 0,
    {
        let mut unc = "\\\\".to_owned();
        unc.append(spec.host.as_str());
        unc.append("\\");
        unc.append(share);
        let mut full = unc.clone();
        if sub.unicode_len() > 0 {
            full.append("\\");
            full.append(to_native(sub, true).as_str());
        }
        WinResolve { spec, share: share.to_owned(), unc, full, tried: Vec::new() }
    }

    /// The second spelling of a user, for accounts of the host itself.
    pub open spec fn on_host(self, user: Seq<char>) -> Seq<char> {
        self.spec.host@ + "\\"@ + user
    }

    pub open spec fn denied_text(self) -> Seq<char> {
        "access to "@ + self.unc@
            + " denied under the current Windows login — name a user in the phrase (smb://user@"@
            + self.spec.host@ + "/"@ + self.share@
            + ") and store its password with: syncdash cred set \""@ + self.spec@.shown() + "\""@
    }

    pub open spec fn no_password_text(self, user: Seq<char>) -> Seq<char> {
        "no stored password for "@ + user + "@"@ + self.spec.host@
            + " — store it with: syncdash cred set \""@ + self.spec@.shown() + "\""@
    }

    pub open spec fn rejected_text(self, tried: Seq<Seq<char>>) -> Seq<char> {
        self.unc@ + " rejected the stored password for "@ + joined(tried, " and "@)
            + " — update it with: syncdash cred set \""@ + self.spec@.shown() + "\""@
    }

    pub open spec fn turned_away(user: Seq<char>, code: u32) -> Seq<char> {
        "'"@ + user + "' (logon failure "@ + numeral(code as nat) + ")"@
    }

    /// How resolving goes on after a reply.
    pub open spec fn after(self, deed: WinDeedModel, reply: WinReply) -> WinNextModel {
        let user = match self.spec.user {
            Some(u) => u@,
            None => Seq::empty(),
        };
        match deed {
            WinDeedModel::Probe => match reply {
                WinReply::Look(p) => match p@ {
                    ProbedModel::There => WinNextModel::Served,
                    ProbedModel::Hard(k, t, s) => WinNextModel::Refused(k, t, s),
                    ProbedModel::Denied => if self.spec.user is None {
                        WinNextModel::Refused(VfsErrorKind::Auth, self.denied_text(), None)
                    } else {
                        WinNextModel::Do(WinDeedModel::Credentials)
                    },
                },
                _ => WinNextModel::Served,
            },
            WinDeedModel::Credentials => match reply {
                WinReply::Failed(e) => WinNextModel::Refused(e.kind, e.detail@, e.source),
                WinReply::Password(Some(_)) => WinNextModel::Do(WinDeedModel::Connect(user)),
                _ => WinNextModel::Refused(VfsErrorKind::Auth, self.no_password_text(user), None),
            },
            WinDeedModel::Connect(u) => match reply {
                WinReply::Code(code) => self.after_code(user, u, code),
                _ => WinNextModel::Served,
            },
            WinDeedModel::ProbeAgain(u) => match reply {
                WinReply::Look(p) => match p@ {
                    ProbedModel::There => WinNextModel::Served,
                    ProbedModel::Hard(k, t, s) => WinNextModel::Refused(k, t, s),
                    ProbedModel::Denied => WinNextModel::Refused(
                        VfsErrorKind::Auth,
                        self.unc@ + " accepted the session for '"@ + u + "' but still refuses '"@
                            + self.full@ + "'"@,
                        None,
                    ),
                },
                _ => WinNextModel::Served,
            },
        }
    }

    /// A wrong password is tried once more, with the host in front of the user, unless the user came
    /// with a domain.
    pub open spec fn after_code(self, user: Seq<char>, u: Seq<char>, code: u32) -> WinNextModel {
        if code == 0 {
            WinNextModel::Do(WinDeedModel::ProbeAgain(u))
        } else if code == 1326 || code == 86 {
            if self.tried@.len() == 0 && !carries(user, '\\') {
                WinNextModel::Do(WinDeedModel::Connect(self.on_host(user)))
            } else {
                WinNextModel::Refused(
                    VfsErrorKind::Auth,
                    self.rejected_text(texts(self.tried@).push(WinResolve::turned_away(u, code))),
                    None,
                )
            }
        } else if code == 1219 {
            WinNextModel::Refused(
                VfsErrorKind::Protocol,
                "Windows already holds a session to "@ + self.spec.host@
                    + " under a different account (error 1219) — drop it first: net use "@ + self.unc@
                    + " /delete"@,
                None,
            )
        } else if unreachable_code(code as int) {
            WinNextModel::Refused(
                VfsErrorKind::Transient,
                "cannot reach "@ + self.spec.host@ + " (WNet error "@ + numeral(code as nat) + ")"@,
                None,
            )
        } else if code == 67 {
            WinNextModel::Refused(
                VfsErrorKind::Protocol,
                self.spec.host@ + " answered: no share named '"@ + self.share@ + "' (error 67)"@,
                None,
            )
        } else {
            WinNextModel::Refused(
                VfsErrorKind::Io,
                "WNetAddConnection2 to "@ + self.unc@ + " failed with Windows error "@ + numeral(
                    code as nat,
                ),
                None,
            )
        }
    }

    /// Takes the reply to a deed.
    pub fn feed(&mut self, deed: WinDeed, reply: WinReply) -> (r: WinNext)
        requires
            win_answers(deed@, reply),
        ensures
            r@ == old(self).after(deed@, reply),
            final(self).spec == old(self).spec,
            final(self).share == old(self).share,
            final(self).unc == old(self).unc,
            final(self).full == old(self).full,
            match deed@ {
                WinDeedModel::Connect(u) => match reply {
                    WinReply::Code(code) => texts(final(self).tried@) == if code == 1326 || code == 86 {
                        texts(old(self).tried@).push(WinResolve::turned_away(u, code))
                    } else {
                        texts(old(self).tried@)
                    },
                    _ => true,
                },
                _ => final(self).tried == old(self).tried,
            },
    {
        let user = match &self.spec.user {
            Some(u) => u.clone(),
            None => String::new(),
        };
        match deed {
            WinDeed::Probe => match reply {
                WinReply::Look(p) => match p {
                    Probed::There => WinNext::Served,
                    Probed::Hard(e) => WinNext::Refused(e),
                    Probed::Denied => {
                        if self.spec.user.is_none() {
                            let mut s = "access to ".to_owned();
                            s.append(self.unc.as_str());
                            s.append(
                                " denied under the current Windows login — name a user in the phrase (smb://user@",
                            );
                            s.append(self.spec.host.as_str());
                            s.append("/");
                            s.append(self.share.as_str());
                            s.append(") and store its password with: syncdash cred set \"");
                            s.append(self.spec.display().as_str());
                            s.append("\"");
                            return WinNext::Refused(VfsError::new(VfsErrorKind::Auth, s.as_str()));
                        }
                        WinNext::Do(WinDeed::Credentials)
                    },
                },
                _ => WinNext::Served,
            },
            WinDeed::Credentials => match reply {
                WinReply::Failed(e) => WinNext::Refused(e),
                WinReply::Password(Some(_)) => WinNext::Do(WinDeed::Connect(user)),
                _ => {
                    let mut s = "no stored password for ".to_owned();
                    s.append(user.as_str());
                    s.append("@");
                    s.append(self.spec.host.as_str());
                    s.append(" — store it with: syncdash cred set \"");
                    s.append(self.spec.display().as_str());
                    s.append("\"");
                    WinNext::Refused(VfsError::new(VfsErrorKind::Auth, s.as_str()))
                },
            },
            WinDeed::Connect(u) => match reply {
                WinReply::Code(code) => self.weigh_code(user, u, code),
                _ => WinNext::Served,
            },
            WinDeed::ProbeAgain(u) => match reply {
                WinReply::Look(p) => match p {
                    Probed::There => WinNext::Served,
                    Probed::Hard(e) => WinNext::Refused(e),
                    Probed::Denied => {
                        let mut s = self.unc.clone();
                        s.append(" accepted the session for '");
                        s.append(u.as_str());
                        s.append("' but still refuses '");
                        s.append(self.full.as_str());
                        s.append("'");
                        WinNext::Refused(VfsError::new(VfsErrorKind::Auth, s.as_str()))
                    },
                },
                _ => WinNext::Served,
            },
        }
    }

    fn weigh_code(&mut self, user: String, u: String, code: u32) -> (r: WinNext)
        ensures
            r@ == old(self).after_code(user@, u@, code),
            final(self).spec == old(self).spec,
            final(self).share == old(self).share,
            final(self).unc == old(self).unc,
            final(self).full == old(self).full,
            texts(final(self).tried@) == if code == 1326 || code == 86 {
                texts(old(self).tried@).push(WinResolve::turned_away(u@, code))
            } else {
                texts(old(self).tried@)
            },
    {
        if code == 0 {
            return WinNext::Do(WinDeed::ProbeAgain(u));
        }
        if code == 1326 || code == 86 {
            let first = self.tried.len() == 0;
            let mut line = "'".to_owned();
            line.append(u.as_str());
            line.append("' (logon failure ");
            line.append(decimal(code as u64).as_str());
            line.append(")");
            assert(texts(self.tried@.push(line)) =~= texts(self.tried@).push(line@));
            self.tried.push(line);
            let v = chars_of(user.as_str());
            proof {
                lemma_first_index(v@, '\\');
            }
            if first && find(v.as_slice(), '\\').is_none() {
                let mut s = self.spec.host.clone();
                s.append("\\");
                s.append(user.as_str());
                return WinNext::Do(WinDeed::Connect(s));
            }
            let mut s = self.unc.clone();
            s.append(" rejected the stored password for ");
            s.append(join_texts(&self.tried, " and ").as_str());
            s.append(" — update it with: syncdash cred set \"");
            s.append(self.spec.display().as_str());
            s.append("\"");
            return WinNext::Refused(VfsError::new(VfsErrorKind::Auth, s.as_str()));
        }
        if code == 1219 {
            let mut s = "Windows already holds a session to ".to_owned();
            s.append(self.spec.host.as_str());
            s.append(" under a different account (error 1219) — drop it first: net use ");
            s.append(self.unc.as_str());
            s.append(" /delete");
            return WinNext::Refused(VfsError::new(VfsErrorKind::Protocol, s.as_str()));
        }
        if code == 53 || code == 1231 || code == 1232 || code == 121 || code == 1203 {
            let mut s = "cannot reach ".to_owned();
            s.append(self.spec.host.as_str());
            s.append(" (WNet error ");
            s.append(decimal(code as u64).as_str());
            s.append(")");
            return WinNext::Refused(VfsError::new(VfsErrorKind::Transient, s.as_str()));
        }
        if code == 67 {
            let mut s = self.spec.host.clone();
            s.append(" answered: no share named '");
            s.append(self.share.as_str());
            s.append("' (error 67)");
            return WinNext::Refused(VfsError::new(VfsErrorKind::Protocol, s.as_str()));
        }
        let mut s = "WNetAddConnection2 to ".to_owned();
        s.append(self.unc.as_str());
        s.append(" failed with Windows error ");
        s.append(decimal(code as u64).as_str());
        WinNext::Refused(VfsError::new(VfsErrorKind::Io, s.as_str()))
    }
}

/// Credentials are asked for only after the plain path was denied, and only for a user that the phrase
/// names.
pub proof fn credentials_answer_a_denial(w: WinResolve, deed: WinDeedModel, reply: WinReply)
    requires
        win_answers(deed, reply),
        w.after(deed, reply) == WinNextModel::Do(WinDeedModel::Credentials),
    ensures
        deed is Probe,
        reply matches WinReply::Look(p) && p@ is Denied,
        w.spec.user is Some,
{
}

/// At most two spellings of a user are tried: after one was turned away before, a wrong password ends
/// it.
pub proof fn a_password_is_tried_at_most_twice(w: WinResolve, user: Seq<char>, u: Seq<char>, code: u32)
    requires
        w.tried@.len() > 0,
    ensures
        !(w.after_code(user, u, code) matches WinNextModel::Do(WinDeedModel::Connect(_))),
{
}

/// A denial is told apart from a host that is not there, and both from a share or a path that is not.
pub proof fn refusals_of_a_share_tell_their_kind(path: Seq<char>, f: IoFailure, errnos: Errnos)
    ensures
        probe_failure(path, f, errnos) is Denied <==> f.raw == Some(5i32) || f.raw == Some(86i32) || f.raw
            == Some(1326i32),
        f.raw matches Some(n) && (n == 53 || n == 121 || n == 1203 || n == 1231 || n == 1232) ==> (probe_failure(
            path,
            f,
            errnos,
        ) matches ProbedModel::Hard(k, _, _) && k == VfsErrorKind::Transient),
        f.raw == Some(67i32) ==> (probe_failure(path, f, errnos) matches ProbedModel::Hard(k, _, _) && k
            == VfsErrorKind::Protocol),
        f.raw is None && f.kind == IoKind::NotFound ==> (probe_failure(path, f, errnos) matches ProbedModel::Hard(
            k,
            _,
            _,
        ) && k == VfsErrorKind::NotFound),
        probe_failure(path, f, errnos) !is There,
{
}

/// A share is served only once a look found it there; a session is looked through before it is trusted,
/// and is opened for the user of the phrase, or for that user on the host.
pub proof fn a_share_is_served_once_it_was_seen(w: WinResolve, deed: WinDeedModel, reply: WinReply)
    requires
        win_answers(deed, reply),
    ensures
        w.after(deed, reply) is Served <==> (reply matches WinReply::Look(p) && p@ is There),
        forall|u: Seq<char>|
            (#[trigger] w.after(deed, reply) == WinNextModel::Do(WinDeedModel::ProbeAgain(u))) <==> (deed
                == WinDeedModel::Connect(u) && reply == WinReply::Code(0)),
        w.after(deed, reply) matches WinNextModel::Do(WinDeedModel::Connect(u)) ==> {
            let user = match w.spec.user {
                Some(x) => x@,
                None => Seq::empty(),
            };
            ||| deed is Credentials && (reply matches WinReply::Password(Some(_))) && u == user
            ||| deed is Connect && w.tried@.len() == 0 && (reply == WinReply::Code(1326) || reply == WinReply::Code(86))
                && u == w.spec.host@ + "\\"@ + user
        },
        w.after(deed, reply) != WinNextModel::Do(WinDeedModel::Probe),
        deed is Credentials && reply == WinReply::Password(None) ==> (w.after(deed, reply) matches WinNextModel::Refused(
            k,
            _,
            _,
        ) && k == VfsErrorKind::Auth),
        deed is ProbeAgain ==> !(w.after(deed, reply) is Do),
{
}

/// What a refused session is told as: a wrong password is one of the user, a held session and an unknown
/// share are not, and an unreachable host is worth another try.
pub proof fn refused_sessions_tell_their_kind(w: WinResolve, user: Seq<char>, u: Seq<char>, code: u32)
    ensures
        w.after_code(user, u, code) matches WinNextModel::Refused(k, _, _) ==> {
            &&& k == VfsErrorKind::Auth <==> code == 1326 || code == 86
            &&& k == VfsErrorKind::Transient <==> code == 53 || code == 121 || code == 1203 || code == 1231
                || code == 1232
            &&& k == VfsErrorKind::Protocol <==> code == 1219 || code == 67
            &&& code != 0
        },
        w.after_code(user, u, code) is Do ==> code == 0 || code == 1326 || code == 86,
{
}

} // verus!
