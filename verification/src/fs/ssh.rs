//! One ssh session: the host key is checked, then the ways to log in are tried in turn.
//!
//! Keys come first, the most specific one first, and the password last. Every way that failed is
//! named in the error: that tells the reader what to mend.
use vstd::prelude::*;
use crate::foundation::dirs::{below_of, in_dir};
use crate::fs::vfs::error::{IoFailure, VfsError, VfsErrorKind};
use crate::strings::{
    chars_of, contains_text, decimal, join_texts, joined, numeral, starts_with, text_index, texts,
};

verus! {

/// The host that a key is checked for, against the user's own list of known hosts.
pub struct HostCheck {
    pub host: String,
    pub port: u16,
}

/// Why a connection was not made.
pub enum HostCheckError {
    Ssh(String),
    Unknown { fingerprint: String },
    Changed { fingerprint: String },
}

/// What the list of known hosts says of a key.
#[derive(Clone, Copy, Debug, PartialEq, Eq, Structural)]
pub enum KnownHost {
    Known,
    Unlisted,
    /// The list has another key for this host, or cannot be read.
    Contradicted,
}

impl HostCheck {
    /// Only a key that the list confirms is accepted.
    pub fn judge(&self, known: KnownHost, fingerprint: &str) -> (r: Result<(), HostCheckError>)
        ensures
            match known {
                KnownHost::Known => r is Ok,
                KnownHost::Unlisted => r matches Err(HostCheckError::Unknown { fingerprint: f }) && f@
                    == fingerprint@,
                KnownHost::Contradicted => r matches Err(HostCheckError::Changed { fingerprint: f }) && f@
                    == fingerprint@,
            },
    {
        match known {
            KnownHost::Known => Ok(()),
            KnownHost::Unlisted => Err(
                HostCheckError::Unknown { fingerprint: fingerprint.to_owned() },
            ),
            KnownHost::Contradicted => Err(
                HostCheckError::Changed { fingerprint: fingerprint.to_owned() },
            ),
        }
    }
}

impl HostCheckError {
    pub open spec fn text(self) -> Seq<char> {
        match self {
            HostCheckError::Ssh(e) => e@,
            HostCheckError::Unknown { fingerprint } => "unknown host key "@ + fingerprint@,
            HostCheckError::Changed { fingerprint } => "HOST KEY CHANGED to "@ + fingerprint@,
        }
    }

    pub fn message(&self) -> (r: String)
        ensures
            r@ == self.text(),
    {
        match self {
            HostCheckError::Ssh(e) => e.clone(),
            HostCheckError::Unknown { fingerprint } => {
                let mut s = "unknown host key ".to_owned();
                s.append(fingerprint.as_str());
                s
            },
            HostCheckError::Changed { fingerprint } => {
                let mut s = "HOST KEY CHANGED to ".to_owned();
                s.append(fingerprint.as_str());
                s
            },
        }
    }
}

/// What a failed connection means, and what to do about it.
pub open spec fn connect_error(e: HostCheckError, host: Seq<char>, display: Seq<char>) -> (
    VfsErrorKind,
    Seq<char>,
) {
    match e {
        HostCheckError::Changed { fingerprint } => (
            VfsErrorKind::Auth,
            "!!! the host key for "@ + host + " DOES NOT MATCH ~/.ssh/known_hosts (now "@ + fingerprint@
                + ") — possible man-in-the-middle; refusing. If the server was really reinstalled, remove the old line with ssh-keygen -R "@
                + host,
        ),
        HostCheckError::Unknown { fingerprint } => (
            VfsErrorKind::Auth,
            host + " is not in ~/.ssh/known_hosts (its key is "@ + fingerprint@
                + ") — connect once with `ssh "@ + host + "` to record it, then retry '"@ + display
                + "'"@,
        ),
        HostCheckError::Ssh(text) => (
            VfsErrorKind::Transient,
            "ssh connection to "@ + host + " failed: "@ + text@,
        ),
    }
}

pub fn map_connect_err(e: &HostCheckError, host: &str, display: &str) -> (r: VfsError)
    ensures
        (r.kind, r.detail@) == connect_error(*e, host@, display@),
        r.source is None,
{
    match e {
        HostCheckError::Changed { fingerprint } => {
            let mut s = "!!! the host key for ".to_owned();
            s.append(host);
            s.append(" DOES NOT MATCH ~/.ssh/known_hosts (now ");
            s.append(fingerprint.as_str());
            s.append(
                ") — possible man-in-the-middle; refusing. If the server was really reinstalled, remove the old line with ssh-keygen -R ",
            );
            s.append(host);
            VfsError::new(VfsErrorKind::Auth, s.as_str())
        },
        HostCheckError::Unknown { fingerprint } => {
            let mut s = host.to_owned();
            s.append(" is not in ~/.ssh/known_hosts (its key is ");
            s.append(fingerprint.as_str());
            s.append(") — connect once with `ssh ");
            s.append(host);
            s.append("` to record it, then retry '");
            s.append(display);
            s.append("'");
            VfsError::new(VfsErrorKind::Auth, s.as_str())
        },
        HostCheckError::Ssh(text) => {
            let mut s = "ssh connection to ".to_owned();
            s.append(host);
            s.append(" failed: ");
            s.append(text.as_str());
            VfsError::new(VfsErrorKind::Transient, s.as_str())
        },
    }
}

/// The connection took longer than `after`.
pub fn connect_timeout(host: &str, port: u16, after: &str) -> (r: VfsError)
    ensures
        r.kind == VfsErrorKind::Transient,
        r.detail@ == "connecting to "@ + host@ + ":"@ + numeral(port as nat) + " timed out after "@
            + after@,
        r.source is None,
{
    let mut s = "connecting to ".to_owned();
    s.append(host);
    s.append(":");
    s.append(decimal(port as u64).as_str());
    s.append(" timed out after ");
    s.append(after);
    VfsError::new(VfsErrorKind::Transient, s.as_str())
}

/// The keys that are tried where the user names none, most preferred first.
pub fn default_keys(home: &str, windows: bool) -> (r: Vec<String>)
    ensures
        ({
            let ssh = below_of(home@, windows, ".ssh"@);
            texts(r@) == seq![
                below_of(ssh, windows, "id_ed25519"@),
                below_of(ssh, windows, "id_ecdsa"@),
                below_of(ssh, windows, "id_rsa"@),
            ]
        }),
{
    let ssh = in_dir(home, windows, ".ssh");
    let mut v: Vec<String> = Vec::new();
    v.push(in_dir(ssh.as_str(), windows, "id_ed25519"));
    v.push(in_dir(ssh.as_str(), windows, "id_ecdsa"));
    v.push(in_dir(ssh.as_str(), windows, "id_rsa"));
    proof {
        let s = below_of(home@, windows, ".ssh"@);
        assert(texts(v@) =~= seq![
            below_of(s, windows, "id_ed25519"@),
            below_of(s, windows, "id_ecdsa"@),
            below_of(s, windows, "id_rsa"@),
        ]);
    }
    v
}

/// What is wrong with a key file that cannot be read, told by its first line.
pub open spec fn key_hint(head: Seq<char>) -> Seq<char> {
    if text_index(head, "PuTTY"@) is Some {
        " — this is a PuTTY .ppk; export an OpenSSH-format key with puttygen"@
    } else if "ssh-"@.is_prefix_of(head) || "ecdsa-"@.is_prefix_of(head) {
        " — this is a PUBLIC key; point at the private one"@
    } else {
        ""@
    }
}

fn hint_for(head: &str) -> (r: &'static str)
    ensures
        r@ == key_hint(head@),
{
    let h = chars_of(head);
    if contains_text(h.as_slice(), chars_of("PuTTY").as_slice()) {
        " — this is a PuTTY .ppk; export an OpenSSH-format key with puttygen"
    } else if starts_with(h.as_slice(), chars_of("ssh-").as_slice()) || starts_with(
        h.as_slice(),
        chars_of("ecdsa-").as_slice(),
    ) {
        " — this is a PUBLIC key; point at the private one"
    } else {
        ""
    }
}

/// A session that is being logged in to.
pub struct Login {
    pub user: String,
    pub host: String,
    /// The key files, in the order in which they are tried.
    pub keys: Vec<String>,
    /// The user named the key, so that a broken one is an error and not a way to step past.
    pub explicit: bool,
    pub has_password: bool,
    /// The key at hand; all keys are through at the end.
    pub at: usize,
    /// What was tried, and how it came out.
    pub tried: Vec<String>,
}

pub struct LoginModel {
    pub user: Seq<char>,
    pub host: Seq<char>,
    pub keys: Seq<Seq<char>>,
    pub explicit: bool,
    pub has_password: bool,
    pub at: int,
    pub tried: Seq<Seq<char>>,
}

impl View for Login {
    type V = LoginModel;

    open spec fn view(&self) -> LoginModel {
        LoginModel {
            user: self.user@,
            host: self.host@,
            keys: texts(self.keys@),
            explicit: self.explicit,
            has_password: self.has_password,
            at: self.at as int,
            tried: texts(self.tried@),
        }
    }
}

/// What is to be tried next.
#[derive(Clone, Copy, Debug, PartialEq, Eq, Structural)]
pub enum LoginDeed {
    /// Load the key at hand and offer it.
    Key,
    /// Offer the password.
    Password,
}

/// How an attempt came out.
pub enum LoginReply {
    Accepted,
    Refused,
    /// The attempt itself failed.
    Broke(String),
    /// The key file could not be loaded; its first line, empty where there is none.
    Unreadable { error: String, head: String },
}

pub enum LoginNext {
    Do(LoginDeed),
    In,
    Failed(VfsError),
}

pub enum LoginNextModel {
    Do(LoginDeed),
    In,
    Failed(VfsErrorKind, Seq<char>, Option<IoFailure>),
}

impl View for LoginNext {
    type V = LoginNextModel;

    open spec fn view(&self) -> LoginNextModel {
        match *self {
            LoginNext::Do(d) => LoginNextModel::Do(d),
            LoginNext::In => LoginNextModel::In,
            LoginNext::Failed(e) => LoginNextModel::Failed(e.kind, e.detail@, e.source),
        }
    }
}

/// Nothing was left to try.
pub open spec fn exhausted(m: LoginModel) -> LoginNextModel {
    LoginNextModel::Failed(
        VfsErrorKind::Auth,
        "authentication to "@ + m.user + "@"@ + m.host + " failed; tried: "@ + joined(m.tried, "; "@),
        None,
    )
}

/// Where it goes on: the next key, the password, or the end.
pub open spec fn login_next(m: LoginModel) -> (LoginModel, LoginNextModel) {
    if m.at < m.keys.len() {
        (m, LoginNextModel::Do(LoginDeed::Key))
    } else if m.has_password {
        (m, LoginNextModel::Do(LoginDeed::Password))
    } else {
        let n = LoginModel {
            tried: m.tried.push("password (none stored — syncdash cred set can add one)"@),
            ..m
        };
        (n, exhausted(n))
    }
}

/// One more way that did not work.
pub open spec fn noted(m: LoginModel, line: Seq<char>) -> LoginModel {
    LoginModel { at: m.at + 1, tried: m.tried.push(line), ..m }
}

/// How logging in goes on after an attempt.
pub open spec fn login_after(m: LoginModel, deed: LoginDeed, reply: LoginReply) -> (
    LoginModel,
    LoginNextModel,
) {
    match deed {
        LoginDeed::Key => {
            let key = "key "@ + m.keys[m.at];
            match reply {
                LoginReply::Accepted => (noted(m, key + " ✓"@), LoginNextModel::In),
                LoginReply::Refused => login_next(noted(m, key + " (server refused)"@)),
                LoginReply::Broke(e) => login_next(noted(m, key + " ("@ + e@ + ")"@)),
                LoginReply::Unreadable { error, head } => {
                    let line = key + " unreadable: "@ + error@ + key_hint(head@);
                    if m.explicit {
                        (m, LoginNextModel::Failed(VfsErrorKind::Auth, line, None))
                    } else {
                        login_next(noted(m, line))
                    }
                },
            }
        },
        LoginDeed::Password => match reply {
            LoginReply::Accepted => (
                LoginModel { tried: m.tried.push("password ✓"@), ..m },
                LoginNextModel::In,
            ),
            LoginReply::Broke(e) => {
                let n = LoginModel { tried: m.tried.push("password ("@ + e@ + ")"@), ..m };
                (n, exhausted(n))
            },
            _ => {
                let n = LoginModel { tried: m.tried.push("password (server refused)"@), ..m };
                (n, exhausted(n))
            },
        },
    }
}

impl Login {
    fn note(&mut self, line: String)
        ensures
            *final(self) == (Login { tried: final(self).tried, ..*old(self) }),
            texts(final(self).tried@) == texts(old(self).tried@).push(line@),
    {
        proof {
            assert(texts(self.tried@.push(line)) =~= texts(self.tried@).push(line@));
        }
        self.tried.push(line);
    }

    fn give_up(&self) -> (r: LoginNext)
        ensures
            r@ == exhausted(self@),
    {
        let mut s = "authentication to ".to_owned();
        s.append(self.user.as_str());
        s.append("@");
        s.append(self.host.as_str());
        s.append(" failed; tried: ");
        s.append(join_texts(&self.tried, "; ").as_str());
        LoginNext::Failed(VfsError::new(VfsErrorKind::Auth, s.as_str()))
    }

    fn next(&mut self) -> (r: LoginNext)
        requires
            old(self).at <= old(self).keys@.len(),
        ensures
            (final(self)@, r@) == login_next(old(self)@),
            final(self).at == old(self).at,
            final(self).keys == old(self).keys,
            r@ == LoginNextModel::Do(LoginDeed::Key) ==> final(self).at < final(self).keys@.len(),
    {
        if self.at < self.keys.len() {
            LoginNext::Do(LoginDeed::Key)
        } else if self.has_password {
            LoginNext::Do(LoginDeed::Password)
        } else {
            self.note("password (none stored — syncdash cred set can add one)".to_owned());
            self.give_up()
        }
    }

    /// Begins: with the key that the user named, or else with the default keys that exist.
    pub fn start(
        user: &str,
        host: &str,
        keyfile: &Option<String>,
        existing: Vec<String>,
        has_password: bool,
    ) -> (r: (Login, LoginNext))
        ensures
            ({
                let m = LoginModel {
                    user: user@,
                    host: host@,
                    keys: match *keyfile {
                        Some(k) => seq![k@],
                        None => texts(existing@),
                    },
                    explicit: keyfile is Some,
                    has_password,
                    at: 0,
                    tried: Seq::empty(),
                };
                (r.0@, r.1@) == login_next(m)
            }),
            r.1@ == LoginNextModel::Do(LoginDeed::Key) ==> r.0.at < r.0.keys@.len(),
    {
        let explicit = keyfile.is_some();
        let keys = match keyfile {
            Some(k) => {
                let mut v: Vec<String> = Vec::new();
                v.push(k.clone());
                assert(texts(v@) =~= seq![k@]);
                v
            },
            None => existing,
        };
        let mut l = Login {
            user: user.to_owned(),
            host: host.to_owned(),
            keys,
            explicit,
            has_password,
            at: 0,
            tried: Vec::new(),
        };
        assert(l@.tried =~= Seq::<Seq<char>>::empty());
        let n = l.next();
        (l, n)
    }

    /// Takes the outcome of an attempt.
    pub fn feed(&mut self, deed: LoginDeed, reply: LoginReply) -> (r: LoginNext)
        requires
            deed == LoginDeed::Key ==> old(self).at < old(self).keys@.len(),
            deed == LoginDeed::Password ==> !(reply is Unreadable),
        ensures
            (final(self)@, r@) == login_after(old(self)@, deed, reply),
            r@ == LoginNextModel::Do(LoginDeed::Key) ==> final(self).at < final(self).keys@.len(),
    {
        match deed {
            LoginDeed::Key => {
                let i = self.at;
                let n = self.keys.len();
                let mut line = "key ".to_owned();
                line.append(self.keys[i].as_str());
                assert(self@.keys[self@.at] == self.keys@[i as int]@);
                match reply {
                    LoginReply::Accepted => {
                        line.append(" ✓");
                        self.note(line);
                        self.at = i + 1;
                        LoginNext::In
                    },
                    LoginReply::Refused => {
                        line.append(" (server refused)");
                        self.note(line);
                        self.at = i + 1;
                        self.next()
                    },
                    LoginReply::Broke(e) => {
                        line.append(" (");
                        line.append(e.as_str());
                        line.append(")");
                        self.note(line);
                        self.at = i + 1;
                        self.next()
                    },
                    LoginReply::Unreadable { error, head } => {
                        line.append(" unreadable: ");
                        line.append(error.as_str());
                        line.append(hint_for(head.as_str()));
                        if self.explicit {
                            return LoginNext::Failed(
                                VfsError::new(VfsErrorKind::Auth, line.as_str()),
                            );
                        }
                        self.note(line);
                        self.at = i + 1;
                        self.next()
                    },
                }
            },
            LoginDeed::Password => match reply {
                LoginReply::Accepted => {
                    self.note("password ✓".to_owned());
                    LoginNext::In
                },
                LoginReply::Broke(e) => {
                    let mut line = "password (".to_owned();
                    line.append(e.as_str());
                    line.append(")");
                    self.note(line);
                    self.give_up()
                },
                _ => {
                    self.note("password (server refused)".to_owned());
                    self.give_up()
                },
            },
        }
    }

    /// How the session was logged in to, for a line about the server.
    pub fn auth_summary(&self) -> (r: String)
        ensures
            r@ == if self.tried@.len() == 0 {
                Seq::empty()
            } else {
                self.tried@.last()@
            },
    {
        let n = self.tried.len();
        if n == 0 {
            String::new()
        } else {
            self.tried[n - 1].clone()
        }
    }
}

/// Nobody is in unless the server accepted something.
pub proof fn only_acceptance_logs_in(m: LoginModel, deed: LoginDeed, reply: LoginReply)
    requires
        login_after(m, deed, reply).1 is In,
    ensures
        reply is Accepted,
{
}

/// A key that the user named and that cannot be read ends the attempt: nothing else is tried in its
/// place.
pub proof fn a_named_key_is_not_stepped_past(m: LoginModel, reply: LoginReply)
    requires
        m.explicit,
        reply is Unreadable,
    ensures
        login_after(m, LoginDeed::Key, reply).0 == m,
        login_after(m, LoginDeed::Key, reply).1 is Failed,
{
}

/// The password comes last: it is offered only once every key is through.
pub proof fn the_password_comes_last(m: LoginModel)
    requires
        login_next(m).1 == LoginNextModel::Do(LoginDeed::Password),
    ensures
        m.at >= m.keys.len(),
        m.has_password,
{
}

/// Every way that failed is on the list: an attempt adds one line to it, unless it ends at a named key.
pub proof fn every_failed_way_is_named(m: LoginModel, deed: LoginDeed, reply: LoginReply)
    requires
        !(m.explicit && deed == LoginDeed::Key && reply is Unreadable),
    ensures
        login_after(m, deed, reply).0.tried.len() >= m.tried.len() + 1,
        login_after(m, deed, reply).0.tried.take(m.tried.len() as int) == m.tried,
{
    let out = login_after(m, deed, reply).0.tried;
    assert(out.take(m.tried.len() as int) =~= m.tried);
}

/// Who is accepted is in, by whatever way.
pub proof fn acceptance_is_enough(m: LoginModel, deed: LoginDeed)
    ensures
        login_after(m, deed, LoginReply::Accepted).1 is In,
{
}

/// Keys are tried one after the other and none is left out: after one that did not work comes the next,
/// then the password if there is one, and a refusal is final only when all of that is through.
pub proof fn no_way_is_left_out(m: LoginModel, reply: LoginReply)
    requires
        0 <= m.at < m.keys.len(),
        !(reply is Accepted),
        !(m.explicit && reply is Unreadable),
    ensures
        ({
            let (n, next) = login_after(m, LoginDeed::Key, reply);
            &&& n.at == m.at + 1
            &&& n.keys == m.keys
            &&& n.has_password == m.has_password
            &&& n.at < n.keys.len() ==> next == LoginNextModel::Do(LoginDeed::Key)
            &&& n.at >= n.keys.len() && n.has_password ==> next == LoginNextModel::Do(LoginDeed::Password)
            &&& n.at >= n.keys.len() && !n.has_password ==> (next matches LoginNextModel::Failed(kind, _, _)
                && kind == VfsErrorKind::Auth)
        }),
{
}

/// A password that is not taken ends the attempt as a refusal.
pub proof fn a_refused_password_is_the_end(m: LoginModel, reply: LoginReply)
    requires
        !(reply is Accepted),
    ensures
        login_after(m, LoginDeed::Password, reply).1 matches LoginNextModel::Failed(kind, _, _) && kind
            == VfsErrorKind::Auth,
{
}

/// A host key that is not known or not the known one is a matter of trust, never one to try again; what
/// failed for another reason may be tried again. The message shows the key and the host.
pub proof fn distrust_is_not_retried(e: HostCheckError, host: Seq<char>, display: Seq<char>)
    ensures
        connect_error(e, host, display).0 == VfsErrorKind::Auth <==> !(e is Ssh),
        e is Ssh ==> connect_error(e, host, display).0 == VfsErrorKind::Transient,
        e matches HostCheckError::Changed { fingerprint } ==> exists|a: Seq<char>, b: Seq<char>| #[trigger]
            (a + fingerprint@ + b) == connect_error(e, host, display).1,
        e matches HostCheckError::Unknown { fingerprint } ==> host.is_prefix_of(
            connect_error(e, host, display).1,
        ) && exists|a: Seq<char>, b: Seq<char>| #[trigger]
            (a + fingerprint@ + b) == connect_error(e, host, display).1,
{
    let text = connect_error(e, host, display).1;
    match e {
        HostCheckError::Changed { fingerprint } => {
            let a = "!!! the host key for "@ + host + " DOES NOT MATCH ~/.ssh/known_hosts (now "@;
            let b = text.skip((a + fingerprint@).len() as int);
            assert(a + fingerprint@ =~= text.take((a + fingerprint@).len() as int));
            assert(a + fingerprint@ + b =~= text);
        },
        HostCheckError::Unknown { fingerprint } => {
            let a = host + " is not in ~/.ssh/known_hosts (its key is "@;
            let b = text.skip((a + fingerprint@).len() as int);
            assert(a + fingerprint@ =~= text.take((a + fingerprint@).len() as int));
            assert(a + fingerprint@ + b =~= text);
            assert(host =~= text.take(host.len() as int));
        },
        _ => {},
    }
}

} // verus!
