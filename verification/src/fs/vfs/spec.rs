//! Root phrases: one string names where a sync root lives.
//!
//! ```text
//! remote := scheme "://" [user "@"] host [":" port] ["/" path] {"|" opt}
//! scheme := "sftp" | "ftp" | "ftps" | "smb"        (case-insensitive)
//! host   := name | ipv4 | "[" ipv6 "]"
//! opt    := key ["=" value]
//! ```
//!
//! What has no known scheme is a local path, with one exception: `xyz://` with an unknown scheme
//! is never local. A typo read as a relative path would quietly create a directory of that name.
//! Parsing never fails; the error is raised where a root is opened.
use vstd::prelude::*;
use vstd::utf8::is_ascii_chars;
use crate::foundation::text::{ascii_lowered, lowercase, to_ascii_lower, to_lowercase};
use crate::strings::{
    ascii_alpha, ascii_digit, carries, char_lists, chars_of, decimal, find, find_text, first_index,
    join, last_index, numeral, parse_decimal, parsed, replace_char, replace_text, replaced, rfind, same,
    slice, split, split_chars, starts_with, substituted, text_index, text_of, trim, trimmed, white,
};

verus! {

#[derive(Debug, PartialEq, Eq)]
pub enum RootSpec {
    Local(String),
    Remote(RemoteSpec),
    /// The in-memory test filesystem; the phrase carries its knobs.
    Fake(String),
    /// A scheme that is not one of ours. Never silently local.
    UnknownScheme { raw: String, scheme: String },
}

#[derive(Debug, PartialEq, Eq)]
pub struct RemoteSpec {
    /// In lower case.
    pub scheme: String,
    pub user: Option<String>,
    pub host: String,
    pub port: Option<u16>,
    /// The root on the server, `/`-separated, without `/` at either end. Empty is the protocol's
    /// own default.
    pub root: String,
    /// The `|key=value` tail. A flag has an empty value.
    pub options: Vec<(String, String)>,
}

/// A remote root over its texts.
pub struct RemoteModel {
    pub scheme: Seq<char>,
    pub user: Option<Seq<char>>,
    pub host: Seq<char>,
    pub port: Option<u16>,
    pub root: Seq<char>,
    pub options: Seq<(Seq<char>, Seq<char>)>,
}

/// A root over its texts.
pub enum RootModel {
    Local(Seq<char>),
    Remote(RemoteModel),
    Fake(Seq<char>),
    UnknownScheme { raw: Seq<char>, scheme: Seq<char> },
}

pub open spec fn option_texts(v: Seq<(String, String)>) -> Seq<(Seq<char>, Seq<char>)> {
    Seq::new(v.len(), |i: int| (v[i].0@, v[i].1@))
}

impl View for RemoteSpec {
    type V = RemoteModel;

    open spec fn view(&self) -> RemoteModel {
        RemoteModel {
            scheme: self.scheme@,
            user: match self.user {
                Some(u) => Some(u@),
                None => None,
            },
            host: self.host@,
            port: self.port,
            root: self.root@,
            options: option_texts(self.options@),
        }
    }
}

impl View for RootSpec {
    type V = RootModel;

    open spec fn view(&self) -> RootModel {
        match *self {
            RootSpec::Local(p) => RootModel::Local(p@),
            RootSpec::Remote(r) => RootModel::Remote(r@),
            RootSpec::Fake(p) => RootModel::Fake(p@),
            RootSpec::UnknownScheme { raw, scheme } => RootModel::UnknownScheme {
                raw: raw@,
                scheme: scheme@,
            },
        }
    }
}

/// The schemes that have a backend.
pub open spec fn known_schemes() -> Seq<Seq<char>> {
    seq!["sftp"@, "ftp"@, "ftps"@, "smb"@]
}

pub open spec fn known_scheme(s: Seq<char>) -> bool {
    s == "sftp"@ || s == "ftp"@ || s == "ftps"@ || s == "smb"@
}

pub fn is_known_scheme(s: &str) -> (r: bool)
    ensures
        r == known_scheme(s@),
{
    same(s, "sftp") || same(s, "ftp") || same(s, "ftps") || same(s, "smb")
}

pub open spec fn port_of(scheme: Seq<char>) -> u16 {
    if scheme == "sftp"@ {
        22
    } else if scheme == "ftp"@ || scheme == "ftps"@ {
        21
    } else if scheme == "smb"@ {
        445
    } else {
        0
    }
}

/// The port a scheme is spoken on where the phrase names none.
pub fn default_port(scheme: &str) -> (r: u16)
    ensures
        r == port_of(scheme@),
{
    if same(scheme, "sftp") {
        22
    } else if same(scheme, "ftp") || same(scheme, "ftps") {
        21
    } else if same(scheme, "smb") {
        445
    } else {
        0
    }
}

/// A host as it stands in a phrase: an IPv6 literal in brackets.
pub open spec fn host_text(host: Seq<char>) -> Seq<char> {
    if carries(host, ':') {
        seq!['['] + host + seq![']']
    } else {
        host
    }
}

impl RemoteModel {
    pub open spec fn user_text(self) -> Seq<char> {
        match self.user {
            Some(u) => u + seq!['@'],
            None => Seq::empty(),
        }
    }

    pub open spec fn shown(self) -> Seq<char> {
        let front = self.scheme + "://"@ + self.user_text() + host_text(self.host);
        let placed = match self.port {
            Some(p) => front + ":"@ + numeral(p as nat),
            None => front,
        };
        if self.root.len() == 0 {
            placed
        } else {
            placed + "/"@ + self.root
        }
    }

    pub open spec fn canonical(self) -> Seq<char> {
        self.canonical_at(lowercase(self.host))
    }

    /// The canonical form with the host spelt so.
    pub open spec fn canonical_at(self, host: Seq<char>) -> Seq<char> {
        let port = match self.port {
            Some(p) => p,
            None => port_of(self.scheme),
        };
        self.scheme + "://"@ + self.user_text() + host_text(host) + ":"@ + numeral(
            port as nat,
        ) + "/"@ + self.root
    }

    /// The value of the first option of that name.
    pub open spec fn option(self, key: Seq<char>) -> Option<Seq<char>> {
        first_option(self.options, key)
    }
}

pub open spec fn first_option(options: Seq<(Seq<char>, Seq<char>)>, key: Seq<char>) -> Option<
    Seq<char>,
>
    decreases options.len(),
{
    if options.len() == 0 {
        None
    } else if options[0].0 == key {
        Some(options[0].1)
    } else {
        first_option(options.skip(1), key)
    }
}

fn push_host(s: &mut String, host: &str)
    ensures
        final(s)@ == old(s)@ + host_text(host@),
{
    let v = chars_of(host);
    if find(v.as_slice(), ':').is_some() {
        proof {
            crate::strings::lemma_first_index(host@, ':');
        }
        s.append("[");
        s.append(host);
        s.append("]");
        proof {
            reveal_strlit("[");
            reveal_strlit("]");
            assert(s@ =~= old(s)@ + host_text(host@));
        }
    } else {
        s.append(host);
    }
}

impl RemoteSpec {
    fn with_user(&self) -> (s: String)
        ensures
            s@ == self@.scheme + "://"@ + self@.user_text(),
    {
        let mut s = self.scheme.clone();
        s.append("://");
        match &self.user {
            Some(u) => {
                s.append(u.as_str());
                s.append("@");
                proof {
                    reveal_strlit("@");
                    assert(s@ =~= self@.scheme + "://"@ + self@.user_text());
                }
            },
            None => {
                assert(s@ =~= self@.scheme + "://"@ + self@.user_text());
            },
        }
        s
    }

    /// For table and plan headers, logs and the interface: without options.
    pub fn display(&self) -> (r: String)
        ensures
            r@ == self@.shown(),
    {
        let mut s = self.with_user();
        push_host(&mut s, self.host.as_str());
        if let Some(p) = self.port {
            s.append(":");
            let n = decimal(p as u64);
            s.append(n.as_str());
        }
        if self.root.as_str().unicode_len() > 0 {
            s.append("/");
            s.append(self.root.as_str());
        }
        s
    }

    /// Canonical identity, which caches and locks hang off. The host is folded to lower case, the
    /// user is kept, and the port is always spelt out.
    pub fn identity(&self) -> (r: String)
        ensures
            r@ == self@.canonical(),
            is_ascii_chars(self.host@) ==> r@ == self@.canonical_at(ascii_lowered(self.host@)),
    {
        let mut s = self.with_user();
        let host = to_lowercase(self.host.as_str());
        push_host(&mut s, host.as_str());
        s.append(":");
        let port: u16 = match self.port {
            Some(p) => p,
            None => default_port(self.scheme.as_str()),
        };
        let n = decimal(port as u64);
        s.append(n.as_str());
        s.append("/");
        s.append(self.root.as_str());
        s
    }

    /// The value of an option, `Some("")` for a flag.
    pub fn opt(&self, key: &str) -> (r: Option<&str>)
        ensures
            match r {
                Some(v) => self@.option(key@) == Some(v@),
                None => self@.option(key@) is None,
            },
    {
        let ghost all = self@.options;
        let mut i: usize = 0;
        assert(all.skip(0) =~= all);
        while i < self.options.len()
            invariant
                i <= self.options@.len(),
                all == self@.options,
                first_option(all, key@) == first_option(all.skip(i as int), key@),
            decreases self.options@.len() - i,
        {
            proof {
                assert(all.skip(i as int)[0] == all[i as int]);
                assert(all.skip(i as int).skip(1) =~= all.skip(i as int + 1));
            }
            if same(self.options[i].0.as_str(), key) {
                return Some(self.options[i].1.as_str());
            }
            i = i + 1;
        }
        None
    }

    /// Whether the option is there, with or without a value.
    pub fn has_flag(&self, key: &str) -> (r: bool)
        ensures
            r == (self@.option(key@) is Some),
    {
        self.opt(key).is_some()
    }
}

/// A drive letter with its colon, alone or with a separator behind it.
pub open spec fn drive_path(s: Seq<char>) -> bool {
    s.len() >= 2 && ascii_alpha(s[0]) && s[1] == ':' && (s.len() == 2 || s[2] == '\\' || s[2] == '/')
}

fn looks_like_drive_path(s: &[char]) -> (r: bool)
    ensures
        r == drive_path(s@),
{
    s.len() >= 2 && (('A' <= s[0] && s[0] <= 'Z') || ('a' <= s[0] && s[0] <= 'z')) && s[1] == ':' && (
    s.len() == 2 || s[2] == '\\' || s[2] == '/')
}

/// Letters and digits only, and at least one.
pub open spec fn scheme_shaped(s: Seq<char>) -> bool {
    s.len() > 0 && forall|i: int|
        0 <= i < s.len() ==> ascii_alpha(#[trigger] s[i]) || ascii_digit(s[i])
}

fn is_scheme_shaped(s: &[char]) -> (r: bool)
    ensures
        r == scheme_shaped(s@),
{
    let mut i: usize = 0;
    while i < s.len()
        invariant
            i <= s@.len(),
            forall|j: int| 0 <= j < i ==> ascii_alpha(#[trigger] s@[j]) || ascii_digit(s@[j]),
        decreases s@.len() - i,
    {
        let c = s[i];
        if !(('A' <= c && c <= 'Z') || ('a' <= c && c <= 'z') || ('0' <= c && c <= '9')) {
            assert(!(ascii_alpha(s@[i as int]) || ascii_digit(s@[i as int])));
            return false;
        }
        i = i + 1;
    }
    s.len() > 0
}

/// What a phrase names.
pub open spec fn root_of(raw: Seq<char>) -> RootModel {
    let s = trim(raw);
    if "\\\\"@.is_prefix_of(s) || drive_path(s) {
        RootModel::Local(s)
    } else {
        match text_index(s, "://"@) {
            Some(i) => {
                let scheme = ascii_lowered(s.take(i));
                if !scheme_shaped(scheme) {
                    RootModel::Local(s)
                } else if scheme == "fake"@ {
                    RootModel::Fake(s)
                } else if known_scheme(scheme) {
                    RootModel::Remote(remote_of(scheme, s.skip(i + 3)))
                } else {
                    RootModel::UnknownScheme { raw: s, scheme }
                }
            },
            None => RootModel::Local(s),
        }
    }
}

/// One piece of the option tail.
pub open spec fn option_of(p: Seq<char>) -> (Seq<char>, Seq<char>) {
    let i = first_index(p, '=');
    if i < p.len() {
        (trim(p.take(i)), trim(p.skip(i + 1)))
    } else {
        (trim(p), Seq::empty())
    }
}

/// The options of the pieces that are not blank.
pub open spec fn options_of(parts: Seq<Seq<char>>) -> Seq<(Seq<char>, Seq<char>)>
    decreases parts.len(),
{
    if parts.len() == 0 {
        Seq::empty()
    } else {
        let before = options_of(parts.drop_last());
        if trim(parts.last()).len() == 0 {
            before
        } else {
            before.push(option_of(parts.last()))
        }
    }
}

/// What stands behind `scheme://`.
pub open spec fn remote_of(scheme: Seq<char>, rest: Seq<char>) -> RemoteModel {
    let parts = split(rest, '|');
    let head = parts[0];
    let slash = first_index(head, '/');
    let authority = head.take(slash);
    let path = if slash < head.len() {
        head.skip(slash + 1)
    } else {
        Seq::empty()
    };
    let at = last_index(authority, '@');
    let hostport = authority.skip(at + 1);
    RemoteModel {
        scheme,
        user: if at >= 0 {
            Some(user_of(authority.take(at)))
        } else {
            None
        },
        host: host_of(hostport).0,
        port: host_of(hostport).1,
        root: rooted(path),
        options: options_of(parts.skip(1)),
    }
}

/// The three characters that a user name cannot carry as they are.
pub open spec fn user_of(u: Seq<char>) -> Seq<char> {
    substituted(
        substituted(substituted(substituted(u, "%40"@, "@"@), "%3A"@, ":"@), "%3a"@, ":"@),
        "%25"@,
        "%"@,
    )
}

pub open spec fn port_text(s: Seq<char>) -> Option<u16> {
    match parsed(s, 65535) {
        Some(n) => Some(n as u16),
        None => None,
    }
}

/// Host and port. A bare IPv6 address has no port; an unclosed bracket keeps what it can.
pub open spec fn host_of(s: Seq<char>) -> (Seq<char>, Option<u16>) {
    if s.len() > 0 && s[0] == '[' {
        let rest = s.skip(1);
        let end = first_index(rest, ']');
        if end < rest.len() {
            let after = rest.skip(end + 1);
            (
                rest.take(end),
                if after.len() > 0 && after[0] == ':' {
                    port_text(after.skip(1))
                } else {
                    None
                },
            )
        } else {
            (rest, None)
        }
    } else {
        let i = first_index(s, ':');
        if i < s.len() && !carries(s.skip(i + 1), ':') && port_text(s.skip(i + 1)) is Some {
            (s.take(i), port_text(s.skip(i + 1)))
        } else {
            (s, None)
        }
    }
}

/// A path segment that names something.
pub open spec fn names_something(s: Seq<char>) -> bool {
    s.len() > 0 && s != "."@
}

pub open spec fn naming(parts: Seq<Seq<char>>) -> Seq<Seq<char>>
    decreases parts.len(),
{
    if parts.len() == 0 {
        Seq::empty()
    } else if names_something(parts.last()) {
        naming(parts.drop_last()).push(parts.last())
    } else {
        naming(parts.drop_last())
    }
}

/// A server path with `/` for separator, without empty and `.` segments.
pub open spec fn rooted(p: Seq<char>) -> Seq<char> {
    join(naming(split(replaced(p, '\\', '/'), '/')), '/')
}

/// The phrase, read. Never fails.
pub fn parse(raw: &str) -> (r: RootSpec)
    ensures
        r@ == root_of(raw@),
{
    let all = chars_of(raw);
    let s = trimmed(all.as_slice());
    let unc = chars_of("\\\\");
    if starts_with(s.as_slice(), unc.as_slice()) || looks_like_drive_path(s.as_slice()) {
        return RootSpec::Local(text_of(s.as_slice()));
    }
    let mark = chars_of("://");
    let n = s.len();
    match find_text(s.as_slice(), mark.as_slice()) {
        Some(i) => {
            let head = slice(s.as_slice(), 0, i);
            assert(head@ =~= s@.take(i as int));
            let scheme = to_ascii_lower(head.as_slice());
            if is_scheme_shaped(scheme.as_slice()) {
                let name = text_of(scheme.as_slice());
                if same(name.as_str(), "fake") {
                    return RootSpec::Fake(text_of(s.as_slice()));
                }
                if is_known_scheme(name.as_str()) {
                    proof {
                        reveal_strlit("://");
                    }
                    let rest = slice(s.as_slice(), i + mark.len(), n);
                    assert(rest@ =~= s@.skip(i + 3));
                    return RootSpec::Remote(parse_remote(name, rest));
                }
                return RootSpec::UnknownScheme { raw: text_of(s.as_slice()), scheme: name };
            }
        },
        None => {},
    }
    RootSpec::Local(text_of(s.as_slice()))
}

fn parse_option(p: &[char]) -> (r: (String, String))
    ensures
        (r.0@, r.1@) == option_of(p@),
{
    let n = p.len();
    match find(p, '=') {
        Some(i) => {
            let k = slice(p, 0, i);
            let v = slice(p, i + 1, n);
            proof {
                assert(k@ =~= p@.take(i as int));
                assert(v@ =~= p@.skip(i as int + 1));
            }
            let key = trimmed(k.as_slice());
            let value = trimmed(v.as_slice());
            (text_of(key.as_slice()), text_of(value.as_slice()))
        },
        None => {
            let key = trimmed(p);
            (text_of(key.as_slice()), String::new())
        },
    }
}

fn parse_options(parts: &Vec<Vec<char>>) -> (r: Vec<(String, String)>)
    requires
        parts@.len() > 0,
    ensures
        option_texts(r@) == options_of(char_lists(parts@).skip(1)),
{
    let mut out: Vec<(String, String)> = Vec::new();
    let ghost tail = char_lists(parts@).skip(1);
    let mut i: usize = 1;
    assert(tail.take(0) =~= Seq::<Seq<char>>::empty());
    assert(option_texts(out@) =~= options_of(tail.take(0)));
    while i < parts.len()
        invariant
            1 <= i <= parts@.len(),
            tail == char_lists(parts@).skip(1),
            option_texts(out@) == options_of(tail.take(i - 1)),
        decreases parts@.len() - i,
    {
        let p = &parts[i];
        proof {
            assert(tail.take(i as int).drop_last() =~= tail.take(i - 1));
            assert(tail.take(i as int).last() == p@);
        }
        let body = trimmed(p.as_slice());
        if body.len() > 0 {
            let o = parse_option(p.as_slice());
            proof {
                assert(option_texts(out@.push(o)) =~= option_texts(out@).push((o.0@, o.1@)));
            }
            out.push(o);
        }
        i = i + 1;
    }
    assert(tail.take(tail.len() as int) =~= tail);
    out
}

fn decode_user(u: &[char]) -> (r: String)
    ensures
        r@ == user_of(u@),
{
    proof {
        reveal_strlit("%40");
        reveal_strlit("%3A");
        reveal_strlit("%3a");
        reveal_strlit("%25");
    }
    let a = replace_text(u, chars_of("%40").as_slice(), chars_of("@").as_slice());
    let b = replace_text(a.as_slice(), chars_of("%3A").as_slice(), chars_of(":").as_slice());
    let c = replace_text(b.as_slice(), chars_of("%3a").as_slice(), chars_of(":").as_slice());
    let d = replace_text(c.as_slice(), chars_of("%25").as_slice(), chars_of("%").as_slice());
    text_of(d.as_slice())
}

fn parse_port(s: &[char]) -> (r: Option<u16>)
    ensures
        r == port_text(s@),
{
    match parse_decimal(s, 65535) {
        Some(n) => Some(n as u16),
        None => None,
    }
}

fn parse_hostport(s: &[char]) -> (r: (String, Option<u16>))
    ensures
        (r.0@, r.1) == host_of(s@),
{
    if s.len() > 0 && s[0] == '[' {
        let rest = slice(s, 1, s.len());
        assert(rest@ =~= s@.skip(1));
        match find(rest.as_slice(), ']') {
            Some(end) => {
                let host = slice(rest.as_slice(), 0, end);
                let after = slice(rest.as_slice(), end + 1, rest.len());
                proof {
                    assert(host@ =~= rest@.take(end as int));
                    assert(after@ =~= rest@.skip(end as int + 1));
                }
                if after.len() > 0 && after[0] == ':' {
                    let p = slice(after.as_slice(), 1, after.len());
                    assert(p@ =~= after@.skip(1));
                    let port = parse_port(p.as_slice());
                    return (text_of(host.as_slice()), port);
                }
                return (text_of(host.as_slice()), None);
            },
            None => {
                return (text_of(rest.as_slice()), None);
            },
        }
    }
    match find(s, ':') {
        Some(i) => {
            let tail = slice(s, i + 1, s.len());
            assert(tail@ =~= s@.skip(i as int + 1));
            if find(tail.as_slice(), ':').is_none() {
                if let Some(port) = parse_port(tail.as_slice()) {
                    let host = slice(s, 0, i);
                    assert(host@ =~= s@.take(i as int));
                    return (text_of(host.as_slice()), Some(port));
                }
            } else {
                proof {
                    crate::strings::lemma_first_index(tail@, ':');
                }
            }
        },
        None => {},
    }
    (text_of(s), None)
}

fn normalize_root(p: &[char]) -> (r: String)
    ensures
        r@ == rooted(p@),
{
    let unified = replace_char(p, '\\', '/');
    let parts = split_chars(unified.as_slice(), '/');
    let ghost all = char_lists(parts@);
    let mut out: Vec<char> = Vec::new();
    let mut i: usize = 0;
    let mut first = true;
    proof {
        assert(all.take(0) =~= Seq::<Seq<char>>::empty());
    }
    while i < parts.len()
        invariant
            i <= parts@.len(),
            all == char_lists(parts@),
            first <==> naming(all.take(i as int)).len() == 0,
            out@ == join(naming(all.take(i as int)), '/'),
        decreases parts@.len() - i,
    {
        let seg = &parts[i];
        let ghost before = naming(all.take(i as int));
        proof {
            assert(all.take(i as int + 1).drop_last() =~= all.take(i as int));
            assert(all.take(i as int + 1).last() == seg@);
        }
        let text = text_of(seg.as_slice());
        if seg.len() > 0 && !same(text.as_str(), ".") {
            proof {
                lemma_join_push(before, seg@, '/');
            }
            if first {
                assert(before =~= Seq::<Seq<char>>::empty());
                assert(out@ + seg@ =~= seg@);
            } else {
                out.push('/');
            }
            crate::strings::push_all(&mut out, seg.as_slice());
            first = false;
        }
        i = i + 1;
    }
    assert(all.take(all.len() as int) =~= all);
    text_of(out.as_slice())
}

/// One more piece at the end of a join.
proof fn lemma_join_push(parts: Seq<Seq<char>>, p: Seq<char>, c: char)
    ensures
        join(parts.push(p), c) == if parts.len() == 0 {
            p
        } else {
            join(parts, c).push(c) + p
        },
    decreases parts.len(),
{
    if parts.len() == 0 {
    } else if parts.len() == 1 {
        assert(parts.push(p).skip(1) =~= seq![p]);
        assert(join(seq![p], c) == p);
    } else {
        lemma_join_push(parts.skip(1), p, c);
        assert(parts.push(p).skip(1) =~= parts.skip(1).push(p));
        assert(parts[0].push(c) + (join(parts.skip(1), c).push(c) + p) =~= (parts[0].push(c) + join(
            parts.skip(1),
            c,
        )).push(c) + p);
    }
}

fn parse_remote(scheme: String, rest: Vec<char>) -> (r: RemoteSpec)
    ensures
        r@ == remote_of(scheme@, rest@),
{
    let parts = split_chars(rest.as_slice(), '|');
    proof {
        crate::strings::lemma_split(rest@, '|');
        assert(char_lists(parts@)[0] == parts@[0]@);
    }
    let options = parse_options(&parts);
    let head = &parts[0];
    let cut = find(head.as_slice(), '/');
    let slash: usize = match cut {
        Some(i) => i,
        None => head.len(),
    };
    let authority = slice(head.as_slice(), 0, slash);
    assert(authority@ =~= head@.take(slash as int));
    let path = if slash < head.len() {
        slice(head.as_slice(), slash + 1, head.len())
    } else {
        Vec::new()
    };
    proof {
        if slash < head@.len() {
            assert(path@ =~= head@.skip(slash as int + 1));
        } else {
            assert(path@ =~= Seq::<char>::empty());
        }
    }
    let root = normalize_root(path.as_slice());
    match rfind(authority.as_slice(), '@') {
        Some(at) => {
            let u = slice(authority.as_slice(), 0, at);
            let hp = slice(authority.as_slice(), at + 1, authority.len());
            proof {
                assert(u@ =~= authority@.take(at as int));
                assert(hp@ =~= authority@.skip(at as int + 1));
            }
            let user = decode_user(u.as_slice());
            let (host, port) = parse_hostport(hp.as_slice());
            RemoteSpec { scheme, user: Some(user), host, port, root, options }
        },
        None => {
            assert(authority@.skip(0) =~= authority@);
            let (host, port) = parse_hostport(authority.as_slice());
            RemoteSpec { scheme, user: None, host, port, root, options }
        },
    }
}

/// A port left out and the scheme's own port spelt out are one identity.
pub proof fn a_default_port_is_the_same_identity(a: RemoteModel, b: RemoteModel)
    requires
        a.scheme == b.scheme,
        a.user == b.user,
        lowercase(a.host) == lowercase(b.host),
        a.root == b.root,
        a.port is None,
        b.port == Some(port_of(b.scheme)),
    ensures
        a.canonical() == b.canonical(),
{
}

/// What looks like a scheme is never read as a local path.
pub proof fn a_scheme_is_never_local(raw: Seq<char>, i: int)
    requires
        !("\\\\"@.is_prefix_of(trim(raw))),
        !drive_path(trim(raw)),
        text_index(trim(raw), "://"@) == Some(i),
        scheme_shaped(ascii_lowered(trim(raw).take(i))),
    ensures
        root_of(raw) !is Local,
{
}

/// A remote root whose parts stand in a phrase as they are.
pub open spec fn spellable(r: RemoteModel) -> bool {
    &&& known_scheme(r.scheme)
    &&& match r.user {
        Some(u) => !carries(u, '/') && !carries(u, '|') && user_of(u) == u,
        None => true,
    }
    &&& !carries(r.host, '/')
    &&& !carries(r.host, '|')
    &&& !carries(r.host, '@')
    &&& !carries(r.host, ']')
    &&& r.host.len() > 0 ==> r.host[0] != '['
    &&& !carries(r.root, '|')
    &&& rooted(r.root) == r.root
    &&& trim(r.shown()) == r.shown()
}

proof fn lemma_known_scheme(s: Seq<char>)
    requires
        known_scheme(s),
    ensures
        s.len() >= 3,
        s[0] != '\\',
        s[1] != ':',
        !carries(s, ':'),
        scheme_shaped(s),
        ascii_lowered(s) == s,
        s != "fake"@,
{
    reveal_strlit("sftp");
    reveal_strlit("ftp");
    reveal_strlit("ftps");
    reveal_strlit("smb");
    reveal_strlit("fake");
    assert(ascii_lowered(s) =~= s);
    assert("fake"@[1] == 'a');
}

/// The text behind the host: a colon and the port, or nothing.
spec fn port_tail(r: RemoteModel) -> Seq<char> {
    match r.port {
        Some(p) => seq![':'] + numeral(p as nat),
        None => Seq::empty(),
    }
}

proof fn lemma_digits_carry_no_mark(n: nat, c: char)
    requires
        !ascii_digit(c),
    ensures
        !carries(numeral(n), c),
{
    crate::strings::lemma_numeral_digits(n);
}

proof fn lemma_hostport(r: RemoteModel)
    requires
        spellable(r),
    ensures
        host_of(host_text(r.host) + port_tail(r)) == (r.host, r.port),
        forall|c: char|
            c == '/' || c == '|' || c == '@' ==> !#[trigger] carries(
                host_text(r.host) + port_tail(r),
                c,
            ),
{
    let s = host_text(r.host) + port_tail(r);
    let tail = port_tail(r);
    assert forall|c: char| c == '/' || c == '|' || c == '@' implies !#[trigger] carries(s, c) by {
        match r.port {
            Some(p) => {
                lemma_digits_carry_no_mark(p as nat, c);
                if carries(s, c) {
                    let i = choose|i: int| 0 <= i < s.len() && s[i] == c;
                    let h = host_text(r.host);
                    if i < h.len() {
                        if carries(r.host, ':') {
                            assert(h[i] == c);
                            assert(1 <= i < h.len() - 1 && r.host[i - 1] == c);
                        } else {
                            assert(r.host[i] == c);
                        }
                    } else {
                        assert(tail[i - h.len()] == c);
                        assert(numeral(p as nat)[i - h.len() - 1] == c);
                    }
                }
            },
            None => {
                if carries(s, c) {
                    let i = choose|i: int| 0 <= i < s.len() && s[i] == c;
                    if carries(r.host, ':') {
                        assert(1 <= i < s.len() - 1 && r.host[i - 1] == c);
                    } else {
                        assert(r.host[i] == c);
                    }
                }
            },
        }
    }
    match r.port {
        Some(p) => {
            crate::strings::numerals_read_back(p as nat, 65535);
            lemma_digits_carry_no_mark(p as nat, ':');
        },
        None => {},
    }
    if carries(r.host, ':') {
        let rest = s.skip(1);
        assert(s[0] == '[');
        assert(rest =~= r.host + seq![']'] + tail);
        assert forall|j: int| 0 <= j < r.host.len() implies rest[j] != ']' by {
            assert(r.host[j] == rest[j]);
        }
        crate::strings::lemma_first_index_is(rest, ']', r.host.len() as int);
        assert(rest.take(r.host.len() as int) =~= r.host);
        let after = rest.skip(r.host.len() as int + 1);
        assert(after =~= tail);
        match r.port {
            Some(p) => {
                assert(after.skip(1) =~= numeral(p as nat));
            },
            None => {},
        }
    } else {
        assert(s =~= r.host + tail);
        if s.len() > 0 && r.host.len() > 0 {
            assert(s[0] == r.host[0]);
        }
        assert forall|j: int| 0 <= j < r.host.len() implies s[j] != ':' by {
            assert(r.host[j] == s[j]);
        }
        crate::strings::lemma_first_index_is(s, ':', r.host.len() as int);
        match r.port {
            Some(p) => {
                assert(s.skip(r.host.len() as int + 1) =~= numeral(p as nat));
                assert(s.take(r.host.len() as int) =~= r.host);
            },
            None => {
                assert(s =~= r.host);
            },
        }
    }
}

spec fn authority_of(r: RemoteModel) -> Seq<char> {
    r.user_text() + (host_text(r.host) + port_tail(r))
}

spec fn path_tail(r: RemoteModel) -> Seq<char> {
    if r.root.len() == 0 {
        Seq::empty()
    } else {
        seq!['/'] + r.root
    }
}

proof fn lemma_authority(r: RemoteModel, c: char)
    requires
        spellable(r),
        c == '/' || c == '|',
    ensures
        !carries(authority_of(r), c),
{
    lemma_hostport(r);
    let hostport = host_text(r.host) + port_tail(r);
    let authority = authority_of(r);
    assert(!carries(hostport, c));
    if carries(authority, c) {
        let i = choose|i: int| 0 <= i < authority.len() && authority[i] == c;
        let u = r.user_text().len();
        if i < u {
            assert(r.user_text()[i] == c);
            assert(r.user->0[i] == c);
        } else {
            assert(hostport[i - u] == c);
        }
    }
}

proof fn lemma_user_split(r: RemoteModel)
    requires
        spellable(r),
    ensures
        ({
            let a = authority_of(r);
            let at = last_index(a, '@');
            &&& a.skip(at + 1) == host_text(r.host) + port_tail(r)
            &&& at >= 0 <==> r.user is Some
            &&& r.user matches Some(u) ==> a.take(at) == u
        }),
{
    lemma_hostport(r);
    let hostport = host_text(r.host) + port_tail(r);
    let authority = authority_of(r);
    assert(!carries(hostport, '@'));
    match r.user {
        Some(u) => {
            let m = u.len() as int;
            assert(authority[m] == '@');
            assert forall|j: int| m < j < authority.len() implies authority[j] != '@' by {
                assert(hostport[j - m - 1] == authority[j]);
            }
            crate::strings::lemma_last_index_is(authority, '@', m);
            assert(authority.take(m) =~= u);
            assert(authority.skip(m + 1) =~= hostport);
        },
        None => {
            assert(authority =~= hostport);
            crate::strings::lemma_last_index_is(authority, '@', -1);
            assert(authority.skip(0) =~= hostport);
        },
    }
}

proof fn lemma_rest_reads_back(r: RemoteModel)
    requires
        spellable(r),
    ensures
        remote_of(r.scheme, authority_of(r) + path_tail(r)) == (RemoteModel {
            options: Seq::empty(),
            ..r
        }),
{
    let authority = authority_of(r);
    let path = path_tail(r);
    let rest = authority + path;
    lemma_authority(r, '/');
    lemma_authority(r, '|');
    lemma_user_split(r);
    lemma_hostport(r);
    assert(!carries(rest, '|')) by {
        if carries(rest, '|') {
            let i = choose|i: int| 0 <= i < rest.len() && rest[i] == '|';
            if i < authority.len() {
                assert(authority[i] == '|');
            } else {
                assert(path[i - authority.len()] == '|');
                assert(r.root[i - authority.len() - 1] == '|');
            }
        }
    }
    crate::strings::lemma_split_whole(rest, '|');
    let parts = split(rest, '|');
    assert(parts[0] == rest);
    assert(parts.skip(1) =~= Seq::<Seq<char>>::empty());
    assert(options_of(parts.skip(1)) == Seq::<(Seq<char>, Seq<char>)>::empty());
    let a = authority.len() as int;
    assert forall|j: int| 0 <= j < a implies rest[j] != '/' by {
        assert(authority[j] == rest[j]);
    }
    crate::strings::lemma_first_index_is(rest, '/', a);
    assert(rest.take(a) =~= authority);
    if r.root.len() > 0 {
        assert(rest.skip(a + 1) =~= r.root);
    } else {
        assert(r.root =~= Seq::<char>::empty());
    }
}

proof fn lemma_shown(r: RemoteModel)
    ensures
        r.shown() == r.scheme + "://"@ + (authority_of(r) + path_tail(r)),
{
    reveal_strlit("/");
    reveal_strlit(":");
    let front = r.scheme + "://"@ + r.user_text() + host_text(r.host);
    let placed = front + port_tail(r);
    match r.port {
        Some(p) => {
            assert(front + ":"@ + numeral(p as nat) =~= placed);
        },
        None => {
            assert(front =~= placed);
        },
    }
    assert(r.shown() =~= placed + path_tail(r));
    assert(placed + path_tail(r) =~= r.scheme + "://"@ + (authority_of(r) + path_tail(r)));
}

/// A phrase of a known scheme is that remote root.
proof fn lemma_known_phrase(raw: Seq<char>, scheme: Seq<char>, rest: Seq<char>)
    requires
        known_scheme(scheme),
        raw == scheme + "://"@ + rest,
        trim(raw) == raw,
    ensures
        root_of(raw) == RootModel::Remote(remote_of(scheme, rest)),
{
    lemma_known_scheme(scheme);
    reveal_strlit("://");
    crate::strings::lemma_text_index_behind(scheme, "://"@, rest);
    let k = scheme.len() as int;
    assert(raw[0] == scheme[0]);
    assert(raw[1] == scheme[1]);
    assert(!("\\\\"@.is_prefix_of(raw))) by {
        reveal_strlit("\\\\");
        if "\\\\"@.is_prefix_of(raw) {
            assert(raw.subrange(0, 2)[0] == '\\');
        }
    }
    assert(raw.take(k) =~= scheme);
    assert(raw.skip(k + 3) =~= rest);
}

/// What is shown of a root reads back as that root, without the options: an address goes back into
/// its brackets.
pub proof fn what_is_shown_reads_back(r: RemoteModel)
    requires
        spellable(r),
    ensures
        root_of(r.shown()) == RootModel::Remote(RemoteModel { options: Seq::empty(), ..r }),
{
    lemma_shown(r);
    lemma_known_phrase(r.shown(), r.scheme, authority_of(r) + path_tail(r));
    lemma_rest_reads_back(r);
}

/// Characters that stand in a phrase as they are, and no mark of an option.
spec fn unmarked(s: Seq<char>) -> bool {
    forall|i: int| 0 <= i < s.len() ==> !white(#[trigger] s[i]) && s[i] != '|'
}

proof fn lemma_nothing_substituted(s: Seq<char>, p: Seq<char>, by: Seq<char>)
    requires
        p.len() > 0,
        !carries(s, p[0]),
    ensures
        substituted(s, p, by) == s,
    decreases s.len(),
{
    if s.len() >= p.len() {
        assert(s[0] != p[0]);
        if p.is_prefix_of(s) {
            assert(s.subrange(0, p.len() as int)[0] == p[0]);
        }
        assert forall|i: int| 0 <= i < s.skip(1).len() implies s.skip(1)[i] != p[0] by {
            assert(s[i + 1] != p[0]);
        }
        lemma_nothing_substituted(s.skip(1), p, by);
        assert(seq![s[0]] + s.skip(1) =~= s);
    }
}

proof fn lemma_plain_user(u: Seq<char>)
    requires
        !carries(u, '%'),
    ensures
        user_of(u) == u,
{
    reveal_strlit("%40");
    reveal_strlit("%3A");
    reveal_strlit("%3a");
    reveal_strlit("%25");
    lemma_nothing_substituted(u, "%40"@, "@"@);
    lemma_nothing_substituted(u, "%3A"@, ":"@);
    lemma_nothing_substituted(u, "%3a"@, ":"@);
    lemma_nothing_substituted(u, "%25"@, "%"@);
}

proof fn lemma_pieces_unmarked(s: Seq<char>)
    requires
        unmarked(s),
    ensures
        forall|k: int| 0 <= k < split(s, '/').len() ==> unmarked(#[trigger] split(s, '/')[k]),
    decreases s.len(),
{
    crate::strings::lemma_first_index(s, '/');
    let i = first_index(s, '/');
    if i < s.len() {
        let rest = s.skip(i + 1);
        assert(forall|k: int| 0 <= k < rest.len() ==> rest[k] == s[k + i + 1]);
        lemma_pieces_unmarked(rest);
        let all = split(s, '/');
        assert forall|k: int| 0 <= k < all.len() implies unmarked(#[trigger] all[k]) by {
            if k == 0 {
                assert(forall|j: int| 0 <= j < i ==> s.take(i)[j] == s[j]);
            } else {
                assert(all[k] == split(rest, '/')[k - 1]);
            }
        }
    }
}

/// What is kept of some pieces is among them.
proof fn lemma_naming(parts: Seq<Seq<char>>)
    ensures
        forall|k: int|
            0 <= k < naming(parts).len() ==> names_something(#[trigger] naming(parts)[k])
                && parts.contains(naming(parts)[k]),
    decreases parts.len(),
{
    if parts.len() > 0 {
        let less = parts.drop_last();
        lemma_naming(less);
        assert forall|k: int| 0 <= k < naming(parts).len() implies names_something(
            #[trigger] naming(parts)[k],
        ) && parts.contains(naming(parts)[k]) by {
            if k < naming(less).len() {
                assert(naming(parts)[k] == naming(less)[k]);
                let j = choose|j: int| 0 <= j < less.len() && less[j] == naming(less)[k];
                assert(parts[j] == naming(parts)[k]);
            } else {
                assert(parts[parts.len() - 1] == naming(parts)[k]);
            }
        }
    }
}

proof fn lemma_all_named(parts: Seq<Seq<char>>)
    requires
        forall|k: int| 0 <= k < parts.len() ==> names_something(#[trigger] parts[k]),
    ensures
        naming(parts) == parts,
    decreases parts.len(),
{
    if parts.len() > 0 {
        lemma_all_named(parts.drop_last());
        assert(parts.drop_last().push(parts.last()) =~= parts);
    }
}

proof fn lemma_join_splits(parts: Seq<Seq<char>>)
    requires
        parts.len() > 0,
        forall|k: int| 0 <= k < parts.len() ==> !carries(#[trigger] parts[k], '/'),
    ensures
        split(join(parts, '/'), '/') == parts,
    decreases parts.len(),
{
    crate::strings::lemma_split_whole(parts[0], '/');
    if parts.len() == 1 {
        assert(seq![parts[0]] =~= parts);
    } else {
        let rest = parts.skip(1);
        lemma_join_splits(rest);
        crate::strings::lemma_split_at(parts[0], '/', join(rest, '/'));
        assert(seq![parts[0]] + rest =~= parts);
    }
}

proof fn lemma_join_unmarked(parts: Seq<Seq<char>>)
    requires
        forall|k: int|
            0 <= k < parts.len() ==> unmarked(#[trigger] parts[k]) && !carries(parts[k], '\\'),
    ensures
        unmarked(join(parts, '/')),
        !carries(join(parts, '/'), '\\'),
    decreases parts.len(),
{
    if parts.len() == 1 {
        assert(unmarked(parts[0]));
    } else if parts.len() > 1 {
        let rest = join(parts.skip(1), '/');
        lemma_join_unmarked(parts.skip(1));
        let s = parts[0].push('/') + rest;
        let n = parts[0].len();
        assert(unmarked(parts[0]) && !carries(parts[0], '\\'));
        assert forall|i: int| 0 <= i < s.len() implies !white(#[trigger] s[i]) && s[i] != '|' && s[i]
            != '\\' by {
            if i < n {
                assert(s[i] == parts[0][i]);
            } else if i > n {
                assert(s[i] == rest[i - n - 1]);
            }
        }
    }
}

/// A server path is as it is once it was tidied.
proof fn lemma_rooted_again(p: Seq<char>)
    requires
        unmarked(p),
    ensures
        rooted(rooted(p)) == rooted(p),
        unmarked(rooted(p)),
{
    let q = replaced(p, '\\', '/');
    let parts = split(q, '/');
    let kept = naming(parts);
    assert(unmarked(q)) by {
        assert forall|i: int| 0 <= i < q.len() implies !white(#[trigger] q[i]) && q[i] != '|' by {
            assert(!white(p[i]) && p[i] != '|');
        }
    }
    lemma_pieces_unmarked(q);
    lemma_naming(parts);
    crate::strings::lemma_split(q, '/');
    lemma_pieces_from(q, '\\');
    assert forall|k: int| 0 <= k < kept.len() implies unmarked(#[trigger] kept[k]) && !carries(
        kept[k],
        '\\',
    ) && !carries(kept[k], '/') by {
        let j = choose|j: int| 0 <= j < parts.len() && parts[j] == kept[k];
        assert(unmarked(parts[j]));
        assert(!carries(parts[j], '\\') && !carries(parts[j], '/'));
    }
    lemma_join_unmarked(kept);
    let r = rooted(p);
    assert(r == join(kept, '/'));
    assert(replaced(r, '\\', '/') =~= r) by {
        assert forall|i: int| 0 <= i < r.len() implies r[i] != '\\' by {
            if r[i] == '\\' {
                assert(carries(r, '\\'));
            }
        }
    }
    if kept.len() == 0 {
        assert(r =~= Seq::<char>::empty());
        crate::strings::lemma_split_whole(r, '/');
        let one = split(r, '/');
        assert(!names_something(one.last()));
        assert(naming(one.drop_last()) =~= Seq::<Seq<char>>::empty());
    } else {
        lemma_join_splits(kept);
        lemma_all_named(kept);
    }
}

proof fn lemma_pieces_from(s: Seq<char>, c: char)
    requires
        !carries(s, c),
    ensures
        forall|k: int| 0 <= k < split(s, '/').len() ==> !carries(#[trigger] split(s, '/')[k], c),
    decreases s.len(),
{
    crate::strings::lemma_first_index(s, '/');
    let i = first_index(s, '/');
    if i < s.len() {
        let rest = s.skip(i + 1);
        assert(forall|k: int| 0 <= k < rest.len() ==> rest[k] == s[k + i + 1]);
        lemma_pieces_from(rest, c);
        let all = split(s, '/');
        assert forall|k: int| 0 <= k < all.len() implies !carries(#[trigger] all[k], c) by {
            if k == 0 {
                assert(forall|j: int| 0 <= j < i ==> s.take(i)[j] == s[j]);
            } else {
                assert(all[k] == split(rest, '/')[k - 1]);
            }
        }
    }
}

/// Nothing in the phrase is white space or an escape.
pub open spec fn unescaped(s: Seq<char>) -> bool {
    forall|i: int| 0 <= i < s.len() ==> !white(#[trigger] s[i]) && s[i] != '%'
}

proof fn lemma_host_plain(s: Seq<char>)
    requires
        unmarked(s),
        !carries(s, '/'),
        !carries(s, '@'),
    ensures
        unmarked(host_of(s).0),
        !carries(host_of(s).0, '/'),
        !carries(host_of(s).0, '@'),
{
    let h = host_of(s).0;
    let d: int = if s.len() > 0 && s[0] == '[' {
        1
    } else {
        0
    };
    if d == 1 {
        crate::strings::lemma_first_index(s.skip(1), ']');
    } else {
        crate::strings::lemma_first_index(s, ':');
    }
    assert(forall|i: int| 0 <= i < h.len() ==> h[i] == s[i + d]);
    assert forall|i: int| 0 <= i < h.len() implies !white(#[trigger] h[i]) && h[i] != '|' && h[i] != '/'
        && h[i] != '@' by {
        assert(h[i] == s[i + d]);
        assert(!white(s[i + d]));
    }
}

proof fn lemma_grammar_is_spellable(scheme: Seq<char>, rest: Seq<char>)
    requires
        known_scheme(scheme),
        unescaped(rest),
        !carries(remote_of(scheme, rest).host, '['),
        !carries(remote_of(scheme, rest).host, ']'),
    ensures
        spellable(remote_of(scheme, rest)),
{
    let r = remote_of(scheme, rest);
    let head = split(rest, '|')[0];
    crate::strings::lemma_first_index(rest, '|');
    let bar = first_index(rest, '|');
    assert(head =~= rest.take(bar));
    assert(unmarked(head)) by {
        assert forall|i: int| 0 <= i < head.len() implies !white(#[trigger] head[i]) && head[i] != '|' by {
            assert(!white(rest[i]));
        }
    }
    crate::strings::lemma_first_index(head, '/');
    let slash = first_index(head, '/');
    let authority = head.take(slash);
    assert(forall|i: int| 0 <= i < authority.len() ==> authority[i] == head[i]);
    crate::strings::lemma_last_index(authority, '@');
    let at = last_index(authority, '@');
    let hostport = authority.skip(at + 1);
    assert(forall|i: int| 0 <= i < hostport.len() ==> hostport[i] == head[i + at + 1]);
    assert(unmarked(hostport) && !carries(hostport, '/') && !carries(hostport, '@')) by {
        assert forall|i: int| 0 <= i < hostport.len() implies !white(#[trigger] hostport[i])
            && hostport[i] != '|' && hostport[i] != '/' && hostport[i] != '@' by {
            assert(!white(head[i + at + 1]));
            assert(authority[i + at + 1] == hostport[i]);
        }
    }
    lemma_host_plain(hostport);
    if at >= 0 {
        let u = authority.take(at);
        assert(forall|i: int| 0 <= i < u.len() ==> u[i] == head[i] && head[i] == rest[i]);
        assert(!carries(u, '%') && !carries(u, '/') && !carries(u, '|')) by {
            assert forall|i: int| 0 <= i < u.len() implies u[i] != '%' && u[i] != '/' && u[i] != '|' by {
                assert(!white(rest[i]) && rest[i] != '%');
                assert(!white(head[i]));
            }
        }
        lemma_plain_user(u);
    }
    let path = if slash < head.len() {
        head.skip(slash + 1)
    } else {
        Seq::<char>::empty()
    };
    assert(unmarked(path)) by {
        assert forall|i: int| 0 <= i < path.len() implies !white(#[trigger] path[i]) && path[i] != '|' by {
            assert(path[i] == head[i + slash + 1]);
            assert(!white(head[i + slash + 1]));
        }
    }
    lemma_rooted_again(path);
    assert(!carries(r.root, '|'));
    assert(!carries(r.host, '|'));
    lemma_shown_is_trim(r);
}

proof fn lemma_shown_is_trim(r: RemoteModel)
    requires
        known_scheme(r.scheme),
        unmarked(r.host),
        unmarked(r.root),
    ensures
        trim(r.shown()) == r.shown(),
{
    lemma_known_scheme(r.scheme);
    lemma_shown(r);
    reveal_strlit("://");
    let s = r.shown();
    assert(s[0] == r.scheme[0]);
    assert(scheme_shaped(r.scheme));
    assert(ascii_alpha(r.scheme[0]) || ascii_digit(r.scheme[0]));
    assert(!white(s[0]));
    assert(!white(s.last())) by {
        let a = authority_of(r);
        if r.root.len() > 0 {
            assert(s.last() == r.root[r.root.len() - 1]);
        } else {
            assert(path_tail(r).len() == 0);
            match r.port {
                Some(p) => {
                    crate::strings::lemma_numeral_digits(p as nat);
                    let n = numeral(p as nat);
                    assert(s.last() == n[n.len() - 1]);
                    assert(ascii_digit(n[n.len() - 1]));
                },
                None => {
                    if carries(r.host, ':') {
                        assert(s.last() == ']');
                    } else if r.host.len() > 0 {
                        assert(s.last() == r.host[r.host.len() - 1]);
                    } else if r.user is Some {
                        assert(s.last() == '@');
                    } else {
                        assert(a.len() == 0);
                        assert(s.last() == '/');
                    }
                },
            }
        }
    }
}

/// What is shown of a root reads back as that root, without the options, for every phrase without
/// white space and escapes whose host is a name or an address.
pub proof fn what_a_phrase_shows_reads_back(raw: Seq<char>, r: RemoteModel)
    requires
        unescaped(trim(raw)),
        root_of(raw) == RootModel::Remote(r),
        !carries(r.host, '['),
        !carries(r.host, ']'),
    ensures
        root_of(r.shown()) == RootModel::Remote(RemoteModel { options: Seq::empty(), ..r }),
{
    let s = trim(raw);
    crate::strings::lemma_text_index(s, "://"@);
    reveal_strlit("://");
    let i = text_index(s, "://"@)->0;
    let rest = s.skip(i + 3);
    assert(unescaped(rest)) by {
        assert forall|k: int| 0 <= k < rest.len() implies !white(#[trigger] rest[k]) && rest[k] != '%' by {
            assert(!white(s[k + i + 3]));
        }
    }
    lemma_grammar_is_spellable(ascii_lowered(s.take(i)), rest);
    what_is_shown_reads_back(r);
}

/// Of two options of one name the first counts, and one that was not given has no value.
pub proof fn the_first_option_counts(options: Seq<(Seq<char>, Seq<char>)>, key: Seq<char>)
    ensures
        first_option(options, key) is None <==> forall|i: int|
            0 <= i < options.len() ==> (#[trigger] options[i]).0 != key,
        first_option(options, key) matches Some(v) ==> exists|i: int|
            0 <= i < options.len() && #[trigger] options[i] == (key, v) && forall|k: int|
                0 <= k < i ==> (#[trigger] options[k]).0 != key,
    decreases options.len(),
{
    if options.len() > 0 {
        let more = options.skip(1);
        the_first_option_counts(more, key);
        if options[0].0 == key {
            assert(options[0] == (key, options[0].1));
        } else if first_option(options, key) is None {
            assert forall|i: int| 0 <= i < options.len() implies (#[trigger] options[i]).0 != key by {
                if i > 0 {
                    assert(more[i - 1] == options[i]);
                }
            }
        } else {
            let v = first_option(options, key)->Some_0;
            let i = choose|i: int|
                0 <= i < more.len() && #[trigger] more[i] == (key, v) && forall|k: int|
                    0 <= k < i ==> (#[trigger] more[k]).0 != key;
            assert(options[i + 1] == (key, v));
            assert forall|k: int| 0 <= k < i + 1 implies (#[trigger] options[k]).0 != key by {
                if k > 0 {
                    assert(more[k - 1] == options[k]);
                }
            }
        }
    }
}

/// Every piece of the tail that is not blank is an option, and no other is: its name stands before the
/// first equals sign, its value behind it.
pub proof fn every_piece_of_the_tail_is_an_option(parts: Seq<Seq<char>>, name: Seq<char>, value: Seq<char>)
    requires
        !carries(name, '='),
    ensures
        options_of(parts).len() <= parts.len(),
        forall|i: int|
            0 <= i < parts.len() && trim(#[trigger] parts[i]).len() > 0 ==> options_of(parts).contains(
                option_of(parts[i]),
            ),
        option_of(name + seq!['='] + value) == (trim(name), trim(value)),
        option_of(name) == (trim(name), Seq::<char>::empty()),
    decreases parts.len(),
{
    let p = name + seq!['='] + value;
    assert forall|j: int| 0 <= j < name.len() implies p[j] != '=' by {
        assert(p[j] == name[j]);
    }
    crate::strings::lemma_first_index_is(p, '=', name.len() as int);
    assert(p.take(name.len() as int) =~= name);
    assert(p.skip(name.len() as int + 1) =~= value);
    crate::strings::lemma_first_index(name, '=');
    if parts.len() > 0 {
        let less = parts.drop_last();
        every_piece_of_the_tail_is_an_option(less, name, value);
        let before = options_of(less);
        let now = options_of(parts);
        assert forall|i: int| 0 <= i < parts.len() && trim(#[trigger] parts[i]).len() > 0 implies now.contains(
            option_of(parts[i]),
        ) by {
            if i < less.len() {
                assert(less[i] == parts[i]);
                let k = choose|k: int| 0 <= k < before.len() && before[k] == option_of(parts[i]);
                assert(now[k] == option_of(parts[i]));
            } else {
                assert(now[before.len() as int] == option_of(parts[i]));
            }
        }
    }
}

/// The segments that name something are all kept, and no other is.
pub proof fn only_naming_segments_are_kept(parts: Seq<Seq<char>>, s: Seq<char>)
    ensures
        naming(parts).contains(s) <==> parts.contains(s) && s.len() > 0 && s != "."@,
    decreases parts.len(),
{
    if parts.len() > 0 {
        let less = parts.drop_last();
        only_naming_segments_are_kept(less, s);
        let before = naming(less);
        let now = naming(parts);
        let at = less.len() as int;
        if before.contains(s) {
            let k = choose|k: int| 0 <= k < before.len() && before[k] == s;
            assert(now[k] == s);
        }
        if less.contains(s) {
            let k = choose|k: int| 0 <= k < less.len() && less[k] == s;
            assert(parts[k] == s);
        }
        if parts[at] == s && names_something(s) {
            assert(now[before.len() as int] == s);
        }
        if now.contains(s) && !before.contains(s) {
            let k = choose|k: int| 0 <= k < now.len() && now[k] == s;
            if k < before.len() {
                assert(before[k] == s);
            }
            assert(parts[at] == s);
        }
        if parts.contains(s) && !less.contains(s) {
            let k = choose|k: int| 0 <= k < parts.len() && parts[k] == s;
            if k < at {
                assert(less[k] == s);
            }
        }
    } else {
        assert(!parts.contains(s));
        assert(!naming(parts).contains(s));
    }
}

/// The slashes of a server path may lean either way.
pub proof fn server_paths_may_lean_either_way(p: Seq<char>)
    ensures
        rooted(replaced(p, '\\', '/')) == rooted(p),
{
    assert(replaced(replaced(p, '\\', '/'), '\\', '/') =~= replaced(p, '\\', '/'));
}

/// A host with a port is read as both; a bare IPv6 address is all host, and one in brackets is read without
/// them.
pub proof fn hosts_and_ports_are_told_apart(host: Seq<char>, port: u16)
    ensures
        !carries(host, ':') && (host.len() > 0 ==> host[0] != '[') ==> host_of(
            host + seq![':'] + numeral(port as nat),
        ) == (host, Some(port)),
        !carries(host, ':') && (host.len() > 0 ==> host[0] != '[') ==> host_of(host) == (host, None::<u16>),
        !carries(host, ']') ==> host_of(seq!['['] + host + seq![']']) == (host, None::<u16>),
        !carries(host, ']') ==> host_of(seq!['['] + host + seq![']', ':'] + numeral(port as nat)) == (
            host,
            Some(port),
        ),
        forall|a: Seq<char>, b: Seq<char>, c: Seq<char>|
            !carries(a, ':') && (a.len() > 0 ==> a[0] != '[') && #[trigger] (a + seq![':'] + b + seq![':'] + c)
                == host ==> host_of(host) == (host, None::<u16>),
{
    let digits = numeral(port as nat);
    crate::strings::lemma_numeral_digits(port as nat);
    crate::strings::numerals_read_back(port as nat, 65535);
    if !carries(host, ':') && (host.len() > 0 ==> host[0] != '[') {
        let s = host + seq![':'] + digits;
        assert(s[0] != '[') by {
            if host.len() > 0 {
                assert(s[0] == host[0]);
            } else {
                assert(s[0] == ':');
            }
        }
        assert forall|j: int| 0 <= j < host.len() implies s[j] != ':' by {
            assert(s[j] == host[j]);
        }
        crate::strings::lemma_first_index_is(s, ':', host.len() as int);
        assert(s.take(host.len() as int) =~= host);
        assert(s.skip(host.len() as int + 1) =~= digits);
        assert(!carries(digits, ':'));
        crate::strings::lemma_first_index(host, ':');
    }
    if !carries(host, ']') {
        let s = seq!['['] + host + seq![']'];
        let rest = s.skip(1);
        assert(rest =~= host + seq![']']);
        assert forall|j: int| 0 <= j < host.len() implies rest[j] != ']' by {
            assert(rest[j] == host[j]);
        }
        crate::strings::lemma_first_index_is(rest, ']', host.len() as int);
        assert(rest.take(host.len() as int) =~= host);
        let t = seq!['['] + host + seq![']', ':'] + digits;
        let more = t.skip(1);
        assert(more =~= host + seq![']', ':'] + digits);
        assert forall|j: int| 0 <= j < host.len() implies more[j] != ']' by {
            assert(more[j] == host[j]);
        }
        assert(more[host.len() as int] == ']');
        crate::strings::lemma_first_index_is(more, ']', host.len() as int);
        assert(more.take(host.len() as int) =~= host);
        let after = more.skip(host.len() as int + 1);
        assert(after =~= seq![':'] + digits);
        assert(after.skip(1) =~= digits);
    }
    assert forall|a: Seq<char>, b: Seq<char>, c: Seq<char>|
        !carries(a, ':') && (a.len() > 0 ==> a[0] != '[') && #[trigger] (a + seq![':'] + b + seq![':'] + c)
            == host implies host_of(host) == (host, None::<u16>) by {
        assert(host[0] != '[') by {
            if a.len() > 0 {
                assert(host[0] == a[0]);
            } else {
                assert(host[0] == ':');
            }
        }
        assert forall|j: int| 0 <= j < a.len() implies host[j] != ':' by {
            assert(host[j] == a[j]);
        }
        assert(host[a.len() as int] == ':');
        crate::strings::lemma_first_index_is(host, ':', a.len() as int);
        let rest = host.skip(a.len() as int + 1);
        assert(rest[b.len() as int] == ':');
        assert(carries(rest, ':'));
    }
}

/// One server path is one identity: on the same server and for the same user, two roots have the same
/// identity only if they are the same.
pub proof fn identities_tell_roots_apart(a: RemoteModel, b: RemoteModel)
    requires
        a.scheme == b.scheme,
        a.user == b.user,
        a.host == b.host,
        a.port == b.port,
        a.canonical() == b.canonical(),
    ensures
        a.root == b.root,
{
    let port = match a.port {
        Some(p) => p,
        None => port_of(a.scheme),
    };
    let front = a.scheme + "://"@ + a.user_text() + host_text(lowercase(a.host)) + ":"@ + numeral(port as nat)
        + "/"@;
    assert(a.canonical() == front + a.root);
    assert(b.canonical() == front + b.root);
    assert((front + a.root).skip(front.len() as int) =~= a.root);
    assert((front + b.root).skip(front.len() as int) =~= b.root);
}

/// Two ports are two identities.
pub proof fn identities_tell_ports_apart(a: RemoteModel, b: RemoteModel)
    requires
        a.scheme == b.scheme,
        a.user == b.user,
        a.host == b.host,
        a.root == b.root,
        a.port is Some,
        b.port is Some,
        a.canonical() == b.canonical(),
    ensures
        a.port == b.port,
{
    let front = a.scheme + "://"@ + a.user_text() + host_text(lowercase(a.host)) + ":"@;
    let x = numeral(a.port->0 as nat);
    let y = numeral(b.port->0 as nat);
    let tail = "/"@ + a.root;
    assert(a.canonical() =~= front + x + tail);
    assert(b.canonical() =~= front + y + tail);
    assert((front + x + tail).len() == front.len() + x.len() + tail.len());
    assert((front + y + tail).len() == front.len() + y.len() + tail.len());
    assert(x.len() == y.len());
    assert(x =~= a.canonical().subrange(front.len() as int, (front.len() + x.len()) as int));
    assert(y =~= b.canonical().subrange(front.len() as int, (front.len() + x.len()) as int));
    crate::strings::lemma_numeral_digits(a.port->0 as nat);
    crate::strings::lemma_numeral_digits(b.port->0 as nat);
}

/// Options are never shown: nothing of what they hold stands in what is displayed or compared.
pub proof fn options_are_never_shown(r: RemoteModel, options: Seq<(Seq<char>, Seq<char>)>)
    ensures
        (RemoteModel { options, ..r }).shown() == r.shown(),
        (RemoteModel { options, ..r }).canonical() == r.canonical(),
{
}

/// A phrase without a scheme is a path of this machine, and it is the phrase itself, without blanks around
/// it.
pub proof fn a_plain_phrase_is_a_local_path(raw: Seq<char>)
    ensures
        text_index(trim(raw), "://"@) is None ==> root_of(raw) == RootModel::Local(trim(raw)),
        drive_path(trim(raw)) ==> root_of(raw) == RootModel::Local(trim(raw)),
        "\\\\"@.is_prefix_of(trim(raw)) ==> root_of(raw) == RootModel::Local(trim(raw)),
        root_of(raw) matches RootModel::Remote(m) ==> m.scheme == "sftp"@ || m.scheme == "ftp"@ || m.scheme
            == "ftps"@ || m.scheme == "smb"@,
{
}

} // verus!
