//! Credentials: which entry of the operating system's store belongs to a root.
//!
//! Secrets never stand in a job or a phrase. The phrase gives the name of the entry. The store
//! cannot list its entries, so the names alone, without any secret, are kept in an index.
use vstd::prelude::*;
use vstd::utf8::{encode_utf8, is_ascii_chars};
use crate::foundation::dirs::{below_of, in_dir};
use crate::foundation::text::{ascii_lowered, lowercase, to_lowercase};
use crate::fs::vfs::spec::{default_port, port_of, RemoteModel, RemoteSpec};
use crate::fs::vfs::tree::ascending;
use crate::fs::vfs::Credentials;
use crate::hash::{blake3_hex, hash_hex};
use crate::order::{
    codes, codes_of, key_views, lemma_codes_injective, lemma_text_irreflexive,
    lemma_text_transitive, sorts_before, stable_order, stable_order_is_complete, stable_sort,
    text_lt,
};
use crate::strings::{
    ascii_alpha, carries, char_lists, chars_of, decimal, lemma_split_at, lemma_split_whole,
    numeral, same, slice, split, split_chars, text_of, texts, trim, trimmed,
};
use crate::table::opt_text;

verus! {

/// The service that entries are filed under.
pub const SERVICE: &'static str = "syncdash";

/// The entry of a root: scheme, user, host in lower case and port. The path plays no part.
pub open spec fn account_of(r: RemoteModel) -> Option<Seq<char>> {
    account_at(r, lowercase(r.host))
}

/// The entry with the host spelt so.
pub open spec fn account_at(r: RemoteModel, host: Seq<char>) -> Option<Seq<char>> {
    match r.user {
        Some(u) => Some(
            r.scheme + "://"@ + u + "@"@ + host + ":"@ + numeral(
                match r.port {
                    Some(p) => p as nat,
                    None => port_of(r.scheme) as nat,
                },
            ),
        ),
        None => None,
    }
}

/// The entry of a root; `None` where the phrase names no user, never a guess.
pub fn account_for(spec: &RemoteSpec) -> (r: Option<String>)
    ensures
        opt_text(r) == account_of(spec@),
        is_ascii_chars(spec.host@) ==> opt_text(r) == account_at(spec@, ascii_lowered(spec.host@)),
{
    match &spec.user {
        Some(u) => {
            let mut s = spec.scheme.clone();
            s.append("://");
            s.append(u.as_str());
            s.append("@");
            s.append(to_lowercase(spec.host.as_str()).as_str());
            s.append(":");
            let port: u16 = match spec.port {
                Some(p) => p,
                None => default_port(spec.scheme.as_str()),
            };
            s.append(decimal(port as u64).as_str());
            Some(s)
        },
        None => None,
    }
}

/// One server and one user are one entry, whatever the path is and however host and port are spelt.
pub proof fn one_server_is_one_entry(a: RemoteModel, b: RemoteModel)
    requires
        a.scheme == b.scheme,
        a.user == b.user,
        lowercase(a.host) == lowercase(b.host),
        a.port == b.port || (a.port is None && b.port == Some(port_of(b.scheme))) || (b.port is None
            && a.port == Some(port_of(a.scheme))),
    ensures
        account_of(a) == account_of(b),
{
}

/// The entry for the passphrase of a key file, by the hash of its path.
pub open spec fn passphrase_entry(keyfile: Seq<char>) -> Seq<char> {
    "sftp-pass://"@ + blake3_hex(encode_utf8(keyfile)).take(16)
}

pub fn passphrase_account(keyfile: &str) -> (r: String)
    ensures
        r@ == passphrase_entry(keyfile@),
{
    let digest = hash_hex(keyfile.as_bytes());
    let hex = chars_of(digest.as_str());
    let short = slice(hex.as_slice(), 0, 16);
    assert(short@ =~= blake3_hex(encode_utf8(keyfile@)).take(16));
    let mut s = "sftp-pass://".to_owned();
    s.append(text_of(short.as_slice()).as_str());
    s
}

/// A path that does not hang off another one.
pub open spec fn rooted_path(p: Seq<char>, windows: bool) -> bool {
    p.len() > 0 && (p[0] == '/' || (windows && p[0] == '\\')) || drive_led(p, windows)
}

/// A path that begins with a drive.
pub open spec fn drive_led(p: Seq<char>, windows: bool) -> bool {
    windows && p.len() >= 2 && ascii_alpha(p[0]) && p[1] == ':'
}

/// `rest` as seen from `home`.
pub open spec fn from_home(home: Seq<char>, rest: Seq<char>, windows: bool) -> Seq<char> {
    if drive_led(rest, windows) || !rooted_path(rest, windows) {
        if rooted_path(rest, windows) {
            rest
        } else {
            below_of(home, windows, rest)
        }
    } else if drive_led(home, windows) {
        home.take(2) + rest
    } else {
        rest
    }
}

/// A path of the user's, `~` at its beginning standing for the home directory.
pub open spec fn expanded(s: Seq<char>, home: Option<Seq<char>>, windows: bool) -> Seq<char> {
    if s.len() >= 2 && s[0] == '~' && (s[1] == '/' || s[1] == '\\') {
        match home {
            Some(h) => from_home(h, s.skip(2), windows),
            None => s,
        }
    } else {
        s
    }
}

fn is_drive_led(p: &[char], windows: bool) -> (r: bool)
    ensures
        r == drive_led(p@, windows),
{
    windows && p.len() >= 2 && (('A' <= p[0] && p[0] <= 'Z') || ('a' <= p[0] && p[0] <= 'z')) && p[1]
        == ':'
}

/// `~/x` means the home directory of this machine: key files live here.
pub fn expand_tilde(s: &str, home: Option<&str>, windows: bool) -> (r: String)
    ensures
        r@ == expanded(
            s@,
            match home {
                Some(h) => Some(h@),
                None => None,
            },
            windows,
        ),
{
    let v = chars_of(s);
    if v.len() >= 2 && v[0] == '~' && (v[1] == '/' || v[1] == '\\') {
        if let Some(h) = home {
            let rest = slice(v.as_slice(), 2, v.len());
            assert(rest@ =~= s@.skip(2));
            let led = is_drive_led(rest.as_slice(), windows);
            let slashed = rest.len() > 0 && (rest[0] == '/' || (windows && rest[0] == '\\'));
            if led {
                return text_of(rest.as_slice());
            }
            if !slashed {
                return in_dir(h, windows, text_of(rest.as_slice()).as_str());
            }
            let hv = chars_of(h);
            if is_drive_led(hv.as_slice(), windows) {
                let mut out = slice(hv.as_slice(), 0, 2);
                assert(out@ =~= h@.take(2));
                crate::strings::push_all(&mut out, rest.as_slice());
                return text_of(out.as_slice());
            }
            return text_of(rest.as_slice());
        }
    }
    s.to_owned()
}

/// The entries that hold the secrets of a root, and the key file it names.
pub struct Wanted {
    pub password: Option<String>,
    pub keyfile: Option<String>,
    pub passphrase: Option<String>,
}

/// The provider that asks the operating system's store and nobody else: it never prompts and never
/// makes anything up.
pub struct KeyringProvider;

pub open spec fn keyfile_of(r: RemoteModel, home: Option<Seq<char>>, windows: bool) -> Option<
    Seq<char>,
> {
    match r.option("key"@) {
        Some(k) => Some(expanded(k, home, windows)),
        None => None,
    }
}

impl KeyringProvider {
    /// What to look up for a root.
    pub fn wanted(&self, spec: &RemoteSpec, home: Option<&str>, windows: bool) -> (r: Wanted)
        ensures
            opt_text(r.password) == account_of(spec@),
            opt_text(r.keyfile) == keyfile_of(
                spec@,
                match home {
                    Some(h) => Some(h@),
                    None => None,
                },
                windows,
            ),
            match r.keyfile {
                Some(k) => opt_text(r.passphrase) == Some(passphrase_entry(k@)),
                None => r.passphrase is None,
            },
    {
        let keyfile = match spec.opt("key") {
            Some(k) => Some(expand_tilde(k, home, windows)),
            None => None,
        };
        let passphrase = match &keyfile {
            Some(k) => Some(passphrase_account(k.as_str())),
            None => None,
        };
        Wanted { password: account_for(spec), keyfile, passphrase }
    }

    /// The credentials of a root, from what the store had.
    pub fn assemble(
        &self,
        spec: &RemoteSpec,
        keyfile: Option<String>,
        password: Option<String>,
        passphrase: Option<String>,
    ) -> (r: Credentials)
        ensures
            r.password == password,
            r.keyfile == keyfile,
            r.passphrase == passphrase,
            r.use_agent == (spec@.option("agent"@) is Some),
            r.anonymous == (spec@.user == Some("anonymous"@)),
    {
        let anonymous = match &spec.user {
            Some(u) => same(u.as_str(), "anonymous"),
            None => false,
        };
        let use_agent = spec.has_flag("agent");
        Credentials { password, keyfile, passphrase, use_agent, anonymous }
    }
}

pub fn default_provider() -> (r: KeyringProvider)
    ensures
        r == KeyringProvider,
{
    KeyringProvider
}

/// The accounts in an index: its lines that are not blank.
pub open spec fn accounts_in(parts: Seq<Seq<char>>) -> Seq<Seq<char>>
    decreases parts.len(),
{
    if parts.len() == 0 {
        Seq::empty()
    } else {
        let before = accounts_in(parts.drop_last());
        let line = trim(parts.last());
        if line.len() == 0 {
            before
        } else {
            before.push(line)
        }
    }
}

pub open spec fn index_of(text: Seq<char>) -> Seq<Seq<char>> {
    accounts_in(split(text, '\n'))
}

/// The accounts of an index.
pub fn list_accounts(text: &str) -> (r: Vec<String>)
    ensures
        texts(r@) == index_of(text@),
{
    let all = chars_of(text);
    let parts = split_chars(all.as_slice(), '\n');
    let ghost lines = char_lists(parts@);
    let mut out: Vec<String> = Vec::new();
    let mut i: usize = 0;
    proof {
        assert(lines.take(0) =~= Seq::<Seq<char>>::empty());
        assert(texts(out@) =~= accounts_in(lines.take(0)));
    }
    while i < parts.len()
        invariant
            i <= parts@.len(),
            lines == char_lists(parts@),
            texts(out@) == accounts_in(lines.take(i as int)),
        decreases parts@.len() - i,
    {
        proof {
            assert(lines.take(i as int + 1).drop_last() =~= lines.take(i as int));
            assert(lines.take(i as int + 1).last() == parts@[i as int]@);
        }
        let line = trimmed(parts[i].as_slice());
        if line.len() > 0 {
            let t = text_of(line.as_slice());
            assert(texts(out@.push(t)) =~= texts(out@).push(t@));
            out.push(t);
        }
        i = i + 1;
    }
    assert(lines.take(lines.len() as int) =~= lines);
    out
}

/// The same accounts, in order and each once.
pub open spec fn tidied(list: Seq<Seq<char>>, out: Seq<Seq<char>>) -> bool {
    ascending(out) && forall|k: Seq<char>| #[trigger] list.contains(k) <==> out.contains(k)
}

/// There is one way to put accounts in order, each once.
pub proof fn tidying_is_unique(list: Seq<Seq<char>>, a: Seq<Seq<char>>, b: Seq<Seq<char>>)
    requires
        tidied(list, a),
        tidied(list, b),
    ensures
        a == b,
{
    lemma_tidied_within(list, a, b, a.len() as int);
    lemma_tidied_within(list, b, a, b.len() as int);
    assert(a =~= b);
}

proof fn lemma_tidied_within(list: Seq<Seq<char>>, a: Seq<Seq<char>>, b: Seq<Seq<char>>, n: int)
    requires
        tidied(list, a),
        tidied(list, b),
        0 <= n <= a.len(),
    ensures
        n <= b.len(),
        forall|i: int| 0 <= i < n ==> #[trigger] a[i] == b[i],
    decreases n,
{
    if n > 0 {
        lemma_tidied_within(list, a, b, n - 1);
        let m = n - 1;
        assert(a.contains(a[m]));
        assert(list.contains(a[m]));
        let j = choose|j: int| 0 <= j < b.len() && b[j] == a[m];
        if j < m {
            assert(a[j] == b[j]);
            lemma_text_irreflexive(a[m]);
        }
        if j > m {
            assert(b.contains(b[m]));
            assert(list.contains(b[m]));
            let i = choose|i: int| 0 <= i < a.len() && a[i] == b[m];
            assert(text_lt(b[m], b[j]));
            if i < m {
                assert(a[i] == b[i]);
                lemma_text_irreflexive(b[m]);
            } else if i == m {
                lemma_text_irreflexive(b[m]);
            } else {
                assert(text_lt(a[m], a[i]));
                lemma_text_transitive(a[m], b[m], a[m]);
                lemma_text_irreflexive(a[m]);
            }
        }
    }
}

spec fn code_keys(list: Seq<Seq<char>>) -> Seq<Seq<i64>> {
    Seq::new(list.len(), |i: int| codes(list[i]))
}

/// Puts accounts in order, each once.
pub fn tidy(accounts: &Vec<String>) -> (r: Vec<String>)
    ensures
        tidied(texts(accounts@), texts(r@)),
{
    let ghost list = texts(accounts@);
    let mut keys: Vec<Vec<i64>> = Vec::new();
    let mut i: usize = 0;
    while i < accounts.len()
        invariant
            i <= accounts@.len(),
            list == texts(accounts@),
            keys@.len() == i,
            forall|j: int| 0 <= j < i ==> (#[trigger] keys@[j])@ == codes(list[j]),
        decreases accounts@.len() - i,
    {
        keys.push(codes_of(chars_of(accounts[i].as_str()).as_slice()));
        i = i + 1;
    }
    proof {
        assert(key_views(keys@) =~= code_keys(list));
    }
    let p = stable_sort(&keys);
    let mut out: Vec<String> = Vec::new();
    let mut k: usize = 0;
    while k < p.len()
        invariant
            k <= p@.len(),
            list == texts(accounts@),
            stable_order(code_keys(list), p@),
            ascending(texts(out@)),
            forall|j: int| 0 <= j < k ==> texts(out@).contains(list[#[trigger] p@[j] as int]),
            forall|a: int|
                0 <= a < out@.len() ==> exists|j: int|
                    0 <= j < k && (#[trigger] out@[a])@ == list[#[trigger] p@[j] as int],
            k > 0 ==> out@.len() > 0 && out@[out@.len() - 1]@ == list[p@[k - 1] as int],
        decreases p@.len() - k,
    {
        let s = &accounts[p[k]];
        let n = out.len();
        let ghost was = out@;
        assert(s@ == list[p@[k as int] as int]);
        let again = n > 0 && same(out[n - 1].as_str(), s.as_str());
        if !again {
            proof {
                let cur = list[p@[k as int] as int];
                assert forall|a: int, b: int|
                    0 <= a < b < texts(out@.push(*s)).len() implies text_lt(
                    #[trigger] texts(out@.push(*s))[a],
                    #[trigger] texts(out@.push(*s))[b],
                ) by {
                    let t = texts(was);
                    if b < was.len() {
                        assert(t[a] == texts(out@.push(*s))[a]);
                        assert(t[b] == texts(out@.push(*s))[b]);
                    } else {
                        // the last one so far comes no later than this one, and is not it
                        let last = was[was.len() - 1]@;
                        assert(sorts_before(code_keys(list), p@[k - 1] as int, p@[k as int] as int));
                        assert(code_keys(list)[p@[k - 1] as int] == codes(last));
                        assert(code_keys(list)[p@[k as int] as int] == codes(cur));
                        if codes(last) == codes(cur) {
                            lemma_codes_injective(last, cur);
                        }
                        assert(text_lt(last, cur));
                        if a < was.len() - 1 {
                            assert(text_lt(t[a], t[was.len() - 1]));
                            lemma_text_transitive(t[a], last, cur);
                        }
                        assert(texts(out@.push(*s))[a] == t[a]);
                    }
                }
            }
            out.push(s.clone());
            proof {
                assert(texts(out@) =~= texts(was).push(s@));
                assert(texts(out@)[was.len() as int] == s@);
            }
        }
        proof {
            assert forall|j: int| 0 <= j < k + 1 implies texts(out@).contains(
                list[#[trigger] p@[j] as int],
            ) by {
                if j < k {
                    let x = list[p@[j] as int];
                    let a = choose|a: int| 0 <= a < texts(was).len() && texts(was)[a] == x;
                    assert(texts(out@)[a] == x);
                } else {
                    let last = out@.len() - 1;
                    assert(texts(out@)[last] == list[p@[j] as int]);
                }
            }
            assert forall|a: int| 0 <= a < out@.len() implies exists|j: int|
                0 <= j < k + 1 && (#[trigger] out@[a])@ == list[#[trigger] p@[j] as int] by {
                if a < was.len() {
                    assert(out@[a] == was[a]);
                    let j = choose|j: int|
                        0 <= j < k && was[a]@ == list[#[trigger] p@[j] as int];
                    assert(out@[a]@ == list[p@[j] as int]);
                } else {
                    assert(out@[a]@ == list[p@[k as int] as int]);
                }
            }
        }
        k = k + 1;
    }
    proof {
        assert forall|x: Seq<char>| #[trigger] list.contains(x) <==> texts(out@).contains(x) by {
            if list.contains(x) {
                let i = choose|i: int| 0 <= i < list.len() && list[i] == x;
                stable_order_is_complete(code_keys(list), p@, i);
                let j = choose|j: int| 0 <= j < p@.len() && p@[j] == i;
                assert(list[p@[j] as int] == x);
            }
            if texts(out@).contains(x) {
                let a = choose|a: int| 0 <= a < texts(out@).len() && texts(out@)[a] == x;
                let j = choose|j: int|
                    0 <= j < p@.len() && out@[a]@ == list[#[trigger] p@[j] as int];
                assert(list[p@[j] as int] == x);
            }
        }
    }
    out
}

/// The index once an account was stored.
pub fn index_add(text: &str, account: &str) -> (r: Vec<String>)
    ensures
        tidied(index_of(text@).push(account@), texts(r@)),
{
    let mut v = list_accounts(text);
    let ghost before = v@;
    v.push(account.to_owned());
    assert(texts(v@) =~= texts(before).push(account@));
    tidy(&v)
}

/// The index once an account was taken out.
pub fn index_remove(text: &str, account: &str) -> (r: Vec<String>)
    ensures
        ascending(texts(r@)),
        forall|k: Seq<char>| #[trigger]
            texts(r@).contains(k) <==> index_of(text@).contains(k) && k != account@,
{
    let v = list_accounts(text);
    let ghost all = texts(v@);
    let mut keep: Vec<String> = Vec::new();
    let mut i: usize = 0;
    while i < v.len()
        invariant
            i <= v@.len(),
            all == texts(v@),
            forall|k: Seq<char>| #[trigger]
                texts(keep@).contains(k) <==> all.take(i as int).contains(k) && k != account@,
        decreases v@.len() - i,
    {
        let ghost was = texts(keep@);
        let ghost done = all.take(i as int);
        let ghost item = v@[i as int]@;
        if !same(v[i].as_str(), account) {
            let copy = v[i].clone();
            assert(texts(keep@.push(copy)) =~= was.push(item));
            keep.push(copy);
        }
        proof {
            assert(all.take(i as int + 1) =~= done.push(item));
            assert forall|k: Seq<char>| #[trigger]
                texts(keep@).contains(k) <==> all.take(i as int + 1).contains(k) && k != account@ by {
                lemma_push_contains(was, item, k);
                lemma_push_contains(done, item, k);
            }
        }
        i = i + 1;
    }
    assert(all.take(all.len() as int) =~= all);
    let out = tidy(&keep);
    proof {
        assert forall|k: Seq<char>| #[trigger]
            texts(out@).contains(k) <==> index_of(text@).contains(k) && k != account@ by {
            assert(texts(keep@).contains(k) <==> all.contains(k) && k != account@);
        }
    }
    out
}

proof fn lemma_push_contains(s: Seq<Seq<char>>, x: Seq<char>, k: Seq<char>)
    ensures
        s.push(x).contains(k) <==> s.contains(k) || k == x,
{
    let t = s.push(x);
    if s.contains(k) {
        let i = choose|i: int| 0 <= i < s.len() && s[i] == k;
        assert(t[i] == k);
    }
    if k == x {
        assert(t[s.len() as int] == k);
    }
    if t.contains(k) {
        let i = choose|i: int| 0 <= i < t.len() && t[i] == k;
        if i < s.len() {
            assert(s[i] == k);
        }
    }
}

/// The text of an index: one account to a line.
pub open spec fn index_text(accounts: Seq<Seq<char>>) -> Seq<char>
    decreases accounts.len(),
{
    if accounts.len() == 0 {
        Seq::empty()
    } else {
        index_text(accounts.drop_last()) + accounts.last() + "\n"@
    }
}

pub fn write_index(accounts: &Vec<String>) -> (r: String)
    ensures
        r@ == index_text(texts(accounts@)),
{
    let ghost all = texts(accounts@);
    let mut out = String::new();
    let mut i: usize = 0;
    assert(all.take(0) =~= Seq::<Seq<char>>::empty());
    while i < accounts.len()
        invariant
            i <= accounts@.len(),
            all == texts(accounts@),
            out@ == index_text(all.take(i as int)),
        decreases accounts@.len() - i,
    {
        proof {
            assert(all.take(i as int + 1).drop_last() =~= all.take(i as int));
            assert(all.take(i as int + 1).last() == accounts@[i as int]@);
        }
        out.append(accounts[i].as_str());
        out.append("\n");
        i = i + 1;
    }
    assert(all.take(all.len() as int) =~= all);
    out
}

/// An account as it stands in an index: on one line, without white space at its ends.
pub open spec fn listable(account: Seq<char>) -> bool {
    account.len() > 0 && trim(account) == account && !carries(account, '\n')
}

/// What was written to an index is what is read from it.
pub proof fn an_index_reads_back(accounts: Seq<Seq<char>>)
    requires
        forall|i: int| 0 <= i < accounts.len() ==> listable(#[trigger] accounts[i]),
    ensures
        index_of(index_text(accounts)) == accounts,
{
    lemma_index_lines(accounts);
    lemma_lines_are_accounts(accounts);
    let lines = accounts.push(Seq::empty());
    assert(lines.drop_last() =~= accounts);
    assert(trim(Seq::<char>::empty()) =~= Seq::<char>::empty());
}

proof fn lemma_lines_are_accounts(accounts: Seq<Seq<char>>)
    requires
        forall|i: int| 0 <= i < accounts.len() ==> listable(#[trigger] accounts[i]),
    ensures
        accounts_in(accounts) == accounts,
    decreases accounts.len(),
{
    if accounts.len() > 0 {
        let before = accounts.drop_last();
        assert forall|i: int| 0 <= i < before.len() implies listable(#[trigger] before[i]) by {
            assert(before[i] == accounts[i]);
        }
        lemma_lines_are_accounts(before);
        assert(listable(accounts[accounts.len() - 1]));
        assert(before.push(accounts.last()) =~= accounts);
    } else {
        assert(accounts =~= Seq::<Seq<char>>::empty());
    }
}

proof fn lemma_index_lines(accounts: Seq<Seq<char>>)
    requires
        forall|i: int| 0 <= i < accounts.len() ==> listable(#[trigger] accounts[i]),
    ensures
        split(index_text(accounts), '\n') == accounts.push(Seq::empty()),
    decreases accounts.len(),
{
    reveal_strlit("\n");
    let none = Seq::<char>::empty();
    lemma_split_whole(none, '\n');
    if accounts.len() == 0 {
        assert(split(index_text(accounts), '\n') =~= accounts.push(none));
    } else {
        let before = accounts.drop_last();
        let item = accounts.last();
        assert(listable(accounts[accounts.len() - 1]));
        assert forall|i: int| 0 <= i < before.len() implies listable(#[trigger] before[i]) by {
            assert(before[i] == accounts[i]);
        }
        lemma_index_lines(before);
        lemma_split_whole(item, '\n');
        lemma_split_at(item, '\n', none);
        let line = item.push('\n') + none;
        let t = index_text(before);
        assert(index_text(accounts) =~= t + line);
        if before.len() == 0 {
            assert(t + line =~= line);
            assert(split(line, '\n') =~= accounts.push(none));
        } else {
            let w = t.drop_last();
            assert(t.last() == '\n');
            assert(t =~= w.push('\n'));
            assert(t =~= w.push('\n') + none);
            lemma_split_at(w, '\n', none);
            assert(split(w, '\n') + seq![none] == before.push(none));
            assert(split(w, '\n') =~= before) by {
                let x = split(w, '\n') + seq![none];
                assert(x.drop_last() =~= split(w, '\n'));
                assert(before.push(none).drop_last() =~= before);
            }
            lemma_split_at(w, '\n', line);
            assert(t + line =~= w.push('\n') + line);
            assert(before + split(line, '\n') =~= accounts.push(none));
        }
    }
}

/// An index holds an account exactly where one of its lines is that account, blanks at the ends left aside.
pub proof fn every_line_is_an_account(parts: Seq<Seq<char>>, account: Seq<char>)
    ensures
        accounts_in(parts).contains(account) <==> account.len() > 0 && exists|i: int|
            0 <= i < parts.len() && trim(#[trigger] parts[i]) == account,
    decreases parts.len(),
{
    if parts.len() > 0 {
        let less = parts.drop_last();
        every_line_is_an_account(less, account);
        let before = accounts_in(less);
        let line = trim(parts.last());
        let at = less.len() as int;
        if line.len() > 0 {
            lemma_push_contains(before, line, account);
        }
        if exists|i: int| 0 <= i < less.len() && trim(#[trigger] less[i]) == account {
            let i = choose|i: int| 0 <= i < less.len() && trim(#[trigger] less[i]) == account;
            assert(trim(parts[i]) == account);
        }
        if exists|i: int| 0 <= i < parts.len() && trim(#[trigger] parts[i]) == account {
            let i = choose|i: int| 0 <= i < parts.len() && trim(#[trigger] parts[i]) == account;
            if i < at {
                assert(trim(less[i]) == account);
            }
        }
        assert(trim(parts[at]) == line);
    }
}

/// A tilde stands for the home directory only at the beginning of a path and before a separator; the rest
/// of the path stays as it is.
pub proof fn only_a_leading_tilde_is_home(s: Seq<char>, home: Seq<char>, rest: Seq<char>, windows: bool)
    ensures
        expanded(s, None, windows) == s,
        s.len() == 0 || s[0] != '~' ==> expanded(s, Some(home), windows) == s,
        s.len() >= 2 && s[1] != '/' && s[1] != '\\' ==> expanded(s, Some(home), windows) == s,
        rest.len() > 0 && rest[0] != '/' && rest[0] != '\\' && !(rest.len() > 1 && rest[1] == ':') ==> ({
            let r = expanded(seq!['~', '/'] + rest, Some(home), windows);
            &&& home.is_prefix_of(r)
            &&& r.len() <= home.len() + 1 + rest.len()
            &&& r.skip(r.len() - rest.len()) == rest
        }),
{
    let s2 = seq!['~', '/'] + rest;
    assert(s2.skip(2) =~= rest);
    assert(s2[0] == '~' && s2[1] == '/');
    let r = expanded(s2, Some(home), windows);
    if rest.len() > 0 && rest[0] != '/' && rest[0] != '\\' && !(rest.len() > 1 && rest[1] == ':') {
        assert(r == below_of(home, windows, rest));
        assert(home =~= r.take(home.len() as int));
        assert(r.skip(r.len() - rest.len()) =~= rest);
    }
}

/// A password is filed under the user and the server: without a user there is no entry, and another port is
/// another entry.
pub proof fn entries_tell_servers_apart(a: RemoteModel, b: RemoteModel)
    ensures
        account_of(a) is Some <==> a.user is Some,
        a.scheme == b.scheme && a.user == b.user && a.user is Some && a.host == b.host && a.port is Some
            && b.port is Some && a.port != b.port ==> account_of(a) != account_of(b),
{
    if a.scheme == b.scheme && a.user == b.user && a.user is Some && a.host == b.host && a.port is Some
        && b.port is Some && account_of(a) == account_of(b) {
        let front = a.scheme + "://"@ + a.user->0 + "@"@ + lowercase(a.host) + ":"@;
        let x = numeral(a.port->0 as nat);
        let y = numeral(b.port->0 as nat);
        assert((front + x).skip(front.len() as int) =~= x);
        assert((front + y).skip(front.len() as int) =~= y);
        assert(account_of(a)->0 == front + x);
        assert(account_of(b)->0 == front + y);
        crate::strings::lemma_numeral_digits(a.port->0 as nat);
        crate::strings::lemma_numeral_digits(b.port->0 as nat);
    }
}

} // verus!
