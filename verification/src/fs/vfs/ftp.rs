//! The FTP backend: what it asks of a server and what the answers mean.
//!
//! Listings are asked for inside a directory, never with a path. There is no `stat`: the listing of
//! the parent is the answer, which makes an absence confirmed. Times are in seconds where the server
//! has MLSD and in minutes where it has not, and can be set only where it has MFMT. One control
//! connection serves one operation at a time. `ftps` secures it before the login goes out.
use vstd::prelude::*;
use vstd::utf8::is_ascii_chars;
use crate::foundation::text::{ascii_lowered, to_ascii_lower};
use crate::foundation::time::{civil, compact_text, file_time_ms, stamp_compact};
use crate::fs::vfs::error::{is_error, IoFailure, VfsError, VfsErrorKind, VfsResult};
use crate::fs::vfs::remote::{error_parts, read_timeout, timeout_of, unconnected, unconnected_text};
use crate::fs::vfs::spec::RemoteSpec;
use crate::fs::vfs::{
    listed, CaseSense, CommitReport, Medium, MetaModel, NameRules, Support, VDirEntry, VMeta, VfsCaps,
    WriteHint,
};
use crate::strings::{
    ascii_digit, bare, char_lists, chars_of, decimal, find_text, is_white, numeral, same, same_chars,
    slice, split, split_chars, starts_with, text_index, text_of, texts, trim, trim_slashes, trim_start,
    trimmed,
};
use crate::table::{copy_opt, opt_text, EntryKind};

verus! {

/// What the server says it can do.
#[derive(Clone, Copy, Debug, PartialEq, Eq, Structural)]
pub struct Feats {
    pub mlsd: bool,
    pub mfmt: bool,
    pub rest: bool,
}

/// A server that says nothing.
pub open spec fn no_feats() -> Feats {
    Feats { mlsd: false, mfmt: false, rest: false }
}

pub open spec fn feats_of(names: Seq<Seq<char>>) -> Feats {
    Feats {
        mlsd: names.contains("MLSD"@) || names.contains("MLST"@),
        mfmt: names.contains("MFMT"@),
        rest: names.contains("REST"@),
    }
}

fn names_feature(names: &Vec<String>, what: &str) -> (r: bool)
    ensures
        r == texts(names@).contains(what@),
{
    let ghost all = texts(names@);
    let mut i: usize = 0;
    while i < names.len()
        invariant
            i <= names@.len(),
            all == texts(names@),
            forall|j: int| 0 <= j < i ==> #[trigger] all[j] != what@,
        decreases names@.len() - i,
    {
        if same(names[i].as_str(), what) {
            assert(all[i as int] == what@);
            return true;
        }
        i = i + 1;
    }
    false
}

/// What a server announced.
pub fn read_feats(names: &Vec<String>) -> (r: Feats)
    ensures
        r == feats_of(texts(names@)),
{
    Feats {
        mlsd: names_feature(names, "MLSD") || names_feature(names, "MLST"),
        mfmt: names_feature(names, "MFMT"),
        rest: names_feature(names, "REST"),
    }
}

/// Why the server did not do what it was asked.
pub enum FtpFault {
    /// The connection failed.
    Connection(String),
    /// The server answered with this code and text.
    Answer(u32, String),
    Other(String),
}

/// What a fault means. A 550 says "not found or not allowed": callers confirm before they believe it.
pub open spec fn fault_error(what: Seq<char>, e: FtpFault) -> (VfsErrorKind, Seq<char>) {
    match e {
        FtpFault::Connection(t) => (VfsErrorKind::Transient, what + ": connection error: "@ + t@),
        FtpFault::Answer(code, body) => (
            if code == 550 {
                VfsErrorKind::NotFound
            } else {
                VfsErrorKind::Protocol
            },
            what + ": server answered "@ + numeral(code as nat) + ": "@ + trim(body@),
        ),
        FtpFault::Other(t) => (VfsErrorKind::Protocol, what + ": "@ + t@),
    }
}

pub fn map_ftp_err(what: &str, e: &FtpFault) -> (r: VfsError)
    ensures
        (r.kind, r.detail@) == fault_error(what@, *e),
        r.source is None,
{
    let mut s = what.to_owned();
    match e {
        FtpFault::Connection(t) => {
            s.append(": connection error: ");
            s.append(t.as_str());
            VfsError::new(VfsErrorKind::Transient, s.as_str())
        },
        FtpFault::Answer(code, body) => {
            s.append(": server answered ");
            s.append(decimal(*code as u64).as_str());
            s.append(": ");
            let t = trimmed(chars_of(body.as_str()).as_slice());
            s.append(text_of(t.as_slice()).as_str());
            let kind = if *code == 550 {
                VfsErrorKind::NotFound
            } else {
                VfsErrorKind::Protocol
            };
            VfsError::new(kind, s.as_str())
        },
        FtpFault::Other(t) => {
            s.append(": ");
            s.append(t.as_str());
            VfsError::new(VfsErrorKind::Protocol, s.as_str())
        },
    }
}

/// A broken connection is never taken for an absence.
pub proof fn a_broken_connection_is_no_absence(what: Seq<char>, e: FtpFault)
    requires
        e is Connection,
    ensures
        fault_error(what, e).0 == VfsErrorKind::Transient,
{
}

/// Whether the connection has to be dropped after an error, so that the next operation makes a new one.
pub fn poisons(e: &VfsError) -> (r: bool)
    ensures
        r == (e.kind == VfsErrorKind::Transient),
{
    e.kind == VfsErrorKind::Transient
}

/// The path of `rel` on the server.
pub open spec fn abs_of(root: Seq<char>, rel: Seq<char>) -> Seq<char> {
    let r = bare(root);
    if r.len() == 0 {
        if rel.len() == 0 {
            "/"@
        } else {
            "/"@ + rel
        }
    } else if rel.len() == 0 {
        "/"@ + r
    } else {
        "/"@ + r + "/"@ + rel
    }
}

/// An FTP root.
pub struct FtpBackend {
    pub spec: RemoteSpec,
    pub timeout_secs: u64,
    pub connected: bool,
    /// Known once connected.
    pub feats: Option<Feats>,
}

pub open spec fn yes_no(b: bool) -> Support {
    if b {
        Support::Yes
    } else {
        Support::No
    }
}

/// What an FTP root can do, as far as it is known.
pub open spec fn ftp_caps(feats: Option<Feats>, c: VfsCaps) -> bool {
    &&& c.protocol@ == "ftp"@
    &&& c.mtime_precision_ms == if feats matches Some(f) && f.mlsd {
        1000u32
    } else {
        60000u32
    }
    &&& c.set_mtime == match feats {
        Some(f) => yes_no(f.mfmt),
        None => Support::Unknown,
    }
    &&& c.fsync == Support::No
    &&& c.rename == Support::Yes
    &&& c.rename_overwrite == Support::Unknown
    &&& c.ranged_read == match feats {
        Some(f) => yes_no(f.rest),
        None => Support::Unknown,
    }
    &&& c.write_at == Support::No
    &&& c.unix_mode == Support::No
    &&& c.symlink == Support::No
    &&& c.file_id == Support::No
    &&& c.free_space == Support::No
    &&& c.read_back == Support::Yes
    &&& c.medium == Medium::NetworkShare
    &&& !c.local_trash
    &&& c.case_sensitivity == CaseSense::Unknown
    &&& c.name_rules == NameRules::Unknown
    &&& c.max_parallel_streams == 1
}

pub open spec fn info_text(f: Feats) -> Seq<char> {
    "ftp, MLSD:"@ + (if f.mlsd {
        "yes"@
    } else {
        "NO (minute-precision LIST)"@
    }) + " MFMT:"@ + (if f.mfmt {
        "yes"@
    } else {
        "NO (mtimes cannot be set)"@
    }) + " REST:"@ + (if f.rest {
        "yes"@
    } else {
        "NO (no sampled evidence)"@
    })
}

impl FtpBackend {
    pub fn new(spec: RemoteSpec) -> (r: FtpBackend)
        ensures
            r.spec == spec,
            r.timeout_secs == timeout_of(spec@.option("timeout"@)),
            !r.connected,
            r.feats is None,
    {
        let timeout_secs = read_timeout(&spec);
        FtpBackend { spec, timeout_secs, connected: false, feats: None }
    }

    /// The path of `rel` on the server.
    pub fn abs(&self, rel: &str) -> (r: String)
        ensures
            r@ == abs_of(self.spec.root@, rel@),
    {
        let root = trim_slashes(chars_of(self.spec.root.as_str()).as_slice());
        let mut s = "/".to_owned();
        if root.len() > 0 {
            s.append(text_of(root.as_slice()).as_str());
            if rel.unicode_len() > 0 {
                s.append("/");
                s.append(rel);
            }
        } else if rel.unicode_len() > 0 {
            s.append(rel);
        }
        s
    }

    pub fn caps(&self) -> (r: VfsCaps)
        ensures
            ftp_caps(self.feats, r),
    {
        let mtime_precision_ms: u32 = match self.feats {
            Some(f) => if f.mlsd {
                1000
            } else {
                60000
            },
            None => 60000,
        };
        let set_mtime = match self.feats {
            Some(f) => if f.mfmt {
                Support::Yes
            } else {
                Support::No
            },
            None => Support::Unknown,
        };
        let ranged_read = match self.feats {
            Some(f) => if f.rest {
                Support::Yes
            } else {
                Support::No
            },
            None => Support::Unknown,
        };
        VfsCaps {
            protocol: "ftp",
            mtime_precision_ms,
            set_mtime,
            fsync: Support::No,
            rename: Support::Yes,
            rename_overwrite: Support::Unknown,
            ranged_read,
            write_at: Support::No,
            unix_mode: Support::No,
            symlink: Support::No,
            file_id: Support::No,
            free_space: Support::No,
            read_back: Support::Yes,
            medium: Medium::NetworkShare,
            local_trash: false,
            case_sensitivity: CaseSense::Unknown,
            name_rules: NameRules::Unknown,
            max_parallel_streams: 1,
        }
    }

    pub fn display(&self) -> (r: String)
        ensures
            r@ == self.spec@.shown(),
    {
        self.spec.display()
    }

    pub fn identity(&self) -> (r: String)
        ensures
            r@ == self.spec@.canonical(),
            is_ascii_chars(self.spec.host@) ==> r@ == self.spec@.canonical_at(
                ascii_lowered(self.spec.host@),
            ),
    {
        self.spec.identity()
    }

    /// One line about the server, once it is known.
    pub fn server_info(&self) -> (r: Option<String>)
        ensures
            opt_text(r) == match self.feats {
                Some(f) => Some(info_text(f)),
                None => None,
            },
    {
        match self.feats {
            Some(f) => {
                let mut s = "ftp, MLSD:".to_owned();
                s.append(
                    if f.mlsd {
                        "yes"
                    } else {
                        "NO (minute-precision LIST)"
                    },
                );
                s.append(" MFMT:");
                s.append(
                    if f.mfmt {
                        "yes"
                    } else {
                        "NO (mtimes cannot be set)"
                    },
                );
                s.append(" REST:");
                s.append(
                    if f.rest {
                        "yes"
                    } else {
                        "NO (no sampled evidence)"
                    },
                );
                Some(s)
            },
            None => None,
        }
    }

    /// Nothing can be asked before the root is connected.
    pub fn ready(&self) -> (r: VfsResult<()>)
        ensures
            match r {
                Ok(_) => self.connected,
                Err(e) => !self.connected && is_error(
                    e,
                    VfsErrorKind::Transient,
                    unconnected_text(self.spec@.shown()),
                ),
            },
    {
        if self.connected {
            return Ok(());
        }
        Err(unconnected(self.spec.display().as_str()))
    }

    /// Whether reads may begin in the middle of a file.
    pub fn may_seek(&self) -> (r: VfsResult<()>)
        ensures
            match r {
                Ok(_) => self.feats matches Some(f) && f.rest,
                Err(e) => !(self.feats matches Some(f) && f.rest) && is_error(
                    e,
                    VfsErrorKind::Unsupported,
                    "this server advertises no REST — no ranged reads"@,
                ),
            },
    {
        match self.feats {
            Some(f) => if f.rest {
                return Ok(());
            },
            None => {},
        }
        Err(VfsError::unsupported("this server advertises no REST — no ranged reads"))
    }

    /// The command that sets a modification time.
    pub fn mtime_command(&self, rel: &str, mtime_ms: i64) -> (r: VfsResult<String>)
        ensures
            match r {
                Ok(c) => (self.feats matches Some(f) && f.mfmt) && c@ == mfmt_text(
                    mtime_ms,
                    abs_of(self.spec.root@, rel@),
                ),
                Err(e) => !(self.feats matches Some(f) && f.mfmt) && is_error(
                    e,
                    VfsErrorKind::Unsupported,
                    "this server advertises no MFMT — mtimes cannot be set"@,
                ),
            },
    {
        match self.feats {
            Some(f) => if f.mfmt {
                let abs = self.abs(rel);
                return Ok(mfmt_command(mtime_ms, abs.as_str()));
            },
            None => {},
        }
        Err(VfsError::unsupported("this server advertises no MFMT — mtimes cannot be set"))
    }

    pub fn set_mode(&self, _rel: &str, _mode: u32) -> (r: VfsResult<()>)
        ensures
            r matches Err(e) && is_error(
                e,
                VfsErrorKind::Unsupported,
                "FTP carries no unix modes"@,
            ),
    {
        Err(VfsError::unsupported("FTP carries no unix modes"))
    }

    pub fn make_symlink(&self, _rel: &str, _target: &str) -> (r: VfsResult<()>)
        ensures
            r matches Err(e) && is_error(
                e,
                VfsErrorKind::Unsupported,
                "FTP cannot create symlinks"@,
            ),
    {
        Err(VfsError::unsupported("FTP cannot create symlinks"))
    }
}

/// What a refused removal of a directory means: whether it is empty is found out by looking, not from
/// the server's words. `left` is how many entries a listing showed, `None` where there was none.
pub fn weigh_rmdir(e: VfsError, left: Option<usize>, rel: &str) -> (r: VfsError)
    ensures
        if e.kind != VfsErrorKind::Transient && (left matches Some(n) && n > 0) {
            is_error(r, VfsErrorKind::NotEmpty, "directory not empty: "@ + rel@)
        } else {
            r == e
        },
{
    if e.kind != VfsErrorKind::Transient {
        if let Some(n) = left {
            if n > 0 {
                let mut s = "directory not empty: ".to_owned();
                s.append(rel);
                return VfsError::new(VfsErrorKind::NotEmpty, s.as_str());
            }
        }
    }
    e
}

/// `s` without any `-`.
pub open spec fn undashed(s: Seq<char>) -> Seq<char>
    decreases s.len(),
{
    if s.len() == 0 {
        Seq::empty()
    } else if s.last() == '-' {
        undashed(s.drop_last())
    } else {
        undashed(s.drop_last()).push(s.last())
    }
}

/// The command that gives a file a modification time, to the second.
pub open spec fn mfmt_text(ms: i64, abs: Seq<char>) -> Seq<char> {
    "MFMT "@ + undashed(compact_text(civil(ms))) + " "@ + abs
}

pub fn mfmt_command(ms: i64, abs: &str) -> (r: String)
    ensures
        r@ == mfmt_text(ms, abs@),
{
    let stamp = chars_of(stamp_compact(ms).as_str());
    let mut plain: Vec<char> = Vec::new();
    let mut i: usize = 0;
    assert(stamp@.take(0) =~= Seq::<char>::empty());
    while i < stamp.len()
        invariant
            i <= stamp@.len(),
            plain@ == undashed(stamp@.take(i as int)),
        decreases stamp@.len() - i,
    {
        proof {
            assert(stamp@.take(i as int + 1).drop_last() =~= stamp@.take(i as int));
        }
        if stamp[i] != '-' {
            plain.push(stamp[i]);
        }
        i = i + 1;
    }
    assert(stamp@.take(stamp@.len() as int) =~= stamp@);
    let mut s = "MFMT ".to_owned();
    s.append(text_of(plain.as_slice()).as_str());
    s.append(" ");
    s.append(abs);
    s
}

/// One line of a listing, read.
#[derive(Debug)]
pub struct FtpLine {
    pub name: String,
    pub is_dir: bool,
    pub is_symlink: bool,
    pub size: u64,
    /// Milliseconds since the Unix epoch; `None` for a time before it.
    pub modified: Option<u128>,
    pub link: Option<String>,
}

pub struct FtpLineModel {
    pub name: Seq<char>,
    pub is_dir: bool,
    pub is_symlink: bool,
    pub size: u64,
    pub modified: Option<u128>,
    pub link: Option<Seq<char>>,
}

impl View for FtpLine {
    type V = FtpLineModel;

    open spec fn view(&self) -> FtpLineModel {
        FtpLineModel {
            name: self.name@,
            is_dir: self.is_dir,
            is_symlink: self.is_symlink,
            size: self.size,
            modified: self.modified,
            link: opt_text(self.link),
        }
    }
}

pub open spec fn opt_line(o: Option<FtpLine>) -> Option<FtpLineModel> {
    match o {
        Some(f) => Some(f@),
        None => None,
    }
}

pub open spec fn line_views(v: Seq<FtpLine>) -> Seq<FtpLineModel> {
    Seq::new(v.len(), |i: int| v[i]@)
}

pub open spec fn opt_line_views(v: Seq<Option<FtpLine>>) -> Seq<Option<FtpLineModel>> {
    Seq::new(v.len(), |i: int| opt_line(v[i]))
}

/// The white space and then these pieces, one after the other: what follows them, `None` where `s`
/// does not begin so.
pub open spec fn past(s: Seq<char>, pieces: Seq<Seq<char>>) -> Option<Seq<char>>
    decreases pieces.len(),
{
    if pieces.len() == 0 {
        Some(s)
    } else {
        let t = trim_start(s);
        if pieces[0].is_prefix_of(t) {
            past(t.skip(pieces[0].len() as int), pieces.skip(1))
        } else {
            None
        }
    }
}

/// Month, day, hour, minute and second of the leap second before the Unix epoch.
pub open spec fn leap_pieces() -> Seq<Seq<char>> {
    seq!["12"@, "31"@, "23"@, "59"@, "60"@]
}

pub open spec fn without_zeros(s: Seq<char>) -> Seq<char>
    decreases s.len(),
{
    if s.len() > 0 && s[0] == '0' {
        without_zeros(s.skip(1))
    } else {
        s
    }
}

/// The time of a fact is the leap second before the Unix epoch. After a plus sign the year may be
/// padded with zeros and ends with its last digit.
pub open spec fn leap_before_epoch(value: Seq<char>) -> bool {
    let t = trim_start(value);
    if t.len() > 0 && t[0] == '+' {
        let y = without_zeros(t.skip(1));
        &&& "1969"@.is_prefix_of(y)
        &&& y.len() > 4 && !ascii_digit(y[4])
        &&& past(y.skip(4), leap_pieces()) is Some
    } else {
        past(t, seq!["1969"@] + leap_pieces()) is Some
    }
}

/// The facts of a line: nothing where it begins with a space, else what stands before the first
/// `; `, the semicolon included, or the whole of it.
pub open spec fn facts_of(line: Seq<char>) -> Seq<char> {
    if line.len() > 0 && line[0] == ' ' {
        Seq::empty()
    } else {
        match text_index(line, "; "@) {
            Some(i) => line.take(i + 1),
            None => line,
        }
    }
}

pub open spec fn fact_is_leap(fact: Seq<char>) -> bool {
    let parts = split(fact, '=');
    parts.len() >= 2 && ascii_lowered(parts[0]) == "modify"@ && leap_before_epoch(parts[1])
}

/// Some fact of the line gives that leap second as the time of the file.
pub open spec fn leap_line(line: Seq<char>) -> bool {
    exists|i: int|
        0 <= i < split(facts_of(line), ';').len() && fact_is_leap(
            #[trigger] split(facts_of(line), ';')[i],
        )
}

/// A line without the one space that it may begin with.
pub open spec fn unspaced(line: Seq<char>) -> Seq<char> {
    if line.len() > 0 && line[0] == ' ' {
        line.skip(1)
    } else {
        line
    }
}

fn skip_white(s: &[char], from: usize) -> (r: usize)
    requires
        from <= s@.len(),
    ensures
        from <= r <= s@.len(),
        s@.skip(r as int) == trim_start(s@.skip(from as int)),
{
    let mut i = from;
    while i < s.len() && is_white(s[i])
        invariant
            from <= i <= s@.len(),
            trim_start(s@.skip(i as int)) == trim_start(s@.skip(from as int)),
        decreases s@.len() - i,
    {
        assert(s@.skip(i as int).skip(1) =~= s@.skip(i as int + 1));
        i = i + 1;
    }
    i
}

/// Where the pieces end, beginning at `from`.
fn walk_past(s: &[char], from: usize, pieces: &Vec<Vec<char>>) -> (r: bool)
    requires
        from <= s@.len(),
    ensures
        r == (past(s@.skip(from as int), char_lists(pieces@)) is Some),
{
    let ghost all = char_lists(pieces@);
    let ghost start = s@.skip(from as int);
    let mut at = from;
    let mut i: usize = 0;
    assert(all.skip(0) =~= all);
    while i < pieces.len()
        invariant
            i <= pieces@.len(),
            at <= s@.len(),
            from <= s@.len(),
            start == s@.skip(from as int),
            all == char_lists(pieces@),
            past(start, all) == past(s@.skip(at as int), all.skip(i as int)),
        decreases pieces@.len() - i,
    {
        let k = skip_white(s, at);
        let rest = slice(s, k, s.len());
        assert(rest@ =~= s@.skip(k as int));
        assert(all.skip(i as int)[0] == pieces@[i as int]@);
        if !starts_with(rest.as_slice(), pieces[i].as_slice()) {
            return false;
        }
        at = k + pieces[i].len();
        proof {
            assert(rest@.skip(pieces@[i as int]@.len() as int) =~= s@.skip(at as int));
            assert(all.skip(i as int).skip(1) =~= all.skip(i as int + 1));
        }
        i = i + 1;
    }
    true
}

fn is_leap_before_epoch(value: &[char]) -> (r: bool)
    ensures
        r == leap_before_epoch(value@),
{
    assert(value@.skip(0) =~= value@);
    let start = skip_white(value, 0);
    let ghost t = trim_start(value@);
    let year = chars_of("1969");
    let mut pieces: Vec<Vec<char>> = Vec::new();
    if start < value.len() && value[start] == '+' {
        let mut i: usize = start + 1;
        assert(t.skip(1) =~= value@.skip(i as int));
        while i < value.len() && value[i] == '0'
            invariant
                i <= value@.len(),
                without_zeros(t.skip(1)) == without_zeros(value@.skip(i as int)),
            decreases value@.len() - i,
        {
            assert(value@.skip(i as int).skip(1) =~= value@.skip(i as int + 1));
            i = i + 1;
        }
        let rest = slice(value, i, value.len());
        assert(rest@ =~= value@.skip(i as int));
        assert(rest@ == without_zeros(t.skip(1)));
        proof {
            reveal_strlit("1969");
        }
        if !starts_with(rest.as_slice(), year.as_slice()) || rest.len() <= 4 || ('0' <= rest[4] && rest[4] <= '9') {
            return false;
        }
        push_leap(&mut pieces);
        assert(char_lists(pieces@) =~= leap_pieces());
        walk_past(rest.as_slice(), 4, &pieces)
    } else {
        pieces.push(year);
        push_leap(&mut pieces);
        assert(char_lists(pieces@) =~= seq!["1969"@] + leap_pieces());
        assert(t =~= value@.skip(start as int));
        walk_past(value, start, &pieces)
    }
}

fn push_leap(pieces: &mut Vec<Vec<char>>)
    ensures
        char_lists(final(pieces)@) == char_lists(old(pieces)@) + leap_pieces(),
{
    pieces.push(chars_of("12"));
    pieces.push(chars_of("31"));
    pieces.push(chars_of("23"));
    pieces.push(chars_of("59"));
    pieces.push(chars_of("60"));
    assert(char_lists(pieces@) =~= char_lists(old(pieces)@) + leap_pieces());
}

fn is_leap_line(line: &[char]) -> (r: bool)
    ensures
        r == leap_line(line@),
{
    let n = line.len();
    let facts = if n > 0 && line[0] == ' ' {
        Vec::new()
    } else {
        match find_text(line, chars_of("; ").as_slice()) {
            Some(i) => {
                proof {
                    reveal_strlit("; ");
                }
                slice(line, 0, i + 1)
            },
            None => slice(line, 0, n),
        }
    };
    assert(facts@ =~= facts_of(line@));
    let tokens = split_chars(facts.as_slice(), ';');
    let ghost all = split(facts_of(line@), ';');
    let mut i: usize = 0;
    while i < tokens.len()
        invariant
            i <= tokens@.len(),
            char_lists(tokens@) == all,
            all == split(facts_of(line@), ';'),
            forall|j: int| 0 <= j < i ==> !fact_is_leap(#[trigger] all[j]),
        decreases tokens@.len() - i,
    {
        assert(char_lists(tokens@)[i as int] == tokens@[i as int]@);
        let parts = split_chars(tokens[i].as_slice(), '=');
        let ghost halves = char_lists(parts@);
        if parts.len() >= 2 {
            assert(halves[0] == parts@[0]@ && halves[1] == parts@[1]@);
            let key = to_ascii_lower(parts[0].as_slice());
            if same_chars(key.as_slice(), chars_of("modify").as_slice()) && is_leap_before_epoch(
                parts[1].as_slice(),
            ) {
                assert(fact_is_leap(all[i as int]));
                return true;
            }
        }
        i = i + 1;
    }
    false
}

/// What a line of an MLSD listing says; `widest` is the largest size that the machine can hold. A time
/// that the system's clock type cannot hold reads as the Unix epoch.
pub uninterp spec fn mlsd_line(line: Seq<char>, widest: int) -> Option<FtpLineModel>;

/// What a line of an MLST answer says. A time that the system's clock type cannot hold reads as the Unix
/// epoch.
pub uninterp spec fn mlst_line(line: Seq<char>, widest: int) -> Option<FtpLineModel>;

/// What a line of a DOS listing says.
pub uninterp spec fn dos_line(line: Seq<char>, widest: int) -> Option<FtpLineModel>;

/// What a line of a POSIX listing says when the clock shows `now`, in seconds: a date without a year is
/// completed from it.
pub uninterp spec fn posix_line_at(line: Seq<char>, widest: int, now: int) -> Option<FtpLineModel>;

/// `suppaftp::list::ListParser::parse_mlsd`, the fields of the file taken over: they depend on the
/// line and on the width of a size alone. The name is what follows the first `; `, or the leading
/// space where the line has no facts. The leap second before the Unix epoch overflows there.
#[verifier::external_body]
fn parse_mlsd(line: &str) -> (r: Option<FtpLine>)
    requires
        !leap_line(line@),
    ensures
        opt_line(r) == mlsd_line(line@, usize::MAX as int),
        r matches Some(f) ==> (line@.len() > 0 && line@[0] == ' ' ==> f.name@ == line@.skip(1)),
        r matches Some(f) ==> (line@.len() > 0 && line@[0] != ' ' && text_index(line@, "; "@) is Some
            ==> f.name@ == line@.skip(text_index(line@, "; "@)->0 + 2)),
{
    suppaftp::list::ListParser::parse_mlsd(line).ok().map(
        |f| FtpLine {
            name: f.name().to_string(),
            is_dir: f.is_directory(),
            is_symlink: f.is_symlink(),
            size: f.size() as u64,
            modified: f.modified().duration_since(std::time::UNIX_EPOCH).ok().map(|d| d.as_millis()),
            link: f.symlink().map(|p| p.to_string_lossy().into_owned()),
        },
    )
}

/// `suppaftp::list::ListParser::parse_mlst`, the fields of the file taken over: they depend on the
/// line and on the width of a size alone. One leading space is dropped first. The leap second before
/// the Unix epoch overflows there.
#[verifier::external_body]
fn parse_mlst(line: &str) -> (r: Option<FtpLine>)
    requires
        !leap_line(unspaced(line@)),
    ensures
        opt_line(r) == mlst_line(line@, usize::MAX as int),
        r matches Some(f) ==> (unspaced(line@).len() > 0 && unspaced(line@)[0] != ' ' && text_index(
            unspaced(line@),
            "; "@,
        ) is Some ==> f.name@ == unspaced(line@).skip(text_index(unspaced(line@), "; "@)->0 + 2)),
{
    suppaftp::list::ListParser::parse_mlst(line).ok().map(
        |f| FtpLine {
            name: f.name().to_string(),
            is_dir: f.is_directory(),
            is_symlink: f.is_symlink(),
            size: f.size() as u64,
            modified: f.modified().duration_since(std::time::UNIX_EPOCH).ok().map(|d| d.as_millis()),
            link: f.symlink().map(|p| p.to_string_lossy().into_owned()),
        },
    )
}

/// `suppaftp::list::ListParser::parse_dos`, the fields of the file taken over: they depend on the line
/// and on the width of a size alone. There are no links.
#[verifier::external_body]
fn parse_dos(line: &str) -> (r: Option<FtpLine>)
    ensures
        opt_line(r) == dos_line(line@, usize::MAX as int),
        r matches Some(f) ==> !f.is_symlink && f.link is None,
{
    suppaftp::list::ListParser::parse_dos(line).ok().map(
        |f| FtpLine {
            name: f.name().to_string(),
            is_dir: f.is_directory(),
            is_symlink: f.is_symlink(),
            size: f.size() as u64,
            modified: f.modified().duration_since(std::time::UNIX_EPOCH).ok().map(|d| d.as_millis()),
            link: f.symlink().map(|p| p.to_string_lossy().into_owned()),
        },
    )
}

/// `suppaftp::list::ListParser::parse_posix`, the fields of the file taken over: they depend on the
/// line, on the width of a size and on the reading of the clock that the function takes, which is not
/// handed out. A line that can be read begins with the letter of its type, and its name, its size and
/// the target of its link are the same whatever the clock shows.
#[verifier::external_body]
fn parse_posix(line: &str) -> (r: Option<FtpLine>)
    ensures
        exists|now: int| opt_line(r) == #[trigger] posix_line_at(line@, usize::MAX as int, now),
        r matches Some(f) ==> posix_reads(line@, f@),
{
    suppaftp::list::ListParser::parse_posix(line).ok().map(
        |f| FtpLine {
            name: f.name().to_string(),
            is_dir: f.is_directory(),
            is_symlink: f.is_symlink(),
            size: f.size() as u64,
            modified: f.modified().duration_since(std::time::UNIX_EPOCH).ok().map(|d| d.as_millis()),
            link: f.symlink().map(|p| p.to_string_lossy().into_owned()),
        },
    )
}

/// The line begins as those of a POSIX listing do.
pub open spec fn posix_like(line: Seq<char>) -> bool {
    line.len() > 0 && (line[0] == '-' || line[0] == 'd' || line[0] == 'l')
}

/// What a line says as one of a POSIX listing: its type is its first letter, and the clock plays no
/// part in its name, its size and the target of its link.
pub open spec fn posix_reads(line: Seq<char>, f: FtpLineModel) -> bool {
    &&& posix_like(line)
    &&& f.is_dir == (line[0] == 'd')
    &&& f.is_symlink == (line[0] == 'l')
    &&& forall|t: int|
        (#[trigger] posix_line_at(line, usize::MAX as int, t)) matches Some(g) ==> g.name == f.name
            && g.size == f.size && g.link == f.link
}

/// What a line says that is none of a POSIX listing: what it says as one of a DOS listing, else as one
/// of an MLST answer.
pub open spec fn other_reading(line: Seq<char>) -> Option<FtpLineModel> {
    match dos_line(line, usize::MAX as int) {
        Some(f) => Some(f),
        None => if leap_line(unspaced(line)) {
            None
        } else {
            mlst_line(line, usize::MAX as int)
        },
    }
}

/// What a line of a listing says that nobody described, when the clock shows `now`: the POSIX form is
/// tried first, then that of DOS, then that of MLST.
pub open spec fn list_line_at(line: Seq<char>, now: int) -> Option<FtpLineModel> {
    match posix_line_at(line, usize::MAX as int, now) {
        Some(f) => Some(f),
        None => other_reading(line),
    }
}

/// Takes what the POSIX form gave of a line; where it gave nothing, tries that of DOS, then that of
/// MLST. The leap second before the Unix epoch is refused.
pub fn first_reading(posix: Option<FtpLine>, line: &str) -> (r: Option<FtpLine>)
    ensures
        opt_line(r) == match posix {
            Some(f) => Some(f@),
            None => other_reading(line@),
        },
{
    match posix {
        Some(f) => Some(f),
        None => match parse_dos(line) {
            Some(f) => Some(f),
            None => {
                let all = chars_of(line);
                let from: usize = if all.len() > 0 && all[0] == ' ' {
                    1
                } else {
                    0
                };
                let rest = slice(all.as_slice(), from, all.len());
                assert(rest@ =~= unspaced(line@));
                if is_leap_line(rest.as_slice()) {
                    None
                } else {
                    parse_mlst(line)
                }
            },
        },
    }
}

/// What a line of a listing says that nobody described, at the time of the call.
fn parse_list(line: &str) -> (r: Option<FtpLine>)
    ensures
        reads_as(line@, false, opt_line(r)),
{
    let posix = parse_posix(line);
    let ghost now = choose|now: int|
        opt_line(posix) == #[trigger] posix_line_at(line@, usize::MAX as int, now);
    let r = first_reading(posix, line);
    assert(opt_line(r) == list_line_at(line@, now));
    r
}

/// The line reads so: at some reading of the clock where the form of the listing is to be found out.
pub open spec fn reads_as(line: Seq<char>, mlsd: bool, p: Option<FtpLineModel>) -> bool {
    if mlsd {
        p == if leap_line(line) {
            None
        } else {
            mlsd_line(line, usize::MAX as int)
        }
    } else {
        &&& exists|now: int| p == #[trigger] list_line_at(line, now)
        &&& p == other_reading(line) || (p matches Some(f) && posix_reads(line, f))
    }
}

/// The entries of a listing, or what is said of a line that cannot be read: left out, its entry would
/// look absent.
pub open spec fn gathered(
    rel: Seq<char>,
    lines: Seq<Seq<char>>,
    read: Seq<Option<FtpLineModel>>,
    n: int,
) -> Result<Seq<FtpLineModel>, Seq<char>>
    decreases n,
{
    if n <= 0 {
        Ok(Seq::empty())
    } else {
        match gathered(rel, lines, read, n - 1) {
            Err(e) => Err(e),
            Ok(v) => match read[n - 1] {
                None => Err(
                    "unparseable listing line from the server in '"@ + rel + "': "@ + lines[n - 1],
                ),
                Some(f) => if f.name == "."@ || f.name == ".."@ {
                    Ok(v)
                } else {
                    Ok(v.push(f))
                },
            },
        }
    }
}

proof fn lemma_gathered_error(
    rel: Seq<char>,
    lines: Seq<Seq<char>>,
    read: Seq<Option<FtpLineModel>>,
    k: int,
    n: int,
)
    requires
        k <= n,
        gathered(rel, lines, read, k) is Err,
    ensures
        gathered(rel, lines, read, n) == gathered(rel, lines, read, k),
    decreases n - k,
{
    if k < n {
        lemma_gathered_error(rel, lines, read, k, n - 1);
    }
}

fn copy_line(f: &FtpLine) -> (r: FtpLine)
    ensures
        r@ == f@,
{
    FtpLine {
        name: f.name.clone(),
        is_dir: f.is_dir,
        is_symlink: f.is_symlink,
        size: f.size,
        modified: f.modified,
        link: copy_opt(&f.link),
    }
}

/// Takes the lines of a listing together with what was read from them.
pub fn collect_listing(rel: &str, lines: &Vec<String>, read: &Vec<Option<FtpLine>>) -> (r: VfsResult<
    Vec<FtpLine>,
>)
    requires
        lines@.len() == read@.len(),
    ensures
        match gathered(rel@, texts(lines@), opt_line_views(read@), lines@.len() as int) {
            Ok(v) => r matches Ok(out) && line_views(out@) == v,
            Err(t) => r matches Err(e) && is_error(e, VfsErrorKind::Protocol, t),
        },
{
    let ghost ls = texts(lines@);
    let ghost rs = opt_line_views(read@);
    let mut out: Vec<FtpLine> = Vec::new();
    let mut i: usize = 0;
    assert(line_views(out@) =~= Seq::<FtpLineModel>::empty());
    while i < lines.len()
        invariant
            i <= lines@.len(),
            lines@.len() == read@.len(),
            ls == texts(lines@),
            rs == opt_line_views(read@),
            gathered(rel@, ls, rs, i as int) == Ok::<Seq<FtpLineModel>, Seq<char>>(line_views(out@)),
        decreases lines@.len() - i,
    {
        assert(rs[i as int] == opt_line(read@[i as int]));
        assert(ls[i as int] == lines@[i as int]@);
        match &read[i] {
            Some(f) => {
                if !same(f.name.as_str(), ".") && !same(f.name.as_str(), "..") {
                    let copy = copy_line(f);
                    assert(line_views(out@.push(copy)) =~= line_views(out@).push(copy@));
                    out.push(copy);
                }
            },
            None => {
                let mut s = "unparseable listing line from the server in '".to_owned();
                s.append(rel);
                s.append("': ");
                s.append(lines[i].as_str());
                proof {
                    lemma_gathered_error(rel@, ls, rs, i as int + 1, lines@.len() as int);
                }
                return Err(VfsError::new(VfsErrorKind::Protocol, s.as_str()));
            },
        }
        i = i + 1;
    }
    Ok(out)
}

/// Reads a listing. One line that cannot be read refuses the whole listing, and so does one whose time
/// is the leap second before the Unix epoch.
pub fn parse_listing(rel: &str, lines: &Vec<String>, mlsd: bool) -> (r: VfsResult<Vec<FtpLine>>)
    ensures
        exists|read: Seq<Option<FtpLineModel>>|
            {
                &&& read.len() == lines@.len()
                &&& forall|i: int|
                    0 <= i < lines@.len() ==> reads_as(lines@[i]@, mlsd, #[trigger] read[i])
                &&& match #[trigger] gathered(rel@, texts(lines@), read, lines@.len() as int) {
                    Ok(v) => r matches Ok(out) && line_views(out@) == v,
                    Err(t) => r matches Err(e) && is_error(e, VfsErrorKind::Protocol, t),
                }
            },
{
    let mut read: Vec<Option<FtpLine>> = Vec::new();
    let mut i: usize = 0;
    while i < lines.len()
        invariant
            i <= lines@.len(),
            read@.len() == i,
            forall|j: int| 0 <= j < i ==> reads_as(lines@[j]@, mlsd, opt_line(#[trigger] read@[j])),
        decreases lines@.len() - i,
    {
        let p = if mlsd {
            if is_leap_line(chars_of(lines[i].as_str()).as_slice()) {
                None
            } else {
                parse_mlsd(lines[i].as_str())
            }
        } else {
            parse_list(lines[i].as_str())
        };
        read.push(p);
        i = i + 1;
    }
    let out = collect_listing(rel, lines, &read);
    proof {
        let rs = opt_line_views(read@);
        assert forall|j: int| 0 <= j < lines@.len() implies reads_as(lines@[j]@, mlsd, #[trigger] rs[j]) by {
            assert(rs[j] == opt_line(read@[j]));
        }
    }
    out
}

/// What a line of a listing tells of its entry.
pub open spec fn line_meta(f: FtpLineModel) -> MetaModel {
    MetaModel {
        kind: if f.is_dir {
            EntryKind::Dir
        } else if f.is_symlink {
            EntryKind::Symlink
        } else {
            EntryKind::File
        },
        size: f.size,
        mtime_ms: match f.modified {
            Some(ms) => ms as i64,
            None => 0,
        },
        mode: None,
        file_id: None,
        link: f.link,
    }
}

pub fn meta_of(f: &FtpLine) -> (r: VMeta)
    ensures
        r@ == line_meta(f@),
{
    VMeta {
        kind: if f.is_dir {
            EntryKind::Dir
        } else if f.is_symlink {
            EntryKind::Symlink
        } else {
            EntryKind::File
        },
        size: f.size,
        mtime_ms: file_time_ms(f.modified),
        mode: None,
        file_id: None,
        link: copy_opt(&f.link),
    }
}

/// A listing as directory entries.
pub fn dir_entries(list: &Vec<FtpLine>) -> (r: Vec<VDirEntry>)
    ensures
        listed(r@) == Seq::new(list@.len(), |i: int| (list@[i].name@, line_meta(list@[i]@))),
{
    let mut out: Vec<VDirEntry> = Vec::new();
    let mut i: usize = 0;
    while i < list.len()
        invariant
            i <= list@.len(),
            out@.len() == i,
            forall|j: int|
                0 <= j < i ==> (#[trigger] out@[j])@ == (list@[j].name@, line_meta(list@[j]@)),
        decreases list@.len() - i,
    {
        let e = VDirEntry { name: list[i].name.clone(), meta: meta_of(&list[i]) };
        out.push(e);
        i = i + 1;
    }
    assert(listed(out@) =~= Seq::new(list@.len(), |i: int| (list@[i].name@, line_meta(list@[i]@))));
    out
}

/// The first entry of that name.
pub open spec fn named(list: Seq<FtpLineModel>, name: Seq<char>) -> Option<FtpLineModel>
    decreases list.len(),
{
    if list.len() == 0 {
        None
    } else if list[0].name == name {
        Some(list[0])
    } else {
        named(list.skip(1), name)
    }
}

fn find_line(list: &Vec<FtpLine>, name: &str) -> (r: Option<VMeta>)
    ensures
        match named(line_views(list@), name@) {
            Some(f) => r matches Some(m) && m@ == line_meta(f),
            None => r is None,
        },
{
    let ghost all = line_views(list@);
    let mut i: usize = 0;
    assert(all.skip(0) =~= all);
    while i < list.len()
        invariant
            i <= list@.len(),
            all == line_views(list@),
            named(all, name@) == named(all.skip(i as int), name@),
        decreases list@.len() - i,
    {
        proof {
            assert(all.skip(i as int)[0] == list@[i as int]@);
            assert(all.skip(i as int).skip(1) =~= all.skip(i as int + 1));
        }
        if same(list[i].name.as_str(), name) {
            return Some(meta_of(&list[i]));
        }
        i = i + 1;
    }
    None
}

/// What the listing of the parent says of a path. Where the parent is gone the path is gone too.
pub fn weigh_stat(list: VfsResult<Vec<FtpLine>>, name: &str) -> (r: VfsResult<Option<VMeta>>)
    ensures
        match list {
            Ok(v) => match named(line_views(v@), name@) {
                Some(f) => r matches Ok(Some(m)) && m@ == line_meta(f),
                None => r matches Ok(m) && m is None,
            },
            Err(e) => if e.kind == VfsErrorKind::NotFound {
                r matches Ok(m) && m is None
            } else {
                r matches Err(x) && x == e
            },
        },
{
    match list {
        Ok(v) => Ok(find_line(&v, name)),
        Err(e) => if e.kind == VfsErrorKind::NotFound {
            Ok(None)
        } else {
            Err(e)
        },
    }
}

/// The root itself, once it could be entered.
pub fn root_entry() -> (r: VMeta)
    ensures
        r@ == (MetaModel {
            kind: EntryKind::Dir,
            size: 0,
            mtime_ms: 0,
            mode: None,
            file_id: None,
            link: None,
        }),
{
    VMeta { kind: EntryKind::Dir, size: 0, mtime_ms: 0, mode: None, file_id: None, link: None }
}

/// The target of a symlink, from what is known of the path.
pub fn weigh_link(rel: &str, found: Option<VMeta>) -> (r: VfsResult<String>)
    ensures
        match found {
            Some(m) => match m.link {
                Some(t) => r matches Ok(x) && x@ == t@,
                None => r matches Err(e) && is_error(
                    e,
                    VfsErrorKind::Io,
                    "not a symlink (or the listing carries no target): "@ + rel@,
                ),
            },
            None => r matches Err(e) && is_error(
                e,
                VfsErrorKind::NotFound,
                "no such path: "@ + rel@,
            ),
        },
{
    match found {
        Some(m) => match m.link {
            Some(t) => Ok(t),
            None => {
                let mut s = "not a symlink (or the listing carries no target): ".to_owned();
                s.append(rel);
                Err(VfsError::new(VfsErrorKind::Io, s.as_str()))
            },
        },
        None => {
            let mut s = "no such path: ".to_owned();
            s.append(rel);
            Err(VfsError::new(VfsErrorKind::NotFound, s.as_str()))
        },
    }
}

/// What connecting is waiting for.
#[derive(Clone, Copy, Debug, PartialEq, Eq, Structural)]
pub enum FtpDeed {
    /// Look the stored password up.
    Credentials,
    /// Resolve the host.
    Resolve,
    /// Open the control connection, secured or not.
    Open { tls: bool },
    /// Ask what the server can do.
    Features,
    /// Ask again, for UTF-8.
    AskUtf8,
    /// Switch UTF-8 on, if the server will.
    Utf8,
    Login,
    /// Switch to binary transfers.
    Binary,
    /// Let the server open the data connections.
    Active,
}

/// What came of it.
pub enum FtpReply {
    Done,
    /// The stored password, if there is one.
    Password(Option<String>),
    /// Whether the host has an address.
    Address(bool),
    /// What the server announced; `None` where it did not answer.
    Announced(Option<Vec<String>>),
    Failed(VfsError),
    /// The failure in words.
    Broke(String),
}

/// A connection that is being made.
pub struct FtpLogin {
    pub user: String,
    pub password: String,
    pub feats: Feats,
}

pub enum FtpNext {
    Do(FtpDeed),
    Connected,
    Refused(VfsError),
}

/// The reply is one that the deed can have.
pub open spec fn ftp_answers(deed: FtpDeed, reply: FtpReply) -> bool {
    match deed {
        FtpDeed::Credentials => reply is Password || reply is Failed,
        FtpDeed::Resolve => reply is Address || reply is Broke,
        FtpDeed::Features | FtpDeed::AskUtf8 => reply is Announced,
        FtpDeed::Utf8 | FtpDeed::Active => reply is Done,
        FtpDeed::Login => reply is Done || reply is Broke,
        FtpDeed::Open { .. } | FtpDeed::Binary => reply is Done || reply is Failed,
    }
}

/// How connecting goes on.
pub enum FtpNextModel {
    Do(FtpDeed),
    Connected,
    Refused(VfsErrorKind, Seq<char>, Option<IoFailure>),
}

impl View for FtpNext {
    type V = FtpNextModel;

    open spec fn view(&self) -> FtpNextModel {
        match *self {
            FtpNext::Do(d) => FtpNextModel::Do(d),
            FtpNext::Connected => FtpNextModel::Connected,
            FtpNext::Refused(e) => FtpNextModel::Refused(e.kind, e.detail@, e.source),
        }
    }
}

/// The password to log in with: the stored one, and for an explicit anonymous login a made-up one.
pub open spec fn login_password(user: Seq<char>, stored: Option<Seq<char>>) -> Option<Seq<char>> {
    match stored {
        Some(p) => Some(p),
        None => if user == "anonymous"@ {
            Some("anonymous@syncdash"@)
        } else {
            None
        },
    }
}

impl FtpBackend {
    pub open spec fn no_user_text(self) -> Seq<char> {
        "'"@ + self.spec@.shown()
            + "' names no user — anonymous must be explicit (ftp://anonymous@host/…), never a fallback"@
    }

    pub open spec fn no_password_text(self, user: Seq<char>) -> Seq<char> {
        "no stored password for "@ + user + "@"@ + self.spec.host@
            + " — store it with: syncdash cred set \""@ + self.spec@.shown() + "\""@
    }

    /// The port to connect to.
    pub fn port(&self) -> (r: u16)
        ensures
            r == (match self.spec.port {
                Some(p) => p,
                None => 21,
            }),
    {
        match self.spec.port {
            Some(p) => p,
            None => 21,
        }
    }

    /// Begins to connect: there is nothing to do where it is done, and nobody is logged in whom the
    /// phrase does not name.
    pub fn start_connect(&self) -> (r: FtpNext)
        ensures
            r@ == if self.connected {
                FtpNextModel::Connected
            } else if self.spec.user is None {
                FtpNextModel::Refused(VfsErrorKind::Auth, self.no_user_text(), None)
            } else {
                FtpNextModel::Do(FtpDeed::Credentials)
            },
    {
        if self.connected {
            return FtpNext::Connected;
        }
        if self.spec.user.is_none() {
            let mut s = "'".to_owned();
            s.append(self.spec.display().as_str());
            s.append(
                "' names no user — anonymous must be explicit (ftp://anonymous@host/…), never a fallback",
            );
            return FtpNext::Refused(VfsError::new(VfsErrorKind::Auth, s.as_str()));
        }
        FtpNext::Do(FtpDeed::Credentials)
    }

    /// How connecting goes on after a reply.
    pub open spec fn connect_after(self, deed: FtpDeed, reply: FtpReply) -> FtpNextModel {
        let user = match self.spec.user {
            Some(u) => u@,
            None => Seq::empty(),
        };
        match reply {
            FtpReply::Failed(e) => FtpNextModel::Refused(e.kind, e.detail@, e.source),
            FtpReply::Password(p) => if login_password(user, opt_text(p)) is None {
                FtpNextModel::Refused(VfsErrorKind::Auth, self.no_password_text(user), None)
            } else {
                FtpNextModel::Do(FtpDeed::Resolve)
            },
            FtpReply::Address(found) => if found {
                FtpNextModel::Do(FtpDeed::Open { tls: self.spec.scheme@ == "ftps"@ })
            } else {
                FtpNextModel::Refused(
                    VfsErrorKind::Transient,
                    "no address for "@ + self.spec.host@,
                    None,
                )
            },
            FtpReply::Broke(e) => if deed == FtpDeed::Login {
                FtpNextModel::Refused(
                    VfsErrorKind::Auth,
                    "login as "@ + user + "@"@ + self.spec.host@ + " refused: "@ + e@,
                    None,
                )
            } else {
                FtpNextModel::Refused(
                    VfsErrorKind::Transient,
                    "cannot resolve "@ + self.spec.host@ + ": "@ + e@,
                    None,
                )
            },
            FtpReply::Announced(names) => if deed == FtpDeed::Features {
                FtpNextModel::Do(FtpDeed::AskUtf8)
            } else if names matches Some(v) && texts(v@).contains("UTF8"@) {
                FtpNextModel::Do(FtpDeed::Utf8)
            } else {
                FtpNextModel::Do(FtpDeed::Login)
            },
            FtpReply::Done => match deed {
                FtpDeed::Open { tls } => FtpNextModel::Do(FtpDeed::Features),
                FtpDeed::Utf8 => FtpNextModel::Do(FtpDeed::Login),
                FtpDeed::Login => FtpNextModel::Do(FtpDeed::Binary),
                FtpDeed::Binary => if self.spec@.option("active"@) is Some {
                    FtpNextModel::Do(FtpDeed::Active)
                } else {
                    FtpNextModel::Connected
                },
                _ => FtpNextModel::Connected,
            },
        }
    }

    /// Takes the reply to a deed. What it taught is noted: the password, what the server can do, and
    /// in the end that the root is connected. What was once known of a server stays.
    pub fn connect(&mut self, login: &mut FtpLogin, deed: FtpDeed, reply: FtpReply) -> (r: FtpNext)
        requires
            old(self).spec.user is Some,
            ftp_answers(deed, reply),
        ensures
            final(self).spec == old(self).spec,
            final(self).timeout_secs == old(self).timeout_secs,
            r@ == old(self).connect_after(deed, reply),
            match reply {
                FtpReply::Password(p) => login_password(old(self).spec.user->0@, opt_text(p)) matches Some(
                    x,
                ) ==> final(login).user@ == old(self).spec.user->0@ && final(login).password@ == x,
                _ => final(login).user == old(login).user && final(login).password == old(
                    login,
                ).password,
            },
            final(login).feats == (match reply {
                FtpReply::Announced(names) => if deed == FtpDeed::Features {
                    match names {
                        Some(v) => feats_of(texts(v@)),
                        None => no_feats(),
                    }
                } else {
                    old(login).feats
                },
                _ => old(login).feats,
            }),
            r is Connected ==> final(self).connected && final(self).feats == Some(
                match old(self).feats {
                    Some(f) => f,
                    None => final(login).feats,
                },
            ),
            !(r is Connected) ==> final(self).connected == old(self).connected && final(self).feats
                == old(self).feats,
    {
        let next = self.weigh_connect(login, deed, reply);
        if let FtpNext::Connected = next {
            self.connected = true;
            if self.feats.is_none() {
                self.feats = Some(login.feats);
            }
        }
        next
    }

    fn weigh_connect(&self, login: &mut FtpLogin, deed: FtpDeed, reply: FtpReply) -> (r: FtpNext)
        requires
            self.spec.user is Some,
            ftp_answers(deed, reply),
        ensures
            r@ == self.connect_after(deed, reply),
            match reply {
                FtpReply::Password(p) => login_password(self.spec.user->0@, opt_text(p)) matches Some(x)
                    ==> final(login).user@ == self.spec.user->0@ && final(login).password@ == x,
                _ => final(login).user == old(login).user && final(login).password == old(
                    login,
                ).password,
            },
            final(login).feats == (match reply {
                FtpReply::Announced(names) => if deed == FtpDeed::Features {
                    match names {
                        Some(v) => feats_of(texts(v@)),
                        None => no_feats(),
                    }
                } else {
                    old(login).feats
                },
                _ => old(login).feats,
            }),
    {
        let user = match &self.spec.user {
            Some(u) => u.clone(),
            None => String::new(),
        };
        match reply {
            FtpReply::Failed(e) => FtpNext::Refused(e),
            FtpReply::Password(p) => {
                let password = match p {
                    Some(x) => x,
                    None => if same(user.as_str(), "anonymous") {
                        "anonymous@syncdash".to_owned()
                    } else {
                        let mut s = "no stored password for ".to_owned();
                        s.append(user.as_str());
                        s.append("@");
                        s.append(self.spec.host.as_str());
                        s.append(" — store it with: syncdash cred set \"");
                        s.append(self.spec.display().as_str());
                        s.append("\"");
                        return FtpNext::Refused(VfsError::new(VfsErrorKind::Auth, s.as_str()));
                    },
                };
                login.user = user;
                login.password = password;
                FtpNext::Do(FtpDeed::Resolve)
            },
            FtpReply::Address(found) => {
                if found {
                    return FtpNext::Do(FtpDeed::Open { tls: same(self.spec.scheme.as_str(), "ftps") });
                }
                let mut s = "no address for ".to_owned();
                s.append(self.spec.host.as_str());
                FtpNext::Refused(VfsError::new(VfsErrorKind::Transient, s.as_str()))
            },
            FtpReply::Broke(e) => {
                if deed == FtpDeed::Login {
                    let mut s = "login as ".to_owned();
                    s.append(user.as_str());
                    s.append("@");
                    s.append(self.spec.host.as_str());
                    s.append(" refused: ");
                    s.append(e.as_str());
                    FtpNext::Refused(VfsError::new(VfsErrorKind::Auth, s.as_str()))
                } else {
                    let mut s = "cannot resolve ".to_owned();
                    s.append(self.spec.host.as_str());
                    s.append(": ");
                    s.append(e.as_str());
                    FtpNext::Refused(VfsError::new(VfsErrorKind::Transient, s.as_str()))
                }
            },
            FtpReply::Announced(names) => {
                if deed == FtpDeed::Features {
                    login.feats = match &names {
                        Some(v) => read_feats(v),
                        None => Feats { mlsd: false, mfmt: false, rest: false },
                    };
                    return FtpNext::Do(FtpDeed::AskUtf8);
                }
                let utf8 = match &names {
                    Some(v) => names_feature(v, "UTF8"),
                    None => false,
                };
                if utf8 {
                    FtpNext::Do(FtpDeed::Utf8)
                } else {
                    FtpNext::Do(FtpDeed::Login)
                }
            },
            FtpReply::Done => match deed {
                FtpDeed::Open { tls: _ } => FtpNext::Do(FtpDeed::Features),
                FtpDeed::Utf8 => FtpNext::Do(FtpDeed::Login),
                FtpDeed::Login => FtpNext::Do(FtpDeed::Binary),
                FtpDeed::Binary => if self.spec.has_flag("active") {
                    FtpNext::Do(FtpDeed::Active)
                } else {
                    FtpNext::Connected
                },
                _ => FtpNext::Connected,
            },
        }
    }
}

/// A root of the secured scheme never opens an unsecured connection.
pub proof fn ftps_is_always_secured(b: FtpBackend, deed: FtpDeed, reply: FtpReply, tls: bool)
    requires
        b.spec.scheme@ == "ftps"@,
        ftp_answers(deed, reply),
        b.connect_after(deed, reply) == FtpNextModel::Do(FtpDeed::Open { tls }),
    ensures
        tls,
{
}

/// Without a stored password only a login that is anonymous by name goes on.
pub proof fn nobody_becomes_anonymous(b: FtpBackend, user: String)
    requires
        b.spec.user == Some(user),
        user@ != "anonymous"@,
    ensures
        b.connect_after(FtpDeed::Credentials, FtpReply::Password(None)) == FtpNextModel::Refused(
            VfsErrorKind::Auth,
            b.no_password_text(user@),
            None,
        ),
{
}

/// What a commit is waiting for.
pub enum CommitDeed {
    /// Close the upload.
    Seal,
    /// Remove what stands at the destination: no server can be relied on to replace it.
    Clear,
    /// Rename the temp file.
    Rename,
    /// Ask for the size of the destination.
    Size,
    /// Set the time, by this command.
    Mtime(String),
}

pub enum CommitReply {
    Done,
    /// There is no connection any more.
    Lost,
    Fault(FtpFault),
    Len(u64),
    Failed(VfsError),
}

pub enum CommitNext {
    Do(CommitDeed),
    Over(VfsResult<CommitReport>),
}

/// An upload that is being put in place.
pub struct FtpCommit {
    pub dst_abs: String,
    pub wrote: u64,
    pub hint: WriteHint,
    pub feats: Feats,
}

pub enum CommitDeedModel {
    Seal,
    Clear,
    Rename,
    Size,
    Mtime(Seq<char>),
}

impl View for CommitDeed {
    type V = CommitDeedModel;

    open spec fn view(&self) -> CommitDeedModel {
        match *self {
            CommitDeed::Seal => CommitDeedModel::Seal,
            CommitDeed::Clear => CommitDeedModel::Clear,
            CommitDeed::Rename => CommitDeedModel::Rename,
            CommitDeed::Size => CommitDeedModel::Size,
            CommitDeed::Mtime(c) => CommitDeedModel::Mtime(c@),
        }
    }
}

pub enum CommitNextModel {
    Do(CommitDeedModel),
    /// The time seen on the file, and the trouble with setting it.
    Landed(Option<i64>, Option<(VfsErrorKind, Seq<char>, Option<IoFailure>)>),
    Broken(VfsErrorKind, Seq<char>, Option<IoFailure>),
}

impl View for CommitNext {
    type V = CommitNextModel;

    open spec fn view(&self) -> CommitNextModel {
        match *self {
            CommitNext::Do(d) => CommitNextModel::Do(d@),
            CommitNext::Over(Ok(r)) => CommitNextModel::Landed(
                r.mtime_ondisk_ms,
                error_parts(r.mtime_error),
            ),
            CommitNext::Over(Err(e)) => CommitNextModel::Broken(e.kind, e.detail@, e.source),
        }
    }
}

/// The reply is one that the deed can have.
pub open spec fn commit_answers(deed: CommitDeedModel, reply: CommitReply) -> bool {
    match deed {
        CommitDeedModel::Seal => reply is Done || reply is Failed,
        CommitDeedModel::Clear => reply is Done || reply is Lost || reply is Fault,
        CommitDeedModel::Rename => reply is Done || reply is Fault,
        CommitDeedModel::Size => reply is Len || reply is Fault,
        CommitDeedModel::Mtime(_) => reply is Done || reply is Lost || reply is Fault,
    }
}

/// Whole seconds, towards zero.
pub open spec fn to_the_second(ms: i64) -> i64 {
    if ms >= 0 {
        (ms / 1000 * 1000) as i64
    } else {
        (-((-ms) / 1000 * 1000)) as i64
    }
}

fn whole_seconds(ms: i64) -> (r: i64)
    ensures
        r == to_the_second(ms),
{
    if ms >= 0 {
        ms / 1000 * 1000
    } else {
        let wide: i128 = -(ms as i128) / 1000 * 1000;
        (-wide) as i64
    }
}

impl FtpCommit {
    pub open spec fn size_text(self, landed: u64) -> Seq<char> {
        "after rename the server holds "@ + numeral(landed as nat) + " bytes but the upload carried "@
            + numeral(self.wrote as nat)
    }

    /// What comes once the file is in place and whole.
    pub open spec fn landed(self) -> CommitNextModel {
        match self.hint.mtime_ms {
            Some(ms) => if self.feats.mfmt {
                CommitNextModel::Do(CommitDeedModel::Mtime(mfmt_text(ms, self.dst_abs@)))
            } else {
                CommitNextModel::Landed(
                    None,
                    Some(
                        (
                            VfsErrorKind::Unsupported,
                            "no MFMT — the file keeps the server's own timestamp (the correction table absorbs this for compare)"@,
                            None,
                        ),
                    ),
                )
            },
            None => CommitNextModel::Landed(None, None),
        }
    }

    pub open spec fn after(self, deed: CommitDeedModel, reply: CommitReply) -> CommitNextModel {
        match deed {
            CommitDeedModel::Seal => match reply {
                CommitReply::Failed(e) => CommitNextModel::Broken(e.kind, e.detail@, e.source),
                _ => CommitNextModel::Do(CommitDeedModel::Clear),
            },
            CommitDeedModel::Clear => match reply {
                CommitReply::Lost => CommitNextModel::Broken(
                    VfsErrorKind::Transient,
                    "connection lost before commit"@,
                    None,
                ),
                CommitReply::Fault(e) => {
                    let v = fault_error("clear destination"@, e);
                    if v.0 == VfsErrorKind::NotFound {
                        CommitNextModel::Do(CommitDeedModel::Rename)
                    } else {
                        CommitNextModel::Broken(v.0, v.1, None)
                    }
                },
                _ => CommitNextModel::Do(CommitDeedModel::Rename),
            },
            CommitDeedModel::Rename => match reply {
                CommitReply::Fault(e) => {
                    let v = fault_error("rename into place"@, e);
                    CommitNextModel::Broken(v.0, v.1, None)
                },
                _ => CommitNextModel::Do(CommitDeedModel::Size),
            },
            CommitDeedModel::Size => match reply {
                CommitReply::Fault(e) => {
                    let v = fault_error("SIZE after rename"@, e);
                    CommitNextModel::Broken(v.0, v.1, None)
                },
                CommitReply::Len(n) => if n != self.wrote {
                    CommitNextModel::Broken(VfsErrorKind::Protocol, self.size_text(n), None)
                } else {
                    self.landed()
                },
                _ => CommitNextModel::Landed(None, None),
            },
            CommitDeedModel::Mtime(_) => match reply {
                CommitReply::Fault(e) => {
                    let v = fault_error("MFMT"@, e);
                    CommitNextModel::Landed(None, Some((v.0, v.1, None)))
                },
                CommitReply::Done => CommitNextModel::Landed(
                    match self.hint.mtime_ms {
                        Some(ms) => Some(to_the_second(ms)),
                        None => None,
                    },
                    None,
                ),
                _ => CommitNextModel::Landed(None, None),
            },
        }
    }

    /// Begins: an upload that is still open is closed first.
    pub fn begin(open: bool) -> (r: CommitDeed)
        ensures
            r@ == if open {
                CommitDeedModel::Seal
            } else {
                CommitDeedModel::Clear
            },
    {
        if open {
            CommitDeed::Seal
        } else {
            CommitDeed::Clear
        }
    }

    /// Takes the reply to a deed.
    pub fn commit(&self, deed: &CommitDeed, reply: CommitReply) -> (r: CommitNext)
        requires
            commit_answers(deed@, reply),
        ensures
            r@ == self.after(deed@, reply),
            r matches CommitNext::Over(Ok(report)) ==> report.mode_error is None,
    {
        match deed {
            CommitDeed::Seal => match reply {
                CommitReply::Failed(e) => CommitNext::Over(Err(e)),
                _ => CommitNext::Do(CommitDeed::Clear),
            },
            CommitDeed::Clear => match reply {
                CommitReply::Lost => CommitNext::Over(
                    Err(VfsError::new(VfsErrorKind::Transient, "connection lost before commit")),
                ),
                CommitReply::Fault(e) => {
                    let v = map_ftp_err("clear destination", &e);
                    if v.kind == VfsErrorKind::NotFound {
                        CommitNext::Do(CommitDeed::Rename)
                    } else {
                        CommitNext::Over(Err(v))
                    }
                },
                _ => CommitNext::Do(CommitDeed::Rename),
            },
            CommitDeed::Rename => match reply {
                CommitReply::Fault(e) => CommitNext::Over(Err(map_ftp_err("rename into place", &e))),
                _ => CommitNext::Do(CommitDeed::Size),
            },
            CommitDeed::Size => match reply {
                CommitReply::Fault(e) => CommitNext::Over(Err(map_ftp_err("SIZE after rename", &e))),
                CommitReply::Len(n) => {
                    if n != self.wrote {
                        let mut s = "after rename the server holds ".to_owned();
                        s.append(decimal(n).as_str());
                        s.append(" bytes but the upload carried ");
                        s.append(decimal(self.wrote).as_str());
                        return CommitNext::Over(
                            Err(VfsError::new(VfsErrorKind::Protocol, s.as_str())),
                        );
                    }
                    match self.hint.mtime_ms {
                        Some(ms) => if self.feats.mfmt {
                            CommitNext::Do(
                                CommitDeed::Mtime(mfmt_command(ms, self.dst_abs.as_str())),
                            )
                        } else {
                            over(
                                None,
                                Some(
                                    VfsError::unsupported(
                                        "no MFMT — the file keeps the server's own timestamp (the correction table absorbs this for compare)",
                                    ),
                                ),
                            )
                        },
                        None => over(None, None),
                    }
                },
                _ => over(None, None),
            },
            CommitDeed::Mtime(_) => match reply {
                CommitReply::Fault(e) => over(None, Some(map_ftp_err("MFMT", &e))),
                CommitReply::Done => match self.hint.mtime_ms {
                    Some(ms) => over(Some(whole_seconds(ms)), None),
                    None => over(None, None),
                },
                _ => over(None, None),
            },
        }
    }
}

fn over(mtime_ondisk_ms: Option<i64>, mtime_error: Option<VfsError>) -> (r: CommitNext)
    ensures
        r@ == CommitNextModel::Landed(mtime_ondisk_ms, error_parts(mtime_error)),
        r matches CommitNext::Over(Ok(report)) ==> report.mode_error is None,
{
    CommitNext::Over(Ok(CommitReport { mtime_ondisk_ms, mtime_error, mode_error: None }))
}

/// An upload counts as landed only once the server holds as many bytes as were sent: a time is never
/// set, and success never told, before that.
pub proof fn a_short_upload_never_lands(c: FtpCommit, n: u64)
    requires
        n != c.wrote,
    ensures
        c.after(CommitDeedModel::Size, CommitReply::Len(n)) == CommitNextModel::Broken(
            VfsErrorKind::Protocol,
            c.size_text(n),
            None,
        ),
{
}

/// A time that could not be set is told and does not fail the copy.
pub proof fn a_refused_time_is_only_told(c: FtpCommit, command: Seq<char>, reply: CommitReply)
    requires
        commit_answers(CommitDeedModel::Mtime(command), reply),
    ensures
        c.after(CommitDeedModel::Mtime(command), reply) is Landed,
{
}

/// Where a commit stands after some replies.
pub open spec fn commit_run(c: FtpCommit, open: bool, rs: Seq<CommitReply>) -> CommitNextModel
    decreases rs.len(),
{
    if rs.len() == 0 {
        CommitNextModel::Do(
            if open {
                CommitDeedModel::Seal
            } else {
                CommitDeedModel::Clear
            },
        )
    } else {
        match commit_run(c, open, rs.drop_last()) {
            CommitNextModel::Do(d) => c.after(d, rs.last()),
            end => end,
        }
    }
}

/// After `i` replies that deed was asked for.
pub open spec fn commit_asked(c: FtpCommit, open: bool, rs: Seq<CommitReply>, i: int) -> Option<
    CommitDeedModel,
> {
    match commit_run(c, open, rs.take(i)) {
        CommitNextModel::Do(d) => Some(d),
        _ => None,
    }
}

/// The replies are ones that the deeds can have.
pub open spec fn commit_proper(c: FtpCommit, open: bool, rs: Seq<CommitReply>) -> bool {
    forall|i: int|
        #![trigger rs[i]]
        0 <= i < rs.len() ==> (commit_asked(c, open, rs, i) matches Some(d) ==> commit_answers(d, rs[i]))
}

/// The temp file was renamed, and right after that the server was asked and holds what was sent; what
/// stood in the way was cleared, or nothing did.
pub open spec fn landed_whole(c: FtpCommit, open: bool, rs: Seq<CommitReply>, i: int) -> bool {
    &&& 2 <= i < rs.len()
    &&& commit_asked(c, open, rs, i - 2) == Some(CommitDeedModel::Clear)
    &&& rs[i - 2] is Done || (rs[i - 2] matches CommitReply::Fault(FtpFault::Answer(code, _)) && code == 550)
    &&& commit_asked(c, open, rs, i - 1) == Some(CommitDeedModel::Rename)
    &&& rs[i - 1] is Done
    &&& commit_asked(c, open, rs, i) == Some(CommitDeedModel::Size)
    &&& rs[i] == CommitReply::Len(c.wrote)
    &&& open ==> i >= 3 && commit_asked(c, open, rs, i - 3) == Some(CommitDeedModel::Seal) && rs[i - 3] is Done
}

proof fn lemma_commit_prev(c: FtpCommit, open: bool, rs: Seq<CommitReply>, n: int) -> (d: CommitDeedModel)
    requires
        commit_proper(c, open, rs),
        0 < n <= rs.len(),
        commit_run(c, open, rs.take(n - 1)) is Do,
    ensures
        commit_asked(c, open, rs, n - 1) == Some(d),
        commit_answers(d, rs[n - 1]),
        commit_run(c, open, rs.take(n)) == c.after(d, rs[n - 1]),
{
    assert(rs.take(n).drop_last() =~= rs.take(n - 1));
    assert(rs.take(n).last() == rs[n - 1]);
    let d = commit_run(c, open, rs.take(n - 1))->Do_0;
    assert(commit_asked(c, open, rs, n - 1) == Some(d));
    assert(commit_answers(d, rs[n - 1]));
    d
}

proof fn lemma_commit_on(c: FtpCommit, open: bool, rs: Seq<CommitReply>, n: int)
    requires
        0 < n <= rs.len(),
        commit_run(c, open, rs.take(n)) is Do,
    ensures
        commit_run(c, open, rs.take(n - 1)) is Do,
{
    assert(rs.take(n).drop_last() =~= rs.take(n - 1));
}

proof fn lemma_commit_size(c: FtpCommit, open: bool, rs: Seq<CommitReply>, n: int)
    requires
        commit_proper(c, open, rs),
        0 <= n < rs.len(),
        commit_asked(c, open, rs, n) == Some(CommitDeedModel::Size),
        rs[n] == CommitReply::Len(c.wrote),
    ensures
        landed_whole(c, open, rs, n),
{
    lemma_commit_on(c, open, rs, n);
    let a = lemma_commit_prev(c, open, rs, n);
    lemma_commit_on(c, open, rs, n - 1);
    let b = lemma_commit_prev(c, open, rs, n - 1);
    if n - 2 > 0 {
        lemma_commit_on(c, open, rs, n - 2);
        let d = lemma_commit_prev(c, open, rs, n - 2);
        if n - 3 > 0 {
            lemma_commit_on(c, open, rs, n - 3);
            let e = lemma_commit_prev(c, open, rs, n - 3);
        }
    }
}

/// An upload counts as landed only after it was closed, the way was cleared, the temp file was renamed and
/// the server was seen to hold all that was sent, in this order.
pub proof fn what_landed_was_renamed_and_measured(c: FtpCommit, open: bool, rs: Seq<CommitReply>)
    requires
        commit_proper(c, open, rs),
        commit_run(c, open, rs) is Landed,
    ensures
        exists|i: int| #[trigger] landed_whole(c, open, rs, i),
    decreases rs.len(),
{
    let n = rs.len() as int;
    assert(rs.take(n) =~= rs);
    assert(rs.drop_last() =~= rs.take(n - 1));
    match commit_run(c, open, rs.take(n - 1)) {
        CommitNextModel::Do(_) => {
            let d = lemma_commit_prev(c, open, rs, n);
            if d == CommitDeedModel::Size {
                lemma_commit_size(c, open, rs, n - 1);
            } else {
                lemma_commit_on(c, open, rs, n - 1);
                let e = lemma_commit_prev(c, open, rs, n - 1);
                lemma_commit_size(c, open, rs, n - 2);
            }
        },
        _ => {
            let less = rs.take(n - 1);
            assert forall|i: int|
                #![trigger less[i]]
                0 <= i < less.len() implies (commit_asked(c, open, less, i) matches Some(d) ==> commit_answers(
                d,
                less[i],
            )) by {
                assert(less.take(i) =~= rs.take(i));
                assert(less[i] == rs[i]);
            }
            what_landed_was_renamed_and_measured(c, open, less);
            let i = choose|i: int| #[trigger] landed_whole(c, open, less, i);
            assert(less.take(i) =~= rs.take(i));
            assert(less.take(i - 1) =~= rs.take(i - 1));
            assert(less.take(i - 2) =~= rs.take(i - 2));
            if open {
                assert(less.take(i - 3) =~= rs.take(i - 3));
            }
            assert(landed_whole(c, open, rs, i));
        },
    }
}

/// Where everything goes well the upload lands, and its time is set by the planned one where the server
/// can and one is planned.
pub proof fn an_upload_that_goes_well_lands(c: FtpCommit)
    ensures
        c.after(CommitDeedModel::Seal, CommitReply::Done) == CommitNextModel::Do(CommitDeedModel::Clear),
        c.after(CommitDeedModel::Clear, CommitReply::Done) == CommitNextModel::Do(CommitDeedModel::Rename),
        c.after(CommitDeedModel::Rename, CommitReply::Done) == CommitNextModel::Do(CommitDeedModel::Size),
        c.hint.mtime_ms is None ==> c.after(CommitDeedModel::Size, CommitReply::Len(c.wrote))
            == CommitNextModel::Landed(None, None),
        c.hint.mtime_ms matches Some(ms) && c.feats.mfmt ==> (c.after(
            CommitDeedModel::Size,
            CommitReply::Len(c.wrote),
        ) matches CommitNextModel::Do(CommitDeedModel::Mtime(command)) && (c.after(
            CommitDeedModel::Mtime(command),
            CommitReply::Done,
        ) matches CommitNextModel::Landed(Some(at), None) && at % 1000 == 0 && -1000 < c.hint.mtime_ms->0 - at
            < 1000)),
        c.hint.mtime_ms is Some && !c.feats.mfmt ==> (c.after(
            CommitDeedModel::Size,
            CommitReply::Len(c.wrote),
        ) matches CommitNextModel::Landed(None, Some(e)) && e.0 == VfsErrorKind::Unsupported),
{
}

/// A listing is whole or it is refused: it is refused exactly where a line could not be read, and else
/// holds every entry but the directory itself and its parent, and no other.
pub proof fn a_listing_is_whole_or_refused(
    rel: Seq<char>,
    lines: Seq<Seq<char>>,
    read: Seq<Option<FtpLineModel>>,
    n: int,
)
    requires
        0 <= n <= read.len(),
    ensures
        gathered(rel, lines, read, n) is Err <==> exists|i: int| 0 <= i < n && (#[trigger] read[i]) is None,
        gathered(rel, lines, read, n) matches Ok(v) ==> forall|f: FtpLineModel| #[trigger]
            v.contains(f) <==> f.name != "."@ && f.name != ".."@ && exists|i: int|
                0 <= i < n && #[trigger] read[i] == Some(f),
    decreases n,
{
    if n > 0 {
        a_listing_is_whole_or_refused(rel, lines, read, n - 1);
        let last = read[n - 1];
        match gathered(rel, lines, read, n - 1) {
            Err(_) => {
                let i = choose|i: int| 0 <= i < n - 1 && (#[trigger] read[i]) is None;
                assert(read[i] is None);
            },
            Ok(v) => {
                assert(forall|i: int| 0 <= i < n - 1 ==> (#[trigger] read[i]) is Some);
                if let Some(g) = last {
                    let out = gathered(rel, lines, read, n)->Ok_0;
                    assert forall|f: FtpLineModel| #[trigger] out.contains(f) <==> f.name != "."@ && f.name
                        != ".."@ && exists|i: int| 0 <= i < n && #[trigger] read[i] == Some(f) by {
                        if v.contains(f) {
                            let k = choose|k: int| 0 <= k < v.len() && v[k] == f;
                            assert(out[k] == f);
                            let i = choose|i: int| 0 <= i < n - 1 && #[trigger] read[i] == Some(f);
                            assert(read[i] == Some(f));
                        }
                        if out.contains(f) && !v.contains(f) {
                            let k = choose|k: int| 0 <= k < out.len() && out[k] == f;
                            if k < v.len() {
                                assert(v[k] == f);
                            }
                            assert(f == g);
                            assert(read[n - 1] == Some(f));
                        }
                        if f == g && f.name != "."@ && f.name != ".."@ {
                            assert(out[v.len() as int] == f);
                        }
                        if f.name != "."@ && f.name != ".."@ && exists|i: int|
                            0 <= i < n && #[trigger] read[i] == Some(f) {
                            let i = choose|i: int| 0 <= i < n && #[trigger] read[i] == Some(f);
                            if i < n - 1 {
                                assert(v.contains(f));
                            }
                        }
                    }
                }
            },
        }
    } else {
        assert(!(exists|i: int| 0 <= i < n && (#[trigger] read[i]) is None));
    }
}

/// Only an answer with the code 550 can mean that something is absent; every other answer is an error of
/// the protocol.
pub proof fn only_one_answer_means_absence(what: Seq<char>, e: FtpFault)
    ensures
        fault_error(what, e).0 == VfsErrorKind::NotFound <==> (e matches FtpFault::Answer(code, _) && code == 550),
        what.is_prefix_of(fault_error(what, e).1),
        e is Connection <==> fault_error(what, e).0 == VfsErrorKind::Transient,
{
    let text = fault_error(what, e).1;
    assert(what =~= text.take(what.len() as int));
}

/// Where connecting stands after some replies.
pub open spec fn ftp_run(b: FtpBackend, rs: Seq<FtpReply>) -> FtpNextModel
    decreases rs.len(),
{
    if rs.len() == 0 {
        FtpNextModel::Do(FtpDeed::Credentials)
    } else {
        match ftp_run(b, rs.drop_last()) {
            FtpNextModel::Do(d) => b.connect_after(d, rs.last()),
            end => end,
        }
    }
}

/// After `i` replies that deed was asked for.
pub open spec fn ftp_asked(b: FtpBackend, rs: Seq<FtpReply>, i: int) -> Option<FtpDeed> {
    match ftp_run(b, rs.take(i)) {
        FtpNextModel::Do(d) => Some(d),
        _ => None,
    }
}

pub open spec fn ftp_proper(b: FtpBackend, rs: Seq<FtpReply>) -> bool {
    forall|i: int|
        #![trigger rs[i]]
        0 <= i < rs.len() ==> (ftp_asked(b, rs, i) matches Some(d) ==> ftp_answers(d, rs[i]))
}

/// The deed was asked for after `i` replies and went well.
pub open spec fn ftp_did(b: FtpBackend, rs: Seq<FtpReply>, i: int, d: FtpDeed) -> bool {
    0 <= i < rs.len() && ftp_asked(b, rs, i) == Some(d) && !(rs[i] is Failed) && !(rs[i] is Broke)
}

proof fn lemma_ftp_prev(b: FtpBackend, rs: Seq<FtpReply>, n: int) -> (d: FtpDeed)
    requires
        ftp_proper(b, rs),
        0 < n <= rs.len(),
        ftp_run(b, rs.take(n - 1)) is Do,
    ensures
        ftp_asked(b, rs, n - 1) == Some(d),
        ftp_answers(d, rs[n - 1]),
        ftp_run(b, rs.take(n)) == b.connect_after(d, rs[n - 1]),
{
    assert(rs.take(n).drop_last() =~= rs.take(n - 1));
    assert(rs.take(n).last() == rs[n - 1]);
    let d = ftp_run(b, rs.take(n - 1))->Do_0;
    assert(ftp_asked(b, rs, n - 1) == Some(d));
    assert(ftp_answers(d, rs[n - 1]));
    d
}

/// The control connection was opened, secured exactly where the scheme says so, before anybody was logged
/// in; and binary transfers were switched on after that.
pub open spec fn connected_well(b: FtpBackend, rs: Seq<FtpReply>, n: int, opened: int, logged: int) -> bool {
    &&& 0 <= opened < logged < n
    &&& ftp_did(b, rs, opened, FtpDeed::Open { tls: b.spec.scheme@ == "ftps"@ })
    &&& ftp_did(b, rs, logged, FtpDeed::Login)
    &&& logged + 1 < n && ftp_did(b, rs, logged + 1, FtpDeed::Binary)
}

proof fn lemma_ftp_login(b: FtpBackend, rs: Seq<FtpReply>, n: int) -> (opened: int)
    requires
        ftp_proper(b, rs),
        0 <= n <= rs.len(),
        ftp_asked(b, rs, n) == Some(FtpDeed::Login),
    ensures
        0 <= opened < n,
        ftp_did(b, rs, opened, FtpDeed::Open { tls: b.spec.scheme@ == "ftps"@ }),
{
    lemma_ftp_on(b, rs, n);
    let a = lemma_ftp_prev(b, rs, n);
    let at = if a == FtpDeed::Utf8 {
        lemma_ftp_on(b, rs, n - 1);
        let x = lemma_ftp_prev(b, rs, n - 1);
        n - 2
    } else {
        n - 1
    };
    lemma_ftp_on(b, rs, at);
    let f = lemma_ftp_prev(b, rs, at);
    lemma_ftp_on(b, rs, at - 1);
    let o = lemma_ftp_prev(b, rs, at - 1);
    lemma_ftp_on(b, rs, at - 2);
    let r = lemma_ftp_prev(b, rs, at - 2);
    at - 2
}

proof fn lemma_ftp_on(b: FtpBackend, rs: Seq<FtpReply>, n: int)
    requires
        0 <= n <= rs.len(),
        ftp_asked(b, rs, n) matches Some(d) && d != FtpDeed::Credentials,
    ensures
        0 < n,
        ftp_run(b, rs.take(n - 1)) is Do,
{
    if n == 0 {
        assert(rs.take(0) =~= Seq::<FtpReply>::empty());
    } else {
        assert(rs.take(n).drop_last() =~= rs.take(n - 1));
    }
}

/// Nobody is connected before the connection was opened as the scheme demands, the login was taken, and
/// binary transfers were switched on, in this order.
pub proof fn a_connection_is_opened_then_logged_in_to(b: FtpBackend, rs: Seq<FtpReply>)
    requires
        ftp_proper(b, rs),
        ftp_run(b, rs) is Connected,
    ensures
        exists|opened: int, logged: int| #[trigger]
            connected_well(b, rs, rs.len() as int, opened, logged),
    decreases rs.len(),
{
    let n = rs.len() as int;
    assert(rs.take(n) =~= rs);
    assert(rs.drop_last() =~= rs.take(n - 1));
    match ftp_run(b, rs.take(n - 1)) {
        FtpNextModel::Do(_) => {
            let d = lemma_ftp_prev(b, rs, n);
            let at = if d == FtpDeed::Active {
                lemma_ftp_on(b, rs, n - 1);
                let e = lemma_ftp_prev(b, rs, n - 1);
                n - 2
            } else {
                n - 1
            };
            lemma_ftp_on(b, rs, at);
            let l = lemma_ftp_prev(b, rs, at);
            let opened = lemma_ftp_login(b, rs, at - 1);
            assert(connected_well(b, rs, n, opened, at - 1));
        },
        _ => {
            let less = rs.take(n - 1);
            assert forall|i: int|
                #![trigger less[i]]
                0 <= i < less.len() implies (ftp_asked(b, less, i) matches Some(d) ==> ftp_answers(d, less[i])) by {
                assert(less.take(i) =~= rs.take(i));
                assert(less[i] == rs[i]);
            }
            a_connection_is_opened_then_logged_in_to(b, less);
            let (opened, logged) = choose|opened: int, logged: int| #[trigger]
                connected_well(b, less, less.len() as int, opened, logged);
            assert(less.take(opened) =~= rs.take(opened));
            assert(less.take(logged) =~= rs.take(logged));
            assert(less.take(logged + 1) =~= rs.take(logged + 1));
            assert(connected_well(b, rs, n, opened, logged));
        },
    }
}

/// A refused login and a missing password are matters of credentials; what failed on the way there may be
/// tried again.
pub proof fn refusals_tell_their_kind(b: FtpBackend, text: String)
    ensures
        b.connect_after(FtpDeed::Login, FtpReply::Broke(text)) matches FtpNextModel::Refused(kind, _, _) && kind
            == VfsErrorKind::Auth,
        b.connect_after(FtpDeed::Resolve, FtpReply::Broke(text)) matches FtpNextModel::Refused(kind, _, _)
            && kind == VfsErrorKind::Transient,
        b.connect_after(FtpDeed::Resolve, FtpReply::Address(false)) matches FtpNextModel::Refused(kind, _, _)
            && kind == VfsErrorKind::Transient,
        b.connect_after(FtpDeed::Credentials, FtpReply::Password(Some(text))) == FtpNextModel::Do(
            FtpDeed::Resolve,
        ),
{
}

/// A path on the server begins at its root and ends with the path asked for.
pub proof fn paths_begin_at_the_root(root: Seq<char>, rel: Seq<char>)
    ensures
        abs_of(root, rel).len() > 0 && abs_of(root, rel)[0] == '/',
        rel.is_suffix_of(abs_of(root, rel)),
        rel.len() > 0 ==> abs_of(root, rel)[abs_of(root, rel).len() - rel.len() - 1] == '/',
        ("/"@ + bare(root)).is_prefix_of(abs_of(root, rel)),
{
    reveal_strlit("/");
    let a = abs_of(root, rel);
    assert(rel =~= a.subrange(a.len() - rel.len(), a.len() as int)) by {
        if rel.len() == 0 {
            assert(a.subrange(a.len() - rel.len(), a.len() as int) =~= rel);
        }
    }
    let h = "/"@ + bare(root);
    assert(h =~= a.subrange(0, h.len() as int));
}

/// What a server can do is what it says: times are set only with the command for it, reads begin in the
/// middle only with the restart, and times are known to the second only from listings made for machines.
/// Nothing is known before it was asked.
pub proof fn a_server_can_do_what_it_says(names: Seq<Seq<char>>, c: VfsCaps, d: VfsCaps)
    requires
        ftp_caps(Some(feats_of(names)), c),
        ftp_caps(None, d),
    ensures
        c.set_mtime == Support::Yes <==> names.contains("MFMT"@),
        c.ranged_read == Support::Yes <==> names.contains("REST"@),
        c.mtime_precision_ms == 1000 <==> names.contains("MLSD"@) || names.contains("MLST"@),
        c.mtime_precision_ms == 1000 || c.mtime_precision_ms == 60_000,
        c.set_mtime != Support::Unknown && c.ranged_read != Support::Unknown,
        d.set_mtime == Support::Unknown && d.ranged_read == Support::Unknown && d.mtime_precision_ms == 60_000,
        c.rename_overwrite != Support::Yes && c.write_at != Support::Yes && c.fsync != Support::Yes,
        !c.local_trash && c.max_parallel_streams == 1,
{
}

/// A line tells of a directory, a link or a file, and of its size and time as they were read.
pub proof fn a_line_tells_its_kind(f: FtpLineModel)
    ensures
        line_meta(f).kind == EntryKind::Dir <==> f.is_dir,
        line_meta(f).kind == EntryKind::Symlink <==> f.is_symlink && !f.is_dir,
        line_meta(f).size == f.size,
        line_meta(f).link == f.link,
        f.modified matches Some(ms) ==> ms <= i64::MAX ==> line_meta(f).mtime_ms == ms,
        f.modified is None ==> line_meta(f).mtime_ms == 0,
        line_meta(f).mode is None,
{
}

/// An entry is found in a listing exactly where it is there, and it is the first of its name.
pub proof fn an_entry_is_found_by_its_name(list: Seq<FtpLineModel>, name: Seq<char>)
    ensures
        named(list, name) is None <==> forall|i: int| 0 <= i < list.len() ==> (#[trigger] list[i]).name != name,
        named(list, name) matches Some(f) ==> f.name == name && list.contains(f),
    decreases list.len(),
{
    if list.len() > 0 {
        let more = list.skip(1);
        an_entry_is_found_by_its_name(more, name);
        if list[0].name != name {
            if named(list, name) is None {
                assert forall|i: int| 0 <= i < list.len() implies (#[trigger] list[i]).name != name by {
                    if i > 0 {
                        assert(more[i - 1] == list[i]);
                    }
                }
            } else {
                let f = named(list, name)->0;
                let i = choose|i: int| 0 <= i < more.len() && more[i] == f;
                assert(list[i + 1] == f);
            }
        }
    }
}

/// Nobody logs in without a password but the anonymous user, and a stored one is the one that is sent.
pub proof fn a_stored_password_is_the_one_sent(user: Seq<char>, stored: Option<Seq<char>>)
    ensures
        stored is Some ==> login_password(user, stored) == stored,
        stored is None && user != "anonymous"@ ==> login_password(user, stored) is None,
        stored is None && user == "anonymous"@ ==> login_password(user, stored) is Some,
{
}

/// Taking out the dashes leaves all else as it was.
pub proof fn only_dashes_are_taken_out(s: Seq<char>, a: Seq<char>, b: Seq<char>)
    ensures
        forall|i: int| 0 <= i < undashed(s).len() ==> #[trigger] undashed(s)[i] != '-',
        (forall|i: int| 0 <= i < s.len() ==> #[trigger] s[i] != '-') ==> undashed(s) == s,
        undashed(a + b) == undashed(a) + undashed(b),
    decreases s.len() + b.len(),
{
    if s.len() > 0 {
        let less = s.drop_last();
        only_dashes_are_taken_out(less, Seq::empty(), Seq::empty());
        assert forall|i: int| 0 <= i < undashed(s).len() implies #[trigger] undashed(s)[i] != '-' by {
            if i < undashed(less).len() {
                assert(undashed(s)[i] == undashed(less)[i]);
            }
        }
        if forall|i: int| 0 <= i < s.len() ==> #[trigger] s[i] != '-' {
            assert(forall|i: int| 0 <= i < less.len() ==> #[trigger] less[i] == s[i]);
            assert(s[s.len() - 1] == s.last());
            assert(undashed(s) =~= s);
        }
    }
    if b.len() > 0 {
        only_dashes_are_taken_out(Seq::empty(), a, b.drop_last());
        assert((a + b).drop_last() =~= a + b.drop_last());
        assert((a + b).last() == b.last());
        assert(undashed(a + b) =~= undashed(a) + undashed(b));
    } else {
        assert(a + b =~= a);
        assert(undashed(a + b) =~= undashed(a) + undashed(b));
    }
}

/// A time is cut to whole seconds, towards 1970, and loses less than one.
pub proof fn times_are_cut_to_the_second(ms: i64)
    requires
        ms > i64::MIN,
    ensures
        to_the_second(ms) % 1000 == 0,
        -1000 < ms - to_the_second(ms) < 1000,
        ms >= 0 ==> 0 <= to_the_second(ms) <= ms,
        ms <= 0 ==> ms <= to_the_second(ms) <= 0,
{
}

/// A line of a machine's listing is read as one, and refused where it gives the leap second that no time
/// stands for; one that nobody described is tried in its other forms only where the first did not fit.
pub proof fn a_line_is_read_in_its_form(line: Seq<char>, p: Option<FtpLineModel>)
    ensures
        reads_as(line, true, p) && leap_line(line) ==> p is None,
        reads_as(line, true, p) && !leap_line(line) ==> p == mlsd_line(line, usize::MAX as int),
        reads_as(line, false, p) && !posix_like(line) ==> p == other_reading(line),
        reads_as(line, false, p) && p is None ==> other_reading(line) is None,
{
}

} // verus!
