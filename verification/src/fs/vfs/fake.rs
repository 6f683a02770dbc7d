//! The in-memory test filesystem, a root like any other.
//!
//! Content is a function of seed, path and offset, made by a hash that can be read at any place:
//! two roots of one seed agree on every byte. Files that are written keep their own bytes.
//! Troubles are knobs in the phrase, so that a test names its world in one line:
//! `fake://seed?precision_ms=60000&insens&no_ranged_read&transient_after=40`.
use vstd::prelude::*;
use vstd::slice::{slice_subrange, slice_to_vec};
use vstd::utf8::encode_utf8;
use crate::bytes::{patch, patched, push_bytes};
use crate::foundation::text::{lowercase, to_lowercase};
use crate::foundation::time::{clock_shows, now_ms};
use crate::fs::vfs::error::{is_error, VfsError, VfsErrorKind, VfsResult};
use crate::fs::vfs::tree::{
    ascending, dir_model, dir_node, FNode, NodeModel, Tree,
};
use crate::fs::vfs::{
    listed, CaseSense, CommitReport, Medium, MetaModel, NameRules, ReadStream, Support, VDirEntry,
    VMeta, Vfs, VfsCaps, WriteHint, WriteStaged,
};
use crate::order::{
    lemma_text_irreflexive, lemma_text_prefix, lemma_text_total, lemma_text_transitive, text_lt,
};
use crate::strings::{
    carries, char_lists, chars_of, contains_text, decimal, find, first_index, last_index, lemma_last_index,
    lemma_split_at, lemma_split_whole, numeral, parse_decimal,
    parsed, same, slice, split, split_chars, starts_with, text_index, text_of,
};
use crate::table::{copy_opt, opt_text, EntryKind};

verus! {

/// How often what was asked for.
#[derive(Clone, Copy, Debug, PartialEq, Eq, Structural)]
pub struct FakeCounters {
    pub stat: u64,
    pub read_dir: u64,
    pub open_read: u64,
    pub read_range: u64,
    pub open_write: u64,
    pub bytes_read: u64,
    pub bytes_written: u64,
}

/// The troubles of a root.
pub struct Knobs {
    pub latency_ms: u64,
    pub precision_ms: u32,
    pub insens: bool,
    pub no_ranged_read: bool,
    pub no_set_mtime: bool,
    pub no_fsync: bool,
    pub no_write_at: bool,
    pub no_symlink: bool,
    pub no_unix_mode: bool,
    pub no_free_space: bool,
    pub no_read_back: bool,
    pub no_rename_overwrite: bool,
    pub streams: usize,
    pub block_size: usize,
    pub transient_after: Option<u64>,
    pub fail_read: Option<String>,
}

pub struct KnobModel {
    pub latency_ms: u64,
    pub precision_ms: u32,
    pub insens: bool,
    pub no_ranged_read: bool,
    pub no_set_mtime: bool,
    pub no_fsync: bool,
    pub no_write_at: bool,
    pub no_symlink: bool,
    pub no_unix_mode: bool,
    pub no_free_space: bool,
    pub no_read_back: bool,
    pub no_rename_overwrite: bool,
    pub streams: usize,
    pub block_size: usize,
    pub transient_after: Option<u64>,
    pub fail_read: Option<Seq<char>>,
}

impl View for Knobs {
    type V = KnobModel;

    open spec fn view(&self) -> KnobModel {
        KnobModel {
            latency_ms: self.latency_ms,
            precision_ms: self.precision_ms,
            insens: self.insens,
            no_ranged_read: self.no_ranged_read,
            no_set_mtime: self.no_set_mtime,
            no_fsync: self.no_fsync,
            no_write_at: self.no_write_at,
            no_symlink: self.no_symlink,
            no_unix_mode: self.no_unix_mode,
            no_free_space: self.no_free_space,
            no_read_back: self.no_read_back,
            no_rename_overwrite: self.no_rename_overwrite,
            streams: self.streams,
            block_size: self.block_size,
            transient_after: self.transient_after,
            fail_read: opt_text(self.fail_read),
        }
    }
}

/// No trouble at all.
pub open spec fn calm() -> KnobModel {
    KnobModel {
        latency_ms: 0,
        precision_ms: 1,
        insens: false,
        no_ranged_read: false,
        no_set_mtime: false,
        no_fsync: false,
        no_write_at: false,
        no_symlink: false,
        no_unix_mode: false,
        no_free_space: false,
        no_read_back: false,
        no_rename_overwrite: false,
        streams: 4,
        block_size: 65536,
        transient_after: None,
        fail_read: None,
    }
}

impl Default for Knobs {
    fn default() -> (r: Knobs)
        ensures
            r@ == calm(),
    {
        Knobs {
            latency_ms: 0,
            precision_ms: 1,
            insens: false,
            no_ranged_read: false,
            no_set_mtime: false,
            no_fsync: false,
            no_write_at: false,
            no_symlink: false,
            no_unix_mode: false,
            no_free_space: false,
            no_read_back: false,
            no_rename_overwrite: false,
            streams: 4,
            block_size: 65536,
            transient_after: None,
            fail_read: None,
        }
    }
}

/// The number a knob was given, at least `least`, and `otherwise` where it is no number up to `max`.
pub open spec fn knob_number(val: Seq<char>, max: nat, otherwise: nat, least: nat) -> nat {
    let n = match parsed(val, max) {
        Some(n) => n,
        None => otherwise,
    };
    if n < least {
        least
    } else {
        n
    }
}

fn number_knob(val: &[char], max: u64, otherwise: u64, least: u64) -> (r: u64)
    requires
        otherwise <= max,
        least <= max,
    ensures
        r == knob_number(val@, max as nat, otherwise as nat, least as nat),
        r <= max,
{
    let n: u64 = match parse_decimal(val, max) {
        Some(n) => n,
        None => otherwise,
    };
    if n < least {
        least
    } else {
        n
    }
}

/// A flag raised; `None` where there is no such flag.
pub open spec fn raised(k: KnobModel, key: Seq<char>) -> Option<KnobModel> {
    if key == "insens"@ {
        Some(KnobModel { insens: true, ..k })
    } else if key == "no_ranged_read"@ {
        Some(KnobModel { no_ranged_read: true, ..k })
    } else if key == "no_set_mtime"@ {
        Some(KnobModel { no_set_mtime: true, ..k })
    } else if key == "no_fsync"@ {
        Some(KnobModel { no_fsync: true, ..k })
    } else if key == "no_write_at"@ {
        Some(KnobModel { no_write_at: true, ..k })
    } else if key == "no_symlink"@ {
        Some(KnobModel { no_symlink: true, ..k })
    } else if key == "no_unix_mode"@ {
        Some(KnobModel { no_unix_mode: true, ..k })
    } else if key == "no_free_space"@ {
        Some(KnobModel { no_free_space: true, ..k })
    } else if key == "no_read_back"@ {
        Some(KnobModel { no_read_back: true, ..k })
    } else if key == "no_rename_overwrite"@ {
        Some(KnobModel { no_rename_overwrite: true, ..k })
    } else {
        None
    }
}

fn raise(k: &mut Knobs, key: &str) -> (r: bool)
    ensures
        match raised(old(k)@, key@) {
            Some(m) => r && final(k)@ == m,
            None => !r && final(k)@ == old(k)@,
        },
{
    if same(key, "insens") {
        k.insens = true;
        true
    } else if same(key, "no_ranged_read") {
        k.no_ranged_read = true;
        true
    } else if same(key, "no_set_mtime") {
        k.no_set_mtime = true;
        true
    } else if same(key, "no_fsync") {
        k.no_fsync = true;
        true
    } else if same(key, "no_write_at") {
        k.no_write_at = true;
        true
    } else if same(key, "no_symlink") {
        k.no_symlink = true;
        true
    } else if same(key, "no_unix_mode") {
        k.no_unix_mode = true;
        true
    } else if same(key, "no_free_space") {
        k.no_free_space = true;
        true
    } else if same(key, "no_read_back") {
        k.no_read_back = true;
        true
    } else if same(key, "no_rename_overwrite") {
        k.no_rename_overwrite = true;
        true
    } else {
        false
    }
}

/// A knob set to a value; `None` where there is no such knob.
pub open spec fn valued(k: KnobModel, key: Seq<char>, val: Seq<char>) -> Option<KnobModel> {
    if key == "latency_ms"@ {
        Some(KnobModel { latency_ms: knob_number(val, u64::MAX as nat, 0, 0) as u64, ..k })
    } else if key == "precision_ms"@ {
        Some(KnobModel { precision_ms: knob_number(val, u32::MAX as nat, 1, 1) as u32, ..k })
    } else if key == "streams"@ {
        Some(KnobModel { streams: knob_number(val, usize::MAX as nat, 4, 1) as usize, ..k })
    } else if key == "block_size"@ {
        Some(KnobModel { block_size: knob_number(val, usize::MAX as nat, 65536, 1) as usize, ..k })
    } else if key == "transient_after"@ {
        Some(
            KnobModel {
                transient_after: match parsed(val, u64::MAX as nat) {
                    Some(n) => Some(n as u64),
                    None => None,
                },
                ..k
            },
        )
    } else if key == "fail_read"@ {
        Some(KnobModel { fail_read: Some(val), ..k })
    } else {
        None
    }
}

/// One more knob turned; `None` where there is no such knob.
pub open spec fn turned(k: KnobModel, key: Seq<char>, val: Seq<char>) -> Option<KnobModel> {
    match raised(k, key) {
        Some(m) => Some(m),
        None => valued(k, key, val),
    }
}

fn turn(k: &mut Knobs, key: &str, val: &[char]) -> (r: bool)
    ensures
        match turned(old(k)@, key@, val@) {
            Some(m) => r && final(k)@ == m,
            None => !r && final(k)@ == old(k)@,
        },
{
    if raise(k, key) {
        return true;
    }
    if same(key, "latency_ms") {
        k.latency_ms = number_knob(val, u64::MAX, 0, 0);
    } else if same(key, "precision_ms") {
        k.precision_ms = number_knob(val, u32::MAX as u64, 1, 1) as u32;
    } else if same(key, "streams") {
        k.streams = number_knob(val, usize::MAX as u64, 4, 1) as usize;
    } else if same(key, "block_size") {
        k.block_size = number_knob(val, usize::MAX as u64, 65536, 1) as usize;
    } else if same(key, "transient_after") {
        k.transient_after = parse_decimal(val, u64::MAX);
    } else if same(key, "fail_read") {
        k.fail_read = Some(text_of(val));
    } else {
        return false;
    }
    true
}

/// Name and value of one part of the query.
pub open spec fn knob_of(part: Seq<char>) -> (Seq<char>, Seq<char>) {
    let i = first_index(part, '=');
    if i < part.len() {
        (part.take(i), part.skip(i + 1))
    } else {
        (part, Seq::empty())
    }
}

/// The knobs that a query turns, or the name of the first one that does not exist.
pub open spec fn knobs_of(parts: Seq<Seq<char>>) -> Result<KnobModel, Seq<char>>
    decreases parts.len(),
{
    if parts.len() == 0 {
        Ok(calm())
    } else {
        match knobs_of(parts.drop_last()) {
            Err(name) => Err(name),
            Ok(k) => if parts.last().len() == 0 {
                Ok(k)
            } else {
                match turned(k, knob_of(parts.last()).0, knob_of(parts.last()).1) {
                    Some(m) => Ok(m),
                    None => Err(knob_of(parts.last()).0),
                }
            },
        }
    }
}

/// An unknown knob stays the answer, whatever follows it.
proof fn lemma_first_unknown(parts: Seq<Seq<char>>, n: int)
    requires
        0 <= n <= parts.len(),
        knobs_of(parts.take(n)) is Err,
    ensures
        knobs_of(parts) == knobs_of(parts.take(n)),
    decreases parts.len() - n,
{
    if n < parts.len() {
        assert(parts.take(n + 1).drop_last() =~= parts.take(n));
        lemma_first_unknown(parts, n + 1);
    } else {
        assert(parts.take(n) =~= parts);
    }
}

fn parse_knobs(query: &[char]) -> (r: Result<Knobs, String>)
    ensures
        match r {
            Ok(k) => knobs_of(split(query@, '&')) == Ok::<KnobModel, Seq<char>>(k@),
            Err(name) => knobs_of(split(query@, '&')) == Err::<KnobModel, Seq<char>>(name@),
        },
{
    let parts = split_chars(query, '&');
    let ghost all = char_lists(parts@);
    let mut k = Knobs::default();
    let mut i: usize = 0;
    assert(all.take(0) =~= Seq::<Seq<char>>::empty());
    while i < parts.len()
        invariant
            i <= parts@.len(),
            all == char_lists(parts@),
            all == split(query@, '&'),
            knobs_of(all.take(i as int)) == Ok::<KnobModel, Seq<char>>(k@),
        decreases parts@.len() - i,
    {
        let part = &parts[i];
        proof {
            assert(all.take(i as int + 1).drop_last() =~= all.take(i as int));
            assert(all.take(i as int + 1).last() == part@);
        }
        if part.len() > 0 {
            let n = part.len();
            let cut: usize = match find(part.as_slice(), '=') {
                Some(c) => c,
                None => n,
            };
            let head = slice(part.as_slice(), 0, cut);
            let val = if cut < n {
                slice(part.as_slice(), cut + 1, n)
            } else {
                Vec::new()
            };
            proof {
                assert(head@ =~= part@.take(cut as int));
                if cut < n {
                    assert(val@ =~= part@.skip(cut as int + 1));
                } else {
                    assert(head@ =~= part@);
                    assert(val@ =~= Seq::<char>::empty());
                }
                assert((head@, val@) == knob_of(part@));
            }
            let key = text_of(head.as_slice());
            if !turn(&mut k, key.as_str(), val.as_slice()) {
                proof {
                    lemma_first_unknown(all, i as int + 1);
                }
                return Err(key);
            }
        }
        i = i + 1;
    }
    assert(all.take(all.len() as int) =~= all);
    Ok(k)
}

/// A root held in memory.
pub struct FakeVfs {
    pub phrase: String,
    pub seed: String,
    pub knobs: Knobs,
    pub nodes: Tree,
    pub counters: FakeCounters,
    /// How many operations were asked for.
    pub ops: u64,
}

/// What a phrase says: the seed and the knobs, or what is wrong with it.
pub open spec fn phrase_of(raw: Seq<char>) -> Result<(Seq<char>, KnobModel), Seq<char>> {
    if !"fake://"@.is_prefix_of(raw) {
        Err("not a fake:// phrase: "@ + raw)
    } else {
        let rest = raw.skip("fake://"@.len() as int);
        let i = first_index(rest, '?');
        let query = if i < rest.len() {
            rest.skip(i + 1)
        } else {
            Seq::empty()
        };
        match knobs_of(split(query, '&')) {
            Ok(k) => Ok((rest.take(i), k)),
            Err(name) => Err(
                "unknown fake:// knob '"@ + name + "' — refusing to ignore it silently"@,
            ),
        }
    }
}

/// Nothing counted yet.
pub open spec fn uncounted() -> FakeCounters {
    FakeCounters {
        stat: 0,
        read_dir: 0,
        open_read: 0,
        read_range: 0,
        open_write: 0,
        bytes_read: 0,
        bytes_written: 0,
    }
}

/// A modification time as the root stores it: rounded down to its granularity.
pub open spec fn truncated(ms: i64, precision_ms: u32) -> int {
    if precision_ms <= 1 {
        ms as int
    } else {
        ms - ms as int % precision_ms as int
    }
}

/// The stored time. Where rounding down would leave the range, the time is kept as it is.
pub open spec fn stored_ms(ms: i64, precision_ms: u32) -> i64 {
    if truncated(ms, precision_ms) < i64::MIN {
        ms
    } else {
        truncated(ms, precision_ms) as i64
    }
}

fn trunc(ms: i64, precision_ms: u32) -> (r: i64)
    ensures
        r == stored_ms(ms, precision_ms),
{
    if precision_ms <= 1 {
        return ms;
    }
    let wide: i128 = ms as i128;
    let p: i128 = precision_ms as i128;
    let back: i128 = if wide >= 0 {
        wide % p
    } else {
        let over: i128 = (-wide) % p;
        proof {
            lemma_negative_rest(ms as int, p as int);
        }
        if over == 0 {
            0
        } else {
            p - over
        }
    };
    assert(back == ms as int % precision_ms as int);
    let out: i128 = wide - back;
    if out < i64::MIN as i128 {
        ms
    } else {
        out as i64
    }
}

/// The remainder of a negative number from that of its opposite.
proof fn lemma_negative_rest(x: int, p: int)
    requires
        p > 0,
    ensures
        x % p == if (-x) % p == 0 {
            0
        } else {
            p - (-x) % p
        },
{
    let q = (-x) / p;
    let r = (-x) % p;
    vstd::arithmetic::div_mod::lemma_fundamental_div_mod(-x, p);
    assert(-x == p * q + r);
    if r == 0 {
        assert(x == p * (-q) + 0) by (nonlinear_arith)
            requires
                -x == p * q + r,
                r == 0,
        ;
        vstd::arithmetic::div_mod::lemma_fundamental_div_mod_converse(x, p, -q, 0);
    } else {
        assert(x == p * (-q - 1) + (p - r)) by (nonlinear_arith)
            requires
                -x == p * q + r,
        ;
        vstd::arithmetic::div_mod::lemma_fundamental_div_mod_converse(x, p, -q - 1, p - r);
    }
}

/// One byte of the output of the hash of `message`, which can be read at any place.
pub uninterp spec fn xof_byte(message: Seq<u8>, place: int) -> u8;

/// `blake3::Hasher`: the message hashed, its output read from `off` on (`finalize_xof`,
/// `OutputReader::set_position`, `OutputReader::fill`). Every byte depends on the message and on
/// its place alone.
#[verifier::external_body]
fn xof(message: &[u8], off: u64, len: usize) -> (r: Vec<u8>)
    requires
        off + len <= u64::MAX,
    ensures
        r@.len() == len,
        forall|i: int| 0 <= i < len ==> #[trigger] r@[i] == xof_byte(message@, off + i),
{
    let mut hasher = blake3::Hasher::new();
    hasher.update(message);
    let mut reader = hasher.finalize_xof();
    reader.set_position(off);
    let mut buf = vec![0u8; len];
    reader.fill(&mut buf);
    buf
}

/// What the bytes of a generated file are made of.
pub open spec fn message_of(seed: Seq<char>, rel: Seq<char>) -> Seq<u8> {
    encode_utf8(seed).push(0) + encode_utf8(rel)
}

/// The content of a generated file.
pub open spec fn generated(seed: Seq<char>, rel: Seq<char>, size: u64) -> Seq<u8> {
    Seq::new(size as nat, |i: int| xof_byte(message_of(seed, rel), i))
}

/// The content of a file: what was written, or what is generated.
pub open spec fn content_of(n: NodeModel, seed: Seq<char>, rel: Seq<char>) -> Seq<u8> {
    match n.content {
        Some(b) => b,
        None => generated(seed, rel, n.size),
    }
}

fn gen_bytes(seed: &str, rel: &str, off: u64, len: usize) -> (r: Vec<u8>)
    requires
        off + len <= u64::MAX,
    ensures
        r@.len() == len,
        forall|i: int|
            0 <= i < len ==> #[trigger] r@[i] == xof_byte(message_of(seed@, rel@), off + i),
{
    let mut message: Vec<u8> = Vec::new();
    push_bytes(&mut message, seed.as_bytes());
    message.push(0);
    push_bytes(&mut message, rel.as_bytes());
    assert(message@ =~= message_of(seed@, rel@));
    xof(message.as_slice(), off, len)
}

/// The path of the first `n` segments. A separator stands only behind what is not empty.
pub open spec fn lineage(segs: Seq<Seq<char>>, n: int) -> Seq<char>
    decreases n,
{
    if n <= 0 {
        Seq::empty()
    } else {
        let before = lineage(segs, n - 1);
        if before.len() == 0 {
            segs[n - 1]
        } else {
            before + seq!['/'] + segs[n - 1]
        }
    }
}

/// `k` is a directory on the way down to the first `n` segments.
pub open spec fn on_the_way(segs: Seq<Seq<char>>, n: int, k: Seq<char>) -> bool {
    exists|i: int| 1 <= i <= n && #[trigger] lineage(segs, i) == k
}

/// The tree with the directories on the way, where they were missing.
pub open spec fn with_dirs(
    tree: Map<Seq<char>, NodeModel>,
    segs: Seq<Seq<char>>,
    n: int,
) -> Map<Seq<char>, NodeModel> {
    Map::new(
        |k: Seq<char>| tree.dom().contains(k) || on_the_way(segs, n, k),
        |k: Seq<char>|
            if tree.dom().contains(k) {
                tree[k]
            } else {
                dir_model()
            },
    )
}

/// The tree with every directory above `rel`.
pub open spec fn seeded(tree: Map<Seq<char>, NodeModel>, rel: Seq<char>) -> Map<
    Seq<char>,
    NodeModel,
> {
    with_dirs(tree, split(rel, '/'), split(rel, '/').len() - 1)
}

fn seed_parents(nodes: &mut Tree, rel: &str)
    ensures
        final(nodes)@ == seeded(old(nodes)@, rel@),
{
    let all = chars_of(rel);
    let segs = split_chars(all.as_slice(), '/');
    let ghost parts = char_lists(segs@);
    let ghost before = nodes@;
    proof {
        crate::strings::lemma_split(rel@, '/');
        assert(with_dirs(before, parts, 0) =~= before);
    }
    let mut prefix: Vec<char> = Vec::new();
    let last: usize = segs.len() - 1;
    let mut i: usize = 0;
    while i < last
        invariant
            parts == char_lists(segs@),
            i <= last,
            last == segs@.len() - 1,
            prefix@ == lineage(parts, i as int),
            nodes@ == with_dirs(before, parts, i as int),
        decreases last - i,
    {
        if prefix.len() > 0 {
            prefix.push('/');
        }
        crate::strings::push_all(&mut prefix, segs[i].as_slice());
        proof {
            assert(prefix@ =~= lineage(parts, i as int + 1));
        }
        let key = text_of(prefix.as_slice());
        if nodes.find(key.as_str()).is_none() {
            nodes.insert(key, dir_node());
        }
        proof {
            let now = with_dirs(before, parts, i as int + 1);
            let k = prefix@;
            assert(lineage(parts, i as int + 1) == k);
            assert forall|x: Seq<char>| nodes@.dom().contains(x) <==> now.dom().contains(x) by {
                if on_the_way(parts, i as int + 1, x) {
                    let j = choose|j: int| 1 <= j <= i + 1 && #[trigger] lineage(parts, j) == x;
                    if j <= i {
                        assert(on_the_way(parts, i as int, x));
                    }
                }
                if on_the_way(parts, i as int, x) {
                    let j = choose|j: int| 1 <= j <= i && #[trigger] lineage(parts, j) == x;
                    assert(on_the_way(parts, i as int + 1, x));
                }
                assert(on_the_way(parts, i as int + 1, k));
            }
            assert(nodes@ =~= now);
        }
        i = i + 1;
    }
}

/// Whether `k` is `rel` but for case.
pub open spec fn folds_to(tree: Map<Seq<char>, NodeModel>, rel: Seq<char>, k: Seq<char>) -> bool {
    tree.dom().contains(k) && lowercase(k) == lowercase(rel)
}

/// The first of the paths that are `rel` but for case.
pub open spec fn first_fold(tree: Map<Seq<char>, NodeModel>, rel: Seq<char>, k: Seq<char>) -> bool {
    folds_to(tree, rel, k) && forall|o: Seq<char>| #[trigger]
        folds_to(tree, rel, o) ==> !text_lt(o, k)
}

/// The path of the tree that `rel` stands for.
pub open spec fn resolved(
    tree: Map<Seq<char>, NodeModel>,
    insens: bool,
    rel: Seq<char>,
) -> Option<Seq<char>> {
    if tree.dom().contains(rel) {
        Some(rel)
    } else if insens && exists|k: Seq<char>| #[trigger] folds_to(tree, rel, k) {
        Some(choose|k: Seq<char>| #[trigger] first_fold(tree, rel, k))
    } else {
        None
    }
}

/// There is one first path.
proof fn lemma_one_first_fold(
    tree: Map<Seq<char>, NodeModel>,
    rel: Seq<char>,
    a: Seq<char>,
    b: Seq<char>,
)
    requires
        first_fold(tree, rel, a),
        first_fold(tree, rel, b),
    ensures
        a == b,
{
    lemma_text_total(a, b);
    assert(folds_to(tree, rel, a) && folds_to(tree, rel, b));
}

fn resolve(nodes: &Tree, insens: bool, rel: &str) -> (r: Option<String>)
    ensures
        opt_text(r) == resolved(nodes@, insens, rel@),
        r matches Some(k) ==> nodes@.dom().contains(k@),
{
    let n = nodes.len();
    if nodes.find(rel).is_some() {
        return Some(rel.to_owned());
    }
    if !insens {
        return None;
    }
    let want = to_lowercase(rel);
    let ghost keys = nodes.keys();
    let mut i: usize = 0;
    while i < n
        invariant
            i <= n,
            n == keys.len(),
            keys == nodes.keys(),
            ascending(keys),
            want@ == lowercase(rel@),
            insens,
            !nodes@.dom().contains(rel@),
            forall|k: Seq<char>| #[trigger] nodes@.dom().contains(k) <==> keys.contains(k),
            forall|j: int| 0 <= j < i ==> lowercase(#[trigger] keys[j]) != lowercase(rel@),
        decreases n - i,
    {
        let k = nodes.key(i);
        let low = to_lowercase(k.as_str());
        if same(low.as_str(), want.as_str()) {
            proof {
                assert(folds_to(nodes@, rel@, k@));
                assert forall|o: Seq<char>| #[trigger] folds_to(nodes@, rel@, o) implies !text_lt(o, k@) by {
                    let j = choose|j: int| 0 <= j < keys.len() && keys[j] == o;
                    assert(j >= i);
                    if j > i {
                        if text_lt(o, k@) {
                            lemma_text_transitive(o, k@, o);
                        }
                        lemma_text_irreflexive(o);
                    } else {
                        lemma_text_irreflexive(o);
                    }
                }
                assert(first_fold(nodes@, rel@, k@));
                let c = choose|c: Seq<char>| #[trigger] first_fold(nodes@, rel@, c);
                lemma_one_first_fold(nodes@, rel@, k@, c);
            }
            return Some(k.clone());
        }
        i = i + 1;
    }
    proof {
        assert forall|k: Seq<char>| !#[trigger] folds_to(nodes@, rel@, k) by {
            if folds_to(nodes@, rel@, k) {
                let j = choose|j: int| 0 <= j < keys.len() && keys[j] == k;
                assert(lowercase(keys[j]) == lowercase(rel@));
            }
        }
    }
    None
}

/// What is told of an entry.
pub open spec fn told(n: NodeModel, no_unix_mode: bool) -> MetaModel {
    MetaModel {
        kind: n.kind,
        size: n.size,
        mtime_ms: n.mtime_ms,
        mode: if no_unix_mode {
            None
        } else {
            n.mode
        },
        file_id: None,
        link: n.link,
    }
}

fn meta_of(n: &FNode, no_unix_mode: bool) -> (r: VMeta)
    ensures
        r@ == told(n@, no_unix_mode),
{
    VMeta {
        kind: n.kind,
        size: n.size,
        mtime_ms: n.mtime_ms,
        mode: if no_unix_mode {
            None
        } else {
            n.mode
        },
        file_id: None,
        link: copy_opt(&n.link),
    }
}

impl FakeVfs {
    /// The same root: its phrase, seed and knobs.
    pub open spec fn same_root(self, o: FakeVfs) -> bool {
        self.phrase == o.phrase && self.seed == o.seed && self.knobs == o.knobs
    }

    /// The number of the operation that comes next.
    pub open spec fn nth(self) -> u64 {
        self.ops.wrapping_add(1)
    }

    /// The line is cut before the next operation.
    pub open spec fn cut(self) -> bool {
        self.knobs.transient_after matches Some(limit) && self.nth() > limit
    }

    pub open spec fn cut_error(self, e: VfsError) -> bool {
        is_error(
            e,
            VfsErrorKind::Transient,
            "injected connection loss (op "@ + numeral(self.nth() as nat) + " > "@ + numeral(
                self.knobs.transient_after->0 as nat,
            ) + ")"@,
        )
    }

    /// A read of that path fails.
    pub open spec fn fails_on(self, rel: Seq<char>) -> bool {
        opt_text(self.knobs.fail_read) matches Some(pat) && text_index(rel, pat) is Some
    }

    /// The path of the tree that `rel` stands for.
    pub open spec fn key_of(self, rel: Seq<char>) -> Option<Seq<char>> {
        resolved(self.nodes@, self.knobs.insens, rel)
    }

    /// A new root from its phrase.
    pub fn from_phrase(raw: &str) -> (r: VfsResult<FakeVfs>)
        ensures
            match phrase_of(raw@) {
                Ok((seed, knobs)) => r matches Ok(v) && v.phrase@ == raw@ && v.seed@ == seed && v.knobs@
                    == knobs && v.nodes@ == Map::<Seq<char>, NodeModel>::empty() && v.counters
                    == uncounted() && v.ops == 0,
                Err(text) => r matches Err(e) && is_error(e, VfsErrorKind::Protocol, text),
            },
    {
        let all = chars_of(raw);
        let mark = chars_of("fake://");
        if !starts_with(all.as_slice(), mark.as_slice()) {
            let mut m = "not a fake:// phrase: ".to_owned();
            m.append(raw);
            return Err(VfsError::new(VfsErrorKind::Protocol, m.as_str()));
        }
        let rest = slice(all.as_slice(), mark.len(), all.len());
        assert(rest@ =~= raw@.skip(mark@.len() as int));
        let n = rest.len();
        let cut: usize = match find(rest.as_slice(), '?') {
            Some(i) => i,
            None => n,
        };
        let seed = slice(rest.as_slice(), 0, cut);
        let query = if cut < n {
            slice(rest.as_slice(), cut + 1, n)
        } else {
            Vec::new()
        };
        proof {
            assert(seed@ =~= rest@.take(cut as int));
            if cut < n {
                assert(query@ =~= rest@.skip(cut as int + 1));
            } else {
                assert(query@ =~= Seq::<char>::empty());
            }
        }
        match parse_knobs(query.as_slice()) {
            Ok(knobs) => Ok(
                FakeVfs {
                    phrase: raw.to_owned(),
                    seed: text_of(seed.as_slice()),
                    knobs,
                    nodes: Tree::new(),
                    counters: FakeCounters {
                        stat: 0,
                        read_dir: 0,
                        open_read: 0,
                        read_range: 0,
                        open_write: 0,
                        bytes_read: 0,
                        bytes_written: 0,
                    },
                    ops: 0,
                },
            ),
            Err(name) => {
                let mut m = "unknown fake:// knob '".to_owned();
                m.append(name.as_str());
                m.append("' — refusing to ignore it silently");
                Err(VfsError::new(VfsErrorKind::Protocol, m.as_str()))
            },
        }
    }

    /// What was counted so far.
    pub fn counters(&self) -> (r: &FakeCounters)
        ensures
            *r == self.counters,
    {
        &self.counters
    }

    /// Puts a directory, past knobs and counters.
    pub fn seed_dir(&mut self, rel: &str)
        ensures
            final(self).same_root(*old(self)),
            final(self).counters == old(self).counters,
            final(self).ops == old(self).ops,
            final(self).nodes@ == seeded(old(self).nodes@, rel@).insert(rel@, dir_model()),
    {
        seed_parents(&mut self.nodes, rel);
        self.nodes.insert(rel.to_owned(), dir_node());
    }

    /// Puts a file of generated content, past knobs and counters.
    pub fn seed_file(&mut self, rel: &str, size: u64, mtime_ms: i64)
        ensures
            final(self).same_root(*old(self)),
            final(self).counters == old(self).counters,
            final(self).ops == old(self).ops,
            final(self).nodes@ == seeded(old(self).nodes@, rel@).insert(
                rel@,
                (NodeModel {
                    kind: EntryKind::File,
                    size,
                    mtime_ms: stored_ms(mtime_ms, old(self).knobs.precision_ms),
                    mode: Some(0o644),
                    link: None,
                    content: None,
                }),
            ),
    {
        seed_parents(&mut self.nodes, rel);
        let node = FNode {
            kind: EntryKind::File,
            size,
            mtime_ms: trunc(mtime_ms, self.knobs.precision_ms),
            mode: Some(0o644),
            link: None,
            content: None,
        };
        self.nodes.insert(rel.to_owned(), node);
    }

    /// Puts a symlink, past knobs and counters.
    pub fn seed_symlink(&mut self, rel: &str, target: &str, mtime_ms: i64)
        ensures
            final(self).same_root(*old(self)),
            final(self).counters == old(self).counters,
            final(self).ops == old(self).ops,
            final(self).nodes@ == seeded(old(self).nodes@, rel@).insert(
                rel@,
                (NodeModel {
                    kind: EntryKind::Symlink,
                    size: 0,
                    mtime_ms: stored_ms(mtime_ms, old(self).knobs.precision_ms),
                    mode: None,
                    link: Some(target@),
                    content: None,
                }),
            ),
    {
        seed_parents(&mut self.nodes, rel);
        let node = FNode {
            kind: EntryKind::Symlink,
            size: 0,
            mtime_ms: trunc(mtime_ms, self.knobs.precision_ms),
            mode: None,
            link: Some(target.to_owned()),
            content: None,
        };
        self.nodes.insert(rel.to_owned(), node);
    }

    /// Every operation passes here: it is counted, and from some number on the line is cut.
    fn gate(&mut self) -> (r: VfsResult<()>)
        ensures
            final(self).same_root(*old(self)),
            final(self).nodes == old(self).nodes,
            final(self).counters == old(self).counters,
            final(self).ops == old(self).nth(),
            match r {
                Ok(_) => !old(self).cut(),
                Err(e) => old(self).cut() && old(self).cut_error(e),
            },
    {
        let n: u64 = self.ops.wrapping_add(1);
        self.ops = n;
        if let Some(limit) = self.knobs.transient_after {
            if n > limit {
                let mut m = "injected connection loss (op ".to_owned();
                m.append(decimal(n).as_str());
                m.append(" > ");
                m.append(decimal(limit).as_str());
                m.append(")");
                return Err(VfsError::new(VfsErrorKind::Transient, m.as_str()));
            }
        }
        Ok(())
    }

    fn read_fails(&self, rel: &str) -> (r: bool)
        ensures
            r == self.fails_on(rel@),
    {
        match &self.knobs.fail_read {
            Some(pat) => contains_text(chars_of(rel).as_slice(), chars_of(pat.as_str()).as_slice()),
            None => false,
        }
    }

    fn key(&self, rel: &str) -> (r: Option<String>)
        ensures
            opt_text(r) == self.key_of(rel@),
            r matches Some(k) ==> self.nodes@.dom().contains(k@),
    {
        resolve(&self.nodes, self.knobs.insens, rel)
    }
}

/// An error that names a path.
fn error_on(kind: VfsErrorKind, what: &str, rel: &str) -> (e: VfsError)
    ensures
        is_error(e, kind, what@ + rel@),
{
    let mut m = what.to_owned();
    m.append(rel);
    VfsError::new(kind, m.as_str())
}

/// The smaller of the two.
pub open spec fn at_most(a: int, b: int) -> int {
    if a < b {
        a
    } else {
        b
    }
}

/// A file of a root, being read.
pub struct FakeRead {
    rel: String,
    content: Option<Vec<u8>>,
    size: u64,
    pos: u64,
    block: usize,
}

impl FakeRead {
    #[verifier::type_invariant]
    spec fn ok(&self) -> bool {
        &&& self.pos <= self.size
        &&& self.content matches Some(b) ==> b@.len() == self.size
    }

    /// The whole content, where the root's seed is `seed`.
    pub closed spec fn data(&self, seed: Seq<char>) -> Seq<u8> {
        match self.content {
            Some(b) => b@,
            None => generated(seed, self.rel@, self.size),
        }
    }

    /// How much was read.
    pub closed spec fn pos(&self) -> int {
        self.pos as int
    }

    pub closed spec fn size(&self) -> int {
        self.size as int
    }

    pub closed spec fn block(&self) -> usize {
        self.block
    }
}

/// The bytes of a file from `off` on, `n` of them.
fn file_bytes(content: &Option<Vec<u8>>, size: u64, seed: &str, rel: &str, off: u64, n: usize) -> (r: Vec<
    u8,
>)
    requires
        off + n <= size,
        content matches Some(b) ==> b@.len() == size,
    ensures
        r@ == (match content {
            Some(b) => b@,
            None => generated(seed@, rel@, size),
        }).subrange(off as int, off + n),
{
    match content {
        Some(b) => {
            let held: usize = b.len();
            assert(off + n <= held);
            let from: usize = off as usize;
            slice_to_vec(slice_subrange(b.as_slice(), from, from + n))
        },
        None => {
            let r = gen_bytes(seed, rel, off, n);
            assert(r@ =~= generated(seed@, rel@, size).subrange(off as int, off + n));
            r
        },
    }
}

impl ReadStream<FakeVfs> for FakeRead {
    fn read(&mut self, root: &mut FakeVfs, max: usize) -> (r: VfsResult<Vec<u8>>)
        ensures
            final(root).same_root(*old(root)),
            final(root).nodes == old(root).nodes,
            final(root).ops == old(root).nth(),
            forall|seed: Seq<char>| #[trigger] final(self).data(seed) == old(self).data(seed),
            final(self).size() == old(self).size(),
            final(self).block() == old(self).block(),
            match r {
                Err(e) => {
                    &&& old(root).cut() && old(root).cut_error(e)
                    &&& final(root).counters == old(root).counters
                    &&& final(self).pos() == old(self).pos()
                },
                Ok(b) => {
                    let n = at_most(max as int, old(self).size() - old(self).pos());
                    &&& !old(root).cut()
                    &&& b@ == old(self).data(old(root).seed@).subrange(
                        old(self).pos(),
                        old(self).pos() + n,
                    )
                    &&& final(self).pos() == old(self).pos() + n
                    &&& final(root).counters == (FakeCounters {
                        bytes_read: old(root).counters.bytes_read.wrapping_add(n as u64),
                        ..old(root).counters
                    })
                },
            },
    {
        proof {
            use_type_invariant(&*self);
        }
        match root.gate() {
            Ok(_) => {},
            Err(e) => {
                return Err(e);
            },
        }
        let left: u64 = self.size - self.pos;
        let n: usize = if (max as u64) < left {
            max
        } else {
            left as usize
        };
        let bytes = file_bytes(
            &self.content,
            self.size,
            root.seed.as_str(),
            self.rel.as_str(),
            self.pos,
            n,
        );
        self.pos = self.pos + n as u64;
        root.counters.bytes_read = root.counters.bytes_read.wrapping_add(n as u64);
        Ok(bytes)
    }

    fn block_size(&self) -> (r: usize)
        ensures
            r == self.block(),
    {
        self.block
    }
}

/// A write to a root that nobody sees yet.
pub struct FakeStaged {
    pub rel: String,
    pub hint: WriteHint,
    pub buf: Vec<u8>,
    pub block: usize,
    pub no_fsync: bool,
    pub no_read_back: bool,
}

/// The entry that a commit leaves behind.
pub open spec fn committed(buf: Seq<u8>, hint: WriteHint, mtime_ms: i64) -> NodeModel {
    NodeModel {
        kind: EntryKind::File,
        size: buf.len() as u64,
        mtime_ms,
        mode: match hint.mode {
            Some(m) => Some(m),
            None => Some(0o644),
        },
        link: None,
        content: Some(buf),
    }
}

/// The time that a committed file has: the wanted one as the root stores it, else the clock's.
pub open spec fn landed_ms(hint: WriteHint, knobs: Knobs, now: i64) -> i64 {
    match hint.mtime_ms {
        Some(ms) => if knobs.no_set_mtime {
            now
        } else {
            stored_ms(ms, knobs.precision_ms)
        },
        None => now,
    }
}

impl FakeStaged {
    /// Commits, where the clock says `now`.
    pub fn commit_at(self, root: &mut FakeVfs, now: i64) -> (r: VfsResult<CommitReport>)
        ensures
            final(root).same_root(*old(root)),
            final(root).counters == old(root).counters,
            final(root).ops == old(root).nth(),
            match r {
                Err(e) => old(root).cut() && old(root).cut_error(e) && final(root).nodes
                    == old(root).nodes,
                Ok(report) => {
                    let mtime = landed_ms(self.hint, old(root).knobs, now);
                    &&& !old(root).cut()
                    &&& final(root).nodes@ == seeded(old(root).nodes@, self.rel@).insert(
                        self.rel@,
                        committed(self.buf@, self.hint, mtime),
                    )
                    &&& report.mtime_ondisk_ms == Some(mtime)
                    &&& report.mode_error is None
                    &&& match report.mtime_error {
                        Some(e) => self.hint.mtime_ms is Some && old(root).knobs.no_set_mtime && is_error(
                            e,
                            VfsErrorKind::Unsupported,
                            "set_mtime disabled on this fake root"@,
                        ),
                        None => self.hint.mtime_ms is None || !old(root).knobs.no_set_mtime,
                    }
                },
            },
    {
        match root.gate() {
            Ok(_) => {},
            Err(e) => {
                return Err(e);
            },
        }
        let mut mtime_error: Option<VfsError> = None;
        let mtime: i64 = match self.hint.mtime_ms {
            Some(ms) => if root.knobs.no_set_mtime {
                mtime_error = Some(VfsError::unsupported("set_mtime disabled on this fake root"));
                now
            } else {
                trunc(ms, root.knobs.precision_ms)
            },
            None => now,
        };
        seed_parents(&mut root.nodes, self.rel.as_str());
        let mode: Option<u32> = match self.hint.mode {
            Some(m) => Some(m),
            None => Some(0o644),
        };
        let size: u64 = self.buf.len() as u64;
        let node = FNode {
            kind: EntryKind::File,
            size,
            mtime_ms: mtime,
            mode,
            link: None,
            content: Some(self.buf),
        };
        root.nodes.insert(self.rel, node);
        Ok(CommitReport { mtime_ondisk_ms: Some(mtime), mtime_error, mode_error: None })
    }
}

impl WriteStaged<FakeVfs> for FakeStaged {
    type Back = FakeRead;

    fn write(&mut self, root: &mut FakeVfs, data: &[u8]) -> (r: VfsResult<()>)
        ensures
            final(root).same_root(*old(root)),
            final(root).nodes == old(root).nodes,
            final(root).ops == old(root).nth(),
            match r {
                Err(e) => old(root).cut() && old(root).cut_error(e) && final(root).counters
                    == old(root).counters && *final(self) == *old(self),
                Ok(_) => {
                    &&& !old(root).cut()
                    &&& *final(self) == (FakeStaged { buf: final(self).buf, ..*old(self) })
                    &&& final(self).buf@ == old(self).buf@ + data@
                    &&& final(root).counters == (FakeCounters {
                        bytes_written: old(root).counters.bytes_written.wrapping_add(data@.len() as u64),
                        ..old(root).counters
                    })
                },
            },
    {
        match root.gate() {
            Ok(_) => {},
            Err(e) => {
                return Err(e);
            },
        }
        push_bytes(&mut self.buf, data);
        root.counters.bytes_written = root.counters.bytes_written.wrapping_add(data.len() as u64);
        Ok(())
    }

    fn block_size(&self) -> (r: usize)
        ensures
            r == self.block,
    {
        self.block
    }

    fn write_at(&mut self, root: &mut FakeVfs, off: u64, data: &[u8]) -> (r: VfsResult<()>)
        ensures
            final(root).same_root(*old(root)),
            final(root).nodes == old(root).nodes,
            final(root).ops == if old(root).knobs.no_write_at {
                old(root).ops
            } else {
                old(root).nth()
            },
            match r {
                Err(e) => {
                    &&& final(root).counters == old(root).counters && *final(self) == *old(self)
                    &&& if old(root).knobs.no_write_at {
                        is_error(
                            e,
                            VfsErrorKind::Unsupported,
                            "write_at disabled on this fake root"@,
                        )
                    } else {
                        old(root).cut() && old(root).cut_error(e)
                    }
                },
                Ok(_) => {
                    &&& !old(root).knobs.no_write_at && !old(root).cut()
                    &&& *final(self) == (FakeStaged { buf: final(self).buf, ..*old(self) })
                    &&& final(self).buf@ == patched(old(self).buf@, off as int, data@)
                    &&& final(root).counters == (FakeCounters {
                        bytes_written: old(root).counters.bytes_written.wrapping_add(data@.len() as u64),
                        ..old(root).counters
                    })
                },
            },
    {
        if root.knobs.no_write_at {
            return Err(VfsError::unsupported("write_at disabled on this fake root"));
        }
        match root.gate() {
            Ok(_) => {},
            Err(e) => {
                return Err(e);
            },
        }
        patch(&mut self.buf, off as usize, data);
        root.counters.bytes_written = root.counters.bytes_written.wrapping_add(data.len() as u64);
        Ok(())
    }

    fn seal(&mut self, fsync: bool) -> (r: VfsResult<()>)
        ensures
            *final(self) == *old(self),
            match r {
                Ok(_) => !(fsync && old(self).no_fsync),
                Err(e) => fsync && old(self).no_fsync && is_error(
                    e,
                    VfsErrorKind::Unsupported,
                    "fsync requested but this root has none"@,
                ),
            },
    {
        if fsync && self.no_fsync {
            return Err(VfsError::unsupported("fsync requested but this root has none"));
        }
        Ok(())
    }

    fn staged_len(&self) -> (r: VfsResult<u64>)
        ensures
            r matches Ok(n) && n == self.buf@.len(),
    {
        Ok(self.buf.len() as u64)
    }

    fn open_staged_read(&self) -> (r: VfsResult<FakeRead>)
        ensures
            match r {
                Ok(f) => {
                    &&& !self.no_read_back
                    &&& forall|seed: Seq<char>| #[trigger] f.data(seed) == self.buf@
                    &&& f.pos() == 0
                    &&& f.size() == self.buf@.len()
                    &&& f.block() == self.block
                },
                Err(e) => self.no_read_back && is_error(
                    e,
                    VfsErrorKind::Unsupported,
                    "read_back disabled on this fake root"@,
                ),
            },
    {
        if self.no_read_back {
            return Err(VfsError::unsupported("read_back disabled on this fake root"));
        }
        let bytes = slice_to_vec(self.buf.as_slice());
        let size: u64 = self.buf.len() as u64;
        Ok(
            FakeRead {
                rel: self.rel.clone(),
                content: Some(bytes),
                size,
                pos: 0,
                block: self.block,
            },
        )
    }

    fn commit(self, root: &mut FakeVfs) -> (r: VfsResult<CommitReport>)
        ensures
            final(root).same_root(*old(root)),
            final(root).counters == old(root).counters,
            final(root).ops == old(root).nth(),
            match r {
                Err(e) => old(root).cut() && old(root).cut_error(e) && final(root).nodes
                    == old(root).nodes,
                Ok(report) => {
                    &&& !old(root).cut()
                    &&& report.mtime_ondisk_ms is Some
                    &&& final(root).nodes@ == seeded(old(root).nodes@, self.rel@).insert(
                        self.rel@,
                        committed(self.buf@, self.hint, report.mtime_ondisk_ms->0),
                    )
                    &&& exists|now: u64| #[trigger]
                        clock_shows(now) && report.mtime_ondisk_ms == Some(
                            landed_ms(self.hint, old(root).knobs, now as i64),
                        )
                    &&& report.mode_error is None
                    &&& report.mtime_error is Some <==> self.hint.mtime_ms is Some && old(
                        root,
                    ).knobs.no_set_mtime
                },
            },
    {
        let read: u64 = now_ms();
        let now: i64 = clock_stamp(read);
        assert(clock_shows(read));
        self.commit_at(root, now)
    }
}

/// A clock reading as a modification time: the same bits.
pub fn clock_stamp(now: u64) -> (r: i64)
    ensures
        r == now as i64,
        now <= i64::MAX ==> r == now,
        now > i64::MAX ==> r == now - 0x1_0000_0000_0000_0000,
{
    proof {
        assert(now > 0x7fff_ffff_ffff_ffff ==> now as i64 == now - 0x1_0000_0000_0000_0000) by (bit_vector);
    }
    #[verifier::truncate] (now as i64)
}

/// What stands before the names inside a directory.
pub open spec fn inside(dir: Seq<char>) -> Seq<char> {
    if dir.len() == 0 {
        Seq::empty()
    } else {
        dir + "/"@
    }
}

/// A name of one segment.
pub open spec fn one_segment(name: Seq<char>) -> bool {
    name.len() > 0 && !carries(name, '/')
}

/// The listing of a directory: every entry directly inside it, once, by name.
pub open spec fn is_listing(
    tree: Map<Seq<char>, NodeModel>,
    dir: Seq<char>,
    no_unix_mode: bool,
    out: Seq<(Seq<char>, MetaModel)>,
) -> bool {
    &&& forall|i: int, j: int|
        0 <= i < j < out.len() ==> text_lt((#[trigger] out[i]).0, (#[trigger] out[j]).0)
    &&& forall|i: int|
        0 <= i < out.len() ==> {
            let name = (#[trigger] out[i]).0;
            &&& one_segment(name)
            &&& tree.dom().contains(inside(dir) + name)
            &&& out[i].1 == told(tree[inside(dir) + name], no_unix_mode)
        }
    &&& forall|name: Seq<char>|
        one_segment(name) && #[trigger] tree.dom().contains(inside(dir) + name) ==> exists|i: int|
            0 <= i < out.len() && (#[trigger] out[i]).0 == name
}

/// `k` stands directly behind `front`.
spec fn picked(front: Seq<char>, k: Seq<char>) -> bool {
    front.is_prefix_of(k) && one_segment(k.skip(front.len() as int))
}

/// What was collected from the first `n` paths: `ix` are the places of the picked ones.
spec fn collected(
    tree: Map<Seq<char>, NodeModel>,
    keys: Seq<Seq<char>>,
    front: Seq<char>,
    no_unix_mode: bool,
    ix: Seq<int>,
    out: Seq<VDirEntry>,
    n: int,
) -> bool {
    &&& ix.len() == out.len()
    &&& forall|a: int, b: int| 0 <= a < b < ix.len() ==> #[trigger] ix[a] < #[trigger] ix[b]
    &&& forall|a: int|
        0 <= a < ix.len() ==> {
            let k = keys[#[trigger] ix[a]];
            &&& 0 <= ix[a] < n
            &&& picked(front, k)
            &&& out[a].name@ == k.skip(front.len() as int)
            &&& out[a].meta@ == told(tree[k], no_unix_mode)
        }
    &&& forall|j: int| 0 <= j < n && picked(front, #[trigger] keys[j]) ==> ix.contains(j)
}

proof fn lemma_collected(
    tree: Map<Seq<char>, NodeModel>,
    keys: Seq<Seq<char>>,
    dir: Seq<char>,
    no_unix_mode: bool,
    ix: Seq<int>,
    out: Seq<VDirEntry>,
)
    requires
        collected(tree, keys, inside(dir), no_unix_mode, ix, out, keys.len() as int),
        ascending(keys),
        forall|k: Seq<char>| #[trigger] tree.dom().contains(k) <==> keys.contains(k),
    ensures
        is_listing(tree, dir, no_unix_mode, listed(out)),
{
    let front = inside(dir);
    let n = front.len() as int;
    let o = listed(out);
    assert forall|a: int| 0 <= a < o.len() implies {
        let name = (#[trigger] o[a]).0;
        &&& one_segment(name)
        &&& tree.dom().contains(front + name)
        &&& o[a].1 == told(tree[front + name], no_unix_mode)
    } by {
        let k = keys[ix[a]];
        assert(k.subrange(0, n) == front);
        assert(front + k.skip(n) =~= k);
        assert(keys.contains(k));
        assert(o[a] == out[a]@);
    }
    assert forall|a: int, b: int| 0 <= a < b < o.len() implies text_lt(
        (#[trigger] o[a]).0,
        (#[trigger] o[b]).0,
    ) by {
        let x = keys[ix[a]];
        let y = keys[ix[b]];
        assert(x.subrange(0, n) == front);
        assert(y.subrange(0, n) == front);
        assert(front + x.skip(n) =~= x);
        assert(front + y.skip(n) =~= y);
        assert(text_lt(x, y));
        lemma_text_prefix(front, x.skip(n), y.skip(n));
    }
    assert forall|name: Seq<char>|
        one_segment(name) && #[trigger] tree.dom().contains(front + name) implies exists|a: int|
        0 <= a < o.len() && (#[trigger] o[a]).0 == name by {
        let k = front + name;
        assert(keys.contains(k));
        let j = choose|j: int| 0 <= j < keys.len() && keys[j] == k;
        assert(k.skip(n) =~= name);
        assert(k.subrange(0, n) =~= front);
        assert(picked(front, keys[j]));
        let a = choose|a: int| 0 <= a < ix.len() && ix[a] == j;
        assert(o[a].0 == name);
    }
}

fn list(nodes: &Tree, dir: &str, no_unix_mode: bool) -> (r: Vec<VDirEntry>)
    ensures
        is_listing(nodes@, dir@, no_unix_mode, listed(r@)),
{
    let mut before = chars_of(dir);
    proof {
        reveal_strlit("/");
    }
    if before.len() > 0 {
        before.push('/');
    }
    assert(before@ =~= inside(dir@));
    let n = nodes.len();
    let ghost keys = nodes.keys();
    let ghost front = before@;
    let ghost mut ix: Seq<int> = Seq::empty();
    let mut out: Vec<VDirEntry> = Vec::new();
    let mut i: usize = 0;
    while i < n
        invariant
            i <= n,
            n == keys.len(),
            keys == nodes.keys(),
            before@ == front,
            collected(nodes@, keys, front, no_unix_mode, ix, out@, i as int),
        decreases n - i,
    {
        let key = chars_of(nodes.key(i).as_str());
        let ghost was = out@;
        let ghost were = ix;
        let ghost mut pick = false;
        if starts_with(key.as_slice(), before.as_slice()) {
            let name = slice(key.as_slice(), before.len(), key.len());
            assert(name@ =~= key@.skip(front.len() as int));
            if name.len() > 0 && find(name.as_slice(), '/').is_none() {
                let entry = VDirEntry {
                    name: text_of(name.as_slice()),
                    meta: meta_of(nodes.node(i), no_unix_mode),
                };
                out.push(entry);
                proof {
                    ix = ix.push(i as int);
                    pick = true;
                }
            } else {
                proof {
                    crate::strings::lemma_first_index(name@, '/');
                }
            }
        }
        proof {
            assert(pick == picked(front, keys[i as int]));
            assert forall|j: int| 0 <= j < i + 1 && picked(front, #[trigger] keys[j]) implies ix.contains(
                j,
            ) by {
                if j < i {
                    let a = choose|a: int| 0 <= a < were.len() && were[a] == j;
                    assert(ix[a] == j);
                } else {
                    assert(ix[ix.len() - 1] == j);
                }
            }
        }
        i = i + 1;
    }
    proof {
        lemma_collected(nodes@, keys, dir@, no_unix_mode, ix, out@);
    }
    out
}

/// `k` lies somewhere below the directory `d`.
pub open spec fn below_dir(d: Seq<char>, k: Seq<char>) -> bool {
    (d + "/"@).is_prefix_of(k)
}

/// Neither path lies below the other.
pub open spec fn apart(a: Seq<char>, b: Seq<char>) -> bool {
    !below_dir(a, b) && !below_dir(b, a)
}

/// Where a path below `from` goes when `from` becomes `to`.
pub open spec fn carried(from: Seq<char>, to: Seq<char>, k: Seq<char>) -> Seq<char> {
    to + k.skip(from.len() as int)
}

/// The tree once the entry at `from` stands at `to`.
pub open spec fn entry_moved(
    tree: Map<Seq<char>, NodeModel>,
    from: Seq<char>,
    to: Seq<char>,
) -> Map<Seq<char>, NodeModel> {
    seeded(tree.remove(from), to).insert(to, tree[from])
}

/// The tree once everything below `from` lies below `to`.
pub open spec fn below_moved(
    tree: Map<Seq<char>, NodeModel>,
    from: Seq<char>,
    to: Seq<char>,
) -> Map<Seq<char>, NodeModel> {
    Map::new(
        |k: Seq<char>|
            (tree.dom().contains(k) && !below_dir(from, k)) || (below_dir(to, k) && tree.dom().contains(
                carried(to, from, k),
            )),
        |k: Seq<char>|
            if below_dir(to, k) && tree.dom().contains(carried(to, from, k)) {
                tree[carried(to, from, k)]
            } else {
                tree[k]
            },
    )
}

/// The tree after a rename.
pub open spec fn renamed(
    tree: Map<Seq<char>, NodeModel>,
    from: Seq<char>,
    to: Seq<char>,
) -> Map<Seq<char>, NodeModel> {
    let moved = entry_moved(tree, from, to);
    if tree[from].kind == EntryKind::Dir && from != to {
        below_moved(moved, from, to)
    } else {
        moved
    }
}

/// Nothing but the entry itself: a second look at what lies directly or indirectly below.
fn any_below(nodes: &Tree, dir: &str) -> (r: bool)
    ensures
        r == exists|k: Seq<char>| nodes@.dom().contains(k) && #[trigger] below_dir(dir@, k),
{
    let keys = keys_below(nodes, dir);
    if keys.len() > 0 {
        assert(below_dir(dir@, keys@[0]@));
        true
    } else {
        proof {
            assert forall|k: Seq<char>| nodes@.dom().contains(k) implies !#[trigger] below_dir(dir@, k) by {
                if below_dir(dir@, k) {
                    let i = choose|i: int| 0 <= i < keys@.len() && keys@[i]@ == k;
                }
            }
        }
        false
    }
}

/// Every path below a directory, once.
fn keys_below(nodes: &Tree, dir: &str) -> (r: Vec<String>)
    ensures
        forall|i: int|
            0 <= i < r@.len() ==> nodes@.dom().contains(#[trigger] r@[i]@) && below_dir(dir@, r@[i]@),
        forall|k: Seq<char>|
            nodes@.dom().contains(k) && #[trigger] below_dir(dir@, k) ==> exists|i: int|
                0 <= i < r@.len() && #[trigger] r@[i]@ == k,
        forall|i: int, j: int| 0 <= i < j < r@.len() ==> #[trigger] r@[i]@ != #[trigger] r@[j]@,
{
    let mut before = chars_of(dir);
    before.push('/');
    proof {
        reveal_strlit("/");
        assert(before@ =~= dir@ + "/"@);
    }
    let n = nodes.len();
    let ghost keys = nodes.keys();
    let mut out: Vec<String> = Vec::new();
    let mut i: usize = 0;
    while i < n
        invariant
            i <= n,
            n == keys.len(),
            keys == nodes.keys(),
            ascending(keys),
            before@ == dir@ + "/"@,
            forall|a: int|
                0 <= a < out@.len() ==> nodes@.dom().contains(#[trigger] out@[a]@) && below_dir(
                    dir@,
                    out@[a]@,
                ) && exists|j: int| 0 <= j < i && #[trigger] keys[j] == out@[a]@,
            forall|j: int|
                0 <= j < i && below_dir(dir@, #[trigger] keys[j]) ==> exists|a: int|
                    0 <= a < out@.len() && #[trigger] out@[a]@ == keys[j],
            forall|a: int, b: int|
                0 <= a < b < out@.len() ==> #[trigger] out@[a]@ != #[trigger] out@[b]@,
        decreases n - i,
    {
        let key = nodes.key(i);
        let ghost was = out@;
        let chars = chars_of(key.as_str());
        if starts_with(chars.as_slice(), before.as_slice()) {
            out.push(key.clone());
            proof {
                assert forall|a: int, b: int| 0 <= a < b < out@.len() implies #[trigger] out@[a]@
                    != #[trigger] out@[b]@ by {
                    assert(out@[a] == was[a]);
                    if b == was.len() {
                        let j = choose|j: int| 0 <= j < i && #[trigger] keys[j] == was[a]@;
                        assert(text_lt(keys[j], keys[i as int]));
                        lemma_text_irreflexive(keys[j]);
                    }
                }
            }
        }
        proof {
            assert forall|j: int| 0 <= j < i + 1 && below_dir(dir@, #[trigger] keys[j]) implies exists|
                a: int,
            | 0 <= a < out@.len() && #[trigger] out@[a]@ == keys[j] by {
                if j < i {
                    let a = choose|a: int| 0 <= a < was.len() && #[trigger] was[a]@ == keys[j];
                    assert(out@[a] == was[a]);
                } else {
                    assert(out@[out@.len() - 1]@ == keys[j]);
                }
            }
            assert forall|a: int| 0 <= a < out@.len() implies exists|j: int|
                0 <= j < i + 1 && #[trigger] keys[j] == (#[trigger] out@[a])@ by {
                if a < was.len() {
                    assert(out@[a] == was[a]);
                    let j = choose|j: int| 0 <= j < i && #[trigger] keys[j] == was[a]@;
                    assert(keys[j] == out@[a]@);
                } else {
                    assert(keys[i as int] == out@[a]@);
                }
            }
        }
        i = i + 1;
    }
    proof {
        assert forall|k: Seq<char>| nodes@.dom().contains(k) && #[trigger] below_dir(dir@, k) implies exists|
            a: int,
        | 0 <= a < out@.len() && #[trigger] out@[a]@ == k by {
            assert(keys.contains(k));
            let j = choose|j: int| 0 <= j < keys.len() && keys[j] == k;
            assert(below_dir(dir@, keys[j]));
        }
    }
    out
}

/// A path below `from`, carried to `to` and back.
proof fn lemma_carried(from: Seq<char>, to: Seq<char>, k: Seq<char>)
    requires
        below_dir(from, k),
    ensures
        below_dir(to, carried(from, to, k)),
        carried(to, from, carried(from, to, k)) == k,
        apart(from, to) && from != to ==> !below_dir(from, carried(from, to, k)),
{
    reveal_strlit("/");
    let n = from.len() as int;
    let c = carried(from, to, k);
    assert(k.subrange(0, n + 1) == from + "/"@);
    assert(k.take(n) =~= from) by {
        assert forall|i: int| 0 <= i < n implies k[i] == from[i] by {
            assert(k.subrange(0, n + 1)[i] == (from + "/"@)[i]);
        }
    }
    assert(k[n] == '/') by {
        assert(k.subrange(0, n + 1)[n] == (from + "/"@)[n]);
    }
    assert(c.subrange(0, to.len() as int + 1) =~= to + "/"@);
    assert(carried(to, from, c) =~= k);
    if apart(from, to) && from != to && below_dir(from, c) {
        let m = to.len() as int;
        assert(c.subrange(0, n + 1) == from + "/"@);
        assert forall|i: int| 0 <= i < n implies c[i] == from[i] by {
            assert(c.subrange(0, n + 1)[i] == (from + "/"@)[i]);
        }
        assert(c[n] == '/') by {
            assert(c.subrange(0, n + 1)[n] == (from + "/"@)[n]);
        }
        assert forall|i: int| 0 <= i < m implies c[i] == to[i] by {}
        assert(c[m] == '/');
        if n < m {
            assert(to.subrange(0, n + 1) =~= from + "/"@);
            assert(below_dir(from, to));
        } else if m < n {
            assert(from.subrange(0, m + 1) =~= to + "/"@);
            assert(below_dir(to, from));
        } else {
            assert(from =~= to);
        }
    }
}

/// The tree once the first `n` of the moved paths are at their new places.
spec fn partly_moved(
    tree: Map<Seq<char>, NodeModel>,
    from: Seq<char>,
    to: Seq<char>,
    moved: Seq<Seq<char>>,
    n: int,
) -> Map<Seq<char>, NodeModel> {
    Map::new(
        |k: Seq<char>|
            (tree.dom().contains(k) && !moved.take(n).contains(k)) || (below_dir(to, k)
                && moved.take(n).contains(carried(to, from, k))),
        |k: Seq<char>|
            if below_dir(to, k) && moved.take(n).contains(carried(to, from, k)) {
                tree[carried(to, from, k)]
            } else {
                tree[k]
            },
    )
}

/// One more path moved.
proof fn lemma_one_more_moved(
    tree: Map<Seq<char>, NodeModel>,
    from: Seq<char>,
    to: Seq<char>,
    moved: Seq<Seq<char>>,
    n: int,
)
    requires
        0 <= n < moved.len(),
        apart(from, to),
        from != to,
        forall|i: int|
            0 <= i < moved.len() ==> tree.dom().contains(#[trigger] moved[i]) && below_dir(from, moved[i]),
        forall|i: int, j: int| 0 <= i < j < moved.len() ==> #[trigger] moved[i] != #[trigger] moved[j],
    ensures
        ({
            let before = partly_moved(tree, from, to, moved, n);
            let k = moved[n];
            &&& before.dom().contains(k)
            &&& before[k] == tree[k]
            &&& partly_moved(tree, from, to, moved, n + 1) == before.remove(k).insert(
                carried(from, to, k),
                tree[k],
            )
        }),
{
    let before = partly_moved(tree, from, to, moved, n);
    let k = moved[n];
    let c = carried(from, to, k);
    let after = partly_moved(tree, from, to, moved, n + 1);
    let want = before.remove(k).insert(c, tree[k]);
    lemma_carried(from, to, k);
    assert(!moved.take(n).contains(k)) by {
        if moved.take(n).contains(k) {
            let j = choose|j: int| 0 <= j < moved.take(n).len() && moved.take(n)[j] == k;
            assert(moved[j] == k);
        }
    }
    assert(!below_dir(to, k)) by {
        if below_dir(to, k) {
            lemma_carried(to, from, k);
            reveal_strlit("/");
            let x = from.len() as int;
            let y = to.len() as int;
            assert forall|i: int| 0 <= i < x implies k[i] == from[i] by {
                assert(k.subrange(0, x + 1)[i] == (from + "/"@)[i]);
            }
            assert forall|i: int| 0 <= i < y implies k[i] == to[i] by {
                assert(k.subrange(0, y + 1)[i] == (to + "/"@)[i]);
            }
            assert(k[x] == '/') by {
                assert(k.subrange(0, x + 1)[x] == (from + "/"@)[x]);
            }
            assert(k[y] == '/') by {
                assert(k.subrange(0, y + 1)[y] == (to + "/"@)[y]);
            }
            if x < y {
                assert(to.subrange(0, x + 1) =~= from + "/"@);
            } else if y < x {
                assert(from.subrange(0, y + 1) =~= to + "/"@);
            } else {
                assert(from =~= to);
            }
        }
    }
    assert forall|x: Seq<char>| moved.take(n + 1).contains(x) <==> (moved.take(n).contains(x) || x == k) by {
        if moved.take(n + 1).contains(x) {
            let more = moved.take(n + 1);
            let j = choose|j: int| 0 <= j < more.len() && more[j] == x;
            if j < n {
                assert(moved.take(n)[j] == x);
            }
        }
        if moved.take(n).contains(x) {
            let j = choose|j: int| 0 <= j < moved.take(n).len() && moved.take(n)[j] == x;
            assert(moved.take(n + 1)[j] == x);
        }
        assert(moved.take(n + 1)[n] == k);
    }
    // a path below `to` comes from one place only
    assert forall|x: Seq<char>| below_dir(to, x) && carried(to, from, x) == k implies x == c by {
        lemma_carried(to, from, x);
    }
    assert forall|x: Seq<char>| after.dom().contains(x) <==> want.dom().contains(x) by {
        if x == c {
            assert(after.dom().contains(x));
        } else {
            if below_dir(to, x) {
                assert(carried(to, from, x) != k);
            }
        }
    }
    assert forall|x: Seq<char>| after.dom().contains(x) implies after[x] == want[x] by {
        if x != c && below_dir(to, x) {
            assert(carried(to, from, x) != k);
        }
    }
    assert(after =~= want);
}

/// Moves everything below `from` to below `to`.
fn move_below(nodes: &mut Tree, from: &str, to: &str)
    requires
        from@ != to@,
    ensures
        apart(from@, to@) ==> final(nodes)@ == below_moved(old(nodes)@, from@, to@),
{
    let moved = keys_below(nodes, from);
    let ghost tree = nodes@;
    let ghost all = crate::strings::texts(moved@);
    let ghost clear = apart(from@, to@);
    let skip: usize = chars_of(from).len();
    let mut i: usize = 0;
    proof {
        assert(all.take(0) =~= Seq::<Seq<char>>::empty());
        assert(partly_moved(tree, from@, to@, all, 0) =~= tree);
    }
    while i < moved.len()
        invariant
            i <= moved@.len(),
            from@ != to@,
            skip == from@.len(),
            all == crate::strings::texts(moved@),
            clear == apart(from@, to@),
            forall|j: int|
                0 <= j < all.len() ==> tree.dom().contains(#[trigger] all[j]) && below_dir(from@, all[j]),
            forall|a: int, b: int| 0 <= a < b < all.len() ==> #[trigger] all[a] != #[trigger] all[b],
            clear ==> nodes@ == partly_moved(tree, from@, to@, all, i as int),
        decreases moved@.len() - i,
    {
        let key = &moved[i];
        assert(all[i as int] == key@);
        proof {
            if clear {
                lemma_one_more_moved(tree, from@, to@, all, i as int);
            }
        }
        if let Some(node) = nodes.remove(key.as_str()) {
            let chars = chars_of(key.as_str());
            proof {
                assert(below_dir(from@, key@));
                reveal_strlit("/");
            }
            let tail = slice(chars.as_slice(), skip, chars.len());
            let mut place = to.to_owned();
            place.append(text_of(tail.as_slice()).as_str());
            assert(place@ =~= carried(from@, to@, key@));
            nodes.insert(place, node);
        }
        i = i + 1;
    }
    proof {
        if clear {
            assert(all.take(all.len() as int) =~= all);
            let done = partly_moved(tree, from@, to@, all, all.len() as int);
            let want = below_moved(tree, from@, to@);
            assert forall|k: Seq<char>| all.contains(k) <==> (tree.dom().contains(k) && below_dir(
                from@,
                k,
            )) by {
                if tree.dom().contains(k) && below_dir(from@, k) {
                    let j = choose|j: int| 0 <= j < moved@.len() && #[trigger] moved@[j]@ == k;
                    assert(all[j] == k);
                }
            }
            assert forall|k: Seq<char>| below_dir(to@, k) implies below_dir(
                from@,
                #[trigger] carried(to@, from@, k),
            ) by {
                lemma_carried(to@, from@, k);
            }
            assert forall|k: Seq<char>| done.dom().contains(k) <==> want.dom().contains(k) by {
                if below_dir(to@, k) {
                    assert(below_dir(from@, carried(to@, from@, k)));
                }
            }
            assert forall|k: Seq<char>| done.dom().contains(k) implies done[k] == want[k] by {
                if below_dir(to@, k) {
                    assert(below_dir(from@, carried(to@, from@, k)));
                }
            }
            assert(done =~= want);
        }
    }
}

/// The root directory itself.
pub open spec fn root_meta() -> MetaModel {
    MetaModel {
        kind: EntryKind::Dir,
        size: 0,
        mtime_ms: 0,
        mode: Some(0o755),
        file_id: None,
        link: None,
    }
}

/// What a root can do, knob by knob.
pub open spec fn caps_of(k: Knobs, c: VfsCaps) -> bool {
    &&& c.protocol@ == "fake"@
    &&& c.mtime_precision_ms == k.precision_ms
    &&& c.set_mtime == Support::unless_spec(k.no_set_mtime)
    &&& c.fsync == Support::unless_spec(k.no_fsync)
    &&& c.rename == Support::Yes
    &&& c.rename_overwrite == Support::unless_spec(k.no_rename_overwrite)
    &&& c.ranged_read == Support::unless_spec(k.no_ranged_read)
    &&& c.write_at == Support::unless_spec(k.no_write_at)
    &&& c.unix_mode == Support::unless_spec(k.no_unix_mode)
    &&& c.symlink == Support::unless_spec(k.no_symlink)
    &&& c.file_id == Support::No
    &&& c.free_space == Support::unless_spec(k.no_free_space)
    &&& c.read_back == Support::unless_spec(k.no_read_back)
    &&& c.medium == Medium::Unknown
    &&& !c.local_trash
    &&& c.case_sensitivity == if k.insens {
        CaseSense::Insensitive
    } else {
        CaseSense::Sensitive
    }
    &&& c.name_rules == NameRules::Unknown
    &&& c.max_parallel_streams == k.streams
}

impl Vfs for FakeVfs {
    type Read = FakeRead;

    type Staged = FakeStaged;

    fn caps(&self) -> (r: VfsCaps)
        ensures
            caps_of(self.knobs, r),
    {
        let k = &self.knobs;
        VfsCaps {
            protocol: "fake",
            mtime_precision_ms: k.precision_ms,
            set_mtime: Support::unless(k.no_set_mtime),
            fsync: Support::unless(k.no_fsync),
            rename: Support::Yes,
            rename_overwrite: Support::unless(k.no_rename_overwrite),
            ranged_read: Support::unless(k.no_ranged_read),
            write_at: Support::unless(k.no_write_at),
            unix_mode: Support::unless(k.no_unix_mode),
            symlink: Support::unless(k.no_symlink),
            file_id: Support::No,
            free_space: Support::unless(k.no_free_space),
            read_back: Support::unless(k.no_read_back),
            medium: Medium::Unknown,
            local_trash: false,
            case_sensitivity: if k.insens {
                CaseSense::Insensitive
            } else {
                CaseSense::Sensitive
            },
            name_rules: NameRules::Unknown,
            max_parallel_streams: k.streams,
        }
    }

    fn display(&self) -> (r: String)
        ensures
            r@ == self.phrase@,
    {
        self.phrase.clone()
    }

    fn identity(&self) -> (r: String)
        ensures
            r@ == self.phrase@,
    {
        self.phrase.clone()
    }

    fn connect(&mut self) -> (r: VfsResult<()>)
        ensures
            final(self).same_root(*old(self)),
            final(self).nodes == old(self).nodes,
            final(self).counters == old(self).counters,
            final(self).ops == old(self).nth(),
            match r {
                Ok(_) => !old(self).cut(),
                Err(e) => old(self).cut() && old(self).cut_error(e),
            },
    {
        self.gate()
    }

    fn stat(&mut self, rel: &str) -> (r: VfsResult<Option<VMeta>>)
        ensures
            final(self).same_root(*old(self)),
            final(self).nodes == old(self).nodes,
            final(self).ops == old(self).nth(),
            match r {
                Err(e) => old(self).cut() && old(self).cut_error(e) && final(self).counters
                    == old(self).counters,
                Ok(m) => {
                    &&& !old(self).cut()
                    &&& final(self).counters == (FakeCounters {
                        stat: old(self).counters.stat.wrapping_add(1),
                        ..old(self).counters
                    })
                    &&& if rel@.len() == 0 {
                        m matches Some(x) && x@ == root_meta()
                    } else {
                        match old(self).key_of(rel@) {
                            Some(k) => m matches Some(x) && x@ == told(
                                old(self).nodes@[k],
                                old(self).knobs.no_unix_mode,
                            ),
                            None => m is None,
                        }
                    }
                },
            },
    {
        match self.gate() {
            Ok(_) => {},
            Err(e) => {
                return Err(e);
            },
        }
        self.counters.stat = self.counters.stat.wrapping_add(1);
        if rel.unicode_len() == 0 {
            return Ok(
                Some(
                    VMeta {
                        kind: EntryKind::Dir,
                        size: 0,
                        mtime_ms: 0,
                        mode: Some(0o755),
                        file_id: None,
                        link: None,
                    },
                ),
            );
        }
        match self.key(rel) {
            Some(k) => match self.nodes.get(k.as_str()) {
                Some(n) => Ok(Some(meta_of(n, self.knobs.no_unix_mode))),
                None => Ok(None),
            },
            None => Ok(None),
        }
    }

    fn read_dir(&mut self, rel: &str) -> (r: VfsResult<Vec<VDirEntry>>)
        ensures
            final(self).same_root(*old(self)),
            final(self).nodes == old(self).nodes,
            final(self).ops == old(self).nth(),
            final(self).counters == if old(self).cut() {
                old(self).counters
            } else {
                FakeCounters {
                    read_dir: old(self).counters.read_dir.wrapping_add(1),
                    ..old(self).counters
                }
            },
            if old(self).cut() {
                r matches Err(e) && old(self).cut_error(e)
            } else if rel@.len() == 0 {
                r matches Ok(v) && is_listing(
                    old(self).nodes@,
                    Seq::empty(),
                    old(self).knobs.no_unix_mode,
                    listed(v@),
                )
            } else {
                match old(self).key_of(rel@) {
                    Some(k) => if old(self).nodes@[k].kind == EntryKind::Dir {
                        r matches Ok(v) && is_listing(
                            old(self).nodes@,
                            k,
                            old(self).knobs.no_unix_mode,
                            listed(v@),
                        )
                    } else {
                        r matches Err(e) && is_error(e, VfsErrorKind::Io, "not a directory: "@ + k)
                    },
                    None => r matches Err(e) && is_error(
                        e,
                        VfsErrorKind::NotFound,
                        "no such directory: "@ + rel@,
                    ),
                }
            },
    {
        match self.gate() {
            Ok(_) => {},
            Err(e) => {
                return Err(e);
            },
        }
        self.counters.read_dir = self.counters.read_dir.wrapping_add(1);
        if rel.unicode_len() == 0 {
            proof {
                assert(rel@ =~= Seq::<char>::empty());
            }
            return Ok(list(&self.nodes, rel, self.knobs.no_unix_mode));
        }
        match self.key(rel) {
            Some(k) => match self.nodes.get(k.as_str()) {
                Some(n) => if n.kind == EntryKind::Dir {
                    Ok(list(&self.nodes, k.as_str(), self.knobs.no_unix_mode))
                } else {
                    Err(error_on(VfsErrorKind::Io, "not a directory: ", k.as_str()))
                },
                None => Err(error_on(VfsErrorKind::NotFound, "no such directory: ", rel)),
            },
            None => Err(error_on(VfsErrorKind::NotFound, "no such directory: ", rel)),
        }
    }

    fn open_read(&mut self, rel: &str) -> (r: VfsResult<FakeRead>)
        ensures
            final(self).same_root(*old(self)),
            final(self).nodes == old(self).nodes,
            final(self).ops == old(self).nth(),
            final(self).counters == if old(self).cut() {
                old(self).counters
            } else {
                FakeCounters {
                    open_read: old(self).counters.open_read.wrapping_add(1),
                    ..old(self).counters
                }
            },
            if old(self).cut() {
                r matches Err(e) && old(self).cut_error(e)
            } else if old(self).fails_on(rel@) {
                r matches Err(e) && is_error(e, VfsErrorKind::Io, "injected read failure on "@ + rel@)
            } else {
                match old(self).key_of(rel@) {
                    Some(k) => r matches Ok(f) && f.data(old(self).seed@) == content_of(
                        old(self).nodes@[k],
                        old(self).seed@,
                        k,
                    ) && f.pos() == 0 && f.size() == old(self).nodes@[k].size && f.block()
                        == old(self).knobs.block_size,
                    None => r matches Err(e) && is_error(
                        e,
                        VfsErrorKind::NotFound,
                        "no such file: "@ + rel@,
                    ),
                }
            },
    {
        match self.gate() {
            Ok(_) => {},
            Err(e) => {
                return Err(e);
            },
        }
        self.counters.open_read = self.counters.open_read.wrapping_add(1);
        if self.read_fails(rel) {
            return Err(error_on(VfsErrorKind::Io, "injected read failure on ", rel));
        }
        match self.key(rel) {
            Some(k) => match self.nodes.get(k.as_str()) {
                Some(n) => {
                    let content = match &n.content {
                        Some(b) => Some(slice_to_vec(b.as_slice())),
                        None => None,
                    };
                    Ok(
                        FakeRead {
                            rel: k,
                            content,
                            size: n.size,
                            pos: 0,
                            block: self.knobs.block_size,
                        },
                    )
                },
                None => Err(error_on(VfsErrorKind::NotFound, "no such file: ", rel)),
            },
            None => Err(error_on(VfsErrorKind::NotFound, "no such file: ", rel)),
        }
    }

    fn read_range(&mut self, rel: &str, off: u64, len: u32) -> (r: VfsResult<Vec<u8>>)
        ensures
            final(self).same_root(*old(self)),
            final(self).nodes == old(self).nodes,
            final(self).ops == if old(self).knobs.no_ranged_read {
                old(self).ops
            } else {
                old(self).nth()
            },
            final(self).counters == if old(self).knobs.no_ranged_read || old(self).cut() {
                old(self).counters
            } else {
                FakeCounters {
                    read_range: old(self).counters.read_range.wrapping_add(1),
                    bytes_read: match r {
                        Ok(b) => old(self).counters.bytes_read.wrapping_add(b@.len() as u64),
                        Err(_) => old(self).counters.bytes_read,
                    },
                    ..old(self).counters
                }
            },
            if old(self).knobs.no_ranged_read {
                r matches Err(e) && is_error(
                    e,
                    VfsErrorKind::Unsupported,
                    "ranged reads disabled on this fake root"@,
                )
            } else if old(self).cut() {
                r matches Err(e) && old(self).cut_error(e)
            } else if old(self).fails_on(rel@) {
                r matches Err(e) && is_error(e, VfsErrorKind::Io, "injected read failure on "@ + rel@)
            } else {
                match old(self).key_of(rel@) {
                    Some(k) => {
                        let all = content_of(old(self).nodes@[k], old(self).seed@, k);
                        r matches Ok(b) && b@ == if off >= all.len() {
                            Seq::<u8>::empty()
                        } else {
                            all.subrange(off as int, off + at_most(len as int, all.len() - off))
                        }
                    },
                    None => r matches Err(e) && is_error(
                        e,
                        VfsErrorKind::NotFound,
                        "no such file: "@ + rel@,
                    ),
                }
            },
    {
        if self.knobs.no_ranged_read {
            return Err(VfsError::unsupported("ranged reads disabled on this fake root"));
        }
        match self.gate() {
            Ok(_) => {},
            Err(e) => {
                return Err(e);
            },
        }
        self.counters.read_range = self.counters.read_range.wrapping_add(1);
        if self.read_fails(rel) {
            return Err(error_on(VfsErrorKind::Io, "injected read failure on ", rel));
        }
        match self.key(rel) {
            Some(k) => match self.nodes.get(k.as_str()) {
                Some(n) => {
                    if off >= n.size {
                        let none: Vec<u8> = Vec::new();
                        assert(none@ =~= Seq::<u8>::empty());
                        assert(self.counters.bytes_read.wrapping_add(0) == self.counters.bytes_read);
                        return Ok(none);
                    }
                    let left: u64 = n.size - off;
                    let take: usize = if (len as u64) < left {
                        len as usize
                    } else {
                        left as usize
                    };
                    let bytes = file_bytes(
                        &n.content,
                        n.size,
                        self.seed.as_str(),
                        k.as_str(),
                        off,
                        take,
                    );
                    self.counters.bytes_read = self.counters.bytes_read.wrapping_add(take as u64);
                    Ok(bytes)
                },
                None => Err(error_on(VfsErrorKind::NotFound, "no such file: ", rel)),
            },
            None => Err(error_on(VfsErrorKind::NotFound, "no such file: ", rel)),
        }
    }

    fn read_link(&mut self, rel: &str) -> (r: VfsResult<String>)
        ensures
            final(self).same_root(*old(self)),
            final(self).nodes == old(self).nodes,
            final(self).counters == old(self).counters,
            final(self).ops == old(self).nth(),
            if old(self).cut() {
                r matches Err(e) && old(self).cut_error(e)
            } else {
                match old(self).key_of(rel@) {
                    Some(k) => match old(self).nodes@[k].link {
                        Some(target) => r matches Ok(t) && t@ == target,
                        None => r matches Err(e) && is_error(
                            e,
                            VfsErrorKind::Io,
                            "not a symlink: "@ + rel@,
                        ),
                    },
                    None => r matches Err(e) && is_error(
                        e,
                        VfsErrorKind::NotFound,
                        "no such link: "@ + rel@,
                    ),
                }
            },
    {
        match self.gate() {
            Ok(_) => {},
            Err(e) => {
                return Err(e);
            },
        }
        match self.key(rel) {
            Some(k) => match self.nodes.get(k.as_str()) {
                Some(n) => match &n.link {
                    Some(t) => Ok(t.clone()),
                    None => Err(error_on(VfsErrorKind::Io, "not a symlink: ", rel)),
                },
                None => Err(error_on(VfsErrorKind::NotFound, "no such link: ", rel)),
            },
            None => Err(error_on(VfsErrorKind::NotFound, "no such link: ", rel)),
        }
    }

    fn mkdir_all(&mut self, rel: &str) -> (r: VfsResult<()>)
        ensures
            final(self).same_root(*old(self)),
            final(self).counters == old(self).counters,
            final(self).ops == old(self).nth(),
            match r {
                Err(e) => old(self).cut() && old(self).cut_error(e) && final(self).nodes
                    == old(self).nodes,
                Ok(_) => {
                    let above = seeded(old(self).nodes@, rel@);
                    &&& !old(self).cut()
                    &&& final(self).nodes@ == if rel@.len() == 0 || above.dom().contains(rel@) {
                        above
                    } else {
                        above.insert(rel@, dir_model())
                    }
                },
            },
    {
        match self.gate() {
            Ok(_) => {},
            Err(e) => {
                return Err(e);
            },
        }
        seed_parents(&mut self.nodes, rel);
        if rel.unicode_len() > 0 && self.nodes.find(rel).is_none() {
            self.nodes.insert(rel.to_owned(), dir_node());
        }
        Ok(())
    }

    fn open_write(&mut self, rel: &str, hint: &WriteHint) -> (r: VfsResult<FakeStaged>)
        ensures
            final(self).same_root(*old(self)),
            final(self).nodes == old(self).nodes,
            final(self).ops == old(self).nth(),
            match r {
                Err(e) => old(self).cut() && old(self).cut_error(e) && final(self).counters
                    == old(self).counters,
                Ok(w) => {
                    &&& !old(self).cut()
                    &&& final(self).counters == (FakeCounters {
                        open_write: old(self).counters.open_write.wrapping_add(1),
                        ..old(self).counters
                    })
                    &&& w.rel@ == rel@
                    &&& w.hint == *hint
                    &&& w.buf@ == Seq::<u8>::empty()
                    &&& w.block == old(self).knobs.block_size
                    &&& w.no_fsync == old(self).knobs.no_fsync
                    &&& w.no_read_back == old(self).knobs.no_read_back
                },
            },
    {
        match self.gate() {
            Ok(_) => {},
            Err(e) => {
                return Err(e);
            },
        }
        self.counters.open_write = self.counters.open_write.wrapping_add(1);
        Ok(
            FakeStaged {
                rel: rel.to_owned(),
                hint: *hint,
                buf: Vec::new(),
                block: self.knobs.block_size,
                no_fsync: self.knobs.no_fsync,
                no_read_back: self.knobs.no_read_back,
            },
        )
    }

    fn rename(&mut self, from_rel: &str, to_rel: &str) -> (r: VfsResult<()>)
        ensures
            final(self).same_root(*old(self)),
            final(self).counters == old(self).counters,
            final(self).ops == old(self).nth(),
            r is Err ==> final(self).nodes == old(self).nodes,
            if old(self).cut() {
                r matches Err(e) && old(self).cut_error(e)
            } else {
                match old(self).key_of(from_rel@) {
                    Some(from) => if old(self).key_of(to_rel@) is Some && old(
                        self,
                    ).knobs.no_rename_overwrite {
                        r matches Err(e) && is_error(
                            e,
                            VfsErrorKind::AlreadyExists,
                            "destination exists and this root refuses rename-overwrite: "@ + to_rel@,
                        )
                    } else {
                        r is Ok && (apart(from, to_rel@) || old(self).nodes@[from].kind != EntryKind::Dir
                            ==> final(self).nodes@ == renamed(old(self).nodes@, from, to_rel@))
                    },
                    None => r matches Err(e) && is_error(
                        e,
                        VfsErrorKind::NotFound,
                        "no such path: "@ + from_rel@,
                    ),
                }
            },
    {
        match self.gate() {
            Ok(_) => {},
            Err(e) => {
                return Err(e);
            },
        }
        let from = match self.key(from_rel) {
            Some(k) => k,
            None => {
                return Err(error_on(VfsErrorKind::NotFound, "no such path: ", from_rel));
            },
        };
        if self.key(to_rel).is_some() && self.knobs.no_rename_overwrite {
            return Err(
                error_on(
                    VfsErrorKind::AlreadyExists,
                    "destination exists and this root refuses rename-overwrite: ",
                    to_rel,
                ),
            );
        }
        if let Some(node) = self.nodes.remove(from.as_str()) {
            let is_dir = node.kind == EntryKind::Dir;
            seed_parents(&mut self.nodes, to_rel);
            self.nodes.insert(to_rel.to_owned(), node);
            if is_dir && !same(from.as_str(), to_rel) {
                move_below(&mut self.nodes, from.as_str(), to_rel);
            }
        }
        Ok(())
    }

    fn remove_file(&mut self, rel: &str) -> (r: VfsResult<()>)
        ensures
            final(self).same_root(*old(self)),
            final(self).counters == old(self).counters,
            final(self).ops == old(self).nth(),
            r is Err ==> final(self).nodes == old(self).nodes,
            if old(self).cut() {
                r matches Err(e) && old(self).cut_error(e)
            } else {
                match old(self).key_of(rel@) {
                    Some(k) => r is Ok && final(self).nodes@ == old(self).nodes@.remove(k),
                    None => r matches Err(e) && is_error(
                        e,
                        VfsErrorKind::NotFound,
                        "no such file: "@ + rel@,
                    ),
                }
            },
    {
        match self.gate() {
            Ok(_) => {},
            Err(e) => {
                return Err(e);
            },
        }
        match self.key(rel) {
            Some(k) => {
                let _gone = self.nodes.remove(k.as_str());
                Ok(())
            },
            None => Err(error_on(VfsErrorKind::NotFound, "no such file: ", rel)),
        }
    }

    fn remove_dir(&mut self, rel: &str) -> (r: VfsResult<()>)
        ensures
            final(self).same_root(*old(self)),
            final(self).counters == old(self).counters,
            final(self).ops == old(self).nth(),
            r is Err ==> final(self).nodes == old(self).nodes,
            if old(self).cut() {
                r matches Err(e) && old(self).cut_error(e)
            } else {
                match old(self).key_of(rel@) {
                    Some(k) => if exists|x: Seq<char>|
                        old(self).nodes@.dom().contains(x) && #[trigger] below_dir(k, x) {
                        r matches Err(e) && is_error(
                            e,
                            VfsErrorKind::NotEmpty,
                            "directory not empty: "@ + k,
                        )
                    } else {
                        r is Ok && final(self).nodes@ == old(self).nodes@.remove(k)
                    },
                    None => r matches Err(e) && is_error(
                        e,
                        VfsErrorKind::NotFound,
                        "no such directory: "@ + rel@,
                    ),
                }
            },
    {
        match self.gate() {
            Ok(_) => {},
            Err(e) => {
                return Err(e);
            },
        }
        match self.key(rel) {
            Some(k) => {
                if any_below(&self.nodes, k.as_str()) {
                    return Err(
                        error_on(VfsErrorKind::NotEmpty, "directory not empty: ", k.as_str()),
                    );
                }
                let _gone = self.nodes.remove(k.as_str());
                Ok(())
            },
            None => Err(error_on(VfsErrorKind::NotFound, "no such directory: ", rel)),
        }
    }

    fn set_mtime(&mut self, rel: &str, mtime_ms: i64) -> (r: VfsResult<()>)
        ensures
            final(self).same_root(*old(self)),
            final(self).counters == old(self).counters,
            final(self).ops == if old(self).knobs.no_set_mtime {
                old(self).ops
            } else {
                old(self).nth()
            },
            r is Err ==> final(self).nodes == old(self).nodes,
            if old(self).knobs.no_set_mtime {
                r matches Err(e) && is_error(
                    e,
                    VfsErrorKind::Unsupported,
                    "set_mtime disabled on this fake root"@,
                )
            } else if old(self).cut() {
                r matches Err(e) && old(self).cut_error(e)
            } else {
                match old(self).key_of(rel@) {
                    Some(k) => r is Ok && final(self).nodes@ == old(self).nodes@.insert(
                        k,
                        (NodeModel {
                            mtime_ms: stored_ms(mtime_ms, old(self).knobs.precision_ms),
                            ..old(self).nodes@[k]
                        }),
                    ),
                    None => r matches Err(e) && is_error(
                        e,
                        VfsErrorKind::NotFound,
                        "no such path: "@ + rel@,
                    ),
                }
            },
    {
        if self.knobs.no_set_mtime {
            return Err(VfsError::unsupported("set_mtime disabled on this fake root"));
        }
        match self.gate() {
            Ok(_) => {},
            Err(e) => {
                return Err(e);
            },
        }
        match self.key(rel) {
            Some(k) => {
                let ghost before = self.nodes@;
                if let Some(mut node) = self.nodes.remove(k.as_str()) {
                    node.mtime_ms = trunc(mtime_ms, self.knobs.precision_ms);
                    let ghost key = k@;
                    let ghost now = node@;
                    self.nodes.insert(k, node);
                    assert(self.nodes@ =~= before.insert(key, now));
                }
                Ok(())
            },
            None => Err(error_on(VfsErrorKind::NotFound, "no such path: ", rel)),
        }
    }

    fn set_mode(&mut self, rel: &str, mode: u32) -> (r: VfsResult<()>)
        ensures
            final(self).same_root(*old(self)),
            final(self).counters == old(self).counters,
            final(self).ops == if old(self).knobs.no_unix_mode {
                old(self).ops
            } else {
                old(self).nth()
            },
            r is Err ==> final(self).nodes == old(self).nodes,
            if old(self).knobs.no_unix_mode {
                r matches Err(e) && is_error(
                    e,
                    VfsErrorKind::Unsupported,
                    "unix modes disabled on this fake root"@,
                )
            } else if old(self).cut() {
                r matches Err(e) && old(self).cut_error(e)
            } else {
                match old(self).key_of(rel@) {
                    Some(k) => r is Ok && final(self).nodes@ == old(self).nodes@.insert(
                        k,
                        (NodeModel { mode: Some(mode), ..old(self).nodes@[k] }),
                    ),
                    None => r matches Err(e) && is_error(
                        e,
                        VfsErrorKind::NotFound,
                        "no such path: "@ + rel@,
                    ),
                }
            },
    {
        if self.knobs.no_unix_mode {
            return Err(VfsError::unsupported("unix modes disabled on this fake root"));
        }
        match self.gate() {
            Ok(_) => {},
            Err(e) => {
                return Err(e);
            },
        }
        match self.key(rel) {
            Some(k) => {
                let ghost before = self.nodes@;
                if let Some(mut node) = self.nodes.remove(k.as_str()) {
                    node.mode = Some(mode);
                    let ghost key = k@;
                    let ghost now = node@;
                    self.nodes.insert(k, node);
                    assert(self.nodes@ =~= before.insert(key, now));
                }
                Ok(())
            },
            None => Err(error_on(VfsErrorKind::NotFound, "no such path: ", rel)),
        }
    }

    fn make_symlink(&mut self, rel: &str, target: &str) -> (r: VfsResult<()>)
        ensures
            final(self).same_root(*old(self)),
            final(self).counters == old(self).counters,
            final(self).ops == if old(self).knobs.no_symlink {
                old(self).ops
            } else {
                old(self).nth()
            },
            r is Err ==> final(self).nodes == old(self).nodes,
            if old(self).knobs.no_symlink {
                r matches Err(e) && is_error(
                    e,
                    VfsErrorKind::Unsupported,
                    "symlinks disabled on this fake root"@,
                )
            } else if old(self).cut() {
                r matches Err(e) && old(self).cut_error(e)
            } else {
                r is Ok && exists|now: u64| #[trigger]
                    clock_shows(now) && final(self).nodes@ == seeded(old(self).nodes@, rel@).insert(
                        rel@,
                        link_node(target@, now as i64),
                    )
            },
    {
        let read: u64 = now_ms();
        let now: i64 = clock_stamp(read);
        assert(clock_shows(read));
        self.make_symlink_at(rel, target, now)
    }

    fn free_space(&mut self) -> (r: VfsResult<Option<(u64, u64)>>)
        ensures
            final(self).same_root(*old(self)),
            final(self).nodes == old(self).nodes,
            final(self).counters == old(self).counters,
            final(self).ops == old(self).nth(),
            match r {
                Err(e) => old(self).cut() && old(self).cut_error(e),
                Ok(space) => !old(self).cut() && space == if old(self).knobs.no_free_space {
                    None
                } else {
                    Some((10737418240u64, 21474836480u64))
                },
            },
    {
        match self.gate() {
            Ok(_) => {},
            Err(e) => {
                return Err(e);
            },
        }
        if self.knobs.no_free_space {
            return Ok(None);
        }
        Ok(Some((10737418240, 21474836480)))
    }
}

/// A symlink that was made at that time.
pub open spec fn link_node(target: Seq<char>, now: i64) -> NodeModel {
    NodeModel {
        kind: EntryKind::Symlink,
        size: 0,
        mtime_ms: now,
        mode: None,
        link: Some(target),
        content: None,
    }
}

impl FakeVfs {
    /// Makes a symlink, where the clock says `now`.
    pub fn make_symlink_at(&mut self, rel: &str, target: &str, now: i64) -> (r: VfsResult<()>)
        ensures
            final(self).same_root(*old(self)),
            final(self).counters == old(self).counters,
            final(self).ops == if old(self).knobs.no_symlink {
                old(self).ops
            } else {
                old(self).nth()
            },
            r is Err ==> final(self).nodes == old(self).nodes,
            if old(self).knobs.no_symlink {
                r matches Err(e) && is_error(
                    e,
                    VfsErrorKind::Unsupported,
                    "symlinks disabled on this fake root"@,
                )
            } else if old(self).cut() {
                r matches Err(e) && old(self).cut_error(e)
            } else {
                r is Ok && final(self).nodes@ == seeded(old(self).nodes@, rel@).insert(
                    rel@,
                    link_node(target@, now),
                )
            },
    {
        if self.knobs.no_symlink {
            return Err(VfsError::unsupported("symlinks disabled on this fake root"));
        }
        match self.gate() {
            Ok(_) => {},
            Err(e) => {
                return Err(e);
            },
        }
        seed_parents(&mut self.nodes, rel);
        let node = FNode {
            kind: EntryKind::Symlink,
            size: 0,
            mtime_ms: now,
            mode: None,
            link: Some(target.to_owned()),
            content: None,
        };
        self.nodes.insert(rel.to_owned(), node);
        Ok(())
    }
}

/// The roots that were opened, one for each phrase: who opens a phrase again sees the same tree.
pub struct FakeRegistry {
    pub roots: Vec<FakeVfs>,
}

/// What opening a phrase makes of the roots, and at which place its root stands; `None` where the
/// phrase is refused.
pub open spec fn opened(
    before: Seq<FakeVfs>,
    raw: Seq<char>,
    after: Seq<FakeVfs>,
    place: Option<int>,
) -> bool {
    match place {
        Some(i) => {
            &&& 0 <= i < after.len()
            &&& after[i].phrase@ == raw
            &&& forall|j: int| 0 <= j < i ==> (#[trigger] before[j]).phrase@ != raw
            &&& if i < before.len() {
                after == before
            } else {
                &&& i == before.len()
                &&& after == before.push(after[i])
                &&& after[i].nodes@ == Map::<Seq<char>, NodeModel>::empty()
                &&& after[i].counters == uncounted()
                &&& after[i].ops == 0
                &&& phrase_of(raw) == Ok::<(Seq<char>, KnobModel), Seq<char>>(
                    (after[i].seed@, after[i].knobs@),
                )
            }
        },
        None => {
            &&& after == before
            &&& phrase_of(raw) is Err
            &&& forall|j: int| 0 <= j < before.len() ==> (#[trigger] before[j]).phrase@ != raw
        },
    }
}

/// No phrase stands for two roots.
pub open spec fn one_root_each(roots: Seq<FakeVfs>) -> bool {
    forall|i: int, j: int|
        0 <= i < j < roots.len() ==> (#[trigger] roots[i]).phrase@ != (#[trigger] roots[j]).phrase@
}

impl FakeRegistry {
    pub fn new() -> (r: FakeRegistry)
        ensures
            r.roots@.len() == 0,
            one_root_each(r.roots@),
    {
        FakeRegistry { roots: Vec::new() }
    }

    /// The place of the root of a phrase, which is made where it is missing.
    pub fn open(&mut self, raw: &str) -> (r: VfsResult<usize>)
        ensures
            opened(
                old(self).roots@,
                raw@,
                final(self).roots@,
                match r {
                    Ok(i) => Some(i as int),
                    Err(_) => None,
                },
            ),
            r matches Err(e) ==> (phrase_of(raw@) matches Err(text) && is_error(
                e,
                VfsErrorKind::Protocol,
                text,
            )),
            one_root_each(old(self).roots@) ==> one_root_each(final(self).roots@),
    {
        let mut i: usize = 0;
        while i < self.roots.len()
            invariant
                i <= self.roots@.len(),
                self.roots@ == old(self).roots@,
                forall|j: int| 0 <= j < i ==> (#[trigger] self.roots@[j]).phrase@ != raw@,
            decreases self.roots@.len() - i,
        {
            if same(self.roots[i].phrase.as_str(), raw) {
                return Ok(i);
            }
            i = i + 1;
        }
        match FakeVfs::from_phrase(raw) {
            Ok(v) => {
                self.roots.push(v);
                Ok(i)
            },
            Err(e) => Err(e),
        }
    }
}

/// Reads on to the end.
pub fn read_to_end(f: &mut FakeRead, root: &mut FakeVfs) -> (r: VfsResult<Vec<u8>>)
    ensures
        final(root).same_root(*old(root)),
        final(root).nodes == old(root).nodes,
        match r {
            Ok(b) => b@ == old(f).data(old(root).seed@).subrange(old(f).pos(), old(f).size())
                && final(f).pos() == old(f).size(),
            Err(e) => old(root).knobs.transient_after is Some && e.kind == VfsErrorKind::Transient,
        },
{
    let ghost data = f.data(root.seed@);
    let ghost start = f.pos();
    let ghost size = f.size();
    let mut step: usize = f.block_size();
    if step == 0 {
        step = 1;
    }
    let mut out: Vec<u8> = Vec::new();
    proof {
        use_type_invariant(&*f);
        assert(out@ =~= data.subrange(start, start));
    }
    loop
        invariant
            root.same_root(*old(root)),
            root.nodes == old(root).nodes,
            step > 0,
            data == old(f).data(old(root).seed@),
            start == old(f).pos(),
            size == old(f).size(),
            f.size() == size,
            0 <= start <= f.pos() <= size,
            data.len() == size,
            f.data(root.seed@) == data,
            out@ == data.subrange(start, f.pos()),
        ensures
            f.pos() == size,
        decreases size - f.pos(),
    {
        match f.read(root, step) {
            Ok(bytes) => {
                proof {
                    use_type_invariant(&*f);
                }
                if bytes.len() == 0 {
                    break;
                }
                push_bytes(&mut out, bytes.as_slice());
                assert(out@ =~= data.subrange(start, f.pos()));
            },
            Err(e) => {
                return Err(e);
            },
        }
    }
    Ok(out)
}

/// What was committed is what is read, and what is told of the file.
pub proof fn what_was_written_is_read(
    tree: Map<Seq<char>, NodeModel>,
    rel: Seq<char>,
    buf: Seq<u8>,
    hint: WriteHint,
    mtime_ms: i64,
    insens: bool,
    seed: Seq<char>,
)
    requires
        buf.len() <= u64::MAX,
    ensures
        ({
            let after = seeded(tree, rel).insert(rel, committed(buf, hint, mtime_ms));
            &&& resolved(after, insens, rel) == Some(rel)
            &&& content_of(after[rel], seed, rel) == buf
            &&& told(after[rel], false).size == buf.len()
            &&& told(after[rel], false).kind == EntryKind::File
            &&& told(after[rel], false).mtime_ms == mtime_ms
        }),
{
}

/// A commit changes no other file: what else was there is there as it was.
pub proof fn a_commit_touches_one_file(
    tree: Map<Seq<char>, NodeModel>,
    rel: Seq<char>,
    node: NodeModel,
    other: Seq<char>,
)
    requires
        other != rel,
        tree.dom().contains(other),
    ensures
        seeded(tree, rel).insert(rel, node).dom().contains(other),
        seeded(tree, rel).insert(rel, node)[other] == tree[other],
{
}

/// Two roots of one seed agree on every byte of a generated file.
pub proof fn one_seed_one_content(a: FakeVfs, b: FakeVfs, k: Seq<char>)
    requires
        a.seed@ == b.seed@,
        a.nodes@[k].content is None,
        b.nodes@[k].content is None,
        a.nodes@[k].size == b.nodes@[k].size,
    ensures
        content_of(a.nodes@[k], a.seed@, k) == content_of(b.nodes@[k], b.seed@, k),
{
}

/// A stored time is the wanted one, less than one granule down.
pub proof fn stored_times_are_within_a_granule(ms: i64, precision_ms: u32)
    requires
        precision_ms > 0,
        ms >= i64::MIN + precision_ms,
    ensures
        0 <= ms - stored_ms(ms, precision_ms) < precision_ms,
        precision_ms > 1 ==> stored_ms(ms, precision_ms) as int % precision_ms as int == 0,
        stored_ms(stored_ms(ms, precision_ms), precision_ms) == stored_ms(ms, precision_ms),
{
    if precision_ms > 1 {
        let p = precision_ms as int;
        let x = ms as int;
        vstd::arithmetic::div_mod::lemma_fundamental_div_mod(x, p);
        let q = x / p;
        assert(x - x % p == p * q);
        assert(p * q == q * p) by (nonlinear_arith);
        vstd::arithmetic::div_mod::lemma_mod_multiples_basic(q, p);
        assert(stored_ms(ms, precision_ms) == q * p);
    }
}

/// After a rename the entry stands at its new place and at no other.
pub proof fn a_rename_moves_the_entry(
    tree: Map<Seq<char>, NodeModel>,
    from: Seq<char>,
    to: Seq<char>,
)
    requires
        tree.dom().contains(from),
        from != to,
        apart(from, to),
        !on_the_way(split(to, '/'), split(to, '/').len() - 1, from),
    ensures
        renamed(tree, from, to).dom().contains(to),
        renamed(tree, from, to)[to] == tree[from],
        !renamed(tree, from, to).dom().contains(from),
{
    reveal_strlit("/");
    let moved = entry_moved(tree, from, to);
    assert(!moved.dom().contains(from));
    if tree[from].kind == EntryKind::Dir {
        assert(!below_dir(to, to)) by {
            if below_dir(to, to) {
                assert(to.subrange(0, to.len() as int + 1).len() == to.len() + 1);
            }
        }
    }
}

/// What lay below a renamed directory lies below its new place.
pub proof fn a_rename_takes_along_what_lies_below(
    tree: Map<Seq<char>, NodeModel>,
    from: Seq<char>,
    to: Seq<char>,
    k: Seq<char>,
)
    requires
        tree.dom().contains(from),
        tree[from].kind == EntryKind::Dir,
        tree.dom().contains(k),
        below_dir(from, k),
        from != to,
        apart(from, to),
    ensures
        renamed(tree, from, to).dom().contains(carried(from, to, k)),
        renamed(tree, from, to)[carried(from, to, k)] == tree[k],
{
    reveal_strlit("/");
    lemma_carried(from, to, k);
    let moved = entry_moved(tree, from, to);
    assert(k != from) by {
        if k == from {
            assert(k.subrange(0, from.len() as int + 1).len() == from.len() + 1);
        }
    }
    assert(k != to);
    assert(moved.dom().contains(k) && moved[k] == tree[k]);
}

/// A directory has one listing.
pub proof fn a_listing_is_unique(
    tree: Map<Seq<char>, NodeModel>,
    dir: Seq<char>,
    no_unix_mode: bool,
    a: Seq<(Seq<char>, MetaModel)>,
    b: Seq<(Seq<char>, MetaModel)>,
)
    requires
        is_listing(tree, dir, no_unix_mode, a),
        is_listing(tree, dir, no_unix_mode, b),
    ensures
        a == b,
{
    lemma_listing_within(tree, dir, no_unix_mode, a, b, a.len() as int);
    lemma_listing_within(tree, dir, no_unix_mode, b, a, b.len() as int);
    assert(a =~= b);
}

/// The first `n` entries of one listing are those of any other.
proof fn lemma_listing_within(
    tree: Map<Seq<char>, NodeModel>,
    dir: Seq<char>,
    no_unix_mode: bool,
    a: Seq<(Seq<char>, MetaModel)>,
    b: Seq<(Seq<char>, MetaModel)>,
    n: int,
)
    requires
        is_listing(tree, dir, no_unix_mode, a),
        is_listing(tree, dir, no_unix_mode, b),
        0 <= n <= a.len(),
    ensures
        n <= b.len(),
        forall|i: int| 0 <= i < n ==> #[trigger] a[i] == b[i],
    decreases n,
{
    if n > 0 {
        lemma_listing_within(tree, dir, no_unix_mode, a, b, n - 1);
        let m = n - 1;
        let name = a[m].0;
        assert(tree.dom().contains(inside(dir) + name));
        let j = choose|j: int| 0 <= j < b.len() && (#[trigger] b[j]).0 == name;
        if j < m {
            assert(a[j] == b[j]);
            lemma_text_irreflexive(name);
        }
        if j > m {
            let other = b[m].0;
            assert(tree.dom().contains(inside(dir) + other));
            let i = choose|i: int| 0 <= i < a.len() && (#[trigger] a[i]).0 == other;
            assert(text_lt(b[m].0, b[j].0));
            if i < m {
                assert(a[i] == b[i]);
                lemma_text_irreflexive(other);
            } else if i == m {
                lemma_text_irreflexive(other);
            } else {
                assert(text_lt(a[m].0, a[i].0));
                lemma_text_transitive(name, other, name);
                lemma_text_irreflexive(name);
            }
        }
        assert(b[m].0 == name);
        assert(a[m].1 == told(tree[inside(dir) + name], no_unix_mode));
        assert(b[m].1 == told(tree[inside(dir) + name], no_unix_mode));
        assert forall|i: int| 0 <= i < n implies #[trigger] a[i] == b[i] by {
            if i == m {
                assert(a[i].0 == b[i].0 && a[i].1 == b[i].1);
            }
        }
    }
}

/// Opening one phrase twice reaches one tree, whatever was done to the trees and whichever other
/// phrases were opened in between.
pub proof fn one_phrase_one_tree(
    before: Seq<FakeVfs>,
    raw: Seq<char>,
    first: Seq<FakeVfs>,
    i: int,
    between: Seq<FakeVfs>,
    second: Seq<FakeVfs>,
    j: Option<int>,
)
    requires
        opened(before, raw, first, Some(i)),
        first.len() <= between.len(),
        forall|k: int| 0 <= k < first.len() ==> (#[trigger] between[k]).phrase@ == first[k].phrase@,
        opened(between, raw, second, j),
    ensures
        j == Some(i),
        second == between,
{
    assert(between[i].phrase@ == raw);
    match j {
        Some(k) => {
            if k < i {
                assert(between[k].phrase@ == first[k].phrase@);
                assert(first[k] == before[k]);
            }
            if k > i {
                assert(between[i].phrase@ != raw);
            }
        },
        None => {},
    }
}

proof fn lemma_lineage(p: Seq<char>)
    requires
        forall|k: int| 0 <= k < split(p, '/').len() ==> (#[trigger] split(p, '/')[k]).len() > 0,
    ensures
        lineage(split(p, '/'), split(p, '/').len() as int) == p,
    decreases p.len(),
{
    let all = split(p, '/');
    let i = last_index(p, '/');
    lemma_last_index(p, '/');
    if i < 0 {
        lemma_split_whole(p, '/');
        assert(lineage(all, 0).len() == 0);
        assert(lineage(all, 1) == all[0]);
    } else {
        let front = p.take(i);
        let last = p.skip(i + 1);
        let up = split(front, '/');
        assert(p =~= front.push('/') + last);
        lemma_split_at(front, '/', last);
        assert(!carries(last, '/')) by {
            if carries(last, '/') {
                let k = choose|k: int| 0 <= k < last.len() && last[k] == '/';
                assert(p[i + 1 + k] == '/');
            }
        }
        lemma_split_whole(last, '/');
        assert(all =~= up.push(last));
        assert forall|k: int| 0 <= k < up.len() implies (#[trigger] up[k]).len() > 0 by {
            assert(all[k] == up[k]);
        }
        lemma_lineage(front);
        lemma_lineage_first(all, up, up.len() as int);
        crate::strings::lemma_split(front, '/');
        assert(front.len() > 0) by {
            if front.len() == 0 {
                lemma_split_whole(front, '/');
                assert(up[0].len() == 0);
            }
        }
        assert(lineage(all, all.len() as int) =~= p);
    }
}

proof fn lemma_lineage_first(a: Seq<Seq<char>>, b: Seq<Seq<char>>, n: int)
    requires
        0 <= n <= a.len(),
        n <= b.len(),
        forall|k: int| 0 <= k < n ==> a[k] == b[k],
    ensures
        lineage(a, n) == lineage(b, n),
    decreases n,
{
    if n > 0 {
        lemma_lineage_first(a, b, n - 1);
    }
}

/// What is seeded through one opening of a phrase is seen through another: the file with its size and
/// its time, rounded down to the granule of the root, and a directory for every path above it.
pub proof fn what_is_seeded_is_shared(
    first: Seq<FakeVfs>,
    i: int,
    rel: Seq<char>,
    size: u64,
    mtime_ms: i64,
    node: FakeVfs,
    second: Seq<FakeVfs>,
    j: Option<int>,
)
    requires
        0 <= i < first.len(),
        one_root_each(first),
        first[i].nodes@ == Map::<Seq<char>, NodeModel>::empty(),
        forall|k: int| 0 <= k < split(rel, '/').len() ==> (#[trigger] split(rel, '/')[k]).len() > 0,
        node.same_root(first[i]),
        node.nodes@ == seeded(first[i].nodes@, rel).insert(
            rel,
            (NodeModel {
                kind: EntryKind::File,
                size,
                mtime_ms: stored_ms(mtime_ms, first[i].knobs.precision_ms),
                mode: Some(0o644),
                link: None,
                content: None,
            }),
        ),
        first[i].knobs.precision_ms >= 1,
        mtime_ms >= i64::MIN + first[i].knobs.precision_ms,
        opened(first.update(i, node), first[i].phrase@, second, j),
    ensures
        j == Some(i),
        ({
            let b = second[i];
            &&& b.key_of(rel) == Some(rel)
            &&& told(b.nodes@[rel], b.knobs.no_unix_mode).kind == EntryKind::File
            &&& told(b.nodes@[rel], b.knobs.no_unix_mode).size == size
            &&& told(b.nodes@[rel], b.knobs.no_unix_mode).mtime_ms == mtime_ms - mtime_ms as int
                % first[i].knobs.precision_ms as int
            &&& forall|p: Seq<char>|
                p.len() > 0 && (#[trigger] p.push('/')).is_prefix_of(rel) ==> b.key_of(p) == Some(p)
                    && told(b.nodes@[p], b.knobs.no_unix_mode).kind == EntryKind::Dir
        }),
{
    let between = first.update(i, node);
    let raw = first[i].phrase@;
    assert(between[i].phrase@ == raw);
    assert(j == Some(i)) by {
        match j {
            Some(k) => {
                if k < i {
                    assert(between[k] == first[k]);
                }
                if k > i {
                    assert(between[i].phrase@ != raw);
                }
            },
            None => {},
        }
    }
    let b = second[i];
    assert(b == node);
    let segs = split(rel, '/');
    assert forall|p: Seq<char>| p.len() > 0 && (#[trigger] p.push('/')).is_prefix_of(rel) implies b.key_of(
        p,
    ) == Some(p) && told(b.nodes@[p], b.knobs.no_unix_mode).kind == EntryKind::Dir by {
        let rest = rel.skip(p.len() as int + 1);
        assert(rel =~= p.push('/') + rest) by {
            assert(p.push('/') =~= rel.subrange(0, p.len() as int + 1));
        }
        lemma_split_at(p, '/', rest);
        crate::strings::lemma_split(rest, '/');
        let up = split(p, '/');
        assert forall|k: int| 0 <= k < up.len() implies (#[trigger] up[k]).len() > 0 by {
            assert(segs[k] == up[k]);
        }
        lemma_lineage(p);
        lemma_lineage_first(segs, up, up.len() as int);
        crate::strings::lemma_split(p, '/');
        assert(lineage(segs, up.len() as int) == p);
        assert(on_the_way(segs, segs.len() - 1, p));
        assert(p != rel);
    }
    let q = first[i].knobs.precision_ms as int;
    if q > 1 {
        vstd::arithmetic::div_mod::lemma_mod_bound(mtime_ms as int, q);
    } else {
        assert(mtime_ms as int % 1 == 0);
    }
}

/// Some path of a finite set of paths comes after none of them.
proof fn lemma_a_first(s: Set<Seq<char>>) -> (k: Seq<char>)
    requires
        s.finite(),
        s.len() > 0,
    ensures
        s.contains(k),
        forall|o: Seq<char>| #[trigger] s.contains(o) ==> !text_lt(o, k),
    decreases s.len(),
{
    let a = s.choose();
    assert(s.contains(a));
    let rest = s.remove(a);
    if rest.len() == 0 {
        assert forall|o: Seq<char>| #[trigger] s.contains(o) implies !text_lt(o, a) by {
            if o != a {
                assert(rest.contains(o));
                assert(rest =~= Set::<Seq<char>>::empty());
            }
            lemma_text_irreflexive(a);
        }
        a
    } else {
        let b = lemma_a_first(rest);
        if text_lt(a, b) {
            assert forall|o: Seq<char>| #[trigger] s.contains(o) implies !text_lt(o, a) by {
                if o == a {
                    lemma_text_irreflexive(a);
                } else {
                    assert(rest.contains(o));
                    if text_lt(o, a) {
                        lemma_text_transitive(o, a, b);
                    }
                }
            }
            a
        } else {
            assert forall|o: Seq<char>| #[trigger] s.contains(o) implies !text_lt(o, b) by {
                if o != a {
                    assert(rest.contains(o));
                }
            }
            b
        }
    }
}

/// Where case is ignored, a path that is in the tree but for case stands for the first such path of the
/// tree.
pub proof fn a_path_is_found_but_for_case(tree: Map<Seq<char>, NodeModel>, rel: Seq<char>, k: Seq<char>)
    requires
        tree.dom().finite(),
        !tree.dom().contains(rel),
        folds_to(tree, rel, k),
    ensures
        resolved(tree, true, rel) matches Some(found) && first_fold(tree, rel, found),
{
    let s = tree.dom().filter(|o: Seq<char>| folds_to(tree, rel, o));
    assert(s.contains(k));
    vstd::set_lib::lemma_set_empty_equivalency_len(s);
    let first = lemma_a_first(s);
    assert forall|o: Seq<char>| #[trigger] folds_to(tree, rel, o) implies !text_lt(o, first) by {
        assert(s.contains(o));
    }
    assert(first_fold(tree, rel, first));
}

/// A rename leaves alone whatever is neither one of its two places nor below them.
pub proof fn a_rename_leaves_the_rest_alone(
    tree: Map<Seq<char>, NodeModel>,
    from: Seq<char>,
    to: Seq<char>,
    k: Seq<char>,
)
    requires
        tree.dom().contains(from),
        tree.dom().contains(k),
        k != from,
        k != to,
        !below_dir(from, k),
        !below_dir(to, k),
    ensures
        renamed(tree, from, to).dom().contains(k),
        renamed(tree, from, to)[k] == tree[k],
{
}

/// A phrase is taken exactly where every knob of it exists, whatever the others are turned to.
pub proof fn a_knob_that_does_not_exist_is_refused(parts: Seq<Seq<char>>)
    ensures
        knobs_of(parts) is Ok <==> forall|i: int|
            0 <= i < parts.len() && (#[trigger] parts[i]).len() > 0 ==> turned(
                calm(),
                knob_of(parts[i]).0,
                knob_of(parts[i]).1,
            ) is Some,
    decreases parts.len(),
{
    if parts.len() > 0 {
        let less = parts.drop_last();
        let at = parts.len() - 1;
        a_knob_that_does_not_exist_is_refused(less);
        assert(forall|i: int| 0 <= i < at ==> #[trigger] less[i] == parts[i]);
        if knobs_of(less) is Ok {
            assert forall|i: int| 0 <= i < at && (#[trigger] parts[i]).len() > 0 implies turned(
                calm(),
                knob_of(parts[i]).0,
                knob_of(parts[i]).1,
            ) is Some by {
                assert(less[i] == parts[i]);
            }
        } else {
            let i = choose|i: int|
                0 <= i < less.len() && (#[trigger] less[i]).len() > 0 && turned(
                    calm(),
                    knob_of(less[i]).0,
                    knob_of(less[i]).1,
                ) is None;
            assert(parts[i] == less[i]);
        }
    }
}

/// A file lands with the time that was wanted where the root can set times, to its granularity, and else
/// with the clock's; its size is that of its bytes, and its mode the one that was wanted.
pub proof fn a_file_lands_as_it_was_wanted(buf: Seq<u8>, hint: WriteHint, knobs: Knobs, now: i64)
    requires
        buf.len() <= u64::MAX,
        knobs.precision_ms == 1,
    ensures
        hint.mtime_ms matches Some(ms) ==> !knobs.no_set_mtime ==> landed_ms(hint, knobs, now) == ms,
        hint.mtime_ms is None || knobs.no_set_mtime ==> landed_ms(hint, knobs, now) == now,
        hint.mode matches Some(m) ==> committed(buf, hint, now).mode == Some(m),
        committed(buf, hint, now).size == buf.len(),
        committed(buf, hint, now).content == Some(buf),
{
}

/// The line is cut from the first operation beyond the limit on, and never where none was set.
pub proof fn the_line_is_cut_beyond_the_limit(f: FakeVfs)
    requires
        f.ops < u64::MAX,
    ensures
        f.knobs.transient_after is None ==> !f.cut(),
        f.knobs.transient_after matches Some(limit) ==> (f.cut() <==> f.ops >= limit),
{
}

/// Every directory that a path needs is there, and what was there before is as it was; nothing but
/// directories comes along.
pub proof fn the_directories_above_are_there(tree: Map<Seq<char>, NodeModel>, dir: Seq<char>, name: Seq<char>, k: Seq<char>)
    requires
        dir.len() > 0,
        forall|i: int| 0 <= i < split(dir, '/').len() ==> (#[trigger] split(dir, '/')[i]).len() > 0,
        !carries(name, '/'),
    ensures
        ({
            let after = seeded(tree, dir + seq!['/'] + name);
            &&& after.dom().contains(dir)
            &&& tree.dom().contains(k) ==> after.dom().contains(k) && after[k] == tree[k]
            &&& after.dom().contains(k) && !tree.dom().contains(k) ==> after[k].kind == EntryKind::Dir
        }),
{
    let rel = dir + seq!['/'] + name;
    let n = split(dir, '/').len() as int;
    assert(rel =~= dir.push('/') + name);
    assert forall|j: int| dir.len() < j < rel.len() implies rel[j] != '/' by {
        if rel[j] == '/' {
            assert(name[j - dir.len() - 1] == '/');
        }
    }
    crate::strings::lemma_last_index_is(rel, '/', dir.len() as int);
    crate::foundation::path::lemma_split_at_last(rel, '/');
    assert(rel.take(dir.len() as int) =~= dir);
    let segs = split(rel, '/');
    assert(segs == split(dir, '/').push(rel.skip(dir.len() as int + 1)));
    assert(segs.len() == n + 1);
    crate::strings::lemma_split(dir, '/');
    assert(segs.take(n) =~= split(dir, '/'));
    lemma_lineage_joins(segs, n);
    assert(lineage(segs, n) == dir);
    assert(on_the_way(segs, n, dir));
}

proof fn lemma_lineage_joins(segs: Seq<Seq<char>>, n: int)
    requires
        1 <= n <= segs.len(),
        forall|i: int| 0 <= i < n ==> (#[trigger] segs[i]).len() > 0,
    ensures
        lineage(segs, n) == crate::strings::join(segs.take(n), '/'),
        lineage(segs, n).len() > 0,
    decreases n,
{
    reveal_with_fuel(crate::strings::join, 2);
    if n == 1 {
        assert(lineage(segs, 0).len() == 0);
        assert(segs.take(1)[0] == segs[0]);
        assert(segs.take(1).len() == 1);
    } else {
        lemma_lineage_joins(segs, n - 1);
        lemma_join_grows(segs.take(n - 1), segs[n - 1]);
        assert(segs.take(n - 1).push(segs[n - 1]) =~= segs.take(n));
    }
}

proof fn lemma_join_grows(parts: Seq<Seq<char>>, x: Seq<char>)
    requires
        parts.len() > 0,
    ensures
        crate::strings::join(parts.push(x), '/') == crate::strings::join(parts, '/') + seq!['/'] + x,
    decreases parts.len(),
{
    reveal_with_fuel(crate::strings::join, 2);
    let more = parts.skip(1);
    if more.len() > 0 {
        lemma_join_grows(more, x);
        assert(parts.push(x).skip(1) =~= more.push(x));
        assert(crate::strings::join(parts.push(x), '/') =~= crate::strings::join(parts, '/') + seq!['/'] + x);
    } else {
        assert(parts.push(x).skip(1) =~= seq![x]);
        assert(crate::strings::join(parts.push(x), '/') =~= crate::strings::join(parts, '/') + seq!['/'] + x);
    }
}

} // verus!
