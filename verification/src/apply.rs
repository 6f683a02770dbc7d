//! Carrying a plan out, step by step.
//!
//! Nothing is touched by default. What lands is staged first: written, sealed and verified beside
//! its destination, and only then put in place of what was there. What is deleted or overwritten is
//! kept first. The decisions are made here; every deed on the filesystem is asked for one at a
//! time, and its outcome is reported back.
use vstd::prelude::*;
use crate::atomic::temp_rel;
use crate::compare::{op_models, Action, Op, OpModel, Side};
use crate::filter::{hits, FilterRules, PathFilter};
use crate::foundation::fmt::{bytes_text, human_bytes};
use crate::foundation::text::uppercase;
use crate::fs::vfs::error::{FailureModel, IoFailure, IoKind};
use crate::strings::{
    chars_of, join_texts, joined, push_all, replace_char, replaced, same, slice, text_of, texts,
    unslashed,
};
use crate::table::opt_text;

verus! {

pub struct ApplyOptions {
    pub dry_run: bool,
    /// Where deleted and overwritten files go; `None` is the central trash.
    pub trash: Option<String>,
    pub verbose: bool,
    /// What was written is read again and its hash compared, before it becomes the file.
    pub verify: bool,
    /// Keep what is replaced in the version store of its root.
    pub versioning: bool,
    pub fsync: bool,
    /// Tells what may go along with a directory.
    pub filter: Option<PathFilter>,
    /// Update large files by chunks.
    pub delta: bool,
}

impl Default for ApplyOptions {
    fn default() -> (r: ApplyOptions)
        ensures
            r.dry_run,
            r.trash is None,
            !r.verbose,
            !r.verify,
            !r.versioning,
            r.fsync,
            r.filter is None,
            !r.delta,
    {
        ApplyOptions {
            dry_run: true,
            trash: None,
            verbose: false,
            verify: false,
            versioning: false,
            fsync: true,
            filter: None,
            delta: false,
        }
    }
}

/// One thing to be done to the filesystem. The destination is the step's path on the step's side;
/// the source is the same path on the other side, or for a move the place it comes from.
#[derive(Clone, Copy, Debug, PartialEq, Eq, Structural)]
pub enum Deed {
    /// Make the directories above the destination.
    Parents,
    /// Look whether the destination exists, without following a link.
    LinkLook,
    /// Keep what a symlink is about to replace.
    LinkKeep,
    /// Make the symlink.
    Link,
    /// Begin a staged file beside the destination.
    Stage,
    DeltaLook,
    /// Fill the staged file from the old content and the changed chunks, where that pays.
    Delta,
    /// Fill the staged file with the whole source.
    Fill,
    /// Flush and close the staged file.
    Seal,
    /// Hash the staged file.
    Hash,
    /// Give the staged file this modification time.
    Stamp(i64),
    /// Give the staged file the source's modification time.
    StampLikeSource,
    /// Give the staged file these permission bits.
    Mode(u32),
    CommitLook,
    /// Keep what is about to be replaced, with the source at hand.
    Keep,
    /// Put the staged file in place of the destination.
    Commit,
    /// Read the modification time of the destination.
    ReadBack,
    /// Give the destination these permission bits.
    Chmod(u32),
    /// Rename the source of a move to its destination.
    Rename,
    MoveStage,
    MoveFill,
    MoveSeal,
    /// Give the staged file the modification time of the move's source, if it can be read.
    MoveStamp,
    MoveCommit,
    /// Remove the source of a move.
    MoveClean,
    DeleteLook,
    /// Keep what is deleted: this takes it away.
    DeleteKeep,
    /// Remove the directory, if it is empty.
    RemoveDir,
    /// List every file below the directory.
    Walk,
    /// Remove the directory and all that is in it.
    RemoveTree,
}

/// How a deed came out.
pub enum Reply {
    Done,
    Failed(IoFailure),
    Found(bool),
    /// Bytes written and bytes in all; `None` where a delta does not pay.
    Patched(Option<(u64, u64)>),
    Hashed(String),
    Time(Option<i64>),
    /// Paths below a directory, relative to it.
    Files(Vec<String>),
}

pub enum ReplyModel {
    Done,
    Failed(FailureModel),
    Found(bool),
    Patched(Option<(u64, u64)>),
    Hashed(Seq<char>),
    Time(Option<i64>),
    Files(Seq<Seq<char>>),
}

impl View for Reply {
    type V = ReplyModel;

    open spec fn view(&self) -> ReplyModel {
        match *self {
            Reply::Done => ReplyModel::Done,
            Reply::Failed(e) => ReplyModel::Failed(e@),
            Reply::Found(b) => ReplyModel::Found(b),
            Reply::Patched(p) => ReplyModel::Patched(p),
            Reply::Hashed(h) => ReplyModel::Hashed(h@),
            Reply::Time(t) => ReplyModel::Time(t),
            Reply::Files(v) => ReplyModel::Files(texts(v@)),
        }
    }
}

/// The reply is one that the deed can have.
pub open spec fn answers(deed: Deed, reply: ReplyModel) -> bool {
    match deed {
        Deed::LinkLook | Deed::DeltaLook | Deed::CommitLook | Deed::DeleteLook => reply is Found,
        Deed::Delta => reply is Patched || reply is Failed,
        Deed::Hash => reply is Hashed || reply is Failed,
        Deed::Stamp(_) | Deed::MoveStamp => reply is Done,
        Deed::StampLikeSource | Deed::ReadBack => reply is Time,
        Deed::Walk => reply is Files,
        _ => reply is Done || reply is Failed,
    }
}

/// What a step is at: the deed that was asked for, and the time that the file is to have.
#[derive(Clone, Copy, Debug, PartialEq, Eq, Structural)]
pub struct OpRun {
    pub deed: Deed,
    pub intended: Option<i64>,
}

/// How a step goes on. A step that is over may leave a file whose time is not the wanted one.
pub enum Next {
    Do(OpRun),
    Over(Result<Option<(i64, i64)>, IoFailure>),
}

pub enum NextModel {
    Do(OpRun),
    Over(Result<Option<(i64, i64)>, FailureModel>),
}

impl View for Next {
    type V = NextModel;

    open spec fn view(&self) -> NextModel {
        match *self {
            Next::Do(r) => NextModel::Do(r),
            Next::Over(Ok(t)) => NextModel::Over(Ok(t)),
            Next::Over(Err(e)) => NextModel::Over(Err(e@)),
        }
    }
}

pub open spec fn go(deed: Deed, intended: Option<i64>) -> NextModel {
    NextModel::Do(OpRun { deed, intended })
}

pub open spec fn fine() -> NextModel {
    NextModel::Over(Ok(None))
}

pub open spec fn broken(kind: IoKind, message: Seq<char>) -> NextModel {
    NextModel::Over(Err(FailureModel { kind, raw: None, message }))
}

fn proceed(deed: Deed, intended: Option<i64>) -> (r: Next)
    ensures
        r@ == go(deed, intended),
{
    Next::Do(OpRun { deed, intended })
}

fn well() -> (r: Next)
    ensures
        r@ == fine(),
{
    Next::Over(Ok(None))
}

/// The first deed of a step.
pub open spec fn first(op: OpModel) -> NextModel {
    match op.action {
        Action::Copy | Action::Update | Action::Move => go(Deed::Parents, None),
        Action::Chmod => match op.mode {
            Some(m) => go(Deed::Chmod(m), None),
            None => broken(IoKind::InvalidInput, "chmod op without mode"@),
        },
        Action::Delete => go(Deed::DeleteLook, None),
        Action::DeleteDir => go(Deed::RemoveDir, None),
        Action::Conflict | Action::Note => fine(),
    }
}

pub fn begin(op: &Op) -> (r: Next)
    ensures
        r@ == first(op@),
{
    match op.action {
        Action::Copy | Action::Update | Action::Move => proceed(Deed::Parents, None),
        Action::Chmod => match op.mode {
            Some(m) => proceed(Deed::Chmod(m), None),
            None => Next::Over(
                Err(IoFailure::new(IoKind::InvalidInput, "chmod op without mode")),
            ),
        },
        Action::Delete => proceed(Deed::DeleteLook, None),
        Action::DeleteDir => proceed(Deed::RemoveDir, None),
        Action::Conflict | Action::Note => well(),
    }
}

/// The table path of a file inside a directory.
pub open spec fn child_rel(dir: Seq<char>, inner: Seq<char>) -> Seq<char> {
    unslashed(dir) + "/"@ + replaced(inner, '\\', '/')
}

pub open spec fn child_rels(dir: Seq<char>, inner: Seq<Seq<char>>) -> Seq<Seq<char>> {
    Seq::new(inner.len(), |i: int| child_rel(dir, inner[i]))
}

/// The file may go along with its directory.
pub open spec fn expendable(rules: Option<FilterRules>, rel: Seq<char>) -> bool {
    rules matches Some(r) && (temp_rel(rel) || hits(r.deletable, uppercase(rel)))
}

pub open spec fn rules_of(filter: Option<PathFilter>) -> Option<FilterRules> {
    match filter {
        Some(f) => Some(f@),
        None => None,
    }
}

/// Every file left in a directory may go along with it.
pub open spec fn all_expendable(rules: Option<FilterRules>, rels: Seq<Seq<char>>) -> bool {
    forall|i: int| 0 <= i < rels.len() ==> expendable(rules, #[trigger] rels[i])
}

/// At most the first five.
pub open spec fn sample_of(rels: Seq<Seq<char>>) -> Seq<Seq<char>> {
    if rels.len() < 5 {
        rels
    } else {
        rels.take(5)
    }
}

pub open spec fn kept_text(rels: Seq<Seq<char>>) -> Seq<char> {
    "directory not empty, kept: "@ + joined(sample_of(rels), ", "@)
        + " (protected by filters or unknown to the plan). Add them to `deletable` in the job to have them removed with the directory."@
}

fn child_path(dir: &str, inner: &str) -> (r: String)
    ensures
        r@ == child_rel(dir@, inner@),
{
    let d = chars_of(dir);
    let mut n: usize = d.len();
    assert(d@.take(n as int) =~= d@);
    while n > 0 && d[n - 1] == '/'
        invariant
            n <= d@.len(),
            unslashed(d@) == unslashed(d@.take(n as int)),
        decreases n,
    {
        assert(d@.take(n as int).drop_last() =~= d@.take(n as int - 1));
        n = n - 1;
    }
    let mut out = slice(d.as_slice(), 0, n);
    assert(out@ =~= d@.take(n as int));
    let ghost base = out@;
    out.push('/');
    let tail = replace_char(chars_of(inner).as_slice(), '\\', '/');
    push_all(&mut out, tail.as_slice());
    proof {
        reveal_strlit("/");
        assert(base == unslashed(dir@));
        assert(out@ =~= child_rel(dir@, inner@));
    }
    text_of(out.as_slice())
}

fn may_go(filter: &Option<PathFilter>, rel: &str) -> (r: bool)
    ensures
        r == expendable(rules_of(*filter), rel@),
{
    match filter {
        Some(f) => f.is_deletable(rel),
        None => false,
    }
}

/// What becomes of a directory that was not empty: it goes where everything left in it may go,
/// else it is kept, and it is said what was found.
pub fn weigh_leftovers(dir: &str, inner: &Vec<String>, filter: &Option<PathFilter>) -> (r: Option<
    IoFailure,
>)
    ensures
        ({
            let rules = rules_of(*filter);
            let rels = child_rels(dir@, texts(inner@));
            match r {
                None => all_expendable(rules, rels),
                Some(e) => !all_expendable(rules, rels) && e.kind == IoKind::DirectoryNotEmpty && e.raw
                    is None && e.message@ == kept_text(rels),
            }
        }),
{
    let ghost rules = rules_of(*filter);
    let ghost rels = child_rels(dir@, texts(inner@));
    let mut sample: Vec<String> = Vec::new();
    let mut all = true;
    let mut i: usize = 0;
    assert(texts(sample@) =~= rels.take(0));
    while i < inner.len()
        invariant
            i <= inner@.len(),
            rels == child_rels(dir@, texts(inner@)),
            rules == rules_of(*filter),
            texts(sample@) == rels.take(
                if i < 5 {
                    i as int
                } else {
                    5
                },
            ),
            all <==> forall|j: int| 0 <= j < i ==> expendable(rules, #[trigger] rels[j]),
        decreases inner@.len() - i,
    {
        let rel = child_path(dir, inner[i].as_str());
        assert(rel@ == rels[i as int]);
        if !may_go(filter, rel.as_str()) {
            assert(!expendable(rules, rels[i as int]));
            all = false;
        }
        if sample.len() < 5 {
            proof {
                assert(sample@.len() == texts(sample@).len());
                assert(texts(sample@.push(rel)) =~= rels.take(i as int + 1));
            }
            sample.push(rel);
        } else {
            assert(sample@.len() == texts(sample@).len());
        }
        i = i + 1;
    }
    if all {
        return None;
    }
    assert(texts(sample@) =~= sample_of(rels));
    let mut m = "directory not empty, kept: ".to_owned();
    m.append(join_texts(&sample, ", ").as_str());
    m.append(
        " (protected by filters or unknown to the plan). Add them to `deletable` in the job to have them removed with the directory.",
    );
    Some(IoFailure { kind: IoKind::DirectoryNotEmpty, raw: None, message: m })
}

/// What comes once the staged file is sealed and found good.
pub open spec fn stamped(op: OpModel) -> NextModel {
    match op.mtime_ms {
        Some(mt) => go(Deed::Stamp(mt), Some(mt)),
        None => go(Deed::StampLikeSource, None),
    }
}

fn stamp(op: &Op) -> (r: Next)
    ensures
        r@ == stamped(op@),
{
    match op.mtime_ms {
        Some(mt) => proceed(Deed::Stamp(mt), Some(mt)),
        None => proceed(Deed::StampLikeSource, None),
    }
}

/// What comes once the staged file has its time.
pub open spec fn moded(op: OpModel, intended: Option<i64>) -> NextModel {
    match op.mode {
        Some(m) => go(Deed::Mode(m), intended),
        None => go(Deed::CommitLook, intended),
    }
}

fn set_mode(op: &Op, intended: Option<i64>) -> (r: Next)
    ensures
        r@ == moded(op@, intended),
{
    match op.mode {
        Some(m) => proceed(Deed::Mode(m), intended),
        None => proceed(Deed::CommitLook, intended),
    }
}

/// The failure says that a directory is not empty.
pub open spec fn says_not_empty(e: FailureModel) -> bool {
    e.kind == IoKind::DirectoryNotEmpty || e.raw == Some(145i32) || e.raw == Some(39i32)
}

/// Where a deed went well.
pub open spec fn onward(op: OpModel, opt: ApplyOptions, run: OpRun) -> NextModel {
    match run.deed {
        Deed::Parents => if op.action == Action::Move {
            go(Deed::Rename, None)
        } else if op.link is Some {
            go(Deed::LinkLook, None)
        } else {
            go(Deed::Stage, None)
        },
        Deed::LinkKeep => go(Deed::Link, None),
        Deed::Stage => if opt.delta && op.action == Action::Update {
            go(Deed::DeltaLook, None)
        } else {
            go(Deed::Fill, None)
        },
        Deed::Fill => go(Deed::Seal, None),
        Deed::Seal => if opt.verify && op.hash is Some {
            go(Deed::Hash, None)
        } else {
            stamped(op)
        },
        Deed::Stamp(_) => moded(op, run.intended),
        Deed::Mode(_) => go(Deed::CommitLook, run.intended),
        Deed::Keep => go(Deed::Commit, run.intended),
        Deed::Commit => if run.intended is Some {
            go(Deed::ReadBack, run.intended)
        } else {
            fine()
        },
        Deed::MoveStage => go(Deed::MoveFill, None),
        Deed::MoveFill => go(Deed::MoveSeal, None),
        Deed::MoveSeal => go(Deed::MoveStamp, None),
        Deed::MoveStamp => go(Deed::MoveCommit, None),
        Deed::MoveCommit => go(Deed::MoveClean, None),
        _ => fine(),
    }
}

fn carry_on(op: &Op, opt: &ApplyOptions, run: OpRun) -> (r: Next)
    ensures
        r@ == onward(op@, *opt, run),
{
    match run.deed {
        Deed::Parents => if op.action == Action::Move {
            proceed(Deed::Rename, None)
        } else if op.link.is_some() {
            proceed(Deed::LinkLook, None)
        } else {
            proceed(Deed::Stage, None)
        },
        Deed::LinkKeep => proceed(Deed::Link, None),
        Deed::Stage => if opt.delta && op.action == Action::Update {
            proceed(Deed::DeltaLook, None)
        } else {
            proceed(Deed::Fill, None)
        },
        Deed::Fill => proceed(Deed::Seal, None),
        Deed::Seal => if opt.verify && op.hash.is_some() {
            proceed(Deed::Hash, None)
        } else {
            stamp(op)
        },
        Deed::Stamp(_) => set_mode(op, run.intended),
        Deed::Mode(_) => proceed(Deed::CommitLook, run.intended),
        Deed::Keep => proceed(Deed::Commit, run.intended),
        Deed::Commit => if run.intended.is_some() {
            proceed(Deed::ReadBack, run.intended)
        } else {
            well()
        },
        Deed::MoveStage => proceed(Deed::MoveFill, None),
        Deed::MoveFill => proceed(Deed::MoveSeal, None),
        Deed::MoveSeal => proceed(Deed::MoveStamp, None),
        Deed::MoveStamp => proceed(Deed::MoveCommit, None),
        Deed::MoveCommit => proceed(Deed::MoveClean, None),
        _ => well(),
    }
}

/// Where a look was taken at the destination.
pub open spec fn looked(run: OpRun, found: bool) -> NextModel {
    match run.deed {
        Deed::LinkLook => if found {
            go(Deed::LinkKeep, None)
        } else {
            go(Deed::Link, None)
        },
        Deed::DeltaLook => if found {
            go(Deed::Delta, None)
        } else {
            go(Deed::Fill, None)
        },
        Deed::CommitLook => if found {
            go(Deed::Keep, run.intended)
        } else {
            go(Deed::Commit, run.intended)
        },
        _ => if found {
            go(Deed::DeleteKeep, None)
        } else {
            fine()
        },
    }
}

/// How a step goes on after a deed.
pub open spec fn after(op: OpModel, opt: ApplyOptions, run: OpRun, reply: ReplyModel) -> NextModel {
    match reply {
        ReplyModel::Done => onward(op, opt, run),
        ReplyModel::Failed(e) => match run.deed {
            // another volume, mostly: the same through a staged file
            Deed::Rename => go(Deed::MoveStage, None),
            Deed::RemoveDir => if e.kind == IoKind::NotFound {
                fine()
            } else if says_not_empty(e) {
                go(Deed::Walk, None)
            } else {
                NextModel::Over(Err(e))
            },
            _ => NextModel::Over(Err(e)),
        },
        ReplyModel::Found(found) => looked(run, found),
        ReplyModel::Patched(Some(_)) => go(Deed::Seal, None),
        ReplyModel::Patched(None) => go(Deed::Fill, None),
        ReplyModel::Hashed(got) => if op.hash == Some(got) {
            stamped(op)
        } else {
            broken(
                IoKind::InvalidData,
                "verify failed before commit: expected "@ + op.hash->0 + ", got "@ + got,
            )
        },
        ReplyModel::Time(t) => match run.deed {
            Deed::StampLikeSource => moded(op, t),
            _ => NextModel::Over(
                Ok(
                    match (t, run.intended) {
                        (Some(got), Some(want)) => if got != want {
                            Some((got, want))
                        } else {
                            None
                        },
                        _ => None,
                    },
                ),
            ),
        },
        ReplyModel::Files(inner) => {
            let rels = child_rels(op.path, inner);
            if all_expendable(rules_of(opt.filter), rels) {
                go(Deed::RemoveTree, None)
            } else {
                broken(IoKind::DirectoryNotEmpty, kept_text(rels))
            }
        },
    }
}

/// The next deed of a step, or how it ended.
pub fn step_on(op: &Op, opt: &ApplyOptions, run: OpRun, reply: Reply) -> (r: Next)
    requires
        answers(run.deed, reply@),
        run.deed == Deed::Hash ==> op.hash is Some,
    ensures
        r@ == after(op@, *opt, run, reply@),
{
    match reply {
        Reply::Done => carry_on(op, opt, run),
        Reply::Failed(e) => match run.deed {
            Deed::Rename => proceed(Deed::MoveStage, None),
            Deed::RemoveDir => {
                if e.kind == IoKind::NotFound {
                    return well();
                }
                let numbered = match e.raw {
                    Some(n) => n == 145 || n == 39,
                    None => false,
                };
                if e.kind == IoKind::DirectoryNotEmpty || numbered {
                    proceed(Deed::Walk, None)
                } else {
                    Next::Over(Err(e))
                }
            },
            _ => Next::Over(Err(e)),
        },
        Reply::Found(found) => match run.deed {
            Deed::LinkLook => if found {
                proceed(Deed::LinkKeep, None)
            } else {
                proceed(Deed::Link, None)
            },
            Deed::DeltaLook => if found {
                proceed(Deed::Delta, None)
            } else {
                proceed(Deed::Fill, None)
            },
            Deed::CommitLook => if found {
                proceed(Deed::Keep, run.intended)
            } else {
                proceed(Deed::Commit, run.intended)
            },
            _ => if found {
                proceed(Deed::DeleteKeep, None)
            } else {
                well()
            },
        },
        Reply::Patched(Some(_)) => proceed(Deed::Seal, None),
        Reply::Patched(None) => proceed(Deed::Fill, None),
        Reply::Hashed(got) => match &op.hash {
            Some(want) => if same(got.as_str(), want.as_str()) {
                stamp(op)
            } else {
                let mut m = "verify failed before commit: expected ".to_owned();
                m.append(want.as_str());
                m.append(", got ");
                m.append(got.as_str());
                Next::Over(Err(IoFailure { kind: IoKind::InvalidData, raw: None, message: m }))
            },
            None => well(),
        },
        Reply::Time(t) => match run.deed {
            Deed::StampLikeSource => set_mode(op, t),
            _ => match (t, run.intended) {
                (Some(got), Some(want)) => if got != want {
                    Next::Over(Ok(Some((got, want))))
                } else {
                    well()
                },
                _ => well(),
            },
        },
        Reply::Files(inner) => match weigh_leftovers(op.path.as_str(), &inner, &opt.filter) {
            None => proceed(Deed::RemoveTree, None),
            Some(e) => Next::Over(Err(e)),
        },
    }
}

/// A line for the user, and whether it is an error.
pub struct Line {
    pub error: bool,
    pub text: String,
}

pub open spec fn line_models(v: Seq<Line>) -> Seq<(bool, Seq<char>)> {
    Seq::new(v.len(), |i: int| (v[i].error, v[i].text@))
}

/// A file whose stored time is not the one it was given: the next scan takes one for the other.
pub struct MtimeFix {
    pub source: bool,
    pub path: String,
    pub ondisk: i64,
    pub intended: i64,
}

pub struct FixModel {
    pub source: bool,
    pub path: Seq<char>,
    pub ondisk: i64,
    pub intended: i64,
}

impl View for MtimeFix {
    type V = FixModel;

    open spec fn view(&self) -> FixModel {
        FixModel {
            source: self.source,
            path: self.path@,
            ondisk: self.ondisk,
            intended: self.intended,
        }
    }
}

pub open spec fn fix_models(v: Seq<MtimeFix>) -> Seq<FixModel> {
    Seq::new(v.len(), |i: int| v[i]@)
}

/// How many steps came out how.
#[derive(Clone, Copy, Debug, PartialEq, Eq, Structural)]
pub struct Tally {
    pub done: u64,
    pub skipped: u64,
    pub errors: u64,
}

/// A plan that is being carried out.
pub struct Apply {
    pub ops: Vec<Op>,
    pub opt: ApplyOptions,
    /// The step at hand.
    pub at: usize,
    /// What the step at hand is waiting for; `None` at the end.
    pub run: Option<OpRun>,
    pub tally: Tally,
    pub fixes: Vec<MtimeFix>,
    /// Bytes that were not written again.
    pub saved: u64,
    pub lines: Vec<Line>,
}

pub struct ApplyModel {
    pub at: int,
    pub run: Option<OpRun>,
    pub done: int,
    pub skipped: int,
    pub errors: int,
    pub fixes: Seq<FixModel>,
    pub saved: u64,
    pub lines: Seq<(bool, Seq<char>)>,
}

impl View for Apply {
    type V = ApplyModel;

    open spec fn view(&self) -> ApplyModel {
        ApplyModel {
            at: self.at as int,
            run: self.run,
            done: self.tally.done as int,
            skipped: self.tally.skipped as int,
            errors: self.tally.errors as int,
            fixes: fix_models(self.fixes@),
            saved: self.saved,
            lines: line_models(self.lines@),
        }
    }
}

pub open spec fn side_text(s: Side) -> Seq<char> {
    match s {
        Side::Target => "target"@,
        Side::Source => "source"@,
    }
}

pub open spec fn action_text(a: Action) -> Seq<char> {
    match a {
        Action::Copy => "Copy"@,
        Action::Update => "Update"@,
        Action::Move => "Move"@,
        Action::Chmod => "Chmod"@,
        Action::Delete => "Delete"@,
        Action::DeleteDir => "DeleteDir"@,
        Action::Conflict => "Conflict"@,
        Action::Note => "Note"@,
    }
}

pub fn action_name(a: Action) -> (r: &'static str)
    ensures
        r@ == action_text(a),
{
    match a {
        Action::Copy => "Copy",
        Action::Update => "Update",
        Action::Move => "Move",
        Action::Chmod => "Chmod",
        Action::Delete => "Delete",
        Action::DeleteDir => "DeleteDir",
        Action::Conflict => "Conflict",
        Action::Note => "Note",
    }
}

/// What a step is called in the lines for the user.
pub open spec fn label_text(op: OpModel) -> Seq<char> {
    "["@ + side_text(op.side) + "] "@ + action_text(op.action) + " "@ + op.path
}

fn label(op: &Op) -> (r: String)
    ensures
        r@ == label_text(op@),
{
    let mut s = "[".to_owned();
    s.append(
        match op.side {
            Side::Target => "target",
            Side::Source => "source",
        },
    );
    s.append("] ");
    s.append(action_name(op.action));
    s.append(" ");
    s.append(op.path.as_str());
    s
}

/// The step is only told, never done: a conflict, a note, or any step of a dry run. What is told, if
/// anything.
pub open spec fn told_only(op: OpModel, opt: ApplyOptions) -> Option<Seq<(bool, Seq<char>)>> {
    if op.action == Action::Conflict {
        Some(seq![(false, "CONFLICT  "@ + op.path + " ("@ + op.reason + ")"@)])
    } else if op.action == Action::Note {
        Some(
            seq![
                (
                    false,
                    "NOTE      "@ + op.path + " ("@ + op.reason + " from="@ + (match op.from {
                        Some(f) => f,
                        None => Seq::empty(),
                    }) + ")"@,
                ),
            ],
        )
    } else if opt.dry_run {
        if opt.verbose {
            Some(seq![(false, "DRY  "@ + label_text(op) + "  ("@ + op.reason + ")"@)])
        } else {
            Some(Seq::empty())
        }
    } else {
        None
    }
}

fn tell_only(op: &Op, opt: &ApplyOptions) -> (r: Option<Vec<Line>>)
    ensures
        match r {
            Some(v) => told_only(op@, *opt) == Some(line_models(v@)),
            None => told_only(op@, *opt) is None,
        },
{
    let mut out: Vec<Line> = Vec::new();
    if op.action == Action::Conflict {
        let mut s = "CONFLICT  ".to_owned();
        s.append(op.path.as_str());
        s.append(" (");
        s.append(op.reason.as_str());
        s.append(")");
        out.push(Line { error: false, text: s });
        assert(line_models(out@) =~= told_only(op@, *opt)->0);
        Some(out)
    } else if op.action == Action::Note {
        let mut s = "NOTE      ".to_owned();
        s.append(op.path.as_str());
        s.append(" (");
        s.append(op.reason.as_str());
        s.append(" from=");
        match &op.from {
            Some(f) => s.append(f.as_str()),
            None => s.append(String::new().as_str()),
        }
        s.append(")");
        out.push(Line { error: false, text: s });
        assert(line_models(out@) =~= told_only(op@, *opt)->0);
        Some(out)
    } else if opt.dry_run {
        if opt.verbose {
            let mut s = "DRY  ".to_owned();
            s.append(label(op).as_str());
            s.append("  (");
            s.append(op.reason.as_str());
            s.append(")");
            out.push(Line { error: false, text: s });
        }
        assert(line_models(out@) =~= told_only(op@, *opt)->0);
        Some(out)
    } else {
        None
    }
}

/// The books once the step at hand is over.
pub open spec fn closed(
    m: ApplyModel,
    op: OpModel,
    opt: ApplyOptions,
    end: Result<Option<(i64, i64)>, FailureModel>,
) -> ApplyModel {
    match end {
        Ok(off) => ApplyModel {
            at: m.at + 1,
            run: None,
            done: m.done + 1,
            fixes: match off {
                Some((got, want)) => m.fixes.push(
                    FixModel {
                        source: op.side == Side::Source,
                        path: op.path,
                        ondisk: got,
                        intended: want,
                    },
                ),
                None => m.fixes,
            },
            lines: if opt.verbose {
                m.lines.push((false, "OK   "@ + label_text(op)))
            } else {
                m.lines
            },
            ..m
        },
        Err(e) => if e.kind == IoKind::DirectoryNotEmpty {
            ApplyModel {
                at: m.at + 1,
                run: None,
                skipped: m.skipped + 1,
                lines: m.lines.push((false, "KEPT      "@ + op.path + " ("@ + e.message + ")"@)),
                ..m
            }
        } else {
            ApplyModel {
                at: m.at + 1,
                run: None,
                errors: m.errors + 1,
                lines: m.lines.push((true, "ERR  "@ + label_text(op) + ": "@ + e.message)),
                ..m
            }
        },
    }
}

/// The books once every step that needs nothing of the filesystem is over, up to one that does.
pub open spec fn settled(m: ApplyModel, ops: Seq<OpModel>, opt: ApplyOptions) -> ApplyModel
    decreases ops.len() - m.at,
{
    if m.at >= ops.len() || m.at < 0 {
        ApplyModel { run: None, ..m }
    } else {
        let op = ops[m.at];
        match told_only(op, opt) {
            Some(lines) => settled(
                ApplyModel {
                    at: m.at + 1,
                    run: None,
                    skipped: m.skipped + 1,
                    lines: m.lines + lines,
                    ..m
                },
                ops,
                opt,
            ),
            None => match first(op) {
                NextModel::Do(run) => ApplyModel { run: Some(run), ..m },
                NextModel::Over(end) => settled(closed(m, op, opt, end), ops, opt),
            },
        }
    }
}

/// Nothing done yet.
pub open spec fn fresh() -> ApplyModel {
    ApplyModel {
        at: 0,
        run: None,
        done: 0,
        skipped: 0,
        errors: 0,
        fixes: Seq::empty(),
        saved: 0,
        lines: Seq::empty(),
    }
}

impl Apply {
    /// Every step before the one at hand is counted, once, and the one at hand waits for a deed.
    pub open spec fn wf(self) -> bool {
        &&& self.at <= self.ops@.len()
        &&& self.tally.done + self.tally.skipped + self.tally.errors == self.at
        &&& self.run is Some <==> self.at < self.ops@.len()
        &&& self.run matches Some(run) ==> self.hash_known(run)
    }

    /// A hash is only asked for where one is expected.
    pub open spec fn hash_known(self, run: OpRun) -> bool {
        run.deed == Deed::Hash ==> self.ops@[self.at as int].hash is Some
    }

    fn close(&mut self, end: Result<Option<(i64, i64)>, IoFailure>)
        requires
            old(self).at < old(self).ops@.len(),
            old(self).tally.done + old(self).tally.skipped + old(self).tally.errors == old(self).at,
        ensures
            final(self).ops == old(self).ops,
            final(self).opt == old(self).opt,
            final(self).tally.done + final(self).tally.skipped + final(self).tally.errors
                == final(self).at,
            final(self)@ == closed(
                old(self)@,
                old(self).ops@[old(self).at as int]@,
                old(self).opt,
                match end {
                    Ok(off) => Ok(off),
                    Err(e) => Err(e@),
                },
            ),
    {
        let i = self.at;
        let n = self.ops.len();
        match end {
            Ok(off) => {
                self.tally.done = self.tally.done + 1;
                if let Some((got, want)) = off {
                    let fix = MtimeFix {
                        source: self.ops[i].side == Side::Source,
                        path: self.ops[i].path.clone(),
                        ondisk: got,
                        intended: want,
                    };
                    proof {
                        assert(fix_models(self.fixes@.push(fix)) =~= fix_models(self.fixes@).push(fix@));
                    }
                    self.fixes.push(fix);
                }
                if self.opt.verbose {
                    let mut s = "OK   ".to_owned();
                    s.append(label(&self.ops[i]).as_str());
                    self.say(false, s);
                }
            },
            Err(e) => if e.kind == IoKind::DirectoryNotEmpty {
                self.tally.skipped = self.tally.skipped + 1;
                let mut s = "KEPT      ".to_owned();
                s.append(self.ops[i].path.as_str());
                s.append(" (");
                s.append(e.message.as_str());
                s.append(")");
                self.say(false, s);
            } else {
                self.tally.errors = self.tally.errors + 1;
                let mut s = "ERR  ".to_owned();
                s.append(label(&self.ops[i]).as_str());
                s.append(": ");
                s.append(e.message.as_str());
                self.say(true, s);
            },
        }
        self.at = i + 1;
        self.run = None;
    }

    fn say(&mut self, error: bool, text: String)
        ensures
            *final(self) == (Apply { lines: final(self).lines, ..*old(self) }),
            line_models(final(self).lines@) == line_models(old(self).lines@).push((error, text@)),
    {
        let line = Line { error, text };
        proof {
            assert(line_models(self.lines@.push(line)) =~= line_models(self.lines@).push(
                (error, text@),
            ));
        }
        self.lines.push(line);
    }

    fn settle(&mut self)
        requires
            old(self).at <= old(self).ops@.len(),
            old(self).tally.done + old(self).tally.skipped + old(self).tally.errors == old(self).at,
        ensures
            final(self).ops == old(self).ops,
            final(self).opt == old(self).opt,
            final(self).wf(),
            final(self)@ == settled(old(self)@, op_models(old(self).ops@), old(self).opt),
    {
        let ghost ops = op_models(self.ops@);
        let ghost goal = settled(self@, ops, self.opt);
        while self.at < self.ops.len()
            invariant
                self.at <= self.ops@.len(),
                self.tally.done + self.tally.skipped + self.tally.errors == self.at,
                self.ops == old(self).ops,
                self.opt == old(self).opt,
                ops == op_models(self.ops@),
                goal == settled(self@, ops, self.opt),
                goal == settled(old(self)@, op_models(old(self).ops@), old(self).opt),
            decreases self.ops@.len() - self.at,
        {
            let i = self.at;
            assert(ops[i as int] == self.ops@[i as int]@);
            match tell_only(&self.ops[i], &self.opt) {
                Some(lines) => {
                    let mut more = lines;
                    proof {
                        assert(line_models(self.lines@ + more@) =~= line_models(self.lines@)
                            + line_models(more@));
                    }
                    self.lines.append(&mut more);
                    self.tally.skipped = self.tally.skipped + 1;
                    self.at = i + 1;
                    self.run = None;
                },
                None => match begin(&self.ops[i]) {
                    Next::Do(run) => {
                        self.run = Some(run);
                        return ;
                    },
                    Next::Over(end) => {
                        self.close(end);
                    },
                },
            }
        }
        self.run = None;
    }

    /// Begins with a plan. A dry run and what is only told are over at once.
    pub fn start(ops: Vec<Op>, opt: ApplyOptions) -> (r: Apply)
        ensures
            r.ops == ops,
            r.opt == opt,
            r.wf(),
            r@ == settled(fresh(), op_models(ops@), opt),
    {
        let mut a = Apply {
            ops,
            opt,
            at: 0,
            run: None,
            tally: Tally { done: 0, skipped: 0, errors: 0 },
            fixes: Vec::new(),
            saved: 0,
            lines: Vec::new(),
        };
        proof {
            assert(a@.fixes =~= fresh().fixes);
            assert(a@.lines =~= fresh().lines);
        }
        a.settle();
        a
    }

    /// Takes the outcome of the deed that was asked for.
    pub fn feed(&mut self, reply: Reply)
        requires
            old(self).wf(),
            old(self).run is Some,
            answers(old(self).run->0.deed, reply@),
        ensures
            final(self).ops == old(self).ops,
            final(self).opt == old(self).opt,
            final(self).wf(),
            ({
                let op = old(self).ops@[old(self).at as int]@;
                let m = ApplyModel {
                    saved: match reply@ {
                        ReplyModel::Patched(Some((written, total))) => added_up(
                            old(self).saved,
                            unwritten(written, total),
                        ),
                        _ => old(self).saved,
                    },
                    ..old(self)@
                };
                final(self)@ == match after(op, old(self).opt, old(self).run->0, reply@) {
                    NextModel::Do(run) => ApplyModel { run: Some(run), ..m },
                    NextModel::Over(end) => settled(
                        closed(m, op, old(self).opt, end),
                        op_models(old(self).ops@),
                        old(self).opt,
                    ),
                }
            }),
    {
        let i = self.at;
        if let Some(run) = self.run {
            if let Reply::Patched(Some((written, total))) = &reply {
                let kept: u64 = if *written < *total {
                    *total - *written
                } else {
                    0
                };
                self.saved = if kept > u64::MAX - self.saved {
                    u64::MAX
                } else {
                    self.saved + kept
                };
            }
            match step_on(&self.ops[i], &self.opt, run, reply) {
                Next::Do(run) => {
                    self.run = Some(run);
                },
                Next::Over(end) => {
                    self.close(end);
                    self.settle();
                },
            }
        }
    }
}

/// The bytes that a delta did not write.
pub open spec fn unwritten(written: u64, total: u64) -> int {
    if written < total {
        total - written
    } else {
        0
    }
}

/// A sum that stays at the largest number.
pub open spec fn added_up(a: u64, b: int) -> u64 {
    if a + b > u64::MAX {
        u64::MAX
    } else {
        (a + b) as u64
    }
}

/// The fixes of one side, in order.
pub open spec fn fixes_on(fixes: Seq<FixModel>, source: bool) -> Seq<FixModel>
    decreases fixes.len(),
{
    if fixes.len() == 0 {
        Seq::empty()
    } else if fixes.last().source == source {
        fixes_on(fixes.drop_last(), source).push(fixes.last())
    } else {
        fixes_on(fixes.drop_last(), source)
    }
}

/// The places of the steps of one side, in order.
pub open spec fn places_on(ops: Seq<OpModel>, side: Side) -> Seq<int>
    decreases ops.len(),
{
    if ops.len() == 0 {
        Seq::empty()
    } else if ops.last().side == side {
        places_on(ops.drop_last(), side).push(ops.len() - 1)
    } else {
        places_on(ops.drop_last(), side)
    }
}

impl Apply {
    /// What the next scan of one side has to know.
    pub fn side_fixes(&self, source: bool) -> (r: Vec<MtimeFix>)
        ensures
            fix_models(r@) == if self.opt.dry_run {
                Seq::empty()
            } else {
                fixes_on(fix_models(self.fixes@), source)
            },
    {
        let mut out: Vec<MtimeFix> = Vec::new();
        assert(fix_models(out@) =~= Seq::<FixModel>::empty());
        if self.opt.dry_run {
            return out;
        }
        let ghost all = fix_models(self.fixes@);
        let mut i: usize = 0;
        assert(all.take(0) =~= Seq::<FixModel>::empty());
        while i < self.fixes.len()
            invariant
                i <= self.fixes@.len(),
                all == fix_models(self.fixes@),
                fix_models(out@) == fixes_on(all.take(i as int), source),
            decreases self.fixes@.len() - i,
        {
            let f = &self.fixes[i];
            proof {
                assert(all.take(i as int + 1).drop_last() =~= all.take(i as int));
                assert(all.take(i as int + 1).last() == f@);
            }
            if f.source == source {
                let copy = MtimeFix {
                    source: f.source,
                    path: f.path.clone(),
                    ondisk: f.ondisk,
                    intended: f.intended,
                };
                assert(fix_models(out@.push(copy)) =~= fix_models(out@).push(copy@));
                out.push(copy);
            }
            i = i + 1;
        }
        assert(all.take(all.len() as int) =~= all);
        out
    }

    /// Where the steps of one side stand in the plan.
    pub fn side_ops(&self, side: Side) -> (r: Vec<usize>)
        ensures
            r@.map_values(|i: usize| i as int) == places_on(op_models(self.ops@), side),
    {
        let ghost all = op_models(self.ops@);
        let mut out: Vec<usize> = Vec::new();
        let mut i: usize = 0;
        proof {
            assert(all.take(0) =~= Seq::<OpModel>::empty());
            assert(out@.map_values(|i: usize| i as int) =~= Seq::<int>::empty());
        }
        while i < self.ops.len()
            invariant
                i <= self.ops@.len(),
                all == op_models(self.ops@),
                out@.map_values(|i: usize| i as int) == places_on(all.take(i as int), side),
            decreases self.ops@.len() - i,
        {
            proof {
                assert(all.take(i as int + 1).drop_last() =~= all.take(i as int));
                assert(all.take(i as int + 1).last() == self.ops@[i as int]@);
            }
            if self.ops[i].side == side {
                assert(out@.push(i).map_values(|i: usize| i as int) =~= out@.map_values(
                    |i: usize| i as int,
                ).push(i as int));
                out.push(i);
            }
            i = i + 1;
        }
        assert(all.take(all.len() as int) =~= all);
        out
    }

    /// What deltas saved, in words.
    pub fn delta_line(&self) -> (r: Option<String>)
        ensures
            opt_text(r) == if !self.opt.dry_run && self.saved > 0 {
                Some("delta: "@ + bytes_text(self.saved as nat) + " not re-written"@)
            } else {
                None
            },
    {
        if self.opt.dry_run || self.saved == 0 {
            return None;
        }
        let mut s = "delta: ".to_owned();
        s.append(human_bytes(self.saved).as_str());
        s.append(" not re-written");
        Some(s)
    }

    /// Where deleted and overwritten files were kept, in words.
    pub fn trash_line(&self, trash: &str) -> (r: Option<String>)
        ensures
            opt_text(r) == if !self.opt.dry_run && !self.opt.versioning && self.tally.done > 0 {
                Some("trash (deleted/overwritten files kept at): "@ + trash@)
            } else {
                None
            },
    {
        if self.opt.dry_run || self.opt.versioning || self.tally.done == 0 {
            return None;
        }
        let mut s = "trash (deleted/overwritten files kept at): ".to_owned();
        s.append(trash);
        Some(s)
    }
}

/// What a plan comes to where a root could not be locked: nothing is done, and that is one error.
pub fn refused(steps: usize) -> (r: Tally)
    ensures
        r == (Tally { done: 0, skipped: steps as u64, errors: 1 }),
{
    Tally { done: 0, skipped: steps as u64, errors: 1 }
}

/// What a step is at after some replies.
pub open spec fn run_of(op: OpModel, opt: ApplyOptions, replies: Seq<ReplyModel>) -> NextModel
    decreases replies.len(),
{
    if replies.len() == 0 {
        first(op)
    } else {
        match run_of(op, opt, replies.drop_last()) {
            NextModel::Do(run) => after(op, opt, run, replies.last()),
            NextModel::Over(end) => NextModel::Over(end),
        }
    }
}

/// The replies are ones that the deeds can have.
pub open spec fn proper(op: OpModel, opt: ApplyOptions, replies: Seq<ReplyModel>) -> bool {
    forall|i: int|
        #![trigger replies[i]]
        0 <= i < replies.len() ==> (run_of(op, opt, replies.take(i)) matches NextModel::Do(run)
            ==> answers(run.deed, replies[i]))
}

/// At some point that deed was asked for and had that reply.
pub open spec fn replied(
    op: OpModel,
    opt: ApplyOptions,
    replies: Seq<ReplyModel>,
    deed: Deed,
    reply: ReplyModel,
) -> bool {
    exists|i: int|
        #![trigger replies[i]]
        0 <= i < replies.len() && replies[i] == reply && (run_of(op, opt, replies.take(i)) matches NextModel::Do(
            run,
        ) && run.deed == deed)
}

proof fn lemma_replied_later(
    op: OpModel,
    opt: ApplyOptions,
    replies: Seq<ReplyModel>,
    deed: Deed,
    reply: ReplyModel,
)
    requires
        replies.len() > 0,
        replied(op, opt, replies.drop_last(), deed, reply),
    ensures
        replied(op, opt, replies, deed, reply),
{
    let before = replies.drop_last();
    let i = choose|i: int|
        #![trigger before[i]]
        0 <= i < before.len() && before[i] == reply && (run_of(op, opt, before.take(i)) matches NextModel::Do(
            run,
        ) && run.deed == deed);
    assert(before.take(i) =~= replies.take(i));
    assert(replies[i] == reply);
}

proof fn lemma_replied_now(
    op: OpModel,
    opt: ApplyOptions,
    replies: Seq<ReplyModel>,
    run: OpRun,
)
    requires
        replies.len() > 0,
        run_of(op, opt, replies.drop_last()) == NextModel::Do(run),
    ensures
        replied(op, opt, replies, run.deed, replies.last()),
{
    let i = replies.len() - 1;
    assert(replies.take(i) =~= replies.drop_last());
    assert(replies[i] == replies.last());
}

/// The deed comes once the staged file is sealed.
pub open spec fn past_seal(d: Deed) -> bool {
    match d {
        Deed::Hash
        | Deed::Stamp(_)
        | Deed::StampLikeSource
        | Deed::Mode(_)
        | Deed::CommitLook
        | Deed::Keep
        | Deed::Commit
        | Deed::ReadBack => true,
        _ => false,
    }
}

/// The deed comes once the staged file was found good.
pub open spec fn past_hash(d: Deed) -> bool {
    past_seal(d) && d != Deed::Hash
}

/// What is put in place of a file was written whole, sealed and, where asked for, verified; and what was
/// there before is kept.
pub proof fn a_commit_is_earned(op: OpModel, opt: ApplyOptions, replies: Seq<ReplyModel>, run: OpRun)
    requires
        proper(op, opt, replies),
        run_of(op, opt, replies) == NextModel::Do(run),
        run.deed == Deed::Commit,
    ensures
        replied(op, opt, replies, Deed::Seal, ReplyModel::Done),
        opt.verify && op.hash is Some ==> replied(
            op,
            opt,
            replies,
            Deed::Hash,
            ReplyModel::Hashed(op.hash->0),
        ),
        replied(op, opt, replies, Deed::CommitLook, ReplyModel::Found(false)) || replied(
            op,
            opt,
            replies,
            Deed::Keep,
            ReplyModel::Done,
        ),
{
    lemma_progress(op, opt, replies, run);
}

proof fn lemma_progress(op: OpModel, opt: ApplyOptions, replies: Seq<ReplyModel>, run: OpRun)
    requires
        proper(op, opt, replies),
        run_of(op, opt, replies) == NextModel::Do(run),
    ensures
        past_seal(run.deed) ==> replied(op, opt, replies, Deed::Seal, ReplyModel::Done),
        past_hash(run.deed) && opt.verify && op.hash is Some ==> replied(
            op,
            opt,
            replies,
            Deed::Hash,
            ReplyModel::Hashed(op.hash->0),
        ),
        run.deed == Deed::Commit || run.deed == Deed::ReadBack ==> replied(
            op,
            opt,
            replies,
            Deed::CommitLook,
            ReplyModel::Found(false),
        ) || replied(op, opt, replies, Deed::Keep, ReplyModel::Done),
    decreases replies.len(),
{
    if replies.len() > 0 {
        let before = replies.drop_last();
        let last = replies.last();
        match run_of(op, opt, before) {
            NextModel::Do(was) => {
                assert(proper(op, opt, before)) by {
                    assert forall|i: int|
                        #![trigger before[i]]
                        0 <= i < before.len() implies (run_of(op, opt, before.take(i)) matches NextModel::Do(
                        run,
                    ) ==> answers(run.deed, before[i])) by {
                        assert(before.take(i) =~= replies.take(i));
                        assert(before[i] == replies[i]);
                    }
                }
                lemma_progress(op, opt, before, was);
                assert(answers(was.deed, last)) by {
                    let i = replies.len() - 1;
                    assert(replies.take(i) =~= before);
                    assert(replies[i] == last);
                }
                lemma_replied_now(op, opt, replies, was);
                if past_seal(was.deed) {
                    lemma_replied_later(op, opt, replies, Deed::Seal, ReplyModel::Done);
                }
                if past_hash(was.deed) && opt.verify && op.hash is Some {
                    lemma_replied_later(
                        op,
                        opt,
                        replies,
                        Deed::Hash,
                        ReplyModel::Hashed(op.hash->0),
                    );
                }
                if was.deed == Deed::Commit || was.deed == Deed::ReadBack {
                    if replied(op, opt, before, Deed::CommitLook, ReplyModel::Found(false)) {
                        lemma_replied_later(
                            op,
                            opt,
                            replies,
                            Deed::CommitLook,
                            ReplyModel::Found(false),
                        );
                    } else {
                        lemma_replied_later(op, opt, replies, Deed::Keep, ReplyModel::Done);
                    }
                }
            },
            NextModel::Over(end) => {},
        }
    }
}

/// A deed that fails ends its step with that failure. Only a rename is tried another way, and only a
/// directory that is not empty is looked into.
pub proof fn a_failure_ends_the_step(op: OpModel, opt: ApplyOptions, run: OpRun, e: FailureModel)
    requires
        run.deed != Deed::Rename,
        run.deed != Deed::RemoveDir,
    ensures
        after(op, opt, run, ReplyModel::Failed(e)) == NextModel::Over(Err(e)),
{
}

/// Once a step is over it stays over: whatever is replied, no further deed is asked for.
pub proof fn over_is_over(
    op: OpModel,
    opt: ApplyOptions,
    replies: Seq<ReplyModel>,
    more: Seq<ReplyModel>,
    end: Result<Option<(i64, i64)>, FailureModel>,
)
    requires
        run_of(op, opt, replies) == NextModel::Over(end),
    ensures
        run_of(op, opt, replies + more) == NextModel::Over(end),
    decreases more.len(),
{
    if more.len() == 0 {
        assert(replies + more =~= replies);
    } else {
        over_is_over(op, opt, replies, more.drop_last(), end);
        assert((replies + more).drop_last() =~= replies + more.drop_last());
    }
}

/// A directory is removed with what is in it only where all of it may go.
pub proof fn only_expendable_leftovers_go(
    op: OpModel,
    opt: ApplyOptions,
    replies: Seq<ReplyModel>,
    run: OpRun,
)
    requires
        proper(op, opt, replies),
        replies.len() > 0,
        run_of(op, opt, replies) == NextModel::Do(run),
        run.deed == Deed::RemoveTree,
    ensures
        replies.last() matches ReplyModel::Files(inner) && all_expendable(
            rules_of(opt.filter),
            child_rels(op.path, inner),
        ),
{
    let before = replies.drop_last();
    match run_of(op, opt, before) {
        NextModel::Do(was) => {
            let i = replies.len() - 1;
            assert(replies.take(i) =~= before);
            assert(answers(was.deed, replies[i]));
        },
        NextModel::Over(end) => {},
    }
}

/// Nothing is asked for in a dry run: every step is counted as skipped.
pub proof fn a_dry_run_asks_for_nothing(m: ApplyModel, ops: Seq<OpModel>, opt: ApplyOptions)
    requires
        opt.dry_run,
        0 <= m.at <= ops.len(),
    ensures
        settled(m, ops, opt).run is None,
        settled(m, ops, opt).at == ops.len(),
        settled(m, ops, opt).skipped == m.skipped + ops.len() - m.at,
        settled(m, ops, opt).done == m.done,
        settled(m, ops, opt).errors == m.errors,
    decreases ops.len() - m.at,
{
    if m.at < ops.len() {
        let lines = told_only(ops[m.at], opt)->0;
        a_dry_run_asks_for_nothing(
            ApplyModel {
                at: m.at + 1,
                run: None,
                skipped: m.skipped + 1,
                lines: m.lines + lines,
                ..m
            },
            ops,
            opt,
        );
    }
}

/// Conflicts and notes are never carried out.
pub proof fn conflicts_and_notes_are_never_done(m: ApplyModel, ops: Seq<OpModel>, opt: ApplyOptions)
    requires
        0 <= m.at <= ops.len(),
    ensures
        settled(m, ops, opt).run is Some ==> {
            let at = settled(m, ops, opt).at;
            &&& m.at <= at < ops.len()
            &&& ops[at].action != Action::Conflict
            &&& ops[at].action != Action::Note
        },
    decreases ops.len() - m.at,
{
    if m.at < ops.len() {
        let op = ops[m.at];
        match told_only(op, opt) {
            Some(lines) => {
                conflicts_and_notes_are_never_done(
                    ApplyModel {
                        at: m.at + 1,
                        run: None,
                        skipped: m.skipped + 1,
                        lines: m.lines + lines,
                        ..m
                    },
                    ops,
                    opt,
                );
            },
            None => match first(op) {
                NextModel::Do(run) => {},
                NextModel::Over(end) => {
                    conflicts_and_notes_are_never_done(closed(m, op, opt, end), ops, opt);
                },
            },
        }
    }
}

} // verus!
