//! The lock on a root.
//!
//! Whoever changes a root puts a lock file into it and refreshes its time every few seconds. Who
//! finds a lock watches it: while it is refreshed the root is taken; when it stays still for the
//! whole watch it is a leftover and is taken over. What cannot be told is never taken over.
use vstd::prelude::*;
use crate::fs::vfs::error::{IoFailure, IoKind};
use crate::strings::{decimal, numeral};

verus! {

/// How often a lock is looked at before it counts as a leftover.
pub const WATCH_ROUNDS: u32 = 6;

/// How long to wait before each look.
pub const WATCH_PAUSE_MS: u64 = 2000;

/// How often a held lock is refreshed.
pub const HEARTBEAT_MS: u64 = 4000;

/// How often it is looked at whether to refresh.
pub const TICK_MS: u64 = 250;

/// Who holds a lock.
pub struct LockInfo {
    pub host: String,
    pub pid: u32,
    pub started_ms: u64,
}

/// What taking a lock is waiting for.
pub enum LockDeed {
    /// Read the time of the lock file, if there is one.
    Probe,
    /// Read who holds the lock.
    ReadHolder { seen: i64 },
    /// Wait, then read the time again.
    Watch { seen: i64, round: u32, holder: String },
    /// Remove the leftover.
    TakeOver { holder: String },
    /// Write a lock of our own.
    Write,
}

pub enum LockDeedModel {
    Probe,
    ReadHolder { seen: i64 },
    Watch { seen: i64, round: u32, holder: Seq<char> },
    TakeOver { holder: Seq<char> },
    Write,
}

impl View for LockDeed {
    type V = LockDeedModel;

    open spec fn view(&self) -> LockDeedModel {
        match *self {
            LockDeed::Probe => LockDeedModel::Probe,
            LockDeed::ReadHolder { seen } => LockDeedModel::ReadHolder { seen },
            LockDeed::Watch { seen, round, holder } => LockDeedModel::Watch {
                seen,
                round,
                holder: holder@,
            },
            LockDeed::TakeOver { holder } => LockDeedModel::TakeOver { holder: holder@ },
            LockDeed::Write => LockDeedModel::Write,
        }
    }
}

/// What came of it.
pub enum LockReply {
    /// The time of the lock file; `None` where there is no lock.
    Seen(Option<i64>),
    Holder(Option<LockInfo>),
    Done,
    /// The failure, and whether it says that there is no such file.
    Failed(IoFailure, bool),
}

/// How taking a lock goes on.
pub enum LockNext {
    Do(LockDeed),
    Held,
    Refused(IoFailure),
}

/// What holds the lock, in words.
pub open spec fn holder_text(info: Option<LockInfo>) -> Seq<char> {
    match info {
        Some(i) => i.host@ + " (pid "@ + numeral(i.pid as nat) + ")"@,
        None => "unknown"@,
    }
}

fn holder_name(info: &Option<LockInfo>) -> (r: String)
    ensures
        r@ == holder_text(*info),
{
    match info {
        Some(i) => {
            let mut s = i.host.clone();
            s.append(" (pid ");
            s.append(decimal(i.pid as u64).as_str());
            s.append(")");
            s
        },
        None => "unknown".to_owned(),
    }
}

/// The root is in use.
pub open spec fn busy_text(root: Seq<char>, holder: Seq<char>) -> Seq<char> {
    root + " is being synced right now by "@ + holder + " — try again later"@
}

/// What is said when a leftover is taken over.
pub open spec fn takeover_text(root: Seq<char>, holder: Seq<char>) -> Seq<char> {
    "stale lock from "@ + holder + " on "@ + root + " — taking over"@
}

pub fn takeover_line(root: &str, holder: &str) -> (r: String)
    ensures
        r@ == takeover_text(root@, holder@),
{
    let mut s = "stale lock from ".to_owned();
    s.append(holder);
    s.append(" on ");
    s.append(root);
    s.append(" — taking over");
    s
}

/// The reply is one that the deed can have.
pub open spec fn lock_answers(deed: LockDeedModel, reply: LockReply) -> bool {
    match deed {
        LockDeedModel::Probe | LockDeedModel::Watch { .. } => reply is Seen || reply is Failed,
        LockDeedModel::ReadHolder { .. } => reply is Holder,
        _ => reply is Done || reply is Failed,
    }
}

/// Where a lock attempt stands.
pub enum LockNextModel {
    Do(LockDeedModel),
    Held,
    Refused(IoKind, Option<i32>, Seq<char>),
}

impl View for LockNext {
    type V = LockNextModel;

    open spec fn view(&self) -> LockNextModel {
        match *self {
            LockNext::Do(d) => LockNextModel::Do(d@),
            LockNext::Held => LockNextModel::Held,
            LockNext::Refused(e) => LockNextModel::Refused(e.kind, e.raw, e.message@),
        }
    }
}

/// How taking a lock goes on after a reply.
pub open spec fn lock_after(root: Seq<char>, deed: LockDeedModel, reply: LockReply) -> LockNextModel {
    match reply {
        LockReply::Failed(e, gone) => if deed is TakeOver && gone {
            LockNextModel::Do(LockDeedModel::Write)
        } else {
            LockNextModel::Refused(e.kind, e.raw, e.message@)
        },
        LockReply::Seen(t) => match (deed, t) {
            (LockDeedModel::Watch { seen, round, holder }, Some(m)) => if m != seen {
                LockNextModel::Refused(IoKind::WouldBlock, None, busy_text(root, holder))
            } else if round >= WATCH_ROUNDS {
                LockNextModel::Do(LockDeedModel::TakeOver { holder })
            } else {
                LockNextModel::Do(
                    LockDeedModel::Watch { seen, round: (round + 1) as u32, holder },
                )
            },
            (_, Some(m)) => LockNextModel::Do(LockDeedModel::ReadHolder { seen: m }),
            (_, None) => LockNextModel::Do(LockDeedModel::Write),
        },
        LockReply::Holder(info) => match deed {
            LockDeedModel::ReadHolder { seen } => LockNextModel::Do(
                LockDeedModel::Watch { seen, round: 1, holder: holder_text(info) },
            ),
            _ => LockNextModel::Held,
        },
        LockReply::Done => if deed is TakeOver {
            LockNextModel::Do(LockDeedModel::Write)
        } else {
            LockNextModel::Held
        },
    }
}

/// Takes the reply to a deed and says how it goes on. Taking a lock begins with a probe.
pub fn acquire(root: &str, deed: LockDeed, reply: LockReply) -> (r: LockNext)
    requires
        lock_answers(deed@, reply),
    ensures
        r@ == lock_after(root@, deed@, reply),
{
    match reply {
        LockReply::Failed(e, gone) => match deed {
            LockDeed::TakeOver { holder: _ } => if gone {
                LockNext::Do(LockDeed::Write)
            } else {
                LockNext::Refused(e)
            },
            _ => LockNext::Refused(e),
        },
        LockReply::Seen(t) => match deed {
            LockDeed::Watch { seen, round, holder } => match t {
                Some(m) => if m != seen {
                    let mut s = root.to_owned();
                    s.append(" is being synced right now by ");
                    s.append(holder.as_str());
                    s.append(" — try again later");
                    LockNext::Refused(
                        IoFailure { kind: IoKind::WouldBlock, raw: None, message: s },
                    )
                } else if round >= WATCH_ROUNDS {
                    LockNext::Do(LockDeed::TakeOver { holder })
                } else {
                    LockNext::Do(LockDeed::Watch { seen, round: round + 1, holder })
                },
                None => LockNext::Do(LockDeed::Write),
            },
            _ => match t {
                Some(m) => LockNext::Do(LockDeed::ReadHolder { seen: m }),
                None => LockNext::Do(LockDeed::Write),
            },
        },
        LockReply::Holder(info) => match deed {
            LockDeed::ReadHolder { seen } => {
                let holder = holder_name(&info);
                LockNext::Do(LockDeed::Watch { seen, round: 1, holder })
            },
            _ => LockNext::Held,
        },
        LockReply::Done => match deed {
            LockDeed::TakeOver { holder: _ } => LockNext::Do(LockDeed::Write),
            _ => LockNext::Held,
        },
    }
}

/// Where an attempt stands after some replies.
pub open spec fn lock_run(root: Seq<char>, replies: Seq<LockReply>) -> LockNextModel
    decreases replies.len(),
{
    if replies.len() == 0 {
        LockNextModel::Do(LockDeedModel::Probe)
    } else {
        match lock_run(root, replies.drop_last()) {
            LockNextModel::Do(d) => lock_after(root, d, replies.last()),
            end => end,
        }
    }
}

pub open spec fn lock_proper(root: Seq<char>, replies: Seq<LockReply>) -> bool
    decreases replies.len(),
{
    replies.len() > 0 ==> {
        &&& lock_proper(root, replies.drop_last())
        &&& lock_run(root, replies.drop_last()) matches LockNextModel::Do(d) ==> lock_answers(
            d,
            replies.last(),
        )
    }
}

/// The last `n` replies all showed that time.
pub open spec fn stood_still(replies: Seq<LockReply>, n: int, seen: i64) -> bool {
    n <= replies.len() && forall|i: int|
        replies.len() - n <= i < replies.len() ==> #[trigger] replies[i] == LockReply::Seen(Some(seen))
}

proof fn lemma_watching(root: Seq<char>, replies: Seq<LockReply>)
    requires
        lock_proper(root, replies),
    ensures
        match lock_run(root, replies) {
            LockNextModel::Do(LockDeedModel::ReadHolder { seen }) => stood_still(replies, 1, seen),
            LockNextModel::Do(LockDeedModel::Watch { seen, round, holder }) => {
                &&& 1 <= round <= WATCH_ROUNDS
                &&& stood_still(replies, round - 1, seen)
            },
            LockNextModel::Do(LockDeedModel::TakeOver { holder }) => exists|seen: i64| #[trigger]
                stood_still(replies, WATCH_ROUNDS as int, seen),
            _ => true,
        },
    decreases replies.len(),
{
    if replies.len() > 0 {
        let before = replies.drop_last();
        lemma_watching(root, before);
        match lock_run(root, before) {
            LockNextModel::Do(LockDeedModel::Watch { seen, round, holder }) => {
                if replies.last() == LockReply::Seen(Some(seen)) {
                    assert(stood_still(replies, round as int, seen)) by {
                        assert forall|i: int|
                            replies.len() - round <= i < replies.len() implies #[trigger] replies[i]
                            == LockReply::Seen(Some(seen)) by {
                            if i < before.len() {
                                assert(before[i] == replies[i]);
                            }
                        }
                    }
                }
            },
            _ => {},
        }
    }
}

/// A lock is taken over only after it stood still for the whole watch.
pub proof fn only_a_dead_lock_is_taken_over(root: Seq<char>, replies: Seq<LockReply>, holder: Seq<char>)
    requires
        lock_proper(root, replies),
        lock_run(root, replies) == LockNextModel::Do(LockDeedModel::TakeOver { holder }),
    ensures
        exists|seen: i64| #[trigger] stood_still(replies, WATCH_ROUNDS as int, seen),
{
    lemma_watching(root, replies);
}

/// A lock that is refreshed is left alone: the attempt ends.
pub proof fn a_beating_lock_is_left_alone(
    root: Seq<char>,
    seen: i64,
    round: u32,
    holder: Seq<char>,
    now: i64,
)
    requires
        now != seen,
    ensures
        lock_after(
            root,
            LockDeedModel::Watch { seen, round, holder },
            LockReply::Seen(Some(now)),
        ) == LockNextModel::Refused(IoKind::WouldBlock, None, busy_text(root, holder)),
{
}

/// What cannot be told is never taken over: a failed look ends the attempt.
pub proof fn uncertainty_takes_nothing_over(
    root: Seq<char>,
    deed: LockDeedModel,
    e: IoFailure,
    gone: bool,
)
    requires
        deed is Probe || deed is Watch,
    ensures
        lock_after(root, deed, LockReply::Failed(e, gone)) is Refused,
{
}

/// One tick of the heart: the time since the last beat, and whether to beat now.
pub fn tick(elapsed: u64) -> (r: (u64, bool))
    requires
        elapsed < HEARTBEAT_MS,
    ensures
        r.0 < HEARTBEAT_MS,
        r.1 == (elapsed + TICK_MS >= HEARTBEAT_MS),
        r.0 == if r.1 {
            0
        } else {
            elapsed + TICK_MS
        },
{
    let now: u64 = elapsed + TICK_MS;
    if now >= HEARTBEAT_MS {
        (0, true)
    } else {
        (now, false)
    }
}

/// A held lock is refreshed more than once within any watch.
pub proof fn the_heart_beats_within_the_watch()
    ensures
        2 * (HEARTBEAT_MS + TICK_MS) < WATCH_ROUNDS * WATCH_PAUSE_MS,
{
}

/// After `i` replies that deed was asked for.
pub open spec fn lock_asked(root: Seq<char>, replies: Seq<LockReply>, i: int) -> Option<LockDeedModel> {
    match lock_run(root, replies.take(i)) {
        LockNextModel::Do(d) => Some(d),
        _ => None,
    }
}

/// After `i` replies a lock of our own was written.
pub open spec fn lock_written(root: Seq<char>, replies: Seq<LockReply>, i: int) -> bool {
    &&& 0 <= i < replies.len()
    &&& lock_asked(root, replies, i) == Some(LockDeedModel::Write)
    &&& replies[i] is Done
}

/// A lock is held only after the lock file was written.
pub proof fn a_held_lock_was_written(root: Seq<char>, replies: Seq<LockReply>)
    requires
        lock_proper(root, replies),
        lock_run(root, replies) is Held,
    ensures
        exists|i: int| #[trigger] lock_written(root, replies, i),
    decreases replies.len(),
{
    let before = replies.drop_last();
    let n = replies.len() - 1;
    assert(replies.take(n) =~= before);
    match lock_run(root, before) {
        LockNextModel::Do(d) => {
            assert(lock_answers(d, replies.last()));
            assert(lock_written(root, replies, n));
        },
        _ => {
            a_held_lock_was_written(root, before);
            let i = choose|i: int| #[trigger] lock_written(root, before, i);
            assert(before.take(i) =~= replies.take(i));
            assert(lock_written(root, replies, i));
        },
    }
}

/// A lock is written only where no lock was seen just before, or where the dead one was just removed.
pub proof fn a_lock_is_written_where_there_is_none(root: Seq<char>, replies: Seq<LockReply>)
    requires
        lock_proper(root, replies),
        lock_run(root, replies) == LockNextModel::Do(LockDeedModel::Write),
    ensures
        replies.len() > 0,
        replies.last() == LockReply::Seen(None) || (lock_asked(root, replies, replies.len() - 1) matches Some(
            d,
        ) && d is TakeOver && (replies.last() is Done || (replies.last() matches LockReply::Failed(_, gone)
            && gone))),
{
    let before = replies.drop_last();
    assert(replies.take(replies.len() - 1) =~= before);
}

/// A root without a lock is locked at once, and one whose lock stood still through six looks is taken
/// over: neither waits for anything else.
pub proof fn a_free_root_can_be_locked(root: Seq<char>, seen: i64, info: Option<LockInfo>)
    ensures
        lock_run(root, seq![LockReply::Seen(None), LockReply::Done]) is Held,
        lock_run(
            root,
            seq![
                LockReply::Seen(Some(seen)),
                LockReply::Holder(info),
                LockReply::Seen(Some(seen)),
                LockReply::Seen(Some(seen)),
                LockReply::Seen(Some(seen)),
                LockReply::Seen(Some(seen)),
                LockReply::Seen(Some(seen)),
                LockReply::Seen(Some(seen)),
                LockReply::Done,
                LockReply::Done,
            ],
        ) is Held,
{
    let free = seq![LockReply::Seen(None), LockReply::Done];
    assert(free.drop_last() =~= seq![LockReply::Seen(None)]);
    assert(free.drop_last().drop_last() =~= Seq::<LockReply>::empty());
    let quick = seq![LockReply::Seen(None)];
    assert(lock_run(root, Seq::<LockReply>::empty()) == LockNextModel::Do(LockDeedModel::Probe));
    assert(lock_run(root, quick) == LockNextModel::Do(LockDeedModel::Write));
    let still = LockReply::Seen(Some(seen));
    let s1 = seq![still];
    let s2 = s1.push(LockReply::Holder(info));
    let s3 = s2.push(still);
    let s4 = s3.push(still);
    let s5 = s4.push(still);
    let s6 = s5.push(still);
    let s7 = s6.push(still);
    let s8 = s7.push(still);
    let s9 = s8.push(LockReply::Done);
    let s10 = s9.push(LockReply::Done);
    assert(s1.drop_last() =~= Seq::<LockReply>::empty());
    assert(s2.drop_last() =~= s1);
    assert(s3.drop_last() =~= s2);
    assert(s4.drop_last() =~= s3);
    assert(s5.drop_last() =~= s4);
    assert(s6.drop_last() =~= s5);
    assert(s7.drop_last() =~= s6);
    assert(s8.drop_last() =~= s7);
    assert(s9.drop_last() =~= s8);
    assert(s10.drop_last() =~= s9);
    let holder = holder_text(info);
    assert(lock_run(root, s1) == LockNextModel::Do(LockDeedModel::ReadHolder { seen }));
    assert(lock_run(root, s2) == LockNextModel::Do(LockDeedModel::Watch { seen, round: 1, holder }));
    assert(lock_run(root, s3) == LockNextModel::Do(LockDeedModel::Watch { seen, round: 2, holder }));
    assert(lock_run(root, s4) == LockNextModel::Do(LockDeedModel::Watch { seen, round: 3, holder }));
    assert(lock_run(root, s5) == LockNextModel::Do(LockDeedModel::Watch { seen, round: 4, holder }));
    assert(lock_run(root, s6) == LockNextModel::Do(LockDeedModel::Watch { seen, round: 5, holder }));
    assert(lock_run(root, s7) == LockNextModel::Do(LockDeedModel::Watch { seen, round: 6, holder }));
    assert(lock_run(root, s8) == LockNextModel::Do(LockDeedModel::TakeOver { holder }));
    assert(lock_run(root, s9) == LockNextModel::Do(LockDeedModel::Write));
    assert(lock_run(root, s10) is Held);
    assert(s10 =~= seq![
        still,
        LockReply::Holder(info),
        still,
        still,
        still,
        still,
        still,
        still,
        LockReply::Done,
        LockReply::Done,
    ]);
}

/// A watched lock is measured by the time that the probe saw, and who refuses a busy root names the
/// holder that was read: through the whole watch neither changes.
pub proof fn the_watch_keeps_what_the_probe_saw(root: Seq<char>, replies: Seq<LockReply>)
    requires
        lock_proper(root, replies),
    ensures
        lock_run(root, replies) matches LockNextModel::Do(LockDeedModel::Watch { seen, round, holder }) ==> {
            &&& replies.len() == round + 1
            &&& replies[0] == LockReply::Seen(Some(seen))
            &&& replies[1] matches LockReply::Holder(info) && holder == holder_text(info)
        },
        lock_run(root, replies) matches LockNextModel::Do(LockDeedModel::ReadHolder { seen })
            ==> replies.len() == 1 && replies[0] == LockReply::Seen(Some(seen)),
        lock_run(root, replies) matches LockNextModel::Do(LockDeedModel::TakeOver { holder })
            ==> replies.len() == WATCH_ROUNDS + 2 && (replies[1] matches LockReply::Holder(info) && holder
            == holder_text(info)),
        lock_run(root, replies) == LockNextModel::Do(LockDeedModel::Probe) ==> replies.len() == 0,
    decreases replies.len(),
{
    if replies.len() > 0 {
        let before = replies.drop_last();
        the_watch_keeps_what_the_probe_saw(root, before);
        lemma_watching(root, before);
        if before.len() > 0 {
            assert(replies[0] == before[0]);
        }
        if before.len() > 1 {
            assert(replies[1] == before[1]);
        }
    }
}

/// An attempt that failed holds nothing, whatever comes later.
pub proof fn a_refusal_is_final(root: Seq<char>, replies: Seq<LockReply>, more: Seq<LockReply>)
    requires
        lock_run(root, replies) is Refused,
    ensures
        lock_run(root, replies + more) is Refused,
    decreases more.len(),
{
    if more.len() == 0 {
        assert(replies + more =~= replies);
    } else {
        a_refusal_is_final(root, replies, more.drop_last());
        assert((replies + more).drop_last() =~= replies + more.drop_last());
    }
}

/// A lock that could not be written is not held: the attempt ends with that failure.
pub proof fn an_unwritten_lock_is_not_held(
    root: Seq<char>,
    replies: Seq<LockReply>,
    e: IoFailure,
    gone: bool,
)
    requires
        lock_run(root, replies) == LockNextModel::Do(LockDeedModel::Write),
    ensures
        lock_run(root, replies.push(LockReply::Failed(e, gone))) == LockNextModel::Refused(
            e.kind,
            e.raw,
            e.message@,
        ),
{
    assert(replies.push(LockReply::Failed(e, gone)).drop_last() =~= replies);
}

/// Who is refused a root learns which root it is and who holds it.
pub proof fn a_refusal_names_root_and_holder(root: Seq<char>, info: LockInfo)
    ensures
        root.is_prefix_of(busy_text(root, holder_text(Some(info)))),
        exists|a: Seq<char>, b: Seq<char>| #[trigger]
            (a + info.host@ + b) == busy_text(root, holder_text(Some(info))) && root.is_prefix_of(a),
        info.host@.is_prefix_of(holder_text(Some(info))),
{
    let text = busy_text(root, holder_text(Some(info)));
    let a = root + " is being synced right now by "@;
    let b = " (pid "@ + numeral(info.pid as nat) + ")"@ + " — try again later"@;
    assert(a + info.host@ + b =~= text);
    assert(root =~= text.take(root.len() as int));
    assert(root =~= a.take(root.len() as int));
    assert(info.host@ =~= holder_text(Some(info)).take(info.host@.len() as int));
}

} // verus!
