//! What holds of every step that is carried out.
use vstd::prelude::*;
use crate::apply::{
    added_up, after, all_expendable, answers, child_rels, closed, expendable, first, fixes_on, fresh,
    places_on, proper, rules_of, run_of, settled, told_only, unwritten, ApplyModel, ApplyOptions, Deed,
    FixModel, NextModel, OpRun, ReplyModel,
};
use crate::compare::{Action, OpModel, Side};
use crate::fs::vfs::error::{FailureModel, IoKind};

verus! {

/// The deed that was asked for after the first `i` replies.
pub open spec fn asked(op: OpModel, opt: ApplyOptions, rs: Seq<ReplyModel>, i: int) -> Option<Deed> {
    match run_of(op, opt, rs.take(i)) {
        NextModel::Do(run) => Some(run.deed),
        NextModel::Over(_) => None,
    }
}

/// The deed asked for after `i` replies was done.
pub open spec fn did(op: OpModel, opt: ApplyOptions, rs: Seq<ReplyModel>, i: int, deed: Deed) -> bool {
    &&& 0 <= i < rs.len()
    &&& asked(op, opt, rs, i) == Some(deed)
    &&& rs[i] == ReplyModel::Done
}

/// After `i` replies the staged file was given its content: the whole source, or a delta that paid.
pub open spec fn gave_content(op: OpModel, opt: ApplyOptions, rs: Seq<ReplyModel>, i: int) -> bool {
    ||| did(op, opt, rs, i, Deed::Fill)
    ||| {
        &&& 0 <= i < rs.len()
        &&& asked(op, opt, rs, i) == Some(Deed::Delta)
        &&& rs[i] matches ReplyModel::Patched(Some(_))
    }
}

/// After `i` replies the staged file was given its time: the planned one, else the source's.
pub open spec fn gave_time(op: OpModel, opt: ApplyOptions, rs: Seq<ReplyModel>, i: int) -> bool {
    match op.mtime_ms {
        Some(t) => did(op, opt, rs, i, Deed::Stamp(t)),
        None => {
            &&& 0 <= i < rs.len()
            &&& asked(op, opt, rs, i) == Some(Deed::StampLikeSource)
            &&& rs[i] is Time
        },
    }
}

/// The step before the one at `n`: the deed that was asked for then, its reply, and what it led to.
proof fn lemma_prev(op: OpModel, opt: ApplyOptions, rs: Seq<ReplyModel>, n: int) -> (was: OpRun)
    requires
        proper(op, opt, rs),
        0 < n <= rs.len(),
        run_of(op, opt, rs.take(n)) is Do || (n > 0 && run_of(op, opt, rs.take(n - 1)) is Do),
    ensures
        run_of(op, opt, rs.take(n - 1)) == NextModel::Do(was),
        asked(op, opt, rs, n - 1) == Some(was.deed),
        answers(was.deed, rs[n - 1]),
        run_of(op, opt, rs.take(n)) == after(op, opt, was, rs[n - 1]),
{
    assert(rs.take(n).drop_last() =~= rs.take(n - 1));
    assert(rs.take(n).last() == rs[n - 1]);
    match run_of(op, opt, rs.take(n - 1)) {
        NextModel::Do(was) => {
            assert(answers(was.deed, rs[n - 1]));
            was
        },
        NextModel::Over(_) => {
            OpRun { deed: Deed::Parents, intended: None }
        },
    }
}

/// What a step waits for when it begins.
proof fn lemma_start(op: OpModel, opt: ApplyOptions, rs: Seq<ReplyModel>)
    ensures
        run_of(op, opt, rs.take(0)) == first(op),
{
}

/// A step that puts a file in place, and not a link.
pub open spec fn brings_a_file(op: OpModel) -> bool {
    (op.action == Action::Copy || op.action == Action::Update) && op.link is None
}

/// A step that makes a symlink.
pub open spec fn brings_a_link(op: OpModel) -> bool {
    (op.action == Action::Copy || op.action == Action::Update) && op.link is Some
}

/// A deed on the way of a staged file.
pub open spec fn stages(d: Deed) -> bool {
    match d {
        Deed::Stage
        | Deed::DeltaLook
        | Deed::Delta
        | Deed::Fill
        | Deed::Seal
        | Deed::Hash
        | Deed::Stamp(_)
        | Deed::StampLikeSource
        | Deed::Mode(_)
        | Deed::CommitLook
        | Deed::Keep
        | Deed::Commit
        | Deed::ReadBack => true,
        _ => false,
    }
}

/// Every step asks for deeds of its own kind alone: only a copy or an update writes or links, only a
/// move renames, only a deletion deletes, only a directory's deletion removes directories.
pub proof fn a_step_keeps_to_its_deeds(op: OpModel, opt: ApplyOptions, rs: Seq<ReplyModel>, n: int)
    requires
        proper(op, opt, rs),
        0 <= n <= rs.len(),
        asked(op, opt, rs, n) is Some,
    ensures
        ({
            let d = asked(op, opt, rs, n)->0;
            &&& stages(d) ==> brings_a_file(op)
            &&& d == Deed::LinkLook || d == Deed::LinkKeep || d == Deed::Link ==> brings_a_link(op)
            &&& d == Deed::Rename || d == Deed::MoveStage || d == Deed::MoveFill || d == Deed::MoveSeal
                || d == Deed::MoveStamp || d == Deed::MoveCommit || d == Deed::MoveClean ==> op.action
                == Action::Move
            &&& d == Deed::DeleteLook || d == Deed::DeleteKeep ==> op.action == Action::Delete
            &&& d == Deed::RemoveDir || d == Deed::Walk || d == Deed::RemoveTree ==> op.action
                == Action::DeleteDir
            &&& d is Chmod ==> op.action == Action::Chmod && op.mode == Some(d->Chmod_0)
            &&& d == Deed::Parents ==> n == 0 && (op.action == Action::Copy || op.action
                == Action::Update || op.action == Action::Move)
            &&& op.action != Action::Conflict && op.action != Action::Note
        }),
    decreases n,
{
    if n > 0 {
        let was = lemma_prev(op, opt, rs, n);
        a_step_keeps_to_its_deeds(op, opt, rs, n - 1);
    }
}

/// A staged file is given its content after it was begun, and before it is sealed.
proof fn lemma_back_from_seal(op: OpModel, opt: ApplyOptions, rs: Seq<ReplyModel>, n: int) -> (r: (int, int))
    requires
        proper(op, opt, rs),
        0 <= n <= rs.len(),
        asked(op, opt, rs, n) == Some(Deed::Seal),
    ensures
        0 <= r.0 < r.1 < n,
        did(op, opt, rs, r.0, Deed::Stage),
        gave_content(op, opt, rs, r.1),
{
    let a = lemma_prev(op, opt, rs, n);
    if a.deed == Deed::Fill {
        let b = lemma_prev(op, opt, rs, n - 1);
        if b.deed == Deed::Stage {
            (n - 2, n - 1)
        } else if b.deed == Deed::DeltaLook {
            let c = lemma_prev(op, opt, rs, n - 2);
            (n - 3, n - 1)
        } else {
            let c = lemma_prev(op, opt, rs, n - 2);
            let d = lemma_prev(op, opt, rs, n - 3);
            (n - 4, n - 1)
        }
    } else {
        let b = lemma_prev(op, opt, rs, n - 1);
        let c = lemma_prev(op, opt, rs, n - 2);
        (n - 3, n - 1)
    }
}

/// The time is given once the file is sealed and, where asked for, verified.
proof fn lemma_back_from_time(op: OpModel, opt: ApplyOptions, rs: Seq<ReplyModel>, n: int) -> (r: int)
    requires
        proper(op, opt, rs),
        0 <= n <= rs.len(),
        asked(op, opt, rs, n) matches Some(d) && (d is Stamp || d == Deed::StampLikeSource),
    ensures
        0 <= r < n,
        did(op, opt, rs, r, Deed::Seal),
        opt.verify && op.hash is Some ==> verified(op, opt, rs, r + 1) && r + 1 < n,
        match op.mtime_ms {
            Some(t) => asked(op, opt, rs, n) == Some(Deed::Stamp(t)),
            None => asked(op, opt, rs, n) == Some(Deed::StampLikeSource),
        },
{
    let a = lemma_prev(op, opt, rs, n);
    if a.deed == Deed::Hash {
        let b = lemma_prev(op, opt, rs, n - 1);
        n - 2
    } else {
        n - 1
    }
}

/// After `i` replies the staged file was read again and had the planned hash.
pub open spec fn verified(op: OpModel, opt: ApplyOptions, rs: Seq<ReplyModel>, i: int) -> bool {
    &&& 0 <= i < rs.len()
    &&& asked(op, opt, rs, i) == Some(Deed::Hash)
    &&& rs[i] matches ReplyModel::Hashed(got) && op.hash == Some(got)
}

/// The look before a commit is taken once the file has its time and its permission bits.
proof fn lemma_back_from_look(op: OpModel, opt: ApplyOptions, rs: Seq<ReplyModel>, n: int) -> (r: int)
    requires
        proper(op, opt, rs),
        0 <= n <= rs.len(),
        asked(op, opt, rs, n) == Some(Deed::CommitLook),
    ensures
        0 <= r < n,
        gave_time(op, opt, rs, r),
        op.mode matches Some(m) ==> did(op, opt, rs, r + 1, Deed::Mode(m)) && r + 1 < n,
{
    let a = lemma_prev(op, opt, rs, n);
    if a.deed is Mode {
        let b = lemma_prev(op, opt, rs, n - 1);
        let c = lemma_back_from_time(op, opt, rs, n - 2);
        n - 2
    } else {
        let c = lemma_back_from_time(op, opt, rs, n - 1);
        n - 1
    }
}

/// What stands before a commit, in this order: the staged file was begun, given its content, sealed,
/// verified where that was asked for, given its time and its permission bits; and what is in the way
/// was kept, or nothing was.
pub open spec fn ready_to_commit(
    op: OpModel,
    opt: ApplyOptions,
    rs: Seq<ReplyModel>,
    stage: int,
    content: int,
    seal: int,
    time: int,
    look: int,
    n: int,
) -> bool {
    &&& 0 <= stage < content < seal < time < look < n
    &&& did(op, opt, rs, stage, Deed::Stage)
    &&& gave_content(op, opt, rs, content)
    &&& did(op, opt, rs, seal, Deed::Seal)
    &&& opt.verify && op.hash is Some ==> seal + 1 < time && verified(op, opt, rs, seal + 1)
    &&& gave_time(op, opt, rs, time)
    &&& op.mode matches Some(m) ==> time + 1 < look && did(op, opt, rs, time + 1, Deed::Mode(m))
    &&& asked(op, opt, rs, look) == Some(Deed::CommitLook)
    &&& rs[look] == ReplyModel::Found(false) || (look + 1 < n && did(op, opt, rs, look + 1, Deed::Keep))
}

/// Nothing is put in place of a file before it was begun, filled, sealed, verified where that was asked
/// for, and given its time and permission bits, one after the other, and before what is there was kept.
pub proof fn a_commit_is_the_end_of_the_way(
    op: OpModel,
    opt: ApplyOptions,
    rs: Seq<ReplyModel>,
    n: int,
) -> (r: (int, int, int, int, int))
    requires
        proper(op, opt, rs),
        0 <= n <= rs.len(),
        asked(op, opt, rs, n) == Some(Deed::Commit),
    ensures
        ready_to_commit(op, opt, rs, r.0, r.1, r.2, r.3, r.4, n),
{
    let a = lemma_prev(op, opt, rs, n);
    let look = if a.deed == Deed::Keep {
        let b = lemma_prev(op, opt, rs, n - 1);
        n - 2
    } else {
        n - 1
    };
    let time = lemma_back_from_look(op, opt, rs, look);
    let seal = lemma_back_from_time(op, opt, rs, time);
    let (stage, content) = lemma_back_from_seal(op, opt, rs, seal);
    (stage, content, seal, time, look)
}

/// A move that could not be a rename goes through a staged file: begun, filled, sealed and stamped, one
/// after the other, before it is put in place; and what it came from is removed after that alone.
pub proof fn a_move_across_volumes_copies_first(op: OpModel, opt: ApplyOptions, rs: Seq<ReplyModel>, n: int)
    requires
        proper(op, opt, rs),
        0 <= n <= rs.len(),
    ensures
        asked(op, opt, rs, n) == Some(Deed::MoveCommit) ==> {
            &&& n >= 6
            &&& asked(op, opt, rs, n - 5) == Some(Deed::Rename)
            &&& rs[n - 5] is Failed
            &&& did(op, opt, rs, n - 4, Deed::MoveStage)
            &&& did(op, opt, rs, n - 3, Deed::MoveFill)
            &&& did(op, opt, rs, n - 2, Deed::MoveSeal)
            &&& did(op, opt, rs, n - 1, Deed::MoveStamp)
        },
        asked(op, opt, rs, n) == Some(Deed::MoveClean) ==> n > 0 && did(
            op,
            opt,
            rs,
            n - 1,
            Deed::MoveCommit,
        ),
{
    if asked(op, opt, rs, n) == Some(Deed::MoveClean) {
        let a = lemma_prev(op, opt, rs, n);
    }
    if asked(op, opt, rs, n) == Some(Deed::MoveCommit) {
        let a = lemma_prev(op, opt, rs, n);
        let b = lemma_prev(op, opt, rs, n - 1);
        let c = lemma_prev(op, opt, rs, n - 2);
        let d = lemma_prev(op, opt, rs, n - 3);
        let e = lemma_prev(op, opt, rs, n - 4);
        let f = lemma_prev(op, opt, rs, n - 5);
    }
}

/// A symlink takes the place of something only after that was kept.
pub proof fn what_a_link_replaces_is_kept(op: OpModel, opt: ApplyOptions, rs: Seq<ReplyModel>, n: int)
    requires
        proper(op, opt, rs),
        0 <= n <= rs.len(),
        asked(op, opt, rs, n) == Some(Deed::Link),
    ensures
        n >= 2,
        (asked(op, opt, rs, n - 1) == Some(Deed::LinkLook) && rs[n - 1] == ReplyModel::Found(false)) || did(
            op,
            opt,
            rs,
            n - 1,
            Deed::LinkKeep,
        ),
{
    let a = lemma_prev(op, opt, rs, n);
    let b = lemma_prev(op, opt, rs, n - 1);
}

/// A delta is tried only where it was asked for, for an update, and against a file that is there.
pub proof fn a_delta_needs_an_old_file(op: OpModel, opt: ApplyOptions, rs: Seq<ReplyModel>, n: int)
    requires
        proper(op, opt, rs),
        0 <= n <= rs.len(),
        asked(op, opt, rs, n) == Some(Deed::Delta),
    ensures
        opt.delta,
        op.action == Action::Update,
        n >= 2,
        asked(op, opt, rs, n - 1) == Some(Deed::DeltaLook),
        rs[n - 1] == ReplyModel::Found(true),
{
    let a = lemma_prev(op, opt, rs, n);
    let b = lemma_prev(op, opt, rs, n - 1);
}

/// A step that ended well did what it is for.
pub open spec fn work_done(op: OpModel, opt: ApplyOptions, rs: Seq<ReplyModel>) -> bool {
    match op.action {
        Action::Copy | Action::Update => if op.link is Some {
            exists|i: int| #[trigger] did(op, opt, rs, i, Deed::Link)
        } else {
            exists|i: int| #[trigger] did(op, opt, rs, i, Deed::Commit)
        },
        Action::Move => {
            ||| exists|i: int| #[trigger] did(op, opt, rs, i, Deed::Rename)
            ||| exists|i: int| #[trigger] did(op, opt, rs, i, Deed::MoveClean)
        },
        Action::Chmod => op.mode matches Some(m) && exists|i: int| #[trigger]
            did(op, opt, rs, i, Deed::Chmod(m)),
        Action::Delete => {
            ||| exists|i: int| #[trigger] did(op, opt, rs, i, Deed::DeleteKeep)
            ||| exists|i: int|
                #![trigger rs[i]]
                0 <= i < rs.len() && asked(op, opt, rs, i) == Some(Deed::DeleteLook) && rs[i]
                    == ReplyModel::Found(false)
        },
        Action::DeleteDir => {
            ||| exists|i: int| #[trigger] did(op, opt, rs, i, Deed::RemoveDir)
            ||| exists|i: int| #[trigger] did(op, opt, rs, i, Deed::RemoveTree)
            ||| exists|i: int|
                #![trigger rs[i]]
                0 <= i < rs.len() && asked(op, opt, rs, i) == Some(Deed::RemoveDir) && (rs[i] matches ReplyModel::Failed(
                    e,
                ) && e.kind == IoKind::NotFound)
        },
        Action::Conflict | Action::Note => true,
    }
}

/// A step counts as done only where the deed it is for was done: a file or a link is in place, a move
/// was renamed or copied and cleaned up, the bits were set, what was to go is gone.
pub proof fn a_step_that_ends_well_did_its_work(
    op: OpModel,
    opt: ApplyOptions,
    rs: Seq<ReplyModel>,
    off: Option<(i64, i64)>,
)
    requires
        proper(op, opt, rs),
        run_of(op, opt, rs) == NextModel::Over(Ok(off)),
    ensures
        work_done(op, opt, rs),
    decreases rs.len(),
{
    let n = rs.len() as int;
    assert(rs.take(n) =~= rs);
    if n > 0 {
        assert(rs.take(n).drop_last() =~= rs.take(n - 1));
        match run_of(op, opt, rs.take(n - 1)) {
            NextModel::Do(_) => {
                let was = lemma_prev(op, opt, rs, n);
                a_step_keeps_to_its_deeds(op, opt, rs, n - 1);
                if was.deed == Deed::ReadBack {
                    let b = lemma_prev(op, opt, rs, n - 1);
                    assert(did(op, opt, rs, n - 2, Deed::Commit));
                } else if rs[n - 1] == ReplyModel::Done {
                    assert(did(op, opt, rs, n - 1, was.deed));
                } else {
                    assert(rs[n - 1] is Found || rs[n - 1] is Failed);
                }
            },
            NextModel::Over(_) => {
                let less = rs.take(n - 1);
                lemma_proper_before(op, opt, rs);
                a_step_that_ends_well_did_its_work(op, opt, less, off);
                lemma_work_stays(op, opt, rs);
            },
        }
    }
}

proof fn lemma_proper_before(op: OpModel, opt: ApplyOptions, rs: Seq<ReplyModel>)
    requires
        proper(op, opt, rs),
        rs.len() > 0,
    ensures
        proper(op, opt, rs.take(rs.len() - 1)),
{
    let less = rs.take(rs.len() - 1);
    assert forall|i: int|
        #![trigger less[i]]
        0 <= i < less.len() implies (run_of(op, opt, less.take(i)) matches NextModel::Do(run)
        ==> answers(run.deed, less[i])) by {
        assert(less.take(i) =~= rs.take(i));
        assert(less[i] == rs[i]);
    }
}

proof fn lemma_work_stays(op: OpModel, opt: ApplyOptions, rs: Seq<ReplyModel>)
    requires
        rs.len() > 0,
        work_done(op, opt, rs.take(rs.len() - 1)),
    ensures
        work_done(op, opt, rs),
{
    let less = rs.take(rs.len() - 1);
    assert forall|i: int, d: Deed| #[trigger] did(op, opt, less, i, d) implies did(op, opt, rs, i, d) by {
        assert(less.take(i) =~= rs.take(i));
        assert(less[i] == rs[i]);
    }
    match op.action {
        Action::Copy | Action::Update => {
            let d = if op.link is Some {
                Deed::Link
            } else {
                Deed::Commit
            };
            let i = choose|i: int| #[trigger] did(op, opt, less, i, d);
            assert(did(op, opt, rs, i, d));
        },
        Action::Move => {
            if exists|i: int| #[trigger] did(op, opt, less, i, Deed::Rename) {
                let i = choose|i: int| #[trigger] did(op, opt, less, i, Deed::Rename);
                assert(did(op, opt, rs, i, Deed::Rename));
            } else {
                let i = choose|i: int| #[trigger] did(op, opt, less, i, Deed::MoveClean);
                assert(did(op, opt, rs, i, Deed::MoveClean));
            }
        },
        Action::Chmod => {
            let m = op.mode->0;
            let i = choose|i: int| #[trigger] did(op, opt, less, i, Deed::Chmod(m));
            assert(did(op, opt, rs, i, Deed::Chmod(m)));
        },
        Action::Delete => {
            if exists|i: int| #[trigger] did(op, opt, less, i, Deed::DeleteKeep) {
                let i = choose|i: int| #[trigger] did(op, opt, less, i, Deed::DeleteKeep);
                assert(did(op, opt, rs, i, Deed::DeleteKeep));
            } else {
                let i = choose|i: int|
                    #![trigger less[i]]
                    0 <= i < less.len() && asked(op, opt, less, i) == Some(Deed::DeleteLook) && less[i]
                        == ReplyModel::Found(false);
                assert(less.take(i) =~= rs.take(i));
                assert(rs[i] == less[i]);
            }
        },
        Action::DeleteDir => {
            if exists|i: int| #[trigger] did(op, opt, less, i, Deed::RemoveDir) {
                let i = choose|i: int| #[trigger] did(op, opt, less, i, Deed::RemoveDir);
                assert(did(op, opt, rs, i, Deed::RemoveDir));
            } else if exists|i: int| #[trigger] did(op, opt, less, i, Deed::RemoveTree) {
                let i = choose|i: int| #[trigger] did(op, opt, less, i, Deed::RemoveTree);
                assert(did(op, opt, rs, i, Deed::RemoveTree));
            } else {
                let i = choose|i: int|
                    #![trigger less[i]]
                    0 <= i < less.len() && asked(op, opt, less, i) == Some(Deed::RemoveDir) && (less[i] matches ReplyModel::Failed(
                        e,
                    ) && e.kind == IoKind::NotFound);
                assert(less.take(i) =~= rs.take(i));
                assert(rs[i] == less[i]);
            }
        },
        _ => {},
    }
}

/// How far along its way a deed is.
spec fn stage_no(d: Deed) -> int {
    match d {
        Deed::Parents => 0,
        Deed::LinkLook => 1,
        Deed::LinkKeep => 2,
        Deed::Link => 3,
        Deed::Stage => 1,
        Deed::DeltaLook => 2,
        Deed::Delta => 3,
        Deed::Fill => 4,
        Deed::Seal => 5,
        Deed::Hash => 6,
        Deed::Stamp(_) => 7,
        Deed::StampLikeSource => 7,
        Deed::Mode(_) => 8,
        Deed::CommitLook => 9,
        Deed::Keep => 10,
        Deed::Commit => 11,
        Deed::ReadBack => 12,
        Deed::Chmod(_) => 0,
        Deed::Rename => 1,
        Deed::MoveStage => 2,
        Deed::MoveFill => 3,
        Deed::MoveSeal => 4,
        Deed::MoveStamp => 5,
        Deed::MoveCommit => 6,
        Deed::MoveClean => 7,
        Deed::DeleteLook => 0,
        Deed::DeleteKeep => 1,
        Deed::RemoveDir => 0,
        Deed::Walk => 1,
        Deed::RemoveTree => 2,
    }
}

/// No step goes on for ever: after thirteen replies it is over, whatever they were.
pub proof fn a_step_ends(op: OpModel, opt: ApplyOptions, rs: Seq<ReplyModel>)
    requires
        proper(op, opt, rs),
        rs.len() >= 13,
    ensures
        run_of(op, opt, rs) is Over,
{
    assert(rs.take(rs.len() as int) =~= rs);
    lemma_further(op, opt, rs, rs.len() as int);
}

proof fn lemma_further(op: OpModel, opt: ApplyOptions, rs: Seq<ReplyModel>, n: int)
    requires
        proper(op, opt, rs),
        0 <= n <= rs.len(),
    ensures
        asked(op, opt, rs, n) matches Some(d) ==> n <= stage_no(d) <= 12,
    decreases n,
{
    if n > 0 && asked(op, opt, rs, n) is Some {
        let was = lemma_prev(op, opt, rs, n);
        lemma_further(op, opt, rs, n - 1);
    }
}

/// The time that a file is meant to have, once it was given one: the planned one, else the source's.
pub open spec fn meant_time(op: OpModel, opt: ApplyOptions, rs: Seq<ReplyModel>, t: i64) -> bool {
    match op.mtime_ms {
        Some(planned) => t == planned,
        None => exists|i: int|
            #![trigger rs[i]]
            0 <= i < rs.len() && asked(op, opt, rs, i) == Some(Deed::StampLikeSource) && rs[i]
                == ReplyModel::Time(Some(t)),
    }
}

/// The time that a step remembers is the one that the file is meant to have, and it is remembered until
/// the file is in place.
proof fn lemma_intended(op: OpModel, opt: ApplyOptions, rs: Seq<ReplyModel>, n: int, run: OpRun)
    requires
        proper(op, opt, rs),
        0 <= n <= rs.len(),
        run_of(op, opt, rs.take(n)) == NextModel::Do(run),
    ensures
        run.intended matches Some(t) ==> meant_time(op, opt, rs, t),
        op.mtime_ms is Some && (run.deed is Stamp || run.deed is Mode || run.deed == Deed::CommitLook
            || run.deed == Deed::Keep || run.deed == Deed::Commit || run.deed == Deed::ReadBack)
            ==> run.intended == op.mtime_ms,
    decreases n,
{
    if n > 0 {
        let was = lemma_prev(op, opt, rs, n);
        lemma_intended(op, opt, rs, n - 1, was);
        if was.deed == Deed::StampLikeSource {
            assert(rs[n - 1] is Time);
            if n > 1 {
                let time = lemma_back_from_time(op, opt, rs, n - 1);
            }
        }
    }
}

/// A planned time is looked up again once the file is in place, and a step tells of a time exactly where
/// the stored one is not the one that was meant.
pub proof fn a_time_that_did_not_stick_is_told(op: OpModel, opt: ApplyOptions, rs: Seq<ReplyModel>)
    requires
        proper(op, opt, rs),
        rs.len() > 0,
        asked(op, opt, rs, rs.len() - 1) is Some,
    ensures
        run_of(op, opt, rs) matches NextModel::Over(Ok(Some((got, want)))) ==> {
            &&& got != want
            &&& asked(op, opt, rs, rs.len() - 1) == Some(Deed::ReadBack)
            &&& rs.last() == ReplyModel::Time(Some(got))
            &&& meant_time(op, opt, rs, want)
        },
        (rs.last() matches ReplyModel::Time(Some(got)) && asked(op, opt, rs, rs.len() - 1) == Some(
            Deed::ReadBack,
        ) && op.mtime_ms matches Some(want)) ==> run_of(op, opt, rs) == NextModel::Over(
            Ok(
                if rs.last()->Time_0 == op.mtime_ms {
                    None
                } else {
                    Some((rs.last()->Time_0->0, op.mtime_ms->0))
                },
            ),
        ),
        op.mtime_ms is Some && did(op, opt, rs, rs.len() - 1, Deed::Commit) ==> asked(
            op,
            opt,
            rs,
            rs.len() as int,
        ) == Some(Deed::ReadBack),
{
    let n = rs.len() as int;
    assert(rs.take(n) =~= rs);
    let was = lemma_prev(op, opt, rs, n);
    lemma_intended(op, opt, rs, n - 1, was);
}

/// A hash that is not the planned one ends the step as invalid data: nothing is put in place.
pub proof fn a_wrong_hash_lands_nothing(
    op: OpModel,
    opt: ApplyOptions,
    rs: Seq<ReplyModel>,
    n: int,
    got: Seq<char>,
)
    requires
        proper(op, opt, rs),
        0 <= n < rs.len(),
        asked(op, opt, rs, n) == Some(Deed::Hash),
        rs[n] == ReplyModel::Hashed(got),
        op.hash != Some(got),
    ensures
        run_of(op, opt, rs) matches NextModel::Over(Err(e)) && e.kind == IoKind::InvalidData,
        forall|i: int| #![trigger rs[i]] !did(op, opt, rs, i, Deed::Commit),
{
    let was = lemma_prev(op, opt, rs, n + 1);
    let end = run_of(op, opt, rs.take(n + 1))->Over_0;
    lemma_stays_over(op, opt, rs, n + 1, rs.len() as int, end);
    assert(rs.take(rs.len() as int) =~= rs);
    assert forall|i: int| #![trigger rs[i]] !did(op, opt, rs, i, Deed::Commit) by {
        if did(op, opt, rs, i, Deed::Commit) {
            if i > n {
                lemma_stays_over(op, opt, rs, n + 1, i, end);
            } else {
                lemma_further_between(op, opt, rs, i, n);
            }
        }
    }
}

proof fn lemma_stays_over(
    op: OpModel,
    opt: ApplyOptions,
    rs: Seq<ReplyModel>,
    i: int,
    n: int,
    end: Result<Option<(i64, i64)>, FailureModel>,
)
    requires
        0 <= i <= n <= rs.len(),
        run_of(op, opt, rs.take(i)) == NextModel::Over(end),
    ensures
        run_of(op, opt, rs.take(n)) == NextModel::Over(end),
    decreases n - i,
{
    if i < n {
        lemma_stays_over(op, opt, rs, i, n - 1, end);
        assert(rs.take(n).drop_last() =~= rs.take(n - 1));
    }
}

proof fn lemma_further_between(op: OpModel, opt: ApplyOptions, rs: Seq<ReplyModel>, i: int, n: int)
    requires
        proper(op, opt, rs),
        0 <= i <= n <= rs.len(),
        asked(op, opt, rs, n) is Some,
    ensures
        asked(op, opt, rs, i) matches Some(d) && stage_no(d) <= stage_no(asked(op, opt, rs, n)->0),
    decreases n - i,
{
    if i < n {
        let was = lemma_prev(op, opt, rs, n);
        lemma_further_between(op, opt, rs, i, n - 1);
    }
}

/// A failure is never counted as done, and what went well never as an error: closing a step counts it
/// once, and only a directory that had to be kept counts as skipped.
pub proof fn every_end_is_counted_for_what_it_is(
    m: ApplyModel,
    op: OpModel,
    opt: ApplyOptions,
    end: Result<Option<(i64, i64)>, FailureModel>,
)
    ensures
        ({
            let c = closed(m, op, opt, end);
            &&& c.at == m.at + 1
            &&& c.done + c.skipped + c.errors == m.done + m.skipped + m.errors + 1
            &&& c.done > m.done <==> end is Ok
            &&& c.errors > m.errors <==> (end matches Err(e) && e.kind != IoKind::DirectoryNotEmpty)
            &&& c.done >= m.done && c.errors >= m.errors && c.skipped >= m.skipped
            &&& c.saved == m.saved
            &&& m.lines.is_prefix_of(c.lines)
            &&& end is Err ==> c.lines.len() == m.lines.len() + 1
            &&& end matches Err(e) ==> c.lines.last().0 == (e.kind != IoKind::DirectoryNotEmpty)
            &&& m.fixes.is_prefix_of(c.fixes)
            &&& c.fixes.len() > m.fixes.len() <==> (end matches Ok(Some(_)))
            &&& end matches Ok(Some((got, want))) ==> c.fixes.len() == m.fixes.len() + 1
                && c.fixes.last().path == op.path && c.fixes.last().ondisk == got
                && c.fixes.last().intended == want && (c.fixes.last().source <==> op.side
                == Side::Source)
        }),
{
}

/// Conflicts, notes and dry runs change nothing but the count of what was skipped and what is told; no
/// step is passed over: the first one that is to be carried out is the one that waits.
pub proof fn no_step_is_passed_over(m: ApplyModel, ops: Seq<OpModel>, opt: ApplyOptions)
    requires
        0 <= m.at <= ops.len(),
    ensures
        ({
            let s = settled(m, ops, opt);
            &&& m.at <= s.at <= ops.len()
            &&& s.at - m.at == (s.done - m.done) + (s.skipped - m.skipped) + (s.errors - m.errors)
            &&& s.done == m.done
            &&& s.fixes == m.fixes
            &&& s.saved == m.saved
            &&& s.run is Some <==> s.at < ops.len()
            &&& s.run matches Some(run) ==> !opt.dry_run && first(ops[s.at]) == NextModel::Do(run)
            &&& forall|i: int|
                m.at <= i < s.at ==> opt.dry_run || (#[trigger] ops[i]).action == Action::Conflict
                    || ops[i].action == Action::Note || (ops[i].action == Action::Chmod && ops[i].mode
                    is None)
        }),
    decreases ops.len() - m.at,
{
    if m.at < ops.len() {
        let op = ops[m.at];
        match told_only(op, opt) {
            Some(lines) => {
                no_step_is_passed_over(
                    ApplyModel {
                        at: m.at + 1,
                        run: None,
                        skipped: m.skipped + 1,
                        lines: m.lines + lines,
                        ..m
                    },
                    ops,
                    opt,
                );
            },
            None => match first(op) {
                NextModel::Do(run) => {},
                NextModel::Over(end) => {
                    no_step_is_passed_over(closed(m, op, opt, end), ops, opt);
                },
            },
        }
    }
}

/// What a delta saved is never more than the file, and nothing where all of it was written.
pub proof fn a_delta_saves_no_more_than_the_file(written: u64, total: u64, saved: u64)
    ensures
        0 <= unwritten(written, total) <= total,
        written <= total ==> written + unwritten(written, total) == total,
        written >= total ==> unwritten(written, total) == 0,
        saved <= added_up(saved, unwritten(written, total)),
        saved + unwritten(written, total) <= u64::MAX ==> added_up(saved, unwritten(written, total)) == saved
            + unwritten(written, total),
{
}

/// The fixes of the two sides are told apart and none is lost.
pub proof fn fixes_go_to_their_side(fixes: Seq<FixModel>, source: bool, f: FixModel)
    ensures
        fixes_on(fixes, source).contains(f) <==> fixes.contains(f) && f.source == source,
        fixes_on(fixes, true).len() + fixes_on(fixes, false).len() == fixes.len(),
    decreases fixes.len(),
{
    if fixes.len() > 0 {
        let less = fixes.drop_last();
        let on = fixes_on(less, source);
        fixes_go_to_their_side(less, source, f);
        assert(fixes =~= less.push(fixes.last()));
        assert(fixes[less.len() as int] == fixes.last());
        if less.contains(f) {
            let k = choose|k: int| 0 <= k < less.len() && less[k] == f;
            assert(fixes[k] == f);
        }
        if fixes.last().source == source {
            assert(on.push(fixes.last())[on.len() as int] == fixes.last());
            if on.contains(f) {
                let k = choose|k: int| 0 <= k < on.len() && on[k] == f;
                assert(on.push(fixes.last())[k] == f);
            }
        }
    } else {
        assert(!fixes.contains(f));
    }
}

/// The places of one side are those of its steps, each once, in order.
pub proof fn places_are_those_of_the_side(ops: Seq<OpModel>, side: Side)
    ensures
        forall|i: int| #[trigger]
            places_on(ops, side).contains(i) <==> 0 <= i < ops.len() && ops[i].side == side,
        forall|a: int, b: int|
            0 <= a < b < places_on(ops, side).len() ==> places_on(ops, side)[a] < places_on(ops, side)[b],
    decreases ops.len(),
{
    if ops.len() > 0 {
        let less = ops.drop_last();
        let on = places_on(less, side);
        let last = ops.len() - 1;
        places_are_those_of_the_side(less, side);
        assert forall|i: int| #[trigger] places_on(ops, side).contains(i) <==> 0 <= i < ops.len() && ops[i].side
            == side by {
            if ops.last().side == side {
                assert(on.push(last)[on.len() as int] == last);
                if on.contains(i) {
                    let k = choose|k: int| 0 <= k < on.len() && on[k] == i;
                    assert(on.push(last)[k] == i);
                }
            }
            if 0 <= i < last {
                assert(less[i] == ops[i]);
            }
            assert(on.contains(i) <==> 0 <= i < last && less[i].side == side);
        }
        assert forall|a: int, b: int|
            0 <= a < b < places_on(ops, side).len() implies places_on(ops, side)[a] < places_on(
            ops,
            side,
        )[b] by {
            if b == on.len() {
                assert(on.contains(on[a]));
            }
        }
    }
}

/// Without a filter nothing goes along with its directory: every directory that is not empty is kept.
pub proof fn without_a_filter_nothing_goes_along(opt: ApplyOptions, dir: Seq<char>, inner: Seq<Seq<char>>)
    requires
        opt.filter is None,
        inner.len() > 0,
    ensures
        !all_expendable(rules_of(opt.filter), child_rels(dir, inner)),
{
    assert(!expendable(rules_of(opt.filter), child_rels(dir, inner)[0]));
}

/// A step fails for a reason: a deed failed and that is its failure, the hash was another, what was left
/// in a directory may not go, or the bits to set were not said.
pub proof fn only_a_failure_fails(
    op: OpModel,
    opt: ApplyOptions,
    rs: Seq<ReplyModel>,
    n: int,
    e: FailureModel,
)
    requires
        proper(op, opt, rs),
        0 <= n <= rs.len(),
        run_of(op, opt, rs.take(n)) == NextModel::Over(Err(e)),
        n > 0 ==> asked(op, opt, rs, n - 1) is Some,
    ensures
        n == 0 ==> op.action == Action::Chmod && op.mode is None,
        n > 0 ==> {
            ||| rs[n - 1] == ReplyModel::Failed(e)
            ||| rs[n - 1] matches ReplyModel::Hashed(got) && op.hash != Some(got) && opt.verify
            ||| rs[n - 1] matches ReplyModel::Files(inner) && !all_expendable(
                rules_of(opt.filter),
                child_rels(op.path, inner),
            ) && e.kind == IoKind::DirectoryNotEmpty
        },
{
    if n > 0 {
        let was = lemma_prev(op, opt, rs, n);
        if was.deed == Deed::Hash {
            a_hash_is_asked_for_on_request(op, opt, rs, n - 1);
        }
    }
}

/// What was written is read again only where that was asked for and a hash is planned.
pub proof fn a_hash_is_asked_for_on_request(op: OpModel, opt: ApplyOptions, rs: Seq<ReplyModel>, n: int)
    requires
        proper(op, opt, rs),
        0 <= n <= rs.len(),
        asked(op, opt, rs, n) == Some(Deed::Hash),
    ensures
        opt.verify,
        op.hash is Some,
        n > 0,
        did(op, opt, rs, n - 1, Deed::Seal),
{
    let was = lemma_prev(op, opt, rs, n);
}

/// A file is taken away only where it is there; a directory that is gone already is fine, one that is not
/// empty is looked into, and any other failure stands.
pub proof fn deleting_looks_first(op: OpModel, opt: ApplyOptions, rs: Seq<ReplyModel>, n: int)
    requires
        proper(op, opt, rs),
        0 <= n <= rs.len(),
    ensures
        asked(op, opt, rs, n) == Some(Deed::DeleteKeep) ==> n == 1 && rs[0] == ReplyModel::Found(true),
        asked(op, opt, rs, n) == Some(Deed::Walk) ==> n == 1 && (rs[0] matches ReplyModel::Failed(e) && e.kind
            != IoKind::NotFound && (e.kind == IoKind::DirectoryNotEmpty || e.raw == Some(145i32) || e.raw
            == Some(39i32))),
        op.action == Action::DeleteDir && n == 1 && (rs[0] matches ReplyModel::Failed(e) && e.kind
            == IoKind::DirectoryNotEmpty) ==> asked(op, opt, rs, n) == Some(Deed::Walk),
        asked(op, opt, rs, n) == Some(Deed::RemoveTree) ==> n == 2 && asked(op, opt, rs, 1) == Some(
            Deed::Walk,
        ),
{
    if n > 0 && asked(op, opt, rs, n) is Some {
        let was = lemma_prev(op, opt, rs, n);
        lemma_further(op, opt, rs, n);
        if n > 1 {
            let before = lemma_prev(op, opt, rs, n - 1);
            lemma_further(op, opt, rs, n - 1);
        }
    }
    if op.action == Action::DeleteDir && n == 1 {
        lemma_start(op, opt, rs);
        let was = lemma_prev(op, opt, rs, 1);
    }
}

/// A run begins with nothing done, nothing skipped and nothing failed.
pub proof fn a_run_begins_with_nothing_done()
    ensures
        fresh().at == 0,
        fresh().done + fresh().skipped + fresh().errors == 0,
        fresh().done >= 0 && fresh().skipped >= 0 && fresh().errors >= 0,
        fresh().saved == 0,
        fresh().fixes.len() == 0,
        fresh().lines.len() == 0,
        fresh().run is None,
{
}

/// A step is only told exactly where it is a conflict, a note or one of a dry run. A conflict and a note
/// are always told, by their path, as a remark and not as an error; a dry run tells what it would do where
/// that was asked for.
pub proof fn what_is_not_done_is_told(op: OpModel, opt: ApplyOptions)
    ensures
        told_only(op, opt) is Some <==> op.action == Action::Conflict || op.action == Action::Note || opt.dry_run,
        told_only(op, opt) matches Some(lines) ==> {
            &&& lines.len() <= 1
            &&& lines.len() == 1 <==> op.action == Action::Conflict || op.action == Action::Note || opt.verbose
            &&& lines.len() == 1 ==> !lines[0].0
        },
{
}

} // verus!
