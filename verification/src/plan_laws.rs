//! What holds of every plan that comparing makes.
use vstd::prelude::*;
use crate::compare::{
    added, alone, all_legalized, arranged, at, copy_rule, could_be_moved, delete_rule, deleted,
    depth_key, entry_for, entry_key, files_alike, first_illegal, first_where, free_test, gather,
    is_first, is_table, last_with_hash, left_over, legalized, move_rule, namesake_test, op_key, op_keys,
    op_models, pairing, partner, plan_of, rank, rows_of, select, table_of, tables, unpaired,
    Action, OpModel, Plan, Side, Tables,
};
use crate::foundation::names::{device_base, device_name};
use crate::foundation::path::file_name_of;
use crate::foundation::text::key_of;
use crate::order::{
    codes, lemma_codes_injective, lemma_text_total, lemma_text_transitive, lex_lt, sorts_before,
    stable_order, stable_order_is_complete, text_lt,
};
use crate::strings::split;
use crate::table::{entry_models, EntryKind, EntryModel, Snapshot};

verus! {

/// Every gathered step comes from the rule at some position, and every step of the rule is gathered.
proof fn lemma_gather(n: int, rule: spec_fn(int) -> Option<OpModel>)
    ensures
        forall|k: int|
            0 <= k < gather(n, rule).len() ==> exists|i: int|
                0 <= i < n && #[trigger] rule(i) == Some(#[trigger] gather(n, rule)[k]),
        forall|i: int|
            0 <= i < n && (#[trigger] rule(i)) is Some ==> gather(n, rule).contains(rule(i)->0),
    decreases n,
{
    if n > 0 {
        lemma_gather(n - 1, rule);
        let before = gather(n - 1, rule);
        let now = gather(n, rule);
        assert forall|k: int| 0 <= k < now.len() implies exists|i: int|
            0 <= i < n && #[trigger] rule(i) == Some(#[trigger] now[k]) by {
            if k < before.len() {
                assert(now[k] == before[k]);
                let i = choose|i: int| 0 <= i < n - 1 && #[trigger] rule(i) == Some(before[k]);
                assert(rule(i) == Some(now[k]));
            } else {
                assert(rule(n - 1) == Some(now[k]));
            }
        }
        assert forall|i: int| 0 <= i < n && (#[trigger] rule(i)) is Some implies now.contains(
            rule(i)->0,
        ) by {
            if i < n - 1 {
                let k = choose|k: int| 0 <= k < before.len() && before[k] == rule(i)->0;
                assert(now[k] == rule(i)->0);
            } else {
                assert(now[now.len() - 1] == rule(i)->0);
            }
        }
    }
}

/// Putting steps in order neither loses nor invents one.
pub proof fn arranging_keeps_every_step(ops: Seq<OpModel>, out: Seq<OpModel>)
    requires
        arranged(ops, out),
    ensures
        out.len() == ops.len(),
        forall|op: OpModel| #[trigger] ops.contains(op) <==> out.contains(op),
{
    let p = choose|p: Seq<usize>| #[trigger]
        stable_order(op_keys(ops), p) && out == Seq::new(p.len(), |i: int| ops[p[i] as int]);
    assert forall|op: OpModel| #[trigger] ops.contains(op) implies out.contains(op) by {
        let k = choose|k: int| 0 <= k < ops.len() && ops[k] == op;
        stable_order_is_complete(op_keys(ops), p, k);
        let i = choose|i: int| 0 <= i < p.len() && p[i] == k;
        assert(out[i] == op);
    }
    assert forall|op: OpModel| out.contains(op) implies #[trigger] ops.contains(op) by {
        let i = choose|i: int| 0 <= i < out.len() && out[i] == op;
        assert(ops[p[i] as int] == op);
    }
}

/// Steps run by rank: moves, then copies and updates, then deletions, then directories, then what is
/// only said. Within a rank they run by path, but a deeper directory goes before a shallower one.
pub proof fn steps_run_in_rank_order(ops: Seq<OpModel>, out: Seq<OpModel>, i: int, j: int)
    requires
        arranged(ops, out),
        0 <= i < j < out.len(),
    ensures
        rank(out[i].action) <= rank(out[j].action),
        out[i].action == Action::DeleteDir && out[j].action == Action::DeleteDir ==> depth_key(out[i].path)
            >= depth_key(out[j].path),
        rank(out[i].action) == rank(out[j].action) && out[i].action != Action::DeleteDir ==> text_lt(
            out[i].path,
            out[j].path,
        ) || out[i].path == out[j].path,
{
    let p = choose|p: Seq<usize>| #[trigger]
        stable_order(op_keys(ops), p) && out == Seq::new(p.len(), |i: int| ops[p[i] as int]);
    let keys = op_keys(ops);
    let a = p[i] as int;
    let b = p[j] as int;
    assert(sorts_before(keys, p[i] as int, p[j] as int));
    assert(keys[a] == op_key(out[i]));
    assert(keys[b] == op_key(out[j]));
    assert(keys[a][0] == rank(out[i].action));
    assert(keys[b][0] == rank(out[j].action));
    if rank(out[i].action) == rank(out[j].action) && out[i].action != Action::DeleteDir {
        assert(out[j].action != Action::DeleteDir);
        let x = codes(out[i].path);
        let y = codes(out[j].path);
        assert(keys[a].skip(1) =~= x);
        assert(keys[b].skip(1) =~= y);
        if keys[a] == keys[b] {
            lemma_codes_injective(out[i].path, out[j].path);
        }
    }
    if out[i].action == Action::DeleteDir && out[j].action == Action::DeleteDir {
        let x = keys[a].skip(1);
        let y = keys[b].skip(1);
        assert(keys[a][1] == (-depth_key(out[i].path)) as i64);
        assert(keys[b][1] == (-depth_key(out[j].path)) as i64);
        if lex_lt(keys[a], keys[b]) {
            assert(lex_lt(x, y));
            assert(x[0] == keys[a][1]);
            assert(y[0] == keys[b][1]);
            if x[0] != y[0] {
                assert(x[0] < y[0]);
            }
        }
    }
}

/// What a step of a rule must satisfy for every gathered step to satisfy it.
spec fn rule_keeps(n: int, rule: spec_fn(int) -> Option<OpModel>, good: spec_fn(OpModel) -> bool) -> bool {
    forall|i: int| 0 <= i < n ==> (#[trigger] rule(i) matches Some(op) ==> good(op))
}

spec fn all_good(ops: Seq<OpModel>, good: spec_fn(OpModel) -> bool) -> bool {
    forall|k: int| 0 <= k < ops.len() ==> good(#[trigger] ops[k])
}

proof fn lemma_gather_good(
    n: int,
    rule: spec_fn(int) -> Option<OpModel>,
    good: spec_fn(OpModel) -> bool,
)
    requires
        rule_keeps(n, rule, good),
    ensures
        all_good(gather(n, rule), good),
{
    lemma_gather(n, rule);
    assert forall|k: int| 0 <= k < gather(n, rule).len() implies good(#[trigger] gather(n, rule)[k]) by {
        let i = choose|i: int| 0 <= i < n && #[trigger] rule(i) == Some(gather(n, rule)[k]);
        assert(rule(i) matches Some(op) ==> good(op));
    }
}

proof fn lemma_good_concat(a: Seq<OpModel>, b: Seq<OpModel>, good: spec_fn(OpModel) -> bool)
    requires
        all_good(a, good),
        all_good(b, good),
    ensures
        all_good(a + b, good),
{
    assert forall|k: int| 0 <= k < (a + b).len() implies good(#[trigger] (a + b)[k]) by {
        if k < a.len() {
            assert(good(a[k]));
        } else {
            assert(good(b[k - a.len()]));
        }
    }
}

/// What holds of every drafted step, and survives becoming a conflict, holds of every planned step.
proof fn lemma_plan_good(
    source: Snapshot,
    target: Snapshot,
    mode: Seq<char>,
    archive: Option<&Snapshot>,
    newer_wins: bool,
    ci: bool,
    plan: Plan,
    good: spec_fn(OpModel) -> bool,
)
    requires
        plan_of(source, target, mode, archive, newer_wins, ci, plan),
        all_good(tables(source, target, archive, newer_wins, ci).draft(mode), good),
        forall|op: OpModel, s: Seq<char>, t: Seq<char>| #[trigger]
            good(op) ==> good(#[trigger] legalized(op, s, t)),
    ensures
        all_good(op_models(plan.ops@), good),
{
    let draft = tables(source, target, archive, newer_wins, ci).draft(mode);
    let legal = all_legalized(draft, source.header.os@, target.header.os@);
    let out = op_models(plan.ops@);
    arranging_keeps_every_step(legal, out);
    assert forall|k: int| 0 <= k < out.len() implies good(#[trigger] out[k]) by {
        assert(out.contains(out[k]));
        assert(legal.contains(out[k]));
        let i = choose|i: int| 0 <= i < legal.len() && legal[i] == out[k];
        assert(good(draft[i]));
        assert(legal[i] == legalized(draft[i], source.header.os@, target.header.os@));
    }
}

/// A step that neither deletes nor moves; on the source it only reports.
pub open spec fn only_gains(op: OpModel) -> bool {
    &&& op.action != Action::Move
    &&& op.action != Action::Delete
    &&& op.action != Action::DeleteDir
    &&& op.side == Side::Source ==> op.action == Action::Note
}

/// A step that changes nothing on the source.
pub open spec fn spares_source(op: OpModel) -> bool {
    op.side == Side::Source ==> op.action == Action::Note
}

/// A step that takes nothing away on either side.
pub open spec fn takes_nothing(op: OpModel) -> bool {
    op.action != Action::Move && op.action != Action::Delete && op.action != Action::DeleteDir
}

proof fn lemma_modes_differ()
    ensures
        "mirror"@ != "enrich"@,
        "mirror"@ != "sync"@,
        "enrich"@ != "sync"@,
{
    reveal_strlit("mirror");
    reveal_strlit("enrich");
    reveal_strlit("sync");
    assert("mirror"@[0] == 'm');
    assert("enrich"@[0] == 'e');
    assert("sync"@[0] == 's');
}

/// An enriching plan never deletes, never moves, and leaves the source alone.
pub proof fn enriching_only_gains(
    source: Snapshot,
    target: Snapshot,
    archive: Option<&Snapshot>,
    newer_wins: bool,
    ci: bool,
    plan: Plan,
)
    requires
        plan_of(source, target, "enrich"@, archive, newer_wins, ci, plan),
    ensures
        forall|k: int| 0 <= k < plan.ops@.len() ==> only_gains((#[trigger] plan.ops@[k])@),
{
    lemma_modes_differ();
    let m = tables(source, target, archive, newer_wins, ci);
    let good = |op: OpModel| only_gains(op);
    lemma_gather_good(
        crate::compare::dups_of(m.source, EntryKind::File, ci).len() as int,
        m.twin_rule(m.source, Side::Source),
        good,
    );
    lemma_gather_good(
        crate::compare::dups_of(m.target, EntryKind::File, ci).len() as int,
        m.twin_rule(m.target, Side::Target),
        good,
    );
    lemma_gather_good(m.s_rows().len() as int, m.update_rule(false), good);
    let adds = m.s_only();
    lemma_gather_good(
        adds.len() as int,
        copy_rule(adds, Side::Target, "only-in-source"@),
        good,
    );
    let twins = m.twin_steps(m.source, Side::Source) + m.twin_steps(m.target, Side::Target);
    lemma_good_concat(
        m.twin_steps(m.source, Side::Source),
        m.twin_steps(m.target, Side::Target),
        good,
    );
    lemma_good_concat(
        m.update_steps(false),
        crate::compare::copy_steps(adds, Side::Target, "only-in-source"@),
        good,
    );
    lemma_good_concat(twins, m.enrich_steps(), good);
    lemma_plan_good(source, target, "enrich"@, archive, newer_wins, ci, plan, good);
    let out = op_models(plan.ops@);
    assert forall|k: int| 0 <= k < plan.ops@.len() implies only_gains((#[trigger] plan.ops@[k])@) by {
        assert(good(out[k]));
    }
}

/// A mirroring plan never changes the source.
pub proof fn mirroring_spares_the_source(
    source: Snapshot,
    target: Snapshot,
    archive: Option<&Snapshot>,
    newer_wins: bool,
    ci: bool,
    plan: Plan,
)
    requires
        plan_of(source, target, "mirror"@, archive, newer_wins, ci, plan),
    ensures
        forall|k: int| 0 <= k < plan.ops@.len() ==> spares_source((#[trigger] plan.ops@[k])@),
{
    lemma_modes_differ();
    let m = tables(source, target, archive, newer_wins, ci);
    let good = |op: OpModel| spares_source(op);
    let adds = m.s_only();
    let dels = m.t_only();
    let left = added(adds, dels);
    let gone = deleted(adds, dels);
    lemma_gather_good(
        crate::compare::dups_of(m.source, EntryKind::File, ci).len() as int,
        m.twin_rule(m.source, Side::Source),
        good,
    );
    lemma_gather_good(
        crate::compare::dups_of(m.target, EntryKind::File, ci).len() as int,
        m.twin_rule(m.target, Side::Target),
        good,
    );
    lemma_gather_good(m.s_rows().len() as int, m.update_rule(true), good);
    lemma_gather_good(
        adds.len() as int,
        move_rule(adds, dels, pairing(adds, dels), Side::Target, "move-detected-by-hash"@),
        good,
    );
    lemma_gather_good(left.len() as int, copy_rule(left, Side::Target, "only-in-source"@), good);
    lemma_gather_good(adds.len() as int, copy_rule(adds, Side::Target, "only-in-source"@), good);
    lemma_gather_good(gone.len() as int, delete_rule(gone, Side::Target, "gone-from-source"@), good);
    lemma_gather_good(dels.len() as int, delete_rule(dels, Side::Target, "gone-from-source"@), good);
    lemma_gather_good(m.t_dirs().len() as int, m.dir_rule(), good);
    let draft = m.draft("mirror"@);
    assert(all_good(draft, good));
    lemma_plan_good(source, target, "mirror"@, archive, newer_wins, ci, plan, good);
    let out = op_models(plan.ops@);
    assert forall|k: int| 0 <= k < plan.ops@.len() implies spares_source((#[trigger] plan.ops@[k])@) by {
        assert(good(out[k]));
    }
}

/// Without the table of a last sync, syncing deletes nothing and moves nothing on either side.
pub proof fn syncing_without_archive_takes_nothing(
    source: Snapshot,
    target: Snapshot,
    newer_wins: bool,
    ci: bool,
    plan: Plan,
)
    requires
        plan_of(source, target, "sync"@, None, newer_wins, ci, plan),
    ensures
        forall|k: int| 0 <= k < plan.ops@.len() ==> takes_nothing((#[trigger] plan.ops@[k])@),
{
    lemma_modes_differ();
    let m = tables(source, target, None, newer_wins, ci);
    let good = |op: OpModel| takes_nothing(op);
    lemma_gather_good(
        crate::compare::dups_of(m.source, EntryKind::File, ci).len() as int,
        m.twin_rule(m.source, Side::Source),
        good,
    );
    lemma_gather_good(
        crate::compare::dups_of(m.target, EntryKind::File, ci).len() as int,
        m.twin_rule(m.target, Side::Target),
        good,
    );
    lemma_gather_good(m.s_rows().len() as int, m.s_rule(), good);
    lemma_gather_good(m.t_rows().len() as int, m.t_rule(), good);
    lemma_gather_good(m.s_added().len() as int, m.hint_rule(), good);
    lemma_gather_good(
        m.s_added().len() as int,
        copy_rule(m.s_added(), Side::Target, "only-in-source"@),
        good,
    );
    lemma_gather_good(
        m.t_added().len() as int,
        copy_rule(m.t_added(), Side::Source, "only-in-target"@),
        good,
    );
    lemma_select_none(m.s_rows().len() as int, m.s_doomed_test());
    lemma_select_none(m.t_rows().len() as int, m.t_doomed_test());
    assert(m.s_doomed().len() == 0);
    assert(m.t_doomed().len() == 0);
    assert(all_good(m.draft("sync"@), good));
    lemma_plan_good(source, target, "sync"@, None, newer_wins, ci, plan, good);
    let out = op_models(plan.ops@);
    assert forall|k: int| 0 <= k < plan.ops@.len() implies takes_nothing((#[trigger] plan.ops@[k])@) by {
        assert(good(out[k]));
    }
}

proof fn lemma_select_none(n: int, test: spec_fn(int) -> bool)
    requires
        forall|i: int| 0 <= i < n ==> !#[trigger] test(i),
    ensures
        select(n, test).len() == 0,
    decreases n,
{
    if n > 0 {
        assert(!test(n - 1));
        lemma_select_none(n - 1, test);
    }
}

proof fn lemma_gather_none(n: int, rule: spec_fn(int) -> Option<OpModel>)
    requires
        forall|i: int| 0 <= i < n ==> (#[trigger] rule(i)) is None,
    ensures
        gather(n, rule).len() == 0,
    decreases n,
{
    if n > 0 {
        assert(rule(n - 1) is None);
        lemma_gather_none(n - 1, rule);
    }
}

/// No step that creates a name on a Windows side has a name that Windows cannot hold.
pub proof fn nothing_illegal_is_created(
    source: Snapshot,
    target: Snapshot,
    mode: Seq<char>,
    archive: Option<&Snapshot>,
    newer_wins: bool,
    ci: bool,
    plan: Plan,
    k: int,
)
    requires
        plan_of(source, target, mode, archive, newer_wins, ci, plan),
        0 <= k < plan.ops@.len(),
        plan.ops@[k].action == Action::Copy || plan.ops@[k].action == Action::Move,
        plan.ops@[k].side == Side::Target ==> target.header.os@ == "windows"@,
        plan.ops@[k].side == Side::Source ==> source.header.os@ == "windows"@,
    ensures
        first_illegal(split(plan.ops@[k].path@, '/')) is None,
{
    let draft = tables(source, target, archive, newer_wins, ci).draft(mode);
    let legal = all_legalized(draft, source.header.os@, target.header.os@);
    let out = op_models(plan.ops@);
    arranging_keeps_every_step(legal, out);
    assert(out[k] == plan.ops@[k]@);
    assert(out.contains(out[k]));
    assert(legal.contains(out[k]));
    let i = choose|i: int| 0 <= i < legal.len() && legal[i] == out[k];
    assert(legal[i] == legalized(draft[i], source.header.os@, target.header.os@));
}

proof fn lemma_first_where(k: int, n: int, test: spec_fn(int) -> bool)
    ensures
        match first_where(k, n, test) {
            Some(j) => k <= j < n && test(j),
            None => forall|j: int| k <= j < n ==> !#[trigger] test(j),
        },
    decreases n - k,
{
    if k < n && !test(k) {
        lemma_first_where(k + 1, n, test);
        if first_where(k, n, test) is None {
            assert forall|j: int| k <= j < n implies !#[trigger] test(j) by {
                if j > k {
                    assert(!test(j));
                }
            }
        }
    }
}

/// A move pairs one addition with one deletion of the same hash and size, and no deletion is used twice.
pub proof fn moves_pair_one_to_one(adds: Seq<EntryModel>, dels: Seq<EntryModel>)
    ensures
        pairing(adds, dels).len() == adds.len(),
        forall|i: int|
            0 <= i < adds.len() ==> (#[trigger] pairing(adds, dels)[i] matches Some(j) ==> 0 <= j
                < dels.len() && could_be_moved(dels[j], adds[i])),
        forall|i: int, k: int|
            0 <= i < k < adds.len() && (#[trigger] pairing(adds, dels)[i]) is Some
                ==> pairing(adds, dels)[i] != #[trigger] pairing(adds, dels)[k],
    decreases adds.len(),
{
    if adds.len() > 0 {
        let before = pairing(adds.drop_last(), dels);
        let now = pairing(adds, dels);
        let a = adds.last();
        moves_pair_one_to_one(adds.drop_last(), dels);
        lemma_first_where(0, dels.len() as int, namesake_test(a, dels, before));
        lemma_first_where(0, dels.len() as int, free_test(a, dels, before));
        let last = partner(a, dels, before);
        assert(now == before.push(last));
        if last is Some {
            assert(unpaired(before, last->0));
        }
        assert forall|i: int| 0 <= i < adds.len() implies (#[trigger] now[i] matches Some(j) ==> 0 <= j
            < dels.len() && could_be_moved(dels[j], adds[i])) by {
            if i < before.len() {
                assert(now[i] == before[i]);
                assert(adds.drop_last()[i] == adds[i]);
            }
        }
        assert forall|i: int, k: int|
            0 <= i < k < adds.len() && (#[trigger] now[i]) is Some implies now[i] != #[trigger] now[k] by {
            assert(now[i] == before[i]);
            if k < before.len() {
                assert(now[k] == before[k]);
            } else if last is Some {
                assert(before[i] != Some(last->0));
            }
        }
    }
}

proof fn lemma_select(n: int, test: spec_fn(int) -> bool)
    ensures
        forall|k: int|
            0 <= k < select(n, test).len() ==> {
                &&& 0 <= #[trigger] select(n, test)[k] < n
                &&& test(select(n, test)[k])
            },
        forall|i: int| 0 <= i < n && #[trigger] test(i) ==> select(n, test).contains(i),
    decreases n,
{
    if n > 0 {
        lemma_select(n - 1, test);
        let before = select(n - 1, test);
        let now = select(n, test);
        assert forall|k: int| 0 <= k < now.len() implies 0 <= #[trigger] now[k] < n && test(now[k]) by {
            if k < before.len() {
                assert(now[k] == before[k]);
            }
        }
        assert forall|i: int| 0 <= i < n && #[trigger] test(i) implies now.contains(i) by {
            if i == n - 1 {
                assert(now[now.len() - 1] == i);
            } else {
                let k = choose|k: int| 0 <= k < before.len() && before[k] == i;
                assert(now[k] == i);
            }
        }
    }
}

proof fn lemma_at_contains(rows: Seq<EntryModel>, n: int, test: spec_fn(int) -> bool, i: int) -> (k: int)
    requires
        0 <= i < n <= rows.len(),
        test(i),
    ensures
        0 <= k < at(rows, select(n, test)).len(),
        at(rows, select(n, test))[k] == rows[i],
{
    lemma_select(n, test);
    let ix = select(n, test);
    assert(ix.contains(i));
    let k = choose|k: int| 0 <= k < ix.len() && ix[k] == i;
    assert(at(rows, ix)[k] == rows[i]);
    k
}

/// The steps hold one that brings the content of `e` to the target, in place of a file, under its own
/// name, or by moving a file of the same content.
pub open spec fn arrives(ops: Seq<OpModel>, m: Tables, e: EntryModel) -> bool {
    exists|k: int|
        0 <= k < ops.len() && {
            let op = #[trigger] ops[k];
            match m.t_file(e) {
                Some(te) => op == crate::compare::bring(
                    Side::Target,
                    Action::Update,
                    te.path,
                    e,
                    "differs-master-wins"@,
                ),
                None => {
                    &&& op.side == Side::Target
                    &&& op.path == e.path
                    &&& op.action == Action::Copy || op.action == Action::Move
                },
            }
        }
}

/// The steps hold one that takes `e` away from where it stands.
pub open spec fn leaves(ops: Seq<OpModel>, e: EntryModel) -> bool {
    exists|k: int|
        0 <= k < ops.len() && {
            let op = #[trigger] ops[k];
            &&& op.side == Side::Target
            &&& (op.action == Action::Delete && op.path == e.path) || (op.action == Action::Move
                && op.from == Some(e.path))
        }
}

proof fn lemma_in_left(a: Seq<OpModel>, b: Seq<OpModel>, op: OpModel)
    requires
        a.contains(op),
    ensures
        (a + b).contains(op),
{
    let k = choose|k: int| 0 <= k < a.len() && a[k] == op;
    assert((a + b)[k] == op);
}

proof fn lemma_in_right(a: Seq<OpModel>, b: Seq<OpModel>, op: OpModel)
    requires
        b.contains(op),
    ensures
        (a + b).contains(op),
{
    let k = choose|k: int| 0 <= k < b.len() && b[k] == op;
    assert((a + b)[a.len() + k] == op);
}

/// Mirroring brings the target level with the source: every source file that the target lacks or has
/// otherwise arrives, and every target file that the source lacks leaves.
pub proof fn mirroring_brings_the_target_level(m: Tables, i: int)
    ensures
        0 <= i < m.s_rows().len() && !(m.t_file(m.s_rows()[i]) matches Some(te) && files_alike(
            m.s_rows()[i],
            te,
        )) ==> arrives(m.mirror_steps(), m, m.s_rows()[i]),
        0 <= i < m.t_rows().len() && m.s_file(m.t_rows()[i]) is None ==> leaves(
            m.mirror_steps(),
            m.t_rows()[i],
        ),
{
    let ops = m.mirror_steps();
    let adds = m.s_only();
    let dels = m.t_only();
    let updates = m.update_steps(true);
    let moves = crate::compare::move_steps(adds, dels, Side::Target, "move-detected-by-hash"@);
    let left = added(adds, dels);
    let gone = deleted(adds, dels);
    let pairs = pairing(adds, dels);
    let copies = crate::compare::copy_steps(
        if m.hashed {
            left
        } else {
            adds
        },
        Side::Target,
        "only-in-source"@,
    );
    let deletes = crate::compare::delete_steps(
        if m.hashed {
            gone
        } else {
            dels
        },
        Side::Target,
        "gone-from-source"@,
    );
    let dirs = m.dir_steps();
    moves_pair_one_to_one(adds, dels);
    if 0 <= i < m.s_rows().len() && !(m.t_file(m.s_rows()[i]) matches Some(te) && files_alike(
        m.s_rows()[i],
        te,
    )) {
        let e = m.s_rows()[i];
        match m.t_file(e) {
            Some(te) => {
                let rule = m.update_rule(true);
                lemma_gather(m.s_rows().len() as int, rule);
                assert(rule(i) is Some);
                let op = rule(i)->0;
                assert(updates.contains(op));
                if m.hashed {
                    lemma_in_left(updates, moves, op);
                    lemma_in_left(updates + moves, copies, op);
                    lemma_in_left(updates + moves + copies, deletes, op);
                    lemma_in_left(updates + moves + copies + deletes, dirs, op);
                } else {
                    lemma_in_left(updates, copies, op);
                    lemma_in_left(updates + copies, deletes, op);
                    lemma_in_left(updates + copies + deletes, dirs, op);
                }
                let k = choose|k: int| 0 <= k < ops.len() && ops[k] == op;
                assert(ops[k] == op);
            },
            None => {
                let test = m.s_only_test();
                assert(test(i));
                let x = lemma_at_contains(m.s_rows(), m.s_rows().len() as int, test, i);
                assert(adds[x] == e);
                if m.hashed && pairs[x] is Some {
                    let rule = move_rule(adds, dels, pairs, Side::Target, "move-detected-by-hash"@);
                    lemma_gather(adds.len() as int, rule);
                    assert(rule(x) is Some);
                    let op = rule(x)->0;
                    assert(moves.contains(op));
                    lemma_in_right(updates, moves, op);
                    lemma_in_left(updates + moves, copies, op);
                    lemma_in_left(updates + moves + copies, deletes, op);
                    lemma_in_left(updates + moves + copies + deletes, dirs, op);
                    let k = choose|k: int| 0 <= k < ops.len() && ops[k] == op;
                    assert(ops[k] == op);
                } else {
                    let list = if m.hashed {
                        left
                    } else {
                        adds
                    };
                    let y = if m.hashed {
                        assert(alone(pairs)(x));
                        lemma_at_contains(adds, adds.len() as int, alone(pairs), x)
                    } else {
                        x
                    };
                    assert(list[y] == e);
                    let rule = copy_rule(list, Side::Target, "only-in-source"@);
                    lemma_gather(list.len() as int, rule);
                    assert(rule(y) is Some);
                    let op = rule(y)->0;
                    assert(copies.contains(op));
                    if m.hashed {
                        lemma_in_right(updates + moves, copies, op);
                        lemma_in_left(updates + moves + copies, deletes, op);
                        lemma_in_left(updates + moves + copies + deletes, dirs, op);
                    } else {
                        lemma_in_right(updates, copies, op);
                        lemma_in_left(updates + copies, deletes, op);
                        lemma_in_left(updates + copies + deletes, dirs, op);
                    }
                    let k = choose|k: int| 0 <= k < ops.len() && ops[k] == op;
                    assert(ops[k] == op);
                }
            },
        }
    }
    if 0 <= i < m.t_rows().len() && m.s_file(m.t_rows()[i]) is None {
        let e = m.t_rows()[i];
        let test = m.t_only_test();
        assert(test(i));
        let x = lemma_at_contains(m.t_rows(), m.t_rows().len() as int, test, i);
        assert(dels[x] == e);
        if m.hashed && !unpaired(pairs, x) {
            let w = choose|w: int| 0 <= w < pairs.len() && !(#[trigger] pairs[w] != Some(x));
            let rule = move_rule(adds, dels, pairs, Side::Target, "move-detected-by-hash"@);
            lemma_gather(adds.len() as int, rule);
            assert(rule(w) is Some);
            let op = rule(w)->0;
            assert(moves.contains(op));
            lemma_in_right(updates, moves, op);
            lemma_in_left(updates + moves, copies, op);
            lemma_in_left(updates + moves + copies, deletes, op);
            lemma_in_left(updates + moves + copies + deletes, dirs, op);
            let k = choose|k: int| 0 <= k < ops.len() && ops[k] == op;
            assert(ops[k] == op);
        } else {
            let list = if m.hashed {
                gone
            } else {
                dels
            };
            let y = if m.hashed {
                assert(left_over(pairs)(x));
                lemma_at_contains(dels, dels.len() as int, left_over(pairs), x)
            } else {
                x
            };
            assert(list[y] == e);
            let rule = delete_rule(list, Side::Target, "gone-from-source"@);
            lemma_gather(list.len() as int, rule);
            assert(rule(y) is Some);
            let op = rule(y)->0;
            assert(deletes.contains(op));
            if m.hashed {
                lemma_in_right(updates + moves + copies, deletes, op);
                lemma_in_left(updates + moves + copies + deletes, dirs, op);
            } else {
                lemma_in_right(updates + copies, deletes, op);
                lemma_in_left(updates + copies + deletes, dirs, op);
            }
            let k = choose|k: int| 0 <= k < ops.len() && ops[k] == op;
            assert(ops[k] == op);
        }
    }
}

/// A file that changed on both sides since the last sync is a conflict, never an update.
pub proof fn changes_on_both_sides_conflict(m: Tables, se: EntryModel, te: EntryModel)
    requires
        m.archive is Some,
        m.t_file(se) == Some(te),
        !files_alike(se, te),
        !m.unchanged(se),
        !(m.a_file(se) matches Some(r) && files_alike(te, r)),
    ensures
        m.s_step(se) == Some(
            crate::compare::remark(Side::Target, Action::Conflict, se.path, "both-changed"@),
        ),
{
}

/// A sync deletes a file on one side only if the other side deleted it and it is as it was at the last
/// sync.
pub proof fn only_unchanged_files_are_deleted(m: Tables, k: int)
    ensures
        0 <= k < m.s_doomed().len() ==> m.t_file(m.s_doomed()[k]) is None && m.unchanged(m.s_doomed()[k]),
        0 <= k < m.t_doomed().len() ==> m.s_file(m.t_doomed()[k]) is None && m.unchanged(m.t_doomed()[k]),
{
    lemma_select(m.s_rows().len() as int, m.s_doomed_test());
    lemma_select(m.t_rows().len() as int, m.t_doomed_test());
    if 0 <= k < m.s_doomed().len() {
        let i = select(m.s_rows().len() as int, m.s_doomed_test())[k];
        assert(m.s_doomed_test()(i));
    }
    if 0 <= k < m.t_doomed().len() {
        let i = select(m.t_rows().len() as int, m.t_doomed_test())[k];
        assert(m.t_doomed_test()(i));
    }
}

/// Where a new key belongs among the first `n` of keys that rise and of which it is none.
proof fn lemma_place(es: Seq<EntryModel>, ci: bool, t: Seq<int>, key: Seq<char>, n: int) -> (k: int)
    requires
        0 <= n <= t.len(),
        forall|x: int, y: int|
            0 <= x < y < n ==> text_lt(
                entry_key(es[#[trigger] t[x]], ci),
                entry_key(es[#[trigger] t[y]], ci),
            ),
        forall|x: int| 0 <= x < n ==> entry_key(es[#[trigger] t[x]], ci) != key,
    ensures
        0 <= k <= n,
        forall|x: int| 0 <= x < k ==> text_lt(entry_key(es[#[trigger] t[x]], ci), key),
        forall|x: int| k <= x < n ==> text_lt(key, entry_key(es[#[trigger] t[x]], ci)),
    decreases n,
{
    if n == 0 {
        0
    } else {
        let last = entry_key(es[t[n - 1]], ci);
        lemma_text_total(last, key);
        if text_lt(last, key) {
            assert forall|x: int| 0 <= x < n implies text_lt(entry_key(es[#[trigger] t[x]], ci), key) by {
                if x < n - 1 {
                    lemma_text_transitive(entry_key(es[t[x]], ci), last, key);
                }
            }
            n
        } else {
            lemma_place(es, ci, t, key, n - 1)
        }
    }
}

/// A table of the first `n` entries.
proof fn lemma_some_table(es: Seq<EntryModel>, kind: EntryKind, ci: bool, n: int) -> (t: Seq<int>)
    requires
        0 <= n <= es.len(),
    ensures
        is_table(es.take(n), kind, ci, t),
    decreases n,
{
    let now = es.take(n);
    if n == 0 {
        Seq::empty()
    } else {
        let less = es.take(n - 1);
        let u = lemma_some_table(es, kind, ci, n - 1);
        let i = n - 1;
        assert(forall|j: int| 0 <= j < i ==> #[trigger] now[j] == less[j]);
        assert forall|j: int| 0 <= j < i implies #[trigger] is_first(now, kind, ci, j) == is_first(
            less,
            kind,
            ci,
            j,
        ) by {
            if is_first(now, kind, ci, j) {
                assert forall|q: int| 0 <= q < j && (#[trigger] less[q]).kind == kind implies entry_key(
                    less[q],
                    ci,
                ) != entry_key(less[j], ci) by {
                    assert(now[q].kind == kind);
                }
            }
            if is_first(less, kind, ci, j) {
                assert forall|q: int| 0 <= q < j && (#[trigger] now[q]).kind == kind implies entry_key(
                    now[q],
                    ci,
                ) != entry_key(now[j], ci) by {
                    assert(less[q].kind == kind);
                }
            }
        }
        assert forall|x: int| 0 <= x < u.len() implies 0 <= #[trigger] u[x] < i && is_first(
            now,
            kind,
            ci,
            u[x],
        ) && entry_key(now[u[x]], ci) == entry_key(less[u[x]], ci) by {
            assert(is_first(less, kind, ci, u[x]));
        }
        if !is_first(now, kind, ci, i) {
            assert forall|j: int| #[trigger] is_first(now, kind, ci, j) implies u.contains(j) by {
                assert(j < i);
                assert(is_first(less, kind, ci, j));
            }
            u
        } else {
            let key = entry_key(now[i], ci);
            assert forall|x: int| 0 <= x < u.len() implies entry_key(now[#[trigger] u[x]], ci) != key by {
                assert(now[u[x]].kind == kind);
            }
            let k = lemma_place(now, ci, u, key, u.len() as int);
            let t = u.insert(k, i);
            assert forall|x: int| 0 <= x < t.len() implies is_first(now, kind, ci, #[trigger] t[x]) by {
                if x < k {
                    assert(t[x] == u[x]);
                } else if x > k {
                    assert(t[x] == u[x - 1]);
                }
            }
            assert forall|x: int, y: int| 0 <= x < y < t.len() implies text_lt(
                entry_key(now[#[trigger] t[x]], ci),
                entry_key(now[#[trigger] t[y]], ci),
            ) by {
                if y < k {
                    assert(t[x] == u[x] && t[y] == u[y]);
                } else if y == k {
                    assert(t[x] == u[x]);
                } else if x < k {
                    assert(t[x] == u[x] && t[y] == u[y - 1]);
                } else if x == k {
                    assert(t[y] == u[y - 1]);
                } else {
                    assert(t[x] == u[x - 1] && t[y] == u[y - 1]);
                }
            }
            assert forall|j: int| #[trigger] is_first(now, kind, ci, j) implies t.contains(j) by {
                if j < i {
                    assert(is_first(less, kind, ci, j));
                    let x = choose|x: int| 0 <= x < u.len() && u[x] == j;
                    if x < k {
                        assert(t[x] == j);
                    } else {
                        assert(t[x + 1] == j);
                    }
                } else {
                    assert(t[k] == j);
                }
            }
            t
        }
    }
}

/// Every list of entries has its table.
pub proof fn a_table_exists(es: Seq<EntryModel>, kind: EntryKind, ci: bool)
    ensures
        is_table(es, kind, ci, table_of(es, kind, ci)),
{
    let t = lemma_some_table(es, kind, ci, es.len() as int);
    assert(es.take(es.len() as int) =~= es);
}

/// An entry that stands for its key is found by that key.
proof fn lemma_row_is_its_own_entry(es: Seq<EntryModel>, kind: EntryKind, ci: bool, x: int)
    requires
        is_table(es, kind, ci, table_of(es, kind, ci)),
        0 <= x < rows_of(es, kind, ci).len(),
    ensures
        entry_for(es, kind, ci, entry_key(rows_of(es, kind, ci)[x], ci)) == Some(
            rows_of(es, kind, ci)[x],
        ),
{
    let t = table_of(es, kind, ci);
    let i = t[x];
    assert(is_first(es, kind, ci, t[x]));
    let key = entry_key(es[i], ci);
    let j = choose|j: int| #[trigger] is_first(es, kind, ci, j) && entry_key(es[j], ci) == key;
    assert(is_first(es, kind, ci, j));
    if i < j {
        assert(es[i].kind == kind);
    } else if j < i {
        assert(es[j].kind == kind);
    }
}

/// Comparing a table with itself asks for no step, in whatever mode.
pub proof fn equal_tables_need_no_steps(m: Tables)
    requires
        m.source == m.target,
    ensures
        m.mirror_steps().len() == 0,
        m.enrich_steps().len() == 0,
        m.sync_steps().len() == 0,
{
    let n = m.s_rows().len() as int;
    a_table_exists(m.source, EntryKind::File, m.ci);
    a_table_exists(m.source, EntryKind::Dir, m.ci);
    assert forall|i: int| 0 <= i < n implies m.t_file(#[trigger] m.s_rows()[i]) == Some(
        m.s_rows()[i],
    ) by {
        lemma_row_is_its_own_entry(m.source, EntryKind::File, m.ci, i);
    }
    assert forall|i: int| 0 <= i < m.t_dirs().len() implies (#[trigger] m.dir_rule()(i)) is None by {
        lemma_row_is_its_own_entry(m.source, EntryKind::Dir, m.ci, i);
    }
    lemma_select_none(n, m.s_only_test());
    lemma_select_none(n, m.t_only_test());
    lemma_select_none(n, m.s_added_test());
    lemma_select_none(n, m.t_added_test());
    lemma_select_none(n, m.s_doomed_test());
    lemma_select_none(n, m.t_doomed_test());
    lemma_gather_none(n, m.update_rule(true));
    lemma_gather_none(n, m.update_rule(false));
    lemma_gather_none(n, m.s_rule());
    lemma_gather_none(n, m.t_rule());
    lemma_gather_none(m.t_dirs().len() as int, m.dir_rule());
    assert(m.s_only().len() == 0);
    assert(m.t_only().len() == 0);
    assert(m.s_added().len() == 0);
    assert(m.t_added().len() == 0);
    assert(m.s_doomed().len() == 0);
    assert(m.t_doomed().len() == 0);
    moves_pair_one_to_one(m.s_only(), m.t_only());
    moves_pair_one_to_one(m.s_added(), m.t_doomed());
    moves_pair_one_to_one(m.t_added(), m.s_doomed());
}

/// Entry `i` is of that kind, and no earlier one of that kind has its comparison key.
pub open spec fn stands(es: Seq<EntryModel>, kind: EntryKind, ci: bool, i: int) -> bool {
    &&& 0 <= i < es.len()
    &&& es[i].kind == kind
    &&& forall|j: int|
        0 <= j < i && (#[trigger] es[j]).kind == kind ==> key_of(es[j].path, ci) != key_of(es[i].path, ci)
}

/// The table has this entry, as the one that stands for its key.
pub open spec fn has(es: Seq<EntryModel>, kind: EntryKind, ci: bool, e: EntryModel) -> bool {
    exists|i: int| #[trigger] stands(es, kind, ci, i) && es[i] == e
}

/// No entry of that kind has the key.
pub open spec fn lacks(es: Seq<EntryModel>, kind: EntryKind, ci: bool, key: Seq<char>) -> bool {
    forall|i: int| 0 <= i < es.len() && (#[trigger] es[i]).kind == kind ==> key_of(es[i].path, ci) != key
}

proof fn lemma_some_first(es: Seq<EntryModel>, kind: EntryKind, ci: bool, key: Seq<char>, n: int) -> (i: int)
    requires
        0 <= n < es.len(),
        es[n].kind == kind,
        key_of(es[n].path, ci) == key,
    ensures
        0 <= i <= n,
        stands(es, kind, ci, i),
        key_of(es[i].path, ci) == key,
    decreases n,
{
    if exists|j: int| 0 <= j < n && (#[trigger] es[j]).kind == kind && key_of(es[j].path, ci) == key {
        let j = choose|j: int|
            0 <= j < n && (#[trigger] es[j]).kind == kind && key_of(es[j].path, ci) == key;
        lemma_some_first(es, kind, ci, key, j)
    } else {
        assert(stands(es, kind, ci, n));
        n
    }
}

/// What a table's rows and its look-up are, in terms of its entries.
proof fn lemma_table_facts(es: Seq<EntryModel>, kind: EntryKind, ci: bool)
    ensures
        forall|x: int|
            0 <= x < rows_of(es, kind, ci).len() ==> has(es, kind, ci, #[trigger] rows_of(es, kind, ci)[x]),
        forall|key: Seq<char>|
            (#[trigger] entry_for(es, kind, ci, key)) matches Some(e) ==> has(es, kind, ci, e) && key_of(
                e.path,
                ci,
            ) == key,
        forall|key: Seq<char>| (#[trigger] entry_for(es, kind, ci, key)) is None ==> lacks(es, kind, ci, key),
        forall|key: Seq<char>| #[trigger] lacks(es, kind, ci, key) ==> entry_for(es, kind, ci, key) is None,
        forall|e: EntryModel| #[trigger]
            has(es, kind, ci, e) ==> entry_for(es, kind, ci, key_of(e.path, ci)) == Some(e) && rows_of(
                es,
                kind,
                ci,
            ).contains(e),
{
    a_table_exists(es, kind, ci);
    let t = table_of(es, kind, ci);
    let rows = rows_of(es, kind, ci);
    assert(forall|i: int| #[trigger] stands(es, kind, ci, i) <==> is_first(es, kind, ci, i)) by {
        assert forall|i: int| #[trigger] stands(es, kind, ci, i) <==> is_first(es, kind, ci, i) by {
            assert(forall|j: int|
                0 <= j < es.len() ==> entry_key(#[trigger] es[j], ci) == key_of(es[j].path, ci));
        }
    }
    assert forall|x: int| 0 <= x < rows.len() implies has(es, kind, ci, #[trigger] rows[x]) by {
        assert(is_first(es, kind, ci, t[x]));
        assert(stands(es, kind, ci, t[x]));
    }
    assert forall|key: Seq<char>|
        (#[trigger] entry_for(es, kind, ci, key)) matches Some(e) implies has(
        es,
        kind,
        ci,
        entry_for(es, kind, ci, key)->0,
    ) && key_of(entry_for(es, kind, ci, key)->0.path, ci) == key by {
        let i = choose|i: int| #[trigger] is_first(es, kind, ci, i) && entry_key(es[i], ci) == key;
        assert(stands(es, kind, ci, i));
    }
    assert forall|key: Seq<char>| (#[trigger] entry_for(es, kind, ci, key)) is None implies lacks(
        es,
        kind,
        ci,
        key,
    ) by {
        assert forall|i: int| 0 <= i < es.len() && (#[trigger] es[i]).kind == kind implies key_of(
            es[i].path,
            ci,
        ) != key by {
            if key_of(es[i].path, ci) == key {
                let j = lemma_some_first(es, kind, ci, key, i);
                assert(is_first(es, kind, ci, j) && entry_key(es[j], ci) == key);
            }
        }
    }
    assert forall|key: Seq<char>| #[trigger] lacks(es, kind, ci, key) implies entry_for(es, kind, ci, key) is None by {
        if entry_for(es, kind, ci, key) is Some {
            let i = choose|i: int| #[trigger] is_first(es, kind, ci, i) && entry_key(es[i], ci) == key;
            assert(es[i].kind == kind);
        }
    }
    assert forall|e: EntryModel| #[trigger] has(es, kind, ci, e) implies entry_for(
        es,
        kind,
        ci,
        key_of(e.path, ci),
    ) == Some(e) && rows.contains(e) by {
        let i = choose|i: int| #[trigger] stands(es, kind, ci, i) && es[i] == e;
        assert(is_first(es, kind, ci, i));
        assert(t.contains(i));
        let x = choose|x: int| 0 <= x < t.len() && t[x] == i;
        assert(rows[x] == e);
        lemma_row_is_its_own_entry(es, kind, ci, x);
    }
}

spec fn picked_by(rows: Seq<EntryModel>, n: int, test: spec_fn(int) -> bool, e: EntryModel) -> bool {
    exists|i: int| 0 <= i < n && #[trigger] test(i) && rows[i] == e
}

/// Every listed row comes from a row that the test accepts.
proof fn lemma_selected(rows: Seq<EntryModel>, n: int, test: spec_fn(int) -> bool)
    requires
        0 <= n <= rows.len(),
    ensures
        forall|k: int|
            0 <= k < at(rows, select(n, test)).len() ==> picked_by(
                rows,
                n,
                test,
                #[trigger] at(rows, select(n, test))[k],
            ),
        forall|i: int|
            0 <= i < n && #[trigger] test(i) ==> at(rows, select(n, test)).contains(rows[i]),
{
    lemma_select(n, test);
    let ix = select(n, test);
    let out = at(rows, ix);
    assert forall|k: int| 0 <= k < out.len() implies picked_by(rows, n, test, #[trigger] out[k]) by {
        assert(0 <= ix[k] < n && test(ix[k]));
    }
    assert forall|i: int| 0 <= i < n && #[trigger] test(i) implies out.contains(rows[i]) by {
        let k = lemma_at_contains(rows, n, test, i);
        assert(out[k] == rows[i]);
    }
}

/// A step that brings that file, its size, its time and its hash.
pub open spec fn carries_file(op: OpModel, e: EntryModel) -> bool {
    &&& op.size == Some(e.size)
    &&& op.mtime_ms == Some(e.mtime_ms)
    &&& op.hash == e.hash
    &&& op.link is None
    &&& op.mode is None
}

/// Two files are the same exactly where their hashes are, if both have one; else where they are equally
/// large and their times are within two seconds. It does not matter which is named first.
pub proof fn sameness_is_by_hash_then_by_size_and_time(a: EntryModel, b: EntryModel)
    ensures
        files_alike(a, b) == files_alike(b, a),
        files_alike(a, a),
        a.hash is Some && b.hash is Some ==> (files_alike(a, b) <==> a.hash == b.hash),
        a.hash is None || b.hash is None ==> (files_alike(a, b) <==> a.size == b.size && a.mtime_ms
            - b.mtime_ms <= 2000 && b.mtime_ms - a.mtime_ms <= 2000),
{
}

/// The files that only one table has, as their own entries tell.
proof fn lemma_only(m: Tables)
    ensures
        forall|k: int|
            0 <= k < m.s_only().len() ==> has(m.source, EntryKind::File, m.ci, #[trigger] m.s_only()[k])
                && lacks(m.target, EntryKind::File, m.ci, key_of(m.s_only()[k].path, m.ci)),
        forall|k: int|
            0 <= k < m.t_only().len() ==> has(m.target, EntryKind::File, m.ci, #[trigger] m.t_only()[k])
                && lacks(m.source, EntryKind::File, m.ci, key_of(m.t_only()[k].path, m.ci)),
        forall|e: EntryModel| #[trigger]
            has(m.source, EntryKind::File, m.ci, e) && lacks(
                m.target,
                EntryKind::File,
                m.ci,
                key_of(e.path, m.ci),
            ) ==> m.s_only().contains(e),
        forall|e: EntryModel| #[trigger]
            has(m.target, EntryKind::File, m.ci, e) && lacks(
                m.source,
                EntryKind::File,
                m.ci,
                key_of(e.path, m.ci),
            ) ==> m.t_only().contains(e),
{
    let f = EntryKind::File;
    lemma_table_facts(m.source, f, m.ci);
    lemma_table_facts(m.target, f, m.ci);
    let sn = m.s_rows().len() as int;
    let tn = m.t_rows().len() as int;
    lemma_selected(m.s_rows(), sn, m.s_only_test());
    lemma_selected(m.t_rows(), tn, m.t_only_test());
    assert forall|k: int| 0 <= k < m.s_only().len() implies has(m.source, f, m.ci, #[trigger] m.s_only()[k])
        && lacks(m.target, f, m.ci, key_of(m.s_only()[k].path, m.ci)) by {
        let i = choose|i: int|
            0 <= i < sn && #[trigger] m.s_only_test()(i) && m.s_rows()[i] == m.s_only()[k];
        assert(m.t_file(m.s_rows()[i]) is None);
    }
    assert forall|k: int| 0 <= k < m.t_only().len() implies has(m.target, f, m.ci, #[trigger] m.t_only()[k])
        && lacks(m.source, f, m.ci, key_of(m.t_only()[k].path, m.ci)) by {
        let i = choose|i: int|
            0 <= i < tn && #[trigger] m.t_only_test()(i) && m.t_rows()[i] == m.t_only()[k];
        assert(m.s_file(m.t_rows()[i]) is None);
    }
    assert forall|e: EntryModel| #[trigger]
        has(m.source, f, m.ci, e) && lacks(m.target, f, m.ci, key_of(e.path, m.ci)) implies m.s_only().contains(e) by {
        assert(m.s_rows().contains(e));
        let i = choose|i: int| 0 <= i < sn && m.s_rows()[i] == e;
        assert(m.s_only_test()(i));
    }
    assert forall|e: EntryModel| #[trigger]
        has(m.target, f, m.ci, e) && lacks(m.source, f, m.ci, key_of(e.path, m.ci)) implies m.t_only().contains(e) by {
        assert(m.t_rows().contains(e));
        let i = choose|i: int| 0 <= i < tn && m.t_rows()[i] == e;
        assert(m.t_only_test()(i));
    }
}

/// A table of a last sync does not have the key, or there is none.
pub open spec fn never_synced(archive: Option<Seq<EntryModel>>, ci: bool, key: Seq<char>) -> bool {
    archive matches Some(a) ==> lacks(a, EntryKind::File, ci, key)
}

/// The table of the last sync has the file, and it is as it was then.
pub open spec fn as_last_synced(archive: Option<Seq<EntryModel>>, ci: bool, e: EntryModel) -> bool {
    archive matches Some(a) && exists|r: EntryModel| #[trigger]
        has(a, EntryKind::File, ci, r) && key_of(r.path, ci) == key_of(e.path, ci) && files_alike(e, r)
}

proof fn lemma_archive(m: Tables)
    ensures
        forall|e: EntryModel| (#[trigger] m.a_file(e)) is None <==> never_synced(
            m.archive,
            m.ci,
            key_of(e.path, m.ci),
        ),
        forall|e: EntryModel| #[trigger] m.unchanged(e) <==> as_last_synced(m.archive, m.ci, e),
        forall|e: EntryModel, o: EntryModel|
            #![trigger m.a_file(e), as_last_synced(m.archive, m.ci, o)]
            key_of(e.path, m.ci) == key_of(o.path, m.ci) ==> ((m.a_file(e) matches Some(r) && files_alike(o, r))
                <==> as_last_synced(m.archive, m.ci, o)),
{
    let f = EntryKind::File;
    if let Some(a) = m.archive {
        lemma_table_facts(a, f, m.ci);
        assert forall|e: EntryModel, o: EntryModel|
            #![trigger m.a_file(e), as_last_synced(m.archive, m.ci, o)]
            key_of(e.path, m.ci) == key_of(o.path, m.ci) implies ((m.a_file(e) matches Some(r) && files_alike(
            o,
            r,
        )) <==> as_last_synced(m.archive, m.ci, o)) by {
            let key = key_of(o.path, m.ci);
            assert(m.a_file(e) == entry_for(a, f, m.ci, key));
            if m.a_file(e) is Some {
                assert(has(a, f, m.ci, m.a_file(e)->0));
            }
            if as_last_synced(m.archive, m.ci, o) {
                let r = choose|r: EntryModel| #[trigger]
                    has(a, f, m.ci, r) && key_of(r.path, m.ci) == key && files_alike(o, r);
                assert(entry_for(a, f, m.ci, key_of(r.path, m.ci)) == Some(r));
            }
        }
        assert forall|e: EntryModel| #[trigger] m.unchanged(e) <==> as_last_synced(m.archive, m.ci, e) by {
            let x = m.a_file(e);
        }
    } else {
        assert forall|e: EntryModel, o: EntryModel|
            #![trigger m.a_file(e), as_last_synced(m.archive, m.ci, o)]
            key_of(e.path, m.ci) == key_of(o.path, m.ci) implies ((m.a_file(e) matches Some(r) && files_alike(
            o,
            r,
        )) <==> as_last_synced(m.archive, m.ci, o)) by {
        }
    }
}

/// What was added on a side, and what is left of what the other side deleted.
proof fn lemma_sorted_by_archive(m: Tables)
    ensures
        forall|k: int|
            0 <= k < m.s_added().len() ==> new_file(m.source, m.target, m.archive, m.ci, #[trigger] m.s_added()[k]),
        forall|k: int|
            0 <= k < m.t_added().len() ==> new_file(m.target, m.source, m.archive, m.ci, #[trigger] m.t_added()[k]),
        forall|k: int|
            0 <= k < m.s_doomed().len() ==> gone_file(
                m.source,
                m.target,
                m.archive,
                m.ci,
                #[trigger] m.s_doomed()[k],
            ),
        forall|k: int|
            0 <= k < m.t_doomed().len() ==> gone_file(
                m.target,
                m.source,
                m.archive,
                m.ci,
                #[trigger] m.t_doomed()[k],
            ),
        forall|e: EntryModel| #[trigger] new_file(m.source, m.target, m.archive, m.ci, e) ==> m.s_added().contains(e),
        forall|e: EntryModel| #[trigger] new_file(m.target, m.source, m.archive, m.ci, e) ==> m.t_added().contains(e),
        forall|e: EntryModel| #[trigger]
            gone_file(m.source, m.target, m.archive, m.ci, e) ==> m.s_doomed().contains(e),
        forall|e: EntryModel| #[trigger]
            gone_file(m.target, m.source, m.archive, m.ci, e) ==> m.t_doomed().contains(e),
{
    let f = EntryKind::File;
    lemma_table_facts(m.source, f, m.ci);
    lemma_table_facts(m.target, f, m.ci);
    lemma_archive(m);
    let sn = m.s_rows().len() as int;
    let tn = m.t_rows().len() as int;
    lemma_selected(m.s_rows(), sn, m.s_added_test());
    lemma_selected(m.t_rows(), tn, m.t_added_test());
    lemma_selected(m.s_rows(), sn, m.s_doomed_test());
    lemma_selected(m.t_rows(), tn, m.t_doomed_test());
    assert forall|k: int| 0 <= k < m.s_added().len() implies new_file(
        m.source,
        m.target,
        m.archive,
        m.ci,
        #[trigger] m.s_added()[k],
    ) by {
        let i = choose|i: int|
            0 <= i < sn && #[trigger] m.s_added_test()(i) && m.s_rows()[i] == m.s_added()[k];
        assert(m.t_file(m.s_rows()[i]) is None && m.a_file(m.s_rows()[i]) is None);
    }
    assert forall|k: int| 0 <= k < m.t_added().len() implies new_file(
        m.target,
        m.source,
        m.archive,
        m.ci,
        #[trigger] m.t_added()[k],
    ) by {
        let i = choose|i: int|
            0 <= i < tn && #[trigger] m.t_added_test()(i) && m.t_rows()[i] == m.t_added()[k];
        assert(m.s_file(m.t_rows()[i]) is None && m.a_file(m.t_rows()[i]) is None);
    }
    assert forall|k: int| 0 <= k < m.s_doomed().len() implies gone_file(
        m.source,
        m.target,
        m.archive,
        m.ci,
        #[trigger] m.s_doomed()[k],
    ) by {
        let i = choose|i: int|
            0 <= i < sn && #[trigger] m.s_doomed_test()(i) && m.s_rows()[i] == m.s_doomed()[k];
        assert(m.t_file(m.s_rows()[i]) is None && m.unchanged(m.s_rows()[i]));
    }
    assert forall|k: int| 0 <= k < m.t_doomed().len() implies gone_file(
        m.target,
        m.source,
        m.archive,
        m.ci,
        #[trigger] m.t_doomed()[k],
    ) by {
        let i = choose|i: int|
            0 <= i < tn && #[trigger] m.t_doomed_test()(i) && m.t_rows()[i] == m.t_doomed()[k];
        assert(m.s_file(m.t_rows()[i]) is None && m.unchanged(m.t_rows()[i]));
    }
    assert forall|e: EntryModel| #[trigger] new_file(m.source, m.target, m.archive, m.ci, e) implies m.s_added().contains(
    e) by {
        let i = choose|i: int| 0 <= i < sn && m.s_rows()[i] == e;
        assert(m.a_file(e) is None);
        assert(m.s_added_test()(i));
    }
    assert forall|e: EntryModel| #[trigger] new_file(m.target, m.source, m.archive, m.ci, e) implies m.t_added().contains(
    e) by {
        let i = choose|i: int| 0 <= i < tn && m.t_rows()[i] == e;
        assert(m.a_file(e) is None);
        assert(m.t_added_test()(i));
    }
    assert forall|e: EntryModel| #[trigger] gone_file(m.source, m.target, m.archive, m.ci, e) implies m.s_doomed().contains(
    e) by {
        let i = choose|i: int| 0 <= i < sn && m.s_rows()[i] == e;
        assert(m.unchanged(e));
        assert(m.s_doomed_test()(i));
    }
    assert forall|e: EntryModel| #[trigger] gone_file(m.target, m.source, m.archive, m.ci, e) implies m.t_doomed().contains(
    e) by {
        let i = choose|i: int| 0 <= i < tn && m.t_rows()[i] == e;
        assert(m.unchanged(e));
        assert(m.t_doomed_test()(i));
    }
}

/// A file that one side has and neither the other side nor the last sync.
pub open spec fn new_file(
    mine: Seq<EntryModel>,
    theirs: Seq<EntryModel>,
    archive: Option<Seq<EntryModel>>,
    ci: bool,
    e: EntryModel,
) -> bool {
    &&& has(mine, EntryKind::File, ci, e)
    &&& lacks(theirs, EntryKind::File, ci, key_of(e.path, ci))
    &&& never_synced(archive, ci, key_of(e.path, ci))
}

/// A file that one side has as it was at the last sync, and the other side has no more.
pub open spec fn gone_file(
    mine: Seq<EntryModel>,
    theirs: Seq<EntryModel>,
    archive: Option<Seq<EntryModel>>,
    ci: bool,
    e: EntryModel,
) -> bool {
    &&& has(mine, EntryKind::File, ci, e)
    &&& lacks(theirs, EntryKind::File, ci, key_of(e.path, ci))
    &&& as_last_synced(archive, ci, e)
}

/// Both tables have a file of one key: `e` here, `old` there.
pub open spec fn counterparts(
    here: Seq<EntryModel>,
    there: Seq<EntryModel>,
    ci: bool,
    e: EntryModel,
    old: EntryModel,
) -> bool {
    &&& has(here, EntryKind::File, ci, e)
    &&& has(there, EntryKind::File, ci, old)
    &&& key_of(e.path, ci) == key_of(old.path, ci)
}

/// The step replaces a file of `mine` by its counterpart of `theirs`, under the name it has, where they
/// differ and `due` says so of the new and the old one.
pub open spec fn replaces(
    op: OpModel,
    mine: Seq<EntryModel>,
    theirs: Seq<EntryModel>,
    ci: bool,
    due: spec_fn(EntryModel, EntryModel) -> bool,
) -> bool {
    exists|e: EntryModel, old: EntryModel|
        #![trigger counterparts(theirs, mine, ci, e, old)]
        counterparts(theirs, mine, ci, e, old) && op.path == old.path && carries_file(op, e) && !files_alike(
            e,
            old,
        ) && due(e, old)
}

/// In a sync the replaced file is the one that did not change since the last one, and the other did; where
/// nothing is known of a last sync, the one that is older, if that is to decide.
pub open spec fn outdated(
    archive: Option<Seq<EntryModel>>,
    newer_wins: bool,
    ci: bool,
    on_source: bool,
) -> spec_fn(EntryModel, EntryModel) -> bool {
    |e: EntryModel, old: EntryModel|
        if archive is Some {
            as_last_synced(archive, ci, old) && !as_last_synced(archive, ci, e)
        } else {
            newer_wins && if on_source {
                e.mtime_ms > old.mtime_ms
            } else {
                e.mtime_ms >= old.mtime_ms
            }
        }
}

/// The step copies a new file of `theirs` to `mine`.
pub open spec fn copies_new(
    op: OpModel,
    mine: Seq<EntryModel>,
    theirs: Seq<EntryModel>,
    archive: Option<Seq<EntryModel>>,
    ci: bool,
) -> bool {
    exists|e: EntryModel| #[trigger]
        new_file(theirs, mine, archive, ci, e) && op.path == e.path && carries_file(op, e) && op.from is None
}

/// The step deletes a file of `mine` that is gone from `theirs` and did not change since the last sync.
pub open spec fn deletes_gone(
    op: OpModel,
    mine: Seq<EntryModel>,
    theirs: Seq<EntryModel>,
    archive: Option<Seq<EntryModel>>,
    ci: bool,
) -> bool {
    exists|e: EntryModel| #[trigger]
        gone_file(mine, theirs, archive, ci, e) && op.path == e.path && op.size == Some(e.size)
}

/// The step moves a file of `mine` that is gone from `theirs` to where `theirs` has a new one of the same
/// hash and size.
pub open spec fn moves_gone(
    op: OpModel,
    mine: Seq<EntryModel>,
    theirs: Seq<EntryModel>,
    archive: Option<Seq<EntryModel>>,
    ci: bool,
) -> bool {
    exists|e: EntryModel, d: EntryModel|
        #![trigger new_file(theirs, mine, archive, ci, e), gone_file(mine, theirs, archive, ci, d)]
        new_file(theirs, mine, archive, ci, e) && gone_file(mine, theirs, archive, ci, d) && op.path == e.path
            && op.from == Some(d.path) && op.size == Some(e.size) && e.hash is Some && e.hash == d.hash
            && e.size == d.size
}

/// Both sides have the file, it differs, and neither is known to be the one to take; or one side changed
/// what the other deleted.
pub open spec fn cannot_tell(
    path: Seq<char>,
    source: Seq<EntryModel>,
    target: Seq<EntryModel>,
    archive: Option<Seq<EntryModel>>,
    newer_wins: bool,
    ci: bool,
) -> bool {
    ||| exists|e: EntryModel, old: EntryModel|
        #![trigger counterparts(source, target, ci, e, old)]
        counterparts(source, target, ci, e, old) && path == e.path && !files_alike(e, old) && if archive is Some {
            as_last_synced(archive, ci, e) == as_last_synced(archive, ci, old)
        } else {
            !newer_wins
        }
    ||| exists|e: EntryModel| #[trigger] changed_but_gone(source, target, archive, ci, e) && path == e.path
    ||| exists|e: EntryModel| #[trigger] changed_but_gone(target, source, archive, ci, e) && path == e.path
}

/// A file that one side changed since the last sync, and the other side deleted.
pub open spec fn changed_but_gone(
    mine: Seq<EntryModel>,
    theirs: Seq<EntryModel>,
    archive: Option<Seq<EntryModel>>,
    ci: bool,
    e: EntryModel,
) -> bool {
    &&& has(mine, EntryKind::File, ci, e)
    &&& lacks(theirs, EntryKind::File, ci, key_of(e.path, ci))
    &&& !never_synced(archive, ci, key_of(e.path, ci))
    &&& !as_last_synced(archive, ci, e)
}

/// What justifies a step of a sync.
pub open spec fn due_in_sync(
    op: OpModel,
    source: Seq<EntryModel>,
    target: Seq<EntryModel>,
    archive: Option<Seq<EntryModel>>,
    newer_wins: bool,
    ci: bool,
) -> bool {
    let on_source = op.side == Side::Source;
    let mine = if on_source {
        source
    } else {
        target
    };
    let theirs = if on_source {
        target
    } else {
        source
    };
    match op.action {
        Action::Update => replaces(op, mine, theirs, ci, outdated(archive, newer_wins, ci, on_source)),
        Action::Copy => copies_new(op, mine, theirs, archive, ci),
        Action::Delete => deletes_gone(op, mine, theirs, archive, ci),
        Action::Move => moves_gone(op, mine, theirs, archive, ci),
        Action::Conflict => cannot_tell(op.path, source, target, archive, newer_wins, ci) || first_illegal(
            split(op.path, '/'),
        ) is Some,
        Action::Note => true,
        _ => false,
    }
}

/// Every step of a sync has its reason in the two tables and in that of the last sync: a file is replaced
/// only by the side that changed it, copied only where it is new, deleted or moved only where the other
/// side gave it up and it did not change, and a conflict is one.
pub proof fn every_step_of_a_sync_is_due(
    source: Snapshot,
    target: Snapshot,
    archive: Option<&Snapshot>,
    newer_wins: bool,
    ci: bool,
    plan: Plan,
    k: int,
)
    requires
        plan_of(source, target, "sync"@, archive, newer_wins, ci, plan),
        0 <= k < plan.ops@.len(),
    ensures
        due_in_sync(
            plan.ops@[k]@,
            entry_models(source.entries@),
            entry_models(target.entries@),
            archived(archive),
            newer_wins,
            ci,
        ),
{
    lemma_modes_differ();
    let m = tables(source, target, archive, newer_wins, ci);
    let good = |op: OpModel| due_in_sync(op, m.source, m.target, m.archive, newer_wins, ci);
    lemma_sync_draft_due(m, good);
    assert forall|op: OpModel, s: Seq<char>, t: Seq<char>| #[trigger] good(op) implies good(
        #[trigger] legalized(op, s, t),
    ) by {
        let l = legalized(op, s, t);
        assert(l.path == op.path);
    }
    lemma_plan_good(source, target, "sync"@, archive, newer_wins, ci, plan, good);
    let out = op_models(plan.ops@);
    assert(good(out[k]));
}

/// The entries of the last sync's table.
pub open spec fn archived(archive: Option<&Snapshot>) -> Option<Seq<EntryModel>> {
    match archive {
        Some(a) => Some(entry_models(a.entries@)),
        None => None,
    }
}

proof fn lemma_twins_good(m: Tables, good: spec_fn(OpModel) -> bool)
    requires
        forall|op: OpModel| op.action == Action::Note ==> #[trigger] good(op),
    ensures
        all_good(m.twin_steps(m.source, Side::Source) + m.twin_steps(m.target, Side::Target), good),
{
    let f = EntryKind::File;
    lemma_gather_good(
        crate::compare::dups_of(m.source, f, m.ci).len() as int,
        m.twin_rule(m.source, Side::Source),
        good,
    );
    lemma_gather_good(
        crate::compare::dups_of(m.target, f, m.ci).len() as int,
        m.twin_rule(m.target, Side::Target),
        good,
    );
    lemma_good_concat(
        m.twin_steps(m.source, Side::Source),
        m.twin_steps(m.target, Side::Target),
        good,
    );
}

proof fn lemma_heads_due(m: Tables, good: spec_fn(OpModel) -> bool)
    requires
        good == |op: OpModel| due_in_sync(op, m.source, m.target, m.archive, m.newer_wins, m.ci),
    ensures
        all_good(gather(m.s_rows().len() as int, m.s_rule()), good),
        all_good(gather(m.t_rows().len() as int, m.t_rule()), good),
        all_good(m.hint_steps(), good),
{
    let f = EntryKind::File;
    let sn = m.s_rows().len() as int;
    let tn = m.t_rows().len() as int;
    assert forall|i: int| 0 <= i < sn implies (#[trigger] m.s_rule()(i) matches Some(op) ==> good(op)) by {
        lemma_s_step_due(m, i, good);
    }
    lemma_gather_good(sn, m.s_rule(), good);
    assert forall|i: int| 0 <= i < tn implies (#[trigger] m.t_rule()(i) matches Some(op) ==> good(op)) by {
        lemma_table_facts(m.source, f, m.ci);
        lemma_table_facts(m.target, f, m.ci);
        lemma_archive(m);
        let te = m.t_rows()[i];
        if m.t_step(te) is Some {
            assert(changed_but_gone(m.target, m.source, m.archive, m.ci, te));
        }
    }
    lemma_gather_good(tn, m.t_rule(), good);
    lemma_gather_good(m.s_added().len() as int, m.hint_rule(), good);
}

proof fn lemma_lists_due(m: Tables, good: spec_fn(OpModel) -> bool)
    requires
        good == |op: OpModel| due_in_sync(op, m.source, m.target, m.archive, m.newer_wins, m.ci),
    ensures
        forall|reason: Seq<char>| #[trigger]
            all_good(crate::compare::copy_steps(m.s_added(), Side::Target, reason), good),
        forall|reason: Seq<char>| #[trigger]
            all_good(crate::compare::copy_steps(m.t_added(), Side::Source, reason), good),
        forall|reason: Seq<char>| #[trigger]
            all_good(
                crate::compare::copy_steps(added(m.s_added(), m.t_doomed()), Side::Target, reason),
                good,
            ),
        forall|reason: Seq<char>| #[trigger]
            all_good(
                crate::compare::copy_steps(added(m.t_added(), m.s_doomed()), Side::Source, reason),
                good,
            ),
        forall|reason: Seq<char>| #[trigger]
            all_good(crate::compare::delete_steps(m.t_doomed(), Side::Target, reason), good),
        forall|reason: Seq<char>| #[trigger]
            all_good(crate::compare::delete_steps(m.s_doomed(), Side::Source, reason), good),
        forall|reason: Seq<char>| #[trigger]
            all_good(
                crate::compare::delete_steps(deleted(m.s_added(), m.t_doomed()), Side::Target, reason),
                good,
            ),
        forall|reason: Seq<char>| #[trigger]
            all_good(
                crate::compare::delete_steps(deleted(m.t_added(), m.s_doomed()), Side::Source, reason),
                good,
            ),
{
    lemma_sorted_by_archive(m);
    lemma_sublist(m.s_added(), alone(pairing(m.s_added(), m.t_doomed())));
    lemma_sublist(m.t_added(), alone(pairing(m.t_added(), m.s_doomed())));
    lemma_sublist(m.t_doomed(), left_over(pairing(m.s_added(), m.t_doomed())));
    lemma_sublist(m.s_doomed(), left_over(pairing(m.t_added(), m.s_doomed())));
    lemma_copies_due(m, m.s_added(), Side::Target, good);
    lemma_copies_due(m, m.t_added(), Side::Source, good);
    lemma_copies_due(m, added(m.s_added(), m.t_doomed()), Side::Target, good);
    lemma_copies_due(m, added(m.t_added(), m.s_doomed()), Side::Source, good);
    lemma_deletes_due(m, m.t_doomed(), Side::Target, good);
    lemma_deletes_due(m, m.s_doomed(), Side::Source, good);
    lemma_deletes_due(m, deleted(m.s_added(), m.t_doomed()), Side::Target, good);
    lemma_deletes_due(m, deleted(m.t_added(), m.s_doomed()), Side::Source, good);
}

proof fn lemma_sync_moves_due(m: Tables, good: spec_fn(OpModel) -> bool)
    requires
        good == |op: OpModel| due_in_sync(op, m.source, m.target, m.archive, m.newer_wins, m.ci),
    ensures
        all_good(
            crate::compare::move_steps(
                m.s_added(),
                m.t_doomed(),
                Side::Target,
                "move-on-source-replayed"@,
            ),
            good,
        ),
        all_good(
            crate::compare::move_steps(
                m.t_added(),
                m.s_doomed(),
                Side::Source,
                "move-on-target-replayed"@,
            ),
            good,
        ),
{
    lemma_sorted_by_archive(m);
    lemma_moves_due(m, m.s_added(), m.t_doomed(), Side::Target, "move-on-source-replayed"@, good);
    lemma_moves_due(m, m.t_added(), m.s_doomed(), Side::Source, "move-on-target-replayed"@, good);
}

/// The steps of a sync as one list of lists.
spec fn sync_parts(m: Tables) -> Seq<Seq<OpModel>> {
    let s = m.s_added();
    let t = m.t_added();
    let sd = m.s_doomed();
    let td = m.t_doomed();
    let twins = m.twin_steps(m.source, Side::Source) + m.twin_steps(m.target, Side::Target);
    let a = gather(m.s_rows().len() as int, m.s_rule());
    let b = gather(m.t_rows().len() as int, m.t_rule());
    if m.archive is Some && m.hashed {
        seq![
            twins,
            a,
            b,
            crate::compare::move_steps(s, td, Side::Target, "move-on-source-replayed"@),
            crate::compare::move_steps(t, sd, Side::Source, "move-on-target-replayed"@),
            crate::compare::copy_steps(added(s, td), Side::Target, "added-on-source"@),
            crate::compare::copy_steps(added(t, sd), Side::Source, "added-on-target"@),
            crate::compare::delete_steps(deleted(s, td), Side::Target, "deleted-on-source"@),
            crate::compare::delete_steps(deleted(t, sd), Side::Source, "deleted-on-target"@),
        ]
    } else {
        seq![
            twins,
            a,
            b,
            if m.hashed {
                m.hint_steps()
            } else {
                Seq::empty()
            },
            crate::compare::copy_steps(s, Side::Target, "only-in-source"@),
            crate::compare::copy_steps(t, Side::Source, "only-in-target"@),
            crate::compare::delete_steps(td, Side::Target, "deleted-on-source"@),
            crate::compare::delete_steps(sd, Side::Source, "deleted-on-target"@),
        ]
    }
}

/// All parts, one after the other.
spec fn strung(parts: Seq<Seq<OpModel>>) -> Seq<OpModel>
    decreases parts.len(),
{
    if parts.len() == 0 {
        Seq::empty()
    } else {
        strung(parts.drop_last()) + parts.last()
    }
}

proof fn lemma_strung(parts: Seq<Seq<OpModel>>)
    ensures
        forall|p: int, op: OpModel|
            0 <= p < parts.len() && #[trigger] parts[p].contains(op) ==> strung(parts).contains(op),
        forall|op: OpModel| #[trigger]
            strung(parts).contains(op) ==> exists|p: int|
                0 <= p < parts.len() && #[trigger] parts[p].contains(op),
    decreases parts.len(),
{
    if parts.len() > 0 {
        let less = parts.drop_last();
        let last = parts.last();
        lemma_strung(less);
        assert forall|p: int, op: OpModel|
            0 <= p < parts.len() && #[trigger] parts[p].contains(op) implies strung(parts).contains(op) by {
            if p < less.len() {
                assert(less[p].contains(op));
                lemma_in_left(strung(less), last, op);
            } else {
                lemma_in_right(strung(less), last, op);
            }
        }
        assert forall|op: OpModel| #[trigger] strung(parts).contains(op) implies exists|p: int|
            0 <= p < parts.len() && #[trigger] parts[p].contains(op) by {
            let all = strung(parts);
            let k = choose|k: int| 0 <= k < all.len() && all[k] == op;
            let n = strung(less).len();
            if k < n {
                assert(strung(less)[k] == op);
                assert(strung(less).contains(op));
                let p = choose|p: int| 0 <= p < less.len() && #[trigger] less[p].contains(op);
                assert(parts[p].contains(op));
            } else {
                assert(last[k - n] == op);
                assert(parts[parts.len() - 1].contains(op));
            }
        }
    }
}

proof fn lemma_strung_good(parts: Seq<Seq<OpModel>>, good: spec_fn(OpModel) -> bool)
    requires
        forall|p: int| 0 <= p < parts.len() ==> all_good(#[trigger] parts[p], good),
    ensures
        all_good(strung(parts), good),
    decreases parts.len(),
{
    if parts.len() > 0 {
        assert forall|p: int| 0 <= p < parts.drop_last().len() implies all_good(
            #[trigger] parts.drop_last()[p],
            good,
        ) by {
            assert(parts.drop_last()[p] == parts[p]);
        }
        lemma_strung_good(parts.drop_last(), good);
        lemma_good_concat(strung(parts.drop_last()), parts.last(), good);
    }
}

proof fn lemma_strung_push(parts: Seq<Seq<OpModel>>, last: Seq<OpModel>)
    ensures
        strung(parts.push(last)) == strung(parts) + last,
{
    assert(parts.push(last).drop_last() =~= parts);
}

proof fn lemma_strung_first(t: Seq<OpModel>, rest: Seq<Seq<OpModel>>)
    ensures
        strung(seq![t] + rest) == t + strung(rest),
    decreases rest.len(),
{
    let all = seq![t] + rest;
    if rest.len() == 0 {
        assert(all.drop_last() =~= Seq::<Seq<OpModel>>::empty());
        assert(strung(all.drop_last()) =~= Seq::<OpModel>::empty());
        assert(strung(all) =~= t + strung(rest));
    } else {
        lemma_strung_first(t, rest.drop_last());
        assert(all.drop_last() =~= seq![t] + rest.drop_last());
        assert(all.last() == rest.last());
        assert(strung(all) =~= t + strung(rest));
    }
}

proof fn lemma_strung_eight(
    a: Seq<OpModel>,
    b: Seq<OpModel>,
    c: Seq<OpModel>,
    d: Seq<OpModel>,
    e: Seq<OpModel>,
    f: Seq<OpModel>,
    g: Seq<OpModel>,
    h: Seq<OpModel>,
)
    ensures
        strung(seq![a, b, c, d, e, f, g]) == a + b + c + d + e + f + g,
        strung(seq![a, b, c, d, e, f, g, h]) == a + b + c + d + e + f + g + h,
{
    let none = Seq::<Seq<OpModel>>::empty();
    let p1 = none.push(a);
    let p2 = p1.push(b);
    let p3 = p2.push(c);
    let p4 = p3.push(d);
    let p5 = p4.push(e);
    let p6 = p5.push(f);
    let p7 = p6.push(g);
    lemma_strung_push(none, a);
    lemma_strung_push(p1, b);
    lemma_strung_push(p2, c);
    lemma_strung_push(p3, d);
    lemma_strung_push(p4, e);
    lemma_strung_push(p5, f);
    lemma_strung_push(p6, g);
    lemma_strung_push(p7, h);
    assert(strung(none) + a =~= a);
    assert(p7 =~= seq![a, b, c, d, e, f, g]);
    assert(p7.push(h) =~= seq![a, b, c, d, e, f, g, h]);
}

proof fn lemma_sync_is_strung(m: Tables)
    ensures
        m.draft("sync"@) == strung(sync_parts(m)),
{
    lemma_modes_differ();
    let ps = sync_parts(m);
    let rest = ps.skip(1);
    lemma_strung_first(ps[0], rest);
    assert(ps =~= seq![ps[0]] + rest);
    if m.archive is Some && m.hashed {
        lemma_strung_eight(ps[1], ps[2], ps[3], ps[4], ps[5], ps[6], ps[7], ps[8]);
        assert(rest =~= seq![ps[1], ps[2], ps[3], ps[4], ps[5], ps[6], ps[7], ps[8]]);
    } else {
        lemma_strung_eight(ps[1], ps[2], ps[3], ps[4], ps[5], ps[6], ps[7], ps[7]);
        assert(rest =~= seq![ps[1], ps[2], ps[3], ps[4], ps[5], ps[6], ps[7]]);
    }
}

proof fn lemma_sync_draft_due(m: Tables, good: spec_fn(OpModel) -> bool)
    requires
        good == |op: OpModel| due_in_sync(op, m.source, m.target, m.archive, m.newer_wins, m.ci),
    ensures
        all_good(m.draft("sync"@), good),
{
    lemma_twins_good(m, good);
    lemma_heads_due(m, good);
    lemma_lists_due(m, good);
    lemma_sync_moves_due(m, good);
    lemma_sync_is_strung(m);
    let ps = sync_parts(m);
    assert forall|p: int| 0 <= p < ps.len() implies all_good(#[trigger] ps[p], good) by {}
    lemma_strung_good(ps, good);
}

proof fn lemma_sublist(rows: Seq<EntryModel>, test: spec_fn(int) -> bool)
    ensures
        forall|k: int|
            0 <= k < at(rows, select(rows.len() as int, test)).len() ==> rows.contains(
                #[trigger] at(rows, select(rows.len() as int, test))[k],
            ),
{
    let n = rows.len() as int;
    lemma_selected(rows, n, test);
    let out = at(rows, select(n, test));
    assert forall|k: int| 0 <= k < out.len() implies rows.contains(#[trigger] out[k]) by {
        let i = choose|i: int| 0 <= i < n && #[trigger] test(i) && rows[i] == out[k];
        assert(rows[i] == out[k]);
    }
}

proof fn lemma_s_step_due(m: Tables, i: int, good: spec_fn(OpModel) -> bool)
    requires
        good == |op: OpModel| due_in_sync(op, m.source, m.target, m.archive, m.newer_wins, m.ci),
        0 <= i < m.s_rows().len(),
    ensures
        m.s_rule()(i) matches Some(op) ==> good(op),
{
    let f = EntryKind::File;
    let ci = m.ci;
    lemma_table_facts(m.source, f, ci);
    lemma_table_facts(m.target, f, ci);
    lemma_archive(m);
    let se = m.s_rows()[i];
    match m.t_file(se) {
        Some(te) => {
            assert(counterparts(m.source, m.target, ci, se, te));
            assert(counterparts(m.target, m.source, ci, te, se));
            let r = m.a_file(se);
            assert((r matches Some(x) && files_alike(se, x)) <==> as_last_synced(m.archive, ci, se));
            assert((r matches Some(x) && files_alike(te, x)) <==> as_last_synced(m.archive, ci, te));
            if !files_alike(se, te) {
                assert(!files_alike(te, se));
                let op = m.differing(se, te);
                let to_target = outdated(m.archive, m.newer_wins, ci, false);
                let to_source = outdated(m.archive, m.newer_wins, ci, true);
                if op.action == Action::Update {
                    if op.side == Side::Target {
                        assert(to_target(se, te));
                        assert(replaces(op, m.target, m.source, ci, to_target));
                    } else {
                        assert(to_source(te, se));
                        assert(replaces(op, m.source, m.target, ci, to_source));
                    }
                }
            }
        },
        None => {
            if m.s_step(se) is Some {
                assert(changed_but_gone(m.source, m.target, m.archive, ci, se));
            }
        },
    }
}

proof fn lemma_copies_due(m: Tables, list: Seq<EntryModel>, side: Side, good: spec_fn(OpModel) -> bool)
    requires
        good == |op: OpModel| due_in_sync(op, m.source, m.target, m.archive, m.newer_wins, m.ci),
        forall|k: int|
            0 <= k < list.len() ==> if side == Side::Target {
                new_file(m.source, m.target, m.archive, m.ci, #[trigger] list[k])
            } else {
                new_file(m.target, m.source, m.archive, m.ci, list[k])
            },
    ensures
        forall|reason: Seq<char>| all_good(#[trigger] crate::compare::copy_steps(list, side, reason), good),
{
    assert forall|reason: Seq<char>| all_good(
        #[trigger] crate::compare::copy_steps(list, side, reason),
        good,
    ) by {
        let rule = copy_rule(list, side, reason);
        assert forall|i: int| 0 <= i < list.len() implies (#[trigger] rule(i) matches Some(op) ==> good(op)) by {
            let e = list[i];
            let op = rule(i)->0;
            assert(carries_file(op, e));
        }
        lemma_gather_good(list.len() as int, rule, good);
    }
}

proof fn lemma_deletes_due(m: Tables, list: Seq<EntryModel>, side: Side, good: spec_fn(OpModel) -> bool)
    requires
        good == |op: OpModel| due_in_sync(op, m.source, m.target, m.archive, m.newer_wins, m.ci),
        forall|k: int|
            0 <= k < list.len() ==> if side == Side::Target {
                gone_file(m.target, m.source, m.archive, m.ci, #[trigger] list[k])
            } else {
                gone_file(m.source, m.target, m.archive, m.ci, list[k])
            },
    ensures
        forall|reason: Seq<char>| all_good(#[trigger] crate::compare::delete_steps(list, side, reason), good),
{
    assert forall|reason: Seq<char>| all_good(
        #[trigger] crate::compare::delete_steps(list, side, reason),
        good,
    ) by {
        let rule = delete_rule(list, side, reason);
        assert forall|i: int| 0 <= i < list.len() implies (#[trigger] rule(i) matches Some(op) ==> good(op)) by {
            let e = list[i];
        }
        lemma_gather_good(list.len() as int, rule, good);
    }
}

proof fn lemma_moves_due(
    m: Tables,
    adds: Seq<EntryModel>,
    dels: Seq<EntryModel>,
    side: Side,
    reason: Seq<char>,
    good: spec_fn(OpModel) -> bool,
)
    requires
        good == |op: OpModel| due_in_sync(op, m.source, m.target, m.archive, m.newer_wins, m.ci),
        forall|k: int|
            0 <= k < adds.len() ==> if side == Side::Target {
                new_file(m.source, m.target, m.archive, m.ci, #[trigger] adds[k])
            } else {
                new_file(m.target, m.source, m.archive, m.ci, adds[k])
            },
        forall|k: int|
            0 <= k < dels.len() ==> if side == Side::Target {
                gone_file(m.target, m.source, m.archive, m.ci, #[trigger] dels[k])
            } else {
                gone_file(m.source, m.target, m.archive, m.ci, dels[k])
            },
    ensures
        all_good(crate::compare::move_steps(adds, dels, side, reason), good),
{
    let pairs = pairing(adds, dels);
    let rule = move_rule(adds, dels, pairs, side, reason);
    moves_pair_one_to_one(adds, dels);
    assert forall|i: int| 0 <= i < adds.len() implies (#[trigger] rule(i) matches Some(op) ==> good(op)) by {
        if let Some(j) = pairs[i] {
            let e = adds[i];
            let d = dels[j];
            assert(could_be_moved(d, e));
        }
    }
    lemma_gather_good(adds.len() as int, rule, good);
}

/// The plan has this step.
pub open spec fn planned(plan: Plan, op: OpModel) -> bool {
    exists|k: int| 0 <= k < plan.ops@.len() && (#[trigger] plan.ops@[k])@ == op
}

proof fn lemma_planned(
    source: Snapshot,
    target: Snapshot,
    mode: Seq<char>,
    archive: Option<&Snapshot>,
    newer_wins: bool,
    ci: bool,
    plan: Plan,
    op: OpModel,
)
    requires
        plan_of(source, target, mode, archive, newer_wins, ci, plan),
        tables(source, target, archive, newer_wins, ci).draft(mode).contains(op),
    ensures
        planned(plan, legalized(op, source.header.os@, target.header.os@)),
{
    let draft = tables(source, target, archive, newer_wins, ci).draft(mode);
    let legal = all_legalized(draft, source.header.os@, target.header.os@);
    let out = op_models(plan.ops@);
    arranging_keeps_every_step(legal, out);
    let i = choose|i: int| 0 <= i < draft.len() && draft[i] == op;
    let l = legalized(op, source.header.os@, target.header.os@);
    assert(legal[i] == l);
    assert(legal.contains(l));
    assert(out.contains(l));
    let k = choose|k: int| 0 <= k < out.len() && out[k] == l;
    assert(plan.ops@[k]@ == l);
}

proof fn lemma_one_per_key(es: Seq<EntryModel>, ci: bool, a: EntryModel, b: EntryModel)
    requires
        has(es, EntryKind::File, ci, a),
        has(es, EntryKind::File, ci, b),
        key_of(a.path, ci) == key_of(b.path, ci),
    ensures
        a == b,
{
    lemma_table_facts(es, EntryKind::File, ci);
    assert(entry_for(es, EntryKind::File, ci, key_of(a.path, ci)) == Some(a));
    assert(entry_for(es, EntryKind::File, ci, key_of(b.path, ci)) == Some(b));
}

/// What a sync says at once of a file that both sides have stands in the plan.
proof fn lemma_s_step_planned(
    source: Snapshot,
    target: Snapshot,
    archive: Option<&Snapshot>,
    newer_wins: bool,
    ci: bool,
    plan: Plan,
    se: EntryModel,
)
    requires
        plan_of(source, target, "sync"@, archive, newer_wins, ci, plan),
        has(entry_models(source.entries@), EntryKind::File, ci, se),
        tables(source, target, archive, newer_wins, ci).s_step(se) is Some,
    ensures
        planned(
            plan,
            legalized(
                tables(source, target, archive, newer_wins, ci).s_step(se)->0,
                source.header.os@,
                target.header.os@,
            ),
        ),
{
    let m = tables(source, target, archive, newer_wins, ci);
    let n = m.s_rows().len() as int;
    lemma_table_facts(m.source, EntryKind::File, ci);
    let i = choose|i: int| 0 <= i < n && m.s_rows()[i] == se;
    let op = m.s_step(se)->0;
    lemma_gather(n, m.s_rule());
    assert(m.s_rule()(i) == Some(op));
    lemma_sync_is_strung(m);
    let ps = sync_parts(m);
    lemma_strung(ps);
    assert(ps[1].contains(op));
    lemma_planned(source, target, "sync"@, archive, newer_wins, ci, plan, op);
}

/// In a sync with the table of the last one, a file that one side alone changed is updated on the other
/// side: there, under the name it has there, with size, time and hash of the changed one; and the changed
/// side keeps what it has.
pub proof fn a_change_on_one_side_travels(
    source: Snapshot,
    target: Snapshot,
    archive: &Snapshot,
    newer_wins: bool,
    ci: bool,
    plan: Plan,
    se: EntryModel,
    te: EntryModel,
)
    requires
        plan_of(source, target, "sync"@, Some(archive), newer_wins, ci, plan),
        counterparts(entry_models(source.entries@), entry_models(target.entries@), ci, se, te),
        !files_alike(se, te),
        as_last_synced(archived(Some(archive)), ci, se) != as_last_synced(archived(Some(archive)), ci, te),
    ensures
        ({
            let by_source = as_last_synced(archived(Some(archive)), ci, te);
            let to = if by_source {
                Side::Target
            } else {
                Side::Source
            };
            let (new, old) = if by_source {
                (se, te)
            } else {
                (te, se)
            };
            &&& exists|k: int|
                0 <= k < plan.ops@.len() && {
                    let op = (#[trigger] plan.ops@[k])@;
                    op.action == Action::Update && op.side == to && op.path == old.path && carries_file(op, new)
                }
            &&& forall|k: int|
                0 <= k < plan.ops@.len() ==> {
                    let op = (#[trigger] plan.ops@[k])@;
                    op.action == Action::Update ==> {
                        &&& op.side == to && op.path == old.path ==> carries_file(op, new)
                        &&& op.side != to ==> op.path != new.path
                    }
                }
        }),
{
    let m = tables(source, target, Some(archive), newer_wins, ci);
    let f = EntryKind::File;
    lemma_table_facts(m.source, f, ci);
    lemma_table_facts(m.target, f, ci);
    lemma_archive(m);
    let r = m.a_file(se);
    assert(m.t_file(se) == Some(te));
    assert((r matches Some(x) && files_alike(se, x)) <==> as_last_synced(m.archive, ci, se));
    assert((r matches Some(x) && files_alike(te, x)) <==> as_last_synced(m.archive, ci, te));
    lemma_s_step_planned(source, target, Some(archive), newer_wins, ci, plan, se);
    let by_source = as_last_synced(m.archive, ci, te);
    let to = if by_source {
        Side::Target
    } else {
        Side::Source
    };
    let (new, old) = if by_source {
        (se, te)
    } else {
        (te, se)
    };
    let op = m.s_step(se)->0;
    assert(legalized(op, source.header.os@, target.header.os@) == op);
    let k = choose|k: int| 0 <= k < plan.ops@.len() && (#[trigger] plan.ops@[k])@ == op;
    assert(carries_file(plan.ops@[k]@, new));
    assert forall|k: int| 0 <= k < plan.ops@.len() implies {
        let op = (#[trigger] plan.ops@[k])@;
        op.action == Action::Update ==> {
            &&& op.side == to && op.path == old.path ==> carries_file(op, new)
            &&& op.side != to ==> op.path != new.path
        }
    } by {
        let op = plan.ops@[k]@;
        every_step_of_a_sync_is_due(source, target, Some(archive), newer_wins, ci, plan, k);
        if op.action == Action::Update {
            let on_source = op.side == Side::Source;
            let mine = if on_source {
                m.source
            } else {
                m.target
            };
            let theirs = if on_source {
                m.target
            } else {
                m.source
            };
            let due = outdated(m.archive, newer_wins, ci, on_source);
            let (e, o) = choose|e: EntryModel, o: EntryModel|
                #![trigger counterparts(theirs, mine, ci, e, o)]
                counterparts(theirs, mine, ci, e, o) && op.path == o.path && carries_file(op, e)
                    && !files_alike(e, o) && due(e, o);
            if op.side == to && op.path == old.path {
                lemma_one_per_key(mine, ci, o, old);
                lemma_one_per_key(theirs, ci, e, new);
            } else if op.side != to && op.path == new.path {
                lemma_one_per_key(mine, ci, o, new);
                assert(due(e, o));
            }
        }
    }
}

/// In a sync with the table of the last one, a file that both sides changed, or that neither is known to
/// have kept, is a conflict, and it is updated on neither side.
pub proof fn changes_on_both_sides_are_left_to_the_user(
    source: Snapshot,
    target: Snapshot,
    archive: &Snapshot,
    newer_wins: bool,
    ci: bool,
    plan: Plan,
    se: EntryModel,
    te: EntryModel,
)
    requires
        plan_of(source, target, "sync"@, Some(archive), newer_wins, ci, plan),
        counterparts(entry_models(source.entries@), entry_models(target.entries@), ci, se, te),
        !files_alike(se, te),
        as_last_synced(archived(Some(archive)), ci, se) == as_last_synced(archived(Some(archive)), ci, te),
    ensures
        exists|k: int|
            0 <= k < plan.ops@.len() && (#[trigger] plan.ops@[k])@.action == Action::Conflict && plan.ops@[k]@.path
                == se.path,
        forall|k: int|
            0 <= k < plan.ops@.len() && (#[trigger] plan.ops@[k])@.action == Action::Update ==> !(plan.ops@[k]@.side
                == Side::Source && plan.ops@[k]@.path == se.path) && !(plan.ops@[k]@.side == Side::Target
                && plan.ops@[k]@.path == te.path),
{
    let m = tables(source, target, Some(archive), newer_wins, ci);
    let f = EntryKind::File;
    lemma_table_facts(m.source, f, ci);
    lemma_table_facts(m.target, f, ci);
    lemma_archive(m);
    let r = m.a_file(se);
    assert(m.t_file(se) == Some(te));
    assert((r matches Some(x) && files_alike(se, x)) <==> as_last_synced(m.archive, ci, se));
    assert((r matches Some(x) && files_alike(te, x)) <==> as_last_synced(m.archive, ci, te));
    lemma_s_step_planned(source, target, Some(archive), newer_wins, ci, plan, se);
    let op = m.s_step(se)->0;
    assert(legalized(op, source.header.os@, target.header.os@) == op);
    let k = choose|k: int| 0 <= k < plan.ops@.len() && (#[trigger] plan.ops@[k])@ == op;
    assert(plan.ops@[k]@.action == Action::Conflict);
    assert forall|k: int|
        0 <= k < plan.ops@.len() && (#[trigger] plan.ops@[k])@.action == Action::Update implies !(plan.ops@[k]@.side
        == Side::Source && plan.ops@[k]@.path == se.path) && !(plan.ops@[k]@.side == Side::Target
        && plan.ops@[k]@.path == te.path) by {
        let op = plan.ops@[k]@;
        every_step_of_a_sync_is_due(source, target, Some(archive), newer_wins, ci, plan, k);
        let on_source = op.side == Side::Source;
        let (mine, theirs) = if on_source {
            (m.source, m.target)
        } else {
            (m.target, m.source)
        };
        let (old, new) = if on_source {
            (se, te)
        } else {
            (te, se)
        };
        let due = outdated(m.archive, newer_wins, ci, on_source);
        let (e, o) = choose|e: EntryModel, o: EntryModel|
            #![trigger counterparts(theirs, mine, ci, e, o)]
            counterparts(theirs, mine, ci, e, o) && op.path == o.path && carries_file(op, e) && !files_alike(
                e,
                o,
            ) && due(e, o);
        if op.path == old.path {
            lemma_one_per_key(mine, ci, o, old);
            lemma_one_per_key(theirs, ci, e, new);
            assert(due(e, o));
        }
    }
}

/// Without the table of a last sync, a file that differs is a conflict; where the newer one is to win, it
/// replaces the older one, and on a tie the source does.
pub proof fn without_an_archive_the_newer_file_or_the_user_decides(
    source: Snapshot,
    target: Snapshot,
    newer_wins: bool,
    ci: bool,
    plan: Plan,
    se: EntryModel,
    te: EntryModel,
)
    requires
        plan_of(source, target, "sync"@, None, newer_wins, ci, plan),
        counterparts(entry_models(source.entries@), entry_models(target.entries@), ci, se, te),
        !files_alike(se, te),
    ensures
        !newer_wins ==> exists|k: int|
            0 <= k < plan.ops@.len() && (#[trigger] plan.ops@[k])@.action == Action::Conflict && plan.ops@[k]@.path
                == se.path,
        newer_wins && se.mtime_ms >= te.mtime_ms ==> exists|k: int|
            0 <= k < plan.ops@.len() && (#[trigger] plan.ops@[k])@.action == Action::Update && plan.ops@[k]@.side
                == Side::Target && plan.ops@[k]@.path == te.path && carries_file(plan.ops@[k]@, se),
        newer_wins && se.mtime_ms < te.mtime_ms ==> exists|k: int|
            0 <= k < plan.ops@.len() && (#[trigger] plan.ops@[k])@.action == Action::Update && plan.ops@[k]@.side
                == Side::Source && plan.ops@[k]@.path == se.path && carries_file(plan.ops@[k]@, te),
{
    let m = tables(source, target, None, newer_wins, ci);
    let f = EntryKind::File;
    lemma_table_facts(m.source, f, ci);
    lemma_table_facts(m.target, f, ci);
    assert(m.t_file(se) == Some(te));
    lemma_s_step_planned(source, target, None, newer_wins, ci, plan, se);
    let op = m.s_step(se)->0;
    assert(legalized(op, source.header.os@, target.header.os@) == op);
    let k = choose|k: int| 0 <= k < plan.ops@.len() && (#[trigger] plan.ops@[k])@ == op;
    assert(plan.ops@[k]@ == op);
}

/// The plan lets the file arrive on that side: by a copy of it, by a move to its name, or it says that the
/// name cannot be had there.
pub open spec fn arrives_in(plan: Plan, side: Side, os: Seq<char>, e: EntryModel) -> bool {
    exists|k: int|
        0 <= k < plan.ops@.len() && {
            let op = (#[trigger] plan.ops@[k])@;
            &&& op.side == side
            &&& op.path == e.path
            &&& (op.action == Action::Copy && carries_file(op, e)) || op.action == Action::Move || (op.action
                == Action::Conflict && os == "windows"@ && first_illegal(split(e.path, '/')) is Some)
        }
}

/// The plan takes the file from that side: it deletes it, or moves it to where it is wanted, or would move
/// it to a name that cannot be had there.
pub open spec fn leaves_in(plan: Plan, side: Side, os: Seq<char>, e: EntryModel) -> bool {
    exists|k: int|
        0 <= k < plan.ops@.len() && {
            let op = (#[trigger] plan.ops@[k])@;
            &&& op.side == side
            &&& (op.action == Action::Delete && op.path == e.path) || (op.action == Action::Move && op.from
                == Some(e.path)) || (op.action == Action::Conflict && op.from == Some(e.path) && os
                == "windows"@)
        }
}

proof fn lemma_arrives(
    source: Snapshot,
    target: Snapshot,
    mode: Seq<char>,
    archive: Option<&Snapshot>,
    newer_wins: bool,
    ci: bool,
    plan: Plan,
    side: Side,
    e: EntryModel,
    op: OpModel,
)
    requires
        plan_of(source, target, mode, archive, newer_wins, ci, plan),
        tables(source, target, archive, newer_wins, ci).draft(mode).contains(op),
        op.side == side,
        op.path == e.path,
        (op.action == Action::Copy && carries_file(op, e)) || op.action == Action::Move,
    ensures
        arrives_in(
            plan,
            side,
            if side == Side::Target {
                target.header.os@
            } else {
                source.header.os@
            },
            e,
        ),
{
    lemma_planned(source, target, mode, archive, newer_wins, ci, plan, op);
    let l = legalized(op, source.header.os@, target.header.os@);
    let k = choose|k: int| 0 <= k < plan.ops@.len() && (#[trigger] plan.ops@[k])@ == l;
    assert(plan.ops@[k]@ == l);
}

proof fn lemma_leaves(
    source: Snapshot,
    target: Snapshot,
    mode: Seq<char>,
    archive: Option<&Snapshot>,
    newer_wins: bool,
    ci: bool,
    plan: Plan,
    side: Side,
    e: EntryModel,
    op: OpModel,
)
    requires
        plan_of(source, target, mode, archive, newer_wins, ci, plan),
        tables(source, target, archive, newer_wins, ci).draft(mode).contains(op),
        op.side == side,
        (op.action == Action::Delete && op.path == e.path) || (op.action == Action::Move && op.from == Some(
            e.path,
        )),
    ensures
        leaves_in(
            plan,
            side,
            if side == Side::Target {
                target.header.os@
            } else {
                source.header.os@
            },
            e,
        ),
{
    lemma_planned(source, target, mode, archive, newer_wins, ci, plan, op);
    let l = legalized(op, source.header.os@, target.header.os@);
    let k = choose|k: int| 0 <= k < plan.ops@.len() && (#[trigger] plan.ops@[k])@ == l;
    assert(plan.ops@[k]@ == l);
}

/// An addition is either paired, and then moved to, or left, and then copied.
proof fn lemma_add_step(
    adds: Seq<EntryModel>,
    dels: Seq<EntryModel>,
    side: Side,
    why_move: Seq<char>,
    why_copy: Seq<char>,
    e: EntryModel,
) -> (op: OpModel)
    requires
        adds.contains(e),
    ensures
        crate::compare::move_steps(adds, dels, side, why_move).contains(op) || crate::compare::copy_steps(
            added(adds, dels),
            side,
            why_copy,
        ).contains(op),
        op.side == side,
        op.path == e.path,
        (op.action == Action::Copy && carries_file(op, e)) || op.action == Action::Move,
{
    let x = choose|x: int| 0 <= x < adds.len() && adds[x] == e;
    let pairs = pairing(adds, dels);
    moves_pair_one_to_one(adds, dels);
    if pairs[x] is Some {
        let rule = move_rule(adds, dels, pairs, side, why_move);
        lemma_gather(adds.len() as int, rule);
        assert(rule(x) is Some);
        rule(x)->0
    } else {
        assert(alone(pairs)(x));
        let y = lemma_at_contains(adds, adds.len() as int, alone(pairs), x);
        let list = added(adds, dels);
        assert(list[y] == e);
        let rule = copy_rule(list, side, why_copy);
        lemma_gather(list.len() as int, rule);
        assert(rule(y) is Some);
        rule(y)->0
    }
}

/// A deletion is either paired, and then moved from, or left, and then deleted.
proof fn lemma_del_step(
    adds: Seq<EntryModel>,
    dels: Seq<EntryModel>,
    side: Side,
    why_move: Seq<char>,
    why_delete: Seq<char>,
    e: EntryModel,
) -> (op: OpModel)
    requires
        dels.contains(e),
    ensures
        crate::compare::move_steps(adds, dels, side, why_move).contains(op) || crate::compare::delete_steps(
            deleted(adds, dels),
            side,
            why_delete,
        ).contains(op),
        op.side == side,
        (op.action == Action::Delete && op.path == e.path) || (op.action == Action::Move && op.from == Some(
            e.path,
        )),
{
    let x = choose|x: int| 0 <= x < dels.len() && dels[x] == e;
    let pairs = pairing(adds, dels);
    moves_pair_one_to_one(adds, dels);
    if !unpaired(pairs, x) {
        let w = choose|w: int| 0 <= w < pairs.len() && !(#[trigger] pairs[w] != Some(x));
        let rule = move_rule(adds, dels, pairs, side, why_move);
        lemma_gather(adds.len() as int, rule);
        assert(rule(w) is Some);
        rule(w)->0
    } else {
        assert(left_over(pairs)(x));
        let y = lemma_at_contains(dels, dels.len() as int, left_over(pairs), x);
        let list = deleted(adds, dels);
        assert(list[y] == e);
        let rule = delete_rule(list, side, why_delete);
        lemma_gather(list.len() as int, rule);
        assert(rule(y) is Some);
        rule(y)->0
    }
}

proof fn lemma_plain_step(
    list: Seq<EntryModel>,
    side: Side,
    reason: Seq<char>,
    e: EntryModel,
) -> (r: (OpModel, OpModel))
    requires
        list.contains(e),
    ensures
        crate::compare::copy_steps(list, side, reason).contains(r.0),
        r.0.side == side && r.0.path == e.path && r.0.action == Action::Copy && carries_file(r.0, e),
        crate::compare::delete_steps(list, side, reason).contains(r.1),
        r.1.side == side && r.1.path == e.path && r.1.action == Action::Delete,
{
    let x = choose|x: int| 0 <= x < list.len() && list[x] == e;
    let a = copy_rule(list, side, reason);
    let b = delete_rule(list, side, reason);
    lemma_gather(list.len() as int, a);
    lemma_gather(list.len() as int, b);
    assert(a(x) is Some && b(x) is Some);
    (a(x)->0, b(x)->0)
}

/// In a sync every file that is new on one side arrives on the other.
pub proof fn what_is_new_on_one_side_arrives_on_the_other(
    source: Snapshot,
    target: Snapshot,
    archive: Option<&Snapshot>,
    newer_wins: bool,
    ci: bool,
    plan: Plan,
    e: EntryModel,
)
    requires
        plan_of(source, target, "sync"@, archive, newer_wins, ci, plan),
    ensures
        new_file(
            entry_models(source.entries@),
            entry_models(target.entries@),
            archived(archive),
            ci,
            e,
        ) ==> arrives_in(plan, Side::Target, target.header.os@, e),
        new_file(
            entry_models(target.entries@),
            entry_models(source.entries@),
            archived(archive),
            ci,
            e,
        ) ==> arrives_in(plan, Side::Source, source.header.os@, e),
{
    let m = tables(source, target, archive, newer_wins, ci);
    lemma_sorted_by_archive(m);
    lemma_sync_is_strung(m);
    let ps = sync_parts(m);
    lemma_strung(ps);
    if new_file(m.source, m.target, m.archive, ci, e) {
        let op = if m.archive is Some && m.hashed {
            let op = lemma_add_step(
                m.s_added(),
                m.t_doomed(),
                Side::Target,
                "move-on-source-replayed"@,
                "added-on-source"@,
                e,
            );
            assert(ps[3].contains(op) || ps[5].contains(op));
            op
        } else {
            let op = lemma_plain_step(m.s_added(), Side::Target, "only-in-source"@, e).0;
            assert(ps[4].contains(op));
            op
        };
        lemma_arrives(source, target, "sync"@, archive, newer_wins, ci, plan, Side::Target, e, op);
    }
    if new_file(m.target, m.source, m.archive, ci, e) {
        let op = if m.archive is Some && m.hashed {
            let op = lemma_add_step(
                m.t_added(),
                m.s_doomed(),
                Side::Source,
                "move-on-target-replayed"@,
                "added-on-target"@,
                e,
            );
            assert(ps[4].contains(op) || ps[6].contains(op));
            op
        } else {
            let op = lemma_plain_step(m.t_added(), Side::Source, "only-in-target"@, e).0;
            assert(ps[5].contains(op));
            op
        };
        lemma_arrives(source, target, "sync"@, archive, newer_wins, ci, plan, Side::Source, e, op);
    }
}

/// In a sync every file that one side deleted, and the other has as it was at the last sync, leaves there
/// too.
pub proof fn what_one_side_deleted_leaves_the_other(
    source: Snapshot,
    target: Snapshot,
    archive: Option<&Snapshot>,
    newer_wins: bool,
    ci: bool,
    plan: Plan,
    e: EntryModel,
)
    requires
        plan_of(source, target, "sync"@, archive, newer_wins, ci, plan),
    ensures
        gone_file(
            entry_models(target.entries@),
            entry_models(source.entries@),
            archived(archive),
            ci,
            e,
        ) ==> leaves_in(plan, Side::Target, target.header.os@, e),
        gone_file(
            entry_models(source.entries@),
            entry_models(target.entries@),
            archived(archive),
            ci,
            e,
        ) ==> leaves_in(plan, Side::Source, source.header.os@, e),
{
    let m = tables(source, target, archive, newer_wins, ci);
    lemma_sorted_by_archive(m);
    lemma_sync_is_strung(m);
    let ps = sync_parts(m);
    lemma_strung(ps);
    if gone_file(m.target, m.source, m.archive, ci, e) {
        let op = if m.archive is Some && m.hashed {
            let op = lemma_del_step(
                m.s_added(),
                m.t_doomed(),
                Side::Target,
                "move-on-source-replayed"@,
                "deleted-on-source"@,
                e,
            );
            assert(ps[3].contains(op) || ps[7].contains(op));
            op
        } else {
            let op = lemma_plain_step(m.t_doomed(), Side::Target, "deleted-on-source"@, e).1;
            assert(ps[6].contains(op));
            op
        };
        lemma_leaves(source, target, "sync"@, archive, newer_wins, ci, plan, Side::Target, e, op);
    }
    if gone_file(m.source, m.target, m.archive, ci, e) {
        let op = if m.archive is Some && m.hashed {
            let op = lemma_del_step(
                m.t_added(),
                m.s_doomed(),
                Side::Source,
                "move-on-target-replayed"@,
                "deleted-on-target"@,
                e,
            );
            assert(ps[4].contains(op) || ps[8].contains(op));
            op
        } else {
            let op = lemma_plain_step(m.s_doomed(), Side::Source, "deleted-on-target"@, e).1;
            assert(ps[7].contains(op));
            op
        };
        lemma_leaves(source, target, "sync"@, archive, newer_wins, ci, plan, Side::Source, e, op);
    }
}

/// In a sync a file that one side changed and the other deleted is a conflict.
pub proof fn a_deleted_file_that_changed_is_a_conflict(
    source: Snapshot,
    target: Snapshot,
    archive: Option<&Snapshot>,
    newer_wins: bool,
    ci: bool,
    plan: Plan,
    e: EntryModel,
)
    requires
        plan_of(source, target, "sync"@, archive, newer_wins, ci, plan),
        changed_but_gone(
            entry_models(source.entries@),
            entry_models(target.entries@),
            archived(archive),
            ci,
            e,
        ) || changed_but_gone(
            entry_models(target.entries@),
            entry_models(source.entries@),
            archived(archive),
            ci,
            e,
        ),
    ensures
        exists|k: int|
            0 <= k < plan.ops@.len() && (#[trigger] plan.ops@[k])@.action == Action::Conflict && plan.ops@[k]@.path
                == e.path,
{
    let m = tables(source, target, archive, newer_wins, ci);
    let f = EntryKind::File;
    lemma_table_facts(m.source, f, ci);
    lemma_table_facts(m.target, f, ci);
    lemma_archive(m);
    let un = m.unchanged(e);
    if changed_but_gone(m.source, m.target, m.archive, ci, e) {
        assert(m.t_file(e) is None);
        assert(m.a_file(e) is Some);
        lemma_s_step_planned(source, target, archive, newer_wins, ci, plan, e);
        let op = m.s_step(e)->0;
        assert(legalized(op, source.header.os@, target.header.os@) == op);
        let k = choose|k: int| 0 <= k < plan.ops@.len() && (#[trigger] plan.ops@[k])@ == op;
        assert(plan.ops@[k]@ == op);
    } else {
        assert(m.s_file(e) is None);
        assert(m.a_file(e) is Some);
        let n = m.t_rows().len() as int;
        let i = choose|i: int| 0 <= i < n && m.t_rows()[i] == e;
        let op = m.t_step(e)->0;
        lemma_gather(n, m.t_rule());
        assert(m.t_rule()(i) == Some(op));
        lemma_sync_is_strung(m);
        let ps = sync_parts(m);
        lemma_strung(ps);
        assert(ps[2].contains(op));
        lemma_planned(source, target, "sync"@, archive, newer_wins, ci, plan, op);
        assert(legalized(op, source.header.os@, target.header.os@) == op);
        let k = choose|k: int| 0 <= k < plan.ops@.len() && (#[trigger] plan.ops@[k])@ == op;
        assert(plan.ops@[k]@ == op);
    }
}

/// What justifies a step of a mirroring plan: the target is changed where it has another content, lacks
/// what the source has, or has what the source lacks. The source is never changed.
pub open spec fn due_in_mirror(
    op: OpModel,
    source: Seq<EntryModel>,
    target: Seq<EntryModel>,
    ci: bool,
) -> bool {
    let f = EntryKind::File;
    &&& op.side == Side::Source ==> op.action == Action::Note
    &&& match op.action {
        Action::Update => replaces(op, target, source, ci, |e: EntryModel, old: EntryModel| true),
        Action::Copy => copies_new(op, target, source, None, ci),
        Action::Delete => exists|d: EntryModel| #[trigger]
            has(target, f, ci, d) && lacks(source, f, ci, key_of(d.path, ci)) && op.path == d.path && op.size
                == Some(d.size),
        Action::Move => exists|e: EntryModel, d: EntryModel|
            #![trigger new_file(source, target, None, ci, e), has(target, f, ci, d)]
            new_file(source, target, None, ci, e) && has(target, f, ci, d) && lacks(
                source,
                f,
                ci,
                key_of(d.path, ci),
            ) && op.path == e.path && op.from == Some(d.path) && op.size == Some(e.size) && e.hash is Some
                && e.hash == d.hash && e.size == d.size,
        Action::DeleteDir => exists|d: EntryModel| #[trigger]
            has(target, EntryKind::Dir, ci, d) && lacks(source, EntryKind::Dir, ci, key_of(d.path, ci))
                && op.path == d.path,
        Action::Conflict => first_illegal(split(op.path, '/')) is Some,
        Action::Note => true,
        Action::Chmod => false,
    }
}

/// What justifies a step of an enriching plan: the target lacks the file, or the source has another one
/// that is later by more than two seconds. Nothing is taken away and nothing goes back in time.
pub open spec fn due_in_enrich(
    op: OpModel,
    source: Seq<EntryModel>,
    target: Seq<EntryModel>,
    ci: bool,
) -> bool {
    &&& op.side == Side::Source ==> op.action == Action::Note
    &&& match op.action {
        Action::Update => replaces(
            op,
            target,
            source,
            ci,
            |e: EntryModel, old: EntryModel| e.mtime_ms > old.mtime_ms + 2000,
        ),
        Action::Copy => copies_new(op, target, source, None, ci),
        Action::Conflict => first_illegal(split(op.path, '/')) is Some,
        Action::Note => true,
        _ => false,
    }
}

proof fn lemma_updates_due(m: Tables, mirror: bool, good: spec_fn(OpModel) -> bool)
    requires
        good == |op: OpModel|
            if mirror {
                due_in_mirror(op, m.source, m.target, m.ci)
            } else {
                due_in_enrich(op, m.source, m.target, m.ci)
            },
    ensures
        all_good(m.update_steps(mirror), good),
{
    let f = EntryKind::File;
    let ci = m.ci;
    lemma_table_facts(m.source, f, ci);
    lemma_table_facts(m.target, f, ci);
    let n = m.s_rows().len() as int;
    let any = |e: EntryModel, old: EntryModel| true;
    let later = |e: EntryModel, old: EntryModel| e.mtime_ms > old.mtime_ms + 2000;
    assert forall|i: int| 0 <= i < n implies (#[trigger] m.update_rule(mirror)(i) matches Some(op) ==> good(op)) by {
        let se = m.s_rows()[i];
        if let Some(op) = m.update_of(se, mirror) {
            let te = m.t_file(se)->0;
            assert(counterparts(m.source, m.target, ci, se, te));
            assert(carries_file(op, se));
            if mirror {
                assert(any(se, te));
                assert(replaces(op, m.target, m.source, ci, any));
            } else {
                assert(later(se, te));
                assert(replaces(op, m.target, m.source, ci, later));
            }
        }
    }
    lemma_gather_good(n, m.update_rule(mirror), good);
}

proof fn lemma_target_copies_due(m: Tables, mirror: bool, list: Seq<EntryModel>, good: spec_fn(OpModel) -> bool)
    requires
        good == |op: OpModel|
            if mirror {
                due_in_mirror(op, m.source, m.target, m.ci)
            } else {
                due_in_enrich(op, m.source, m.target, m.ci)
            },
        forall|k: int| 0 <= k < list.len() ==> new_file(m.source, m.target, None, m.ci, #[trigger] list[k]),
    ensures
        all_good(crate::compare::copy_steps(list, Side::Target, "only-in-source"@), good),
{
    let rule = copy_rule(list, Side::Target, "only-in-source"@);
    assert forall|i: int| 0 <= i < list.len() implies (#[trigger] rule(i) matches Some(op) ==> good(op)) by {
        let e = list[i];
        assert(carries_file(rule(i)->0, e));
    }
    lemma_gather_good(list.len() as int, rule, good);
}

spec fn mirror_parts(m: Tables) -> Seq<Seq<OpModel>> {
    let adds = m.s_only();
    let dels = m.t_only();
    let twins = m.twin_steps(m.source, Side::Source) + m.twin_steps(m.target, Side::Target);
    seq![
        twins,
        m.update_steps(true),
        if m.hashed {
            crate::compare::move_steps(adds, dels, Side::Target, "move-detected-by-hash"@)
        } else {
            Seq::empty()
        },
        crate::compare::copy_steps(
            if m.hashed {
                added(adds, dels)
            } else {
                adds
            },
            Side::Target,
            "only-in-source"@,
        ),
        crate::compare::delete_steps(
            if m.hashed {
                deleted(adds, dels)
            } else {
                dels
            },
            Side::Target,
            "gone-from-source"@,
        ),
        m.dir_steps(),
    ]
}

spec fn enrich_parts(m: Tables) -> Seq<Seq<OpModel>> {
    seq![
        m.twin_steps(m.source, Side::Source) + m.twin_steps(m.target, Side::Target),
        m.update_steps(false),
        crate::compare::copy_steps(m.s_only(), Side::Target, "only-in-source"@),
    ]
}

proof fn lemma_strung_six(
    a: Seq<OpModel>,
    b: Seq<OpModel>,
    c: Seq<OpModel>,
    d: Seq<OpModel>,
    e: Seq<OpModel>,
    f: Seq<OpModel>,
)
    ensures
        strung(seq![a, b, c, d, e, f]) == a + b + c + d + e + f,
        strung(seq![a, b, c]) == a + b + c,
{
    let none = Seq::<Seq<OpModel>>::empty();
    lemma_strung_push(none, a);
    lemma_strung_push(none.push(a), b);
    lemma_strung_push(none.push(a).push(b), c);
    lemma_strung_push(none.push(a).push(b).push(c), d);
    lemma_strung_push(none.push(a).push(b).push(c).push(d), e);
    lemma_strung_push(none.push(a).push(b).push(c).push(d).push(e), f);
    assert(strung(none) + a =~= a);
    assert(none.push(a).push(b).push(c) =~= seq![a, b, c]);
    assert(none.push(a).push(b).push(c).push(d).push(e).push(f) =~= seq![a, b, c, d, e, f]);
}

proof fn lemma_one_way_drafts(m: Tables)
    ensures
        m.draft("mirror"@) == strung(mirror_parts(m)),
        m.draft("enrich"@) == strung(enrich_parts(m)),
{
    lemma_modes_differ();
    let a = mirror_parts(m);
    let b = enrich_parts(m);
    lemma_strung_six(a[0], a[1], a[2], a[3], a[4], a[5]);
    lemma_strung_six(b[0], b[1], b[2], b[0], b[0], b[0]);
    assert(a =~= seq![a[0], a[1], a[2], a[3], a[4], a[5]]);
    assert(b =~= seq![b[0], b[1], b[2]]);
    assert(m.draft("mirror"@) =~= strung(a));
    assert(m.draft("enrich"@) =~= strung(b));
}

proof fn lemma_mirror_rest_due(m: Tables, good: spec_fn(OpModel) -> bool)
    requires
        good == |op: OpModel| due_in_mirror(op, m.source, m.target, m.ci),
    ensures
        all_good(mirror_parts(m)[2], good),
        all_good(mirror_parts(m)[4], good),
        all_good(mirror_parts(m)[5], good),
{
    let f = EntryKind::File;
    let ci = m.ci;
    let adds = m.s_only();
    let dels = m.t_only();
    let pairs = pairing(adds, dels);
    lemma_only(m);
    moves_pair_one_to_one(adds, dels);
    lemma_sublist(dels, left_over(pairs));
    if m.hashed {
        let rule = move_rule(adds, dels, pairs, Side::Target, "move-detected-by-hash"@);
        assert forall|i: int| 0 <= i < adds.len() implies (#[trigger] rule(i) matches Some(op) ==> good(op)) by {
            if let Some(j) = pairs[i] {
                assert(could_be_moved(dels[j], adds[i]));
                assert(new_file(m.source, m.target, None, ci, adds[i]));
                assert(has(m.target, f, ci, dels[j]));
            }
        }
        lemma_gather_good(adds.len() as int, rule, good);
    }
    let list = if m.hashed {
        deleted(adds, dels)
    } else {
        dels
    };
    let rule = delete_rule(list, Side::Target, "gone-from-source"@);
    assert forall|i: int| 0 <= i < list.len() implies (#[trigger] rule(i) matches Some(op) ==> good(op)) by {
        let d = list[i];
        assert(dels.contains(d));
        assert(has(m.target, f, ci, d));
    }
    lemma_gather_good(list.len() as int, rule, good);
    lemma_table_facts(m.source, EntryKind::Dir, ci);
    lemma_table_facts(m.target, EntryKind::Dir, ci);
    let n = m.t_dirs().len() as int;
    assert forall|i: int| 0 <= i < n implies (#[trigger] m.dir_rule()(i) matches Some(op) ==> good(op)) by {
        let d = m.t_dirs()[i];
        assert(has(m.target, EntryKind::Dir, ci, d));
    }
    lemma_gather_good(n, m.dir_rule(), good);
}

/// Every step of a mirroring plan has its reason in the two tables.
pub proof fn every_step_of_a_mirror_is_due(
    source: Snapshot,
    target: Snapshot,
    archive: Option<&Snapshot>,
    newer_wins: bool,
    ci: bool,
    plan: Plan,
    k: int,
)
    requires
        plan_of(source, target, "mirror"@, archive, newer_wins, ci, plan),
        0 <= k < plan.ops@.len(),
    ensures
        due_in_mirror(
            plan.ops@[k]@,
            entry_models(source.entries@),
            entry_models(target.entries@),
            ci,
        ),
{
    let m = tables(source, target, archive, newer_wins, ci);
    let mirror = true;
    let good = |op: OpModel|
        if mirror {
            due_in_mirror(op, m.source, m.target, m.ci)
        } else {
            due_in_enrich(op, m.source, m.target, m.ci)
        };
    let plain = |op: OpModel| due_in_mirror(op, m.source, m.target, m.ci);
    assert(good =~= plain);
    lemma_only(m);
    let adds = m.s_only();
    let dels = m.t_only();
    lemma_sublist(adds, alone(pairing(adds, dels)));
    let list = if m.hashed {
        added(adds, dels)
    } else {
        adds
    };
    assert forall|k: int| 0 <= k < list.len() implies new_file(m.source, m.target, None, m.ci, #[trigger] list[k]) by {
        assert(adds.contains(list[k]));
    }
    lemma_twins_good(m, good);
    lemma_updates_due(m, mirror, good);
    lemma_target_copies_due(m, mirror, list, good);
    lemma_mirror_rest_due(m, plain);
    lemma_one_way_drafts(m);
    let ps = mirror_parts(m);
    assert forall|p: int| 0 <= p < ps.len() implies all_good(#[trigger] ps[p], good) by {}
    lemma_strung_good(ps, good);
    lemma_plan_good(source, target, "mirror"@, archive, newer_wins, ci, plan, good);
    assert(good(op_models(plan.ops@)[k]));
}

/// Every step of an enriching plan has its reason: the target gains what it lacks, and what the source has
/// later by more than two seconds. It never goes back in time, and nothing is taken away.
pub proof fn every_step_of_an_enrichment_is_due(
    source: Snapshot,
    target: Snapshot,
    archive: Option<&Snapshot>,
    newer_wins: bool,
    ci: bool,
    plan: Plan,
    k: int,
)
    requires
        plan_of(source, target, "enrich"@, archive, newer_wins, ci, plan),
        0 <= k < plan.ops@.len(),
    ensures
        due_in_enrich(
            plan.ops@[k]@,
            entry_models(source.entries@),
            entry_models(target.entries@),
            ci,
        ),
{
    let m = tables(source, target, archive, newer_wins, ci);
    let mirror = false;
    let good = |op: OpModel|
        if mirror {
            due_in_mirror(op, m.source, m.target, m.ci)
        } else {
            due_in_enrich(op, m.source, m.target, m.ci)
        };
    lemma_only(m);
    lemma_twins_good(m, good);
    lemma_updates_due(m, mirror, good);
    lemma_target_copies_due(m, mirror, m.s_only(), good);
    lemma_one_way_drafts(m);
    let ps = enrich_parts(m);
    assert forall|p: int| 0 <= p < ps.len() implies all_good(#[trigger] ps[p], good) by {}
    lemma_strung_good(ps, good);
    lemma_plan_good(source, target, "enrich"@, archive, newer_wins, ci, plan, good);
    assert(good(op_models(plan.ops@)[k]));
}

proof fn lemma_update_planned(
    source: Snapshot,
    target: Snapshot,
    mirror: bool,
    archive: Option<&Snapshot>,
    newer_wins: bool,
    ci: bool,
    plan: Plan,
    se: EntryModel,
    te: EntryModel,
)
    requires
        plan_of(
            source,
            target,
            if mirror {
                "mirror"@
            } else {
                "enrich"@
            },
            archive,
            newer_wins,
            ci,
            plan,
        ),
        counterparts(entry_models(source.entries@), entry_models(target.entries@), ci, se, te),
        !files_alike(se, te),
        mirror || se.mtime_ms > te.mtime_ms + 2000,
    ensures
        exists|k: int|
            0 <= k < plan.ops@.len() && (#[trigger] plan.ops@[k])@.action == Action::Update && plan.ops@[k]@.side
                == Side::Target && plan.ops@[k]@.path == te.path && carries_file(plan.ops@[k]@, se),
{
    let m = tables(source, target, archive, newer_wins, ci);
    let f = EntryKind::File;
    lemma_table_facts(m.source, f, ci);
    lemma_table_facts(m.target, f, ci);
    assert(m.t_file(se) == Some(te));
    let n = m.s_rows().len() as int;
    let i = choose|i: int| 0 <= i < n && m.s_rows()[i] == se;
    let op = m.update_of(se, mirror)->0;
    lemma_gather(n, m.update_rule(mirror));
    assert(m.update_rule(mirror)(i) == Some(op));
    lemma_one_way_drafts(m);
    if mirror {
        lemma_strung(mirror_parts(m));
        assert(mirror_parts(m)[1].contains(op));
        lemma_planned(source, target, "mirror"@, archive, newer_wins, ci, plan, op);
    } else {
        lemma_strung(enrich_parts(m));
        assert(enrich_parts(m)[1].contains(op));
        lemma_planned(source, target, "enrich"@, archive, newer_wins, ci, plan, op);
    }
    assert(legalized(op, source.header.os@, target.header.os@) == op);
    let k = choose|k: int| 0 <= k < plan.ops@.len() && (#[trigger] plan.ops@[k])@ == op;
    assert(plan.ops@[k]@ == op);
}

/// An enriching plan brings over every source file that the target lacks, and every one that differs from
/// the target's and is later by more than two seconds.
pub proof fn enriching_brings_what_is_missing_or_newer(
    source: Snapshot,
    target: Snapshot,
    archive: Option<&Snapshot>,
    newer_wins: bool,
    ci: bool,
    plan: Plan,
    se: EntryModel,
)
    requires
        plan_of(source, target, "enrich"@, archive, newer_wins, ci, plan),
        has(entry_models(source.entries@), EntryKind::File, ci, se),
    ensures
        lacks(entry_models(target.entries@), EntryKind::File, ci, key_of(se.path, ci)) ==> arrives_in(
            plan,
            Side::Target,
            target.header.os@,
            se,
        ),
        forall|te: EntryModel| #[trigger]
            counterparts(entry_models(source.entries@), entry_models(target.entries@), ci, se, te)
                && !files_alike(se, te) && se.mtime_ms > te.mtime_ms + 2000 ==> exists|k: int|
                0 <= k < plan.ops@.len() && (#[trigger] plan.ops@[k])@.action == Action::Update
                    && plan.ops@[k]@.side == Side::Target && plan.ops@[k]@.path == te.path && carries_file(
                    plan.ops@[k]@,
                    se,
                ),
{
    let m = tables(source, target, archive, newer_wins, ci);
    if lacks(m.target, EntryKind::File, ci, key_of(se.path, ci)) {
        lemma_only(m);
        let op = lemma_plain_step(m.s_only(), Side::Target, "only-in-source"@, se).0;
        lemma_one_way_drafts(m);
        lemma_strung(enrich_parts(m));
        assert(enrich_parts(m)[2].contains(op));
        lemma_arrives(source, target, "enrich"@, archive, newer_wins, ci, plan, Side::Target, se, op);
    }
    assert forall|te: EntryModel| #[trigger]
        counterparts(m.source, m.target, ci, se, te) && !files_alike(se, te) && se.mtime_ms > te.mtime_ms
            + 2000 implies exists|k: int|
        0 <= k < plan.ops@.len() && (#[trigger] plan.ops@[k])@.action == Action::Update && plan.ops@[k]@.side
            == Side::Target && plan.ops@[k]@.path == te.path && carries_file(plan.ops@[k]@, se) by {
        lemma_update_planned(source, target, false, archive, newer_wins, ci, plan, se, te);
    }
}

/// A mirroring plan brings the target level: what differs is replaced, what is missing arrives, what the
/// source lacks leaves, and so do directories.
pub proof fn mirroring_levels_the_target(
    source: Snapshot,
    target: Snapshot,
    archive: Option<&Snapshot>,
    newer_wins: bool,
    ci: bool,
    plan: Plan,
    e: EntryModel,
)
    requires
        plan_of(source, target, "mirror"@, archive, newer_wins, ci, plan),
    ensures
        has(entry_models(source.entries@), EntryKind::File, ci, e) && lacks(
            entry_models(target.entries@),
            EntryKind::File,
            ci,
            key_of(e.path, ci),
        ) ==> arrives_in(plan, Side::Target, target.header.os@, e),
        has(entry_models(target.entries@), EntryKind::File, ci, e) && lacks(
            entry_models(source.entries@),
            EntryKind::File,
            ci,
            key_of(e.path, ci),
        ) ==> leaves_in(plan, Side::Target, target.header.os@, e),
        has(entry_models(target.entries@), EntryKind::Dir, ci, e) && lacks(
            entry_models(source.entries@),
            EntryKind::Dir,
            ci,
            key_of(e.path, ci),
        ) ==> exists|k: int|
            0 <= k < plan.ops@.len() && (#[trigger] plan.ops@[k])@.action == Action::DeleteDir
                && plan.ops@[k]@.side == Side::Target && plan.ops@[k]@.path == e.path,
        forall|te: EntryModel| #[trigger]
            counterparts(entry_models(source.entries@), entry_models(target.entries@), ci, e, te)
                && !files_alike(e, te) ==> exists|k: int|
                0 <= k < plan.ops@.len() && (#[trigger] plan.ops@[k])@.action == Action::Update
                    && plan.ops@[k]@.side == Side::Target && plan.ops@[k]@.path == te.path && carries_file(
                    plan.ops@[k]@,
                    e,
                ),
{
    let m = tables(source, target, archive, newer_wins, ci);
    let f = EntryKind::File;
    let adds = m.s_only();
    let dels = m.t_only();
    lemma_only(m);
    lemma_one_way_drafts(m);
    let ps = mirror_parts(m);
    lemma_strung(ps);
    if has(m.source, f, ci, e) && lacks(m.target, f, ci, key_of(e.path, ci)) {
        let op = if m.hashed {
            let op = lemma_add_step(
                adds,
                dels,
                Side::Target,
                "move-detected-by-hash"@,
                "only-in-source"@,
                e,
            );
            assert(ps[2].contains(op) || ps[3].contains(op));
            op
        } else {
            let op = lemma_plain_step(adds, Side::Target, "only-in-source"@, e).0;
            assert(ps[3].contains(op));
            op
        };
        lemma_arrives(source, target, "mirror"@, archive, newer_wins, ci, plan, Side::Target, e, op);
    }
    if has(m.target, f, ci, e) && lacks(m.source, f, ci, key_of(e.path, ci)) {
        let op = if m.hashed {
            let op = lemma_del_step(
                adds,
                dels,
                Side::Target,
                "move-detected-by-hash"@,
                "gone-from-source"@,
                e,
            );
            assert(ps[2].contains(op) || ps[4].contains(op));
            op
        } else {
            let op = lemma_plain_step(dels, Side::Target, "gone-from-source"@, e).1;
            assert(ps[4].contains(op));
            op
        };
        lemma_leaves(source, target, "mirror"@, archive, newer_wins, ci, plan, Side::Target, e, op);
    }
    if has(m.target, EntryKind::Dir, ci, e) && lacks(m.source, EntryKind::Dir, ci, key_of(e.path, ci)) {
        lemma_table_facts(m.source, EntryKind::Dir, ci);
        lemma_table_facts(m.target, EntryKind::Dir, ci);
        let n = m.t_dirs().len() as int;
        let i = choose|i: int| 0 <= i < n && m.t_dirs()[i] == e;
        lemma_gather(n, m.dir_rule());
        assert(m.dir_rule()(i) is Some);
        let op = m.dir_rule()(i)->0;
        assert(ps[5].contains(op));
        lemma_planned(source, target, "mirror"@, archive, newer_wins, ci, plan, op);
        assert(legalized(op, source.header.os@, target.header.os@) == op);
        let k = choose|k: int| 0 <= k < plan.ops@.len() && (#[trigger] plan.ops@[k])@ == op;
        assert(plan.ops@[k]@ == op);
    }
    assert forall|te: EntryModel| #[trigger]
        counterparts(m.source, m.target, ci, e, te) && !files_alike(e, te) implies exists|k: int|
        0 <= k < plan.ops@.len() && (#[trigger] plan.ops@[k])@.action == Action::Update && plan.ops@[k]@.side
            == Side::Target && plan.ops@[k]@.path == te.path && carries_file(plan.ops@[k]@, e) by {
        lemma_update_planned(source, target, true, archive, newer_wins, ci, plan, e, te);
    }
}

/// No two updates of one side have the same path.
spec fn updates_apart(ops: Seq<OpModel>) -> bool {
    forall|a: int, b: int|
        0 <= a < b < ops.len() && (#[trigger] ops[a]).action == Action::Update && (#[trigger] ops[b]).action
            == Action::Update && ops[a].side == ops[b].side ==> ops[a].path != ops[b].path
}

proof fn lemma_gather_apart(n: int, rule: spec_fn(int) -> Option<OpModel>)
    requires
        forall|i: int, j: int|
            0 <= i < j < n && (#[trigger] rule(i)) is Some && (#[trigger] rule(j)) is Some && rule(i)->0.action
                == Action::Update && rule(j)->0.action == Action::Update && rule(i)->0.side == rule(j)->0.side
                ==> rule(i)->0.path != rule(j)->0.path,
    ensures
        updates_apart(gather(n, rule)),
    decreases n,
{
    if n > 0 {
        lemma_gather_apart(n - 1, rule);
        lemma_gather(n - 1, rule);
        let before = gather(n - 1, rule);
        let now = gather(n, rule);
        assert forall|a: int, b: int|
            0 <= a < b < now.len() && (#[trigger] now[a]).action == Action::Update && (#[trigger] now[b]).action
                == Action::Update && now[a].side == now[b].side implies now[a].path != now[b].path by {
            assert(now[a] == before[a]);
            if b < before.len() {
                assert(now[b] == before[b]);
            } else {
                let i = choose|i: int| 0 <= i < n - 1 && #[trigger] rule(i) == Some(before[a]);
                assert(rule(n - 1) == Some(now[b]));
            }
        }
    }
}

proof fn lemma_apart_strung(parts: Seq<Seq<OpModel>>, at: int)
    requires
        0 <= at < parts.len(),
        updates_apart(parts[at]),
        forall|p: int| 0 <= p < parts.len() && p != at ==> all_good(#[trigger] parts[p], not_an_update()),
    ensures
        updates_apart(strung(parts)),
    decreases parts.len(),
{
    let less = parts.drop_last();
    let last = parts.last();
    let head = strung(less);
    let now = strung(parts);
    let quiet = not_an_update();
    if at == parts.len() - 1 {
        assert forall|p: int| 0 <= p < less.len() implies all_good(#[trigger] less[p], quiet) by {
            assert(less[p] == parts[p]);
        }
        lemma_strung_good(less, quiet);
        assert forall|a: int, b: int|
            0 <= a < b < now.len() && (#[trigger] now[a]).action == Action::Update && (#[trigger] now[b]).action
                == Action::Update && now[a].side == now[b].side implies now[a].path != now[b].path by {
            if a < head.len() {
                assert(now[a] == head[a]);
                assert(quiet(head[a]));
            } else {
                assert(now[a] == last[a - head.len()]);
                assert(now[b] == last[b - head.len()]);
            }
        }
    } else {
        assert(less[at] == parts[at]);
        assert forall|p: int| 0 <= p < less.len() && p != at implies all_good(#[trigger] less[p], quiet) by {
            assert(less[p] == parts[p]);
        }
        lemma_apart_strung(less, at);
        assert(all_good(parts[parts.len() - 1], quiet));
        assert forall|a: int, b: int|
            0 <= a < b < now.len() && (#[trigger] now[a]).action == Action::Update && (#[trigger] now[b]).action
                == Action::Update && now[a].side == now[b].side implies now[a].path != now[b].path by {
            if b >= head.len() {
                assert(now[b] == last[b - head.len()]);
                assert(quiet(last[b - head.len()]));
            } else {
                assert(now[a] == head[a] && now[b] == head[b]);
            }
        }
    }
}

spec fn not_an_update() -> spec_fn(OpModel) -> bool {
    |op: OpModel| op.action != Action::Update
}

proof fn lemma_rows_have_own_keys(es: Seq<EntryModel>, ci: bool, x: int, y: int)
    requires
        0 <= x < y < rows_of(es, EntryKind::File, ci).len(),
    ensures
        key_of(rows_of(es, EntryKind::File, ci)[x].path, ci) != key_of(
            rows_of(es, EntryKind::File, ci)[y].path,
            ci,
        ),
{
    a_table_exists(es, EntryKind::File, ci);
    let t = table_of(es, EntryKind::File, ci);
    assert(text_lt(entry_key(es[t[x]], ci), entry_key(es[t[y]], ci)));
    crate::order::lemma_text_irreflexive(entry_key(es[t[x]], ci));
}

proof fn lemma_quiet_parts(m: Tables)
    ensures
        all_good(
            m.twin_steps(m.source, Side::Source) + m.twin_steps(m.target, Side::Target),
            not_an_update(),
        ),
        all_good(gather(m.t_rows().len() as int, m.t_rule()), not_an_update()),
        all_good(m.hint_steps(), not_an_update()),
        all_good(m.dir_steps(), not_an_update()),
        forall|list: Seq<EntryModel>, side: Side, reason: Seq<char>|
            all_good(#[trigger] crate::compare::copy_steps(list, side, reason), not_an_update()),
        forall|list: Seq<EntryModel>, side: Side, reason: Seq<char>|
            all_good(#[trigger] crate::compare::delete_steps(list, side, reason), not_an_update()),
        forall|adds: Seq<EntryModel>, dels: Seq<EntryModel>, side: Side, reason: Seq<char>|
            all_good(#[trigger] crate::compare::move_steps(adds, dels, side, reason), not_an_update()),
{
    let quiet = not_an_update();
    lemma_twins_good(m, quiet);
    lemma_gather_good(m.t_rows().len() as int, m.t_rule(), quiet);
    lemma_gather_good(m.s_added().len() as int, m.hint_rule(), quiet);
    lemma_gather_good(m.t_dirs().len() as int, m.dir_rule(), quiet);
    assert forall|list: Seq<EntryModel>, side: Side, reason: Seq<char>|
        all_good(#[trigger] crate::compare::copy_steps(list, side, reason), quiet) by {
        lemma_gather_good(list.len() as int, copy_rule(list, side, reason), quiet);
    }
    assert forall|list: Seq<EntryModel>, side: Side, reason: Seq<char>|
        all_good(#[trigger] crate::compare::delete_steps(list, side, reason), quiet) by {
        lemma_gather_good(list.len() as int, delete_rule(list, side, reason), quiet);
    }
    assert forall|adds: Seq<EntryModel>, dels: Seq<EntryModel>, side: Side, reason: Seq<char>|
        all_good(#[trigger] crate::compare::move_steps(adds, dels, side, reason), quiet) by {
        lemma_gather_good(
            adds.len() as int,
            move_rule(adds, dels, pairing(adds, dels), side, reason),
            quiet,
        );
    }
}

proof fn lemma_draft_apart(m: Tables, mode: Seq<char>)
    requires
        crate::compare::known_mode(mode),
    ensures
        updates_apart(m.draft(mode)),
{
    lemma_modes_differ();
    let f = EntryKind::File;
    let ci = m.ci;
    let n = m.s_rows().len() as int;
    lemma_quiet_parts(m);
    if mode == "sync"@ {
        let rule = m.s_rule();
        assert forall|i: int, j: int|
            0 <= i < j < n && (#[trigger] rule(i)) is Some && (#[trigger] rule(j)) is Some && rule(i)->0.action
                == Action::Update && rule(j)->0.action == Action::Update && rule(i)->0.side == rule(j)->0.side implies rule(
            i,
        )->0.path != rule(j)->0.path by {
            lemma_table_facts(m.target, f, ci);
            lemma_rows_have_own_keys(m.source, ci, i, j);
        }
        lemma_gather_apart(n, rule);
        lemma_sync_is_strung(m);
        let ps = sync_parts(m);
        assert forall|p: int| 0 <= p < ps.len() && p != 1 implies all_good(#[trigger] ps[p], not_an_update()) by {}
        lemma_apart_strung(ps, 1);
    } else {
        let mirror = mode == "mirror"@;
        let rule = m.update_rule(mirror);
        assert forall|i: int, j: int|
            0 <= i < j < n && (#[trigger] rule(i)) is Some && (#[trigger] rule(j)) is Some && rule(i)->0.action
                == Action::Update && rule(j)->0.action == Action::Update && rule(i)->0.side == rule(j)->0.side implies rule(
            i,
        )->0.path != rule(j)->0.path by {
            lemma_table_facts(m.target, f, ci);
            lemma_rows_have_own_keys(m.source, ci, i, j);
        }
        lemma_gather_apart(n, rule);
        lemma_one_way_drafts(m);
        let ps = if mirror {
            mirror_parts(m)
        } else {
            enrich_parts(m)
        };
        assert forall|p: int| 0 <= p < ps.len() && p != 1 implies all_good(#[trigger] ps[p], not_an_update()) by {}
        lemma_apart_strung(ps, 1);
    }
}

proof fn lemma_two_origins(ops: Seq<OpModel>, out: Seq<OpModel>, a: int, b: int) -> (r: (int, int))
    requires
        arranged(ops, out),
        0 <= a < out.len(),
        0 <= b < out.len(),
        a != b,
    ensures
        0 <= r.0 < ops.len(),
        0 <= r.1 < ops.len(),
        r.0 != r.1,
        ops[r.0] == out[a],
        ops[r.1] == out[b],
{
    let p = choose|p: Seq<usize>| #[trigger]
        stable_order(op_keys(ops), p) && out == Seq::new(p.len(), |i: int| ops[p[i] as int]);
    let x = p[a] as int;
    let y = p[b] as int;
    if a < b {
        assert(sorts_before(op_keys(ops), p[a] as int, p[b] as int));
    } else {
        assert(sorts_before(op_keys(ops), p[b] as int, p[a] as int));
    }
    crate::order::lemma_lex_irreflexive(op_keys(ops)[x]);
    (x, y)
}

/// No plan updates a file twice: two updates on one side are of two paths.
pub proof fn no_file_is_updated_twice(
    source: Snapshot,
    target: Snapshot,
    mode: Seq<char>,
    archive: Option<&Snapshot>,
    newer_wins: bool,
    ci: bool,
    plan: Plan,
    a: int,
    b: int,
)
    requires
        crate::compare::known_mode(mode),
        plan_of(source, target, mode, archive, newer_wins, ci, plan),
        0 <= a < plan.ops@.len(),
        0 <= b < plan.ops@.len(),
        a != b,
        plan.ops@[a].action == Action::Update,
        plan.ops@[b].action == Action::Update,
        plan.ops@[a].side == plan.ops@[b].side,
    ensures
        plan.ops@[a].path@ != plan.ops@[b].path@,
{
    let m = tables(source, target, archive, newer_wins, ci);
    let draft = m.draft(mode);
    let legal = all_legalized(draft, source.header.os@, target.header.os@);
    let out = op_models(plan.ops@);
    lemma_draft_apart(m, mode);
    let (x, y) = lemma_two_origins(legal, out, a, b);
    assert(out[a] == plan.ops@[a]@ && out[b] == plan.ops@[b]@);
    assert(legal[x] == legalized(draft[x], source.header.os@, target.header.os@));
    assert(legal[y] == legalized(draft[y], source.header.os@, target.header.os@));
    if x < y {
        assert(draft[x].path != draft[y].path);
    } else {
        assert(draft[y].path != draft[x].path);
    }
}

/// An addition takes a deletion of its own name where one is free, and goes without only where every
/// candidate was taken before.
pub proof fn a_move_prefers_its_own_name(adds: Seq<EntryModel>, dels: Seq<EntryModel>, i: int, j: int)
    requires
        0 <= i < adds.len(),
        0 <= j < dels.len(),
        could_be_moved(dels[j], adds[i]),
        forall|h: int| 0 <= h < i ==> #[trigger] pairing(adds, dels)[h] != Some(j),
    ensures
        pairing(adds, dels)[i] is Some,
        file_name_of(dels[j].path) == file_name_of(adds[i].path) ==> (pairing(adds, dels)[i] matches Some(n)
            && file_name_of(dels[n].path) == file_name_of(adds[i].path)),
    decreases adds.len(),
{
    moves_pair_one_to_one(adds, dels);
    let less = adds.drop_last();
    moves_pair_one_to_one(less, dels);
    let before = pairing(less, dels);
    if i < adds.len() - 1 {
        assert forall|h: int| 0 <= h < i implies #[trigger] pairing(less, dels)[h] != Some(j) by {
            assert(pairing(adds, dels)[h] == before[h]);
        }
        assert(less[i] == adds[i]);
        a_move_prefers_its_own_name(less, dels, i, j);
        assert(pairing(adds, dels)[i] == before[i]);
    } else {
        let a = adds.last();
        let n = dels.len() as int;
        assert forall|h: int| 0 <= h < before.len() implies #[trigger] before[h] != Some(j) by {
            assert(pairing(adds, dels)[h] == before[h]);
        }
        assert(unpaired(before, j));
        let near = namesake_test(a, dels, before);
        let free = free_test(a, dels, before);
        lemma_first_where(0, n, near);
        lemma_first_where(0, n, free);
        assert(free(j));
        assert(pairing(adds, dels)[i] == partner(a, dels, before));
        if file_name_of(dels[j].path) == file_name_of(a.path) {
            assert(near(j));
        }
    }
}

/// A path can be had on Windows exactly where every segment of it can: none ends in a dot or a space, is
/// named like a device, or holds a character that Windows keeps for itself.
pub proof fn what_windows_refuses(path: Seq<char>)
    ensures
        first_illegal(split(path, '/')) is Some <==> exists|i: int|
            0 <= i < split(path, '/').len() && refused_by_windows(#[trigger] split(path, '/')[i]),
{
    lemma_first_illegal(split(path, '/'));
}

/// Windows cannot hold a segment of that name.
pub open spec fn refused_by_windows(s: Seq<char>) -> bool {
    &&& s.len() > 0
    &&& {
        ||| s.last() == '.'
        ||| s.last() == ' '
        ||| device_name(device_base(s), '1')
        ||| exists|i: int|
            0 <= i < s.len() && (#[trigger] s[i] == '<' || s[i] == '>' || s[i] == ':' || s[i] == '"' || s[i] == '|'
                || s[i] == '?' || s[i] == '*' || s[i] == '\\' || (s[i] as u32) < 32)
    }
}

proof fn lemma_first_bad(s: Seq<char>)
    ensures
        crate::compare::first_bad(s) is Some <==> exists|i: int|
            0 <= i < s.len() && (#[trigger] s[i] == '<' || s[i] == '>' || s[i] == ':' || s[i] == '"' || s[i] == '|'
                || s[i] == '?' || s[i] == '*' || s[i] == '\\' || (s[i] as u32) < 32),
    decreases s.len(),
{
    if s.len() > 0 {
        let t = s.skip(1);
        lemma_first_bad(t);
        if exists|i: int|
            0 <= i < t.len() && (#[trigger] t[i] == '<' || t[i] == '>' || t[i] == ':' || t[i] == '"' || t[i] == '|'
                || t[i] == '?' || t[i] == '*' || t[i] == '\\' || (t[i] as u32) < 32) {
            let i = choose|i: int|
                0 <= i < t.len() && (#[trigger] t[i] == '<' || t[i] == '>' || t[i] == ':' || t[i] == '"' || t[i]
                    == '|' || t[i] == '?' || t[i] == '*' || t[i] == '\\' || (t[i] as u32) < 32);
            assert(s[i + 1] == t[i]);
        }
        if exists|i: int|
            0 <= i < s.len() && (#[trigger] s[i] == '<' || s[i] == '>' || s[i] == ':' || s[i] == '"' || s[i] == '|'
                || s[i] == '?' || s[i] == '*' || s[i] == '\\' || (s[i] as u32) < 32) {
            let i = choose|i: int|
                0 <= i < s.len() && (#[trigger] s[i] == '<' || s[i] == '>' || s[i] == ':' || s[i] == '"' || s[i]
                    == '|' || s[i] == '?' || s[i] == '*' || s[i] == '\\' || (s[i] as u32) < 32);
            if i > 0 {
                assert(t[i - 1] == s[i]);
            }
        }
    }
}

proof fn lemma_first_illegal(segments: Seq<Seq<char>>)
    ensures
        first_illegal(segments) is Some <==> exists|i: int|
            0 <= i < segments.len() && refused_by_windows(#[trigger] segments[i]),
    decreases segments.len(),
{
    if segments.len() > 0 {
        let rest = segments.skip(1);
        lemma_first_illegal(rest);
        lemma_first_bad(segments[0]);
        if exists|i: int| 0 <= i < rest.len() && refused_by_windows(#[trigger] rest[i]) {
            let i = choose|i: int| 0 <= i < rest.len() && refused_by_windows(#[trigger] rest[i]);
            assert(segments[i + 1] == rest[i]);
        }
        if exists|i: int| 0 <= i < segments.len() && refused_by_windows(#[trigger] segments[i]) {
            let i = choose|i: int| 0 <= i < segments.len() && refused_by_windows(#[trigger] segments[i]);
            if i > 0 {
                assert(rest[i - 1] == segments[i]);
            }
        }
    }
}

/// A plan counts its conflicts: none exactly where no step is one, and never more than there are steps.
pub proof fn conflicts_are_counted(ops: Seq<OpModel>, n: int)
    requires
        0 <= n <= ops.len(),
    ensures
        crate::compare::conflicts(ops, n) <= n,
        crate::compare::conflicts(ops, n) == 0 <==> forall|i: int|
            0 <= i < n ==> (#[trigger] ops[i]).action != Action::Conflict,
        crate::compare::conflicts(ops, n) == n <==> forall|i: int|
            0 <= i < n ==> (#[trigger] ops[i]).action == Action::Conflict,
    decreases n,
{
    if n > 0 {
        conflicts_are_counted(ops, n - 1);
        assert(ops[n - 1].action == Action::Conflict || ops[n - 1].action != Action::Conflict);
    }
}

/// Moves run before anything is written, writing before deletions, deletions before directories, and what
/// is only said comes last.
pub proof fn what_runs_before_what()
    ensures
        rank(Action::Move) < rank(Action::Copy),
        rank(Action::Copy) == rank(Action::Update),
        rank(Action::Update) < rank(Action::Delete),
        rank(Action::Delete) < rank(Action::DeleteDir),
        rank(Action::DeleteDir) < rank(Action::Conflict),
        rank(Action::Conflict) == rank(Action::Note),
{
}

/// An entry whose key an earlier one has is told of on its side, and stands for nothing.
pub proof fn twins_are_told(
    source: Snapshot,
    target: Snapshot,
    mode: Seq<char>,
    archive: Option<&Snapshot>,
    newer_wins: bool,
    ci: bool,
    plan: Plan,
    side: Side,
    i: int,
)
    requires
        crate::compare::known_mode(mode),
        plan_of(source, target, mode, archive, newer_wins, ci, plan),
        ({
            let es = entry_models(
                if side == Side::Source {
                    source.entries@
                } else {
                    target.entries@
                },
            );
            0 <= i < es.len() && es[i].kind == EntryKind::File && !stands(es, EntryKind::File, ci, i)
        }),
    ensures
        exists|k: int|
            0 <= k < plan.ops@.len() && (#[trigger] plan.ops@[k])@.action == Action::Note && plan.ops@[k]@.side
                == side && plan.ops@[k]@.path == (if side == Side::Source {
                source.entries@
            } else {
                target.entries@
            })[i]@.path,
{
    let m = tables(source, target, archive, newer_wins, ci);
    let es = if side == Side::Source {
        m.source
    } else {
        m.target
    };
    let f = EntryKind::File;
    let dups = crate::compare::dups_of(es, f, ci);
    assert(!is_first(es, f, ci, i)) by {
        assert(forall|j: int| 0 <= j < es.len() ==> entry_key(#[trigger] es[j], ci) == key_of(es[j].path, ci));
    }
    lemma_dups_found(es, f, ci, es.len() as int, i);
    let x = choose|x: int| 0 <= x < dups.len() && dups[x] == i;
    let rule = m.twin_rule(es, side);
    lemma_gather(dups.len() as int, rule);
    assert(rule(x) is Some);
    let op = rule(x)->0;
    let a = m.twin_steps(m.source, Side::Source);
    let b = m.twin_steps(m.target, Side::Target);
    if side == Side::Source {
        lemma_in_left(a, b, op);
    } else {
        lemma_in_right(a, b, op);
    }
    lemma_in_left(
        a + b,
        if mode == "mirror"@ {
            m.mirror_steps()
        } else if mode == "enrich"@ {
            m.enrich_steps()
        } else {
            m.sync_steps()
        },
        op,
    );
    lemma_planned(source, target, mode, archive, newer_wins, ci, plan, op);
    assert(legalized(op, source.header.os@, target.header.os@) == op);
    let k = choose|k: int| 0 <= k < plan.ops@.len() && (#[trigger] plan.ops@[k])@ == op;
    assert(plan.ops@[k]@ == op);
}

proof fn lemma_dups_found(es: Seq<EntryModel>, kind: EntryKind, ci: bool, n: int, i: int)
    requires
        0 <= i < n <= es.len(),
        crate::compare::is_dup(es, kind, ci, i),
    ensures
        crate::compare::dups_upto(es, kind, ci, n).contains(i),
    decreases n,
{
    let before = crate::compare::dups_upto(es, kind, ci, n - 1);
    let now = crate::compare::dups_upto(es, kind, ci, n);
    if i < n - 1 {
        lemma_dups_found(es, kind, ci, n - 1, i);
        let x = choose|x: int| 0 <= x < before.len() && before[x] == i;
        assert(now[x] == i);
    } else {
        assert(now[before.len() as int] == i);
    }
}

/// Where there is no table of the last sync, a file that was added on the source is told of as a possible
/// move exactly where a file that was added on the target has its hash, and the last such one is named.
/// Files without a hash are never told of.
pub proof fn a_possible_move_shares_its_hash(t: Tables, i: int)
    requires
        0 <= i < t.s_added().len(),
    ensures
        ({
            let hash = t.s_added()[i].hash;
            &&& (t.hint_rule())(i) is Some <==> hash is Some && exists|j: int|
                0 <= j < t.t_added().len() && (#[trigger] t.t_added()[j]).hash == hash
            &&& (t.hint_rule())(i) matches Some(op) ==> op.action == Action::Note && op.path
                == t.s_added()[i].path && exists|j: int|
                0 <= j < t.t_added().len() && (#[trigger] t.t_added()[j]).hash == hash && op.from == Some(
                    t.t_added()[j].path,
                ) && forall|k: int| j < k < t.t_added().len() ==> (#[trigger] t.t_added()[k]).hash != hash
        }),
{
    lemma_last_with_hash(t.t_added(), t.t_added().len() as int, t.s_added()[i].hash);
}

proof fn lemma_last_with_hash(es: Seq<EntryModel>, n: int, hash: Option<Seq<char>>)
    requires
        0 <= n <= es.len(),
    ensures
        last_with_hash(es, n, hash) is Some <==> hash is Some && exists|j: int|
            0 <= j < n && (#[trigger] es[j]).hash == hash,
        last_with_hash(es, n, hash) matches Some(j) ==> 0 <= j < n && es[j].hash == hash && forall|k: int|
            j < k < n ==> (#[trigger] es[k]).hash != hash,
    decreases n,
{
    if n > 0 && hash is Some {
        lemma_last_with_hash(es, n - 1, hash);
        assert(es[n - 1] == es[n - 1]);
    }
}

} // verus!
