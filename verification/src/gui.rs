//! What the window shows and which of its buttons do something.
use vstd::prelude::*;
use crate::compare::{Action, Op, Plan, Side};
use crate::foundation::fmt::{
    as_53_bits, grain, half_even, round_half_even, rounding_goes_to_the_nearest, to_53_bits,
};
use crate::strings::{decimal, decimal_padded, numeral, padded};

verus! {

#[derive(Clone, Copy, Debug, PartialEq, Eq, Structural)]
pub enum Phase {
    Idle,
    Comparing,
    Ready,
    Applying,
}

/// Steps that only tell something cannot be chosen.
pub open spec fn choosable(action: Action) -> bool {
    action != Action::Conflict && action != Action::Note
}

/// Whether a step is chosen to begin with.
pub fn default_checked(op: &Op) -> (r: bool)
    ensures
        r == choosable(op.action),
{
    op.action != Action::Conflict && op.action != Action::Note
}

/// A word and a colour for a step.
pub open spec fn badge(action: Action, side: Side) -> (Seq<char>, (u8, u8, u8)) {
    match action {
        Action::Copy => (
            if side == Side::Target {
                "-> copy"@
            } else {
                "<- copy"@
            },
            (0x35, 0xb0, 0x4a),
        ),
        Action::Update => (
            if side == Side::Target {
                "-> update"@
            } else {
                "<- update"@
            },
            (0xd9, 0x9a, 0x22),
        ),
        Action::Move => ("mv"@, (0x3a, 0x8f, 0xd9)),
        Action::Delete | Action::DeleteDir => ("DEL"@, (0xd9, 0x3a, 0x3a)),
        Action::Conflict => ("CONFLICT"@, (0xaa, 0x66, 0xcc)),
        _ => ("note"@, (0xa0, 0xa0, 0xa0)),
    }
}

pub fn action_badge(op: &Op) -> (r: (&'static str, (u8, u8, u8)))
    requires
        op.action != Action::Chmod,
    ensures
        (r.0@, r.1) == badge(op.action, op.side),
{
    let to_target = op.side == Side::Target;
    match op.action {
        Action::Copy => (
            if to_target {
                "-> copy"
            } else {
                "<- copy"
            },
            (0x35, 0xb0, 0x4a),
        ),
        Action::Update => (
            if to_target {
                "-> update"
            } else {
                "<- update"
            },
            (0xd9, 0x9a, 0x22),
        ),
        Action::Move => ("mv", (0x3a, 0x8f, 0xd9)),
        Action::Delete => ("DEL", (0xd9, 0x3a, 0x3a)),
        Action::DeleteDir => ("DEL", (0xd9, 0x3a, 0x3a)),
        Action::Conflict => ("CONFLICT", (0xaa, 0x66, 0xcc)),
        _ => ("note", (0xa0, 0xa0, 0xa0)),
    }
}

/// A byte count for a column: two decimals from one gibibyte on, one below, none under one kibibyte.
pub open spec fn size_text(b: nat) -> Seq<char> {
    if b >= 0x4000_0000 {
        let parts = half_even(to_53_bits(b) * 100, 0x4000_0000);
        numeral(parts / 100) + "."@ + padded(parts % 100, 2) + " GB"@
    } else if b >= 0x10_0000 {
        let parts = half_even(b * 10, 0x10_0000);
        numeral(parts / 10) + "."@ + numeral(parts % 10) + " MB"@
    } else if b >= 0x400 {
        let parts = half_even(b * 10, 0x400);
        numeral(parts / 10) + "."@ + numeral(parts % 10) + " KB"@
    } else {
        numeral(b) + " B"@
    }
}

pub fn human_size(b: u64) -> (r: String)
    ensures
        r@ == size_text(b as nat),
{
    if b >= 0x4000_0000 {
        let v = as_53_bits(b);
        let parts: u128 = round_half_even(v * 100, 0x4000_0000);
        assert(parts <= (v * 100) / 0x4000_0000 + 1);
        let whole: u128 = parts / 100;
        let rest: u128 = parts % 100;
        let mut s = decimal(whole as u64);
        s.append(".");
        s.append(decimal_padded(rest as u64, 2).as_str());
        s.append(" GB");
        s
    } else if b >= 0x10_0000 {
        let parts: u128 = round_half_even(b as u128 * 10, 0x10_0000);
        assert(parts <= (b * 10) / 0x10_0000 + 1);
        let whole: u128 = parts / 10;
        let rest: u128 = parts % 10;
        let mut s = decimal(whole as u64);
        s.append(".");
        s.append(decimal(rest as u64).as_str());
        s.append(" MB");
        s
    } else if b >= 0x400 {
        let parts: u128 = round_half_even(b as u128 * 10, 0x400);
        assert(parts <= (b * 10) / 0x400 + 1);
        let whole: u128 = parts / 10;
        let rest: u128 = parts % 10;
        let mut s = decimal(whole as u64);
        s.append(".");
        s.append(decimal(rest as u64).as_str());
        s.append(" KB");
        s
    } else {
        let mut s = decimal(b);
        s.append(" B");
        s
    }
}

/// How many of a list of marks are set.
pub open spec fn set_marks(checked: Seq<bool>) -> nat
    decreases checked.len(),
{
    if checked.len() == 0 {
        0
    } else {
        set_marks(checked.drop_last()) + if checked.last() {
            1nat
        } else {
            0
        }
    }
}

/// The bytes that the first `n` chosen copies and updates move.
pub open spec fn chosen_bytes(ops: Seq<Op>, checked: Seq<bool>, n: int) -> nat
    decreases n,
{
    if n <= 0 {
        0
    } else {
        let op = ops[n - 1];
        chosen_bytes(ops, checked, n - 1) + if checked[n - 1] && (op.action == Action::Copy || op.action
            == Action::Update) {
            match op.size {
                Some(s) => s as nat,
                None => 0,
            }
        } else {
            0
        }
    }
}

/// The steps that are chosen and can be.
pub open spec fn chosen(ops: Seq<Op>, checked: Seq<bool>, n: int) -> Seq<usize>
    decreases n,
{
    if n <= 0 {
        Seq::empty()
    } else {
        let before = chosen(ops, checked, n - 1);
        if checked[n - 1] && choosable(ops[n - 1].action) {
            before.push((n - 1) as usize)
        } else {
            before
        }
    }
}

proof fn lemma_chosen_bytes(ops: Seq<Op>, checked: Seq<bool>, k: int, n: int)
    requires
        k <= n,
    ensures
        chosen_bytes(ops, checked, k) <= chosen_bytes(ops, checked, n),
    decreases n - k,
{
    if k < n {
        lemma_chosen_bytes(ops, checked, k, n - 1);
    }
}

fn count_marks(checked: &Vec<bool>) -> (r: usize)
    ensures
        r == set_marks(checked@),
{
    let mut n: usize = 0;
    let mut i: usize = 0;
    assert(checked@.take(0) =~= Seq::<bool>::empty());
    while i < checked.len()
        invariant
            i <= checked@.len(),
            n <= i,
            n == set_marks(checked@.take(i as int)),
        decreases checked@.len() - i,
    {
        assert(checked@.take(i as int + 1).drop_last() =~= checked@.take(i as int));
        if checked[i] {
            n = n + 1;
        }
        i = i + 1;
    }
    assert(checked@.take(checked@.len() as int) =~= checked@);
    n
}

/// The bytes that the chosen steps move.
pub fn selected_bytes(ops: &Vec<Op>, checked: &Vec<bool>) -> (r: u64)
    requires
        ops@.len() == checked@.len(),
        chosen_bytes(ops@, checked@, ops@.len() as int) <= u64::MAX,
    ensures
        r == chosen_bytes(ops@, checked@, ops@.len() as int),
{
    let mut sum: u64 = 0;
    let mut i: usize = 0;
    while i < ops.len()
        invariant
            i <= ops@.len(),
            ops@.len() == checked@.len(),
            chosen_bytes(ops@, checked@, ops@.len() as int) <= u64::MAX,
            sum == chosen_bytes(ops@, checked@, i as int),
        decreases ops@.len() - i,
    {
        proof {
            lemma_chosen_bytes(ops@, checked@, i as int + 1, ops@.len() as int);
        }
        if checked[i] && (ops[i].action == Action::Copy || ops[i].action == Action::Update) {
            if let Some(s) = ops[i].size {
                sum = sum + s;
            }
        }
        i = i + 1;
    }
    sum
}

/// The places of the chosen steps in the plan.
pub fn selected_ops(ops: &Vec<Op>, checked: &Vec<bool>) -> (r: Vec<usize>)
    requires
        ops@.len() == checked@.len(),
    ensures
        r@ == chosen(ops@, checked@, ops@.len() as int),
{
    let mut out: Vec<usize> = Vec::new();
    let mut i: usize = 0;
    while i < ops.len()
        invariant
            i <= ops@.len(),
            ops@.len() == checked@.len(),
            out@ == chosen(ops@, checked@, i as int),
        decreases ops@.len() - i,
    {
        if checked[i] && default_checked(&ops[i]) {
            out.push(i);
        }
        i = i + 1;
    }
    out
}

/// A step that only tells something is never among the chosen ones.
pub proof fn conflicts_are_never_chosen(ops: Seq<Op>, checked: Seq<bool>, n: int)
    requires
        0 <= n <= ops.len() <= usize::MAX,
    ensures
        forall|k: int|
            0 <= k < chosen(ops, checked, n).len() ==> (#[trigger] chosen(ops, checked, n)[k]) < n && choosable(
                ops[chosen(ops, checked, n)[k] as int].action,
            ),
    decreases n,
{
    if n > 0 {
        conflicts_are_never_chosen(ops, checked, n - 1);
    }
}

/// What the window is about.
pub struct Panel {
    pub phase: Phase,
    pub status: String,
    pub plan: Option<Plan>,
    /// One mark for each step of the plan.
    pub checked: Vec<bool>,
}

pub open spec fn marks_of(ops: Seq<Op>) -> Seq<bool> {
    Seq::new(ops.len(), |i: int| choosable(ops[i].action))
}

impl Panel {
    /// There are as many marks as steps, and a plan is ready only if there is one.
    pub open spec fn wf(self) -> bool {
        &&& self.plan matches Some(p) ==> p.ops@.len() == self.checked@.len()
        &&& self.plan is None ==> self.checked@.len() == 0
        &&& self.phase == Phase::Ready ==> self.plan is Some
    }

    pub fn new(jobs_dir: &str) -> (r: Panel)
        ensures
            r.wf(),
            r.phase == Phase::Idle,
            r.status@ == "jobs dir: "@ + jobs_dir@,
            r.plan is None,
    {
        let mut status = "jobs dir: ".to_owned();
        status.append(jobs_dir);
        Panel { phase: Phase::Idle, status, plan: None, checked: Vec::new() }
    }

    /// Something is going on in the background.
    pub fn busy(&self) -> (r: bool)
        ensures
            r == (self.phase == Phase::Comparing || self.phase == Phase::Applying),
    {
        self.phase == Phase::Comparing || self.phase == Phase::Applying
    }

    /// Whether there is something to synchronize.
    pub fn can_sync(&self) -> (r: bool)
        ensures
            r == (self.phase == Phase::Ready && self.plan is Some),
    {
        self.phase == Phase::Ready && self.plan.is_some()
    }

    /// The line about the plan.
    pub fn summary(&self) -> (r: Option<String>)
        requires
            self.wf(),
            self.plan matches Some(p) ==> chosen_bytes(p.ops@, self.checked@, p.ops@.len() as int)
                <= u64::MAX,
        ensures
            match self.plan {
                None => r is None,
                Some(p) => r matches Some(s) && s@ == numeral(p.header.op_count as nat) + " op(s) | "@
                    + numeral(set_marks(self.checked@)) + " selected | "@ + size_text(
                    chosen_bytes(p.ops@, self.checked@, p.ops@.len() as int),
                ) + " to transfer | "@ + numeral(p.header.conflict_count as nat) + " conflict(s)"@,
            },
    {
        match &self.plan {
            None => None,
            Some(p) => {
                let mut s = decimal(p.header.op_count);
                s.append(" op(s) | ");
                s.append(decimal(count_marks(&self.checked) as u64).as_str());
                s.append(" selected | ");
                s.append(human_size(selected_bytes(&p.ops, &self.checked)).as_str());
                s.append(" to transfer | ");
                s.append(decimal(p.header.conflict_count).as_str());
                s.append(" conflict(s)");
                Some(s)
            },
        }
    }

    /// A comparison begins: what was planned before is gone.
    pub fn begin_compare(&mut self, name: &str)
        ensures
            final(self).wf(),
            final(self).phase == Phase::Comparing,
            final(self).plan is None,
            final(self).status@ == "comparing '"@ + name@
                + "' (scanning both sides, hashing changed files)..."@,
    {
        let mut s = "comparing '".to_owned();
        s.append(name);
        s.append("' (scanning both sides, hashing changed files)...");
        self.phase = Phase::Comparing;
        self.plan = None;
        self.checked = Vec::new();
        self.status = s;
    }

    /// The comparison is through.
    pub fn compared(&mut self, name: &str, outcome: Result<Plan, String>)
        requires
            old(self).phase == Phase::Comparing,
            old(self).plan is None,
            old(self).wf(),
        ensures
            final(self).wf(),
            match outcome {
                Ok(p) => {
                    &&& final(self).phase == Phase::Ready
                    &&& final(self).plan == Some(p)
                    &&& final(self).checked@ == marks_of(p.ops@)
                    &&& final(self).status@ == "'"@ + name@ + "': "@ + numeral(p.header.op_count as nat)
                        + " op(s), "@ + numeral(p.header.conflict_count as nat)
                        + " conflict(s). Review and press Synchronize."@
                },
                Err(e) => {
                    &&& final(self).phase == Phase::Idle
                    &&& final(self).plan is None
                    &&& final(self).status@ == "compare failed: "@ + e@
                },
            },
    {
        match outcome {
            Ok(p) => {
                let mut marks: Vec<bool> = Vec::new();
                let mut i: usize = 0;
                while i < p.ops.len()
                    invariant
                        i <= p.ops@.len(),
                        marks@.len() == i,
                        forall|j: int| 0 <= j < i ==> marks@[j] == choosable(p.ops@[j].action),
                    decreases p.ops@.len() - i,
                {
                    marks.push(default_checked(&p.ops[i]));
                    i = i + 1;
                }
                assert(marks@ =~= marks_of(p.ops@));
                let mut s = "'".to_owned();
                s.append(name);
                s.append("': ");
                s.append(decimal(p.header.op_count).as_str());
                s.append(" op(s), ");
                s.append(decimal(p.header.conflict_count).as_str());
                s.append(" conflict(s). Review and press Synchronize.");
                self.status = s;
                self.checked = marks;
                self.plan = Some(p);
                self.phase = Phase::Ready;
            },
            Err(e) => {
                let mut s = "compare failed: ".to_owned();
                s.append(e.as_str());
                self.status = s;
                self.phase = Phase::Idle;
            },
        }
    }

    /// Synchronizing begins: the plan and its marks are handed over and cannot be used twice.
    pub fn begin_apply(&mut self, name: &str) -> (r: Option<(Plan, Vec<bool>)>)
        requires
            old(self).wf(),
        ensures
            final(self).wf(),
            final(self).phase == Phase::Applying,
            final(self).plan is None,
            final(self).status@ == "synchronizing '"@ + name@ + "'..."@,
            match old(self).plan {
                Some(p) => r == Some((p, old(self).checked)),
                None => r is None,
            },
    {
        let mut s = "synchronizing '".to_owned();
        s.append(name);
        s.append("'...");
        let mut plan: Option<Plan> = None;
        std::mem::swap(&mut plan, &mut self.plan);
        let mut checked: Vec<bool> = Vec::new();
        std::mem::swap(&mut checked, &mut self.checked);
        self.phase = Phase::Applying;
        self.status = s;
        match plan {
            Some(p) => Some((p, checked)),
            None => None,
        }
    }

    /// Synchronizing is through.
    pub fn applied(&mut self, name: &str, done: u64, skipped: u64, errors: u64)
        requires
            old(self).wf(),
        ensures
            final(self).wf(),
            final(self).phase == Phase::Idle,
            final(self).plan == old(self).plan,
            final(self).checked == old(self).checked,
            final(self).status@ == "'"@ + name@ + "' done: "@ + numeral(done as nat) + " applied, "@
                + numeral(skipped as nat) + " skipped, "@ + numeral(errors as nat)
                + " error(s). Press Compare to verify."@,
    {
        let mut s = "'".to_owned();
        s.append(name);
        s.append("' done: ");
        s.append(decimal(done).as_str());
        s.append(" applied, ");
        s.append(decimal(skipped).as_str());
        s.append(" skipped, ");
        s.append(decimal(errors).as_str());
        s.append(" error(s). Press Compare to verify.");
        self.status = s;
        self.phase = Phase::Idle;
    }
}

/// Every step that is marked and can be carried out is among the chosen ones, once and in order, and
/// nothing else is.
pub proof fn what_is_marked_is_chosen(ops: Seq<Op>, checked: Seq<bool>, n: int)
    requires
        0 <= n <= ops.len() <= usize::MAX,
    ensures
        forall|i: usize|
            chosen(ops, checked, n).contains(i) <==> 0 <= i < n && #[trigger] checked[i as int] && ops[i as int].action
                != Action::Conflict && ops[i as int].action != Action::Note,
        forall|a: int, b: int|
            0 <= a < b < chosen(ops, checked, n).len() ==> chosen(ops, checked, n)[a] < chosen(
                ops,
                checked,
                n,
            )[b],
    decreases n,
{
    if n > 0 {
        what_is_marked_is_chosen(ops, checked, n - 1);
        conflicts_are_never_chosen(ops, checked, n - 1);
        let before = chosen(ops, checked, n - 1);
        let now = chosen(ops, checked, n);
        assert forall|i: usize| now.contains(i) <==> 0 <= i < n && #[trigger] checked[i as int] && ops[i as int].action
            != Action::Conflict && ops[i as int].action != Action::Note by {
            if now.contains(i) {
                let k = choose|k: int| 0 <= k < now.len() && now[k] == i;
                if k < before.len() {
                    assert(before[k] == i);
                    assert(before.contains(i));
                }
            }
            if before.contains(i) {
                let k = choose|k: int| 0 <= k < before.len() && before[k] == i;
                assert(now[k] == i);
            }
            if i == n - 1 && checked[i as int] && choosable(ops[i as int].action) {
                assert(now[before.len() as int] == i);
            }
        }
    }
}

/// Only marked copies and updates weigh anything, each as much as its file.
pub proof fn marked_writes_weigh_their_files(ops: Seq<Op>, checked: Seq<bool>, n: int)
    requires
        0 <= n < ops.len(),
    ensures
        chosen_bytes(ops, checked, n + 1) >= chosen_bytes(ops, checked, n),
        !checked[n] || (ops[n].action != Action::Copy && ops[n].action != Action::Update) ==> chosen_bytes(
            ops,
            checked,
            n + 1,
        ) == chosen_bytes(ops, checked, n),
        checked[n] && (ops[n].action == Action::Copy || ops[n].action == Action::Update) && ops[n].size is Some
            ==> chosen_bytes(ops, checked, n + 1) == chosen_bytes(ops, checked, n) + ops[n].size->0,
        chosen_bytes(ops, checked, 0) == 0,
{
}

/// To begin with everything is marked but conflicts and notes.
pub proof fn everything_but_remarks_is_marked(ops: Seq<Op>, i: int)
    requires
        0 <= i < ops.len(),
    ensures
        marks_of(ops).len() == ops.len(),
        marks_of(ops)[i] <==> ops[i].action != Action::Conflict && ops[i].action != Action::Note,
{
}

/// The badge of a copy or an update points to the side that is written, and no two kinds of steps look
/// alike but for the two deletions.
pub proof fn badges_point_to_the_written_side(side: Side)
    ensures
        badge(Action::Copy, Side::Target).0 == "-> copy"@,
        badge(Action::Copy, Side::Source).0 == "<- copy"@,
        badge(Action::Update, Side::Target).0 == "-> update"@,
        badge(Action::Update, Side::Source).0 == "<- update"@,
        badge(Action::Delete, side) == badge(Action::DeleteDir, side),
        badge(Action::Copy, side).1 != badge(Action::Update, side).1,
        badge(Action::Delete, side).1 != badge(Action::Copy, side).1,
        badge(Action::Delete, side).1 != badge(Action::Update, side).1,
        badge(Action::Conflict, side).1 != badge(Action::Delete, side).1,
        badge(Action::Conflict, side).1 != badge(Action::Note, side).1,
{
}

/// Sizes are told in the largest unit that is not above them, to the nearest step of a column: bytes as
/// they are, then tenths, and hundredths of a gibibyte.
pub proof fn sizes_are_told_to_the_nearest_step(b: nat)
    requires
        b < 0x20_0000_0000_0000,
    ensures
        b < 1024 ==> size_text(b) == numeral(b) + " B"@,
        1024 <= b < 1024 * 1024 ==> exists|n: nat|
            size_text(b) == #[trigger] numeral(n / 10) + "."@ + numeral(n % 10) + " KB"@ && -1024 <= 2 * (10 * b
                - 1024 * n) <= 1024,
        1024 * 1024 <= b < 1024 * 1024 * 1024 ==> exists|n: nat|
            size_text(b) == #[trigger] numeral(n / 10) + "."@ + numeral(n % 10) + " MB"@ && -0x10_0000 <= 2 * (10
                * b - 0x10_0000 * n) <= 0x10_0000,
        b >= 1024 * 1024 * 1024 ==> exists|n: nat|
            size_text(b) == #[trigger] numeral(n / 100) + "."@ + padded(n % 100, 2) + " GB"@ && -0x4000_0000 <= 2
                * (100 * b - 0x4000_0000 * n) <= 0x4000_0000,
{
    if b >= 0x4000_0000 {
        assert(grain(b) == 1);
        assert(b / 1 == b && b % 1 == 0);
        assert(to_53_bits(b) == b);
        let n = half_even(b * 100, 0x4000_0000);
        rounding_goes_to_the_nearest(b * 100, 0x4000_0000);
        assert(size_text(b) == numeral(n / 100) + "."@ + padded(n % 100, 2) + " GB"@);
    } else if b >= 0x10_0000 {
        let n = half_even(b * 10, 0x10_0000);
        rounding_goes_to_the_nearest(b * 10, 0x10_0000);
        assert(size_text(b) == numeral(n / 10) + "."@ + numeral(n % 10) + " MB"@);
    } else if b >= 0x400 {
        let n = half_even(b * 10, 0x400);
        rounding_goes_to_the_nearest(b * 10, 0x400);
        assert(size_text(b) == numeral(n / 10) + "."@ + numeral(n % 10) + " KB"@);
    }
}

} // verus!
