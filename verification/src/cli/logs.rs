//! The commands about run logs.
use vstd::prelude::*;
use crate::cli::args::LogsCmd;
use crate::cli::{left, note, right, tell, to_left, to_right, told, warn, warned, Report, ReportModel};
use crate::foundation::fmt::{bytes_text, human_bytes};
use crate::strings::{decimal, numeral, texts};
use crate::table::opt_text;

verus! {

/// One run, as the log has it. The duration is in seconds, already spelled.
pub struct RunRow {
    pub ts_ms: i64,
    /// `None` for a comparison, which leaves no directory.
    pub run_id: Option<String>,
    pub job: String,
    pub kind: String,
    pub done: u64,
    pub skipped: u64,
    pub errors: u64,
    pub warnings: u64,
    pub bytes: u64,
    pub seconds: String,
    pub finished: bool,
    pub cancelled: bool,
    /// How many steps a comparison found.
    pub ops_found: Option<u64>,
}

/// Whole minutes since a run; none for one that lies ahead.
pub open spec fn age_minutes(now: i64, ts: i64) -> int {
    if now - ts < 0 {
        0
    } else {
        (now - ts) / 60_000
    }
}

/// How long ago that is: in minutes for an hour, in hours for two days, then in days.
pub open spec fn age_text(minutes: int) -> Seq<char> {
    if minutes < 60 {
        numeral(minutes as nat) + "m ago"@
    } else if minutes < 2880 {
        numeral((minutes / 60) as nat) + "h ago"@
    } else {
        numeral((minutes / 60 / 24) as nat) + "d ago"@
    }
}

pub fn age(now: i64, ts: i64) -> (r: String)
    ensures
        r@ == age_text(age_minutes(now, ts)),
{
    let wide: i128 = now as i128 - ts as i128;
    let minutes: u64 = if wide < 0 {
        0
    } else {
        (wide / 60_000) as u64
    };
    assert(minutes == age_minutes(now, ts));
    let mut s = if minutes < 60 {
        decimal(minutes)
    } else if minutes < 2880 {
        decimal(minutes / 60)
    } else {
        decimal(minutes / 60 / 24)
    };
    s.append(
        if minutes < 60 {
            "m ago"
        } else if minutes < 2880 {
            "h ago"
        } else {
            "d ago"
        },
    );
    s
}

pub open spec fn run_state(r: RunRow) -> Seq<char> {
    if !r.finished {
        "  [INTERRUPTED]"@
    } else if r.cancelled {
        "  [cancelled]"@
    } else {
        ""@
    }
}

pub open spec fn run_what(r: RunRow) -> Seq<char> {
    match r.ops_found {
        Some(n) => right(numeral(n as nat), 5) + " found"@,
        None => right(numeral(r.done as nat), 5) + " done "@,
    }
}

pub open spec fn run_line(now: i64, r: RunRow) -> Seq<char> {
    right(age_text(age_minutes(now, r.ts_ms)), 9) + "  "@ + left(
        match r.run_id {
            Some(id) => id@,
            None => "-"@,
        },
        28,
    ) + " "@ + left(r.job@, 16) + " "@ + left(r.kind@, 12) + " "@ + run_what(r) + " "@ + right(
        numeral(r.errors as nat),
        3,
    ) + " err "@ + right(numeral(r.warnings as nat), 3) + " warn  "@ + right(
        bytes_text(r.bytes as nat),
        10,
    ) + "  "@ + right(r.seconds@, 7) + "s"@ + run_state(r)
}

fn show_run(now: i64, r: &RunRow) -> (s: String)
    ensures
        s@ == run_line(now, *r),
{
    let mut s = to_right(age(now, r.ts_ms).as_str(), 9);
    s.append("  ");
    let id = match &r.run_id {
        Some(id) => to_left(id.as_str(), 28),
        None => to_left("-", 28),
    };
    s.append(id.as_str());
    s.append(" ");
    s.append(to_left(r.job.as_str(), 16).as_str());
    s.append(" ");
    s.append(to_left(r.kind.as_str(), 12).as_str());
    s.append(" ");
    let mut what = match r.ops_found {
        Some(n) => to_right(decimal(n).as_str(), 5),
        None => to_right(decimal(r.done).as_str(), 5),
    };
    what.append(
        match r.ops_found {
            Some(_) => " found",
            None => " done ",
        },
    );
    s.append(what.as_str());
    s.append(" ");
    s.append(to_right(decimal(r.errors).as_str(), 3).as_str());
    s.append(" err ");
    s.append(to_right(decimal(r.warnings).as_str(), 3).as_str());
    s.append(" warn  ");
    s.append(to_right(human_bytes(r.bytes).as_str(), 10).as_str());
    s.append("  ");
    s.append(to_right(r.seconds.as_str(), 7).as_str());
    s.append("s");
    s.append(
        if !r.finished {
            "  [INTERRUPTED]"
        } else if r.cancelled {
            "  [cancelled]"
        } else {
            ""
        },
    );
    s
}

pub open spec fn nothing_run() -> Seq<char> {
    "no runs recorded yet (runs are logged when a job actually applies)"@
}

/// The list of the runs, those that were interrupted among them.
pub fn list_report(now: i64, rows: &Vec<RunRow>, logs_dir: &str) -> (r: Report)
    ensures
        r@ == if rows@.len() == 0 {
            told(nothing_run(), 0)
        } else {
            ReportModel {
                out: Seq::new(rows@.len(), |i: int| run_line(now, rows@[i])).push(
                    "\n"@ + numeral(rows@.len()) + " run(s) · logs at "@ + logs_dir@,
                ),
                err: Seq::empty(),
                code: 0,
            }
        },
{
    if rows.len() == 0 {
        return tell(
            "no runs recorded yet (runs are logged when a job actually applies)".to_owned(),
            0,
        );
    }
    let mut out: Vec<String> = Vec::new();
    let mut i: usize = 0;
    while i < rows.len()
        invariant
            i <= rows@.len(),
            out@.len() == i,
            forall|j: int| 0 <= j < i ==> (#[trigger] out@[j])@ == run_line(now, rows@[j]),
        decreases rows@.len() - i,
    {
        out.push(show_run(now, &rows[i]));
        i = i + 1;
    }
    assert(texts(out@) =~= Seq::new(rows@.len(), |i: int| run_line(now, rows@[i])));
    let mut s = "\n".to_owned();
    s.append(decimal(rows.len() as u64).as_str());
    s.append(" run(s) · logs at ");
    s.append(logs_dir);
    note(&mut out, s);
    let r = Report { out, err: Vec::new(), code: 0 };
    assert(r@.err =~= Seq::<Seq<char>>::empty());
    r
}

/// Which part of a run is shown: the first that was asked for, else its events.
pub open spec fn part_of(errors: bool, items: bool, plan: bool) -> Seq<char> {
    if errors {
        "errors"@
    } else if items {
        "items"@
    } else if plan {
        "plan"@
    } else {
        "run"@
    }
}

pub fn artifact(errors: bool, items: bool, plan: bool) -> (r: &'static str)
    ensures
        r@ == part_of(errors, items, plan),
{
    if errors {
        "errors"
    } else if items {
        "items"
    } else if plan {
        "plan"
    } else {
        "run"
    }
}

/// The lines of a part of a run. That there are none is said, and shows in the code.
pub fn show_report(run_id: &str, which: &str, lines: Vec<String>) -> (r: Report)
    ensures
        r@ == if lines@.len() == 0 {
            warned(
                "no "@ + which@ + " lines for run '"@ + run_id@
                    + "' (wrong id, or that artifact is empty)"@,
                1,
            )
        } else {
            ReportModel { out: texts(lines@), err: Seq::empty(), code: 0 }
        },
{
    if lines.len() == 0 {
        let mut s = "no ".to_owned();
        s.append(which);
        s.append(" lines for run '");
        s.append(run_id);
        s.append("' (wrong id, or that artifact is empty)");
        return warn(s, 1);
    }
    let r = Report { out: lines, err: Vec::new(), code: 0 };
    assert(r@.err =~= Seq::<Seq<char>>::empty());
    r
}

/// How long runs are kept and how much room they may take: as told, else as the settings say.
pub fn prune_limits(keep_days: Option<u64>, max_total_mb: Option<u64>, set_days: u64, set_mb: u64) -> (r: (
    u64,
    u64,
))
    ensures
        r.0 == (match keep_days {
            Some(d) => d,
            None => set_days,
        }),
        r.1 == (match max_total_mb {
            Some(m) => m,
            None => set_mb,
        }),
{
    let days: u64 = match keep_days {
        Some(d) => d,
        None => set_days,
    };
    let cap: u64 = match max_total_mb {
        Some(m) => m,
        None => set_mb,
    };
    (days, cap)
}

pub fn pruned_report(runs: u64, days: u64, cap: u64) -> (r: Report)
    ensures
        r@ == told(
            "pruned "@ + numeral(runs as nat) + " run(s)  (keep_days="@ + numeral(days as nat)
                + ", max_total_mb="@ + numeral(cap as nat) + ")"@,
            0,
        ),
{
    let mut s = "pruned ".to_owned();
    s.append(decimal(runs).as_str());
    s.append(" run(s)  (keep_days=");
    s.append(decimal(days).as_str());
    s.append(", max_total_mb=");
    s.append(decimal(cap).as_str());
    s.append(")");
    tell(s, 0)
}

pub fn dir_report(logs_dir: &str, settings: &str) -> (r: Report)
    ensures
        r@ == (ReportModel {
            out: seq![logs_dir@, "settings: "@ + settings@],
            err: Seq::empty(),
            code: 0,
        }),
{
    let mut s = "settings: ".to_owned();
    s.append(settings);
    let mut out: Vec<String> = Vec::new();
    out.push(logs_dir.to_owned());
    out.push(s);
    let r = Report { out, err: Vec::new(), code: 0 };
    assert(r@.out =~= seq![logs_dir@, "settings: "@ + settings@]);
    assert(r@.err =~= Seq::<Seq<char>>::empty());
    r
}

/// What a log command needs to know before it can answer.
pub enum LogsAsk {
    /// Runs, of one job or of all.
    Rows { job: Option<String>, limit: usize },
    /// Lines of a part of a run.
    Lines { run_id: String, which: &'static str, limit: usize },
    /// A pruning to these limits.
    Prune { days: u64, cap: u64 },
    /// Where the logs are.
    Places,
}

pub enum LogsAskModel {
    Rows { job: Option<Seq<char>>, limit: usize },
    Lines { run_id: Seq<char>, which: Seq<char>, limit: usize },
    Prune { days: u64, cap: u64 },
    Places,
}

impl View for LogsAsk {
    type V = LogsAskModel;

    open spec fn view(&self) -> LogsAskModel {
        match *self {
            LogsAsk::Rows { job, limit } => LogsAskModel::Rows { job: opt_text(job), limit },
            LogsAsk::Lines { run_id, which, limit } => LogsAskModel::Lines {
                run_id: run_id@,
                which: which@,
                limit,
            },
            LogsAsk::Prune { days, cap } => LogsAskModel::Prune { days, cap },
            LogsAsk::Places => LogsAskModel::Places,
        }
    }
}

/// What answers the question.
pub enum LogsAnswer {
    Rows { now: i64, rows: Vec<RunRow>, logs_dir: String },
    Lines(Vec<String>),
    Pruned(u64),
    Places { logs_dir: String, settings: String },
}

/// What a log command asks for. The settings give the limits that it does not.
pub fn ask(cmd: LogsCmd, set_days: u64, set_mb: u64) -> (r: LogsAsk)
    ensures
        r@ == (match cmd {
            LogsCmd::List { job, limit } => LogsAskModel::Rows { job: opt_text(job), limit },
            LogsCmd::Show { run_id, errors, items, plan, limit } => LogsAskModel::Lines {
                run_id: run_id@,
                which: part_of(errors, items, plan),
                limit,
            },
            LogsCmd::Prune { keep_days, max_total_mb } => LogsAskModel::Prune {
                days: match keep_days {
                    Some(d) => d,
                    None => set_days,
                },
                cap: match max_total_mb {
                    Some(m) => m,
                    None => set_mb,
                },
            },
            LogsCmd::Dir => LogsAskModel::Places,
        }),
{
    match cmd {
        LogsCmd::List { job, limit } => LogsAsk::Rows { job, limit },
        LogsCmd::Show { run_id, errors, items, plan, limit } => LogsAsk::Lines {
            run_id,
            which: artifact(errors, items, plan),
            limit,
        },
        LogsCmd::Prune { keep_days, max_total_mb } => {
            let (days, cap) = prune_limits(keep_days, max_total_mb, set_days, set_mb);
            LogsAsk::Prune { days, cap }
        },
        LogsCmd::Dir => LogsAsk::Places,
    }
}

/// The answer is one to the question.
pub open spec fn logs_answers(q: LogsAsk, a: LogsAnswer) -> bool {
    match q {
        LogsAsk::Rows { .. } => a is Rows,
        LogsAsk::Lines { .. } => a is Lines,
        LogsAsk::Prune { .. } => a is Pruned,
        LogsAsk::Places => a is Places,
    }
}

/// What a log command prints.
pub fn run_logs(q: &LogsAsk, a: LogsAnswer) -> (r: Report)
    requires
        logs_answers(*q, a),
    ensures
        match (q@, a) {
            (LogsAskModel::Rows { .. }, LogsAnswer::Rows { now, rows, logs_dir }) => r@ == if rows@.len()
                == 0 {
                told(nothing_run(), 0)
            } else {
                ReportModel {
                    out: Seq::new(rows@.len(), |i: int| run_line(now, rows@[i])).push(
                        "\n"@ + numeral(rows@.len()) + " run(s) · logs at "@ + logs_dir@,
                    ),
                    err: Seq::empty(),
                    code: 0,
                }
            },
            (LogsAskModel::Lines { run_id, which, .. }, LogsAnswer::Lines(lines)) => r@ == if lines@.len()
                == 0 {
                warned(
                    "no "@ + which + " lines for run '"@ + run_id
                        + "' (wrong id, or that artifact is empty)"@,
                    1,
                )
            } else {
                ReportModel { out: texts(lines@), err: Seq::empty(), code: 0 }
            },
            (LogsAskModel::Prune { days, cap }, LogsAnswer::Pruned(runs)) => r@ == told(
                "pruned "@ + numeral(runs as nat) + " run(s)  (keep_days="@ + numeral(days as nat)
                    + ", max_total_mb="@ + numeral(cap as nat) + ")"@,
                0,
            ),
            (LogsAskModel::Places, LogsAnswer::Places { logs_dir, settings }) => r@ == (ReportModel {
                out: seq![logs_dir@, "settings: "@ + settings@],
                err: Seq::empty(),
                code: 0,
            }),
            _ => true,
        },
{
    match a {
        LogsAnswer::Rows { now, rows, logs_dir } => list_report(now, &rows, logs_dir.as_str()),
        LogsAnswer::Lines(lines) => {
            if let LogsAsk::Lines { run_id, which, limit: _ } = q {
                return show_report(run_id.as_str(), which, lines);
            }
            warn(String::new(), 1)
        },
        LogsAnswer::Pruned(runs) => {
            if let LogsAsk::Prune { days, cap } = q {
                return pruned_report(runs, *days, *cap);
            }
            warn(String::new(), 1)
        },
        LogsAnswer::Places { logs_dir, settings } => dir_report(logs_dir.as_str(), settings.as_str()),
    }
}

/// One run in the history.
pub open spec fn history_line(now: i64, r: RunRow) -> Seq<char> {
    right(age_text(age_minutes(now, r.ts_ms)), 9) + "  "@ + left(r.job@, 20) + " "@ + left(r.kind@, 12)
        + " "@ + right(numeral(r.done as nat), 5) + " done "@ + right(numeral(r.skipped as nat), 4)
        + " skip "@ + right(numeral(r.errors as nat), 3) + " err  "@ + right(
        bytes_text(r.bytes as nat),
        10,
    ) + "  "@ + right(r.seconds@, 7) + "s"@ + (if r.cancelled {
        "  [cancelled]"@
    } else {
        ""@
    })
}

pub fn pruned_days(runs: u64, days: u64) -> (r: String)
    ensures
        r@ == "pruned "@ + numeral(runs as nat) + " run(s) older than "@ + numeral(days as nat)
            + " day(s)"@,
{
    let mut s = "pruned ".to_owned();
    s.append(decimal(runs).as_str());
    s.append(" run(s) older than ");
    s.append(decimal(days).as_str());
    s.append(" day(s)");
    s
}

/// The history of the runs that were applied.
pub fn history_report(now: i64, rows: &Vec<RunRow>) -> (r: Report)
    ensures
        r@ == if rows@.len() == 0 {
            told(nothing_run(), 0)
        } else {
            ReportModel {
                out: Seq::new(rows@.len(), |i: int| history_line(now, rows@[i])),
                err: Seq::empty(),
                code: 0,
            }
        },
{
    if rows.len() == 0 {
        return tell(
            "no runs recorded yet (runs are logged when a job actually applies)".to_owned(),
            0,
        );
    }
    let mut out: Vec<String> = Vec::new();
    let mut i: usize = 0;
    while i < rows.len()
        invariant
            i <= rows@.len(),
            out@.len() == i,
            forall|j: int| 0 <= j < i ==> (#[trigger] out@[j])@ == history_line(now, rows@[j]),
        decreases rows@.len() - i,
    {
        let r = &rows[i];
        let mut s = to_right(age(now, r.ts_ms).as_str(), 9);
        s.append("  ");
        s.append(to_left(r.job.as_str(), 20).as_str());
        s.append(" ");
        s.append(to_left(r.kind.as_str(), 12).as_str());
        s.append(" ");
        s.append(to_right(decimal(r.done).as_str(), 5).as_str());
        s.append(" done ");
        s.append(to_right(decimal(r.skipped).as_str(), 4).as_str());
        s.append(" skip ");
        s.append(to_right(decimal(r.errors).as_str(), 3).as_str());
        s.append(" err  ");
        s.append(to_right(human_bytes(r.bytes).as_str(), 10).as_str());
        s.append("  ");
        s.append(to_right(r.seconds.as_str(), 7).as_str());
        s.append("s");
        s.append(
            if r.cancelled {
                "  [cancelled]"
            } else {
                ""
            },
        );
        out.push(s);
        i = i + 1;
    }
    let r = Report { out, err: Vec::new(), code: 0 };
    assert(r@.out =~= Seq::new(rows@.len(), |i: int| history_line(now, rows@[i])));
    assert(r@.err =~= Seq::<Seq<char>>::empty());
    r
}

/// An age is told in whole minutes, hours or days, and is rounded down: what is told is not above the age,
/// and less than one unit below it. A run that lies ahead is as old as one that ends now.
pub proof fn ages_are_rounded_down(now: i64, ts: i64)
    ensures
        ts >= now ==> age_text(age_minutes(now, ts)) == numeral(0) + "m ago"@,
        now - ts >= 0 && now - ts < 3_600_000 ==> exists|n: nat|
            #[trigger] numeral(n) + "m ago"@ == age_text(age_minutes(now, ts)) && n * 60_000 <= now - ts < (n
                + 1) * 60_000,
        3_600_000 <= now - ts < 172_800_000 ==> exists|n: nat|
            #[trigger] numeral(n) + "h ago"@ == age_text(age_minutes(now, ts)) && n * 3_600_000 <= now - ts < (
            n + 1) * 3_600_000,
        now - ts >= 172_800_000 ==> exists|n: nat|
            #[trigger] numeral(n) + "d ago"@ == age_text(age_minutes(now, ts)) && n * 86_400_000 <= now - ts < (
            n + 1) * 86_400_000,
{
    let m = age_minutes(now, ts);
    let gone = now - ts;
    if gone >= 0 {
        assert(m == gone / 60_000);
        assert(0 <= m && m * 60_000 <= gone < (m + 1) * 60_000);
        if gone < 3_600_000 {
            let n = m as nat;
            assert(numeral(n) + "m ago"@ == age_text(m));
        } else if gone < 172_800_000 {
            let n = (m / 60) as nat;
            assert(60 * n <= m < 60 * (n + 1));
            assert(numeral(n) + "h ago"@ == age_text(m));
        } else {
            let n = (m / 60 / 24) as nat;
            let h = m / 60;
            assert(60 * h <= m < 60 * (h + 1));
            assert(24 * n <= h < 24 * (n + 1));
            assert(numeral(n) + "d ago"@ == age_text(m));
        }
    }
}

/// A run that did not end is told as interrupted, whatever else holds of it, and one that ended of itself
/// is told without a remark.
pub proof fn an_interrupted_run_is_told(r: RunRow)
    ensures
        !r.finished ==> run_state(r) == "  [INTERRUPTED]"@,
        r.finished && r.cancelled ==> run_state(r) == "  [cancelled]"@,
        r.finished && !r.cancelled ==> run_state(r).len() == 0,
{
    reveal_strlit("");
}

/// Without a word the events of a run are shown; errors come before items, and items before the plan.
pub proof fn events_are_shown_by_default(errors: bool, items: bool, plan: bool)
    ensures
        part_of(errors, items, plan) == "run"@ <==> !errors && !items && !plan,
        part_of(errors, items, plan) == "errors"@ <==> errors,
        part_of(errors, items, plan) == "items"@ ==> items && !errors,
        part_of(errors, items, plan) == "plan"@ ==> plan && !errors && !items,
{
    reveal_strlit("run");
    reveal_strlit("errors");
    reveal_strlit("items");
    reveal_strlit("plan");
    assert("run"@.len() == 3 && "errors"@.len() == 6 && "items"@.len() == 5 && "plan"@.len() == 4);
}

} // verus!
