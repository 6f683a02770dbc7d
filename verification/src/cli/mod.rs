//! What the commands decide and print. Reading, running and printing themselves are elsewhere.
use vstd::prelude::*;
use crate::apply::ApplyOptions;
use crate::cli::args::{Cli, Cmd};
use crate::config::{over, preset, RigorResolved};
use crate::foundation::fmt::{bytes_text, human_bytes};
use crate::foundation::text::{ascii_lowered, to_ascii_lower};
use crate::fs::vfs::cred::{account_for, account_of};
use crate::fs::vfs::spec::{parse, root_of, RootModel, RootSpec};
use crate::strings::{
    chars_of, decimal, join_texts, joined, numeral, same, same_chars, slice, starts_with, text_of, texts,
    trim, trimmed,
};
use crate::table::opt_text;

pub mod args;
pub mod logs;

verus! {

/// What a command prints, and the code that it ends with.
pub struct Report {
    pub out: Vec<String>,
    pub err: Vec<String>,
    pub code: i32,
}

pub struct ReportModel {
    pub out: Seq<Seq<char>>,
    pub err: Seq<Seq<char>>,
    pub code: i32,
}

impl View for Report {
    type V = ReportModel;

    open spec fn view(&self) -> ReportModel {
        ReportModel { out: texts(self.out@), err: texts(self.err@), code: self.code }
    }
}

/// One line on the output.
pub open spec fn told(line: Seq<char>, code: i32) -> ReportModel {
    ReportModel { out: seq![line], err: Seq::empty(), code }
}

/// One line on the error output.
pub open spec fn warned(line: Seq<char>, code: i32) -> ReportModel {
    ReportModel { out: Seq::empty(), err: seq![line], code }
}

pub(crate) fn tell(line: String, code: i32) -> (r: Report)
    ensures
        r@ == told(line@, code),
{
    let mut out: Vec<String> = Vec::new();
    out.push(line);
    let r = Report { out, err: Vec::new(), code };
    assert(r@.out =~= seq![line@]);
    assert(r@.err =~= Seq::<Seq<char>>::empty());
    r
}

pub(crate) fn warn(line: String, code: i32) -> (r: Report)
    ensures
        r@ == warned(line@, code),
{
    let mut err: Vec<String> = Vec::new();
    err.push(line);
    let r = Report { out: Vec::new(), err, code };
    assert(r@.err =~= seq![line@]);
    assert(r@.out =~= Seq::<Seq<char>>::empty());
    r
}

pub(crate) fn note(lines: &mut Vec<String>, line: String)
    ensures
        texts(final(lines)@) == texts(old(lines)@).push(line@),
{
    assert(texts(lines@.push(line)) =~= texts(lines@).push(line@));
    lines.push(line);
}

/// Blanks.
pub open spec fn blanks(n: int) -> Seq<char> {
    Seq::new(
        if n > 0 {
            n as nat
        } else {
            0
        },
        |i: int| ' ',
    )
}

/// `s` at the left of a column.
pub open spec fn left(s: Seq<char>, width: int) -> Seq<char> {
    s + blanks(width - s.len())
}

/// `s` at the right of a column.
pub open spec fn right(s: Seq<char>, width: int) -> Seq<char> {
    blanks(width - s.len()) + s
}

pub(crate) fn pad(n: usize) -> (r: String)
    ensures
        r@ == blanks(n as int),
{
    let mut v: Vec<char> = Vec::new();
    let mut i: usize = 0;
    while i < n
        invariant
            i <= n,
            v@.len() == i,
            forall|j: int| 0 <= j < i ==> v@[j] == ' ',
        decreases n - i,
    {
        v.push(' ');
        i = i + 1;
    }
    assert(v@ =~= blanks(n as int));
    text_of(v.as_slice())
}

pub(crate) fn to_left(s: &str, width: usize) -> (r: String)
    ensures
        r@ == left(s@, width as int),
{
    let n = s.unicode_len();
    let mut out = s.to_owned();
    if n < width {
        out.append(pad(width - n).as_str());
    } else {
        assert(out@ =~= left(s@, width as int));
    }
    out
}

pub(crate) fn to_right(s: &str, width: usize) -> (r: String)
    ensures
        r@ == right(s@, width as int),
{
    let n = s.unicode_len();
    if n < width {
        let mut out = pad(width - n);
        out.append(s);
        out
    } else {
        assert(s@ =~= right(s@, width as int));
        s.to_owned()
    }
}

/// What a command line asks for.
pub enum Start {
    /// Open the window, without the console that a double click brings along.
    Window,
    Command(Cmd),
}

pub fn start(cli: Cli) -> (r: Start)
    ensures
        r == (match cli.cmd {
            Some(c) => Start::Command(c),
            None => Start::Window,
        }),
{
    match cli.cmd {
        Some(c) => Start::Command(c),
        None => Start::Window,
    }
}

/// The program of the window, which stands beside this one.
pub open spec fn window_program(windows: bool) -> Seq<char> {
    if windows {
        "syncdash-desktop.exe"@
    } else {
        "syncdash-desktop"@
    }
}

pub fn desktop_name(windows: bool) -> (r: &'static str)
    ensures
        r@ == window_program(windows),
{
    if windows {
        "syncdash-desktop.exe"
    } else {
        "syncdash-desktop"
    }
}

/// The window cannot be opened: its program is not there.
pub fn desktop_missing(windows: bool) -> (r: Report)
    ensures
        r@ == (ReportModel {
            out: Seq::empty(),
            err: seq![
                "desktop app not found next to this binary ("@ + window_program(windows) + ")."@,
                "build it with: cargo build -p syncdash-desktop --release"@,
                "(CLI subcommands all still work — run `syncdash --help`)"@,
            ],
            code: 2,
        }),
{
    let mut s = "desktop app not found next to this binary (".to_owned();
    s.append(desktop_name(windows));
    s.append(").");
    let mut err: Vec<String> = Vec::new();
    err.push(s);
    err.push("build it with: cargo build -p syncdash-desktop --release".to_owned());
    err.push("(CLI subcommands all still work — run `syncdash --help`)".to_owned());
    let r = Report { out: Vec::new(), err, code: 2 };
    proof {
        assert(r@.out =~= Seq::<Seq<char>>::empty());
        assert(r@.err =~= seq![
            "desktop app not found next to this binary ("@ + window_program(windows) + ")."@,
            "build it with: cargo build -p syncdash-desktop --release"@,
            "(CLI subcommands all still work — run `syncdash --help`)"@,
        ]);
    }
    r
}

/// A job in a list.
pub struct JobRow {
    pub name: String,
    pub mode: String,
    pub source: String,
    pub target: String,
}

pub open spec fn job_line(j: JobRow) -> Seq<char> {
    left(j.name@, 24) + " "@ + left(j.mode@, 7) + " "@ + j.source@ + "  ->  "@ + j.target@
}

/// The list of the jobs; where there is none, a sample to begin with.
pub fn jobs_report(jobs: &Vec<JobRow>, jobs_dir: &str, sample: &str) -> (r: Report)
    ensures
        r@ == if jobs@.len() == 0 {
            told("no jobs in "@ + jobs_dir@ + "\n\nsample job file:\n"@ + sample@, 0)
        } else {
            ReportModel {
                out: Seq::new(jobs@.len(), |i: int| job_line(jobs@[i])),
                err: Seq::empty(),
                code: 0,
            }
        },
{
    if jobs.len() == 0 {
        let mut s = "no jobs in ".to_owned();
        s.append(jobs_dir);
        s.append("\n\nsample job file:\n");
        s.append(sample);
        return tell(s, 0);
    }
    let mut out: Vec<String> = Vec::new();
    let mut i: usize = 0;
    while i < jobs.len()
        invariant
            i <= jobs@.len(),
            out@.len() == i,
            forall|j: int| 0 <= j < i ==> (#[trigger] out@[j])@ == job_line(jobs@[j]),
        decreases jobs@.len() - i,
    {
        let j = &jobs[i];
        let mut s = to_left(j.name.as_str(), 24);
        s.append(" ");
        s.append(to_left(j.mode.as_str(), 7).as_str());
        s.append(" ");
        s.append(j.source.as_str());
        s.append("  ->  ");
        s.append(j.target.as_str());
        out.push(s);
        i = i + 1;
    }
    let r = Report { out, err: Vec::new(), code: 0 };
    assert(r@.out =~= Seq::new(jobs@.len(), |i: int| job_line(jobs@[i])));
    assert(r@.err =~= Seq::<Seq<char>>::empty());
    r
}

/// Which jobs a run is about.
pub enum JobChoice {
    /// These of the known jobs.
    Listed(Vec<usize>),
    /// The one of this name.
    Named(String),
    /// None was given.
    Nothing,
}

/// The places of the names that begin with the prefix.
pub open spec fn with_prefix(names: Seq<Seq<char>>, prefix: Option<Seq<char>>, n: int) -> Seq<usize>
    decreases n,
{
    if n <= 0 {
        Seq::empty()
    } else {
        let before = with_prefix(names, prefix, n - 1);
        if prefix matches Some(p) ==> p.is_prefix_of(names[n - 1]) {
            before.push((n - 1) as usize)
        } else {
            before
        }
    }
}

pub fn choose_jobs(all: bool, prefix: &Option<String>, job: &Option<String>, names: &Vec<String>) -> (r: JobChoice)
    ensures
        if all || prefix is Some {
            r matches JobChoice::Listed(v) && v@ == with_prefix(
                texts(names@),
                opt_text(*prefix),
                names@.len() as int,
            )
        } else {
            match *job {
                Some(j) => r matches JobChoice::Named(x) && x@ == j@,
                None => r is Nothing,
            }
        },
{
    if all || prefix.is_some() {
        let ghost ns = texts(names@);
        let mut out: Vec<usize> = Vec::new();
        let mut i: usize = 0;
        while i < names.len()
            invariant
                i <= names@.len(),
                ns == texts(names@),
                out@ == with_prefix(ns, opt_text(*prefix), i as int),
            decreases names@.len() - i,
        {
            let fits = match prefix {
                Some(p) => starts_with(
                    chars_of(names[i].as_str()).as_slice(),
                    chars_of(p.as_str()).as_slice(),
                ),
                None => true,
            };
            assert(ns[i as int] == names@[i as int]@);
            if fits {
                out.push(i);
            }
            i = i + 1;
        }
        return JobChoice::Listed(out);
    }
    match job {
        Some(j) => JobChoice::Named(j.clone()),
        None => JobChoice::Nothing,
    }
}

/// No job was given, or none fits.
pub fn no_job(given: bool) -> (r: Report)
    ensures
        r@ == warned(
            if given {
                "no matching jobs"@
            } else {
                "error: give a job name, or use --all / --prefix <p>"@
            },
            2,
        ),
{
    warn(
        if given {
            "no matching jobs".to_owned()
        } else {
            "error: give a job name, or use --all / --prefix <p>".to_owned()
        },
        2,
    )
}

/// The smallest of the intervals that are set.
pub open spec fn least(intervals: Seq<Option<u64>>) -> Option<u64>
    decreases intervals.len(),
{
    if intervals.len() == 0 {
        None
    } else {
        match (least(intervals.drop_last()), intervals.last()) {
            (Some(a), Some(b)) => Some(
                if b < a {
                    b
                } else {
                    a
                },
            ),
            (Some(a), None) => Some(a),
            (None, b) => b,
        }
    }
}

/// How often a watch looks, in seconds: as told, else as the most impatient job says, else every 30;
/// never without a pause.
pub fn watch_interval(told: Option<u64>, jobs: &Vec<Option<u64>>) -> (r: u64)
    ensures
        ({
            let n = match told {
                Some(n) => n,
                None => match least(jobs@) {
                    Some(n) => n,
                    None => 30,
                },
            };
            r == if n < 1 {
                1
            } else {
                n
            }
        }),
{
    let mut low: Option<u64> = None;
    let mut i: usize = 0;
    assert(jobs@.take(0) =~= Seq::<Option<u64>>::empty());
    while i < jobs.len()
        invariant
            i <= jobs@.len(),
            low == least(jobs@.take(i as int)),
        decreases jobs@.len() - i,
    {
        assert(jobs@.take(i as int + 1).drop_last() =~= jobs@.take(i as int));
        if let Some(b) = jobs[i] {
            low = match low {
                Some(a) => Some(
                    if b < a {
                        b
                    } else {
                        a
                    },
                ),
                None => Some(b),
            };
        }
        i = i + 1;
    }
    assert(jobs@.take(jobs@.len() as int) =~= jobs@);
    let n: u64 = match told {
        Some(n) => n,
        None => match low {
            Some(n) => n,
            None => 30,
        },
    };
    if n < 1 {
        1
    } else {
        n
    }
}

pub fn watch_banner(jobs: usize, interval: u64) -> (r: String)
    ensures
        r@ == "watch: "@ + numeral(jobs as nat) + " job(s), every "@ + numeral(interval as nat)
            + "s — Ctrl-C to stop"@,
{
    let mut s = "watch: ".to_owned();
    s.append(decimal(jobs as u64).as_str());
    s.append(" job(s), every ");
    s.append(decimal(interval).as_str());
    s.append("s — Ctrl-C to stop");
    s
}

/// What a run of a job came to.
#[derive(Clone, Copy, Debug, PartialEq, Eq, Structural)]
pub struct Counts {
    pub done: u64,
    pub skipped: u64,
    pub errors: u64,
    pub conflicts: u64,
}

/// What a watch says of one look: nothing where nothing happened.
pub open spec fn watch_text(name: Seq<char>, outcome: Result<Counts, String>) -> Option<Seq<char>> {
    match outcome {
        Ok(c) => if c.done == 0 && c.errors == 0 && c.conflicts == 0 {
            None
        } else {
            Some(
                "["@ + name + "] watch: "@ + numeral(c.done as nat) + " done, "@ + numeral(
                    c.errors as nat,
                ) + " error(s), "@ + numeral(c.conflicts as nat) + " conflict(s)"@,
            )
        },
        Err(e) => Some("["@ + name + "] watch error: "@ + e@),
    }
}

pub fn watch_line(name: &str, outcome: &Result<Counts, String>) -> (r: Option<String>)
    ensures
        opt_text(r) == watch_text(name@, *outcome),
{
    let mut s = "[".to_owned();
    s.append(name);
    match outcome {
        Ok(c) => {
            if c.done == 0 && c.errors == 0 && c.conflicts == 0 {
                return None;
            }
            s.append("] watch: ");
            s.append(decimal(c.done).as_str());
            s.append(" done, ");
            s.append(decimal(c.errors).as_str());
            s.append(" error(s), ");
            s.append(decimal(c.conflicts).as_str());
            s.append(" conflict(s)");
            Some(s)
        },
        Err(e) => {
            s.append("] watch error: ");
            s.append(e.as_str());
            Some(s)
        },
    }
}

/// What the jobs of a run came to so far.
pub open spec fn tallied(t: Counts, outcome: Result<Counts, String>) -> (int, int, int, int) {
    match outcome {
        Ok(c) => (
            t.done + c.done,
            t.skipped + c.skipped,
            t.errors + c.errors,
            t.conflicts + c.conflicts,
        ),
        Err(_) => (t.done as int, t.skipped as int, t.errors + 1, t.conflicts as int),
    }
}

/// What is printed of one job: its counts if it was applied, and its failure in any case.
pub open spec fn run_text(name: Seq<char>, applied: bool, outcome: Result<Counts, String>) -> ReportModel {
    match outcome {
        Ok(c) => if applied {
            told(
                "["@ + name + "] applied: "@ + numeral(c.done as nat) + " done, "@ + numeral(
                    c.skipped as nat,
                ) + " skipped, "@ + numeral(c.errors as nat) + " error(s), "@ + numeral(
                    c.conflicts as nat,
                ) + " conflict(s)"@,
                0,
            )
        } else {
            ReportModel { out: Seq::empty(), err: Seq::empty(), code: 0 }
        },
        Err(e) => warned("["@ + name + "] FAILED: "@ + e@, 1),
    }
}

impl Counts {
    pub fn zero() -> (r: Counts)
        ensures
            r == (Counts { done: 0, skipped: 0, errors: 0, conflicts: 0 }),
    {
        Counts { done: 0, skipped: 0, errors: 0, conflicts: 0 }
    }

    /// Takes the outcome of one job. A job that failed counts as one error.
    pub fn take(&mut self, name: &str, applied: bool, outcome: &Result<Counts, String>) -> (r: Report)
        requires
            ({
                let t = tallied(*old(self), *outcome);
                t.0 <= u64::MAX && t.1 <= u64::MAX && t.2 <= u64::MAX && t.3 <= u64::MAX
            }),
        ensures
            (
                final(self).done as int,
                final(self).skipped as int,
                final(self).errors as int,
                final(self).conflicts as int,
            ) == tallied(*old(self), *outcome),
            r@ == run_text(name@, applied, *outcome),
    {
        let mut s = "[".to_owned();
        s.append(name);
        match outcome {
            Ok(c) => {
                self.done = self.done + c.done;
                self.skipped = self.skipped + c.skipped;
                self.errors = self.errors + c.errors;
                self.conflicts = self.conflicts + c.conflicts;
                if !applied {
                    let r = Report { out: Vec::new(), err: Vec::new(), code: 0 };
                    assert(r@.out =~= Seq::<Seq<char>>::empty());
                    assert(r@.err =~= Seq::<Seq<char>>::empty());
                    return r;
                }
                s.append("] applied: ");
                s.append(decimal(c.done).as_str());
                s.append(" done, ");
                s.append(decimal(c.skipped).as_str());
                s.append(" skipped, ");
                s.append(decimal(c.errors).as_str());
                s.append(" error(s), ");
                s.append(decimal(c.conflicts).as_str());
                s.append(" conflict(s)");
                tell(s, 0)
            },
            Err(e) => {
                self.errors = self.errors + 1;
                s.append("] FAILED: ");
                s.append(e.as_str());
                warn(s, 1)
            },
        }
    }

    pub open spec fn total_text(self, jobs: nat) -> Seq<char> {
        "== total: "@ + numeral(jobs) + " job(s), "@ + numeral(self.done as nat) + " done, "@ + numeral(
            self.skipped as nat,
        ) + " skipped/pending, "@ + numeral(self.errors as nat) + " error(s), "@ + numeral(
            self.conflicts as nat,
        ) + " conflict(s)"@
    }

    /// The end of a run: a total where there were several jobs, and a code that tells of errors.
    pub fn close(&self, jobs: usize) -> (r: Report)
        ensures
            r@ == (ReportModel {
                out: if jobs > 1 {
                    seq![self.total_text(jobs as nat)]
                } else {
                    Seq::empty()
                },
                err: Seq::empty(),
                code: error_code(self.errors),
            }),
    {
        let mut out: Vec<String> = Vec::new();
        if jobs > 1 {
            let mut s = "== total: ".to_owned();
            s.append(decimal(jobs as u64).as_str());
            s.append(" job(s), ");
            s.append(decimal(self.done).as_str());
            s.append(" done, ");
            s.append(decimal(self.skipped).as_str());
            s.append(" skipped/pending, ");
            s.append(decimal(self.errors).as_str());
            s.append(" error(s), ");
            s.append(decimal(self.conflicts).as_str());
            s.append(" conflict(s)");
            out.push(s);
        }
        let r = Report { out, err: Vec::new(), code: code_of(self.errors) };
        proof {
            if jobs > 1 {
                assert(r@.out =~= seq![self.total_text(jobs as nat)]);
            } else {
                assert(r@.out =~= Seq::<Seq<char>>::empty());
            }
            assert(r@.err =~= Seq::<Seq<char>>::empty());
        }
        r
    }
}

/// The code that a command ends with: 1 where there were errors.
pub open spec fn error_code(errors: u64) -> i32 {
    if errors > 0 {
        1
    } else {
        0
    }
}

pub fn code_of(errors: u64) -> (r: i32)
    ensures
        r == error_code(errors),
{
    if errors > 0 {
        1
    } else {
        0
    }
}

/// A failed job is never taken for a clean run.
pub proof fn a_failed_job_shows_in_the_code(t: Counts, e: String, end: u64)
    requires
        end == tallied(t, Err(e)).2,
    ensures
        error_code(end) == 1,
{
}

/// The preset names that were asked for: without blanks around them and without empty ones, and where
/// `none` may be said, without it.
pub open spec fn wanted(list: Seq<Seq<char>>, none: bool) -> Seq<Seq<char>>
    decreases list.len(),
{
    if list.len() == 0 {
        Seq::empty()
    } else {
        let rest = wanted(list.drop_last(), none);
        let id = trim(list.last());
        if id.len() == 0 || (none && ascii_lowered(id) == "none"@) {
            rest
        } else {
            rest.push(id)
        }
    }
}

pub fn junk_ids(list: &Vec<String>, none: bool) -> (r: Vec<String>)
    ensures
        texts(r@) == wanted(texts(list@), none),
{
    let ghost all = texts(list@);
    let mut out: Vec<String> = Vec::new();
    let mut i: usize = 0;
    let word = chars_of("none");
    assert(all.take(0) =~= Seq::<Seq<char>>::empty());
    assert(texts(out@) =~= Seq::<Seq<char>>::empty());
    while i < list.len()
        invariant
            i <= list@.len(),
            all == texts(list@),
            word@ == "none"@,
            texts(out@) == wanted(all.take(i as int), none),
        decreases list@.len() - i,
    {
        proof {
            assert(all.take(i as int + 1).drop_last() =~= all.take(i as int));
            assert(all.take(i as int + 1).last() == list@[i as int]@);
        }
        let id = trimmed(chars_of(list[i].as_str()).as_slice());
        let low = to_ascii_lower(id.as_slice());
        if !(id.len() == 0 || (none && same_chars(low.as_slice(), word.as_slice()))) {
            let t = text_of(id.as_slice());
            note(&mut out, t);
        }
        i = i + 1;
    }
    assert(all.take(all.len() as int) =~= all);
    out
}

/// The first name that is no preset.
pub open spec fn first_unknown(ids: Seq<Seq<char>>, known: Seq<Seq<char>>) -> Option<Seq<char>>
    decreases ids.len(),
{
    if ids.len() == 0 {
        None
    } else if !known.contains(ids[0]) {
        Some(ids[0])
    } else {
        first_unknown(ids.skip(1), known)
    }
}

fn lists(names: &Vec<String>, name: &str) -> (r: bool)
    ensures
        r == texts(names@).contains(name@),
{
    let ghost all = texts(names@);
    let mut i: usize = 0;
    while i < names.len()
        invariant
            i <= names@.len(),
            all == texts(names@),
            forall|j: int| 0 <= j < i ==> #[trigger] all[j] != name@,
        decreases names@.len() - i,
    {
        if same(names[i].as_str(), name) {
            assert(all[i as int] == name@);
            return true;
        }
        i = i + 1;
    }
    false
}

pub fn unknown_preset(ids: &Vec<String>, known: &Vec<String>) -> (r: Option<String>)
    ensures
        opt_text(r) == first_unknown(texts(ids@), texts(known@)),
{
    let ghost all = texts(ids@);
    let mut i: usize = 0;
    assert(all.skip(0) =~= all);
    while i < ids.len()
        invariant
            i <= ids@.len(),
            all == texts(ids@),
            first_unknown(all, texts(known@)) == first_unknown(all.skip(i as int), texts(known@)),
        decreases ids@.len() - i,
    {
        proof {
            assert(all.skip(i as int)[0] == ids@[i as int]@);
            assert(all.skip(i as int).skip(1) =~= all.skip(i as int + 1));
        }
        if !lists(known, ids[i].as_str()) {
            return Some(ids[i].clone());
        }
        i = i + 1;
    }
    None
}

/// Presets that are not known are refused and never dropped: with `list`, the known ones are named.
pub fn refuse_presets(ids: &Vec<String>, known: &Vec<String>, list: bool) -> (r: Option<Report>)
    ensures
        match first_unknown(texts(ids@), texts(known@)) {
            None => r is None,
            Some(bad) => r matches Some(x) && x@ == warned(
                if list {
                    "error: unknown junk preset '"@ + bad + "' (known: "@ + joined(
                        texts(known@),
                        ", "@,
                    ) + ", or `none`)"@
                } else {
                    "error: unknown junk preset '"@ + bad + "' — run `syncdash junk` for the list"@
                },
                2,
            ),
        },
{
    match unknown_preset(ids, known) {
        None => None,
        Some(bad) => {
            let mut s = "error: unknown junk preset '".to_owned();
            s.append(bad.as_str());
            if list {
                s.append("' (known: ");
                s.append(join_texts(known, ", ").as_str());
                s.append(", or `none`)");
            } else {
                s.append("' — run `syncdash junk` for the list");
            }
            Some(warn(s, 2))
        },
    }
}

/// A preset of what is junk.
pub struct JunkRow {
    pub id: String,
    pub label: String,
    pub hint: String,
    pub default_on: bool,
    pub patterns: Vec<String>,
}

pub open spec fn junk_lines(p: JunkRow) -> Seq<Seq<char>> {
    seq![
        p.id@ + mark_of(p.default_on) + "  ("@ + p.label@ + ")"@,
        "  "@ + p.hint@,
        "  "@ + joined(texts(p.patterns@), "  "@) + "\n"@,
    ]
}

pub open spec fn mark_of(default_on: bool) -> Seq<char> {
    if default_on {
        " [on for new jobs]"@
    } else {
        ""@
    }
}

/// The lines of the first `n` presets.
pub open spec fn junk_list(rows: Seq<JunkRow>, n: int) -> Seq<Seq<char>>
    decreases n,
{
    if n <= 0 {
        Seq::empty()
    } else {
        junk_list(rows, n - 1) + junk_lines(rows[n - 1])
    }
}

/// The patterns of those of the first `n` presets that are asked for.
pub open spec fn asked_patterns(rows: Seq<JunkRow>, ids: Seq<Seq<char>>, n: int) -> Seq<Seq<char>>
    decreases n,
{
    if n <= 0 {
        Seq::empty()
    } else if ids.contains(rows[n - 1].id@) {
        asked_patterns(rows, ids, n - 1) + texts(rows[n - 1].patterns@)
    } else {
        asked_patterns(rows, ids, n - 1)
    }
}

/// The patterns of the presets that are asked for, in the order of the presets.
pub fn patterns_of(rows: &Vec<JunkRow>, ids: &Vec<String>) -> (r: Vec<String>)
    ensures
        texts(r@) == asked_patterns(rows@, texts(ids@), rows@.len() as int),
{
    let mut out: Vec<String> = Vec::new();
    let mut i: usize = 0;
    assert(texts(out@) =~= Seq::<Seq<char>>::empty());
    while i < rows.len()
        invariant
            i <= rows@.len(),
            texts(out@) == asked_patterns(rows@, texts(ids@), i as int),
        decreases rows@.len() - i,
    {
        if lists(ids, rows[i].id.as_str()) {
            let ghost before = texts(out@);
            let patterns = &rows[i].patterns;
            let ghost all = texts(patterns@);
            let mut k: usize = 0;
            assert(before + all.take(0) =~= texts(out@));
            while k < patterns.len()
                invariant
                    k <= patterns@.len(),
                    all == texts(patterns@),
                    texts(out@) == before + all.take(k as int),
                decreases patterns@.len() - k,
            {
                note(&mut out, patterns[k].clone());
                proof {
                    assert(all.take(k as int + 1) =~= all.take(k as int).push(patterns@[k as int]@));
                    assert(texts(out@) =~= before + all.take(k as int + 1));
                }
                k = k + 1;
            }
            assert(all.take(all.len() as int) =~= all);
        }
        i = i + 1;
    }
    out
}

/// The list of the presets.
pub fn junk_report(rows: &Vec<JunkRow>) -> (r: Report)
    ensures
        r@ == (ReportModel {
            out: seq![
                "Junk presets — each one is a macro over a job's `exclude` list, nothing more:\n"@,
            ] + junk_list(rows@, rows@.len() as int) + seq![
                "Apply ad hoc:  syncdash scan <root> --junk windows,macos,dev"@,
                "Paste into a job: syncdash junk --patterns dev"@,
            ],
            err: Seq::empty(),
            code: 0,
        }),
{
    let mut out: Vec<String> = Vec::new();
    out.push(
        "Junk presets — each one is a macro over a job's `exclude` list, nothing more:\n".to_owned(),
    );
    let ghost head = seq![
        "Junk presets — each one is a macro over a job's `exclude` list, nothing more:\n"@,
    ];
    let mut i: usize = 0;
    assert(texts(out@) =~= head + junk_list(rows@, 0));
    while i < rows.len()
        invariant
            i <= rows@.len(),
            texts(out@) == head + junk_list(rows@, i as int),
        decreases rows@.len() - i,
    {
        let p = &rows[i];
        let ghost before = texts(out@);
        let mut a = p.id.clone();
        a.append(
            if p.default_on {
                " [on for new jobs]"
            } else {
                ""
            },
        );
        a.append("  (");
        a.append(p.label.as_str());
        a.append(")");
        let mut b = "  ".to_owned();
        b.append(p.hint.as_str());
        let mut c = "  ".to_owned();
        c.append(join_texts(&p.patterns, "  ").as_str());
        c.append("\n");
        out.push(a);
        out.push(b);
        out.push(c);
        proof {
            assert(texts(out@) =~= before + junk_lines(rows@[i as int]));
            assert(before + junk_lines(rows@[i as int]) =~= head + junk_list(rows@, i + 1));
        }
        i = i + 1;
    }
    let ghost before = texts(out@);
    out.push("Apply ad hoc:  syncdash scan <root> --junk windows,macos,dev".to_owned());
    out.push("Paste into a job: syncdash junk --patterns dev".to_owned());
    let r = Report { out, err: Vec::new(), code: 0 };
    proof {
        assert(r@.out =~= before + seq![
            "Apply ad hoc:  syncdash scan <root> --junk windows,macos,dev"@,
            "Paste into a job: syncdash junk --patterns dev"@,
        ]);
        assert(r@.err =~= Seq::<Seq<char>>::empty());
    }
    r
}

/// What a scan reads and trusts: the preset, what was said over it, and the two older switches last.
pub open spec fn scan_rigor_spec(
    rigor: Seq<char>,
    evidence: Option<Seq<char>>,
    cache: Option<Seq<char>>,
    no_hash: bool,
    fast: bool,
    force_rehash: bool,
) -> RigorResolved {
    let base = preset(rigor).evidence_spec(evidence);
    let told = match cache {
        Some(c) => if c == "on"@ {
            Some(true)
        } else if c == "off"@ {
            Some(false)
        } else {
            None
        },
        None => None,
    };
    RigorResolved {
        hash: base.hash && !no_hash,
        sampled: base.sampled || fast,
        use_cache: (over(told, base.use_cache) || fast) && !force_rehash,
        ..base
    }
}

pub fn scan_rigor(
    rigor: &str,
    evidence: &Option<String>,
    cache: &Option<String>,
    no_hash: bool,
    fast: bool,
    force_rehash: bool,
) -> (r: RigorResolved)
    ensures
        r == scan_rigor_spec(rigor@, opt_text(*evidence), opt_text(*cache), no_hash, fast, force_rehash),
{
    let told = match cache {
        Some(c) => if same(c.as_str(), "on") {
            Some(true)
        } else if same(c.as_str(), "off") {
            Some(false)
        } else {
            None
        },
        None => None,
    };
    let mut r = RigorResolved::from_preset(rigor).with_evidence(evidence).with_cache(
        told,
    ).with_no_hash(no_hash);
    if fast {
        r.sampled = true;
        r.use_cache = true;
    }
    if force_rehash {
        r.use_cache = false;
    }
    r
}

/// How much of the work is through; all of it where there is none.
pub fn percent(done: u64, total: u64) -> (r: u64)
    requires
        done * 100 <= u64::MAX,
    ensures
        r == if total > 0 {
            (done * 100) as nat / total as nat
        } else {
            100
        },
{
    if total > 0 {
        done * 100 / total
    } else {
        100
    }
}

pub fn not_a_directory(root: &str) -> (r: Report)
    ensures
        r@ == warned("error: not a directory: "@ + root@, 2),
{
    let mut s = "error: not a directory: ".to_owned();
    s.append(root);
    warn(s, 2)
}

pub fn scanned_line(entries: u64, millis: u64, root: &str) -> (r: String)
    ensures
        r@ == "scanned "@ + numeral(entries as nat) + " entries in "@ + numeral(millis as nat) + " ms ("@
            + root@ + ")"@,
{
    let mut s = "scanned ".to_owned();
    s.append(decimal(entries).as_str());
    s.append(" entries in ");
    s.append(decimal(millis).as_str());
    s.append(" ms (");
    s.append(root);
    s.append(")");
    s
}

/// The end of a comparison: conflicts show in the code.
pub fn compared(ops: u64, conflicts: u64, source: &str, target: &str) -> (r: Report)
    ensures
        r@ == warned(
            "plan: "@ + numeral(ops as nat) + " op(s), "@ + numeral(conflicts as nat) + " conflict(s)  ["@
                + source@ + " -> "@ + target@ + "]"@,
            error_code(conflicts),
        ),
{
    let mut s = "plan: ".to_owned();
    s.append(decimal(ops).as_str());
    s.append(" op(s), ");
    s.append(decimal(conflicts).as_str());
    s.append(" conflict(s)  [");
    s.append(source);
    s.append(" -> ");
    s.append(target);
    s.append("]");
    warn(s, code_of(conflicts))
}

fn copy_lines(v: &Vec<String>) -> (r: Vec<String>)
    ensures
        texts(r@) == texts(v@),
{
    let mut out: Vec<String> = Vec::new();
    let mut i: usize = 0;
    while i < v.len()
        invariant
            i <= v@.len(),
            out@.len() == i,
            forall|j: int| 0 <= j < i ==> (#[trigger] out@[j])@ == v@[j]@,
        decreases v@.len() - i,
    {
        out.push(v[i].clone());
        i = i + 1;
    }
    assert(texts(out@) =~= texts(v@));
    out
}

pub fn territories_report(found: &Vec<String>, root: &str) -> (r: Report)
    ensures
        r@ == if found@.len() == 0 {
            told("no .ffs-sync territories under "@ + root@, 0)
        } else {
            ReportModel {
                out: texts(found@),
                err: seq![numeral(found@.len()) + " territor(ies)"@],
                code: 0,
            }
        },
{
    if found.len() == 0 {
        let mut s = "no .ffs-sync territories under ".to_owned();
        s.append(root);
        return tell(s, 0);
    }
    let mut s = decimal(found.len() as u64);
    s.append(" territor(ies)");
    let mut err: Vec<String> = Vec::new();
    err.push(s);
    let r = Report { out: copy_lines(found), err, code: 0 };
    assert(r@.err =~= seq![numeral(found@.len()) + " territor(ies)"@]);
    r
}

/// A job that was written, or kept as it was.
pub struct GenRow {
    pub name: String,
    pub territory: String,
    pub written: bool,
}

pub open spec fn gen_line(g: GenRow) -> Seq<char> {
    left(g.name@, 44) + " <- "@ + g.territory@ + (if g.written {
        ""@
    } else {
        "   [kept — already exists]"@
    })
}

pub open spec fn written_of(rows: Seq<GenRow>) -> nat
    decreases rows.len(),
{
    if rows.len() == 0 {
        0
    } else {
        written_of(rows.drop_last()) + if rows.last().written {
            1nat
        } else {
            0
        }
    }
}

pub open spec fn gen_lines(rows: Seq<GenRow>, jobs_dir: Seq<char>, ids: Seq<Seq<char>>, patterns: nat) -> Seq<
    Seq<char>,
> {
    let written = written_of(rows);
    let kept = rows.len() - written;
    let lines = Seq::new(rows.len(), |i: int| gen_line(rows[i])).push(
        numeral(written) + " job(s) written to "@ + jobs_dir + " — each seeded with junk presets ["@ + (
        if ids.len() == 0 {
            "none"@
        } else {
            joined(ids, ", "@)
        }) + "] = "@ + numeral(patterns) + " exclude line(s), all listed in the file"@,
    );
    if kept > 0 {
        lines.push(
            numeral(kept as nat)
                + " existing job(s) left untouched (their exclude lists may have been edited) — pass --force to reseed them"@,
        )
    } else {
        lines
    }
}

/// What became of the jobs that were to be written.
pub fn gen_report(rows: &Vec<GenRow>, jobs_dir: &str, ids: &Vec<String>, patterns: usize) -> (r: Report)
    ensures
        r@ == (ReportModel {
            out: gen_lines(rows@, jobs_dir@, texts(ids@), patterns as nat),
            err: Seq::empty(),
            code: 0,
        }),
{
    let mut out: Vec<String> = Vec::new();
    let mut written: usize = 0;
    let mut i: usize = 0;
    let ghost heads = Seq::new(rows@.len(), |i: int| gen_line(rows@[i]));
    assert(rows@.take(0) =~= Seq::<GenRow>::empty());
    assert(texts(out@) =~= heads.take(0));
    while i < rows.len()
        invariant
            i <= rows@.len(),
            heads == Seq::new(rows@.len(), |i: int| gen_line(rows@[i])),
            texts(out@) == heads.take(i as int),
            written <= i,
            written == written_of(rows@.take(i as int)),
        decreases rows@.len() - i,
    {
        assert(rows@.take(i as int + 1).drop_last() =~= rows@.take(i as int));
        let g = &rows[i];
        let mut s = to_left(g.name.as_str(), 44);
        s.append(" <- ");
        s.append(g.territory.as_str());
        s.append(
            if g.written {
                ""
            } else {
                "   [kept — already exists]"
            },
        );
        if g.written {
            written = written + 1;
        }
        note(&mut out, s);
        assert(heads.take(i as int + 1) =~= heads.take(i as int).push(heads[i as int]));
        i = i + 1;
    }
    proof {
        assert(rows@.take(rows@.len() as int) =~= rows@);
        assert(heads.take(heads.len() as int) =~= heads);
    }
    let mut s = decimal(written as u64);
    s.append(" job(s) written to ");
    s.append(jobs_dir);
    s.append(" — each seeded with junk presets [");
    if ids.len() == 0 {
        s.append("none");
    } else {
        s.append(join_texts(ids, ", ").as_str());
    }
    s.append("] = ");
    s.append(decimal(patterns as u64).as_str());
    s.append(" exclude line(s), all listed in the file");
    note(&mut out, s);
    let kept: usize = rows.len() - written;
    if kept > 0 {
        let mut s = decimal(kept as u64);
        s.append(
            " existing job(s) left untouched (their exclude lists may have been edited) — pass --force to reseed them",
        );
        note(&mut out, s);
    }
    let r = Report { out, err: Vec::new(), code: 0 };
    assert(r@.err =~= Seq::<Seq<char>>::empty());
    r
}

pub fn packed(ops: u64, files: u64, bytes: u64, out: &str) -> (r: Report)
    ensures
        r@ == told(
            "packed: "@ + numeral(ops as nat) + " op(s), "@ + numeral(files as nat) + " payload file(s), "@
                + numeral(bytes as nat) + " bytes -> "@ + out@,
            0,
        ),
{
    let mut s = "packed: ".to_owned();
    s.append(decimal(ops).as_str());
    s.append(" op(s), ");
    s.append(decimal(files).as_str());
    s.append(" payload file(s), ");
    s.append(decimal(bytes).as_str());
    s.append(" bytes -> ");
    s.append(out);
    tell(s, 0)
}

pub fn received(bytes: u64, path: &str) -> (r: Report)
    ensures
        r@ == warned("received "@ + numeral(bytes as nat) + " bytes -> "@ + path@, 0),
{
    let mut s = "received ".to_owned();
    s.append(decimal(bytes).as_str());
    s.append(" bytes -> ");
    s.append(path);
    warn(s, 0)
}

pub fn chunking_failed(rel: &str, error: &str) -> (r: String)
    ensures
        r@ == "warning: chunking "@ + rel@ + " failed: "@ + error@,
{
    let mut s = "warning: chunking ".to_owned();
    s.append(rel);
    s.append(" failed: ");
    s.append(error);
    s
}

/// A version that a root keeps.
pub struct VersionRow {
    pub id: String,
    pub host: String,
    pub ops: u64,
    pub preserved: u64,
    pub bytes: u64,
}

pub open spec fn version_line(v: VersionRow) -> Seq<char> {
    v.id@ + "  "@ + v.host@ + "  ops="@ + numeral(v.ops as nat) + " preserved="@ + numeral(
        v.preserved as nat,
    ) + " bytes="@ + numeral(v.bytes as nat)
}

pub fn pruned_versions(dropped: usize, keep: usize) -> (r: String)
    ensures
        r@ == "pruned "@ + numeral(dropped as nat) + " version(s), kept newest "@ + numeral(keep as nat),
{
    let mut s = "pruned ".to_owned();
    s.append(decimal(dropped as u64).as_str());
    s.append(" version(s), kept newest ");
    s.append(decimal(keep as u64).as_str());
    s
}

pub fn versions_report(list: &Vec<VersionRow>, store: &str) -> (r: Report)
    ensures
        r@ == if list@.len() == 0 {
            told("no versions under "@ + store@, 0)
        } else {
            ReportModel {
                out: Seq::new(list@.len(), |i: int| version_line(list@[i])),
                err: Seq::empty(),
                code: 0,
            }
        },
{
    if list.len() == 0 {
        let mut s = "no versions under ".to_owned();
        s.append(store);
        return tell(s, 0);
    }
    let mut out: Vec<String> = Vec::new();
    let mut i: usize = 0;
    while i < list.len()
        invariant
            i <= list@.len(),
            out@.len() == i,
            forall|j: int| 0 <= j < i ==> (#[trigger] out@[j])@ == version_line(list@[j]),
        decreases list@.len() - i,
    {
        let v = &list[i];
        let mut s = v.id.clone();
        s.append("  ");
        s.append(v.host.as_str());
        s.append("  ops=");
        s.append(decimal(v.ops).as_str());
        s.append(" preserved=");
        s.append(decimal(v.preserved).as_str());
        s.append(" bytes=");
        s.append(decimal(v.bytes).as_str());
        out.push(s);
        i = i + 1;
    }
    let r = Report { out, err: Vec::new(), code: 0 };
    assert(r@.out =~= Seq::new(list@.len(), |i: int| version_line(list@[i])));
    assert(r@.err =~= Seq::<Seq<char>>::empty());
    r
}

/// What came of bringing files back.
pub open spec fn restored_text(applied: bool, restored: u64, skipped: u64, errors: u64) -> Seq<char> {
    (if applied {
        "restore"@
    } else {
        "dry-run (rerun with --apply)"@
    }) + ": "@ + numeral(restored as nat) + " restored, "@ + numeral(skipped as nat) + " skipped, "@
        + numeral(errors as nat) + " error(s)"@
}

pub fn restored(applied: bool, brought: u64, skipped: u64, errors: u64) -> (r: Report)
    ensures
        r@ == told(restored_text(applied, brought, skipped, errors), error_code(errors)),
{
    let mut s = (if applied {
        "restore"
    } else {
        "dry-run (rerun with --apply)"
    }).to_owned();
    s.append(": ");
    s.append(decimal(brought).as_str());
    s.append(" restored, ");
    s.append(decimal(skipped).as_str());
    s.append(" skipped, ");
    s.append(decimal(errors).as_str());
    s.append(" error(s)");
    tell(s, code_of(errors))
}

pub open spec fn applied_word(applied: bool) -> Seq<char> {
    if applied {
        "applied"@
    } else {
        "dry-run"@
    }
}

/// What came of a package, and whether it is removed: only once it was applied without an error.
pub fn package_applied(applied: bool, remove: bool, done: u64, skipped: u64, errors: u64) -> (r: (
    Report,
    bool,
))
    ensures
        r.0@ == told(
            applied_word(applied) + ": "@ + numeral(done as nat) + " done, "@ + numeral(skipped as nat)
                + " skipped, "@ + numeral(errors as nat) + " error(s)"@,
            error_code(errors),
        ),
        r.1 == (remove && errors == 0 && applied),
{
    let mut s = (if applied {
        "applied"
    } else {
        "dry-run"
    }).to_owned();
    s.append(": ");
    s.append(decimal(done).as_str());
    s.append(" done, ");
    s.append(decimal(skipped).as_str());
    s.append(" skipped, ");
    s.append(decimal(errors).as_str());
    s.append(" error(s)");
    (tell(s, code_of(errors)), remove && errors == 0 && applied)
}

/// Whose mark a root carries.
pub struct MarkOwner {
    pub job: String,
    pub host: String,
}

pub open spec fn mark_text(path: Seq<char>, created: bool, owner: Option<MarkOwner>) -> Seq<char> {
    if created {
        "marked: "@ + path
    } else {
        match owner {
            Some(m) => "already marked: "@ + path + "  (job '"@ + m.job@ + "', by "@ + m.host@ + " )"@,
            None => "already marked: "@ + path,
        }
    }
}

pub fn marked(path: &str, created: bool, owner: &Option<MarkOwner>) -> (r: Report)
    ensures
        r@ == (ReportModel {
            out: seq![
                mark_text(path@, created, *owner),
                "set `require_marker = true` in the job to have syncdash refuse to run without it"@,
            ],
            err: Seq::empty(),
            code: 0,
        }),
{
    let mut s = (if created {
        "marked: "
    } else {
        "already marked: "
    }).to_owned();
    s.append(path);
    if !created {
        if let Some(m) = owner {
            s.append("  (job '");
            s.append(m.job.as_str());
            s.append("', by ");
            s.append(m.host.as_str());
            s.append(" )");
        }
    }
    let mut out: Vec<String> = Vec::new();
    out.push(s);
    out.push(
        "set `require_marker = true` in the job to have syncdash refuse to run without it".to_owned(),
    );
    let r = Report { out, err: Vec::new(), code: 0 };
    proof {
        assert(r@.out =~= seq![
            mark_text(path@, created, *owner),
            "set `require_marker = true` in the job to have syncdash refuse to run without it"@,
        ]);
        assert(r@.err =~= Seq::<Seq<char>>::empty());
    }
    r
}

/// A root could not be connected to.
pub fn connect_failed(error: &str) -> (r: Report)
    ensures
        r@ == warned("connect failed: "@ + error@, 1),
{
    let mut s = "connect failed: ".to_owned();
    s.append(error);
    warn(s, 1)
}

/// Under which account a phrase's password is kept; a phrase that has none is refused. `verbose` says
/// how to spell it.
pub fn cred_account(phrase: &str, verbose: bool) -> (r: Result<String, Report>)
    ensures
        match root_of(phrase@) {
            RootModel::Remote(m) => match account_of(m) {
                Some(a) => r matches Ok(x) && x@ == a,
                None => r matches Err(e) && e@ == warned(
                    if verbose {
                        "the phrase names no user — spell it scheme://user@host/... so the credential has an owner"@
                    } else {
                        "the phrase names no user"@
                    },
                    2,
                ),
            },
            _ => r matches Err(e) && e@ == warned(
                if verbose {
                    "not a remote phrase: "@ + phrase@ + " (expected scheme://user@host/...)"@
                } else {
                    "not a remote phrase: "@ + phrase@
                },
                2,
            ),
        },
{
    if let RootSpec::Remote(spec) = parse(phrase) {
        return match account_for(&spec) {
            Some(a) => Ok(a),
            None => Err(
                warn(
                    if verbose {
                        "the phrase names no user — spell it scheme://user@host/... so the credential has an owner".to_owned()
                    } else {
                        "the phrase names no user".to_owned()
                    },
                    2,
                ),
            ),
        };
    }
    let mut s = "not a remote phrase: ".to_owned();
    s.append(phrase);
    if verbose {
        s.append(" (expected scheme://user@host/...)");
    }
    Err(warn(s, 2))
}

/// A password without the line end behind it.
pub open spec fn without_line_end(s: Seq<char>) -> Seq<char>
    decreases s.len(),
{
    if s.len() > 0 && (s.last() == '\r' || s.last() == '\n') {
        without_line_end(s.drop_last())
    } else {
        s
    }
}

/// The password to store; an empty one is refused.
pub fn password_to_store(typed: &str) -> (r: Result<String, Report>)
    ensures
        ({
            let p = without_line_end(typed@);
            if p.len() == 0 {
                r matches Err(e) && e@ == warned("empty password — nothing stored"@, 2)
            } else {
                r matches Ok(x) && x@ == p
            }
        }),
{
    let v = chars_of(typed);
    let mut n: usize = v.len();
    assert(v@.take(n as int) =~= v@);
    while n > 0 && (v[n - 1] == '\r' || v[n - 1] == '\n')
        invariant
            n <= v@.len(),
            without_line_end(v@) == without_line_end(v@.take(n as int)),
        decreases n,
    {
        assert(v@.take(n as int).drop_last() =~= v@.take(n as int - 1));
        n = n - 1;
    }
    let p = slice(v.as_slice(), 0, n);
    assert(p@ =~= v@.take(n as int));
    if p.len() == 0 {
        return Err(warn("empty password — nothing stored".to_owned(), 2));
    }
    Ok(text_of(p.as_slice()))
}

pub fn stored(account: &str) -> (r: Report)
    ensures
        r@ == told("stored in the OS credential store: "@ + account@, 0),
{
    let mut s = "stored in the OS credential store: ".to_owned();
    s.append(account);
    tell(s, 0)
}

pub fn removed(account: &str, was_there: bool) -> (r: Report)
    ensures
        r@ == told(
            if was_there {
                "removed: "@ + account@
            } else {
                "no entry stored for "@ + account@
            },
            0,
        ),
{
    let mut s = (if was_there {
        "removed: "
    } else {
        "no entry stored for "
    }).to_owned();
    s.append(account);
    tell(s, 0)
}

pub fn accounts_report(accounts: &Vec<String>) -> (r: Report)
    ensures
        r@ == if accounts@.len() == 0 {
            told(
                "no stored credentials (add one with: syncdash cred set \"smb://user@host/share\")"@,
                0,
            )
        } else {
            ReportModel { out: texts(accounts@), err: Seq::empty(), code: 0 }
        },
{
    if accounts.len() == 0 {
        return tell(
            "no stored credentials (add one with: syncdash cred set \"smb://user@host/share\")".to_owned(),
            0,
        );
    }
    let r = Report { out: copy_lines(accounts), err: Vec::new(), code: 0 };
    assert(r@.err =~= Seq::<Seq<char>>::empty());
    r
}

pub open spec fn caps_text(protocol: Seq<char>, precision: u32, streams: usize) -> Seq<char> {
    "  protocol "@ + protocol + ", mtime precision "@ + numeral(precision as nat) + " ms, up to "@
        + numeral(streams as nat) + " parallel stream(s)"@
}

/// A root that was connected to.
pub fn connected(display: &str, info: &Option<String>, protocol: &str, precision: u32, streams: usize) -> (r: Report)
    ensures
        r@ == (ReportModel {
            out: match *info {
                Some(t) => seq![
                    "connected: "@ + display@,
                    "  "@ + t@,
                    caps_text(protocol@, precision, streams),
                ],
                None => seq!["connected: "@ + display@, caps_text(protocol@, precision, streams)],
            },
            err: Seq::empty(),
            code: 0,
        }),
{
    let mut out: Vec<String> = Vec::new();
    let mut s = "connected: ".to_owned();
    s.append(display);
    out.push(s);
    if let Some(t) = info {
        let mut s = "  ".to_owned();
        s.append(t.as_str());
        out.push(s);
    }
    let mut s = "  protocol ".to_owned();
    s.append(protocol);
    s.append(", mtime precision ");
    s.append(decimal(precision as u64).as_str());
    s.append(" ms, up to ");
    s.append(decimal(streams as u64).as_str());
    s.append(" parallel stream(s)");
    out.push(s);
    let r = Report { out, err: Vec::new(), code: 0 };
    proof {
        assert(r@.err =~= Seq::<Seq<char>>::empty());
        match info {
            Some(t) => {
                assert(r@.out =~= seq![
                    "connected: "@ + display@,
                    "  "@ + t@,
                    caps_text(protocol@, precision, streams),
                ]);
            },
            None => {
                assert(r@.out =~= seq![
                    "connected: "@ + display@,
                    caps_text(protocol@, precision, streams),
                ]);
            },
        }
    }
    r
}

/// A batch in the trash.
pub struct TrashRow {
    pub id: String,
    pub files: u64,
    pub bytes: u64,
}

pub open spec fn trash_line(t: TrashRow) -> Seq<char> {
    left(t.id@, 16) + " "@ + right(numeral(t.files as nat), 7) + " files  "@ + right(
        bytes_text(t.bytes as nat),
        10,
    )
}

pub open spec fn trash_bytes(rows: Seq<TrashRow>) -> nat
    decreases rows.len(),
{
    if rows.len() == 0 {
        0
    } else {
        trash_bytes(rows.drop_last()) + rows.last().bytes as nat
    }
}

proof fn lemma_trash_bytes(rows: Seq<TrashRow>, k: int)
    requires
        0 <= k <= rows.len(),
    ensures
        trash_bytes(rows.take(k)) <= trash_bytes(rows),
    decreases rows.len() - k,
{
    if k < rows.len() {
        assert(rows.take(k + 1).drop_last() =~= rows.take(k));
        lemma_trash_bytes(rows, k + 1);
    } else {
        assert(rows.take(k) =~= rows);
    }
}

pub fn trash_report(rows: &Vec<TrashRow>, trash_root: &str) -> (r: Report)
    requires
        trash_bytes(rows@) <= u64::MAX,
    ensures
        r@ == if rows@.len() == 0 {
            told("no trash runs under "@ + trash_root@, 0)
        } else {
            ReportModel {
                out: Seq::new(rows@.len(), |i: int| trash_line(rows@[i])).push(
                    "== "@ + numeral(rows@.len()) + " run(s), "@ + bytes_text(trash_bytes(rows@))
                        + " total"@,
                ),
                err: Seq::empty(),
                code: 0,
            }
        },
{
    if rows.len() == 0 {
        let mut s = "no trash runs under ".to_owned();
        s.append(trash_root);
        return tell(s, 0);
    }
    let mut out: Vec<String> = Vec::new();
    let mut total: u64 = 0;
    let mut i: usize = 0;
    assert(rows@.take(0) =~= Seq::<TrashRow>::empty());
    while i < rows.len()
        invariant
            i <= rows@.len(),
            trash_bytes(rows@) <= u64::MAX,
            total == trash_bytes(rows@.take(i as int)),
            out@.len() == i,
            forall|j: int| 0 <= j < i ==> (#[trigger] out@[j])@ == trash_line(rows@[j]),
        decreases rows@.len() - i,
    {
        proof {
            assert(rows@.take(i as int + 1).drop_last() =~= rows@.take(i as int));
            lemma_trash_bytes(rows@, i as int + 1);
        }
        let t = &rows[i];
        let mut s = to_left(t.id.as_str(), 16);
        s.append(" ");
        s.append(to_right(decimal(t.files).as_str(), 7).as_str());
        s.append(" files  ");
        s.append(to_right(human_bytes(t.bytes).as_str(), 10).as_str());
        out.push(s);
        total = total + t.bytes;
        i = i + 1;
    }
    assert(rows@.take(rows@.len() as int) =~= rows@);
    let ghost lines = Seq::new(rows@.len(), |i: int| trash_line(rows@[i]));
    assert(texts(out@) =~= lines);
    let mut s = "== ".to_owned();
    s.append(decimal(rows.len() as u64).as_str());
    s.append(" run(s), ");
    s.append(human_bytes(total).as_str());
    s.append(" total");
    note(&mut out, s);
    let r = Report { out, err: Vec::new(), code: 0 };
    assert(r@.err =~= Seq::<Seq<char>>::empty());
    r
}

/// A file that was found in the trash.
pub struct TrashHit {
    pub run_id: String,
    pub size: u64,
    pub rel: String,
}

pub open spec fn hit_line(h: TrashHit) -> Seq<char> {
    left(h.run_id@, 16) + " "@ + right(bytes_text(h.size as nat), 10) + "  "@ + h.rel@
}

pub fn hits_report(hits: &Vec<TrashHit>) -> (r: Report)
    ensures
        r@ == (ReportModel {
            out: Seq::new(hits@.len(), |i: int| hit_line(hits@[i])).push(
                numeral(hits@.len()) + " version(s)"@,
            ),
            err: Seq::empty(),
            code: 0,
        }),
{
    let mut out: Vec<String> = Vec::new();
    let mut i: usize = 0;
    while i < hits.len()
        invariant
            i <= hits@.len(),
            out@.len() == i,
            forall|j: int| 0 <= j < i ==> (#[trigger] out@[j])@ == hit_line(hits@[j]),
        decreases hits@.len() - i,
    {
        let h = &hits[i];
        let mut s = to_left(h.run_id.as_str(), 16);
        s.append(" ");
        s.append(to_right(human_bytes(h.size).as_str(), 10).as_str());
        s.append("  ");
        s.append(h.rel.as_str());
        out.push(s);
        i = i + 1;
    }
    assert(texts(out@) =~= Seq::new(hits@.len(), |i: int| hit_line(hits@[i])));
    let mut s = decimal(hits.len() as u64);
    s.append(" version(s)");
    note(&mut out, s);
    let r = Report { out, err: Vec::new(), code: 0 };
    assert(r@.err =~= Seq::<Seq<char>>::empty());
    r
}

/// What is kept in the trash.
#[derive(Clone, Copy, Debug, PartialEq, Eq, Structural)]
pub struct Retention {
    pub keep_days: i64,
    pub max_bytes: u64,
    pub staggered: bool,
}

/// The retention that the options of a pruning ask for.
pub fn retention(keep_days: i64, max_gib: u64, no_staggered: bool) -> (r: Retention)
    requires
        max_gib * 0x4000_0000 <= u64::MAX,
    ensures
        r == (Retention {
            keep_days,
            max_bytes: (max_gib * 0x4000_0000) as u64,
            staggered: !no_staggered,
        }),
{
    Retention { keep_days, max_bytes: max_gib * 0x4000_0000, staggered: !no_staggered }
}

pub fn trash_pruned(applied: bool, runs: u64, freed: u64) -> (r: Report)
    ensures
        r@ == told(
            (if applied {
                "pruned"@
            } else {
                "dry-run (rerun with --apply)"@
            }) + ": "@ + numeral(runs as nat) + " run(s), "@ + bytes_text(freed as nat) + " freed"@,
            0,
        ),
{
    let mut s = (if applied {
        "pruned"
    } else {
        "dry-run (rerun with --apply)"
    }).to_owned();
    s.append(": ");
    s.append(decimal(runs).as_str());
    s.append(" run(s), ");
    s.append(human_bytes(freed).as_str());
    s.append(" freed");
    tell(s, 0)
}

/// The root that counts: the one that was given, else the plan's own.
pub fn root_or(given: &Option<String>, planned: &str) -> (r: String)
    ensures
        r@ == (match *given {
            Some(g) => g@,
            None => planned@,
        }),
{
    match given {
        Some(g) => g.clone(),
        None => planned.to_owned(),
    }
}

/// A plan is applied only where both roots can be reached from here; the source is looked at first.
pub fn unreachable_root(source: &str, source_ok: bool, target: &str, target_ok: bool) -> (r: Option<Report>)
    ensures
        match r {
            None => source_ok && target_ok,
            Some(x) => !(source_ok && target_ok) && x@ == warned(
                "error: "@ + (if !source_ok {
                    "source"@
                } else {
                    "target"@
                }) + " root not accessible locally: "@ + (if !source_ok {
                    source@
                } else {
                    target@
                }) + " (remote package mode lands in v0.4)"@,
                2,
            ),
        },
{
    if source_ok && target_ok {
        return None;
    }
    let mut s = "error: ".to_owned();
    s.append(
        if !source_ok {
            "source"
        } else {
            "target"
        },
    );
    s.append(" root not accessible locally: ");
    s.append(
        if !source_ok {
            source
        } else {
            target
        },
    );
    s.append(" (remote package mode lands in v0.4)");
    Some(warn(s, 2))
}

/// How a plan is applied from the command line: nothing is touched unless told so.
pub fn apply_options(
    apply: bool,
    trash: Option<String>,
    verify: bool,
    versioning: bool,
    delta: bool,
    no_fsync: bool,
    verbose: bool,
) -> (r: ApplyOptions)
    ensures
        r.dry_run == !apply,
        r.trash == trash,
        r.verify == verify,
        r.versioning == versioning,
        r.delta == delta,
        r.fsync == !no_fsync,
        r.verbose == verbose,
        r.filter is None,
{
    ApplyOptions {
        dry_run: !apply,
        trash,
        verbose,
        verify,
        versioning,
        fsync: !no_fsync,
        filter: None,
        delta,
    }
}

pub fn plan_applied(applied: bool, done: u64, skipped: u64, errors: u64) -> (r: Report)
    ensures
        r@ == told(
            applied_word(applied) + ": "@ + numeral(done as nat) + " done, "@ + numeral(skipped as nat)
                + " "@ + (if applied {
                "skipped"@
            } else {
                "pending (rerun with --apply)"@
            }) + ", "@ + numeral(errors as nat) + " error(s)"@,
            error_code(errors),
        ),
{
    let mut s = (if applied {
        "applied"
    } else {
        "dry-run"
    }).to_owned();
    s.append(": ");
    s.append(decimal(done).as_str());
    s.append(" done, ");
    s.append(decimal(skipped).as_str());
    s.append(" ");
    s.append(
        if applied {
            "skipped"
        } else {
            "pending (rerun with --apply)"
        },
    );
    s.append(", ");
    s.append(decimal(errors).as_str());
    s.append(" error(s)");
    tell(s, code_of(errors))
}

/// A run takes all jobs whose name begins with the prefix, and no other, each once and in the order of the
/// list; without a prefix it takes them all.
pub proof fn a_run_takes_the_jobs_of_the_prefix(names: Seq<Seq<char>>, prefix: Option<Seq<char>>, n: int)
    requires
        0 <= n <= names.len() <= usize::MAX,
    ensures
        forall|i: int|
            0 <= i < n ==> (#[trigger] with_prefix(names, prefix, n).contains(i as usize) <==> (match prefix {
                Some(p) => names[i].len() >= p.len() && forall|k: int|
                    0 <= k < p.len() ==> #[trigger] names[i][k] == p[k],
                None => true,
            })),
        forall|k: int| 0 <= k < with_prefix(names, prefix, n).len() ==> #[trigger] with_prefix(names, prefix, n)[k] < n,
        forall|k: int, l: int|
            0 <= k < l < with_prefix(names, prefix, n).len() ==> (#[trigger] with_prefix(names, prefix, n)[k]) < (
            #[trigger] with_prefix(names, prefix, n)[l]),
    decreases n,
{
    if n > 0 {
        a_run_takes_the_jobs_of_the_prefix(names, prefix, n - 1);
        let before = with_prefix(names, prefix, n - 1);
        let now = with_prefix(names, prefix, n);
        assert forall|i: int| 0 <= i < n implies (#[trigger] now.contains(i as usize) <==> (match prefix {
            Some(p) => names[i].len() >= p.len() && forall|k: int|
                0 <= k < p.len() ==> #[trigger] names[i][k] == p[k],
            None => true,
        })) by {
            if let Some(p) = prefix {
                if p.is_prefix_of(names[i]) {
                    assert forall|k: int| 0 <= k < p.len() implies #[trigger] names[i][k] == p[k] by {
                        assert(names[i].take(p.len() as int)[k] == p[k]);
                    }
                } else if names[i].len() >= p.len() && forall|k: int|
                    0 <= k < p.len() ==> #[trigger] names[i][k] == p[k] {
                    assert(names[i].take(p.len() as int) =~= p);
                }
            }
            if i < n - 1 {
                if before.contains(i as usize) {
                    let k = choose|k: int| 0 <= k < before.len() && before[k] == i as usize;
                    assert(now[k] == i as usize);
                }
                if now.contains(i as usize) {
                    let k = choose|k: int| 0 <= k < now.len() && now[k] == i as usize;
                    assert(k < before.len());
                    assert(before[k] == i as usize);
                }
            } else {
                if now.len() > before.len() {
                    assert(now[before.len() as int] == i as usize);
                } else if now.contains(i as usize) {
                    let k = choose|k: int| 0 <= k < now.len() && now[k] == i as usize;
                    assert(before[k] < n - 1);
                }
            }
        }
    }
}

/// The most impatient job decides how often a watch looks; jobs that do not say are not asked.
pub proof fn the_most_impatient_job_decides(intervals: Seq<Option<u64>>)
    ensures
        least(intervals) is None <==> forall|i: int|
            0 <= i < intervals.len() ==> #[trigger] intervals[i] is None,
        least(intervals) matches Some(n) ==> intervals.contains(Some(n)),
        forall|i: int|
            0 <= i < intervals.len() && (#[trigger] intervals[i]) is Some ==> least(intervals)->Some_0
                <= intervals[i]->Some_0,
    decreases intervals.len(),
{
    if intervals.len() > 0 {
        let less = intervals.drop_last();
        the_most_impatient_job_decides(less);
        let last = intervals[intervals.len() - 1];
        assert forall|i: int| 0 <= i < intervals.len() && (#[trigger] intervals[i]) is Some implies least(
            intervals,
        ) is Some && least(intervals)->Some_0 <= intervals[i]->Some_0 by {
            if i < less.len() {
                assert(less[i] == intervals[i]);
            }
        }
        if let Some(n) = least(intervals) {
            if less.contains(Some(n)) {
                let k = choose|k: int| 0 <= k < less.len() && less[k] == Some(n);
                assert(intervals[k] == Some(n));
            } else {
                assert(last == Some(n));
            }
        }
    }
}

/// The jobs of a run may end in any order, a failed one counts as one error and nothing else, and the code
/// tells of errors and of nothing else.
pub proof fn every_outcome_is_counted_once(t: Counts, c: Counts, e: String, errors: u64)
    ensures
        tallied(t, Ok(c)) == tallied(c, Ok(t)),
        tallied(t, Ok(c)).0 - t.done == c.done,
        tallied(t, Ok(c)).1 - t.skipped == c.skipped,
        tallied(t, Ok(c)).2 - t.errors == c.errors,
        tallied(t, Ok(c)).3 - t.conflicts == c.conflicts,
        tallied(t, Err(e)) == tallied(t, Ok(Counts { done: 0, skipped: 0, errors: 1, conflicts: 0 })),
        error_code(errors) == 0 <==> errors == 0,
        0 <= error_code(errors) <= 1,
{
}

/// A watch keeps quiet exactly where nothing was done, nothing failed and nothing is in conflict.
pub proof fn a_watch_tells_of_whatever_happened(name: Seq<char>, c: Counts, e: String)
    ensures
        watch_text(name, Ok(c)) is None <==> c.done + c.errors + c.conflicts == 0,
        watch_text(name, Err(e)) is Some,
{
}

/// The presets that are wanted are those that were named, trimmed: blank ones and, where it may be said,
/// `none` do not count.
pub proof fn what_is_named_is_wanted(list: Seq<Seq<char>>, none: bool, id: Seq<char>)
    ensures
        wanted(list, none).contains(id) <==> {
            &&& id.len() > 0
            &&& !(none && ascii_lowered(id) == "none"@)
            &&& exists|i: int| 0 <= i < list.len() && trim(#[trigger] list[i]) == id
        },
    decreases list.len(),
{
    let now = wanted(list, none);
    if list.len() > 0 {
        let less = list.drop_last();
        let rest = wanted(less, none);
        what_is_named_is_wanted(less, none, id);
        let at = list.len() - 1;
        if rest.contains(id) {
            let k = choose|k: int| 0 <= k < rest.len() && rest[k] == id;
            assert(now[k] == id);
            let i = choose|i: int| 0 <= i < less.len() && trim(#[trigger] less[i]) == id;
            assert(trim(list[i]) == id);
        }
        if now.contains(id) && !rest.contains(id) {
            let k = choose|k: int| 0 <= k < now.len() && now[k] == id;
            if k < rest.len() {
                assert(rest[k] == id);
            }
            assert(trim(list[at]) == id);
        }
        if id.len() > 0 && !(none && ascii_lowered(id) == "none"@) && exists|i: int|
            0 <= i < list.len() && trim(#[trigger] list[i]) == id {
            let i = choose|i: int| 0 <= i < list.len() && trim(#[trigger] list[i]) == id;
            if i < at {
                assert(trim(less[i]) == id);
            } else {
                assert(now[rest.len() as int] == id);
            }
        }
    }
}

/// A preset is refused exactly where one is not known, and it is the first such one that is named.
pub proof fn the_first_unknown_preset_is_named(ids: Seq<Seq<char>>, known: Seq<Seq<char>>)
    ensures
        first_unknown(ids, known) is None <==> forall|i: int|
            0 <= i < ids.len() ==> known.contains(#[trigger] ids[i]),
        first_unknown(ids, known) matches Some(bad) ==> !known.contains(bad) && exists|i: int|
            0 <= i < ids.len() && #[trigger] ids[i] == bad && forall|k: int|
                0 <= k < i ==> known.contains(#[trigger] ids[k]),
    decreases ids.len(),
{
    if ids.len() > 0 {
        let more = ids.skip(1);
        the_first_unknown_preset_is_named(more, known);
        if known.contains(ids[0]) {
            if first_unknown(ids, known) is None {
                assert forall|i: int| 0 <= i < ids.len() implies known.contains(#[trigger] ids[i]) by {
                    if i > 0 {
                        assert(more[i - 1] == ids[i]);
                    }
                }
            } else {
                let bad = first_unknown(ids, known)->Some_0;
                let i = choose|i: int|
                    0 <= i < more.len() && #[trigger] more[i] == bad && forall|k: int|
                        0 <= k < i ==> known.contains(#[trigger] more[k]);
                assert(ids[i + 1] == bad);
                assert forall|k: int| 0 <= k < i + 1 implies known.contains(#[trigger] ids[k]) by {
                    if k > 0 {
                        assert(more[k - 1] == ids[k]);
                    }
                }
            }
        }
    }
}

/// A pattern is given out exactly where one of the presets that were asked for holds it.
pub proof fn patterns_come_from_the_presets_asked_for(
    rows: Seq<JunkRow>,
    ids: Seq<Seq<char>>,
    n: int,
    pattern: Seq<char>,
)
    requires
        0 <= n <= rows.len(),
    ensures
        asked_patterns(rows, ids, n).contains(pattern) <==> exists|i: int|
            0 <= i < n && ids.contains((#[trigger] rows[i]).id@) && texts(rows[i].patterns@).contains(pattern),
    decreases n,
{
    if n > 0 {
        patterns_come_from_the_presets_asked_for(rows, ids, n - 1, pattern);
        let before = asked_patterns(rows, ids, n - 1);
        let own = texts(rows[n - 1].patterns@);
        let now = asked_patterns(rows, ids, n);
        if ids.contains(rows[n - 1].id@) {
            assert(now == before + own);
            if before.contains(pattern) {
                let k = choose|k: int| 0 <= k < before.len() && before[k] == pattern;
                assert(now[k] == pattern);
            }
            if own.contains(pattern) {
                let k = choose|k: int| 0 <= k < own.len() && own[k] == pattern;
                assert(now[before.len() + k] == pattern);
            }
            if now.contains(pattern) && !before.contains(pattern) {
                let k = choose|k: int| 0 <= k < now.len() && now[k] == pattern;
                if k < before.len() {
                    assert(before[k] == pattern);
                }
                assert(own[k - before.len()] == pattern);
            }
        }
    }
}

/// The switches of a scan beat what was said before them: nothing is hashed where that was ruled out,
/// nothing stored is trusted where all is to be read anew, and a quick scan samples. What no switch speaks
/// of is as the preset has it.
pub proof fn switches_of_a_scan_come_last(
    rigor: Seq<char>,
    evidence: Option<Seq<char>>,
    cache: Option<Seq<char>>,
    no_hash: bool,
    fast: bool,
    force_rehash: bool,
)
    ensures
        ({
            let r = scan_rigor_spec(rigor, evidence, cache, no_hash, fast, force_rehash);
            let plain = scan_rigor_spec(rigor, evidence, cache, false, false, false);
            &&& no_hash ==> !r.hash
            &&& !no_hash ==> r.hash == plain.hash
            &&& force_rehash ==> !r.use_cache
            &&& fast ==> r.sampled
            &&& fast && !force_rehash ==> r.use_cache
            &&& !fast ==> r.sampled == plain.sampled
            &&& !fast && !force_rehash ==> r.use_cache == plain.use_cache
            &&& !fast && !force_rehash && cache == Some("on"@) ==> r.use_cache
            &&& cache == Some("off"@) && !fast ==> !r.use_cache
            &&& evidence is None && cache is None ==> plain == preset(rigor)
        }),
{
    reveal_strlit("on");
    reveal_strlit("off");
    assert("on"@.len() != "off"@.len());
}

/// Every job is either written or kept, and each is counted once.
pub proof fn jobs_are_written_or_kept(rows: Seq<GenRow>, more: GenRow)
    ensures
        written_of(rows) <= rows.len(),
        written_of(rows) == rows.len() <==> forall|i: int|
            0 <= i < rows.len() ==> (#[trigger] rows[i]).written,
        written_of(rows) == 0 <==> forall|i: int| 0 <= i < rows.len() ==> !(#[trigger] rows[i]).written,
        more.written ==> written_of(rows.push(more)) == written_of(rows) + 1,
        !more.written ==> written_of(rows.push(more)) == written_of(rows),
    decreases rows.len(),
{
    assert(rows.push(more).drop_last() =~= rows);
    if rows.len() > 0 {
        let less = rows.drop_last();
        jobs_are_written_or_kept(less, more);
        assert(forall|i: int| 0 <= i < less.len() ==> less[i] == #[trigger] rows[i]);
        assert(rows[rows.len() - 1] == rows.last());
        if forall|i: int| 0 <= i < rows.len() ==> (#[trigger] rows[i]).written {
            assert forall|i: int| 0 <= i < less.len() implies (#[trigger] less[i]).written by {
                assert(less[i] == rows[i]);
            }
        }
        if forall|i: int| 0 <= i < rows.len() ==> !(#[trigger] rows[i]).written {
            assert forall|i: int| 0 <= i < less.len() implies !(#[trigger] less[i]).written by {
                assert(less[i] == rows[i]);
            }
        }
    }
}

/// The total of the trash is the sum of its runs.
pub proof fn the_trash_weighs_what_its_runs_do(rows: Seq<TrashRow>, more: TrashRow)
    ensures
        trash_bytes(Seq::empty()) == 0,
        trash_bytes(rows.push(more)) == trash_bytes(rows) + more.bytes,
        forall|i: int| 0 <= i < rows.len() ==> (#[trigger] rows[i]).bytes <= trash_bytes(rows),
    decreases rows.len(),
{
    assert(rows.push(more).drop_last() =~= rows);
    if rows.len() > 0 {
        let less = rows.drop_last();
        the_trash_weighs_what_its_runs_do(less, more);
        assert forall|i: int| 0 <= i < rows.len() implies (#[trigger] rows[i]).bytes <= trash_bytes(rows) by {
            if i < less.len() {
                assert(less[i] == rows[i]);
            }
        }
    }
}

/// Of a password only the line end behind it is taken off, and all of that.
pub proof fn only_the_line_end_is_taken_off(s: Seq<char>)
    ensures
        without_line_end(s).is_prefix_of(s),
        forall|i: int|
            without_line_end(s).len() <= i < s.len() ==> #[trigger] s[i] == '\r' || s[i] == '\n',
        without_line_end(s).len() > 0 ==> without_line_end(s).last() != '\r' && without_line_end(s).last()
            != '\n',
    decreases s.len(),
{
    let p = without_line_end(s);
    if s.len() > 0 && (s.last() == '\r' || s.last() == '\n') {
        let less = s.drop_last();
        only_the_line_end_is_taken_off(less);
        assert(s.take(p.len() as int) =~= less.take(p.len() as int));
        assert forall|i: int| p.len() <= i < s.len() implies #[trigger] s[i] == '\r' || s[i] == '\n' by {
            if i < less.len() {
                assert(less[i] == s[i]);
            }
        }
    } else {
        assert(s.take(s.len() as int) =~= s);
    }
}

/// A column is at least as wide as it is to be, and holds the whole text and nothing but blanks beside it.
pub proof fn columns_hold_the_whole_text(s: Seq<char>, width: nat)
    ensures
        left(s, width as int).len() == right(s, width as int).len(),
        left(s, width as int).len() == if s.len() < width {
            width
        } else {
            s.len()
        },
        left(s, width as int).take(s.len() as int) == s,
        right(s, width as int).skip(right(s, width as int).len() - s.len()) == s,
        forall|i: int| s.len() <= i < left(s, width as int).len() ==> #[trigger] left(s, width as int)[i] == ' ',
        forall|i: int|
            0 <= i < right(s, width as int).len() - s.len() ==> #[trigger] right(s, width as int)[i] == ' ',
{
    assert(left(s, width as int).take(s.len() as int) =~= s);
    assert(right(s, width as int).skip(right(s, width as int).len() - s.len()) =~= s);
}

} // verus!
