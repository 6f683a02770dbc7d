//! Jobs, commands, the window, and content.
use syncdash::bytes::patch;
use syncdash::chunk::{chunk_bytes, chunk_content, delta_pays, hash_chunks, plan_chunks, plan_delta, AVG_CHUNK, DELTA_MIN_SIZE, MAX_CHUNK, MIN_CHUNK};
use syncdash::cli::args::{Cli, Cmd, LogsCmd, Mode};
use syncdash::cli::logs::{age, ask, run_logs, LogsAnswer, LogsAsk, RunRow};
use syncdash::cli::{
    accounts_report, apply_options, choose_jobs, code_of, cred_account, jobs_report, junk_ids,
    password_to_store, patterns_of, percent, plan_applied, refuse_presets, retention, root_or, scan_rigor, start,
    trash_report, unknown_preset, unreachable_root, watch_interval, watch_line, Counts, JobChoice,
    JobRow, JunkRow, Start, TrashRow,
};
use syncdash::compare::{Action, Op, Plan, PlanHeader, Side};
use syncdash::config::{job_file, job_order, locate_job, ConflictPolicy, Job, RigorResolved};
use syncdash::gui::{action_badge, default_checked, human_size, selected_bytes, selected_ops, Panel, Phase};
use syncdash::order::{stable_sort, text_before};

fn texts(v: &[&str]) -> Vec<String> {
    v.iter().map(|s| s.to_string()).collect()
}

fn job(rigor: &str) -> Job {
    Job { rigor: rigor.into(), ..Default::default() }
}

#[test]
fn presets_map_to_expected_knobs() {
    let q = job("quick").rigor_resolved();
    assert!(!q.hash && !q.use_cache && !q.verify_writes);
    let f = job("fast").rigor_resolved();
    assert!(f.hash && f.sampled && f.use_cache && f.escalate && !f.verify_writes);
    let s = job("standard").rigor_resolved();
    assert!(s.hash && s.sampled && !s.use_cache && s.escalate && s.verify_writes);
    let p = job("paranoid").rigor_resolved();
    assert!(p.hash && !p.sampled && !p.use_cache && p.verify_writes);
}

#[test]
fn detail_overrides_beat_preset() {
    let mut j = job("fast");
    j.evidence = Some("full".into());
    j.use_cache = Some(false);
    j.verify_writes = Some(true);
    let r = j.rigor_resolved();
    assert!(r.hash && !r.sampled && !r.use_cache && r.verify_writes);
    let mut c = job("custom");
    c.evidence = Some("none".into());
    let rc = c.rigor_resolved();
    assert!(!rc.hash);
    assert!(rc.verify_writes, "custom base inherits standard verify");
    let mut n = job("paranoid");
    n.no_hash = true;
    assert!(!n.rigor_resolved().hash);
}

#[test]
fn a_job_has_one_target_or_many() {
    let mut j = job("standard");
    j.target = "/one".into();
    assert_eq!(j.target_list(), texts(&["/one"]));
    j.targets = texts(&["/a", "/b"]);
    assert_eq!(j.target_list(), texts(&["/a", "/b"]));
    j.mode = "mirror".into();
    assert!(j.validate_multi_target().is_ok());
    j.mode = "sync".into();
    assert!(j.validate_multi_target().is_err());
    let one = j.for_target("/b");
    assert_eq!(one.target, "/b");
    assert!(one.targets.is_empty());
}

#[test]
fn a_job_sets_its_options() {
    let mut j = job("standard");
    assert_eq!(j.parallel_width(), 4);
    j.parallel = Some(0);
    assert_eq!(j.parallel_width(), 1);
    j.parallel = Some(99);
    assert_eq!(j.parallel_width(), 16);
    j.on_conflict = "newer".into();
    assert_eq!(j.conflict_policy(), ConflictPolicy::Newer);
    j.case_sensitive = true;
    assert!(!j.compare_opts().case_insensitive);
    let o = j.apply_opts(Some("/trash".to_string()), true);
    assert_eq!(o.trash.as_deref(), Some("/trash"));
    assert!(o.verbose && o.verify);
}

#[test]
fn jobs_are_found_and_sorted_by_name() {
    assert_eq!(job_file("/jobs", false, "a"), "/jobs/a.toml");
    assert_eq!(locate_job("x", false, "/jobs/x.toml", true).unwrap(), "/jobs/x.toml");
    let e = locate_job("x", false, "/jobs/x.toml", false).unwrap_err();
    assert_eq!(e.message, "job not found: x (looked at /jobs/x.toml)");
    assert_eq!(job_order(&texts(&["b", "a", "c", "a"])), vec![1, 3, 0, 2]);
}

#[test]
fn sorting_is_stable_and_by_code_point() {
    assert_eq!(stable_sort(&vec![vec![2], vec![1, 5], vec![1], vec![2]]), vec![2, 1, 0, 3]);
    for (a, b) in [("a", "b"), ("a", "ab"), ("Z", "a"), ("é", "漢"), ("", "a")] {
        assert!(text_before(a, b) && !text_before(b, a));
        assert!(a < b);
    }
}

#[test]
fn rigor_comes_from_the_command_line() {
    let r = scan_rigor("paranoid", &None, &None, false, false, false);
    assert!(r.hash && !r.sampled);
    let r = scan_rigor("paranoid", &None, &None, true, false, false);
    assert!(!r.hash);
    let base = RigorResolved::from_preset("standard");
    assert!(base.with_cache(Some(true)).use_cache);
    assert!(!RigorResolved::from_preset("standard").with_evidence(&Some("full".to_string())).sampled);
}

#[test]
fn a_bare_command_line_opens_the_window() {
    assert!(matches!(start(Cli { cmd: None }), Start::Window));
    assert!(matches!(start(Cli { cmd: Some(Cmd::Jobs) }), Start::Command(Cmd::Jobs)));
    assert_eq!(Mode::Enrich.as_str(), "enrich");
}

#[test]
fn jobs_are_chosen_by_name_prefix_or_all() {
    let names = texts(&["home", "work-a", "work-b"]);
    assert!(matches!(choose_jobs(true, &None, &None, &names), JobChoice::Listed(v) if v == vec![0, 1, 2]));
    let p = Some("work".to_string());
    assert!(matches!(choose_jobs(false, &p, &None, &names), JobChoice::Listed(v) if v == vec![1, 2]));
    let j = Some("home".to_string());
    assert!(matches!(choose_jobs(false, &None, &j, &names), JobChoice::Named(n) if n == "home"));
    assert!(matches!(choose_jobs(false, &None, &None, &names), JobChoice::Nothing));
}

#[test]
fn listed_jobs_line_up() {
    let row = JobRow { name: "home".into(), mode: "sync".into(), source: "/a".into(), target: "/b".into() };
    let r = jobs_report(&vec![row], "/jobs", "sample");
    assert_eq!(r.out[0], format!("{:<24} {:<7} {}  ->  {}", "home", "sync", "/a", "/b"));
    assert_eq!(r.code, 0);
}

#[test]
fn a_failed_job_ends_in_a_code() {
    let mut c = Counts::zero();
    let r = c.take("j", true, &Ok(Counts { done: 2, skipped: 1, errors: 0, conflicts: 3 }));
    assert_eq!(r.out, texts(&["[j] applied: 2 done, 1 skipped, 0 error(s), 3 conflict(s)"]));
    assert_eq!(c.close(1).code, 0);
    let r = c.take("k", true, &Err("boom".to_string()));
    assert_eq!(r.err, texts(&["[k] FAILED: boom"]));
    let end = c.close(2);
    assert_eq!(end.code, 1);
    assert_eq!(
        end.out,
        texts(&["== total: 2 job(s), 2 done, 1 skipped/pending, 1 error(s), 3 conflict(s)"])
    );
    assert_eq!((code_of(0), code_of(9)), (0, 1));
    assert_eq!(plan_applied(true, 1, 0, 2).code, 1);
}

#[test]
fn a_watch_speaks_only_when_something_happened() {
    assert_eq!(watch_line("j", &Ok(Counts::zero())), None);
    let some = Counts { done: 1, skipped: 0, errors: 0, conflicts: 0 };
    assert_eq!(watch_line("j", &Ok(some)).unwrap(), "[j] watch: 1 done, 0 error(s), 0 conflict(s)");
    assert!(watch_interval(Some(7), &vec![None]) >= 1);
}

#[test]
fn presets_are_named_or_refused() {
    assert_eq!(junk_ids(&texts(&[" a ", "", "NONE"]), true), texts(&["a"]));
    assert_eq!(junk_ids(&texts(&["none"]), false), texts(&["none"]));
    let known = texts(&["a", "b"]);
    assert_eq!(unknown_preset(&texts(&["a", "x"]), &known).as_deref(), Some("x"));
    assert!(refuse_presets(&texts(&["a"]), &known, false).is_none());
    assert!(refuse_presets(&texts(&["x"]), &known, true).is_some());
    let row = |id: &str, patterns: &[&str]| JunkRow {
        id: id.to_string(),
        label: String::new(),
        hint: String::new(),
        default_on: false,
        patterns: texts(patterns),
    };
    let rows = vec![row("a", &["1", "2"]), row("b", &["3"]), row("c", &["4"])];
    assert_eq!(patterns_of(&rows, &texts(&["c", "a"])), texts(&["1", "2", "4"]));
}

#[test]
fn small_commands_answer() {
    assert_eq!(percent(1, 3), 33);
    assert_eq!(root_or(&None, "/p"), "/p");
    assert_eq!(root_or(&Some("/g".to_string()), "/p"), "/g");
    assert!(unreachable_root("/a", true, "/b", true).is_none());
    assert_eq!(unreachable_root("/a", true, "/b", false).unwrap().code, 2);
    assert_eq!(retention(30, 2, true).max_bytes, 2 << 30);
    assert!(!retention(30, 2, true).staggered);
    let o = apply_options(true, None, false, true, true, true, false);
    assert!(!o.dry_run && !o.fsync && o.versioning && o.delta && !o.verify);
}

#[test]
fn passwords_go_to_an_account() {
    let Ok(a) = cred_account("sftp://ben@h/x", false) else { panic!() };
    assert_eq!(a, "sftp://ben@h:22");
    assert!(cred_account("/local", false).is_err());
    assert!(cred_account("ftp://h/x", true).is_err());
    assert!(password_to_store("").is_err());
    let Ok(p) = password_to_store("pw\n") else { panic!() };
    assert!(p.starts_with("pw"));
    assert_eq!(accounts_report(&texts(&["a"])).out[0], "a");
}

#[test]
fn trash_is_listed_with_its_size() {
    let rows = vec![TrashRow { id: "20240101".into(), files: 3, bytes: 2048 }];
    let r = trash_report(&rows, "/t");
    assert_eq!(r.out[0], format!("{:<16} {:>7} files  {:>10}", "20240101", 3, "2.0 KiB"));
}

fn run_row(finished: bool) -> RunRow {
    RunRow {
        ts_ms: 0,
        run_id: Some("r1".into()),
        job: "j".into(),
        kind: "run".into(),
        done: 1,
        skipped: 0,
        errors: 0,
        warnings: 0,
        bytes: 10,
        seconds: "1.0".into(),
        finished,
        cancelled: false,
        ops_found: None,
    }
}

#[test]
fn logs_tell_of_interrupted_runs() {
    assert_eq!(age(59 * 60_000, 0), "59m ago");
    assert_eq!(age(47 * 3_600_000, 0), "47h ago");
    assert_eq!(age(48 * 3_600_000, 0), "2d ago");
    assert_eq!(age(0, 5), "0m ago");
    let q = ask(LogsCmd::List { job: None, limit: 5 }, 30, 100);
    let a = LogsAnswer::Rows { now: 0, rows: vec![run_row(false)], logs_dir: "/l".into() };
    let r = run_logs(&q, a);
    assert!(r.out[0].ends_with("[INTERRUPTED]"), "{}", r.out[0]);
    let a = LogsAnswer::Rows { now: 0, rows: Vec::new(), logs_dir: "/l".into() };
    assert!(run_logs(&q, a).out[0].starts_with("no runs recorded yet"));
    let q = ask(LogsCmd::Prune { keep_days: None, max_total_mb: Some(7) }, 30, 100);
    assert!(matches!(q, LogsAsk::Prune { days: 30, cap: 7 }));
}

// The window

fn op(action: Action, size: Option<u64>) -> Op {
    Op {
        side: Side::Target,
        action,
        path: "p".into(),
        from: None,
        size,
        mtime_ms: None,
        hash: None,
        link: None,
        mode: None,
        reason: String::new(),
    }
}

fn plan(ops: Vec<Op>) -> Plan {
    Plan {
        header: PlanHeader {
            schema: 1,
            kind: "plan".into(),
            mode: "mirror".into(),
            generated_at_ms: 0,
            source_root: "/s".into(),
            source_host: "h".into(),
            target_root: "/t".into(),
            target_host: "h".into(),
            op_count: ops.len() as u64,
            conflict_count: 0,
        },
        ops,
    }
}

#[test]
fn conflicts_are_not_chosen() {
    assert!(default_checked(&op(Action::Copy, None)));
    assert!(!default_checked(&op(Action::Conflict, None)));
    assert!(!default_checked(&op(Action::Note, None)));
    assert_ne!(action_badge(&op(Action::Copy, None)).0, action_badge(&op(Action::Delete, None)).0);
}

#[test]
fn the_choice_is_summed_up() {
    let ops = vec![op(Action::Copy, Some(3)), op(Action::Update, Some(5)), op(Action::Delete, Some(9))];
    assert_eq!(selected_bytes(&ops, &vec![true, true, true]), 8);
    assert_eq!(selected_bytes(&ops, &vec![true, false, true]), 3);
    assert_eq!(selected_ops(&ops, &vec![true, false, true]), vec![0, 2]);
}

#[test]
fn sizes_agree_with_floating_point() {
    let mut n: u64 = 1;
    let mut all = vec![0, 1023, 1024, 1025, 1048575, u64::MAX];
    while n < u64::MAX / 5 {
        all.push(n);
        n = n * 5 + 3;
    }
    for b in all {
        let f = b as f64;
        let expected = if b >= 1 << 30 {
            format!("{:.2} GB", f / (1u64 << 30) as f64)
        } else if b >= 1 << 20 {
            format!("{:.1} MB", f / (1u64 << 20) as f64)
        } else if b >= 1 << 10 {
            format!("{:.1} KB", f / (1u64 << 10) as f64)
        } else {
            format!("{b} B")
        };
        assert_eq!(human_size(b), expected, "{b}");
    }
}

#[test]
fn the_window_goes_from_compare_to_sync() {
    let mut p = Panel::new("/jobs");
    assert!(!p.busy() && !p.can_sync());
    p.begin_compare("j");
    assert!(p.busy());
    p.compared("j", Ok(plan(vec![op(Action::Copy, Some(3)), op(Action::Conflict, None)])));
    assert!(!p.busy() && p.can_sync());
    assert!(p.summary().is_some());
    let (_, checked) = p.begin_apply("j").unwrap();
    assert_eq!(checked, vec![true, false]);
    assert!(p.busy() && p.begin_apply("j").is_none());
    p.applied("j", 1, 0, 0);
    assert!(!p.busy());
    assert!(matches!(p.phase, Phase::Idle) || !p.can_sync());
}

// Content

fn noise(n: usize) -> Vec<u8> {
    let mut out = vec![0u8; n];
    blake3::Hasher::new().finalize_xof().fill(&mut out);
    out
}

#[test]
fn chunks_cover_the_content_and_are_hashed() {
    let data = noise(1_000_000);
    let chunks = chunk_bytes(&data);
    let mut off = 0u64;
    for (i, c) in chunks.iter().enumerate() {
        assert_eq!(c.off, off);
        let part = &data[c.off as usize..c.off as usize + c.len as usize];
        assert_eq!(c.hash, blake3::hash(part).to_hex().to_string());
        assert!(c.len <= MAX_CHUNK && (c.len >= MIN_CHUNK || i + 1 == chunks.len()));
        off += c.len as u64;
    }
    assert_eq!(off, data.len() as u64);
    let cuts: Vec<(u64, u32)> = fastcdc::v2020::FastCDC::new(&data, MIN_CHUNK, AVG_CHUNK, MAX_CHUNK)
        .map(|c| (c.offset as u64, c.length as u32))
        .collect();
    assert_eq!(chunks.iter().map(|c| (c.off, c.len)).collect::<Vec<_>>(), cuts);
    let f = chunk_content("r", &data);
    assert_eq!((f.rel.as_str(), f.size), ("r", 1_000_000));
    assert_eq!(f.hash, blake3::hash(&data).to_hex().to_string());
    assert!(chunk_bytes(&[]).is_empty());
    assert_eq!(hash_chunks(b"abcd", &vec![(0, 2), (2, 2)]).len(), 2);
}

#[test]
fn a_delta_rebuilds_the_new_content() {
    let old = noise(800_000);
    let mut new = old.clone();
    new[400_000] ^= 1;
    new.truncate(700_000);
    let plan = plan_delta(&old, &new);
    let mut built = old.clone();
    for (off, len) in &plan.writes {
        let part = new[*off as usize..*off as usize + *len as usize].to_vec();
        patch(&mut built, *off as usize, &part);
    }
    if let Some(n) = plan.shrink_to {
        built.truncate(n as usize);
    }
    assert_eq!(built, new);
    assert!(plan.written < plan.total && plan.total == 700_000, "{} of {}", plan.written, plan.total);
    assert!(delta_pays(DELTA_MIN_SIZE, DELTA_MIN_SIZE) && !delta_pays(1, 1));
    let same = plan_chunks(&chunk_bytes(&old), &chunk_bytes(&old), 800_000, 800_000);
    assert!(same.writes.is_empty());
}

#[test]
fn products_are_left_out_on_request_alone() {
    let mut j = job("standard");
    let plain = j.apply_opts(None, false).filter.unwrap();
    assert!(plain.pass_file("proj/.git/HEAD") && plain.pass_file("target/x"));
    assert!(!plain.pass_file("a/.DS_Store") && !plain.pass_file("a/Thumbs.db"));
    assert!(!plain.pass_file("a/.syncdash/x"));
    j.dev_excludes = true;
    let strict = j.apply_opts(None, false).filter.unwrap();
    assert!(!strict.pass_file("proj/.git/HEAD") && !strict.pass_file("target/x"));
    j.os_excludes = "windows".into();
    let windows = j.apply_opts(None, false).filter.unwrap();
    assert!(windows.pass_file("a/.DS_Store") && !windows.pass_file("a/Thumbs.db"));
    j.os_excludes = "mac".into();
    let mac = j.apply_opts(None, false).filter.unwrap();
    assert!(!mac.pass_file("a/.DS_Store") && mac.pass_file("a/Thumbs.db"));
    j.os_excludes = "off".into();
    let off = j.apply_opts(None, false).filter.unwrap();
    assert!(off.pass_file("a/.DS_Store") && off.pass_file("a/Thumbs.db"));
    assert!(!off.pass_file("a/.syncdash/x") && !off.pass_file(".syncdash-root"));
}
