//! Two tables into a plan.
use syncdash::compare::{compare, compare_at, files_equal, Action, CompareOptions, Side};
use syncdash::table::{Entry, EntryKind, Header, Snapshot, SCHEMA};

fn snap(os: &str, entries: Vec<Entry>) -> Snapshot {
    Snapshot {
        header: Header {
            schema: SCHEMA,
            kind: "snapshot".into(),
            root: "/r".into(),
            host: "h".into(),
            os: os.into(),
            scanned_at_ms: 0,
            duration_ms: 0,
            entry_count: entries.len() as u64,
            hashed: true,
        },
        entries,
    }
}

fn file(path: &str, hash: &str) -> Entry {
    Entry {
        path: path.into(),
        kind: EntryKind::File,
        size: 1,
        mtime_ms: 0,
        hash: Some(hash.into()),
        file_id: None,
        mode: None,
    }
}

fn at(mut e: Entry, mtime_ms: i64) -> Entry {
    e.mtime_ms = mtime_ms;
    e
}

fn dir(path: &str) -> Entry {
    Entry { kind: EntryKind::Dir, hash: None, size: 0, ..file(path, "") }
}

#[test]
fn nfc_nfd_paths_match() {
    let nfc = "caf\u{00e9}.txt";
    let nfd = "cafe\u{0301}.txt";
    let s = snap("windows", vec![file(nfc, "h1")]);
    let t = snap("macos", vec![file(nfd, "h1")]);
    let plan = compare(&s, &t, "mirror", None, false, &CompareOptions::default());
    assert_eq!(plan.ops.len(), 0, "NFC/NFD spellings of the same name must match");
}

#[test]
fn case_insensitive_match_and_opt_out() {
    let s = snap("windows", vec![file("Readme.md", "h1")]);
    let t = snap("macos", vec![file("readme.md", "h1")]);
    let folded = CompareOptions { case_insensitive: true };
    assert_eq!(compare(&s, &t, "mirror", None, false, &folded).ops.len(), 0);
    let strict = CompareOptions { case_insensitive: false };
    let plan = compare(&s, &t, "mirror", None, false, &strict);
    assert_eq!(plan.ops.len(), 1);
    assert_eq!(plan.ops[0].action, Action::Move);
}

#[test]
fn update_keeps_target_spelling() {
    let s = snap("windows", vec![file("CAF\u{00c9}.TXT", "new")]);
    let t = snap("macos", vec![file("cafe\u{0301}.txt", "old")]);
    let plan = compare(&s, &t, "mirror", None, false, &CompareOptions::default());
    assert_eq!(plan.ops.len(), 1);
    assert_eq!(plan.ops[0].action, Action::Update);
    assert_eq!(plan.ops[0].path, "cafe\u{0301}.txt", "update must use target's own spelling");
}

#[test]
fn illegal_windows_names_become_conflicts() {
    let s = snap("macos", vec![file("aux.log", "h1"), file("ok.txt", "h2"), file("bad. /x", "h3")]);
    let t = snap("windows", Vec::new());
    let plan = compare(&s, &t, "mirror", None, false, &CompareOptions::default());
    let conflicts: Vec<_> = plan.ops.iter().filter(|o| o.action == Action::Conflict).collect();
    assert_eq!(conflicts.len(), 2, "aux.log and 'bad. ' segment must be flagged");
    assert!(plan.ops.iter().any(|o| o.action == Action::Copy && o.path == "ok.txt"));
}

#[test]
fn normalization_twins_reported_not_merged() {
    let s = snap("linux", vec![file("caf\u{00e9}.txt", "h1"), file("cafe\u{0301}.txt", "h2")]);
    let t = snap("windows", vec![file("caf\u{00e9}.txt", "h1")]);
    let plan = compare(&s, &t, "mirror", None, false, &CompareOptions::default());
    assert!(plan
        .ops
        .iter()
        .any(|o| o.action == Action::Note && o.reason.contains("duplicate-after-normalization")));
}

#[test]
fn a_table_against_itself_needs_nothing() {
    for mode in ["mirror", "sync", "enrich"] {
        let entries = || vec![dir("d"), file("d/a", "1"), file("b", "2")];
        let s = snap("linux", entries());
        let t = snap("linux", entries());
        let plan = compare(&s, &t, mode, None, false, &CompareOptions::default());
        assert_eq!(plan.ops.len(), 0, "{mode}: {:?}", plan.ops);
    }
}

#[test]
fn a_mirror_writes_to_the_target_only() {
    let s = snap("linux", vec![dir("new"), file("new/a", "1"), file("same", "2"), file("old", "3")]);
    let t = snap("linux", vec![file("extra", "9"), file("same", "2"), file("old", "4"), dir("gone")]);
    let plan = compare(&s, &t, "mirror", None, false, &CompareOptions::default());
    assert!(plan.ops.iter().all(|o| o.side == Side::Target));
    let has = |a: Action, p: &str| plan.ops.iter().any(|o| o.action == a && o.path == p);
    assert!(has(Action::Copy, "new/a"));
    assert!(has(Action::Update, "old"));
    assert!(has(Action::Delete, "extra"));
    assert_eq!(plan.header.op_count, plan.ops.len() as u64);
    assert_eq!(plan.header.conflict_count, 0);
}

#[test]
fn a_two_way_sync_keeps_what_both_sides_added() {
    let s = snap("linux", vec![file("left", "1")]);
    let t = snap("linux", vec![file("right", "2")]);
    let plan = compare(&s, &t, "sync", None, false, &CompareOptions::default());
    assert!(plan.ops.iter().all(|o| o.action == Action::Copy));
    assert!(plan.ops.iter().any(|o| o.path == "left" && o.side == Side::Target));
    assert!(plan.ops.iter().any(|o| o.path == "right" && o.side == Side::Source));
}

#[test]
fn changes_on_both_sides_conflict_unless_the_newer_wins() {
    let base = snap("linux", vec![at(file("f", "0"), 0)]);
    let s = snap("linux", vec![at(file("f", "1"), 10_000)]);
    let t = snap("linux", vec![at(file("f", "2"), 90_000)]);
    let c = CompareOptions::default();
    let plan = compare(&s, &t, "sync", Some(&base), false, &c);
    assert_eq!(plan.ops.len(), 1);
    assert_eq!(plan.ops[0].action, Action::Conflict);
    assert_eq!(plan.header.conflict_count, 1);
    let plan = compare(&s, &t, "sync", None, true, &c);
    assert_eq!(plan.ops.len(), 1);
    assert_eq!((plan.ops[0].action, plan.ops[0].side), (Action::Update, Side::Source));
}

#[test]
fn a_deletion_on_one_side_reaches_the_other() {
    let base = snap("linux", vec![file("f", "0")]);
    let s = snap("linux", Vec::new());
    let t = snap("linux", vec![file("f", "0")]);
    let plan = compare(&s, &t, "sync", Some(&base), false, &CompareOptions::default());
    assert_eq!(plan.ops.len(), 1);
    assert_eq!((plan.ops[0].action, plan.ops[0].side), (Action::Delete, Side::Target));
}

#[test]
fn a_plan_carries_its_date_and_its_roots() {
    let s = snap("linux", Vec::new());
    let t = snap("linux", Vec::new());
    let plan = compare_at(&s, &t, "mirror", None, false, &CompareOptions::default(), 77);
    assert_eq!(plan.header.generated_at_ms, 77);
    assert_eq!(plan.header.mode, "mirror");
    assert_eq!(plan.header.source_root, "/r");
}

#[test]
fn files_are_equal_by_hash_or_else_by_size_and_time() {
    assert!(files_equal(&file("a", "1"), &file("b", "1")));
    assert!(!files_equal(&file("a", "1"), &file("a", "2")));
    let mut a = file("a", "1");
    let mut b = file("a", "1");
    a.hash = None;
    b.hash = None;
    assert!(files_equal(&a, &b));
    assert!(files_equal(&a, &at(file("a", "1"), 2000)));
    b.mtime_ms = 2001;
    assert!(!files_equal(&a, &b));
    b.mtime_ms = 0;
    b.size = 2;
    assert!(!files_equal(&a, &b));
}

#[test]
fn a_move_prefers_the_same_name() {
    let s = snap("linux", vec![file("new/b.txt/", "h")]);
    let t = snap("linux", vec![file("old/a.txt", "h"), file("old/b.txt", "h")]);
    let plan = compare(&s, &t, "mirror", None, false, &CompareOptions::default());
    let moved = plan.ops.iter().find(|o| o.action == Action::Move).unwrap();
    assert_eq!(moved.from.as_deref(), Some("old/b.txt"));
}
