//! Which paths take part.
use syncdash::filter::{chosen_excludes, default_excludes, PathFilter};
use syncdash::foundation::names::self_excludes;

fn f(inc: &[&str], exc: &[&str]) -> PathFilter {
    PathFilter::build(
        &inc.iter().map(|s| s.to_string()).collect::<Vec<_>>(),
        &exc.iter().map(|s| s.to_string()).collect::<Vec<_>>(),
    )
}

#[test]
fn default_excludes_work() {
    let pf = f(&[], &[]);
    assert!(!pf.pass_file("a/.DS_Store"));
    assert!(!pf.pass_file(".DS_Store"));
    assert!(!pf.pass_dir("proj/node_modules").0);
    assert!(!pf.pass_dir("proj/node_modules").1);
    assert!(!pf.pass_file("proj/node_modules/x/y.js"));
    assert!(pf.pass_file("proj/src/main.rs"));
    assert!(!default_excludes().is_empty());
}

#[test]
fn include_whitelist_traversal() {
    let pf = f(&["/Research/proj/models/"], &[]);
    assert!(pf.pass_file("Research/proj/models/a.mph"));
    assert!(!pf.pass_file("Research/proj/src/a.java"));
    let (pass, child) = pf.pass_dir("Research");
    assert!(!pass && child);
    let (pass, child) = pf.pass_dir("Research/proj");
    assert!(!pass && child);
    assert!(pf.pass_dir("Research/proj/models").0);
    assert!(!pf.pass_dir("Financial").1);
}

#[test]
fn wildcards_and_case() {
    let pf = f(&[], &["*/*.tmp", "*/CacheDir/"]);
    assert!(!pf.pass_file("a/b/x.TMP"));
    assert!(!pf.pass_file("z/cachedir/deep/file.bin"));
    assert!(pf.pass_file("z/cachedir2/file.bin"));
}

#[test]
fn question_mark_no_sep() {
    let pf = f(&[], &["*/v?/"]);
    assert!(!pf.pass_file("a/v1/x"));
    assert!(pf.pass_file("a/v12/x"));
}

#[test]
fn bang_prefix_is_an_exception() {
    let pf = f(&[], &["*/*.log", "!*/important.log"]);
    assert!(!pf.pass_file("app/debug.log"));
    assert!(pf.pass_file("app/important.log"), "! must override the exclude");
}

#[test]
fn anchored_exception_keeps_directory_pruning() {
    let pf = f(&[], &["!/keep/this.txt"]);
    assert!(!pf.pass_dir("proj/node_modules").1, "anchored ! must not disable pruning");
    let pf2 = f(&[], &["!*/keep.txt"]);
    assert!(pf2.pass_dir("proj/node_modules").1, "unanchored ! must allow descending");
}

#[test]
fn exception_survives_an_excluded_parent_dir() {
    let pf = f(&[], &["*/logs/", "!*/logs/audit.txt"]);
    assert!(!pf.pass_file("srv/logs/debug.txt"));
    assert!(pf.pass_file("srv/logs/audit.txt"), "! must beat an excluded parent dir");
    assert!(pf.pass_dir("srv/logs").1, "must descend to reach the exception");
}

#[test]
fn deletable_list_and_temp_files() {
    let pf = PathFilter::build_full(&[], &[], &["*/node_modules/".to_string()]);
    assert!(pf.is_deletable("proj/node_modules/x/y.js"));
    assert!(!pf.is_deletable("proj/src/main.rs"));
    assert!(pf.is_deletable("proj/.syncdash.tmp.a.123"));
}

#[test]
fn mount_marker_is_never_synced() {
    let pf = f(&[], &[]);
    assert!(!pf.pass_file(".syncdash-root"));
    assert!(!pf.pass_file("nested/.syncdash-root"));
}

#[test]
fn temp_files_never_enter_the_table() {
    let pf = f(&[], &[]);
    assert!(!pf.pass_file(".syncdash.tmp.report.pdf.4242"));
    assert!(!pf.pass_file("deep/dir/.syncdash.tmp.x.1"));
    assert!(pf.pass_file("deep/dir/x"));
}

#[test]
fn our_own_files_are_left_out_at_any_depth() {
    let pf = f(&[], &self_excludes().iter().map(|s| s.as_str()).collect::<Vec<_>>());
    for p in [".syncdash/cache", "a/b/.syncdash/x", "a/.version_syncDash/i", ".syncdash.lock", "a/.syncdash.lock"] {
        assert!(!pf.pass_file(p), "{p}");
    }
}

#[test]
fn an_exception_lets_an_own_file_through() {
    let pf = f(&[], &["!*/.syncdash-root"]);
    assert!(pf.pass_file("a/.syncdash-root"));
    assert!(!pf.pass_file("a/.syncdash.lock"));
    assert!(!pf.pass_dir("a/.SyncDash").0);
    assert!(!pf.pass_file("A/.SYNCDASH/x"));
}

#[test]
fn a_name_prefix_matches_at_any_depth() {
    let pf = f(&[], &self_excludes().iter().map(|s| s.as_str()).collect::<Vec<_>>());
    assert!(!pf.pass_file("nested/.syncdash.lock.claim"));
    assert!(!pf.pass_dir(".syncdash.lock.d").0);
    assert!(!pf.pass_dir("nested/.version_syncDash").0);
    // Only a directory of that name is the tool's own.
    assert!(pf.pass_file("nested/.syncdash"));
}

#[test]
fn the_order_of_phrases_plays_no_part() {
    let one = f(&["/a/", "/b/"], &["*/x", "!/a/x", "*/y/"]);
    let two = f(&["/b/", "/a/"], &["*/y/", "*/x", "!/a/x", "*/x"]);
    for p in ["a/x", "b/x", "b/z", "a/y/z", "c", "a/b/c"] {
        assert_eq!(one.pass_file(p), two.pass_file(p), "{p}");
        assert_eq!(one.pass_dir(p), two.pass_dir(p), "{p}");
    }
}

#[test]
fn every_choice_taken_gives_the_defaults() {
    let mut chosen = chosen_excludes("auto", true);
    let mut all = default_excludes();
    chosen.sort();
    all.sort();
    assert_eq!(chosen, all);
    assert!(!chosen_excludes("auto", false).contains(&"*/target/"));
    let full = f(&[], &["*/x"]);
    let opt = PathFilter::build_full_opt(&[], &["*/x".to_string()], &[], "auto", true);
    for p in ["a/x", "a/.git/b", "a/b", "Thumbs.db"] {
        assert_eq!(full.pass_file(p), opt.pass_file(p), "{p}");
    }
}
