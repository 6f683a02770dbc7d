//! The filesystem in memory, against its own promises and those of every backend.
use syncdash::foundation::names::TEMP_PREFIX;
use syncdash::foundation::path::parent;
use syncdash::fs::vfs::error::VfsErrorKind;
use syncdash::fs::vfs::fake::{clock_stamp, read_to_end, FakeRegistry, FakeVfs};
use syncdash::fs::vfs::{names_of, Support, Vfs, WriteHint, WriteStaged};
use syncdash::table::EntryKind;

fn mk(phrase: &str) -> FakeVfs {
    FakeVfs::from_phrase(phrase).unwrap()
}

fn read_file(v: &mut FakeVfs, rel: &str) -> Vec<u8> {
    let mut f = v.open_read(rel).expect("open_read");
    read_to_end(&mut f, v).expect("read_to_end")
}

#[test]
fn same_seed_agrees_on_every_byte() {
    let mut a = mk("fake://seedtest");
    let mut b = mk("fake://seedtest?block_size=131072");
    a.seed_file("dir/f.bin", 100_000, 1_000);
    b.seed_file("dir/f.bin", 100_000, 1_000);
    let ba = read_file(&mut a, "dir/f.bin");
    let bb = read_file(&mut b, "dir/f.bin");
    assert_eq!(ba, bb);
    assert_eq!(ba.len(), 100_000);
    let mut c = mk("fake://seedtest2");
    c.seed_file("dir/f.bin", 100_000, 1_000);
    let bc = read_file(&mut c, "dir/f.bin");
    assert_ne!(ba, bc);
}

#[test]
fn same_phrase_shares_one_tree() {
    let mut roots = FakeRegistry::new();
    let a = roots.open("fake://sharedtree").unwrap();
    roots.roots[a].seed_file("x.bin", 5, 0);
    let b = roots.open("fake://sharedtree").unwrap();
    assert!(
        roots.roots[b].stat("x.bin").unwrap().is_some(),
        "same phrase must open the same tree"
    );
    let c = roots.open("fake://other").unwrap();
    assert!(roots.roots[c].stat("x.bin").unwrap().is_none());
}

#[test]
fn ranged_read_matches_stream() {
    let mut v = mk("fake://rrtest");
    v.seed_file("f.bin", 10_000, 0);
    let full = read_file(&mut v, "f.bin");
    let mid = v.read_range("f.bin", 4_000, 256).unwrap();
    assert_eq!(&full[4_000..4_256], &mid[..]);
    let tail = v.read_range("f.bin", 9_900, 256).unwrap();
    assert_eq!(tail.len(), 100);
    assert_eq!(&full[9_900..], &tail[..]);
}

#[test]
fn precision_truncates_mtimes() {
    let mut v = mk("fake://s?precision_ms=60000");
    v.seed_file("f", 1, 1_234_567);
    assert_eq!(v.stat("f").unwrap().unwrap().mtime_ms, 1_200_000);
}

#[test]
fn transient_after_cuts_the_line() {
    let mut v = mk("fake://s?transient_after=3");
    v.seed_file("f", 1, 0);
    assert!(v.stat("f").is_ok());
    assert!(v.stat("f").is_ok());
    assert!(v.stat("f").is_ok());
    let e = v.stat("f").unwrap_err();
    assert_eq!(e.kind, VfsErrorKind::Transient);
}

#[test]
fn insens_resolves_but_preserves_real_names() {
    let mut v = mk("fake://s?insens");
    v.seed_file("Dir/File.TXT", 5, 0);
    assert!(v.stat("dir/file.txt").unwrap().is_some());
    let names: Vec<String> = v.read_dir("Dir").unwrap().into_iter().map(|e| e.name).collect();
    assert_eq!(names, vec!["File.TXT"]);
}

#[test]
fn written_content_wins_over_generated() {
    let mut v = mk("fake://writetest");
    let hint = WriteHint { mtime_ms: Some(9_000), ..Default::default() };
    let mut w = v.open_write("out/x.bin", &hint).unwrap();
    w.write(&mut v, b"hello world").unwrap();
    assert_eq!(w.staged_len().unwrap(), 11);
    assert!(v.stat("out/x.bin").unwrap().is_none());
    let report = w.commit(&mut v).unwrap();
    assert_eq!(report.mtime_ondisk_ms, Some(9_000));
    assert_eq!(read_file(&mut v, "out/x.bin"), b"hello world");
}

#[test]
fn counters_count() {
    let mut v = mk("fake://countertest");
    v.seed_file("a/f1", 10, 0);
    v.seed_file("a/f2", 10, 0);
    let _ = v.read_dir("a").unwrap();
    let _ = v.open_read("a/f1").unwrap();
    assert_eq!(v.counters().read_dir, 1);
    assert_eq!(v.counters().open_read, 1);
}

#[test]
fn unknown_knob_is_refused() {
    assert!(FakeVfs::from_phrase("fake://s?latencyms=5").is_err());
}

#[test]
fn generated_bytes_are_the_hash_stream_of_seed_and_path() {
    let mut v = mk("fake://seed");
    v.seed_file("p/q", 100, 0);
    let got = read_file(&mut v, "p/q");
    let mut hasher = blake3::Hasher::new();
    hasher.update(b"seed");
    hasher.update(b"\0");
    hasher.update(b"p/q");
    let mut expected = vec![0u8; 100];
    hasher.finalize_xof().fill(&mut expected);
    assert_eq!(got, expected);
}

#[test]
fn seeding_makes_the_directories_above() {
    let mut v = mk("fake://seeds");
    v.seed_dir("a/b");
    v.seed_symlink("c/l", "../a", 5);
    assert_eq!(v.stat("a").unwrap().unwrap().kind, EntryKind::Dir);
    assert_eq!(v.stat("c/l").unwrap().unwrap().kind, EntryKind::Symlink);
    assert_eq!(v.read_link("c/l").unwrap(), "../a");
    assert_eq!(names_of(&v.read_dir("").unwrap()).len(), 2);
}

#[test]
fn a_failing_read_names_its_file() {
    let mut v = mk("fake://s?fail_read=bad");
    v.seed_file("bad", 4, 0);
    v.seed_file("good", 4, 0);
    let mut f = v.open_read("bad");
    let failed = match &mut f {
        Ok(s) => read_to_end(s, &mut v).is_err(),
        Err(_) => true,
    };
    assert!(failed);
    assert_eq!(read_file(&mut v, "good").len(), 4);
}

#[test]
fn clocks_fit_the_stamp() {
    assert_eq!(clock_stamp(5), 5);
    assert_eq!(clock_stamp(i64::MAX as u64 + 1), i64::MIN);
    assert_eq!(clock_stamp(u64::MAX), -1);
}

// The contract of a backend.

fn write_file(v: &mut FakeVfs, rel: &str, content: &[u8], mtime_ms: Option<i64>) {
    if let Some(parent) = parent(rel) {
        v.mkdir_all(parent).expect("mkdir_all");
    }
    let hint = WriteHint { size_hint: Some(content.len() as u64), mtime_ms, mode: None };
    let mut w = v.open_write(rel, &hint).expect("open_write");
    w.write(v, content).expect("write");
    w.seal(false).expect("seal");
    w.commit(v).expect("commit");
}

fn root_stat(mut v: FakeVfs) {
    let m = v.stat("").expect("stat root").expect("root exists");
    assert_eq!(m.kind, EntryKind::Dir, "rel=\"\" must name the root directory");
}

fn missing_is_confirmed_absent(mut v: FakeVfs) {
    assert!(v.stat("definitely/not/here.txt").expect("stat must not error").is_none());
}

fn single_level_listing(mut v: FakeVfs) {
    write_file(&mut v, "a/b/c.txt", b"x", None);
    write_file(&mut v, "a/top.txt", b"y", None);
    let names: Vec<String> = v.read_dir("a").expect("read_dir").into_iter().map(|e| e.name).collect();
    assert!(names.contains(&"b".to_string()), "listing must have the child dir: {names:?}");
    assert!(names.contains(&"top.txt".to_string()));
    assert!(
        !names.iter().any(|n| n.contains('/')),
        "read_dir is one level only, names are single segments: {names:?}"
    );
    assert!(
        !names.iter().any(|n| n.contains("c.txt")),
        "grandchildren must not appear: {names:?}"
    );
}

fn write_commit_visibility(mut v: FakeVfs) {
    v.mkdir_all("d").unwrap();
    let mut w = v.open_write("d/f.bin", &WriteHint::default()).unwrap();
    w.write(&mut v, b"payload").unwrap();
    assert!(v.stat("d/f.bin").unwrap().is_none(), "destination must not appear before commit");
    for e in v.read_dir("d").unwrap() {
        assert!(
            e.name.starts_with(TEMP_PREFIX),
            "visible staging artifact without temp prefix: {}",
            e.name
        );
    }
    w.seal(false).unwrap();
    w.commit(&mut v).unwrap();
    let m = v.stat("d/f.bin").unwrap().expect("visible after commit");
    assert_eq!(m.kind, EntryKind::File);
    assert_eq!(m.size, 7);
    assert_eq!(read_file(&mut v, "d/f.bin"), b"payload");
}

fn abandoned_write_leaves_nothing(mut v: FakeVfs) {
    v.mkdir_all("d").unwrap();
    write_file(&mut v, "d/keep.txt", b"original", None);
    {
        let mut w = v.open_write("d/keep.txt", &WriteHint::default()).unwrap();
        w.write(&mut v, b"half...").unwrap();
    }
    assert_eq!(
        read_file(&mut v, "d/keep.txt"),
        b"original",
        "abandoned write must not touch the destination"
    );
    for e in v.read_dir("d").unwrap() {
        assert!(!e.name.starts_with(TEMP_PREFIX), "abandoned temp not cleaned up: {}", e.name);
    }
}

fn staged_len_reconciles(mut v: FakeVfs) {
    let payload = vec![7u8; 130_000];
    let mut w = v.open_write("s.bin", &WriteHint::default()).unwrap();
    w.write(&mut v, &payload[..100_000]).unwrap();
    w.write(&mut v, &payload[100_000..]).unwrap();
    assert_eq!(w.staged_len().expect("staged_len"), 130_000);
    w.seal(false).unwrap();
    w.commit(&mut v).unwrap();
}

fn rename_matches_declared_semantics(mut v: FakeVfs) {
    write_file(&mut v, "r/from.txt", b"mover", None);
    v.rename("r/from.txt", "r/to.txt").expect("plain rename");
    assert!(v.stat("r/from.txt").unwrap().is_none());
    assert_eq!(read_file(&mut v, "r/to.txt"), b"mover");

    write_file(&mut v, "r/blocker.txt", b"old", None);
    write_file(&mut v, "r/src.txt", b"new", None);
    match v.caps().rename_overwrite {
        Support::Yes => {
            v.rename("r/src.txt", "r/blocker.txt").expect("declared rename_overwrite=Yes");
            assert_eq!(read_file(&mut v, "r/blocker.txt"), b"new");
        }
        Support::No => {
            let e = v
                .rename("r/src.txt", "r/blocker.txt")
                .expect_err("declared rename_overwrite=No");
            assert_eq!(
                e.kind,
                VfsErrorKind::AlreadyExists,
                "refusal must classify as AlreadyExists"
            );
            assert_eq!(
                read_file(&mut v, "r/blocker.txt"),
                b"old",
                "refused rename must not damage the destination"
            );
        }
        Support::Unknown => {}
    }
}

fn remove_dir_classifies_nonempty(mut v: FakeVfs) {
    write_file(&mut v, "full/inner.txt", b"x", None);
    let e = v.remove_dir("full").expect_err("non-empty removal must fail");
    assert_eq!(
        e.kind,
        VfsErrorKind::NotEmpty,
        "the engine's delete-dir classification rides on this kind"
    );
    v.remove_file("full/inner.txt").unwrap();
    v.remove_dir("full").expect("empty removal succeeds");
    assert!(v.stat("full").unwrap().is_none());
}

fn a_range_is_a_part_of_the_stream(mut v: FakeVfs) {
    if !v.caps().ranged_read.yes() {
        return;
    }
    let payload: Vec<u8> = (0..100_000u32).map(|i| (i % 251) as u8).collect();
    write_file(&mut v, "big.bin", &payload, None);
    let full = read_file(&mut v, "big.bin");
    assert_eq!(full, payload);
    let mid = v.read_range("big.bin", 40_000, 4_096).expect("read_range");
    assert_eq!(&full[40_000..44_096], &mid[..]);
    let tail = v.read_range("big.bin", 99_900, 4_096).expect("read_range at eof");
    assert_eq!(tail.len(), 100, "short only at EOF");
    assert_eq!(&full[99_900..], &tail[..]);
}

fn set_mtime_roundtrips_within_precision(mut v: FakeVfs) {
    if !v.caps().set_mtime.yes() {
        return;
    }
    write_file(&mut v, "t.txt", b"x", None);
    let want: i64 = 1_600_000_123_456;
    v.set_mtime("t.txt", want).expect("set_mtime");
    let got = v.stat("t.txt").unwrap().unwrap().mtime_ms;
    let precision = v.caps().mtime_precision_ms.max(1) as i64;
    assert!(
        (got - want).abs() < precision + 1000,
        "mtime came back {got}, wanted {want} ± precision {precision}"
    );
}

fn symlink_is_not_followed(mut v: FakeVfs) {
    if !v.caps().symlink.yes() {
        return;
    }
    write_file(&mut v, "target.txt", b"real content", None);
    v.make_symlink("link.txt", "target.txt").expect("make_symlink");
    let m = v.stat("link.txt").unwrap().expect("link exists");
    assert_eq!(m.kind, EntryKind::Symlink, "stat is lstat: the link itself, never the target");
    let t = v.read_link("link.txt").expect("read_link");
    assert!(t.contains("target.txt"), "read_link returned {t}");
}

fn staged_read_back_returns_written_bytes(mut v: FakeVfs) {
    if !v.caps().read_back.yes() {
        return;
    }
    let payload = vec![42u8; 50_000];
    let mut w = v.open_write("rb.bin", &WriteHint::default()).unwrap();
    w.write(&mut v, &payload).unwrap();
    w.seal(false).unwrap();
    let mut back = w.open_staged_read().expect("open_staged_read");
    let got = read_to_end(&mut back, &mut v).unwrap();
    assert_eq!(got, payload, "read-back must reproduce the staged bytes exactly");
    w.commit(&mut v).unwrap();
}

fn run_all(phrase: &str) {
    root_stat(mk(phrase));
    missing_is_confirmed_absent(mk(phrase));
    single_level_listing(mk(phrase));
    write_commit_visibility(mk(phrase));
    abandoned_write_leaves_nothing(mk(phrase));
    staged_len_reconciles(mk(phrase));
    rename_matches_declared_semantics(mk(phrase));
    remove_dir_classifies_nonempty(mk(phrase));
    a_range_is_a_part_of_the_stream(mk(phrase));
    set_mtime_roundtrips_within_precision(mk(phrase));
    symlink_is_not_followed(mk(phrase));
    staged_read_back_returns_written_bytes(mk(phrase));
}

#[test]
fn memory_backend_conforms() {
    run_all("fake://conformance");
}

#[test]
fn sftp_shaped_caps_conform() {
    run_all("fake://sftpish?no_rename_overwrite&precision_ms=1000");
}

#[test]
fn ftp_shaped_caps_conform() {
    run_all(
        "fake://ftpish?no_ranged_read&no_set_mtime&no_symlink&no_read_back&no_fsync&no_unix_mode&precision_ms=60000",
    );
}

#[test]
fn a_name_but_for_case_stands_for_the_first_spelling() {
    let mut v = mk("fake://folded?insens");
    v.seed_file("d/a.bin", 7, 0);
    v.seed_file("d/A.bin", 5, 0);
    assert_eq!(v.stat("d/a.bin").unwrap().unwrap().size, 7);
    assert_eq!(v.stat("D/A.BIN").unwrap().unwrap().size, 5);
    assert!(v.stat("d/b.bin").unwrap().is_none());
    let mut strict = mk("fake://folded");
    strict.seed_file("d/a.bin", 7, 0);
    assert!(strict.stat("d/A.bin").unwrap().is_none());
}
