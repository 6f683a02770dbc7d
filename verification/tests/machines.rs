//! Carrying plans out, taking locks and working below an open root.
use std::collections::BTreeMap;
use syncdash::apply::{action_name, refused, Apply, ApplyOptions, Deed, Reply};
use syncdash::compare::{Action, Op, Side};
use syncdash::filter::PathFilter;
use syncdash::foundation::path::{EntryName, RootRelativeDir, RootRelativePath};
use syncdash::fs::local_root::{
    expect_regular, may_link, random_token, read_entries, removal_name, rename_layout, segments,
    show_token, split_directory, split_parent, staging_name, weigh_link, FileIdentity, Force,
    ForceDeed, ForceReply, LocalStagedFile, MakeDeed, Making, RawEntry, Removal, RemovalDeed,
    RemovalReply, StepNext, StepReply, TreeDeed, TreeNext, TreeRemoval, TreeReply,
};
use syncdash::fs::lock::{acquire, takeover_line, tick, LockDeed, LockInfo, LockNext, LockReply, HEARTBEAT_MS, TICK_MS, WATCH_ROUNDS};
use syncdash::fs::retry_cleared;
use syncdash::fs::staged::{
    placed, stage_name, weigh_opening, CopyDeed, CopyNext, CopyReply, CopyRun, Opened,
    Staged,
};
use syncdash::fs::vfs::error::{IoFailure, IoKind, Os};
use syncdash::fs::vfs::local::LocalMeta;

fn op(action: Action, path: &str) -> Op {
    Op {
        side: Side::Target,
        action,
        path: path.to_string(),
        from: None,
        size: None,
        mtime_ms: None,
        hash: None,
        link: None,
        mode: None,
        reason: "because".to_string(),
    }
}

fn failure(kind: IoKind) -> IoFailure {
    IoFailure::new(kind, "failed")
}

/// Answers every deed as a filesystem would on which everything works.
fn works(deed: Deed) -> Reply {
    match deed {
        Deed::LinkLook | Deed::DeltaLook | Deed::CommitLook | Deed::DeleteLook => Reply::Found(true),
        Deed::Delta => Reply::Patched(Some((10, 100))),
        Deed::Hash => Reply::Hashed("abc".to_string()),
        Deed::StampLikeSource | Deed::ReadBack => Reply::Time(Some(5)),
        Deed::Walk => Reply::Files(vec!["x".to_string()]),
        _ => Reply::Done,
    }
}

fn run(ops: Vec<Op>, opt: ApplyOptions, answer: fn(Deed) -> Reply) -> (Apply, Vec<Deed>) {
    let mut a = Apply::start(ops, opt);
    let mut seen = Vec::new();
    while let Some(r) = a.run {
        seen.push(r.deed);
        assert!(seen.len() < 1000);
        a.feed(answer(r.deed));
    }
    (a, seen)
}

#[test]
fn a_copy_is_staged_checked_and_committed() {
    let mut o = op(Action::Copy, "a");
    o.hash = Some("abc".to_string());
    o.mtime_ms = Some(7);
    o.mode = Some(0o644);
    let opt = ApplyOptions { verify: true, dry_run: false, ..ApplyOptions::default() };
    let (a, seen) = run(vec![o], opt, works);
    assert_eq!(
        seen,
        vec![
            Deed::Parents,
            Deed::Stage,
            Deed::Fill,
            Deed::Seal,
            Deed::Hash,
            Deed::Stamp(7),
            Deed::Mode(0o644),
            Deed::CommitLook,
            Deed::Keep,
            Deed::Commit,
            Deed::ReadBack,
        ]
    );
    assert_eq!((a.tally.done, a.tally.skipped, a.tally.errors), (1, 0, 0));
    assert_eq!(a.fixes.len(), 1);
    assert_eq!((a.fixes[0].ondisk, a.fixes[0].intended), (5, 7));
    assert_eq!(a.side_fixes(false).len(), 1);
    assert!(a.side_fixes(true).is_empty());
}

#[test]
fn a_hash_that_differs_is_never_committed() {
    let mut o = op(Action::Copy, "a");
    o.hash = Some("other".to_string());
    let opt = ApplyOptions { verify: true, dry_run: false, ..ApplyOptions::default() };
    let (a, seen) = run(vec![o], opt, works);
    assert!(!seen.contains(&Deed::Commit));
    assert_eq!(a.tally.errors, 1);
    assert!(a.lines.iter().any(|l| l.error && l.text.contains("verify failed before commit")));
}

#[test]
fn a_dry_run_touches_nothing() {
    let opt = ApplyOptions { dry_run: true, verbose: true, ..ApplyOptions::default() };
    let (a, seen) = run(vec![op(Action::Copy, "a"), op(Action::Delete, "b")], opt, works);
    assert!(seen.is_empty());
    assert_eq!(a.tally.skipped, 2);
    assert_eq!(a.lines[0].text, "DRY  [target] Copy a  (because)");
}

#[test]
fn conflicts_are_told_and_left_alone() {
    let opt = ApplyOptions { dry_run: false, ..ApplyOptions::default() };
    let (a, seen) = run(vec![op(Action::Conflict, "c")], opt, works);
    assert!(seen.is_empty());
    assert_eq!(a.lines[0].text, "CONFLICT  c (because)");
}

#[test]
fn an_update_by_delta_saves_bytes() {
    let opt = ApplyOptions { delta: true, dry_run: false, ..ApplyOptions::default() };
    let (a, seen) = run(vec![op(Action::Update, "a")], opt, works);
    assert!(seen.contains(&Deed::Delta) && !seen.contains(&Deed::Fill));
    assert_eq!(a.saved, 90);
    assert!(a.delta_line().is_some());
}

fn other_volume(deed: Deed) -> Reply {
    match deed {
        Deed::Rename => Reply::Failed(failure(IoKind::CrossesDevices)),
        d => works(d),
    }
}

#[test]
fn a_move_across_volumes_copies_and_then_removes() {
    let mut o = op(Action::Move, "b");
    o.from = Some("a".to_string());
    let opt = ApplyOptions { dry_run: false, ..ApplyOptions::default() };
    let (a, seen) = run(vec![o], opt, other_volume);
    assert_eq!(seen.last(), Some(&Deed::MoveClean));
    let commit = seen.iter().position(|d| *d == Deed::MoveCommit).unwrap();
    let clean = seen.iter().position(|d| *d == Deed::MoveClean).unwrap();
    assert!(commit < clean);
    assert_eq!(a.tally.done, 1);
}

fn not_empty(deed: Deed) -> Reply {
    match deed {
        Deed::RemoveDir => Reply::Failed(failure(IoKind::DirectoryNotEmpty)),
        d => works(d),
    }
}

#[test]
fn a_directory_goes_only_with_what_may_go() {
    let opt = || ApplyOptions { dry_run: false, ..ApplyOptions::default() };
    let (a, seen) = run(vec![op(Action::DeleteDir, "d")], opt(), not_empty);
    assert!(!seen.contains(&Deed::RemoveTree));
    assert_eq!(a.tally.skipped, 1);
    assert!(a.lines[0].text.starts_with("KEPT      d (directory not empty, kept: d/x"), "{}", a.lines[0].text);
    let mut o = opt();
    o.filter = Some(PathFilter::build_full(&[], &[], &["*/x".to_string()]));
    let (a, seen) = run(vec![op(Action::DeleteDir, "d")], o, not_empty);
    assert!(seen.contains(&Deed::RemoveTree));
    assert_eq!(a.tally.done, 1);
}

#[test]
fn one_failed_step_does_not_stop_the_others() {
    fn first_fails(deed: Deed) -> Reply {
        match deed {
            Deed::DeleteKeep => Reply::Failed(failure(IoKind::PermissionDenied)),
            d => works(d),
        }
    }
    let opt = ApplyOptions { dry_run: false, ..ApplyOptions::default() };
    let (a, _) = run(vec![op(Action::Delete, "a"), op(Action::Copy, "b")], opt, first_fails);
    assert_eq!((a.tally.done, a.tally.errors), (1, 1));
    assert_eq!(a.side_ops(Side::Target), vec![0, 1]);
    assert_eq!(action_name(Action::DeleteDir), "DeleteDir");
    assert_eq!((refused(3).skipped, refused(3).errors), (3, 1));
}

#[test]
fn a_chmod_without_a_mode_is_an_error() {
    let opt = ApplyOptions { dry_run: false, ..ApplyOptions::default() };
    let (a, seen) = run(vec![op(Action::Chmod, "a")], opt, works);
    assert!(seen.is_empty());
    assert_eq!(a.tally.errors, 1);
}

// Locks

#[test]
fn a_lock_that_moves_is_alive() {
    let LockNext::Do(d) = acquire("/r", LockDeed::Probe, LockReply::Seen(Some(10))) else { panic!() };
    let holder = LockInfo { host: "h".to_string(), pid: 7, started_ms: 0 };
    let LockNext::Do(d) = acquire("/r", d, LockReply::Holder(Some(holder))) else { panic!() };
    let LockNext::Refused(e) = acquire("/r", d, LockReply::Seen(Some(11))) else { panic!() };
    assert_eq!(e.kind, IoKind::WouldBlock);
    assert!(e.message.contains("h (pid 7)"), "{}", e.message);
}

#[test]
fn a_lock_that_stands_still_is_taken_over() {
    let mut next = acquire("/r", LockDeed::Probe, LockReply::Seen(Some(10)));
    let mut watched = 0;
    loop {
        match next {
            LockNext::Do(d) => {
                let reply = match &d {
                    LockDeed::ReadHolder { .. } => LockReply::Holder(None),
                    LockDeed::Watch { .. } => {
                        watched += 1;
                        LockReply::Seen(Some(10))
                    }
                    LockDeed::TakeOver { holder } => {
                        assert!(takeover_line("/r", holder).contains("unknown"));
                        LockReply::Failed(failure(IoKind::NotFound), true)
                    }
                    _ => LockReply::Done,
                };
                next = acquire("/r", d, reply);
            }
            LockNext::Held => break,
            LockNext::Refused(e) => panic!("{e:?}"),
        }
    }
    assert_eq!(watched, WATCH_ROUNDS);
}

#[test]
fn the_heartbeat_comes_every_few_ticks() {
    let mut elapsed = 0;
    let mut beats = 0;
    for _ in 0..(10 * HEARTBEAT_MS / TICK_MS) {
        let (e, beat) = tick(elapsed);
        elapsed = e;
        if beat {
            beats += 1;
        }
    }
    assert_eq!(beats, 10);
}

// Staged files

#[test]
fn a_staged_file_is_debris_until_it_is_renamed() {
    let mut s = Staged::create();
    assert!(s.writable().is_ok() && s.leaves_debris());
    let sealing = s.seal(true);
    assert!(sealing.fsync);
    assert!(s.writable().is_err());
    s.renamed();
    assert!(!s.leaves_debris());
    assert!(placed(true).is_ok() && placed(false).is_err());
    assert!(matches!(weigh_opening(Err(failure(IoKind::AlreadyExists))), Opened::TryNext));
}

#[test]
fn stage_names_stay_short() {
    let name = stage_name("x".repeat(240).as_bytes(), 1, 2);
    assert!(name.starts_with(".syncdash.tmp.") && name.len() < 100, "{name}");
    assert_ne!(name, stage_name("x".repeat(240).as_bytes(), 1, 3));
    let digest = blake3::hash("x".repeat(240).as_bytes()).to_hex().to_string();
    assert!(name.contains(&digest[..16]), "{name}");
}

// Below an open root

fn dir(s: &str) -> RootRelativeDir {
    RootRelativeDir::try_from(s).unwrap()
}

#[test]
fn paths_are_walked_name_by_name() {
    assert_eq!(segments(&dir("a/b")), vec!["a", "b"]);
    assert!(segments(&dir("")).is_empty());
    let (parent, name) = split_parent(&RootRelativePath::try_from("a/b/c").unwrap());
    assert_eq!((parent.as_str(), name.as_str()), ("a/b", "c"));
    let (parent, name) = split_directory(&dir("a")).unwrap();
    assert_eq!((parent.as_str(), name.as_str()), ("", "a"));
    assert!(split_directory(&dir("")).is_err());
    assert!(expect_regular(true, false).is_ok() && expect_regular(false, true).is_err());
}

#[test]
fn tokens_are_drawn_and_shown_in_hexadecimal() {
    assert_eq!(show_token(&vec![0x00, 0xff, 0x1a]), "00ff1a");
    let a = random_token().unwrap();
    let b = random_token().unwrap();
    assert_ne!(a, b);
    assert!(a.chars().all(|c| c.is_ascii_hexdigit()) && !a.chars().all(|c| c == '0'));
    assert!(staging_name(&a).as_str().starts_with(".syncdash.tmp.") && staging_name(&a).as_str().contains(&a));
    assert_ne!(staging_name(&a).as_str(), removal_name(&a).as_str());
}

fn meta() -> LocalMeta {
    LocalMeta { is_symlink: false, is_dir: false, len: 1, modified: None, mode: None, inode: None }
}

#[test]
fn a_listing_with_a_name_that_is_no_text_fails() {
    let good = RawEntry { name: Ok("a".to_string()), meta: Ok(meta()) };
    assert_eq!(read_entries(&vec![good]).unwrap().len(), 1);
    let bad = RawEntry { name: Err("\u{fffd}".to_string()), meta: Ok(meta()) };
    assert!(read_entries(&vec![bad]).is_err());
}

#[test]
fn directories_are_made_where_they_are_missing() {
    let (mut m, mut next) = Making::begin(&dir("a/b"));
    let mut there: Vec<String> = vec!["a".to_string()];
    let mut made = Vec::new();
    while let StepNext::Do(d) = next {
        let name = m.names[m.at].clone();
        let reply = match d {
            MakeDeed::Enter | MakeDeed::EnterMade => {
                if there.contains(&name) {
                    StepReply::Done
                } else {
                    StepReply::Failed(failure(IoKind::NotFound))
                }
            }
            MakeDeed::Create => {
                there.push(name.clone());
                made.push(name);
                StepReply::Done
            }
        };
        next = m.feed(d, reply);
    }
    assert!(matches!(next, StepNext::Over));
    assert_eq!(made, vec!["b"]);
}

#[test]
fn read_only_files_yield_on_windows_alone() {
    assert!(retry_cleared(Os::Windows, IoKind::PermissionDenied, false));
    assert!(!retry_cleared(Os::Unix, IoKind::PermissionDenied, false));
    let (mut f, d) = Force::begin(Os::Unix, false);
    assert!(matches!(f.feed(d, ForceReply::Failed(failure(IoKind::PermissionDenied))), StepNext::Failed(_)));
    let (mut f, d) = Force::begin(Os::Windows, false);
    let StepNext::Do(d) = f.feed(d, ForceReply::Failed(failure(IoKind::PermissionDenied))) else { panic!() };
    assert_eq!(d, ForceDeed::Look);
    let StepNext::Do(d) = f.feed(d, ForceReply::Link(false)) else { panic!() };
    assert_eq!(d, ForceDeed::Clear);
    let StepNext::Do(d) = f.feed(d, ForceReply::Done) else { panic!() };
    assert_eq!(d, ForceDeed::Again);
    assert!(matches!(f.feed(d, ForceReply::Done), StepNext::Over));
}

fn remove_open(found: FileIdentity) -> (bool, bool) {
    let expected = FileIdentity { device: 1, file: 2 };
    let (mut r, mut deed) = Removal::begin("d/f", "f", expected);
    let (mut removed, mut restored) = (false, false);
    loop {
        let reply = match &deed {
            RemovalDeed::Token => RemovalReply::Token("00ff".to_string()),
            RemovalDeed::Identify(_) => RemovalReply::Identity(found),
            RemovalDeed::Remove(_) => {
                removed = true;
                RemovalReply::Done
            }
            RemovalDeed::Rollback(_, e) => {
                assert_eq!(e.kind, IoKind::NotFound);
                restored = true;
                RemovalReply::Done
            }
            RemovalDeed::Claim(_) => RemovalReply::Done,
        };
        match r.feed(deed, reply) {
            StepNext::Do(d) => deed = d,
            StepNext::Over => {
                assert!(!restored);
                return (removed, restored);
            }
            StepNext::Failed(_) => return (removed, restored),
        }
    }
}

#[test]
fn only_the_file_that_is_open_is_removed() {
    assert_eq!(remove_open(FileIdentity { device: 1, file: 2 }), (true, false));
    assert_eq!(remove_open(FileIdentity { device: 1, file: 3 }), (false, true));
}

#[test]
fn a_tree_is_removed_from_the_bottom() {
    let mut tree: BTreeMap<&str, Vec<&str>> = BTreeMap::new();
    tree.insert("t", vec!["d", "f"]);
    tree.insert("d", vec!["g"]);
    let (mut t, mut deed) = TreeRemoval::begin("t");
    let mut gone = Vec::new();
    loop {
        let name = t.current().to_string();
        let reply = match deed {
            TreeDeed::Look => TreeReply::Dir(tree.contains_key(name.as_str())),
            TreeDeed::Enter => {
                TreeReply::Names(tree[name.as_str()].iter().map(|s| s.to_string()).collect())
            }
            TreeDeed::Confirm => TreeReply::Same(true),
            TreeDeed::RemoveDir | TreeDeed::RemoveFile => {
                gone.push(name);
                TreeReply::Done
            }
        };
        match t.feed(deed, reply) {
            TreeNext::Do(d) => deed = d,
            TreeNext::Over => break,
            TreeNext::Failed(e) => panic!("{e:?}"),
        }
    }
    assert_eq!(gone, vec!["g", "d", "f", "t"]);
}

#[test]
fn a_directory_that_was_exchanged_is_spared() {
    let (mut t, deed) = TreeRemoval::begin("t");
    let TreeNext::Do(deed) = t.feed(deed, TreeReply::Dir(true)) else { panic!() };
    let TreeNext::Do(deed) = t.feed(deed, TreeReply::Names(Vec::new())) else { panic!() };
    assert!(matches!(deed, TreeDeed::Confirm));
    assert!(matches!(t.feed(deed, TreeReply::Same(false)), TreeNext::Failed(_)));
}

#[test]
fn a_confined_stage_ends_in_its_directory() {
    let mut s = LocalStagedFile::create("00ff", EntryName::new("x").unwrap());
    assert!(s.writable().is_ok());
    let _ = s.seal(false);
    assert!(s.writable().is_err());
    let c = s.commit(true);
    assert!(c.keep_existing);
    s.renamed();
    assert!(!s.leaves_debris());
    assert_eq!(s.destination_name.as_str(), "x");
}

#[test]
fn links_are_made_as_the_system_allows() {
    assert!(may_link(Os::Unix, true).is_ok());
    assert!(weigh_link(Ok(()), Err(failure(IoKind::Other))).is_ok());
    let e = weigh_link(Err(failure(IoKind::PermissionDenied)), Err(failure(IoKind::Other)));
    assert!(e.is_err());
}

#[test]
fn a_rename_request_is_laid_out_in_words() {
    let l = rename_layout(3, 20, 8).unwrap();
    assert_eq!(l.name_bytes, 6);
    assert_eq!((l.allocation, l.words), (24, 3));
    assert_eq!(rename_layout(4, 20, 8).unwrap().words, 4);
    assert!(rename_layout(usize::MAX / 2 + 1, 20, 8).is_err());
}

/// Copies `source` in runs of `size` bytes; the run numbered `stop_at` is refused once it is shown.
fn copy_all(source: &[u8], size: usize, stop_at: usize) -> (Vec<u8>, u64, Result<u64, String>) {
    let (mut run, mut deed) = CopyRun::begin(&Staged::create()).ok().unwrap();
    let mut out = Vec::new();
    let mut seen = 0u64;
    let mut shown = 0;
    loop {
        let reply = match deed {
            CopyDeed::Read => CopyReply::Bytes(size.min(source.len() - out.len())),
            CopyDeed::Write(n) => {
                out.extend_from_slice(&source[out.len()..out.len() + n]);
                CopyReply::Done
            }
            CopyDeed::Show(n) => {
                shown += 1;
                if shown == stop_at {
                    CopyReply::Failed(IoFailure::new(IoKind::Other, "stop"))
                } else {
                    seen += n as u64;
                    CopyReply::Done
                }
            }
        };
        match run.feed(deed, reply) {
            CopyNext::Do(next) => deed = next,
            CopyNext::Over(total) => return (out, seen, Ok(total)),
            CopyNext::Failed(f) => return (out, seen, Err(f.message)),
        }
    }
}

#[test]
fn a_copy_counts_what_it_shows() {
    let source = vec![7u8; 3 * 1024 * 1024 + 123];
    let (out, seen, r) = copy_all(&source, 1024 * 1024, 0);
    assert_eq!(r, Ok(3 * 1024 * 1024 + 123));
    assert_eq!(seen, 3 * 1024 * 1024 + 123);
    assert_eq!(out, source);
    assert_eq!(copy_all(&[], 4, 0).2, Ok(0));
}

#[test]
fn a_copy_stops_when_told_to() {
    let (out, seen, r) = copy_all(&[1, 2, 3, 4, 5], 2, 1);
    assert_eq!(r, Err("stop".to_string()));
    assert_eq!(seen, 0);
    assert_eq!(out, vec![1, 2]);
}

#[test]
fn a_sealed_file_takes_no_copy() {
    let mut staged = Staged::create();
    staged.seal(false);
    let e = CopyRun::begin(&staged).err().unwrap();
    assert_eq!(e.kind, IoKind::Other);
    assert_eq!(e.message, "staged file already sealed");
}
