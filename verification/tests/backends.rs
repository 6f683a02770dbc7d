//! Local disks, FTP and SFTP servers.
use syncdash::fs::ssh::{
    connect_timeout, default_keys, map_connect_err, HostCheck, HostCheckError, KnownHost, Login,
    LoginDeed, LoginNext, LoginReply,
};
use syncdash::fs::vfs::error::{Errnos, IoFailure, IoKind, Os, VfsError, VfsErrorKind};
use syncdash::fs::vfs::ftp::{self, Feats, FtpBackend, FtpCommit, FtpDeed, FtpFault, FtpLogin, FtpNext, FtpReply};
use syncdash::fs::vfs::local::{
    self, bsd_fs_name, case_for_fs, caps_on, filetime_parts, linux_fs_name, medium_for_fs,
    medium_for_win_drive_type, mtime_precision_for, probe_unix, probe_windows, trash_reaches,
    win_root_of, LocalCommit, LocalEntry, LocalMeta, LocalVfs, Volume, WinAnswer, WinRoot,
};
use syncdash::fs::vfs::remote::{
    mkdir_steps, read_timeout, show_seconds, stat_place, temp_rel, unconnected, weigh_mkdir, RangeRead,
};
use syncdash::fs::vfs::sftp::{
    self, confirm_absent, map_sftp_err, mtime_secs, SftpAttrs, SftpBackend, SftpConnect, SftpDeed,
    SftpFault, SftpNext, SftpReply, SftpStatus, StatNext,
};
use syncdash::fs::vfs::smb::macos::{
    find_existing_mount, private_mount_dir, MacDeed, MacNext, MacReply, MacResolve,
};
use syncdash::fs::vfs::smb::unsupported;
use syncdash::fs::vfs::smb::windows::{weigh_probe, Probed, WinDeed, WinNext, WinReply, WinResolve};
use syncdash::fs::vfs::spec::{parse, RemoteSpec, RootSpec};
use syncdash::fs::vfs::{CaseSense, Medium, Support, WriteHint};
use syncdash::table::EntryKind;

const LINUX: Errnos = Errnos { exdev: 18, enotsup: 95, eopnotsupp: 95, enosys: 38 };

fn remote(s: &str) -> RemoteSpec {
    let RootSpec::Remote(r) = parse(s) else { panic!("{s} is no remote root") };
    r
}

fn texts(v: &[&str]) -> Vec<String> {
    v.iter().map(|s| s.to_string()).collect()
}

fn failure(kind: IoKind) -> IoFailure {
    IoFailure::new(kind, "failed")
}

#[test]
fn a_unc_root_is_a_share_whatever_the_spelling() {
    assert_eq!(win_root_of(r"\\nas\photos\2026"), WinRoot::Share(r"\\nas\photos\".into()));
    assert_eq!(win_root_of(r"\\nas\photos"), WinRoot::Share(r"\\nas\photos\".into()));
    assert_eq!(win_root_of(r"\\?\UNC\nas\photos\sub"), WinRoot::Share(r"\\nas\photos\".into()));
    assert_eq!(win_root_of(r"\\nas"), WinRoot::Unknown);
}

#[test]
fn a_drive_root_survives_every_spelling() {
    assert_eq!(win_root_of(r"D:\Code\x"), WinRoot::Drive(r"D:\".into()));
    assert_eq!(win_root_of("D:/Code/x"), WinRoot::Drive(r"D:\".into()));
    assert_eq!(win_root_of("d:/code"), WinRoot::Drive(r"D:\".into()));
    assert_eq!(win_root_of("D:"), WinRoot::Drive(r"D:\".into()));
    assert_eq!(win_root_of(r"\\?\D:\very\long"), WinRoot::Drive(r"D:\".into()));
    assert_eq!(win_root_of("relative/dir"), WinRoot::Unknown);
}

#[test]
fn drive_types_map_to_media() {
    assert_eq!(medium_for_win_drive_type(3), Medium::FixedDisk);
    assert_eq!(medium_for_win_drive_type(4), Medium::NetworkShare);
    assert_eq!(medium_for_win_drive_type(2), Medium::RemovableDisk);
    assert_eq!(medium_for_win_drive_type(5), Medium::RemovableDisk);
    assert_eq!(medium_for_win_drive_type(0), Medium::Unknown);
    assert_eq!(medium_for_win_drive_type(1), Medium::Unknown);
}

#[test]
fn fat_and_exfat_keep_their_real_mtime_granularity() {
    assert_eq!(mtime_precision_for("FAT32"), 2000);
    assert_eq!(mtime_precision_for("msdos"), 2000);
    assert_eq!(mtime_precision_for("exFAT"), 10);
    assert_eq!(mtime_precision_for("NTFS"), 1);
    assert_eq!(mtime_precision_for("apfs"), 1);
    assert_eq!(mtime_precision_for(""), 1, "an unnamed filesystem is not assumed coarse");
}

#[test]
fn network_filesystems_are_recognized_by_name() {
    for fs in ["smbfs", "cifs", "nfs", "afpfs", "sshfs", "SMB2"] {
        assert_eq!(medium_for_fs(fs), Medium::NetworkShare, "{fs}");
    }
    for fs in ["apfs", "ext4", "NTFS", "btrfs", "exfat"] {
        assert_eq!(medium_for_fs(fs), Medium::FixedDisk, "{fs}");
    }
    assert_eq!(medium_for_fs("fuse"), Medium::Unknown, "fuse could be either — say so");
    assert_eq!(medium_for_fs(""), Medium::Unknown);
}

#[test]
fn case_sensitivity_is_claimed_only_where_the_name_settles_it() {
    assert_eq!(case_for_fs("ext4"), CaseSense::Sensitive);
    assert_eq!(case_for_fs("exfat"), CaseSense::Insensitive);
    assert_eq!(case_for_fs("apfs"), CaseSense::Unknown);
    assert_eq!(case_for_fs("hfs"), CaseSense::Unknown);
    assert_eq!(case_for_fs("smbfs"), CaseSense::Unknown);
}

#[test]
fn the_central_trash_is_claimed_only_for_volumes_on_this_machine() {
    assert!(trash_reaches(Medium::FixedDisk));
    assert!(trash_reaches(Medium::RemovableDisk), "a local copy is fast and costs no bandwidth");
    assert!(!trash_reaches(Medium::NetworkShare), "this is the download");
    assert!(!trash_reaches(Medium::Unknown), "not established is not the same as local");
}

#[test]
fn a_volume_is_probed_once() {
    let mut v = LocalVfs::new("/data", Os::Unix);
    assert!(!v.caps().local_trash);
    let disk = probe_unix(Some("ext4".to_string()));
    assert_eq!(v.volume(disk), probe_unix(Some("ext4".to_string())));
    assert_eq!(v.volume(Volume::unknown()), probe_unix(Some("ext4".to_string())));
    assert!(v.caps().local_trash);
    assert_eq!(v.caps().medium, Medium::FixedDisk);
    assert_eq!(probe_unix(None), Volume::unknown());
}

#[test]
fn windows_names_its_filesystems_in_utf16() {
    let units: Vec<u16> = "NTFS\0junk".encode_utf16().collect();
    let a = WinAnswer { drive_type: 3, fs: Some((units, 0)) };
    let vol = probe_windows(&WinRoot::Drive("C:\\".to_string()), &a);
    assert_eq!(vol.fs_name, "NTFS");
    assert_eq!(vol.medium, Medium::FixedDisk);
    let strange = WinAnswer { drive_type: 3, fs: Some((vec![0xD800, 0x41, 0], 0)) };
    let vol = probe_windows(&WinRoot::Drive("C:\\".to_string()), &strange);
    assert_eq!(vol.fs_name, "\u{FFFD}A");
    let none = WinAnswer { drive_type: 3, fs: None };
    assert_eq!(probe_windows(&WinRoot::Unknown, &none), Volume::unknown());
}

#[test]
fn linux_numbers_its_filesystems() {
    assert_eq!(linux_fs_name(0xEF53), "ext4");
    assert_eq!(linux_fs_name(1), "");
    assert_eq!(bsd_fs_name(b"apfs\0\0\0junk"), "apfs");
    assert_eq!(bsd_fs_name(b"smbfs"), "smbfs");
    assert_eq!(bsd_fs_name(b""), "");
}

fn plain(len: u64) -> LocalMeta {
    LocalMeta { is_symlink: false, is_dir: false, len, modified: Some(1500), mode: Some(0o100644), inode: Some((3, 9)) }
}

#[test]
fn local_metadata_is_read_without_following() {
    let m = local::meta_of(&plain(5));
    assert_eq!((m.kind, m.size, m.mtime_ms), (EntryKind::File, 5, 1500));
    let link = local::meta_of(&LocalMeta { is_symlink: true, is_dir: true, ..plain(5) });
    assert_eq!(link.kind, EntryKind::Symlink);
    assert!(local::weigh_stat(Err(failure(IoKind::NotFound)), Os::Unix, LINUX).unwrap().is_none());
    let e = local::weigh_stat(Err(failure(IoKind::PermissionDenied)), Os::Unix, LINUX).unwrap_err();
    assert_eq!(e.kind, VfsErrorKind::PermissionDenied);
}

#[test]
fn a_name_that_is_no_text_is_left_out_of_a_listing() {
    let found = vec![
        LocalEntry { name: Some("a".to_string()), meta: Ok(plain(1)) },
        LocalEntry { name: None, meta: Ok(plain(2)) },
    ];
    let list = local::dir_entries(found, Os::Unix, LINUX);
    match list {
        Ok(v) => assert_eq!(v.iter().filter(|e| e.name == "a").count(), 1),
        Err(e) => panic!("{e:?}"),
    }
}

#[test]
fn times_before_the_epoch_count_up_to_it() {
    assert_eq!(filetime_parts(1_500), (1, 500_000_000));
    assert_eq!(filetime_parts(-1), (-1, 999_000_000));
    assert_eq!(filetime_parts(-1_500), (-2, 500_000_000));
    assert_eq!(LocalVfs::new("/data", Os::Unix).abs("a/b"), "/data/a/b");
}

#[test]
fn a_local_commit_sets_time_and_mode_before_it_lands() {
    let hint = WriteHint { size_hint: None, mtime_ms: Some(1_500), mode: Some(0o644) };
    let (mut c, d) = LocalCommit::begin(hint, Os::Unix);
    assert_eq!(d, local::CommitDeed::Time(1, 500_000_000));
    let refused = VfsError::new(VfsErrorKind::PermissionDenied, "no");
    let local::CommitNext::Do(d) = c.feed(d, local::CommitReply::Failed(refused)) else { panic!() };
    assert_eq!(d, local::CommitDeed::Mode(0o644));
    let local::CommitNext::Do(d) = c.feed(d, local::CommitReply::Done) else { panic!() };
    assert_eq!(d, local::CommitDeed::Place);
    let local::CommitNext::Do(d) = c.feed(d, local::CommitReply::Done) else { panic!() };
    assert_eq!(d, local::CommitDeed::Look);
    assert!(matches!(c.feed(d, local::CommitReply::Seen(Some(1_000))), local::CommitNext::Over));
    assert_eq!(c.report.mtime_ondisk_ms, Some(1_000));
    assert!(c.report.mtime_error.is_some());
}

#[test]
fn caps_follow_the_volume() {
    let share = Volume { medium: Medium::NetworkShare, fs_name: "smbfs".to_string(), case_sensitivity: CaseSense::Unknown };
    let c = caps_on(&share, Os::Macos);
    assert!(!c.local_trash);
    assert_eq!(c.medium, Medium::NetworkShare);
    let fat = Volume { medium: Medium::RemovableDisk, fs_name: "FAT32".to_string(), case_sensitivity: CaseSense::Insensitive };
    assert_eq!(caps_on(&fat, Os::Windows).mtime_precision_ms, 2000);
}

// FTP

#[test]
fn caps_before_connect_assume_the_worst_honestly() {
    let b = FtpBackend::new(remote("ftp://anonymous@nas/pub"));
    let c = b.caps();
    assert_eq!(c.mtime_precision_ms, 60_000);
    assert_eq!(c.set_mtime, Support::Unknown);
    assert_eq!(c.fsync, Support::No);
    assert_eq!(c.max_parallel_streams, 1);
}

#[test]
fn abs_paths_are_rooted() {
    let b = FtpBackend::new(remote("ftp://u@h/pub/data"));
    assert_eq!(b.abs(""), "/pub/data");
    assert_eq!(b.abs("x/y.txt"), "/pub/data/x/y.txt");
    let r = FtpBackend::new(remote("ftp://u@h"));
    assert_eq!(r.abs(""), "/");
    assert_eq!(r.abs("a.txt"), "/a.txt");
}

fn ftp_login() -> FtpLogin {
    FtpLogin {
        user: String::new(),
        password: String::new(),
        feats: Feats { mlsd: false, mfmt: false, rest: false },
    }
}

fn refusal(n: FtpNext) -> VfsError {
    match n {
        FtpNext::Refused(e) => e,
        _ => panic!("not refused"),
    }
}

#[test]
fn ftps_is_a_real_scheme_and_authenticates_like_ftp() {
    let mut b = FtpBackend::new(remote("ftps://u@h/x"));
    assert!(matches!(b.start_connect(), FtpNext::Do(FtpDeed::Credentials)));
    let e = refusal(b.connect(&mut ftp_login(), FtpDeed::Credentials, FtpReply::Password(None)));
    assert_eq!(e.kind, VfsErrorKind::Auth, "no stored secret — same rung ftp:// stops at");
    assert_ne!(e.kind, VfsErrorKind::Unsupported, "the scheme itself is supported now");

    let e = refusal(FtpBackend::new(remote("ftps://h/x")).start_connect());
    assert_eq!(e.kind, VfsErrorKind::Auth);
}

fn ftp_walk(phrase: &str) -> (FtpBackend, Vec<FtpDeed>) {
    let mut b = FtpBackend::new(remote(phrase));
    let mut login = ftp_login();
    let mut seen = Vec::new();
    let mut next = b.start_connect();
    loop {
        match next {
            FtpNext::Do(d) => {
                seen.push(d);
                let reply = match d {
                    FtpDeed::Credentials => FtpReply::Password(None),
                    FtpDeed::Resolve => FtpReply::Address(true),
                    FtpDeed::Features | FtpDeed::AskUtf8 => {
                        FtpReply::Announced(Some(texts(&["MLST", "MLSD", "MFMT", "UTF8"])))
                    }
                    _ => FtpReply::Done,
                };
                next = b.connect(&mut login, d, reply);
            }
            FtpNext::Connected => {
                assert_eq!(login.user, "anonymous");
                assert_eq!(login.password, "anonymous@syncdash");
                return (b, seen);
            }
            FtpNext::Refused(e) => panic!("{e:?}"),
        }
    }
}

#[test]
fn ftp_connects_step_by_step() {
    let (b, seen) = ftp_walk("ftps://anonymous@h/x|active");
    assert_eq!(
        seen,
        vec![
            FtpDeed::Credentials,
            FtpDeed::Resolve,
            FtpDeed::Open { tls: true },
            FtpDeed::Features,
            FtpDeed::AskUtf8,
            FtpDeed::Utf8,
            FtpDeed::Login,
            FtpDeed::Binary,
            FtpDeed::Active,
        ]
    );
    assert!(b.connected && b.ready().is_ok());
    assert!(b.feats.unwrap().mfmt);
    assert_eq!(b.caps().set_mtime, Support::Yes);
    let (_, seen) = ftp_walk("ftp://anonymous@h/x");
    assert!(seen.contains(&FtpDeed::Open { tls: false }) && !seen.contains(&FtpDeed::Active));
}

#[test]
fn an_unconnected_server_says_nothing_of_files() {
    let b = FtpBackend::new(remote("ftp://u@h/x"));
    assert_eq!(b.ready().unwrap_err().kind, VfsErrorKind::Transient);
    assert_eq!(b.set_mode("a", 0o644).unwrap_err().kind, VfsErrorKind::Unsupported);
    assert_eq!(b.make_symlink("a", "b").unwrap_err().kind, VfsErrorKind::Unsupported);
    assert_eq!(b.port(), 21);
}

#[test]
fn ftp_faults_are_told_apart() {
    let e = ftp::map_ftp_err("stat", &FtpFault::Answer(550, " No such file \r\n".to_string()));
    assert_eq!(e.kind, VfsErrorKind::NotFound);
    assert_eq!(e.detail, "stat: server answered 550: No such file");
    let e = ftp::map_ftp_err("stat", &FtpFault::Connection("reset".to_string()));
    assert_eq!(e.kind, VfsErrorKind::Transient);
    assert!(ftp::poisons(&e));
    let e = ftp::map_ftp_err("stat", &FtpFault::Answer(502, "no".to_string()));
    assert_eq!(e.kind, VfsErrorKind::Protocol);
    assert!(!ftp::poisons(&e));
}

#[test]
fn machine_listings_are_read() {
    let lines = texts(&[
        "type=cdir;modify=20240101000000; .",
        "type=file;size=1024;modify=20240101000000; report.txt",
        "type=dir;modify=20240101000000; sub",
    ]);
    let list = ftp::parse_listing("", &lines, true).unwrap();
    let entries = ftp::dir_entries(&list);
    let file = entries.iter().find(|e| e.name == "report.txt").unwrap();
    assert_eq!(file.meta.kind, EntryKind::File);
    assert_eq!(file.meta.size, 1024);
    assert_eq!(file.meta.mtime_ms, 1_704_067_200_000);
    assert_eq!(entries.iter().find(|e| e.name == "sub").unwrap().meta.kind, EntryKind::Dir);
}

#[test]
fn unix_and_dos_listings_are_read() {
    let lines = texts(&[
        "-rw-r--r-- 1 owner group 2048 Nov 5 2018 omar.txt",
        "lrwxrwxrwx 1 owner group 4 Nov 5 2018 l -> omar.txt",
        "10-19-20  03:19PM <DIR> pub",
    ]);
    let list = ftp::parse_listing("", &lines, false).unwrap();
    let entries = ftp::dir_entries(&list);
    let file = entries.iter().find(|e| e.name == "omar.txt").unwrap();
    assert_eq!((file.meta.kind, file.meta.size), (EntryKind::File, 2048));
    assert_eq!(file.meta.mtime_ms, 1_541_376_000_000);
    let link = entries.iter().find(|e| e.name == "l").unwrap();
    assert_eq!(link.meta.kind, EntryKind::Symlink);
    assert_eq!(link.meta.link.as_deref(), Some("omar.txt"));
    assert_eq!(entries.iter().find(|e| e.name == "pub").unwrap().meta.kind, EntryKind::Dir);
}

#[test]
fn an_unreadable_listing_is_no_empty_one() {
    assert!(ftp::parse_listing("d", &texts(&["type=badtype;size=0;modify=20181105163248; bad.txt"]), false).is_err());
    assert!(ftp::parse_listing("d", &Vec::new(), false).unwrap().is_empty());
}

#[test]
fn a_missing_name_in_a_listing_is_an_absence() {
    let lines = texts(&["type=file;size=1;modify=20240101000000; a"]);
    let list = || ftp::parse_listing("", &lines, true);
    assert!(ftp::weigh_stat(list(), "a").unwrap().is_some());
    assert!(ftp::weigh_stat(list(), "b").unwrap().is_none());
    let broken = VfsError::new(VfsErrorKind::Transient, "gone");
    assert_eq!(ftp::weigh_stat(Err(broken), "a").unwrap_err().kind, VfsErrorKind::Transient);
    assert_eq!(ftp::root_entry().kind, EntryKind::Dir);
}

#[test]
fn a_time_is_set_by_command() {
    assert_eq!(ftp::mfmt_command(1_000_000_000_000, "/a b"), "MFMT 20010909014640 /a b");
}

fn ftp_commit(size: u64) -> (Vec<&'static str>, ftp::CommitNext) {
    let c = FtpCommit {
        dst_abs: "/d".to_string(),
        wrote: 7,
        hint: WriteHint { size_hint: None, mtime_ms: Some(1_000_000_000_000), mode: None },
        feats: Feats { mlsd: true, mfmt: true, rest: true },
    };
    let mut seen = Vec::new();
    let mut deed = FtpCommit::begin(true);
    loop {
        let (name, reply) = match &deed {
            ftp::CommitDeed::Seal => ("seal", ftp::CommitReply::Done),
            ftp::CommitDeed::Clear => {
                ("clear", ftp::CommitReply::Fault(FtpFault::Answer(550, "none".to_string())))
            }
            ftp::CommitDeed::Rename => ("rename", ftp::CommitReply::Done),
            ftp::CommitDeed::Size => ("size", ftp::CommitReply::Len(size)),
            ftp::CommitDeed::Mtime(m) => {
                assert_eq!(m, "MFMT 20010909014640 /d");
                ("mtime", ftp::CommitReply::Fault(FtpFault::Answer(502, "no".to_string())))
            }
        };
        seen.push(name);
        match c.commit(&deed, reply) {
            ftp::CommitNext::Do(d) => deed = d,
            over => return (seen, over),
        }
    }
}

#[test]
fn a_short_upload_does_not_land() {
    let (_, over) = ftp_commit(6);
    assert!(matches!(over, ftp::CommitNext::Over(Err(_))));
    let (seen, over) = ftp_commit(7);
    assert_eq!(seen, vec!["seal", "clear", "rename", "size", "mtime"]);
    let ftp::CommitNext::Over(Ok(report)) = over else { panic!() };
    assert!(report.mtime_error.is_some(), "a refused time is told, not fatal");
}

// What all servers have in common

#[test]
fn remote_paths_are_taken_apart() {
    assert_eq!(mkdir_steps("a/b/c"), texts(&["a", "a/b", "a/b/c"]));
    assert_eq!(mkdir_steps(""), Vec::<String>::new());
    assert_eq!(stat_place("a/b/c"), ("a/b".to_string(), "c".to_string()));
    assert_eq!(stat_place("c"), (String::new(), "c".to_string()));
    let t = temp_rel("a/b.txt", 42);
    assert!(t.starts_with("a/.syncdash.tmp."), "{t}");
    assert_eq!(show_seconds(30), "30s");
    assert_eq!(read_timeout(&remote("sftp://h/x|timeout=7")), 7);
}

#[test]
fn a_range_is_read_piece_by_piece() {
    let mut r = RangeRead::new(5);
    assert_eq!(r.missing(), 5);
    assert!(!r.take(&vec![1, 2]));
    assert_eq!(r.missing(), 3);
    assert!(r.take(&Vec::new()), "the end of the file ends it");
    assert_eq!(r.got, vec![1, 2]);
    let mut r = RangeRead::new(2);
    assert!(r.take(&vec![1, 2]));
}

#[test]
fn a_directory_that_is_there_was_made() {
    let taken = VfsError::new(VfsErrorKind::NotFound, "550");
    assert!(weigh_mkdir(Err(taken), true).is_ok());
    let refused = VfsError::new(VfsErrorKind::NotFound, "550");
    assert!(weigh_mkdir(Err(refused), false).is_err());
    assert_eq!(unconnected("x").kind, VfsErrorKind::Transient);
}

// SFTP

fn profile() {
    let c = SftpBackend::new(remote("sftp://ben@host/data")).caps();
    assert_eq!(c.mtime_precision_ms, 1000);
    assert_eq!(c.rename_overwrite, Support::No);
    assert_eq!(c.free_space, Support::No);
    assert!(c.ranged_read.yes());
}

fn not_connected() {
    let e = SftpBackend::new(remote("sftp://ben@host/data")).abs("x").unwrap_err();
    assert_eq!(e.kind, VfsErrorKind::Transient);
}

#[test]
fn sftp_caps_declare_the_sftp_profile() {
    profile();
}

#[test]
fn mod_caps_declare_the_sftp_profile() {
    profile();
}

#[test]
fn sftp_unconnected_backend_reports_transient_not_missing() {
    not_connected();
}

#[test]
fn mod_unconnected_backend_reports_transient_not_missing() {
    not_connected();
}

#[test]
fn write_side_still_needs_a_connection_first() {
    let e = SftpBackend::new(remote("sftp://ben@host/data")).abs("x").unwrap_err();
    assert_eq!(
        e.kind,
        VfsErrorKind::Transient,
        "unconnected is a transient state, never a judgment about files"
    );
}

fn attrs(permissions: u32) -> SftpAttrs {
    SftpAttrs { size: Some(9), permissions: Some(permissions), mtime: Some(100) }
}

#[test]
fn sftp_attributes_name_their_kind() {
    let file = sftp::meta_of(&attrs(0o100644));
    assert_eq!((file.kind, file.size, file.mtime_ms), (EntryKind::File, 9, 100_000));
    assert_eq!(sftp::meta_of(&attrs(0o040755)).kind, EntryKind::Dir);
    assert_eq!(sftp::meta_of(&attrs(0o120777)).kind, EntryKind::Symlink);
    let bare = SftpAttrs { size: None, permissions: None, mtime: None };
    assert_eq!(sftp::meta_of(&bare).kind, EntryKind::File);
}

#[test]
fn an_absence_is_confirmed_by_the_parent() {
    let gone = || {
        map_sftp_err(
            "stat",
            &SftpFault::Status {
                status: SftpStatus::NoSuchFile,
                name: "No such file".to_string(),
                message: "x".to_string(),
            },
        )
    };
    assert_eq!(gone().kind, VfsErrorKind::NotFound);
    assert!(matches!(sftp::weigh_stat("a/b", Err(gone())), StatNext::Confirm));
    assert!(confirm_absent("a/b", "b", Ok(texts(&["c"]))).is_ok());
    assert!(confirm_absent("a/b", "b", Ok(texts(&["b"]))).is_err());
    assert_eq!(map_sftp_err("x", &SftpFault::Timeout).kind, VfsErrorKind::Transient);
    let list = sftp::dir_entries(&vec![(".".to_string(), attrs(0o040755)), ("f".to_string(), attrs(0o100644))]);
    assert_eq!(list.len(), 1);
    assert_eq!(mtime_secs(1_999), 1);
}

#[test]
fn sftp_connects_step_by_step() {
    let mut b = SftpBackend::new(remote("sftp://ben@host"));
    let mut c = SftpConnect { keyfile: None, has_password: false, login: None };
    let mut next = b.start_connect();
    let mut steps = 0;
    loop {
        match next {
            SftpNext::Do(d) => {
                let reply = match &d {
                    SftpDeed::Credentials => SftpReply::Stored { keyfile: None, has_password: true },
                    SftpDeed::Reach => SftpReply::Reached { existing: texts(&["/home/ben/.ssh/id"]) },
                    SftpDeed::Login(LoginDeed::Key) => SftpReply::Attempt(LoginReply::Refused),
                    SftpDeed::Login(LoginDeed::Password) => SftpReply::Attempt(LoginReply::Accepted),
                    SftpDeed::Home => SftpReply::Path("/home/ben".to_string()),
                    _ => SftpReply::Done,
                };
                next = b.connect(&mut c, d, reply);
                steps += 1;
            }
            SftpNext::Connected => break,
            SftpNext::Refused(e) => panic!("{e:?}"),
        }
    }
    assert_eq!(steps, 8);
    assert_eq!(b.abs("x").unwrap(), "/home/ben/x");
    assert!(b.server_info().is_some());
}

#[test]
fn a_refused_host_ends_the_connection() {
    let mut b = SftpBackend::new(remote("sftp://ben@host/x"));
    let mut c = SftpConnect { keyfile: None, has_password: true, login: None };
    let changed = HostCheckError::Changed { fingerprint: "SHA256:abc".to_string() };
    let SftpNext::Refused(e) = b.connect(&mut c, SftpDeed::Reach, SftpReply::Host(changed)) else {
        panic!()
    };
    assert_eq!(e.kind, VfsErrorKind::Auth);
    assert!(b.abs("x").is_err());
}

// SSH

#[test]
fn only_a_known_key_is_accepted() {
    let h = HostCheck { host: "h".to_string(), port: 22 };
    assert!(h.judge(KnownHost::Known, "f").is_ok());
    assert!(matches!(h.judge(KnownHost::Unlisted, "f"), Err(HostCheckError::Unknown { .. })));
    let Err(e) = h.judge(KnownHost::Contradicted, "f") else { panic!() };
    assert!(matches!(&e, HostCheckError::Changed { fingerprint } if fingerprint == "f"));
    assert!(map_connect_err(&e, "h", "sftp://h").detail.contains("h"));
    let t = map_connect_err(&HostCheckError::Ssh("reset".to_string()), "h", "sftp://h");
    assert!(t.detail.contains("reset"));
    assert_eq!(connect_timeout("h", 22, "30s").kind, VfsErrorKind::Transient);
}

#[test]
fn a_named_key_that_cannot_be_read_is_an_error() {
    let (mut l, n) = Login::start("u", "h", &Some("k.pub".to_string()), Vec::new(), true);
    assert!(matches!(n, LoginNext::Do(LoginDeed::Key)));
    let reply = LoginReply::Unreadable { error: "bad".to_string(), head: "ssh-ed25519 AAAA".to_string() };
    let LoginNext::Failed(e) = l.feed(LoginDeed::Key, reply) else { panic!() };
    assert!(e.detail.contains("PUBLIC key"), "{}", e.detail);

    let (mut l, _) = Login::start("u", "h", &None, texts(&["a", "b"]), false);
    let reply = LoginReply::Unreadable { error: "bad".to_string(), head: String::new() };
    assert!(matches!(l.feed(LoginDeed::Key, reply), LoginNext::Do(LoginDeed::Key)));
    let LoginNext::Failed(e) = l.feed(LoginDeed::Key, LoginReply::Refused) else { panic!() };
    assert_eq!(e.kind, VfsErrorKind::Auth);
}

#[test]
fn default_keys_lie_in_the_home() {
    let keys = default_keys("/home/u", false);
    assert!(!keys.is_empty() && keys.iter().all(|k| k.starts_with("/home/u/.ssh/id_")), "{keys:?}");
}

// SMB

#[test]
fn a_mounted_share_is_found() {
    let table = "//ben@nas/photos on /Volumes/photos (smbfs, nodev)\n/dev/disk1 on / (apfs)\n";
    assert_eq!(find_existing_mount(table, "NAS", "photos", &None).as_deref(), Some("/Volumes/photos"));
    assert_eq!(find_existing_mount(table, "nas", "music", &None), None);
    assert_eq!(find_existing_mount(table, "nas", "photos", &Some("eve".to_string())), None);
    assert_eq!(private_mount_dir(&Some("/Users/b".to_string())), "/Users/b/Library/Caches/syncdash/mnt");
}

#[test]
fn macos_mounts_a_share_where_none_is() {
    let mut m = MacResolve::new(remote("smb://ben@nas/photos/sub"), "photos", "sub", &Some("/Users/b".to_string()));
    assert!(m.url().contains("nas/photos"));
    let MacNext::Do(d) = m.feed(MacDeed::Scan, MacReply::Table(Some(String::new()))) else { panic!() };
    assert_eq!(d, MacDeed::MakeDir);
    let MacNext::Do(d) = m.feed(d, MacReply::Done) else { panic!() };
    assert_eq!(d, MacDeed::Mount);
    let MacNext::At(p) = m.feed(d, MacReply::Done) else { panic!() };
    assert!(p.starts_with("/Users/b/Library/Caches/syncdash/mnt") && p.ends_with("sub"), "{p}");
}

#[test]
fn windows_asks_for_a_session_only_when_denied() {
    let mut w = WinResolve::new(remote("smb://ben@nas/photos"), "photos", "");
    let there = weigh_probe("x", Ok(()), LINUX);
    assert!(matches!(w.feed(WinDeed::Probe, WinReply::Look(there)), WinNext::Served));
    let code = |n: i32| IoFailure { kind: IoKind::Other, raw: Some(n), message: "e".to_string() };
    let Probed::Hard(e) = weigh_probe("x", Err(code(67)), LINUX) else { panic!() };
    assert_eq!(e.kind, VfsErrorKind::Protocol);
    let Probed::Hard(e) = weigh_probe("x", Err(code(53)), LINUX) else { panic!() };
    assert_eq!(e.kind, VfsErrorKind::Transient);
    let Probed::Hard(e) = weigh_probe("x", Err(failure(IoKind::NotFound)), LINUX) else { panic!() };
    assert_eq!(e.kind, VfsErrorKind::NotFound);
    let denied = weigh_probe("x", Err(code(5)), LINUX);
    assert!(matches!(denied, Probed::Denied));
    let WinNext::Do(d) = w.feed(WinDeed::Probe, WinReply::Look(denied)) else { panic!() };
    assert!(matches!(d, WinDeed::Credentials));
    assert!(unsupported::resolve(&remote("smb://nas/photos"), "photos", "").is_err());
}

#[test]
fn the_leap_second_before_the_epoch_is_refused() {
    for modify in ["19691231235960", "19691231235960.5", "1969 12 31 23 59 60", "+01969 12 31 23 59 60"] {
        let line = format!("type=file;MODIFY={modify}; a");
        for mlsd in [true, false] {
            let e = ftp::parse_listing("d", &texts(&[line.as_str()]), mlsd).unwrap_err();
            assert_eq!(e.kind, VfsErrorKind::Protocol);
            assert_eq!(e.detail, format!("unparseable listing line from the server in 'd': {line}"));
        }
    }
    // Other facts may hold that time, and other leap seconds can be read.
    for line in [
        "type=file;create=19691231235960; a",
        "type=file;modify=20161231235960; a",
        "type=file;modify=+196912 3 12 3 59 60; a",
        " modify=19691231235960; a",
    ] {
        assert_eq!(ftp::parse_listing("d", &texts(&[line]), true).unwrap().len(), 1, "{line}");
    }
}

#[test]
fn a_line_of_no_other_form_is_read_as_facts() {
    let list = ftp::parse_listing("", &texts(&["type=dir;size=0; sub", "no facts at all"]), false).unwrap();
    assert_eq!((list[0].name.as_str(), list[0].is_dir), ("sub", true));
    assert_eq!((list[1].name.as_str(), list[1].size), ("no facts at all", 0));
}

#[test]
fn the_first_form_that_reads_a_line_decides() {
    let line = "10-19-20  03:19PM <DIR> pub";
    let dos = ftp::first_reading(None, line).unwrap();
    assert_eq!((dos.name.as_str(), dos.is_dir, dos.modified), ("pub", true, Some(1_603_120_740_000)));
    let posix = ftp::FtpLine {
        name: "n".into(),
        is_dir: false,
        is_symlink: true,
        size: 3,
        modified: Some(9),
        link: Some("t".into()),
    };
    let kept = ftp::first_reading(Some(posix), line).unwrap();
    assert_eq!((kept.name.as_str(), kept.is_symlink, kept.size), ("n", true, 3));
    assert_eq!((kept.modified, kept.link.as_deref()), (Some(9), Some("t")));
    let facts = ftp::first_reading(None, " type=file;size=7; f").unwrap();
    assert_eq!((facts.name.as_str(), facts.size), ("f", 7));
    assert!(ftp::first_reading(None, "type=badtype; x").is_none());
    assert!(ftp::first_reading(None, "modify=19691231235960; x").is_none());
}

#[test]
fn a_date_without_a_year_is_a_recent_one() {
    let list = ftp::parse_listing("", &texts(&["-rw-r--r-- 1 o g 5 Mar 3 13:46 f"]), false).unwrap();
    let now = syncdash::foundation::time::now_ms() as i64;
    let day: i64 = 24 * 3600 * 1000;
    let at = ftp::meta_of(&list[0]).mtime_ms;
    assert_eq!((list[0].name.as_str(), list[0].size), ("f", 5));
    assert!(at <= now + 181 * day && at >= now - 367 * day);
}
