//! Root phrases, credentials, failures and shares.
use syncdash::foundation::path::RootRelativePath;
use syncdash::fs::staged;
use syncdash::fs::vfs::cred::{
    account_for, default_provider, expand_tilde, index_add, index_remove, list_accounts,
    passphrase_account, tidy, write_index,
};
use syncdash::fs::vfs::error::{Errnos, IoFailure, IoKind, Os, VfsError, VfsErrorKind};
use syncdash::fs::vfs::smb::basic_info::{
    filetime_from_unix_ms, set_write_time_buffer, unix_ms_from_filetime, EPOCH_DIFF_100NS,
    FILE_BASIC_INFORMATION_LEN, TICKS_PER_MS,
};
use syncdash::fs::vfs::smb::SmbBackend;
use syncdash::fs::vfs::spec::{default_port, parse, RemoteSpec, RootSpec};
use syncdash::fs::vfs::{open, Backend, Medium, NameRules, Support};

fn remote(s: &str) -> RemoteSpec {
    match parse(s) {
        RootSpec::Remote(r) => r,
        other => panic!("{s} parsed as {other:?}"),
    }
}

#[test]
fn local_shapes_stay_local() {
    assert!(matches!(parse(r"D:\Code\x"), RootSpec::Local(_)));
    assert!(matches!(parse("D:/Code/x"), RootSpec::Local(_)));
    assert!(matches!(parse(r"\\server\share\dir"), RootSpec::Local(_)));
    assert!(matches!(parse(r"\\?\D:\very\long"), RootSpec::Local(_)));
    assert!(matches!(parse("/Users/x/Code"), RootSpec::Local(_)));
    assert!(matches!(parse("relative/dir"), RootSpec::Local(_)));
}

#[test]
fn sftp_full_form() {
    let r = remote("sftp://ben@mac-mini:2222/Users/ben/Code|key=~/.ssh/id_ed25519|timeout=30");
    assert_eq!(r.scheme, "sftp");
    assert_eq!(r.user.as_deref(), Some("ben"));
    assert_eq!(r.host, "mac-mini");
    assert_eq!(r.port, Some(2222));
    assert_eq!(r.root, "Users/ben/Code");
    assert_eq!(r.opt("key"), Some("~/.ssh/id_ed25519"));
    assert_eq!(r.opt("timeout"), Some("30"));
    assert!(!r.has_flag("agent"));
}

#[test]
fn minimal_and_flag_options() {
    let r = remote("ftp://nas/pub|active");
    assert_eq!(r.user, None);
    assert_eq!(r.host, "nas");
    assert_eq!(r.port, None);
    assert_eq!(r.root, "pub");
    assert!(r.has_flag("active"));
}

#[test]
fn ipv6_forms() {
    let r = remote("sftp://ben@[fe80::1]:2222/data");
    assert_eq!(r.host, "fe80::1");
    assert_eq!(r.port, Some(2222));
    let r2 = remote("sftp://ben@[::1]/data");
    assert_eq!(r2.host, "::1");
    assert_eq!(r2.port, None);
    assert_eq!(r.display(), "sftp://ben@[fe80::1]:2222/data");
}

#[test]
fn unknown_scheme_never_silently_local() {
    match parse("sfpt://host/x") {
        RootSpec::UnknownScheme { scheme, .. } => assert_eq!(scheme, "sfpt"),
        other => panic!("typo scheme must be caught, got {other:?}"),
    }
}

#[test]
fn identity_folds_host_and_pins_port() {
    let a = remote("sftp://ben@Mac-Mini/Code");
    let b = remote("sftp://ben@mac-mini:22/Code/");
    assert_eq!(a.identity(), b.identity());
    let c = remote("sftp://Ben@mac-mini/Code");
    assert_ne!(a.identity(), c.identity());
}

#[test]
fn display_omits_options() {
    let r = remote("smb://ben@server/share/photos|max_conns=2");
    assert_eq!(r.display(), "smb://ben@server/share/photos");
}

#[test]
fn root_normalization() {
    assert_eq!(remote("smb://s/share\\sub\\dir").root, "share/sub/dir");
    assert_eq!(remote("sftp://h//a//b/").root, "a/b");
    assert_eq!(remote("sftp://h").root, "");
}

#[test]
fn encoded_user_decodes() {
    let r = remote("sftp://user%40corp@host/x");
    assert_eq!(r.user.as_deref(), Some("user@corp"));
}

#[test]
fn fake_scheme_is_reserved_for_tests() {
    assert!(matches!(parse("fake://seed1?latency_ms=5"), RootSpec::Fake(_)));
}

#[test]
fn a_shown_root_reads_as_the_same_root() {
    for phrase in ["sftp://ben@mac-mini:2222/a/b", "ftp://nas/pub", "smb://s/share", "sftp://[::1]/x", "SFTP://b@[fe80::1]:22//a/./b/", "ftp://h:abc"] {
        assert_eq!(remote(&remote(phrase).display()), remote(phrase));
    }
}

#[test]
fn ports_follow_the_scheme() {
    assert_eq!(default_port("sftp"), 22);
    assert_eq!(default_port("ftp"), 21);
    assert_eq!(default_port("ftps"), 21);
    assert_eq!(default_port("smb"), 445);
}

#[test]
fn every_phrase_goes_to_its_backend() {
    assert!(matches!(open("/data", Os::Unix), Ok(Backend::Local(_))));
    assert!(matches!(open("smb://s/share", Os::Unix), Ok(Backend::Smb(_))));
    assert!(matches!(open("sftp://h/x", Os::Unix), Ok(Backend::Sftp(_))));
    assert!(matches!(open("ftps://h/x", Os::Unix), Ok(Backend::Ftp(_))));
    assert!(matches!(open("fake://seed", Os::Unix), Ok(Backend::Fake(_))));
    let Err(e) = open("sfpt://h/x", Os::Unix) else { panic!() };
    assert!(e.detail.contains("refusing to treat it as a local path"), "{}", e.detail);
}

#[test]
fn small_answers_have_names() {
    assert!(Support::Yes.yes() && !Support::No.yes() && !Support::Unknown.yes());
    assert_ne!(Medium::Unknown.as_str(), Medium::NetworkShare.as_str());
    for n in [NameRules::host(true), NameRules::host(false)] {
        assert_eq!(NameRules::parse(n.as_str()), n);
    }
    assert_eq!(NameRules::parse("whatever"), NameRules::Unknown);
}

#[test]
fn account_canonicalizes_like_identity() {
    let a = account_for(&remote("sftp://ben@Mac-Mini/Code")).unwrap();
    let b = account_for(&remote("sftp://ben@mac-mini:22/other/root")).unwrap();
    assert_eq!(a, b, "same server+user = same entry, root plays no part");
    assert_eq!(a, "sftp://ben@mac-mini:22");
    assert!(account_for(&remote("ftp://nas/pub")).is_none());
}

#[test]
fn passphrase_accounts_differ_per_keyfile() {
    let a = passphrase_account("C:/keys/a");
    let b = passphrase_account("C:/keys/b");
    assert_ne!(a, b);
    assert!(a.starts_with("sftp-pass://"));
}

#[test]
fn the_account_index_is_sorted_and_holds_each_once() {
    let v = |s: &[&str]| s.iter().map(|x| x.to_string()).collect::<Vec<String>>();
    assert_eq!(list_accounts("b\n\n a \n"), v(&["b", "a"]));
    assert_eq!(tidy(&v(&["b", "a", "b"])), v(&["a", "b"]));
    assert_eq!(index_add("b\n", "a"), v(&["a", "b"]));
    assert_eq!(index_add("a\nb\n", "a"), v(&["a", "b"]));
    assert_eq!(index_remove("a\nb\n", "a"), v(&["b"]));
    assert_eq!(list_accounts(&write_index(&v(&["a", "b"]))), v(&["a", "b"]));
}

#[test]
fn credentials_come_from_the_phrase_and_the_store() {
    let p = default_provider();
    let spec = remote("sftp://ben@host/x|key=~/.ssh/id|agent");
    let w = p.wanted(&spec, Some("/home/ben"), false);
    assert_eq!(w.password.as_deref(), Some("sftp://ben@host:22"));
    assert_eq!(w.keyfile.as_deref(), Some("/home/ben/.ssh/id"));
    assert!(w.passphrase.unwrap().starts_with("sftp-pass://"));
    let c = p.assemble(&spec, w.keyfile, Some("pw".to_string()), None);
    assert!(c.use_agent && !c.anonymous);
    assert_eq!(c.password.as_deref(), Some("pw"));
    assert_eq!(expand_tilde("~/k", None, false), "~/k");
    assert_eq!(expand_tilde("~/k", Some("C:\\u"), true), "C:\\u\\k");
}

const LINUX: Errnos = Errnos { exdev: 18, enotsup: 95, eopnotsupp: 95, enosys: 38 };

fn from_io(kind: IoKind, message: &str) -> VfsError {
    VfsError::from_io(IoFailure::new(kind, message), Os::Unix, LINUX)
}

fn from_raw(raw: i32, os: Os) -> VfsError {
    let failure = IoFailure { kind: IoKind::Other, raw: Some(raw), message: "os error".to_string() };
    VfsError::from_io(failure, os, LINUX)
}

#[test]
fn roundtrips_through_io_error() {
    let v = VfsError::new(VfsErrorKind::Transient, "link dropped");
    let io = v.to_io();
    assert_eq!(io.kind, IoKind::TimedOut);
    let back = VfsError::from_io(io, Os::Unix, LINUX);
    assert_eq!(back.kind, VfsErrorKind::Transient);
    assert!(back.detail.contains("link dropped"), "{}", back.detail);
}

#[test]
fn cancel_maps_to_interrupted_both_ways() {
    let v = VfsError::new(VfsErrorKind::Cancelled, "stop");
    assert_eq!(v.to_io().kind, IoKind::Interrupted);
    assert_eq!(from_io(IoKind::Interrupted, "stop").kind, VfsErrorKind::Cancelled);
}

#[test]
fn cross_device_maps_both_ways_without_becoming_a_generic_io_error() {
    let v = from_io(IoKind::CrossesDevices, "");
    assert_eq!(v.kind, VfsErrorKind::CrossDevice);

    let io = VfsError::new(VfsErrorKind::CrossDevice, "different volume").to_io();
    assert_eq!(io.kind, IoKind::CrossesDevices);
    let roundtrip = VfsError::from_io(io, Os::Unix, LINUX);
    assert_eq!(roundtrip.kind, VfsErrorKind::CrossDevice);

    assert_eq!(from_raw(LINUX.exdev, Os::Unix).kind, VfsErrorKind::CrossDevice);
}

#[test]
fn unsupported_os_operations_fail_closed_as_unsupported() {
    let v = from_io(IoKind::Unsupported, "atomic no-replace unavailable");
    assert_eq!(v.kind, VfsErrorKind::Unsupported);
    assert_eq!(from_raw(LINUX.enotsup, Os::Unix).kind, VfsErrorKind::Unsupported);
}

#[test]
fn a_stale_handle_from_a_remounted_share_is_transient() {
    let v = from_raw(70, Os::Macos);
    assert_eq!(v.kind, VfsErrorKind::Transient);
    assert!(v.detail.contains("remounted"), "{}", v.detail);
}

#[test]
fn eperm_offers_causes_without_claiming_one() {
    let failure = IoFailure {
        kind: IoKind::PermissionDenied,
        raw: Some(1),
        message: "Operation not permitted".to_string(),
    };
    let v = VfsError::from_io(failure, Os::Macos, LINUX);
    assert_eq!(v.kind, VfsErrorKind::PermissionDenied);
    assert!(
        v.detail.contains("Full Disk Access"),
        "the remedy has to be reachable: {}",
        v.detail
    );
    assert!(v.detail.contains("may"), "but it must be offered, not asserted: {}", v.detail);
}

#[test]
fn a_read_only_volume_reads_as_a_refusal() {
    assert_eq!(from_io(IoKind::ReadOnlyFilesystem, "").kind, VfsErrorKind::PermissionDenied);
}

#[test]
fn a_file_held_open_on_windows_is_transient() {
    let v = from_raw(32, Os::Windows);
    assert_eq!(v.kind, VfsErrorKind::Transient);
    assert!(v.detail.contains("another program"), "{}", v.detail);
}

#[test]
fn local_not_found_is_confirmed_absence() {
    assert_eq!(from_io(IoKind::NotFound, "gone").kind, VfsErrorKind::NotFound);
}

#[test]
fn every_kind_of_failure_keeps_its_kind_where_the_system_has_one() {
    for kind in [
        VfsErrorKind::NotFound,
        VfsErrorKind::PermissionDenied,
        VfsErrorKind::AlreadyExists,
        VfsErrorKind::NotEmpty,
        VfsErrorKind::CrossDevice,
        VfsErrorKind::Unsupported,
        VfsErrorKind::Cancelled,
        VfsErrorKind::Transient,
    ] {
        let io = VfsError::new(kind, "x").to_io();
        assert_eq!(VfsError::from_io(io, Os::Unix, LINUX).kind, kind);
    }
    assert_eq!(VfsError::unsupported("links").kind, VfsErrorKind::Unsupported);
    assert_eq!(VfsError::new(VfsErrorKind::Io, "boom").message(), "Io: boom");
}

#[test]
fn staged_temp_name_detection() {
    assert!(staged::is_temp_rel("a/b/.syncdash.tmp.x.1234"));
    assert!(!staged::is_temp_rel("a/b/normal.txt"));
    assert!(staged::is_temp_name(".syncdash.tmp.foo"));
}

#[test]
fn traversal_never_reaches_the_capability_api() {
    assert!(RootRelativePath::try_from("../outside").is_err());
    assert!(RootRelativePath::try_from("safe/../../outside").is_err());
    assert!(RootRelativePath::try_from("/outside").is_err());
    assert!(RootRelativePath::try_from(r"C:\outside").is_err());
}

fn backend(s: &str) -> SmbBackend {
    SmbBackend::new(remote(s), Os::Unix).unwrap()
}

fn share_and_sub() {
    let b = backend("smb://ben@server/photos/2026/07");
    assert_eq!(b.share, "photos");
    assert_eq!(b.sub, "2026/07");
    let b2 = backend("smb://server/backup");
    assert_eq!(b2.share, "backup");
    assert_eq!(b2.sub, "");
}

fn no_share() {
    assert!(SmbBackend::new(remote("smb://server"), Os::Unix).is_err());
}

fn unconnected() {
    let b = backend("smb://server/share");
    let e = b.path_of("x").unwrap_err();
    assert_eq!(e.kind, VfsErrorKind::Transient);
    assert!(b.as_local().is_none());
}

fn phrase_shaped() {
    let b = backend("smb://ben@Server/share/sub");
    assert_eq!(b.display(), "smb://ben@Server/share/sub");
    assert_eq!(b.identity(), "smb://ben@server:445/share/sub");
}

#[test]
fn smb_share_and_sub_split() {
    share_and_sub();
}

#[test]
fn mod_share_and_sub_split() {
    share_and_sub();
}

#[test]
fn smb_no_share_is_refused_at_construction() {
    no_share();
}

#[test]
fn mod_no_share_is_refused_at_construction() {
    no_share();
}

#[test]
fn smb_unconnected_backend_says_so() {
    unconnected();
}

#[test]
fn mod_unconnected_backend_says_so() {
    unconnected();
}

#[test]
fn smb_display_and_identity_stay_phrase_shaped() {
    phrase_shaped();
}

#[test]
fn mod_display_and_identity_stay_phrase_shaped() {
    phrase_shaped();
}

#[test]
fn a_settled_share_serves_paths() {
    let mut b = backend("smb://server/share/sub");
    assert!(b.settle("/Volumes/share/sub", Ok(true)).is_ok());
    assert_eq!(b.path_of("a/b").unwrap(), "/Volumes/share/sub/a/b");
    assert_eq!(b.as_local().as_deref(), Some("/Volumes/share/sub"));
    let mut c = backend("smb://server/share/sub");
    assert!(c.settle("/Volumes/share/sub", Ok(false)).is_err());
    assert!(c.as_local().is_none());
}

#[test]
fn known_instant_matches_hand_arithmetic() {
    let ms = 1_704_067_200_000;
    let ticks = filetime_from_unix_ms(ms);
    assert_eq!(ticks, 133_485_408_000_000_000);
    assert_eq!(unix_ms_from_filetime(ticks), ms);
}

#[test]
fn roundtrips_at_millisecond_resolution() {
    for ms in [0, 1, 1_600_000_123_456, 1_704_067_200_123, 253_402_300_799_000] {
        assert_eq!(unix_ms_from_filetime(filetime_from_unix_ms(ms)), ms, "ms={ms}");
    }
}

#[test]
fn pre_unix_epoch_times_floor_rather_than_truncate() {
    let ms = -1;
    let ticks = filetime_from_unix_ms(ms);
    assert_eq!(ticks, (EPOCH_DIFF_100NS - TICKS_PER_MS) as u64);
    assert_eq!(unix_ms_from_filetime(ticks), ms);
    assert_eq!(unix_ms_from_filetime((EPOCH_DIFF_100NS - 1) as u64), -1);
}

#[test]
fn no_requested_time_ever_encodes_as_the_leave_unchanged_sentinel() {
    for ms in [-11_644_473_600_000, -999_999_999_999_999, i64::MIN] {
        assert!(filetime_from_unix_ms(ms) >= 1, "ms={ms} encoded as the no-change sentinel");
    }
}

#[test]
fn buffer_is_forty_bytes_with_only_the_write_time_set() {
    let ticks = filetime_from_unix_ms(1_600_000_123_456);
    let b = set_write_time_buffer(ticks);
    assert_eq!(b.len(), FILE_BASIC_INFORMATION_LEN);
    assert_eq!(&b[0..8], &[0u8; 8], "creation time must say 'unchanged'");
    assert_eq!(&b[8..16], &[0u8; 8], "access time must say 'unchanged'");
    assert_eq!(u64::from_le_bytes(b[16..24].try_into().unwrap()), ticks);
    assert_eq!(&b[24..32], &[0u8; 8], "change time must say 'unchanged'");
    assert_eq!(&b[32..36], &[0u8; 4], "attributes must say 'unchanged', not 'cleared'");
}

#[test]
fn out_of_range_input_saturates() {
    assert_eq!(filetime_from_unix_ms(i64::MAX), i64::MAX as u64);
    assert_eq!(filetime_from_unix_ms(i64::MIN), 1);
    assert_eq!(filetime_from_unix_ms(-922_337_203_685_478), 1);
    assert_eq!(unix_ms_from_filetime(u64::MAX), (i64::MAX - EPOCH_DIFF_100NS) / TICKS_PER_MS);
}
