//! Paths, names, texts, times and numbers.
use syncdash::atomic;
use syncdash::foundation::dirs::{archive_dir, default_log_dir, jobs_dir, Places};
use syncdash::foundation::disk::volume_space;
use syncdash::foundation::fmt::human_bytes;
use syncdash::foundation::names::{
    is_internal_artifact_path, self_excludes, windows_name_fault, WindowsNameFault, APP_DIR,
    APP_LOG_FILE, LOCK_NAME, MARKER_NAME, RUNLOG_ERRORS_FILE, RUNLOG_INDEX_FILE,
    RUNLOG_INDEX_LOCK_FILE, RUNLOG_ITEMS_FILE, RUNLOG_LEGACY_INDEX_FILE, RUNLOG_LEGACY_SUMMARY_FILE,
    RUNLOG_PLAN_FILE, RUNLOG_RUN_FILE, RUNLOG_SCHEMA_FILE, RUNLOG_SUMMARY_FILE, TEMP_PREFIX,
    VERSION_STORE_DIR,
};
use syncdash::foundation::path::{
    base_name, file_name, join_native, parent, sep_of, split_ext, split_parent, strip_root, to_native, to_rel,
    validate_root_relative, EntryName, RelativeBoundary, RootRelativeDir, RootRelativePath,
};
use syncdash::foundation::text::{fold, keyed, norm_key, safe_host};
use syncdash::foundation::thread::configured_worker_limit;
use syncdash::foundation::time::{
    civil_from_days, file_time_ms, now_ms, reading_ms, stamp_compact, stamp_iso, systime_ms,
};
use syncdash::strings::{is_white, parse_decimal};

const NFC_E: &str = "caf\u{00e9}.txt";
const NFD_E: &str = "cafe\u{0301}.txt";

#[test]
fn atomic_temp_name_detection() {
    assert!(atomic::is_temp_rel("a/b/.syncdash.tmp.x.1234"));
    assert!(!atomic::is_temp_rel("a/b/normal.txt"));
    assert!(atomic::is_temp_name(".syncdash.tmp.foo"));
}

#[test]
fn a_temp_file_is_a_leftover_after_a_while() {
    let life = atomic::TEMP_LIFETIME_MS;
    assert!(atomic::is_stale_temp(".syncdash.tmp.foo", Some(0), life + 1));
    assert!(!atomic::is_stale_temp(".syncdash.tmp.foo", Some(0), life - 1));
    assert!(!atomic::is_stale_temp("foo", Some(0), life + 1));
}

fn places(windows: bool) -> Places {
    Places {
        appdata: if windows { Some("C:\\Roaming".to_string()) } else { None },
        local_appdata: None,
        home: if windows { None } else { Some("/home/me".to_string()) },
        windows,
    }
}

#[test]
fn everything_hangs_off_one_root() {
    for windows in [true, false] {
        let p = places(windows);
        let sep = if windows { '\\' } else { '/' };
        let root = p.config_dir();
        for dir in [jobs_dir(&p), archive_dir(&p), default_log_dir(&p)] {
            let (head, _) = dir.rsplit_once(sep).unwrap();
            assert_eq!(head, root);
        }
    }
}

#[test]
fn leaf_names_are_distinct() {
    let p = places(false);
    let names: Vec<String> = [jobs_dir(&p), archive_dir(&p), default_log_dir(&p)]
        .iter()
        .map(|d| d.rsplit_once('/').unwrap().1.to_string())
        .collect();
    let mut sorted = names.clone();
    sorted.sort();
    sorted.dedup();
    assert_eq!(sorted.len(), names.len());
}

#[test]
fn directories_follow_the_environment() {
    assert_eq!(places(true).config_dir(), "C:\\Roaming\\syncdash");
    assert_eq!(jobs_dir(&places(false)), "/home/me/.config/syncdash/jobs");
    assert_eq!(places(false).data_dir(), "/home/me/.cache/syncdash");
    let bare = Places { appdata: None, local_appdata: None, home: None, windows: false };
    assert_eq!(bare.config_dir(), "syncdash");
    assert_eq!(bare.data_dir(), ".syncdash");
}

#[test]
fn bytes_use_binary_units_and_drop_decimals_under_1k() {
    assert_eq!(human_bytes(0), "0 B");
    assert_eq!(human_bytes(938), "938 B");
    assert_eq!(human_bytes(1024), "1.0 KiB");
    assert_eq!(human_bytes(1024 * 1024 * 3 / 2), "1.5 MiB");
    assert_eq!(human_bytes(1024u64.pow(4)), "1.0 TiB");
    assert_eq!(human_bytes(1024u64.pow(5)), "1024.0 TiB");
}

#[test]
fn bytes_agree_with_floating_point() {
    let units = ["B", "KiB", "MiB", "GiB", "TiB"];
    let mut n: u64 = 1;
    let mut all = vec![u64::MAX, 1280, 1331, 1382, 1048575, 1073741823, 1099511627775];
    while n < u64::MAX / 7 {
        all.push(n);
        all.push(n * 3 / 2 + 51);
        n = n * 7 + 13;
    }
    for n in all {
        let mut v = n as f64;
        let mut i = 0;
        let mut rest = n;
        while rest >= 1024 && i < units.len() - 1 {
            v /= 1024.0;
            rest /= 1024;
            i += 1;
        }
        let expected = if i == 0 { format!("{n} B") } else { format!("{v:.1} {}", units[i]) };
        assert_eq!(human_bytes(n), expected, "{n}");
    }
}

#[test]
fn volume_space_counts_in_fragments() {
    assert_eq!(volume_space(4096, 512, 10, 100), (40960, 409600));
    assert_eq!(volume_space(0, 512, 10, 100), (5120, 51200));
}

#[test]
fn self_excludes_cover_every_artifact_we_write() {
    let v = self_excludes();
    assert!(v.iter().any(|s| s.contains(APP_DIR)));
    assert!(v.iter().any(|s| s.contains(VERSION_STORE_DIR)));
    assert!(v.iter().any(|s| s.contains(LOCK_NAME)));
    assert!(v.iter().any(|s| s.contains(TEMP_PREFIX)));
    assert!(v.iter().any(|s| s.contains(MARKER_NAME)));
    assert_eq!(v.len(), 5);
}

#[test]
fn artifact_names_are_distinct() {
    let all = [
        RUNLOG_INDEX_FILE,
        RUNLOG_LEGACY_INDEX_FILE,
        RUNLOG_INDEX_LOCK_FILE,
        RUNLOG_SCHEMA_FILE,
        RUNLOG_SUMMARY_FILE,
        RUNLOG_LEGACY_SUMMARY_FILE,
        RUNLOG_PLAN_FILE,
        RUNLOG_RUN_FILE,
        RUNLOG_ERRORS_FILE,
        RUNLOG_ITEMS_FILE,
        APP_LOG_FILE,
    ];
    let mut sorted = all.to_vec();
    sorted.sort_unstable();
    sorted.dedup();
    assert_eq!(sorted.len(), all.len());
}

#[test]
fn internal_artifact_paths_match_nested_filter_scope() {
    for path in [
        ".syncdash/cache",
        "nested/.version_syncDash/index.jsonl",
        "nested/.syncdash.lock.claim",
        "nested/.syncdash.tmp.stage",
        "nested/.syncdash-root",
    ] {
        assert!(is_internal_artifact_path(&RootRelativePath::try_from(path).unwrap()));
    }
    assert!(!is_internal_artifact_path(
        &RootRelativePath::try_from("nested/syncdash-user.txt").unwrap()
    ));
}

#[test]
fn windows_name_faults_distinguish_addressing_from_usability() {
    let (colon_fault, _) = windows_name_fault("report:2024.pdf").unwrap();
    let (character_fault, _) = windows_name_fault("report?.pdf").unwrap();
    let (reserved_fault, _) = windows_name_fault("reports/CON.txt").unwrap();

    assert!(colon_fault.changes_addressed_path());
    assert_eq!(character_fault, WindowsNameFault::Rejected);
    assert_eq!(reserved_fault, WindowsNameFault::Unusable);
    assert!(windows_name_fault("reports/2024.pdf").is_none());
}

#[test]
fn parent_and_base_split_at_the_last_slash() {
    assert_eq!(parent("a/b/c.txt"), Some("a/b"));
    assert_eq!(parent("top.txt"), None);
    assert_eq!(base_name("a/b/c.txt"), "c.txt");
    assert_eq!(base_name("top.txt"), "top.txt");
    assert_eq!(split_parent("a/b/c.txt"), ("a/b/", "c.txt"));
    assert_eq!(split_parent("top.txt"), ("", "top.txt"));
}

#[test]
fn hidden_files_have_no_extension() {
    assert_eq!(split_ext("report.pdf"), ("report", ".pdf"));
    assert_eq!(split_ext("archive.tar.gz"), ("archive.tar", ".gz"));
    assert_eq!(split_ext(".gitignore"), (".gitignore", ""));
    assert_eq!(split_ext("README"), ("README", ""));
}

#[test]
fn unsafe_rels_are_refused() {
    assert!(RootRelativePath::try_from("a/b.txt").is_ok());
    assert!(RootRelativePath::try_from("").is_err(), "empty rel");
    assert!(RootRelativePath::try_from("/etc/passwd").is_err(), "absolute path");
    assert!(RootRelativePath::try_from("C:/x").is_err(), "absolute drive path");
    assert!(RootRelativePath::try_from("C:relative").is_err(), "drive-relative path");
    assert!(
        RootRelativePath::try_from("report:2024.pdf").is_ok(),
        "a filename allowed by POSIX must reach destination-aware name validation"
    );
    assert!(RootRelativePath::try_from("a/../../etc").is_err(), "traversal");
    assert!(RootRelativePath::try_from("a//b").is_err(), "empty segment");
    assert!(RootRelativePath::try_from("..").is_err());
}

#[test]
fn backslash_traversal_is_refused() {
    assert!(RootRelativePath::try_from(r"..\SIBLING.txt").is_err(), "bare backslash traversal");
    assert!(
        RootRelativePath::try_from(r"a\..\..\ESCAPED.txt").is_err(),
        "backslash traversal behind a segment"
    );
    assert!(RootRelativePath::try_from(r"a/b\..\..\..\ESC2.txt").is_err(), "mixed separators");
    assert!(
        RootRelativePath::try_from(r"\server\share\x").is_err(),
        "leading backslash (UNC-shaped)"
    );
    assert!(RootRelativePath::try_from(r"a\.\b").is_err(), "single-dot segment");
    assert!(RootRelativePath::try_from(r"my\file.txt").is_err(), "non-portable separator");
}

#[test]
fn boundary_types_enforce_their_distinct_shapes() {
    assert_eq!(RootRelativePath::new("a/b.txt").unwrap().as_str(), "a/b.txt");
    assert!(RootRelativePath::new("").is_err());
    assert_eq!(RootRelativeDir::new("").unwrap().as_str(), "");
    assert!(RootRelativeDir::new("../outside").is_err());
    assert_eq!(EntryName::new("photo.jpg").unwrap().as_str(), "photo.jpg");
    assert!(EntryName::new("nested/photo.jpg").is_err());
    assert!(EntryName::new("..").is_err());
}

#[test]
fn deserialization_cannot_bypass_path_validation() {
    let text = |json: &str| serde_json::from_str::<String>(json).unwrap();
    assert!(RootRelativePath::try_from(&text(r#""safe/file""#)).is_ok());
    assert!(RootRelativePath::try_from(&text(r#""../outside""#)).is_err());
    assert!(RootRelativeDir::try_from(&text(r#""""#)).is_ok());
    assert!(EntryName::try_from(&text(r#""two/segments""#)).is_err());
}

#[test]
fn refusals_say_what_and_why() {
    let e = RootRelativePath::new("a\u{7}/..").unwrap_err();
    assert_eq!(e.value, "a\u{7}/..");
    assert!(e.message().contains("\"a\\u{7}/..\""), "{}", e.message());
    assert!(e.message().ends_with("segments must be non-empty and cannot be '.' or '..'"));
    assert!(validate_root_relative("x/y", RelativeBoundary::EntryName).is_err());
}

#[test]
fn sep_is_inferred_from_the_root_string_not_the_host() {
    assert_eq!(sep_of(r"D:\Code\x"), '\\');
    assert_eq!(sep_of("/Users/x/Code"), '/');
}

#[test]
fn rel_roundtrips_through_native() {
    for (root, windows) in [(r"D:\R", true), ("/r", false)] {
        let joined = join_native(root, "a/b/c.txt", windows);
        assert_eq!(to_rel(&joined, root, windows).as_deref(), Some("a/b/c.txt"));
    }
    assert_eq!(join_native(r"D:\R", "a/b", true), r"D:\R\a\b");
    assert_eq!(to_native("a/b", true), r"a\b");
    assert_eq!(join_native("/r", "/abs", false), "/abs");
}

#[test]
fn to_rel_refuses_paths_outside_root() {
    for (root, outside, windows) in [(r"D:\R", r"D:\Other\x", true), ("/r", "/other/x", false)] {
        assert_eq!(to_rel(outside, root, windows), None);
    }
    assert_eq!(to_rel("/rx/y", "/r", false), None);
    assert_eq!(to_rel("r/x", "/r", false), None);
}

#[test]
fn to_rel_compares_segments_as_the_system_does() {
    for (path, root) in [
        ("/a/b/", "/a"),
        ("/a//b", "/a/"),
        ("/a/./b", "/a/."),
        ("/a", "/a/"),
        ("/a/b/c", "/a"),
        ("/a/b//c/.", "/a"),
        ("./a/b", "./a"),
        ("a/b", "./a"),
        ("./a", "a"),
        ("a/b", ""),
        ("/a/b/", ""),
        ("/", "/"),
        ("", ""),
        ("", "a"),
        ("a", "a/b"),
        ("/a\\b/c", "/a\\b"),
    ] {
        let expected = std::path::Path::new(path)
            .strip_prefix(root)
            .ok()
            .map(|p| p.to_str().unwrap().to_string());
        let got = strip_root(path, root, false).map(|v| v.into_iter().collect::<String>());
        assert_eq!(got, expected, "{path} under {root}");
    }
}

#[test]
fn nfd_and_nfc_spellings_fold_together() {
    assert_ne!(NFC_E, NFD_E);
    assert_eq!(norm_key(NFC_E, false), norm_key(NFD_E, false));
    assert_eq!(norm_key(NFC_E, true), norm_key(NFD_E, true));
}

#[test]
fn case_folding_is_opt_in() {
    assert_eq!(norm_key("A/b.TXT", false), "A/b.TXT");
    assert_eq!(norm_key("A/b.TXT", true), "A/B.TXT");
    assert_eq!(keyed("x".to_string(), true), "X");
}

#[test]
fn fold_matches_case_insensitive_norm_key() {
    for s in ["A/b.TXT", NFC_E, NFD_E, "", "混合Case"] {
        assert_eq!(fold(s), norm_key(s, true));
    }
}

#[test]
fn host_becomes_filename_safe() {
    assert_eq!(safe_host("WIN01"), "WIN01");
    assert_eq!(safe_host("my.host:2222"), "my-host-2222");
    assert_eq!(safe_host("主机"), "--");
}

#[test]
fn worker_limits_are_positive_numbers() {
    assert_eq!(configured_worker_limit(Some("3")), Some(3));
    assert_eq!(configured_worker_limit(Some("0")), None);
    assert_eq!(configured_worker_limit(Some("x")), None);
    assert_eq!(configured_worker_limit(None), None);
}

#[test]
fn civil_from_days_matches_known_dates() {
    assert_eq!(civil_from_days(0), (1970, 1, 1));
    assert_eq!(civil_from_days(19_000), (2022, 1, 8));
    assert_eq!(civil_from_days(-1), (1969, 12, 31));
    assert_eq!(civil_from_days(11_016), (2000, 2, 29));
}

#[test]
fn stamp_matches_known_unix_times() {
    assert_eq!(stamp_compact(0), "19700101-000000");
    assert_eq!(stamp_compact(946_684_800_000), "20000101-000000");
    assert_eq!(stamp_compact(1_000_000_000_000), "20010909-014640");
    assert_eq!(stamp_compact(951_782_400_000), "20000229-000000");
}

#[test]
fn iso_and_compact_describe_the_same_instant() {
    let ms = 1_000_000_000_000;
    assert_eq!(stamp_compact(ms), "20010909-014640");
    assert_eq!(stamp_iso(ms), "2001-09-09T01:46:40Z");
}

#[test]
fn stamps_sort_chronologically() {
    let a = stamp_compact(1_000_000_000_000);
    let b = stamp_compact(1_000_000_001_000);
    assert!(a < b, "{a} !< {b}");
}

#[test]
fn systime_epoch_is_zero() {
    assert_eq!(systime_ms(std::time::UNIX_EPOCH), 0);
}

#[test]
fn times_are_milliseconds_since_the_epoch() {
    let t = std::time::UNIX_EPOCH + std::time::Duration::from_millis(1_234_567);
    assert_eq!(systime_ms(t), 1_234_567);
    let before = std::time::UNIX_EPOCH - std::time::Duration::from_millis(5);
    assert_eq!(systime_ms(before), 0);
    assert!(now_ms() > 1_600_000_000_000);
    assert_eq!(reading_ms(Some(7)), 7);
    assert_eq!(reading_ms(None), 0);
    assert_eq!(file_time_ms(Some(9)), 9);
    assert_eq!(file_time_ms(None), 0);
}

#[test]
fn white_space_is_what_the_standard_library_calls_so() {
    for c in (0..=0x10FFFFu32).filter_map(char::from_u32) {
        assert_eq!(is_white(c), c.is_whitespace(), "{c:?}");
    }
}

#[test]
fn numbers_are_read_as_the_standard_library_reads_them() {
    for s in ["0", "7", "+7", "007", "", "+", "-1", "1a", " 1", "18446744073709551615", "18446744073709551616"] {
        let v: Vec<char> = s.chars().collect();
        assert_eq!(parse_decimal(&v, u64::MAX), s.parse::<u64>().ok(), "{s}");
    }
}

#[test]
fn drives_are_taken_as_the_system_takes_them() {
    assert_eq!(join_native("C:", "a", true), "C:a");
    assert_eq!(join_native(r"C:\", "a/b", true), r"C:\a\b");
    assert_eq!(to_rel(r"c:\x\y", r"C:\x", true).as_deref(), Some("y"));
    assert_eq!(to_rel("C:foo", "C:", true).as_deref(), Some("foo"));
    assert_eq!(to_rel(r"C:\x", "C:", true).as_deref(), Some("/x"));
    assert_eq!(to_rel(r"D:\x\y", r"C:\x", true), None);
    assert_eq!(to_rel(r"C:x", r"C:\x", true), None);
    assert_eq!(to_rel(r"C:\x\", "", true).as_deref(), Some("C:/x"));
}

#[test]
fn a_name_is_what_a_path_ends_with() {
    for (path, name) in [
        ("a/b", Some("b")),
        ("b", Some("b")),
        ("a/b/", Some("b")),
        ("a/b/.", Some("b")),
        ("a/b//./", Some("b")),
        ("a/.b", Some(".b")),
        ("a/..", None),
        ("..", None),
        (".", None),
        ("./.", None),
        ("/", None),
        ("", None),
    ] {
        assert_eq!(file_name(path).as_deref(), name, "{path}");
    }
}
