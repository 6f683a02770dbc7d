//! Watching two roots.
use syncdash::fs::watch::macos::{device_relative_root, raw_flags, resume, volatile_epoch, Config, FlagMasks, SINCE_NOW};
use syncdash::fs::watch::{
    path_below_root, scripted_channel, EventReducer, InvalidationKind, PathRelation, RawEvent, RawFlags,
    RecvFailure, RootCursor, StreamSeed, TriggerPath, WatchInvalidation, WatchMessage,
    WatchPosition, SOURCE_STREAM, TARGET_STREAM,
};

fn cursor(epoch: &str, event_id: u64) -> RootCursor {
    RootCursor {
        journal_uuid: Some(epoch.into()),
        epoch: format!("fsevents:{epoch}"),
        event_id,
    }
}

fn reducer() -> EventReducer {
    EventReducer::new(vec![
        StreamSeed {
            stream: SOURCE_STREAM.into(),
            device_relative_root: "Users/me/Code".into(),
            cursor: cursor("source-uuid", 10),
        },
        StreamSeed {
            stream: TARGET_STREAM.into(),
            device_relative_root: "Code".into(),
            cursor: cursor("target-uuid", 20),
        },
    ])
    .unwrap_or_else(|e| panic!("{e}"))
}

fn event(event_id: u64, path: &str, flags: RawFlags) -> Vec<RawEvent> {
    vec![RawEvent { event_id, device_relative_path: path.into(), flags }]
}

fn id_of(position: &WatchPosition, stream: &str) -> u64 {
    position.get(stream).unwrap().event_id
}

#[test]
fn scripted_channel_has_the_same_blocking_contract_as_the_native_backend() {
    let (script, receiver) = scripted_channel();
    script
        .send(WatchMessage::BackendError { stream: None, message: "scripted".into() })
        .unwrap();
    assert_eq!(
        receiver.recv().unwrap(),
        WatchMessage::BackendError { stream: None, message: "scripted".into() }
    );
}

#[test]
fn an_empty_channel_and_a_closed_one_are_told_apart() {
    let (script, receiver) = scripted_channel();
    assert_eq!(receiver.try_recv(), Err(RecvFailure::Empty));
    assert_eq!(receiver.recv_timeout(1), Err(RecvFailure::Timeout));
    script.send(WatchMessage::BackendError { stream: None, message: "a".into() }).unwrap();
    script.send(WatchMessage::BackendError { stream: None, message: "b".into() }).unwrap();
    assert_eq!(
        receiver.try_recv(),
        Ok(WatchMessage::BackendError { stream: None, message: "a".into() })
    );
    assert_eq!(
        receiver.recv_timeout(1000),
        Ok(WatchMessage::BackendError { stream: None, message: "b".into() })
    );
    drop(script);
    assert_eq!(receiver.recv(), Err(RecvFailure::Disconnected));
    let (script, receiver) = scripted_channel();
    drop(receiver);
    let lost = script.send(WatchMessage::BackendError { stream: None, message: "x".into() });
    assert_eq!(lost, Err(WatchMessage::BackendError { stream: None, message: "x".into() }));
}

#[test]
fn reducer_qualifies_paths_and_carries_both_root_cursors() {
    let mut reducer = reducer();
    let batch = reducer
        .reduce(SOURCE_STREAM, &event(11, "Users/me/Code/src/lib.rs", RawFlags::default()))
        .unwrap()
        .unwrap();
    assert_eq!(
        batch.changed_paths,
        vec![TriggerPath { stream: SOURCE_STREAM.into(), path: "src/lib.rs".into() }]
    );
    assert_eq!(id_of(&batch.position, SOURCE_STREAM), 11);
    assert_eq!(id_of(&batch.position, TARGET_STREAM), 20);
}

#[test]
fn dropped_and_coalesced_events_become_explicit_invalidations() {
    let mut reducer = reducer();
    let flags = RawFlags {
        must_scan_subdirectories: true,
        user_dropped: true,
        ..RawFlags::default()
    };
    let batch = reducer.reduce(TARGET_STREAM, &event(21, "Code", flags)).unwrap().unwrap();
    assert!(batch.invalidations.contains(&WatchInvalidation {
        stream: TARGET_STREAM.into(),
        kind: InvalidationKind::UserDropped,
    }));
    assert!(batch.invalidations.contains(&WatchInvalidation {
        stream: TARGET_STREAM.into(),
        kind: InvalidationKind::WholeRootChanged,
    }));
}

#[test]
fn wrapped_or_regressed_ids_rotate_the_epoch_and_never_look_monotonic() {
    let mut reducer = reducer();
    let batch = reducer
        .reduce(SOURCE_STREAM, &event(2, "Users/me/Code/a", RawFlags::default()))
        .unwrap()
        .unwrap();
    let current = batch.position.get(SOURCE_STREAM).unwrap();
    assert_eq!(current.event_id, 2);
    assert_ne!(current.epoch, "fsevents:source-uuid");
    assert!(batch.invalidations.contains(&WatchInvalidation {
        stream: SOURCE_STREAM.into(),
        kind: InvalidationKind::EventIdsWrapped,
    }));
}

#[test]
fn root_change_id_zero_does_not_move_the_cursor_backwards() {
    let mut reducer = reducer();
    let flags = RawFlags { root_changed: true, ..RawFlags::default() };
    let batch = reducer.reduce(SOURCE_STREAM, &event(0, "Users/me/Code", flags)).unwrap().unwrap();
    assert_eq!(id_of(&batch.position, SOURCE_STREAM), 10);
    assert!(batch.invalidations.contains(&WatchInvalidation {
        stream: SOURCE_STREAM.into(),
        kind: InvalidationKind::RootChanged,
    }));
}

#[test]
fn paths_outside_the_registered_root_never_become_incremental_hints() {
    let mut reducer = reducer();
    let batch = reducer
        .reduce(SOURCE_STREAM, &event(11, "Users/other/file", RawFlags::default()))
        .unwrap()
        .unwrap();
    assert!(batch.changed_paths.is_empty());
    assert_eq!(
        batch.invalidations,
        vec![WatchInvalidation {
            stream: SOURCE_STREAM.into(),
            kind: InvalidationKind::PathOutsideRoot
        }]
    );
}

#[test]
fn an_unknown_stream_is_refused_and_nothing_is_no_batch() {
    let mut reducer = reducer();
    assert!(reducer.reduce("third", &event(11, "x", RawFlags::default())).is_err());
    assert!(reducer.reduce(SOURCE_STREAM, &Vec::new()).unwrap().is_none());
    assert_eq!(id_of(&reducer.position(), SOURCE_STREAM), 10);
}

#[test]
fn positions_name_both_roots() {
    let both = reducer().position();
    assert!(both.validate().is_ok());
    let none = WatchPosition { streams: Vec::new() };
    assert!(none.validate().is_err());
    assert!(none.get(SOURCE_STREAM).is_none());
}

#[test]
fn a_path_is_below_its_root_by_segments() {
    assert!(matches!(path_below_root("Code", "Code"), PathRelation::Root));
    assert!(matches!(path_below_root("Code", "Code/a/b"), PathRelation::Descendant(p) if p == "a/b"));
    assert!(matches!(path_below_root("Code", "Codex/a"), PathRelation::Outside));
}

#[test]
fn a_watch_resumes_only_where_the_journal_is_the_same() {
    let saved = cursor("uuid", 7);
    let r = resume("source", Some("uuid".to_string()), 100, Some(&saved), "volatile".to_string());
    assert_eq!(r.since_when, 7);
    assert!(r.invalidations.is_empty());
    let r = resume("source", Some("other".to_string()), 100, Some(&saved), "volatile".to_string());
    assert_eq!(r.since_when, 100);
    assert!(!r.invalidations.is_empty());
    let r = resume("source", None, 100, Some(&saved), "volatile".to_string());
    assert_eq!(r.since_when, SINCE_NOW);
    assert_eq!(r.cursor.epoch, "volatile");
    assert_ne!(volatile_epoch(1, 2, "3", 4), volatile_epoch(1, 2, "3", 5));
    assert_eq!(Config::default().latency_ms, 500);
}

#[test]
fn roots_are_told_relative_to_their_volume() {
    assert_eq!(device_relative_root("/Volumes/x/a/b", "/Volumes/x").unwrap(), "a/b");
    assert_eq!(device_relative_root("/", "/").unwrap(), "");
    assert_eq!(device_relative_root("/other/a/", "/Volumes/x").unwrap(), "other/a");
    assert!(device_relative_root("other", "/Volumes/x").is_err());
}

#[test]
fn flags_are_read_by_their_masks() {
    let masks = FlagMasks {
        must_scan_subdirectories: 1,
        user_dropped: 2,
        kernel_dropped: 4,
        event_ids_wrapped: 8,
        history_done: 16,
        root_changed: 32,
        unmounted: 128,
    };
    let f = raw_flags(2 | 32 | 1024, masks);
    assert_eq!(f, RawFlags { user_dropped: true, root_changed: true, ..RawFlags::default() });
}

#[test]
fn the_epoch_changes_with_every_restart_and_only_then() {
    let mut r = reducer();
    let mut seen = vec![r.position().get(SOURCE_STREAM).unwrap().epoch.clone()];
    for (id, wrapped) in [(11, false), (3, true), (7, false), (0, false), (6, true), (5, true)] {
        let b = r
            .reduce(SOURCE_STREAM, &event(id, "Users/me/Code/a", RawFlags::default()))
            .unwrap()
            .unwrap();
        let told = b.invalidations.iter().any(|i| i.kind == InvalidationKind::EventIdsWrapped);
        assert_eq!(told, wrapped, "{id}");
        let epoch = b.position.get(SOURCE_STREAM).unwrap().epoch.clone();
        assert_eq!(epoch != *seen.last().unwrap(), wrapped, "{id}");
        if wrapped {
            assert!(!seen.contains(&epoch));
        }
        seen.push(epoch);
    }
}
