//! Where a watch of the macOS event journal resumes.
use vstd::prelude::*;
use crate::foundation::path::{below, strip_root};
use crate::fs::vfs::error::{IoFailure, IoKind};
use crate::fs::watch::{InvalidationKind, RawFlags, RootCursor, WatchInvalidation};
use crate::strings::{bare, decimal, numeral, same, text_of, trim_slashes};
use crate::table::opt_text;

verus! {

/// How long events are collected before they are handed on.
#[derive(Clone, Copy, Debug)]
pub struct Config {
    pub latency_ms: u64,
}

impl Default for Config {
    fn default() -> (r: Config)
        ensures
            r.latency_ms == 500,
    {
        Config { latency_ms: 500 }
    }
}

/// The number that asks for events from now on.
pub const SINCE_NOW: u64 = 0xFFFF_FFFF_FFFF_FFFF;

/// Where a stream begins.
pub struct Resumption {
    pub since_when: u64,
    pub cursor: RootCursor,
    /// What is to be told at once.
    pub invalidations: Vec<WatchInvalidation>,
}

/// Whether a cursor belongs to this generation of the journal.
pub open spec fn of_journal(c: RootCursor, uuid: Seq<char>) -> bool {
    c.journal_uuid matches Some(u) && u@ == uuid && c.epoch@ == "fsevents:"@ + uuid
}

/// The kind that resuming raises, if any.
pub open spec fn resume_kind(uuid: Option<Seq<char>>, latest: u64, previous: Option<RootCursor>) -> Option<
    InvalidationKind,
> {
    match uuid {
        None => Some(InvalidationKind::HistoryUnavailable),
        Some(u) => match previous {
            None => None,
            Some(p) => if !of_journal(p, u) {
                Some(InvalidationKind::JournalChanged)
            } else if p.event_id > latest {
                Some(InvalidationKind::ResumeAheadOfJournal)
            } else {
                None
            },
        },
    }
}

/// A saved cursor is resumed from only where it belongs to the journal and is not ahead of it;
/// everything else begins at the journal's end, and is told. `volatile` is the generation of a stream
/// that has no journal.
pub fn resume(
    stream: &str,
    journal_uuid: Option<String>,
    latest: u64,
    previous: Option<&RootCursor>,
    volatile: String,
) -> (r: Resumption)
    ensures
        ({
            let kind = resume_kind(
                opt_text(journal_uuid),
                latest,
                match previous {
                    Some(p) => Some(*p),
                    None => None,
                },
            );
            &&& match kind {
                Some(k) => r.invalidations@.len() == 1 && r.invalidations@[0].stream@ == stream@
                    && r.invalidations@[0].kind == k,
                None => r.invalidations@.len() == 0,
            }
            &&& match journal_uuid {
                None => r.since_when == SINCE_NOW && r.cursor.journal_uuid is None && r.cursor.epoch@
                    == volatile@ && r.cursor.event_id == 0,
                Some(u) => if previous is Some && kind is None {
                    r.since_when == previous->0.event_id && r.cursor@ == previous->0@
                } else {
                    &&& r.since_when == latest
                    &&& opt_text(r.cursor.journal_uuid) == Some(u@)
                    &&& r.cursor.epoch@ == "fsevents:"@ + u@
                    &&& r.cursor.event_id == latest
                },
            }
        }),
{
    let mut invalidations: Vec<WatchInvalidation> = Vec::new();
    let uuid = match journal_uuid {
        None => {
            invalidations.push(
                WatchInvalidation {
                    stream: stream.to_owned(),
                    kind: InvalidationKind::HistoryUnavailable,
                },
            );
            return Resumption {
                since_when: SINCE_NOW,
                cursor: RootCursor { journal_uuid: None, epoch: volatile, event_id: 0 },
                invalidations,
            };
        },
        Some(u) => u,
    };
    let mut epoch = "fsevents:".to_owned();
    epoch.append(uuid.as_str());
    if let Some(p) = previous {
        let known = match &p.journal_uuid {
            Some(u) => same(u.as_str(), uuid.as_str()),
            None => false,
        };
        if known && same(p.epoch.as_str(), epoch.as_str()) {
            if p.event_id <= latest {
                return Resumption { since_when: p.event_id, cursor: p.copy(), invalidations };
            }
            invalidations.push(
                WatchInvalidation {
                    stream: stream.to_owned(),
                    kind: InvalidationKind::ResumeAheadOfJournal,
                },
            );
        } else {
            invalidations.push(
                WatchInvalidation {
                    stream: stream.to_owned(),
                    kind: InvalidationKind::JournalChanged,
                },
            );
        }
    }
    Resumption {
        since_when: latest,
        cursor: RootCursor { journal_uuid: Some(uuid), epoch, event_id: latest },
        invalidations,
    }
}

/// A watch that does not go on exactly where the last one ended says so.
pub proof fn a_gap_is_always_told(uuid: Option<Seq<char>>, latest: u64, previous: RootCursor)
    requires
        resume_kind(uuid, latest, Some(previous)) is None,
    ensures
        uuid matches Some(u) && of_journal(previous, u),
        previous.event_id <= latest,
{
}

/// The generation of a stream without a journal: unlike any other.
pub fn volatile_epoch(device: u64, pid: u32, nanos: &str, sequence: u64) -> (r: String)
    ensures
        r@ == "fsevents:volatile:"@ + numeral(device as nat) + ":"@ + numeral(pid as nat) + ":"@ + nanos@
            + ":"@ + numeral(sequence as nat),
{
    let mut s = "fsevents:volatile:".to_owned();
    s.append(decimal(device).as_str());
    s.append(":");
    s.append(decimal(pid as u64).as_str());
    s.append(":");
    s.append(nanos);
    s.append(":");
    s.append(decimal(sequence).as_str());
    s
}

/// The path of a root on its volume.
pub open spec fn on_volume(root: Seq<char>, mount_point: Seq<char>) -> Option<Seq<char>> {
    match below(root, mount_point, false) {
        Some(p) => Some(bare(p)),
        None => match below(root, "/"@, false) {
            Some(p) => Some(bare(p)),
            None => None,
        },
    }
}

pub fn device_relative_root(root: &str, mount_point: &str) -> (r: Result<String, IoFailure>)
    ensures
        match on_volume(root@, mount_point@) {
            Some(p) => r matches Ok(s) && s@ == p,
            None => r matches Err(e) && e.kind == IoKind::InvalidInput && e.raw is None && e.message@
                == "cannot express "@ + root@ + " relative to volume mount "@ + mount_point@,
        },
{
    let found = match strip_root(root, mount_point, false) {
        Some(p) => Some(p),
        None => strip_root(root, "/", false),
    };
    match found {
        Some(p) => {
            let v = trim_slashes(p.as_slice());
            Ok(text_of(v.as_slice()))
        },
        None => {
            let mut s = "cannot express ".to_owned();
            s.append(root);
            s.append(" relative to volume mount ");
            s.append(mount_point);
            Err(IoFailure::new(IoKind::InvalidInput, s.as_str()))
        },
    }
}

/// The bits that the system marks events with.
#[derive(Clone, Copy, Debug, PartialEq, Eq, Structural)]
pub struct FlagMasks {
    pub must_scan_subdirectories: u32,
    pub user_dropped: u32,
    pub kernel_dropped: u32,
    pub event_ids_wrapped: u32,
    pub history_done: u32,
    pub root_changed: u32,
    pub unmounted: u32,
}

pub fn raw_flags(flags: u32, masks: FlagMasks) -> (r: RawFlags)
    ensures
        r.must_scan_subdirectories == (flags & masks.must_scan_subdirectories != 0),
        r.user_dropped == (flags & masks.user_dropped != 0),
        r.kernel_dropped == (flags & masks.kernel_dropped != 0),
        r.event_ids_wrapped == (flags & masks.event_ids_wrapped != 0),
        r.history_done == (flags & masks.history_done != 0),
        r.root_changed == (flags & masks.root_changed != 0),
        r.unmounted == (flags & masks.unmounted != 0),
{
    RawFlags {
        must_scan_subdirectories: flags & masks.must_scan_subdirectories != 0,
        user_dropped: flags & masks.user_dropped != 0,
        kernel_dropped: flags & masks.kernel_dropped != 0,
        event_ids_wrapped: flags & masks.event_ids_wrapped != 0,
        history_done: flags & masks.history_done != 0,
        root_changed: flags & masks.root_changed != 0,
        unmounted: flags & masks.unmounted != 0,
    }
}

/// A watch goes on from a cursor exactly where the journal is known, is the one that the cursor is of, and
/// has come as far; a first watch of a known journal has nothing to tell.
pub proof fn only_a_gap_is_told(uuid: Option<Seq<char>>, latest: u64, previous: Option<RootCursor>)
    ensures
        resume_kind(uuid, latest, previous) is None <==> (uuid matches Some(u) && (previous matches Some(p) ==> p.journal_uuid matches Some(
            x,
        ) && x@ == u && p.epoch@ == "fsevents:"@ + u && p.event_id <= latest)),
        uuid is None ==> resume_kind(uuid, latest, previous) == Some(InvalidationKind::HistoryUnavailable),
        uuid matches Some(u) ==> previous matches Some(p) ==> (p.journal_uuid is None ==> resume_kind(
            uuid,
            latest,
            previous,
        ) == Some(InvalidationKind::JournalChanged)),
{
}

} // verus!
