//! Change triggers: hints that a tree may have changed, never a complete account of what did.
//!
//! A batch of raw events becomes a cursor to resume from, the paths that were named, and the reasons
//! for which those paths are not all.
use vstd::prelude::*;
use crate::foundation::text::{debug_of, debug_text};
use crate::fs::vfs::cred::{tidied, tidy, tidying_is_unique};
use crate::fs::vfs::tree::ascending;
use crate::strings::{
    bare, chars_of, decimal, numeral, same, same_chars, slice, starts_with, text_index, text_of, texts, trim,
    trim_slashes, trimmed,
};
use crate::table::{copy_opt, opt_text};

pub mod macos;

verus! {

pub const SOURCE_STREAM: &'static str = "source";

pub const TARGET_STREAM: &'static str = "target";

/// A durable position in one watched root.
#[derive(Debug, PartialEq, Eq)]
pub struct RootCursor {
    /// The identity of the volume's journal, where it has one.
    pub journal_uuid: Option<String>,
    /// The generation of the stream. It changes when event numbers begin anew.
    pub epoch: String,
    pub event_id: u64,
}

pub struct CursorModel {
    pub journal_uuid: Option<Seq<char>>,
    pub epoch: Seq<char>,
    pub event_id: u64,
}

impl View for RootCursor {
    type V = CursorModel;

    open spec fn view(&self) -> CursorModel {
        CursorModel {
            journal_uuid: opt_text(self.journal_uuid),
            epoch: self.epoch@,
            event_id: self.event_id,
        }
    }
}

impl RootCursor {
    pub fn copy(&self) -> (r: RootCursor)
        ensures
            r@ == self@,
    {
        RootCursor {
            journal_uuid: copy_opt(&self.journal_uuid),
            epoch: self.epoch.clone(),
            event_id: self.event_id,
        }
    }
}

/// One cursor for each root that takes part in a comparison, by name, in the order of the names.
#[derive(Debug, PartialEq, Eq)]
pub struct WatchPosition {
    pub streams: Vec<(String, RootCursor)>,
}

/// The names of a position.
pub open spec fn position_names(p: WatchPosition) -> Seq<Seq<char>> {
    Seq::new(p.streams@.len(), |i: int| p.streams@[i].0@)
}

/// The fault of one stream of a position.
pub open spec fn stream_fault(name: Seq<char>, c: CursorModel) -> Option<Seq<char>> {
    if trim(name).len() == 0 {
        Some("a watch stream name cannot be empty"@)
    } else if trim(c.epoch).len() == 0 {
        Some("watch stream "@ + debug_text(name) + " has an empty epoch"@)
    } else if c.journal_uuid matches Some(u) && trim(u).len() == 0 {
        Some("watch stream "@ + debug_text(name) + " has an empty journal UUID"@)
    } else {
        None
    }
}

/// The first fault.
pub open spec fn first_stream_fault(streams: Seq<(String, RootCursor)>) -> Option<Seq<char>>
    decreases streams.len(),
{
    if streams.len() == 0 {
        None
    } else {
        match stream_fault(streams[0].0@, streams[0].1@) {
            Some(t) => Some(t),
            None => first_stream_fault(streams.skip(1)),
        }
    }
}

fn blank(s: &str) -> (r: bool)
    ensures
        r == (trim(s@).len() == 0),
{
    let t = trimmed(chars_of(s).as_slice());
    t.len() == 0
}

impl WatchPosition {
    pub open spec fn wf(self) -> bool {
        ascending(position_names(self))
    }

    pub open spec fn fault(self) -> Option<Seq<char>> {
        if self.streams@.len() == 0 {
            Some("a watch position must contain at least one stream"@)
        } else {
            first_stream_fault(self.streams@)
        }
    }

    /// Whether the position can be resumed from at all; the first fault in the order of the names.
    pub fn validate(&self) -> (r: Result<(), String>)
        requires
            self.wf(),
        ensures
            match r {
                Ok(_) => self.fault() is None,
                Err(t) => self.fault() == Some(t@),
            },
    {
        if self.streams.len() == 0 {
            return Err("a watch position must contain at least one stream".to_owned());
        }
        let mut i: usize = 0;
        assert(self.streams@.skip(0) =~= self.streams@);
        while i < self.streams.len()
            invariant
                i <= self.streams@.len(),
                self.streams@.len() > 0,
                first_stream_fault(self.streams@) == first_stream_fault(self.streams@.skip(i as int)),
            decreases self.streams@.len() - i,
        {
            proof {
                assert(self.streams@.skip(i as int)[0] == self.streams@[i as int]);
                assert(self.streams@.skip(i as int).skip(1) =~= self.streams@.skip(i as int + 1));
            }
            let name = &self.streams[i].0;
            let c = &self.streams[i].1;
            if blank(name.as_str()) {
                return Err("a watch stream name cannot be empty".to_owned());
            }
            if blank(c.epoch.as_str()) {
                let mut s = "watch stream ".to_owned();
                s.append(debug_of(name.as_str()).as_str());
                s.append(" has an empty epoch");
                return Err(s);
            }
            if let Some(u) = &c.journal_uuid {
                if blank(u.as_str()) {
                    let mut s = "watch stream ".to_owned();
                    s.append(debug_of(name.as_str()).as_str());
                    s.append(" has an empty journal UUID");
                    return Err(s);
                }
            }
            i = i + 1;
        }
        Ok(())
    }

    /// The cursor of a stream.
    pub fn get(&self, name: &str) -> (r: Option<&RootCursor>)
        ensures
            ({
                let i = place(position_names(*self), name@);
                match r {
                    Some(c) => i < self.streams@.len() && *c == self.streams@[i].1,
                    None => i >= self.streams@.len(),
                }
            }),
    {
        let ghost names = position_names(*self);
        let mut i: usize = 0;
        assert(names.skip(0) =~= names);
        while i < self.streams.len()
            invariant
                i <= self.streams@.len(),
                names == position_names(*self),
                place(names, name@) == i + place(names.skip(i as int), name@),
            decreases self.streams@.len() - i,
        {
            proof {
                assert(names.skip(i as int)[0] == self.streams@[i as int].0@);
                assert(names.skip(i as int).skip(1) =~= names.skip(i as int + 1));
            }
            if same(self.streams[i].0.as_str(), name) {
                return Some(&self.streams[i].1);
            }
            i = i + 1;
        }
        None
    }
}

/// Where a text stands first in a list; the length of the list where it does not.
pub open spec fn place(list: Seq<Seq<char>>, text: Seq<char>) -> int
    decreases list.len(),
{
    if list.len() == 0 || list[0] == text {
        0
    } else {
        1 + place(list.skip(1), text)
    }
}

proof fn lemma_place(list: Seq<Seq<char>>, text: Seq<char>)
    ensures
        0 <= place(list, text) <= list.len(),
        place(list, text) < list.len() ==> list[place(list, text)] == text,
        list.contains(text) ==> place(list, text) < list.len(),
    decreases list.len(),
{
    if list.len() > 0 && list[0] != text {
        lemma_place(list.skip(1), text);
        if list.contains(text) {
            let i = choose|i: int| 0 <= i < list.len() && list[i] == text;
            assert(list.skip(1)[i - 1] == text);
        }
    }
}

/// Why the named paths are not all that changed.
#[derive(Clone, Copy, Debug, PartialEq, Eq, PartialOrd, Ord, Structural)]
pub enum InvalidationKind {
    /// The volume has no journal: nothing can be replayed after a restart.
    HistoryUnavailable,
    /// The cursor belongs to another generation of the journal.
    JournalChanged,
    /// The cursor is ahead of the journal.
    ResumeAheadOfJournal,
    /// Changes were merged: everything below has to be scanned.
    MustScanSubdirectories,
    /// The receiving side dropped events.
    UserDropped,
    /// The sending side dropped events.
    KernelDropped,
    /// Event numbers began anew or went backwards.
    EventIdsWrapped,
    /// The root or something above it was moved or deleted.
    RootChanged,
    Unmounted,
    /// The event names the root itself.
    WholeRootChanged,
    /// The event names something outside the root.
    PathOutsideRoot,
}

/// The order of the kinds.
pub open spec fn rank(k: InvalidationKind) -> int {
    match k {
        InvalidationKind::HistoryUnavailable => 0,
        InvalidationKind::JournalChanged => 1,
        InvalidationKind::ResumeAheadOfJournal => 2,
        InvalidationKind::MustScanSubdirectories => 3,
        InvalidationKind::UserDropped => 4,
        InvalidationKind::KernelDropped => 5,
        InvalidationKind::EventIdsWrapped => 6,
        InvalidationKind::RootChanged => 7,
        InvalidationKind::Unmounted => 8,
        InvalidationKind::WholeRootChanged => 9,
        InvalidationKind::PathOutsideRoot => 10,
    }
}

fn kind_at(i: usize) -> (r: InvalidationKind)
    requires
        i < 11,
    ensures
        rank(r) == i,
{
    match i {
        0 => InvalidationKind::HistoryUnavailable,
        1 => InvalidationKind::JournalChanged,
        2 => InvalidationKind::ResumeAheadOfJournal,
        3 => InvalidationKind::MustScanSubdirectories,
        4 => InvalidationKind::UserDropped,
        5 => InvalidationKind::KernelDropped,
        6 => InvalidationKind::EventIdsWrapped,
        7 => InvalidationKind::RootChanged,
        8 => InvalidationKind::Unmounted,
        9 => InvalidationKind::WholeRootChanged,
        _ => InvalidationKind::PathOutsideRoot,
    }
}

#[derive(Debug, PartialEq, Eq)]
pub struct WatchInvalidation {
    pub stream: String,
    pub kind: InvalidationKind,
}

/// A path that was named, below the root of its stream.
#[derive(Debug, PartialEq, Eq)]
pub struct TriggerPath {
    pub stream: String,
    pub path: String,
}

#[derive(Debug, PartialEq, Eq)]
pub struct TriggerBatch {
    pub position: WatchPosition,
    pub changed_paths: Vec<TriggerPath>,
    pub invalidations: Vec<WatchInvalidation>,
}

#[derive(Debug, PartialEq, Eq)]
pub enum WatchMessage {
    Trigger(TriggerBatch),
    BackendError { stream: Option<String>, message: String },
}

/// What is known once every stream has started.
#[derive(Debug, PartialEq, Eq)]
pub struct ArmedWatch {
    pub position: WatchPosition,
    pub invalidations: Vec<WatchInvalidation>,
}

#[verifier::external_type_specification]
#[verifier::external_body]
#[verifier::reject_recursive_types(T)]
pub struct ExReceiver<T>(std::sync::mpsc::Receiver<T>);

#[verifier::external_type_specification]
#[verifier::external_body]
#[verifier::reject_recursive_types(T)]
pub struct ExSender<T>(std::sync::mpsc::Sender<T>);

/// Why nothing was received.
#[derive(Clone, Copy, Debug, PartialEq, Eq, Structural)]
pub enum RecvFailure {
    /// Nothing is there yet.
    Empty,
    /// Nothing came in time.
    Timeout,
    /// Nobody can send any more.
    Disconnected,
}

/// The channel that a sending end sends into.
pub uninterp spec fn sends_to(sender: std::sync::mpsc::Sender<WatchMessage>) -> int;

/// The channel that a receiving end takes from.
pub uninterp spec fn hears_from(receiver: std::sync::mpsc::Receiver<WatchMessage>) -> int;

/// The message is one of those that are sent into the channel.
pub uninterp spec fn carried(line: int, message: WatchMessage) -> bool;

/// `std::sync::mpsc::channel`: the two ends of one channel.
#[verifier::external_body]
fn channel() -> (r: (std::sync::mpsc::Sender<WatchMessage>, std::sync::mpsc::Receiver<WatchMessage>))
    ensures
        sends_to(r.0) == hears_from(r.1),
{
    std::sync::mpsc::channel()
}

/// `Sender::send`: the channel carries the message, and one that cannot be delivered comes back.
/// Whether anybody listens is not known here.
#[verifier::external_body]
fn send_on(sender: &std::sync::mpsc::Sender<WatchMessage>, message: WatchMessage) -> (r: Result<
    (),
    WatchMessage,
>)
    ensures
        r matches Err(m) ==> m == message,
        r is Ok ==> carried(sends_to(*sender), message),
{
    sender.send(message).map_err(|e| e.0)
}

/// `Receiver::recv`: blocks, and fails only where nobody can send any more. What comes was sent into
/// the same channel; which message it is depends on the senders.
#[verifier::external_body]
fn receive(receiver: &std::sync::mpsc::Receiver<WatchMessage>) -> (r: Result<WatchMessage, RecvFailure>)
    ensures
        r matches Err(e) ==> e == RecvFailure::Disconnected,
        r matches Ok(m) ==> carried(hears_from(*receiver), m),
{
    receiver.recv().map_err(|_| RecvFailure::Disconnected)
}

/// `Receiver::recv_timeout`: blocks no longer than that many milliseconds. What comes was sent into the
/// same channel.
#[verifier::external_body]
fn receive_within(receiver: &std::sync::mpsc::Receiver<WatchMessage>, timeout_ms: u64) -> (r: Result<
    WatchMessage,
    RecvFailure,
>)
    ensures
        r matches Err(e) ==> e != RecvFailure::Empty,
        r matches Ok(m) ==> carried(hears_from(*receiver), m),
{
    receiver.recv_timeout(std::time::Duration::from_millis(timeout_ms)).map_err(
        |e| match e {
            std::sync::mpsc::RecvTimeoutError::Timeout => RecvFailure::Timeout,
            std::sync::mpsc::RecvTimeoutError::Disconnected => RecvFailure::Disconnected,
        },
    )
}

/// `Receiver::try_recv`: does not block. What comes was sent into the same channel.
#[verifier::external_body]
fn receive_now(receiver: &std::sync::mpsc::Receiver<WatchMessage>) -> (r: Result<WatchMessage, RecvFailure>)
    ensures
        r matches Err(e) ==> e != RecvFailure::Timeout,
        r matches Ok(m) ==> carried(hears_from(*receiver), m),
{
    receiver.try_recv().map_err(
        |e| match e {
            std::sync::mpsc::TryRecvError::Empty => RecvFailure::Empty,
            std::sync::mpsc::TryRecvError::Disconnected => RecvFailure::Disconnected,
        },
    )
}

/// The receiving end of a watch.
pub struct WatchReceiver {
    receiver: std::sync::mpsc::Receiver<WatchMessage>,
}

impl WatchReceiver {
    /// The channel that is listened to.
    pub closed spec fn line(&self) -> int {
        hears_from(self.receiver)
    }

    /// Waits for the next message.
    pub fn recv(&self) -> (r: Result<WatchMessage, RecvFailure>)
        ensures
            r matches Err(e) ==> e == RecvFailure::Disconnected,
            r matches Ok(m) ==> carried(self.line(), m),
    {
        receive(&self.receiver)
    }

    /// Waits for the next message, but no longer than that.
    pub fn recv_timeout(&self, timeout_ms: u64) -> (r: Result<WatchMessage, RecvFailure>)
        ensures
            r matches Err(e) ==> e != RecvFailure::Empty,
            r matches Ok(m) ==> carried(self.line(), m),
    {
        receive_within(&self.receiver, timeout_ms)
    }

    /// Takes the next message if there is one.
    pub fn try_recv(&self) -> (r: Result<WatchMessage, RecvFailure>)
        ensures
            r matches Err(e) ==> e != RecvFailure::Timeout,
            r matches Ok(m) ==> carried(self.line(), m),
    {
        receive_now(&self.receiver)
    }
}

/// A sending end that a script drives.
pub struct ScriptedWatch {
    sender: std::sync::mpsc::Sender<WatchMessage>,
}

impl ScriptedWatch {
    /// The channel that is sent into.
    pub closed spec fn line(&self) -> int {
        sends_to(self.sender)
    }

    /// Sends a message; it comes back where nobody listens.
    pub fn send(&self, message: WatchMessage) -> (r: Result<(), WatchMessage>)
        ensures
            r matches Err(m) ==> m == message,
            r is Ok ==> carried(self.line(), message),
    {
        send_on(&self.sender, message)
    }
}

/// A watch whose messages are sent by hand: the receiving end hears what the sending end sends.
pub fn scripted_channel() -> (r: (ScriptedWatch, WatchReceiver))
    ensures
        r.0.line() == r.1.line(),
{
    let (sender, receiver) = channel();
    (ScriptedWatch { sender }, WatchReceiver { receiver })
}

/// What the system said of an event.
#[derive(Clone, Copy, Debug, PartialEq, Eq, Structural)]
pub struct RawFlags {
    pub must_scan_subdirectories: bool,
    pub user_dropped: bool,
    pub kernel_dropped: bool,
    pub event_ids_wrapped: bool,
    pub history_done: bool,
    pub root_changed: bool,
    pub unmounted: bool,
}

impl Default for RawFlags {
    fn default() -> (r: RawFlags)
        ensures
            r == (RawFlags {
                must_scan_subdirectories: false,
                user_dropped: false,
                kernel_dropped: false,
                event_ids_wrapped: false,
                history_done: false,
                root_changed: false,
                unmounted: false,
            }),
    {
        RawFlags {
            must_scan_subdirectories: false,
            user_dropped: false,
            kernel_dropped: false,
            event_ids_wrapped: false,
            history_done: false,
            root_changed: false,
            unmounted: false,
        }
    }
}

#[derive(Debug, PartialEq, Eq)]
pub struct RawEvent {
    pub event_id: u64,
    /// The path on its volume.
    pub device_relative_path: String,
    pub flags: RawFlags,
}

#[derive(Debug)]
pub struct StreamSeed {
    pub stream: String,
    pub device_relative_root: String,
    pub cursor: RootCursor,
}

/// A path on a volume without separators at its ends and without a leading `.` segment.
pub open spec fn device_path(path: Seq<char>) -> Seq<char> {
    let p = bare(path);
    if p == "."@ {
        Seq::empty()
    } else if "./"@.is_prefix_of(p) {
        p.skip("./"@.len() as int)
    } else {
        p
    }
}

fn normalize_device_path(path: &str) -> (r: Vec<char>)
    ensures
        r@ == device_path(path@),
{
    let p = trim_slashes(chars_of(path).as_slice());
    let dot = chars_of(".");
    let here = chars_of("./");
    if same_chars(p.as_slice(), dot.as_slice()) {
        let out: Vec<char> = Vec::new();
        assert(out@ =~= Seq::<char>::empty());
        out
    } else if starts_with(p.as_slice(), here.as_slice()) {
        let v = slice(p.as_slice(), here.len(), p.len());
        assert(v@ =~= p@.skip(here@.len() as int));
        v
    } else {
        p
    }
}

/// How an event's path relates to a root.
pub enum PathRelation {
    Descendant(String),
    Root,
    Outside,
}

pub enum RelationModel {
    Descendant(Seq<char>),
    Root,
    Outside,
}

impl View for PathRelation {
    type V = RelationModel;

    open spec fn view(&self) -> RelationModel {
        match *self {
            PathRelation::Descendant(p) => RelationModel::Descendant(p@),
            PathRelation::Root => RelationModel::Root,
            PathRelation::Outside => RelationModel::Outside,
        }
    }
}

pub open spec fn relation(root: Seq<char>, event: Seq<char>) -> RelationModel {
    let r = device_path(root);
    let e = device_path(event);
    let head = r.push('/');
    if e == r {
        RelationModel::Root
    } else if r.len() == 0 {
        RelationModel::Descendant(e)
    } else if !head.is_prefix_of(e) {
        RelationModel::Outside
    } else if e.len() == head.len() {
        RelationModel::Root
    } else {
        RelationModel::Descendant(e.skip(head.len() as int))
    }
}

pub fn path_below_root(root: &str, event: &str) -> (x: PathRelation)
    ensures
        x@ == relation(root@, event@),
{
    let r = normalize_device_path(root);
    let e = normalize_device_path(event);
    if same_chars(e.as_slice(), r.as_slice()) {
        return PathRelation::Root;
    }
    if r.len() == 0 {
        return PathRelation::Descendant(text_of(e.as_slice()));
    }
    let mut head = slice(r.as_slice(), 0, r.len());
    assert(head@ =~= r@);
    head.push('/');
    if !starts_with(e.as_slice(), head.as_slice()) {
        return PathRelation::Outside;
    }
    if e.len() == head.len() {
        return PathRelation::Root;
    }
    let rest = slice(e.as_slice(), head.len(), e.len());
    assert(rest@ =~= e@.skip(head@.len() as int));
    PathRelation::Descendant(text_of(rest.as_slice()))
}

/// One watched root.
pub struct StreamState {
    pub stream: String,
    pub device_relative_root: String,
    pub cursor: RootCursor,
    /// How often its event numbers began anew.
    pub reset_generation: u64,
}

pub struct StateModel {
    pub stream: Seq<char>,
    pub root: Seq<char>,
    pub cursor: CursorModel,
    pub resets: u64,
}

impl View for StreamState {
    type V = StateModel;

    open spec fn view(&self) -> StateModel {
        StateModel {
            stream: self.stream@,
            root: self.device_relative_root@,
            cursor: self.cursor@,
            resets: self.reset_generation,
        }
    }
}

pub open spec fn states(v: Seq<StreamState>) -> Seq<StateModel> {
    Seq::new(v.len(), |i: int| v[i]@)
}

pub open spec fn stream_names(v: Seq<StateModel>) -> Seq<Seq<char>> {
    Seq::new(v.len(), |i: int| v[i].stream)
}

/// The state that a seed begins with.
pub open spec fn seeded(s: StreamSeed) -> StateModel {
    StateModel {
        stream: s.stream@,
        root: device_path(s.device_relative_root@),
        cursor: s.cursor@,
        resets: 0,
    }
}

pub open spec fn seed_states(seeds: Seq<StreamSeed>) -> Seq<StateModel> {
    Seq::new(seeds.len(), |i: int| seeded(seeds[i]))
}

/// The first fault of the first `n` seeds.
pub open spec fn seeds_fault(seeds: Seq<StreamSeed>, n: int) -> Option<Seq<char>>
    decreases n,
{
    if n <= 0 {
        None
    } else {
        let s = seeds[n - 1];
        match seeds_fault(seeds, n - 1) {
            Some(t) => Some(t),
            None => if trim(s.stream@).len() == 0 {
                Some("watch stream name cannot be empty"@)
            } else if trim(s.cursor.epoch@).len() == 0 {
                Some("watch stream "@ + debug_text(s.stream@) + " has an empty epoch"@)
            } else if stream_names(seed_states(seeds.take(n - 1))).contains(s.stream@) {
                Some("duplicate watch stream "@ + debug_text(s.stream@))
            } else {
                None
            },
        }
    }
}

pub open spec fn new_fault(seeds: Seq<StreamSeed>) -> Option<Seq<char>> {
    match seeds_fault(seeds, seeds.len() as int) {
        Some(t) => Some(t),
        None => if seeds.len() == 0 {
            Some("at least one watch stream is required"@)
        } else {
            None
        },
    }
}

proof fn lemma_seeds_fault(seeds: Seq<StreamSeed>, k: int, n: int)
    requires
        k <= n,
        seeds_fault(seeds, k) is Some,
    ensures
        seeds_fault(seeds, n) == seeds_fault(seeds, k),
    decreases n - k,
{
    if k < n {
        lemma_seeds_fault(seeds, k, n - 1);
    }
}

/// What a batch of events has come to so far.
pub struct Gathered {
    pub cursor: CursorModel,
    pub resets: u64,
    pub paths: Seq<Seq<char>>,
    pub kinds: Seq<InvalidationKind>,
}

/// The kinds that the flags of an event raise.
pub open spec fn flag_kinds(f: RawFlags) -> Seq<InvalidationKind> {
    (if f.user_dropped {
        seq![InvalidationKind::UserDropped]
    } else {
        Seq::empty()
    }) + (if f.kernel_dropped {
        seq![InvalidationKind::KernelDropped]
    } else {
        Seq::empty()
    }) + (if f.must_scan_subdirectories && !f.user_dropped && !f.kernel_dropped {
        seq![InvalidationKind::MustScanSubdirectories]
    } else {
        Seq::empty()
    }) + (if f.root_changed {
        seq![InvalidationKind::RootChanged]
    } else {
        Seq::empty()
    }) + (if f.unmounted {
        seq![InvalidationKind::Unmounted]
    } else {
        Seq::empty()
    })
}

/// Event numbers began anew, or one came that is older than what was seen.
pub open spec fn restarts(c: CursorModel, e: RawEvent) -> bool {
    e.flags.event_ids_wrapped || (e.event_id != 0 && e.event_id < c.event_id)
}

pub open spec fn next_resets(n: u64) -> u64 {
    if n == u64::MAX {
        n
    } else {
        (n + 1) as u64
    }
}

/// The generation after a restart.
pub open spec fn restarted_epoch(c: CursorModel, resets: u64) -> Seq<char> {
    "fsevents:"@ + (match c.journal_uuid {
        Some(u) => u,
        None => c.epoch,
    }) + ":reset-"@ + numeral(resets as nat)
}

/// The cursor after an event. It moves backwards only together with its generation, and a zero moves
/// nothing.
pub open spec fn moved(c: CursorModel, resets: u64, e: RawEvent) -> CursorModel {
    if restarts(c, e) {
        CursorModel {
            epoch: restarted_epoch(c, next_resets(resets)),
            event_id: e.event_id,
            ..c
        }
    } else if e.event_id != 0 {
        CursorModel { event_id: e.event_id, ..c }
    } else {
        c
    }
}

pub open spec fn take_event(root: Seq<char>, g: Gathered, e: RawEvent) -> Gathered {
    let first = if restarts(g.cursor, e) {
        g.kinds.push(InvalidationKind::EventIdsWrapped)
    } else {
        g.kinds
    } + flag_kinds(e.flags);
    let rel = relation(root, e.device_relative_path@);
    Gathered {
        cursor: moved(g.cursor, g.resets, e),
        resets: if restarts(g.cursor, e) {
            next_resets(g.resets)
        } else {
            g.resets
        },
        paths: match rel {
            RelationModel::Descendant(p) => if e.flags.history_done {
                g.paths
            } else {
                g.paths.push(p)
            },
            _ => g.paths,
        },
        kinds: if e.flags.history_done {
            first
        } else {
            match rel {
                RelationModel::Descendant(_) => first,
                RelationModel::Root => first.push(InvalidationKind::WholeRootChanged),
                RelationModel::Outside => first.push(InvalidationKind::PathOutsideRoot),
            }
        },
    }
}

pub open spec fn take_events(s: StateModel, events: Seq<RawEvent>) -> Gathered
    decreases events.len(),
{
    if events.len() == 0 {
        Gathered {
            cursor: s.cursor,
            resets: s.resets,
            paths: Seq::empty(),
            kinds: Seq::empty(),
        }
    } else {
        take_event(s.root, take_events(s, events.drop_last()), events.last())
    }
}

/// The kinds that were raised, each once and in their order.
pub open spec fn ranked(raised: Seq<InvalidationKind>, out: Seq<InvalidationKind>) -> bool {
    &&& forall|i: int, j: int| 0 <= i < j < out.len() ==> rank(#[trigger] out[i]) < rank(#[trigger] out[j])
    &&& forall|k: InvalidationKind| #[trigger] raised.contains(k) <==> out.contains(k)
}

/// A position of these streams: one cursor for each.
pub open spec fn positioned(v: Seq<StateModel>, p: WatchPosition) -> bool {
    &&& p.wf()
    &&& tidied(stream_names(v), position_names(p))
    &&& forall|i: int|
        0 <= i < p.streams@.len() ==> (#[trigger] p.streams@[i]).1@ == v[place(
            stream_names(v),
            p.streams@[i].0@,
        )].cursor
}

/// What a batch of events is reported as.
pub open spec fn reported(
    v: Seq<StateModel>,
    stream: Seq<char>,
    g: Gathered,
    b: TriggerBatch,
) -> bool {
    &&& positioned(v, b.position)
    &&& forall|i: int| 0 <= i < b.changed_paths@.len() ==> (#[trigger] b.changed_paths@[i]).stream@ == stream
    &&& tidied(g.paths, Seq::new(b.changed_paths@.len(), |i: int| b.changed_paths@[i].path@))
    &&& forall|i: int| 0 <= i < b.invalidations@.len() ==> (#[trigger] b.invalidations@[i]).stream@ == stream
    &&& ranked(g.kinds, Seq::new(b.invalidations@.len(), |i: int| b.invalidations@[i].kind))
}

/// Turns batches of raw events into triggers.
pub struct EventReducer {
    pub streams: Vec<StreamState>,
}

impl EventReducer {
    /// At least one stream, and no name twice.
    pub open spec fn wf(self) -> bool {
        &&& self.streams@.len() > 0
        &&& stream_names(states(self.streams@)).no_duplicates()
    }

    fn knows(streams: &Vec<StreamState>, name: &str) -> (r: bool)
        ensures
            r == stream_names(states(streams@)).contains(name@),
    {
        let ghost names = stream_names(states(streams@));
        let mut i: usize = 0;
        while i < streams.len()
            invariant
                i <= streams@.len(),
                names == stream_names(states(streams@)),
                forall|j: int| 0 <= j < i ==> #[trigger] names[j] != name@,
            decreases streams@.len() - i,
        {
            if same(streams[i].stream.as_str(), name) {
                assert(names[i as int] == name@);
                return true;
            }
            i = i + 1;
        }
        false
    }

    pub fn new(seeds: Vec<StreamSeed>) -> (r: Result<EventReducer, String>)
        ensures
            match r {
                Ok(x) => new_fault(seeds@) is None && x.wf() && states(x.streams@) == seed_states(
                    seeds@,
                ),
                Err(t) => new_fault(seeds@) == Some(t@),
            },
    {
        let mut streams: Vec<StreamState> = Vec::new();
        let mut i: usize = 0;
        assert(states(streams@) =~= seed_states(seeds@.take(0)));
        assert(stream_names(states(streams@)).no_duplicates());
        while i < seeds.len()
            invariant
                i <= seeds@.len(),
                states(streams@) == seed_states(seeds@.take(i as int)),
                streams@.len() == i,
                stream_names(states(streams@)).no_duplicates(),
                seeds_fault(seeds@, i as int) is None,
            decreases seeds@.len() - i,
        {
            let s = &seeds[i];
            proof {
                if seeds_fault(seeds@, i as int + 1) is Some {
                    lemma_seeds_fault(seeds@, i as int + 1, seeds@.len() as int);
                }
            }
            if blank(s.stream.as_str()) {
                return Err("watch stream name cannot be empty".to_owned());
            }
            if blank(s.cursor.epoch.as_str()) {
                let mut t = "watch stream ".to_owned();
                t.append(debug_of(s.stream.as_str()).as_str());
                t.append(" has an empty epoch");
                return Err(t);
            }
            if EventReducer::knows(&streams, s.stream.as_str()) {
                let mut t = "duplicate watch stream ".to_owned();
                t.append(debug_of(s.stream.as_str()).as_str());
                return Err(t);
            }
            let root = normalize_device_path(s.device_relative_root.as_str());
            let st = StreamState {
                stream: s.stream.clone(),
                device_relative_root: text_of(root.as_slice()),
                cursor: s.cursor.copy(),
                reset_generation: 0,
            };
            let ghost before = states(streams@);
            streams.push(st);
            proof {
                assert(states(streams@) =~= before.push(seeded(seeds@[i as int])));
                assert(seed_states(seeds@.take(i as int + 1)) =~= before.push(
                    seeded(seeds@[i as int]),
                ));
                let names = stream_names(states(streams@));
                let old_names = stream_names(before);
                assert forall|a: int, b: int| 0 <= a < names.len() && 0 <= b < names.len() && a != b implies names[a]
                    != names[b] by {
                    if a < i && b < i {
                        assert(old_names[a] != old_names[b]);
                    } else if a < i {
                        assert(old_names.contains(old_names[a]));
                    } else {
                        assert(old_names.contains(old_names[b]));
                    }
                }
            }
            i = i + 1;
        }
        assert(seeds@.take(seeds@.len() as int) =~= seeds@);
        if streams.len() == 0 {
            return Err("at least one watch stream is required".to_owned());
        }
        Ok(EventReducer { streams })
    }

    fn index(&self, name: &str) -> (r: usize)
        ensures
            r == place(stream_names(states(self.streams@)), name@),
            r <= self.streams@.len(),
    {
        let ghost names = stream_names(states(self.streams@));
        let mut i: usize = 0;
        proof {
            assert(names.skip(0) =~= names);
            lemma_place(names, name@);
        }
        while i < self.streams.len()
            invariant
                i <= self.streams@.len(),
                names == stream_names(states(self.streams@)),
                place(names, name@) <= names.len(),
                place(names, name@) == i + place(names.skip(i as int), name@),
            decreases self.streams@.len() - i,
        {
            proof {
                assert(names.skip(i as int)[0] == self.streams@[i as int].stream@);
                assert(names.skip(i as int).skip(1) =~= names.skip(i as int + 1));
            }
            if same(self.streams[i].stream.as_str(), name) {
                return i;
            }
            i = i + 1;
        }
        i
    }

    /// Where all streams stand.
    pub fn position(&self) -> (r: WatchPosition)
        requires
            self.wf(),
        ensures
            positioned(states(self.streams@), r),
    {
        let ghost v = states(self.streams@);
        let mut names: Vec<String> = Vec::new();
        let mut i: usize = 0;
        while i < self.streams.len()
            invariant
                i <= self.streams@.len(),
                v == states(self.streams@),
                names@.len() == i,
                forall|j: int| 0 <= j < i ==> (#[trigger] names@[j])@ == v[j].stream,
            decreases self.streams@.len() - i,
        {
            names.push(self.streams[i].stream.clone());
            i = i + 1;
        }
        assert(texts(names@) =~= stream_names(v));
        let sorted = tidy(&names);
        let mut out: Vec<(String, RootCursor)> = Vec::new();
        let mut k: usize = 0;
        while k < sorted.len()
            invariant
                k <= sorted@.len(),
                v == states(self.streams@),
                tidied(stream_names(v), texts(sorted@)),
                out@.len() == k,
                forall|j: int|
                    0 <= j < k ==> (#[trigger] out@[j]).0@ == sorted@[j]@ && out@[j].1@ == v[place(
                        stream_names(v),
                        sorted@[j]@,
                    )].cursor,
            decreases sorted@.len() - k,
        {
            proof {
                assert(texts(sorted@)[k as int] == sorted@[k as int]@);
                assert(texts(sorted@).contains(sorted@[k as int]@));
                assert(stream_names(v).contains(sorted@[k as int]@));
                lemma_place(stream_names(v), sorted@[k as int]@);
            }
            let at = self.index(sorted[k].as_str());
            let c = self.streams[at].cursor.copy();
            out.push((sorted[k].clone(), c));
            k = k + 1;
        }
        let p = WatchPosition { streams: out };
        assert(position_names(p) =~= texts(sorted@));
        p
    }

    /// Takes a batch of events of one stream. There is no trigger where nothing came of it.
    pub fn reduce(&mut self, stream: &str, events: &Vec<RawEvent>) -> (r: Result<
        Option<TriggerBatch>,
        String,
    >)
        requires
            old(self).wf(),
        ensures
            final(self).wf(),
            ({
                let v = states(old(self).streams@);
                let i = place(stream_names(v), stream@);
                if i >= v.len() {
                    &&& states(final(self).streams@) == v
                    &&& r matches Err(t) && t@ == "event received for unknown watch stream "@ + debug_text(
                        stream@,
                    )
                } else {
                    let g = take_events(v[i], events@);
                    let w = v.update(i, StateModel { cursor: g.cursor, resets: g.resets, ..v[i] });
                    &&& states(final(self).streams@) == w
                    &&& match r {
                        Err(_) => false,
                        Ok(None) => g.paths.len() == 0 && g.kinds.len() == 0,
                        Ok(Some(b)) => (g.paths.len() > 0 || g.kinds.len() > 0) && reported(
                            w,
                            stream@,
                            g,
                            b,
                        ),
                    }
                }
            }),
    {
        let ghost v = states(self.streams@);
        let ghost names = stream_names(v);
        let at = self.index(stream);
        if at >= self.streams.len() {
            let mut s = "event received for unknown watch stream ".to_owned();
            s.append(debug_of(stream).as_str());
            return Err(s);
        }
        let mut cursor = self.streams[at].cursor.copy();
        let mut resets: u64 = self.streams[at].reset_generation;
        let mut paths: Vec<String> = Vec::new();
        let mut kinds: Vec<InvalidationKind> = Vec::new();
        let ghost m = v[at as int];
        gather(&self.streams[at], events, &mut cursor, &mut resets, &mut paths, &mut kinds);
        let ghost g = take_events(m, events@);
        let root = self.streams[at].device_relative_root.clone();
        let name = self.streams[at].stream.clone();
        self.streams.set(
            at,
            StreamState {
                stream: name,
                device_relative_root: root,
                cursor,
                reset_generation: resets,
            },
        );
        proof {
            let w = v.update(at as int, StateModel { cursor: g.cursor, resets: g.resets, ..m });
            assert(states(self.streams@) =~= w);
            assert(stream_names(w) =~= names);
            assert(texts(paths@).len() == paths@.len());
        }
        if paths.len() == 0 && kinds.len() == 0 {
            return Ok(None);
        }
        let position = self.position();
        let sorted = tidy(&paths);
        let changed_paths = trigger_paths(stream, &sorted);
        let invalidations = trigger_kinds(stream, &kinds);
        let b = TriggerBatch { position, changed_paths, invalidations };
        proof {
            assert(Seq::new(b.changed_paths@.len(), |i: int| b.changed_paths@[i].path@) =~= texts(
                sorted@,
            ));
        }
        Ok(Some(b))
    }
}

fn trigger_paths(stream: &str, sorted: &Vec<String>) -> (r: Vec<TriggerPath>)
    ensures
        r@.len() == sorted@.len(),
        forall|i: int|
            0 <= i < r@.len() ==> (#[trigger] r@[i]).stream@ == stream@ && r@[i].path@ == sorted@[i]@,
{
    let mut out: Vec<TriggerPath> = Vec::new();
    let mut i: usize = 0;
    while i < sorted.len()
        invariant
            i <= sorted@.len(),
            out@.len() == i,
            forall|j: int|
                0 <= j < i ==> (#[trigger] out@[j]).stream@ == stream@ && out@[j].path@ == sorted@[j]@,
        decreases sorted@.len() - i,
    {
        out.push(TriggerPath { stream: stream.to_owned(), path: sorted[i].clone() });
        i = i + 1;
    }
    out
}

fn holds_kind(kinds: &Vec<InvalidationKind>, k: InvalidationKind) -> (r: bool)
    ensures
        r == kinds@.contains(k),
{
    let mut i: usize = 0;
    while i < kinds.len()
        invariant
            i <= kinds@.len(),
            forall|j: int| 0 <= j < i ==> kinds@[j] != k,
        decreases kinds@.len() - i,
    {
        if kinds[i] == k {
            return true;
        }
        i = i + 1;
    }
    false
}

fn trigger_kinds(stream: &str, kinds: &Vec<InvalidationKind>) -> (r: Vec<WatchInvalidation>)
    ensures
        forall|i: int| 0 <= i < r@.len() ==> (#[trigger] r@[i]).stream@ == stream@,
        ranked(kinds@, Seq::new(r@.len(), |i: int| r@[i].kind)),
{
    let mut out: Vec<WatchInvalidation> = Vec::new();
    let mut i: usize = 0;
    while i < 11
        invariant
            i <= 11,
            forall|j: int| 0 <= j < out@.len() ==> (#[trigger] out@[j]).stream@ == stream@,
            forall|j: int|
                0 <= j < out@.len() ==> rank((#[trigger] out@[j]).kind) < i && kinds@.contains(
                    out@[j].kind,
                ),
            forall|a: int, b: int|
                0 <= a < b < out@.len() ==> rank((#[trigger] out@[a]).kind) < rank(
                    (#[trigger] out@[b]).kind,
                ),
            forall|k: InvalidationKind|
                #[trigger] kinds@.contains(k) && rank(k) < i ==> exists|j: int|
                    0 <= j < out@.len() && (#[trigger] out@[j]).kind == k,
        decreases 11 - i,
    {
        let k = kind_at(i);
        let ghost before = out@;
        if holds_kind(kinds, k) {
            out.push(WatchInvalidation { stream: stream.to_owned(), kind: k });
        }
        proof {
            assert forall|q: InvalidationKind| #[trigger] kinds@.contains(q) && rank(q) < i + 1 implies exists|
                j: int,
            | 0 <= j < out@.len() && (#[trigger] out@[j]).kind == q by {
                if rank(q) < i {
                    let j = choose|j: int| 0 <= j < before.len() && (#[trigger] before[j]).kind == q;
                    assert(out@[j] == before[j]);
                } else {
                    assert(q == k);
                    assert(out@[before.len() as int].kind == q);
                }
            }
        }
        i = i + 1;
    }
    proof {
        let seen = Seq::new(out@.len(), |i: int| out@[i].kind);
        assert forall|a: int, b: int| 0 <= a < b < seen.len() implies rank(#[trigger] seen[a]) < rank(
            #[trigger] seen[b],
        ) by {
            assert(seen[a] == out@[a].kind && seen[b] == out@[b].kind);
        }
        assert forall|k: InvalidationKind| #[trigger] kinds@.contains(k) <==> seen.contains(k) by {
            if kinds@.contains(k) {
                assert(rank(k) < 11);
                let j = choose|j: int| 0 <= j < out@.len() && (#[trigger] out@[j]).kind == k;
                assert(seen[j] == k);
            }
            if seen.contains(k) {
                let j = choose|j: int| 0 <= j < seen.len() && seen[j] == k;
                assert(out@[j].kind == k);
            }
        }
    }
    out
}

fn push_flag_invalidations(flags: RawFlags, kinds: &mut Vec<InvalidationKind>)
    ensures
        final(kinds)@ == old(kinds)@ + flag_kinds(flags),
{
    if flags.user_dropped {
        kinds.push(InvalidationKind::UserDropped);
    }
    if flags.kernel_dropped {
        kinds.push(InvalidationKind::KernelDropped);
    }
    if flags.must_scan_subdirectories && !flags.user_dropped && !flags.kernel_dropped {
        kinds.push(InvalidationKind::MustScanSubdirectories);
    }
    if flags.root_changed {
        kinds.push(InvalidationKind::RootChanged);
    }
    if flags.unmounted {
        kinds.push(InvalidationKind::Unmounted);
    }
    assert(kinds@ =~= old(kinds)@ + flag_kinds(flags));
}

fn gather(
    state: &StreamState,
    events: &Vec<RawEvent>,
    cursor: &mut RootCursor,
    resets: &mut u64,
    paths: &mut Vec<String>,
    kinds: &mut Vec<InvalidationKind>,
)
    requires
        old(cursor)@ == state.cursor@,
        *old(resets) == state.reset_generation,
        old(paths)@.len() == 0,
        old(kinds)@.len() == 0,
    ensures
        ({
            let g = take_events(state@, events@);
            &&& final(cursor)@ == g.cursor
            &&& *final(resets) == g.resets
            &&& texts(final(paths)@) == g.paths
            &&& final(kinds)@ == g.kinds
        }),
{
    let mut i: usize = 0;
    let ghost s = state@;
    proof {
        assert(events@.take(0) =~= Seq::<RawEvent>::empty());
        assert(texts(paths@) =~= Seq::<Seq<char>>::empty());
        assert(kinds@ =~= Seq::<InvalidationKind>::empty());
    }
    while i < events.len()
        invariant
            i <= events@.len(),
            s == state@,
            ({
                let g = take_events(s, events@.take(i as int));
                &&& cursor@ == g.cursor
                &&& *resets == g.resets
                &&& texts(paths@) == g.paths
                &&& kinds@ == g.kinds
            }),
        decreases events@.len() - i,
    {
        let ghost g = take_events(s, events@.take(i as int));
        let e = &events[i];
        proof {
            assert(events@.take(i as int + 1).drop_last() =~= events@.take(i as int));
            assert(events@.take(i as int + 1).last() == *e);
        }
        if e.flags.event_ids_wrapped || (e.event_id != 0 && e.event_id < cursor.event_id) {
            *resets = resets.saturating_add(1);
            let mut epoch = "fsevents:".to_owned();
            match &cursor.journal_uuid {
                Some(u) => epoch.append(u.as_str()),
                None => epoch.append(cursor.epoch.as_str()),
            }
            epoch.append(":reset-");
            epoch.append(decimal(*resets).as_str());
            cursor.epoch = epoch;
            cursor.event_id = e.event_id;
            kinds.push(InvalidationKind::EventIdsWrapped);
        } else if e.event_id != 0 {
            cursor.event_id = e.event_id;
        }
        push_flag_invalidations(e.flags, kinds);
        if !e.flags.history_done {
            match path_below_root(state.device_relative_root.as_str(), e.device_relative_path.as_str()) {
                PathRelation::Descendant(p) => {
                    assert(texts(paths@.push(p)) =~= texts(paths@).push(p@));
                    paths.push(p);
                },
                PathRelation::Root => {
                    kinds.push(InvalidationKind::WholeRootChanged);
                },
                PathRelation::Outside => {
                    kinds.push(InvalidationKind::PathOutsideRoot);
                },
            }
        }
        i = i + 1;
    }
    assert(events@.take(events@.len() as int) =~= events@);
}

/// An event number that is lower than the one before comes with a new generation of the stream; within
/// a generation the numbers only grow.
pub proof fn cursors_go_forward(c: CursorModel, resets: u64, e: RawEvent)
    ensures
        !restarts(c, e) ==> moved(c, resets, e).event_id >= c.event_id && moved(c, resets, e).epoch
            == c.epoch,
        moved(c, resets, e).event_id < c.event_id ==> restarts(c, e),
{
}

/// Every restart has a generation of its own: it differs from the one that the journal began with and
/// from those of other restarts.
pub proof fn restarts_rotate_the_epoch(c: CursorModel, a: u64, b: u64)
    requires
        c.journal_uuid is Some,
        a != b,
    ensures
        restarted_epoch(c, a) != "fsevents:"@ + c.journal_uuid->0,
        restarted_epoch(c, a) != restarted_epoch(c, b),
{
    reveal_strlit(":reset-");
    let front = "fsevents:"@ + c.journal_uuid->0;
    let x = restarted_epoch(c, a);
    let y = restarted_epoch(c, b);
    assert(x.len() > front.len());
    let n = (front + ":reset-"@).len() as int;
    assert(x.skip(n) =~= numeral(a as nat));
    assert(y.skip(n) =~= numeral(b as nat));
    if x == y {
        crate::strings::lemma_numeral_digits(a as nat);
        crate::strings::lemma_numeral_digits(b as nat);
    }
}

/// A path outside the root is never taken for a change below it: the whole root counts as changed in
/// ways unknown.
pub proof fn outside_paths_are_no_hints(root: Seq<char>, g: Gathered, e: RawEvent)
    requires
        relation(root, e.device_relative_path@) is Outside,
        !e.flags.history_done,
    ensures
        take_event(root, g, e).paths == g.paths,
        take_event(root, g, e).kinds.contains(InvalidationKind::PathOutsideRoot),
{
    let k = take_event(root, g, e).kinds;
    assert(k[k.len() - 1] == InvalidationKind::PathOutsideRoot);
}

/// Lost events are always told, whatever else came with them.
pub proof fn lost_events_are_told(root: Seq<char>, g: Gathered, e: RawEvent)
    ensures
        e.flags.user_dropped ==> take_event(root, g, e).kinds.contains(InvalidationKind::UserDropped),
        e.flags.kernel_dropped ==> take_event(root, g, e).kinds.contains(
            InvalidationKind::KernelDropped,
        ),
        e.flags.must_scan_subdirectories ==> take_event(root, g, e).kinds.len() > 0,
{
    let first = if restarts(g.cursor, e) {
        g.kinds.push(InvalidationKind::EventIdsWrapped)
    } else {
        g.kinds
    };
    let f = flag_kinds(e.flags);
    let rest = if e.flags.history_done {
        Seq::<InvalidationKind>::empty()
    } else {
        match relation(root, e.device_relative_path@) {
            RelationModel::Descendant(_) => Seq::<InvalidationKind>::empty(),
            RelationModel::Root => seq![InvalidationKind::WholeRootChanged],
            RelationModel::Outside => seq![InvalidationKind::PathOutsideRoot],
        }
    };
    assert(take_event(root, g, e).kinds =~= first + f + rest);
    lemma_joined_kinds(first, f);
    lemma_joined_kinds(first + f, rest);
    if e.flags.user_dropped {
        assert(f[0] == InvalidationKind::UserDropped);
    }
    if e.flags.kernel_dropped {
        let i: int = if e.flags.user_dropped {
            1
        } else {
            0
        };
        assert(f[i] == InvalidationKind::KernelDropped);
    }
}

/// The state of a stream after a batch of events.
pub open spec fn after_batch(s: StateModel, events: Seq<RawEvent>) -> StateModel {
    let g = take_events(s, events);
    StateModel { cursor: g.cursor, resets: g.resets, ..s }
}

/// The state of a stream after one batch of events after the other.
pub open spec fn after_batches(s: StateModel, batches: Seq<Seq<RawEvent>>) -> StateModel
    decreases batches.len(),
{
    if batches.len() == 0 {
        s
    } else {
        after_batch(after_batches(s, batches.drop_last()), batches.last())
    }
}

/// How many events some batches hold.
pub open spec fn event_count(batches: Seq<Seq<RawEvent>>) -> nat
    decreases batches.len(),
{
    if batches.len() == 0 {
        0
    } else {
        event_count(batches.drop_last()) + batches.last().len()
    }
}

/// The generation of a stream says how often it began anew.
spec fn counted(c: CursorModel, resets: u64) -> bool {
    c.journal_uuid is Some ==> if resets == 0 {
        text_index(c.epoch, ":reset-"@) is None
    } else {
        c.epoch == restarted_epoch(c, resets)
    }
}

proof fn lemma_flags_tell_no_restart(f: RawFlags)
    ensures
        !flag_kinds(f).contains(InvalidationKind::EventIdsWrapped),
{
    let a = if f.user_dropped {
        seq![InvalidationKind::UserDropped]
    } else {
        Seq::<InvalidationKind>::empty()
    };
    let b = if f.kernel_dropped {
        seq![InvalidationKind::KernelDropped]
    } else {
        Seq::<InvalidationKind>::empty()
    };
    let c = if f.must_scan_subdirectories && !f.user_dropped && !f.kernel_dropped {
        seq![InvalidationKind::MustScanSubdirectories]
    } else {
        Seq::<InvalidationKind>::empty()
    };
    let d = if f.root_changed {
        seq![InvalidationKind::RootChanged]
    } else {
        Seq::<InvalidationKind>::empty()
    };
    let w = InvalidationKind::EventIdsWrapped;
    assert(!a.contains(w) && !b.contains(w) && !c.contains(w) && !d.contains(w));
    lemma_joined_kinds(a, b);
    lemma_joined_kinds(a + b, c);
    lemma_joined_kinds(a + b + c, d);
    let e = if f.unmounted {
        seq![InvalidationKind::Unmounted]
    } else {
        Seq::<InvalidationKind>::empty()
    };
    assert(!e.contains(w));
    lemma_joined_kinds(a + b + c + d, e);
}

proof fn lemma_joined_kinds(a: Seq<InvalidationKind>, b: Seq<InvalidationKind>)
    ensures
        forall|k: InvalidationKind| #[trigger]
            (a + b).contains(k) <==> a.contains(k) || b.contains(k),
{
    assert forall|k: InvalidationKind| #[trigger] (a + b).contains(k) <==> a.contains(k) || b.contains(k) by {
        if a.contains(k) {
            let i = choose|i: int| 0 <= i < a.len() && a[i] == k;
            assert((a + b)[i] == k);
        }
        if b.contains(k) {
            let i = choose|i: int| 0 <= i < b.len() && b[i] == k;
            assert((a + b)[a.len() + i] == k);
        }
    }
}

proof fn lemma_restart_is_told(root: Seq<char>, g: Gathered, e: RawEvent)
    ensures
        take_event(root, g, e).kinds.contains(InvalidationKind::EventIdsWrapped) <==> g.kinds.contains(
            InvalidationKind::EventIdsWrapped,
        ) || restarts(g.cursor, e),
{
    let w = InvalidationKind::EventIdsWrapped;
    let told = if restarts(g.cursor, e) {
        seq![w]
    } else {
        Seq::<InvalidationKind>::empty()
    };
    let first = if restarts(g.cursor, e) {
        g.kinds.push(w)
    } else {
        g.kinds
    };
    assert(first =~= g.kinds + told);
    if restarts(g.cursor, e) {
        assert(told[0] == w);
    }
    lemma_joined_kinds(g.kinds, told);
    lemma_flags_tell_no_restart(e.flags);
    lemma_joined_kinds(first, flag_kinds(e.flags));
    let rest = if e.flags.history_done {
        Seq::<InvalidationKind>::empty()
    } else {
        match relation(root, e.device_relative_path@) {
            RelationModel::Descendant(_) => Seq::<InvalidationKind>::empty(),
            RelationModel::Root => seq![InvalidationKind::WholeRootChanged],
            RelationModel::Outside => seq![InvalidationKind::PathOutsideRoot],
        }
    };
    assert(!rest.contains(w));
    lemma_joined_kinds(first + flag_kinds(e.flags), rest);
    assert(take_event(root, g, e).kinds =~= first + flag_kinds(e.flags) + rest);
}

/// What a batch does to the cursor: either it began anew some times, which is told, or its numbers grew.
proof fn lemma_batch(s: StateModel, events: Seq<RawEvent>)
    requires
        s.resets + events.len() <= u64::MAX,
        counted(s.cursor, s.resets),
    ensures
        ({
            let g = take_events(s, events);
            &&& s.resets <= g.resets <= s.resets + events.len()
            &&& g.cursor.journal_uuid == s.cursor.journal_uuid
            &&& counted(g.cursor, g.resets)
            &&& g.kinds.contains(InvalidationKind::EventIdsWrapped) <==> g.resets > s.resets
            &&& g.resets == s.resets ==> g.cursor.epoch == s.cursor.epoch && g.cursor.event_id
                >= s.cursor.event_id
            &&& s.cursor.journal_uuid is None && g.resets > s.resets ==> g.cursor.epoch.len()
                > s.cursor.epoch.len()
        }),
    decreases events.len(),
{
    if events.len() > 0 {
        let g = take_events(s, events.drop_last());
        lemma_batch(s, events.drop_last());
        lemma_restart_is_told(s.root, g, events.last());
        reveal_strlit(":reset-");
        assert(restarted_epoch(g.cursor, next_resets(g.resets)).len() > 0);
    }
}

proof fn lemma_reset_epochs_show(c: CursorModel, resets: u64)
    ensures
        text_index(restarted_epoch(c, resets), ":reset-"@) is Some,
{
    let front = "fsevents:"@ + (match c.journal_uuid {
        Some(u) => u,
        None => c.epoch,
    });
    let tail = numeral(resets as nat);
    lemma_found_inside(front, ":reset-"@, tail);
}

proof fn lemma_found_inside(front: Seq<char>, p: Seq<char>, tail: Seq<char>)
    ensures
        text_index(front + p + tail, p) is Some,
    decreases front.len(),
{
    let s = front + p + tail;
    if front.len() == 0 {
        assert(s.subrange(0, p.len() as int) =~= p);
    } else if !p.is_prefix_of(s) {
        lemma_found_inside(front.skip(1), p, tail);
        assert(s.skip(1) =~= front.skip(1) + p + tail);
    }
}

proof fn lemma_batches(s: StateModel, batches: Seq<Seq<RawEvent>>)
    requires
        s.resets == 0,
        text_index(s.cursor.epoch, ":reset-"@) is None,
        event_count(batches) <= u64::MAX,
    ensures
        counted(after_batches(s, batches).cursor, after_batches(s, batches).resets),
        after_batches(s, batches).resets <= event_count(batches),
    decreases batches.len(),
{
    if batches.len() > 0 {
        lemma_batches(s, batches.drop_last());
        lemma_batch(after_batches(s, batches.drop_last()), batches.last());
    }
}

/// Whatever came before: a batch changes the generation of a stream exactly when it tells that event
/// numbers began anew, and while the generation stays the cursor does not go back. The stream began
/// with a generation that no restart could have made.
pub proof fn the_epoch_tells_of_every_restart(
    s: StateModel,
    batches: Seq<Seq<RawEvent>>,
    events: Seq<RawEvent>,
)
    requires
        s.resets == 0,
        text_index(s.cursor.epoch, ":reset-"@) is None,
        event_count(batches) + events.len() <= u64::MAX,
    ensures
        ({
            let before = after_batches(s, batches);
            let now = after_batch(before, events);
            &&& now.cursor.epoch != before.cursor.epoch <==> take_events(before, events).kinds.contains(
                InvalidationKind::EventIdsWrapped,
            )
            &&& now.cursor.epoch == before.cursor.epoch ==> now.cursor.event_id
                >= before.cursor.event_id
        }),
{
    let before = after_batches(s, batches);
    let g = take_events(before, events);
    lemma_batches(s, batches);
    lemma_batch(before, events);
    if g.resets > before.resets && before.cursor.journal_uuid is Some {
        lemma_reset_epochs_show(g.cursor, g.resets);
        if before.resets > 0 {
            restarts_rotate_the_epoch(g.cursor, before.resets, g.resets);
        }
    }
}

/// There is one position for the states of some streams.
pub proof fn a_position_is_unique(v: Seq<StateModel>, p: WatchPosition, q: WatchPosition)
    requires
        positioned(v, p),
        positioned(v, q),
    ensures
        p.streams@.len() == q.streams@.len(),
        forall|i: int|
            0 <= i < p.streams@.len() ==> (#[trigger] p.streams@[i]).0@ == q.streams@[i].0@
                && p.streams@[i].1@ == q.streams@[i].1@,
{
    tidying_is_unique(stream_names(v), position_names(p), position_names(q));
    assert(position_names(p).len() == position_names(q).len());
    assert forall|i: int| 0 <= i < p.streams@.len() implies (#[trigger] p.streams@[i]).0@
        == q.streams@[i].0@ && p.streams@[i].1@ == q.streams@[i].1@ by {
        assert(position_names(p)[i] == p.streams@[i].0@);
        assert(position_names(q)[i] == q.streams@[i].0@);
    }
}

/// A report is never empty: it names a path or tells of a doubt. Its paths stand in order, none twice,
/// and so do its doubts.
pub proof fn a_report_says_something(v: Seq<StateModel>, stream: Seq<char>, g: Gathered, b: TriggerBatch)
    requires
        reported(v, stream, g, b),
        g.paths.len() > 0 || g.kinds.len() > 0,
    ensures
        b.changed_paths@.len() > 0 || b.invalidations@.len() > 0,
        ascending(Seq::new(b.changed_paths@.len(), |i: int| b.changed_paths@[i].path@)),
        forall|i: int, j: int|
            0 <= i < j < b.invalidations@.len() ==> rank((#[trigger] b.invalidations@[i]).kind) < rank(
                (#[trigger] b.invalidations@[j]).kind,
            ),
{
    let paths = Seq::new(b.changed_paths@.len(), |i: int| b.changed_paths@[i].path@);
    let kinds = Seq::new(b.invalidations@.len(), |i: int| b.invalidations@[i].kind);
    if g.paths.len() > 0 {
        assert(g.paths.contains(g.paths[0]));
        assert(paths.contains(g.paths[0]));
    } else {
        assert(g.kinds.contains(g.kinds[0]));
        assert(kinds.contains(g.kinds[0]));
    }
    assert forall|i: int, j: int| 0 <= i < j < b.invalidations@.len() implies rank(
        (#[trigger] b.invalidations@[i]).kind,
    ) < rank((#[trigger] b.invalidations@[j]).kind) by {
        assert(kinds[i] == b.invalidations@[i].kind && kinds[j] == b.invalidations@[j].kind);
    }
}

/// Every doubt has its cause, and every cause raises its doubt.
pub proof fn every_doubt_has_its_cause(root: Seq<char>, g: Gathered, e: RawEvent, k: InvalidationKind)
    ensures
        ({
            let f = e.flags;
            let rel = relation(root, e.device_relative_path@);
            let lower = e.event_id != 0 && e.event_id < g.cursor.event_id;
            take_event(root, g, e).kinds.contains(k) <==> g.kinds.contains(k) || match k {
                InvalidationKind::UserDropped => f.user_dropped,
                InvalidationKind::KernelDropped => f.kernel_dropped,
                InvalidationKind::MustScanSubdirectories => f.must_scan_subdirectories && !f.user_dropped
                    && !f.kernel_dropped,
                InvalidationKind::RootChanged => f.root_changed,
                InvalidationKind::Unmounted => f.unmounted,
                InvalidationKind::EventIdsWrapped => f.event_ids_wrapped || lower,
                InvalidationKind::WholeRootChanged => !f.history_done && rel is Root,
                InvalidationKind::PathOutsideRoot => !f.history_done && rel is Outside,
                InvalidationKind::HistoryUnavailable => false,
                InvalidationKind::JournalChanged => false,
                InvalidationKind::ResumeAheadOfJournal => false,
            }
        }),
{
    let fl = e.flags;
    let first = g.kinds + (if restarts(g.cursor, e) {
        seq![InvalidationKind::EventIdsWrapped]
    } else {
        Seq::empty()
    });
    let f = flag_kinds(e.flags);
    let rest = if e.flags.history_done {
        Seq::<InvalidationKind>::empty()
    } else {
        match relation(root, e.device_relative_path@) {
            RelationModel::Descendant(_) => Seq::<InvalidationKind>::empty(),
            RelationModel::Root => seq![InvalidationKind::WholeRootChanged],
            RelationModel::Outside => seq![InvalidationKind::PathOutsideRoot],
        }
    };
    assert(take_event(root, g, e).kinds =~= first + f + rest);
    lemma_joined_kinds(
        g.kinds,
        if restarts(g.cursor, e) {
            seq![InvalidationKind::EventIdsWrapped]
        } else {
            Seq::empty()
        },
    );
    lemma_joined_kinds(first, f);
    lemma_joined_kinds(first + f, rest);
    lemma_one_kind(restarts(g.cursor, e), InvalidationKind::EventIdsWrapped, k);
    lemma_one_kind(
        !fl.history_done && relation(root, e.device_relative_path@) is Root,
        InvalidationKind::WholeRootChanged,
        k,
    );
    lemma_one_kind(
        !fl.history_done && relation(root, e.device_relative_path@) is Outside,
        InvalidationKind::PathOutsideRoot,
        k,
    );
    lemma_flag_kinds(fl, k);
}

spec fn one_kind(raised: bool, kind: InvalidationKind) -> Seq<InvalidationKind> {
    if raised {
        seq![kind]
    } else {
        Seq::empty()
    }
}

proof fn lemma_one_kind(raised: bool, kind: InvalidationKind, k: InvalidationKind)
    ensures
        one_kind(raised, kind).contains(k) <==> raised && k == kind,
{
    if raised {
        assert(seq![kind][0] == kind);
    }
}

proof fn lemma_flag_kinds(f: RawFlags, k: InvalidationKind)
    ensures
        flag_kinds(f).contains(k) <==> match k {
            InvalidationKind::UserDropped => f.user_dropped,
            InvalidationKind::KernelDropped => f.kernel_dropped,
            InvalidationKind::MustScanSubdirectories => f.must_scan_subdirectories && !f.user_dropped
                && !f.kernel_dropped,
            InvalidationKind::RootChanged => f.root_changed,
            InvalidationKind::Unmounted => f.unmounted,
            _ => false,
        },
{
    let a = one_kind(f.user_dropped, InvalidationKind::UserDropped);
    let b = one_kind(f.kernel_dropped, InvalidationKind::KernelDropped);
    let scan = f.must_scan_subdirectories && !f.user_dropped && !f.kernel_dropped;
    let c = one_kind(scan, InvalidationKind::MustScanSubdirectories);
    let d = one_kind(f.root_changed, InvalidationKind::RootChanged);
    let e = one_kind(f.unmounted, InvalidationKind::Unmounted);
    assert(flag_kinds(f) =~= a + b + c + d + e);
    lemma_joined_kinds(a, b);
    lemma_joined_kinds(a + b, c);
    lemma_joined_kinds(a + b + c, d);
    lemma_joined_kinds(a + b + c + d, e);
    lemma_one_kind(f.user_dropped, InvalidationKind::UserDropped, k);
    lemma_one_kind(f.kernel_dropped, InvalidationKind::KernelDropped, k);
    lemma_one_kind(scan, InvalidationKind::MustScanSubdirectories, k);
    lemma_one_kind(f.root_changed, InvalidationKind::RootChanged, k);
    lemma_one_kind(f.unmounted, InvalidationKind::Unmounted, k);
}

/// An event of the batch is a change of that path.
pub open spec fn changes(root: Seq<char>, e: RawEvent, p: Seq<char>) -> bool {
    !e.flags.history_done && relation(root, e.device_relative_path@) == RelationModel::Descendant(p)
}

/// A batch names exactly the paths below the root that its events tell of.
pub proof fn every_change_below_the_root_is_named(s: StateModel, events: Seq<RawEvent>, p: Seq<char>)
    ensures
        take_events(s, events).paths.contains(p) <==> exists|i: int|
            0 <= i < events.len() && changes(s.root, #[trigger] events[i], p),
    decreases events.len(),
{
    if events.len() > 0 {
        let less = events.drop_last();
        let at = events.len() - 1;
        every_change_below_the_root_is_named(s, less, p);
        let before = take_events(s, less).paths;
        let now = take_events(s, events).paths;
        if before.contains(p) {
            let k = choose|k: int| 0 <= k < before.len() && before[k] == p;
            assert(now[k] == p);
            let i = choose|i: int| 0 <= i < less.len() && changes(s.root, #[trigger] less[i], p);
            assert(changes(s.root, events[i], p));
        }
        if changes(s.root, events[at], p) {
            assert(now[before.len() as int] == p);
        }
        if now.contains(p) && !before.contains(p) {
            let k = choose|k: int| 0 <= k < now.len() && now[k] == p;
            if k < before.len() {
                assert(before[k] == p);
            }
            assert(changes(s.root, events[at], p));
        }
        if exists|i: int| 0 <= i < events.len() && changes(s.root, #[trigger] events[i], p) {
            let i = choose|i: int| 0 <= i < events.len() && changes(s.root, #[trigger] events[i], p);
            if i < at {
                assert(changes(s.root, less[i], p));
            }
        }
    }
}

/// A path is below the root exactly where it is the root, a slash and something more, and that is the part
/// that is named.
pub proof fn descendants_are_spelled_from_the_root(root: Seq<char>, event: Seq<char>)
    ensures
        ({
            let r = device_path(root);
            let e = device_path(event);
            &&& relation(root, event) matches RelationModel::Descendant(p) ==> p.len() > 0 && (if r.len() == 0 {
                p == e
            } else {
                e == r.push('/') + p
            })
            &&& forall|p: Seq<char>|
                r.len() > 0 && p.len() > 0 && e == #[trigger] (r.push('/') + p) ==> relation(root, event)
                    == RelationModel::Descendant(p)
            &&& r.len() == 0 && e.len() > 0 ==> relation(root, event) == RelationModel::Descendant(e)
            &&& relation(root, event) is Root <==> e == r || (r.len() > 0 && e == r.push('/'))
        }),
{
    let r = device_path(root);
    let e = device_path(event);
    let head = r.push('/');
    if r.len() > 0 && head.is_prefix_of(e) {
        assert(e =~= head + e.skip(head.len() as int));
        if e.len() == head.len() {
            assert(e =~= head);
        }
    }
    assert forall|p: Seq<char>| r.len() > 0 && p.len() > 0 && e == #[trigger] (r.push('/') + p) implies relation(
        root,
        event,
    ) == RelationModel::Descendant(p) by {
        assert(e.take(head.len() as int) =~= head);
        assert(e.skip(head.len() as int) =~= p);
    }
    if r.len() > 0 && e == head {
        assert(e.take(head.len() as int) =~= head);
    }
    if r.len() == 0 && e.len() == 0 {
        assert(e =~= r);
    }
}

/// A cursor stands at the last number that was seen: a zero says nothing, a lower number or a wrap begins a
/// generation of its own, and the journal stays the same.
pub proof fn a_cursor_stands_at_the_last_number(c: CursorModel, resets: u64, e: RawEvent)
    requires
        resets < u64::MAX,
    ensures
        e.event_id != 0 ==> moved(c, resets, e).event_id == e.event_id,
        e.event_id == 0 && !e.flags.event_ids_wrapped ==> moved(c, resets, e) == c,
        e.event_id >= c.event_id && !e.flags.event_ids_wrapped ==> moved(c, resets, e).epoch == c.epoch,
        (e.event_id != 0 && e.event_id < c.event_id) || e.flags.event_ids_wrapped ==> moved(c, resets, e).epoch
            == restarted_epoch(c, (resets + 1) as u64),
        moved(c, resets, e).journal_uuid == c.journal_uuid,
{
}

/// Streams are accepted exactly where there is one, each has a name and a generation, and no name comes
/// twice.
pub proof fn streams_are_accepted_as_they_should_be(seeds: Seq<StreamSeed>)
    ensures
        new_fault(seeds) is None <==> {
            &&& seeds.len() > 0
            &&& forall|i: int|
                0 <= i < seeds.len() ==> trim((#[trigger] seeds[i]).stream@).len() > 0 && trim(
                    seeds[i].cursor.epoch@,
                ).len() > 0
            &&& forall|i: int, j: int|
                0 <= i < j < seeds.len() ==> (#[trigger] seeds[i]).stream@ != (#[trigger] seeds[j]).stream@
        },
{
    lemma_seeds_accepted(seeds, seeds.len() as int);
}

proof fn lemma_seeds_accepted(seeds: Seq<StreamSeed>, n: int)
    requires
        0 <= n <= seeds.len(),
    ensures
        seeds_fault(seeds, n) is None <==> {
            &&& forall|i: int|
                0 <= i < n ==> trim((#[trigger] seeds[i]).stream@).len() > 0 && trim(
                    seeds[i].cursor.epoch@,
                ).len() > 0
            &&& forall|i: int, j: int|
                0 <= i < j < n ==> (#[trigger] seeds[i]).stream@ != (#[trigger] seeds[j]).stream@
        },
    decreases n,
{
    if n > 0 {
        lemma_seeds_accepted(seeds, n - 1);
        let names = stream_names(seed_states(seeds.take(n - 1)));
        assert(forall|i: int| 0 <= i < n - 1 ==> #[trigger] names[i] == seeds[i].stream@);
        let s = seeds[n - 1];
        if names.contains(s.stream@) {
            let i = choose|i: int| 0 <= i < names.len() && names[i] == s.stream@;
            assert(seeds[i].stream@ == seeds[n - 1].stream@);
        } else {
            assert forall|i: int| 0 <= i < n - 1 implies (#[trigger] seeds[i]).stream@ != s.stream@ by {
                assert(names[i] == seeds[i].stream@);
            }
        }
    }
}

/// A position can be resumed from exactly where it has a stream, and each of its streams has a name and a
/// generation, and a journal that is named where there is one.
pub proof fn positions_are_accepted_as_they_should_be(p: WatchPosition)
    ensures
        p.fault() is None <==> p.streams@.len() > 0 && forall|i: int|
            0 <= i < p.streams@.len() ==> {
                let s = #[trigger] p.streams@[i];
                trim(s.0@).len() > 0 && trim(s.1@.epoch).len() > 0 && (s.1@.journal_uuid matches Some(u)
                    ==> trim(u).len() > 0)
            },
{
    lemma_first_stream_fault(p.streams@);
}

proof fn lemma_first_stream_fault(v: Seq<(String, RootCursor)>)
    ensures
        first_stream_fault(v) is None <==> forall|i: int|
            0 <= i < v.len() ==> {
                let s = #[trigger] v[i];
                trim(s.0@).len() > 0 && trim(s.1@.epoch).len() > 0 && (s.1@.journal_uuid matches Some(u)
                    ==> trim(u).len() > 0)
            },
    decreases v.len(),
{
    if v.len() > 0 {
        let more = v.skip(1);
        lemma_first_stream_fault(more);
        if first_stream_fault(v) is None {
            assert forall|i: int| 0 <= i < v.len() implies {
                let s = #[trigger] v[i];
                trim(s.0@).len() > 0 && trim(s.1@.epoch).len() > 0 && (s.1@.journal_uuid matches Some(u)
                    ==> trim(u).len() > 0)
            } by {
                if i > 0 {
                    assert(more[i - 1] == v[i]);
                }
            }
        } else if stream_fault(v[0].0@, v[0].1@) is None {
            let i = choose|i: int|
                0 <= i < more.len() && !{
                    let s = #[trigger] more[i];
                    trim(s.0@).len() > 0 && trim(s.1@.epoch).len() > 0 && (s.1@.journal_uuid matches Some(u)
                        ==> trim(u).len() > 0)
                };
            assert(v[i + 1] == more[i]);
        }
    }
}

} // verus!
