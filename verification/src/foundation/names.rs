//! Filename rules and every metadata name the tool writes itself.
//!
//! Internal names live here because filters and writers must agree exactly. Windows name faults live
//! here because planning and applying need one classifier.
use vstd::prelude::*;
use crate::foundation::path::RootRelativePath;
use crate::foundation::text::{ascii_uppered, debug_char, debug_of_char, to_ascii_upper};
use crate::strings::{
    carries, char_lists, chars_of, find, first_index, lemma_first_index, same_chars, slice, split,
    split_chars, starts_with, text_of, texts,
};

verus! {

/// Prefix of same-directory temp files.
pub const TEMP_PREFIX: &'static str = ".syncdash.tmp.";

/// Longest life of a temp file; what is older is left over from a crash.
pub const TEMP_LIFETIME_MS: i64 = 86_400_000;

/// Root lock; guards against two machines applying at once.
pub const LOCK_NAME: &'static str = ".syncdash.lock";

/// Mount-point marker.
pub const MARKER_NAME: &'static str = ".syncdash-root";

/// Versioning store, inside the root.
pub const VERSION_STORE_DIR: &'static str = ".version_syncDash";

/// The tool's own directory.
pub const APP_DIR: &'static str = ".syncdash";

/// Run-overview index.
pub const RUNLOG_INDEX_FILE: &'static str = "runs.jsonl";

/// Source kept by the migration of the run index.
pub const RUNLOG_LEGACY_INDEX_FILE: &'static str = "runs.legacy-v1.jsonl";

/// Serializes the work on the run index across processes.
pub const RUNLOG_INDEX_LOCK_FILE: &'static str = ".syncdash.run-index.lock";

/// Commits the migration of the run records.
pub const RUNLOG_SCHEMA_FILE: &'static str = "runs.schema";

/// Summary of one run.
pub const RUNLOG_SUMMARY_FILE: &'static str = "summary.json";

/// Source kept by the migration of a summary.
pub const RUNLOG_LEGACY_SUMMARY_FILE: &'static str = "summary.legacy-v1.json";

/// Plan of one run.
pub const RUNLOG_PLAN_FILE: &'static str = "plan.jsonl";

/// Event stream of one run.
pub const RUNLOG_RUN_FILE: &'static str = "run.jsonl";

/// Errors of one run.
pub const RUNLOG_ERRORS_FILE: &'static str = "errors.jsonl";

/// Items of one run.
pub const RUNLOG_ITEMS_FILE: &'static str = "items.jsonl";

/// Application log.
pub const APP_LOG_FILE: &'static str = "app.jsonl";

/// Infix of conflict copies: `report.pdf` becomes `report.sync-conflict-<ts>-<host>.pdf`.
pub const CONFLICT_INFIX: &'static str = ".sync-conflict-";

/// How Windows path parsing keeps a path from meaning what it says.
#[derive(Clone, Copy, Debug, PartialEq, Eq, Structural)]
pub enum WindowsNameFault {
    /// The path resolves to another object: reading and writing are both unsafe.
    Mangled,
    /// Windows refuses to create the name.
    Rejected,
    /// The name can be created, but common tools cannot manage it.
    Unusable,
}

impl WindowsNameFault {
    pub fn changes_addressed_path(self) -> (r: bool)
        ensures
            r == (self == WindowsNameFault::Mangled),
    {
        match self {
            WindowsNameFault::Mangled => true,
            _ => false,
        }
    }
}

/// A device name: four fixed ones, and COM or LPT with a digit from `low` on.
pub open spec fn device_name(base: Seq<char>, low: char) -> bool {
    ||| base == "CON"@
    ||| base == "PRN"@
    ||| base == "AUX"@
    ||| base == "NUL"@
    ||| base.len() == 4 && (base.take(3) == "COM"@ || base.take(3) == "LPT"@) && low <= base[3] <= '9'
}

/// What stands before the first dot, in upper case.
pub open spec fn device_base(segment: Seq<char>) -> Seq<char> {
    ascii_uppered(segment.take(first_index(segment, '.')))
}

pub(crate) fn is_device(segment: &[char], low: char) -> (r: bool)
    ensures
        r == device_name(device_base(segment@), low),
{
    let end = match find(segment, '.') {
        Some(i) => i,
        None => segment.len(),
    };
    let stem = slice(segment, 0, end);
    assert(stem@ =~= segment@.take(first_index(segment@, '.')));
    let base = to_ascii_upper(stem.as_slice());
    let b = base.as_slice();
    let con = chars_of("CON");
    let prn = chars_of("PRN");
    let aux = chars_of("AUX");
    let nul = chars_of("NUL");
    if same_chars(b, con.as_slice()) || same_chars(b, prn.as_slice()) || same_chars(b, aux.as_slice())
        || same_chars(b, nul.as_slice()) {
        return true;
    }
    if b.len() != 4 {
        return false;
    }
    let head = slice(b, 0, 3);
    assert(head@ =~= b@.take(3));
    let com = chars_of("COM");
    let lpt = chars_of("LPT");
    (same_chars(head.as_slice(), com.as_slice()) || same_chars(head.as_slice(), lpt.as_slice())) && low
        <= b[3] && b[3] <= '9'
}

/// A character that Windows refuses in a name; the colon is another matter.
pub open spec fn refused_char(c: char) -> bool {
    c == '<' || c == '>' || c == '"' || c == '|' || c == '?' || c == '*' || c == '\\' || (c as u32)
        < 0x20
}

/// The first character of `s` that Windows refuses.
pub open spec fn first_refused(s: Seq<char>) -> Option<char>
    decreases s.len(),
{
    if s.len() == 0 {
        None
    } else if refused_char(s[0]) {
        Some(s[0])
    } else {
        first_refused(s.skip(1))
    }
}

fn find_refused(s: &[char]) -> (r: Option<char>)
    ensures
        r == first_refused(s@),
{
    let mut i: usize = 0;
    assert(s@.skip(0) =~= s@);
    while i < s.len()
        invariant
            i <= s@.len(),
            first_refused(s@) == first_refused(s@.skip(i as int)),
        decreases s@.len() - i,
    {
        let c = s[i];
        if c == '<' || c == '>' || c == '"' || c == '|' || c == '?' || c == '*' || c == '\\' || (c as u32)
            < 0x20 {
            return Some(c);
        }
        assert(s@.skip(i as int).skip(1) =~= s@.skip(i as int + 1));
        i = i + 1;
    }
    None
}

/// The fault of one segment, with the words for it.
pub open spec fn segment_fault(s: Seq<char>) -> Option<(WindowsNameFault, Seq<char>)> {
    if s.len() > 0 && (s.last() == '.' || s.last() == ' ') {
        Some(
            (
                WindowsNameFault::Mangled,
                "mangled: '"@ + s + "' would be silently truncated to '"@ + s.drop_last()
                    + "' and could overwrite a different file"@,
            ),
        )
    } else if carries(s, ':') {
        Some(
            (
                WindowsNameFault::Mangled,
                "mangled: '"@ + s
                    + "' would be written into an alternate data stream — the write reports success, but the name disappears from the directory"@,
            ),
        )
    } else if first_refused(s) is Some {
        Some(
            (
                WindowsNameFault::Rejected,
                "rejected: Windows refuses the character "@ + debug_char(first_refused(s)->0) + " in '"@
                    + s + "'"@,
            ),
        )
    } else if device_name(device_base(s), '0') {
        Some(
            (
                WindowsNameFault::Unusable,
                "unusable: '"@ + s
                    + "' is a reserved device name — it can be created, but Explorer and most Windows programs cannot open or delete it afterwards"@,
            ),
        )
    } else {
        None
    }
}

/// The fault of the first segment that has one.
pub open spec fn first_fault(segments: Seq<Seq<char>>) -> Option<(WindowsNameFault, Seq<char>)>
    decreases segments.len(),
{
    if segments.len() == 0 {
        None
    } else if segment_fault(segments[0]) is Some {
        segment_fault(segments[0])
    } else {
        first_fault(segments.skip(1))
    }
}

fn fault_of_segment(segment: &[char]) -> (r: Option<(WindowsNameFault, String)>)
    ensures
        match r {
            Some(f) => segment_fault(segment@) == Some((f.0, f.1@)),
            None => segment_fault(segment@) is None,
        },
{
    let text = text_of(segment);
    let n = segment.len();
    if n > 0 && (segment[n - 1] == '.' || segment[n - 1] == ' ') {
        let head = slice(segment, 0, n - 1);
        assert(head@ =~= segment@.drop_last());
        let stripped = text_of(head.as_slice());
        let mut m = "mangled: '".to_owned();
        m.append(text.as_str());
        m.append("' would be silently truncated to '");
        m.append(stripped.as_str());
        m.append("' and could overwrite a different file");
        return Some((WindowsNameFault::Mangled, m));
    }
    let colon = find(segment, ':');
    proof {
        lemma_first_index(segment@, ':');
    }
    if colon.is_some() {
        let mut m = "mangled: '".to_owned();
        m.append(text.as_str());
        m.append(
            "' would be written into an alternate data stream — the write reports success, but the name disappears from the directory",
        );
        return Some((WindowsNameFault::Mangled, m));
    }
    if let Some(c) = find_refused(segment) {
        let mut m = "rejected: Windows refuses the character ".to_owned();
        let shown = debug_of_char(c);
        m.append(shown.as_str());
        m.append(" in '");
        m.append(text.as_str());
        m.append("'");
        return Some((WindowsNameFault::Rejected, m));
    }
    if is_device(segment, '0') {
        let mut m = "unusable: '".to_owned();
        m.append(text.as_str());
        m.append(
            "' is a reserved device name — it can be created, but Explorer and most Windows programs cannot open or delete it afterwards",
        );
        return Some((WindowsNameFault::Unusable, m));
    }
    None
}

/// Classifies a path that cannot be handled faithfully under Windows naming.
pub fn windows_name_fault(relative: &str) -> (r: Option<(WindowsNameFault, String)>)
    ensures
        match r {
            Some(f) => first_fault(split(relative@, '/')) == Some((f.0, f.1@)),
            None => first_fault(split(relative@, '/')) is None,
        },
{
    let v = chars_of(relative);
    let parts = split_chars(v.as_slice(), '/');
    let ghost segments = split(relative@, '/');
    let mut i: usize = 0;
    assert(segments.skip(0) =~= segments);
    while i < parts.len()
        invariant
            i <= parts@.len(),
            segments == split(relative@, '/'),
            char_lists(parts@) == segments,
            first_fault(segments) == first_fault(segments.skip(i as int)),
        decreases parts@.len() - i,
    {
        assert(char_lists(parts@)[i as int] == parts@[i as int]@);
        let f = fault_of_segment(parts[i].as_slice());
        if f.is_some() {
            return f;
        }
        assert(segments.skip(i as int).skip(1) =~= segments.skip(i as int + 1));
        i = i + 1;
    }
    None
}

/// A path is without fault exactly when every segment is.
pub proof fn a_path_is_as_good_as_its_segments(segments: Seq<Seq<char>>)
    ensures
        first_fault(segments) is None <==> forall|i: int|
            0 <= i < segments.len() ==> segment_fault(#[trigger] segments[i]) is None,
    decreases segments.len(),
{
    if segments.len() > 0 {
        let rest = segments.skip(1);
        a_path_is_as_good_as_its_segments(rest);
        assert(forall|i: int| 0 <= i < rest.len() ==> rest[i] == segments[i + 1]);
        assert forall|i: int| 0 <= i < segments.len() && first_fault(segments) is None implies segment_fault(
            #[trigger] segments[i],
        ) is None by {
            if i > 0 {
                assert(segment_fault(rest[i - 1]) is None);
            }
        }
    }
}

/// A segment that only the tool itself writes.
pub open spec fn internal_segment(s: Seq<char>) -> bool {
    ||| s == APP_DIR@
    ||| s == VERSION_STORE_DIR@
    ||| s == MARKER_NAME@
    ||| LOCK_NAME@.is_prefix_of(s)
    ||| TEMP_PREFIX@.is_prefix_of(s)
}

/// A path with such a segment, at whatever depth.
pub open spec fn internal_path(path: Seq<char>) -> bool {
    exists|i: int| 0 <= i < split(path, '/').len() && internal_segment(#[trigger] split(path, '/')[i])
}

/// Whether a path belongs to the tool rather than to what is synced.
pub fn is_internal_artifact_path(path: &RootRelativePath) -> (r: bool)
    ensures
        r == internal_path(path@),
{
    let v = chars_of(path.as_str());
    let parts = split_chars(v.as_slice(), '/');
    let app = chars_of(APP_DIR);
    let store = chars_of(VERSION_STORE_DIR);
    let marker = chars_of(MARKER_NAME);
    let lock = chars_of(LOCK_NAME);
    let temp = chars_of(TEMP_PREFIX);
    let ghost segments = split(path@, '/');
    let mut i: usize = 0;
    while i < parts.len()
        invariant
            i <= parts@.len(),
            char_lists(parts@) == segments,
            segments == split(path@, '/'),
            app@ == APP_DIR@,
            store@ == VERSION_STORE_DIR@,
            marker@ == MARKER_NAME@,
            lock@ == LOCK_NAME@,
            temp@ == TEMP_PREFIX@,
            forall|j: int| 0 <= j < i ==> !internal_segment(#[trigger] segments[j]),
        decreases parts@.len() - i,
    {
        assert(char_lists(parts@)[i as int] == parts@[i as int]@);
        let s = parts[i].as_slice();
        if same_chars(s, app.as_slice()) || same_chars(s, store.as_slice()) || same_chars(
            s,
            marker.as_slice(),
        ) || starts_with(s, lock.as_slice()) || starts_with(s, temp.as_slice()) {
            assert(internal_segment(segments[i as int]));
            return true;
        }
        i = i + 1;
    }
    false
}

/// The phrases that exclude the tool's own metadata.
pub open spec fn self_exclude_phrases() -> Seq<Seq<char>> {
    seq![
        "*/"@ + APP_DIR@ + "/"@,
        "*/"@ + VERSION_STORE_DIR@ + "/"@,
        "*/"@ + LOCK_NAME@ + "*"@,
        "*/"@ + TEMP_PREFIX@ + "*"@,
        "*/"@ + MARKER_NAME@,
    ]
}

fn phrase(name: &str, tail: &str) -> (r: String)
    ensures
        r@ == "*/"@ + name@ + tail@,
{
    let mut s = "*/".to_owned();
    s.append(name);
    s.append(tail);
    s
}

/// The tool's own metadata, excluded whatever else is said.
pub fn self_excludes() -> (r: Vec<String>)
    ensures
        texts(r@) == self_exclude_phrases(),
{
    let mut r: Vec<String> = Vec::new();
    r.push(phrase(APP_DIR, "/"));
    r.push(phrase(VERSION_STORE_DIR, "/"));
    r.push(phrase(LOCK_NAME, "*"));
    r.push(phrase(TEMP_PREFIX, "*"));
    let mut last = "*/".to_owned();
    last.append(MARKER_NAME);
    r.push(last);
    assert(texts(r@) =~= self_exclude_phrases());
    r
}

/// Windows cuts a name that ends in a dot or a blank, and writes one with a colon elsewhere; both are worse
/// than a refusal, and a refusal is worse than a device name. Nothing else is wrong with a name.
pub proof fn what_windows_does_to_a_name(s: Seq<char>)
    ensures
        ({
            let cut = s.len() > 0 && (s[s.len() - 1] == '.' || s[s.len() - 1] == ' ');
            let stream = exists|i: int| 0 <= i < s.len() && #[trigger] s[i] == ':';
            let refused = exists|i: int|
                0 <= i < s.len() && {
                    let c = #[trigger] s[i];
                    c == '<' || c == '>' || c == '"' || c == '|' || c == '?' || c == '*' || c == '\\' || (
                    c as u32) < 32
                };
            match segment_fault(s) {
                Some((WindowsNameFault::Mangled, _)) => cut || stream,
                Some((WindowsNameFault::Rejected, _)) => !cut && !stream && refused,
                Some((WindowsNameFault::Unusable, _)) => !cut && !stream && !refused && device_name(
                    device_base(s),
                    '0',
                ),
                None => !cut && !stream && !refused && !device_name(device_base(s), '0'),
            }
        }),
{
    lemma_refused(s);
    lemma_first_index(s, ':');
    let stream = exists|i: int| 0 <= i < s.len() && #[trigger] s[i] == ':';
    if carries(s, ':') {
        assert(stream);
    }
    if stream {
        let i = choose|i: int| 0 <= i < s.len() && #[trigger] s[i] == ':';
        assert(carries(s, ':'));
    }
    if first_refused(s) is Some {
        let i = choose|i: int| 0 <= i < s.len() && refused_char(#[trigger] s[i]);
        assert(refused_char(s[i]));
    }
}

proof fn lemma_refused(s: Seq<char>)
    ensures
        first_refused(s) is Some <==> exists|i: int| 0 <= i < s.len() && refused_char(#[trigger] s[i]),
        first_refused(s) is None <==> forall|i: int| 0 <= i < s.len() ==> !refused_char(#[trigger] s[i]),
    decreases s.len(),
{
    if s.len() > 0 && !refused_char(s[0]) {
        let more = s.skip(1);
        lemma_refused(more);
        if first_refused(more) is Some {
            let i = choose|i: int| 0 <= i < more.len() && refused_char(#[trigger] more[i]);
            assert(refused_char(s[i + 1]));
        } else {
            assert forall|i: int| 0 <= i < s.len() implies !refused_char(#[trigger] s[i]) by {
                if i > 0 {
                    assert(more[i - 1] == s[i]);
                }
            }
        }
    }
}

/// What stands behind the first dot does not make a device name a good one, nor does its case.
pub proof fn devices_keep_their_names(a: Seq<char>, b: Seq<char>, tail: Seq<char>)
    requires
        ascii_uppered(a) == ascii_uppered(b),
        !carries(a, '.'),
        !carries(b, '.'),
    ensures
        device_base(a) == device_base(b),
        device_base(a + seq!['.'] + tail) == device_base(a),
{
    lemma_first_index(a, '.');
    lemma_first_index(b, '.');
    assert(a.take(a.len() as int) =~= a);
    assert(b.take(b.len() as int) =~= b);
    let long = a + seq!['.'] + tail;
    lemma_first_index(long, '.');
    assert(long[a.len() as int] == '.');
    let at = first_index(long, '.');
    if at < a.len() {
        assert(a[at] == long[at]);
    }
    assert(long.take(a.len() as int) =~= a);
}

/// The fault of a path is that of its first segment that has one.
pub proof fn the_first_fault_counts(segments: Seq<Seq<char>>)
    ensures
        first_fault(segments) is Some ==> exists|i: int|
            0 <= i < segments.len() && segment_fault(#[trigger] segments[i]) == first_fault(segments)
                && forall|k: int| 0 <= k < i ==> segment_fault(#[trigger] segments[k]) is None,
    decreases segments.len(),
{
    if segments.len() > 0 {
        let more = segments.skip(1);
        the_first_fault_counts(more);
        if segment_fault(segments[0]) is Some {
            assert(segment_fault(segments[0]) == first_fault(segments));
        } else if first_fault(more) is Some {
            let i = choose|i: int|
                0 <= i < more.len() && segment_fault(#[trigger] more[i]) == first_fault(more) && forall|k: int|
                    0 <= k < i ==> segment_fault(#[trigger] more[k]) is None;
            assert(segments[i + 1] == more[i]);
            assert forall|k: int| 0 <= k < i + 1 implies segment_fault(#[trigger] segments[k]) is None by {
                if k > 0 {
                    assert(more[k - 1] == segments[k]);
                }
            }
        }
    }
}

/// What the tool writes for itself is its own at every depth, together with all that lies below it.
pub proof fn the_tools_own_paths_are_internal(dir: Seq<char>, name: Seq<char>)
    requires
        forall|i: int| 0 <= i < name.len() ==> #[trigger] name[i] != '/',
    ensures
        internal_path(dir.push('/') + name) <==> internal_path(dir) || internal_segment(name),
        internal_path(name) <==> internal_segment(name),
{
    let p = dir.push('/') + name;
    let k = dir.len() as int;
    assert forall|j: int| k < j < p.len() implies p[j] != '/' by {
        assert(p[j] == name[j - k - 1]);
    }
    crate::strings::lemma_last_index_is(p, '/', k);
    crate::foundation::path::lemma_split_at_last(p, '/');
    assert(p.take(k) =~= dir);
    assert(p.skip(k + 1) =~= name);
    let whole = split(p, '/');
    let front = split(dir, '/');
    assert(whole == front.push(name));
    if internal_path(dir) {
        let i = choose|i: int| 0 <= i < front.len() && internal_segment(#[trigger] front[i]);
        assert(internal_segment(whole[i]));
    }
    if internal_segment(name) {
        assert(internal_segment(whole[front.len() as int]));
    }
    if internal_path(p) {
        let i = choose|i: int| 0 <= i < whole.len() && internal_segment(#[trigger] whole[i]);
        if i < front.len() {
            assert(internal_segment(front[i]));
        }
    }
    lemma_first_index(name, '/');
    let alone = split(name, '/');
    assert(alone =~= seq![name]);
    if internal_segment(name) {
        assert(internal_segment(alone[0]));
    }
}

/// A name is the tool's own by what it is or how it begins, and by nothing else.
pub proof fn own_names_are_told_by_their_beginning(s: Seq<char>, more: Seq<char>)
    ensures
        internal_segment(".syncdash.lock"@ + more),
        internal_segment(".syncdash.tmp."@ + more),
        internal_segment(".syncdash-root"@) && internal_segment(".syncdash"@) && internal_segment(
            ".version_syncDash"@,
        ),
        s.len() > 0 && s[0] != '.' ==> !internal_segment(s),
{
    let a = ".syncdash.lock"@ + more;
    assert(a.take(".syncdash.lock"@.len() as int) =~= ".syncdash.lock"@);
    let b = ".syncdash.tmp."@ + more;
    assert(b.take(".syncdash.tmp."@.len() as int) =~= ".syncdash.tmp."@);
    reveal_strlit(".syncdash.lock");
    reveal_strlit(".syncdash.tmp.");
    reveal_strlit(".syncdash-root");
    reveal_strlit(".syncdash");
    reveal_strlit(".version_syncDash");
    if s.len() > 0 && s[0] != '.' {
        if LOCK_NAME@.is_prefix_of(s) {
            assert(s.take(LOCK_NAME@.len() as int)[0] == s[0]);
        }
        if TEMP_PREFIX@.is_prefix_of(s) {
            assert(s.take(TEMP_PREFIX@.len() as int)[0] == s[0]);
        }
    }
}

} // verus!
