//! Root-contained path types and separator conversion.
//!
//! Table paths always use `/`. The types here prove containment; whether a name is legal
//! is a property of the destination filesystem and is asked elsewhere.
use vstd::prelude::*;
use crate::foundation::text::{debug_of, debug_text, upper_char};
use crate::strings::{
    ascii_alpha, carries, char_lists, chars_of, find, first_index, last_index,
    lemma_first_index, lemma_last_index, lemma_split, push_all, replace_char, replaced, rfind,
    same, same_chars, slice, split, split_chars, text_of,
};
use crate::table::opt_text;

verus! {

/// Why a text was refused as a path below a root.
#[derive(Debug)]
pub struct PathBoundaryError {
    pub value: String,
    pub boundary: &'static str,
    pub reason: &'static str,
}

impl PathBoundaryError {
    /// The refusal as a sentence.
    pub fn message(&self) -> (r: String)
        ensures
            r@ == "invalid "@ + self.boundary@ + " "@ + debug_text(self.value@) + ": "@ + self.reason@,
    {
        let mut m = "invalid ".to_owned();
        m.append(self.boundary);
        m.append(" ");
        let shown = debug_of(self.value.as_str());
        m.append(shown.as_str());
        m.append(": ");
        m.append(self.reason);
        m
    }
}

/// The three shapes of a path below a root.
#[derive(Clone, Copy, Debug, PartialEq, Eq, Structural)]
pub enum RelativeBoundary {
    Path,
    Directory,
    EntryName,
}

impl RelativeBoundary {
    pub open spec fn spec_label(self) -> Seq<char> {
        match self {
            RelativeBoundary::Path => "root-relative path"@,
            RelativeBoundary::Directory => "root-relative directory"@,
            RelativeBoundary::EntryName => "directory entry name"@,
        }
    }

    pub fn label(self) -> (r: &'static str)
        ensures
            r@ == self.spec_label(),
    {
        match self {
            RelativeBoundary::Path => "root-relative path",
            RelativeBoundary::Directory => "root-relative directory",
            RelativeBoundary::EntryName => "directory entry name",
        }
    }

    /// Only a directory may be the root itself.
    pub fn allows_root(self) -> (r: bool)
        ensures
            r == (self == RelativeBoundary::Directory),
    {
        match self {
            RelativeBoundary::Directory => true,
            _ => false,
        }
    }
}

/// A segment that names something in the directory it stands in.
pub open spec fn plain_segment(s: Seq<char>) -> bool {
    &&& s.len() > 0
    &&& s != seq!['.']
    &&& s != seq!['.', '.']
}

pub open spec fn plain_segments(v: Seq<char>) -> bool {
    forall|i: int| 0 <= i < split(v, '/').len() ==> plain_segment(#[trigger] split(v, '/')[i])
}

pub open spec fn drive_qualified(v: Seq<char>) -> bool {
    v.len() >= 2 && ascii_alpha(v[0]) && v[1] == ':'
}

/// The reason for which `v` is refused, `None` where it is accepted. The first that applies is given.
pub open spec fn boundary_fault(v: Seq<char>, boundary: RelativeBoundary) -> Option<Seq<char>> {
    if v.len() == 0 {
        if boundary == RelativeBoundary::Directory {
            None
        } else {
            Some("the empty string names the root, not an entry"@)
        }
    } else if carries(v, '\0') {
        Some("NUL is not a valid filename byte"@)
    } else if carries(v, '\\') {
        Some("backslashes are not accepted in portable relative paths"@)
    } else if drive_qualified(v) {
        Some("drive-qualified paths are not allowed"@)
    } else if v[0] == '/' {
        Some("absolute paths are not allowed"@)
    } else if boundary == RelativeBoundary::EntryName && carries(v, '/') {
        Some("a directory entry must contain exactly one segment"@)
    } else if !plain_segments(v) {
        Some("segments must be non-empty and cannot be '.' or '..'"@)
    } else {
        None
    }
}

/// `v` is a path of the given shape that cannot leave the root it is resolved under.
pub open spec fn contained(v: Seq<char>, boundary: RelativeBoundary) -> bool {
    if v.len() == 0 {
        boundary == RelativeBoundary::Directory
    } else {
        &&& !carries(v, '\0')
        &&& !carries(v, '\\')
        &&& !drive_qualified(v)
        &&& v[0] != '/'
        &&& plain_segments(v)
        &&& boundary == RelativeBoundary::EntryName ==> !carries(v, '/')
    }
}

/// What is accepted is exactly what is contained.
pub proof fn accepted_is_contained(v: Seq<char>, boundary: RelativeBoundary)
    ensures
        boundary_fault(v, boundary) is None <==> contained(v, boundary),
{
}

fn is_plain_segment(s: &[char]) -> (r: bool)
    ensures
        r == plain_segment(s@),
{
    if s.len() == 0 {
        return false;
    }
    if s.len() == 1 && s[0] == '.' {
        assert(s@ =~= seq!['.']);
        return false;
    }
    if s.len() == 2 && s[0] == '.' && s[1] == '.' {
        assert(s@ =~= seq!['.', '.']);
        return false;
    }
    true
}

fn has_plain_segments(v: &[char]) -> (r: bool)
    ensures
        r == plain_segments(v@),
{
    let parts = split_chars(v, '/');
    let mut i: usize = 0;
    while i < parts.len()
        invariant
            i <= parts@.len(),
            char_lists(parts@) == split(v@, '/'),
            forall|j: int| 0 <= j < i ==> plain_segment(#[trigger] split(v@, '/')[j]),
        decreases parts@.len() - i,
    {
        assert(char_lists(parts@)[i as int] == parts@[i as int]@);
        if !is_plain_segment(parts[i].as_slice()) {
            return false;
        }
        i = i + 1;
    }
    true
}

/// Checks that `value` is a path of the given shape below a root.
pub fn validate_root_relative(value: &str, boundary: RelativeBoundary) -> (r: Result<
    (),
    PathBoundaryError,
>)
    ensures
        match r {
            Ok(_) => boundary_fault(value@, boundary) is None,
            Err(e) => {
                &&& boundary_fault(value@, boundary) == Some(e.reason@)
                &&& e.value@ == value@
                &&& e.boundary@ == boundary.spec_label()
            },
        },
{
    match fault_of(value, boundary) {
        None => Ok(()),
        Some(reason) => Err(
            PathBoundaryError { value: value.to_owned(), boundary: boundary.label(), reason },
        ),
    }
}

fn fault_of(value: &str, boundary: RelativeBoundary) -> (r: Option<&'static str>)
    ensures
        match r {
            None => boundary_fault(value@, boundary) is None,
            Some(reason) => boundary_fault(value@, boundary) == Some(reason@),
        },
{
    let v = chars_of(value);
    if v.len() == 0 {
        return if boundary.allows_root() {
            None
        } else {
            Some("the empty string names the root, not an entry")
        };
    }
    if find(v.as_slice(), '\0').is_some() {
        proof {
            crate::strings::lemma_first_index(v@, '\0');
        }
        return Some("NUL is not a valid filename byte");
    }
    if find(v.as_slice(), '\\').is_some() {
        proof {
            crate::strings::lemma_first_index(v@, '\\');
        }
        return Some("backslashes are not accepted in portable relative paths");
    }
    if v.len() >= 2 && (('A' <= v[0] && v[0] <= 'Z') || ('a' <= v[0] && v[0] <= 'z')) && v[1] == ':' {
        return Some("drive-qualified paths are not allowed");
    }
    if v[0] == '/' {
        return Some("absolute paths are not allowed");
    }
    let slash = find(v.as_slice(), '/');
    proof {
        crate::strings::lemma_first_index(v@, '/');
    }
    if boundary == RelativeBoundary::EntryName && slash.is_some() {
        return Some("a directory entry must contain exactly one segment");
    }
    if !has_plain_segments(v.as_slice()) {
        return Some("segments must be non-empty and cannot be '.' or '..'");
    }
    None
}

/// A non-empty, slash-separated path resolved beneath one sync root.
#[derive(Debug)]
pub struct RootRelativePath {
    text: String,
}

/// A portable directory path beneath one sync root; the empty value denotes the root itself.
#[derive(Debug)]
pub struct RootRelativeDir {
    text: String,
}

/// One portable directory-entry name, never a path with several segments.
#[derive(Debug)]
pub struct EntryName {
    text: String,
}

impl View for RootRelativePath {
    type V = Seq<char>;

    closed spec fn view(&self) -> Seq<char> {
        self.text@
    }
}

impl View for RootRelativeDir {
    type V = Seq<char>;

    closed spec fn view(&self) -> Seq<char> {
        self.text@
    }
}

impl View for EntryName {
    type V = Seq<char>;

    closed spec fn view(&self) -> Seq<char> {
        self.text@
    }
}

impl RootRelativePath {
    #[verifier::type_invariant]
    spec fn below_the_root(self) -> bool {
        contained(self.text@, RelativeBoundary::Path)
    }

    pub fn new(value: &str) -> (r: Result<RootRelativePath, PathBoundaryError>)
        ensures
            match r {
                Ok(p) => boundary_fault(value@, RelativeBoundary::Path) is None && p@ == value@,
                Err(e) => {
                    &&& boundary_fault(value@, RelativeBoundary::Path) == Some(e.reason@)
                    &&& e.value@ == value@
                    &&& e.boundary@ == RelativeBoundary::Path.spec_label()
                },
            },
    {
        match validate_root_relative(value, RelativeBoundary::Path) {
            Ok(_) => {
                proof {
                    accepted_is_contained(value@, RelativeBoundary::Path);
                }
                Ok(RootRelativePath { text: value.to_owned() })
            },
            Err(e) => Err(e),
        }
    }

    pub fn try_from(value: &str) -> (r: Result<RootRelativePath, PathBoundaryError>)
        ensures
            match r {
                Ok(p) => boundary_fault(value@, RelativeBoundary::Path) is None && p@ == value@,
                Err(e) => {
                    &&& boundary_fault(value@, RelativeBoundary::Path) == Some(e.reason@)
                    &&& e.value@ == value@
                    &&& e.boundary@ == RelativeBoundary::Path.spec_label()
                },
            },
    {
        RootRelativePath::new(value)
    }

    pub fn as_str(&self) -> (r: &str)
        ensures
            r@ == self@,
            contained(r@, RelativeBoundary::Path),
    {
        proof {
            use_type_invariant(self);
        }
        self.text.as_str()
    }

    pub fn into_string(self) -> (r: String)
        ensures
            r@ == self@,
            contained(r@, RelativeBoundary::Path),
    {
        proof {
            use_type_invariant(&self);
        }
        self.text
    }
}

impl RootRelativeDir {
    #[verifier::type_invariant]
    spec fn below_the_root(self) -> bool {
        contained(self.text@, RelativeBoundary::Directory)
    }

    pub fn new(value: &str) -> (r: Result<RootRelativeDir, PathBoundaryError>)
        ensures
            match r {
                Ok(p) => boundary_fault(value@, RelativeBoundary::Directory) is None && p@ == value@,
                Err(e) => {
                    &&& boundary_fault(value@, RelativeBoundary::Directory) == Some(e.reason@)
                    &&& e.value@ == value@
                    &&& e.boundary@ == RelativeBoundary::Directory.spec_label()
                },
            },
    {
        match validate_root_relative(value, RelativeBoundary::Directory) {
            Ok(_) => {
                proof {
                    accepted_is_contained(value@, RelativeBoundary::Directory);
                }
                Ok(RootRelativeDir { text: value.to_owned() })
            },
            Err(e) => Err(e),
        }
    }

    pub fn try_from(value: &str) -> (r: Result<RootRelativeDir, PathBoundaryError>)
        ensures
            match r {
                Ok(p) => boundary_fault(value@, RelativeBoundary::Directory) is None && p@ == value@,
                Err(e) => {
                    &&& boundary_fault(value@, RelativeBoundary::Directory) == Some(e.reason@)
                    &&& e.value@ == value@
                    &&& e.boundary@ == RelativeBoundary::Directory.spec_label()
                },
            },
    {
        RootRelativeDir::new(value)
    }

    pub fn as_str(&self) -> (r: &str)
        ensures
            r@ == self@,
            contained(r@, RelativeBoundary::Directory),
    {
        proof {
            use_type_invariant(self);
        }
        self.text.as_str()
    }

    pub fn into_string(self) -> (r: String)
        ensures
            r@ == self@,
            contained(r@, RelativeBoundary::Directory),
    {
        proof {
            use_type_invariant(&self);
        }
        self.text
    }
}

impl EntryName {
    #[verifier::type_invariant]
    spec fn below_the_root(self) -> bool {
        contained(self.text@, RelativeBoundary::EntryName)
    }

    pub fn new(value: &str) -> (r: Result<EntryName, PathBoundaryError>)
        ensures
            match r {
                Ok(p) => boundary_fault(value@, RelativeBoundary::EntryName) is None && p@ == value@,
                Err(e) => {
                    &&& boundary_fault(value@, RelativeBoundary::EntryName) == Some(e.reason@)
                    &&& e.value@ == value@
                    &&& e.boundary@ == RelativeBoundary::EntryName.spec_label()
                },
            },
    {
        match validate_root_relative(value, RelativeBoundary::EntryName) {
            Ok(_) => {
                proof {
                    accepted_is_contained(value@, RelativeBoundary::EntryName);
                }
                Ok(EntryName { text: value.to_owned() })
            },
            Err(e) => Err(e),
        }
    }

    pub fn try_from(value: &str) -> (r: Result<EntryName, PathBoundaryError>)
        ensures
            match r {
                Ok(p) => boundary_fault(value@, RelativeBoundary::EntryName) is None && p@ == value@,
                Err(e) => {
                    &&& boundary_fault(value@, RelativeBoundary::EntryName) == Some(e.reason@)
                    &&& e.value@ == value@
                    &&& e.boundary@ == RelativeBoundary::EntryName.spec_label()
                },
            },
    {
        EntryName::new(value)
    }

    pub fn as_str(&self) -> (r: &str)
        ensures
            r@ == self@,
            contained(r@, RelativeBoundary::EntryName),
    {
        proof {
            use_type_invariant(self);
        }
        self.text.as_str()
    }

    pub fn into_string(self) -> (r: String)
        ensures
            r@ == self@,
            contained(r@, RelativeBoundary::EntryName),
    {
        proof {
            use_type_invariant(&self);
        }
        self.text
    }
}

/// Everything before the last segment, without the slash.
pub open spec fn parent_of(rel: Seq<char>) -> Option<Seq<char>> {
    let i = last_index(rel, '/');
    if i < 0 {
        None
    } else {
        Some(rel.take(i))
    }
}

/// The last segment.
pub open spec fn base_of(rel: Seq<char>) -> Seq<char> {
    rel.skip(last_index(rel, '/') + 1)
}

/// Everything before the last segment, the slash included.
pub open spec fn prefix_of(rel: Seq<char>) -> Seq<char> {
    rel.take(last_index(rel, '/') + 1)
}

/// Everything before the last segment, without the trailing `/`. `None` at top level.
pub fn parent(rel: &str) -> (r: Option<&str>)
    ensures
        match r {
            Some(p) => parent_of(rel@) == Some(p@),
            None => parent_of(rel@) is None,
        },
{
    let v = chars_of(rel);
    match rfind(v.as_slice(), '/') {
        Some(i) => {
            let p = rel.substring_char(0, i);
            assert(p@ =~= rel@.take(i as int));
            Some(p)
        },
        None => None,
    }
}

/// The last segment.
pub fn base_name(rel: &str) -> (r: &str)
    ensures
        r@ == base_of(rel@),
{
    let v = chars_of(rel);
    let n = v.len();
    match rfind(v.as_slice(), '/') {
        Some(i) => {
            let p = rel.substring_char(i + 1, n);
            assert(p@ =~= rel@.skip(i as int + 1));
            p
        },
        None => {
            assert(rel@.skip(0) =~= rel@);
            rel
        },
    }
}

/// Splits into the directory prefix, trailing `/` included, and the last segment.
pub fn split_parent(rel: &str) -> (r: (&str, &str))
    ensures
        r.0@ == prefix_of(rel@),
        r.1@ == base_of(rel@),
{
    let v = chars_of(rel);
    let n = v.len();
    match rfind(v.as_slice(), '/') {
        Some(i) => {
            let a = rel.substring_char(0, i + 1);
            let b = rel.substring_char(i + 1, n);
            assert(a@ =~= rel@.take(i as int + 1));
            assert(b@ =~= rel@.skip(i as int + 1));
            (a, b)
        },
        None => {
            proof {
                reveal_strlit("");
                assert(rel@.take(0) =~= ""@);
                assert(rel@.skip(0) =~= rel@);
            }
            ("", rel)
        },
    }
}

/// The two halves of a split are the path, and the last segment holds no slash.
pub proof fn split_parent_loses_nothing(rel: Seq<char>)
    ensures
        prefix_of(rel) + base_of(rel) == rel,
        !carries(base_of(rel), '/'),
        parent_of(rel) matches Some(p) ==> p.push('/') == prefix_of(rel),
{
    lemma_last_index(rel, '/');
    let i = last_index(rel, '/');
    assert(prefix_of(rel) + base_of(rel) =~= rel);
    assert(forall|j: int| 0 <= j < base_of(rel).len() ==> base_of(rel)[j] == rel[j + i + 1]);
    if i >= 0 {
        assert(rel.take(i).push('/') =~= prefix_of(rel));
    }
}

/// Where the extension starts: at the last dot, unless that is the first character.
pub open spec fn ext_start(name: Seq<char>) -> int {
    let i = last_index(name, '.');
    if i > 0 {
        i
    } else {
        name.len() as int
    }
}

/// Splits into stem and extension, dot included. A hidden file is all stem.
pub fn split_ext(name: &str) -> (r: (&str, &str))
    ensures
        r.0@ == name@.take(ext_start(name@)),
        r.1@ == name@.skip(ext_start(name@)),
        r.0@ + r.1@ == name@,
{
    let v = chars_of(name);
    let i = rfind(v.as_slice(), '.');
    if let Some(k) = i {
        if k > 0 {
            let a = name.substring_char(0, k);
            let b = name.substring_char(k, v.len());
            assert(a@ =~= name@.take(k as int));
            assert(b@ =~= name@.skip(k as int));
            assert(a@ + b@ =~= name@);
            return (a, b);
        }
    }
    proof {
        reveal_strlit("");
        assert(name@.take(name@.len() as int) =~= name@);
        assert(name@.skip(name@.len() as int) =~= ""@);
        assert(name@ + ""@ =~= name@);
    }
    (name, "")
}

/// The separator a root is spelt with, read off the root itself: the root may be the far
/// machine's.
pub fn sep_of(root: &str) -> (r: char)
    ensures
        r == if carries(root@, '\\') {
            '\\'
        } else {
            '/'
        },
{
    let v = chars_of(root);
    let i = find(v.as_slice(), '\\');
    proof {
        crate::strings::lemma_first_index(root@, '\\');
    }
    if i.is_some() {
        '\\'
    } else {
        '/'
    }
}

/// The separator of the path layer that a name travels through.
pub open spec fn native_sep(windows: bool) -> char {
    if windows {
        '\\'
    } else {
        '/'
    }
}

/// A table path with native separators.
pub open spec fn native_of(rel: Seq<char>, windows: bool) -> Seq<char> {
    if windows {
        replaced(rel, '/', '\\')
    } else {
        rel
    }
}

/// Table path (`/`-separated) to native separators.
pub fn to_native(rel: &str, windows: bool) -> (r: String)
    ensures
        r@ == native_of(rel@, windows),
{
    if windows {
        let v = chars_of(rel);
        let w = replace_char(v.as_slice(), '/', '\\');
        text_of(w.as_slice())
    } else {
        rel.to_owned()
    }
}

pub open spec fn is_sep(c: char, windows: bool) -> bool {
    c == '/' || (windows && c == '\\')
}

/// On Windows a path that begins at a drive or at its root is joined by rules of its own, which look
/// into `root`.
pub open spec fn joinable(rel: Seq<char>, windows: bool) -> bool {
    windows ==> !drive_qualified(rel) && (rel.len() > 0 ==> !is_sep(rel[0], windows))
}

/// A Windows drive and nothing else: what follows it is meant from where that drive stands.
pub open spec fn bare_drive(root: Seq<char>, windows: bool) -> bool {
    windows && root.len() == 2 && drive_qualified(root)
}

/// `root` and `rel` with exactly one separator between them; an empty `root` and a bare drive add none.
/// A `rel` that begins at the root of a unix stands for itself.
pub open spec fn joined(root: Seq<char>, rel: Seq<char>, windows: bool) -> Seq<char> {
    if !windows && rel.len() > 0 && rel[0] == '/' {
        rel
    } else if root.len() == 0 || is_sep(root.last(), windows) || bare_drive(root, windows) {
        root + native_of(rel, windows)
    } else {
        root.push(native_sep(windows)) + native_of(rel, windows)
    }
}

/// The letter of the drive that a path begins with, in upper case.
pub open spec fn drive_of(s: Seq<char>) -> Option<char> {
    if drive_qualified(s) {
        Some(upper_char(s[0]))
    } else {
        None
    }
}

fn drive_letter(s: &[char]) -> (r: Option<char>)
    ensures
        r == drive_of(s@),
{
    if s.len() >= 2 && s[1] == ':' {
        let c = s[0];
        if 'A' <= c && c <= 'Z' {
            Some(c)
        } else if 'a' <= c && c <= 'z' {
            Some((c as u8 - 32) as char)
        } else {
            None
        }
    } else {
        None
    }
}

/// Native root and portable relative path to native path.
pub fn join_native(root: &str, rel: &str, windows: bool) -> (r: String)
    requires
        joinable(rel@, windows),
    ensures
        r@ == joined(root@, rel@, windows),
{
    let w = chars_of(rel);
    if !windows && w.len() > 0 && w[0] == '/' {
        return rel.to_owned();
    }
    let v = chars_of(root);
    let mut out = root.to_owned();
    if v.len() > 0 {
        let c = v[v.len() - 1];
        let bare = windows && v.len() == 2 && drive_letter(v.as_slice()).is_some();
        if !bare && !(c == '/' || (windows && c == '\\')) {
            out.push(if windows {
                '\\'
            } else {
                '/'
            });
        }
    }
    let tail = to_native(rel, windows);
    out.append(tail.as_str());
    out
}

/// `s` without the separators and the `.` segments that it begins with.
pub open spec fn lead(s: Seq<char>, windows: bool) -> Seq<char>
    decreases s.len(),
{
    if s.len() == 0 {
        s
    } else if is_sep(s[0], windows) || dotted(s, windows) {
        lead(s.skip(1), windows)
    } else {
        s
    }
}

/// `s` begins with the segment `.`.
pub open spec fn dotted(s: Seq<char>, windows: bool) -> bool {
    s.len() > 0 && s[0] == '.' && (s.len() == 1 || is_sep(s[1], windows))
}

/// `s` without the separators and the `.` segments that it ends with.
pub open spec fn trail(s: Seq<char>, windows: bool) -> Seq<char>
    decreases s.len(),
{
    if s.len() == 0 {
        s
    } else if is_sep(s.last(), windows) || (s.len() >= 2 && s.last() == '.' && is_sep(
        s[s.len() - 2],
        windows,
    )) {
        trail(s.drop_last(), windows)
    } else {
        s
    }
}

/// How long the first segment is.
pub open spec fn segment_len(s: Seq<char>, windows: bool) -> int
    decreases s.len(),
{
    if s.len() == 0 || is_sep(s[0], windows) {
        0
    } else {
        1 + segment_len(s.skip(1), windows)
    }
}

pub proof fn lemma_segment_len(s: Seq<char>, windows: bool)
    ensures
        0 <= segment_len(s, windows) <= s.len(),
        s.len() > 0 && !is_sep(s[0], windows) ==> segment_len(s, windows) > 0,
        segment_len(s, windows) < s.len() ==> is_sep(s[segment_len(s, windows)], windows),
        forall|i: int| 0 <= i < segment_len(s, windows) ==> !is_sep(#[trigger] s[i], windows),
    decreases s.len(),
{
    if s.len() > 0 && !is_sep(s[0], windows) {
        lemma_segment_len(s.skip(1), windows);
        let k = segment_len(s.skip(1), windows);
        assert forall|i: int| 0 <= i < 1 + k implies !is_sep(#[trigger] s[i], windows) by {
            if i > 0 {
                assert(s[i] == s.skip(1)[i - 1]);
            }
        }
    }
}

pub proof fn lemma_lead(s: Seq<char>, windows: bool)
    ensures
        lead(s, windows).len() <= s.len(),
        lead(s, windows).len() > 0 ==> !is_sep(lead(s, windows)[0], windows) && !dotted(
            lead(s, windows),
            windows,
        ),
    decreases s.len(),
{
    if s.len() > 0 && (is_sep(s[0], windows) || dotted(s, windows)) {
        lemma_lead(s.skip(1), windows);
    }
}

/// Goes through both paths segment by segment: what is left of `p` once all of `r` is matched.
pub open spec fn matched(p: Seq<char>, r: Seq<char>, windows: bool) -> Option<Seq<char>>
    decreases p.len(),
{
    let a = lead(p, windows);
    let b = lead(r, windows);
    let m = segment_len(a, windows);
    let n = segment_len(b, windows);
    proof {
        lemma_lead(p, windows);
        lemma_segment_len(a, windows);
    }
    if b.len() == 0 {
        Some(trail(a, windows))
    } else if a.len() == 0 {
        None
    } else if a.take(m) == b.take(n) {
        matched(a.skip(m), b.skip(n), windows)
    } else {
        None
    }
}

/// A path without the separators and the `.` segments that it ends with; the one that it begins with
/// stays.
pub open spec fn tidy_end(path: Seq<char>, windows: bool) -> Seq<char> {
    if path.len() > 0 && is_sep(path[0], windows) {
        seq![path[0]] + trail(path.skip(1), windows)
    } else {
        trail(path, windows)
    }
}

/// What `path` is below `root`: `None` when it is not below it. Segments are compared, so that doubled
/// separators and `.` segments make no difference. On Windows the drives are compared first, without
/// case; a network path or a `\\?\` path names no drive, and its server, share or device is compared as
/// the segments that it is spelled with.
pub open spec fn below(path: Seq<char>, root: Seq<char>, windows: bool) -> Option<Seq<char>> {
    if !windows || (drive_of(path) is None && drive_of(root) is None) {
        below_here(path, root, windows)
    } else if root.len() == 0 {
        Some(path.take(2) + tidy_end(path.skip(2), windows))
    } else if drive_of(path) != drive_of(root) {
        None
    } else {
        below_here(path.skip(2), root.skip(2), windows)
    }
}

/// What `path` is below `root` where no drive is named.
pub open spec fn below_here(path: Seq<char>, root: Seq<char>, windows: bool) -> Option<Seq<char>> {
    if root.len() == 0 {
        Some(tidy_end(path, windows))
    } else if path.len() == 0 || is_sep(path[0], windows) != is_sep(root[0], windows) || dotted(
        path,
        windows,
    ) != dotted(root, windows) {
        None
    } else {
        matched(path, root, windows)
    }
}

fn at_sep(s: &[char], i: usize, windows: bool) -> (r: bool)
    requires
        i < s@.len(),
    ensures
        r == is_sep(s@[i as int], windows),
{
    s[i] == '/' || (windows && s[i] == '\\')
}

fn at_dot(s: &[char], i: usize, windows: bool) -> (r: bool)
    requires
        i <= s@.len(),
    ensures
        r == dotted(s@.skip(i as int), windows),
{
    let n = s.len();
    i < n && s[i] == '.' && (i + 1 == n || at_sep(s, i + 1, windows))
}

fn skip_lead(s: &[char], from: usize, windows: bool) -> (r: usize)
    requires
        from <= s@.len(),
    ensures
        from <= r <= s@.len(),
        s@.skip(r as int) == lead(s@.skip(from as int), windows),
{
    let mut i: usize = from;
    while i < s.len() && (at_sep(s, i, windows) || at_dot(s, i, windows))
        invariant
            from <= i <= s@.len(),
            lead(s@.skip(i as int), windows) == lead(s@.skip(from as int), windows),
        decreases s@.len() - i,
    {
        assert(s@.skip(i as int).skip(1) =~= s@.skip(i as int + 1));
        i = i + 1;
    }
    i
}

fn skip_segment(s: &[char], from: usize, windows: bool) -> (r: usize)
    requires
        from <= s@.len(),
    ensures
        from <= r <= s@.len(),
        r - from == segment_len(s@.skip(from as int), windows),
{
    let mut i: usize = from;
    while i < s.len() && !at_sep(s, i, windows)
        invariant
            from <= i <= s@.len(),
            segment_len(s@.skip(from as int), windows) == (i - from) + segment_len(
                s@.skip(i as int),
                windows,
            ),
        decreases s@.len() - i,
    {
        assert(s@.skip(i as int).skip(1) =~= s@.skip(i as int + 1));
        i = i + 1;
    }
    i
}

fn without_trail(s: &[char], from: usize, windows: bool) -> (r: Vec<char>)
    requires
        from <= s@.len(),
    ensures
        r@ == trail(s@.skip(from as int), windows),
{
    let mut n: usize = s.len();
    assert(s@.subrange(from as int, n as int) =~= s@.skip(from as int));
    while n > from && (at_sep(s, n - 1, windows) || (n - from >= 2 && s[n - 1] == '.' && at_sep(
        s,
        n - 2,
        windows,
    )))
        invariant
            from <= n <= s@.len(),
            trail(s@.subrange(from as int, n as int), windows) == trail(
                s@.skip(from as int),
                windows,
            ),
        decreases n,
    {
        assert(s@.subrange(from as int, n as int).drop_last() =~= s@.subrange(
            from as int,
            n as int - 1,
        ));
        n = n - 1;
    }
    slice(s, from, n)
}

/// The name that a path ends with, separators and `.` segments behind it left aside: none where that
/// is the path itself, its parent, or nothing at all.
pub open spec fn file_name_of(rel: Seq<char>) -> Option<Seq<char>> {
    let name = base_of(trail(rel, false));
    if name.len() == 0 || name == "."@ || name == ".."@ {
        None
    } else {
        Some(name)
    }
}

/// The name that a path of a table ends with. Its segments are parted by `/` on every system.
pub fn file_name(rel: &str) -> (r: Option<String>)
    ensures
        opt_text(r) == file_name_of(rel@),
{
    let all = chars_of(rel);
    let kept = without_trail(all.as_slice(), 0, false);
    assert(all@.skip(0) =~= rel@);
    let text = text_of(kept.as_slice());
    let name = base_name(text.as_str());
    if same(name, "") || same(name, ".") || same(name, "..") {
        proof {
            reveal_strlit("");
            reveal_strlit(".");
            reveal_strlit("..");
        }
        None
    } else {
        proof {
            reveal_strlit("");
            if name@.len() == 0 {
                assert(name@ =~= ""@);
            }
        }
        Some(name.to_owned())
    }
}

fn strip(p: &[char], r: &[char], windows: bool) -> (out: Option<Vec<char>>)
    ensures
        match out {
            Some(v) => matched(p@, r@, windows) == Some(v@),
            None => matched(p@, r@, windows) is None,
        },
{
    let mut i: usize = 0;
    let mut k: usize = 0;
    assert(p@.skip(0) =~= p@);
    assert(r@.skip(0) =~= r@);
    loop
        invariant
            i <= p@.len(),
            k <= r@.len(),
            matched(p@.skip(i as int), r@.skip(k as int), windows) == matched(p@, r@, windows),
        decreases p@.len() - i,
    {
        let a = skip_lead(p, i, windows);
        let b = skip_lead(r, k, windows);
        proof {
            lemma_lead(p@.skip(i as int), windows);
            lemma_lead(r@.skip(k as int), windows);
            lemma_segment_len(p@.skip(a as int), windows);
            lemma_segment_len(r@.skip(b as int), windows);
        }
        if b == r.len() {
            return Some(without_trail(p, a, windows));
        }
        if a == p.len() {
            return None;
        }
        let m = skip_segment(p, a, windows);
        let n = skip_segment(r, b, windows);
        let x = slice(p, a, m);
        let y = slice(r, b, n);
        proof {
            assert(x@ =~= p@.skip(a as int).take(m - a));
            assert(y@ =~= r@.skip(b as int).take(n - b));
            assert(p@.skip(a as int).skip(m - a) =~= p@.skip(m as int));
            assert(r@.skip(b as int).skip(n - b) =~= r@.skip(n as int));
        }
        if !same_chars(x.as_slice(), y.as_slice()) {
            return None;
        }
        i = m;
        k = n;
    }
}

fn tidied_end(p: &[char], windows: bool) -> (r: Vec<char>)
    ensures
        r@ == tidy_end(p@, windows),
{
    assert(p@.skip(0) =~= p@);
    if p.len() > 0 && at_sep(p, 0, windows) {
        let mut v: Vec<char> = Vec::new();
        v.push(p[0]);
        let t = without_trail(p, 1, windows);
        push_all(&mut v, t.as_slice());
        assert(v@ =~= seq![p@[0]] + t@);
        v
    } else {
        without_trail(p, 0, windows)
    }
}

fn strip_here(p: &[char], q: &[char], windows: bool) -> (r: Option<Vec<char>>)
    ensures
        match r {
            Some(v) => below_here(p@, q@, windows) == Some(v@),
            None => below_here(p@, q@, windows) is None,
        },
{
    proof {
        assert(p@.skip(0) =~= p@);
        assert(q@.skip(0) =~= q@);
    }
    if q.len() == 0 {
        return Some(tidied_end(p, windows));
    }
    if p.len() == 0 || at_sep(p, 0, windows) != at_sep(q, 0, windows) || at_dot(p, 0, windows) != at_dot(
        q,
        0,
        windows,
    ) {
        return None;
    }
    strip(p, q, windows)
}

/// What a path is below `root`, as it is spelled. Of the prefixes of Windows only drives are told from
/// segments.
pub fn strip_root(path: &str, root: &str, windows: bool) -> (r: Option<Vec<char>>)
    ensures
        match r {
            Some(v) => below(path@, root@, windows) == Some(v@),
            None => below(path@, root@, windows) is None,
        },
{
    let p = chars_of(path);
    let q = chars_of(root);
    let d = drive_letter(p.as_slice());
    let e = drive_letter(q.as_slice());
    if !windows || (d.is_none() && e.is_none()) {
        return strip_here(p.as_slice(), q.as_slice(), windows);
    }
    if q.len() == 0 {
        let mut v = slice(p.as_slice(), 0, 2);
        let rest = slice(p.as_slice(), 2, p.len());
        let t = tidied_end(rest.as_slice(), windows);
        push_all(&mut v, t.as_slice());
        proof {
            assert(rest@ =~= p@.skip(2));
            assert(v@ =~= p@.take(2) + t@);
        }
        return Some(v);
    }
    match (d, e) {
        (Some(a), Some(b)) => {
            if a != b {
                return None;
            }
        },
        _ => {
            return None;
        },
    }
    let x = slice(p.as_slice(), 2, p.len());
    let y = slice(q.as_slice(), 2, q.len());
    proof {
        assert(x@ =~= p@.skip(2));
        assert(y@ =~= q@.skip(2));
    }
    strip_here(x.as_slice(), y.as_slice(), windows)
}

/// Native path to table path. `None` when it is not under `root`.
pub fn to_rel(path: &str, root: &str, windows: bool) -> (r: Option<String>)
    ensures
        match r {
            Some(t) => below(path@, root@, windows) matches Some(rest) && t@ == replaced(
                rest,
                '\\',
                '/',
            ),
            None => below(path@, root@, windows) is None,
        },
{
    match strip_root(path, root, windows) {
        Some(rest) => {
            let w = replace_char(rest.as_slice(), '\\', '/');
            Some(text_of(w.as_slice()))
        },
        None => None,
    }
}

/// A tail that keeps what stands before it apart: it is empty, or begins with a separator, or follows
/// one.
spec fn apart_from(r: Seq<char>, t: Seq<char>, windows: bool) -> bool {
    t.len() == 0 || is_sep(t[0], windows) || (r.len() > 0 && is_sep(r.last(), windows))
}

proof fn lemma_lead_before(r: Seq<char>, t: Seq<char>, windows: bool)
    requires
        apart_from(r, t, windows),
        r.len() > 0,
    ensures
        lead(r, windows).len() > 0 ==> lead(r + t, windows) == lead(r, windows) + t && lead(
            r,
            windows,
        ).last() == r.last(),
        lead(r, windows).len() == 0 ==> lead(r + t, windows) == lead(t, windows),
    decreases r.len(),
{
    reveal_with_fuel(lead, 2);
    let s = r + t;
    assert(s[0] == r[0]);
    if is_sep(r[0], windows) || dotted(r, windows) {
        assert(s.skip(1) =~= r.skip(1) + t);
        if dotted(r, windows) {
            if r.len() == 1 {
                if t.len() > 0 {
                    assert(s[1] == t[0]);
                }
            } else {
                assert(s[1] == r[1]);
            }
            assert(dotted(s, windows));
        }
        if r.len() > 1 {
            assert(r.skip(1).last() == r.last());
            lemma_lead_before(r.skip(1), t, windows);
        } else {
            assert(s.skip(1) =~= t);
            assert(r.skip(1).len() == 0);
        }
    } else {
        if dotted(s, windows) {
            if r.len() == 1 {
                assert(false);
            }
            assert(s[1] == r[1]);
            assert(false);
        }
    }
}

proof fn lemma_segment_before(r: Seq<char>, t: Seq<char>, windows: bool)
    requires
        apart_from(r, t, windows),
        r.len() > 0,
        !is_sep(r[0], windows),
    ensures
        segment_len(r + t, windows) == segment_len(r, windows),
    decreases r.len(),
{
    reveal_with_fuel(segment_len, 2);
    let s = r + t;
    assert(s[0] == r[0]);
    assert(s.skip(1) =~= r.skip(1) + t);
    if r.len() == 1 {
        assert(s.skip(1) =~= t);
        assert(r.skip(1).len() == 0);
        if t.len() > 0 && !is_sep(t[0], windows) {
            assert(r.last() == r[0]);
        }
    } else {
        assert(r.skip(1).last() == r.last());
        if is_sep(r[1], windows) {
            assert(s.skip(1)[0] == r[1]);
            assert(r.skip(1)[0] == r[1]);
        } else {
            lemma_segment_before(r.skip(1), t, windows);
        }
    }
}

proof fn lemma_matched_below(r: Seq<char>, t: Seq<char>, windows: bool)
    requires
        apart_from(r, t, windows),
    ensures
        matched(r + t, r, windows) == Some(trail(lead(t, windows), windows)),
    decreases r.len(),
{
    if r.len() == 0 {
        assert(r + t =~= t);
    } else {
        lemma_lead_before(r, t, windows);
        lemma_lead(r, windows);
        let b = lead(r, windows);
        if b.len() > 0 {
            let a = b + t;
            lemma_segment_before(b, t, windows);
            lemma_segment_len(b, windows);
            let n = segment_len(b, windows);
            assert(a.take(n) =~= b.take(n));
            assert(a.skip(n) =~= b.skip(n) + t);
            if b.skip(n).len() > 0 {
                assert(b.skip(n).last() == b.last());
            }
            assert(apart_from(b.skip(n), t, windows)) by {
                if b.skip(n).len() == 0 && t.len() > 0 && !is_sep(t[0], windows) {
                    assert(b.last() == b[n - 1]);
                    assert(false);
                }
            }
            lemma_matched_below(b.skip(n), t, windows);
        }
    }
}

/// A contained path joined onto a root is found again below that root.
pub proof fn rel_roundtrips_through_native(root: Seq<char>, rel: Seq<char>, windows: bool)
    requires
        contained(rel, RelativeBoundary::Directory),
    ensures
        below(joined(root, rel, windows), root, windows) matches Some(rest) && replaced(rest, '\\', '/')
            == rel,
{
    let n = native_of(rel, windows);
    let j = joined(root, rel, windows);
    assert forall|i: int| 0 <= i < rel.len() implies rel[i] != '\\' by {
        if rel[i] == '\\' {
            assert(carries(rel, '\\'));
        }
    }
    assert(replaced(n, '\\', '/') =~= rel);
    lemma_plain_ends(rel, windows);
    assert(drive_of(n) is None) by {
        if drive_qualified(n) {
            assert(rel[0] == n[0] && rel[1] == n[1]);
        }
    }
    if root.len() == 0 {
        assert(j =~= n);
        lemma_stands_first(n, windows);
    } else {
        let t = if is_sep(root.last(), windows) || bare_drive(root, windows) {
            n
        } else {
            seq![native_sep(windows)] + n
        };
        assert(j =~= root + t);
        if windows && drive_of(root) is Some {
            let r = root.skip(2);
            assert(j[0] == root[0] && j[1] == root[1]);
            assert(j.skip(2) =~= r + t);
            if r.len() == 0 {
                assert(r + t =~= n);
                lemma_stands_first(n, windows);
            } else {
                assert(r.last() == root.last());
                lemma_below_joined(r, n, t, windows);
            }
        } else {
            assert(windows ==> drive_of(j) is None) by {
                if windows && drive_qualified(j) {
                    if root.len() == 1 {
                        assert(j[1] == t[0]);
                        assert(j[0] == root[0]);
                    } else {
                        assert(j[0] == root[0] && j[1] == root[1]);
                    }
                }
            }
            lemma_below_joined(root, n, t, windows);
        }
    }
}

/// What begins with a segment of its own stays as it is.
proof fn lemma_stands_first(n: Seq<char>, windows: bool)
    requires
        lead(n, windows) == n,
        trail(n, windows) == n,
    ensures
        tidy_end(n, windows) == n,
{
    lemma_lead(n, windows);
}

proof fn lemma_below_joined(root: Seq<char>, n: Seq<char>, t: Seq<char>, windows: bool)
    requires
        root.len() > 0,
        t == if is_sep(root.last(), windows) {
            n
        } else {
            seq![native_sep(windows)] + n
        },
        lead(n, windows) == n,
        trail(n, windows) == n,
    ensures
        below_here(root + t, root, windows) == Some(n),
{
    let j = root + t;
    assert(j[0] == root[0]);
    assert(dotted(j, windows) == dotted(root, windows)) by {
        if root.len() == 1 {
            if j.len() > 1 {
                assert(j[1] == t[0]);
            }
        } else {
            assert(j[1] == root[1]);
        }
    }
    lemma_matched_below(root, t, windows);
    assert(lead(t, windows) == n) by {
        if !is_sep(root.last(), windows) {
            assert(t.skip(1) =~= n);
        }
    }
}

/// A contained path begins and ends with a segment that is neither empty nor a dot.
proof fn lemma_plain_ends(rel: Seq<char>, windows: bool)
    requires
        contained(rel, RelativeBoundary::Directory),
    ensures
        lead(native_of(rel, windows), windows) == native_of(rel, windows),
        trail(native_of(rel, windows), windows) == native_of(rel, windows),
{
    let n = native_of(rel, windows);
    if rel.len() > 0 {
        assert forall|i: int| 0 <= i < rel.len() implies rel[i] != '\\' by {
            if rel[i] == '\\' {
                assert(carries(rel, '\\'));
            }
        }
        assert(forall|i: int|
            0 <= i < rel.len() ==> (is_sep(#[trigger] n[i], windows) <==> rel[i] == '/'));
        assert(forall|i: int| 0 <= i < rel.len() ==> (#[trigger] n[i] == '.' <==> rel[i] == '.'));
        lemma_split(rel, '/');
        lemma_first_index(rel, '/');
        let parts = split(rel, '/');
        let f = first_index(rel, '/');
        assert(plain_segment(parts[0]));
        assert(parts[0] =~= rel.take(f)) by {
            if f >= rel.len() {
                assert(rel.take(f) =~= rel);
            }
        }
        if dotted(n, windows) {
            assert(rel[0] == '.');
            if rel.len() > 1 {
                assert(rel[1] == '/');
            }
            assert(f == 1);
            assert(parts[0] =~= seq!['.']);
        }
        lemma_last_index(rel, '/');
        lemma_split_at_last(rel, '/');
        let l = last_index(rel, '/');
        let last = rel.skip(l + 1);
        assert(parts.last() == last);
        assert(plain_segment(parts[parts.len() - 1]));
        assert(last.last() == rel.last());
        if n.len() >= 2 && n.last() == '.' && is_sep(n[n.len() - 2], windows) {
            assert(rel[rel.len() - 2] == '/');
            assert(l == rel.len() - 2);
            assert(last =~= seq!['.']);
        }
    }
}

/// Cutting a contained path at its last slash gives a contained directory and, unless the last
/// segment begins like a drive, an entry name.
pub proof fn parent_and_base_stay_contained(rel: Seq<char>)
    requires
        contained(rel, RelativeBoundary::Path),
    ensures
        !drive_qualified(base_of(rel)) ==> contained(base_of(rel), RelativeBoundary::EntryName),
        parent_of(rel) matches Some(p) ==> p.len() > 0 && contained(p, RelativeBoundary::Directory),
{
    lemma_last_index(rel, '/');
    split_parent_loses_nothing(rel);
    let i = last_index(rel, '/');
    let b = base_of(rel);
    lemma_split_at_last(rel, '/');
    let parts = split(rel, '/');
    assert(forall|j: int| 0 <= j < b.len() ==> b[j] == rel[j + i + 1]);
    assert(plain_segment(parts[parts.len() - 1]));
    lemma_split(b, '/');
    assert(split(b, '/') =~= seq![b]) by {
        crate::strings::lemma_first_index(b, '/');
    }
    if i >= 0 {
        let p = rel.take(i);
        assert(forall|j: int| 0 <= j < p.len() ==> p[j] == rel[j]);
        assert forall|k: int| 0 <= k < split(p, '/').len() implies plain_segment(
            #[trigger] split(p, '/')[k],
        ) by {
            assert(split(p, '/')[k] == parts[k]);
        }
        if drive_qualified(p) {
            assert(drive_qualified(rel));
        }
    }
}

/// The pieces of a text are the pieces before its last separator and the rest.
pub proof fn lemma_split_at_last(s: Seq<char>, c: char)
    ensures
        ({
            let i = last_index(s, c);
            let rest = s.skip(i + 1);
            &&& split(s, c).last() == rest
            &&& i >= 0 ==> split(s, c) == split(s.take(i), c).push(rest)
        }),
    decreases s.len(),
{
    crate::strings::lemma_first_index(s, c);
    lemma_last_index(s, c);
    let i = last_index(s, c);
    let f = crate::strings::first_index(s, c);
    if i < 0 {
        assert(s.skip(0) =~= s);
        assert(split(s, c) =~= seq![s]);
    } else {
        let tail = s.skip(f + 1);
        lemma_split_at_last(tail, c);
        lemma_last_index(tail, c);
        let t = last_index(tail, c);
        if f == i {
            crate::strings::lemma_last_index_is(tail, c, -1);
            assert(tail.skip(0) =~= tail);
            crate::strings::lemma_first_index_is(tail, c, tail.len() as int);
            assert(split(tail, c) =~= seq![tail]);
            crate::strings::lemma_first_index_is(s.take(i), c, i);
            assert(split(s.take(i), c) =~= seq![s.take(i)]);
            assert(split(s, c) =~= seq![s.take(f)] + split(tail, c));
            assert(split(s, c) =~= split(s.take(i), c).push(s.skip(i + 1)));
        } else {
            crate::strings::lemma_last_index_is(tail, c, i - f - 1);
            assert(tail.skip(t + 1) =~= s.skip(i + 1));
            assert(tail.take(t) =~= s.take(i).skip(f + 1));
            crate::strings::lemma_first_index_is(s.take(i), c, f);
            assert(s.take(i).take(f) =~= s.take(f));
            assert(split(s.take(i), c) =~= seq![s.take(f)] + split(tail.take(t), c));
            assert(split(s, c) =~= seq![s.take(f)] + split(tail, c));
            assert(split(s, c) =~= split(s.take(i), c).push(s.skip(i + 1)));
        }
    }
}

/// What is accepted holds neither a backslash nor a NUL, begins and ends with neither slash nor drive, and
/// goes neither up nor nowhere with any of its segments; what is accepted as a name is one segment.
pub proof fn what_is_accepted_goes_down(v: Seq<char>, boundary: RelativeBoundary)
    requires
        boundary_fault(v, boundary) is None,
    ensures
        v.len() == 0 ==> boundary == RelativeBoundary::Directory,
        forall|i: int| 0 <= i < v.len() ==> #[trigger] v[i] != '\\' && v[i] != '\0',
        v.len() > 0 ==> v[0] != '/' && v[v.len() - 1] != '/',
        v.len() >= 2 && v[1] == ':' ==> !('a' <= v[0] <= 'z') && !('A' <= v[0] <= 'Z'),
        v.len() > 0 ==> forall|i: int|
            0 <= i < split(v, '/').len() ==> {
                let s = #[trigger] split(v, '/')[i];
                s.len() > 0 && !(s.len() == 1 && s[0] == '.') && !(s.len() == 2 && s[0] == '.' && s[1] == '.')
            },
        boundary == RelativeBoundary::EntryName ==> forall|i: int| 0 <= i < v.len() ==> #[trigger] v[i] != '/',
{
    assert forall|i: int| 0 <= i < v.len() implies #[trigger] v[i] != '\\' && v[i] != '\0' by {
        assert(v[i] == '\\' ==> carries(v, '\\'));
        assert(v[i] == '\0' ==> carries(v, '\0'));
    }
    assert forall|i: int| 0 <= i < v.len() && boundary == RelativeBoundary::EntryName implies #[trigger] v[i]
        != '/' by {
        assert(v[i] == '/' ==> carries(v, '/'));
    }
    if v.len() > 0 {
        assert forall|i: int| 0 <= i < split(v, '/').len() implies {
            let s = #[trigger] split(v, '/')[i];
            s.len() > 0 && !(s.len() == 1 && s[0] == '.') && !(s.len() == 2 && s[0] == '.' && s[1] == '.')
        } by {
            let s = split(v, '/')[i];
            assert(plain_segment(s));
            if s.len() == 1 && s[0] == '.' {
                assert(s =~= seq!['.']);
            }
            if s.len() == 2 && s[0] == '.' && s[1] == '.' {
                assert(s =~= seq!['.', '.']);
            }
        }
        if v[v.len() - 1] == '/' {
            lemma_last_index(v, '/');
            crate::strings::lemma_last_index_is(v, '/', v.len() - 1);
            lemma_split_at_last(v, '/');
            lemma_split(v, '/');
            assert(split(v, '/')[split(v, '/').len() - 1].len() == 0);
            assert(false);
        }
    }
}

/// A name without any of those faults is accepted: nothing else is asked of it.
pub proof fn nothing_else_is_refused(v: Seq<char>)
    requires
        v.len() > 2,
        forall|i: int| 0 <= i < v.len() ==> #[trigger] v[i] != '\\' && v[i] != '\0' && v[i] != '/',
        v[1] != ':',
    ensures
        boundary_fault(v, RelativeBoundary::EntryName) is None,
        boundary_fault(v, RelativeBoundary::Path) is None,
        boundary_fault(v, RelativeBoundary::Directory) is None,
{
    crate::strings::lemma_first_index(v, '/');
    lemma_split(v, '/');
    assert(split(v, '/') =~= seq![v]);
}

/// A path is its parent, a slash and its name; a name alone has no parent.
pub proof fn a_child_is_below_its_parent(dir: Seq<char>, name: Seq<char>)
    requires
        !carries(name, '/'),
    ensures
        parent_of(dir.push('/') + name) == Some(dir),
        base_of(dir.push('/') + name) == name,
        parent_of(name) is None,
        base_of(name) == name,
{
    let p = dir.push('/') + name;
    let k = dir.len() as int;
    assert forall|j: int| k < j < p.len() implies p[j] != '/' by {
        if p[j] == '/' {
            assert(name[j - k - 1] == '/');
        }
    }
    crate::strings::lemma_last_index_is(p, '/', k);
    assert(p.take(k) =~= dir);
    assert(p.skip(k + 1) =~= name);
    lemma_last_index(name, '/');
    crate::strings::lemma_last_index_is(name, '/', -1);
    assert(name.skip(0) =~= name);
}

/// An extension begins at the last dot and holds no other; what has no dot behind its first character has
/// none.
pub proof fn an_extension_begins_at_the_last_dot(name: Seq<char>)
    ensures
        0 <= ext_start(name) <= name.len(),
        ext_start(name) < name.len() ==> ext_start(name) > 0 && name[ext_start(name)] == '.',
        forall|i: int| ext_start(name) < i < name.len() ==> #[trigger] name[i] != '.',
        ext_start(name) == name.len() ==> forall|i: int| 0 < i < name.len() ==> #[trigger] name[i] != '.',
{
    lemma_last_index(name, '.');
}

/// A name that merely begins like the root's last segment is not below it.
pub proof fn a_neighbour_is_not_below(root: Seq<char>, more: Seq<char>, windows: bool)
    requires
        root.len() > 0,
        more.len() > 0,
        !is_sep(root.last(), windows),
        root.last() != '.',
        !is_sep(more[0], windows),
        windows ==> !drive_qualified(root) && !drive_qualified(root + more),
    ensures
        below(root + more, root, windows) is None,
{
    lemma_neighbour(root, more, windows);
}

proof fn lemma_neighbour(r: Seq<char>, t: Seq<char>, windows: bool)
    requires
        r.len() > 0,
        t.len() > 0,
        !is_sep(r.last(), windows),
        r.last() != '.',
        !is_sep(t[0], windows),
    ensures
        matched(r + t, r, windows) is None,
    decreases r.len(),
{
    lemma_lead_of_neighbour(r, t, windows);
    lemma_lead(r, windows);
    lemma_lead(r + t, windows);
    let b = lead(r, windows);
    let a = lead(r + t, windows);
    lemma_segment_len(a, windows);
    lemma_segment_len(b, windows);
    let m = segment_len(a, windows);
    let n = segment_len(b, windows);
    assert(a == b + t);
    assert(a[0] == b[0]);
    if n < b.len() {
        assert(a[n] == b[n]);
        assert(m <= n) by {
            if m > n {
                assert(!is_sep(a[n], windows));
            }
        }
        assert(m >= n) by {
            if m < n {
                assert(a[m] == b[m]);
                assert(!is_sep(b[m], windows));
            }
        }
        assert(a.take(m) =~= b.take(n));
        assert(a.skip(m) =~= b.skip(n) + t);
        assert(b.skip(n).last() == b.last());
        lemma_neighbour(b.skip(n), t, windows);
    } else {
        assert(a[n] == t[0]);
        if m == n {
            assert(is_sep(a[m], windows));
        }
        assert(a.take(m).len() == m && b.take(n).len() == n);
    }
}

proof fn lemma_lead_of_neighbour(r: Seq<char>, t: Seq<char>, windows: bool)
    requires
        r.len() > 0,
        t.len() > 0,
        !is_sep(r.last(), windows),
        r.last() != '.',
    ensures
        lead(r, windows).len() > 0,
        lead(r, windows).last() == r.last(),
        lead(r + t, windows) == lead(r, windows) + t,
    decreases r.len(),
{
    let s = r + t;
    assert(s[0] == r[0]);
    if r.len() > 1 {
        assert(s[1] == r[1]);
    } else {
        assert(r.last() == r[0]);
    }
    assert(dotted(s, windows) == dotted(r, windows));
    if is_sep(r[0], windows) || dotted(r, windows) {
        assert(r.len() > 1);
        assert(r.skip(1).last() == r.last());
        assert(s.skip(1) =~= r.skip(1) + t);
        lemma_lead_of_neighbour(r.skip(1), t, windows);
    }
}

/// Drives are told apart, and their case is not.
pub proof fn another_drive_is_not_below(path: Seq<char>, root: Seq<char>)
    requires
        drive_qualified(path),
        drive_qualified(root),
    ensures
        upper_char(path[0]) != upper_char(root[0]) ==> below(path, root, true) is None,
        upper_char(path[0]) == upper_char(root[0]) ==> below(path, root, true) == below(
            seq![root[0]] + path.skip(1),
            root,
            true,
        ),
{
    let other = seq![root[0]] + path.skip(1);
    assert(other[0] == root[0] && other[1] == path[1]);
    assert(other.skip(2) =~= path.skip(2));
}

} // verus!
