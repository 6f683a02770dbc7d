//! Access to one local root that cannot leave it: every step is taken from an open directory to a
//! name in it, and no symlink is ever followed.
use vstd::prelude::*;
use crate::atomic::temp_name;
use crate::foundation::names::TEMP_PREFIX;
use crate::foundation::path::{
    base_of, boundary_fault, contained, drive_qualified, parent_and_base_stay_contained,
    parent_of, accepted_is_contained, plain_segment, EntryName, RelativeBoundary,
    RootRelativeDir, RootRelativePath,
};
use crate::foundation::text::{debug_of, debug_text};
use crate::fs::staged::{Committing, Sealing, Staged};
use crate::fs::vfs::error::{FailureModel, IoFailure, IoKind, Os};
use crate::fs::vfs::local::{local_meta, meta_of, LocalMeta};
use crate::fs::vfs::remote::named_segments;
use crate::fs::vfs::{listed, MetaModel, VDirEntry};
use crate::hash::lower_hex;
use crate::strings::{char_lists, chars_of, lemma_first_index, split, split_chars, text_of, texts};

verus! {

/// What tells two files apart, whatever they are called.
#[derive(Clone, Copy, Debug, PartialEq, Eq, Structural)]
pub struct FileIdentity {
    pub device: u64,
    pub file: u64,
}

pub open spec fn failed_as(f: IoFailure, kind: IoKind, message: Seq<char>) -> bool {
    f.kind == kind && f.raw is None && f.message@ == message
}

pub open spec fn failure(kind: IoKind, message: Seq<char>) -> FailureModel {
    FailureModel { kind, raw: None, message }
}

/// The names on the way to a directory, from the root down.
pub fn segments(relative: &RootRelativeDir) -> (r: Vec<String>)
    ensures
        texts(r@) == named_segments(split(relative@, '/')),
{
    let all = chars_of(relative.as_str());
    let parts = split_chars(all.as_slice(), '/');
    let ghost ps = char_lists(parts@);
    let mut out: Vec<String> = Vec::new();
    let mut i: usize = 0;
    assert(ps.take(0) =~= Seq::<Seq<char>>::empty());
    assert(texts(out@) =~= named_segments(ps.take(0)));
    while i < parts.len()
        invariant
            i <= parts@.len(),
            ps == char_lists(parts@),
            texts(out@) == named_segments(ps.take(i as int)),
        decreases parts@.len() - i,
    {
        proof {
            assert(ps.take(i as int + 1).drop_last() =~= ps.take(i as int));
            assert(ps.take(i as int + 1).last() == parts@[i as int]@);
        }
        if parts[i].len() > 0 {
            let t = text_of(parts[i].as_slice());
            assert(texts(out@.push(t)) =~= texts(out@).push(t@));
            out.push(t);
        }
        i = i + 1;
    }
    assert(ps.take(ps.len() as int) =~= ps);
    out
}

/// No name on the way leads up or nowhere.
pub proof fn every_step_goes_down(relative: Seq<char>, i: int)
    requires
        contained(relative, RelativeBoundary::Directory),
        0 <= i < named_segments(split(relative, '/')).len(),
    ensures
        plain_segment(named_segments(split(relative, '/'))[i]),
{
    let parts = split(relative, '/');
    if relative.len() == 0 {
        lemma_first_index(relative, '/');
        assert(parts =~= seq![relative]);
        assert(parts.drop_last() =~= Seq::<Seq<char>>::empty());
        assert(parts.last().len() == 0);
        reveal_with_fuel(named_segments, 2);
        assert(named_segments(parts) == named_segments(parts.drop_last()));
    } else {
        lemma_named(parts, i);
    }
}

proof fn lemma_named(parts: Seq<Seq<char>>, i: int)
    requires
        forall|k: int| 0 <= k < parts.len() ==> plain_segment(#[trigger] parts[k]),
        0 <= i < named_segments(parts).len(),
    ensures
        plain_segment(named_segments(parts)[i]),
    decreases parts.len(),
{
    let before = named_segments(parts.drop_last());
    assert(plain_segment(parts[parts.len() - 1]));
    if i < before.len() {
        assert forall|k: int| 0 <= k < parts.drop_last().len() implies plain_segment(
            #[trigger] parts.drop_last()[k],
        ) by {
            assert(parts.drop_last()[k] == parts[k]);
        }
        lemma_named(parts.drop_last(), i);
    }
}

/// The directory of a path.
pub open spec fn home_of(relative: Seq<char>) -> Seq<char> {
    match parent_of(relative) {
        Some(p) => p,
        None => Seq::empty(),
    }
}

fn part(relative: &str) -> (r: (RootRelativeDir, EntryName))
    requires
        contained(relative@, RelativeBoundary::Path),
        !drive_qualified(base_of(relative@)),
    ensures
        r.0@ == home_of(relative@),
        r.1@ == base_of(relative@),
{
    proof {
        parent_and_base_stay_contained(relative@);
        accepted_is_contained(home_of(relative@), RelativeBoundary::Directory);
        accepted_is_contained(base_of(relative@), RelativeBoundary::EntryName);
    }
    let base = crate::foundation::path::base_name(relative);
    let parent = match crate::foundation::path::parent(relative) {
        Some(p) => RootRelativeDir::new(p),
        None => RootRelativeDir::new(""),
    };
    proof {
        reveal_strlit("");
        assert(""@ =~= Seq::<char>::empty());
    }
    let name = EntryName::new(base);
    match (parent, name) {
        (Ok(p), Ok(n)) => (p, n),
        _ => vstd::pervasive::unreached(),
    }
}

/// A path as the directory that it lies in and its name there. The name must not begin like a drive.
pub fn split_parent(relative: &RootRelativePath) -> (r: (RootRelativeDir, EntryName))
    requires
        !drive_qualified(base_of(relative@)),
    ensures
        r.0@ == home_of(relative@),
        r.1@ == base_of(relative@),
{
    let text = relative.as_str();
    part(text)
}

/// The same for a directory. The root itself has no name.
pub fn split_directory(relative: &RootRelativeDir) -> (r: Result<(RootRelativeDir, EntryName), IoFailure>)
    requires
        !drive_qualified(base_of(relative@)),
    ensures
        if relative@.len() == 0 {
            r matches Err(e) && failed_as(
                e,
                IoKind::InvalidInput,
                "the retained local root itself cannot be removed"@,
            )
        } else {
            r matches Ok(p) && p.0@ == home_of(relative@) && p.1@ == base_of(relative@)
        },
{
    let text = relative.as_str();
    if text.unicode_len() == 0 {
        return Err(
            IoFailure::new(
                IoKind::InvalidInput,
                "the retained local root itself cannot be removed",
            ),
        );
    }
    Ok(part(text))
}

/// What stands at a path that is opened for reading has to be a regular file.
pub fn expect_regular(is_file: bool, lock: bool) -> (r: Result<(), IoFailure>)
    ensures
        if is_file {
            r is Ok
        } else {
            r matches Err(e) && failed_as(
                e,
                IoKind::InvalidData,
                if lock {
                    "lock path is not a regular file"@
                } else {
                    "expected a regular file"@
                },
            )
        },
{
    if is_file {
        return Ok(());
    }
    Err(
        IoFailure::new(
            IoKind::InvalidData,
            if lock {
                "lock path is not a regular file"
            } else {
                "expected a regular file"
            },
        ),
    )
}

/// Sixteen bytes of chance as text.
pub open spec fn token_text(bytes: Seq<u8>) -> Seq<char>
    decreases bytes.len(),
{
    if bytes.len() == 0 {
        Seq::empty()
    } else {
        token_text(bytes.drop_last()) + seq![
            hex_digit(bytes.last() as int / 16),
            hex_digit(bytes.last() as int % 16),
        ]
    }
}

pub open spec fn hex_digit(d: int) -> char {
    if d < 10 {
        ('0' as int + d) as char
    } else {
        ('a' as int + d - 10) as char
    }
}

fn hex_char(d: u8) -> (r: char)
    requires
        d < 16,
    ensures
        r == hex_digit(d as int),
        lower_hex(r),
{
    if d < 10 {
        (48 + d) as char
    } else {
        (87 + d) as char
    }
}

/// Every character is a hex digit.
pub open spec fn all_hex(s: Seq<char>) -> bool {
    forall|i: int| 0 <= i < s.len() ==> lower_hex(#[trigger] s[i])
}

/// Bytes as text, two lower-case digits each.
pub fn show_token(bytes: &Vec<u8>) -> (r: String)
    ensures
        r@ == token_text(bytes@),
        all_hex(r@),
{
    let mut out: Vec<char> = Vec::new();
    let mut i: usize = 0;
    assert(bytes@.take(0) =~= Seq::<u8>::empty());
    while i < bytes.len()
        invariant
            i <= bytes@.len(),
            out@ == token_text(bytes@.take(i as int)),
            all_hex(out@),
        decreases bytes@.len() - i,
    {
        assert(bytes@.take(i as int + 1).drop_last() =~= bytes@.take(i as int));
        let ghost before = out@;
        let a = hex_char(bytes[i] / 16);
        let b = hex_char(bytes[i] % 16);
        out.push(a);
        out.push(b);
        assert(out@ =~= before + seq![a, b]);
        i = i + 1;
    }
    assert(bytes@.take(bytes@.len() as int) =~= bytes@);
    text_of(out.as_slice())
}

/// `getrandom::fill` on sixteen bytes: that many bytes of chance, or the failure in words.
#[verifier::external_body]
fn random_bytes() -> (r: Result<Vec<u8>, String>)
    ensures
        r matches Ok(v) ==> v@.len() == 16,
{
    let mut bytes = [0u8; 16];
    getrandom::fill(&mut bytes).map(|_| bytes.to_vec()).map_err(|e| e.to_string())
}

/// A name that nobody else comes upon.
pub fn random_token() -> (r: Result<String, IoFailure>)
    ensures
        match r {
            Ok(t) => t@.len() == 32 && all_hex(t@),
            Err(e) => e.kind == IoKind::Other && e.raw is None && "random token generation failed: "@.is_prefix_of(
                e.message@,
            ),
        },
{
    match random_bytes() {
        Ok(v) => {
            proof {
                lemma_token_length(v@);
            }
            Ok(show_token(&v))
        },
        Err(t) => {
            let mut s = "random token generation failed: ".to_owned();
            s.append(t.as_str());
            proof {
                let head = "random token generation failed: "@;
                assert(s@.subrange(0, head.len() as int) =~= head);
            }
            Err(IoFailure::new(IoKind::Other, s.as_str()))
        },
    }
}

proof fn lemma_token_length(bytes: Seq<u8>)
    ensures
        token_text(bytes).len() == 2 * bytes.len(),
    decreases bytes.len(),
{
    if bytes.len() > 0 {
        lemma_token_length(bytes.drop_last());
    }
}

/// A name of our own: what it is for, and a token.
pub open spec fn own_name(purpose: Seq<char>, token: Seq<char>) -> Seq<char> {
    TEMP_PREFIX@ + purpose + token
}

proof fn lemma_own_name(purpose: Seq<char>, token: Seq<char>)
    requires
        purpose == "stage."@ || purpose == "remove."@,
        all_hex(token),
    ensures
        contained(own_name(purpose, token), RelativeBoundary::EntryName),
        temp_name(own_name(purpose, token)),
{
    reveal_strlit(".syncdash.tmp.");
    reveal_strlit("stage.");
    reveal_strlit("remove.");
    reveal_strlit(".");
    reveal_strlit("..");
    let s = own_name(purpose, token);
    let n = TEMP_PREFIX@.len() + purpose.len();
    assert forall|i: int| 0 <= i < s.len() implies s[i] != '/' && s[i] != '\\' && s[i] != '\0' by {
        if i >= n {
            assert(s[i] == token[i - n]);
        } else if i >= TEMP_PREFIX@.len() {
            assert(s[i] == purpose[i - TEMP_PREFIX@.len()]);
        } else {
            assert(s[i] == TEMP_PREFIX@[i]);
        }
    }
    assert(s[0] == '.');
    assert(s.len() > 2);
    lemma_first_index(s, '/');
    assert(split(s, '/') =~= seq![s]);
    assert(s.subrange(0, TEMP_PREFIX@.len() as int) =~= TEMP_PREFIX@);
}

fn make_name(purpose: &str, token: &str) -> (r: EntryName)
    requires
        purpose@ == "stage."@ || purpose@ == "remove."@,
        all_hex(token@),
    ensures
        r@ == own_name(purpose@, token@),
        temp_name(r@),
{
    let mut s = TEMP_PREFIX.to_owned();
    s.append(purpose);
    s.append(token);
    proof {
        lemma_own_name(purpose@, token@);
        accepted_is_contained(s@, RelativeBoundary::EntryName);
    }
    match EntryName::new(s.as_str()) {
        Ok(n) => n,
        Err(_) => vstd::pervasive::unreached(),
    }
}

/// The name of a staged file.
pub fn staging_name(token: &str) -> (r: EntryName)
    requires
        all_hex(token@),
    ensures
        r@ == own_name("stage."@, token@),
        temp_name(r@),
{
    make_name("stage.", token)
}

/// The name under which a file is set aside to be removed.
pub fn removal_name(token: &str) -> (r: EntryName)
    requires
        all_hex(token@),
    ensures
        r@ == own_name("remove."@, token@),
        temp_name(r@),
{
    make_name("remove.", token)
}

/// One entry as a directory yields it: its name, or how the name prints where it is not Unicode, and
/// what the system says of it.
pub struct RawEntry {
    pub name: Result<String, String>,
    pub meta: Result<LocalMeta, IoFailure>,
}

/// Why an entry cannot be taken.
pub open spec fn entry_fault(e: RawEntry) -> Option<FailureModel> {
    match e.name {
        Err(shown) => Some(
            failure(
                IoKind::InvalidData,
                "directory entry name is not valid Unicode: "@ + shown@,
            ),
        ),
        Ok(name) => if boundary_fault(name@, RelativeBoundary::EntryName) is Some {
            Some(failure(IoKind::InvalidData, refusal_text(name@)))
        } else {
            match e.meta {
                Err(f) => Some(f@),
                Ok(_) => None,
            }
        },
    }
}

/// What is said of a name that is no entry name.
pub open spec fn refusal_text(name: Seq<char>) -> Seq<char> {
    "invalid "@ + RelativeBoundary::EntryName.spec_label() + " "@ + debug_text(name) + ": "@
        + boundary_fault(name, RelativeBoundary::EntryName)->0
}

/// All entries, or the first fault.
pub open spec fn entries_of(found: Seq<RawEntry>) -> Result<Seq<(Seq<char>, MetaModel)>, FailureModel>
    decreases found.len(),
{
    if found.len() == 0 {
        Ok(Seq::empty())
    } else {
        match entries_of(found.drop_last()) {
            Err(f) => Err(f),
            Ok(v) => match entry_fault(found.last()) {
                Some(f) => Err(f),
                None => Ok(v.push((found.last().name->Ok_0@, local_meta(found.last().meta->Ok_0)))),
            },
        }
    }
}

proof fn lemma_entries_error(found: Seq<RawEntry>, k: int)
    requires
        0 <= k <= found.len(),
        entries_of(found.take(k)) is Err,
    ensures
        entries_of(found) == entries_of(found.take(k)),
    decreases found.len() - k,
{
    if k == found.len() {
        assert(found.take(k) =~= found);
    } else {
        assert(found.take(k + 1).drop_last() =~= found.take(k));
        lemma_entries_error(found, k + 1);
    }
}

/// Lists a directory. One entry that cannot be taken refuses the listing: nothing is left out.
pub fn read_entries(found: &Vec<RawEntry>) -> (r: Result<Vec<VDirEntry>, IoFailure>)
    ensures
        match entries_of(found@) {
            Ok(v) => r matches Ok(out) && listed(out@) == v,
            Err(f) => r matches Err(e) && e@ == f,
        },
{
    let mut out: Vec<VDirEntry> = Vec::new();
    let mut i: usize = 0;
    assert(found@.take(0) =~= Seq::<RawEntry>::empty());
    assert(listed(out@) =~= Seq::<(Seq<char>, MetaModel)>::empty());
    while i < found.len()
        invariant
            i <= found@.len(),
            entries_of(found@.take(i as int)) == Ok::<Seq<(Seq<char>, MetaModel)>, FailureModel>(
                listed(out@),
            ),
        decreases found@.len() - i,
    {
        proof {
            assert(found@.take(i as int + 1).drop_last() =~= found@.take(i as int));
            assert(found@.take(i as int + 1).last() == found@[i as int]);
            if entry_fault(found@[i as int]) is Some {
                lemma_entries_error(found@, i as int + 1);
            }
        }
        match &found[i].name {
            Err(shown) => {
                let mut s = "directory entry name is not valid Unicode: ".to_owned();
                s.append(shown.as_str());
                return Err(IoFailure::new(IoKind::InvalidData, s.as_str()));
            },
            Ok(name) => {
                if let Err(e) = EntryName::new(name.as_str()) {
                    return Err(IoFailure::new(IoKind::InvalidData, e.message().as_str()));
                }
                match &found[i].meta {
                    Err(f) => {
                        return Err(
                            IoFailure { kind: f.kind, raw: f.raw, message: f.message.clone() },
                        );
                    },
                    Ok(m) => {
                        let d = VDirEntry { name: name.clone(), meta: meta_of(m) };
                        assert(listed(out@.push(d)) =~= listed(out@).push(d@));
                        out.push(d);
                    },
                }
            },
        }
        i = i + 1;
    }
    assert(found@.take(found@.len() as int) =~= found@);
    Ok(out)
}

/// What came of a step.
pub enum StepReply {
    Done,
    Failed(IoFailure),
}

/// Where a piece of work stands.
pub enum StepNext<D> {
    Do(D),
    Over,
    Failed(IoFailure),
}

/// What making a directory is waiting for; each deed is about the name at hand.
#[derive(Clone, Copy, Debug, PartialEq, Eq, Structural)]
pub enum MakeDeed {
    /// Enter the directory of that name.
    Enter,
    /// Make it.
    Create,
    /// Enter it now that it is there.
    EnterMade,
}

/// A directory that is being made, with all that are above it.
pub struct Making {
    pub names: Vec<String>,
    pub at: usize,
}

impl Making {
    pub open spec fn wf(self) -> bool {
        self.at <= self.names@.len()
    }

    /// Goes to the next name, or ends.
    pub open spec fn onward(names: int, at: int) -> StepNext<MakeDeed> {
        if at < names {
            StepNext::Do(MakeDeed::Enter)
        } else {
            StepNext::Over
        }
    }

    pub fn begin(relative: &RootRelativeDir) -> (r: (Making, StepNext<MakeDeed>))
        ensures
            r.0.wf(),
            r.0.at == 0,
            texts(r.0.names@) == named_segments(split(relative@, '/')),
            r.1 == Making::onward(r.0.names@.len() as int, 0),
    {
        let names = segments(relative);
        let next = if names.len() > 0 {
            StepNext::Do(MakeDeed::Enter)
        } else {
            StepNext::Over
        };
        (Making { names, at: 0 }, next)
    }

    pub open spec fn after(self, deed: MakeDeed, reply: StepReply) -> (int, StepNext<MakeDeed>) {
        match deed {
            MakeDeed::Enter => match reply {
                StepReply::Done => (self.at + 1, Making::onward(self.names@.len() as int, self.at + 1)),
                StepReply::Failed(e) => if e.kind == IoKind::NotFound {
                    (self.at as int, StepNext::Do(MakeDeed::Create))
                } else {
                    (self.at as int, StepNext::Failed(e))
                },
            },
            MakeDeed::Create => match reply {
                StepReply::Done => (self.at as int, StepNext::Do(MakeDeed::EnterMade)),
                StepReply::Failed(e) => if e.kind == IoKind::AlreadyExists {
                    (self.at as int, StepNext::Do(MakeDeed::EnterMade))
                } else {
                    (self.at as int, StepNext::Failed(e))
                },
            },
            MakeDeed::EnterMade => match reply {
                StepReply::Done => (self.at + 1, Making::onward(self.names@.len() as int, self.at + 1)),
                StepReply::Failed(e) => (self.at as int, StepNext::Failed(e)),
            },
        }
    }

    /// Takes the reply to a deed. That somebody else made the directory first is no trouble.
    pub fn feed(&mut self, deed: MakeDeed, reply: StepReply) -> (r: StepNext<MakeDeed>)
        requires
            old(self).at < old(self).names@.len(),
        ensures
            final(self).wf(),
            final(self).names == old(self).names,
            (final(self).at as int, r) == old(self).after(deed, reply),
            r is Do ==> final(self).at < final(self).names@.len(),
    {
        let n = self.names.len();
        match reply {
            StepReply::Failed(e) => {
                if deed == MakeDeed::Enter && e.kind == IoKind::NotFound {
                    return StepNext::Do(MakeDeed::Create);
                }
                if deed == MakeDeed::Create && e.kind == IoKind::AlreadyExists {
                    return StepNext::Do(MakeDeed::EnterMade);
                }
                StepNext::Failed(e)
            },
            StepReply::Done => {
                if deed == MakeDeed::Create {
                    return StepNext::Do(MakeDeed::EnterMade);
                }
                self.at = self.at + 1;
                if self.at < n {
                    StepNext::Do(MakeDeed::Enter)
                } else {
                    StepNext::Over
                }
            },
        }
    }
}

/// What a removal or a rename is waiting for.
#[derive(Clone, Copy, Debug, PartialEq, Eq, Structural)]
pub enum ForceDeed {
    Try,
    /// See whether it is a symlink.
    Look,
    /// Clear the read-only attribute.
    Clear,
    Again,
}

pub enum ForceReply {
    Done,
    Link(bool),
    Failed(IoFailure),
}

/// A removal or a rename that does not stop at Windows' read-only attribute.
pub struct Force {
    pub os: Os,
    /// It is about a directory, where a symlink is not looked for.
    pub directory: bool,
    /// The refusal that began it.
    pub refusal: Option<IoFailure>,
}

pub open spec fn force_answers(f: Force, deed: ForceDeed, reply: ForceReply) -> bool {
    match deed {
        ForceDeed::Look => (reply is Link || reply is Failed) && f.refusal is Some,
        _ => reply is Done || reply is Failed,
    }
}

impl Force {
    pub fn begin(os: Os, directory: bool) -> (r: (Force, ForceDeed))
        ensures
            r.0 == (Force { os, directory, refusal: None }),
            r.1 == ForceDeed::Try,
    {
        (Force { os, directory, refusal: None }, ForceDeed::Try)
    }

    pub open spec fn after(self, deed: ForceDeed, reply: ForceReply) -> StepNext<ForceDeed> {
        match reply {
            ForceReply::Failed(e) => if deed == ForceDeed::Try && self.os == Os::Windows && e.kind
                == IoKind::PermissionDenied {
                StepNext::Do(ForceDeed::Look)
            } else {
                StepNext::Failed(e)
            },
            ForceReply::Link(link) => if link && !self.directory {
                StepNext::Failed(self.refusal->0)
            } else {
                StepNext::Do(ForceDeed::Clear)
            },
            ForceReply::Done => if deed == ForceDeed::Clear {
                StepNext::Do(ForceDeed::Again)
            } else {
                StepNext::Over
            },
        }
    }

    /// Takes the reply to a deed. The attribute is never cleared through a symlink, and a second
    /// refusal stands.
    pub fn feed(&mut self, deed: ForceDeed, reply: ForceReply) -> (r: StepNext<ForceDeed>)
        requires
            force_answers(*old(self), deed, reply),
        ensures
            r == old(self).after(deed, reply),
            final(self).os == old(self).os,
            final(self).directory == old(self).directory,
            r == StepNext::<ForceDeed>::Do(ForceDeed::Look) ==> final(self).refusal is Some && reply
                == ForceReply::Failed(final(self).refusal->0),
    {
        match reply {
            ForceReply::Failed(e) => {
                if deed == ForceDeed::Try && self.os == Os::Windows && e.kind == IoKind::PermissionDenied {
                    self.refusal = Some(e);
                    return StepNext::Do(ForceDeed::Look);
                }
                StepNext::Failed(e)
            },
            ForceReply::Link(link) => {
                if link && !self.directory {
                    let mut taken: Option<IoFailure> = None;
                    std::mem::swap(&mut taken, &mut self.refusal);
                    return match taken {
                        Some(e) => StepNext::Failed(e),
                        None => StepNext::Over,
                    };
                }
                StepNext::Do(ForceDeed::Clear)
            },
            ForceReply::Done => {
                if deed == ForceDeed::Clear {
                    StepNext::Do(ForceDeed::Again)
                } else {
                    StepNext::Over
                }
            },
        }
    }
}

/// Off Windows nothing is forced: the first answer stands.
pub proof fn unix_refusals_stand(f: Force, reply: ForceReply)
    requires
        f.os != Os::Windows,
        force_answers(f, ForceDeed::Try, reply),
    ensures
        !(f.after(ForceDeed::Try, reply) is Do),
{
}

/// How often another name is tried for a file that is set aside.
pub const CLAIM_ATTEMPTS: u32 = 1024;

/// What removing an open file is waiting for.
pub enum RemovalDeed {
    /// Draw a token.
    Token,
    /// Rename the file to this name, which must be free.
    Claim(String),
    /// Read the identity of what has this name now.
    Identify(String),
    /// Remove it.
    Remove(String),
    /// Give it its old name back; this is why.
    Rollback(String, IoFailure),
}

pub enum RemovalReply {
    Done,
    Token(String),
    Identity(FileIdentity),
    Failed(IoFailure),
}

pub enum RemovalDeedModel {
    Token,
    Claim(Seq<char>),
    Identify(Seq<char>),
    Remove(Seq<char>),
    Rollback(Seq<char>, FailureModel),
}

impl View for RemovalDeed {
    type V = RemovalDeedModel;

    open spec fn view(&self) -> RemovalDeedModel {
        match *self {
            RemovalDeed::Token => RemovalDeedModel::Token,
            RemovalDeed::Claim(n) => RemovalDeedModel::Claim(n@),
            RemovalDeed::Identify(n) => RemovalDeedModel::Identify(n@),
            RemovalDeed::Remove(n) => RemovalDeedModel::Remove(n@),
            RemovalDeed::Rollback(n, e) => RemovalDeedModel::Rollback(n@, e@),
        }
    }
}

pub enum RemovalModel {
    Do(RemovalDeedModel),
    Over,
    Failed(FailureModel),
}

pub open spec fn removal_view(n: StepNext<RemovalDeed>) -> RemovalModel {
    match n {
        StepNext::Do(d) => RemovalModel::Do(d@),
        StepNext::Over => RemovalModel::Over,
        StepNext::Failed(e) => RemovalModel::Failed(e@),
    }
}

pub open spec fn removal_answers(deed: RemovalDeedModel, reply: RemovalReply) -> bool {
    match deed {
        RemovalDeedModel::Token => (reply matches RemovalReply::Token(t) && all_hex(t@)) || reply is Failed,
        RemovalDeedModel::Identify(_) => reply is Identity || reply is Failed,
        _ => reply is Done || reply is Failed,
    }
}

/// The removal of a file that is open: what is removed is that file and not whatever has its name by
/// now.
pub struct Removal {
    /// The path, for messages.
    pub relative: String,
    /// The name in its directory.
    pub name: String,
    pub expected: FileIdentity,
    /// Names that were taken.
    pub attempts: u32,
}

impl Removal {
    pub open spec fn wf(self) -> bool {
        self.attempts < CLAIM_ATTEMPTS
    }

    pub open spec fn exhausted_text(self) -> Seq<char> {
        "could not reserve an identity-checked removal name for "@ + debug_text(self.relative@)
    }

    pub open spec fn stranded(self, claimed: Seq<char>, primary: FailureModel, e: FailureModel) -> FailureModel {
        failure(
            primary.kind,
            primary.message + "; rollback to "@ + debug_text(self.name@) + " failed ("@ + e.message
                + "); the claimed entry remains recoverable as "@ + debug_text(claimed),
        )
    }

    pub fn begin(relative: &str, name: &str, expected: FileIdentity) -> (r: (Removal, RemovalDeed))
        ensures
            r.0.wf(),
            r.0.relative@ == relative@,
            r.0.name@ == name@,
            r.0.expected == expected,
            r.0.attempts == 0,
            r.1@ == RemovalDeedModel::Token,
    {
        (
            Removal {
                relative: relative.to_owned(),
                name: name.to_owned(),
                expected,
                attempts: 0,
            },
            RemovalDeed::Token,
        )
    }

    pub open spec fn after(self, deed: RemovalDeedModel, reply: RemovalReply) -> RemovalModel {
        match deed {
            RemovalDeedModel::Token => match reply {
                RemovalReply::Token(t) => RemovalModel::Do(
                    RemovalDeedModel::Claim(own_name("remove."@, t@)),
                ),
                RemovalReply::Failed(e) => RemovalModel::Failed(e@),
                _ => RemovalModel::Over,
            },
            RemovalDeedModel::Claim(n) => match reply {
                RemovalReply::Failed(e) => if e.kind != IoKind::AlreadyExists {
                    RemovalModel::Failed(e@)
                } else if self.attempts + 1 < CLAIM_ATTEMPTS {
                    RemovalModel::Do(RemovalDeedModel::Token)
                } else {
                    RemovalModel::Failed(failure(IoKind::AlreadyExists, self.exhausted_text()))
                },
                _ => RemovalModel::Do(RemovalDeedModel::Identify(n)),
            },
            RemovalDeedModel::Identify(n) => match reply {
                RemovalReply::Identity(id) => if id == self.expected {
                    RemovalModel::Do(RemovalDeedModel::Remove(n))
                } else {
                    RemovalModel::Do(
                        RemovalDeedModel::Rollback(
                            n,
                            failure(IoKind::NotFound, "file name changed before removal"@),
                        ),
                    )
                },
                RemovalReply::Failed(e) => RemovalModel::Do(RemovalDeedModel::Rollback(n, e@)),
                _ => RemovalModel::Over,
            },
            RemovalDeedModel::Remove(n) => match reply {
                RemovalReply::Failed(e) => RemovalModel::Do(RemovalDeedModel::Rollback(n, e@)),
                _ => RemovalModel::Over,
            },
            RemovalDeedModel::Rollback(n, primary) => match reply {
                RemovalReply::Failed(e) => RemovalModel::Failed(self.stranded(n, primary, e@)),
                _ => RemovalModel::Failed(primary),
            },
        }
    }

    /// Takes the reply to a deed.
    pub fn feed(&mut self, deed: RemovalDeed, reply: RemovalReply) -> (r: StepNext<RemovalDeed>)
        requires
            old(self).wf(),
            removal_answers(deed@, reply),
        ensures
            removal_view(r) == old(self).after(deed@, reply),
            final(self).relative == old(self).relative,
            final(self).name == old(self).name,
            final(self).expected == old(self).expected,
            r is Do ==> final(self).wf(),
            final(self).attempts == if deed is Claim && (reply matches RemovalReply::Failed(e) && e.kind
                == IoKind::AlreadyExists) {
                (old(self).attempts + 1) as u32
            } else {
                old(self).attempts
            },
    {
        match deed {
            RemovalDeed::Token => match reply {
                RemovalReply::Token(t) => {
                    let n = removal_name(t.as_str());
                    StepNext::Do(RemovalDeed::Claim(n.into_string()))
                },
                RemovalReply::Failed(e) => StepNext::Failed(e),
                _ => StepNext::Over,
            },
            RemovalDeed::Claim(n) => match reply {
                RemovalReply::Failed(e) => {
                    if e.kind != IoKind::AlreadyExists {
                        return StepNext::Failed(e);
                    }
                    self.attempts = self.attempts + 1;
                    if self.attempts < CLAIM_ATTEMPTS {
                        return StepNext::Do(RemovalDeed::Token);
                    }
                    let mut s = "could not reserve an identity-checked removal name for ".to_owned();
                    s.append(debug_of(self.relative.as_str()).as_str());
                    StepNext::Failed(IoFailure::new(IoKind::AlreadyExists, s.as_str()))
                },
                _ => StepNext::Do(RemovalDeed::Identify(n)),
            },
            RemovalDeed::Identify(n) => match reply {
                RemovalReply::Identity(id) => {
                    if id == self.expected {
                        StepNext::Do(RemovalDeed::Remove(n))
                    } else {
                        StepNext::Do(
                            RemovalDeed::Rollback(
                                n,
                                IoFailure::new(
                                    IoKind::NotFound,
                                    "file name changed before removal",
                                ),
                            ),
                        )
                    }
                },
                RemovalReply::Failed(e) => StepNext::Do(RemovalDeed::Rollback(n, e)),
                _ => StepNext::Over,
            },
            RemovalDeed::Remove(n) => match reply {
                RemovalReply::Failed(e) => StepNext::Do(RemovalDeed::Rollback(n, e)),
                _ => StepNext::Over,
            },
            RemovalDeed::Rollback(n, primary) => match reply {
                RemovalReply::Failed(e) => {
                    let mut s = primary.message.clone();
                    s.append("; rollback to ");
                    s.append(debug_of(self.name.as_str()).as_str());
                    s.append(" failed (");
                    s.append(e.message.as_str());
                    s.append("); the claimed entry remains recoverable as ");
                    s.append(debug_of(n.as_str()).as_str());
                    StepNext::Failed(IoFailure::new(primary.kind, s.as_str()))
                },
                _ => StepNext::Failed(primary),
            },
        }
    }
}

/// Only the file that was opened is ever removed: what has its name is looked at once nobody else can
/// name it, and another file gets its name back.
pub proof fn only_the_open_file_is_removed(r: Removal, deed: RemovalDeedModel, reply: RemovalReply, n: Seq<char>)
    requires
        removal_answers(deed, reply),
        r.after(deed, reply) == RemovalModel::Do(RemovalDeedModel::Remove(n)),
    ensures
        deed == RemovalDeedModel::Identify(n),
        reply == RemovalReply::Identity(r.expected),
{
}

/// A removal that did not succeed always tells so.
pub proof fn a_rolled_back_removal_fails(r: Removal, n: Seq<char>, why: FailureModel, reply: RemovalReply)
    requires
        removal_answers(RemovalDeedModel::Rollback(n, why), reply),
    ensures
        r.after(RemovalDeedModel::Rollback(n, why), reply) is Failed,
{
}

/// One directory on the way down: the names in it, and the one at hand.
pub struct Frame {
    pub names: Vec<String>,
    pub at: usize,
}

/// What removing a tree is waiting for; each deed is about the name at hand in the directory that is
/// open.
pub enum TreeDeed {
    /// See what the name is.
    Look,
    /// Open the directory of that name, without following a link, and list it.
    Enter,
    /// See whether the name still stands for the directory that was open.
    Confirm,
    RemoveDir,
    RemoveFile,
}

pub enum TreeReply {
    Done,
    /// Whether it is a directory, without following a link.
    Dir(bool),
    Names(Vec<String>),
    /// Whether it is still the same directory.
    Same(bool),
    Failed(IoFailure),
}

pub open spec fn tree_answers(deed: TreeDeed, reply: TreeReply) -> bool {
    reply is Failed || match deed {
        TreeDeed::Look => reply is Dir,
        TreeDeed::Enter => reply is Names,
        TreeDeed::Confirm => reply is Same,
        TreeDeed::RemoveDir | TreeDeed::RemoveFile => reply is Done,
    }
}

/// A directory that is being removed with everything in it. The first frame holds its own name.
pub struct TreeRemoval {
    pub stack: Vec<Frame>,
}

pub open spec fn at_name(f: Frame) -> bool {
    f.at < f.names@.len()
}

pub enum TreeNext {
    Do(TreeDeed),
    Over,
    Failed(IoFailure),
}

pub enum TreeNextModel {
    Do(TreeDeed),
    Over,
    Failed(FailureModel),
}

impl View for TreeNext {
    type V = TreeNextModel;

    open spec fn view(&self) -> TreeNextModel {
        match *self {
            TreeNext::Do(d) => TreeNextModel::Do(d),
            TreeNext::Over => TreeNextModel::Over,
            TreeNext::Failed(e) => TreeNextModel::Failed(e@),
        }
    }
}

pub open spec fn changed_text(top: bool) -> Seq<char> {
    if top {
        "directory name changed while recursive removal was in progress"@
    } else {
        "directory entry changed while recursive removal was in progress"@
    }
}

impl TreeRemoval {
    /// Something is at hand in every directory that is open.
    pub open spec fn wf(self) -> bool {
        &&& self.stack@.len() > 0
        &&& forall|i: int| 0 <= i < self.stack@.len() ==> at_name(#[trigger] self.stack@[i])
    }

    pub fn begin(name: &str) -> (r: (TreeRemoval, TreeDeed))
        ensures
            r.0.wf(),
            r.0.stack@.len() == 1,
            texts(r.0.stack@[0].names@) == seq![name@],
            r.0.stack@[0].at == 0,
            r.1 is Enter,
    {
        let mut names: Vec<String> = Vec::new();
        names.push(name.to_owned());
        assert(texts(names@) =~= seq![name@]);
        let mut stack: Vec<Frame> = Vec::new();
        stack.push(Frame { names, at: 0 });
        (TreeRemoval { stack }, TreeDeed::Enter)
    }

    /// The name at hand.
    pub fn current(&self) -> (r: &str)
        requires
            self.wf(),
        ensures
            r@ == self.stack@.last().names@[self.stack@.last().at as int]@,
    {
        let f = &self.stack[self.stack.len() - 1];
        assert(at_name(self.stack@[self.stack@.len() - 1]));
        f.names[f.at].as_str()
    }

    /// How the removal goes on after a reply, and which directories are open then. An entered directory
    /// with nothing in it is through at once.
    pub open spec fn after(self, deed: TreeDeed, reply: TreeReply) -> (Seq<Frame>, TreeNextModel) {
        let s = self.stack@;
        let top = s.last();
        match reply {
            TreeReply::Failed(e) => (s, TreeNextModel::Failed(e@)),
            TreeReply::Dir(dir) => (
                s,
                TreeNextModel::Do(
                    if dir {
                        TreeDeed::Enter
                    } else {
                        TreeDeed::RemoveFile
                    },
                ),
            ),
            TreeReply::Names(names) => if names@.len() == 0 {
                (s, TreeNextModel::Do(TreeDeed::Confirm))
            } else {
                (s.push(Frame { names, at: 0 }), TreeNextModel::Do(TreeDeed::Look))
            },
            TreeReply::Same(same) => if same {
                (s, TreeNextModel::Do(TreeDeed::RemoveDir))
            } else {
                (
                    s,
                    TreeNextModel::Failed(failure(IoKind::NotFound, changed_text(s.len() == 1))),
                )
            },
            TreeReply::Done => if top.at + 1 < top.names@.len() {
                (
                    s.update(s.len() - 1, Frame { names: top.names, at: (top.at + 1) as usize }),
                    TreeNextModel::Do(TreeDeed::Look),
                )
            } else if s.len() == 1 {
                (s, TreeNextModel::Over)
            } else {
                (s.drop_last(), TreeNextModel::Do(TreeDeed::Confirm))
            },
        }
    }

    /// Takes the reply to a deed.
    pub fn feed(&mut self, deed: TreeDeed, reply: TreeReply) -> (r: TreeNext)
        requires
            old(self).wf(),
            tree_answers(deed, reply),
        ensures
            final(self).wf(),
            (final(self).stack@, r@) == old(self).after(deed, reply),
    {
        let depth = self.stack.len();
        assert(at_name(self.stack@[depth - 1]));
        match reply {
            TreeReply::Failed(e) => TreeNext::Failed(e),
            TreeReply::Dir(dir) => {
                if dir {
                    TreeNext::Do(TreeDeed::Enter)
                } else {
                    TreeNext::Do(TreeDeed::RemoveFile)
                }
            },
            TreeReply::Names(names) => {
                if names.len() == 0 {
                    return TreeNext::Do(TreeDeed::Confirm);
                }
                self.stack.push(Frame { names, at: 0 });
                TreeNext::Do(TreeDeed::Look)
            },
            TreeReply::Same(same) => {
                if same {
                    return TreeNext::Do(TreeDeed::RemoveDir);
                }
                TreeNext::Failed(
                    IoFailure::new(
                        IoKind::NotFound,
                        if depth == 1 {
                            "directory name changed while recursive removal was in progress"
                        } else {
                            "directory entry changed while recursive removal was in progress"
                        },
                    ),
                )
            },
            TreeReply::Done => {
                let n = self.stack[depth - 1].names.len();
                let at = self.stack[depth - 1].at;
                if at + 1 < n {
                    let ghost before = self.stack@;
                    if let Some(f) = self.stack.pop() {
                        self.stack.push(Frame { names: f.names, at: at + 1 });
                    }
                    assert(self.stack@ =~= before.update(
                        before.len() - 1,
                        Frame { names: before.last().names, at: (at + 1) as usize },
                    ));
                    return TreeNext::Do(TreeDeed::Look);
                }
                if depth == 1 {
                    return TreeNext::Over;
                }
                let ghost before = self.stack@;
                self.stack.pop();
                assert(self.stack@ =~= before.drop_last());
                assert forall|i: int| 0 <= i < self.stack@.len() implies at_name(#[trigger] self.stack@[i]) by {
                    assert(at_name(before[i]));
                }
                TreeNext::Do(TreeDeed::Confirm)
            },
        }
    }
}

/// A directory is removed only after its name was seen to stand for it still, once everything in it was
/// gone.
pub proof fn a_replaced_directory_is_spared(t: TreeRemoval, deed: TreeDeed, reply: TreeReply)
    requires
        tree_answers(deed, reply),
        t.after(deed, reply).1 == TreeNextModel::Do(TreeDeed::RemoveDir),
    ensures
        deed is Confirm,
        reply == TreeReply::Same(true),
{
}

/// A link in the tree is removed and never entered.
pub proof fn links_are_not_entered(t: TreeRemoval, deed: TreeDeed, reply: TreeReply)
    requires
        tree_answers(deed, reply),
        t.after(deed, reply).1 == TreeNextModel::Do(TreeDeed::Enter),
    ensures
        reply == TreeReply::Dir(true),
{
}

/// A staged file in an open directory.
pub struct LocalStagedFile {
    pub temporary_name: EntryName,
    pub destination_name: EntryName,
    pub state: Staged,
}

impl LocalStagedFile {
    /// The temp file was made under a name with that token.
    pub fn create(token: &str, destination_name: EntryName) -> (r: LocalStagedFile)
        requires
            all_hex(token@),
        ensures
            r.temporary_name@ == own_name("stage."@, token@),
            r.destination_name@ == destination_name@,
            r.state == (Staged { open: true, committed: false, sync_parent: false }),
    {
        LocalStagedFile {
            temporary_name: staging_name(token),
            destination_name,
            state: Staged::create(),
        }
    }

    /// Whether a write may go on.
    pub fn writable(&self) -> (r: Result<(), IoFailure>)
        ensures
            match r {
                Ok(_) => self.state.open,
                Err(e) => !self.state.open && failed_as(
                    e,
                    IoKind::Other,
                    "staged file is already sealed"@,
                ),
            },
    {
        if self.state.open {
            Ok(())
        } else {
            Err(IoFailure::new(IoKind::Other, "staged file is already sealed"))
        }
    }

    /// Closes the temp file. A second time there is nothing left to flush.
    pub fn seal(&mut self, fsync: bool) -> (r: Sealing)
        ensures
            final(self).temporary_name == old(self).temporary_name,
            final(self).destination_name == old(self).destination_name,
            final(self).state == (Staged {
                open: false,
                sync_parent: old(self).state.sync_parent || fsync,
                ..old(self).state
            }),
            r == (Sealing { flush: old(self).state.open, fsync: old(self).state.open && fsync }),
    {
        self.state.seal(fsync)
    }

    /// What has to be done to put the file in place; with `noreplace` only while the name is free.
    pub fn commit(&self, noreplace: bool) -> (r: Committing)
        ensures
            r == (Committing {
                seal: self.state.open,
                keep_existing: noreplace,
                sync_parent: self.state.open || self.state.sync_parent,
            }),
    {
        self.state.committing(noreplace)
    }

    /// The rename went through.
    pub fn renamed(&mut self)
        ensures
            final(self).temporary_name == old(self).temporary_name,
            final(self).destination_name == old(self).destination_name,
            final(self).state == (Staged { committed: true, ..old(self).state }),
    {
        self.state.renamed()
    }

    /// Whether the temp file is to be removed now that nobody needs it any more.
    pub fn leaves_debris(&self) -> (r: bool)
        ensures
            r == !self.state.committed,
    {
        self.state.leaves_debris()
    }
}

/// Whether a link to that target can be made in a confined root.
pub fn may_link(os: Os, absolute_target: bool) -> (r: Result<(), IoFailure>)
    ensures
        if os == Os::Windows && absolute_target {
            r matches Err(e) && failed_as(
                e,
                IoKind::Unsupported,
                "absolute symlink targets cannot be created within a confined local root on Windows"@,
            )
        } else {
            r is Ok
        },
{
    if os == Os::Windows && absolute_target {
        Err(
            IoFailure::new(
                IoKind::Unsupported,
                "absolute symlink targets cannot be created within a confined local root on Windows",
            ),
        )
    } else {
        Ok(())
    }
}

/// On Windows a link is made as one to a file and, where that fails, as one to a directory.
pub fn weigh_link(as_file: Result<(), IoFailure>, as_directory: Result<(), IoFailure>) -> (r: Result<
    (),
    IoFailure,
>)
    ensures
        match as_file {
            Ok(_) => r is Ok,
            Err(f) => match as_directory {
                Ok(_) => r is Ok,
                Err(d) => r matches Err(e) && failed_as(
                    e,
                    d.kind,
                    "file symlink creation failed ("@ + f.message@
                        + "); directory symlink creation failed ("@ + d.message@ + ")"@,
                ),
            },
        },
{
    match as_file {
        Ok(_) => Ok(()),
        Err(f) => match as_directory {
            Ok(_) => Ok(()),
            Err(d) => {
                let mut s = "file symlink creation failed (".to_owned();
                s.append(f.message.as_str());
                s.append("); directory symlink creation failed (");
                s.append(d.message.as_str());
                s.append(")");
                Err(IoFailure::new(d.kind, s.as_str()))
            },
        },
    }
}

/// Access to a file that is only renamed: delete and synchronize.
pub const RENAME_ACCESS: u32 = 0x0011_0000;

/// Others may read, write and delete meanwhile.
pub const RENAME_SHARE: u32 = 0x0000_0007;

/// The sizes of the buffer that Windows takes a rename in.
#[derive(Clone, Copy, Debug, PartialEq, Eq, Structural)]
pub struct RenameLayout {
    /// Bytes of the name.
    pub name_bytes: usize,
    /// Bytes of the buffer: the fixed part, which holds the first unit of the name, and the rest of the
    /// name.
    pub allocation: usize,
    /// The buffer in machine words.
    pub words: usize,
}

pub open spec fn tail_bytes(units: nat) -> int {
    if units == 0 {
        0
    } else {
        2 * units - 2
    }
}

/// The buffer for a name of that many UTF-16 units; `fixed` and `word` are the sizes of the fixed part
/// and of a machine word.
pub fn rename_layout(units: usize, fixed: usize, word: usize) -> (r: Result<RenameLayout, IoFailure>)
    requires
        word > 0,
    ensures
        if 2 * units > usize::MAX || fixed + tail_bytes(units as nat) > usize::MAX {
            r matches Err(e) && failed_as(e, IoKind::InvalidInput, "destination name is too long"@)
        } else {
            r matches Ok(l) && l.name_bytes == 2 * units && l.allocation == fixed + tail_bytes(
                units as nat,
            ) && l.words * word >= l.allocation && (l.words - 1) * word < l.allocation
        },
{
    let bytes: usize = match units.checked_mul(2) {
        Some(b) => b,
        None => {
            return Err(IoFailure::new(IoKind::InvalidInput, "destination name is too long"));
        },
    };
    let tail: usize = if bytes >= 2 {
        bytes - 2
    } else {
        0
    };
    let allocation: usize = match fixed.checked_add(tail) {
        Some(a) => a,
        None => {
            return Err(IoFailure::new(IoKind::InvalidInput, "destination name is too long"));
        },
    };
    let whole: usize = allocation / word;
    let rest: usize = allocation % word;
    proof {
        vstd::arithmetic::div_mod::lemma_fundamental_div_mod(allocation as int, word as int);
        assert(word * whole + rest == allocation);
        assert(whole * word == word * whole) by (nonlinear_arith);
        assert((whole + 1) * word == word * whole + word) by (nonlinear_arith);
        assert((whole - 1) * word == word * whole - word) by (nonlinear_arith);
        if rest > 0 && word == 1 {
            assert(false);
        }
        assert(rest > 0 ==> whole < usize::MAX) by {
            if rest > 0 {
                assert(word >= 2);
                assert(word * whole >= 2 * whole) by (nonlinear_arith)
                    requires
                        word >= 2,
                ;
            }
        }
    }
    let words: usize = if rest > 0 {
        whole + 1
    } else {
        whole
    };
    Ok(RenameLayout { name_bytes: bytes, allocation, words })
}

/// A listing is taken whole, in the order in which it was read, or refused for its first fault.
pub proof fn a_directory_is_read_whole_or_not_at_all(found: Seq<RawEntry>)
    ensures
        entries_of(found) is Ok <==> forall|i: int|
            0 <= i < found.len() ==> entry_fault(#[trigger] found[i]) is None,
        entries_of(found) matches Ok(v) ==> v.len() == found.len() && forall|i: int|
            0 <= i < found.len() ==> (#[trigger] v[i]).0 == found[i].name->Ok_0@ && v[i].1 == local_meta(
                found[i].meta->Ok_0,
            ),
        entries_of(found) matches Err(f) ==> exists|i: int|
            0 <= i < found.len() && entry_fault(#[trigger] found[i]) == Some(f) && forall|k: int|
                0 <= k < i ==> entry_fault(#[trigger] found[k]) is None,
    decreases found.len(),
{
    if found.len() > 0 {
        let less = found.drop_last();
        let at = found.len() - 1;
        a_directory_is_read_whole_or_not_at_all(less);
        assert(forall|i: int| 0 <= i < at ==> less[i] == found[i]);
        match entries_of(less) {
            Err(f) => {
                let i = choose|i: int|
                    0 <= i < less.len() && entry_fault(#[trigger] less[i]) == Some(f) && forall|k: int|
                        0 <= k < i ==> entry_fault(#[trigger] less[k]) is None;
                assert(entry_fault(found[i]) == Some(f));
                assert forall|k: int| 0 <= k < i implies entry_fault(#[trigger] found[k]) is None by {
                    assert(entry_fault(less[k]) is None);
                }
            },
            Ok(v) => {
                assert forall|k: int| 0 <= k < at implies entry_fault(#[trigger] found[k]) is None by {
                    assert(entry_fault(less[k]) is None);
                }
                if entry_fault(found[at]) is None {
                    let w = entries_of(found)->Ok_0;
                    assert forall|i: int| 0 <= i < found.len() implies (#[trigger] w[i]).0
                        == found[i].name->Ok_0@ && w[i].1 == local_meta(found[i].meta->Ok_0) by {
                        if i < at {
                            assert(w[i] == v[i]);
                            assert(less[i] == found[i]);
                        }
                    }
                }
            },
        }
    }
}

/// A directory is made only where it was not found, entered again once it is made, and the work is over
/// only when the last name was entered; every other failure ends it.
pub proof fn directories_are_made_only_where_missing(m: Making, deed: MakeDeed, reply: StepReply)
    requires
        m.at < m.names@.len(),
    ensures
        m.after(deed, reply).1 == StepNext::<MakeDeed>::Do(MakeDeed::Create) <==> deed == MakeDeed::Enter && (
        reply matches StepReply::Failed(e) && e.kind == IoKind::NotFound),
        m.after(deed, reply).1 == StepNext::<MakeDeed>::Do(MakeDeed::EnterMade) <==> deed
            == MakeDeed::Create && (reply is Done || (reply matches StepReply::Failed(e) && e.kind
            == IoKind::AlreadyExists)),
        m.after(deed, reply).1 is Over <==> reply is Done && deed != MakeDeed::Create && m.at + 1
            == m.names@.len(),
        m.after(deed, reply).1 matches StepNext::Failed(e) ==> reply == StepReply::Failed(e),
        m.after(deed, reply).0 == m.at + 1 <==> reply is Done && deed != MakeDeed::Create,
        m.after(deed, reply).0 == m.at || m.after(deed, reply).0 == m.at + 1,
        deed == MakeDeed::EnterMade && reply is Failed ==> m.after(deed, reply).1 is Failed,
{
}

/// Only a refusal of access on Windows is not taken as it is; the attribute is cleared on what is no link,
/// or on a directory; after that there is one more try, and its answer stands.
pub proof fn force_is_used_once_and_never_through_a_link(f: Force, deed: ForceDeed, reply: ForceReply)
    requires
        force_answers(f, deed, reply),
    ensures
        f.after(deed, reply) == StepNext::<ForceDeed>::Do(ForceDeed::Look) <==> f.os == Os::Windows && deed
            == ForceDeed::Try && (reply matches ForceReply::Failed(e) && e.kind == IoKind::PermissionDenied),
        f.after(deed, reply) == StepNext::<ForceDeed>::Do(ForceDeed::Clear) ==> deed == ForceDeed::Look && (
        reply == ForceReply::Link(false) || (reply is Link && f.directory)),
        f.after(deed, reply) == StepNext::<ForceDeed>::Do(ForceDeed::Again) <==> deed == ForceDeed::Clear
            && reply is Done,
        f.after(deed, reply) != StepNext::<ForceDeed>::Do(ForceDeed::Try),
        deed == ForceDeed::Again ==> !(f.after(deed, reply) is Do),
        f.after(deed, reply) is Over <==> reply is Done && deed != ForceDeed::Clear,
        reply == ForceReply::Link(true) && !f.directory ==> f.after(deed, reply) == StepNext::<ForceDeed>::Failed(
            f.refusal->0,
        ),
{
}

/// An open file is set aside under a name of its own, told by its identity, and only then removed: the
/// removal is over only once that went through. After any trouble in between it is put back, and a name
/// that is taken is met with another one, for as long as there are tries left.
pub proof fn an_open_file_is_set_aside_first(r: Removal, deed: RemovalDeedModel, reply: RemovalReply)
    requires
        removal_answers(deed, reply),
    ensures
        r.after(deed, reply) is Over <==> deed is Remove && reply is Done,
        forall|n: Seq<char>|
            (#[trigger] r.after(deed, reply) == RemovalModel::Do(RemovalDeedModel::Identify(n))) <==> (deed
                == RemovalDeedModel::Claim(n) && reply is Done),
        deed matches RemovalDeedModel::Identify(n) ==> !(reply matches RemovalReply::Identity(id) && id == r.expected)
            ==> (r.after(deed, reply) matches RemovalModel::Do(RemovalDeedModel::Rollback(m, _)) && m == n),
        deed matches RemovalDeedModel::Remove(n) ==> reply is Failed ==> (r.after(deed, reply) matches RemovalModel::Do(
            RemovalDeedModel::Rollback(m, why),
        ) && m == n && why == reply->Failed_0@),
        deed is Claim ==> (reply matches RemovalReply::Failed(e) ==> (r.after(deed, reply) == RemovalModel::Do(
            RemovalDeedModel::Token,
        ) <==> e.kind == IoKind::AlreadyExists && r.attempts < 1023)),
        deed is Rollback ==> (r.after(deed, reply) matches RemovalModel::Failed(f) && f.kind
            == deed->Rollback_1.kind),
{
}

/// A tree is removed from below: a file is removed only once it was seen to be none of the directories, a
/// directory is left only when its last name is gone, every name is taken in turn, and the work is over
/// only when the directory itself is gone.
pub proof fn a_tree_is_removed_from_below(t: TreeRemoval, deed: TreeDeed, reply: TreeReply)
    requires
        t.wf(),
        tree_answers(deed, reply),
    ensures
        ({
            let s = t.stack@;
            let top = s.last();
            let (open, next) = t.after(deed, reply);
            let last = top.at + 1 == top.names@.len();
            &&& next == TreeNextModel::Do(TreeDeed::RemoveFile) <==> reply == TreeReply::Dir(false)
            &&& next is Over <==> reply is Done && last && s.len() == 1
            &&& next matches TreeNextModel::Failed(f) ==> reply is Failed || reply == TreeReply::Same(false)
            &&& reply is Failed ==> next is Failed
            &&& open.len() < s.len() ==> reply is Done && last && next == TreeNextModel::Do(TreeDeed::Confirm)
            &&& open.len() > s.len() ==> deed is Enter && open.drop_last() == s && open.last().at == 0
                && TreeReply::Names(open.last().names) == reply
            &&& reply is Done && !last ==> open.len() == s.len() && open.drop_last() == s.drop_last()
                && open.last().names == top.names && open.last().at == top.at + 1 && next
                == TreeNextModel::Do(TreeDeed::Look)
            &&& reply matches TreeReply::Names(names) ==> names@.len() > 0 ==> open.len() == s.len() + 1
        }),
{
    let s = t.stack@;
    let top = s.last();
    let (open, next) = t.after(deed, reply);
    assert(at_name(s[s.len() - 1]));
    if open.len() > s.len() {
        assert(open.drop_last() =~= s);
    }
    if reply is Done && top.at + 1 < top.names@.len() {
        assert(top.names.len() == top.names@.len());
        assert(open.drop_last() =~= s.drop_last());
    }
}

/// Different bytes give different tokens.
pub proof fn tokens_tell_bytes_apart(a: Seq<u8>, b: Seq<u8>)
    requires
        token_text(a) == token_text(b),
    ensures
        a == b,
        token_text(a).len() == 2 * a.len(),
    decreases a.len(),
{
    lemma_token_length(a);
    lemma_token_length(b);
    if a.len() > 0 {
        let x = token_text(a);
        let y = token_text(b);
        let n = x.len() as int;
        assert(b.len() == a.len());
        assert(x.take(n - 2) =~= token_text(a.drop_last()));
        assert(y.take(n - 2) =~= token_text(b.drop_last()));
        tokens_tell_bytes_apart(a.drop_last(), b.drop_last());
        assert(x[n - 2] == hex_digit(a.last() as int / 16));
        assert(y[n - 2] == hex_digit(b.last() as int / 16));
        assert(x[n - 1] == hex_digit(a.last() as int % 16));
        assert(y[n - 1] == hex_digit(b.last() as int % 16));
        lemma_hex_digits_differ(a.last() as int / 16, b.last() as int / 16);
        lemma_hex_digits_differ(a.last() as int % 16, b.last() as int % 16);
        assert(a =~= a.drop_last().push(a.last()));
        assert(b =~= b.drop_last().push(b.last()));
    } else {
        assert(a =~= b);
    }
}

proof fn lemma_hex_digits_differ(a: int, b: int)
    requires
        0 <= a < 16,
        0 <= b < 16,
        hex_digit(a) == hex_digit(b),
    ensures
        a == b,
{
    assert(hex_digit(a) as int == if a < 10 {
        48 + a
    } else {
        87 + a
    });
    assert(hex_digit(b) as int == if b < 10 {
        48 + b
    } else {
        87 + b
    });
}

} // verus!
