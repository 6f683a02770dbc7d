//! Staged files: a temp file beside the destination, which becomes it by one rename.
use vstd::prelude::*;
use crate::atomic::{temp_name, temp_rel};
use crate::foundation::names::TEMP_PREFIX;
use crate::fs::vfs::error::{IoFailure, IoKind};
use crate::hash::{blake3_hex, hash_hex};
use crate::strings::{chars_of, decimal, numeral, slice, text_of};

verus! {

/// Whether a file name, without directory, is one of our temp files.
pub fn is_temp_name(file_name: &str) -> (r: bool)
    ensures
        r == temp_name(file_name@),
{
    crate::atomic::is_temp_name(file_name)
}

/// Whether the last segment of a table path is a temp file.
pub fn is_temp_rel(rel: &str) -> (r: bool)
    ensures
        r == temp_rel(rel@),
{
    crate::atomic::is_temp_rel(rel)
}

/// The name of a staged file: a hint at the destination, the process and a number of its own. The
/// destination's name is only hinted at, so that a long one does not make this one too long.
pub open spec fn stage_text(hint: Seq<char>, pid: nat, id: nat) -> Seq<char> {
    TEMP_PREFIX@ + "stage."@ + hint + "."@ + numeral(pid) + "."@ + numeral(id)
}

/// The name for the staged file of a destination called `name` (the bytes of its last segment).
pub fn stage_name(name: &[u8], pid: u32, id: u64) -> (r: String)
    ensures
        r@ == stage_text(blake3_hex(name@).take(16), pid as nat, id as nat),
        temp_name(r@),
{
    let digest = hash_hex(name);
    let hex = chars_of(digest.as_str());
    let hint = slice(hex.as_slice(), 0, 16);
    assert(hint@ =~= blake3_hex(name@).take(16));
    let mut s = TEMP_PREFIX.to_owned();
    s.append("stage.");
    s.append(text_of(hint.as_slice()).as_str());
    s.append(".");
    s.append(decimal(pid as u64).as_str());
    s.append(".");
    s.append(decimal(id).as_str());
    proof {
        lemma_stage_is_temp(hint@, pid as nat, id as nat);
    }
    s
}

proof fn lemma_stage_is_temp(hint: Seq<char>, pid: nat, id: nat)
    ensures
        temp_name(stage_text(hint, pid, id)),
{
    let s = stage_text(hint, pid, id);
    assert(s.subrange(0, TEMP_PREFIX@.len() as int) =~= TEMP_PREFIX@);
}

/// What a numeral may be long.
proof fn lemma_numeral_length(n: nat, places: nat)
    requires
        n < pow10(places),
        places > 0,
    ensures
        numeral(n).len() <= places,
    decreases places,
{
    if n >= 10 {
        lemma_numeral_length(n / 10, (places - 1) as nat);
    }
}

spec fn pow10(n: nat) -> nat
    decreases n,
{
    if n == 0 {
        1
    } else {
        10 * pow10((n - 1) as nat)
    }
}

/// The name of a staged file stays short, however long the destination's is.
pub proof fn stage_names_are_short(hint: Seq<char>, pid: u32, id: u64)
    requires
        hint.len() == 16,
    ensures
        stage_text(hint, pid as nat, id as nat).len() < 100,
{
    reveal_strlit(".syncdash.tmp.");
    reveal_strlit("stage.");
    reveal_strlit(".");
    reveal_with_fuel(pow10, 21);
    lemma_numeral_length(pid as nat, 10);
    lemma_numeral_length(id as nat, 20);
}

/// Equal numerals are of equal numbers.
proof fn lemma_numerals_differ(a: nat, b: nat)
    requires
        numeral(a) == numeral(b),
    ensures
        a == b,
{
    crate::strings::lemma_numeral_digits(a);
    crate::strings::lemma_numeral_digits(b);
}

/// Two staged files of one process never share a name, nor do those of two processes.
pub proof fn stage_names_are_distinct(hint: Seq<char>, p1: nat, i1: nat, p2: nat, i2: nat)
    requires
        p1 != p2 || i1 != i2,
    ensures
        stage_text(hint, p1, i1) != stage_text(hint, p2, i2),
{
    let front = TEMP_PREFIX@ + "stage."@ + hint + "."@;
    let a = stage_text(hint, p1, i1);
    let b = stage_text(hint, p2, i2);
    let n = front.len() as int;
    let x = numeral(p1) + "."@ + numeral(i1);
    let y = numeral(p2) + "."@ + numeral(i2);
    assert(a =~= front + x);
    assert(b =~= front + y);
    if a == b {
        assert(a.skip(n) =~= x);
        assert(b.skip(n) =~= y);
        assert(x == y);
        reveal_strlit(".");
        crate::strings::lemma_numeral_digits(p1);
        crate::strings::lemma_numeral_digits(p2);
        let k = numeral(p1).len() as int;
        let l = numeral(p2).len() as int;
        assert(x[k] == '.');
        assert(y[l] == '.');
        if k < l {
            assert(y[k] == numeral(p2)[k]);
        } else if l < k {
            assert(x[l] == numeral(p1)[l]);
        }
        assert(k == l);
        assert(x.take(k) =~= numeral(p1));
        assert(y.take(k) =~= numeral(p2));
        assert(x.skip(k + 1) =~= numeral(i1));
        assert(y.skip(k + 1) =~= numeral(i2));
        lemma_numerals_differ(p1, p2);
        lemma_numerals_differ(i1, i2);
    }
}

/// What is known of a staged file.
#[derive(Clone, Copy, Debug, PartialEq, Eq, Structural)]
pub struct Staged {
    /// The temp file can still be written to.
    pub open: bool,
    pub committed: bool,
    /// The directory is flushed as well once the file has its name.
    pub sync_parent: bool,
}

/// What sealing does to the temp file.
#[derive(Clone, Copy, Debug, PartialEq, Eq, Structural)]
pub struct Sealing {
    pub flush: bool,
    pub fsync: bool,
}

/// What a commit consists of, in this order.
#[derive(Clone, Copy, Debug, PartialEq, Eq, Structural)]
pub struct Committing {
    /// Seal with fsync first.
    pub seal: bool,
    /// Rename only while the final name is free.
    pub keep_existing: bool,
    pub sync_parent: bool,
}

/// A staged file needs a directory to stand in.
pub fn placed(has_parent: bool) -> (r: Result<(), IoFailure>)
    ensures
        match r {
            Ok(_) => has_parent,
            Err(e) => !has_parent && e.kind == IoKind::InvalidInput && e.raw is None && e.message@
                == "destination has no parent directory"@,
        },
{
    if has_parent {
        Ok(())
    } else {
        Err(IoFailure::new(IoKind::InvalidInput, "destination has no parent directory"))
    }
}

/// Whether a temp file could be made: a name that is taken asks for the next one.
pub enum Opened {
    Made,
    TryNext,
    Failed(IoFailure),
}

pub fn weigh_opening(reply: Result<(), IoFailure>) -> (r: Opened)
    ensures
        match reply {
            Ok(_) => r == Opened::Made,
            Err(e) => if e.kind == IoKind::AlreadyExists {
                r == Opened::TryNext
            } else {
                r == Opened::Failed(e)
            },
        },
{
    match reply {
        Ok(_) => Opened::Made,
        Err(e) => if e.kind == IoKind::AlreadyExists {
            Opened::TryNext
        } else {
            Opened::Failed(e)
        },
    }
}

impl Staged {
    /// Just made.
    pub fn create() -> (r: Staged)
        ensures
            r == (Staged { open: true, committed: false, sync_parent: false }),
    {
        Staged { open: true, committed: false, sync_parent: false }
    }

    /// Whether a write may go on.
    pub fn writable(&self) -> (r: Result<(), IoFailure>)
        ensures
            match r {
                Ok(_) => self.open,
                Err(e) => !self.open && e.kind == IoKind::Other && e.raw is None && e.message@
                    == "staged file already sealed"@,
            },
    {
        if self.open {
            Ok(())
        } else {
            Err(IoFailure::new(IoKind::Other, "staged file already sealed"))
        }
    }

    /// Closes the temp file. A second time there is nothing left to flush.
    pub fn seal(&mut self, fsync: bool) -> (r: Sealing)
        ensures
            *final(self) == (Staged {
                open: false,
                sync_parent: old(self).sync_parent || fsync,
                ..*old(self)
            }),
            r == (Sealing { flush: old(self).open, fsync: old(self).open && fsync }),
    {
        self.sync_parent = self.sync_parent || fsync;
        let was = self.open;
        self.open = false;
        Sealing { flush: was, fsync: was && fsync }
    }

    /// What has to be done to put the file in place.
    pub fn committing(&self, keep_existing: bool) -> (r: Committing)
        ensures
            r == (Committing {
                seal: self.open,
                keep_existing,
                sync_parent: self.open || self.sync_parent,
            }),
    {
        Committing { seal: self.open, keep_existing, sync_parent: self.open || self.sync_parent }
    }

    /// The rename went through.
    pub fn renamed(&mut self)
        ensures
            *final(self) == (Staged { committed: true, ..*old(self) }),
    {
        self.committed = true;
    }

    /// Whether the temp file is to be removed now that nobody needs it any more.
    pub fn leaves_debris(&self) -> (r: bool)
        ensures
            r == !self.committed,
    {
        !self.committed
    }
}

/// What a copy into a staged file is waiting for.
#[derive(Clone, Copy, Debug, PartialEq, Eq, Structural)]
pub enum CopyDeed {
    /// Read the next bytes of the source.
    Read,
    /// Write the bytes just read, that many, behind those written before.
    Write(usize),
    /// Show the bytes just written, that many, to whoever counts them or wants the copy to stop.
    Show(usize),
}

pub enum CopyReply {
    /// So many bytes were read; none at the end of the source.
    Bytes(usize),
    Done,
    Failed(IoFailure),
}

pub enum CopyNext {
    Do(CopyDeed),
    /// The source is copied, so many bytes in all.
    Over(u64),
    Failed(IoFailure),
}

pub open spec fn copy_answers(deed: CopyDeed, reply: CopyReply) -> bool {
    match deed {
        CopyDeed::Read => !(reply is Done),
        _ => !(reply is Bytes),
    }
}

/// What comes after a reply, with so many bytes written so far, and how many are written then. A
/// failure ends the copy, whoever it comes from.
pub open spec fn copy_after(written: int, deed: CopyDeed, reply: CopyReply) -> (int, CopyNext) {
    match reply {
        CopyReply::Failed(e) => (written, CopyNext::Failed(e)),
        CopyReply::Bytes(n) => (
            written,
            if n == 0 {
                CopyNext::Over(written as u64)
            } else {
                CopyNext::Do(CopyDeed::Write(n))
            },
        ),
        CopyReply::Done => match deed {
            CopyDeed::Write(n) => (written + n, CopyNext::Do(CopyDeed::Show(n))),
            _ => (written, CopyNext::Do(CopyDeed::Read)),
        },
    }
}

/// A copy under way.
#[derive(Clone, Copy, Debug, PartialEq, Eq, Structural)]
pub struct CopyRun {
    pub written: u64,
}

impl CopyRun {
    /// Begins with the first read; a sealed file takes nothing.
    pub fn begin(staged: &Staged) -> (r: Result<(CopyRun, CopyDeed), IoFailure>)
        ensures
            match r {
                Ok((c, d)) => staged.open && c.written == 0 && d == CopyDeed::Read,
                Err(e) => !staged.open && e.kind == IoKind::Other && e.raw is None && e.message@
                    == "staged file already sealed"@,
            },
    {
        match staged.writable() {
            Ok(_) => Ok((CopyRun { written: 0 }, CopyDeed::Read)),
            Err(e) => Err(e),
        }
    }

    /// Takes the reply to a deed.
    pub fn feed(&mut self, deed: CopyDeed, reply: CopyReply) -> (r: CopyNext)
        requires
            copy_answers(deed, reply),
            deed matches CopyDeed::Write(n) ==> old(self).written + n <= u64::MAX,
        ensures
            (final(self).written as int, r) == copy_after(old(self).written as int, deed, reply),
    {
        match reply {
            CopyReply::Failed(e) => CopyNext::Failed(e),
            CopyReply::Bytes(n) => if n == 0 {
                CopyNext::Over(self.written)
            } else {
                CopyNext::Do(CopyDeed::Write(n))
            },
            CopyReply::Done => match deed {
                CopyDeed::Write(n) => {
                    self.written = self.written + n as u64;
                    CopyNext::Do(CopyDeed::Show(n))
                },
                _ => CopyNext::Do(CopyDeed::Read),
            },
        }
    }
}

/// The bytes of some reads together.
pub open spec fn bytes_read(reads: Seq<usize>) -> int
    decreases reads.len(),
{
    if reads.len() == 0 {
        0
    } else {
        bytes_read(reads.drop_last()) + reads.last()
    }
}

/// What a copy has done once these reads, none of them empty, were each written and shown: how many
/// bytes are written, and what comes next.
pub open spec fn copied(reads: Seq<usize>) -> (int, CopyNext)
    decreases reads.len(),
{
    if reads.len() == 0 {
        (0, CopyNext::Do(CopyDeed::Read))
    } else {
        let (n, _) = copied(reads.drop_last());
        let (n, write) = copy_after(n, CopyDeed::Read, CopyReply::Bytes(reads.last()));
        let (n, show) = copy_after(n, write->Do_0, CopyReply::Done);
        copy_after(n, show->Do_0, CopyReply::Done)
    }
}

/// A copy that comes to its end tells how many bytes were read, every one of which was written and
/// shown, in the order of the reads.
pub proof fn a_copy_counts_every_byte(reads: Seq<usize>)
    requires
        forall|i: int| 0 <= i < reads.len() ==> reads[i] > 0,
    ensures
        copied(reads) == (bytes_read(reads), CopyNext::Do(CopyDeed::Read)),
        copy_after(copied(reads).0, CopyDeed::Read, CopyReply::Bytes(0)).1 == CopyNext::Over(
            bytes_read(reads) as u64,
        ),
    decreases reads.len(),
{
    if reads.len() > 0 {
        a_copy_counts_every_byte(reads.drop_last());
    }
}

/// Whatever is read is written next, and whatever is written is shown; a failure of any of the three ends
/// the copy with that failure, and only an empty read ends it well.
pub proof fn every_read_is_written_and_shown(written: int, deed: CopyDeed, reply: CopyReply)
    requires
        copy_answers(deed, reply),
    ensures
        reply matches CopyReply::Failed(e) ==> copy_after(written, deed, reply).1 == CopyNext::Failed(e),
        reply matches CopyReply::Bytes(n) ==> n > 0 ==> copy_after(written, deed, reply) == (
            written,
            CopyNext::Do(CopyDeed::Write(n)),
        ),
        copy_after(written, deed, reply).1 is Over ==> reply == CopyReply::Bytes(0) && deed == CopyDeed::Read,
        deed matches CopyDeed::Write(n) ==> reply is Done ==> copy_after(written, deed, reply) == (
            written + n,
            CopyNext::Do(CopyDeed::Show(n)),
        ),
        deed is Show && reply is Done ==> copy_after(written, deed, reply) == (
            written,
            CopyNext::Do(CopyDeed::Read),
        ),
        copy_after(written, deed, reply).0 != written ==> deed is Write && reply is Done,
{
}

} // verus!
