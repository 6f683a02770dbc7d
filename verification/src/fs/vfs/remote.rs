//! What the remote backends have in common.
use vstd::prelude::*;
use crate::bytes::push_bytes;
use crate::foundation::names::TEMP_PREFIX;
use crate::foundation::path::{base_of, prefix_of, split_parent};
use crate::fs::vfs::error::{IoFailure, VfsError, VfsErrorKind, VfsResult};
use crate::fs::vfs::spec::RemoteSpec;
use crate::strings::{
    char_lists, chars_of, decimal, lemma_last_index, lemma_last_index_is, lemma_numeral_digits, numeral,
    parse_decimal, parsed, push_all, slice, split, split_chars, text_of, texts, unslashed,
};

verus! {

/// The seconds that an option gives, 20 where it gives none.
pub open spec fn timeout_of(opt: Option<Seq<char>>) -> nat {
    match opt {
        Some(t) => match parsed(t, u64::MAX as nat) {
            Some(n) => n,
            None => 20,
        },
        None => 20,
    }
}

pub fn read_timeout(spec: &RemoteSpec) -> (r: u64)
    ensures
        r == timeout_of(spec@.option("timeout"@)),
{
    match spec.opt("timeout") {
        Some(t) => match parse_decimal(chars_of(t).as_slice(), u64::MAX) {
            Some(n) => n,
            None => 20,
        },
        None => 20,
    }
}

/// The segments that are not empty.
pub open spec fn named_segments(parts: Seq<Seq<char>>) -> Seq<Seq<char>>
    decreases parts.len(),
{
    if parts.len() == 0 {
        Seq::empty()
    } else if parts.last().len() > 0 {
        named_segments(parts.drop_last()).push(parts.last())
    } else {
        named_segments(parts.drop_last())
    }
}

/// The path of these segments.
pub open spec fn way(segs: Seq<Seq<char>>) -> Seq<char>
    decreases segs.len(),
{
    if segs.len() == 0 {
        Seq::empty()
    } else {
        let before = way(segs.drop_last());
        if before.len() == 0 {
            segs.last()
        } else {
            before + seq!['/'] + segs.last()
        }
    }
}

/// Every path on the way down.
pub open spec fn steps_down(segs: Seq<Seq<char>>) -> Seq<Seq<char>>
    decreases segs.len(),
{
    if segs.len() == 0 {
        Seq::empty()
    } else {
        steps_down(segs.drop_last()).push(way(segs))
    }
}

/// A directory that could not be made is no trouble if it can be entered: it was there.
pub fn weigh_mkdir(made: VfsResult<()>, entered: bool) -> (r: VfsResult<()>)
    ensures
        match made {
            Ok(_) => r is Ok,
            Err(e) => if entered {
                r is Ok
            } else {
                r matches Err(x) && x == e
            },
        },
{
    match made {
        Ok(_) => Ok(()),
        Err(e) => if entered {
            Ok(())
        } else {
            Err(e)
        },
    }
}

/// The path of the temp file for `rel`, which a process writes before it renames it.
pub fn temp_rel(rel: &str, pid: u32) -> (r: String)
    ensures
        r@ == prefix_of(rel@) + TEMP_PREFIX@ + base_of(rel@) + "."@ + numeral(pid as nat),
        crate::atomic::temp_rel(r@),
{
    let (parent, base) = split_parent(rel);
    let mut s = parent.to_owned();
    s.append(TEMP_PREFIX);
    s.append(base);
    s.append(".");
    s.append(decimal(pid as u64).as_str());
    proof {
        lemma_temp_rel(rel@, pid as nat);
    }
    s
}

proof fn lemma_temp_rel(rel: Seq<char>, pid: nat)
    ensures
        crate::atomic::temp_rel(prefix_of(rel) + TEMP_PREFIX@ + base_of(rel) + "."@ + numeral(pid)),
{
    let front = prefix_of(rel);
    let s = front + TEMP_PREFIX@ + base_of(rel) + "."@ + numeral(pid);
    reveal_strlit(".syncdash.tmp.");
    reveal_strlit(".");
    lemma_last_index(rel, '/');
    lemma_numeral_digits(pid);
    let a = front.len() as int;
    let b = a + TEMP_PREFIX@.len();
    let c = b + base_of(rel).len();
    assert forall|j: int| a <= j < s.len() implies s[j] != '/' by {
        if j < b {
            assert(s[j] == TEMP_PREFIX@[j - a]);
        } else if j < c {
            assert(s[j] == base_of(rel)[j - b]);
            assert(base_of(rel)[j - b] == rel[a + j - b]);
        } else if j > c {
            assert(s[j] == numeral(pid)[j - c - 1]);
        }
    }
    if a > 0 {
        assert(s[a - 1] == rel[a - 1]);
    }
    lemma_last_index_is(s, '/', a - 1);
    assert(base_of(s).subrange(0, TEMP_PREFIX@.len() as int) =~= TEMP_PREFIX@);
}

/// The directories to make for `rel`, from the top down.
pub fn mkdir_steps(rel: &str) -> (r: Vec<String>)
    ensures
        texts(r@) == steps_down(named_segments(split(rel@, '/'))),
{
    let all = chars_of(rel);
    let segs = split_chars(all.as_slice(), '/');
    let ghost parts = char_lists(segs@);
    let mut prefix: Vec<char> = Vec::new();
    let mut out: Vec<String> = Vec::new();
    let mut i: usize = 0;
    proof {
        assert(parts.take(0) =~= Seq::<Seq<char>>::empty());
        assert(texts(out@) =~= steps_down(named_segments(parts.take(0))));
    }
    while i < segs.len()
        invariant
            i <= segs@.len(),
            parts == char_lists(segs@),
            texts(out@) == steps_down(named_segments(parts.take(i as int))),
            prefix@ == way(named_segments(parts.take(i as int))),
        decreases segs@.len() - i,
    {
        let ghost before = named_segments(parts.take(i as int));
        proof {
            assert(parts.take(i as int + 1).drop_last() =~= parts.take(i as int));
            assert(parts.take(i as int + 1).last() == segs@[i as int]@);
        }
        if segs[i].len() > 0 {
            let ghost seg = segs@[i as int]@;
            proof {
                assert(before.push(seg).drop_last() =~= before);
            }
            if prefix.len() > 0 {
                prefix.push('/');
            }
            push_all(&mut prefix, segs[i].as_slice());
            proof {
                assert(prefix@ =~= way(before.push(seg)));
            }
            let step = text_of(prefix.as_slice());
            assert(texts(out@.push(step)) =~= texts(out@).push(step@));
            out.push(step);
        }
        i = i + 1;
    }
    assert(parts.take(parts.len() as int) =~= parts);
    out
}

/// Where to look for `rel`: the directory to list and the name to find there.
pub fn stat_place(rel: &str) -> (r: (String, String))
    ensures
        r.0@ == unslashed(prefix_of(rel@)),
        r.1@ == base_of(rel@),
{
    let (parent, base) = split_parent(rel);
    let v = chars_of(parent);
    let mut n: usize = v.len();
    assert(v@.take(n as int) =~= v@);
    while n > 0 && v[n - 1] == '/'
        invariant
            n <= v@.len(),
            unslashed(v@) == unslashed(v@.take(n as int)),
        decreases n,
    {
        assert(v@.take(n as int).drop_last() =~= v@.take(n as int - 1));
        n = n - 1;
    }
    let dir = slice(v.as_slice(), 0, n);
    assert(dir@ =~= v@.take(n as int));
    (text_of(dir.as_slice()), base.to_owned())
}

/// The error of a report, if any.
pub open spec fn error_parts(e: Option<VfsError>) -> Option<
    (VfsErrorKind, Seq<char>, Option<IoFailure>),
> {
    match e {
        Some(x) => Some((x.kind, x.detail@, x.source)),
        None => None,
    }
}

/// A number of whole seconds, the way a duration is shown.
pub open spec fn seconds_text(secs: u64) -> Seq<char> {
    if secs == 0 {
        "0ns"@
    } else {
        numeral(secs as nat) + "s"@
    }
}

pub fn show_seconds(secs: u64) -> (r: String)
    ensures
        r@ == seconds_text(secs),
{
    if secs == 0 {
        return "0ns".to_owned();
    }
    let mut s = decimal(secs);
    s.append("s");
    s
}

/// The root `display` is asked for something before it is connected.
pub open spec fn unconnected_text(display: Seq<char>) -> Seq<char> {
    "'"@ + display + "' is not connected — connect() must run first"@
}

pub fn unconnected(display: &str) -> (r: VfsError)
    ensures
        r.kind == VfsErrorKind::Transient,
        r.detail@ == unconnected_text(display@),
        r.source is None,
{
    let mut s = "'".to_owned();
    s.append(display);
    s.append("' is not connected — connect() must run first");
    VfsError::new(VfsErrorKind::Transient, s.as_str())
}

/// A stretch of a file, read piece by piece. It is short only at the end of the file.
pub struct RangeRead {
    pub want: usize,
    pub got: Vec<u8>,
}

impl RangeRead {
    pub open spec fn wf(self) -> bool {
        self.got@.len() <= self.want
    }

    pub fn new(want: u32) -> (r: RangeRead)
        ensures
            r.wf(),
            r.want == want,
            r.got@ == Seq::<u8>::empty(),
    {
        RangeRead { want: want as usize, got: Vec::new() }
    }

    /// How many bytes to ask for.
    pub fn missing(&self) -> (r: usize)
        requires
            self.wf(),
        ensures
            r == self.want - self.got@.len(),
    {
        self.want - self.got.len()
    }

    /// Takes the next piece; `true` once there is nothing more to ask for.
    pub fn take(&mut self, piece: &Vec<u8>) -> (r: bool)
        requires
            old(self).wf(),
            piece@.len() <= old(self).want - old(self).got@.len(),
        ensures
            final(self).wf(),
            final(self).want == old(self).want,
            final(self).got@ == old(self).got@ + piece@,
            r == (piece@.len() == 0 || final(self).got@.len() == final(self).want),
    {
        push_bytes(&mut self.got, piece.as_slice());
        piece.len() == 0 || self.got.len() == self.want
    }
}

/// The steps down are the directories of the path, one below the other: each is the one before it and one
/// more segment, and the last is the whole way.
pub proof fn the_steps_go_down_one_by_one(segs: Seq<Seq<char>>)
    requires
        forall|i: int| 0 <= i < segs.len() ==> (#[trigger] segs[i]).len() > 0,
    ensures
        steps_down(segs).len() == segs.len(),
        segs.len() > 0 ==> steps_down(segs)[0] == segs[0] && steps_down(segs).last() == way(segs),
        forall|k: int|
            1 <= k < segs.len() ==> #[trigger] steps_down(segs)[k] == steps_down(segs)[k - 1] + seq!['/']
                + segs[k],
        forall|k: int| 0 <= k < segs.len() ==> (#[trigger] steps_down(segs)[k]).len() > 0,
    decreases segs.len(),
{
    if segs.len() > 0 {
        let less = segs.drop_last();
        assert forall|i: int| 0 <= i < less.len() implies (#[trigger] less[i]).len() > 0 by {
            assert(less[i] == segs[i]);
        }
        the_steps_go_down_one_by_one(less);
        let now = steps_down(segs);
        let before = steps_down(less);
        assert(segs[segs.len() - 1].len() > 0);
        assert forall|k: int| 1 <= k < segs.len() implies #[trigger] now[k] == now[k - 1] + seq!['/'] + segs[k] by {
            if k < less.len() {
                assert(now[k] == before[k] && now[k - 1] == before[k - 1]);
                assert(less[k] == segs[k]);
            } else {
                assert(now[k] == way(segs));
                assert(now[k - 1] == before[k - 1]);
                assert(before.last() == way(less));
                assert(way(less).len() > 0);
            }
        }
        assert forall|k: int| 0 <= k < segs.len() implies (#[trigger] now[k]).len() > 0 by {
            if k < less.len() {
                assert(now[k] == before[k]);
            }
        }
        if less.len() == 0 {
            assert(way(less).len() == 0);
            assert(now[0] == way(segs));
            assert(segs.last() == segs[0]);
        } else {
            assert(now[0] == before[0]);
            assert(less[0] == segs[0]);
        }
    }
}

/// A path has as many named segments as it has pieces that are not empty, and they keep their order.
pub proof fn only_empty_segments_are_dropped(parts: Seq<Seq<char>>, s: Seq<char>)
    ensures
        named_segments(parts).contains(s) <==> parts.contains(s) && s.len() > 0,
        named_segments(parts).len() <= parts.len(),
    decreases parts.len(),
{
    if parts.len() > 0 {
        let less = parts.drop_last();
        let rest = named_segments(less);
        let now = named_segments(parts);
        only_empty_segments_are_dropped(less, s);
        assert(parts =~= less.push(parts.last()));
        assert(parts[less.len() as int] == parts.last());
        if less.contains(s) {
            let k = choose|k: int| 0 <= k < less.len() && less[k] == s;
            assert(parts[k] == s);
        }
        if parts.contains(s) && !less.contains(s) {
            let k = choose|k: int| 0 <= k < parts.len() && parts[k] == s;
            if k < less.len() {
                assert(less[k] == s);
            }
            assert(s == parts.last());
        }
        if rest.contains(s) {
            let k = choose|k: int| 0 <= k < rest.len() && rest[k] == s;
            assert(now[k] == s);
        }
        if now.contains(s) && !rest.contains(s) {
            let k = choose|k: int| 0 <= k < now.len() && now[k] == s;
            if k < rest.len() {
                assert(rest[k] == s);
            }
        }
        if s == parts.last() && s.len() > 0 {
            assert(now[rest.len() as int] == s);
        }
    } else {
        assert(!parts.contains(s));
        assert(!named_segments(parts).contains(s));
    }
}

/// Twenty seconds where nothing is said, or nothing that is a number.
pub proof fn twenty_seconds_by_default(opt: Option<Seq<char>>)
    ensures
        opt is None ==> timeout_of(opt) == 20,
        opt matches Some(t) ==> (parsed(t, u64::MAX as nat) matches Some(n) ==> timeout_of(opt) == n),
        opt matches Some(t) && parsed(t, u64::MAX as nat) is None ==> timeout_of(opt) == 20,
{
}

} // verus!
