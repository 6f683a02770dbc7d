//! Runs of bytes.
use vstd::prelude::*;

verus! {

/// Appends every byte of `more`.
pub fn push_bytes(out: &mut Vec<u8>, more: &[u8])
    ensures
        final(out)@ == old(out)@ + more@,
{
    let ghost before = out@;
    out.extend_from_slice(more);
    assert(out@ =~= before + more@);
}

/// `buf` with `data` laid over it at `off`, filled with zeros up to there.
pub open spec fn patched(buf: Seq<u8>, off: int, data: Seq<u8>) -> Seq<u8> {
    Seq::new(
        if buf.len() < off + data.len() {
            (off + data.len()) as nat
        } else {
            buf.len()
        },
        |i: int|
            if off <= i < off + data.len() {
                data[i - off]
            } else if i < buf.len() {
                buf[i]
            } else {
                0u8
            },
    )
}

/// Lays `data` over `buf` at `off`.
pub fn patch(buf: &mut Vec<u8>, off: usize, data: &[u8])
    requires
        off + data@.len() <= usize::MAX,
    ensures
        final(buf)@ == patched(old(buf)@, off as int, data@),
{
    let ghost before = buf@;
    let end: usize = off + data.len();
    while buf.len() < end
        invariant
            end == off + data@.len(),
            buf@.len() >= before.len(),
            buf@.len() <= before.len() || buf@.len() <= end,
            forall|i: int|
                0 <= i < buf@.len() ==> #[trigger] buf@[i] == if i < before.len() {
                    before[i]
                } else {
                    0u8
                },
        decreases end - buf@.len(),
    {
        buf.push(0);
    }
    let ghost filled = buf@;
    let mut i: usize = 0;
    while i < data.len()
        invariant
            i <= data@.len(),
            end == off + data@.len(),
            end <= buf@.len(),
            buf@.len() == filled.len(),
            forall|j: int|
                0 <= j < buf@.len() ==> #[trigger] buf@[j] == if off <= j < off + i {
                    data@[j - off]
                } else {
                    filled[j]
                },
        decreases data@.len() - i,
    {
        buf.set(off + i, data[i]);
        i = i + 1;
    }
    assert(buf@ =~= patched(before, off as int, data@));
}

/// What was laid over is there, what lies before and behind stays, and a gap is filled with zeros.
pub proof fn a_patch_changes_only_its_place(buf: Seq<u8>, off: nat, data: Seq<u8>, i: int)
    requires
        0 <= i < patched(buf, off as int, data).len(),
    ensures
        patched(buf, off as int, data).subrange(off as int, (off + data.len()) as int) == data,
        i < off && i < buf.len() ==> patched(buf, off as int, data)[i] == buf[i],
        i >= off + data.len() ==> i < buf.len() && patched(buf, off as int, data)[i] == buf[i],
        buf.len() <= i < off ==> patched(buf, off as int, data)[i] == 0,
        patched(buf, off as int, data).len() >= buf.len(),
{
    assert(patched(buf, off as int, data).subrange(off as int, (off + data.len()) as int) =~= data);
}

/// Two pieces, one behind the other, are the one piece that they make up.
pub proof fn patches_add_up(buf: Seq<u8>, off: nat, a: Seq<u8>, b: Seq<u8>)
    ensures
        patched(patched(buf, off as int, a), (off + a.len()) as int, b) == patched(buf, off as int, a + b),
{
    assert(patched(patched(buf, off as int, a), (off + a.len()) as int, b) =~= patched(buf, off as int, a + b));
}

} // verus!
