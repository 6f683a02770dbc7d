//! The times of SMB's basic file information: 100 ns ticks since 1601, where zero does not mean zero.
use vstd::prelude::*;
use vstd::bytes::{
    lemma_auto_spec_u64_to_from_le_bytes, spec_u64_from_le_bytes, spec_u64_to_le_bytes, u64_to_le_bytes,
};
use crate::bytes::push_bytes;

verus! {

/// Ticks between the Windows epoch and the Unix epoch.
pub const EPOCH_DIFF_100NS: i64 = 116_444_736_000_000_000;

pub const TICKS_PER_MS: i64 = 10_000;

/// Four times of 8 bytes and two words of 4.
pub const FILE_BASIC_INFORMATION_LEN: usize = 40;

/// The number of this class of file information.
pub const FILE_BASIC_INFORMATION: u8 = 4;

/// The ticks of an instant. What is too late to be carried goes to the latest instant. The Windows
/// epoch and everything before it go to the first tick: zero would mean "leave as it is".
pub open spec fn ticks_of(ms: i64) -> int {
    let t = ms * TICKS_PER_MS + EPOCH_DIFF_100NS;
    if t < 1 {
        1
    } else if t > i64::MAX {
        i64::MAX as int
    } else {
        t
    }
}

/// Unix milliseconds to ticks.
pub fn filetime_from_unix_ms(ms: i64) -> (r: u64)
    ensures
        r == ticks_of(ms),
{
    let t: i128 = ms as i128 * 10_000 + EPOCH_DIFF_100NS as i128;
    if t < 1 {
        1
    } else if t > i64::MAX as i128 {
        i64::MAX as u64
    } else {
        t as u64
    }
}

/// The instant of ticks, rounded down to the millisecond.
pub open spec fn millis_of(ticks: u64) -> int {
    let t = if ticks <= i64::MAX {
        ticks as int
    } else {
        i64::MAX as int
    };
    (t - EPOCH_DIFF_100NS) / (TICKS_PER_MS as int)
}

/// Ticks to Unix milliseconds.
pub fn unix_ms_from_filetime(ticks: u64) -> (r: i64)
    ensures
        r == millis_of(ticks),
{
    let t: i64 = if ticks <= i64::MAX as u64 {
        ticks as i64
    } else {
        i64::MAX
    };
    let d: i64 = t - EPOCH_DIFF_100NS;
    if d >= 0 {
        d / 10_000
    } else {
        let p: i64 = -(d + 1);
        let q: i64 = p / 10_000;
        proof {
            let rest: int = 9_999 - p % 10_000;
            vstd::arithmetic::div_mod::lemma_fundamental_div_mod_converse(
                d as int,
                10_000,
                -q - 1,
                rest,
            );
        }
        -q - 1
    }
}

pub open spec fn blank(n: nat) -> Seq<u8> {
    Seq::new(n, |i: int| 0u8)
}

/// The bytes that set the write time and nothing else: what is zero is left as it is.
pub open spec fn write_time_bytes(ticks: u64) -> Seq<u8> {
    blank(16) + spec_u64_to_le_bytes(ticks) + blank(16)
}

fn push_blank(out: &mut Vec<u8>, n: usize)
    ensures
        final(out)@ == old(out)@ + blank(n as nat),
{
    let mut i: usize = 0;
    assert(out@ =~= old(out)@ + blank(0));
    while i < n
        invariant
            i <= n,
            out@ == old(out)@ + blank(i as nat),
        decreases n - i,
    {
        out.push(0);
        i = i + 1;
        assert(out@ =~= old(out)@ + blank(i as nat));
    }
}

/// The buffer that sets the write time and nothing else.
pub fn set_write_time_buffer(ticks: u64) -> (r: Vec<u8>)
    ensures
        r@ == write_time_bytes(ticks),
        r@.len() == FILE_BASIC_INFORMATION_LEN,
{
    let mut b: Vec<u8> = Vec::new();
    push_blank(&mut b, 16);
    let t = u64_to_le_bytes(ticks);
    proof {
        lemma_auto_spec_u64_to_from_le_bytes();
    }
    push_bytes(&mut b, t.as_slice());
    push_blank(&mut b, 16);
    assert(b@ =~= write_time_bytes(ticks));
    b
}

/// No instant is ever written as the zero that means "leave as it is".
pub proof fn no_time_is_left_alone(ms: i64)
    ensures
        ticks_of(ms) >= 1,
        ticks_of(ms) <= i64::MAX,
{
}

/// The Windows epoch and every instant before it become the first tick.
pub proof fn early_instants_become_the_first_tick(ms: i64)
    requires
        ms * TICKS_PER_MS + EPOCH_DIFF_100NS <= 0,
    ensures
        ticks_of(ms) == 1,
{
}

/// Every instant after the Windows epoch that the ticks can carry comes back as it was.
pub proof fn instants_survive_the_round_trip(ms: i64)
    requires
        1 <= ms * TICKS_PER_MS + EPOCH_DIFF_100NS <= i64::MAX,
    ensures
        millis_of(ticks_of(ms) as u64) == ms,
{
    vstd::arithmetic::div_mod::lemma_fundamental_div_mod_converse(
        ms * TICKS_PER_MS,
        TICKS_PER_MS as int,
        ms as int,
        0,
    );
}

/// The write time can be read from the buffer, where it stands behind two times that are left alone;
/// everything else is zero.
pub proof fn only_the_write_time_is_set(ticks: u64)
    ensures
        spec_u64_from_le_bytes(write_time_bytes(ticks).subrange(16, 24)) == ticks,
        forall|i: int|
            0 <= i < 16 || 24 <= i < 40 ==> #[trigger] write_time_bytes(ticks)[i] == 0u8,
{
    lemma_auto_spec_u64_to_from_le_bytes();
    assert(write_time_bytes(ticks).subrange(16, 24) =~= spec_u64_to_le_bytes(ticks));
}

} // verus!
