//! How many worker threads a process uses.
use vstd::prelude::*;
use crate::strings::{chars_of, parse_decimal, parsed};

verus! {

/// The number asked for, at least one and at most 64; `None` where no such number is asked for.
pub open spec fn worker_limit(value: Option<Seq<char>>) -> Option<nat> {
    match value {
        Some(v) => match parsed(v, usize::MAX as nat) {
            Some(n) => if n < 1 {
                None
            } else if n > 64 {
                Some(64)
            } else {
                Some(n)
            },
            None => None,
        },
        None => None,
    }
}

/// The limit that the value of `SYNCDASH_SCAN_THREADS` sets.
pub fn configured_worker_limit(value: Option<&str>) -> (r: Option<usize>)
    ensures
        worker_limit(
            match value {
                Some(v) => Some(v@),
                None => None,
            },
        ) == (match r {
            Some(n) => Some(n as nat),
            None => None,
        }),
{
    match value {
        Some(v) => match parse_decimal(chars_of(v).as_slice(), usize::MAX as u64) {
            Some(n) => if n < 1 {
                None
            } else if n > 64 {
                Some(64)
            } else {
                Some(n as usize)
            },
            None => None,
        },
        None => None,
    }
}

} // verus!
