//! Atomic writes: everything lands in a temp file beside its destination and is renamed over it.
use vstd::prelude::*;
use crate::foundation::names::TEMP_PREFIX;
use crate::foundation::path::{base_name, base_of};
use crate::strings::{chars_of, starts_with};

verus! {

/// The name of a temp file.
pub open spec fn temp_name(name: Seq<char>) -> bool {
    TEMP_PREFIX@.is_prefix_of(name)
}

/// A path whose last segment is the name of a temp file.
pub open spec fn temp_rel(rel: Seq<char>) -> bool {
    temp_name(base_of(rel))
}

/// Whether a file name, without directory, is one of our temp files.
pub fn is_temp_name(file_name: &str) -> (r: bool)
    ensures
        r == temp_name(file_name@),
{
    let s = chars_of(file_name);
    let p = chars_of(TEMP_PREFIX);
    starts_with(s.as_slice(), p.as_slice())
}

/// Whether the last segment of a table path is a temp file.
pub fn is_temp_rel(rel: &str) -> (r: bool)
    ensures
        r == temp_rel(rel@),
{
    is_temp_name(base_name(rel))
}

/// A temp file older than this is what an interrupted run left behind.
pub const TEMP_LIFETIME_MS: i64 = crate::foundation::names::TEMP_LIFETIME_MS;

/// A temp file whose modification time is known and long past.
pub open spec fn stale_temp(name: Seq<char>, mtime_ms: Option<i64>, now_ms: i64) -> bool {
    temp_name(name) && (mtime_ms matches Some(t) && now_ms - t > TEMP_LIFETIME_MS)
}

/// Whether a file is a leftover that can be swept away.
pub fn is_stale_temp(name: &str, mtime_ms: Option<i64>, now_ms: i64) -> (r: bool)
    ensures
        r == stale_temp(name@, mtime_ms, now_ms),
{
    match mtime_ms {
        Some(t) => is_temp_name(name) && now_ms as i128 - t as i128 > TEMP_LIFETIME_MS as i128,
        None => false,
    }
}

/// Only what is a temp file by its own name, at whatever depth, and was last written more than a day ago is
/// swept away; a file whose time is not known stays.
pub proof fn only_old_temp_files_are_swept(dir: Seq<char>, name: Seq<char>, mtime_ms: Option<i64>, now_ms: i64)
    requires
        forall|i: int| 0 <= i < name.len() ==> #[trigger] name[i] != '/',
    ensures
        stale_temp(name, mtime_ms, now_ms) <==> temp_name(name) && mtime_ms is Some && now_ms
            - mtime_ms->0 > 24 * 60 * 60 * 1000,
        temp_rel(name) == temp_name(name),
        temp_rel(dir.push('/') + name) == temp_name(name),
{
    crate::foundation::path::a_child_is_below_its_parent(dir, name);
}

} // verus!
