//! What the filesystem is asked, and what its answers mean.
use vstd::prelude::*;
use crate::fs::vfs::error::{IoKind, Os};

pub mod local_root;
pub mod lock;
pub mod ssh;
pub mod staged;
pub mod vfs;
pub mod watch;

verus! {

/// A refused removal or rename is worth another try once the read-only attribute is cleared: only on
/// Windows, where that attribute is the cause, and never through a symlink, whose target would be
/// changed instead.
pub open spec fn clearing_helps(os: Os, kind: IoKind, symlink: bool) -> bool {
    os == Os::Windows && kind == IoKind::PermissionDenied && !symlink
}

/// Whether to clear the read-only attribute and try again.
pub fn retry_cleared(os: Os, kind: IoKind, symlink: bool) -> (r: bool)
    ensures
        r == clearing_helps(os, kind, symlink),
{
    os == Os::Windows && kind == IoKind::PermissionDenied && !symlink
}

/// On unix a refusal stands as it is: no permission is ever widened.
pub proof fn unix_permissions_are_left_alone(os: Os, kind: IoKind, symlink: bool)
    requires
        os != Os::Windows,
    ensures
        !clearing_helps(os, kind, symlink),
{
}

/// On Windows a refusal of access is met by clearing the attribute, except through a symlink; no other
/// failure is.
pub proof fn only_a_refusal_is_met_by_clearing(kind: IoKind, symlink: bool)
    ensures
        clearing_helps(Os::Windows, IoKind::PermissionDenied, false),
        symlink ==> !clearing_helps(Os::Windows, kind, symlink),
        kind != IoKind::PermissionDenied ==> !clearing_helps(Os::Windows, kind, symlink),
{
}

} // verus!
