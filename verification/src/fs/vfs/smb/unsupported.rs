//! Everywhere else: a share cannot be had, and that is said.
use vstd::prelude::*;
use crate::fs::vfs::error::{is_error, VfsError, VfsErrorKind, VfsResult};
use crate::fs::vfs::spec::RemoteSpec;

verus! {

/// The local path of a share.
pub fn resolve(spec: &RemoteSpec, _share: &str, _sub: &str) -> (r: VfsResult<String>)
    ensures
        r matches Err(e) && is_error(
            e,
            VfsErrorKind::Unsupported,
            "smb translation is implemented for Windows and macOS only (root: "@ + spec@.shown() + ")"@,
        ),
{
    let mut s = "smb translation is implemented for Windows and macOS only (root: ".to_owned();
    s.append(spec.display().as_str());
    s.append(")");
    Err(VfsError::new(VfsErrorKind::Unsupported, s.as_str()))
}

} // verus!
