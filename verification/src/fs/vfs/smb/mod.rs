//! The SMB backend: a phrase becomes a path that the operating system's own client serves, and
//! everything else is the local backend on that path.
use vstd::prelude::*;
use vstd::utf8::is_ascii_chars;
use crate::foundation::text::ascii_lowered;
use crate::foundation::path::joinable;
use crate::fs::vfs::error::{is_error, Os, VfsError, VfsErrorKind, VfsResult};
use crate::fs::vfs::local::{caps_on, local_caps, unknown_volume, LocalVfs, Volume};
use crate::fs::vfs::remote::{unconnected, unconnected_text};
use crate::fs::vfs::spec::RemoteSpec;
use crate::fs::vfs::VfsCaps;
use crate::strings::{chars_of, find, first_index, lemma_first_index, slice, text_of};
use crate::table::opt_text;

pub mod basic_info;
pub mod macos;
pub mod unsupported;
pub mod windows;

verus! {

/// The share: the first segment of the phrase's root.
pub open spec fn share_of(root: Seq<char>) -> Seq<char> {
    root.take(first_index(root, '/'))
}

/// The path below the share.
pub open spec fn sub_of(root: Seq<char>) -> Seq<char> {
    let i = first_index(root, '/');
    if i >= root.len() {
        Seq::empty()
    } else {
        root.skip(i + 1)
    }
}

pub struct SmbBackend {
    pub spec: RemoteSpec,
    pub share: String,
    pub sub: String,
    pub os: Os,
    /// The path that the system serves the root at; known once connected.
    pub inner: Option<LocalVfs>,
}

pub open spec fn no_share_text(shown: Seq<char>) -> Seq<char> {
    "'"@ + shown + "' names no share — an smb root needs at least smb://host/share"@
}

/// The capabilities of the local path, under the backend's own name.
pub open spec fn smb_caps(local: VfsCaps, c: VfsCaps) -> bool {
    &&& c.protocol@ == "smb"@
    &&& c == (VfsCaps { protocol: c.protocol, ..local })
}

impl SmbBackend {
    /// A root without a share is refused.
    pub fn new(spec: RemoteSpec, os: Os) -> (r: VfsResult<SmbBackend>)
        ensures
            if share_of(spec.root@).len() == 0 {
                r matches Err(e) && is_error(
                    e,
                    VfsErrorKind::Protocol,
                    no_share_text(spec@.shown()),
                )
            } else {
                r matches Ok(b) && b.spec == spec && b.share@ == share_of(spec.root@) && b.sub@ == sub_of(
                    spec.root@,
                ) && b.os == os && b.inner is None
            },
    {
        let root = chars_of(spec.root.as_str());
        proof {
            lemma_first_index(root@, '/');
        }
        let n = root.len();
        let (share, sub) = match find(root.as_slice(), '/') {
            Some(i) => (slice(root.as_slice(), 0, i), slice(root.as_slice(), i + 1, n)),
            None => (slice(root.as_slice(), 0, n), Vec::new()),
        };
        assert(share@ =~= share_of(root@));
        assert(sub@ =~= sub_of(root@));
        if share.len() == 0 {
            let mut s = "'".to_owned();
            s.append(spec.display().as_str());
            s.append("' names no share — an smb root needs at least smb://host/share");
            return Err(VfsError::new(VfsErrorKind::Protocol, s.as_str()));
        }
        Ok(
            SmbBackend {
                spec,
                share: text_of(share.as_slice()),
                sub: text_of(sub.as_slice()),
                os,
                inner: None,
            },
        )
    }

    /// The local path of `rel`. Nothing can be asked before the root is connected.
    pub fn path_of(&self, rel: &str) -> (r: VfsResult<String>)
        requires
            joinable(rel@, self.os == Os::Windows),
            self.inner matches Some(l) ==> l.os == self.os,
        ensures
            match self.inner {
                Some(l) => r matches Ok(p) && p@ == l.path_of(rel@),
                None => r matches Err(e) && is_error(
                    e,
                    VfsErrorKind::Transient,
                    unconnected_text(self.spec@.shown()),
                ),
            },
    {
        match &self.inner {
            Some(l) => Ok(l.abs(rel)),
            None => Err(unconnected(self.spec.display().as_str())),
        }
    }

    pub fn caps(&self) -> (r: VfsCaps)
        ensures
            exists|local: VfsCaps|
                #![trigger smb_caps(local, r)]
                smb_caps(local, r) && match self.inner {
                    Some(l) => local_caps(
                        match l.vol {
                            Some(v) => v@,
                            None => unknown_volume(),
                        },
                        l.os,
                        local,
                    ),
                    None => local_caps(unknown_volume(), self.os, local),
                },
    {
        let local = match &self.inner {
            Some(l) => l.caps(),
            None => caps_on(&Volume::unknown(), self.os),
        };
        let ghost before = local;
        let mut c = local;
        c.protocol = "smb";
        assert(smb_caps(before, c));
        c
    }

    pub fn display(&self) -> (r: String)
        ensures
            r@ == self.spec@.shown(),
    {
        self.spec.display()
    }

    pub fn identity(&self) -> (r: String)
        ensures
            r@ == self.spec@.canonical(),
            is_ascii_chars(self.spec.host@) ==> r@ == self.spec@.canonical_at(
                ascii_lowered(self.spec.host@),
            ),
    {
        self.spec.identity()
    }

    /// The local path of the root, once connected.
    pub fn as_local(&self) -> (r: Option<String>)
        ensures
            opt_text(r) == match self.inner {
                Some(l) => Some(l.root@),
                None => None,
            },
    {
        match &self.inner {
            Some(l) => Some(l.root.clone()),
            None => None,
        }
    }

    /// One line about where the root is served.
    pub fn server_info(&self) -> (r: Option<String>)
        ensures
            opt_text(r) == match self.inner {
                Some(l) => Some("os-translated: "@ + l.root@),
                None => None,
            },
    {
        match &self.inner {
            Some(l) => {
                let mut s = "os-translated: ".to_owned();
                s.append(l.root.as_str());
                Some(s)
            },
            None => None,
        }
    }

    pub open spec fn unreadable_text(self, root: Seq<char>, error: Seq<char>) -> Seq<char> {
        "'"@ + self.spec@.shown() + "' resolved to '"@ + root + "' but it is not readable: "@ + error
    }

    pub open spec fn not_dir_text(self, root: Seq<char>) -> Seq<char> {
        "'"@ + self.spec@.shown() + "' resolved to '"@ + root + "', which is not a directory"@
    }

    /// Takes the path that the share resolved to and what stands there: whether it is a directory, or
    /// why it cannot be read. What was once connected stays.
    pub fn settle(&mut self, root: &str, found: Result<bool, String>) -> (r: VfsResult<()>)
        ensures
            final(self).spec == old(self).spec,
            final(self).share == old(self).share,
            final(self).sub == old(self).sub,
            final(self).os == old(self).os,
            match old(self).inner {
                Some(_) => r is Ok && final(self).inner == old(self).inner,
                None => match found {
                    Err(t) => final(self).inner is None && (r matches Err(e) && is_error(
                        e,
                        VfsErrorKind::Transient,
                        old(self).unreadable_text(root@, t@),
                    )),
                    Ok(dir) => if dir {
                        r is Ok && (final(self).inner matches Some(l) && l.root@ == root@ && l.os == old(
                            self,
                        ).os && l.vol is None)
                    } else {
                        final(self).inner is None && (r matches Err(e) && is_error(
                            e,
                            VfsErrorKind::Protocol,
                            old(self).not_dir_text(root@),
                        ))
                    },
                },
            },
    {
        if self.inner.is_some() {
            return Ok(());
        }
        let mut s = "'".to_owned();
        s.append(self.spec.display().as_str());
        s.append("' resolved to '");
        s.append(root);
        match found {
            Err(t) => {
                s.append("' but it is not readable: ");
                s.append(t.as_str());
                Err(VfsError::new(VfsErrorKind::Transient, s.as_str()))
            },
            Ok(dir) => {
                if dir {
                    self.inner = Some(LocalVfs::new(root, self.os));
                    Ok(())
                } else {
                    s.append("', which is not a directory");
                    Err(VfsError::new(VfsErrorKind::Protocol, s.as_str()))
                }
            },
        }
    }
}

/// A root is its share, a slash and the path below the share; without a slash it is all share.
pub proof fn a_root_is_its_share_and_the_rest(share: Seq<char>, sub: Seq<char>)
    requires
        forall|i: int| 0 <= i < share.len() ==> #[trigger] share[i] != '/',
    ensures
        share_of(share.push('/') + sub) == share,
        sub_of(share.push('/') + sub) == sub,
        share_of(share) == share,
        sub_of(share).len() == 0,
{
    let root = share.push('/') + sub;
    assert forall|j: int| 0 <= j < share.len() implies root[j] != '/' by {
        assert(root[j] == share[j]);
    }
    crate::strings::lemma_first_index_is(root, '/', share.len() as int);
    assert(root.take(share.len() as int) =~= share);
    assert(root.skip(share.len() as int + 1) =~= sub);
    crate::strings::lemma_first_index_is(share, '/', share.len() as int);
    assert(share.take(share.len() as int) =~= share);
}

} // verus!
