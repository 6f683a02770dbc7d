//! The local backend: what is known of the volume that a root sits on, and what the answers of the
//! operating system mean.
use vstd::prelude::*;
use crate::foundation::path::{join_native, joinable, joined};
use crate::foundation::text::{ascii_lowered, to_ascii_lower, upper_char};
use crate::foundation::time::file_time_ms;
use crate::fs::vfs::error::{
    classified, is_error, Errnos, IoFailure, IoKind, Os, VfsError, VfsErrorKind, VfsResult,
};
use crate::fs::vfs::{
    listed, CaseSense, CommitReport, Medium, MetaModel, NameRules, Support, VDirEntry, VMeta, VfsCaps,
    WriteHint,
};
use crate::strings::{
    ascii_alpha, ascii_lower, char_lists, chars_of, decimal, lemma_numeral_digits, numeral, push_all,
    replace_char, replaced, same, slice, split, split_chars, starts_with, text_of,
};
use crate::table::{opt_text, EntryKind};

verus! {

/// What the operating system said of a volume. What is unknown was asked and not answered.
#[derive(Debug, PartialEq, Eq)]
pub struct Volume {
    pub medium: Medium,
    /// The filesystem's name as the system spells it; empty where there is none.
    pub fs_name: String,
    pub case_sensitivity: CaseSense,
}

pub struct VolumeModel {
    pub medium: Medium,
    pub fs_name: Seq<char>,
    pub case_sensitivity: CaseSense,
}

impl View for Volume {
    type V = VolumeModel;

    open spec fn view(&self) -> VolumeModel {
        VolumeModel {
            medium: self.medium,
            fs_name: self.fs_name@,
            case_sensitivity: self.case_sensitivity,
        }
    }
}

pub open spec fn unknown_volume() -> VolumeModel {
    VolumeModel {
        medium: Medium::Unknown,
        fs_name: Seq::empty(),
        case_sensitivity: CaseSense::Unknown,
    }
}

impl Volume {
    /// A volume of which nothing is known.
    pub fn unknown() -> (r: Volume)
        ensures
            r@ == unknown_volume(),
    {
        Volume {
            medium: Medium::Unknown,
            fs_name: String::new(),
            case_sensitivity: CaseSense::Unknown,
        }
    }

    pub fn copy(&self) -> (r: Volume)
        ensures
            r@ == self@,
    {
        Volume {
            medium: self.medium,
            fs_name: self.fs_name.clone(),
            case_sensitivity: self.case_sensitivity,
        }
    }
}

/// Filesystems that store times in steps of two seconds.
pub open spec fn fat_fs(s: Seq<char>) -> bool {
    ||| s == "fat"@
    ||| s == "fat12"@
    ||| s == "fat16"@
    ||| s == "fat32"@
    ||| s == "msdos"@
    ||| s == "vfat"@
}

fn is_fat_fs(s: &str) -> (r: bool)
    ensures
        r == fat_fs(s@),
{
    same(s, "fat")
        || same(s, "fat12")
        || same(s, "fat16")
        || same(s, "fat32")
        || same(s, "msdos")
        || same(s, "vfat")
}

/// Filesystems that are reached over a network.
pub open spec fn network_fs(s: Seq<char>) -> bool {
    ||| s == "smbfs"@
    ||| s == "cifs"@
    ||| s == "smb2"@
    ||| s == "smb3"@
    ||| s == "nfs"@
    ||| s == "nfs4"@
    ||| s == "afpfs"@
    ||| s == "webdav"@
    ||| s == "ftp"@
    ||| s == "sshfs"@
    ||| s == "davfs"@
    ||| s == "9p"@
}

fn is_network_fs(s: &str) -> (r: bool)
    ensures
        r == network_fs(s@),
{
    same(s, "smbfs")
        || same(s, "cifs")
        || same(s, "smb2")
        || same(s, "smb3")
        || same(s, "nfs")
        || same(s, "nfs4")
        || same(s, "afpfs")
        || same(s, "webdav")
        || same(s, "ftp")
        || same(s, "sshfs")
        || same(s, "davfs")
        || same(s, "9p")
}

/// Filesystems of disks.
pub open spec fn disk_fs(s: Seq<char>) -> bool {
    ||| s == "ntfs"@
    ||| s == "ntfs3"@
    ||| s == "refs"@
    ||| s == "apfs"@
    ||| s == "hfs"@
    ||| s == "hfsplus"@
    ||| s == "ext2"@
    ||| s == "ext3"@
    ||| s == "ext4"@
    ||| s == "btrfs"@
    ||| s == "xfs"@
    ||| s == "zfs"@
    ||| s == "f2fs"@
    ||| s == "jfs"@
    ||| s == "reiserfs"@
    ||| s == "tmpfs"@
    ||| s == "overlay"@
    ||| s == "msdos"@
    ||| s == "vfat"@
    ||| s == "exfat"@
    ||| s == "fat"@
    ||| s == "fat32"@
}

fn is_disk_fs(s: &str) -> (r: bool)
    ensures
        r == disk_fs(s@),
{
    same(s, "ntfs")
        || same(s, "ntfs3")
        || same(s, "refs")
        || same(s, "apfs")
        || same(s, "hfs")
        || same(s, "hfsplus")
        || same(s, "ext2")
        || same(s, "ext3")
        || same(s, "ext4")
        || same(s, "btrfs")
        || same(s, "xfs")
        || same(s, "zfs")
        || same(s, "f2fs")
        || same(s, "jfs")
        || same(s, "reiserfs")
        || same(s, "tmpfs")
        || same(s, "overlay")
        || same(s, "msdos")
        || same(s, "vfat")
        || same(s, "exfat")
        || same(s, "fat")
        || same(s, "fat32")
}

/// Filesystems that tell upper from lower case.
pub open spec fn sensitive_fs(s: Seq<char>) -> bool {
    ||| s == "ext2"@
    ||| s == "ext3"@
    ||| s == "ext4"@
    ||| s == "btrfs"@
    ||| s == "xfs"@
    ||| s == "zfs"@
    ||| s == "f2fs"@
    ||| s == "jfs"@
    ||| s == "reiserfs"@
    ||| s == "tmpfs"@
    ||| s == "overlay"@
}

fn is_sensitive_fs(s: &str) -> (r: bool)
    ensures
        r == sensitive_fs(s@),
{
    same(s, "ext2")
        || same(s, "ext3")
        || same(s, "ext4")
        || same(s, "btrfs")
        || same(s, "xfs")
        || same(s, "zfs")
        || same(s, "f2fs")
        || same(s, "jfs")
        || same(s, "reiserfs")
        || same(s, "tmpfs")
        || same(s, "overlay")
}

/// Filesystems that do not.
pub open spec fn insensitive_fs(s: Seq<char>) -> bool {
    ||| s == "msdos"@
    ||| s == "vfat"@
    ||| s == "exfat"@
    ||| s == "fat"@
    ||| s == "fat32"@
    ||| s == "refs"@
}

fn is_insensitive_fs(s: &str) -> (r: bool)
    ensures
        r == insensitive_fs(s@),
{
    same(s, "msdos")
        || same(s, "vfat")
        || same(s, "exfat")
        || same(s, "fat")
        || same(s, "fat32")
        || same(s, "refs")
}


/// The granularity of the times that a filesystem stores, in milliseconds.
pub open spec fn precision_of(fs_name: Seq<char>) -> u32 {
    let s = ascii_lowered(fs_name);
    if fat_fs(s) {
        2000
    } else if s == "exfat"@ {
        10
    } else {
        1
    }
}

pub fn mtime_precision_for(fs_name: &str) -> (r: u32)
    ensures
        r == precision_of(fs_name@),
{
    let low = to_ascii_lower(chars_of(fs_name).as_slice());
    let s = text_of(low.as_slice());
    if is_fat_fs(s.as_str()) {
        2000
    } else if same(s.as_str(), "exfat") {
        10
    } else {
        1
    }
}

/// The medium that a filesystem's name tells of. A name that could be either tells nothing.
pub open spec fn medium_of(fs_name: Seq<char>) -> Medium {
    let s = ascii_lowered(fs_name);
    if network_fs(s) {
        Medium::NetworkShare
    } else if disk_fs(s) {
        Medium::FixedDisk
    } else {
        Medium::Unknown
    }
}

pub fn medium_for_fs(fs_name: &str) -> (r: Medium)
    ensures
        r == medium_of(fs_name@),
{
    let low = to_ascii_lower(chars_of(fs_name).as_slice());
    let s = text_of(low.as_slice());
    if is_network_fs(s.as_str()) {
        Medium::NetworkShare
    } else if is_disk_fs(s.as_str()) {
        Medium::FixedDisk
    } else {
        Medium::Unknown
    }
}

/// Case sensitivity, where a filesystem's name settles it. Some can be formatted either way.
pub open spec fn case_of(fs_name: Seq<char>) -> CaseSense {
    let s = ascii_lowered(fs_name);
    if sensitive_fs(s) {
        CaseSense::Sensitive
    } else if insensitive_fs(s) {
        CaseSense::Insensitive
    } else {
        CaseSense::Unknown
    }
}

pub fn case_for_fs(fs_name: &str) -> (r: CaseSense)
    ensures
        r == case_of(fs_name@),
{
    let low = to_ascii_lower(chars_of(fs_name).as_slice());
    let s = text_of(low.as_slice());
    if is_sensitive_fs(s.as_str()) {
        CaseSense::Sensitive
    } else if is_insensitive_fs(s.as_str()) {
        CaseSense::Insensitive
    } else {
        CaseSense::Unknown
    }
}

/// Whether the central trash can take the deletions of a root: only where that does not fetch every
/// deleted file over a network first.
pub open spec fn reaches(medium: Medium) -> bool {
    medium == Medium::FixedDisk || medium == Medium::RemovableDisk
}

pub fn trash_reaches(medium: Medium) -> (r: bool)
    ensures
        r == reaches(medium),
{
    medium == Medium::FixedDisk || medium == Medium::RemovableDisk
}

/// The volume that a Windows path is on.
#[derive(Debug, PartialEq, Eq)]
pub enum WinRoot {
    /// `D:\`: what kind of drive it is has to be asked.
    Drive(String),
    /// `\\host\share\`: a network share by its spelling.
    Share(String),
    Unknown,
}

pub enum WinRootModel {
    Drive(Seq<char>),
    Share(Seq<char>),
    Unknown,
}

impl View for WinRoot {
    type V = WinRootModel;

    open spec fn view(&self) -> WinRootModel {
        match *self {
            WinRoot::Drive(s) => WinRootModel::Drive(s@),
            WinRoot::Share(s) => WinRootModel::Share(s@),
            WinRoot::Unknown => WinRootModel::Unknown,
        }
    }
}

/// A path without the prefix that lifts the length limit, which names the same volumes.
pub open spec fn plain_win(path: Seq<char>) -> Seq<char> {
    let s = replaced(path, '/', '\\');
    if "\\\\?\\UNC\\"@.is_prefix_of(s) {
        "\\\\"@ + s.skip("\\\\?\\UNC\\"@.len() as int)
    } else if "\\\\?\\"@.is_prefix_of(s) {
        s.skip("\\\\?\\"@.len() as int)
    } else {
        s
    }
}

pub open spec fn win_root(path: Seq<char>) -> WinRootModel {
    let s = plain_win(path);
    if "\\\\"@.is_prefix_of(s) {
        let parts = split(s.skip("\\\\"@.len() as int), '\\');
        if parts.len() < 2 || parts[0].len() == 0 || parts[1].len() == 0 {
            WinRootModel::Unknown
        } else {
            WinRootModel::Share("\\\\"@ + parts[0] + "\\"@ + parts[1] + "\\"@)
        }
    } else if s.len() >= 2 && ascii_alpha(s[0]) && s[1] == ':' {
        WinRootModel::Drive(seq![upper_char(s[0])] + ":\\"@)
    } else {
        WinRootModel::Unknown
    }
}

fn strip_win(path: &str) -> (r: Vec<char>)
    ensures
        r@ == plain_win(path@),
{
    let all = chars_of(path);
    let s = replace_char(all.as_slice(), '/', '\\');
    let unc = chars_of("\\\\?\\UNC\\");
    let long = chars_of("\\\\?\\");
    if starts_with(s.as_slice(), unc.as_slice()) {
        let mut out = chars_of("\\\\");
        let rest = slice(s.as_slice(), unc.len(), s.len());
        assert(rest@ =~= s@.skip(unc@.len() as int));
        push_all(&mut out, rest.as_slice());
        out
    } else if starts_with(s.as_slice(), long.as_slice()) {
        let rest = slice(s.as_slice(), long.len(), s.len());
        assert(rest@ =~= s@.skip(long@.len() as int));
        rest
    } else {
        s
    }
}

/// The root of the volume that a path is on, as the system's volume calls want it.
pub fn win_root_of(path: &str) -> (r: WinRoot)
    ensures
        r@ == win_root(path@),
{
    let s = strip_win(path);
    let share = chars_of("\\\\");
    if starts_with(s.as_slice(), share.as_slice()) {
        let rest = slice(s.as_slice(), share.len(), s.len());
        assert(rest@ =~= s@.skip(share@.len() as int));
        let parts = split_chars(rest.as_slice(), '\\');
        let ghost lists = char_lists(parts@);
        if parts.len() < 2 {
            return WinRoot::Unknown;
        }
        assert(lists[0] == parts@[0]@ && lists[1] == parts@[1]@);
        if parts[0].len() == 0 || parts[1].len() == 0 {
            return WinRoot::Unknown;
        }
        let mut out = "\\\\".to_owned();
        out.append(text_of(parts[0].as_slice()).as_str());
        out.append("\\");
        out.append(text_of(parts[1].as_slice()).as_str());
        out.append("\\");
        return WinRoot::Share(out);
    }
    if s.len() >= 2 && s[1] == ':' {
        let c = s[0];
        if ('a' <= c && c <= 'z') || ('A' <= c && c <= 'Z') {
            let up = if 'a' <= c && c <= 'z' {
                (c as u8 - 32) as char
            } else {
                c
            };
            let mut head: Vec<char> = Vec::new();
            head.push(up);
            assert(head@ =~= seq![upper_char(c)]);
            let mut out = text_of(head.as_slice());
            out.append(":\\");
            return WinRoot::Drive(out);
        }
    }
    WinRoot::Unknown
}

/// The medium that Windows' number for a kind of drive stands for. Removable, fixed, remote, optical
/// and memory drives are 2 to 6.
pub open spec fn drive_medium(t: u32) -> Medium {
    if t == 2 || t == 5 {
        Medium::RemovableDisk
    } else if t == 3 || t == 6 {
        Medium::FixedDisk
    } else if t == 4 {
        Medium::NetworkShare
    } else {
        Medium::Unknown
    }
}

pub fn medium_for_win_drive_type(t: u32) -> (r: Medium)
    ensures
        r == drive_medium(t),
{
    match t {
        2 => Medium::RemovableDisk,
        3 => Medium::FixedDisk,
        4 => Medium::NetworkShare,
        5 => Medium::RemovableDisk,
        6 => Medium::FixedDisk,
        _ => Medium::Unknown,
    }
}

/// What UTF-16 units spell.
pub uninterp spec fn utf16_text(units: Seq<u16>) -> Seq<char>;

/// `String::from_utf16_lossy`, which depends on the units alone. Units below the surrogates stand for
/// themselves.
#[verifier::external_body]
fn decode_utf16(units: &[u16]) -> (r: String)
    ensures
        r@ == utf16_text(units@),
        (forall|i: int| 0 <= i < units@.len() ==> (#[trigger] units@[i]) < 0xD800) ==> r@ == Seq::new(
            units@.len(),
            |i: int| units@[i] as char,
        ),
{
    String::from_utf16_lossy(units)
}

/// Everything before the first zero.
pub open spec fn before_zero(units: Seq<u16>) -> Seq<u16>
    decreases units.len(),
{
    if units.len() == 0 || units[0] == 0 {
        Seq::empty()
    } else {
        seq![units[0]] + before_zero(units.skip(1))
    }
}

fn cut_at_zero(units: &Vec<u16>) -> (r: Vec<u16>)
    ensures
        r@ == before_zero(units@),
{
    let mut out: Vec<u16> = Vec::new();
    let mut i: usize = 0;
    assert(units@.skip(0) =~= units@);
    assert(out@ + before_zero(units@.skip(0)) =~= before_zero(units@));
    while i < units.len()
        invariant
            i <= units@.len(),
            out@ + before_zero(units@.skip(i as int)) == before_zero(units@),
        decreases units@.len() - i,
    {
        proof {
            assert(units@.skip(i as int)[0] == units@[i as int]);
            assert(units@.skip(i as int).skip(1) =~= units@.skip(i as int + 1));
        }
        if units[i] == 0 {
            assert(out@ =~= out@ + before_zero(units@.skip(i as int)));
            return out;
        }
        let ghost before = out@;
        out.push(units[i]);
        proof {
            assert(out@ + before_zero(units@.skip(i as int + 1)) =~= before + before_zero(
                units@.skip(i as int),
            ));
        }
        i = i + 1;
    }
    assert(out@ =~= out@ + before_zero(units@.skip(i as int)));
    out
}

/// What Windows answered about a volume: its number for the kind of drive, and the name buffer and
/// the flags of the filesystem, unless that question failed.
pub struct WinAnswer {
    pub drive_type: u32,
    pub fs: Option<(Vec<u16>, u32)>,
}

/// The volume that the answers describe. A share is one whatever the drive type says; where the
/// filesystem is not to be had, the medium still stands.
pub open spec fn win_volume(root: WinRootModel, a: WinAnswer) -> VolumeModel {
    let medium = match root {
        WinRootModel::Share(_) => Medium::NetworkShare,
        _ => drive_medium(a.drive_type),
    };
    match root {
        WinRootModel::Unknown => unknown_volume(),
        _ => match a.fs {
            None => VolumeModel { medium, ..unknown_volume() },
            Some((name, flags)) => VolumeModel {
                medium,
                fs_name: utf16_text(before_zero(name@)),
                case_sensitivity: if flags & 1 != 0 {
                    CaseSense::Sensitive
                } else {
                    CaseSense::Insensitive
                },
            },
        },
    }
}

pub fn probe_windows(root: &WinRoot, a: &WinAnswer) -> (r: Volume)
    ensures
        r@ == win_volume(root@, *a),
{
    let medium = match root {
        WinRoot::Unknown => {
            return Volume::unknown();
        },
        WinRoot::Share(_) => Medium::NetworkShare,
        WinRoot::Drive(_) => medium_for_win_drive_type(a.drive_type),
    };
    match &a.fs {
        None => Volume {
            medium,
            fs_name: String::new(),
            case_sensitivity: CaseSense::Unknown,
        },
        Some((name, flags)) => {
            let cut = cut_at_zero(name);
            Volume {
                medium,
                fs_name: decode_utf16(cut.as_slice()),
                case_sensitivity: if *flags & 1 != 0 {
                    CaseSense::Sensitive
                } else {
                    CaseSense::Insensitive
                },
            }
        },
    }
}

/// The volume that a unix names by its filesystem; `None` where it did not answer.
pub open spec fn unix_volume(fs_name: Option<Seq<char>>) -> VolumeModel {
    match fs_name {
        None => unknown_volume(),
        Some(name) => VolumeModel {
            medium: medium_of(name),
            fs_name: name,
            case_sensitivity: case_of(name),
        },
    }
}

pub fn probe_unix(fs_name: Option<String>) -> (r: Volume)
    ensures
        r@ == unix_volume(opt_text(fs_name)),
{
    match fs_name {
        None => Volume::unknown(),
        Some(name) => Volume {
            medium: medium_for_fs(name.as_str()),
            case_sensitivity: case_for_fs(name.as_str()),
            fs_name: name,
        },
    }
}

/// The bytes up to the first zero, each as the character of that number.
pub open spec fn up_to_zero(raw: Seq<u8>) -> Seq<char>
    decreases raw.len(),
{
    if raw.len() == 0 || raw[0] == 0 {
        Seq::empty()
    } else {
        seq![raw[0] as char] + up_to_zero(raw.skip(1))
    }
}

/// The name of the filesystem as BSD and macOS give it, in a field padded with zeros.
pub fn bsd_fs_name(raw: &[u8]) -> (r: String)
    ensures
        r@ == up_to_zero(raw@),
{
    let mut out: Vec<char> = Vec::new();
    let mut i: usize = 0;
    assert(out@ + up_to_zero(raw@.skip(0)) =~= up_to_zero(raw@)) by {
        assert(raw@.skip(0) =~= raw@);
    }
    while i < raw.len() && raw[i] != 0
        invariant
            i <= raw@.len(),
            out@ + up_to_zero(raw@.skip(i as int)) == up_to_zero(raw@),
        decreases raw@.len() - i,
    {
        let ghost rest = raw@.skip(i as int);
        let ghost before = out@;
        out.push(raw[i] as char);
        proof {
            assert(rest.skip(1) =~= raw@.skip(i as int + 1));
            assert(out@ + up_to_zero(rest.skip(1)) =~= before + up_to_zero(rest));
        }
        i = i + 1;
    }
    assert(out@ =~= up_to_zero(raw@));
    text_of(out.as_slice())
}

/// The name of the filesystem that Linux gives a number for; empty where the number does not settle
/// it.
pub open spec fn linux_fs(magic: i64) -> Seq<char> {
    if magic == 0xFF53_4D42 || magic == 0xFE53_4D42 || magic == 0x517B {
        "cifs"@
    } else if magic == 0x6969 {
        "nfs"@
    } else if magic == 0x5346_414F {
        "afpfs"@
    } else if magic == 0x564C {
        "ncpfs"@
    } else if magic == 0xEF53 {
        "ext4"@
    } else if magic == 0x9123_683E {
        "btrfs"@
    } else if magic == 0x5846_5342 {
        "xfs"@
    } else if magic == 0x2FC1_2FC1 {
        "zfs"@
    } else if magic == 0xF2F5_2010 {
        "f2fs"@
    } else if magic == 0x0102_1994 {
        "tmpfs"@
    } else if magic == 0x794C_7630 {
        "overlay"@
    } else if magic == 0x5346_544E {
        "ntfs"@
    } else if magic == 0x4D44 {
        "vfat"@
    } else if magic == 0x2011_BAB0 {
        "exfat"@
    } else {
        ""@
    }
}

pub fn linux_fs_name(magic: i64) -> (r: &'static str)
    ensures
        r@ == linux_fs(magic),
{
    if magic == 0xFF53_4D42 || magic == 0xFE53_4D42 || magic == 0x517B {
        "cifs"
    } else if magic == 0x6969 {
        "nfs"
    } else if magic == 0x5346_414F {
        "afpfs"
    } else if magic == 0x564C {
        "ncpfs"
    } else if magic == 0xEF53 {
        "ext4"
    } else if magic == 0x9123_683E {
        "btrfs"
    } else if magic == 0x5846_5342 {
        "xfs"
    } else if magic == 0x2FC1_2FC1 {
        "zfs"
    } else if magic == 0xF2F5_2010 {
        "f2fs"
    } else if magic == 0x0102_1994 {
        "tmpfs"
    } else if magic == 0x794C_7630 {
        "overlay"
    } else if magic == 0x5346_544E {
        "ntfs"
    } else if magic == 0x4D44 {
        "vfat"
    } else if magic == 0x2011_BAB0 {
        "exfat"
    } else {
        ""
    }
}

/// What the system says of a file, without following a link.
pub struct LocalMeta {
    pub is_symlink: bool,
    pub is_dir: bool,
    pub len: u64,
    /// Milliseconds since the Unix epoch; `None` for a time before it.
    pub modified: Option<u128>,
    /// Mode bits, on a unix.
    pub mode: Option<u32>,
    /// Device and inode, on a unix.
    pub inode: Option<(u64, u64)>,
}

pub open spec fn local_meta(m: LocalMeta) -> MetaModel {
    MetaModel {
        kind: if m.is_symlink {
            EntryKind::Symlink
        } else if m.is_dir {
            EntryKind::Dir
        } else {
            EntryKind::File
        },
        size: m.len,
        mtime_ms: match m.modified {
            Some(ms) => ms as i64,
            None => 0,
        },
        mode: match m.mode {
            Some(b) => Some(b & 0o7777),
            None => None,
        },
        file_id: match m.inode {
            Some((dev, ino)) => Some(numeral(dev as nat) + ":"@ + numeral(ino as nat)),
            None => None,
        },
        link: None,
    }
}

pub fn meta_of(m: &LocalMeta) -> (r: VMeta)
    ensures
        r@ == local_meta(*m),
{
    let file_id = match m.inode {
        Some((dev, ino)) => {
            let mut s = decimal(dev);
            s.append(":");
            s.append(decimal(ino).as_str());
            Some(s)
        },
        None => None,
    };
    VMeta {
        kind: if m.is_symlink {
            EntryKind::Symlink
        } else if m.is_dir {
            EntryKind::Dir
        } else {
            EntryKind::File
        },
        size: m.len,
        mtime_ms: file_time_ms(m.modified),
        mode: match m.mode {
            Some(b) => Some(b & 0o7777),
            None => None,
        },
        file_id,
        link: None,
    }
}

/// A failure of the operating system, as an error of the virtual filesystem.
pub open spec fn is_io_error(e: VfsError, f: IoFailure, os: Os, errnos: Errnos) -> bool {
    (e.kind, e.detail@) == classified(f, os, errnos) && e.source == Some(f)
}

/// What the system's answer about a path comes to. On a local filesystem "not found" is confirmed.
pub fn weigh_stat(reply: Result<LocalMeta, IoFailure>, os: Os, errnos: Errnos) -> (r: VfsResult<
    Option<VMeta>,
>)
    ensures
        match reply {
            Ok(m) => r matches Ok(Some(v)) && v@ == local_meta(m),
            Err(f) => if f.kind == IoKind::NotFound {
                r matches Ok(v) && v is None
            } else {
                r matches Err(e) && is_io_error(e, f, os, errnos)
            },
        },
{
    match reply {
        Ok(m) => Ok(Some(meta_of(&m))),
        Err(f) => {
            if f.kind == IoKind::NotFound {
                Ok(None)
            } else {
                Err(VfsError::from_io(f, os, errnos))
            }
        },
    }
}

/// One entry of a directory: its name, unless that is not Unicode, and what the system says of it.
pub struct LocalEntry {
    pub name: Option<String>,
    pub meta: Result<LocalMeta, IoFailure>,
}

/// The entry is passed over: it has no name that could be acted on, or it vanished after it was
/// listed.
pub open spec fn passed_over(e: LocalEntry) -> bool {
    e.name is None || (e.meta matches Err(f) && f.kind == IoKind::NotFound)
}

/// The entries, or the first failure that is no vanishing.
pub open spec fn collected(found: Seq<LocalEntry>) -> Result<Seq<(Seq<char>, MetaModel)>, IoFailure>
    decreases found.len(),
{
    if found.len() == 0 {
        Ok(Seq::empty())
    } else {
        let e = found.last();
        match collected(found.drop_last()) {
            Err(f) => Err(f),
            Ok(v) => if passed_over(e) {
                Ok(v)
            } else {
                match e.meta {
                    Ok(m) => Ok(v.push((e.name->0@, local_meta(m)))),
                    Err(f) => Err(f),
                }
            },
        }
    }
}

proof fn lemma_collected_error(found: Seq<LocalEntry>, k: int)
    requires
        0 <= k <= found.len(),
        collected(found.take(k)) is Err,
    ensures
        collected(found) == collected(found.take(k)),
    decreases found.len() - k,
{
    if k == found.len() {
        assert(found.take(k) =~= found);
    } else {
        assert(found.take(k + 1).drop_last() =~= found.take(k));
        lemma_collected_error(found, k + 1);
    }
}

/// A listing of a directory.
pub fn dir_entries(found: Vec<LocalEntry>, os: Os, errnos: Errnos) -> (r: VfsResult<Vec<VDirEntry>>)
    ensures
        match collected(found@) {
            Ok(v) => r matches Ok(out) && listed(out@) == v,
            Err(f) => r matches Err(e) && e.source matches Some(g) && g@ == f@ && (e.kind, e.detail@)
                == classified(f, os, errnos),
        },
{
    let mut out: Vec<VDirEntry> = Vec::new();
    let mut i: usize = 0;
    assert(found@.take(0) =~= Seq::<LocalEntry>::empty());
    assert(listed(out@) =~= Seq::<(Seq<char>, MetaModel)>::empty());
    while i < found.len()
        invariant
            i <= found@.len(),
            collected(found@.take(i as int)) == Ok::<Seq<(Seq<char>, MetaModel)>, IoFailure>(
                listed(out@),
            ),
        decreases found@.len() - i,
    {
        proof {
            assert(found@.take(i as int + 1).drop_last() =~= found@.take(i as int));
            assert(found@.take(i as int + 1).last() == found@[i as int]);
        }
        let e = &found[i];
        if let Some(name) = &e.name {
            match &e.meta {
                Ok(m) => {
                    let d = VDirEntry { name: name.clone(), meta: meta_of(m) };
                    assert(listed(out@.push(d)) =~= listed(out@).push(d@));
                    out.push(d);
                },
                Err(f) => {
                    if f.kind != IoKind::NotFound {
                        proof {
                            lemma_collected_error(found@, i as int + 1);
                        }
                        let copy = IoFailure {
                            kind: f.kind,
                            raw: f.raw,
                            message: f.message.clone(),
                        };
                        return Err(VfsError::from_io(copy, os, errnos));
                    }
                },
            }
        }
        i = i + 1;
    }
    assert(found@.take(found@.len() as int) =~= found@);
    Ok(out)
}

/// A time in Unix milliseconds as whole seconds, rounded down, and nanoseconds.
pub fn filetime_parts(ms: i64) -> (r: (i64, u32))
    ensures
        r.0 == ms as int / 1000,
        r.1 == (ms as int % 1000) * 1000000,
{
    if ms >= 0 {
        (ms / 1000, ((ms % 1000) * 1000000) as u32)
    } else {
        let p: i64 = -(ms + 1);
        let q: i64 = p / 1000;
        let rest: i64 = 999 - p % 1000;
        proof {
            let quotient: int = -q - 1;
            assert(ms == 1000 * quotient + rest);
            assert(0 <= rest < 1000);
            vstd::arithmetic::div_mod::lemma_fundamental_div_mod_converse(
                ms as int,
                1000,
                quotient,
                rest as int,
            );
        }
        (-q - 1, (rest * 1000000) as u32)
    }
}

/// A root on this machine's own path layer.
pub struct LocalVfs {
    /// As it was spelled.
    pub root: String,
    pub os: Os,
    pub vol: Option<Volume>,
}

/// What a local root on such a volume can do.
pub open spec fn local_caps(vol: VolumeModel, os: Os, c: VfsCaps) -> bool {
    let unix = os != Os::Windows;
    &&& c.protocol@ == "local"@
    &&& c.mtime_precision_ms == precision_of(vol.fs_name)
    &&& c.set_mtime == Support::Yes
    &&& c.fsync == Support::Yes
    &&& c.rename == Support::Yes
    &&& c.rename_overwrite == Support::Yes
    &&& c.ranged_read == Support::Yes
    &&& c.write_at == Support::Yes
    &&& c.unix_mode == if unix {
        Support::Yes
    } else {
        Support::No
    }
    &&& c.symlink == if unix {
        Support::Yes
    } else {
        Support::Unknown
    }
    &&& c.file_id == if unix {
        Support::Yes
    } else {
        Support::No
    }
    &&& c.free_space == Support::Yes
    &&& c.read_back == Support::Yes
    &&& c.medium == vol.medium
    &&& c.local_trash == reaches(vol.medium)
    &&& c.case_sensitivity == vol.case_sensitivity
    &&& c.name_rules == if unix {
        NameRules::Posix
    } else {
        NameRules::Windows
    }
    &&& c.max_parallel_streams == if vol.medium == Medium::NetworkShare {
        4usize
    } else {
        16usize
    }
}

/// What a local root on that volume can do.
pub fn caps_on(vol: &Volume, os: Os) -> (r: VfsCaps)
    ensures
        local_caps(vol@, os, r),
{
    let unix = os != Os::Windows;
    VfsCaps {
        protocol: "local",
        mtime_precision_ms: mtime_precision_for(vol.fs_name.as_str()),
        set_mtime: Support::Yes,
        fsync: Support::Yes,
        rename: Support::Yes,
        rename_overwrite: Support::Yes,
        ranged_read: Support::Yes,
        write_at: Support::Yes,
        unix_mode: if unix {
            Support::Yes
        } else {
            Support::No
        },
        symlink: if unix {
            Support::Yes
        } else {
            Support::Unknown
        },
        file_id: if unix {
            Support::Yes
        } else {
            Support::No
        },
        free_space: Support::Yes,
        read_back: Support::Yes,
        medium: vol.medium,
        local_trash: trash_reaches(vol.medium),
        case_sensitivity: vol.case_sensitivity,
        name_rules: NameRules::host(!unix),
        max_parallel_streams: if vol.medium == Medium::NetworkShare {
            4
        } else {
            16
        },
    }
}

pub open spec fn opt_volume(v: Option<Volume>) -> Option<VolumeModel> {
    match v {
        Some(x) => Some(x@),
        None => None,
    }
}

impl LocalVfs {
    pub fn new(root: &str, os: Os) -> (r: LocalVfs)
        ensures
            r.root@ == root@,
            r.os == os,
            r.vol is None,
    {
        LocalVfs { root: root.to_owned(), os, vol: None }
    }

    /// The path of `rel` in the system's spelling.
    pub open spec fn path_of(self, rel: Seq<char>) -> Seq<char> {
        if rel.len() == 0 {
            self.root@
        } else {
            joined(self.root@, rel, self.os == Os::Windows)
        }
    }

    pub fn abs(&self, rel: &str) -> (r: String)
        requires
            joinable(rel@, self.os == Os::Windows),
        ensures
            r@ == self.path_of(rel@),
    {
        if rel.unicode_len() == 0 {
            self.root.clone()
        } else {
            join_native(self.root.as_str(), rel, self.os == Os::Windows)
        }
    }

    /// What is known of the volume: the first answer stays.
    pub fn volume(&mut self, probed: Volume) -> (r: Volume)
        ensures
            final(self).root == old(self).root,
            final(self).os == old(self).os,
            opt_volume(final(self).vol) == Some(r@),
            r@ == (match old(self).vol {
                Some(v) => v@,
                None => probed@,
            }),
    {
        let v = match &self.vol {
            Some(v) => v.copy(),
            None => probed,
        };
        self.vol = Some(v.copy());
        v
    }

    /// What the root can do, as far as its volume is known.
    pub fn caps(&self) -> (r: VfsCaps)
        ensures
            local_caps(
                match self.vol {
                    Some(v) => v@,
                    None => unknown_volume(),
                },
                self.os,
                r,
            ),
    {
        match &self.vol {
            Some(v) => caps_on(v, self.os),
            None => caps_on(&Volume::unknown(), self.os),
        }
    }

    pub fn display(&self) -> (r: String)
        ensures
            r@ == self.root@,
    {
        self.root.clone()
    }

    /// The same text as `display`: what is stored under a root's name keeps its name.
    pub fn identity(&self) -> (r: String)
        ensures
            r@ == self.root@,
    {
        self.root.clone()
    }

    /// Whether mode bits can be set.
    pub fn may_set_mode(&self) -> (r: VfsResult<()>)
        ensures
            match r {
                Ok(_) => self.os != Os::Windows,
                Err(e) => self.os == Os::Windows && is_error(
                    e,
                    VfsErrorKind::Unsupported,
                    "unix modes do not exist on this filesystem"@,
                ),
            },
    {
        if self.os != Os::Windows {
            Ok(())
        } else {
            Err(
                VfsError::new(
                    VfsErrorKind::Unsupported,
                    "unix modes do not exist on this filesystem",
                ),
            )
        }
    }
}

/// Deleted files are kept in the central trash only where they are on a disk of this machine: never on
/// a share, and never where it is not known.
pub proof fn the_trash_stays_on_this_machine(vol: VolumeModel, os: Os, c: VfsCaps)
    requires
        local_caps(vol, os, c),
    ensures
        c.local_trash ==> c.medium != Medium::NetworkShare && c.medium != Medium::Unknown,
{
}

/// What a commit is waiting for.
#[derive(Clone, Copy, Debug, PartialEq, Eq, Structural)]
pub enum CommitDeed {
    /// Set the time of the temp file: seconds and nanoseconds.
    Time(i64, u32),
    /// Set the mode of the temp file.
    Mode(u32),
    /// Rename the temp file into place.
    Place,
    /// Look at the time of the final file.
    Look,
}

pub enum CommitReply {
    Done,
    Failed(VfsError),
    /// The time seen; `None` where the file could not be looked at.
    Seen(Option<i64>),
}

pub enum CommitNext {
    Do(CommitDeed),
    Over,
    Failed(VfsError),
}

pub open spec fn commit_answers(deed: CommitDeed, reply: CommitReply) -> bool {
    match deed {
        CommitDeed::Look => reply is Seen,
        _ => reply is Done || reply is Failed,
    }
}

/// A staged file that is being put in place.
pub struct LocalCommit {
    pub hint: WriteHint,
    pub os: Os,
    pub report: CommitReport,
}

pub open spec fn time_deed(ms: i64) -> CommitDeed {
    CommitDeed::Time((ms as int / 1000) as i64, ((ms as int % 1000) * 1000000) as u32)
}

impl LocalCommit {
    /// What comes after the time.
    pub open spec fn after_time(self) -> CommitDeed {
        match self.hint.mode {
            Some(mode) => if self.os != Os::Windows {
                CommitDeed::Mode(mode)
            } else {
                CommitDeed::Place
            },
            None => CommitDeed::Place,
        }
    }

    fn then_mode(&self) -> (r: CommitDeed)
        ensures
            r == self.after_time(),
    {
        match self.hint.mode {
            Some(mode) => if self.os != Os::Windows {
                CommitDeed::Mode(mode)
            } else {
                CommitDeed::Place
            },
            None => CommitDeed::Place,
        }
    }

    /// Begins: time and mode are set before the file is in place.
    pub fn begin(hint: WriteHint, os: Os) -> (r: (LocalCommit, CommitDeed))
        ensures
            r.0.hint == hint,
            r.0.os == os,
            r.0.report.mtime_ondisk_ms is None && r.0.report.mtime_error is None
                && r.0.report.mode_error is None,
            r.1 == (match hint.mtime_ms {
                Some(ms) => time_deed(ms),
                None => r.0.after_time(),
            }),
    {
        let c = LocalCommit {
            hint,
            os,
            report: CommitReport { mtime_ondisk_ms: None, mtime_error: None, mode_error: None },
        };
        let d = match hint.mtime_ms {
            Some(ms) => {
                let (secs, nanos) = filetime_parts(ms);
                CommitDeed::Time(secs, nanos)
            },
            None => c.then_mode(),
        };
        (c, d)
    }

    /// Takes the reply to a deed. Trouble with the time or the mode is told and does not stop the
    /// commit; trouble with the rename ends it.
    pub fn feed(&mut self, deed: CommitDeed, reply: CommitReply) -> (r: CommitNext)
        requires
            commit_answers(deed, reply),
        ensures
            final(self).hint == old(self).hint,
            final(self).os == old(self).os,
            match deed {
                CommitDeed::Time(_, _) => r == CommitNext::Do(old(self).after_time()),
                CommitDeed::Mode(_) => r == CommitNext::Do(CommitDeed::Place),
                CommitDeed::Place => match reply {
                    CommitReply::Failed(e) => r == CommitNext::Failed(e),
                    _ => r == if old(self).hint.mtime_ms is Some {
                        CommitNext::Do(CommitDeed::Look)
                    } else {
                        CommitNext::Over
                    },
                },
                CommitDeed::Look => r == CommitNext::Over,
            },
            final(self).report == (CommitReport {
                mtime_error: match deed {
                    CommitDeed::Time(_, _) => match reply {
                        CommitReply::Failed(e) => Some(e),
                        _ => old(self).report.mtime_error,
                    },
                    _ => old(self).report.mtime_error,
                },
                mode_error: match deed {
                    CommitDeed::Mode(_) => match reply {
                        CommitReply::Failed(e) => Some(e),
                        _ => old(self).report.mode_error,
                    },
                    _ => old(self).report.mode_error,
                },
                mtime_ondisk_ms: match reply {
                    CommitReply::Seen(t) => if deed == CommitDeed::Look {
                        t
                    } else {
                        old(self).report.mtime_ondisk_ms
                    },
                    _ => old(self).report.mtime_ondisk_ms,
                },
            }),
    {
        match deed {
            CommitDeed::Time(_, _) => {
                if let CommitReply::Failed(e) = reply {
                    self.report.mtime_error = Some(e);
                }
                CommitNext::Do(self.then_mode())
            },
            CommitDeed::Mode(_) => {
                if let CommitReply::Failed(e) = reply {
                    self.report.mode_error = Some(e);
                }
                CommitNext::Do(CommitDeed::Place)
            },
            CommitDeed::Place => {
                if let CommitReply::Failed(e) = reply {
                    return CommitNext::Failed(e);
                }
                if self.hint.mtime_ms.is_some() {
                    CommitNext::Do(CommitDeed::Look)
                } else {
                    CommitNext::Over
                }
            },
            CommitDeed::Look => {
                if let CommitReply::Seen(t) = reply {
                    self.report.mtime_ondisk_ms = t;
                }
                CommitNext::Over
            },
        }
    }
}

/// One of the entries has that name and that look.
pub open spec fn was_found(found: Seq<LocalEntry>, e: (Seq<char>, MetaModel)) -> bool {
    exists|i: int|
        0 <= i < found.len() && (#[trigger] found[i]).name is Some && found[i].meta is Ok && e == (
            found[i].name->0@,
            local_meta(found[i].meta->Ok_0),
        )
}

/// A listing holds every entry that has a name and did not vanish, in order, and no other; it fails only
/// for the first entry whose look failed otherwise.
pub proof fn a_listing_holds_all_that_is_there(found: Seq<LocalEntry>)
    ensures
        collected(found) is Ok <==> forall|i: int|
            0 <= i < found.len() && (#[trigger] found[i]).name is Some ==> (found[i].meta matches Err(f)
                ==> f.kind == IoKind::NotFound),
        collected(found) matches Ok(v) ==> {
            &&& v.len() <= found.len()
            &&& forall|i: int|
                0 <= i < found.len() && (#[trigger] found[i]).name is Some && found[i].meta is Ok
                    ==> v.contains((found[i].name->0@, local_meta(found[i].meta->Ok_0)))
            &&& forall|k: int|
                0 <= k < v.len() ==> was_found(found, #[trigger] v[k])
        },
    decreases found.len(),
{
    if found.len() > 0 {
        let less = found.drop_last();
        let at = found.len() - 1;
        a_listing_holds_all_that_is_there(less);
        assert(forall|i: int| 0 <= i < at ==> #[trigger] less[i] == found[i]);
        match collected(less) {
            Err(_) => {
                let i = choose|i: int|
                    0 <= i < less.len() && (#[trigger] less[i]).name is Some && !(less[i].meta matches Err(f)
                        ==> f.kind == IoKind::NotFound);
                assert(found[i] == less[i]);
            },
            Ok(v) => {
                assert forall|i: int| 0 <= i < at && (#[trigger] found[i]).name is Some implies (
                found[i].meta matches Err(f) ==> f.kind == IoKind::NotFound) by {
                    assert(less[i] == found[i]);
                }
                if let Ok(w) = collected(found) {
                    assert forall|i: int|
                        0 <= i < found.len() && (#[trigger] found[i]).name is Some && found[i].meta is Ok implies w.contains(
                        (found[i].name->0@, local_meta(found[i].meta->Ok_0)),
                    ) by {
                        let e = (found[i].name->0@, local_meta(found[i].meta->Ok_0));
                        if i < at {
                            assert(less[i] == found[i]);
                            let k = choose|k: int| 0 <= k < v.len() && v[k] == e;
                            assert(w[k] == e);
                        } else {
                            assert(w[v.len() as int] == e);
                        }
                    }
                    assert forall|k: int| 0 <= k < w.len() implies was_found(found, #[trigger] w[k]) by {
                        if k < v.len() {
                            assert(w[k] == v[k]);
                            assert(was_found(less, v[k]));
                            let i = choose|i: int|
                                0 <= i < less.len() && (#[trigger] less[i]).name is Some && less[i].meta is Ok
                                    && v[k] == (less[i].name->0@, local_meta(less[i].meta->Ok_0));
                            assert(found[i] == less[i]);
                        } else {
                            assert(found[at].name is Some);
                        }
                    }
                }
            },
        }
    }
}

/// A link is told as one, also where it leads to a directory; the bits of the mode that are not
/// permissions are dropped, and two files on one machine have one number only if they are one.
pub proof fn a_look_tells_links_first(m: LocalMeta, n: LocalMeta)
    ensures
        local_meta(m).kind == EntryKind::Symlink <==> m.is_symlink,
        local_meta(m).kind == EntryKind::Dir <==> m.is_dir && !m.is_symlink,
        local_meta(m).size == m.len,
        m.modified matches Some(ms) ==> ms <= i64::MAX ==> local_meta(m).mtime_ms == ms,
        m.modified is None ==> local_meta(m).mtime_ms == 0,
        m.mode matches Some(b) ==> (local_meta(m).mode matches Some(c) && c < 4096 && (b < 4096 ==> c == b)),
        m.mode is None <==> local_meta(m).mode is None,
        m.inode is None <==> local_meta(m).file_id is None,
        m.inode is Some && n.inode is Some ==> (local_meta(m).file_id == local_meta(n).file_id <==> m.inode
            == n.inode),
{
    if let Some(b) = m.mode {
        assert(b & 0o7777 < 4096) by (bit_vector);
        assert(b < 4096 ==> b & 0o7777 == b) by (bit_vector);
    }
    if m.inode is Some && n.inode is Some && local_meta(m).file_id == local_meta(n).file_id {
        let a = m.inode->0;
        let c = n.inode->0;
        let x = numeral(a.0 as nat);
        let y = numeral(c.0 as nat);
        reveal_strlit(":");
        lemma_numeral_digits(a.0 as nat);
        lemma_numeral_digits(c.0 as nat);
        let s = x + ":"@ + numeral(a.1 as nat);
        let t = y + ":"@ + numeral(c.1 as nat);
        assert(s == t);
        assert(s[x.len() as int] == ':' && t[y.len() as int] == ':');
        if x.len() < y.len() {
            assert(t[x.len() as int] == y[x.len() as int]);
        }
        if y.len() < x.len() {
            assert(s[y.len() as int] == x[y.len() as int]);
        }
        assert(x =~= s.take(x.len() as int));
        assert(y =~= t.take(x.len() as int));
        assert(numeral(a.1 as nat) =~= s.skip(x.len() as int + 1));
        assert(numeral(c.1 as nat) =~= t.skip(x.len() as int + 1));
        lemma_numeral_digits(a.1 as nat);
        lemma_numeral_digits(c.1 as nat);
    }
}

/// A time is handed to the system whole: seconds and nanoseconds add up to it, also before 1970.
pub proof fn a_time_is_handed_over_whole(ms: i64)
    ensures
        time_deed(ms) matches CommitDeed::Time(s, n) && s * 1_000_000_000 + n == ms * 1_000_000 && n < 1_000_000_000,
{
    assert(ms as int == 1000 * (ms as int / 1000) + ms as int % 1000);
    assert(i64::MIN <= ms as int / 1000 <= i64::MAX);
}

/// The mode is set where one was asked for and the system has modes; otherwise the file goes straight to
/// its place.
pub proof fn a_mode_is_set_where_there_are_modes(c: LocalCommit)
    ensures
        c.after_time() matches CommitDeed::Mode(b) ==> c.hint.mode == Some(b) && c.os != Os::Windows,
        c.after_time() is Place <==> c.hint.mode is None || c.os == Os::Windows,
        c.after_time() is Mode || c.after_time() is Place,
{
}

/// A name in a buffer ends before the first zero, or with the buffer.
pub proof fn a_name_ends_before_the_first_zero(units: Seq<u16>)
    ensures
        before_zero(units).is_prefix_of(units),
        forall|i: int| 0 <= i < before_zero(units).len() ==> #[trigger] before_zero(units)[i] != 0,
        before_zero(units).len() < units.len() ==> units[before_zero(units).len() as int] == 0,
    decreases units.len(),
{
    let b = before_zero(units);
    if units.len() > 0 && units[0] != 0 {
        let more = units.skip(1);
        a_name_ends_before_the_first_zero(more);
        let c = before_zero(more);
        assert(c == more.take(c.len() as int));
        assert(b =~= units.take(b.len() as int)) by {
            assert forall|i: int| 0 <= i < b.len() implies b[i] == units[i] by {
                if i > 0 {
                    assert(b[i] == c[i - 1]);
                    assert(c[i - 1] == more.take(c.len() as int)[i - 1]);
                }
            }
        }
        assert forall|i: int| 0 <= i < b.len() implies #[trigger] b[i] != 0 by {
            if i > 0 {
                assert(b[i] == c[i - 1]);
            }
        }
    } else {
        assert(b =~= units.take(0));
    }
}

/// The same for a name in bytes, each of which is the character of its number.
pub proof fn a_byte_name_ends_before_the_first_zero(raw: Seq<u8>)
    ensures
        up_to_zero(raw).len() <= raw.len(),
        forall|i: int|
            0 <= i < up_to_zero(raw).len() ==> #[trigger] up_to_zero(raw)[i] == raw[i] as char && raw[i] != 0,
        up_to_zero(raw).len() < raw.len() ==> raw[up_to_zero(raw).len() as int] == 0,
    decreases raw.len(),
{
    if raw.len() > 0 && raw[0] != 0 {
        let more = raw.skip(1);
        a_byte_name_ends_before_the_first_zero(more);
        assert forall|i: int| 0 <= i < up_to_zero(raw).len() implies #[trigger] up_to_zero(raw)[i]
            == raw[i] as char && raw[i] != 0 by {
            if i > 0 {
                assert(up_to_zero(raw)[i] == up_to_zero(more)[i - 1]);
            }
        }
    }
}

/// A share is a share whatever kind of drive the system calls it; a path that names no volume tells
/// nothing; and without an answer about the filesystem nothing is guessed of it.
pub proof fn a_volume_is_what_is_known_of_it(root: WinRootModel, a: WinAnswer)
    ensures
        root is Share ==> win_volume(root, a).medium == Medium::NetworkShare,
        root is Unknown ==> win_volume(root, a) == unknown_volume(),
        root is Drive ==> (win_volume(root, a).medium == Medium::FixedDisk <==> a.drive_type == 3
            || a.drive_type == 6),
        root is Drive ==> (win_volume(root, a).medium == Medium::RemovableDisk <==> a.drive_type == 2
            || a.drive_type == 5),
        root is Drive ==> (win_volume(root, a).medium == Medium::NetworkShare <==> a.drive_type == 4),
        a.fs is None ==> win_volume(root, a).fs_name.len() == 0 && win_volume(root, a).case_sensitivity
            == CaseSense::Unknown,
        a.fs matches Some(x) ==> root !is Unknown ==> (win_volume(root, a).case_sensitivity
            == CaseSense::Sensitive <==> x.1 & 1 == 1),
{
    if let Some(x) = a.fs {
        let f = x.1;
        assert(f & 1 == 0 || f & 1 == 1) by (bit_vector);
    }
}

/// How a path is slashed does not change the volume it is on.
pub proof fn volumes_do_not_depend_on_slashes(path: Seq<char>)
    ensures
        win_root(replaced(path, '/', '\\')) == win_root(path),
        win_root(path) matches WinRootModel::Drive(d) ==> d.len() == 3 && !ascii_lower(d[0]) && d[1] == ':' && d[2]
            == '\\',
        win_root(path) matches WinRootModel::Share(s) ==> s.last() == '\\' && s[0] == '\\' && s[1] == '\\',
{
    assert(replaced(replaced(path, '/', '\\'), '/', '\\') =~= replaced(path, '/', '\\'));
    reveal_strlit(":\\");
    reveal_strlit("\\");
    reveal_strlit("\\\\");
}

/// A filesystem's name is read without regard to case, and one that speaks of a network is never taken for
/// a disk of this machine.
pub proof fn filesystems_are_known_by_their_name(a: Seq<char>, b: Seq<char>)
    requires
        ascii_lowered(a) == ascii_lowered(b),
    ensures
        unix_volume(Some(a)).medium == unix_volume(Some(b)).medium,
        unix_volume(Some(a)).case_sensitivity == unix_volume(Some(b)).case_sensitivity,
        precision_of(a) == precision_of(b),
        network_fs(ascii_lowered(a)) ==> !reaches(unix_volume(Some(a)).medium),
        fat_fs(ascii_lowered(a)) <==> precision_of(a) == 2000,
        unix_volume(None).medium == Medium::Unknown,
{
}

/// A share gets fewer streams than a disk, and whether files have modes goes with whether names follow the
/// rules of Windows.
pub proof fn shares_are_spared(vol: VolumeModel, os: Os, c: VfsCaps)
    requires
        local_caps(vol, os, c),
    ensures
        c.max_parallel_streams == 4 <==> c.medium == Medium::NetworkShare,
        c.max_parallel_streams == 16 <==> c.medium != Medium::NetworkShare,
        c.name_rules == NameRules::Windows <==> os == Os::Windows,
        c.unix_mode == Support::Yes <==> os != Os::Windows,
        c.mtime_precision_ms >= 1,
{
}

} // verus!
