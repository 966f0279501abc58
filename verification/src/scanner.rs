//! What a scan finds, and the decisions a scan makes.
//!
//! Walking a filesystem is left to the caller. This module says what each
//! thing found on the way contributes to the [`Manifest`].

use vstd::prelude::*;

use crate::filter::FilterSet;
use crate::host;
use crate::linkpolicy;
use crate::linkpolicy::{LinkClass, RealPath};
use crate::path;
use crate::protocol;
use crate::protocol::{FileKind, LinkKind, TargetOs, Xattrs};
use crate::text;
use crate::wire;

verus! {

/// A single object discovered by the scanner.
#[derive(Debug, Clone)]
pub struct FileEntry {
    /// Path relative to the scan root.
    pub relative_path: String,
    /// Content size in bytes (0 for directories and links).
    pub size: u64,
    /// Permission bits: the final value on a source scan, the raw bits on a
    /// destination scan.
    pub mode: u32,
    /// Modification time in seconds since the Unix epoch.
    pub mtime_sec: i64,
    /// Nanosecond remainder of the modification time.
    pub mtime_nsec: u32,
    /// Content hash, when hashing is enabled.
    pub file_hash: Option<[u8; 32]>,
    /// Whether this entry is a directory.
    pub is_dir: bool,
    /// Target of a link or shortcut.
    pub link_target: Option<String>,
    /// How a link entry is materialized.
    pub link_kind: LinkKind,
    /// Source inode, where there is one.
    pub inode: Option<u64>,
    /// What kind of object this is.
    pub kind: FileKind,
    /// Device number of a device.
    pub rdev: Option<u64>,
    /// Owner, where there is one.
    pub uid: Option<u32>,
    /// Group, where there is one.
    pub gid: Option<u32>,
    /// Last-access time in seconds since the Unix epoch.
    pub atime_sec: i64,
    /// Nanosecond remainder of the last-access time.
    pub atime_nsec: u32,
    /// Extended attributes; `None` when they are not collected.
    pub xattrs: Xattrs,
    /// On-disk source of content that lives outside the scan root.
    pub source_path: Option<String>,
    /// Whether the content lives outside the scan root, so that the source is
    /// never removed.
    pub dereferenced: bool,
}

/// The model of [`FileEntry`].
pub struct EntryV {
    pub relative_path: Seq<char>,
    pub size: u64,
    pub mode: u32,
    pub mtime_sec: i64,
    pub mtime_nsec: u32,
    pub file_hash: Option<Seq<u8>>,
    pub is_dir: bool,
    pub link_target: Option<Seq<char>>,
    pub link_kind: LinkKind,
    pub inode: Option<u64>,
    pub kind: FileKind,
    pub rdev: Option<u64>,
    pub uid: Option<u32>,
    pub gid: Option<u32>,
    pub atime_sec: i64,
    pub atime_nsec: u32,
    pub xattrs: Option<Seq<(Seq<char>, Seq<u8>)>>,
    pub source_path: Option<Seq<char>>,
    pub dereferenced: bool,
}

impl View for FileEntry {
    type V = EntryV;

    open spec fn view(&self) -> EntryV {
        EntryV {
            relative_path: self.relative_path@,
            size: self.size,
            mode: self.mode,
            mtime_sec: self.mtime_sec,
            mtime_nsec: self.mtime_nsec,
            file_hash: protocol::hash_view(self.file_hash),
            is_dir: self.is_dir,
            link_target: text::opt_view(self.link_target),
            link_kind: self.link_kind,
            inode: self.inode,
            kind: self.kind,
            rdev: self.rdev,
            uid: self.uid,
            gid: self.gid,
            atime_sec: self.atime_sec,
            atime_nsec: self.atime_nsec,
            xattrs: protocol::xattrs_view(self.xattrs),
            source_path: text::opt_view(self.source_path),
            dereferenced: self.dereferenced,
        }
    }
}

impl FileEntry {
    /// An equal entry.
    pub fn copy(&self) -> (r: FileEntry)
        ensures
            r@ == self@,
    {
        FileEntry {
            relative_path: text::copy_str(self.relative_path.as_str()),
            size: self.size,
            mode: self.mode,
            mtime_sec: self.mtime_sec,
            mtime_nsec: self.mtime_nsec,
            file_hash: self.file_hash,
            is_dir: self.is_dir,
            link_target: protocol::copy_opt(&self.link_target),
            link_kind: self.link_kind,
            inode: self.inode,
            kind: self.kind,
            rdev: self.rdev,
            uid: self.uid,
            gid: self.gid,
            atime_sec: self.atime_sec,
            atime_nsec: self.atime_nsec,
            xattrs: protocol::copy_xattrs(&self.xattrs),
            source_path: protocol::copy_opt(&self.source_path),
            dereferenced: self.dereferenced,
        }
    }
}

/// The models of a sequence of entries.
pub open spec fn entry_views(v: Seq<FileEntry>) -> Seq<EntryV> {
    v.map_values(|e: FileEntry| e@)
}

/// The paths of a sequence of entries.
pub open spec fn paths(v: Seq<EntryV>) -> Seq<Seq<char>> {
    v.map_values(|e: EntryV| e.relative_path)
}

/// The sum of the sizes of a sequence of entries.
pub open spec fn total_size(v: Seq<EntryV>) -> int
    decreases v.len(),
{
    if v.len() == 0 {
        0
    } else {
        total_size(v.drop_last()) + v.last().size
    }
}

/// A longer sequence has no smaller sum.
pub proof fn lemma_total_size_prefix(v: Seq<EntryV>, n: int)
    requires
        0 <= n <= v.len(),
    ensures
        0 <= total_size(v.take(n)) <= total_size(v),
    decreases v.len() - n,
{
    if n == v.len() {
        assert(v.take(n) =~= v);
        lemma_total_size_nonneg(v);
    } else {
        lemma_total_size_prefix(v, n + 1);
        assert(v.take(n + 1).drop_last() =~= v.take(n));
        lemma_total_size_nonneg(v.take(n));
    }
}

proof fn lemma_total_size_nonneg(v: Seq<EntryV>)
    ensures
        0 <= total_size(v),
    decreases v.len(),
{
    if v.len() > 0 {
        lemma_total_size_nonneg(v.drop_last());
    }
}

/// Whether no path occurs twice in a manifest.
pub open spec fn paths_once(v: Seq<EntryV>) -> bool {
    forall|i: int, j: int|
        0 <= i < j < v.len() ==> (#[trigger] v[i]).relative_path != (#[trigger] v[j]).relative_path
}

/// The sum of the sizes.
pub fn sum_sizes(files: &Vec<FileEntry>) -> (total: u64)
    requires
        total_size(entry_views(files@)) <= u64::MAX,
    ensures
        total == total_size(entry_views(files@)),
{
    let ghost ev = entry_views(files@);
    let mut total: u64 = 0;
    let mut i: usize = 0;
    while i < files.len()
        invariant
            i <= files.len(),
            ev == entry_views(files@),
            total_size(ev) <= u64::MAX,
            total == total_size(ev.take(i as int)),
        decreases files.len() - i,
    {
        proof {
            lemma_total_size_prefix(ev, i + 1);
            assert(ev.take(i + 1).drop_last() =~= ev.take(i as int));
            assert(ev.take(i + 1).last() == files[i as int]@);
        }
        total = total + files[i].size;
        i += 1;
    }
    assert(ev.take(i as int) =~= ev);
    total
}

/// The result of scanning a directory.
#[derive(Debug, Clone)]
pub struct Manifest {
    /// Canonical scan root.
    pub root: String,
    /// All discovered entries.
    pub files: Vec<FileEntry>,
    /// Sum of all sizes.
    pub total_bytes: u64,
    /// Relative paths that the link policy skipped; they are protected from
    /// deletion on the destination.
    pub skipped: Vec<String>,
}

impl Manifest {
    /// The models of the entries.
    pub open spec fn entries(&self) -> Seq<EntryV> {
        entry_views(self.files@)
    }

    /// The manifest of these entries. Their sizes must add up to a number that
    /// fits.
    pub fn of(root: String, files: Vec<FileEntry>, skipped: Vec<String>) -> (r: Manifest)
        requires
            total_size(entry_views(files@)) <= u64::MAX,
        ensures
            r.root == root,
            r.files == files,
            r.total_bytes == total_size(entry_views(files@)),
            r.skipped == skipped,
    {
        let total_bytes = sum_sizes(&files);
        Manifest { root, files, total_bytes, skipped }
    }

    /// Create an empty manifest.
    pub fn new(root: String) -> (r: Manifest)
        ensures
            r.root == root,
            r.entries() == Seq::<EntryV>::empty(),
            r.total_bytes == 0,
            r.skipped@ == Seq::<String>::empty(),
    {
        let r = Manifest { root, files: Vec::new(), total_bytes: 0, skipped: Vec::new() };
        assert(r.entries() =~= Seq::<EntryV>::empty());
        r
    }

    /// Number of entries in the manifest.
    pub fn len(&self) -> (n: usize)
        ensures
            n == self.entries().len(),
    {
        self.files.len()
    }

    /// Whether the manifest has no entries.
    pub fn is_empty(&self) -> (r: bool)
        ensures
            r == (self.entries().len() == 0),
    {
        self.files.len() == 0
    }
}

/// The type of a filesystem object, as its own metadata tells it.
#[derive(Debug, Clone, Copy, PartialEq, Eq, Structural)]
pub enum ObjectType {
    /// A regular file.
    File,
    /// A directory.
    Dir,
    /// A symbolic link.
    Symlink,
    /// Anything else.
    Other,
}

/// The metadata of a filesystem object.
#[derive(Debug, Clone, Copy, PartialEq, Eq, Structural)]
pub struct Stat {
    /// What the object is.
    pub object: ObjectType,
    /// Size in bytes.
    pub size: u64,
    /// Type and permission bits.
    pub mode: u32,
    /// Modification time in seconds since the Unix epoch, not before it.
    pub mtime_sec: u64,
    /// Nanosecond remainder of the modification time.
    pub mtime_nsec: u32,
    /// Access time in seconds since the Unix epoch, not before it.
    pub atime_sec: u64,
    /// Nanosecond remainder of the access time.
    pub atime_nsec: u32,
    /// Inode number, where there is one.
    pub inode: Option<u64>,
    /// Device number, where there is one.
    pub rdev: Option<u64>,
    /// Owner, where there is one.
    pub uid: Option<u32>,
    /// Group, where there is one.
    pub gid: Option<u32>,
}

/// The bits of a mode that hold the object's type.
pub const TYPE_MASK: u32 = 0o170000;

/// The type bits of a named pipe.
pub const TYPE_FIFO: u32 = 0o010000;

/// The type bits of a socket.
pub const TYPE_SOCKET: u32 = 0o140000;

/// The type bits of a block device.
pub const TYPE_BLOCK: u32 = 0o060000;

/// The type bits of a character device.
pub const TYPE_CHAR: u32 = 0o020000;

/// The kind of special file that a mode's type bits name, if any.
pub open spec fn special_of(mode: u32) -> Option<FileKind> {
    if mode & TYPE_MASK == TYPE_FIFO {
        Some(FileKind::Fifo)
    } else if mode & TYPE_MASK == TYPE_SOCKET {
        Some(FileKind::Socket)
    } else if mode & TYPE_MASK == TYPE_BLOCK {
        Some(FileKind::BlockDevice)
    } else if mode & TYPE_MASK == TYPE_CHAR {
        Some(FileKind::CharDevice)
    } else {
        None
    }
}

/// Classify an object by its type bits as a special file.
pub fn special_kind(stat: &Stat) -> (r: Option<FileKind>)
    ensures
        r == special_of(stat.mode),
{
    let bits: u32 = stat.mode & TYPE_MASK;
    if bits == TYPE_FIFO {
        Some(FileKind::Fifo)
    } else if bits == TYPE_SOCKET {
        Some(FileKind::Socket)
    } else if bits == TYPE_BLOCK {
        Some(FileKind::BlockDevice)
    } else if bits == TYPE_CHAR {
        Some(FileKind::CharDevice)
    } else {
        None
    }
}

/// A count of seconds as a signed number; what does not fit becomes the
/// largest one.
pub open spec fn clamped(secs: u64) -> i64 {
    if secs <= i64::MAX {
        secs as i64
    } else {
        i64::MAX
    }
}

/// A count of seconds as a signed number.
fn clamp_secs(secs: u64) -> (r: i64)
    ensures
        r == clamped(secs),
{
    if secs <= 0x7fff_ffff_ffff_ffff {
        secs as i64
    } else {
        i64::MAX
    }
}

/// The entry of an object with its own metadata.
pub open spec fn object_entry(
    rel: Seq<char>,
    stat: Stat,
    kind: FileKind,
    size: u64,
    rdev: Option<u64>,
) -> EntryV {
    EntryV {
        relative_path: rel,
        size,
        mode: stat.mode,
        mtime_sec: clamped(stat.mtime_sec),
        mtime_nsec: stat.mtime_nsec,
        file_hash: None,
        is_dir: kind == FileKind::Dir,
        link_target: None,
        link_kind: LinkKind::Symlink,
        inode: stat.inode,
        kind,
        rdev,
        uid: stat.uid,
        gid: stat.gid,
        atime_sec: clamped(stat.atime_sec),
        atime_nsec: stat.atime_nsec,
        xattrs: None,
        source_path: None,
        dereferenced: false,
    }
}

/// The entry of a regular file.
pub open spec fn file_of(rel: Seq<char>, stat: Stat) -> EntryV {
    object_entry(rel, stat, FileKind::File, stat.size, None)
}

/// The entry of a directory.
pub open spec fn dir_of(rel: Seq<char>, stat: Stat) -> EntryV {
    object_entry(rel, stat, FileKind::Dir, 0, None)
}

/// The entry of a special file.
pub open spec fn special_entry_of(rel: Seq<char>, stat: Stat, kind: FileKind) -> EntryV {
    object_entry(rel, stat, kind, 0, stat.rdev)
}

/// The entry of a link.
pub open spec fn link_of(
    rel: Seq<char>,
    target: Seq<char>,
    kind: LinkKind,
    lmeta: Option<Stat>,
) -> EntryV {
    EntryV {
        relative_path: rel,
        size: 0,
        mode: 0,
        mtime_sec: match lmeta {
            Some(m) => clamped(m.mtime_sec),
            None => 0,
        },
        mtime_nsec: match lmeta {
            Some(m) => m.mtime_nsec,
            None => 0,
        },
        file_hash: None,
        is_dir: false,
        link_target: Some(target),
        link_kind: kind,
        inode: None,
        kind: FileKind::Symlink,
        rdev: None,
        uid: match lmeta {
            Some(m) => m.uid,
            None => None,
        },
        gid: match lmeta {
            Some(m) => m.gid,
            None => None,
        },
        atime_sec: match lmeta {
            Some(m) => clamped(m.atime_sec),
            None => 0,
        },
        atime_nsec: match lmeta {
            Some(m) => m.atime_nsec,
            None => 0,
        },
        xattrs: None,
        source_path: None,
        dereferenced: false,
    }
}

/// The entry of an object with its own metadata.
fn make_entry(rel: String, stat: &Stat, kind: FileKind, size: u64, rdev: Option<u64>) -> (e:
    FileEntry)
    ensures
        e@ == object_entry(rel@, *stat, kind, size, rdev),
{
    FileEntry {
        relative_path: rel,
        size,
        mode: stat.mode,
        mtime_sec: clamp_secs(stat.mtime_sec),
        mtime_nsec: stat.mtime_nsec,
        file_hash: None,
        is_dir: kind == FileKind::Dir,
        link_target: None,
        link_kind: LinkKind::Symlink,
        inode: stat.inode,
        kind,
        rdev,
        uid: stat.uid,
        gid: stat.gid,
        atime_sec: clamp_secs(stat.atime_sec),
        atime_nsec: stat.atime_nsec,
        xattrs: None,
        source_path: None,
        dereferenced: false,
    }
}

/// A regular-file entry; also that of a link whose content is copied.
pub fn file_entry(rel: String, stat: &Stat) -> (e: FileEntry)
    ensures
        e@ == file_of(rel@, *stat),
{
    make_entry(rel, stat, FileKind::File, stat.size, None)
}

/// A directory entry.
pub fn dir_entry(rel: String, stat: &Stat) -> (e: FileEntry)
    ensures
        e@ == dir_of(rel@, *stat),
{
    make_entry(rel, stat, FileKind::Dir, 0, None)
}

/// A special-file entry.
pub fn special_entry(rel: String, stat: &Stat, kind: FileKind) -> (e: FileEntry)
    ensures
        e@ == special_entry_of(rel@, *stat, kind),
{
    make_entry(rel, stat, kind, 0, stat.rdev)
}

/// A link entry, with the link's own metadata and no content.
pub fn symlink_entry(rel: String, target: String, kind: LinkKind, lmeta: &Option<Stat>) -> (e:
    FileEntry)
    ensures
        e@ == link_of(rel@, target@, kind, *lmeta),
{
    match lmeta {
        Some(m) => FileEntry {
            relative_path: rel,
            size: 0,
            mode: 0,
            mtime_sec: clamp_secs(m.mtime_sec),
            mtime_nsec: m.mtime_nsec,
            file_hash: None,
            is_dir: false,
            link_target: Some(target),
            link_kind: kind,
            inode: None,
            kind: FileKind::Symlink,
            rdev: None,
            uid: m.uid,
            gid: m.gid,
            atime_sec: clamp_secs(m.atime_sec),
            atime_nsec: m.atime_nsec,
            xattrs: None,
            source_path: None,
            dereferenced: false,
        },
        None => FileEntry {
            relative_path: rel,
            size: 0,
            mode: 0,
            mtime_sec: 0,
            mtime_nsec: 0,
            file_hash: None,
            is_dir: false,
            link_target: Some(target),
            link_kind: kind,
            inode: None,
            kind: FileKind::Symlink,
            rdev: None,
            uid: None,
            gid: None,
            atime_sec: 0,
            atime_nsec: 0,
            xattrs: None,
            source_path: None,
            dereferenced: false,
        },
    }
}

/// The policy that a scan applies.
#[derive(Debug, Clone)]
pub struct ScanContext {
    /// The operating system that reads the targets of links.
    pub host: TargetOs,
    /// Canonical scan root, as a portable path.
    pub root: String,
    /// Filter on discovered paths.
    pub filter: Option<FilterSet>,
    /// Whether subdirectories are entered.
    pub recursive: bool,
    /// Whether links are kept at all.
    pub preserve_links: bool,
    /// Whether every link is replaced by what it points at.
    pub follow_links: bool,
    /// Whether every link keeps its literal target.
    pub literal_links: bool,
    /// Whether internal links keep their literal target.
    pub literal_internal_links: bool,
    /// Whether links to external files stay links.
    pub literal_external_file_links: bool,
    /// Whether links to external directories stay links.
    pub literal_external_dir_links: bool,
    /// The operating system of the destination.
    pub target_os: TargetOs,
    /// Whether this is a source scan; a destination scan records links as
    /// they are.
    pub is_source: bool,
    /// Whether the source runs Windows, where shortcuts are links.
    pub source_is_windows: bool,
    /// The paths that the peer's source manifest has as links.
    pub source_link_paths: Option<Vec<String>>,
    /// Whether policy skips are worth a warning.
    pub warn: bool,
}

/// Why the link policy skipped an entry.
#[derive(Debug, Clone, Copy, PartialEq, Eq, Structural)]
pub enum SkipReason {
    /// Links are not kept.
    LinkSkipped,
    /// Shortcuts are not kept.
    ShortcutSkipped,
    /// A followed link points at nothing readable.
    UnreadableFollowed,
    /// A followed shortcut points at nothing readable.
    UnreadableShortcut,
    /// The link leads back to itself or to a directory already entered.
    LoopDetected,
    /// A link to an external file that cannot be read.
    UnreadableExternalFile,
    /// A link to an external directory.
    ExternalDirectory,
    /// A link to nothing, outside the root.
    DanglingExternal,
    /// A followed directory that cannot be resolved.
    UnreadableDirectory,
}

impl SkipReason {
    /// The reason in words.
    pub open spec fn words(&self) -> Seq<char> {
        match *self {
            SkipReason::LinkSkipped => "link skipped (--skip-links)"@,
            SkipReason::ShortcutSkipped => "shortcut skipped (--skip-links)"@,
            SkipReason::UnreadableFollowed =>
            "unreadable or special link target (--follow-links)"@,
            SkipReason::UnreadableShortcut =>
            "directory or unreadable .lnk target (--follow-links)"@,
            SkipReason::LoopDetected => "loop detected"@,
            SkipReason::UnreadableExternalFile => "unreadable external file link"@,
            SkipReason::ExternalDirectory =>
            "external directory link (--literal-external-dir-links to keep)"@,
            SkipReason::DanglingExternal => "dangling external link"@,
            SkipReason::UnreadableDirectory => "external directory link unreadable"@,
        }
    }

    /// The reason in words.
    pub fn text(&self) -> (r: &'static str)
        ensures
            r@ == self.words(),
    {
        match self {
            SkipReason::LinkSkipped => "link skipped (--skip-links)",
            SkipReason::ShortcutSkipped => "shortcut skipped (--skip-links)",
            SkipReason::UnreadableFollowed => "unreadable or special link target (--follow-links)",
            SkipReason::UnreadableShortcut =>
            "directory or unreadable .lnk target (--follow-links)",
            SkipReason::LoopDetected => "loop detected",
            SkipReason::UnreadableExternalFile => "unreadable external file link",
            SkipReason::ExternalDirectory =>
            "external directory link (--literal-external-dir-links to keep)",
            SkipReason::DanglingExternal => "dangling external link",
            SkipReason::UnreadableDirectory => "external directory link unreadable",
        }
    }
}

/// What a link contributes to a scan.
#[derive(Debug, Clone)]
pub enum Found {
    /// An entry.
    Entry(FileEntry),
    /// Nothing, by policy; the path is protected from deletion.
    Skipped(SkipReason),
    /// The contents of the directory at this path, under the link's name.
    Descend(String),
    /// Nothing.
    Nothing,
}

/// The model of [`Found`].
pub enum FoundV {
    Entry(EntryV),
    Skipped(SkipReason),
    Descend(Seq<char>),
    Nothing,
}

impl View for Found {
    type V = FoundV;

    open spec fn view(&self) -> FoundV {
        match *self {
            Found::Entry(e) => FoundV::Entry(e@),
            Found::Skipped(r) => FoundV::Skipped(r),
            Found::Descend(p) => FoundV::Descend(p@),
            Found::Nothing => FoundV::Nothing,
        }
    }
}

/// What the filesystem tells about a link.
#[derive(Debug, Clone)]
pub struct LinkFacts {
    /// The link's own metadata.
    pub lmeta: Option<Stat>,
    /// The metadata of what the link leads to.
    pub referent: Option<Stat>,
    /// The canonical form of the resolved target, where it exists.
    pub canonical: Option<RealPath>,
    /// The canonical form of the part of the resolved target that exists,
    /// with the rest appended; asked for when `canonical` is not known.
    pub partial: Option<String>,
}

/// The path below the root that an internal link points at. The text of the
/// target decides where it can; a target reached through other links is
/// judged by its real path, a dangling one by the part of it that exists.
pub open spec fn internal_target(
    os: TargetOs,
    link_path: Seq<char>,
    target: Seq<char>,
    root: Seq<char>,
    canonical: Option<Seq<char>>,
    partial: Option<Seq<char>>,
) -> Seq<char> {
    let full = linkpolicy::resolved(os, link_path, target);
    match path::stripped(full, root) {
        Some(rel) => wire::wire_text(rel),
        None => match canonical {
            Some(c) => match path::stripped(c, root) {
                Some(rel) => wire::wire_text(rel),
                None => wire::wire_text(host::native(os, c)),
            },
            None => {
                let best = match partial {
                    Some(p) => p,
                    None => linkpolicy::normalized_in(os, full),
                };
                match path::stripped(best, root) {
                    Some(rel) => wire::wire_text(rel),
                    None => wire::wire_text(host::native(os, full)),
                }
            },
        },
    }
}

/// The path below the root that an internal link points at.
pub fn rel_of_internal_target(
    os: TargetOs,
    link_path: &str,
    target: &str,
    root: &str,
    canonical: &Option<RealPath>,
    partial: &Option<String>,
) -> (out: String)
    ensures
        out@ == internal_target(
            os,
            link_path@,
            target@,
            root@,
            match *canonical {
                Some(c) => Some(c.path@),
                None => None,
            },
            text::opt_view(*partial),
        ),
{
    let full = linkpolicy::resolve_target(os, link_path, target);
    if let Some(rel) = path::strip_prefix(full.as_str(), root) {
        return wire::wire_str(rel.as_str());
    }
    match canonical {
        Some(c) => match path::strip_prefix(c.path.as_str(), root) {
            Some(rel) => wire::wire_str(rel.as_str()),
            None => {
                let shown = host::to_native(os, c.path.as_str());
                wire::wire_str(shown.as_str())
            },
        },
        None => {
            let best = match partial {
                Some(p) => text::copy_str(p.as_str()),
                None => linkpolicy::lexical_normalize_in(os, full.as_str()),
            };
            match path::strip_prefix(best.as_str(), root) {
                Some(rel) => wire::wire_str(rel.as_str()),
                None => {
                    let shown = host::to_native(os, full.as_str());
                    wire::wire_str(shown.as_str())
                },
            }
        },
    }
}

/// How a preserved link is materialized on the destination.
pub open spec fn preserved_kind(target_os: TargetOs) -> LinkKind {
    if target_os == TargetOs::Windows {
        LinkKind::Lnk
    } else {
        LinkKind::Symlink
    }
}

/// Whether a link's target, taken lexically, is the link itself.
pub open spec fn self_link(os: TargetOs, link_path: Seq<char>, target: Seq<char>) -> bool {
    path::comps(
        linkpolicy::normalized_in(os, linkpolicy::resolved(os, link_path, target)),
    ) == path::comps(linkpolicy::normalized_in(os, link_path))
}

/// The entry of a link whose content is copied in its place. The content is
/// another file's, so it is never removed.
pub open spec fn content_of(rel: Seq<char>, m: Stat) -> EntryV {
    EntryV { dereferenced: true, ..file_of(rel, m) }
}

/// What the link at `link_path`, named `rel` and pointing at `target`,
/// contributes.
pub open spec fn link_outcome(
    ctx: ScanContext,
    link_path: Seq<char>,
    rel: Seq<char>,
    target: Seq<char>,
    facts: LinkFacts,
) -> FoundV {
    let as_is = FoundV::Entry(link_of(rel, target, LinkKind::Symlink, facts.lmeta));
    let kind = preserved_kind(ctx.target_os);
    let literal = FoundV::Entry(link_of(rel, target, kind, facts.lmeta));
    if !ctx.preserve_links {
        if ctx.is_source {
            FoundV::Skipped(SkipReason::LinkSkipped)
        } else {
            as_is
        }
    } else if ctx.follow_links {
        if !ctx.is_source {
            as_is
        } else {
            match facts.referent {
                Some(m) => if m.object == ObjectType::File {
                    FoundV::Entry(content_of(rel, m))
                } else if m.object == ObjectType::Dir {
                    FoundV::Descend(link_path)
                } else {
                    FoundV::Skipped(SkipReason::UnreadableFollowed)
                },
                None => FoundV::Skipped(SkipReason::UnreadableFollowed),
            }
        }
    } else if ctx.literal_links {
        literal
    } else {
        match linkpolicy::link_class(
            ctx.host,
            link_path,
            target,
            ctx.root@,
            linkpolicy::real_view(facts.canonical),
        ) {
            LinkClass::Internal => if ctx.is_source && self_link(ctx.host, link_path, target) {
                FoundV::Skipped(SkipReason::LoopDetected)
            } else if ctx.literal_internal_links {
                literal
            } else {
                let inside = internal_target(
                    ctx.host,
                    link_path,
                    target,
                    ctx.root@,
                    match facts.canonical {
                        Some(c) => Some(c.path@),
                        None => None,
                    },
                    text::opt_view(facts.partial),
                );
                FoundV::Entry(
                    link_of(rel, linkpolicy::rewritten(rel, inside), kind, facts.lmeta),
                )
            },
            LinkClass::ExternalFile => if !ctx.is_source || (ctx.literal_external_file_links
                && ctx.target_os == TargetOs::Unix) {
                as_is
            } else {
                match facts.referent {
                    Some(m) => if m.object == ObjectType::File {
                        FoundV::Entry(content_of(rel, m))
                    } else {
                        FoundV::Skipped(SkipReason::UnreadableExternalFile)
                    },
                    None => FoundV::Skipped(SkipReason::UnreadableExternalFile),
                }
            },
            LinkClass::ExternalDir => if ctx.literal_external_dir_links {
                literal
            } else if ctx.is_source {
                FoundV::Skipped(SkipReason::ExternalDirectory)
            } else {
                FoundV::Nothing
            },
            LinkClass::DanglingExternal => if ctx.is_source {
                FoundV::Skipped(SkipReason::DanglingExternal)
            } else {
                FoundV::Nothing
            },
        }
    }
}

/// How a preserved link is materialized on the destination.
fn kind_for(target_os: TargetOs) -> (k: LinkKind)
    ensures
        k == preserved_kind(target_os),
{
    match target_os {
        TargetOs::Windows => LinkKind::Lnk,
        TargetOs::Unix => LinkKind::Symlink,
    }
}

/// Decide what a link contributes: the one decision point that the full walk,
/// the targeted probe and the followed directories share.
pub fn scan_link(ctx: &ScanContext, link_path: &str, rel: &str, target: &str, facts: &LinkFacts) -> (r:
    Found)
    ensures
        r@ == link_outcome(*ctx, link_path@, rel@, target@, *facts),
{
    if !ctx.preserve_links {
        if ctx.is_source {
            return Found::Skipped(SkipReason::LinkSkipped);
        }
        return kept(rel, target, LinkKind::Symlink, &facts.lmeta);
    }
    if ctx.follow_links {
        if !ctx.is_source {
            return kept(rel, target, LinkKind::Symlink, &facts.lmeta);
        }
        return match &facts.referent {
            Some(m) => match m.object {
                ObjectType::File => content_in_place(rel, m),
                ObjectType::Dir => Found::Descend(text::copy_str(link_path)),
                _ => Found::Skipped(SkipReason::UnreadableFollowed),
            },
            None => Found::Skipped(SkipReason::UnreadableFollowed),
        };
    }
    let kind = kind_for(ctx.target_os);
    if ctx.literal_links {
        return kept(rel, target, kind, &facts.lmeta);
    }
    match linkpolicy::classify_link(
        ctx.host,
        link_path,
        target,
        ctx.root.as_str(),
        &facts.canonical,
    ) {
        LinkClass::Internal => {
            if ctx.is_source {
                let full = linkpolicy::resolve_target(ctx.host, link_path, target);
                let there = linkpolicy::lexical_normalize_in(ctx.host, full.as_str());
                let here = linkpolicy::lexical_normalize_in(ctx.host, link_path);
                if path::same_path(there.as_str(), here.as_str()) {
                    return Found::Skipped(SkipReason::LoopDetected);
                }
            }
            if ctx.literal_internal_links {
                return kept(rel, target, kind, &facts.lmeta);
            }
            let inside = rel_of_internal_target(
                ctx.host,
                link_path,
                target,
                ctx.root.as_str(),
                &facts.canonical,
                &facts.partial,
            );
            let new_target = linkpolicy::rewrite_internal_target(rel, inside.as_str());
            kept(rel, new_target.as_str(), kind, &facts.lmeta)
        },
        LinkClass::ExternalFile => {
            if !ctx.is_source || (ctx.literal_external_file_links && ctx.target_os
                == TargetOs::Unix) {
                return kept(rel, target, LinkKind::Symlink, &facts.lmeta);
            }
            match &facts.referent {
                Some(m) => match m.object {
                    ObjectType::File => content_in_place(rel, m),
                    _ => Found::Skipped(SkipReason::UnreadableExternalFile),
                },
                None => Found::Skipped(SkipReason::UnreadableExternalFile),
            }
        },
        LinkClass::ExternalDir => {
            if ctx.literal_external_dir_links {
                kept(rel, target, kind, &facts.lmeta)
            } else if ctx.is_source {
                Found::Skipped(SkipReason::ExternalDirectory)
            } else {
                Found::Nothing
            }
        },
        LinkClass::DanglingExternal => {
            if ctx.is_source {
                Found::Skipped(SkipReason::DanglingExternal)
            } else {
                Found::Nothing
            }
        },
    }
}

/// A link whose content is copied in its place.
fn content_in_place(rel: &str, m: &Stat) -> (r: Found)
    ensures
        r@ == FoundV::Entry(content_of(rel@, *m)),
{
    let mut entry = file_entry(text::copy_str(rel), m);
    entry.dereferenced = true;
    Found::Entry(entry)
}

/// A link kept as a link.
fn kept(rel: &str, target: &str, kind: LinkKind, lmeta: &Option<Stat>) -> (r: Found)
    ensures
        r@ == FoundV::Entry(link_of(rel@, target@, kind, *lmeta)),
{
    Found::Entry(symlink_entry(text::copy_str(rel), text::copy_str(target), kind, lmeta))
}

/// What the filesystem and the shortcut parser tell about a shortcut.
#[derive(Debug, Clone)]
pub struct ShortcutFacts {
    /// The shortcut file's own metadata.
    pub lmeta: Stat,
    /// The target stored in the shortcut; `None` when it cannot be parsed.
    pub target: Option<String>,
    /// The metadata of the resolved target.
    pub referent: Option<Stat>,
    /// The canonical form of the resolved target, where it exists.
    pub canonical: Option<RealPath>,
    /// The canonical form of the part of the resolved target that exists.
    pub partial: Option<String>,
}

/// What the shortcut at `link_path`, named `rel`, contributes.
pub open spec fn shortcut_outcome(
    ctx: ScanContext,
    link_path: Seq<char>,
    rel: Seq<char>,
    facts: ShortcutFacts,
) -> FoundV {
    let as_data = FoundV::Entry(file_of(rel, facts.lmeta));
    match facts.target {
        None => if !ctx.preserve_links && ctx.is_source {
            FoundV::Skipped(SkipReason::ShortcutSkipped)
        } else {
            as_data
        },
        Some(t) => {
            let as_shortcut = FoundV::Entry(
                link_of(rel, wire::wire_text(t@), LinkKind::Lnk, Some(facts.lmeta)),
            );
            let kind = preserved_kind(ctx.target_os);
            if !ctx.preserve_links {
                if ctx.is_source {
                    FoundV::Skipped(SkipReason::ShortcutSkipped)
                } else {
                    as_shortcut
                }
            } else if ctx.follow_links {
                if !ctx.is_source {
                    as_shortcut
                } else {
                    let full = linkpolicy::resolved(ctx.host, link_path, t@);
                    match facts.referent {
                        Some(m) => if m.object == ObjectType::File {
                            FoundV::Entry(
                                EntryV {
                                    source_path: Some(full),
                                    dereferenced: true,
                                    ..file_of(rel, m)
                                },
                            )
                        } else if m.object == ObjectType::Dir {
                            FoundV::Descend(full)
                        } else {
                            FoundV::Skipped(SkipReason::UnreadableShortcut)
                        },
                        None => FoundV::Skipped(SkipReason::UnreadableShortcut),
                    }
                }
            } else if ctx.literal_links {
                as_shortcut
            } else if linkpolicy::link_class(
            ctx.host,
            link_path,
                t@,
                ctx.root@,
                linkpolicy::real_view(facts.canonical),
            ) == LinkClass::Internal {
                if ctx.literal_internal_links {
                    FoundV::Entry(link_of(rel, wire::wire_text(t@), kind, Some(facts.lmeta)))
                } else {
                    let inside = internal_target(
                    ctx.host,
                    link_path,
                        t@,
                        ctx.root@,
                        match facts.canonical {
                            Some(c) => Some(c.path@),
                            None => None,
                        },
                        text::opt_view(facts.partial),
                    );
                    FoundV::Entry(
                        link_of(rel, linkpolicy::rewritten(rel, inside), kind, Some(facts.lmeta)),
                    )
                }
            } else {
                as_data
            }
        },
    }
}

/// Decide what a shortcut contributes: an internal one becomes a link, an
/// external or unparseable one travels as data.
pub fn scan_lnk(ctx: &ScanContext, link_path: &str, rel: &str, facts: &ShortcutFacts) -> (r: Found)
    ensures
        r@ == shortcut_outcome(*ctx, link_path@, rel@, *facts),
{
    if !ctx.preserve_links && ctx.is_source {
        return Found::Skipped(SkipReason::ShortcutSkipped);
    }
    let target = match &facts.target {
        None => {
            return Found::Entry(file_entry(text::copy_str(rel), &facts.lmeta));
        },
        Some(t) => t,
    };
    let lmeta = Some(facts.lmeta);
    let wired = wire::wire_str(target.as_str());
    if !ctx.preserve_links {
        return kept(rel, wired.as_str(), LinkKind::Lnk, &lmeta);
    }
    if ctx.follow_links {
        if !ctx.is_source {
            return kept(rel, wired.as_str(), LinkKind::Lnk, &lmeta);
        }
        let full = linkpolicy::resolve_target(ctx.host, link_path, target.as_str());
        return match &facts.referent {
            Some(m) => match m.object {
                ObjectType::File => {
                    let mut entry = file_entry(text::copy_str(rel), m);
                    entry.source_path = Some(full);
                    entry.dereferenced = true;
                    Found::Entry(entry)
                },
                ObjectType::Dir => Found::Descend(full),
                _ => Found::Skipped(SkipReason::UnreadableShortcut),
            },
            None => Found::Skipped(SkipReason::UnreadableShortcut),
        };
    }
    if ctx.literal_links {
        return kept(rel, wired.as_str(), LinkKind::Lnk, &lmeta);
    }
    match linkpolicy::classify_link(
        ctx.host,
        link_path,
        target.as_str(),
        ctx.root.as_str(),
        &facts.canonical,
    ) {
        LinkClass::Internal => {
            let kind = kind_for(ctx.target_os);
            if ctx.literal_internal_links {
                return kept(rel, wired.as_str(), kind, &lmeta);
            }
            let inside = rel_of_internal_target(
                ctx.host,
                link_path,
                target.as_str(),
                ctx.root.as_str(),
                &facts.canonical,
                &facts.partial,
            );
            let new_target = linkpolicy::rewrite_internal_target(rel, inside.as_str());
            kept(rel, new_target.as_str(), kind, &lmeta)
        },
        _ => Found::Entry(file_entry(text::copy_str(rel), &facts.lmeta)),
    }
}

/// What one object found on a walk contributes.
#[derive(Debug, Clone)]
pub enum Step {
    /// Nothing.
    Nothing,
    /// An entry.
    Entry(FileEntry),
    /// A directory entry, and its contents.
    Enter(FileEntry),
    /// What [`scan_lnk`] says.
    Shortcut,
    /// What [`scan_link`] says.
    Link,
    /// What a scan of its own finds.
    Scan,
}

/// The model of [`Step`].
pub enum StepV {
    Nothing,
    Entry(EntryV),
    Enter(EntryV),
    Shortcut,
    Link,
    Scan,
}

impl View for Step {
    type V = StepV;

    open spec fn view(&self) -> StepV {
        match *self {
            Step::Nothing => StepV::Nothing,
            Step::Entry(e) => StepV::Entry(e@),
            Step::Enter(e) => StepV::Enter(e@),
            Step::Shortcut => StepV::Shortcut,
            Step::Link => StepV::Link,
            Step::Scan => StepV::Scan,
        }
    }
}

/// Whether a path's extension is that of a shortcut.
pub open spec fn shortcut_named(p: Seq<char>) -> bool {
    match path::file_name_of(p) {
        Some(name) => match path::extension_of(name) {
            Some(ext) => text::lowered(ext) == "lnk"@,
            None => false,
        },
        None => false,
    }
}

/// Whether the first bytes of a file are those of a shortcut.
pub open spec fn shortcut_head(head: Seq<u8>) -> bool {
    head.len() >= 4 && linkpolicy::le_head(head) == 0x4C
}

/// Whether a list of paths holds a path.
pub open spec fn lists(paths: Option<Vec<String>>, p: Seq<char>) -> bool {
    match paths {
        Some(v) => text::views(v@).contains(p),
        None => false,
    }
}

/// Whether the file at `p`, named `rel`, counts as a shortcut. On a source it
/// needs the extension and the head, and literal links off; on a destination
/// the head suffices for a path that the peer has as a link.
pub open spec fn shortcut_entry(
    ctx: ScanContext,
    p: Seq<char>,
    rel: Seq<char>,
    head: Seq<u8>,
) -> bool {
    if ctx.is_source {
        !ctx.literal_links && shortcut_named(p) && shortcut_head(head)
    } else {
        lists(ctx.source_link_paths, rel) && shortcut_head(head)
    }
}

/// Whether the file at `p` is a shortcut: by its extension and by its first
/// bytes `head`.
pub fn is_lnk_file(p: &str, head: &[u8]) -> (r: bool)
    ensures
        r == (shortcut_named(p@) && shortcut_head(head@)),
{
    match path::extension(p) {
        None => false,
        Some(ext) => {
            proof {
                reveal_strlit("lnk");
                assert(text::lowered("lnk"@) =~= "lnk"@);
            }
            text::same_ignoring_case(ext.as_str(), "lnk") && linkpolicy::is_lnk_magic(head)
        },
    }
}

/// Whether a list of paths holds a path.
fn in_list(list: &Vec<String>, p: &str) -> (r: bool)
    ensures
        r == text::views(list@).contains(p@),
{
    let ghost lv = text::views(list@);
    let mut i: usize = 0;
    while i < list.len()
        invariant
            i <= list.len(),
            lv == text::views(list@),
            forall|j: int| 0 <= j < i ==> lv[j] != p@,
        decreases list.len() - i,
    {
        if text::same(list[i].as_str(), p) {
            assert(lv[i as int] == p@);
            return true;
        }
        i += 1;
    }
    false
}

/// Whether the file at `p`, named `rel` and starting with `head`, counts as a
/// shortcut on this scan.
pub fn is_lnk_entry(p: &str, rel: &str, ctx: &ScanContext, head: &[u8]) -> (r: bool)
    ensures
        r == shortcut_entry(*ctx, p@, rel@, head@),
{
    if ctx.is_source {
        return !ctx.literal_links && is_lnk_file(p, head);
    }
    match &ctx.source_link_paths {
        Some(links) => in_list(links, rel) && linkpolicy::is_lnk_magic(head),
        None => false,
    }
}

/// What an object other than a directory contributes to a walk or a probe.
pub open spec fn leaf_step(
    ctx: ScanContext,
    p: Seq<char>,
    rel: Seq<char>,
    stat: Stat,
    head: Seq<u8>,
) -> StepV {
    match stat.object {
        ObjectType::File => if ctx.source_is_windows && shortcut_entry(ctx, p, rel, head) {
            StepV::Shortcut
        } else {
            StepV::Entry(file_of(rel, stat))
        },
        ObjectType::Symlink => StepV::Link,
        _ => match special_of(stat.mode) {
            Some(kind) => StepV::Entry(special_entry_of(rel, stat, kind)),
            None => StepV::Nothing,
        },
    }
}

/// What an object other than a directory contributes to a walk or a probe.
fn leaf(ctx: &ScanContext, p: &str, rel: &str, stat: &Stat, head: &[u8]) -> (r: Step)
    ensures
        r@ == leaf_step(*ctx, p@, rel@, *stat, head@),
{
    match stat.object {
        ObjectType::File => {
            if ctx.source_is_windows && is_lnk_entry(p, rel, ctx, head) {
                Step::Shortcut
            } else {
                Step::Entry(file_entry(text::copy_str(rel), stat))
            }
        },
        ObjectType::Symlink => Step::Link,
        _ => match special_kind(stat) {
            Some(kind) => Step::Entry(special_entry(text::copy_str(rel), stat, kind)),
            None => Step::Nothing,
        },
    }
}

/// What one object contributes to the full walk.
pub open spec fn walked(
    ctx: ScanContext,
    p: Seq<char>,
    rel: Seq<char>,
    stat: Stat,
    head: Seq<u8>,
) -> StepV {
    if stat.object == ObjectType::Dir {
        if ctx.recursive {
            StepV::Entry(dir_of(rel, stat))
        } else {
            StepV::Nothing
        }
    } else {
        leaf_step(ctx, p, rel, stat, head)
    }
}

/// One object of the full walk: a directory counts only in a recursive scan.
pub fn walk_step(ctx: &ScanContext, p: &str, rel: &str, stat: &Stat, head: &[u8]) -> (r: Step)
    ensures
        r@ == walked(*ctx, p@, rel@, *stat, head@),
        r@ == if stat.object == ObjectType::Dir {
            if ctx.recursive {
                StepV::Entry(dir_of(rel@, *stat))
            } else {
                StepV::Nothing
            }
        } else {
            leaf_step(*ctx, p@, rel@, *stat, head@)
        },
{
    match stat.object {
        ObjectType::Dir => {
            if ctx.recursive {
                Step::Entry(dir_entry(text::copy_str(rel), stat))
            } else {
                Step::Nothing
            }
        },
        _ => leaf(ctx, p, rel, stat, head),
    }
}

/// What one object contributes to the targeted probe.
pub open spec fn probed(
    ctx: ScanContext,
    p: Seq<char>,
    rel: Seq<char>,
    stat: Stat,
    head: Seq<u8>,
) -> StepV {
    if stat.object == ObjectType::Dir {
        StepV::Entry(dir_of(rel, stat))
    } else {
        leaf_step(ctx, p, rel, stat, head)
    }
}

/// One object of the targeted probe: recorded as it is.
pub fn probe_step(ctx: &ScanContext, p: &str, rel: &str, stat: &Stat, head: &[u8]) -> (r: Step)
    ensures
        r@ == probed(*ctx, p@, rel@, *stat, head@),
        r@ == if stat.object == ObjectType::Dir {
            StepV::Entry(dir_of(rel@, *stat))
        } else {
            leaf_step(*ctx, p@, rel@, *stat, head@)
        },
{
    match stat.object {
        ObjectType::Dir => Step::Entry(dir_entry(text::copy_str(rel), stat)),
        _ => leaf(ctx, p, rel, stat, head),
    }
}

/// Whether a shortcut in a place outside the peer's list counts as one: on a
/// Windows source, with literal links off.
pub open spec fn plain_shortcut(ctx: ScanContext, p: Seq<char>, head: Seq<u8>) -> bool {
    ctx.source_is_windows && !ctx.literal_links && shortcut_named(p) && shortcut_head(head)
}

/// What one root among several contributes.
pub open spec fn matched(
    ctx: ScanContext,
    p: Seq<char>,
    rel: Seq<char>,
    stat: Stat,
    head: Seq<u8>,
) -> StepV {
    match stat.object {
        ObjectType::Symlink => StepV::Link,
        ObjectType::Other => match special_of(stat.mode) {
            Some(kind) => StepV::Entry(special_entry_of(rel, stat, kind)),
            None => StepV::Nothing,
        },
        ObjectType::File => if plain_shortcut(ctx, p, head) {
            StepV::Shortcut
        } else {
            StepV::Scan
        },
        ObjectType::Dir => StepV::Scan,
    }
}

/// One root among several: a link or shortcut is decided like any other, a
/// file or directory is scanned on its own.
pub fn match_step(ctx: &ScanContext, p: &str, rel: &str, stat: &Stat, head: &[u8]) -> (r: Step)
    ensures
        r@ == matched(*ctx, p@, rel@, *stat, head@),
        r@ == match stat.object {
            ObjectType::Symlink => StepV::Link,
            ObjectType::Other => match special_of(stat.mode) {
                Some(kind) => StepV::Entry(special_entry_of(rel@, *stat, kind)),
                None => StepV::Nothing,
            },
            ObjectType::File => if plain_shortcut(*ctx, p@, head@) {
                StepV::Shortcut
            } else {
                StepV::Scan
            },
            ObjectType::Dir => StepV::Scan,
        },
{
    match stat.object {
        ObjectType::Symlink => Step::Link,
        ObjectType::Other => match special_kind(stat) {
            Some(kind) => Step::Entry(special_entry(text::copy_str(rel), stat, kind)),
            None => Step::Nothing,
        },
        ObjectType::File => {
            if ctx.source_is_windows && !ctx.literal_links && is_lnk_file(p, head) {
                Step::Shortcut
            } else {
                Step::Scan
            }
        },
        ObjectType::Dir => Step::Scan,
    }
}

/// What one object in a followed directory contributes.
pub open spec fn followed(
    ctx: ScanContext,
    p: Seq<char>,
    rel: Seq<char>,
    stat: Stat,
    head: Seq<u8>,
) -> StepV {
    match stat.object {
        ObjectType::Dir => if ctx.recursive {
            StepV::Enter(dir_of(rel, stat))
        } else {
            StepV::Nothing
        },
        ObjectType::File => if plain_shortcut(ctx, p, head) {
            StepV::Shortcut
        } else {
            StepV::Entry(
                (EntryV {
                    source_path: Some(p),
                    dereferenced: true,
                    ..file_of(rel, stat)
                }),
            )
        },
        ObjectType::Symlink => StepV::Link,
        ObjectType::Other => match special_of(stat.mode) {
            Some(kind) => StepV::Entry(
                (EntryV { dereferenced: true, ..special_entry_of(rel, stat, kind) }),
            ),
            None => StepV::Nothing,
        },
    }
}

/// One object in a followed directory: its content lives outside the root, so
/// it carries its own source and is never removed there.
pub fn child_step(ctx: &ScanContext, p: &str, rel: &str, stat: &Stat, head: &[u8]) -> (r: Step)
    ensures
        r@ == followed(*ctx, p@, rel@, *stat, head@),
        r@ == match stat.object {
            ObjectType::Dir => if ctx.recursive {
                StepV::Enter(dir_of(rel@, *stat))
            } else {
                StepV::Nothing
            },
            ObjectType::File => if plain_shortcut(*ctx, p@, head@) {
                StepV::Shortcut
            } else {
                StepV::Entry(
                    (EntryV {
                        source_path: Some(p@),
                        dereferenced: true,
                        ..file_of(rel@, *stat)
                    }),
                )
            },
            ObjectType::Symlink => StepV::Link,
            ObjectType::Other => match special_of(stat.mode) {
                Some(kind) => StepV::Entry(
                    (EntryV { dereferenced: true, ..special_entry_of(rel@, *stat, kind) }),
                ),
                None => StepV::Nothing,
            },
        },
{
    match stat.object {
        ObjectType::Dir => {
            if ctx.recursive {
                Step::Enter(dir_entry(text::copy_str(rel), stat))
            } else {
                Step::Nothing
            }
        },
        ObjectType::File => {
            if ctx.source_is_windows && !ctx.literal_links && is_lnk_file(p, head) {
                Step::Shortcut
            } else {
                let mut entry = file_entry(text::copy_str(rel), stat);
                entry.source_path = Some(text::copy_str(p));
                entry.dereferenced = true;
                Step::Entry(entry)
            }
        },
        ObjectType::Symlink => Step::Link,
        ObjectType::Other => match special_kind(stat) {
            Some(kind) => {
                let mut entry = special_entry(text::copy_str(rel), stat, kind);
                entry.dereferenced = true;
                Step::Entry(entry)
            },
            None => Step::Nothing,
        },
    }
}

/// The name of a child below a prefix.
pub open spec fn child_path(prefix: Seq<char>, name: Seq<char>) -> Seq<char> {
    if prefix.len() == 0 {
        name
    } else {
        prefix.push('/') + name
    }
}

/// The name of a child below a prefix.
pub fn child_rel(prefix: &str, name: &str) -> (out: String)
    ensures
        out@ == child_path(prefix@, name@),
{
    if prefix.is_empty() {
        return text::copy_str(name);
    }
    let mut out = text::copy_str(prefix);
    out.push('/');
    text::push_text(&mut out, name);
    out
}

/// Whether an optional filter lets a path pass.
pub open spec fn admitted(filter: Option<FilterSet>, rel: Seq<char>) -> bool {
    match filter {
        Some(f) => f.lets_pass(rel),
        None => true,
    }
}

/// Whether an optional filter lets a path pass.
pub fn admits(filter: &Option<FilterSet>, rel: &str) -> (r: bool)
    ensures
        r == admitted(*filter, rel@),
{
    match filter {
        Some(f) => f.passes(rel),
        None => true,
    }
}

/// The directories that followed links have led into.
pub struct Visited {
    dirs: Vec<String>,
}

/// The paths, as component sequences, of a list of texts.
pub open spec fn path_set(v: Seq<String>) -> Set<Seq<path::Comp>> {
    v.map_values(|s: String| path::comps(s@)).to_set()
}

impl View for Visited {
    type V = Set<Seq<path::Comp>>;

    closed spec fn view(&self) -> Set<Seq<path::Comp>> {
        path_set(self.dirs@)
    }
}

impl Visited {
    /// No directory yet.
    pub fn new() -> (r: Visited)
        ensures
            r@ == Set::<Seq<path::Comp>>::empty(),
    {
        let r = Visited { dirs: Vec::new() };
        assert(r@ =~= Set::<Seq<path::Comp>>::empty());
        r
    }

    /// Remember a directory; `false` when it was known already.
    pub fn insert(&mut self, dir: &str) -> (fresh: bool)
        ensures
            fresh == !old(self)@.contains(path::comps(dir@)),
            final(self)@ == old(self)@.insert(path::comps(dir@)),
    {
        let ghost f = |s: String| path::comps(s@);
        let ghost known = self.dirs@.map_values(f);
        let mut i: usize = 0;
        while i < self.dirs.len()
            invariant
                i <= self.dirs.len(),
                self == old(self),
                f == (|s: String| path::comps(s@)),
                known == self.dirs@.map_values(f),
                forall|j: int| 0 <= j < i ==> known[j] != path::comps(dir@),
            decreases self.dirs.len() - i,
        {
            if path::same_path(self.dirs[i].as_str(), dir) {
                assert(known[i as int] == path::comps(dir@));
                assert(known.contains(path::comps(dir@)));
                assert(self@.insert(path::comps(dir@)) =~= self@);
                return false;
            }
            i += 1;
        }
        let copy = text::copy_str(dir);
        self.dirs.push(copy);
        proof {
            let now = self.dirs@.map_values(f);
            assert(now =~= known.push(path::comps(dir@)));
            assert forall|x: Seq<path::Comp>|
                now.to_set().contains(x) <==> known.to_set().insert(path::comps(dir@)).contains(
                    x,
                ) by {
                if known.contains(x) {
                    let j = choose|j: int| 0 <= j < known.len() && known[j] == x;
                    assert(now[j] == x);
                }
                if now.contains(x) && x != path::comps(dir@) {
                    let j = choose|j: int| 0 <= j < now.len() && now[j] == x;
                    assert(known[j] == x);
                }
                assert(now[now.len() - 1] == path::comps(dir@));
            }
            assert(self@ =~= old(self)@.insert(path::comps(dir@)));
        }
        true
    }
}

/// How a followed directory is entered.
#[derive(Debug, Clone)]
pub enum External {
    /// Not at all.
    Skipped(SkipReason),
    /// Entered, with its own entry where its metadata could be read.
    Enter(Option<FileEntry>),
}

/// Enter a directory that a followed link leads to. `canonical` is its real
/// path, `stat` its metadata; a directory is entered only once.
pub fn walk_external(
    canonical: &Option<String>,
    stat: &Option<Stat>,
    rel: &str,
    visited: &mut Visited,
) -> (r: External)
    ensures
        match *canonical {
            None => r == External::Skipped(SkipReason::UnreadableDirectory) && final(visited)@
                == old(visited)@,
            Some(dir) => {
                &&& final(visited)@ == old(visited)@.insert(path::comps(dir@))
                &&& if old(visited)@.contains(path::comps(dir@)) {
                    r == External::Skipped(SkipReason::LoopDetected)
                } else {
                    match r {
                        External::Skipped(_) => false,
                        External::Enter(Some(e)) => *stat is Some && e@ == dir_of(rel@, (*stat)->0),
                        External::Enter(None) => *stat is None,
                    }
                }
            },
        },
{
    match canonical {
        None => External::Skipped(SkipReason::UnreadableDirectory),
        Some(dir) => {
            if !visited.insert(dir.as_str()) {
                return External::Skipped(SkipReason::LoopDetected);
            }
            match stat {
                Some(m) => External::Enter(Some(dir_entry(text::copy_str(rel), m))),
                None => External::Enter(None),
            }
        },
    }
}

/// A destination scan never skips a link by policy and never follows one.
pub proof fn law_destination_never_skips_or_follows(
    ctx: ScanContext,
    link_path: Seq<char>,
    rel: Seq<char>,
    target: Seq<char>,
    facts: LinkFacts,
)
    requires
        !ctx.is_source,
    ensures
        !(link_outcome(ctx, link_path, rel, target, facts) is Skipped),
        !(link_outcome(ctx, link_path, rel, target, facts) is Descend),
{
}

/// With links off, a source scan skips every link and every shortcut, whatever
/// the other options say.
pub proof fn law_skipping_links_wins(
    ctx: ScanContext,
    link_path: Seq<char>,
    rel: Seq<char>,
    target: Seq<char>,
    facts: LinkFacts,
    shortcut: ShortcutFacts,
)
    requires
        ctx.is_source,
        !ctx.preserve_links,
    ensures
        link_outcome(ctx, link_path, rel, target, facts) == FoundV::Skipped(
            SkipReason::LinkSkipped,
        ),
        shortcut_outcome(ctx, link_path, rel, shortcut) == FoundV::Skipped(
            SkipReason::ShortcutSkipped,
        ),
{
}

/// A link that the source sends as a link is recorded by the destination's
/// scan with the same target, so that the next run finds the two in sync.
pub proof fn law_both_sides_record_the_same_target(
    source: ScanContext,
    dest: ScanContext,
    link_path: Seq<char>,
    rel: Seq<char>,
    target: Seq<char>,
    facts: LinkFacts,
)
    requires
        source.is_source,
        dest == (ScanContext { is_source: false, ..source }),
        link_outcome(source, link_path, rel, target, facts) is Entry,
        link_outcome(source, link_path, rel, target, facts)->Entry_0.link_target is Some,
    ensures
        link_outcome(dest, link_path, rel, target, facts) is Entry,
        link_outcome(dest, link_path, rel, target, facts)->Entry_0.link_target == link_outcome(
            source,
            link_path,
            rel,
            target,
            facts,
        )->Entry_0.link_target,
{
}

/// Whether an entry has the metadata of an object: its own permission bits, its
/// own modification time and access time, each for itself, its inode, owner and
/// group. No content is known of it yet, and it is no link.
pub open spec fn has_metadata_of(e: EntryV, stat: Stat) -> bool {
    &&& e.mode == stat.mode
    &&& stat.mtime_sec <= i64::MAX ==> e.mtime_sec == stat.mtime_sec
    &&& stat.mtime_sec > i64::MAX ==> e.mtime_sec == i64::MAX
    &&& e.mtime_nsec == stat.mtime_nsec
    &&& stat.atime_sec <= i64::MAX ==> e.atime_sec == stat.atime_sec
    &&& stat.atime_sec > i64::MAX ==> e.atime_sec == i64::MAX
    &&& e.atime_nsec == stat.atime_nsec
    &&& e.inode == stat.inode
    &&& e.uid == stat.uid
    &&& e.gid == stat.gid
    &&& e.file_hash is None
    &&& e.xattrs is None
    &&& e.link_target is None
}

/// A regular file is recorded under its name with its own size and metadata, by
/// the walk, the probe and a scan of the file alone; a walk below a followed link
/// records it with the place that it is read from, and as content that is never
/// removed. On a Windows source a shortcut is looked into first.
pub proof fn law_files_are_recorded_as_they_are(
    ctx: ScanContext,
    p: Seq<char>,
    rel: Seq<char>,
    stat: Stat,
    head: Seq<u8>,
)
    requires
        stat.object == ObjectType::File,
    ensures
        !ctx.source_is_windows ==> walked(ctx, p, rel, stat, head) is Entry && matched(
            ctx,
            p,
            rel,
            stat,
            head,
        ) is Scan && followed(ctx, p, rel, stat, head) is Entry,
        probed(ctx, p, rel, stat, head) == walked(ctx, p, rel, stat, head),
        walked(ctx, p, rel, stat, head) is Entry || walked(ctx, p, rel, stat, head) is Shortcut,
        walked(ctx, p, rel, stat, head) is Entry ==> {
            let e = walked(ctx, p, rel, stat, head)->Entry_0;
            &&& file_of(rel, stat) == e
            &&& e.relative_path == rel && e.size == stat.size && e.kind == FileKind::File
            &&& !e.is_dir && e.rdev is None && has_metadata_of(e, stat)
            &&& e.source_path is None && !e.dereferenced
        },
        followed(ctx, p, rel, stat, head) is Entry ==> {
            let f = followed(ctx, p, rel, stat, head)->Entry_0;
            &&& f.relative_path == rel && f.size == stat.size && f.kind == FileKind::File
            &&& !f.is_dir && f.rdev is None && has_metadata_of(f, stat)
            &&& f.source_path == Some(p) && f.dereferenced
        },
        ({
            let e = file_of(rel, stat);
            &&& e.relative_path == rel && e.size == stat.size && e.kind == FileKind::File
            &&& !e.is_dir && has_metadata_of(e, stat)
        }),
{
}

/// A directory is recorded under its name with its own metadata and no size; the
/// walk leaves it out where it does not enter directories, the probe never does.
pub proof fn law_directories_are_recorded_as_they_are(
    ctx: ScanContext,
    p: Seq<char>,
    rel: Seq<char>,
    stat: Stat,
    head: Seq<u8>,
)
    requires
        stat.object == ObjectType::Dir,
    ensures
        walked(ctx, p, rel, stat, head) is Entry <==> ctx.recursive,
        walked(ctx, p, rel, stat, head) is Nothing <==> !ctx.recursive,
        followed(ctx, p, rel, stat, head) is Enter <==> ctx.recursive,
        followed(ctx, p, rel, stat, head) is Nothing <==> !ctx.recursive,
        matched(ctx, p, rel, stat, head) is Scan,
        probed(ctx, p, rel, stat, head) is Entry,
        ctx.recursive ==> walked(ctx, p, rel, stat, head) == probed(ctx, p, rel, stat, head),
        ctx.recursive ==> followed(ctx, p, rel, stat, head)->Enter_0 == probed(
            ctx,
            p,
            rel,
            stat,
            head,
        )->Entry_0,
        ({
            let e = probed(ctx, p, rel, stat, head)->Entry_0;
            &&& dir_of(rel, stat) == e
            &&& e.relative_path == rel
            &&& e.size == 0
            &&& e.is_dir && e.kind == FileKind::Dir
            &&& has_metadata_of(e, stat)
            &&& e.source_path is None && !e.dereferenced
        }),
{
}

/// A fifo, socket or device is recorded with its kind and device number, told by
/// the type bits of its mode; an object of no known type is left out, and a link
/// is looked into.
pub proof fn law_special_files_are_recorded_by_their_type(
    ctx: ScanContext,
    p: Seq<char>,
    rel: Seq<char>,
    stat: Stat,
    head: Seq<u8>,
)
    ensures
        stat.object == ObjectType::Symlink ==> walked(ctx, p, rel, stat, head) is Link && probed(
            ctx,
            p,
            rel,
            stat,
            head,
        ) is Link && matched(ctx, p, rel, stat, head) is Link && followed(ctx, p, rel, stat, head)
            is Link,
        stat.object == ObjectType::Other ==> {
            let t = stat.mode & 0o170000;
            let w = walked(ctx, p, rel, stat, head);
            let f = followed(ctx, p, rel, stat, head);
            &&& probed(ctx, p, rel, stat, head) == w
            &&& matched(ctx, p, rel, stat, head) == w
            &&& w is Entry <==> (t == 0o010000 || t == 0o140000 || t == 0o060000 || t == 0o020000)
            &&& w is Entry || w is Nothing
            &&& f is Entry <==> w is Entry
            &&& w is Entry ==> {
                let e = w->Entry_0;
                let g = f->Entry_0;
                &&& t == 0o010000 <==> e.kind == FileKind::Fifo
                &&& t == 0o140000 <==> e.kind == FileKind::Socket
                &&& t == 0o060000 <==> e.kind == FileKind::BlockDevice
                &&& t == 0o020000 <==> e.kind == FileKind::CharDevice
                &&& e.relative_path == rel && e.size == 0 && !e.is_dir && e.rdev == stat.rdev
                &&& has_metadata_of(e, stat) && !e.dereferenced
                &&& g.kind == e.kind && g.relative_path == rel && g.rdev == stat.rdev
                &&& has_metadata_of(g, stat) && g.dereferenced
            }
        },
{
}

/// A shortcut is taken for a link only on a Windows source, and there by its name
/// and its first bytes; a destination goes by what the peer has as a link.
pub proof fn law_shortcuts_need_a_windows_source(
    ctx: ScanContext,
    p: Seq<char>,
    rel: Seq<char>,
    stat: Stat,
    head: Seq<u8>,
)
    ensures
        walked(ctx, p, rel, stat, head) is Shortcut ==> ctx.source_is_windows && stat.object
            == ObjectType::File && head.len() >= 4 && head[0] == 0x4C && head[1] == 0 && head[2]
            == 0 && head[3] == 0,
        followed(ctx, p, rel, stat, head) is Shortcut ==> ctx.source_is_windows && stat.object
            == ObjectType::File && !ctx.literal_links && shortcut_named(p),
        ctx.source_is_windows && ctx.is_source && !ctx.literal_links && stat.object
            == ObjectType::File && shortcut_named(p) && head.len() >= 4 && head[0] == 0x4C
            && head[1] == 0 && head[2] == 0 && head[3] == 0 ==> walked(ctx, p, rel, stat, head)
            is Shortcut && followed(ctx, p, rel, stat, head) is Shortcut && matched(
            ctx,
            p,
            rel,
            stat,
            head,
        ) is Shortcut,
        ctx.source_is_windows && ctx.is_source && stat.object == ObjectType::File && (
        ctx.literal_links || !shortcut_named(p)) ==> walked(ctx, p, rel, stat, head) is Entry,
        ctx.source_is_windows && !ctx.is_source && stat.object == ObjectType::File && !lists(
            ctx.source_link_paths,
            rel,
        ) ==> walked(ctx, p, rel, stat, head) is Entry,
        ctx.source_is_windows && !ctx.is_source && stat.object == ObjectType::File && lists(
            ctx.source_link_paths,
            rel,
        ) && head.len() >= 4 && head[0] == 0x4C && head[1] == 0 && head[2] == 0 && head[3] == 0
            ==> walked(ctx, p, rel, stat, head) is Shortcut,
{
}

/// What a link that is kept is recorded as: a link with the target and kind that
/// were decided and the link's own times, owner and group, and no content.
pub proof fn law_links_are_recorded_with_their_target(
    rel: Seq<char>,
    target: Seq<char>,
    kind: LinkKind,
    m: Stat,
)
    ensures
        ({
            let e = link_of(rel, target, kind, Some(m));
            &&& e.relative_path == rel
            &&& e.link_target == Some(target)
            &&& e.link_kind == kind
            &&& e.kind == FileKind::Symlink
            &&& e.size == 0 && e.mode == 0 && !e.is_dir && !e.dereferenced
            &&& e.inode is None && e.rdev is None && e.file_hash is None && e.xattrs is None
            &&& e.source_path is None
            &&& m.mtime_sec <= i64::MAX ==> e.mtime_sec == m.mtime_sec
            &&& e.mtime_nsec == m.mtime_nsec
            &&& m.atime_sec <= i64::MAX ==> e.atime_sec == m.atime_sec
            &&& e.atime_nsec == m.atime_nsec
            &&& e.uid == m.uid && e.gid == m.gid
        }),
        ({
            let e = link_of(rel, target, kind, None);
            &&& e.relative_path == rel && e.link_target == Some(target) && e.link_kind == kind
            &&& e.kind == FileKind::Symlink && e.size == 0 && !e.is_dir
            &&& e.mtime_sec == 0 && e.mtime_nsec == 0
        }),
{
}

/// Under the default policy of a source: a link whose real target lies in the
/// root is sent as a link; one to a file outside is sent as that file's content
/// under the link's name; one to a directory outside, or to nothing outside, is
/// skipped and thereby spared.
pub proof fn law_default_links_stay_useful(
    ctx: ScanContext,
    link_path: Seq<char>,
    rel: Seq<char>,
    target: Seq<char>,
    facts: LinkFacts,
)
    requires
        ctx.is_source,
        ctx.preserve_links,
        !ctx.follow_links,
        !ctx.literal_links,
        !ctx.literal_internal_links,
        !ctx.literal_external_file_links,
        !ctx.literal_external_dir_links,
    ensures
        facts.canonical matches Some(c) && path::under(c.path@, ctx.root@) && !self_link(
            ctx.host,
            link_path,
            target,
        ) ==> {
            let r = link_outcome(ctx, link_path, rel, target, facts);
            r is Entry && r->Entry_0.link_target is Some && r->Entry_0.relative_path == rel && (
            r->Entry_0.link_kind == LinkKind::Lnk <==> ctx.target_os == TargetOs::Windows)
        },
        facts.canonical matches Some(c) && !path::under(c.path@, ctx.root@) && !c.is_dir && (
        facts.referent matches Some(m) && m.object == ObjectType::File) ==> {
            let r = link_outcome(ctx, link_path, rel, target, facts);
            r is Entry && r->Entry_0.link_target is None && r->Entry_0.relative_path == rel
                && r->Entry_0.size == facts.referent->0.size && r->Entry_0.kind == FileKind::File
                && r->Entry_0.dereferenced && has_metadata_of(r->Entry_0, facts.referent->0)
        },
        facts.canonical matches Some(c) && !path::under(c.path@, ctx.root@) && c.is_dir
            ==> link_outcome(ctx, link_path, rel, target, facts) == FoundV::Skipped(
            SkipReason::ExternalDirectory,
        ),
        facts.canonical is None && !path::under(
            linkpolicy::normalized_in(
                ctx.host,
                linkpolicy::resolved(ctx.host, link_path, target),
            ),
            ctx.root@,
        ) ==> link_outcome(ctx, link_path, rel, target, facts) == FoundV::Skipped(
            SkipReason::DanglingExternal,
        ),
{
}

/// Followed links are replaced by what they lead to: a file's content with the
/// file's own metadata, a directory's contents; never by a link.
pub proof fn law_followed_links_are_replaced(
    ctx: ScanContext,
    link_path: Seq<char>,
    rel: Seq<char>,
    target: Seq<char>,
    facts: LinkFacts,
)
    requires
        ctx.is_source,
        ctx.preserve_links,
        ctx.follow_links,
    ensures
        ({
            let r = link_outcome(ctx, link_path, rel, target, facts);
            &&& r is Entry ==> r->Entry_0.link_target is None
            &&& r is Entry <==> (facts.referent matches Some(m) && m.object == ObjectType::File)
            &&& r is Descend <==> (facts.referent matches Some(m) && m.object == ObjectType::Dir)
            &&& r is Descend ==> r->Descend_0 == link_path
            &&& r is Entry ==> r->Entry_0.relative_path == rel && r->Entry_0.size
                == facts.referent->0.size && has_metadata_of(r->Entry_0, facts.referent->0)
                && r->Entry_0.dereferenced
        }),
{
}

/// Links that are to be kept literally are sent with exactly the target that they
/// have: all of them, or those of one class.
pub proof fn law_literal_links_keep_their_target(
    ctx: ScanContext,
    link_path: Seq<char>,
    rel: Seq<char>,
    target: Seq<char>,
    facts: LinkFacts,
)
    requires
        ctx.is_source,
        ctx.preserve_links,
        !ctx.follow_links,
    ensures
        ctx.literal_links ==> {
            let r = link_outcome(ctx, link_path, rel, target, facts);
            r is Entry && r->Entry_0.link_target == Some(target) && r->Entry_0.relative_path == rel
        },
        facts.canonical matches Some(c) && path::under(c.path@, ctx.root@) && !self_link(
            ctx.host,
            link_path,
            target,
        ) && ctx.literal_internal_links ==> {
            let r = link_outcome(ctx, link_path, rel, target, facts);
            r is Entry && r->Entry_0.link_target == Some(target)
        },
        facts.canonical matches Some(c) && !path::under(c.path@, ctx.root@) && !c.is_dir
            && ctx.literal_external_file_links && ctx.target_os == TargetOs::Unix ==> {
            let r = link_outcome(ctx, link_path, rel, target, facts);
            r is Entry && r->Entry_0.link_target == Some(target)
        },
        facts.canonical matches Some(c) && !path::under(c.path@, ctx.root@) && c.is_dir
            && ctx.literal_external_dir_links ==> {
            let r = link_outcome(ctx, link_path, rel, target, facts);
            r is Entry && r->Entry_0.link_target == Some(target)
        },
{
}

/// A link that points at itself is skipped as a loop, unless it is kept
/// literally.
pub proof fn law_links_to_themselves_are_skipped(
    ctx: ScanContext,
    link_path: Seq<char>,
    rel: Seq<char>,
    target: Seq<char>,
    facts: LinkFacts,
)
    requires
        ctx.is_source,
        ctx.preserve_links,
        !ctx.follow_links,
        !ctx.literal_links,
        path::comps(
            linkpolicy::normalized_in(
                ctx.host,
                linkpolicy::resolved(ctx.host, link_path, target),
            ),
        ) == path::comps(linkpolicy::normalized_in(ctx.host, link_path)),
        linkpolicy::link_class(
            ctx.host,
            link_path,
            target,
            ctx.root@,
            linkpolicy::real_view(facts.canonical),
        ) == LinkClass::Internal,
    ensures
        link_outcome(ctx, link_path, rel, target, facts) == FoundV::Skipped(
            SkipReason::LoopDetected,
        ),
{
}

/// A shortcut travels as the file that it is where it cannot be read as one or
/// leads out of the root; inside the root it becomes a link; followed, it is
/// replaced by what it leads to, read from there and never removed.
pub proof fn law_shortcuts_become_links_only_inside(
    ctx: ScanContext,
    link_path: Seq<char>,
    rel: Seq<char>,
    facts: ShortcutFacts,
)
    requires
        ctx.is_source,
        ctx.preserve_links,
    ensures
        facts.target is None ==> shortcut_outcome(ctx, link_path, rel, facts) == FoundV::Entry(
            file_of(rel, facts.lmeta),
        ),
        facts.target is Some && !ctx.follow_links && !ctx.literal_links && (
        facts.canonical matches Some(c) && !path::under(c.path@, ctx.root@)) ==> shortcut_outcome(
            ctx,
            link_path,
            rel,
            facts,
        ) == FoundV::Entry(file_of(rel, facts.lmeta)),
        facts.target is Some && !ctx.follow_links && (facts.canonical matches Some(c)
            && path::under(c.path@, ctx.root@)) ==> {
            let r = shortcut_outcome(ctx, link_path, rel, facts);
            r is Entry && r->Entry_0.link_target is Some && r->Entry_0.relative_path == rel
        },
        facts.target is Some && !ctx.follow_links && ctx.literal_links ==> {
            let r = shortcut_outcome(ctx, link_path, rel, facts);
            r is Entry && r->Entry_0.link_target == Some(wire::wire_text(facts.target->0@))
                && r->Entry_0.link_kind == LinkKind::Lnk
        },
        facts.target is Some && ctx.follow_links ==> {
            let r = shortcut_outcome(ctx, link_path, rel, facts);
            let full = linkpolicy::resolved(ctx.host, link_path, facts.target->0@);
            &&& r is Entry <==> (facts.referent matches Some(m) && m.object == ObjectType::File)
            &&& r is Descend <==> (facts.referent matches Some(m) && m.object == ObjectType::Dir)
            &&& r is Entry ==> r->Entry_0.link_target is None && r->Entry_0.source_path == Some(
                full,
            ) && r->Entry_0.dereferenced && r->Entry_0.size == facts.referent->0.size
                && r->Entry_0.relative_path == rel && has_metadata_of(
                r->Entry_0,
                facts.referent->0,
            )
            &&& r is Descend ==> r->Descend_0 == full
        },
{
}

/// A child is named below its directory, with one slash between.
pub proof fn law_children_are_named_below(prefix: Seq<char>, name: Seq<char>)
    ensures
        child_path(Seq::empty(), name) == name,
        prefix.len() > 0 ==> child_path(prefix, name).len() == prefix.len() + 1 + name.len()
            && child_path(prefix, name).take(prefix.len() as int) == prefix && child_path(
            prefix,
            name,
        )[prefix.len() as int] == '/' && child_path(prefix, name).skip(prefix.len() as int + 1) == name,
{
    let c = child_path(prefix, name);
    if prefix.len() > 0 {
        assert(c.take(prefix.len() as int) =~= prefix);
        assert(c.skip(prefix.len() as int + 1) =~= name);
    }
}

/// An internal link's place in the tree is the rest of its target behind the
/// root, told by the text of the target where that shows it and by the real path
/// otherwise.
pub proof fn law_internal_targets_are_below_the_root(
    os: TargetOs,
    link_path: Seq<char>,
    target: Seq<char>,
    root: Seq<char>,
    actual: Seq<char>,
    partial: Option<Seq<char>>,
)
    ensures
        path::stripped(linkpolicy::resolved(os, link_path, target), root) matches Some(rel)
            ==> internal_target(os, link_path, target, root, Some(actual), partial)
            == wire::wire_text(rel) && internal_target(
            os,
            link_path,
            target,
            root,
            None,
            partial,
        ) == wire::wire_text(rel),
        path::stripped(linkpolicy::resolved(os, link_path, target), root) is None && (
        path::stripped(actual, root) is Some) ==> internal_target(
            os,
            link_path,
            target,
            root,
            Some(actual),
            partial,
        ) == wire::wire_text(path::stripped(actual, root)->0),
{
}

/// A filter that is not there admits everything; one that is decides alone.
pub proof fn law_without_a_filter_everything_is_admitted(filter: FilterSet, rel: Seq<char>)
    ensures
        admitted(None, rel),
        admitted(Some(filter), rel) <==> filter.lets_pass(rel),
{
}

/// The total of a list grows by the size of what is added, whatever came before.
pub proof fn law_totals_add_up(v: Seq<EntryV>, e: EntryV)
    ensures
        total_size(Seq::empty()) == 0,
        total_size(v.push(e)) == total_size(v) + e.size,
{
    assert(v.push(e).drop_last() =~= v);
}

/// A file is named like a shortcut exactly when its name has the extension of
/// one, in whatever case.
pub proof fn law_shortcuts_are_named_by_their_extension(
    dir: Seq<char>,
    rest: Seq<char>,
    ext: Seq<char>,
)
    requires
        rest.len() > 0,
        !rest.contains('/'),
        ext.len() > 0,
        !ext.contains('/'),
        !ext.contains('.'),
    ensures
        shortcut_named(path::joined(dir, rest + seq!['.'] + ext)) <==> text::lowered(ext)
            == "lnk"@,
        !shortcut_named(path::joined(dir, ext)),
        !shortcut_named(Seq::empty()),
{
    let name = rest + seq!['.'] + ext;
    path::lemma_dotted(rest, ext);
    assert(ext != seq!['.'] && ext != seq!['.', '.']) by {
        assert(ext.contains(ext[0]));
    }
    path::law_names_extend_a_path(dir, name);
    path::law_names_extend_a_path(dir, ext);
    path::law_the_last_dot_begins_the_extension(rest, ext);
    path::lemma_comps_first(path::Comp::Root);
}

/// A link that is kept is a shortcut where the target runs Windows, and a
/// symbolic link everywhere else.
pub proof fn law_links_suit_the_target(target_os: TargetOs)
    ensures
        preserved_kind(TargetOs::Windows) == LinkKind::Lnk,
        preserved_kind(TargetOs::Unix) == LinkKind::Symlink,
        preserved_kind(target_os) == LinkKind::Lnk <==> target_os == TargetOs::Windows,
{
}

/// Every reason for leaving something out has words of its own.
pub proof fn law_reasons_are_told_apart(a: SkipReason, b: SkipReason)
    requires
        a != b,
    ensures
        a.words() != b.words(),
{
    reveal_strlit("link skipped (--skip-links)");
    reveal_strlit("shortcut skipped (--skip-links)");
    reveal_strlit("unreadable or special link target (--follow-links)");
    reveal_strlit("directory or unreadable .lnk target (--follow-links)");
    reveal_strlit("loop detected");
    reveal_strlit("unreadable external file link");
    reveal_strlit("external directory link (--literal-external-dir-links to keep)");
    reveal_strlit("dangling external link");
    reveal_strlit("external directory link unreadable");
    assert("link skipped (--skip-links)"@.len() == 27);
    assert("shortcut skipped (--skip-links)"@.len() == 31);
    assert("unreadable or special link target (--follow-links)"@.len() == 50);
    assert("directory or unreadable .lnk target (--follow-links)"@.len() == 52);
    assert("loop detected"@.len() == 13);
    assert("unreadable external file link"@.len() == 29);
    assert("external directory link (--literal-external-dir-links to keep)"@.len() == 62);
    assert("dangling external link"@.len() == 22);
    assert("external directory link unreadable"@.len() == 34);
    assert(a.words().len() != b.words().len());
}

/// The model of an entry shows each of its fields as it is.
pub proof fn law_models_show_the_entry(e: FileEntry)
    ensures
        e@.relative_path == e.relative_path@,
        e@.size == e.size,
        e@.mode == e.mode,
        e@.mtime_sec == e.mtime_sec && e@.mtime_nsec == e.mtime_nsec,
        e@.atime_sec == e.atime_sec && e@.atime_nsec == e.atime_nsec,
        e@.is_dir == e.is_dir && e@.kind == e.kind && e@.link_kind == e.link_kind,
        e@.inode == e.inode && e@.rdev == e.rdev && e@.uid == e.uid && e@.gid == e.gid,
        e@.dereferenced == e.dereferenced,
        e.link_target matches Some(t) ==> e@.link_target == Some(t@),
        e.link_target is None ==> e@.link_target is None,
        e.source_path matches Some(t) ==> e@.source_path == Some(t@),
        e.source_path is None ==> e@.source_path is None,
        e.file_hash matches Some(h) ==> e@.file_hash == Some(h@),
        e.file_hash is None ==> e@.file_hash is None,
{
}

/// A link on the destination is recorded with its own target as a symbolic link
/// where links are not kept or are followed, and where it points at a file
/// outside the root; one that points at a directory outside the root, or at
/// nothing there, is passed over.
pub proof fn law_destination_links_are_recorded_as_they_are(
    ctx: ScanContext,
    link_path: Seq<char>,
    rel: Seq<char>,
    target: Seq<char>,
    facts: LinkFacts,
)
    requires
        !ctx.is_source,
    ensures
        ({
            let r = link_outcome(ctx, link_path, rel, target, facts);
            let as_is = FoundV::Entry(link_of(rel, target, LinkKind::Symlink, facts.lmeta));
            let bare = ctx.preserve_links && !ctx.follow_links && !ctx.literal_links;
            &&& !ctx.preserve_links || ctx.follow_links ==> r == as_is
            &&& bare && (facts.canonical matches Some(c) && !path::under(c.path@, ctx.root@)
                && !c.is_dir) ==> r == as_is
            &&& bare && !ctx.literal_external_dir_links && (facts.canonical matches Some(c)
                && !path::under(c.path@, ctx.root@) && c.is_dir) ==> r == FoundV::Nothing
            &&& bare && facts.canonical is None && !path::under(
                linkpolicy::normalized_in(
                    ctx.host,
                    linkpolicy::resolved(ctx.host, link_path, target),
                ),
                ctx.root@,
            ) ==> r == FoundV::Nothing
        }),
{
}

/// A link that is kept literally is recorded with its target as it is written,
/// its own times and owner, and as the kind of link that suits the target
/// system.
pub proof fn law_kept_links_keep_their_metadata(
    ctx: ScanContext,
    link_path: Seq<char>,
    rel: Seq<char>,
    target: Seq<char>,
    facts: LinkFacts,
)
    requires
        ctx.preserve_links,
        !ctx.follow_links,
    ensures
        ({
            let r = link_outcome(ctx, link_path, rel, target, facts);
            let kind = if ctx.target_os == TargetOs::Windows {
                LinkKind::Lnk
            } else {
                LinkKind::Symlink
            };
            let literal = FoundV::Entry(link_of(rel, target, kind, facts.lmeta));
            let inside = facts.canonical matches Some(c) && path::under(c.path@, ctx.root@);
            let outside = facts.canonical matches Some(c) && !path::under(c.path@, ctx.root@)
                && c.is_dir;
            let straight = path::stripped(
                linkpolicy::resolved(ctx.host, link_path, target),
                ctx.root@,
            );
            &&& ctx.literal_links ==> r == literal
            &&& !ctx.literal_links && inside && ctx.literal_internal_links && !self_link(
                ctx.host,
                link_path,
                target,
            ) ==> r == literal
            &&& !ctx.literal_links && outside && ctx.literal_external_dir_links ==> r == literal
            &&& !ctx.literal_links && inside && !ctx.literal_internal_links && !self_link(
                ctx.host,
                link_path,
                target,
            ) && straight is Some ==> r == FoundV::Entry(
                link_of(
                    rel,
                    linkpolicy::rewritten(rel, wire::wire_text(straight->0)),
                    kind,
                    facts.lmeta,
                ),
            )
        }),
{
}

/// A link whose content should travel but cannot be read is skipped, and the
/// reason tells which rule asked for it.
pub proof fn law_unreadable_links_are_skipped(
    ctx: ScanContext,
    link_path: Seq<char>,
    rel: Seq<char>,
    target: Seq<char>,
    facts: LinkFacts,
    shortcut: ShortcutFacts,
)
    requires
        ctx.is_source,
        ctx.preserve_links,
    ensures
        ctx.follow_links && (facts.referent is None || (facts.referent->0.object
            != ObjectType::File && facts.referent->0.object != ObjectType::Dir)) ==> link_outcome(
            ctx,
            link_path,
            rel,
            target,
            facts,
        ) == FoundV::Skipped(SkipReason::UnreadableFollowed),
        !ctx.follow_links && !ctx.literal_links && !ctx.literal_external_file_links && (
        facts.canonical matches Some(c) && !path::under(c.path@, ctx.root@) && !c.is_dir) && (
        facts.referent is None || facts.referent->0.object != ObjectType::File) ==> link_outcome(
            ctx,
            link_path,
            rel,
            target,
            facts,
        ) == FoundV::Skipped(SkipReason::UnreadableExternalFile),
        !ctx.follow_links && !ctx.literal_links && ctx.target_os == TargetOs::Windows && (
        facts.canonical matches Some(c) && !path::under(c.path@, ctx.root@) && !c.is_dir) && (
        facts.referent is None || facts.referent->0.object != ObjectType::File) ==> link_outcome(
            ctx,
            link_path,
            rel,
            target,
            facts,
        ) == FoundV::Skipped(SkipReason::UnreadableExternalFile),
        ctx.follow_links && shortcut.target is Some && (shortcut.referent is None || (
        shortcut.referent->0.object != ObjectType::File && shortcut.referent->0.object
            != ObjectType::Dir)) ==> shortcut_outcome(ctx, link_path, rel, shortcut)
            == FoundV::Skipped(SkipReason::UnreadableShortcut),
{
}

/// A shortcut that is kept as a link has the target that it holds, in its
/// slash-separated form, or that target rewritten where it lies in the tree,
/// and its own times; on the destination it is recorded as the shortcut it is.
pub proof fn law_kept_shortcuts_keep_their_target(
    ctx: ScanContext,
    link_path: Seq<char>,
    rel: Seq<char>,
    facts: ShortcutFacts,
)
    requires
        facts.target is Some,
    ensures
        ({
            let r = shortcut_outcome(ctx, link_path, rel, facts);
            let t = facts.target->0@;
            let as_shortcut = FoundV::Entry(
                link_of(rel, wire::wire_text(t), LinkKind::Lnk, Some(facts.lmeta)),
            );
            let kind = if ctx.target_os == TargetOs::Windows {
                LinkKind::Lnk
            } else {
                LinkKind::Symlink
            };
            let inside = facts.canonical matches Some(c) && path::under(c.path@, ctx.root@);
            let bare = ctx.preserve_links && !ctx.follow_links && !ctx.literal_links;
            let straight = path::stripped(linkpolicy::resolved(ctx.host, link_path, t), ctx.root@);
            &&& !ctx.is_source && (!ctx.preserve_links || ctx.follow_links) ==> r == as_shortcut
            &&& ctx.preserve_links && !ctx.follow_links && ctx.literal_links ==> r == as_shortcut
            &&& bare && inside && ctx.literal_internal_links ==> r == FoundV::Entry(
                link_of(rel, wire::wire_text(t), kind, Some(facts.lmeta)),
            )
            &&& bare && inside && !ctx.literal_internal_links && straight is Some ==> r
                == FoundV::Entry(
                link_of(
                    rel,
                    linkpolicy::rewritten(rel, wire::wire_text(straight->0)),
                    kind,
                    Some(facts.lmeta),
                ),
            )
        }),
{
}

} // verus!
