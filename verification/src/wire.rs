//! Small conversions between what a side holds and what travels.

use std::collections::hash_map::DefaultHasher;
use std::hash::Hasher;

use typed_path::Utf8UnixPathBuf;
use vstd::prelude::*;
use vstd::std_specs::hash::DefaultHasherAdditionalSpecFns;

use crate::path;
use crate::protocol;
use crate::protocol::{ErrorV, FileKind, FileMeta, Frame, LinkKind, SessionError};
use crate::scanner;
use crate::scanner::{FileEntry, Manifest};
use crate::text;

verus! {

/// A Unix path text extended by another: an empty part changes nothing, an
/// absolute one replaces the path, any other is appended after a separator.
pub open spec fn unix_joined(base: Seq<char>, part: Seq<char>) -> Seq<char> {
    if part.len() == 0 {
        base
    } else {
        path::joined(base, part)
    }
}

/// `typed_path::Utf8UnixPathBuf::push` on a path that holds `base`: the text
/// of the path afterwards is `unix_joined(base, part)`.
#[verifier::external_body]
pub(crate) fn unix_push(base: &str, part: &str) -> (out: String)
    ensures
        out@ == unix_joined(base@, part@),
{
    let mut buf = Utf8UnixPathBuf::from(base);
    buf.push(part);
    buf.to_string()
}

/// The pieces joined as a Unix path, one after another.
pub open spec fn unix_path(parts: Seq<Seq<char>>) -> Seq<char>
    decreases parts.len(),
{
    if parts.len() == 0 {
        Seq::empty()
    } else {
        unix_joined(unix_path(parts.drop_last()), parts.last())
    }
}

/// The slash-separated form of a path text whose segments may be separated by
/// backslashes.
pub open spec fn wire_text(s: Seq<char>) -> Seq<char> {
    unix_path(text::split_on(s, '\\'))
}

/// Convert a path text to its slash-separated form: each segment between
/// backslashes extends the path.
pub fn wire_str(s: &str) -> (out: String)
    ensures
        out@ == wire_text(s@),
{
    let parts = text::split(s, '\\');
    let ghost pv = text::views(parts@);
    let mut out = String::new();
    let mut i: usize = 0;
    assert(pv.take(0) =~= Seq::empty());
    while i < parts.len()
        invariant
            i <= parts.len(),
            pv == text::views(parts@),
            out@ == unix_path(pv.take(i as int)),
        decreases parts.len() - i,
    {
        proof {
            assert(pv.take(i + 1).drop_last() =~= pv.take(i as int));
            assert(pv.take(i + 1).last() == parts[i as int]@);
        }
        out = unix_push(out.as_str(), parts[i].as_str());
        i += 1;
    }
    assert(pv.take(i as int) =~= pv);
    out
}

/// A path without backslashes is its own slash-separated form.
pub proof fn law_wire_keeps_slashed_paths(s: Seq<char>)
    requires
        !s.contains('\\'),
    ensures
        wire_text(s) == s,
{
    assert forall|i: int| 0 <= i < s.len() implies s[i] != '\\' by {
        assert(s.contains(s[i]));
    }
    text::lemma_split_none(s, '\\');
    assert(seq![s].drop_last() =~= Seq::empty());
    reveal_with_fuel(unix_path, 2);
    assert(unix_joined(Seq::empty(), s) =~= s);
}

proof fn lemma_unix_path_free(parts: Seq<Seq<char>>)
    requires
        forall|i: int, j: int|
            #![trigger parts[i][j]]
            0 <= i < parts.len() && 0 <= j < parts[i].len() ==> parts[i][j] != '\\',
    ensures
        forall|j: int| 0 <= j < unix_path(parts).len() ==> unix_path(parts)[j] != '\\',
    decreases parts.len(),
{
    if parts.len() > 0 {
        let front = parts.drop_last();
        assert forall|i: int, j: int|
            #![trigger front[i][j]]
            0 <= i < front.len() && 0 <= j < front[i].len() implies front[i][j] != '\\' by {
            assert(front[i][j] == parts[i][j]);
        }
        lemma_unix_path_free(front);
        let last = parts[parts.len() - 1];
        assert forall|j: int| 0 <= j < last.len() implies last[j] != '\\' by {
            assert(parts[parts.len() - 1][j] != '\\');
        }
        let base = unix_path(front);
        let whole = unix_path(parts);
        assert forall|j: int| 0 <= j < whole.len() implies whole[j] != '\\' by {
            if last.len() > 0 && !path::is_absolute(last) {
                let skip = whole.len() - last.len();
                if j < base.len() {
                    assert(whole[j] == base[j]);
                } else if j >= skip {
                    assert(whole[j] == last[j - skip]);
                }
            }
        }
    }
}

/// A wire path never holds a backslash.
pub proof fn law_wire_has_no_backslash(s: Seq<char>)
    ensures
        !wire_text(s).contains('\\'),
        wire_text(wire_text(s)) == wire_text(s),
{
    text::lemma_split_pieces(s, '\\');
    lemma_unix_path_free(text::split_on(s, '\\'));
    law_wire_keeps_slashed_paths(wire_text(s));
}

/// The unsigned number that stands for a time on the wire: times before the
/// epoch wrap around.
pub open spec fn wrapped(t: i64) -> int {
    if t >= 0 {
        t as int
    } else {
        t + 0x1_0000_0000_0000_0000
    }
}

/// The time that a number on the wire stands for.
pub open spec fn unwrapped(w: u64) -> int {
    if w <= i64::MAX {
        w as int
    } else {
        w - 0x1_0000_0000_0000_0000
    }
}

/// Encode a time for the wire.
pub fn mtime_to_wire(mtime: i64) -> (w: u64)
    ensures
        w == wrapped(mtime),
{
    assert(mtime >= 0 ==> (mtime as u64) == mtime) by (bit_vector);
    assert(mtime < 0 ==> (mtime as u64) == mtime + 0x1_0000_0000_0000_0000) by (bit_vector);
    mtime as u64
}

/// Decode a time from the wire.
pub fn mtime_from_wire(mtime: u64) -> (t: i64)
    ensures
        t == unwrapped(mtime),
{
    assert(mtime <= 0x7fff_ffff_ffff_ffff ==> (mtime as i64) == mtime) by (bit_vector);
    assert(mtime > 0x7fff_ffff_ffff_ffff ==> (mtime as i64) == mtime - 0x1_0000_0000_0000_0000)
        by (bit_vector);
    mtime as i64
}

/// Every time survives the wire exactly, in both directions.
pub proof fn law_mtime_roundtrip(t: i64, w: u64)
    ensures
        0 <= wrapped(t) <= u64::MAX,
        unwrapped(wrapped(t) as u64) == t,
        i64::MIN <= unwrapped(w) <= i64::MAX,
        wrapped(unwrapped(w) as i64) == w,
{
}

/// The on-disk source of an entry: an explicit source path wins, otherwise the
/// relative path resolves under the root.
pub open spec fn source_of(
    root: Seq<char>,
    source: Option<Seq<char>>,
    relative_path: Seq<char>,
) -> Seq<char> {
    match source {
        Some(p) => p,
        None => path::joined(root, relative_path),
    }
}

/// The on-disk source of an entry or a task.
pub fn file_source(root: &str, source: &Option<String>, relative_path: &str) -> (out: String)
    ensures
        out@ == source_of(root@, text::opt_view(*source), relative_path@),
{
    match source {
        Some(p) => text::copy_str(p.as_str()),
        None => path::join(root, relative_path),
    }
}

/// The wire form of an entry.
pub open spec fn meta_of(e: scanner::EntryV) -> protocol::MetaV {
    protocol::MetaV {
        path: e.relative_path,
        size: e.size,
        mtime: wrapped(e.mtime_sec) as u64,
        mtime_nsec: e.mtime_nsec,
        mode: e.mode,
        hash: e.file_hash,
        kind: e.kind,
        link_target: e.link_target,
        inode: e.inode,
        rdev: e.rdev,
        uid: e.uid,
        gid: e.gid,
        atime: wrapped(e.atime_sec) as u64,
        atime_nsec: e.atime_nsec,
        xattrs: e.xattrs,
    }
}

/// Convert a scanned entry into its wire form.
pub fn file_meta_from_entry(entry: &FileEntry) -> (m: FileMeta)
    ensures
        m@ == meta_of(entry@),
{
    FileMeta {
        path: text::copy_str(entry.relative_path.as_str()),
        size: entry.size,
        mtime: mtime_to_wire(entry.mtime_sec),
        mtime_nsec: entry.mtime_nsec,
        mode: entry.mode,
        hash: entry.file_hash,
        kind: entry.kind,
        link_target: protocol::copy_opt(&entry.link_target),
        inode: entry.inode,
        rdev: entry.rdev,
        uid: entry.uid,
        gid: entry.gid,
        atime: mtime_to_wire(entry.atime_sec),
        atime_nsec: entry.atime_nsec,
        xattrs: protocol::copy_xattrs(&entry.xattrs),
    }
}

/// The entry that a wire form stands for. How a link is materialized does not
/// travel, so a rebuilt link always counts as a symbolic link.
pub open spec fn entry_of(m: protocol::MetaV) -> scanner::EntryV {
    scanner::EntryV {
        relative_path: m.path,
        size: m.size,
        mode: m.mode,
        mtime_sec: unwrapped(m.mtime) as i64,
        mtime_nsec: m.mtime_nsec,
        file_hash: m.hash,
        is_dir: m.kind == FileKind::Dir,
        link_target: m.link_target,
        link_kind: LinkKind::Symlink,
        inode: m.inode,
        kind: m.kind,
        rdev: m.rdev,
        uid: m.uid,
        gid: m.gid,
        atime_sec: unwrapped(m.atime) as i64,
        atime_nsec: m.atime_nsec,
        xattrs: m.xattrs,
        source_path: None,
        dereferenced: false,
    }
}

/// The models of a sequence of wire forms.
pub open spec fn meta_views(v: Seq<FileMeta>) -> Seq<protocol::MetaV> {
    v.map_values(|m: FileMeta| m@)
}

/// The entries that a sequence of wire forms stands for.
pub open spec fn entries_of(v: Seq<protocol::MetaV>) -> Seq<scanner::EntryV> {
    v.map_values(|m: protocol::MetaV| entry_of(m))
}

/// The entry that a wire form stands for.
fn entry_from_meta(m: &FileMeta) -> (e: FileEntry)
    ensures
        e@ == entry_of(m@),
{
    FileEntry {
        relative_path: text::copy_str(m.path.as_str()),
        size: m.size,
        mode: m.mode,
        mtime_sec: mtime_from_wire(m.mtime),
        mtime_nsec: m.mtime_nsec,
        file_hash: m.hash,
        is_dir: m.kind == FileKind::Dir,
        link_target: protocol::copy_opt(&m.link_target),
        link_kind: LinkKind::Symlink,
        inode: m.inode,
        kind: m.kind,
        rdev: m.rdev,
        uid: m.uid,
        gid: m.gid,
        atime_sec: mtime_from_wire(m.atime),
        atime_nsec: m.atime_nsec,
        xattrs: protocol::copy_xattrs(&m.xattrs),
        source_path: None,
        dereferenced: false,
    }
}

/// Whether a manifest is the one that a file list stands for.
pub open spec fn rebuilt(metas: Seq<protocol::MetaV>, r: Manifest) -> bool {
    &&& r.root@ == "."@
    &&& r.entries() == entries_of(metas)
    &&& r.total_bytes == scanner::total_size(r.entries())
    &&& r.skipped@.len() == 0
}

/// Rebuild a local manifest from the peer's file list. The sizes must add up
/// to a number that fits.
pub fn manifest_from_file_meta(metas: &Vec<FileMeta>) -> (r: Manifest)
    requires
        scanner::total_size(entries_of(meta_views(metas@))) <= u64::MAX,
    ensures
        rebuilt(meta_views(metas@), r),
        r.root@ == "."@,
        r.entries() == entries_of(meta_views(metas@)),
        r.total_bytes == scanner::total_size(r.entries()),
        r.skipped@.len() == 0,
{
    let ghost want = entries_of(meta_views(metas@));
    let mut files: Vec<FileEntry> = Vec::new();
    let mut i: usize = 0;
    while i < metas.len()
        invariant
            i <= metas.len(),
            want == entries_of(meta_views(metas@)),
            scanner::entry_views(files@) == want.take(i as int),
        decreases metas.len() - i,
    {
        let e = entry_from_meta(&metas[i]);
        let ghost before = files@;
        files.push(e);
        proof {
            assert(scanner::entry_views(files@) =~= scanner::entry_views(before).push(e@));
            assert(want.take(i + 1) =~= want.take(i as int).push(want[i as int]));
        }
        i += 1;
    }
    assert(want.take(i as int) =~= want);
    let total_bytes = scanner::sum_sizes(&files);
    Manifest { root: text::copy_str("."), files, total_bytes, skipped: Vec::new() }
}

/// An entry survives the wire, but for how a link is materialized and where
/// its content lives.
pub proof fn law_entry_roundtrip(e: scanner::EntryV)
    requires
        e.is_dir == (e.kind == FileKind::Dir),
    ensures
        entry_of(meta_of(e)) == (scanner::EntryV {
            link_kind: LinkKind::Symlink,
            source_path: None,
            dereferenced: false,
            ..e
        }),
{
    law_mtime_roundtrip(e.mtime_sec, 0);
    law_mtime_roundtrip(e.atime_sec, 0);
}

/// Render a local path as a wire path.
pub fn wire_rel(p: &str) -> (out: String)
    ensures
        out@ == wire_text(p@),
{
    wire_str(p)
}

/// The identifier of the file that travels under a path.
pub open spec fn id_of(path: Seq<char>) -> u64 {
    DefaultHasher::spec_finish(seq![vstd::utf8::encode_utf8(path), seq![0xffu8]])
}

/// Stable identifier of a file: a hash of its relative path.
pub fn file_id(path: &str) -> (id: u64)
    ensures
        id == id_of(path@),
{
    let mut h = DefaultHasher::new();
    h.write(path.as_bytes());
    let end: [u8; 1] = [0xffu8];
    h.write(end.as_slice());
    proof {
        assert(end@ =~= seq![0xffu8]);
        assert(h@ =~= seq![vstd::utf8::encode_utf8(path@), seq![0xffu8]]);
    }
    h.finish()
}

/// What a peer reports with a failure.
pub open spec fn reported_failure(frame: Frame) -> Option<Seq<char>> {
    match frame {
        Frame::Error { message } => Some(message@),
        _ => None,
    }
}

/// Turn a failure that the peer reports into an error; every other frame
/// passes.
pub fn from_peer(frame: Frame) -> (r: Result<Frame, SessionError>)
    ensures
        match reported_failure(frame) {
            Some(m) => r matches Err(e) && e@ == ErrorV::Other("Peer error: "@ + m),
            None => r == Ok::<Frame, SessionError>(frame),
        },
        match (frame, r) {
            (Frame::Error { message }, Err(e)) => e@ == ErrorV::Other("Peer error: "@ + message@),
            (Frame::Error { .. }, Ok(_)) => false,
            (_, r) => r == Ok::<Frame, SessionError>(frame),
        },
{
    match frame {
        Frame::Error { message } => Err(protocol::error_of("Peer error: ", message.as_str())),
        other => Ok(other),
    }
}

/// Every field of an entry travels in the field of its own name: no other field
/// of the wire form depends on it.
pub proof fn law_fields_travel_apart(e: scanner::EntryV)
    ensures
        meta_of(e).path == e.relative_path,
        meta_of(e).size == e.size,
        meta_of(e).mode == e.mode,
        meta_of(e).hash == e.file_hash,
        meta_of(e).kind == e.kind,
        meta_of(e).link_target == e.link_target,
        meta_of(e).inode == e.inode,
        meta_of(e).rdev == e.rdev,
        meta_of(e).uid == e.uid,
        meta_of(e).gid == e.gid,
        meta_of(e).xattrs == e.xattrs,
        meta_of(e).mtime_nsec == e.mtime_nsec,
        meta_of(e).atime_nsec == e.atime_nsec,
        e.mtime_sec >= 0 ==> meta_of(e).mtime == e.mtime_sec,
        e.mtime_sec < 0 ==> meta_of(e).mtime == e.mtime_sec + 18_446_744_073_709_551_616,
        e.atime_sec >= 0 ==> meta_of(e).atime == e.atime_sec,
        e.atime_sec < 0 ==> meta_of(e).atime == e.atime_sec + 18_446_744_073_709_551_616,
{
    law_mtime_roundtrip(e.mtime_sec, 0);
    law_mtime_roundtrip(e.atime_sec, 0);
}

/// A rebuilt entry has every attribute that travelled, and is a directory
/// exactly when it was one.
pub proof fn law_rebuilt_entries_have_what_travelled(m: protocol::MetaV)
    ensures
        entry_of(m).relative_path == m.path,
        entry_of(m).size == m.size,
        entry_of(m).mode == m.mode,
        entry_of(m).file_hash == m.hash,
        entry_of(m).kind == m.kind,
        entry_of(m).is_dir <==> m.kind == FileKind::Dir,
        entry_of(m).link_target == m.link_target,
        entry_of(m).inode == m.inode,
        entry_of(m).rdev == m.rdev,
        entry_of(m).uid == m.uid,
        entry_of(m).gid == m.gid,
        entry_of(m).xattrs == m.xattrs,
        entry_of(m).mtime_nsec == m.mtime_nsec,
        entry_of(m).atime_nsec == m.atime_nsec,
        m.mtime < 9_223_372_036_854_775_808 ==> entry_of(m).mtime_sec == m.mtime,
        m.atime < 9_223_372_036_854_775_808 ==> entry_of(m).atime_sec == m.atime,
        entry_of(m).source_path is None,
        !entry_of(m).dereferenced,
{
}

/// A rebuilt manifest holds one entry for every file of the list, in its order,
/// and skips none.
pub proof fn law_rebuilt_manifests_hold_every_file(
    metas: Seq<protocol::MetaV>,
    r: Manifest,
    i: int,
)
    requires
        rebuilt(metas, r),
        0 <= i < metas.len(),
    ensures
        r.entries().len() == metas.len(),
        r.entries()[i].relative_path == metas[i].path,
        r.entries()[i].size == metas[i].size,
        r.total_bytes >= metas[i].size,
        r.skipped@.len() == 0,
{
    let es = r.entries();
    scanner::lemma_total_size_prefix(es, i);
    scanner::lemma_total_size_prefix(es, i + 1);
    assert(es.take(i + 1).drop_last() =~= es.take(i));
}

/// The content of an entry is read from its explicit source, and otherwise from
/// its own path below the root.
pub proof fn law_content_is_read_below_the_root(
    root: Seq<char>,
    source: Seq<char>,
    relative_path: Seq<char>,
)
    requires
        root.len() > 0,
        root.last() != '/',
        relative_path.len() > 0 ==> relative_path[0] != '/',
    ensures
        source_of(root, Some(source), relative_path) == source,
        source_of(root, None, relative_path) == root + seq!['/'] + relative_path,
{
    assert(root.push('/') + relative_path =~= root + seq!['/'] + relative_path);
}

/// A backslash in a path text becomes a slash: what stands behind the last one
/// follows the wire form of what stands before it, after one slash.
pub proof fn law_backslashes_become_slashes(a: Seq<char>, b: Seq<char>)
    requires
        !b.contains('\\'),
    ensures
        b.len() == 0 ==> wire_text(a.push('\\') + b) == wire_text(a),
        b.len() > 0 && b[0] == '/' ==> wire_text(a.push('\\') + b) == b,
        b.len() > 0 && b[0] != '/' && wire_text(a).len() > 0 && wire_text(a).last() != '/'
            ==> wire_text(a.push('\\') + b) == wire_text(a) + seq!['/'] + b,
        b.len() > 0 && b[0] != '/' && (wire_text(a).len() == 0 || wire_text(a).last() == '/')
            ==> wire_text(a.push('\\') + b) == wire_text(a) + b,
{
    let segs = text::split_on(a, '\\');
    text::lemma_split_joined(a, b, '\\');
    assert forall|i: int| 0 <= i < b.len() implies b[i] != '\\' by {
        assert(b.contains(b[i]));
    }
    text::lemma_split_none(b, '\\');
    assert((segs + seq![b]).drop_last() =~= segs);
    assert((segs + seq![b]).last() == b);
    assert(wire_text(a).push('/') + b =~= wire_text(a) + seq!['/'] + b);
}

/// The identifier of a file is the hash of the bytes of its path, with the mark
/// that ends a text.
pub proof fn law_identifiers_come_from_the_path(path: Seq<char>)
    ensures
        id_of(path) == DefaultHasher::spec_finish(
            Seq::<Seq<u8>>::empty().push(vstd::utf8::encode_utf8(path)).push(seq![255u8]),
        ),
{
    assert(seq![vstd::utf8::encode_utf8(path), seq![0xffu8]] =~= Seq::<Seq<u8>>::empty().push(
        vstd::utf8::encode_utf8(path),
    ).push(seq![255u8]));
}

/// Only a failure that the peer reports stops a frame, and it is told in the
/// peer's words.
pub proof fn law_only_failures_are_stopped(frame: Frame)
    ensures
        reported_failure(frame) is Some <==> frame is Error,
        frame matches Frame::Error { message } ==> reported_failure(frame) == Some(message@),
{
}

} // verus!
