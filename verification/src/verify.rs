//! The comparison after a transfer: which files arrived intact, and which
//! sources may be removed.
use vstd::prelude::*;

use crate::order;
use crate::order::KeyIndex;
use crate::planner;
use crate::protocol;
use crate::protocol::SkippedFile;
use crate::scanner;
use crate::scanner::FileEntry;
use crate::sender;
use crate::text;
use crate::transfer;
use crate::wire;

verus! {

/// What the comparison of one transferred file says.
#[derive(Debug, Clone, Copy, PartialEq, Eq, Structural)]
pub enum Check {
    /// The receiver skipped the file: nothing more is said of it.
    SkippedByReceiver,
    /// The receiver reported no digest.
    NoHash,
    /// The receiver reported another digest.
    Mismatch,
    /// The digests agree, and nothing is to be removed.
    Verified,
    /// The digests agree, but the content lives outside the source tree.
    External,
    /// The digests agree: look at the source before removing it.
    Probe,
}

/// The names in a list of digests.
pub open spec fn names(hashes: Seq<(Seq<char>, Seq<u8>)>) -> Seq<Seq<char>> {
    hashes.map_values(|p: (Seq<char>, Seq<u8>)| p.0)
}

/// The digest reported for `rel`; a later report replaces an earlier one.
pub open spec fn reported(hashes: Seq<(Seq<char>, Seq<u8>)>, rel: Seq<char>) -> Option<Seq<u8>> {
    let i = order::last_index(names(hashes), rel);
    if i < 0 {
        None
    } else {
        Some(hashes[i].1)
    }
}

/// The position of the first entry at or after `from` at the path `rel`,
/// or the number of entries.
pub open spec fn first_entry(entries: Seq<scanner::EntryV>, rel: Seq<char>, from: int) -> int
    decreases entries.len() - from,
{
    if from >= entries.len() {
        entries.len() as int
    } else if entries[from].relative_path == rel {
        from
    } else {
        first_entry(entries, rel, from + 1)
    }
}

/// The scanned entry at the path `rel`.
pub open spec fn scanned(entries: Seq<scanner::EntryV>, rel: Seq<char>) -> Option<scanner::EntryV> {
    let i = first_entry(entries, rel, 0);
    if i < entries.len() {
        Some(entries[i])
    } else {
        None
    }
}

/// What the comparison of one transferred file says.
pub open spec fn check_of(
    rel: Seq<char>,
    hash: Seq<u8>,
    skipped: Seq<Seq<char>>,
    hashes: Seq<(Seq<char>, Seq<u8>)>,
    remove: bool,
    entry: Option<scanner::EntryV>,
) -> Check {
    if skipped.contains(rel) {
        Check::SkippedByReceiver
    } else {
        match reported(hashes, rel) {
            None => Check::NoHash,
            Some(h) => if h != hash {
                Check::Mismatch
            } else if !remove {
                Check::Verified
            } else if entry matches Some(e) && e.dereferenced {
                Check::External
            } else {
                Check::Probe
            },
        }
    }
}

/// The receiver's final report.
pub struct Acked {
    skipped: KeyIndex,
    names: KeyIndex,
    hashes: Vec<(String, [u8; 32])>,
}

impl Acked {
    /// The paths that the receiver skipped.
    pub closed spec fn skipped_paths(&self) -> Seq<Seq<char>> {
        self.skipped@
    }

    /// The digests that it reported.
    pub closed spec fn reports(&self) -> Seq<(Seq<char>, Seq<u8>)> {
        transfer::sent_views(self.hashes@)
    }

    /// The indexes belong to the lists.
    pub closed spec fn well_formed(&self) -> bool {
        &&& self.skipped.well_formed()
        &&& self.names.well_formed()
        &&& self.names@ == names(self.reports())
    }

    /// Index the lists of an acknowledgement.
    pub fn new(skipped: &Vec<SkippedFile>, hashes: Vec<(String, [u8; 32])>) -> (r: Acked)
        ensures
            r.well_formed(),
            r.skipped_paths() == skipped@.map_values(|s: SkippedFile| s.path@),
            r.reports() == transfer::sent_views(hashes@),
    {
        let ghost f = |s: SkippedFile| s.path@;
        let mut paths: Vec<Vec<char>> = Vec::new();
        let mut i: usize = 0;
        while i < skipped.len()
            invariant
                i <= skipped.len(),
                f == (|s: SkippedFile| s.path@),
                paths.len() == i,
                forall|j: int| 0 <= j < i ==> (#[trigger] paths@[j])@ == f(skipped@[j]),
            decreases skipped.len() - i,
        {
            paths.push(text::chars_of(skipped[i].path.as_str()));
            i += 1;
        }
        assert(order::key_views(paths@) =~= skipped@.map_values(f));
        let mut keys: Vec<Vec<char>> = Vec::new();
        let mut k: usize = 0;
        while k < hashes.len()
            invariant
                k <= hashes.len(),
                keys.len() == k,
                forall|j: int| 0 <= j < k ==> (#[trigger] keys@[j])@ == hashes@[j].0@,
            decreases hashes.len() - k,
        {
            keys.push(text::chars_of(hashes[k].0.as_str()));
            k += 1;
        }
        assert(order::key_views(keys@) =~= names(transfer::sent_views(hashes@)));
        Acked { skipped: KeyIndex::new(paths), names: KeyIndex::new(keys), hashes }
    }

    /// Compare one transferred file with what the receiver reported. `entry`
    /// is the scanned entry, if there is one.
    pub fn check(&self, rel: &str, hash: &[u8; 32], remove: bool, entry: Option<&FileEntry>) -> (r:
        Check)
        requires
            self.well_formed(),
        ensures
            r == check_of(
                rel@,
                hash@,
                self.skipped_paths(),
                self.reports(),
                remove,
                entry_view(entry),
            ),
    {
        let key = text::chars_of(rel);
        proof {
            order::lemma_last_index(self.skipped@, rel@);
            order::lemma_last_index(self.names@, rel@);
        }
        match self.skipped.find_last(&key) {
            Some(i) => {
                assert(self.skipped@[i as int] == rel@);
                return Check::SkippedByReceiver;
            },
            None => {
                assert(!self.skipped@.contains(rel@));
            },
        }
        match self.names.find_last(&key) {
            None => Check::NoHash,
            Some(i) => {
                assert(self.reports()[i as int].1 == self.hashes@[i as int].1@);
                if !protocol::same_hash(&self.hashes[i].1, hash) {
                    Check::Mismatch
                } else if !remove {
                    Check::Verified
                } else {
                    match entry {
                        Some(e) => if e.dereferenced {
                            Check::External
                        } else {
                            Check::Probe
                        },
                        None => Check::Probe,
                    }
                }
            },
        }
    }
}

/// The model of an optional borrowed entry.
pub open spec fn entry_view(e: Option<&FileEntry>) -> Option<scanner::EntryV> {
    match e {
        Some(x) => Some(x@),
        None => None,
    }
}

/// The scanned entry at the path `rel`.
pub fn find_entry<'a>(entries: &'a Vec<FileEntry>, rel: &str) -> (r: Option<&'a FileEntry>)
    ensures
        entry_view(r) == scanned(scanner::entry_views(entries@), rel@),
{
    let ghost ev = scanner::entry_views(entries@);
    let mut i: usize = 0;
    while i < entries.len()
        invariant
            i <= entries.len(),
            ev == scanner::entry_views(entries@),
            first_entry(ev, rel@, 0) == first_entry(ev, rel@, i as int),
        decreases entries.len() - i,
    {
        assert(ev[i as int] == entries@[i as int]@);
        if text::same(entries[i].relative_path.as_str(), rel) {
            return Some(&entries[i]);
        }
        i += 1;
    }
    None
}

/// What the comparison adds to the list of skipped files.
pub open spec fn complaint(c: Check) -> Option<Seq<char>> {
    match c {
        Check::NoHash => Some("no verification hash from receiver"@),
        Check::Mismatch => Some("hash mismatch: destination does not match source"@),
        _ => None,
    }
}

/// Why a file is reported as skipped after the comparison, if it is.
pub fn complain(c: Check) -> (r: Option<String>)
    ensures
        text::opt_view(r) == complaint(c),
{
    match c {
        Check::NoHash => Some(text::copy_str("no verification hash from receiver")),
        Check::Mismatch => Some(
            text::copy_str("hash mismatch: destination does not match source"),
        ),
        _ => None,
    }
}

/// The size and times of a source file now.
#[derive(Debug, Clone, Copy, PartialEq, Eq, Structural)]
pub struct SourceStat {
    /// Size in bytes.
    pub len: u64,
    /// Modification time, wrapped into an unsigned number.
    pub mtime: u64,
    /// Nanosecond remainder of the modification time.
    pub mtime_nsec: u32,
}

/// What looking at a source file, or removing it, came to.
#[derive(Debug)]
pub enum Attempt {
    /// It succeeded.
    Done,
    /// The file was not there.
    Missing,
    /// It failed, with a message.
    Failed(String),
}

/// What to do with a source whose copy arrived intact.
#[derive(Debug)]
pub enum Removal {
    /// Remove it.
    Remove,
    /// Leave it, without a word.
    Leave,
    /// Leave it and report it as skipped.
    Report(String),
}

/// The model of [`Removal`].
pub enum RemovalV {
    Remove,
    Leave,
    Report(Seq<char>),
}

impl View for Removal {
    type V = RemovalV;

    open spec fn view(&self) -> RemovalV {
        match self {
            Removal::Remove => RemovalV::Remove,
            Removal::Leave => RemovalV::Leave,
            Removal::Report(s) => RemovalV::Report(s@),
        }
    }
}

/// Whether a source still is what was scanned; one that was not scanned has
/// nothing to differ from.
pub open spec fn stable(entry: Option<scanner::EntryV>, stat: SourceStat) -> bool {
    match entry {
        Some(e) => stat.len == e.size && stat.mtime == wire::wrapped(e.mtime_sec)
            && stat.mtime_nsec == e.mtime_nsec,
        None => true,
    }
}

/// What to do with a source after looking at it.
pub open spec fn removal_of(
    entry: Option<scanner::EntryV>,
    probe: Attempt,
    stat: SourceStat,
) -> RemovalV {
    match probe {
        Attempt::Done => if stable(entry, stat) {
            RemovalV::Remove
        } else {
            RemovalV::Report("source changed since scan; not removed"@)
        },
        Attempt::Missing => RemovalV::Leave,
        Attempt::Failed(m) => RemovalV::Report(m@),
    }
}

/// Whether a source still is what was scanned.
pub fn is_stable(entry: Option<&FileEntry>, stat: SourceStat) -> (r: bool)
    ensures
        r == stable(entry_view(entry), stat),
{
    match entry {
        Some(e) => stat.len == e.size && stat.mtime == wire::mtime_to_wire(e.mtime_sec)
            && stat.mtime_nsec == e.mtime_nsec,
        None => true,
    }
}

/// Decide about a source after looking at it; `stat` counts only when the look
/// succeeded.
pub fn decide_removal(entry: Option<&FileEntry>, probe: Attempt, stat: SourceStat) -> (r: Removal)
    ensures
        r@ == removal_of(entry_view(entry), probe, stat),
{
    match probe {
        Attempt::Done => {
            if is_stable(entry, stat) {
                Removal::Remove
            } else {
                Removal::Report(text::copy_str("source changed since scan; not removed"))
            }
        },
        Attempt::Missing => Removal::Leave,
        Attempt::Failed(m) => Removal::Report(m),
    }
}

/// The failure of an attempt.
pub open spec fn failure_of(a: Attempt) -> Option<Seq<char>> {
    match a {
        Attempt::Failed(m) => Some(m@),
        _ => None,
    }
}

/// What is reported after trying to remove a source: only a real failure, not
/// a file that was already gone.
pub fn removal_report(removed: Attempt) -> (r: Option<String>)
    ensures
        text::opt_view(r) == failure_of(removed),
        text::opt_view(r) == (match removed {
            Attempt::Failed(m) => Some(m@),
            _ => None,
        }),
{
    match removed {
        Attempt::Done => None,
        Attempt::Missing => None,
        Attempt::Failed(m) => Some(m),
    }
}

/// A source is removed only when removal was asked for, the receiver did not
/// skip the file, the last digest it reported is the digest of what was sent,
/// the content belongs to the source tree, and the source still has the size
/// and time that were scanned.
pub proof fn law_removal_is_safe(
    rel: Seq<char>,
    hash: Seq<u8>,
    skipped: Seq<Seq<char>>,
    hashes: Seq<(Seq<char>, Seq<u8>)>,
    remove: bool,
    entry: Option<scanner::EntryV>,
    probe: Attempt,
    stat: SourceStat,
)
    requires
        check_of(rel, hash, skipped, hashes, remove, entry) == Check::Probe,
        removal_of(entry, probe, stat) == RemovalV::Remove,
    ensures
        remove,
        !skipped.contains(rel),
        reported(hashes, rel) == Some(hash),
        entry matches Some(e) ==> !e.dereferenced && stat.len == e.size && stat.mtime
            == wire::wrapped(e.mtime_sec) && stat.mtime_nsec == e.mtime_nsec,
{
}

/// A link is never removed: it is kept as a link, which is created and whose
/// content does not travel, or the content that travels in its place belongs to
/// another file and is never looked at for removal.
pub proof fn law_links_are_never_removed(
    ctx: scanner::ScanContext,
    link_path: Seq<char>,
    rel: Seq<char>,
    target: Seq<char>,
    facts: scanner::LinkFacts,
    hash: Seq<u8>,
    skipped: Seq<Seq<char>>,
    hashes: Seq<(Seq<char>, Seq<u8>)>,
    remove: bool,
    task: planner::TaskV,
    archive: bool,
    basis: Option<Seq<char>>,
    is_reference: bool,
)
    ensures
        scanner::link_outcome(ctx, link_path, rel, target, facts) matches scanner::FoundV::Entry(e)
            ==> if e.link_target is Some {
            task.is_dir == e.is_dir && task.link_target == e.link_target ==> sender::route_of(
                task,
                archive,
                basis,
                is_reference,
            ) == sender::Route::Link
        } else {
            check_of(rel, hash, skipped, hashes, remove, Some(e)) != Check::Probe
        },
{
}

/// Without removal no source is even looked at.
pub proof fn law_verifying_removes_nothing(
    rel: Seq<char>,
    hash: Seq<u8>,
    skipped: Seq<Seq<char>>,
    hashes: Seq<(Seq<char>, Seq<u8>)>,
    entry: Option<scanner::EntryV>,
)
    ensures
        check_of(rel, hash, skipped, hashes, false, entry) != Check::Probe,
{
}

/// The verdict on a transferred file goes by the last digest that the receiver
/// reported for its path: another one is a mismatch, the same one verifies it,
/// and none at all is told too; a file that the receiver skipped is not judged.
pub proof fn law_the_last_report_decides(
    rel: Seq<char>,
    hash: Seq<u8>,
    skipped: Seq<Seq<char>>,
    hashes: Seq<(Seq<char>, Seq<u8>)>,
    remove: bool,
    entry: Option<scanner::EntryV>,
    k: int,
)
    ensures
        ({
            let c = check_of(rel, hash, skipped, hashes, remove, entry);
            let last = 0 <= k < hashes.len() && hashes[k].0 == rel && forall|j: int|
                k < j < hashes.len() ==> (#[trigger] hashes[j]).0 != rel;
            let outside = entry matches Some(e) && e.dereferenced;
            let open = forall|j: int| 0 <= j < skipped.len() ==> #[trigger] skipped[j] != rel;
            &&& !open ==> c == Check::SkippedByReceiver
            &&& open && (forall|j: int| 0 <= j < hashes.len() ==> (#[trigger] hashes[j]).0 != rel)
                ==> c == Check::NoHash
            &&& open && last && hashes[k].1 != hash ==> c == Check::Mismatch
            &&& open && last && hashes[k].1 == hash && !remove ==> c == Check::Verified
            &&& open && last && hashes[k].1 == hash && remove && outside ==> c == Check::External
            &&& open && last && hashes[k].1 == hash && remove && !outside ==> c == Check::Probe
        }),
{
    order::lemma_last_index(names(hashes), rel);
    let i = order::last_index(names(hashes), rel);
    assert(names(hashes).len() == hashes.len());
    if i >= 0 {
        assert(names(hashes)[i] == hashes[i].0);
    }
    if 0 <= k < hashes.len() && hashes[k].0 == rel {
        assert(names(hashes)[k] == rel);
    }
}

/// A file that fails the comparison is told as skipped, and only such a file.
pub proof fn law_only_failed_comparisons_are_told(c: Check)
    ensures
        complaint(c) is Some <==> c == Check::NoHash || c == Check::Mismatch,
        complaint(Check::NoHash) == Some("no verification hash from receiver"@),
        complaint(Check::Mismatch) == Some("hash mismatch: destination does not match source"@),
{
}

/// A source that still has the size and the modification time of the scan is
/// removed; one that changed is kept and told, one that is gone is passed over,
/// and a look that failed is told with its message.
pub proof fn law_unchanged_sources_are_removed(
    entry: scanner::EntryV,
    stat: SourceStat,
    message: String,
)
    ensures
        entry.mtime_sec >= 0 ==> (removal_of(Some(entry), Attempt::Done, stat) == RemovalV::Remove
            <==> stat.len == entry.size && stat.mtime == entry.mtime_sec && stat.mtime_nsec
            == entry.mtime_nsec),
        entry.mtime_sec < 0 ==> (removal_of(Some(entry), Attempt::Done, stat) == RemovalV::Remove
            <==> stat.len == entry.size && stat.mtime == entry.mtime_sec
            + 18_446_744_073_709_551_616 && stat.mtime_nsec == entry.mtime_nsec),
        removal_of(Some(entry), Attempt::Done, stat) == RemovalV::Remove || removal_of(
            Some(entry),
            Attempt::Done,
            stat,
        ) == RemovalV::Report("source changed since scan; not removed"@),
        removal_of(None, Attempt::Done, stat) == RemovalV::Remove,
        removal_of(Some(entry), Attempt::Missing, stat) == RemovalV::Leave,
        removal_of(None, Attempt::Missing, stat) == RemovalV::Leave,
        removal_of(Some(entry), Attempt::Failed(message), stat) == RemovalV::Report(message@),
        removal_of(None, Attempt::Failed(message), stat) == RemovalV::Report(message@),
        failure_of(Attempt::Failed(message)) == Some(message@),
        failure_of(Attempt::Done) is None,
        failure_of(Attempt::Missing) is None,
{
}

/// The scanned entry of a path is the first one that has it, and there is one
/// whenever the path was scanned.
pub proof fn law_scanned_entries_have_the_path(
    entries: Seq<scanner::EntryV>,
    rel: Seq<char>,
    from: int,
)
    requires
        0 <= from <= entries.len(),
    ensures
        from <= first_entry(entries, rel, from) <= entries.len(),
        forall|j: int|
            from <= j < first_entry(entries, rel, from) ==> (#[trigger] entries[j]).relative_path
                != rel,
        first_entry(entries, rel, from) < entries.len() ==> entries[first_entry(
            entries,
            rel,
            from,
        )].relative_path == rel,
        scanned(entries, rel) matches Some(e) ==> entries.contains(e) && e.relative_path == rel,
        scanned(entries, rel) is None ==> forall|j: int|
            0 <= j < entries.len() ==> (#[trigger] entries[j]).relative_path != rel,
    decreases entries.len() - from,
{
    if from < entries.len() && entries[from].relative_path != rel {
        law_scanned_entries_have_the_path(entries, rel, from + 1);
    }
    if from > 0 {
        lemma_first_entry(entries, rel, 0);
    }
}

proof fn lemma_first_entry(entries: Seq<scanner::EntryV>, rel: Seq<char>, from: int)
    requires
        0 <= from <= entries.len(),
    ensures
        from <= first_entry(entries, rel, from) <= entries.len(),
        forall|j: int|
            from <= j < first_entry(entries, rel, from) ==> (#[trigger] entries[j]).relative_path
                != rel,
        first_entry(entries, rel, from) < entries.len() ==> entries[first_entry(
            entries,
            rel,
            from,
        )].relative_path == rel,
    decreases entries.len() - from,
{
    if from < entries.len() && entries[from].relative_path != rel {
        lemma_first_entry(entries, rel, from + 1);
    }
}

} // verus!
