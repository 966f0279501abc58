//! A whole scan: its options, and the passes over what a walk found.

use vstd::prelude::*;

use crate::digest;
use crate::digest::Digester;
use crate::filter::FilterSet;
use crate::linkpolicy;
use crate::order;
use crate::path;
use crate::protocol;
use crate::protocol::{FileKind, TargetOs, Xattrs};
use crate::scanner;
use crate::scanner::{FileEntry, Manifest, ScanContext, Stat};
use crate::spans;
use crate::text;
use crate::wire;

verus! {

/// Scanner configuration.
#[derive(Debug, Clone)]
pub struct ScanOptions {
    /// Compute content hashes.
    pub hash: bool,
    /// Number of parallel workers.
    pub hash_workers: usize,
    /// Filter applied to discovered paths.
    pub filter: Option<FilterSet>,
    /// Scan subdirectories.
    pub recursive: bool,
    /// Keep links; off means that every link is skipped.
    pub preserve_links: bool,
    /// Replace every link by what it points at.
    pub follow_links: bool,
    /// Keep every link with its literal target.
    pub literal_links: bool,
    /// Keep internal links with their literal target.
    pub literal_internal_links: bool,
    /// Keep links to external files; ignored for a Windows target.
    pub literal_external_file_links: bool,
    /// Keep links to external directories.
    pub literal_external_dir_links: bool,
    /// The operating system of the destination.
    pub target_os: TargetOs,
    /// Whether this is a source scan.
    pub is_source_scan: bool,
    /// Send default permission bits instead of the source's.
    pub no_perms: bool,
    /// The operating system of the source.
    pub source_os: TargetOs,
    /// The operating system that the scan runs on.
    pub host: TargetOs,
    /// Keep the set-user, set-group and sticky bits.
    pub archive: bool,
    /// Collect extended attributes.
    pub xattrs: bool,
    /// Recreate the root directory's own name at the destination.
    pub include_root_component: bool,
    /// The paths that the peer's source manifest has as links; only for a
    /// destination scan.
    pub source_link_paths: Option<Vec<String>>,
}

/// `num_cpus::get`: the number of available processors, at least one. How
/// many there are depends on the machine, so nothing more is said.
#[verifier::external_body]
pub(crate) fn cpu_count() -> (n: usize)
    ensures
        n >= 1,
{
    num_cpus::get()
}

/// `std::path::MAIN_SEPARATOR`: the path separator of the platform this was
/// compiled for. Which one that is depends on the platform, so nothing is said
/// of it.
#[verifier::external_body]
fn platform_separator() -> (c: char) {
    std::path::MAIN_SEPARATOR
}

/// The operating-system family whose path separator is `separator`.
pub open spec fn family_of(separator: char) -> TargetOs {
    if separator == '\\' {
        TargetOs::Windows
    } else {
        TargetOs::Unix
    }
}

/// The operating-system family whose path separator is `separator`.
pub fn os_of_separator(separator: char) -> (r: TargetOs)
    ensures
        r == family_of(separator),
        r == if separator == '\\' {
            TargetOs::Windows
        } else {
            TargetOs::Unix
        },
{
    if separator == '\\' {
        TargetOs::Windows
    } else {
        TargetOs::Unix
    }
}

/// The operating system that this process runs on.
pub fn local_os() -> (r: TargetOs) {
    os_of_separator(platform_separator())
}

impl Default for ScanOptions {
    fn default() -> (r: ScanOptions)
        ensures
            !r.hash && r.hash_workers >= 1 && r.filter is None,
            r.recursive && r.preserve_links && !r.follow_links,
            !r.literal_links && !r.literal_internal_links,
            !r.literal_external_file_links && !r.literal_external_dir_links,
            r.target_os == TargetOs::Unix,
            r.is_source_scan && !r.no_perms,
            !r.archive && !r.xattrs && !r.include_root_component,
            r.source_link_paths is None,
    {
        ScanOptions {
            hash: false,
            hash_workers: cpu_count(),
            filter: None,
            recursive: true,
            preserve_links: true,
            follow_links: false,
            literal_links: false,
            literal_internal_links: false,
            literal_external_file_links: false,
            literal_external_dir_links: false,
            target_os: TargetOs::Unix,
            is_source_scan: true,
            no_perms: false,
            source_os: local_os(),
            host: local_os(),
            archive: false,
            xattrs: false,
            include_root_component: false,
            source_link_paths: None,
        }
    }
}

/// The last segment of a path whose segments are separated by slashes or
/// backslashes.
pub open spec fn last_segment(p: Seq<char>) -> Seq<char> {
    text::split_on(text::swap_char(p, '\\', '/'), '/').last()
}

/// Whether the last component of a source path is recreated at the
/// destination.
pub open spec fn recreates_root(p: Seq<char>) -> bool {
    last_segment(p).len() > 0 && last_segment(p) != seq!['.'] && last_segment(p) != seq!['.', '.']
}

/// Whether the last component of a source path is recreated at the
/// destination: not for an empty path, one that ends in a separator, or one
/// whose last component is `.` or `..`.
pub fn include_root_component(p: &str) -> (r: bool)
    ensures
        r == recreates_root(p@),
        r == (last_segment(p@).len() > 0 && last_segment(p@) != seq!['.'] && last_segment(p@)
            != seq!['.', '.']),
{
    let slashed = text::replace_char(p, '\\', '/');
    let segs = text::split(slashed.as_str(), '/');
    proof {
        text::lemma_split_pieces(slashed@, '/');
        assert(text::views(segs@).last() == segs[segs.len() - 1]@);
    }
    let last = text::chars_of(segs[segs.len() - 1].as_str());
    proof {
        assert(seq!['.'].len() == 1 && seq!['.'][0] == '.');
        assert(seq!['.', '.'].len() == 2 && seq!['.', '.'][0] == '.' && seq!['.', '.'][1] == '.');
        if last.len() == 1 && last[0] == '.' {
            assert(last@ =~= seq!['.']);
        }
        if last.len() == 2 && last[0] == '.' && last[1] == '.' {
            assert(last@ =~= seq!['.', '.']);
        }
    }
    if last.len() == 0 {
        false
    } else if last.len() == 1 {
        last[0] != '.'
    } else if last.len() == 2 {
        !(last[0] == '.' && last[1] == '.')
    } else {
        true
    }
}

/// Why several roots cannot be scanned together.
#[derive(Debug, Clone)]
pub enum RootError {
    /// A root does not lie under the common base.
    NotUnderBase(String),
}

/// One root of a scan of several: where it is, and its name in the manifest.
#[derive(Debug, Clone)]
pub struct NamedRoot {
    /// The root's path.
    pub root: String,
    /// Its name below the common base.
    pub rel: String,
}

/// The models of a sequence of named roots.
pub open spec fn root_views(v: Seq<NamedRoot>) -> Seq<(Seq<char>, Seq<char>)> {
    v.map_values(|n: NamedRoot| (n.root@, n.rel@))
}

/// The name of a root below the base: slash-separated, without a leading
/// `./`.
pub open spec fn root_name(rel: Seq<char>) -> Seq<char> {
    let w = wire::wire_text(rel);
    if seq!['.', '/'].is_prefix_of(w) {
        w.skip(2)
    } else {
        w
    }
}

/// Whether a path lies under one of the accepted roots.
pub open spec fn covered(accepted: Seq<(Seq<char>, Seq<char>)>, root: Seq<char>) -> bool {
    exists|i: int| 0 <= i < accepted.len() && path::under(root, (#[trigger] accepted[i]).0)
}

/// The roots accepted among the first `n`: those not covered by an earlier
/// one, under the base, and let through by the filter. The error is the first
/// uncovered root that is not under the base.
pub open spec fn accepted_roots(
    filter: Option<FilterSet>,
    base: Seq<char>,
    roots: Seq<Seq<char>>,
    n: int,
) -> Result<Seq<(Seq<char>, Seq<char>)>, Seq<char>>
    decreases n,
{
    if n <= 0 {
        Ok(Seq::empty())
    } else {
        match accepted_roots(filter, base, roots, n - 1) {
            Err(e) => Err(e),
            Ok(front) => {
                let root = roots[n - 1];
                if covered(front, root) {
                    Ok(front)
                } else {
                    match path::stripped(root, base) {
                        None => Err(root),
                        Some(rel) => if scanner::admitted(filter, root_name(rel)) {
                            Ok(front.push((root, root_name(rel))))
                        } else {
                            Ok(front)
                        },
                    }
                }
            },
        }
    }
}

/// A sequence rearranged by an order.
pub open spec fn arranged<A>(v: Seq<A>, ord: Seq<usize>) -> Seq<A> {
    Seq::new(ord.len(), |i: int| v[ord[i] as int])
}

/// A leading `./` removed.
fn drop_dot_slash(s: &str) -> (out: String)
    ensures
        out@ == if seq!['.', '/'].is_prefix_of(s@) {
            s@.skip(2)
        } else {
            s@
        },
{
    let x = text::chars_of(s);
    if x.len() >= 2 && x[0] == '.' && x[1] == '/' {
        assert(seq!['.', '/'] =~= s@.subrange(0, 2));
        let out = text::string_of(&x, 2, x.len());
        assert(out@ =~= s@.skip(2));
        out
    } else {
        proof {
            if seq!['.', '/'].is_prefix_of(s@) {
                assert(seq!['.', '/'][0] == s@.subrange(0, 2)[0]);
                assert(seq!['.', '/'][1] == s@.subrange(0, 2)[1]);
            }
        }
        text::copy_str(s)
    }
}

/// An entry with the digest of its content.
pub open spec fn with_hash(e: scanner::EntryV, content: Seq<u8>) -> scanner::EntryV {
    scanner::EntryV { file_hash: Some(digest::blake3_of(content)), ..e }
}

/// An object that a walk saw: the path that the filter is asked about, its
/// entry, and what was read of it.
pub struct Seen {
    /// The path below the root, as it is written there.
    pub rel: String,
    /// The entry.
    pub entry: FileEntry,
    /// Its content, where that was read.
    pub content: Option<Digester>,
    /// Its extended attributes, where they were read.
    pub xattrs: Xattrs,
}

/// The model of [`Seen`].
pub struct SeenV {
    pub rel: Seq<char>,
    pub entry: scanner::EntryV,
    pub content: Option<Seq<u8>>,
    pub xattrs: Option<Seq<(Seq<char>, Seq<u8>)>>,
}

/// The content that was read, if any.
pub open spec fn content_view(content: Option<Digester>) -> Option<Seq<u8>> {
    match content {
        Some(d) => Some(d@),
        None => None,
    }
}

impl View for Seen {
    type V = SeenV;

    open spec fn view(&self) -> SeenV {
        SeenV {
            rel: self.rel@,
            entry: self.entry@,
            content: content_view(self.content),
            xattrs: protocol::xattrs_view(self.xattrs),
        }
    }
}

impl Seen {
    /// An object of which nothing was read yet.
    pub fn new(rel: String, entry: FileEntry) -> (r: Seen)
        ensures
            r@ == (SeenV { rel: rel@, entry: entry@, content: None, xattrs: None }),
    {
        Seen { rel, entry, content: None, xattrs: None }
    }
}

/// The models of a sequence of objects.
pub open spec fn seen_views(v: Seq<Seen>) -> Seq<SeenV> {
    v.map_values(|s: Seen| s@)
}

/// The entries of a sequence of objects.
pub open spec fn entries_of(v: Seq<SeenV>) -> Seq<scanner::EntryV> {
    v.map_values(|s: SeenV| s.entry)
}

/// Whether the content of an entry is hashed: that of regular files.
pub open spec fn hashed_kind(opts: ScanOptions, e: scanner::EntryV) -> bool {
    opts.hash && !e.is_dir && e.link_target is None && e.kind == FileKind::File
}

/// Whether the extended attributes of an entry are collected: those of files
/// and directories, in a source scan that asks for them.
pub open spec fn xattr_kind(opts: ScanOptions, e: scanner::EntryV) -> bool {
    opts.xattrs && opts.is_source_scan && (e.kind == FileKind::File || e.kind == FileKind::Dir)
}

/// Whether the content of an object is to be read.
pub open spec fn wants_hash(opts: ScanOptions, filter: Option<FilterSet>, s: SeenV) -> bool {
    hashed_kind(opts, s.entry) && scanner::admitted(filter, s.rel)
}

/// The positions whose content is to be read.
pub open spec fn hash_wanted(
    opts: ScanOptions,
    filter: Option<FilterSet>,
    seen: Seq<SeenV>,
) -> spec_fn(int) -> bool {
    |i: int| wants_hash(opts, filter, seen[i])
}

/// Whether the extended attributes of an object are to be read.
pub open spec fn wants_xattrs(opts: ScanOptions, filter: Option<FilterSet>, s: SeenV) -> bool {
    xattr_kind(opts, s.entry) && scanner::admitted(filter, s.rel)
}

/// The entry of an object with the digest of its content.
pub open spec fn hashed_in(opts: ScanOptions, s: SeenV) -> scanner::EntryV {
    if hashed_kind(opts, s.entry) && s.content is Some {
        with_hash(s.entry, s.content->0)
    } else {
        s.entry
    }
}

/// The entry of an object with what was read of it.
pub open spec fn read_in(opts: ScanOptions, s: SeenV) -> scanner::EntryV {
    if xattr_kind(opts, s.entry) {
        scanner::EntryV { xattrs: s.xattrs, ..hashed_in(opts, s) }
    } else {
        hashed_in(opts, s)
    }
}

/// What the probe of a destination records.
pub open spec fn probed(opts: ScanOptions, seen: Seq<SeenV>) -> Seq<scanner::EntryV> {
    seen.map_values(|s: SeenV| hashed_in(opts, s))
}

/// An entry with the permission bits that a scan gives it.
pub open spec fn moded(opts: ScanOptions, e: scanner::EntryV) -> scanner::EntryV {
    if opts.is_source_scan {
        with_wire_mode(opts, e)
    } else {
        e
    }
}

/// The entries of those of the first `n` objects that the filter lets through.
pub open spec fn taken_in(
    opts: ScanOptions,
    filter: Option<FilterSet>,
    seen: Seq<SeenV>,
    n: int,
) -> Seq<scanner::EntryV>
    decreases n,
{
    if n <= 0 {
        Seq::empty()
    } else if scanner::admitted(filter, seen[n - 1].rel) {
        taken_in(opts, filter, seen, n - 1).push(read_in(opts, seen[n - 1]))
    } else {
        taken_in(opts, filter, seen, n - 1)
    }
}

/// What a scan records of the objects that its walk saw, in the order in which
/// they were seen.
pub open spec fn scanned(
    opts: ScanOptions,
    filter: Option<FilterSet>,
    seen: Seq<SeenV>,
) -> Seq<scanner::EntryV> {
    taken_in(opts, filter, seen, seen.len() as int).map_values(
        |e: scanner::EntryV| moded(opts, e),
    )
}

/// Whether all of the objects have relative paths.
pub open spec fn all_relative(seen: Seq<SeenV>) -> bool {
    forall|i: int|
        0 <= i < seen.len() ==> !path::is_absolute((#[trigger] seen[i]).entry.relative_path)
}

/// Whether an entry of a scanned tree is that of an object which the filter lets
/// through.
pub open spec fn came_through(
    opts: ScanOptions,
    canonical: Seq<char>,
    seen: Seq<SeenV>,
    e: scanner::EntryV,
) -> bool {
    exists|i: int|
        0 <= i < seen.len() && scanner::admitted(opts.filter, (#[trigger] seen[i]).rel) && e
            == homed_entry(opts, canonical, moded(opts, read_in(opts, seen[i])))
}

/// Whether a manifest is that of several roots below a base, for what was
/// gathered and its order.
pub open spec fn merged(
    opts: ScanOptions,
    base: Seq<char>,
    seen: Seq<SeenV>,
    ord: Seq<usize>,
    m: Manifest,
) -> bool {
    let all = scanned(opts, None, seen);
    &&& order::orders(scanner::paths(all), ord, 0, all.len() as int)
    &&& m.root@ == base
    &&& m.entries() == arranged(all, ord)
    &&& m.total_bytes == scanner::total_size(all)
}

/// Those of the first `n` positions of an order that are wanted.
pub open spec fn chosen(ord: Seq<usize>, want: spec_fn(int) -> bool, n: int) -> Seq<usize>
    decreases n,
{
    if n <= 0 {
        Seq::empty()
    } else if want(ord[n - 1] as int) {
        chosen(ord, want, n - 1).push(ord[n - 1])
    } else {
        chosen(ord, want, n - 1)
    }
}

/// The name of the entry of a root that is a single file.
pub open spec fn single_name(canonical: Seq<char>) -> Seq<char> {
    wire::wire_text(
        match path::file_name_of(canonical) {
            Some(n) => n,
            None => canonical,
        },
    )
}

/// Whether a manifest is that of a root which is a single file.
pub open spec fn holds_single(
    opts: ScanOptions,
    canonical: Seq<char>,
    stat: Stat,
    content: Option<Seq<u8>>,
    xattrs: Option<Seq<(Seq<char>, Seq<u8>)>>,
    r: Manifest,
) -> bool {
    let name = single_name(canonical);
    let s = SeenV { rel: name, entry: scanner::file_of(name, stat), content, xattrs };
    &&& r.root@ == parent_or_self(canonical)
    &&& r.skipped@.len() == 0
    &&& if scanner::admitted(opts.filter, name) {
        r.entries() == seq![moded(opts, read_in(opts, s))] && r.total_bytes == stat.size
    } else {
        r.entries().len() == 0 && r.total_bytes == 0
    }
}

/// Whether a policy scans as some options say.
pub open spec fn governs(opts: ScanOptions, root: Seq<char>, r: ScanContext) -> bool {
    &&& r.host == opts.host
    &&& r.root@ == root
    &&& r.recursive == opts.recursive
    &&& r.preserve_links == opts.preserve_links
    &&& r.literal_links == opts.literal_links
    &&& r.literal_internal_links == opts.literal_internal_links
    &&& r.literal_external_file_links == opts.literal_external_file_links
    &&& r.literal_external_dir_links == opts.literal_external_dir_links
    &&& r.target_os == opts.target_os
    &&& r.source_is_windows == (opts.source_os == TargetOs::Windows)
    &&& r.filter is Some == opts.filter is Some
    &&& r.filter is Some ==> r.filter->0.includes@ == opts.filter->0.includes@
        && r.filter->0.excludes@ == opts.filter->0.excludes@
}

/// Filesystem scanner.
#[derive(Debug, Clone)]
pub struct Scanner {
    options: ScanOptions,
}

impl Scanner {
    /// The options.
    pub closed spec fn opts(&self) -> ScanOptions {
        self.options
    }

    /// Create a new scanner.
    pub fn new(options: ScanOptions) -> (r: Scanner)
        ensures
            r.opts() == options,
    {
        Scanner { options }
    }

    /// The policy for a scan of the canonical `root`.
    pub fn context(&self, root: &str) -> (r: ScanContext)
        ensures
            governs(self.opts(), root@, r),
            r.host == self.opts().host,
            r.root@ == root@,
            r.filter is Some == self.opts().filter is Some,
            r.filter is Some ==> r.filter->0.includes@ == self.opts().filter->0.includes@
                && r.filter->0.excludes@ == self.opts().filter->0.excludes@,
            r.recursive == self.opts().recursive,
            r.preserve_links == self.opts().preserve_links,
            r.follow_links == self.opts().follow_links,
            r.literal_links == self.opts().literal_links,
            r.literal_internal_links == self.opts().literal_internal_links,
            r.literal_external_file_links == self.opts().literal_external_file_links,
            r.literal_external_dir_links == self.opts().literal_external_dir_links,
            r.target_os == self.opts().target_os,
            r.is_source == self.opts().is_source_scan,
            r.source_is_windows == (self.opts().source_os == TargetOs::Windows),
            r.source_link_paths is Some == self.opts().source_link_paths is Some,
            r.source_link_paths is Some ==> r.source_link_paths->0@
                == self.opts().source_link_paths->0@,
            r.warn == self.opts().is_source_scan,
    {
        ScanContext {
            host: self.options.host,
            root: text::copy_str(root),
            filter: match &self.options.filter {
                Some(f) => Some(f.copy()),
                None => None,
            },
            recursive: self.options.recursive,
            preserve_links: self.options.preserve_links,
            follow_links: self.options.follow_links,
            literal_links: self.options.literal_links,
            literal_internal_links: self.options.literal_internal_links,
            literal_external_file_links: self.options.literal_external_file_links,
            literal_external_dir_links: self.options.literal_external_dir_links,
            target_os: self.options.target_os,
            is_source: self.options.is_source_scan,
            source_is_windows: self.options.source_os == TargetOs::Windows,
            source_link_paths: match &self.options.source_link_paths {
                Some(v) => Some(text::copy_strings(v)),
                None => None,
            },
            warn: self.options.is_source_scan,
        }
    }

    /// The policy for the probe of a destination: links are recorded as they
    /// are, and shortcuts are recognized where the source has links.
    pub fn probe_context(&self, root: &str, source: &Manifest) -> (r: ScanContext)
        ensures
            governs(self.opts(), root@, r),
            !r.is_source && !r.follow_links && !r.warn,
            r.host == self.opts().host,
            r.root@ == root@,
            r.filter is Some == self.opts().filter is Some,
            r.filter is Some ==> r.filter->0.includes@ == self.opts().filter->0.includes@
                && r.filter->0.excludes@ == self.opts().filter->0.excludes@,
            r.preserve_links == self.opts().preserve_links,
            r.literal_links == self.opts().literal_links,
            r.literal_internal_links == self.opts().literal_internal_links,
            r.literal_external_file_links == self.opts().literal_external_file_links,
            r.literal_external_dir_links == self.opts().literal_external_dir_links,
            r.target_os == self.opts().target_os,
            r.source_is_windows == (self.opts().source_os == TargetOs::Windows),
            r.recursive == self.opts().recursive,
            match r.source_link_paths {
                Some(v) => v@.len() > 0 && text::views(v@) == link_paths(source.entries()),
                None => link_paths(source.entries()).len() == 0,
            },
    {
        let mut ctx = self.context(root);
        ctx.is_source = false;
        ctx.follow_links = false;
        ctx.warn = false;
        let links = source_links(source);
        ctx.source_link_paths = if links.len() > 0 {
            Some(links)
        } else {
            None
        };
        ctx
    }

    /// How many paths one worker probes.
    pub fn probe_chunk(&self, count: usize) -> (size: usize)
        ensures
            size >= 1,
            count > 0 ==> size == spans_of(count as int, self.opts().hash_workers as int),
    {
        let workers: usize = if self.options.hash_workers > 1 {
            self.options.hash_workers
        } else {
            1
        };
        let size = spans::div_up(count, workers);
        if size > 1 {
            size
        } else {
            1
        }
    }

    /// Choose the roots of a scan of several: in order, those that no earlier
    /// one covers and that the filter lets through, each with its name below
    /// `base`.
    pub fn merge_roots(&self, base: &str, roots: &Vec<String>) -> (r: Result<
        Vec<NamedRoot>,
        RootError,
    >)
        ensures
            exists|ord: Seq<usize>|
                order::orders(path::order_keys(text::views(roots@)), ord, 0, roots.len() as int) && (
                match #[trigger] accepted_roots(
                    self.opts().filter,
                    base@,
                    arranged(text::views(roots@), ord),
                    roots.len() as int,
                ) {
                    Ok(v) => r is Ok && root_views(r->Ok_0@) == v,
                    Err(e) => r matches Err(RootError::NotUnderBase(p)) && p@ == e,
                }),
    {
        let ghost rv = text::views(roots@);
        let mut keys: Vec<Vec<char>> = Vec::new();
        let mut i: usize = 0;
        while i < roots.len()
            invariant
                i <= roots.len(),
                rv == text::views(roots@),
                keys.len() == i,
                forall|j: int|
                    0 <= j < i ==> (#[trigger] keys@[j])@ == path::order_key(path::comps(rv[j])),
            decreases roots.len() - i,
        {
            keys.push(path::sort_key(roots[i].as_str()));
            i += 1;
        }
        assert(order::key_views(keys@) =~= path::order_keys(rv));
        let ord = order::sort_order(&keys);
        let ghost sorted = arranged(rv, ord@);
        let mut out: Vec<NamedRoot> = Vec::new();
        let mut k: usize = 0;
        assert(root_views(out@) =~= Seq::empty());
        while k < ord.len()
            invariant
                k <= ord.len(),
                ord.len() == roots.len(),
                rv == text::views(roots@),
                sorted == arranged(rv, ord@),
                order::orders(path::order_keys(rv), ord@, 0, roots.len() as int),
                accepted_roots(self.opts().filter, base@, sorted, k as int) == Ok::<
                    Seq<(Seq<char>, Seq<char>)>,
                    Seq<char>,
                >(root_views(out@)),
            decreases ord.len() - k,
        {
            let at: usize = ord[k];
            let root = &roots[at];
            assert(sorted[k as int] == root@);
            let seen = is_covered(&out, root.as_str());
            if !seen {
                match path::strip_prefix(root.as_str(), base) {
                    None => {
                        proof {
                            assert(accepted_roots(self.opts().filter, base@, sorted, k + 1)
                                == Err::<Seq<(Seq<char>, Seq<char>)>, Seq<char>>(root@));
                            lemma_error_stays(
                                self.opts().filter,
                                base@,
                                sorted,
                                k + 1,
                                roots.len() as int,
                            );
                        }
                        return Err(RootError::NotUnderBase(text::copy_str(root.as_str())));
                    },
                    Some(rel) => {
                        let wired = wire::wire_str(rel.as_str());
                        let name = drop_dot_slash(wired.as_str());
                        if scanner::admits(&self.options.filter, name.as_str()) {
                            let named = NamedRoot {
                                root: text::copy_str(root.as_str()),
                                rel: name,
                            };
                            let ghost was = out@;
                            out.push(named);
                            assert(root_views(out@) =~= root_views(was).push(
                                (named.root@, named.rel@),
                            ));
                        }
                    },
                }
            }
            k += 1;
        }
        Ok(out)
    }

    /// The permission bits that a source scan sends, in place of the raw ones.
    pub fn apply_permission_matrix(&self, entries: &mut Vec<FileEntry>)
        ensures
            scanner::entry_views(final(entries)@) == if self.opts().is_source_scan {
                scanner::entry_views(old(entries)@).map_values(
                    |e: scanner::EntryV| with_wire_mode(self.opts(), e),
                )
            } else {
                scanner::entry_views(old(entries)@)
            },
    {
        if !self.options.is_source_scan {
            return;
        }
        let ghost opts = self.options;
        let ghost f = |e: scanner::EntryV| with_wire_mode(opts, e);
        let ghost before = scanner::entry_views(entries@);
        let mut i: usize = 0;
        while i < entries.len()
            invariant
                i <= entries.len(),
                entries.len() == before.len(),
                opts == self.options,
                f == (|e: scanner::EntryV| with_wire_mode(opts, e)),
                forall|j: int| 0 <= j < i ==> (#[trigger] entries@[j])@ == f(before[j]),
                forall|j: int| i <= j < before.len() ==> (#[trigger] entries@[j])@ == before[j],
            decreases entries.len() - i,
        {
            let mode: u32 = if entries[i].link_target.is_some() {
                0
            } else {
                let hint = linkpolicy::compute_exec_hint(entries[i].relative_path.as_str());
                linkpolicy::final_mode(
                    self.options.source_os,
                    self.options.target_os,
                    entries[i].mode,
                    entries[i].is_dir,
                    hint,
                    self.options.no_perms,
                    self.options.archive,
                )
            };
            let ghost now = entries@;
            assert(now[i as int]@ == before[i as int]);
            entries[i].mode = mode;
            assert(entries@[i as int]@ == f(before[i as int]));
            i += 1;
        }
        assert(scanner::entry_views(entries@) =~= before.map_values(f));
    }

    /// The positions whose content is hashed, in the order of their paths:
    /// regular files that the filter lets through.
    pub fn hash_targets(&self, filter: &Option<FilterSet>, seen: &Vec<Seen>) -> (out: Vec<usize>)
        ensures
            exists|ord: Seq<usize>|
                order::orders(
                    scanner::paths(entries_of(seen_views(seen@))),
                    ord,
                    0,
                    seen.len() as int,
                ) && out@ == #[trigger] chosen(
                    ord,
                    hash_wanted(self.opts(), *filter, seen_views(seen@)),
                    ord.len() as int,
                ),
    {
        let ghost sv = seen_views(seen@);
        let ghost want = hash_wanted(self.opts(), *filter, sv);
        let keys = seen_keys(seen);
        let ord = order::sort_order(&keys);
        let mut out: Vec<usize> = Vec::new();
        let mut i: usize = 0;
        assert(out@ =~= chosen(ord@, want, 0));
        while i < ord.len()
            invariant
                i <= ord.len(),
                sv == seen_views(seen@),
                want == hash_wanted(self.opts(), *filter, sv),
                order::orders(scanner::paths(entries_of(sv)), ord@, 0, seen.len() as int),
                out@ == chosen(ord@, want, i as int),
            decreases ord.len() - i,
        {
            let at: usize = ord[i];
            let s = &seen[at];
            assert(sv[at as int] == s@);
            if self.is_hashed(&s.entry) && scanner::admits(filter, s.rel.as_str()) {
                out.push(at);
            }
            i += 1;
        }
        out
    }

    /// Whether the content of an entry is hashed.
    fn is_hashed(&self, e: &FileEntry) -> (r: bool)
        ensures
            r == hashed_kind(self.opts(), e@),
    {
        self.options.hash && !e.is_dir && e.link_target.is_none() && e.kind == FileKind::File
    }

    /// Whether the extended attributes of an entry are collected.
    fn has_xattrs(&self, e: &FileEntry) -> (r: bool)
        ensures
            r == xattr_kind(self.opts(), e@),
    {
        self.options.xattrs && self.options.is_source_scan && (e.kind == FileKind::File || e.kind
            == FileKind::Dir)
    }

    /// The positions whose extended attributes are collected: files and
    /// directories of a source scan that asks for them.
    pub fn xattr_targets(&self, filter: &Option<FilterSet>, seen: &Vec<Seen>) -> (out: Vec<usize>)
        ensures
            picks(
                out@,
                seen.len() as int,
                |i: int| wants_xattrs(self.opts(), *filter, seen_views(seen@)[i]),
            ),
    {
        let ghost sv = seen_views(seen@);
        let mut out: Vec<usize> = Vec::new();
        let ghost want = |i: int| wants_xattrs(self.opts(), *filter, sv[i]);
        let mut i: usize = 0;
        while i < seen.len()
            invariant
                i <= seen.len(),
                sv == seen_views(seen@),
                want == (|i: int| wants_xattrs(self.opts(), *filter, sv[i])),
                picks(out@, i as int, want),
            decreases seen.len() - i,
        {
            let s = &seen[i];
            assert(sv[i as int] == s@);
            let ghost was = out@;
            if self.has_xattrs(&s.entry) && scanner::admits(filter, s.rel.as_str()) {
                out.push(i);
            }
            proof {
                lemma_picks_step(was, out@, i as int, want);
            }
            i += 1;
        }
        out
    }

    /// The entry of an object with the digest of its content.
    fn hashed(&self, s: &Seen) -> (e: FileEntry)
        ensures
            e@ == hashed_in(self.opts(), s@),
    {
        let mut e = s.entry.copy();
        if self.is_hashed(&s.entry) {
            if let Some(content) = &s.content {
                e.file_hash = Some(content.finalize());
            }
        }
        e
    }

    /// The entries of what the filter lets through, with what was read of each.
    fn taken(&self, filter: &Option<FilterSet>, seen: &Vec<Seen>) -> (out: Vec<FileEntry>)
        ensures
            scanner::entry_views(out@) == taken_in(
                self.opts(),
                *filter,
                seen_views(seen@),
                seen.len() as int,
            ),
    {
        let ghost sv = seen_views(seen@);
        let mut out: Vec<FileEntry> = Vec::new();
        let mut i: usize = 0;
        assert(scanner::entry_views(out@) =~= Seq::empty());
        while i < seen.len()
            invariant
                i <= seen.len(),
                sv == seen_views(seen@),
                scanner::entry_views(out@) == taken_in(self.opts(), *filter, sv, i as int),
            decreases seen.len() - i,
        {
            let s = &seen[i];
            assert(sv[i as int] == s@);
            if scanner::admits(filter, s.rel.as_str()) {
                let ghost was = out@;
                let mut e = self.hashed(s);
                if self.has_xattrs(&s.entry) {
                    e.xattrs = protocol::copy_xattrs(&s.xattrs);
                }
                out.push(e);
                assert(scanner::entry_views(out@) =~= scanner::entry_views(was).push(e@));
            }
            i += 1;
        }
        out
    }

    /// The manifest of a root that is a single file: one entry named by the
    /// file's name, unless the filter stops it, under the file's directory.
    /// `content` and `xattrs` are what was read of it.
    pub fn single_file(
        &self,
        canonical: &str,
        stat: &Stat,
        content: Option<Digester>,
        xattrs: Xattrs,
    ) -> (r: Manifest)
        ensures
            holds_single(
                self.opts(),
                canonical@,
                *stat,
                content_view(content),
                protocol::xattrs_view(xattrs),
                r,
            ),
            r.root@ == parent_or_self(canonical@),
            r.skipped@.len() == 0,
            ({
                let name = single_name(canonical@);
                let s = SeenV {
                    rel: name,
                    entry: scanner::file_of(name, *stat),
                    content: content_view(content),
                    xattrs: protocol::xattrs_view(xattrs),
                };
                if scanner::admitted(self.opts().filter, name) {
                    r.entries() == seq![moded(self.opts(), read_in(self.opts(), s))]
                        && r.total_bytes == stat.size
                } else {
                    r.entries().len() == 0 && r.total_bytes == 0
                }
            }),
    {
        let name = match path::file_name(canonical) {
            Some(n) => wire::wire_str(n.as_str()),
            None => wire::wire_str(canonical),
        };
        let root = directory_of(canonical);
        let rel = text::copy_str(name.as_str());
        let entry = scanner::file_entry(name, stat);
        let one = Seen { rel, entry, content, xattrs };
        let mut seen: Vec<Seen> = Vec::new();
        seen.push(one);
        let ghost opts = self.opts();
        let ghost sv = seen_views(seen@);
        assert(sv =~= seq![one@]);
        let mut files = self.taken(&self.options.filter, &seen);
        let ghost tv = scanner::entry_views(files@);
        proof {
            reveal_with_fuel(taken_in, 2);
            if scanner::admitted(opts.filter, one.rel@) {
                assert(tv =~= seq![read_in(opts, one@)]);
            } else {
                assert(tv =~= Seq::empty());
            }
        }
        self.apply_permission_matrix(&mut files);
        let ghost mv = scanner::entry_views(files@);
        proof {
            assert(mv =~= tv.map_values(|e: scanner::EntryV| moded(opts, e)));
            reveal_with_fuel(scanner::total_size, 2);
            if scanner::admitted(opts.filter, one.rel@) {
                assert(mv =~= seq![moded(opts, read_in(opts, one@))]);
            }
        }
        Manifest::of(root, files, Vec::new())
    }

    /// The whole scan of a tree, from what its walk saw: the entries that the
    /// filter lets through, with what was read of each and the permission bits
    /// that they travel with, in the order of their paths, under the root's own
    /// name where that is recreated. The sizes must add up to a number that
    /// fits.
    pub fn scan(&self, canonical: &str, seen: &Vec<Seen>, skipped: &Vec<String>) -> (r: Manifest)
        requires
            scanner::total_size(
                scanned(self.opts(), self.opts().filter, seen_views(seen@)),
            ) <= u64::MAX,
        ensures
            ({
                let all = scanned(self.opts(), self.opts().filter, seen_views(seen@));
                &&& r.total_bytes == scanner::total_size(all)
                &&& exists|ord: Seq<usize>|
                    order::orders(scanner::paths(all), ord, 0, all.len() as int) && r.entries()
                        == homed(self.opts(), canonical@, #[trigger] arranged(all, ord))
            }),
            all_relative(seen_views(seen@)) ==> paths_ascend(r.entries()),
            forall|k: int|
                0 <= k < r.entries().len() ==> came_through(
                    self.opts(),
                    canonical@,
                    seen_views(seen@),
                    #[trigger] r.entries()[k],
                ),
            r.root@ == home_of(self.opts(), canonical@),
            text::views(r.skipped@) == homed_paths(
                self.opts(),
                canonical@,
                text::views(skipped@),
            ),
    {
        let ghost opts = self.opts();
        let ghost all = scanned(opts, opts.filter, seen_views(seen@));
        let mut entries = self.taken(&self.options.filter, seen);
        let ghost tv = scanner::entry_views(entries@);
        self.apply_permission_matrix(&mut entries);
        assert(scanner::entry_views(entries@) =~= all) by {
            assert(tv.map_values(|e: scanner::EntryV| moded(opts, e)) =~= all);
        }
        let sorted = sort_entries(&entries);
        proof {
            let ord = choose|ord: Seq<usize>|
                order::orders(scanner::paths(all), ord, 0, all.len() as int)
                    && scanner::entry_views(sorted@) == #[trigger] arranged(all, ord);
            lemma_total_arranged(all, ord);
            lemma_scan_of_tree(opts, canonical@, seen_views(seen@), ord);
        }
        self.finish(canonical, &sorted, skipped)
    }

    /// The whole scan of several roots, from what was gathered for them: the
    /// entries with the attributes read of each and the permission bits that
    /// they travel with, in the order of their paths, below the base. The sizes
    /// must add up to a number that fits.
    pub fn scan_multi(&self, base: &str, seen: &Vec<Seen>, skipped: Vec<String>) -> (r: Manifest)
        requires
            scanner::total_size(scanned(self.opts(), None, seen_views(seen@))) <= u64::MAX,
        ensures
            exists|ord: Seq<usize>| #[trigger]
                merged(self.opts(), base@, seen_views(seen@), ord, r),
            r.skipped == skipped,
    {
        let ghost opts = self.opts();
        let ghost all = scanned(opts, None, seen_views(seen@));
        let mut entries = self.taken(&None, seen);
        let ghost tv = scanner::entry_views(entries@);
        self.apply_permission_matrix(&mut entries);
        assert(scanner::entry_views(entries@) =~= all) by {
            assert(tv.map_values(|e: scanner::EntryV| moded(opts, e)) =~= all);
        }
        let sorted = sort_entries(&entries);
        let ghost ord = choose|ord: Seq<usize>|
            order::orders(scanner::paths(all), ord, 0, all.len() as int)
                && scanner::entry_views(sorted@) == #[trigger] arranged(all, ord);
        proof {
            lemma_total_arranged(all, ord);
        }
        let r = Manifest::of(text::copy_str(base), sorted, skipped);
        assert(merged(opts, base@, seen_views(seen@), ord, r));
        r
    }

    /// The whole probe of a destination, from what was found there: the entries
    /// with their digests, in the order of their paths. The sizes must add up to
    /// a number that fits.
    pub fn scan_targeted(&self, canonical: &str, seen: &Vec<Seen>) -> (r: Manifest)
        requires
            scanner::total_size(probed(self.opts(), seen_views(seen@))) <= u64::MAX,
        ensures
            ({
                let all = probed(self.opts(), seen_views(seen@));
                &&& r.total_bytes == scanner::total_size(all)
                &&& exists|ord: Seq<usize>|
                    order::orders(scanner::paths(all), ord, 0, all.len() as int) && r.entries()
                        == #[trigger] arranged(all, ord)
            }),
            r.root@ == canonical@,
            r.skipped@.len() == 0,
    {
        let ghost all = probed(self.opts(), seen_views(seen@));
        let mut entries: Vec<FileEntry> = Vec::new();
        let mut i: usize = 0;
        while i < seen.len()
            invariant
                i <= seen.len(),
                all == probed(self.opts(), seen_views(seen@)),
                entries.len() == i,
                forall|j: int| 0 <= j < i ==> (#[trigger] entries@[j])@ == all[j],
            decreases seen.len() - i,
        {
            entries.push(self.hashed(&seen[i]));
            i += 1;
        }
        assert(scanner::entry_views(entries@) =~= all);
        let sorted = sort_entries(&entries);
        proof {
            let ord = choose|ord: Seq<usize>|
                order::orders(scanner::paths(all), ord, 0, all.len() as int)
                    && scanner::entry_views(sorted@) == #[trigger] arranged(all, ord);
            lemma_total_arranged(all, ord);
        }
        Manifest::of(text::copy_str(canonical), sorted, Vec::new())
    }

    /// The manifest of a walked tree: where the root's own name is recreated,
    /// every path gets it as a prefix and the manifest is rooted one level up.
    /// The sizes must add up to a number that fits.
    pub fn finish(&self, canonical: &str, entries: &Vec<FileEntry>, skipped: &Vec<String>) -> (r:
        Manifest)
        requires
            scanner::total_size(scanner::entry_views(entries@)) <= u64::MAX,
        ensures
            r.total_bytes == scanner::total_size(scanner::entry_views(entries@)),
            r.root@ == home_of(self.opts(), canonical@),
            r.entries() == homed(self.opts(), canonical@, scanner::entry_views(entries@)),
            text::views(r.skipped@) == homed_paths(
                self.opts(),
                canonical@,
                text::views(skipped@),
            ),
    {
        let total_bytes = scanner::sum_sizes(entries);
        let name = if self.options.include_root_component {
            path::file_name(canonical)
        } else {
            None
        };
        let ghost ev = scanner::entry_views(entries@);
        let ghost kv = text::views(skipped@);
        let mut files: Vec<FileEntry> = Vec::new();
        let mut i: usize = 0;
        while i < entries.len()
            invariant
                i <= entries.len(),
                ev == scanner::entry_views(entries@),
                files.len() == i,
                forall|j: int|
                    0 <= j < i ==> (#[trigger] files@[j])@ == match text::opt_view(name) {
                        Some(n) => prefixed(n, ev[j]),
                        None => ev[j],
                    },
            decreases entries.len() - i,
        {
            let mut e = entries[i].copy();
            if let Some(n) = &name {
                e.relative_path = prefix_of(n.as_str(), e.relative_path.as_str());
            }
            files.push(e);
            i += 1;
        }
        let mut kept: Vec<String> = Vec::new();
        let mut k: usize = 0;
        while k < skipped.len()
            invariant
                k <= skipped.len(),
                kv == text::views(skipped@),
                kept.len() == k,
                forall|j: int|
                    0 <= j < k ==> (#[trigger] kept@[j])@ == match text::opt_view(name) {
                        Some(n) => prefix_path(n, kv[j]),
                        None => kv[j],
                    },
            decreases skipped.len() - k,
        {
            let p = match &name {
                Some(n) => prefix_of(n.as_str(), skipped[k].as_str()),
                None => text::copy_str(skipped[k].as_str()),
            };
            kept.push(p);
            k += 1;
        }
        let root = match &name {
            Some(_) => directory_of(canonical),
            None => text::copy_str(canonical),
        };
        let r = Manifest { root, files, total_bytes, skipped: kept };
        proof {
            match text::opt_view(name) {
                Some(n) => {
                    assert(r.entries() =~= ev.map_values(|e: scanner::EntryV| prefixed(n, e)));
                    assert(text::views(r.skipped@) =~= kv.map_values(
                        |p: Seq<char>| prefix_path(n, p),
                    ));
                },
                None => {
                    assert(r.entries() =~= ev);
                    assert(text::views(r.skipped@) =~= kv);
                },
            }
        }
        r
    }
}

/// How many of `count` paths each of `workers` probes.
pub open spec fn spans_of(count: int, workers: int) -> int {
    spans::ceil_div(
        count,
        if workers > 1 {
            workers
        } else {
            1
        },
    )
}

/// The name under which a root's contents are recreated, if it is.
pub open spec fn rehomed(opts: ScanOptions, canonical: Seq<char>) -> Option<Seq<char>> {
    if opts.include_root_component {
        path::file_name_of(canonical)
    } else {
        None
    }
}

/// A path below a root's own name.
pub open spec fn prefix_path(name: Seq<char>, rel: Seq<char>) -> Seq<char> {
    wire::unix_joined(wire::unix_joined(Seq::empty(), name), rel)
}

/// An entry below a root's own name.
pub open spec fn prefixed(name: Seq<char>, e: scanner::EntryV) -> scanner::EntryV {
    scanner::EntryV { relative_path: prefix_path(name, e.relative_path), ..e }
}

/// Where the manifest of a walked tree is rooted: one level up where the root's
/// own name is recreated.
pub open spec fn home_of(opts: ScanOptions, canonical: Seq<char>) -> Seq<char> {
    if rehomed(opts, canonical) is Some {
        parent_or_self(canonical)
    } else {
        canonical
    }
}

/// An entry of a walked tree, below the root's own name where that is recreated.
pub open spec fn homed_entry(
    opts: ScanOptions,
    canonical: Seq<char>,
    e: scanner::EntryV,
) -> scanner::EntryV {
    match rehomed(opts, canonical) {
        Some(name) => prefixed(name, e),
        None => e,
    }
}

/// The entries of a walked tree, below the root's own name where that is
/// recreated.
pub open spec fn homed(
    opts: ScanOptions,
    canonical: Seq<char>,
    entries: Seq<scanner::EntryV>,
) -> Seq<scanner::EntryV> {
    entries.map_values(|e: scanner::EntryV| homed_entry(opts, canonical, e))
}

/// Paths of a walked tree, below the root's own name where that is recreated.
pub open spec fn homed_paths(
    opts: ScanOptions,
    canonical: Seq<char>,
    paths: Seq<Seq<char>>,
) -> Seq<Seq<char>> {
    match rehomed(opts, canonical) {
        Some(name) => paths.map_values(|p: Seq<char>| prefix_path(name, p)),
        None => paths,
    }
}

/// A path below a root's own name.
fn prefix_of(name: &str, rel: &str) -> (out: String)
    ensures
        out@ == prefix_path(name@, rel@),
{
    let empty = String::new();
    let base = wire::unix_push(empty.as_str(), name);
    wire::unix_push(base.as_str(), rel)
}

/// The directory of a path, or the path itself where it has none.
pub open spec fn parent_or_self(p: Seq<char>) -> Seq<char> {
    match path::parent_of(p) {
        Some(d) => d,
        None => p,
    }
}

/// The directory of a path, or the path itself where it has none.
fn directory_of(p: &str) -> (out: String)
    ensures
        out@ == parent_or_self(p@),
{
    match path::parent(p) {
        Some(d) => d,
        None => text::copy_str(p),
    }
}

/// An entry with the permission bits that it travels with: none for a link,
/// those of the permission matrix for everything else.
pub open spec fn with_wire_mode(opts: ScanOptions, e: scanner::EntryV) -> scanner::EntryV {
    scanner::EntryV {
        mode: if e.link_target is Some {
            0
        } else {
            linkpolicy::wire_mode(
                opts.source_os,
                e.mode,
                e.is_dir,
                linkpolicy::exec_hinted(e.relative_path),
                opts.no_perms,
                opts.archive,
            )
        },
        ..e
    }
}

/// Whether `out` lists, in ascending order, exactly the positions below `n`
/// that are wanted.
pub open spec fn picks(out: Seq<usize>, n: int, want: spec_fn(int) -> bool) -> bool {
    &&& forall|a: int| 0 <= a < out.len() ==> 0 <= #[trigger] out[a] < n && want(out[a] as int)
    &&& forall|a: int, b: int| 0 <= a < b < out.len() ==> #[trigger] out[a] < #[trigger] out[b]
    &&& forall|i: int| 0 <= i < n && #[trigger] want(i) ==> order::placed(out, i)
}

proof fn lemma_picks_step(was: Seq<usize>, now: Seq<usize>, i: int, want: spec_fn(int) -> bool)
    requires
        0 <= i <= usize::MAX,
        picks(was, i, want),
        now == if want(i) {
            was.push(i as usize)
        } else {
            was
        },
    ensures
        picks(now, i + 1, want),
{
    assert forall|j: int| 0 <= j < i + 1 && #[trigger] want(j) implies order::placed(now, j) by {
        if j == i {
            assert(now[now.len() - 1] == i);
        } else {
            assert(order::placed(was, j));
            let a = choose|a: int| 0 <= a < was.len() && #[trigger] was[a] == j;
            assert(now[a] == j);
        }
    }
}

/// The paths of the links among a sequence of entries.
pub open spec fn link_paths(v: Seq<scanner::EntryV>) -> Seq<Seq<char>>
    decreases v.len(),
{
    if v.len() == 0 {
        Seq::empty()
    } else {
        let front = link_paths(v.drop_last());
        if v.last().link_target is Some {
            front.push(v.last().relative_path)
        } else {
            front
        }
    }
}

/// The paths of the links of a manifest.
fn source_links(source: &Manifest) -> (out: Vec<String>)
    ensures
        text::views(out@) == link_paths(source.entries()),
{
    let ghost ev = source.entries();
    let mut out: Vec<String> = Vec::new();
    let mut i: usize = 0;
    assert(ev.take(0) =~= Seq::empty());
    assert(text::views(out@) =~= Seq::empty());
    while i < source.files.len()
        invariant
            i <= source.files.len(),
            ev == source.entries(),
            text::views(out@) == link_paths(ev.take(i as int)),
        decreases source.files.len() - i,
    {
        let e = &source.files[i];
        proof {
            assert(ev.take(i + 1).drop_last() =~= ev.take(i as int));
            assert(ev.take(i + 1).last() == e@);
        }
        if e.link_target.is_some() {
            let p = text::copy_str(e.relative_path.as_str());
            let ghost was = out@;
            out.push(p);
            assert(text::views(out@) =~= text::views(was).push(p@));
        }
        i += 1;
    }
    assert(ev.take(i as int) =~= ev);
    out
}

/// Whether a path lies under one of the accepted roots.
fn is_covered(accepted: &Vec<NamedRoot>, root: &str) -> (r: bool)
    ensures
        r == covered(root_views(accepted@), root@),
{
    let ghost av = root_views(accepted@);
    let mut i: usize = 0;
    while i < accepted.len()
        invariant
            i <= accepted.len(),
            av == root_views(accepted@),
            forall|j: int| 0 <= j < i ==> !path::under(root@, (#[trigger] av[j]).0),
        decreases accepted.len() - i,
    {
        assert(av[i as int].0 == accepted[i as int].root@);
        if path::starts_with(root, accepted[i].root.as_str()) {
            return true;
        }
        i += 1;
    }
    false
}

proof fn lemma_error_stays(
    filter: Option<FilterSet>,
    base: Seq<char>,
    roots: Seq<Seq<char>>,
    k: int,
    n: int,
)
    requires
        0 <= k <= n,
        accepted_roots(filter, base, roots, k) is Err,
    ensures
        accepted_roots(filter, base, roots, n) == accepted_roots(filter, base, roots, k),
    decreases n - k,
{
    if k < n {
        lemma_error_stays(filter, base, roots, k, n - 1);
    }
}

/// Nothing is lost by merging roots: every root under the base whose name the
/// filter lets through lies under an accepted one.
pub proof fn law_merged_roots_cover_all(
    filter: Option<FilterSet>,
    base: Seq<char>,
    roots: Seq<Seq<char>>,
    n: int,
    i: int,
)
    requires
        0 <= i < n <= roots.len(),
        accepted_roots(filter, base, roots, n) is Ok,
        eligible(filter, base, roots[i]),
    ensures
        covered(accepted_roots(filter, base, roots, n)->Ok_0, roots[i]),
    decreases n,
{
    let front = accepted_roots(filter, base, roots, n - 1)->Ok_0;
    let now = accepted_roots(filter, base, roots, n)->Ok_0;
    if i < n - 1 {
        law_merged_roots_cover_all(filter, base, roots, n - 1, i);
        let k = choose|k: int|
            0 <= k < front.len() && path::under(roots[i], (#[trigger] front[k]).0);
        assert(now[k] == front[k]);
    } else if !covered(front, roots[i]) {
        let cs = path::comps(roots[i]);
        assert(cs =~= cs.subrange(0, cs.len() as int));
        assert(now[front.len() as int].0 == roots[i]);
    }
}

/// No accepted root lies under another one, so nothing is scanned twice.
pub proof fn law_merged_roots_are_disjoint(
    filter: Option<FilterSet>,
    base: Seq<char>,
    roots: Seq<Seq<char>>,
    n: int,
    a: int,
    b: int,
)
    requires
        0 <= n <= roots.len(),
        ascending(roots),
        accepted_roots(filter, base, roots, n) is Ok,
        0 <= a < accepted_roots(filter, base, roots, n)->Ok_0.len(),
        0 <= b < accepted_roots(filter, base, roots, n)->Ok_0.len(),
        a != b,
    ensures
        !path::under(
            accepted_roots(filter, base, roots, n)->Ok_0[a].0,
            accepted_roots(filter, base, roots, n)->Ok_0[b].0,
        ),
    decreases n,
{
    let front = accepted_roots(filter, base, roots, n - 1)->Ok_0;
    let now = accepted_roots(filter, base, roots, n)->Ok_0;
    if a < front.len() && b < front.len() {
        law_merged_roots_are_disjoint(filter, base, roots, n - 1, a, b);
        assert(now[a] == front[a] && now[b] == front[b]);
    } else if b < front.len() {
        // The newest one was not covered.
        assert(now[b] == front[b]);
        assert(now[a].0 == roots[n - 1]);
    } else {
        // An earlier one cannot lie below the newest: it would sort after it.
        assert(now[b].0 == roots[n - 1]);
        assert(now[a] == front[a]);
        let i = lemma_accepted_is_root(filter, base, roots, n - 1, a);
        if path::under(roots[i], roots[n - 1]) {
            let deep = path::comps(roots[i]);
            let high = path::comps(roots[n - 1]);
            assert(deep.take(high.len() as int) =~= high);
            if high.len() < deep.len() {
                path::lemma_order_key_prefix(deep, high.len() as int);
                text::lemma_lex_prefix(path::order_key(high), path::order_key(deep));
            } else {
                assert(deep =~= high.subrange(0, deep.len() as int));
                assert(covered(front, roots[n - 1]));
            }
        }
    }
}

proof fn lemma_accepted_is_root(
    filter: Option<FilterSet>,
    base: Seq<char>,
    roots: Seq<Seq<char>>,
    n: int,
    a: int,
) -> (i: int)
    requires
        0 <= n <= roots.len(),
        accepted_roots(filter, base, roots, n) is Ok,
        0 <= a < accepted_roots(filter, base, roots, n)->Ok_0.len(),
    ensures
        0 <= i < n,
        accepted_roots(filter, base, roots, n)->Ok_0[a] == (
            roots[i],
            root_name(path::stripped(roots[i], base)->0),
        ),
        eligible(filter, base, roots[i]),
    decreases n,
{
    let front = accepted_roots(filter, base, roots, n - 1)->Ok_0;
    if a < front.len() {
        lemma_accepted_is_root(filter, base, roots, n - 1, a)
    } else {
        n - 1
    }
}

/// Whether a root is under the base and let through by the filter.
pub open spec fn eligible(filter: Option<FilterSet>, base: Seq<char>, root: Seq<char>) -> bool {
    path::stripped(root, base) is Some && scanner::admitted(
        filter,
        root_name(path::stripped(root, base)->0),
    )
}

/// What accepted roots are: the path that each names, and its name in the
/// manifest.
pub open spec fn root_places(accepted: Seq<(Seq<char>, Seq<char>)>) -> Seq<
    (Seq<path::Comp>, Seq<char>),
> {
    accepted.map_values(|r: (Seq<char>, Seq<char>)| (path::comps(r.0), r.1))
}

/// Whether roots that are the same path are written the same.
pub open spec fn written_one_way(roots: Seq<Seq<char>>) -> bool {
    forall|x: Seq<char>, y: Seq<char>|
        #[trigger] roots.contains(x) && #[trigger] roots.contains(y) && path::comps(x)
            == path::comps(y) ==> x == y
}

/// Whether none of the accepted roots has a name under another one's.
pub open spec fn names_apart(accepted: Seq<(Seq<char>, Seq<char>)>) -> bool {
    forall|x: int, y: int|
        0 <= x < accepted.len() && 0 <= y < accepted.len() && x != y ==> !path::under(
            (#[trigger] accepted[x]).1,
            (#[trigger] accepted[y]).1,
        )
}

/// Neither the order in which the roots are named nor how often each is named
/// matters: a root outside the base is refused either way, and otherwise the
/// same paths are scanned under the same names.
pub proof fn law_order_and_repeats_of_roots_do_not_matter(
    filter: Option<FilterSet>,
    base: Seq<char>,
    a: Seq<Seq<char>>,
    oa: Seq<usize>,
    b: Seq<Seq<char>>,
    ob: Seq<usize>,
)
    requires
        order::orders(path::order_keys(a), oa, 0, a.len() as int),
        order::orders(path::order_keys(b), ob, 0, b.len() as int),
        forall|root: Seq<char>| a.contains(root) <==> #[trigger] b.contains(root),
        written_one_way(a),
    ensures
        ({
            let ra = accepted_roots(filter, base, arranged(a, oa), a.len() as int);
            let rb = accepted_roots(filter, base, arranged(b, ob), b.len() as int);
            &&& ra is Ok <==> rb is Ok
            &&& ra is Ok ==> root_places(ra->Ok_0).to_set() == root_places(rb->Ok_0).to_set()
        }),
{
    let ra = accepted_roots(filter, base, arranged(a, oa), a.len() as int);
    let rb = accepted_roots(filter, base, arranged(b, ob), b.len() as int);
    lemma_arranged(a, oa);
    lemma_arranged(b, ob);
    lemma_same_refusal(filter, base, arranged(a, oa), arranged(b, ob));
    lemma_same_refusal(filter, base, arranged(b, ob), arranged(a, oa));
    if ra is Ok {
        lemma_same_places(filter, base, arranged(a, oa), arranged(b, ob));
        lemma_same_places(filter, base, arranged(b, ob), arranged(a, oa));
        assert(root_places(ra->Ok_0).to_set() =~= root_places(rb->Ok_0).to_set());
    }
}

/// A sequence rearranged by a sorting order holds the same texts, and no path
/// sorts before an earlier one.
proof fn lemma_arranged(v: Seq<Seq<char>>, ord: Seq<usize>)
    requires
        order::orders(path::order_keys(v), ord, 0, v.len() as int),
    ensures
        arranged(v, ord).len() == v.len(),
        forall|x: Seq<char>| v.contains(x) <==> #[trigger] arranged(v, ord).contains(x),
        ascending(arranged(v, ord)),
{
    let w = arranged(v, ord);
    let keys = path::order_keys(v);
    assert forall|x: Seq<char>| v.contains(x) <==> #[trigger] w.contains(x) by {
        if v.contains(x) {
            let i = choose|i: int| 0 <= i < v.len() && v[i] == x;
            assert(order::placed(ord, i));
            let k = choose|k: int| 0 <= k < ord.len() && #[trigger] ord[k] == i;
            assert(w[k] == x);
        }
        if w.contains(x) {
            let k = choose|k: int| 0 <= k < w.len() && w[k] == x;
            assert(v[ord[k] as int] == x);
        }
    }
    assert forall|i: int, j: int| 0 <= i < j < w.len() implies !text::lex_lt(
        path::order_key(path::comps(#[trigger] w[j])),
        path::order_key(path::comps(#[trigger] w[i])),
    ) by {
        let ki = keys[ord[i] as int];
        let kj = keys[ord[j] as int];
        assert(order::sorts_before(keys, ord[i] as int, ord[j] as int));
        assert(ki == path::order_key(path::comps(w[i])));
        assert(kj == path::order_key(path::comps(w[j])));
        text::lemma_lex_irrefl(ki);
        if text::lex_lt(kj, ki) && text::lex_lt(ki, kj) {
            text::lemma_lex_trans(ki, kj, ki);
        }
    }
}

/// Whether no path sorts before an earlier one.
pub open spec fn ascending(roots: Seq<Seq<char>>) -> bool {
    forall|i: int, j: int|
        0 <= i < j < roots.len() ==> !text::lex_lt(
            path::order_key(path::comps(#[trigger] roots[j])),
            path::order_key(path::comps(#[trigger] roots[i])),
        )
}

/// Roots are refused exactly when one of them is outside the base.
proof fn lemma_refused(
    filter: Option<FilterSet>,
    base: Seq<char>,
    roots: Seq<Seq<char>>,
    n: int,
)
    requires
        0 <= n <= roots.len(),
    ensures
        accepted_roots(filter, base, roots, n) is Err <==> exists|i: int|
            0 <= i < n && path::stripped(#[trigger] roots[i], base) is None,
    decreases n,
{
    if n > 0 {
        lemma_refused(filter, base, roots, n - 1);
        let last = roots[n - 1];
        if accepted_roots(filter, base, roots, n - 1) is Ok {
            let front = accepted_roots(filter, base, roots, n - 1)->Ok_0;
            if covered(front, last) {
                let k = choose|k: int|
                    0 <= k < front.len() && path::under(last, (#[trigger] front[k]).0);
                let j = lemma_accepted_is_root(filter, base, roots, n - 1, k);
                lemma_under_trans(last, roots[j], base);
            }
        }
    }
}

/// What lies under a path under the base lies under the base.
proof fn lemma_under_trans(low: Seq<char>, mid: Seq<char>, high: Seq<char>)
    requires
        path::under(low, mid),
        path::under(mid, high),
    ensures
        path::under(low, high),
{
    let l = path::comps(low);
    let m = path::comps(mid);
    let h = path::comps(high);
    assert(h =~= l.subrange(0, h.len() as int)) by {
        assert forall|i: int| 0 <= i < h.len() implies h[i] == l[i] by {
            assert(h[i] == m.subrange(0, h.len() as int)[i]);
            assert(m[i] == l.subrange(0, m.len() as int)[i]);
        }
    }
}

/// What one list refuses, another of the same roots refuses.
proof fn lemma_same_refusal(
    filter: Option<FilterSet>,
    base: Seq<char>,
    a: Seq<Seq<char>>,
    b: Seq<Seq<char>>,
)
    requires
        forall|x: Seq<char>| #[trigger] a.contains(x) ==> b.contains(x),
    ensures
        accepted_roots(filter, base, a, a.len() as int) is Err ==> accepted_roots(
            filter,
            base,
            b,
            b.len() as int,
        ) is Err,
{
    lemma_refused(filter, base, a, a.len() as int);
    lemma_refused(filter, base, b, b.len() as int);
    if accepted_roots(filter, base, a, a.len() as int) is Err {
        let i = choose|i: int| 0 <= i < a.len() && path::stripped(#[trigger] a[i], base) is None;
        assert(a.contains(a[i]));
        let j = choose|j: int| 0 <= j < b.len() && b[j] == a[i];
        assert(path::stripped(b[j], base) is None);
    }
}

/// What one list has scanned, another of the same roots has scanned.
proof fn lemma_same_places(
    filter: Option<FilterSet>,
    base: Seq<char>,
    a: Seq<Seq<char>>,
    b: Seq<Seq<char>>,
)
    requires
        ascending(a),
        ascending(b),
        forall|x: Seq<char>| a.contains(x) <==> #[trigger] b.contains(x),
        written_one_way(a),
        accepted_roots(filter, base, a, a.len() as int) is Ok,
        accepted_roots(filter, base, b, b.len() as int) is Ok,
    ensures
        forall|place: (Seq<path::Comp>, Seq<char>)| #[trigger]
            root_places(accepted_roots(filter, base, a, a.len() as int)->Ok_0).contains(place)
                ==> root_places(accepted_roots(filter, base, b, b.len() as int)->Ok_0).contains(
                place,
            ),
{
    let va = accepted_roots(filter, base, a, a.len() as int)->Ok_0;
    let vb = accepted_roots(filter, base, b, b.len() as int)->Ok_0;
    assert forall|place: (Seq<path::Comp>, Seq<char>)| #[trigger]
        root_places(va).contains(place) implies root_places(vb).contains(place) by {
        let k = choose|k: int|
            0 <= k < va.len() && #[trigger] root_places(va)[k] == place;
        let i = lemma_accepted_is_root(filter, base, a, a.len() as int, k);
        assert(a.contains(a[i]));
        assert(b.contains(a[i]));
        let i2 = choose|i2: int| 0 <= i2 < b.len() && b[i2] == a[i];
        // The root is scanned from the other list, by itself or from above.
        law_merged_roots_cover_all(filter, base, b, b.len() as int, i2);
        let m = choose|m: int| 0 <= m < vb.len() && path::under(b[i2], (#[trigger] vb[m]).0);
        let j = lemma_accepted_is_root(filter, base, b, b.len() as int, m);
        assert(b.contains(b[j]));
        assert(a.contains(b[j]));
        let j2 = choose|j2: int| 0 <= j2 < a.len() && a[j2] == b[j];
        // What scans it there is scanned here, so it is the root itself.
        law_merged_roots_cover_all(filter, base, a, a.len() as int, j2);
        let k2 = choose|k2: int| 0 <= k2 < va.len() && path::under(a[j2], (#[trigger] va[k2]).0);
        lemma_under_trans(va[k].0, a[j2], va[k2].0);
        if k != k2 {
            law_merged_roots_are_disjoint(filter, base, a, a.len() as int, k, k2);
        }
        let x = path::comps(va[k].0);
        let y = path::comps(vb[m].0);
        assert(x =~= y) by {
            assert(y =~= x.subrange(0, y.len() as int));
            assert(x =~= y.subrange(0, x.len() as int));
        }
        assert(a[i] == b[j]);
        assert(root_places(vb)[m] == place);
    }
}

/// What is found for the first `n` places, one place after another.
pub open spec fn gathered(
    places: Seq<(Seq<path::Comp>, Seq<char>)>,
    found: spec_fn((Seq<path::Comp>, Seq<char>)) -> Seq<scanner::EntryV>,
    n: int,
) -> Seq<scanner::EntryV>
    decreases n,
{
    if n <= 0 {
        Seq::empty()
    } else {
        gathered(places, found, n - 1) + found(places[n - 1])
    }
}

/// Whether what is found for a place lies at or below its name, each path once.
pub open spec fn found_in_place(
    found: spec_fn((Seq<path::Comp>, Seq<char>)) -> Seq<scanner::EntryV>,
) -> bool {
    forall|place: (Seq<path::Comp>, Seq<char>)| #[trigger]
        scanner::paths_once(found(place)) && forall|i: int|
            0 <= i < found(place).len() ==> path::under(
                (#[trigger] found(place)[i]).relative_path,
                place.1,
            )
}

/// Whether the paths of a manifest ascend, none of them twice.
pub open spec fn strictly_ascending(v: Seq<scanner::EntryV>) -> bool {
    forall|i: int, j: int|
        0 <= i < j < v.len() ==> text::lex_lt(
            (#[trigger] v[i]).relative_path,
            (#[trigger] v[j]).relative_path,
        )
}

/// The roots of a scan of several give the same files however they are ordered
/// and repeated: what is found for the accepted roots, whatever that is, sorts
/// to one list, which holds no path twice. Roots that are the same path must be
/// written the same, and none may be named under another.
pub proof fn law_order_and_repeats_of_roots_give_the_same_files(
    filter: Option<FilterSet>,
    base: Seq<char>,
    a: Seq<Seq<char>>,
    oa: Seq<usize>,
    b: Seq<Seq<char>>,
    ob: Seq<usize>,
    found: spec_fn((Seq<path::Comp>, Seq<char>)) -> Seq<scanner::EntryV>,
    sa: Seq<usize>,
    sb: Seq<usize>,
)
    requires
        order::orders(path::order_keys(a), oa, 0, a.len() as int),
        order::orders(path::order_keys(b), ob, 0, b.len() as int),
        forall|root: Seq<char>| a.contains(root) <==> #[trigger] b.contains(root),
        written_one_way(a),
        accepted_roots(filter, base, arranged(a, oa), a.len() as int) is Ok,
        names_apart(accepted_roots(filter, base, arranged(a, oa), a.len() as int)->Ok_0),
        found_in_place(found),
        ({
            let ra = root_places(
                accepted_roots(filter, base, arranged(a, oa), a.len() as int)->Ok_0,
            );
            let rb = root_places(
                accepted_roots(filter, base, arranged(b, ob), b.len() as int)->Ok_0,
            );
            let ga = gathered(ra, found, ra.len() as int);
            let gb = gathered(rb, found, rb.len() as int);
            &&& order::orders(scanner::paths(ga), sa, 0, ga.len() as int)
            &&& order::orders(scanner::paths(gb), sb, 0, gb.len() as int)
        }),
    ensures
        ({
            let ra = root_places(
                accepted_roots(filter, base, arranged(a, oa), a.len() as int)->Ok_0,
            );
            let rb = root_places(
                accepted_roots(filter, base, arranged(b, ob), b.len() as int)->Ok_0,
            );
            let ga = gathered(ra, found, ra.len() as int);
            let gb = gathered(rb, found, rb.len() as int);
            &&& arranged(ga, sa) == arranged(gb, sb)
            &&& strictly_ascending(arranged(ga, sa))
        }),
{
    law_order_and_repeats_of_roots_do_not_matter(filter, base, a, oa, b, ob);
    let va = accepted_roots(filter, base, arranged(a, oa), a.len() as int)->Ok_0;
    let vb = accepted_roots(filter, base, arranged(b, ob), b.len() as int)->Ok_0;
    let ra = root_places(va);
    let rb = root_places(vb);
    let ga = gathered(ra, found, ra.len() as int);
    let gb = gathered(rb, found, rb.len() as int);
    assert forall|x: int, y: int| 0 <= x < rb.len() && 0 <= y < rb.len() && x != y implies
        !path::under((#[trigger] rb[x]).1, (#[trigger] rb[y]).1) by {
        lemma_arranged(b, ob);
        law_merged_roots_are_disjoint(filter, base, arranged(b, ob), b.len() as int, x, y);
        let c = path::comps(vb[x].0);
        assert(c =~= c.subrange(0, c.len() as int));
        assert(rb.to_set().contains(rb[x]) && rb.to_set().contains(rb[y]));
        assert(ra.to_set().contains(rb[x]) && ra.to_set().contains(rb[y]));
        let i = choose|i: int| 0 <= i < ra.len() && ra[i] == rb[x];
        let j = choose|j: int| 0 <= j < ra.len() && ra[j] == rb[y];
        assert(i != j);
        assert(va[i].1 == rb[x].1 && va[j].1 == rb[y].1);
    }
    assert forall|x: int, y: int| 0 <= x < ra.len() && 0 <= y < ra.len() && x != y implies
        !path::under((#[trigger] ra[x]).1, (#[trigger] ra[y]).1) by {
        assert(ra[x].1 == va[x].1 && ra[y].1 == va[y].1);
    }
    lemma_gathered_apart(ra, found, ra.len() as int);
    lemma_gathered_apart(rb, found, rb.len() as int);
    assert forall|e: scanner::EntryV| ga.contains(e) <==> #[trigger] gb.contains(e) by {
        lemma_gathered_holds(ra, found, ra.len() as int, e);
        lemma_gathered_holds(rb, found, rb.len() as int, e);
        if ga.contains(e) {
            let k = choose|k: int| 0 <= k < ra.len() && found(#[trigger] ra[k]).contains(e);
            assert(ra.to_set().contains(ra[k]));
            assert(rb.to_set().contains(ra[k]));
            let m = choose|m: int| 0 <= m < rb.len() && rb[m] == ra[k];
            assert(found(rb[m]).contains(e));
        }
        if gb.contains(e) {
            let k = choose|k: int| 0 <= k < rb.len() && found(#[trigger] rb[k]).contains(e);
            assert(rb.to_set().contains(rb[k]));
            assert(ra.to_set().contains(rb[k]));
            let m = choose|m: int| 0 <= m < ra.len() && ra[m] == rb[k];
            assert(found(ra[m]).contains(e));
        }
    }
    lemma_sorted_once(ga, sa);
    lemma_sorted_once(gb, sb);
    let x = arranged(ga, sa);
    let y = arranged(gb, sb);
    assert forall|e: scanner::EntryV| x.contains(e) <==> #[trigger] y.contains(e) by {
        assert(ga.contains(e) <==> x.contains(e));
        assert(gb.contains(e) <==> y.contains(e));
        assert(ga.contains(e) <==> gb.contains(e));
    }
    lemma_ascending_is_unique(x, y);
}

/// Entries gathered from several roots, with the attributes that `xattrs` gives
/// for each.
pub open spec fn looked_up(
    entries: Seq<scanner::EntryV>,
    xattrs: spec_fn(scanner::EntryV) -> Option<Seq<(Seq<char>, Seq<u8>)>>,
) -> Seq<SeenV> {
    entries.map_values(
        |e: scanner::EntryV|
            SeenV { rel: e.relative_path, entry: e, content: None, xattrs: xattrs(e) },
    )
}

/// The scan of several roots gives one manifest however they are ordered and
/// repeated: rooted at the base, its files strictly ascending, and the total
/// that of their sizes. What is found for a root, and the attributes of what is
/// found, must not depend on the run; roots that are the same path must be
/// written the same, and none may be named under another.
pub proof fn law_several_roots_give_one_manifest(
    opts: ScanOptions,
    base: Seq<char>,
    a: Seq<Seq<char>>,
    oa: Seq<usize>,
    b: Seq<Seq<char>>,
    ob: Seq<usize>,
    found: spec_fn((Seq<path::Comp>, Seq<char>)) -> Seq<scanner::EntryV>,
    xattrs: spec_fn(scanner::EntryV) -> Option<Seq<(Seq<char>, Seq<u8>)>>,
    sa: Seq<usize>,
    sb: Seq<usize>,
    ma: Manifest,
    mb: Manifest,
)
    requires
        order::orders(path::order_keys(a), oa, 0, a.len() as int),
        order::orders(path::order_keys(b), ob, 0, b.len() as int),
        forall|root: Seq<char>| a.contains(root) <==> #[trigger] b.contains(root),
        written_one_way(a),
        accepted_roots(opts.filter, base, arranged(a, oa), a.len() as int) is Ok,
        names_apart(accepted_roots(opts.filter, base, arranged(a, oa), a.len() as int)->Ok_0),
        found_in_place(found),
        ({
            let ra = root_places(
                accepted_roots(opts.filter, base, arranged(a, oa), a.len() as int)->Ok_0,
            );
            let rb = root_places(
                accepted_roots(opts.filter, base, arranged(b, ob), b.len() as int)->Ok_0,
            );
            let ga = gathered(ra, found, ra.len() as int);
            let gb = gathered(rb, found, rb.len() as int);
            &&& merged(opts, base, looked_up(ga, xattrs), sa, ma)
            &&& merged(opts, base, looked_up(gb, xattrs), sb, mb)
        }),
    ensures
        ma.root@ == base,
        mb.root@ == base,
        ma.entries() == mb.entries(),
        strictly_ascending(ma.entries()),
        ma.total_bytes == mb.total_bytes,
        ma.total_bytes == scanner::total_size(ma.entries()),
{
    let ra = root_places(
        accepted_roots(opts.filter, base, arranged(a, oa), a.len() as int)->Ok_0,
    );
    let rb = root_places(
        accepted_roots(opts.filter, base, arranged(b, ob), b.len() as int)->Ok_0,
    );
    let ga = gathered(ra, found, ra.len() as int);
    let gb = gathered(rb, found, rb.len() as int);
    lemma_scanned_paths(opts, ga, xattrs);
    lemma_scanned_paths(opts, gb, xattrs);
    law_order_and_repeats_of_roots_give_the_same_files(
        opts.filter,
        base,
        a,
        oa,
        b,
        ob,
        found,
        sa,
        sb,
    );
    lemma_one_manifest(opts, ga, sa, gb, sb, xattrs);
    let all = scanned(opts, None, looked_up(ga, xattrs));
    lemma_total_arranged(all, sa);
    assert forall|i: int, j: int| 0 <= i < j < ma.entries().len() implies text::lex_lt(
        (#[trigger] ma.entries()[i]).relative_path,
        (#[trigger] ma.entries()[j]).relative_path,
    ) by {
        let w = arranged(ga, sa);
        assert(text::lex_lt(w[i].relative_path, w[j].relative_path));
        assert(scanner::paths(all)[sa[i] as int] == scanner::paths(ga)[sa[i] as int]);
        assert(scanner::paths(all)[sa[j] as int] == scanner::paths(ga)[sa[j] as int]);
    }
}

/// A scan keeps the paths of what was gathered.
proof fn lemma_scanned_paths(
    opts: ScanOptions,
    g: Seq<scanner::EntryV>,
    xattrs: spec_fn(scanner::EntryV) -> Option<Seq<(Seq<char>, Seq<u8>)>>,
)
    ensures
        scanned(opts, None, looked_up(g, xattrs)).len() == g.len(),
        scanner::paths(scanned(opts, None, looked_up(g, xattrs))) == scanner::paths(g),
        scanned(opts, None, looked_up(g, xattrs)) == looked_up(g, xattrs).map_values(
            |s: SeenV| moded(opts, read_in(opts, s)),
        ),
{
    let f = |s: SeenV| moded(opts, read_in(opts, s));
    let l = looked_up(g, xattrs);
    lemma_unfiltered(opts, l, l.len() as int);
    assert(scanned(opts, None, l) =~= l.map_values(f));
    assert(scanner::paths(scanned(opts, None, l)) =~= scanner::paths(g));
}

/// Where two gatherings sort to one list, so do their scans, and the totals are
/// equal.
proof fn lemma_one_manifest(
    opts: ScanOptions,
    ga: Seq<scanner::EntryV>,
    sa: Seq<usize>,
    gb: Seq<scanner::EntryV>,
    sb: Seq<usize>,
    xattrs: spec_fn(scanner::EntryV) -> Option<Seq<(Seq<char>, Seq<u8>)>>,
)
    requires
        order::orders(scanner::paths(ga), sa, 0, ga.len() as int),
        order::orders(scanner::paths(gb), sb, 0, gb.len() as int),
        arranged(ga, sa) == arranged(gb, sb),
    ensures
        ({
            let a = scanned(opts, None, looked_up(ga, xattrs));
            let b = scanned(opts, None, looked_up(gb, xattrs));
            &&& arranged(a, sa) == arranged(b, sb)
            &&& scanner::total_size(a) == scanner::total_size(b)
        }),
{
    let f = |s: SeenV| moded(opts, read_in(opts, s));
    let la = looked_up(ga, xattrs);
    let lb = looked_up(gb, xattrs);
    let a = scanned(opts, None, la);
    let b = scanned(opts, None, lb);
    lemma_scanned_paths(opts, ga, xattrs);
    lemma_scanned_paths(opts, gb, xattrs);
    assert(a == la.map_values(f) && b == lb.map_values(f));
    let x = arranged(a, sa);
    let y = arranged(b, sb);
    let wa = arranged(ga, sa);
    let wb = arranged(gb, sb);
    assert(wa.len() == sa.len() && wb.len() == sb.len() && x.len() == sa.len());
    assert forall|i: int| 0 <= i < x.len() implies x[i] == y[i] by {
        assert(wa[i] == ga[sa[i] as int] && wb[i] == gb[sb[i] as int]);
        assert(0 <= sa[i] < ga.len() && 0 <= sb[i] < gb.len());
        assert(x[i] == f(la[sa[i] as int]) && y[i] == f(lb[sb[i] as int]));
    }
    assert(x =~= y);
    lemma_total_arranged(a, sa);
    lemma_total_arranged(b, sb);
}

/// Without a filter, everything is taken in.
proof fn lemma_unfiltered(opts: ScanOptions, seen: Seq<SeenV>, n: int)
    requires
        0 <= n <= seen.len(),
    ensures
        taken_in(opts, None, seen, n) == seen.take(n).map_values(|s: SeenV| read_in(opts, s)),
    decreases n,
{
    let f = |s: SeenV| read_in(opts, s);
    if n > 0 {
        lemma_unfiltered(opts, seen, n - 1);
        assert(seen.take(n).map_values(f) =~= seen.take(n - 1).map_values(f).push(
            f(seen[n - 1]),
        ));
    } else {
        assert(seen.take(n).map_values(f) =~= Seq::empty());
    }
}

/// Behind an absolute base, the components of a root's name are those that
/// follow the base's.
proof fn lemma_name_comps(root: Seq<char>, base: Seq<char>)
    requires
        path::is_absolute(base),
        path::stripped(root, base) is Some,
        !root.contains('\\'),
    ensures
        path::comps(root_name(path::stripped(root, base)->0)) == path::comps(root).skip(
            path::comps(base).len() as int,
        ),
{
    let k = path::comps(base).len() as int;
    let all = path::comps(root);
    let tail = all.skip(k);
    let rel = path::stripped(root, base)->0;
    path::lemma_comps_proper(root);
    assert(path::comps(base)[0] == path::Comp::Root);
    path::lemma_comps_stripped(root, base);
    path::lemma_stripped_chars(root, base, '\\');
    text::lemma_split_none(rel, '\\');
    assert(seq![rel].drop_last() =~= Seq::<Seq<char>>::empty());
    reveal_with_fuel(wire::unix_path, 2);
    assert(wire::wire_text(rel) =~= rel);
    if seq!['.', '/'].is_prefix_of(rel) {
        assert(rel[0] == seq!['.', '/'][0] && rel[1] == seq!['.', '/'][1]);
        text::lemma_split_step(rel, '/', 1);
        assert(rel.take(1) =~= seq!['.']);
        assert(path::path_head(rel) == seq![path::Comp::Cur]);
        assert(path::comps(rel).len() >= 1 && path::comps(rel)[0] == path::Comp::Cur);
        assert(tail[0] == all[k]);
        assert(path::comp_ok(all[k], k));
    }
}

/// Roots without a backslash, behind an absolute base, get names apart.
pub proof fn law_plain_roots_are_named_apart(
    filter: Option<FilterSet>,
    base: Seq<char>,
    roots: Seq<Seq<char>>,
    ord: Seq<usize>,
)
    requires
        path::is_absolute(base),
        forall|i: int| 0 <= i < roots.len() ==> !(#[trigger] roots[i]).contains('\\'),
        order::orders(path::order_keys(roots), ord, 0, roots.len() as int),
        accepted_roots(filter, base, arranged(roots, ord), roots.len() as int) is Ok,
    ensures
        names_apart(accepted_roots(filter, base, arranged(roots, ord), roots.len() as int)->Ok_0),
{
    let sorted = arranged(roots, ord);
    let n = roots.len() as int;
    let v = accepted_roots(filter, base, sorted, n)->Ok_0;
    lemma_arranged(roots, ord);
    assert forall|x: int, y: int| 0 <= x < v.len() && 0 <= y < v.len() && x != y implies
        !path::under((#[trigger] v[x]).1, (#[trigger] v[y]).1) by {
        let i = lemma_accepted_is_root(filter, base, sorted, n, x);
        let j = lemma_accepted_is_root(filter, base, sorted, n, y);
        law_merged_roots_are_disjoint(filter, base, sorted, n, x, y);
        assert(sorted[i] == roots[ord[i] as int] && sorted[j] == roots[ord[j] as int]);
        lemma_name_comps(sorted[i], base);
        lemma_name_comps(sorted[j], base);
        if path::under(v[x].1, v[y].1) {
            let k = path::comps(base).len() as int;
            let low = path::comps(sorted[i]);
            let high = path::comps(sorted[j]);
            let h = path::comps(base);
            assert(high.skip(k) =~= low.skip(k).subrange(0, high.len() - k));
            assert forall|m: int| 0 <= m < high.len() implies high[m] == low[m] by {
                if m < k {
                    assert(h[m] == high.subrange(0, k)[m] && h[m] == low.subrange(0, k)[m]);
                } else {
                    assert(high[m] == high.skip(k)[m - k]);
                    assert(low[m] == low.skip(k)[m - k]);
                    assert(high.skip(k)[m - k] == low.skip(k).subrange(0, high.len() - k)[m - k]);
                }
            }
            assert(high =~= low.subrange(0, high.len() as int));
        }
    }
}

/// What is found for places none of which lies under another holds no path
/// twice.
proof fn lemma_gathered_apart(
    places: Seq<(Seq<path::Comp>, Seq<char>)>,
    found: spec_fn((Seq<path::Comp>, Seq<char>)) -> Seq<scanner::EntryV>,
    n: int,
)
    requires
        0 <= n <= places.len(),
        found_in_place(found),
        forall|x: int, y: int|
            0 <= x < places.len() && 0 <= y < places.len() && x != y ==> !path::under(
                (#[trigger] places[x]).1,
                (#[trigger] places[y]).1,
            ),
    ensures
        scanner::paths_once(gathered(places, found, n)),
    decreases n,
{
    if n > 0 {
        lemma_gathered_apart(places, found, n - 1);
        let front = gathered(places, found, n - 1);
        let last = found(places[n - 1]);
        let all = gathered(places, found, n);
        assert(scanner::paths_once(found(places[n - 1])));
        assert forall|i: int, j: int| 0 <= i < j < all.len() implies (
        #[trigger] all[i]).relative_path != (#[trigger] all[j]).relative_path by {
            if j < front.len() {
                assert(all[i] == front[i] && all[j] == front[j]);
            } else if i >= front.len() {
                assert(all[i] == last[i - front.len()] && all[j] == last[j - front.len()]);
            } else {
                let p = front[i].relative_path;
                let q = last[j - front.len()].relative_path;
                assert(all[i] == front[i] && all[j] == last[j - front.len()]);
                lemma_gathered_holds(places, found, n - 1, front[i]);
                assert(front.contains(front[i]));
                let k = choose|k: int|
                    0 <= k < n - 1 && found(#[trigger] places[k]).contains(front[i]);
                assert(scanner::paths_once(found(places[k])));
                let there = found(places[k]);
                let m = choose|m: int| 0 <= m < there.len() && there[m] == front[i];
                assert(path::under(there[m].relative_path, places[k].1));
                assert(path::under(q, places[n - 1].1));
                if p == q {
                    lemma_common_place(p, places[k].1, places[n - 1].1);
                }
            }
        }
    }
}

/// Of two paths above one path, one is above the other.
proof fn lemma_common_place(p: Seq<char>, a: Seq<char>, b: Seq<char>)
    requires
        path::under(p, a),
        path::under(p, b),
    ensures
        path::under(a, b) || path::under(b, a),
{
    let cp = path::comps(p);
    let ca = path::comps(a);
    let cb = path::comps(b);
    assert forall|i: int| 0 <= i < ca.len() implies ca[i] == cp[i] by {
        assert(ca[i] == cp.subrange(0, ca.len() as int)[i]);
    }
    assert forall|i: int| 0 <= i < cb.len() implies cb[i] == cp[i] by {
        assert(cb[i] == cp.subrange(0, cb.len() as int)[i]);
    }
    if ca.len() <= cb.len() {
        assert(ca =~= cb.subrange(0, ca.len() as int));
    } else {
        assert(cb =~= ca.subrange(0, cb.len() as int));
    }
}

/// What is gathered is what is found for some place.
proof fn lemma_gathered_holds(
    places: Seq<(Seq<path::Comp>, Seq<char>)>,
    found: spec_fn((Seq<path::Comp>, Seq<char>)) -> Seq<scanner::EntryV>,
    n: int,
    e: scanner::EntryV,
)
    requires
        0 <= n <= places.len(),
    ensures
        gathered(places, found, n).contains(e) <==> exists|k: int|
            0 <= k < n && found(#[trigger] places[k]).contains(e),
    decreases n,
{
    if n > 0 {
        lemma_gathered_holds(places, found, n - 1, e);
        let front = gathered(places, found, n - 1);
        let last = found(places[n - 1]);
        let all = gathered(places, found, n);
        if all.contains(e) {
            let i = choose|i: int| 0 <= i < all.len() && all[i] == e;
            if i < front.len() {
                assert(front[i] == e);
            } else {
                assert(last[i - front.len()] == e);
                assert(found(places[n - 1]).contains(e));
            }
        }
        if front.contains(e) {
            let i = choose|i: int| 0 <= i < front.len() && front[i] == e;
            assert(all[i] == e);
        }
        if last.contains(e) {
            let i = choose|i: int| 0 <= i < last.len() && last[i] == e;
            assert(all[front.len() + i] == e);
        }
    }
}

/// Entries with different paths, sorted: the same entries, strictly ascending.
proof fn lemma_sorted_once(v: Seq<scanner::EntryV>, ord: Seq<usize>)
    requires
        scanner::paths_once(v),
        order::orders(scanner::paths(v), ord, 0, v.len() as int),
    ensures
        forall|e: scanner::EntryV| v.contains(e) <==> #[trigger] arranged(v, ord).contains(e),
        strictly_ascending(arranged(v, ord)),
{
    let w = arranged(v, ord);
    let keys = scanner::paths(v);
    assert forall|e: scanner::EntryV| v.contains(e) <==> #[trigger] w.contains(e) by {
        if v.contains(e) {
            let i = choose|i: int| 0 <= i < v.len() && v[i] == e;
            assert(order::placed(ord, i));
            let k = choose|k: int| 0 <= k < ord.len() && #[trigger] ord[k] == i;
            assert(w[k] == e);
        }
        if w.contains(e) {
            let k = choose|k: int| 0 <= k < w.len() && w[k] == e;
            assert(v[ord[k] as int] == e);
        }
    }
    assert forall|i: int, j: int| 0 <= i < j < w.len() implies text::lex_lt(
        (#[trigger] w[i]).relative_path,
        (#[trigger] w[j]).relative_path,
    ) by {
        assert(order::sorts_before(keys, ord[i] as int, ord[j] as int));
        assert(w[i] == v[ord[i] as int] && w[j] == v[ord[j] as int]);
        if keys[ord[i] as int] == keys[ord[j] as int] {
            text::lemma_lex_irrefl(keys[ord[i] as int]);
            assert(ord[i] < ord[j]);
            assert(v[ord[i] as int].relative_path != v[ord[j] as int].relative_path);
        }
    }
}

/// Two strictly ascending lists of the same entries are equal.
proof fn lemma_ascending_is_unique(x: Seq<scanner::EntryV>, y: Seq<scanner::EntryV>)
    requires
        strictly_ascending(x),
        strictly_ascending(y),
        forall|e: scanner::EntryV| x.contains(e) <==> #[trigger] y.contains(e),
    ensures
        x == y,
    decreases x.len(),
{
    if x.len() == 0 {
        if y.len() > 0 {
            assert(y.contains(y[0]));
            assert(x.contains(y[0]));
        }
        assert(x =~= y);
    } else {
        let p = x.last();
        assert(x.contains(p));
        assert(y.contains(p));
        let j = choose|j: int| 0 <= j < y.len() && y[j] == p;
        let q = y.last();
        assert(y.contains(q));
        assert(x.contains(q));
        let i = choose|i: int| 0 <= i < x.len() && x[i] == q;
        if j < y.len() - 1 {
            assert(text::lex_lt(y[j].relative_path, y[y.len() - 1].relative_path));
            if i < x.len() - 1 {
                assert(text::lex_lt(x[i].relative_path, x[x.len() - 1].relative_path));
                text::lemma_lex_trans(p.relative_path, q.relative_path, p.relative_path);
            }
            text::lemma_lex_irrefl(p.relative_path);
        }
        assert(p == q);
        let a = x.drop_last();
        let b = y.drop_last();
        text::lemma_lex_irrefl(p.relative_path);
        assert forall|e: scanner::EntryV| a.contains(e) <==> #[trigger] b.contains(e) by {
            if a.contains(e) {
                let k = choose|k: int| 0 <= k < a.len() && a[k] == e;
                assert(x[k] == e);
                assert(text::lex_lt(x[k].relative_path, x[x.len() - 1].relative_path));
                assert(x.contains(e));
                assert(y.contains(e));
                let m = choose|m: int| 0 <= m < y.len() && y[m] == e;
                assert(b[m] == e);
            }
            if b.contains(e) {
                let k = choose|k: int| 0 <= k < b.len() && b[k] == e;
                assert(y[k] == e);
                assert(text::lex_lt(y[k].relative_path, y[y.len() - 1].relative_path));
                assert(y.contains(e));
                assert(x.contains(e));
                let m = choose|m: int| 0 <= m < x.len() && x[m] == e;
                assert(a[m] == e);
            }
        }
        lemma_ascending_is_unique(a, b);
        assert(x =~= a.push(p));
        assert(y =~= b.push(q));
    }
}

/// Whether the paths of a manifest ascend.
pub open spec fn paths_ascend(v: Seq<scanner::EntryV>) -> bool {
    forall|i: int, j: int|
        0 <= i < j < v.len() ==> !text::lex_lt(
            (#[trigger] v[j]).relative_path,
            (#[trigger] v[i]).relative_path,
        )
}

/// The paths of a scanned tree ascend, also where they stand below the root's
/// own name: what was seen must have relative paths.
pub proof fn law_scanned_paths_ascend(
    opts: ScanOptions,
    canonical: Seq<char>,
    all: Seq<scanner::EntryV>,
    ord: Seq<usize>,
)
    requires
        order::orders(scanner::paths(all), ord, 0, all.len() as int),
        forall|i: int|
            0 <= i < all.len() ==> !path::is_absolute((#[trigger] all[i]).relative_path),
    ensures
        paths_ascend(homed(opts, canonical, arranged(all, ord))),
{
    let w = arranged(all, ord);
    let h = homed(opts, canonical, w);
    let keys = scanner::paths(all);
    assert forall|i: int, j: int| 0 <= i < j < h.len() implies !text::lex_lt(
        (#[trigger] h[j]).relative_path,
        (#[trigger] h[i]).relative_path,
    ) by {
        assert(order::sorts_before(keys, ord[i] as int, ord[j] as int));
        let x = w[i].relative_path;
        let y = w[j].relative_path;
        assert(keys[ord[i] as int] == x && keys[ord[j] as int] == y);
        assert(!text::lex_lt(y, x)) by {
            text::lemma_lex_irrefl(x);
            if text::lex_lt(x, y) && text::lex_lt(y, x) {
                text::lemma_lex_trans(x, y, x);
            }
        }
        match rehomed(opts, canonical) {
            Some(name) => {
                path::lemma_comps_proper(canonical);
                let cs = path::comps(canonical);
                assert(path::comp_ok(cs[cs.len() - 1], cs.len() - 1));
                lemma_prefix_keeps_order(name, y, x);
            },
            None => {},
        }
    }
}

/// A scan records exactly what the filter lets through.
pub proof fn law_scans_hold_what_the_filter_admits(
    opts: ScanOptions,
    filter: Option<FilterSet>,
    seen: Seq<SeenV>,
    e: scanner::EntryV,
)
    ensures
        scanned(opts, filter, seen).contains(e) <==> exists|i: int|
            0 <= i < seen.len() && scanner::admitted(filter, (#[trigger] seen[i]).rel) && e
                == moded(opts, read_in(opts, seen[i])),
{
    let n = seen.len() as int;
    let t = taken_in(opts, filter, seen, n);
    let all = scanned(opts, filter, seen);
    if all.contains(e) {
        let k = choose|k: int| 0 <= k < all.len() && all[k] == e;
        let i = lemma_taken_is_seen(opts, filter, seen, n, k);
        assert(e == moded(opts, read_in(opts, seen[i])));
    }
    if exists|i: int|
        0 <= i < seen.len() && scanner::admitted(filter, (#[trigger] seen[i]).rel) && e == moded(
            opts,
            read_in(opts, seen[i]),
        ) {
        let i = choose|i: int|
            0 <= i < seen.len() && scanner::admitted(filter, (#[trigger] seen[i]).rel) && e
                == moded(opts, read_in(opts, seen[i]));
        let k = lemma_seen_is_taken(opts, filter, seen, n, i);
        assert(all[k] == e);
    }
}

/// What a scan of a tree records: entries of objects that the filter lets
/// through, in ascending order.
proof fn lemma_scan_of_tree(
    opts: ScanOptions,
    canonical: Seq<char>,
    seen: Seq<SeenV>,
    ord: Seq<usize>,
)
    requires
        ({
            let all = scanned(opts, opts.filter, seen);
            order::orders(scanner::paths(all), ord, 0, all.len() as int)
        }),
    ensures
        ({
            let h = homed(opts, canonical, arranged(scanned(opts, opts.filter, seen), ord));
            &&& all_relative(seen) ==> paths_ascend(h)
            &&& forall|k: int|
                0 <= k < h.len() ==> came_through(opts, canonical, seen, #[trigger] h[k])
        }),
{
    let n = seen.len() as int;
    let all = scanned(opts, opts.filter, seen);
    let h = homed(opts, canonical, arranged(all, ord));
    assert forall|k: int| 0 <= k < h.len() implies came_through(
        opts,
        canonical,
        seen,
        #[trigger] h[k],
    ) by {
        let i = lemma_taken_is_seen(opts, opts.filter, seen, n, ord[k] as int);
        assert(all[ord[k] as int] == moded(opts, read_in(opts, seen[i])));
    }
    if all_relative(seen) {
        assert forall|k: int| 0 <= k < all.len() implies !path::is_absolute(
            (#[trigger] all[k]).relative_path,
        ) by {
            let i = lemma_taken_is_seen(opts, opts.filter, seen, n, k);
            assert(all[k].relative_path == seen[i].entry.relative_path);
        }
        law_scanned_paths_ascend(opts, canonical, all, ord);
    }
}

proof fn lemma_taken_is_seen(
    opts: ScanOptions,
    filter: Option<FilterSet>,
    seen: Seq<SeenV>,
    n: int,
    k: int,
) -> (i: int)
    requires
        0 <= n <= seen.len(),
        0 <= k < taken_in(opts, filter, seen, n).len(),
    ensures
        0 <= i < n,
        scanner::admitted(filter, seen[i].rel),
        taken_in(opts, filter, seen, n)[k] == read_in(opts, seen[i]),
    decreases n,
{
    let front = taken_in(opts, filter, seen, n - 1);
    if k < front.len() {
        lemma_taken_is_seen(opts, filter, seen, n - 1, k)
    } else {
        n - 1
    }
}

proof fn lemma_seen_is_taken(
    opts: ScanOptions,
    filter: Option<FilterSet>,
    seen: Seq<SeenV>,
    n: int,
    i: int,
) -> (k: int)
    requires
        0 <= i < n <= seen.len(),
        scanner::admitted(filter, seen[i].rel),
    ensures
        0 <= k < taken_in(opts, filter, seen, n).len(),
        taken_in(opts, filter, seen, n)[k] == read_in(opts, seen[i]),
    decreases n,
{
    if i == n - 1 {
        taken_in(opts, filter, seen, n - 1).len() as int
    } else {
        lemma_seen_is_taken(opts, filter, seen, n - 1, i)
    }
}

/// A name in front changes nothing in the order of relative paths.
proof fn lemma_prefix_keeps_order(name: Seq<char>, a: Seq<char>, b: Seq<char>)
    requires
        name.len() > 0,
        !name.contains('/'),
        !path::is_absolute(a),
        !path::is_absolute(b),
        !text::lex_lt(a, b),
    ensures
        !text::lex_lt(prefix_path(name, a), prefix_path(name, b)),
{
    assert(name.contains(name[0]));
    assert(name.contains(name.last()));
    assert(Seq::<char>::empty() + name =~= name);
    let base = name.push('/');
    if b.len() == 0 {
        assert(prefix_path(name, b) == name);
        let rest = if a.len() == 0 {
            a
        } else {
            seq!['/'] + a
        };
        assert(prefix_path(name, a) =~= name + rest);
        assert(name =~= name + b);
        lemma_common_start(name, rest, b);
    } else {
        assert(a.len() > 0);
        lemma_common_start(base, a, b);
    }
}

/// What two texts begin with in common does not decide their order.
proof fn lemma_common_start(start: Seq<char>, a: Seq<char>, b: Seq<char>)
    ensures
        text::lex_lt(start + a, start + b) == text::lex_lt(a, b),
    decreases start.len(),
{
    if start.len() == 0 {
        assert(start + a =~= a);
        assert(start + b =~= b);
    } else {
        lemma_common_start(start.skip(1), a, b);
        assert((start + a).skip(1) =~= start.skip(1) + a);
        assert((start + b).skip(1) =~= start.skip(1) + b);
    }
}

/// Whether `ord` holds each position below `n` once.
spec fn rearranges(ord: Seq<usize>, n: int) -> bool {
    &&& ord.len() == n
    &&& forall|a: int| 0 <= a < ord.len() ==> 0 <= #[trigger] ord[a] < n
    &&& forall|a: int, b: int|
        0 <= a < b < ord.len() ==> #[trigger] ord[a] != #[trigger] ord[b]
    &&& forall|i: int| 0 <= i < n ==> #[trigger] order::placed(ord, i)
}

/// Sorting keeps the sum of the sizes.
proof fn lemma_total_arranged(v: Seq<scanner::EntryV>, ord: Seq<usize>)
    requires
        order::orders(scanner::paths(v), ord, 0, v.len() as int),
    ensures
        scanner::total_size(arranged(v, ord)) == scanner::total_size(v),
{
    let keys = scanner::paths(v);
    assert forall|a: int, b: int| 0 <= a < b < ord.len() implies #[trigger] ord[a]
        != #[trigger] ord[b] by {
        assert(order::sorts_before(keys, ord[a] as int, ord[b] as int));
        text::lemma_lex_irrefl(keys[ord[a] as int]);
    }
    lemma_total_rearranged(v, ord);
}

proof fn lemma_total_rearranged(v: Seq<scanner::EntryV>, ord: Seq<usize>)
    requires
        rearranges(ord, v.len() as int),
    ensures
        scanner::total_size(arranged(v, ord)) == scanner::total_size(v),
    decreases v.len(),
{
    let n = v.len() as int;
    let w = arranged(v, ord);
    if n > 0 {
        assert(order::placed(ord, n - 1));
        let k = choose|k: int| 0 <= k < ord.len() && #[trigger] ord[k] == n - 1;
        let rest = ord.remove(k);
        let front = v.drop_last();
        assert forall|i: int| 0 <= i < n - 1 implies #[trigger] order::placed(rest, i) by {
            assert(order::placed(ord, i));
            let a = choose|a: int| 0 <= a < ord.len() && #[trigger] ord[a] == i;
            if a < k {
                assert(rest[a] == i);
            } else {
                assert(rest[a - 1] == i);
            }
        }
        lemma_total_rearranged(front, rest);
        lemma_total_remove(w, k);
        assert(w.remove(k) =~= arranged(front, rest));
    }
}

proof fn lemma_total_remove(v: Seq<scanner::EntryV>, k: int)
    requires
        0 <= k < v.len(),
    ensures
        scanner::total_size(v) == scanner::total_size(v.remove(k)) + v[k].size,
    decreases v.len(),
{
    if k == v.len() - 1 {
        assert(v.remove(k) =~= v.drop_last());
    } else {
        lemma_total_remove(v.drop_last(), k);
        assert(v.remove(k).drop_last() =~= v.drop_last().remove(k));
        assert(v.remove(k).last() == v.last());
    }
}

/// Sort entries by their paths; equal paths keep their order.
pub fn sort_entries(entries: &Vec<FileEntry>) -> (out: Vec<FileEntry>)
    ensures
        exists|ord: Seq<usize>|
            order::orders(
                scanner::paths(scanner::entry_views(entries@)),
                ord,
                0,
                entries.len() as int,
            ) && scanner::entry_views(out@) == #[trigger] arranged(
                scanner::entry_views(entries@),
                ord,
            ),
{
    let ghost ev = scanner::entry_views(entries@);
    let keys = path_keys(entries);
    let ord = order::sort_order(&keys);
    let mut out: Vec<FileEntry> = Vec::new();
    let mut i: usize = 0;
    while i < ord.len()
        invariant
            i <= ord.len(),
            ev == scanner::entry_views(entries@),
            order::orders(scanner::paths(ev), ord@, 0, entries.len() as int),
            out.len() == i,
            forall|j: int| 0 <= j < i ==> (#[trigger] out@[j])@ == ev[ord@[j] as int],
        decreases ord.len() - i,
    {
        let at: usize = ord[i];
        out.push(entries[at].copy());
        i += 1;
    }
    assert(scanner::entry_views(out@) =~= arranged(ev, ord@));
    out
}

/// The paths of a list of entries, as keys.
fn path_keys(entries: &Vec<FileEntry>) -> (keys: Vec<Vec<char>>)
    ensures
        order::key_views(keys@) == scanner::paths(scanner::entry_views(entries@)),
        keys.len() == entries.len(),
{
    let mut keys: Vec<Vec<char>> = Vec::new();
    let mut i: usize = 0;
    while i < entries.len()
        invariant
            i <= entries.len(),
            keys.len() == i,
            forall|j: int| 0 <= j < i ==> (#[trigger] keys@[j])@ == entries@[j].relative_path@,
        decreases entries.len() - i,
    {
        keys.push(text::chars_of(entries[i].relative_path.as_str()));
        i += 1;
    }
    assert(order::key_views(keys@) =~= scanner::paths(scanner::entry_views(entries@)));
    keys
}

/// The paths of the entries of a list of objects, as keys.
fn seen_keys(seen: &Vec<Seen>) -> (keys: Vec<Vec<char>>)
    ensures
        order::key_views(keys@) == scanner::paths(entries_of(seen_views(seen@))),
        keys.len() == seen.len(),
{
    let mut keys: Vec<Vec<char>> = Vec::new();
    let mut i: usize = 0;
    while i < seen.len()
        invariant
            i <= seen.len(),
            keys.len() == i,
            forall|j: int| 0 <= j < i ==> (#[trigger] keys@[j])@ == seen@[j].entry.relative_path@,
        decreases seen.len() - i,
    {
        keys.push(text::chars_of(seen[i].entry.relative_path.as_str()));
        i += 1;
    }
    assert(order::key_views(keys@) =~= scanner::paths(entries_of(seen_views(seen@))));
    keys
}

/// The paths that a probe looks at: those of the source, in ascending order,
/// each once.
pub fn probe_paths(source: &Manifest) -> (out: Vec<String>)
    ensures
        forall|i: int, j: int|
            0 <= i < j < out@.len() ==> text::lex_lt(
                (#[trigger] out@[i])@,
                (#[trigger] out@[j])@,
            ),
        forall|p: Seq<char>|
            text::views(out@).contains(p) <==> #[trigger] scanner::paths(
                source.entries(),
            ).contains(p),
{
    let ghost pv = scanner::paths(source.entries());
    let keys = path_keys(&source.files);
    let ord = order::sort_order(&keys);
    let mut out: Vec<String> = Vec::new();
    let mut i: usize = 0;
    while i < ord.len()
        invariant
            i <= ord.len(),
            ord.len() == source.files.len(),
            pv == scanner::paths(source.entries()),
            order::key_views(keys@) == pv,
            order::orders(pv, ord@, 0, source.files.len() as int),
            out.len() > 0 <==> i > 0,
            i > 0 ==> out@.last()@ == pv[ord@[i - 1] as int],
            forall|a: int, b: int|
                0 <= a < b < out@.len() ==> text::lex_lt(
                    (#[trigger] out@[a])@,
                    (#[trigger] out@[b])@,
                ),
            forall|a: int| 0 <= a < out@.len() ==> pv.contains((#[trigger] out@[a])@),
            forall|b: int| 0 <= b < i ==> text::views(out@).contains(pv[#[trigger] ord@[b] as int]),
        decreases ord.len() - i,
    {
        let at: usize = ord[i];
        let p = source.files[at].relative_path.as_str();
        assert(p@ == pv[at as int]);
        let ghost was = out@;
        let repeat = if out.len() > 0 {
            text::same(out[out.len() - 1].as_str(), p)
        } else {
            false
        };
        if !repeat {
            proof {
                if i > 0 {
                    assert(order::sorts_before(pv, ord@[i - 1] as int, at as int));
                    assert(text::lex_lt(out@.last()@, p@));
                    assert forall|a: int| 0 <= a < was.len() implies text::lex_lt(
                        (#[trigger] was[a])@,
                        p@,
                    ) by {
                        if a < was.len() - 1 {
                            text::lemma_lex_trans(was[a]@, was[was.len() - 1]@, p@);
                        }
                    }
                }
            }
            out.push(text::copy_str(p));
        }
        proof {
            assert(out@.last()@ == p@);
            assert(pv[at as int] == p@);
            let ov = text::views(out@);
            assert(ov[ov.len() - 1] == p@);
            assert forall|b: int| 0 <= b < i + 1 implies ov.contains(
                pv[#[trigger] ord@[b] as int],
            ) by {
                if b < i {
                    let wv = text::views(was);
                    assert(wv.contains(pv[ord@[b] as int]));
                    let a = choose|a: int| 0 <= a < wv.len() && wv[a] == pv[ord@[b] as int];
                    assert(ov[a] == wv[a]);
                }
            }
        }
        i += 1;
    }
    proof {
        let ov = text::views(out@);
        assert forall|p: Seq<char>| ov.contains(p) <==> #[trigger] pv.contains(p) by {
            if ov.contains(p) {
                let a = choose|a: int| 0 <= a < ov.len() && ov[a] == p;
                assert(out@[a]@ == p);
            }
            if pv.contains(p) {
                let k = choose|k: int| 0 <= k < pv.len() && pv[k] == p;
                assert(order::placed(ord@, k));
                let b = choose|b: int| 0 <= b < ord@.len() && #[trigger] ord@[b] == k;
                assert(ov.contains(pv[ord@[b] as int]));
            }
        }
    }
    out
}

/// The name of a sub-scan's path below the match it was found in.
pub open spec fn rebased(rel: Seq<char>, p: Seq<char>) -> Seq<char> {
    wire::wire_text(path::joined(rel, p))
}

/// What a root that is a directory adds: itself, and what was found in it, below
/// its name.
pub open spec fn added_directory(
    rel: Seq<char>,
    stat: Stat,
    found: Seq<scanner::EntryV>,
) -> Seq<scanner::EntryV> {
    seq![scanner::dir_of(rel, stat)] + found.map_values(
        |e: scanner::EntryV|
            (scanner::EntryV { relative_path: rebased(rel, e.relative_path), ..e }),
    )
}

/// What a root that is a single file adds: that file, under the name of the
/// root, unless it was stopped.
pub open spec fn added_file(rel: Seq<char>, found: Seq<scanner::EntryV>) -> Seq<scanner::EntryV> {
    if found.len() > 0 {
        seq![scanner::EntryV { relative_path: rel, ..found[0] }]
    } else {
        Seq::empty()
    }
}

/// Add what a scan of a matched directory found, under the match's name: the
/// directory itself, its entries, and the paths that the policy skipped.
pub fn merge_directory(
    rel: &str,
    stat: &Stat,
    found: &Manifest,
    entries: &mut Vec<FileEntry>,
    skipped: &mut Vec<String>,
)
    ensures
        scanner::entry_views(final(entries)@) == scanner::entry_views(old(entries)@)
            + added_directory(rel@, *stat, found.entries()),
        scanner::entry_views(final(entries)@) == scanner::entry_views(old(entries)@).push(
            scanner::dir_of(rel@, *stat),
        ) + found.entries().map_values(
            |e: scanner::EntryV|
                (scanner::EntryV { relative_path: rebased(rel@, e.relative_path), ..e }),
        ),
        text::views(final(skipped)@) == text::views(old(skipped)@) + text::views(
            found.skipped@,
        ).map_values(|p: Seq<char>| rebased(rel@, p)),
{
    let ghost f = |e: scanner::EntryV|
        (scanner::EntryV { relative_path: rebased(rel@, e.relative_path), ..e });
    let ghost g = |p: Seq<char>| rebased(rel@, p);
    let ghost moved = found.entries().map_values(f);
    let ghost passed = text::views(found.skipped@).map_values(g);
    let dir = scanner::dir_entry(text::copy_str(rel), stat);
    let ghost e0 = entries@;
    entries.push(dir);
    let ghost base = scanner::entry_views(entries@);
    assert(base =~= scanner::entry_views(e0).push(dir@));
    let mut i: usize = 0;
    while i < found.files.len()
        invariant
            i <= found.files.len(),
            f == (|e: scanner::EntryV|
                (scanner::EntryV { relative_path: rebased(rel@, e.relative_path), ..e })),
            moved == found.entries().map_values(f),
            scanner::entry_views(entries@) == base + moved.take(i as int),
        decreases found.files.len() - i,
    {
        let mut e = found.files[i].copy();
        let joined = path::join(rel, e.relative_path.as_str());
        e.relative_path = wire::wire_str(joined.as_str());
        let ghost was = entries@;
        entries.push(e);
        proof {
            assert(scanner::entry_views(entries@) =~= scanner::entry_views(was).push(e@));
            assert(moved[i as int] == e@);
            assert(moved.take(i + 1) =~= moved.take(i as int).push(e@));
        }
        i += 1;
    }
    assert(moved.take(i as int) =~= moved);
    let ghost s0 = text::views(skipped@);
    let mut k: usize = 0;
    while k < found.skipped.len()
        invariant
            k <= found.skipped.len(),
            g == (|p: Seq<char>| rebased(rel@, p)),
            passed == text::views(found.skipped@).map_values(g),
            text::views(skipped@) == s0 + passed.take(k as int),
        decreases found.skipped.len() - k,
    {
        let joined = path::join(rel, found.skipped[k].as_str());
        let p = wire::wire_str(joined.as_str());
        let ghost was = skipped@;
        skipped.push(p);
        proof {
            assert(text::views(skipped@) =~= text::views(was).push(p@));
            assert(passed[k as int] == p@);
            assert(passed.take(k + 1) =~= passed.take(k as int).push(p@));
        }
        k += 1;
    }
    assert(passed.take(k as int) =~= passed);
}

/// Add what a scan of a matched file found, under the match's name.
pub fn merge_file(rel: &str, found: &Manifest, entries: &mut Vec<FileEntry>)
    ensures
        scanner::entry_views(final(entries)@) == scanner::entry_views(old(entries)@) + added_file(
            rel@,
            found.entries(),
        ),
        scanner::entry_views(final(entries)@) == if found.entries().len() > 0 {
            scanner::entry_views(old(entries)@).push(
                (scanner::EntryV { relative_path: rel@, ..found.entries()[0] }),
            )
        } else {
            scanner::entry_views(old(entries)@)
        },
{
    if found.files.len() > 0 {
        let mut e = found.files[0].copy();
        assert(found.entries()[0] == e@);
        e.relative_path = text::copy_str(rel);
        let ghost was = entries@;
        entries.push(e);
        assert(scanner::entry_views(entries@) =~= scanner::entry_views(was).push(e@));
    }
}

/// A backslash separates the paths of one family of systems, and of no other.
pub proof fn law_backslashes_tell_the_system(separator: char)
    ensures
        family_of(separator) == TargetOs::Windows <==> separator == '\\',
        family_of('/') == TargetOs::Unix,
{
}

/// The last segment of a path is what stands behind its last separator, of
/// either kind, and the whole of a path without one.
pub proof fn law_last_segments_follow_the_last_separator(dir: Seq<char>, name: Seq<char>)
    requires
        !name.contains('/'),
        !name.contains('\\'),
    ensures
        last_segment(name) == name,
        last_segment(dir.push('/') + name) == name,
        last_segment(dir.push('\\') + name) == name,
        recreates_root(dir.push('/') + name) <==> name.len() > 0 && name != seq!['.'] && name
            != seq!['.', '.'],
        recreates_root(name) <==> name.len() > 0 && name != seq!['.'] && name != seq!['.', '.'],
{
    let d = text::swap_char(dir, '\\', '/');
    assert forall|i: int| 0 <= i < name.len() implies name[i] != '/' && name[i] != '\\' by {
        assert(name.contains(name[i]));
    }
    assert(text::swap_char(name, '\\', '/') =~= name);
    assert(text::swap_char(dir.push('/') + name, '\\', '/') =~= d.push('/') + name);
    assert(text::swap_char(dir.push('\\') + name, '\\', '/') =~= d.push('/') + name);
    text::lemma_split_none(name, '/');
    text::lemma_split_joined(d, name, '/');
    let front = text::split_on(d, '/');
    assert((front + seq![name]).last() == name);
}

/// A root is named by its path below the base, without a dot in front.
pub proof fn law_roots_are_named_below_the_base(rel: Seq<char>)
    requires
        !rel.contains('\\'),
    ensures
        rel.len() > 1 && rel[0] == '.' && rel[1] == '/' ==> root_name(rel) == rel.skip(2),
        !(rel.len() > 1 && rel[0] == '.' && rel[1] == '/') ==> root_name(rel) == rel,
{
    wire::law_wire_keeps_slashed_paths(rel);
    let lead = seq!['.', '/'];
    if rel.len() > 1 && rel[0] == '.' && rel[1] == '/' {
        assert(rel.take(2) =~= lead);
    }
    if lead.is_prefix_of(rel) {
        assert(lead[0] == rel[0]);
        assert(lead[1] == rel[1]);
    }
}

/// What is read of an object goes into its digest and its attributes alone: the
/// digest is that of the content of a regular file, where hashes are wanted,
/// and the attributes are those of a file or directory of the source, where
/// they are wanted.
pub proof fn law_reading_adds_digest_and_attributes(opts: ScanOptions, s: SeenV)
    ensures
        ({
            let e = s.entry;
            let r = read_in(opts, s);
            let file = !e.is_dir && e.link_target is None && e.kind == FileKind::File;
            let kept = e.kind == FileKind::File || e.kind == FileKind::Dir;
            &&& r == (scanner::EntryV { file_hash: r.file_hash, xattrs: r.xattrs, ..e })
            &&& opts.hash && file ==> (s.content matches Some(c) ==> r.file_hash == Some(
                digest::blake3_of(c),
            ))
            &&& !(opts.hash && file && s.content is Some) ==> r.file_hash == e.file_hash
            &&& opts.xattrs && opts.is_source_scan && kept ==> r.xattrs == s.xattrs
            &&& !(opts.xattrs && opts.is_source_scan && kept) ==> r.xattrs == e.xattrs
            &&& hashed_in(opts, s) == (scanner::EntryV { file_hash: r.file_hash, ..e })
        }),
{
}

/// Only what is recorded is read: content where a hash is wanted of a regular
/// file, attributes where they are wanted of a file or directory of the source,
/// and neither of what the filter stops.
pub proof fn law_only_what_is_recorded_is_read(
    opts: ScanOptions,
    filter: Option<FilterSet>,
    s: SeenV,
)
    ensures
        wants_hash(opts, filter, s) <==> opts.hash && scanner::admitted(filter, s.rel)
            && s.entry.kind == FileKind::File && !s.entry.is_dir && s.entry.link_target is None,
        wants_xattrs(opts, filter, s) <==> opts.xattrs && opts.is_source_scan && scanner::admitted(
            filter,
            s.rel,
        ) && (s.entry.kind == FileKind::File || s.entry.kind == FileKind::Dir),
{
}

/// A scan of the source changes nothing of an entry but its permission bits: a
/// link has none, and what a Unix source holds travels as it is, with the
/// special bits only in an archive. A scan of the destination changes nothing.
pub proof fn law_scans_change_permission_bits_alone(opts: ScanOptions, e: scanner::EntryV)
    ensures
        moded(opts, e) == (scanner::EntryV { mode: moded(opts, e).mode, ..e }),
        !opts.is_source_scan ==> moded(opts, e) == e,
        opts.is_source_scan && e.link_target is Some ==> moded(opts, e).mode == 0,
        opts.is_source_scan && e.link_target is None && opts.source_os == TargetOs::Unix
            && !opts.no_perms && !opts.archive ==> moded(opts, e).mode == e.mode & 0o777,
        opts.is_source_scan && e.link_target is None && opts.source_os == TargetOs::Unix
            && !opts.no_perms && opts.archive ==> moded(opts, e).mode == e.mode & 0o7777,
        opts.is_source_scan && e.link_target is None && opts.no_perms && opts.source_os
            == TargetOs::Unix ==> moded(opts, e).mode == if e.is_dir {
            0o755u32
        } else {
            0o644u32
        },
{
    linkpolicy::law_permission_bits_travel_as_they_are(
        e.mode,
        e.is_dir,
        linkpolicy::exec_hinted(e.relative_path),
        opts.archive,
    );
}

/// The manifest of a single file holds that file alone, under its own name, with
/// the size, the times, the owner and the inode that it has, and is rooted at
/// its directory; a file that the filter stops leaves the manifest empty.
pub proof fn law_single_files_are_recorded_as_they_are(
    opts: ScanOptions,
    canonical: Seq<char>,
    name: Seq<char>,
    stat: Stat,
    content: Option<Seq<u8>>,
    xattrs: Option<Seq<(Seq<char>, Seq<u8>)>>,
    r: Manifest,
)
    requires
        holds_single(opts, canonical, stat, content, xattrs, r),
        path::file_name_of(canonical) == Some(name),
        !name.contains('\\'),
    ensures
        scanner::admitted(opts.filter, name) ==> r.entries().len() == 1 && r.total_bytes
            == stat.size && ({
            let e = r.entries()[0];
            &&& e.relative_path == name
            &&& e.size == stat.size
            &&& e.kind == FileKind::File && !e.is_dir && e.link_target is None
            &&& stat.mtime_sec <= i64::MAX ==> e.mtime_sec == stat.mtime_sec
            &&& e.mtime_nsec == stat.mtime_nsec
            &&& stat.atime_sec <= i64::MAX ==> e.atime_sec == stat.atime_sec
            &&& e.atime_nsec == stat.atime_nsec
            &&& e.inode == stat.inode
            &&& e.uid == stat.uid
            &&& e.gid == stat.gid
            &&& opts.hash ==> (content matches Some(c) ==> e.file_hash == Some(
                digest::blake3_of(c),
            ))
            &&& !opts.hash ==> e.file_hash is None
            &&& opts.xattrs && opts.is_source_scan ==> e.xattrs == xattrs
            &&& !opts.is_source_scan ==> e.mode == stat.mode
        }),
        !scanner::admitted(opts.filter, name) ==> r.entries().len() == 0 && r.total_bytes == 0,
        path::parent_of(canonical) matches Some(dir) ==> r.root@ == dir,
{
    wire::law_wire_keeps_slashed_paths(name);
    let s = SeenV { rel: name, entry: scanner::file_of(name, stat), content, xattrs };
    law_reading_adds_digest_and_attributes(opts, s);
    law_scans_change_permission_bits_alone(opts, read_in(opts, s));
}

/// Where the name of the root is recreated, every path gets it in front, behind
/// one slash, and the manifest is rooted one level up; otherwise both stay as
/// they are. Nothing else of an entry changes.
pub proof fn law_recreated_roots_are_named_in_front(
    opts: ScanOptions,
    canonical: Seq<char>,
    name: Seq<char>,
    e: scanner::EntryV,
)
    requires
        path::file_name_of(canonical) == Some(name),
        e.relative_path.len() > 0,
        e.relative_path[0] != '/',
    ensures
        opts.include_root_component ==> homed_entry(opts, canonical, e) == (scanner::EntryV {
            relative_path: name + seq!['/'] + e.relative_path,
            ..e
        }),
        opts.include_root_component ==> (path::parent_of(canonical) matches Some(dir) ==> home_of(
            opts,
            canonical,
        ) == dir),
        !opts.include_root_component ==> homed_entry(opts, canonical, e) == e && home_of(
            opts,
            canonical,
        ) == canonical,
        opts.include_root_component ==> homed_paths(opts, canonical, seq![e.relative_path])
            == seq![name + seq!['/'] + e.relative_path],
        !opts.include_root_component ==> homed_paths(opts, canonical, seq![e.relative_path])
            == seq![e.relative_path],
{
    let rel = e.relative_path;
    path::lemma_comps_proper(canonical);
    let cs = path::comps(canonical);
    assert(path::comp_ok(cs[cs.len() - 1], cs.len() - 1));
    assert(name.len() > 0 && !name.contains('/'));
    assert(name[0] != '/' && name.last() != '/') by {
        assert(name.contains(name[0]));
        assert(name.contains(name.last()));
    }
    assert(Seq::<char>::empty() + name =~= name);
    assert(name.push('/') + rel =~= name + seq!['/'] + rel);
    assert(prefix_path(name, rel) == name + seq!['/'] + rel);
    if opts.include_root_component {
        assert(homed_paths(opts, canonical, seq![rel]) =~= seq![name + seq!['/'] + rel]);
    }
}

/// The paths of the links of a manifest are exactly those of its entries with a
/// link target.
pub proof fn law_links_of_a_manifest_are_known(v: Seq<scanner::EntryV>, p: Seq<char>)
    ensures
        link_paths(v).contains(p) <==> exists|i: int|
            0 <= i < v.len() && (#[trigger] v[i]).link_target is Some && v[i].relative_path == p,
    decreases v.len(),
{
    if v.len() > 0 {
        let front = v.drop_last();
        law_links_of_a_manifest_are_known(front, p);
        let was = link_paths(front);
        let now = link_paths(v);
        if was.contains(p) {
            let k = choose|k: int| 0 <= k < was.len() && was[k] == p;
            assert(now[k] == p);
            let i = choose|i: int|
                0 <= i < front.len() && (#[trigger] front[i]).link_target is Some
                    && front[i].relative_path == p;
            assert(v[i] == front[i]);
        }
        if v.last().link_target is Some && v.last().relative_path == p {
            assert(now.last() == p);
            assert(v[v.len() - 1].link_target is Some);
        }
        if now.contains(p) && !was.contains(p) {
            let k = choose|k: int| 0 <= k < now.len() && now[k] == p;
            if k < was.len() {
                assert(was[k] == p);
            }
            assert(v[v.len() - 1].relative_path == p);
        }
        if exists|i: int|
            0 <= i < v.len() && (#[trigger] v[i]).link_target is Some && v[i].relative_path == p {
            let i = choose|i: int|
                0 <= i < v.len() && (#[trigger] v[i]).link_target is Some && v[i].relative_path
                    == p;
            if i < front.len() {
                assert(front[i].link_target is Some);
                assert(was.contains(p));
            }
        }
    }
}

/// What is chosen of an order is what is wanted of it, in that order.
pub proof fn law_what_is_wanted_is_chosen(
    ord: Seq<usize>,
    want: spec_fn(int) -> bool,
    n: int,
    x: usize,
)
    requires
        0 <= n <= ord.len(),
    ensures
        chosen(ord, want, n).contains(x) <==> want(x as int) && ord.take(n).contains(x),
        chosen(ord, want, n).len() <= n,
    decreases n,
{
    if n > 0 {
        law_what_is_wanted_is_chosen(ord, want, n - 1, x);
        let was = chosen(ord, want, n - 1);
        let now = chosen(ord, want, n);
        let t = ord.take(n);
        let u = ord.take(n - 1);
        assert(t =~= u.push(ord[n - 1]));
        if was.contains(x) {
            let k = choose|k: int| 0 <= k < was.len() && was[k] == x;
            assert(now[k] == x);
        }
        if u.contains(x) {
            let k = choose|k: int| 0 <= k < u.len() && u[k] == x;
            assert(t[k] == x);
        }
        if ord[n - 1] == x {
            assert(t[n - 1] == x);
            if want(x as int) {
                assert(now.last() == x);
            }
        }
        if now.contains(x) && !was.contains(x) {
            let k = choose|k: int| 0 <= k < now.len() && now[k] == x;
            if k < was.len() {
                assert(was[k] == x);
            }
        }
        if t.contains(x) && !u.contains(x) {
            let k = choose|k: int| 0 <= k < t.len() && t[k] == x;
            if k < n - 1 {
                assert(u[k] == x);
            }
        }
    }
}

/// A probe records every object that was found, with nothing changed but the
/// digest.
pub proof fn law_probes_record_everything(opts: ScanOptions, seen: Seq<SeenV>, i: int)
    requires
        0 <= i < seen.len(),
    ensures
        probed(opts, seen).len() == seen.len(),
        probed(opts, seen)[i] == (scanner::EntryV {
            file_hash: probed(opts, seen)[i].file_hash,
            ..seen[i].entry
        }),
        !opts.hash ==> probed(opts, seen)[i] == seen[i].entry,
        opts.hash && seen[i].entry.kind == FileKind::File && !seen[i].entry.is_dir
            && seen[i].entry.link_target is None ==> (seen[i].content matches Some(c) ==> probed(
            opts,
            seen,
        )[i].file_hash == Some(digest::blake3_of(c))),
{
}

/// The workers share all paths, no worker more than another by a whole share.
pub proof fn law_workers_share_all_paths(count: int, workers: int)
    requires
        count > 0,
        workers > 1,
    ensures
        spans_of(count, workers) * workers >= count,
        (spans_of(count, workers) - 1) * workers < count,
        spans_of(count, 1) == count,
        spans_of(count, 0) == count,
{
    spans::law_quotients_are_rounded_up(count, workers);
}

/// A policy follows the options of its scan.
pub proof fn law_policies_follow_the_options(opts: ScanOptions, root: Seq<char>, r: ScanContext)
    requires
        governs(opts, root, r),
    ensures
        r.root@ == root,
        r.host == opts.host,
        r.recursive <==> opts.recursive,
        r.preserve_links <==> opts.preserve_links,
        r.literal_links <==> opts.literal_links,
        r.literal_internal_links <==> opts.literal_internal_links,
        r.literal_external_file_links <==> opts.literal_external_file_links,
        r.literal_external_dir_links <==> opts.literal_external_dir_links,
        r.target_os == opts.target_os,
        r.source_is_windows <==> opts.source_os == TargetOs::Windows,
        r.filter is None <==> opts.filter is None,
        r.filter matches Some(f) ==> f.includes@ == opts.filter->0.includes@ && f.excludes@
            == opts.filter->0.excludes@,
{
}

/// What was found in a root keeps its place below it: the name of the root, a
/// slash, and the path that it was found under.
pub proof fn law_found_paths_lie_below_their_root(rel: Seq<char>, p: Seq<char>)
    requires
        rel.len() > 0,
        rel.last() != '/',
        !rel.contains('\\'),
        p.len() > 0 ==> p[0] != '/',
        !p.contains('\\'),
    ensures
        rebased(rel, p) == rel + seq!['/'] + p,
{
    let whole = rel + seq!['/'] + p;
    assert(rel.push('/') + p =~= whole);
    if whole.contains('\\') {
        let i = choose|i: int| 0 <= i < whole.len() && whole[i] == '\\';
        if i < rel.len() {
            assert(rel[i] == '\\');
        } else if i > rel.len() {
            assert(p[i - rel.len() - 1] == '\\');
        }
    }
    wire::law_wire_keeps_slashed_paths(whole);
}

/// A root that is a directory adds itself and everything that was found in it,
/// with nothing changed but the paths; one that is a file adds that file under
/// its own name.
pub proof fn law_roots_add_what_was_found(
    rel: Seq<char>,
    stat: Stat,
    found: Seq<scanner::EntryV>,
    i: int,
)
    ensures
        added_directory(rel, stat, found).len() == found.len() + 1,
        added_directory(rel, stat, found)[0].relative_path == rel,
        added_directory(rel, stat, found)[0].is_dir,
        added_directory(rel, stat, found)[0].mode == stat.mode,
        0 <= i < found.len() ==> added_directory(rel, stat, found)[i + 1] == (scanner::EntryV {
            relative_path: rebased(rel, found[i].relative_path),
            ..found[i]
        }),
        found.len() > 0 ==> added_file(rel, found).len() == 1 && added_file(rel, found)[0] == (
        scanner::EntryV { relative_path: rel, ..found[0] }),
        found.len() == 0 ==> added_file(rel, found).len() == 0,
{
}

} // verus!
