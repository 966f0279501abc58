//! The options of a run, and the decisions made around a transfer: how many
//! workers, what a request is answered with, and where its paths lead.
use vstd::prelude::*;

use crate::filter::FilterSet;
use crate::planner::PlannerConfig;
use crate::protocol;
use crate::protocol::{FileMeta, PullRequest, TargetOs};
use crate::scan;
use crate::scan::ScanOptions;
use crate::strategy;
use crate::text;
use crate::wire;

verus! {

/// Which storage class a user asks the run to be tuned for.
#[derive(Debug, Clone, Copy, PartialEq, Eq, Structural)]
pub enum StoragePreference {
    /// Detect the class.
    Auto,
    /// A rotating disk.
    Hdd,
    /// A solid-state disk.
    Ssd,
}

/// The class of a storage device.
#[derive(Debug, Clone, Copy, PartialEq, Eq, Structural)]
pub enum StorageClass {
    /// A rotating disk.
    Hdd,
    /// A solid-state disk.
    Ssd,
    /// It could not be told.
    Unknown,
}

/// Options controlling a run.
#[derive(Debug, Clone)]
pub struct ExecutorOptions {
    /// Use content hashes to decide what changed.
    pub checksum: bool,
    /// Remove destination files that the source does not have.
    pub delete: bool,
    /// Skip files whose destination is newer.
    pub update_only: bool,
    /// Skip files that already exist.
    pub ignore_existing: bool,
    /// Only update files present on the receiver; directories are still created.
    pub existing: bool,
    /// Transfer everything, ignoring the quick check.
    pub ignore_times: bool,
    /// Refuse to delete more than this many files.
    pub max_delete: Option<u64>,
    /// Bound the removals to paths under these roots; empty leaves the whole destination in scope.
    pub delete_scope: Vec<String>,
    /// Keep the replaced destination file.
    pub backup: bool,
    /// Explicit worker count; `None` tunes it from the storage class.
    pub jobs: Option<usize>,
    /// Storage class used for tuning.
    pub storage: StoragePreference,
    /// Compress data frames.
    pub compress: bool,
    /// Bandwidth cap in bytes per second.
    pub bwlimit: Option<u64>,
    /// Exclude paths matching these patterns.
    pub exclude: Vec<String>,
    /// Include paths matching these patterns, overriding `exclude`.
    pub includes: Vec<String>,
    /// Collect per-file report lines.
    pub itemize: bool,
    /// Flush every received file before it is renamed into place.
    pub fsync: bool,
    /// Remote target path: empty for the serve root, absolute with a leading slash, relative to the serve root otherwise.
    pub remote_path: String,
    /// Several absolute remote paths for one pull.
    pub remote_paths: Vec<String>,
    /// Keep partial files when a transfer aborts.
    pub partial: bool,
    /// Use fixed blocks and a rolling checksum for deltas.
    pub rollsum: bool,
    /// Print only errors.
    pub quiet: bool,
    /// Remove source files whose copies arrived intact.
    pub remove_source_files: bool,
    /// Compare digests after the transfer.
    pub verify: bool,
    /// Preserve owner, group and special files too; implies `literal_links`.
    pub archive: bool,
    /// Keep every link with its literal target.
    pub literal_links: bool,
    /// Keep internal links with their literal target.
    pub literal_internal_links: bool,
    /// Keep links to external files.
    pub literal_external_file_links: bool,
    /// Keep links to external directories.
    pub literal_external_dir_links: bool,
    /// Sync subdirectories.
    pub recursive: bool,
    /// Keep links; off means that every link is skipped.
    pub preserve_links: bool,
    /// Replace every link by what it points at.
    pub follow_links: bool,
    /// Write runs of zeros as holes.
    pub sparse: bool,
    /// Copy extended attributes.
    pub xattrs: bool,
    /// Restore access times.
    pub atimes: bool,
    /// Preserve permission bits.
    pub preserve_perms: bool,
    /// Preserve modification times.
    pub preserve_times: bool,
    /// The operating system of the target side.
    pub target_os: TargetOs,
    /// Recreate the source directory's own name at the destination.
    pub include_root_component: bool,
}

/// Whether two sets of options say the same.
pub open spec fn same_options(a: ExecutorOptions, b: ExecutorOptions) -> bool {
    &&& a.checksum == b.checksum
    &&& a.delete == b.delete
    &&& a.update_only == b.update_only
    &&& a.ignore_existing == b.ignore_existing
    &&& a.existing == b.existing
    &&& a.ignore_times == b.ignore_times
    &&& a.max_delete == b.max_delete
    &&& text::views(a.delete_scope@) == text::views(b.delete_scope@)
    &&& a.backup == b.backup
    &&& a.jobs == b.jobs
    &&& a.storage == b.storage
    &&& a.compress == b.compress
    &&& a.bwlimit == b.bwlimit
    &&& text::views(a.exclude@) == text::views(b.exclude@)
    &&& text::views(a.includes@) == text::views(b.includes@)
    &&& a.itemize == b.itemize
    &&& a.fsync == b.fsync
    &&& a.remote_path@ == b.remote_path@
    &&& text::views(a.remote_paths@) == text::views(b.remote_paths@)
    &&& a.partial == b.partial
    &&& a.rollsum == b.rollsum
    &&& a.quiet == b.quiet
    &&& a.remove_source_files == b.remove_source_files
    &&& a.verify == b.verify
    &&& a.archive == b.archive
    &&& a.literal_links == b.literal_links
    &&& a.literal_internal_links == b.literal_internal_links
    &&& a.literal_external_file_links == b.literal_external_file_links
    &&& a.literal_external_dir_links == b.literal_external_dir_links
    &&& a.recursive == b.recursive
    &&& a.preserve_links == b.preserve_links
    &&& a.follow_links == b.follow_links
    &&& a.sparse == b.sparse
    &&& a.xattrs == b.xattrs
    &&& a.atimes == b.atimes
    &&& a.preserve_perms == b.preserve_perms
    &&& a.preserve_times == b.preserve_times
    &&& a.target_os == b.target_os
    &&& a.include_root_component == b.include_root_component
}

/// Whether these are the options of a plain run.
pub open spec fn plain_options(o: ExecutorOptions) -> bool {
    &&& !o.checksum
    &&& !o.delete
    &&& !o.update_only
    &&& !o.ignore_existing
    &&& !o.existing
    &&& !o.ignore_times
    &&& o.max_delete is None
    &&& o.delete_scope@.len() == 0
    &&& !o.backup
    &&& o.jobs is None
    &&& o.storage == StoragePreference::Auto
    &&& !o.compress
    &&& o.bwlimit is None
    &&& o.exclude@.len() == 0
    &&& o.includes@.len() == 0
    &&& !o.itemize
    &&& !o.fsync
    &&& o.remote_path@.len() == 0
    &&& o.remote_paths@.len() == 0
    &&& o.partial
    &&& !o.rollsum
    &&& !o.quiet
    &&& !o.remove_source_files
    &&& !o.verify
    &&& !o.archive
    &&& !o.literal_links
    &&& !o.literal_internal_links
    &&& !o.literal_external_file_links
    &&& !o.literal_external_dir_links
    &&& o.recursive
    &&& o.preserve_links
    &&& !o.follow_links
    &&& !o.sparse
    &&& !o.xattrs
    &&& !o.atimes
    &&& o.preserve_perms
    &&& o.preserve_times
    &&& o.target_os == TargetOs::Unix
    &&& !o.include_root_component
}

impl Default for ExecutorOptions {
    fn default() -> (r: ExecutorOptions)
        ensures
            plain_options(r),
    {
        ExecutorOptions {
            checksum: false,
            delete: false,
            update_only: false,
            ignore_existing: false,
            existing: false,
            ignore_times: false,
            max_delete: None,
            delete_scope: Vec::new(),
            backup: false,
            jobs: None,
            storage: StoragePreference::Auto,
            compress: false,
            bwlimit: None,
            exclude: Vec::new(),
            includes: Vec::new(),
            itemize: false,
            fsync: false,
            remote_path: String::new(),
            remote_paths: Vec::new(),
            partial: true,
            rollsum: false,
            quiet: false,
            remove_source_files: false,
            verify: false,
            archive: false,
            literal_links: false,
            literal_internal_links: false,
            literal_external_file_links: false,
            literal_external_dir_links: false,
            recursive: true,
            preserve_links: true,
            follow_links: false,
            sparse: false,
            xattrs: false,
            atimes: false,
            preserve_perms: true,
            preserve_times: true,
            target_os: TargetOs::Unix,
            include_root_component: false,
        }
    }
}

impl ExecutorOptions {
    /// Equal options.
    pub fn copy(&self) -> (r: ExecutorOptions)
        ensures
            same_options(r, *self),
    {
        let delete_scope = text::copy_strings(&self.delete_scope);
        let exclude = text::copy_strings(&self.exclude);
        let includes = text::copy_strings(&self.includes);
        let remote_paths = text::copy_strings(&self.remote_paths);
        let remote_path = text::copy_str(self.remote_path.as_str());
        ExecutorOptions {
            checksum: self.checksum,
            delete: self.delete,
            update_only: self.update_only,
            ignore_existing: self.ignore_existing,
            existing: self.existing,
            ignore_times: self.ignore_times,
            max_delete: self.max_delete,
            delete_scope,
            backup: self.backup,
            jobs: self.jobs,
            storage: self.storage,
            compress: self.compress,
            bwlimit: self.bwlimit,
            exclude,
            includes,
            itemize: self.itemize,
            fsync: self.fsync,
            remote_path,
            remote_paths,
            partial: self.partial,
            rollsum: self.rollsum,
            quiet: self.quiet,
            remove_source_files: self.remove_source_files,
            verify: self.verify,
            archive: self.archive,
            literal_links: self.literal_links,
            literal_internal_links: self.literal_internal_links,
            literal_external_file_links: self.literal_external_file_links,
            literal_external_dir_links: self.literal_external_dir_links,
            recursive: self.recursive,
            preserve_links: self.preserve_links,
            follow_links: self.follow_links,
            sparse: self.sparse,
            xattrs: self.xattrs,
            atimes: self.atimes,
            preserve_perms: self.preserve_perms,
            preserve_times: self.preserve_times,
            target_os: self.target_os,
            include_root_component: self.include_root_component,
        }
    }

    /// The filter that the two pattern lists make.
    pub fn filter(&self) -> (r: FilterSet)
        ensures
            filters_as(*self, r),
            text::views(r.includes@) == text::views(self.includes@),
            text::views(r.excludes@) == text::views(self.exclude@),
    {
        FilterSet {
            includes: text::copy_strings(&self.includes),
            excludes: text::copy_strings(&self.exclude),
        }
    }

    /// Whether digests are compared after the transfer.
    pub fn verifies(&self) -> (r: bool)
        ensures
            r == compares_digests(*self),
            r == (self.remove_source_files || self.verify),
    {
        self.remove_source_files || self.verify
    }

    /// The planner's configuration. Without times to preserve the quick check
    /// compares sizes only.
    pub fn planner_config(&self) -> (r: PlannerConfig)
        ensures
            plans_as(*self, r),
            r.checksum == self.checksum,
            r.size_only == !self.preserve_times,
            r.update_only == self.update_only,
            r.ignore_existing == self.ignore_existing,
            r.existing == self.existing,
            r.ignore_times == self.ignore_times,
            r.delete == self.delete,
            match r.delete_scope {
                Some(scope) => self.delete_scope@.len() > 0 && text::views(scope@)
                    == text::views(self.delete_scope@),
                None => self.delete_scope@.len() == 0,
            },
            r.preserve_perms == self.preserve_perms,
            r.preserve_times == self.preserve_times,
    {
        let delete_scope = if self.delete_scope.len() > 0 {
            Some(text::copy_strings(&self.delete_scope))
        } else {
            None
        };
        PlannerConfig {
            checksum: self.checksum,
            size_only: !self.preserve_times,
            update_only: self.update_only,
            ignore_existing: self.ignore_existing,
            existing: self.existing,
            ignore_times: self.ignore_times,
            delete: self.delete,
            delete_scope,
            preserve_perms: self.preserve_perms,
            preserve_times: self.preserve_times,
        }
    }
}

/// Whether a filter is made of the pattern lists of a run.
pub open spec fn filters_as(o: ExecutorOptions, f: FilterSet) -> bool {
    &&& text::views(f.includes@) == text::views(o.includes@)
    &&& text::views(f.excludes@) == text::views(o.exclude@)
}

/// Whether digests are compared after the transfer.
pub open spec fn compares_digests(o: ExecutorOptions) -> bool {
    o.remove_source_files || o.verify
}

/// Whether these are the planner's options for a run.
pub open spec fn plans_as(o: ExecutorOptions, r: PlannerConfig) -> bool {
    &&& r.checksum == o.checksum
    &&& r.size_only == !o.preserve_times
    &&& r.update_only == o.update_only
    &&& r.ignore_existing == o.ignore_existing
    &&& r.existing == o.existing
    &&& r.ignore_times == o.ignore_times
    &&& r.delete == o.delete
    &&& match r.delete_scope {
        Some(scope) => o.delete_scope@.len() > 0 && text::views(scope@) == text::views(
            o.delete_scope@,
        ),
        None => o.delete_scope@.len() == 0,
    }
    &&& r.preserve_perms == o.preserve_perms
    &&& r.preserve_times == o.preserve_times
}

/// Concurrent applies on a rotating disk.
pub const APPLY_JOBS_HDD: usize = 1;

/// Concurrent applies on any other disk.
pub const APPLY_JOBS_SSD: usize = 16;

/// The storage class a run is tuned for: an explicit preference wins over what
/// was detected.
pub open spec fn storage_of(preference: StoragePreference, detected: StorageClass) -> StorageClass {
    match preference {
        StoragePreference::Hdd => StorageClass::Hdd,
        StoragePreference::Ssd => StorageClass::Ssd,
        StoragePreference::Auto => detected,
    }
}

/// The storage class a run is tuned for.
pub fn effective_storage(options: &ExecutorOptions, detected: StorageClass) -> (r: StorageClass)
    ensures
        r == storage_of(options.storage, detected),
{
    match options.storage {
        StoragePreference::Hdd => StorageClass::Hdd,
        StoragePreference::Ssd => StorageClass::Ssd,
        StoragePreference::Auto => detected,
    }
}

/// A worker count: an explicit one, but at least one; otherwise one on a
/// rotating disk and `wide` on any other.
pub open spec fn workers(
    jobs: Option<usize>,
    storage: StorageClass,
    narrow: usize,
    wide: usize,
) -> usize {
    match jobs {
        Some(n) => if n < 1 {
            1
        } else {
            n
        },
        None => match storage {
            StorageClass::Hdd => narrow,
            _ => wide,
        },
    }
}

/// A worker count.
pub fn count_workers(jobs: Option<usize>, storage: StorageClass, narrow: usize, wide: usize) -> (r:
    usize)
    ensures
        r == workers(jobs, storage, narrow, wide),
{
    match jobs {
        Some(n) => if n < 1 {
            1
        } else {
            n
        },
        None => match storage {
            StorageClass::Hdd => narrow,
            _ => wide,
        },
    }
}

/// The number of hash workers. On a disk that is not rotating it follows the
/// machine's processors.
pub fn resolve_hash_workers(options: &ExecutorOptions, detected: StorageClass) -> (r: usize)
    ensures
        exists|wide: usize|
            1 <= wide <= 16 && r == #[trigger] workers(
                options.jobs,
                storage_of(options.storage, detected),
                1,
                wide,
            ),
{
    let wide: usize = strategy::optimal_thread_count(true);
    count_workers(options.jobs, effective_storage(options, detected), 1, wide)
}

/// The number of files applied at a time.
pub fn resolve_apply_jobs(options: &ExecutorOptions, detected: StorageClass) -> (r: usize)
    ensures
        r == workers(
            options.jobs,
            storage_of(options.storage, detected),
            APPLY_JOBS_HDD,
            APPLY_JOBS_SSD,
        ),
{
    count_workers(
        options.jobs,
        effective_storage(options, detected),
        APPLY_JOBS_HDD,
        APPLY_JOBS_SSD,
    )
}

/// An explicit worker count wins over the storage class.
pub proof fn law_explicit_jobs_win(n: usize, a: StorageClass, b: StorageClass, wide: usize)
    ensures
        workers(Some(n), a, APPLY_JOBS_HDD, wide) == workers(Some(n), b, APPLY_JOBS_HDD, wide),
        workers(Some(n), a, APPLY_JOBS_HDD, wide) >= 1,
{
}

/// Whether these are the scanner's options for a run, apart from what depends
/// on the side that is scanned. An archive keeps every link as it is.
pub open spec fn scans_as(o: ExecutorOptions, detected: StorageClass, r: ScanOptions) -> bool {
    &&& r.hash == o.checksum
    &&& exists|wide: usize|
        1 <= wide <= 16 && r.hash_workers == #[trigger] workers(
            o.jobs,
            storage_of(o.storage, detected),
            1,
            wide,
        )
    &&& r.recursive == o.recursive
    &&& r.preserve_links == o.preserve_links
    &&& r.follow_links == o.follow_links
    &&& r.literal_links == (o.literal_links || o.archive)
    &&& r.literal_internal_links == o.literal_internal_links
    &&& r.literal_external_file_links == o.literal_external_file_links
    &&& r.literal_external_dir_links == o.literal_external_dir_links
    &&& r.target_os == o.target_os
    &&& r.archive == o.archive
    &&& r.xattrs == o.xattrs
}

/// Whether these options scan one side of a run.
pub open spec fn scans_side(
    o: ExecutorOptions,
    is_source: bool,
    no_perms: bool,
    r: ScanOptions,
) -> bool {
    &&& r.is_source_scan == is_source
    &&& r.no_perms == no_perms
    &&& r.include_root_component == (is_source && o.include_root_component)
}

/// The scanner's options for a run. The root's own name is recreated only by a
/// scan of the source.
pub fn scanner_options(
    options: &ExecutorOptions,
    detected: StorageClass,
    filter: Option<FilterSet>,
    is_source_scan: bool,
    no_perms: bool,
    source_link_paths: Option<Vec<String>>,
) -> (r: ScanOptions)
    ensures
        scans_side(*options, is_source_scan, no_perms, r),
        scans_as(*options, detected, r),
        r.filter == filter,
        r.is_source_scan == is_source_scan,
        r.no_perms == no_perms,
        r.source_link_paths == source_link_paths,
        r.include_root_component == (is_source_scan && options.include_root_component),
{
    ScanOptions {
        hash: options.checksum,
        hash_workers: resolve_hash_workers(options, detected),
        filter,
        recursive: options.recursive,
        preserve_links: options.preserve_links,
        follow_links: options.follow_links,
        literal_links: options.literal_links || options.archive,
        literal_internal_links: options.literal_internal_links,
        literal_external_file_links: options.literal_external_file_links,
        literal_external_dir_links: options.literal_external_dir_links,
        target_os: options.target_os,
        is_source_scan,
        no_perms,
        source_os: scan::local_os(),
        host: scan::local_os(),
        archive: options.archive,
        xattrs: options.xattrs,
        include_root_component: is_source_scan && options.include_root_component,
        source_link_paths,
    }
}

/// The scanner's options for the tree that is sent: filtered, and with the
/// final permission bits.
pub fn source_scan_options(options: &ExecutorOptions, detected: StorageClass) -> (r: ScanOptions)
    ensures
        scans_side(*options, true, !options.preserve_perms, r),
        r.filter matches Some(f) && filters_as(*options, f),
        scans_as(*options, detected, r),
        r.is_source_scan,
        r.no_perms == !options.preserve_perms,
        r.filter matches Some(f) && text::views(f.includes@) == text::views(options.includes@)
            && text::views(f.excludes@) == text::views(options.exclude@),
        r.source_link_paths is None,
        r.include_root_component == options.include_root_component,
{
    scanner_options(options, detected, Some(options.filter()), true, !options.preserve_perms, None)
}

/// The paths that a file list has as links.
pub open spec fn link_paths(metas: Seq<protocol::MetaV>) -> Seq<Seq<char>> {
    metas.filter(|m: protocol::MetaV| m.link_target is Some).map_values(
        |m: protocol::MetaV| m.path,
    )
}

/// The paths that a file list has as links.
pub fn source_links(metas: &Vec<FileMeta>) -> (out: Vec<String>)
    ensures
        text::views(out@) == link_paths(wire::meta_views(metas@)),
{
    let ghost mv = wire::meta_views(metas@);
    let ghost f = |m: protocol::MetaV| m.link_target is Some;
    let ghost g = |m: protocol::MetaV| m.path;
    let mut out: Vec<String> = Vec::new();
    let mut i: usize = 0;
    proof {
        reveal(Seq::filter);
        assert(mv.take(0).filter(f) =~= Seq::empty());
        assert(text::views(out@) =~= mv.take(0).filter(f).map_values(g));
    }
    while i < metas.len()
        invariant
            i <= metas.len(),
            mv == wire::meta_views(metas@),
            f == (|m: protocol::MetaV| m.link_target is Some),
            g == (|m: protocol::MetaV| m.path),
            text::views(out@) == mv.take(i as int).filter(f).map_values(g),
        decreases metas.len() - i,
    {
        assert(mv[i as int] == metas@[i as int]@);
        proof {
            assert(mv.take(i + 1) =~= mv.take(i as int).push(mv[i as int]));
            mv.take(i as int).lemma_filter_push(mv[i as int], f);
        }
        if metas[i].link_target.is_some() {
            let ghost was = out@;
            let rel = text::copy_str(metas[i].path.as_str());
            out.push(rel);
            proof {
                assert(text::views(out@) =~= text::views(was).push(rel@));
                let kept = mv.take(i as int).filter(f);
                assert(kept.push(mv[i as int]).map_values(g) =~= kept.map_values(g).push(rel@));
            }
        }
        i += 1;
    }
    assert(mv.take(i as int) =~= mv);
    out
}

/// How the destination is looked at for a source file list.
#[derive(Debug, Clone, Copy, PartialEq, Eq, Structural)]
pub enum DestScan {
    /// Walk the whole tree: everything that may be removed must be named.
    Full,
    /// Nothing is there.
    Empty,
    /// Look only at the paths that the source names.
    Targeted,
}

/// How the destination is looked at.
pub open spec fn looked_at(deletes: bool, root_is_empty: bool) -> DestScan {
    if deletes {
        DestScan::Full
    } else if root_is_empty {
        DestScan::Empty
    } else {
        DestScan::Targeted
    }
}

/// Whether a scan knows the paths that a file list has as links.
pub open spec fn knows_links(metas: Seq<protocol::MetaV>, r: ScanOptions) -> bool {
    match r.source_link_paths {
        Some(v) => v@.len() > 0 && text::views(v@) == link_paths(metas),
        None => link_paths(metas).len() == 0,
    }
}

/// How the destination is looked at.
pub fn dest_scan(options: &ExecutorOptions, root_is_empty: bool) -> (r: DestScan)
    ensures
        r == looked_at(options.delete, root_is_empty),
        r == if options.delete {
            DestScan::Full
        } else if root_is_empty {
            DestScan::Empty
        } else {
            DestScan::Targeted
        },
{
    if options.delete {
        DestScan::Full
    } else if root_is_empty {
        DestScan::Empty
    } else {
        DestScan::Targeted
    }
}

/// The scanner's options for the destination: unfiltered, with the raw
/// permission bits, and with the paths that the source has as links.
pub fn dest_scan_options(
    options: &ExecutorOptions,
    detected: StorageClass,
    source_files: &Vec<FileMeta>,
) -> (r: ScanOptions)
    ensures
        scans_side(*options, false, false, r),
        knows_links(wire::meta_views(source_files@), r),
        r.filter is None,
        !r.is_source_scan,
        !r.no_perms,
        !r.include_root_component,
        match r.source_link_paths {
            Some(v) => v@.len() > 0 && text::views(v@) == link_paths(wire::meta_views(source_files@)),
            None => link_paths(wire::meta_views(source_files@)).len() == 0,
        },
        scans_as(*options, detected, r),
{
    let links = source_links(source_files);
    assert(text::views(links@).len() == links.len());
    let links = if links.len() > 0 {
        Some(links)
    } else {
        None
    };
    scanner_options(options, detected, None, false, false, links)
}

/// Whether a request is the one that a client pulls with.
pub open spec fn requests(
    options: ExecutorOptions,
    watch: bool,
    watch_delay_ms: u32,
    r: PullRequest,
) -> bool {
    &&& options.remote_paths@.len() == 0 ==> text::views(r.paths@) == seq![options.remote_path@]
            && r.include_root == (scan::last_segment(options.remote_path@).len() > 0
            && scan::last_segment(options.remote_path@) != seq!['.'] && scan::last_segment(
            options.remote_path@,
        ) != seq!['.', '.'])
    &&& options.remote_paths@.len() > 0 ==> text::views(r.paths@) == text::views(
            options.remote_paths@,
        ) && !r.include_root
    &&& text::views(r.excludes@) == text::views(options.exclude@)
    &&& text::views(r.includes@) == text::views(options.includes@)
    &&& r.checksum == options.checksum
    &&& r.delete == options.delete
    &&& text::views(r.delete_scope@) == text::views(options.delete_scope@)
    &&& r.update_only == options.update_only
    &&& r.ignore_existing == options.ignore_existing
    &&& r.existing == options.existing
    &&& r.ignore_times == options.ignore_times
    &&& r.watch == watch
    &&& r.watch_delay_ms == watch_delay_ms
    &&& r.compress == options.compress
    &&& r.bwlimit == options.bwlimit
    &&& r.client_os == options.target_os
}

/// The request that a client pulls with.
pub fn pull_request(options: &ExecutorOptions, watch: bool, watch_delay_ms: u32) -> (r: PullRequest)
    ensures
        requests(*options, watch, watch_delay_ms, r),
        options.remote_paths@.len() == 0 ==> text::views(r.paths@) == seq![options.remote_path@]
            && r.include_root == (scan::last_segment(options.remote_path@).len() > 0
            && scan::last_segment(options.remote_path@) != seq!['.'] && scan::last_segment(
            options.remote_path@,
        ) != seq!['.', '.']),
        options.remote_paths@.len() > 0 ==> text::views(r.paths@) == text::views(
            options.remote_paths@,
        ) && !r.include_root,
        text::views(r.excludes@) == text::views(options.exclude@),
        text::views(r.includes@) == text::views(options.includes@),
        r.checksum == options.checksum,
        r.delete == options.delete,
        text::views(r.delete_scope@) == text::views(options.delete_scope@),
        r.update_only == options.update_only,
        r.ignore_existing == options.ignore_existing,
        r.existing == options.existing,
        r.ignore_times == options.ignore_times,
        r.watch == watch,
        r.watch_delay_ms == watch_delay_ms,
        r.compress == options.compress,
        r.bwlimit == options.bwlimit,
        r.client_os == options.target_os,
{
    let mut paths: Vec<String> = Vec::new();
    let mut include_root = false;
    if options.remote_paths.len() == 0 {
        let one = text::copy_str(options.remote_path.as_str());
        paths.push(one);
        assert(text::views(paths@) =~= seq![options.remote_path@]);
        include_root = scan::include_root_component(options.remote_path.as_str());
    } else {
        paths = text::copy_strings(&options.remote_paths);
    }
    PullRequest {
        paths,
        excludes: text::copy_strings(&options.exclude),
        includes: text::copy_strings(&options.includes),
        checksum: options.checksum,
        delete: options.delete,
        delete_scope: text::copy_strings(&options.delete_scope),
        update_only: options.update_only,
        ignore_existing: options.ignore_existing,
        existing: options.existing,
        ignore_times: options.ignore_times,
        watch,
        watch_delay_ms,
        compress: options.compress,
        bwlimit: options.bwlimit,
        client_os: options.target_os,
        include_root,
    }
}

/// Whether these are the options that a server sends a pulled tree with.
pub open spec fn serves_with(
    options: ExecutorOptions,
    request: PullRequest,
    r: ExecutorOptions,
) -> bool {
    takes_wishes(request, r) && keeps_own(options, r)
}

/// Whether options hold what a client wishes.
pub open spec fn takes_wishes(request: PullRequest, r: ExecutorOptions) -> bool {
    &&& r.checksum == request.checksum
    &&& r.delete == request.delete
    &&& text::views(r.delete_scope@) == text::views(request.delete_scope@)
    &&& r.update_only == request.update_only
    &&& r.ignore_existing == request.ignore_existing
    &&& r.existing == request.existing
    &&& r.ignore_times == request.ignore_times
    &&& r.compress == request.compress
    &&& r.bwlimit == request.bwlimit
    &&& text::views(r.exclude@) == text::views(request.excludes@)
    &&& text::views(r.includes@) == text::views(request.includes@)
    &&& r.target_os == request.client_os
    &&& r.include_root_component == request.include_root
}

/// Whether options are those of a server, but for what a client wishes.
pub open spec fn keeps_own(options: ExecutorOptions, r: ExecutorOptions) -> bool {
    &&& r.max_delete == options.max_delete
    &&& r.backup == options.backup
    &&& r.jobs == options.jobs
    &&& r.storage == options.storage
    &&& r.itemize == options.itemize
    &&& r.fsync == options.fsync
    &&& r.remote_path@ == options.remote_path@
    &&& text::views(r.remote_paths@) == text::views(options.remote_paths@)
    &&& r.partial == options.partial
    &&& r.rollsum == options.rollsum
    &&& r.quiet == options.quiet
    &&& r.remove_source_files == options.remove_source_files
    &&& r.verify == options.verify
    &&& r.archive == options.archive
    &&& r.literal_links == options.literal_links
    &&& r.literal_internal_links == options.literal_internal_links
    &&& r.literal_external_file_links == options.literal_external_file_links
    &&& r.literal_external_dir_links == options.literal_external_dir_links
    &&& r.recursive == options.recursive
    &&& r.preserve_links == options.preserve_links
    &&& r.follow_links == options.follow_links
    &&& r.sparse == options.sparse
    &&& r.xattrs == options.xattrs
    &&& r.atimes == options.atimes
    &&& r.preserve_perms == options.preserve_perms
    &&& r.preserve_times == options.preserve_times
}

/// The options that a server sends a pulled tree with: the client's wishes
/// replace the server's, and everything else stays.
pub fn pull_options(options: &ExecutorOptions, request: &PullRequest) -> (r: ExecutorOptions)
    ensures
        serves_with(*options, *request, r),
{
    let own = options.copy();
    let r = ExecutorOptions {
        checksum: request.checksum,
        delete: request.delete,
        delete_scope: text::copy_strings(&request.delete_scope),
        update_only: request.update_only,
        ignore_existing: request.ignore_existing,
        existing: request.existing,
        ignore_times: request.ignore_times,
        compress: request.compress,
        bwlimit: request.bwlimit,
        exclude: text::copy_strings(&request.excludes),
        includes: text::copy_strings(&request.includes),
        target_os: request.client_os,
        include_root_component: request.include_root,
        ..own
    };
    assert(keeps_own(*options, r));
    assert(takes_wishes(*request, r));
    r
}

/// What a client wishes reaches the server: a pulled tree is sent with the
/// client's choice of what to compare, to delete, to leave alone, to filter and
/// how to send it, and with the rest of the server's own options.
pub proof fn law_wishes_reach_the_server(
    client: ExecutorOptions,
    server: ExecutorOptions,
    watch: bool,
    delay: u32,
    request: PullRequest,
    r: ExecutorOptions,
)
    requires
        requests(client, watch, delay, request),
        serves_with(server, request, r),
    ensures
        r.checksum == client.checksum,
        r.delete == client.delete,
        r.update_only == client.update_only,
        r.ignore_existing == client.ignore_existing,
        r.existing == client.existing,
        r.ignore_times == client.ignore_times,
        r.compress == client.compress,
        r.bwlimit == client.bwlimit,
        r.target_os == client.target_os,
        text::views(r.delete_scope@) == text::views(client.delete_scope@),
        text::views(r.exclude@) == text::views(client.exclude@),
        text::views(r.includes@) == text::views(client.includes@),
        r.max_delete == server.max_delete,
        r.backup == server.backup,
        r.jobs == server.jobs,
        r.storage == server.storage,
        r.itemize == server.itemize,
        r.fsync == server.fsync,
        r.partial == server.partial,
        r.rollsum == server.rollsum,
        r.quiet == server.quiet,
        r.remove_source_files == server.remove_source_files,
        r.verify == server.verify,
        r.archive == server.archive,
        r.literal_links == server.literal_links,
        r.literal_internal_links == server.literal_internal_links,
        r.literal_external_file_links == server.literal_external_file_links,
        r.literal_external_dir_links == server.literal_external_dir_links,
        r.recursive == server.recursive,
        r.preserve_links == server.preserve_links,
        r.follow_links == server.follow_links,
        r.sparse == server.sparse,
        r.xattrs == server.xattrs,
        r.atimes == server.atimes,
        r.preserve_perms == server.preserve_perms,
        r.preserve_times == server.preserve_times,
        r.remote_path@ == server.remote_path@,
        text::views(r.remote_paths@) == text::views(server.remote_paths@),
        request.watch == watch,
        request.watch_delay_ms == delay,
{
}

/// A client asks for its several paths as they are listed, or else for its one
/// path, whose last name is then recreated unless it names a place and not a
/// thing.
pub proof fn law_requests_name_the_paths(
    client: ExecutorOptions,
    watch: bool,
    delay: u32,
    request: PullRequest,
)
    requires
        requests(client, watch, delay, request),
    ensures
        request.paths@.len() > 0,
        client.remote_paths@.len() > 0 ==> request.paths@.len() == client.remote_paths@.len()
            && !request.include_root && forall|i: int|
            0 <= i < request.paths@.len() ==> (#[trigger] request.paths@[i])@
                == client.remote_paths@[i]@,
        client.remote_paths@.len() == 0 ==> request.paths@.len() == 1 && request.paths@[0]@
            == client.remote_path@,
        client.remote_paths@.len() == 0 && request.include_root ==> scan::last_segment(
            client.remote_path@,
        ).len() > 0,
{
    let got = text::views(request.paths@);
    assert(got.len() == request.paths@.len());
    if client.remote_paths@.len() > 0 {
        let listed = text::views(client.remote_paths@);
        assert(listed.len() == client.remote_paths@.len());
        assert forall|i: int| 0 <= i < request.paths@.len() implies (#[trigger] request.paths@[i])@
            == client.remote_paths@[i]@ by {
            assert(got[i] == request.paths@[i]@);
            assert(listed[i] == client.remote_paths@[i]@);
        }
    } else {
        assert(got[0] == request.paths@[0]@);
    }
}

/// A copy of the options of a run says the same in every one of them.
pub proof fn law_copies_say_the_same(a: ExecutorOptions, b: ExecutorOptions)
    requires
        same_options(a, b),
    ensures
        a.checksum == b.checksum,
        a.delete == b.delete,
        a.update_only == b.update_only,
        a.ignore_existing == b.ignore_existing,
        a.existing == b.existing,
        a.ignore_times == b.ignore_times,
        a.max_delete == b.max_delete,
        a.backup == b.backup,
        a.jobs == b.jobs,
        a.storage == b.storage,
        a.compress == b.compress,
        a.bwlimit == b.bwlimit,
        a.itemize == b.itemize,
        a.fsync == b.fsync,
        a.partial == b.partial,
        a.rollsum == b.rollsum,
        a.quiet == b.quiet,
        a.remove_source_files == b.remove_source_files,
        a.verify == b.verify,
        a.archive == b.archive,
        a.literal_links == b.literal_links,
        a.literal_internal_links == b.literal_internal_links,
        a.literal_external_file_links == b.literal_external_file_links,
        a.literal_external_dir_links == b.literal_external_dir_links,
        a.recursive == b.recursive,
        a.preserve_links == b.preserve_links,
        a.follow_links == b.follow_links,
        a.sparse == b.sparse,
        a.xattrs == b.xattrs,
        a.atimes == b.atimes,
        a.preserve_perms == b.preserve_perms,
        a.preserve_times == b.preserve_times,
        a.target_os == b.target_os,
        a.include_root_component == b.include_root_component,
        text::views(a.delete_scope@) == text::views(b.delete_scope@),
        text::views(a.exclude@) == text::views(b.exclude@),
        text::views(a.includes@) == text::views(b.includes@),
        text::views(a.remote_paths@) == text::views(b.remote_paths@),
        a.remote_path@ == b.remote_path@,
{
}

/// A plain run deletes nothing, overwrites what is older or newer alike, keeps
/// links, permission bits and times, descends into every directory, keeps
/// partial files, filters nothing and compares nothing afterwards.
pub proof fn law_plain_runs_are_harmless(o: ExecutorOptions, cfg: PlannerConfig)
    requires
        plain_options(o),
        plans_as(o, cfg),
    ensures
        !cfg.delete && cfg.delete_scope is None,
        !cfg.checksum && !cfg.size_only && !cfg.ignore_times,
        !cfg.update_only && !cfg.ignore_existing && !cfg.existing,
        cfg.preserve_perms && cfg.preserve_times,
        !compares_digests(o) && !o.remove_source_files && !o.verify,
        o.recursive && o.preserve_links && !o.follow_links && o.partial,
        !o.archive && !o.literal_links && !o.literal_internal_links
            && !o.literal_external_file_links && !o.literal_external_dir_links,
        !o.compress && !o.sparse && !o.xattrs && !o.atimes && !o.backup && !o.fsync && !o.rollsum
            && !o.itemize && !o.quiet && !o.include_root_component,
        o.max_delete is None && o.jobs is None && o.bwlimit is None,
        o.exclude@.len() == 0 && o.includes@.len() == 0,
        o.remote_path@.len() == 0 && o.remote_paths@.len() == 0,
        o.storage == StoragePreference::Auto && o.target_os == TargetOs::Unix,
{
}

/// The planner decides by the options of the run: each of them keeps its
/// meaning, without times to preserve only sizes are compared, and only a scope
/// that was given bounds the deletions.
pub proof fn law_plans_follow_the_options(o: ExecutorOptions, r: PlannerConfig)
    requires
        plans_as(o, r),
    ensures
        r.checksum <==> o.checksum,
        r.size_only <==> !o.preserve_times,
        r.update_only <==> o.update_only,
        r.ignore_existing <==> o.ignore_existing,
        r.existing <==> o.existing,
        r.ignore_times <==> o.ignore_times,
        r.delete <==> o.delete,
        r.preserve_perms <==> o.preserve_perms,
        r.preserve_times <==> o.preserve_times,
        r.delete_scope is None <==> o.delete_scope@.len() == 0,
        r.delete_scope matches Some(scope) ==> text::views(scope@) == text::views(o.delete_scope@),
{
}

/// A removal of sources compares digests, and so does a wish for it.
pub proof fn law_removals_are_compared(o: ExecutorOptions)
    ensures
        o.remove_source_files ==> compares_digests(o),
        o.verify ==> compares_digests(o),
        compares_digests(o) ==> o.remove_source_files || o.verify,
{
}

/// A worker count that was given is kept, but for zero, which counts as one;
/// otherwise a rotating disk gets the narrow count and any other the wide one,
/// and a storage class that was asked for wins over the one that was found.
pub proof fn law_workers_follow_the_storage(
    n: usize,
    detected: StorageClass,
    narrow: usize,
    wide: usize,
)
    ensures
        n >= 1 ==> workers(Some(n), detected, narrow, wide) == n,
        workers(Some(0), detected, narrow, wide) == 1,
        workers(None, StorageClass::Hdd, narrow, wide) == narrow,
        workers(None, StorageClass::Ssd, narrow, wide) == wide,
        workers(None, StorageClass::Unknown, narrow, wide) == wide,
        storage_of(StoragePreference::Hdd, detected) == StorageClass::Hdd,
        storage_of(StoragePreference::Ssd, detected) == StorageClass::Ssd,
        storage_of(StoragePreference::Auto, detected) == detected,
        workers(None, StorageClass::Hdd, APPLY_JOBS_HDD, APPLY_JOBS_SSD) == 1,
        workers(None, StorageClass::Ssd, APPLY_JOBS_HDD, APPLY_JOBS_SSD) == 16,
{
}

/// A scan hashes, descends and keeps links as the run asks; an archive keeps
/// every link literally.
pub proof fn law_scans_follow_the_options(o: ExecutorOptions, detected: StorageClass, r: ScanOptions)
    requires
        scans_as(o, detected, r),
    ensures
        r.hash <==> o.checksum,
        r.recursive <==> o.recursive,
        r.preserve_links <==> o.preserve_links,
        r.follow_links <==> o.follow_links,
        o.archive ==> r.literal_links,
        o.literal_links ==> r.literal_links,
        r.literal_links ==> o.archive || o.literal_links,
        r.literal_internal_links <==> o.literal_internal_links,
        r.literal_external_file_links <==> o.literal_external_file_links,
        r.literal_external_dir_links <==> o.literal_external_dir_links,
        r.target_os == o.target_os,
        r.archive <==> o.archive,
        r.xattrs <==> o.xattrs,
        r.hash_workers >= 1,
        o.jobs is None ==> r.hash_workers <= 16,
{
}

/// Only the source recreates the name of its root, and only where that was
/// asked for.
pub proof fn law_only_sources_recreate_the_root(
    o: ExecutorOptions,
    is_source: bool,
    no_perms: bool,
    r: ScanOptions,
)
    requires
        scans_side(o, is_source, no_perms, r),
    ensures
        r.is_source_scan <==> is_source,
        r.no_perms <==> no_perms,
        r.include_root_component ==> is_source && o.include_root_component,
        is_source && o.include_root_component ==> r.include_root_component,
{
}

/// The filter of a run lets pass what its patterns let pass.
pub proof fn law_filters_hold_the_patterns(o: ExecutorOptions, f: FilterSet, i: int)
    requires
        filters_as(o, f),
    ensures
        f.includes@.len() == o.includes@.len(),
        f.excludes@.len() == o.exclude@.len(),
        0 <= i < o.includes@.len() ==> f.includes@[i]@ == o.includes@[i]@,
        0 <= i < o.exclude@.len() ==> f.excludes@[i]@ == o.exclude@[i]@,
{
    assert(text::views(f.includes@).len() == f.includes@.len());
    assert(text::views(o.includes@).len() == o.includes@.len());
    assert(text::views(f.excludes@).len() == f.excludes@.len());
    assert(text::views(o.exclude@).len() == o.exclude@.len());
    if 0 <= i < o.includes@.len() {
        assert(text::views(f.includes@)[i] == text::views(o.includes@)[i]);
    }
    if 0 <= i < o.exclude@.len() {
        assert(text::views(f.excludes@)[i] == text::views(o.exclude@)[i]);
    }
}

/// Where anything may be deleted the whole destination is walked; otherwise
/// nothing is looked at in an empty one, and only what the source names in any
/// other.
pub proof fn law_deletions_need_a_full_walk(deletes: bool, root_is_empty: bool)
    ensures
        looked_at(deletes, root_is_empty) == DestScan::Full <==> deletes,
        looked_at(deletes, root_is_empty) == DestScan::Empty <==> !deletes && root_is_empty,
        looked_at(deletes, root_is_empty) == DestScan::Targeted <==> !deletes && !root_is_empty,
{
}

/// The paths that the source has as links are exactly those of the files with a
/// link target.
pub proof fn law_links_of_the_source_are_known(metas: Seq<protocol::MetaV>, i: int, k: int)
    ensures
        0 <= i < metas.len() && metas[i].link_target is Some ==> link_paths(metas).contains(
            metas[i].path,
        ),
        0 <= k < link_paths(metas).len() ==> exists|j: int|
            0 <= j < metas.len() && (#[trigger] metas[j]).link_target is Some && metas[j].path
                == link_paths(metas)[k],
{
    let linked = |m: protocol::MetaV| m.link_target is Some;
    let kept = metas.filter(linked);
    broadcast use vstd::seq_lib::group_filter_ensures;

    if 0 <= i < metas.len() && metas[i].link_target is Some {
        assert(kept.contains(metas[i]));
        let j = choose|j: int| 0 <= j < kept.len() && kept[j] == metas[i];
        assert(link_paths(metas)[j] == metas[i].path);
    }
    if 0 <= k < link_paths(metas).len() {
        assert(kept.contains(kept[k]));
        metas.lemma_filter_contains_rev(linked, kept[k]);
        let j = choose|j: int| 0 <= j < metas.len() && metas[j] == kept[k];
        assert(metas[j].path == link_paths(metas)[k]);
    }
}

/// A destination is scanned with every path that the source has as a link, and
/// without a list where it has none.
pub proof fn law_scans_know_the_links_of_the_source(
    metas: Seq<protocol::MetaV>,
    r: ScanOptions,
    i: int,
)
    requires
        knows_links(metas, r),
        0 <= i < metas.len(),
        metas[i].link_target is Some,
    ensures
        r.source_link_paths is Some,
        text::views(r.source_link_paths->0@).contains(metas[i].path),
{
    law_links_of_the_source_are_known(metas, i, 0);
}

/// Where the source has no links a destination is scanned without a list of
/// them.
pub proof fn law_sources_without_links_list_none(metas: Seq<protocol::MetaV>, r: ScanOptions)
    requires
        knows_links(metas, r),
        forall|i: int| 0 <= i < metas.len() ==> (#[trigger] metas[i]).link_target is None,
    ensures
        r.source_link_paths is None,
{
    if link_paths(metas).len() > 0 {
        law_links_of_the_source_are_known(metas, 0, 0);
    }
    match r.source_link_paths {
        Some(v) => {
            assert(text::views(v@).len() == v@.len());
        },
        None => {},
    }
}

} // verus!
