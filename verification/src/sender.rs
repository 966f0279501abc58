//! The sender's decisions: what is deleted, which way each file travels, in
//! which order things happen, and when a source may be removed.

use vstd::prelude::*;

use crate::basis;
use crate::basis::BasisIndex;
use crate::filter::FilterSet;
use crate::order;
use crate::order::KeyIndex;
use crate::planner;
use crate::planner::{SyncAction, SyncTask};
use crate::protocol;
use crate::protocol::{FileKind, HardlinkSpec, LinkSpec, SpecialSpec};
use crate::scan;
use crate::scanner;
use crate::spans;
use crate::stats;
use crate::stats::{ItemizeAction, ItemizeEntry};
use crate::strategy;
use crate::strategy::{FileClass, TransferStrategy};
use crate::text;
use crate::wire;

verus! {

/// A delta with more literal bytes than this (256 MiB) is streamed instead.
pub const DELTA_LITERAL_CHUNK_LIMIT: u64 = 256 * 1024 * 1024;

/// The small-file batch is sent once it holds this many bytes (128 MiB).
pub const BATCH_BYTES_BUDGET: u64 = 128 * 1024 * 1024;

/// How many signatures one request asks for.
pub const SIGNATURE_GROUP: usize = 32;

/// How many small-file reads run at once.
pub const BATCH_READ_WINDOW: usize = 32;

/// Whether a path is one of the skipped ones or lies below one of them.
pub open spec fn protected(rel: Seq<char>, skipped: Seq<Seq<char>>) -> bool {
    exists|i: int| 0 <= i < skipped.len() && shields(#[trigger] skipped[i], rel)
}

/// Whether a skipped path shields another one from deletion.
pub open spec fn shields(skipped: Seq<char>, rel: Seq<char>) -> bool {
    rel == skipped || skipped.push('/').is_prefix_of(rel)
}

/// A text that is one of the keys, or not.
fn has_key(index: &KeyIndex, key: &Vec<char>) -> (r: bool)
    requires
        index.well_formed(),
    ensures
        r == index@.contains(key@),
{
    let found = index.find_last(key);
    proof {
        order::lemma_last_index(index@, key@);
        if index@.contains(key@) {
            let i = choose|i: int| 0 <= i < index@.len() && index@[i] == key@;
            assert(index@[i] == key@);
        }
    }
    found.is_some()
}

/// Whether `rel` is a skipped path or lies below one: the path itself and each
/// of its ancestor directories is looked up.
pub fn is_under_skipped(rel: &str, skipped: &KeyIndex) -> (r: bool)
    requires
        skipped.well_formed(),
    ensures
        r == protected(rel@, skipped@),
{
    let x = text::chars_of(rel);
    if has_key(skipped, &x) {
        proof {
            let i = choose|i: int| 0 <= i < skipped@.len() && skipped@[i] == x@;
            assert(shields(skipped@[i], rel@));
        }
        return true;
    }
    let mut dir: Vec<char> = Vec::new();
    let mut i: usize = 0;
    while i < x.len()
        invariant
            i <= x.len(),
            x@ == rel@,
            dir@ == rel@.take(i as int),
            skipped.well_formed(),
            !skipped@.contains(rel@),
            forall|k: int|
                0 <= k < i && rel@[k] == '/' ==> !skipped@.contains(#[trigger] rel@.take(k)),
        decreases x.len() - i,
    {
        if x[i] == '/' && has_key(skipped, &dir) {
            proof {
                let j = choose|j: int| 0 <= j < skipped@.len() && skipped@[j] == dir@;
                assert(dir@.push('/') =~= rel@.subrange(0, i + 1));
                assert(shields(skipped@[j], rel@));
            }
            return true;
        }
        dir.push(x[i]);
        assert(dir@ =~= rel@.take(i + 1));
        i += 1;
    }
    proof {
        if protected(rel@, skipped@) {
            let j = choose|j: int| 0 <= j < skipped@.len() && shields(#[trigger] skipped@[j], rel@);
            let s = skipped@[j];
            if rel@ != s {
                let k = s.len() as int;
                assert(s.push('/')[k] == rel@.subrange(0, k + 1)[k]);
                assert(s =~= rel@.take(k)) by {
                    assert forall|m: int| 0 <= m < k implies s[m] == rel@[m] by {
                        assert(s.push('/')[m] == rel@.subrange(0, k + 1)[m]);
                    }
                }
                assert(!skipped@.contains(rel@.take(k)));
            }
            assert(skipped@.contains(s));
        }
    }
    false
}

/// Whether a planned deletion is carried out: the filter lets the path through
/// and no skipped path shields it.
pub open spec fn goes(filter: FilterSet, skipped: Seq<Seq<char>>, t: planner::TaskV) -> bool {
    let rel = wire::wire_text(t.relative_path);
    filter.lets_pass(rel) && !protected(rel, skipped)
}

/// The paths to delete among the first `n` planned deletions: those of the
/// directories or those of everything else.
pub open spec fn going(
    filter: FilterSet,
    skipped: Seq<Seq<char>>,
    deletes: Seq<planner::TaskV>,
    n: int,
    dirs: bool,
) -> Seq<Seq<char>>
    decreases n,
{
    if n <= 0 {
        Seq::empty()
    } else {
        let front = going(filter, skipped, deletes, n - 1, dirs);
        let t = deletes[n - 1];
        if goes(filter, skipped, t) && t.is_dir == dirs {
            front.push(wire::wire_text(t.relative_path))
        } else {
            front
        }
    }
}

/// Whether these are the paths to delete: the files in plan order, then the
/// directories in descending order.
pub open spec fn delete_list(
    filter: FilterSet,
    skipped: Seq<Seq<char>>,
    deletes: Seq<planner::TaskV>,
    out: Seq<Seq<char>>,
) -> bool {
    let n = deletes.len() as int;
    let files = going(filter, skipped, deletes, n, false);
    let dirs = going(filter, skipped, deletes, n, true);
    exists|ord: Seq<usize>|
        order::orders(dirs, ord, 0, dirs.len() as int) && out == files + #[trigger] scan::arranged(
            dirs,
            ord,
        ).reverse()
}

/// The paths to delete: the files in plan order, then the directories in
/// descending order, so that children come before their parents.
pub fn delete_paths(filter: &FilterSet, skipped: &Vec<String>, deletes: &Vec<SyncTask>) -> (out: Vec<
    String,
>)
    ensures
        delete_list(
            *filter,
            text::views(skipped@),
            planner::task_views(deletes@),
            text::views(out@),
        ),
{
    let ghost dv = planner::task_views(deletes@);
    let ghost kv = text::views(skipped@);
    let index = index_texts(skipped);
    let mut out: Vec<String> = Vec::new();
    let mut dirs: Vec<String> = Vec::new();
    let mut keys: Vec<Vec<char>> = Vec::new();
    let mut i: usize = 0;
    proof {
        assert(text::views(out@) =~= Seq::empty());
        assert(text::views(dirs@) =~= Seq::empty());
        assert(order::key_views(keys@) =~= Seq::empty());
    }
    while i < deletes.len()
        invariant
            i <= deletes.len(),
            dv == planner::task_views(deletes@),
            kv == text::views(skipped@),
            index.well_formed(),
            index@ == kv,
            text::views(out@) == going(*filter, kv, dv, i as int, false),
            text::views(dirs@) == going(*filter, kv, dv, i as int, true),
            order::key_views(keys@) == text::views(dirs@),
        decreases deletes.len() - i,
    {
        let t = &deletes[i];
        assert(dv[i as int] == t@);
        let rel = wire::wire_rel(t.relative_path.as_str());
        if filter.passes(rel.as_str()) && !is_under_skipped(rel.as_str(), &index) {
            if t.is_dir {
                let key = text::chars_of(rel.as_str());
                let ghost was = dirs@;
                let ghost was_keys = keys@;
                dirs.push(rel);
                keys.push(key);
                assert(text::views(dirs@) =~= text::views(was).push(rel@));
                assert(order::key_views(keys@) =~= order::key_views(was_keys).push(rel@));
            } else {
                let ghost was = out@;
                out.push(rel);
                assert(text::views(out@) =~= text::views(was).push(rel@));
            }
        }
        i += 1;
    }
    let ord = order::sort_order(&keys);
    let ghost files = text::views(out@);
    let ghost dirv = text::views(dirs@);
    let ghost back = scan::arranged(dirv, ord@).reverse();
    assert(keys.len() == dirv.len()) by {
        assert(order::key_views(keys@).len() == keys.len());
    }
    let n: usize = ord.len();
    let mut k: usize = 0;
    assert(files + back.take(0) =~= files);
    while k < n
        invariant
            k <= n,
            n == ord.len(),
            n == dirs.len(),
            dirv == text::views(dirs@),
            order::orders(dirv, ord@, 0, dirv.len() as int),
            back == scan::arranged(dirv, ord@).reverse(),
            text::views(out@) == files + back.take(k as int),
        decreases n - k,
    {
        let at: usize = ord[n - 1 - k];
        let p = text::copy_str(dirs[at].as_str());
        let ghost was = out@;
        out.push(p);
        proof {
            assert(back[k as int] == dirv[at as int]);
            assert(text::views(out@) =~= text::views(was).push(p@));
            assert(files + back.take(k + 1) =~= (files + back.take(k as int)).push(p@));
        }
        k += 1;
    }
    proof {
        assert(back.take(k as int) =~= back);
        assert(dirv == going(*filter, kv, dv, dv.len() as int, true));
        assert(files == going(*filter, kv, dv, dv.len() as int, false));
        assert(order::orders(dirv, ord@, 0, dirv.len() as int));
        assert(text::views(out@) == files + scan::arranged(dirv, ord@).reverse());
    }
    out
}

/// The report lines for the deletions that are carried out, among the first `n`
/// planned ones.
pub open spec fn delete_report(
    filter: FilterSet,
    skipped: Seq<Seq<char>>,
    deletes: Seq<planner::TaskV>,
    n: int,
) -> Seq<stats::LineV>
    decreases n,
{
    if n <= 0 {
        Seq::empty()
    } else {
        let front = delete_report(filter, skipped, deletes, n - 1);
        let t = deletes[n - 1];
        if goes(filter, skipped, t) {
            front.push(
                stats::change(
                    ItemizeAction::Delete,
                    wire::wire_text(t.relative_path),
                    planner::kind_letter(t),
                ),
            )
        } else {
            front
        }
    }
}

/// The report lines for the deletions that are carried out.
pub fn itemize_deletes(filter: &FilterSet, skipped: &Vec<String>, deletes: &Vec<SyncTask>) -> (out:
    Vec<ItemizeEntry>)
    ensures
        stats::itemize_views(out@) == delete_report(
            *filter,
            text::views(skipped@),
            planner::task_views(deletes@),
            deletes.len() as int,
        ),
{
    let ghost dv = planner::task_views(deletes@);
    let ghost kv = text::views(skipped@);
    let index = index_texts(skipped);
    let mut out: Vec<ItemizeEntry> = Vec::new();
    let mut i: usize = 0;
    assert(stats::itemize_views(out@) =~= Seq::empty());
    while i < deletes.len()
        invariant
            i <= deletes.len(),
            dv == planner::task_views(deletes@),
            kv == text::views(skipped@),
            index.well_formed(),
            index@ == kv,
            stats::itemize_views(out@) == delete_report(*filter, kv, dv, i as int),
        decreases deletes.len() - i,
    {
        let t = &deletes[i];
        assert(dv[i as int] == t@);
        let rel = wire::wire_rel(t.relative_path.as_str());
        if filter.passes(rel.as_str()) && !is_under_skipped(rel.as_str(), &index) {
            let line = planner::itemize_entry(ItemizeAction::Delete, t);
            let ghost was = out@;
            out.push(line);
            assert(stats::itemize_views(out@) =~= stats::itemize_views(was).push(line@));
        }
        i += 1;
    }
    out
}

/// Index a list of texts.
fn index_texts(v: &Vec<String>) -> (r: KeyIndex)
    ensures
        r.well_formed(),
        r@ == text::views(v@),
{
    let mut keys: Vec<Vec<char>> = Vec::new();
    let mut i: usize = 0;
    while i < v.len()
        invariant
            i <= v.len(),
            keys.len() == i,
            forall|j: int| 0 <= j < i ==> (#[trigger] keys@[j])@ == v@[j]@,
        decreases v.len() - i,
    {
        keys.push(text::chars_of(v[i].as_str()));
        i += 1;
    }
    assert(order::key_views(keys@) =~= text::views(v@));
    KeyIndex::new(keys)
}

/// A directory is deleted only after every directory below it.
pub proof fn law_children_go_before_parents(dirs: Seq<Seq<char>>, ord: Seq<usize>, i: int, j: int)
    requires
        order::orders(dirs, ord, 0, dirs.len() as int),
        0 <= i < j < dirs.len(),
    ensures
        !scan::arranged(dirs, ord).reverse()[i].push('/').is_prefix_of(
            scan::arranged(dirs, ord).reverse()[j],
        ),
{
    let n = dirs.len() as int;
    let a = dirs[ord[n - 1 - i] as int];
    let b = dirs[ord[n - 1 - j] as int];
    assert(scan::arranged(dirs, ord).reverse()[i] == a);
    assert(scan::arranged(dirs, ord).reverse()[j] == b);
    assert(order::sorts_before(dirs, ord[n - 1 - j] as int, ord[n - 1 - i] as int));
    if a.push('/').is_prefix_of(b) {
        assert(a.is_prefix_of(b)) by {
            assert(a =~= b.subrange(0, a.len() as int)) by {
                assert forall|k: int| 0 <= k < a.len() implies a[k] == b[k] by {
                    assert(a.push('/')[k] == b.subrange(0, a.len() as int + 1)[k]);
                }
            }
        }
        text::lemma_lex_prefix(a, b);
        if text::lex_lt(b, a) {
            text::lemma_lex_trans(a, b, a);
        }
        text::lemma_lex_irrefl(a);
    }
}

/// A path that the scan skipped, and everything below it, survives a deletion.
pub proof fn law_skipped_paths_survive(
    filter: FilterSet,
    skipped: Seq<Seq<char>>,
    deletes: Seq<planner::TaskV>,
    n: int,
    dirs: bool,
    k: int,
)
    requires
        0 <= n <= deletes.len(),
        0 <= k < going(filter, skipped, deletes, n, dirs).len(),
    ensures
        !protected(going(filter, skipped, deletes, n, dirs)[k], skipped),
        filter.lets_pass(going(filter, skipped, deletes, n, dirs)[k]),
    decreases n,
{
    let front = going(filter, skipped, deletes, n - 1, dirs);
    if k < front.len() {
        law_skipped_paths_survive(filter, skipped, deletes, n - 1, dirs, k);
    }
}

/// The models of a sequence of borrowed tasks.
pub open spec fn borrowed_views(v: Seq<&SyncTask>) -> Seq<planner::TaskV> {
    v.map_values(|t: &SyncTask| t@)
}

/// Whether a task needs a signature of the destination file.
pub open spec fn needs_signature(t: planner::TaskV) -> bool {
    t.link_to is None && strategy::strategy_of(t.source_size, t.action == SyncAction::Update)
        == TransferStrategy::Delta
}

/// The paths of the first `n` tasks that need a signature.
pub open spec fn signature_paths(tasks: Seq<planner::TaskV>, n: int) -> Seq<Seq<char>>
    decreases n,
{
    if n <= 0 {
        Seq::empty()
    } else if needs_signature(tasks[n - 1]) {
        signature_paths(tasks, n - 1).push(wire::wire_text(tasks[n - 1].relative_path))
    } else {
        signature_paths(tasks, n - 1)
    }
}

/// The files whose signatures are asked for up front: those that travel as
/// deltas.
pub fn request_needed_signatures(tasks: &Vec<&SyncTask>) -> (out: Vec<String>)
    ensures
        text::views(out@) == signature_paths(borrowed_views(tasks@), tasks.len() as int),
{
    let ghost tv = borrowed_views(tasks@);
    let mut out: Vec<String> = Vec::new();
    let mut i: usize = 0;
    assert(text::views(out@) =~= Seq::empty());
    while i < tasks.len()
        invariant
            i <= tasks.len(),
            tv == borrowed_views(tasks@),
            text::views(out@) == signature_paths(tv, i as int),
        decreases tasks.len() - i,
    {
        let t = tasks[i];
        assert(tv[i as int] == t@);
        if t.link_to.is_none() && strategy::determine_strategy(
            t.source_size,
            t.action == SyncAction::Update,
        ) == TransferStrategy::Delta {
            let rel = wire::wire_rel(t.relative_path.as_str());
            let ghost was = out@;
            out.push(rel);
            assert(text::views(out@) =~= text::views(was).push(rel@));
        }
        i += 1;
    }
    out
}

/// The signature requests for `count` paths: consecutive groups.
pub fn signature_groups(count: usize) -> (groups: Vec<(usize, usize)>)
    ensures
        spans::cuts(groups@, count as int, SIGNATURE_GROUP as int),
{
    spans::cut(count, SIGNATURE_GROUP)
}

/// The paths of the directories among the first `n` tasks.
pub open spec fn directory_paths(tasks: Seq<planner::TaskV>, n: int) -> Seq<Seq<char>>
    decreases n,
{
    if n <= 0 {
        Seq::empty()
    } else if tasks[n - 1].is_dir {
        directory_paths(tasks, n - 1).push(wire::wire_text(tasks[n - 1].relative_path))
    } else {
        directory_paths(tasks, n - 1)
    }
}

/// The directories to create before anything else.
pub fn make_dirs(tasks: &Vec<&SyncTask>) -> (out: Vec<String>)
    ensures
        text::views(out@) == directory_paths(borrowed_views(tasks@), tasks.len() as int),
{
    let ghost tv = borrowed_views(tasks@);
    let mut out: Vec<String> = Vec::new();
    let mut i: usize = 0;
    assert(text::views(out@) =~= Seq::empty());
    while i < tasks.len()
        invariant
            i <= tasks.len(),
            tv == borrowed_views(tasks@),
            text::views(out@) == directory_paths(tv, i as int),
        decreases tasks.len() - i,
    {
        let t = tasks[i];
        assert(tv[i as int] == t@);
        if t.is_dir {
            let rel = wire::wire_rel(t.relative_path.as_str());
            let ghost was = out@;
            out.push(rel);
            assert(text::views(out@) =~= text::views(was).push(rel@));
        }
        i += 1;
    }
    out
}

/// The paths of the files whose attributes alone are re-applied.
pub open spec fn attribute_paths(tasks: Seq<planner::TaskV>) -> Seq<Seq<char>> {
    tasks.map_values(|t: planner::TaskV| wire::wire_text(t.relative_path))
}

/// The files whose attributes alone are re-applied.
pub fn set_meta(tasks: &Vec<SyncTask>) -> (out: Vec<String>)
    ensures
        text::views(out@) == attribute_paths(planner::task_views(tasks@)),
{
    let ghost f = |t: planner::TaskV| wire::wire_text(t.relative_path);
    let ghost tv = planner::task_views(tasks@);
    let mut out: Vec<String> = Vec::new();
    let mut i: usize = 0;
    assert(text::views(out@) =~= tv.take(0).map_values(f));
    while i < tasks.len()
        invariant
            i <= tasks.len(),
            f == (|t: planner::TaskV| wire::wire_text(t.relative_path)),
            tv == planner::task_views(tasks@),
            text::views(out@) == tv.take(i as int).map_values(f),
        decreases tasks.len() - i,
    {
        let rel = wire::wire_rel(tasks[i].relative_path.as_str());
        let ghost was = out@;
        out.push(rel);
        proof {
            assert(tv[i as int] == tasks@[i as int]@);
            assert(text::views(out@) =~= text::views(was).push(rel@));
            assert(tv.take(i + 1).map_values(f) =~= tv.take(i as int).map_values(f).push(rel@));
        }
        i += 1;
    }
    assert(tv.take(i as int) =~= tv);
    out
}

/// Which way a task travels.
#[derive(Debug, Clone, Copy, PartialEq, Eq, Structural)]
pub enum Route {
    /// Among the directories created first.
    Directory,
    /// Among the links created last.
    Link,
    /// Among the hard links created last.
    HardLink,
    /// Among the special files created last.
    Special,
    /// Not at all.
    Ignored,
    /// In the small-file batch.
    Batch,
    /// As a delta against a sibling file.
    CrossDelta,
    /// As a delta against the destination file.
    Delta,
    /// As one literal.
    WholeLiteral,
    /// As a stream of chunks.
    Chunked,
}

/// Whether a task carries the content of a regular file.
pub open spec fn has_content(t: planner::TaskV) -> bool {
    !t.is_dir && t.link_target is None && t.link_to is None && t.special is None
}

/// The content tasks among the first `n` that can serve as a basis.
pub open spec fn registered(tasks: Seq<planner::TaskV>, n: int) -> Seq<(u64, Seq<char>)>
    decreases n,
{
    if n <= 0 {
        Seq::empty()
    } else {
        let front = registered(tasks, n - 1);
        let t = tasks[n - 1];
        if has_content(t) && t.source_size >= basis::CROSS_BASIS_MIN / 2 {
            front.push((t.source_size, wire::wire_text(t.relative_path)))
        } else {
            front
        }
    }
}

/// The sibling that the task at position `k` is sent as a delta against: the
/// best one among the earlier tasks, for a new file of some size.
pub open spec fn basis_of(tasks: Seq<planner::TaskV>, k: int) -> Option<Seq<char>> {
    let t = tasks[k];
    let earlier = registered(tasks, k);
    let b = basis::best_basis(
        earlier,
        wire::wire_text(t.relative_path),
        t.source_size,
        earlier.len() as int,
    );
    if has_content(t) && strategy::strategy_of(t.source_size, t.action == SyncAction::Update)
        == TransferStrategy::Copy && t.source_size >= basis::CROSS_BASIS_MIN && b >= 0 {
        Some(earlier[b].1)
    } else {
        None
    }
}

/// The siblings of all tasks.
pub open spec fn bases_of(tasks: Seq<planner::TaskV>) -> Seq<Option<Seq<char>>> {
    Seq::new(tasks.len(), |k: int| basis_of(tasks, k))
}

/// Whether some task is sent as a delta against the path `rel`.
pub open spec fn referenced(bases: Seq<Option<Seq<char>>>, rel: Seq<char>) -> bool {
    bases.contains(Some(rel))
}

/// Which way a task travels, given its own sibling and whether it is the
/// sibling of another.
pub open spec fn route_of(
    t: planner::TaskV,
    archive: bool,
    basis: Option<Seq<char>>,
    is_reference: bool,
) -> Route {
    let strategy = strategy::strategy_of(t.source_size, t.action == SyncAction::Update);
    let class = strategy::class_of(t.source_size);
    if t.is_dir {
        Route::Directory
    } else if t.link_target is Some {
        Route::Link
    } else if t.link_to is Some {
        Route::HardLink
    } else if t.special is Some {
        if archive {
            Route::Special
        } else {
            Route::Ignored
        }
    } else if strategy == TransferStrategy::Copy && class == FileClass::Small && !is_reference
        && basis is None {
        Route::Batch
    } else if basis is Some {
        Route::CrossDelta
    } else if strategy == TransferStrategy::Delta {
        Route::Delta
    } else if class != FileClass::Large {
        Route::WholeLiteral
    } else {
        Route::Chunked
    }
}

/// The models of a sequence of optional texts.
pub open spec fn opt_views(v: Seq<Option<String>>) -> Seq<Option<Seq<char>>> {
    v.map_values(|o: Option<String>| text::opt_view(o))
}

/// Whether a task carries the content of a regular file.
pub fn carries_content(t: &SyncTask) -> (r: bool)
    ensures
        r == has_content(t@),
{
    !t.is_dir && t.link_target.is_none() && t.link_to.is_none() && t.special.is_none()
}

/// The number of regular files that a run transfers.
pub fn count_files(tasks: &Vec<&SyncTask>) -> (n: usize)
    ensures
        n == borrowed_views(tasks@).filter(|t: planner::TaskV| has_content(t)).len(),
{
    let ghost f = |t: planner::TaskV| has_content(t);
    let ghost tv = borrowed_views(tasks@);
    let mut n: usize = 0;
    let mut i: usize = 0;
    assert(tv.take(0).filter(f) =~= Seq::empty()) by {
        reveal(Seq::filter);
    }
    while i < tasks.len()
        invariant
            i <= tasks.len(),
            f == (|t: planner::TaskV| has_content(t)),
            tv == borrowed_views(tasks@),
            n == tv.take(i as int).filter(f).len(),
            n <= i,
        decreases tasks.len() - i,
    {
        assert(tv[i as int] == tasks[i as int]@);
        proof {
            assert(tv.take(i + 1) =~= tv.take(i as int).push(tv[i as int]));
            tv.take(i as int).lemma_filter_push(tv[i as int], f);
        }
        if carries_content(tasks[i]) {
            n += 1;
        }
        i += 1;
    }
    assert(tv.take(i as int) =~= tv);
    n
}

/// Pair the tasks with siblings sent before them.
pub fn pair_bases(tasks: &Vec<&SyncTask>) -> (out: Vec<Option<String>>)
    ensures
        opt_views(out@) == bases_of(borrowed_views(tasks@)),
{
    let ghost tv = borrowed_views(tasks@);
    let mut index = BasisIndex::new();
    let mut out: Vec<Option<String>> = Vec::new();
    let mut i: usize = 0;
    while i < tasks.len()
        invariant
            i <= tasks.len(),
            tv == borrowed_views(tasks@),
            index.well_formed(),
            index@ == registered(tv, i as int),
            out.len() == i,
            forall|j: int| 0 <= j < i ==> text::opt_view(#[trigger] out@[j]) == basis_of(tv, j),
        decreases tasks.len() - i,
    {
        let t = tasks[i];
        assert(tv[i as int] == t@);
        let mut found: Option<String> = None;
        if carries_content(t) {
            let rel = wire::wire_rel(t.relative_path.as_str());
            if strategy::determine_strategy(t.source_size, t.action == SyncAction::Update)
                == TransferStrategy::Copy && t.source_size >= basis::CROSS_BASIS_MIN {
                found = match basis::indexed_candidate(&index, rel.as_str(), t.source_size) {
                    Some((ref_rel, _ref_size)) => Some(ref_rel),
                    None => None,
                };
            }
            basis::register_basis_entry(&mut index, rel.as_str(), t.source_size);
        }
        out.push(found);
        i += 1;
    }
    assert(opt_views(out@) =~= bases_of(tv));
    out
}

/// The routes of all tasks.
pub open spec fn routes_of(tasks: Seq<planner::TaskV>, archive: bool) -> Seq<Route> {
    let bases = bases_of(tasks);
    Seq::new(
        tasks.len(),
        |k: int|
            route_of(
                tasks[k],
                archive,
                bases[k],
                referenced(bases, wire::wire_text(tasks[k].relative_path)),
            ),
    )
}

/// Choose the way of every task. `bases` are the siblings found by
/// [`pair_bases`].
pub fn choose_routes(tasks: &Vec<&SyncTask>, archive: bool, bases: &Vec<Option<String>>) -> (out:
    Vec<Route>)
    requires
        opt_views(bases@) == bases_of(borrowed_views(tasks@)),
    ensures
        out@ == routes_of(borrowed_views(tasks@), archive),
{
    let ghost tv = borrowed_views(tasks@);
    let ghost bv = bases_of(tv);
    assert(bases.len() == tasks.len()) by {
        assert(opt_views(bases@).len() == bases.len());
    }
    let refs = index_bases(bases);
    let mut out: Vec<Route> = Vec::new();
    let mut i: usize = 0;
    while i < tasks.len()
        invariant
            i <= tasks.len(),
            tv == borrowed_views(tasks@),
            bv == bases_of(tv),
            opt_views(bases@) == bv,
            bases.len() == tasks.len(),
            refs.well_formed(),
            forall|p: Seq<char>| #[trigger] refs@.contains(p) <==> bv.contains(Some(p)),
            out.len() == i,
            forall|j: int| 0 <= j < i ==> #[trigger] out@[j] == routes_of(tv, archive)[j],
        decreases tasks.len() - i,
    {
        let t = tasks[i];
        assert(tv[i as int] == t@);
        assert(bv[i as int] == text::opt_view(bases@[i as int]));
        let rel = wire::wire_rel(t.relative_path.as_str());
        let key = text::chars_of(rel.as_str());
        let is_reference = has_key(&refs, &key);
        let route = route_task(t, archive, bases[i].is_some(), is_reference);
        out.push(route);
        i += 1;
    }
    assert(out@ =~= routes_of(tv, archive));
    out
}

/// Which way one task travels.
pub fn route_task(t: &SyncTask, archive: bool, has_basis: bool, is_reference: bool) -> (r: Route)
    ensures
        forall|basis: Option<Seq<char>>|
            basis is Some == has_basis ==> r == #[trigger] route_of(
                t@,
                archive,
                basis,
                is_reference,
            ),
{
    if t.is_dir {
        return Route::Directory;
    }
    if t.link_target.is_some() {
        return Route::Link;
    }
    if t.link_to.is_some() {
        return Route::HardLink;
    }
    if t.special.is_some() {
        return if archive {
            Route::Special
        } else {
            Route::Ignored
        };
    }
    let strategy = strategy::determine_strategy(t.source_size, t.action == SyncAction::Update);
    let class = strategy::classify_file_size(t.source_size);
    if strategy == TransferStrategy::Copy && class == FileClass::Small && !is_reference
        && !has_basis {
        Route::Batch
    } else if has_basis {
        Route::CrossDelta
    } else if strategy == TransferStrategy::Delta {
        Route::Delta
    } else if class != FileClass::Large {
        Route::WholeLiteral
    } else {
        Route::Chunked
    }
}

/// Index the siblings.
fn index_bases(bases: &Vec<Option<String>>) -> (r: KeyIndex)
    ensures
        r.well_formed(),
        forall|p: Seq<char>| #[trigger] r@.contains(p) <==> opt_views(bases@).contains(Some(p)),
{
    let ghost bv = opt_views(bases@);
    let mut keys: Vec<Vec<char>> = Vec::new();
    let mut i: usize = 0;
    while i < bases.len()
        invariant
            i <= bases.len(),
            bv == opt_views(bases@),
            forall|a: int| 0 <= a < keys.len() ==> bv.contains(Some((#[trigger] keys@[a])@)),
            forall|b: int|
                0 <= b < i && (#[trigger] bv[b]) is Some ==> order::key_views(keys@).contains(
                    bv[b]->0,
                ),
        decreases bases.len() - i,
    {
        let ghost was = keys@;
        assert(bv[i as int] == text::opt_view(bases@[i as int]));
        match &bases[i] {
            Some(b) => {
                keys.push(text::chars_of(b.as_str()));
                proof {
                    let kv = order::key_views(keys@);
                    assert(kv[kv.len() - 1] == b@);
                    assert(bv[i as int] == Some(b@));
                }
            },
            None => {},
        }
        proof {
            let kv = order::key_views(keys@);
            assert forall|b: int| 0 <= b < i + 1 && (#[trigger] bv[b]) is Some implies kv.contains(
                bv[b]->0,
            ) by {
                if b < i {
                    let wv = order::key_views(was);
                    assert(wv.contains(bv[b]->0));
                    let a = choose|a: int| 0 <= a < wv.len() && wv[a] == bv[b]->0;
                    assert(kv[a] == wv[a]);
                }
            }
        }
        i += 1;
    }
    let ghost kv = order::key_views(keys@);
    proof {
        assert forall|p: Seq<char>| #[trigger] kv.contains(p) <==> bv.contains(Some(p)) by {
            if kv.contains(p) {
                let a = choose|a: int| 0 <= a < kv.len() && kv[a] == p;
                assert(keys@[a]@ == p);
            }
            if bv.contains(Some(p)) {
                let b = choose|b: int| 0 <= b < bv.len() && bv[b] == Some(p);
                assert(bv[b] is Some);
            }
        }
    }
    KeyIndex::new(keys)
}

/// A special file is never opened for its content, and without archive mode it
/// does not travel at all.
pub proof fn law_specials_never_carry_content(
    t: planner::TaskV,
    archive: bool,
    basis: Option<Seq<char>>,
    is_reference: bool,
)
    requires
        t.special is Some,
    ensures
        ({
            let r = route_of(t, archive, basis, is_reference);
            r == Route::Directory || r == Route::Link || r == Route::HardLink || r
                == Route::Special || r == Route::Ignored
        }),
        !archive ==> route_of(t, archive, basis, is_reference) != Route::Special,
{
}

/// A file that others are sent against is never in the small-file batch, so
/// its signature is never lost.
pub proof fn law_references_are_not_batched(
    t: planner::TaskV,
    archive: bool,
    basis: Option<Seq<char>>,
)
    ensures
        route_of(t, archive, basis, true) != Route::Batch,
{
}

/// The links of the first `n` tasks.
pub open spec fn link_specs(tasks: Seq<planner::TaskV>, n: int) -> Seq<
    (Seq<char>, Seq<char>, protocol::LinkKind),
>
    decreases n,
{
    if n <= 0 {
        Seq::empty()
    } else {
        let t = tasks[n - 1];
        if !t.is_dir && t.link_target is Some {
            link_specs(tasks, n - 1).push(
                (wire::wire_text(t.relative_path), t.link_target->0, t.link_kind),
            )
        } else {
            link_specs(tasks, n - 1)
        }
    }
}

/// The hard links of the first `n` tasks.
pub open spec fn hardlink_specs(tasks: Seq<planner::TaskV>, n: int) -> Seq<(Seq<char>, Seq<char>)>
    decreases n,
{
    if n <= 0 {
        Seq::empty()
    } else {
        let t = tasks[n - 1];
        if !t.is_dir && t.link_target is None && t.link_to is Some {
            hardlink_specs(tasks, n - 1).push((wire::wire_text(t.relative_path), t.link_to->0))
        } else {
            hardlink_specs(tasks, n - 1)
        }
    }
}

/// The special files of the first `n` tasks.
pub open spec fn special_specs(tasks: Seq<planner::TaskV>, n: int, archive: bool) -> Seq<
    (Seq<char>, FileKind, Option<u64>),
>
    decreases n,
{
    if n <= 0 {
        Seq::empty()
    } else {
        let t = tasks[n - 1];
        if archive && !t.is_dir && t.link_target is None && t.link_to is None && t.special is Some {
            let (kind, rdev) = t.special->Some_0;
            special_specs(tasks, n - 1, archive).push(
                (wire::wire_text(t.relative_path), kind, rdev),
            )
        } else {
            special_specs(tasks, n - 1, archive)
        }
    }
}

/// What is created after all content: links, hard links and special files.
#[derive(Debug, Clone)]
pub struct LinkBatch {
    /// Links.
    pub links: Vec<LinkSpec>,
    /// Hard links.
    pub hardlinks: Vec<HardlinkSpec>,
    /// Special files.
    pub specials: Vec<SpecialSpec>,
}

impl LinkBatch {
    /// Whether there is nothing to create.
    pub fn is_empty(&self) -> (r: bool)
        ensures
            r == (self.links@.len() == 0 && self.hardlinks@.len() == 0 && self.specials@.len()
                == 0),
    {
        self.links.len() == 0 && self.hardlinks.len() == 0 && self.specials.len() == 0
    }
}

/// Collect what is created after all content.
pub fn collect_links(tasks: &Vec<&SyncTask>, archive: bool) -> (r: LinkBatch)
    ensures
        r.links@.map_values(|s: LinkSpec| s@) == link_specs(
            borrowed_views(tasks@),
            tasks.len() as int,
        ),
        r.hardlinks@.map_values(|s: HardlinkSpec| s@) == hardlink_specs(
            borrowed_views(tasks@),
            tasks.len() as int,
        ),
        r.specials@.map_values(|s: SpecialSpec| s@) == special_specs(
            borrowed_views(tasks@),
            tasks.len() as int,
            archive,
        ),
{
    let ghost tv = borrowed_views(tasks@);
    let ghost fl = |s: LinkSpec| s@;
    let ghost fh = |s: HardlinkSpec| s@;
    let ghost fs = |s: SpecialSpec| s@;
    let mut links: Vec<LinkSpec> = Vec::new();
    let mut hardlinks: Vec<HardlinkSpec> = Vec::new();
    let mut specials: Vec<SpecialSpec> = Vec::new();
    proof {
        assert(links@.map_values(fl) =~= Seq::empty());
        assert(hardlinks@.map_values(fh) =~= Seq::empty());
        assert(specials@.map_values(fs) =~= Seq::empty());
    }
    let mut i: usize = 0;
    while i < tasks.len()
        invariant
            i <= tasks.len(),
            tv == borrowed_views(tasks@),
            fl == (|s: LinkSpec| s@),
            fh == (|s: HardlinkSpec| s@),
            fs == (|s: SpecialSpec| s@),
            links@.map_values(fl) == link_specs(tv, i as int),
            hardlinks@.map_values(fh) == hardlink_specs(tv, i as int),
            specials@.map_values(fs) == special_specs(tv, i as int, archive),
        decreases tasks.len() - i,
    {
        let t = tasks[i];
        assert(tv[i as int] == t@);
        if !t.is_dir {
            let rel = wire::wire_rel(t.relative_path.as_str());
            match (&t.link_target, &t.link_to, t.special) {
                (Some(target), _, _) => {
                    let spec = LinkSpec {
                        path: rel,
                        target: text::copy_str(target.as_str()),
                        kind: t.link_kind,
                    };
                    let ghost was = links@;
                    links.push(spec);
                    assert(links@.map_values(fl) =~= was.map_values(fl).push(spec@));
                },
                (None, Some(target), _) => {
                    let spec = HardlinkSpec {
                        path: rel,
                        target: text::copy_str(target.as_str()),
                    };
                    let ghost was = hardlinks@;
                    hardlinks.push(spec);
                    assert(hardlinks@.map_values(fh) =~= was.map_values(fh).push(spec@));
                },
                (None, None, Some((kind, rdev))) => {
                    if archive {
                        let spec = SpecialSpec { path: rel, kind, rdev };
                        let ghost was = specials@;
                        specials.push(spec);
                        assert(specials@.map_values(fs) =~= was.map_values(fs).push(spec@));
                    }
                },
                (None, None, None) => {},
            }
        }
        i += 1;
    }
    LinkBatch { links, hardlinks, specials }
}

/// Every transfer that makes a file a hard link is announced as one, from its own
/// path to the name that holds its content.
pub proof fn law_hard_links_name_their_target(tasks: Seq<planner::TaskV>, n: int, i: int) -> (k:
    int)
    requires
        0 <= i < n <= tasks.len(),
        !tasks[i].is_dir,
        tasks[i].link_target is None,
        tasks[i].link_to is Some,
    ensures
        0 <= k < hardlink_specs(tasks, n).len(),
        hardlink_specs(tasks, n)[k].0 == wire::wire_text(tasks[i].relative_path),
        Some(hardlink_specs(tasks, n)[k].1) == tasks[i].link_to,
    decreases n,
{
    if i == n - 1 {
        hardlink_specs(tasks, n - 1).len() as int
    } else {
        law_hard_links_name_their_target(tasks, n - 1, i)
    }
}

/// Nothing else is announced as a hard link.
pub proof fn law_hard_links_come_from_tasks(tasks: Seq<planner::TaskV>, n: int, k: int) -> (i: int)
    requires
        0 <= n <= tasks.len(),
        0 <= k < hardlink_specs(tasks, n).len(),
    ensures
        k <= i < n,
        !tasks[i].is_dir,
        tasks[i].link_target is None,
        tasks[i].link_to == Some(hardlink_specs(tasks, n)[k].1),
        hardlink_specs(tasks, n)[k].0 == wire::wire_text(tasks[i].relative_path),
    decreases n,
{
    lemma_spec_counts(tasks, n);
    lemma_spec_counts(tasks, n - 1);
    if k < hardlink_specs(tasks, n - 1).len() {
        law_hard_links_come_from_tasks(tasks, n - 1, k)
    } else {
        n - 1
    }
}

proof fn lemma_spec_counts(tasks: Seq<planner::TaskV>, n: int)
    ensures
        n >= 0 ==> hardlink_specs(tasks, n).len() <= n && link_specs(tasks, n).len() <= n,
    decreases n,
{
    if n > 0 {
        lemma_spec_counts(tasks, n - 1);
    }
}

/// Where no two tasks have one path, no path is announced as a hard link twice.
pub proof fn law_hard_links_are_announced_once(
    tasks: Seq<planner::TaskV>,
    n: int,
    a: int,
    b: int,
)
    requires
        0 <= n <= tasks.len(),
        forall|i: int, j: int|
            0 <= i < j < n ==> wire::wire_text((#[trigger] tasks[i]).relative_path)
                != wire::wire_text((#[trigger] tasks[j]).relative_path),
        0 <= a < b < hardlink_specs(tasks, n).len(),
    ensures
        hardlink_specs(tasks, n)[a].0 != hardlink_specs(tasks, n)[b].0,
    decreases n,
{
    let front = hardlink_specs(tasks, n - 1);
    if b < front.len() {
        law_hard_links_are_announced_once(tasks, n - 1, a, b);
    } else {
        let i = law_hard_links_come_from_tasks(tasks, n - 1, a);
        assert(wire::wire_text(tasks[i].relative_path) != wire::wire_text(
            tasks[n - 1].relative_path,
        ));
    }
}

/// A hard link that a plan asks for leads from one name of an inode to another:
/// where no path occurs twice in the source, never to itself.
pub proof fn law_hard_links_lead_to_another_name(
    cfg: planner::PlannerConfig,
    source: Seq<scanner::EntryV>,
    dest: Seq<scanner::EntryV>,
    i: int,
)
    requires
        scanner::paths_once(source),
        0 <= i < source.len(),
        planner::transfers(cfg, source, dest, i),
        planner::task_at(cfg, source, dest, i).link_to is Some,
    ensures
        planner::task_at(cfg, source, dest, i).link_to != Some(source[i].relative_path),
        exists|j: int|
            0 <= j < source.len() && j != i && (#[trigger] source[j]).inode == source[i].inode
                && source[i].inode is Some && planner::task_at(cfg, source, dest, i).link_to
                == Some(source[j].relative_path),
{
    let j = planner::law_hardlinks_have_content(cfg, source, dest, i);
    assert(source[j].inode == source[i].inode);
    if j < i {
        assert(source[j].relative_path != source[i].relative_path);
    } else {
        assert(source[i].relative_path != source[j].relative_path);
    }
}

/// Every link is announced from its own path with its own target and kind, and
/// nothing else is announced as a link.
pub proof fn law_links_are_announced_as_planned(
    tasks: Seq<planner::TaskV>,
    n: int,
    i: int,
    k: int,
)
    requires
        0 <= n <= tasks.len(),
    ensures
        0 <= i < n && !tasks[i].is_dir && tasks[i].link_target is Some ==> link_specs(
            tasks,
            n,
        ).contains(
            (
                wire::wire_text(tasks[i].relative_path),
                tasks[i].link_target->0,
                tasks[i].link_kind,
            ),
        ),
        0 <= k < link_specs(tasks, n).len() ==> exists|j: int|
            0 <= j < n && !(#[trigger] tasks[j]).is_dir && tasks[j].link_target == Some(
                link_specs(tasks, n)[k].1,
            ) && link_specs(tasks, n)[k].0 == wire::wire_text(tasks[j].relative_path)
                && link_specs(tasks, n)[k].2 == tasks[j].link_kind,
    decreases n,
{
    if n > 0 {
        let front = link_specs(tasks, n - 1);
        let all = link_specs(tasks, n);
        law_links_are_announced_as_planned(tasks, n - 1, i, k);
        if 0 <= i < n && !tasks[i].is_dir && tasks[i].link_target is Some {
            let s = (
                wire::wire_text(tasks[i].relative_path),
                tasks[i].link_target->0,
                tasks[i].link_kind,
            );
            if i == n - 1 {
                assert(all.last() == s);
            } else {
                let a = choose|a: int| 0 <= a < front.len() && front[a] == s;
                assert(all[a] == s);
            }
        }
        if 0 <= k < all.len() {
            if k == front.len() {
                assert(tasks[n - 1].link_target == Some(all[k].1));
            } else {
                let j = choose|j: int|
                    0 <= j < n - 1 && !(#[trigger] tasks[j]).is_dir && tasks[j].link_target
                        == Some(front[k].1) && front[k].0 == wire::wire_text(
                        tasks[j].relative_path,
                    ) && front[k].2 == tasks[j].link_kind;
                assert(tasks[j].link_target == Some(all[k].1));
            }
        }
    }
}

/// In archive mode every fifo, socket and device is announced from its own path
/// with its kind and device number; without it none is.
pub proof fn law_special_files_are_announced_in_archive_mode(
    tasks: Seq<planner::TaskV>,
    n: int,
    i: int,
)
    requires
        0 <= n <= tasks.len(),
    ensures
        special_specs(tasks, n, false).len() == 0,
        0 <= i < n && planner_special(tasks[i]) ==> special_specs(tasks, n, true).contains(
            (
                wire::wire_text(tasks[i].relative_path),
                (tasks[i].special->Some_0).0,
                (tasks[i].special->Some_0).1,
            ),
        ),
    decreases n,
{
    if n > 0 {
        law_special_files_are_announced_in_archive_mode(tasks, n - 1, i);
        let front = special_specs(tasks, n - 1, true);
        let all = special_specs(tasks, n, true);
        if 0 <= i < n && planner_special(tasks[i]) {
            let s = (
                wire::wire_text(tasks[i].relative_path),
                (tasks[i].special->Some_0).0,
                (tasks[i].special->Some_0).1,
            );
            if i == n - 1 {
                assert(all.last() == s);
            } else {
                let a = choose|a: int| 0 <= a < front.len() && front[a] == s;
                assert(all[a] == s);
            }
        }
    }
}

/// Whether a task is one for a special file.
pub open spec fn planner_special(t: planner::TaskV) -> bool {
    !t.is_dir && t.link_target is None && t.link_to is None && t.special is Some
}

/// What travels how: directories, links, hard links and special files without
/// content; a file that the destination has and that is larger than 10 MiB as a
/// delta against it; a new file with a similar sibling as a delta against that; a
/// file of at most 2 MiB in a batch, unless others are sent against it; up to
/// 16 MiB as one piece; anything larger in chunks. No file with content is left
/// out.
pub proof fn law_routes_fit_the_file(
    t: planner::TaskV,
    archive: bool,
    basis: Option<Seq<char>>,
    is_reference: bool,
)
    ensures
        ({
            let r = route_of(t, archive, basis, is_reference);
            let content = !t.is_dir && t.link_target is None && t.link_to is None && t.special
                is None;
            let known = t.action == SyncAction::Update;
            &&& t.is_dir <==> r == Route::Directory
            &&& !t.is_dir && t.link_target is Some <==> r == Route::Link
            &&& !t.is_dir && t.link_target is None && t.link_to is Some <==> r == Route::HardLink
            &&& planner_special(t) && archive <==> r == Route::Special
            &&& planner_special(t) && !archive <==> r == Route::Ignored
            &&& content && basis is Some <==> r == Route::CrossDelta
            &&& content && basis is None && known && t.source_size > 10_485_760 <==> r
                == Route::Delta
            &&& content && basis is None && !is_reference && t.source_size <= 2_097_152 <==> r
                == Route::Batch
            &&& content && basis is None && !known && t.source_size > 16_777_216 <==> r
                == Route::Chunked
            &&& r == Route::WholeLiteral ==> content && basis is None && t.source_size
                <= 16_777_216
        }),
{
}

/// A planned deletion is carried out exactly when the filter lets its path
/// through and the path is neither one that the scan skipped nor below one.
pub proof fn law_deletions_are_carried_out(
    filter: FilterSet,
    skipped: Seq<Seq<char>>,
    deletes: Seq<planner::TaskV>,
    n: int,
    i: int,
)
    requires
        0 <= i < n <= deletes.len(),
    ensures
        ({
            let p = wire::wire_text(deletes[i].relative_path);
            filter.lets_pass(p) && (forall|k: int|
                0 <= k < skipped.len() ==> p != #[trigger] skipped[k]
                    && !skipped[k].push('/').is_prefix_of(p)) ==> going(
                filter,
                skipped,
                deletes,
                n,
                deletes[i].is_dir,
            ).contains(p)
        }),
    decreases n,
{
    let p = wire::wire_text(deletes[i].relative_path);
    let dirs = deletes[i].is_dir;
    if filter.lets_pass(p) && (forall|k: int|
        0 <= k < skipped.len() ==> p != #[trigger] skipped[k]
            && !skipped[k].push('/').is_prefix_of(p)) {
        let all = going(filter, skipped, deletes, n, dirs);
        assert(goes(filter, skipped, deletes[i]));
        if i == n - 1 {
            assert(all.last() == p);
        } else {
            law_deletions_are_carried_out(filter, skipped, deletes, n - 1, i);
            let front = going(filter, skipped, deletes, n - 1, dirs);
            let a = choose|a: int| 0 <= a < front.len() && front[a] == p;
            assert(all[a] == p);
        }
    }
}

/// Only planned deletions are carried out, files as files and directories as
/// directories.
pub proof fn law_only_planned_paths_are_deleted(
    filter: FilterSet,
    skipped: Seq<Seq<char>>,
    deletes: Seq<planner::TaskV>,
    n: int,
    dirs: bool,
    k: int,
) -> (i: int)
    requires
        0 <= n <= deletes.len(),
        0 <= k < going(filter, skipped, deletes, n, dirs).len(),
    ensures
        0 <= i < n,
        deletes[i].is_dir == dirs,
        going(filter, skipped, deletes, n, dirs)[k] == wire::wire_text(deletes[i].relative_path),
    decreases n,
{
    if k < going(filter, skipped, deletes, n - 1, dirs).len() {
        law_only_planned_paths_are_deleted(filter, skipped, deletes, n - 1, dirs, k)
    } else {
        n - 1
    }
}

/// A skipped path shields itself and what lies below it, and nothing else.
pub proof fn law_skipped_paths_shield_what_is_below(
    rel: Seq<char>,
    path: Seq<char>,
    name: Seq<char>,
    skipped: Seq<Seq<char>>,
)
    ensures
        skipped.contains(rel) ==> protected(rel, skipped),
        skipped.contains(path) ==> protected(path.push('/') + name, skipped),
        protected(rel, skipped) ==> exists|i: int|
            0 <= i < skipped.len() && (rel == #[trigger] skipped[i] || (rel.len()
                > skipped[i].len() && rel.take(skipped[i].len() as int) == skipped[i]
                && rel[skipped[i].len() as int] == '/')),
        !protected(rel, Seq::empty()),
{
    if skipped.contains(rel) {
        let i = choose|i: int| 0 <= i < skipped.len() && skipped[i] == rel;
        assert(shields(skipped[i], rel));
    }
    if skipped.contains(path) {
        let i = choose|i: int| 0 <= i < skipped.len() && skipped[i] == path;
        let below = path.push('/') + name;
        assert(path.push('/') =~= below.subrange(0, path.len() as int + 1));
        assert(shields(skipped[i], below));
    }
    if protected(rel, skipped) {
        let i = choose|i: int| 0 <= i < skipped.len() && shields(#[trigger] skipped[i], rel);
        let s = skipped[i];
        if rel != s {
            let d = s.push('/');
            assert(rel.subrange(0, d.len() as int) =~= d);
            assert(rel[s.len() as int] == d[s.len() as int]);
            assert(rel.take(s.len() as int) =~= s);
        }
    }
}

/// Signatures are asked for exactly for the files that travel as deltas against
/// the destination's own copy: updates of more than 10 MiB that are no hard
/// links.
pub proof fn law_signatures_are_asked_for_deltas(tasks: Seq<planner::TaskV>, n: int, i: int)
    requires
        0 <= i < n <= tasks.len(),
    ensures
        tasks[i].link_to is None && tasks[i].action == SyncAction::Update && tasks[i].source_size
            > 10_485_760 ==> signature_paths(tasks, n).contains(
            wire::wire_text(tasks[i].relative_path),
        ),
        needs_signature(tasks[i]) ==> tasks[i].link_to is None && tasks[i].action
            == SyncAction::Update && tasks[i].source_size > 10_485_760,
    decreases n,
{
    if tasks[i].link_to is None && tasks[i].action == SyncAction::Update && tasks[i].source_size
        > 10_485_760 {
        let p = wire::wire_text(tasks[i].relative_path);
        let all = signature_paths(tasks, n);
        if i == n - 1 {
            assert(all.last() == p);
        } else {
            law_signatures_are_asked_for_deltas(tasks, n - 1, i);
            let front = signature_paths(tasks, n - 1);
            let a = choose|a: int| 0 <= a < front.len() && front[a] == p;
            assert(all[a] == p);
        }
    }
}

/// Every directory that a plan transfers is created, and only directories are; in
/// the order of the plan, so that parents come before what is in them where the
/// plan has them so.
pub proof fn law_directories_are_created(tasks: Seq<planner::TaskV>, n: int, i: int, k: int)
    requires
        0 <= n <= tasks.len(),
    ensures
        0 <= i < n && tasks[i].is_dir ==> directory_paths(tasks, n).contains(
            wire::wire_text(tasks[i].relative_path),
        ),
        0 <= k < directory_paths(tasks, n).len() ==> exists|j: int|
            k <= j < n && (#[trigger] tasks[j]).is_dir && directory_paths(tasks, n)[k]
                == wire::wire_text(tasks[j].relative_path),
        directory_paths(tasks, n).len() <= n,
    decreases n,
{
    if n > 0 {
        law_directories_are_created(tasks, n - 1, i, k);
        let front = directory_paths(tasks, n - 1);
        let all = directory_paths(tasks, n);
        if 0 <= i < n && tasks[i].is_dir {
            let p = wire::wire_text(tasks[i].relative_path);
            if i == n - 1 {
                assert(all.last() == p);
            } else {
                let a = choose|a: int| 0 <= a < front.len() && front[a] == p;
                assert(all[a] == p);
            }
        }
        if 0 <= k < all.len() {
            if k == front.len() {
                assert(tasks[n - 1].is_dir);
            } else {
                let j = choose|j: int|
                    k <= j < n - 1 && (#[trigger] tasks[j]).is_dir && front[k] == wire::wire_text(
                        tasks[j].relative_path,
                    );
                assert(tasks[j].is_dir && all[k] == wire::wire_text(tasks[j].relative_path));
            }
        }
    }
}

/// Attributes are re-applied to every file of the list, under its path.
pub proof fn law_attributes_are_set_on_every_file(tasks: Seq<planner::TaskV>, i: int)
    requires
        0 <= i < tasks.len(),
    ensures
        attribute_paths(tasks).len() == tasks.len(),
        attribute_paths(tasks)[i] == wire::wire_text(tasks[i].relative_path),
{
}

/// A file is sent against a sibling only if it is new, has content of its own and
/// at least 1 MiB; the sibling is one with content that comes earlier in the run.
pub proof fn law_siblings_come_first(tasks: Seq<planner::TaskV>, k: int)
    requires
        0 <= k < tasks.len(),
        basis_of(tasks, k) is Some,
    ensures
        !tasks[k].is_dir && tasks[k].link_target is None && tasks[k].link_to is None
            && tasks[k].special is None,
        tasks[k].source_size >= 1_048_576,
        tasks[k].action != SyncAction::Update || tasks[k].source_size <= 10_485_760,
        exists|j: int|
            0 <= j < k && has_content(#[trigger] tasks[j]) && tasks[j].source_size >= 524_288
                && basis_of(tasks, k) == Some(wire::wire_text(tasks[j].relative_path)),
{
    let earlier = registered(tasks, k);
    let t = tasks[k];
    let b = basis::best_basis(
        earlier,
        wire::wire_text(t.relative_path),
        t.source_size,
        earlier.len() as int,
    );
    basis::lemma_best_below(
        earlier,
        wire::wire_text(t.relative_path),
        t.source_size,
        earlier.len() as int,
    );
    let j = lemma_registered(tasks, k, b);
}

proof fn lemma_registered(tasks: Seq<planner::TaskV>, n: int, a: int) -> (j: int)
    requires
        0 <= n <= tasks.len(),
        0 <= a < registered(tasks, n).len(),
    ensures
        0 <= j < n,
        has_content(tasks[j]),
        tasks[j].source_size >= 524_288,
        registered(tasks, n)[a] == (
            tasks[j].source_size,
            wire::wire_text(tasks[j].relative_path),
        ),
    decreases n,
{
    if a < registered(tasks, n - 1).len() {
        lemma_registered(tasks, n - 1, a)
    } else {
        n - 1
    }
}

/// Every deletion that is carried out is reported, as a deletion of its path,
/// and nothing else is.
pub proof fn law_reported_deletions_are_carried_out(
    filter: FilterSet,
    skipped: Seq<Seq<char>>,
    deletes: Seq<planner::TaskV>,
    n: int,
    k: int,
) -> (i: int)
    requires
        0 <= n <= deletes.len(),
        0 <= k < delete_report(filter, skipped, deletes, n).len(),
    ensures
        k <= i < n,
        delete_report(filter, skipped, deletes, n)[k].action == ItemizeAction::Delete,
        delete_report(filter, skipped, deletes, n)[k].path == wire::wire_text(
            deletes[i].relative_path,
        ),
        delete_report(filter, skipped, deletes, n)[k].kind == planner::kind_letter(deletes[i]),
        going(filter, skipped, deletes, n, deletes[i].is_dir).contains(
            delete_report(filter, skipped, deletes, n)[k].path,
        ),
    decreases n,
{
    let front = delete_report(filter, skipped, deletes, n - 1);
    let t = deletes[n - 1];
    let all = going(filter, skipped, deletes, n, t.is_dir);
    if goes(filter, skipped, t) && k == front.len() {
        lemma_delete_report_len(filter, skipped, deletes, n - 1);
        assert(all.last() == wire::wire_text(t.relative_path));
        n - 1
    } else {
        let i = law_reported_deletions_are_carried_out(filter, skipped, deletes, n - 1, k);
        let was = going(filter, skipped, deletes, n - 1, deletes[i].is_dir);
        let x = choose|x: int| 0 <= x < was.len() && was[x] == front[k].path;
        assert(going(filter, skipped, deletes, n, deletes[i].is_dir)[x] == was[x]);
        i
    }
}

/// No more deletions are reported than were planned.
proof fn lemma_delete_report_len(
    filter: FilterSet,
    skipped: Seq<Seq<char>>,
    deletes: Seq<planner::TaskV>,
    n: int,
)
    requires
        0 <= n <= deletes.len(),
    ensures
        delete_report(filter, skipped, deletes, n).len() <= n,
    decreases n,
{
    if n > 0 {
        lemma_delete_report_len(filter, skipped, deletes, n - 1);
    }
}

/// Every deletion that goes is reported.
pub proof fn law_deletions_are_reported(
    filter: FilterSet,
    skipped: Seq<Seq<char>>,
    deletes: Seq<planner::TaskV>,
    n: int,
    i: int,
) -> (k: int)
    requires
        0 <= i < n <= deletes.len(),
        filter.lets_pass(wire::wire_text(deletes[i].relative_path)),
        forall|j: int|
            0 <= j < skipped.len() ==> wire::wire_text(deletes[i].relative_path)
                != #[trigger] skipped[j] && !skipped[j].push('/').is_prefix_of(
                wire::wire_text(deletes[i].relative_path),
            ),
    ensures
        0 <= k < delete_report(filter, skipped, deletes, n).len(),
        delete_report(filter, skipped, deletes, n)[k].path == wire::wire_text(
            deletes[i].relative_path,
        ),
    decreases n,
{
    assert(goes(filter, skipped, deletes[i]));
    if i == n - 1 {
        delete_report(filter, skipped, deletes, n - 1).len() as int
    } else {
        law_deletions_are_reported(filter, skipped, deletes, n - 1, i)
    }
}

/// The list of deletions holds every path that goes.
pub proof fn lemma_delete_list_holds(
    filter: FilterSet,
    skipped: Seq<Seq<char>>,
    deletes: Seq<planner::TaskV>,
    out: Seq<Seq<char>>,
    path: Seq<char>,
)
    requires
        delete_list(filter, skipped, deletes, out),
    ensures
        ({
            let n = deletes.len() as int;
            going(filter, skipped, deletes, n, false).contains(path) || going(
                filter,
                skipped,
                deletes,
                n,
                true,
            ).contains(path) ==> out.contains(path)
        }),
{
    let n = deletes.len() as int;
    let files = going(filter, skipped, deletes, n, false);
    let dirs = going(filter, skipped, deletes, n, true);
    let ord = choose|ord: Seq<usize>|
        order::orders(dirs, ord, 0, dirs.len() as int) && out == files + #[trigger] scan::arranged(
            dirs,
            ord,
        ).reverse();
    if files.contains(path) {
        let x = choose|x: int| 0 <= x < files.len() && files[x] == path;
        assert(out[x] == path);
    } else if dirs.contains(path) {
        let x = choose|x: int| 0 <= x < dirs.len() && dirs[x] == path;
        assert(order::placed(ord, x));
        let y = choose|y: int| 0 <= y < ord.len() && #[trigger] ord[y] == x;
        let sorted = scan::arranged(dirs, ord);
        assert(sorted[y] == path);
        assert(sorted.reverse()[sorted.len() - 1 - y] == path);
        assert(out[files.len() + sorted.len() - 1 - y] == path);
    }
}

/// The files that can serve as a basis hold every earlier one of some size.
proof fn lemma_registered_holds(tasks: Seq<planner::TaskV>, n: int, j: int) -> (p: int)
    requires
        0 <= j < n <= tasks.len(),
        has_content(tasks[j]),
        tasks[j].source_size >= 524_288,
    ensures
        0 <= p < registered(tasks, n).len(),
        registered(tasks, n)[p] == (
            tasks[j].source_size,
            wire::wire_text(tasks[j].relative_path),
        ),
    decreases n,
{
    if j == n - 1 {
        registered(tasks, n - 1).len() as int
    } else {
        lemma_registered_holds(tasks, n - 1, j)
    }
}

/// A file of a mebibyte or more that is not compared with its own old content
/// is sent as a delta whenever an earlier file is a close sibling of it.
pub proof fn law_close_siblings_are_used(tasks: Seq<planner::TaskV>, k: int, j: int)
    requires
        0 <= j < k < tasks.len(),
        has_content(tasks[k]),
        tasks[k].source_size >= 1_048_576,
        tasks[k].action != SyncAction::Update || tasks[k].source_size <= 10_485_760,
        has_content(tasks[j]),
        tasks[j].source_size >= 524_288,
        basis::eligible(
            (tasks[j].source_size, wire::wire_text(tasks[j].relative_path)),
            wire::wire_text(tasks[k].relative_path),
            tasks[k].source_size,
        ),
    ensures
        basis_of(tasks, k) is Some,
        bases_of(tasks)[k] == basis_of(tasks, k),
{
    let p = lemma_registered_holds(tasks, k, j);
    basis::law_the_closest_candidate_is_the_basis(
        registered(tasks, k),
        wire::wire_text(tasks[k].relative_path),
        tasks[k].source_size,
        p,
    );
}

/// A file is a reference exactly when some task is sent as a delta against it.
pub proof fn law_references_are_bases(bases: Seq<Option<Seq<char>>>, rel: Seq<char>, k: int)
    ensures
        0 <= k < bases.len() && bases[k] == Some(rel) ==> referenced(bases, rel),
        referenced(bases, rel) ==> exists|i: int|
            0 <= i < bases.len() && #[trigger] bases[i] == Some(rel),
{
}

} // verus!
