//! Link and permission decisions, made once, on the source side.
//!
//! Every decision about whether content is copied, a link is recreated or an
//! entry is skipped is made at scan time; the receiver only executes the
//! resulting instructions. Nothing here touches a filesystem: what only a
//! filesystem can tell (the real path behind a link) is an argument.

use vstd::prelude::*;

use crate::host;
use crate::path;
use crate::path::Component;
use crate::protocol::TargetOs;
use crate::text;

verus! {

/// The extensions, in lower case, that mark a Windows file as executable.
pub open spec fn executable_extension(ext: Seq<char>) -> bool {
    let e = text::lowered(ext);
    ||| e == "exe"@
    ||| e == "bat"@
    ||| e == "cmd"@
    ||| e == "ps1"@
    ||| e == "sh"@
    ||| e == "pl"@
    ||| e == "py"@
    ||| e == "rb"@
    ||| e == "lua"@
}

/// Whether a path's extension marks it as executable.
pub open spec fn exec_hinted(p: Seq<char>) -> bool {
    match path::file_name_of(p) {
        Some(name) => match path::extension_of(name) {
            Some(ext) => executable_extension(ext),
            None => false,
        },
        None => false,
    }
}

/// Whether a file from a Windows source should be executable on a Unix
/// destination, judged by its extension (ASCII case ignored).
pub fn compute_exec_hint(p: &str) -> (r: bool)
    ensures
        r == exec_hinted(p@),
{
    match path::extension(p) {
        None => false,
        Some(ext) => {
            proof {
                lemma_hints_are_lower();
            }
            let e = ext.as_str();
            text::same_ignoring_case(e, "exe") || text::same_ignoring_case(e, "bat")
                || text::same_ignoring_case(e, "cmd") || text::same_ignoring_case(e, "ps1")
                || text::same_ignoring_case(e, "sh") || text::same_ignoring_case(e, "pl")
                || text::same_ignoring_case(e, "py") || text::same_ignoring_case(e, "rb")
                || text::same_ignoring_case(e, "lua")
        },
    }
}

proof fn lemma_hints_are_lower()
    ensures
        text::lowered("exe"@) == "exe"@,
        text::lowered("bat"@) == "bat"@,
        text::lowered("cmd"@) == "cmd"@,
        text::lowered("ps1"@) == "ps1"@,
        text::lowered("sh"@) == "sh"@,
        text::lowered("pl"@) == "pl"@,
        text::lowered("py"@) == "py"@,
        text::lowered("rb"@) == "rb"@,
        text::lowered("lua"@) == "lua"@,
{
    reveal_strlit("exe");
    reveal_strlit("bat");
    reveal_strlit("cmd");
    reveal_strlit("ps1");
    reveal_strlit("sh");
    reveal_strlit("pl");
    reveal_strlit("py");
    reveal_strlit("rb");
    reveal_strlit("lua");
    assert(text::lowered("exe"@) =~= "exe"@);
    assert(text::lowered("bat"@) =~= "bat"@);
    assert(text::lowered("cmd"@) =~= "cmd"@);
    assert(text::lowered("ps1"@) =~= "ps1"@);
    assert(text::lowered("sh"@) =~= "sh"@);
    assert(text::lowered("pl"@) =~= "pl"@);
    assert(text::lowered("py"@) =~= "py"@);
    assert(text::lowered("rb"@) =~= "rb"@);
    assert(text::lowered("lua"@) =~= "lua"@);
}

/// The default permission bits of a directory (`rwxr-xr-x`) or a file
/// (`rw-r--r--`).
pub open spec fn default_mode(wide: bool) -> u32 {
    if wide {
        0o755
    } else {
        0o644
    }
}

/// The permission bits that a transferred entry carries.
pub open spec fn wire_mode(
    source_os: TargetOs,
    raw_mode: u32,
    is_dir: bool,
    exec_hint: bool,
    no_perms: bool,
    keep_special_bits: bool,
) -> u32 {
    if no_perms {
        default_mode(is_dir)
    } else if source_os == TargetOs::Windows {
        default_mode(is_dir || exec_hint)
    } else if keep_special_bits {
        raw_mode & 0o7777
    } else {
        raw_mode & 0o777
    }
}

/// The permission bits that a transferred entry carries. The target's
/// operating system has no influence: the receiver applies the value or
/// ignores it.
pub fn final_mode(
    source_os: TargetOs,
    _target_os: TargetOs,
    raw_mode: u32,
    is_dir: bool,
    exec_hint: bool,
    no_perms: bool,
    keep_special_bits: bool,
) -> (mode: u32)
    ensures
        mode == wire_mode(source_os, raw_mode, is_dir, exec_hint, no_perms, keep_special_bits),
{
    if no_perms {
        return if is_dir {
            0o755
        } else {
            0o644
        };
    }
    match source_os {
        TargetOs::Unix => {
            if keep_special_bits {
                raw_mode & 0o7777
            } else {
                raw_mode & 0o777
            }
        },
        TargetOs::Windows => {
            if is_dir || exec_hint {
                0o755
            } else {
                0o644
            }
        },
    }
}

/// Without archive mode the set-user, set-group and sticky bits never travel;
/// with it, nothing above them does.
pub proof fn law_special_bits_need_archive(
    source_os: TargetOs,
    raw_mode: u32,
    is_dir: bool,
    exec_hint: bool,
    no_perms: bool,
    keep_special_bits: bool,
)
    ensures
        wire_mode(source_os, raw_mode, is_dir, exec_hint, no_perms, keep_special_bits) <= 0o7777,
        !keep_special_bits ==> wire_mode(
            source_os,
            raw_mode,
            is_dir,
            exec_hint,
            no_perms,
            keep_special_bits,
        ) <= 0o777,
{
    assert(raw_mode & 0o7777 <= 0o7777) by (bit_vector);
    assert(raw_mode & 0o777 <= 0o777) by (bit_vector);
}

/// `n` times `..`.
pub open spec fn ups(n: nat) -> Seq<path::Comp> {
    Seq::new(n, |i: int| path::Comp::Parent)
}

/// The way from the directory `from_dir` to `to`: up to the deepest shared
/// directory, then down; `.` when they are the same.
pub open spec fn relative(from_dir: Seq<char>, to: Seq<char>) -> Seq<char> {
    let from = path::comps(from_dir);
    let dest = path::comps(to);
    let common = path::common_len(from, dest);
    let way = path::render(ups((from.len() - common) as nat) + dest.skip(common));
    if way.len() == 0 {
        seq!['.']
    } else {
        way
    }
}

/// The relative path from the directory `from_dir` to `to`. Purely lexical.
pub fn rel_path(from_dir: &str, to: &str) -> (out: String)
    ensures
        out@ == relative(from_dir@, to@),
{
    let from = path::components(from_dir);
    let dest = path::components(to);
    let common = path::shared(&from, &dest);
    let mut way: Vec<Component> = Vec::new();
    let mut i: usize = common;
    while i < from.len()
        invariant
            common <= i <= from.len(),
            path::comp_views(way@) == ups((i - common) as nat),
        decreases from.len() - i,
    {
        let ghost before = way@;
        way.push(Component::ParentDir);
        assert(path::comp_views(way@) =~= path::comp_views(before).push(path::Comp::Parent));
        assert(path::comp_views(way@) =~= ups((i + 1 - common) as nat));
        i += 1;
    }
    let ghost up = path::comp_views(way@);
    let mut j: usize = common;
    assert(path::comp_views(dest@).subrange(common as int, common as int) =~= Seq::empty());
    while j < dest.len()
        invariant
            common <= j <= dest.len(),
            path::comp_views(way@) == up + path::comp_views(dest@).subrange(
                common as int,
                j as int,
            ),
        decreases dest.len() - j,
    {
        let c = copy_component(&dest[j]);
        let ghost before = way@;
        way.push(c);
        proof {
            assert(path::comp_views(way@) =~= path::comp_views(before).push(c@));
            assert(path::comp_views(way@) =~= up + path::comp_views(dest@).subrange(
                common as int,
                j + 1,
            ));
        }
        j += 1;
    }
    let out = path::assemble(&way, 0, way.len());
    proof {
        assert(path::comp_views(way@).subrange(0, way.len() as int) =~= path::comp_views(way@));
        assert(path::comp_views(dest@).subrange(common as int, dest.len() as int)
            =~= path::comp_views(dest@).skip(common as int));
    }
    if out.as_str().is_empty() {
        let mut dot = String::new();
        dot.push('.');
        assert(dot@ =~= seq!['.']);
        dot
    } else {
        out
    }
}

/// A copy of a component.
fn copy_component(c: &Component) -> (out: Component)
    ensures
        out@ == c@,
{
    match c {
        Component::RootDir => Component::RootDir,
        Component::CurDir => Component::CurDir,
        Component::ParentDir => Component::ParentDir,
        Component::Normal(s) => Component::Normal(text::copy_str(s.as_str())),
    }
}

/// The directory of a path, or the empty path where there is none.
pub open spec fn dir_of(p: Seq<char>) -> Seq<char> {
    match path::parent_of(p) {
        Some(d) => d,
        None => Seq::empty(),
    }
}

/// The directory of a path, or the empty path where there is none.
fn directory(p: &str) -> (out: String)
    ensures
        out@ == dir_of(p@),
{
    match path::parent(p) {
        Some(d) => d,
        None => String::new(),
    }
}

/// The target of an internal link, relative to the link's own directory.
pub open spec fn rewritten(link_rel: Seq<char>, target_rel: Seq<char>) -> Seq<char> {
    text::swap_char(relative(dir_of(link_rel), target_rel), '\\', '/')
}

/// Rewrite an internal link's target so that it resolves inside the
/// destination: the target's path in the tree, relative to the link's own
/// directory, slash-separated.
pub fn rewrite_internal_target(link_rel: &str, target_rel: &str) -> (out: String)
    ensures
        out@ == rewritten(link_rel@, target_rel@),
{
    let dir = directory(link_rel);
    let way = rel_path(dir.as_str(), target_rel);
    text::replace_char(way.as_str(), '\\', '/')
}

/// How a link's target lies relative to the scan root.
#[derive(Debug, Clone, Copy, PartialEq, Eq, Structural)]
pub enum LinkClass {
    /// Inside the root.
    Internal,
    /// Outside the root, a file.
    ExternalFile,
    /// Outside the root, a directory.
    ExternalDir,
    /// Unresolvable, and pointing outside the root.
    DanglingExternal,
}

/// The real path behind a link, as the filesystem resolved it.
#[derive(Debug, Clone)]
pub struct RealPath {
    /// The canonical path.
    pub path: String,
    /// Whether it is a directory.
    pub is_dir: bool,
}

/// Where a link's literal target, as the operating system reads it, points:
/// absolute targets stand for themselves, relative ones are taken from the
/// link's directory. The link's path and the result are portable.
pub open spec fn resolved(os: TargetOs, link_path: Seq<char>, target: Seq<char>) -> Seq<char> {
    let dir = match host::parent_of(os, link_path) {
        Some(d) => d,
        None => Seq::empty(),
    };
    host::joined(os, dir, host::portable(os, target))
}

/// The class of a link whose real path is known, or not.
pub open spec fn link_class(
    os: TargetOs,
    link_path: Seq<char>,
    target: Seq<char>,
    root: Seq<char>,
    canonical: Option<(Seq<char>, bool)>,
) -> LinkClass {
    match canonical {
        None => if path::under(normalized_in(os, resolved(os, link_path, target)), root) {
            LinkClass::Internal
        } else {
            LinkClass::DanglingExternal
        },
        Some(r) => if path::under(r.0, root) {
            LinkClass::Internal
        } else if r.1 {
            LinkClass::ExternalDir
        } else {
            LinkClass::ExternalFile
        },
    }
}

/// The model of an optional real path.
pub open spec fn real_view(canonical: Option<RealPath>) -> Option<(Seq<char>, bool)> {
    match canonical {
        Some(r) => Some((r.path@, r.is_dir)),
        None => None,
    }
}

/// Classify the link at `link_path` with the literal `target` against the
/// canonical scan `root`. `canonical` is the canonical form of the resolved target
/// ([`resolve_target`]); a target that does not resolve is judged by its text.
pub fn classify_link(
    os: TargetOs,
    link_path: &str,
    target: &str,
    root: &str,
    canonical: &Option<RealPath>,
) -> (r: LinkClass)
    ensures
        r == link_class(os, link_path@, target@, root@, real_view(*canonical)),
{
    match canonical {
        None => {
            let full = resolve_target(os, link_path, target);
            let plain = lexical_normalize_in(os, full.as_str());
            if path::starts_with(plain.as_str(), root) {
                LinkClass::Internal
            } else {
                LinkClass::DanglingExternal
            }
        },
        Some(found) => {
            if path::starts_with(found.path.as_str(), root) {
                LinkClass::Internal
            } else if found.is_dir {
                LinkClass::ExternalDir
            } else {
                LinkClass::ExternalFile
            }
        },
    }
}

/// Resolve a link's literal `target` against the link's directory.
pub fn resolve_target(os: TargetOs, link_path: &str, target: &str) -> (out: String)
    ensures
        out@ == resolved(os, link_path@, target@),
{
    let dir = match host::parent(os, link_path) {
        Some(d) => d,
        None => String::new(),
    };
    let there = host::to_portable(os, target);
    proof {
        assert(host::parent_of(os, link_path@) is None ==> dir@ =~= Seq::<char>::empty());
    }
    host::join(os, dir.as_str(), there.as_str())
}

/// On Unix a target is taken as it is written.
pub proof fn law_unix_targets_are_verbatim(link_path: Seq<char>, target: Seq<char>)
    ensures
        path::is_absolute(target) ==> resolved(TargetOs::Unix, link_path, target) == target,
        !path::is_absolute(target) ==> resolved(TargetOs::Unix, link_path, target)
            == path::joined(dir_of(link_path), target),
{
    host::lemma_unix(dir_of(link_path), target);
    host::lemma_unix(Seq::empty(), link_path);
}

/// A sequence of components with `.` dropped and every `..` cancelling the
/// name before it; a `..` with no name before it is dropped.
pub open spec fn normal(cs: Seq<path::Comp>) -> Seq<path::Comp>
    decreases cs.len(),
{
    if cs.len() == 0 {
        cs
    } else {
        let front = normal(cs.drop_last());
        match cs.last() {
            path::Comp::Parent => if front.len() > 0 && front.last() is Name {
                front.drop_last()
            } else {
                front
            },
            path::Comp::Cur => front,
            c => front.push(c),
        }
    }
}

/// A path without `.` and `..`.
pub open spec fn normalized(p: Seq<char>) -> Seq<char> {
    path::render(normal(path::comps(p)))
}

/// Normalize `.` and `..` lexically.
pub fn lexical_normalize(p: &str) -> (out: String)
    ensures
        out@ == normalized(p@),
{
    let cs = path::components(p);
    let ghost all = path::comp_views(cs@);
    let mut parts: Vec<Component> = Vec::new();
    let mut i: usize = 0;
    assert(all.take(0) =~= Seq::empty());
    assert(path::comp_views(parts@) =~= Seq::empty());
    while i < cs.len()
        invariant
            i <= cs.len(),
            all == path::comp_views(cs@),
            path::comp_views(parts@) == normal(all.take(i as int)),
        decreases cs.len() - i,
    {
        let ghost front = parts@;
        proof {
            assert(all.take(i + 1).drop_last() =~= all.take(i as int));
            assert(all.take(i + 1).last() == cs[i as int]@);
        }
        match &cs[i] {
            Component::ParentDir => {
                let n: usize = parts.len();
                let cancels = if n > 0 {
                    assert(path::comp_views(front).last() == front[n - 1]@);
                    matches!(&parts[n - 1], Component::Normal(_))
                } else {
                    false
                };
                if cancels {
                    parts.pop();
                    assert(path::comp_views(parts@) =~= path::comp_views(front).drop_last());
                }
            },
            Component::CurDir => {},
            other => {
                let c = copy_component(other);
                parts.push(c);
                assert(path::comp_views(parts@) =~= path::comp_views(front).push(cs[i as int]@));
            },
        }
        i += 1;
    }
    let out = path::assemble(&parts, 0, parts.len());
    proof {
        assert(all.take(i as int) =~= all);
        assert(path::comp_views(parts@).subrange(0, parts.len() as int) =~= path::comp_views(
            parts@,
        ));
    }
    out
}

/// A portable path without `.` and `..`; its prefix stays.
pub open spec fn normalized_in(os: TargetOs, q: Seq<char>) -> Seq<char> {
    let h = host::head_len(os, q);
    q.take(h) + normalized(q.skip(h))
}

/// Normalize `.` and `..` in a portable path lexically: a `..` never climbs
/// above the root or a prefix.
pub fn lexical_normalize_in(os: TargetOs, q: &str) -> (out: String)
    ensures
        out@ == normalized_in(os, q@),
{
    let (head, rest) = host::split_head(os, q);
    let plain = lexical_normalize(rest.as_str());
    let mut out = head;
    text::push_text(&mut out, plain.as_str());
    out
}

/// Remove `.` and resolve `..` in the text of a path as the given operating
/// system writes it, without looking at the filesystem.
pub fn lexical_normalize_on(os: TargetOs, p: &str) -> (out: String)
    ensures
        out@ == host::native(os, normalized_in(os, host::portable(os, p@))),
{
    let q = host::to_portable(os, p);
    let plain = lexical_normalize_in(os, q.as_str());
    host::to_native(os, plain.as_str())
}

/// Whether a sequence of components is free of `.` and `..`.
pub open spec fn plain(cs: Seq<path::Comp>) -> bool {
    forall|i: int| 0 <= i < cs.len() ==> #[trigger] cs[i] is Root || cs[i] is Name
}

proof fn lemma_normal(cs: Seq<path::Comp>)
    requires
        path::proper(cs),
    ensures
        path::proper(normal(cs)),
        plain(normal(cs)),
        cs.len() > 0 && cs[0] is Root ==> normal(cs).len() > 0 && normal(cs)[0] is Root,
    decreases cs.len(),
{
    if cs.len() > 0 {
        let rest = cs.drop_last();
        assert(path::proper(rest)) by {
            assert forall|i: int| 0 <= i < rest.len() implies path::comp_ok(
                #[trigger] rest[i],
                i,
            ) by {
                assert(rest[i] == cs[i]);
            }
        }
        lemma_normal(rest);
        let front = normal(rest);
        assert(path::comp_ok(cs[cs.len() - 1], cs.len() - 1));
        let out = normal(cs);
        assert forall|i: int| 0 <= i < out.len() implies path::comp_ok(#[trigger] out[i], i) && (
        out[i] is Root || out[i] is Name) by {
            if i < front.len() {
                assert(out[i] == front[i]);
                assert(path::comp_ok(front[i], i));
            } else {
                assert(out[i] == cs.last());
                if cs.last() is Root {
                    assert(cs.len() == 1);
                    assert(front.len() == 0);
                }
            }
        }
        if cs[0] is Root && cs.len() > 1 {
            assert(rest[0] == cs[0]);
            assert(out[0] == front[0]);
        }
    }
}

proof fn lemma_normal_plain(cs: Seq<path::Comp>)
    requires
        plain(cs),
    ensures
        normal(cs) == cs,
    decreases cs.len(),
{
    if cs.len() > 0 {
        let rest = cs.drop_last();
        assert(plain(rest)) by {
            assert forall|i: int| 0 <= i < rest.len() implies #[trigger] rest[i] is Root
                || rest[i] is Name by {
                assert(rest[i] == cs[i]);
            }
        }
        lemma_normal_plain(rest);
        assert(cs[cs.len() - 1] is Root || cs[cs.len() - 1] is Name);
        assert(rest.push(cs.last()) =~= cs);
    }
}

/// A normalized path has no `.` or `..` left, and normalizing it again changes
/// nothing.
pub proof fn law_normalize_is_final(p: Seq<char>)
    ensures
        plain(path::comps(normalized(p))),
        normalized(normalized(p)) == normalized(p),
{
    path::lemma_comps_proper(p);
    lemma_normal(path::comps(p));
    path::law_render_reads_back(normal(path::comps(p)));
    lemma_normal_plain(normal(path::comps(p)));
}

/// Normalizing an absolute path gives an absolute path: `..` never climbs
/// above the root.
pub proof fn law_normalize_stays_absolute(p: Seq<char>)
    requires
        path::is_absolute(p),
    ensures
        path::comps(normalized(p)).len() > 0,
        path::comps(normalized(p))[0] is Root,
{
    path::lemma_comps_proper(p);
    assert(path::comps(p)[0] == path::path_head(p)[0]);
    lemma_normal(path::comps(p));
    path::law_render_reads_back(normal(path::comps(p)));
}

proof fn lemma_normal_step(cs: Seq<path::Comp>, c: path::Comp)
    ensures
        normal(cs.push(c)) == match c {
            path::Comp::Parent => if normal(cs).len() > 0 && normal(cs).last() is Name {
                normal(cs).drop_last()
            } else {
                normal(cs)
            },
            path::Comp::Cur => normal(cs),
            other => normal(cs).push(other),
        },
{
    assert(cs.push(c).drop_last() =~= cs);
}

/// Going up `k` times from a plain sequence whose last `k` components are
/// names leaves the rest.
proof fn lemma_normal_ups(from: Seq<path::Comp>, k: nat)
    requires
        plain(from),
        k <= from.len(),
        forall|i: int| from.len() - k <= i < from.len() ==> #[trigger] from[i] is Name,
    ensures
        normal(from + ups(k)) == from.take(from.len() - k),
    decreases k,
{
    if k == 0 {
        assert(from + ups(0) =~= from);
        lemma_normal_plain(from);
        assert(from.take(from.len() as int) =~= from);
    } else {
        let less = (k - 1) as nat;
        lemma_normal_ups(from, less);
        assert(from + ups(k) =~= (from + ups(less)).push(path::Comp::Parent));
        lemma_normal_step(from + ups(less), path::Comp::Parent);
        assert(from.take(from.len() - less).last() == from[from.len() - k]);
        assert(from.take(from.len() - less).drop_last() =~= from.take(from.len() - k));
    }
}

/// Names at the end stay.
proof fn lemma_normal_names(cs: Seq<path::Comp>, names: Seq<path::Comp>)
    requires
        forall|i: int| 0 <= i < names.len() ==> #[trigger] names[i] is Name,
    ensures
        normal(cs + names) == normal(cs) + names,
    decreases names.len(),
{
    if names.len() == 0 {
        assert(cs + names =~= cs);
        assert(normal(cs) + names =~= normal(cs));
    } else {
        let front = names.drop_last();
        assert forall|i: int| 0 <= i < front.len() implies #[trigger] front[i] is Name by {
            assert(front[i] == names[i]);
        }
        lemma_normal_names(cs, front);
        assert(names[names.len() - 1] is Name);
        assert(cs + names =~= (cs + front).push(names.last()));
        lemma_normal_step(cs + front, names.last());
        assert((normal(cs) + front).push(names.last()) =~= normal(cs) + names);
    }
}

/// Following a relative path from the directory it was computed for leads to
/// the place it was computed to, for any two plain paths that are both
/// absolute or both relative.
pub proof fn law_rel_path_leads_there(from_dir: Seq<char>, to: Seq<char>)
    requires
        plain(path::comps(from_dir)),
        plain(path::comps(to)),
        path::is_absolute(from_dir) == path::is_absolute(to),
    ensures
        path::comps(normalized(path::joined(from_dir, relative(from_dir, to)))) == path::comps(to),
{
    let from = path::comps(from_dir);
    let dest = path::comps(to);
    let common = path::common_len(from, dest);
    let k = (from.len() - common) as nat;
    let down = dest.skip(common);
    let w = ups(k) + down;
    path::lemma_comps_proper(from_dir);
    path::lemma_comps_proper(to);
    path::lemma_common_len(from, dest);
    if path::is_absolute(from_dir) {
        assert(from[0] == path::path_head(from_dir)[0]);
        assert(dest[0] == path::path_head(to)[0]);
    } else {
        path::lemma_root_is_head(from_dir);
        path::lemma_root_is_head(to);
    }
    assert forall|i: int| common <= i < from.len() implies #[trigger] from[i] is Name by {
        assert(path::comp_ok(from[i], i));
    }
    assert forall|i: int| 0 <= i < down.len() implies #[trigger] down[i] is Name by {
        assert(down[i] == dest[common + i]);
        assert(path::comp_ok(dest[common + i], common + i));
    }
    assert forall|i: int| 0 <= i < w.len() implies path::comp_ok(#[trigger] w[i], 1) by {
        if i >= k {
            assert(w[i] == dest[common + (i - k)]);
            assert(path::comp_ok(dest[common + (i - k)], common + (i - k)));
        }
    }
    let there = path::joined(from_dir, relative(from_dir, to));
    lemma_normal_ups(from, k);
    lemma_normal_names(from + ups(k), down);
    assert(from + w =~= (from + ups(k)) + down);
    assert(from.take(common) + down =~= dest) by {
        assert forall|i: int| 0 <= i < common implies from[i] == dest[i] by {
            assert(from.take(common)[i] == dest.take(common)[i]);
        }
    }
    assert(normal(path::comps(there)) == dest) by {
        if w.len() > 0 {
            path::lemma_comps_joined(from_dir, w);
        } else {
            assert(w =~= Seq::empty());
            assert(relative(from_dir, to) == seq!['.']);
            assert(from =~= from.take(common));
            assert(down =~= Seq::empty());
            lemma_normal_plain(from);
            if from_dir.len() > 0 {
                path::lemma_comps_dot(from_dir);
            } else {
                path::lemma_comps_first(path::Comp::Cur);
                assert(from_dir =~= Seq::empty());
                assert(there =~= seq!['.']);
                assert(path::comps(there) =~= Seq::<path::Comp>::empty().push(path::Comp::Cur));
                lemma_normal_step(Seq::empty(), path::Comp::Cur);
                assert(from =~= Seq::empty());
            }
        }
    }
    path::law_render_reads_back(dest);
}

/// The rewritten target of an internal link, followed from the link's own
/// directory, leads to the target inside the tree: the tree needs nothing
/// outside itself.
pub proof fn law_rewritten_target_stays_inside(link_rel: Seq<char>, target_rel: Seq<char>)
    requires
        !path::is_absolute(target_rel),
        !path::is_absolute(dir_of(link_rel)),
        plain(path::comps(dir_of(link_rel))),
        plain(path::comps(target_rel)),
        !target_rel.contains('\\'),
    ensures
        path::comps(
            normalized(path::joined(dir_of(link_rel), rewritten(link_rel, target_rel))),
        ) == path::comps(target_rel),
{
    let from = dir_of(link_rel);
    let way = relative(from, target_rel);
    law_rel_path_leads_there(from, target_rel);
    assert forall|i: int| 0 <= i < way.len() implies way[i] != '\\' by {
        lemma_relative_has_no_backslash(from, target_rel);
    }
    assert(text::swap_char(way, '\\', '/') =~= way);
}

proof fn lemma_relative_has_no_backslash(from_dir: Seq<char>, to: Seq<char>)
    requires
        !to.contains('\\'),
    ensures
        forall|i: int| 0 <= i < relative(from_dir, to).len() ==> relative(from_dir, to)[i] != '\\',
{
    let from = path::comps(from_dir);
    let dest = path::comps(to);
    let common = path::common_len(from, dest);
    path::lemma_common_len(from, dest);
    let w = ups((from.len() - common) as nat) + dest.skip(common);
    path::lemma_comps_chars(to, '\\');
    assert forall|i: int| 0 <= i < w.len() implies !path::comp_text(#[trigger] w[i]).contains(
        '\\',
    ) by {
        let k = from.len() - common;
        if i >= k {
            assert(w[i] == dest[common + (i - k)]);
        } else {
            assert(w[i] == path::Comp::Parent);
        }
    }
    path::lemma_render_chars(w, '\\');
}

/// The little-endian number in the first four bytes.
pub open spec fn le_head(data: Seq<u8>) -> int {
    data[0] + 0x100 * data[1] + 0x1_0000 * data[2] + 0x100_0000 * data[3]
}

/// Whether the data starts with the header size that every shell shortcut
/// starts with, the little-endian number `0x4C`.
pub fn is_lnk_magic(data: &[u8]) -> (r: bool)
    ensures
        r == (data@.len() >= 4 && le_head(data@) == 0x4C),
{
    data.len() >= 4 && data[0] == 0x4C && data[1] == 0 && data[2] == 0 && data[3] == 0
}

/// What a Unix source sends is what `chmod` would show: the nine permission bits
/// as they are, and with archive mode the three above them too. A Windows source
/// has none, so a directory and what is hinted to be executable get
/// `rwxr-xr-x`, everything else `rw-r--r--`; without permissions everything but
/// a directory gets the latter.
pub proof fn law_permission_bits_travel_as_they_are(
    raw_mode: u32,
    is_dir: bool,
    exec_hint: bool,
    keep: bool,
)
    ensures
        wire_mode(TargetOs::Unix, raw_mode, is_dir, exec_hint, false, false) == raw_mode & 0o777,
        wire_mode(TargetOs::Unix, raw_mode, is_dir, exec_hint, false, true) == raw_mode & 0o7777,
        wire_mode(TargetOs::Windows, raw_mode, is_dir, exec_hint, false, keep) == 0o755 <==> is_dir
            || exec_hint,
        wire_mode(TargetOs::Windows, raw_mode, is_dir, exec_hint, false, keep) == 0o644 <==> !is_dir
            && !exec_hint,
        wire_mode(TargetOs::Unix, raw_mode, is_dir, exec_hint, true, keep) == 0o755 <==> is_dir,
        wire_mode(TargetOs::Unix, raw_mode, is_dir, exec_hint, true, keep) == 0o644 <==> !is_dir,
        wire_mode(TargetOs::Windows, raw_mode, is_dir, exec_hint, true, keep) == 0o755 <==> is_dir,
        wire_mode(TargetOs::Windows, raw_mode, is_dir, exec_hint, true, keep) == 0o644 <==> !is_dir,
{
}

/// A link is internal exactly when its real target lies in the root, external
/// otherwise, and then by what the target is; one that leads nowhere is judged by
/// its text.
pub proof fn law_links_are_classed_by_their_real_target(
    os: TargetOs,
    link_path: Seq<char>,
    target: Seq<char>,
    root: Seq<char>,
    actual: Seq<char>,
    is_dir: bool,
)
    ensures
        link_class(os, link_path, target, root, Some((actual, is_dir))) == LinkClass::Internal
            <==> path::comps(root).is_prefix_of(path::comps(actual)),
        !path::comps(root).is_prefix_of(path::comps(actual)) && is_dir ==> link_class(
            os,
            link_path,
            target,
            root,
            Some((actual, is_dir)),
        ) == LinkClass::ExternalDir,
        !path::comps(root).is_prefix_of(path::comps(actual)) && !is_dir ==> link_class(
            os,
            link_path,
            target,
            root,
            Some((actual, is_dir)),
        ) == LinkClass::ExternalFile,
        link_class(os, link_path, target, root, None) == LinkClass::Internal <==> path::comps(
            root,
        ).is_prefix_of(path::comps(normalized_in(os, resolved(os, link_path, target)))),
        link_class(os, link_path, target, root, None) == LinkClass::Internal || link_class(
            os,
            link_path,
            target,
            root,
            None,
        ) == LinkClass::DanglingExternal,
{
}

/// Normalizing drops every `.`, lets every `..` take back the name before it, and
/// keeps everything else in order.
pub proof fn law_dots_are_resolved(cs: Seq<path::Comp>, name: Seq<char>)
    ensures
        normal(cs.push(path::Comp::Cur)) == normal(cs),
        normal(cs.push(path::Comp::Name(name))) == normal(cs).push(path::Comp::Name(name)),
        normal(cs.push(path::Comp::Name(name)).push(path::Comp::Parent)) == normal(cs),
        normal(Seq::empty()) == Seq::<path::Comp>::empty(),
        normal(seq![path::Comp::Root]) == seq![path::Comp::Root],
        normal(seq![path::Comp::Root, path::Comp::Parent]) == seq![path::Comp::Root],
{
    lemma_normal_step(cs, path::Comp::Cur);
    lemma_normal_step(cs, path::Comp::Name(name));
    lemma_normal_step(cs.push(path::Comp::Name(name)), path::Comp::Parent);
    let up = normal(cs).push(path::Comp::Name(name));
    assert(up.drop_last() =~= normal(cs));
    let empty = Seq::<path::Comp>::empty();
    lemma_normal_step(empty, path::Comp::Root);
    lemma_normal_step(seq![path::Comp::Root], path::Comp::Parent);
    assert(empty.push(path::Comp::Root) =~= seq![path::Comp::Root]);
    assert(seq![path::Comp::Root].push(path::Comp::Parent) =~= seq![
        path::Comp::Root,
        path::Comp::Parent,
    ]);
    assert(normal(empty) == empty);
}

/// The extensions of scripts and programs hint at an executable, in upper or lower
/// case, and no other extension does.
pub proof fn law_hints_ignore_the_case(ext: Seq<char>)
    ensures
        executable_extension("exe"@),
        executable_extension("bat"@),
        executable_extension("cmd"@),
        executable_extension("ps1"@),
        executable_extension("sh"@),
        executable_extension("pl"@),
        executable_extension("py"@),
        executable_extension("rb"@),
        executable_extension("lua"@),
        executable_extension(ext) ==> 2 <= ext.len() <= 3,
        executable_extension(ext) ==> seq![
            "exe"@,
            "bat"@,
            "cmd"@,
            "ps1"@,
            "sh"@,
            "pl"@,
            "py"@,
            "rb"@,
            "lua"@,
        ].contains(text::lowered(ext)),
        executable_extension(ext) == executable_extension(text::lowered(ext)),
{
    lemma_hints_are_lower();
    let known = seq!["exe"@, "bat"@, "cmd"@, "ps1"@, "sh"@, "pl"@, "py"@, "rb"@, "lua"@];
    assert(known[0] == "exe"@ && known[1] == "bat"@ && known[2] == "cmd"@ && known[3] == "ps1"@);
    assert(known[4] == "sh"@ && known[5] == "pl"@ && known[6] == "py"@ && known[7] == "rb"@);
    assert(known[8] == "lua"@);
    assert(text::lowered(text::lowered(ext)) =~= text::lowered(ext));
    reveal_strlit("exe");
    reveal_strlit("bat");
    reveal_strlit("cmd");
    reveal_strlit("ps1");
    reveal_strlit("sh");
    reveal_strlit("pl");
    reveal_strlit("py");
    reveal_strlit("rb");
    reveal_strlit("lua");
}

/// Only the extension of a name hints that a file is executable: a name without
/// one never does, whatever it is.
pub proof fn law_only_extensions_hint(dir: Seq<char>, rest: Seq<char>, ext: Seq<char>)
    requires
        rest.len() > 0,
        !rest.contains('/'),
        ext.len() > 0,
        !ext.contains('/'),
        !ext.contains('.'),
    ensures
        exec_hinted(path::joined(dir, rest + seq!['.'] + ext)) <==> executable_extension(ext),
        !exec_hinted(path::joined(dir, ext)),
        !exec_hinted(path::joined(dir, seq!['.'] + ext)),
        !exec_hinted(Seq::empty()),
{
    path::lemma_dotted(rest, ext);
    path::lemma_dotted(Seq::empty(), ext);
    assert(Seq::<char>::empty() + seq!['.'] + ext =~= seq!['.'] + ext);
    assert(ext != seq!['.'] && ext != seq!['.', '.']) by {
        assert(ext.contains(ext[0]));
    }
    path::law_names_extend_a_path(dir, rest + seq!['.'] + ext);
    path::law_names_extend_a_path(dir, seq!['.'] + ext);
    path::law_names_extend_a_path(dir, ext);
    path::law_the_last_dot_begins_the_extension(rest, ext);
    path::lemma_comps_first(path::Comp::Root);
}

/// The way to a path below a directory leads down only, by the names behind the
/// directory's, and the way to the directory itself is a dot.
pub proof fn law_ways_down_do_not_climb(from_dir: Seq<char>, to: Seq<char>)
    requires
        path::under(to, from_dir),
    ensures
        path::comps(to) == path::comps(from_dir) ==> relative(from_dir, to) == seq!['.'],
        path::comps(to).len() > path::comps(from_dir).len() && path::comps(from_dir).len() > 0
            ==> path::comps(relative(from_dir, to)) == path::comps(to).skip(
            path::comps(from_dir).len() as int,
        ),
{
    let from = path::comps(from_dir);
    let dest = path::comps(to);
    path::lemma_common_len_is(from, dest, from.len() as int);
    let rest = dest.skip(from.len() as int);
    let way = ups(0) + rest;
    assert(way =~= rest);
    if dest == from {
        assert(rest =~= Seq::<path::Comp>::empty());
    }
    if dest.len() > from.len() && from.len() > 0 {
        path::lemma_comps_proper(to);
        assert forall|i: int| 0 <= i < rest.len() implies path::comp_ok(#[trigger] rest[i], 1) by {
            assert(path::comp_ok(dest[i + from.len()], i + from.len()));
        }
        path::lemma_comps_joined(Seq::empty(), rest);
        path::lemma_comps_first(path::Comp::Root);
        assert(path::joined(Seq::empty(), path::render(rest)) =~= path::render(rest));
        assert(Seq::<path::Comp>::empty() + rest =~= rest);
    }
}

/// On Unix a path has no prefix to keep, and climbing from nowhere leads
/// nowhere.
pub proof fn law_unix_paths_are_normalized_whole(p: Seq<char>, cs: Seq<path::Comp>)
    ensures
        normalized_in(TargetOs::Unix, p) == normalized(p),
        normal(cs).len() == 0 ==> normal(cs.push(path::Comp::Parent)).len() == 0,
{
    assert(p.take(0) + normalized(p.skip(0)) =~= normalized(p)) by {
        assert(p.skip(0) =~= p);
    }
    assert(cs.push(path::Comp::Parent).drop_last() =~= cs);
}

} // verus!
