//! Where the paths of a request lead on the serving side.
use vstd::prelude::*;

use crate::host;
use crate::order;
use crate::path;
use crate::path::Component;
use crate::protocol;
use crate::protocol::{ErrorV, Frame, SessionError, TargetOs};
use crate::text;

verus! {

/// The model of a result.
pub open spec fn result_view(r: Result<String, SessionError>) -> Result<Seq<char>, ErrorV> {
    match r {
        Ok(s) => Ok(s@),
        Err(e) => Err(e@),
    }
}

/// The refusal of a path.
pub open spec fn refusal(p: Seq<char>, why: Seq<char>) -> ErrorV {
    ErrorV::Other("Unsafe path '"@ + p + "': "@ + why)
}

/// The refusal of a path.
fn refuse(p: &str, why: &str) -> (e: SessionError)
    ensures
        e@ == refusal(p@, why@),
{
    let mut m = text::copy_str("Unsafe path '");
    text::push_text(&mut m, p);
    text::push_text(&mut m, "': ");
    text::push_text(&mut m, why);
    SessionError::Other(m)
}

/// The names in a relative path: its components without a leading `.`.
pub open spec fn names_of(p: Seq<char>) -> Seq<path::Comp> {
    let cs = path::comps(p);
    if cs.len() > 0 && cs[0] is Cur {
        cs.skip(1)
    } else {
        cs
    }
}

/// Where a path below `root` leads, or why it is not let through: neither an
/// absolute path nor one that climbs is.
pub open spec fn below(os: TargetOs, root: Seq<char>, rel: Seq<char>) -> Result<
    Seq<char>,
    Seq<char>,
> {
    let q = host::portable(os, rel);
    if path::is_absolute(q) {
        Err("absolute paths are not allowed"@)
    } else if host::climbs(os, rel) {
        Err(".. is not allowed"@)
    } else if names_of(q).len() == 0 {
        Ok(root)
    } else {
        Ok(path::joined(root, path::render(names_of(q))))
    }
}

/// A path below `root`, or its refusal.
pub open spec fn sanitized(os: TargetOs, root: Seq<char>, rel: Seq<char>) -> Result<
    Seq<char>,
    ErrorV,
> {
    match below(os, root, rel) {
        Ok(p) => Ok(p),
        Err(why) => Err(refusal(rel, why)),
    }
}

/// Join a relative path under a root, or say why it is not let through.
pub fn join_below(os: TargetOs, root: &str, rel: &str) -> (r: Result<String, &'static str>)
    ensures
        match below(os, root@, rel@) {
            Ok(p) => r matches Ok(s) && s@ == p,
            Err(why) => r matches Err(m) && m@ == why,
        },
{
    let q = host::to_portable(os, rel);
    if path::is_absolute_path(q.as_str()) {
        return Err("absolute paths are not allowed");
    }
    if host::does_climb(os, rel) {
        return Err(".. is not allowed");
    }
    let cs = path::components(q.as_str());
    let ghost cv = path::comp_views(cs@);
    let mut from: usize = 0;
    if cs.len() > 0 {
        assert(cv[0] == cs@[0]@);
        match &cs[0] {
            Component::CurDir => {
                from = 1;
            },
            _ => {},
        }
    }
    if from == cs.len() {
        return Ok(text::copy_str(root));
    }
    proof {
        assert(cv.subrange(from as int, cs.len() as int) =~= names_of(q@));
    }
    let tail = path::assemble(&cs, from, cs.len());
    Ok(path::join(root, tail.as_str()))
}

/// Join a relative path under a root, rejecting traversal. The root is portable
/// ([`crate::host`]), the path is as the operating system reads it.
pub fn sanitize_join(os: TargetOs, root: &str, rel: &str) -> (r: Result<String, SessionError>)
    ensures
        result_view(r) == sanitized(os, root@, rel@),
{
    match join_below(os, root, rel) {
        Ok(p) => Ok(p),
        Err(why) => Err(refuse(rel, why)),
    }
}

/// Where a requested path leads: the empty path to the serve root, one with a
/// root or a prefix to itself, any other to below the serve root; none may
/// climb.
pub open spec fn served(os: TargetOs, root: Seq<char>, p: Seq<char>) -> Result<Seq<char>, ErrorV> {
    if p.len() == 0 {
        Ok(root)
    } else if path::is_absolute(host::portable(os, p)) {
        if host::climbs(os, p) {
            Err(refusal(p, ".. is not allowed"@))
        } else {
            Ok(host::portable(os, p))
        }
    } else {
        sanitized(os, root, p)
    }
}

/// Resolve a requested path against the serve root.
pub fn resolve_serve_path(os: TargetOs, root: &str, p: &str) -> (r: Result<String, SessionError>)
    ensures
        result_view(r) == served(os, root@, p@),
{
    let chars = text::chars_of(p);
    if chars.len() == 0 {
        return Ok(text::copy_str(root));
    }
    let q = host::to_portable(os, p);
    if path::is_absolute_path(q.as_str()) {
        if host::does_climb(os, p) {
            return Err(refuse(p, ".. is not allowed"));
        }
        return Ok(q);
    }
    sanitize_join(os, root, p)
}

/// A path that is let through below a root stays below it, and adds exactly
/// the names it consists of.
pub proof fn law_sanitized_paths_stay_inside(os: TargetOs, root: Seq<char>, rel: Seq<char>)
    requires
        sanitized(os, root, rel) is Ok,
    ensures
        path::under(sanitized(os, root, rel)->Ok_0, root),
        path::comps(sanitized(os, root, rel)->Ok_0) == path::comps(root) + names_of(
            host::portable(os, rel),
        ),
        !names_of(host::portable(os, rel)).contains(path::Comp::Parent),
{
    let q = host::portable(os, rel);
    let names = names_of(q);
    let out = sanitized(os, root, rel)->Ok_0;
    let rc = path::comps(root);
    path::lemma_comps_proper(q);
    path::lemma_root_is_head(q);
    let cs = path::comps(q);
    host::lemma_prefix_len(rel);
    assert(q == host::slashed(os, rel));
    if names.contains(path::Comp::Parent) {
        let i = choose|i: int| 0 <= i < names.len() && names[i] == path::Comp::Parent;
        let k = if cs.len() > 0 && cs[0] is Cur {
            i + 1
        } else {
            i
        };
        assert(cs[k] == path::Comp::Parent);
        assert(host::climbs(os, rel));
    }
    assert forall|i: int| 0 <= i < names.len() implies path::comp_ok(#[trigger] names[i], 1) by {
        let k = if cs.len() > 0 && cs[0] is Cur {
            i + 1
        } else {
            i
        };
        assert(names[i] == cs[k]);
        assert(path::comp_ok(cs[k], k));
    }
    if names.len() == 0 {
        assert(rc + names =~= rc);
    } else {
        path::lemma_comps_joined(root, names);
    }
    assert(rc.is_prefix_of(path::comps(out)));
}

/// No path that climbs is ever served.
pub proof fn law_climbing_paths_are_refused(os: TargetOs, root: Seq<char>, p: Seq<char>)
    requires
        host::climbs(os, p),
    ensures
        served(os, root, p) is Err,
{
    path::lemma_comps_first(path::Comp::Root);
    if p.len() == 0 {
        assert(p =~= Seq::<char>::empty());
        assert(p.skip(host::prefix_len(p)) =~= p);
        assert(host::slashed(os, p) =~= p);
    }
}

/// The characters that make a path a pattern.
pub open spec fn is_meta(c: char) -> bool {
    c == '*' || c == '?' || c == '['
}

/// The position of the first such character at or after `from`, or the length.
pub open spec fn first_meta(p: Seq<char>, from: int) -> int
    decreases p.len() - from,
{
    if from >= p.len() {
        p.len() as int
    } else if is_meta(p[from]) {
        from
    } else {
        first_meta(p, from + 1)
    }
}

proof fn lemma_first_meta(p: Seq<char>, from: int)
    requires
        0 <= from <= p.len(),
    ensures
        from <= first_meta(p, from) <= p.len(),
        first_meta(p, from) < p.len() ==> is_meta(p[first_meta(p, from)]),
        forall|i: int| from <= i < first_meta(p, from) ==> !is_meta(#[trigger] p[i]),
    decreases p.len() - from,
{
    if from < p.len() && !is_meta(p[from]) {
        lemma_first_meta(p, from + 1);
    }
}

/// The position of the first pattern character, or the length.
fn find_meta(p: &Vec<char>) -> (n: usize)
    ensures
        n == first_meta(p@, 0),
        n <= p.len(),
{
    let mut i: usize = 0;
    while i < p.len()
        invariant
            i <= p.len(),
            first_meta(p@, 0) == first_meta(p@, i as int),
        decreases p.len() - i,
    {
        if p[i] == '*' || p[i] == '?' || p[i] == '[' {
            return i;
        }
        i += 1;
    }
    i
}

/// Whether a path is a pattern.
pub open spec fn is_pattern(p: Seq<char>) -> bool {
    exists|i: int| 0 <= i < p.len() && is_meta(#[trigger] p[i])
}

/// Whether a path contains a pattern character.
pub fn has_glob_metachars(p: &str) -> (r: bool)
    ensures
        r == is_pattern(p@),
{
    let chars = text::chars_of(p);
    let at = find_meta(&chars);
    proof {
        lemma_first_meta(p@, 0);
        if at < p@.len() {
            assert(is_meta(p@[at as int]));
        }
    }
    at < chars.len()
}

/// The path to look up before a pull path is treated as a pattern: a path that
/// exists as it is written is no pattern.
pub fn literal_path(os: TargetOs, root: &str, p: &str) -> (r: Result<Option<String>, SessionError>)
    ensures
        match r {
            Ok(None) => !is_pattern(p@),
            Ok(Some(s)) => is_pattern(p@) && served(os, root@, p@) == Ok::<Seq<char>, ErrorV>(s@),
            Err(e) => is_pattern(p@) && served(os, root@, p@) == Err::<Seq<char>, ErrorV>(e@),
        },
{
    if !has_glob_metachars(p) {
        return Ok(None);
    }
    match resolve_serve_path(os, root, p) {
        Ok(s) => Ok(Some(s)),
        Err(e) => Err(e),
    }
}

/// Whether a pull path is expanded as a pattern.
pub open spec fn expands(p: Seq<char>, exists_literally: bool) -> bool {
    is_pattern(p) && !exists_literally
}

/// Whether a pull path is expanded as a pattern: it holds a pattern character
/// and does not exist as it is written.
pub fn remote_glob_needs_expansion(p: &str, exists_literally: bool) -> (r: bool)
    ensures
        r == expands(p@, exists_literally),
        r == (is_pattern(p@) && !exists_literally),
{
    has_glob_metachars(p) && !exists_literally
}

/// The position behind the last separator before `end`, or 0.
pub open spec fn behind_separator(p: Seq<char>, end: int) -> int
    decreases end,
{
    if end <= 0 {
        0
    } else if p[end - 1] == '/' || p[end - 1] == '\\' {
        end
    } else {
        behind_separator(p, end - 1)
    }
}

/// The fixed directory in front of a pattern, without its last separator; the
/// root of an absolute pattern is kept.
pub open spec fn fixed_prefix(p: Seq<char>) -> Seq<char> {
    let cut = behind_separator(p, first_meta(p, 0));
    if cut == 1 && p[0] == '/' {
        seq!['/']
    } else if cut > 0 {
        p.take(cut - 1)
    } else {
        Seq::empty()
    }
}

/// The directory that a pattern is expanded in.
pub open spec fn glob_base(
    os: TargetOs,
    root: Seq<char>,
    p: Seq<char>,
) -> Result<Seq<char>, ErrorV> {
    let prefix = fixed_prefix(p);
    if prefix.len() == 0 || prefix == seq!['.'] {
        Ok(root)
    } else if path::is_absolute(prefix) {
        Ok(host::portable(os, prefix))
    } else {
        sanitized(os, root, prefix)
    }
}

/// A pattern ready to be expanded.
#[derive(Debug, Clone)]
pub struct GlobPlan {
    /// The directory that the matches are named relative to.
    pub base: String,
    /// The whole pattern.
    pub pattern: String,
}

/// The refusal of a path that no file matches.
pub open spec fn no_match(p: Seq<char>) -> ErrorV {
    ErrorV::Other("no files match remote source pattern '"@ + p + "'"@)
}

/// What of a pattern follows its fixed directory: everything behind the last
/// separator in front of its first pattern character.
pub open spec fn varying_part(p: Seq<char>) -> Seq<char> {
    p.skip(behind_separator(p, first_meta(p, 0)))
}

/// The directory that a path is expanded in, and the whole pattern: the part
/// behind its fixed directory, looked up in that directory. A path that is no
/// pattern matches nothing, and none may climb.
pub open spec fn expansion(
    os: TargetOs,
    root: Seq<char>,
    p: Seq<char>,
) -> Result<(Seq<char>, Seq<char>), ErrorV> {
    if !is_pattern(p) {
        Err(no_match(p))
    } else if served(os, root, p) is Err {
        Err(served(os, root, p)->Err_0)
    } else {
        match glob_base(os, root, p) {
            Ok(base) => Ok((base, path::joined(base, host::slashed(os, varying_part(p))))),
            Err(e) => Err(e),
        }
    }
}

/// The model of a prepared expansion, or of its refusal.
pub open spec fn plan_view(r: Result<GlobPlan, SessionError>) -> Result<
    (Seq<char>, Seq<char>),
    ErrorV,
> {
    match r {
        Ok(plan) => Ok((plan.base@, plan.pattern@)),
        Err(e) => Err(e@),
    }
}

/// The refusal of a path that no file matches.
fn refuse_match(p: &str) -> (e: SessionError)
    ensures
        e@ == no_match(p@),
{
    let mut m = text::copy_str("no files match remote source pattern '");
    text::push_text(&mut m, p);
    text::push_text(&mut m, "'");
    SessionError::Other(m)
}

/// Prepare the expansion of a pattern.
pub fn plan_glob(os: TargetOs, root: &str, p: &str) -> (r: Result<GlobPlan, SessionError>)
    ensures
        plan_view(r) == expansion(os, root@, p@),
{
    match literal_path(os, root, p) {
        Ok(Some(_)) => {},
        Ok(None) => {
            return Err(refuse_match(p));
        },
        Err(e) => {
            return Err(e);
        },
    }
    let chars = text::chars_of(p);
    let at = find_meta(&chars);
    let mut cut: usize = at;
    while cut > 0 && chars[cut - 1] != '/' && chars[cut - 1] != '\\'
        invariant
            cut <= at <= chars.len(),
            chars@ == p@,
            behind_separator(p@, at as int) == behind_separator(p@, cut as int),
        decreases cut,
    {
        cut -= 1;
    }
    let prefix = if cut == 1 && chars[0] == '/' {
        text::string_of(&chars, 0, 1)
    } else if cut > 0 {
        text::string_of(&chars, 0, cut - 1)
    } else {
        String::new()
    };
    proof {
        if cut == 1 && p@[0] == '/' {
            assert(p@.subrange(0, 1) =~= seq!['/']);
        } else if cut > 0 {
            assert(p@.subrange(0, cut - 1) =~= p@.take(cut - 1));
        }
        assert(prefix@ =~= fixed_prefix(p@));
        assert(p@.subrange(cut as int, p@.len() as int) =~= varying_part(p@));
        reveal_strlit(".");
        assert("."@ =~= seq!['.']);
    }
    let tail = text::string_of(&chars, cut, chars.len());
    let empty = text::same(prefix.as_str(), "") || text::same(prefix.as_str(), ".");
    proof {
        reveal_strlit("");
        assert((prefix@ == ""@) == (prefix@.len() == 0)) by {
            if prefix@.len() == 0 {
                assert(prefix@ =~= ""@);
            }
        }
    }
    let base = if empty {
        text::copy_str(root)
    } else if path::is_absolute_path(prefix.as_str()) {
        host::to_portable(os, prefix.as_str())
    } else {
        match sanitize_join(os, root, prefix.as_str()) {
            Ok(b) => b,
            Err(e) => {
                return Err(e);
            },
        }
    };
    let shown = host::with_slashes(os, tail.as_str());
    let pattern = path::join(base.as_str(), shown.as_str());
    Ok(GlobPlan { base, pattern })
}

/// A pattern is expanded below its fixed directory alone: it begins with that
/// directory, and what follows never climbs.
pub proof fn law_patterns_stay_below_their_base(os: TargetOs, root: Seq<char>, p: Seq<char>)
    requires
        expansion(os, root, p) is Ok,
    ensures
        ({
            let (base, pattern) = expansion(os, root, p)->Ok_0;
            &&& path::under(pattern, base)
            &&& !path::comps(pattern).skip(path::comps(base).len() as int).contains(
                path::Comp::Parent,
            )
        }),
{
    let (base, pattern) = expansion(os, root, p)->Ok_0;
    let at = first_meta(p, 0);
    let cut = behind_separator(p, at);
    let shown = host::slashed(os, p);
    let tail = host::slashed(os, p.skip(cut));
    lemma_first_meta(p, 0);
    lemma_behind_separator(p, at);
    let i = choose|i: int| 0 <= i < p.len() && is_meta(#[trigger] p[i]);
    assert(at <= i);
    assert(tail =~= shown.skip(cut));
    assert forall|k: int| cut <= k < at implies #[trigger] shown[k] != '/' by {
        assert(p[k] != '/' && p[k] != '\\');
    }
    assert(is_meta(p[at]));
    assert(shown[at] == p[at]);
    assert(tail[0] == shown[cut]);
    lemma_tail_does_not_climb(shown, cut, at);
    let cb = path::comps(base);
    let cw = path::comps(pattern);
    let cn = path::named(text::split_on(tail, '/'));
    if base.len() > 0 {
        path::lemma_comps_relative(base, tail);
        assert(cb =~= cw.subrange(0, cb.len() as int));
        assert(cw.skip(cb.len() as int) =~= cn);
    } else {
        assert(base =~= Seq::<char>::empty());
        assert(pattern =~= tail);
        path::lemma_comps_first(path::Comp::Root);
        assert(cb =~= cw.subrange(0, 0));
        assert(cw.skip(0) =~= path::path_head(tail) + cn);
    }
}

/// No separator stands between the fixed directory and the first pattern
/// character.
proof fn lemma_behind_separator(p: Seq<char>, end: int)
    requires
        0 <= end <= p.len(),
    ensures
        0 <= behind_separator(p, end) <= end,
        forall|i: int|
            behind_separator(p, end) <= i < end ==> #[trigger] p[i] != '/' && p[i] != '\\',
    decreases end,
{
    if end > 0 && p[end - 1] != '/' && p[end - 1] != '\\' {
        lemma_behind_separator(p, end - 1);
    }
}

/// What follows the fixed directory of a pattern that does not climb does not
/// climb either: its first segment holds the pattern character at `meta`.
proof fn lemma_tail_does_not_climb(p: Seq<char>, at: int, meta: int)
    requires
        0 <= at <= meta < p.len(),
        is_meta(p[meta]),
        forall|i: int| at <= i < meta ==> #[trigger] p[i] != '/',
        !path::comps(p).contains(path::Comp::Parent),
    ensures
        !path::named(text::split_on(p.skip(at), '/')).contains(path::Comp::Parent),
        text::split_on(p.skip(at), '/')[0] != seq!['.'],
{
    let tail = p.skip(at);
    let m = meta - at;
    assert(tail[m] == p[meta]);
    assert forall|i: int| 0 <= i <= m implies #[trigger] tail[i] != '/' by {
        assert(tail[i] == p[at + i]);
    }
    text::lemma_first_of(tail, '/');
    let k = text::first_of(tail, '/');
    if tail.contains('/') {
        let t0 = tail.take(k);
        let rest = tail.skip(k + 1);
        let front = p.take(at + k);
        assert(tail =~= t0.push('/') + rest);
        assert(p =~= front.push('/') + rest);
        text::lemma_split_joined(t0, rest, '/');
        text::lemma_split_joined(front, rest, '/');
        assert forall|j: int| 0 <= j < t0.len() implies t0[j] != '/' by {
            assert(t0[j] == tail[j]);
        }
        assert(!t0.contains('/'));
        text::lemma_split_none(t0, '/');
        path::lemma_named_concat(seq![t0], text::split_on(rest, '/'));
        path::lemma_named_concat(text::split_on(front, '/'), text::split_on(rest, '/'));
        path::lemma_named_one(t0);
        assert(k > m);
        assert(t0[m] == p[meta]);
        let more = path::named(text::split_on(rest, '/'));
        let whole = path::named(text::split_on(tail, '/'));
        if whole.contains(path::Comp::Parent) {
            let j = choose|j: int| 0 <= j < whole.len() && whole[j] == path::Comp::Parent;
            assert(j > 0);
            assert(whole[j] == more[j - 1]);
            let heads = path::path_head(p) + path::named(text::split_on(front, '/'));
            assert(path::comps(p) =~= heads + more);
            assert(path::comps(p)[heads.len() + j - 1] == path::Comp::Parent);
        }
    } else {
        text::lemma_split_none(tail, '/');
        path::lemma_named_one(tail);
    }
}

/// Whether a list holds the matches of a pattern in order, name by name.
pub open spec fn in_order(matches: Seq<Seq<char>>, out: Seq<Seq<char>>) -> bool {
    exists|ord: Seq<usize>|
        #[trigger] order::orders(path::order_keys(matches), ord, 0, matches.len() as int) && out
            == ord.map_values(|k: usize| matches[k as int])
}

/// Put the matches of a pattern into order, name by name.
pub fn sort_matches(matches: &Vec<String>) -> (out: Vec<String>)
    ensures
        in_order(text::views(matches@), text::views(out@)),
        exists|ord: Seq<usize>|
            #[trigger] order::orders(
                path::order_keys(text::views(matches@)),
                ord,
                0,
                matches.len() as int,
            ) && text::views(out@) == ord.map_values(|k: usize| matches@[k as int]@),
{
    let ghost mv = text::views(matches@);
    let mut keys: Vec<Vec<char>> = Vec::new();
    let mut i: usize = 0;
    while i < matches.len()
        invariant
            i <= matches.len(),
            keys.len() == i,
            forall|j: int| 0 <= j < i ==> (#[trigger] keys@[j])@ == path::order_key(path::comps(matches@[j]@)),
        decreases matches.len() - i,
    {
        keys.push(path::sort_key(matches[i].as_str()));
        i += 1;
    }
    assert(order::key_views(keys@) =~= path::order_keys(mv));
    let ord = order::sort_order(&keys);
    let ghost g = |k: usize| matches@[k as int]@;
    let mut out: Vec<String> = Vec::new();
    let mut n: usize = 0;
    while n < ord.len()
        invariant
            n <= ord.len(),
            keys.len() == matches.len(),
            order::orders(order::key_views(keys@), ord@, 0, keys.len() as int),
            g == (|k: usize| matches@[k as int]@),
            out.len() == n,
            forall|j: int| 0 <= j < n ==> (#[trigger] out@[j])@ == g(ord@[j]),
        decreases ord.len() - n,
    {
        let k: usize = ord[n];
        out.push(text::copy_str(matches[k].as_str()));
        n += 1;
    }
    assert(text::views(out@) =~= ord@.map_values(g));
    assert(text::views(out@) =~= ord@.map_values(|k: usize| mv[k as int]));
    assert(order::orders(path::order_keys(mv), ord@, 0, mv.len() as int));
    out
}

/// What the matches of a pattern come to: they are taken in order, unless there
/// are none.
pub open spec fn accepted(
    p: Seq<char>,
    matches: Seq<Seq<char>>,
    r: Result<Vec<String>, SessionError>,
) -> bool {
    match r {
        Ok(out) => matches.len() > 0 && in_order(matches, text::views(out@)),
        Err(e) => matches.len() == 0 && e@ == no_match(p),
    }
}

/// The matches of a pattern in order; a pattern without any is an error.
pub fn accept_matches(p: &str, matches: &Vec<String>) -> (r: Result<Vec<String>, SessionError>)
    ensures
        accepted(p@, text::views(matches@), r),
        match r {
            Ok(out) => matches.len() > 0 && exists|ord: Seq<usize>|
                #[trigger] order::orders(
                    path::order_keys(text::views(matches@)),
                    ord,
                    0,
                    matches.len() as int,
                ) && text::views(out@) == ord.map_values(|k: usize| matches@[k as int]@),
            Err(e) => matches.len() == 0 && e@ == no_match(p@),
        },
{
    if matches.len() == 0 {
        return Err(refuse_match(p));
    }
    Ok(sort_matches(matches))
}

/// What a pull of several paths, or of one pattern, is resolved to.
#[derive(Debug, Clone)]
pub enum PullRoots {
    /// Expand this pattern.
    Expand(GlobPlan),
    /// Scan these roots below a common base.
    Roots {
        /// The common base.
        base: String,
        /// The roots.
        roots: Vec<String>,
    },
}

/// Whether every one of the first `n` paths is absolute and leads somewhere,
/// and to where.
pub open spec fn served_all(
    os: TargetOs,
    root: Seq<char>,
    paths: Seq<Seq<char>>,
    n: int,
) -> Result<
    Seq<Seq<char>>,
    ErrorV,
>
    decreases n,
{
    if n <= 0 {
        Ok(Seq::empty())
    } else {
        match served_all(os, root, paths, n - 1) {
            Err(e) => Err(e),
            Ok(front) => if !path::is_absolute(paths[n - 1]) {
                Err(
                    ErrorV::Other(
                        "remote --files-from entries must be absolute paths on the server"@,
                    ),
                )
            } else {
                match served(os, root, paths[n - 1]) {
                    Err(e) => Err(e),
                    Ok(p) => Ok(front.push(p)),
                }
            },
        }
    }
}

/// The filesystem root of an absolute path: the root itself, behind the prefix
/// where there is one.
pub open spec fn fs_root(os: TargetOs, q: Seq<char>) -> Seq<char> {
    q.take(host::head_len(os, q)).push('/')
}

/// Whether all of the roots lie on the filesystem of the first one.
pub open spec fn on_one_root(os: TargetOs, roots: Seq<Seq<char>>) -> bool {
    forall|i: int|
        0 <= i < roots.len() ==> path::under(#[trigger] roots[i], fs_root(os, roots[0]))
}

/// The roots that a pull of several paths is resolved to, and their common
/// base.
pub open spec fn served_roots(os: TargetOs, root: Seq<char>, paths: Seq<Seq<char>>) -> Result<
    (Seq<char>, Seq<Seq<char>>),
    ErrorV,
> {
    match served_all(os, root, paths, paths.len() as int) {
        Err(e) => Err(e),
        Ok(roots) => if on_one_root(os, roots) {
            Ok((fs_root(os, roots[0]), roots))
        } else {
            Err(
                ErrorV::Other(
                    "remote --files-from entries must be on the same filesystem root"@,
                ),
            )
        },
    }
}

/// What a pull of one path, expanded as a pattern, is resolved to. A path that
/// exists as it is written is no pattern, and matches nothing.
pub open spec fn expanded(os: TargetOs, root: Seq<char>, p: Seq<char>, literal: bool) -> Result<
    (Seq<char>, Seq<char>),
    ErrorV,
> {
    match expansion(os, root, p) {
        Ok(plan) => if literal {
            Err(no_match(p))
        } else {
            Ok(plan)
        },
        Err(e) => if literal && served(os, root, p) is Ok {
            Err(no_match(p))
        } else {
            Err(e)
        },
    }
}

/// Resolve the paths of a pull that is not of a single plain path. One path
/// must be a pattern that does not exist as it is written, which `literal`
/// tells; several must be absolute, and are scanned below the filesystem root.
pub fn resolve_pull_roots(
    os: TargetOs,
    root: &str,
    paths: &Vec<String>,
    literal: bool,
) -> (r: Result<
    PullRoots,
    SessionError,
>)
    ensures
        paths.len() == 0 ==> (r matches Err(e) && e@ == ErrorV::Other(
            "pull request has no paths"@,
        )),
        paths.len() == 1 ==> match r {
            Ok(PullRoots::Expand(plan)) => expanded(os, root@, paths@[0]@, literal) == Ok::<
                (Seq<char>, Seq<char>),
                ErrorV,
            >((plan.base@, plan.pattern@)),
            Ok(_) => false,
            Err(e) => expanded(os, root@, paths@[0]@, literal) == Err::<
                (Seq<char>, Seq<char>),
                ErrorV,
            >(e@),
        },
        paths.len() > 1 ==> match r {
            Ok(PullRoots::Roots { base, roots }) => served_roots(os, root@, text::views(paths@))
                == Ok::<(Seq<char>, Seq<Seq<char>>), ErrorV>((base@, text::views(roots@))),
            Ok(_) => false,
            Err(e) => served_roots(os, root@, text::views(paths@)) == Err::<
                (Seq<char>, Seq<Seq<char>>),
                ErrorV,
            >(e@),
        },
{
    if paths.len() == 0 {
        return Err(protocol::plain_error("pull request has no paths"));
    }
    if paths.len() == 1 {
        let only = paths[0].as_str();
        if literal && resolve_serve_path(os, root, only).is_ok() {
            return Err(refuse_match(only));
        }
        return match plan_glob(os, root, only) {
            Ok(plan) => Ok(PullRoots::Expand(plan)),
            Err(e) => Err(e),
        };
    }
    let ghost pv = text::views(paths@);
    let mut roots: Vec<String> = Vec::new();
    let mut i: usize = 0;
    assert(text::views(roots@) =~= Seq::empty());
    while i < paths.len()
        invariant
            i <= paths.len(),
            paths.len() > 1,
            pv == text::views(paths@),
            served_all(os, root@, pv, i as int) == Ok::<Seq<Seq<char>>, ErrorV>(text::views(roots@)),
        decreases paths.len() - i,
    {
        assert(pv[i as int] == paths@[i as int]@);
        if !path::is_absolute_path(paths[i].as_str()) {
            proof {
                lemma_served_all_stops(os, root@, pv, i + 1, paths.len() as int);
            }
            return Err(
                protocol::plain_error(
                    "remote --files-from entries must be absolute paths on the server",
                ),
            );
        }
        match resolve_serve_path(os, root, paths[i].as_str()) {
            Ok(p) => {
                let ghost was = roots@;
                roots.push(p);
                assert(text::views(roots@) =~= text::views(was).push(p@));
            },
            Err(e) => {
                proof {
                    lemma_served_all_stops(os, root@, pv, i + 1, paths.len() as int);
                }
                return Err(e);
            },
        }
        i += 1;
    }
    proof {
        lemma_served_all_len(os, root@, pv, pv.len() as int);
    }
    let (head, _) = host::split_head(os, roots[0].as_str());
    let mut base = head;
    base.push('/');
    let ghost rv = text::views(roots@);
    assert(rv[0] == roots@[0]@);
    let mut k: usize = 0;
    while k < roots.len()
        invariant
            k <= roots.len(),
            rv == text::views(roots@),
            roots.len() > 0,
            base@ == fs_root(os, rv[0]),
            paths.len() > 1,
            pv == text::views(paths@),
            served_all(os, root@, pv, pv.len() as int) == Ok::<Seq<Seq<char>>, ErrorV>(rv),
            forall|j: int| 0 <= j < k ==> path::under(#[trigger] rv[j], base@),
        decreases roots.len() - k,
    {
        assert(rv[k as int] == roots@[k as int]@);
        if !path::starts_with(roots[k].as_str(), base.as_str()) {
            return Err(
                protocol::plain_error(
                    "remote --files-from entries must be on the same filesystem root",
                ),
            );
        }
        k += 1;
    }
    Ok(PullRoots::Roots { base, roots })
}

proof fn lemma_served_all_stops(
    os: TargetOs,
    root: Seq<char>,
    paths: Seq<Seq<char>>,
    n: int,
    m: int,
)
    requires
        0 <= n <= m,
        served_all(os, root, paths, n) is Err,
    ensures
        served_all(os, root, paths, m) == served_all(os, root, paths, n),
    decreases m - n,
{
    if n < m {
        lemma_served_all_stops(os, root, paths, n, m - 1);
    }
}

/// Every root that a pull of several paths is resolved to lies below the
/// common base; on Unix paths on the server always have one.
pub proof fn law_pull_roots_lie_below_the_base(
    os: TargetOs,
    root: Seq<char>,
    paths: Seq<Seq<char>>,
    i: int,
)
    requires
        0 <= i < paths.len(),
        served_all(os, root, paths, paths.len() as int) is Ok,
    ensures
        served_roots(os, root, paths) matches Ok((base, roots)) ==> roots.len() == paths.len()
            && path::under(roots[i], base),
        os == TargetOs::Unix ==> served_roots(os, root, paths) is Ok,
{
    let n = paths.len() as int;
    let roots = served_all(os, root, paths, n)->Ok_0;
    lemma_served_all_len(os, root, paths, n);
    if os == TargetOs::Unix {
        assert(fs_root(os, roots[0]) =~= seq!['/']);
        path::lemma_comps_first(path::Comp::Root);
        assert(path::comp_text(path::Comp::Root) == seq!['/']);
        assert forall|k: int| 0 <= k < roots.len() implies path::under(
            #[trigger] roots[k],
            fs_root(os, roots[0]),
        ) by {
            lemma_served_all_absolute(os, root, paths, n, k);
            let cs = path::comps(roots[k]);
            assert(cs[0] == path::Comp::Root);
            assert(seq![path::Comp::Root] =~= cs.subrange(0, 1));
        }
    }
}

/// The roots of a pull are absolute.
proof fn lemma_served_all_absolute(
    os: TargetOs,
    root: Seq<char>,
    paths: Seq<Seq<char>>,
    n: int,
    k: int,
)
    requires
        os == TargetOs::Unix,
        0 <= k < n,
        served_all(os, root, paths, n) is Ok,
    ensures
        path::is_absolute(served_all(os, root, paths, n)->Ok_0[k]),
    decreases n,
{
    lemma_served_all_len(os, root, paths, n - 1);
    if k < n - 1 {
        lemma_served_all_absolute(os, root, paths, n - 1, k);
    }
}

proof fn lemma_served_all_len(os: TargetOs, root: Seq<char>, paths: Seq<Seq<char>>, n: int)
    requires
        n >= 0,
        served_all(os, root, paths, n) is Ok,
    ensures
        served_all(os, root, paths, n)->Ok_0.len() == n,
    decreases n,
{
    if n > 0 {
        lemma_served_all_len(os, root, paths, n - 1);
    }
}

/// How a request is served.
#[derive(Debug, Clone)]
pub enum ServeAction {
    /// Receive files into this directory.
    Receive {
        /// The directory.
        target: String,
    },
    /// Watch this tree and send it after every change.
    Watch {
        /// The tree.
        source: String,
    },
    /// Send this tree.
    SendTree {
        /// The tree.
        source: String,
    },
    /// Send what several roots, or the matches of a pattern, hold.
    SendRoots {
        /// What to scan.
        roots: PullRoots,
    },
    /// List this tree.
    List {
        /// The tree.
        source: String,
    },
}

/// The model of [`ServeAction`].
pub enum ServeV {
    Receive(Seq<char>),
    Watch(Seq<char>),
    SendTree(Seq<char>),
    SendGlob(Seq<char>, Seq<char>),
    SendRoots(Seq<char>, Seq<Seq<char>>),
    List(Seq<char>),
}

impl View for ServeAction {
    type V = ServeV;

    open spec fn view(&self) -> ServeV {
        match self {
            ServeAction::Receive { target } => ServeV::Receive(target@),
            ServeAction::Watch { source } => ServeV::Watch(source@),
            ServeAction::SendTree { source } => ServeV::SendTree(source@),
            ServeAction::SendRoots { roots } => match roots {
                PullRoots::Expand(plan) => ServeV::SendGlob(plan.base@, plan.pattern@),
                PullRoots::Roots { base, roots } => ServeV::SendRoots(base@, text::views(roots@)),
            },
            ServeAction::List { source } => ServeV::List(source@),
        }
    }
}

/// What a pull of several paths, or of one pattern, is resolved to.
pub open spec fn pull_roots_of(
    os: TargetOs,
    root: Seq<char>,
    paths: Seq<Seq<char>>,
) -> Result<ServeV, ErrorV> {
    if paths.len() == 1 {
        match expansion(os, root, paths[0]) {
            Ok((base, pattern)) => Ok(ServeV::SendGlob(base, pattern)),
            Err(e) => Err(e),
        }
    } else {
        match served_roots(os, root, paths) {
            Ok((base, roots)) => Ok(ServeV::SendRoots(base, roots)),
            Err(e) => Err(e),
        }
    }
}

/// How a pull is served. `literal` tells whether the first path exists as it
/// is written.
pub open spec fn pull_of(os: TargetOs, root: Seq<char>,
    paths: Seq<Seq<char>>,
    watch: bool,
    literal: bool,
) -> Result<ServeV, ErrorV> {
    if paths.len() == 0 {
        Err(ErrorV::Other("pull request has no paths"@))
    } else if paths.len() == 1 && is_pattern(paths[0]) && served(os, root, paths[0]) is Err {
        Err(served(os, root, paths[0])->Err_0)
    } else if watch {
        match served(os, root, paths[0]) {
            Ok(source) => Ok(ServeV::Watch(source)),
            Err(e) => Err(e),
        }
    } else if paths.len() == 1 && (literal || !is_pattern(paths[0])) {
        match served(os, root, paths[0]) {
            Ok(source) => Ok(ServeV::SendTree(source)),
            Err(e) => Err(e),
        }
    } else {
        pull_roots_of(os, root, paths)
    }
}

/// How a request is served.
pub open spec fn serve_of(
    os: TargetOs,
    root: Seq<char>,
    frame: Frame,
    literal: bool,
) -> Result<ServeV, ErrorV> {
    match frame {
        Frame::IndexRequest { path, .. } => match served(os, root, path@) {
            Ok(target) => Ok(ServeV::Receive(target)),
            Err(e) => Err(e),
        },
        Frame::PullRequest { request } => pull_of(os, root,
            text::views(request.paths@),
            request.watch,
            literal,
        ),
        Frame::ListRequest { path, .. } => match served(os, root, path@) {
            Ok(source) => Ok(ServeV::List(source)),
            Err(e) => Err(e),
        },
        Frame::Error { message } => Err(ErrorV::Other("Peer error: "@ + message@)),
        _ => Err(
            ErrorV::Unexpected(
                "Expected IndexRequest, PullRequest, or ListRequest, got "@,
                frame,
            ),
        ),
    }
}

/// The model of the way a request is served, or refused.
pub open spec fn action_view(r: Result<ServeAction, SessionError>) -> Result<ServeV, ErrorV> {
    match r {
        Ok(a) => Ok(a@),
        Err(e) => Err(e@),
    }
}

/// Decide how a pull is served. `literal` tells whether the path that
/// [`literal_path`] gave exists.
pub fn serve_pull(
    os: TargetOs,
    root: &str,
    paths: &Vec<String>,
    watch: bool,
    literal: bool,
) -> (r: Result<
    ServeAction,
    SessionError,
>)
    ensures
        action_view(r) == pull_of(os, root@, text::views(paths@), watch, literal),
{
    let ghost pv = text::views(paths@);
    if paths.len() == 0 {
        return Err(protocol::plain_error("pull request has no paths"));
    }
    assert(pv[0] == paths@[0]@);
    let first = paths[0].as_str();
    if paths.len() == 1 {
        match literal_path(os, root, first) {
            Err(e) => {
                return Err(e);
            },
            Ok(_) => {},
        }
    }
    if watch {
        return match resolve_serve_path(os, root, first) {
            Ok(source) => Ok(ServeAction::Watch { source }),
            Err(e) => Err(e),
        };
    }
    if paths.len() == 1 && !remote_glob_needs_expansion(first, literal) {
        return match resolve_serve_path(os, root, first) {
            Ok(source) => Ok(ServeAction::SendTree { source }),
            Err(e) => Err(e),
        };
    }
    match resolve_pull_roots(os, root, paths, literal) {
        Ok(roots) => Ok(ServeAction::SendRoots { roots }),
        Err(e) => Err(e),
    }
}

/// Decide how the first frame of a session is served, and give the frame back.
/// `literal` tells whether the only path of a pull exists as it is written.
pub fn serve(os: TargetOs, root: &str, frame: Frame, literal: bool) -> (r: Result<
    (ServeAction, Frame),
    SessionError,
>)
    ensures
        match serve_of(os, root@, frame, literal) {
            Ok(action) => r matches Ok((a, f)) && a@ == action && f == frame,
            Err(e) => r matches Err(x) && x@ == e,
        },
{
    let action = match &frame {
        Frame::IndexRequest { path, .. } => match resolve_serve_path(os, root, path.as_str()) {
            Ok(target) => Ok(ServeAction::Receive { target }),
            Err(e) => Err(e),
        },
        Frame::PullRequest { request } => serve_pull(
            os,
            root,
            &request.paths,
            request.watch,
            literal,
        ),
        Frame::ListRequest { path, .. } => match resolve_serve_path(os, root, path.as_str()) {
            Ok(source) => Ok(ServeAction::List { source }),
            Err(e) => Err(e),
        },
        Frame::Error { message } => Err(protocol::error_of("Peer error: ", message.as_str())),
        _ => {
            return Err(
                protocol::unexpected(
                    "Expected IndexRequest, PullRequest, or ListRequest, got ",
                    frame,
                ),
            );
        },
    };
    match action {
        Ok(action) => Ok((action, frame)),
        Err(e) => Err(e),
    }
}

/// A request whose only path climbs is refused, whichever kind it is and
/// whether or not the path exists.
pub proof fn law_climbing_requests_are_refused(
    os: TargetOs,
    root: Seq<char>,
    frame: Frame,
    literal: bool,
)
    requires
        match frame {
            Frame::IndexRequest { path, .. } => host::climbs(os, path@),
            Frame::ListRequest { path, .. } => host::climbs(os, path@),
            Frame::PullRequest { request } => request.paths@.len() == 1 && host::climbs(
                os,
                request.paths@[0]@,
            ),
            _ => false,
        },
    ensures
        serve_of(os, root, frame, literal) is Err,
{
    match frame {
        Frame::IndexRequest { path, .. } => law_climbing_paths_are_refused(os, root, path@),
        Frame::ListRequest { path, .. } => law_climbing_paths_are_refused(os, root, path@),
        Frame::PullRequest { request } => {
            assert(text::views(request.paths@)[0] == request.paths@[0]@);
            law_climbing_paths_are_refused(os, root, request.paths@[0]@);
        },
        _ => {},
    }
}

/// On Unix every path that does not climb is served: the empty one as the serve
/// root, an absolute one as it is, and any other one as what it names below the
/// serve root.
pub proof fn law_paths_that_do_not_climb_are_served(root: Seq<char>, p: Seq<char>)
    ensures
        served(TargetOs::Unix, root, p) is Ok <==> !path::comps(p).contains(path::Comp::Parent),
        served(TargetOs::Unix, root, Seq::empty()) == Ok::<Seq<char>, ErrorV>(root),
        p.len() > 0 && p[0] == '/' && !path::comps(p).contains(path::Comp::Parent) ==> served(
            TargetOs::Unix,
            root,
            p,
        ) == Ok::<Seq<char>, ErrorV>(p),
        p.len() > 0 && p[0] != '/' && !path::comps(p).contains(path::Comp::Parent) ==> (served(
            TargetOs::Unix,
            root,
            p,
        ) matches Ok(q) && path::comps(q) == path::comps(root) + (if path::comps(p).len() > 0
            && path::comps(p)[0] is Cur {
            path::comps(p).skip(1)
        } else {
            path::comps(p)
        })),
        p.len() > 0 && path::comps(p).contains(path::Comp::Parent) ==> served(
            TargetOs::Unix,
            root,
            p,
        ) == Err::<Seq<char>, ErrorV>(
            ErrorV::Other("Unsafe path '"@ + p + "': "@ + ".. is not allowed"@),
        ),
{
    host::lemma_unix(root, p);
    path::lemma_comps_first(path::Comp::Root);
    if p.len() == 0 {
        assert(p =~= Seq::<char>::empty());
    }
    if p.len() > 0 && p[0] != '/' && !path::comps(p).contains(path::Comp::Parent) {
        law_sanitized_paths_stay_inside(TargetOs::Unix, root, p);
    }
}

/// A plain name is served as that name in the serve root.
pub proof fn law_plain_names_are_served_below_the_root(root: Seq<char>, name: Seq<char>)
    requires
        root.len() > 0,
        root.last() != '/',
        name.len() > 0,
        !name.contains('/'),
        name != seq!['.'],
        name != seq!['.', '.'],
    ensures
        served(TargetOs::Unix, root, name) == Ok::<Seq<char>, ErrorV>(root + seq!['/'] + name),
        sanitized(TargetOs::Unix, root, name) == Ok::<Seq<char>, ErrorV>(root + seq!['/'] + name),
{
    let c = path::Comp::Name(name);
    assert(name[0] != '/') by {
        assert(name.contains(name[0]));
    }
    path::law_names_extend_a_path(Seq::empty(), name);
    path::lemma_comps_first(path::Comp::Root);
    host::lemma_unix(root, name);
    assert(path::joined(Seq::empty(), name) =~= name);
    assert(path::comps(name) =~= seq![c]);
    assert(names_of(name) =~= seq![c]);
    assert(path::comps(name)[0] == c);
    assert(!path::comps(name).contains(path::Comp::Parent));
    assert(seq![c].drop_last() =~= Seq::empty());
    reveal_with_fuel(path::render, 2);
    assert(path::render(seq![c]) == name);
    assert(root.push('/') + name =~= root + seq!['/'] + name);
}

/// Below a root neither an absolute path nor one that climbs is let through,
/// and the refusal names the path and the reason.
pub proof fn law_refusals_name_the_path(root: Seq<char>, rel: Seq<char>)
    ensures
        rel.len() > 0 && rel[0] == '/' ==> sanitized(TargetOs::Unix, root, rel) == Err::<
            Seq<char>,
            ErrorV,
        >(ErrorV::Other("Unsafe path '"@ + rel + "': "@ + "absolute paths are not allowed"@)),
        !(rel.len() > 0 && rel[0] == '/') && path::comps(rel).contains(path::Comp::Parent)
            ==> sanitized(TargetOs::Unix, root, rel) == Err::<Seq<char>, ErrorV>(
            ErrorV::Other("Unsafe path '"@ + rel + "': "@ + ".. is not allowed"@),
        ),
        !(rel.len() > 0 && rel[0] == '/') && !path::comps(rel).contains(path::Comp::Parent)
            ==> sanitized(TargetOs::Unix, root, rel) is Ok,
{
    host::lemma_unix(root, rel);
}

/// A path is a pattern exactly when it holds a star, a question mark or an
/// opening bracket, and is expanded unless it exists as it is written.
pub proof fn law_patterns_hold_a_pattern_character(p: Seq<char>, literal: bool)
    ensures
        is_pattern(p) <==> p.contains('*') || p.contains('?') || p.contains('['),
        expands(p, literal) <==> !literal && (p.contains('*') || p.contains('?') || p.contains(
            '[',
        )),
{
    if is_pattern(p) {
        let i = choose|i: int| 0 <= i < p.len() && is_meta(#[trigger] p[i]);
        assert(p.contains(p[i]));
    }
    if p.contains('*') {
        let i = choose|i: int| 0 <= i < p.len() && p[i] == '*';
        assert(is_meta(p[i]));
    }
    if p.contains('?') {
        let i = choose|i: int| 0 <= i < p.len() && p[i] == '?';
        assert(is_meta(p[i]));
    }
    if p.contains('[') {
        let i = choose|i: int| 0 <= i < p.len() && p[i] == '[';
        assert(is_meta(p[i]));
    }
}

/// Where the separator in front of the varying part stands.
proof fn lemma_separator_found(p: Seq<char>, end: int)
    requires
        0 <= end <= p.len(),
    ensures
        behind_separator(p, end) > 0 ==> p[behind_separator(p, end) - 1] == '/' || p[
            behind_separator(p, end) - 1] == '\\',
    decreases end,
{
    if end > 0 && p[end - 1] != '/' && p[end - 1] != '\\' {
        lemma_separator_found(p, end - 1);
    }
}

/// A pattern in a directory is expanded in that directory: the directory in
/// front of the first pattern character is looked up like any other path, and
/// the rest of the pattern is matched in it.
pub proof fn law_patterns_are_expanded_in_their_directory(
    root: Seq<char>,
    dir: Seq<char>,
    pat: Seq<char>,
    meta: int,
)
    requires
        dir.len() > 0,
        forall|i: int|
            0 <= i < dir.len() ==> #[trigger] dir[i] != '*' && dir[i] != '?' && dir[i] != '[',
        0 <= meta < pat.len(),
        pat[meta] == '*' || pat[meta] == '?' || pat[meta] == '[',
        forall|i: int|
            0 <= i < meta ==> #[trigger] pat[i] != '*' && pat[i] != '?' && pat[i] != '[' && pat[i]
                != '/' && pat[i] != '\\',
    ensures
        fixed_prefix(dir + seq!['/'] + pat) == dir,
        varying_part(dir + seq!['/'] + pat) == pat,
        expansion(TargetOs::Unix, root, dir + seq!['/'] + pat) matches Ok((base, pattern))
            ==> pattern == path::joined(base, pat) && (if dir[0] == '/' {
            base == dir
        } else if dir == seq!['.'] {
            base == root
        } else {
            sanitized(TargetOs::Unix, root, dir) == Ok::<Seq<char>, ErrorV>(base)
        }),
{
    let p = dir + seq!['/'] + pat;
    let n = dir.len() as int;
    let end = n + 1 + meta;
    lemma_first_meta(p, 0);
    let found = first_meta(p, 0);
    assert(p[end] == pat[meta]);
    if found < end {
        if found < n {
            assert(p[found] == dir[found]);
        } else if found > n {
            assert(p[found] == pat[found - n - 1]);
        }
        assert(false);
    }
    assert(found == end);
    let cut = behind_separator(p, end);
    lemma_behind_separator(p, end);
    lemma_separator_found(p, end);
    assert(p[n] == '/');
    assert(cut > n);
    if cut > n + 1 {
        assert(p[cut - 1] == pat[cut - 1 - n - 1]);
        assert(false);
    }
    assert(p.take(n) =~= dir);
    assert(p.skip(n + 1) =~= pat);
}

/// A pattern without a directory is expanded in the serve root.
pub proof fn law_bare_patterns_are_expanded_in_the_root(
    root: Seq<char>,
    pat: Seq<char>,
    meta: int,
)
    requires
        0 <= meta < pat.len(),
        pat[meta] == '*' || pat[meta] == '?' || pat[meta] == '[',
        forall|i: int|
            0 <= i < meta ==> #[trigger] pat[i] != '*' && pat[i] != '?' && pat[i] != '[' && pat[i]
                != '/' && pat[i] != '\\',
    ensures
        fixed_prefix(pat) == Seq::<char>::empty(),
        varying_part(pat) == pat,
        !path::comps(pat).contains(path::Comp::Parent) ==> expansion(TargetOs::Unix, root, pat)
            == Ok::<(Seq<char>, Seq<char>), ErrorV>((root, path::joined(root, pat))),
{
    lemma_first_meta(pat, 0);
    let found = first_meta(pat, 0);
    assert(found == meta);
    lemma_behind_separator(pat, meta);
    lemma_separator_found(pat, meta);
    let cut = behind_separator(pat, meta);
    if cut > 0 {
        assert(pat[cut - 1] == '/' || pat[cut - 1] == '\\');
        assert(false);
    }
    assert(pat.skip(0) =~= pat);
    assert(is_meta(pat[meta]));
    law_paths_that_do_not_climb_are_served(root, pat);
}

/// A path that holds no pattern character matches nothing, and neither does one
/// that exists as it is written; otherwise the outcome is that of the pattern.
pub proof fn law_literal_paths_match_nothing(
    os: TargetOs,
    root: Seq<char>,
    p: Seq<char>,
    literal: bool,
)
    ensures
        !is_pattern(p) ==> expansion(os, root, p) == Err::<(Seq<char>, Seq<char>), ErrorV>(
            ErrorV::Other("no files match remote source pattern '"@ + p + "'"@),
        ),
        literal ==> expanded(os, root, p, literal) is Err,
        literal && served(os, root, p) is Ok ==> expanded(os, root, p, literal) == Err::<
            (Seq<char>, Seq<char>),
            ErrorV,
        >(ErrorV::Other("no files match remote source pattern '"@ + p + "'"@)),
        literal && is_pattern(p) && served(os, root, p) is Err ==> (expanded(os, root, p, literal)
            matches Err(e) && served(os, root, p) == Err::<Seq<char>, ErrorV>(e)),
        !literal ==> expanded(os, root, p, literal) == expansion(os, root, p),
        is_pattern(p) && served(os, root, p) is Err ==> (expansion(os, root, p) matches Err(e)
            && served(os, root, p) == Err::<Seq<char>, ErrorV>(e)),
{
}

/// Ordering the matches of a pattern loses none and adds none.
pub proof fn law_every_match_is_sent(matches: Seq<Seq<char>>, out: Seq<Seq<char>>, p: Seq<char>)
    requires
        in_order(matches, out),
    ensures
        out.len() == matches.len(),
        out.contains(p) <==> matches.contains(p),
        forall|i: int, j: int|
            0 <= i < j < out.len() ==> !text::lex_lt(
                path::order_key(path::comps(#[trigger] out[j])),
                path::order_key(path::comps(#[trigger] out[i])),
            ),
{
    let keys = path::order_keys(matches);
    let ord = choose|ord: Seq<usize>|
        #[trigger] order::orders(keys, ord, 0, matches.len() as int) && out == ord.map_values(
            |k: usize| matches[k as int],
        );
    assert(out.len() == ord.len());
    assert forall|i: int| 0 <= i < out.len() implies #[trigger] out[i] == matches[ord[i] as int] by {}
    if out.contains(p) {
        let i = choose|i: int| 0 <= i < out.len() && out[i] == p;
        assert(matches[ord[i] as int] == p);
    }
    if matches.contains(p) {
        let k = choose|k: int| 0 <= k < matches.len() && matches[k] == p;
        assert(order::placed(ord, k));
        let i = choose|i: int| 0 <= i < ord.len() && #[trigger] ord[i] == k;
        assert(out[i] == p);
    }
    assert forall|i: int, j: int| 0 <= i < j < out.len() implies !text::lex_lt(
        path::order_key(path::comps(#[trigger] out[j])),
        path::order_key(path::comps(#[trigger] out[i])),
    ) by {
        let x = ord[i] as int;
        let y = ord[j] as int;
        assert(order::sorts_before(keys, x, y));
        assert(keys[x] == path::order_key(path::comps(out[i])));
        assert(keys[y] == path::order_key(path::comps(out[j])));
        if text::lex_lt(keys[y], keys[x]) {
            if text::lex_lt(keys[x], keys[y]) {
                text::lemma_lex_trans(keys[x], keys[y], keys[x]);
            }
            text::lemma_lex_irrefl(keys[x]);
        }
    }
}

/// Several paths of a pull must be absolute, and on Unix each is scanned as it
/// is written, in the order of the request, below the root of the filesystem.
pub proof fn law_absolute_paths_are_pulled_as_written(
    root: Seq<char>,
    paths: Seq<Seq<char>>,
    n: int,
    i: int,
)
    requires
        0 <= i < n <= paths.len(),
    ensures
        served_all(TargetOs::Unix, root, paths, n) matches Ok(roots) ==> roots.len() == n
            && roots[i] == paths[i] && paths[i].len() > 0 && paths[i][0] == '/',
        (forall|k: int|
            0 <= k < n ==> (#[trigger] paths[k]).len() > 0 && paths[k][0] == '/' && !path::comps(
                paths[k],
            ).contains(path::Comp::Parent)) ==> served_all(TargetOs::Unix, root, paths, n) is Ok,
        served_roots(TargetOs::Unix, root, paths) matches Ok((base, _)) ==> base == seq!['/'],
    decreases n,
{
    if n > 1 {
        law_absolute_paths_are_pulled_as_written(
            root,
            paths,
            n - 1,
            if i < n - 1 {
                i
            } else {
                0
            },
        );
    }
    reveal_with_fuel(served_all, 2);
    law_paths_that_do_not_climb_are_served(root, paths[n - 1]);
    match served_roots(TargetOs::Unix, root, paths) {
        Ok((base, roots)) => {
            assert(roots[0].take(0).push('/') =~= seq!['/']);
        },
        Err(_) => {},
    }
}

/// Every request gets the service that it asks for, at the path that it names:
/// an announced tree is received, a listing is listed, a watched pull is
/// watched, a plain pull sends a tree, and a pattern or several paths send what
/// they stand for.
pub proof fn law_requests_get_what_they_ask_for(
    os: TargetOs,
    root: Seq<char>,
    frame: Frame,
    literal: bool,
)
    ensures
        ({
            let r = serve_of(os, root, frame, literal);
            &&& frame matches Frame::IndexRequest { path, .. } ==> match served(os, root, path@) {
                Ok(p) => r == Ok::<ServeV, ErrorV>(ServeV::Receive(p)),
                Err(e) => r == Err::<ServeV, ErrorV>(e),
            }
            &&& frame matches Frame::ListRequest { path, .. } ==> match served(os, root, path@) {
                Ok(p) => r == Ok::<ServeV, ErrorV>(ServeV::List(p)),
                Err(e) => r == Err::<ServeV, ErrorV>(e),
            }
            &&& frame matches Frame::PullRequest { request } ==> {
                let paths = text::views(request.paths@);
                &&& paths.len() == 0 ==> r == Err::<ServeV, ErrorV>(
                    ErrorV::Other("pull request has no paths"@),
                )
                &&& paths.len() > 0 && request.watch ==> match served(os, root, paths[0]) {
                    Ok(p) => r == Ok::<ServeV, ErrorV>(ServeV::Watch(p)),
                    Err(e) => r == Err::<ServeV, ErrorV>(e),
                }
                &&& paths.len() == 1 && !request.watch && (literal || !is_pattern(paths[0]))
                    ==> match served(os, root, paths[0]) {
                    Ok(p) => r == Ok::<ServeV, ErrorV>(ServeV::SendTree(p)),
                    Err(e) => r == Err::<ServeV, ErrorV>(e),
                }
                &&& paths.len() == 1 && !request.watch && !literal && is_pattern(paths[0])
                    ==> match expansion(os, root, paths[0]) {
                    Ok((base, pattern)) => r == Ok::<ServeV, ErrorV>(
                        ServeV::SendGlob(base, pattern),
                    ),
                    Err(e) => r == Err::<ServeV, ErrorV>(e),
                }
                &&& paths.len() > 1 && !request.watch ==> match served_roots(os, root, paths) {
                    Ok((base, roots)) => r == Ok::<ServeV, ErrorV>(ServeV::SendRoots(base, roots)),
                    Err(e) => r == Err::<ServeV, ErrorV>(e),
                }
            }
            &&& frame matches Frame::Error { message } ==> r == Err::<ServeV, ErrorV>(
                ErrorV::Other("Peer error: "@ + message@),
            )
            &&& !(frame is IndexRequest) && !(frame is ListRequest) && !(frame is PullRequest)
                ==> r is Err
        }),
{
}

/// A pattern that matches nothing is refused by its name, and one that matches
/// anything is not refused.
pub proof fn law_patterns_without_matches_are_refused(
    p: Seq<char>,
    matches: Seq<Seq<char>>,
    r: Result<Vec<String>, SessionError>,
)
    requires
        accepted(p, matches, r),
    ensures
        matches.len() == 0 ==> (r matches Err(e) && e@ == ErrorV::Other(
            "no files match remote source pattern '"@ + p + "'"@,
        )),
        matches.len() > 0 ==> (r matches Ok(out) && out@.len() == matches.len()),
{
    match r {
        Ok(out) => {
            law_every_match_is_sent(matches, text::views(out@), Seq::empty());
        },
        Err(_) => {},
    }
}

} // verus!
