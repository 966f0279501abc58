//! Rsync-style include/exclude filters for the scanner.
//!
//! A [`FilterSet`] decides whether a relative path should be synced:
//!
//! - `*` matches any run of characters (`/` among them); `**` is the same.
//! - `?` matches exactly one character.
//! - A pattern with a leading `/` is anchored at the scan root.
//! - A pattern containing `/` (without a leading slash) matches at any depth.
//! - A pattern with no `/` matches against the basename.
//! - Any matching include beats any matching exclude.

use vstd::prelude::*;

use crate::text;

verus! {

/// A set of include and exclude glob patterns.
#[derive(Debug, Clone)]
pub struct FilterSet {
    /// Paths matching any of these are always synced.
    pub includes: Vec<String>,
    /// Paths matching any of these are skipped.
    pub excludes: Vec<String>,
}

/// Whether `pattern` matches the whole of `text`: `*` stands for any run of
/// characters, `?` for one character, everything else for itself.
pub open spec fn wild(pattern: Seq<char>, text: Seq<char>) -> bool
    decreases pattern.len(),
{
    if pattern.len() == 0 {
        text.len() == 0
    } else if pattern[0] == '*' {
        exists|k: int| 0 <= k <= text.len() && wild(pattern.skip(1), #[trigger] text.skip(k))
    } else {
        text.len() > 0 && (pattern[0] == '?' || pattern[0] == text[0]) && wild(
            pattern.skip(1),
            text.skip(1),
        )
    }
}

/// Whether a pattern holds a wildcard.
pub open spec fn wildcarded(pattern: Seq<char>) -> bool {
    pattern.contains('*') || pattern.contains('?')
}

/// Whether `pattern` matches `path` or, taken literally, names a directory
/// above it.
pub open spec fn rooted(pattern: Seq<char>, path: Seq<char>) -> bool {
    wild(pattern, path) || pattern.push('/').is_prefix_of(path)
}

/// `s` without its leading slashes.
pub open spec fn unslash_front(s: Seq<char>) -> Seq<char>
    decreases s.len(),
{
    if s.len() > 0 && s[0] == '/' {
        unslash_front(s.skip(1))
    } else {
        s
    }
}

/// `s` without its trailing slashes.
pub open spec fn unslash_back(s: Seq<char>) -> Seq<char>
    decreases s.len(),
{
    if s.len() > 0 && s.last() == '/' {
        unslash_back(s.drop_last())
    } else {
        s
    }
}

/// The matching part of a pattern: without the slashes at its ends, and
/// without one leading `**/`.
pub open spec fn pattern_core(pattern: Seq<char>) -> Seq<char> {
    let bare = unslash_back(unslash_front(pattern));
    if seq!['*', '*', '/'].is_prefix_of(bare) {
        bare.skip(3)
    } else {
        bare
    }
}

/// Whether `pattern` matches the path `path` whose last segment is `basename`.
pub open spec fn selects(pattern: Seq<char>, path: Seq<char>, basename: Seq<char>) -> bool {
    let core = pattern_core(pattern);
    let anchored = pattern.len() > 0 && pattern[0] == '/';
    if core.len() == 0 {
        false
    } else if anchored {
        rooted(core, path)
    } else if !core.contains('/') {
        wild(core, basename)
    } else if wildcarded(core) {
        exists|k: int| 0 <= k <= path.len() && wild(core, #[trigger] path.skip(k))
    } else {
        exists|k: int| 0 <= k <= path.len() && core.is_prefix_of(#[trigger] path.skip(k))
    }
}

/// Whether some pattern of the list matches.
pub open spec fn any_selects(
    patterns: Seq<String>,
    path: Seq<char>,
    basename: Seq<char>,
) -> bool {
    exists|i: int| 0 <= i < patterns.len() && #[trigger] selects(patterns[i]@, path, basename)
}

/// The last slash-separated segment of a path.
pub open spec fn basename_of(path: Seq<char>) -> Seq<char> {
    text::split_on(path, '/').last()
}

impl FilterSet {
    /// Whether any pattern is configured.
    pub open spec fn active(&self) -> bool {
        self.includes.len() > 0 || self.excludes.len() > 0
    }

    /// Whether the path `path` passes.
    pub open spec fn lets_pass(&self, path: Seq<char>) -> bool {
        any_selects(self.includes@, path, basename_of(path)) || !any_selects(
            self.excludes@,
            path,
            basename_of(path),
        )
    }
}

/// A filter without patterns lets every path pass.
pub proof fn law_inactive_passes_everything(filter: &FilterSet, path: Seq<char>)
    requires
        !filter.active(),
    ensures
        filter.lets_pass(path),
{
}

/// A path that an include matches passes, whatever the excludes say.
pub proof fn law_includes_override_excludes(filter: &FilterSet, path: Seq<char>, i: int)
    requires
        0 <= i < filter.includes.len(),
        selects(filter.includes[i]@, path, basename_of(path)),
    ensures
        filter.lets_pass(path),
{
}

proof fn lemma_wild_literal(pattern: Seq<char>, t: Seq<char>)
    requires
        !wildcarded(pattern),
    ensures
        wild(pattern, t) == (pattern == t),
    decreases pattern.len(),
{
    if pattern.len() == 0 {
        if t.len() == 0 {
            assert(pattern =~= t);
        }
    } else {
        let rest = pattern.skip(1);
        assert(pattern.contains(pattern[0]));
        assert(!wildcarded(rest)) by {
            if rest.contains('*') {
                let i = choose|i: int| 0 <= i < rest.len() && rest[i] == '*';
                assert(pattern[i + 1] == '*');
            }
            if rest.contains('?') {
                let i = choose|i: int| 0 <= i < rest.len() && rest[i] == '?';
                assert(pattern[i + 1] == '?');
            }
        }
        if t.len() > 0 {
            lemma_wild_literal(rest, t.skip(1));
            assert(pattern =~= seq![pattern[0]] + rest);
            assert(t =~= seq![t[0]] + t.skip(1));
        }
    }
}

/// Whether the star-free stretch `pattern[p0..p1]` matches `t[t0..t0 + p1 - p0]`
/// character by character.
spec fn stretch(pattern: Seq<char>, p0: int, p1: int, t: Seq<char>, t0: int) -> bool {
    forall|i: int|
        p0 <= i < p1 ==> #[trigger] pattern[i] != '*' && 0 <= t0 + (i - p0) < t.len() && (
        pattern[i] == '?' || pattern[i] == t[t0 + (i - p0)])
}

/// A star-free stretch of the pattern takes one character each.
proof fn lemma_stretch(pattern: Seq<char>, p0: int, p1: int, t: Seq<char>, t0: int)
    requires
        0 <= p0 <= p1 <= pattern.len(),
        0 <= t0 <= t.len(),
        forall|i: int| p0 <= i < p1 ==> #[trigger] pattern[i] != '*',
    ensures
        wild(pattern.skip(p0), t.skip(t0)) == (stretch(pattern, p0, p1, t, t0) && t0 + (p1 - p0)
            <= t.len() && wild(pattern.skip(p1), t.skip(t0 + (p1 - p0)))),
    decreases p1 - p0,
{
    if p0 < p1 {
        let a = pattern.skip(p0);
        let b = t.skip(t0);
        assert(a[0] == pattern[p0]);
        assert(a.skip(1) =~= pattern.skip(p0 + 1));
        if t0 < t.len() {
            assert(b[0] == t[t0]);
            assert(b.skip(1) =~= t.skip(t0 + 1));
            lemma_stretch(pattern, p0 + 1, p1, t, t0 + 1);
            if stretch(pattern, p0, p1, t, t0) {
                assert(pattern[p0] == '?' || pattern[p0] == t[t0]);
                assert forall|i: int| p0 + 1 <= i < p1 implies #[trigger] pattern[i] != '*' && 0
                    <= t0 + 1 + (i - (p0 + 1)) < t.len() && (pattern[i] == '?' || pattern[i]
                    == t[t0 + 1 + (i - (p0 + 1))]) by {
                    assert(t0 + 1 + (i - (p0 + 1)) == t0 + (i - p0));
                }
            } else if (pattern[p0] == '?' || pattern[p0] == t[t0]) && stretch(
                pattern,
                p0 + 1,
                p1,
                t,
                t0 + 1,
            ) {
                assert forall|i: int| p0 <= i < p1 implies #[trigger] pattern[i] != '*' && 0 <= t0
                    + (i - p0) < t.len() && (pattern[i] == '?' || pattern[i] == t[t0 + (i
                    - p0)]) by {
                    if i > p0 {
                        assert(t0 + 1 + (i - (p0 + 1)) == t0 + (i - p0));
                    }
                }
            }
        } else {
            assert(b.len() == 0);
            assert(!wild(a, b));
            assert(pattern[p0] != '*');
            assert(!stretch(pattern, p0, p1, t, t0));
        }
    } else {
        assert(t0 + (p1 - p0) == t0);
    }
}

/// Whether what follows the star at `star` matches some rest of `t` that
/// starts at `from` or later.
spec fn resumes(pattern: Seq<char>, star: int, t: Seq<char>, from: int) -> bool {
    exists|k: int| from <= k <= t.len() && wild(pattern.skip(star + 1), #[trigger] t.skip(k))
}

/// A star at `p` matches iff the pattern resumes somewhere.
proof fn lemma_star(pattern: Seq<char>, p: int, t: Seq<char>, from: int)
    requires
        0 <= p < pattern.len(),
        pattern[p] == '*',
        0 <= from <= t.len(),
    ensures
        wild(pattern.skip(p), t.skip(from)) == resumes(pattern, p, t, from),
{
    let a = pattern.skip(p);
    let b = t.skip(from);
    assert(a[0] == '*');
    assert(a.skip(1) =~= pattern.skip(p + 1));
    if wild(a, b) {
        let k = choose|k: int| 0 <= k <= b.len() && wild(a.skip(1), #[trigger] b.skip(k));
        assert(b.skip(k) =~= t.skip(from + k));
        assert(wild(pattern.skip(p + 1), t.skip(from + k)));
    }
    if resumes(pattern, p, t, from) {
        let k = choose|k: int|
            from <= k <= t.len() && wild(pattern.skip(p + 1), #[trigger] t.skip(k));
        assert(b.skip(k - from) =~= t.skip(k));
        assert(wild(a.skip(1), b.skip(k - from)));
    }
}

/// A later star takes over from an earlier one: whatever the earlier star
/// could still absorb, the later one can absorb too.
proof fn lemma_star_takes_over(
    pattern: Seq<char>,
    star: int,
    p: int,
    t: Seq<char>,
    star_t: int,
    at: int,
)
    requires
        0 <= star < p < pattern.len(),
        pattern[p] == '*',
        0 <= star_t <= at <= t.len(),
        at - star_t == p - (star + 1),
        stretch(pattern, star + 1, p, t, star_t),
    ensures
        resumes(pattern, star, t, star_t) == resumes(pattern, p, t, at),
{
    assert(forall|i: int| star + 1 <= i < p ==> #[trigger] pattern[i] != '*');
    if resumes(pattern, star, t, star_t) {
        let k = choose|k: int|
            star_t <= k <= t.len() && wild(pattern.skip(star + 1), #[trigger] t.skip(k));
        lemma_stretch(pattern, star + 1, p, t, k);
        let k2 = k + (p - (star + 1));
        lemma_star(pattern, p, t, k2);
        let k3 = choose|k3: int|
            k2 <= k3 <= t.len() && wild(pattern.skip(p + 1), #[trigger] t.skip(k3));
        assert(at <= k3 <= t.len() && wild(pattern.skip(p + 1), t.skip(k3)));
    }
    if resumes(pattern, p, t, at) {
        lemma_star(pattern, p, t, at);
        lemma_stretch(pattern, star + 1, p, t, star_t);
        assert(wild(pattern.skip(star + 1), t.skip(star_t)));
    }
}

/// When the rest after a star does not match here, the star must absorb one
/// more character.
proof fn lemma_star_advances(pattern: Seq<char>, star: int, t: Seq<char>, star_t: int)
    requires
        0 <= star < pattern.len(),
        0 <= star_t < t.len(),
        !wild(pattern.skip(star + 1), t.skip(star_t)),
    ensures
        resumes(pattern, star, t, star_t) == resumes(pattern, star, t, star_t + 1),
{
    if resumes(pattern, star, t, star_t) {
        let k = choose|k: int|
            star_t <= k <= t.len() && wild(pattern.skip(star + 1), #[trigger] t.skip(k));
        assert(k != star_t);
        assert(star_t + 1 <= k <= t.len() && wild(pattern.skip(star + 1), t.skip(k)));
    }
    if resumes(pattern, star, t, star_t + 1) {
        let k = choose|k: int|
            star_t + 1 <= k <= t.len() && wild(pattern.skip(star + 1), #[trigger] t.skip(k));
        assert(star_t <= k <= t.len() && wild(pattern.skip(star + 1), t.skip(k)));
    }
}

/// Only stars match the empty text.
proof fn lemma_wild_empty(pattern: Seq<char>, p: int, t: Seq<char>)
    requires
        0 <= p <= pattern.len(),
    ensures
        wild(pattern.skip(p), t.skip(t.len() as int)) == (forall|i: int|
            p <= i < pattern.len() ==> pattern[i] == '*'),
    decreases pattern.len() - p,
{
    let n = t.len() as int;
    let a = pattern.skip(p);
    if p < pattern.len() {
        assert(a[0] == pattern[p]);
        assert(a.skip(1) =~= pattern.skip(p + 1));
        lemma_wild_empty(pattern, p + 1, t);
        if pattern[p] == '*' {
            lemma_star(pattern, p, t, n);
            if resumes(pattern, p, t, n) {
                let k = choose|k: int|
                    n <= k <= t.len() && wild(pattern.skip(p + 1), #[trigger] t.skip(k));
                assert(k == n);
            }
            if wild(pattern.skip(p + 1), t.skip(n)) {
                assert(resumes(pattern, p, t, n));
            }
        }
    }
}

/// Whether a pattern holds a wildcard.
pub fn has_wildcards(pattern: &Vec<char>) -> (r: bool)
    ensures
        r == wildcarded(pattern@),
{
    let mut i: usize = 0;
    while i < pattern.len()
        invariant
            i <= pattern.len(),
            forall|j: int| 0 <= j < i ==> pattern@[j] != '*' && pattern@[j] != '?',
        decreases pattern.len() - i,
    {
        if pattern[i] == '*' || pattern[i] == '?' {
            assert(pattern@.contains(pattern@[i as int]));
            return true;
        }
        i += 1;
    }
    false
}

/// Match `pattern` against the whole of `text`: the linear wildcard matcher,
/// which remembers the last `*` and lets it absorb one more character whenever
/// the stretch behind it fails to match.
pub fn glob(pattern: &Vec<char>, text: &Vec<char>) -> (r: bool)
    ensures
        r == wild(pattern@, text@),
{
    if !has_wildcards(pattern) {
        proof {
            lemma_wild_literal(pattern@, text@);
        }
        return text::same_chars(pattern, text);
    }
    let mut p: usize = 0;
    let mut t: usize = 0;
    let mut starred: bool = false;
    let mut star_p: usize = 0;
    let mut star_t: usize = 0;
    proof {
        assert(pattern@.skip(0) =~= pattern@);
        assert(text@.skip(0) =~= text@);
    }
    while t < text.len()
        invariant
            p <= pattern.len(),
            t <= text.len(),
            !starred ==> wild(pattern@, text@) == wild(pattern@.skip(p as int), text@.skip(
                t as int,
            )),
            starred ==> star_p < p && star_t <= t && t - star_t == p - (star_p + 1),
            starred ==> pattern@[star_p as int] == '*',
            starred ==> stretch(pattern@, star_p + 1, p as int, text@, star_t as int),
            starred ==> wild(pattern@, text@) == resumes(
                pattern@,
                star_p as int,
                text@,
                star_t as int,
            ),
        decreases
                (if starred {
                    text.len() - star_t
                } else {
                    text.len() + 1
                }),
                (if starred {
                    pattern.len() - star_p
                } else {
                    0
                }),
                text.len() - t,
    {
        proof {
            assert(pattern@.skip(p as int).len() == pattern.len() - p);
            assert(text@.skip(t as int)[0] == text@[t as int]);
            assert(text@.skip(t as int).skip(1) =~= text@.skip(t + 1));
            if p < pattern.len() {
                assert(pattern@.skip(p as int)[0] == pattern@[p as int]);
                assert(pattern@.skip(p as int).skip(1) =~= pattern@.skip(p + 1));
            }
            if starred {
                lemma_stretch(pattern@, star_p + 1, p as int, text@, star_t as int);
            }
        }
        if p < pattern.len() && pattern[p] == '*' {
            proof {
                lemma_star(pattern@, p as int, text@, t as int);
                if starred {
                    lemma_star_takes_over(
                        pattern@,
                        star_p as int,
                        p as int,
                        text@,
                        star_t as int,
                        t as int,
                    );
                }
            }
            starred = true;
            star_p = p;
            star_t = t;
            p += 1;
        } else if p < pattern.len() && (pattern[p] == '?' || pattern[p] == text[t]) {
            p += 1;
            t += 1;
        } else if starred {
            proof {
                assert(!wild(pattern@.skip(p as int), text@.skip(t as int)));
                lemma_star_advances(pattern@, star_p as int, text@, star_t as int);
            }
            p = star_p + 1;
            star_t += 1;
            t = star_t;
        } else {
            return false;
        }
    }
    proof {
        lemma_wild_empty(pattern@, p as int, text@);
        if starred {
            lemma_stretch(pattern@, star_p + 1, p as int, text@, star_t as int);
            if resumes(pattern@, star_p as int, text@, star_t as int) {
                let k = choose|k: int|
                    star_t <= k <= text.len() && wild(pattern@.skip(star_p + 1),
                        #[trigger] text@.skip(k),
                    );
                lemma_stretch(pattern@, star_p + 1, p as int, text@, k);
                assert(k == star_t);
            }
            if wild(pattern@.skip(star_p + 1), text@.skip(star_t as int)) {
                assert(resumes(pattern@, star_p as int, text@, star_t as int));
            }
        }
    }
    let ghost stopped = p;
    while p < pattern.len() && pattern[p] == '*'
        invariant
            stopped <= p <= pattern.len(),
            forall|i: int| stopped <= i < p ==> pattern@[i] == '*',
        decreases pattern.len() - p,
    {
        p += 1;
    }
    p == pattern.len()
}

/// Whether `pattern` matches `path` or names a directory above it.
pub fn prefix_matches(pattern: &Vec<char>, path: &Vec<char>) -> (r: bool)
    ensures
        r == rooted(pattern@, path@),
{
    if glob(pattern, path) {
        return true;
    }
    let n: usize = pattern.len();
    if path.len() <= n || path[n] != '/' {
        proof {
            if pattern@.push('/').is_prefix_of(path@) {
                assert(pattern@.push('/')[n as int] == path@.subrange(0, n + 1)[n as int]);
            }
        }
        return false;
    }
    let r = match_at(pattern, path, 0);
    proof {
        assert(path@.skip(0) =~= path@);
        if r {
            assert(pattern@.push('/') =~= path@.subrange(0, n + 1));
        } else if pattern@.push('/').is_prefix_of(path@) {
            assert(pattern@ =~= path@.subrange(0, n as int)) by {
                assert forall|i: int| 0 <= i < n implies pattern@[i] == path@.subrange(
                    0,
                    n as int,
                )[i] by {
                    assert(pattern@.push('/')[i] == path@.subrange(0, n + 1)[i]);
                }
            }
        }
    }
    r
}

/// Whether `needle` stands in `hay` at `at`.
fn match_at(needle: &Vec<char>, hay: &Vec<char>, at: usize) -> (r: bool)
    requires
        at <= hay.len(),
    ensures
        r == needle@.is_prefix_of(hay@.skip(at as int)),
{
    if needle.len() > hay.len() - at {
        return false;
    }
    let mut i: usize = 0;
    while i < needle.len()
        invariant
            i <= needle.len() <= hay.len() - at,
            forall|j: int| 0 <= j < i ==> needle@[j] == hay@[at + j],
        decreases needle.len() - i,
    {
        if needle[i] != hay[at + i] {
            proof {
                if needle@.is_prefix_of(hay@.skip(at as int)) {
                    assert(needle@[i as int] == hay@.skip(at as int).subrange(
                        0,
                        needle.len() as int,
                    )[i as int]);
                }
            }
            return false;
        }
        i += 1;
    }
    assert(needle@ =~= hay@.skip(at as int).subrange(0, needle.len() as int));
    true
}

/// The rest of `v` from `from` on.
fn rest_of(v: &Vec<char>, from: usize, to: usize) -> (out: Vec<char>)
    requires
        from <= to <= v.len(),
    ensures
        out@ == v@.subrange(from as int, to as int),
{
    let mut out: Vec<char> = Vec::new();
    let mut i: usize = from;
    while i < to
        invariant
            from <= i <= to <= v.len(),
            out@ == v@.subrange(from as int, i as int),
        decreases to - i,
    {
        out.push(v[i]);
        i += 1;
    }
    out
}

/// The matching part of a pattern.
fn core_of(pattern: &Vec<char>) -> (out: Vec<char>)
    ensures
        out@ == pattern_core(pattern@),
{
    let mut from: usize = 0;
    assert(pattern@.skip(0) =~= pattern@);
    while from < pattern.len() && pattern[from] == '/'
        invariant
            from <= pattern.len(),
            unslash_front(pattern@) == unslash_front(pattern@.skip(from as int)),
        decreases pattern.len() - from,
    {
        assert(pattern@.skip(from as int).skip(1) =~= pattern@.skip(from + 1));
        from += 1;
    }
    let ghost tail = pattern@.skip(from as int);
    let mut to: usize = pattern.len();
    assert(pattern@.subrange(from as int, to as int) =~= tail);
    while to > from && pattern[to - 1] == '/'
        invariant
            from <= to <= pattern.len(),
            unslash_back(tail) == unslash_back(pattern@.subrange(from as int, to as int)),
        decreases to,
    {
        assert(pattern@.subrange(from as int, to as int).drop_last() =~= pattern@.subrange(
            from as int,
            to - 1,
        ));
        to -= 1;
    }
    let ghost bare = pattern@.subrange(from as int, to as int);
    assert(bare == unslash_back(unslash_front(pattern@)));
    if to - from >= 3 && pattern[from] == '*' && pattern[from + 1] == '*' && pattern[from + 2]
        == '/' {
        assert(seq!['*', '*', '/'] =~= bare.subrange(0, 3));
        let out = rest_of(pattern, from + 3, to);
        assert(out@ =~= bare.skip(3));
        out
    } else {
        proof {
            if seq!['*', '*', '/'].is_prefix_of(bare) {
                let three = seq!['*', '*', '/'];
                assert(three[0] == bare.subrange(0, 3)[0]);
                assert(three[1] == bare.subrange(0, 3)[1]);
                assert(three[2] == bare.subrange(0, 3)[2]);
            }
        }
        rest_of(pattern, from, to)
    }
}

/// Whether `pattern` matches `path`, using `basename` for slashless patterns.
pub fn pattern_matches(pattern: &str, path: &str, basename: &str) -> (r: bool)
    ensures
        r == selects(pattern@, path@, basename@),
{
    let p = text::chars_of(pattern);
    let anchored = p.len() > 0 && p[0] == '/';
    let core = core_of(&p);
    if core.len() == 0 {
        return false;
    }
    let whole = text::chars_of(path);
    if anchored {
        return prefix_matches(&core, &whole);
    }
    let mut slashed = false;
    let mut i: usize = 0;
    while i < core.len()
        invariant
            i <= core.len(),
            slashed == core@.take(i as int).contains('/'),
        decreases core.len() - i,
    {
        proof {
            let now = core@.take(i as int);
            let next = core@.take(i + 1);
            assert(next =~= now.push(core@[i as int]));
            if now.contains('/') {
                let j = choose|j: int| 0 <= j < now.len() && now[j] == '/';
                assert(next[j] == '/');
            }
            if core@[i as int] == '/' {
                assert(next[i as int] == '/');
            }
            if next.contains('/') && core@[i as int] != '/' {
                let j = choose|j: int| 0 <= j < next.len() && next[j] == '/';
                assert(now[j] == '/');
            }
        }
        if core[i] == '/' {
            slashed = true;
        }
        i += 1;
    }
    assert(core@.take(i as int) =~= core@);
    if !slashed {
        let base = text::chars_of(basename);
        return glob(&core, &base);
    }
    let wildcards = has_wildcards(&core);
    let mut start: usize = 0;
    while start <= whole.len()
        invariant
            start <= whole.len() + 1,
            whole@ == path@,
            wildcards == wildcarded(core@),
            wildcards ==> forall|k: int|
                0 <= k < start && k <= whole.len() ==> !wild(core@, #[trigger] path@.skip(k)),
            !wildcards ==> forall|k: int|
                0 <= k < start && k <= whole.len() ==> !core@.is_prefix_of(
                    #[trigger] path@.skip(k),
                ),
            core@ == pattern_core(pattern@),
            core@.len() > 0,
            core@.contains('/'),
            !(pattern@.len() > 0 && pattern@[0] == '/'),
        decreases whole.len() + 1 - start,
    {
        let hit = if wildcards {
            let rest = rest_of(&whole, start, whole.len());
            assert(rest@ =~= path@.skip(start as int));
            glob(&core, &rest)
        } else {
            match_at(&core, &whole, start)
        };
        if hit {
            return true;
        }
        if start == whole.len() {
            return false;
        }
        start += 1;
    }
    false
}

/// Whether some pattern of the list matches.
fn any_matches(patterns: &Vec<String>, path: &str, basename: &str) -> (r: bool)
    ensures
        r == any_selects(patterns@, path@, basename@),
{
    let mut i: usize = 0;
    while i < patterns.len()
        invariant
            i <= patterns.len(),
            forall|j: int| 0 <= j < i ==> !#[trigger] selects(patterns@[j]@, path@, basename@),
        decreases patterns.len() - i,
    {
        if pattern_matches(patterns[i].as_str(), path, basename) {
            return true;
        }
        i += 1;
    }
    false
}

impl FilterSet {
    /// Whether any filter is configured.
    pub fn is_active(&self) -> (r: bool)
        ensures
            r == self.active(),
    {
        self.includes.len() > 0 || self.excludes.len() > 0
    }

    /// A filter with the same patterns.
    pub fn copy(&self) -> (r: FilterSet)
        ensures
            r.includes@ == self.includes@,
            r.excludes@ == self.excludes@,
    {
        FilterSet {
            includes: text::copy_strings(&self.includes),
            excludes: text::copy_strings(&self.excludes),
        }
    }

    /// Whether the slash-separated relative path `path` passes the filter.
    pub fn passes(&self, path: &str) -> (r: bool)
        ensures
            r == self.lets_pass(path@),
    {
        if !self.is_active() {
            return true;
        }
        let segs = text::split(path, '/');
        proof {
            text::lemma_split_pieces(path@, '/');
            assert(text::views(segs@).last() == segs[segs.len() - 1]@);
        }
        let basename = segs[segs.len() - 1].as_str();
        any_matches(&self.includes, path, basename) || !any_matches(&self.excludes, path, basename)
    }
}

impl Default for FilterSet {
    fn default() -> (r: FilterSet)
        ensures
            r.includes@.len() == 0,
            r.excludes@.len() == 0,
    {
        FilterSet { includes: Vec::new(), excludes: Vec::new() }
    }
}

/// Whether a text can be divided so that one pattern matches the first part and
/// another the rest.
pub open spec fn divides(p: Seq<char>, q: Seq<char>, t: Seq<char>) -> bool {
    exists|k: int| 0 <= k <= t.len() && wild(p, t.take(k)) && wild(q, #[trigger] t.skip(k))
}

/// What wildcards mean: a pattern put together of two matches what can be divided
/// between them; `*` matches every text, `?` every single character, and any
/// other character only itself.
pub proof fn law_wildcards_mean_what_they_say(
    p: Seq<char>,
    q: Seq<char>,
    t: Seq<char>,
    c: char,
)
    ensures
        wild(p + q, t) <==> divides(p, q, t),
        wild(seq!['*'], t),
        wild(seq!['?'], t) <==> t.len() == 1,
        c != '*' && c != '?' ==> (wild(seq![c], t) <==> t == seq![c]),
        wild(Seq::empty(), t) <==> t.len() == 0,
{
    lemma_wild_concat(p, q, t);
    let star = seq!['*'];
    assert(star.skip(1) =~= Seq::empty());
    assert(t.skip(t.len() as int) =~= Seq::empty());
    assert(wild(star.skip(1), t.skip(t.len() as int)));
    let one = seq!['?'];
    assert(one.skip(1) =~= Seq::empty());
    assert(one[0] == '?');
    if t.len() > 0 {
        assert(wild(one.skip(1), t.skip(1)) == (t.skip(1).len() == 0));
        assert(wild(one, t) == wild(one.skip(1), t.skip(1)));
    } else {
        assert(!wild(one, t));
    }
    let lit = seq![c];
    if c != '*' && c != '?' {
        assert(lit[0] == c);
        assert(!wildcarded(lit));
        lemma_wild_literal(lit, t);
    }
}

proof fn lemma_wild_concat(p: Seq<char>, q: Seq<char>, t: Seq<char>)
    ensures
        wild(p + q, t) <==> divides(p, q, t),
    decreases p.len(),
{
    let whole = p + q;
    if p.len() == 0 {
        assert(whole =~= q);
        assert(t.skip(0) =~= t);
        assert(t.take(0) =~= Seq::empty());
        if wild(whole, t) {
            assert(wild(q, t.skip(0)));
        }
        if divides(p, q, t) {
            let k = choose|k: int|
                0 <= k <= t.len() && wild(p, t.take(k)) && wild(q, #[trigger] t.skip(k));
            assert(t.take(k).len() == k);
        }
    } else {
        let rest = p.skip(1);
        assert(whole.skip(1) =~= rest + q);
        assert(whole[0] == p[0]);
        if p[0] == '*' {
            if wild(whole, t) {
                let j = choose|j: int|
                    0 <= j <= t.len() && wild(whole.skip(1), #[trigger] t.skip(j));
                let u = t.skip(j);
                lemma_wild_concat(rest, q, u);
                let k = choose|k: int|
                    0 <= k <= u.len() && wild(rest, u.take(k)) && wild(q, #[trigger] u.skip(k));
                let head = t.take(j + k);
                assert(head.skip(j) =~= u.take(k));
                assert(wild(rest, head.skip(j)));
                assert(u.skip(k) =~= t.skip(j + k));
                assert(wild(p, head));
                assert(wild(q, t.skip(j + k)));
            }
            if divides(p, q, t) {
                let m = choose|m: int|
                    0 <= m <= t.len() && wild(p, t.take(m)) && wild(q, #[trigger] t.skip(m));
                let head = t.take(m);
                let j = choose|j: int|
                    0 <= j <= head.len() && wild(rest, #[trigger] head.skip(j));
                let u = t.skip(j);
                assert(u.take(m - j) =~= head.skip(j));
                assert(u.skip(m - j) =~= t.skip(m));
                assert(wild(rest, u.take(m - j)) && wild(q, u.skip(m - j)));
                lemma_wild_concat(rest, q, u);
                assert(wild(whole.skip(1), t.skip(j)));
            }
        } else {
            if t.len() > 0 {
                let u = t.skip(1);
                lemma_wild_concat(rest, q, u);
                if wild(whole, t) {
                    let k = choose|k: int|
                        0 <= k <= u.len() && wild(rest, u.take(k)) && wild(q, #[trigger] u.skip(k));
                    assert(t.take(k + 1).skip(1) =~= u.take(k));
                    assert(t.take(k + 1)[0] == t[0]);
                    assert(u.skip(k) =~= t.skip(k + 1));
                    assert(wild(p, t.take(k + 1)) && wild(q, t.skip(k + 1)));
                }
                if divides(p, q, t) {
                    let k = choose|k: int|
                        0 <= k <= t.len() && wild(p, t.take(k)) && wild(q, #[trigger] t.skip(k));
                    assert(k > 0);
                    assert(t.take(k).skip(1) =~= u.take(k - 1));
                    assert(t.take(k)[0] == t[0]);
                    assert(u.skip(k - 1) =~= t.skip(k));
                    assert(wild(rest, u.take(k - 1)) && wild(q, u.skip(k - 1)));
                }
            } else {
                if divides(p, q, t) {
                    let k = choose|k: int|
                        0 <= k <= t.len() && wild(p, t.take(k)) && wild(q, #[trigger] t.skip(k));
                    assert(t.take(k).len() == 0);
                }
            }
        }
    }
}

/// Whether a pattern is written without slashes at its ends and without a leading
/// `**/`.
pub open spec fn is_bare(pattern: Seq<char>) -> bool {
    &&& pattern.len() > 0
    &&& pattern[0] != '/'
    &&& pattern.last() != '/'
    &&& !(pattern.len() >= 3 && pattern[0] == '*' && pattern[1] == '*' && pattern[2] == '/')
}

proof fn lemma_bare_core(pattern: Seq<char>)
    requires
        is_bare(pattern),
    ensures
        pattern_core(pattern) == pattern,
{
    let lead = seq!['*', '*', '/'];
    if lead.is_prefix_of(pattern) {
        assert(pattern[0] == lead[0] && pattern[1] == lead[1] && pattern[2] == lead[2]);
    }
}

/// A pattern with a slash inside matches at any depth: what it matches, it
/// matches below every directory.
pub proof fn law_patterns_with_a_slash_match_at_any_depth(
    pattern: Seq<char>,
    dir: Seq<char>,
    path: Seq<char>,
)
    requires
        is_bare(pattern),
        pattern.contains('/'),
        selects(pattern, path, basename_of(path)),
    ensures
        selects(pattern, dir.push('/') + path, basename_of(dir.push('/') + path)),
{
    lemma_bare_core(pattern);
    let deep = dir.push('/') + path;
    let n = dir.len() as int + 1;
    if wildcarded(pattern) {
        let k = choose|k: int| 0 <= k <= path.len() && wild(pattern, #[trigger] path.skip(k));
        assert(deep.skip(n + k) =~= path.skip(k));
        assert(wild(pattern, deep.skip(n + k)));
    } else {
        let k = choose|k: int|
            0 <= k <= path.len() && pattern.is_prefix_of(#[trigger] path.skip(k));
        assert(deep.skip(n + k) =~= path.skip(k));
        assert(pattern.is_prefix_of(deep.skip(n + k)));
    }
}

/// A literal pattern with a slash inside matches exactly the paths that contain
/// it.
pub proof fn law_literal_patterns_match_what_contains_them(
    pattern: Seq<char>,
    before: Seq<char>,
    after: Seq<char>,
    path: Seq<char>,
)
    requires
        is_bare(pattern),
        pattern.contains('/'),
        !pattern.contains('*'),
        !pattern.contains('?'),
    ensures
        selects(
            pattern,
            before + pattern + after,
            basename_of(before + pattern + after),
        ),
        selects(pattern, path, basename_of(path)) ==> exists|k: int|
            0 <= k && k + pattern.len() <= path.len() && #[trigger] path.subrange(
                k,
                k + pattern.len(),
            ) == pattern,
{
    lemma_bare_core(pattern);
    let whole = before + pattern + after;
    let n = before.len() as int;
    assert(pattern =~= whole.skip(n).take(pattern.len() as int));
    assert(pattern.is_prefix_of(whole.skip(n)));
    if selects(pattern, path, basename_of(path)) {
        let k = choose|k: int|
            0 <= k <= path.len() && pattern.is_prefix_of(#[trigger] path.skip(k));
        assert(path.skip(k).subrange(0, pattern.len() as int) =~= path.subrange(
            k,
            k + pattern.len(),
        ));
    }
}

/// A pattern with a slash and wildcards matches exactly the paths of which it
/// matches an end.
pub proof fn law_wildcards_with_a_slash_match_an_end(
    pattern: Seq<char>,
    before: Seq<char>,
    end: Seq<char>,
    path: Seq<char>,
)
    requires
        is_bare(pattern),
        pattern.contains('/'),
        pattern.contains('*') || pattern.contains('?'),
    ensures
        wild(pattern, end) ==> selects(pattern, before + end, basename_of(before + end)),
        selects(pattern, path, basename_of(path)) ==> exists|k: int|
            0 <= k <= path.len() && wild(pattern, #[trigger] path.skip(k)),
{
    lemma_bare_core(pattern);
    if wild(pattern, end) {
        assert((before + end).skip(before.len() as int) =~= end);
    }
}

/// A pattern without a slash is held against the last name of a path alone,
/// wherever that is.
pub proof fn law_patterns_without_a_slash_match_the_name(
    pattern: Seq<char>,
    dir: Seq<char>,
    name: Seq<char>,
)
    requires
        is_bare(pattern),
        !pattern.contains('/'),
        !name.contains('/'),
    ensures
        selects(pattern, name, basename_of(name)) <==> wild(pattern, name),
        selects(pattern, dir.push('/') + name, basename_of(dir.push('/') + name)) <==> wild(
            pattern,
            name,
        ),
        !pattern.contains('*') && !pattern.contains('?') ==> (selects(
            pattern,
            dir.push('/') + name,
            basename_of(dir.push('/') + name),
        ) <==> pattern == name),
{
    lemma_bare_core(pattern);
    assert forall|i: int| 0 <= i < name.len() implies name[i] != '/' by {
        assert(name.contains(name[i]));
    }
    text::lemma_split_none(name, '/');
    text::lemma_split_joined(dir, name, '/');
    if !wildcarded(pattern) {
        lemma_wild_literal(pattern, name);
    }
}

/// A pattern with a leading slash is held against the whole path from the scan
/// root: it matches that path, or what lies below the directory that it names.
pub proof fn law_anchored_patterns_start_at_the_root(core: Seq<char>, path: Seq<char>)
    requires
        is_bare(core),
    ensures
        selects(seq!['/'] + core, path, basename_of(path)) <==> wild(core, path) || (core.len()
            < path.len() && path.take(core.len() as int) == core && path[core.len() as int]
            == '/'),
        !core.contains('*') && !core.contains('?') ==> (wild(core, path) <==> core == path),
{
    let pattern = seq!['/'] + core;
    assert(pattern.skip(1) =~= core);
    assert(unslash_front(core) == core);
    assert(unslash_front(pattern) == core);
    lemma_bare_core(core);
    assert(pattern_core(pattern) == core);
    let dir = core.push('/');
    if dir.is_prefix_of(path) {
        assert(path[core.len() as int] == dir[core.len() as int]);
        assert(path.take(core.len() as int) =~= core);
    }
    if core.len() < path.len() && path.take(core.len() as int) == core && path[core.len() as int]
        == '/' {
        assert forall|i: int| 0 <= i < dir.len() implies dir[i] == path[i] by {
            if i < core.len() {
                assert(path.take(core.len() as int)[i] == path[i]);
            }
        }
        assert(dir =~= path.subrange(0, dir.len() as int));
    }
    if !wildcarded(core) {
        lemma_wild_literal(core, path);
    }
}

/// Slashes at the end of a pattern and a `**/` in front of it change nothing, and
/// a pattern of slashes alone matches nothing.
pub proof fn law_outer_slashes_do_not_matter(pattern: Seq<char>, path: Seq<char>)
    requires
        is_bare(pattern),
    ensures
        selects(pattern.push('/'), path, basename_of(path)) == selects(
            pattern,
            path,
            basename_of(path),
        ),
        selects(seq!['*', '*', '/'] + pattern, path, basename_of(path)) == selects(
            pattern,
            path,
            basename_of(path),
        ),
        !selects(Seq::empty(), path, basename_of(path)),
        !selects(seq!['/'], path, basename_of(path)),
{
    lemma_bare_core(pattern);
    let long = pattern.push('/');
    assert(long.drop_last() =~= pattern);
    assert(unslash_front(long) == long);
    assert(unslash_back(pattern) == pattern);
    assert(unslash_back(long) == pattern);
    let lead = seq!['*', '*', '/'];
    let deep = lead + pattern;
    assert(deep.last() == pattern.last());
    assert(unslash_front(deep) == deep && unslash_back(deep) == deep);
    assert(lead =~= deep.subrange(0, 3));
    assert(deep.skip(3) =~= pattern);
    let slash = seq!['/'];
    assert(slash.skip(1) =~= Seq::empty());
    assert(unslash_front(slash.skip(1)) == slash.skip(1));
    assert(unslash_back(Seq::<char>::empty()) == Seq::<char>::empty());
    let none = Seq::<char>::empty();
    assert(!lead.is_prefix_of(none));
    assert(pattern_core(slash) == none);
    assert(pattern_core(none) == none);
}

/// A path is left out exactly when an exclude matches it and no include does.
pub proof fn law_excludes_need_an_include_to_pass(filter: &FilterSet, path: Seq<char>, i: int)
    ensures
        0 <= i < filter.excludes.len() && selects(
            filter.excludes[i]@,
            path,
            basename_of(path),
        ) && (forall|j: int|
            0 <= j < filter.includes.len() ==> !selects(
                #[trigger] filter.includes[j]@,
                path,
                basename_of(path),
            )) ==> !filter.lets_pass(path),
        (forall|j: int|
            0 <= j < filter.excludes.len() ==> !selects(
                #[trigger] filter.excludes[j]@,
                path,
                basename_of(path),
            )) ==> filter.lets_pass(path),
{
}

/// A filter is active exactly when it holds a pattern of either kind.
pub proof fn law_patterns_make_a_filter_active(filter: &FilterSet)
    ensures
        filter.includes@.len() > 0 ==> filter.active(),
        filter.excludes@.len() > 0 ==> filter.active(),
        filter.includes@.len() == 0 && filter.excludes@.len() == 0 ==> !filter.active(),
{
}

} // verus!
