//! Paths as an operating system writes them.
//!
//! The library works on portable paths: slash-separated, and read by the rules
//! of [`crate::path`]. A Windows path has separators of two kinds and may begin
//! with a prefix, a drive or a share; in its portable form the prefix is the
//! first name below the root, written with backslashes.

use vstd::prelude::*;

use crate::path;
use crate::protocol::TargetOs;
use crate::text;

verus! {

/// Whether Windows reads a character as a separator.
pub open spec fn is_sep(c: char) -> bool {
    c == '/' || c == '\\'
}

/// Where the segment that begins at `from` ends.
pub open spec fn segment_end(p: Seq<char>, from: int) -> int
    decreases p.len() - from,
{
    if from >= p.len() || from < 0 {
        p.len() as int
    } else if is_sep(p[from]) {
        from
    } else {
        segment_end(p, from + 1)
    }
}

/// Where the segment behind the one that begins at `from` ends, if both hold
/// something; 0 where they do not.
pub open spec fn second_end(p: Seq<char>, from: int) -> int {
    let first = segment_end(p, from);
    let second = segment_end(p, first + 1);
    if from < first < p.len() && first + 1 < second {
        second
    } else {
        0
    }
}

/// Whether a Windows path begins with a drive.
pub open spec fn has_drive(p: Seq<char>) -> bool {
    p.len() >= 2 && p[1] == ':' && ('a' <= p[0] <= 'z' || 'A' <= p[0] <= 'Z')
}

/// The length of the prefix of a Windows path: a drive, `\\server\share`, or
/// one of the forms `\\?\...` and `\\.\...`; 0 where there is none.
pub open spec fn prefix_len(p: Seq<char>) -> int {
    if p.len() >= 2 && is_sep(p[0]) && is_sep(p[1]) {
        let short = second_end(p, 2);
        if short == 7 && p[2] == '?' && p.subrange(4, 7) == seq!['U', 'N', 'C'] && second_end(p, 8)
            > 0 {
            second_end(p, 8)
        } else {
            short
        }
    } else if has_drive(p) {
        2
    } else {
        0
    }
}

/// A text with the separators of an operating system written as slashes.
pub open spec fn slashed(os: TargetOs, p: Seq<char>) -> Seq<char> {
    match os {
        TargetOs::Unix => p,
        TargetOs::Windows => text::swap_char(p, '\\', '/'),
    }
}

/// The portable form of a path that an operating system wrote.
pub open spec fn portable(os: TargetOs, p: Seq<char>) -> Seq<char> {
    match os {
        TargetOs::Unix => p,
        TargetOs::Windows => {
            let n = prefix_len(p);
            if n > 0 {
                seq!['/'] + text::swap_char(p.take(n), '/', '\\') + slashed(os, p.skip(n))
            } else {
                slashed(os, p)
            }
        },
    }
}

/// The length of the prefix of a portable path, with the slash in front of it;
/// 0 where there is none.
pub open spec fn head_len(os: TargetOs, q: Seq<char>) -> int {
    match os {
        TargetOs::Unix => 0,
        TargetOs::Windows => if q.len() > 1 && q[0] == '/' && q[1] != '/' && prefix_len(q.skip(1))
            > 0 {
            1 + prefix_len(q.skip(1))
        } else {
            0
        },
    }
}

/// A portable path as an operating system writes it.
pub open spec fn native(os: TargetOs, q: Seq<char>) -> Seq<char> {
    match os {
        TargetOs::Unix => q,
        TargetOs::Windows => if head_len(os, q) > 0 {
            text::swap_char(q.skip(1), '/', '\\')
        } else {
            text::swap_char(q, '/', '\\')
        },
    }
}

/// `base` extended by `q`: a path with a prefix replaces `base`, one that
/// starts at the root replaces what follows the prefix of `base`, and any other
/// is appended, without a separator behind a bare drive.
pub open spec fn joined(os: TargetOs, base: Seq<char>, q: Seq<char>) -> Seq<char> {
    let h = head_len(os, base);
    if path::is_absolute(q) {
        if head_len(os, q) > 0 {
            q
        } else {
            base.take(h) + q
        }
    } else if h == 3 && base.len() == 3 {
        base + q
    } else {
        path::joined(base, q)
    }
}

/// The directory that holds a path; `None` for a root, a prefix and the empty
/// path.
pub open spec fn parent_of(os: TargetOs, q: Seq<char>) -> Option<Seq<char>> {
    let h = head_len(os, q);
    match path::parent_of(q.skip(h)) {
        Some(dir) => Some(q.take(h) + dir),
        None => None,
    }
}

/// Whether a path climbs, whatever its prefix is taken for.
pub open spec fn climbs(os: TargetOs, p: Seq<char>) -> bool {
    path::comps(slashed(os, p)).contains(path::Comp::Parent) || (os == TargetOs::Windows
        && path::comps(slashed(os, p.skip(prefix_len(p)))).contains(path::Comp::Parent))
}

/// Where a segment ends.
proof fn lemma_segment_end(p: Seq<char>, from: int)
    requires
        0 <= from,
    ensures
        from <= p.len() ==> from <= segment_end(p, from) <= p.len(),
        from > p.len() ==> segment_end(p, from) == p.len(),
        segment_end(p, from) < p.len() ==> is_sep(p[segment_end(p, from)]),
    decreases p.len() - from,
{
    if from < p.len() && !is_sep(p[from]) {
        lemma_segment_end(p, from + 1);
    }
}

/// A prefix lies in the path.
pub proof fn lemma_prefix_len(p: Seq<char>)
    ensures
        0 <= prefix_len(p) <= p.len(),
        prefix_len(p) > 0 ==> prefix_len(p) >= 2,
{
    lemma_segment_end(p, 2);
    lemma_segment_end(p, segment_end(p, 2) + 1);
    lemma_segment_end(p, 8);
    lemma_segment_end(p, segment_end(p, 8) + 1);
}

/// The prefix of a portable path lies in it.
pub proof fn lemma_head_len(os: TargetOs, q: Seq<char>)
    ensures
        0 <= head_len(os, q) <= q.len(),
        os == TargetOs::Unix ==> head_len(os, q) == 0,
{
    if q.len() > 0 {
        lemma_prefix_len(q.skip(1));
    }
}

/// Whether two texts differ in the kind of their separators alone.
spec fn same_shape(a: Seq<char>, b: Seq<char>) -> bool {
    &&& a.len() == b.len()
    &&& forall|i: int|
        0 <= i < a.len() ==> (#[trigger] a[i] == #[trigger] b[i] || (is_sep(a[i]) && is_sep(b[i])))
}

proof fn lemma_shape_segment(a: Seq<char>, b: Seq<char>, from: int)
    requires
        same_shape(a, b),
        0 <= from,
    ensures
        segment_end(a, from) == segment_end(b, from),
    decreases a.len() - from,
{
    if from < a.len() {
        assert(a[from] == b[from] || (is_sep(a[from]) && is_sep(b[from])));
        if !is_sep(a[from]) {
            lemma_shape_segment(a, b, from + 1);
        }
    }
}

proof fn lemma_shape_second(a: Seq<char>, b: Seq<char>, from: int)
    requires
        same_shape(a, b),
        0 <= from,
    ensures
        second_end(a, from) == second_end(b, from),
{
    lemma_shape_segment(a, b, from);
    lemma_segment_end(a, from);
    lemma_shape_segment(a, b, segment_end(a, from) + 1);
}

/// The kind of the separators does not matter to the prefix.
proof fn lemma_shape_prefix(a: Seq<char>, b: Seq<char>)
    requires
        same_shape(a, b),
    ensures
        prefix_len(a) == prefix_len(b),
{
    lemma_shape_second(a, b, 2);
    lemma_shape_second(a, b, 8);
    if a.len() >= 2 {
        assert(a[0] == b[0] || (is_sep(a[0]) && is_sep(b[0])));
        assert(a[1] == b[1] || (is_sep(a[1]) && is_sep(b[1])));
    }
    if second_end(a, 2) == 7 {
        lemma_segment_end(a, 2);
        lemma_segment_end(a, segment_end(a, 2) + 1);
        assert(a[2] == b[2] || (is_sep(a[2]) && is_sep(b[2])));
        let unc = seq!['U', 'N', 'C'];
        let x = a.subrange(4, 7);
        let y = b.subrange(4, 7);
        assert(a[4] == b[4] || (is_sep(a[4]) && is_sep(b[4])));
        assert(a[5] == b[5] || (is_sep(a[5]) && is_sep(b[5])));
        assert(a[6] == b[6] || (is_sep(a[6]) && is_sep(b[6])));
        if x == unc {
            assert(x[0] == 'U' && x[1] == 'N' && x[2] == 'C');
            assert(y =~= unc);
        }
        if y == unc {
            assert(y[0] == 'U' && y[1] == 'N' && y[2] == 'C');
            assert(x =~= unc);
        }
    }
}

/// The portable form loses nothing but the kind of the separators: written back
/// it is the same path with backslashes. (Behind a bare root a drive is no name
/// that Windows allows.)
pub proof fn law_portable_paths_lead_back(os: TargetOs, p: Seq<char>)
    requires
        p.len() > 0 && is_sep(p[0]) ==> !has_drive(p.skip(1)),
    ensures
        native(os, portable(os, p)) == match os {
            TargetOs::Unix => p,
            TargetOs::Windows => text::swap_char(p, '/', '\\'),
        },
{
    if os == TargetOs::Windows {
        lemma_prefix_len(p);
        let n = prefix_len(p);
        let q = portable(os, p);
        if n > 0 {
            assert(same_shape(q.skip(1), p)) by {
                assert forall|i: int| 0 <= i < p.len() implies (#[trigger] q.skip(1)[i] == #[trigger] p[i] || (
                is_sep(q.skip(1)[i]) && is_sep(p[i]))) by {
                    if i < n {
                        assert(q.skip(1)[i] == text::swap_char(p.take(n), '/', '\\')[i]);
                    } else {
                        assert(q.skip(1)[i] == slashed(os, p.skip(n))[i - n]);
                    }
                }
            }
            lemma_shape_prefix(q.skip(1), p);
            assert(q[0] == '/');
            assert(q[1] == text::swap_char(p.take(n), '/', '\\')[0]);
            let back = native(os, q);
            assert(back =~= text::swap_char(p, '/', '\\')) by {
                assert forall|i: int| 0 <= i < p.len() implies back[i] == text::swap_char(
                    p,
                    '/',
                    '\\',
                )[i] by {
                    if i < n {
                        assert(q.skip(1)[i] == text::swap_char(p.take(n), '/', '\\')[i]);
                    } else {
                        assert(q.skip(1)[i] == slashed(os, p.skip(n))[i - n]);
                    }
                }
            }
        } else {
            assert(head_len(os, q) == 0) by {
                if q.len() > 1 && q[0] == '/' && q[1] != '/' {
                    let r = q.skip(1);
                    assert(is_sep(p[0]));
                    assert(r[0] == q[1] && !is_sep(r[0]));
                    if r.len() >= 2 {
                        assert(r[1] == q[2]);
                        assert(p.skip(1)[0] == p[1] && p.skip(1)[1] == p[2]);
                    }
                }
            }
            assert(native(os, q) =~= text::swap_char(p, '/', '\\'));
        }
    }
}

/// On Unix every path is its own portable form.
pub proof fn lemma_unix(base: Seq<char>, q: Seq<char>)
    ensures
        joined(TargetOs::Unix, base, q) == path::joined(base, q),
        parent_of(TargetOs::Unix, q) == path::parent_of(q),
        climbs(TargetOs::Unix, q) == path::comps(q).contains(path::Comp::Parent),
{
    assert(base.take(0) + q =~= q);
    assert(q.skip(0) =~= q);
    match path::parent_of(q) {
        Some(dir) => {
            assert(q.take(0) + dir =~= dir);
        },
        None => {},
    }
}

/// The directory of a path is a part of it.
pub proof fn lemma_parent_fits(os: TargetOs, p: Seq<char>)
    ensures
        0 <= portable(os, p).len() - p.len() <= 1,
        parent_of(os, portable(os, p)) matches Some(dir) ==> dir.len() <= portable(os, p).len() && (
        dir.len() > 0 ==> dir.len() >= portable(os, p).len() - p.len()),
{
    let q = portable(os, p);
    lemma_prefix_len(p);
    lemma_head_len(os, q);
    let h = head_len(os, q);
    match path::parent_of(q.skip(h)) {
        Some(dir) => {
            path::lemma_parent_is_prefix(q.skip(h));
        },
        None => {},
    }
}

/// Where the segment that begins at `from` ends.
fn find_end(x: &Vec<char>, from: usize) -> (n: usize)
    requires
        from <= x.len(),
    ensures
        n == segment_end(x@, from as int),
        from <= n <= x.len(),
{
    let mut i: usize = from;
    while i < x.len() && x[i] != '/' && x[i] != '\\'
        invariant
            from <= i <= x.len(),
            segment_end(x@, from as int) == segment_end(x@, i as int),
        decreases x.len() - i,
    {
        i += 1;
    }
    i
}

/// Where the segment behind the one that begins at `from` ends.
fn find_second(x: &Vec<char>, from: usize) -> (n: usize)
    requires
        from <= x.len(),
    ensures
        n == second_end(x@, from as int),
{
    let first = find_end(x, from);
    if from < first && first < x.len() {
        let second = find_end(x, first + 1);
        if first + 1 < second {
            return second;
        }
    }
    0
}

/// The length of the prefix of a Windows path.
fn find_prefix(x: &Vec<char>) -> (n: usize)
    ensures
        n == prefix_len(x@),
        n <= x.len(),
{
    proof {
        lemma_prefix_len(x@);
    }
    if x.len() < 2 {
        return 0;
    }
    if (x[0] == '/' || x[0] == '\\') && (x[1] == '/' || x[1] == '\\') {
        let short = find_second(x, 2);
        if short == 7 && x[2] == '?' {
            let ghost mid = x@.subrange(4, 7);
            proof {
                lemma_segment_end(x@, 2);
                lemma_segment_end(x@, segment_end(x@, 2) + 1);
            }
            let is_unc = x[4] == 'U' && x[5] == 'N' && x[6] == 'C';
            proof {
                if is_unc {
                    assert(mid =~= seq!['U', 'N', 'C']);
                } else if mid == seq!['U', 'N', 'C'] {
                    assert(mid[0] == 'U' && mid[1] == 'N' && mid[2] == 'C');
                }
                lemma_segment_end(x@, 8);
            }
            if is_unc && x.len() >= 8 {
                let long = find_second(x, 8);
                if long > 0 {
                    return long;
                }
            }
        }
        return short;
    }
    if x[1] == ':' && (('a' <= x[0] && x[0] <= 'z') || ('A' <= x[0] && x[0] <= 'Z')) {
        2
    } else {
        0
    }
}

/// A text with the separators of an operating system written as slashes.
pub fn with_slashes(os: TargetOs, p: &str) -> (out: String)
    ensures
        out@ == slashed(os, p@),
{
    match os {
        TargetOs::Unix => text::copy_str(p),
        TargetOs::Windows => text::replace_char(p, '\\', '/'),
    }
}

/// The portable form of a path that an operating system wrote.
pub fn to_portable(os: TargetOs, p: &str) -> (out: String)
    ensures
        out@ == portable(os, p@),
{
    match os {
        TargetOs::Unix => text::copy_str(p),
        TargetOs::Windows => {
            let x = text::chars_of(p);
            let n = find_prefix(&x);
            if n == 0 {
                return with_slashes(os, p);
            }
            let front = text::string_of(&x, 0, n);
            let back = text::string_of(&x, n, x.len());
            assert(front@ =~= p@.take(n as int));
            assert(back@ =~= p@.skip(n as int));
            let mut out = String::new();
            out.push('/');
            let prefix = text::replace_char(front.as_str(), '/', '\\');
            let rest = with_slashes(os, back.as_str());
            text::push_text(&mut out, prefix.as_str());
            text::push_text(&mut out, rest.as_str());
            assert(out@ =~= portable(os, p@));
            out
        },
    }
}

/// The length of the prefix of a portable path, with the slash in front of it.
fn find_head(os: TargetOs, q: &str) -> (n: usize)
    ensures
        n == head_len(os, q@),
        n <= q@.len(),
{
    proof {
        lemma_head_len(os, q@);
    }
    match os {
        TargetOs::Unix => 0,
        TargetOs::Windows => {
            let x = text::chars_of(q);
            if x.len() > 1 && x[0] == '/' && x[1] != '/' {
                let tail = text::string_of(&x, 1, x.len());
                assert(tail@ =~= q@.skip(1));
                let y = text::chars_of(tail.as_str());
                let n = find_prefix(&y);
                if n > 0 {
                    1 + n
                } else {
                    0
                }
            } else {
                0
            }
        },
    }
}

/// A portable path as an operating system writes it.
pub fn to_native(os: TargetOs, q: &str) -> (out: String)
    ensures
        out@ == native(os, q@),
{
    match os {
        TargetOs::Unix => text::copy_str(q),
        TargetOs::Windows => {
            if find_head(os, q) > 0 {
                let x = text::chars_of(q);
                let tail = text::string_of(&x, 1, x.len());
                assert(tail@ =~= q@.skip(1));
                text::replace_char(tail.as_str(), '/', '\\')
            } else {
                text::replace_char(q, '/', '\\')
            }
        },
    }
}

/// A portable path in two parts: its prefix, and what follows.
pub fn split_head(os: TargetOs, q: &str) -> (r: (String, String))
    ensures
        r.0@ == q@.take(head_len(os, q@)),
        r.1@ == q@.skip(head_len(os, q@)),
{
    let h = find_head(os, q);
    let x = text::chars_of(q);
    let head = text::string_of(&x, 0, h);
    let rest = text::string_of(&x, h, x.len());
    assert(head@ =~= q@.take(h as int));
    assert(rest@ =~= q@.skip(h as int));
    (head, rest)
}

/// `base` extended by `q`.
pub fn join(os: TargetOs, base: &str, q: &str) -> (out: String)
    ensures
        out@ == joined(os, base@, q@),
{
    let h = find_head(os, base);
    if path::is_absolute_path(q) {
        if find_head(os, q) > 0 {
            return text::copy_str(q);
        }
        let (head, _) = split_head(os, base);
        let mut out = head;
        text::push_text(&mut out, q);
        return out;
    }
    if h == 3 {
        let x = text::chars_of(base);
        if x.len() == 3 {
            let mut out = text::copy_str(base);
            text::push_text(&mut out, q);
            return out;
        }
    }
    path::join(base, q)
}

/// The directory that holds a path.
pub fn parent(os: TargetOs, q: &str) -> (out: Option<String>)
    ensures
        text::opt_view(out) == parent_of(os, q@),
{
    let (head, rest) = split_head(os, q);
    match path::parent(rest.as_str()) {
        Some(dir) => {
            let mut out = head;
            text::push_text(&mut out, dir.as_str());
            Some(out)
        },
        None => None,
    }
}

/// Whether one of the components is `..`.
fn holds_parent(p: &str) -> (r: bool)
    ensures
        r == path::comps(p@).contains(path::Comp::Parent),
{
    let cs = path::components(p);
    let ghost cv = path::comp_views(cs@);
    let mut i: usize = 0;
    while i < cs.len()
        invariant
            i <= cs.len(),
            cv == path::comp_views(cs@),
            cv == path::comps(p@),
            forall|j: int| 0 <= j < i ==> #[trigger] cv[j] != path::Comp::Parent,
        decreases cs.len() - i,
    {
        assert(cv[i as int] == cs[i as int]@);
        match &cs[i] {
            path::Component::ParentDir => {
                assert(cv.contains(cv[i as int]));
                return true;
            },
            _ => {},
        }
        i += 1;
    }
    false
}

/// Whether a path climbs.
pub fn does_climb(os: TargetOs, p: &str) -> (r: bool)
    ensures
        r == climbs(os, p@),
{
    let all = with_slashes(os, p);
    if holds_parent(all.as_str()) {
        return true;
    }
    match os {
        TargetOs::Unix => false,
        TargetOs::Windows => {
            let x = text::chars_of(p);
            let n = find_prefix(&x);
            let back = text::string_of(&x, n, x.len());
            assert(back@ =~= p@.skip(n as int));
            let rest = with_slashes(os, back.as_str());
            holds_parent(rest.as_str())
        },
    }
}

/// On Unix a path is written as it is, has no prefix, and climbs exactly when
/// it holds two dots as a segment.
pub proof fn law_unix_paths_are_plain(p: Seq<char>, q: Seq<char>)
    ensures
        portable(TargetOs::Unix, p) == p,
        native(TargetOs::Unix, p) == p,
        slashed(TargetOs::Unix, p) == p,
        head_len(TargetOs::Unix, p) == 0,
        climbs(TargetOs::Unix, p) <==> path::comps(p).contains(path::Comp::Parent),
        q.len() > 0 && q[0] == '/' ==> joined(TargetOs::Unix, p, q) == q,
        !(q.len() > 0 && q[0] == '/') && p.len() > 0 && p.last() != '/' ==> joined(
            TargetOs::Unix,
            p,
            q,
        ) == p + seq!['/'] + q,
{
    lemma_unix(p, q);
    lemma_unix(q, p);
    assert(p.take(0) + q =~= q);
    assert(p.push('/') + q =~= p + seq!['/'] + q);
}

/// A Windows path without a prefix has the same portable form with slashes for
/// its backslashes.
pub proof fn law_separators_become_slashes(p: Seq<char>, i: int)
    requires
        !(p.len() >= 2 && (p[0] == '/' || p[0] == '\\') && (p[1] == '/' || p[1] == '\\')),
        !(p.len() >= 2 && p[1] == ':' && ('a' <= p[0] <= 'z' || 'A' <= p[0] <= 'Z')),
        0 <= i < p.len(),
    ensures
        portable(TargetOs::Windows, p).len() == p.len(),
        p[i] == '\\' ==> portable(TargetOs::Windows, p)[i] == '/',
        p[i] != '\\' ==> portable(TargetOs::Windows, p)[i] == p[i],
        slashed(TargetOs::Windows, p) == portable(TargetOs::Windows, p),
{
}

/// A drive stands as the first name behind a slash in the portable form, and
/// what follows it has slashes for its backslashes.
pub proof fn law_drives_become_the_first_name(p: Seq<char>, i: int)
    requires
        p.len() >= 2,
        p[1] == ':',
        'a' <= p[0] <= 'z' || 'A' <= p[0] <= 'Z',
        2 <= i < p.len(),
    ensures
        portable(TargetOs::Windows, p).len() == p.len() + 1,
        portable(TargetOs::Windows, p)[0] == '/',
        portable(TargetOs::Windows, p)[1] == p[0],
        portable(TargetOs::Windows, p)[2] == ':',
        p[i] == '\\' ==> portable(TargetOs::Windows, p)[i + 1] == '/',
        p[i] != '\\' ==> portable(TargetOs::Windows, p)[i + 1] == p[i],
{
    let rest = slashed(TargetOs::Windows, p.skip(2));
    let head = text::swap_char(p.take(2), '/', '\\');
    assert(prefix_len(p) == 2);
    assert(portable(TargetOs::Windows, p) == seq!['/'] + head + rest);
    assert(p.skip(2)[i - 2] == p[i]);
    assert(rest[i - 2] == portable(TargetOs::Windows, p)[i + 1]);
    assert(head[0] == p[0]);
    assert(head[1] == p[1]);
}

/// The server and the share of a network path are its prefix.
pub proof fn law_shares_are_a_prefix(server: Seq<char>, share: Seq<char>, tail: Seq<char>)
    requires
        server.len() > 0,
        share.len() > 0,
        server != seq!['?'],
        forall|i: int| 0 <= i < server.len() ==> !is_sep(#[trigger] server[i]),
        forall|i: int| 0 <= i < share.len() ==> !is_sep(#[trigger] share[i]),
        tail.len() > 0 ==> is_sep(tail[0]),
    ensures
        prefix_len(seq!['\\', '\\'] + server + seq!['\\'] + share + tail) == 3 + server.len()
            + share.len(),
{
    let p = seq!['\\', '\\'] + server + seq!['\\'] + share + tail;
    let a: int = 2 + server.len() as int;
    let b: int = a + 1 + share.len() as int;
    assert forall|i: int| 2 <= i < a implies !is_sep(#[trigger] p[i]) by {
        assert(p[i] == server[i - 2]);
    }
    assert(p[a] == '\\');
    assert forall|i: int| a + 1 <= i < b implies !is_sep(#[trigger] p[i]) by {
        assert(p[i] == share[i - a - 1]);
    }
    if tail.len() > 0 {
        assert(p[b] == tail[0]);
    }
    lemma_segment_end_is(p, 2, a);
    lemma_segment_end_is(p, a + 1, b);
    if p[2] == '?' && second_end(p, 2) == 7 && p.subrange(4, 7) == seq!['U', 'N', 'C'] {
        assert(p.subrange(4, 7)[0] == p[4]);
        if server.len() == 1 {
            assert(server[0] == p[2]);
            assert(server =~= seq!['?']);
        }
        assert(server.len() > 1);
        assert(!is_sep(p[3]));
        if server.len() == 2 {
            assert(p[4] == '\\');
            assert(false);
        }
        if server.len() == 3 {
            assert(p.subrange(4, 7)[1] == p[5]);
            assert(p[5] == '\\');
            assert(false);
        }
        assert(b >= 8);
    }
}

proof fn lemma_segment_end_is(p: Seq<char>, from: int, end: int)
    requires
        0 <= from <= end <= p.len(),
        end < p.len() ==> is_sep(p[end]),
        forall|i: int| from <= i < end ==> !is_sep(#[trigger] p[i]),
    ensures
        segment_end(p, from) == end,
    decreases end - from,
{
    if from < end {
        lemma_segment_end_is(p, from + 1, end);
    }
}

/// On Windows two dots climb behind either separator, with or without a prefix
/// in front.
pub proof fn law_dots_climb_behind_either_separator(p: Seq<char>)
    ensures
        path::comps(text::swap_char(p, '\\', '/')).contains(path::Comp::Parent) ==> climbs(
            TargetOs::Windows,
            p,
        ),
        path::comps(text::swap_char(p.skip(prefix_len(p)), '\\', '/')).contains(
            path::Comp::Parent,
        ) ==> climbs(TargetOs::Windows, p),
        !path::comps(text::swap_char(p, '\\', '/')).contains(path::Comp::Parent) && !path::comps(
            text::swap_char(p.skip(prefix_len(p)), '\\', '/'),
        ).contains(path::Comp::Parent) ==> !climbs(TargetOs::Windows, p),
{
}

/// Extending a Windows path keeps its prefix unless the other path has one of
/// its own.
pub proof fn law_joining_keeps_the_prefix(base: Seq<char>, q: Seq<char>)
    ensures
        ({
            let h = head_len(TargetOs::Windows, base);
            let whole = joined(TargetOs::Windows, base, q);
            &&& head_len(TargetOs::Windows, q) > 0 ==> whole == q
            &&& head_len(TargetOs::Windows, q) == 0 ==> base.take(h).is_prefix_of(whole)
            &&& head_len(TargetOs::Windows, q) == 0 ==> whole.len() >= h + q.len()
                && whole.skip(whole.len() - q.len()) == q
        }),
{
    let h = head_len(TargetOs::Windows, base);
    let whole = joined(TargetOs::Windows, base, q);
    lemma_head_len(TargetOs::Windows, base);
    lemma_head_len(TargetOs::Windows, q);
    if head_len(TargetOs::Windows, q) == 0 {
        assert(whole.skip(whole.len() - q.len()) =~= q);
        assert(base.take(h) =~= whole.take(h));
    }
}

/// The directory of a Windows path keeps its prefix, and nothing is left of a
/// path that is only a prefix.
pub proof fn law_directories_keep_the_prefix(os: TargetOs, q: Seq<char>)
    ensures
        parent_of(os, q) matches Some(dir) ==> q.take(head_len(os, q)).is_prefix_of(dir)
            && path::comps(dir.skip(head_len(os, q))) == path::comps(
            q.skip(head_len(os, q)),
        ).drop_last(),
        q.len() == head_len(os, q) ==> parent_of(os, q) is None,
{
    let h = head_len(os, q);
    lemma_head_len(os, q);
    let rest = q.skip(h);
    match path::parent_of(rest) {
        Some(dir) => {
            path::law_directory_lacks_the_last_component(rest);
            let whole = q.take(h) + dir;
            assert(whole.skip(h) =~= dir);
            assert(whole.take(h) =~= q.take(h));
        },
        None => {},
    }
    if q.len() == h {
        assert(rest =~= Seq::<char>::empty());
        path::lemma_comps_first(path::Comp::Root);
    }
}

} // verus!
