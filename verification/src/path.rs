//! Slash-separated paths and their components.
//!
//! A path is a text; what it names is its sequence of components. Empty
//! segments and `.` segments name nothing, except for one `.` in front.
//! Two paths are the same path when their components are equal.

use vstd::prelude::*;

use crate::text;

verus! {

/// One component of a path.
pub enum Component {
    /// The leading `/`.
    RootDir,
    /// A leading `.`.
    CurDir,
    /// `..`.
    ParentDir,
    /// An ordinary name.
    Normal(String),
}

/// The model of a component.
pub enum Comp {
    /// The leading `/`.
    Root,
    /// A leading `.`.
    Cur,
    /// `..`.
    Parent,
    /// An ordinary name.
    Name(Seq<char>),
}

impl View for Component {
    type V = Comp;

    open spec fn view(&self) -> Comp {
        match *self {
            Component::RootDir => Comp::Root,
            Component::CurDir => Comp::Cur,
            Component::ParentDir => Comp::Parent,
            Component::Normal(s) => Comp::Name(s@),
        }
    }
}

/// The models of a sequence of components.
pub open spec fn comp_views(v: Seq<Component>) -> Seq<Comp> {
    v.map_values(|c: Component| c@)
}

/// The component that a segment between slashes names, if any.
pub open spec fn segment_comp(seg: Seq<char>) -> Option<Comp> {
    if seg.len() == 0 || seg == seq!['.'] {
        None
    } else if seg == seq!['.', '.'] {
        Some(Comp::Parent)
    } else {
        Some(Comp::Name(seg))
    }
}

/// Whether a path starts at the root.
pub open spec fn is_absolute(p: Seq<char>) -> bool {
    p.len() > 0 && p[0] == '/'
}

/// What stands in front of the segments: the root, a leading `.`, or nothing.
pub open spec fn path_head(p: Seq<char>) -> Seq<Comp> {
    if is_absolute(p) {
        seq![Comp::Root]
    } else if text::split_on(p, '/')[0] == seq!['.'] {
        seq![Comp::Cur]
    } else {
        Seq::empty()
    }
}

/// The components named by a sequence of segments.
pub open spec fn named(segs: Seq<Seq<char>>) -> Seq<Comp>
    decreases segs.len(),
{
    if segs.len() == 0 {
        Seq::empty()
    } else {
        let front = named(segs.drop_last());
        match segment_comp(segs.last()) {
            Some(c) => front.push(c),
            None => front,
        }
    }
}

/// The components of a path.
pub open spec fn comps(p: Seq<char>) -> Seq<Comp> {
    path_head(p) + named(text::split_on(p, '/'))
}

/// The text of one component.
pub open spec fn comp_text(c: Comp) -> Seq<char> {
    match c {
        Comp::Root => seq!['/'],
        Comp::Cur => seq!['.'],
        Comp::Parent => seq!['.', '.'],
        Comp::Name(s) => s,
    }
}

/// `base` extended by `p`: an absolute `p` replaces `base`, a relative one is
/// appended after a separator.
pub open spec fn joined(base: Seq<char>, p: Seq<char>) -> Seq<char> {
    if is_absolute(p) {
        p
    } else if base.len() == 0 || base.last() == '/' {
        base + p
    } else {
        base.push('/') + p
    }
}

/// The path built by extending the empty path by one component after another.
pub open spec fn render(cs: Seq<Comp>) -> Seq<char>
    decreases cs.len(),
{
    if cs.len() == 0 {
        Seq::empty()
    } else {
        joined(render(cs.drop_last()), comp_text(cs.last()))
    }
}

/// Whether a component can stand at an index: the root and `.` only in front,
/// and a name is a non-empty segment other than `.` and `..`.
pub open spec fn comp_ok(c: Comp, at: int) -> bool {
    match c {
        Comp::Root => at == 0,
        Comp::Cur => at == 0,
        Comp::Parent => true,
        Comp::Name(s) => s.len() > 0 && !s.contains('/') && s != seq!['.'] && s != seq!['.', '.'],
    }
}

/// Whether a sequence of components is one that a path has.
pub open spec fn proper(cs: Seq<Comp>) -> bool {
    forall|i: int| 0 <= i < cs.len() ==> comp_ok(#[trigger] cs[i], i)
}

/// The position behind the last slash, or 0.
pub open spec fn behind_slash(p: Seq<char>) -> int
    decreases p.len(),
{
    if p.len() == 0 {
        0
    } else if p.last() == '/' {
        p.len() as int
    } else {
        behind_slash(p.drop_last())
    }
}

/// A text without the segments at its end that name nothing.
pub open spec fn rtrim(p: Seq<char>) -> Seq<char>
    decreases p.len(),
    via rtrim_shrinks
{
    let b = behind_slash(p);
    if segment_comp(p.skip(b)) is Some {
        p
    } else if b == 0 {
        Seq::empty()
    } else {
        rtrim(p.take(b - 1))
    }
}

#[via_fn]
proof fn rtrim_shrinks(p: Seq<char>) {
    lemma_behind_slash(p);
}

/// A text without the segments in front that name nothing.
pub open spec fn ltrim(p: Seq<char>) -> Seq<char>
    decreases p.len(),
{
    let k = text::first_of(p, '/');
    if segment_comp(p.take(k)) is Some {
        p
    } else if 0 <= k < p.len() {
        ltrim(p.skip(k + 1))
    } else {
        Seq::empty()
    }
}

/// What follows the first segment.
pub open spec fn behind_first(p: Seq<char>) -> Seq<char> {
    let k = text::first_of(p, '/');
    if 0 <= k < p.len() {
        p.skip(k + 1)
    } else {
        Seq::empty()
    }
}

/// What follows the first `n` names of a text.
pub open spec fn behind_names(p: Seq<char>, n: int) -> Seq<char>
    decreases n,
{
    if n <= 0 {
        ltrim(p)
    } else {
        behind_names(behind_first(ltrim(p)), n - 1)
    }
}

/// The text of a path up to the end of its last component, as it is written.
pub open spec fn whole(p: Seq<char>) -> Seq<char> {
    let h = path_head(p).len() as int;
    p.take(h) + rtrim(p.skip(h))
}

/// The directory that holds a path: the path up to its last component, as it is
/// written; `None` for the root and the empty path.
pub open spec fn parent_of(p: Seq<char>) -> Option<Seq<char>> {
    let cs = comps(p);
    if cs.len() == 0 || cs.last() is Root {
        None
    } else {
        let shown = whole(p);
        Some(whole(shown.take(behind_slash(shown))))
    }
}

/// The last name of a path; `None` when it ends in `..`, `.` or the root.
pub open spec fn file_name_of(p: Seq<char>) -> Option<Seq<char>> {
    let cs = comps(p);
    if cs.len() == 0 {
        None
    } else {
        match cs.last() {
            Comp::Name(s) => Some(s),
            _ => None,
        }
    }
}

/// Whether the components of `base` begin those of `p`.
pub open spec fn under(p: Seq<char>, base: Seq<char>) -> bool {
    comps(base).is_prefix_of(comps(p))
}

/// The part of `p` below `base`, as it is written.
pub open spec fn stripped(p: Seq<char>, base: Seq<char>) -> Option<Seq<char>> {
    let n = comps(base).len() as int;
    let h = path_head(p).len() as int;
    if !under(p, base) {
        None
    } else if n == 0 {
        Some(whole(p))
    } else {
        Some(rtrim(behind_names(p.skip(h), n - h)))
    }
}

/// Where the last segment begins.
pub proof fn lemma_behind_slash(p: Seq<char>)
    ensures
        0 <= behind_slash(p) <= p.len(),
        behind_slash(p) > 0 ==> p[behind_slash(p) - 1] == '/',
        forall|i: int| behind_slash(p) <= i < p.len() ==> #[trigger] p[i] != '/',
    decreases p.len(),
{
    if p.len() > 0 && p.last() != '/' {
        lemma_behind_slash(p.drop_last());
        let b = behind_slash(p);
        if b > 0 {
            assert(p[b - 1] == p.drop_last()[b - 1]);
        }
        assert forall|i: int| b <= i < p.len() implies #[trigger] p[i] != '/' by {
            if i < p.len() - 1 {
                assert(p[i] == p.drop_last()[i]);
            }
        }
    }
}

/// A position behind a slash, with none after it, is behind the last one.
proof fn lemma_behind_slash_is(p: Seq<char>, b: int)
    requires
        0 <= b <= p.len(),
        b > 0 ==> p[b - 1] == '/',
        forall|i: int| b <= i < p.len() ==> #[trigger] p[i] != '/',
    ensures
        behind_slash(p) == b,
{
    lemma_behind_slash(p);
    let c = behind_slash(p);
    if c < b {
        assert(p[b - 1] != '/');
    } else if b < c {
        assert(p[c - 1] != '/');
    }
}

/// The last segment stands for itself.
proof fn lemma_split_last(p: Seq<char>)
    ensures
        behind_slash(p) > 0 ==> text::split_on(p, '/') == text::split_on(
            p.take(behind_slash(p) - 1),
            '/',
        ).push(p.skip(behind_slash(p))),
        behind_slash(p) == 0 ==> text::split_on(p, '/') == seq![p],
{
    lemma_behind_slash(p);
    let b = behind_slash(p);
    if b > 0 {
        let last = p.skip(b);
        assert(p =~= p.take(b - 1).push('/') + last);
        text::lemma_split_joined(p.take(b - 1), last, '/');
        assert forall|i: int| 0 <= i < last.len() implies last[i] != '/' by {
            assert(last[i] == p[b + i]);
        }
        text::lemma_split_none(last, '/');
        assert(text::split_on(p, '/') =~= text::split_on(p.take(b - 1), '/').push(last));
    } else {
        text::lemma_split_none(p, '/');
    }
}

/// Trimming at the end keeps the names; what is left ends with a name or is
/// empty, and was cut at a slash.
proof fn lemma_rtrim(p: Seq<char>)
    ensures
        named(text::split_on(rtrim(p), '/')) == named(text::split_on(p, '/')),
        rtrim(p).is_prefix_of(p),
        0 < rtrim(p).len() < p.len() ==> p[rtrim(p).len() as int] == '/',
        rtrim(p).len() > 0 ==> segment_comp(rtrim(p).skip(behind_slash(rtrim(p)))) is Some,
        rtrim(p).len() == 0 ==> named(text::split_on(p, '/')) == Seq::<Comp>::empty(),
    decreases p.len(),
{
    lemma_behind_slash(p);
    lemma_split_last(p);
    let b = behind_slash(p);
    let empty = Seq::<char>::empty();
    text::lemma_split_none(empty, '/');
    lemma_named_one(empty);
    if segment_comp(p.skip(b)) is Some {
        assert(p =~= p.subrange(0, p.len() as int));
        if p.len() == 0 {
            assert(p.skip(b) =~= empty);
        }
    } else if b == 0 {
        assert(p.skip(0) =~= p);
        lemma_named_one(p);
        assert(empty =~= p.subrange(0, 0));
    } else {
        let front = p.take(b - 1);
        lemma_rtrim(front);
        assert(text::split_on(p, '/').drop_last() =~= text::split_on(front, '/'));
        let r = rtrim(p);
        assert(r =~= p.subrange(0, r.len() as int)) by {
            assert forall|i: int| 0 <= i < r.len() implies r[i] == p[i] by {
                assert(r[i] == front.subrange(0, r.len() as int)[i]);
            }
        }
        if 0 < r.len() < p.len() {
            if r.len() < front.len() {
                assert(p[r.len() as int] == front[r.len() as int]);
            }
        }
    }
}

/// Trimming in front keeps the names; what is left begins with one or is empty.
proof fn lemma_ltrim(p: Seq<char>)
    ensures
        named(text::split_on(ltrim(p), '/')) == named(text::split_on(p, '/')),
        ltrim(p).len() > 0 ==> segment_comp(ltrim(p).take(text::first_of(ltrim(p), '/'))) is Some,
        ltrim(p).len() <= p.len(),
    decreases p.len(),
{
    text::lemma_first_of(p, '/');
    let k = text::first_of(p, '/');
    let segs = text::split_on(p, '/');
    let empty = Seq::<char>::empty();
    text::lemma_split_none(empty, '/');
    lemma_named_one(empty);
    if segment_comp(p.take(k)) is Some {
    } else if k < p.len() {
        lemma_ltrim(p.skip(k + 1));
        lemma_named_one(p.take(k));
        lemma_named_concat(seq![p.take(k)], text::split_on(p.skip(k + 1), '/'));
        assert(named(segs) =~= named(text::split_on(p.skip(k + 1), '/')));
    } else {
        assert(p.take(k) =~= p);
        lemma_named_one(p);
    }
}

/// What follows the first `n` names holds the others, and begins with one.
proof fn lemma_behind_names(p: Seq<char>, n: int)
    requires
        0 <= n <= named(text::split_on(p, '/')).len(),
    ensures
        named(text::split_on(behind_names(p, n), '/')) == named(text::split_on(p, '/')).skip(n),
        behind_names(p, n).len() > 0 ==> segment_comp(
            behind_names(p, n).take(text::first_of(behind_names(p, n), '/')),
        ) is Some,
    decreases n,
{
    lemma_ltrim(p);
    let all = named(text::split_on(p, '/'));
    if n == 0 {
        assert(all.skip(0) =~= all);
    } else {
        let t = ltrim(p);
        let k = text::first_of(t, '/');
        text::lemma_first_of(t, '/');
        let empty = Seq::<char>::empty();
        text::lemma_split_none(empty, '/');
        lemma_named_one(empty);
        if t.len() == 0 {
            assert(t =~= empty);
        }
        lemma_named_one(t.take(k));
        if k < t.len() {
            lemma_named_concat(seq![t.take(k)], text::split_on(t.skip(k + 1), '/'));
        } else {
            assert(t.take(k) =~= t);
            text::lemma_split_none(t, '/');
        }
        let rest = behind_first(t);
        let c = segment_comp(t.take(k))->0;
        assert(all =~= seq![c] + named(text::split_on(rest, '/')));
        lemma_behind_names(rest, n - 1);
        assert(all.skip(n) =~= named(text::split_on(rest, '/')).skip(n - 1));
    }
}

/// A text that begins with a name has no head, however its end is trimmed.
proof fn lemma_no_head(t: Seq<char>)
    requires
        t.len() > 0 ==> segment_comp(t.take(text::first_of(t, '/'))) is Some,
    ensures
        path_head(rtrim(t)) == Seq::<Comp>::empty(),
{
    let r = rtrim(t);
    lemma_rtrim(t);
    text::lemma_first_of(t, '/');
    text::lemma_first_of(r, '/');
    let k = text::first_of(t, '/');
    let m = text::first_of(r, '/');
    let empty = Seq::<char>::empty();
    text::lemma_split_none(empty, '/');
    if r.len() == 0 {
        assert(r =~= empty);
        assert(seq!['.'].len() == 1);
    } else {
        assert forall|i: int| 0 <= i < r.len() implies r[i] == t[i] by {
            assert(r[i] == t.subrange(0, r.len() as int)[i]);
        }
        assert(t.take(k).len() > 0);
        assert(k > 0);
        if k < r.len() {
            assert(r[k] == '/');
            if m < k {
                assert(t[m] == '/');
            }
        }
        assert(m == if k < r.len() { k } else { r.len() as int }) by {
            if m < r.len() {
                assert(t[m] == '/');
                if m < k {
                    assert(false);
                }
            }
        }
        assert(r.take(m) =~= t.take(k)) by {
            if k > r.len() {
                assert(t[r.len() as int] == '/');
            }
        }
        assert(text::split_on(r, '/')[0] == r.take(m)) by {
            if m == r.len() {
                assert(r.take(m) =~= r);
            }
        }
    }
}

/// The text of a path up to its end names the same path.
pub proof fn lemma_comps_whole(p: Seq<char>)
    ensures
        comps(whole(p)) == comps(p),
        path_head(whole(p)) == path_head(p),
        whole(p).len() > path_head(p).len() ==> segment_comp(
            whole(p).skip(behind_slash(whole(p))),
        ) is Some,
{
    let h = path_head(p).len() as int;
    let body = p.skip(h);
    let r = rtrim(body);
    let w = whole(p);
    let empty = Seq::<char>::empty();
    lemma_rtrim(body);
    text::lemma_split_none(empty, '/');
    lemma_named_one(empty);
    text::lemma_first_of(p, '/');
    if h == 0 {
        assert(p.take(0) + r =~= r);
        assert(body =~= p);
        lemma_first_segment(p);
        lemma_no_head_kept(p);
    } else if is_absolute(p) {
        assert(p =~= empty.push('/') + body);
        assert(w =~= empty.push('/') + r);
        text::lemma_split_joined(empty, body, '/');
        text::lemma_split_joined(empty, r, '/');
        lemma_named_concat(seq![empty], text::split_on(body, '/'));
        lemma_named_concat(seq![empty], text::split_on(r, '/'));
        if r.len() > 0 {
            assert(w.skip(1) =~= r);
            lemma_last_segment_of_tail(w, 1);
        }
    } else {
        let dot = seq!['.'];
        lemma_first_segment(p);
        assert(p[0] == p.take(text::first_of(p, '/'))[0]);
        lemma_named_one(dot);
        assert(p.take(1) =~= dot);
        if r.len() == 0 {
            assert(w =~= dot);
            text::lemma_split_none(dot, '/');
            assert(named(text::split_on(body, '/')) == Seq::<Comp>::empty());
        } else {
            assert(body.len() > 0);
            assert(body[0] == p[1]);
            assert(p[1] == '/');
            assert(r[0] == body.subrange(0, r.len() as int)[0]);
            let rest = r.skip(1);
            assert(w =~= dot.push('/') + rest);
            assert(r =~= empty.push('/') + rest);
            text::lemma_split_joined(dot, rest, '/');
            text::lemma_split_joined(empty, rest, '/');
            text::lemma_split_none(dot, '/');
            lemma_named_concat(seq![dot], text::split_on(rest, '/'));
            lemma_named_concat(seq![empty], text::split_on(rest, '/'));
            lemma_behind_slash(r);
            assert(w.skip(1) =~= r);
            lemma_last_segment_of_tail(w, 1);
        }
        if body.len() > 0 {
            let more = body.skip(1);
            assert(body[0] == p[1]);
            assert(p[1] == '/');
            assert(p =~= dot.push('/') + more);
            assert(body =~= empty.push('/') + more);
            text::lemma_split_joined(dot, more, '/');
            text::lemma_split_joined(empty, more, '/');
            text::lemma_split_none(dot, '/');
            lemma_named_concat(seq![dot], text::split_on(more, '/'));
            lemma_named_concat(seq![empty], text::split_on(more, '/'));
        } else {
            assert(p =~= dot);
            text::lemma_split_none(dot, '/');
            assert(body =~= empty);
        }
        assert(comps(w) =~= comps(p));
    }
}

/// The first segment is what stands before the first slash.
proof fn lemma_first_segment(p: Seq<char>)
    ensures
        text::split_on(p, '/')[0] == p.take(text::first_of(p, '/')),
{
    text::lemma_first_of(p, '/');
    let k = text::first_of(p, '/');
    if k == p.len() {
        assert(p.take(k) =~= p);
    }
}

/// A path without a head has none when its end is trimmed.
proof fn lemma_no_head_kept(p: Seq<char>)
    requires
        path_head(p).len() == 0,
    ensures
        path_head(rtrim(p)) == Seq::<Comp>::empty(),
{
    let r = rtrim(p);
    lemma_rtrim(p);
    lemma_first_segment(p);
    lemma_first_segment(r);
    text::lemma_first_of(p, '/');
    text::lemma_first_of(r, '/');
    let m = text::first_of(r, '/');
    let k = text::first_of(p, '/');
    if r.len() > 0 {
        assert forall|i: int| 0 <= i < r.len() implies r[i] == p[i] by {
            assert(r[i] == p.subrange(0, r.len() as int)[i]);
        }
        if r.take(m) == seq!['.'] {
            assert(seq!['.'].len() == 1 && seq!['.'][0] == '.');
            assert(m == 1);
            assert(r.take(m)[0] == r[0]);
            if r.len() > 1 {
                assert(p[1] == '/');
            } else if p.len() > 1 {
                assert(p[1] == '/');
            }
            assert(k == 1) by {
                assert(p[0] == '.');
                if k == 0 {
                    assert(p[0] == '/');
                }
            }
            assert(p.take(k) =~= seq!['.']);
        }
    } else {
        assert(r.take(m) =~= Seq::<char>::empty());
        assert(seq!['.'].len() == 1);
    }
}

/// A text that ends like its tail ends with the tail's last segment, where a
/// slash stands in front of the tail or in it.
proof fn lemma_last_segment_of_tail(w: Seq<char>, n: int)
    requires
        0 < n <= w.len(),
        w[n - 1] == '/' || behind_slash(w.skip(n)) > 0,
    ensures
        w.skip(behind_slash(w)) == w.skip(n).skip(behind_slash(w.skip(n))),
{
    let t = w.skip(n);
    lemma_behind_slash(t);
    let b = behind_slash(t);
    assert forall|i: int| n + b <= i < w.len() implies #[trigger] w[i] != '/' by {
        assert(w[i] == t[i - n]);
    }
    if b > 0 {
        assert(w[n + b - 1] == t[b - 1]);
    }
    lemma_behind_slash_is(w, n + b);
    assert(w.skip(n + b) =~= t.skip(b));
}

/// The directory of a path names the path without its last component.
pub proof fn law_directory_lacks_the_last_component(p: Seq<char>)
    requires
        parent_of(p) is Some,
    ensures
        comps(parent_of(p)->0) == comps(p).drop_last(),
{
    let q = whole(p);
    lemma_comps_whole(p);
    lemma_behind_slash(q);
    lemma_split_last(q);
    let b = behind_slash(q);
    let dir = q.take(b);
    let empty = Seq::<char>::empty();
    text::lemma_split_none(empty, '/');
    lemma_named_one(empty);
    lemma_comps_whole(dir);
    if q.len() == path_head(p).len() {
        // Nothing but a head: a lone `.`.
        lemma_rtrim(p.skip(path_head(p).len() as int));
        assert(rtrim(p.skip(path_head(p).len() as int)).len() == 0);
        assert(named(text::split_on(p.skip(path_head(p).len() as int), '/')) == Seq::<
            Comp,
        >::empty());
        lemma_head_only(p);
        if is_absolute(p) {
            assert(comps(p) =~= seq![Comp::Root]);
        } else if path_head(p).len() == 1 {
            assert(q =~= seq!['.']);
            lemma_behind_slash_is(q, 0);
            assert(dir =~= empty);
            lemma_comps_first(Comp::Cur);
            assert(comps(p) =~= seq![Comp::Cur]);
            assert(comps(p).drop_last() =~= Seq::<Comp>::empty());
        }
    } else if b > 0 {
        let front = q.take(b - 1);
        assert(dir =~= front.push('/') + empty);
        text::lemma_split_joined(front, empty, '/');
        lemma_named_concat(text::split_on(front, '/'), seq![empty]);
        let s = text::split_on(front, '/');
        text::lemma_split_pieces(front, '/');
        assert(text::split_on(q, '/').drop_last() =~= s);
        assert(text::split_on(q, '/')[0] == s[0]);
        assert(text::split_on(dir, '/')[0] == s[0]);
        assert(path_head(dir) == path_head(q));
        assert(comps(dir) =~= comps(q).drop_last());
    } else {
        assert(dir =~= empty);
        lemma_comps_first(Comp::Root);
        assert(q.skip(0) =~= q);
        lemma_named_one(q);
        assert(q != seq!['.']);
        assert(comps(q) =~= seq![segment_comp(q)->0]);
        assert(comps(q).drop_last() =~= Seq::<Comp>::empty());
    }
}

/// The directory of a path begins it.
pub proof fn lemma_parent_is_prefix(p: Seq<char>)
    requires
        parent_of(p) is Some,
    ensures
        parent_of(p)->0.len() <= p.len(),
        parent_of(p)->0 == p.take(parent_of(p)->0.len() as int),
{
    let q = whole(p);
    lemma_whole_is_prefix(p);
    lemma_behind_slash(q);
    let dir = q.take(behind_slash(q));
    lemma_whole_is_prefix(dir);
    let out = whole(dir);
    assert(out =~= p.take(out.len() as int)) by {
        assert forall|i: int| 0 <= i < out.len() implies out[i] == p[i] by {
            assert(out[i] == dir.take(out.len() as int)[i]);
            assert(q[i] == p.take(q.len() as int)[i]);
        }
    }
}

proof fn lemma_whole_is_prefix(p: Seq<char>)
    ensures
        whole(p).len() <= p.len(),
        whole(p) == p.take(whole(p).len() as int),
{
    let h = path_head(p).len() as int;
    lemma_head_fits(p);
    lemma_rtrim(p.skip(h));
    let r = rtrim(p.skip(h));
    let w = whole(p);
    assert forall|i: int| 0 <= i < w.len() implies w[i] == p[i] by {
        if i >= h {
            assert(w[i] == r[i - h]);
            assert(r[i - h] == p.skip(h).subrange(0, r.len() as int)[i - h]);
        }
    }
    assert(w =~= p.take(w.len() as int));
}

/// The head of a path is written in it.
proof fn lemma_head_fits(p: Seq<char>)
    ensures
        path_head(p).len() <= p.len(),
{
    lemma_first_segment(p);
    text::lemma_first_of(p, '/');
    assert(seq!['.'].len() == 1);
}

/// A path whose body names nothing has only its head.
proof fn lemma_head_only(p: Seq<char>)
    requires
        named(text::split_on(p.skip(path_head(p).len() as int), '/')) == Seq::<Comp>::empty(),
    ensures
        comps(p) == path_head(p),
{
    lemma_named_body(p);
    assert(comps(p) =~= path_head(p));
}

/// The names of a path are those of its body.
proof fn lemma_named_body(p: Seq<char>)
    ensures
        named(text::split_on(p, '/')) == named(
            text::split_on(p.skip(path_head(p).len() as int), '/'),
        ),
{
    let h = path_head(p).len() as int;
    let body = p.skip(h);
    let empty = Seq::<char>::empty();
    let dot = seq!['.'];
    text::lemma_split_none(empty, '/');
    text::lemma_split_none(dot, '/');
    lemma_named_one(empty);
    lemma_named_one(dot);
    if h == 0 {
        assert(body =~= p);
    } else if is_absolute(p) {
        assert(p =~= empty.push('/') + body);
        text::lemma_split_joined(empty, body, '/');
        lemma_named_concat(seq![empty], text::split_on(body, '/'));
        assert(named(text::split_on(p, '/')) =~= named(text::split_on(body, '/')));
    } else {
        lemma_first_segment(p);
        text::lemma_first_of(p, '/');
        assert(p[0] == p.take(text::first_of(p, '/'))[0]);
        if body.len() > 0 {
            let more = body.skip(1);
            assert(body[0] == p[1]);
            assert(p[1] == '/');
            assert(p =~= dot.push('/') + more);
            assert(body =~= empty.push('/') + more);
            text::lemma_split_joined(dot, more, '/');
            text::lemma_split_joined(empty, more, '/');
            lemma_named_concat(seq![dot], text::split_on(more, '/'));
            lemma_named_concat(seq![empty], text::split_on(more, '/'));
        } else {
            assert(p =~= dot);
            assert(body =~= empty);
        }
    }
}

/// What lies below a base holds no character that the path does not hold.
pub proof fn lemma_stripped_chars(p: Seq<char>, base: Seq<char>, c: char)
    requires
        under(p, base),
        !p.contains(c),
    ensures
        forall|i: int| 0 <= i < stripped(p, base)->0.len() ==> stripped(p, base)->0[i] != c,
{
    let n = comps(base).len() as int;
    let h = path_head(p).len() as int;
    let body = p.skip(h);
    let out = stripped(p, base)->0;
    assert forall|i: int| 0 <= i < body.len() implies body[i] != c by {
        assert(body[i] == p[h + i]);
    }
    let t = if n == 0 {
        body
    } else {
        behind_names(body, n - h)
    };
    lemma_behind_names_chars(body, n - h, c);
    lemma_rtrim(t);
    assert forall|i: int| 0 <= i < out.len() implies out[i] != c by {
        if n == 0 && i < h {
            assert(out[i] == p[i]);
        } else {
            let k = if n == 0 {
                i - h
            } else {
                i
            };
            assert(out[i] == rtrim(t)[k]);
            assert(rtrim(t)[k] == t.subrange(0, rtrim(t).len() as int)[k]);
        }
    }
}

/// What follows the names of a text holds no character that the text does not
/// hold.
proof fn lemma_behind_names_chars(p: Seq<char>, n: int, c: char)
    requires
        forall|i: int| 0 <= i < p.len() ==> #[trigger] p[i] != c,
    ensures
        forall|i: int| 0 <= i < behind_names(p, n).len() ==> #[trigger] behind_names(p, n)[i] != c,
    decreases n,
{
    lemma_ltrim_chars(p, c);
    if n > 0 {
        let t = ltrim(p);
        text::lemma_first_of(t, '/');
        let next = behind_first(t);
        assert forall|i: int| 0 <= i < next.len() implies #[trigger] next[i] != c by {
            assert(next[i] == t[text::first_of(t, '/') + 1 + i]);
        }
        lemma_behind_names_chars(next, n - 1, c);
        assert(behind_names(p, n) == behind_names(next, n - 1));
    }
}

proof fn lemma_ltrim_chars(p: Seq<char>, c: char)
    requires
        forall|i: int| 0 <= i < p.len() ==> #[trigger] p[i] != c,
    ensures
        forall|i: int| 0 <= i < ltrim(p).len() ==> #[trigger] ltrim(p)[i] != c,
    decreases p.len(),
{
    text::lemma_first_of(p, '/');
    let k = text::first_of(p, '/');
    if segment_comp(p.take(k)) is None && k < p.len() {
        let next = p.skip(k + 1);
        assert forall|i: int| 0 <= i < next.len() implies #[trigger] next[i] != c by {
            assert(next[i] == p[k + 1 + i]);
        }
        lemma_ltrim_chars(next, c);
        assert(ltrim(p) == ltrim(next));
    }
}

/// What lies below a base names the components behind the base's.
pub proof fn lemma_comps_stripped(p: Seq<char>, base: Seq<char>)
    requires
        under(p, base),
    ensures
        comps(stripped(p, base)->0) == comps(p).skip(comps(base).len() as int),
{
    let n = comps(base).len() as int;
    let h = path_head(p).len() as int;
    if n == 0 {
        lemma_comps_whole(p);
        assert(comps(p).skip(0) =~= comps(p));
    } else {
        let body = p.skip(h);
        lemma_named_body(p);
        let names = named(text::split_on(body, '/'));
        assert(comps(p) == path_head(p) + names);
        lemma_behind_names(body, n - h);
        let t = behind_names(body, n - h);
        lemma_rtrim(t);
        lemma_no_head(t);
        assert(comps(rtrim(t)) =~= names.skip(n - h));
        assert(comps(p).skip(n) =~= names.skip(n - h));
    }
}

/// The key of one component: a root sorts before a leading `.`, that before
/// `..`, and names come last, by their text.
pub open spec fn comp_key(c: Comp) -> Seq<char> {
    match c {
        Comp::Root => seq!['\0', '0'],
        Comp::Cur => seq!['\0', '1'],
        Comp::Parent => seq!['\0', '2'],
        Comp::Name(s) => seq!['\0', '3'] + s,
    }
}

/// The key that sorts paths component by component.
pub open spec fn order_key(cs: Seq<Comp>) -> Seq<char>
    decreases cs.len(),
{
    if cs.len() == 0 {
        Seq::empty()
    } else {
        order_key(cs.drop_last()) + comp_key(cs.last())
    }
}

/// The keys that sort a sequence of paths.
pub open spec fn order_keys(paths: Seq<Seq<char>>) -> Seq<Seq<char>> {
    paths.map_values(|p: Seq<char>| order_key(comps(p)))
}

/// A path sorts before everything below it.
pub proof fn lemma_order_key_prefix(cs: Seq<Comp>, n: int)
    requires
        0 <= n < cs.len(),
    ensures
        order_key(cs.take(n)).is_prefix_of(order_key(cs)),
        order_key(cs.take(n)).len() < order_key(cs).len(),
    decreases cs.len(),
{
    let front = cs.drop_last();
    if n < front.len() {
        lemma_order_key_prefix(front, n);
        assert(front.take(n) =~= cs.take(n));
    } else {
        assert(cs.take(n) =~= front);
    }
    let short = order_key(cs.take(n));
    assert(short =~= order_key(cs).subrange(0, short.len() as int)) by {
        assert(short.is_prefix_of(order_key(front)));
        assert forall|i: int| 0 <= i < short.len() implies short[i] == order_key(cs)[i] by {
            assert(short[i] == order_key(front).subrange(0, short.len() as int)[i]);
        }
    }
}

/// Segments one behind the other name what each of them names.
pub proof fn lemma_named_concat(a: Seq<Seq<char>>, b: Seq<Seq<char>>)
    ensures
        named(a + b) == named(a) + named(b),
    decreases b.len(),
{
    if b.len() == 0 {
        assert(a + b =~= a);
        assert(named(a) + named(b) =~= named(a));
    } else {
        assert((a + b).drop_last() =~= a + b.drop_last());
        assert((a + b).last() == b.last());
        lemma_named_concat(a, b.drop_last());
        assert(named(a + b) =~= named(a) + named(b));
    }
}

/// One segment names its component, if any.
pub proof fn lemma_named_one(seg: Seq<char>)
    ensures
        segment_comp(seg) is Some ==> named(seq![seg]) == seq![segment_comp(seg)->0],
        segment_comp(seg) is None ==> named(seq![seg]) == Seq::<Comp>::empty(),
{
    assert(seq![seg].drop_last() =~= Seq::<Seq<char>>::empty());
    reveal_with_fuel(named, 2);
    if segment_comp(seg) is Some {
        assert(named(seq![seg]) =~= seq![segment_comp(seg)->0]);
    }
}

/// Every component named by segments without slashes is proper in any place.
proof fn lemma_named_proper(segs: Seq<Seq<char>>)
    requires
        forall|i: int, j: int|
            #![trigger segs[i][j]]
            0 <= i < segs.len() && 0 <= j < segs[i].len() ==> segs[i][j] != '/',
    ensures
        forall|i: int| 0 <= i < named(segs).len() ==> comp_ok(#[trigger] named(segs)[i], 1),
        forall|i: int| 0 <= i < named(segs).len() ==> !(#[trigger] named(segs)[i] is Cur),
    decreases segs.len(),
{
    if segs.len() > 0 {
        let front = segs.drop_last();
        assert forall|i: int, j: int|
            #![trigger front[i][j]]
            0 <= i < front.len() && 0 <= j < front[i].len() implies front[i][j] != '/' by {
            assert(front[i][j] == segs[i][j]);
        }
        lemma_named_proper(front);
        let last = segs.last();
        if last.contains('/') {
            let j = choose|j: int| 0 <= j < last.len() && last[j] == '/';
            assert(segs[segs.len() - 1][j] != '/');
        }
    }
}

/// The components of a path are a proper sequence.
pub proof fn lemma_comps_proper(p: Seq<char>)
    ensures
        proper(comps(p)),
{
    text::lemma_split_pieces(p, '/');
    lemma_named_proper(text::split_on(p, '/'));
    let tail = named(text::split_on(p, '/'));
    assert forall|i: int| 0 <= i < comps(p).len() implies comp_ok(#[trigger] comps(p)[i], i) by {
        if i >= path_head(p).len() {
            assert(comps(p)[i] == tail[i - path_head(p).len()]);
        }
    }
}

/// Only an absolute path has a root component.
pub proof fn lemma_root_is_head(p: Seq<char>)
    requires
        !is_absolute(p),
    ensures
        forall|i: int| 0 <= i < comps(p).len() ==> !(#[trigger] comps(p)[i] is Root),
{
    text::lemma_split_pieces(p, '/');
    lemma_named_proper(text::split_on(p, '/'));
    let tail = named(text::split_on(p, '/'));
    assert forall|i: int| 0 <= i < comps(p).len() implies !(#[trigger] comps(p)[i] is Root) by {
        if i >= path_head(p).len() {
            assert(comps(p)[i] == tail[i - path_head(p).len()]);
        }
    }
}

/// Extending a path by one name or `..` adds that component.
proof fn lemma_comps_extend(base: Seq<char>, c: Comp)
    requires
        comp_ok(c, 1),
    ensures
        comps(joined(base, comp_text(c))) == comps(base).push(c),
{
    let seg = comp_text(c);
    assert forall|i: int| 0 <= i < seg.len() implies seg[i] != '/' by {
        if c is Name {
            assert(seg.contains(seg[i]));
        }
    }
    text::lemma_split_none(seg, '/');
    lemma_named_one(seg);
    if c is Parent {
        assert(seg.len() == 2);
        assert(seq!['.'].len() == 1);
    }
    assert(segment_comp(seg) == Some(c));
    assert(!is_absolute(seg));
    let whole = joined(base, seg);
    if base.len() == 0 {
        assert(whole =~= seg);
        text::lemma_split_none(base, '/');
        assert(segment_comp(base) is None);
        lemma_named_one(base);
        assert(seg != seq!['.']);
        assert(base != seq!['.']) by {
            assert(seq!['.'].len() == 1);
        }
        assert(path_head(base) =~= Seq::<Comp>::empty());
        assert(path_head(whole) =~= Seq::<Comp>::empty());
        assert(comps(whole) =~= comps(base).push(c));
    } else {
        lemma_comps_segment(base, seg);
        assert(comps(whole) =~= comps(base).push(c));
    }
}

/// Extending a non-empty path by a relative one adds what its segments name.
pub proof fn lemma_comps_relative(base: Seq<char>, p: Seq<char>)
    requires
        base.len() > 0,
        !is_absolute(p),
    ensures
        comps(joined(base, p)) == comps(base) + named(text::split_on(p, '/')),
{
    let whole = joined(base, p);
    let stem = if base.last() == '/' {
        base.drop_last()
    } else {
        base
    };
    assert(whole =~= stem.push('/') + p);
    text::lemma_split_joined(stem, p, '/');
    lemma_named_concat(text::split_on(stem, '/'), text::split_on(p, '/'));
    text::lemma_split_pieces(stem, '/');
    assert(text::split_on(whole, '/')[0] == text::split_on(stem, '/')[0]);
    if base.last() == '/' {
        let empty = Seq::<char>::empty();
        assert(base =~= stem.push('/') + empty);
        text::lemma_split_joined(stem, empty, '/');
        text::lemma_split_none(empty, '/');
        lemma_named_one(empty);
        lemma_named_concat(text::split_on(stem, '/'), seq![empty]);
        assert(text::split_on(base, '/')[0] == text::split_on(stem, '/')[0]);
        assert(named(text::split_on(base, '/')) =~= named(text::split_on(stem, '/')));
    }
    assert(whole[0] == base[0]);
    assert(path_head(whole) == path_head(base));
    assert(comps(whole) =~= comps(base) + named(text::split_on(p, '/')));
}

/// Extending a non-empty path by one segment adds what the segment names.
pub proof fn lemma_comps_segment(base: Seq<char>, seg: Seq<char>)
    requires
        base.len() > 0,
        forall|i: int| 0 <= i < seg.len() ==> seg[i] != '/',
    ensures
        comps(joined(base, seg)) == comps(base) + named(seq![seg]),
{
    text::lemma_split_none(seg, '/');
    lemma_comps_relative(base, seg);
}

/// A `.` behind a non-empty path changes nothing.
pub proof fn lemma_comps_dot(base: Seq<char>)
    requires
        base.len() > 0,
    ensures
        comps(joined(base, seq!['.'])) == comps(base),
{
    lemma_comps_segment(base, seq!['.']);
    lemma_named_one(seq!['.']);
    assert(comps(base) + Seq::<Comp>::empty() =~= comps(base));
}

/// Extending a path by a rendered sequence of names and `..` adds them all.
pub proof fn lemma_comps_joined(base: Seq<char>, w: Seq<Comp>)
    requires
        w.len() > 0,
        forall|i: int| 0 <= i < w.len() ==> comp_ok(#[trigger] w[i], 1),
    ensures
        render(w).len() > 0,
        !is_absolute(render(w)),
        comps(joined(base, render(w))) == comps(base) + w,
    decreases w.len(),
{
    let front = w.drop_last();
    let c = w.last();
    let t = comp_text(c);
    assert(comp_ok(w[w.len() - 1], 1));
    assert(t.len() > 0 && t[0] != '/') by {
        if c is Name {
            assert(t.contains(t[0]));
        }
    }
    if front.len() == 0 {
        assert(front =~= Seq::<Comp>::empty());
        assert(render(front) =~= Seq::<char>::empty());
        assert(render(w) =~= t);
        lemma_comps_extend(base, c);
        assert(w =~= seq![c]);
        assert(comps(base).push(c) =~= comps(base) + w);
    } else {
        assert forall|i: int| 0 <= i < front.len() implies comp_ok(#[trigger] front[i], 1) by {
            assert(front[i] == w[i]);
        }
        lemma_comps_joined(base, front);
        let r = render(front);
        assert(render(w)[0] == r[0]);
        assert(joined(base, render(w)) =~= joined(joined(base, r), t));
        lemma_comps_extend(joined(base, r), c);
        assert((comps(base) + front).push(c) =~= comps(base) + w);
    }
}

/// The components of the root and of `.`.
pub proof fn lemma_comps_first(c: Comp)
    requires
        comp_ok(c, 0),
    ensures
        comps(comp_text(c)) == seq![c],
        comps(Seq::<char>::empty()) == Seq::<Comp>::empty(),
{
    let empty = Seq::<char>::empty();
    text::lemma_split_none(empty, '/');
    lemma_named_one(empty);
    assert(seq!['.'].len() == 1);
    assert(comps(empty) =~= Seq::<Comp>::empty());
    match c {
        Comp::Root => {
            assert(comp_text(c) =~= empty.push('/') + empty);
            text::lemma_split_joined(empty, empty, '/');
            lemma_named_concat(seq![empty], seq![empty]);
            assert(comps(comp_text(c)) =~= seq![c]);
        },
        Comp::Cur => {
            text::lemma_split_none(comp_text(c), '/');
            lemma_named_one(comp_text(c));
            assert(comps(comp_text(c)) =~= seq![c]);
        },
        _ => {
            lemma_comps_extend(empty, c);
            assert(joined(empty, comp_text(c)) =~= comp_text(c));
            assert(comps(comp_text(c)) =~= seq![c]);
        },
    }
}

/// Reading back a rendered path gives the components it was rendered from.
pub proof fn law_render_reads_back(cs: Seq<Comp>)
    requires
        proper(cs),
    ensures
        comps(render(cs)) == cs,
    decreases cs.len(),
{
    if cs.len() == 0 {
        lemma_comps_first(Comp::Root);
        assert(cs =~= Seq::<Comp>::empty());
    } else {
        let front = cs.drop_last();
        assert(proper(front)) by {
            assert forall|i: int| 0 <= i < front.len() implies comp_ok(#[trigger] front[i], i) by {
                assert(front[i] == cs[i]);
            }
        }
        law_render_reads_back(front);
        assert(comp_ok(cs[cs.len() - 1], cs.len() - 1));
        if cs.len() == 1 {
            lemma_comps_first(cs.last());
            assert(front =~= Seq::<Comp>::empty());
            assert(joined(render(front), comp_text(cs.last())) =~= comp_text(cs.last()));
            assert(cs =~= seq![cs.last()]);
        } else {
            lemma_comps_extend(render(front), cs.last());
            assert(cs =~= front.push(cs.last()));
        }
    }
}

/// The names of a path hold no character that the path does not hold.
pub proof fn lemma_comps_chars(p: Seq<char>, c: char)
    requires
        !p.contains(c),
        c != '/',
        c != '.',
    ensures
        forall|i: int| 0 <= i < comps(p).len() ==> !comp_text(#[trigger] comps(p)[i]).contains(c),
{
    text::lemma_split_chars(p, '/', c);
    lemma_named_chars(text::split_on(p, '/'), c);
    let tail = named(text::split_on(p, '/'));
    assert forall|i: int| 0 <= i < comps(p).len() implies !comp_text(
        #[trigger] comps(p)[i],
    ).contains(c) by {
        if i >= path_head(p).len() {
            assert(comps(p)[i] == tail[i - path_head(p).len()]);
        }
    }
}

proof fn lemma_named_chars(segs: Seq<Seq<char>>, c: char)
    requires
        c != '.',
        forall|i: int| 0 <= i < segs.len() ==> !(#[trigger] segs[i]).contains(c),
    ensures
        forall|i: int|
            0 <= i < named(segs).len() ==> !comp_text(#[trigger] named(segs)[i]).contains(c),
    decreases segs.len(),
{
    if segs.len() > 0 {
        let front = segs.drop_last();
        assert forall|i: int| 0 <= i < front.len() implies !(#[trigger] front[i]).contains(c) by {
            assert(front[i] == segs[i]);
        }
        lemma_named_chars(front, c);
        let last = segs[segs.len() - 1];
        assert(!last.contains(c));
        assert forall|i: int| 0 <= i < named(segs).len() implies !comp_text(
            #[trigger] named(segs)[i],
        ).contains(c) by {
            if i < named(front).len() {
                assert(named(segs)[i] == named(front)[i]);
            } else {
                assert(comp_text(named(segs)[i]) =~= last);
            }
        }
    }
}

/// A rendered path holds only the characters of its components, and slashes.
pub proof fn lemma_render_chars(cs: Seq<Comp>, c: char)
    requires
        c != '/',
        forall|i: int| 0 <= i < cs.len() ==> !comp_text(#[trigger] cs[i]).contains(c),
    ensures
        forall|i: int| 0 <= i < render(cs).len() ==> render(cs)[i] != c,
    decreases cs.len(),
{
    if cs.len() > 0 {
        let front = cs.drop_last();
        assert forall|i: int| 0 <= i < front.len() implies !comp_text(
            #[trigger] front[i],
        ).contains(c) by {
            assert(front[i] == cs[i]);
        }
        lemma_render_chars(front, c);
        let t = comp_text(cs.last());
        assert(!comp_text(cs[cs.len() - 1]).contains(c));
        let base = render(front);
        let whole = render(cs);
        assert forall|i: int| 0 <= i < whole.len() implies whole[i] != c by {
            let skip = whole.len() - t.len();
            if i >= skip {
                assert(whole[i] == t[i - skip]);
                assert(t.contains(t[i - skip]));
            } else if i < base.len() {
                assert(whole[i] == base[i]);
            }
        }
    }
}

/// The index of the last `.` in a name, or -1.
pub open spec fn last_dot(name: Seq<char>) -> int
    decreases name.len(),
{
    if name.len() == 0 {
        -1
    } else if name.last() == '.' {
        name.len() - 1
    } else {
        last_dot(name.drop_last())
    }
}

/// The extension of a name: what follows its last `.`, unless that `.` is in
/// front.
pub open spec fn extension_of(name: Seq<char>) -> Option<Seq<char>> {
    let k = last_dot(name);
    if k <= 0 {
        None
    } else {
        Some(name.skip(k + 1))
    }
}

/// The name without its extension.
pub open spec fn stem_of(name: Seq<char>) -> Seq<char> {
    let k = last_dot(name);
    if k <= 0 {
        name
    } else {
        name.take(k)
    }
}

/// The component that one segment names.
fn component_of(seg: &str) -> (out: Option<Component>)
    ensures
        out is Some <==> segment_comp(seg@) is Some,
        out is Some ==> segment_comp(seg@) == Some(out->0@),
{
    let x = text::chars_of(seg);
    proof {
        assert(seq!['.'].len() == 1 && seq!['.', '.'].len() == 2);
    }
    if x.len() == 0 {
        None
    } else if x.len() == 1 && x[0] == '.' {
        assert(seg@ =~= seq!['.']);
        None
    } else if x.len() == 2 && x[0] == '.' && x[1] == '.' {
        assert(seg@ =~= seq!['.', '.']);
        Some(Component::ParentDir)
    } else {
        assert(seg@ != seq!['.']);
        assert(seg@ != seq!['.', '.']);
        Some(Component::Normal(text::copy_str(seg)))
    }
}

/// The components of a path.
pub fn components(p: &str) -> (out: Vec<Component>)
    ensures
        comp_views(out@) == comps(p@),
{
    let segs = text::split(p, '/');
    let mut out: Vec<Component> = Vec::new();
    let ghost segv = text::views(segs@);
    proof {
        text::lemma_split_pieces(p@, '/');
        assert(segv[0] == segs[0]@);
    }
    if is_absolute_path(p) {
        out.push(Component::RootDir);
        assert(comp_views(out@) =~= seq![Comp::Root]);
    } else {
        let first = text::chars_of(segs[0].as_str());
        if first.len() == 1 && first[0] == '.' {
            assert(segs[0]@ =~= seq!['.']);
            out.push(Component::CurDir);
            assert(comp_views(out@) =~= seq![Comp::Cur]);
        } else {
            assert(seq!['.'].len() == 1 && seq!['.'][0] == '.');
            assert(comp_views(out@) =~= Seq::<Comp>::empty());
        }
    }
    let mut i: usize = 0;
    proof {
        assert(segv.take(0) =~= Seq::<Seq<char>>::empty());
        assert(path_head(p@) + named(segv.take(0)) =~= path_head(p@));
    }
    while i < segs.len()
        invariant
            i <= segs.len(),
            segv == text::views(segs@),
            comp_views(out@) == path_head(p@) + named(segv.take(i as int)),
        decreases segs.len() - i,
    {
        let ghost before = out@;
        proof {
            assert(segv.take(i + 1).drop_last() =~= segv.take(i as int));
            assert(segv.take(i + 1).last() == segs[i as int]@);
        }
        match component_of(segs[i].as_str()) {
            Some(c) => {
                out.push(c);
                assert(comp_views(out@) =~= comp_views(before).push(c@));
                assert(comp_views(out@) =~= path_head(p@) + named(segv.take(i + 1)));
            },
            None => {},
        }
        i += 1;
    }
    assert(segv.take(i as int) =~= segv);
    out
}

/// Whether a path starts at the root.
pub fn is_absolute_path(p: &str) -> (r: bool)
    ensures
        r == is_absolute(p@),
{
    let x = text::chars_of(p);
    x.len() > 0 && x[0] == '/'
}

/// Extend `base` by `p`.
pub fn join(base: &str, p: &str) -> (out: String)
    ensures
        out@ == joined(base@, p@),
{
    if is_absolute_path(p) {
        return text::copy_str(p);
    }
    let x = text::chars_of(base);
    let mut out = text::copy_str(base);
    if x.len() > 0 && x[x.len() - 1] != '/' {
        out.push('/');
    }
    text::push_text(&mut out, p);
    out
}

/// The text of a component.
fn component_text(c: &Component) -> (out: String)
    ensures
        out@ == comp_text(c@),
{
    let mut out = String::new();
    match c {
        Component::RootDir => {
            out.push('/');
            assert(out@ =~= seq!['/']);
        },
        Component::CurDir => {
            out.push('.');
            assert(out@ =~= seq!['.']);
        },
        Component::ParentDir => {
            out.push('.');
            out.push('.');
            assert(out@ =~= seq!['.', '.']);
        },
        Component::Normal(s) => {
            return text::copy_str(s.as_str());
        },
    }
    out
}

/// The path made of `cs[from..to]`.
pub fn assemble(cs: &Vec<Component>, from: usize, to: usize) -> (out: String)
    requires
        from <= to <= cs.len(),
    ensures
        out@ == render(comp_views(cs@).subrange(from as int, to as int)),
{
    let mut out = String::new();
    let mut i: usize = from;
    while i < to
        invariant
            from <= i <= to <= cs.len(),
            out@ == render(comp_views(cs@).subrange(from as int, i as int)),
        decreases to - i,
    {
        let piece = component_text(&cs[i]);
        out = join(out.as_str(), piece.as_str());
        proof {
            let next = comp_views(cs@).subrange(from as int, i + 1);
            assert(next.drop_last() =~= comp_views(cs@).subrange(from as int, i as int));
            assert(next.last() == cs[i as int]@);
        }
        i += 1;
    }
    out
}

/// Whether two components are equal.
pub fn same_component(a: &Component, b: &Component) -> (r: bool)
    ensures
        r == (a@ == b@),
{
    match (a, b) {
        (Component::RootDir, Component::RootDir) => true,
        (Component::CurDir, Component::CurDir) => true,
        (Component::ParentDir, Component::ParentDir) => true,
        (Component::Normal(x), Component::Normal(y)) => text::same(x.as_str(), y.as_str()),
        _ => false,
    }
}

/// How many leading components two sequences share.
pub open spec fn common_len(a: Seq<Comp>, b: Seq<Comp>) -> int
    decreases a.len(),
{
    if a.len() == 0 || b.len() == 0 || a[0] != b[0] {
        0
    } else {
        1 + common_len(a.skip(1), b.skip(1))
    }
}

/// The shared components agree, and the sequences differ right after them.
pub proof fn lemma_common_len(a: Seq<Comp>, b: Seq<Comp>)
    ensures
        0 <= common_len(a, b) <= a.len(),
        common_len(a, b) <= b.len(),
        a.take(common_len(a, b)) == b.take(common_len(a, b)),
        common_len(a, b) < a.len() && common_len(a, b) < b.len() ==> a[common_len(a, b)]
            != b[common_len(a, b)],
    decreases a.len(),
{
    let n = common_len(a, b);
    if !(a.len() == 0 || b.len() == 0 || a[0] != b[0]) {
        lemma_common_len(a.skip(1), b.skip(1));
        assert forall|i: int| 0 <= i < n implies a[i] == b[i] by {
            if i > 0 {
                assert(a.skip(1).take(n - 1)[i - 1] == b.skip(1).take(n - 1)[i - 1]);
            }
        }
    }
    assert(a.take(n) =~= b.take(n));
}

/// A count of leading components that agree, with a difference right after
/// them, is the number of shared components.
pub proof fn lemma_common_len_is(a: Seq<Comp>, b: Seq<Comp>, n: int)
    requires
        0 <= n <= a.len(),
        n <= b.len(),
        forall|i: int| 0 <= i < n ==> a[i] == b[i],
        n < a.len() && n < b.len() ==> a[n] != b[n],
    ensures
        common_len(a, b) == n,
{
    lemma_common_len(a, b);
    let m = common_len(a, b);
    if m < n {
        assert(a[m] == b[m]);
    } else if n < m {
        assert(a.take(m)[n] == b.take(m)[n]);
    }
}

/// How many leading components two sequences share.
pub fn shared(a: &Vec<Component>, b: &Vec<Component>) -> (n: usize)
    ensures
        n == common_len(comp_views(a@), comp_views(b@)),
        n <= a.len(),
        n <= b.len(),
{
    let mut i: usize = 0;
    while i < a.len() && i < b.len()
        invariant
            i <= a.len(),
            i <= b.len(),
            forall|j: int| 0 <= j < i ==> comp_views(a@)[j] == comp_views(b@)[j],
        decreases a.len() - i,
    {
        if !same_component(&a[i], &b[i]) {
            proof {
                lemma_common_len_is(comp_views(a@), comp_views(b@), i as int);
            }
            return i;
        }
        i += 1;
    }
    proof {
        lemma_common_len_is(comp_views(a@), comp_views(b@), i as int);
    }
    i
}

/// The directory that holds a path.
pub fn parent(p: &str) -> (out: Option<String>)
    ensures
        text::opt_view(out) == parent_of(p@),
{
    let cs = components(p);
    if cs.len() == 0 {
        return None;
    }
    let n: usize = cs.len();
    assert(comp_views(cs@).last() == cs[n - 1]@);
    match &cs[n - 1] {
        Component::RootDir => None,
        _ => {
            let shown = up_to_end(p);
            let x = text::chars_of(shown.as_str());
            let b = last_segment(&x, x.len());
            assert(x@.take(x.len() as int) =~= x@);
            let dir = text::string_of(&x, 0, b);
            assert(dir@ =~= shown@.take(b as int));
            Some(up_to_end(dir.as_str()))
        },
    }
}

/// Whether the segment `x[from..to]` names something.
fn is_named(x: &Vec<char>, from: usize, to: usize) -> (r: bool)
    requires
        from <= to <= x.len(),
    ensures
        r == (segment_comp(x@.subrange(from as int, to as int)) is Some),
{
    let ghost seg = x@.subrange(from as int, to as int);
    let r = !(to == from || (to - from == 1 && x[from] == '.'));
    proof {
        assert(seq!['.'].len() == 1 && seq!['.'][0] == '.');
        if to - from == 1 {
            assert(seg[0] == x@[from as int]);
            if x@[from as int] == '.' {
                assert(seg =~= seq!['.']);
            }
        }
    }
    r
}

/// Where the last segment of `x[..to]` begins.
fn last_segment(x: &Vec<char>, to: usize) -> (b: usize)
    requires
        to <= x.len(),
    ensures
        b == behind_slash(x@.take(to as int)),
        b <= to,
{
    let mut i: usize = to;
    while i > 0 && x[i - 1] != '/'
        invariant
            i <= to <= x.len(),
            behind_slash(x@.take(to as int)) == behind_slash(x@.take(i as int)),
        decreases i,
    {
        proof {
            let t = x@.take(i as int);
            assert(t.last() == x@[i - 1]);
            assert(t.drop_last() =~= x@.take(i - 1));
        }
        i -= 1;
    }
    proof {
        let t = x@.take(i as int);
        if i > 0 {
            assert(t.last() == x@[i - 1]);
        }
    }
    i
}

/// A text without the segments at its end that name nothing.
fn trim_end(p: &str) -> (out: String)
    ensures
        out@ == rtrim(p@),
{
    let x = text::chars_of(p);
    let mut to: usize = x.len();
    assert(x@.take(to as int) =~= p@);
    loop
        invariant
            to <= x.len(),
            x@ == p@,
            rtrim(x@.take(to as int)) == rtrim(p@),
        decreases to,
    {
        let b = last_segment(&x, to);
        let ghost t = x@.take(to as int);
        assert(t.skip(b as int) =~= x@.subrange(b as int, to as int));
        if is_named(&x, b, to) {
            let out = text::string_of(&x, 0, to);
            assert(out@ =~= t);
            return out;
        }
        if b == 0 {
            return String::new();
        }
        assert(t.take(b - 1) =~= x@.take(b - 1));
        to = b - 1;
    }
}

/// What follows the first `n` names of a text.
fn skip_names(p: &str, n: usize) -> (out: String)
    ensures
        out@ == behind_names(p@, n as int),
{
    let x = text::chars_of(p);
    let len: usize = x.len();
    let mut from: usize = 0;
    let mut left: usize = n;
    assert(x@.skip(0) =~= p@);
    loop
        invariant
            from <= len,
            len == x.len(),
            left <= n,
            behind_names(x@.skip(from as int), left as int) == behind_names(p@, n as int),
        decreases len - from, left,
    {
        let ghost t = x@.skip(from as int);
        let mut end: usize = from;
        while end < len && x[end] != '/'
            invariant
                from <= end <= len,
                len == x.len(),
                forall|i: int| from <= i < end ==> #[trigger] x@[i] != '/',
            decreases len - end,
        {
            end += 1;
        }
        proof {
            assert forall|i: int| 0 <= i < end - from implies t[i] != '/' by {
                assert(t[i] == x@[from + i]);
            }
            text::lemma_first_of_is(t, '/', end - from);
            assert(t.take(end - from) =~= x@.subrange(from as int, end as int));
            if end < len {
                assert(t.skip(end - from + 1) =~= x@.skip(end + 1));
            }
        }
        if is_named(&x, from, end) {
            if left == 0 {
                let out = text::string_of(&x, from, len);
                assert(out@ =~= t);
                return out;
            }
            left -= 1;
            if end == len {
                proof {
                    lemma_empty_has_no_names(left as int);
                }
                return String::new();
            }
            from = end + 1;
        } else if end < len {
            from = end + 1;
        } else {
            proof {
                assert(ltrim(t) =~= Seq::<char>::empty());
                assert(ltrim(Seq::<char>::empty()) =~= Seq::<char>::empty());
                lemma_empty_has_no_names(left as int);
                lemma_behind_trimmed(t, left as int);
            }
            return String::new();
        }
    }
}

/// Nothing follows any name of an empty text.
proof fn lemma_empty_has_no_names(n: int)
    ensures
        behind_names(Seq::<char>::empty(), n) == Seq::<char>::empty(),
    decreases n,
{
    let empty = Seq::<char>::empty();
    text::lemma_first_of(empty, '/');
    assert(empty.take(0) =~= empty);
    assert(ltrim(empty) =~= empty);
    if n > 0 {
        lemma_empty_has_no_names(n - 1);
    }
}

/// Trimming in front changes nothing about what follows the names.
proof fn lemma_behind_trimmed(p: Seq<char>, n: int)
    requires
        ltrim(p) == Seq::<char>::empty(),
    ensures
        behind_names(p, n) == behind_names(Seq::<char>::empty(), n),
{
    let empty = Seq::<char>::empty();
    text::lemma_first_of(empty, '/');
    assert(empty.take(0) =~= empty);
    assert(ltrim(empty) =~= empty);
}

/// The number of components in front of the names of a path.
fn head_count(p: &str) -> (n: usize)
    ensures
        n == path_head(p@).len(),
        n <= p@.len(),
        n <= 1,
{
    let x = text::chars_of(p);
    proof {
        lemma_first_segment(p@);
        text::lemma_first_of(p@, '/');
        assert(seq!['.'].len() == 1 && seq!['.'][0] == '.');
    }
    if x.len() > 0 && x[0] == '/' {
        return 1;
    }
    if x.len() > 0 && x[0] == '.' && (x.len() == 1 || x[1] == '/') {
        proof {
            text::lemma_first_of_is(p@, '/', 1);
            assert(p@.take(1) =~= seq!['.']);
        }
        return 1;
    }
    proof {
        let k = text::first_of(p@, '/');
        if p@.take(k) == seq!['.'] {
            assert(p@.take(k)[0] == p@[0]);
        }
    }
    0
}

/// The text of a path up to the end of its last component.
fn up_to_end(p: &str) -> (out: String)
    ensures
        out@ == whole(p@),
{
    let h = head_count(p);
    let x = text::chars_of(p);
    let mut out = text::string_of(&x, 0, h);
    let body = text::string_of(&x, h, x.len());
    assert(out@ =~= p@.take(h as int));
    assert(body@ =~= p@.skip(h as int));
    let trimmed = trim_end(body.as_str());
    text::push_text(&mut out, trimmed.as_str());
    out
}

/// The last name of a path.
pub fn file_name(p: &str) -> (out: Option<String>)
    ensures
        text::opt_view(out) == file_name_of(p@),
{
    let cs = components(p);
    if cs.len() == 0 {
        return None;
    }
    let n: usize = cs.len();
    assert(comp_views(cs@).last() == cs[n - 1]@);
    match &cs[n - 1] {
        Component::Normal(s) => Some(text::copy_str(s.as_str())),
        _ => None,
    }
}

/// The position just behind the last `.` of a name, or 0.
fn after_last_dot(x: &Vec<char>) -> (n: usize)
    ensures
        n == last_dot(x@) + 1,
        n <= x.len(),
{
    let mut i: usize = x.len();
    assert(x@.take(i as int) =~= x@);
    while i > 0
        invariant
            i <= x.len(),
            last_dot(x@) == last_dot(x@.take(i as int)),
        decreases i,
    {
        assert(x@.take(i as int).last() == x[i - 1]);
        assert(x@.take(i as int).drop_last() =~= x@.take(i - 1));
        if x[i - 1] == '.' {
            return i;
        }
        i -= 1;
    }
    0
}

/// The extension of a path's last name.
pub fn extension(p: &str) -> (out: Option<String>)
    ensures
        text::opt_view(out) == match file_name_of(p@) {
            Some(name) => extension_of(name),
            None => None,
        },
{
    match file_name(p) {
        None => None,
        Some(name) => {
            let x = text::chars_of(name.as_str());
            let n = after_last_dot(&x);
            if n <= 1 {
                None
            } else {
                let out = text::string_of(&x, n, x.len());
                assert(out@ =~= name@.skip(n as int));
                Some(out)
            }
        },
    }
}

/// A name without its extension.
pub fn stem(name: &str) -> (out: String)
    ensures
        out@ == stem_of(name@),
{
    let x = text::chars_of(name);
    let n = after_last_dot(&x);
    if n <= 1 {
        text::copy_str(name)
    } else {
        let out = text::string_of(&x, 0, n - 1);
        assert(out@ =~= name@.take(n - 1));
        out
    }
}

/// Whether `p` is `base` or lies below it.
pub fn starts_with(p: &str, base: &str) -> (r: bool)
    ensures
        r == under(p@, base@),
{
    let a = components(p);
    let b = components(base);
    let n = shared(&b, &a);
    proof {
        lemma_common_len(comp_views(b@), comp_views(a@));
        if n == b.len() {
            assert(comp_views(b@).take(n as int) =~= comp_views(b@));
            assert(comp_views(b@) =~= comp_views(a@).subrange(0, n as int));
        } else if under(p@, base@) {
            assert(comp_views(b@)[n as int] == comp_views(a@).subrange(0, b.len() as int)[n as int]);
        }
    }
    n == b.len()
}

/// The path of `p` below `base`.
pub fn strip_prefix(p: &str, base: &str) -> (out: Option<String>)
    ensures
        text::opt_view(out) == stripped(p@, base@),
{
    if !starts_with(p, base) {
        return None;
    }
    let b = components(base);
    if b.len() == 0 {
        return Some(up_to_end(p));
    }
    let h = head_count(p);
    let x = text::chars_of(p);
    let body = text::string_of(&x, h, x.len());
    assert(body@ =~= p@.skip(h as int));
    let rest = skip_names(body.as_str(), b.len() - h);
    Some(trim_end(rest.as_str()))
}

/// Whether two texts name the same path.
pub fn same_path(a: &str, b: &str) -> (r: bool)
    ensures
        r == (comps(a@) == comps(b@)),
{
    let x = components(a);
    let y = components(b);
    let n = shared(&x, &y);
    proof {
        lemma_common_len(comp_views(x@), comp_views(y@));
        if n == x.len() && n == y.len() {
            assert(comp_views(x@) =~= comp_views(x@).take(n as int));
            assert(comp_views(y@) =~= comp_views(y@).take(n as int));
        }
    }
    n == x.len() && n == y.len()
}

/// The key of one component, appended.
fn push_comp_key(out: &mut Vec<char>, c: &Component)
    ensures
        final(out)@ == old(out)@ + comp_key(c@),
{
    out.push('\0');
    match c {
        Component::RootDir => out.push('0'),
        Component::CurDir => out.push('1'),
        Component::ParentDir => out.push('2'),
        Component::Normal(s) => {
            out.push('3');
            let ghost was = out@;
            let x = text::chars_of(s.as_str());
            let mut i: usize = 0;
            while i < x.len()
                invariant
                    i <= x.len(),
                    x@ == s@,
                    out@ == was + s@.take(i as int),
                decreases x.len() - i,
            {
                out.push(x[i]);
                i += 1;
                assert(s@.take(i as int) =~= s@.take(i - 1).push(s@[i - 1]));
            }
            assert(s@.take(i as int) =~= s@);
        },
    }
    assert(out@ =~= old(out)@ + comp_key(c@));
}

/// The key that sorts a path component by component.
pub fn sort_key(p: &str) -> (key: Vec<char>)
    ensures
        key@ == order_key(comps(p@)),
{
    let cs = components(p);
    let ghost cv = comp_views(cs@);
    let mut key: Vec<char> = Vec::new();
    let mut i: usize = 0;
    assert(cv.take(0) =~= Seq::empty());
    while i < cs.len()
        invariant
            i <= cs.len(),
            cv == comp_views(cs@),
            key@ == order_key(cv.take(i as int)),
        decreases cs.len() - i,
    {
        push_comp_key(&mut key, &cs[i]);
        i += 1;
        assert(cv.take(i as int).drop_last() =~= cv.take(i - 1));
        assert(cv.take(i as int).last() == cs@[i - 1]@);
    }
    assert(cv.take(i as int) =~= cv);
    key
}

/// A name behind a path is one component more, and the last name of the whole;
/// the directory of the whole is the path, and below the path stands the name
/// alone.
pub proof fn law_names_extend_a_path(base: Seq<char>, name: Seq<char>)
    requires
        name.len() > 0,
        !name.contains('/'),
        name != seq!['.'],
        name != seq!['.', '.'],
    ensures
        comps(joined(base, name)) == comps(base).push(Comp::Name(name)),
        file_name_of(joined(base, name)) == Some(name),
        parent_of(joined(base, name)) is Some,
        comps(parent_of(joined(base, name))->0) == comps(base),
        under(joined(base, name), base),
        stripped(joined(base, name), base) is Some,
        comps(stripped(joined(base, name), base)->0) == seq![Comp::Name(name)],
        base.len() > 0 && base.last() != '/' ==> joined(base, name) == base + seq!['/'] + name,
        base.len() == 0 ==> joined(base, name) == name,
        base.len() > 0 && base.last() == '/' ==> joined(base, name) == base + name,
{
    let c = Comp::Name(name);
    let whole_path = joined(base, name);
    assert(comp_text(c) == name);
    lemma_comps_extend(base, c);
    law_directory_lacks_the_last_component(whole_path);
    assert(comps(base).push(c).drop_last() =~= comps(base));
    assert(comps(base).is_prefix_of(comps(whole_path)));
    lemma_comps_stripped(whole_path, base);
    assert(comps(base).push(c).skip(comps(base).len() as int) =~= seq![c]);
    assert(name[0] != '/') by {
        assert(name.contains(name[0]));
    }
    if base.len() == 0 {
        assert(base + name =~= name);
    }
    assert(base.push('/') + name =~= base + seq!['/'] + name);
}

/// What a text names is read off its segments: the empty text names nothing, a
/// lone slash the root, a lone dot the current directory; behind that a slash
/// adds nothing, an empty segment and a dot add nothing, two dots climb, and
/// any other segment is a name.
pub proof fn law_segments_name_components(base: Seq<char>, seg: Seq<char>)
    requires
        !seg.contains('/'),
    ensures
        comps(Seq::<char>::empty()) == Seq::<Comp>::empty(),
        comps(seq!['/']) == seq![Comp::Root],
        comps(seq!['.']) == seq![Comp::Cur],
        base.len() > 0 && (seg.len() == 0 || seg == seq!['.']) ==> comps(base.push('/') + seg)
            == comps(base),
        base.len() > 0 && seg == seq!['.', '.'] ==> comps(base.push('/') + seg) == comps(
            base,
        ).push(Comp::Parent),
        base.len() > 0 && seg.len() > 0 && seg != seq!['.'] && seg != seq!['.', '.'] ==> comps(
            base.push('/') + seg,
        ) == comps(base).push(Comp::Name(seg)),
{
    lemma_comps_first(Comp::Root);
    lemma_comps_first(Comp::Cur);
    assert forall|i: int| 0 <= i < seg.len() implies seg[i] != '/' by {
        assert(seg.contains(seg[i]));
    }
    if base.len() > 0 {
        let b = base.push('/');
        lemma_comps_segment(b, seg);
        lemma_comps_segment(base, Seq::empty());
        lemma_named_one(seg);
        lemma_named_one(Seq::empty());
        assert(b.last() == '/');
        assert(joined(b, seg) == b + seg);
        if base.last() == '/' {
            // A second slash stands behind an empty segment.
            let front = base.drop_last();
            assert(base =~= front.push('/'));
            assert(b =~= front.push('/').push('/') + Seq::empty());
            text::lemma_split_joined(front, Seq::empty(), '/');
            text::lemma_split_joined(base, Seq::empty(), '/');
            assert(base.push('/') + Seq::empty() =~= b);
            assert(front.push('/') + Seq::<char>::empty() =~= base);
            text::lemma_split_none(Seq::empty(), '/');
            lemma_named_concat(text::split_on(base, '/'), seq![Seq::empty()]);
            text::lemma_split_pieces(front, '/');
            text::lemma_split_pieces(base, '/');
            assert(text::split_on(b, '/')[0] == text::split_on(base, '/')[0]);
            assert(b[0] == base[0]);
            assert(comps(b) =~= comps(base));
        } else {
            assert(joined(base, Seq::empty()) =~= b);
            assert(comps(b) =~= comps(base));
        }
        let added = named(seq![seg]);
        if segment_comp(seg) is Some {
            assert(comps(base) + added =~= comps(base).push(segment_comp(seg)->0));
        } else {
            assert(comps(base) + added =~= comps(base));
        }
    }
}

/// Only the root and a text that names nothing have no directory.
pub proof fn law_only_the_root_has_no_directory(p: Seq<char>)
    ensures
        parent_of(p) is None <==> comps(p) == Seq::<Comp>::empty() || comps(p) == seq![Comp::Root],
        file_name_of(p) is Some <==> comps(p).len() > 0 && comps(p).last() is Name,
        file_name_of(p) matches Some(n) ==> comps(p).last() == Comp::Name(n),
{
    lemma_comps_proper(p);
    let cs = comps(p);
    if cs.len() == 0 {
        assert(cs =~= Seq::<Comp>::empty());
    } else if cs.last() is Root {
        assert(comp_ok(cs[cs.len() - 1], cs.len() - 1));
        assert(cs =~= seq![Comp::Root]);
    }
}

/// What follows the last dot of a name, unless that dot is in front, is its
/// extension, and what stands before it the rest.
pub proof fn law_the_last_dot_begins_the_extension(rest: Seq<char>, ext: Seq<char>)
    requires
        !ext.contains('.'),
    ensures
        rest.len() > 0 ==> extension_of(rest + seq!['.'] + ext) == Some(ext),
        rest.len() > 0 ==> stem_of(rest + seq!['.'] + ext) == rest,
        extension_of(ext) is None,
        stem_of(ext) == ext,
        extension_of(seq!['.'] + ext) is None,
        stem_of(seq!['.'] + ext) == seq!['.'] + ext,
{
    let name = rest + seq!['.'] + ext;
    lemma_last_dot_is(name, rest.len() as int);
    lemma_last_dot_is(seq!['.'] + ext, 0);
    assert(name.skip(rest.len() as int + 1) =~= ext);
    assert(name.take(rest.len() as int) =~= rest);
    lemma_no_dot(ext);
}

proof fn lemma_last_dot_is(name: Seq<char>, k: int)
    requires
        0 <= k < name.len(),
        name[k] == '.',
        !name.skip(k + 1).contains('.'),
    ensures
        last_dot(name) == k,
    decreases name.len(),
{
    let tail = name.skip(k + 1);
    if k < name.len() - 1 {
        assert(tail.last() == name.last());
        assert(tail.contains(tail.last()));
        let front = name.drop_last();
        assert(front[k] == '.');
        if front.skip(k + 1).contains('.') {
            let part = front.skip(k + 1);
            let i = choose|i: int| 0 <= i < part.len() && part[i] == '.';
            assert(tail[i] == '.');
        }
        lemma_last_dot_is(front, k);
    }
}

proof fn lemma_no_dot(name: Seq<char>)
    requires
        !name.contains('.'),
    ensures
        last_dot(name) == -1,
    decreases name.len(),
{
    if name.len() > 0 {
        assert(name.contains(name.last()));
        let front = name.drop_last();
        if front.contains('.') {
            let i = choose|i: int| 0 <= i < front.len() && front[i] == '.';
            assert(name[i] == '.');
        }
        lemma_no_dot(front);
    }
}

/// Names in one directory sort by their texts, and what is no name sorts before
/// them: the root first, a leading dot next, two dots last.
pub proof fn law_names_sort_by_their_text(cs: Seq<Comp>, a: Seq<char>, b: Seq<char>)
    ensures
        text::lex_lt(order_key(cs.push(Comp::Name(a))), order_key(cs.push(Comp::Name(b))))
            == text::lex_lt(a, b),
        text::lex_lt(order_key(cs.push(Comp::Root)), order_key(cs.push(Comp::Cur))),
        text::lex_lt(order_key(cs.push(Comp::Cur)), order_key(cs.push(Comp::Parent))),
        text::lex_lt(order_key(cs.push(Comp::Parent)), order_key(cs.push(Comp::Name(a)))),
{
    assert(cs.push(Comp::Name(a)).drop_last() =~= cs);
    assert(cs.push(Comp::Name(b)).drop_last() =~= cs);
    assert(cs.push(Comp::Root).drop_last() =~= cs);
    assert(cs.push(Comp::Cur).drop_last() =~= cs);
    assert(cs.push(Comp::Parent).drop_last() =~= cs);
    let k = order_key(cs);
    let mark = seq!['\0', '3'];
    assert(k + (mark + a) =~= (k + mark) + a);
    assert(k + (mark + b) =~= (k + mark) + b);
    text::law_shared_beginnings_do_not_matter(k + mark, a, b);
    let lead = k.push('\0');
    assert(k + seq!['\0', '0'] =~= lead + seq!['0']);
    assert(k + seq!['\0', '1'] =~= lead + seq!['1']);
    assert(k + seq!['\0', '2'] =~= lead + seq!['2']);
    assert(k + (mark + a) =~= lead + (seq!['3'] + a));
    text::law_shared_beginnings_do_not_matter(lead, seq!['0'], seq!['1']);
    text::law_shared_beginnings_do_not_matter(lead, seq!['1'], seq!['2']);
    text::law_shared_beginnings_do_not_matter(lead, seq!['2'], seq!['3'] + a);
}

/// A name with an extension is a name.
pub proof fn lemma_dotted(rest: Seq<char>, ext: Seq<char>)
    requires
        !rest.contains('/'),
        ext.len() > 0,
        !ext.contains('/'),
        !ext.contains('.'),
    ensures
        !(rest + seq!['.'] + ext).contains('/'),
        rest + seq!['.'] + ext != seq!['.'],
        rest + seq!['.'] + ext != seq!['.', '.'],
{
    let name = rest + seq!['.'] + ext;
    if name.contains('/') {
        let i = choose|i: int| 0 <= i < name.len() && name[i] == '/';
        if i < rest.len() {
            assert(rest[i] == '/');
        } else if i > rest.len() {
            assert(ext[i - rest.len() - 1] == '/');
        }
    }
    assert(name.last() == ext.last());
    assert(ext.contains(ext.last()));
}

} // verus!
