//! Pairing new files with similar files sent earlier in the same run.
//!
//! `1.iso` and `1.1.iso` in one directory are likely variants of each other,
//! so the one sent first can serve as the delta basis of the other. An index
//! over the directory, extension and stem of every earlier file finds the
//! candidates without looking at all of them.

use std::collections::HashMap;
use std::hash::{DefaultHasher, Hasher};

use vstd::prelude::*;

use crate::path;
use crate::text;

verus! {

broadcast use vstd::std_specs::hash::group_hash_axioms;

/// Files below this size (1 MiB) are not worth pairing.
pub const CROSS_BASIS_MIN: u64 = 1024 * 1024;

/// The directory, extension and stem of a path.
#[derive(Debug, Clone)]
pub struct StemKey {
    /// The directory.
    pub parent: String,
    /// The extension, if there is one.
    pub ext: Option<String>,
    /// The name without the extension.
    pub stem: String,
}

/// The model of [`StemKey`].
pub struct StemKeyV {
    pub parent: Seq<char>,
    pub ext: Option<Seq<char>>,
    pub stem: Seq<char>,
}

impl View for StemKey {
    type V = StemKeyV;

    open spec fn view(&self) -> StemKeyV {
        StemKeyV {
            parent: self.parent@,
            ext: text::opt_view(self.ext),
            stem: self.stem@,
        }
    }
}

/// The directory, extension and stem of a path.
pub open spec fn stem_key_of(rel: Seq<char>) -> StemKeyV {
    StemKeyV {
        parent: match path::parent_of(rel) {
            Some(p) => p,
            None => Seq::empty(),
        },
        ext: match path::file_name_of(rel) {
            Some(name) => path::extension_of(name),
            None => None,
        },
        stem: match path::file_name_of(rel) {
            Some(name) => path::stem_of(name),
            None => Seq::empty(),
        },
    }
}

/// The directory, extension and stem of a path.
pub fn stem_key(rel: &str) -> (k: StemKey)
    ensures
        k@ == stem_key_of(rel@),
{
    let parent = match path::parent(rel) {
        Some(p) => p,
        None => String::new(),
    };
    let ext = path::extension(rel);
    let stem = match path::file_name(rel) {
        Some(name) => path::stem(name.as_str()),
        None => String::new(),
    };
    StemKey { parent, ext, stem }
}

/// A file that can serve as a basis.
#[derive(Debug, Clone)]
pub struct StemEntry {
    /// Its size.
    pub size: u64,
    /// Its path.
    pub rel: String,
}

/// The models of a sequence of entries.
pub open spec fn stem_entry_views(v: Seq<StemEntry>) -> Seq<(u64, Seq<char>)> {
    v.map_values(|e: StemEntry| (e.size, e.rel@))
}

/// Whether `a` is a non-empty proper prefix of `b`.
pub open spec fn proper_prefix(a: Seq<char>, b: Seq<char>) -> bool {
    0 < a.len() < b.len() && a == b.take(a.len() as int)
}

/// Whether two sizes are within a factor of two of each other.
pub open spec fn similar_size(a: u64, b: u64) -> bool {
    a <= 2 * b && b <= 2 * a
}

/// How far apart two sizes are.
pub open spec fn distance(a: u64, b: u64) -> int {
    if a >= b {
        a - b
    } else {
        b - a
    }
}

/// Whether an earlier file can be the basis of the file `rel` of size `size`:
/// the same directory and extension, one stem a proper prefix of the other,
/// and similar sizes.
pub open spec fn eligible(entry: (u64, Seq<char>), rel: Seq<char>, size: u64) -> bool {
    let a = stem_key_of(entry.1);
    let b = stem_key_of(rel);
    &&& a.parent == b.parent
    &&& a.ext == b.ext
    &&& proper_prefix(a.stem, b.stem) || proper_prefix(b.stem, a.stem)
    &&& similar_size(entry.0, size)
}

/// The position of the best basis among the first `n` earlier files, or -1:
/// the closest in size, and of equally close ones the earliest.
pub open spec fn best_basis(
    entries: Seq<(u64, Seq<char>)>,
    rel: Seq<char>,
    size: u64,
    n: int,
) -> int
    decreases n,
{
    if n <= 0 {
        -1
    } else {
        let earlier = best_basis(entries, rel, size, n - 1);
        if eligible(entries[n - 1], rel, size) && (earlier < 0 || distance(
            entries[n - 1].0,
            size,
        ) < distance(entries[earlier].0, size)) {
            n - 1
        } else {
            earlier
        }
    }
}

/// Whether position `a` is at least as good a basis as position `b`.
spec fn no_worse(entries: Seq<(u64, Seq<char>)>, size: u64, a: int, b: int) -> bool {
    distance(entries[a].0, size) < distance(entries[b].0, size) || (distance(entries[a].0, size)
        == distance(entries[b].0, size) && a <= b)
}

/// The best basis is eligible, and no worse than any other eligible one.
proof fn lemma_best_basis(entries: Seq<(u64, Seq<char>)>, rel: Seq<char>, size: u64, n: int)
    requires
        0 <= n <= entries.len(),
    ensures
        -1 <= best_basis(entries, rel, size, n) < n || n == 0,
        best_basis(entries, rel, size, n) < 0 ==> forall|p: int|
            0 <= p < n ==> !eligible(#[trigger] entries[p], rel, size),
        best_basis(entries, rel, size, n) >= 0 ==> {
            let b = best_basis(entries, rel, size, n);
            &&& b < n
            &&& eligible(entries[b], rel, size)
            &&& forall|p: int|
                0 <= p < n && eligible(#[trigger] entries[p], rel, size) ==> no_worse(
                    entries,
                    size,
                    b,
                    p,
                )
        },
    decreases n,
{
    if n > 0 {
        lemma_best_basis(entries, rel, size, n - 1);
    }
}

/// The bytes that identify a directory, an extension and a stem.
spec fn key_bytes(parent: Seq<char>, ext: Option<Seq<char>>, stem: Seq<char>) -> Seq<Seq<u8>> {
    let e = match ext {
        Some(x) => seq![seq![1u8], vstd::utf8::encode_utf8(x)],
        None => seq![seq![0u8], Seq::<u8>::empty()],
    };
    seq![vstd::utf8::encode_utf8(parent), e[0], e[1], vstd::utf8::encode_utf8(stem)]
}

/// The hash of a directory, an extension and a stem.
closed spec fn key_hash(parent: Seq<char>, ext: Option<Seq<char>>, stem: Seq<char>) -> u64 {
    <DefaultHasher as vstd::std_specs::hash::DefaultHasherAdditionalSpecFns>::spec_finish(
        key_bytes(parent, ext, stem),
    )
}

/// The hash of a directory, an extension and a stem.
fn hash_key(parent: &str, ext: &Option<String>, stem: &str) -> (h: u64)
    ensures
        h == key_hash(parent@, text::opt_view(*ext), stem@),
{
    let mut h = DefaultHasher::new();
    h.write(parent.as_bytes());
    match ext {
        Some(e) => {
            let tag: [u8; 1] = [1];
            h.write(&tag);
            h.write(e.as_str().as_bytes());
            assert(tag@ =~= seq![1u8]);
        },
        None => {
            let tag: [u8; 1] = [0];
            let nothing: [u8; 0] = [];
            h.write(&tag);
            h.write(&nothing);
            assert(tag@ =~= seq![0u8]);
            assert(nothing@ =~= Seq::<u8>::empty());
        },
    }
    h.write(stem.as_bytes());
    proof {
        assert(h@ =~= key_bytes(parent@, text::opt_view(*ext), stem@));
    }
    h.finish()
}

/// The positions listed under a hash.
spec fn bucket(m: Map<u64, Vec<usize>>, h: u64) -> Seq<usize> {
    if m.dom().contains(h) {
        m[h]@
    } else {
        Seq::empty()
    }
}

/// List position `p` under a hash.
fn list_under(m: &mut HashMap<u64, Vec<usize>>, h: u64, p: usize)
    ensures
        forall|x: u64|
            #[trigger] bucket(final(m)@, x) == if x == h {
                bucket(old(m)@, x).push(p)
            } else {
                bucket(old(m)@, x)
            },
        final(m)@.dom() == old(m)@.dom().insert(h),
{
    let mut v = match m.remove(&h) {
        Some(v) => v,
        None => Vec::new(),
    };
    v.push(p);
    m.insert(h, v);
    assert(m@.dom() =~= old(m)@.dom().insert(h));
}

/// The files of a run that can serve as a basis, in the order they are sent.
pub struct BasisIndex {
    entries: Vec<StemEntry>,
    by_stem: HashMap<u64, Vec<usize>>,
    extends: HashMap<u64, Vec<usize>>,
}

impl View for BasisIndex {
    type V = Seq<(u64, Seq<char>)>;

    closed spec fn view(&self) -> Seq<(u64, Seq<char>)> {
        stem_entry_views(self.entries@)
    }
}

/// Whether position `p` is listed under its own stem.
spec fn indexed_by_stem(m: Map<u64, Vec<usize>>, e: (u64, Seq<char>), p: int) -> bool {
    let k = stem_key_of(e.1);
    bucket(m, key_hash(k.parent, k.ext, k.stem)).contains(p as usize)
}

/// Whether position `p` is listed under the first `i` characters of its stem.
spec fn indexed_by_prefix(m: Map<u64, Vec<usize>>, e: (u64, Seq<char>), p: int, i: int) -> bool {
    let k = stem_key_of(e.1);
    bucket(m, key_hash(k.parent, k.ext, k.stem.take(i))).contains(p as usize)
}

/// Whether every listed position is one of the first `n`.
spec fn positions_below(m: Map<u64, Vec<usize>>, n: int) -> bool {
    forall|h: u64, a: int|
        #![trigger bucket(m, h)[a]]
        0 <= a < bucket(m, h).len() ==> bucket(m, h)[a] < n
}

impl BasisIndex {
    /// Every file is listed under its stem and under every proper prefix of
    /// its stem, and nothing else is listed.
    pub closed spec fn well_formed(&self) -> bool {
        let ev = stem_entry_views(self.entries@);
        let n = ev.len() as int;
        &&& positions_below(self.by_stem@, n)
        &&& positions_below(self.extends@, n)
        &&& forall|p: int| 0 <= p < n ==> #[trigger] indexed_by_stem(self.by_stem@, ev[p], p)
        &&& forall|p: int, i: int|
            0 <= p < n && 0 < i < stem_key_of(ev[p].1).stem.len()
                ==> #[trigger] indexed_by_prefix(self.extends@, ev[p], p, i)
    }

    /// No file yet.
    pub fn new() -> (r: BasisIndex)
        ensures
            r.well_formed(),
            r@ == Seq::<(u64, Seq<char>)>::empty(),
    {
        let r = BasisIndex {
            entries: Vec::new(),
            by_stem: HashMap::new(),
            extends: HashMap::new(),
        };
        assert(r@ =~= Seq::<(u64, Seq<char>)>::empty());
        r
    }

    /// How many files there are.
    pub fn len(&self) -> (n: usize)
        ensures
            n == self@.len(),
    {
        self.entries.len()
    }

    /// Whether there is no file.
    pub fn is_empty(&self) -> (r: bool)
        ensures
            r == (self@.len() == 0),
    {
        self.entries.len() == 0
    }
}

/// The files that can serve as a basis once one more was offered.
pub open spec fn offered(
    known: Seq<(u64, Seq<char>)>,
    rel: Seq<char>,
    size: u64,
) -> Seq<(u64, Seq<char>)> {
    if size < CROSS_BASIS_MIN / 2 {
        known
    } else {
        known.push((size, rel))
    }
}

/// Register a file that later ones can use as a basis. A file below half the
/// minimum is too small for any of them and is left out.
pub fn register_basis_entry(index: &mut BasisIndex, rel: &str, size: u64)
    requires
        old(index).well_formed(),
    ensures
        final(index).well_formed(),
        final(index)@ == offered(old(index)@, rel@, size),
        final(index)@ == if size < CROSS_BASIS_MIN / 2 {
            old(index)@
        } else {
            old(index)@.push((size, rel@))
        },
{
    if size < CROSS_BASIS_MIN / 2 {
        return;
    }
    let ghost before = *index;
    let key = stem_key(rel);
    let at: usize = index.entries.len();
    index.entries.push(StemEntry { size, rel: text::copy_str(rel) });
    let h = hash_key(key.parent.as_str(), &key.ext, key.stem.as_str());
    list_under(&mut index.by_stem, h, at);
    let ghost ev = stem_entry_views(index.entries@);
    let ghost ev0 = stem_entry_views(before.entries@);
    assert(ev =~= ev0.push((size, rel@)));
    proof {
        assert forall|p: int| 0 <= p < ev.len() implies #[trigger] indexed_by_stem(
            index.by_stem@,
            ev[p],
            p,
        ) by {
            let k = stem_key_of(ev[p].1);
            let x = key_hash(k.parent, k.ext, k.stem);
            if p < at {
                assert(ev[p] == ev0[p]);
                assert(indexed_by_stem(before.by_stem@, ev0[p], p));
                let a = choose|a: int|
                    0 <= a < bucket(before.by_stem@, x).len() && bucket(before.by_stem@, x)[a]
                        == p as usize;
                assert(bucket(index.by_stem@, x)[a] == p as usize);
            } else {
                let b = bucket(index.by_stem@, x);
                assert(b[b.len() - 1] == at);
            }
        }
        assert(positions_below(index.by_stem@, ev.len() as int)) by {
            assert forall|x: u64, a: int|
                #![trigger bucket(index.by_stem@, x)[a]]
                0 <= a < bucket(index.by_stem@, x).len() implies bucket(index.by_stem@, x)[a]
                < ev.len() by {
                if a < bucket(before.by_stem@, x).len() {
                    assert(bucket(before.by_stem@, x)[a] < ev0.len());
                }
            }
        }
    }
    let chars = text::chars_of(key.stem.as_str());
    let mut i: usize = 1;
    while i < chars.len()
        invariant
            1 <= i,
            i <= chars.len() || i == 1,
            chars@ == key@.stem,
            key@ == stem_key_of(rel@),
            at == ev0.len(),
            ev == ev0.push((size, rel@)),
            ev == stem_entry_views(index.entries@),
            ev0 == stem_entry_views(before.entries@),
            before.well_formed(),
            positions_below(index.by_stem@, ev.len() as int),
            positions_below(index.extends@, ev.len() as int),
            forall|p: int| 0 <= p < ev.len() ==> #[trigger] indexed_by_stem(
                index.by_stem@,
                ev[p],
                p,
            ),
            forall|p: int, j: int|
                0 <= p < at && 0 < j < stem_key_of(ev[p].1).stem.len()
                    ==> #[trigger] indexed_by_prefix(index.extends@, ev[p], p, j),
            forall|j: int|
                0 < j < i && j < key@.stem.len() ==> #[trigger] indexed_by_prefix(
                    index.extends@,
                    ev[at as int],
                    at as int,
                    j,
                ),
        decreases chars.len() - i,
    {
        let prefix = text::string_of(&chars, 0, i);
        assert(prefix@ =~= key@.stem.take(i as int));
        let ph = hash_key(key.parent.as_str(), &key.ext, prefix.as_str());
        let ghost was = index.extends@;
        list_under(&mut index.extends, ph, at);
        proof {
            let now = index.extends@;
            assert forall|p: int, j: int|
                0 <= p < at && 0 < j < stem_key_of(ev[p].1).stem.len()
                    implies #[trigger] indexed_by_prefix(now, ev[p], p, j) by {
                assert(indexed_by_prefix(was, ev[p], p, j));
                lemma_listed_stays(was, now, ph, at, ev[p], p, j);
            }
            assert forall|j: int| 0 < j < i + 1 && j < key@.stem.len()
                implies #[trigger] indexed_by_prefix(now, ev[at as int], at as int, j) by {
                if j < i {
                    assert(indexed_by_prefix(was, ev[at as int], at as int, j));
                    lemma_listed_stays(was, now, ph, at, ev[at as int], at as int, j);
                } else {
                    let b = bucket(now, ph);
                    assert(b[b.len() - 1] == at);
                }
            }
            assert(positions_below(now, ev.len() as int)) by {
                assert forall|x: u64, a: int|
                    #![trigger bucket(now, x)[a]]
                    0 <= a < bucket(now, x).len() implies bucket(now, x)[a] < ev.len() by {
                    if a < bucket(was, x).len() {
                        assert(bucket(was, x)[a] < ev.len());
                    }
                }
            }
        }
        i += 1;
    }
}

proof fn lemma_listed_stays(
    was: Map<u64, Vec<usize>>,
    now: Map<u64, Vec<usize>>,
    h: u64,
    at: usize,
    e: (u64, Seq<char>),
    p: int,
    j: int,
)
    requires
        indexed_by_prefix(was, e, p, j),
        forall|x: u64|
            #[trigger] bucket(now, x) == if x == h {
                bucket(was, x).push(at)
            } else {
                bucket(was, x)
            },
    ensures
        indexed_by_prefix(now, e, p, j),
{
    let k = stem_key_of(e.1);
    let x = key_hash(k.parent, k.ext, k.stem.take(j));
    let a = choose|a: int|
        0 <= a < bucket(was, x).len() && bucket(was, x)[a] == p as usize;
    assert(bucket(now, x)[a] == p as usize);
}

/// Whether `a` is a non-empty proper prefix of `b`.
fn is_proper_prefix(a: &str, b: &str) -> (r: bool)
    ensures
        r == proper_prefix(a@, b@),
{
    let x = text::chars_of(a);
    let y = text::chars_of(b);
    if x.len() == 0 || x.len() >= y.len() {
        return false;
    }
    let r = text::begins_with(b, a);
    proof {
        assert(b@.subrange(0, a@.len() as int) =~= b@.take(a@.len() as int));
    }
    r
}

/// How far apart two sizes are.
fn size_distance(a: u64, b: u64) -> (d: u64)
    ensures
        d == distance(a, b),
{
    if a >= b {
        a - b
    } else {
        b - a
    }
}

/// Whether two sizes are within a factor of two of each other.
fn sizes_similar(a: u64, b: u64) -> (r: bool)
    ensures
        r == similar_size(a, b),
{
    let (lo, hi) = if a <= b {
        (a, b)
    } else {
        (b, a)
    };
    hi - lo <= lo
}

/// Whether the current choice is right for the positions looked at.
spec fn settled(
    entries: Seq<(u64, Seq<char>)>,
    rel: Seq<char>,
    size: u64,
    best: Option<usize>,
    seen: Set<int>,
) -> bool {
    match best {
        None => forall|p: int|
            #![trigger seen.contains(p)]
            seen.contains(p) ==> !eligible(entries[p], rel, size),
        Some(c) => {
            &&& 0 <= c < entries.len()
            &&& eligible(entries[c as int], rel, size)
            &&& forall|p: int|
                #![trigger seen.contains(p)]
                seen.contains(p) && eligible(entries[p], rel, size) ==> no_worse(
                    entries,
                    size,
                    c as int,
                    p,
                )
        },
    }
}

impl BasisIndex {
    /// The better of the current choice and position `p`.
    fn consider(
        &self,
        key: &StemKey,
        rel: &str,
        size: u64,
        best: Option<usize>,
        p: usize,
        Ghost(seen): Ghost<Set<int>>,
    ) -> (r: Option<usize>)
        requires
            key@ == stem_key_of(rel@),
            p < self@.len(),
            settled(self@, rel@, size, best, seen),
        ensures
            settled(self@, rel@, size, r, seen.insert(p as int)),
    {
        let e = &self.entries[p];
        assert(self@[p as int] == (e.size, e.rel@));
        let other = stem_key(e.rel.as_str());
        let fits = text::same(other.parent.as_str(), key.parent.as_str()) && text::same_opt(
            &other.ext,
            &key.ext,
        ) && (is_proper_prefix(other.stem.as_str(), key.stem.as_str()) || is_proper_prefix(
            key.stem.as_str(),
            other.stem.as_str(),
        )) && sizes_similar(e.size, size);
        assert(fits == eligible(self@[p as int], rel@, size));
        if !fits {
            return best;
        }
        match best {
            None => Some(p),
            Some(c) => {
                let have: u64 = self.entries[c].size;
                assert(self@[c as int].0 == have);
                let dc = size_distance(have, size);
                let dp = size_distance(e.size, size);
                if dc < dp || (dc == dp && c <= p) {
                    Some(c)
                } else {
                    Some(p)
                }
            },
        }
    }

    /// The best of the current choice and a list of positions.
    fn consider_all(
        &self,
        key: &StemKey,
        rel: &str,
        size: u64,
        best: Option<usize>,
        list: &Vec<usize>,
        Ghost(seen): Ghost<Set<int>>,
    ) -> (r: Option<usize>)
        requires
            key@ == stem_key_of(rel@),
            forall|a: int| 0 <= a < list.len() ==> #[trigger] list@[a] < self@.len(),
            settled(self@, rel@, size, best, seen),
        ensures
            settled(
                self@,
                rel@,
                size,
                r,
                seen.union(Set::new(|p: int| 0 <= p <= usize::MAX && list@.contains(p as usize))),
            ),
    {
        let ghost mut looked = seen;
        let mut cur = best;
        let mut i: usize = 0;
        while i < list.len()
            invariant
                i <= list.len(),
                key@ == stem_key_of(rel@),
                forall|a: int| 0 <= a < list.len() ==> #[trigger] list@[a] < self@.len(),
                settled(self@, rel@, size, cur, looked),
                forall|p: int|
                    #![trigger looked.contains(p)]
                    seen.contains(p) ==> looked.contains(p),
                forall|a: int| 0 <= a < i ==> looked.contains(#[trigger] list@[a] as int),
            decreases list.len() - i,
        {
            let p: usize = list[i];
            cur = self.consider(key, rel, size, cur, p, Ghost(looked));
            proof {
                looked = looked.insert(p as int);
            }
            i += 1;
        }
        proof {
            let all = seen.union(
                Set::new(|p: int| 0 <= p <= usize::MAX && list@.contains(p as usize)),
            );
            assert forall|p: int| #![trigger all.contains(p)] all.contains(p) implies looked.contains(
                p,
            ) by {
                if !seen.contains(p) {
                    let a = choose|a: int| 0 <= a < list@.len() && list@[a] == p as usize;
                    assert(looked.contains(list@[a] as int));
                }
            }
            lemma_settled_less(self@, rel@, size, cur, looked, all);
        }
        cur
    }
}

proof fn lemma_settled_less(
    entries: Seq<(u64, Seq<char>)>,
    rel: Seq<char>,
    size: u64,
    best: Option<usize>,
    more: Set<int>,
    less: Set<int>,
)
    requires
        settled(entries, rel, size, best, more),
        forall|p: int| #![trigger less.contains(p)] less.contains(p) ==> more.contains(p),
    ensures
        settled(entries, rel, size, best, less),
{
}

/// Find the best basis for the file `rel` of size `size` among the files
/// registered earlier, with its size.
pub fn indexed_candidate(index: &BasisIndex, rel: &str, size: u64) -> (r: Option<(String, u64)>)
    requires
        index.well_formed(),
    ensures
        ({
            let b = best_basis(index@, rel@, size, index@.len() as int);
            match r {
                Some((ref_rel, ref_size)) => b >= 0 && ref_rel@ == index@[b].1 && ref_size
                    == index@[b].0,
                None => b < 0,
            }
        }),
{
    let ghost ev = index@;
    let count: usize = index.len();
    let key = stem_key(rel);
    let chars = text::chars_of(key.stem.as_str());
    let ghost mut seen = Set::<int>::empty();
    let mut best: Option<usize> = None;
    // Stems that are proper prefixes of this one.
    let mut i: usize = 1;
    while i < chars.len()
        invariant
            1 <= i,
            i <= chars.len() || i == 1,
            chars@ == key@.stem,
            key@ == stem_key_of(rel@),
            ev == index@,
            ev.len() == count,
            index.well_formed(),
            settled(ev, rel@, size, best, seen),
            forall|p: int|
                #![trigger ev[p]]
                0 <= p < ev.len() && eligible(ev[p], rel@, size) && 0 < stem_key_of(
                    ev[p].1,
                ).stem.len() < i && proper_prefix(stem_key_of(ev[p].1).stem, key@.stem)
                    ==> seen.contains(p),
        decreases chars.len() - i,
    {
        let prefix = text::string_of(&chars, 0, i);
        assert(prefix@ =~= key@.stem.take(i as int));
        let h = hash_key(key.parent.as_str(), &key.ext, prefix.as_str());
        let ghost was = seen;
        match index.by_stem.get(&h) {
            Some(list) => {
                assert(bucket(index.by_stem@, h) == list@);
                proof {
                    assert forall|a: int| 0 <= a < list.len() implies #[trigger] list@[a]
                        < ev.len() by {
                        assert(bucket(index.by_stem@, h)[a] < ev.len());
                    }
                }
                best = index.consider_all(&key, rel, size, best, list, Ghost(seen));
                proof {
                    seen = seen.union(
                        Set::new(|p: int| 0 <= p <= usize::MAX && list@.contains(p as usize)),
                    );
                }
            },
            None => {
                assert(bucket(index.by_stem@, h) =~= Seq::empty());
            },
        }
        proof {
            assert forall|p: int|
                #![trigger ev[p]]
                0 <= p < ev.len() && eligible(ev[p], rel@, size) && 0 < stem_key_of(
                    ev[p].1,
                ).stem.len() < i + 1 && proper_prefix(
                    stem_key_of(ev[p].1).stem,
                    key@.stem,
                ) implies seen.contains(p) by {
                let k = stem_key_of(ev[p].1);
                if k.stem.len() == i {
                    assert(k.stem == prefix@);
                    assert(indexed_by_stem(index.by_stem@, ev[p], p));
                    assert(bucket(index.by_stem@, h).contains(p as usize));
                } else {
                    assert(was.contains(p));
                }
            }
        }
        i += 1;
    }
    // Stems that this one is a proper prefix of.
    let h = hash_key(key.parent.as_str(), &key.ext, key.stem.as_str());
    let ghost was = seen;
    match index.extends.get(&h) {
        Some(list) => {
            assert(bucket(index.extends@, h) == list@);
            proof {
                assert forall|a: int| 0 <= a < list.len() implies #[trigger] list@[a]
                    < ev.len() by {
                    assert(bucket(index.extends@, h)[a] < ev.len());
                }
            }
            best = index.consider_all(&key, rel, size, best, list, Ghost(seen));
            proof {
                seen = seen.union(
                    Set::new(|p: int| 0 <= p <= usize::MAX && list@.contains(p as usize)),
                );
            }
        },
        None => {
            assert(bucket(index.extends@, h) =~= Seq::empty());
        },
    }
    proof {
        assert forall|p: int| 0 <= p < ev.len() && eligible(
            #[trigger] ev[p],
            rel@,
            size,
        ) implies seen.contains(p) by {
            let k = stem_key_of(ev[p].1);
            if proper_prefix(k.stem, key@.stem) {
                assert(was.contains(p));
            } else {
                assert(key@.stem =~= k.stem.take(key@.stem.len() as int));
                assert(indexed_by_prefix(index.extends@, ev[p], p, key@.stem.len() as int));
                assert(bucket(index.extends@, h).contains(p as usize));
            }
        }
        lemma_best_basis(ev, rel@, size, ev.len() as int);
        let b = best_basis(ev, rel@, size, ev.len() as int);
        match best {
            None => {
                if b >= 0 {
                    assert(eligible(ev[b], rel@, size));
                    assert(seen.contains(b));
                }
            },
            Some(c) => {
                assert(eligible(ev[c as int], rel@, size));
                assert(b >= 0);
                assert(eligible(ev[b], rel@, size));
                assert(seen.contains(b));
                assert(no_worse(ev, size, c as int, b));
                assert(no_worse(ev, size, b, c as int));
                assert(b == c);
            },
        }
    }
    match best {
        None => None,
        Some(c) => {
            let e = &index.entries[c];
            assert(ev[c as int] == (e.size, e.rel@));
            Some((text::copy_str(e.rel.as_str()), e.size))
        },
    }
}

/// A chosen basis lies in the same directory, has the same extension and a
/// similar size, and none of the eligible ones is closer in size.
pub proof fn law_basis_is_a_close_sibling(
    entries: Seq<(u64, Seq<char>)>,
    rel: Seq<char>,
    size: u64,
    p: int,
)
    requires
        best_basis(entries, rel, size, entries.len() as int) >= 0,
        0 <= p < entries.len(),
    ensures
        ({
            let b = entries[best_basis(entries, rel, size, entries.len() as int)];
            &&& stem_key_of(b.1).parent == stem_key_of(rel).parent
            &&& stem_key_of(b.1).ext == stem_key_of(rel).ext
            &&& similar_size(b.0, size)
            &&& eligible(entries[p], rel, size) ==> distance(b.0, size) <= distance(
                entries[p].0,
                size,
            )
        }),
{
    lemma_best_basis(entries, rel, size, entries.len() as int);
}

/// A file is a candidate exactly when it is in the same directory, has the same
/// extension, one stem begins the other without being it, and neither is more
/// than twice as large as the other.
pub proof fn law_candidates_are_siblings_of_like_size(
    a_size: u64,
    a: Seq<char>,
    rel: Seq<char>,
    size: u64,
)
    ensures
        ({
            let x = stem_key_of(a);
            let y = stem_key_of(rel);
            let kin = x.parent == y.parent && x.ext == y.ext;
            let begins = x.stem.len() > 0 && x.stem.len() < y.stem.len() && y.stem.take(
                x.stem.len() as int,
            ) == x.stem;
            let begun = y.stem.len() > 0 && y.stem.len() < x.stem.len() && x.stem.take(
                y.stem.len() as int,
            ) == y.stem;
            &&& eligible((a_size, a), rel, size) <==> kin && (begins || begun) && a_size <= 2 * size
                && size <= 2 * a_size
        }),
{
}

/// A basis is found exactly when there is a candidate; the one that is found is
/// closest in size, and of equally close ones the earliest.
pub proof fn law_the_closest_candidate_is_the_basis(
    entries: Seq<(u64, Seq<char>)>,
    rel: Seq<char>,
    size: u64,
    p: int,
)
    requires
        0 <= p < entries.len(),
        eligible(entries[p], rel, size),
    ensures
        ({
            let b = best_basis(entries, rel, size, entries.len() as int);
            let (bs, ps) = (entries[b].0 as int, entries[p].0 as int);
            let (db, dp) = (
                if bs >= size {
                    bs - size
                } else {
                    size - bs
                },
                if ps >= size {
                    ps - size
                } else {
                    size - ps
                },
            );
            &&& 0 <= b < entries.len()
            &&& eligible(entries[b], rel, size)
            &&& db < dp || (db == dp && b <= p)
        }),
{
    lemma_best_basis(entries, rel, size, entries.len() as int);
}

/// A basis that is found is one of the files looked at.
pub proof fn lemma_best_below(entries: Seq<(u64, Seq<char>)>, rel: Seq<char>, size: u64, n: int)
    requires
        0 <= n <= entries.len(),
    ensures
        best_basis(entries, rel, size, n) < n || n == 0,
        n == 0 ==> best_basis(entries, rel, size, n) < 0,
{
    lemma_best_basis(entries, rel, size, n);
}

/// A file of half a mebibyte or more is remembered as a basis for later ones,
/// and a smaller one is not; what was known stays.
pub proof fn law_large_files_are_remembered(
    known: Seq<(u64, Seq<char>)>,
    rel: Seq<char>,
    size: u64,
)
    ensures
        size >= 524_288 ==> offered(known, rel, size).len() == known.len() + 1 && offered(
            known,
            rel,
            size,
        ).last() == (size, rel) && offered(known, rel, size).drop_last() == known,
        size < 524_288 ==> offered(known, rel, size) == known,
{
    if size >= 524_288 {
        assert(known.push((size, rel)).drop_last() =~= known);
    }
}

/// Files are kin by their directory, the extension of their name and what
/// stands before it.
pub proof fn law_kin_share_directory_and_extension(
    dir: Seq<char>,
    rest: Seq<char>,
    ext: Seq<char>,
)
    requires
        rest.len() > 0,
        !rest.contains('/'),
        ext.len() > 0,
        !ext.contains('/'),
        !ext.contains('.'),
    ensures
        stem_key_of(path::joined(dir, rest + seq!['.'] + ext)).ext == Some(ext),
        stem_key_of(path::joined(dir, rest + seq!['.'] + ext)).stem == rest,
        path::comps(stem_key_of(path::joined(dir, rest + seq!['.'] + ext)).parent) == path::comps(
            dir,
        ),
        stem_key_of(path::joined(dir, ext)).ext is None,
        stem_key_of(path::joined(dir, ext)).stem == ext,
{
    path::lemma_dotted(rest, ext);
    assert(ext != seq!['.'] && ext != seq!['.', '.']) by {
        assert(ext.contains(ext[0]));
    }
    path::law_names_extend_a_path(dir, rest + seq!['.'] + ext);
    path::law_names_extend_a_path(dir, ext);
    path::law_the_last_dot_begins_the_extension(rest, ext);
}

} // verus!
