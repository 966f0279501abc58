//! Sorting by text, and finding a text in a list.
//!
//! A list of keys is sorted by computing an order: the positions of the list,
//! arranged so that the keys ascend and equal keys keep their places.

use vstd::prelude::*;

use crate::text;

verus! {

/// The texts of a sequence of keys.
pub open spec fn key_views(keys: Seq<Vec<char>>) -> Seq<Seq<char>> {
    keys.map_values(|k: Vec<char>| k@)
}

/// Whether position `i` sorts before position `j`: by key, then by position.
pub open spec fn sorts_before(keys: Seq<Seq<char>>, i: int, j: int) -> bool {
    text::lex_lt(keys[i], keys[j]) || (keys[i] == keys[j] && i < j)
}

/// Whether position `i` occurs in `order`.
pub open spec fn placed(order: Seq<usize>, i: int) -> bool {
    exists|a: int| 0 <= a < order.len() && #[trigger] order[a] == i
}

/// Whether `order` holds each position of `lo..hi` once, in sorted order.
pub open spec fn orders(keys: Seq<Seq<char>>, order: Seq<usize>, lo: int, hi: int) -> bool {
    &&& order.len() == hi - lo
    &&& forall|a: int| 0 <= a < order.len() ==> lo <= #[trigger] order[a] < hi
    &&& forall|a: int, b: int|
        0 <= a < b < order.len() ==> sorts_before(
            keys,
            #[trigger] order[a] as int,
            #[trigger] order[b] as int,
        )
    &&& forall|i: int| lo <= i < hi ==> #[trigger] placed(order, i)
}

/// The position of the last key equal to `key`, or -1.
pub open spec fn last_index(keys: Seq<Seq<char>>, key: Seq<char>) -> int
    decreases keys.len(),
{
    if keys.len() == 0 {
        -1
    } else if keys.last() == key {
        keys.len() - 1
    } else {
        last_index(keys.drop_last(), key)
    }
}

/// What `last_index` finds.
pub proof fn lemma_last_index(keys: Seq<Seq<char>>, key: Seq<char>)
    ensures
        -1 <= last_index(keys, key) < keys.len(),
        last_index(keys, key) >= 0 ==> keys[last_index(keys, key)] == key,
        forall|i: int| last_index(keys, key) < i < keys.len() ==> keys[i] != key,
    decreases keys.len(),
{
    if keys.len() > 0 && keys.last() != key {
        lemma_last_index(keys.drop_last(), key);
        assert forall|i: int| last_index(keys, key) < i < keys.len() implies keys[i] != key by {
            if i < keys.len() - 1 {
                assert(keys[i] == keys.drop_last()[i]);
            }
        }
    }
}

/// A position that holds the key, with no such position after it, is the last
/// one.
pub proof fn lemma_last_index_is(keys: Seq<Seq<char>>, key: Seq<char>, k: int)
    requires
        0 <= k < keys.len(),
        keys[k] == key,
        forall|i: int| k < i < keys.len() ==> keys[i] != key,
    ensures
        last_index(keys, key) == k,
{
    lemma_last_index(keys, key);
}

/// Sorting is transitive.
pub proof fn lemma_sorts_trans(keys: Seq<Seq<char>>, i: int, j: int, k: int)
    requires
        sorts_before(keys, i, j),
        sorts_before(keys, j, k),
    ensures
        sorts_before(keys, i, k),
{
    if text::lex_lt(keys[i], keys[j]) && text::lex_lt(keys[j], keys[k]) {
        text::lemma_lex_trans(keys[i], keys[j], keys[k]);
    }
}

/// The order of `keys[lo..hi]`, by merge sort.
fn sort_range(keys: &Vec<Vec<char>>, lo: usize, hi: usize) -> (order: Vec<usize>)
    requires
        lo <= hi <= keys.len(),
    ensures
        orders(key_views(keys@), order@, lo as int, hi as int),
    decreases hi - lo,
{
    if hi - lo == 0 {
        return Vec::new();
    }
    if hi - lo == 1 {
        let mut one: Vec<usize> = Vec::new();
        one.push(lo);
        assert(one@[0] == lo);
        return one;
    }
    let mid: usize = lo + (hi - lo) / 2;
    let left = sort_range(keys, lo, mid);
    let right = sort_range(keys, mid, hi);
    merge(keys, &left, &right, Ghost(lo as int), Ghost(mid as int), Ghost(hi as int))
}

/// Merge two sorted orders of adjacent ranges.
fn merge(
    keys: &Vec<Vec<char>>,
    left: &Vec<usize>,
    right: &Vec<usize>,
    Ghost(lo): Ghost<int>,
    Ghost(mid): Ghost<int>,
    Ghost(hi): Ghost<int>,
) -> (out: Vec<usize>)
    requires
        0 <= lo <= mid <= hi <= keys.len(),
        orders(key_views(keys@), left@, lo, mid),
        orders(key_views(keys@), right@, mid, hi),
    ensures
        orders(key_views(keys@), out@, lo, hi),
{
    let ghost kv = key_views(keys@);
    let mut out: Vec<usize> = Vec::new();
    let mut a: usize = 0;
    let mut b: usize = 0;
    while a < left.len() || b < right.len()
        invariant
            a <= left.len(),
            b <= right.len(),
            out.len() == a + b,
            kv == key_views(keys@),
            0 <= lo <= mid <= hi <= keys.len(),
            orders(kv, left@, lo, mid),
            orders(kv, right@, mid, hi),
            forall|x: int| 0 <= x < out.len() ==> lo <= #[trigger] out@[x] < hi,
            forall|x: int, y: int|
                0 <= x < y < out.len() ==> sorts_before(
                    kv,
                    #[trigger] out@[x] as int,
                    #[trigger] out@[y] as int,
                ),
            forall|x: int, y: int|
                0 <= x < out.len() && a <= y < left.len() ==> sorts_before(
                    kv,
                    #[trigger] out@[x] as int,
                    #[trigger] left@[y] as int,
                ),
            forall|x: int, y: int|
                0 <= x < out.len() && b <= y < right.len() ==> sorts_before(
                    kv,
                    #[trigger] out@[x] as int,
                    #[trigger] right@[y] as int,
                ),
            forall|y: int|
                0 <= y < a ==> exists|x: int| 0 <= x < out.len() && out@[x] == #[trigger] left@[y],
            forall|y: int|
                0 <= y < b ==> exists|x: int| 0 <= x < out.len() && out@[x] == #[trigger] right@[y],
        decreases left.len() - a + right.len() - b,
    {
        let take_left = if a == left.len() {
            false
        } else if b == right.len() {
            true
        } else {
            let i = left[a];
            let j = right[b];
            !text::before_chars(&keys[j], &keys[i])
        };
        let ghost old_out = out@;
        if take_left {
            let i = left[a];
            proof {
                if b < right.len() {
                    text::lemma_lex_total(kv[i as int], kv[right@[b as int] as int]);
                    assert(sorts_before(kv, i as int, right@[b as int] as int));
                    assert forall|y: int| b <= y < right.len() implies sorts_before(
                        kv,
                        i as int,
                        #[trigger] right@[y] as int,
                    ) by {
                        if y > b {
                            lemma_sorts_trans(
                                kv,
                                i as int,
                                right@[b as int] as int,
                                right@[y] as int,
                            );
                        }
                    }
                }
            }
            out.push(i);
            a += 1;
        } else {
            let j = right[b];
            proof {
                if a < left.len() {
                    assert(sorts_before(kv, j as int, left@[a as int] as int));
                    assert forall|y: int| a <= y < left.len() implies sorts_before(
                        kv,
                        j as int,
                        #[trigger] left@[y] as int,
                    ) by {
                        if y > a {
                            lemma_sorts_trans(
                                kv,
                                j as int,
                                left@[a as int] as int,
                                left@[y] as int,
                            );
                        }
                    }
                }
            }
            out.push(j);
            b += 1;
        }
        proof {
            assert(forall|x: int| 0 <= x < old_out.len() ==> out@[x] == old_out[x]);
            assert forall|y: int| 0 <= y < a implies exists|x: int|
                0 <= x < out.len() && out@[x] == #[trigger] left@[y] by {
                if take_left && y == a - 1 {
                    assert(out@[out.len() - 1] == left@[y]);
                } else {
                    let x = choose|x: int| 0 <= x < old_out.len() && old_out[x] == left@[y];
                    assert(out@[x] == left@[y]);
                }
            }
            assert forall|y: int| 0 <= y < b implies exists|x: int|
                0 <= x < out.len() && out@[x] == #[trigger] right@[y] by {
                if !take_left && y == b - 1 {
                    assert(out@[out.len() - 1] == right@[y]);
                } else {
                    let x = choose|x: int| 0 <= x < old_out.len() && old_out[x] == right@[y];
                    assert(out@[x] == right@[y]);
                }
            }
        }
    }
    proof {
        assert forall|i: int| lo <= i < hi implies #[trigger] placed(out@, i) by {
            if i < mid {
                assert(placed(left@, i));
                let y = choose|y: int| 0 <= y < left.len() && #[trigger] left@[y] == i;
                let x = choose|x: int| 0 <= x < out.len() && out@[x] == left@[y];
                assert(out@[x] == i);
            } else {
                assert(placed(right@, i));
                let y = choose|y: int| 0 <= y < right.len() && #[trigger] right@[y] == i;
                let x = choose|x: int| 0 <= x < out.len() && out@[x] == right@[y];
                assert(out@[x] == i);
            }
        }
    }
    out
}

/// The positions of `keys`, arranged so that the keys ascend and equal keys
/// keep their places.
pub fn sort_order(keys: &Vec<Vec<char>>) -> (order: Vec<usize>)
    ensures
        orders(key_views(keys@), order@, 0, keys.len() as int),
{
    sort_range(keys, 0, keys.len())
}

/// A list of texts that can be searched by text.
pub struct KeyIndex {
    keys: Vec<Vec<char>>,
    order: Vec<usize>,
}

impl View for KeyIndex {
    type V = Seq<Seq<char>>;

    closed spec fn view(&self) -> Seq<Seq<char>> {
        key_views(self.keys@)
    }
}

impl KeyIndex {
    /// The order is the sorted order of the keys.
    pub closed spec fn well_formed(&self) -> bool {
        orders(key_views(self.keys@), self.order@, 0, self.keys.len() as int)
    }

    /// Index a list of texts.
    pub fn new(keys: Vec<Vec<char>>) -> (r: KeyIndex)
        ensures
            r.well_formed(),
            r@ == key_views(keys@),
    {
        let order = sort_order(&keys);
        KeyIndex { keys, order }
    }

    /// The position of the last key equal to `key`.
    pub fn find_last(&self, key: &Vec<char>) -> (r: Option<usize>)
        requires
            self.well_formed(),
        ensures
            match r {
                Some(i) => i == last_index(self@, key@),
                None => last_index(self@, key@) == -1,
            },
            r is Some ==> r->0 < self@.len(),
    {
        let ghost kv = key_views(self.keys@);
        // The first place in the order whose key comes after `key`.
        let mut lo: usize = 0;
        let mut hi: usize = self.order.len();
        while lo < hi
            invariant
                lo <= hi <= self.order.len(),
                kv == key_views(self.keys@),
                orders(kv, self.order@, 0, self.keys.len() as int),
                forall|a: int|
                    0 <= a < lo ==> !text::lex_lt(key@, kv[#[trigger] self.order@[a] as int]),
                forall|a: int|
                    hi <= a < self.order.len() ==> text::lex_lt(
                        key@,
                        kv[#[trigger] self.order@[a] as int],
                    ),
            decreases hi - lo,
        {
            let mid: usize = lo + (hi - lo) / 2;
            let at: usize = self.order[mid];
            if text::before_chars(key, &self.keys[at]) {
                proof {
                    assert forall|a: int| mid <= a < self.order.len() implies text::lex_lt(
                        key@,
                        kv[#[trigger] self.order@[a] as int],
                    ) by {
                        if a > mid {
                            assert(sorts_before(kv, at as int, self.order@[a] as int));
                            if text::lex_lt(kv[at as int], kv[self.order@[a] as int]) {
                                text::lemma_lex_trans(
                                    key@,
                                    kv[at as int],
                                    kv[self.order@[a] as int],
                                );
                            }
                        }
                    }
                }
                hi = mid;
            } else {
                proof {
                    assert forall|a: int| 0 <= a <= mid implies !text::lex_lt(
                        key@,
                        kv[#[trigger] self.order@[a] as int],
                    ) by {
                        if a < mid {
                            assert(sorts_before(kv, self.order@[a] as int, at as int));
                            if text::lex_lt(key@, kv[self.order@[a] as int]) && text::lex_lt(
                                kv[self.order@[a] as int],
                                kv[at as int],
                            ) {
                                text::lemma_lex_trans(
                                    key@,
                                    kv[self.order@[a] as int],
                                    kv[at as int],
                                );
                            }
                        }
                    }
                }
                lo = mid + 1;
            }
        }
        proof {
            lemma_last_index(kv, key@);
            text::lemma_lex_irrefl(key@);
        }
        if lo == 0 {
            proof {
                let i = last_index(kv, key@);
                if i >= 0 {
                    assert(placed(self.order@, i));
                    let a = choose|a: int| 0 <= a < self.order.len() && #[trigger] self.order@[a]
                        == i;
                    assert(text::lex_lt(key@, kv[self.order@[a] as int]));
                }
            }
            return None;
        }
        let at: usize = self.order[lo - 1];
        if text::same_chars(&self.keys[at], key) {
            proof {
                assert forall|i: int| at < i < kv.len() implies kv[i] != key@ by {
                    assert(placed(self.order@, i));
                    let a = choose|a: int| 0 <= a < self.order.len() && #[trigger] self.order@[a]
                        == i;
                    if a < lo - 1 {
                        assert(sorts_before(kv, self.order@[a] as int, at as int));
                    } else if a > lo - 1 {
                        assert(text::lex_lt(key@, kv[self.order@[a] as int]));
                    }
                }
                lemma_last_index_is(kv, key@, at as int);
            }
            Some(at)
        } else {
            proof {
                let i = last_index(kv, key@);
                if i >= 0 {
                    assert(placed(self.order@, i));
                    let a = choose|a: int| 0 <= a < self.order.len() && #[trigger] self.order@[a]
                        == i;
                    if a < lo - 1 {
                        assert(sorts_before(kv, self.order@[a] as int, at as int));
                        assert(!text::lex_lt(key@, kv[self.order@[lo - 1] as int]));
                        text::lemma_lex_total(kv[at as int], key@);
                    } else if a > lo - 1 {
                        assert(text::lex_lt(key@, kv[self.order@[a] as int]));
                    }
                }
            }
            None
        }
    }
}

/// Positions are ordered by their keys, and equal keys keep their places: of two
/// positions exactly one comes first.
pub proof fn law_positions_are_ordered(keys: Seq<Seq<char>>, i: int, j: int)
    ensures
        text::lex_lt(keys[i], keys[j]) ==> sorts_before(keys, i, j) && !sorts_before(keys, j, i),
        keys[i] == keys[j] ==> (sorts_before(keys, i, j) <==> i < j),
        i != j ==> sorts_before(keys, i, j) != sorts_before(keys, j, i),
        !sorts_before(keys, i, i),
{
    text::lemma_lex_irrefl(keys[i]);
    text::lemma_lex_total(keys[i], keys[j]);
    if text::lex_lt(keys[i], keys[j]) && text::lex_lt(keys[j], keys[i]) {
        text::lemma_lex_trans(keys[i], keys[j], keys[i]);
    }
}

/// An order holds every position once, with ascending keys, and equal keys in
/// the order of their positions.
pub proof fn law_orders_hold_every_position_once(
    keys: Seq<Seq<char>>,
    order: Seq<usize>,
    lo: int,
    hi: int,
    a: int,
    b: int,
    i: int,
)
    requires
        orders(keys, order, lo, hi),
        0 <= a < b < order.len(),
        lo <= i < hi,
    ensures
        order.len() == hi - lo,
        lo <= order[a] < hi,
        order[a] != order[b],
        !text::lex_lt(keys[order[b] as int], keys[order[a] as int]),
        keys[order[a] as int] == keys[order[b] as int] ==> order[a] < order[b],
        exists|k: int| 0 <= k < order.len() && #[trigger] order[k] == i,
{
    let x = order[a] as int;
    let y = order[b] as int;
    assert(sorts_before(keys, x, y));
    law_positions_are_ordered(keys, x, y);
    text::lemma_lex_irrefl(keys[x]);
    assert(placed(order, i));
}

/// The position that a search finds is the last one that holds the key, and
/// there is one wherever the key occurs.
pub proof fn law_searches_find_the_last_key(keys: Seq<Seq<char>>, key: Seq<char>, i: int)
    ensures
        last_index(keys, key) == -1 <==> !keys.contains(key),
        keys.contains(key) ==> 0 <= last_index(keys, key) < keys.len() && keys[last_index(
            keys,
            key,
        )] == key,
        last_index(keys, key) < i < keys.len() ==> keys[i] != key,
{
    lemma_last_index(keys, key);
    if keys.contains(key) {
        let k = choose|k: int| 0 <= k < keys.len() && keys[k] == key;
        assert(k <= last_index(keys, key));
    }
}

} // verus!
