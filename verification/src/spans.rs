//! Cutting a range into consecutive spans.

use vstd::prelude::*;

verus! {

/// `n / d`, rounded up.
pub open spec fn ceil_div(n: int, d: int) -> int {
    if n % d == 0 {
        n / d
    } else {
        n / d + 1
    }
}

/// `n / d`, rounded up.
pub fn div_up(n: usize, d: usize) -> (r: usize)
    requires
        d > 0,
    ensures
        r == ceil_div(n as int, d as int),
        n > 0 ==> r >= 1,
        n == 0 ==> r == 0,
{
    let q: usize = n / d;
    proof {
        assert(n == d * (n as int / d as int) + n as int % d as int) by (nonlinear_arith)
            requires
                d > 0,
        ;
        assert(n as int / d as int <= n) by (nonlinear_arith)
            requires
                d > 0,
        ;
        if n > 0 && n as int / d as int == 0 {
            assert(d * 0 == 0);
        }
        if n % d != 0 && q == n {
            assert(d == 1 || n == 0) by (nonlinear_arith)
                requires
                    d > 0,
                    n == d * (n as int / d as int) + n as int % d as int,
                    n as int / d as int == n,
                    n as int % d as int >= 0,
            ;
            assert(n % d == 0) by (nonlinear_arith)
                requires
                    d == 1 || n == 0,
                    d > 0,
            ;
        }
    }
    if n % d == 0 {
        q
    } else {
        q + 1
    }
}

/// Whether `spans` cuts `0..n` into consecutive spans of `size`, the last one
/// possibly shorter.
pub open spec fn cuts(spans: Seq<(usize, usize)>, n: int, size: int) -> bool {
    &&& spans.len() == 0 <==> n == 0
    &&& spans.len() > 0 ==> spans[0].0 == 0 && spans.last().1 == n
    &&& forall|i: int| 0 <= i < spans.len() ==> (#[trigger] spans[i]).0 < spans[i].1 <= n
    &&& forall|i: int|
        0 <= i < spans.len() - 1 ==> (#[trigger] spans[i]).1 - spans[i].0 == size
    &&& forall|i: int| 0 <= i < spans.len() ==> (#[trigger] spans[i]).1 - spans[i].0 <= size
    &&& forall|i: int, j: int|
        0 <= i && j == i + 1 && j < spans.len() ==> (#[trigger] spans[i]).1 == (
        #[trigger] spans[j]).0
}

/// Cut `0..n` into consecutive spans of `size`.
pub fn cut(n: usize, size: usize) -> (spans: Vec<(usize, usize)>)
    requires
        size > 0,
    ensures
        cuts(spans@, n as int, size as int),
{
    let mut spans: Vec<(usize, usize)> = Vec::new();
    let mut at: usize = 0;
    while at < n
        invariant
            at <= n,
            size > 0,
            spans@.len() == 0 <==> at == 0,
            spans@.len() > 0 ==> spans@[0].0 == 0 && spans@.last().1 == at,
            forall|i: int| 0 <= i < spans@.len() ==> (#[trigger] spans@[i]).0 < spans@[i].1 <= n,
            forall|i: int|
                0 <= i < spans@.len() && at < n ==> (#[trigger] spans@[i]).1 - spans@[i].0 == size,
            forall|i: int|
                0 <= i < spans@.len() - 1 ==> (#[trigger] spans@[i]).1 - spans@[i].0 == size,
            forall|i: int|
                0 <= i < spans@.len() ==> (#[trigger] spans@[i]).1 - spans@[i].0 <= size,
            forall|i: int, j: int|
                0 <= i && j == i + 1 && j < spans@.len() ==> (#[trigger] spans@[i]).1 == (
                #[trigger] spans@[j]).0,
        decreases n - at,
    {
        let end: usize = if n - at > size {
            at + size
        } else {
            n
        };
        spans.push((at, end));
        at = end;
    }
    spans
}

/// A quotient is rounded up: so many times the divisor reach the dividend, and
/// one time less does not.
pub proof fn law_quotients_are_rounded_up(n: int, d: int)
    requires
        n > 0,
        d > 0,
    ensures
        ceil_div(n, d) * d >= n,
        (ceil_div(n, d) - 1) * d < n,
        ceil_div(n, 1) == n,
        ceil_div(n, d) >= 1,
{
    let q = n / d;
    let r = n % d;
    assert(n == q * d + r && 0 <= r < d) by (nonlinear_arith)
        requires
            d > 0,
            q == n / d,
            r == n % d,
    ;
    assert((q + 1) * d == q * d + d) by (nonlinear_arith);
    assert((q - 1) * d == q * d - d) by (nonlinear_arith);
    assert(q * d > 0 ==> q >= 1) by (nonlinear_arith)
        requires
            d > 0,
    ;
    assert(q >= 0) by (nonlinear_arith)
        requires
            n > 0,
            d > 0,
            q == n / d,
    ;
    assert(n / 1 == n && n % 1 == 0);
}

/// Spans that cut a range leave nothing out and overlap nowhere: every position
/// lies in one of them, and in no other.
pub proof fn law_spans_share_the_range(
    spans: Seq<(usize, usize)>,
    n: int,
    size: int,
    x: int,
    i: int,
    j: int,
)
    requires
        cuts(spans, n, size),
        0 <= x < n,
    ensures
        exists|k: int|
            0 <= k < spans.len() && (#[trigger] spans[k]).0 <= x < spans[k].1,
        0 <= i < j < spans.len() ==> spans[i].1 <= spans[j].0,
        0 <= i < spans.len() ==> 0 < spans[i].1 - spans[i].0 <= size,
        0 <= i < spans.len() - 1 ==> spans[i].1 - spans[i].0 == size,
{
    lemma_span_holds(spans, n, size, x, spans.len() - 1);
    if 0 <= i < j < spans.len() {
        lemma_spans_ascend(spans, n, size, i, j);
    }
}

proof fn lemma_span_holds(spans: Seq<(usize, usize)>, n: int, size: int, x: int, k: int)
    requires
        cuts(spans, n, size),
        0 <= k < spans.len(),
        0 <= x < spans[k].1,
    ensures
        exists|m: int|
            0 <= m < spans.len() && (#[trigger] spans[m]).0 <= x < spans[m].1,
    decreases k,
{
    if x < spans[k].0 {
        assert(spans[k - 1].1 == spans[k].0);
        lemma_span_holds(spans, n, size, x, k - 1);
    }
}

proof fn lemma_spans_ascend(spans: Seq<(usize, usize)>, n: int, size: int, i: int, j: int)
    requires
        cuts(spans, n, size),
        0 <= i < j < spans.len(),
    ensures
        spans[i].1 <= spans[j].0,
    decreases j - i,
{
    if j > i + 1 {
        lemma_spans_ascend(spans, n, size, i, j - 1);
    }
    assert(spans[j - 1].1 == spans[j].0);
}

} // verus!
