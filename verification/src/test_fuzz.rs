//! Deterministic input generators, biased toward the shapes that parsers get
//! wrong: separators, patterns, dot segments and absolute paths.
use vstd::prelude::*;

use crate::text;

verus! {

/// A small deterministic generator of pseudo-random numbers.
#[derive(Debug, Clone)]
pub struct FuzzRng(u64);

/// The state that follows a state.
pub open spec fn advanced(x: u64) -> u64 {
    let a = x ^ (x >> 12u64);
    let b = a ^ (a << 25u64);
    b ^ (b >> 27u64)
}

/// The number drawn from a state.
pub open spec fn drawn(x: u64) -> u64 {
    advanced(x).wrapping_mul(0x2545_F491_4F6C_DD1Du64)
}

/// An index below `n` drawn from a state.
pub open spec fn index_drawn(x: u64, n: int) -> int {
    drawn(x) as int % n
}

/// `n` bytes drawn one after another, and the state afterwards.
pub open spec fn bytes_drawn(x: u64, n: int) -> (Seq<u8>, u64)
    decreases n,
{
    if n <= 0 {
        (Seq::empty(), x)
    } else {
        let (front, y) = bytes_drawn(x, n - 1);
        (front.push((drawn(y) % 256) as u8), advanced(y))
    }
}

/// The characters that texts are made of.
pub open spec fn charset() -> Seq<char> {
    seq!['a', 'b', 'Z', '0', ' ', '_', '-', '.', '/', '\\', '*', '?', '[', ']', '(', ')', '=', '\u{e9}', '\u{4e2d}', '\0', ':', '|', '~', '\'', '"', '{', '}']
}

/// `n` characters drawn one after another, and the state afterwards.
pub open spec fn chars_drawn(x: u64, n: int) -> (Seq<char>, u64)
    decreases n,
{
    if n <= 0 {
        (Seq::empty(), x)
    } else {
        let (front, y) = chars_drawn(x, n - 1);
        (front.push(charset()[index_drawn(y, 27)]), advanced(y))
    }
}

/// The segments that paths are made of.
pub open spec fn segment(i: int) -> Seq<char> {
    if i == 0 {
        "a"@
    } else if i == 1 {
        "b"@
    } else if i == 2 {
        "sub"@
    } else if i == 3 {
        "name with space"@
    } else if i == 4 {
        "\u{e9}"@
    } else if i == 5 {
        ".."@
    } else if i == 6 {
        "."@
    } else if i == 7 {
        "*"@
    } else if i == 8 {
        "?.bin"@
    } else if i == 9 {
        "[0-9]"@
    } else if i == 10 {
        "x..y"@
    } else if i == 11 {
        ".hidden"@
    } else if i == 12 {
        "backup"@
    } else if i == 13 {
        "a?b*c"@
    } else if i == 14 {
        "]"@
    } else if i == 15 {
        ""@
    } else {
        "dir/other"@
    }
}

/// The separators that paths are made with.
pub open spec fn separator(i: int) -> char {
    if i == 0 {
        '/'
    } else {
        '\\'
    }
}

/// `n` segments drawn one after another, with separators between them, and the
/// state afterwards.
pub open spec fn segments_drawn(x: u64, n: int) -> (Seq<char>, u64)
    decreases n,
{
    if n <= 0 {
        (Seq::empty(), x)
    } else {
        let (front, y) = segments_drawn(x, n - 1);
        if n == 1 {
            (segment(index_drawn(y, 17)), advanced(y))
        } else {
            let z = advanced(y);
            (
                front.push(separator(index_drawn(y, 2))) + segment(index_drawn(z, 17)),
                advanced(z),
            )
        }
    }
}

/// A path drawn from a state: now and then with a separator in front.
pub open spec fn path_drawn(x: u64, max_segments: int) -> (Seq<char>, u64) {
    let n = index_drawn(x, max_segments + 1);
    let (body, y) = segments_drawn(advanced(x), n);
    let z = advanced(y);
    if index_drawn(y, 8) == 0 {
        (seq![separator(index_drawn(z, 2))] + body, advanced(z))
    } else {
        (body, z)
    }
}

/// One of the segments.
fn pick_segment(i: usize) -> (s: &'static str)
    requires
        i < 17,
    ensures
        s@ == segment(i as int),
{
    match i {
        0 => "a",
        1 => "b",
        2 => "sub",
        3 => "name with space",
        4 => "\u{e9}",
        5 => "..",
        6 => ".",
        7 => "*",
        8 => "?.bin",
        9 => "[0-9]",
        10 => "x..y",
        11 => ".hidden",
        12 => "backup",
        13 => "a?b*c",
        14 => "]",
        15 => "",
        _ => "dir/other",
    }
}

impl FuzzRng {
    /// The state of the generator.
    pub closed spec fn state(&self) -> u64 {
        self.0
    }

    /// A generator with this seed. A constant is mixed in, because zero would
    /// repeat itself forever.
    pub fn new(seed: u64) -> (r: FuzzRng)
        ensures
            r.state() == seed.wrapping_add(0x9E37_79B9_7F4A_7C15u64),
    {
        FuzzRng(seed.wrapping_add(0x9E37_79B9_7F4A_7C15u64))
    }

    /// The next number.
    pub fn next(&mut self) -> (v: u64)
        ensures
            v == drawn(old(self).state()),
            final(self).state() == advanced(old(self).state()),
    {
        let mut x: u64 = self.0;
        x = x ^ (x >> 12u64);
        x = x ^ (x << 25u64);
        x = x ^ (x >> 27u64);
        self.0 = x;
        x.wrapping_mul(0x2545_F491_4F6C_DD1Du64)
    }

    /// An index below `n`.
    pub fn below(&mut self, n: usize) -> (i: usize)
        requires
            n > 0,
        ensures
            i < n,
            i == index_drawn(old(self).state(), n as int),
            final(self).state() == advanced(old(self).state()),
    {
        let v: u64 = self.next();
        (v % n as u64) as usize
    }

    /// A byte.
    pub fn byte(&mut self) -> (b: u8)
        ensures
            b == drawn(old(self).state()) % 256,
            final(self).state() == advanced(old(self).state()),
    {
        let v: u64 = self.next();
        (v % 256) as u8
    }

    /// Up to `max_len` bytes.
    pub fn bytes(&mut self, max_len: usize) -> (out: Vec<u8>)
        requires
            max_len < usize::MAX,
        ensures
            ({
                let x = old(self).state();
                let n = index_drawn(x, max_len + 1);
                (out@, final(self).state()) == bytes_drawn(advanced(x), n)
            }),
            out@.len() <= max_len,
    {
        let ghost x = self.state();
        let len: usize = self.below(max_len + 1);
        let mut out: Vec<u8> = Vec::new();
        let mut i: usize = 0;
        while i < len
            invariant
                i <= len,
                out@.len() == i,
                (out@, self.state()) == bytes_drawn(advanced(x), i as int),
            decreases len - i,
        {
            out.push(self.byte());
            i += 1;
        }
        out
    }

    /// A text of up to `max_len` characters.
    pub fn string(&mut self, max_len: usize) -> (out: String)
        requires
            max_len < usize::MAX,
        ensures
            ({
                let x = old(self).state();
                let n = index_drawn(x, max_len + 1);
                (out@, final(self).state()) == chars_drawn(advanced(x), n)
            }),
            out@.len() <= max_len,
    {
        let ghost x = self.state();
        let chars: [char; 27] = ['a', 'b', 'Z', '0', ' ', '_', '-', '.', '/', '\\', '*', '?', '[', ']', '(', ')', '=', '\u{e9}', '\u{4e2d}', '\0', ':', '|', '~', '\'', '"', '{', '}'];
        assert(chars@ =~= charset());
        let len: usize = self.below(max_len + 1);
        let mut out = String::new();
        let mut i: usize = 0;
        while i < len
            invariant
                i <= len,
                out@.len() == i,
                chars@ == charset(),
                (out@, self.state()) == chars_drawn(advanced(x), i as int),
            decreases len - i,
        {
            let k: usize = self.below(27);
            out.push(chars[k]);
            i += 1;
        }
        out
    }

    /// A separator.
    fn separator(&mut self) -> (c: char)
        ensures
            c == separator(index_drawn(old(self).state(), 2)),
            final(self).state() == advanced(old(self).state()),
    {
        if self.below(2) == 0 {
            '/'
        } else {
            '\\'
        }
    }

    /// A path of up to `max_segments` segments.
    pub fn pathish(&mut self, max_segments: usize) -> (out: String)
        requires
            max_segments < usize::MAX,
        ensures
            (out@, final(self).state()) == path_drawn(old(self).state(), max_segments as int),
    {
        let ghost x = self.state();
        let n: usize = self.below(max_segments + 1);
        let mut body = String::new();
        let mut i: usize = 0;
        while i < n
            invariant
                i <= n,
                (body@, self.state()) == segments_drawn(advanced(x), i as int),
            decreases n - i,
        {
            if i > 0 {
                let c: char = self.separator();
                body.push(c);
            }
            let k: usize = self.below(17);
            text::push_text(&mut body, pick_segment(k));
            proof {
                if i == 0 {
                    assert(body@ =~= segment(k as int));
                }
            }
            i += 1;
        }
        if self.below(8) == 0 {
            let c: char = self.separator();
            let mut out = String::new();
            out.push(c);
            text::push_text(&mut out, body.as_str());
            assert(out@ =~= seq![c] + body@);
            out
        } else {
            body
        }
    }
}

/// Texts have the drawn length and consist of characters of the set alone.
pub proof fn law_drawn_texts_use_the_charset(x: u64, n: int)
    requires
        n >= 0,
    ensures
        bytes_drawn(x, n).0.len() == n,
        chars_drawn(x, n).0.len() == n,
        forall|i: int| 0 <= i < n ==> charset().contains(#[trigger] chars_drawn(x, n).0[i]),
    decreases n,
{
    if n > 0 {
        law_drawn_texts_use_the_charset(x, n - 1);
        let (front, y) = chars_drawn(x, n - 1);
        let k = index_drawn(y, 27);
        assert(0 <= k < 27);
        assert(charset().len() == 27);
        assert(charset().contains(charset()[k]));
        assert forall|i: int| 0 <= i < n implies charset().contains(
            #[trigger] chars_drawn(x, n).0[i],
        ) by {
            if i < n - 1 {
                assert(chars_drawn(x, n).0[i] == front[i]);
            }
        }
    }
}

/// A generator never gets stuck: no state leads to zero but zero itself, and no
/// two states lead to the same one.
pub proof fn law_states_do_not_run_together(x: u64, y: u64)
    ensures
        advanced(x) == 0 <==> x == 0,
        advanced(x) == advanced(y) ==> x == y,
{
    let a = x ^ (x >> 12u64);
    let b = a ^ (a << 25u64);
    let c = b ^ (b >> 27u64);
    let d = y ^ (y >> 12u64);
    let e = d ^ (d << 25u64);
    let f = e ^ (e >> 27u64);
    assert(b ^ (b >> 27u64) == e ^ (e >> 27u64) ==> b == e) by (bit_vector);
    assert(a ^ (a << 25u64) == d ^ (d << 25u64) ==> a == d) by (bit_vector);
    assert(x ^ (x >> 12u64) == y ^ (y >> 12u64) ==> x == y) by (bit_vector);
    assert(b ^ (b >> 27u64) == 0 <==> b == 0) by (bit_vector);
    assert(a ^ (a << 25u64) == 0 <==> a == 0) by (bit_vector);
    assert(x ^ (x >> 12u64) == 0 <==> x == 0) by (bit_vector);
}

/// A drawn index lies in its range, and is the rest of the drawn number.
pub proof fn law_indexes_lie_in_range(x: u64, n: int)
    requires
        n > 0,
    ensures
        0 <= index_drawn(x, n) < n,
        (drawn(x) - index_drawn(x, n)) % n == 0,
{
    let d = drawn(x) as int;
    assert(d == n * (d / n) + d % n && 0 <= d % n < n) by (nonlinear_arith)
        requires
            n > 0,
            d >= 0,
    ;
    assert((n * (d / n)) % n == 0) by {
        vstd::arithmetic::div_mod::lemma_mod_multiples_basic(d / n, n);
        assert(n * (d / n) == (d / n) * n) by (nonlinear_arith);
    }
}

/// Every drawn path is made of the segments of the set, with a separator of
/// either kind between two of them and now and then one in front.
pub proof fn law_drawn_paths_are_made_of_segments(x: u64, n: int)
    requires
        n >= 0,
    ensures
        n == 0 ==> segments_drawn(x, n).0 == Seq::<char>::empty(),
        n == 1 ==> segments_drawn(x, n).0 == segment(index_drawn(x, 17)),
        n > 1 ==> ({
            let front = segments_drawn(x, n - 1);
            let all = segments_drawn(x, n).0;
            let last = segment(index_drawn(advanced(front.1), 17));
            &&& all.take(front.0.len() as int) == front.0
            &&& all[front.0.len() as int] == '/' || all[front.0.len() as int] == '\\'
            &&& all.skip(front.0.len() as int + 1) == last
        }),
{
    reveal_with_fuel(segments_drawn, 2);
    if n > 1 {
        let front = segments_drawn(x, n - 1);
        let all = segments_drawn(x, n).0;
        let last = segment(index_drawn(advanced(front.1), 17));
        assert(all.take(front.0.len() as int) =~= front.0);
        assert(all.skip(front.0.len() as int + 1) =~= last);
    }
}

/// One drawn path in eight gets a separator in front, and every other one is
/// made of its segments alone.
pub proof fn law_some_drawn_paths_begin_with_a_separator(x: u64, max: int)
    requires
        max >= 0,
    ensures
        ({
            let (body, y) = segments_drawn(advanced(x), index_drawn(x, max + 1));
            let p = path_drawn(x, max).0;
            &&& drawn(y) % 8 != 0 ==> p == body
            &&& drawn(y) % 8 == 0 ==> p.len() == body.len() + 1 && p.skip(1) == body && (p[0] == '/'
                || p[0] == '\\')
        }),
{
    let (body, y) = segments_drawn(advanced(x), index_drawn(x, max + 1));
    let p = path_drawn(x, max).0;
    if drawn(y) % 8 == 0 {
        assert(p.skip(1) =~= body);
    }
}

} // verus!
