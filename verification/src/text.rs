//! Strings as sequences of characters: splitting, searching, comparing.
//!
//! A `String` or `&str` is modelled by its view, a `Seq<char>`. Every
//! function here is stated over those views.

use vstd::prelude::*;

verus! {

/// `String::push` appends one character at the end.
pub assume_specification[ String::push ](s: &mut String, ch: char)
    ensures
        final(s)@ == old(s)@.push(ch),
;

/// The views of a sequence of strings.
pub open spec fn views(v: Seq<String>) -> Seq<Seq<char>> {
    v.map_values(|s: String| s@)
}

/// The view of an optional string.
pub open spec fn opt_view(o: Option<String>) -> Option<Seq<char>> {
    match o {
        Some(s) => Some(s@),
        None => None,
    }
}

/// The index of the first `c` in `s`, or `s.len()` when there is none.
pub open spec fn first_of(s: Seq<char>, c: char) -> int
    decreases s.len(),
{
    if s.len() == 0 || s[0] == c {
        0
    } else {
        1 + first_of(s.skip(1), c)
    }
}

/// The pieces of `s` between the separators `sep` (always at least one).
pub open spec fn split_on(s: Seq<char>, sep: char) -> Seq<Seq<char>>
    decreases s.len(),
{
    let k = first_of(s, sep);
    if 0 <= k < s.len() {
        seq![s.take(k)] + split_on(s.skip(k + 1), sep)
    } else {
        seq![s]
    }
}

/// `s` with every `from` replaced by `to`.
pub open spec fn swap_char(s: Seq<char>, from: char, to: char) -> Seq<char> {
    s.map_values(
        |c: char|
            if c == from {
                to
            } else {
                c
            },
    )
}

/// The ASCII lower-case form of a character.
pub open spec fn lower(c: char) -> char {
    if 'A' <= c <= 'Z' {
        ((c as int) + 32) as char
    } else {
        c
    }
}

/// The ASCII lower-case form of a text.
pub open spec fn lowered(s: Seq<char>) -> Seq<char> {
    s.map_values(|c: char| lower(c))
}

/// The lexicographic order on texts, by code point.
pub open spec fn lex_lt(a: Seq<char>, b: Seq<char>) -> bool
    decreases a.len(),
{
    if b.len() == 0 {
        false
    } else if a.len() == 0 {
        true
    } else {
        a[0] < b[0] || (a[0] == b[0] && lex_lt(a.skip(1), b.skip(1)))
    }
}

/// What `first_of` finds: the first occurrence, and nothing before it.
pub proof fn lemma_first_of(s: Seq<char>, c: char)
    ensures
        0 <= first_of(s, c) <= s.len(),
        first_of(s, c) < s.len() ==> s[first_of(s, c)] == c,
        forall|i: int| 0 <= i < first_of(s, c) ==> s[i] != c,
    decreases s.len(),
{
    if s.len() != 0 && s[0] != c {
        lemma_first_of(s.skip(1), c);
        assert forall|i: int| 0 <= i < first_of(s, c) implies s[i] != c by {
            if i > 0 {
                assert(s[i] == s.skip(1)[i - 1]);
            }
        }
    }
}

/// An index with nothing equal to `c` before it, and `c` (or the end) at it,
/// is the first one.
pub proof fn lemma_first_of_is(s: Seq<char>, c: char, k: int)
    requires
        0 <= k <= s.len(),
        k < s.len() ==> s[k] == c,
        forall|i: int| 0 <= i < k ==> s[i] != c,
    ensures
        first_of(s, c) == k,
{
    lemma_first_of(s, c);
}

/// Splitting at the first separator.
pub proof fn lemma_split_step(s: Seq<char>, sep: char, k: int)
    requires
        0 <= k < s.len(),
        s[k] == sep,
        forall|i: int| 0 <= i < k ==> s[i] != sep,
    ensures
        split_on(s, sep) == seq![s.take(k)] + split_on(s.skip(k + 1), sep),
{
    lemma_first_of_is(s, sep, k);
}

/// A text without the separator is one piece.
pub proof fn lemma_split_none(s: Seq<char>, sep: char)
    requires
        forall|i: int| 0 <= i < s.len() ==> s[i] != sep,
    ensures
        split_on(s, sep) == seq![s],
{
    lemma_first_of_is(s, sep, s.len() as int);
}

/// There is always a piece, and no piece contains the separator.
pub proof fn lemma_split_pieces(s: Seq<char>, sep: char)
    ensures
        split_on(s, sep).len() >= 1,
        forall|i: int, j: int|
            #![trigger split_on(s, sep)[i][j]]
            0 <= i < split_on(s, sep).len() && 0 <= j < split_on(s, sep)[i].len()
                ==> split_on(s, sep)[i][j] != sep,
    decreases s.len(),
{
    lemma_first_of(s, sep);
    let k = first_of(s, sep);
    if k < s.len() {
        let rest = split_on(s.skip(k + 1), sep);
        lemma_split_pieces(s.skip(k + 1), sep);
        assert forall|i: int, j: int|
            #![trigger split_on(s, sep)[i][j]]
            0 <= i < split_on(s, sep).len() && 0 <= j < split_on(s, sep)[i].len() implies split_on(
            s,
            sep,
        )[i][j] != sep by {
            if i > 0 {
                assert(split_on(s, sep)[i] == rest[i - 1]);
                assert(rest[i - 1][j] != sep);
            }
        }
    }
}

/// The pieces hold no character that the text does not hold.
pub proof fn lemma_split_chars(s: Seq<char>, sep: char, c: char)
    requires
        !s.contains(c),
    ensures
        forall|i: int|
            0 <= i < split_on(s, sep).len() ==> !(#[trigger] split_on(s, sep)[i]).contains(c),
    decreases s.len(),
{
    lemma_first_of(s, sep);
    let k = first_of(s, sep);
    if k < s.len() {
        let head = s.take(k);
        let tail = s.skip(k + 1);
        assert(!head.contains(c)) by {
            if head.contains(c) {
                let j = choose|j: int| 0 <= j < head.len() && head[j] == c;
                assert(s[j] == c);
            }
        }
        assert(!tail.contains(c)) by {
            if tail.contains(c) {
                let j = choose|j: int| 0 <= j < tail.len() && tail[j] == c;
                assert(s[j + k + 1] == c);
            }
        }
        lemma_split_chars(tail, sep, c);
        assert forall|i: int| 0 <= i < split_on(s, sep).len() implies !(#[trigger] split_on(
            s,
            sep,
        )[i]).contains(c) by {
            if i > 0 {
                assert(split_on(s, sep)[i] == split_on(tail, sep)[i - 1]);
            }
        }
    }
}

/// Splitting a text joined by the separator splits both sides.
pub proof fn lemma_split_joined(a: Seq<char>, b: Seq<char>, sep: char)
    ensures
        split_on(a.push(sep) + b, sep) == split_on(a, sep) + split_on(b, sep),
    decreases a.len(),
{
    let whole = a.push(sep) + b;
    lemma_first_of(a, sep);
    let k = first_of(a, sep);
    assert(forall|i: int| 0 <= i < a.len() ==> whole[i] == a[i]);
    lemma_split_step(whole, sep, k);
    if k < a.len() {
        let tail = a.skip(k + 1);
        lemma_split_joined(tail, b, sep);
        assert(whole.take(k) =~= a.take(k));
        assert(whole.skip(k + 1) =~= tail.push(sep) + b);
        assert(split_on(a, sep) + split_on(b, sep) =~= seq![a.take(k)] + (split_on(tail, sep)
            + split_on(b, sep)));
    } else {
        assert(whole.take(k) =~= a);
        assert(whole.skip(k + 1) =~= b);
    }
}

/// The order is irreflexive.
pub proof fn lemma_lex_irrefl(a: Seq<char>)
    ensures
        !lex_lt(a, a),
    decreases a.len(),
{
    if a.len() > 0 {
        lemma_lex_irrefl(a.skip(1));
    }
}

/// The order is transitive.
pub proof fn lemma_lex_trans(a: Seq<char>, b: Seq<char>, c: Seq<char>)
    requires
        lex_lt(a, b),
        lex_lt(b, c),
    ensures
        lex_lt(a, c),
    decreases a.len(),
{
    if a.len() > 0 && a[0] == b[0] && b[0] == c[0] {
        lemma_lex_trans(a.skip(1), b.skip(1), c.skip(1));
    }
}

/// The order is total.
pub proof fn lemma_lex_total(a: Seq<char>, b: Seq<char>)
    ensures
        lex_lt(a, b) || a == b || lex_lt(b, a),
    decreases a.len(),
{
    if a.len() > 0 && b.len() > 0 && a[0] == b[0] {
        lemma_lex_total(a.skip(1), b.skip(1));
        if a.skip(1) == b.skip(1) {
            assert(a =~= seq![a[0]] + a.skip(1));
            assert(b =~= seq![b[0]] + b.skip(1));
        }
    } else if a.len() == 0 && b.len() == 0 {
        assert(a =~= b);
    }
}

/// A proper prefix comes first.
pub proof fn lemma_lex_prefix(a: Seq<char>, b: Seq<char>)
    requires
        a.is_prefix_of(b),
        a.len() < b.len(),
    ensures
        lex_lt(a, b),
    decreases a.len(),
{
    if a.len() > 0 {
        assert(a[0] == b[0]);
        assert(a.skip(1).is_prefix_of(b.skip(1))) by {
            assert forall|i: int| 0 <= i < a.skip(1).len() implies a.skip(1)[i] == b.skip(1)[i] by {
                assert(a[i + 1] == b.subrange(0, a.len() as int)[i + 1]);
            }
            assert(a.skip(1) =~= b.skip(1).subrange(0, a.skip(1).len() as int));
        }
        lemma_lex_prefix(a.skip(1), b.skip(1));
    }
}

/// The characters of a string, in order.
pub fn chars_of(s: &str) -> (out: Vec<char>)
    ensures
        out@ == s@,
{
    let mut out: Vec<char> = Vec::new();
    for c in it: s.chars()
        invariant
            out@ == it.seq().take(it.index()),
            it.seq() == s@,
    {
        out.push(c);
    }
    out
}

/// The string made of `chars[from..to]`.
pub fn string_of(chars: &Vec<char>, from: usize, to: usize) -> (out: String)
    requires
        from <= to <= chars.len(),
    ensures
        out@ == chars@.subrange(from as int, to as int),
{
    let mut out = String::new();
    let mut i: usize = from;
    while i < to
        invariant
            from <= i <= to <= chars.len(),
            out@ == chars@.subrange(from as int, i as int),
        decreases to - i,
    {
        out.push(chars[i]);
        i += 1;
    }
    out
}

/// A copy of a borrowed string.
pub fn copy_str(s: &str) -> (out: String)
    ensures
        out@ == s@,
{
    s.to_owned()
}

/// A copy of a list of strings.
pub fn copy_strings(v: &Vec<String>) -> (out: Vec<String>)
    ensures
        out@ == v@,
{
    let mut out: Vec<String> = Vec::new();
    let mut i: usize = 0;
    while i < v.len()
        invariant
            i <= v.len(),
            out@ == v@.take(i as int),
        decreases v.len() - i,
    {
        out.push(v[i].clone());
        i += 1;
    }
    assert(v@.take(i as int) =~= v@);
    out
}

/// Append `tail` to `s`.
pub fn push_text(s: &mut String, tail: &str)
    ensures
        final(s)@ == old(s)@ + tail@,
{
    let chars = chars_of(tail);
    let mut i: usize = 0;
    while i < chars.len()
        invariant
            i <= chars.len(),
            chars@ == tail@,
            s@ == old(s)@ + tail@.take(i as int),
        decreases chars.len() - i,
    {
        s.push(chars[i]);
        i += 1;
    }
    assert(tail@.take(i as int) =~= tail@);
}

/// Whether two texts are equal.
pub fn same(a: &str, b: &str) -> (r: bool)
    ensures
        r == (a@ == b@),
{
    let x = chars_of(a);
    let y = chars_of(b);
    same_chars(&x, &y)
}

/// Whether two character vectors hold the same text.
pub fn same_chars(x: &Vec<char>, y: &Vec<char>) -> (r: bool)
    ensures
        r == (x@ == y@),
{
    if x.len() != y.len() {
        return false;
    }
    let mut i: usize = 0;
    while i < x.len()
        invariant
            i <= x.len(),
            x.len() == y.len(),
            forall|j: int| 0 <= j < i ==> x[j] == y[j],
        decreases x.len() - i,
    {
        if x[i] != y[i] {
            return false;
        }
        i += 1;
    }
    assert(x@ =~= y@);
    true
}

/// Whether two optional texts are equal.
pub fn same_opt(a: &Option<String>, b: &Option<String>) -> (r: bool)
    ensures
        r == (opt_view(*a) == opt_view(*b)),
{
    match (a, b) {
        (Some(x), Some(y)) => same(x.as_str(), y.as_str()),
        (None, None) => true,
        _ => false,
    }
}

/// Whether `s` begins with `prefix`.
pub fn begins_with(s: &str, prefix: &str) -> (r: bool)
    ensures
        r == prefix@.is_prefix_of(s@),
{
    let x = chars_of(s);
    let y = chars_of(prefix);
    if y.len() > x.len() {
        return false;
    }
    let mut i: usize = 0;
    while i < y.len()
        invariant
            i <= y.len() <= x.len(),
            x@ == s@,
            y@ == prefix@,
            forall|j: int| 0 <= j < i ==> x[j] == y[j],
        decreases y.len() - i,
    {
        if x[i] != y[i] {
            assert(s@.subrange(0, prefix@.len() as int)[i as int] == s@[i as int]);
            return false;
        }
        i += 1;
    }
    assert(y@ =~= x@.subrange(0, y.len() as int));
    true
}

/// Whether `c` occurs in `s`.
pub fn has_char(s: &str, c: char) -> (r: bool)
    ensures
        r == s@.contains(c),
{
    let x = chars_of(s);
    let mut i: usize = 0;
    while i < x.len()
        invariant
            i <= x.len(),
            x@ == s@,
            forall|j: int| 0 <= j < i ==> s@[j] != c,
        decreases x.len() - i,
    {
        if x[i] == c {
            assert(s@[i as int] == c);
            return true;
        }
        i += 1;
    }
    false
}

/// `s` with every `from` replaced by `to`.
pub fn replace_char(s: &str, from: char, to: char) -> (out: String)
    ensures
        out@ == swap_char(s@, from, to),
{
    let x = chars_of(s);
    let mut out = String::new();
    let mut i: usize = 0;
    while i < x.len()
        invariant
            i <= x.len(),
            x@ == s@,
            out@ == swap_char(s@.take(i as int), from, to),
        decreases x.len() - i,
    {
        let c = x[i];
        if c == from {
            out.push(to);
        } else {
            out.push(c);
        }
        proof {
            assert(s@.take(i + 1) =~= s@.take(i as int).push(c));
            assert(swap_char(s@.take(i + 1), from, to) =~= swap_char(
                s@.take(i as int),
                from,
                to,
            ).push(
                if c == from {
                    to
                } else {
                    c
                },
            ));
        }
        i += 1;
    }
    assert(s@.take(i as int) =~= s@);
    out
}

/// Whether two texts are equal up to ASCII case.
pub fn same_ignoring_case(a: &str, b: &str) -> (r: bool)
    ensures
        r == (lowered(a@) == lowered(b@)),
{
    let x = chars_of(a);
    let y = chars_of(b);
    if x.len() != y.len() {
        assert(lowered(a@).len() != lowered(b@).len());
        return false;
    }
    let mut i: usize = 0;
    while i < x.len()
        invariant
            i <= x.len(),
            x.len() == y.len(),
            x@ == a@,
            y@ == b@,
            forall|j: int| 0 <= j < i ==> lower(x[j]) == lower(y[j]),
        decreases x.len() - i,
    {
        if to_lower(x[i]) != to_lower(y[i]) {
            assert(lowered(a@)[i as int] == lower(x[i as int]));
            assert(lowered(b@)[i as int] == lower(y[i as int]));
            return false;
        }
        i += 1;
    }
    assert(lowered(a@) =~= lowered(b@));
    true
}

/// The ASCII lower-case form of a character.
pub fn to_lower(c: char) -> (r: char)
    ensures
        r == lower(c),
{
    if 'A' <= c && c <= 'Z' {
        let n: u8 = c as u8;
        let m: u8 = n + 32;
        m as char
    } else {
        c
    }
}

/// Whether `a` comes before `b` in the lexicographic order.
pub fn before(a: &str, b: &str) -> (r: bool)
    ensures
        r == lex_lt(a@, b@),
{
    let x = chars_of(a);
    let y = chars_of(b);
    before_chars(&x, &y)
}

/// Whether the text `x` comes before the text `y` in the lexicographic order.
pub fn before_chars(x: &Vec<char>, y: &Vec<char>) -> (r: bool)
    ensures
        r == lex_lt(x@, y@),
{
    let mut i: usize = 0;
    assert(x@.skip(0) =~= x@ && y@.skip(0) =~= y@);
    while i < x.len() && i < y.len()
        invariant
            i <= x.len(),
            i <= y.len(),
            lex_lt(x@, y@) == lex_lt(x@.skip(i as int), y@.skip(i as int)),
        decreases x.len() - i,
    {
        proof {
            let p = x@.skip(i as int);
            let q = y@.skip(i as int);
            assert(p[0] == x[i as int] && q[0] == y[i as int]);
            assert(p.skip(1) =~= x@.skip(i + 1));
            assert(q.skip(1) =~= y@.skip(i + 1));
        }
        if x[i] < y[i] {
            return true;
        }
        if y[i] < x[i] {
            return false;
        }
        i += 1;
    }
    i < y.len()
}

/// The pieces of `s` between the separators `sep`.
pub fn split(s: &str, sep: char) -> (out: Vec<String>)
    ensures
        views(out@) == split_on(s@, sep),
{
    let x = chars_of(s);
    let mut out: Vec<String> = Vec::new();
    let mut start: usize = 0;
    let mut i: usize = 0;
    proof {
        assert(s@.skip(0) =~= s@);
        assert(views(out@) + split_on(s@, sep) =~= split_on(s@, sep));
    }
    while i < x.len()
        invariant
            start <= i <= x.len(),
            x@ == s@,
            forall|j: int| start <= j < i ==> x[j] != sep,
            split_on(s@, sep) == views(out@) + split_on(s@.skip(start as int), sep),
        decreases x.len() - i,
    {
        if x[i] == sep {
            let piece = string_of(&x, start, i);
            let ghost before_push = out@;
            out.push(piece);
            proof {
                let rest = s@.skip(start as int);
                let k = i - start;
                lemma_split_step(rest, sep, k);
                assert(rest.take(k) =~= piece@);
                assert(rest.skip(k + 1) =~= s@.skip(i + 1));
                assert(views(out@) =~= views(before_push).push(piece@));
                assert(views(before_push) + (seq![piece@] + split_on(s@.skip(i + 1), sep))
                    =~= views(out@) + split_on(s@.skip(i + 1), sep));
            }
            start = i + 1;
        }
        i += 1;
    }
    let piece = string_of(&x, start, x.len());
    let ghost before_push = out@;
    out.push(piece);
    proof {
        let rest = s@.skip(start as int);
        assert(rest =~= piece@);
        lemma_split_none(rest, sep);
        assert(views(out@) =~= views(before_push).push(piece@));
    }
    out
}

/// The decimal digit of a value below ten.
pub open spec fn digit_char(n: int) -> char {
    (48 + n) as char
}

/// A number in decimal.
pub open spec fn decimal_of(n: int) -> Seq<char>
    decreases n,
{
    if n < 10 {
        seq![digit_char(n)]
    } else {
        decimal_of(n / 10).push(digit_char(n % 10))
    }
}

/// A number in decimal.
pub fn decimal(n: u64) -> (out: String)
    ensures
        out@ == decimal_of(n as int),
    decreases n,
{
    let digit: u8 = (n % 10) as u8;
    let c: char = (48 + digit) as char;
    if n < 10 {
        let mut out = String::new();
        out.push(c);
        assert(out@ =~= seq![digit_char(n as int)]);
        out
    } else {
        let mut out = decimal(n / 10);
        out.push(c);
        out
    }
}

/// What two texts begin with alike does not matter to their order.
pub proof fn law_shared_beginnings_do_not_matter(p: Seq<char>, a: Seq<char>, b: Seq<char>)
    ensures
        lex_lt(p + a, p + b) == lex_lt(a, b),
    decreases p.len(),
{
    if p.len() == 0 {
        assert(p + a =~= a);
        assert(p + b =~= b);
    } else {
        law_shared_beginnings_do_not_matter(p.skip(1), a, b);
        assert((p + a).skip(1) =~= p.skip(1) + a);
        assert((p + b).skip(1) =~= p.skip(1) + b);
    }
}

/// Two texts are ordered by the first character in which they differ, and the
/// end of a text comes before any character.
pub proof fn law_the_first_difference_decides(
    p: Seq<char>,
    x: char,
    y: char,
    s: Seq<char>,
    t: Seq<char>,
)
    ensures
        x < y ==> lex_lt(p.push(x) + s, p.push(y) + t),
        x > y ==> !lex_lt(p.push(x) + s, p.push(y) + t),
        lex_lt(p, p.push(x) + s),
        !lex_lt(p.push(x) + s, p),
{
    let a = seq![x] + s;
    let b = seq![y] + t;
    assert(p.push(x) + s =~= p + a);
    assert(p.push(y) + t =~= p + b);
    law_shared_beginnings_do_not_matter(p, a, b);
    let e = Seq::<char>::empty();
    assert(p + e =~= p);
    law_shared_beginnings_do_not_matter(p, e, a);
    law_shared_beginnings_do_not_matter(p, a, e);
}

/// Lowering changes capital letters alone, each to the small letter of its
/// place in the alphabet.
pub proof fn law_only_capitals_are_lowered(c: char)
    ensures
        'A' <= c <= 'Z' ==> 'a' <= lower(c) <= 'z' && lower(c) as int - 'a' as int == c as int
            - 'A' as int,
        !('A' <= c <= 'Z') ==> lower(c) == c,
{
}

/// Replacing a character changes every place where it stands and no other.
pub proof fn law_only_the_character_is_replaced(s: Seq<char>, from: char, to: char, i: int)
    requires
        0 <= i < s.len(),
    ensures
        swap_char(s, from, to).len() == s.len(),
        s[i] == from ==> swap_char(s, from, to)[i] == to,
        s[i] != from ==> swap_char(s, from, to)[i] == s[i],
{
}

/// The number that a text of digits stands for.
pub open spec fn number_of(s: Seq<char>) -> int
    decreases s.len(),
{
    if s.len() == 0 {
        0
    } else {
        10 * number_of(s.drop_last()) + (s.last() as int - '0' as int)
    }
}

/// A number in decimal reads back as that number, is made of digits alone, and
/// begins with a zero only if it is zero.
pub proof fn law_decimals_read_back(n: int)
    requires
        n >= 0,
    ensures
        number_of(decimal_of(n)) == n,
        decimal_of(n).len() > 0,
        forall|i: int| 0 <= i < decimal_of(n).len() ==> '0' <= #[trigger] decimal_of(n)[i] <= '9',
        decimal_of(n)[0] == '0' ==> n == 0,
    decreases n,
{
    if n < 10 {
        reveal_with_fuel(number_of, 2);
        assert(decimal_of(n).drop_last() =~= Seq::empty());
    } else {
        let front = decimal_of(n / 10);
        law_decimals_read_back(n / 10);
        assert(decimal_of(n).drop_last() =~= front);
        assert(decimal_of(n)[0] == front[0]);
    }
}

} // verus!
