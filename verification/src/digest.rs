//! Content digests.

use vstd::prelude::*;

verus! {

/// The BLAKE3 digest of a sequence of bytes.
pub uninterp spec fn blake3_of(data: Seq<u8>) -> Seq<u8>;

/// `blake3::hash`: the digest of `data`, which depends on the bytes alone.
#[verifier::external_body]
pub(crate) fn content_hash(data: &[u8]) -> (h: [u8; 32])
    ensures
        h@ == blake3_of(data@),
{
    *blake3::hash(data).as_bytes()
}

/// `blake3::Hasher`: a digest that is fed piece by piece.
#[verifier::external_type_specification]
#[verifier::external_body]
pub struct ExHasher(blake3::Hasher);

/// The bytes that a hasher was fed, in order.
pub uninterp spec fn fed(h: blake3::Hasher) -> Seq<u8>;

/// Whether a hasher computes the regular digest from the first byte on: it has
/// no key, no derivation context and no input offset.
pub uninterp spec fn regular(h: blake3::Hasher) -> bool;

/// `blake3::Hasher::new`: a regular hasher that was fed nothing.
#[verifier::external_body]
fn hasher_new() -> (h: blake3::Hasher)
    ensures
        regular(h),
        fed(h) == Seq::<u8>::empty(),
{
    blake3::Hasher::new()
}

/// `blake3::Hasher::update`: feeds a regular hasher `data` behind what it was
/// fed; it stays regular.
#[verifier::external_body]
fn hasher_update(h: &mut blake3::Hasher, data: &[u8])
    requires
        regular(*old(h)),
    ensures
        regular(*final(h)),
        fed(*final(h)) == fed(*old(h)) + data@,
{
    h.update(data);
}

/// `blake3::Hasher::finalize`: the digest of everything a regular hasher was
/// fed, the one that `blake3::hash` gives for the same bytes in one piece.
#[verifier::external_body]
fn hasher_finalize(h: &blake3::Hasher) -> (d: [u8; 32])
    requires
        regular(*h),
    ensures
        d@ == blake3_of(fed(*h)),
{
    *h.finalize().as_bytes()
}

/// The digest of content that arrives piece by piece. The model is the content
/// so far.
#[derive(Debug)]
pub struct Digester {
    inner: blake3::Hasher,
}

impl View for Digester {
    type V = Seq<u8>;

    closed spec fn view(&self) -> Seq<u8> {
        fed(self.inner)
    }
}

impl Digester {
    #[verifier::type_invariant]
    spec fn is_regular(self) -> bool {
        regular(self.inner)
    }

    /// No content yet.
    pub fn new() -> (r: Digester)
        ensures
            r@ == Seq::<u8>::empty(),
    {
        Digester { inner: hasher_new() }
    }

    /// Take in the next piece.
    pub fn update(&mut self, data: &[u8])
        ensures
            final(self)@ == old(self)@ + data@,
    {
        proof {
            use_type_invariant(&*self);
        }
        let mut h = hasher_new();
        std::mem::swap(&mut h, &mut self.inner);
        hasher_update(&mut h, data);
        self.inner = h;
    }

    /// The digest of the content so far.
    pub fn finalize(&self) -> (d: [u8; 32])
        ensures
            d@ == blake3_of(self@),
    {
        proof {
            use_type_invariant(self);
        }
        hasher_finalize(&self.inner)
    }
}

/// The digest that stands where none was computed: all zeros.
pub open spec fn no_digest() -> Seq<u8> {
    Seq::new(32, |i: int| 0u8)
}

/// The digest of content that was followed, or the one that stands for none.
pub open spec fn digest_of(content: Option<Seq<u8>>) -> Seq<u8> {
    match content {
        Some(bytes) => blake3_of(bytes),
        None => no_digest(),
    }
}

/// Content behind which more was taken in, if it is followed.
pub open spec fn taken(content: Option<Seq<u8>>, data: Seq<u8>) -> Option<Seq<u8>> {
    match content {
        Some(bytes) => Some(bytes + data),
        None => None,
    }
}

/// The digest of content that arrives piece by piece, where one is wanted. The
/// model is the content so far, or `None` where no digest is wanted.
#[derive(Debug)]
pub struct ContentDigest {
    inner: Option<Digester>,
}

impl View for ContentDigest {
    type V = Option<Seq<u8>>;

    closed spec fn view(&self) -> Option<Seq<u8>> {
        match self.inner {
            Some(d) => Some(d@),
            None => None,
        }
    }
}

impl ContentDigest {
    /// No content yet.
    pub fn new(wanted: bool) -> (r: ContentDigest)
        ensures
            r@ == if wanted {
                Some(Seq::<u8>::empty())
            } else {
                None
            },
    {
        if wanted {
            ContentDigest { inner: Some(Digester::new()) }
        } else {
            ContentDigest { inner: None }
        }
    }

    /// Take in the next piece.
    pub fn update(&mut self, data: &[u8])
        ensures
            final(self)@ == taken(old(self)@, data@),
    {
        match self.inner.take() {
            Some(d) => {
                let mut d = d;
                d.update(data);
                self.inner = Some(d);
            },
            None => {},
        }
    }

    /// Whether a digest is wanted.
    pub fn is_wanted(&self) -> (r: bool)
        ensures
            r == (self@ is Some),
    {
        self.inner.is_some()
    }

    /// The digest of the content so far; zeros where none is wanted.
    pub fn finalize(&self) -> (d: [u8; 32])
        ensures
            d@ == digest_of(self@),
    {
        match &self.inner {
            Some(d) => d.finalize(),
            None => {
                let none: [u8; 32] = [0u8; 32];
                assert(none@ =~= no_digest());
                none
            },
        }
    }
}

/// The pieces of a content put together.
pub open spec fn put_together(pieces: Seq<Seq<u8>>) -> Seq<u8>
    decreases pieces.len(),
{
    if pieces.len() == 0 {
        Seq::empty()
    } else {
        put_together(pieces.drop_last()) + pieces.last()
    }
}

/// The hexadecimal digit of a value below sixteen.
pub open spec fn hex_digit(n: int) -> char {
    if n < 10 {
        (48 + n) as char
    } else {
        (87 + n) as char
    }
}

/// Bytes in lower-case hexadecimal.
pub open spec fn hex_of(data: Seq<u8>) -> Seq<char>
    decreases data.len(),
{
    if data.len() == 0 {
        Seq::empty()
    } else {
        hex_of(data.drop_last()).push(hex_digit(data.last() as int / 16)).push(
            hex_digit(data.last() as int % 16),
        )
    }
}

/// The hexadecimal digit of a value below sixteen.
fn digit(n: u8) -> (c: char)
    requires
        n < 16,
    ensures
        c == hex_digit(n as int),
{
    if n < 10 {
        (48 + n) as char
    } else {
        (87 + n) as char
    }
}

/// A digest in lower-case hexadecimal.
pub fn to_hex(data: &[u8; 32]) -> (out: String)
    ensures
        out@ == hex_of(data@),
{
    let mut out = String::new();
    let mut i: usize = 0;
    assert(data@.take(0) =~= Seq::empty());
    while i < 32
        invariant
            i <= 32,
            out@ == hex_of(data@.take(i as int)),
        decreases 32 - i,
    {
        let b: u8 = data[i];
        out.push(digit(b / 16));
        out.push(digit(b % 16));
        proof {
            assert(data@.take(i + 1).drop_last() =~= data@.take(i as int));
            assert(data@.take(i + 1).last() == b);
        }
        i += 1;
    }
    assert(data@.take(i as int) =~= data@);
    out
}

/// Two digits stand for each byte.
pub proof fn lemma_hex_len(data: Seq<u8>)
    ensures
        hex_of(data).len() == 2 * data.len(),
    decreases data.len(),
{
    if data.len() > 0 {
        lemma_hex_len(data.drop_last());
    }
}

/// The value of a hexadecimal digit.
pub open spec fn digit_value(c: char) -> int {
    if '0' <= c <= '9' {
        c as int - '0' as int
    } else if 'a' <= c <= 'f' {
        c as int - 'a' as int + 10
    } else {
        -1
    }
}

/// Every byte is read back from its two digits, the higher one first.
pub proof fn law_hexadecimal_reads_back(data: Seq<u8>, i: int)
    requires
        0 <= i < data.len(),
    ensures
        hex_of(data).len() == 2 * data.len(),
        0 <= digit_value(hex_of(data)[2 * i]) < 16,
        0 <= digit_value(hex_of(data)[2 * i + 1]) < 16,
        data[i] == 16 * digit_value(hex_of(data)[2 * i]) + digit_value(hex_of(data)[2 * i + 1]),
    decreases data.len(),
{
    lemma_hex_len(data);
    lemma_hex_len(data.drop_last());
    if i < data.len() - 1 {
        law_hexadecimal_reads_back(data.drop_last(), i);
        assert(hex_of(data)[2 * i] == hex_of(data.drop_last())[2 * i]);
        assert(hex_of(data)[2 * i + 1] == hex_of(data.drop_last())[2 * i + 1]);
    }
}

/// Content that is followed from its beginning is all that was taken in, piece
/// after piece, and its digest is that of the whole; without a wish for it
/// nothing is followed, and the digest is all zeros.
pub proof fn law_content_is_digested_whole(
    content: Option<Seq<u8>>,
    a: Seq<u8>,
    b: Seq<u8>,
    i: int,
)
    ensures
        taken(taken(content, a), b) == taken(content, a + b),
        taken(Some(Seq::<u8>::empty()), a) == Some(a),
        taken(None, a) is None,
        digest_of(Some(a)) == blake3_of(a),
        digest_of(None).len() == 32,
        0 <= i < 32 ==> digest_of(None)[i] == 0,
{
    assert(Seq::<u8>::empty() + a =~= a);
    match content {
        Some(bytes) => {
            assert(bytes + a + b =~= bytes + (a + b));
        },
        None => {},
    }
}

/// Putting pieces together keeps every byte in its place: one piece is the
/// whole, and the pieces of two halves give the halves one after another.
pub proof fn law_pieces_follow_each_other(a: Seq<Seq<u8>>, b: Seq<Seq<u8>>, piece: Seq<u8>)
    ensures
        put_together(seq![piece]) == piece,
        put_together(a + b) == put_together(a) + put_together(b),
    decreases b.len(),
{
    reveal_with_fuel(put_together, 2);
    assert(seq![piece].drop_last() =~= Seq::empty());
    assert(Seq::<u8>::empty() + piece =~= piece);
    if b.len() == 0 {
        assert(a + b =~= a);
        assert(put_together(a) + Seq::<u8>::empty() =~= put_together(a));
    } else {
        law_pieces_follow_each_other(a, b.drop_last(), piece);
        assert((a + b).drop_last() =~= a + b.drop_last());
        assert((a + b).last() == b.last());
        assert(put_together(a) + (put_together(b.drop_last()) + b.last()) =~= put_together(a)
            + put_together(b.drop_last()) + b.last());
    }
}

} // verus!
