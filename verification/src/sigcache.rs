//! The cache of basis signatures: how an entry is named, what it is keyed by,
//! and when it may be used.
use vstd::prelude::*;

use crate::digest;
use crate::text;

verus! {

/// The number of bytes sampled at each end of a file.
pub const SAMPLE_LEN: u64 = 4096;

/// What an entry is keyed by: the size and time that the file was given.
#[derive(Debug, Clone, Copy, PartialEq, Eq, Structural)]
pub struct CacheKey {
    /// Size in bytes.
    pub size: u64,
    /// Modification time, wrapped into an unsigned number.
    pub mtime_sec: u64,
    /// Nanosecond remainder of the modification time.
    pub mtime_nsec: u32,
}

/// What an entry says of the file whose signature it holds.
#[derive(Debug, Clone, Copy)]
pub struct EntryTag {
    /// The key.
    pub key: CacheKey,
    /// The digest of the file's two ends.
    pub sample: [u8; 32],
}

/// What looking an entry up comes to.
#[derive(Debug, Clone, Copy, PartialEq, Eq, Structural)]
pub enum Lookup {
    /// The entry is for another size or time.
    Miss,
    /// The content was replaced: drop the entry.
    Stale,
    /// The entry holds.
    Hit,
}

/// The name of the entry for a path.
pub open spec fn entry_name_of(p: Seq<char>) -> Seq<char> {
    digest::hex_of(digest::blake3_of(vstd::utf8::encode_utf8(p))) + ".sig"@
}

/// The name of the entry for a path: a digest of the path.
pub fn entry_name(p: &str) -> (name: String)
    ensures
        name@ == entry_name_of(p@),
{
    let mut name = digest::to_hex(&digest::content_hash(p.as_bytes()));
    text::push_text(&mut name, ".sig");
    name
}

/// The bytes at the beginning of a file that are sampled.
pub open spec fn head_of(file: Seq<u8>) -> Seq<u8> {
    if file.len() <= SAMPLE_LEN {
        file
    } else {
        file.take(SAMPLE_LEN as int)
    }
}

/// The bytes at the end of a file that are sampled: none of a short file.
pub open spec fn tail_of(file: Seq<u8>) -> Seq<u8> {
    if file.len() <= SAMPLE_LEN {
        Seq::empty()
    } else {
        file.skip(file.len() - SAMPLE_LEN)
    }
}

/// The digest of the two ends of a file.
pub open spec fn sample_of(file: Seq<u8>) -> Seq<u8> {
    digest::blake3_of(head_of(file) + tail_of(file))
}

/// Which bytes of a file of this size are sampled: so many from the beginning,
/// and from the given offset on to the end.
pub open spec fn sampled(len: int) -> (int, Option<int>) {
    if len <= SAMPLE_LEN {
        (len, None)
    } else {
        (SAMPLE_LEN as int, Some(len - SAMPLE_LEN))
    }
}

/// The digest of the sampled bytes.
pub open spec fn ends_digest(head: Seq<u8>, tail: Seq<u8>) -> Seq<u8> {
    digest::blake3_of(head + tail)
}

/// The entry to store for a file.
pub open spec fn stored(key: CacheKey, sample: Option<[u8; 32]>) -> Option<EntryTag> {
    match sample {
        Some(h) => Some(EntryTag { key, sample: h }),
        None => None,
    }
}

/// Which bytes of a file of this size are sampled: so many from the beginning,
/// and from the given offset on to the end.
pub fn sample_plan(len: u64) -> (r: (u64, Option<u64>))
    ensures
        r.0 == sampled(len as int).0,
        match r.1 {
            Some(offset) => sampled(len as int).1 == Some(offset as int),
            None => sampled(len as int).1 is None,
        },
        r.0 == if len <= SAMPLE_LEN {
            len
        } else {
            SAMPLE_LEN
        },
        match r.1 {
            Some(offset) => len > SAMPLE_LEN && offset == len - SAMPLE_LEN,
            None => len <= SAMPLE_LEN,
        },
{
    if len <= SAMPLE_LEN {
        (len, None)
    } else {
        (SAMPLE_LEN, Some(len - SAMPLE_LEN))
    }
}

/// The digest of the sampled bytes.
pub fn content_sample(head: &Vec<u8>, tail: &Vec<u8>) -> (h: [u8; 32])
    ensures
        h@ == ends_digest(head@, tail@),
        h@ == digest::blake3_of(head@ + tail@),
{
    let mut all: Vec<u8> = Vec::new();
    let mut i: usize = 0;
    while i < head.len()
        invariant
            i <= head.len(),
            all@ == head@.take(i as int),
        decreases head.len() - i,
    {
        all.push(head[i]);
        i += 1;
    }
    let mut k: usize = 0;
    assert(head@.take(i as int) + tail@.take(0) =~= all@);
    assert(head@.take(i as int) =~= head@);
    while k < tail.len()
        invariant
            k <= tail.len(),
            all@ == head@ + tail@.take(k as int),
        decreases tail.len() - k,
    {
        all.push(tail[k]);
        k += 1;
        assert(head@ + tail@.take(k as int) =~= all@);
    }
    assert(tail@.take(k as int) =~= tail@);
    digest::content_hash(all.as_slice())
}

/// What looking an entry up comes to, for a file that has this key and these
/// sampled bytes now.
pub open spec fn lookup_of(tag: EntryTag, key: CacheKey, live: Option<Seq<u8>>) -> Lookup {
    if tag.key != key {
        Lookup::Miss
    } else if live == Some(tag.sample@) {
        Lookup::Hit
    } else {
        Lookup::Stale
    }
}

/// Whether the key of an entry is the key of the file; only then are the
/// file's ends read.
pub fn key_matches(tag: &EntryTag, key: CacheKey) -> (r: bool)
    ensures
        r == (tag.key == key),
{
    tag.key == key
}

/// Decide whether an entry may be used. `live` is the digest of the file's two
/// ends now, if they could be read.
pub fn lookup(tag: &EntryTag, key: CacheKey, live: &Option<[u8; 32]>) -> (r: Lookup)
    ensures
        r == lookup_of(
            *tag,
            key,
            match *live {
                Some(h) => Some(h@),
                None => None,
            },
        ),
{
    if !key_matches(tag, key) {
        return Lookup::Miss;
    }
    match live {
        Some(h) => if crate::protocol::same_hash(h, &tag.sample) {
            Lookup::Hit
        } else {
            Lookup::Stale
        },
        None => Lookup::Stale,
    }
}

/// The entry to store for a file; without a sample there is none.
pub fn store(key: CacheKey, sample: &Option<[u8; 32]>) -> (r: Option<EntryTag>)
    ensures
        r == stored(key, *sample),
        match *sample {
            Some(h) => r matches Some(tag) && tag.key == key && tag.sample == h,
            None => r is None,
        },
{
    match sample {
        Some(h) => Some(EntryTag { key, sample: *h }),
        None => None,
    }
}

/// What was stored for a file is found again while the file keeps its size,
/// its time and its content.
pub proof fn law_stored_entries_are_found(tag: EntryTag, key: CacheKey, file: Seq<u8>)
    requires
        tag.key == key,
        tag.sample@ == sample_of(file),
    ensures
        lookup_of(tag, key, Some(sample_of(file))) == Lookup::Hit,
{
}

/// An entry is used only for a file with its size and time whose two ends
/// still have the digest that was stored, whatever else happened to the file.
pub proof fn law_replaced_content_is_no_hit(tag: EntryTag, key: CacheKey, file: Seq<u8>)
    requires
        sample_of(file) != tag.sample@,
    ensures
        lookup_of(tag, key, Some(sample_of(file))) != Lookup::Hit,
        lookup_of(tag, key, None) != Lookup::Hit,
{
}

/// The sampled bytes are those at the two ends, and all bytes of a short file.
pub proof fn law_samples_cover_both_ends(file: Seq<u8>)
    ensures
        file.len() <= SAMPLE_LEN ==> head_of(file) + tail_of(file) == file,
        file.len() > SAMPLE_LEN ==> head_of(file).len() == SAMPLE_LEN && tail_of(file).len()
            == SAMPLE_LEN && head_of(file)[0] == file[0] && tail_of(file).last() == file.last(),
{
    if file.len() <= SAMPLE_LEN {
        assert(head_of(file) + tail_of(file) =~= file);
    }
}

/// The bytes that are read for a sample are those that the sample is the digest
/// of: the first 4096 and the last 4096, or all of a file that is no longer
/// than that.
pub proof fn law_samples_are_read_at_both_ends(file: Seq<u8>)
    ensures
        head_of(file) == file.take(sampled(file.len() as int).0),
        sampled(file.len() as int).1 matches Some(offset) ==> tail_of(file) == file.skip(offset)
            && offset == file.len() - 4096,
        sampled(file.len() as int).1 is None <==> file.len() <= 4096,
        sampled(file.len() as int).1 is None ==> tail_of(file) == Seq::<u8>::empty()
            && sampled(file.len() as int).0 == file.len(),
        file.len() > 4096 ==> sampled(file.len() as int).0 == 4096,
        sample_of(file) == ends_digest(head_of(file), tail_of(file)),
        file.len() <= 4096 ==> sample_of(file) == digest::blake3_of(file),
        file.len() > 4096 ==> sample_of(file) == digest::blake3_of(
            file.take(4096) + file.skip(file.len() - 4096),
        ),
{
    if file.len() <= 4096 {
        assert(file.take(file.len() as int) =~= file);
        assert(file + Seq::<u8>::empty() =~= file);
    }
}

/// An entry for another size or another time is no entry for the file, and one
/// for the same whose content changed, or could not be looked at, is stale; what
/// is stored with a sample is a hit for that sample.
pub proof fn law_entries_are_for_one_version(
    tag: EntryTag,
    key: CacheKey,
    live: Option<Seq<u8>>,
    sample: [u8; 32],
)
    ensures
        tag.key.size != key.size || tag.key.mtime_sec != key.mtime_sec || tag.key.mtime_nsec
            != key.mtime_nsec ==> lookup_of(tag, key, live) == Lookup::Miss,
        tag.key.size == key.size && tag.key.mtime_sec == key.mtime_sec && tag.key.mtime_nsec
            == key.mtime_nsec && live != Some(tag.sample@) ==> lookup_of(tag, key, live)
            == Lookup::Stale,
        tag.key.size == key.size && tag.key.mtime_sec == key.mtime_sec && tag.key.mtime_nsec
            == key.mtime_nsec && live == Some(tag.sample@) ==> lookup_of(tag, key, live)
            == Lookup::Hit,
        stored(key, None) is None,
        stored(key, Some(sample)) matches Some(t) && lookup_of(t, key, Some(sample@))
            == Lookup::Hit,
{
}

/// The entry of a path is named by the digest of the path, and paths of one
/// digest share it.
pub proof fn law_entries_are_named_by_the_digest(p: Seq<char>, q: Seq<char>)
    ensures
        entry_name_of(p) == digest::hex_of(digest::blake3_of(vstd::utf8::encode_utf8(p)))
            + ".sig"@,
        entry_name_of(p).len() == 2 * digest::blake3_of(vstd::utf8::encode_utf8(p)).len() + 4,
        entry_name_of(p) == entry_name_of(q) ==> digest::blake3_of(vstd::utf8::encode_utf8(p))
            == digest::blake3_of(vstd::utf8::encode_utf8(q)),
{
    reveal_strlit(".sig");
    let a = digest::blake3_of(vstd::utf8::encode_utf8(p));
    let b = digest::blake3_of(vstd::utf8::encode_utf8(q));
    digest::lemma_hex_len(a);
    digest::lemma_hex_len(b);
    if entry_name_of(p) == entry_name_of(q) {
        assert(entry_name_of(p).len() == 2 * a.len() + 4);
        assert(entry_name_of(q).len() == 2 * b.len() + 4);
        assert(a.len() == b.len());
        let n = 2 * a.len();
        assert(entry_name_of(p).take(n as int) =~= digest::hex_of(a));
        assert(entry_name_of(q).take(n as int) =~= digest::hex_of(b));
        assert forall|i: int| 0 <= i < a.len() implies a[i] == b[i] by {
            digest::law_hexadecimal_reads_back(a, i);
            digest::law_hexadecimal_reads_back(b, i);
        }
        assert(a =~= b);
    }
}

} // verus!
