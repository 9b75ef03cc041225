//! The persisted form of an index, before compression.
//!
//! All numbers are little-endian.
//!
//! ```text
//! header:  format version (32 bits), dimension (32 bits),
//!          bucket capacity (32 bits), number of entries (64 bits)
//! entry:   key (64 bits), number of identifier bytes (64 bits),
//!          the identifier in UTF-8, the coordinates (32 bits each)
//! ```

use crate::embedding::{normalized, EMBEDDING_DIMENSION};
use crate::hashing::{hash, key_of};
use crate::index::{Index, BUCKET_SIZE};
use crate::model::{distinct_keys, entry_of, position_of, valid_entries, Entry};
use vstd::bytes::{
    lemma_auto_spec_u32_to_from_le_bytes, lemma_auto_spec_u64_to_from_le_bytes,
    spec_u32_from_le_bytes, spec_u32_to_le_bytes, spec_u64_from_le_bytes, spec_u64_to_le_bytes,
    u32_from_le_bytes, u32_to_le_bytes, u64_from_le_bytes, u64_to_le_bytes,
};
use vstd::prelude::*;
use vstd::slice::{slice_subrange, slice_to_vec};
use vstd::utf8::{decode_utf8, encode_utf8, valid_utf8};

verus! {

/// The version of the layout that this library writes and reads.
pub const FORMAT_VERSION: u32 = 1;

/// Number of bytes of the header.
pub const HEADER_BYTES: usize = 20;

/// Number of bytes of one stored embedding.
pub const EMBEDDING_BYTES: usize = 4 * EMBEDDING_DIMENSION;

/// The coordinates one after another, four bytes each.
pub open spec fn words_bytes(words: Seq<u32>) -> Seq<u8>
    decreases words.len(),
{
    if words.len() == 0 {
        Seq::empty()
    } else {
        words_bytes(words.drop_last()) + spec_u32_to_le_bytes(words.last())
    }
}

/// The coordinates that `bytes` hold, four bytes each.
pub open spec fn bytes_words(bytes: Seq<u8>) -> Seq<u32> {
    Seq::new(
        (bytes.len() / 4) as nat,
        |i: int| spec_u32_from_le_bytes(bytes.subrange(4 * i, 4 * i + 4)),
    )
}

/// The bytes of one entry.
pub open spec fn entry_bytes(e: Entry) -> Seq<u8> {
    spec_u64_to_le_bytes(e.key) + spec_u64_to_le_bytes(encode_utf8(e.id).len() as u64)
        + encode_utf8(e.id) + words_bytes(e.embedding)
}

/// The bytes of the entries, one after another.
pub open spec fn entries_bytes(es: Seq<Entry>) -> Seq<u8>
    decreases es.len(),
{
    if es.len() == 0 {
        Seq::empty()
    } else {
        entries_bytes(es.drop_last()) + entry_bytes(es.last())
    }
}

/// The header of an index of `count` entries.
pub open spec fn header_bytes(count: u64) -> Seq<u8> {
    spec_u32_to_le_bytes(FORMAT_VERSION) + spec_u32_to_le_bytes(EMBEDDING_DIMENSION as u32)
        + spec_u32_to_le_bytes(BUCKET_SIZE as u32) + spec_u64_to_le_bytes(count)
}

/// The persisted form of the entries.
pub open spec fn encoded(es: Seq<Entry>) -> Seq<u8> {
    header_bytes(es.len() as u64) + entries_bytes(es)
}

/// Appends the four bytes of `word`.
fn push_u32(out: &mut Vec<u8>, word: u32)
    ensures
        final(out)@ == old(out)@ + spec_u32_to_le_bytes(word),
{
    let mut bytes = u32_to_le_bytes(word);
    out.append(&mut bytes);
}

/// Appends the eight bytes of `word`.
fn push_u64(out: &mut Vec<u8>, word: u64)
    ensures
        final(out)@ == old(out)@ + spec_u64_to_le_bytes(word),
{
    let mut bytes = u64_to_le_bytes(word);
    out.append(&mut bytes);
}

/// Appends the bytes of the coordinates.
fn push_words(out: &mut Vec<u8>, words: &Vec<u32>)
    ensures
        final(out)@ == old(out)@ + words_bytes(words@),
{
    let mut i: usize = 0;
    proof {
        assert(out@ =~= old(out)@ + words_bytes(words@.take(0)));
    }
    while i < words.len()
        invariant
            i <= words.len(),
            out@ == old(out)@ + words_bytes(words@.take(i as int)),
        decreases words.len() - i,
    {
        proof {
            assert(words@.take(i + 1).drop_last() =~= words@.take(i as int));
        }
        push_u32(out, words[i]);
        proof {
            assert(out@ =~= old(out)@ + words_bytes(words@.take(i + 1)));
        }
        i += 1;
    }
    proof {
        assert(words@.take(i as int) =~= words@);
    }
}

/// Writes the persisted form of `index`, which `decode` reads back as the
/// same entries.
pub fn encode(index: &Index) -> (out: Vec<u8>)
    ensures
        out@ == encoded(index@),
        decoded(out@) == Some(index@),
{
    let count = index.len();
    let points = index.points();
    let mut out: Vec<u8> = Vec::new();
    push_u32(&mut out, FORMAT_VERSION);
    push_u32(&mut out, EMBEDDING_DIMENSION as u32);
    push_u32(&mut out, BUCKET_SIZE as u32);
    push_u64(&mut out, count as u64);
    let ghost es = index@;
    let ghost header = header_bytes(es.len() as u64);
    let mut i: usize = 0;
    proof {
        assert(out@ =~= header + entries_bytes(es.take(0)));
    }
    while i < count
        invariant
            i <= count,
            count == es.len(),
            es == index@,
            valid_entries(es),
            points@.len() == es.len(),
            forall|j: int|
                0 <= j < points@.len() ==> {
                    &&& (#[trigger] points@[j]).key == es[j].key
                    &&& points@[j].embedding@ == es[j].embedding
                },
            out@ == header + entries_bytes(es.take(i as int)),
        decreases count - i,
    {
        let point = &points[i];
        proof {
            assert(es.take(i + 1).drop_last() =~= es.take(i as int));
            assert(es.take(i + 1).last() == es[i as int]);
            assert(es[i as int].key == point.key);
            let p = position_of(es, point.key);
            assert(es[p].key == point.key);
            if p < i {
                assert(es[p].key != es[i as int].key);
            } else if i < p {
                assert(es[i as int].key != es[p].key);
            }
        }
        let id = index.get(point.key).unwrap();
        let raw = id.as_str().as_bytes();
        let mut copy = slice_to_vec(raw);
        push_u64(&mut out, point.key);
        push_u64(&mut out, raw.len() as u64);
        out.append(&mut copy);
        push_words(&mut out, &point.embedding);
        proof {
            assert(out@ =~= header + entries_bytes(es.take(i + 1)));
        }
        i += 1;
    }
    proof {
        assert(es.take(i as int) =~= es);
        lemma_decoded_encoded(es);
    }
    out
}

/// The entry that starts at position `at` of `bytes`, with the position
/// after it; nothing where the bytes end too early, the identifier is not
/// UTF-8, or the key is not that of the identifier.
pub open spec fn parsed_entry(bytes: Seq<u8>, at: int) -> Option<(Entry, int)> {
    if at < 0 || bytes.len() - at < 16 {
        None
    } else {
        let key = spec_u64_from_le_bytes(bytes.subrange(at, at + 8));
        let n = spec_u64_from_le_bytes(bytes.subrange(at + 8, at + 16)) as int;
        let end = at + 16 + n + EMBEDDING_BYTES;
        let raw = bytes.subrange(at + 16, at + 16 + n);
        if bytes.len() < end || !valid_utf8(raw) || key_of(decode_utf8(raw)) != key {
            None
        } else {
            Some(
                (
                    Entry {
                        key,
                        id: decode_utf8(raw),
                        embedding: bytes_words(bytes.subrange(at + 16 + n, end)),
                    },
                    end,
                ),
            )
        }
    }
}

/// The `count` entries that fill `bytes` from position `at` to the end.
pub open spec fn parsed_entries(bytes: Seq<u8>, at: int, count: nat) -> Option<Seq<Entry>>
    decreases count,
{
    if count == 0 {
        if at == bytes.len() {
            Some(Seq::empty())
        } else {
            None
        }
    } else {
        match parsed_entry(bytes, at) {
            None => None,
            Some((e, next)) => match parsed_entries(bytes, next, (count - 1) as nat) {
                None => None,
                Some(rest) => Some(seq![e] + rest),
            },
        }
    }
}

/// The entries that `bytes` persist; nothing where `bytes` are not the
/// persisted form of an index.
pub open spec fn decoded(bytes: Seq<u8>) -> Option<Seq<Entry>> {
    if bytes.len() < HEADER_BYTES {
        None
    } else if spec_u32_from_le_bytes(bytes.subrange(0, 4)) != FORMAT_VERSION
        || spec_u32_from_le_bytes(bytes.subrange(4, 8)) != EMBEDDING_DIMENSION
        || spec_u32_from_le_bytes(bytes.subrange(8, 12)) != BUCKET_SIZE {
        None
    } else {
        checked(
            parsed_entries(
                bytes,
                HEADER_BYTES as int,
                spec_u64_from_le_bytes(bytes.subrange(12, 20)) as nat,
            ),
        )
    }
}

/// Stored coordinates take four bytes each.
pub proof fn lemma_words_bytes_len(words: Seq<u32>)
    ensures
        words_bytes(words).len() == 4 * words.len(),
    decreases words.len(),
{
    lemma_auto_spec_u32_to_from_le_bytes();
    if words.len() > 0 {
        lemma_words_bytes_len(words.drop_last());
    }
}

/// Reading stored coordinates gives them back.
pub proof fn lemma_words_round_trip(words: Seq<u32>)
    ensures
        bytes_words(words_bytes(words)) == words,
    decreases words.len(),
{
    lemma_auto_spec_u32_to_from_le_bytes();
    lemma_words_bytes_len(words);
    if words.len() > 0 {
        let front = words.drop_last();
        let bytes = words_bytes(words);
        lemma_words_round_trip(front);
        lemma_words_bytes_len(front);
        assert forall|i: int| 0 <= i < words.len() implies bytes_words(bytes)[i] == words[i] by {
            if i < front.len() {
                assert(bytes.subrange(4 * i, 4 * i + 4) =~= words_bytes(front).subrange(
                    4 * i,
                    4 * i + 4,
                ));
                assert(bytes_words(words_bytes(front))[i] == front[i]);
            } else {
                assert(bytes.subrange(4 * i, 4 * i + 4) =~= spec_u32_to_le_bytes(words.last()));
            }
        }
    }
    assert(bytes_words(words_bytes(words)) =~= words);
}

/// Number of bytes of a stored entry.
pub proof fn lemma_entry_bytes_len(e: Entry)
    ensures
        entry_bytes(e).len() == 16 + encode_utf8(e.id).len() + 4 * e.embedding.len(),
{
    lemma_auto_spec_u64_to_from_le_bytes();
    lemma_words_bytes_len(e.embedding);
}

/// A stored entry is read back as it was, wherever it stands.
pub proof fn lemma_parsed_entry(front: Seq<u8>, e: Entry, back: Seq<u8>)
    requires
        e.key == key_of(e.id),
        e.embedding.len() == EMBEDDING_DIMENSION,
        encode_utf8(e.id).len() <= u64::MAX,
    ensures
        parsed_entry(front + entry_bytes(e) + back, front.len() as int) == Some(
            (e, (front.len() + entry_bytes(e).len()) as int),
        ),
{
    lemma_auto_spec_u64_to_from_le_bytes();
    lemma_words_bytes_len(e.embedding);
    lemma_words_round_trip(e.embedding);
    lemma_entry_bytes_len(e);
    vstd::utf8::encode_utf8_valid_utf8(e.id);
    vstd::utf8::encode_utf8_decode_utf8(e.id);
    let raw = encode_utf8(e.id);
    let n = raw.len() as int;
    let bytes = front + entry_bytes(e) + back;
    let at = front.len() as int;
    assert(bytes.subrange(at, at + 8) =~= spec_u64_to_le_bytes(e.key));
    assert(bytes.subrange(at + 8, at + 16) =~= spec_u64_to_le_bytes(n as u64));
    assert(bytes.subrange(at + 16, at + 16 + n) =~= raw);
    assert(bytes.subrange(at + 16 + n, at + 16 + n + EMBEDDING_BYTES) =~= words_bytes(
        e.embedding,
    ));
}

/// The bytes of entries, seen from the first one.
pub proof fn lemma_entries_bytes_front(es: Seq<Entry>)
    requires
        es.len() > 0,
    ensures
        entries_bytes(es) == entry_bytes(es[0]) + entries_bytes(es.drop_first()),
    decreases es.len(),
{
    if es.len() == 1 {
        assert(es.drop_last() =~= Seq::<Entry>::empty());
        assert(es.drop_first() =~= Seq::<Entry>::empty());
        assert(entries_bytes(es) =~= entry_bytes(es[0]) + entries_bytes(es.drop_first()));
    } else {
        let inner = es.drop_last();
        lemma_entries_bytes_front(inner);
        assert(inner.drop_first() =~= es.drop_first().drop_last());
        assert(es.drop_first().last() == es.last());
        assert(entries_bytes(es) =~= entry_bytes(es[0]) + entries_bytes(es.drop_first()));
    }
}

/// Stored entries are read back as they were.
pub proof fn lemma_parsed_entries(front: Seq<u8>, es: Seq<Entry>)
    requires
        forall|i: int|
            0 <= i < es.len() ==> {
                &&& (#[trigger] es[i]).key == key_of(es[i].id)
                &&& es[i].embedding.len() == EMBEDDING_DIMENSION
                &&& encode_utf8(es[i].id).len() <= u64::MAX
            },
    ensures
        parsed_entries(front + entries_bytes(es), front.len() as int, es.len()) == Some(es),
    decreases es.len(),
{
    let bytes = front + entries_bytes(es);
    if es.len() == 0 {
        assert(bytes =~= front);
    } else {
        let first = es[0];
        let rest = es.drop_first();
        lemma_entries_bytes_front(es);
        lemma_parsed_entry(front, first, entries_bytes(rest));
        assert(bytes =~= front + entry_bytes(first) + entries_bytes(rest));
        let next = front + entry_bytes(first);
        assert forall|i: int| 0 <= i < rest.len() implies {
            &&& (#[trigger] rest[i]).key == key_of(rest[i].id)
            &&& rest[i].embedding.len() == EMBEDDING_DIMENSION
            &&& encode_utf8(rest[i].id).len() <= u64::MAX
        } by {
            assert(rest[i] == es[i + 1]);
        }
        lemma_parsed_entries(next, rest);
        assert(seq![first] + rest =~= es);
    }
}

/// Reading the persisted form of valid entries gives them back.
pub proof fn lemma_decoded_encoded(es: Seq<Entry>)
    requires
        valid_entries(es),
        es.len() <= u64::MAX,
    ensures
        decoded(encoded(es)) == Some(es),
{
    lemma_auto_spec_u32_to_from_le_bytes();
    lemma_auto_spec_u64_to_from_le_bytes();
    let header = header_bytes(es.len() as u64);
    let bytes = encoded(es);
    assert(header.len() == HEADER_BYTES);
    assert(bytes.subrange(0, 4) =~= spec_u32_to_le_bytes(FORMAT_VERSION));
    assert(bytes.subrange(4, 8) =~= spec_u32_to_le_bytes(EMBEDDING_DIMENSION as u32));
    assert(bytes.subrange(8, 12) =~= spec_u32_to_le_bytes(BUCKET_SIZE as u32));
    assert(bytes.subrange(12, 20) =~= spec_u64_to_le_bytes(es.len() as u64));
    lemma_parsed_entries(header, es);
}

/// `String::from_utf8` of std. Trusted: it gives a string exactly where the
/// bytes are UTF-8, and the string is then the text that they encode.
#[verifier::external_body]
fn string_from_utf8(bytes: Vec<u8>) -> (text: Option<String>)
    ensures
        text is Some == valid_utf8(bytes@),
        text matches Some(s) ==> s@ == decode_utf8(bytes@),
{
    String::from_utf8(bytes).ok()
}

/// The 32-bit number at position `at`.
fn read_u32(bytes: &Vec<u8>, at: usize) -> (word: u32)
    requires
        at + 4 <= bytes.len(),
    ensures
        word == spec_u32_from_le_bytes(bytes@.subrange(at as int, at + 4)),
{
    u32_from_le_bytes(slice_subrange(bytes.as_slice(), at, at + 4))
}

/// The 64-bit number at position `at`.
fn read_u64(bytes: &Vec<u8>, at: usize) -> (word: u64)
    requires
        at + 8 <= bytes.len(),
    ensures
        word == spec_u64_from_le_bytes(bytes@.subrange(at as int, at + 8)),
{
    u64_from_le_bytes(slice_subrange(bytes.as_slice(), at, at + 8))
}

/// The embedding stored at position `at`.
fn read_words(bytes: &Vec<u8>, at: usize) -> (words: Vec<u32>)
    requires
        at + EMBEDDING_BYTES <= bytes.len(),
    ensures
        words@ == bytes_words(bytes@.subrange(at as int, at + EMBEDDING_BYTES)),
{
    let ghost region = bytes@.subrange(at as int, at + EMBEDDING_BYTES);
    let mut words: Vec<u32> = Vec::with_capacity(EMBEDDING_DIMENSION);
    let mut i: usize = 0;
    while i < EMBEDDING_DIMENSION
        invariant
            i <= EMBEDDING_DIMENSION,
            at + EMBEDDING_BYTES <= bytes.len(),
            region == bytes@.subrange(at as int, at + EMBEDDING_BYTES),
            words@.len() == i,
            forall|j: int| 0 <= j < i ==> words@[j] == bytes_words(region)[j],
        decreases EMBEDDING_DIMENSION - i,
    {
        proof {
            assert(region.subrange(4 * i, 4 * i + 4) =~= bytes@.subrange(
                at + 4 * i,
                at + 4 * i + 4,
            ));
        }
        words.push(read_u32(bytes, at + 4 * i));
        i += 1;
    }
    proof {
        assert(words@ =~= bytes_words(region));
    }
    words
}

/// Reads the entry that starts at position `at`: its identifier, its
/// embedding and the position after it.
fn decode_entry(bytes: &Vec<u8>, at: usize) -> (entry: Option<(String, Vec<u32>, usize)>)
    requires
        at <= bytes.len(),
    ensures
        entry is Some == parsed_entry(bytes@, at as int) is Some,
        entry matches Some((id, embedding, next)) ==> parsed_entry(bytes@, at as int) == Some(
            (Entry { key: key_of(id@), id: id@, embedding: embedding@ }, next as int),
        ) && embedding@.len() == EMBEDDING_DIMENSION,
{
    let left = bytes.len() - at;
    if left < 16 {
        return None;
    }
    let key = read_u64(bytes, at);
    let n = read_u64(bytes, at + 8);
    if n > (left - 16) as u64 {
        return None;
    }
    let n = n as usize;
    if left - 16 - n < EMBEDDING_BYTES {
        return None;
    }
    let start = at + 16;
    let raw = slice_to_vec(slice_subrange(bytes.as_slice(), start, start + n));
    match string_from_utf8(raw) {
        None => None,
        Some(id) => {
            if hash(id.as_str()) != key {
                return None;
            }
            let embedding = read_words(bytes, start + n);
            Some((id, embedding, start + n + EMBEDDING_BYTES))
        },
    }
}

/// The entries, where their keys are distinct.
pub open spec fn checked(parsed: Option<Seq<Entry>>) -> Option<Seq<Entry>> {
    match parsed {
        Some(es) => if distinct_keys(es) {
            Some(es)
        } else {
            None
        },
        None => None,
    }
}

/// `done` in front of what is still to come.
pub open spec fn joined(done: Seq<Entry>, coming: Option<Seq<Entry>>) -> Option<Seq<Entry>> {
    match coming {
        Some(rest) => Some(done + rest),
        None => None,
    }
}

/// Reads a persisted index, storing its entries one after another. Gives
/// nothing where `bytes` are not the persisted form of an index.
pub fn decode(bytes: &Vec<u8>) -> (index: Option<Index>)
    ensures
        index is Some == decoded(bytes@) is Some,
        index matches Some(found) ==> decoded(bytes@) == Some(found@),
{
    if bytes.len() < HEADER_BYTES {
        return None;
    }
    if read_u32(bytes, 0) != FORMAT_VERSION || read_u32(bytes, 4) != EMBEDDING_DIMENSION as u32
        || read_u32(bytes, 8) != BUCKET_SIZE as u32 {
        return None;
    }
    let count = read_u64(bytes, 12);
    let ghost whole = parsed_entries(bytes@, HEADER_BYTES as int, count as nat);
    let mut index = Index::new();
    let mut at: usize = HEADER_BYTES;
    let mut i: u64 = 0;
    proof {
        assert(joined(index@, whole) =~= whole) by {
            if let Some(rest) = whole {
                assert(index@ + rest =~= rest);
            }
        }
    }
    while i < count
        invariant
            i <= count,
            at <= bytes.len(),
            decoded(bytes@) == checked(whole),
            whole == joined(index@, parsed_entries(bytes@, at as int, (count - i) as nat)),
        decreases count - i,
    {
        let ghost done = index@;
        proof {
            assert(parsed_entries(bytes@, at as int, (count - i) as nat) == match parsed_entry(
                bytes@,
                at as int,
            ) {
                None => None,
                Some((e, next)) => match parsed_entries(bytes@, next, (count - i - 1) as nat) {
                    None => None,
                    Some(rest) => Some(seq![e] + rest),
                },
            });
        }
        match decode_entry(bytes, at) {
            None => {
                return None;
            },
            Some((id, embedding, next)) => {
                let ghost e = Entry { key: key_of(id@), id: id@, embedding: embedding@ };
                let ghost coming = parsed_entries(bytes@, next as int, (count - i - 1) as nat);
                proof {
                    assert(normalized(embedding@) =~= embedding@);
                    assert(entry_of(id@, embedding@) == e);
                }
                match index.insert(id, &embedding) {
                    Err(_) => {
                        proof {
                            if let Some(rest) = coming {
                                let es = done + (seq![e] + rest);
                                let p = choose|p: int|
                                    0 <= p < done.len() && (#[trigger] done[p]).key == e.key;
                                assert(es[p].key == es[done.len() as int].key);
                                assert(!distinct_keys(es));
                            }
                        }
                        return None;
                    },
                    Ok(()) => {
                        proof {
                            if let Some(rest) = coming {
                                assert(done + (seq![e] + rest) =~= done.push(e) + rest);
                            }
                        }
                    },
                }
                at = next;
            },
        }
        i += 1;
    }
    if at != bytes.len() {
        return None;
    }
    proof {
        use_type_invariant(&index);
        index.lemma_view_valid();
        assert(index@ + Seq::<Entry>::empty() =~= index@);
    }
    Some(index)
}

} // verus!
