//! The index as mathematics: a sequence of entries, in the order in which
//! their keys first arrived.

use crate::embedding::{normalized, EMBEDDING_DIMENSION};
use crate::hashing::key_of;
use crate::types::Candidate;
use vstd::prelude::*;

verus! {

/// One stored item: an identifier, the key derived from it and an embedding.
pub struct Entry {
    pub key: u64,
    pub id: Seq<char>,
    pub embedding: Seq<u32>,
}

/// The bytes of the identifier can be counted in 64 bits: true of every
/// string that a program holds.
pub open spec fn storable(id: Seq<char>) -> bool {
    vstd::utf8::encode_utf8(id).len() <= u64::MAX
}

/// The entry's key is the key of its identifier, its embedding has the
/// fixed length, and its identifier is storable.
pub open spec fn valid_entry(e: Entry) -> bool {
    &&& e.key == key_of(e.id)
    &&& e.embedding.len() == EMBEDDING_DIMENSION
    &&& storable(e.id)
}

/// Some entry of `es` carries `key`.
pub open spec fn has_key(es: Seq<Entry>, key: u64) -> bool {
    exists|i: int| 0 <= i < es.len() && (#[trigger] es[i]).key == key
}

/// No two entries share a key.
pub open spec fn distinct_keys(es: Seq<Entry>) -> bool {
    forall|i: int, j: int|
        0 <= i < j < es.len() ==> (#[trigger] es[i]).key != (#[trigger] es[j]).key
}

/// What every index holds: valid entries under pairwise distinct keys.
pub open spec fn valid_entries(es: Seq<Entry>) -> bool {
    &&& forall|i: int| 0 <= i < es.len() ==> valid_entry(#[trigger] es[i])
    &&& distinct_keys(es)
}

/// The entry that stands for an identifier and an embedding as handed in.
pub open spec fn entry_of(id: Seq<char>, embedding: Seq<u32>) -> Entry {
    Entry { key: key_of(id), id, embedding: normalized(embedding) }
}

/// A position at which `es` holds `key`; the only one where keys are
/// distinct.
pub open spec fn position_of(es: Seq<Entry>, key: u64) -> int {
    choose|i: int| 0 <= i < es.len() && (#[trigger] es[i]).key == key
}

/// `es` after writing `e`: in the place of the entry that has its key, or
/// at the end where none has.
pub open spec fn upserted(es: Seq<Entry>, e: Entry) -> Seq<Entry> {
    if has_key(es, e.key) {
        es.update(position_of(es, e.key), e)
    } else {
        es.push(e)
    }
}

/// The entries of `es` whose key is not among `keys`.
pub open spec fn without_keys(es: Seq<Entry>, keys: Seq<u64>) -> Seq<Entry> {
    es.filter(|e: Entry| !keys.contains(e.key))
}

/// The keys of the entries, in their order.
pub open spec fn keys_of(es: Seq<Entry>) -> Seq<u64> {
    es.map_values(|e: Entry| e.key)
}

/// The keys of the identifiers, in their order.
pub open spec fn keys_of_ids(ids: Seq<Seq<char>>) -> Seq<u64> {
    ids.map_values(|id: Seq<char>| key_of(id))
}

/// The index built from the first `data.len()` pairs of an identifier and
/// an embedding, written one after another.
pub open spec fn built(ids: Seq<Seq<char>>, data: Seq<Seq<u32>>) -> Seq<Entry>
    decreases data.len(),
{
    if data.len() == 0 {
        Seq::empty()
    } else {
        upserted(built(ids, data.drop_last()), entry_of(ids[data.len() - 1], data.last()))
    }
}

/// The identifiers among `ids` whose key no entry has, in their order.
pub open spec fn missing_ids(es: Seq<Entry>, ids: Seq<Seq<char>>) -> Seq<Seq<char>> {
    ids.filter(|id: Seq<char>| !has_key(es, key_of(id)))
}

/// Every identifier has its key among the entries, and no key comes twice.
pub open spec fn removable(es: Seq<Entry>, ids: Seq<Seq<char>>) -> bool {
    &&& keys_of_ids(ids).no_duplicates()
    &&& forall|i: int| 0 <= i < ids.len() ==> has_key(es, key_of(#[trigger] ids[i]))
}

/// An identifier with the distance at which a ranking found it.
pub struct Hit {
    pub id: Seq<char>,
    pub distance: u32,
}

/// The candidates whose key an entry has, each under that entry's
/// identifier, in the order of the ranking.
pub open spec fn resolved(es: Seq<Entry>, ranked: Seq<Candidate>) -> Seq<Hit>
    decreases ranked.len(),
{
    if ranked.len() == 0 {
        Seq::empty()
    } else {
        let front = resolved(es, ranked.drop_last());
        let last = ranked.last();
        if has_key(es, last.item) {
            front.push(Hit { id: es[position_of(es, last.item)].id, distance: last.distance })
        } else {
            front
        }
    }
}

/// The results of a search for `k` neighbours: the first `k` candidates of
/// the ranking, resolved.
pub open spec fn answered(es: Seq<Entry>, ranked: Seq<Candidate>, k: nat) -> Seq<Hit> {
    resolved(
        es,
        ranked.take(
            if k < ranked.len() {
                k as int
            } else {
                ranked.len() as int
            },
        ),
    )
}

/// Dropping keys keeps the entries valid, and leaves exactly the keys that
/// were not dropped.
pub proof fn lemma_without_keys(es: Seq<Entry>, keys: Seq<u64>)
    requires
        valid_entries(es),
    ensures
        valid_entries(without_keys(es, keys)),
        forall|k: u64|
            has_key(without_keys(es, keys), k) <==> (has_key(es, k) && !keys.contains(k)),
        forall|i: int|
            0 <= i < without_keys(es, keys).len() ==> es.contains(
                #[trigger] without_keys(es, keys)[i],
            ),
    decreases es.len(),
{
    let keep = |e: Entry| !keys.contains(e.key);
    let out = without_keys(es, keys);
    if es.len() == 0 {
        es.lemma_filter_len(keep);
        assert(out.len() == 0);
    } else {
        let front = es.drop_last();
        let last = es.last();
        assert(es =~= front.push(last));
        front.lemma_filter_push(last, keep);
        lemma_without_keys(front, keys);
        let front_out = without_keys(front, keys);
        assert forall|i: int| 0 <= i < out.len() implies es.contains(#[trigger] out[i]) by {
            if i < front_out.len() {
                assert(front.contains(front_out[i]));
                let j = choose|j: int| 0 <= j < front.len() && front[j] == front_out[i];
                assert(es[j] == out[i]);
            } else {
                assert(es[es.len() - 1] == out[i]);
            }
        }
        assert forall|k: u64| has_key(out, k) <==> (has_key(es, k) && !keys.contains(k)) by {
            if has_key(out, k) {
                let i = choose|i: int| 0 <= i < out.len() && (#[trigger] out[i]).key == k;
                if i < front_out.len() {
                    assert(front_out[i].key == k);
                    assert(has_key(front_out, k));
                    let j = choose|j: int| 0 <= j < front.len() && (#[trigger] front[j]).key == k;
                    assert(es[j].key == k);
                } else {
                    assert(es[es.len() - 1].key == k);
                }
            }
            if has_key(es, k) && !keys.contains(k) {
                let j = choose|j: int| 0 <= j < es.len() && (#[trigger] es[j]).key == k;
                if j < front.len() {
                    assert(front[j].key == k);
                    assert(has_key(front, k));
                    let i = choose|i: int|
                        0 <= i < front_out.len() && (#[trigger] front_out[i]).key == k;
                    assert(out[i].key == k);
                } else {
                    assert(keep(last));
                    assert(out[out.len() - 1].key == k);
                }
            }
        }
        assert forall|i: int, j: int| 0 <= i < j < out.len() implies (#[trigger] out[i]).key != (
        #[trigger] out[j]).key by {
            if j < front_out.len() {
                assert(front_out[i].key != front_out[j].key);
            } else {
                assert(front_out[i].key == out[i].key);
                assert(has_key(front_out, out[i].key));
                let a = choose|a: int|
                    0 <= a < front.len() && (#[trigger] front[a]).key == out[i].key;
                assert(es[a].key != es[es.len() - 1].key);
            }
        }
        assert forall|i: int| 0 <= i < out.len() implies valid_entry(#[trigger] out[i]) by {
            if i < front_out.len() {
                assert(valid_entry(front_out[i]));
            } else {
                assert(valid_entry(es[es.len() - 1]));
            }
        }
    }
}

/// Writing a valid entry keeps the entries valid, adds its key to theirs,
/// and adds to their number only where the key is new.
pub proof fn lemma_upserted(es: Seq<Entry>, e: Entry)
    requires
        valid_entries(es),
        valid_entry(e),
    ensures
        valid_entries(upserted(es, e)),
        forall|k: u64| has_key(upserted(es, e), k) <==> (has_key(es, k) || k == e.key),
        upserted(es, e).len() == if has_key(es, e.key) {
            es.len()
        } else {
            es.len() + 1
        },
{
    let out = upserted(es, e);
    if has_key(es, e.key) {
        let p = position_of(es, e.key);
        assert(es[p].key == e.key);
        assert forall|i: int| 0 <= i < out.len() implies (#[trigger] out[i]).key == es[i].key by {}
        assert forall|i: int, j: int| 0 <= i < j < out.len() implies (#[trigger] out[i]).key != (
        #[trigger] out[j]).key by {
            assert(es[i].key != es[j].key);
        }
        assert forall|i: int| 0 <= i < out.len() implies valid_entry(#[trigger] out[i]) by {
            if i != p {
                assert(valid_entry(es[i]));
            }
        }
        assert forall|k: u64| has_key(out, k) <==> (has_key(es, k) || k == e.key) by {
            if has_key(out, k) {
                let i = choose|i: int| 0 <= i < out.len() && (#[trigger] out[i]).key == k;
                assert(es[i].key == k);
            }
            if has_key(es, k) {
                let i = choose|i: int| 0 <= i < es.len() && (#[trigger] es[i]).key == k;
                assert(out[i].key == k);
            }
            if k == e.key {
                assert(out[p].key == k);
            }
        }
    } else {
        assert forall|i: int, j: int| 0 <= i < j < out.len() implies (#[trigger] out[i]).key != (
        #[trigger] out[j]).key by {
            if j < es.len() {
                assert(es[i].key != es[j].key);
            } else {
                assert(es[i].key == out[i].key);
            }
        }
        assert forall|i: int| 0 <= i < out.len() implies valid_entry(#[trigger] out[i]) by {
            if i < es.len() {
                assert(valid_entry(es[i]));
            }
        }
        assert forall|k: u64| has_key(out, k) <==> (has_key(es, k) || k == e.key) by {
            if has_key(out, k) {
                let i = choose|i: int| 0 <= i < out.len() && (#[trigger] out[i]).key == k;
                if i < es.len() {
                    assert(es[i].key == k);
                }
            }
            if has_key(es, k) {
                let i = choose|i: int| 0 <= i < es.len() && (#[trigger] es[i]).key == k;
                assert(out[i].key == k);
            }
            if k == e.key {
                assert(out[es.len() as int].key == k);
            }
        }
    }
}

/// A built index is valid and holds exactly the keys of the identifiers
/// that went into it.
pub proof fn lemma_built(ids: Seq<Seq<char>>, data: Seq<Seq<u32>>)
    requires
        data.len() <= ids.len(),
        forall|i: int| 0 <= i < data.len() ==> storable(#[trigger] ids[i]),
    ensures
        valid_entries(built(ids, data)),
        forall|k: u64|
            has_key(built(ids, data), k) <==> keys_of_ids(ids.take(data.len() as int)).contains(k),
    decreases data.len(),
{
    let n = data.len() as int;
    let out = built(ids, data);
    let keys = keys_of_ids(ids.take(n));
    if n == 0 {
        assert(out.len() == 0);
        assert(keys.len() == 0);
    } else {
        let front = built(ids, data.drop_last());
        let e = entry_of(ids[n - 1], data.last());
        let keys_front = keys_of_ids(ids.take(n - 1));
        assert(out == upserted(front, e));
        assert(valid_entry(e));
        lemma_built(ids, data.drop_last());
        lemma_upserted(front, e);
        assert(keys.len() == n && keys_front.len() == n - 1);
        assert(keys[n - 1] == e.key);
        assert(forall|i: int| 0 <= i < n - 1 ==> keys[i] == keys_front[i]);
        assert forall|k: u64| keys.contains(k) <==> (keys_front.contains(k) || k == e.key) by {
            if keys.contains(k) {
                let i = choose|i: int| 0 <= i < keys.len() && keys[i] == k;
                if i < n - 1 {
                    assert(keys_front[i] == k);
                }
            }
            if keys_front.contains(k) {
                let i = choose|i: int| 0 <= i < keys_front.len() && keys_front[i] == k;
                assert(keys[i] == k);
            }
        }
        assert forall|k: u64| has_key(out, k) <==> keys.contains(k) by {
            assert(has_key(out, k) <==> (has_key(front, k) || k == e.key));
            assert(has_key(front, k) <==> keys_front.contains(k));
        }
    }
}

/// Entries under distinct keys are as many as their keys.
pub proof fn lemma_key_count(es: Seq<Entry>)
    requires
        distinct_keys(es),
    ensures
        keys_of(es).no_duplicates(),
        keys_of(es).to_set().finite(),
        keys_of(es).to_set().len() == es.len(),
        forall|k: u64| keys_of(es).to_set().contains(k) <==> has_key(es, k),
{
    let ks = keys_of(es);
    assert forall|i: int, j: int| 0 <= i < ks.len() && 0 <= j < ks.len() && i != j implies ks[i]
        != ks[j] by {
        if i < j {
            assert(es[i].key != es[j].key);
        } else {
            assert(es[j].key != es[i].key);
        }
    }
    ks.unique_seq_to_set();
    vstd::seq_lib::seq_to_set_is_finite(ks);
    assert forall|k: u64| ks.to_set().contains(k) <==> has_key(es, k) by {
        if ks.to_set().contains(k) {
            let i = choose|i: int| 0 <= i < ks.len() && ks[i] == k;
            assert(es[i].key == k);
        }
        if has_key(es, k) {
            let i = choose|i: int| 0 <= i < es.len() && (#[trigger] es[i]).key == k;
            assert(ks[i] == k);
        }
    }
}

/// A built index has one entry for each key that went into it.
pub proof fn lemma_built_len(ids: Seq<Seq<char>>, data: Seq<Seq<u32>>)
    requires
        data.len() <= ids.len(),
        forall|i: int| 0 <= i < data.len() ==> storable(#[trigger] ids[i]),
    ensures
        built(ids, data).len() == keys_of_ids(ids.take(data.len() as int)).to_set().len(),
        keys_of_ids(ids.take(data.len() as int)).no_duplicates() ==> built(ids, data).len()
            == data.len(),
{
    let out = built(ids, data);
    let keys = keys_of_ids(ids.take(data.len() as int));
    lemma_built(ids, data);
    lemma_key_count(out);
    assert forall|k: u64| keys_of(out).to_set().contains(k) <==> keys.to_set().contains(k) by {
        assert(keys_of(out).to_set().contains(k) <==> has_key(out, k));
        assert(has_key(out, k) <==> keys.contains(k));
    }
    assert(keys_of(out).to_set() =~= keys.to_set());
    if keys.no_duplicates() {
        keys.unique_seq_to_set();
    }
}

/// Dropping distinct keys that are all present takes away one entry for
/// each.
pub proof fn lemma_without_keys_len(es: Seq<Entry>, keys: Seq<u64>)
    requires
        valid_entries(es),
        keys.no_duplicates(),
        forall|i: int| 0 <= i < keys.len() ==> has_key(es, #[trigger] keys[i]),
    ensures
        without_keys(es, keys).len() == es.len() - keys.len(),
{
    let out = without_keys(es, keys);
    lemma_without_keys(es, keys);
    lemma_key_count(es);
    lemma_key_count(out);
    keys.unique_seq_to_set();
    vstd::seq_lib::seq_to_set_is_finite(keys);
    let all = keys_of(es).to_set();
    let gone = keys.to_set();
    assert(keys_of(out).to_set() =~= all.difference(gone));
    assert(all.intersect(gone) =~= gone) by {
        assert forall|k: u64| gone.contains(k) implies all.contains(k) by {
            let i = choose|i: int| 0 <= i < keys.len() && keys[i] == k;
            assert(has_key(es, keys[i]));
        }
    }
    vstd::set_lib::lemma_set_difference_len(all, gone);
}

} // verus!
