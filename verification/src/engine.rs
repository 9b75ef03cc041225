//! The operations of the index.

use crate::codec::{decode, decoded, encode, encoded};
use crate::embedding::Embedding;
use crate::error::{duplicate_message, not_found_message, EngineError, ErrorKind};
use crate::gzip::{gunzip, gunzipped, gzip, gzipped};
use crate::hashing::{hash, key_of};
use crate::index::Index;
use crate::model::{
    answered, built, entry_of, has_key, keys_of_ids, lemma_built_len, lemma_without_keys_len,
    missing_ids, removable, resolved, storable, valid_entries, without_keys, Entry,
};
use crate::types::{Candidate, Neighbor, SearchResult};
use std::collections::HashSet;
use vstd::prelude::*;
use vstd::string::StringExecFns;

verus! {

broadcast use vstd::std_specs::hash::group_hash_axioms;

/// Builds an index from the embeddings in `data`, each under the identifier
/// at the same position of `ids`. Where two identifiers share a key, the
/// later pair replaces the earlier one.
pub fn index(data: &Vec<Embedding>, ids: &Vec<String>) -> (index: Index)
    requires
        data.len() <= ids.len(),
    ensures
        index@ == built(ids.deep_view(), data.deep_view()),
        index@.len() == keys_of_ids(ids.deep_view().take(data.len() as int)).to_set().len(),
        keys_of_ids(ids.deep_view().take(data.len() as int)).no_duplicates() ==> index@.len()
            == data.len(),
{
    let mut index = Index::new();
    let mut i: usize = 0;
    while i < data.len()
        invariant
            i <= data.len() <= ids.len(),
            index@ == built(ids.deep_view(), data.deep_view().take(i as int)),
            forall|j: int| 0 <= j < i ==> storable(#[trigger] ids.deep_view()[j]),
        decreases data.len() - i,
    {
        proof {
            let next = data.deep_view().take(i + 1);
            assert(next.drop_last() =~= data.deep_view().take(i as int));
            assert(next.last() == data[i as int]@);
            assert(ids.deep_view()[i as int] == ids[i as int]@);
        }
        index.upsert(ids[i].clone(), &data[i]);
        i += 1;
    }
    proof {
        assert(data.deep_view().take(i as int) =~= data.deep_view());
        lemma_built_len(ids.deep_view(), data.deep_view());
    }
    index
}

/// Answers a search for `k` neighbours from a ranking of keys, nearest
/// first: each of its first `k` candidates whose key the index holds comes
/// back under its identifier, in the order of the ranking; the others are
/// left out. For `k` zero, an empty ranking or an empty index, the answer is
/// empty.
pub fn search(index: &Index, ranked: &Vec<Candidate>, k: usize) -> (result: SearchResult)
    ensures
        result@ == answered(index@, ranked@, k as nat),
        result@.len() <= k,
        result@.len() <= ranked@.len(),
{
    let wanted = if k < ranked.len() {
        k
    } else {
        ranked.len()
    };
    let mut neighbors: Vec<Neighbor> = Vec::new();
    let mut i: usize = 0;
    while i < wanted
        invariant
            i <= wanted <= ranked.len(),
            neighbors@.len() <= i,
            neighbors@.map_values(|n: Neighbor| n@) == resolved(index@, ranked@.take(i as int)),
        decreases wanted - i,
    {
        proof {
            let next = ranked@.take(i + 1);
            assert(next.drop_last() =~= ranked@.take(i as int));
            assert(next.last() == ranked@[i as int]);
        }
        let candidate = ranked[i];
        let ghost before = neighbors@;
        match index.get(candidate.item) {
            Some(id) => {
                neighbors.push(Neighbor { id: id.clone(), distance: candidate.distance });
                proof {
                    assert(neighbors@.map_values(|n: Neighbor| n@) =~= before.map_values(
                        |n: Neighbor| n@,
                    ).push(neighbors@[before.len() as int]@));
                }
            },
            None => {},
        }
        i += 1;
    }
    SearchResult { neighbors }
}

/// Adds one entry: `query`, brought to the fixed length, under `id`. Fails
/// where the key of `id` is taken, and then changes nothing.
pub fn add(index: &mut Index, id: String, query: &Embedding) -> (outcome: Result<(), EngineError>)
    ensures
        outcome is Ok == !has_key(old(index)@, key_of(id@)),
        outcome is Ok ==> {
            &&& final(index)@ == old(index)@.push(entry_of(id@, query@))
            &&& final(index)@.len() == old(index)@.len() + 1
        },
        outcome matches Err(e) ==> {
            &&& final(index)@ == old(index)@
            &&& e.kind == ErrorKind::DuplicateId
            &&& e.ids.deep_view() == seq![id@]
            &&& e.message@ == duplicate_message(id@)
        },
{
    match index.insert(id, query) {
        Ok(()) => Ok(()),
        Err(back) => Err(EngineError::duplicate_id(back)),
    }
}

/// Removes the entries of all of `ids`, or none: where an identifier has no
/// entry, or two of them share a key, nothing is removed and the failure
/// names every identifier without an entry.
pub fn remove(index: &mut Index, ids: &Vec<String>) -> (outcome: Result<(), EngineError>)
    ensures
        outcome is Ok == removable(old(index)@, ids.deep_view()),
        outcome is Ok ==> {
            &&& final(index)@ == without_keys(old(index)@, keys_of_ids(ids.deep_view()))
            &&& final(index)@.len() == old(index)@.len() - ids.len()
        },
        outcome matches Err(e) ==> {
            &&& final(index)@ == old(index)@
            &&& e.kind == ErrorKind::NotFound
            &&& e.ids.deep_view() == missing_ids(old(index)@, ids.deep_view())
            &&& e.message@ == not_found_message(missing_ids(old(index)@, ids.deep_view()))
        },
{
    proof {
        use_type_invariant(&*index);
        index.lemma_view_valid();
    }
    let ghost es = index@;
    let ghost wanted = ids.deep_view();
    let ghost absent = |id: Seq<char>| !has_key(es, key_of(id));
    let mut hash_ids: Vec<u64> = Vec::new();
    let mut missing: Vec<String> = Vec::new();
    let mut seen: HashSet<u64> = HashSet::new();
    let mut repeated = false;
    let mut i: usize = 0;
    proof {
        wanted.take(0).lemma_filter_len(absent);
        assert(missing.deep_view() =~= wanted.take(0).filter(absent));
        assert(hash_ids@ =~= keys_of_ids(wanted.take(0)));
    }
    while i < ids.len()
        invariant
            i <= ids.len(),
            index@ == es,
            wanted == ids.deep_view(),
            absent == |id: Seq<char>| !has_key(es, key_of(id)),
            hash_ids@ == keys_of_ids(wanted.take(i as int)),
            missing.deep_view() == wanted.take(i as int).filter(absent),
            forall|k: u64| seen@.contains(k) <==> hash_ids@.contains(k),
            repeated == !hash_ids@.no_duplicates(),
        decreases ids.len() - i,
    {
        let key = hash(ids[i].as_str());
        let ghost keys_before = hash_ids@;
        let ghost missing_before = missing.deep_view();
        proof {
            assert(wanted[i as int] == ids[i as int]@);
            assert(wanted.take(i + 1) =~= wanted.take(i as int).push(wanted[i as int]));
            wanted.take(i as int).lemma_filter_push(wanted[i as int], absent);
        }
        if !index.contains(key) {
            missing.push(ids[i].clone());
            proof {
                assert(missing.deep_view() =~= missing_before.push(wanted[i as int]));
            }
        }
        if !seen.insert(key) {
            repeated = true;
        }
        hash_ids.push(key);
        proof {
            assert(hash_ids@ =~= keys_of_ids(wanted.take(i + 1)));
            assert forall|k: u64| hash_ids@.contains(k) <==> (keys_before.contains(k) || k
                == key) by {
                if hash_ids@.contains(k) {
                    let a = choose|a: int| 0 <= a < hash_ids@.len() && hash_ids@[a] == k;
                    if a < keys_before.len() {
                        assert(keys_before[a] == k);
                    }
                }
                if keys_before.contains(k) {
                    let a = choose|a: int| 0 <= a < keys_before.len() && keys_before[a] == k;
                    assert(hash_ids@[a] == k);
                }
                if k == key {
                    assert(hash_ids@[keys_before.len() as int] == k);
                }
            }
            if keys_before.no_duplicates() && !keys_before.contains(key) {
                assert forall|a: int, b: int|
                    0 <= a < hash_ids@.len() && 0 <= b < hash_ids@.len() && a
                        != b implies hash_ids@[a] != hash_ids@[b] by {
                    if a < keys_before.len() && b < keys_before.len() {
                        assert(keys_before[a] != keys_before[b]);
                    } else if a < keys_before.len() {
                        assert(keys_before[a] == hash_ids@[a]);
                    } else {
                        assert(keys_before[b] == hash_ids@[b]);
                    }
                }
            } else if !keys_before.no_duplicates() {
                let (a, b) = choose|a: int, b: int|
                    0 <= a < keys_before.len() && 0 <= b < keys_before.len() && a != b
                        && keys_before[a] == keys_before[b];
                assert(hash_ids@[a] == hash_ids@[b]);
            } else {
                let a = choose|a: int| 0 <= a < keys_before.len() && keys_before[a] == key;
                assert(hash_ids@[a] == hash_ids@[keys_before.len() as int]);
            }
        }
        i += 1;
    }
    proof {
        assert(wanted.take(i as int) =~= wanted);
        let gone = wanted.filter(absent);
        if gone.len() > 0 {
            wanted.lemma_filter_pred(absent, 0);
            assert(gone.contains(gone[0]));
            wanted.lemma_filter_contains_rev(absent, gone[0]);
            let a = choose|a: int| 0 <= a < wanted.len() && wanted[a] == gone[0];
            assert(!has_key(es, key_of(wanted[a])));
        } else {
            assert forall|a: int| 0 <= a < wanted.len() implies has_key(
                es,
                key_of(#[trigger] wanted[a]),
            ) by {
                if absent(wanted[a]) {
                    wanted.lemma_filter_contains(absent, a);
                }
            }
        }
    }
    if missing.len() > 0 || repeated {
        return Err(EngineError::not_found(missing));
    }
    proof {
        assert forall|a: int| 0 <= a < hash_ids@.len() implies has_key(
            es,
            #[trigger] hash_ids@[a],
        ) by {
            assert(hash_ids@[a] == key_of(wanted[a]));
        }
        lemma_without_keys_len(es, hash_ids@);
    }
    index.remove_keys(&hash_ids);
    Ok(())
}

/// Number of entries.
pub fn size(index: &Index) -> (n: usize)
    ensures
        n == index@.len(),
        valid_entries(index@),
{
    index.len()
}

/// Removes every entry.
pub fn clear(index: &mut Index)
    ensures
        final(index)@ == Seq::<Entry>::empty(),
{
    index.clear();
}

/// The entries that a compressed blob persists; nothing where the blob
/// does not unpack, or unpacks to bytes that are no persisted index.
pub open spec fn loaded(blob: Seq<u8>) -> Option<Seq<Entry>> {
    match gunzipped(blob) {
        Some(bytes) => decoded(bytes),
        None => None,
    }
}

/// Persists the index: its byte form, compressed. The index stays as it
/// is. A blob comes back exactly where packing the byte form gives one; it
/// is then that packing, is not empty, and loads to the same entries. Where
/// packing gives nothing, the failure is of kind `Other`.
pub fn dump(index: &mut Index) -> (outcome: Result<Vec<u8>, EngineError>)
    ensures
        final(index)@ == old(index)@,
        outcome is Ok == gzipped(encoded(old(index)@)) is Some,
        outcome matches Ok(blob) ==> {
            &&& gzipped(encoded(old(index)@)) == Some(blob@)
            &&& blob@.len() > 0
            &&& gunzipped(blob@) == Some(encoded(old(index)@))
            &&& loaded(blob@) == Some(old(index)@)
        },
        outcome matches Err(e) ==> {
            &&& e.kind == ErrorKind::Other
            &&& e.ids@.len() == 0
            &&& e.message@ == "Compression failed"@
        },
{
    let bytes = encode(index);
    match gzip(&bytes) {
        Some(blob) => Ok(blob),
        None => Err(EngineError::new(String::from_str("Compression failed"))),
    }
}

/// Rebuilds an index from a blob that `dump` wrote, storing its entries one
/// after another. Fails with `CorruptData` where the blob does not unpack
/// or its bytes are no persisted index.
pub fn load(data: &Vec<u8>) -> (outcome: Result<Index, EngineError>)
    ensures
        outcome is Ok == loaded(data@) is Some,
        outcome matches Ok(index) ==> loaded(data@) == Some(index@),
        outcome matches Err(e) ==> {
            &&& e.kind == ErrorKind::CorruptData
            &&& e.ids@.len() == 0
            &&& e.message@ == "Corrupt index data"@
        },
{
    match gunzip(data) {
        None => Err(EngineError::corrupt_data()),
        Some(bytes) => match decode(&bytes) {
            None => Err(EngineError::corrupt_data()),
            Some(index) => Ok(index),
        },
    }
}

} // verus!
