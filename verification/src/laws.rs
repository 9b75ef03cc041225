//! What holds of the index whatever it holds: statements over the entries
//! that the operations' contracts speak of.

use crate::codec::{encoded, lemma_decoded_encoded};
use crate::embedding::{normalized, EMBEDDING_DIMENSION};
use crate::engine::loaded;
use crate::gzip::gunzipped;
use crate::hashing::key_of;
use crate::model::{
    answered, built, distinct_keys, entry_of, has_key, keys_of, keys_of_ids, lemma_built_len,
    lemma_key_count, lemma_without_keys_len, missing_ids, position_of, removable, resolved,
    storable, valid_entries, without_keys, Entry, Hit,
};
use crate::types::Candidate;
use vstd::prelude::*;

verus! {

/// An added entry is found again: once `id` is added under a free key, a
/// ranking that names the key of `id` resolves to `id`, at the distance the
/// ranking gives; and what is stored is the embedding at the fixed length.
pub proof fn law_added_entry_resolves(
    es: Seq<Entry>,
    id: Seq<char>,
    embedding: Seq<u32>,
    distance: u32,
)
    requires
        valid_entries(es),
        !has_key(es, key_of(id)),
    ensures
        resolved(
            es.push(entry_of(id, embedding)),
            seq![Candidate { item: key_of(id), distance }],
        ) == seq![Hit { id, distance }],
        answered(
            es.push(entry_of(id, embedding)),
            seq![Candidate { item: key_of(id), distance }],
            1,
        ) == seq![Hit { id, distance }],
        es.push(entry_of(id, embedding)).last().embedding == normalized(embedding),
{
    let after = es.push(entry_of(id, embedding));
    let ranked = seq![Candidate { item: key_of(id), distance }];
    assert(after[es.len() as int].key == key_of(id));
    let p = position_of(after, key_of(id));
    assert(after[p].key == key_of(id));
    if p < es.len() {
        assert(es[p].key == key_of(id));
    }
    assert(ranked.drop_last() =~= Seq::<Candidate>::empty());
    assert(resolved(after, ranked.drop_last()) =~= Seq::<Hit>::empty());
    assert(resolved(after, ranked) =~= seq![Hit { id, distance }]);
    assert(ranked.take(1) =~= ranked);
}

/// A built index has one entry for each distinct key among the
/// identifiers that went into it; where their keys are all distinct, it has
/// as many entries as pairs went in.
pub proof fn law_size_after_index(ids: Seq<Seq<char>>, data: Seq<Seq<u32>>)
    requires
        data.len() <= ids.len(),
        forall|i: int| 0 <= i < data.len() ==> storable(#[trigger] ids[i]),
    ensures
        built(ids, data).len() == keys_of_ids(ids.take(data.len() as int)).to_set().len(),
        keys_of_ids(ids.take(data.len() as int)).no_duplicates() ==> built(ids, data).len()
            == data.len(),
{
    lemma_built_len(ids, data);
}

/// A successful removal takes away exactly as many entries as identifiers
/// were given.
pub proof fn law_size_after_remove(es: Seq<Entry>, ids: Seq<Seq<char>>)
    requires
        valid_entries(es),
        removable(es, ids),
    ensures
        without_keys(es, keys_of_ids(ids)).len() == es.len() - ids.len(),
{
    let keys = keys_of_ids(ids);
    assert forall|i: int| 0 <= i < keys.len() implies has_key(es, #[trigger] keys[i]) by {
        assert(keys[i] == key_of(ids[i]));
    }
    lemma_without_keys_len(es, keys);
}

/// An identifier without an entry makes a removal fail: the identifiers
/// are then not removable, and the failure names it.
pub proof fn law_remove_of_absent_fails(es: Seq<Entry>, ids: Seq<Seq<char>>, i: int)
    requires
        0 <= i < ids.len(),
        !has_key(es, key_of(ids[i])),
    ensures
        !removable(es, ids),
        missing_ids(es, ids).contains(ids[i]),
{
    ids.lemma_filter_contains(|id: Seq<char>| !has_key(es, key_of(id)), i);
}

/// What was persisted is loaded again as it was: a blob that unpacks to the
/// byte form of valid entries loads to those entries, in their order.
pub proof fn law_round_trip(es: Seq<Entry>, blob: Seq<u8>)
    requires
        valid_entries(es),
        es.len() <= u64::MAX,
        gunzipped(blob) == Some(encoded(es)),
    ensures
        loaded(blob) == Some(es),
{
    lemma_decoded_encoded(es);
}

/// The distances do not decrease from one position to the next, compared as
/// 32-bit patterns.
pub open spec fn ascending(distances: Seq<u32>) -> bool {
    forall|i: int, j: int| 0 <= i <= j < distances.len() ==> distances[i] <= distances[j]
}

/// The distances of a ranking, in its order.
pub open spec fn candidate_distances(ranked: Seq<Candidate>) -> Seq<u32> {
    ranked.map_values(|c: Candidate| c.distance)
}

/// The distances of search results, in their order.
pub open spec fn hit_distances(hits: Seq<Hit>) -> Seq<u32> {
    hits.map_values(|h: Hit| h.distance)
}

/// Every resolved distance is a distance of the ranking.
proof fn lemma_resolved_distances(es: Seq<Entry>, ranked: Seq<Candidate>)
    ensures
        resolved(es, ranked).len() <= ranked.len(),
        forall|i: int|
            0 <= i < resolved(es, ranked).len() ==> exists|j: int|
                0 <= j < ranked.len() && ranked[j].distance == (#[trigger] resolved(
                    es,
                    ranked,
                )[i]).distance,
    decreases ranked.len(),
{
    if ranked.len() > 0 {
        let front = ranked.drop_last();
        lemma_resolved_distances(es, front);
        let out = resolved(es, ranked);
        let out_front = resolved(es, front);
        assert forall|i: int| 0 <= i < out.len() implies exists|j: int|
            0 <= j < ranked.len() && ranked[j].distance == (#[trigger] out[i]).distance by {
            if i < out_front.len() {
                assert(out[i] == out_front[i]);
                let j = choose|j: int|
                    0 <= j < front.len() && front[j].distance == out_front[i].distance;
                assert(ranked[j].distance == out[i].distance);
            } else {
                assert(ranked[ranked.len() - 1].distance == out[i].distance);
            }
        }
    }
}

/// Resolving keeps the order of a ranking: where the ranking's distances
/// ascend, so do those of the results, and there are no more results than
/// candidates.
pub proof fn law_resolution_keeps_order(es: Seq<Entry>, ranked: Seq<Candidate>)
    requires
        ascending(candidate_distances(ranked)),
    ensures
        ascending(hit_distances(resolved(es, ranked))),
        resolved(es, ranked).len() <= ranked.len(),
    decreases ranked.len(),
{
    lemma_resolved_distances(es, ranked);
    if ranked.len() > 0 {
        let front = ranked.drop_last();
        let out = resolved(es, ranked);
        let out_front = resolved(es, front);
        assert(ascending(candidate_distances(front))) by {
            assert forall|i: int, j: int| 0 <= i <= j < front.len() implies candidate_distances(
                front,
            )[i] <= candidate_distances(front)[j] by {
                assert(candidate_distances(ranked)[i] <= candidate_distances(ranked)[j]);
            }
        }
        law_resolution_keeps_order(es, front);
        lemma_resolved_distances(es, front);
        assert forall|i: int, j: int| 0 <= i <= j < out.len() implies hit_distances(out)[i]
            <= hit_distances(out)[j] by {
            if j < out_front.len() {
                assert(hit_distances(out_front)[i] <= hit_distances(out_front)[j]);
            } else if i < out_front.len() {
                let a = choose|a: int|
                    0 <= a < front.len() && front[a].distance == out_front[i].distance;
                assert(candidate_distances(ranked)[a] <= candidate_distances(ranked)[ranked.len()
                    - 1]);
            }
        }
    }
}

/// A ranking of keys that the index holds resolves in full: one result for
/// each candidate.
pub proof fn law_resolution_length(es: Seq<Entry>, ranked: Seq<Candidate>)
    requires
        forall|i: int| 0 <= i < ranked.len() ==> has_key(es, (#[trigger] ranked[i]).item),
    ensures
        resolved(es, ranked).len() == ranked.len(),
    decreases ranked.len(),
{
    if ranked.len() > 0 {
        let front = ranked.drop_last();
        assert forall|i: int| 0 <= i < front.len() implies has_key(
            es,
            (#[trigger] front[i]).item,
        ) by {
            assert(front[i] == ranked[i]);
        }
        law_resolution_length(es, front);
        assert(has_key(es, ranked[ranked.len() - 1].item));
    }
}

/// The keys of a ranking, in its order.
pub open spec fn candidate_keys(ranked: Seq<Candidate>) -> Seq<u64> {
    ranked.map_values(|c: Candidate| c.item)
}

/// A ranking without repeated keys resolves to as many results as it has
/// keys that the index holds.
proof fn lemma_resolved_count(es: Seq<Entry>, ranked: Seq<Candidate>)
    requires
        distinct_keys(es),
        candidate_keys(ranked).no_duplicates(),
    ensures
        resolved(es, ranked).len() == candidate_keys(ranked).to_set().intersect(
            keys_of(es).to_set(),
        ).len(),
    decreases ranked.len(),
{
    broadcast use vstd::set::group_set_axioms;

    lemma_key_count(es);
    let held = keys_of(es).to_set();
    let keys = candidate_keys(ranked);
    vstd::seq_lib::seq_to_set_is_finite(keys);
    if ranked.len() == 0 {
        assert(keys.to_set().intersect(held) =~= Set::<u64>::empty());
    } else {
        let front = ranked.drop_last();
        let last = ranked.last();
        let keys_front = candidate_keys(front);
        assert(keys_front =~= keys.drop_last());
        assert(keys_front.no_duplicates());
        vstd::seq_lib::seq_to_set_is_finite(keys_front);
        lemma_resolved_count(es, front);
        assert(!keys_front.to_set().contains(last.item)) by {
            if keys_front.contains(last.item) {
                let a = choose|a: int| 0 <= a < keys_front.len() && keys_front[a] == last.item;
                assert(keys[a] == keys[keys.len() - 1]);
            }
        }
        assert(keys.to_set() =~= keys_front.to_set().insert(last.item)) by {
            assert forall|k: u64| keys.to_set().contains(k) <==> keys_front.to_set().insert(
                last.item,
            ).contains(k) by {
                if keys.contains(k) {
                    let a = choose|a: int| 0 <= a < keys.len() && keys[a] == k;
                    if a < keys_front.len() {
                        assert(keys_front[a] == k);
                    }
                }
                if keys_front.contains(k) {
                    let a = choose|a: int| 0 <= a < keys_front.len() && keys_front[a] == k;
                    assert(keys[a] == k);
                }
                if k == last.item {
                    assert(keys[keys.len() - 1] == k);
                }
            }
        }
        let found_front = keys_front.to_set().intersect(held);
        if has_key(es, last.item) {
            assert(keys.to_set().intersect(held) =~= found_front.insert(last.item));
        } else {
            assert(keys.to_set().intersect(held) =~= found_front);
        }
    }
}

/// A search answers with no more results than it was asked for and than
/// the ranking has; where the ranking repeats no key, with no more than the
/// index has entries; and where, besides, the index holds every key of the
/// ranking, with exactly as many as the ranking's first `k` candidates.
pub proof fn law_answer_length(es: Seq<Entry>, ranked: Seq<Candidate>, k: nat)
    requires
        valid_entries(es),
    ensures
        answered(es, ranked, k).len() <= k,
        answered(es, ranked, k).len() <= ranked.len(),
        candidate_keys(ranked).no_duplicates() ==> answered(es, ranked, k).len() <= es.len(),
        (forall|i: int| 0 <= i < ranked.len() ==> has_key(es, (#[trigger] ranked[i]).item))
            ==> answered(es, ranked, k).len() == if k < ranked.len() {
            k
        } else {
            ranked.len()
        },
{
    broadcast use vstd::set::group_set_axioms;

    let n = if k < ranked.len() {
        k as int
    } else {
        ranked.len() as int
    };
    let first = ranked.take(n);
    lemma_resolved_distances(es, first);
    if candidate_keys(ranked).no_duplicates() {
        let keys = candidate_keys(first);
        assert forall|a: int, b: int|
            0 <= a < keys.len() && 0 <= b < keys.len() && a != b implies keys[a] != keys[b] by {
            assert(candidate_keys(ranked)[a] != candidate_keys(ranked)[b]);
        }
        lemma_resolved_count(es, first);
        lemma_key_count(es);
        vstd::seq_lib::seq_to_set_is_finite(keys);
        let held = keys_of(es).to_set();
        vstd::set_lib::lemma_len_subset(keys.to_set().intersect(held), held);
    }
    if forall|i: int| 0 <= i < ranked.len() ==> has_key(es, (#[trigger] ranked[i]).item) {
        assert forall|i: int| 0 <= i < first.len() implies has_key(
            es,
            (#[trigger] first[i]).item,
        ) by {
            assert(first[i] == ranked[i]);
        }
        law_resolution_length(es, first);
    }
}

/// A search keeps the order of the ranking: where the ranking's distances
/// ascend, so do those of the answer.
pub proof fn law_answer_keeps_order(es: Seq<Entry>, ranked: Seq<Candidate>, k: nat)
    requires
        ascending(candidate_distances(ranked)),
    ensures
        ascending(hit_distances(answered(es, ranked, k))),
{
    let n = if k < ranked.len() {
        k as int
    } else {
        ranked.len() as int
    };
    let first = ranked.take(n);
    assert forall|i: int, j: int| 0 <= i <= j < first.len() implies candidate_distances(first)[i]
        <= candidate_distances(first)[j] by {
        assert(candidate_distances(ranked)[i] <= candidate_distances(ranked)[j]);
    }
    law_resolution_keeps_order(es, first);
}

/// Padding changes nothing: an embedding shorter than the fixed length is
/// stored as the same embedding filled up with zeros is.
pub proof fn law_padding(id: Seq<char>, embedding: Seq<u32>)
    requires
        embedding.len() <= EMBEDDING_DIMENSION,
    ensures
        entry_of(
            id,
            embedding + Seq::new((EMBEDDING_DIMENSION - embedding.len()) as nat, |i: int| 0u32),
        ) == entry_of(id, embedding),
        normalized(normalized(embedding)) == normalized(embedding),
{
    let padded = embedding + Seq::new(
        (EMBEDDING_DIMENSION - embedding.len()) as nat,
        |i: int| 0u32,
    );
    assert(normalized(padded) =~= normalized(embedding));
    assert(normalized(normalized(embedding)) =~= normalized(embedding));
}

} // verus!
