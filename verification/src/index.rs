//! The index itself: the stored points and the map from keys to identifiers.

use crate::embedding::{normalize, EMBEDDING_DIMENSION};
use crate::hashing::{hash, key_of};
use crate::model::{
    entry_of, has_key, lemma_without_keys, position_of, storable, upserted, valid_entries,
    valid_entry, without_keys, Entry,
};
use std::collections::HashMap;
use vstd::prelude::*;

verus! {

broadcast use vstd::std_specs::hash::group_hash_axioms;

/// Capacity of one leaf bucket of a spatial tree built over the points.
pub const BUCKET_SIZE: usize = 32;

/// A stored embedding under its key.
#[derive(Debug, PartialEq, Eq)]
pub struct Point {
    pub key: u64,
    pub embedding: Vec<u32>,
}

impl Clone for Point {
    fn clone(&self) -> (copy: Self)
        ensures
            copy.key == self.key,
            copy.embedding@ == self.embedding@,
    {
        Point { key: self.key, embedding: self.embedding.clone() }
    }
}

/// Points and identifiers under one set of keys.
#[derive(Debug)]
pub struct Index {
    pub(crate) points: Vec<Point>,
    pub(crate) hash: HashMap<u64, String>,
}

/// The entries that `points` and `ids` stand for together.
pub open spec fn entries_of(points: Seq<Point>, ids: Map<u64, String>) -> Seq<Entry> {
    Seq::new(
        points.len(),
        |i: int|
            Entry { key: points[i].key, id: ids[points[i].key]@, embedding: points[i].embedding@ },
    )
}

/// No two points share a key.
pub open spec fn points_distinct(points: Seq<Point>) -> bool {
    forall|i: int, j: int|
        0 <= i < j < points.len() ==> (#[trigger] points[i]).key != (#[trigger] points[j]).key
}

/// Every point has the fixed length and an identifier, of which its key is
/// the key.
pub open spec fn points_named(points: Seq<Point>, ids: Map<u64, String>) -> bool {
    forall|i: int|
        0 <= i < points.len() ==> {
            &&& ids.contains_key((#[trigger] points[i]).key)
            &&& points[i].embedding@.len() == EMBEDDING_DIMENSION
            &&& points[i].key == key_of(ids[points[i].key]@)
            &&& storable(ids[points[i].key]@)
        }
}

/// Every identifier has a point.
pub open spec fn ids_placed(points: Seq<Point>, ids: Map<u64, String>) -> bool {
    forall|k: u64| #[trigger]
        ids.contains_key(k) ==> exists|i: int|
            0 <= i < points.len() && (#[trigger] points[i]).key == k
}

/// Points and identifiers that belong together.
pub open spec fn coherent(points: Seq<Point>, ids: Map<u64, String>) -> bool {
    &&& points_distinct(points)
    &&& points_named(points, ids)
    &&& ids_placed(points, ids)
}

impl View for Index {
    type V = Seq<Entry>;

    /// The entries in stored order.
    open(crate) spec fn view(&self) -> Seq<Entry> {
        entries_of(self.points@, self.hash@)
    }
}

impl Clone for Index {
    fn clone(&self) -> (copy: Self)
        ensures
            copy@ == self@,
    {
        proof {
            use_type_invariant(self);
        }
        let mut points: Vec<Point> = Vec::with_capacity(self.points.len());
        let mut i: usize = 0;
        while i < self.points.len()
            invariant
                i <= self.points@.len(),
                points@.len() == i,
                forall|j: int|
                    0 <= j < i ==> {
                        &&& (#[trigger] points@[j]).key == self.points@[j].key
                        &&& points@[j].embedding@ == self.points@[j].embedding@
                    },
            decreases self.points@.len() - i,
        {
            points.push(self.points[i].clone());
            i += 1;
        }
        let ids = self.hash.clone();
        proof {
            assert(entries_of(points@, ids@) =~= entries_of(self.points@, self.hash@));
            assert(points_distinct(points@)) by {
                assert forall|a: int, b: int| 0 <= a < b < points@.len() implies (
                #[trigger] points@[a]).key != (#[trigger] points@[b]).key by {
                    assert(self.points@[a].key != self.points@[b].key);
                }
            }
            assert(points_named(points@, ids@)) by {
                assert forall|j: int| 0 <= j < points@.len() implies {
                    &&& ids@.contains_key((#[trigger] points@[j]).key)
                    &&& points@[j].embedding@.len() == EMBEDDING_DIMENSION
                    &&& points@[j].key == key_of(ids@[points@[j].key]@)
                    &&& storable(ids@[points@[j].key]@)
                } by {
                    assert(self.hash@.contains_key(self.points@[j].key));
                }
            }
            assert(ids_placed(points@, ids@)) by {
                assert forall|k: u64| #[trigger] ids@.contains_key(k) implies exists|j: int|
                    0 <= j < points@.len() && (#[trigger] points@[j]).key == k by {
                    let j = choose|j: int|
                        0 <= j < self.points@.len() && (#[trigger] self.points@[j]).key == k;
                    assert(points@[j].key == k);
                }
            }
        }
        Index { points, hash: ids }
    }
}

impl Index {
    /// Points and identifiers cover the same keys, each key once; every
    /// embedding has the fixed length and every key is that of its identifier.
    #[verifier::type_invariant]
    pub(crate) open spec fn consistent(&self) -> bool {
        coherent(self.points@, self.hash@)
    }

    /// An index without entries.
    pub fn new() -> (index: Index)
        ensures
            index@ == Seq::<Entry>::empty(),
    {
        let index = Index { points: Vec::new(), hash: HashMap::new() };
        proof {
            assert(index@ =~= Seq::<Entry>::empty());
        }
        index
    }

    /// What the invariant says of the entries.
    pub(crate) proof fn lemma_view_valid(&self)
        requires
            self.consistent(),
        ensures
            valid_entries(self@),
            forall|k: u64| self.hash@.contains_key(k) <==> has_key(self@, k),
    {
        let es = self@;
        assert forall|k: u64| self.hash@.contains_key(k) <==> has_key(es, k) by {
            if self.hash@.contains_key(k) {
                let i = choose|i: int|
                    0 <= i < self.points@.len() && (#[trigger] self.points@[i]).key == k;
                assert(es[i].key == k);
            }
            if has_key(es, k) {
                let i = choose|i: int| 0 <= i < es.len() && (#[trigger] es[i]).key == k;
                assert(self.points@[i].key == k);
            }
        }
        assert forall|i: int, j: int| 0 <= i < j < es.len() implies (#[trigger] es[i]).key != (
        #[trigger] es[j]).key by {
            assert(self.points@[i].key != self.points@[j].key);
        }
        assert forall|i: int| 0 <= i < es.len() implies valid_entry(#[trigger] es[i]) by {
            assert(self.hash@.contains_key(self.points@[i].key));
        }
    }

    /// Number of entries.
    pub fn len(&self) -> (n: usize)
        ensures
            n == self@.len(),
            valid_entries(self@),
    {
        proof {
            use_type_invariant(self);
            self.lemma_view_valid();
        }
        self.points.len()
    }

    /// Whether an entry has `key`.
    pub fn contains(&self, key: u64) -> (found: bool)
        ensures
            found == has_key(self@, key),
    {
        proof {
            use_type_invariant(self);
            self.lemma_view_valid();
        }
        self.hash.contains_key(&key)
    }

    /// The identifier stored under `key`.
    pub fn get(&self, key: u64) -> (found: Option<&String>)
        ensures
            found is Some == has_key(self@, key),
            found matches Some(id) ==> id@ == self@[position_of(self@, key)].id,
    {
        proof {
            use_type_invariant(self);
            self.lemma_view_valid();
        }
        let found = self.hash.get(&key);
        proof {
            if has_key(self@, key) {
                let p = position_of(self@, key);
                assert(self@[p].key == key);
                assert(self.points@[p].key == key);
            }
        }
        found
    }

    /// Stores `embedding`, brought to the fixed length, under `id`, unless
    /// the key of `id` is taken: then nothing changes and `id` comes back.
    pub fn insert(&mut self, id: String, embedding: &Vec<u32>) -> (outcome: Result<(), String>)
        ensures
            outcome is Ok == !has_key(old(self)@, key_of(id@)),
            outcome is Ok ==> final(self)@ == old(self)@.push(entry_of(id@, embedding@)),
            outcome matches Err(back) ==> back == id && final(self)@ == old(self)@,
            storable(id@),
    {
        proof {
            use_type_invariant(&*self);
            self.lemma_view_valid();
        }
        let key = hash(id.as_str());
        if self.hash.contains_key(&key) {
            return Err(id);
        }
        let point = Point { key, embedding: normalize(embedding) };
        let mut taken = Index::new();
        std::mem::swap(self, &mut taken);
        let Index { mut points, hash: mut ids } = taken;
        let ghost points0 = points@;
        let ghost ids0 = ids@;
        ids.insert(key, id);
        points.push(point);
        proof {
            assert(!ids0.contains_key(key));
            assert forall|i: int| 0 <= i < points0.len() implies #[trigger] points@[i]
                == points0[i] && points0[i].key != key && ids@[points0[i].key]
                == ids0[points0[i].key] by {
                assert(ids0.contains_key(points0[i].key));
            }
            assert(entries_of(points@, ids@) =~= entries_of(points0, ids0).push(
                entry_of(id@, embedding@),
            ));
            assert(ids_placed(points@, ids@)) by {
                assert forall|k: u64| #[trigger] ids@.contains_key(k) implies exists|i: int|
                    0 <= i < points@.len() && (#[trigger] points@[i]).key == k by {
                    if k == key {
                        assert(points@[points0.len() as int].key == k);
                    } else {
                        assert(ids0.contains_key(k));
                        let i = choose|i: int|
                            0 <= i < points0.len() && (#[trigger] points0[i]).key == k;
                        assert(points@[i].key == k);
                    }
                }
            }
            assert(points_distinct(points@)) by {
                assert forall|i: int, j: int| 0 <= i < j < points@.len() implies (
                #[trigger] points@[i]).key != (#[trigger] points@[j]).key by {
                    if j < points0.len() {
                        assert(points0[i].key != points0[j].key);
                    }
                }
            }
            assert(points_named(points@, ids@)) by {
                assert forall|i: int| 0 <= i < points@.len() implies {
                    &&& ids@.contains_key((#[trigger] points@[i]).key)
                    &&& points@[i].embedding@.len() == EMBEDDING_DIMENSION
                    &&& points@[i].key == key_of(ids@[points@[i].key]@)
                    &&& storable(ids@[points@[i].key]@)
                } by {
                    if i < points0.len() {
                        assert(points@[i] == points0[i]);
                    }
                }
            }
        }
        *self = Index { points, hash: ids };
        Ok(())
    }

    /// Stores `embedding`, brought to the fixed length, under `id`. Where
    /// the key of `id` is taken, identifier and embedding replace what was
    /// stored under it: the last write wins.
    pub fn upsert(&mut self, id: String, embedding: &Vec<u32>)
        ensures
            final(self)@ == upserted(old(self)@, entry_of(id@, embedding@)),
            storable(id@),
    {
        proof {
            use_type_invariant(&*self);
            self.lemma_view_valid();
        }
        let key = hash(id.as_str());
        if !self.hash.contains_key(&key) {
            let added = self.insert(id, embedding);
            assert(added is Ok);
            return ;
        }
        let point = Point { key, embedding: normalize(embedding) };
        let mut taken = Index::new();
        std::mem::swap(self, &mut taken);
        let Index { mut points, hash: mut ids } = taken;
        let ghost points0 = points@;
        let ghost ids0 = ids@;
        let ghost entries0 = entries_of(points0, ids0);
        let mut at: usize = 0;
        while at < points.len() && points[at].key != key
            invariant
                points@ == points0,
                at <= points@.len(),
                forall|j: int| 0 <= j < at ==> (#[trigger] points@[j]).key != key,
                ids_placed(points0, ids0),
                ids0.contains_key(key),
            decreases points@.len() - at,
        {
            at += 1;
        }
        proof {
            if at == points@.len() {
                let i = choose|i: int| 0 <= i < points0.len() && (#[trigger] points0[i]).key == key;
                assert(points@[i].key != key);
            }
        }
        points.set(at, point);
        ids.insert(key, id);
        proof {
            let p = position_of(entries0, key);
            assert(entries0[at as int].key == key);
            assert(entries0[p].key == key);
            assert(points0[p].key == points0[at as int].key);
            assert(p == at);
            assert forall|i: int| 0 <= i < points0.len() && i != at implies #[trigger] points@[i]
                == points0[i] && points0[i].key != key && ids@[points0[i].key]
                == ids0[points0[i].key] by {
                assert(points0[i].key != points0[at as int].key);
            }
            assert(entries_of(points@, ids@) =~= entries0.update(
                at as int,
                entry_of(id@, embedding@),
            ));
            assert(ids_placed(points@, ids@)) by {
                assert forall|k: u64| #[trigger] ids@.contains_key(k) implies exists|i: int|
                    0 <= i < points@.len() && (#[trigger] points@[i]).key == k by {
                    if k == key {
                        assert(points@[at as int].key == k);
                    } else {
                        assert(ids0.contains_key(k));
                        let i = choose|i: int|
                            0 <= i < points0.len() && (#[trigger] points0[i]).key == k;
                        assert(points@[i].key == k);
                    }
                }
            }
            assert(points_distinct(points@)) by {
                assert forall|i: int, j: int| 0 <= i < j < points@.len() implies (
                #[trigger] points@[i]).key != (#[trigger] points@[j]).key by {
                    assert(points@[i].key == points0[i].key);
                    assert(points@[j].key == points0[j].key);
                    assert(points0[i].key != points0[j].key);
                }
            }
            assert(points_named(points@, ids@)) by {
                assert forall|i: int| 0 <= i < points@.len() implies {
                    &&& ids@.contains_key((#[trigger] points@[i]).key)
                    &&& points@[i].embedding@.len() == EMBEDDING_DIMENSION
                    &&& points@[i].key == key_of(ids@[points@[i].key]@)
                    &&& storable(ids@[points@[i].key]@)
                } by {
                    if i != at {
                        assert(points@[i] == points0[i]);
                        assert(ids0.contains_key(points0[i].key));
                    }
                }
            }
        }
        *self = Index { points, hash: ids };
    }

    /// Removes the entries whose key is among `keys`, and keeps the others
    /// in their order.
    pub fn remove_keys(&mut self, keys: &Vec<u64>)
        ensures
            final(self)@ == without_keys(old(self)@, keys@),
    {
        proof {
            use_type_invariant(&*self);
            self.lemma_view_valid();
        }
        let mut taken = Index::new();
        std::mem::swap(self, &mut taken);
        let Index { mut points, hash: mut ids } = taken;
        let ghost points0 = points@;
        let ghost ids0 = ids@;
        let ghost entries0 = entries_of(points0, ids0);
        let ghost keep = |e: Entry| !keys@.contains(e.key);
        let ghost seen: int = 0;
        let mut i: usize = 0;
        proof {
            assert(entries_of(points@.take(0), ids0) =~= Seq::<Entry>::empty());
            entries0.take(0).lemma_filter_len(keep);
            assert(entries0.take(0).filter(keep) =~= Seq::<Entry>::empty());
        }
        while i < points.len()
            invariant
                0 <= i <= points@.len(),
                0 <= seen <= points0.len(),
                points@.len() - i == points0.len() - seen,
                points@.skip(i as int) == points0.skip(seen),
                entries_of(points@.take(i as int), ids0) == entries0.take(seen).filter(keep),
                entries0 == entries_of(points0, ids0),
                keep == |e: Entry| !keys@.contains(e.key),
            decreases points@.len() - i,
        {
            proof {
                assert(points@[i as int] == points@.skip(i as int)[0]);
                assert(points0[seen] == points0.skip(seen)[0]);
                assert(entries0.take(seen + 1) =~= entries0.take(seen).push(entries0[seen]));
                entries0.take(seen).lemma_filter_push(entries0[seen], keep);
            }
            let ghost before = points@;
            if holds(keys, points[i].key) {
                points.remove(i);
                proof {
                    assert(points@.take(i as int) =~= before.take(i as int));
                    assert(points@.skip(i as int) =~= before.skip(i as int).skip(1));
                    assert(points0.skip(seen + 1) =~= points0.skip(seen).skip(1));
                    seen = seen + 1;
                }
            } else {
                proof {
                    assert(entries_of(points@.take(i + 1), ids0) =~= entries_of(
                        points@.take(i as int),
                        ids0,
                    ).push(entries0[seen]));
                    assert(points@.skip(i + 1) =~= points@.skip(i as int).skip(1));
                    assert(points0.skip(seen + 1) =~= points0.skip(seen).skip(1));
                    seen = seen + 1;
                }
                i += 1;
            }
        }
        let ghost kept = entries_of(points@, ids0);
        proof {
            assert(points@.take(i as int) =~= points@);
            assert(entries0.take(seen) =~= entries0);
            assert(kept == without_keys(entries0, keys@));
            lemma_without_keys(entries0, keys@);
        }
        let mut j: usize = 0;
        while j < keys.len()
            invariant
                j <= keys@.len(),
                forall|k: u64|
                    ids@.contains_key(k) <==> (ids0.contains_key(k) && !keys@.take(j as int).contains(
                        k,
                    )),
                forall|k: u64| ids@.contains_key(k) ==> ids@[k] == ids0[k],
            decreases keys@.len() - j,
        {
            let ghost ids_before = ids@;
            ids.remove(&keys[j]);
            proof {
                assert(ids@ == ids_before.remove(keys@[j as int]));
                let done = keys@.take(j as int);
                let next = keys@.take(j + 1);
                assert(next =~= done.push(keys@[j as int]));
                assert forall|k: u64|
                    ids@.contains_key(k) <==> (ids0.contains_key(k) && !next.contains(k)) by {
                    assert(ids_before.contains_key(k) <==> (ids0.contains_key(k) && !done.contains(
                        k,
                    )));
                    if done.contains(k) {
                        let a = choose|a: int| 0 <= a < done.len() && done[a] == k;
                        assert(next[a] == k);
                    }
                    if k == keys@[j as int] {
                        assert(next[j as int] == k);
                    }
                    if next.contains(k) {
                        let a = choose|a: int| 0 <= a < next.len() && next[a] == k;
                        if a < j {
                            assert(done[a] == k);
                        }
                    }
                }
            }
            j += 1;
        }
        proof {
            assert(keys@.take(j as int) =~= keys@);
            assert forall|i: int| 0 <= i < points@.len() implies has_key(
                kept,
                (#[trigger] points@[i]).key,
            ) && valid_entry(kept[i]) by {
                assert(kept[i].key == points@[i].key);
            }
            assert(entries_of(points@, ids@) =~= kept);
            assert(ids_placed(points@, ids@)) by {
                assert forall|k: u64| #[trigger] ids@.contains_key(k) implies exists|i: int|
                    0 <= i < points@.len() && (#[trigger] points@[i]).key == k by {
                    assert(has_key(entries0, k));
                    assert(has_key(kept, k));
                    let i = choose|i: int| 0 <= i < kept.len() && (#[trigger] kept[i]).key == k;
                    assert(points@[i].key == k);
                }
            }
            assert(points_distinct(points@)) by {
                assert forall|a: int, b: int| 0 <= a < b < points@.len() implies (
                #[trigger] points@[a]).key != (#[trigger] points@[b]).key by {
                    assert(kept[a].key != kept[b].key);
                }
            }
            assert(points_named(points@, ids@)) by {
                assert forall|i: int| 0 <= i < points@.len() implies {
                    &&& ids@.contains_key((#[trigger] points@[i]).key)
                    &&& points@[i].embedding@.len() == EMBEDDING_DIMENSION
                    &&& points@[i].key == key_of(ids@[points@[i].key]@)
                    &&& storable(ids@[points@[i].key]@)
                } by {
                    assert(has_key(kept, points@[i].key));
                    assert(valid_entry(kept[i]));
                }
            }
        }
        *self = Index { points, hash: ids };
    }

    /// Removes every entry.
    pub fn clear(&mut self)
        ensures
            final(self)@ == Seq::<Entry>::empty(),
    {
        *self = Index::new();
    }

    /// The embedding stored under `key`.
    pub fn embedding(&self, key: u64) -> (found: Option<&Vec<u32>>)
        ensures
            found is Some == has_key(self@, key),
            found matches Some(e) ==> e@ == self@[position_of(self@, key)].embedding,
    {
        proof {
            use_type_invariant(self);
            self.lemma_view_valid();
        }
        let mut at: usize = 0;
        while at < self.points.len()
            invariant
                at <= self.points@.len(),
                forall|j: int| 0 <= j < at ==> (#[trigger] self.points@[j]).key != key,
                valid_entries(self@),
                self@ == entries_of(self.points@, self.hash@),
            decreases self.points@.len() - at,
        {
            if self.points[at].key == key {
                proof {
                    let p = position_of(self@, key);
                    assert(self@[at as int].key == key);
                    assert(self@[p].key == key);
                    if p < at {
                        assert(self@[p].key != self@[at as int].key);
                    } else if at < p {
                        assert(self@[at as int].key != self@[p].key);
                    }
                }
                return Some(&self.points[at].embedding);
            }
            at += 1;
        }
        proof {
            if has_key(self@, key) {
                let p = position_of(self@, key);
                assert(self@[p].key == key);
                assert(self.points@[p].key == key);
            }
        }
        None
    }

    /// The stored points, in the order of the entries.
    pub fn points(&self) -> (points: &Vec<Point>)
        ensures
            points@.len() == self@.len(),
            forall|i: int|
                0 <= i < points@.len() ==> {
                    &&& (#[trigger] points@[i]).key == self@[i].key
                    &&& points@[i].embedding@ == self@[i].embedding
                },
    {
        &self.points
    }
}

/// Whether `key` occurs in `keys`.
fn holds(keys: &Vec<u64>, key: u64) -> (found: bool)
    ensures
        found == keys@.contains(key),
{
    let mut i: usize = 0;
    while i < keys.len()
        invariant
            i <= keys@.len(),
            forall|j: int| 0 <= j < i ==> keys@[j] != key,
        decreases keys@.len() - i,
    {
        if keys[i] == key {
            return true;
        }
        i += 1;
    }
    false
}

} // verus!
