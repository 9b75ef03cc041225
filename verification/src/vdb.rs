//! A database that owns one index and offers its operations as methods.

use crate::codec::encoded;
use crate::embedding::Embedding;
use crate::engine::loaded;
use crate::error::{duplicate_message, not_found_message, EngineError, ErrorKind};
use crate::gzip::{gunzipped, gzipped};
use crate::hashing::key_of;
use crate::index::Index;
use crate::model::{
    answered, built, entry_of, has_key, keys_of_ids, missing_ids, removable, valid_entries,
    without_keys, Entry,
};
use crate::types::{Candidate, EmbeddedResource, Resource, SearchResult};
use vstd::prelude::*;

verus! {

/// How many neighbours a search asks for.
pub type TopK = usize;

/// A persisted database.
pub type SerializedIndex = Vec<u8>;

/// The identifiers of a batch, in its order.
pub open spec fn resource_ids(items: Seq<EmbeddedResource>) -> Seq<Seq<char>> {
    items.map_values(|item: EmbeddedResource| item.id@)
}

/// The embeddings of a batch, in its order.
pub open spec fn resource_data(items: Seq<EmbeddedResource>) -> Seq<Seq<u32>> {
    items.map_values(|item: EmbeddedResource| item.embeddings@)
}

/// The entries after adding the pairs in turn, and the identifier at which
/// adding stopped because its key was taken, if any was.
pub open spec fn added_in_turn(es: Seq<Entry>, ids: Seq<Seq<char>>, data: Seq<Seq<u32>>) -> (
    Seq<Entry>,
    Option<Seq<char>>,
)
    decreases ids.len(),
{
    if ids.len() == 0 {
        (es, None)
    } else if has_key(es, key_of(ids[0])) {
        (es, Some(ids[0]))
    } else {
        added_in_turn(es.push(entry_of(ids[0], data[0])), ids.drop_first(), data.drop_first())
    }
}

/// The embeddings and the identifiers of a batch, each in its order.
fn unzipped(items: &Vec<EmbeddedResource>) -> (pair: (Vec<Embedding>, Vec<String>))
    ensures
        pair.0.deep_view() == resource_data(items@),
        pair.1.deep_view() == resource_ids(items@),
{
    let mut data: Vec<Embedding> = Vec::with_capacity(items.len());
    let mut ids: Vec<String> = Vec::with_capacity(items.len());
    let mut i: usize = 0;
    while i < items.len()
        invariant
            i <= items.len(),
            data@.len() == i,
            ids@.len() == i,
            forall|j: int| 0 <= j < i ==> (#[trigger] data@[j])@ == items@[j].embeddings@,
            forall|j: int| 0 <= j < i ==> (#[trigger] ids@[j])@ == items@[j].id@,
        decreases items.len() - i,
    {
        data.push(items[i].embeddings.clone());
        ids.push(items[i].id.clone());
        i += 1;
    }
    proof {
        assert forall|j: int| 0 <= j < items@.len() implies data.deep_view()[j] == resource_data(
            items@,
        )[j] by {
            assert(data.deep_view()[j] == data@[j]@);
        }
        assert(data.deep_view() =~= resource_data(items@));
        assert(ids.deep_view() =~= resource_ids(items@));
    }
    (data, ids)
}

/// The index built from a batch.
fn rebuilt(items: &Vec<EmbeddedResource>) -> (index: Index)
    ensures
        index@ == built(resource_ids(items@), resource_data(items@)),
{
    let (data, ids) = unzipped(items);
    crate::engine::index(&data, &ids)
}

/// A database of embeddings under identifiers.
#[derive(Debug)]
pub struct LunaVDB {
    index: Index,
}

impl View for LunaVDB {
    type V = Seq<Entry>;

    /// The entries in stored order.
    closed spec fn view(&self) -> Seq<Entry> {
        self.index@
    }
}

impl LunaVDB {
    /// A database built from `resource`; an empty one where there is none.
    pub fn new(resource: Option<Resource>) -> (db: LunaVDB)
        ensures
            db@ == match resource {
                Some(batch) => built(
                    resource_ids(batch.embeddings@),
                    resource_data(batch.embeddings@),
                ),
                None => Seq::<Entry>::empty(),
            },
    {
        match resource {
            Some(batch) => LunaVDB { index: rebuilt(&batch.embeddings) },
            None => LunaVDB { index: Index::new() },
        }
    }

    /// The index that the database owns.
    pub fn entries(&self) -> (index: &Index)
        ensures
            index@ == self@,
    {
        &self.index
    }

    /// Replaces what the database holds by the index built from `resource`.
    pub fn index(&mut self, resource: Resource)
        ensures
            final(self)@ == built(
                resource_ids(resource.embeddings@),
                resource_data(resource.embeddings@),
            ),
    {
        self.index = rebuilt(&resource.embeddings);
    }

    /// Answers a search for `k` neighbours from a ranking of keys, as
    /// `engine::search` does.
    pub fn search(&self, ranked: Vec<Candidate>, k: TopK) -> (result: SearchResult)
        ensures
            result@ == answered(self@, ranked@, k as nat),
            result@.len() <= k,
            result@.len() <= ranked@.len(),
    {
        crate::engine::search(&self.index, &ranked, k)
    }

    /// Adds the pairs of `resource` in turn. Stops at the first identifier
    /// whose key is taken and fails with it; the pairs before it stay
    /// added.
    pub fn add(&mut self, resource: Resource) -> (outcome: Result<(), EngineError>)
        ensures
            final(self)@ == added_in_turn(
                old(self)@,
                resource_ids(resource.embeddings@),
                resource_data(resource.embeddings@),
            ).0,
            match outcome {
                Ok(()) => added_in_turn(
                    old(self)@,
                    resource_ids(resource.embeddings@),
                    resource_data(resource.embeddings@),
                ).1 is None,
                Err(e) => {
                    &&& e.kind == ErrorKind::DuplicateId
                    &&& e.ids.deep_view().len() == 1
                    &&& added_in_turn(
                        old(self)@,
                        resource_ids(resource.embeddings@),
                        resource_data(resource.embeddings@),
                    ).1 == Some(e.ids.deep_view()[0])
                    &&& e.message@ == duplicate_message(e.ids.deep_view()[0])
                },
            },
    {
        let items = &resource.embeddings;
        let ghost ids = resource_ids(items@);
        let ghost data = resource_data(items@);
        let ghost goal = added_in_turn(self@, ids, data);
        let mut i: usize = 0;
        proof {
            assert(ids.skip(0) =~= ids);
            assert(data.skip(0) =~= data);
        }
        while i < items.len()
            invariant
                i <= items.len(),
                ids == resource_ids(items@),
                data == resource_data(items@),
                items@ == resource.embeddings@,
                goal == added_in_turn(old(self)@, ids, data),
                goal == added_in_turn(self@, ids.skip(i as int), data.skip(i as int)),
            decreases items.len() - i,
        {
            proof {
                assert(ids.skip(i as int)[0] == items@[i as int].id@);
                assert(data.skip(i as int)[0] == items@[i as int].embeddings@);
                assert(ids.skip(i as int).drop_first() =~= ids.skip(i + 1));
                assert(data.skip(i as int).drop_first() =~= data.skip(i + 1));
            }
            let ghost before = self@;
            match crate::engine::add(&mut self.index, items[i].id.clone(), &items[i].embeddings) {
                Ok(()) => {},
                Err(e) => {
                    proof {
                        assert(has_key(before, key_of(ids.skip(i as int)[0])));
                        assert(goal == (before, Some(ids.skip(i as int)[0])));
                        assert(e.ids.deep_view()[0] == items@[i as int].id@);
                    }
                    return Err(e);
                },
            }
            i += 1;
        }
        Ok(())
    }

    /// Removes the entries of all of `ids`, or none, as `engine::remove`
    /// does.
    pub fn remove(&mut self, ids: Vec<String>) -> (outcome: Result<(), EngineError>)
        ensures
            outcome is Ok == removable(old(self)@, ids.deep_view()),
            outcome is Ok ==> {
                &&& final(self)@ == without_keys(old(self)@, keys_of_ids(ids.deep_view()))
                &&& final(self)@.len() == old(self)@.len() - ids.len()
            },
            outcome matches Err(e) ==> {
                &&& final(self)@ == old(self)@
                &&& e.kind == ErrorKind::NotFound
                &&& e.ids.deep_view() == missing_ids(old(self)@, ids.deep_view())
                &&& e.message@ == not_found_message(missing_ids(old(self)@, ids.deep_view()))
            },
    {
        crate::engine::remove(&mut self.index, &ids)
    }

    /// Removes every entry.
    pub fn clear(&mut self)
        ensures
            final(self)@ == Seq::<Entry>::empty(),
    {
        crate::engine::clear(&mut self.index);
    }

    /// Number of entries.
    pub fn size(&self) -> (n: usize)
        ensures
            n == self@.len(),
            valid_entries(self@),
    {
        crate::engine::size(&self.index)
    }

    /// Persists the database, as `engine::dump` does.
    pub fn serialize(&mut self) -> (outcome: Result<SerializedIndex, EngineError>)
        ensures
            final(self)@ == old(self)@,
            outcome is Ok == gzipped(encoded(old(self)@)) is Some,
            outcome matches Ok(blob) ==> {
                &&& gzipped(encoded(old(self)@)) == Some(blob@)
                &&& blob@.len() > 0
                &&& gunzipped(blob@) == Some(encoded(old(self)@))
                &&& loaded(blob@) == Some(old(self)@)
            },
            outcome matches Err(e) ==> {
                &&& e.kind == ErrorKind::Other
                &&& e.ids@.len() == 0
                &&& e.message@ == "Compression failed"@
            },
    {
        crate::engine::dump(&mut self.index)
    }

    /// Rebuilds a database from a blob that `serialize` wrote, as
    /// `engine::load` does.
    pub fn deserialize(index: SerializedIndex) -> (outcome: Result<LunaVDB, EngineError>)
        ensures
            outcome is Ok == loaded(index@) is Some,
            outcome matches Ok(db) ==> loaded(index@) == Some(db@),
            outcome matches Err(e) ==> {
                &&& e.kind == ErrorKind::CorruptData
                &&& e.ids@.len() == 0
                &&& e.message@ == "Corrupt index data"@
            },
    {
        match crate::engine::load(&index) {
            Ok(found) => Ok(LunaVDB { index: found }),
            Err(e) => Err(e),
        }
    }
}

} // verus!
