//! Failures of index operations.

use vstd::prelude::*;
use vstd::string::StringExecFns;

verus! {

/// What went wrong.
#[derive(Debug, Clone, Copy, PartialEq, Eq, Structural)]
pub enum ErrorKind {
    /// An identifier to add has a key that the index already holds.
    DuplicateId,
    /// Identifiers to remove are not all present, each once.
    NotFound,
    /// Bytes to load are not a persisted index.
    CorruptData,
    /// Anything else, described by the message alone.
    Other,
}

/// A failure: its kind, the identifiers it is about, and a sentence for
/// people.
#[derive(Debug)]
pub struct EngineError {
    pub kind: ErrorKind,
    pub ids: Vec<String>,
    pub message: String,
}

/// The identifiers joined by commas.
pub open spec fn comma_joined(ids: Seq<Seq<char>>) -> Seq<char>
    decreases ids.len(),
{
    if ids.len() == 0 {
        Seq::empty()
    } else if ids.len() == 1 {
        ids[0]
    } else {
        comma_joined(ids.drop_last()) + ","@ + ids.last()
    }
}

/// The sentence of a `DuplicateId` failure.
pub open spec fn duplicate_message(id: Seq<char>) -> Seq<char> {
    "Id "@ + id + " already exists"@
}

/// The sentence of a `NotFound` failure.
pub open spec fn not_found_message(ids: Seq<Seq<char>>) -> Seq<char> {
    "The ids "@ + comma_joined(ids) + " not found"@
}

/// Joins the identifiers by commas.
pub fn join_ids(ids: &Vec<String>) -> (out: String)
    ensures
        out@ == comma_joined(ids.deep_view()),
{
    let mut out = String::new();
    let mut i: usize = 0;
    while i < ids.len()
        invariant
            i <= ids.len(),
            out@ == comma_joined(ids.deep_view().take(i as int)),
        decreases ids.len() - i,
    {
        proof {
            let next = ids.deep_view().take(i + 1);
            assert(next.drop_last() =~= ids.deep_view().take(i as int));
            assert(next.last() == ids[i as int]@);
            if i == 1 {
                assert(comma_joined(next.drop_last()) == next.drop_last()[0]);
            }
        }
        if i > 0 {
            out.append(",");
        }
        out.append(ids[i].as_str());
        proof {
            let next = ids.deep_view().take(i + 1);
            if i == 0 {
                assert(out@ =~= next[0]);
            }
        }
        i += 1;
    }
    proof {
        assert(ids.deep_view().take(i as int) =~= ids.deep_view());
    }
    out
}

impl EngineError {
    /// A failure of kind `Other` with the given sentence.
    pub fn new(message: String) -> (e: Self)
        ensures
            e.kind == ErrorKind::Other,
            e.ids@.len() == 0,
            e.message == message,
    {
        EngineError { kind: ErrorKind::Other, ids: Vec::new(), message }
    }

    /// The failure of adding `id` while its key is taken.
    pub fn duplicate_id(id: String) -> (e: Self)
        ensures
            e.kind == ErrorKind::DuplicateId,
            e.ids.deep_view() == seq![id@],
            e.message@ == duplicate_message(id@),
    {
        let mut message = String::from_str("Id ");
        message.append(id.as_str());
        message.append(" already exists");
        let mut ids: Vec<String> = Vec::new();
        ids.push(id);
        proof {
            assert(ids.deep_view() =~= seq![id@]);
        }
        EngineError { kind: ErrorKind::DuplicateId, ids, message }
    }

    /// The failure of removing identifiers of which `missing` are absent.
    pub fn not_found(missing: Vec<String>) -> (e: Self)
        ensures
            e.kind == ErrorKind::NotFound,
            e.ids == missing,
            e.message@ == not_found_message(missing.deep_view()),
    {
        let mut message = String::from_str("The ids ");
        let joined = join_ids(&missing);
        message.append(joined.as_str());
        message.append(" not found");
        EngineError { kind: ErrorKind::NotFound, ids: missing, message }
    }

    /// The failure of loading bytes that are not a persisted index.
    pub fn corrupt_data() -> (e: Self)
        ensures
            e.kind == ErrorKind::CorruptData,
            e.ids@.len() == 0,
            e.message@ == "Corrupt index data"@,
    {
        EngineError {
            kind: ErrorKind::CorruptData,
            ids: Vec::new(),
            message: String::from_str("Corrupt index data"),
        }
    }

    /// The sentence of this failure.
    pub fn to_string(&self) -> (text: String)
        ensures
            text@ == self.message@,
    {
        self.message.clone()
    }
}

} // verus!
