//! Embeddings of one fixed length. A coordinate is carried as its 32-bit
//! pattern; the pattern of all zero bits stands for the coordinate zero.

use vstd::prelude::*;

verus! {

/// Number of coordinates of every stored embedding.
pub const EMBEDDING_DIMENSION: usize = 1024;

/// An embedding as handed in by a caller, of any length.
pub type Embedding = Vec<u32>;

/// `e` brought to the fixed length: cut after the first
/// `EMBEDDING_DIMENSION` coordinates, or filled up with zeros.
pub open spec fn normalized(e: Seq<u32>) -> Seq<u32> {
    Seq::new(
        EMBEDDING_DIMENSION as nat,
        |i: int|
            if i < e.len() {
                e[i]
            } else {
                0u32
            },
    )
}

/// Copies `embedding` into a vector of exactly `EMBEDDING_DIMENSION`
/// coordinates. Longer input is truncated, shorter input is padded with
/// zeros; neither is an error.
pub fn normalize(embedding: &Vec<u32>) -> (out: Vec<u32>)
    ensures
        out@ == normalized(embedding@),
{
    let mut out: Vec<u32> = Vec::with_capacity(EMBEDDING_DIMENSION);
    let mut i: usize = 0;
    while i < EMBEDDING_DIMENSION
        invariant
            i <= EMBEDDING_DIMENSION,
            out@.len() == i,
            forall|j: int| 0 <= j < i ==> out@[j] == normalized(embedding@)[j],
        decreases EMBEDDING_DIMENSION - i,
    {
        if i < embedding.len() {
            out.push(embedding[i]);
        } else {
            out.push(0u32);
        }
        i += 1;
    }
    proof {
        assert(out@ =~= normalized(embedding@));
    }
    out
}

} // verus!
