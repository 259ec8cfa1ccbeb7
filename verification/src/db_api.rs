//! What persisting a snapshot does to the store, decided from what the store
//! holds. The store itself, and the bytes of a snapshot, are the caller's.

use vstd::prelude::*;
use crate::constants::{CQ_K_CENTROIDS, EMBEDDING_M_SEGMENTS, SEGMENT_DIM};
use crate::inverted_index::InvertedIndex;
use crate::primitive_types::{Codebook, Embedding, Segment};

verus! {

/// What to do with the store's value under a key.
#[derive(Clone, Copy, Debug, PartialEq, Eq)]
pub enum WriteAction {
    /// The key holds nothing: write the snapshot.
    Put,
    /// The key holds another snapshot: delete it, then write this one.
    Replace,
    /// The key holds this snapshot: write nothing.
    Keep,
}

/// What persisting `new` does where the key holds `stored`.
pub open spec fn action_for<T>(stored: Option<T>, new: T) -> WriteAction {
    match stored {
        None => WriteAction::Put,
        Some(old) => if old == new {
            WriteAction::Keep
        } else {
            WriteAction::Replace
        },
    }
}

/// What the key holds after the action was carried out.
pub open spec fn stored_after<T>(stored: Option<T>, new: T, action: WriteAction) -> Option<T> {
    match action {
        WriteAction::Keep => stored,
        _ => Some(new),
    }
}

/// The number of snapshots that the action writes.
pub open spec fn writes(action: WriteAction) -> nat {
    match action {
        WriteAction::Keep => 0,
        _ => 1,
    }
}

/// Persisting a snapshot leaves the key holding it, and persisting it again
/// writes nothing: the store holds one snapshot, written at most once.
pub proof fn lemma_persist_twice<T>(stored: Option<T>, new: T)
    ensures
        stored_after(stored, new, action_for(stored, new)) == Some(new),
        action_for(stored_after(stored, new, action_for(stored, new)), new) == WriteAction::Keep,
        writes(action_for(stored_after(stored, new, action_for(stored, new)), new)) == 0,
        writes(action_for(stored, new)) + writes(
            action_for(stored_after(stored, new, action_for(stored, new)), new),
        ) <= 1,
        stored == Some(new) ==> writes(action_for(stored, new)) == 0,
{
}

/// Do the two segments hold the same coordinates, bit for bit?
pub fn segment_eq(a: &Segment, b: &Segment) -> (same: bool)
    ensures
        same == (*a == *b),
{
    let mut j: usize = 0;
    while j < SEGMENT_DIM
        invariant
            j <= SEGMENT_DIM,
            forall|t: int| 0 <= t < j ==> a.0[t] == b.0[t],
        decreases SEGMENT_DIM - j,
    {
        if a.0[j] != b.0[j] {
            return false;
        }
        j += 1;
    }
    assert(a.0 =~= b.0);
    true
}

/// Do the two embeddings hold the same coordinates, bit for bit?
pub fn embedding_eq(a: &Embedding, b: &Embedding) -> (same: bool)
    ensures
        same == (*a == *b),
{
    let mut s: usize = 0;
    while s < EMBEDDING_M_SEGMENTS
        invariant
            s <= EMBEDDING_M_SEGMENTS,
            forall|t: int| 0 <= t < s ==> a.0[t] == b.0[t],
        decreases EMBEDDING_M_SEGMENTS - s,
    {
        if !segment_eq(&a.0[s], &b.0[s]) {
            return false;
        }
        s += 1;
    }
    assert(a.0 =~= b.0);
    true
}

/// Do the two codebooks hold the same centroids?
pub fn codebook_eq(a: &Codebook, b: &Codebook) -> (same: bool)
    ensures
        same == (*a == *b),
{
    let mut c: usize = 0;
    while c < CQ_K_CENTROIDS
        invariant
            c <= CQ_K_CENTROIDS,
            forall|t: int| 0 <= t < c ==> a[t] == b[t],
        decreases CQ_K_CENTROIDS - c,
    {
        if !embedding_eq(&a[c], &b[c]) {
            return false;
        }
        c += 1;
    }
    assert(*a =~= *b);
    true
}

/// What persisting the codebook does where the key holds `stored`.
pub fn persist_codebook(stored: Option<&Codebook>, codeb: &Codebook) -> (action: WriteAction)
    ensures
        action == action_for(
            match stored {
                Some(s) => Some(*s),
                None => None,
            },
            *codeb,
        ),
{
    match stored {
        Some(deserialized_cb) => {
            if codebook_eq(codeb, deserialized_cb) {
                WriteAction::Keep
            } else {
                WriteAction::Replace
            }
        },
        None => WriteAction::Put,
    }
}

/// The codebook that a session starts with: the stored one, or one of
/// centroids at the origin where the key holds nothing.
pub fn load_codebook(stored: Option<Codebook>) -> (codebook: Codebook)
    ensures
        stored is Some ==> codebook == stored->Some_0,
        stored is None ==> forall|c: int, i: int|
            0 <= c < CQ_K_CENTROIDS && 0 <= i < crate::constants::EMBEDDING_DIM
                ==> #[trigger] codebook[c].flat()[i] == 0,
{
    match stored {
        Some(codebook) => codebook,
        None => [Embedding([Segment([0u64; SEGMENT_DIM]); EMBEDDING_M_SEGMENTS]); CQ_K_CENTROIDS],
    }
}

/// What persisting the index does where the key holds `stored`. Indexes are
/// the same where their buckets hold the same entries under the same ids.
pub fn persist_ivf(stored: Option<&InvertedIndex>, ivf: &InvertedIndex) -> (action: WriteAction)
    ensures
        action == action_for(
            match stored {
                Some(s) => Some(s@),
                None => None,
            },
            ivf@,
        ),
{
    match stored {
        Some(deserialized_ivf) => {
            if ivf.same_as(deserialized_ivf) {
                WriteAction::Keep
            } else {
                WriteAction::Replace
            }
        },
        None => WriteAction::Put,
    }
}

/// The index that a session starts with: the stored one, or an empty one
/// where the key holds nothing.
pub fn load_ivf(stored: Option<InvertedIndex>) -> (ivf: InvertedIndex)
    ensures
        stored is Some ==> ivf == stored->Some_0,
        stored is None ==> ivf.wf() && ivf.last_id() == 1 && ivf@.len() == CQ_K_CENTROIDS
            && forall|b: int| 0 <= b < CQ_K_CENTROIDS ==> (#[trigger] ivf@[b]).dom() == Set::<u32>::empty(),
{
    match stored {
        Some(ivf) => ivf,
        None => InvertedIndex::empty(),
    }
}

} // verus!
