//! The coarse quantizer as the index sees it: trained or not, and with what
//! centroids.

use vstd::prelude::*;
use crate::constants::CQ_K_CENTROIDS;
use crate::inverted_index::{with_vector, InvertedIndex};
use crate::primitive_types::{Clusters, Codebook, DistanceTable, IVListEntry};

verus! {

/// Why the quantizer gave no cluster.
#[derive(Clone, Copy, Debug, PartialEq, Eq)]
pub enum ModelError {
    /// The model was asked before it was trained.
    NotTrained,
    /// The number is no cluster of the quantizer.
    ClusterOutOfRange(usize),
}

/// Why training stored nothing.
#[derive(Clone, Copy, Debug, PartialEq, Eq)]
pub enum TrainError {
    /// The training vector at this position was assigned to a cluster that
    /// the index has no bucket for.
    NoSuchCluster(usize),
    /// The index has fewer vector ids left than there are training vectors.
    IdsExhausted,
}

/// One training vector as the fit left it: the cluster it was assigned to,
/// and its distances to the centroids.
#[derive(Clone, Copy, Debug, PartialEq, Eq)]
pub struct Assignment {
    pub cluster: usize,
    pub table: DistanceTable,
}

/// The coarse quantizer. Once trained it holds its centroids.
#[derive(Clone, Copy, Debug, PartialEq, Eq)]
pub struct Model {
    pub model: Option<Codebook>,
}

/// The buckets after the training vectors were stored in order, the first
/// under the id after `last_id`.
pub open spec fn populated(
    before: Seq<Map<u32, IVListEntry>>,
    last_id: u32,
    assigned: Seq<Assignment>,
) -> Seq<Map<u32, IVListEntry>>
    decreases assigned.len(),
{
    if assigned.len() == 0 {
        before
    } else {
        with_vector(
            populated(before, last_id, assigned.drop_last()),
            assigned.last().cluster as int,
            (last_id + assigned.len()) as u32,
            assigned.last().table,
        )
    }
}

/// The position of the first training vector whose cluster has no bucket
/// among `buckets` buckets, or the number of vectors if there is none.
pub open spec fn first_stray(assigned: Seq<Assignment>, buckets: nat) -> int
    decreases assigned.len(),
{
    if assigned.len() == 0 {
        0
    } else if first_stray(assigned.drop_last(), buckets) < assigned.len() - 1 {
        first_stray(assigned.drop_last(), buckets)
    } else if assigned.last().cluster >= buckets || assigned.last().cluster > u8::MAX {
        assigned.len() - 1
    } else {
        assigned.len() as int
    }
}

proof fn lemma_first_stray(assigned: Seq<Assignment>, buckets: nat)
    ensures
        0 <= first_stray(assigned, buckets) <= assigned.len(),
        forall|i: int|
            0 <= i < first_stray(assigned, buckets) ==> (#[trigger] assigned[i]).cluster < buckets
                && assigned[i].cluster <= u8::MAX,
        first_stray(assigned, buckets) < assigned.len() ==> assigned[first_stray(
            assigned,
            buckets,
        )].cluster >= buckets || assigned[first_stray(assigned, buckets)].cluster > u8::MAX,
    decreases assigned.len(),
{
    if assigned.len() > 0 {
        lemma_first_stray(assigned.drop_last(), buckets);
        assert forall|i: int| 0 <= i < assigned.len() - 1 implies assigned.drop_last()[i]
            == assigned[i] by {}
    }
}

proof fn lemma_populated_len(
    before: Seq<Map<u32, IVListEntry>>,
    last_id: u32,
    assigned: Seq<Assignment>,
)
    requires
        first_stray(assigned, before.len()) == assigned.len(),
    ensures
        populated(before, last_id, assigned).len() == before.len(),
    decreases assigned.len(),
{
    if assigned.len() > 0 {
        lemma_first_stray(assigned, before.len());
        lemma_first_stray(assigned.drop_last(), before.len());
        lemma_populated_len(before, last_id, assigned.drop_last());
    }
}

/// Training stores each vector once: under its own id in the bucket of its
/// cluster, with the code that its table selects, and in no other bucket.
pub proof fn lemma_populated_holds_each(
    before: Seq<Map<u32, IVListEntry>>,
    last_id: u32,
    assigned: Seq<Assignment>,
    i: int,
)
    requires
        0 <= i < assigned.len(),
        last_id + assigned.len() <= u32::MAX,
        first_stray(assigned, before.len()) == assigned.len(),
        forall|b: int, k: u32| 0 <= b < before.len() && #[trigger] before[b].contains_key(k) ==> k <= last_id,
    ensures
        populated(before, last_id, assigned)[assigned[i].cluster as int].contains_pair(
            (last_id + 1 + i) as u32,
            IVListEntry {
                pq_code: crate::primitive_types::code_of(assigned[i].table),
                cluster: assigned[i].cluster as u8,
            },
        ),
        forall|b: int|
            0 <= b < before.len() && b != assigned[i].cluster ==> !(#[trigger] populated(
                before,
                last_id,
                assigned,
            )[b]).contains_key((last_id + 1 + i) as u32),
    decreases assigned.len(),
{
    let front = assigned.drop_last();
    lemma_first_stray(assigned, before.len());
    lemma_first_stray(front, before.len());
    lemma_populated_len(before, last_id, front);
    lemma_populated_keys(before, last_id, front);
    if i < assigned.len() - 1 {
        assert(front[i] == assigned[i]);
        lemma_populated_holds_each(before, last_id, front, i);
    }
}

/// Training gives out no id above the last of its own.
proof fn lemma_populated_keys(
    before: Seq<Map<u32, IVListEntry>>,
    last_id: u32,
    assigned: Seq<Assignment>,
)
    requires
        last_id + assigned.len() <= u32::MAX,
        first_stray(assigned, before.len()) == assigned.len(),
        forall|b: int, k: u32| 0 <= b < before.len() && #[trigger] before[b].contains_key(k) ==> k <= last_id,
    ensures
        forall|b: int, k: u32|
            0 <= b < before.len() && #[trigger] populated(before, last_id, assigned)[b].contains_key(k)
                ==> k <= last_id + assigned.len(),
    decreases assigned.len(),
{
    if assigned.len() > 0 {
        let front = assigned.drop_last();
        lemma_first_stray(assigned, before.len());
        lemma_first_stray(front, before.len());
        lemma_populated_len(before, last_id, front);
        lemma_populated_keys(before, last_id, front);
    }
}

impl Model {
    /// An untrained model.
    pub fn new() -> (m: Self)
        ensures
            m.model is None,
    {
        Model { model: None }
    }

    /// Was the model trained?
    pub fn is_trained(&self) -> (b: bool)
        ensures
            b == (self.model is Some),
    {
        self.model.is_some()
    }

    /// The cluster that the fitted quantizer names by `nearest`, the index of
    /// the centroid nearest to a vector.
    pub fn predict(&self, nearest: usize) -> (r: Result<Clusters, ModelError>)
        ensures
            self.model is None ==> r is Err && r->Err_0 == ModelError::NotTrained,
            self.model is Some && nearest >= CQ_K_CENTROIDS ==> r is Err && r->Err_0
                == ModelError::ClusterOutOfRange(nearest),
            self.model is Some && nearest < CQ_K_CENTROIDS ==> r is Ok && r->Ok_0 == nearest,
    {
        match &self.model {
            Some(_) => {
                if nearest < CQ_K_CENTROIDS {
                    Ok(nearest as u8)
                } else {
                    Err(ModelError::ClusterOutOfRange(nearest))
                }
            },
            None => Err(ModelError::NotTrained),
        }
    }

    /// Takes over the outcome of a fit and stores the training vectors.
    ///
    /// An untrained model takes `centroids` for its codebook; a trained one
    /// keeps its own. Each training vector is then coded and stored in the
    /// bucket of its cluster, under the next vector id. If a vector's cluster
    /// has no bucket, or the ids do not suffice, nothing is stored and the
    /// model stays as it was.
    pub fn k_means(
        &mut self,
        ividx: &mut InvertedIndex,
        centroids: &Codebook,
        assigned: &Vec<Assignment>,
    ) -> (r: Result<Codebook, TrainError>)
        ensures
            first_stray(assigned@, old(ividx)@.len()) < assigned.len() ==> r is Err && r->Err_0
                == TrainError::NoSuchCluster(
                first_stray(assigned@, old(ividx)@.len()) as usize,
            ),
            first_stray(assigned@, old(ividx)@.len()) == assigned.len() && old(ividx).last_id()
                + assigned.len() > u32::MAX ==> r is Err && r->Err_0 == TrainError::IdsExhausted,
            first_stray(assigned@, old(ividx)@.len()) == assigned.len() && old(ividx).last_id()
                + assigned.len() <= u32::MAX ==> r is Ok,
            r is Err ==> final(ividx)@ == old(ividx)@ && final(ividx).last_id() == old(
                ividx,
            ).last_id() && final(self).model == old(self).model,
            r is Ok ==> final(self).model == Some(r->Ok_0) && r->Ok_0 == (if old(self).model is Some {
                old(self).model->Some_0
            } else {
                *centroids
            }),
            r is Ok ==> final(ividx)@ == populated(
                old(ividx)@,
                old(ividx).last_id(),
                assigned@,
            ) && final(ividx).last_id() == old(ividx).last_id() + assigned.len(),
            old(ividx).wf() ==> final(ividx).wf(),
    {
        let n = assigned.len();
        let buckets = ividx.len();
        let mut i: usize = 0;
        while i < n
            invariant
                i <= n,
                n == assigned.len(),
                buckets == ividx@.len(),
                first_stray(assigned@.subrange(0, i as int), buckets as nat) == i,
            decreases n - i,
        {
            proof {
                assert(assigned@.subrange(0, i + 1).drop_last() =~= assigned@.subrange(0, i as int));
                lemma_first_stray_prefix(assigned@, buckets as nat, i + 1);
            }
            if assigned[i].cluster >= buckets || assigned[i].cluster > u8::MAX as usize {
                proof {
                    lemma_first_stray_prefix(assigned@, buckets as nat, i + 1);
                }
                return Err(TrainError::NoSuchCluster(i));
            }
            i += 1;
        }
        assert(assigned@.subrange(0, n as int) =~= assigned@);
        let last = ividx.last_vector_id();
        let room: usize = (u32::MAX - last) as usize;
        if room < n {
            return Err(TrainError::IdsExhausted);
        }
        let codebook: Codebook = match &self.model {
            Some(own) => *own,
            None => *centroids,
        };
        self.model = Some(codebook);
        let mut i: usize = 0;
        while i < n
            invariant
                i <= n,
                n == assigned.len(),
                last + n <= u32::MAX,
                last == old(ividx).last_id(),
                first_stray(assigned@, old(ividx)@.len()) == n,
                ividx@ == populated(old(ividx)@, last, assigned@.subrange(0, i as int)),
                ividx.last_id() == last + i,
                old(ividx).wf() ==> ividx.wf(),
            decreases n - i,
        {
            proof {
                lemma_first_stray(assigned@, old(ividx)@.len());
                lemma_first_stray_prefix(assigned@, old(ividx)@.len(), i as int);
                lemma_populated_len(old(ividx)@, last, assigned@.subrange(0, i as int));
                assert(assigned@.subrange(0, i + 1).drop_last() =~= assigned@.subrange(0, i as int));
            }
            let a = &assigned[i];
            let stored = ividx.add_embedding_to_cluster(a.cluster as u8, &a.table);
            assert(stored is Ok);
            i += 1;
        }
        assert(assigned@.subrange(0, n as int) =~= assigned@);
        Ok(codebook)
    }
}

/// A prefix without a stray vector is a prefix of the part before the first
/// stray vector.
proof fn lemma_first_stray_prefix(assigned: Seq<Assignment>, buckets: nat, n: int)
    requires
        0 <= n <= assigned.len(),
    ensures
        first_stray(assigned.subrange(0, n), buckets) == if first_stray(assigned, buckets) < n {
            first_stray(assigned, buckets)
        } else {
            n
        },
    decreases assigned.len(),
{
    if n < assigned.len() {
        let front = assigned.drop_last();
        assert(front.subrange(0, n) =~= assigned.subrange(0, n));
        lemma_first_stray_prefix(front, buckets, n);
        lemma_first_stray(front, buckets);
    } else {
        assert(assigned.subrange(0, n) =~= assigned);
    }
}

} // verus!
