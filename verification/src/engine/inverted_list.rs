//! The cluster lists: for each cluster of the codebook that was added, the
//! vectors that belong to it, each with its code, in the order they came.
//! A list names a vector at most once.

use vstd::prelude::*;
use crate::engine::types::{ClusterId, VecId};

verus! {

/// A listed vector: its id and its code.
#[derive(Clone, Debug, PartialEq, Eq)]
pub struct InvertedListInnerValue {
    pub vec_id: VecId,
    pub pq_code: Vec<ClusterId>,
}

impl View for InvertedListInnerValue {
    type V = (VecId, Seq<ClusterId>);

    open spec fn view(&self) -> (VecId, Seq<ClusterId>) {
        (self.vec_id, self.pq_code@)
    }
}

/// The vectors of one cluster.
#[derive(Clone, Debug, PartialEq, Eq)]
pub struct InvertedListValue {
    pub entries_array: Vec<InvertedListInnerValue>,
}

/// The views of a run of listed vectors.
pub open spec fn listed(entries: Seq<InvertedListInnerValue>) -> Seq<(VecId, Seq<ClusterId>)> {
    entries.map_values(|e: InvertedListInnerValue| e@)
}

impl View for InvertedListValue {
    type V = Seq<(VecId, Seq<ClusterId>)>;

    open spec fn view(&self) -> Seq<(VecId, Seq<ClusterId>)> {
        listed(self.entries_array@)
    }
}

/// Why a list was not changed.
#[derive(Clone, Copy, Debug, PartialEq, Eq)]
pub enum ListError {
    /// The codebook has no such cluster.
    NotInCodebook(ClusterId),
    /// The cluster was added before.
    DuplicateCluster(ClusterId),
    /// The cluster was not added.
    MissingCluster(ClusterId),
    /// No code is known for the vector.
    UnknownVector(VecId),
    /// The cluster lists the vector already.
    DuplicateVector(VecId),
    /// The cluster does not list the vector.
    MissingVector(VecId),
}

/// The position of the first entry for `vec_id`, or the number of entries
/// if there is none.
pub open spec fn position(entries: Seq<(VecId, Seq<ClusterId>)>, vec_id: VecId) -> int
    decreases entries.len(),
{
    if entries.len() == 0 {
        0
    } else if entries[0].0 == vec_id {
        0
    } else {
        1 + position(entries.drop_first(), vec_id)
    }
}

/// The cluster was added.
pub open spec fn has_cluster(
    clusters: Seq<Option<Seq<(VecId, Seq<ClusterId>)>>>,
    id: ClusterId,
) -> bool {
    id < clusters.len() && clusters[id as int] is Some
}

/// The lists after a cluster of the codebook was added, with no vectors yet.
pub open spec fn with_cluster(
    clusters: Seq<Option<Seq<(VecId, Seq<ClusterId>)>>>,
    id: ClusterId,
) -> Result<Seq<Option<Seq<(VecId, Seq<ClusterId>)>>>, ListError> {
    if id >= clusters.len() {
        Err(ListError::NotInCodebook(id))
    } else if clusters[id as int] is Some {
        Err(ListError::DuplicateCluster(id))
    } else {
        Ok(clusters.update(id as int, Some(Seq::empty())))
    }
}

/// The lists after a vector was appended to a cluster, with the code that is
/// known for it.
pub open spec fn with_vector(
    clusters: Seq<Option<Seq<(VecId, Seq<ClusterId>)>>>,
    codes: Seq<(VecId, Seq<ClusterId>)>,
    vec_id: VecId,
    cluster_id: ClusterId,
) -> Result<Seq<Option<Seq<(VecId, Seq<ClusterId>)>>>, ListError> {
    if !has_cluster(clusters, cluster_id) {
        Err(ListError::MissingCluster(cluster_id))
    } else if position(codes, vec_id) >= codes.len() {
        Err(ListError::UnknownVector(vec_id))
    } else if position(clusters[cluster_id as int]->Some_0, vec_id)
        < clusters[cluster_id as int]->Some_0.len() {
        Err(ListError::DuplicateVector(vec_id))
    } else {
        Ok(
            clusters.update(
                cluster_id as int,
                Some(
                    clusters[cluster_id as int]->Some_0.push(
                        (vec_id, codes[position(codes, vec_id)].1),
                    ),
                ),
            ),
        )
    }
}

/// The lists after a vector was taken out of a cluster.
pub open spec fn without_vector(
    clusters: Seq<Option<Seq<(VecId, Seq<ClusterId>)>>>,
    vec_id: VecId,
    cluster_id: ClusterId,
) -> Result<Seq<Option<Seq<(VecId, Seq<ClusterId>)>>>, ListError> {
    if !has_cluster(clusters, cluster_id) {
        Err(ListError::MissingCluster(cluster_id))
    } else if position(clusters[cluster_id as int]->Some_0, vec_id)
        >= clusters[cluster_id as int]->Some_0.len() {
        Err(ListError::MissingVector(vec_id))
    } else {
        Ok(
            clusters.update(
                cluster_id as int,
                Some(
                    clusters[cluster_id as int]->Some_0.remove(
                        position(clusters[cluster_id as int]->Some_0, vec_id),
                    ),
                ),
            ),
        )
    }
}

/// The lists after a vector moved from one cluster to the end of another,
/// with its code.
pub open spec fn transferred(
    clusters: Seq<Option<Seq<(VecId, Seq<ClusterId>)>>>,
    vec_id: VecId,
    source: ClusterId,
    target: ClusterId,
) -> Result<Seq<Option<Seq<(VecId, Seq<ClusterId>)>>>, ListError> {
    if !has_cluster(clusters, source) {
        Err(ListError::MissingCluster(source))
    } else if !has_cluster(clusters, target) {
        Err(ListError::MissingCluster(target))
    } else if position(clusters[source as int]->Some_0, vec_id)
        >= clusters[source as int]->Some_0.len() {
        Err(ListError::MissingVector(vec_id))
    } else if source != target && position(clusters[target as int]->Some_0, vec_id)
        < clusters[target as int]->Some_0.len() {
        Err(ListError::DuplicateVector(vec_id))
    } else {
        let from = clusters[source as int]->Some_0;
        let at = position(from, vec_id);
        let taken = clusters.update(source as int, Some(from.remove(at)));
        Ok(taken.update(target as int, Some(taken[target as int]->Some_0.push(from[at]))))
    }
}

/// The lists after the clusters were added in order, up to the first that
/// could not be, and what was wrong with that one.
pub open spec fn with_clusters(
    clusters: Seq<Option<Seq<(VecId, Seq<ClusterId>)>>>,
    ids: Seq<ClusterId>,
) -> (Seq<Option<Seq<(VecId, Seq<ClusterId>)>>>, Option<ListError>)
    decreases ids.len(),
{
    if ids.len() == 0 {
        (clusters, None)
    } else {
        let front = with_clusters(clusters, ids.drop_last());
        if front.1 is Some {
            front
        } else {
            match with_cluster(front.0, ids.last()) {
                Ok(next) => (next, None),
                Err(e) => (front.0, Some(e)),
            }
        }
    }
}

/// The lists after the vectors were appended to a cluster in order, up to
/// the first that could not be, and what was wrong with that one.
pub open spec fn with_vectors(
    clusters: Seq<Option<Seq<(VecId, Seq<ClusterId>)>>>,
    codes: Seq<(VecId, Seq<ClusterId>)>,
    vec_ids: Seq<VecId>,
    cluster_id: ClusterId,
) -> (Seq<Option<Seq<(VecId, Seq<ClusterId>)>>>, Option<ListError>)
    decreases vec_ids.len(),
{
    if vec_ids.len() == 0 {
        (clusters, None)
    } else {
        let front = with_vectors(clusters, codes, vec_ids.drop_last(), cluster_id);
        if front.1 is Some {
            front
        } else {
            match with_vector(front.0, codes, vec_ids.last(), cluster_id) {
                Ok(next) => (next, None),
                Err(e) => (front.0, Some(e)),
            }
        }
    }
}

/// The lists after the vectors were taken out of a cluster in order, up to
/// the first that could not be, and what was wrong with that one.
pub open spec fn without_vectors(
    clusters: Seq<Option<Seq<(VecId, Seq<ClusterId>)>>>,
    vec_ids: Seq<VecId>,
    cluster_id: ClusterId,
) -> (Seq<Option<Seq<(VecId, Seq<ClusterId>)>>>, Option<ListError>)
    decreases vec_ids.len(),
{
    if vec_ids.len() == 0 {
        (clusters, None)
    } else {
        let front = without_vectors(clusters, vec_ids.drop_last(), cluster_id);
        if front.1 is Some {
            front
        } else {
            match without_vector(front.0, vec_ids.last(), cluster_id) {
                Ok(next) => (next, None),
                Err(e) => (front.0, Some(e)),
            }
        }
    }
}

/// The run names no vector twice.
pub open spec fn once(entries: Seq<(VecId, Seq<ClusterId>)>) -> bool {
    forall|i: int, j: int|
        0 <= i < j < entries.len() ==> (#[trigger] entries[i]).0 != (#[trigger] entries[j]).0
}

/// No list names a vector twice.
pub open spec fn lists_once(clusters: Seq<Option<Seq<(VecId, Seq<ClusterId>)>>>) -> bool {
    forall|c: int|
        0 <= c < clusters.len() && (#[trigger] clusters[c]) is Some ==> once(clusters[c]->Some_0)
}

/// The run lists the vector.
pub open spec fn lists_vector(entries: Seq<(VecId, Seq<ClusterId>)>, vec_id: VecId) -> bool {
    position(entries, vec_id) < entries.len()
}

proof fn lemma_once_push(entries: Seq<(VecId, Seq<ClusterId>)>, e: (VecId, Seq<ClusterId>))
    requires
        once(entries),
        !lists_vector(entries, e.0),
    ensures
        once(entries.push(e)),
        lists_vector(entries.push(e), e.0),
{
    lemma_position(entries, e.0);
    let next = entries.push(e);
    assert forall|i: int, j: int| 0 <= i < j < next.len() implies (#[trigger] next[i]).0 != (
    #[trigger] next[j]).0 by {
        if j < entries.len() {
            assert(next[i] == entries[i]);
            assert(next[j] == entries[j]);
        } else {
            assert(next[i] == entries[i]);
        }
    }
    lemma_position(next, e.0);
    if position(next, e.0) >= next.len() {
        assert(next[next.len() - 1].0 != e.0);
    }
}

proof fn lemma_once_remove(entries: Seq<(VecId, Seq<ClusterId>)>, at: int)
    requires
        once(entries),
        0 <= at < entries.len(),
    ensures
        once(entries.remove(at)),
        !lists_vector(entries.remove(at), entries[at].0),
{
    let rest = entries.remove(at);
    assert forall|i: int, j: int| 0 <= i < j < rest.len() implies (#[trigger] rest[i]).0 != (
    #[trigger] rest[j]).0 by {
        let a = if i < at {
            i
        } else {
            i + 1
        };
        let b = if j < at {
            j
        } else {
            j + 1
        };
        assert(rest[i] == entries[a]);
        assert(rest[j] == entries[b]);
    }
    assert forall|k: int| 0 <= k < rest.len() implies (#[trigger] rest[k]).0 != entries[at].0 by {
        let a = if k < at {
            k
        } else {
            k + 1
        };
        assert(rest[k] == entries[a]);
        if a < at {
            assert(entries[a].0 != entries[at].0);
        } else {
            assert(entries[at].0 != entries[a].0);
        }
    }
    lemma_position_is(rest, entries[at].0, rest.len() as int);
}

/// Adding a cluster keeps every list free of repeats.
pub proof fn lemma_with_cluster_once(
    clusters: Seq<Option<Seq<(VecId, Seq<ClusterId>)>>>,
    id: ClusterId,
)
    requires
        lists_once(clusters),
        with_cluster(clusters, id) is Ok,
    ensures
        lists_once(with_cluster(clusters, id)->Ok_0),
{
    let after = with_cluster(clusters, id)->Ok_0;
    assert forall|c: int| 0 <= c < after.len() && (#[trigger] after[c]) is Some implies once(
        after[c]->Some_0,
    ) by {
        if c != id {
            assert(after[c] == clusters[c]);
        }
    }
}

/// Appending a vector keeps every list free of repeats, and the cluster
/// lists the vector afterwards.
pub proof fn lemma_with_vector_once(
    clusters: Seq<Option<Seq<(VecId, Seq<ClusterId>)>>>,
    codes: Seq<(VecId, Seq<ClusterId>)>,
    vec_id: VecId,
    cluster_id: ClusterId,
)
    requires
        lists_once(clusters),
        with_vector(clusters, codes, vec_id, cluster_id) is Ok,
    ensures
        lists_once(with_vector(clusters, codes, vec_id, cluster_id)->Ok_0),
        lists_vector(
            with_vector(clusters, codes, vec_id, cluster_id)->Ok_0[cluster_id as int]->Some_0,
            vec_id,
        ),
{
    let after = with_vector(clusters, codes, vec_id, cluster_id)->Ok_0;
    let list = clusters[cluster_id as int]->Some_0;
    assert(once(list));
    lemma_once_push(list, (vec_id, codes[position(codes, vec_id)].1));
    assert forall|c: int| 0 <= c < after.len() && (#[trigger] after[c]) is Some implies once(
        after[c]->Some_0,
    ) by {
        if c != cluster_id {
            assert(after[c] == clusters[c]);
        }
    }
}

/// Taking a vector out keeps every list free of repeats, and the cluster
/// does not list the vector afterwards.
pub proof fn lemma_without_vector_once(
    clusters: Seq<Option<Seq<(VecId, Seq<ClusterId>)>>>,
    vec_id: VecId,
    cluster_id: ClusterId,
)
    requires
        lists_once(clusters),
        without_vector(clusters, vec_id, cluster_id) is Ok,
    ensures
        lists_once(without_vector(clusters, vec_id, cluster_id)->Ok_0),
        !lists_vector(
            without_vector(clusters, vec_id, cluster_id)->Ok_0[cluster_id as int]->Some_0,
            vec_id,
        ),
{
    let after = without_vector(clusters, vec_id, cluster_id)->Ok_0;
    let list = clusters[cluster_id as int]->Some_0;
    assert(once(list));
    lemma_position(list, vec_id);
    lemma_once_remove(list, position(list, vec_id));
    assert forall|c: int| 0 <= c < after.len() && (#[trigger] after[c]) is Some implies once(
        after[c]->Some_0,
    ) by {
        if c != cluster_id {
            assert(after[c] == clusters[c]);
        }
    }
}

/// Moving a vector keeps every list free of repeats; the target lists the
/// vector afterwards, and the source, where it is another cluster, does not.
pub proof fn lemma_transferred_once(
    clusters: Seq<Option<Seq<(VecId, Seq<ClusterId>)>>>,
    vec_id: VecId,
    source: ClusterId,
    target: ClusterId,
)
    requires
        lists_once(clusters),
        transferred(clusters, vec_id, source, target) is Ok,
    ensures
        lists_once(transferred(clusters, vec_id, source, target)->Ok_0),
        lists_vector(
            transferred(clusters, vec_id, source, target)->Ok_0[target as int]->Some_0,
            vec_id,
        ),
        source != target ==> !lists_vector(
            transferred(clusters, vec_id, source, target)->Ok_0[source as int]->Some_0,
            vec_id,
        ),
{
    let after = transferred(clusters, vec_id, source, target)->Ok_0;
    let from = clusters[source as int]->Some_0;
    let at = position(from, vec_id);
    assert(once(from));
    lemma_position(from, vec_id);
    lemma_once_remove(from, at);
    let taken = clusters.update(source as int, Some(from.remove(at)));
    let to = taken[target as int]->Some_0;
    if source != target {
        assert(to == clusters[target as int]->Some_0);
        assert(once(to));
    }
    lemma_once_push(to, from[at]);
    assert forall|c: int| 0 <= c < after.len() && (#[trigger] after[c]) is Some implies once(
        after[c]->Some_0,
    ) by {
        if c != target && c != source {
            assert(after[c] == clusters[c]);
        }
    }
}

/// The position of a vector is that of its first entry, if it has one.
pub proof fn lemma_position(entries: Seq<(VecId, Seq<ClusterId>)>, vec_id: VecId)
    ensures
        0 <= position(entries, vec_id) <= entries.len(),
        forall|i: int| 0 <= i < position(entries, vec_id) ==> (#[trigger] entries[i]).0 != vec_id,
        position(entries, vec_id) < entries.len() ==> entries[position(entries, vec_id)].0
            == vec_id,
    decreases entries.len(),
{
    if entries.len() > 0 && entries[0].0 != vec_id {
        lemma_position(entries.drop_first(), vec_id);
        assert forall|i: int| 0 <= i < position(entries, vec_id) implies (#[trigger] entries[i]).0
            != vec_id by {
            if i > 0 {
                assert(entries.drop_first()[i - 1] == entries[i]);
            }
        }
    }
}

proof fn lemma_position_is(entries: Seq<(VecId, Seq<ClusterId>)>, vec_id: VecId, at: int)
    requires
        0 <= at <= entries.len(),
        forall|i: int| 0 <= i < at ==> (#[trigger] entries[i]).0 != vec_id,
        at < entries.len() ==> entries[at].0 == vec_id,
    ensures
        position(entries, vec_id) == at,
{
    lemma_position(entries, vec_id);
    let p = position(entries, vec_id);
    if p < at {
        assert(entries[p].0 != vec_id);
    } else if p > at {
        assert(entries[at].0 != vec_id);
    }
}

fn position_of(entries: &Vec<InvertedListInnerValue>, vec_id: VecId) -> (at: usize)
    ensures
        at == position(listed(entries@), vec_id),
        at <= entries.len(),
{
    let mut at: usize = 0;
    while at < entries.len() && entries[at].vec_id != vec_id
        invariant
            at <= entries.len(),
            forall|i: int| 0 <= i < at ==> (#[trigger] listed(entries@)[i]).0 != vec_id,
        decreases entries.len() - at,
    {
        assert(listed(entries@)[at as int] == entries[at as int]@);
        at += 1;
    }
    proof {
        if at < entries.len() {
            assert(listed(entries@)[at as int] == entries[at as int]@);
        }
        lemma_position_is(listed(entries@), vec_id, at as int);
    }
    at
}

fn copy_code(code: &Vec<ClusterId>) -> (copy: Vec<ClusterId>)
    ensures
        copy@ == code@,
{
    let mut copy: Vec<ClusterId> = Vec::new();
    let mut i: usize = 0;
    while i < code.len()
        invariant
            i <= code.len(),
            copy@ == code@.subrange(0, i as int),
        decreases code.len() - i,
    {
        copy.push(code[i]);
        assert(code@.subrange(0, i + 1) =~= code@.subrange(0, i as int).push(code[i as int]));
        i += 1;
    }
    assert(code@.subrange(0, code.len() as int) =~= code@);
    copy
}

/// The lists of the clusters of a codebook, and the codes of the vectors
/// that can be listed.
#[derive(Clone, Debug, PartialEq, Eq)]
pub struct InvertedList {
    pq_codes: Vec<InvertedListInnerValue>,
    slots: Vec<Slot>,
}

/// The place of one cluster of the codebook: whether it was added, and its
/// list.
#[derive(Clone, Debug, PartialEq, Eq)]
struct Slot {
    present: bool,
    list: InvertedListValue,
}

impl InvertedList {
    /// The codes that are known, by vector.
    pub closed spec fn codes(&self) -> Seq<(VecId, Seq<ClusterId>)> {
        listed(self.pq_codes@)
    }

    /// For each cluster of the codebook, its list if it was added.
    pub closed spec fn clusters(&self) -> Seq<Option<Seq<(VecId, Seq<ClusterId>)>>> {
        Seq::new(
            self.slots.len() as nat,
            |c: int|
                if self.slots[c].present {
                    Some(self.slots[c].list@)
                } else {
                    None
                },
        )
    }

    /// No list names a vector twice.
    pub open spec fn wf(&self) -> bool {
        lists_once(self.clusters())
    }

    /// The lists for a codebook of `codebook_size` clusters, none of them
    /// added yet, with the codes that are known.
    pub fn new(codebook_size: usize, pq_codes: Vec<InvertedListInnerValue>) -> (list: Self)
        ensures
            list.wf(),
            list.codes() == listed(pq_codes@),
            list.clusters().len() == codebook_size,
            forall|c: int| 0 <= c < codebook_size ==> (#[trigger] list.clusters()[c]) is None,
    {
        let mut slots: Vec<Slot> = Vec::new();
        let mut c: usize = 0;
        while c < codebook_size
            invariant
                c <= codebook_size,
                slots.len() == c,
                forall|i: int| 0 <= i < c ==> !(#[trigger] slots[i]).present,
            decreases codebook_size - c,
        {
            slots.push(Slot { present: false, list: InvertedListValue { entries_array: Vec::new() } });
            c += 1;
        }
        InvertedList { pq_codes, slots }
    }

    fn add_cluster(&mut self, id: ClusterId) -> (r: Result<(), ListError>)
        requires
            old(self).wf(),
        ensures
            final(self).wf(),
            final(self).codes() == old(self).codes(),
            with_cluster(old(self).clusters(), id) is Ok ==> r is Ok && final(self).clusters()
                == with_cluster(old(self).clusters(), id)->Ok_0,
            with_cluster(old(self).clusters(), id) is Err ==> r is Err && r->Err_0 == with_cluster(
                old(self).clusters(),
                id,
            )->Err_0 && final(self).clusters() == old(self).clusters(),
    {
        if id >= self.slots.len() {
            return Err(ListError::NotInCodebook(id));
        }
        if self.slots[id].present {
            return Err(ListError::DuplicateCluster(id));
        }
        self.slots[id] = Slot { present: true, list: InvertedListValue { entries_array: Vec::new() } };
        proof {
            assert(self.slots[id as int].list@ =~= Seq::empty());
            assert(self.clusters() =~= old(self).clusters().update(id as int, Some(Seq::empty())));
            lemma_with_cluster_once(old(self).clusters(), id);
        }
        Ok(())
    }

    /// Adds the clusters in order, each with no vectors. Stops at the first
    /// that the codebook does not have or that was added before; the
    /// clusters before it stay added.
    pub fn add_clusters(&mut self, ids: &[ClusterId]) -> (r: Result<(), ListError>)
        requires
            old(self).wf(),
        ensures
            final(self).wf(),
            final(self).codes() == old(self).codes(),
            final(self).clusters() == with_clusters(old(self).clusters(), ids@).0,
            r is Err <==> with_clusters(old(self).clusters(), ids@).1 is Some,
            r is Err ==> Some(r->Err_0) == with_clusters(old(self).clusters(), ids@).1,
    {
        let mut i: usize = 0;
        proof {
            assert(ids@.subrange(0, 0) =~= Seq::<ClusterId>::empty());
        }
        while i < ids.len()
            invariant
                i <= ids.len(),
                self.wf(),
                self.codes() == old(self).codes(),
                with_clusters(old(self).clusters(), ids@.subrange(0, i as int)) == (
                    self.clusters(),
                    None::<ListError>,
                ),
            decreases ids.len() - i,
        {
            proof {
                assert(ids@.subrange(0, i + 1).drop_last() =~= ids@.subrange(0, i as int));
                assert(ids@.subrange(0, i + 1).last() == ids[i as int]);
            }
            match self.add_cluster(ids[i]) {
                Ok(()) => {},
                Err(e) => {
                    proof {
                        lemma_with_clusters_stops(old(self).clusters(), ids@, i + 1);
                    }
                    return Err(e);
                },
            }
            i += 1;
        }
        proof {
            assert(ids@.subrange(0, ids.len() as int) =~= ids@);
        }
        Ok(())
    }

    /// Appends the vector to the cluster's list, with the code that is known
    /// for it.
    pub fn add_vector(&mut self, vec_id: VecId, cluster_id: ClusterId) -> (r: Result<(), ListError>)
        requires
            old(self).wf(),
        ensures
            final(self).wf(),
            r is Ok ==> lists_vector(final(self).clusters()[cluster_id as int]->Some_0, vec_id),
            final(self).codes() == old(self).codes(),
            with_vector(old(self).clusters(), old(self).codes(), vec_id, cluster_id) is Ok ==> r is Ok
                && final(self).clusters() == with_vector(
                old(self).clusters(),
                old(self).codes(),
                vec_id,
                cluster_id,
            )->Ok_0,
            with_vector(old(self).clusters(), old(self).codes(), vec_id, cluster_id) is Err ==> r is Err
                && r->Err_0 == with_vector(
                old(self).clusters(),
                old(self).codes(),
                vec_id,
                cluster_id,
            )->Err_0 && final(self).clusters() == old(self).clusters(),
    {
        if cluster_id >= self.slots.len() || !self.slots[cluster_id].present {
            return Err(ListError::MissingCluster(cluster_id));
        }
        let known = position_of(&self.pq_codes, vec_id);
        if known >= self.pq_codes.len() {
            return Err(ListError::UnknownVector(vec_id));
        }
        let at = position_of(&self.slots[cluster_id].list.entries_array, vec_id);
        if at < self.slots[cluster_id].list.entries_array.len() {
            return Err(ListError::DuplicateVector(vec_id));
        }
        let pq_code = copy_code(&self.pq_codes[known].pq_code);
        proof {
            lemma_position(self.codes(), vec_id);
            assert(self.codes()[known as int] == self.pq_codes[known as int]@);
        }
        let ghost before = self.slots[cluster_id as int].list@;
        self.slots[cluster_id].list.entries_array.push(InvertedListInnerValue { vec_id, pq_code });
        proof {
            assert(self.slots[cluster_id as int].list@ =~= before.push((vec_id, pq_code@)));
            assert(self.clusters() =~= old(self).clusters().update(
                cluster_id as int,
                Some(before.push((vec_id, pq_code@))),
            ));
            lemma_with_vector_once(old(self).clusters(), old(self).codes(), vec_id, cluster_id);
        }
        Ok(())
    }

    /// Appends the vectors to the cluster's list in order. Stops at the first
    /// that cannot be appended; the vectors before it stay listed.
    pub fn batch_add_vector(&mut self, vec_ids: &[VecId], cluster_id: ClusterId) -> (r: Result<
        (),
        ListError,
    >)
        requires
            old(self).wf(),
        ensures
            final(self).wf(),
            final(self).codes() == old(self).codes(),
            final(self).clusters() == with_vectors(
                old(self).clusters(),
                old(self).codes(),
                vec_ids@,
                cluster_id,
            ).0,
            r is Err <==> with_vectors(
                old(self).clusters(),
                old(self).codes(),
                vec_ids@,
                cluster_id,
            ).1 is Some,
            r is Err ==> Some(r->Err_0) == with_vectors(
                old(self).clusters(),
                old(self).codes(),
                vec_ids@,
                cluster_id,
            ).1,
    {
        let mut i: usize = 0;
        proof {
            assert(vec_ids@.subrange(0, 0) =~= Seq::<VecId>::empty());
        }
        while i < vec_ids.len()
            invariant
                i <= vec_ids.len(),
                self.wf(),
                self.codes() == old(self).codes(),
                with_vectors(
                    old(self).clusters(),
                    old(self).codes(),
                    vec_ids@.subrange(0, i as int),
                    cluster_id,
                ) == (self.clusters(), None::<ListError>),
            decreases vec_ids.len() - i,
        {
            proof {
                assert(vec_ids@.subrange(0, i + 1).drop_last() =~= vec_ids@.subrange(0, i as int));
                assert(vec_ids@.subrange(0, i + 1).last() == vec_ids[i as int]);
            }
            match self.add_vector(vec_ids[i], cluster_id) {
                Ok(()) => {},
                Err(e) => {
                    proof {
                        lemma_with_vectors_stops(
                            old(self).clusters(),
                            old(self).codes(),
                            vec_ids@,
                            cluster_id,
                            i + 1,
                        );
                    }
                    return Err(e);
                },
            }
            i += 1;
        }
        proof {
            assert(vec_ids@.subrange(0, vec_ids.len() as int) =~= vec_ids@);
        }
        Ok(())
    }

    /// Takes the vector out of the cluster's list and hands back its id.
    pub fn delete_vector(&mut self, vec_id: VecId, cluster_id: ClusterId) -> (r: Result<
        VecId,
        ListError,
    >)
        requires
            old(self).wf(),
        ensures
            final(self).wf(),
            r is Ok ==> !lists_vector(final(self).clusters()[cluster_id as int]->Some_0, vec_id),
            final(self).codes() == old(self).codes(),
            without_vector(old(self).clusters(), vec_id, cluster_id) is Ok ==> r is Ok && r->Ok_0
                == vec_id && final(self).clusters() == without_vector(
                old(self).clusters(),
                vec_id,
                cluster_id,
            )->Ok_0,
            without_vector(old(self).clusters(), vec_id, cluster_id) is Err ==> r is Err && r->Err_0
                == without_vector(old(self).clusters(), vec_id, cluster_id)->Err_0 && final(self).clusters() == old(self).clusters(),
    {
        if cluster_id >= self.slots.len() || !self.slots[cluster_id].present {
            return Err(ListError::MissingCluster(cluster_id));
        }
        let at = position_of(&self.slots[cluster_id].list.entries_array, vec_id);
        if at >= self.slots[cluster_id].list.entries_array.len() {
            return Err(ListError::MissingVector(vec_id));
        }
        let ghost before = self.slots[cluster_id as int].list@;
        let gone = self.slots[cluster_id].list.entries_array.remove(at);
        proof {
            assert(self.slots[cluster_id as int].list@ =~= before.remove(at as int));
            assert(self.clusters() =~= old(self).clusters().update(
                cluster_id as int,
                Some(before.remove(at as int)),
            ));
            assert(gone@ == before[at as int]);
            lemma_position(before, vec_id);
            lemma_without_vector_once(old(self).clusters(), vec_id, cluster_id);
        }
        Ok(gone.vec_id)
    }

    /// Takes the vectors out of the cluster's list in order and hands back
    /// their ids. Stops at the first that cannot be taken out; the vectors
    /// before it stay out.
    pub fn batch_delete_vector(&mut self, vec_ids: &[VecId], cluster_id: ClusterId) -> (r: Result<
        Vec<VecId>,
        ListError,
    >)
        requires
            old(self).wf(),
        ensures
            final(self).wf(),
            final(self).codes() == old(self).codes(),
            final(self).clusters() == without_vectors(old(self).clusters(), vec_ids@, cluster_id).0,
            r is Err <==> without_vectors(old(self).clusters(), vec_ids@, cluster_id).1 is Some,
            r is Err ==> Some(r->Err_0) == without_vectors(
                old(self).clusters(),
                vec_ids@,
                cluster_id,
            ).1,
            r is Ok ==> r->Ok_0@ == vec_ids@,
    {
        let mut deleted: Vec<VecId> = Vec::new();
        let mut i: usize = 0;
        proof {
            assert(vec_ids@.subrange(0, 0) =~= Seq::<VecId>::empty());
        }
        while i < vec_ids.len()
            invariant
                i <= vec_ids.len(),
                self.wf(),
                self.codes() == old(self).codes(),
                deleted@ == vec_ids@.subrange(0, i as int),
                without_vectors(old(self).clusters(), vec_ids@.subrange(0, i as int), cluster_id)
                    == (self.clusters(), None::<ListError>),
            decreases vec_ids.len() - i,
        {
            proof {
                assert(vec_ids@.subrange(0, i + 1).drop_last() =~= vec_ids@.subrange(0, i as int));
                assert(vec_ids@.subrange(0, i + 1).last() == vec_ids[i as int]);
            }
            match self.delete_vector(vec_ids[i], cluster_id) {
                Ok(id) => {
                    deleted.push(id);
                    assert(deleted@ =~= vec_ids@.subrange(0, i + 1));
                },
                Err(e) => {
                    proof {
                        lemma_without_vectors_stops(
                            old(self).clusters(),
                            vec_ids@,
                            cluster_id,
                            i + 1,
                        );
                    }
                    return Err(e);
                },
            }
            i += 1;
        }
        proof {
            assert(vec_ids@.subrange(0, vec_ids.len() as int) =~= vec_ids@);
        }
        Ok(deleted)
    }

    /// Moves the vector from one cluster's list to the end of another's.
    pub fn transfer_vector(
        &mut self,
        vec_id: VecId,
        source_cluster_id: ClusterId,
        target_cluster_id: ClusterId,
    ) -> (r: Result<(), ListError>)
        requires
            old(self).wf(),
        ensures
            final(self).wf(),
            r is Ok ==> lists_vector(
                final(self).clusters()[target_cluster_id as int]->Some_0,
                vec_id,
            ),
            r is Ok && source_cluster_id != target_cluster_id ==> !lists_vector(
                final(self).clusters()[source_cluster_id as int]->Some_0,
                vec_id,
            ),
            final(self).codes() == old(self).codes(),
            transferred(old(self).clusters(), vec_id, source_cluster_id, target_cluster_id) is Ok
                ==> r is Ok && final(self).clusters() == transferred(
                old(self).clusters(),
                vec_id,
                source_cluster_id,
                target_cluster_id,
            )->Ok_0,
            transferred(old(self).clusters(), vec_id, source_cluster_id, target_cluster_id) is Err
                ==> r is Err && r->Err_0 == transferred(
                old(self).clusters(),
                vec_id,
                source_cluster_id,
                target_cluster_id,
            )->Err_0 && final(self).clusters() == old(self).clusters(),
    {
        if source_cluster_id >= self.slots.len() || !self.slots[source_cluster_id].present {
            return Err(ListError::MissingCluster(source_cluster_id));
        }
        if target_cluster_id >= self.slots.len() || !self.slots[target_cluster_id].present {
            return Err(ListError::MissingCluster(target_cluster_id));
        }
        let at = position_of(&self.slots[source_cluster_id].list.entries_array, vec_id);
        if at >= self.slots[source_cluster_id].list.entries_array.len() {
            return Err(ListError::MissingVector(vec_id));
        }
        if source_cluster_id != target_cluster_id {
            let there = position_of(&self.slots[target_cluster_id].list.entries_array, vec_id);
            if there < self.slots[target_cluster_id].list.entries_array.len() {
                return Err(ListError::DuplicateVector(vec_id));
            }
        }
        let ghost from = self.slots[source_cluster_id as int].list@;
        let moved = self.slots[source_cluster_id].list.entries_array.remove(at);
        let ghost taken = self.clusters();
        proof {
            assert(self.slots[source_cluster_id as int].list@ =~= from.remove(at as int));
            assert(taken =~= old(self).clusters().update(
                source_cluster_id as int,
                Some(from.remove(at as int)),
            ));
            assert(moved@ == from[at as int]);
        }
        let ghost to = self.slots[target_cluster_id as int].list@;
        self.slots[target_cluster_id].list.entries_array.push(moved);
        proof {
            assert(self.slots[target_cluster_id as int].list@ =~= to.push(moved@));
            assert(self.clusters() =~= taken.update(
                target_cluster_id as int,
                Some(to.push(moved@)),
            ));
            lemma_transferred_once(
                old(self).clusters(),
                vec_id,
                source_cluster_id,
                target_cluster_id,
            );
        }
        Ok(())
    }

    /// The vectors that the cluster lists, in order, if it was added. Where
    /// `wf` holds, none comes twice.
    pub fn vectors_of(&self, cluster_id: ClusterId) -> (r: Option<Vec<VecId>>)
        ensures
            has_cluster(self.clusters(), cluster_id) ==> r is Some && r->Some_0@
                == self.clusters()[cluster_id as int]->Some_0.map_values(
                |e: (VecId, Seq<ClusterId>)| e.0,
            ),
            !has_cluster(self.clusters(), cluster_id) ==> r is None,
    {
        if cluster_id >= self.slots.len() || !self.slots[cluster_id].present {
            return None;
        }
        let entries = &self.slots[cluster_id].list.entries_array;
        let mut ids: Vec<VecId> = Vec::new();
        let mut i: usize = 0;
        while i < entries.len()
            invariant
                i <= entries.len(),
                ids.len() == i,
                forall|j: int| 0 <= j < i ==> ids[j] == (#[trigger] entries[j]).vec_id,
            decreases entries.len() - i,
        {
            ids.push(entries[i].vec_id);
            i += 1;
        }
        assert(ids@ =~= listed(entries@).map_values(|e: (VecId, Seq<ClusterId>)| e.0));
        Some(ids)
    }
}

proof fn lemma_with_clusters_stops(
    clusters: Seq<Option<Seq<(VecId, Seq<ClusterId>)>>>,
    ids: Seq<ClusterId>,
    n: int,
)
    requires
        0 <= n <= ids.len(),
        with_clusters(clusters, ids.subrange(0, n)).1 is Some,
    ensures
        with_clusters(clusters, ids) == with_clusters(clusters, ids.subrange(0, n)),
    decreases ids.len(),
{
    if n < ids.len() {
        let front = ids.drop_last();
        assert(front.subrange(0, n) =~= ids.subrange(0, n));
        lemma_with_clusters_stops(clusters, front, n);
    } else {
        assert(ids.subrange(0, n) =~= ids);
    }
}

proof fn lemma_with_vectors_stops(
    clusters: Seq<Option<Seq<(VecId, Seq<ClusterId>)>>>,
    codes: Seq<(VecId, Seq<ClusterId>)>,
    vec_ids: Seq<VecId>,
    cluster_id: ClusterId,
    n: int,
)
    requires
        0 <= n <= vec_ids.len(),
        with_vectors(clusters, codes, vec_ids.subrange(0, n), cluster_id).1 is Some,
    ensures
        with_vectors(clusters, codes, vec_ids, cluster_id) == with_vectors(
            clusters,
            codes,
            vec_ids.subrange(0, n),
            cluster_id,
        ),
    decreases vec_ids.len(),
{
    if n < vec_ids.len() {
        let front = vec_ids.drop_last();
        assert(front.subrange(0, n) =~= vec_ids.subrange(0, n));
        lemma_with_vectors_stops(clusters, codes, front, cluster_id, n);
    } else {
        assert(vec_ids.subrange(0, n) =~= vec_ids);
    }
}

proof fn lemma_without_vectors_stops(
    clusters: Seq<Option<Seq<(VecId, Seq<ClusterId>)>>>,
    vec_ids: Seq<VecId>,
    cluster_id: ClusterId,
    n: int,
)
    requires
        0 <= n <= vec_ids.len(),
        without_vectors(clusters, vec_ids.subrange(0, n), cluster_id).1 is Some,
    ensures
        without_vectors(clusters, vec_ids, cluster_id) == without_vectors(
            clusters,
            vec_ids.subrange(0, n),
            cluster_id,
        ),
    decreases vec_ids.len(),
{
    if n < vec_ids.len() {
        let front = vec_ids.drop_last();
        assert(front.subrange(0, n) =~= vec_ids.subrange(0, n));
        lemma_without_vectors_stops(clusters, front, cluster_id, n);
    } else {
        assert(vec_ids.subrange(0, n) =~= vec_ids);
    }
}

} // verus!
