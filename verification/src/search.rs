//! Answering queries: from a query's coarse cluster and the distances of the
//! codes in that cluster's bucket to its nearest stored codes.

use vstd::prelude::*;
use crate::constants::{
    CENTROIDS_PER_SUBSPACE_CLUSTER, CQ_K_CENTROIDS, EMBEDDING_M_SEGMENTS, INFINITY_BITS,
    RETRIEVE_KNN,
};
use crate::inverted_index::{listing, values_of, AvlWrapper, InvertedIndex};
use crate::maxheap_wrapper::{
    after_pushes, code_key, is_nan, is_top_k, key_le, keys_of, lemma_key_decides,
    lemma_key_order, lemma_pushes_keep_nearest, BinaryHeapWrapper, Distance, DistanceError,
    HeapNode,
};
use crate::model::{Model, ModelError};
use crate::primitive_types::{Clusters, Codebook, DistanceTable, Embedding, IVListEntry, PqCode};

verus! {

/// Why a query has no answer.
#[derive(Clone, Copy, Debug, PartialEq, Eq)]
pub enum SearchError {
    /// The model was asked before it was trained.
    NotTrained,
    /// The quantizer named a cluster that it does not have.
    ClusterOutOfRange(usize),
    /// The index has no bucket for the query's cluster.
    NoSuchCluster(Clusters),
    /// The bucket holds one number of codes, and another number of distances
    /// came with the query.
    LengthMismatch,
    /// The distance at this position is NaN.
    NotANumber(usize),
    /// The distance at this position is negative.
    Negative(usize),
    /// A stored code names a centroid that the table has no row for.
    CodeOutOfRange,
}

/// A coarse cluster and its centroid.
#[derive(Clone, Copy, Debug, PartialEq, Eq)]
pub struct Centroid<'a>(pub (Clusters, &'a Embedding));

/// One query as the quantizer and the distance arithmetic left it: the index
/// of its nearest centroid, and the distance from the query to each code of
/// that centroid's bucket, in the order of the bucket.
#[derive(Clone, Debug, PartialEq, Eq)]
pub struct ScannedQuery {
    pub nearest: usize,
    pub distances: Vec<u64>,
}

/// The cells of a table that a code points at, one per segment. Their sum is
/// the code's distance to the query that the table was computed for.
pub open spec fn lookups_of(table: DistanceTable, code: PqCode) -> Seq<u64> {
    Seq::new(EMBEDDING_M_SEGMENTS as nat, |s: int| table[code[s] as int][s])
}

/// Every cell of the code names a row of a distance table.
pub open spec fn code_in_range(code: PqCode) -> bool {
    forall|s: int| 0 <= s < EMBEDDING_M_SEGMENTS ==> (#[trigger] code[s]) < CENTROIDS_PER_SUBSPACE_CLUSTER
}

/// The position of the first pattern that is no distance, or the number of
/// patterns if all are distances.
pub open spec fn first_invalid(distances: Seq<u64>) -> int
    decreases distances.len(),
{
    if distances.len() == 0 {
        0
    } else if first_invalid(distances.drop_last()) < distances.len() - 1 {
        first_invalid(distances.drop_last())
    } else if distances.last() > INFINITY_BITS {
        distances.len() - 1
    } else {
        distances.len() as int
    }
}

/// The candidates of a query: each code of the bucket with its distance, as
/// the pair that stands for it in the selector.
pub open spec fn candidates(codes: Seq<IVListEntry>, distances: Seq<u64>) -> Seq<(u64, u32)> {
    Seq::new(codes.len(), |i: int| (distances[i], code_key(codes[i].pq_code)))
}

/// Why a bucket with these codes and these distances yields no neighbours,
/// if it yields none.
pub open spec fn selection_error(codes: Seq<IVListEntry>, distances: Seq<u64>) -> Option<
    SearchError,
> {
    let bad = first_invalid(distances);
    if codes.len() != distances.len() {
        Some(SearchError::LengthMismatch)
    } else if bad < distances.len() {
        if is_nan(distances[bad]) {
            Some(SearchError::NotANumber(bad as usize))
        } else {
            Some(SearchError::Negative(bad as usize))
        }
    } else {
        None
    }
}

/// `nodes` answers a query with these candidates: the nearest `RETRIEVE_KNN`
/// of them, nearest first.
pub open spec fn is_answer(nodes: Seq<HeapNode>, cands: Seq<(u64, u32)>) -> bool {
    &&& keys_of(nodes).to_multiset() == after_pushes(cands, RETRIEVE_KNN as nat)
    &&& is_top_k(keys_of(nodes).to_multiset(), cands.to_multiset(), RETRIEVE_KNN as nat)
    &&& nodes.len() <= RETRIEVE_KNN
    &&& forall|i: int, j: int|
        0 <= i < j < nodes.len() ==> key_le(#[trigger] nodes[i].key(), #[trigger] nodes[j].key())
}

/// Why a query has no answer, if it has none.
pub open spec fn query_error(
    index: Seq<Map<u32, IVListEntry>>,
    trained: bool,
    nearest: usize,
    distances: Seq<u64>,
) -> Option<SearchError> {
    if !trained {
        Some(SearchError::NotTrained)
    } else if nearest >= CQ_K_CENTROIDS {
        Some(SearchError::ClusterOutOfRange(nearest))
    } else if nearest >= index.len() {
        Some(SearchError::NoSuchCluster(nearest as u8))
    } else {
        selection_error(values_of(listing(index[nearest as int])), distances)
    }
}

/// A query has one answer only: two runs of nodes that answer the same
/// candidates are the same run.
pub proof fn lemma_answer_unique(a: Seq<HeapNode>, b: Seq<HeapNode>, cands: Seq<(u64, u32)>)
    requires
        is_answer(a, cands),
        is_answer(b, cands),
    ensures
        a == b,
{
    let leq = |x: (u64, u32), y: (u64, u32)| key_le(x, y);
    lemma_key_order();
    assert(vstd::relations::sorted_by(keys_of(a), leq)) by {
        assert forall|i: int, j: int| 0 <= i < j < keys_of(a).len() implies #[trigger] leq(
            keys_of(a)[i],
            keys_of(a)[j],
        ) by {
            assert(key_le(a[i].key(), a[j].key()));
        }
    }
    assert(vstd::relations::sorted_by(keys_of(b), leq)) by {
        assert forall|i: int, j: int| 0 <= i < j < keys_of(b).len() implies #[trigger] leq(
            keys_of(b)[i],
            keys_of(b)[j],
        ) by {
            assert(key_le(b[i].key(), b[j].key()));
        }
    }
    vstd::seq_lib::lemma_sorted_unique(keys_of(a), keys_of(b), leq);
    assert(a.len() == b.len()) by {
        assert(keys_of(a).len() == a.len());
        assert(keys_of(b).len() == b.len());
    }
    assert forall|i: int| 0 <= i < a.len() implies a[i] == b[i] by {
        assert(keys_of(a)[i] == a[i].key());
        assert(keys_of(b)[i] == b[i].key());
        lemma_key_decides(a[i], b[i]);
    }
    assert(a =~= b);
}

/// The runs of nodes that a run of vectors holds.
pub open spec fn lists_of(lists: Seq<Vec<HeapNode>>) -> Seq<Seq<HeapNode>> {
    lists.map_values(|l: Vec<HeapNode>| l@)
}

/// `outcome` is what a batch of queries comes to: answers, one to each query
/// in order, where every query has one; else what is wrong with the first
/// query that has none.
pub open spec fn is_outcome(
    index: Seq<Map<u32, IVListEntry>>,
    trained: bool,
    queries: Seq<ScannedQuery>,
    outcome: Result<Seq<Seq<HeapNode>>, SearchError>,
) -> bool {
    match outcome {
        Ok(lists) => {
            &&& lists.len() == queries.len()
            &&& forall|i: int|
                0 <= i < queries.len() ==> query_error(
                    index,
                    trained,
                    (#[trigger] queries[i]).nearest,
                    queries[i].distances@,
                ) is None
            &&& forall|i: int|
                0 <= i < queries.len() ==> is_answer(
                    #[trigger] lists[i],
                    candidates(
                        values_of(listing(index[queries[i].nearest as int])),
                        queries[i].distances@,
                    ),
                )
        },
        Err(e) => exists|i: int|
            0 <= i < queries.len() && query_error(
                index,
                trained,
                (#[trigger] queries[i]).nearest,
                queries[i].distances@,
            ) == Some(e) && forall|j: int|
                0 <= j < i ==> query_error(
                    index,
                    trained,
                    (#[trigger] queries[j]).nearest,
                    queries[j].distances@,
                ) is None,
    }
}

/// A batch of queries has one outcome only: searching twice with the same
/// index, the same model and the same queries gives the same lists of
/// neighbours in the same order, or the same failure.
pub proof fn lemma_search_unique(
    index: Seq<Map<u32, IVListEntry>>,
    trained: bool,
    queries: Seq<ScannedQuery>,
    a: Result<Seq<Seq<HeapNode>>, SearchError>,
    b: Result<Seq<Seq<HeapNode>>, SearchError>,
)
    requires
        is_outcome(index, trained, queries, a),
        is_outcome(index, trained, queries, b),
    ensures
        a == b,
{
    match (a, b) {
        (Ok(x), Ok(y)) => {
            assert forall|i: int| 0 <= i < x.len() implies x[i] == y[i] by {
                lemma_answer_unique(
                    x[i],
                    y[i],
                    candidates(
                        values_of(listing(index[queries[i].nearest as int])),
                        queries[i].distances@,
                    ),
                );
            }
            assert(x =~= y);
        },
        (Err(e), Err(f)) => {
            let i = choose|i: int|
                0 <= i < queries.len() && query_error(
                    index,
                    trained,
                    (#[trigger] queries[i]).nearest,
                    queries[i].distances@,
                ) == Some(e) && forall|j: int|
                    0 <= j < i ==> query_error(
                        index,
                        trained,
                        (#[trigger] queries[j]).nearest,
                        queries[j].distances@,
                    ) is None;
            let k = choose|k: int|
                0 <= k < queries.len() && query_error(
                    index,
                    trained,
                    (#[trigger] queries[k]).nearest,
                    queries[k].distances@,
                ) == Some(f) && forall|j: int|
                    0 <= j < k ==> query_error(
                        index,
                        trained,
                        (#[trigger] queries[j]).nearest,
                        queries[j].distances@,
                    ) is None;
            if i < k {
                assert(query_error(index, trained, queries[i].nearest, queries[i].distances@)
                    is None);
            } else if k < i {
                assert(query_error(index, trained, queries[k].nearest, queries[k].distances@)
                    is None);
            }
        },
        (Ok(x), Err(f)) => {
            let k = choose|k: int|
                0 <= k < queries.len() && query_error(
                    index,
                    trained,
                    (#[trigger] queries[k]).nearest,
                    queries[k].distances@,
                ) == Some(f) && forall|j: int|
                    0 <= j < k ==> query_error(
                        index,
                        trained,
                        (#[trigger] queries[j]).nearest,
                        queries[j].distances@,
                    ) is None;
            assert(query_error(index, trained, queries[k].nearest, queries[k].distances@) is None);
        },
        (Err(e), Ok(y)) => {
            let i = choose|i: int|
                0 <= i < queries.len() && query_error(
                    index,
                    trained,
                    (#[trigger] queries[i]).nearest,
                    queries[i].distances@,
                ) == Some(e) && forall|j: int|
                    0 <= j < i ==> query_error(
                        index,
                        trained,
                        (#[trigger] queries[j]).nearest,
                        queries[j].distances@,
                    ) is None;
            assert(query_error(index, trained, queries[i].nearest, queries[i].distances@) is None);
        },
    }
}

proof fn lemma_first_invalid(distances: Seq<u64>)
    ensures
        0 <= first_invalid(distances) <= distances.len(),
        forall|i: int| 0 <= i < first_invalid(distances) ==> #[trigger] distances[i] <= INFINITY_BITS,
        first_invalid(distances) < distances.len() ==> distances[first_invalid(distances)]
            > INFINITY_BITS,
    decreases distances.len(),
{
    if distances.len() > 0 {
        lemma_first_invalid(distances.drop_last());
        assert forall|i: int| 0 <= i < distances.len() - 1 implies distances.drop_last()[i]
            == distances[i] by {}
    }
}

proof fn lemma_first_invalid_prefix(distances: Seq<u64>, n: int)
    requires
        0 <= n <= distances.len(),
    ensures
        first_invalid(distances.subrange(0, n)) == if first_invalid(distances) < n {
            first_invalid(distances)
        } else {
            n
        },
    decreases distances.len(),
{
    if n < distances.len() {
        let front = distances.drop_last();
        assert(front.subrange(0, n) =~= distances.subrange(0, n));
        lemma_first_invalid_prefix(front, n);
        lemma_first_invalid(front);
    } else {
        assert(distances.subrange(0, n) =~= distances);
    }
}

/// The cells of `table` that `code` points at.
pub fn table_lookups(table: &DistanceTable, code: &PqCode) -> (r: Result<
    [u64; EMBEDDING_M_SEGMENTS],
    SearchError,
>)
    ensures
        code_in_range(*code) ==> r is Ok && r->Ok_0@ == lookups_of(*table, *code),
        !code_in_range(*code) ==> r is Err && r->Err_0 == SearchError::CodeOutOfRange,
{
    let mut cells: [u64; EMBEDDING_M_SEGMENTS] = [0u64; EMBEDDING_M_SEGMENTS];
    let mut s: usize = 0;
    while s < EMBEDDING_M_SEGMENTS
        invariant
            s <= EMBEDDING_M_SEGMENTS,
            forall|t: int| 0 <= t < s ==> (#[trigger] code[t]) < CENTROIDS_PER_SUBSPACE_CLUSTER,
            forall|t: int| 0 <= t < s ==> #[trigger] cells[t] == table[code[t] as int][t],
        decreases EMBEDDING_M_SEGMENTS - s,
    {
        let c: usize = code[s] as usize;
        if c >= CENTROIDS_PER_SUBSPACE_CLUSTER {
            return Err(SearchError::CodeOutOfRange);
        }
        cells[s] = table[c][s];
        s += 1;
    }
    assert(cells@ =~= lookups_of(*table, *code));
    Ok(cells)
}

/// For each code of the bucket, in the bucket's order, the cells of `table`
/// that it points at.
pub fn scan(bucket: &AvlWrapper, table: &DistanceTable) -> (r: Result<
    Vec<[u64; EMBEDDING_M_SEGMENTS]>,
    SearchError,
>)
    ensures
        (forall|i: int|
            0 <= i < listing(bucket@).len() ==> code_in_range(
                (#[trigger] listing(bucket@)[i]).1.pq_code,
            )) ==> r is Ok,
        r is Ok ==> r->Ok_0.len() == listing(bucket@).len() && forall|i: int|
            0 <= i < r->Ok_0.len() ==> (#[trigger] r->Ok_0[i])@ == lookups_of(
                *table,
                listing(bucket@)[i].1.pq_code,
            ),
        r is Err ==> r->Err_0 == SearchError::CodeOutOfRange && exists|i: int|
            0 <= i < listing(bucket@).len() && !code_in_range(
                (#[trigger] listing(bucket@)[i]).1.pq_code,
            ),
{
    let pairs = bucket.entries();
    let mut rows: Vec<[u64; EMBEDDING_M_SEGMENTS]> = Vec::new();
    let mut i: usize = 0;
    while i < pairs.len()
        invariant
            i <= pairs.len(),
            pairs@ == listing(bucket@),
            rows.len() == i,
            forall|j: int| 0 <= j < i ==> code_in_range((#[trigger] pairs[j]).1.pq_code),
            forall|j: int|
                0 <= j < i ==> (#[trigger] rows[j])@ == lookups_of(*table, pairs[j].1.pq_code),
        decreases pairs.len() - i,
    {
        match table_lookups(table, &pairs[i].1.pq_code) {
            Ok(cells) => {
                rows.push(cells);
            },
            Err(e) => {
                return Err(e);
            },
        }
        i += 1;
    }
    Ok(rows)
}

/// The nearest `RETRIEVE_KNN` codes of a bucket, nearest first, where
/// `distances` holds the distance of each code in the bucket's order.
pub fn select(bucket: &AvlWrapper, distances: &Vec<u64>) -> (r: Result<Vec<HeapNode>, SearchError>)
    ensures
        r is Err <==> selection_error(values_of(listing(bucket@)), distances@) is Some,
        r is Err ==> Some(r->Err_0) == selection_error(values_of(listing(bucket@)), distances@),
        r is Ok ==> is_answer(r->Ok_0@, candidates(values_of(listing(bucket@)), distances@)),
{
    let codes = bucket.get_all();
    let n = codes.len();
    if n != distances.len() {
        return Err(SearchError::LengthMismatch);
    }
    let ghost cands = candidates(codes@, distances@);
    let mut max_heap = BinaryHeapWrapper::new();
    let mut i: usize = 0;
    while i < n
        invariant
            i <= n,
            n == codes.len(),
            n == distances.len(),
            cands == candidates(codes@, distances@),
            codes@ == values_of(listing(bucket@)),
            first_invalid(distances@.subrange(0, i as int)) == i,
            max_heap.limit() == RETRIEVE_KNN,
            max_heap.items() == after_pushes(cands.subrange(0, i as int), RETRIEVE_KNN as nat),
        decreases n - i,
    {
        proof {
            assert(distances@.subrange(0, i + 1).drop_last() =~= distances@.subrange(0, i as int));
            lemma_first_invalid_prefix(distances@, i + 1);
            lemma_first_invalid(distances@);
            assert(cands.subrange(0, i + 1).drop_last() =~= cands.subrange(0, i as int));
            assert(distances@.subrange(0, i + 1).last() == distances[i as int]);
            assert(cands.subrange(0, i + 1).last() == cands[i as int]);
            if distances[i as int] > INFINITY_BITS {
                assert(first_invalid(distances@.subrange(0, i + 1)) == i);
                assert(first_invalid(distances@) == i);
            } else {
                assert(first_invalid(distances@.subrange(0, i + 1)) == i + 1);
            }
        }
        match Distance::new(distances[i]) {
            Ok(d) => {
                let node = HeapNode::new(d, &codes[i].pq_code);
                let _ = max_heap.push(node);
            },
            Err(DistanceError::NotANumber) => {
                return Err(SearchError::NotANumber(i));
            },
            Err(DistanceError::Negative) => {
                return Err(SearchError::Negative(i));
            },
        }
        i += 1;
    }
    proof {
        assert(distances@.subrange(0, n as int) =~= distances@);
        assert(cands.subrange(0, n as int) =~= cands);
        lemma_pushes_keep_nearest(cands, RETRIEVE_KNN as nat);
    }
    let nodes = max_heap.sorted();
    Ok(nodes)
}

impl InvertedIndex {
    /// The cluster that the quantizer names by `nearest`, with its centroid.
    pub fn get_nearest_centroid<'a>(
        &self,
        model: &Model,
        nearest: usize,
        codebook: &'a Codebook,
    ) -> (r: Result<Centroid<'a>, ModelError>)
        ensures
            model.model is None ==> r is Err && r->Err_0 == ModelError::NotTrained,
            model.model is Some && nearest >= CQ_K_CENTROIDS ==> r is Err && r->Err_0
                == ModelError::ClusterOutOfRange(nearest),
            model.model is Some && nearest < CQ_K_CENTROIDS ==> r is Ok && r->Ok_0.0.0 == nearest
                && *r->Ok_0.0.1 == codebook[nearest as int],
    {
        match model.predict(nearest) {
            Ok(predicted_cluster) => Ok(
                Centroid((predicted_cluster, &codebook[predicted_cluster as usize])),
            ),
            Err(e) => Err(e),
        }
    }
}

/// Answers each query from the bucket of its cluster: the nearest
/// `RETRIEVE_KNN` codes of the bucket, nearest first. The batch has answers
/// if and only if every query has one; else it fails as its first query
/// without an answer does.
pub fn search(ividx: &InvertedIndex, queries: &Vec<ScannedQuery>, model: &Model) -> (r: Result<
    Vec<Vec<HeapNode>>,
    SearchError,
>)
    ensures
        (forall|i: int|
            0 <= i < queries.len() ==> query_error(
                ividx@,
                model.model is Some,
                (#[trigger] queries[i]).nearest,
                queries[i].distances@,
            ) is None) ==> r is Ok,
        r is Ok ==> forall|i: int|
            0 <= i < queries.len() ==> query_error(
                ividx@,
                model.model is Some,
                (#[trigger] queries[i]).nearest,
                queries[i].distances@,
            ) is None,
        r is Ok ==> r->Ok_0.len() == queries.len() && forall|i: int|
            0 <= i < queries.len() ==> is_answer(
                (#[trigger] r->Ok_0[i])@,
                candidates(
                    values_of(listing(ividx@[queries[i].nearest as int])),
                    queries[i].distances@,
                ),
            ),
        r is Err ==> exists|i: int|
            0 <= i < queries.len() && query_error(
                ividx@,
                model.model is Some,
                (#[trigger] queries[i]).nearest,
                queries[i].distances@,
            ) == Some(r->Err_0) && forall|j: int|
                0 <= j < i ==> query_error(
                    ividx@,
                    model.model is Some,
                    (#[trigger] queries[j]).nearest,
                    queries[j].distances@,
                ) is None,
        is_outcome(
            ividx@,
            model.model is Some,
            queries@,
            match r {
                Ok(lists) => Ok(lists_of(lists@)),
                Err(e) => Err(e),
            },
        ),
{
    let mut distance_results: Vec<Vec<HeapNode>> = Vec::new();
    let mut ind: usize = 0;
    while ind < queries.len()
        invariant
            ind <= queries.len(),
            distance_results.len() == ind,
            forall|j: int|
                0 <= j < ind ==> query_error(
                    ividx@,
                    model.model is Some,
                    (#[trigger] queries[j]).nearest,
                    queries[j].distances@,
                ) is None,
            forall|i: int|
                0 <= i < ind ==> is_answer(
                    (#[trigger] distance_results[i])@,
                    candidates(
                        values_of(listing(ividx@[queries[i].nearest as int])),
                        queries[i].distances@,
                    ),
                ),
        decreases queries.len() - ind,
    {
        let query = &queries[ind];
        let cluster = match model.predict(query.nearest) {
            Ok(cluster) => cluster,
            Err(ModelError::NotTrained) => {
                return Err(SearchError::NotTrained);
            },
            Err(ModelError::ClusterOutOfRange(c)) => {
                return Err(SearchError::ClusterOutOfRange(c));
            },
        };
        if cluster as usize >= ividx.len() {
            return Err(SearchError::NoSuchCluster(cluster));
        }
        let embs = ividx.get_cluster(cluster);
        match select(embs, &query.distances) {
            Ok(nodes) => {
                distance_results.push(nodes);
            },
            Err(e) => {
                return Err(e);
            },
        }
        ind += 1;
    }
    Ok(distance_results)
}

} // verus!
