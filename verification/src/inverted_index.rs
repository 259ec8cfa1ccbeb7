//! The inverted lists: one ordered bucket of codes per coarse cluster.

use vstd::prelude::*;
use avl::AvlTreeMap;
use crate::constants::CQ_K_CENTROIDS;
use crate::primitive_types::{code_of, Clusters, DistanceTable, Embedding, IVListEntry};

verus! {

/// `avl::AvlTreeMap`: an ordered map, of which the verifier sees nothing
/// but what `tree_entries` names.
#[verifier::external_type_specification]
#[verifier::external_body]
#[verifier::reject_recursive_types(K)]
#[verifier::reject_recursive_types(V)]
pub struct ExAvlTreeMap<K, V>(AvlTreeMap<K, V>);

/// What a tree holds: each key with its entry.
pub uninterp spec fn tree_entries(tree: AvlTreeMap<u32, Box<IVListEntry>>) -> Map<
    u32,
    IVListEntry,
>;

/// `pairs` lists `entries` by ascending key: each pair is held, no key is
/// left out, none comes twice.
pub open spec fn is_listing(pairs: Seq<(u32, IVListEntry)>, entries: Map<u32, IVListEntry>) -> bool {
    &&& forall|i: int, j: int|
        0 <= i < j < pairs.len() ==> (#[trigger] pairs[i]).0 < (#[trigger] pairs[j]).0
    &&& forall|i: int|
        0 <= i < pairs.len() ==> entries.contains_pair((#[trigger] pairs[i]).0, pairs[i].1)
    &&& forall|k: u32| #[trigger]
        entries.contains_key(k) ==> exists|i: int|
            0 <= i < pairs.len() && (#[trigger] pairs[i]).0 == k
}

/// Every node of the tree carries the height of its subtree, and the tree is
/// balanced. A tree that `new` made and only `insert` changed is so; a tree
/// from elsewhere need not be, and `insert` may panic on it.
pub uninterp spec fn tree_grown(tree: AvlTreeMap<u32, Box<IVListEntry>>) -> bool;

/// `avl::AvlTreeMap::new`: the tree it makes holds nothing, and is grown.
#[verifier::external_body]
fn tree_new() -> (tree: AvlTreeMap<u32, Box<IVListEntry>>)
    ensures
        tree_entries(tree) =~= Map::empty(),
        tree_grown(tree),
{
    AvlTreeMap::new()
}

/// `AvlTreeMap::insert` on a grown tree: the key holds the new entry
/// afterwards, all other keys are untouched, the entry that the key held
/// before comes back, and the tree is still grown. It does not panic.
#[verifier::external_body]
fn tree_insert(tree: &mut AvlTreeMap<u32, Box<IVListEntry>>, key: u32, value: Box<IVListEntry>) -> (prev:
    Option<Box<IVListEntry>>)
    requires
        tree_grown(*old(tree)),
    ensures
        tree_grown(*final(tree)),
        tree_entries(*final(tree)) == tree_entries(*old(tree)).insert(key, *value),
        prev is Some <==> tree_entries(*old(tree)).contains_key(key),
        prev is Some ==> *prev->Some_0 == tree_entries(*old(tree))[key],
    no_unwind
{
    tree.insert(key, value)
}

/// `AvlTreeMap::iter`, on any tree: the entries with their keys, by
/// ascending key.
#[verifier::external_body]
fn tree_pairs(tree: &AvlTreeMap<u32, Box<IVListEntry>>) -> (pairs: Vec<(u32, IVListEntry)>)
    ensures
        is_listing(pairs@, tree_entries(*tree)),
{
    tree.iter().map(|(k, v)| (*k, **v)).collect()
}

/// The listing of a bucket's entries by ascending key.
pub open spec fn listing(entries: Map<u32, IVListEntry>) -> Seq<(u32, IVListEntry)> {
    choose|pairs: Seq<(u32, IVListEntry)>| is_listing(pairs, entries)
}

/// The entries of a listing, without their keys.
pub open spec fn values_of(pairs: Seq<(u32, IVListEntry)>) -> Seq<IVListEntry> {
    pairs.map_values(|p: (u32, IVListEntry)| p.1)
}

/// A bucket has one listing only.
pub proof fn lemma_listing_unique(
    a: Seq<(u32, IVListEntry)>,
    b: Seq<(u32, IVListEntry)>,
    entries: Map<u32, IVListEntry>,
)
    requires
        is_listing(a, entries),
        is_listing(b, entries),
    ensures
        a == b,
    decreases a.len(),
{
    if a.len() == 0 {
        if b.len() > 0 {
            assert(entries.contains_key(b[0].0));
            let i = choose|i: int| 0 <= i < a.len() && (#[trigger] a[i]).0 == b[0].0;
        }
        assert(a =~= b);
    } else {
        assert(entries.contains_key(a[0].0));
        let j0 = choose|j: int| 0 <= j < b.len() && (#[trigger] b[j]).0 == a[0].0;
        let la = a.last();
        let lb = b.last();
        assert(entries.contains_key(la.0));
        let j = choose|j: int| 0 <= j < b.len() && (#[trigger] b[j]).0 == la.0;
        assert(b[j].0 <= lb.0);
        assert(entries.contains_key(lb.0));
        let i = choose|i: int| 0 <= i < a.len() && (#[trigger] a[i]).0 == lb.0;
        assert(a[i].0 <= la.0);
        assert(la.0 == lb.0);
        assert(entries.contains_pair(la.0, la.1));
        assert(entries.contains_pair(lb.0, lb.1));
        assert(la == lb);
        let rest = entries.remove(la.0);
        lemma_listing_drop_last(a, entries);
        lemma_listing_drop_last(b, entries);
        lemma_listing_unique(a.drop_last(), b.drop_last(), rest);
        assert(a =~= a.drop_last().push(la));
        assert(b =~= b.drop_last().push(lb));
    }
}

/// A listing without its last pair lists the bucket without that pair's key.
pub proof fn lemma_listing_drop_last(a: Seq<(u32, IVListEntry)>, entries: Map<u32, IVListEntry>)
    requires
        is_listing(a, entries),
        a.len() > 0,
    ensures
        is_listing(a.drop_last(), entries.remove(a.last().0)),
{
    let front = a.drop_last();
    let rest = entries.remove(a.last().0);
    assert forall|i: int| 0 <= i < front.len() implies rest.contains_pair(
        (#[trigger] front[i]).0,
        front[i].1,
    ) by {
        assert(front[i] == a[i]);
        assert(a[i].0 < a[a.len() - 1].0);
        assert(entries.contains_pair(a[i].0, a[i].1));
    }
    assert forall|k: u32| #[trigger] rest.contains_key(k) implies exists|i: int|
        0 <= i < front.len() && (#[trigger] front[i]).0 == k by {
        assert(entries.contains_key(k));
        let i = choose|i: int| 0 <= i < a.len() && (#[trigger] a[i]).0 == k;
        assert(i < a.len() - 1);
        assert(front[i] == a[i]);
    }
    assert forall|i: int, j: int| 0 <= i < j < front.len() implies (#[trigger] front[i]).0 < (
    #[trigger] front[j]).0 by {
        assert(front[i] == a[i]);
        assert(front[j] == a[j]);
    }
}

/// The bucket that holds the stored vectors, a later one taking the place of
/// an earlier one with the same id.
pub open spec fn entries_of(pairs: Seq<(u32, IVListEntry)>) -> Map<u32, IVListEntry>
    decreases pairs.len(),
{
    if pairs.len() == 0 {
        Map::empty()
    } else {
        entries_of(pairs.drop_last()).insert(pairs.last().0, pairs.last().1)
    }
}

/// Storing the pairs of a bucket's listing one by one gives the bucket.
pub proof fn lemma_entries_of_listing(
    pairs: Seq<(u32, IVListEntry)>,
    entries: Map<u32, IVListEntry>,
)
    requires
        is_listing(pairs, entries),
    ensures
        entries_of(pairs) == entries,
    decreases pairs.len(),
{
    if pairs.len() == 0 {
        assert forall|k: u32| !entries.contains_key(k) by {
            if entries.contains_key(k) {
                let i = choose|i: int| 0 <= i < pairs.len() && (#[trigger] pairs[i]).0 == k;
            }
        }
        assert(entries =~= Map::empty());
    } else {
        lemma_listing_drop_last(pairs, entries);
        lemma_entries_of_listing(pairs.drop_last(), entries.remove(pairs.last().0));
        assert(entries.contains_pair(pairs.last().0, pairs.last().1));
        assert(entries.remove(pairs.last().0).insert(pairs.last().0, pairs.last().1) =~= entries);
    }
}

/// Buckets with the same listing hold the same entries.
pub proof fn lemma_listing_decides(
    pairs: Seq<(u32, IVListEntry)>,
    a: Map<u32, IVListEntry>,
    b: Map<u32, IVListEntry>,
)
    requires
        is_listing(pairs, a),
        is_listing(pairs, b),
    ensures
        a == b,
{
    assert forall|k: u32| a.contains_key(k) <==> b.contains_key(k) by {
        if a.contains_key(k) {
            let i = choose|i: int| 0 <= i < pairs.len() && (#[trigger] pairs[i]).0 == k;
            assert(b.contains_pair(pairs[i].0, pairs[i].1));
        }
        if b.contains_key(k) {
            let i = choose|i: int| 0 <= i < pairs.len() && (#[trigger] pairs[i]).0 == k;
            assert(a.contains_pair(pairs[i].0, pairs[i].1));
        }
    }
    assert forall|k: u32| a.contains_key(k) implies a[k] == b[k] by {
        let i = choose|i: int| 0 <= i < pairs.len() && (#[trigger] pairs[i]).0 == k;
        assert(a.contains_pair(pairs[i].0, pairs[i].1));
        assert(b.contains_pair(pairs[i].0, pairs[i].1));
    }
    assert(a =~= b);
}

/// Are the two entries the same?
pub fn entry_eq(a: &IVListEntry, b: &IVListEntry) -> (same: bool)
    ensures
        same == (*a == *b),
{
    let mut s: usize = 0;
    while s < a.pq_code.len()
        invariant
            s <= a.pq_code.len(),
            a.pq_code.len() == b.pq_code.len(),
            forall|t: int| 0 <= t < s ==> a.pq_code[t] == b.pq_code[t],
        decreases a.pq_code.len() - s,
    {
        if a.pq_code[s] != b.pq_code[s] {
            return false;
        }
        s += 1;
    }
    assert(a.pq_code =~= b.pq_code);
    a.cluster == b.cluster
}

/// The bucket of one coarse cluster: entries by vector id. The tree within
/// is always one that the bucket has grown itself.
#[derive(Debug)]
pub struct AvlWrapper(AvlTreeMap<u32, Box<IVListEntry>>);

impl Clone for AvlWrapper {
    /// A bucket that holds what this one holds, stored anew entry by entry.
    fn clone(&self) -> (copy: Self)
        ensures
            copy@ == self@,
    {
        AvlWrapper::from_tree(&self.0)
    }
}

impl View for AvlWrapper {
    type V = Map<u32, IVListEntry>;

    closed spec fn view(&self) -> Map<u32, IVListEntry> {
        tree_entries(self.0)
    }
}

impl AvlWrapper {
    #[verifier::type_invariant]
    spec fn grown(self) -> bool {
        tree_grown(self.0)
    }

    /// An empty bucket.
    pub fn new() -> (bucket: Self)
        ensures
            bucket@ == Map::<u32, IVListEntry>::empty(),
    {
        AvlWrapper(tree_new())
    }

    /// The bucket that holds what `src` holds. It is stored anew, entry by
    /// entry, so any tree will do, whatever made it.
    pub fn from(src: AvlTreeMap<u32, Box<IVListEntry>>) -> (bucket: Self)
        ensures
            bucket@ == tree_entries(src),
    {
        AvlWrapper::from_tree(&src)
    }

    fn from_tree(src: &AvlTreeMap<u32, Box<IVListEntry>>) -> (bucket: Self)
        ensures
            bucket@ == tree_entries(*src),
    {
        let pairs = tree_pairs(src);
        let mut tree = tree_new();
        let mut i: usize = 0;
        proof {
            assert(pairs@.subrange(0, 0) =~= Seq::<(u32, IVListEntry)>::empty());
        }
        while i < pairs.len()
            invariant
                i <= pairs.len(),
                tree_grown(tree),
                tree_entries(tree) == entries_of(pairs@.subrange(0, i as int)),
            decreases pairs.len() - i,
        {
            proof {
                assert(pairs@.subrange(0, i + 1).drop_last() =~= pairs@.subrange(0, i as int));
                assert(pairs@.subrange(0, i + 1).last() == pairs[i as int]);
            }
            tree_insert(&mut tree, pairs[i].0, Box::new(pairs[i].1));
            i += 1;
        }
        proof {
            assert(pairs@.subrange(0, pairs.len() as int) =~= pairs@);
            lemma_entries_of_listing(pairs@, tree_entries(*src));
        }
        AvlWrapper(tree)
    }

    /// The entries with their vector ids, by ascending id.
    pub fn entries(&self) -> (pairs: Vec<(u32, IVListEntry)>)
        ensures
            is_listing(pairs@, self@),
            pairs@ == listing(self@),
    {
        let pairs = tree_pairs(&self.0);
        proof {
            lemma_listing_unique(pairs@, listing(self@), self@);
        }
        pairs
    }

    /// The entries by ascending vector id.
    pub fn get_all(&self) -> (all: Vec<IVListEntry>)
        ensures
            all@ == values_of(listing(self@)),
    {
        let pairs = self.entries();
        let mut all: Vec<IVListEntry> = Vec::new();
        let mut i: usize = 0;
        while i < pairs.len()
            invariant
                i <= pairs.len(),
                all.len() == i,
                forall|j: int| 0 <= j < i ==> all[j] == (#[trigger] pairs[j]).1,
            decreases pairs.len() - i,
        {
            all.push(pairs[i].1);
            i += 1;
        }
        assert(all@ =~= values_of(pairs@));
        all
    }

    /// Stores `value` under `key` and hands back the entry that the key held.
    pub fn insert(&mut self, key: u32, value: Box<IVListEntry>) -> (prev: Option<Box<IVListEntry>>)
        ensures
            final(self)@ == old(self)@.insert(key, *value),
            prev is Some <==> old(self)@.contains_key(key),
            prev is Some ==> *prev->Some_0 == old(self)@[key],
    {
        proof {
            use_type_invariant(&*self);
        }
        tree_insert(&mut self.0, key, value)
    }

    /// Stores under `vec_id` the code of the embedding whose distances to the
    /// codebook's centroids `table` holds, with its cluster.
    pub fn add_embedding(&mut self, table: &DistanceTable, cluster: Clusters, vec_id: u32)
        ensures
            final(self)@ == old(self)@.insert(
                vec_id,
                IVListEntry { pq_code: code_of(*table), cluster },
            ),
    {
        let code = Embedding::encode(table);
        let entry = IVListEntry::new(code, cluster);
        proof {
            use_type_invariant(&*self);
        }
        tree_insert(&mut self.0, vec_id, Box::new(entry));
    }

    /// Do the two buckets hold the same entries under the same ids?
    pub fn same_as(&self, other: &AvlWrapper) -> (same: bool)
        ensures
            same == (self@ == other@),
    {
        let a = self.entries();
        let b = other.entries();
        if a.len() != b.len() {
            proof {
                if self@ == other@ {
                    lemma_listing_unique(a@, b@, self@);
                }
            }
            return false;
        }
        let mut i: usize = 0;
        while i < a.len()
            invariant
                i <= a.len(),
                a.len() == b.len(),
                is_listing(a@, self@),
                is_listing(b@, other@),
                forall|j: int| 0 <= j < i ==> a[j] == b[j],
            decreases a.len() - i,
        {
            if a[i].0 != b[i].0 || !entry_eq(&a[i].1, &b[i].1) {
                proof {
                    if self@ == other@ {
                        lemma_listing_unique(a@, b@, self@);
                    }
                }
                return false;
            }
            i += 1;
        }
        proof {
            assert(a@ =~= b@);
            lemma_listing_decides(a@, self@, other@);
        }
        true
    }
}

/// Why the index took no vector.
#[derive(Clone, Copy, Debug, PartialEq, Eq)]
pub enum IndexError {
    /// The index has no bucket for this cluster.
    NoSuchCluster(Clusters),
    /// Every vector id has been given out.
    IdsExhausted,
}

/// The buckets of all coarse clusters, and the counter that gives each stored
/// vector its id.
#[derive(Debug)]
pub struct InvertedIndex {
    buckets: Vec<AvlWrapper>,
    last_id: u32,
}

impl Clone for InvertedIndex {
    fn clone(&self) -> (copy: Self)
        ensures
            copy@ == self@,
            copy.last_id() == self.last_id(),
    {
        let mut buckets: Vec<AvlWrapper> = Vec::new();
        let mut i: usize = 0;
        while i < self.buckets.len()
            invariant
                i <= self.buckets.len(),
                buckets.len() == i,
                forall|b: int| 0 <= b < i ==> (#[trigger] buckets[b])@ == self.buckets[b]@,
            decreases self.buckets.len() - i,
        {
            buckets.push(self.buckets[i].clone());
            i += 1;
        }
        let copy = InvertedIndex { buckets, last_id: self.last_id };
        assert(copy@ =~= self@);
        copy
    }
}

impl View for InvertedIndex {
    type V = Seq<Map<u32, IVListEntry>>;

    closed spec fn view(&self) -> Seq<Map<u32, IVListEntry>> {
        Seq::new(self.buckets.len() as nat, |i: int| self.buckets[i]@)
    }
}

impl InvertedIndex {
    /// The id that was given out last.
    pub closed spec fn last_id(&self) -> u32 {
        self.last_id
    }

    /// No stored vector has an id above the one given out last.
    pub open spec fn wf(&self) -> bool {
        forall|b: int, k: u32|
            0 <= b < self@.len() && #[trigger] self@[b].contains_key(k) ==> k <= self.last_id()
    }

    /// An index of `CQ_K_CENTROIDS` empty buckets. The first id it gives out is 2.
    pub fn empty() -> (index: Self)
        ensures
            index.wf(),
            index.last_id() == 1,
            index@.len() == CQ_K_CENTROIDS,
            forall|b: int| 0 <= b < CQ_K_CENTROIDS ==> #[trigger] index@[b] == Map::<
                u32,
                IVListEntry,
            >::empty(),
    {
        let mut ividx: Vec<AvlWrapper> = Vec::with_capacity(CQ_K_CENTROIDS);
        let mut i: usize = 0;
        while i < CQ_K_CENTROIDS
            invariant
                i <= CQ_K_CENTROIDS,
                ividx.len() == i,
                forall|b: int| 0 <= b < i ==> (#[trigger] ividx[b])@ == Map::<
                    u32,
                    IVListEntry,
                >::empty(),
            decreases CQ_K_CENTROIDS - i,
        {
            let wrapper = AvlWrapper::new();
            ividx.push(wrapper);
            i += 1;
        }
        InvertedIndex { buckets: ividx, last_id: 1 }
    }

    /// The id that was given out last.
    pub fn last_vector_id(&self) -> (id: u32)
        ensures
            id == self.last_id(),
    {
        self.last_id
    }

    /// The index of these buckets. Its counter stands at the highest id that
    /// a bucket holds, or at 1 if that is higher.
    pub fn from_buckets(buckets: Vec<AvlWrapper>) -> (index: Self)
        ensures
            index.wf(),
            index@.len() == buckets.len(),
            forall|b: int| 0 <= b < buckets.len() ==> #[trigger] index@[b] == buckets[b]@,
            index.last_id() >= 1,
            index.last_id() == 1 || exists|b: int|
                0 <= b < buckets.len() && (#[trigger] buckets[b])@.contains_key(index.last_id()),
    {
        let mut last_id: u32 = 1;
        let mut b: usize = 0;
        while b < buckets.len()
            invariant
                b <= buckets.len(),
                last_id >= 1,
                forall|i: int, k: u32|
                    0 <= i < b && #[trigger] buckets[i]@.contains_key(k) ==> k <= last_id,
                last_id == 1 || exists|i: int|
                    0 <= i < b && (#[trigger] buckets[i])@.contains_key(last_id),
            decreases buckets.len() - b,
        {
            let pairs = buckets[b].entries();
            let ghost before = last_id;
            if pairs.len() > 0 {
                let top: u32 = pairs[pairs.len() - 1].0;
                assert(buckets[b as int]@.contains_pair(
                    pairs[pairs.len() - 1].0,
                    pairs[pairs.len() - 1].1,
                ));
                if top > last_id {
                    last_id = top;
                }
            }
            proof {
                assert forall|k: u32| buckets[b as int]@.contains_key(k) implies k <= last_id by {
                    let i = choose|i: int| 0 <= i < pairs.len() && (#[trigger] pairs[i]).0 == k;
                    assert(pairs[i].0 <= pairs[pairs.len() - 1].0);
                }
                if last_id != 1 && last_id == before {
                    let i = choose|i: int|
                        0 <= i < b && (#[trigger] buckets[i])@.contains_key(before);
                    assert(buckets[i]@.contains_key(last_id));
                }
            }
            b += 1;
        }
        let index = InvertedIndex { buckets, last_id };
        assert(index@.len() == buckets.len());
        index
    }

    /// Do the two indexes hold the same buckets?
    pub fn same_as(&self, other: &InvertedIndex) -> (same: bool)
        ensures
            same == (self@ == other@),
    {
        if self.buckets.len() != other.buckets.len() {
            assert(self@.len() != other@.len());
            return false;
        }
        let mut b: usize = 0;
        while b < self.buckets.len()
            invariant
                b <= self.buckets.len(),
                self.buckets.len() == other.buckets.len(),
                forall|i: int| 0 <= i < b ==> self@[i] == other@[i],
            decreases self.buckets.len() - b,
        {
            if !self.buckets[b].same_as(&other.buckets[b]) {
                assert(self@[b as int] != other@[b as int]);
                return false;
            }
            b += 1;
        }
        assert(self@ =~= other@);
        true
    }

    /// The number of buckets.
    pub fn len(&self) -> (n: usize)
        ensures
            n == self@.len(),
    {
        self.buckets.len()
    }

    /// Appends a bucket. The counter moves up to the bucket's highest id
    /// where that is above it.
    pub fn push(&mut self, value: AvlWrapper)
        ensures
            final(self)@ == old(self)@.push(value@),
            final(self).last_id() >= old(self).last_id(),
            forall|k: u32| value@.contains_key(k) ==> k <= final(self).last_id(),
            final(self).last_id() == old(self).last_id() || value@.contains_key(
                final(self).last_id(),
            ),
            old(self).wf() ==> final(self).wf(),
    {
        let pairs = value.entries();
        if pairs.len() > 0 {
            let top: u32 = pairs[pairs.len() - 1].0;
            assert(value@.contains_pair(pairs[pairs.len() - 1].0, pairs[pairs.len() - 1].1));
            if top > self.last_id {
                self.last_id = top;
            }
        }
        proof {
            assert forall|k: u32| value@.contains_key(k) implies k <= self.last_id by {
                let i = choose|i: int| 0 <= i < pairs.len() && (#[trigger] pairs[i]).0 == k;
                assert(pairs[i].0 <= pairs[pairs.len() - 1].0);
            }
        }
        self.buckets.push(value);
        assert(self@ =~= old(self)@.push(value@));
    }

    /// The bucket of a cluster.
    pub fn get_cluster(&self, clust_no: Clusters) -> (bucket: &AvlWrapper)
        requires
            clust_no < self@.len(),
        ensures
            bucket@ == self@[clust_no as int],
    {
        &self.buckets[clust_no as usize]
    }

    /// Codes the embedding whose distances to the codebook's centroids `table`
    /// holds, and stores the code in the cluster's bucket under the next
    /// vector id, which it hands back.
    pub fn add_embedding_to_cluster(&mut self, cluster: Clusters, table: &DistanceTable) -> (r:
        Result<u32, IndexError>)
        ensures
            cluster >= old(self)@.len() ==> r is Err && r->Err_0 == IndexError::NoSuchCluster(
                cluster,
            ),
            cluster < old(self)@.len() && old(self).last_id() == u32::MAX ==> r is Err && r->Err_0
                == IndexError::IdsExhausted,
            r is Err ==> final(self)@ == old(self)@ && final(self).last_id() == old(
                self,
            ).last_id(),
            cluster < old(self)@.len() && old(self).last_id() < u32::MAX ==> r is Ok && r->Ok_0
                == old(self).last_id() + 1,
            r is Ok ==> final(self).last_id() == r->Ok_0 && final(self)@ == with_vector(
                old(self)@,
                cluster as int,
                r->Ok_0,
                *table,
            ),
            old(self).wf() ==> final(self).wf(),
            old(self).wf() && r is Ok ==> forall|b: int|
                0 <= b < old(self)@.len() ==> !(#[trigger] old(self)@[b]).contains_key(r->Ok_0),
    {
        if cluster as usize >= self.buckets.len() {
            return Err(IndexError::NoSuchCluster(cluster));
        }
        if self.last_id == u32::MAX {
            return Err(IndexError::IdsExhausted);
        }
        let id: u32 = self.last_id + 1;
        self.buckets[cluster as usize].add_embedding(table, cluster, id);
        self.last_id = id;
        assert(self@ =~= with_vector(old(self)@, cluster as int, id, *table));
        Ok(id)
    }

    /// The bucket of a cluster, to change in place. Ids stored through it
    /// are not the counter's: they may break `wf`.
    pub fn get_cluster_mut(&mut self, clust_no: Clusters) -> (bucket: &mut AvlWrapper)
        requires
            clust_no < old(self)@.len(),
        ensures
            bucket@ == old(self)@[clust_no as int],
            final(self)@ == old(self)@.update(clust_no as int, final(bucket)@),
            final(self).last_id() == old(self).last_id(),
    {
        &mut self.buckets[clust_no as usize]
    }
}

/// The buckets after one more vector was stored: bucket `cluster` holds
/// under `id` the code that `table` selects, and all else is as it was.
pub open spec fn with_vector(
    before: Seq<Map<u32, IVListEntry>>,
    cluster: int,
    id: u32,
    table: DistanceTable,
) -> Seq<Map<u32, IVListEntry>> {
    before.update(
        cluster,
        before[cluster].insert(id, IVListEntry { pq_code: code_of(table), cluster: cluster as u8 }),
    )
}

} // verus!
