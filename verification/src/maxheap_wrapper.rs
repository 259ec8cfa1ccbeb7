//! A bounded selector of the nearest candidates, kept in a fixed-capacity
//! max-heap.

use vstd::prelude::*;
use vstd::multiset::Multiset;
use heapless::binary_heap::{BinaryHeap, Max};
use crate::constants::{INFINITY_BITS, RETRIEVE_KNN};
use crate::primitive_types::PqCode;

verus! {

/// `heapless::binary_heap::BinaryHeap`: a heap of fixed capacity, of which
/// the verifier sees nothing but what `heap_items` names.
#[verifier::external_type_specification]
#[verifier::external_body]
#[verifier::reject_recursive_types(T)]
#[verifier::reject_recursive_types(K)]
pub struct ExBinaryHeap<T, K, const N: usize>(BinaryHeap<T, K, N>);

/// `heapless::binary_heap::Max`: the mark of a heap with its greatest item
/// on top.
#[verifier::external_type_specification]
#[verifier::external_body]
pub struct ExMax(Max);

/// The items that a heap holds, each as often as it was put in and not yet
/// taken out.
pub uninterp spec fn heap_items(heap: BinaryHeap<(u64, u32), Max, RETRIEVE_KNN>) -> Multiset<
    (u64, u32),
>;

/// The order of pairs: by the first component, then by the second.
pub open spec fn key_le(a: (u64, u32), b: (u64, u32)) -> bool {
    a.0 < b.0 || (a.0 == b.0 && a.1 <= b.1)
}

/// `m` is one of `items`, and none of them is above it.
pub open spec fn is_greatest(items: Multiset<(u64, u32)>, m: (u64, u32)) -> bool {
    &&& items.contains(m)
    &&& forall|x: (u64, u32)| #[trigger] items.contains(x) ==> key_le(x, m)
}

/// `heapless::binary_heap::BinaryHeap::new`: the heap it makes holds nothing.
#[verifier::external_body]
fn heap_new() -> (heap: BinaryHeap<(u64, u32), Max, RETRIEVE_KNN>)
    ensures
        heap_items(heap) =~= Multiset::empty(),
{
    BinaryHeap::new()
}

/// `BinaryHeap::len`: the number of items held, which never exceeds the
/// capacity that the type fixes.
#[verifier::external_body]
fn heap_len(heap: &BinaryHeap<(u64, u32), Max, RETRIEVE_KNN>) -> (n: usize)
    ensures
        n == heap_items(*heap).len(),
        n <= RETRIEVE_KNN,
{
    heap.len()
}

/// `BinaryHeap::peek` on a max-heap: nothing where the heap is empty, else a
/// copy of a greatest item.
#[verifier::external_body]
fn heap_peek(heap: &BinaryHeap<(u64, u32), Max, RETRIEVE_KNN>) -> (top: Option<(u64, u32)>)
    ensures
        heap_items(*heap).len() == 0 ==> top is None,
        heap_items(*heap).len() > 0 ==> top is Some && is_greatest(heap_items(*heap), top->Some_0),
{
    heap.peek().copied()
}

/// `BinaryHeap::pop` on a max-heap: nothing where the heap is empty, else a
/// greatest item, which leaves the heap once. It does not panic.
#[verifier::external_body]
fn heap_pop(heap: &mut BinaryHeap<(u64, u32), Max, RETRIEVE_KNN>) -> (top: Option<(u64, u32)>)
    ensures
        heap_items(*old(heap)).len() == 0 ==> top is None && heap_items(*final(heap))
            == heap_items(*old(heap)),
        heap_items(*old(heap)).len() > 0 ==> top is Some && is_greatest(
            heap_items(*old(heap)),
            top->Some_0,
        ) && heap_items(*final(heap)) == heap_items(*old(heap)).remove(top->Some_0),
    no_unwind
{
    heap.pop()
}

/// `BinaryHeap::push`: below capacity the item enters; at capacity the heap
/// stays as it is and the item comes back. It does not panic.
#[verifier::external_body]
fn heap_push(heap: &mut BinaryHeap<(u64, u32), Max, RETRIEVE_KNN>, item: (u64, u32)) -> (r:
    Result<(), (u64, u32)>)
    ensures
        heap_items(*old(heap)).len() < RETRIEVE_KNN ==> r is Ok && heap_items(*final(heap))
            == heap_items(*old(heap)).insert(item),
        heap_items(*old(heap)).len() >= RETRIEVE_KNN ==> r is Err && r->Err_0 == item
            && heap_items(*final(heap)) == heap_items(*old(heap)),
    no_unwind
{
    heap.push(item)
}

/// Why a bit pattern is no distance.
#[derive(Clone, Copy, Debug, PartialEq, Eq)]
pub enum DistanceError {
    /// The pattern is that of a NaN.
    NotANumber,
    /// The pattern is that of a number with the sign bit set.
    Negative,
}

/// The sign bit of a double.
pub const SIGN_BIT: u64 = 0x8000_0000_0000_0000;

/// The pattern, with or without the sign bit, is that of a NaN.
pub open spec fn is_nan(bits: u64) -> bool {
    if bits >= SIGN_BIT {
        bits - SIGN_BIT > INFINITY_BITS
    } else {
        bits > INFINITY_BITS
    }
}

/// A distance between vectors: the bit pattern of a double that is neither
/// negative nor NaN. Such patterns are ordered as the numbers are.
#[derive(Clone, Copy, Debug, PartialEq, Eq)]
pub struct Distance(u64);

impl View for Distance {
    type V = u64;

    closed spec fn view(&self) -> u64 {
        self.0
    }
}

impl Distance {
    #[verifier::type_invariant]
    spec fn is_distance(self) -> bool {
        self.0 <= INFINITY_BITS
    }

    /// Accepts the patterns of the non-negative numbers, positive infinity
    /// among them.
    pub fn new(bits: u64) -> (r: Result<Distance, DistanceError>)
        ensures
            bits <= INFINITY_BITS ==> r is Ok && r->Ok_0@ == bits,
            is_nan(bits) ==> r is Err && r->Err_0 == DistanceError::NotANumber,
            bits > INFINITY_BITS && !is_nan(bits) ==> r is Err && r->Err_0
                == DistanceError::Negative,
    {
        if bits <= INFINITY_BITS {
            Ok(Distance(bits))
        } else if bits >= SIGN_BIT && bits - SIGN_BIT <= INFINITY_BITS {
            Err(DistanceError::Negative)
        } else {
            Err(DistanceError::NotANumber)
        }
    }

    /// The pattern of the distance, which is at most that of infinity.
    pub fn bits(&self) -> (bits: u64)
        ensures
            bits == self@,
            bits <= INFINITY_BITS,
    {
        proof {
            use_type_invariant(self);
        }
        self.0
    }
}

/// The number that stands for a code in a heap: its cells as the digits of a
/// number in base 256, the first cell the most significant.
pub open spec fn code_key(code: PqCode) -> u32 {
    (code[0] as int * 0x100_0000 + code[1] as int * 0x1_0000 + code[2] as int * 0x100
        + code[3] as int) as u32
}

/// The code that a number stands for.
pub open spec fn key_code(key: u32) -> Seq<u8> {
    seq![
        (key as int / 0x100_0000) as u8,
        (key as int / 0x1_0000 % 0x100) as u8,
        (key as int / 0x100 % 0x100) as u8,
        (key as int % 0x100) as u8,
    ]
}

/// A candidate neighbour: a stored code and its distance to the query.
#[derive(Clone, Copy, Debug, PartialEq, Eq)]
pub struct HeapNode {
    pub distance: Distance,
    pub code: PqCode,
}

impl HeapNode {
    /// The pair that stands for the node in a heap. Nodes are ordered by
    /// distance; among nodes at one distance, by code.
    pub open spec fn key(&self) -> (u64, u32) {
        (self.distance@, code_key(self.code))
    }

    /// The candidate with this distance and this code.
    pub fn new(d: Distance, c: &PqCode) -> (node: Self)
        ensures
            node.distance == d,
            node.code == *c,
    {
        HeapNode { distance: d, code: *c }
    }

    fn to_key(&self) -> (key: (u64, u32))
        ensures
            key == self.key(),
            key.0 <= INFINITY_BITS,
    {
        proof {
            use_type_invariant(&self.distance);
        }
        let c = &self.code;
        let packed: u32 = c[0] as u32 * 0x100_0000 + c[1] as u32 * 0x1_0000 + c[2] as u32 * 0x100
            + c[3] as u32;
        (self.distance.0, packed)
    }

    fn from_key(key: (u64, u32)) -> (node: Self)
        requires
            key.0 <= INFINITY_BITS,
        ensures
            node.distance@ == key.0,
            node.code@ == key_code(key.1),
            node.key() == key,
    {
        let k: u32 = key.1;
        let code: PqCode = [
            (k / 0x100_0000) as u8,
            (k / 0x1_0000 % 0x100) as u8,
            (k / 0x100 % 0x100) as u8,
            (k % 0x100) as u8,
        ];
        assert(code@ =~= key_code(key.1));
        HeapNode { distance: Distance(key.0), code }
    }
}

/// A node is the node that its key stands for.
pub proof fn lemma_key_round_trip(node: HeapNode)
    ensures
        key_code(node.key().1) == node.code@,
{
    let a = node.code[0] as int;
    let b = node.code[1] as int;
    let c = node.code[2] as int;
    let d = node.code[3] as int;
    let k = a * 0x100_0000 + b * 0x1_0000 + c * 0x100 + d;
    lemma_base_256_digits(a, b, c, d);
    assert(node.key().1 as int == k);
    assert(key_code(node.key().1) =~= node.code@);
}

/// Nodes with the same key are the same node.
pub proof fn lemma_key_decides(a: HeapNode, b: HeapNode)
    requires
        a.key() == b.key(),
    ensures
        a == b,
{
    lemma_key_round_trip(a);
    lemma_key_round_trip(b);
    assert(a.code =~= b.code);
}

/// The order of keys is a total order.
pub proof fn lemma_key_order()
    ensures
        vstd::relations::total_ordering(|a: (u64, u32), b: (u64, u32)| key_le(a, b)),
{
    let leq = |a: (u64, u32), b: (u64, u32)| key_le(a, b);
    assert(vstd::relations::reflexive(leq));
    assert(vstd::relations::antisymmetric(leq));
    assert(vstd::relations::transitive(leq));
    assert(vstd::relations::strongly_connected(leq));
}

proof fn lemma_base_256_digits(a: int, b: int, c: int, d: int)
    requires
        0 <= a < 0x100,
        0 <= b < 0x100,
        0 <= c < 0x100,
        0 <= d < 0x100,
    ensures
        ({
            let k = a * 0x100_0000 + b * 0x1_0000 + c * 0x100 + d;
            &&& 0 <= k < 0x1_0000_0000
            &&& k / 0x100_0000 == a
            &&& k / 0x1_0000 % 0x100 == b
            &&& k / 0x100 % 0x100 == c
            &&& k % 0x100 == d
        }),
{
    let k = a * 0x100_0000 + b * 0x1_0000 + c * 0x100 + d;
    let k2 = a * 0x1_0000 + b * 0x100 + c;
    let k3 = a * 0x100 + b;
    assert(k == k2 * 0x100 + d);
    assert(k2 == k3 * 0x100 + c);
    assert(k3 == a * 0x100 + b);
    vstd::arithmetic::div_mod::lemma_fundamental_div_mod_converse(k, 0x100, k2, d);
    vstd::arithmetic::div_mod::lemma_fundamental_div_mod_converse(k2, 0x100, k3, c);
    vstd::arithmetic::div_mod::lemma_fundamental_div_mod_converse(k3, 0x100, a, b);
    assert(k == k3 * 0x1_0000 + (c * 0x100 + d));
    vstd::arithmetic::div_mod::lemma_fundamental_div_mod_converse(k, 0x1_0000, k3, c * 0x100 + d);
    assert(k == a * 0x100_0000 + (b * 0x1_0000 + c * 0x100 + d));
    vstd::arithmetic::div_mod::lemma_fundamental_div_mod_converse(
        k,
        0x100_0000,
        a,
        b * 0x1_0000 + c * 0x100 + d,
    );
}

/// The keys of a run of nodes, in order.
pub open spec fn keys_of(nodes: Seq<HeapNode>) -> Seq<(u64, u32)> {
    nodes.map_values(|n: HeapNode| n.key())
}

/// The greatest of a collection of keys that holds at least one.
pub open spec fn greatest(items: Multiset<(u64, u32)>) -> (u64, u32) {
    choose|m: (u64, u32)| is_greatest(items, m)
}

/// What a selector of capacity `k` that holds `kept` holds after it was
/// offered `item`. Below capacity the item enters. At capacity it takes the
/// place of the farthest item held if it is strictly nearer, and is dropped
/// otherwise.
pub open spec fn after_push(kept: Multiset<(u64, u32)>, item: (u64, u32), k: nat) -> Multiset<
    (u64, u32),
> {
    if kept.len() < k {
        kept.insert(item)
    } else if item.0 < greatest(kept).0 {
        kept.remove(greatest(kept)).insert(item)
    } else {
        kept
    }
}

/// What a selector of capacity `k` holds after it was offered `items` in order,
/// starting empty.
pub open spec fn after_pushes(items: Seq<(u64, u32)>, k: nat) -> Multiset<(u64, u32)>
    decreases items.len(),
{
    if items.len() == 0 {
        Multiset::empty()
    } else {
        after_push(after_pushes(items.drop_last(), k), items.last(), k)
    }
}

/// `kept` is a choice of the `k` nearest of `pushed`: it is taken from
/// `pushed`, it holds `k` items or all of them, and nothing left out is
/// nearer than anything kept.
pub open spec fn is_top_k(kept: Multiset<(u64, u32)>, pushed: Multiset<(u64, u32)>, k: nat) -> bool {
    &&& kept.subset_of(pushed)
    &&& kept.len() == if pushed.len() < k {
        pushed.len()
    } else {
        k
    }
    &&& forall|a: (u64, u32), b: (u64, u32)|
        kept.contains(a) && pushed.count(b) > kept.count(b) ==> a.0 <= b.0
}

/// A collection holds at most one greatest key.
pub proof fn lemma_greatest_unique(items: Multiset<(u64, u32)>, a: (u64, u32), b: (u64, u32))
    requires
        is_greatest(items, a),
        is_greatest(items, b),
    ensures
        a == b,
{
    assert(key_le(a, b));
    assert(key_le(b, a));
}

/// A collection that holds a key holds a greatest one.
pub proof fn lemma_greatest_exists(items: Multiset<(u64, u32)>)
    requires
        items.len() > 0,
    ensures
        is_greatest(items, greatest(items)),
    decreases items.len(),
{
    broadcast use vstd::multiset::group_multiset_axioms;

    let x = items.choose();
    assert(items.count(x) > 0);
    let rest = items.remove(x);
    assert(Multiset::singleton(x).subset_of(items)) by {
        assert forall|v: (u64, u32)| Multiset::singleton(x).count(v) <= items.count(v) by {
            if v != x {
                assert(Multiset::singleton(x).count(v) == 0);
            }
        }
    }
    assert(rest.len() == items.len() - 1);
    if rest.len() == 0 {
        assert forall|y: (u64, u32)| #[trigger] items.contains(y) implies key_le(y, x) by {
            if y != x {
                assert(rest.count(y) == items.count(y));
                assert(rest.count(y) <= rest.len());
            }
        }
        assert(is_greatest(items, x));
    } else {
        lemma_greatest_exists(rest);
        let m = greatest(rest);
        let top = if key_le(m, x) {
            x
        } else {
            m
        };
        assert(items.contains(top)) by {
            if top == m && m != x {
                assert(rest.count(m) == items.count(m));
            }
        }
        assert forall|y: (u64, u32)| #[trigger] items.contains(y) implies key_le(y, top) by {
            if y != x {
                assert(rest.count(y) == items.count(y));
                assert(rest.contains(y));
                assert(key_le(y, m));
            }
        }
        assert(is_greatest(items, top));
    }
}

/// Offering an item to a selector that holds the `k` nearest of what it was
/// offered leaves it holding the `k` nearest of all it has been offered.
pub proof fn lemma_push_keeps_nearest(
    kept: Multiset<(u64, u32)>,
    pushed: Multiset<(u64, u32)>,
    item: (u64, u32),
    k: nat,
)
    requires
        k >= 1,
        is_top_k(kept, pushed, k),
    ensures
        is_top_k(after_push(kept, item, k), pushed.insert(item), k),
{
    broadcast use vstd::multiset::group_multiset_axioms;

    let kept2 = after_push(kept, item, k);
    let pushed2 = pushed.insert(item);
    if kept.len() < k {
        assert(kept.len() == pushed.len());
        assert(pushed.sub(kept).len() == 0);
        vstd::multiset::lemma_multiset_empty_len(pushed.sub(kept));
        assert forall|v: (u64, u32)| kept.count(v) == pushed.count(v) by {
            assert(pushed.sub(kept).count(v) == 0);
        }
        assert(kept =~= pushed);
        assert(kept2 =~= pushed2);
        assert(is_top_k(kept2, pushed2, k));
    } else {
        lemma_greatest_exists(kept);
        let top = greatest(kept);
        assert(kept.contains(top));
        if item.0 < top.0 {
            assert(Multiset::singleton(top).subset_of(kept)) by {
                assert forall|v: (u64, u32)| Multiset::singleton(top).count(v) <= kept.count(
                    v,
                ) by {
                    if v != top {
                        assert(Multiset::singleton(top).count(v) == 0);
                    }
                }
            }
            assert(kept.remove(top).len() == kept.len() - 1);
            assert(kept2.len() == kept.len());
            assert forall|v: (u64, u32)| kept2.count(v) <= pushed2.count(v) by {
                assert(kept.count(v) <= pushed.count(v));
            }
            assert forall|a: (u64, u32), b: (u64, u32)|
                kept2.contains(a) && pushed2.count(b) > kept2.count(b) implies a.0 <= b.0 by {
                assert(a == item || kept.contains(a));
                assert(b == top || pushed.count(b) > kept.count(b));
                if kept.contains(a) {
                    assert(key_le(a, top));
                }
            }
        } else {
            assert forall|v: (u64, u32)| kept2.count(v) <= pushed2.count(v) by {
                assert(kept.count(v) <= pushed.count(v));
            }
            assert forall|a: (u64, u32), b: (u64, u32)|
                kept2.contains(a) && pushed2.count(b) > kept2.count(b) implies a.0 <= b.0 by {
                assert(b == item || pushed.count(b) > kept.count(b));
                assert(key_le(a, top));
            }
        }
    }
}

/// After any run of offers a selector of capacity `k` holds at most `k` items,
/// and they are the `k` nearest of the items offered.
pub proof fn lemma_pushes_keep_nearest(items: Seq<(u64, u32)>, k: nat)
    requires
        k >= 1,
    ensures
        is_top_k(after_pushes(items, k), items.to_multiset(), k),
        after_pushes(items, k).len() <= k,
    decreases items.len(),
{
    broadcast use vstd::multiset::group_multiset_axioms;

    if items.len() == 0 {
        assert(items.to_multiset().len() == 0) by {
            items.to_multiset_ensures();
        }
        vstd::multiset::lemma_multiset_empty_len(items.to_multiset());
    } else {
        let front = items.drop_last();
        lemma_pushes_keep_nearest(front, k);
        lemma_push_keeps_nearest(after_pushes(front, k), front.to_multiset(), items.last(), k);
        assert(front.push(items.last()) =~= items);
        front.to_multiset_ensures();
        assert(items.to_multiset() =~= front.to_multiset().insert(items.last()));
    }
}

/// A selector of nearest candidates. It holds up to `limit()` nodes, and once
/// full it gives up its farthest node for any nearer one.
pub struct BinaryHeapWrapper {
    heap: BinaryHeap<(u64, u32), Max, RETRIEVE_KNN>,
    capacity: usize,
}

impl BinaryHeapWrapper {
    /// The keys of the nodes held.
    pub closed spec fn items(&self) -> Multiset<(u64, u32)> {
        heap_items(self.heap)
    }

    /// The number of nodes that the selector holds at most.
    pub closed spec fn limit(&self) -> nat {
        self.capacity as nat
    }

    #[verifier::type_invariant]
    spec fn wf(self) -> bool {
        &&& 1 <= self.capacity <= RETRIEVE_KNN
        &&& heap_items(self.heap).len() <= self.capacity
        &&& forall|x: (u64, u32)| #[trigger] heap_items(self.heap).contains(x) ==> x.0 <= INFINITY_BITS
    }

    /// An empty selector of `RETRIEVE_KNN` nodes.
    pub fn new() -> (selector: Self)
        ensures
            selector.limit() == RETRIEVE_KNN,
            selector.items() == Multiset::<(u64, u32)>::empty(),
    {
        BinaryHeapWrapper { heap: heap_new(), capacity: RETRIEVE_KNN }
    }

    /// An empty selector of `capacity` nodes.
    pub fn with_capacity(capacity: usize) -> (selector: Self)
        requires
            1 <= capacity <= RETRIEVE_KNN,
        ensures
            selector.limit() == capacity,
            selector.items() == Multiset::<(u64, u32)>::empty(),
    {
        BinaryHeapWrapper { heap: heap_new(), capacity }
    }

    /// The number of nodes held, which is at most `limit()`.
    pub fn len(&self) -> (n: usize)
        ensures
            n == self.items().len(),
            n <= self.limit(),
    {
        proof {
            use_type_invariant(self);
        }
        heap_len(&self.heap)
    }

    /// The number of nodes that the selector holds at most.
    pub fn capacity(&self) -> (n: usize)
        ensures
            n == self.limit(),
            1 <= n <= RETRIEVE_KNN,
    {
        proof {
            use_type_invariant(self);
        }
        self.capacity
    }

    /// Does the selector hold nothing?
    pub fn is_empty(&self) -> (b: bool)
        ensures
            b == (self.items().len() == 0),
    {
        heap_len(&self.heap) == 0
    }

    /// The farthest node held.
    pub fn peek(&self) -> (top: Option<HeapNode>)
        ensures
            self.items().len() == 0 ==> top is None,
            self.items().len() > 0 ==> top is Some && top->Some_0.key() == greatest(self.items())
                && is_greatest(self.items(), top->Some_0.key()),
    {
        proof {
            use_type_invariant(self);
        }
        match heap_peek(&self.heap) {
            Some(key) => {
                proof {
                    lemma_greatest_exists(self.items());
                    lemma_greatest_unique(self.items(), key, greatest(self.items()));
                }
                Some(HeapNode::from_key(key))
            },
            None => None,
        }
    }

    /// Takes the farthest node out.
    pub fn pop(&mut self) -> (top: Option<HeapNode>)
        ensures
            final(self).limit() == old(self).limit(),
            old(self).items().len() == 0 ==> top is None && final(self).items() == old(
                self,
            ).items(),
            old(self).items().len() > 0 ==> top is Some && top->Some_0.key() == greatest(
                old(self).items(),
            ) && is_greatest(old(self).items(), top->Some_0.key()) && final(self).items() == old(
                self,
            ).items().remove(top->Some_0.key()),
    {
        broadcast use vstd::multiset::group_multiset_axioms;

        let ghost before = self.items();
        proof {
            use_type_invariant(&*self);
            lemma_remove_any(before);
        }
        match heap_pop(&mut self.heap) {
            Some(key) => {
                proof {
                    lemma_greatest_exists(before);
                    lemma_greatest_unique(before, key, greatest(before));
                    lemma_remove_len(before, key);
                }
                Some(HeapNode::from_key(key))
            },
            None => None,
        }
    }

    /// Empties the selector.
    pub fn clear(&mut self)
        ensures
            final(self).limit() == old(self).limit(),
            final(self).items() == Multiset::<(u64, u32)>::empty(),
    {
        proof {
            use_type_invariant(&*self);
        }
        self.heap = heap_new();
    }

    /// Offers a node: it enters while there is room; once the selector is
    /// full it replaces the farthest node held if it is strictly nearer, and
    /// is dropped otherwise.
    pub fn push(&mut self, item: HeapNode) -> (r: Result<(), HeapNode>)
        ensures
            final(self).limit() == old(self).limit(),
            r is Ok,
            final(self).items() == after_push(old(self).items(), item.key(), old(self).limit()),
            final(self).items().len() <= final(self).limit(),
    {
        broadcast use vstd::multiset::group_multiset_axioms;

        let ghost before = self.items();
        let key = item.to_key();
        proof {
            use_type_invariant(&*self);
            lemma_remove_any(before);
            lemma_insert_any(key);
        }
        if heap_len(&self.heap) >= self.capacity {
            match heap_peek(&self.heap) {
                Some(top) => {
                    proof {
                        lemma_greatest_exists(before);
                        lemma_greatest_unique(before, top, greatest(before));
                    }
                    if top.0 > key.0 {
                        let popped = heap_pop(&mut self.heap);
                        proof {
                            lemma_greatest_unique(before, popped->Some_0, top);
                            lemma_remove_len(before, top);
                        }
                        match heap_push(&mut self.heap, key) {
                            Ok(()) => Ok(()),
                            Err(back) => Err(HeapNode::from_key(back)),
                        }
                    } else {
                        Ok(())
                    }
                },
                None => Ok(()),
            }
        } else {
            match heap_push(&mut self.heap, key) {
                Ok(()) => Ok(()),
                Err(back) => Err(HeapNode::from_key(back)),
            }
        }
    }

    /// Drains the selector: the nodes held, nearest first.
    pub fn sorted(self) -> (nodes: Vec<HeapNode>)
        ensures
            keys_of(nodes@).to_multiset() == self.items(),
            nodes.len() == self.items().len(),
            forall|i: int, j: int|
                0 <= i < j < nodes.len() ==> key_le(#[trigger] nodes[i].key(), #[trigger] nodes[j].key()),
    {
        broadcast use vstd::multiset::group_multiset_axioms;

        let ghost all = self.items();
        proof {
            use_type_invariant(&self);
        }
        let mut heap = self.heap;
        let mut down: Vec<(u64, u32)> = Vec::new();
        proof {
            down@.to_multiset_ensures();
            vstd::multiset::lemma_multiset_empty_len(down@.to_multiset());
            assert(down@.to_multiset().add(heap_items(heap)) =~= all);
        }
        loop
            invariant
                forall|x: (u64, u32)| #[trigger] heap_items(heap).contains(x) ==> x.0 <= INFINITY_BITS,
                forall|i: int| 0 <= i < down.len() ==> (#[trigger] down[i]).0 <= INFINITY_BITS,
                down@.to_multiset().add(heap_items(heap)) == all,
                forall|i: int, j: int|
                    0 <= i < j < down.len() ==> key_le(#[trigger] down[j], #[trigger] down[i]),
                forall|i: int, x: (u64, u32)|
                    #![trigger down[i], heap_items(heap).contains(x)]
                    0 <= i < down.len() && heap_items(heap).contains(x) ==> key_le(x, down[i]),
            ensures
                down@.to_multiset() == all,
                forall|i: int| 0 <= i < down.len() ==> (#[trigger] down[i]).0 <= INFINITY_BITS,
                forall|i: int, j: int|
                    0 <= i < j < down.len() ==> key_le(#[trigger] down[j], #[trigger] down[i]),
            decreases heap_items(heap).len(),
        {
            let ghost held = heap_items(heap);
            let ghost taken = down@;
            match heap_pop(&mut heap) {
                Some(top) => {
                    down.push(top);
                    proof {
                        lemma_remove_len(held, top);
                        assert(held.contains(top));
                        assert forall|x: (u64, u32)| #[trigger]
                            heap_items(heap).contains(x) implies x.0 <= INFINITY_BITS by {
                            assert(held.contains(x));
                        }
                        assert forall|i: int| 0 <= i < down.len() implies (#[trigger] down[i]).0
                            <= INFINITY_BITS by {
                            if i < taken.len() {
                                assert(down[i] == taken[i]);
                            }
                        }
                        taken.to_multiset_ensures();
                        assert(down@ == taken.push(top));
                        assert(down@.to_multiset().add(heap_items(heap)) =~= all) by {
                            assert forall|v: (u64, u32)|
                                down@.to_multiset().add(heap_items(heap)).count(v) == all.count(
                                    v,
                                ) by {
                                assert(taken.to_multiset().add(held).count(v) == all.count(v));
                            }
                        }
                        assert forall|i: int, x: (u64, u32)|
                            #![trigger down[i], heap_items(heap).contains(x)]
                            0 <= i < down.len() && heap_items(heap).contains(x) implies key_le(
                            x,
                            down[i],
                        ) by {
                            assert(held.contains(x));
                            if i < taken.len() {
                                assert(down[i] == taken[i]);
                            }
                        }
                    }
                },
                None => {
                    proof {
                        vstd::multiset::lemma_multiset_empty_len(held);
                        assert(down@.to_multiset() =~= all);
                    }
                    break ;
                },
            }
        }
        let mut nodes: Vec<HeapNode> = Vec::new();
        let mut left: usize = down.len();
        while left > 0
            invariant
                left <= down.len(),
                forall|i: int| 0 <= i < down.len() ==> (#[trigger] down[i]).0 <= INFINITY_BITS,
                nodes.len() == down.len() - left,
                forall|i: int|
                    0 <= i < nodes.len() ==> (#[trigger] nodes[i]).key() == down[down.len() - 1
                        - i],
            decreases left,
        {
            left -= 1;
            nodes.push(HeapNode::from_key(down[left]));
        }
        proof {
            assert(keys_of(nodes@) =~= down@.reverse());
            down@.lemma_reverse_to_multiset();
            down@.to_multiset_ensures();
        }
        nodes
    }
}

proof fn lemma_insert_any(key: (u64, u32))
    ensures
        forall|m: Multiset<(u64, u32)>| #[trigger] m.insert(key).len() == m.len() + 1,
        forall|m: Multiset<(u64, u32)>, y: (u64, u32)| #[trigger]
            m.insert(key).contains(y) ==> y == key || m.contains(y),
{
    broadcast use vstd::multiset::group_multiset_axioms;

}

proof fn lemma_remove_any(items: Multiset<(u64, u32)>)
    ensures
        forall|x: (u64, u32)| #[trigger]
            items.contains(x) ==> items.remove(x).len() == items.len() - 1,
        forall|x: (u64, u32), y: (u64, u32)| #[trigger]
            items.remove(x).contains(y) ==> items.contains(y),
{
    broadcast use vstd::multiset::group_multiset_axioms;

    assert forall|x: (u64, u32)| #[trigger] items.contains(x) implies items.remove(x).len()
        == items.len() - 1 by {
        lemma_remove_len(items, x);
    }
}

proof fn lemma_remove_len(items: Multiset<(u64, u32)>, x: (u64, u32))
    requires
        items.contains(x),
    ensures
        items.remove(x).len() == items.len() - 1,
{
    broadcast use vstd::multiset::group_multiset_axioms;

    assert(Multiset::singleton(x).subset_of(items)) by {
        assert forall|v: (u64, u32)| Multiset::singleton(x).count(v) <= items.count(v) by {
            if v != x {
                assert(Multiset::singleton(x).count(v) == 0);
            }
        }
    }
}

} // verus!
