use ivfpq::constants::{EMBEDDING_M_SEGMENTS, INFINITY_BITS, RETRIEVE_KNN};
use ivfpq::maxheap_wrapper::{BinaryHeapWrapper, Distance, DistanceError, HeapNode};

fn plain(d: u64) -> HeapNode {
    HeapNode::new(Distance::new(d).unwrap(), &[0; EMBEDDING_M_SEGMENTS])
}

fn node(d: f64) -> HeapNode {
    HeapNode::new(Distance::new(d.to_bits()).unwrap(), &[1; EMBEDDING_M_SEGMENTS])
}

#[test]
fn default_behaviour_works() {
    let mut heap = BinaryHeapWrapper::with_capacity(4);

    assert_eq!(heap.peek(), None);

    heap.push(plain(1)).unwrap();
    heap.push(plain(5)).unwrap();
    heap.push(plain(2)).unwrap();

    assert_eq!(heap.peek(), Some(plain(5)));

    assert_eq!(heap.len(), 3);

    assert_eq!(heap.pop(), Some(plain(5)));
    assert_eq!(heap.pop(), Some(plain(2)));
    assert_eq!(heap.pop(), Some(plain(1)));
    assert_eq!(heap.pop(), None);

    heap.clear();

    assert!(heap.is_empty())
}

#[test]
fn expected_behaviour_works() {
    let mut heap = BinaryHeapWrapper::with_capacity(4);

    assert_eq!(heap.peek(), None);

    heap.push(plain(1)).unwrap();
    heap.push(plain(5)).unwrap();
    heap.push(plain(2)).unwrap();
    heap.push(plain(3)).unwrap();
    heap.push(plain(4)).unwrap();

    assert_eq!(heap.peek(), Some(plain(4)));

    assert_eq!(heap.len(), 4);

    assert_eq!(heap.pop(), Some(plain(4)));
    assert_eq!(heap.pop(), Some(plain(3)));
    assert_eq!(heap.pop(), Some(plain(2)));
    assert_eq!(heap.pop(), Some(plain(1)));
    assert_eq!(heap.pop(), None);

    heap.clear();

    assert!(heap.is_empty())
}

#[test]
fn expected_behaviour_works_with_heap_nodes() {
    let mut heap = BinaryHeapWrapper::with_capacity(4);

    assert_eq!(heap.peek(), None);

    heap.push(node(25.333)).unwrap();
    heap.push(node(12.4)).unwrap();
    heap.push(node(1.6)).unwrap();
    heap.push(node(13.16)).unwrap();
    heap.push(node(22.43)).unwrap();

    assert_eq!(heap.peek(), Some(node(22.43)));

    assert_eq!(heap.len(), 4);

    assert_eq!(heap.pop(), Some(node(22.43)));
    assert_eq!(heap.pop(), Some(node(13.16)));
    assert_eq!(heap.pop(), Some(node(12.4)));
    assert_eq!(heap.pop(), Some(node(1.6)));
    assert_eq!(heap.pop(), None);

    heap.clear();

    assert!(heap.is_empty())
}

#[test]
fn new_selector_holds_retrieve_knn() {
    let mut heap = BinaryHeapWrapper::new();
    assert_eq!(heap.capacity(), RETRIEVE_KNN);
    for d in 0..25u64 {
        heap.push(plain(100 - d)).unwrap();
        assert!(heap.len() <= RETRIEVE_KNN);
    }
    assert_eq!(heap.len(), RETRIEVE_KNN);
    let sorted = heap.sorted();
    let expected: Vec<HeapNode> = (76..86u64).map(plain).collect();
    assert_eq!(sorted, expected);
}

#[test]
fn sorted_is_ascending() {
    let mut heap = BinaryHeapWrapper::with_capacity(4);
    heap.push(node(25.333)).unwrap();
    heap.push(node(12.4)).unwrap();
    heap.push(node(1.6)).unwrap();
    heap.push(node(13.16)).unwrap();
    heap.push(node(22.43)).unwrap();
    assert_eq!(heap.sorted(), vec![node(1.6), node(12.4), node(13.16), node(22.43)]);
}

#[test]
fn an_equally_far_node_does_not_replace_the_farthest() {
    let mut heap = BinaryHeapWrapper::with_capacity(2);
    let first = HeapNode::new(Distance::new(7).unwrap(), &[9, 9, 9, 9]);
    let second = HeapNode::new(Distance::new(3).unwrap(), &[2, 2, 2, 2]);
    let late = HeapNode::new(Distance::new(7).unwrap(), &[1, 1, 1, 1]);
    heap.push(first).unwrap();
    heap.push(second).unwrap();
    heap.push(late).unwrap();
    assert_eq!(heap.sorted(), vec![second, first]);
}

#[test]
fn nodes_at_one_distance_come_out_by_code() {
    let mut heap = BinaryHeapWrapper::with_capacity(3);
    let a = HeapNode::new(Distance::new(7).unwrap(), &[0, 0, 1, 0]);
    let b = HeapNode::new(Distance::new(7).unwrap(), &[0, 0, 0, 255]);
    let c = HeapNode::new(Distance::new(7).unwrap(), &[1, 0, 0, 0]);
    heap.push(a).unwrap();
    heap.push(c).unwrap();
    heap.push(b).unwrap();
    assert_eq!(heap.peek(), Some(c));
    assert_eq!(heap.sorted(), vec![b, a, c]);
}

#[test]
fn codes_survive_the_heap() {
    let mut heap = BinaryHeapWrapper::new();
    let codes: [[u8; 4]; 4] = [[0, 0, 0, 0], [255, 255, 255, 255], [1, 2, 3, 4], [7, 0, 255, 1]];
    for (i, code) in codes.iter().enumerate() {
        heap.push(HeapNode::new(Distance::new(i as u64).unwrap(), code)).unwrap();
    }
    let sorted = heap.sorted();
    for (i, code) in codes.iter().enumerate() {
        assert_eq!(sorted[i].code, *code);
        assert_eq!(sorted[i].distance.bits(), i as u64);
    }
}

#[test]
fn selector_keeps_the_k_smallest_of_a_long_run() {
    let mut state: u64 = 0x9E37_79B9_7F4A_7C15;
    for k in 1..=RETRIEVE_KNN {
        let mut heap = BinaryHeapWrapper::with_capacity(k);
        let mut all: Vec<u64> = Vec::new();
        for _ in 0..200 {
            state = state.wrapping_mul(6364136223846793005).wrapping_add(1442695040888963407);
            let d = (state >> 33) % 50;
            all.push(d);
            heap.push(plain(d)).unwrap();
            assert!(heap.len() <= k);
        }
        all.sort();
        all.truncate(k);
        let kept: Vec<u64> = heap.sorted().iter().map(|n| n.distance.bits()).collect();
        assert_eq!(kept, all);
    }
}

#[test]
fn distances_are_the_non_negative_numbers() {
    assert_eq!(Distance::new(0f64.to_bits()).map(|d| d.bits()), Ok(0));
    assert_eq!(Distance::new(f64::INFINITY.to_bits()).map(|d| d.bits()), Ok(INFINITY_BITS));
    assert_eq!(Distance::new(1.5f64.to_bits()).map(|d| f64::from_bits(d.bits())), Ok(1.5));
    assert_eq!(Distance::new(f64::MAX.to_bits()).map(|d| d.bits()), Ok(f64::MAX.to_bits()));
    assert_eq!(Distance::new(f64::NAN.to_bits()), Err(DistanceError::NotANumber));
    assert_eq!(Distance::new((-f64::NAN).to_bits()), Err(DistanceError::NotANumber));
    assert_eq!(Distance::new(INFINITY_BITS + 1), Err(DistanceError::NotANumber));
    assert_eq!(Distance::new(u64::MAX), Err(DistanceError::NotANumber));
    assert_eq!(Distance::new((-1.5f64).to_bits()), Err(DistanceError::Negative));
    assert_eq!(Distance::new((-0f64).to_bits()), Err(DistanceError::Negative));
    assert_eq!(Distance::new(f64::NEG_INFINITY.to_bits()), Err(DistanceError::Negative));
}

#[test]
fn distances_are_ordered_as_their_numbers() {
    let values = [0.0f64, 1e-300, 0.5, 1.0, 1.6, 12.4, 13.16, 22.43, 25.333, 1e300, f64::INFINITY];
    for a in values.iter() {
        for b in values.iter() {
            let da = Distance::new(a.to_bits()).unwrap();
            let db = Distance::new(b.to_bits()).unwrap();
            assert_eq!(a < b, da.bits() < db.bits());
        }
    }
}
