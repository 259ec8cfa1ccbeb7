use ivfpq::engine::distance::{
    CosineDistFn, DFUtility, DefaultDistFn, DistanceFunction, DistanceFunctionEnum,
    DistanceFunctionSelection,
};
use ivfpq::engine::inverted_list::{
    InvertedList, InvertedListInnerValue, ListError,
};
use ivfpq::engine::types::{ActionType, Config};

fn codes() -> Vec<InvertedListInnerValue> {
    vec![
        InvertedListInnerValue { vec_id: 10, pq_code: vec![1, 2, 3] },
        InvertedListInnerValue { vec_id: 11, pq_code: vec![4, 5, 6] },
        InvertedListInnerValue { vec_id: 12, pq_code: vec![7, 0, 7] },
        InvertedListInnerValue { vec_id: 13, pq_code: vec![] },
    ]
}

#[test]
fn the_nearer_score() {
    assert_eq!(CosineDistFn.nearest(3, 7), 7);
    assert_eq!(CosineDistFn.nearest(7, 3), 7);
    assert_eq!(CosineDistFn.nearest(-5, -5), -5);
    assert_eq!(DefaultDistFn.nearest(3, 7), 3);
    assert_eq!(DefaultDistFn.nearest(7, 3), 3);
    assert_eq!(DefaultDistFn.nearest(i32::MIN, i32::MAX), i32::MIN);
    let cosine = DistanceFunction::new(DistanceFunctionSelection::Cosine);
    let euclid = DistanceFunction::new(DistanceFunctionSelection::Euclidean);
    assert_eq!(cosine.function, DistanceFunctionEnum::Cosine);
    assert_eq!(euclid.function, DistanceFunctionEnum::Euclidean);
    assert_eq!(cosine.nearest(3, 7), 7);
    assert_eq!(euclid.nearest(3, 7), 3);
}

#[test]
fn the_nearest_cluster_is_the_first_with_the_nearest_score() {
    let cosine = DistanceFunction { function: DistanceFunctionEnum::Cosine };
    let euclid = DistanceFunction { function: DistanceFunctionEnum::Euclidean };
    let sums = [4, 9, -2, 9, -2, 0];
    assert_eq!(cosine.nearest_cluster(&sums), Some(1));
    assert_eq!(euclid.nearest_cluster(&sums), Some(2));
    assert_eq!(cosine.nearest_cluster(&[5]), Some(0));
    assert_eq!(euclid.nearest_cluster(&[5, 5, 5]), Some(0));
    assert_eq!(cosine.nearest_cluster(&[]), None);
    assert_eq!(euclid.nearest_cluster(&[]), None);
    assert_eq!(euclid.nearest_cluster(&[i32::MAX, i32::MIN]), Some(1));
}

#[test]
fn clusters_are_added_once() {
    let mut list = InvertedList::new(4, codes());
    assert_eq!(list.vectors_of(0), None);
    assert_eq!(list.add_clusters(&[0, 2]), Ok(()));
    assert_eq!(list.vectors_of(0), Some(vec![]));
    assert_eq!(list.vectors_of(1), None);
    assert_eq!(list.vectors_of(2), Some(vec![]));
    assert_eq!(list.add_clusters(&[1, 2, 3]), Err(ListError::DuplicateCluster(2)));
    assert_eq!(list.vectors_of(1), Some(vec![]));
    assert_eq!(list.vectors_of(3), None);
    assert_eq!(list.add_clusters(&[3, 4]), Err(ListError::NotInCodebook(4)));
    assert_eq!(list.vectors_of(3), Some(vec![]));
    assert_eq!(list.vectors_of(4), None);
    assert_eq!(list.add_clusters(&[]), Ok(()));
    let mut other = InvertedList::new(4, codes());
    assert_eq!(other.add_clusters(&[1, 1]), Err(ListError::DuplicateCluster(1)));
    assert_eq!(other.vectors_of(1), Some(vec![]));
}

#[test]
fn vectors_are_listed_in_the_order_they_came() {
    let mut list = InvertedList::new(3, codes());
    list.add_clusters(&[0, 1]).unwrap();
    assert_eq!(list.add_vector(11, 0), Ok(()));
    assert_eq!(list.add_vector(10, 0), Ok(()));
    assert_eq!(list.add_vector(13, 1), Ok(()));
    assert_eq!(list.vectors_of(0), Some(vec![11, 10]));
    assert_eq!(list.vectors_of(1), Some(vec![13]));
    assert_eq!(list.add_vector(10, 0), Err(ListError::DuplicateVector(10)));
    assert_eq!(list.add_vector(10, 1), Ok(()));
    assert_eq!(list.add_vector(99, 0), Err(ListError::UnknownVector(99)));
    assert_eq!(list.add_vector(10, 2), Err(ListError::MissingCluster(2)));
    assert_eq!(list.add_vector(10, 3), Err(ListError::MissingCluster(3)));
    assert_eq!(list.add_vector(99, 7), Err(ListError::MissingCluster(7)));
    assert_eq!(list.vectors_of(0), Some(vec![11, 10]));
    assert_eq!(list.vectors_of(1), Some(vec![13, 10]));
}

#[test]
fn a_batch_stops_at_the_first_vector_that_fails() {
    let mut list = InvertedList::new(3, codes());
    list.add_clusters(&[0]).unwrap();
    assert_eq!(list.batch_add_vector(&[10, 11], 0), Ok(()));
    assert_eq!(list.batch_add_vector(&[12, 10, 13], 0), Err(ListError::DuplicateVector(10)));
    assert_eq!(list.vectors_of(0), Some(vec![10, 11, 12]));
    assert_eq!(list.batch_add_vector(&[13], 1), Err(ListError::MissingCluster(1)));
    assert_eq!(list.batch_add_vector(&[], 1), Ok(()));
    assert_eq!(list.batch_delete_vector(&[11, 10], 0), Ok(vec![11, 10]));
    assert_eq!(list.vectors_of(0), Some(vec![12]));
    assert_eq!(list.batch_delete_vector(&[12, 12], 0), Err(ListError::MissingVector(12)));
    assert_eq!(list.vectors_of(0), Some(vec![]));
    assert_eq!(list.batch_delete_vector(&[12], 2), Err(ListError::MissingCluster(2)));
    assert_eq!(list.batch_delete_vector(&[], 0), Ok(vec![]));
}

#[test]
fn vectors_are_deleted_and_moved() {
    let mut list = InvertedList::new(3, codes());
    list.add_clusters(&[0, 1]).unwrap();
    list.batch_add_vector(&[10, 11, 12], 0).unwrap();
    list.add_vector(13, 1).unwrap();
    assert_eq!(list.delete_vector(11, 0), Ok(11));
    assert_eq!(list.vectors_of(0), Some(vec![10, 12]));
    assert_eq!(list.delete_vector(11, 0), Err(ListError::MissingVector(11)));
    assert_eq!(list.delete_vector(10, 2), Err(ListError::MissingCluster(2)));
    assert_eq!(list.transfer_vector(10, 0, 1), Ok(()));
    assert_eq!(list.vectors_of(0), Some(vec![12]));
    assert_eq!(list.vectors_of(1), Some(vec![13, 10]));
    assert_eq!(list.transfer_vector(10, 0, 1), Err(ListError::MissingVector(10)));
    assert_eq!(list.transfer_vector(10, 2, 1), Err(ListError::MissingCluster(2)));
    assert_eq!(list.transfer_vector(10, 1, 2), Err(ListError::MissingCluster(2)));
    list.add_vector(13, 0).unwrap();
    assert_eq!(list.transfer_vector(13, 0, 1), Err(ListError::DuplicateVector(13)));
    assert_eq!(list.vectors_of(0), Some(vec![12, 13]));
    assert_eq!(list.transfer_vector(12, 0, 0), Ok(()));
    assert_eq!(list.vectors_of(0), Some(vec![13, 12]));
    assert_eq!(list.vectors_of(1), Some(vec![13, 10]));
}

#[test]
fn a_list_names_a_vector_once() {
    let mut list = InvertedList::new(2, codes());
    list.add_clusters(&[0, 1]).unwrap();
    list.batch_add_vector(&[10, 11, 12, 13], 0).unwrap();
    for id in [10usize, 11, 12, 13] {
        assert_eq!(list.add_vector(id, 0), Err(ListError::DuplicateVector(id)));
    }
    assert_eq!(list.transfer_vector(11, 0, 1), Ok(()));
    let left = list.vectors_of(0).unwrap();
    let arrived = list.vectors_of(1).unwrap();
    assert!(!left.contains(&11));
    assert_eq!(arrived.iter().filter(|v| **v == 11).count(), 1);
    assert_eq!(list.delete_vector(12, 0), Ok(12));
    assert!(!list.vectors_of(0).unwrap().contains(&12));
    assert_eq!(list.add_vector(12, 0), Ok(()));
    assert_eq!(list.vectors_of(0), Some(vec![10, 13, 12]));
}

#[test]
fn a_request_names_its_cluster() {
    let load = ActionType::Load { embeddings: vec![1, 2], cluster: 4 };
    let dump = ActionType::Dump { embeddings: vec![], cluster: 9 };
    assert_eq!(load.cluster(), 4);
    assert_eq!(dump.cluster(), 9);
    assert_eq!(load.clone(), load);
    assert_eq!(Config {}, Config {});
}
