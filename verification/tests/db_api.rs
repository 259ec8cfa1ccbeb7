use ivfpq::constants::{CQ_K_CENTROIDS, EMBEDDING_DIM, EMBEDDING_M_SEGMENTS, SEGMENT_DIM};
use ivfpq::db_api::{
    codebook_eq, embedding_eq, load_codebook, load_ivf, persist_codebook, persist_ivf, segment_eq,
    WriteAction,
};
use ivfpq::inverted_index::{AvlWrapper, InvertedIndex};
use ivfpq::primitive_types::{Codebook, Embedding, IVListEntry, Segment};

struct Store {
    codebook: Option<Codebook>,
    ivf: Option<InvertedIndex>,
    writes: usize,
    deletes: usize,
}

fn store_codebook(store: &mut Store, codeb: Codebook) -> WriteAction {
    let action = persist_codebook(store.codebook.as_ref(), &codeb);
    match action {
        WriteAction::Put => {
            store.codebook = Some(codeb);
            store.writes += 1;
        }
        WriteAction::Replace => {
            store.codebook = None;
            store.deletes += 1;
            store.codebook = Some(codeb);
            store.writes += 1;
        }
        WriteAction::Keep => {}
    }
    action
}

fn store_ivf(store: &mut Store, ivf: InvertedIndex) -> WriteAction {
    let action = persist_ivf(store.ivf.as_ref(), &ivf);
    match action {
        WriteAction::Put => {
            store.ivf = Some(ivf);
            store.writes += 1;
        }
        WriteAction::Replace => {
            store.ivf = None;
            store.deletes += 1;
            store.ivf = Some(ivf);
            store.writes += 1;
        }
        WriteAction::Keep => {}
    }
    action
}

#[test]
fn work_with_codebook() {
    let mut store = Store { codebook: None, ivf: None, writes: 0, deletes: 0 };
    let mut codebook = load_codebook(store.codebook);
    assert_eq!(codebook, [Embedding::default(); CQ_K_CENTROIDS]);
    let segment = Segment::new([(-1f64).to_bits(); SEGMENT_DIM]);
    codebook[0] = Embedding::new([segment; EMBEDDING_M_SEGMENTS]);
    codebook[1] = Embedding::new([segment; EMBEDDING_M_SEGMENTS]);
    let cb_clone = codebook.clone();
    assert_eq!(store_codebook(&mut store, codebook), WriteAction::Put);
    assert_eq!(cb_clone, load_codebook(store.codebook));
    assert_eq!(store_codebook(&mut store, cb_clone), WriteAction::Keep);
    assert_eq!(store_codebook(&mut store, cb_clone), WriteAction::Keep);
    assert_eq!((store.writes, store.deletes), (1, 0));
    let mut changed = cb_clone;
    changed[7] = Embedding::new([segment; EMBEDDING_M_SEGMENTS]);
    assert_eq!(store_codebook(&mut store, changed), WriteAction::Replace);
    assert_eq!(store_codebook(&mut store, changed), WriteAction::Keep);
    assert_eq!((store.writes, store.deletes), (2, 1));
    assert_eq!(changed, load_codebook(store.codebook));
}

#[test]
fn work_with_inverted_index() {
    let mut store = Store { codebook: None, ivf: None, writes: 0, deletes: 0 };
    let mut ivf = load_ivf(store.ivf.take());
    assert!(ivf.same_as(&InvertedIndex::empty()));
    let mut avl = AvlWrapper::new();
    avl.insert(123, Box::new(IVListEntry::new([1; EMBEDDING_M_SEGMENTS], 0)));
    avl.insert(124, Box::new(IVListEntry::new([1; EMBEDDING_M_SEGMENTS], 1)));
    ivf.push(avl);
    let ivf_clone = ivf.clone();
    assert_eq!(store_ivf(&mut store, ivf), WriteAction::Put);
    let reloaded_ivf = load_ivf(store.ivf.clone());
    println!("{:?}", ivf_clone);
    println!("{:?}", reloaded_ivf);
    assert!(ivf_clone.same_as(&reloaded_ivf));
    assert_eq!(store_ivf(&mut store, ivf_clone.clone()), WriteAction::Keep);
    assert_eq!((store.writes, store.deletes), (1, 0));
    let mut changed = ivf_clone.clone();
    changed.get_cluster_mut(8).insert(124, Box::new(IVListEntry::new([1, 1, 1, 2], 1)));
    assert_eq!(store_ivf(&mut store, changed.clone()), WriteAction::Replace);
    assert_eq!(store_ivf(&mut store, changed.clone()), WriteAction::Keep);
    assert_eq!((store.writes, store.deletes), (2, 1));
    assert!(load_ivf(store.ivf).same_as(&changed));
}

#[test]
fn snapshots_are_compared_bit_for_bit() {
    let a = Segment::new([1, 2, 3]);
    assert!(segment_eq(&a, &Segment::new([1, 2, 3])));
    assert!(!segment_eq(&a, &Segment::new([1, 2, 4])));
    assert!(!segment_eq(&a, &Segment::new([0, 2, 3])));
    let zero = Embedding::default();
    let mut flat = vec![0u64; EMBEDDING_DIM];
    flat[11] = (-0f64).to_bits();
    let minus = Embedding::from_vec(&flat).unwrap();
    assert!(embedding_eq(&zero, &zero));
    assert!(!embedding_eq(&zero, &minus));
    let mut nan = vec![0u64; EMBEDDING_DIM];
    nan[4] = f64::NAN.to_bits();
    let nan = Embedding::from_vec(&nan).unwrap();
    assert!(embedding_eq(&nan, &nan));
    let cb: Codebook = [zero; CQ_K_CENTROIDS];
    let mut other = cb;
    assert!(codebook_eq(&cb, &other));
    other[CQ_K_CENTROIDS - 1] = minus;
    assert!(!codebook_eq(&cb, &other));
    assert_eq!(persist_codebook(None, &cb), WriteAction::Put);
    assert_eq!(persist_codebook(Some(&cb), &cb), WriteAction::Keep);
    assert_eq!(persist_codebook(Some(&other), &cb), WriteAction::Replace);
    assert_eq!(load_codebook(Some(other)), other);
}
