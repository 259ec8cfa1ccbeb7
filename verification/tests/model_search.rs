use ivfpq::constants::{
    CENTROIDS_PER_SUBSPACE_CLUSTER, CQ_K_CENTROIDS, EMBEDDINGS_PER_CLUSTER, EMBEDDING_DIM,
    EMBEDDING_M_SEGMENTS, RETRIEVE_KNN,
};
use ivfpq::inverted_index::{AvlWrapper, InvertedIndex};
use ivfpq::maxheap_wrapper::{Distance as Dist, HeapNode};
use ivfpq::model::{Assignment, Model, ModelError, TrainError};
use ivfpq::primitive_types::{Codebook, DistanceTable, Embedding, IVListEntry, PqCode};
use ivfpq::search::{scan, search, select, table_lookups, ScannedQuery, SearchError};
use linfa::traits::{Fit, Predict};
use linfa::DatasetBase;
use linfa_clustering::KMeans;
use linfa_nn::distance::{Distance, L2Dist};
use ndarray::{Array1, Array2};
use rand_xoshiro::rand_core::SeedableRng;
use rand_xoshiro::Xoshiro256Plus;

fn to_embedding(values: &[f64]) -> Embedding {
    let flat: Vec<u64> = values.iter().map(|v| v.to_bits()).collect();
    Embedding::from_vec(&flat).unwrap()
}

fn to_floats(bits: &[u64]) -> Vec<f64> {
    bits.iter().map(|b| f64::from_bits(*b)).collect()
}

fn training_set() -> Vec<Embedding> {
    let mut embs = Vec::new();
    for c in 0..CENTROIDS_PER_SUBSPACE_CLUSTER {
        for k in 0..EMBEDDINGS_PER_CLUSTER {
            let values: Vec<f64> = (0..EMBEDDING_DIM)
                .map(|i| c as f64 * 10.0 + ((i + k) % 3) as f64 * 0.25 + k as f64 * 0.125)
                .collect();
            embs.push(to_embedding(&values));
        }
    }
    embs
}

fn fit(embs: &[Embedding]) -> KMeans<f64, L2Dist> {
    let rng = Xoshiro256Plus::seed_from_u64(42);
    let mut data = Array2::zeros((embs.len(), EMBEDDING_DIM));
    for ind in 0..embs.len() {
        let emb = to_floats(&embs[ind].to_vec());
        for each in 0..EMBEDDING_DIM {
            data[[ind, each]] = emb[each];
        }
    }
    let obs = DatasetBase::from(data);
    KMeans::params_with_rng(CQ_K_CENTROIDS, rng).fit(&obs).expect("KMeans fitted")
}

fn centroids_of(kmeans: &KMeans<f64, L2Dist>) -> Codebook {
    let mut cb: Codebook = [Embedding::default(); CQ_K_CENTROIDS];
    for (ind, row) in kmeans.centroids().rows().into_iter().enumerate() {
        cb[ind] = to_embedding(&row.to_vec());
    }
    cb
}

fn nearest_of(kmeans: &KMeans<f64, L2Dist>, emb: &Embedding) -> usize {
    kmeans.predict(&Array1::from(to_floats(&emb.to_vec())))
}

fn table_of(query: &Embedding, cb: &Codebook) -> DistanceTable {
    let mut table: DistanceTable = [[0; EMBEDDING_M_SEGMENTS]; CENTROIDS_PER_SUBSPACE_CLUSTER];
    for (c, centroid) in cb.iter().enumerate() {
        for s in 0..EMBEDDING_M_SEGMENTS {
            let a = Array1::from(to_floats(&centroid.into_segments()[s].to_vec()));
            let b = Array1::from(to_floats(&query.into_segments()[s].to_vec()));
            table[c][s] = L2Dist.distance(a.view(), b.view()).to_bits();
        }
    }
    table
}

fn residual_of(v1: &Embedding, v2: &Embedding) -> Embedding {
    let a = Array1::from(to_floats(&v1.to_vec()));
    let b = Array1::from(to_floats(&v2.to_vec()));
    to_embedding(&(a - b).to_vec())
}

fn assignments(kmeans: &KMeans<f64, L2Dist>, cb: &Codebook, embs: &[Embedding]) -> Vec<Assignment> {
    embs.iter()
        .map(|emb| Assignment { cluster: nearest_of(kmeans, emb), table: table_of(emb, cb) })
        .collect()
}

fn trained() -> (KMeans<f64, L2Dist>, Model, InvertedIndex, Codebook, Vec<Embedding>) {
    let embs = training_set();
    let kmeans = fit(&embs);
    let centroids = centroids_of(&kmeans);
    let mut model = Model::new();
    let mut ividx = InvertedIndex::empty();
    let assigned = assignments(&kmeans, &centroids, &embs);
    let codebook = model.k_means(&mut ividx, &centroids, &assigned).unwrap();
    (kmeans, model, ividx, codebook, embs)
}

fn scanned(
    kmeans: &KMeans<f64, L2Dist>,
    model: &Model,
    ividx: &InvertedIndex,
    codebook: &Codebook,
    query: &Embedding,
) -> ScannedQuery {
    let nearest = nearest_of(kmeans, query);
    let centroid = ividx.get_nearest_centroid(model, nearest, codebook).unwrap();
    let resid = residual_of(query, centroid.0 .1);
    let dt = table_of(&resid, codebook);
    let rows = scan(ividx.get_cluster(centroid.0 .0), &dt).unwrap();
    let distances = rows
        .iter()
        .map(|cells| cells.iter().map(|c| f64::from_bits(*c)).sum::<f64>().to_bits())
        .collect();
    ScannedQuery { nearest, distances }
}

fn queries() -> [Embedding; 2] {
    [
        to_embedding(&[20.1, 20.3, 20.2, 19.9, 20.0, 20.4, 20.2, 20.2, 20.1, 20.0, 20.3, 20.5]),
        to_embedding(&[0.1, 0.0, 0.4, 0.2, 0.3, 0.1, 0.0, 0.2, 0.5, 0.1, 0.1, 0.3]),
    ]
}

#[test]
fn k_means_works() {
    let (kmeans, model, ividx, codebook, embs) = trained();
    assert!(model.is_trained());
    assert_eq!(model.model, Some(codebook));
    assert_eq!(codebook, centroids_of(&kmeans));
    assert_eq!(ividx.last_vector_id(), 1 + embs.len() as u32);
    let mut stored = 0;
    for cluster_no in 0..CQ_K_CENTROIDS {
        stored += ividx.get_cluster(cluster_no as u8).entries().len();
    }
    assert_eq!(stored, embs.len());
    for (i, emb) in embs.iter().enumerate() {
        let id = 2 + i as u32;
        let cluster = nearest_of(&kmeans, emb);
        let code = Embedding::encode(&table_of(emb, &codebook));
        for cluster_no in 0..CQ_K_CENTROIDS {
            let found: Vec<(u32, IVListEntry)> = ividx
                .get_cluster(cluster_no as u8)
                .entries()
                .into_iter()
                .filter(|(k, _)| *k == id)
                .collect();
            if cluster_no == cluster {
                assert_eq!(found, vec![(id, IVListEntry::new(code, cluster as u8))]);
            } else {
                assert!(found.is_empty());
            }
        }
    }
}

#[test]
fn training_twice_gives_one_codebook() {
    let embs = training_set();
    let first = centroids_of(&fit(&embs));
    let second = centroids_of(&fit(&embs));
    assert_eq!(first, second);
    let (_, _, ividx_a, codebook_a, _) = trained();
    let (_, _, ividx_b, codebook_b, _) = trained();
    assert_eq!(codebook_a, codebook_b);
    assert!(ividx_a.same_as(&ividx_b));
}

#[test]
fn a_trained_model_keeps_its_codebook() {
    let (kmeans, mut model, mut ividx, codebook, embs) = trained();
    let other: Codebook = [Embedding::default(); CQ_K_CENTROIDS];
    let more = assignments(&kmeans, &codebook, &embs[0..2]);
    let again = model.k_means(&mut ividx, &other, &more).unwrap();
    assert_eq!(again, codebook);
    assert_eq!(model.model, Some(codebook));
    assert_eq!(ividx.last_vector_id(), 1 + embs.len() as u32 + 2);
}

#[test]
fn training_stores_all_or_nothing() {
    let (kmeans, _, _, codebook, embs) = trained();
    let mut assigned = assignments(&kmeans, &codebook, &embs);
    assigned[5].cluster = 8;
    assigned[9].cluster = 300;
    let mut model = Model::new();
    let mut ividx = InvertedIndex::empty();
    assert_eq!(
        model.k_means(&mut ividx, &codebook, &assigned),
        Err(TrainError::NoSuchCluster(5))
    );
    assert!(!model.is_trained());
    assert!(ividx.same_as(&InvertedIndex::empty()));
    assert_eq!(ividx.last_vector_id(), 1);

    let assigned = assignments(&kmeans, &codebook, &embs[0..3]);
    let mut full = InvertedIndex::empty();
    let mut avl = AvlWrapper::new();
    avl.insert(u32::MAX - 2, Box::new(IVListEntry::new([1; EMBEDDING_M_SEGMENTS], 0)));
    full.push(avl);
    let before = full.clone();
    assert_eq!(
        model.k_means(&mut full, &codebook, &assigned),
        Err(TrainError::IdsExhausted)
    );
    assert!(!model.is_trained());
    assert!(full.same_as(&before));
    assert_eq!(full.last_vector_id(), u32::MAX - 2);
    assert_eq!(model.k_means(&mut full, &codebook, &assigned[0..2].to_vec()), Ok(codebook));
    assert_eq!(full.last_vector_id(), u32::MAX);
}

#[test]
fn an_untrained_model_predicts_nothing() {
    let model = Model::new();
    assert!(!model.is_trained());
    assert_eq!(model.predict(0), Err(ModelError::NotTrained));
    let (_, trained_model, ividx, codebook, _) = trained();
    assert_eq!(trained_model.predict(0), Ok(0));
    assert_eq!(trained_model.predict(7), Ok(7));
    assert_eq!(trained_model.predict(8), Err(ModelError::ClusterOutOfRange(8)));
    assert_eq!(trained_model.predict(256), Err(ModelError::ClusterOutOfRange(256)));
    assert_eq!(
        ividx.get_nearest_centroid(&model, 3, &codebook).err(),
        Some(ModelError::NotTrained)
    );
    assert_eq!(
        ividx.get_nearest_centroid(&trained_model, 9, &codebook).err(),
        Some(ModelError::ClusterOutOfRange(9))
    );
    let centroid = ividx.get_nearest_centroid(&trained_model, 3, &codebook).unwrap();
    assert_eq!(centroid.0 .0, 3);
    assert_eq!(*centroid.0 .1, codebook[3]);
}

#[test]
fn it_searches() {
    let (kmeans, model, ividx, codebook, _) = trained();
    let scanned_queries: Vec<ScannedQuery> =
        queries().iter().map(|q| scanned(&kmeans, &model, &ividx, &codebook, q)).collect();
    let results = search(&ividx, &scanned_queries, &model).unwrap();
    println!("{:?}", results);
    assert_eq!(results.len(), 2);
    for (query, nodes) in scanned_queries.iter().zip(results.iter()) {
        let bucket = ividx.get_cluster(query.nearest as u8).get_all();
        assert_eq!(bucket.len(), EMBEDDINGS_PER_CLUSTER);
        let mut expected: Vec<(u64, PqCode)> = bucket
            .iter()
            .zip(query.distances.iter())
            .map(|(entry, d)| (*d, *entry.get_code()))
            .collect();
        expected.sort();
        expected.truncate(RETRIEVE_KNN);
        let got: Vec<(u64, PqCode)> = nodes.iter().map(|n| (n.distance.bits(), n.code)).collect();
        assert_eq!(got, expected);
    }
}

#[test]
fn searching_twice_gives_one_answer() {
    let (kmeans, model, ividx, codebook, _) = trained();
    let first: Vec<ScannedQuery> =
        queries().iter().map(|q| scanned(&kmeans, &model, &ividx, &codebook, q)).collect();
    let second: Vec<ScannedQuery> =
        queries().iter().map(|q| scanned(&kmeans, &model, &ividx, &codebook, q)).collect();
    assert_eq!(search(&ividx, &first, &model), search(&ividx, &second, &model));
    assert_eq!(search(&ividx, &first, &model), search(&ividx, &first, &model));
}

fn bucket_of(n: u32) -> AvlWrapper {
    let mut avl = AvlWrapper::new();
    for i in 0..n {
        avl.insert(100 + i, Box::new(IVListEntry::new([(i % 8) as u8, 0, 0, (i / 8) as u8], 0)));
    }
    avl
}

#[test]
fn select_keeps_the_nearest_in_order() {
    let bucket = bucket_of(25);
    let distances: Vec<u64> = (0..25u64).map(|i| ((i * 7) % 25) as f64).map(|d| d.to_bits()).collect();
    let nodes = select(&bucket, &distances).unwrap();
    assert_eq!(nodes.len(), RETRIEVE_KNN);
    let mut expected: Vec<(u64, PqCode)> = bucket
        .get_all()
        .iter()
        .zip(distances.iter())
        .map(|(e, d)| (*d, *e.get_code()))
        .collect();
    expected.sort();
    expected.truncate(RETRIEVE_KNN);
    let got: Vec<(u64, PqCode)> = nodes.iter().map(|n| (n.distance.bits(), n.code)).collect();
    assert_eq!(got, expected);
    assert_eq!(nodes[0], HeapNode::new(Dist::new(0f64.to_bits()).unwrap(), &[0, 0, 0, 0]));

    let few = bucket_of(3);
    let nodes = select(&few, &vec![5f64.to_bits(), 1f64.to_bits(), 3f64.to_bits()]).unwrap();
    let got: Vec<f64> = nodes.iter().map(|n| f64::from_bits(n.distance.bits())).collect();
    assert_eq!(got, vec![1.0, 3.0, 5.0]);
    assert_eq!(select(&bucket_of(0), &Vec::new()), Ok(Vec::new()));
}

#[test]
fn a_distance_that_is_none_fails_the_query() {
    let bucket = bucket_of(3);
    assert_eq!(
        select(&bucket, &vec![1f64.to_bits(), 2f64.to_bits()]),
        Err(SearchError::LengthMismatch)
    );
    assert_eq!(
        select(&bucket, &vec![1f64.to_bits(), f64::NAN.to_bits(), (-1f64).to_bits()]),
        Err(SearchError::NotANumber(1))
    );
    assert_eq!(
        select(&bucket, &vec![1f64.to_bits(), 2f64.to_bits(), (-1f64).to_bits()]),
        Err(SearchError::Negative(2))
    );
    assert_eq!(
        select(&bucket, &vec![(-0f64).to_bits(), f64::NAN.to_bits(), 1f64.to_bits()]),
        Err(SearchError::Negative(0))
    );
}

#[test]
fn the_first_query_without_an_answer_fails_the_batch() {
    let (_, model, ividx, _, _) = trained();
    let good = ScannedQuery { nearest: 0, distances: vec![1f64.to_bits(); 3] };
    let good_len = ividx.get_cluster(0).get_all().len();
    assert_eq!(good_len, 3);
    assert!(search(&ividx, &vec![good], &model).is_ok());
    assert_eq!(search(&ividx, &Vec::new(), &model), Ok(Vec::new()));
    assert_eq!(search(&ividx, &Vec::new(), &Model::new()), Ok(Vec::new()));

    let good = ScannedQuery { nearest: 0, distances: vec![1f64.to_bits(); 3] };
    assert_eq!(search(&ividx, &vec![good], &Model::new()), Err(SearchError::NotTrained));

    let good = ScannedQuery { nearest: 0, distances: vec![1f64.to_bits(); 3] };
    let stray = ScannedQuery { nearest: 8, distances: Vec::new() };
    let short = ScannedQuery { nearest: 1, distances: Vec::new() };
    assert_eq!(
        search(&ividx, &vec![good, stray, short], &model),
        Err(SearchError::ClusterOutOfRange(8))
    );

    let short = ScannedQuery { nearest: 1, distances: Vec::new() };
    let stray = ScannedQuery { nearest: 8, distances: Vec::new() };
    assert_eq!(search(&ividx, &vec![short, stray], &model), Err(SearchError::LengthMismatch));

    let nan = ScannedQuery {
        nearest: 2,
        distances: vec![1f64.to_bits(), 2f64.to_bits(), f64::NAN.to_bits()],
    };
    assert_eq!(search(&ividx, &vec![nan], &model), Err(SearchError::NotANumber(2)));

    let small = InvertedIndex::from_buckets(vec![AvlWrapper::new(), AvlWrapper::new()]);
    let missing = ScannedQuery { nearest: 2, distances: Vec::new() };
    assert_eq!(search(&small, &vec![missing], &model), Err(SearchError::NoSuchCluster(2)));
    let there = ScannedQuery { nearest: 1, distances: Vec::new() };
    assert_eq!(search(&small, &vec![there], &model), Ok(vec![Vec::new()]));
}

#[test]
fn lookups_follow_the_code() {
    let mut table: DistanceTable = [[0; EMBEDDING_M_SEGMENTS]; CENTROIDS_PER_SUBSPACE_CLUSTER];
    for c in 0..CENTROIDS_PER_SUBSPACE_CLUSTER {
        for s in 0..EMBEDDING_M_SEGMENTS {
            table[c][s] = (10 * c + s) as u64;
        }
    }
    assert_eq!(table_lookups(&table, &[1, 3, 0, 7]), Ok([10, 31, 2, 73]));
    assert_eq!(table_lookups(&table, &[1, 3, 8, 7]), Err(SearchError::CodeOutOfRange));
    let mut bucket = AvlWrapper::new();
    bucket.insert(9, Box::new(IVListEntry::new([0, 0, 0, 0], 0)));
    bucket.insert(4, Box::new(IVListEntry::new([7, 6, 5, 4], 0)));
    assert_eq!(scan(&bucket, &table), Ok(vec![[70, 61, 52, 43], [0, 1, 2, 3]]));
    bucket.insert(5, Box::new(IVListEntry::new([7, 6, 5, 255], 0)));
    assert_eq!(scan(&bucket, &table), Err(SearchError::CodeOutOfRange));
}

#[test]
fn an_index_of_stored_buckets_counts_on_from_their_ids() {
    let mut a = AvlWrapper::new();
    a.insert(17, Box::new(IVListEntry::new([1; EMBEDDING_M_SEGMENTS], 0)));
    let mut b = AvlWrapper::new();
    b.insert(40, Box::new(IVListEntry::new([1; EMBEDDING_M_SEGMENTS], 1)));
    b.insert(3, Box::new(IVListEntry::new([1; EMBEDDING_M_SEGMENTS], 1)));
    let index = InvertedIndex::from_buckets(vec![a, b, AvlWrapper::new()]);
    assert_eq!(index.len(), 3);
    assert_eq!(index.last_vector_id(), 40);
    assert_eq!(index.get_cluster(1).entries().len(), 2);
    assert_eq!(InvertedIndex::from_buckets(Vec::new()).last_vector_id(), 1);
    assert_eq!(InvertedIndex::from_buckets(vec![AvlWrapper::new()]).last_vector_id(), 1);
}
