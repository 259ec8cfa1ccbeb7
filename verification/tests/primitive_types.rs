use ivfpq::constants::{
    CENTROIDS_PER_SUBSPACE_CLUSTER, CQ_K_CENTROIDS, EMBEDDING_DIM, EMBEDDING_M_SEGMENTS,
    SEGMENT_DIM,
};
use ivfpq::primitive_types::{Codebook, DistanceTable, Embedding, PqCode, Segment, ShapeError};
use linfa_nn::distance::{Distance, L2Dist};
use ndarray::Array1;

fn embedding(values: [f64; EMBEDDING_DIM]) -> Embedding {
    let flat: Vec<u64> = values.iter().map(|v| v.to_bits()).collect();
    Embedding::from_vec(&flat).unwrap()
}

fn floats(segment: &Segment) -> Vec<f64> {
    segment.to_vec().iter().map(|b| f64::from_bits(*b)).collect()
}

fn codebook() -> Codebook {
    let mut cb: Codebook = [Embedding::default(); CQ_K_CENTROIDS];
    for c in 0..CQ_K_CENTROIDS {
        cb[c] = embedding([(c % 4) as f64 + 1.0; EMBEDDING_DIM]);
    }
    cb
}

fn test_embeddings() -> [Embedding; 3] {
    [
        embedding([2.1, 2.0, 1.9, 4.0, 4.2, 3.9, 4.5, 4.1, 3.8, 5.0, 4.0, 4.0]),
        embedding([0.5, 1.0, 1.2, 3.6, 4.0, 4.4, 9.0, 9.0, 9.0, 3.9, 3.8, 3.7]),
        embedding([2.0, 2.0, 2.0, 4.0, 4.0, 4.0, 1.0, 1.0, 1.0, 4.0, 4.0, 4.0]),
    ]
}

fn distance_table(query: &Embedding, cb: &Codebook) -> DistanceTable {
    let mut table: DistanceTable = [[0; EMBEDDING_M_SEGMENTS]; CENTROIDS_PER_SUBSPACE_CLUSTER];
    for (c, centroid) in cb.iter().enumerate() {
        for s in 0..EMBEDDING_M_SEGMENTS {
            let a = Array1::from(floats(&centroid.into_segments()[s]));
            let b = Array1::from(floats(&query.into_segments()[s]));
            table[c][s] = L2Dist.distance(a.view(), b.view()).to_bits();
        }
    }
    table
}

#[test]
fn encoding_works() {
    let cb = codebook();
    let encoded_embs = test_embeddings()
        .iter()
        .map(|emb| Embedding::encode(&distance_table(emb, &cb)))
        .collect::<Vec<PqCode>>();

    assert_eq!(
        vec![[1_u8, 3_u8, 3_u8, 3_u8], [0_u8, 3_u8, 3_u8, 3_u8], [1_u8, 3_u8, 0_u8, 3_u8]],
        encoded_embs
    );
}

#[test]
fn encoding_twice_gives_one_code() {
    let cb = codebook();
    for emb in test_embeddings().iter() {
        let first = Embedding::encode(&distance_table(emb, &cb));
        let second = Embedding::encode(&distance_table(emb, &cb));
        assert_eq!(first, second);
    }
}

#[test]
fn of_equally_near_centroids_the_first_is_chosen() {
    let mut table: DistanceTable = [[9f64.to_bits(); EMBEDDING_M_SEGMENTS]; CENTROIDS_PER_SUBSPACE_CLUSTER];
    table[2][0] = 1f64.to_bits();
    table[5][0] = 1f64.to_bits();
    table[7][1] = 0f64.to_bits();
    table[3][2] = 0.5f64.to_bits();
    table[4][2] = 0.5f64.to_bits();
    table[6][2] = 0.25f64.to_bits();
    assert_eq!(Embedding::encode(&table), [2, 7, 6, 0]);
}

#[test]
fn the_first_smallest_cell_is_chosen_whatever_it_holds() {
    let inf = f64::INFINITY.to_bits();
    let max = f64::MAX.to_bits();
    let nan = f64::NAN.to_bits();
    let mut table: DistanceTable = [[inf; EMBEDDING_M_SEGMENTS]; CENTROIDS_PER_SUBSPACE_CLUSTER];
    table[1][0] = max;
    table[2][0] = max;
    for c in 0..CENTROIDS_PER_SUBSPACE_CLUSTER {
        table[c][2] = nan;
        table[c][3] = max;
    }
    table[5][2] = inf;
    table[6][2] = inf;
    table[4][3] = max - 1;
    table[7][3] = max - 1;
    assert_eq!(Embedding::encode(&table), [1, 0, 5, 4]);
}

#[test]
fn a_table_of_one_distance_selects_the_first_centroid() {
    for bits in [0u64, 1f64.to_bits(), f64::MAX.to_bits(), f64::INFINITY.to_bits(), u64::MAX] {
        let table: DistanceTable = [[bits; EMBEDDING_M_SEGMENTS]; CENTROIDS_PER_SUBSPACE_CLUSTER];
        assert_eq!(Embedding::encode(&table), [0, 0, 0, 0]);
    }
}

#[test]
fn distance_table_gets_computed() {
    let codebook = codebook();
    let query_vector = embedding([1.0; EMBEDDING_DIM]);
    let dt: DistanceTable = distance_table(&query_vector, &codebook);
    let get_distance = |c_j: Segment, qv: Segment| {
        L2Dist
            .distance(Array1::from(floats(&c_j)).view(), Array1::from(floats(&qv)).view())
            .to_bits()
    };
    let one = Segment::new([1f64.to_bits(); SEGMENT_DIM]);
    let mut expected_dt: DistanceTable = [[0; EMBEDDING_M_SEGMENTS]; CENTROIDS_PER_SUBSPACE_CLUSTER];
    for c in 0..CENTROIDS_PER_SUBSPACE_CLUSTER {
        let value = ((c % 4) as f64 + 1.0).to_bits();
        for s in 0..EMBEDDING_M_SEGMENTS {
            expected_dt[c][s] = get_distance(Segment::new([value; SEGMENT_DIM]), one);
        }
    }
    assert_eq!(dt, expected_dt);
    assert_eq!(dt.len(), 8);
    for c in 0..CQ_K_CENTROIDS {
        assert_eq!(dt[c].len(), 4);
        for s in 0..EMBEDDING_M_SEGMENTS {
            let expected = ((c % 4) as f64 * (c % 4) as f64 * SEGMENT_DIM as f64).sqrt();
            assert_eq!(f64::from_bits(dt[c][s]), expected);
        }
    }
    assert_eq!(Embedding::encode(&dt), [0, 0, 0, 0]);
}

#[test]
fn flatten_and_cut_round_trip() {
    let flat: Vec<u64> = (0..EMBEDDING_DIM as u64).map(|i| (i as f64 * 1.5).to_bits()).collect();
    let e = Embedding::from_vec(&flat).unwrap();
    assert_eq!(e.to_vec(), flat);
    assert_eq!(Embedding::from_vec(&e.to_vec()), Ok(e));
    for emb in test_embeddings().iter() {
        assert_eq!(Embedding::from_vec(&emb.to_vec()), Ok(*emb));
        assert_eq!(Embedding::from_base(&emb.to_vec()), *emb);
    }
}

#[test]
fn every_bit_pattern_survives_the_round_trip() {
    let odd = [
        f64::NAN.to_bits(),
        (-0f64).to_bits(),
        u64::MAX,
        0,
        1,
        f64::INFINITY.to_bits(),
        f64::MIN_POSITIVE.to_bits(),
        0x7FF8_0000_0000_0001,
        0xFFF0_0000_0000_0000,
        42,
        7,
        0xDEAD_BEEF,
    ];
    let e = Embedding::from_vec(&odd.to_vec()).unwrap();
    assert_eq!(e.to_vec(), odd.to_vec());
}

#[test]
fn segments_are_cut_in_order() {
    let flat: Vec<u64> = (100..112).collect();
    let e = Embedding::from_vec(&flat).unwrap();
    let segments = e.into_segments();
    assert_eq!(segments[0], Segment::new([100, 101, 102]));
    assert_eq!(segments[1].to_vec(), vec![103, 104, 105]);
    assert_eq!(segments[3], Segment::new([109, 110, 111]));
    assert_eq!(Embedding::new(*segments), e);
}

#[test]
fn from_base_cuts_twelve_coordinates() {
    let flat: Vec<u64> = (0..12).collect();
    let e = Embedding::from_base(&flat);
    assert_eq!(e.to_vec(), flat);
    assert_eq!(Ok(e), Embedding::from_vec(&flat));
    assert_eq!(e.into_segments()[2], Segment::new([6, 7, 8]));
}

#[test]
fn wrong_length_is_rejected() {
    let flat: Vec<u64> = vec![0; 11];
    assert_eq!(Embedding::from_vec(&flat), Err(ShapeError::WrongLength(11)));
    let long: Vec<u64> = vec![0; 13];
    assert_eq!(Embedding::from_vec(&long), Err(ShapeError::WrongLength(13)));
    let longer: Vec<u64> = (0..20).collect();
    assert_eq!(Embedding::from_vec(&longer), Err(ShapeError::WrongLength(20)));
    assert_eq!(Embedding::from_vec(&Vec::new()), Err(ShapeError::WrongLength(0)));
}

#[test]
fn the_default_embedding_is_the_origin() {
    let e = Embedding::default();
    assert_eq!(e.to_vec(), vec![0f64.to_bits(); EMBEDDING_DIM]);
    assert_eq!(Segment::default().to_vec(), vec![0; SEGMENT_DIM]);
}

#[test]
fn coordinates_are_read_as_fields() {
    let fields = Embedding::fields_from_str(
        "[1.0, 2.5,3 , -4e3, 5, 6, 7, 8, 9, 10, 11, 1 2.5]",
    )
    .unwrap();
    assert_eq!(
        fields,
        vec!["1.0", "2.5", "3", "-4e3", "5", "6", "7", "8", "9", "10", "11", "12.5"]
    );
    let values: Vec<f64> = fields.iter().map(|f| f.parse::<f64>().unwrap()).collect();
    assert_eq!(values[3], -4000.0);
    assert_eq!(values[11], 12.5);
    let more = Embedding::fields_from_str("1,2,3,4,5,6,7,8,9,10,11,12,13,14").unwrap();
    assert_eq!(more.len(), EMBEDDING_DIM);
    assert_eq!(more[11], "12");
    let nested = Embedding::fields_from_str("[[1,2,3],[4,5,6],[7,8,9],[10,11,12]]").unwrap();
    assert_eq!(nested[3], "4");
    assert_eq!(
        Embedding::fields_from_str("[1, 2, 3]"),
        Err(ShapeError::WrongLength(3))
    );
    assert_eq!(Embedding::fields_from_str(""), Err(ShapeError::WrongLength(1)));
}
