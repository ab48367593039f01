use hnsw::helpers::{compute_ground_truth, exact_top_k, nearest_links, recall_hits};
use hnsw::Hnsw;
use rand::distr::{Distribution, Open01};
use rand::RngExt;

const MIN_RECALL: f32 = 0.95;

fn key(d: f32) -> u32 {
    (d + 0.0).to_bits()
}

fn l2<const D: usize>(a: &[f32; D], b: &[f32; D]) -> u32 {
    let mut s = 0.0f32;
    for i in 0..D {
        let d = a[i] - b[i];
        s += d * d;
    }
    key(s)
}

#[test]
fn exact_top_k_orders_by_distance_then_index() {
    let base: Vec<[f32; 1]> = vec![[5.0], [1.0], [3.0], [1.0], [9.0]];
    assert_eq!(exact_top_k(&base, &[2.0], 3, &l2::<1>), vec![1, 2, 3]);
    assert_eq!(exact_top_k(&base, &[2.0], 0, &l2::<1>), Vec::<usize>::new());
    assert_eq!(exact_top_k(&base, &[10.0], 10, &l2::<1>), vec![4, 0, 2, 1, 3]);
    let links = nearest_links(&base, &[0.0], 2, &l2::<1>);
    assert_eq!(links.iter().map(|l| l.node_index).collect::<Vec<_>>(), vec![1, 3]);
    assert_eq!(links[0].distance, key(1.0));
}

#[test]
fn ground_truth_has_one_row_per_query() {
    let base: Vec<[f32; 2]> = (0..20).map(|i| [i as f32, 0.0]).collect();
    let queries = vec![[3.2, 0.0], [17.9, 1.0]];
    let gt = compute_ground_truth(&base, &queries, 2, &l2::<2>);
    assert_eq!(gt, vec![vec![3, 4], vec![18, 17]]);
}

#[test]
fn recall_counts_expected_ids_found() {
    assert_eq!(recall_hits(&[1, 2, 3], &[3, 9, 1]), 2);
    assert_eq!(recall_hits(&[], &[3, 9, 1]), 0);
    assert_eq!(recall_hits(&[4, 4], &[4]), 2);
}

#[test]
fn with_data_keeps_the_graph() {
    let mut h = Hnsw::<[f32; 1]>::new(3, 6, 32);
    for i in 0..20 {
        h.insert([i as f32], i % 2, &l2::<1>);
    }
    let doubled: Vec<[f32; 1]> = h.storage().data.iter().map(|v| [v[0] * 2.0]).collect();
    let entry = h.entry();
    let links: Vec<usize> = h.storage().nodes.iter().map(|n| n.layers[0].len()).collect();
    let g = h.with_data(doubled);
    assert_eq!(g.entry(), entry);
    assert_eq!(g.storage().nodes.iter().map(|n| n.layers[0].len()).collect::<Vec<_>>(), links);
    assert_eq!(g.search(&[8.0], 1, &l2::<1>)[0].0, 4);
}

#[test]
fn test_avg_recall() {
    const N: usize = 10_000;
    const DIMS: usize = 8;
    const K: usize = 5;
    const M: usize = 16;
    const N_RECALL_QUERIES: usize = 1000;

    let mut rng = rand::rng();
    let mut knn = Hnsw::<[f32; DIMS]>::new(M, 2 * M, 128);
    let ml = 1.0 / (M as f64).ln();

    let mut data = Vec::with_capacity(N);
    for _ in 0..N {
        let v: [f32; DIMS] = (0..DIMS)
            .map(|_| rng.random_range(-10.0..10.0))
            .collect::<Vec<f32>>()
            .try_into()
            .unwrap();
        let x: f64 = Open01.sample(&mut rng);
        let layer = (-x.ln() * ml).floor() as usize;
        knn.insert(v, layer, &l2::<DIMS>);
        data.push(v);
    }

    let mut total_recall = 0.0;
    for _ in 0..N_RECALL_QUERIES {
        let query: [f32; DIMS] = (0..DIMS)
            .map(|_| rng.random_range(-10.0..10.0))
            .collect::<Vec<f32>>()
            .try_into()
            .unwrap();
        let graph_results: Vec<usize> = knn.search(&query, K, &l2::<DIMS>).iter().map(|r| r.0).collect();
        let brute_results = exact_top_k(&data, &query, K, &l2::<DIMS>);
        total_recall += recall_hits(&brute_results, &graph_results) as f32 / brute_results.len() as f32;
    }
    let avg_recall = total_recall / N_RECALL_QUERIES as f32;

    println!("avg recall: {:.1}%", avg_recall * 100.0);

    assert!(avg_recall >= MIN_RECALL);
}
