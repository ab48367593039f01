use hnsw::{Hnsw, InsertContext, Link, SearchContext};

const EPSILON: f32 = 1e-6;

/// The distance key of a non-negative distance: its bit pattern.
fn key(d: f32) -> u32 {
    (d + 0.0).to_bits()
}

fn from_key(k: u32) -> f32 {
    f32::from_bits(k)
}

fn l2<const D: usize>(a: &[f32; D], b: &[f32; D]) -> u32 {
    let mut s = 0.0f32;
    for i in 0..D {
        let d = a[i] - b[i];
        s += d * d;
    }
    key(s)
}

fn approx_eq(a: f32, b: f32) -> bool {
    (a - b).abs() < EPSILON
}

/// `new_default(M)`: M above layer 0, 2M on layer 0, beam width 128.
fn new_default<V>(m: usize) -> Hnsw<V> {
    Hnsw::new(m, 2 * m, 128)
}

/// A deterministic stand-in for the random layer draw.
struct Layers {
    state: u64,
    ml: f64,
}

impl Layers {
    fn new(seed: u64, m: usize) -> Self {
        Layers { state: seed, ml: 1.0 / (m as f64).ln() }
    }

    fn next(&mut self) -> usize {
        self.state = self
            .state
            .wrapping_mul(6364136223846793005)
            .wrapping_add(1442695040888963407);
        let x = ((self.state >> 11) as f64 + 0.5) / (1u64 << 53) as f64;
        (-x.ln() * self.ml).floor() as usize
    }
}

#[test]
fn test_knn() {
    let mut knn = new_default::<[f32; 2]>(5);
    knn.insert([0.0, 0.0], 0, &l2::<2>);
    knn.insert([3.0, 3.0], 0, &l2::<2>);
    knn.insert([4.0, 4.0], 0, &l2::<2>);

    let from = [1.0, 1.0];
    let closest = knn.search(&from, 2, &l2::<2>);

    assert_eq!(closest.len(), 2);
    let expected_distances = [2.0_f32, 8.0_f32];
    assert!(approx_eq(from_key(closest[0].1), expected_distances[0]));
    assert!(approx_eq(from_key(closest[1].1), expected_distances[1]));
}

#[test]
fn test_k_larger_than_number_of_entries() {
    let mut knn = new_default::<[f32; 1]>(5);
    knn.insert([1.0], 0, &l2::<1>);
    knn.insert([2.0], 0, &l2::<1>);

    let closest = knn.search(&[0.0], 3, &l2::<1>);
    assert_eq!(closest.len(), 2);
}

#[test]
fn test_duplicate() {
    let mut knn = new_default::<[f32; 1]>(5);
    knn.insert([0.0], 0, &l2::<1>);
    knn.insert([2.0], 0, &l2::<1>);
    knn.insert([2.0], 0, &l2::<1>);
    knn.insert([4.0], 0, &l2::<1>);

    let from = [2.0];
    let closest = knn.search(&from, 3, &l2::<1>);

    assert_eq!(closest.len(), 3);
    assert!(approx_eq(from_key(closest[0].1), 0.0));
    assert!(approx_eq(from_key(closest[1].1), 0.0));
    assert!(approx_eq(from_key(closest[2].1), 4.0));
}

#[test]
fn test_empty_graph() {
    let knn = new_default::<[f32; 2]>(2);
    let closest = knn.search(&[1.0, 1.0], 3, &l2::<2>);
    assert!(closest.is_empty());
}

fn weighted(a: &[f32; 2], b: &[f32; 2]) -> u32 {
    let (x, y) = (0.0f32, 1.0f32);
    let dx = a[0] - b[0];
    let dy = a[1] - b[1];
    key(x * dx * dx + y * dy * dy)
}

#[test]
fn custom_distance_controls_search_order() {
    let mut knn = Hnsw::<[f32; 2]>::new(2, 4, 16);
    knn.insert([10.0, 0.0], 0, &weighted);
    knn.insert([0.0, 2.0], 0, &weighted);
    knn.insert([0.0, 3.0], 0, &weighted);

    let closest = knn.search(&[0.0, 0.0], 1, &weighted);

    assert_eq!(closest, vec![(0, key(0.0))]);
}

fn build_line(n: usize, m: usize) -> Hnsw<[f32; 2]> {
    let mut h = new_default::<[f32; 2]>(m);
    let mut layers = Layers::new(42, m);
    for i in 0..n {
        h.insert([i as f32, 0.0], layers.next(), &l2::<2>);
    }
    h
}

#[test]
fn test_max_connections() {
    let h = build_line(100, 8);

    for node in &h.storage().nodes {
        for (lyr, neighs) in node.layers.iter().enumerate() {
            let max = if lyr == 0 { h.M0() } else { h.M() };
            assert!(
                neighs.len() <= max,
                "more than max connections at layer {}: {} > {}",
                lyr,
                neighs.len(),
                max
            );
        }
    }
}

#[test]
fn test_no_duplicate_neighbors() {
    let h = build_line(100, 8);

    for node in &h.storage().nodes {
        for neighs in &node.layers {
            let mut seen = std::collections::HashSet::new();
            for n in neighs {
                assert!(seen.insert(n.node_index), "duplicate neighbor detected");
            }
        }
    }
}

#[test]
fn links_stay_on_their_layer_and_never_loop() {
    let h = build_line(200, 4);
    let nodes = &h.storage().nodes;
    for (i, node) in nodes.iter().enumerate() {
        for (lyr, neighs) in node.layers.iter().enumerate() {
            for n in neighs {
                assert_ne!(n.node_index, i);
                assert!(n.node_index < nodes.len());
                assert!(lyr < nodes[n.node_index].layers.len());
            }
        }
    }
}

#[test]
fn entry_point_reaches_the_top_layer() {
    let h = build_line(200, 4);
    let (ep, max_layer) = h.entry();
    let nodes = &h.storage().nodes;
    assert_eq!(nodes[ep].layers.len(), max_layer + 1);
    for node in nodes {
        assert!(node.layers.len() <= max_layer + 1);
        assert!(!node.layers.is_empty());
    }
}

#[test]
fn insert_returns_consecutive_indices_and_keeps_vectors() {
    let mut h = new_default::<[f32; 2]>(4);
    for i in 0..10usize {
        let idx = h.insert([i as f32, 1.0], i % 3, &l2::<2>);
        assert_eq!(idx, i);
        assert_eq!(h.len(), i + 1);
        assert_eq!(h.storage().data[idx], [i as f32, 1.0]);
        assert_eq!(h.storage().nodes[idx].layers.len(), i % 3 + 1);
    }
    assert_eq!(h.entry(), (2, 2));
}

#[test]
fn first_insert_sets_the_entry_point() {
    let mut h = new_default::<[f32; 1]>(3);
    assert!(h.is_empty());
    assert_eq!(h.entry(), (0, 0));
    h.insert([5.0], 3, &l2::<1>);
    assert_eq!(h.entry(), (0, 3));
    h.insert([6.0], 1, &l2::<1>);
    assert_eq!(h.entry(), (0, 3));
    h.insert([7.0], 4, &l2::<1>);
    assert_eq!(h.entry(), (2, 4));
}

#[test]
fn search_results_are_sorted_distinct_and_exact_distances() {
    let h = build_line(150, 6);
    let q = [37.3f32, 0.5];
    let res = h.search_with_ef(&q, 10, 64, &l2::<2>);
    assert_eq!(res.len(), 10);
    for w in res.windows(2) {
        assert!(w[0].1 < w[1].1 || (w[0].1 == w[1].1 && w[0].0 <= w[1].0));
    }
    let mut seen = std::collections::HashSet::new();
    for &(id, d) in &res {
        assert!(seen.insert(id));
        assert_eq!(d, l2(&q, &h.storage().data[id]));
    }
    assert_eq!(res[0].0, 37);
}

#[test]
fn search_with_reused_context_matches_fresh_search() {
    let h = build_line(80, 5);
    let mut ctx = h.search_context();
    for i in 0..20 {
        let q = [i as f32 * 3.7, 0.0];
        let a = h.search_with_context(&q, 5, 32, &l2::<2>, &mut ctx);
        let b = h.search(&q, 5, &l2::<2>);
        assert_eq!(a, b);
    }
}

#[test]
fn search_with_hash_context() {
    let h = build_line(50, 5);
    let mut ctx = SearchContext::one_off(16);
    let res = h.search_with_context(&[10.2, 0.0], 3, 16, &l2::<2>, &mut ctx);
    assert_eq!(res.iter().map(|r| r.0).collect::<Vec<_>>(), vec![10, 11, 9]);
}

#[test]
fn insert_with_one_off_context() {
    let mut h = new_default::<[f32; 1]>(3);
    let mut ctx = InsertContext::one_off(128, 6);
    for i in 0..30 {
        h.insert_with_context([i as f32], i % 2, &l2::<1>, &mut ctx);
    }
    let res = h.search(&[12.2], 1, &l2::<1>);
    assert_eq!(res[0].0, 12);
}

#[test]
fn from_parts_keeps_any_parts_and_tells_broken_ones() {
    let h = build_line(40, 4);
    let st = h.storage();
    let (ep, top) = h.entry();
    let copy_nodes = || -> Vec<hnsw::Node> {
        st.nodes
            .iter()
            .map(|n| hnsw::Node { layers: n.layers.iter().map(|l| l.to_vec()).collect() })
            .collect()
    };
    let rebuilt = Hnsw::from_parts(h.M(), h.M0(), h.ef_construction(), st.data.clone(), copy_nodes(), ep, top);
    assert!(rebuilt.is_well_formed());
    assert_eq!(rebuilt.search(&[3.1, 0.0], 4, &l2::<2>), h.search(&[3.1, 0.0], 4, &l2::<2>));

    // a self link
    let mut nodes = copy_nodes();
    nodes[1].layers[0][0] = Link { node_index: 1, distance: 0 };
    assert!(!Hnsw::from_parts(4, 8, 128, st.data.clone(), nodes, ep, top).is_well_formed());

    // a duplicate link
    let mut nodes = copy_nodes();
    let first = nodes[2].layers[0][0];
    nodes[2].layers[0].push(first);
    assert!(!Hnsw::from_parts(4, 8, 128, st.data.clone(), nodes, ep, top).is_well_formed());

    // an entry point below the top layer
    assert!(!Hnsw::from_parts(4, 8, 128, st.data.clone(), copy_nodes(), ep, top + 1).is_well_formed());

    // vectors and nodes disagree in number
    let mut data = st.data.clone();
    data.pop();
    assert!(!Hnsw::from_parts(4, 8, 128, data, copy_nodes(), ep, top).is_well_formed());

    // an empty graph
    assert!(Hnsw::<[f32; 2]>::from_parts(4, 8, 128, vec![], vec![], 0, 0).is_well_formed());
    assert!(!Hnsw::<[f32; 2]>::from_parts(1, 8, 128, vec![], vec![], 0, 0).is_well_formed());
}

/// The brute-force distance keys of the `k` nearest vectors.
fn brute_force_keys<const D: usize>(data: &[[f32; D]], q: &[f32; D], k: usize) -> Vec<u32> {
    let mut keys: Vec<u32> = data.iter().map(|v| l2(q, v)).collect();
    keys.sort();
    keys.truncate(k);
    keys
}

#[test]
fn small_index_search_is_exact() {
    // ten nodes, M0 = 12: every neighbour list keeps room, so layer 0 stays
    // connected and a search with ef >= 10 finds the exact nearest nodes
    let mut h = new_default::<[f32; 2]>(6);
    let mut layers = Layers::new(7, 6);
    let points: Vec<[f32; 2]> = (0..10).map(|i| [(i * 7 % 10) as f32, (i * 3 % 5) as f32]).collect();
    for p in &points {
        h.insert(*p, layers.next(), &l2::<2>);
    }
    for qi in 0..12 {
        let q = [qi as f32 * 0.9 - 0.5, (qi % 4) as f32];
        for k in [1usize, 3, 10, 15] {
            let res = h.search(&q, k, &l2::<2>);
            let got: Vec<u32> = res.iter().map(|r| r.1).collect();
            assert_eq!(got, brute_force_keys(&points, &q, k));
        }
    }
}

#[test]
fn new_node_links_to_the_graph_and_gets_linked_back() {
    let mut h = new_default::<[f32; 1]>(4);
    let mut layers = Layers::new(3, 4);
    for i in 0..6 {
        let lyr = layers.next();
        let idx = h.insert([i as f32 * 1.5], lyr, &l2::<1>);
        let nodes = &h.storage().nodes;
        if idx > 0 {
            // on layer 0 the new node has neighbours, and each links back
            let own = &nodes[idx].layers[0];
            assert!(!own.is_empty());
            for l in own {
                assert!(nodes[l.node_index].layers[0].iter().any(|b| b.node_index == idx));
            }
        }
    }
}

#[test]
fn full_neighbour_list_is_rechosen_diversely() {
    // M0 = 2: the fourth insert overflows node 2's list on layer 0
    let mut h = Hnsw::<[f32; 1]>::new(2, 2, 16);
    for x in [0.0f32, 10.0, 11.0, 12.0] {
        h.insert([x], 0, &l2::<1>);
    }
    let nodes = &h.storage().nodes;
    let ids = |i: usize| nodes[i].layers[0].iter().map(|l| l.node_index).collect::<Vec<_>>();
    // node 3 kept only node 2: nodes 1 and 0 are nearer to node 2 than to node 3
    assert_eq!(ids(3), vec![2]);
    // node 2 had [1, 0]; with 3 added it keeps 1, then 3 (nearer to 2 than to 1)
    assert_eq!(ids(2), vec![1, 3]);
    assert_eq!(nodes[2].layers[0][1].distance, key(1.0));
    assert_eq!(ids(1), vec![0, 2]);
    assert_eq!(ids(0), vec![1, 2]);
}

type Saved = (u64, u64, u64, Vec<[f32; 2]>, Vec<Vec<Vec<(usize, u32)>>>, u64, u64, (f32, f32));

/// Encodes an index and the weights of its distance as bytes.
fn save_to_bytes(h: &Hnsw<[f32; 2]>, weights: (f32, f32)) -> Vec<u8> {
    let st = h.storage();
    let nodes: Vec<Vec<Vec<(usize, u32)>>> = st
        .nodes
        .iter()
        .map(|n| n.layers.iter().map(|l| l.iter().map(|x| (x.node_index, x.distance)).collect()).collect())
        .collect();
    let (ep, top) = h.entry();
    let saved: Saved = (
        h.M() as u64,
        h.M0() as u64,
        h.ef_construction() as u64,
        st.data.clone(),
        nodes,
        ep as u64,
        top as u64,
        weights,
    );
    bincode2::serialize(&saved).unwrap()
}

/// Decodes bytes written by `save_to_bytes` into an index and its weights.
fn load_from_bytes(b: &[u8]) -> (Hnsw<[f32; 2]>, (f32, f32)) {
    let (m, m0, efc, data, nodes, ep, top, weights): Saved = bincode2::deserialize(b).unwrap();
    let nodes = nodes
        .into_iter()
        .map(|n| hnsw::Node {
            layers: n
                .into_iter()
                .map(|l| l.into_iter().map(|(node_index, distance)| Link { node_index, distance }).collect())
                .collect(),
        })
        .collect();
    let h = Hnsw::from_parts(m as usize, m0 as usize, efc as usize, data, nodes, ep as usize, top as usize);
    assert!(h.is_well_formed());
    (h, weights)
}

fn weighted_by(w: (f32, f32)) -> impl Fn(&[f32; 2], &[f32; 2]) -> u32 {
    move |a, b| {
        let dx = a[0] - b[0];
        let dy = a[1] - b[1];
        key(w.0 * dx * dx + w.1 * dy * dy)
    }
}

#[test]
fn stateful_distance_survives_save_load() {
    let weights = (0.0f32, 1.0f32);
    let mut original = Hnsw::<[f32; 2]>::new(2, 4, 16);
    let dist = weighted_by(weights);
    original.insert([10.0, 0.0], 0, &dist);
    original.insert([0.0, 2.0], 0, &dist);
    original.insert([0.0, 3.0], 0, &dist);

    let bytes = save_to_bytes(&original, weights);
    let (loaded, loaded_weights) = load_from_bytes(&bytes);

    assert_eq!(loaded.search(&[0.0, 0.0], 1, &weighted_by(loaded_weights)), vec![(0, key(0.0))]);
}

#[test]
fn test_save_load_roundtrip_search_and_insert() {
    let query = [1.0, 1.0];

    let mut original = Hnsw::<[f32; 2]>::new(5, 10, 128);
    original.insert([0.0, 0.0], 1, &l2::<2>);
    original.insert([3.0, 3.0], 0, &l2::<2>);
    original.insert([4.0, 4.0], 2, &l2::<2>);

    let bytes = save_to_bytes(&original, (1.0, 1.0));
    let (mut loaded, _) = load_from_bytes(&bytes);

    assert_eq!(loaded.search(&query, 2, &l2::<2>), original.search(&query, 2, &l2::<2>));

    original.insert([2.0, 2.0], 1, &l2::<2>);
    loaded.insert([2.0, 2.0], 1, &l2::<2>);

    assert_eq!(loaded.search(&query, 3, &l2::<2>), original.search(&query, 3, &l2::<2>));
}

#[test]
fn new_node_keeps_only_diverse_neighbours() {
    // M0 = 2: the fourth node finds three candidates and keeps the nearest
    // only, since the other two are nearer to it than to the query
    let mut h = Hnsw::<[f32; 1]>::new(2, 2, 16);
    for x in [1.0f32, 2.0, 3.0] {
        h.insert([x], 0, &l2::<1>);
    }
    let idx = h.insert([0.0], 0, &l2::<1>);
    let nodes = &h.storage().nodes;
    assert_eq!(nodes[idx].layers[0], vec![Link { node_index: 0, distance: key(1.0) }]);
    let ids: Vec<usize> = nodes[0].layers[0].iter().map(|l| l.node_index).collect();
    assert_eq!(ids, vec![1, 3]);
}

#[test]
fn narrow_beam_on_a_connected_graph_still_returns_min_k_n() {
    let mut h = new_default::<[f32; 2]>(4);
    let points: Vec<[f32; 2]> = (0..6).map(|i| [i as f32 * 1.3, (i % 2) as f32]).collect();
    for p in &points {
        h.insert(*p, 0, &l2::<2>);
    }
    let q = [2.2f32, 0.4];
    let res = h.search_with_ef(&q, 10, 1, &l2::<2>);
    assert_eq!(res.len(), 6);
    let got: Vec<u32> = res.iter().map(|r| r.1).collect();
    assert_eq!(got, brute_force_keys(&points, &q, 10));
    let res3 = h.search_with_ef(&q, 3, 1, &l2::<2>);
    assert_eq!(res3.len(), 3);
}

#[test]
fn from_parts_keeps_a_link_to_a_missing_node() {
    // the parts are kept as they are; the graph is then not well formed
    let node = hnsw::Node { layers: vec![vec![Link { node_index: 5, distance: 0 }]] };
    let h = Hnsw::<[f32; 1]>::from_parts(2, 4, 16, vec![[1.0]], vec![node], 0, 0);
    assert_eq!(h.len(), 1);
    assert_eq!(h.storage().nodes[0].layers[0][0].node_index, 5);
    assert!(!h.is_well_formed());
}

#[test]
fn insert_all_numbers_in_order_and_small_builds_search_exactly() {
    // M0 = 8: a build of at most 9 vectors keeps layer 0 connected, so any
    // search whose beam covers the graph is exact
    let mut h = new_default::<[f32; 2]>(4);
    let points: Vec<[f32; 2]> = (0..9).map(|i| [(i * 5 % 9) as f32, (i % 3) as f32 * 0.7]).collect();
    let layers: Vec<usize> = (0..9).map(|i| i % 3).collect();
    let ids = h.insert_all(points.clone(), &layers, &l2::<2>);
    assert_eq!(ids, (0..9).collect::<Vec<_>>());
    assert_eq!(h.storage().data, points);
    for qi in 0..10 {
        let q = [qi as f32 * 0.8, (qi % 2) as f32];
        for k in [1usize, 4, 9, 12] {
            let got: Vec<u32> = h.search_with_ef(&q, k, 1, &l2::<2>).iter().map(|r| r.1).collect();
            if k >= 9 {
                assert_eq!(got, brute_force_keys(&points, &q, k));
            } else {
                assert_eq!(got.len(), k);
            }
            let got: Vec<u32> = h.search(&q, k, &l2::<2>).iter().map(|r| r.1).collect();
            assert_eq!(got, brute_force_keys(&points, &q, k));
        }
    }
}

#[test]
fn search_descends_from_upper_layers() {
    // the entry point sits on layer 2, far from the query; the descent
    // through layers 2 and 1 must still lead layer 0 to the nearest nodes
    let mut h = new_default::<[f32; 1]>(2);
    h.insert([100.0], 2, &l2::<1>);
    h.insert([50.0], 1, &l2::<1>);
    h.insert([10.0], 1, &l2::<1>);
    h.insert([1.0], 0, &l2::<1>);
    h.insert([2.0], 0, &l2::<1>);
    h.insert([60.0], 0, &l2::<1>);
    assert_eq!(h.entry(), (0, 2));
    let res = h.search(&[0.0], 2, &l2::<1>);
    let ids: Vec<usize> = res.iter().map(|r| r.0).collect();
    assert_eq!(ids, vec![3, 4]);
    assert!(approx_eq(from_key(res[0].1), 1.0));
    assert!(approx_eq(from_key(res[1].1), 4.0));
    let narrow = h.search_with_ef(&[55.0], 1, 1, &l2::<1>);
    assert_eq!(narrow.len(), 1);
    assert!(narrow[0].0 == 1 || narrow[0].0 == 5);
}

#[test]
fn answers_agree_across_contexts_and_prefixes_in_k() {
    let h = build_line(120, 4);
    let mut reused = h.search_context();
    let mut hashed = SearchContext::one_off(8);
    for i in 0..15 {
        let q = [i as f32 * 7.3 + 0.4, 1.5];
        let fresh = h.search_with_ef(&q, 12, 12, &l2::<2>);
        let a = h.search_with_context(&q, 12, 12, &l2::<2>, &mut reused);
        let b = h.search_with_context(&q, 12, 12, &l2::<2>, &mut hashed);
        assert_eq!(a, fresh);
        assert_eq!(b, fresh);
        for k in 1..=12usize {
            let small = h.search_with_context(&q, k, 12, &l2::<2>, &mut reused);
            let n = k.min(fresh.len());
            assert_eq!(small, fresh[..n].to_vec());
        }
    }
}
