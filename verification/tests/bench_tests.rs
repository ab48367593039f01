use hnsw::bench::{
    build_ground_truth_from_i64, build_ground_truth_from_u64, build_ground_truth_from_usize, check_ground_truth_shape,
    check_loaded_index, dataset_names, plan_ground_truth, GroundTruthSource,
    default_build_repetitions, run_dimension, unsupported_quantizers, validate_config,
    BenchConfig, BenchFile, BuildMode, QuantizedConfig,
};

fn config(m: usize) -> BenchConfig {
    BenchConfig {
        m,
        m0: m * 2,
        ef_construction: 200,
        build_mode: BuildMode::Sequential,
        build_threads: None,
    }
}

/// The benchmark file
/// `dataset_path = "data/test.hdf5"`, `dimension = 128`, `top_k = 10`,
/// `warmup_queries = 1`, `ef_searches = [32]` and one graph configuration
/// `m = 16, m0 = 32, ef_construction = 128`, every other field at its default.
fn bench_file() -> BenchFile {
    BenchFile {
        dataset_path: "data/test.hdf5".to_string(),
        dimension: 128,
        top_k: 10,
        warmup_queries: 1,
        query_cycles: None,
        query_limit: None,
        base_limit: None,
        load_index_prefix: None,
        save_index_prefix: None,
        seed: None,
        base_datasets: None,
        query_datasets: None,
        ground_truth_datasets: None,
        ef_searches: vec![32],
        output_json: None,
        quantized: None,
        build_repetitions: default_build_repetitions(),
        configs: vec![BenchConfig {
            m: 16,
            m0: 32,
            ef_construction: 128,
            build_mode: BuildMode::default(),
            build_threads: None,
        }],
    }
}

#[test]
fn accepts_distinct_graph_and_search_configurations() {
    let mut bench = bench_file();
    bench.configs = vec![config(8), config(16)];
    bench.ef_searches = vec![16, 64];
    validate_config(&bench).expect("valid sweep");
}

#[test]
fn rejects_empty_or_zero_search_effort() {
    let mut bench = bench_file();
    bench.configs.clear();
    assert!(validate_config(&bench).is_err());

    bench.configs.push(config(8));
    bench.ef_searches.clear();
    assert!(validate_config(&bench).is_err());

    bench.ef_searches = vec![0];
    assert!(validate_config(&bench).is_err());

    bench.ef_searches = vec![32, 32];
    assert!(validate_config(&bench).is_err());

    bench.ef_searches = vec![32];
    bench.configs.push(config(8));
    assert!(validate_config(&bench).is_err());
}

#[test]
fn defaults_to_sequential_construction() {
    let config = bench_file();
    assert_eq!(config.build_repetitions, 1);
    assert_eq!(config.configs[0].build_mode, BuildMode::Sequential);
    assert_eq!(config.configs[0].build_threads, None);
}

#[test]
fn accepts_parallel_build_configurations() {
    let mut config = bench_file();
    let mut dynamic = config.configs[0];
    dynamic.build_mode = BuildMode::Dynamic;
    dynamic.build_threads = Some(2);
    let mut batched = dynamic;
    batched.build_mode = BuildMode::Batched;
    config.configs = vec![dynamic, batched];
    config.build_repetitions = 3;

    validate_config(&config).expect("valid build sweep");
    assert_eq!(config.configs[0].build_mode, BuildMode::Dynamic);
    assert_eq!(config.configs[1].build_mode, BuildMode::Batched);
}

#[test]
fn rejects_threads_for_sequential_construction() {
    let mut config = bench_file();
    config.configs[0].build_threads = Some(2);
    assert!(validate_config(&config).is_err());
}

#[test]
fn validation_messages_name_the_first_broken_rule() {
    let mut c = bench_file();
    c.configs.clear();
    c.ef_searches.clear();
    assert_eq!(
        validate_config(&c),
        Err("configs must contain at least one graph configuration")
    );

    let mut c = bench_file();
    c.ef_searches = vec![8, 0];
    assert_eq!(
        validate_config(&c),
        Err("ef_searches must contain at least one positive value")
    );

    let mut c = bench_file();
    c.ef_searches = vec![8, 16, 8];
    assert_eq!(validate_config(&c), Err("ef_searches must not contain duplicates"));

    let mut c = bench_file();
    c.build_repetitions = 0;
    assert_eq!(validate_config(&c), Err("build_repetitions must be greater than zero"));

    let mut c = bench_file();
    c.build_repetitions = 2;
    c.save_index_prefix = Some("out/idx".to_string());
    assert_eq!(
        validate_config(&c),
        Err("build_repetitions cannot be used when loading or saving indexes")
    );

    let mut c = bench_file();
    c.configs[0].build_mode = BuildMode::Batched;
    c.load_index_prefix = Some("in/idx".to_string());
    assert_eq!(
        validate_config(&c),
        Err("parallel build modes cannot be used when loading an index")
    );

    let mut c = bench_file();
    c.configs[0].build_mode = BuildMode::Dynamic;
    c.save_index_prefix = Some("out/idx".to_string());
    assert_eq!(
        validate_config(&c),
        Err("dynamic builds cannot be saved because their id mapping is not persisted")
    );

    let mut c = bench_file();
    let mut other = c.configs[0];
    other.build_mode = BuildMode::Batched;
    c.configs.push(other);
    assert_eq!(validate_config(&c), Ok(()));
    c.save_index_prefix = Some("out/idx".to_string());
    assert_eq!(validate_config(&c), Err("configs must not write to the same index path"));

    let mut c = bench_file();
    c.configs.push(config(4));
    c.configs.push(config(4));
    c.configs[1].build_threads = Some(3);
    assert_eq!(
        validate_config(&c),
        Err("build_threads requires a dynamic or batched build mode")
    );
}

#[test]
fn build_mode_labels() {
    assert_eq!(BuildMode::Sequential.label(), "sequential");
    assert_eq!(BuildMode::Dynamic.label(), "dynamic");
    assert_eq!(BuildMode::Batched.label(), "batched");
    assert!(!BuildMode::Sequential.is_parallel());
    assert!(BuildMode::Dynamic.is_parallel());
    assert!(BuildMode::Batched.is_parallel());
}

#[test]
fn index_path_names_the_parameters() {
    let c = BenchConfig {
        m: 16,
        m0: 32,
        ef_construction: 128,
        build_mode: BuildMode::Sequential,
        build_threads: None,
    };
    assert_eq!(c.index_path("indexes/sift", 128), "indexes/sift-dim128-m16-m032-efc128.bin");
}

#[test]
fn query_cycles_and_warmup_count() {
    let mut c = bench_file();
    assert_eq!(c.query_cycles(), 1);
    c.query_cycles = Some(0);
    assert_eq!(c.query_cycles(), 1);
    c.query_cycles = Some(7);
    assert_eq!(c.query_cycles(), 7);

    c.warmup_queries = 100;
    assert_eq!(c.warmup_count(1000), 100);
    assert_eq!(c.warmup_count(50), 49);
    assert_eq!(c.warmup_count(0), 0);
}

#[test]
fn quantizer_width_selection() {
    let mut c = bench_file();
    assert_eq!(run_dimension(128, &c), Ok(0));
    c.quantized = Some(QuantizedConfig { quantizers: 64, pq_k: 256, pq_oracle: false });
    assert_eq!(run_dimension(784, &c), Ok(64));
    c.quantized = Some(QuantizedConfig { quantizers: 128, pq_k: 256, pq_oracle: false });
    assert_eq!(run_dimension(128, &c), Ok(128));
    assert_eq!(
        run_dimension(784, &c),
        Err("unsupported quantizers 128 for 784D; supported values are 32, 64, 196".to_string())
    );
    assert_eq!(
        unsupported_quantizers(96, 8),
        "unsupported quantizers 8 for 96D; supported values are none"
    );
}

#[test]
fn dataset_names_prefer_the_configured_ones() {
    let configured = vec!["train".to_string(), "extra".to_string()];
    assert_eq!(dataset_names(Some(&configured[..]), &["base"]), vec!["train", "extra"]);
    assert_eq!(dataset_names(None, &["train", "base"]), vec!["train", "base"]);
}

#[test]
fn ground_truth_rows_keep_the_first_k_ids() {
    let raw: Vec<usize> = (0..12).collect();
    let gt = build_ground_truth_from_usize(raw, "neighbors", 4, 3, 2).unwrap();
    assert_eq!(gt, vec![vec![0, 1], vec![4, 5], vec![8, 9]]);

    let err = build_ground_truth_from_usize(vec![1, 2, 3], "neighbors", 2, 2, 1).unwrap_err();
    assert_eq!(err, "dataset 'neighbors' ended early: expected at least 4 ids, got 3");

    let gt = build_ground_truth_from_u64(vec![7, 8, 9, 10], "knns", 2, 2, 1).unwrap();
    assert_eq!(gt, vec![vec![7], vec![9]]);

    let err = build_ground_truth_from_u64(vec![7, 8, 9], "knns", 2, 2, 1).unwrap_err();
    assert_eq!(err, "dataset 'knns' ended early: expected at least 4 ids, got 3");
}

#[test]
fn ground_truth_shape_is_checked_in_order() {
    assert_eq!(check_ground_truth_shape("neighbors", &vec![100, 10], 100, 10), Ok((100, 10)));
    assert_eq!(check_ground_truth_shape("neighbors", &vec![120, 10], 100, 5), Ok((100, 10)));
    assert_eq!(
        check_ground_truth_shape("neighbors", &vec![3, 4, 5], 3, 1).unwrap_err(),
        "dataset 'neighbors' must be 2-D, got shape [3, 4, 5]"
    );
    assert_eq!(
        check_ground_truth_shape("knns", &vec![], 3, 1).unwrap_err(),
        "dataset 'knns' must be 2-D, got shape []"
    );
    assert_eq!(
        check_ground_truth_shape("knns", &vec![100, 5], 100, 10).unwrap_err(),
        "dataset 'knns' has only 5 ground-truth neighbors per query, but recall@10 was requested"
    );
    assert_eq!(
        check_ground_truth_shape("knns", &vec![90, 10], 100, 10).unwrap_err(),
        "dataset 'knns' contains only 90 rows, but 100 queries were loaded"
    );
}

#[test]
fn signed_ground_truth_ids_are_converted_or_rejected() {
    let gt = build_ground_truth_from_i64(vec![7, 8, 9, 10], "knns", 2, 2, 1).unwrap();
    assert_eq!(gt, vec![vec![7], vec![9]]);
    let err = build_ground_truth_from_i64(vec![7, -3, 9, -10], "knns", 2, 2, 1).unwrap_err();
    assert_eq!(err, "dataset 'knns' contains a negative ground-truth id: -3");
    let err = build_ground_truth_from_i64(vec![7, 8, 9], "knns", 2, 2, 1).unwrap_err();
    assert_eq!(err, "dataset 'knns' ended early: expected at least 4 ids, got 3");
    let err = build_ground_truth_from_i64(vec![i64::MIN], "knns", 1, 1, 1).unwrap_err();
    assert_eq!(err, "dataset 'knns' contains a negative ground-truth id: -9223372036854775808");
}

#[test]
fn loaded_index_must_match_base_size() {
    assert_eq!(check_loaded_index("idx/a-dim4", 7, 7), Ok(()));
    assert_eq!(
        check_loaded_index("idx/a-dim4", 5, 12),
        Err(
            "loaded index 'idx/a-dim4' has 5 vectors, but benchmark base has 12 vectors; use a matching index or remove load_index_prefix"
                .to_string()
        )
    );
}

#[test]
fn ground_truth_plan_follows_base_queries_and_table() {
    assert_eq!(plan_ground_truth(0, 5, 10, true, false), Err("base dataset is empty".to_string()));
    assert_eq!(plan_ground_truth(0, 0, 10, false, true), Err("base dataset is empty".to_string()));
    assert_eq!(plan_ground_truth(3, 0, 10, true, false), Err("query dataset is empty".to_string()));
    assert_eq!(plan_ground_truth(100, 5, 10, true, false), Ok((10, GroundTruthSource::Stored)));
    assert_eq!(plan_ground_truth(4, 5, 10, true, false), Ok((4, GroundTruthSource::Stored)));
    assert_eq!(plan_ground_truth(100, 5, 10, true, true), Ok((10, GroundTruthSource::ComputedForLimit)));
    assert_eq!(plan_ground_truth(100, 5, 10, false, true), Ok((10, GroundTruthSource::Computed)));
    assert_eq!(plan_ground_truth(100, 5, 10, false, false), Ok((10, GroundTruthSource::Computed)));
}
