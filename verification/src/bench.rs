//! Configuration of the benchmark runner: its validation, the choice of a
//! quantizer width, and the shaping of ground-truth neighbour tables.
use vstd::prelude::*;

use crate::text::{decimal, u64_text, usize_text};

verus! {

/// How an index is built.
#[derive(Clone, Copy, Debug, PartialEq, Eq, Structural)]
pub enum BuildMode {
    Sequential,
    Dynamic,
    Batched,
}

impl Default for BuildMode {
    fn default() -> (res: Self)
        ensures
            res == BuildMode::Sequential,
    {
        BuildMode::Sequential
    }
}

impl BuildMode {
    /// The lower-case name of the mode.
    pub fn label(self) -> (res: &'static str)
        ensures
            res@ == match self {
                BuildMode::Sequential => "sequential"@,
                BuildMode::Dynamic => "dynamic"@,
                BuildMode::Batched => "batched"@,
            },
    {
        match self {
            BuildMode::Sequential => "sequential",
            BuildMode::Dynamic => "dynamic",
            BuildMode::Batched => "batched",
        }
    }

    pub open spec fn parallel(self) -> bool {
        !(self is Sequential)
    }

    /// Every mode but the sequential one builds with several workers.
    pub fn is_parallel(self) -> (res: bool)
        ensures
            res == self.parallel(),
    {
        !matches!(self, BuildMode::Sequential)
    }
}

/// Product-quantization settings of a benchmark run.
#[derive(Clone, Copy, Debug)]
pub struct QuantizedConfig {
    pub quantizers: usize,
    pub pq_k: usize,
    pub pq_oracle: bool,
}

/// One set of graph parameters to benchmark. `build_threads`, when given,
/// is a worker count; the configuration file's reader refuses zero, and
/// nothing here depends on it.
#[derive(Clone, Copy, Debug, PartialEq, Eq, Structural)]
pub struct BenchConfig {
    pub m: usize,
    pub m0: usize,
    pub ef_construction: usize,
    pub build_mode: BuildMode,
    pub build_threads: Option<usize>,
}

/// A benchmark file: the dataset, the query settings and the graph
/// configurations to run.
pub struct BenchFile {
    pub dataset_path: String,
    pub dimension: usize,
    pub top_k: usize,
    pub warmup_queries: usize,
    pub query_cycles: Option<usize>,
    pub query_limit: Option<usize>,
    pub base_limit: Option<usize>,
    pub load_index_prefix: Option<String>,
    pub save_index_prefix: Option<String>,
    pub seed: Option<u64>,
    pub base_datasets: Option<Vec<String>>,
    pub query_datasets: Option<Vec<String>>,
    pub ground_truth_datasets: Option<Vec<String>>,
    pub ef_searches: Vec<usize>,
    pub output_json: Option<String>,
    pub quantized: Option<QuantizedConfig>,
    pub build_repetitions: usize,
    pub configs: Vec<BenchConfig>,
}

impl BenchConfig {
    /// The file that holds the index built with these parameters:
    /// `{prefix}-dim{dimension}-m{m}-m0{m0}-efc{ef_construction}.bin`.
    pub fn index_path(self, prefix: &str, dimension: usize) -> (res: String)
        ensures
            res@ == prefix@ + "-dim"@ + decimal(dimension as nat) + "-m"@ + decimal(self.m as nat)
                + "-m0"@ + decimal(self.m0 as nat) + "-efc"@ + decimal(self.ef_construction as nat)
                + ".bin"@,
    {
        let mut res = String::from_str(prefix);
        res.append("-dim");
        res.append(usize_text(dimension).as_str());
        res.append("-m");
        res.append(usize_text(self.m).as_str());
        res.append("-m0");
        res.append(usize_text(self.m0).as_str());
        res.append("-efc");
        res.append(usize_text(self.ef_construction).as_str());
        res.append(".bin");
        res
    }
}

impl BenchFile {
    /// How many passes over the queries to time: at least one, and one
    /// when none is configured.
    pub fn query_cycles(&self) -> (res: usize)
        ensures
            res == match self.query_cycles {
                Some(c) => if c > 1 {
                    c
                } else {
                    1
                },
                None => 1,
            },
    {
        let c = match self.query_cycles {
            Some(c) => c,
            None => 1,
        };
        if c > 1 {
            c
        } else {
            1
        }
    }

    /// How many of `query_count` queries warm up, untimed: the configured
    /// number, leaving at least one query to time when there is any.
    pub fn warmup_count(&self, query_count: usize) -> (res: usize)
        ensures
            res == if query_count == 0 {
                0
            } else if self.warmup_queries < query_count - 1 {
                self.warmup_queries as int
            } else {
                query_count - 1
            },
    {
        let rest = if query_count > 0 {
            query_count - 1
        } else {
            0
        };
        if self.warmup_queries < rest {
            self.warmup_queries
        } else {
            rest
        }
    }
}

/// The number of builds per configuration when none is given.
pub fn default_build_repetitions() -> (res: usize)
    ensures
        res == 1,
{
    1
}

/// Some element before position `i` of `s` equals the one at `i`.
pub open spec fn repeats_earlier<T>(s: Seq<T>, i: int) -> bool {
    exists|j: int| 0 <= j < i && s[j] == s[i]
}

/// Two configurations write to the same index file.
pub open spec fn same_index_file(a: BenchConfig, b: BenchConfig) -> bool {
    a.m == b.m && a.m0 == b.m0 && a.ef_construction == b.ef_construction
}

/// The first rule that graph configuration `i` of `c` breaks, if any.
pub open spec fn config_entry_problem(c: &BenchFile, i: int) -> Option<Seq<char>> {
    let p = c.configs@[i];
    if repeats_earlier(c.configs@, i) {
        Some("configs must not contain duplicate graph configurations"@)
    } else if !p.build_mode.parallel() && p.build_threads is Some {
        Some("build_threads requires a dynamic or batched build mode"@)
    } else if c.load_index_prefix is Some && p.build_mode.parallel() {
        Some("parallel build modes cannot be used when loading an index"@)
    } else if c.save_index_prefix is Some && p.build_mode == BuildMode::Dynamic {
        Some("dynamic builds cannot be saved because their id mapping is not persisted"@)
    } else if c.save_index_prefix is Some && exists|j: int|
        0 <= j < i && same_index_file(#[trigger] c.configs@[j], p) {
        Some("configs must not write to the same index path"@)
    } else {
        None
    }
}

/// The first problem among the graph configurations before position `upto`.
pub open spec fn first_entry_problem(c: &BenchFile, upto: int) -> Option<Seq<char>>
    decreases upto,
{
    if upto <= 0 {
        None
    } else {
        match first_entry_problem(c, upto - 1) {
            Some(e) => Some(e),
            None => config_entry_problem(c, upto - 1),
        }
    }
}

/// The first rule of a benchmark file that `c` breaks, if any, checked in
/// this order: at least one graph configuration; at least one beam width,
/// none zero, none twice; a positive repetition count, and no repetition
/// when loading or saving indexes; then each graph configuration in turn.
pub open spec fn config_problem(c: &BenchFile) -> Option<Seq<char>> {
    if c.configs@.len() == 0 {
        Some("configs must contain at least one graph configuration"@)
    } else if c.ef_searches@.len() == 0 || c.ef_searches@.contains(0) {
        Some("ef_searches must contain at least one positive value"@)
    } else if exists|i: int| 0 <= i < c.ef_searches@.len() && #[trigger] repeats_earlier(c.ef_searches@, i) {
        Some("ef_searches must not contain duplicates"@)
    } else if c.build_repetitions == 0 {
        Some("build_repetitions must be greater than zero"@)
    } else if c.build_repetitions > 1 && (c.load_index_prefix is Some || c.save_index_prefix is Some) {
        Some("build_repetitions cannot be used when loading or saving indexes"@)
    } else {
        first_entry_problem(c, c.configs@.len() as int)
    }
}

/// Once a problem is found among the first `a` configurations, it stays the
/// first one found among any longer prefix.
proof fn lemma_first_problem_stays(c: &BenchFile, a: int, b: int)
    requires
        0 <= a <= b,
        first_entry_problem(c, a) is Some,
    ensures
        first_entry_problem(c, b) == first_entry_problem(c, a),
    decreases b - a,
{
    if a < b {
        lemma_first_problem_stays(c, a, b - 1);
    }
}

/// Whether `v[..end]` holds `x`.
fn contains_before(v: &Vec<usize>, end: usize, x: usize) -> (res: bool)
    requires
        end <= v@.len(),
    ensures
        res == exists|j: int| 0 <= j < end && v@[j] == x,
{
    let mut j: usize = 0;
    while j < end
        invariant
            end <= v@.len(),
            j <= end,
            forall|k: int| 0 <= k < j ==> v@[k] != x,
        decreases end - j,
    {
        if v[j] == x {
            return true;
        }
        j = j + 1;
    }
    false
}

/// Checks a benchmark file; the error names the first rule it breaks.
pub fn validate_config(config: &BenchFile) -> (res: Result<(), &'static str>)
    ensures
        match res {
            Ok(()) => config_problem(config) is None,
            Err(e) => config_problem(config) == Some(e@),
        },
{
    if config.configs.len() == 0 {
        return Err("configs must contain at least one graph configuration");
    }
    if config.ef_searches.len() == 0 || contains_before(&config.ef_searches, config.ef_searches.len(), 0) {
        proof {
            if config.ef_searches@.len() > 0 {
                let j = choose|j: int| 0 <= j < config.ef_searches@.len() && config.ef_searches@[j] == 0;
                assert(config.ef_searches@.contains(0));
            }
        }
        return Err("ef_searches must contain at least one positive value");
    }
    assert(!config.ef_searches@.contains(0));
    let mut index: usize = 0;
    while index < config.ef_searches.len()
        invariant
            config.configs@.len() > 0,
            config.ef_searches@.len() > 0,
            !config.ef_searches@.contains(0),
            index <= config.ef_searches@.len(),
            forall|i: int| 0 <= i < index ==> !#[trigger] repeats_earlier(config.ef_searches@, i),
        decreases config.ef_searches@.len() - index,
    {
        if contains_before(&config.ef_searches, index, config.ef_searches[index]) {
            assert(repeats_earlier(config.ef_searches@, index as int));
            return Err("ef_searches must not contain duplicates");
        }
        index = index + 1;
    }
    if config.build_repetitions == 0 {
        return Err("build_repetitions must be greater than zero");
    }
    if config.build_repetitions > 1 && (config.load_index_prefix.is_some()
        || config.save_index_prefix.is_some()) {
        return Err("build_repetitions cannot be used when loading or saving indexes");
    }
    let mut index: usize = 0;
    while index < config.configs.len()
        invariant
            config.configs@.len() > 0,
            config.ef_searches@.len() > 0,
            !config.ef_searches@.contains(0),
            forall|i: int|
                0 <= i < config.ef_searches@.len() ==> !#[trigger] repeats_earlier(config.ef_searches@, i),
            config.build_repetitions > 0,
            !(config.build_repetitions > 1 && (config.load_index_prefix is Some
                || config.save_index_prefix is Some)),
            config_problem(config) == first_entry_problem(config, config.configs@.len() as int),
            index <= config.configs@.len(),
            first_entry_problem(config, index as int) is None,
        decreases config.configs@.len() - index,
    {
        let params = config.configs[index];
        let mut duplicate = false;
        let mut same_path = false;
        let mut j: usize = 0;
        while j < index
            invariant
                index < config.configs@.len(),
                params == config.configs@[index as int],
                j <= index,
                duplicate == exists|k: int| 0 <= k < j && config.configs@[k] == params,
                same_path == exists|k: int|
                    0 <= k < j && same_index_file(#[trigger] config.configs@[k], params),
            decreases index - j,
        {
            let other = config.configs[j];
            if other == params {
                duplicate = true;
            }
            if other.m == params.m && other.m0 == params.m0 && other.ef_construction
                == params.ef_construction {
                same_path = true;
            }
            proof {
                if other == params {
                    assert(config.configs@[j as int] == params);
                }
                if same_index_file(other, params) {
                    assert(same_index_file(config.configs@[j as int], params));
                }
            }
            j = j + 1;
        }
        assert(duplicate == repeats_earlier(config.configs@, index as int));
        assert(first_entry_problem(config, index + 1) == config_entry_problem(config, index as int));
        proof {
            if config_entry_problem(config, index as int) is Some {
                lemma_first_problem_stays(config, index + 1, config.configs@.len() as int);
            }
        }
        if duplicate {
            return Err("configs must not contain duplicate graph configurations");
        }
        if !params.build_mode.is_parallel() && params.build_threads.is_some() {
            return Err("build_threads requires a dynamic or batched build mode");
        }
        if config.load_index_prefix.is_some() && params.build_mode.is_parallel() {
            return Err("parallel build modes cannot be used when loading an index");
        }
        if config.save_index_prefix.is_some() && params.build_mode == BuildMode::Dynamic {
            return Err("dynamic builds cannot be saved because their id mapping is not persisted");
        }
        if config.save_index_prefix.is_some() && same_path {
            return Err("configs must not write to the same index path");
        }
        index = index + 1;
    }
    Ok(())
}

/// A problem found with graph configuration `i` makes the search over any
/// longer prefix of the configurations find a problem.
proof fn lemma_entry_problem_found(c: &BenchFile, i: int, upto: int)
    requires
        0 <= i < upto,
        config_entry_problem(c, i) is Some,
    ensures
        first_entry_problem(c, upto) is Some,
    decreases upto,
{
    if upto > i + 1 {
        lemma_entry_problem_found(c, i, upto - 1);
    }
}

/// Loading an index rules out every parallel build: a benchmark file that
/// loads an index and lists a graph configuration whose build mode is not
/// sequential (dynamic or batched) is refused.
pub proof fn law_loading_refuses_parallel_builds(c: &BenchFile, i: int)
    requires
        c.load_index_prefix is Some,
        0 <= i < c.configs@.len(),
        c.configs@[i].build_mode != BuildMode::Sequential,
    ensures
        config_problem(c) is Some,
{
    assert(config_entry_problem(c, i) is Some);
    lemma_entry_problem_found(c, i, c.configs@.len() as int);
}

/// Saving indexes rules out two graph configurations with the same `m`,
/// `m0` and `ef_construction`, whose index files would coincide: such a
/// benchmark file is refused, whatever their build modes.
pub proof fn law_saving_refuses_shared_index_files(c: &BenchFile, a: int, b: int)
    requires
        c.save_index_prefix is Some,
        0 <= a < b < c.configs@.len(),
        c.configs@[a].m == c.configs@[b].m,
        c.configs@[a].m0 == c.configs@[b].m0,
        c.configs@[a].ef_construction == c.configs@[b].ef_construction,
    ensures
        config_problem(c) is Some,
{
    assert(same_index_file(c.configs@[a], c.configs@[b]));
    assert(config_entry_problem(c, b) is Some);
    lemma_entry_problem_found(c, b, c.configs@.len() as int);
}

/// A benchmark file is accepted when it has graph configurations, positive
/// distinct beam widths and a single repetition, and its configurations are
/// sequential builds without a thread count that differ pairwise in `m`,
/// `m0` or `ef_construction` (so each writes its own index file), whether or
/// not it loads or saves indexes.
pub proof fn law_distinct_sequential_configs_accepted(c: &BenchFile)
    requires
        c.configs@.len() > 0,
        c.ef_searches@.len() > 0,
        forall|k: int| 0 <= k < c.ef_searches@.len() ==> #[trigger] c.ef_searches@[k] > 0,
        forall|a: int, b: int| 0 <= a < b < c.ef_searches@.len() ==> c.ef_searches@[a] != c.ef_searches@[b],
        c.build_repetitions == 1,
        forall|k: int|
            0 <= k < c.configs@.len() ==> (#[trigger] c.configs@[k]).build_mode == BuildMode::Sequential
                && c.configs@[k].build_threads is None,
        forall|a: int, b: int|
            0 <= a < b < c.configs@.len() ==> !(c.configs@[a].m == c.configs@[b].m && c.configs@[a].m0
                == c.configs@[b].m0 && c.configs@[a].ef_construction == c.configs@[b].ef_construction),
    ensures
        config_problem(c) is None,
{
    assert(!c.ef_searches@.contains(0)) by {
        if c.ef_searches@.contains(0) {
            let k = choose|k: int| 0 <= k < c.ef_searches@.len() && c.ef_searches@[k] == 0;
            assert(c.ef_searches@[k] > 0);
        }
    }
    assert forall|i: int| 0 <= i < c.ef_searches@.len() implies !#[trigger] repeats_earlier(c.ef_searches@, i) by {
        if repeats_earlier(c.ef_searches@, i) {
            let j = choose|j: int| 0 <= j < i && c.ef_searches@[j] == c.ef_searches@[i];
            assert(c.ef_searches@[j] != c.ef_searches@[i]);
        }
    }
    lemma_no_entry_problem(c, c.configs@.len() as int);
}

/// Under the assumptions of `law_distinct_sequential_configs_accepted`, no
/// configuration before `upto` breaks a rule.
proof fn lemma_no_entry_problem(c: &BenchFile, upto: int)
    requires
        0 <= upto <= c.configs@.len(),
        forall|k: int|
            0 <= k < c.configs@.len() ==> (#[trigger] c.configs@[k]).build_mode == BuildMode::Sequential
                && c.configs@[k].build_threads is None,
        forall|a: int, b: int|
            0 <= a < b < c.configs@.len() ==> !(c.configs@[a].m == c.configs@[b].m && c.configs@[a].m0
                == c.configs@[b].m0 && c.configs@[a].ef_construction == c.configs@[b].ef_construction),
    ensures
        first_entry_problem(c, upto) is None,
    decreases upto,
{
    if upto > 0 {
        lemma_no_entry_problem(c, upto - 1);
        let i = upto - 1;
        let p = c.configs@[i];
        assert(p.build_mode == BuildMode::Sequential && p.build_threads is None);
        if repeats_earlier(c.configs@, i) {
            let j = choose|j: int| 0 <= j < i && c.configs@[j] == c.configs@[i];
            assert(c.configs@[j] == p);
        }
        if exists|j: int| 0 <= j < i && same_index_file(#[trigger] c.configs@[j], p) {
            let j = choose|j: int| 0 <= j < i && same_index_file(#[trigger] c.configs@[j], p);
            assert(same_index_file(c.configs@[j], p));
        }
        assert(config_entry_problem(c, i) is None);
    }
}

/// The widths of product quantizer the runner is built for, by dimension.
pub open spec fn supported_quantizers(dimension: usize) -> Seq<char> {
    if dimension == 128 {
        "32, 64, 128"@
    } else if dimension == 784 {
        "32, 64, 196"@
    } else {
        "none"@
    }
}

/// The message for a quantizer width that the runner does not support.
pub fn unsupported_quantizers(dimension: usize, quantizers: usize) -> (res: String)
    ensures
        res@ == "unsupported quantizers "@ + decimal(quantizers as nat) + " for "@ + decimal(
            dimension as nat,
        ) + "D; supported values are "@ + supported_quantizers(dimension),
{
    let supported = if dimension == 128 {
        "32, 64, 128"
    } else if dimension == 784 {
        "32, 64, 196"
    } else {
        "none"
    };
    let mut res = String::from_str("unsupported quantizers ");
    res.append(usize_text(quantizers).as_str());
    res.append(" for ");
    res.append(usize_text(dimension).as_str());
    res.append("D; supported values are ");
    res.append(supported);
    res
}

/// The quantizer width to run with at `dimension`: 0 without quantization;
/// otherwise the configured width, when the runner is built for it.
pub open spec fn quantizer_width(dimension: usize, quantized: Option<QuantizedConfig>) -> Option<usize> {
    match quantized {
        None => Some(0),
        Some(q) => if q.quantizers == 32 || q.quantizers == 64 || (q.quantizers == 128
            && dimension == 128) || (q.quantizers == 196 && dimension == 784) {
            Some(q.quantizers)
        } else {
            None
        },
    }
}

/// The quantizer widths a run accepts are the ones the runner advertises
/// for its dimension: 32, 64 or 128 at 128 dimensions, 32, 64 or 196 at 784
/// dimensions; 32 and 64 at any dimension; an accepted width is run as
/// configured, and a run without quantization has width 0.
pub proof fn law_quantizer_widths(dimension: usize, q: QuantizedConfig)
    ensures
        dimension == 128 ==> (quantizer_width(dimension, Some(q)) is Some <==> (q.quantizers == 32
            || q.quantizers == 64 || q.quantizers == 128)),
        dimension == 784 ==> (quantizer_width(dimension, Some(q)) is Some <==> (q.quantizers == 32
            || q.quantizers == 64 || q.quantizers == 196)),
        q.quantizers == 32 || q.quantizers == 64 ==> quantizer_width(dimension, Some(q)) is Some,
        quantizer_width(dimension, Some(q)) is Some ==> quantizer_width(dimension, Some(q)) == Some(q.quantizers),
        quantizer_width(dimension, None) == Some(0usize),
        supported_quantizers(128) == "32, 64, 128"@,
        supported_quantizers(784) == "32, 64, 196"@,
{
}

/// Chooses the quantizer width for a run at `dimension` (0 when the run is
/// not quantized), or explains why the configured width is not supported.
pub fn run_dimension(dimension: usize, config: &BenchFile) -> (res: Result<usize, String>)
    ensures
        match res {
            Ok(q) => quantizer_width(dimension, config.quantized) == Some(q),
            Err(e) => quantizer_width(dimension, config.quantized) is None && e@
                == "unsupported quantizers "@ + decimal(config.quantized->0.quantizers as nat)
                + " for "@ + decimal(dimension as nat) + "D; supported values are "@
                + supported_quantizers(dimension),
        },
{
    match config.quantized {
        None => Ok(0),
        Some(quantized) => {
            let q = quantized.quantizers;
            if q == 32 || q == 64 || (q == 128 && dimension == 128) || (q == 196 && dimension == 784) {
                Ok(q)
            } else {
                Err(unsupported_quantizers(dimension, q))
            }
        },
    }
}

/// The dataset names to try: the configured ones, or else the defaults.
pub fn dataset_names<'a>(configured: Option<&'a [String]>, defaults: &[&'a str]) -> (res: Vec<&'a str>)
    ensures
        match configured {
            Some(names) => res@.len() == names@.len() && forall|i: int|
                0 <= i < names@.len() ==> (#[trigger] res@[i])@ == names@[i]@,
            None => res@.len() == defaults@.len() && forall|i: int|
                0 <= i < defaults@.len() ==> (#[trigger] res@[i])@ == defaults@[i]@,
        },
{
    let mut res: Vec<&'a str> = Vec::new();
    match configured {
        Some(names) => {
            let mut i: usize = 0;
            while i < names.len()
                invariant
                    i <= names@.len(),
                    res@.len() == i,
                    forall|j: int| 0 <= j < i ==> (#[trigger] res@[j])@ == names@[j]@,
                decreases names@.len() - i,
            {
                res.push(names[i].as_str());
                i = i + 1;
            }
        },
        None => {
            let mut i: usize = 0;
            while i < defaults.len()
                invariant
                    i <= defaults@.len(),
                    res@.len() == i,
                    forall|j: int| 0 <= j < i ==> (#[trigger] res@[j])@ == defaults@[j]@,
                decreases defaults@.len() - i,
            {
                res.push(defaults[i]);
                i = i + 1;
            }
        },
    }
    res
}

/// The ground truth that `rows` rows of `width` ids hold when only the first
/// `k` ids of each row are kept.
pub open spec fn ground_truth_rows(raw: Seq<usize>, width: nat, rows: nat, k: nat) -> Seq<Seq<usize>> {
    Seq::new(rows, |r: int| raw.subrange(r * width, r * width + k))
}

/// The message for a ground-truth table shorter than its shape says.
pub open spec fn ended_early_message(dataset_name: Seq<char>, expected: nat, got: nat) -> Seq<char> {
    "dataset '"@ + dataset_name + "' ended early: expected at least "@ + decimal(expected)
        + " ids, got "@ + decimal(got)
}

proof fn lemma_row_in_bounds(r: int, width: int, rows: int, k: int)
    requires
        0 <= r < rows,
        0 <= k <= width,
    ensures
        0 <= r * width,
        r * width + k <= rows * width,
{
    assert(0 <= r * width) by (nonlinear_arith)
        requires
            0 <= r,
            0 <= width,
    ;
    assert(r * width + width <= rows * width) by (nonlinear_arith)
        requires
            r + 1 <= rows,
            0 <= width,
    ;
}

/// Splits `raw` into `rows` rows of `width` ids and keeps the first `k` ids
/// of each, or reports that `raw` is shorter than `rows * width`.
pub fn build_ground_truth_from_usize(
    raw: Vec<usize>,
    dataset_name: &str,
    width: usize,
    rows: usize,
    k: usize,
) -> (res: Result<Vec<Vec<usize>>, String>)
    requires
        width > 0,
        rows * width <= usize::MAX,
        rows > 0 && raw@.len() >= rows * width ==> k <= width,
    ensures
        res is Err <==> raw@.len() < rows * width,
        res matches Err(e) ==> e@ == ended_early_message(
            dataset_name@,
            (rows * width) as nat,
            raw@.len(),
        ),
        res matches Ok(gt) ==> gt@.len() == rows && forall|r: int|
            0 <= r < rows ==> (#[trigger] gt@[r])@ == ground_truth_rows(
                raw@,
                width as nat,
                rows as nat,
                k as nat,
            )[r],
{
    let expected_len = rows * width;
    if raw.len() < expected_len {
        let mut msg = String::from_str("dataset '");
        msg.append(dataset_name);
        msg.append("' ended early: expected at least ");
        msg.append(usize_text(expected_len).as_str());
        msg.append(" ids, got ");
        msg.append(usize_text(raw.len()).as_str());
        return Err(msg);
    }
    let mut ground_truth: Vec<Vec<usize>> = Vec::with_capacity(rows);
    let mut r: usize = 0;
    while r < rows
        invariant
            width > 0,
            r <= rows,
            expected_len == rows * width,
            raw@.len() >= expected_len,
            raw@.len() <= usize::MAX,
            rows > 0 ==> k <= width,
            ground_truth@.len() == r,
            forall|i: int|
                0 <= i < r ==> (#[trigger] ground_truth@[i])@ == ground_truth_rows(
                    raw@,
                    width as nat,
                    rows as nat,
                    k as nat,
                )[i],
        decreases rows - r,
    {
        proof {
            lemma_row_in_bounds(r as int, width as int, rows as int, k as int);
        }
        let start = r * width;
        let mut row: Vec<usize> = Vec::with_capacity(k);
        let mut c: usize = 0;
        while c < k
            invariant
                c <= k,
                start + k <= raw@.len(),
                raw@.len() <= usize::MAX,
                row@ == raw@.subrange(start as int, start + c),
            decreases k - c,
        {
            row.push(raw[start + c]);
            c = c + 1;
            assert(row@ =~= raw@.subrange(start as int, start + c));
        }
        ground_truth.push(row);
        r = r + 1;
    }
    Ok(ground_truth)
}

/// The message for a ground-truth id too large for `usize`.
pub open spec fn oversized_id_message(dataset_name: Seq<char>, value: nat) -> Seq<char> {
    "dataset '"@ + dataset_name + "' contains a ground-truth id that does not fit in usize: "@
        + decimal(value)
}

/// Converts 64-bit ground-truth ids to `usize`, failing at the first one
/// that does not fit, then shapes them as `build_ground_truth_from_usize`.
pub fn build_ground_truth_from_u64(
    raw: Vec<u64>,
    dataset_name: &str,
    width: usize,
    rows: usize,
    k: usize,
) -> (res: Result<Vec<Vec<usize>>, String>)
    requires
        width > 0,
        rows * width <= usize::MAX,
        rows > 0 && raw@.len() >= rows * width ==> k <= width,
    ensures
        (exists|i: int| 0 <= i < raw@.len() && raw@[i] > usize::MAX) ==> (res matches Err(e)
            && exists|i: int|
            0 <= i < raw@.len() && raw@[i] > usize::MAX && (forall|j: int|
                0 <= j < i ==> raw@[j] <= usize::MAX) && e@ == oversized_id_message(
                dataset_name@,
                raw@[i] as nat,
            )),
        (forall|i: int| 0 <= i < raw@.len() ==> raw@[i] <= usize::MAX) ==> {
            &&& res is Err <==> raw@.len() < rows * width
            &&& res matches Err(e) ==> e@ == ended_early_message(
                dataset_name@,
                (rows * width) as nat,
                raw@.len(),
            )
            &&& res matches Ok(gt) ==> gt@.len() == rows && forall|r: int|
                0 <= r < rows ==> (#[trigger] gt@[r])@ == ground_truth_rows(
                    raw@.map_values(|v: u64| v as usize),
                    width as nat,
                    rows as nat,
                    k as nat,
                )[r]
        },
{
    let mut ids: Vec<usize> = Vec::with_capacity(raw.len());
    let mut i: usize = 0;
    while i < raw.len()
        invariant
            i <= raw@.len(),
            ids@ == raw@.subrange(0, i as int).map_values(|v: u64| v as usize),
            forall|j: int| 0 <= j < i ==> raw@[j] <= usize::MAX,
        decreases raw@.len() - i,
    {
        let value = raw[i];
        if value > usize::MAX as u64 {
            let mut msg = String::from_str("dataset '");
            msg.append(dataset_name);
            msg.append("' contains a ground-truth id that does not fit in usize: ");
            msg.append(u64_text(value).as_str());
            return Err(msg);
        }
        ids.push(value as usize);
        i = i + 1;
        assert(ids@ =~= raw@.subrange(0, i as int).map_values(|v: u64| v as usize));
    }
    assert(ids@ =~= raw@.map_values(|v: u64| v as usize));
    build_ground_truth_from_usize(ids, dataset_name, width, rows, k)
}

} // verus!

verus! {

/// The numerals of `s`, separated by `", "`.
pub open spec fn list_text(s: Seq<usize>) -> Seq<char>
    decreases s.len(),
{
    if s.len() == 0 {
        Seq::empty()
    } else if s.len() == 1 {
        decimal(s[0] as nat)
    } else {
        list_text(s.drop_last()) + ", "@ + decimal(s.last() as nat)
    }
}

/// The message for a ground-truth table that is not two-dimensional.
pub open spec fn not_2d_message(dataset_name: Seq<char>, shape: Seq<usize>) -> Seq<char> {
    "dataset '"@ + dataset_name + "' must be 2-D, got shape ["@ + list_text(shape) + "]"@
}

/// The message for a ground-truth table with fewer than `k` ids per row.
pub open spec fn few_neighbours_message(dataset_name: Seq<char>, width: nat, k: nat) -> Seq<char> {
    "dataset '"@ + dataset_name + "' has only "@ + decimal(width)
        + " ground-truth neighbors per query, but recall@"@ + decimal(k) + " was requested"@
}

/// The message for a ground-truth table with fewer rows than queries.
pub open spec fn few_rows_message(dataset_name: Seq<char>, rows: nat, query_count: nat) -> Seq<char> {
    "dataset '"@ + dataset_name + "' contains only "@ + decimal(rows) + " rows, but "@ + decimal(query_count)
        + " queries were loaded"@
}

/// Checks the shape of a ground-truth table against the queries: it must be
/// two-dimensional, hold at least `k` ids per row and at least one row per
/// query. Gives the number of rows to read and the row width.
pub fn check_ground_truth_shape(dataset_name: &str, shape: &Vec<usize>, query_count: usize, k: usize) -> (res:
    Result<(usize, usize), String>)
    ensures
        res is Ok <==> shape@.len() == 2 && shape@[1] >= k && shape@[0] >= query_count,
        res matches Ok(rw) ==> rw == (query_count, shape@[1]),
        res matches Err(e) ==> e@ == (if shape@.len() != 2 {
            not_2d_message(dataset_name@, shape@)
        } else if shape@[1] < k {
            few_neighbours_message(dataset_name@, shape@[1] as nat, k as nat)
        } else {
            few_rows_message(dataset_name@, shape@[0] as nat, query_count as nat)
        }),
{
    if shape.len() != 2 {
        let mut list = String::from_str("");
        let mut i: usize = 0;
        proof {
            reveal_strlit("");
            assert(shape@.subrange(0, 0) =~= Seq::<usize>::empty());
        }
        while i < shape.len()
            invariant
                i <= shape@.len(),
                list@ == list_text(shape@.subrange(0, i as int)),
            decreases shape@.len() - i,
        {
            let ghost before = shape@.subrange(0, i as int);
            if i > 0 {
                list.append(", ");
            }
            list.append(usize_text(shape[i]).as_str());
            proof {
                let after = shape@.subrange(0, i + 1);
                assert(after.drop_last() =~= before);
                assert(after.last() == shape@[i as int]);
                if i == 0 {
                    assert(before =~= Seq::<usize>::empty());
                    assert(list_text(before) =~= Seq::<char>::empty());
                }
            }
            i = i + 1;
        }
        assert(shape@.subrange(0, shape@.len() as int) =~= shape@);
        let mut msg = String::from_str("dataset '");
        msg.append(dataset_name);
        msg.append("' must be 2-D, got shape [");
        msg.append(list.as_str());
        msg.append("]");
        return Err(msg);
    }
    if shape[1] < k {
        let mut msg = String::from_str("dataset '");
        msg.append(dataset_name);
        msg.append("' has only ");
        msg.append(usize_text(shape[1]).as_str());
        msg.append(" ground-truth neighbors per query, but recall@");
        msg.append(usize_text(k).as_str());
        msg.append(" was requested");
        return Err(msg);
    }
    let rows = if query_count < shape[0] {
        query_count
    } else {
        shape[0]
    };
    if rows != query_count {
        let mut msg = String::from_str("dataset '");
        msg.append(dataset_name);
        msg.append("' contains only ");
        msg.append(usize_text(rows).as_str());
        msg.append(" rows, but ");
        msg.append(usize_text(query_count).as_str());
        msg.append(" queries were loaded");
        return Err(msg);
    }
    Ok((rows, shape[1]))
}

/// The numeral of a signed integer, with a leading `-` when it is negative.
pub open spec fn signed_decimal(v: int) -> Seq<char> {
    if v < 0 {
        "-"@ + decimal((-v) as nat)
    } else {
        decimal(v as nat)
    }
}

/// The message for a ground-truth id that is negative (or too large for
/// `usize`).
pub open spec fn negative_id_message(dataset_name: Seq<char>, value: int) -> Seq<char> {
    "dataset '"@ + dataset_name + "' contains a negative ground-truth id: "@ + signed_decimal(value)
}

/// Converts signed ground-truth ids to `usize`, failing at the first one
/// that is negative or does not fit, then shapes them as
/// `build_ground_truth_from_usize`.
pub fn build_ground_truth_from_i64(
    raw: Vec<i64>,
    dataset_name: &str,
    width: usize,
    rows: usize,
    k: usize,
) -> (res: Result<Vec<Vec<usize>>, String>)
    requires
        width > 0,
        rows * width <= usize::MAX,
        rows > 0 && raw@.len() >= rows * width ==> k <= width,
    ensures
        (exists|i: int| 0 <= i < raw@.len() && (raw@[i] < 0 || raw@[i] > usize::MAX)) ==> (res matches Err(e)
            && exists|i: int|
            0 <= i < raw@.len() && (raw@[i] < 0 || raw@[i] > usize::MAX) && (forall|j: int|
                0 <= j < i ==> 0 <= #[trigger] raw@[j] && raw@[j] <= usize::MAX) && e@ == negative_id_message(
                dataset_name@,
                raw@[i] as int,
            )),
        (forall|i: int| 0 <= i < raw@.len() ==> 0 <= #[trigger] raw@[i] && raw@[i] <= usize::MAX) ==> {
            &&& res is Err <==> raw@.len() < rows * width
            &&& res matches Err(e) ==> e@ == ended_early_message(
                dataset_name@,
                (rows * width) as nat,
                raw@.len(),
            )
            &&& res matches Ok(gt) ==> gt@.len() == rows && forall|r: int|
                0 <= r < rows ==> (#[trigger] gt@[r])@ == ground_truth_rows(
                    raw@.map_values(|v: i64| v as usize),
                    width as nat,
                    rows as nat,
                    k as nat,
                )[r]
        },
{
    let mut ids: Vec<usize> = Vec::with_capacity(raw.len());
    let mut i: usize = 0;
    while i < raw.len()
        invariant
            i <= raw@.len(),
            ids@ == raw@.subrange(0, i as int).map_values(|v: i64| v as usize),
            forall|j: int| 0 <= j < i ==> 0 <= #[trigger] raw@[j] && raw@[j] <= usize::MAX,
        decreases raw@.len() - i,
    {
        let value = raw[i];
        if value < 0 || value as i128 > usize::MAX as i128 {
            let mut msg = String::from_str("dataset '");
            msg.append(dataset_name);
            msg.append("' contains a negative ground-truth id: ");
            if value < 0 {
                let magnitude = (0 - (value as i128)) as u64;
                msg.append("-");
                msg.append(u64_text(magnitude).as_str());
            } else {
                msg.append(u64_text(value as u64).as_str());
            }
            return Err(msg);
        }
        ids.push(value as usize);
        i = i + 1;
        assert(ids@ =~= raw@.subrange(0, i as int).map_values(|v: i64| v as usize));
    }
    assert(ids@ =~= raw@.map_values(|v: i64| v as usize));
    build_ground_truth_from_usize(ids, dataset_name, width, rows, k)
}

} // verus!

verus! {

/// The message for a loaded index whose size differs from the base set.
pub open spec fn loaded_size_message(path: Seq<char>, index_len: nat, base_len: nat) -> Seq<char> {
    "loaded index '"@ + path + "' has "@ + decimal(index_len) + " vectors, but benchmark base has "@
        + decimal(base_len) + " vectors; use a matching index or remove load_index_prefix"@
}

/// Checks that an index loaded from `path` holds as many vectors as the
/// benchmark's base set.
pub fn check_loaded_index(path: &str, index_len: usize, base_len: usize) -> (res: Result<(), String>)
    ensures
        res is Ok <==> index_len == base_len,
        res matches Err(e) ==> e@ == loaded_size_message(path@, index_len as nat, base_len as nat),
{
    if index_len != base_len {
        let mut msg = String::from_str("loaded index '");
        msg.append(path);
        msg.append("' has ");
        msg.append(usize_text(index_len).as_str());
        msg.append(" vectors, but benchmark base has ");
        msg.append(usize_text(base_len).as_str());
        msg.append(" vectors; use a matching index or remove load_index_prefix");
        return Err(msg);
    }
    Ok(())
}

/// Where the ground truth of a benchmark comes from.
#[derive(Clone, Copy, Debug, PartialEq, Eq, Structural)]
pub enum GroundTruthSource {
    /// The dataset's own ground-truth table.
    Stored,
    /// Computed by brute force, because the base set was cut short and the
    /// stored table no longer applies.
    ComputedForLimit,
    /// Computed by brute force, because the dataset holds no table.
    Computed,
}

/// Decides, once the base vectors and queries are read, the recall depth `k`
/// (at most `top_k`, at most the base size) and where the ground truth comes
/// from; an empty base or query set is an error.
pub fn plan_ground_truth(
    base_len: usize,
    query_len: usize,
    top_k: usize,
    found_table: bool,
    base_limited: bool,
) -> (res: Result<(usize, GroundTruthSource), String>)
    ensures
        base_len == 0 ==> (res matches Err(e) && e@ == "base dataset is empty"@),
        base_len > 0 && query_len == 0 ==> (res matches Err(e) && e@ == "query dataset is empty"@),
        base_len > 0 && query_len > 0 ==> res == Ok::<(usize, GroundTruthSource), String>((
            if top_k < base_len { top_k } else { base_len },
            if !found_table {
                GroundTruthSource::Computed
            } else if base_limited {
                GroundTruthSource::ComputedForLimit
            } else {
                GroundTruthSource::Stored
            },
        )),
{
    if base_len == 0 {
        return Err(String::from_str("base dataset is empty"));
    }
    if query_len == 0 {
        return Err(String::from_str("query dataset is empty"));
    }
    let k = if top_k < base_len {
        top_k
    } else {
        base_len
    };
    let source = if !found_table {
        GroundTruthSource::Computed
    } else if base_limited {
        GroundTruthSource::ComputedForLimit
    } else {
        GroundTruthSource::Stored
    };
    Ok((k, source))
}

} // verus!
