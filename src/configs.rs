//! Configuration of parsing and routing, and the checks run before any work.

use crate::metrics::{Combine, METRIC_CAPACITY};
use vstd::prelude::*;

verus! {

/// An identifier from a configuration file (a metric id, for example).
#[derive(Clone, Debug)]
pub struct SimpleId(pub String);

impl SimpleId {
    /// The identifier as text.
    pub fn as_str(&self) -> (r: &str)
        ensures
            r@ == self.0@,
    {
        self.0.as_str()
    }

    /// The identifier as an owned string.
    pub fn to_string(&self) -> (r: String)
        ensures
            r@ == self.0@,
    {
        self.0.clone()
    }
}

impl From<String> for SimpleId {
    fn from(id: String) -> (r: SimpleId)
        ensures
            r.0@ == id@,
    {
        SimpleId(id)
    }
}

impl vstd::std_specs::convert::FromSpecImpl<String> for SimpleId {
    open spec fn obeys_from_spec() -> bool {
        true
    }

    open spec fn from_spec(id: String) -> SimpleId {
        SimpleId(id)
    }
}

impl From<&str> for SimpleId {
    fn from(id: &str) -> (r: SimpleId)
        ensures
            r.0@ == id@,
    {
        SimpleId(id.to_owned())
    }
}

impl vstd::std_specs::convert::FromSpecImpl<&str> for SimpleId {
    open spec fn obeys_from_spec() -> bool {
        false
    }

    open spec fn from_spec(id: &str) -> SimpleId {
        arbitrary()
    }
}

/// What a column of a node line holds.
#[derive(Clone, Copy, Debug, PartialEq, Eq, Structural)]
pub enum NodeCategory {
    NodeId,
    NodeIdx,
    Latitude,
    Longitude,
    Height,
    Level,
    Ignored,
}

/// What a column of an edge line holds.
#[derive(Clone, Copy, Debug, PartialEq, Eq, Structural)]
pub enum EdgeCategory {
    SrcId,
    SrcIdx,
    DstId,
    DstIdx,
    ShortcutIdx0,
    ShortcutIdx1,
    Metric,
    Ignored,
}

/// How a map file is read.
pub struct ParsingConfig {
    pub map_file: String,
    pub node_categories: Vec<NodeCategory>,
    pub edge_categories: Vec<EdgeCategory>,
    /// Combining rule of each edge metric, in column order.
    pub combine: Vec<Combine>,
    /// Absolute tolerance of the shortcut rule.
    pub tolerance: u32,
}

/// Why a parsing configuration is refused.
#[derive(Clone, Copy, Debug, PartialEq, Eq, Structural)]
pub enum ConfigError {
    MissingNodeId,
    MissingLatitude,
    MissingLongitude,
    /// More metrics than an edge can carry.
    TooManyMetrics(usize),
    /// A number of shortcut-index columns other than 0 or 2.
    ShortcutIndexCount(usize),
}

/// Number of shortcut-index columns among the first `k` edge categories.
pub open spec fn shortcut_columns(cats: Seq<EdgeCategory>, k: int) -> nat
    decreases k,
{
    if k <= 0 {
        0
    } else {
        shortcut_columns(cats, k - 1) + match cats[k - 1] {
            EdgeCategory::ShortcutIdx0 | EdgeCategory::ShortcutIdx1 => 1nat,
            _ => 0nat,
        }
    }
}

proof fn lemma_shortcut_columns_bound(cats: Seq<EdgeCategory>, k: int)
    requires
        0 <= k,
    ensures
        shortcut_columns(cats, k) <= k,
    decreases k,
{
    if k > 0 {
        lemma_shortcut_columns_bound(cats, k - 1);
    }
}

fn has_node_category(cats: &Vec<NodeCategory>, c: NodeCategory) -> (r: bool)
    ensures
        r == cats@.contains(c),
{
    let mut i: usize = 0;
    while i < cats.len()
        invariant
            i <= cats@.len(),
            forall|j: int| 0 <= j < i ==> cats@[j] != c,
        decreases cats.len() - i,
    {
        if cats[i] == c {
            return true;
        }
        i = i + 1;
    }
    false
}

fn count_shortcut_columns(cats: &Vec<EdgeCategory>) -> (r: usize)
    ensures
        r == shortcut_columns(cats@, cats@.len() as int),
{
    let mut n: usize = 0;
    let mut i: usize = 0;
    while i < cats.len()
        invariant
            i <= cats@.len(),
            n == shortcut_columns(cats@, i as int),
            n <= i,
        decreases cats.len() - i,
    {
        match cats[i] {
            EdgeCategory::ShortcutIdx0 | EdgeCategory::ShortcutIdx1 => {
                n = n + 1;
            },
            _ => {},
        }
        i = i + 1;
    }
    n
}

/// The first check that a parsing configuration fails, if any.
pub open spec fn config_error(cfg: &ParsingConfig) -> Option<ConfigError> {
    let sc = shortcut_columns(cfg.edge_categories@, cfg.edge_categories@.len() as int);
    if !cfg.node_categories@.contains(NodeCategory::NodeId) {
        Some(ConfigError::MissingNodeId)
    } else if !cfg.node_categories@.contains(NodeCategory::Latitude) {
        Some(ConfigError::MissingLatitude)
    } else if !cfg.node_categories@.contains(NodeCategory::Longitude) {
        Some(ConfigError::MissingLongitude)
    } else if cfg.combine@.len() > METRIC_CAPACITY {
        Some(ConfigError::TooManyMetrics(cfg.combine@.len() as usize))
    } else if sc != 0 && sc != 2 {
        Some(ConfigError::ShortcutIndexCount(sc as usize))
    } else {
        None
    }
}

/// Checks a parsing configuration: node ids, latitudes and longitudes must be
/// present, the metrics must fit in an edge, and there are 0 or 2 shortcut-index
/// columns. The first failing check is reported.
pub fn check_config(cfg: &ParsingConfig) -> (r: Result<(), ConfigError>)
    ensures
        r == match config_error(cfg) {
            None => Ok::<(), ConfigError>(()),
            Some(e) => Err(e),
        },
        r is Ok ==> cfg.combine@.len() <= METRIC_CAPACITY,
{
    if !has_node_category(&cfg.node_categories, NodeCategory::NodeId) {
        return Err(ConfigError::MissingNodeId);
    }
    if !has_node_category(&cfg.node_categories, NodeCategory::Latitude) {
        return Err(ConfigError::MissingLatitude);
    }
    if !has_node_category(&cfg.node_categories, NodeCategory::Longitude) {
        return Err(ConfigError::MissingLongitude);
    }
    if cfg.combine.len() > METRIC_CAPACITY {
        return Err(ConfigError::TooManyMetrics(cfg.combine.len()));
    }
    let count = count_shortcut_columns(&cfg.edge_categories);
    proof {
        lemma_shortcut_columns_bound(cfg.edge_categories@, cfg.edge_categories@.len() as int);
    }
    if count > 0 && count != 2 {
        return Err(ConfigError::ShortcutIndexCount(count));
    }
    Ok(())
}

/// The routing weights of an iteration of the balancing loop: in iteration 0 the
/// new metric (still all zero) gets weight 0; later iterations keep `alphas`.
pub fn iteration_alphas(alphas: &Vec<u32>, iter: usize, new_metric: usize) -> (r: Vec<u32>)
    requires
        new_metric < alphas@.len(),
    ensures
        r@ == if iter == 0 { alphas@.update(new_metric as int, 0) } else { alphas@ },
{
    let mut r = alphas.clone();
    assert(r@ == alphas@);
    if iter == 0 {
        r.set(new_metric, 0);
    }
    r
}

/// Number of metrics the contraction-hierarchy builder works on in iteration
/// `iter`: the new metric is left out in iteration 0.
pub fn ch_graph_dim(dim: usize, iter: usize) -> (r: usize)
    requires
        dim >= 1,
    ensures
        r == if iter == 0 { dim - 1 } else { dim as int },
{
    if iter == 0 {
        dim - 1
    } else {
        dim
    }
}

} // verus!
