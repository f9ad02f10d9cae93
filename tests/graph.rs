use osmgraphing::builder::{Generation, MetricOp};
use osmgraphing::builder::{BuildError, GraphBuilder};
use osmgraphing::configs::{check_config, ch_graph_dim, iteration_alphas, ConfigError, EdgeCategory, NodeCategory, ParsingConfig, SimpleId};
use osmgraphing::graph::Graph;
use osmgraphing::metrics::{approx_eq, combine_values, scalarize, Combine, METRIC_CAPACITY};
use osmgraphing::parsing::{map_file_ext, parse_u64, MapFileExt, ParseError, Parser};
use osmgraphing::units::Milliseconds;
use osmgraphing::writing::Writer;

fn line_graph() -> Graph {
    let mut b = GraphBuilder::new(vec![Combine::Sum, Combine::Max], 1);
    b.add_node(30, 1);
    b.add_node(10, 2);
    b.add_node(20, 1);
    b.add_node(40, 0);
    b.add_edge(10, 20, vec![5, 7], None); // 0
    b.add_edge(20, 30, vec![4, 9], None); // 1
    b.add_edge(10, 30, vec![10, 9], Some((0, 1))); // 2, sum within tolerance 1
    b.add_edge(30, 40, vec![2, 2], None); // 3
    b.add_edge(40, 10, vec![1, 1], None); // 4
    b.finalize().unwrap()
}

#[test]
fn nodes_are_numbered_by_level_then_id() {
    let g = line_graph();
    assert_eq!(g.node_count(), 4);
    let ids: Vec<u64> = (0..4).map(|i| g.node_id(i)).collect();
    assert_eq!(ids, vec![10, 20, 30, 40]);
    let levels: Vec<u64> = (0..4).map(|i| g.level(i)).collect();
    assert_eq!(levels, vec![2, 1, 1, 0]);
    assert_eq!(g.idx_of(30), Some(2));
    assert_eq!(g.idx_of(99), None);
    assert_eq!(g.src_idx(0), 0);
    assert_eq!(g.dst_idx(0), 1);
    assert_eq!(g.dst_idx(4), 0);
}

#[test]
fn views_enumerate_every_edge_once() {
    let g = line_graph();
    let m = g.edge_count();
    let mut fwd: Vec<usize> = (0..m).map(|j| g.fwd_edge(j)).collect();
    let mut bwd: Vec<usize> = (0..m).map(|j| g.bwd_edge(j)).collect();
    for v in 0..g.node_count() {
        for j in g.fwd_offset(v)..g.fwd_offset(v + 1) {
            assert_eq!(g.src_idx(g.fwd_edge(j)), v);
        }
        for j in g.bwd_offset(v)..g.bwd_offset(v + 1) {
            assert_eq!(g.dst_idx(g.bwd_edge(j)), v);
        }
    }
    assert_eq!(g.fwd_offset(g.node_count()), m);
    fwd.sort();
    bwd.sort();
    assert_eq!(fwd, (0..m).collect::<Vec<_>>());
    assert_eq!(fwd, bwd);
}

#[test]
fn shortcut_carries_combined_metrics() {
    let g = line_graph();
    assert!(g.is_shortcut(2));
    assert_eq!(g.shortcut(2), Some((0, 1)));
    let (a, b) = g.shortcut(2).unwrap();
    let sum = g.metric(a, 0) as u64 + g.metric(b, 0) as u64;
    assert!(approx_eq(g.metric(2, 0) as u64, sum, g.tolerance() as u64));
    assert_eq!(g.metric(2, 1) as u64, combine_values(Combine::Max, g.metric(a, 1), g.metric(b, 1)));
    assert!(!g.is_shortcut(0));
}

#[test]
fn duplicate_node_ids_are_refused() {
    let mut b = GraphBuilder::new(vec![Combine::Sum], 0);
    b.add_node(1, 0);
    b.add_node(2, 0);
    b.add_node(1, 5);
    assert_eq!(b.finalize().err(), Some(BuildError::DuplicateNodeId(1)));
}

#[test]
fn unknown_endpoints_are_refused() {
    let mut b = GraphBuilder::new(vec![Combine::Sum], 0);
    b.add_node(1, 0);
    b.add_edge(1, 7, vec![1], None);
    assert_eq!(b.finalize().err(), Some(BuildError::UnknownNode(7)));
}

#[test]
fn wrong_metric_counts_are_refused() {
    let mut b = GraphBuilder::new(vec![Combine::Sum, Combine::Sum], 0);
    b.add_node(1, 0);
    b.add_node(2, 0);
    b.add_edge(1, 2, vec![1, 1], None);
    b.add_edge(2, 1, vec![1], None);
    assert_eq!(b.finalize().err(), Some(BuildError::MetricCount(1)));
}

#[test]
fn inconsistent_shortcuts_are_refused() {
    let mut b = GraphBuilder::new(vec![Combine::Sum], 0);
    for id in 1..=3u64 {
        b.add_node(id, 0);
    }
    b.add_edge(1, 2, vec![1], None);
    b.add_edge(2, 3, vec![1], None);
    b.add_edge(1, 3, vec![5], Some((0, 1)));
    assert_eq!(b.finalize().err(), Some(BuildError::BadShortcut(2)));
    let mut b = GraphBuilder::new(vec![Combine::Sum], 0);
    for id in 1..=3u64 {
        b.add_node(id, 0);
    }
    b.add_edge(1, 2, vec![1], None);
    b.add_edge(1, 3, vec![2], Some((0, 0)));
    assert_eq!(b.finalize().err(), Some(BuildError::BadShortcut(1)));
}

#[test]
fn empty_graph_finalizes() {
    let b = GraphBuilder::new(vec![], 0);
    let g = b.finalize().unwrap();
    assert_eq!(g.node_count(), 0);
    assert_eq!(g.edge_count(), 0);
    assert_eq!(g.fwd_offset(0), 0);
}

#[test]
fn scalarize_weights_metrics() {
    assert_eq!(scalarize(&vec![2, 0, 5], &vec![7, 100, 3]), 29);
    assert_eq!(scalarize(&vec![], &vec![]), 0);
    let big = scalarize(&vec![u32::MAX; METRIC_CAPACITY], &vec![u32::MAX; METRIC_CAPACITY]);
    assert_eq!(big, (u32::MAX as u128) * (u32::MAX as u128) * METRIC_CAPACITY as u128);
    assert!(approx_eq(10, 12, 2));
    assert!(!approx_eq(10, 13, 2));
    assert_eq!(combine_values(Combine::Sum, 3, 4), 7);
    assert_eq!(combine_values(Combine::Max, 3, 4), 4);
}

fn parsing_config(map_file: &str) -> ParsingConfig {
    ParsingConfig {
        map_file: map_file.to_string(),
        node_categories: vec![
            NodeCategory::NodeIdx,
            NodeCategory::NodeId,
            NodeCategory::Latitude,
            NodeCategory::Longitude,
            NodeCategory::Height,
            NodeCategory::Level,
        ],
        edge_categories: vec![
            EdgeCategory::SrcIdx,
            EdgeCategory::DstIdx,
            EdgeCategory::Metric,
            EdgeCategory::ShortcutIdx0,
            EdgeCategory::ShortcutIdx1,
        ],
        combine: vec![Combine::Sum],
        tolerance: 0,
    }
}

const FMI: &str = "# a comment\n\n3\n3\n0 100 48.1 9.1 0 0\n1 200 48.2 9.2 0 0\n2 300 48.3 9.3 0 1\n0 1 4 -1 -1\n1 2 5 -1 -1\n0 2 9 0 1\n";

#[test]
fn check_config_reports_first_problem() {
    let cfg = parsing_config("graph.fmi");
    assert_eq!(check_config(&cfg), Ok(()));
    let mut no_id = parsing_config("graph.fmi");
    no_id.node_categories.retain(|c| *c != NodeCategory::NodeId);
    assert_eq!(check_config(&no_id), Err(ConfigError::MissingNodeId));
    let mut no_lat = parsing_config("graph.fmi");
    no_lat.node_categories.retain(|c| *c != NodeCategory::Latitude);
    assert_eq!(check_config(&no_lat), Err(ConfigError::MissingLatitude));
    let mut no_lon = parsing_config("graph.fmi");
    no_lon.node_categories.retain(|c| *c != NodeCategory::Longitude);
    assert_eq!(check_config(&no_lon), Err(ConfigError::MissingLongitude));
    let mut many = parsing_config("graph.fmi");
    many.combine = vec![Combine::Sum; METRIC_CAPACITY + 1];
    assert_eq!(check_config(&many), Err(ConfigError::TooManyMetrics(METRIC_CAPACITY + 1)));
    let mut one_sc = parsing_config("graph.fmi");
    one_sc.edge_categories.pop();
    assert_eq!(check_config(&one_sc), Err(ConfigError::ShortcutIndexCount(1)));
}

#[test]
fn parse_reads_fmi_text() {
    let cfg = parsing_config("maps/graph.ch.fmi");
    let g = Parser::parse_and_finalize(&cfg, &FMI.as_bytes().to_vec()).unwrap();
    assert_eq!(g.node_count(), 3);
    assert_eq!(g.edge_count(), 3);
    // node 300 has the highest level
    assert_eq!(g.node_id(0), 300);
    assert_eq!(g.node_id(1), 100);
    assert_eq!(g.shortcut(2), Some((0, 1)));
    assert_eq!(g.metric(2, 0), 9);
    let b = Parser::parse(&cfg, &FMI.as_bytes().to_vec()).unwrap();
    assert_eq!(b.node_count(), 3);
    assert_eq!(b.edge_count(), 3);
}

#[test]
fn parse_refuses_bad_input() {
    let cfg = parsing_config("graph.fmi");
    let bytes = |s: &str| s.as_bytes().to_vec();
    assert_eq!(Parser::parse(&cfg, &bytes("x\n")).err(), Some(ParseError::BadHeader));
    assert_eq!(Parser::parse(&cfg, &bytes("2\n0\n0 1 0 0 0 0\n")).err(), Some(ParseError::MissingLines));
    assert_eq!(Parser::parse(&cfg, &bytes("1\n0\n0 1 0 0\n")).err(), Some(ParseError::BadLine(4)));
    assert_eq!(
        Parser::parse(&cfg, &bytes("1\n1\n0 1 0 0 0 0\n0 5 1 -1 -1\n")).err(),
        Some(ParseError::BadNodeIndex(16))
    );
    let pbf = parsing_config("map.osm.pbf");
    assert_eq!(Parser::parse(&pbf, &bytes(FMI)).err(), Some(ParseError::PbfInput));
    let other = parsing_config("map.txt");
    assert_eq!(Parser::parse(&other, &bytes(FMI)).err(), Some(ParseError::UnknownExtension));
    let mut bad_cfg = parsing_config("graph.fmi");
    bad_cfg.node_categories.clear();
    assert_eq!(Parser::parse(&bad_cfg, &bytes(FMI)).err(), Some(ParseError::Config(ConfigError::MissingNodeId)));
    assert_eq!(
        Parser::parse_and_finalize(&cfg, &bytes("2\n0\n0 1 0 0 0 0\n1 1 0 0 0 0\n")).err(),
        Some(ParseError::Build(BuildError::DuplicateNodeId(1)))
    );
}

#[test]
fn numbers_and_extensions() {
    let b = "12 x 18446744073709551615 18446744073709551616".as_bytes().to_vec();
    assert_eq!(parse_u64(&b, 0, 2), Some(12));
    assert_eq!(parse_u64(&b, 3, 4), None);
    assert_eq!(parse_u64(&b, 0, 0), None);
    assert_eq!(parse_u64(&b, 5, 25), Some(u64::MAX));
    assert_eq!(parse_u64(&b, 26, 46), None);
    assert_eq!(map_file_ext("a/b.fmi"), Some(MapFileExt::Fmi));
    assert_eq!(map_file_ext("a.pbf"), Some(MapFileExt::Pbf));
    assert_eq!(map_file_ext("fmi"), None);
}

#[test]
fn writer_rows_skip_shortcuts() {
    let g = line_graph();
    let w = Writer::new();
    let rows = w.rows(&g, 0);
    let mut expected = Vec::new();
    for j in 0..g.edge_count() {
        let e = g.fwd_edge(j);
        if !g.is_shortcut(e) {
            expected.push(g.metric(e, 0));
        }
    }
    assert_eq!(rows.len(), 4);
    assert_eq!(rows, expected);
    let column: Vec<u32> = (0..g.edge_count() as u32).map(|e| 100 + e).collect();
    let picked = w.column_rows(&g, &column);
    let mut want = Vec::new();
    for j in 0..g.edge_count() {
        let e = g.fwd_edge(j);
        if !g.is_shortcut(e) {
            want.push(100 + e as u32);
        }
    }
    assert_eq!(picked, want);
    assert!(!picked.contains(&102));
}

#[test]
fn iteration_zero_ignores_new_metric() {
    assert_eq!(iteration_alphas(&vec![1, 2, 3], 0, 2), vec![1, 2, 0]);
    assert_eq!(iteration_alphas(&vec![1, 2, 3], 1, 2), vec![1, 2, 3]);
    assert_eq!(ch_graph_dim(3, 0), 2);
    assert_eq!(ch_graph_dim(3, 4), 3);
}

#[test]
fn milliseconds_arithmetic() {
    let a = Milliseconds::from(250u32);
    let b = Milliseconds::from(50u16);
    assert_eq!(a.add(b).value(), 300);
    assert_eq!(a.mul(4).value(), 1000);
    let mut c = Milliseconds::from(7u8);
    c.add_assign(Milliseconds::new(3));
    c.mul_assign(2);
    assert_eq!(c.value(), 20);
    assert_eq!(Milliseconds::zero().value(), 0);
    assert_eq!(Milliseconds::neg_inf().value(), 0);
    assert_eq!(Milliseconds::inf().value(), u32::MAX);
    assert!(Milliseconds::new(1) < Milliseconds::new(2));
}

#[test]
fn simple_id_keeps_its_text() {
    let id = SimpleId::from(String::from("Meters"));
    assert_eq!(id.as_str(), "Meters");
    assert_eq!(id.to_string(), "Meters".to_string());
}

#[test]
fn generated_metrics_follow_their_rule() {
    let build = || {
        let mut b = GraphBuilder::new(vec![Combine::Sum, Combine::Sum, Combine::Sum], 0);
        b.add_node(1, 0);
        b.add_node(2, 0);
        b.add_edge(1, 2, vec![7, 3, 0], None);
        b.add_edge(2, 1, vec![8, 9, 0], None);
        b
    };
    let mut b = build();
    assert_eq!(b.generate(Generation::Calc { op: MetricOp::Add, a: 0, b: 1, result: 2 }), Ok(()));
    let g = b.finalize().unwrap();
    assert_eq!((g.metric(0, 2), g.metric(1, 2)), (10, 17));
    let mut b = build();
    assert_eq!(b.generate(Generation::Calc { op: MetricOp::Sub, a: 0, b: 1, result: 2 }), Err(1));
    let mut b = build();
    assert_eq!(b.generate(Generation::Convert { from: 0, to: 2, numer: 1000, denom: 3 }), Ok(()));
    assert_eq!(b.generate(Generation::Copy { from: 1, to: 0 }), Ok(()));
    let g = b.finalize().unwrap();
    assert_eq!((g.metric(0, 2), g.metric(0, 0)), (2333, 3));
    let mut b = build();
    assert_eq!(b.generate(Generation::Calc { op: MetricOp::Div, a: 0, b: 2, result: 1 }), Err(0));
    let mut b = build();
    assert_eq!(b.generate(Generation::Calc { op: MetricOp::Mul, a: 0, b: 1, result: 2 }), Ok(()));
    assert_eq!(b.finalize().unwrap().metric(1, 2), 72);
}

#[test]
fn simple_id_from_str() {
    let id = SimpleId::from("Seconds");
    assert_eq!(id.as_str(), "Seconds");
}

#[test]
fn out_edges_are_ordered_by_destination() {
    let mut b = GraphBuilder::new(vec![Combine::Sum], 0);
    for id in 0..4u64 {
        b.add_node(id, 0);
    }
    b.add_edge(0, 3, vec![1], None);
    b.add_edge(0, 1, vec![1], None);
    b.add_edge(2, 1, vec![1], None);
    b.add_edge(0, 2, vec![1], None);
    b.add_edge(3, 1, vec![1], None);
    let g = b.finalize().unwrap();
    let fwd0: Vec<usize> = (g.fwd_offset(0)..g.fwd_offset(1)).map(|j| g.dst_idx(g.fwd_edge(j))).collect();
    assert_eq!(fwd0, vec![1, 2, 3]);
    let bwd1: Vec<usize> = (g.bwd_offset(1)..g.bwd_offset(2)).map(|j| g.src_idx(g.bwd_edge(j))).collect();
    assert_eq!(bwd1, vec![0, 2, 3]);
}
