use osmgraphing::builder::GraphBuilder;
use osmgraphing::dijkstra::{Dijkstra, Path, QueryError};
use osmgraphing::explorating::ConvexHullExplorator;
use osmgraphing::flatten::flatten;
use osmgraphing::graph::Graph;
use osmgraphing::metrics::Combine;

type Expected = Vec<(usize, usize, Option<(u128, Vec<Vec<usize>>)>)>;

fn build(ids: &[u64], edges: &[(u64, u64, u32)]) -> Graph {
    let mut b = GraphBuilder::new(vec![Combine::Sum], 0);
    for &id in ids {
        b.add_node(id, 0);
    }
    for &(s, d, w) in edges {
        b.add_edge(s, d, vec![w], None);
    }
    b.finalize().unwrap()
}

fn node_sequence(g: &Graph, p: &Path) -> Vec<usize> {
    let mut nodes = Vec::new();
    for (i, &e) in p.edges.iter().enumerate() {
        if i == 0 {
            nodes.push(g.src_idx(e));
        }
        nodes.push(g.dst_idx(e));
    }
    nodes
}

fn path_sum(g: &Graph, p: &Path) -> u128 {
    p.edges.iter().map(|&e| g.metric(e, 0) as u128).sum()
}

fn assert_correct(g: &Graph, expected: Expected) {
    let mut dijkstra = Dijkstra::new();
    let alphas = vec![1u32];
    for (src, dst, want) in expected {
        let got = dijkstra.compute_best_path(g, &alphas, src, dst);
        match (got, want) {
            (None, None) => {}
            (Some(p), Some((cost, alternatives))) => {
                assert_eq!(p.cost, cost, "cost from {} to {}", src, dst);
                assert_eq!(path_sum(g, &p), p.cost);
                let nodes = node_sequence(g, &p);
                assert!(
                    alternatives.contains(&nodes),
                    "path {:?} from {} to {} is none of {:?}",
                    nodes,
                    src,
                    dst,
                    alternatives
                );
            }
            (got, want) => panic!(
                "from {} to {}: got {:?}, expected {:?}",
                src,
                dst,
                got.map(|p| p.cost),
                want.map(|w| w.0)
            ),
        }
    }
}

fn bait() -> Graph {
    // ll 0, bb 1, rr 2, tr 3, tl 4
    let undirected = [(0, 1, 5), (1, 2, 5), (0, 4, 3), (4, 3, 3), (3, 2, 3)];
    let mut edges = Vec::new();
    for &(a, b, w) in undirected.iter() {
        edges.push((a, b, w));
        edges.push((b, a, w));
    }
    build(&[0, 1, 2, 3, 4], &edges)
}

fn expected_paths_bait() -> Expected {
    let (ll, bb, rr, tr, tl) = (0, 1, 2, 3, 4);
    vec![
        (ll, ll, Some((0, vec![vec![]]))),
        (ll, bb, Some((5, vec![vec![ll, bb]]))),
        (ll, rr, Some((9, vec![vec![ll, tl, tr, rr]]))),
        (ll, tr, Some((6, vec![vec![ll, tl, tr]]))),
        (ll, tl, Some((3, vec![vec![ll, tl]]))),
        (bb, ll, Some((5, vec![vec![bb, ll]]))),
        (bb, bb, Some((0, vec![vec![]]))),
        (bb, rr, Some((5, vec![vec![bb, rr]]))),
        (bb, tr, Some((8, vec![vec![bb, rr, tr]]))),
        (bb, tl, Some((8, vec![vec![bb, ll, tl]]))),
        (rr, ll, Some((9, vec![vec![rr, tr, tl, ll]]))),
        (rr, bb, Some((5, vec![vec![rr, bb]]))),
        (rr, rr, Some((0, vec![vec![]]))),
        (rr, tr, Some((3, vec![vec![rr, tr]]))),
        (rr, tl, Some((6, vec![vec![rr, tr, tl]]))),
        (tr, ll, Some((6, vec![vec![tr, tl, ll]]))),
        (tr, bb, Some((8, vec![vec![tr, rr, bb]]))),
        (tr, rr, Some((3, vec![vec![tr, rr]]))),
        (tr, tr, Some((0, vec![vec![]]))),
        (tr, tl, Some((3, vec![vec![tr, tl]]))),
        (tl, ll, Some((3, vec![vec![tl, ll]]))),
        (tl, bb, Some((8, vec![vec![tl, ll, bb]]))),
        (tl, rr, Some((6, vec![vec![tl, tr, rr]]))),
        (tl, tr, Some((3, vec![vec![tl, tr]]))),
        (tl, tl, Some((0, vec![vec![]]))),
    ]
}

fn small() -> Graph {
    // a 0, b 1, c 2, d 3, e 4, f 5, g 6, h 7
    let edges = [
        (1, 0, 1),
        (1, 2, 1),
        (2, 0, 1),
        (2, 1, 1),
        (3, 1, 1),
        (3, 4, 2),
        (3, 7, 1),
        (4, 3, 2),
        (4, 5, 1),
        (5, 4, 1),
        (5, 7, 1),
        (6, 4, 1),
        (6, 5, 1),
        (7, 3, 1),
        (7, 5, 1),
    ];
    build(&[0, 1, 2, 3, 4, 5, 6, 7], &edges)
}

fn expected_paths_small() -> Expected {
    let (a, b, c, d, e, f, g, h) = (0, 1, 2, 3, 4, 5, 6, 7);
    vec![
        (a, a, Some((0, vec![vec![]]))),
        (a, b, None),
        (a, c, None),
        (a, d, None),
        (a, e, None),
        (a, f, None),
        (a, g, None),
        (a, h, None),
        (b, a, Some((1, vec![vec![b, a]]))),
        (b, b, Some((0, vec![vec![]]))),
        (b, c, Some((1, vec![vec![b, c]]))),
        (b, d, None),
        (b, e, None),
        (b, f, None),
        (b, g, None),
        (b, h, None),
        (c, a, Some((1, vec![vec![c, a]]))),
        (c, b, Some((1, vec![vec![c, b]]))),
        (c, c, Some((0, vec![vec![]]))),
        (c, d, None),
        (c, e, None),
        (c, f, None),
        (c, g, None),
        (c, h, None),
        (d, a, Some((2, vec![vec![d, b, a]]))),
        (d, b, Some((1, vec![vec![d, b]]))),
        (d, c, Some((2, vec![vec![d, b, c]]))),
        (d, d, Some((0, vec![vec![]]))),
        (d, e, Some((2, vec![vec![d, e]]))),
        (d, f, Some((2, vec![vec![d, h, f]]))),
        (d, g, None),
        (d, h, Some((1, vec![vec![d, h]]))),
        (e, a, Some((4, vec![vec![e, d, b, a]]))),
        (e, b, Some((3, vec![vec![e, d, b]]))),
        (e, c, Some((4, vec![vec![e, d, b, c]]))),
        (e, d, Some((2, vec![vec![e, d]]))),
        (e, e, Some((0, vec![vec![]]))),
        (e, f, Some((1, vec![vec![e, f]]))),
        (e, g, None),
        (e, h, Some((2, vec![vec![e, f, h]]))),
        (f, a, Some((4, vec![vec![f, h, d, b, a]]))),
        (f, b, Some((3, vec![vec![f, h, d, b]]))),
        (f, c, Some((4, vec![vec![f, h, d, b, c]]))),
        (f, d, Some((2, vec![vec![f, h, d]]))),
        (f, e, Some((1, vec![vec![f, e]]))),
        (f, f, Some((0, vec![vec![]]))),
        (f, g, None),
        (f, h, Some((1, vec![vec![f, h]]))),
        (g, a, Some((5, vec![vec![g, e, d, b, a]]))),
        (g, b, Some((4, vec![vec![g, e, d, b], vec![g, f, h, d, b]]))),
        (g, c, Some((5, vec![vec![g, e, d, b, c]]))),
        (g, d, Some((3, vec![vec![g, e, d], vec![g, f, d]]))),
        (g, e, Some((1, vec![vec![g, e]]))),
        (g, f, Some((1, vec![vec![g, f]]))),
        (g, g, Some((0, vec![vec![]]))),
        (g, h, Some((2, vec![vec![g, f, h]]))),
        (h, a, Some((3, vec![vec![h, d, b, a]]))),
        (h, b, Some((2, vec![vec![h, d, b]]))),
        (h, c, Some((3, vec![vec![h, d, b, c]]))),
        (h, d, Some((1, vec![vec![h, d]]))),
        (h, e, Some((2, vec![vec![h, f, e]]))),
        (h, f, Some((1, vec![vec![h, f]]))),
        (h, g, None),
        (h, h, Some((0, vec![vec![]]))),
    ]
}

fn simple_stuttgart() -> Graph {
    let (opp, bac, wai, end, dea, stu) = (
        26_033_921u64,
        26_160_028u64,
        252_787_940u64,
        298_249_467u64,
        1_621_605_361u64,
        2_933_335_353u64,
    );
    let edges = [
        (opp, bac, 8_000),
        (bac, opp, 8_000),
        (bac, wai, 23_000),
        (wai, bac, 23_000),
        (bac, end, 22_000),
        (end, bac, 22_000),
        (bac, dea, 1_069),
        (wai, end, 8_000),
        (end, wai, 8_000),
        (wai, stu, 17_000),
        (stu, wai, 17_000),
        (end, stu, 21_000),
        (stu, end, 21_000),
    ];
    build(&[opp, bac, wai, end, dea, stu], &edges)
}

fn expected_paths_simple_stuttgart() -> Expected {
    let (opp, bac, wai, end, dea, stu) = (0, 1, 2, 3, 4, 5);
    vec![
        (opp, opp, Some((0, vec![vec![]]))),
        (opp, bac, Some((8_000, vec![vec![opp, bac]]))),
        (opp, wai, Some((31_000, vec![vec![opp, bac, wai]]))),
        (opp, end, Some((30_000, vec![vec![opp, bac, end]]))),
        (opp, dea, Some((9_069, vec![vec![opp, bac, dea]]))),
        (opp, stu, Some((48_000, vec![vec![opp, bac, wai, stu]]))),
        (bac, opp, Some((8_000, vec![vec![bac, opp]]))),
        (bac, bac, Some((0, vec![vec![]]))),
        (bac, wai, Some((23_000, vec![vec![bac, wai]]))),
        (bac, end, Some((22_000, vec![vec![bac, end]]))),
        (bac, dea, Some((1_069, vec![vec![bac, dea]]))),
        (bac, stu, Some((40_000, vec![vec![bac, wai, stu]]))),
        (wai, opp, Some((31_000, vec![vec![wai, bac, opp]]))),
        (wai, bac, Some((23_000, vec![vec![wai, bac]]))),
        (wai, wai, Some((0, vec![vec![]]))),
        (wai, end, Some((8_000, vec![vec![wai, end]]))),
        (wai, dea, Some((24_069, vec![vec![wai, bac, dea]]))),
        (wai, stu, Some((17_000, vec![vec![wai, stu]]))),
        (end, opp, Some((30_000, vec![vec![end, bac, opp]]))),
        (end, bac, Some((22_000, vec![vec![end, bac]]))),
        (end, wai, Some((8_000, vec![vec![end, wai]]))),
        (end, end, Some((0, vec![vec![]]))),
        (end, dea, Some((23_069, vec![vec![end, bac, dea]]))),
        (end, stu, Some((21_000, vec![vec![end, stu]]))),
        (dea, opp, None),
        (dea, bac, None),
        (dea, wai, None),
        (dea, end, None),
        (dea, dea, Some((0, vec![vec![]]))),
        (dea, stu, None),
        (stu, opp, Some((48_000, vec![vec![stu, wai, bac, opp]]))),
        (stu, bac, Some((40_000, vec![vec![stu, wai, bac]]))),
        (stu, wai, Some((17_000, vec![vec![stu, wai]]))),
        (stu, end, Some((21_000, vec![vec![stu, end]]))),
        (stu, dea, Some((41_069, vec![vec![stu, wai, bac, dea]]))),
        (stu, stu, Some((0, vec![vec![]]))),
    ]
}

#[test]
fn shortest_simple_stuttgart() {
    assert_correct(&simple_stuttgart(), expected_paths_simple_stuttgart());
}

#[test]
fn shortest_small() {
    assert_correct(&small(), expected_paths_small());
}

#[test]
fn shortest_bait() {
    assert_correct(&bait(), expected_paths_bait());
}

fn best_nodes(g: &Graph, src: usize, dst: usize) -> (u128, Vec<usize>) {
    let mut dijkstra = Dijkstra::new();
    let p = dijkstra.compute_best_path(g, &vec![1], src, dst).unwrap();
    (p.cost, node_sequence(g, &p))
}

#[test]
fn bait_ll_to_rr_goes_over_the_top() {
    assert_eq!(best_nodes(&bait(), 0, 2), (9, vec![0, 4, 3, 2]));
}

#[test]
fn bait_ll_to_bb_is_direct() {
    assert_eq!(best_nodes(&bait(), 0, 1), (5, vec![0, 1]));
}

#[test]
fn bait_bb_to_tr_goes_right() {
    assert_eq!(best_nodes(&bait(), 1, 3), (8, vec![1, 2, 3]));
}

#[test]
fn bait_tl_to_bb_goes_left() {
    assert_eq!(best_nodes(&bait(), 4, 1), (8, vec![4, 0, 1]));
}

#[test]
fn same_node_costs_nothing() {
    let g = small();
    let mut dijkstra = Dijkstra::new();
    for v in 0..8 {
        let p = dijkstra.compute_best_path(&g, &vec![1], v, v).unwrap();
        assert_eq!(p.cost, 0);
        assert!(p.edges.is_empty());
    }
}

#[test]
fn cost_is_sum_of_scalarized_edges() {
    // two metrics, weights 3 and 2
    let mut b = GraphBuilder::new(vec![Combine::Sum, Combine::Sum], 0);
    for id in 0..4u64 {
        b.add_node(id, 0);
    }
    b.add_edge(0, 1, vec![4, 1], None);
    b.add_edge(1, 3, vec![4, 1], None);
    b.add_edge(0, 2, vec![1, 9], None);
    b.add_edge(2, 3, vec![1, 9], None);
    let g = b.finalize().unwrap();
    let alphas = vec![3u32, 2u32];
    let mut dijkstra = Dijkstra::new();
    let p = dijkstra.compute_best_path(&g, &alphas, 0, 3).unwrap();
    let sum: u128 = p
        .edges
        .iter()
        .map(|&e| 3 * g.metric(e, 0) as u128 + 2 * g.metric(e, 1) as u128)
        .sum();
    assert_eq!(p.cost, sum);
    assert_eq!(p.cost, 28);
    assert_eq!(node_sequence(&g, &p), vec![0, 1, 3]);
    assert_eq!(dijkstra.get_distance(&g, &alphas, 0, 2), Some(21));
}

#[test]
fn pareto_consistent_under_mixed_weights() {
    let mut b = GraphBuilder::new(vec![Combine::Sum, Combine::Sum], 0);
    for id in 0..4u64 {
        b.add_node(id, 0);
    }
    // top: short but slow, bottom: long but fast
    b.add_edge(0, 1, vec![2, 10], None);
    b.add_edge(1, 3, vec![2, 10], None);
    b.add_edge(0, 2, vec![10, 2], None);
    b.add_edge(2, 3, vec![10, 2], None);
    let g = b.finalize().unwrap();
    let mut dijkstra = Dijkstra::new();
    let cost = |p: &Path, a: &[u128]| -> u128 {
        p.edges
            .iter()
            .map(|&e| a[0] * g.metric(e, 0) as u128 + a[1] * g.metric(e, 1) as u128)
            .sum()
    };
    let p1 = dijkstra.compute_best_path(&g, &vec![1, 0], 0, 3).unwrap();
    let p2 = dijkstra.compute_best_path(&g, &vec![0, 1], 0, 3).unwrap();
    let q = dijkstra.compute_best_path(&g, &vec![1, 1], 0, 3).unwrap();
    assert!(!(cost(&q, &[1, 0]) < cost(&p1, &[1, 0]) && cost(&q, &[0, 1]) < cost(&p2, &[0, 1])));
    assert_eq!(p1.cost, 4);
    assert_eq!(p2.cost, 4);
}

#[test]
fn unreachable_destination_gives_no_path() {
    let g = small();
    let mut dijkstra = Dijkstra::new();
    assert!(dijkstra.compute_best_path(&g, &vec![1], 0, 6).is_none());
    dijkstra.compute_shortest_path(&g, &vec![1], 0).unwrap();
    assert_eq!(dijkstra.get_distance(&g, &vec![1], 0, 6), None);
    assert_eq!(dijkstra.get_distance(&g, &vec![1], 0, 0), Some(0));
}

#[test]
fn explorator_with_one_successor_finds_one_path() {
    let mut b = GraphBuilder::new(vec![Combine::Sum, Combine::Sum], 0);
    for id in 0..3u64 {
        b.add_node(id, 0);
    }
    b.add_edge(0, 1, vec![3, 4], None);
    b.add_edge(1, 2, vec![5, 6], None);
    let g = b.finalize().unwrap();
    let mut explorator = ConvexHullExplorator::new();
    let mut dijkstra = Dijkstra::new();
    let paths = explorator.fully_explorate(0, 2, &mut dijkstra, &g, &vec![1, 1]);
    assert_eq!(paths.len(), 1);
    assert_eq!(node_sequence(&g, &paths[0]), vec![0, 1, 2]);
}

#[test]
fn explorator_finds_both_extremes() {
    let mut b = GraphBuilder::new(vec![Combine::Sum, Combine::Sum], 0);
    for id in 0..4u64 {
        b.add_node(id, 0);
    }
    b.add_edge(0, 1, vec![2, 10], None);
    b.add_edge(1, 3, vec![2, 10], None);
    b.add_edge(0, 2, vec![10, 2], None);
    b.add_edge(2, 3, vec![10, 2], None);
    let g = b.finalize().unwrap();
    let mut explorator = ConvexHullExplorator::new();
    let mut dijkstra = Dijkstra::new();
    let paths = explorator.fully_explorate(0, 3, &mut dijkstra, &g, &vec![1, 1]);
    assert_eq!(paths.len(), 2);
    let mut seqs: Vec<Vec<usize>> = paths.iter().map(|p| node_sequence(&g, p)).collect();
    seqs.sort();
    assert_eq!(seqs, vec![vec![0, 1, 3], vec![0, 2, 3]]);
    assert!(explorator
        .fully_explorate(3, 0, &mut dijkstra, &g, &vec![1, 1])
        .is_empty());
}

#[test]
fn flatten_unfolds_shortcuts_in_order() {
    let mut b = GraphBuilder::new(vec![Combine::Sum], 0);
    for id in 0..4u64 {
        b.add_node(id, 0);
    }
    b.add_edge(0, 1, vec![1], None); // 0
    b.add_edge(1, 2, vec![2], None); // 1
    b.add_edge(2, 3, vec![3], None); // 2
    b.add_edge(0, 2, vec![3], Some((0, 1))); // 3
    b.add_edge(0, 3, vec![6], Some((3, 2))); // 4
    let g = b.finalize().unwrap();
    let flat = flatten(&g, &vec![4]);
    assert_eq!(flat, vec![0, 1, 2]);
    assert_eq!(flatten(&g, &flat), flat);
    assert_eq!(flatten(&g, &vec![3, 2]), vec![0, 1, 2]);
    let mut dijkstra = Dijkstra::new();
    let p = dijkstra.compute_best_path(&g, &vec![1], 0, 3).unwrap();
    assert_eq!(p.cost, 6);
    assert_eq!(flatten(&g, &p.edges), vec![0, 1, 2]);
}

#[test]
fn explorator_finds_the_middle_of_the_hull() {
    let mut b = GraphBuilder::new(vec![Combine::Sum, Combine::Sum], 0);
    for id in 0..5u64 {
        b.add_node(id, 0);
    }
    // three routes from 0 to 4: (1, 10), (4, 4) and (10, 1)
    b.add_edge(0, 1, vec![1, 10], None);
    b.add_edge(1, 4, vec![0, 0], None);
    b.add_edge(0, 2, vec![4, 4], None);
    b.add_edge(2, 4, vec![0, 0], None);
    b.add_edge(0, 3, vec![10, 1], None);
    b.add_edge(3, 4, vec![0, 0], None);
    let g = b.finalize().unwrap();
    let mut explorator = ConvexHullExplorator::new();
    let mut dijkstra = Dijkstra::new();
    let paths = explorator.fully_explorate(0, 4, &mut dijkstra, &g, &vec![1, 1]);
    let mut seqs: Vec<Vec<usize>> = paths.iter().map(|p| node_sequence(&g, p)).collect();
    seqs.sort();
    assert_eq!(seqs, vec![vec![0, 1, 4], vec![0, 2, 4], vec![0, 3, 4]]);
    // only the first metric weighted: one route
    let only_first = explorator.fully_explorate(0, 4, &mut dijkstra, &g, &vec![1, 0]);
    assert_eq!(only_first.len(), 1);
    assert_eq!(node_sequence(&g, &only_first[0]), vec![0, 1, 4]);
}

#[test]
fn checked_queries_report_errors() {
    let g = bait();
    let mut dijkstra = Dijkstra::new();
    assert_eq!(dijkstra.query(&g, &vec![1], 9, 0).err(), Some(QueryError::UnknownNode(9)));
    assert_eq!(dijkstra.query(&g, &vec![1], 0, 5).err(), Some(QueryError::UnknownNode(5)));
    assert_eq!(dijkstra.query(&g, &vec![1, 1], 0, 1).err(), Some(QueryError::WeightCount(2)));
    assert_eq!(dijkstra.query(&g, &vec![1], 0, 2).unwrap().unwrap().cost, 9);
    let s = small();
    assert!(dijkstra.query(&s, &vec![1], 0, 1).unwrap().is_none());
}

#[test]
fn distance_and_path_after_one_search() {
    let g = bait();
    let mut dijkstra = Dijkstra::new();
    dijkstra.compute_shortest_path(&g, &vec![1], 0).unwrap();
    let d = dijkstra.get_distance(&g, &vec![1], 0, 2).unwrap();
    let p = dijkstra.get_path(&g, &vec![1], 0, 2);
    assert_eq!(d, 9);
    assert_eq!(p.cost, d);
    assert_eq!(node_sequence(&g, &p), vec![0, 4, 3, 2]);
}

#[test]
fn unknown_source_is_an_error() {
    let g = bait();
    let mut dijkstra = Dijkstra::new();
    assert_eq!(dijkstra.compute_shortest_path(&g, &vec![1], 5), Err(QueryError::UnknownNode(5)));
    assert_eq!(dijkstra.compute_shortest_path(&g, &vec![1, 2], 0), Err(QueryError::WeightCount(2)));
}

#[test]
fn ties_go_to_fewest_hops_then_lowest_edge_index() {
    let mut b = GraphBuilder::new(vec![Combine::Sum], 0);
    for id in 0..4u64 {
        b.add_node(id, 0);
    }
    b.add_edge(0, 2, vec![1], None); // 0
    b.add_edge(2, 3, vec![1], None); // 1
    b.add_edge(0, 1, vec![1], None); // 2
    b.add_edge(1, 3, vec![1], None); // 3
    b.add_edge(0, 3, vec![2], None); // 4
    let g = b.finalize().unwrap();
    let mut dijkstra = Dijkstra::new();
    // three paths of cost 2; the direct edge has fewest hops
    assert_eq!(dijkstra.compute_best_path(&g, &vec![1], 0, 3).unwrap().edges, vec![4]);
    let mut b = GraphBuilder::new(vec![Combine::Sum], 0);
    for id in 0..4u64 {
        b.add_node(id, 0);
    }
    b.add_edge(0, 2, vec![1], None); // 0
    b.add_edge(2, 3, vec![1], None); // 1
    b.add_edge(0, 1, vec![1], None); // 2
    b.add_edge(1, 3, vec![1], None); // 3
    let g = b.finalize().unwrap();
    // two paths of two hops: the one ending in the lower edge index
    let first = dijkstra.compute_best_path(&g, &vec![1], 0, 3).unwrap().edges;
    assert_eq!(first, vec![0, 1]);
    // a reused search gives what a fresh one gives
    dijkstra.compute_best_path(&g, &vec![1], 3, 0);
    assert_eq!(dijkstra.compute_best_path(&g, &vec![1], 0, 3).unwrap().edges, first);
    assert_eq!(Dijkstra::new().compute_best_path(&g, &vec![1], 0, 3).unwrap().edges, first);
}
