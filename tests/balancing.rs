use osmgraphing::balancing::with_shortcut_sums;
use osmgraphing::balancing::{balance_routes, edge_column, physical_count, BalanceError};
use osmgraphing::builder::GraphBuilder;
use osmgraphing::dijkstra::Dijkstra;
use osmgraphing::explorating::ConvexHullExplorator;
use osmgraphing::metrics::Combine;
use osmgraphing::parsing::RoutePair;
use osmgraphing::heap::MinHeap;
use osmgraphing::parsing::parse_route_pairs;
use osmgraphing::balancing::{balance_route, new_metric_column, sample_picks, UpdateRule, Workloads};
use rand::SeedableRng;

#[test]
fn workload_total_is_count_times_path_length() {
    let mut w = Workloads::new(5);
    assert!(w.add_path(&vec![0, 2, 3], 4));
    assert_eq!(w.total(), 12);
    assert!(w.add_path(&vec![2], 1));
    assert_eq!(w.total(), 13);
    let counts: Vec<u64> = (0..5).map(|e| w.get(e)).collect();
    assert_eq!(counts, vec![4, 0, 5, 4, 0]);
    assert_eq!(counts.iter().sum::<u64>(), w.total());
}

#[test]
fn workload_overflow_changes_nothing() {
    let mut w = Workloads::new(2);
    assert!(w.add_path(&vec![0], u64::MAX));
    assert!(!w.add_path(&vec![1], 1));
    assert_eq!(w.get(1), 0);
    assert_eq!(w.total(), u64::MAX);
}

#[test]
fn route_units_add_their_path_lengths() {
    let paths = vec![vec![0, 1, 2], vec![3]];
    let mut w = Workloads::new(4);
    assert!(w.add_route(&paths, &vec![0, 1, 0]));
    assert_eq!(w.total(), 7);
    assert_eq!(w.get(0), 2);
    assert_eq!(w.get(3), 1);
}

#[test]
fn merged_workers_add_up() {
    let mut a = Workloads::new(3);
    let mut b = Workloads::new(3);
    assert!(a.add_path(&vec![0, 1], 2));
    assert!(b.add_path(&vec![1, 2], 3));
    assert!(a.merge(&b));
    let counts: Vec<u64> = (0..3).map(|e| a.get(e)).collect();
    assert_eq!(counts, vec![2, 5, 3]);
    assert_eq!(a.total(), 10);
    let c = Workloads::new(4);
    assert!(!a.merge(&c));
}

#[test]
fn sampled_routes_are_counted() {
    let mut rng = rand_pcg::Pcg32::seed_from_u64(42);
    let picks = sample_picks(&mut rng, 3, 50);
    assert_eq!(picks.len(), 50);
    assert!(picks.iter().all(|&p| p < 3));
    assert!(picks.iter().any(|&p| p != picks[0]));
    let found = vec![vec![0, 1], vec![2, 3, 4], vec![5]];
    let mut w = Workloads::new(6);
    assert!(balance_route(&mut w, &found, 10, &mut rng));
    let total: u64 = (0..6).map(|e| w.get(e)).sum();
    assert_eq!(total, w.total());
    assert!(w.total() >= 10 && w.total() <= 30);
    let mut empty = Workloads::new(6);
    assert!(balance_route(&mut empty, &vec![], 10, &mut rng));
    assert_eq!(empty.total(), 0);
}

#[test]
fn single_path_route_counts_exactly() {
    let mut rng = rand_pcg::Pcg32::seed_from_u64(7);
    let mut w = Workloads::new(4);
    assert!(balance_route(&mut w, &vec![vec![0, 1, 3]], 5, &mut rng));
    assert_eq!(w.total(), 15);
}

#[test]
fn update_rules() {
    let mut w = Workloads::new(3);
    assert!(w.add_path(&vec![0], 10));
    assert!(w.add_path(&vec![1], 3));
    assert_eq!(new_metric_column(&w, UpdateRule::Absolute), vec![10, 3, 0]);
    assert_eq!(new_metric_column(&w, UpdateRule::Capped(5)), vec![5, 3, 0]);
    let mut big = Workloads::new(1);
    assert!(big.add_path(&vec![0], u64::MAX));
    assert_eq!(new_metric_column(&big, UpdateRule::Absolute), vec![u32::MAX]);
}

#[test]
fn route_pairs_file_is_read() {
    let text = "# src dst count\n1 2 3\n\n4 5 6\n".as_bytes().to_vec();
    let pairs = parse_route_pairs(&text).unwrap();
    assert_eq!(pairs.len(), 2);
    assert_eq!((pairs[0].src_id, pairs[0].dst_id, pairs[0].count), (1, 2, 3));
    assert_eq!((pairs[1].src_id, pairs[1].dst_id, pairs[1].count), (4, 5, 6));
    assert_eq!(parse_route_pairs(&"1 2\n".as_bytes().to_vec()).err(), Some(0));
    assert_eq!(parse_route_pairs(&"1 2 3\n1 x 3\n".as_bytes().to_vec()).err(), Some(6));
}

#[test]
fn heap_pops_by_cost_then_node() {
    let mut h = MinHeap::new();
    for &x in [(5u128, 1usize), (3, 7), (3, 2), (9, 0), (0, 4)].iter() {
        h.push(x);
    }
    assert_eq!(h.len(), 5);
    let mut out = Vec::new();
    while h.len() > 0 {
        out.push(h.pop());
    }
    assert_eq!(out, vec![(0, 4), (3, 2), (3, 7), (5, 1), (9, 0)]);
}

#[test]
fn iteration_total_is_sum_of_drawn_path_lengths() {
    let mut b = GraphBuilder::new(vec![Combine::Sum], 0);
    for id in 10..14u64 {
        b.add_node(id, 0);
    }
    b.add_edge(10, 11, vec![1], None);
    b.add_edge(11, 12, vec![1], None);
    b.add_edge(12, 13, vec![1], None);
    let g = b.finalize().unwrap();
    let pairs = vec![
        RoutePair { src_id: 10, dst_id: 13, count: 4 },
        RoutePair { src_id: 11, dst_id: 12, count: 2 },
        RoutePair { src_id: 13, dst_id: 10, count: 5 },
    ];
    let mut rng = rand_pcg::Pcg32::seed_from_u64(1);
    let mut w = Workloads::new(physical_count(&g));
    let chosen = balance_routes(&g, &pairs, &vec![1], &mut Dijkstra::new(), &mut ConvexHullExplorator::new(), &mut rng, &mut w).unwrap();
    assert_eq!(chosen.len(), 3);
    assert_eq!(chosen.iter().map(|d| d.len()).collect::<Vec<_>>(), vec![4, 2, 0]);
    assert_eq!(w.total(), 4 * 3 + 2 * 1);
    assert_eq!(w.total() as usize, chosen.iter().flatten().map(|p| p.len()).sum::<usize>());
    assert_eq!((0..3).map(|e| w.get(e)).collect::<Vec<_>>(), vec![4, 6, 4]);
    let bad = vec![RoutePair { src_id: 10, dst_id: 99, count: 1 }];
    let mut w2 = Workloads::new(physical_count(&g));
    assert_eq!(
        balance_routes(&g, &bad, &vec![1], &mut Dijkstra::new(), &mut ConvexHullExplorator::new(), &mut rng, &mut w2).err(),
        Some(BalanceError::UnknownNode(99))
    );
}

#[test]
fn shortcuts_carry_the_sum_of_their_children() {
    let mut b = GraphBuilder::new(vec![Combine::Sum], 0);
    for id in 0..3u64 {
        b.add_node(id, 0);
    }
    b.add_edge(0, 1, vec![1], None);
    b.add_edge(1, 2, vec![1], None);
    b.add_edge(0, 2, vec![2], Some((0, 1)));
    let g = b.finalize().unwrap();
    assert_eq!(with_shortcut_sums(&g, &vec![3, 4, 0]), vec![3, 4, 7]);
    assert_eq!(with_shortcut_sums(&g, &vec![u32::MAX, 4, 0]), vec![u32::MAX, 4, u32::MAX]);
}

#[test]
fn route_pairs_accept_commas() {
    let text = "1,2,3\n4, 5 ,6\n".as_bytes().to_vec();
    let pairs = parse_route_pairs(&text).unwrap();
    assert_eq!((pairs[1].src_id, pairs[1].dst_id, pairs[1].count), (4, 5, 6));
    assert_eq!(parse_route_pairs(&"1 2 3 4\n".as_bytes().to_vec()).err(), Some(0));
    assert_eq!(parse_route_pairs(&"".as_bytes().to_vec()).unwrap().len(), 0);
}

#[test]
fn counters_cover_physical_edges_only() {
    let mut b = GraphBuilder::new(vec![Combine::Sum], 0);
    for id in 0..3u64 {
        b.add_node(id, 0);
    }
    b.add_edge(0, 1, vec![1], None);
    b.add_edge(1, 2, vec![1], None);
    b.add_edge(0, 2, vec![2], Some((0, 1)));
    let g = b.finalize().unwrap();
    assert_eq!(physical_count(&g), 2);
    let pairs = vec![RoutePair { src_id: 0, dst_id: 2, count: 3 }];
    let mut rng = rand_pcg::Pcg32::seed_from_u64(3);
    let mut w = Workloads::new(physical_count(&g));
    let chosen = balance_routes(&g, &pairs, &vec![1], &mut Dijkstra::new(), &mut ConvexHullExplorator::new(), &mut rng, &mut w).unwrap();
    assert_eq!(chosen[0], vec![vec![0, 1], vec![0, 1], vec![0, 1]]);
    assert_eq!((w.get(0), w.get(1)), (3, 3));
    assert_eq!(edge_column(&g, &vec![3, 3]), vec![3, 3, 0]);
    let before = (w.get(0), w.get(1));
    let bad = vec![RoutePair { src_id: 0, dst_id: 2, count: 1 }, RoutePair { src_id: 7, dst_id: 2, count: 1 }];
    assert_eq!(
        balance_routes(&g, &bad, &vec![1], &mut Dijkstra::new(), &mut ConvexHullExplorator::new(), &mut rng, &mut w).err(),
        Some(BalanceError::UnknownNode(7))
    );
    assert_eq!((w.get(0), w.get(1)), before);
}
