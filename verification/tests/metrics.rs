use graph_metrics::metrics::{
    compute_avg_shortest_path_length, compute_diameter, source_list, sweep, test_compute_diameter,
    AggregateCounters, AverageDistance, REFERENCE_DIAMETER,
};
use std::collections::HashMap;

fn graph_from(edges: &[(u32, u32)]) -> HashMap<u32, Vec<u32>> {
    let mut g: HashMap<u32, Vec<u32>> = HashMap::new();
    for &(u, v) in edges {
        g.entry(u).or_insert_with(Vec::new).push(v);
    }
    g
}

fn chain_graph(n: u32) -> HashMap<u32, Vec<u32>> {
    let edges: Vec<(u32, u32)> = (1..n).map(|v| (v - 1, v)).collect();
    graph_from(&edges)
}

fn mean(a: AverageDistance) -> f64 {
    a.total as f64 / a.pairs as f64
}

#[test]
fn chain_of_four_average() {
    // pairs: (0,1) (0,2) (0,3) (1,2) (1,3) (2,3); distances 1 2 3 1 2 1
    let a = compute_avg_shortest_path_length(&chain_graph(4)).unwrap();
    assert_eq!(a, AverageDistance { total: 10, pairs: 6 });
    assert!((mean(a) - 10.0 / 6.0).abs() < 1e-12);
}

#[test]
fn chain_pair_count_and_sum_follow_the_closed_forms() {
    for n in 2u32..=40 {
        let a = compute_avg_shortest_path_length(&chain_graph(n)).unwrap();
        let n = n as u128;
        assert_eq!(a.pairs as u128, n * (n - 1) / 2);
        assert_eq!(a.total, (n - 1) * n * (n + 1) / 6);
        assert_eq!(3 * a.total, (n + 1) * a.pairs as u128);
    }
}

#[test]
fn chain_of_five_has_mean_two() {
    let a = compute_avg_shortest_path_length(&chain_graph(5)).unwrap();
    assert_eq!(a, AverageDistance { total: 20, pairs: 10 });
    assert_eq!(mean(a), 2.0);
}

#[test]
fn chain_diameter_is_one_less_than_its_length() {
    for n in 2u32..=40 {
        assert_eq!(compute_diameter(&chain_graph(n)), Some(n - 1));
    }
}

#[test]
fn two_disjoint_chains() {
    let g = graph_from(&[(0, 1), (2, 3)]);
    let a = compute_avg_shortest_path_length(&g).unwrap();
    assert_eq!(a, AverageDistance { total: 2, pairs: 2 });
    assert_eq!(mean(a), 1.0);
    assert_eq!(compute_diameter(&g), Some(1));
}

#[test]
fn empty_graph_has_no_metrics() {
    let g: HashMap<u32, Vec<u32>> = HashMap::new();
    assert_eq!(compute_avg_shortest_path_length(&g), None);
    assert_eq!(compute_diameter(&g), None);
    assert_eq!(
        sweep(&g),
        AggregateCounters { total_distance: 0, pair_count: 0, max_distance: 0 }
    );
}

#[test]
fn keys_without_edges_have_no_metrics() {
    let mut g: HashMap<u32, Vec<u32>> = HashMap::new();
    g.insert(0, Vec::new());
    g.insert(5, Vec::new());
    assert_eq!(compute_avg_shortest_path_length(&g), None);
    assert_eq!(compute_diameter(&g), None);
}

#[test]
fn self_loops_alone_have_no_metrics() {
    let g = graph_from(&[(0, 0), (1, 1), (1, 1)]);
    assert_eq!(compute_avg_shortest_path_length(&g), None);
    assert_eq!(compute_diameter(&g), None);
}

#[test]
fn self_loop_with_one_edge() {
    let g = graph_from(&[(0, 0), (0, 1)]);
    assert_eq!(
        compute_avg_shortest_path_length(&g),
        Some(AverageDistance { total: 1, pairs: 1 })
    );
    assert_eq!(compute_diameter(&g), Some(1));
}

#[test]
fn single_edge() {
    let g = graph_from(&[(7, 9)]);
    assert_eq!(
        compute_avg_shortest_path_length(&g),
        Some(AverageDistance { total: 1, pairs: 1 })
    );
    assert_eq!(compute_diameter(&g), Some(1));
}

#[test]
fn cycle_of_three() {
    let g = graph_from(&[(0, 1), (1, 2), (2, 0)]);
    // each vertex reaches the two others at distances 1 and 2
    assert_eq!(
        compute_avg_shortest_path_length(&g),
        Some(AverageDistance { total: 9, pairs: 6 })
    );
    assert_eq!(compute_diameter(&g), Some(2));
}

#[test]
fn unreachable_pairs_are_left_out() {
    // a component of one edge beside a cycle of four; no walk joins the two
    let g = graph_from(&[(10, 11), (0, 1), (1, 2), (2, 3), (3, 0)]);
    // cycle: 4 sources, each 1 + 2 + 3 = 6 over 3 pairs; edge: 1 over 1 pair
    let a = compute_avg_shortest_path_length(&g).unwrap();
    assert_eq!(a, AverageDistance { total: 25, pairs: 13 });
    assert!((mean(a) - 25.0 / 13.0).abs() < 1e-12);
    assert_eq!(compute_diameter(&g), Some(3));
}

#[test]
fn only_keys_are_sources() {
    // 2 has no outgoing edge: it is counted as a target, never as a source
    let g = graph_from(&[(0, 2), (1, 2)]);
    assert_eq!(
        compute_avg_shortest_path_length(&g),
        Some(AverageDistance { total: 2, pairs: 2 })
    );
    assert_eq!(compute_diameter(&g), Some(1));
}

#[test]
fn repeated_edges_do_not_change_the_metrics() {
    let once = graph_from(&[(0, 1), (1, 2), (2, 0), (2, 3)]);
    let twice = graph_from(&[(0, 1), (0, 1), (1, 2), (2, 0), (2, 0), (2, 3), (1, 2)]);
    assert_eq!(sweep(&once), sweep(&twice));
}

#[test]
fn star_graph() {
    // the centre reaches five leaves; the leaves reach nothing
    let g = graph_from(&[(0, 1), (0, 2), (0, 3), (0, 4), (0, 5)]);
    assert_eq!(
        sweep(&g),
        AggregateCounters { total_distance: 5, pair_count: 5, max_distance: 1 }
    );
}

#[test]
fn sweep_counters_of_a_small_graph() {
    // 0 -> 1 -> 2 -> 3, 0 -> 2
    let g = graph_from(&[(0, 1), (1, 2), (2, 3), (0, 2)]);
    // from 0: 1, 1, 2; from 1: 1, 2; from 2: 1
    let c = sweep(&g);
    assert_eq!(c, AggregateCounters { total_distance: 8, pair_count: 6, max_distance: 2 });
    assert_eq!(c.average(), Some(AverageDistance { total: 8, pairs: 6 }));
    assert_eq!(c.diameter(), Some(2));
}

#[test]
fn counters_without_pairs_give_no_average() {
    let c = AggregateCounters { total_distance: 0, pair_count: 0, max_distance: 0 };
    assert_eq!(c.average(), None);
    assert_eq!(c.diameter(), None);
}

#[test]
fn counters_report_what_they_hold() {
    let c = AggregateCounters { total_distance: 1 << 70, pair_count: 3, max_distance: 4 };
    assert_eq!(c.average(), Some(AverageDistance { total: 1 << 70, pairs: 3 }));
    assert_eq!(c.diameter(), Some(4));
}

#[test]
fn both_metrics_agree_with_one_sweep() {
    let g = graph_from(&[(0, 1), (1, 2), (2, 0), (2, 3), (3, 4), (5, 0)]);
    let c = sweep(&g);
    assert_eq!(compute_avg_shortest_path_length(&g), c.average());
    assert_eq!(compute_diameter(&g), c.diameter());
}

#[test]
fn source_list_names_each_key_once() {
    let mut g = graph_from(&[(4, 1), (4, 2), (9, 4), (1, 1)]);
    g.insert(6, Vec::new());
    let mut sources = source_list(&g);
    sources.sort();
    assert_eq!(sources, vec![1, 4, 6, 9]);
    let empty: HashMap<u32, Vec<u32>> = HashMap::new();
    assert!(source_list(&empty).is_empty());
}

#[test]
fn reference_diameter_check() {
    assert_eq!(REFERENCE_DIAMETER, 9);
    assert!(test_compute_diameter(&chain_graph(10)));
    assert!(!test_compute_diameter(&chain_graph(9)));
    assert!(!test_compute_diameter(&chain_graph(11)));
    let empty: HashMap<u32, Vec<u32>> = HashMap::new();
    assert!(!test_compute_diameter(&empty));
}

#[test]
fn complete_graph_on_six_vertices() {
    let mut edges = Vec::new();
    for u in 0u32..6 {
        for v in 0u32..6 {
            if u != v {
                edges.push((u, v));
            }
        }
    }
    let g = graph_from(&edges);
    assert_eq!(
        sweep(&g),
        AggregateCounters { total_distance: 30, pair_count: 30, max_distance: 1 }
    );
}

fn pseudo_random_graph(seed: u64, vertices: u32, edges: usize) -> Vec<(u32, u32)> {
    let mut state = seed;
    let mut next = move || {
        state = state.wrapping_mul(6364136223846793005).wrapping_add(1442695040888963407);
        (state >> 33) as u32
    };
    (0..edges).map(|_| (next() % vertices, next() % vertices)).collect()
}

// all-pairs distances by repeated relaxation, for comparison
fn all_pairs(edges: &[(u32, u32)], vertices: u32) -> Vec<Vec<Option<u32>>> {
    let n = vertices as usize;
    let mut d: Vec<Vec<Option<u32>>> = vec![vec![None; n]; n];
    for v in 0..n {
        d[v][v] = Some(0);
    }
    for &(u, v) in edges {
        if u != v {
            d[u as usize][v as usize] = Some(1);
        }
    }
    for k in 0..n {
        for i in 0..n {
            for j in 0..n {
                if let (Some(a), Some(b)) = (d[i][k], d[k][j]) {
                    if d[i][j].map_or(true, |c| a + b < c) {
                        d[i][j] = Some(a + b);
                    }
                }
            }
        }
    }
    d
}

#[test]
fn sweep_agrees_with_all_pairs_distances() {
    for seed in 0u64..60 {
        let vertices = 2 + (seed % 13) as u32;
        let edges = pseudo_random_graph(seed, vertices, (seed as usize * 7) % 40);
        let g = graph_from(&edges);
        let d = all_pairs(&edges, vertices);
        let mut total: u128 = 0;
        let mut pairs: u64 = 0;
        let mut far: u32 = 0;
        for s in 0..vertices {
            if !g.contains_key(&s) {
                continue;
            }
            let dist = graph_metrics::bfs::bfs(&g, s);
            for v in 0..vertices {
                assert_eq!(dist.get(&v).copied(), d[s as usize][v as usize], "seed {seed}");
                if let Some(x) = d[s as usize][v as usize] {
                    if v != s {
                        total += x as u128;
                        pairs += 1;
                    }
                    far = far.max(x);
                }
            }
        }
        let c = sweep(&g);
        assert_eq!(
            c,
            AggregateCounters { total_distance: total, pair_count: pairs, max_distance: far },
            "seed {seed}"
        );
    }
}

#[test]
fn mean_lies_between_one_and_the_diameter() {
    for seed in 100u64..160 {
        let vertices = 2 + (seed % 11) as u32;
        let edges = pseudo_random_graph(seed, vertices, (seed as usize * 5) % 30);
        let g = graph_from(&edges);
        let c = sweep(&g);
        assert!(c.pair_count as u128 <= c.total_distance);
        assert!(c.total_distance <= c.max_distance as u128 * c.pair_count as u128);
        // the two metrics are defined for the same graphs
        assert_eq!(c.average().is_some(), c.diameter().is_some());
        assert_eq!(
            compute_avg_shortest_path_length(&g).is_some(),
            compute_diameter(&g).is_some()
        );
    }
}
