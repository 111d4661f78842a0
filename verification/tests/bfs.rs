use graph_metrics::bfs::bfs;
use std::collections::HashMap;

fn graph(edges: &[(u32, u32)]) -> HashMap<u32, Vec<u32>> {
    let mut g: HashMap<u32, Vec<u32>> = HashMap::new();
    for &(u, v) in edges {
        g.entry(u).or_insert_with(Vec::new).push(v);
    }
    g
}

fn sorted(dist: &HashMap<u32, u32>) -> Vec<(u32, u32)> {
    let mut entries: Vec<(u32, u32)> = dist.iter().map(|(&v, &d)| (v, d)).collect();
    entries.sort();
    entries
}

#[test]
fn bfs_source_is_at_distance_zero() {
    let g = graph(&[(3, 4), (4, 5), (5, 3)]);
    for s in [3u32, 4, 5, 99] {
        let dist = bfs(&g, s);
        assert_eq!(dist.get(&s), Some(&0));
    }
}

#[test]
fn bfs_chain_distances() {
    let g = graph(&[(0, 1), (1, 2), (2, 3), (3, 4)]);
    assert_eq!(sorted(&bfs(&g, 0)), vec![(0, 0), (1, 1), (2, 2), (3, 3), (4, 4)]);
    assert_eq!(sorted(&bfs(&g, 2)), vec![(2, 0), (3, 1), (4, 2)]);
    assert_eq!(sorted(&bfs(&g, 4)), vec![(4, 0)]);
}

#[test]
fn bfs_self_loop_does_not_change_distances() {
    let g = graph(&[(0, 0), (0, 1)]);
    let dist = bfs(&g, 0);
    assert_eq!(sorted(&dist), vec![(0, 0), (1, 1)]);
}

#[test]
fn bfs_source_without_outgoing_edges_reaches_itself_only() {
    let g = graph(&[(0, 1)]);
    assert_eq!(sorted(&bfs(&g, 1)), vec![(1, 0)]);
    assert_eq!(sorted(&bfs(&g, 7)), vec![(7, 0)]);
    let empty: HashMap<u32, Vec<u32>> = HashMap::new();
    assert_eq!(sorted(&bfs(&empty, 0)), vec![(0, 0)]);
}

#[test]
fn bfs_key_with_empty_neighbor_list() {
    let mut g = graph(&[(0, 1)]);
    g.insert(1, Vec::new());
    assert_eq!(sorted(&bfs(&g, 0)), vec![(0, 0), (1, 1)]);
    assert_eq!(sorted(&bfs(&g, 1)), vec![(1, 0)]);
}

#[test]
fn bfs_unreachable_vertices_are_absent() {
    let g = graph(&[(0, 1), (2, 3), (3, 0)]);
    let dist = bfs(&g, 0);
    assert_eq!(sorted(&dist), vec![(0, 0), (1, 1)]);
    assert!(!dist.contains_key(&2));
    assert!(!dist.contains_key(&3));
}

#[test]
fn bfs_follows_edges_forward_only() {
    let g = graph(&[(1, 0), (2, 1)]);
    assert_eq!(sorted(&bfs(&g, 0)), vec![(0, 0)]);
    assert_eq!(sorted(&bfs(&g, 2)), vec![(0, 2), (1, 1), (2, 0)]);
}

#[test]
fn bfs_reports_the_shorter_of_two_routes() {
    // 0 -> 1 -> 2 -> 3 -> 4 and the shortcut 0 -> 3
    let g = graph(&[(0, 1), (1, 2), (2, 3), (3, 4), (0, 3)]);
    assert_eq!(sorted(&bfs(&g, 0)), vec![(0, 0), (1, 1), (2, 2), (3, 1), (4, 2)]);
}

#[test]
fn bfs_shortcut_listed_last_still_wins() {
    // the long way round is listed first in every neighbor list
    let g = graph(&[(0, 1), (1, 2), (2, 5), (0, 5), (5, 6)]);
    let dist = bfs(&g, 0);
    assert_eq!(dist[&5], 1);
    assert_eq!(dist[&6], 2);
    assert_eq!(dist[&2], 2);
}

#[test]
fn bfs_cycle_terminates() {
    let g = graph(&[(0, 1), (1, 2), (2, 0)]);
    assert_eq!(sorted(&bfs(&g, 0)), vec![(0, 0), (1, 1), (2, 2)]);
    assert_eq!(sorted(&bfs(&g, 1)), vec![(0, 2), (1, 0), (2, 1)]);
}

#[test]
fn bfs_repeated_edges_change_nothing() {
    let once = graph(&[(0, 1), (1, 2)]);
    let thrice = graph(&[(0, 1), (0, 1), (0, 1), (1, 2), (1, 2)]);
    assert_eq!(sorted(&bfs(&once, 0)), sorted(&bfs(&thrice, 0)));
    assert_eq!(sorted(&bfs(&thrice, 0)), vec![(0, 0), (1, 1), (2, 2)]);
}

#[test]
fn bfs_every_entry_has_a_predecessor_one_step_closer() {
    let g = graph(&[(0, 1), (0, 2), (1, 3), (2, 3), (3, 4), (4, 1), (2, 5), (5, 6), (6, 0)]);
    for s in 0u32..7 {
        let dist = bfs(&g, s);
        for (&v, &d) in &dist {
            if v == s {
                assert_eq!(d, 0);
            } else {
                assert!(d > 0);
                let found = dist.iter().any(|(&u, &du)| {
                    du + 1 == d && g.get(&u).map_or(false, |ns| ns.contains(&v))
                });
                assert!(found, "no predecessor for {v} from {s}");
            }
        }
        // no edge shortens a distance
        for (&u, ns) in &g {
            if let Some(&du) = dist.get(&u) {
                for w in ns {
                    assert!(dist[w] <= du + 1);
                }
            }
        }
    }
}

#[test]
fn bfs_large_vertex_identifiers() {
    let g = graph(&[(u32::MAX, 0), (0, u32::MAX - 1)]);
    assert_eq!(sorted(&bfs(&g, u32::MAX)), vec![(0, 1), (u32::MAX - 1, 2), (u32::MAX, 0)]);
}

#[test]
fn bfs_long_chain() {
    let n: u32 = 2000;
    let edges: Vec<(u32, u32)> = (0..n - 1).map(|v| (v, v + 1)).collect();
    let g = graph(&edges);
    let dist = bfs(&g, 0);
    assert_eq!(dist.len(), n as usize);
    for v in 0..n {
        assert_eq!(dist[&v], v);
    }
    let from_middle = bfs(&g, 1500);
    assert_eq!(from_middle.len(), 500);
    assert_eq!(from_middle[&1999], 499);
}

#[test]
fn bfs_levels_of_a_tree() {
    let g = graph(&[(0, 2), (0, 1), (2, 3), (1, 4), (3, 5)]);
    assert_eq!(
        sorted(&bfs(&g, 0)),
        vec![(0, 0), (1, 1), (2, 1), (3, 2), (4, 2), (5, 3)]
    );
}

#[test]
fn bfs_lists_each_vertex_once() {
    let g = graph(&[(0, 1), (0, 1), (1, 0), (1, 1), (1, 2), (2, 0)]);
    let dist = bfs(&g, 0);
    assert_eq!(sorted(&dist), vec![(0, 0), (1, 1), (2, 2)]);
}

#[test]
fn bfs_going_by_way_of_another_vertex_is_never_shorter() {
    let g = graph(&[
        (0, 1), (1, 2), (2, 3), (3, 0), (1, 4), (4, 5), (5, 1), (6, 0), (3, 7), (7, 7), (2, 5),
    ]);
    let maps: Vec<HashMap<u32, u32>> = (0u32..8).map(|s| bfs(&g, s)).collect();
    for s in 0usize..8 {
        for u in 0u32..8 {
            for v in 0u32..8 {
                if let (Some(&a), Some(&b)) = (maps[s].get(&u), maps[u as usize].get(&v)) {
                    let direct = maps[s].get(&v).copied();
                    assert!(direct.is_some());
                    assert!(direct.unwrap() <= a + b);
                }
            }
        }
    }
}
