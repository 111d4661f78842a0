//! The two metrics of a graph: the mean shortest-path length over the
//! ordered pairs of distinct vertices joined by a walk, and the diameter.

use crate::bfs::{traverse, visited_vertices, Traversal};
use crate::graph::{
    adjacency_of, distance, lemma_distinct_vertices_bounded, lemma_source_distance, reachable,
    vertex_count,
};
use crate::sums::{lemma_sum_listed_next, lemma_sum_over_support, sum_listed, sum_over_vertices};
use std::collections::HashMap;
use vstd::prelude::*;
use vstd::std_specs::hash::spec_keys_iter;
use vstd::std_specs::iter::IteratorSpec;

verus! {

/// What the ordered pair `(s, v)` adds to the sum of distances: the distance
/// from `s` to `v` where `v` is another vertex that `s` reaches, else nothing.
pub open spec fn pair_distance(g: Map<u32, Seq<u32>>, s: u32, v: u32) -> nat {
    if v != s && reachable(g, s, v) {
        distance(g, s, v)
    } else {
        0
    }
}

/// What the ordered pair `(s, v)` adds to the number of pairs: one where `v`
/// is another vertex that `s` reaches, else nothing.
pub open spec fn pair_weight(g: Map<u32, Seq<u32>>, s: u32, v: u32) -> nat {
    if v != s && reachable(g, s, v) {
        1
    } else {
        0
    }
}

/// `pair_distance` as a quantity over the second vertex.
pub open spec fn distances_from(g: Map<u32, Seq<u32>>, s: u32) -> spec_fn(u32) -> nat {
    |v: u32| pair_distance(g, s, v)
}

/// `pair_weight` as a quantity over the second vertex.
pub open spec fn weights_from(g: Map<u32, Seq<u32>>, s: u32) -> spec_fn(u32) -> nat {
    |v: u32| pair_weight(g, s, v)
}

/// The sum of the distances from `s` to the other vertices it reaches.
pub open spec fn distance_sum_from(g: Map<u32, Seq<u32>>, s: u32) -> nat {
    sum_over_vertices(distances_from(g, s))
}

/// The number of other vertices that `s` reaches.
pub open spec fn pair_count_from(g: Map<u32, Seq<u32>>, s: u32) -> nat {
    sum_over_vertices(weights_from(g, s))
}

/// What each source adds to the sum of distances; only keys are sources.
pub open spec fn source_distance_sums(g: Map<u32, Seq<u32>>) -> spec_fn(u32) -> nat {
    |s: u32|
        if g.contains_key(s) {
            distance_sum_from(g, s)
        } else {
            0
        }
}

/// What each source adds to the number of pairs; only keys are sources.
pub open spec fn source_pair_counts(g: Map<u32, Seq<u32>>) -> spec_fn(u32) -> nat {
    |s: u32|
        if g.contains_key(s) {
            pair_count_from(g, s)
        } else {
            0
        }
}

/// The sum of the distances over all ordered pairs `(s, v)` where `s` is a
/// key and `v` another vertex that `s` reaches.
pub open spec fn total_distance(g: Map<u32, Seq<u32>>) -> nat {
    sum_over_vertices(source_distance_sums(g))
}

/// The number of ordered pairs `(s, v)` where `s` is a key and `v` another
/// vertex that `s` reaches.
pub open spec fn pair_count(g: Map<u32, Seq<u32>>) -> nat {
    sum_over_vertices(source_pair_counts(g))
}

/// The mean distance as an exact fraction, the sum of distances over the
/// number of pairs; undefined where there is no pair.
pub open spec fn average_distance(g: Map<u32, Seq<u32>>) -> Option<(nat, nat)> {
    if pair_count(g) == 0 {
        None
    } else {
        Some((total_distance(g), pair_count(g)))
    }
}

/// `d` is the greatest distance from a key to a vertex that it reaches.
pub open spec fn is_greatest_distance(g: Map<u32, Seq<u32>>, d: nat) -> bool {
    &&& exists|s: u32, v: u32|
        g.contains_key(s) && #[trigger] reachable(g, s, v) && distance(g, s, v) == d
    &&& forall|s: u32, v: u32|
        g.contains_key(s) && #[trigger] reachable(g, s, v) ==> distance(g, s, v) <= d
}

/// The greatest distance from a key to a vertex that it reaches; zero for a
/// graph without keys.
pub open spec fn greatest_distance(g: Map<u32, Seq<u32>>) -> nat {
    if exists|d: nat| is_greatest_distance(g, d) {
        choose|d: nat| is_greatest_distance(g, d)
    } else {
        0
    }
}

/// The diameter: the greatest distance, undefined where that is zero.
pub open spec fn diameter(g: Map<u32, Seq<u32>>) -> Option<nat> {
    if greatest_distance(g) == 0 {
        None
    } else {
        Some(greatest_distance(g))
    }
}

/// A distance that is greatest is the greatest distance.
pub proof fn lemma_greatest_distance_is(g: Map<u32, Seq<u32>>, d: nat)
    requires
        is_greatest_distance(g, d),
    ensures
        greatest_distance(g) == d,
{
}

/// A graph without keys has no pair, so its greatest distance is zero.
pub proof fn lemma_greatest_distance_without_keys(g: Map<u32, Seq<u32>>)
    requires
        forall|s: u32| !g.contains_key(s),
    ensures
        greatest_distance(g) == 0,
{
}

/// The mean shortest-path length as an exact fraction: `total` is the sum of
/// the distances and `pairs` the number of pairs over which it was taken.
#[derive(Clone, Copy, Debug, PartialEq, Eq)]
pub struct AverageDistance {
    pub total: u128,
    pub pairs: u64,
}

/// The counters of a sweep over all sources: the running sum of distances,
/// the number of pairs counted, and the greatest distance seen.
#[derive(Clone, Copy, Debug, PartialEq, Eq)]
pub struct AggregateCounters {
    pub total_distance: u128,
    pub pair_count: u64,
    pub max_distance: u32,
}

impl AggregateCounters {
    /// The counters hold the totals of the whole graph `g`.
    pub open spec fn summarizes(&self, g: Map<u32, Seq<u32>>) -> bool {
        &&& self.total_distance as nat == total_distance(g)
        &&& self.pair_count as nat == pair_count(g)
        &&& self.max_distance as nat == greatest_distance(g)
    }

    /// The mean distance: the sum and the count, or `None` where no pair was
    /// counted.
    pub fn average(&self) -> (r: Option<AverageDistance>)
        ensures
            r == (if self.pair_count == 0 {
                None
            } else {
                Some(AverageDistance { total: self.total_distance, pairs: self.pair_count })
            }),
    {
        if self.pair_count == 0 {
            None
        } else {
            Some(AverageDistance { total: self.total_distance, pairs: self.pair_count })
        }
    }

    /// The diameter: the greatest distance seen, or `None` where it is zero.
    pub fn diameter(&self) -> (r: Option<u32>)
        ensures
            r == (if self.max_distance == 0 {
                None
            } else {
                Some(self.max_distance)
            }),
    {
        if self.max_distance == 0 {
            None
        } else {
            Some(self.max_distance)
        }
    }
}

/// Lists the keys of `adj_list`, each once, in no particular order.
pub fn source_list(adj_list: &HashMap<u32, Vec<u32>>) -> (sources: Vec<u32>)
    ensures
        sources@.no_duplicates(),
        forall|v: u32| sources@.contains(v) <==> adj_list@.contains_key(v),
{
    let mut sources: Vec<u32> = Vec::new();
    let ghost keys: Seq<&u32> = spec_keys_iter(adj_list).remaining();
    let ghost listed: Seq<u32> = keys.unref();
    for key in iter: adj_list.keys()
        invariant
            iter.seq() == keys,
            sources@.len() == iter.index(),
            forall|i: int| 0 <= i < sources@.len() ==> sources@[i] == *iter.seq()[i],
    {
        sources.push(*key);
    }
    assert(sources@ =~= listed);
    sources
}

/// What one traversal adds to the counters: the sum of the distances from
/// its source to the other vertices reached, their number, and the greatest
/// of the distances.
fn summarize(t: &Traversal, source: u32, Ghost(g): Ghost<Map<u32, Seq<u32>>>) -> (r: (
    u64,
    u64,
    u32,
))
    requires
        t.is_traversal_of(g, source),
    ensures
        r.0 as nat == distance_sum_from(g, source),
        r.1 as nat == pair_count_from(g, source),
        r.0 <= 0xFFFF_FFFE_0000_0001,
        r.1 <= 0xFFFF_FFFF,
        exists|v: u32| #[trigger] reachable(g, source, v) && distance(g, source, v) == r.2,
        forall|v: u32| #[trigger] reachable(g, source, v) ==> distance(g, source, v) <= r.2,
{
    let ghost vs = visited_vertices(t.visits@);
    let ghost fd = distances_from(g, source);
    let ghost fw = weights_from(g, source);
    proof {
        lemma_distinct_vertices_bounded(vs);
    }
    let n = t.visits.len();
    let mut sum: u64 = 0;
    let mut count: u64 = 0;
    let mut i: usize = 0;
    while i < n
        invariant
            0 <= i <= n,
            n == t.visits@.len(),
            n == vs.len(),
            n <= vertex_count(),
            vs == visited_vertices(t.visits@),
            fd == distances_from(g, source),
            fw == weights_from(g, source),
            t.is_traversal_of(g, source),
            sum as nat == sum_listed(fd, vs.take(i as int)),
            count as nat == sum_listed(fw, vs.take(i as int)),
            i > 0 ==> count <= i - 1,
            i == 0 ==> count == 0,
            sum <= count * 0xFFFF_FFFF,
        decreases n - i,
    {
        let (v, d) = t.visits[i];
        proof {
            lemma_sum_listed_next(fd, vs, i as int);
            lemma_sum_listed_next(fw, vs, i as int);
        }
        if v != source {
            sum = sum + d as u64;
            count = count + 1;
        }
        i += 1;
    }
    let last = t.visits[n - 1];
    proof {
        assert(vs.take(n as int) =~= vs);
        assert forall|v: u32| !vs.contains(v) implies !reachable(g, source, v) by {
            if reachable(g, source, v) {
                let i = choose|i: int|
                    0 <= i < t.visits@.len() && (#[trigger] t.visits@[i]).0 == v;
                assert(vs[i] == v);
            }
        }
        lemma_sum_over_support(fd, vs);
        lemma_sum_over_support(fw, vs);
    }
    (sum, count, last.1)
}

/// Sweeps every key of `adj_list` as a source: runs a breadth-first search
/// from each and folds its distances into the counters.
pub fn sweep(adj_list: &HashMap<u32, Vec<u32>>) -> (c: AggregateCounters)
    ensures
        c.summarizes(adjacency_of(adj_list@)),
{
    let ghost g = adjacency_of(adj_list@);
    let ghost fd = source_distance_sums(g);
    let ghost fw = source_pair_counts(g);
    let sources = source_list(adj_list);
    proof {
        lemma_distinct_vertices_bounded(sources@);
        assert forall|j: int| 0 <= j < sources@.len() implies g.contains_key(
            #[trigger] sources@[j],
        ) by {
            assert(sources@.contains(sources@[j]));
        }
    }
    let mut total: u128 = 0;
    let mut pairs: u64 = 0;
    let mut farthest: u32 = 0;
    let mut i: usize = 0;
    while i < sources.len()
        invariant
            0 <= i <= sources@.len() <= vertex_count(),
            g == adjacency_of(adj_list@),
            fd == source_distance_sums(g),
            fw == source_pair_counts(g),
            forall|j: int| 0 <= j < sources@.len() ==> g.contains_key(#[trigger] sources@[j]),
            total as nat == sum_listed(fd, sources@.take(i as int)),
            pairs as nat == sum_listed(fw, sources@.take(i as int)),
            total <= i * 0xFFFF_FFFE_0000_0001,
            pairs <= i * 0xFFFF_FFFF,
            forall|j: int, v: u32|
                0 <= j < i && #[trigger] reachable(g, sources@[j], v) ==> distance(
                    g,
                    sources@[j],
                    v,
                ) <= farthest,
            i == 0 ==> farthest == 0,
            i > 0 ==> exists|s: u32, v: u32|
                g.contains_key(s) && #[trigger] reachable(g, s, v) && distance(g, s, v)
                    == farthest,
        decreases sources@.len() - i,
    {
        let s = sources[i];
        let t = traverse(adj_list, s);
        let (sum, count, far) = summarize(&t, s, Ghost(g));
        proof {
            lemma_sum_listed_next(fd, sources@, i as int);
            lemma_sum_listed_next(fw, sources@, i as int);
            lemma_source_distance(g, s);
        }
        total = total + sum as u128;
        pairs = pairs + count;
        if far > farthest {
            farthest = far;
        }
        i += 1;
    }
    proof {
        assert(sources@.take(i as int) =~= sources@);
        lemma_sum_over_support(fd, sources@);
        lemma_sum_over_support(fw, sources@);
        if sources@.len() == 0 {
            assert forall|s: u32| !g.contains_key(s) by {
                assert(!sources@.contains(s));
            }
            lemma_greatest_distance_without_keys(g);
        } else {
            assert forall|s: u32, v: u32|
                g.contains_key(s) && #[trigger] reachable(g, s, v) implies distance(g, s, v)
                <= farthest by {
                assert(sources@.contains(s));
            }
            lemma_greatest_distance_is(g, farthest as nat);
        }
    }
    AggregateCounters { total_distance: total, pair_count: pairs, max_distance: farthest }
}

/// The mean shortest-path length over all ordered pairs `(s, v)` where `s`
/// is a key of `adj_list` and `v` another vertex that `s` reaches, as the sum
/// of the distances and the number of pairs; `None` where there is no such
/// pair. Pairs that no walk joins are left out of both.
pub fn compute_avg_shortest_path_length(adj_list: &HashMap<u32, Vec<u32>>) -> (r: Option<
    AverageDistance,
>)
    ensures
        match r {
            Some(a) => a.pairs > 0 && average_distance(adjacency_of(adj_list@)) == Some(
                (a.total as nat, a.pairs as nat),
            ),
            None => average_distance(adjacency_of(adj_list@)) is None,
        },
{
    sweep(adj_list).average()
}

/// The diameter of the graph: the greatest distance from a key of `adj_list`
/// to a vertex that it reaches; `None` where that is zero, as in a graph
/// without edges.
pub fn compute_diameter(adj_list: &HashMap<u32, Vec<u32>>) -> (r: Option<u32>)
    ensures
        match r {
            Some(d) => diameter(adjacency_of(adj_list@)) == Some(d as nat),
            None => diameter(adjacency_of(adj_list@)) is None,
        },
{
    sweep(adj_list).diameter()
}

/// The diameter recorded for the reference dataset.
pub const REFERENCE_DIAMETER: u32 = 9;

/// Checks the diameter of a graph against the value recorded for the
/// reference dataset.
pub fn test_compute_diameter(adj_list: &HashMap<u32, Vec<u32>>) -> (same: bool)
    ensures
        same == (diameter(adjacency_of(adj_list@)) == Some(REFERENCE_DIAMETER as nat)),
{
    match compute_diameter(adj_list) {
        Some(d) => d == REFERENCE_DIAMETER,
        None => false,
    }
}

} // verus!
