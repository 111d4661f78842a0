//! The mathematical model of a directed graph: edges, walks, reachability
//! and shortest-path distance.
//!
//! A graph is a map from a vertex to the sequence of its out-neighbors.
//! Only vertices with a recorded outgoing edge need to be keys; a vertex
//! that is not a key has no outgoing edge. Repeated edges and self-loops
//! are allowed.

use vstd::prelude::*;

verus! {

/// The number of vertex identifiers.
pub open spec fn vertex_count() -> nat {
    0x1_0000_0000
}

/// The model of an executable adjacency map.
pub open spec fn adjacency_of(m: Map<u32, Vec<u32>>) -> Map<u32, Seq<u32>> {
    Map::new(|v: u32| m.contains_key(v), |v: u32| m[v]@)
}

/// `u -> v` is a recorded edge.
pub open spec fn has_edge(g: Map<u32, Seq<u32>>, u: u32, v: u32) -> bool {
    g.contains_key(u) && g[u].contains(v)
}

/// Some walk of exactly `n` edges leads from `s` to `v`.
pub open spec fn reaches_in(g: Map<u32, Seq<u32>>, s: u32, v: u32, n: nat) -> bool
    decreases n,
{
    if n == 0 {
        v == s
    } else {
        exists|u: u32| reaches_in(g, s, u, (n - 1) as nat) && #[trigger] has_edge(g, u, v)
    }
}

/// Some walk leads from `s` to `v`.
pub open spec fn reachable(g: Map<u32, Seq<u32>>, s: u32, v: u32) -> bool {
    exists|n: nat| reaches_in(g, s, v, n)
}

/// `d` is the number of edges of a shortest walk from `s` to `v`.
pub open spec fn is_distance(g: Map<u32, Seq<u32>>, s: u32, v: u32, d: nat) -> bool {
    &&& reaches_in(g, s, v, d)
    &&& forall|n: nat| n < d ==> !reaches_in(g, s, v, n)
}

/// The shortest-path distance from `s` to `v`; meaningful where `v` is
/// reachable from `s`.
pub open spec fn distance(g: Map<u32, Seq<u32>>, s: u32, v: u32) -> nat {
    choose|d: nat| is_distance(g, s, v, d)
}

/// `dm` holds exactly the vertices reachable from `s`, each with its
/// shortest-path distance.
pub open spec fn is_distance_map(g: Map<u32, Seq<u32>>, s: u32, dm: Map<u32, u32>) -> bool {
    &&& forall|v: u32|
        #![trigger dm.contains_key(v)]
        #![trigger reachable(g, s, v)]
        dm.contains_key(v) <==> reachable(g, s, v)
    &&& forall|v: u32| #[trigger] dm.contains_key(v) ==> dm[v] as nat == distance(g, s, v)
}

/// A walk can be extended by one edge.
pub proof fn lemma_walk_extends(g: Map<u32, Seq<u32>>, s: u32, u: u32, v: u32, n: nat)
    requires
        reaches_in(g, s, u, n),
        has_edge(g, u, v),
    ensures
        reaches_in(g, s, v, n + 1),
{
}

/// Among the walks from `s` to `v` there is a shortest one.
proof fn lemma_shortest_walk_exists(g: Map<u32, Seq<u32>>, s: u32, v: u32, n: nat)
    requires
        reaches_in(g, s, v, n),
    ensures
        exists|d: nat| d <= n && is_distance(g, s, v, d),
    decreases n,
{
    if forall|m: nat| m < n ==> !reaches_in(g, s, v, m) {
        assert(is_distance(g, s, v, n));
    } else {
        let m = choose|m: nat| m < n && reaches_in(g, s, v, m);
        lemma_shortest_walk_exists(g, s, v, m);
    }
}

/// Two shortest walks have the same length.
pub proof fn lemma_distance_unique(g: Map<u32, Seq<u32>>, s: u32, v: u32, d1: nat, d2: nat)
    requires
        is_distance(g, s, v, d1),
        is_distance(g, s, v, d2),
    ensures
        d1 == d2,
{
}

/// The distance to a reachable vertex is the length of a shortest walk:
/// some walk has that length and none is shorter.
pub proof fn lemma_distance_of_reachable(g: Map<u32, Seq<u32>>, s: u32, v: u32)
    requires
        reachable(g, s, v),
    ensures
        is_distance(g, s, v, distance(g, s, v)),
{
    let n = choose|n: nat| reaches_in(g, s, v, n);
    lemma_shortest_walk_exists(g, s, v, n);
}

/// A length that is shortest is the distance.
pub proof fn lemma_distance_is(g: Map<u32, Seq<u32>>, s: u32, v: u32, d: nat)
    requires
        is_distance(g, s, v, d),
    ensures
        reachable(g, s, v),
        distance(g, s, v) == d,
{
    lemma_distance_of_reachable(g, s, v);
    lemma_distance_unique(g, s, v, d, distance(g, s, v));
}

/// No walk to `v` is shorter than the distance to `v`.
pub proof fn lemma_distance_is_least(g: Map<u32, Seq<u32>>, s: u32, v: u32, n: nat)
    requires
        reaches_in(g, s, v, n),
    ensures
        reachable(g, s, v),
        distance(g, s, v) <= n,
{
    lemma_distance_of_reachable(g, s, v);
}

/// Every vertex is reachable from itself, at distance zero.
pub proof fn lemma_source_distance(g: Map<u32, Seq<u32>>, s: u32)
    ensures
        reachable(g, s, s),
        distance(g, s, s) == 0,
{
    lemma_distance_is(g, s, s, 0);
}

/// Only the source itself is at distance zero.
pub proof fn lemma_distance_zero(g: Map<u32, Seq<u32>>, s: u32, v: u32)
    requires
        reachable(g, s, v),
    ensures
        distance(g, s, v) == 0 <==> v == s,
{
    lemma_distance_of_reachable(g, s, v);
    lemma_source_distance(g, s);
}

/// One more hop adds at most one to the distance: the head of an edge is
/// reachable wherever its tail is, and lies at most one step further.
pub proof fn lemma_distance_step(g: Map<u32, Seq<u32>>, s: u32, u: u32, v: u32)
    requires
        reachable(g, s, u),
        has_edge(g, u, v),
    ensures
        reachable(g, s, v),
        distance(g, s, v) <= distance(g, s, u) + 1,
{
    lemma_distance_of_reachable(g, s, u);
    lemma_walk_extends(g, s, u, v, distance(g, s, u));
    lemma_distance_is_least(g, s, v, distance(g, s, u) + 1);
}

/// A walk from `s` to `u` followed by a walk from `u` to `v` is a walk from
/// `s` to `v`.
pub proof fn lemma_walks_join(g: Map<u32, Seq<u32>>, s: u32, u: u32, v: u32, a: nat, b: nat)
    requires
        reaches_in(g, s, u, a),
        reaches_in(g, u, v, b),
    ensures
        reaches_in(g, s, v, a + b),
    decreases b,
{
    if b > 0 {
        let w = choose|w: u32| reaches_in(g, u, w, (b - 1) as nat) && #[trigger] has_edge(g, w, v);
        lemma_walks_join(g, s, u, w, a, (b - 1) as nat);
        lemma_walk_extends(g, s, w, v, (a + b - 1) as nat);
    }
}

/// Going by way of another vertex is never shorter: the distance from `s`
/// to `v` is at most the distance from `s` to `u` plus that from `u` to `v`.
pub proof fn lemma_distance_triangle(g: Map<u32, Seq<u32>>, s: u32, u: u32, v: u32)
    requires
        reachable(g, s, u),
        reachable(g, u, v),
    ensures
        reachable(g, s, v),
        distance(g, s, v) <= distance(g, s, u) + distance(g, u, v),
{
    lemma_distance_of_reachable(g, s, u);
    lemma_distance_of_reachable(g, u, v);
    lemma_walks_join(g, s, u, v, distance(g, s, u), distance(g, u, v));
    lemma_distance_is_least(g, s, v, distance(g, s, u) + distance(g, u, v));
}

/// Every reachable vertex other than the source has a predecessor on a
/// shortest walk: a reachable vertex one step closer to the source with an
/// edge to it.
pub proof fn lemma_distance_predecessor(g: Map<u32, Seq<u32>>, s: u32, v: u32) -> (u: u32)
    requires
        reachable(g, s, v),
        v != s,
    ensures
        reachable(g, s, u),
        has_edge(g, u, v),
        distance(g, s, v) == distance(g, s, u) + 1,
{
    lemma_distance_of_reachable(g, s, v);
    let d = distance(g, s, v);
    let u = choose|u: u32| reaches_in(g, s, u, (d - 1) as nat) && #[trigger] has_edge(g, u, v);
    lemma_distance_is_least(g, s, u, (d - 1) as nat);
    lemma_distance_step(g, s, u, v);
    u
}

/// What a distance map says of walks: the source is in it at zero, each
/// entry is the length of some walk, no walk to a vertex is shorter than
/// its entry, and every entry but the source's is one more than the entry
/// of a vertex with an edge to it.
pub proof fn lemma_distance_map_walks(g: Map<u32, Seq<u32>>, s: u32, dm: Map<u32, u32>)
    requires
        is_distance_map(g, s, dm),
    ensures
        dm.contains_key(s) && dm[s] == 0,
        forall|v: u32| #[trigger] dm.contains_key(v) ==> reaches_in(g, s, v, dm[v] as nat),
        forall|v: u32, n: nat| #[trigger]
            reaches_in(g, s, v, n) ==> dm.contains_key(v) && dm[v] <= n,
        forall|v: u32| #[trigger]
            dm.contains_key(v) && v != s ==> exists|u: u32|
                dm.contains_key(u) && #[trigger] has_edge(g, u, v) && dm[v] == dm[u] + 1,
{
    lemma_source_distance(g, s);
    assert forall|v: u32| #[trigger] dm.contains_key(v) implies reaches_in(
        g,
        s,
        v,
        dm[v] as nat,
    ) by {
        lemma_distance_of_reachable(g, s, v);
    }
    assert forall|v: u32, n: nat| #[trigger] reaches_in(g, s, v, n) implies dm.contains_key(v)
        && dm[v] <= n by {
        lemma_distance_is_least(g, s, v, n);
    }
    assert forall|v: u32| #[trigger] dm.contains_key(v) && v != s implies exists|u: u32|
        dm.contains_key(u) && #[trigger] has_edge(g, u, v) && dm[v] == dm[u] + 1 by {
        let u = lemma_distance_predecessor(g, s, v);
    }
}

/// A list of distinct vertices is no longer than the number of vertex
/// identifiers.
pub proof fn lemma_distinct_vertices_bounded(vs: Seq<u32>)
    requires
        vs.no_duplicates(),
    ensures
        vs.len() <= vertex_count(),
{
    let ids = vs.map_values(|v: u32| v as int);
    ids.unique_seq_to_set();
    let all = vstd::set_lib::set_int_range(0, 0x1_0000_0000);
    vstd::set_lib::lemma_int_range(0, 0x1_0000_0000);
    assert(ids.to_set().subset_of(all));
    vstd::set_lib::lemma_len_subset(ids.to_set(), all);
}

/// The `i`-th vertex of `p` has an edge to the next.
pub open spec fn walk_edge(g: Map<u32, Seq<u32>>, p: Seq<u32>, i: int) -> bool {
    has_edge(g, p[i], p[i + 1])
}

/// `p` lists the vertices of a walk: it is not empty, and each of its
/// vertices has an edge to the next.
pub open spec fn is_walk(g: Map<u32, Seq<u32>>, p: Seq<u32>) -> bool {
    &&& p.len() > 0
    &&& forall|i: int| 0 <= i < p.len() - 1 ==> #[trigger] walk_edge(g, p, i)
}

/// Where `s` reaches `v` in `n` edges, some walk of `n + 1` vertices begins
/// at `s` and ends at `v`.
pub proof fn lemma_walk_of(g: Map<u32, Seq<u32>>, s: u32, v: u32, n: nat) -> (p: Seq<u32>)
    requires
        reaches_in(g, s, v, n),
    ensures
        is_walk(g, p),
        p.len() == n + 1,
        p[0] == s,
        p.last() == v,
    decreases n,
{
    if n == 0 {
        seq![s]
    } else {
        let u = choose|u: u32| reaches_in(g, s, u, (n - 1) as nat) && #[trigger] has_edge(g, u, v);
        let q = lemma_walk_of(g, s, u, (n - 1) as nat);
        let p = q.push(v);
        assert forall|i: int| 0 <= i < p.len() - 1 implies #[trigger] walk_edge(g, p, i) by {
            if i < q.len() - 1 {
                assert(walk_edge(g, q, i));
            }
        }
        p
    }
}

/// The first vertex of a walk reaches the last in as many edges as the walk
/// has.
pub proof fn lemma_walk_reaches(g: Map<u32, Seq<u32>>, p: Seq<u32>)
    requires
        is_walk(g, p),
    ensures
        reaches_in(g, p[0], p.last(), (p.len() - 1) as nat),
    decreases p.len(),
{
    if p.len() > 1 {
        let q = p.drop_last();
        assert forall|i: int| 0 <= i < q.len() - 1 implies #[trigger] walk_edge(g, q, i) by {
            assert(walk_edge(g, p, i));
        }
        lemma_walk_reaches(g, q);
        assert(walk_edge(g, p, p.len() - 2));
    }
}

/// A shortest walk passes through no vertex twice.
pub proof fn lemma_shortest_walk_is_simple(g: Map<u32, Seq<u32>>, p: Seq<u32>)
    requires
        is_walk(g, p),
        is_distance(g, p[0], p.last(), (p.len() - 1) as nat),
    ensures
        p.no_duplicates(),
{
    if !p.no_duplicates() {
        let (i, j) = choose|i: int, j: int|
            0 <= i < p.len() && 0 <= j < p.len() && i != j && p[i] == p[j];
        let (a, b) = if i < j {
            (i, j)
        } else {
            (j, i)
        };
        // leave out the round trip from `p[a]` back to itself
        let q = p.subrange(0, a + 1) + p.subrange(b + 1, p.len() as int);
        assert forall|k: int| 0 <= k < q.len() - 1 implies #[trigger] walk_edge(g, q, k) by {
            if k < a {
                assert(walk_edge(g, p, k));
            } else {
                assert(walk_edge(g, p, k + (b - a)));
            }
        }
        // what is left is a shorter walk between the same two vertices
        lemma_walk_reaches(g, q);
    }
}

/// Every distance is less than the number of vertex identifiers.
pub proof fn lemma_distance_bounded(g: Map<u32, Seq<u32>>, s: u32, v: u32)
    requires
        reachable(g, s, v),
    ensures
        distance(g, s, v) < vertex_count(),
{
    lemma_distance_of_reachable(g, s, v);
    let p = lemma_walk_of(g, s, v, distance(g, s, v));
    lemma_shortest_walk_is_simple(g, p);
    lemma_distinct_vertices_bounded(p);
}

} // verus!
