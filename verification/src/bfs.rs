//! Single-source breadth-first search.

use crate::graph::{
    adjacency_of, distance, has_edge, is_distance_map, lemma_distance_is,
    lemma_distance_map_walks, lemma_distinct_vertices_bounded, lemma_walk_extends, reachable,
    reaches_in, vertex_count,
};
use std::collections::HashMap;
use vstd::prelude::*;

verus! {

/// The record of one traversal: the reachable vertices in the order in
/// which they were discovered, each with its depth, and the same depths
/// keyed by vertex.
pub(crate) struct Traversal {
    pub(crate) visits: Vec<(u32, u32)>,
    pub(crate) depths: HashMap<u32, u32>,
}

impl Traversal {
    /// The record is a complete traversal of `g` from `s`: the source comes
    /// first, no vertex is listed twice, the list holds the reachable
    /// vertices and no others, each with its distance from `s`, in
    /// non-decreasing order of distance; and the table agrees with the list.
    pub(crate) open spec fn is_traversal_of(&self, g: Map<u32, Seq<u32>>, s: u32) -> bool {
        &&& self.visits@.len() > 0
        &&& self.visits@[0] == (s, 0u32)
        &&& forall|i: int, j: int|
            0 <= i < j < self.visits@.len() ==> (#[trigger] self.visits@[i]).0 != (
            #[trigger] self.visits@[j]).0
        &&& forall|i: int|
            0 <= i < self.visits@.len() ==> reachable(g, s, (#[trigger] self.visits@[i]).0)
                && self.visits@[i].1 as nat == distance(g, s, self.visits@[i].0)
        &&& forall|v: u32| #[trigger]
            reachable(g, s, v) ==> exists|i: int|
                0 <= i < self.visits@.len() && (#[trigger] self.visits@[i]).0 == v
        &&& forall|i: int, j: int|
            0 <= i <= j < self.visits@.len() ==> (#[trigger] self.visits@[i]).1 <= (
            #[trigger] self.visits@[j]).1
        &&& is_distance_map(g, s, self.depths@)
    }
}

/// What holds of the search while the first `head` discovered vertices have
/// been expanded.
spec fn search_inv(
    g: Map<u32, Seq<u32>>,
    s: u32,
    visits: Seq<(u32, u32)>,
    depths: Map<u32, u32>,
    head: int,
) -> bool {
    &&& 0 <= head <= visits.len()
    &&& visits.len() > 0
    &&& visits[0] == (s, 0u32)
    // the table and the list hold the same vertices with the same depths
    &&& forall|i: int|
        0 <= i < visits.len() ==> depths.contains_key((#[trigger] visits[i]).0)
            && depths[visits[i].0] == visits[i].1
    &&& forall|v: u32| #[trigger]
        depths.contains_key(v) ==> exists|i: int|
            0 <= i < visits.len() && (#[trigger] visits[i]).0 == v
    // no vertex is listed twice
    &&& forall|i: int, j: int|
        0 <= i < j < visits.len() ==> (#[trigger] visits[i]).0 != (#[trigger] visits[j]).0
    // a depth is at most the position, depths never decrease along the list,
    // and the list runs at most one level ahead of the vertex being expanded
    &&& forall|i: int| 0 <= i < visits.len() ==> (#[trigger] visits[i]).1 <= i
    &&& forall|i: int, j: int|
        0 <= i <= j < visits.len() ==> (#[trigger] visits[i]).1 <= (#[trigger] visits[j]).1
    &&& head < visits.len() ==> forall|j: int|
        0 <= j < visits.len() ==> (#[trigger] visits[j]).1 <= visits[head].1 + 1
    // each depth is the length of some walk from the source
    &&& forall|i: int|
        0 <= i < visits.len() ==> reaches_in(
            g,
            s,
            (#[trigger] visits[i]).0,
            visits[i].1 as nat,
        )
    // every edge out of an expanded vertex leads to a discovered vertex at
    // most one level deeper
    &&& forall|i: int, w: u32|
        0 <= i < head && #[trigger] has_edge(g, visits[i].0, w) ==> depths.contains_key(w)
            && depths[w] <= visits[i].1 + 1
}

/// The vertices of a list of visits.
pub(crate) open spec fn visited_vertices(visits: Seq<(u32, u32)>) -> Seq<u32> {
    visits.map_values(|p: (u32, u32)| p.0)
}

/// A search never lists more vertices than there are vertex identifiers.
proof fn lemma_search_bounded(
    g: Map<u32, Seq<u32>>,
    s: u32,
    visits: Seq<(u32, u32)>,
    depths: Map<u32, u32>,
    head: int,
)
    requires
        search_inv(g, s, visits, depths, head),
    ensures
        visits.len() <= vertex_count(),
{
    lemma_distinct_vertices_bounded(visited_vertices(visits));
}

/// The search may begin with the source alone.
proof fn lemma_search_start(g: Map<u32, Seq<u32>>, s: u32)
    ensures
        search_inv(g, s, seq![(s, 0u32)], Map::<u32, u32>::empty().insert(s, 0u32), 0),
{
    let visits = seq![(s, 0u32)];
    let depths = Map::<u32, u32>::empty().insert(s, 0u32);
    assert(visits[0] == (s, 0u32));
}

/// Discovering an unseen out-neighbor `w` of the vertex being expanded keeps
/// the search consistent, and its depth fits.
proof fn lemma_search_discover(
    g: Map<u32, Seq<u32>>,
    s: u32,
    visits: Seq<(u32, u32)>,
    depths: Map<u32, u32>,
    head: int,
    w: u32,
)
    requires
        search_inv(g, s, visits, depths, head),
        head < visits.len(),
        has_edge(g, visits[head].0, w),
        !depths.contains_key(w),
    ensures
        visits[head].1 < u32::MAX,
        search_inv(
            g,
            s,
            visits.push((w, (visits[head].1 + 1) as u32)),
            depths.insert(w, (visits[head].1 + 1) as u32),
            head,
        ),
{
    let d = visits[head].1;
    let visits2 = visits.push((w, (d + 1) as u32));
    let depths2 = depths.insert(w, (d + 1) as u32);
    let n = visits.len() as int;
    // the longer list still names no vertex twice, so it is not too long,
    // and the depth of `w`, at most its position, fits
    lemma_distinct_vertices_bounded(visited_vertices(visits2));
    assert forall|v: u32| #[trigger] depths2.contains_key(v) implies exists|i: int|
        0 <= i < visits2.len() && (#[trigger] visits2[i]).0 == v by {
        if v == w {
            assert(visits2[n].0 == v);
        } else {
            let i = choose|i: int| 0 <= i < visits.len() && (#[trigger] visits[i]).0 == v;
            assert(visits2[i].0 == v);
        }
    }
    assert forall|i: int| 0 <= i < visits2.len() implies reaches_in(
        g,
        s,
        (#[trigger] visits2[i]).0,
        visits2[i].1 as nat,
    ) by {
        if i == n {
            lemma_walk_extends(g, s, visits[head].0, w, d as nat);
        }
    }
}

/// Once every out-neighbor of the vertex being expanded is discovered, the
/// search may move on to the next vertex of the list.
proof fn lemma_search_advance(
    g: Map<u32, Seq<u32>>,
    s: u32,
    visits: Seq<(u32, u32)>,
    depths: Map<u32, u32>,
    head: int,
)
    requires
        search_inv(g, s, visits, depths, head),
        head < visits.len(),
        forall|w: u32| #[trigger]
            has_edge(g, visits[head].0, w) ==> depths.contains_key(w) && depths[w] <= visits[head].1
                + 1,
    ensures
        search_inv(g, s, visits, depths, head + 1),
{
}

/// When every discovered vertex has been expanded, each vertex that a walk of
/// `n` edges reaches is discovered, at a depth of at most `n`.
proof fn lemma_search_covers(
    g: Map<u32, Seq<u32>>,
    s: u32,
    visits: Seq<(u32, u32)>,
    depths: Map<u32, u32>,
    v: u32,
    n: nat,
)
    requires
        search_inv(g, s, visits, depths, visits.len() as int),
        reaches_in(g, s, v, n),
    ensures
        depths.contains_key(v),
        depths[v] <= n,
    decreases n,
{
    if n > 0 {
        let u = choose|u: u32| reaches_in(g, s, u, (n - 1) as nat) && #[trigger] has_edge(g, u, v);
        lemma_search_covers(g, s, visits, depths, u, (n - 1) as nat);
    }
}

/// A finished search is a complete traversal.
proof fn lemma_search_complete(g: Map<u32, Seq<u32>>, s: u32, t: Traversal)
    requires
        search_inv(g, s, t.visits@, t.depths@, t.visits@.len() as int),
    ensures
        t.is_traversal_of(g, s),
{
    let visits = t.visits@;
    let depths = t.depths@;
    assert forall|i: int| 0 <= i < visits.len() implies reachable(g, s, (#[trigger] visits[i]).0)
        && visits[i].1 as nat == distance(g, s, visits[i].0) by {
        let v = visits[i].0;
        let d = visits[i].1 as nat;
        assert forall|n: nat| n < d implies !reaches_in(g, s, v, n) by {
            if reaches_in(g, s, v, n) {
                lemma_search_covers(g, s, visits, depths, v, n);
            }
        }
        lemma_distance_is(g, s, v, d);
    }
    assert forall|v: u32| #[trigger] reachable(g, s, v) implies exists|i: int|
        0 <= i < visits.len() && (#[trigger] visits[i]).0 == v by {
        let n = choose|n: nat| reaches_in(g, s, v, n);
        lemma_search_covers(g, s, visits, depths, v, n);
    }
}

/// Runs a breadth-first search of `adj_list` from `source` and records it.
///
/// A vertex that is not a key of `adj_list` has no out-neighbors, so a
/// source without outgoing edges yields the record of itself alone.
pub(crate) fn traverse(adj_list: &HashMap<u32, Vec<u32>>, source: u32) -> (t: Traversal)
    ensures
        t.is_traversal_of(adjacency_of(adj_list@), source),
{
    let ghost g = adjacency_of(adj_list@);
    let mut depths: HashMap<u32, u32> = HashMap::new();
    let mut visits: Vec<(u32, u32)> = Vec::new();
    depths.insert(source, 0);
    visits.push((source, 0));
    proof {
        lemma_search_start(g, source);
    }
    let mut head: usize = 0;
    while head < visits.len()
        invariant
            g == adjacency_of(adj_list@),
            search_inv(g, source, visits@, depths@, head as int),
        decreases vertex_count() - head,
    {
        proof {
            lemma_search_bounded(g, source, visits@, depths@, head as int);
        }
        let (u, d) = visits[head];
        match adj_list.get(&u) {
            Some(neighbors) => {
                let mut k: usize = 0;
                while k < neighbors.len()
                    invariant
                        0 <= k <= neighbors.len(),
                        head < visits.len(),
                        visits@[head as int] == (u, d),
                        g.contains_key(u),
                        g[u] == neighbors@,
                        search_inv(g, source, visits@, depths@, head as int),
                        forall|j: int|
                            0 <= j < k ==> depths@.contains_key(#[trigger] neighbors@[j])
                                && depths@[neighbors@[j]] <= d + 1,
                    decreases neighbors.len() - k,
                {
                    let w = neighbors[k];
                    assert(has_edge(g, u, w));
                    if !depths.contains_key(&w) {
                        proof {
                            lemma_search_discover(g, source, visits@, depths@, head as int, w);
                        }
                        depths.insert(w, d + 1);
                        visits.push((w, d + 1));
                    }
                    k += 1;
                }
            },
            None => {},
        }
        proof {
            lemma_search_advance(g, source, visits@, depths@, head as int);
        }
        head += 1;
    }
    let t = Traversal { visits, depths };
    proof {
        lemma_search_complete(g, source, t);
    }
    t
}

/// Computes the distance map of `source`: the vertices that can be reached
/// from `source` along directed edges, each with the number of edges of a
/// shortest walk to it. Unreachable vertices are absent.
///
/// The source is always present, at distance zero. Every other entry is one
/// more than the entry of some vertex with an edge to it, and no walk from
/// the source to a vertex has fewer edges than the entry of that vertex.
pub fn bfs(adj_list: &HashMap<u32, Vec<u32>>, source: u32) -> (dist: HashMap<u32, u32>)
    ensures
        is_distance_map(adjacency_of(adj_list@), source, dist@),
        dist@.contains_key(source) && dist@[source] == 0,
        forall|v: u32| #[trigger]
            dist@.contains_key(v) ==> reaches_in(
                adjacency_of(adj_list@),
                source,
                v,
                dist@[v] as nat,
            ),
        forall|v: u32, n: nat| #[trigger]
            reaches_in(adjacency_of(adj_list@), source, v, n) ==> dist@.contains_key(v)
                && dist@[v] <= n,
        forall|v: u32| #[trigger]
            dist@.contains_key(v) && v != source ==> exists|u: u32|
                dist@.contains_key(u) && #[trigger] has_edge(adjacency_of(adj_list@), u, v)
                    && dist@[v] == dist@[u] + 1,
{
    let t = traverse(adj_list, source);
    proof {
        lemma_distance_map_walks(adjacency_of(adj_list@), source, t.depths@);
    }
    t.depths
}

} // verus!
