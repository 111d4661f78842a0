//! What holds of the two metrics: when they are defined, how they bound
//! each other, and their values on graphs without edges and on directed
//! chains.

use crate::graph::{
    distance, has_edge, lemma_distance_bounded, lemma_distance_is, lemma_distance_zero,
    lemma_source_distance, reachable, reaches_in, vertex_count,
};
use crate::metrics::{
    average_distance, diameter, distance_sum_from, distances_from, greatest_distance,
    is_greatest_distance, lemma_greatest_distance_is, pair_count, pair_count_from, pair_distance,
    pair_weight, source_distance_sums, source_pair_counts, total_distance, weights_from,
};
use crate::sums::{
    lemma_sum_below_monotone, lemma_sum_below_running, lemma_sum_below_scaled,
    lemma_sum_below_term, lemma_sum_below_zero,
};
use vstd::prelude::*;

verus! {

/// Where no key reaches another vertex, both metrics are undefined.
pub proof fn lemma_no_pair_metrics_undefined(g: Map<u32, Seq<u32>>)
    requires
        forall|s: u32, v: u32| g.contains_key(s) && #[trigger] reachable(g, s, v) ==> v == s,
    ensures
        average_distance(g) is None,
        diameter(g) is None,
{
    let fw = source_pair_counts(g);
    assert forall|s: u32| #[trigger] fw(s) == 0 by {
        if g.contains_key(s) {
            let w = weights_from(g, s);
            lemma_sum_below_zero(w, vertex_count());
        }
    }
    lemma_sum_below_zero(fw, vertex_count());
    if exists|d: nat| is_greatest_distance(g, d) {
        let d = choose|d: nat| is_greatest_distance(g, d);
        let (s, v) = choose|s: u32, v: u32|
            g.contains_key(s) && #[trigger] reachable(g, s, v) && distance(g, s, v) == d;
        lemma_source_distance(g, s);
    }
}

/// In a graph without edges every vertex reaches itself alone.
pub proof fn lemma_edgeless_reach(g: Map<u32, Seq<u32>>, s: u32, v: u32)
    requires
        forall|u: u32, w: u32| !has_edge(g, u, w),
        reachable(g, s, v),
    ensures
        v == s,
{
    // a walk of one edge or more would end with an edge
}

/// A graph without edges has neither a mean distance nor a diameter.
pub proof fn lemma_edgeless_metrics_undefined(g: Map<u32, Seq<u32>>)
    requires
        forall|u: u32, w: u32| !has_edge(g, u, w),
    ensures
        average_distance(g) is None,
        diameter(g) is None,
{
    assert forall|s: u32, v: u32| g.contains_key(s) && #[trigger] reachable(g, s, v) implies v
        == s by {
        lemma_edgeless_reach(g, s, v);
    }
    lemma_no_pair_metrics_undefined(g);
}

/// The directed chain of `n` vertices: `0 -> 1 -> ... -> n - 1`.
pub open spec fn chain(n: nat) -> Map<u32, Seq<u32>> {
    Map::new(|v: u32| v + 1 < n, |v: u32| seq![(v + 1) as u32])
}

/// The sum `1 + 2 + ... + n`.
pub open spec fn triangle(n: nat) -> nat
    decreases n,
{
    if n == 0 {
        0
    } else {
        triangle((n - 1) as nat) + n
    }
}

/// The sum `triangle(1) + triangle(2) + ... + triangle(n)`.
pub open spec fn pyramid(n: nat) -> nat
    decreases n,
{
    if n == 0 {
        0
    } else {
        pyramid((n - 1) as nat) + triangle(n)
    }
}

/// `1 + 2 + ... + n` is `n (n + 1) / 2`.
pub proof fn lemma_triangle_closed(n: nat)
    ensures
        2 * triangle(n) == n * (n + 1),
    decreases n,
{
    if n > 0 {
        lemma_triangle_closed((n - 1) as nat);
        let t = triangle((n - 1) as nat);
        assert(2 * (t + n) == n * (n + 1)) by (nonlinear_arith)
            requires
                n > 0,
                2 * t == (n - 1) * ((n - 1) + 1),
        ;
    } else {
        assert(n * (n + 1) == 0) by (nonlinear_arith)
            requires
                n == 0,
        ;
    }
}

/// The sum of the first `n` triangular numbers is `n (n + 1) (n + 2) / 6`.
pub proof fn lemma_pyramid_closed(n: nat)
    ensures
        6 * pyramid(n) == n * (n + 1) * (n + 2),
    decreases n,
{
    if n > 0 {
        lemma_pyramid_closed((n - 1) as nat);
        lemma_triangle_closed(n);
        let p = pyramid((n - 1) as nat);
        let t = triangle(n);
        assert(6 * (p + t) == n * (n + 1) * (n + 2)) by (nonlinear_arith)
            requires
                n > 0,
                6 * p == (n - 1) * ((n - 1) + 1) * ((n - 1) + 2),
                2 * t == n * (n + 1),
        ;
    } else {
        assert(n * (n + 1) * (n + 2) == 0) by (nonlinear_arith)
            requires
                n == 0,
        ;
    }
}

/// Triangular numbers grow with their argument.
pub proof fn lemma_triangle_grows(i: nat, j: nat)
    requires
        i <= j,
    ensures
        triangle(i) <= triangle(j),
    decreases j,
{
    if i < j {
        lemma_triangle_grows(i, (j - 1) as nat);
    }
}

/// Sums of triangular numbers grow with their argument.
pub proof fn lemma_pyramid_grows(i: nat, j: nat)
    requires
        i <= j,
    ensures
        pyramid(i) <= pyramid(j),
    decreases j,
{
    if i < j {
        lemma_pyramid_grows(i, (j - 1) as nat);
    }
}

/// In a chain a walk of `k` edges from `s` ends `k` vertices further on.
pub proof fn lemma_chain_walk(n: nat, s: u32, v: u32, k: nat)
    requires
        n <= vertex_count(),
    ensures
        reaches_in(chain(n), s, v, k) <==> (v == s + k && (k > 0 ==> v < n)),
    decreases k,
{
    let g = chain(n);
    if k > 0 {
        if reaches_in(g, s, v, k) {
            let u = choose|u: u32|
                reaches_in(g, s, u, (k - 1) as nat) && #[trigger] has_edge(g, u, v);
            lemma_chain_walk(n, s, u, (k - 1) as nat);
        }
        if v == s + k && v < n {
            let u = (v - 1) as u32;
            lemma_chain_walk(n, s, u, (k - 1) as nat);
            assert(g[u][0] == v);
            assert(has_edge(g, u, v));
        }
    }
}

/// In a chain a vertex reaches itself and the vertices after it, each at
/// the distance of their difference.
pub proof fn lemma_chain_distance(n: nat, s: u32, v: u32)
    requires
        n <= vertex_count(),
    ensures
        reachable(chain(n), s, v) <==> (v == s || s < v < n),
        reachable(chain(n), s, v) ==> distance(chain(n), s, v) == v - s,
{
    let g = chain(n);
    if reachable(g, s, v) {
        let k = choose|k: nat| reaches_in(g, s, v, k);
        lemma_chain_walk(n, s, v, k);
    }
    if v == s || s < v < n {
        let k = (v - s) as nat;
        lemma_chain_walk(n, s, v, k);
        assert forall|m: nat| m < k implies !reaches_in(g, s, v, m) by {
            lemma_chain_walk(n, s, v, m);
        }
        lemma_distance_is(g, s, v, k);
    }
}

/// The number of vertices below `m` that come after `s` in the chain of `n`
/// vertices.
spec fn chain_reach_below(n: nat, s: u32, m: nat) -> nat {
    if m <= s + 1 {
        0
    } else if m <= n {
        (m - s - 1) as nat
    } else {
        (n - s - 1) as nat
    }
}

/// What the vertex `m - 1` adds to the pairs and the distances from `s`.
proof fn lemma_chain_from_step(n: nat, s: u32, m: nat)
    requires
        n <= vertex_count(),
        s + 1 < n,
        0 < m <= vertex_count(),
    ensures
        chain_reach_below(n, s, m) == chain_reach_below(n, s, (m - 1) as nat) + pair_weight(
            chain(n),
            s,
            (m - 1) as u32,
        ),
        triangle(chain_reach_below(n, s, m)) == triangle(chain_reach_below(n, s, (m - 1) as nat))
            + pair_distance(chain(n), s, (m - 1) as u32),
{
    let v = (m - 1) as u32;
    lemma_chain_distance(n, s, v);
}

/// In a chain of `n` vertices a key `s` reaches the `n - 1 - s` vertices
/// after it, at the distances `1, 2, ..., n - 1 - s`.
pub proof fn lemma_chain_from(n: nat, s: u32)
    requires
        n <= vertex_count(),
        s + 1 < n,
    ensures
        pair_count_from(chain(n), s) == n - 1 - s,
        distance_sum_from(chain(n), s) == triangle((n - 1 - s) as nat),
{
    let g = chain(n);
    let w = weights_from(g, s);
    let d = distances_from(g, s);
    let count = |m: nat| chain_reach_below(n, s, m);
    let sum = |m: nat| triangle(chain_reach_below(n, s, m));
    assert forall|m: nat| 0 < m <= vertex_count() implies #[trigger] count(m) == count(
        (m - 1) as nat,
    ) + w((m - 1) as u32) by {
        lemma_chain_from_step(n, s, m);
    }
    assert forall|m: nat| 0 < m <= vertex_count() implies #[trigger] sum(m) == sum((m - 1) as nat)
        + d((m - 1) as u32) by {
        lemma_chain_from_step(n, s, m);
    }
    lemma_sum_below_running(w, count, vertex_count());
    lemma_sum_below_running(d, sum, vertex_count());
}

/// What the first `m` sources of the chain of `n` vertices add to the number
/// of pairs: all pairs but those of the last `n - 1 - m` keys.
spec fn chain_pairs_below(n: nat, m: nat) -> nat {
    if m <= n - 1 {
        (triangle((n - 1) as nat) - triangle((n - 1 - m) as nat)) as nat
    } else {
        triangle((n - 1) as nat)
    }
}

/// What the first `m` sources of the chain of `n` vertices add to the sum of
/// distances.
spec fn chain_total_below(n: nat, m: nat) -> nat {
    if m <= n - 1 {
        (pyramid((n - 1) as nat) - pyramid((n - 1 - m) as nat)) as nat
    } else {
        pyramid((n - 1) as nat)
    }
}

/// What the source `m - 1` adds to the pairs and the distances of the chain.
proof fn lemma_chain_step(n: nat, m: nat)
    requires
        1 <= n <= vertex_count(),
        0 < m <= vertex_count(),
    ensures
        chain_pairs_below(n, m) == chain_pairs_below(n, (m - 1) as nat) + source_pair_counts(
            chain(n),
        )((m - 1) as u32),
        chain_total_below(n, m) == chain_total_below(n, (m - 1) as nat) + source_distance_sums(
            chain(n),
        )((m - 1) as u32),
{
    let g = chain(n);
    let s = (m - 1) as u32;
    let last = (n - 1) as nat;
    if m <= last {
        lemma_chain_from(n, s);
        let k = (last - m) as nat;
        lemma_triangle_grows(k + 1, last);
        lemma_pyramid_grows(k + 1, last);
    }
}

/// In the chain of `n` vertices the number of ordered pairs joined by a walk
/// is `n (n - 1) / 2`, the sum of their distances is `(n - 1) n (n + 1) / 6`,
/// and so the mean distance is `(n + 1) / 3`.
pub proof fn lemma_chain_average(n: nat)
    requires
        1 <= n <= vertex_count(),
    ensures
        2 * pair_count(chain(n)) == n * (n - 1),
        6 * total_distance(chain(n)) == (n - 1) * n * (n + 1),
        3 * total_distance(chain(n)) == (n + 1) * pair_count(chain(n)),
        n >= 2 ==> average_distance(chain(n)) == Some(
            (pyramid((n - 1) as nat), triangle((n - 1) as nat)),
        ),
        n == 1 ==> average_distance(chain(n)) is None,
{
    let g = chain(n);
    let fw = source_pair_counts(g);
    let fd = source_distance_sums(g);
    let last = (n - 1) as nat;
    let count = |m: nat| chain_pairs_below(n, m);
    let sum = |m: nat| chain_total_below(n, m);
    assert forall|m: nat| 0 < m <= vertex_count() implies #[trigger] count(m) == count(
        (m - 1) as nat,
    ) + fw((m - 1) as u32) by {
        lemma_chain_step(n, m);
    }
    assert forall|m: nat| 0 < m <= vertex_count() implies #[trigger] sum(m) == sum((m - 1) as nat)
        + fd((m - 1) as u32) by {
        lemma_chain_step(n, m);
    }
    lemma_sum_below_running(fw, count, vertex_count());
    lemma_sum_below_running(fd, sum, vertex_count());
    let p = pyramid(last);
    let t = triangle(last);
    lemma_triangle_closed(last);
    lemma_pyramid_closed(last);
    assert(6 * p == (n - 1) * n * (n + 1)) by (nonlinear_arith)
        requires
            6 * p == last * (last + 1) * (last + 2),
            last == n - 1,
    ;
    assert(2 * t == n * (n - 1)) by (nonlinear_arith)
        requires
            2 * t == last * (last + 1),
            last == n - 1,
    ;
    assert(3 * p == (n + 1) * t) by (nonlinear_arith)
        requires
            6 * p == (n - 1) * n * (n + 1),
            2 * t == n * (n - 1),
    ;
}

/// The diameter of the chain of `n` vertices is `n - 1`; a single vertex has
/// none.
pub proof fn lemma_chain_diameter(n: nat)
    requires
        1 <= n <= vertex_count(),
    ensures
        n >= 2 ==> diameter(chain(n)) == Some((n - 1) as nat),
        n == 1 ==> diameter(chain(n)) is None,
{
    let g = chain(n);
    if n >= 2 {
        let far = (n - 1) as u32;
        lemma_chain_distance(n, 0, far);
        assert forall|s: u32, v: u32| g.contains_key(s) && #[trigger] reachable(g, s, v) implies
            distance(g, s, v) <= n - 1 by {
            lemma_chain_distance(n, s, v);
        }
        lemma_greatest_distance_is(g, (n - 1) as nat);
    } else {
        lemma_no_pair_metrics_undefined(g);
    }
}

/// Some key reaches some vertex at distance `d`.
pub open spec fn distance_occurs(g: Map<u32, Seq<u32>>, d: nat) -> bool {
    exists|s: u32, v: u32|
        g.contains_key(s) && #[trigger] reachable(g, s, v) && distance(g, s, v) == d
}

/// Distances that occur and stay at or below `bound` have a greatest.
proof fn lemma_greatest_distance_below(g: Map<u32, Seq<u32>>, bound: nat)
    requires
        exists|d: nat| distance_occurs(g, d),
        forall|s: u32, v: u32|
            g.contains_key(s) && #[trigger] reachable(g, s, v) ==> distance(g, s, v) <= bound,
    ensures
        exists|d: nat| is_greatest_distance(g, d),
    decreases bound,
{
    if distance_occurs(g, bound) {
        assert(is_greatest_distance(g, bound));
    } else {
        lemma_greatest_distance_below(g, (bound - 1) as nat);
    }
}

/// A graph with a key has a greatest distance: some key reaches some vertex
/// at that distance and none reaches any further. It fits in 32 bits.
pub proof fn lemma_greatest_distance_exists(g: Map<u32, Seq<u32>>)
    requires
        exists|s: u32| g.contains_key(s),
    ensures
        is_greatest_distance(g, greatest_distance(g)),
        greatest_distance(g) < vertex_count(),
{
    let s = choose|s: u32| g.contains_key(s);
    lemma_source_distance(g, s);
    assert(distance_occurs(g, 0));
    assert forall|s: u32, v: u32|
        g.contains_key(s) && #[trigger] reachable(g, s, v) implies distance(g, s, v)
        <= vertex_count() - 1 by {
        lemma_distance_bounded(g, s, v);
    }
    lemma_greatest_distance_below(g, (vertex_count() - 1) as nat);
    let d = greatest_distance(g);
    let (a, b) = choose|a: u32, b: u32|
        g.contains_key(a) && #[trigger] reachable(g, a, b) && distance(g, a, b) == d;
    lemma_distance_bounded(g, a, b);
}

/// The mean distance and the diameter are defined for the same graphs:
/// those in which some key reaches another vertex.
pub proof fn lemma_metrics_defined_together(g: Map<u32, Seq<u32>>)
    ensures
        average_distance(g) is Some <==> exists|s: u32, v: u32|
            g.contains_key(s) && v != s && #[trigger] reachable(g, s, v),
        diameter(g) is Some <==> average_distance(g) is Some,
{
    if exists|s: u32, v: u32| g.contains_key(s) && v != s && #[trigger] reachable(g, s, v) {
        let (s, v) = choose|s: u32, v: u32|
            g.contains_key(s) && v != s && #[trigger] reachable(g, s, v);
        let w = weights_from(g, s);
        let fw = source_pair_counts(g);
        lemma_sum_below_term(w, vertex_count(), v);
        lemma_sum_below_term(fw, vertex_count(), s);
        lemma_greatest_distance_exists(g);
        lemma_distance_zero(g, s, v);
    } else {
        lemma_no_pair_metrics_undefined(g);
    }
}

/// The mean distance is at least one and at most the diameter: the sum of
/// the distances lies between the number of pairs and that number times the
/// greatest distance.
pub proof fn lemma_average_between_one_and_diameter(g: Map<u32, Seq<u32>>)
    ensures
        pair_count(g) <= total_distance(g) <= greatest_distance(g) * pair_count(g),
{
    let far = greatest_distance(g);
    let fw = source_pair_counts(g);
    let fd = source_distance_sums(g);
    let fw_far = |s: u32| far * fw(s);
    assert forall|s: u32| #[trigger] fw(s) <= fd(s) && fd(s) <= fw_far(s) by {
        if g.contains_key(s) {
            lemma_greatest_distance_exists(g);
            let w = weights_from(g, s);
            let d = distances_from(g, s);
            let w_far = |v: u32| far * w(v);
            assert forall|v: u32| #[trigger] w(v) <= d(v) && d(v) <= w_far(v) by {
                if v != s && reachable(g, s, v) {
                    lemma_distance_zero(g, s, v);
                    assert(far * 1 == far) by (nonlinear_arith);
                } else {
                    assert(far * 0 == 0) by (nonlinear_arith);
                }
            }
            lemma_sum_below_monotone(w, d, vertex_count());
            lemma_sum_below_monotone(d, w_far, vertex_count());
            lemma_sum_below_scaled(w, w_far, far, vertex_count());
        } else {
            assert(far * 0 == 0) by (nonlinear_arith);
        }
    }
    lemma_sum_below_monotone(fw, fd, vertex_count());
    lemma_sum_below_monotone(fd, fw_far, vertex_count());
    lemma_sum_below_scaled(fw, fw_far, far, vertex_count());
}

} // verus!
