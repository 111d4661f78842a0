//! Sums of a quantity over all vertex identifiers, and over lists of
//! vertices.

use crate::graph::vertex_count;
use vstd::prelude::*;

verus! {

/// The sum of `f` over the vertex identifiers below `n`.
pub open spec fn sum_below(f: spec_fn(u32) -> nat, n: nat) -> nat
    decreases n,
{
    if n == 0 {
        0
    } else {
        sum_below(f, (n - 1) as nat) + f((n - 1) as u32)
    }
}

/// The sum of `f` over all vertex identifiers.
pub open spec fn sum_over_vertices(f: spec_fn(u32) -> nat) -> nat {
    sum_below(f, vertex_count())
}

/// The sum of `f` over the vertices of a list, counted as often as listed.
pub open spec fn sum_listed(f: spec_fn(u32) -> nat, vs: Seq<u32>) -> nat
    decreases vs.len(),
{
    if vs.len() == 0 {
        0
    } else {
        sum_listed(f, vs.drop_last()) + f(vs.last())
    }
}

/// Two quantities that agree on every vertex but `x` have sums that differ
/// by what they differ at `x`.
proof fn lemma_sum_below_differs_at(
    f1: spec_fn(u32) -> nat,
    f2: spec_fn(u32) -> nat,
    x: u32,
    n: nat,
)
    requires
        n <= vertex_count(),
        forall|v: u32| v != x ==> #[trigger] f1(v) == f2(v),
    ensures
        sum_below(f1, n) + (if x < n {
            f2(x)
        } else {
            0
        }) == sum_below(f2, n) + (if x < n {
            f1(x)
        } else {
            0
        }),
    decreases n,
{
    if n > 0 {
        lemma_sum_below_differs_at(f1, f2, x, (n - 1) as nat);
    }
}

/// A quantity that is zero everywhere sums to zero.
pub proof fn lemma_sum_below_zero(f: spec_fn(u32) -> nat, n: nat)
    requires
        forall|v: u32| #[trigger] f(v) == 0,
    ensures
        sum_below(f, n) == 0,
    decreases n,
{
    if n > 0 {
        lemma_sum_below_zero(f, (n - 1) as nat);
    }
}

/// Two quantities that agree on the vertices of a list have the same sum
/// over it.
pub proof fn lemma_sum_listed_pointwise(
    f1: spec_fn(u32) -> nat,
    f2: spec_fn(u32) -> nat,
    vs: Seq<u32>,
)
    requires
        forall|i: int| 0 <= i < vs.len() ==> f1(#[trigger] vs[i]) == f2(vs[i]),
    ensures
        sum_listed(f1, vs) == sum_listed(f2, vs),
    decreases vs.len(),
{
    if vs.len() > 0 {
        let rest = vs.drop_last();
        lemma_sum_listed_pointwise(f1, f2, rest);
    }
}

/// The sum over the first `i + 1` vertices of a list is the sum over the
/// first `i` plus the quantity at the next vertex.
pub proof fn lemma_sum_listed_next(f: spec_fn(u32) -> nat, vs: Seq<u32>, i: int)
    requires
        0 <= i < vs.len(),
    ensures
        sum_listed(f, vs.take(i + 1)) == sum_listed(f, vs.take(i)) + f(vs[i]),
{
    assert(vs.take(i + 1).drop_last() =~= vs.take(i));
}

/// The sum of a quantity over all vertices is its sum over any list that
/// names each vertex at most once and every vertex where the quantity is
/// not zero.
pub proof fn lemma_sum_over_support(f: spec_fn(u32) -> nat, vs: Seq<u32>)
    requires
        vs.no_duplicates(),
        forall|v: u32| !vs.contains(v) ==> #[trigger] f(v) == 0,
    ensures
        sum_over_vertices(f) == sum_listed(f, vs),
    decreases vs.len(),
{
    if vs.len() == 0 {
        lemma_sum_below_zero(f, vertex_count());
    } else {
        let rest = vs.drop_last();
        let x = vs.last();
        let f_rest = |v: u32|
            if v == x {
                0nat
            } else {
                f(v)
            };
        assert forall|v: u32| !rest.contains(v) implies #[trigger] f_rest(v) == 0 by {
            if v != x {
                if vs.contains(v) {
                    let i = choose|i: int| 0 <= i < vs.len() && vs[i] == v;
                    assert(rest[i] == v);
                }
            }
        }
        lemma_sum_over_support(f_rest, rest);
        lemma_sum_listed_pointwise(f_rest, f, rest);
        lemma_sum_below_differs_at(f_rest, f, x, vertex_count());
    }
}

/// A sum is at least each of its terms.
pub proof fn lemma_sum_below_term(f: spec_fn(u32) -> nat, n: nat, x: u32)
    requires
        x < n <= vertex_count(),
    ensures
        f(x) <= sum_below(f, n),
    decreases n,
{
    if x < n - 1 {
        lemma_sum_below_term(f, (n - 1) as nat, x);
    }
}

/// A sum is what a running total says it is: the total starts at zero and
/// grows with each vertex by the quantity at that vertex.
pub proof fn lemma_sum_below_running(f: spec_fn(u32) -> nat, total: spec_fn(nat) -> nat, n: nat)
    requires
        total(0) == 0,
        forall|m: nat| 0 < m <= n ==> #[trigger] total(m) == total((m - 1) as nat) + f((m - 1) as u32),
    ensures
        sum_below(f, n) == total(n),
    decreases n,
{
    if n > 0 {
        lemma_sum_below_running(f, total, (n - 1) as nat);
    }
}

/// A quantity that is nowhere greater than another has no greater sum.
pub proof fn lemma_sum_below_monotone(f1: spec_fn(u32) -> nat, f2: spec_fn(u32) -> nat, n: nat)
    requires
        forall|v: u32| #[trigger] f1(v) <= f2(v),
    ensures
        sum_below(f1, n) <= sum_below(f2, n),
    decreases n,
{
    if n > 0 {
        lemma_sum_below_monotone(f1, f2, (n - 1) as nat);
    }
}

/// The sum of a multiple of a quantity is that multiple of its sum.
pub proof fn lemma_sum_below_scaled(
    f: spec_fn(u32) -> nat,
    scaled: spec_fn(u32) -> nat,
    factor: nat,
    n: nat,
)
    requires
        forall|v: u32| #[trigger] scaled(v) == factor * f(v),
    ensures
        sum_below(scaled, n) == factor * sum_below(f, n),
    decreases n,
{
    if n > 0 {
        lemma_sum_below_scaled(f, scaled, factor, (n - 1) as nat);
        let rest = sum_below(f, (n - 1) as nat);
        let term = f((n - 1) as u32);
        assert(factor * (rest + term) == factor * rest + factor * term) by (nonlinear_arith);
    } else {
        assert(factor * 0 == 0) by (nonlinear_arith);
    }
}

} // verus!
