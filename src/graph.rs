//! Single-source shortest paths over adjacency lists with non-negative
//! `i32` weights: each list holds `(target, weight)` pairs.

pub mod dijkstra;
pub mod spfa;

use vstd::prelude::*;

verus! {

/// The adjacency lists as sequences.
pub open spec fn graph(maps: &Vec<Vec<(usize, i32)>>) -> Seq<Seq<(usize, i32)>> {
    maps@.map_values(|r: Vec<(usize, i32)>| r@)
}

/// Every edge targets a node of the graph and has a non-negative weight.
pub open spec fn edges_ok(g: Seq<Seq<(usize, i32)>>) -> bool {
    forall|u: int, e: int|
        0 <= u < g.len() && 0 <= e < g[u].len() ==> (#[trigger] g[u][e]).0 < g.len() && g[u][e].1 >= 0
}

/// Some walk of at most `k` edges leads from `c` to `v` with total weight `d`.
pub open spec fn has_walk(g: Seq<Seq<(usize, i32)>>, c: int, v: int, d: int, k: nat) -> bool
    decreases k,
{
    if k == 0 {
        v == c && d == 0
    } else {
        has_walk(g, c, v, d, (k - 1) as nat) || exists|u: int, e: int|
            0 <= u < g.len() && 0 <= e < g[u].len() && #[trigger] g[u][e].0 == v && has_walk(
                g,
                c,
                u,
                d - g[u][e].1,
                (k - 1) as nat,
            )
    }
}

/// `d` is the weight of some walk from `c` to `v`.
pub open spec fn reaches(g: Seq<Seq<(usize, i32)>>, c: int, v: int, d: int) -> bool {
    exists|k: nat| has_walk(g, c, v, d, k)
}

/// Sum of the entries.
pub open spec fn total(s: Seq<i32>) -> int
    decreases s.len(),
{
    if s.len() == 0 {
        0
    } else {
        total(s.drop_last()) + s.last()
    }
}

pub proof fn lemma_total_update(s: Seq<i32>, i: int, x: i32)
    requires
        0 <= i < s.len(),
    ensures
        total(s.update(i, x)) == total(s) - s[i] + x,
    decreases s.len(),
{
    if i < s.len() - 1 {
        assert(s.update(i, x).drop_last() =~= s.drop_last().update(i, x));
        lemma_total_update(s.drop_last(), i, x);
    } else {
        assert(s.update(i, x).drop_last() =~= s.drop_last());
    }
}

pub proof fn lemma_total_nonneg(s: Seq<i32>)
    requires
        forall|i: int| 0 <= i < s.len() ==> s[i] >= 0,
    ensures
        total(s) >= 0,
    decreases s.len(),
{
    if s.len() > 0 {
        lemma_total_nonneg(s.drop_last());
    }
}

/// A walk to `u` extends along an edge out of `u`.
pub proof fn lemma_walk_step(g: Seq<Seq<(usize, i32)>>, c: int, u: int, e: int, d: int)
    requires
        0 <= u < g.len(),
        0 <= e < g[u].len(),
        reaches(g, c, u, d),
    ensures
        reaches(g, c, g[u][e].0 as int, d + g[u][e].1),
{
    let k = choose|k: nat| has_walk(g, c, u, d, k);
    let v = g[u][e].0 as int;
    assert(has_walk(g, c, u, (d + g[u][e].1) - g[u][e].1, k));
    assert(has_walk(g, c, v, d + g[u][e].1, k + 1));
}

/// The empty walk.
pub proof fn lemma_walk_start(g: Seq<Seq<(usize, i32)>>, c: int)
    ensures
        reaches(g, c, c, 0),
{
    assert(has_walk(g, c, c, 0, 0));
}

} // verus!
