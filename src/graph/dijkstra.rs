//! Shortest paths that settle the closest pending node first. Pending nodes
//! are kept as `(distance, node)` entries in a vector; an entry whose
//! distance has since improved is skipped when it comes up.

use super::{edges_ok, graph, lemma_total_nonneg, lemma_total_update, lemma_walk_start, lemma_walk_step, reaches, total};
use vstd::prelude::*;

verus! {

/// Distance of a node that cannot be reached.
pub const INF: i32 = 1073741823;

/// Takes out an entry of least distance.
pub fn pop_min(heap: &mut Vec<(i32, usize)>) -> (r: (i32, usize))
    requires
        old(heap)@.len() > 0,
    ensures
        old(heap)@.contains(r),
        final(heap)@.len() == old(heap)@.len() - 1,
        forall|y: (i32, usize)| y != r && old(heap)@.contains(y) ==> final(heap)@.contains(y),
        forall|y: (i32, usize)| final(heap)@.contains(y) ==> old(heap)@.contains(y),
        forall|j: int| 0 <= j < old(heap)@.len() ==> r.0 <= (#[trigger] old(heap)@[j]).0,
{
    let ghost h0 = heap@;
    let mut best: usize = 0;
    let mut j: usize = 1;
    while j < heap.len()
        invariant
            heap@ == h0,
            1 <= j <= h0.len(),
            best < j,
            forall|k: int| 0 <= k < j ==> h0[best as int].0 <= (#[trigger] h0[k]).0,
        decreases h0.len() - j,
    {
        if heap[j].0 < heap[best].0 {
            best = j;
        }
        j += 1;
    }
    let r = heap.swap_remove(best);
    proof {
        let h1 = heap@;
        assert(h0[best as int] == r);
        assert forall|y: (i32, usize)| y != r && h0.contains(y) implies h1.contains(y) by {
            let k = choose|k: int| 0 <= k < h0.len() && h0[k] == y;
            if k == h0.len() - 1 {
                assert(h1[best as int] == y);
            } else {
                assert(h1[k] == y);
            }
        }
        assert forall|y: (i32, usize)| h1.contains(y) implies h0.contains(y) by {
            let k = choose|k: int| 0 <= k < h1.len() && h1[k] == y;
            if k == best {
                assert(h0[h0.len() - 1] == y);
            } else {
                assert(h0[k] == y);
            }
        }
    }
    r
}

/// Distances from `start` over the `n` nodes of `map`, `INF` where no walk
/// shorter than `INF` leads. Each distance below `INF` is the weight of a
/// walk, and no edge leads to a shorter one.
pub fn dijkstra(map: &Vec<Vec<(usize, i32)>>, start: usize, n: usize) -> (dis: Vec<i32>)
    requires
        start < n,
        map@.len() == n,
        edges_ok(graph(map)),
    ensures
        dis@.len() == n,
        dis@[start as int] == 0,
        forall|v: int| 0 <= v < n ==> 0 <= #[trigger] dis@[v] <= INF,
        forall|v: int| 0 <= v < n && dis@[v] < INF ==> reaches(graph(map), start as int, v, #[trigger] dis@[v] as int),
        forall|u: int, e: int|
            0 <= u < n && 0 <= e < graph(map)[u].len() && dis@[u] < INF ==> dis@[(#[trigger] graph(map)[u][e]).0 as int]
                <= dis@[u] + graph(map)[u][e].1,
{
    let ghost g = graph(map);
    let mut dis: Vec<i32> = Vec::new();
    let mut i: usize = 0;
    while i < n
        invariant
            i <= n,
            dis@ == Seq::new(i as nat, |j: int| INF),
        decreases n - i,
    {
        dis.push(INF);
        i += 1;
        assert(dis@ =~= Seq::new(i as nat, |j: int| INF));
    }
    let mut heap: Vec<(i32, usize)> = Vec::new();
    heap.push((0, start));
    dis.set(start, 0);
    proof {
        lemma_walk_start(g, start as int);
        assert(heap@[0] == (0i32, start));
    }
    loop
        invariant
            g == graph(map),
            edges_ok(g),
            n == map@.len(),
            start < n,
            dis@.len() == n,
            dis@[start as int] == 0,
            forall|v: int| 0 <= v < n ==> 0 <= #[trigger] dis@[v] <= INF,
            forall|q: int| 0 <= q < heap@.len() ==> (#[trigger] heap@[q]).1 < n,
            forall|v: int| 0 <= v < n && dis@[v] < INF ==> reaches(g, start as int, v, #[trigger] dis@[v] as int),
            forall|u: int, e: int|
                0 <= u < n && 0 <= e < g[u].len() && dis@[u] < INF && dis@[(#[trigger] g[u][e]).0 as int] > dis@[u]
                    + g[u][e].1 ==> heap@.contains((dis@[u], u as usize)),
        ensures
            dis@.len() == n,
            dis@[start as int] == 0,
            forall|v: int| 0 <= v < n ==> 0 <= #[trigger] dis@[v] <= INF,
            forall|v: int| 0 <= v < n && dis@[v] < INF ==> reaches(g, start as int, v, #[trigger] dis@[v] as int),
            forall|u: int, e: int|
                0 <= u < n && 0 <= e < g[u].len() && dis@[u] < INF ==> dis@[(#[trigger] g[u][e]).0 as int] <= dis@[u]
                    + g[u][e].1,
        decreases total(dis@), heap@.len(),
    {
        proof {
            lemma_total_nonneg(dis@);
        }
        if heap.len() == 0 {
            proof {
                assert forall|u: int, e: int|
                    0 <= u < n && 0 <= e < g[u].len() && dis@[u] < INF implies dis@[(#[trigger] g[u][e]).0 as int]
                    <= dis@[u] + g[u][e].1 by {
                    if dis@[g[u][e].0 as int] > dis@[u] + g[u][e].1 {
                        assert(heap@.contains((dis@[u], u as usize)));
                    }
                }
            }
            break;
        }
        let ghost ha = heap@;
        let (d, x) = pop_min(&mut heap);
        let ghost s0 = total(dis@);
        let ghost q0 = heap@.len();
        proof {
            let k = choose|k: int| 0 <= k < ha.len() && ha[k] == (d, x);
            assert(ha[k].1 < n);
            assert forall|q: int| 0 <= q < heap@.len() implies (#[trigger] heap@[q]).1 < n by {
                assert(heap@.contains(heap@[q]));
                assert(ha.contains(heap@[q]));
            }
        }
        if d == dis[x] {
            let edges = &map[x];
            proof {
                assert(edges@ == g[x as int]);
            }
            let mut i: usize = 0;
            while i < edges.len()
                invariant
                    g == graph(map),
                    edges_ok(g),
                    edges@ == g[x as int],
                    n == map@.len(),
                    x < n,
                    start < n,
                    dis@.len() == n,
                    i <= edges@.len(),
                    dis@[start as int] == 0,
                    dis@[x as int] == d,
                    forall|v: int| 0 <= v < n ==> 0 <= #[trigger] dis@[v] <= INF,
                    forall|q: int| 0 <= q < heap@.len() ==> (#[trigger] heap@[q]).1 < n,
                    forall|v: int| 0 <= v < n && dis@[v] < INF ==> reaches(g, start as int, v, #[trigger] dis@[v] as int),
                    forall|u: int, e: int|
                        0 <= u < n && 0 <= e < g[u].len() && dis@[u] < INF && dis@[(#[trigger] g[u][e]).0 as int] > dis@[u]
                            + g[u][e].1 ==> heap@.contains((dis@[u], u as usize)) || (u == x && e >= i),
                    total(dis@) < s0 || (total(dis@) == s0 && heap@.len() == q0),
                decreases edges@.len() - i,
            {
                let (v, w) = edges[i];
                proof {
                    assert(g[x as int][i as int] == (v, w));
                }
                let nd: i64 = dis[x] as i64 + w as i64;
                if nd < dis[v] as i64 {
                    let ghost before = dis@;
                    let ghost hb = heap@;
                    dis.set(v, nd as i32);
                    heap.push((nd as i32, v));
                    proof {
                        lemma_total_update(before, v as int, nd as i32);
                        lemma_walk_step(g, start as int, x as int, i as int, before[x as int] as int);
                        assert(heap@ =~= hb.push((nd as i32, v)));
                        assert(heap@[hb.len() as int] == (nd as i32, v));
                        assert forall|y: (i32, usize)| hb.contains(y) implies heap@.contains(y) by {
                            let k = choose|k: int| 0 <= k < hb.len() && hb[k] == y;
                            assert(heap@[k] == y);
                        }
                        assert forall|q: int| 0 <= q < heap@.len() implies (#[trigger] heap@[q]).1 < n by {
                            if q < hb.len() {
                                assert(heap@[q] == hb[q]);
                            }
                        }
                    }
                }
                i += 1;
            }
        } else {
            proof {
                assert forall|u: int, e: int|
                    0 <= u < n && 0 <= e < g[u].len() && dis@[u] < INF && dis@[(#[trigger] g[u][e]).0 as int] > dis@[u]
                        + g[u][e].1 implies heap@.contains((dis@[u], u as usize)) by {
                    assert(ha.contains((dis@[u], u as usize)));
                }
            }
        }
        proof {
            lemma_total_nonneg(dis@);
        }
    }
    proof {
        assert forall|u: int, e: int|
            0 <= u < n && 0 <= e < graph(map)[u].len() && dis@[u] < INF implies dis@[(
            #[trigger] graph(map)[u][e]).0 as int] <= dis@[u] + graph(map)[u][e].1 by {
            assert(g[u][e] == graph(map)[u][e]);
        }
    }
    dis
}

} // verus!
