//! Shortest paths by repeated relaxation from a work queue.

use super::{edges_ok, graph, lemma_total_nonneg, lemma_total_update, lemma_walk_start, lemma_walk_step, reaches, total};
use std::collections::VecDeque;
use vstd::prelude::*;

verus! {

/// Distance of a node that cannot be reached.
pub const UNREACHED: i32 = i32::MAX;

/// Distances from `center` to every node, `UNREACHED` where no walk leads.
/// Each finite distance is the weight of a walk, and no edge leads to a
/// shorter one.
pub fn spfa(maps: &Vec<Vec<(usize, i32)>>, center: usize) -> (dis: Vec<i32>)
    requires
        center < maps@.len(),
        edges_ok(graph(maps)),
    ensures
        dis@.len() == maps@.len(),
        dis@[center as int] == 0,
        forall|v: int| 0 <= v < dis@.len() ==> 0 <= #[trigger] dis@[v],
        forall|v: int| 0 <= v < dis@.len() && dis@[v] < UNREACHED ==> reaches(graph(maps), center as int, v, #[trigger] dis@[v] as int),
        forall|u: int, e: int|
            0 <= u < graph(maps).len() && 0 <= e < graph(maps)[u].len() && dis@[u] < UNREACHED ==> dis@[(#[trigger] graph(maps)[u][e]).0 as int]
                <= dis@[u] + graph(maps)[u][e].1,
{
    let ghost g = graph(maps);
    let n = maps.len();
    let mut dis: Vec<i32> = Vec::new();
    let mut vis: Vec<bool> = Vec::new();
    let mut i: usize = 0;
    while i < n
        invariant
            i <= n,
            dis@ == Seq::new(i as nat, |j: int| UNREACHED),
            vis@ == Seq::new(i as nat, |j: int| false),
        decreases n - i,
    {
        dis.push(UNREACHED);
        vis.push(false);
        i += 1;
        assert(dis@ =~= Seq::new(i as nat, |j: int| UNREACHED));
        assert(vis@ =~= Seq::new(i as nat, |j: int| false));
    }
    dis.set(center, 0);
    let mut que: VecDeque<usize> = VecDeque::new();
    que.push_back(center);
    vis.set(center, true);
    proof {
        lemma_walk_start(g, center as int);
        assert(que@ =~= seq![center]);
        assert forall|v: int| 0 <= v < n implies (#[trigger] vis@[v] <==> que@.contains(v as usize)) by {
            if v == center as int {
                assert(que@[0] == center);
            }
            if que@.contains(v as usize) {
                let j = choose|j: int| 0 <= j < que@.len() && que@[j] == v as usize;
                assert(j == 0);
            }
        }
    }
    loop
        invariant
            g == graph(maps),
            edges_ok(g),
            n == maps@.len(),
            center < n,
            dis@.len() == n,
            vis@.len() == n,
            dis@[center as int] == 0,
            forall|v: int| 0 <= v < n ==> 0 <= #[trigger] dis@[v],
            forall|v: int| 0 <= v < n ==> (#[trigger] vis@[v] <==> que@.contains(v as usize)),
            que@.no_duplicates(),
            forall|q: int| 0 <= q < que@.len() ==> (#[trigger] que@[q] as int) < n && dis@[que@[q] as int] < UNREACHED,
            forall|v: int| 0 <= v < n && dis@[v] < UNREACHED ==> reaches(g, center as int, v, #[trigger] dis@[v] as int),
            forall|u: int, e: int|
                0 <= u < n && 0 <= e < g[u].len() && dis@[u] < UNREACHED && dis@[(#[trigger] g[u][e]).0 as int] > dis@[u]
                    + g[u][e].1 ==> vis@[u],
        ensures
            dis@.len() == n,
            vis@.len() == n,
            dis@[center as int] == 0,
            forall|v: int| 0 <= v < n ==> 0 <= #[trigger] dis@[v],
            forall|v: int| 0 <= v < n && dis@[v] < UNREACHED ==> reaches(g, center as int, v, #[trigger] dis@[v] as int),
            forall|v: int| 0 <= v < n ==> !#[trigger] vis@[v],
            forall|u: int, e: int|
                0 <= u < n && 0 <= e < g[u].len() && dis@[u] < UNREACHED && dis@[(#[trigger] g[u][e]).0 as int] > dis@[u]
                    + g[u][e].1 ==> vis@[u],
        decreases total(dis@), que@.len(),
    {
        proof {
            lemma_total_nonneg(dis@);
        }
        let ghost qa = que@;
        let pos = match que.pop_front() {
            Some(p) => p,
            None => {
                proof {
                    assert(que@.len() == 0);
                    assert forall|v: int| 0 <= v < n implies !#[trigger] vis@[v] by {
                        if vis@[v] {
                            assert(que@.contains(v as usize));
                        }
                    }
                }
                break;
            },
        };
        let ghost s0 = total(dis@);
        let ghost q0 = que@.len();
        vis.set(pos, false);
        proof {
            assert(qa[0] == pos);
            assert(que@ =~= qa.subrange(1, qa.len() as int));
            assert forall|x: int| 0 <= x < n implies (#[trigger] vis@[x] <==> que@.contains(x as usize)) by {
                if que@.contains(x as usize) {
                    let j = choose|j: int| 0 <= j < que@.len() && que@[j] == x as usize;
                    assert(qa[j + 1] == x as usize);
                    assert(qa.contains(x as usize));
                    if x == pos as int {
                        assert(qa[0] == qa[j + 1]);
                    }
                }
                if x != pos as int && qa.contains(x as usize) {
                    let j = choose|j: int| 0 <= j < qa.len() && qa[j] == x as usize;
                    assert(j != 0);
                    assert(que@[j - 1] == x as usize);
                }
            }
            assert forall|q: int| 0 <= q < que@.len() implies (#[trigger] que@[q] as int) < n && dis@[que@[q] as int] < UNREACHED by {
                assert(que@[q] == qa[q + 1]);
            }
        }
        let edges = &maps[pos];
        proof {
            assert(edges@ == g[pos as int]);
        }
        let mut i: usize = 0;
        while i < edges.len()
            invariant
                g == graph(maps),
                edges_ok(g),
                edges@ == g[pos as int],
                n == maps@.len(),
                pos < n,
                center < n,
                dis@.len() == n,
                vis@.len() == n,
                i <= edges@.len(),
                dis@[center as int] == 0,
                dis@[pos as int] < UNREACHED,
                forall|v: int| 0 <= v < n ==> 0 <= #[trigger] dis@[v],
                forall|v: int| 0 <= v < n ==> (#[trigger] vis@[v] <==> que@.contains(v as usize)),
                que@.no_duplicates(),
                forall|q: int| 0 <= q < que@.len() ==> (#[trigger] que@[q] as int) < n && dis@[que@[q] as int] < UNREACHED,
                forall|v: int| 0 <= v < n && dis@[v] < UNREACHED ==> reaches(g, center as int, v, #[trigger] dis@[v] as int),
                forall|u: int, e: int|
                    0 <= u < n && 0 <= e < g[u].len() && dis@[u] < UNREACHED && dis@[(#[trigger] g[u][e]).0 as int] > dis@[u]
                        + g[u][e].1 ==> vis@[u] || (u == pos && e >= i),
                total(dis@) < s0 || (total(dis@) == s0 && que@.len() == q0),
            decreases edges@.len() - i,
        {
            let (v, w) = edges[i];
            proof {
                assert(g[pos as int][i as int] == (v, w));
            }
            let nd: i64 = dis[pos] as i64 + w as i64;
            if nd < dis[v] as i64 {
                let ghost before = dis@;
                dis.set(v, nd as i32);
                proof {
                    lemma_total_update(before, v as int, nd as i32);
                    lemma_walk_step(g, center as int, pos as int, i as int, before[pos as int] as int);
                    assert(v != pos);
                }
                if !vis[v] {
                    let ghost qb = que@;
                    vis.set(v, true);
                    que.push_back(v);
                    proof {
                        assert(que@ =~= qb.push(v));
                        assert forall|x: int| 0 <= x < n implies (#[trigger] vis@[x] <==> que@.contains(x as usize)) by {
                            if que@.contains(x as usize) && x != v as int {
                                let j = choose|j: int| 0 <= j < que@.len() && que@[j] == x as usize;
                                assert(qb[j] == x as usize);
                            }
                            if qb.contains(x as usize) {
                                let j = choose|j: int| 0 <= j < qb.len() && qb[j] == x as usize;
                                assert(que@[j] == x as usize);
                            }
                            if x == v as int {
                                assert(que@[qb.len() as int] == v);
                            }
                        }
                        assert(que@.no_duplicates()) by {
                            assert(!qb.contains(v));
                            assert forall|a: int, b: int| 0 <= a < b < que@.len() implies que@[a] != que@[b] by {
                                if b == qb.len() {
                                    assert(qb.contains(qb[a]));
                                }
                            }
                        }
                    }
                }
            }
            i += 1;
        }
        proof {
            lemma_total_nonneg(dis@);
        }
    }
    proof {
        assert forall|u: int, e: int|
            0 <= u < graph(maps).len() && 0 <= e < graph(maps)[u].len() && dis@[u] < UNREACHED implies dis@[(
            #[trigger] graph(maps)[u][e]).0 as int] <= dis@[u] + graph(maps)[u][e].1 by {
            assert(g == graph(maps));
            assert(0 <= u < n);
            assert(g[u][e] == graph(maps)[u][e]);
            assert(!vis@[u]);
        }
    }
    dis
}

} // verus!
