use vstd::prelude::*;

use crate::errordsa::Error;

verus! {

/// A directed edge, owned by its source vertex's adjacency record.
#[derive(Clone, Copy)]
struct Edge {
    to: usize,
    weight: i32,
}

impl Edge {
    fn new(to: usize, weight: i32) -> (e: Edge)
        ensures
            e.to == to,
            e.weight == weight,
    {
        Edge { to, weight }
    }
}

/// There is an edge from `u` to `v` in the adjacency view `g`.
pub open spec fn edge_to(g: Seq<Seq<(usize, i32)>>, u: int, v: int) -> bool {
    exists|k: int| 0 <= k < g[u].len() && (#[trigger] g[u][k]).0 == v
}

/// `p` walks through `g` from `s` to `d`: it is non-empty, starts at `s`,
/// ends at `d`, stays inside the graph, and each consecutive pair is
/// connected by an edge.
pub open spec fn is_walk(g: Seq<Seq<(usize, i32)>>, p: Seq<usize>, s: int, d: int) -> bool {
    &&& p.len() > 0
    &&& p[0] == s
    &&& p[p.len() - 1] == d
    &&& forall|i: int| 0 <= i < p.len() ==> (#[trigger] p[i]) < g.len()
    &&& forall|i: int| 0 <= i < p.len() - 1 ==> edge_to(g, #[trigger] p[i] as int, p[i + 1] as int)
}

/// Some walk leads from `s` to `d` (for `s == d` the one-vertex walk).
pub open spec fn reachable(g: Seq<Seq<(usize, i32)>>, s: int, d: int) -> bool {
    exists|p: Seq<usize>| is_walk(g, p, s, d)
}

/// `ks` picks, for each step of the vertex walk `p`, the edge taken.
pub open spec fn edge_walk_ok(g: Seq<Seq<(usize, i32)>>, p: Seq<usize>, ks: Seq<int>) -> bool {
    &&& p.len() == ks.len() + 1
    &&& forall|i: int| 0 <= i < p.len() ==> (#[trigger] p[i]) < g.len()
    &&& forall|i: int|
        0 <= i < ks.len() ==> 0 <= #[trigger] ks[i] < g[p[i] as int].len() && g[p[i] as int][ks[i]].0
            == p[i + 1]
}

/// Total weight of the edge walk `(p, ks)`.
pub open spec fn edge_walk_cost(g: Seq<Seq<(usize, i32)>>, p: Seq<usize>, ks: Seq<int>) -> int
    decreases ks.len(),
{
    if ks.len() == 0 {
        0
    } else {
        edge_walk_cost(g, p.drop_last(), ks.drop_last()) + g[p[ks.len() - 1] as int][ks.last()].1
    }
}

/// The edge walk `(p, ks)` leads from `s` to `d`.
pub open spec fn is_ewalk_from(
    g: Seq<Seq<(usize, i32)>>,
    p: Seq<usize>,
    ks: Seq<int>,
    s: int,
    d: int,
) -> bool {
    &&& edge_walk_ok(g, p, ks)
    &&& p.len() > 0
    &&& p[0] == s
    &&& p[p.len() - 1] == d
}

/// With non-negative weights no walk costs less than nothing.
proof fn lemma_ewalk_cost_nonneg(g: Seq<Seq<(usize, i32)>>, p: Seq<usize>, ks: Seq<int>)
    requires
        nonneg_weights(g),
        edge_walk_ok(g, p, ks),
    ensures
        edge_walk_cost(g, p, ks) >= 0,
    decreases ks.len(),
{
    if ks.len() > 0 {
        assert(edge_walk_ok(g, p.drop_last(), ks.drop_last()));
        lemma_ewalk_cost_nonneg(g, p.drop_last(), ks.drop_last());
    }
}

/// Appending one more edge to a walk adds exactly that edge's weight.
proof fn lemma_ewalk_extend(g: Seq<Seq<(usize, i32)>>, p: Seq<usize>, ks: Seq<int>, k: int, v: usize)
    requires
        edge_walk_ok(g, p, ks),
        v < g.len(),
        0 <= k < g[p[p.len() - 1] as int].len(),
        g[p[p.len() - 1] as int][k].0 == v,
    ensures
        edge_walk_ok(g, p.push(v), ks.push(k)),
        edge_walk_cost(g, p.push(v), ks.push(k)) == edge_walk_cost(g, p, ks) + g[p[p.len()
            - 1] as int][k].1,
{
    let p2 = p.push(v);
    let ks2 = ks.push(k);
    assert(p2.drop_last() =~= p);
    assert(ks2.drop_last() =~= ks);
    assert(p2[ks2.len() - 1] == p[p.len() - 1]);
}

/// Prepending an edge to a walk adds exactly that edge's weight.
proof fn lemma_ewalk_prepend(
    g: Seq<Seq<(usize, i32)>>,
    p: Seq<usize>,
    ks: Seq<int>,
    u: usize,
    k: int,
)
    requires
        edge_walk_ok(g, p, ks),
        u < g.len(),
        0 <= k < g[u as int].len(),
        g[u as int][k].0 == p[0],
    ensures
        edge_walk_ok(g, seq![u] + p, seq![k] + ks),
        edge_walk_cost(g, seq![u] + p, seq![k] + ks) == g[u as int][k].1 + edge_walk_cost(g, p, ks),
    decreases ks.len(),
{
    let p2 = seq![u] + p;
    let ks2 = seq![k] + ks;
    assert(edge_walk_ok(g, p2, ks2));
    if ks.len() == 0 {
        assert(p2[ks2.len() - 1] == u);
        assert(edge_walk_cost(g, p2.drop_last(), ks2.drop_last()) == 0);
    } else {
        assert(edge_walk_ok(g, p.drop_last(), ks.drop_last()));
        lemma_ewalk_prepend(g, p.drop_last(), ks.drop_last(), u, k);
        assert(p2.drop_last() =~= seq![u] + p.drop_last());
        assert(ks2.drop_last() =~= seq![k] + ks.drop_last());
        assert(p2[ks2.len() - 1] == p[ks.len() - 1]);
    }
}

/// Every edge weight in `g` is non-negative: the documented precondition
/// of the cheapest-path query.
pub open spec fn nonneg_weights(g: Seq<Seq<(usize, i32)>>) -> bool {
    forall|u: int, k: int|
        0 <= u < g.len() && 0 <= k < g[u].len() ==> (#[trigger] g[u][k]).1 >= 0
}

/// Vertex `v` was relaxed tight through some edge out of `u`.
spec fn chain_step(g: Seq<Seq<(usize, i32)>>, t: Seq<DijkstraTableItem>, u: int, v: int) -> bool {
    exists|k: int|
        0 <= k < g[u].len() && (#[trigger] g[u][k]).0 as int == v && t[v].dist as int == t[u].dist
            + g[u][k].1
}

/// Every consecutive pair of the backwards chain is a tight relaxation.
spec fn chain_linked(g: Seq<Seq<(usize, i32)>>, t: Seq<DijkstraTableItem>, chain: Seq<usize>) -> bool {
    forall|i: int|
        0 <= i < chain.len() - 1 ==> chain_step(g, t, chain[i + 1] as int, #[trigger] chain[i] as int)
}

/// A backwards chain of tight relaxations reverses into an edge walk
/// whose total weight telescopes to the distance difference of its ends.
proof fn lemma_chain_ewalk(g: Seq<Seq<(usize, i32)>>, t: Seq<DijkstraTableItem>, chain: Seq<usize>)
    requires
        t.len() == g.len(),
        chain.len() >= 1,
        forall|i: int| 0 <= i < chain.len() ==> (#[trigger] chain[i]) < g.len(),
        chain_linked(g, t, chain),
    ensures
        exists|ks: Seq<int>|
            is_ewalk_from(
                g,
                chain.reverse(),
                ks,
                chain[chain.len() - 1] as int,
                chain[0] as int,
            ) && edge_walk_cost(g, chain.reverse(), ks) == t[chain[0] as int].dist - t[chain[
                chain.len() - 1
            ] as int].dist,
    decreases chain.len(),
{
    if chain.len() == 1 {
        let ks = Seq::<int>::empty();
        assert(chain.reverse() =~= seq![chain[0]]);
        assert(edge_walk_ok(g, chain.reverse(), ks));
        assert(edge_walk_cost(g, chain.reverse(), ks) == 0);
        assert(is_ewalk_from(g, chain.reverse(), ks, chain[0] as int, chain[0] as int));
    } else {
        let sub = chain.drop_last();
        let u = chain[chain.len() - 1];
        assert(chain_linked(g, t, sub)) by {
            assert forall|i: int|
                0 <= i < sub.len() - 1 implies chain_step(g, t, sub[i + 1] as int, #[trigger] sub[
                i
            ] as int) by {
                assert(chain_step(g, t, chain[i + 1] as int, chain[i] as int));
            }
        }
        lemma_chain_ewalk(g, t, sub);
        let ks0 = choose|ks0: Seq<int>|
            is_ewalk_from(g, sub.reverse(), ks0, sub[sub.len() - 1] as int, sub[0] as int)
                && edge_walk_cost(g, sub.reverse(), ks0) == t[sub[0] as int].dist - t[sub[sub.len()
                - 1] as int].dist;
        assert(chain_step(g, t, chain[chain.len() - 1] as int, chain[chain.len() - 2] as int));
        let k = choose|k: int|
            0 <= k < g[u as int].len() && (#[trigger] g[u as int][k]).0 as int == chain[chain.len()
                - 2] as int && t[chain[chain.len() - 2] as int].dist as int == t[u as int].dist
                + g[u as int][k].1;
        assert(sub.reverse()[0] == sub[sub.len() - 1]);
        assert(sub[sub.len() - 1] == chain[chain.len() - 2]);
        lemma_ewalk_prepend(g, sub.reverse(), ks0, u, k);
        assert(chain.reverse() =~= seq![u] + sub.reverse());
        let ks = seq![k] + ks0;
        assert(is_ewalk_from(g, chain.reverse(), ks, chain[chain.len() - 1] as int, chain[0] as int));
        assert(edge_walk_cost(g, chain.reverse(), ks) == t[chain[0] as int].dist - t[chain[
            chain.len() - 1
        ] as int].dist);
    }
}

/// The reversed relaxation chain is a walk of the recorded cost.
proof fn lemma_build_path_post(
    g: Seq<Seq<(usize, i32)>>,
    t: Seq<DijkstraTableItem>,
    chain: Seq<usize>,
    added: Seq<usize>,
    src: int,
    dest: int,
)
    requires
        t.len() == g.len(),
        chain.len() >= 1,
        forall|i: int| 0 <= i < chain.len() ==> (#[trigger] chain[i]) < g.len(),
        chain_linked(g, t, chain),
        chain[0] == dest,
        chain[chain.len() - 1] as int == src,
        added == chain.reverse(),
    ensures
        is_walk(g, added, src, dest),
        exists|ks: Seq<int>|
            is_ewalk_from(g, added, ks, src, dest) && edge_walk_cost(g, added, ks) == t[dest].dist
                - t[src].dist,
{
    lemma_chain_ewalk(g, t, chain);
    let ks = choose|ks: Seq<int>|
        is_ewalk_from(g, chain.reverse(), ks, chain[chain.len() - 1] as int, chain[0] as int)
            && edge_walk_cost(g, chain.reverse(), ks) == t[chain[0] as int].dist - t[chain[
            chain.len() - 1
        ] as int].dist;
    assert(is_ewalk_from(g, added, ks, src, dest));
    assert(is_walk(g, added, src, dest)) by {
        assert forall|idx: int| 0 <= idx < added.len() - 1 implies edge_to(
            g,
            #[trigger] added[idx] as int,
            added[idx + 1] as int,
        ) by {
            assert(0 <= ks[idx] < g[added[idx] as int].len() && g[added[idx] as int][ks[idx]].0
                == added[idx + 1]);
        }
    }
}

/// Law: any two costs that are both achieved by some walk and undercut
/// by none are the same cost. With `dijkstra_shortest_path`'s contract
/// this pins the reported cost: asking again with the graph unchanged
/// must produce the same number.
pub proof fn lemma_cheapest_cost_unique(
    g: Seq<Seq<(usize, i32)>>,
    s: int,
    d: int,
    c1: int,
    c2: int,
)
    requires
        exists|p: Seq<usize>, ks: Seq<int>|
            #[trigger] is_ewalk_from(g, p, ks, s, d) && edge_walk_cost(g, p, ks) == c1,
        forall|p: Seq<usize>, ks: Seq<int>|
            #[trigger] is_ewalk_from(g, p, ks, s, d) ==> edge_walk_cost(g, p, ks) >= c1,
        exists|p: Seq<usize>, ks: Seq<int>|
            #[trigger] is_ewalk_from(g, p, ks, s, d) && edge_walk_cost(g, p, ks) == c2,
        forall|p: Seq<usize>, ks: Seq<int>|
            #[trigger] is_ewalk_from(g, p, ks, s, d) ==> edge_walk_cost(g, p, ks) >= c2,
    ensures
        c1 == c2,
{
}

/// When the minimum of a sound, covering queue names a pending vertex,
/// the entry's key is that vertex's current distance, and no walk to it
/// is cheaper: the popped vertex may be finalized.
proof fn lemma_pop_optimal(
    g: Seq<Seq<(usize, i32)>>,
    src: int,
    t: Seq<DijkstraTableItem>,
    hops: Seq<nat>,
    q: Seq<DijkstraHeapItem>,
)
    requires
        nonneg_weights(g),
        dij_table_ok(g, src, t, hops),
        dij_relaxed(g, t),
        dij_queue_ok(g, t, q),
        crate::heap::min_heap_le(q),
        q.len() > 0,
        !t[q[0].index as int].seen,
    ensures
        q[0].dist == t[q[0].index as int].dist,
        forall|p: Seq<usize>, ks: Seq<int>|
            #[trigger] is_ewalk_from(g, p, ks, src, q[0].index as int) ==> edge_walk_cost(g, p, ks)
                >= t[q[0].index as int].dist as int,
{
    reveal(dij_table_ok);
    reveal(dij_queue_ok);
    let current = q[0].index as int;
    assert(q.contains(q[0]));
    assert(t[current].dist <= q[0].dist && q[0].dist < u64::MAX);
    let cover = DijkstraHeapItem { index: q[0].index, dist: t[current].dist };
    assert(q.contains(cover));
    let ci = choose|ci: int| 0 <= ci < q.len() && q[ci] == cover;
    crate::heap::lemma_min_root(q, ci);
    assert(q[0].dist == t[current].dist);
    assert forall|p: Seq<usize>, ks: Seq<int>|
        #[trigger] is_ewalk_from(g, p, ks, src, current) implies edge_walk_cost(g, p, ks) >= t[
        current
    ].dist as int by {
        if edge_walk_cost(g, p, ks) < u64::MAX as int {
            assert(p[p.len() - 1] as int == current);
            lemma_dij_crossing(g, src, t, hops, p, ks);
            let y = choose|y: int|
                0 <= y < g.len() && !(#[trigger] t[y]).seen && t[y].dist as int <= edge_walk_cost(
                    g,
                    p,
                    ks,
                );
            let ycover = DijkstraHeapItem { index: y as usize, dist: t[y].dist };
            assert(q.contains(ycover));
            let yi = choose|yi: int| 0 <= yi < q.len() && q[yi] == ycover;
            crate::heap::lemma_min_root(q, yi);
        }
    }
}

/// What deleting vertex `removed` does to one adjacency record: edges to
/// `removed` disappear, edges past it have their destination renumbered
/// down by one, the rest stay, in order.
pub open spec fn shift_edges(row: Seq<(usize, i32)>, removed: int) -> Seq<(usize, i32)>
    decreases row.len(),
{
    if row.len() == 0 {
        Seq::<(usize, i32)>::empty()
    } else {
        let rest = shift_edges(row.drop_last(), removed);
        let e = row.last();
        if e.0 == removed {
            rest
        } else if e.0 > removed {
            rest.push((((e.0 - 1) as usize), e.1))
        } else {
            rest.push(e)
        }
    }
}

/// `shift_edges` keeps every destination strictly below `n - 1` when the
/// record was well formed for `n` vertices.
proof fn lemma_shift_edges_wf(row: Seq<(usize, i32)>, removed: int, n: int)
    requires
        0 <= removed < n,
        forall|k: int| 0 <= k < row.len() ==> (#[trigger] row[k]).0 < n,
    ensures
        forall|k: int|
            0 <= k < shift_edges(row, removed).len() ==> (#[trigger] shift_edges(row, removed)[k]).0
                < n - 1,
    decreases row.len(),
{
    if row.len() > 0 {
        assert(forall|k: int|
            0 <= k < row.drop_last().len() ==> (#[trigger] row.drop_last()[k]).0 < n);
        lemma_shift_edges_wf(row.drop_last(), removed, n);
        let rest = shift_edges(row.drop_last(), removed);
        assert(row[row.len() - 1].0 < n);
        assert forall|k: int| 0 <= k < shift_edges(row, removed).len() implies (
        #[trigger] shift_edges(row, removed)[k]).0 < n - 1 by {
            if k < rest.len() {
                assert(rest[k].0 < n - 1);
            }
        }
    }
}

/// Every edge out of `v` leads to a vertex marked in `sn`.
pub open spec fn closed_at(g: Seq<Seq<(usize, i32)>>, sn: Seq<bool>, v: int) -> bool {
    forall|k: int| 0 <= k < g[v].len() ==> sn[(#[trigger] g[v][k]).0 as int]
}

/// Every edge out of `v` leads to a marked vertex at most one layer
/// deeper.
pub open spec fn closed_depth(
    g: Seq<Seq<(usize, i32)>>,
    sn: Seq<bool>,
    depth: Seq<nat>,
    v: int,
) -> bool {
    forall|k: int|
        0 <= k < g[v].len() ==> sn[(#[trigger] g[v][k]).0 as int] && depth[(g[v][k]).0 as int]
            <= depth[v] + 1
}

/// During a breadth-first sweep, any walk that ends outside the marked
/// set must pass through the frontier, so it spends more than `dlo`
/// edges when every queued vertex already sits at layer `dlo` or deeper.
proof fn lemma_bfs_lower_bound(
    g: Seq<Seq<(usize, i32)>>,
    sn: Seq<bool>,
    depth: Seq<nat>,
    qs: Seq<usize>,
    src: int,
    p: Seq<usize>,
    dlo: nat,
)
    requires
        sn.len() == g.len(),
        depth.len() == g.len(),
        0 <= src < g.len(),
        sn[src],
        is_walk(g, p, src, p[p.len() - 1] as int),
        !sn[p[p.len() - 1] as int],
        forall|v: int, w: Seq<usize>|
            0 <= v < g.len() && sn[v] && #[trigger] is_walk(g, w, src, v) ==> w.len() - 1
                >= depth[v],
        forall|u: int|
            0 <= u < g.len() && sn[u] && !qs.contains(u as usize) ==> closed_depth(
                g,
                sn,
                depth,
                u,
            ),
        forall|i: int|
            0 <= i < qs.len() ==> (#[trigger] qs[i]) < g.len() && sn[qs[i] as int] && depth[qs[i] as int]
                >= dlo,
    ensures
        p.len() >= dlo + 2,
    decreases p.len(),
{
    assert(p.len() >= 2);
    let d = p[p.len() - 1] as int;
    let u = p[p.len() - 2] as int;
    let q = p.drop_last();
    assert(is_walk(g, q, src, u)) by {
        assert(forall|i: int| 0 <= i < q.len() ==> (#[trigger] q[i]) < g.len());
        assert(forall|i: int|
            0 <= i < q.len() - 1 ==> edge_to(g, #[trigger] q[i] as int, q[i + 1] as int));
    }
    if sn[u] {
        if !qs.contains(u as usize) {
            assert(edge_to(g, u, d));
            let k = choose|k: int| 0 <= k < g[u].len() && (#[trigger] g[u][k]).0 == d as usize;
            assert(sn[g[u][k].0 as int]);
            assert(false);
        }
        let idx = choose|idx: int| 0 <= idx < qs.len() && qs[idx] == u as usize;
        assert(depth[qs[idx] as int] >= dlo);
        assert(q.len() - 1 >= depth[u]);
    } else {
        lemma_bfs_lower_bound(g, sn, depth, qs, src, q, dlo);
    }
}

/// How many entries of `s` are still false.
pub open spec fn count_false(s: Seq<bool>) -> nat
    decreases s.len(),
{
    if s.len() == 0 {
        0
    } else {
        count_false(s.drop_last()) + (if s.last() {
            0nat
        } else {
            1nat
        })
    }
}

/// Marking entries only lowers the count of unmarked ones.
proof fn lemma_count_false_le(s: Seq<bool>, t: Seq<bool>)
    requires
        s.len() == t.len(),
        forall|i: int| 0 <= i < s.len() && s[i] ==> t[i],
    ensures
        count_false(t) <= count_false(s),
    decreases s.len(),
{
    if s.len() > 0 {
        assert(forall|i: int|
            0 <= i < s.drop_last().len() && s.drop_last()[i] ==> t.drop_last()[i]);
        lemma_count_false_le(s.drop_last(), t.drop_last());
    }
}

/// Marking at least one fresh entry strictly lowers the count.
proof fn lemma_count_false_lt(s: Seq<bool>, t: Seq<bool>, c: int)
    requires
        s.len() == t.len(),
        forall|i: int| 0 <= i < s.len() && s[i] ==> t[i],
        0 <= c < s.len(),
        !s[c],
        t[c],
    ensures
        count_false(t) < count_false(s),
    decreases s.len(),
{
    assert(forall|i: int| 0 <= i < s.drop_last().len() && s.drop_last()[i] ==> t.drop_last()[i]);
    if c == s.len() - 1 {
        lemma_count_false_le(s.drop_last(), t.drop_last());
    } else {
        lemma_count_false_lt(s.drop_last(), t.drop_last(), c);
    }
}

/// A set of marked vertices that contains `s` and is closed under edges
/// contains everything a walk from `s` can reach.
proof fn lemma_walk_stays_seen(g: Seq<Seq<(usize, i32)>>, p: Seq<usize>, sn: Seq<bool>, s: int, d: int)
    requires
        is_walk(g, p, s, d),
        sn.len() == g.len(),
        sn[s],
        forall|v: int| 0 <= v < g.len() && sn[v] ==> closed_at(g, sn, v),
    ensures
        sn[d],
    decreases p.len(),
{
    if p.len() > 1 {
        let q = p.drop_last();
        let w = p[p.len() - 2] as int;
        assert(is_walk(g, q, s, w)) by {
            assert(forall|i: int| 0 <= i < q.len() ==> (#[trigger] q[i]) < g.len());
            assert(forall|i: int|
                0 <= i < q.len() - 1 ==> edge_to(g, #[trigger] q[i] as int, q[i + 1] as int));
        }
        lemma_walk_stays_seen(g, q, sn, s, w);
        assert(edge_to(g, w, d));
        let k = choose|k: int| 0 <= k < g[w].len() && (#[trigger] g[w][k]).0 == d;
        assert(sn[g[w][k].0 as int]);
    }
}

/// The adjacency view of a sequence of stored edges.
spec fn edges_view(v: Seq<Edge>) -> Seq<(usize, i32)> {
    Seq::new(v.len(), |k: int| (v[k].to, v[k].weight))
}

/// Per-vertex working state of the cheapest-path query: best known
/// distance, whether the vertex is finalized, and where it was reached
/// from.
#[derive(Clone, Copy)]
struct DijkstraTableItem {
    dist: u64,
    seen: bool,
    previous: Option<usize>,
}

/// A pending frontier entry: a vertex filed under the distance it had
/// when it was pushed. Entries can go stale; the key is the distance.
#[derive(Clone, Copy)]
struct DijkstraHeapItem {
    index: usize,
    dist: u64,
}

impl crate::order::KeyOrd for DijkstraHeapItem {
    closed spec fn key(self) -> int {
        self.dist as int
    }

    fn lt(&self, other: &Self) -> (r: bool) {
        self.dist < other.dist
    }

    fn le(&self, other: &Self) -> (r: bool) {
        self.dist <= other.dist
    }

    fn key_eq(&self, other: &Self) -> (r: bool) {
        self.dist == other.dist
    }
}

/// How many vertices are not finalized yet.
spec fn count_unseen(t: Seq<DijkstraTableItem>) -> nat
    decreases t.len(),
{
    if t.len() == 0 {
        0
    } else {
        count_unseen(t.drop_last()) + (if t.last().seen {
            0nat
        } else {
            1nat
        })
    }
}

/// Finalizing vertices only lowers the count of pending ones.
proof fn lemma_count_unseen_le(s: Seq<DijkstraTableItem>, t: Seq<DijkstraTableItem>)
    requires
        s.len() == t.len(),
        forall|i: int| 0 <= i < s.len() && (#[trigger] s[i]).seen ==> t[i].seen,
    ensures
        count_unseen(t) <= count_unseen(s),
    decreases s.len(),
{
    if s.len() > 0 {
        assert(forall|i: int|
            0 <= i < s.drop_last().len() && (#[trigger] s.drop_last()[i]).seen
                ==> t.drop_last()[i].seen);
        lemma_count_unseen_le(s.drop_last(), t.drop_last());
    }
}

/// Finalizing a fresh vertex strictly lowers the count of pending ones.
proof fn lemma_count_unseen_lt(s: Seq<DijkstraTableItem>, t: Seq<DijkstraTableItem>, c: int)
    requires
        s.len() == t.len(),
        forall|i: int| 0 <= i < s.len() && (#[trigger] s[i]).seen ==> t[i].seen,
        0 <= c < s.len(),
        !s[c].seen,
        t[c].seen,
    ensures
        count_unseen(t) < count_unseen(s),
    decreases s.len(),
{
    assert(forall|i: int|
        0 <= i < s.drop_last().len() && (#[trigger] s.drop_last()[i]).seen
            ==> t.drop_last()[i].seen);
    if c == s.len() - 1 {
        lemma_count_unseen_le(s.drop_last(), t.drop_last());
    } else {
        lemma_count_unseen_lt(s.drop_last(), t.drop_last(), c);
    }
}

/// Some edge walk from `src` reaches `v` at total weight `c`.
spec fn has_ewalk_cost(g: Seq<Seq<(usize, i32)>>, src: int, v: int, c: int) -> bool {
    exists|p: Seq<usize>, ks: Seq<int>| is_ewalk_from(g, p, ks, src, v) && edge_walk_cost(g, p, ks) == c
}

/// The stable facts about the distance table: the source sits at zero
/// with no predecessor, finite distances are witnessed by walks,
/// finalized vertices are optimal, and every predecessor entry records
/// the edge it came from, with the lexicographic `(dist, hops)` measure
/// strictly decreasing towards the source.
#[verifier::opaque]
spec fn dij_table_ok(
    g: Seq<Seq<(usize, i32)>>,
    src: int,
    t: Seq<DijkstraTableItem>,
    hops: Seq<nat>,
) -> bool {
    &&& t.len() == g.len()
    &&& hops.len() == g.len()
    &&& 0 <= src < g.len()
    &&& t[src].dist == 0
    &&& t[src].previous is None
    &&& forall|v: int|
        0 <= v < g.len() && (#[trigger] t[v]).dist < u64::MAX ==> has_ewalk_cost(
            g,
            src,
            v,
            t[v].dist as int,
        )
    &&& forall|v: int, p: Seq<usize>, ks: Seq<int>|
        0 <= v < g.len() && t[v].seen && #[trigger] is_ewalk_from(g, p, ks, src, v)
            ==> edge_walk_cost(g, p, ks) >= t[v].dist as int
    &&& forall|v: int| 0 <= v < g.len() && (#[trigger] t[v]).seen ==> t[v].dist < u64::MAX
    &&& forall|v: int|
        0 <= v < g.len() && v != src && (#[trigger] t[v]).dist < u64::MAX ==> t[v].previous is Some
    &&& forall|v: int|
        0 <= v < g.len() && (#[trigger] t[v]).previous is Some ==> {
            let u = t[v].previous.unwrap() as int;
            &&& v != src
            &&& 0 <= u < g.len()
            &&& t[u].seen
            &&& (exists|k: int|
                0 <= k < g[u].len() && (#[trigger] g[u][k]).0 as int == v && t[v].dist as int == t[
                    u
                ].dist + g[u][k].1)
            &&& t[u].dist <= t[v].dist
            &&& (t[u].dist == t[v].dist ==> hops[u] < hops[v])
        }
}

/// Every finalized vertex has pushed its relaxations: each edge out of
/// it bounds the neighbour's distance.
#[verifier::opaque]
spec fn dij_relaxed(g: Seq<Seq<(usize, i32)>>, t: Seq<DijkstraTableItem>) -> bool {
    forall|x: int, k: int|
        0 <= x < g.len() && t[x].seen && 0 <= k < g[x].len() ==> t[(#[trigger] g[x][k]).0 as int].dist
            as int <= t[x].dist + g[x][k].1
}

/// The frontier queue is sound (entries name real vertices at or above
/// their current distance) and covering (every pending vertex with a
/// finite distance has its current distance filed).
#[verifier::opaque]
spec fn dij_queue_ok(
    g: Seq<Seq<(usize, i32)>>,
    t: Seq<DijkstraTableItem>,
    q: Seq<DijkstraHeapItem>,
) -> bool {
    &&& forall|i: int|
        0 <= i < q.len() ==> (#[trigger] q[i]).index < g.len() && q[i].dist < u64::MAX && t[q[i].index as int].dist
            <= q[i].dist
    &&& forall|v: int|
        0 <= v < g.len() && !(#[trigger] t[v]).seen && t[v].dist < u64::MAX ==> q.contains(
            DijkstraHeapItem { index: v as usize, dist: t[v].dist },
        )
}

/// After a pop, every remaining entry already stood in the queue.
proof fn lemma_elems_after_remove(q0: Seq<DijkstraHeapItem>, q1: Seq<DijkstraHeapItem>)
    requires
        q0.len() > 0,
        q1.to_multiset() == q0.to_multiset().remove(q0[0]),
    ensures
        forall|i: int| 0 <= i < q1.len() ==> q0.contains(#[trigger] q1[i]),
    decreases 0int,
{
    broadcast use vstd::multiset::group_multiset_axioms;

    assert forall|i: int| 0 <= i < q1.len() implies q0.contains(#[trigger] q1[i]) by {
        crate::perm::lemma_seq_elem_in_multiset(q1, i);
        assert(q0.to_multiset().count(q1[i]) > 0);
        crate::perm::lemma_multiset_elem_in_seq(q0, q1[i]);
    }
}

/// After a pop, an entry other than the popped one is still there.
proof fn lemma_contains_after_remove(
    q0: Seq<DijkstraHeapItem>,
    q1: Seq<DijkstraHeapItem>,
    x: DijkstraHeapItem,
)
    requires
        q0.len() > 0,
        q1.to_multiset() == q0.to_multiset().remove(q0[0]),
        q0.contains(x),
        x != q0[0],
    ensures
        q1.contains(x),
{
    broadcast use vstd::multiset::group_multiset_axioms;

    let i = choose|i: int| 0 <= i < q0.len() && q0[i] == x;
    crate::perm::lemma_seq_elem_in_multiset(q0, i);
    assert(q1.to_multiset().count(x) > 0);
    crate::perm::lemma_multiset_elem_in_seq(q1, x);
}

/// After an insert, every entry is the new one or an old one, and the
/// old ones are all still there.
proof fn lemma_elems_after_insert(
    q1: Seq<DijkstraHeapItem>,
    q2: Seq<DijkstraHeapItem>,
    y: DijkstraHeapItem,
)
    requires
        q2.to_multiset() == q1.to_multiset().insert(y),
    ensures
        forall|i: int| 0 <= i < q2.len() ==> q2[i] == y || q1.contains(#[trigger] q2[i]),
        forall|x: DijkstraHeapItem| q1.contains(x) ==> q2.contains(x),
        q2.contains(y),
{
    broadcast use vstd::multiset::group_multiset_axioms;

    assert forall|i: int| 0 <= i < q2.len() implies q2[i] == y || q1.contains(#[trigger] q2[i]) by {
        crate::perm::lemma_seq_elem_in_multiset(q2, i);
        if q2[i] != y {
            assert(q1.to_multiset().count(q2[i]) > 0);
            crate::perm::lemma_multiset_elem_in_seq(q1, q2[i]);
        }
    }
    assert forall|x: DijkstraHeapItem| q1.contains(x) implies q2.contains(x) by {
        let i = choose|i: int| 0 <= i < q1.len() && q1[i] == x;
        crate::perm::lemma_seq_elem_in_multiset(q1, i);
        assert(q2.to_multiset().count(x) > 0);
        crate::perm::lemma_multiset_elem_in_seq(q2, x);
    }
    assert(q2.to_multiset().count(y) > 0);
    crate::perm::lemma_multiset_elem_in_seq(q2, y);
}

/// On any walk that ends at a pending vertex some vertex is still
/// pending with a distance no greater than the walk's total weight: the
/// crossing argument behind both optimality and unreachability.
proof fn lemma_dij_crossing(
    g: Seq<Seq<(usize, i32)>>,
    src: int,
    t: Seq<DijkstraTableItem>,
    hops: Seq<nat>,
    p: Seq<usize>,
    ks: Seq<int>,
)
    requires
        nonneg_weights(g),
        dij_table_ok(g, src, t, hops),
        dij_relaxed(g, t),
        is_ewalk_from(g, p, ks, src, p[p.len() - 1] as int),
        !t[p[p.len() - 1] as int].seen,
    ensures
        exists|y: int|
            0 <= y < g.len() && !(#[trigger] t[y]).seen && t[y].dist as int <= edge_walk_cost(
                g,
                p,
                ks,
            ),
    decreases ks.len(),
{
    reveal(dij_table_ok);
    reveal(dij_relaxed);
    let d = p[p.len() - 1] as int;
    let c = edge_walk_cost(g, p, ks);
    if !t[src].seen {
        lemma_ewalk_cost_nonneg(g, p, ks);
        assert(0 <= src < g.len() && !t[src].seen && t[src].dist as int <= c);
    } else {
        assert(p.len() >= 2);
        let u = p[p.len() - 2] as int;
        let q = p.drop_last();
        let kq = ks.drop_last();
        let k = ks[ks.len() - 1];
        assert(is_ewalk_from(g, q, kq, src, u)) by {
            assert(edge_walk_ok(g, q, kq));
        }
        assert(p[ks.len() - 1] as int == u);
        assert(c == edge_walk_cost(g, q, kq) + g[u][k].1);
        if t[u].seen {
            assert(edge_walk_cost(g, q, kq) >= t[u].dist as int);
            assert(t[g[u][k].0 as int].dist as int <= t[u].dist + g[u][k].1);
            assert(g[u][k].0 as int == d);
            assert(0 <= d < g.len() && !t[d].seen && t[d].dist as int <= c);
        } else {
            lemma_dij_crossing(g, src, t, hops, q, kq);
            assert(g[u][k].1 >= 0);
            let y = choose|y: int|
                0 <= y < g.len() && !(#[trigger] t[y]).seen && t[y].dist as int <= edge_walk_cost(
                    g,
                    q,
                    kq,
                );
            assert(0 <= y < g.len() && !t[y].seen && t[y].dist as int <= c);
        }
    }
}

/// A weighted directed graph over the dense vertex set `0..vertex_amount()`,
/// stored as one adjacency record per vertex.
///
/// The view is the sequence of adjacency records; record `u` lists the
/// `(destination, weight)` pairs of the edges leaving `u`, in insertion
/// order.
pub struct Graph {
    adj_list: Vec<Vec<Edge>>,
}

impl View for Graph {
    type V = Seq<Seq<(usize, i32)>>;

    closed spec fn view(&self) -> Seq<Seq<(usize, i32)>> {
        Seq::new(
            self.adj_list@.len(),
            |u: int|
                Seq::new(
                    self.adj_list@[u]@.len(),
                    |k: int| (self.adj_list@[u]@[k].to, self.adj_list@[u]@[k].weight),
                ),
        )
    }
}

impl Graph {
    /// The graph invariant: every edge points at an existing vertex.
    pub open spec fn wf(self) -> bool {
        forall|u: int, k: int|
            0 <= u < self@.len() && 0 <= k < self@[u].len() ==> (#[trigger] self@[u][k]).0
                < self@.len()
    }

    pub fn new() -> (r: Graph)
        ensures
            r@ == Seq::<Seq<(usize, i32)>>::empty(),
            r.wf(),
    {
        let r = Graph { adj_list: Vec::<Vec<Edge>>::new() };
        proof {
            assert(r@ =~= Seq::<Seq<(usize, i32)>>::empty());
        }
        r
    }

    /// How many vertices the graph holds.
    pub fn vertex_amount(&self) -> (r: usize)
        ensures
            r == self@.len(),
    {
        self.adj_list.len()
    }

    /// Appends a fresh vertex with no outgoing edges; its index is the
    /// previous vertex amount.
    pub fn add_vertex(&mut self)
        ensures
            final(self)@ == old(self)@.push(Seq::<(usize, i32)>::empty()),
            old(self).wf() ==> final(self).wf(),
    {
        self.adj_list.push(Vec::<Edge>::new());
        proof {
            assert(self@ =~~= old(self)@.push(Seq::<(usize, i32)>::empty()));
        }
    }

    /// Removes the vertex at `index` together with every edge pointing at
    /// it. Vertices past `index` are renumbered down by one, and so are
    /// the destinations of the edges that point at them: indices held by
    /// the caller from before the call are invalidated.
    pub fn delete_vertex(&mut self, index: usize)
        requires
            old(self).wf(),
            index < old(self)@.len(),
        ensures
            final(self).wf(),
            final(self)@.len() == old(self)@.len() - 1,
            forall|u: int|
                0 <= u < final(self)@.len() ==> final(self)@[u] == shift_edges(
                    if u < index {
                        old(self)@[u]
                    } else {
                        old(self)@[u + 1]
                    },
                    index as int,
                ),
    {
        self.adj_list.remove(index);
        proof {
            assert forall|t: int| 0 <= t < self@.len() implies #[trigger] self@[t] == (if t < index {
                old(self)@[t]
            } else {
                old(self)@[t + 1]
            }) by {
                assert(self@[t] =~= if t < index {
                    old(self)@[t]
                } else {
                    old(self)@[t + 1]
                });
            }
        }
        let ghost mid = self@;
        let mut u: usize = 0;
        while u < self.adj_list.len()
            invariant
                old(self).wf(),
                index < old(self)@.len(),
                self@.len() == mid.len(),
                mid.len() == old(self)@.len() - 1,
                u <= self@.len(),
                forall|t: int|
                    0 <= t < mid.len() ==> #[trigger] mid[t] == (if t < index {
                        old(self)@[t]
                    } else {
                        old(self)@[t + 1]
                    }),
                forall|t: int|
                    0 <= t < u ==> #[trigger] self@[t] == shift_edges(mid[t], index as int),
                forall|t: int| u <= t < self@.len() ==> #[trigger] self@[t] == mid[t],
            decreases self@.len() - u,
        {
            let ghost snap = self@;
            let ghost row = self@[u as int];
            let mut nr: Vec<Edge> = Vec::<Edge>::new();
            let mut k: usize = 0;
            while k < self.adj_list[u].len()
                invariant
                    u < self@.len(),
                    k <= row.len(),
                    row == self@[u as int],
                    self@[u as int].len() == self.adj_list@[u as int]@.len(),
                    edges_view(nr@) =~= shift_edges(row.take(k as int), index as int),
                decreases row.len() - k,
            {
                let e = self.adj_list[u][k];
                proof {
                    assert(row[k as int] == (e.to, e.weight));
                    assert(row.take(k + 1).drop_last() =~= row.take(k as int));
                    assert(row.take(k + 1).last() == row[k as int]);
                }
                if e.to != index {
                    if e.to > index {
                        nr.push(Edge::new(e.to - 1, e.weight));
                    } else {
                        nr.push(e);
                    }
                }
                proof {
                    assert(edges_view(nr@) =~= shift_edges(row.take(k + 1), index as int));
                }
                k += 1;
            }
            proof {
                assert(row.take(row.len() as int) =~= row);
            }
            self.adj_list.set(u, nr);
            proof {
                assert(self@[u as int] =~= edges_view(nr@));
                assert forall|t: int| 0 <= t < self@.len() && t != u implies #[trigger] self@[t]
                    == snap[t] by {
                    assert(self@[t] =~= snap[t]);
                }
            }
            u += 1;
        }
        proof {
            assert forall|t: int, k: int|
                0 <= t < self@.len() && 0 <= k < self@[t].len() implies (#[trigger] self@[t][k]).0
                < self@.len() by {
                let src = if t < index {
                    old(self)@[t]
                } else {
                    old(self)@[t + 1]
                };
                lemma_shift_edges_wf(src, index as int, old(self)@.len() as int);
            }
        }
    }

    /// Cheapest-path query by Dijkstra's algorithm, with a min-heap of
    /// possibly stale entries as the frontier. When some walk from
    /// `source` to `dest` costs less than the `u64::MAX` sentinel, the
    /// cheapest cost lands in `cost` and a walk of exactly that cost is
    /// appended to `path`; otherwise `cost` is set to the sentinel and
    /// nothing is appended. Weights must be non-negative.
    #[verifier::rlimit(100)]
    #[verifier::spinoff_prover]
    pub fn dijkstra_shortest_path(
        &self,
        source: usize,
        dest: usize,
        path: &mut Vec<usize>,
        cost: &mut u64,
    )
        requires
            self.wf(),
            nonneg_weights(self@),
        ensures
            final(path)@.len() >= old(path)@.len(),
            final(path)@.take(old(path)@.len() as int) == old(path)@,
            ({
                let added = final(path)@.skip(old(path)@.len() as int);
                let g = self@;
                &&& (*final(cost) < u64::MAX ==> {
                    &&& source < g.len()
                    &&& dest < g.len()
                    &&& added.len() > 0
                    &&& is_walk(g, added, source as int, dest as int)
                    &&& (exists|ks: Seq<int>|
                        is_ewalk_from(g, added, ks, source as int, dest as int)
                            && edge_walk_cost(g, added, ks) == *final(cost))
                    &&& (forall|p: Seq<usize>, ks: Seq<int>|
                        #[trigger] is_ewalk_from(g, p, ks, source as int, dest as int)
                            ==> edge_walk_cost(g, p, ks) >= *final(cost))
                })
                &&& (*final(cost) == u64::MAX ==> {
                    &&& added.len() == 0
                    &&& (forall|p: Seq<usize>, ks: Seq<int>|
                        #[trigger] is_ewalk_from(g, p, ks, source as int, dest as int)
                            ==> edge_walk_cost(g, p, ks) >= u64::MAX as int)
                })
            }),
    {
        let ghost g = self@;
        if source >= self.vertex_amount() || dest >= self.vertex_amount() {
            *cost = u64::MAX;
            proof {
                assert(final(path)@.skip(old(path)@.len() as int) =~= Seq::<usize>::empty());
                assert(final(path)@.take(old(path)@.len() as int) =~= old(path)@);
                assert forall|p: Seq<usize>, ks: Seq<int>|
                    #[trigger] is_ewalk_from(g, p, ks, source as int, dest as int) implies
                    edge_walk_cost(g, p, ks) >= u64::MAX as int by {
                    assert(p[0] < g.len());
                    assert(p[p.len() - 1] < g.len());
                }
            }
            return ;
        }
        let n = self.vertex_amount();
        let mut table: Vec<DijkstraTableItem> = Vec::<DijkstraTableItem>::new();
        let mut i: usize = 0;
        while i < n
            invariant
                i <= n,
                table@.len() == i,
                source < n,
                forall|v: int|
                    0 <= v < i ==> (#[trigger] table@[v]) == (DijkstraTableItem {
                        dist: if v == source {
                            0u64
                        } else {
                            u64::MAX
                        },
                        seen: false,
                        previous: None,
                    }),
            decreases n - i,
        {
            table.push(
                DijkstraTableItem {
                    dist: if i == source {
                        0
                    } else {
                        u64::MAX
                    },
                    seen: false,
                    previous: None,
                },
            );
            i += 1;
        }
        let mut queue: crate::heap::MinHeap<DijkstraHeapItem> =
            crate::heap::MinHeap::<DijkstraHeapItem>::new();
        let ghost mut hops: Seq<nat> = Seq::new(n as nat, |v: int| 0nat);

        queue.insert(DijkstraHeapItem { index: source, dist: 0 });
        proof {
            broadcast use vstd::seq_lib::group_to_multiset_ensures;

            reveal(dij_table_ok);
            reveal(dij_queue_ok);
            reveal(dij_relaxed);
            assert(has_ewalk_cost(g, source as int, source as int, 0)) by {
                let p0 = seq![source];
                let ks0 = Seq::<int>::empty();
                assert(edge_walk_ok(g, p0, ks0));
                assert(edge_walk_cost(g, p0, ks0) == 0);
                assert(is_ewalk_from(g, p0, ks0, source as int, source as int));
            }
            assert(dij_table_ok(g, source as int, table@, hops));
            assert(queue@.to_multiset().count(DijkstraHeapItem { index: source, dist: 0 }) > 0);
            crate::perm::lemma_multiset_elem_in_seq(
                queue@,
                DijkstraHeapItem { index: source, dist: 0 },
            );
            assert(dij_queue_ok(g, table@, queue@));
        }

        while queue.len() != 0
            invariant_except_break
                queue.wf(),
                dij_queue_ok(g, table@, queue@),
                dij_relaxed(g, table@),
            invariant
                g == self@,
                self.wf(),
                nonneg_weights(g),
                n == g.len(),
                source < n,
                dest < n,
                table@.len() == n,
                hops.len() == n,
                dij_table_ok(g, source as int, table@, hops),
            ensures
                table@.len() == n,
                hops.len() == n,
                dij_table_ok(g, source as int, table@, hops),
                table@[dest as int].seen || (dij_relaxed(g, table@) && dij_queue_ok(
                    g,
                    table@,
                    queue@,
                ) && queue@.len() == 0),
            decreases count_unseen(table@), queue@.len(),
        {
            let ghost q0 = queue@;
            let ghost t0 = table@;
            let top = queue.pop().unwrap();
            let current = top.index;
            proof {
                assert(top == q0[0]);
                assert(q0.contains(q0[0]));
                assert(current < n && top.dist < u64::MAX && t0[current as int].dist <= top.dist)
                    by {
                    reveal(dij_queue_ok);
                }
                lemma_elems_after_remove(q0, queue@);
            }
            if !table[current].seen {
                proof {
                    lemma_pop_optimal(g, source as int, t0, hops, q0);
                    assert(top.dist == t0[current as int].dist);
                }
                let mut it = table[current];
                it.seen = true;
                table.set(current, it);
                let ghost t_mark = table@;
                proof {
                    lemma_count_unseen_lt(t0, t_mark, current as int);
                    assert(dij_table_ok(g, source as int, table@, hops)) by {
                        reveal(dij_table_ok);
                        assert forall|v: int|
                            0 <= v < g.len() && (#[trigger] table@[v]).dist < u64::MAX implies
                            has_ewalk_cost(g, source as int, v, table@[v].dist as int) by {
                            assert(t0[v].dist == table@[v].dist);
                        }
                    }
                }
                if current == dest {
                    break ;
                }
                proof {
                    // the queue stays sound and covering: pending vertices
                    // differ from the one just finalized
                    assert(dij_queue_ok(g, table@, queue@)) by {
                        reveal(dij_queue_ok);
                        assert forall|idx: int|
                            0 <= idx < queue@.len() implies (#[trigger] queue@[idx]).index
                            < g.len() && queue@[idx].dist < u64::MAX && table@[
                            queue@[idx].index as int
                        ].dist <= queue@[idx].dist by {
                            assert(q0.contains(queue@[idx]));
                            let j = choose|j: int| 0 <= j < q0.len() && q0[j] == queue@[idx];
                            assert(t0[q0[j].index as int].dist <= q0[j].dist);
                        }
                        assert forall|v: int|
                            0 <= v < g.len() && !(#[trigger] table@[v]).seen && table@[v].dist
                                < u64::MAX implies queue@.contains(
                            DijkstraHeapItem { index: v as usize, dist: table@[v].dist },
                        ) by {
                            let item = DijkstraHeapItem {
                                index: v as usize,
                                dist: table@[v].dist,
                            };
                            assert(t0[v].dist == table@[v].dist && !t0[v].seen);
                            assert(q0.contains(item));
                            assert(item.index != current);
                            lemma_contains_after_remove(q0, queue@, item);
                        }
                    }
                }
                proof {
                    reveal(dij_relaxed);
                    assert forall|x: int, kk: int|
                        0 <= x < g.len() && table@[x].seen && x != current && 0 <= kk < g[
                            x
                        ].len() implies table@[(#[trigger] g[x][kk]).0 as int].dist as int
                        <= table@[x].dist + g[x][kk].1 by {
                        assert(t0[x].seen);
                    }
                }
                let gh = self.dijkstra_relax(source, current, &mut table, &mut queue, Ghost(hops));
                proof {
                    hops = gh@;
                    lemma_count_unseen_le(t_mark, table@);
                    lemma_count_unseen_le(table@, t_mark);
                    assert(count_unseen(table@) < count_unseen(t0));
                }
            } else {
                proof {
                    assert(dij_queue_ok(g, table@, queue@)) by {
                        reveal(dij_queue_ok);
                        assert forall|idx: int|
                            0 <= idx < queue@.len() implies (#[trigger] queue@[idx]).index
                            < g.len() && queue@[idx].dist < u64::MAX && table@[
                            queue@[idx].index as int
                        ].dist <= queue@[idx].dist by {
                            assert(q0.contains(queue@[idx]));
                            let j = choose|j: int| 0 <= j < q0.len() && q0[j] == queue@[idx];
                            assert(t0[q0[j].index as int].dist <= q0[j].dist);
                        }
                        assert forall|v: int|
                            0 <= v < g.len() && !(#[trigger] table@[v]).seen && table@[v].dist
                                < u64::MAX implies queue@.contains(
                            DijkstraHeapItem { index: v as usize, dist: table@[v].dist },
                        ) by {
                            let item = DijkstraHeapItem {
                                index: v as usize,
                                dist: table@[v].dist,
                            };
                            assert(q0.contains(item));
                            assert(item.index != current);
                            lemma_contains_after_remove(q0, queue@, item);
                        }
                    }
                }
            }
        }

        if !table[dest].seen {
            *cost = u64::MAX;
            proof {
                assert(final(path)@.skip(old(path)@.len() as int) =~= Seq::<usize>::empty());
                assert(final(path)@.take(old(path)@.len() as int) =~= old(path)@);
                assert forall|v: int|
                    0 <= v < g.len() && !(#[trigger] table@[v]).seen implies table@[v].dist
                    == u64::MAX by {
                    reveal(dij_queue_ok);
                    if table@[v].dist < u64::MAX {
                        assert(queue@.contains(
                            DijkstraHeapItem { index: v as usize, dist: table@[v].dist },
                        ));
                    }
                }
                assert forall|p: Seq<usize>, ks: Seq<int>|
                    #[trigger] is_ewalk_from(g, p, ks, source as int, dest as int) implies
                    edge_walk_cost(g, p, ks) >= u64::MAX as int by {
                    if edge_walk_cost(g, p, ks) < u64::MAX as int {
                        assert(p[p.len() - 1] as int == dest as int);
                        lemma_dij_crossing(g, source as int, table@, hops, p, ks);
                        let y = choose|y: int|
                            0 <= y < g.len() && !(#[trigger] table@[y]).seen && table@[y].dist
                                as int <= edge_walk_cost(g, p, ks);
                        assert(table@[y].dist == u64::MAX);
                        assert(false);
                    }
                }
            }
            return ;
        }
        *cost = table[dest].dist;
        self.dijkstra_build_path(source, dest, &table, Ghost(hops), path);
        proof {
            assert(*final(cost) == table@[dest as int].dist);
            assert(table@[dest as int].dist < u64::MAX) by {
                reveal(dij_table_ok);
            }
            assert forall|p: Seq<usize>, ks: Seq<int>|
                #[trigger] is_ewalk_from(g, p, ks, source as int, dest as int) implies
                edge_walk_cost(g, p, ks) >= *final(cost) by {
                reveal(dij_table_ok);
            }
        }
    }

    /// Rebuilds the found walk by following the predecessor chain back
    /// from `dest`, then appends it, re-reversed into source-to-dest
    /// order, to `path`. The appended walk costs exactly the finalized
    /// distance of `dest`.
    #[verifier::rlimit(100)]
    #[verifier::spinoff_prover]
    fn dijkstra_build_path(
        &self,
        source: usize,
        dest: usize,
        table: &Vec<DijkstraTableItem>,
        Ghost(hops): Ghost<Seq<nat>>,
        path: &mut Vec<usize>,
    )
        requires
            self.wf(),
            source < self@.len(),
            dest < self@.len(),
            table@.len() == self@.len(),
            hops.len() == self@.len(),
            dij_table_ok(self@, source as int, table@, hops),
            table@[dest as int].seen,
        ensures
            final(path)@.len() > old(path)@.len(),
            final(path)@.take(old(path)@.len() as int) == old(path)@,
            ({
                let added = final(path)@.skip(old(path)@.len() as int);
                &&& is_walk(self@, added, source as int, dest as int)
                &&& (exists|ks: Seq<int>|
                    is_ewalk_from(self@, added, ks, source as int, dest as int)
                        && edge_walk_cost(self@, added, ks) == table@[dest as int].dist as int)
            }),
    {
        let ghost g = self@;
        let ghost n = g.len();
        let mut chain: Vec<usize> = Vec::<usize>::new();
        chain.push(dest);
        let mut cur: usize = dest;
        proof {
            assert(table@[dest as int].dist < u64::MAX) by {
                reveal(dij_table_ok);
            }
        }
        loop
            invariant_except_break
                g == self@,
                n == g.len(),
                source < n,
                dest < n,
                table@.len() == n,
                hops.len() == n,
                dij_table_ok(g, source as int, table@, hops),
                cur < n,
                table@[cur as int].dist < u64::MAX,
                chain@.len() >= 1,
                chain@[0] == dest,
                chain@[chain@.len() - 1] == cur,
                forall|i: int| 0 <= i < chain@.len() ==> (#[trigger] chain@[i]) < n,
                chain_linked(g, table@, chain@),
            ensures
                g == self@,
                table@.len() == n,
                cur == source,
                chain@.len() >= 1,
                chain@[0] == dest,
                chain@[chain@.len() - 1] == source,
                forall|i: int| 0 <= i < chain@.len() ==> (#[trigger] chain@[i]) < n,
                chain_linked(g, table@, chain@),
            decreases table@[cur as int].dist, hops[cur as int],
        {
            let p = table[cur].previous;
            match p {
                Some(u) => {
                    let ghost c0 = chain@;
                    proof {
                        reveal(dij_table_ok);
                        assert(chain_step(g, table@, u as int, cur as int)) by {
                            let kk = choose|kk: int|
                                0 <= kk < g[u as int].len() && (#[trigger] g[u as int][kk]).0
                                    as int == cur as int && table@[cur as int].dist as int
                                    == table@[u as int].dist + g[u as int][kk].1;
                            assert(0 <= kk < g[u as int].len() && (#[trigger] g[u as int][kk]).0
                                as int == cur as int && table@[cur as int].dist as int == table@[
                                u as int
                            ].dist + g[u as int][kk].1);
                        }
                        assert(u < n);
                        assert(table@[u as int].seen);
                        assert(table@[u as int].dist < u64::MAX);
                        assert(table@[u as int].dist <= table@[cur as int].dist);
                        assert(table@[u as int].dist == table@[cur as int].dist ==> hops[
                            u as int
                        ] < hops[cur as int]);
                    }
                    chain.push(u);
                    proof {
                        assert forall|i: int| 0 <= i < chain@.len() - 1 implies chain_step(
                            g,
                            table@,
                            chain@[i + 1] as int,
                            #[trigger] chain@[i] as int,
                        ) by {
                            if i < c0.len() - 1 {
                                assert(chain_step(g, table@, c0[i + 1] as int, c0[i] as int));
                            }
                        }
                        assert(chain_linked(g, table@, chain@));
                    }
                    cur = u;
                },
                None => {
                    proof {
                        reveal(dij_table_ok);
                        assert(cur == source);
                    }
                    break ;
                },
            }
        }
        proof {
            assert(table@[source as int].dist == 0) by {
                reveal(dij_table_ok);
            }
        }
        let ghost path_before = path@;
        let mut t: usize = chain.len();
        while t > 0
            invariant
                t <= chain@.len(),
                path@.len() == path_before.len() + (chain@.len() - t),
                path@.take(path_before.len() as int) == path_before,
                forall|m: int|
                    0 <= m < chain@.len() - t ==> #[trigger] path@[path_before.len() + m]
                        == chain@[chain@.len() - 1 - m],
            decreases t,
        {
            t -= 1;
            path.push(chain[t]);
            proof {
                assert(path@.take(path_before.len() as int) =~= path_before);
            }
        }
        proof {
            assert(final(path)@.take(old(path)@.len() as int) =~= old(path)@);
            let added = final(path)@.skip(old(path)@.len() as int);
            assert(added =~= chain@.reverse()) by {
                assert forall|m: int| 0 <= m < added.len() implies #[trigger] added[m] == chain@[
                    chain@.len() - 1 - m
                ] by {
                    assert(added[m] == final(path)@[path_before.len() + m]);
                }
            }
            lemma_build_path_post(g, table@, chain@, added, source as int, dest as int);
        }
    }

    /// Relaxes every edge out of the just-finalized `current`: an improved
    /// neighbour gets the shorter distance, `current` as predecessor, and a
    /// fresh queue entry. Returns the updated hop counts.
    #[verifier::rlimit(100)]
    #[verifier::spinoff_prover]
    fn dijkstra_relax(
        &self,
        source: usize,
        current: usize,
        table: &mut Vec<DijkstraTableItem>,
        queue: &mut crate::heap::MinHeap<DijkstraHeapItem>,
        Ghost(hops0): Ghost<Seq<nat>>,
    ) -> (res: Ghost<Seq<nat>>)
        requires
            self.wf(),
            nonneg_weights(self@),
            source < self@.len(),
            current < self@.len(),
            old(table)@.len() == self@.len(),
            hops0.len() == self@.len(),
            dij_table_ok(self@, source as int, old(table)@, hops0),
            old(table)@[current as int].seen,
            forall|x: int, kk: int|
                0 <= x < self@.len() && old(table)@[x].seen && x != current && 0 <= kk < self@[
                    x
                ].len() ==> old(table)@[(#[trigger] self@[x][kk]).0 as int].dist as int <= old(
                    table,
                )@[x].dist + self@[x][kk].1,
            old(queue).wf(),
            dij_queue_ok(self@, old(table)@, old(queue)@),
        ensures
            final(queue).wf(),
            res@.len() == self@.len(),
            dij_table_ok(self@, source as int, final(table)@, res@),
            dij_relaxed(self@, final(table)@),
            dij_queue_ok(self@, final(table)@, final(queue)@),
            final(table)@.len() == old(table)@.len(),
            forall|v: int|
                0 <= v < self@.len() ==> (#[trigger] final(table)@[v]).seen == old(table)@[v].seen,
    {
        let ghost g = self@;
        let ghost t_mark = old(table)@;
        let ghost mut hops: Seq<nat> = hops0;
        let mut k: usize = 0;
        while k < self.adj_list[current].len()
            invariant
                g == self@,
                self.wf(),
                nonneg_weights(g),
                source < g.len(),
                current < g.len(),
                table@.len() == g.len(),
                hops.len() == g.len(),
                k <= g[current as int].len(),
                g[current as int].len() == self.adj_list@[current as int]@.len(),
                dij_table_ok(g, source as int, table@, hops),
                queue.wf(),
                dij_queue_ok(g, table@, queue@),
                table@[current as int].seen,
                table@[current as int] == t_mark[current as int],
                t_mark.len() == g.len(),
                forall|v: int|
                    0 <= v < g.len() ==> (#[trigger] table@[v]).seen == t_mark[v].seen,
                forall|x: int, kk: int|
                    0 <= x < g.len() && table@[x].seen && x != current && 0 <= kk < g[x].len()
                        ==> table@[(#[trigger] g[x][kk]).0 as int].dist as int <= table@[
                        x
                    ].dist + g[x][kk].1,
                forall|j: int|
                    0 <= j < k ==> table@[(#[trigger] g[current as int][j]).0 as int].dist
                        as int <= table@[current as int].dist + g[current as int][j].1,
            decreases g[current as int].len() - k,
        {
            let e = self.adj_list[current][k];
            proof {
                assert(g[current as int][k as int] == (e.to, e.weight));
                assert(e.to < g.len());
                assert(e.weight >= 0);
            }
            let du = table[current].dist;
            let w64 = e.weight as u64;
            if w64 <= u64::MAX - du {
                let nd = du + w64;
                if nd < table[e.to].dist {
                    proof {
                        reveal(dij_table_ok);
                        // the improved neighbour cannot be finalized: its
                        // distance would already be best possible
                        let (bp, bks) = choose|bp: Seq<usize>, bks: Seq<int>|
                            is_ewalk_from(g, bp, bks, source as int, current as int)
                                && edge_walk_cost(g, bp, bks) == table@[current as int].dist as int;
                        lemma_ewalk_extend(g, bp, bks, k as int, e.to);
                        assert(is_ewalk_from(
                            g,
                            bp.push(e.to),
                            bks.push(k as int),
                            source as int,
                            e.to as int,
                        ));
                        assert(edge_walk_cost(g, bp.push(e.to), bks.push(k as int)) == nd);
                        if table@[e.to as int].seen {
                            assert(false);
                        }
                        assert(e.to != source) by {
                            lemma_ewalk_cost_nonneg(g, bp, bks);
                        }
                    }
                    let ghost t_pre = table@;
                    let ghost q_pre = queue@;
                    let mut t2 = table[e.to];
                    t2.dist = nd;
                    t2.previous = Some(current);
                    table.set(e.to, t2);
                    proof {
                        hops = hops.update(e.to as int, hops[current as int] + 1);
                    }
                    queue.insert(DijkstraHeapItem { index: e.to, dist: nd });
                    proof {
                        lemma_elems_after_insert(
                            q_pre,
                            queue@,
                            DijkstraHeapItem { index: e.to, dist: nd },
                        );
                        assert(dij_table_ok(g, source as int, table@, hops)) by {
                            reveal(dij_table_ok);
                            assert forall|v: int|
                                0 <= v < g.len() && (#[trigger] table@[v]).dist
                                    < u64::MAX implies has_ewalk_cost(
                                g,
                                source as int,
                                v,
                                table@[v].dist as int,
                            ) by {
                                if v != e.to {
                                    assert(t_pre[v].dist == table@[v].dist);
                                }
                            }
                            assert forall|v: int|
                                0 <= v < g.len() && (
                                #[trigger] table@[v]).previous is Some implies {
                                let u = table@[v].previous.unwrap() as int;
                                &&& v != source as int
                                &&& 0 <= u < g.len()
                                &&& table@[u].seen
                                &&& (exists|kk: int|
                                    0 <= kk < g[u].len() && (#[trigger] g[u][kk]).0 as int == v
                                        && table@[v].dist as int == table@[u].dist + g[u][kk].1)
                                &&& table@[u].dist <= table@[v].dist
                                &&& (table@[u].dist == table@[v].dist ==> hops[u] < hops[v])
                            } by {
                                if v == e.to {
                                    assert(table@[current as int].seen);
                                    assert(g[current as int][k as int].0 as int == v && table@[
                                        v
                                    ].dist as int == table@[current as int].dist + g[
                                        current as int
                                    ][k as int].1);
                                } else {
                                    let u = t_pre[v].previous.unwrap() as int;
                                    assert(t_pre[u].seen);
                                    assert(u != e.to);
                                }
                            }
                        }
                        assert(dij_queue_ok(g, table@, queue@)) by {
                            reveal(dij_queue_ok);
                            let y = DijkstraHeapItem { index: e.to, dist: nd };
                            assert forall|idx: int|
                                0 <= idx < queue@.len() implies (#[trigger] queue@[idx]).index
                                < g.len() && queue@[idx].dist < u64::MAX && table@[
                                queue@[idx].index as int
                            ].dist <= queue@[idx].dist by {
                                if queue@[idx] == y {
                                } else {
                                    assert(q_pre.contains(queue@[idx]));
                                    let j = choose|j: int|
                                        0 <= j < q_pre.len() && q_pre[j] == queue@[idx];
                                    if q_pre[j].index == e.to {
                                        assert(t_pre[e.to as int].dist <= q_pre[j].dist);
                                    }
                                }
                            }
                            assert forall|v: int|
                                0 <= v < g.len() && !(#[trigger] table@[v]).seen && table@[v].dist
                                    < u64::MAX implies queue@.contains(
                                DijkstraHeapItem { index: v as usize, dist: table@[v].dist },
                            ) by {
                                if v == e.to {
                                } else {
                                    assert(t_pre[v].dist == table@[v].dist);
                                    assert(q_pre.contains(
                                        DijkstraHeapItem {
                                            index: v as usize,
                                            dist: table@[v].dist,
                                        },
                                    ));
                                }
                            }
                        }
                    }
                }
            }
            k += 1;
        }
        proof {
            assert(dij_relaxed(g, table@)) by {
                reveal(dij_relaxed);
                assert forall|x: int, kk: int|
                    0 <= x < g.len() && table@[x].seen && 0 <= kk < g[x].len() implies table@[(
                #[trigger] g[x][kk]).0 as int].dist as int <= table@[x].dist + g[x][kk].1 by {
                    if x == current {
                    }
                }
            }
        }
        Ghost(hops)
    }

    /// Breadth-first path query: appends to `path` a walk from `source`
    /// to `dest` when the two are distinct, in range, and connected, and
    /// appends nothing otherwise. Each vertex keeps its first discoverer,
    /// so the walk found has the fewest edges possible.
    pub fn bfs_path(&self, source: usize, dest: usize, path: &mut Vec<usize>)
        requires
            self.wf(),
        ensures
            final(path)@.len() >= old(path)@.len(),
            final(path)@.take(old(path)@.len() as int) == old(path)@,
            ({
                let added = final(path)@.skip(old(path)@.len() as int);
                &&& (added.len() > 0 <==> (source < self@.len() && dest < self@.len() && source
                    != dest && reachable(self@, source as int, dest as int)))
                &&& added.len() > 0 ==> is_walk(self@, added, source as int, dest as int)
                &&& added.len() > 0 ==> forall|q: Seq<usize>|
                    #[trigger] is_walk(self@, q, source as int, dest as int) ==> q.len()
                        >= added.len()
            }),
    {
        let ghost g = self@;
        if source >= self.vertex_amount() || dest >= self.vertex_amount() {
            proof {
                assert(final(path)@.skip(old(path)@.len() as int) =~= Seq::<usize>::empty());
                assert(final(path)@.take(old(path)@.len() as int) =~= old(path)@);
            }
            return ;
        }
        let n = self.vertex_amount();
        let mut seen: Vec<bool> = Vec::<bool>::new();
        let mut prev: Vec<Option<usize>> = Vec::<Option<usize>>::new();
        let mut i: usize = 0;
        while i < n
            invariant
                i <= n,
                seen@.len() == i,
                prev@.len() == i,
                forall|v: int| 0 <= v < i ==> !(#[trigger] seen@[v]),
                forall|v: int| 0 <= v < i ==> (#[trigger] prev@[v]) is None,
            decreases n - i,
        {
            seen.push(false);
            prev.push(None);
            i += 1;
        }
        let mut queue: std::collections::VecDeque<usize> =
            std::collections::VecDeque::<usize>::new();
        let ghost mut depth: Seq<nat> = Seq::new(n as nat, |v: int| 0nat);

        queue.push_back(source);
        seen.set(source, true);
        proof {
            assert(queue@[0] == source);
            assert(queue@.contains(source));
        }

        while queue.len() != 0
            invariant_except_break
                forall|idx: int|
                    0 <= idx < queue@.len() ==> (#[trigger] queue@[idx]) < n && seen@[queue@[idx] as int],
                forall|idx: int, jdx: int|
                    0 <= idx < jdx < queue@.len() ==> queue@[idx] != queue@[jdx],
                forall|u: int|
                    0 <= u < n && seen@[u] && !queue@.contains(u as usize) ==> closed_depth(
                        g,
                        seen@,
                        depth,
                        u,
                    ),
                forall|idx: int, jdx: int|
                    0 <= idx < jdx < queue@.len() ==> depth[queue@[idx] as int] <= depth[
                        queue@[jdx] as int
                    ],
                forall|idx: int|
                    0 <= idx < queue@.len() ==> depth[(#[trigger] queue@[idx]) as int] <= depth[
                        queue@[0] as int
                    ] + 1,
                queue@.len() > 0 ==> forall|w: int|
                    0 <= w < n && #[trigger] seen@[w] ==> depth[w] <= depth[queue@[0] as int]
                        + 1,
            invariant
                g == self@,
                self.wf(),
                source < n,
                dest < n,
                n == g.len(),
                seen@.len() == n,
                prev@.len() == n,
                depth.len() == n,
                seen@[source as int],
                prev@[source as int] is None,
                forall|v: int|
                    0 <= v < n && (#[trigger] prev@[v]) is Some ==> v != source && seen@[v]
                        && prev@[v].unwrap() < n && seen@[prev@[v].unwrap() as int] && edge_to(
                        g,
                        prev@[v].unwrap() as int,
                        v,
                    ) && depth[v] == depth[prev@[v].unwrap() as int] + 1,
                forall|v: int| 0 <= v < n && #[trigger] seen@[v] && v != source ==> prev@[v] is Some,
                depth[source as int] == 0,
                forall|v: int, w: Seq<usize>|
                    0 <= v < n && seen@[v] && #[trigger] is_walk(g, w, source as int, v)
                        ==> w.len() - 1 >= depth[v],
            ensures
                depth[source as int] == 0,
                forall|v: int, w: Seq<usize>|
                    0 <= v < n && seen@[v] && #[trigger] is_walk(g, w, source as int, v)
                        ==> w.len() - 1 >= depth[v],
                seen@[dest as int] || (forall|u: int|
                    0 <= u < n && seen@[u] ==> closed_depth(g, seen@, depth, u)),
            decreases count_false(seen@), queue@.len(),
        {
            let ghost queue_pre = queue@;
            let v = queue.pop_front().unwrap();
            let ghost seen_entry = seen@;
            let ghost queue_entry = queue@;
            let ghost d_cur = depth[v as int];
            if v == dest {
                break ;
            }
            proof {
                // whoever is outside the queue now was outside it before the
                // pop as well, except for the popped vertex itself
                assert forall|u: int|
                    0 <= u < n && seen@[u] && !queue@.contains(u as usize) && u != v implies
                    closed_depth(g, seen@, depth, u) by {
                    if queue_pre.contains(u as usize) {
                        let idx = choose|idx: int|
                            0 <= idx < queue_pre.len() && queue_pre[idx] == u as usize;
                        assert(queue@[idx - 1] == u as usize);
                        assert(false);
                    }
                }
                // the remaining entries stay within one layer of the popped one
                assert forall|idx: int|
                    0 <= idx < queue@.len() implies d_cur <= depth[(
                #[trigger] queue@[idx]) as int] <= d_cur + 1 by {
                    assert(queue@[idx] == queue_pre[idx + 1]);
                }
            }
            let mut k: usize = 0;
            while k < self.adj_list[v].len()
                invariant
                    g == self@,
                    self.wf(),
                    source < n,
                    dest < n,
                    n == g.len(),
                    v < n,
                    v != dest,
                    seen@.len() == n,
                    prev@.len() == n,
                    depth.len() == n,
                    k <= g[v as int].len(),
                    g[v as int].len() == self.adj_list@[v as int]@.len(),
                    seen@[source as int],
                    seen@[v as int],
                    prev@[source as int] is None,
                    forall|w: int|
                        0 <= w < n && (#[trigger] prev@[w]) is Some ==> w != source && seen@[w]
                            && prev@[w].unwrap() < n && seen@[prev@[w].unwrap() as int] && edge_to(
                            g,
                            prev@[w].unwrap() as int,
                            w,
                        ) && depth[w] == depth[prev@[w].unwrap() as int] + 1,
                    forall|w: int|
                        0 <= w < n && #[trigger] seen@[w] && w != source ==> prev@[w] is Some,
                    forall|idx: int|
                        0 <= idx < queue@.len() ==> (#[trigger] queue@[idx]) < n && seen@[queue@[idx] as int],
                    forall|idx: int, jdx: int|
                        0 <= idx < jdx < queue@.len() ==> queue@[idx] != queue@[jdx],
                    !queue@.contains(v),
                    forall|u: int|
                        0 <= u < n && seen@[u] && !queue@.contains(u as usize) && u != v
                            ==> closed_depth(g, seen@, depth, u),
                    forall|j: int|
                        0 <= j < k ==> seen@[(#[trigger] g[v as int][j]).0 as int] && depth[(g[
                            v as int
                        ][j]).0 as int] <= d_cur + 1,
                    depth[v as int] == d_cur,
                    depth[source as int] == 0,
                    forall|idx: int, jdx: int|
                        0 <= idx < jdx < queue@.len() ==> depth[queue@[idx] as int] <= depth[
                            queue@[jdx] as int
                        ],
                    forall|idx: int|
                        0 <= idx < queue@.len() ==> d_cur <= depth[(
                        #[trigger] queue@[idx]) as int] <= d_cur + 1,
                    forall|w: int|
                        0 <= w < n && #[trigger] seen@[w] ==> depth[w] <= d_cur + 1,
                    forall|w: int, wk: Seq<usize>|
                        0 <= w < n && seen@[w] && #[trigger] is_walk(g, wk, source as int, w)
                            ==> wk.len() - 1 >= depth[w],
                    seen_entry.len() == n,
                    (seen@ == seen_entry && queue@ == queue_entry) || count_false(seen@)
                        < count_false(seen_entry),
                    forall|w: int| 0 <= w < n && seen_entry[w] ==> #[trigger] seen@[w],
                decreases g[v as int].len() - k,
            {
                let e = self.adj_list[v][k];
                proof {
                    assert(g[v as int][k as int] == (e.to, e.weight));
                    assert(e.to < n);
                }
                if !seen[e.to] {
                    let ghost seen_pre = seen@;
                    let ghost qs = queue@;
                    let ghost depth_pre = depth;
                    proof {
                        // no walk reaches the new vertex in fewer steps
                        // than one past the current layer
                        let frontier = qs.push(v);
                        assert forall|wk: Seq<usize>|
                            #[trigger] is_walk(g, wk, source as int, e.to as int) implies
                            wk.len() >= d_cur + 2 by {
                            assert forall|u: int|
                                0 <= u < n && seen_pre[u] && !frontier.contains(u as usize)
                                implies closed_depth(g, seen_pre, depth_pre, u) by {
                                assert(frontier[frontier.len() - 1] == v);
                                if qs.contains(u as usize) {
                                    let idx = choose|idx: int|
                                        0 <= idx < qs.len() && qs[idx] == u as usize;
                                    assert(frontier[idx] == u as usize);
                                    assert(false);
                                }
                            }
                            assert forall|idx: int|
                                0 <= idx < frontier.len() implies (#[trigger] frontier[idx]) < n
                                && seen_pre[frontier[idx] as int] && depth_pre[frontier[idx] as int]
                                >= d_cur by {
                                if idx < qs.len() {
                                    assert(frontier[idx] == qs[idx]);
                                } else {
                                    assert(frontier[idx] == v);
                                }
                            }
                            lemma_bfs_lower_bound(
                                g,
                                seen_pre,
                                depth_pre,
                                frontier,
                                source as int,
                                wk,
                                d_cur,
                            );
                        }
                    }
                    seen.set(e.to, true);
                    prev.set(e.to, Some(v));
                    proof {
                        depth = depth.update(e.to as int, depth[v as int] + 1);
                        lemma_count_false_lt(seen_pre, seen@, e.to as int);
                        if seen_pre == seen_entry {
                        } else {
                            lemma_count_false_le(seen_pre, seen@);
                        }
                    }
                    queue.push_back(e.to);
                    proof {
                        assert(queue@[queue@.len() - 1] == e.to);
                        assert(queue@.contains(e.to));
                        assert forall|u: int|
                            0 <= u < n && seen@[u] && !queue@.contains(u as usize) && u != v
                            implies closed_depth(g, seen@, depth, u) by {
                            assert(u != e.to);
                            assert(seen_pre[u]);
                            if qs.contains(u as usize) {
                                let idx = choose|idx: int|
                                    0 <= idx < qs.len() && qs[idx] == u as usize;
                                assert(queue@[idx] == u as usize);
                                assert(false);
                            }
                            assert(closed_depth(g, seen_pre, depth_pre, u));
                            assert forall|kk: int|
                                0 <= kk < g[u].len() implies seen@[(#[trigger] g[u][kk]).0 as int]
                                && depth[(g[u][kk]).0 as int] <= depth[u] + 1 by {
                                assert(seen_pre[g[u][kk].0 as int]);
                                assert(g[u][kk].0 != e.to);
                            }
                        }
                        // the walk bound carries over to the freshly marked vertex
                        assert forall|w: int, wk: Seq<usize>|
                            0 <= w < n && seen@[w] && #[trigger] is_walk(g, wk, source as int, w)
                            implies wk.len() - 1 >= depth[w] by {
                            if w != e.to {
                                assert(seen_pre[w]);
                            }
                        }
                    }
                }
                k += 1;
            }
            proof {
                // the popped vertex is now fully explored
                assert(closed_depth(g, seen@, depth, v as int));
                if seen@ == seen_entry && queue@ == queue_entry {
                    lemma_count_false_le(seen_entry, seen@);
                }
            }
        }

        // reconstruct by walking the predecessor chain back from `dest`
        if prev[dest].is_none() {
            proof {
                assert(final(path)@.skip(old(path)@.len() as int) =~= Seq::<usize>::empty());
                assert(final(path)@.take(old(path)@.len() as int) =~= old(path)@);
                if source != dest && reachable(g, source as int, dest as int) {
                    if seen@[dest as int] {
                        assert(prev@[dest as int] is Some);
                        assert(false);
                    } else {
                        assert forall|u: int|
                            0 <= u < g.len() && seen@[u] implies closed_at(g, seen@, u) by {
                            assert(closed_depth(g, seen@, depth, u));
                        }
                        let p = choose|p: Seq<usize>| is_walk(g, p, source as int, dest as int);
                        lemma_walk_stays_seen(g, p, seen@, source as int, dest as int);
                        assert(false);
                    }
                }
            }
            return ;
        }
        let mut chain: Vec<usize> = Vec::<usize>::new();
        chain.push(dest);
        let mut cur: usize = dest;
        loop
            invariant_except_break
                g == self@,
                n == g.len(),
                source < n,
                dest < n,
                prev@.len() == n,
                depth.len() == n,
                seen@.len() == n,
                prev@[source as int] is None,
                forall|w: int|
                    0 <= w < n && (#[trigger] prev@[w]) is Some ==> w != source && seen@[w]
                        && prev@[w].unwrap() < n && seen@[prev@[w].unwrap() as int] && edge_to(
                        g,
                        prev@[w].unwrap() as int,
                        w,
                    ) && depth[w] == depth[prev@[w].unwrap() as int] + 1,
                forall|w: int| 0 <= w < n && #[trigger] seen@[w] && w != source ==> prev@[w] is Some,
                cur < n,
                seen@[cur as int],
                chain@.len() >= 1,
                chain@[0] == dest,
                chain@[chain@.len() - 1] == cur,
                depth[cur as int] + chain@.len() == depth[dest as int] + 1,
                forall|t: int| 0 <= t < chain@.len() ==> (#[trigger] chain@[t]) < n,
                forall|t: int|
                    0 <= t < chain@.len() - 1 ==> edge_to(
                        g,
                        #[trigger] chain@[t + 1] as int,
                        chain@[t] as int,
                    ),
                cur != dest ==> chain@.len() > 1,
                dest != source,
            ensures
                cur == source,
                chain@.len() >= 1,
                chain@[0] == dest,
                chain@[chain@.len() - 1] == source,
                depth[cur as int] + chain@.len() == depth[dest as int] + 1,
                forall|t: int| 0 <= t < chain@.len() ==> (#[trigger] chain@[t]) < n,
                forall|t: int|
                    0 <= t < chain@.len() - 1 ==> edge_to(
                        g,
                        #[trigger] chain@[t + 1] as int,
                        chain@[t] as int,
                    ),
                dest != source,
            decreases depth[cur as int],
        {
            let p = prev[cur];
            match p {
                Some(u) => {
                    chain.push(u);
                    cur = u;
                },
                None => {
                    break ;
                },
            }
        }
        let ghost path_before = path@;
        let mut t: usize = chain.len();
        while t > 0
            invariant
                t <= chain@.len(),
                path@.len() == path_before.len() + (chain@.len() - t),
                path@.take(path_before.len() as int) == path_before,
                forall|m: int|
                    0 <= m < chain@.len() - t ==> #[trigger] path@[path_before.len() + m]
                        == chain@[chain@.len() - 1 - m],
            decreases t,
        {
            t -= 1;
            path.push(chain[t]);
            proof {
                assert(path@.take(path_before.len() as int) =~= path_before);
            }
        }
        proof {
            assert(final(path)@.take(old(path)@.len() as int) =~= old(path)@);
            let added = final(path)@.skip(old(path)@.len() as int);
            assert(added.len() == chain@.len());
            assert forall|m: int| 0 <= m < added.len() implies #[trigger] added[m] == chain@[
                chain@.len() - 1 - m
            ] by {
                assert(added[m] == final(path)@[path_before.len() + m]);
            }
            assert(is_walk(g, added, source as int, dest as int)) by {
                assert(added[0] == chain@[chain@.len() - 1]);
                assert(added[added.len() - 1] == chain@[0]);
                assert forall|m: int| 0 <= m < added.len() - 1 implies edge_to(
                    g,
                    #[trigger] added[m] as int,
                    added[m + 1] as int,
                ) by {
                    let tt = chain@.len() - 2 - m;
                    assert(added[m] == chain@[tt + 1] && added[m + 1] == chain@[tt]);
                }
            }
            assert(reachable(g, source as int, dest as int));
            // the predecessor chain spans one vertex per layer, so no walk
            // can be shorter
            assert(added.len() == depth[dest as int] + 1);
            assert(seen@[dest as int]);
            assert forall|q: Seq<usize>|
                #[trigger] is_walk(g, q, source as int, dest as int) implies q.len()
                >= added.len() by {
                assert(q.len() - 1 >= depth[dest as int]);
            }
        }
    }

    /// Depth-first path query: appends to `path` some walk from `source`
    /// to `dest` when one exists — the first one found following each
    /// vertex's edges in insertion order, not necessarily a shortest one —
    /// and appends nothing exactly when `dest` is unreachable or an index
    /// is out of range.
    pub fn dfs_path(&self, source: usize, dest: usize, path: &mut Vec<usize>)
        requires
            self.wf(),
        ensures
            final(path)@.len() >= old(path)@.len(),
            final(path)@.take(old(path)@.len() as int) == old(path)@,
            ({
                let added = final(path)@.skip(old(path)@.len() as int);
                &&& (added.len() > 0 <==> (source < self@.len() && dest < self@.len() && reachable(
                    self@,
                    source as int,
                    dest as int,
                )))
                &&& added.len() > 0 ==> is_walk(self@, added, source as int, dest as int)
            }),
    {
        if source >= self.vertex_amount() || dest >= self.vertex_amount() {
            proof {
                assert(final(path)@.skip(old(path)@.len() as int) =~= Seq::<usize>::empty());
                assert(final(path)@.take(old(path)@.len() as int) =~= old(path)@);
            }
            return ;
        }
        let n = self.vertex_amount();
        let mut seen: Vec<bool> = Vec::<bool>::new();
        let mut i: usize = 0;
        while i < n
            invariant
                i <= n,
                seen@.len() == i,
                forall|v: int| 0 <= v < i ==> !(#[trigger] seen@[v]),
            decreases n - i,
        {
            seen.push(false);
            i += 1;
        }
        let r = self.walk(source, dest, path, &mut seen);
        proof {
            assert(final(path)@.take(old(path)@.len() as int) =~= old(path)@);
            let added = final(path)@.skip(old(path)@.len() as int);
            if r {
                assert(added.len() > 0);
            } else {
                assert(added =~= Seq::<usize>::empty());
                if reachable(self@, source as int, dest as int) {
                    let p = choose|p: Seq<usize>| is_walk(self@, p, source as int, dest as int);
                    assert forall|v: int|
                        0 <= v < self@.len() && seen@[v] implies closed_at(self@, seen@, v) by {}
                    lemma_walk_stays_seen(self@, p, seen@, source as int, dest as int);
                    assert(false);
                }
            }
        }
    }

    /// One depth-first probe from `curr`: pushes `curr`, tries each edge in
    /// order, backtracks on failure. Newly marked vertices are fully
    /// explored: every edge out of them leads to a marked vertex.
    fn walk(&self, curr: usize, dest: usize, path: &mut Vec<usize>, seen: &mut Vec<bool>) -> (r:
        bool)
        requires
            self.wf(),
            curr < self@.len(),
            dest < self@.len(),
            old(seen)@.len() == self@.len(),
            !old(seen)@[dest as int],
        ensures
            final(seen)@.len() == old(seen)@.len(),
            forall|v: int| 0 <= v < old(seen)@.len() && old(seen)@[v] ==> final(seen)@[v],
            !final(seen)@[dest as int],
            r ==> final(path)@.len() > old(path)@.len() && final(path)@.take(
                old(path)@.len() as int,
            ) == old(path)@ && is_walk(
                self@,
                final(path)@.skip(old(path)@.len() as int),
                curr as int,
                dest as int,
            ),
            !r ==> final(path)@ == old(path)@ && final(seen)@[curr as int],
            !r ==> forall|v: int|
                0 <= v < self@.len() && !old(seen)@[v] && #[trigger] final(seen)@[v] ==> closed_at(
                    self@,
                    final(seen)@,
                    v,
                ),
        decreases count_false(old(seen)@),
    {
        if curr == dest {
            path.push(curr);
            proof {
                assert(final(path)@.take(old(path)@.len() as int) =~= old(path)@);
                let added = final(path)@.skip(old(path)@.len() as int);
                assert(added =~= seq![curr]);
            }
            return true;
        }
        if seen[curr] {
            return false;
        }
        seen.set(curr, true);
        path.push(curr);
        let ghost g = self@;
        let ghost seen0 = seen@;
        let ghost path0 = path@;
        let mut k: usize = 0;
        while k < self.adj_list[curr].len()
            invariant
                self.wf(),
                g == self@,
                curr < g.len(),
                dest < g.len(),
                curr != dest,
                seen@.len() == g.len(),
                k <= g[curr as int].len(),
                g[curr as int].len() == self.adj_list@[curr as int]@.len(),
                old(seen)@.len() == g.len(),
                seen0 == old(seen)@.update(curr as int, true),
                !old(seen)@[curr as int],
                !old(seen)@[dest as int],
                forall|v: int| 0 <= v < seen@.len() && seen0[v] ==> #[trigger] seen@[v],
                seen@[curr as int],
                !seen@[dest as int],
                path@ == path0,
                path0 == old(path)@.push(curr),
                forall|v: int|
                    0 <= v < g.len() && !old(seen)@[v] && #[trigger] seen@[v] && v != curr
                        ==> closed_at(g, seen@, v),
                forall|j: int| 0 <= j < k ==> seen@[(#[trigger] g[curr as int][j]).0 as int],
            decreases g[curr as int].len() - k,
        {
            let e = self.adj_list[curr][k];
            proof {
                assert(g[curr as int][k as int] == (e.to, e.weight));
                assert(e.to < g.len());
                assert(forall|v: int|
                    0 <= v < old(seen)@.len() && old(seen)@[v] ==> #[trigger] seen@[v]);
                lemma_count_false_lt(old(seen)@, seen@, curr as int);
            }
            let ghost seen_pre = seen@;
            let ghost path_pre = path@;
            if self.walk(e.to, dest, path, seen) {
                proof {
                    let sub = final(path)@.skip(path_pre.len() as int);
                    let added = final(path)@.skip(old(path)@.len() as int);
                    assert(final(path)@.take(path_pre.len() as int) == path_pre);
                    assert(added =~= seq![curr] + sub) by {
                        assert forall|t: int| 0 <= t < added.len() implies added[t] == (seq![curr]
                            + sub)[t] by {
                            if t == 0 {
                                assert(final(path)@[old(path)@.len() as int] == path_pre[
                                    path_pre.len() - 1
                                ]);
                            }
                        }
                    }
                    assert(final(path)@.take(old(path)@.len() as int) =~= old(path)@);
                    assert(is_walk(g, added, curr as int, dest as int)) by {
                        assert(is_walk(g, sub, e.to as int, dest as int));
                        assert(added[0] == curr);
                        assert(added[added.len() - 1] == dest);
                        assert forall|t: int| 0 <= t < added.len() - 1 implies edge_to(
                            g,
                            #[trigger] added[t] as int,
                            added[t + 1] as int,
                        ) by {
                            if t == 0 {
                                assert(g[curr as int][k as int].0 == e.to);
                                assert(edge_to(g, curr as int, e.to as int));
                            } else {
                                assert(added[t] == sub[t - 1] && added[t + 1] == sub[t]);
                                assert(edge_to(g, sub[t - 1] as int, sub[t] as int));
                            }
                        }
                    }
                }
                return true;
            }
            proof {
                // carry closure of previously finished vertices to the grown set
                assert forall|v: int|
                    0 <= v < g.len() && !old(seen)@[v] && #[trigger] seen@[v] && v != curr
                        implies closed_at(g, seen@, v) by {
                    if seen_pre[v] {
                        assert(closed_at(g, seen_pre, v));
                        assert forall|kk: int| 0 <= kk < g[v].len() implies seen@[(
                        #[trigger] g[v][kk]).0 as int] by {
                            assert(seen_pre[g[v][kk].0 as int]);
                        }
                    } else {
                        assert(closed_at(g, seen@, v));
                    }
                }
                assert forall|j: int| 0 <= j < k + 1 implies seen@[(
                #[trigger] g[curr as int][j]).0 as int] by {
                    if j < k {
                        assert(seen_pre[g[curr as int][j].0 as int]);
                    } else {
                        assert(seen@[e.to as int]);
                    }
                }
            }
            k += 1;
        }
        let _ = path.pop();
        proof {
            assert(path0.drop_last() =~= old(path)@);
            assert(final(path)@ == old(path)@);
            // curr itself is now fully explored
            assert forall|v: int|
                0 <= v < g.len() && !old(seen)@[v] && #[trigger] final(seen)@[v] implies closed_at(
                g,
                final(seen)@,
                v,
            ) by {
                if v == curr {
                    assert forall|kk: int| 0 <= kk < g[curr as int].len() implies final(seen)@[(
                    #[trigger] g[curr as int][kk]).0 as int] by {}
                }
            }
        }
        return false;
    }

    /// Appends a directed edge from `source` to `to`. Rejects an index
    /// that names no vertex and leaves the graph unchanged in that case.
    pub fn add_edge(&mut self, source: usize, to: usize, weight: i32) -> (r: Result<(), Error>)
        ensures
            source < old(self)@.len() && to < old(self)@.len() ==> r is Ok && final(self)@ == old(
                self,
            )@.update(source as int, old(self)@[source as int].push((to, weight))),
            !(source < old(self)@.len() && to < old(self)@.len()) ==> r == Err::<(), Error>(
                Error::IndexOutOfBound,
            ) && final(self)@ == old(self)@,
            old(self).wf() ==> final(self).wf(),
    {
        if source < self.adj_list.len() && to < self.adj_list.len() {
            let row = &mut self.adj_list[source];
            row.push(Edge::new(to, weight));
            proof {
                assert(self@ =~~= old(self)@.update(
                    source as int,
                    old(self)@[source as int].push((to, weight)),
                ));
            }
            Ok(())
        } else {
            Err(Error::IndexOutOfBound)
        }
    }
}

} // verus!
