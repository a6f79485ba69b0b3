//! Density-based cluster counting (DBSCAN) over precomputed neighbourhoods.
//!
//! `neighbors[i]` lists the points within the clustering radius of point `i`
//! (itself included), as a range query returns them. A point is a core point
//! when its neighbourhood holds at least `min_pts` points; clusters are the
//! groups of core points linked through each other's neighbourhoods.
use vstd::prelude::*;
use vstd::relations::injective;
use vstd::set_lib::{lemma_int_range, lemma_len_subset, set_int_range};
use crate::attack::contains_index;

verus! {

broadcast use vstd::seq_lib::group_seq_properties;

/// Point `i` is a core point.
pub open spec fn is_core(neighbors: Seq<Vec<usize>>, min_pts: usize, i: int) -> bool {
    neighbors[i]@.len() >= min_pts
}

/// `p` is a walk through core points, each step into the previous point's
/// neighbourhood.
pub open spec fn is_core_walk(neighbors: Seq<Vec<usize>>, min_pts: usize, p: Seq<int>) -> bool {
    &&& p.len() >= 1
    &&& forall|k: int| 0 <= k < p.len() ==> 0 <= #[trigger] p[k] < neighbors.len() && is_core(neighbors, min_pts, p[k])
    &&& forall|k: int| 0 <= k < p.len() - 1 ==> (#[trigger] neighbors[p[k]]@).contains(p[k + 1] as usize)
}

/// Core points `a` and `b` lie in the same cluster.
pub open spec fn linked(neighbors: Seq<Vec<usize>>, min_pts: usize, a: int, b: int) -> bool {
    exists|p: Seq<int>| #[trigger] is_core_walk(neighbors, min_pts, p) && p[0] == a && p.last() == b
}

/// The neighbourhoods of a range query: every listed index is a point,
/// no point is listed twice, and the relation is symmetric.
pub open spec fn neighborhoods_wf(neighbors: Seq<Vec<usize>>) -> bool {
    &&& forall|i: int, k: int|
        0 <= i < neighbors.len() && 0 <= k < neighbors[i]@.len() ==> (#[trigger] neighbors[i]@[k]) < neighbors.len()
    &&& forall|i: int| 0 <= i < neighbors.len() ==> (#[trigger] neighbors[i]@).no_duplicates()
    &&& forall|i: int, j: int|
        0 <= i < neighbors.len() && 0 <= j < neighbors.len() ==> ((#[trigger] neighbors[i]@).contains(j as usize)
            <==> (#[trigger] neighbors[j]@).contains(i as usize))
}

/// Point `i` starts a cluster: it is a core point and no core point before
/// it lies in its cluster.
pub open spec fn starts_cluster(neighbors: Seq<Vec<usize>>, min_pts: usize, i: int) -> bool {
    is_core(neighbors, min_pts, i) && forall|s: int|
        0 <= s < i && is_core(neighbors, min_pts, s) ==> !#[trigger] linked(neighbors, min_pts, s, i)
}

/// Number of clusters started among the first `k` points: the number of
/// clusters when `k` is the number of points.
pub open spec fn clusters_upto(neighbors: Seq<Vec<usize>>, min_pts: usize, k: nat) -> nat
    decreases k,
{
    if k == 0 {
        0
    } else {
        clusters_upto(neighbors, min_pts, (k - 1) as nat) + if starts_cluster(neighbors, min_pts, k - 1) {
            1nat
        } else {
            0nat
        }
    }
}

/// A core point is linked to itself.
proof fn lemma_linked_refl(neighbors: Seq<Vec<usize>>, min_pts: usize, a: int)
    requires
        0 <= a < neighbors.len(),
        is_core(neighbors, min_pts, a),
    ensures
        linked(neighbors, min_pts, a, a),
{
    let p = seq![a];
    assert(is_core_walk(neighbors, min_pts, p));
}

/// Stepping from a linked core point into its neighbourhood, onto another
/// core point, stays linked.
proof fn lemma_linked_step(neighbors: Seq<Vec<usize>>, min_pts: usize, a: int, c: int, b: int)
    requires
        linked(neighbors, min_pts, a, c),
        0 <= b < neighbors.len(),
        is_core(neighbors, min_pts, b),
        neighbors[c]@.contains(b as usize),
    ensures
        linked(neighbors, min_pts, a, b),
{
    let p = choose|p: Seq<int>| #[trigger] is_core_walk(neighbors, min_pts, p) && p[0] == a && p.last() == c;
    let q = p.push(b);
    assert forall|k: int| 0 <= k < q.len() - 1 implies (#[trigger] neighbors[q[k]]@).contains(q[k + 1] as usize) by {
        if k < p.len() - 1 {
            assert(q[k] == p[k] && q[k + 1] == p[k + 1]);
        }
    }
    assert(is_core_walk(neighbors, min_pts, q));
}

/// Links are symmetric (neighbourhoods are).
proof fn lemma_linked_symm(neighbors: Seq<Vec<usize>>, min_pts: usize, a: int, b: int)
    requires
        neighborhoods_wf(neighbors),
        linked(neighbors, min_pts, a, b),
    ensures
        linked(neighbors, min_pts, b, a),
{
    let p = choose|p: Seq<int>| #[trigger] is_core_walk(neighbors, min_pts, p) && p[0] == a && p.last() == b;
    let q = p.reverse();
    assert forall|k: int| 0 <= k < q.len() - 1 implies (#[trigger] neighbors[q[k]]@).contains(q[k + 1] as usize) by {
        let x = q[k];
        let y = q[k + 1];
        assert(x == p[p.len() - 1 - k]);
        assert(y == p[p.len() - 2 - k]);
        assert(neighbors[y]@.contains(x as usize));
    }
    assert forall|k: int| 0 <= k < q.len() implies 0 <= #[trigger] q[k] < neighbors.len() && is_core(
        neighbors,
        min_pts,
        q[k],
    ) by {
        assert(q[k] == p[p.len() - 1 - k]);
    }
    assert(is_core_walk(neighbors, min_pts, q));
}

/// Links compose.
proof fn lemma_linked_trans(neighbors: Seq<Vec<usize>>, min_pts: usize, a: int, b: int, c: int)
    requires
        linked(neighbors, min_pts, a, b),
        linked(neighbors, min_pts, b, c),
    ensures
        linked(neighbors, min_pts, a, c),
{
    let p = choose|p: Seq<int>| #[trigger] is_core_walk(neighbors, min_pts, p) && p[0] == a && p.last() == b;
    let q = choose|q: Seq<int>| #[trigger] is_core_walk(neighbors, min_pts, q) && q[0] == b && q.last() == c;
    let r = p + q.drop_first();
    assert forall|k: int| 0 <= k < r.len() - 1 implies (#[trigger] neighbors[r[k]]@).contains(r[k + 1] as usize) by {
        if k < p.len() - 1 {
            assert(r[k] == p[k] && r[k + 1] == p[k + 1]);
        } else if k == p.len() - 1 {
            assert(r[k] == b && r[k + 1] == q[1]);
            assert(q[0] == b);
        } else {
            let t = k - p.len() + 1;
            assert(r[k] == q[t] && r[k + 1] == q[t + 1]);
        }
    }
    assert forall|k: int| 0 <= k < r.len() implies 0 <= #[trigger] r[k] < neighbors.len() && is_core(
        neighbors,
        min_pts,
        r[k],
    ) by {
        if k >= p.len() {
            assert(r[k] == q[k - p.len() + 1]);
        }
    }
    if q.len() == 1 {
        assert(r =~= p);
    } else {
        assert(r.last() == q.last());
    }
    assert(is_core_walk(neighbors, min_pts, r));
}

/// Core point `x` lies in the cluster of a core point before `i`.
pub open spec fn claimed(neighbors: Seq<Vec<usize>>, min_pts: usize, i: int, x: int) -> bool {
    exists|s: int| 0 <= s < i && is_core(neighbors, min_pts, s) && #[trigger] linked(neighbors, min_pts, s, x)
}

/// Point `x` is in the neighbourhood of a core point linked to `i`.
pub open spec fn reached(neighbors: Seq<Vec<usize>>, min_pts: usize, i: int, x: int) -> bool {
    exists|c: int| 0 <= c < neighbors.len() && #[trigger] linked(neighbors, min_pts, i, c) && neighbors[c]@.contains(x as usize)
}

proof fn lemma_distinct_bounded(s: Seq<usize>, n: nat)
    requires
        s.no_duplicates(),
        forall|k: int| 0 <= k < s.len() ==> #[trigger] s[k] < n,
    ensures
        s.len() <= n,
{
    let f = |x: usize| x as int;
    assert(injective(f));
    s.lemma_no_duplicates_injective(f);
    let t = s.map_values(f);
    t.unique_seq_to_set();
    assert forall|x: int| t.to_set().contains(x) implies set_int_range(0, n as int).contains(x) by {
        let k = choose|k: int| 0 <= k < t.len() && t[k] == x;
        assert(s[k] < n);
    }
    lemma_int_range(0, n as int);
    lemma_len_subset(t.to_set(), set_int_range(0, n as int));
}

/// A core point linked to `i` is visited once the search from `i` is over:
/// following a walk from `i`, every point is queued by its predecessor.
proof fn lemma_search_complete(
    neighbors: Seq<Vec<usize>>,
    min_pts: usize,
    i: int,
    v0: Seq<bool>,
    visited: Seq<bool>,
    queue: Seq<usize>,
    p: Seq<int>,
    t: int,
)
    requires
        neighbors.len() <= usize::MAX,
        is_core_walk(neighbors, min_pts, p),
        p[0] == i,
        0 <= t < p.len(),
        visited.len() == neighbors.len(),
        visited[i],
        forall|y: usize| #[trigger] neighbors[i]@.contains(y) ==> queue.contains(y),
        forall|k: int|
            0 <= k < queue.len() ==> visited[#[trigger] queue[k] as int] && (is_core(neighbors, min_pts, queue[k] as int)
                && !v0[queue[k] as int] ==> forall|y: usize|
                #[trigger] neighbors[queue[k] as int]@.contains(y) ==> queue.contains(y)),
        forall|x: int| 0 <= x < neighbors.len() && visited[x] && !v0[x] && x != i ==> #[trigger] queue.contains(x as usize),
        forall|y: int|
            0 <= y < neighbors.len() && is_core(neighbors, min_pts, y) && #[trigger] linked(neighbors, min_pts, i, y)
                ==> !v0[y],
    ensures
        visited[p[t]],
    decreases t,
{
    if t > 0 {
        lemma_search_complete(neighbors, min_pts, i, v0, visited, queue, p, t - 1);
        let x = p[t - 1];
        let w = p.take(t);
        assert(is_core_walk(neighbors, min_pts, w));
        assert(w[0] == i && w.last() == x);
        assert(linked(neighbors, min_pts, i, x));
        assert(!v0[x]);
        assert(neighbors[x]@.contains(p[t] as usize));
        if x == i {
            assert(queue.contains(p[t] as usize));
        } else {
            assert(queue.contains(x as usize));
            let k = choose|k: int| 0 <= k < queue.len() && queue[k] == x as usize;
            assert(queue[k] as int == x);
            assert(queue.contains(p[t] as usize));
        }
        let k2 = choose|k: int| 0 <= k < queue.len() && queue[k] == p[t] as usize;
        assert(visited[queue[k2] as int]);
    }
}

/// Moving the scan past point `i` adds `i`'s cluster to the claimed ones.
proof fn lemma_claimed_next(neighbors: Seq<Vec<usize>>, min_pts: usize, i: int)
    requires
        0 <= i < neighbors.len(),
    ensures
        forall|x: int| #[trigger] claimed(neighbors, min_pts, i + 1, x) <==> (claimed(neighbors, min_pts, i, x) || (
        is_core(neighbors, min_pts, i) && linked(neighbors, min_pts, i, x))),
{
    assert forall|x: int| #[trigger] claimed(neighbors, min_pts, i + 1, x) implies claimed(neighbors, min_pts, i, x) || (
    is_core(neighbors, min_pts, i) && linked(neighbors, min_pts, i, x)) by {
        let s = choose|s: int| 0 <= s < i + 1 && is_core(neighbors, min_pts, s) && #[trigger] linked(neighbors, min_pts, s, x);
        if s < i {
            assert(claimed(neighbors, min_pts, i, x));
        }
    }
    assert forall|x: int| claimed(neighbors, min_pts, i, x) || (is_core(neighbors, min_pts, i) && linked(
        neighbors,
        min_pts,
        i,
        x,
    )) implies #[trigger] claimed(neighbors, min_pts, i + 1, x) by {
        if claimed(neighbors, min_pts, i, x) {
            let s = choose|s: int| 0 <= s < i && is_core(neighbors, min_pts, s) && #[trigger] linked(neighbors, min_pts, s, x);
            assert(0 <= s < i + 1);
        } else {
            assert(0 <= i < i + 1 && linked(neighbors, min_pts, i, x));
        }
    }
}

/// A point already claimed by an earlier cluster starts none, and its own
/// links bring nothing new.
proof fn lemma_visited_point_starts_nothing(neighbors: Seq<Vec<usize>>, min_pts: usize, i: int)
    requires
        0 <= i < neighbors.len(),
        is_core(neighbors, min_pts, i) ==> claimed(neighbors, min_pts, i, i),
    ensures
        !starts_cluster(neighbors, min_pts, i),
        forall|x: int|
            is_core(neighbors, min_pts, i) && #[trigger] linked(neighbors, min_pts, i, x) ==> claimed(neighbors, min_pts, i, x),
{
    if is_core(neighbors, min_pts, i) {
        let s = choose|s: int| 0 <= s < i && is_core(neighbors, min_pts, s) && #[trigger] linked(neighbors, min_pts, s, i);
        assert forall|x: int| #[trigger] linked(neighbors, min_pts, i, x) implies claimed(neighbors, min_pts, i, x) by {
            lemma_linked_trans(neighbors, min_pts, s, i, x);
        }
    }
}

/// An unclaimed core point starts a cluster, and no core point linked to it
/// has been claimed.
proof fn lemma_fresh_core_starts_cluster(neighbors: Seq<Vec<usize>>, min_pts: usize, i: int)
    requires
        neighborhoods_wf(neighbors),
        0 <= i < neighbors.len(),
        is_core(neighbors, min_pts, i),
        !claimed(neighbors, min_pts, i, i),
    ensures
        starts_cluster(neighbors, min_pts, i),
        forall|y: int| #[trigger] linked(neighbors, min_pts, i, y) ==> !claimed(neighbors, min_pts, i, y),
{
    assert forall|s: int| 0 <= s < i && is_core(neighbors, min_pts, s) implies !#[trigger] linked(neighbors, min_pts, s, i) by {
        if linked(neighbors, min_pts, s, i) {
            assert(claimed(neighbors, min_pts, i, i));
        }
    }
    assert forall|y: int| #[trigger] linked(neighbors, min_pts, i, y) implies !claimed(neighbors, min_pts, i, y) by {
        if claimed(neighbors, min_pts, i, y) {
            let s = choose|s: int| 0 <= s < i && is_core(neighbors, min_pts, s) && #[trigger] linked(neighbors, min_pts, s, y);
            lemma_linked_symm(neighbors, min_pts, i, y);
            lemma_linked_trans(neighbors, min_pts, s, y, i);
        }
    }
}

/// Breadth-first search from the core point `i`, which no earlier search
/// reached: marks `i` and everything reachable from it through core points'
/// neighbourhoods. Afterwards a core point is visited exactly when it was
/// visited before or is linked to `i`.
fn expand_cluster(neighbors: &[Vec<usize>], min_pts: usize, i: usize, visited: &mut Vec<bool>)
    requires
        neighborhoods_wf(neighbors@),
        i < neighbors@.len(),
        is_core(neighbors@, min_pts, i as int),
        old(visited)@.len() == neighbors@.len(),
        !old(visited)@[i as int],
        forall|y: int|
            0 <= y < neighbors@.len() && is_core(neighbors@, min_pts, y) && #[trigger] linked(neighbors@, min_pts, i as int, y)
                ==> !old(visited)@[y],
    ensures
        final(visited)@.len() == neighbors@.len(),
        forall|x: int| 0 <= x < neighbors@.len() && old(visited)@[x] ==> #[trigger] final(visited)@[x],
        forall|x: int|
            0 <= x < neighbors@.len() && is_core(neighbors@, min_pts, x) ==> (#[trigger] final(visited)@[x] <==> (old(
                visited,
            )@[x] || linked(neighbors@, min_pts, i as int, x))),
{
    let ghost nb = neighbors@;
    let n = neighbors.len();
    let ghost ii = i as int;
    let ghost v0 = visited@;
    proof {
        lemma_linked_refl(nb, min_pts, ii);
    }
    visited.set(i, true);
    let mut queue: Vec<usize> = Vec::new();
    let mut t: usize = 0;
    while t < neighbors[i].len()
        invariant
            t <= nb[ii]@.len(),
            n == nb.len(),
            nb == neighbors@,
            i < n,
            ii == i,
            neighborhoods_wf(nb),
            queue@ == nb[ii]@.take(t as int),
        decreases nb[ii]@.len() - t,
    {
        queue.push(neighbors[i][t]);
        t += 1;
        assert(queue@ =~= nb[ii]@.take(t as int));
    }
    assert(queue@ =~= nb[ii]@);
    proof {
        lemma_distinct_bounded(queue@, n as nat);
        assert forall|k: int| 0 <= k < queue@.len() implies #[trigger] reached(nb, min_pts, ii, queue@[k] as int) by {
            assert(nb[ii]@.contains(queue@[k]));
        }
    }
    let mut qi: usize = 0;
    while qi < queue.len()
        invariant
            n == nb.len(),
            nb == neighbors@,
            neighborhoods_wf(nb),
            i < n,
            ii == i,
            is_core(nb, min_pts, ii),
            linked(nb, min_pts, ii, ii),
            !v0[ii],
            v0.len() == n,
            visited@.len() == n,
            visited@[ii],
            qi <= queue@.len(),
            queue@.len() <= n,
            queue@.no_duplicates(),
            forall|k: int| 0 <= k < queue@.len() ==> #[trigger] queue@[k] < n,
            forall|y: usize| #[trigger] nb[ii]@.contains(y) ==> queue@.contains(y),
            forall|k: int| 0 <= k < queue@.len() ==> #[trigger] reached(nb, min_pts, ii, queue@[k] as int),
            forall|x: int| 0 <= x < n && v0[x] ==> #[trigger] visited@[x],
            forall|x: int|
                0 <= x < n && visited@[x] && !v0[x] && x != ii ==> exists|k: int|
                    0 <= k < qi && #[trigger] queue@[k] == x as usize,
            forall|k: int|
                0 <= k < qi ==> visited@[#[trigger] queue@[k] as int] && (is_core(nb, min_pts, queue@[k] as int)
                    && !v0[queue@[k] as int] ==> forall|y: usize|
                    #[trigger] nb[queue@[k] as int]@.contains(y) ==> queue@.contains(y)),
        decreases n - qi,
    {
        let j = queue[qi];
        let ghost jj = j as int;
        let ghost q_before = queue@;
        let ghost vis_before = visited@;
        if !visited[j] {
            visited.set(j, true);
            if neighbors[j].len() >= min_pts {
                proof {
                    assert(reached(nb, min_pts, ii, jj));
                    let c = choose|c: int| 0 <= c < nb.len() && #[trigger] linked(nb, min_pts, ii, c) && nb[c]@.contains(j);
                    lemma_linked_step(nb, min_pts, ii, c, jj);
                }
                let mut u: usize = 0;
                while u < neighbors[j].len()
                    invariant
                        u <= nb[jj]@.len(),
                        n == nb.len(),
                        nb == neighbors@,
                        neighborhoods_wf(nb),
                        j < n,
                        jj == j,
                        linked(nb, min_pts, ii, jj),
                        queue@.len() <= n,
                        queue@.no_duplicates(),
                        q_before.len() <= queue@.len(),
                        queue@.take(q_before.len() as int) == q_before,
                        forall|k: int| 0 <= k < queue@.len() ==> #[trigger] queue@[k] < n,
                        forall|k: int| 0 <= k < queue@.len() ==> #[trigger] reached(nb, min_pts, ii, queue@[k] as int),
                        forall|w: int| 0 <= w < u ==> queue@.contains(#[trigger] nb[jj]@[w]),
                    decreases nb[jj]@.len() - u,
                {
                    let k = neighbors[j][u];
                    if !contains_index(&queue, k) {
                        let ghost before = queue@;
                        queue.push(k);
                        proof {
                            assert(nb[jj]@.contains(k));
                            assert(reached(nb, min_pts, ii, k as int));
                            assert forall|a: int, b: int| 0 <= a < b < queue@.len() implies queue@[a] != queue@[b] by {
                                if b == queue@.len() - 1 {
                                    assert(!before.contains(k));
                                    assert(queue@[a] == before[a]);
                                }
                            }
                            lemma_distinct_bounded(queue@, n as nat);
                            assert(queue@.take(q_before.len() as int) =~= before.take(q_before.len() as int));
                            assert forall|w: int| 0 <= w < u implies queue@.contains(#[trigger] nb[jj]@[w]) by {
                                let q = choose|q: int| 0 <= q < before.len() && before[q] == nb[jj]@[w];
                                assert(queue@[q] == before[q]);
                            }
                            assert(queue@[queue@.len() - 1] == nb[jj]@[u as int]);
                        }
                    } else {
                        proof {
                            assert(queue@.contains(nb[jj]@[u as int]));
                        }
                    }
                    u += 1;
                }
                proof {
                    assert forall|y: usize| #[trigger] nb[jj]@.contains(y) implies queue@.contains(y) by {
                        let w = choose|w: int| 0 <= w < nb[jj]@.len() && nb[jj]@[w] == y;
                        assert(queue@.contains(nb[jj]@[w]));
                    }
                }
            }
        }
        proof {
            assert forall|k: int| 0 <= k < q_before.len() implies #[trigger] queue@[k] == q_before[k] by {
                assert(queue@.take(q_before.len() as int)[k] == queue@[k]);
            }
            assert forall|y: usize| #[trigger] nb[ii]@.contains(y) implies queue@.contains(y) by {
                let q = choose|q: int| 0 <= q < q_before.len() && q_before[q] == y;
                assert(queue@[q] == y);
            }
            assert forall|x: int|
                0 <= x < n && visited@[x] && !v0[x] && x != ii implies exists|k: int|
                    0 <= k < qi + 1 && #[trigger] queue@[k] == x as usize by {
                if x == jj {
                    assert(queue@[qi as int] == x as usize);
                } else {
                    assert(vis_before[x]);
                    let k = choose|k: int| 0 <= k < qi && #[trigger] q_before[k] == x as usize;
                    assert(queue@[k] == x as usize);
                }
            }
            assert forall|k: int| 0 <= k < qi + 1 implies visited@[#[trigger] queue@[k] as int] && (is_core(
                nb,
                min_pts,
                queue@[k] as int,
            ) && !v0[queue@[k] as int] ==> forall|y: usize|
                #[trigger] nb[queue@[k] as int]@.contains(y) ==> queue@.contains(y)) by {
                if k < qi {
                    assert(queue@[k] == q_before[k]);
                    if is_core(nb, min_pts, queue@[k] as int) && !v0[queue@[k] as int] {
                        assert forall|y: usize| #[trigger] nb[queue@[k] as int]@.contains(y) implies queue@.contains(y) by {
                            assert(q_before.contains(y));
                            let q = choose|q: int| 0 <= q < q_before.len() && q_before[q] == y;
                            assert(queue@[q] == y);
                        }
                    }
                } else {
                    assert(queue@[k] == j);
                    if is_core(nb, min_pts, jj) && !v0[jj] && vis_before[jj] {
                        if jj != ii {
                            let k0 = choose|k0: int| 0 <= k0 < qi && #[trigger] q_before[k0] == jj as usize;
                            assert(q_before[k0] == q_before[qi as int]);
                        } else {
                            assert forall|y: usize| #[trigger] nb[jj]@.contains(y) implies queue@.contains(y) by {
                                assert(nb[ii]@.contains(y));
                            }
                        }
                    }
                }
            }
        }
        qi += 1;
    }
    proof {
        assert forall|x: int| 0 <= x < n && visited@[x] && !v0[x] && x != ii implies #[trigger] queue@.contains(
            x as usize,
        ) by {
            let k = choose|k: int| 0 <= k < qi && #[trigger] queue@[k] == x as usize;
        }
        assert forall|x: int| 0 <= x < n && is_core(nb, min_pts, x) implies (visited@[x] <==> (v0[x]
            || #[trigger] linked(nb, min_pts, ii, x))) by {
            if visited@[x] && !v0[x] {
                if x != ii {
                    assert(queue@.contains(x as usize));
                    let k = choose|k: int| 0 <= k < queue@.len() && #[trigger] queue@[k] == x as usize;
                    assert(reached(nb, min_pts, ii, queue@[k] as int));
                    let c = choose|c: int|
                        0 <= c < nb.len() && #[trigger] linked(nb, min_pts, ii, c) && nb[c]@.contains(x as usize);
                    lemma_linked_step(nb, min_pts, ii, c, x);
                }
            }
            if linked(nb, min_pts, ii, x) && !v0[x] {
                let p = choose|p: Seq<int>| #[trigger] is_core_walk(nb, min_pts, p) && p[0] == ii && p.last() == x;
                lemma_search_complete(nb, min_pts, ii, v0, visited@, queue@, p, p.len() - 1);
            }
        }
    }
}

/// Count the clusters: scanning the points in order, every unvisited core
/// point starts a new cluster and a breadth-first search marks everything
/// reachable from it through core points' neighbourhoods; unvisited
/// non-core points are marked as noise. The count is the number of groups
/// of linked core points.
pub fn dbscan_count(neighbors: &[Vec<usize>], min_pts: usize) -> (count: usize)
    requires
        neighborhoods_wf(neighbors@),
    ensures
        count == clusters_upto(neighbors@, min_pts, neighbors@.len() as nat),
{
    let ghost nb = neighbors@;
    let n = neighbors.len();
    let mut visited: Vec<bool> = Vec::new();
    let mut z: usize = 0;
    while z < n
        invariant
            z <= n,
            visited@.len() == z,
            forall|x: int| 0 <= x < z ==> !visited@[x],
        decreases n - z,
    {
        visited.push(false);
        z += 1;
    }
    let mut count: usize = 0;
    let mut i: usize = 0;
    while i < n
        invariant
            i <= n,
            n == nb.len(),
            nb == neighbors@,
            neighborhoods_wf(nb),
            visited@.len() == n,
            count <= i,
            count == clusters_upto(nb, min_pts, i as nat),
            forall|x: int|
                0 <= x < n && is_core(nb, min_pts, x) ==> (visited@[x] <==> #[trigger] claimed(nb, min_pts, i as int, x)),
        decreases n - i,
    {
        let ghost ii = i as int;
        proof {
            lemma_claimed_next(nb, min_pts, ii);
        }
        if visited[i] {
            proof {
                lemma_visited_point_starts_nothing(nb, min_pts, ii);
            }
        } else if neighbors[i].len() < min_pts {
            let ghost before = visited@;
            visited.set(i, true);
            assert forall|x: int| 0 <= x < n && is_core(nb, min_pts, x) implies (visited@[x] <==> #[trigger] claimed(
                nb,
                min_pts,
                ii + 1,
                x,
            )) by {
                assert(visited@[x] == before[x]);
            }
        } else {
            proof {
                lemma_fresh_core_starts_cluster(nb, min_pts, ii);
            }
            count = count + 1;
            let ghost before = visited@;
            expand_cluster(neighbors, min_pts, i, &mut visited);
            assert forall|x: int| 0 <= x < n && is_core(nb, min_pts, x) implies (visited@[x] <==> #[trigger] claimed(
                nb,
                min_pts,
                ii + 1,
                x,
            )) by {
                if visited@[x] && !before[x] {
                    assert(0 <= ii < ii + 1 && is_core(nb, min_pts, ii) && linked(nb, min_pts, ii, x));
                }
            }
        }
        i += 1;
    }
    count
}

/// Every core point belongs to exactly one counted cluster: there is one
/// cluster start at or before it that it is linked to, and no two cluster
/// starts are linked to the same point.
pub proof fn lemma_each_core_point_in_one_cluster(neighbors: Seq<Vec<usize>>, min_pts: usize, x: int)
    requires
        neighborhoods_wf(neighbors),
        0 <= x < neighbors.len(),
        is_core(neighbors, min_pts, x),
    ensures
        exists|s: int| 0 <= s <= x && #[trigger] starts_cluster(neighbors, min_pts, s) && linked(neighbors, min_pts, s, x),
        forall|s1: int, s2: int|
            0 <= s1 < s2 < neighbors.len() && #[trigger] starts_cluster(neighbors, min_pts, s1) && #[trigger] starts_cluster(
                neighbors,
                min_pts,
                s2,
            ) ==> !(linked(neighbors, min_pts, s1, x) && linked(neighbors, min_pts, s2, x)),
    decreases x,
{
    if starts_cluster(neighbors, min_pts, x) {
        lemma_linked_refl(neighbors, min_pts, x);
    } else {
        let t = choose|t: int| 0 <= t < x && is_core(neighbors, min_pts, t) && #[trigger] linked(neighbors, min_pts, t, x);
        lemma_each_core_point_in_one_cluster(neighbors, min_pts, t);
        let s = choose|s: int| 0 <= s <= t && #[trigger] starts_cluster(neighbors, min_pts, s) && linked(neighbors, min_pts, s, t);
        lemma_linked_trans(neighbors, min_pts, s, t, x);
    }
    assert forall|s1: int, s2: int|
        0 <= s1 < s2 < neighbors.len() && #[trigger] starts_cluster(neighbors, min_pts, s1) && #[trigger] starts_cluster(
            neighbors,
            min_pts,
            s2,
        ) implies !(linked(neighbors, min_pts, s1, x) && linked(neighbors, min_pts, s2, x)) by {
        if linked(neighbors, min_pts, s1, x) && linked(neighbors, min_pts, s2, x) {
            lemma_linked_symm(neighbors, min_pts, s2, x);
            lemma_linked_trans(neighbors, min_pts, s1, x, s2);
            assert(is_core(neighbors, min_pts, s1));
        }
    }
}

} // verus!
