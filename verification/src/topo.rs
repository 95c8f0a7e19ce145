//! Ordering the nodes of a processing graph so that every connection runs
//! from an earlier node to a later one.
//!
//! Among the orders that respect the connections, the one chosen always takes
//! the smallest-numbered node whose sources have all been placed.

use vstd::prelude::*;

verus! {

/// `order` lists the nodes `0..n` once each, and `rank` gives each node's
/// position in it.
pub open spec fn is_ranking(n: int, order: Seq<usize>, rank: Seq<usize>) -> bool {
    &&& order.len() == n
    &&& rank.len() == n
    &&& forall|i: int| 0 <= i < n ==> #[trigger] order[i] < n && rank[order[i] as int] == i
    &&& forall|v: int| 0 <= v < n ==> #[trigger] rank[v] < n && order[rank[v] as int] == v
}

/// Every connection runs from a lower rank to a higher one.
pub open spec fn respects_edges(edges: Seq<(usize, usize)>, rank: Seq<usize>) -> bool {
    forall|e: int| 0 <= e < edges.len() ==> rank[#[trigger] edges[e].0 as int] < rank[edges[e].1 as int]
}

/// Every source of `v` is ranked below `i`.
pub open spec fn sources_ranked_below(edges: Seq<(usize, usize)>, rank: Seq<usize>, v: int, i: int) -> bool {
    forall|e: int| 0 <= e < edges.len() && #[trigger] edges[e].1 == v ==> rank[edges[e].0 as int] < i
}

/// At each position the node taken is the smallest of those whose sources
/// all come earlier: any node placed later that was already free to go is
/// larger.
pub open spec fn smallest_first(n: int, edges: Seq<(usize, usize)>, order: Seq<usize>, rank: Seq<usize>) -> bool {
    forall|i: int, j: int|
        #![trigger order[i], order[j]]
        0 <= i < j < n && sources_ranked_below(edges, rank, order[j] as int, i) ==> order[i] < order[j]
}

/// A ranking of `0..n` into `0..n` under which every connection runs forward.
pub open spec fn orders_topologically(n: int, edges: Seq<(usize, usize)>, rank: Seq<usize>) -> bool {
    &&& rank.len() == n
    &&& (forall|v: int| 0 <= v < n ==> #[trigger] rank[v] < n)
    &&& respects_edges(edges, rank)
}

/// Every connection joins two of the nodes `0..n`.
pub open spec fn edges_within(n: int, edges: Seq<(usize, usize)>) -> bool {
    forall|e: int| 0 <= e < edges.len() ==> #[trigger] edges[e].0 < n && edges[e].1 < n
}

// ---------------------------------------------------------------------------
// Counting the nodes not yet placed.

pub open spec fn count_unplaced(placed: Seq<bool>) -> nat
    decreases placed.len(),
{
    if placed.len() == 0 {
        0
    } else {
        count_unplaced(placed.drop_last()) + if placed.last() {
            0nat
        } else {
            1nat
        }
    }
}

proof fn lemma_count_place(placed: Seq<bool>, v: int)
    requires
        0 <= v < placed.len(),
        !placed[v],
    ensures
        count_unplaced(placed.update(v, true)) + 1 == count_unplaced(placed),
    decreases placed.len(),
{
    let u = placed.update(v, true);
    if v == placed.len() - 1 {
        assert(u.drop_last() =~= placed.drop_last());
    } else {
        assert(u.drop_last() =~= placed.drop_last().update(v, true));
        lemma_count_place(placed.drop_last(), v);
    }
}

proof fn lemma_count_all_placed(placed: Seq<bool>)
    requires
        forall|v: int| 0 <= v < placed.len() ==> placed[v],
    ensures
        count_unplaced(placed) == 0,
    decreases placed.len(),
{
    if placed.len() > 0 {
        lemma_count_all_placed(placed.drop_last());
    }
}

// ---------------------------------------------------------------------------
// A stalled ordering proves a cycle.

/// Some source of `w` is not placed.
pub open spec fn blocked(edges: Seq<(usize, usize)>, placed: Seq<bool>, w: int) -> bool {
    exists|e: int| 0 <= e < edges.len() && #[trigger] edges[e].1 == w && !placed[edges[e].0 as int]
}

/// Every source of `w` is placed.
pub open spec fn sources_all_placed(edges: Seq<(usize, usize)>, placed: Seq<bool>, w: int) -> bool {
    forall|e: int| 0 <= e < edges.len() && #[trigger] edges[e].1 == w ==> placed[edges[e].0 as int]
}

/// Nodes remain, and each remaining node has a remaining source.
pub open spec fn stalled(n: int, edges: Seq<(usize, usize)>, placed: Seq<bool>) -> bool {
    &&& placed.len() == n
    &&& exists|v: int| 0 <= v < n && !#[trigger] placed[v]
    &&& forall|v: int| 0 <= v < n && !#[trigger] placed[v] ==> blocked(edges, placed, v)
}

proof fn lemma_stalled_ranks_grow(
    n: int,
    edges: Seq<(usize, usize)>,
    placed: Seq<bool>,
    rank: Seq<usize>,
    k: nat,
)
    requires
        edges_within(n, edges),
        stalled(n, edges, placed),
        orders_topologically(n, edges, rank),
    ensures
        forall|v: int| 0 <= v < n && !placed[v] ==> #[trigger] rank[v] >= k,
    decreases k,
{
    if k > 0 {
        lemma_stalled_ranks_grow(n, edges, placed, rank, (k - 1) as nat);
        assert forall|v: int| 0 <= v < n && !placed[v] implies #[trigger] rank[v] >= k by {
            assert(blocked(edges, placed, v));
            let e = choose|e: int|
                0 <= e < edges.len() && #[trigger] edges[e].1 == v && !placed[edges[e].0 as int];
            let p = edges[e].0 as int;
            assert(edges[e].0 < n);
            assert(rank[p] < rank[v]);
            assert(rank[p] >= k - 1);
        }
    }
}

/// When no remaining node is free to go, no ranking respects the connections.
proof fn lemma_stalled_has_no_order(n: int, edges: Seq<(usize, usize)>, placed: Seq<bool>)
    requires
        edges_within(n, edges),
        stalled(n, edges, placed),
    ensures
        forall|rank: Seq<usize>| !orders_topologically(n, edges, rank),
{
    assert forall|rank: Seq<usize>| !orders_topologically(n, edges, rank) by {
        if orders_topologically(n, edges, rank) {
            lemma_stalled_ranks_grow(n, edges, placed, rank, n as nat);
            let v = choose|v: int| 0 <= v < n && !#[trigger] placed[v];
            assert(rank[v] < n);
        }
    }
}

// ---------------------------------------------------------------------------
// Executable ordering.

/// Every source of `v` is placed and was given a position below `i`.
pub open spec fn ready_at(
    edges: Seq<(usize, usize)>,
    placed: Seq<bool>,
    rank: Seq<usize>,
    i: int,
    v: int,
) -> bool {
    forall|e: int|
        0 <= e < edges.len() && #[trigger] edges[e].1 == v ==> placed[edges[e].0 as int]
            && rank[edges[e].0 as int] < i
}

/// The placed nodes are exactly those listed, each with its position.
#[verifier::opaque]
pub open spec fn placement_consistent(
    n: int,
    placed: Seq<bool>,
    rank: Seq<usize>,
    order: Seq<usize>,
) -> bool {
    &&& placed.len() == n
    &&& rank.len() == n
    &&& forall|i: int|
        0 <= i < order.len() ==> #[trigger] order[i] < n && placed[order[i] as int] && rank[order[i] as int]
            == i
    &&& forall|v: int|
        0 <= v < n && #[trigger] placed[v] ==> rank[v] < order.len() && order[rank[v] as int] == v
}

/// Each listed node's sources were listed before it.
#[verifier::opaque]
pub open spec fn placement_respects(
    edges: Seq<(usize, usize)>,
    placed: Seq<bool>,
    rank: Seq<usize>,
    order: Seq<usize>,
) -> bool {
    forall|i: int| 0 <= i < order.len() ==> ready_at(edges, placed, rank, i, #[trigger] order[i] as int)
}

/// Each listed node is no larger than any node that was free to go at its
/// turn and was not listed before it.
#[verifier::opaque]
pub open spec fn placement_smallest(
    n: int,
    edges: Seq<(usize, usize)>,
    placed: Seq<bool>,
    rank: Seq<usize>,
    order: Seq<usize>,
) -> bool {
    forall|i: int, w: int|
        #![trigger order[i], placed[w]]
        0 <= i < order.len() && 0 <= w < n && ready_at(edges, placed, rank, i, w) && (!placed[w]
            || rank[w] >= i) ==> order[i] <= w
}

/// Every source of `v` is placed.
fn sources_placed(edges: &[(usize, usize)], placed: &Vec<bool>, v: usize) -> (r: bool)
    requires
        edges_within(placed@.len() as int, edges@),
    ensures
        r == sources_all_placed(edges@, placed@, v as int),
{
    let mut e: usize = 0;
    while e < edges.len()
        invariant
            e <= edges@.len(),
            edges_within(placed@.len() as int, edges@),
            forall|f: int| 0 <= f < e && #[trigger] edges@[f].1 == v ==> placed@[edges@[f].0 as int],
        decreases edges@.len() - e,
    {
        let (source, destination) = edges[e];
        if destination == v && !placed[source] {
            assert(edges@[e as int].1 == v);
            return false;
        }
        e = e + 1;
    }
    true
}

/// The smallest node that is not placed and whose sources all are, if any,
/// and whether any node is left unplaced.
fn next_free(edges: &[(usize, usize)], placed: &Vec<bool>) -> (r: (Option<usize>, bool))
    requires
        edges_within(placed@.len() as int, edges@),
    ensures
        match r.0 {
            Some(v) => {
                &&& v < placed@.len()
                &&& !placed@[v as int]
                &&& sources_all_placed(edges@, placed@, v as int)
                &&& forall|w: int| 0 <= w < v && !#[trigger] placed@[w] ==> blocked(edges@, placed@, w)
            },
            None => forall|w: int|
                0 <= w < placed@.len() && !#[trigger] placed@[w] ==> blocked(edges@, placed@, w),
        },
        r.1 == exists|w: int| 0 <= w < placed@.len() && !#[trigger] placed@[w],
{
    let mut v: usize = 0;
    let mut any_left = false;
    while v < placed.len()
        invariant
            v <= placed@.len(),
            edges_within(placed@.len() as int, edges@),
            any_left == exists|w: int| 0 <= w < v && !#[trigger] placed@[w],
            forall|w: int| 0 <= w < v && !#[trigger] placed@[w] ==> blocked(edges@, placed@, w),
        decreases placed@.len() - v,
    {
        if !placed[v] {
            any_left = true;
            if sources_placed(edges, placed, v) {
                return (Some(v), true);
            }
        }
        v = v + 1;
    }
    (None, any_left)
}

/// Orders the nodes `0..node_count` so that every connection runs forward,
/// taking at each step the smallest node whose sources are all placed.
/// Returns the order and each node's position in it, or `None` when the
/// connections form a cycle.
pub fn topological_order(node_count: usize, edges: &[(usize, usize)]) -> (r: Option<
    (Vec<usize>, Vec<usize>),
>)
    requires
        edges_within(node_count as int, edges@),
    ensures
        match r {
            Some((order, rank)) => {
                &&& is_ranking(node_count as int, order@, rank@)
                &&& respects_edges(edges@, rank@)
                &&& smallest_first(node_count as int, edges@, order@, rank@)
            },
            None => forall|rank: Seq<usize>| !orders_topologically(node_count as int, edges@, rank),
        },
{
    let n = node_count;
    let mut placed: Vec<bool> = Vec::new();
    let mut rank: Vec<usize> = Vec::new();
    let mut k: usize = 0;
    while k < n
        invariant
            k <= n,
            placed@.len() == k,
            rank@.len() == k,
            forall|v: int| 0 <= v < k ==> !#[trigger] placed@[v],
        decreases n - k,
    {
        placed.push(false);
        rank.push(0);
        k = k + 1;
    }
    let mut order: Vec<usize> = Vec::new();
    proof {
        lemma_count_unplaced_full(placed@);
        reveal(placement_consistent);
        reveal(placement_respects);
        reveal(placement_smallest);
    }
    loop
        invariant
            n == node_count,
            edges_within(n as int, edges@),
            placed@.len() == n,
            rank@.len() == n,
            order@.len() + count_unplaced(placed@) == n,
            placement_consistent(n as int, placed@, rank@, order@),
            placement_respects(edges@, placed@, rank@, order@),
            placement_smallest(n as int, edges@, placed@, rank@, order@),
        decreases count_unplaced(placed@),
    {
        let (free, any_left) = next_free(edges, &placed);
        match free {
            Some(v) => {
                let ghost placed0 = placed@;
                let ghost rank0 = rank@;
                let ghost order0 = order@;
                let position = order.len();
                proof {
                    lemma_count_place(placed@, v as int);
                }
                placed.set(v, true);
                rank.set(v, position);
                order.push(v);
                proof {
                    lemma_place_consistent(n as int, placed0, rank0, order0, v as int);
                    lemma_place_respects(n as int, edges@, placed0, rank0, order0, v as int);
                    lemma_place_smallest(n as int, edges@, placed0, rank0, order0, v as int);
                }
            },
            None => {
                if any_left {
                    proof {
                        lemma_stalled_has_no_order(n as int, edges@, placed@);
                    }
                    return None;
                }
                proof {
                    lemma_count_all_placed(placed@);
                    lemma_finished(n as int, edges@, placed@, rank@, order@);
                }
                return Some((order, rank));
            },
        }
    }
}

proof fn lemma_count_unplaced_full(placed: Seq<bool>)
    requires
        forall|v: int| 0 <= v < placed.len() ==> !placed[v],
    ensures
        count_unplaced(placed) == placed.len(),
    decreases placed.len(),
{
    if placed.len() > 0 {
        lemma_count_unplaced_full(placed.drop_last());
    }
}

proof fn lemma_place_consistent(
    n: int,
    placed0: Seq<bool>,
    rank0: Seq<usize>,
    order0: Seq<usize>,
    v: int,
)
    requires
        placement_consistent(n, placed0, rank0, order0),
        n <= usize::MAX,
        order0.len() < n,
        0 <= v < n,
        !placed0[v],
    ensures
        placement_consistent(
            n,
            placed0.update(v, true),
            rank0.update(v, order0.len() as usize),
            order0.push(v as usize),
        ),
{
    reveal(placement_consistent);
    let placed = placed0.update(v, true);
    let rank = rank0.update(v, order0.len() as usize);
    let order = order0.push(v as usize);
    assert forall|i: int| 0 <= i < order.len() implies #[trigger] order[i] < n && placed[order[i] as int]
        && rank[order[i] as int] == i by {
        if i < order0.len() {
            assert(order[i] == order0[i]);
            assert(placed0[order0[i] as int]);
        }
    }
    assert forall|w: int| 0 <= w < n && #[trigger] placed[w] implies rank[w] < order.len()
        && order[rank[w] as int] == w by {
        if w != v {
            assert(placed0[w]);
        }
    }
}

proof fn lemma_place_respects(
    n: int,
    edges: Seq<(usize, usize)>,
    placed0: Seq<bool>,
    rank0: Seq<usize>,
    order0: Seq<usize>,
    v: int,
)
    requires
        edges_within(n, edges),
        placement_consistent(n, placed0, rank0, order0),
        placement_respects(edges, placed0, rank0, order0),
        n <= usize::MAX,
        order0.len() < n,
        0 <= v < n,
        !placed0[v],
        sources_all_placed(edges, placed0, v),
    ensures
        placement_respects(
            edges,
            placed0.update(v, true),
            rank0.update(v, order0.len() as usize),
            order0.push(v as usize),
        ),
{
    reveal(placement_consistent);
    reveal(placement_respects);
    let placed = placed0.update(v, true);
    let rank = rank0.update(v, order0.len() as usize);
    let order = order0.push(v as usize);
    let len = order0.len() as int;
    assert forall|i: int| 0 <= i < order.len() implies ready_at(
        edges,
        placed,
        rank,
        i,
        #[trigger] order[i] as int,
    ) by {
        assert forall|e: int|
            0 <= e < edges.len() && #[trigger] edges[e].1 == order[i] as int implies placed[edges[e].0 as int]
            && rank[edges[e].0 as int] < i by {
            let p = edges[e].0 as int;
            assert(edges[e].0 < n);
            if i < len {
                assert(order[i] == order0[i]);
                assert(ready_at(edges, placed0, rank0, i, order0[i] as int));
                assert(placed0[p] && rank0[p] < i);
            } else {
                assert(order[i] as int == v);
                assert(placed0[p]);
                assert(rank0[p] < len);
            }
            assert(p != v);
        }
    }
}

proof fn lemma_place_smallest(
    n: int,
    edges: Seq<(usize, usize)>,
    placed0: Seq<bool>,
    rank0: Seq<usize>,
    order0: Seq<usize>,
    v: int,
)
    requires
        edges_within(n, edges),
        placement_consistent(n, placed0, rank0, order0),
        placement_smallest(n, edges, placed0, rank0, order0),
        n <= usize::MAX,
        order0.len() < n,
        0 <= v < n,
        !placed0[v],
        forall|w: int| 0 <= w < v && !#[trigger] placed0[w] ==> blocked(edges, placed0, w),
    ensures
        placement_smallest(
            n,
            edges,
            placed0.update(v, true),
            rank0.update(v, order0.len() as usize),
            order0.push(v as usize),
        ),
{
    reveal(placement_consistent);
    reveal(placement_smallest);
    let placed = placed0.update(v, true);
    let rank = rank0.update(v, order0.len() as usize);
    let order = order0.push(v as usize);
    let len = order0.len() as int;
    assert forall|i: int, w: int|
        #![trigger order[i], placed[w]]
        0 <= i < order.len() && 0 <= w < n && ready_at(edges, placed, rank, i, w) && (!placed[w] || rank[w]
            >= i) implies order[i] <= w by {
        assert forall|e: int| 0 <= e < edges.len() && #[trigger] edges[e].1 == w implies placed0[edges[e].0 as int]
            && rank0[edges[e].0 as int] < i by {
            let p = edges[e].0 as int;
            assert(edges[e].0 < n);
            assert(placed[p] && rank[p] < i);
            if p == v {
                assert(rank[p] == len);
            }
        }
        assert(ready_at(edges, placed0, rank0, i, w));
        if i < len {
            assert(order[i] == order0[i]);
            if w != v {
                assert(placed[w] == placed0[w]);
                assert(rank[w] == rank0[w]);
            }
            assert(order0[i] <= w);
        } else if w != v {
            assert(placed[w] == placed0[w]);
            if placed0[w] {
                assert(rank0[w] < len);
                assert(rank[w] == rank0[w]);
            } else if w < v {
                assert(blocked(edges, placed0, w));
                let e = choose|e: int|
                    0 <= e < edges.len() && #[trigger] edges[e].1 == w && !placed0[edges[e].0 as int];
                assert(placed0[edges[e].0 as int]);
            }
        }
    }
}

/// With every node placed, the loop's facts are the function's contract.
proof fn lemma_finished(
    n: int,
    edges: Seq<(usize, usize)>,
    placed: Seq<bool>,
    rank: Seq<usize>,
    order: Seq<usize>,
)
    requires
        edges_within(n, edges),
        order.len() == n,
        forall|v: int| 0 <= v < n ==> #[trigger] placed[v],
        placement_consistent(n, placed, rank, order),
        placement_respects(edges, placed, rank, order),
        placement_smallest(n, edges, placed, rank, order),
    ensures
        is_ranking(n, order, rank),
        respects_edges(edges, rank),
        smallest_first(n, edges, order, rank),
{
    reveal(placement_consistent);
    reveal(placement_respects);
    reveal(placement_smallest);
    assert forall|v: int| 0 <= v < n implies #[trigger] rank[v] < n && order[rank[v] as int] == v by {
        assert(placed[v]);
    }
    assert forall|e: int| 0 <= e < edges.len() implies rank[#[trigger] edges[e].0 as int] < rank[edges[e].1 as int] by {
        let b = edges[e].1 as int;
        assert(edges[e].0 < n);
        assert(placed[b]);
        let j = rank[b] as int;
        assert(order[j] == b);
        assert(ready_at(edges, placed, rank, j, order[j] as int));
    }
    assert forall|i: int, j: int|
        #![trigger order[i], order[j]]
        0 <= i < j < n && sources_ranked_below(edges, rank, order[j] as int, i) implies order[i] < order[j] by {
        let w = order[j] as int;
        assert(placed[w]);
        assert(rank[w] == j);
        assert forall|e: int| 0 <= e < edges.len() && #[trigger] edges[e].1 == w implies placed[edges[e].0 as int]
            && rank[edges[e].0 as int] < i by {
            assert(edges[e].0 < n);
        }
        assert(ready_at(edges, placed, rank, i, w));
        assert(order[i] <= w);
        assert(rank[order[i] as int] == i);
    }
}

// ---------------------------------------------------------------------------
// The order is determined.

/// Both orders satisfy the contract of [`topological_order`].
pub open spec fn is_smallest_first_order(
    n: int,
    edges: Seq<(usize, usize)>,
    order: Seq<usize>,
    rank: Seq<usize>,
) -> bool {
    &&& is_ranking(n, order, rank)
    &&& respects_edges(edges, rank)
    &&& smallest_first(n, edges, order, rank)
}

proof fn lemma_orders_agree_below(
    n: int,
    edges: Seq<(usize, usize)>,
    o1: Seq<usize>,
    r1: Seq<usize>,
    o2: Seq<usize>,
    r2: Seq<usize>,
    k: int,
)
    requires
        0 <= k <= n,
        edges_within(n, edges),
        is_smallest_first_order(n, edges, o1, r1),
        is_smallest_first_order(n, edges, o2, r2),
    ensures
        forall|i: int| 0 <= i < k ==> #[trigger] o1[i] == o2[i],
    decreases k,
{
    if k > 0 {
        let j = k - 1;
        lemma_orders_agree_below(n, edges, o1, r1, o2, r2, j);
        if o1[j] != o2[j] {
            lemma_smaller_taken_first(n, edges, o1, r1, o2, r2, j);
            lemma_smaller_taken_first(n, edges, o2, r2, o1, r1, j);
        }
    }
}

/// Where two orders first differ, the first one takes the smaller node.
proof fn lemma_smaller_taken_first(
    n: int,
    edges: Seq<(usize, usize)>,
    o1: Seq<usize>,
    r1: Seq<usize>,
    o2: Seq<usize>,
    r2: Seq<usize>,
    j: int,
)
    requires
        0 <= j < n,
        edges_within(n, edges),
        is_smallest_first_order(n, edges, o1, r1),
        is_smallest_first_order(n, edges, o2, r2),
        forall|i: int| 0 <= i < j ==> #[trigger] o1[i] == o2[i],
        o1[j] != o2[j],
    ensures
        o1[j] < o2[j],
{
    let b = o2[j] as int;
    let pos = r1[b] as int;
    assert(o1[pos] == b);
    if pos < j {
        assert(o2[pos] == b);
        assert(r2[b] == pos);
        assert(r2[o2[j] as int] == j);
    }
    assert(pos != j);
    assert(j < pos);
    assert forall|e: int| 0 <= e < edges.len() && #[trigger] edges[e].1 == b implies r1[edges[e].0 as int] < j by {
        let p = edges[e].0 as int;
        assert(edges[e].0 < n);
        assert(r2[p] < r2[edges[e].1 as int]);
        assert(r2[b] == j);
        let q = r2[p] as int;
        assert(o2[q] == p);
        assert(o1[q] == o2[q]);
        assert(r1[o1[q] as int] == q);
    }
    assert(sources_ranked_below(edges, r1, o1[pos] as int, j));
}

/// There is only one smallest-first topological order: the one that
/// [`topological_order`] returns.
pub proof fn lemma_smallest_first_unique(
    n: int,
    edges: Seq<(usize, usize)>,
    o1: Seq<usize>,
    r1: Seq<usize>,
    o2: Seq<usize>,
    r2: Seq<usize>,
)
    requires
        0 <= n,
        edges_within(n, edges),
        is_smallest_first_order(n, edges, o1, r1),
        is_smallest_first_order(n, edges, o2, r2),
    ensures
        o1 == o2,
        r1 == r2,
{
    lemma_orders_agree_below(n, edges, o1, r1, o2, r2, n);
    assert(o1 =~= o2);
    assert forall|v: int| 0 <= v < n implies r1[v] == r2[v] by {
        let i = r1[v] as int;
        assert(o1[i] == v);
        assert(o2[i] == v);
        assert(r2[o2[i] as int] == i);
    }
    assert(r1 =~= r2);
}

/// The smallest-first topological order of `0..n` under `edges`, when one
/// exists.
pub open spec fn smallest_first_order(n: int, edges: Seq<(usize, usize)>) -> Option<
    (Seq<usize>, Seq<usize>),
> {
    if exists|p: (Seq<usize>, Seq<usize>)| is_smallest_first_order(n, edges, p.0, p.1) {
        Some(choose|p: (Seq<usize>, Seq<usize>)| is_smallest_first_order(n, edges, p.0, p.1))
    } else {
        None
    }
}

/// What [`topological_order`] returns is [`smallest_first_order`].
pub proof fn lemma_topological_order_is_spec(
    n: int,
    edges: Seq<(usize, usize)>,
    result: Option<(Seq<usize>, Seq<usize>)>,
)
    requires
        0 <= n,
        edges_within(n, edges),
        match result {
            Some(p) => is_smallest_first_order(n, edges, p.0, p.1),
            None => forall|rank: Seq<usize>| !orders_topologically(n, edges, rank),
        },
    ensures
        result == smallest_first_order(n, edges),
{
    match result {
        Some(p) => {
            assert(is_smallest_first_order(n, edges, p.0, p.1));
            let q = choose|q: (Seq<usize>, Seq<usize>)| is_smallest_first_order(n, edges, q.0, q.1);
            lemma_smallest_first_unique(n, edges, p.0, p.1, q.0, q.1);
        },
        None => {
            if exists|p: (Seq<usize>, Seq<usize>)| is_smallest_first_order(n, edges, p.0, p.1) {
                let q = choose|q: (Seq<usize>, Seq<usize>)| is_smallest_first_order(n, edges, q.0, q.1);
                assert(orders_topologically(n, edges, q.1));
            }
        },
    }
}

} // verus!
