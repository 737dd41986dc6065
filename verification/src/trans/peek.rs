//! The PeeK graph-pruning preprocessor.
//!
//! PeeK colours every node with the cost of the cheapest walk from the
//! source through it to the destination, derives an upper cost bound — the
//! colour of the `k`-th "valid" node in ascending colour order, selected
//! here by counting, which names the same colour as walking a sorted order
//! would — and prunes everything above the bound before a K-shortest-path
//! strategy runs.

use vstd::prelude::*;

verus! {

use core::marker::PhantomData;
use vstd::pervasive::VecAdditionalExecFns;
use crate::graph::{Graph, Node, Edge, SearchError, lemma_node_index, node_index};
use crate::dist::{Distancing, colouring_ok, lemma_colouring_unique};
use crate::trans::{
    Transforming,
    colour_of,
    pruned_by_keeping,
    edge_carried,
    edge_has_origin,
    pruned_from,
};
use crate::{INFINITY, sat_add};

/// The neighbour of `cur` carrying the smallest annotation among the first
/// `j` edges, and that annotation: the greedy downhill step of the walk
/// reconstruction. The node count stands for "no neighbour qualifies"; an
/// annotation at `INFINITY` never qualifies, and among equals the earliest
/// edge wins.
pub open spec fn greedy_scan(g: Graph, costs: Seq<u64>, cur: int, j: int) -> (int, u64)
    decreases j,
{
    if j <= 0 {
        (g.nodes@.len() as int, INFINITY)
    } else {
        let prev = greedy_scan(g, costs, cur, j - 1);
        let ed = g.edges@[j - 1];
        if ed.left as int == cur && ed.right as int != cur && costs[ed.right as int] < prev.1 {
            (ed.right as int, costs[ed.right as int])
        } else if ed.left as int != cur && ed.right as int == cur && costs[ed.left as int]
            < prev.1 {
            (ed.left as int, costs[ed.left as int])
        } else {
            prev
        }
    }
}

/// Following a colouring downhill from `cur`: repeatedly step to the
/// neighbour with the smallest annotation until `target` is reached.
/// The reconstruction gives up when no neighbour with a finite annotation
/// offers itself, or when the fuel runs out (a plateau of equal
/// annotations could otherwise cycle forever).
pub open spec fn greedy_walk(
    g: Graph,
    costs: Seq<u64>,
    cur: int,
    target: int,
    fuel: nat,
) -> Option<Seq<int>>
    decreases fuel,
{
    if cur == target {
        Some(seq![cur])
    } else if fuel == 0 {
        None
    } else {
        let nx = greedy_scan(g, costs, cur, g.edges@.len() as int).0;
        if nx >= g.nodes@.len() {
            None
        } else {
            match greedy_walk(g, costs, nx, target, (fuel - 1) as nat) {
                Some(rest) => Some(seq![cur] + rest),
                None => None,
            }
        }
    }
}

/// The two walks share no node besides their common first one.
pub open spec fn share_no_inner_node(w1: Seq<int>, w2: Seq<int>) -> bool {
    forall|a: int, c: int|
        1 <= a < w1.len() && 1 <= c < w2.len() ==> #[trigger] w1[a] != #[trigger] w2[c]
}

/// What the validity test of a node decides: the walks to both endpoints
/// can be reconstructed greedily along the respective colourings, with as
/// much fuel as the graph has nodes, and they share no node besides the
/// tested one itself.
pub open spec fn valid_node(
    g: Graph,
    src_costs: Seq<u64>,
    dst_costs: Seq<u64>,
    srci: int,
    dsti: int,
    node: int,
) -> bool {
    let n = g.nodes@.len() as nat;
    match greedy_walk(g, src_costs, node, srci, n) {
        Some(w1) => match greedy_walk(g, dst_costs, node, dsti, n) {
            Some(w2) => share_no_inner_node(w1, w2),
            None => false,
        },
        None => false,
    }
}

/// How many of the first `upto` nodes are valid.
pub open spec fn valid_total(
    g: Graph,
    ds: Seq<u64>,
    dd: Seq<u64>,
    srci: int,
    dsti: int,
    upto: int,
) -> int
    decreases upto,
{
    if upto <= 0 {
        0
    } else {
        valid_total(g, ds, dd, srci, dsti, upto - 1) + if valid_node(
            g,
            ds,
            dd,
            srci,
            dsti,
            upto - 1,
        ) {
            1int
        } else {
            0int
        }
    }
}

/// How many of the first `upto` nodes are valid and coloured within `b`.
pub open spec fn valid_le_count(
    g: Graph,
    ds: Seq<u64>,
    dd: Seq<u64>,
    srci: int,
    dsti: int,
    b: u64,
    upto: int,
) -> int
    decreases upto,
{
    if upto <= 0 {
        0
    } else {
        valid_le_count(g, ds, dd, srci, dsti, b, upto - 1) + if valid_node(
            g,
            ds,
            dd,
            srci,
            dsti,
            upto - 1,
        ) && colour_of(ds, dd, upto - 1) <= b {
            1int
        } else {
            0int
        }
    }
}

/// How many of the first `upto` nodes are valid and coloured strictly
/// below `b`.
pub open spec fn valid_lt_count(
    g: Graph,
    ds: Seq<u64>,
    dd: Seq<u64>,
    srci: int,
    dsti: int,
    b: u64,
    upto: int,
) -> int
    decreases upto,
{
    if upto <= 0 {
        0
    } else {
        valid_lt_count(g, ds, dd, srci, dsti, b, upto - 1) + if valid_node(
            g,
            ds,
            dd,
            srci,
            dsti,
            upto - 1,
        ) && colour_of(ds, dd, upto - 1) < b {
            1int
        } else {
            0int
        }
    }
}

/// What the pruning bound is: with at least `k` valid nodes, the colour of
/// the `k`-th valid node in ascending colour order — the colour is carried
/// by a valid node, fewer than `k` valid nodes are coloured strictly below
/// it, and at least `k` are coloured within it (which pins the colour
/// exactly, whatever order nodes of equal colour take) — and otherwise the
/// largest colour over all nodes.
pub open spec fn peek_bound_ok(
    g: Graph,
    ds: Seq<u64>,
    dd: Seq<u64>,
    srci: int,
    dsti: int,
    k: int,
    b: u64,
) -> bool {
    let n = g.nodes@.len() as int;
    if k >= 1 && valid_total(g, ds, dd, srci, dsti, n) >= k {
        &&& exists|v: int|
            0 <= v < n && #[trigger] valid_node(g, ds, dd, srci, dsti, v) && colour_of(ds, dd, v)
                == b
        &&& valid_lt_count(g, ds, dd, srci, dsti, b, n) < k
        &&& valid_le_count(g, ds, dd, srci, dsti, b, n) >= k
    } else {
        &&& n > 0 ==> (exists|v: int| 0 <= v < n && colour_of(ds, dd, v) == b) && (forall|v: int|
            0 <= v < n ==> colour_of(ds, dd, v) <= b)
        &&& n == 0 ==> b == 0
    }
}

/// Among the first `upto` nodes, some valid one carries the largest colour
/// of any valid one.
#[verifier::rlimit(100)]
proof fn lemma_exists_max_valid(g: Graph, ds: Seq<u64>, dd: Seq<u64>, srci: int, dsti: int, upto: int)
    requires
        valid_total(g, ds, dd, srci, dsti, upto) >= 1,
    ensures
        exists|v: int|
            0 <= v < upto && #[trigger] valid_node(g, ds, dd, srci, dsti, v) && forall|u: int|
                0 <= u < upto && #[trigger] valid_node(g, ds, dd, srci, dsti, u) ==> colour_of(
                    ds,
                    dd,
                    u,
                ) <= colour_of(ds, dd, v),
    decreases upto,
{
    let last = upto - 1;
    if valid_total(g, ds, dd, srci, dsti, last) >= 1 {
        lemma_exists_max_valid(g, ds, dd, srci, dsti, last);
        let v0 = choose|v: int|
            0 <= v < last && #[trigger] valid_node(g, ds, dd, srci, dsti, v) && forall|u: int|
                0 <= u < last && #[trigger] valid_node(g, ds, dd, srci, dsti, u) ==> colour_of(
                    ds,
                    dd,
                    u,
                ) <= colour_of(ds, dd, v);
        if valid_node(g, ds, dd, srci, dsti, last) && colour_of(ds, dd, last) > colour_of(
            ds,
            dd,
            v0,
        ) {
            assert(valid_node(g, ds, dd, srci, dsti, last) && forall|u: int|
                0 <= u < upto && #[trigger] valid_node(g, ds, dd, srci, dsti, u) ==> colour_of(
                    ds,
                    dd,
                    u,
                ) <= colour_of(ds, dd, last));
        } else {
            assert(valid_node(g, ds, dd, srci, dsti, v0) && forall|u: int|
                0 <= u < upto && #[trigger] valid_node(g, ds, dd, srci, dsti, u) ==> colour_of(
                    ds,
                    dd,
                    u,
                ) <= colour_of(ds, dd, v0));
        }
    } else {
        assert(valid_node(g, ds, dd, srci, dsti, last));
        assert(valid_node(g, ds, dd, srci, dsti, last) && forall|u: int|
            0 <= u < upto && #[trigger] valid_node(g, ds, dd, srci, dsti, u) ==> colour_of(
                ds,
                dd,
                u,
            ) <= colour_of(ds, dd, last)) by {
            assert forall|u: int|
                0 <= u < upto && #[trigger] valid_node(g, ds, dd, srci, dsti, u) implies colour_of(
                ds,
                dd,
                u,
            ) <= colour_of(ds, dd, last) by {
                if u < last {
                    lemma_valid_counted(g, ds, dd, srci, dsti, u, last);
                }
            }
        }
    }
}

/// A valid node among the first `upto` makes the valid count positive.
proof fn lemma_valid_counted(
    g: Graph,
    ds: Seq<u64>,
    dd: Seq<u64>,
    srci: int,
    dsti: int,
    v: int,
    upto: int,
)
    requires
        0 <= v < upto,
        valid_node(g, ds, dd, srci, dsti, v),
    ensures
        valid_total(g, ds, dd, srci, dsti, upto) >= 1,
    decreases upto,
{
    lemma_counts_nonneg(g, ds, dd, srci, dsti, 0, upto - 1);
    if v < upto - 1 {
        lemma_valid_counted(g, ds, dd, srci, dsti, v, upto - 1);
    }
}

/// The counts never go negative.
proof fn lemma_counts_nonneg(
    g: Graph,
    ds: Seq<u64>,
    dd: Seq<u64>,
    srci: int,
    dsti: int,
    b: u64,
    upto: int,
)
    ensures
        valid_total(g, ds, dd, srci, dsti, upto) >= 0,
        valid_le_count(g, ds, dd, srci, dsti, b, upto) >= 0,
        valid_lt_count(g, ds, dd, srci, dsti, b, upto) >= 0,
    decreases upto,
{
    if upto > 0 {
        lemma_counts_nonneg(g, ds, dd, srci, dsti, b, upto - 1);
    }
}

/// When every valid node's colour lies within `c`, the within-`c` count is
/// the whole valid count.
proof fn lemma_le_count_full(
    g: Graph,
    ds: Seq<u64>,
    dd: Seq<u64>,
    srci: int,
    dsti: int,
    c: u64,
    upto: int,
)
    requires
        forall|u: int|
            0 <= u < upto && #[trigger] valid_node(g, ds, dd, srci, dsti, u) ==> colour_of(
                ds,
                dd,
                u,
            ) <= c,
    ensures
        valid_le_count(g, ds, dd, srci, dsti, c, upto) == valid_total(g, ds, dd, srci, dsti, upto),
    decreases upto,
{
    if upto > 0 {
        lemma_le_count_full(g, ds, dd, srci, dsti, c, upto - 1);
    }
}

/// Among the first `upto` nodes, if any valid one is coloured strictly
/// below `b`, then some valid one coloured strictly below `b` carries the
/// largest such colour.
#[verifier::rlimit(100)]
proof fn lemma_exists_max_valid_lt(
    g: Graph,
    ds: Seq<u64>,
    dd: Seq<u64>,
    srci: int,
    dsti: int,
    b: u64,
    upto: int,
)
    requires
        valid_lt_count(g, ds, dd, srci, dsti, b, upto) >= 1,
    ensures
        exists|v: int|
            0 <= v < upto && #[trigger] valid_node(g, ds, dd, srci, dsti, v) && colour_of(
                ds,
                dd,
                v,
            ) < b && forall|u: int|
                0 <= u < upto && #[trigger] valid_node(g, ds, dd, srci, dsti, u) && colour_of(
                    ds,
                    dd,
                    u,
                ) < b ==> colour_of(ds, dd, u) <= colour_of(ds, dd, v),
    decreases upto,
{
    let last = upto - 1;
    if valid_lt_count(g, ds, dd, srci, dsti, b, last) >= 1 {
        lemma_exists_max_valid_lt(g, ds, dd, srci, dsti, b, last);
        let v0 = choose|v: int|
            0 <= v < last && #[trigger] valid_node(g, ds, dd, srci, dsti, v) && colour_of(
                ds,
                dd,
                v,
            ) < b && forall|u: int|
                0 <= u < last && #[trigger] valid_node(g, ds, dd, srci, dsti, u) && colour_of(
                    ds,
                    dd,
                    u,
                ) < b ==> colour_of(ds, dd, u) <= colour_of(ds, dd, v);
        if valid_node(g, ds, dd, srci, dsti, last) && colour_of(ds, dd, last) < b && colour_of(
            ds,
            dd,
            last,
        ) > colour_of(ds, dd, v0) {
            assert(valid_node(g, ds, dd, srci, dsti, last) && colour_of(ds, dd, last) < b
                && forall|u: int|
                0 <= u < upto && #[trigger] valid_node(g, ds, dd, srci, dsti, u) && colour_of(
                    ds,
                    dd,
                    u,
                ) < b ==> colour_of(ds, dd, u) <= colour_of(ds, dd, last));
        } else {
            assert(valid_node(g, ds, dd, srci, dsti, v0) && colour_of(ds, dd, v0) < b && forall|
                u: int,
            |
                0 <= u < upto && #[trigger] valid_node(g, ds, dd, srci, dsti, u) && colour_of(
                    ds,
                    dd,
                    u,
                ) < b ==> colour_of(ds, dd, u) <= colour_of(ds, dd, v0));
        }
    } else {
        lemma_counts_nonneg(g, ds, dd, srci, dsti, b, last);
        assert(valid_node(g, ds, dd, srci, dsti, last) && colour_of(ds, dd, last) < b);
        assert(valid_node(g, ds, dd, srci, dsti, last) && colour_of(ds, dd, last) < b && forall|
            u: int,
        |
            0 <= u < upto && #[trigger] valid_node(g, ds, dd, srci, dsti, u) && colour_of(
                ds,
                dd,
                u,
            ) < b ==> colour_of(ds, dd, u) <= colour_of(ds, dd, last)) by {
            assert forall|u: int|
                0 <= u < upto && #[trigger] valid_node(g, ds, dd, srci, dsti, u) && colour_of(
                    ds,
                    dd,
                    u,
                ) < b implies colour_of(ds, dd, u) <= colour_of(ds, dd, last) by {
                if u < last {
                    lemma_lt_counted(g, ds, dd, srci, dsti, b, u, last);
                }
            }
        }
    }
}

/// A valid node coloured strictly below `b` among the first `upto` makes
/// the strictly-below count positive.
proof fn lemma_lt_counted(
    g: Graph,
    ds: Seq<u64>,
    dd: Seq<u64>,
    srci: int,
    dsti: int,
    b: u64,
    v: int,
    upto: int,
)
    requires
        0 <= v < upto,
        valid_node(g, ds, dd, srci, dsti, v),
        colour_of(ds, dd, v) < b,
    ensures
        valid_lt_count(g, ds, dd, srci, dsti, b, upto) >= 1,
    decreases upto,
{
    lemma_counts_nonneg(g, ds, dd, srci, dsti, b, upto - 1);
    if v < upto - 1 {
        lemma_lt_counted(g, ds, dd, srci, dsti, b, v, upto - 1);
    }
}

/// A colour bound that covers every valid colour strictly below `b` puts
/// the within-count at that bound above the strictly-below count at `b`.
proof fn lemma_le_ge_lt(
    g: Graph,
    ds: Seq<u64>,
    dd: Seq<u64>,
    srci: int,
    dsti: int,
    b: u64,
    c: u64,
    upto: int,
)
    requires
        forall|u: int|
            0 <= u < upto && #[trigger] valid_node(g, ds, dd, srci, dsti, u) && colour_of(
                ds,
                dd,
                u,
            ) < b ==> colour_of(ds, dd, u) <= c,
    ensures
        valid_le_count(g, ds, dd, srci, dsti, c, upto) >= valid_lt_count(
            g,
            ds,
            dd,
            srci,
            dsti,
            b,
            upto,
        ),
    decreases upto,
{
    if upto > 0 {
        lemma_le_ge_lt(g, ds, dd, srci, dsti, b, c, upto - 1);
    }
}

/// Follows a colouring downhill: from `from`, repeatedly steps to the
/// neighbour with the smallest annotation, until `target` is reached.
/// Gives up when a step offers no neighbour with a finite annotation, or
/// after as many steps as the graph has nodes (a plateau of equal
/// annotations could otherwise cycle forever). Returns exactly the walk
/// that [`greedy_walk`] describes.
fn follow_colours(graph: &Graph, costs: &Vec<u64>, from: usize, target: usize) -> (r: Option<
    Vec<usize>,
>)
    requires
        graph.wf(),
        costs@.len() == graph.nodes@.len(),
        from < graph.nodes@.len(),
    ensures
        ({
            let gw = greedy_walk(
                *graph,
                costs@,
                from as int,
                target as int,
                graph.nodes@.len() as nat,
            );
            match r {
                Some(w) => {
                    &&& gw == Some(w@.map_values(|u: usize| u as int))
                    &&& w@.len() >= 1
                    &&& w@[0] == from
                    &&& w@[w@.len() - 1] == target
                    &&& forall|i: int| 0 <= i < w@.len() ==> (#[trigger] w@[i]) < graph.nodes@.len()
                },
                None => gw is None,
            }
        }),
{
    let n = graph.nodes.len();
    let mut w: Vec<usize> = Vec::new();
    w.push(from);
    let mut cur: usize = from;
    let mut fuel: usize = n;
    while cur != target
        invariant
            graph.wf(),
            n == graph.nodes@.len(),
            costs@.len() == n,
            cur < n,
            w@.len() >= 1,
            w@[0] == from,
            w@[w@.len() - 1] == cur,
            forall|i: int| 0 <= i < w@.len() ==> (#[trigger] w@[i]) < n,
            ({
                let full = greedy_walk(*graph, costs@, from as int, target as int, n as nat);
                match greedy_walk(*graph, costs@, cur as int, target as int, fuel as nat) {
                    Some(rest) => full == Some(
                        w@.map_values(|u: usize| u as int).drop_last() + rest,
                    ),
                    None => full is None,
                }
            }),
        decreases fuel,
    {
        let ghost fuel0 = fuel as nat;
        if fuel == 0 {
            return None;
        }
        fuel = fuel - 1;
        let ecount = graph.edges.len();
        let mut best: usize = n;
        let mut best_c: u64 = INFINITY;
        let mut j: usize = 0;
        while j < ecount
            invariant
                graph.wf(),
                n == graph.nodes@.len(),
                ecount == graph.edges@.len(),
                j <= ecount,
                costs@.len() == n,
                cur < n,
                best <= n,
                best < n ==> best_c < INFINITY,
                (best as int, best_c) == greedy_scan(*graph, costs@, cur as int, j as int),
            decreases ecount - j,
        {
            let ed_left = graph.edges[j].left;
            let ed_right = graph.edges[j].right;
            let neigh: usize = if ed_left == cur && ed_right != cur {
                ed_right
            } else if ed_left != cur && ed_right == cur {
                ed_left
            } else {
                j = j + 1;
                continue ;
            };
            if costs[neigh] < best_c {
                best = neigh;
                best_c = costs[neigh];
            }
            j = j + 1;
        }
        if best == n {
            proof {
                assert(greedy_walk(*graph, costs@, cur as int, target as int, fuel0) is None);
            }
            return None;
        }
        let ghost oldw = w@;
        w.push(best);
        proof {
            let m = |u: usize| u as int;
            assert(w@.map_values(m).drop_last() =~= oldw.map_values(m));
            assert(oldw.map_values(m).drop_last().push(cur as int) =~= oldw.map_values(m));
            let full = greedy_walk(*graph, costs@, from as int, target as int, n as nat);
            match greedy_walk(*graph, costs@, best as int, target as int, fuel as nat) {
                Some(rest) => {
                    assert(greedy_walk(*graph, costs@, cur as int, target as int, fuel0)
                        == Some(seq![cur as int] + rest));
                    assert(oldw.map_values(m).drop_last() + (seq![cur as int] + rest)
                        =~= w@.map_values(m).drop_last() + rest);
                },
                None => {
                    assert(greedy_walk(*graph, costs@, cur as int, target as int, fuel0) is None);
                },
            }
        }
        cur = best;
    }
    proof {
        let m = |u: usize| u as int;
        assert(greedy_walk(*graph, costs@, cur as int, target as int, fuel as nat)
            == Some(seq![cur as int]));
        assert(w@.map_values(m).drop_last() + seq![cur as int] =~= w@.map_values(m));
    }
    Some(w)
}

/// Whether the cheapest walks `node -> src` and `node -> dst`, each
/// reconstructed greedily along the respective colouring, share no node
/// besides `node` itself: concatenating them then yields a simple path
/// through `node`. A node whose walks cannot be reconstructed is not
/// valid. Decides exactly [`valid_node`].
fn is_valid(
    graph: &Graph,
    src_costs: &Vec<u64>,
    dst_costs: &Vec<u64>,
    srci: usize,
    dsti: usize,
    node: usize,
) -> (r: bool)
    requires
        graph.wf(),
        src_costs@.len() == graph.nodes@.len(),
        dst_costs@.len() == graph.nodes@.len(),
        node < graph.nodes@.len(),
    ensures
        r == valid_node(
            *graph,
            src_costs@,
            dst_costs@,
            srci as int,
            dsti as int,
            node as int,
        ),
{
    let ghost gfuel = graph.nodes@.len() as nat;
    let w1 = match follow_colours(graph, src_costs, node, srci) {
        Some(w) => w,
        None => {
            return false;
        },
    };
    let w2 = match follow_colours(graph, dst_costs, node, dsti) {
        Some(w) => w,
        None => {
            return false;
        },
    };
    let ghost g1 = greedy_walk(*graph, src_costs@, node as int, srci as int, gfuel)->Some_0;
    let ghost g2 = greedy_walk(*graph, dst_costs@, node as int, dsti as int, gfuel)->Some_0;
    proof {
        assert(g1.len() == w1@.len() && forall|i: int|
            0 <= i < w1@.len() ==> #[trigger] g1[i] == w1@[i] as int);
        assert(g2.len() == w2@.len() && forall|i: int|
            0 <= i < w2@.len() ==> #[trigger] g2[i] == w2@[i] as int);
    }
    let l1 = w1.len();
    let l2 = w2.len();
    let mut a: usize = 1;
    while a < l1
        invariant
            l1 == w1@.len() && l1 >= 1,
            l2 == w2@.len() && l2 >= 1,
            gfuel == graph.nodes@.len() as nat,
            greedy_walk(*graph, src_costs@, node as int, srci as int, gfuel) == Some(g1),
            greedy_walk(*graph, dst_costs@, node as int, dsti as int, gfuel) == Some(g2),
            g1.len() == l1,
            g2.len() == l2,
            forall|i: int| 0 <= i < l1 ==> #[trigger] g1[i] == w1@[i] as int,
            forall|i: int| 0 <= i < l2 ==> #[trigger] g2[i] == w2@[i] as int,
            1 <= a <= l1,
            forall|a2: int, c2: int|
                1 <= a2 < a && 1 <= c2 < l2 ==> #[trigger] g1[a2] != #[trigger] g2[c2],
        decreases l1 - a,
    {
        let mut c: usize = 1;
        while c < l2
            invariant
                l1 == w1@.len() && l1 >= 1,
                l2 == w2@.len() && l2 >= 1,
                gfuel == graph.nodes@.len() as nat,
                greedy_walk(*graph, src_costs@, node as int, srci as int, gfuel) == Some(g1),
                greedy_walk(*graph, dst_costs@, node as int, dsti as int, gfuel) == Some(g2),
                g1.len() == l1,
                g2.len() == l2,
                forall|i: int| 0 <= i < l1 ==> #[trigger] g1[i] == w1@[i] as int,
                forall|i: int| 0 <= i < l2 ==> #[trigger] g2[i] == w2@[i] as int,
                1 <= a < l1,
                1 <= c <= l2,
                forall|a2: int, c2: int|
                    1 <= a2 < a && 1 <= c2 < l2 ==> #[trigger] g1[a2] != #[trigger] g2[c2],
                forall|c2: int| 1 <= c2 < c ==> g1[a as int] != #[trigger] g2[c2],
            decreases l2 - c,
        {
            if w1[a] == w2[c] {
                proof {
                    assert(g1[a as int] == g2[c as int]);
                    assert(greedy_walk(*graph, src_costs@, node as int, srci as int, gfuel)
                        == Some(g1));
                    assert(greedy_walk(*graph, dst_costs@, node as int, dsti as int, gfuel)
                        == Some(g2));
                    assert(!share_no_inner_node(g1, g2)) by {
                        assert(1 <= a && (a as int) < g1.len() && 1 <= c && (c as int) < g2.len()
                            && g1[a as int] == g2[c as int]);
                    }
                }
                return false;
            }
            proof {
                assert(g1[a as int] == w1@[a as int] as int);
                assert(g2[c as int] == w2@[c as int] as int);
            }
            c = c + 1;
        }
        a = a + 1;
    }
    proof {
        assert(share_no_inner_node(g1, g2));
    }
    true
}

/// The PeeK transform over any distance-colouring engine.
///
/// Both endpoint colourings are computed, every node receives the combined
/// colour of the cheapest source-to-destination walk through it, and the
/// bound is the colour of the `k`-th valid node in ascending colour order,
/// or the largest colour when fewer are valid. Nodes coloured above the
/// bound are removed, and so is every edge that costs more than the bound
/// or lost an endpoint.
#[verifier::rlimit(100)]
fn peek_transform<D: Distancing>(graph: &mut Graph, src: &str, dst: &str, k: usize) -> (r: Result<
    (),
    SearchError,
>)
    requires
        old(graph).wf(),
    ensures
        final (graph).wf(),
        match r {
            Ok(()) => {
                &&& old(graph).has_node(src@)
                &&& old(graph).has_node(dst@)
                &&& forall|ds: Seq<u64>, dd: Seq<u64>|
                    colouring_ok(*old(graph), ds, node_index(*old(graph), src@)) && colouring_ok(
                        *old(graph),
                        dd,
                        node_index(*old(graph), dst@),
                    ) ==> #[trigger] pruned_from(*old(graph), *final (graph), ds, dd)
                &&& forall|ds: Seq<u64>, dd: Seq<u64>|
                    #![trigger colouring_ok(*old(graph), ds, node_index(*old(graph), src@)), colouring_ok(*old(graph), dd, node_index(*old(graph), dst@))]
                    colouring_ok(*old(graph), ds, node_index(*old(graph), src@)) && colouring_ok(
                        *old(graph),
                        dd,
                        node_index(*old(graph), dst@),
                    ) ==> exists|b: u64, keep: Seq<int>|
                        #[trigger] pruned_by_keeping(*old(graph), *final (graph), ds, dd, b, keep)
                            && peek_bound_ok(
                            *old(graph),
                            ds,
                            dd,
                            node_index(*old(graph), src@),
                            node_index(*old(graph), dst@),
                            k as int,
                            b,
                        )
            },
            Err(e) => {
                &&& e == SearchError::UnknownNode
                &&& !old(graph).has_node(src@) || !old(graph).has_node(dst@)
                &&& *final (graph) == *old(graph)
            },
        },
{
    let srci = match graph.find_node(src) {
        Some(i) => i,
        None => {
            return Err(SearchError::UnknownNode);
        },
    };
    let dsti = match graph.find_node(dst) {
        Some(i) => i,
        None => {
            return Err(SearchError::UnknownNode);
        },
    };
    proof {
        lemma_node_index(*graph, src@);
        lemma_node_index(*graph, dst@);
    }
    let ds = match D::shortest_all(graph, src) {
        Ok(v) => v,
        Err(_) => {
            // Both endpoints were just found, so the engine cannot fail.
            proof {
                assert(false);
            }
            return Err(SearchError::UnknownNode);
        },
    };
    let dd = match D::shortest_all(graph, dst) {
        Ok(v) => v,
        Err(_) => {
            // As above: the destination is known to the graph.
            proof {
                assert(false);
            }
            return Err(SearchError::UnknownNode);
        },
    };
    let n = graph.nodes.len();
    // Step 1: colour every node with the combined cost through it.
    let mut colours: Vec<u64> = Vec::new();
    let mut i: usize = 0;
    while i < n
        invariant
            n == graph.nodes@.len(),
            ds@.len() == n,
            dd@.len() == n,
            i <= n,
            colours@.len() == i,
            forall|x: int| 0 <= x < i ==> #[trigger] colours@[x] == colour_of(ds@, dd@, x),
        decreases n - i,
    {
        colours.push(sat_add(ds[i], dd[i]));
        i = i + 1;
    }
    // Step 2: find the bound: the colour of the `k`-th valid node in
    // ascending colour order, or the largest colour over all nodes when
    // fewer than `k` nodes are valid. The `k`-th valid colour is selected
    // by counting: it is the smallest colour carried by a valid node that
    // has at least `k` valid nodes coloured within it.
    let mut validv: Vec<bool> = Vec::new();
    let mut i: usize = 0;
    while i < n
        invariant
            graph.wf(),
            n == graph.nodes@.len(),
            ds@.len() == n,
            dd@.len() == n,
            srci < n,
            dsti < n,
            i <= n,
            validv@.len() == i,
            forall|x: int|
                0 <= x < i ==> #[trigger] validv@[x] == valid_node(
                    *graph,
                    ds@,
                    dd@,
                    srci as int,
                    dsti as int,
                    x,
                ),
        decreases n - i,
    {
        let valid = is_valid(graph, &ds, &dd, srci, dsti, i);
        validv.push(valid);
        i = i + 1;
    }
    // The largest colour over all nodes, which stands when fewer than `k`
    // nodes turn out valid.
    let mut b: u64 = 0;
    if n > 0 {
        b = colours[0];
        let mut i: usize = 1;
        while i < n
            invariant
                n == colours@.len(),
                1 <= i <= n,
                exists|x: int| 0 <= x < i && b == #[trigger] colours@[x],
                forall|x: int| 0 <= x < i ==> #[trigger] colours@[x] <= b,
            decreases n - i,
        {
            if colours[i] > b {
                b = colours[i];
            }
            i = i + 1;
        }
    }
    // Count the valid nodes.
    let mut total: usize = 0;
    let mut i: usize = 0;
    while i < n
        invariant
            graph.wf(),
            n == graph.nodes@.len(),
            ds@.len() == n,
            dd@.len() == n,
            srci < n,
            dsti < n,
            i <= n,
            total <= i,
            validv@.len() == n,
            forall|x: int|
                0 <= x < n ==> #[trigger] validv@[x] == valid_node(
                    *graph,
                    ds@,
                    dd@,
                    srci as int,
                    dsti as int,
                    x,
                ),
            total as int == valid_total(*graph, ds@, dd@, srci as int, dsti as int, i as int),
        decreases n - i,
    {
        if validv[i] {
            total = total + 1;
        }
        i = i + 1;
    }
    if k >= 1 && total >= k {
        // Select the smallest colour carried by a valid node that has at
        // least `k` valid nodes coloured within it: the colour of the
        // `k`-th valid node in ascending colour order.
        let mut bestset = false;
        let mut bbest: u64 = 0;
        let mut v: usize = 0;
        while v < n
            invariant
                graph.wf(),
                n == graph.nodes@.len(),
                ds@.len() == n,
                dd@.len() == n,
                srci < n,
                dsti < n,
                colours@.len() == n,
                forall|x: int| 0 <= x < n ==> #[trigger] colours@[x] == colour_of(ds@, dd@, x),
                validv@.len() == n,
                forall|x: int|
                    0 <= x < n ==> #[trigger] validv@[x] == valid_node(
                        *graph,
                        ds@,
                        dd@,
                        srci as int,
                        dsti as int,
                        x,
                    ),
                v <= n,
                k >= 1,
                bestset ==> exists|u: int|
                    0 <= u < n && #[trigger] valid_node(*graph, ds@, dd@, srci as int, dsti as int, u)
                        && colour_of(ds@, dd@, u) == bbest,
                bestset ==> valid_le_count(
                    *graph,
                    ds@,
                    dd@,
                    srci as int,
                    dsti as int,
                    bbest,
                    n as int,
                ) >= k,
                !bestset ==> forall|u: int|
                    0 <= u < v && #[trigger] valid_node(*graph, ds@, dd@, srci as int, dsti as int, u)
                        ==> valid_le_count(
                        *graph,
                        ds@,
                        dd@,
                        srci as int,
                        dsti as int,
                        colour_of(ds@, dd@, u),
                        n as int,
                    ) < k,
                bestset ==> forall|u: int|
                    0 <= u < v && #[trigger] valid_node(*graph, ds@, dd@, srci as int, dsti as int, u)
                        && valid_le_count(
                        *graph,
                        ds@,
                        dd@,
                        srci as int,
                        dsti as int,
                        colour_of(ds@, dd@, u),
                        n as int,
                    ) >= k ==> bbest <= colour_of(ds@, dd@, u),
            decreases n - v,
        {
            if validv[v] {
                let c = colours[v];
                if !bestset || c < bbest {
                    // Count the valid nodes coloured within `c`.
                    let mut cnt: usize = 0;
                    let mut u: usize = 0;
                    while u < n
                        invariant
                            graph.wf(),
                            n == graph.nodes@.len(),
                            ds@.len() == n,
                            dd@.len() == n,
                            srci < n,
                            dsti < n,
                            colours@.len() == n,
                            forall|x: int|
                                0 <= x < n ==> #[trigger] colours@[x] == colour_of(ds@, dd@, x),
                            validv@.len() == n,
                            forall|x: int|
                                0 <= x < n ==> #[trigger] validv@[x] == valid_node(
                                    *graph,
                                    ds@,
                                    dd@,
                                    srci as int,
                                    dsti as int,
                                    x,
                                ),
                            u <= n,
                            cnt <= u,
                            cnt as int == valid_le_count(
                                *graph,
                                ds@,
                                dd@,
                                srci as int,
                                dsti as int,
                                c,
                                u as int,
                            ),
                        decreases n - u,
                    {
                        if validv[u] && colours[u] <= c {
                            cnt = cnt + 1;
                        }
                        u = u + 1;
                    }
                    if cnt >= k {
                        bbest = c;
                        bestset = true;
                    }
                }
            }
            v = v + 1;
        }
        proof {
            // Some valid node qualifies: the one carrying the largest valid
            // colour has every valid node coloured within it.
            if !bestset {
                lemma_exists_max_valid(*graph, ds@, dd@, srci as int, dsti as int, n as int);
                let vm = choose|vm: int|
                    0 <= vm < n && #[trigger] valid_node(
                        *graph,
                        ds@,
                        dd@,
                        srci as int,
                        dsti as int,
                        vm,
                    ) && forall|u: int|
                        0 <= u < n && #[trigger] valid_node(
                            *graph,
                            ds@,
                            dd@,
                            srci as int,
                            dsti as int,
                            u,
                        ) ==> colour_of(ds@, dd@, u) <= colour_of(ds@, dd@, vm);
                lemma_le_count_full(
                    *graph,
                    ds@,
                    dd@,
                    srci as int,
                    dsti as int,
                    colour_of(ds@, dd@, vm),
                    n as int,
                );
                assert(valid_le_count(
                    *graph,
                    ds@,
                    dd@,
                    srci as int,
                    dsti as int,
                    colour_of(ds@, dd@, vm),
                    n as int,
                ) >= k);
                assert(false);
            }
        }
        b = bbest;
        proof {
            // The selection is some node's colour.
            let u0 = choose|u: int|
                0 <= u < n && #[trigger] valid_node(
                    *graph,
                    ds@,
                    dd@,
                    srci as int,
                    dsti as int,
                    u,
                ) && colour_of(ds@, dd@, u) == bbest;
            assert(b == colours@[u0]);
            assert(exists|x: int| 0 <= x < n && b == #[trigger] colours@[x]);
            // Fewer than `k` valid nodes sit strictly below the selection:
            // otherwise the largest valid colour strictly below it would
            // have qualified as a smaller selection.
            if valid_lt_count(*graph, ds@, dd@, srci as int, dsti as int, b, n as int) >= k {
                lemma_exists_max_valid_lt(*graph, ds@, dd@, srci as int, dsti as int, b, n as int);
                let vm = choose|vm: int|
                    0 <= vm < n && #[trigger] valid_node(
                        *graph,
                        ds@,
                        dd@,
                        srci as int,
                        dsti as int,
                        vm,
                    ) && colour_of(ds@, dd@, vm) < b && forall|u: int|
                        0 <= u < n && #[trigger] valid_node(
                            *graph,
                            ds@,
                            dd@,
                            srci as int,
                            dsti as int,
                            u,
                        ) && colour_of(ds@, dd@, u) < b ==> colour_of(ds@, dd@, u) <= colour_of(
                            ds@,
                            dd@,
                            vm,
                        );
                lemma_le_ge_lt(
                    *graph,
                    ds@,
                    dd@,
                    srci as int,
                    dsti as int,
                    b,
                    colour_of(ds@, dd@, vm),
                    n as int,
                );
                assert(false);
            }
            assert(peek_bound_ok(*graph, ds@, dd@, srci as int, dsti as int, k as int, b));
        }
    } else {
        proof {
            if n > 0 {
                assert forall|v: int| 0 <= v < n implies colour_of(ds@, dd@, v) <= b by {
                    assert(colours@[v] == colour_of(ds@, dd@, v));
                    assert(colours@[v] <= b);
                }
                let x0 = choose|x: int| 0 <= x < n && b == #[trigger] colours@[x];
                assert(colour_of(ds@, dd@, x0) == b);
            }
            assert(peek_bound_ok(*graph, ds@, dd@, srci as int, dsti as int, k as int, b));
        }
    }
    // Step 3: rebuild the graph, keeping the nodes coloured within the
    // bound and the edges within the bound whose endpoints both survive.
    let mut keepv: Vec<usize> = Vec::new();
    let mut remap: Vec<usize> = vec![n; n];
    let mut newnodes: Vec<Node> = Vec::new();
    let mut i: usize = 0;
    while i < n
        invariant
            n == graph.nodes@.len(),
            colours@.len() == n,
            i <= n,
            remap@.len() == n,
            keepv@.len() == newnodes@.len(),
            forall|p: int, q2: int| 0 <= p < q2 < keepv@.len() ==> keepv@[p] < keepv@[q2],
            forall|p: int| 0 <= p < keepv@.len() ==> (#[trigger] keepv@[p]) < i,
            forall|p: int|
                0 <= p < keepv@.len() ==> colours@[#[trigger] keepv@[p] as int] <= b && remap@[
                keepv@[p] as int] == p,
            forall|j: int|
                0 <= j < i && colours@[j] <= b ==> (#[trigger] remap@[j]) < keepv@.len()
                    && keepv@[remap@[j] as int] == j,
            forall|j: int| 0 <= j < i && colours@[j] > b ==> (#[trigger] remap@[j]) == n,
            forall|j: int| i <= j < n ==> (#[trigger] remap@[j]) == n,
            forall|p: int|
                0 <= p < newnodes@.len() ==> #[trigger] newnodes@[p] == graph.nodes@[keepv@[
                    p] as int],
        decreases n - i,
    {
        if colours[i] <= b {
            remap.set(i, newnodes.len());
            keepv.push(i);
            let nid = graph.nodes[i].id.clone();
            let nx = graph.nodes[i].xpos;
            let ny = graph.nodes[i].ypos;
            newnodes.push(Node { id: nid, xpos: nx, ypos: ny });
            proof {
                assert(newnodes@[newnodes@.len() - 1] == graph.nodes@[i as int]);
            }
        }
        i = i + 1;
    }
    let newn = newnodes.len();
    let ecount = graph.edges.len();
    let mut newedges: Vec<Edge> = Vec::new();
    let ghost oldg = *graph;
    let ghost keep: Seq<int> = keepv@.map_values(|u: usize| u as int);
    let mut e: usize = 0;
    while e < ecount
        invariant
            graph.wf(),
            oldg == *graph,
            n == graph.nodes@.len(),
            ecount == graph.edges@.len(),
            colours@.len() == n,
            e <= ecount,
            newn == newnodes@.len(),
            keep == keepv@.map_values(|u: usize| u as int),
            keepv@.len() == newn,
            remap@.len() == n,
            forall|x2: int| 0 <= x2 < n ==> #[trigger] colours@[x2] == colour_of(ds@, dd@, x2),
            forall|p: int|
                0 <= p < keepv@.len() ==> colours@[#[trigger] keepv@[p] as int] <= b && (
                #[trigger] keepv@[p]) < n && remap@[keepv@[p] as int] == p,
            forall|j: int|
                0 <= j < n && colours@[j] <= b ==> (#[trigger] remap@[j]) < newn && keepv@[remap@[
                    j] as int] == j,
            forall|f: int|
                0 <= f < newedges@.len() ==> #[trigger] carried_now_from(
                    oldg,
                    newedges@,
                    keep,
                    b,
                    f,
                ),
            forall|e2: int|
                0 <= e2 < e && (#[trigger] graph.edges@[e2]).cost <= b && colours@[graph.edges@[
                    e2].left as int] <= b && colours@[graph.edges@[e2].right as int] <= b
                    ==> exists|f: int|
                    0 <= f < newedges@.len() && #[trigger] edge_carried_now(
                        oldg,
                        newedges@,
                        keep,
                        b,
                        e2,
                        f,
                    ),
        decreases ecount - e,
    {
        let ed_left = graph.edges[e].left;
        let ed_right = graph.edges[e].right;
        let ed_cost = graph.edges[e].cost;
        if ed_cost <= b && colours[ed_left] <= b && colours[ed_right] <= b {
            let eid = graph.edges[e].id.clone();
            let nl = remap[ed_left];
            let nr = remap[ed_right];
            let ghost f0 = newedges@.len() as int;
            let ghost prenew = newedges@;
            newedges.push(Edge { id: eid, left: nl, right: nr, cost: ed_cost });
            proof {
                assert(keep[nl as int] == ed_left as int);
                assert(keep[nr as int] == ed_right as int);
                assert(edge_carried_now(oldg, newedges@, keep, b, e as int, f0));
                assert forall|f: int| 0 <= f < newedges@.len() implies #[trigger] carried_now_from(
                    oldg,
                    newedges@,
                    keep,
                    b,
                    f,
                ) by {
                    if f < f0 {
                        assert(carried_now_from(oldg, prenew, keep, b, f));
                        let e2 = choose|e2: int|
                            #[trigger] edge_carried_now(oldg, prenew, keep, b, e2, f);
                        assert(prenew[f] == newedges@[f]);
                        assert(edge_carried_now(oldg, newedges@, keep, b, e2, f));
                    } else {
                        assert(edge_carried_now(oldg, newedges@, keep, b, e as int, f));
                    }
                }
                assert forall|e2: int|
                    0 <= e2 < e + 1 && (#[trigger] graph.edges@[e2]).cost <= b && colours@[
                        graph.edges@[e2].left as int] <= b && colours@[graph.edges@[
                        e2].right as int] <= b implies exists|f: int|
                    0 <= f < newedges@.len() && edge_carried_now(
                        oldg,
                        newedges@,
                        keep,
                        b,
                        e2,
                        f,
                    ) by {
                    if e2 == e as int {
                        assert(edge_carried_now(oldg, newedges@, keep, b, e2, f0));
                    } else {
                        let f = choose|f: int|
                            0 <= f < prenew.len() && #[trigger] edge_carried_now(
                                oldg,
                                prenew,
                                keep,
                                b,
                                e2,
                                f,
                            );
                        assert(prenew[f] == newedges@[f]);
                        assert(edge_carried_now(oldg, newedges@, keep, b, e2, f));
                    }
                }
            }
        }
        e = e + 1;
    }
    *graph = Graph { nodes: newnodes, edges: newedges };
    proof {
        // Well-formedness of the pruned graph.
        assert forall|f: int| 0 <= f < graph.edges@.len() implies (
        #[trigger] graph.edges@[f]).left < graph.nodes@.len() && graph.edges@[f].right
            < graph.nodes@.len() && graph.edges@[f].cost < INFINITY by {
            assert(carried_now_from(oldg, graph.edges@, keep, b, f));
            let e2 = choose|e2: int| #[trigger] edge_carried_now(oldg, graph.edges@, keep, b, e2, f);
            assert(oldg.edges@[e2].cost < INFINITY);
        }
        assert forall|p: int, q2: int|
            0 <= p < q2 < graph.nodes@.len() implies (#[trigger] graph.nodes@[p].id)@ != (
        #[trigger] graph.nodes@[q2].id)@ by {
            assert(keepv@[p] < keepv@[q2]);
            assert(graph.nodes@[p] == oldg.nodes@[keepv@[p] as int]);
            assert(graph.nodes@[q2] == oldg.nodes@[keepv@[q2] as int]);
        }
        assert(graph.wf());
        // The pruning relation, for the colourings this run computed.
        assert(pruned_by_keeping(oldg, *graph, ds@, dd@, b, keep)) by {
            if oldg.nodes@.len() > 0 {
                let i2 = choose|i2: int| 0 <= i2 < n && b == #[trigger] colours@[i2];
                assert(b == colour_of(ds@, dd@, i2));
            }
            assert forall|x2: int, y2: int| 0 <= x2 < y2 < keep.len() implies keep[x2] < keep[
                y2] by {
                assert(keepv@[x2] < keepv@[y2]);
            }
            assert forall|x2: int| 0 <= x2 < keep.len() implies 0 <= #[trigger] keep[x2]
                < oldg.nodes@.len() by {
                assert(keep[x2] == keepv@[x2] as int);
            }
            assert forall|x2: int| 0 <= x2 < keep.len() implies colour_of(
                ds@,
                dd@,
                #[trigger] keep[x2],
            ) <= b by {
                assert(keep[x2] == keepv@[x2] as int);
                assert(colours@[keepv@[x2] as int] <= b);
            }
            assert forall|x2: int| 0 <= x2 < keep.len() implies #[trigger] graph.nodes@[x2]
                == oldg.nodes@[keep[x2]] by {
                assert(keep[x2] == keepv@[x2] as int);
                assert(graph.nodes@[x2] == oldg.nodes@[keepv@[x2] as int]);
            }
            assert forall|i2: int|
                0 <= i2 < oldg.nodes@.len() && colour_of(ds@, dd@, i2) <= b implies #[trigger] keep.contains(
                i2,
            ) by {
                assert(colours@[i2] <= b);
                assert(keep[remap@[i2] as int] == i2);
            }
            assert forall|f: int| 0 <= f < graph.edges@.len() implies #[trigger] edge_has_origin(
                oldg,
                *graph,
                keep,
                b,
                f,
            ) by {
                assert(carried_now_from(oldg, graph.edges@, keep, b, f));
                let e2 = choose|e2: int|
                    #[trigger] edge_carried_now(oldg, graph.edges@, keep, b, e2, f);
                assert(edge_carried(oldg, *graph, keep, b, e2, f));
            }
            assert forall|e2: int|
                0 <= e2 < oldg.edges@.len() && (#[trigger] oldg.edges@[e2]).cost <= b && colour_of(
                    ds@,
                    dd@,
                    oldg.edges@[e2].left as int,
                ) <= b && colour_of(ds@, dd@, oldg.edges@[e2].right as int) <= b implies exists|
                f: int,
            |
                0 <= f < graph.edges@.len() && edge_carried(oldg, *graph, keep, b, e2, f) by {
                assert(colours@[oldg.edges@[e2].left as int] <= b);
                assert(colours@[oldg.edges@[e2].right as int] <= b);
                let f = choose|f: int|
                    0 <= f < graph.edges@.len() && #[trigger] edge_carried_now(
                        oldg,
                        graph.edges@,
                        keep,
                        b,
                        e2,
                        f,
                    );
                assert(edge_carried(oldg, *graph, keep, b, e2, f));
            }
        }
        // Any complete colourings agree with the computed ones, so the
        // relation holds for them as well.
        assert forall|ds2: Seq<u64>, dd2: Seq<u64>|
            colouring_ok(oldg, ds2, node_index(oldg, src@)) && colouring_ok(
                oldg,
                dd2,
                node_index(oldg, dst@),
            ) implies #[trigger] pruned_from(oldg, *graph, ds2, dd2) by {
            lemma_colouring_unique(oldg, ds2, ds@, node_index(oldg, src@));
            lemma_colouring_unique(oldg, dd2, dd@, node_index(oldg, dst@));
            assert(ds2 == ds@ && dd2 == dd@);
            assert(pruned_by_keeping(oldg, *graph, ds2, dd2, b, keep));
        }
        // And the bound the pruning used is the one the selection rule
        // names for those colourings.
        assert(srci as int == node_index(oldg, src@));
        assert(dsti as int == node_index(oldg, dst@));
        assert forall|ds2: Seq<u64>, dd2: Seq<u64>|
            #![trigger colouring_ok(oldg, ds2, node_index(oldg, src@)), colouring_ok(oldg, dd2, node_index(oldg, dst@))]
            colouring_ok(oldg, ds2, node_index(oldg, src@)) && colouring_ok(
                oldg,
                dd2,
                node_index(oldg, dst@),
            ) implies exists|b2: u64, keep2: Seq<int>|
            #[trigger] pruned_by_keeping(oldg, *graph, ds2, dd2, b2, keep2) && peek_bound_ok(
                oldg,
                ds2,
                dd2,
                node_index(oldg, src@),
                node_index(oldg, dst@),
                k as int,
                b2,
            ) by {
            lemma_colouring_unique(oldg, ds2, ds@, node_index(oldg, src@));
            lemma_colouring_unique(oldg, dd2, dd@, node_index(oldg, dst@));
            assert(ds2 == ds@ && dd2 == dd@);
            assert(pruned_by_keeping(oldg, *graph, ds2, dd2, b, keep));
            assert(peek_bound_ok(
                oldg,
                ds2,
                dd2,
                node_index(oldg, src@),
                node_index(oldg, dst@),
                k as int,
                b,
            ));
        }
    }
    Ok(())
}

/// Some original edge is carried at position `f` of the list under
/// construction.
spec fn carried_now_from(oldg: Graph, newedges: Seq<Edge>, keep: Seq<int>, b: u64, f: int) -> bool {
    exists|e: int| #[trigger] edge_carried_now(oldg, newedges, keep, b, e, f)
}

/// `edge_carried`, phrased over the edge list under construction.
spec fn edge_carried_now(
    oldg: Graph,
    newedges: Seq<Edge>,
    keep: Seq<int>,
    b: u64,
    e: int,
    f: int,
) -> bool {
    &&& 0 <= e < oldg.edges@.len()
    &&& 0 <= f < newedges.len()
    &&& oldg.edges@[e].cost <= b
    &&& newedges[f].id@ == oldg.edges@[e].id@
    &&& newedges[f].cost == oldg.edges@[e].cost
    &&& newedges[f].left < keep.len() && keep[newedges[f].left as int] == oldg.edges@[e].left as int
    &&& newedges[f].right < keep.len() && keep[newedges[f].right as int] == oldg.edges@[
        e].right as int
}

/// A prune-centric preprocessor for K-shortest-path computation, generic
/// over the distance-colouring engine it consults.
#[derive(Debug)]
pub struct PeeK<D> {
    _dist: PhantomData<D>,
}

impl<D: Distancing> Transforming for PeeK<D> {
    fn transform(graph: &mut Graph, src: &str, dst: &str, k: usize) -> (r: Result<
        (),
        SearchError,
    >) {
        peek_transform::<D>(graph, src, dst, k)
    }
}

/// The PeeK pruning fixed over the Dijkstra colouring engine.
#[derive(Clone, Copy, Debug)]
pub struct PeekPreprocess;

impl PeekPreprocess {
    /// Prunes the graph in place with PeeK over the Dijkstra colouring.
    pub fn preprocess(graph: &mut Graph, src: &str, dst: &str, k: usize) -> (r: Result<
        (),
        SearchError,
    >)
        requires
            old(graph).wf(),
        ensures
            final (graph).wf(),
            match r {
                Ok(()) => {
                    &&& old(graph).has_node(src@)
                    &&& old(graph).has_node(dst@)
                    &&& forall|ds: Seq<u64>, dd: Seq<u64>|
                        colouring_ok(*old(graph), ds, node_index(*old(graph), src@))
                            && colouring_ok(*old(graph), dd, node_index(*old(graph), dst@))
                            ==> #[trigger] pruned_from(*old(graph), *final (graph), ds, dd)
                    &&& forall|ds: Seq<u64>, dd: Seq<u64>|
                        #![trigger colouring_ok(*old(graph), ds, node_index(*old(graph), src@)), colouring_ok(*old(graph), dd, node_index(*old(graph), dst@))]
                        colouring_ok(*old(graph), ds, node_index(*old(graph), src@))
                            && colouring_ok(*old(graph), dd, node_index(*old(graph), dst@))
                            ==> exists|b: u64, keep: Seq<int>|
                            #[trigger] pruned_by_keeping(
                                *old(graph),
                                *final (graph),
                                ds,
                                dd,
                                b,
                                keep,
                            ) && peek_bound_ok(
                                *old(graph),
                                ds,
                                dd,
                                node_index(*old(graph), src@),
                                node_index(*old(graph), dst@),
                                k as int,
                                b,
                            )
                },
                Err(e) => {
                    &&& e == SearchError::UnknownNode
                    &&& !old(graph).has_node(src@) || !old(graph).has_node(dst@)
                    &&& *final (graph) == *old(graph)
                },
            },
    {
        peek_transform::<crate::dist::dijkstra::Dijkstra>(graph, src, dst, k)
    }
}

} // verus!
