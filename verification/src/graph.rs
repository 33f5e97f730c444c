//! The preference graph: candidates as nodes, an edge from `a` to `b` when
//! more ballots rank `a` above `b` than the reverse. A decisive graph — one
//! with no directed cycle and connected when edges are read both ways —
//! singles out its sinks as the weakest candidates.

use vstd::prelude::*;

use crate::counts::entry_has;
use crate::counts::entry_index;
use crate::counts::entry_keys;
use crate::counts::entry_val;
use crate::counts::lemma_entry_index_of;
use crate::pairs::pair_keys;
use crate::pairs::pair_val;
use crate::pairs::find_pair;
use crate::round::min_val;

verus! {

/// How one candidate fares against another over all ballots.
#[derive(PartialEq, Eq, Structural)]
pub enum PairPreferences {
    PreferredOver,
    Inconclusive,
    PreferredAgainst,
}

/// The nodes of a preference graph, in insertion order; the node at each
/// index carries one candidate.
pub uninterp spec fn graph_cands(g: petgraph::graph::DiGraph<u16, u64>) -> Seq<u16>;

/// The directed edges of a preference graph, as pairs of node indices, in
/// insertion order.
pub uninterp spec fn graph_edge_list(g: petgraph::graph::DiGraph<u16, u64>) -> Seq<(int, int)>;

#[verifier::external_type_specification]
#[verifier::external_body]
#[verifier::reject_recursive_types(N)]
#[verifier::reject_recursive_types(E)]
#[verifier::reject_recursive_types(Ty)]
#[verifier::reject_recursive_types(Ix)]
pub struct ExGraph<N, E, Ty, Ix>(petgraph::graph::Graph<N, E, Ty, Ix>);

#[verifier::external_type_specification]
#[verifier::external_body]
pub struct ExDirected(petgraph::Directed);

/// Relies on petgraph's `Graph::new`: a new graph has no nodes and no edges.
#[verifier::external_body]
fn gw_new() -> (g: petgraph::graph::DiGraph<u16, u64>)
    ensures
        graph_cands(g) == Seq::<u16>::empty(),
        graph_edge_list(g) == Seq::<(int, int)>::empty(),
{
    petgraph::graph::DiGraph::new()
}

/// Relies on petgraph's `Graph::add_node`: appends a node carrying `weight`
/// and returns its index; while nothing is removed, indices count up from
/// zero in insertion order. Panics only at the index type's capacity, which
/// the precondition rules out.
#[verifier::external_body]
fn gw_add_node(graph: &mut petgraph::graph::DiGraph<u16, u64>, weight: u16) -> (idx: usize)
    requires
        graph_cands(*old(graph)).len() < 0xFFFF_FFFF,
    ensures
        graph_cands(*final(graph)) == graph_cands(*old(graph)).push(weight),
        graph_edge_list(*final(graph)) == graph_edge_list(*old(graph)),
        idx == graph_cands(*old(graph)).len(),
{
    graph.add_node(weight).index()
}

/// Relies on petgraph's `Graph::add_edge`: records one directed edge from
/// `a` to `b`. Panics only when an endpoint does not exist or the edge count
/// reaches the index type's capacity, which the preconditions rule out.
#[verifier::external_body]
fn gw_add_edge(graph: &mut petgraph::graph::DiGraph<u16, u64>, a: usize, b: usize, weight: u64)
    requires
        a < graph_cands(*old(graph)).len(),
        b < graph_cands(*old(graph)).len(),
        graph_edge_list(*old(graph)).len() < 0xFFFF_FFFE,
    ensures
        graph_cands(*final(graph)) == graph_cands(*old(graph)),
        graph_edge_list(*final(graph)) == graph_edge_list(*old(graph)).push(
            (a as int, b as int),
        ),
{
    graph.add_edge(
        petgraph::graph::NodeIndex::new(a),
        petgraph::graph::NodeIndex::new(b),
        weight,
    );
}

/// Relies on petgraph's `Graph::node_count`: the number of nodes.
#[verifier::external_body]
fn gw_node_count(graph: &petgraph::graph::DiGraph<u16, u64>) -> (n: usize)
    ensures
        n == graph_cands(*graph).len(),
{
    graph.node_count()
}

/// Relies on petgraph's `Graph::neighbors_directed` with `Outgoing`: yields
/// exactly the targets of the edges leaving node `i`.
#[verifier::external_body]
fn gw_out_neighbors(graph: &petgraph::graph::DiGraph<u16, u64>, i: usize) -> (r: Vec<usize>)
    ensures
        forall|k: int|
            0 <= k < r@.len() ==> graph_edge_list(*graph).contains(
                (i as int, #[trigger] r@[k] as int),
            ),
        forall|j: usize|
            graph_edge_list(*graph).contains((i as int, j as int)) ==> r@.contains(j),
{
    graph
        .neighbors_directed(petgraph::graph::NodeIndex::new(i), petgraph::Direction::Outgoing)
        .map(|ni| ni.index())
        .collect()
}

/// Relies on petgraph's `Graph::neighbors_directed` with `Incoming`: yields
/// exactly the sources of the edges entering node `i`.
#[verifier::external_body]
fn gw_in_neighbors(graph: &petgraph::graph::DiGraph<u16, u64>, i: usize) -> (r: Vec<usize>)
    ensures
        forall|k: int|
            0 <= k < r@.len() ==> graph_edge_list(*graph).contains(
                (#[trigger] r@[k] as int, i as int),
            ),
        forall|j: usize|
            graph_edge_list(*graph).contains((j as int, i as int)) ==> r@.contains(j),
{
    graph
        .neighbors_directed(petgraph::graph::NodeIndex::new(i), petgraph::Direction::Incoming)
        .map(|ni| ni.index())
        .collect()
}

/// A directed cycle: consecutive members are joined by edges, and an edge
/// closes the loop.
pub open spec fn is_cycle(es: Set<(int, int)>, c: Seq<int>) -> bool {
    &&& c.len() > 0
    &&& forall|i: int| 0 <= i < c.len() - 1 ==> es.contains((#[trigger] c[i], c[i + 1]))
    &&& es.contains((c.last(), c[0]))
}

/// No directed cycle at all.
pub open spec fn graph_acyclic(es: Set<(int, int)>) -> bool {
    forall|c: Seq<int>| !is_cycle(es, c)
}

/// A node set closed under the edges read in both directions.
pub open spec fn sym_closed(es: Set<(int, int)>, s: Set<int>) -> bool {
    forall|e: (int, int)|
        es.contains(e) ==> (s.contains(e.0) <==> s.contains(e.1))
}

/// `i` lies in every symmetrically closed set that holds node 0 — that is,
/// an undirected path joins 0 and `i`.
pub open spec fn sym_reach(es: Set<(int, int)>, i: int) -> bool {
    forall|s: Set<int>| s.contains(0) && sym_closed(es, s) ==> s.contains(i)
}

/// Every node can be reached from every other when edges are undirected.
pub open spec fn weakly_connected(n: int, es: Set<(int, int)>) -> bool {
    n == 0 || forall|i: int| 0 <= i < n ==> sym_reach(es, i)
}

/// A sequence of distinct integers drawn from `[0, n)` has at most `n`
/// members.
pub proof fn lemma_no_dup_int_range(s: Seq<int>, n: int)
    requires
        s.no_duplicates(),
        forall|i: int| 0 <= i < s.len() ==> 0 <= #[trigger] s[i] < n,
        n >= 0,
    ensures
        s.len() <= n,
{
    s.unique_seq_to_set();
    assert(s.to_set().subset_of(vstd::set_lib::set_int_range(0, n))) by {
        assert forall|x: int| s.to_set().contains(x) implies 0 <= x < n by {
            let i = choose|i: int| 0 <= i < s.len() && s[i] == x;
        }
    }
    vstd::set_lib::lemma_int_range(0, n);
    vstd::set_lib::lemma_len_subset(s.to_set(), vstd::set_lib::set_int_range(0, n));
}

/// An index of least rank in a non-empty sequence.
proof fn seq_rank_argmin(c: Seq<int>, rank: Map<int, int>) -> (k: int)
    requires
        c.len() > 0,
    ensures
        0 <= k < c.len(),
        forall|i: int| 0 <= i < c.len() ==> rank[c[k]] <= rank[#[trigger] c[i]],
    decreases c.len(),
{
    if c.len() == 1 {
        0
    } else {
        let k2 = seq_rank_argmin(c.drop_last(), rank);
        assert(forall|i: int| 0 <= i < c.len() - 1 ==> c.drop_last()[i] == #[trigger] c[i]);
        if rank[c.last()] < rank[c[k2]] {
            c.len() - 1
        } else {
            k2
        }
    }
}

/// A ranking that strictly drops along every edge forbids cycles.
proof fn lemma_rank_no_cycle(es: Set<(int, int)>, rank: Map<int, int>)
    requires
        forall|e: (int, int)| es.contains(e) ==> rank[e.1] < rank[e.0],
    ensures
        graph_acyclic(es),
{
    assert forall|c: Seq<int>| !is_cycle(es, c) by {
        if is_cycle(es, c) {
            let k = seq_rank_argmin(c, rank);
            if k < c.len() - 1 {
                assert(es.contains((c[k], c[k + 1])));
                assert(rank[c[k + 1]] < rank[c[k]]);
            } else {
                assert(es.contains((c.last(), c[0])));
                assert(rank[c[0]] < rank[c[k]]);
            }
        }
    }
}


/// A live out-neighbor of `u`, or nothing when every successor of `u` is
/// retired.
fn any_live_out(
    graph: &petgraph::graph::DiGraph<u16, u64>,
    removed: &Vec<bool>,
    u: usize,
) -> (r: Option<usize>)
    requires
        removed@.len() == graph_cands(*graph).len(),
        forall|e: (int, int)|
            graph_edge_list(*graph).contains(e) ==> 0 <= e.0 < removed@.len() && 0 <= e.1
                < removed@.len(),
    ensures
        r matches Some(v) ==> v < removed@.len() && !removed@[v as int] && graph_edge_list(
            *graph,
        ).contains((u as int, v as int)),
        r is None ==> forall|j: int|
            graph_edge_list(*graph).contains((u as int, j)) ==> 0 <= j < removed@.len()
                && removed@[j],
{
    let n = removed.len();
    let out = gw_out_neighbors(graph, u);
    let m = out.len();
    let mut k: usize = 0;
    while k < m
        invariant
            0 <= k <= m == out@.len(),
            n == removed@.len() == graph_cands(*graph).len(),
            forall|e: (int, int)|
                graph_edge_list(*graph).contains(e) ==> 0 <= e.0 < n && 0 <= e.1 < n,
            forall|k2: int|
                0 <= k2 < out@.len() ==> graph_edge_list(*graph).contains(
                    (u as int, #[trigger] out@[k2] as int),
                ),
            forall|j: usize|
                graph_edge_list(*graph).contains((u as int, j as int)) ==> out@.contains(j),
            forall|k2: int| 0 <= k2 < k ==> removed@[(#[trigger] out@[k2]) as int],
        decreases m - k,
    {
        let cand = out[k];
        proof {
            assert(graph_edge_list(*graph).contains((u as int, cand as int)));
        }
        if !removed[cand] {
            return Some(cand);
        }
        k = k + 1;
    }
    proof {
        assert forall|j: int|
            graph_edge_list(*graph).contains((u as int, j)) implies 0 <= j < removed@.len()
            && removed@[j] by {
            let ju = j as usize;
            assert(graph_edge_list(*graph).contains((u as int, ju as int)));
            assert(out@.contains(ju));
            let k2 = choose|k2: int| 0 <= k2 < out@.len() && out@[k2] == ju;
            assert(removed@[out@[k2] as int]);
        }
    }
    None
}

/// A live node whose successors are all retired, or `n` when every live
/// node still has a live successor.
fn find_retirable(
    graph: &petgraph::graph::DiGraph<u16, u64>,
    removed: &Vec<bool>,
    n: usize,
) -> (pick: usize)
    requires
        removed@.len() == n == graph_cands(*graph).len(),
        forall|e: (int, int)|
            graph_edge_list(*graph).contains(e) ==> 0 <= e.0 < n && 0 <= e.1 < n,
    ensures
        pick <= n,
        pick < n ==> !removed@[pick as int] && (forall|j: int|
            graph_edge_list(*graph).contains((pick as int, j)) ==> 0 <= j < n && removed@[j]),
        pick == n ==> forall|u2: usize|
            u2 < n && !removed@[u2 as int] ==> exists|j: usize|
                graph_edge_list(*graph).contains((u2 as int, j as int)) && j < n
                    && !removed@[j as int],
{
    let mut u: usize = 0;
    while u < n
        invariant
            0 <= u <= n,
            removed@.len() == n == graph_cands(*graph).len(),
            forall|e: (int, int)|
                graph_edge_list(*graph).contains(e) ==> 0 <= e.0 < n && 0 <= e.1 < n,
            forall|u2: usize|
                u2 < u && !removed@[u2 as int] ==> exists|j: usize|
                    graph_edge_list(*graph).contains((u2 as int, j as int)) && j < n
                        && !removed@[j as int],
        decreases n - u,
    {
        if !removed[u] {
            match any_live_out(graph, removed, u) {
                None => {
                    return u;
                },
                Some(v) => {
                    proof {
                        assert(graph_edge_list(*graph).contains((u as int, v as int)) && v < n
                            && !removed@[v as int]);
                    }
                },
            }
        }
        u = u + 1;
    }
    n
}

/// Some node is still live; find one.
fn find_live_node(removed: &Vec<bool>) -> (v: usize)
    requires
        exists|i: int| 0 <= i < removed@.len() && !(#[trigger] removed@[i]),
    ensures
        v < removed@.len(),
        !removed@[v as int],
{
    let n = removed.len();
    let mut s: usize = 0;
    while s < n
        invariant
            0 <= s <= n == removed@.len(),
            exists|i: int| 0 <= i < removed@.len() && !(#[trigger] removed@[i]),
            forall|i: int| 0 <= i < s ==> removed@[i],
        decreases n - s,
    {
        if !removed[s] {
            return s;
        }
        s = s + 1;
    }
    proof {
        let i = choose|i: int| 0 <= i < removed@.len() && !(#[trigger] removed@[i]);
        assert(false);
    }
    0
}

/// Find an out-neighbor of `cur` that is not yet retired; one must exist.
fn find_live_neighbor(
    graph: &petgraph::graph::DiGraph<u16, u64>,
    removed: &Vec<bool>,
    cur: usize,
) -> (v: usize)
    requires
        removed@.len() == graph_cands(*graph).len(),
        forall|e: (int, int)|
            graph_edge_list(*graph).contains(e) ==> 0 <= e.0 < removed@.len() && 0 <= e.1
                < removed@.len(),
        exists|j: usize|
            graph_edge_list(*graph).contains((cur as int, j as int)) && j < removed@.len()
                && !removed@[j as int],
    ensures
        v < removed@.len(),
        !removed@[v as int],
        graph_edge_list(*graph).contains((cur as int, v as int)),
{
    match any_live_out(graph, removed, cur) {
        Some(v) => v,
        None => {
            proof {
                let j = choose|j: usize|
                    graph_edge_list(*graph).contains((cur as int, j as int)) && j
                        < removed@.len() && !(#[trigger] removed@[j as int]);
                assert(false);
            }
            0
        },
    }
}

/// A walk whose consecutive members are edges and whose last member steps
/// back to an earlier one contains a cycle.
#[verifier::rlimit(100)]
#[verifier::spinoff_prover]
proof fn lemma_walk_cycle(el: Seq<(int, int)>, path: Seq<usize>, at: int)
    requires
        0 <= at < path.len(),
        forall|i: int|
            0 <= i < path.len() - 1 ==> el.contains(
                ((#[trigger] path[i]) as int, path[i + 1] as int),
            ),
        el.contains((path.last() as int, path[at] as int)),
    ensures
        !graph_acyclic(el.to_set()),
{
    let es = el.to_set();
    let cyc = path.subrange(at, path.len() as int).map_values(|x: usize| x as int);
    assert(cyc.len() > 0);
    assert forall|i: int| 0 <= i < cyc.len() - 1 implies es.contains(
        (#[trigger] cyc[i], cyc[i + 1]),
    ) by {
        assert(path.subrange(at, path.len() as int)[i] == path[at + i]);
        assert(path.subrange(at, path.len() as int)[i + 1] == path[at + i + 1]);
        assert(el.contains(((path[at + i]) as int, (path[at + i + 1]) as int)));
    }
    assert(cyc.last() == path.last() as int);
    assert(cyc[0] == path[at] as int);
    assert(es.contains((cyc.last(), cyc[0])));
    assert(is_cycle(es, cyc));
    assert(!graph_acyclic(es));
}

/// Extending a duplicate-free walk over `[0, n)` by a fresh member keeps it
/// duplicate-free and no longer than `n`.
proof fn lemma_path_push(old_path: Seq<usize>, v: usize, n: int)
    requires
        old_path.no_duplicates(),
        forall|i: int| 0 <= i < old_path.len() ==> (#[trigger] old_path[i]) < n,
        forall|i: int| 0 <= i < old_path.len() ==> (#[trigger] old_path[i]) != v,
        v < n,
        n >= 0,
    ensures
        old_path.push(v).no_duplicates(),
        old_path.push(v).len() <= n,
{
    let p = old_path.push(v);
    assert forall|a: int, b: int| 0 <= a < b < p.len() implies p[a] != p[b] by {
        if b == p.len() - 1 {
            assert(p[a] == old_path[a]);
        } else {
            assert(p[a] == old_path[a] && p[b] == old_path[b]);
        }
    }
    let ints = p.map_values(|x: usize| x as int);
    assert(ints.no_duplicates()) by {
        assert forall|a: int, b: int| 0 <= a < b < ints.len() implies ints[a] != ints[b] by {
            assert(p[a] != p[b]);
        }
    }
    assert forall|i: int| 0 <= i < ints.len() implies 0 <= #[trigger] ints[i] < n by {
        assert(p[i] < n || p[i] == v);
    }
    lemma_no_dup_int_range(ints, n);
}

/// When every live node keeps a live successor, a walk through live nodes
/// must revisit one, and the stretch between the visits is a cycle.
#[verifier::rlimit(100)]
fn stalled_cycle(
    graph: &petgraph::graph::DiGraph<u16, u64>,
    removed: &Vec<bool>,
    start: usize,
    n: usize,
)
    requires
        removed@.len() == n == graph_cands(*graph).len(),
        forall|e: (int, int)|
            graph_edge_list(*graph).contains(e) ==> 0 <= e.0 < n && 0 <= e.1 < n,
        start < n,
        !removed@[start as int],
        forall|u2: usize|
            u2 < n && !removed@[u2 as int] ==> exists|j: usize|
                graph_edge_list(*graph).contains((u2 as int, j as int)) && j < n
                    && !removed@[j as int],
    ensures
        !graph_acyclic(graph_edge_list(*graph).to_set()),
{
    let mut path: Vec<usize> = Vec::new();
    path.push(start);
    loop
        invariant
            removed@.len() == n == graph_cands(*graph).len(),
            forall|e: (int, int)|
                graph_edge_list(*graph).contains(e) ==> 0 <= e.0 < n && 0 <= e.1 < n,
            forall|u2: usize|
                u2 < n && !removed@[u2 as int] ==> exists|j: usize|
                    graph_edge_list(*graph).contains((u2 as int, j as int)) && j < n
                        && !removed@[j as int],
            path@.len() >= 1,
            path@.no_duplicates(),
            forall|i: int|
                0 <= i < path@.len() ==> (#[trigger] path@[i]) < n && !removed@[path@[i] as int],
            forall|i: int|
                0 <= i < path@.len() - 1 ==> graph_edge_list(*graph).contains(
                    ((#[trigger] path@[i]) as int, path@[i + 1] as int),
                ),
            path@.len() <= n,
        ensures
            !graph_acyclic(graph_edge_list(*graph).to_set()),
        decreases n - path@.len(),
    {
        let cur = path[path.len() - 1];
        let v = find_live_neighbor(graph, removed, cur);
        let plen = path.len();
        let mut q: usize = 0;
        let mut at: usize = plen;
        while q < plen
            invariant
                0 <= q <= plen == path@.len(),
                at <= plen,
                at == plen ==> forall|i: int| 0 <= i < q ==> path@[i] != v,
                at < plen ==> path@[at as int] == v,
            ensures
                at <= plen,
                at == plen ==> forall|i: int| 0 <= i < plen ==> path@[i] != v,
                at < plen ==> path@[at as int] == v,
            decreases plen - q,
        {
            if path[q] == v {
                at = q;
                break ;
            }
            q = q + 1;
        }
        if at < plen {
            proof {
                assert(path@.last() == cur);
                lemma_walk_cycle(graph_edge_list(*graph), path@, at as int);
            }
            return ;
        }
        let ghost old_path = path@;
        proof {
            assert(at == plen);
            assert(forall|i: int| 0 <= i < plen ==> path@[i] != v);
            assert forall|i: int| 0 <= i < old_path.len() implies (#[trigger] old_path[i])
                != v by {
                assert(path@[i] != v);
            }
            lemma_path_push(old_path, v, n as int);
        }
        path.push(v);
        proof {
            assert(path@ == old_path.push(v));
        }
    }
}

/// Whether the graph has no directed cycle. Nodes are repeatedly retired
/// once all their successors are retired; if that stalls with live nodes
/// left, a concrete cycle is walked out among them.
pub fn is_graph_acyclic(graph: &petgraph::graph::DiGraph<u16, u64>) -> (r: bool)
    requires
        forall|e: (int, int)|
            graph_edge_list(*graph).contains(e) ==> 0 <= e.0 < graph_cands(*graph).len() && 0
                <= e.1 < graph_cands(*graph).len(),
    ensures
        r == graph_acyclic(graph_edge_list(*graph).to_set()),
{
    let ghost es = graph_edge_list(*graph).to_set();
    let n = gw_node_count(graph);
    let mut removed: Vec<bool> = Vec::new();
    let mut z: usize = 0;
    while z < n
        invariant
            removed@.len() == z <= n,
            forall|i: int| 0 <= i < z ==> !(#[trigger] removed@[i]),
        decreases n - z,
    {
        removed.push(false);
        z = z + 1;
    }
    let ghost mut rank: Map<int, int> = Map::empty();
    let ghost mut rset: Set<int> = Set::empty();
    let mut removed_count: usize = 0;
    while removed_count < n
        invariant
            removed@.len() == n == graph_cands(*graph).len(),
            es == graph_edge_list(*graph).to_set(),
            forall|e: (int, int)|
                graph_edge_list(*graph).contains(e) ==> 0 <= e.0 < n && 0 <= e.1 < n,
            rset.finite(),
            rset.len() == removed_count,
            forall|i: int| rset.contains(i) == (0 <= i < n && removed@[i]),
            removed_count <= n,
            forall|u: int|
                0 <= u < n && removed@[u] ==> rank.contains_key(u) && 0 <= rank[u]
                    < removed_count,
            forall|e: (int, int)|
                graph_edge_list(*graph).contains(e) && removed@[e.0] ==> removed@[e.1]
                    && rank[e.1] < rank[e.0],
        decreases n - removed_count,
    {
        let pick = find_retirable(graph, &removed, n);
        if pick < n {
            let ghost old_removed = removed@;
            removed.remove(pick);
            removed.insert(pick, true);
            proof {
                assert(removed@ =~= old_removed.update(pick as int, true));
                rank = rank.insert(pick as int, removed_count as int);
                assert(!rset.contains(pick as int));
                rset = rset.insert(pick as int);
            }
            removed_count = removed_count + 1;
            proof {
                assert forall|e: (int, int)|
                    graph_edge_list(*graph).contains(e) && removed@[e.0] implies removed@[e.1]
                    && rank[e.1] < rank[e.0] by {
                    if e.0 == pick as int {
                        assert(removed@[e.1]);
                        assert(e.1 != pick as int);
                        assert(old_removed[e.1]);
                    } else {
                        assert(old_removed[e.0]);
                        assert(old_removed[e.1]);
                        assert(e.1 != pick as int && e.0 != pick as int);
                    }
                }
            }
        } else {
            proof {
                if forall|i: int| 0 <= i < n ==> #[trigger] removed@[i] {
                    assert forall|i: int|
                        vstd::set_lib::set_int_range(0, n as int).contains(i) implies
                        rset.contains(i) by {
                        assert(removed@[i]);
                    }
                    vstd::set_lib::lemma_int_range(0, n as int);
                    vstd::set_lib::lemma_len_subset(
                        vstd::set_lib::set_int_range(0, n as int),
                        rset,
                    );
                    assert(false);
                }
                assert(exists|i: int| 0 <= i < removed@.len() && !(#[trigger] removed@[i]));
            }
            let start = find_live_node(&removed);
            stalled_cycle(graph, &removed, start, n);
            return false;
        }
    }
    proof {
        vstd::set_lib::lemma_int_range(0, n as int);
        assert(rset.subset_of(vstd::set_lib::set_int_range(0, n as int)));
        vstd::set_lib::lemma_subset_equality(rset, vstd::set_lib::set_int_range(0, n as int));
        assert forall|e: (int, int)| es.contains(e) implies rank[e.1] < rank[e.0] by {
            assert(graph_edge_list(*graph).contains(e));
            assert(vstd::set_lib::set_int_range(0, n as int).contains(e.0));
            assert(rset.contains(e.0));
            assert(removed@[e.0]);
        }
        lemma_rank_no_cycle(es, rank);
    }
    true
}


/// Whether every node can reach every other when the edges are read in both
/// directions: a flood from node 0 over the symmetric neighborhoods must
/// touch everything.
pub fn is_graph_weakly_connected(graph: &petgraph::graph::DiGraph<u16, u64>) -> (r: bool)
    requires
        forall|e: (int, int)|
            graph_edge_list(*graph).contains(e) ==> 0 <= e.0 < graph_cands(*graph).len() && 0
                <= e.1 < graph_cands(*graph).len(),
    ensures
        r == weakly_connected(graph_cands(*graph).len() as int, graph_edge_list(*graph).to_set()),
{
    let ghost es = graph_edge_list(*graph).to_set();
    let n = gw_node_count(graph);
    if n == 0 {
        return true;
    }
    let mut visited: Vec<bool> = Vec::new();
    let mut z: usize = 0;
    while z < n
        invariant
            visited@.len() == z <= n,
            forall|i: int| 0 <= i < z ==> !(#[trigger] visited@[i]),
        decreases n - z,
    {
        visited.push(false);
        z = z + 1;
    }
    let mut queue: Vec<usize> = Vec::new();
    queue.push(0);
    let ghost mut vset: Set<int> = Set::empty();
    let mut visited_count: usize = 0;
    proof {
        assert(sym_reach(es, 0));
        assert(queue@.contains(0usize)) by {
            assert(queue@[0] == 0usize);
        }
    }
    while queue.len() > 0
        invariant
            n >= 1,
            visited@.len() == n == graph_cands(*graph).len(),
            es == graph_edge_list(*graph).to_set(),
            forall|e: (int, int)|
                graph_edge_list(*graph).contains(e) ==> 0 <= e.0 < n && 0 <= e.1 < n,
            vset.finite(),
            vset.len() == visited_count,
            forall|i: int| vset.contains(i) == (0 <= i < n && visited@[i]),
            visited_count <= n,
            forall|k: int| 0 <= k < queue@.len() ==> (#[trigger] queue@[k]) < n,
            forall|i: int| 0 <= i < n && visited@[i] ==> sym_reach(es, i),
            forall|k: int| 0 <= k < queue@.len() ==> sym_reach(es, (#[trigger] queue@[k]) as int),
            forall|e: (int, int)|
                graph_edge_list(*graph).contains(e) && visited@[e.0] ==> visited@[e.1]
                    || queue@.contains(e.1 as usize),
            forall|e: (int, int)|
                graph_edge_list(*graph).contains(e) && visited@[e.1] ==> visited@[e.0]
                    || queue@.contains(e.0 as usize),
            visited@[0] || queue@.contains(0usize),
        decreases n - visited_count, queue@.len(),
    {
        let ghost old_queue = queue@;
        let node = match queue.pop() {
            Some(node) => node,
            None => {
                proof {
                    assert(false);
                }
                0
            },
        };
        proof {
            assert(old_queue.last() == node);
            assert(queue@ == old_queue.drop_last());
            assert forall|k: int| 0 <= k < queue@.len() implies (#[trigger] queue@[k]) < n
                && sym_reach(es, queue@[k] as int) by {
                assert(queue@[k] == old_queue[k]);
            }
        }
        if visited[node] {
            proof {
                assert forall|e: (int, int)|
                    graph_edge_list(*graph).contains(e) && visited@[e.0] implies visited@[e.1]
                    || queue@.contains(e.1 as usize) by {
                    if !visited@[e.1] {
                        assert(old_queue.contains(e.1 as usize));
                        let k = choose|k: int|
                            0 <= k < old_queue.len() && old_queue[k] == e.1 as usize;
                        if k < old_queue.len() - 1 {
                            assert(queue@[k] == e.1 as usize);
                        } else {
                            assert(e.1 as usize == node);
                            assert(visited@[e.1]);
                        }
                    }
                }
                assert forall|e: (int, int)|
                    graph_edge_list(*graph).contains(e) && visited@[e.1] implies visited@[e.0]
                    || queue@.contains(e.0 as usize) by {
                    if !visited@[e.0] {
                        assert(old_queue.contains(e.0 as usize));
                        let k = choose|k: int|
                            0 <= k < old_queue.len() && old_queue[k] == e.0 as usize;
                        if k < old_queue.len() - 1 {
                            assert(queue@[k] == e.0 as usize);
                        } else {
                            assert(visited@[e.0]);
                        }
                    }
                }
                assert(visited@[0] || queue@.contains(0usize)) by {
                    if !visited@[0] {
                        let k = choose|k: int|
                            0 <= k < old_queue.len() && old_queue[k] == 0usize;
                        if k < old_queue.len() - 1 {
                            assert(queue@[k] == 0usize);
                        } else {
                            assert(node == 0usize);
                        }
                    }
                }
            }
            continue ;
        }
        let ghost old_visited = visited@;
        visited.remove(node);
        visited.insert(node, true);
        proof {
            assert(visited@ =~= old_visited.update(node as int, true));
            assert(!vset.contains(node as int));
            vset = vset.insert(node as int);
        }
        proof {
            vstd::set_lib::lemma_int_range(0, n as int);
            assert(vset.subset_of(vstd::set_lib::set_int_range(0, n as int)));
            vstd::set_lib::lemma_len_subset(vset, vstd::set_lib::set_int_range(0, n as int));
        }
        visited_count = visited_count + 1;
        let out = gw_out_neighbors(graph, node);
        let inn = gw_in_neighbors(graph, node);
        let mut k: usize = 0;
        let ghost q1 = queue@;
        while k < out.len()
            invariant
                0 <= k <= out@.len(),
                visited@.len() == n == graph_cands(*graph).len(),
                es == graph_edge_list(*graph).to_set(),
                node < n,
                visited@[node as int],
                sym_reach(es, node as int),
                forall|e: (int, int)|
                    graph_edge_list(*graph).contains(e) ==> 0 <= e.0 < n && 0 <= e.1 < n,
                forall|k2: int|
                    0 <= k2 < out@.len() ==> graph_edge_list(*graph).contains(
                        (node as int, #[trigger] out@[k2] as int),
                    ),
                forall|k2: int| 0 <= k2 < queue@.len() ==> (#[trigger] queue@[k2]) < n,
                forall|k2: int|
                    0 <= k2 < queue@.len() ==> sym_reach(es, (#[trigger] queue@[k2]) as int),
                forall|k2: int| 0 <= k2 < q1.len() ==> queue@.contains(#[trigger] q1[k2]),
                forall|k2: int| 0 <= k2 < k ==> queue@.contains(#[trigger] out@[k2]),
            decreases out@.len() - k,
        {
            let w = out[k];
            proof {
                assert(graph_edge_list(*graph).contains((node as int, w as int)));
                assert(es.contains((node as int, w as int)));
                assert(sym_reach(es, w as int)) by {
                    assert forall|s: Set<int>|
                        s.contains(0) && sym_closed(es, s) implies s.contains(w as int) by {
                        assert(s.contains(node as int));
                    }
                }
            }
            let ghost qb = queue@;
            queue.push(w);
            proof {
                assert forall|k2: int|
                    0 <= k2 < q1.len() implies queue@.contains(#[trigger] q1[k2]) by {
                    assert(qb.contains(q1[k2]));
                    let j = choose|j: int| 0 <= j < qb.len() && qb[j] == q1[k2];
                    assert(queue@[j] == q1[k2]);
                }
                assert forall|k2: int| 0 <= k2 < k + 1 implies queue@.contains(
                    #[trigger] out@[k2],
                ) by {
                    if k2 < k {
                        assert(qb.contains(out@[k2]));
                        let j = choose|j: int| 0 <= j < qb.len() && qb[j] == out@[k2];
                        assert(queue@[j] == out@[k2]);
                    } else {
                        assert(queue@.last() == w);
                    }
                }
            }
            k = k + 1;
        }
        let ghost q2 = queue@;
        let mut k2i: usize = 0;
        while k2i < inn.len()
            invariant
                0 <= k2i <= inn@.len(),
                visited@.len() == n == graph_cands(*graph).len(),
                es == graph_edge_list(*graph).to_set(),
                node < n,
                visited@[node as int],
                sym_reach(es, node as int),
                forall|e: (int, int)|
                    graph_edge_list(*graph).contains(e) ==> 0 <= e.0 < n && 0 <= e.1 < n,
                forall|k2: int|
                    0 <= k2 < inn@.len() ==> graph_edge_list(*graph).contains(
                        (#[trigger] inn@[k2] as int, node as int),
                    ),
                forall|k2: int| 0 <= k2 < queue@.len() ==> (#[trigger] queue@[k2]) < n,
                forall|k2: int|
                    0 <= k2 < queue@.len() ==> sym_reach(es, (#[trigger] queue@[k2]) as int),
                forall|k2: int| 0 <= k2 < q2.len() ==> queue@.contains(#[trigger] q2[k2]),
                forall|k2: int| 0 <= k2 < k2i ==> queue@.contains(#[trigger] inn@[k2]),
            decreases inn@.len() - k2i,
        {
            let w = inn[k2i];
            proof {
                assert(graph_edge_list(*graph).contains((w as int, node as int)));
                assert(es.contains((w as int, node as int)));
                assert(sym_reach(es, w as int)) by {
                    assert forall|s: Set<int>|
                        s.contains(0) && sym_closed(es, s) implies s.contains(w as int) by {
                        assert(s.contains(node as int));
                    }
                }
            }
            let ghost qb = queue@;
            queue.push(w);
            proof {
                assert forall|k2: int|
                    0 <= k2 < q2.len() implies queue@.contains(#[trigger] q2[k2]) by {
                    assert(qb.contains(q2[k2]));
                    let j = choose|j: int| 0 <= j < qb.len() && qb[j] == q2[k2];
                    assert(queue@[j] == q2[k2]);
                }
                assert forall|k2: int| 0 <= k2 < k2i + 1 implies queue@.contains(
                    #[trigger] inn@[k2],
                ) by {
                    if k2 < k2i {
                        assert(qb.contains(inn@[k2]));
                        let j = choose|j: int| 0 <= j < qb.len() && qb[j] == inn@[k2];
                        assert(queue@[j] == inn@[k2]);
                    } else {
                        assert(queue@.last() == w);
                    }
                }
            }
            k2i = k2i + 1;
        }
        proof {
            // the new completeness facts
            assert forall|e: (int, int)|
                graph_edge_list(*graph).contains(e) && visited@[e.0] implies visited@[e.1]
                || queue@.contains(e.1 as usize) by {
                if !visited@[e.1] {
                    if e.0 == node as int {
                        let ju = e.1 as usize;
                        assert(graph_edge_list(*graph).contains((node as int, ju as int)));
                        assert(out@.contains(ju));
                        let k3 = choose|k3: int| 0 <= k3 < out@.len() && out@[k3] == ju;
                        assert(q2.contains(out@[k3]));
                        let j = choose|j: int| 0 <= j < q2.len() && q2[j] == ju;
                        assert(queue@.contains(q2[j]));
                    } else {
                        assert(old_visited[e.0]);
                        if old_queue.contains(e.1 as usize) {
                            let k3 = choose|k3: int|
                                0 <= k3 < old_queue.len() && old_queue[k3] == e.1 as usize;
                            if k3 < old_queue.len() - 1 {
                                assert(q1[k3] == e.1 as usize);
                                assert(queue@.contains(q1[k3]));
                            } else {
                                assert(e.1 == node as int);
                                assert(visited@[e.1]);
                            }
                        } else {
                            assert(old_visited[e.1]);
                        }
                    }
                }
            }
            assert forall|e: (int, int)|
                graph_edge_list(*graph).contains(e) && visited@[e.1] implies visited@[e.0]
                || queue@.contains(e.0 as usize) by {
                if !visited@[e.0] {
                    if e.1 == node as int {
                        let ju = e.0 as usize;
                        assert(graph_edge_list(*graph).contains((ju as int, node as int)));
                        assert(inn@.contains(ju));
                        let k3 = choose|k3: int| 0 <= k3 < inn@.len() && inn@[k3] == ju;
                        assert(queue@.contains(inn@[k3]));
                    } else {
                        assert(old_visited[e.1]);
                        if old_queue.contains(e.0 as usize) {
                            let k3 = choose|k3: int|
                                0 <= k3 < old_queue.len() && old_queue[k3] == e.0 as usize;
                            if k3 < old_queue.len() - 1 {
                                assert(q1[k3] == e.0 as usize);
                                assert(queue@.contains(q1[k3]));
                            } else {
                                assert(visited@[e.0]);
                            }
                        } else {
                            assert(old_visited[e.0]);
                        }
                    }
                }
            }
            assert(visited@[0] || queue@.contains(0usize)) by {
                if !visited@[0] {
                    assert(!old_visited[0]);
                    let k3 = choose|k3: int|
                        0 <= k3 < old_queue.len() && old_queue[k3] == 0usize;
                    if k3 < old_queue.len() - 1 {
                        assert(q1[k3] == 0usize);
                        assert(queue@.contains(q1[k3]));
                    } else {
                        assert(node == 0usize);
                    }
                }
            }
        }
    }
    if visited_count == n {
        proof {
            vstd::set_lib::lemma_int_range(0, n as int);
            assert(vset.subset_of(vstd::set_lib::set_int_range(0, n as int)));
            vstd::set_lib::lemma_subset_equality(
                vset,
                vstd::set_lib::set_int_range(0, n as int),
            );
            assert forall|i: int| 0 <= i < n implies sym_reach(es, i) by {
                assert(vstd::set_lib::set_int_range(0, n as int).contains(i));
                assert(vset.contains(i));
                assert(visited@[i]);
            }
        }
        true
    } else {
        proof {
            // the visited set itself is closed, holds node 0, and misses a
            // node, so that node is unreachable
            if forall|i: int| 0 <= i < n ==> #[trigger] visited@[i] {
                assert forall|i: int|
                    vstd::set_lib::set_int_range(0, n as int).contains(i) implies vset.contains(
                    i,
                ) by {
                    assert(visited@[i]);
                }
                vstd::set_lib::lemma_int_range(0, n as int);
                vstd::set_lib::lemma_len_subset(
                    vstd::set_lib::set_int_range(0, n as int),
                    vset,
                );
                assert(false);
            }
            let miss = choose|i: int| 0 <= i < n && !(#[trigger] visited@[i]);
            assert(sym_closed(es, vset)) by {
                assert forall|e: (int, int)| es.contains(e) implies (vset.contains(e.0)
                    <==> vset.contains(e.1)) by {
                    assert(graph_edge_list(*graph).contains(e));
                    if visited@[e.0] {
                        assert(visited@[e.1]);
                    }
                    if visited@[e.1] {
                        assert(visited@[e.0]);
                    }
                }
            }
            assert(vset.contains(0));
            assert(!vset.contains(miss));
            assert(!sym_reach(es, miss));
            assert(!weakly_connected(n as int, es));
        }
        false
    }
}


/// Whether more ballots rank `a` above `b` than the reverse, per the table.
pub open spec fn net_prefers(table: Seq<((u16, u16), u64)>, a: u16, b: u16) -> bool {
    pair_val(table, (a, b)) > pair_val(table, (b, a))
}

/// The edges of the preference graph on `cands`, as index pairs.
pub open spec fn pref_edges(cands: Seq<u16>, table: Seq<((u16, u16), u64)>) -> Set<(int, int)> {
    Set::new(
        |e: (int, int)|
            0 <= e.0 < cands.len() && 0 <= e.1 < cands.len() && e.0 != e.1 && net_prefers(
                table,
                cands[e.0],
                cands[e.1],
            ),
    )
}

/// `c` loses or ties against every other member of `cands` head-to-head.
pub open spec fn is_sink_among(cands: Seq<u16>, table: Seq<((u16, u16), u64)>, c: u16) -> bool {
    forall|d: u16| cands.contains(d) && d != c ==> !net_prefers(table, c, d)
}

/// The members of `cands` up to position `k` that beat nobody, in order.
pub open spec fn filter_sinks(cands: Seq<u16>, table: Seq<((u16, u16), u64)>, k: int) -> Seq<u16>
    decreases k,
{
    if k <= 0 {
        Seq::empty()
    } else {
        let rest = filter_sinks(cands, table, k - 1);
        if is_sink_among(cands, table, cands[k - 1]) {
            rest.push(cands[k - 1])
        } else {
            rest
        }
    }
}

/// What the ranked-pairs rule selects among `cands`: its sinks when the
/// preference graph is decisive — free of cycles and connected — otherwise
/// `cands` unchanged, flagged indecisive.
pub open spec fn spec_ranked_pairs_weakest(cands: Seq<u16>, table: Seq<((u16, u16), u64)>) -> (
    Seq<u16>,
    bool,
) {
    let es = pref_edges(cands, table);
    if graph_acyclic(es) && weakly_connected(cands.len() as int, es) {
        (filter_sinks(cands, table, cands.len() as int), true)
    } else {
        (cands, false)
    }
}

/// The edges recorded so far while scanning ordered index pairs in row
/// order: everything of `pes` up to row `i`, column `j`.
pub open spec fn edges_built(el: Seq<(int, int)>, pes: Set<(int, int)>, i: int, j: int) -> bool {
    forall|e: (int, int)| el.contains(e) == (pes.contains(e) && (e.0 < i || (e.0 == i && e.1 < j)))
}

/// The members of `filter_sinks` come from `cands` and repeat nothing.
pub proof fn lemma_filter_sinks_members(
    cands: Seq<u16>,
    table: Seq<((u16, u16), u64)>,
    k: int,
)
    requires
        cands.no_duplicates(),
        0 <= k <= cands.len(),
    ensures
        forall|m: int|
            0 <= m < filter_sinks(cands, table, k).len() ==> cands.contains(
                #[trigger] filter_sinks(cands, table, k)[m],
            ),
        filter_sinks(cands, table, k).no_duplicates(),
        forall|m: int|
            0 <= m < filter_sinks(cands, table, k).len() ==> exists|j: int|
                0 <= j < k && cands[j] == #[trigger] filter_sinks(cands, table, k)[m],
    decreases k,
{
    if k > 0 {
        lemma_filter_sinks_members(cands, table, k - 1);
        let r = filter_sinks(cands, table, k);
        let rest = filter_sinks(cands, table, k - 1);
        if is_sink_among(cands, table, cands[k - 1]) {
            assert forall|m: int| 0 <= m < r.len() implies cands.contains(#[trigger] r[m])
                && exists|j: int| 0 <= j < k && cands[j] == r[m] by {
                if m < r.len() - 1 {
                    assert(r[m] == rest[m]);
                    let j = choose|j: int| 0 <= j < k - 1 && cands[j] == rest[m];
                    assert(cands[j] == r[m]);
                } else {
                    assert(r[m] == cands[k - 1]);
                }
            }
            assert(r.no_duplicates()) by {
                assert forall|a: int, b: int| 0 <= a < b < r.len() implies r[a] != r[b] by {
                    if b == r.len() - 1 {
                        assert(r[a] == rest[a]);
                        let j = choose|j: int| 0 <= j < k - 1 && cands[j] == rest[a];
                        assert(cands[j] != cands[k - 1]);
                    }
                }
            }
        }
    }
}

/// How candidate 1 fares against candidate 2 over all ballots, and by how
/// many ballots.
pub fn get_preference(
    ranked_pairs_map: &Vec<((u16, u16), u64)>,
    candidate1: u16,
    candidate2: u16,
) -> (r: (PairPreferences, u64))
    requires
        pair_keys(ranked_pairs_map@).no_duplicates(),
    ensures
        (r.0 == PairPreferences::PreferredOver) == net_prefers(
            ranked_pairs_map@,
            candidate1,
            candidate2,
        ),
        (r.0 == PairPreferences::PreferredAgainst) == net_prefers(
            ranked_pairs_map@,
            candidate2,
            candidate1,
        ),
        (r.0 == PairPreferences::Inconclusive) == (pair_val(
            ranked_pairs_map@,
            (candidate1, candidate2),
        ) == pair_val(ranked_pairs_map@, (candidate2, candidate1))),
        r.1 == if pair_val(ranked_pairs_map@, (candidate1, candidate2)) >= pair_val(
            ranked_pairs_map@,
            (candidate2, candidate1),
        ) {
            pair_val(ranked_pairs_map@, (candidate1, candidate2)) - pair_val(
                ranked_pairs_map@,
                (candidate2, candidate1),
            )
        } else {
            pair_val(ranked_pairs_map@, (candidate2, candidate1)) - pair_val(
                ranked_pairs_map@,
                (candidate1, candidate2),
            )
        },
{
    let preferred_over_votes = match find_pair(ranked_pairs_map, (candidate1, candidate2)) {
        Some(i) => ranked_pairs_map[i].1,
        None => 0,
    };
    let preferred_against_votes = match find_pair(ranked_pairs_map, (candidate2, candidate1)) {
        Some(i) => ranked_pairs_map[i].1,
        None => 0,
    };
    proof {
        if crate::pairs::pair_has(ranked_pairs_map@, (candidate1, candidate2)) {
            crate::pairs::lemma_pair_index_of(
                ranked_pairs_map@,
                crate::pairs::pair_index(ranked_pairs_map@, (candidate1, candidate2)),
            );
        }
        if crate::pairs::pair_has(ranked_pairs_map@, (candidate2, candidate1)) {
            crate::pairs::lemma_pair_index_of(
                ranked_pairs_map@,
                crate::pairs::pair_index(ranked_pairs_map@, (candidate2, candidate1)),
            );
        }
    }
    if preferred_over_votes > preferred_against_votes {
        (PairPreferences::PreferredOver, preferred_over_votes - preferred_against_votes)
    } else if preferred_over_votes == preferred_against_votes {
        (PairPreferences::Inconclusive, 0)
    } else {
        (PairPreferences::PreferredAgainst, preferred_against_votes - preferred_over_votes)
    }
}

/// The candidates of `candidates` that perform worst in head-to-head
/// comparison: the sinks of the preference graph when it is decisive,
/// everyone otherwise, with the flag telling which.
#[verifier::rlimit(100)]
pub fn find_ranked_pairs_weakest(
    candidates: Vec<u16>,
    ranked_pairs_map: &Vec<((u16, u16), u64)>,
) -> (r: (Vec<u16>, bool))
    requires
        candidates@.no_duplicates(),
        pair_keys(ranked_pairs_map@).no_duplicates(),
    ensures
        r.0@ == spec_ranked_pairs_weakest(candidates@, ranked_pairs_map@).0,
        r.1 == spec_ranked_pairs_weakest(candidates@, ranked_pairs_map@).1,
{
    let ghost cands = candidates@;
    let ghost table = ranked_pairs_map@;
    let ghost pes = pref_edges(cands, table);
    let n = candidates.len();
    proof {
        crate::vote::lemma_no_dup_u16_len(cands);
    }
    let mut graph = gw_new();
    let mut i: usize = 0;
    while i < n
        invariant
            0 <= i <= n == cands.len() <= 0x10000,
            cands == candidates@,
            graph_cands(graph) == cands.take(i as int),
            graph_edge_list(graph) == Seq::<(int, int)>::empty(),
        decreases n - i,
    {
        proof {
            assert(cands.take(i as int + 1) =~= cands.take(i as int).push(cands[i as int]));
        }
        gw_add_node(&mut graph, candidates[i]);
        i = i + 1;
    }
    proof {
        assert(cands.take(n as int) =~= cands);
    }
    let mut i: usize = 0;
    while i < n
        invariant
            0 <= i <= n == cands.len() <= 0x10000,
            cands == candidates@,
            table == ranked_pairs_map@,
            pair_keys(table).no_duplicates(),
            cands.no_duplicates(),
            pes == pref_edges(cands, table),
            graph_cands(graph) == cands,
            graph_edge_list(graph).len() <= i * (n - 1),
            edges_built(graph_edge_list(graph), pes, i as int, 0),
        decreases n - i,
    {
        let mut j: usize = 0;
        while j < n
            invariant
                0 <= i < n,
                0 <= j <= n == cands.len() <= 0x10000,
                cands == candidates@,
                table == ranked_pairs_map@,
                pair_keys(table).no_duplicates(),
                cands.no_duplicates(),
                pes == pref_edges(cands, table),
                graph_cands(graph) == cands,
                graph_edge_list(graph).len() + (if j > i {
                    1int
                } else {
                    0int
                }) <= i * (n - 1) + j,
                edges_built(graph_edge_list(graph), pes, i as int, j as int),
            decreases n - j,
        {
            if i != j {
                let (preference, strength) = get_preference(
                    ranked_pairs_map,
                    candidates[i],
                    candidates[j],
                );
                let ghost el0 = graph_edge_list(graph);
                if preference == PairPreferences::PreferredOver {
                    proof {
                        assert((i * (n - 1) + j) < 0xFFFF_FFFE) by (nonlinear_arith)
                            requires
                                0 <= i < n,
                                0 <= j < n,
                                n <= 0x10000,
                        ;
                    }
                    gw_add_edge(&mut graph, i, j, strength);
                    proof {
                        assert(edges_built(graph_edge_list(graph), pes, i as int, j + 1)) by {
                            lemma_push_contains_pair(el0, (i as int, j as int));
                            assert forall|e: (int, int)| graph_edge_list(graph).contains(e) == (
                            pes.contains(e) && (e.0 < i || (e.0 == i && e.1 < j + 1))) by {
                                assert(el0.contains(e) == (pes.contains(e) && (e.0 < i || (e.0
                                    == i && e.1 < j))));
                                assert(graph_edge_list(graph).contains(e) == (el0.contains(e)
                                    || e == (i as int, j as int)));
                                if e == (i as int, j as int) {
                                    assert(pes.contains(e)) by {
                                        assert(net_prefers(
                                            table,
                                            cands[i as int],
                                            cands[j as int],
                                        ));
                                    }
                                }
                            }
                        }
                    }
                } else {
                    proof {
                        assert(edges_built(graph_edge_list(graph), pes, i as int, j + 1)) by {
                            assert forall|e: (int, int)| graph_edge_list(graph).contains(e) == (
                            pes.contains(e) && (e.0 < i || (e.0 == i && e.1 < j + 1))) by {
                                assert(el0.contains(e) == (pes.contains(e) && (e.0 < i || (e.0
                                    == i && e.1 < j))));
                                if e == (i as int, j as int) {
                                    assert(!net_prefers(
                                        table,
                                        cands[i as int],
                                        cands[j as int],
                                    ));
                                    assert(!pes.contains(e));
                                }
                            }
                        }
                    }
                }
            } else {
                proof {
                    let ghost el0 = graph_edge_list(graph);
                    assert(edges_built(graph_edge_list(graph), pes, i as int, j + 1)) by {
                        assert forall|e: (int, int)| graph_edge_list(graph).contains(e) == (
                        pes.contains(e) && (e.0 < i || (e.0 == i && e.1 < j + 1))) by {
                            assert(el0.contains(e) == (pes.contains(e) && (e.0 < i || (e.0 == i
                                && e.1 < j))));
                            if e == (i as int, j as int) {
                                assert(!pes.contains(e));
                            }
                        }
                    }
                }
            }
            j = j + 1;
        }
        proof {
            assert((i + 1) * (n - 1) == i * (n - 1) + n - 1) by (nonlinear_arith);
            assert(edges_built(graph_edge_list(graph), pes, i + 1, 0)) by {
                assert forall|e: (int, int)| graph_edge_list(graph).contains(e) == (
                pes.contains(e) && (e.0 < i + 1 || (e.0 == i + 1 && e.1 < 0))) by {
                    assert(graph_edge_list(graph).contains(e) == (pes.contains(e) && (e.0 < i
                        || (e.0 == i && e.1 < n))));
                    if pes.contains(e) {
                        assert(0 <= e.1 < n);
                    }
                }
            }
        }
        i = i + 1;
    }
    proof {
        assert forall|e: (int, int)| graph_edge_list(graph).contains(e) == pes.contains(e) by {
            assert(graph_edge_list(graph).contains(e) == (pes.contains(e) && (e.0 < n || (e.0
                == n && e.1 < 0))));
            if pes.contains(e) {
                assert(0 <= e.0 < n);
            }
        }
        assert(graph_edge_list(graph).to_set() =~= pes) by {
            assert(forall|e: (int, int)|
                graph_edge_list(graph).to_set().contains(e) == graph_edge_list(graph).contains(
                    e,
                ));
        }
        assert forall|e: (int, int)|
            graph_edge_list(graph).contains(e) implies 0 <= e.0 < graph_cands(graph).len() && 0
            <= e.1 < graph_cands(graph).len() by {
            assert(pes.contains(e));
        }
    }
    let acyclic = is_graph_acyclic(&graph);
    let connected = is_graph_weakly_connected(&graph);
    if !(acyclic && connected) {
        return (candidates, false);
    }
    let mut weakest_candidates: Vec<u16> = Vec::new();
    let mut i: usize = 0;
    while i < n
        invariant
            0 <= i <= n == cands.len(),
            cands == candidates@,
            table == ranked_pairs_map@,
            cands.no_duplicates(),
            pes == pref_edges(cands, table),
            graph_cands(graph) == cands,
            forall|e: (int, int)| graph_edge_list(graph).contains(e) == pes.contains(e),
            weakest_candidates@ == filter_sinks(cands, table, i as int),
        decreases n - i,
    {
        let out = gw_out_neighbors(&graph, i);
        if out.len() == 0 {
            proof {
                assert(is_sink_among(cands, table, cands[i as int])) by {
                    assert forall|d: u16| cands.contains(d) && d != cands[i as int] implies
                        !net_prefers(table, cands[i as int], d) by {
                        let jd = choose|jd: int| 0 <= jd < cands.len() && cands[jd] == d;
                        if net_prefers(table, cands[i as int], d) {
                            assert(jd != i as int);
                            assert(pes.contains((i as int, jd)));
                            assert(graph_edge_list(graph).contains((i as int, jd)));
                            let ju = jd as usize;
                            assert(graph_edge_list(graph).contains((i as int, ju as int)));
                            assert(out@.contains(ju));
                            assert(false);
                        }
                    }
                }
            }
            weakest_candidates.push(candidates[i]);
        } else {
            proof {
                assert(!is_sink_among(cands, table, cands[i as int])) by {
                    let ju = out@[0];
                    assert(graph_edge_list(graph).contains((i as int, ju as int)));
                    assert(pes.contains((i as int, ju as int)));
                    assert(cands.contains(cands[ju as int]));
                    assert(cands[ju as int] != cands[i as int]);
                    assert(net_prefers(table, cands[i as int], cands[ju as int]));
                }
            }
        }
        i = i + 1;
    }
    (weakest_candidates, true)
}

/// Membership after appending to an edge list.
proof fn lemma_push_contains_pair(s: Seq<(int, int)>, x: (int, int))
    ensures
        forall|y: (int, int)| s.push(x).contains(y) == (s.contains(y) || y == x),
{
    assert forall|y: (int, int)| s.push(x).contains(y) == (s.contains(y) || y == x) by {
        if s.contains(y) {
            let j = choose|j: int| 0 <= j < s.len() && s[j] == y;
            assert(s.push(x)[j] == y);
        }
        assert(s.push(x)[s.len() as int] == x);
        if s.push(x).contains(y) {
            let j = choose|j: int| 0 <= j < s.push(x).len() && s.push(x)[j] == y;
            if j < s.len() {
                assert(s[j] == y);
            }
        }
    }
}


/// The least count strictly above `m`, the whole range if there is none.
pub open spec fn min_above(s: Seq<(u16, u64)>, m: int) -> int
    decreases s.len(),
{
    if s.len() == 0 {
        u64::MAX as int
    } else {
        let rest = min_above(s.drop_last(), m);
        if s.last().1 > m && s.last().1 < rest {
            s.last().1 as int
        } else {
            rest
        }
    }
}

/// The cut for the head-to-head group: the second-lowest distinct count, or
/// the lowest when every candidate ties.
pub open spec fn second_threshold(s: Seq<(u16, u64)>) -> int {
    if exists|i: int| 0 <= i < s.len() && (#[trigger] s[i]).1 > min_val(s) {
        min_above(s, min_val(s))
    } else {
        min_val(s)
    }
}

/// The candidates counting at most `m` votes, in entry order.
pub open spec fn keys_with_val_le(s: Seq<(u16, u64)>, m: int) -> Seq<u16>
    decreases s.len(),
{
    if s.len() == 0 {
        Seq::empty()
    } else {
        let rest = keys_with_val_le(s.drop_last(), m);
        if s.last().1 <= m {
            rest.push(s.last().0)
        } else {
            rest
        }
    }
}

/// Members of `keys_with_val_le` are entries of `s`, without repetition.
pub proof fn lemma_keys_with_val_le(s: Seq<(u16, u64)>, m: int)
    ensures
        forall|k: int|
            0 <= k < keys_with_val_le(s, m).len() ==> entry_has(
                s,
                #[trigger] keys_with_val_le(s, m)[k],
            ),
        entry_keys(s).no_duplicates() ==> keys_with_val_le(s, m).no_duplicates(),
    decreases s.len(),
{
    let r = keys_with_val_le(s, m);
    if s.len() == 0 {
    } else {
        let t = s.drop_last();
        lemma_keys_with_val_le(t, m);
        assert(entry_keys(s).no_duplicates() ==> entry_keys(t).no_duplicates()) by {
            if entry_keys(s).no_duplicates() {
                assert forall|a: int, b: int| 0 <= a < b < entry_keys(t).len() implies entry_keys(
                    t,
                )[a] != entry_keys(t)[b] by {
                    assert(entry_keys(s)[a] == t[a].0 && entry_keys(s)[b] == t[b].0);
                    assert(entry_keys(t)[a] == t[a].0 && entry_keys(t)[b] == t[b].0);
                }
            }
        }
        assert forall|k: int| 0 <= k < r.len() implies entry_has(s, #[trigger] r[k]) by {
            if s.last().1 <= m && k == r.len() - 1 {
                assert(s[s.len() - 1].0 == r[k]);
            } else {
                assert(r[k] == keys_with_val_le(t, m)[k]);
                assert(entry_has(t, r[k]));
                let j = entry_index(t, r[k]);
                assert(s[j].0 == r[k]);
            }
        }
        if entry_keys(s).no_duplicates() {
            assert(r.no_duplicates()) by {
                if s.last().1 <= m {
                    assert forall|a: int, b: int| 0 <= a < b < r.len() implies r[a] != r[b] by {
                        if b == r.len() - 1 {
                            let rt = keys_with_val_le(t, m);
                            assert(r[a] == rt[a]);
                            assert(entry_has(t, rt[a]));
                            let j = entry_index(t, rt[a]);
                            assert(entry_keys(s)[j] == t[j].0);
                            assert(entry_keys(s)[s.len() - 1] == s.last().0);
                        }
                    }
                }
            }
        }
    }
}

/// What the Condorcet variant selects: the head-to-head losers among every
/// candidate at or below the second-lowest distinct count when that group's
/// graph is decisive, otherwise the candidates with the fewest votes.
pub open spec fn spec_condorcet_weakest(
    votes: Seq<(u16, u64)>,
    table: Seq<((u16, u16), u64)>,
    lowest: Seq<u16>,
) -> Seq<u16> {
    let weak = keys_with_val_le(votes, second_threshold(votes));
    let rp = spec_ranked_pairs_weakest(weak, table);
    if rp.1 {
        rp.0
    } else {
        lowest
    }
}

/// Compare the candidates holding the lowest and second-lowest counts
/// head-to-head; when that comparison is decisive its losers are eliminated,
/// otherwise the plain lowest set is.
pub fn find_condorcet_ranked_pairs_weakest(
    candidate_vote_counts: &Vec<(u16, u64)>,
    ranked_pairs_map: &Vec<((u16, u16), u64)>,
    lowest_vote_candidates: Vec<u16>,
) -> (r: Vec<u16>)
    requires
        entry_keys(candidate_vote_counts@).no_duplicates(),
        pair_keys(ranked_pairs_map@).no_duplicates(),
    ensures
        r@ == spec_condorcet_weakest(
            candidate_vote_counts@,
            ranked_pairs_map@,
            lowest_vote_candidates@,
        ),
{
    let ghost votes = candidate_vote_counts@;
    let nv = candidate_vote_counts.len();
    // lowest count
    let mut m: u64 = u64::MAX;
    let mut i: usize = 0;
    while i < nv
        invariant
            0 <= i <= nv == votes.len(),
            votes == candidate_vote_counts@,
            m == min_val(votes.take(i as int)),
        decreases nv - i,
    {
        proof {
            assert(votes.take(i as int + 1).drop_last() =~= votes.take(i as int));
            assert(votes.take(i as int + 1).last() == votes[i as int]);
        }
        let e = candidate_vote_counts[i];
        if e.1 < m {
            m = e.1;
        }
        i = i + 1;
    }
    proof {
        assert(votes.take(nv as int) =~= votes);
    }
    // second-lowest distinct count
    let mut above: u64 = u64::MAX;
    let mut has_above = false;
    let mut i: usize = 0;
    while i < nv
        invariant
            0 <= i <= nv == votes.len(),
            votes == candidate_vote_counts@,
            m == min_val(votes),
            above == min_above(votes.take(i as int), m as int),
            has_above == exists|k: int|
                0 <= k < i && (#[trigger] votes[k]).1 > m,
        decreases nv - i,
    {
        proof {
            assert(votes.take(i as int + 1).drop_last() =~= votes.take(i as int));
            assert(votes.take(i as int + 1).last() == votes[i as int]);
        }
        let e = candidate_vote_counts[i];
        if e.1 > m {
            proof {
                assert(votes[i as int].1 > m);
            }
            has_above = true;
            if e.1 < above {
                above = e.1;
            }
        }
        i = i + 1;
    }
    proof {
        assert(votes.take(nv as int) =~= votes);
    }
    let vote_threshold = if has_above {
        above
    } else {
        m
    };
    proof {
        assert(vote_threshold == second_threshold(votes));
    }
    // the group at or below the cut
    let mut weak_candidates: Vec<u16> = Vec::new();
    let mut i: usize = 0;
    proof {
        assert(votes.take(0) =~= Seq::<(u16, u64)>::empty());
    }
    while i < nv
        invariant
            0 <= i <= nv == votes.len(),
            votes == candidate_vote_counts@,
            weak_candidates@ == keys_with_val_le(votes.take(i as int), vote_threshold as int),
        decreases nv - i,
    {
        proof {
            assert(votes.take(i as int + 1).drop_last() =~= votes.take(i as int));
            assert(votes.take(i as int + 1).last() == votes[i as int]);
        }
        let e = candidate_vote_counts[i];
        if e.1 <= vote_threshold {
            weak_candidates.push(e.0);
        }
        i = i + 1;
    }
    proof {
        assert(votes.take(nv as int) =~= votes);
        lemma_keys_with_val_le(votes, vote_threshold as int);
    }
    let pairs_result = find_ranked_pairs_weakest(weak_candidates, ranked_pairs_map);
    if !pairs_result.1 {
        lowest_vote_candidates
    } else {
        pairs_result.0
    }
}

} // verus!
