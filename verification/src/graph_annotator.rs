//! Graph annotation: assigns each event graph node a derivative-allele
//! order index by a deterministic worklist traversal from a canonical
//! start node (lowest coordinate among the nodes of minimum in-graph
//! degree), visiting edges in non-decreasing support-count order, and
//! tags each edge with the structural relationship its endpoint
//! coordinates suggest.
//!
//! Nodes that the traversal cannot reach (defensive: components are
//! connected by construction) are appended in coordinate order,
//! continuing the order indices.

use vstd::prelude::*;

use crate::containers::AnnotatedEdge;
use crate::containers::AnnotatedGraph;
use crate::containers::AnnotatedNode;
use crate::containers::Cluster;
use crate::containers::ComplexSVCalls;
use crate::containers::Connection;
use crate::containers::ConnectionKind;
use crate::containers::Coordinate;
use crate::containers::EventGraph;
use crate::containers::coord_le;

verus! {

broadcast use vstd::seq_lib::group_to_multiset_ensures;

/// Directionality of a breakpoint pair: different chromosomes are
/// translocation-like; same chromosome with equal orientation flags is
/// inversion-like; with opposing flags, a forward-oriented lower
/// endpoint is deletion-like and a reverse-oriented one
/// duplication-like.
pub open spec fn classify(a: Coordinate, b: Coordinate) -> ConnectionKind {
    if a.chrom != b.chrom {
        ConnectionKind::TranslocationLike
    } else if a.fwd == b.fwd {
        ConnectionKind::InversionLike
    } else {
        let lo = if a.pos <= b.pos {
            a
        } else {
            b
        };
        if lo.fwd {
            ConnectionKind::DeletionLike
        } else {
            ConnectionKind::DuplicationLike
        }
    }
}

/// Exec classification matching `classify`.
pub fn classify_exec(a: &Coordinate, b: &Coordinate) -> (r: ConnectionKind)
    ensures
        r == classify(*a, *b),
{
    if a.chrom != b.chrom {
        ConnectionKind::TranslocationLike
    } else if a.fwd == b.fwd {
        ConnectionKind::InversionLike
    } else {
        let lo_fwd: bool = if a.pos <= b.pos {
            a.fwd
        } else {
            b.fwd
        };
        if lo_fwd {
            ConnectionKind::DeletionLike
        } else {
            ConnectionKind::DuplicationLike
        }
    }
}

/// Whether connection `ci` touches node `v`.
pub open spec fn incident(conns: Seq<Connection>, ci: usize, v: usize) -> bool {
    conns[ci as int].a == v || conns[ci as int].b == v
}

/// In-graph degree of `v`: how many of the graph's edges touch it.
pub open spec fn graph_degree(conns: Seq<Connection>, edges: Seq<usize>, v: usize) -> nat
    decreases edges.len(),
{
    if edges.len() == 0 {
        0
    } else {
        graph_degree(conns, edges.drop_last(), v) + if incident(conns, edges.last(), v) {
            1nat
        } else {
            0nat
        }
    }
}

/// `v` is the canonical start of the graph: a node of minimum in-graph
/// degree whose coordinate is lowest among the minimum-degree nodes.
pub open spec fn is_canonical_start(
    clusters: Seq<Cluster>,
    conns: Seq<Connection>,
    g: EventGraph,
    v: usize,
) -> bool {
    &&& g.nodes@.contains(v)
    &&& forall|t: int|
        0 <= t < g.nodes@.len() ==> graph_degree(conns, g.edges@, v) <= graph_degree(
            conns,
            g.edges@,
            #[trigger] g.nodes@[t],
        )
    &&& forall|t: int|
        0 <= t < g.nodes@.len() && graph_degree(conns, g.edges@, #[trigger] g.nodes@[t])
            == graph_degree(conns, g.edges@, v) ==> coord_le(
            clusters[v as int].coord,
            clusters[g.nodes@[t] as int].coord,
        )
}

/// Node `v` already appears among the annotated nodes.
pub open spec fn annotated_contains(anodes: Seq<AnnotatedNode>, v: usize) -> bool {
    exists|t: int| 0 <= t < anodes.len() && (#[trigger] anodes[t]).cluster == v
}

/// Structural well-formedness a graph inherits from the builder.
pub open spec fn graph_input_wf(
    clusters: Seq<Cluster>,
    conns: Seq<Connection>,
    g: EventGraph,
) -> bool {
    &&& g.nodes@.len() > 0
    &&& g.nodes@.no_duplicates()
    &&& forall|t: int| 0 <= t < g.nodes@.len() ==> ((#[trigger] g.nodes@[t]) as int) < clusters.len()
    &&& forall|t: int|
        0 <= t < g.edges@.len() ==> {
            let ci = #[trigger] g.edges@[t];
            &&& (ci as int) < conns.len()
            &&& g.nodes@.contains(conns[ci as int].a)
            &&& g.nodes@.contains(conns[ci as int].b)
        }
}

/// Everything annotation guarantees for one graph.
pub open spec fn annotated_post(
    clusters: Seq<Cluster>,
    conns: Seq<Connection>,
    g: EventGraph,
    ag: AnnotatedGraph,
) -> bool {
    &&& ag.nodes@.len() == g.nodes@.len()
    &&& forall|t: int| 0 <= t < ag.nodes@.len() ==> (#[trigger] ag.nodes@[t]).order == t
    &&& forall|t: int|
        0 <= t < ag.nodes@.len() ==> g.nodes@.contains((#[trigger] ag.nodes@[t]).cluster)
            && ((ag.nodes@[t].cluster as int) < clusters.len()) && ag.nodes@[t].coord
            == clusters[ag.nodes@[t].cluster as int].coord
    &&& forall|t1: int, t2: int|
        0 <= t1 < ag.nodes@.len() && 0 <= t2 < ag.nodes@.len() && t1 != t2 ==> (
        #[trigger] ag.nodes@[t1]).cluster != (#[trigger] ag.nodes@[t2]).cluster
    &&& forall|v: usize| g.nodes@.contains(v) ==> annotated_contains(ag.nodes@, v)
    &&& is_canonical_start(clusters, conns, g, ag.nodes@[0].cluster)
    &&& ag.edges@.len() == g.edges@.len()
    &&& forall|t: int|
        0 <= t < ag.edges@.len() ==> {
            let ae = #[trigger] ag.edges@[t];
            &&& ae.conn == g.edges@[t]
            &&& ae.a == conns[ae.conn as int].a
            &&& ae.b == conns[ae.conn as int].b
            &&& ae.kind == classify(
                clusters[ae.a as int].coord,
                clusters[ae.b as int].coord,
            )
        }
}

/// Counts how many edges of the graph touch `v`.
#[verifier::loop_isolation(false)]
pub fn count_degree(conns: &Vec<Connection>, edges: &Vec<usize>, v: usize) -> (r: usize)
    requires
        forall|t: int| 0 <= t < edges@.len() ==> ((#[trigger] edges@[t]) as int) < conns@.len(),
    ensures
        r == graph_degree(conns@, edges@, v),
{
    let mut count: usize = 0;
    let mut t: usize = 0;
    while t < edges.len()
        invariant
            t <= edges@.len(),
            count <= t,
            count == graph_degree(conns@, edges@.take(t as int), v),
        decreases edges@.len() - t,
    {
        let ci: usize = edges[t];
        if conns[ci].a == v || conns[ci].b == v {
            count = count + 1;
        }
        proof {
            assert(edges@.take((t + 1) as int).drop_last() =~= edges@.take(t as int));
            assert(edges@.take((t + 1) as int).last() == edges@[t as int]);
        }
        t = t + 1;
    }
    proof {
        assert(edges@.take(edges@.len() as int) =~= edges@);
    }
    count
}

/// Number of graph nodes not yet visited.
pub open spec fn unvisited_count(nodes: Seq<usize>, visited: Seq<bool>) -> nat
    decreases nodes.len(),
{
    if nodes.len() == 0 {
        0
    } else {
        unvisited_count(nodes.drop_last(), visited) + if !visited[nodes.last() as int] {
            1nat
        } else {
            0nat
        }
    }
}

/// Marking an unvisited member lowers the unvisited count by one.
pub proof fn lemma_unvisited_mark(nodes: Seq<usize>, visited: Seq<bool>, w: usize)
    requires
        nodes.no_duplicates(),
        nodes.contains(w),
        forall|t: int| 0 <= t < nodes.len() ==> ((#[trigger] nodes[t]) as int) < visited.len(),
        !visited[w as int],
    ensures
        unvisited_count(nodes, visited.update(w as int, true)) == unvisited_count(nodes, visited)
            - 1,
    decreases nodes.len(),
{
    let upd = visited.update(w as int, true);
    let dl = nodes.drop_last();
    assert(forall|t: int| 0 <= t < dl.len() ==> #[trigger] dl[t] == nodes[t]);
    if nodes.last() == w {
        if dl.contains(w) {
            let t = choose|t: int| 0 <= t < dl.len() && dl[t] == w;
            assert(nodes[t] == w);
            assert(false);
        }
        lemma_unvisited_unchanged(dl, visited, upd);
    } else {
        assert(dl.contains(w)) by {
            let t = choose|t: int| 0 <= t < nodes.len() && nodes[t] == w;
            assert(dl[t] == w);
        }
        lemma_unvisited_mark(dl, visited, w);
    }
}

/// The unvisited count only reads flags of listed nodes.
pub proof fn lemma_unvisited_unchanged(nodes: Seq<usize>, v1: Seq<bool>, v2: Seq<bool>)
    requires
        forall|t: int| 0 <= t < nodes.len() ==> ((#[trigger] nodes[t]) as int) < v1.len(),
        v1.len() == v2.len(),
        forall|t: int| 0 <= t < nodes.len() ==> v1[(#[trigger] nodes[t]) as int] == v2[nodes[t] as int],
    ensures
        unvisited_count(nodes, v1) == unvisited_count(nodes, v2),
    decreases nodes.len(),
{
    if nodes.len() > 0 {
        let dl = nodes.drop_last();
        assert(forall|t: int| 0 <= t < dl.len() ==> #[trigger] dl[t] == nodes[t]);
        lemma_unvisited_unchanged(dl, v1, v2);
    }
}

/// An unvisited member makes the unvisited count positive.
pub proof fn lemma_unvisited_positive(nodes: Seq<usize>, visited: Seq<bool>, w: usize)
    requires
        nodes.contains(w),
        forall|t: int| 0 <= t < nodes.len() ==> ((#[trigger] nodes[t]) as int) < visited.len(),
        !visited[w as int],
    ensures
        unvisited_count(nodes, visited) > 0,
    decreases nodes.len(),
{
    let dl = nodes.drop_last();
    assert(forall|t: int| 0 <= t < dl.len() ==> #[trigger] dl[t] == nodes[t]);
    if nodes.last() != w {
        assert(dl.contains(w)) by {
            let t = choose|t: int| 0 <= t < nodes.len() && nodes[t] == w;
            assert(dl[t] == w);
        }
        lemma_unvisited_positive(dl, visited, w);
    }
}

/// Sorts the positions `0 .. g.edges.len()` by non-decreasing support
/// count of the corresponding connection: the traversal's deterministic
/// edge-visitation order.
#[verifier::loop_isolation(false)]
fn edge_visit_order(conns: &Vec<Connection>, g: &EventGraph) -> (order: Vec<usize>)
    requires
        forall|t: int| 0 <= t < g.edges@.len() ==> ((#[trigger] g.edges@[t]) as int) < conns@.len(),
    ensures
        order@.len() == g.edges@.len(),
        forall|t: int| 0 <= t < order@.len() ==> ((#[trigger] order@[t]) as int) < g.edges@.len(),
        forall|t1: int, t2: int|
            0 <= t1 <= t2 < order@.len() ==> conns@[g.edges@[order@[t1] as int] as int].reads@.len()
                <= conns@[g.edges@[order@[t2] as int] as int].reads@.len(),
        order@.to_multiset() == crate::cluster_finder::index_seq(g.edges@.len() as nat).to_multiset(),
{
    let e_len: usize = g.edges.len();
    let mut order: Vec<usize> = Vec::new();
    let mut idx: usize = 0;
    while idx < e_len
        invariant
            idx <= e_len,
            order@.len() == idx,
            forall|t: int| 0 <= t < order@.len() ==> ((#[trigger] order@[t]) as int) < e_len,
            forall|t1: int, t2: int|
                0 <= t1 <= t2 < order@.len() ==> conns@[g.edges@[order@[t1] as int] as int].reads@.len()
                    <= conns@[g.edges@[order@[t2] as int] as int].reads@.len(),
            order@.to_multiset() == crate::cluster_finder::index_seq(idx as nat).to_multiset(),
        decreases e_len - idx,
    {
        let key: usize = conns[g.edges[idx]].reads.len();
        let mut p: usize = 0;
        while p < order.len() && conns[g.edges[order[p]]].reads.len() <= key
            invariant
                p <= order@.len(),
                forall|t: int|
                    0 <= t < p ==> conns@[g.edges@[order@[t] as int] as int].reads@.len() <= key,
            decreases order@.len() - p,
        {
            p = p + 1;
        }
        let ghost prev = order@;
        order.insert(p, idx);
        proof {
            assert(crate::cluster_finder::index_seq((idx + 1) as nat)
                =~= crate::cluster_finder::index_seq(idx as nat).push(idx));
            assert forall|t1: int, t2: int|
                0 <= t1 <= t2 < order@.len() implies conns@[g.edges@[order@[t1] as int] as int].reads@.len()
                <= conns@[g.edges@[order@[t2] as int] as int].reads@.len() by {
                assert(order@ == prev.subrange(0, p as int).push(idx) + prev.subrange(
                    p as int,
                    prev.len() as int,
                ));
                if t1 < p {
                    assert(order@[t1] == prev[t1]);
                } else if t1 == p {
                    assert(order@[t1] == idx);
                } else {
                    assert(order@[t1] == prev[t1 - 1]);
                }
                if t2 < p {
                    assert(order@[t2] == prev[t2]);
                } else if t2 == p {
                    assert(order@[t2] == idx);
                } else {
                    assert(order@[t2] == prev[t2 - 1]);
                }
                if p < prev.len() {
                    assert(conns@[g.edges@[prev[p as int] as int] as int].reads@.len() > key);
                }
            }
            assert forall|t: int| 0 <= t < order@.len() implies ((#[trigger] order@[t]) as int)
                < e_len by {
                assert(order@ == prev.subrange(0, p as int).push(idx) + prev.subrange(
                    p as int,
                    prev.len() as int,
                ));
                if t < p {
                    assert(order@[t] == prev[t]);
                } else if t > p {
                    assert(order@[t] == prev[t - 1]);
                }
            }
        }
        idx = idx + 1;
    }
    order
}

/// Annotates one event graph: order indices by traversal, directionality
/// tags per edge.
#[verifier::loop_isolation(false)]
#[verifier::rlimit(100)]
pub fn annotate_graph(clusters: &Vec<Cluster>, conns: &Vec<Connection>, g: &EventGraph) -> (ag:
    AnnotatedGraph)
    requires
        graph_input_wf(clusters@, conns@, *g),
    ensures
        annotated_post(clusters@, conns@, *g, ag),
{
    let m: usize = clusters.len();
    let k: usize = g.nodes.len();
    // canonical start: minimum degree, then lowest coordinate
    let mut best: usize = g.nodes[0];
    let mut best_deg: usize = count_degree(conns, &g.edges, best);
    let mut t: usize = 1;
    while t < k
        invariant
            1 <= t <= k,
            (best as int) < m,
            g.nodes@.contains(best),
            best_deg == graph_degree(conns@, g.edges@, best),
            forall|t2: int|
                0 <= t2 < t ==> graph_degree(conns@, g.edges@, best) <= graph_degree(
                    conns@,
                    g.edges@,
                    #[trigger] g.nodes@[t2],
                ),
            forall|t2: int|
                0 <= t2 < t && graph_degree(conns@, g.edges@, #[trigger] g.nodes@[t2])
                    == graph_degree(conns@, g.edges@, best) ==> coord_le(
                    clusters@[best as int].coord,
                    clusters@[g.nodes@[t2] as int].coord,
                ),
        decreases k - t,
    {
        let v: usize = g.nodes[t];
        let d: usize = count_degree(conns, &g.edges, v);
        let cb = clusters[best].coord;
        let cv = clusters[v].coord;
        let better_coord: bool = if cv.chrom != cb.chrom {
            cv.chrom < cb.chrom
        } else if cv.fwd != cb.fwd {
            !cv.fwd
        } else {
            cv.pos < cb.pos
        };
        if d < best_deg || (d == best_deg && better_coord) {
            best = v;
            best_deg = d;
        }
        t = t + 1;
    }
    let start: usize = best;
    // traversal
    let order: Vec<usize> = edge_visit_order(conns, g);
    let mut visited: Vec<bool> = Vec::new();
    let mut i: usize = 0;
    while i < m
        invariant
            i <= m,
            visited@.len() == i,
            forall|j: int| 0 <= j < i ==> !(#[trigger] visited@[j]),
        decreases m - i,
    {
        visited.push(false);
        i = i + 1;
    }
    proof {
        lemma_unvisited_unchanged(
            g.nodes@,
            visited@,
            Seq::new(visited@.len(), |j: int| false),
        );
        lemma_unvisited_all_unvisited(g.nodes@, visited@);
    }
    let mut anodes: Vec<AnnotatedNode> = Vec::new();
    let mut wl: Vec<usize> = Vec::new();
    let ghost visited_before_start = visited@;
    visited.set(start, true);
    proof {
        lemma_unvisited_mark(g.nodes@, visited_before_start, start);
    }
    anodes.push(AnnotatedNode { cluster: start, coord: clusters[start].coord, order: 0 });
    wl.push(start);
    proof {
        assert(anodes@[0].cluster == start);
        assert forall|v: usize|
            (v as int) < m && (#[trigger] visited@[v as int]) implies annotated_contains(anodes@, v)
            && g.nodes@.contains(v) by {
            assert(v == start);
            assert(anodes@[0].cluster == v);
        }
    }
    while wl.len() > 0
        invariant
            visited@.len() == m,
            anodes@.len() + unvisited_count(g.nodes@, visited@) == k,
            anodes@.len() >= 1,
            anodes@[0].cluster == start,
            forall|t2: int| 0 <= t2 < anodes@.len() ==> (#[trigger] anodes@[t2]).order == t2,
            forall|t2: int|
                0 <= t2 < anodes@.len() ==> g.nodes@.contains((#[trigger] anodes@[t2]).cluster)
                    && ((anodes@[t2].cluster as int) < m) && anodes@[t2].coord == clusters@[anodes@[
                t2].cluster as int].coord && visited@[anodes@[t2].cluster as int],
            forall|v: usize|
                (v as int) < m && (#[trigger] visited@[v as int]) ==> annotated_contains(
                    anodes@,
                    v,
                ) && g.nodes@.contains(v),
            forall|t1: int, t2: int|
                0 <= t1 < anodes@.len() && 0 <= t2 < anodes@.len() && t1 != t2 ==> (
                #[trigger] anodes@[t1]).cluster != (#[trigger] anodes@[t2]).cluster,
            forall|t2: int|
                0 <= t2 < wl@.len() ==> ((#[trigger] wl@[t2]) as int) < m && visited@[wl@[t2] as int],
        decreases k - anodes@.len(), wl@.len(),
    {
        let u: usize = wl.pop().unwrap();
        let ghost wl_after_pop = wl@;
        let ghost anodes_at_pop = anodes@.len();
        let mut t2: usize = 0;
        while t2 < order.len()
            invariant
                visited@.len() == m,
                anodes@.len() + unvisited_count(g.nodes@, visited@) == k,
                anodes@.len() >= 1,
                anodes@[0].cluster == start,
                forall|t3: int| 0 <= t3 < anodes@.len() ==> (#[trigger] anodes@[t3]).order == t3,
                forall|t3: int|
                    0 <= t3 < anodes@.len() ==> g.nodes@.contains((#[trigger] anodes@[t3]).cluster)
                        && ((anodes@[t3].cluster as int) < m) && anodes@[t3].coord == clusters@[
                    anodes@[t3].cluster as int].coord && visited@[anodes@[t3].cluster as int],
                forall|v: usize|
                    (v as int) < m && (#[trigger] visited@[v as int]) ==> annotated_contains(
                        anodes@,
                        v,
                    ) && g.nodes@.contains(v),
                forall|t1: int, t3: int|
                    0 <= t1 < anodes@.len() && 0 <= t3 < anodes@.len() && t1 != t3 ==> (
                    #[trigger] anodes@[t1]).cluster != (#[trigger] anodes@[t3]).cluster,
                forall|t3: int|
                    0 <= t3 < wl@.len() ==> ((#[trigger] wl@[t3]) as int) < m && visited@[wl@[t3]
                        as int],
                anodes@.len() <= k,
                anodes_at_pop <= anodes@.len(),
                wl@.len() <= wl_after_pop.len() + (anodes@.len() - anodes_at_pop),
            decreases order@.len() - t2,
        {
            let ci: usize = g.edges[order[t2]];
            let ea: usize = conns[ci].a;
            let eb: usize = conns[ci].b;
            let mut w: usize = 0;
            let mut touches: bool = false;
            if ea == u {
                w = eb;
                touches = true;
            } else if eb == u {
                w = ea;
                touches = true;
            }
            if touches {
                proof {
                    assert(g.nodes@.contains(conns@[ci as int].a));
                    assert(g.nodes@.contains(conns@[ci as int].b));
                    let tw = choose|tw: int| 0 <= tw < g.nodes@.len() && g.nodes@[tw] == w;
                    assert((w as int) < m);
                }
                if !visited[w] {
                    let ghost visited_prev = visited@;
                    visited.set(w, true);
                    proof {
                        lemma_unvisited_mark(g.nodes@, visited_prev, w);
                    }
                    let ord: usize = anodes.len();
                    let ghost anodes_prev = anodes@;
                    anodes.push(AnnotatedNode { cluster: w, coord: clusters[w].coord, order: ord as u64 });
                    wl.push(w);
                    proof {
                        assert(anodes@.drop_last() =~= anodes_prev);
                        assert(anodes@.last().cluster == w);
                        assert forall|v: usize|
                            (v as int) < m && (#[trigger] visited@[v as int]) implies
                            annotated_contains(anodes@, v) && g.nodes@.contains(v) by {
                            if v == w {
                                assert(anodes@[anodes@.len() - 1].cluster == w);
                            } else {
                                assert(visited_prev[v as int]);
                                assert(annotated_contains(anodes_prev, v));
                                let t4 = choose|t4: int|
                                    0 <= t4 < anodes_prev.len() && (#[trigger] anodes_prev[t4]).cluster
                                        == v;
                                assert(anodes@[t4].cluster == v);
                            }
                        }
                        assert forall|t1: int, t3: int|
                            0 <= t1 < anodes@.len() && 0 <= t3 < anodes@.len() && t1
                                != t3 implies (#[trigger] anodes@[t1]).cluster != (
                            #[trigger] anodes@[t3]).cluster by {
                            let last = anodes@.len() - 1;
                            if t1 == last {
                                assert(!visited_prev[w as int]);
                                assert(visited_prev[anodes@[t3].cluster as int]);
                            } else if t3 == last {
                                assert(!visited_prev[w as int]);
                                assert(visited_prev[anodes@[t1].cluster as int]);
                            }
                        }
                    }
                }
            }
            t2 = t2 + 1;
        }
    }
    // defensive completion: append unreached nodes in coordinate order
    while anodes.len() < k
        invariant
            visited@.len() == m,
            anodes@.len() + unvisited_count(g.nodes@, visited@) == k,
            anodes@.len() >= 1,
            anodes@[0].cluster == start,
            forall|t2: int| 0 <= t2 < anodes@.len() ==> (#[trigger] anodes@[t2]).order == t2,
            forall|t2: int|
                0 <= t2 < anodes@.len() ==> g.nodes@.contains((#[trigger] anodes@[t2]).cluster)
                    && ((anodes@[t2].cluster as int) < m) && anodes@[t2].coord == clusters@[anodes@[
                t2].cluster as int].coord && visited@[anodes@[t2].cluster as int],
            forall|v: usize|
                (v as int) < m && (#[trigger] visited@[v as int]) ==> annotated_contains(
                    anodes@,
                    v,
                ) && g.nodes@.contains(v),
            forall|t1: int, t2: int|
                0 <= t1 < anodes@.len() && 0 <= t2 < anodes@.len() && t1 != t2 ==> (
                #[trigger] anodes@[t1]).cluster != (#[trigger] anodes@[t2]).cluster,
        decreases k - anodes@.len(),
    {
        let mut found: bool = false;
        let mut pick: usize = 0;
        let mut t2: usize = 0;
        while t2 < k
            invariant
                t2 <= k,
                visited@.len() == m,
                found ==> (pick as int) < m && g.nodes@.contains(pick) && !visited@[pick as int],
                !found ==> forall|t3: int| 0 <= t3 < t2 ==> visited@[(#[trigger] g.nodes@[t3]) as int],
            decreases k - t2,
        {
            let v: usize = g.nodes[t2];
            if !visited[v] {
                if !found {
                    found = true;
                    pick = v;
                } else {
                    let cp = clusters[pick].coord;
                    let cv = clusters[v].coord;
                    let lower: bool = if cv.chrom != cp.chrom {
                        cv.chrom < cp.chrom
                    } else if cv.fwd != cp.fwd {
                        !cv.fwd
                    } else {
                        cv.pos < cp.pos
                    };
                    if lower {
                        pick = v;
                    }
                }
            }
            t2 = t2 + 1;
        }
        if !found {
            proof {
                assert forall|t3: int| 0 <= t3 < g.nodes@.len() implies visited@[(
                #[trigger] g.nodes@[t3]) as int] by {
                }
                lemma_unvisited_none(g.nodes@, visited@);
                assert(false);
            }
        }
        let ghost visited_prev = visited@;
        visited.set(pick, true);
        proof {
            lemma_unvisited_mark(g.nodes@, visited_prev, pick);
        }
        let ord: usize = anodes.len();
        let ghost anodes_prev = anodes@;
        anodes.push(AnnotatedNode { cluster: pick, coord: clusters[pick].coord, order: ord as u64 });
        proof {
            assert(anodes@.drop_last() =~= anodes_prev);
            assert forall|v: usize|
                (v as int) < m && (#[trigger] visited@[v as int]) implies annotated_contains(
                anodes@,
                v,
            ) && g.nodes@.contains(v) by {
                if v == pick {
                    assert(anodes@[anodes@.len() - 1].cluster == pick);
                } else {
                    assert(visited_prev[v as int]);
                    assert(annotated_contains(anodes_prev, v));
                    let t4 = choose|t4: int|
                        0 <= t4 < anodes_prev.len() && (#[trigger] anodes_prev[t4]).cluster == v;
                    assert(anodes@[t4].cluster == v);
                }
            }
            assert forall|t1: int, t3: int|
                0 <= t1 < anodes@.len() && 0 <= t3 < anodes@.len() && t1 != t3 implies (
            #[trigger] anodes@[t1]).cluster != (#[trigger] anodes@[t3]).cluster by {
                let last = anodes@.len() - 1;
                if t1 == last {
                    assert(!visited_prev[pick as int]);
                    assert(visited_prev[anodes@[t3].cluster as int]);
                } else if t3 == last {
                    assert(!visited_prev[pick as int]);
                    assert(visited_prev[anodes@[t1].cluster as int]);
                }
            }
        }
    }
    proof {
        assert forall|v: usize| g.nodes@.contains(v) implies annotated_contains(anodes@, v) by {
            let tv = choose|tv: int| 0 <= tv < g.nodes@.len() && g.nodes@[tv] == v;
            if !visited@[v as int] {
                lemma_unvisited_positive(g.nodes@, visited@, v);
            }
        }
    }
    // edges
    let mut aedges: Vec<AnnotatedEdge> = Vec::new();
    let mut t3: usize = 0;
    while t3 < g.edges.len()
        invariant
            t3 <= g.edges@.len(),
            aedges@.len() == t3,
            forall|t4: int|
                0 <= t4 < aedges@.len() ==> {
                    let ae = #[trigger] aedges@[t4];
                    &&& ae.conn == g.edges@[t4]
                    &&& ae.a == conns@[ae.conn as int].a
                    &&& ae.b == conns@[ae.conn as int].b
                    &&& ae.kind == classify(
                        clusters@[ae.a as int].coord,
                        clusters@[ae.b as int].coord,
                    )
                },
        decreases g.edges@.len() - t3,
    {
        let ci: usize = g.edges[t3];
        let ea: usize = conns[ci].a;
        let eb: usize = conns[ci].b;
        proof {
            assert(g.nodes@.contains(conns@[ci as int].a));
            assert(g.nodes@.contains(conns@[ci as int].b));
            let ta = choose|ta: int| 0 <= ta < g.nodes@.len() && g.nodes@[ta] == conns@[ci as int].a;
            let tb = choose|tb: int| 0 <= tb < g.nodes@.len() && g.nodes@[tb] == conns@[ci as int].b;
        }
        let kind: ConnectionKind = classify_exec(&clusters[ea].coord, &clusters[eb].coord);
        aedges.push(AnnotatedEdge { conn: ci, a: ea, b: eb, kind });
        t3 = t3 + 1;
    }
    AnnotatedGraph { nodes: anodes, edges: aedges }
}

/// The empty visited vector leaves every node unvisited: the count is
/// the number of graph nodes.
pub proof fn lemma_unvisited_all_unvisited(nodes: Seq<usize>, visited: Seq<bool>)
    requires
        forall|t: int| 0 <= t < nodes.len() ==> ((#[trigger] nodes[t]) as int) < visited.len(),
        forall|j: int| 0 <= j < visited.len() ==> !(#[trigger] visited[j]),
    ensures
        unvisited_count(nodes, visited) == nodes.len(),
    decreases nodes.len(),
{
    if nodes.len() > 0 {
        let dl = nodes.drop_last();
        assert(forall|t: int| 0 <= t < dl.len() ==> #[trigger] dl[t] == nodes[t]);
        lemma_unvisited_all_unvisited(dl, visited);
    }
}

/// When every node is visited the unvisited count is zero.
pub proof fn lemma_unvisited_none(nodes: Seq<usize>, visited: Seq<bool>)
    requires
        forall|t: int| 0 <= t < nodes.len() ==> ((#[trigger] nodes[t]) as int) < visited.len(),
        forall|t: int| 0 <= t < nodes.len() ==> visited[(#[trigger] nodes[t]) as int],
    ensures
        unvisited_count(nodes, visited) == 0,
    decreases nodes.len(),
{
    if nodes.len() > 0 {
        let dl = nodes.drop_last();
        assert(forall|t: int| 0 <= t < dl.len() ==> #[trigger] dl[t] == nodes[t]);
        lemma_unvisited_none(dl, visited);
    }
}

/// Annotates every event graph.
#[verifier::loop_isolation(false)]
pub fn annotate_graphs(
    clusters: &Vec<Cluster>,
    conns: &Vec<Connection>,
    graphs: &Vec<EventGraph>,
) -> (calls: ComplexSVCalls)
    requires
        forall|gi: int|
            0 <= gi < graphs@.len() ==> graph_input_wf(clusters@, conns@, #[trigger] graphs@[gi]),
    ensures
        calls.event_graphs@.len() == graphs@.len(),
        forall|gi: int|
            0 <= gi < graphs@.len() ==> annotated_post(
                clusters@,
                conns@,
                graphs@[gi],
                #[trigger] calls.event_graphs@[gi],
            ),
{
    let mut out: Vec<AnnotatedGraph> = Vec::new();
    let mut gi: usize = 0;
    while gi < graphs.len()
        invariant
            gi <= graphs@.len(),
            out@.len() == gi,
            forall|g2: int|
                0 <= g2 < gi ==> annotated_post(clusters@, conns@, graphs@[g2], #[trigger] out@[g2]),
        decreases graphs@.len() - gi,
    {
        let ag = annotate_graph(clusters, conns, &graphs[gi]);
        out.push(ag);
        gi = gi + 1;
    }
    ComplexSVCalls { event_graphs: out }
}

/// Order index uniqueness: within one annotated event graph, no two
/// nodes share an order index.
pub proof fn lemma_order_index_unique(
    clusters: Seq<Cluster>,
    conns: Seq<Connection>,
    g: EventGraph,
    ag: AnnotatedGraph,
    t1: int,
    t2: int,
)
    requires
        annotated_post(clusters, conns, g, ag),
        0 <= t1 < ag.nodes@.len(),
        0 <= t2 < ag.nodes@.len(),
        t1 != t2,
    ensures
        ag.nodes@[t1].order != ag.nodes@[t2].order,
{
    assert(ag.nodes@[t1].order == t1);
    assert(ag.nodes@[t2].order == t2);
}

} // verus!
