//! Event graph construction: partitions the clusters (nodes) and
//! connections (edges) into maximal connected components by an
//! iterative worklist traversal over an explicit component label per
//! cluster. A cluster with no connections becomes a singleton one-node
//! graph.

use vstd::prelude::*;

use crate::containers::Connection;
use crate::containers::EventGraph;

verus! {

/// Number of assigned component labels.
pub open spec fn assigned_count(comp: Seq<Option<usize>>) -> nat
    decreases comp.len(),
{
    if comp.len() == 0 {
        0
    } else {
        assigned_count(comp.drop_last()) + if comp.last() is Some {
            1nat
        } else {
            0nat
        }
    }
}

pub proof fn lemma_assigned_count_le(comp: Seq<Option<usize>>)
    ensures
        assigned_count(comp) <= comp.len(),
    decreases comp.len(),
{
    if comp.len() > 0 {
        lemma_assigned_count_le(comp.drop_last());
    }
}

pub proof fn lemma_assigned_count_update(comp: Seq<Option<usize>>, i: int, v: usize)
    requires
        0 <= i < comp.len(),
        comp[i] is None,
    ensures
        assigned_count(comp.update(i, Some(v))) == assigned_count(comp) + 1,
    decreases comp.len(),
{
    let upd = comp.update(i, Some(v));
    if i == comp.len() - 1 {
        assert(upd.drop_last() =~= comp.drop_last());
        assert(upd.last() == Some(v));
        assert(comp.last() is None);
    } else {
        assert(upd.drop_last() =~= comp.drop_last().update(i, Some(v)));
        assert(upd.last() == comp.last());
        lemma_assigned_count_update(comp.drop_last(), i, v);
    }
}

/// All edges incident to `v` stay inside `v`'s component.
pub open spec fn edge_closed_at(conns: Seq<Connection>, comp: Seq<Option<usize>>, v: usize) -> bool {
    forall|ci: int|
        0 <= ci < conns.len() ==> {
            let cn = #[trigger] conns[ci];
            &&& (cn.a == v ==> comp[cn.b as int] == comp[v as int])
            &&& (cn.b == v ==> comp[cn.a as int] == comp[v as int])
        }
}

/// Two cluster indices are joined by one connection.
pub open spec fn step(conns: Seq<Connection>, u: usize, v: usize) -> bool {
    exists|ci: int|
        0 <= ci < conns.len() && (((#[trigger] conns[ci]).a == u && conns[ci].b == v) || (
        conns[ci].a == v && conns[ci].b == u))
}

/// `p` walks from `u` to `v` along connections.
pub open spec fn is_path(conns: Seq<Connection>, p: Seq<usize>, u: usize, v: usize) -> bool {
    &&& p.len() >= 1
    &&& p[0] == u
    &&& p.last() == v
    &&& forall|t: int| 0 <= t < p.len() - 1 ==> step(conns, #[trigger] p[t], p[t + 1])
}

/// Some connection path joins `u` and `v`.
pub open spec fn reachable(conns: Seq<Connection>, u: usize, v: usize) -> bool {
    exists|p: Seq<usize>| is_path(conns, p, u, v)
}

pub proof fn lemma_reach_refl(conns: Seq<Connection>, u: usize)
    ensures
        reachable(conns, u, u),
{
    assert(is_path(conns, seq![u], u, u));
}

pub proof fn lemma_reach_step(conns: Seq<Connection>, r: usize, u: usize, v: usize)
    requires
        reachable(conns, r, u),
        step(conns, u, v),
    ensures
        reachable(conns, r, v),
{
    let p = choose|p: Seq<usize>| is_path(conns, p, r, u);
    let p2 = p.push(v);
    assert forall|t: int| 0 <= t < p2.len() - 1 implies step(conns, #[trigger] p2[t], p2[t + 1]) by {
        if t < p.len() - 1 {
            assert(p2[t] == p[t]);
            assert(p2[t + 1] == p[t + 1]);
        } else {
            assert(p2[t] == p.last());
            assert(p2[t + 1] == v);
        }
    }
    assert(is_path(conns, p2, r, v));
}

/// The cluster index `v` is a node of some graph in the list.
pub open spec fn in_some_graph(graphs: Seq<EventGraph>, v: usize) -> bool {
    exists|g: int| 0 <= g < graphs.len() && (#[trigger] graphs[g]).nodes@.contains(v)
}

/// The connection index `ci` is an edge of some graph in the list.
pub open spec fn edge_in_some_graph(graphs: Seq<EventGraph>, ci: usize) -> bool {
    exists|g: int| 0 <= g < graphs.len() && (#[trigger] graphs[g]).edges@.contains(ci)
}

/// Partitions cluster indices `0 .. m` and the connections into
/// connected components.
#[verifier::loop_isolation(false)]
#[verifier::rlimit(100)]
pub fn build_event_graphs(m: usize, conns: &Vec<Connection>) -> (graphs: Vec<EventGraph>)
    requires
        forall|ci: int|
            0 <= ci < conns@.len() ==> (#[trigger] conns@[ci]).a < conns@[ci].b && (conns@[ci].b
                as int) < m,
    ensures
        forall|v: usize| (v as int) < m ==> in_some_graph(graphs@, v),
        forall|g1: int, g2: int, v: usize|
            0 <= g1 < graphs@.len() && 0 <= g2 < graphs@.len() && g1 != g2
                && #[trigger] graphs@[g1].nodes@.contains(v) ==> !(#[trigger] graphs@[g2].nodes@.contains(
                v,
            )),
        forall|g: int|
            0 <= g < graphs@.len() ==> (#[trigger] graphs@[g]).nodes@.len() > 0
                && graphs@[g].nodes@.no_duplicates() && graphs@[g].edges@.no_duplicates(),
        forall|g: int, t: int|
            0 <= g < graphs@.len() && 0 <= t < (#[trigger] graphs@[g]).nodes@.len() ==> ((
            #[trigger] graphs@[g].nodes@[t]) as int) < m,
        forall|ci: usize| (ci as int) < conns@.len() ==> edge_in_some_graph(graphs@, ci),
        forall|g1: int, g2: int, ci: usize|
            0 <= g1 < graphs@.len() && 0 <= g2 < graphs@.len() && g1 != g2
                && #[trigger] graphs@[g1].edges@.contains(ci) ==> !(#[trigger] graphs@[g2].edges@.contains(
                ci,
            )),
        forall|g: int, t: int|
            0 <= g < graphs@.len() && 0 <= t < graphs@[g].edges@.len() ==> {
                let ci = #[trigger] graphs@[g].edges@[t];
                &&& (ci as int) < conns@.len()
                &&& graphs@[g].nodes@.contains(conns@[ci as int].a)
                &&& graphs@[g].nodes@.contains(conns@[ci as int].b)
            },
        forall|g: int, t: int|
            0 <= g < graphs@.len() && 0 <= t < graphs@[g].nodes@.len() ==> reachable(
                conns@,
                graphs@[g].nodes@[0],
                #[trigger] graphs@[g].nodes@[t],
            ),
{
    let mut comp: Vec<Option<usize>> = Vec::new();
    let mut i: usize = 0;
    while i < m
        invariant
            i <= m,
            comp@.len() == i,
            forall|j: int| 0 <= j < i ==> (#[trigger] comp@[j]) is None,
            assigned_count(comp@) == 0,
        decreases m - i,
    {
        let ghost comp_prev = comp@;
        comp.push(None);
        proof {
            assert(comp@.drop_last() =~= comp_prev);
        }
        i = i + 1;
    }
    let mut graphs: Vec<EventGraph> = Vec::new();
    let mut assigned: usize = 0;
    let mut root: usize = 0;
    while root < m
        invariant
            root <= m,
            comp@.len() == m,
            assigned == assigned_count(comp@),
            assigned <= m,
            forall|v: int|
                0 <= v < m && (#[trigger] comp@[v]) is Some ==> (comp@[v]->0 as int)
                    < graphs@.len(),
            forall|v: int| 0 <= v < root ==> (#[trigger] comp@[v]) is Some,
            forall|g2: int, v: usize|
                0 <= g2 < graphs@.len() && (v as int) < m ==> ((#[trigger] graphs@[g2].nodes@.contains(
                    v,
                )) <==> comp@[v as int] == Some(g2 as usize)),
            forall|g2: int|
                0 <= g2 < graphs@.len() ==> (#[trigger] graphs@[g2]).nodes@.len() > 0
                    && graphs@[g2].nodes@.no_duplicates() && graphs@[g2].edges@.len() == 0,
            forall|g2: int, t: int|
                0 <= g2 < graphs@.len() && 0 <= t < (#[trigger] graphs@[g2]).nodes@.len() ==> ((
                #[trigger] graphs@[g2].nodes@[t]) as int) < m,
            forall|v: usize|
                (v as int) < m && (#[trigger] comp@[v as int]) is Some ==> edge_closed_at(
                    conns@,
                    comp@,
                    v,
                ),
            forall|v: int|
                0 <= v < m && (#[trigger] comp@[v]) is Some ==> reachable(
                    conns@,
                    graphs@[comp@[v]->0 as int].nodes@[0],
                    v as usize,
                ),
        decreases m - root,
    {
        if comp[root].is_none() {
            let g: usize = graphs.len();
            let mut cur_nodes: Vec<usize> = Vec::new();
            let mut stack: Vec<usize> = Vec::new();
            let ghost comp_before_set = comp@;
            comp.set(root, Some(g));
            proof {
                lemma_assigned_count_update(comp_before_set, root as int, g);
                lemma_assigned_count_le(comp@);
                lemma_reach_refl(conns@, root);
            }
            assigned = assigned + 1;
            cur_nodes.push(root);
            stack.push(root);
            proof {
                assert(stack@[0] == root);
                assert(cur_nodes@[0] == root);
                assert forall|g2: int, v: usize|
                    0 <= g2 < graphs@.len() && (v as int) < m implies ((
                #[trigger] graphs@[g2].nodes@.contains(v)) <==> comp@[v as int] == Some(
                    g2 as usize,
                )) by {
                    if v as int == root {
                        assert(comp@[v as int] == Some(g));
                    } else {
                        assert(comp@[v as int] == comp_before_set[v as int]);
                    }
                }
                assert forall|v: usize| (v as int) < m implies ((#[trigger] cur_nodes@.contains(v))
                    <==> comp@[v as int] == Some(g)) by {
                    if v as int == root {
                        assert(cur_nodes@.contains(v));
                    } else {
                        assert(comp@[v as int] == comp_before_set[v as int]);
                        if comp@[v as int] is Some {
                            assert((comp_before_set[v as int]->0 as int) < g);
                        }
                        if cur_nodes@.contains(v) {
                            let t = choose|t: int|
                                0 <= t < cur_nodes@.len() && cur_nodes@[t] == v;
                            assert(t == 0);
                            assert(false);
                        }
                    }
                }
                assert forall|v: usize|
                    (v as int) < m && (#[trigger] comp@[v as int]) is Some && !stack@.contains(
                        v,
                    ) implies edge_closed_at(conns@, comp@, v) by {
                    if v as int == root {
                        assert(stack@.contains(v));
                    } else {
                        assert(comp_before_set[v as int] is Some);
                        assert(edge_closed_at(conns@, comp_before_set, v));
                        assert forall|cj: int| 0 <= cj < conns@.len() implies {
                            let cn = #[trigger] conns@[cj];
                            &&& (cn.a == v ==> comp@[cn.b as int] == comp@[v as int])
                            &&& (cn.b == v ==> comp@[cn.a as int] == comp@[v as int])
                        } by {
                            let cn = conns@[cj];
                            if cn.a == v {
                                assert(comp_before_set[cn.b as int] == comp_before_set[v as int]);
                                assert(cn.b as int != root);
                            }
                            if cn.b == v {
                                assert(comp_before_set[cn.a as int] == comp_before_set[v as int]);
                                assert(cn.a as int != root);
                            }
                        }
                    }
                }
            }
            while stack.len() > 0
                invariant
                    comp@.len() == m,
                    (root as int) < m,
                    comp@[root as int] == Some(g),
                    forall|v: int| 0 <= v < root ==> (#[trigger] comp@[v]) is Some,
                    (g as int) == graphs@.len(),
                    assigned == assigned_count(comp@),
                    assigned <= m,
                    forall|v: int|
                        0 <= v < m && (#[trigger] comp@[v]) is Some ==> (comp@[v]->0 as int)
                            <= graphs@.len(),
                    forall|g2: int, v: usize|
                        0 <= g2 < graphs@.len() && (v as int) < m ==> ((
                        #[trigger] graphs@[g2].nodes@.contains(v)) <==> comp@[v as int] == Some(
                            g2 as usize,
                        )),
                    forall|v: usize|
                        (v as int) < m ==> ((#[trigger] cur_nodes@.contains(v)) <==> comp@[v as int]
                            == Some(g)),
                    forall|t: int|
                        0 <= t < cur_nodes@.len() ==> ((#[trigger] cur_nodes@[t]) as int) < m,
                    cur_nodes@.no_duplicates(),
                    cur_nodes@.len() > 0,
                    forall|t: int|
                        0 <= t < stack@.len() ==> ((#[trigger] stack@[t]) as int) < m
                            && comp@[stack@[t] as int] == Some(g),
                    stack@.no_duplicates(),
                    forall|v: usize|
                        (v as int) < m && (#[trigger] comp@[v as int]) is Some && !stack@.contains(
                            v,
                        ) ==> edge_closed_at(conns@, comp@, v),
                    cur_nodes@[0] == root,
                    forall|v: int|
                        0 <= v < m && (#[trigger] comp@[v]) is Some && (comp@[v]->0 as int) < g
                            ==> reachable(conns@, graphs@[comp@[v]->0 as int].nodes@[0], v as usize),
                    forall|v: int|
                        0 <= v < m && #[trigger] comp@[v] == Some(g) ==> reachable(
                            conns@,
                            root,
                            v as usize,
                        ),
                decreases m - assigned, stack@.len(),
            {
                let ghost stack_before_pop = stack@;
                let u: usize = stack.pop().unwrap();
                let ghost stack_after_pop = stack@;
                proof {
                    assert(stack@ =~= stack_before_pop.drop_last());
                    assert(u == stack_before_pop.last());
                    assert forall|t1: int, t2: int|
                        0 <= t1 < stack@.len() && 0 <= t2 < stack@.len() && t1 != t2 implies stack@[t1]
                        != stack@[t2] by {
                        assert(stack@[t1] == stack_before_pop[t1]);
                        assert(stack@[t2] == stack_before_pop[t2]);
                    }
                    assert(stack@.no_duplicates());
                    if stack@.contains(u) {
                        let t = choose|t: int| 0 <= t < stack@.len() && stack@[t] == u;
                        assert(stack_before_pop[t] == u);
                        assert(stack_before_pop[stack_before_pop.len() - 1] == u);
                        assert(false);
                    }
                    assert forall|v: usize|
                        (v as int) < m && (#[trigger] comp@[v as int]) is Some && v != u
                            && !stack@.contains(v) implies edge_closed_at(conns@, comp@, v) by {
                        if stack_before_pop.contains(v) {
                            let t = choose|t: int|
                                0 <= t < stack_before_pop.len() && stack_before_pop[t] == v;
                            if t < stack_before_pop.len() - 1 {
                                assert(stack@[t] == v);
                                assert(stack@.contains(v));
                            } else {
                                assert(v == u);
                            }
                            assert(false);
                        }
                    }
                }
                let ghost assigned_at_pop = assigned;
                let mut ci: usize = 0;
                while ci < conns.len()
                    invariant
                        comp@.len() == m,
                        (root as int) < m,
                        comp@[root as int] == Some(g),
                        forall|v: int| 0 <= v < root ==> (#[trigger] comp@[v]) is Some,
                        (g as int) == graphs@.len(),
                        assigned == assigned_count(comp@),
                        assigned <= m,
                        (u as int) < m,
                        comp@[u as int] == Some(g),
                        forall|v: int|
                            0 <= v < m && (#[trigger] comp@[v]) is Some ==> (comp@[v]->0 as int)
                                <= graphs@.len(),
                        forall|g2: int, v: usize|
                            0 <= g2 < graphs@.len() && (v as int) < m ==> ((
                            #[trigger] graphs@[g2].nodes@.contains(v)) <==> comp@[v as int] == Some(
                                g2 as usize,
                            )),
                        forall|v: usize|
                            (v as int) < m ==> ((#[trigger] cur_nodes@.contains(v)) <==> comp@[v
                                as int] == Some(g)),
                        forall|t: int|
                            0 <= t < cur_nodes@.len() ==> ((#[trigger] cur_nodes@[t]) as int) < m,
                        cur_nodes@.no_duplicates(),
                        cur_nodes@.len() > 0,
                        forall|t: int|
                            0 <= t < stack@.len() ==> ((#[trigger] stack@[t]) as int) < m
                                && comp@[stack@[t] as int] == Some(g),
                        stack@.no_duplicates(),
                        !stack@.contains(u),
                        assigned_at_pop <= assigned,
                        stack@.len() <= stack_after_pop.len() + (assigned - assigned_at_pop),
                        cur_nodes@[0] == root,
                        forall|v: int|
                            0 <= v < m && (#[trigger] comp@[v]) is Some && (comp@[v]->0 as int) < g
                                ==> reachable(
                                conns@,
                                graphs@[comp@[v]->0 as int].nodes@[0],
                                v as usize,
                            ),
                        forall|v: int|
                            0 <= v < m && #[trigger] comp@[v] == Some(g) ==> reachable(
                                conns@,
                                root,
                                v as usize,
                            ),
                        forall|v: usize|
                            (v as int) < m && (#[trigger] comp@[v as int]) is Some && v != u
                                && !stack@.contains(v) ==> edge_closed_at(conns@, comp@, v),
                        forall|cj: int|
                            0 <= cj < ci ==> {
                                let cn = #[trigger] conns@[cj];
                                &&& (cn.a == u ==> comp@[cn.b as int] == comp@[u as int])
                                &&& (cn.b == u ==> comp@[cn.a as int] == comp@[u as int])
                            },
                    decreases conns@.len() - ci,
                {
                    let cn_a: usize = conns[ci].a;
                    let cn_b: usize = conns[ci].b;
                    let mut w: usize = 0;
                    let mut touches: bool = false;
                    if cn_a == u {
                        w = cn_b;
                        touches = true;
                    } else if cn_b == u {
                        w = cn_a;
                        touches = true;
                    }
                    if touches {
                        if comp[w].is_none() {
                            let ghost comp_before = comp@;
                            comp.set(w, Some(g));
                            proof {
                                lemma_assigned_count_update(comp_before, w as int, g);
                                lemma_assigned_count_le(comp@);
                            }
                            assigned = assigned + 1;
                            let ghost nodes_pre_push = cur_nodes@;
                            cur_nodes.push(w);
                            let ghost stack_pre_push = stack@;
                            stack.push(w);
                            proof {
                                assert(comp@[w as int] == Some(g));
                                assert(comp_before[w as int] is None);
                                assert(comp_before[u as int] == Some(g));
                                assert(w != u);
                                assert(step(conns@, u, w)) by {
                                    assert(((conns@[ci as int].a == u && conns@[ci as int].b == w)
                                        || (conns@[ci as int].a == w && conns@[ci as int].b == u)));
                                }
                                assert(reachable(conns@, root, u as usize));
                                lemma_reach_step(conns@, root, u, w);
                                assert(stack@.drop_last() =~= stack_pre_push);
                                assert(cur_nodes@.drop_last() =~= nodes_pre_push);
                                assert(stack@.last() == w);
                                assert(cur_nodes@.last() == w);
                                if stack_pre_push.contains(w) {
                                    let t = choose|t: int|
                                        0 <= t < stack_pre_push.len() && stack_pre_push[t] == w;
                                    assert(comp_before[stack_pre_push[t] as int] == Some(g));
                                    assert(false);
                                }
                                assert forall|t1: int, t2: int|
                                    0 <= t1 < stack@.len() && 0 <= t2 < stack@.len() && t1
                                        != t2 implies stack@[t1] != stack@[t2] by {
                                    let last = stack@.len() - 1;
                                    if t1 < last && t2 < last {
                                        assert(stack@[t1] == stack_pre_push[t1]);
                                        assert(stack@[t2] == stack_pre_push[t2]);
                                    } else if t1 == last {
                                        assert(stack@[t2] == stack_pre_push[t2]);
                                        assert(stack_pre_push.contains(stack_pre_push[t2]));
                                    } else {
                                        assert(stack@[t1] == stack_pre_push[t1]);
                                        assert(stack_pre_push.contains(stack_pre_push[t1]));
                                    }
                                }
                                assert(stack@.no_duplicates());
                                if stack@.contains(u) {
                                    let t = choose|t: int| 0 <= t < stack@.len() && stack@[t] == u;
                                    if t == stack@.len() - 1 {
                                        assert(stack@[t] == w);
                                    } else {
                                        assert(stack_pre_push[t] == u);
                                    }
                                    assert(false);
                                }
                                assert forall|v: usize|
                                    (v as int) < m implies ((#[trigger] cur_nodes@.contains(v))
                                    <==> comp@[v as int] == Some(g)) by {
                                    if v == w {
                                        assert(cur_nodes@[cur_nodes@.len() - 1] == w);
                                    } else {
                                        assert(comp@[v as int] == comp_before[v as int]);
                                        if cur_nodes@.contains(v) {
                                            let t = choose|t: int|
                                                0 <= t < cur_nodes@.len() && cur_nodes@[t] == v;
                                            if t == cur_nodes@.len() - 1 {
                                                assert(cur_nodes@[t] == w);
                                            } else {
                                                assert(nodes_pre_push[t] == v);
                                                assert(nodes_pre_push.contains(v));
                                            }
                                        }
                                        if comp@[v as int] == Some(g) {
                                            assert(nodes_pre_push.contains(v));
                                            let t = choose|t: int|
                                                0 <= t < nodes_pre_push.len() && nodes_pre_push[t]
                                                    == v;
                                            assert(cur_nodes@[t] == v);
                                            assert(cur_nodes@.contains(v));
                                        }
                                    }
                                }
                                assert forall|t1: int, t2: int|
                                    0 <= t1 < cur_nodes@.len() && 0 <= t2 < cur_nodes@.len() && t1
                                        != t2 implies cur_nodes@[t1] != cur_nodes@[t2] by {
                                    let last = cur_nodes@.len() - 1;
                                    let prev_nodes = nodes_pre_push;
                                    if t1 < last && t2 < last {
                                        assert(cur_nodes@[t1] == prev_nodes[t1]);
                                        assert(cur_nodes@[t2] == prev_nodes[t2]);
                                    } else if t1 == last {
                                        assert(cur_nodes@[t2] == prev_nodes[t2]);
                                        assert(nodes_pre_push.contains(prev_nodes[t2]));
                                        assert((cur_nodes@[t2] as int) < m);
                                        assert(comp_before[prev_nodes[t2] as int] == Some(g));
                                    } else {
                                        assert(cur_nodes@[t1] == prev_nodes[t1]);
                                        assert(nodes_pre_push.contains(prev_nodes[t1]));
                                        assert((cur_nodes@[t1] as int) < m);
                                        assert(comp_before[prev_nodes[t1] as int] == Some(g));
                                    }
                                }
                                assert(cur_nodes@.no_duplicates());
                                assert forall|v: usize|
                                    (v as int) < m && (#[trigger] comp@[v as int]) is Some && v != u
                                        && !stack@.contains(v) implies edge_closed_at(
                                    conns@,
                                    comp@,
                                    v,
                                ) by {
                                    assert(stack@[stack@.len() - 1] == w);
                                    assert(v != w);
                                    if stack_pre_push.contains(v) {
                                        let t = choose|t: int|
                                            0 <= t < stack_pre_push.len() && stack_pre_push[t]
                                                == v;
                                        assert(stack@[t] == v);
                                        assert(false);
                                    }
                                    assert(edge_closed_at(conns@, comp_before, v));
                                    assert forall|cj: int| 0 <= cj < conns@.len() implies {
                                        let cn = #[trigger] conns@[cj];
                                        &&& (cn.a == v ==> comp@[cn.b as int] == comp@[v as int])
                                        &&& (cn.b == v ==> comp@[cn.a as int] == comp@[v as int])
                                    } by {
                                        let cn = conns@[cj];
                                        assert(comp_before[v as int] == comp@[v as int]);
                                        if cn.a == v {
                                            assert(comp_before[cn.b as int] == comp_before[v
                                                as int]);
                                            assert(cn.b != w);
                                        }
                                        if cn.b == v {
                                            assert(comp_before[cn.a as int] == comp_before[v
                                                as int]);
                                            assert(cn.a != w);
                                        }
                                    }
                                }
                            }
                        } else {
                            proof {
                                if !stack@.contains(w) {
                                    assert(edge_closed_at(conns@, comp@, w));
                                    assert(comp@[u as int] == comp@[w as int]);
                                } else {
                                    assert(comp@[w as int] == Some(g));
                                }
                            }
                        }
                    }
                    ci = ci + 1;
                }
            }
            let ghost cur = cur_nodes@;
            let edges: Vec<usize> = Vec::new();
            graphs.push(EventGraph { nodes: cur_nodes, edges });
            proof {
                assert(graphs@.len() == g + 1);
                assert(graphs@[g as int].nodes@ == cur);
                assert(graphs@[g as int].nodes@[0] == root);
                assert forall|v: int|
                    0 <= v < m && (#[trigger] comp@[v]) is Some implies reachable(
                    conns@,
                    graphs@[comp@[v]->0 as int].nodes@[0],
                    v as usize,
                ) by {
                    if (comp@[v]->0 as int) < g {
                        assert(graphs@[comp@[v]->0 as int] == graphs@.drop_last()[comp@[v]->0 as int]);
                    } else {
                        assert(comp@[v] == Some(g));
                    }
                }
                assert forall|g2: int, v: usize|
                    0 <= g2 < graphs@.len() && (v as int) < m implies ((
                #[trigger] graphs@[g2].nodes@.contains(v)) <==> comp@[v as int] == Some(
                    g2 as usize,
                )) by {
                    if g2 < g {
                        assert(graphs@[g2] == graphs@.drop_last()[g2]);
                    } else {
                        assert(graphs@[g2].nodes@ == cur);
                    }
                }
            }
        }
        root = root + 1;
    }
    let ghost comp_final = comp@;
    let mut ci: usize = 0;
    while ci < conns.len()
        invariant
            ci <= conns@.len(),
            comp@ == comp_final,
            comp@.len() == m,
            forall|v: int| 0 <= v < m ==> (#[trigger] comp@[v]) is Some,
            forall|v: int|
                0 <= v < m && (#[trigger] comp@[v]) is Some ==> (comp@[v]->0 as int)
                    < graphs@.len(),
            forall|v: usize|
                (v as int) < m && (#[trigger] comp@[v as int]) is Some ==> edge_closed_at(
                    conns@,
                    comp@,
                    v,
                ),
            forall|g2: int, v: usize|
                0 <= g2 < graphs@.len() && (v as int) < m ==> ((#[trigger] graphs@[g2].nodes@.contains(
                    v,
                )) <==> comp@[v as int] == Some(g2 as usize)),
            forall|g2: int|
                0 <= g2 < graphs@.len() ==> (#[trigger] graphs@[g2]).nodes@.len() > 0
                    && graphs@[g2].nodes@.no_duplicates() && graphs@[g2].edges@.no_duplicates(),
            forall|g2: int, t: int|
                0 <= g2 < graphs@.len() && 0 <= t < (#[trigger] graphs@[g2]).nodes@.len() ==> ((
                #[trigger] graphs@[g2].nodes@[t]) as int) < m,
            forall|g2: int, t: int|
                0 <= g2 < graphs@.len() && 0 <= t < graphs@[g2].edges@.len() ==> {
                    let cj = #[trigger] graphs@[g2].edges@[t];
                    &&& (cj as int) < ci
                    &&& comp@[conns@[cj as int].a as int] == Some(g2 as usize)
                },
            forall|cj: usize|
                (cj as int) < ci ==> (#[trigger] graphs@[(comp@[conns@[cj as int].a as int]->0)
                    as int].edges@.contains(cj)),
            forall|v: int|
                0 <= v < m && (#[trigger] comp@[v]) is Some ==> reachable(
                    conns@,
                    graphs@[comp@[v]->0 as int].nodes@[0],
                    v as usize,
                ),
        decreases conns@.len() - ci,
    {
        let a: usize = conns[ci].a;
        let gi: usize = comp[a].unwrap();
        let ghost graphs_before = graphs@;
        let mut eg = graphs.remove(gi);
        eg.edges.push(ci);
        let ghost eg_new = eg;
        graphs.insert(gi, eg);
        proof {
            assert(graphs@ =~= graphs_before.update(gi as int, eg_new));
            assert(eg_new.nodes@ == graphs_before[gi as int].nodes@);
            assert forall|v: int|
                0 <= v < m && (#[trigger] comp@[v]) is Some implies reachable(
                conns@,
                graphs@[comp@[v]->0 as int].nodes@[0],
                v as usize,
            ) by {
                let gv = comp@[v]->0 as int;
                if gv == gi {
                    assert(graphs@[gv].nodes@ == graphs_before[gv].nodes@);
                } else {
                    assert(graphs@[gv] == graphs_before[gv]);
                }
            }
            assert(eg_new.edges@.drop_last() =~= graphs_before[gi as int].edges@);
            assert(eg_new.edges@.last() == ci);
            assert forall|t1: int, t2: int|
                0 <= t1 < eg_new.edges@.len() && 0 <= t2 < eg_new.edges@.len() && t1
                    != t2 implies eg_new.edges@[t1] != eg_new.edges@[t2] by {
                let last = eg_new.edges@.len() - 1;
                if t1 < last && t2 < last {
                    assert(eg_new.edges@[t1] == graphs_before[gi as int].edges@[t1]);
                    assert(eg_new.edges@[t2] == graphs_before[gi as int].edges@[t2]);
                } else if t1 == last {
                    assert(eg_new.edges@[t2] == graphs_before[gi as int].edges@[t2]);
                    assert((eg_new.edges@[t2] as int) < ci);
                } else {
                    assert(eg_new.edges@[t1] == graphs_before[gi as int].edges@[t1]);
                    assert((eg_new.edges@[t1] as int) < ci);
                }
            }
            assert forall|cj: usize| (cj as int) < ci + 1 implies (#[trigger] graphs@[(comp@[conns@[
                cj as int].a as int]->0) as int].edges@.contains(cj)) by {
                let gj = (comp@[conns@[cj as int].a as int]->0) as int;
                if (cj as int) < ci {
                    assert(graphs_before[gj].edges@.contains(cj));
                    let t = choose|t: int|
                        0 <= t < graphs_before[gj].edges@.len() && graphs_before[gj].edges@[t]
                            == cj;
                    if gj == gi {
                        assert(eg_new.edges@[t] == cj);
                    } else {
                        assert(graphs@[gj] == graphs_before[gj]);
                    }
                } else {
                    assert(cj == ci);
                    assert(gj == gi);
                    assert(eg_new.edges@[eg_new.edges@.len() - 1] == ci);
                }
            }
        }
        ci = ci + 1;
    }
    let graphs_len: usize = graphs.len();
    proof {
        assert(graphs@.len() == graphs_len);
        assert forall|v: usize| (v as int) < m implies in_some_graph(graphs@, v) by {
            let gv = (comp@[v as int]->0) as int;
            assert(comp@[v as int] == Some(gv as usize));
            assert(graphs@[gv].nodes@.contains(v));
        }
        assert forall|ci2: usize| (ci2 as int) < conns@.len() implies edge_in_some_graph(
            graphs@,
            ci2,
        ) by {
            let gj = (comp@[conns@[ci2 as int].a as int]->0) as int;
            assert(graphs@[gj].edges@.contains(ci2));
        }
        assert forall|g: int, t: int|
            0 <= g < graphs@.len() && 0 <= t < graphs@[g].edges@.len() implies {
            let ci2 = #[trigger] graphs@[g].edges@[t];
            &&& (ci2 as int) < conns@.len()
            &&& graphs@[g].nodes@.contains(conns@[ci2 as int].a)
            &&& graphs@[g].nodes@.contains(conns@[ci2 as int].b)
        } by {
            let ci2 = graphs@[g].edges@[t];
            let cn = conns@[ci2 as int];
            assert(comp@[cn.a as int] == Some(g as usize));
            assert(edge_closed_at(conns@, comp@, cn.a));
            assert(comp@[cn.b as int] == comp@[cn.a as int]);
            assert(graphs@[g].nodes@.contains(cn.a));
            assert(graphs@[g].nodes@.contains(cn.b));
        }
        assert forall|g: int, t: int|
            0 <= g < graphs@.len() && 0 <= t < graphs@[g].nodes@.len() implies reachable(
            conns@,
            graphs@[g].nodes@[0],
            #[trigger] graphs@[g].nodes@[t],
        ) by {
            let x = graphs@[g].nodes@[t];
            assert(graphs@[g].nodes@.contains(x));
            assert(comp@[x as int] == Some(g as usize));
        }
        assert forall|g1: int, g2: int, ci2: usize|
            0 <= g1 < graphs@.len() && 0 <= g2 < graphs@.len() && g1 != g2
                && #[trigger] graphs@[g1].edges@.contains(ci2) implies !(
        #[trigger] graphs@[g2].edges@.contains(ci2)) by {
            if graphs@[g2].edges@.contains(ci2) {
                let t1 = choose|t1: int|
                    0 <= t1 < graphs@[g1].edges@.len() && graphs@[g1].edges@[t1] == ci2;
                let t2 = choose|t2: int|
                    0 <= t2 < graphs@[g2].edges@.len() && graphs@[g2].edges@[t2] == ci2;
                assert(comp@[conns@[ci2 as int].a as int] == Some(g1 as usize));
                assert(comp@[conns@[ci2 as int].a as int] == Some(g2 as usize));
                assert(false);
            }
        }
    }
    graphs
}

} // verus!
