//! Cluster connection: for every read whose split alignments land in two
//! different clusters, an edge between those clusters accumulates that
//! read into its support set; externally supplied breakpoint pairs are
//! injected as additional edges when both endpoints resolve to a
//! cluster's consensus coordinate, and are dropped otherwise.
//!
//! Edges are normalized (`a < b`) and deduplicated: several reads
//! supporting the same cluster pair strengthen one connection.

use vstd::prelude::*;

use crate::containers::Cluster;
use crate::containers::Connection;
use crate::containers::Coordinate;
use crate::containers::SplitReadSegment;
use crate::containers::phases_compatible;
use crate::containers::phases_compatible_exec;

verus! {

/// Segment `p` is a member of cluster `c`.
pub open spec fn seg_in_cluster(clusters: Seq<Cluster>, c: usize, p: int) -> bool {
    (c as int) < clusters.len() && clusters[c as int].members@.contains(p as usize)
}

/// The ordered segment pair `(p, q)` links clusters `a < b`: both
/// segments belong to one read, are members of those clusters, and (in
/// phase-aware mode) carry compatible haplotype tags.
pub open spec fn pair_links(
    segs: Seq<SplitReadSegment>,
    clusters: Seq<Cluster>,
    p: int,
    q: int,
    a: usize,
    b: usize,
    phase_aware: bool,
) -> bool {
    &&& 0 <= p < segs.len()
    &&& 0 <= q < segs.len()
    &&& segs[p].read_id == segs[q].read_id
    &&& seg_in_cluster(clusters, a, p)
    &&& seg_in_cluster(clusters, b, q)
    &&& a < b
    &&& (phase_aware ==> phases_compatible(segs[p].phase, segs[q].phase))
}

/// Read `r` links clusters `a < b` through some segment pair.
pub open spec fn read_links(
    segs: Seq<SplitReadSegment>,
    clusters: Seq<Cluster>,
    r: u64,
    a: usize,
    b: usize,
    phase_aware: bool,
) -> bool {
    exists|p: int, q: int|
        #[trigger] pair_links(segs, clusters, p, q, a, b, phase_aware) && segs[p].read_id == r
}

/// Some read links clusters `a < b`.
pub open spec fn link_exists(
    segs: Seq<SplitReadSegment>,
    clusters: Seq<Cluster>,
    a: usize,
    b: usize,
    phase_aware: bool,
) -> bool {
    exists|p: int, q: int| #[trigger] pair_links(segs, clusters, p, q, a, b, phase_aware)
}

/// Read `r` links clusters `a < b` through a segment pair that comes
/// before the iteration point `(cp, cq)` in lexicographic order.
pub open spec fn read_links_before(
    segs: Seq<SplitReadSegment>,
    clusters: Seq<Cluster>,
    cp: int,
    cq: int,
    r: u64,
    a: usize,
    b: usize,
    phase_aware: bool,
) -> bool {
    exists|p: int, q: int|
        #[trigger] pair_links(segs, clusters, p, q, a, b, phase_aware) && segs[p].read_id == r && (p
            < cp || (p == cp && q < cq))
}

/// The first cluster whose consensus coordinate equals `co`, searching
/// from position `i`.
pub open spec fn resolve_spec(clusters: Seq<Cluster>, co: Coordinate, i: int) -> Option<usize>
    decreases clusters.len() - i,
{
    if i < 0 || i >= clusters.len() {
        None
    } else if clusters[i].coord == co {
        Some(i as usize)
    } else {
        resolve_spec(clusters, co, i + 1)
    }
}

/// An external breakpoint pair resolves onto the cluster pair `a < b`.
pub open spec fn ext_link(
    clusters: Seq<Cluster>,
    ext: Seq<(Coordinate, Coordinate)>,
    a: usize,
    b: usize,
) -> bool {
    exists|e: int|
        0 <= e < ext.len() && a < b && {
            let ra = resolve_spec(clusters, (#[trigger] ext[e]).0, 0);
            let rb = resolve_spec(clusters, ext[e].1, 0);
            (ra == Some(a) && rb == Some(b)) || (ra == Some(b) && rb == Some(a))
        }
}

/// A connection for the cluster pair `(a, b)` is present.
pub open spec fn has_pair(conns: Seq<Connection>, a: usize, b: usize) -> bool {
    exists|ci: int| 0 <= ci < conns.len() && (#[trigger] conns[ci]).a == a && conns[ci].b == b
}

/// Read `r` is recorded as supporting the cluster pair `(a, b)`.
pub open spec fn recorded(conns: Seq<Connection>, a: usize, b: usize, r: u64) -> bool {
    exists|ci: int|
        0 <= ci < conns.len() && (#[trigger] conns[ci]).a == a && conns[ci].b == b
            && conns[ci].reads@.contains(r)
}

/// The pair `(a, b)` is present and flagged as externally supplied.
pub open spec fn pair_external(conns: Seq<Connection>, a: usize, b: usize) -> bool {
    exists|ci: int|
        0 <= ci < conns.len() && (#[trigger] conns[ci]).a == a && conns[ci].b == b
            && conns[ci].external
}

/// Structural well-formedness of the connection list: normalized
/// endpoint indices below `m`, no duplicate support reads, no duplicate
/// pairs, and no empty connection (each has read support or is
/// external).
pub open spec fn conns_wf(conns: Seq<Connection>, m: int) -> bool {
    &&& forall|ci: int|
        0 <= ci < conns.len() ==> {
            let cn = #[trigger] conns[ci];
            &&& cn.a < cn.b
            &&& (cn.b as int) < m
            &&& cn.reads@.no_duplicates()
            &&& (cn.reads@.len() > 0 || cn.external)
        }
    &&& forall|ci: int, cj: int|
        0 <= ci < conns.len() && 0 <= cj < conns.len() && ci != cj ==> !((#[trigger] conns[ci]).a
            == (#[trigger] conns[cj]).a && conns[ci].b == conns[cj].b)
}

/// Adds read `r` to the support set of the connection `(a, b)`,
/// creating the connection when it is new; everything else is kept.
#[verifier::loop_isolation(false)]
fn record_read(conns: &mut Vec<Connection>, m: usize, a: usize, b: usize, r: u64)
    requires
        conns_wf(old(conns)@, m as int),
        a < b < m,
    ensures
        conns_wf(final(conns)@, m as int),
        forall|x: usize, y: usize|
            #[trigger] has_pair(final(conns)@, x, y) <==> has_pair(old(conns)@, x, y) || (x == a
                && y == b),
        forall|x: usize, y: usize, rr: u64|
            #[trigger] recorded(final(conns)@, x, y, rr) <==> recorded(old(conns)@, x, y, rr) || (x
                == a && y == b && rr == r),
        forall|x: usize, y: usize|
            #[trigger] pair_external(final(conns)@, x, y) <==> pair_external(old(conns)@, x, y),
{
    let ghost prev = conns@;
    let mut ci: usize = 0;
    while ci < conns.len()
        invariant
            ci <= conns@.len(),
            conns@ == prev,
            forall|cj: int| 0 <= cj < ci ==> !((#[trigger] conns@[cj]).a == a && conns@[cj].b == b),
        decreases conns@.len() - ci,
    {
        if conns[ci].a == a && conns[ci].b == b {
            let mut cn = conns.remove(ci);
            let mut seen: bool = false;
            let mut rj: usize = 0;
            while rj < cn.reads.len()
                invariant
                    rj <= cn.reads@.len(),
                    cn == prev[ci as int],
                    seen == exists|t: int| 0 <= t < rj && cn.reads@[t] == r,
                decreases cn.reads@.len() - rj,
            {
                if cn.reads[rj] == r {
                    seen = true;
                }
                rj = rj + 1;
            }
            if !seen {
                cn.reads.push(r);
            }
            proof {
                assert(prev[ci as int].reads@.no_duplicates());
                if !seen {
                    assert(!prev[ci as int].reads@.contains(r));
                    assert(cn.reads@.drop_last() =~= prev[ci as int].reads@);
                    assert(cn.reads@.last() == r);
                    assert forall|t1: int, t2: int|
                        0 <= t1 < cn.reads@.len() && 0 <= t2 < cn.reads@.len() && t1
                            != t2 implies cn.reads@[t1] != cn.reads@[t2] by {
                        let last = cn.reads@.len() - 1;
                        if t1 < last && t2 < last {
                            assert(cn.reads@[t1] == prev[ci as int].reads@[t1]);
                            assert(cn.reads@[t2] == prev[ci as int].reads@[t2]);
                        } else if t1 == last {
                            assert(cn.reads@[t2] == prev[ci as int].reads@[t2]);
                            if cn.reads@[t2] == r {
                                assert(prev[ci as int].reads@.contains(r));
                            }
                        } else {
                            assert(cn.reads@[t1] == prev[ci as int].reads@[t1]);
                            if cn.reads@[t1] == r {
                                assert(prev[ci as int].reads@.contains(r));
                            }
                        }
                    }
                    assert(cn.reads@.no_duplicates());
                    assert(cn.reads@.contains(r));
                } else {
                    assert(cn.reads@.contains(r));
                }
            }
            let ghost cn_final = cn;
            conns.insert(ci, cn);
            proof {
                assert(conns@ =~= prev.update(ci as int, cn_final));
                assert(cn_final.reads@.no_duplicates());
                assert(cn_final.a == a && cn_final.b == b);
                assert forall|x: usize, y: usize, rr: u64| #[trigger] recorded(
                    conns@,
                    x,
                    y,
                    rr,
                ) implies recorded(prev, x, y, rr) || (x == a && y == b && rr == r) by {
                    let cj = choose|cj: int|
                        0 <= cj < conns@.len() && (#[trigger] conns@[cj]).a == x && conns@[cj].b
                            == y && conns@[cj].reads@.contains(rr);
                    if cj != ci {
                        assert(conns@[cj] == prev[cj]);
                    } else {
                        if rr != r || x != a || y != b {
                            let t = choose|t: int|
                                0 <= t < cn_final.reads@.len() && cn_final.reads@[t] == rr;
                            assert(prev[ci as int].reads@.contains(rr));
                        }
                    }
                }
                assert forall|x: usize, y: usize, rr: u64|
                    recorded(prev, x, y, rr) || (x == a && y == b && rr == r) implies #[trigger] recorded(
                    conns@,
                    x,
                    y,
                    rr,
                ) by {
                    if x == a && y == b {
                        if rr == r {
                            assert(cn_final.reads@.contains(r));
                            assert(conns@[ci as int].reads@.contains(r));
                        } else {
                            if recorded(prev, x, y, rr) {
                                let cj = choose|cj: int|
                                    0 <= cj < prev.len() && (#[trigger] prev[cj]).a == x
                                        && prev[cj].b == y && prev[cj].reads@.contains(rr);
                                assert(cj == ci);
                                let t = choose|t: int|
                                    0 <= t < prev[ci as int].reads@.len()
                                        && prev[ci as int].reads@[t] == rr;
                                assert(cn_final.reads@[t] == rr);
                                assert(conns@[ci as int].reads@.contains(rr));
                            }
                        }
                    } else {
                        if recorded(prev, x, y, rr) {
                            let cj = choose|cj: int|
                                0 <= cj < prev.len() && (#[trigger] prev[cj]).a == x && prev[cj].b
                                    == y && prev[cj].reads@.contains(rr);
                            assert(cj != ci);
                            assert(conns@[cj] == prev[cj]);
                        }
                    }
                }
                assert forall|x: usize, y: usize| #[trigger] has_pair(conns@, x, y) implies
                    has_pair(prev, x, y) || (x == a && y == b) by {
                    let cj = choose|cj: int|
                        0 <= cj < conns@.len() && (#[trigger] conns@[cj]).a == x && conns@[cj].b
                            == y;
                    if cj != ci {
                        assert(conns@[cj] == prev[cj]);
                    }
                }
                assert forall|x: usize, y: usize|
                    has_pair(prev, x, y) || (x == a && y == b) implies #[trigger] has_pair(
                    conns@,
                    x,
                    y,
                ) by {
                    if x == a && y == b {
                        assert(conns@[ci as int].a == a && conns@[ci as int].b == b);
                    } else {
                        let cj = choose|cj: int|
                            0 <= cj < prev.len() && (#[trigger] prev[cj]).a == x && prev[cj].b
                                == y;
                        assert(cj != ci);
                        assert(conns@[cj] == prev[cj]);
                    }
                }
                assert forall|x: usize, y: usize| #[trigger] pair_external(conns@, x, y)
                    <==> pair_external(prev, x, y) by {
                    if pair_external(conns@, x, y) {
                        let cj = choose|cj: int|
                            0 <= cj < conns@.len() && (#[trigger] conns@[cj]).a == x && conns@[cj].b
                                == y && conns@[cj].external;
                        if cj == ci {
                            assert(prev[ci as int].external);
                        } else {
                            assert(conns@[cj] == prev[cj]);
                        }
                    }
                    if pair_external(prev, x, y) {
                        let cj = choose|cj: int|
                            0 <= cj < prev.len() && (#[trigger] prev[cj]).a == x && prev[cj].b == y
                                && prev[cj].external;
                        if cj == ci {
                            assert(conns@[ci as int].external);
                        } else {
                            assert(conns@[cj] == prev[cj]);
                        }
                    }
                }
            }
            return ;
        }
        ci = ci + 1;
    }
    let mut reads: Vec<u64> = Vec::new();
    reads.push(r);
    let cn = Connection { a, b, reads, external: false };
    conns.push(cn);
    proof {
        assert(conns@.drop_last() =~= prev);
        assert forall|x: usize, y: usize, rr: u64| #[trigger] recorded(conns@, x, y, rr) implies
            recorded(prev, x, y, rr) || (x == a && y == b && rr == r) by {
            let cj = choose|cj: int|
                0 <= cj < conns@.len() && (#[trigger] conns@[cj]).a == x && conns@[cj].b == y
                    && conns@[cj].reads@.contains(rr);
            if cj < prev.len() {
                assert(conns@[cj] == prev[cj]);
            } else {
                assert(conns@[cj].reads@ == seq![r]);
                assert(conns@[cj].reads@[0] == r);
            }
        }
        assert(conns@[conns@.len() - 1].reads@[0] == r);
        assert(recorded(conns@, a, b, r));
        assert forall|x: usize, y: usize, rr: u64|
            recorded(prev, x, y, rr) implies #[trigger] recorded(conns@, x, y, rr) by {
            let cj = choose|cj: int|
                0 <= cj < prev.len() && (#[trigger] prev[cj]).a == x && prev[cj].b == y
                    && prev[cj].reads@.contains(rr);
            assert(conns@[cj] == prev[cj]);
        }
        assert forall|x: usize, y: usize| #[trigger] has_pair(conns@, x, y) implies has_pair(
            prev,
            x,
            y,
        ) || (x == a && y == b) by {
            let cj = choose|cj: int|
                0 <= cj < conns@.len() && (#[trigger] conns@[cj]).a == x && conns@[cj].b == y;
            if cj < prev.len() {
                assert(conns@[cj] == prev[cj]);
            }
        }
        assert forall|x: usize, y: usize|
            has_pair(prev, x, y) || (x == a && y == b) implies #[trigger] has_pair(
            conns@,
            x,
            y,
        ) by {
            if x == a && y == b {
                assert(conns@[conns@.len() - 1].a == a);
            } else {
                let cj = choose|cj: int|
                    0 <= cj < prev.len() && (#[trigger] prev[cj]).a == x && prev[cj].b == y;
                assert(conns@[cj] == prev[cj]);
            }
        }
        assert forall|x: usize, y: usize| #[trigger] pair_external(conns@, x, y) <==> pair_external(
            prev,
            x,
            y,
        ) by {
            if pair_external(conns@, x, y) {
                let cj = choose|cj: int|
                    0 <= cj < conns@.len() && (#[trigger] conns@[cj]).a == x && conns@[cj].b == y
                        && conns@[cj].external;
                assert(cj < prev.len());
                assert(conns@[cj] == prev[cj]);
            }
            if pair_external(prev, x, y) {
                let cj = choose|cj: int|
                    0 <= cj < prev.len() && (#[trigger] prev[cj]).a == x && prev[cj].b == y
                        && prev[cj].external;
                assert(conns@[cj] == prev[cj]);
            }
        }
    }
}

/// Flags the connection `(a, b)` as externally supplied, creating it
/// (with empty read support) when it is new; everything else is kept.
#[verifier::loop_isolation(false)]
fn mark_external(conns: &mut Vec<Connection>, m: usize, a: usize, b: usize)
    requires
        conns_wf(old(conns)@, m as int),
        a < b < m,
    ensures
        conns_wf(final(conns)@, m as int),
        forall|x: usize, y: usize|
            #[trigger] has_pair(final(conns)@, x, y) <==> has_pair(old(conns)@, x, y) || (x == a
                && y == b),
        forall|x: usize, y: usize, rr: u64|
            #[trigger] recorded(final(conns)@, x, y, rr) <==> recorded(old(conns)@, x, y, rr),
        forall|x: usize, y: usize|
            #[trigger] pair_external(final(conns)@, x, y) <==> pair_external(old(conns)@, x, y) || (
            x == a && y == b),
{
    let ghost prev = conns@;
    let mut ci: usize = 0;
    while ci < conns.len()
        invariant
            ci <= conns@.len(),
            conns@ == prev,
            forall|cj: int| 0 <= cj < ci ==> !((#[trigger] conns@[cj]).a == a && conns@[cj].b == b),
        decreases conns@.len() - ci,
    {
        if conns[ci].a == a && conns[ci].b == b {
            let mut cn = conns.remove(ci);
            cn.external = true;
            let ghost cn_final = cn;
            conns.insert(ci, cn);
            proof {
                assert(conns@ =~= prev.update(ci as int, cn_final));
                assert(cn_final.reads@ == prev[ci as int].reads@);
                assert forall|x: usize, y: usize, rr: u64| #[trigger] recorded(conns@, x, y, rr)
                    <==> recorded(prev, x, y, rr) by {
                    if recorded(conns@, x, y, rr) {
                        let cj = choose|cj: int|
                            0 <= cj < conns@.len() && (#[trigger] conns@[cj]).a == x && conns@[cj].b
                                == y && conns@[cj].reads@.contains(rr);
                        if cj != ci {
                            assert(conns@[cj] == prev[cj]);
                        } else {
                            assert(prev[ci as int].reads@.contains(rr));
                        }
                    }
                    if recorded(prev, x, y, rr) {
                        let cj = choose|cj: int|
                            0 <= cj < prev.len() && (#[trigger] prev[cj]).a == x && prev[cj].b == y
                                && prev[cj].reads@.contains(rr);
                        if cj != ci {
                            assert(conns@[cj] == prev[cj]);
                        } else {
                            assert(conns@[ci as int].reads@.contains(rr));
                        }
                    }
                }
                assert forall|x: usize, y: usize| #[trigger] has_pair(conns@, x, y) <==> has_pair(
                    prev,
                    x,
                    y,
                ) || (x == a && y == b) by {
                    if has_pair(conns@, x, y) {
                        let cj = choose|cj: int|
                            0 <= cj < conns@.len() && (#[trigger] conns@[cj]).a == x && conns@[cj].b
                                == y;
                        if cj != ci {
                            assert(conns@[cj] == prev[cj]);
                        }
                    }
                    if has_pair(prev, x, y) {
                        let cj = choose|cj: int|
                            0 <= cj < prev.len() && (#[trigger] prev[cj]).a == x && prev[cj].b == y;
                        if cj != ci {
                            assert(conns@[cj] == prev[cj]);
                        } else {
                            assert(conns@[ci as int].a == x && conns@[ci as int].b == y);
                        }
                    }
                }
                assert forall|x: usize, y: usize| #[trigger] pair_external(conns@, x, y)
                    <==> pair_external(prev, x, y) || (x == a && y == b) by {
                    if pair_external(conns@, x, y) {
                        let cj = choose|cj: int|
                            0 <= cj < conns@.len() && (#[trigger] conns@[cj]).a == x && conns@[cj].b
                                == y && conns@[cj].external;
                        if cj != ci {
                            assert(conns@[cj] == prev[cj]);
                        }
                    }
                    if pair_external(prev, x, y) {
                        let cj = choose|cj: int|
                            0 <= cj < prev.len() && (#[trigger] prev[cj]).a == x && prev[cj].b == y
                                && prev[cj].external;
                        if cj != ci {
                            assert(conns@[cj] == prev[cj]);
                        } else {
                            assert(conns@[ci as int].external);
                        }
                    }
                    if x == a && y == b {
                        assert(conns@[ci as int].external);
                    }
                }
            }
            return ;
        }
        ci = ci + 1;
    }
    let reads: Vec<u64> = Vec::new();
    let cn = Connection { a, b, reads, external: true };
    conns.push(cn);
    proof {
        assert(conns@.drop_last() =~= prev);
        assert forall|x: usize, y: usize, rr: u64| #[trigger] recorded(conns@, x, y, rr)
            <==> recorded(prev, x, y, rr) by {
            if recorded(conns@, x, y, rr) {
                let cj = choose|cj: int|
                    0 <= cj < conns@.len() && (#[trigger] conns@[cj]).a == x && conns@[cj].b == y
                        && conns@[cj].reads@.contains(rr);
                assert(cj < prev.len());
                assert(conns@[cj] == prev[cj]);
            }
            if recorded(prev, x, y, rr) {
                let cj = choose|cj: int|
                    0 <= cj < prev.len() && (#[trigger] prev[cj]).a == x && prev[cj].b == y
                        && prev[cj].reads@.contains(rr);
                assert(conns@[cj] == prev[cj]);
            }
        }
        assert forall|x: usize, y: usize| #[trigger] has_pair(conns@, x, y) <==> has_pair(
            prev,
            x,
            y,
        ) || (x == a && y == b) by {
            if has_pair(conns@, x, y) {
                let cj = choose|cj: int|
                    0 <= cj < conns@.len() && (#[trigger] conns@[cj]).a == x && conns@[cj].b == y;
                if cj < prev.len() {
                    assert(conns@[cj] == prev[cj]);
                }
            }
            if has_pair(prev, x, y) {
                let cj = choose|cj: int|
                    0 <= cj < prev.len() && (#[trigger] prev[cj]).a == x && prev[cj].b == y;
                assert(conns@[cj] == prev[cj]);
            }
            if x == a && y == b {
                assert(conns@[conns@.len() - 1].a == a);
            }
        }
        assert forall|x: usize, y: usize| #[trigger] pair_external(conns@, x, y) <==> pair_external(
            prev,
            x,
            y,
        ) || (x == a && y == b) by {
            if pair_external(conns@, x, y) {
                let cj = choose|cj: int|
                    0 <= cj < conns@.len() && (#[trigger] conns@[cj]).a == x && conns@[cj].b == y
                        && conns@[cj].external;
                if cj < prev.len() {
                    assert(conns@[cj] == prev[cj]);
                }
            }
            if pair_external(prev, x, y) {
                let cj = choose|cj: int|
                    0 <= cj < prev.len() && (#[trigger] prev[cj]).a == x && prev[cj].b == y
                        && prev[cj].external;
                assert(conns@[cj] == prev[cj]);
            }
            if x == a && y == b {
                assert(conns@[conns@.len() - 1].external);
            }
        }
    }
}

/// Maps each segment index to the cluster that holds it (`None` for a
/// dropped segment). Requires the clusters to be pairwise disjoint, as
/// the clusterer guarantees.
#[verifier::loop_isolation(false)]
pub fn cluster_assignment(n: usize, clusters: &Vec<Cluster>) -> (asg: Vec<Option<usize>>)
    requires
        forall|c: int, k: int|
            0 <= c < clusters@.len() && 0 <= k < (#[trigger] clusters@[c]).members@.len() ==> (
            #[trigger] clusters@[c].members@[k]) < n,
        forall|c1: int, c2: int, x: usize|
            0 <= c1 < clusters@.len() && 0 <= c2 < clusters@.len() && c1 != c2
                && #[trigger] clusters@[c1].members@.contains(x) ==> !(#[trigger] clusters@[c2].members@.contains(
                x,
            )),
    ensures
        asg@.len() == n,
        forall|i: int, c: usize|
            0 <= i < n && (c as int) < clusters@.len() ==> (#[trigger] clusters@[c as int].members@.contains(
                i as usize,
            ) <==> asg@[i] == Some(c)),
        forall|i: int|
            0 <= i < n && (#[trigger] asg@[i]) is Some ==> ((asg@[i]->0 as int) < clusters@.len()
                && clusters@[asg@[i]->0 as int].members@.contains(i as usize)),
{
    let mut asg: Vec<Option<usize>> = Vec::new();
    let mut i: usize = 0;
    while i < n
        invariant
            i <= n,
            asg@.len() == i,
            forall|j: int| 0 <= j < i ==> (#[trigger] asg@[j]) is None,
        decreases n - i,
    {
        asg.push(None);
        i = i + 1;
    }
    let mut c: usize = 0;
    while c < clusters.len()
        invariant
            c <= clusters@.len(),
            asg@.len() == n,
            forall|i2: int|
                0 <= i2 < n && (#[trigger] asg@[i2]) is Some ==> ((asg@[i2]->0 as int)
                    < clusters@.len() && clusters@[asg@[i2]->0 as int].members@.contains(
                    i2 as usize,
                )),
            forall|c2: int, k2: int|
                0 <= c2 < c && 0 <= k2 < clusters@[c2].members@.len() ==> asg@[(
                #[trigger] clusters@[c2].members@[k2]) as int] == Some(c2 as usize),
        decreases clusters@.len() - c,
    {
        let mut k: usize = 0;
        while k < clusters[c].members.len()
            invariant
                c < clusters@.len(),
                k <= clusters@[c as int].members@.len(),
                asg@.len() == n,
                forall|i2: int|
                    0 <= i2 < n && (#[trigger] asg@[i2]) is Some ==> ((asg@[i2]->0 as int)
                        < clusters@.len() && clusters@[asg@[i2]->0 as int].members@.contains(
                        i2 as usize,
                    )),
                forall|c2: int, k2: int|
                    0 <= c2 < c && 0 <= k2 < clusters@[c2].members@.len() ==> asg@[(
                    #[trigger] clusters@[c2].members@[k2]) as int] == Some(c2 as usize),
                forall|k2: int|
                    0 <= k2 < k ==> asg@[(#[trigger] clusters@[c as int].members@[k2]) as int]
                        == Some(c),
            decreases clusters@[c as int].members@.len() - k,
        {
            let idx: usize = clusters[c].members[k];
            let ghost prev_asg = asg@;
            asg.set(idx, Some(c));
            proof {
                assert(clusters@[c as int].members@[k as int] == idx);
                assert(clusters@[c as int].members@.contains(idx));
                assert forall|i2: int| 0 <= i2 < n && (#[trigger] asg@[i2]) is Some implies ((
                asg@[i2]->0 as int) < clusters@.len()
                    && clusters@[asg@[i2]->0 as int].members@.contains(i2 as usize)) by {
                    if i2 == idx as int {
                        assert(asg@[i2] == Some(c));
                        assert(i2 as usize == idx);
                    } else {
                        assert(asg@[i2] == prev_asg[i2]);
                    }
                }
                assert forall|c2: int, k2: int|
                    0 <= c2 < c && 0 <= k2 < clusters@[c2].members@.len() implies asg@[(
                #[trigger] clusters@[c2].members@[k2]) as int] == Some(c2 as usize) by {
                    if clusters@[c2].members@[k2] == idx {
                        assert(clusters@[c2].members@.contains(idx));
                        assert(false);
                    } else {
                        assert(asg@[clusters@[c2].members@[k2] as int] == prev_asg[clusters@[c2].members@[k2] as int]);
                    }
                }
            }
            k = k + 1;
        }
        c = c + 1;
    }
    proof {
        assert forall|i2: int, c2: usize|
            0 <= i2 < n && (c2 as int) < clusters@.len() implies (
        #[trigger] clusters@[c2 as int].members@.contains(i2 as usize) <==> asg@[i2] == Some(
            c2,
        )) by {
            if clusters@[c2 as int].members@.contains(i2 as usize) {
                let k2 = choose|k2: int|
                    0 <= k2 < clusters@[c2 as int].members@.len() && clusters@[c2 as int].members@[k2]
                        == i2 as usize;
                assert(asg@[(clusters@[c2 as int].members@[k2]) as int] == Some(c2));
            }
            if asg@[i2] == Some(c2) {
                assert(asg@[i2] is Some);
                assert(clusters@[asg@[i2]->0 as int].members@.contains(i2 as usize));
            }
        }
    }
    asg
}

/// Finds the first cluster whose consensus coordinate equals `co`.
#[verifier::loop_isolation(false)]
pub fn resolve_coord(clusters: &Vec<Cluster>, co: &Coordinate) -> (r: Option<usize>)
    ensures
        r == resolve_spec(clusters@, *co, 0),
{
    let mut i: usize = 0;
    while i < clusters.len()
        invariant
            i <= clusters@.len(),
            resolve_spec(clusters@, *co, 0) == resolve_spec(clusters@, *co, i as int),
        decreases clusters@.len() - i,
    {
        if clusters[i].coord.chrom == co.chrom && clusters[i].coord.pos == co.pos
            && clusters[i].coord.fwd == co.fwd {
            proof {
                assert(clusters@[i as int].coord == *co);
            }
            return Some(i);
        }
        i = i + 1;
    }
    None
}

/// Some read links clusters `a < b` through a segment pair before the
/// iteration point `(cp, cq)`.
pub open spec fn link_exists_before(
    segs: Seq<SplitReadSegment>,
    clusters: Seq<Cluster>,
    cp: int,
    cq: int,
    a: usize,
    b: usize,
    phase_aware: bool,
) -> bool {
    exists|p: int, q: int|
        #[trigger] pair_links(segs, clusters, p, q, a, b, phase_aware) && (p < cp || (p == cp && q
            < cq))
}

/// A resolved coordinate names an existing cluster.
pub proof fn lemma_resolve_bound(clusters: Seq<Cluster>, co: Coordinate, i: int, v: usize)
    requires
        resolve_spec(clusters, co, i) == Some(v),
    ensures
        (v as int) < clusters.len(),
    decreases clusters.len() - i,
{
    if i < 0 || i >= clusters.len() {
        assert(false);
    } else if clusters[i].coord == co {
    } else {
        lemma_resolve_bound(clusters, co, i + 1, v);
    }
}

/// Builds the full connection edge set: one normalized, deduplicated
/// edge for every cluster pair linked by a read (phase-consistently, in
/// phase-aware mode), with the exact set of supporting reads, plus every
/// external breakpoint pair whose endpoints both resolve to cluster
/// consensus coordinates (unresolvable external pairs are dropped).
#[verifier::loop_isolation(false)]
#[verifier::rlimit(100)]
pub fn connect_clusters(
    segs: &Vec<SplitReadSegment>,
    clusters: &Vec<Cluster>,
    ext: &Vec<(Coordinate, Coordinate)>,
    phase_aware: bool,
) -> (conns: Vec<Connection>)
    requires
        forall|c: int, k: int|
            0 <= c < clusters@.len() && 0 <= k < (#[trigger] clusters@[c]).members@.len() ==> (
            #[trigger] clusters@[c].members@[k]) < segs@.len(),
        forall|c1: int, c2: int, x: usize|
            0 <= c1 < clusters@.len() && 0 <= c2 < clusters@.len() && c1 != c2
                && #[trigger] clusters@[c1].members@.contains(x) ==> !(#[trigger] clusters@[c2].members@.contains(
                x,
            )),
    ensures
        conns_wf(conns@, clusters@.len() as int),
        forall|ci: int, ri: int|
            0 <= ci < conns@.len() && 0 <= ri < (#[trigger] conns@[ci]).reads@.len() ==> read_links(
                segs@,
                clusters@,
                #[trigger] conns@[ci].reads@[ri],
                conns@[ci].a,
                conns@[ci].b,
                phase_aware,
            ),
        forall|ci: int, r: u64|
            0 <= ci < conns@.len() && #[trigger] read_links(
                segs@,
                clusters@,
                r,
                conns@[ci].a,
                conns@[ci].b,
                phase_aware,
            ) ==> conns@[ci].reads@.contains(r),
        forall|a: usize, b: usize|
            #[trigger] has_pair(conns@, a, b) <==> (link_exists(segs@, clusters@, a, b, phase_aware)
                || ext_link(clusters@, ext@, a, b)),
        forall|a: usize, b: usize|
            #[trigger] pair_external(conns@, a, b) <==> ext_link(clusters@, ext@, a, b),
{
    let m: usize = clusters.len();
    let n: usize = segs.len();
    let asg = cluster_assignment(n, clusters);
    let mut conns: Vec<Connection> = Vec::new();
    let mut p: usize = 0;
    while p < n
        invariant
            p <= n,
            conns_wf(conns@, m as int),
            forall|a: usize, b: usize|
                #[trigger] has_pair(conns@, a, b) <==> link_exists_before(
                    segs@,
                    clusters@,
                    p as int,
                    0,
                    a,
                    b,
                    phase_aware,
                ),
            forall|a: usize, b: usize, r: u64|
                #[trigger] recorded(conns@, a, b, r) <==> read_links_before(
                    segs@,
                    clusters@,
                    p as int,
                    0,
                    r,
                    a,
                    b,
                    phase_aware,
                ),
            forall|a: usize, b: usize| !#[trigger] pair_external(conns@, a, b),
        decreases n - p,
    {
        let mut q: usize = 0;
        while q < n
            invariant
                q <= n,
                p < n,
                conns_wf(conns@, m as int),
                forall|a: usize, b: usize|
                    #[trigger] has_pair(conns@, a, b) <==> link_exists_before(
                        segs@,
                        clusters@,
                        p as int,
                        q as int,
                        a,
                        b,
                        phase_aware,
                    ),
                forall|a: usize, b: usize, r: u64|
                    #[trigger] recorded(conns@, a, b, r) <==> read_links_before(
                        segs@,
                        clusters@,
                        p as int,
                        q as int,
                        r,
                        a,
                        b,
                        phase_aware,
                    ),
                forall|a: usize, b: usize| !#[trigger] pair_external(conns@, a, b),
            decreases n - q,
        {
            let sp: SplitReadSegment = segs[p];
            let sq: SplitReadSegment = segs[q];
            let mut linked: bool = false;
            let mut la: usize = 0;
            let mut lb: usize = 0;
            if sp.read_id == sq.read_id {
                let oa: Option<usize> = asg[p];
                let ob: Option<usize> = asg[q];
                if let Some(a) = oa {
                    if let Some(b) = ob {
                        if a < b {
                            let ph: bool = if phase_aware {
                                phases_compatible_exec(&sp.phase, &sq.phase)
                            } else {
                                true
                            };
                            if ph {
                                linked = true;
                                la = a;
                                lb = b;
                            }
                        }
                    }
                }
            }
            let ghost prev = conns@;
            if linked {
                proof {
                    assert(asg@[p as int] is Some);
                    assert(asg@[q as int] is Some);
                    assert(clusters@[la as int].members@.contains(p as usize));
                    assert(clusters@[lb as int].members@.contains(q as usize));
                    assert(pair_links(segs@, clusters@, p as int, q as int, la, lb, phase_aware));
                }
                record_read(&mut conns, m, la, lb, sp.read_id);
            }
            proof {
                assert forall|a: usize, b: usize| #[trigger] has_pair(conns@, a, b)
                    <==> link_exists_before(
                    segs@,
                    clusters@,
                    p as int,
                    q + 1,
                    a,
                    b,
                    phase_aware,
                ) by {
                    if has_pair(conns@, a, b) {
                        if has_pair(prev, a, b) {
                            let (p2, q2) = choose|p2: int, q2: int|
                                #[trigger] pair_links(segs@, clusters@, p2, q2, a, b, phase_aware)
                                    && (p2 < p || (p2 == p && q2 < q));
                            assert(link_exists_before(
                                segs@,
                                clusters@,
                                p as int,
                                q + 1,
                                a,
                                b,
                                phase_aware,
                            ));
                        } else {
                            assert(linked && a == la && b == lb);
                            assert(pair_links(segs@, clusters@, p as int, q as int, a, b, phase_aware));
                        }
                    }
                    if link_exists_before(segs@, clusters@, p as int, q + 1, a, b, phase_aware) {
                        let (p2, q2) = choose|p2: int, q2: int|
                            #[trigger] pair_links(segs@, clusters@, p2, q2, a, b, phase_aware) && (
                            p2 < p || (p2 == p && q2 < q + 1));
                        if p2 < p || (p2 == p && q2 < q) {
                            assert(has_pair(prev, a, b));
                        } else {
                            assert(p2 == p && q2 == q);
                            assert(pair_links(segs@, clusters@, p as int, q as int, a, b, phase_aware));
                            assert(asg@[p as int] == Some(a));
                            assert(asg@[q as int] == Some(b));
                            assert(linked && la == a && lb == b);
                        }
                    }
                }
                assert forall|a: usize, b: usize, r: u64| #[trigger] recorded(conns@, a, b, r)
                    <==> read_links_before(
                    segs@,
                    clusters@,
                    p as int,
                    q + 1,
                    r,
                    a,
                    b,
                    phase_aware,
                ) by {
                    if recorded(conns@, a, b, r) {
                        if recorded(prev, a, b, r) {
                            let (p2, q2) = choose|p2: int, q2: int|
                                #[trigger] pair_links(segs@, clusters@, p2, q2, a, b, phase_aware)
                                    && segs@[p2].read_id == r && (p2 < p || (p2 == p && q2 < q));
                            assert(read_links_before(
                                segs@,
                                clusters@,
                                p as int,
                                q + 1,
                                r,
                                a,
                                b,
                                phase_aware,
                            ));
                        } else {
                            assert(linked && a == la && b == lb && r == sp.read_id);
                            assert(pair_links(segs@, clusters@, p as int, q as int, a, b, phase_aware));
                        }
                    }
                    if read_links_before(segs@, clusters@, p as int, q + 1, r, a, b, phase_aware) {
                        let (p2, q2) = choose|p2: int, q2: int|
                            #[trigger] pair_links(segs@, clusters@, p2, q2, a, b, phase_aware)
                                && segs@[p2].read_id == r && (p2 < p || (p2 == p && q2 < q + 1));
                        if p2 < p || (p2 == p && q2 < q) {
                            assert(recorded(prev, a, b, r));
                        } else {
                            assert(p2 == p && q2 == q);
                            assert(pair_links(segs@, clusters@, p as int, q as int, a, b, phase_aware));
                            assert(asg@[p as int] == Some(a));
                            assert(asg@[q as int] == Some(b));
                            assert(linked && la == a && lb == b && r == sp.read_id);
                        }
                    }
                }
            }
            q = q + 1;
        }
        proof {
            assert forall|a: usize, b: usize|
                link_exists_before(segs@, clusters@, p as int, n as int, a, b, phase_aware)
                    <==> link_exists_before(
                segs@,
                clusters@,
                p + 1,
                0,
                a,
                b,
                phase_aware,
            ) by {
                if link_exists_before(segs@, clusters@, p as int, n as int, a, b, phase_aware) {
                    let (p2, q2) = choose|p2: int, q2: int|
                        #[trigger] pair_links(segs@, clusters@, p2, q2, a, b, phase_aware) && (p2
                            < p || (p2 == p && q2 < n));
                    assert(pair_links(segs@, clusters@, p2, q2, a, b, phase_aware) && p2 < p + 1);
                }
                if link_exists_before(segs@, clusters@, p + 1, 0, a, b, phase_aware) {
                    let (p2, q2) = choose|p2: int, q2: int|
                        #[trigger] pair_links(segs@, clusters@, p2, q2, a, b, phase_aware) && (p2 < p
                            + 1);
                    assert(q2 < segs@.len());
                    assert(pair_links(segs@, clusters@, p2, q2, a, b, phase_aware) && (p2 < p || (p2
                        == p && q2 < n)));
                }
            }
            assert forall|a: usize, b: usize, r: u64|
                read_links_before(segs@, clusters@, p as int, n as int, r, a, b, phase_aware)
                    <==> read_links_before(
                segs@,
                clusters@,
                p + 1,
                0,
                r,
                a,
                b,
                phase_aware,
            ) by {
                if read_links_before(segs@, clusters@, p as int, n as int, r, a, b, phase_aware) {
                    let (p2, q2) = choose|p2: int, q2: int|
                        #[trigger] pair_links(segs@, clusters@, p2, q2, a, b, phase_aware)
                            && segs@[p2].read_id == r && (p2 < p || (p2 == p && q2 < n));
                    assert(pair_links(segs@, clusters@, p2, q2, a, b, phase_aware) && p2 < p + 1);
                }
                if read_links_before(segs@, clusters@, p + 1, 0, r, a, b, phase_aware) {
                    let (p2, q2) = choose|p2: int, q2: int|
                        #[trigger] pair_links(segs@, clusters@, p2, q2, a, b, phase_aware)
                            && segs@[p2].read_id == r && (p2 < p + 1);
                    assert(q2 < segs@.len());
                    assert(pair_links(segs@, clusters@, p2, q2, a, b, phase_aware) && (p2 < p || (p2
                        == p && q2 < n)));
                }
            }
        }
        p = p + 1;
    }
    proof {
        assert forall|a: usize, b: usize|
            #[trigger] has_pair(conns@, a, b) <==> link_exists(
                segs@,
                clusters@,
                a,
                b,
                phase_aware,
            ) by {
            if has_pair(conns@, a, b) {
                let (p2, q2) = choose|p2: int, q2: int|
                    #[trigger] pair_links(segs@, clusters@, p2, q2, a, b, phase_aware) && (p2 < n
                        || (p2 == n && q2 < 0));
                assert(pair_links(segs@, clusters@, p2, q2, a, b, phase_aware));
            }
            if link_exists(segs@, clusters@, a, b, phase_aware) {
                let (p2, q2) = choose|p2: int, q2: int| #[trigger] pair_links(
                    segs@,
                    clusters@,
                    p2,
                    q2,
                    a,
                    b,
                    phase_aware,
                );
                assert(p2 < n);
                assert(link_exists_before(segs@, clusters@, n as int, 0, a, b, phase_aware));
            }
        }
        assert forall|a: usize, b: usize, r: u64|
            #[trigger] recorded(conns@, a, b, r) <==> read_links(
                segs@,
                clusters@,
                r,
                a,
                b,
                phase_aware,
            ) by {
            if recorded(conns@, a, b, r) {
                let (p2, q2) = choose|p2: int, q2: int|
                    #[trigger] pair_links(segs@, clusters@, p2, q2, a, b, phase_aware)
                        && segs@[p2].read_id == r && (p2 < n || (p2 == n && q2 < 0));
                assert(pair_links(segs@, clusters@, p2, q2, a, b, phase_aware));
            }
            if read_links(segs@, clusters@, r, a, b, phase_aware) {
                let (p2, q2) = choose|p2: int, q2: int|
                    #[trigger] pair_links(segs@, clusters@, p2, q2, a, b, phase_aware)
                        && segs@[p2].read_id == r;
                assert(p2 < n);
                assert(read_links_before(segs@, clusters@, n as int, 0, r, a, b, phase_aware));
            }
        }
    }
    let ghost read_conns = conns@;
    let mut e: usize = 0;
    while e < ext.len()
        invariant
            e <= ext@.len(),
            conns_wf(conns@, m as int),
            forall|a: usize, b: usize|
                #[trigger] has_pair(conns@, a, b) <==> (link_exists(
                    segs@,
                    clusters@,
                    a,
                    b,
                    phase_aware,
                ) || ext_link(clusters@, ext@.take(e as int), a, b)),
            forall|a: usize, b: usize, r: u64|
                #[trigger] recorded(conns@, a, b, r) <==> read_links(
                    segs@,
                    clusters@,
                    r,
                    a,
                    b,
                    phase_aware,
                ),
            forall|a: usize, b: usize|
                #[trigger] pair_external(conns@, a, b) <==> ext_link(
                    clusters@,
                    ext@.take(e as int),
                    a,
                    b,
                ),
        decreases ext@.len() - e,
    {
        let co1: Coordinate = ext[e].0;
        let co2: Coordinate = ext[e].1;
        let ra: Option<usize> = resolve_coord(clusters, &co1);
        let rb: Option<usize> = resolve_coord(clusters, &co2);
        let ghost prev = conns@;
        let mut added: bool = false;
        let mut xa: usize = 0;
        let mut xb: usize = 0;
        if let Some(va) = ra {
            if let Some(vb) = rb {
                if va < vb {
                    xa = va;
                    xb = vb;
                    added = true;
                } else if vb < va {
                    xa = vb;
                    xb = va;
                    added = true;
                }
            }
        }
        if added {
            proof {
                lemma_resolve_bound(clusters@, co1, 0, (if ra == Some(xa) { xa } else { xb }));
                lemma_resolve_bound(clusters@, co2, 0, (if rb == Some(xb) { xb } else { xa }));
            }
            mark_external(&mut conns, m, xa, xb);
        }
        proof {
            assert(ext@.take(e + 1).drop_last() =~= ext@.take(e as int));
            assert(ext@.take(e + 1)[e as int] == ext@[e as int]);
            assert forall|a: usize, b: usize|
                ext_link(clusters@, ext@.take(e + 1), a, b) <==> (ext_link(
                    clusters@,
                    ext@.take(e as int),
                    a,
                    b,
                ) || (added && a == xa && b == xb)) by {
                if ext_link(clusters@, ext@.take(e + 1), a, b) {
                    let e2 = choose|e2: int|
                        0 <= e2 < ext@.take(e + 1).len() && a < b && {
                            let ra2 = resolve_spec(clusters@, (#[trigger] ext@.take(e + 1)[e2]).0, 0);
                            let rb2 = resolve_spec(clusters@, ext@.take(e + 1)[e2].1, 0);
                            (ra2 == Some(a) && rb2 == Some(b)) || (ra2 == Some(b) && rb2 == Some(a))
                        };
                    if e2 < e {
                        assert(ext@.take(e as int)[e2] == ext@.take(e + 1)[e2]);
                        assert(ext_link(clusters@, ext@.take(e as int), a, b));
                    } else {
                        assert(ext@.take(e + 1)[e2] == ext@[e as int]);
                        assert(added && a == xa && b == xb);
                    }
                }
                if ext_link(clusters@, ext@.take(e as int), a, b) {
                    let e2 = choose|e2: int|
                        0 <= e2 < ext@.take(e as int).len() && a < b && {
                            let ra2 = resolve_spec(
                                clusters@,
                                (#[trigger] ext@.take(e as int)[e2]).0,
                                0,
                            );
                            let rb2 = resolve_spec(clusters@, ext@.take(e as int)[e2].1, 0);
                            (ra2 == Some(a) && rb2 == Some(b)) || (ra2 == Some(b) && rb2 == Some(a))
                        };
                    assert(ext@.take(e + 1)[e2] == ext@.take(e as int)[e2]);
                    assert(ext_link(clusters@, ext@.take(e + 1), a, b));
                }
                if added && a == xa && b == xb {
                    assert(ext@.take(e + 1)[e as int] == ext@[e as int]);
                    assert(ext_link(clusters@, ext@.take(e + 1), a, b));
                }
            }
        }
        e = e + 1;
    }
    proof {
        assert(ext@.take(ext@.len() as int) =~= ext@);
        assert forall|ci: int, ri: int|
            0 <= ci < conns@.len() && 0 <= ri < (#[trigger] conns@[ci]).reads@.len() implies read_links(
            segs@,
            clusters@,
            #[trigger] conns@[ci].reads@[ri],
            conns@[ci].a,
            conns@[ci].b,
            phase_aware,
        ) by {
            assert(conns@[ci].reads@.contains(conns@[ci].reads@[ri]));
            assert(recorded(conns@, conns@[ci].a, conns@[ci].b, conns@[ci].reads@[ri]));
        }
        assert forall|ci: int, r: u64|
            0 <= ci < conns@.len() && #[trigger] read_links(
                segs@,
                clusters@,
                r,
                conns@[ci].a,
                conns@[ci].b,
                phase_aware,
            ) implies conns@[ci].reads@.contains(r) by {
            assert(recorded(conns@, conns@[ci].a, conns@[ci].b, r));
            let cj = choose|cj: int|
                0 <= cj < conns@.len() && (#[trigger] conns@[cj]).a == conns@[ci].a && conns@[cj].b
                    == conns@[ci].b && conns@[cj].reads@.contains(r);
            assert(cj == ci);
        }
    }
    conns
}

} // verus!
