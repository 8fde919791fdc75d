//! Depth-based filtering of annotated event graphs: a graph whose
//! involved genomic intervals show ambient sequencing depth above the
//! configured maximum is dropped whole (likely a mapping artifact, not a
//! true variant). The filter is bypassed when a target region is set or
//! filtering is disabled. Also provides the deterministic final ordering
//! of the call collection.

use vstd::prelude::*;

use crate::containers::AnnotatedGraph;
use crate::containers::ComplexSVCalls;
use crate::containers::coord_le;
use crate::containers::coord_le_exec;

verus! {

broadcast use vstd::seq_lib::group_to_multiset_ensures;

/// The graphs that survive the depth filter: those whose maximum
/// observed depth does not exceed `max_coverage`, in order.
pub open spec fn filtered_calls(
    graphs: Seq<AnnotatedGraph>,
    depths: Seq<u64>,
    max_coverage: u64,
) -> Seq<AnnotatedGraph>
    decreases graphs.len(),
{
    if graphs.len() == 0 {
        Seq::empty()
    } else {
        let rest = filtered_calls(graphs.drop_last(), depths.drop_last(), max_coverage);
        if depths.last() <= max_coverage {
            rest.push(graphs.last())
        } else {
            rest
        }
    }
}

/// Filter monotonicity: the filter never increases the number of
/// reported event graphs.
pub proof fn lemma_filter_monotone(graphs: Seq<AnnotatedGraph>, depths: Seq<u64>, max_coverage: u64)
    ensures
        filtered_calls(graphs, depths, max_coverage).len() <= graphs.len(),
    decreases graphs.len(),
{
    if graphs.len() > 0 {
        lemma_filter_monotone(graphs.drop_last(), depths.drop_last(), max_coverage);
    }
}

/// The maximum of a vector of depth values (zero when empty).
#[verifier::loop_isolation(false)]
pub fn max_depth(depths: &Vec<u64>) -> (r: u64)
    ensures
        depths@.len() == 0 ==> r == 0,
        depths@.len() > 0 ==> depths@.contains(r),
        forall|i: int| 0 <= i < depths@.len() ==> #[trigger] depths@[i] <= r,
{
    let mut r: u64 = 0;
    let mut i: usize = 0;
    while i < depths.len()
        invariant
            i <= depths@.len(),
            i == 0 ==> r == 0,
            i > 0 ==> depths@.take(i as int).contains(r),
            forall|j: int| 0 <= j < i ==> #[trigger] depths@[j] <= r,
        decreases depths@.len() - i,
    {
        if depths[i] > r {
            r = depths[i];
            proof {
                assert(depths@.take((i + 1) as int)[i as int] == r);
            }
        } else {
            proof {
                if i > 0 {
                    let t = choose|t: int| 0 <= t < i && depths@.take(i as int)[t] == r;
                    assert(depths@.take((i + 1) as int)[t] == r);
                } else {
                    assert(depths@.take(1int)[0] == depths@[0]);
                    assert(depths@[0] <= r && r == 0);
                }
            }
        }
        i = i + 1;
    }
    proof {
        assert(depths@.take(depths@.len() as int) =~= depths@);
    }
    r
}

/// Drops every graph whose depth (aligned by index) exceeds
/// `max_coverage`; keeps the rest in order.
#[verifier::loop_isolation(false)]
pub fn apply_filters(calls: ComplexSVCalls, depths: &Vec<u64>, max_coverage: u64) -> (r:
    ComplexSVCalls)
    requires
        depths@.len() == calls.event_graphs@.len(),
    ensures
        r.event_graphs@ == filtered_calls(calls.event_graphs@, depths@, max_coverage),
{
    let ghost all = calls.event_graphs@;
    let total: usize = depths.len();
    let mut rest = calls.event_graphs;
    let mut kept: Vec<AnnotatedGraph> = Vec::new();
    let mut i: usize = 0;
    while rest.len() > 0
        invariant
            all.len() == total,
            (i as int) + rest@.len() == all.len(),
            rest@ == all.skip(i as int),
            depths@.len() == all.len(),
            kept@ == filtered_calls(all.take(i as int), depths@.take(i as int), max_coverage),
        decreases rest@.len(),
    {
        let g = rest.remove(0);
        proof {
            assert(g == all[i as int]);
            assert(rest@ =~= all.skip(i as int + 1));
            assert(all.take(i as int + 1).drop_last() =~= all.take(i as int));
            assert(depths@.take(i as int + 1).drop_last() =~= depths@.take(i as int));
            assert(all.take(i as int + 1).last() == all[i as int]);
            assert(depths@.take(i as int + 1).last() == depths@[i as int]);
        }
        if depths[i] <= max_coverage {
            kept.push(g);
        }
        i = i + 1;
    }
    proof {
        assert(all.take(all.len() as int) =~= all);
        assert(depths@.take(all.len() as int) =~= depths@);
    }
    ComplexSVCalls { event_graphs: kept }
}

/// The depth filter with its pass-through configuration: a run scoped to
/// a target region, or one with filtering disabled, returns the calls
/// unchanged.
pub fn run_block_filter(
    calls: ComplexSVCalls,
    depths: &Vec<u64>,
    max_coverage: u64,
    nofilter: bool,
    targeted: bool,
) -> (r: ComplexSVCalls)
    requires
        !(nofilter || targeted) ==> depths@.len() == calls.event_graphs@.len(),
    ensures
        (nofilter || targeted) ==> r == calls,
        !(nofilter || targeted) ==> r.event_graphs@ == filtered_calls(
            calls.event_graphs@,
            depths@,
            max_coverage,
        ),
{
    if nofilter || targeted {
        calls
    } else {
        apply_filters(calls, depths, max_coverage)
    }
}

/// Sort key order for the final output: the coordinate of each graph's
/// first node.
pub open spec fn graph_le(a: AnnotatedGraph, b: AnnotatedGraph) -> bool {
    coord_le(a.nodes@[0].coord, b.nodes@[0].coord)
}

/// Sorts the call collection for deterministic output ordering.
#[verifier::loop_isolation(false)]
pub fn sort_calls(calls: ComplexSVCalls) -> (r: ComplexSVCalls)
    requires
        forall|gi: int|
            0 <= gi < calls.event_graphs@.len() ==> (#[trigger] calls.event_graphs@[gi]).nodes@.len()
                > 0,
    ensures
        r.event_graphs@.to_multiset() == calls.event_graphs@.to_multiset(),
        forall|i: int, j: int|
            0 <= i <= j < r.event_graphs@.len() ==> graph_le(
                r.event_graphs@[i],
                r.event_graphs@[j],
            ),
{
    let ghost all = calls.event_graphs@;
    let mut rest = calls.event_graphs;
    let mut out: Vec<AnnotatedGraph> = Vec::new();
    while rest.len() > 0
        invariant
            rest@.len() <= all.len(),
            rest@ == all.skip(all.len() - rest@.len()),
            out@.to_multiset() == all.take(all.len() - rest@.len()).to_multiset(),
            forall|i: int| 0 <= i < out@.len() ==> (#[trigger] out@[i]).nodes@.len() > 0,
            forall|i: int, j: int|
                0 <= i <= j < out@.len() ==> graph_le(out@[i], out@[j]),
        decreases rest@.len(),
    {
        let ghost done = all.len() - rest@.len();
        let g = rest.remove(0);
        proof {
            assert(g == all[done]);
            assert(rest@ =~= all.skip(done + 1));
            assert(all.take(done + 1).drop_last() =~= all.take(done));
            assert(all.take(done + 1).last() == all[done]);
        }
        let gc = g.nodes[0].coord;
        let mut p: usize = 0;
        while p < out.len() && coord_le_exec(&out[p].nodes[0].coord, &gc)
            invariant
                p <= out@.len(),
                forall|i: int| 0 <= i < p ==> graph_le(#[trigger] out@[i], g),
            decreases out@.len() - p,
        {
            p = p + 1;
        }
        proof {
            if p < out@.len() {
                assert(graph_le(g, out@[p as int]));
                assert forall|j: int| p <= j < out@.len() implies graph_le(g, #[trigger] out@[j]) by {
                    assert(graph_le(out@[p as int], out@[j]));
                }
            }
        }
        let ghost prev = out@;
        out.insert(p, g);
        proof {
            assert(out@ == prev.subrange(0, p as int).push(g) + prev.subrange(
                p as int,
                prev.len() as int,
            ));
            assert forall|i: int, j: int| 0 <= i <= j < out@.len() implies graph_le(
                out@[i],
                out@[j],
            ) by {
                if i < p {
                    assert(out@[i] == prev[i]);
                } else if i == p {
                    assert(out@[i] == g);
                } else {
                    assert(out@[i] == prev[i - 1]);
                }
                if j < p {
                    assert(out@[j] == prev[j]);
                } else if j == p {
                    assert(out@[j] == g);
                } else {
                    assert(out@[j] == prev[j - 1]);
                }
            }
            assert forall|i: int| 0 <= i < out@.len() implies (#[trigger] out@[i]).nodes@.len()
                > 0 by {
                if i < p {
                    assert(out@[i] == prev[i]);
                } else if i > p {
                    assert(out@[i] == prev[i - 1]);
                }
            }
            assert(out@.to_multiset() == prev.to_multiset().insert(g));
            assert(all.take(done + 1) =~= all.take(done).push(g));
            assert(all.take(done + 1).to_multiset() == all.take(done).to_multiset().insert(g));
        }
    }
    proof {
        assert(all.take(all.len() as int) =~= all);
    }
    ComplexSVCalls { event_graphs: out }
}

} // verus!
