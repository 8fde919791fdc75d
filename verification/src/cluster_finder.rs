//! Breakpoint clustering: a single linear sweep over the clip
//! coordinates of all split-read segments, sorted by chromosome,
//! orientation, position and haplotype tag, opening a new cluster
//! whenever the next coordinate leaves the proximity window of the open
//! cluster's consensus or carries an incompatible haplotype tag.
//!
//! The consensus coordinate of a swept cluster is its first member's
//! clip coordinate (a fixed deterministic anchor). Clusters refer to
//! segments by index into the input vector, so the coverage guarantee is
//! an index-multiset statement: the members of all clusters, taken
//! together, are exactly the indices `0 .. segs.len()`.

use vstd::prelude::*;

use crate::containers::Cluster;
use crate::containers::PriorBreak;
use crate::containers::SplitReadSegment;
use crate::containers::coord_le;
use crate::containers::phases_compatible;
use crate::containers::phases_compatible_exec;
use crate::containers::seg_le;
use crate::containers::seg_le_exec;

verus! {

broadcast use vstd::seq_lib::group_to_multiset_ensures;

/// The sequence `0, 1, .., n-1` of segment indices.
pub open spec fn index_seq(n: nat) -> Seq<usize> {
    Seq::new(n, |i: int| i as usize)
}

/// All member indices of a cluster sequence, in cluster order.
pub open spec fn members_concat(cs: Seq<Cluster>) -> Seq<usize>
    decreases cs.len(),
{
    if cs.len() == 0 {
        Seq::empty()
    } else {
        members_concat(cs.drop_last()) + cs.last().members@
    }
}

pub proof fn lemma_members_concat_push(cs: Seq<Cluster>, c: Cluster)
    ensures
        members_concat(cs.push(c)) == members_concat(cs) + c.members@,
{
    assert(cs.push(c).drop_last() =~= cs);
    assert(cs.push(c).last() == c);
}

/// The clusters (with an extra index sequence, used for dropped
/// segments) cover each of the `n` input segments exactly once.
pub open spec fn covers_exactly(cs: Seq<Cluster>, extra: Seq<usize>, n: nat) -> bool {
    (members_concat(cs) + extra).to_multiset() == index_seq(n).to_multiset()
}

/// Spatial/orientation well-formedness of one cluster: members exist,
/// the consensus is the first member's clip coordinate, and every
/// member's clip coordinate shares the consensus chromosome and
/// orientation and lies within `window` bases downstream of it.
pub open spec fn cluster_wf(segs: Seq<SplitReadSegment>, c: Cluster, window: u64) -> bool {
    &&& c.members@.len() > 0
    &&& forall|k: int| 0 <= k < c.members@.len() ==> (#[trigger] c.members@[k]) < segs.len()
    &&& c.coord == segs[c.members@[0] as int].clip
    &&& forall|k: int| 0 <= k < c.members@.len() ==> {
        let s = segs[#[trigger] c.members@[k] as int];
        &&& s.clip.chrom == c.coord.chrom
        &&& s.clip.fwd == c.coord.fwd
        &&& c.coord.pos <= s.clip.pos <= c.coord.pos + window
    }
}

/// Haplotype well-formedness of one cluster: members are pairwise
/// phase-compatible, the cluster tag is carried by some member when
/// present, and when absent no member is tagged.
pub open spec fn cluster_phase_wf(segs: Seq<SplitReadSegment>, c: Cluster) -> bool {
    &&& forall|k1: int, k2: int|
        0 <= k1 < c.members@.len() && 0 <= k2 < c.members@.len() ==> phases_compatible(
            segs[#[trigger] c.members@[k1] as int].phase,
            segs[#[trigger] c.members@[k2] as int].phase,
        )
    &&& (c.phase is Some ==> exists|k: int|
        0 <= k < c.members@.len() && segs[#[trigger] c.members@[k] as int].phase == c.phase)
    &&& (c.phase is None ==> forall|k: int|
        0 <= k < c.members@.len() ==> segs[#[trigger] c.members@[k] as int].phase is None)
}

/// Two consecutive clusters on the same chromosome and orientation are
/// either more than `window` bases apart or (in phase-aware mode) carry
/// conflicting haplotype tags: the sweep never splits without cause.
pub open spec fn separated_at(a: Cluster, b: Cluster, window: u64, phase_aware: bool) -> bool {
    (a.coord.chrom == b.coord.chrom && a.coord.fwd == b.coord.fwd) ==> {
        ||| b.coord.pos > a.coord.pos + window
        ||| (phase_aware && a.phase is Some && b.phase is Some && a.phase != b.phase)
    }
}

pub open spec fn clusters_separated(cs: Seq<Cluster>, window: u64, phase_aware: bool) -> bool {
    forall|c: int|
        0 <= c && c + 1 < cs.len() ==> separated_at(#[trigger] cs[c], cs[c + 1], window, phase_aware)
}

pub open spec fn clusters_sorted(cs: Seq<Cluster>) -> bool {
    forall|c: int| 0 <= c && c + 1 < cs.len() ==> coord_le((#[trigger] cs[c]).coord, cs[c + 1].coord)
}

/// The flattened member list visits segments in sort-key order: each
/// cluster is a contiguous run of the sorted input.
pub open spec fn concat_sorted(segs: Seq<SplitReadSegment>, cs: Seq<Cluster>) -> bool {
    forall|p: int, q: int|
        0 <= p <= q < members_concat(cs).len() ==> seg_le(
            segs[#[trigger] members_concat(cs)[p] as int],
            segs[#[trigger] members_concat(cs)[q] as int],
        )
}

/// Everything the sweep guarantees of its output.
pub open spec fn sweep_post(
    segs: Seq<SplitReadSegment>,
    cs: Seq<Cluster>,
    window: u64,
    phase_aware: bool,
) -> bool {
    &&& covers_exactly(cs, Seq::empty(), segs.len())
    &&& forall|c: int| 0 <= c < cs.len() ==> cluster_wf(segs, #[trigger] cs[c], window)
    &&& (phase_aware ==> forall|c: int| 0 <= c < cs.len() ==> cluster_phase_wf(segs, #[trigger] cs[c]))
    &&& (!phase_aware ==> forall|c: int| 0 <= c < cs.len() ==> (#[trigger] cs[c]).phase is None)
    &&& clusters_separated(cs, window, phase_aware)
    &&& clusters_sorted(cs)
    &&& concat_sorted(segs, cs)
}

/// A stable insertion sort of the segment indices by `seg_le`, returning
/// a sorted permutation of `0 .. segs.len()`.
#[verifier::loop_isolation(false)]
pub fn sorted_order(segs: &Vec<SplitReadSegment>) -> (order: Vec<usize>)
    ensures
        order@.len() == segs@.len(),
        forall|i: int| 0 <= i < order@.len() ==> (#[trigger] order@[i]) < segs@.len(),
        forall|i: int, j: int|
            0 <= i <= j < order@.len() ==> seg_le(
                segs@[order@[i] as int],
                segs@[order@[j] as int],
            ),
        order@.to_multiset() == index_seq(segs@.len() as nat).to_multiset(),
{
    let n: usize = segs.len();
    let mut order: Vec<usize> = Vec::new();
    let mut idx: usize = 0;
    while idx < n
        invariant
            idx <= n,
            order@.len() == idx,
            forall|i: int| 0 <= i < order@.len() ==> (#[trigger] order@[i]) < n,
            forall|i: int, j: int|
                0 <= i <= j < order@.len() ==> seg_le(
                    segs@[order@[i] as int],
                    segs@[order@[j] as int],
                ),
            order@.to_multiset() == index_seq(idx as nat).to_multiset(),
        decreases n - idx,
    {
        let mut p: usize = 0;
        while p < order.len() && seg_le_exec(&segs[order[p]], &segs[idx])
            invariant
                p <= order@.len(),
                forall|i: int| 0 <= i < p ==> seg_le(segs@[order@[i] as int], segs@[idx as int]),
            decreases order@.len() - p,
        {
            p = p + 1;
        }
        proof {
            if p < order@.len() {
                assert(seg_le(segs@[idx as int], segs@[order@[p as int] as int]));
                assert forall|j: int| p <= j < order@.len() implies seg_le(
                    segs@[idx as int],
                    segs@[order@[j] as int],
                ) by {
                    assert(seg_le(segs@[order@[p as int] as int], segs@[order@[j] as int]));
                }
            }
        }
        let ghost prev = order@;
        order.insert(p, idx);
        proof {
            assert forall|i: int, j: int| 0 <= i <= j < order@.len() implies seg_le(
                segs@[order@[i] as int],
                segs@[order@[j] as int],
            ) by {
                assert(order@ == prev.subrange(0, p as int).push(idx) + prev.subrange(
                    p as int,
                    prev.len() as int,
                ));
                if i < p {
                    assert(order@[i] == prev[i]);
                } else if i == p {
                    assert(order@[i] == idx);
                } else {
                    assert(order@[i] == prev[i - 1]);
                }
                if j < p {
                    assert(order@[j] == prev[j]);
                } else if j == p {
                    assert(order@[j] == idx);
                } else {
                    assert(order@[j] == prev[j - 1]);
                }
            }
            assert(index_seq((idx + 1) as nat) =~= index_seq(idx as nat).push(idx));
            assert(index_seq(idx as nat).push(idx).to_multiset() == index_seq(
                idx as nat,
            ).to_multiset().insert(idx));
        }
        idx = idx + 1;
    }
    order
}

/// The breakpoint clusterer proper. Sweeps the segments in sort-key
/// order and opens a new cluster whenever the next clip coordinate
/// leaves the proximity `window` of the open cluster's consensus (its
/// first member's clip coordinate), changes chromosome or orientation,
/// or — in phase-aware mode — carries a haplotype tag conflicting with
/// the open cluster's tag. In unphased mode haplotype tags are ignored
/// and every cluster tag is `None`.
#[verifier::loop_isolation(false)]
#[verifier::rlimit(100)]
pub fn sweep_clusters(segs: &Vec<SplitReadSegment>, window: u64, phase_aware: bool) -> (clusters:
    Vec<Cluster>)
    ensures
        sweep_post(segs@, clusters@, window, phase_aware),
{
    let n: usize = segs.len();
    let mut done: Vec<Cluster> = Vec::new();
    if n == 0 {
        proof {
            assert(members_concat(done@) + Seq::<usize>::empty() =~= index_seq(0));
        }
        return done;
    }
    let order: Vec<usize> = sorted_order(segs);
    let first: usize = order[0];
    let s0: SplitReadSegment = segs[first];
    let mut open = Cluster {
        coord: s0.clip,
        phase: if phase_aware {
            s0.phase
        } else {
            None
        },
        members: vec![first],
    };
    proof {
        assert(open.members@ =~= order@.subrange(0, 1));
        assert(members_concat(done@) + open.members@ =~= order@.take(1));
    }
    let mut t: usize = 1;
    while t < n
        invariant
            1 <= t <= n,
            members_concat(done@) + open.members@ == order@.take(t as int),
            open.members@.len() >= 1,
            open.members@.len() <= t,
            open.members@ == order@.subrange(t - open.members@.len(), t as int),
            forall|c: int| 0 <= c < done@.len() ==> cluster_wf(segs@, #[trigger] done@[c], window),
            cluster_wf(segs@, open, window),
            (phase_aware ==> forall|c: int|
                0 <= c < done@.len() ==> cluster_phase_wf(segs@, #[trigger] done@[c])),
            (phase_aware ==> cluster_phase_wf(segs@, open)),
            (!phase_aware ==> forall|c: int|
                0 <= c < done@.len() ==> (#[trigger] done@[c]).phase is None),
            (!phase_aware ==> open.phase is None),
            clusters_separated(done@, window, phase_aware),
            clusters_sorted(done@),
            (done@.len() > 0 ==> separated_at(done@.last(), open, window, phase_aware)),
            (done@.len() > 0 ==> coord_le(done@.last().coord, open.coord)),
        decreases n - t,
    {
        let s_idx: usize = order[t];
        let s: SplitReadSegment = segs[s_idx];
        proof {
            assert(open.members@[0] == order@[t - open.members@.len()]);
            assert(seg_le(segs@[order@[t - open.members@.len()] as int], segs@[order@[t as int] as int]));
            assert(seg_le(segs@[open.members@[0] as int], s));
        }
        let same_side: bool = s.clip.chrom == open.coord.chrom && s.clip.fwd == open.coord.fwd;
        let mut joinable: bool = false;
        if same_side {
            proof {
                assert(open.coord.pos <= s.clip.pos);
            }
            if s.clip.pos - open.coord.pos <= window {
                joinable = true;
            }
        }
        if joinable && phase_aware {
            joinable = phases_compatible_exec(&open.phase, &s.phase);
        }
        let ghost prev_open = open;
        let ghost prev_done = done@;
        if joinable {
            open.members.push(s_idx);
            if phase_aware && open.phase.is_none() {
                open.phase = s.phase;
            }
            proof {
                assert(order@.take((t + 1) as int) =~= order@.take(t as int).push(s_idx));
                assert(members_concat(done@) + open.members@ =~= (members_concat(done@)
                    + prev_open.members@).push(s_idx));
                assert(open.members@ =~= order@.subrange(t + 1 - open.members@.len(), (t + 1) as int));
                assert(open.coord.pos <= s.clip.pos <= open.coord.pos + window);
                if phase_aware {
                    assert(phases_compatible(prev_open.phase, s.phase));
                    if prev_open.phase is Some {
                        let k0 = choose|k: int|
                            0 <= k < prev_open.members@.len() && segs@[prev_open.members@[k] as int].phase
                                == prev_open.phase;
                        assert forall|k: int| 0 <= k < prev_open.members@.len() implies phases_compatible(
                            segs@[#[trigger] prev_open.members@[k] as int].phase,
                            s.phase,
                        ) by {
                            assert(phases_compatible(
                                segs@[prev_open.members@[k] as int].phase,
                                segs@[prev_open.members@[k0] as int].phase,
                            ));
                        }
                        assert(segs@[open.members@[k0] as int].phase == open.phase);
                    } else {
                        assert(open.phase == s.phase);
                        if open.phase is Some {
                            assert(open.members@[open.members@.len() - 1] == s_idx);
                            assert(segs@[open.members@[open.members@.len() - 1] as int].phase
                                == open.phase);
                        }
                    }
                    assert(cluster_phase_wf(segs@, open));
                }
            }
        } else {
            done.push(open);
            open = Cluster {
                coord: s.clip,
                phase: if phase_aware {
                    s.phase
                } else {
                    None
                },
                members: vec![s_idx],
            };
            proof {
                lemma_members_concat_push(prev_done, prev_open);
                assert(order@.take((t + 1) as int) =~= order@.take(t as int).push(s_idx));
                assert(members_concat(done@) + open.members@ =~= order@.take(t as int).push(s_idx));
                assert(open.members@ =~= order@.subrange(t as int, (t + 1) as int));
                assert(coord_le(prev_open.coord, open.coord));
                assert(separated_at(prev_open, open, window, phase_aware));
                if phase_aware && open.phase is Some {
                    assert(segs@[open.members@[0] as int].phase == open.phase);
                }
            }
        }
        t = t + 1;
    }
    let ghost prev_done = done@;
    let ghost last_open = open;
    done.push(open);
    proof {
        lemma_members_concat_push(prev_done, last_open);
        assert(order@.take(n as int) =~= order@);
        assert(members_concat(done@) =~= order@);
        assert(members_concat(done@) + Seq::<usize>::empty() =~= order@);
        assert(covers_exactly(done@, Seq::empty(), segs@.len()));
        assert(concat_sorted(segs@, done@));
    }
    done
}

/// Number of distinct read identifiers among the member segments: a
/// cluster's supporting-read count.
pub open spec fn distinct_read_count(segs: Seq<SplitReadSegment>, members: Seq<usize>) -> nat
    decreases members.len(),
{
    if members.len() == 0 {
        0
    } else {
        let rest = members.drop_last();
        distinct_read_count(segs, rest) + if exists|j: int|
            0 <= j < rest.len() && segs[rest[j] as int].read_id == segs[members.last() as int].read_id {
            0nat
        } else {
            1nat
        }
    }
}

/// Counts the distinct read identifiers among a cluster's members.
#[verifier::loop_isolation(false)]
pub fn count_distinct_reads(segs: &Vec<SplitReadSegment>, members: &Vec<usize>) -> (r: usize)
    requires
        forall|k: int| 0 <= k < members@.len() ==> (#[trigger] members@[k]) < segs@.len(),
    ensures
        r == distinct_read_count(segs@, members@),
{
    let mut count: usize = 0;
    let mut k: usize = 0;
    while k < members.len()
        invariant
            k <= members@.len(),
            count <= k,
            count == distinct_read_count(segs@, members@.take(k as int)),
        decreases members@.len() - k,
    {
        let rid: u64 = segs[members[k]].read_id;
        let mut seen: bool = false;
        let mut j: usize = 0;
        while j < k
            invariant
                j <= k,
                seen == exists|i: int| 0 <= i < j && segs@[#[trigger] members@[i] as int].read_id == rid,
            decreases k - j,
        {
            if segs[members[j]].read_id == rid {
                seen = true;
            }
            j = j + 1;
        }
        if !seen {
            count = count + 1;
        }
        proof {
            assert(members@.take((k + 1) as int).drop_last() =~= members@.take(k as int));
            assert(members@.take((k + 1) as int).last() == members@[k as int]);
            assert(forall|j: int| 0 <= j < k ==> members@.take(k as int)[j] == members@[j]);
        }
        k = k + 1;
    }
    proof {
        assert(members@.take(members@.len() as int) =~= members@);
    }
    count
}

/// Copies a vector of indices.
#[verifier::loop_isolation(false)]
fn copy_indices(v: &Vec<usize>) -> (r: Vec<usize>)
    ensures
        r@ == v@,
{
    let mut r: Vec<usize> = Vec::new();
    let mut i: usize = 0;
    while i < v.len()
        invariant
            i <= v@.len(),
            r@ == v@.take(i as int),
        decreases v@.len() - i,
    {
        r.push(v[i]);
        proof {
            assert(v@.take((i + 1) as int) =~= v@.take(i as int).push(v@[i as int]));
        }
        i = i + 1;
    }
    proof {
        assert(v@.take(v@.len() as int) =~= v@);
    }
    r
}

/// The support predicate used to keep or drop a cluster.
pub open spec fn supported(segs: Seq<SplitReadSegment>, c: Cluster, min_support: usize) -> bool {
    distinct_read_count(segs, c.members@) >= min_support
}

/// The subsequence of clusters with at least `min_support` distinct
/// supporting reads.
pub open spec fn kept_clusters(
    segs: Seq<SplitReadSegment>,
    cs: Seq<Cluster>,
    min_support: usize,
) -> Seq<Cluster>
    decreases cs.len(),
{
    if cs.len() == 0 {
        cs
    } else {
        let rest = kept_clusters(segs, cs.drop_last(), min_support);
        if supported(segs, cs.last(), min_support) {
            rest.push(cs.last())
        } else {
            rest
        }
    }
}

/// The subsequence of clusters with fewer than `min_support` distinct
/// supporting reads.
pub open spec fn dropped_clusters(
    segs: Seq<SplitReadSegment>,
    cs: Seq<Cluster>,
    min_support: usize,
) -> Seq<Cluster>
    decreases cs.len(),
{
    if cs.len() == 0 {
        cs
    } else {
        let rest = dropped_clusters(segs, cs.drop_last(), min_support);
        if !supported(segs, cs.last(), min_support) {
            rest.push(cs.last())
        } else {
            rest
        }
    }
}

/// Splits the cluster list into the clusters with at least
/// `min_support` distinct supporting reads and those with fewer; keeps
/// the order of both parts.
#[verifier::loop_isolation(false)]
pub fn filter_by_support(
    segs: &Vec<SplitReadSegment>,
    clusters: Vec<Cluster>,
    min_support: usize,
) -> (r: (Vec<Cluster>, Vec<Cluster>))
    requires
        forall|c: int, k: int|
            0 <= c < clusters@.len() && 0 <= k < (#[trigger] clusters@[c]).members@.len() ==> (
            #[trigger] clusters@[c].members@[k]) < segs@.len(),
    ensures
        r.0@ == kept_clusters(segs@, clusters@, min_support),
        r.1@ == dropped_clusters(segs@, clusters@, min_support),
{
    let ghost all = clusters@;
    let mut rest = clusters;
    let mut kept: Vec<Cluster> = Vec::new();
    let mut dropped: Vec<Cluster> = Vec::new();
    while rest.len() > 0
        invariant
            rest@.len() <= all.len(),
            rest@ == all.skip(all.len() - rest@.len()),
            kept@ == kept_clusters(segs@, all.take(all.len() - rest@.len()), min_support),
            dropped@ == dropped_clusters(segs@, all.take(all.len() - rest@.len()), min_support),
        decreases rest@.len(),
    {
        let ghost done = all.len() - rest@.len();
        let c = rest.remove(0);
        proof {
            assert(c == all[done]);
            assert(rest@ =~= all.skip(done + 1));
            assert(all.take(done + 1).drop_last() =~= all.take(done));
            assert(all.take(done + 1).last() == all[done]);
            assert(forall|k: int| 0 <= k < c.members@.len() ==> (#[trigger] c.members@[k])
                < segs@.len());
        }
        let support: usize = count_distinct_reads(segs, &c.members);
        if support >= min_support {
            kept.push(c);
        } else {
            dropped.push(c);
        }
    }
    proof {
        assert(all.take(all.len() as int) =~= all);
    }
    (kept, dropped)
}

/// Concatenating cluster lists concatenates their flattened members.
pub proof fn lemma_concat_add(a: Seq<Cluster>, b: Seq<Cluster>)
    ensures
        members_concat(a + b) == members_concat(a) + members_concat(b),
    decreases b.len(),
{
    if b.len() == 0 {
        assert(a + b =~= a);
        assert(members_concat(a) + Seq::<usize>::empty() =~= members_concat(a));
    } else {
        lemma_concat_add(a, b.drop_last());
        assert((a + b).drop_last() =~= a + b.drop_last());
        assert((a + b).last() == b.last());
        assert((members_concat(a) + members_concat(b.drop_last())) + b.last().members@
            =~= members_concat(a) + (members_concat(b.drop_last()) + b.last().members@));
    }
}

/// Splitting a cluster list by support preserves the multiset of
/// flattened members.
pub proof fn lemma_support_split(segs: Seq<SplitReadSegment>, cs: Seq<Cluster>, min_support: usize)
    ensures
        (members_concat(kept_clusters(segs, cs, min_support)) + members_concat(
            dropped_clusters(segs, cs, min_support),
        )).to_multiset() == members_concat(cs).to_multiset(),
    decreases cs.len(),
{
    broadcast use vstd::seq_lib::lemma_multiset_commutative;
    broadcast use vstd::multiset::group_multiset_axioms;

    if cs.len() == 0 {
    } else {
        let dl = cs.drop_last();
        let l = cs.last();
        lemma_support_split(segs, dl, min_support);
        if supported(segs, l, min_support) {
            lemma_members_concat_push(kept_clusters(segs, dl, min_support), l);
            assert((members_concat(kept_clusters(segs, dl, min_support)) + l.members@
                + members_concat(dropped_clusters(segs, dl, min_support))).to_multiset() =~= (
            members_concat(dl) + l.members@).to_multiset());
        } else {
            lemma_members_concat_push(dropped_clusters(segs, dl, min_support), l);
            assert((members_concat(kept_clusters(segs, dl, min_support)) + (members_concat(
                dropped_clusters(segs, dl, min_support),
            ) + l.members@)).to_multiset() =~= (members_concat(dl) + l.members@).to_multiset());
        }
    }
}

/// Every kept cluster is one of the input clusters and has enough
/// support; every dropped cluster is one of the input clusters and has
/// too little.
pub proof fn lemma_split_elements(segs: Seq<SplitReadSegment>, cs: Seq<Cluster>, min_support: usize)
    ensures
        forall|i: int|
            0 <= i < kept_clusters(segs, cs, min_support).len() ==> (exists|w: int|
                0 <= w < cs.len() && cs[w] == #[trigger] kept_clusters(segs, cs, min_support)[i])
                && supported(segs, kept_clusters(segs, cs, min_support)[i], min_support),
        forall|i: int|
            0 <= i < dropped_clusters(segs, cs, min_support).len() ==> (exists|w: int|
                0 <= w < cs.len() && cs[w] == #[trigger] dropped_clusters(segs, cs, min_support)[i])
                && !supported(segs, dropped_clusters(segs, cs, min_support)[i], min_support),
    decreases cs.len(),
{
    if cs.len() == 0 {
    } else {
        let dl = cs.drop_last();
        lemma_split_elements(segs, dl, min_support);
        let kc = kept_clusters(segs, cs, min_support);
        let kd = kept_clusters(segs, dl, min_support);
        let dc = dropped_clusters(segs, cs, min_support);
        let dd = dropped_clusters(segs, dl, min_support);
        assert(cs[cs.len() - 1] == cs.last());
        assert forall|i: int| 0 <= i < kc.len() implies (exists|w: int|
            0 <= w < cs.len() && cs[w] == #[trigger] kc[i]) && supported(
            segs,
            kc[i],
            min_support,
        ) by {
            if supported(segs, cs.last(), min_support) && i == kc.len() - 1 {
                assert(kc[i] == cs.last());
            } else {
                assert(kc[i] == kd[i]);
                let w = choose|w: int| 0 <= w < dl.len() && dl[w] == kd[i];
                assert(cs[w] == kd[i]);
            }
        }
        assert forall|i: int| 0 <= i < dc.len() implies (exists|w: int|
            0 <= w < cs.len() && cs[w] == #[trigger] dc[i]) && !supported(
            segs,
            dc[i],
            min_support,
        ) by {
            if !supported(segs, cs.last(), min_support) && i == dc.len() - 1 {
                assert(dc[i] == cs.last());
            } else {
                assert(dc[i] == dd[i]);
                let w = choose|w: int| 0 <= w < dl.len() && dl[w] == dd[i];
                assert(cs[w] == dd[i]);
            }
        }
    }
}

/// The complete breakpoint clusterer: sweep, then drop clusters with
/// fewer than `min_support` distinct supporting reads. Returns the kept
/// clusters and the dropped ones; together they cover every input
/// segment exactly once.
#[verifier::rlimit(60)]
pub fn find_breaks(
    segs: &Vec<SplitReadSegment>,
    window: u64,
    phase_aware: bool,
    min_support: usize,
) -> (r: (Vec<Cluster>, Vec<Cluster>))
    ensures
        exists|full: Seq<Cluster>|
            {
                &&& #[trigger] sweep_post(segs@, full, window, phase_aware)
                &&& r.0@ == kept_clusters(segs@, full, min_support)
                &&& r.1@ == dropped_clusters(segs@, full, min_support)
            },
        covers_exactly(r.0@ + r.1@, Seq::empty(), segs@.len()),
        forall|c: int| 0 <= c < r.0@.len() ==> cluster_wf(segs@, #[trigger] r.0@[c], window),
        forall|c: int| 0 <= c < r.0@.len() ==> supported(segs@, #[trigger] r.0@[c], min_support),
        forall|c: int| 0 <= c < r.1@.len() ==> !supported(segs@, #[trigger] r.1@[c], min_support),
        phase_aware ==> forall|c: int|
            0 <= c < r.0@.len() ==> cluster_phase_wf(segs@, #[trigger] r.0@[c]),
        !phase_aware ==> forall|c: int| 0 <= c < r.0@.len() ==> (#[trigger] r.0@[c]).phase is None,
{
    let full = sweep_clusters(segs, window, phase_aware);
    let ghost full_seq = full@;
    proof {
        assert forall|c: int, k: int|
            0 <= c < full@.len() && 0 <= k < (#[trigger] full@[c]).members@.len() implies (
        #[trigger] full@[c].members@[k]) < segs@.len() by {
            assert(cluster_wf(segs@, full@[c], window));
        }
    }
    let (kept, dropped) = filter_by_support(segs, full, min_support);
    proof {
        lemma_split_elements(segs@, full_seq, min_support);
        assert forall|c: int| 0 <= c < kept@.len() implies cluster_wf(
            segs@,
            #[trigger] kept@[c],
            window,
        ) by {
            let w = choose|w: int| 0 <= w < full_seq.len() && full_seq[w] == kept@[c];
            assert(cluster_wf(segs@, full_seq[w], window));
        }
        if phase_aware {
            assert forall|c: int| 0 <= c < kept@.len() implies cluster_phase_wf(
                segs@,
                #[trigger] kept@[c],
            ) by {
                let w = choose|w: int| 0 <= w < full_seq.len() && full_seq[w] == kept@[c];
                assert(cluster_phase_wf(segs@, full_seq[w]));
            }
        }
        if !phase_aware {
            assert forall|c: int| 0 <= c < kept@.len() implies (#[trigger] kept@[c]).phase
                is None by {
                let w = choose|w: int| 0 <= w < full_seq.len() && full_seq[w] == kept@[c];
                assert(full_seq[w].phase is None);
            }
        }
        lemma_support_split(segs@, full_seq, min_support);
        lemma_concat_add(kept@, dropped@);
        broadcast use vstd::seq_lib::lemma_multiset_commutative;

        assert(members_concat(full_seq) + Seq::<usize>::empty() =~= members_concat(full_seq));
        assert(members_concat(kept@ + dropped@) + Seq::<usize>::empty() =~= members_concat(kept@)
            + members_concat(dropped@));
        assert((members_concat(kept@) + members_concat(dropped@)).to_multiset() == index_seq(
            segs@.len(),
        ).to_multiset());
    }
    (kept, dropped)
}

/// Some cluster of the list holds the segment index `x`.
pub open spec fn in_some_cluster(cs: Seq<Cluster>, x: usize) -> bool {
    exists|c: int| 0 <= c < cs.len() && (#[trigger] cs[c]).members@.contains(x)
}

/// Decomposes the flattened member list around one cluster.
pub proof fn lemma_concat_decompose(cs: Seq<Cluster>, c: int)
    requires
        0 <= c < cs.len(),
    ensures
        members_concat(cs) == members_concat(cs.take(c)) + cs[c].members@ + members_concat(
            cs.skip(c + 1),
        ),
    decreases cs.len(),
{
    if c == cs.len() - 1 {
        assert(cs.take(c) =~= cs.drop_last());
        assert(cs.skip(c + 1) =~= Seq::<Cluster>::empty());
        assert(members_concat(cs.skip(c + 1)) == Seq::<usize>::empty());
        assert(members_concat(cs.take(c)) + cs[c].members@ + members_concat(cs.skip(c + 1))
            =~= members_concat(cs.drop_last()) + cs.last().members@);
    } else {
        let dl = cs.drop_last();
        lemma_concat_decompose(dl, c);
        assert(dl.take(c) =~= cs.take(c));
        assert(cs.skip(c + 1).drop_last() =~= dl.skip(c + 1));
        assert(cs.skip(c + 1).last() == cs.last());
        assert(dl[c] == cs[c]);
        assert(members_concat(cs.skip(c + 1)) == members_concat(dl.skip(c + 1))
            + cs.last().members@);
        assert((members_concat(cs.take(c)) + cs[c].members@ + members_concat(dl.skip(c + 1)))
            + cs.last().members@ =~= members_concat(cs.take(c)) + cs[c].members@ + (members_concat(
            dl.skip(c + 1),
        ) + cs.last().members@));
    }
}

/// A member of any cluster occurs in the flattened member list.
pub proof fn lemma_cluster_to_concat(cs: Seq<Cluster>, c: int, x: usize)
    requires
        0 <= c < cs.len(),
        cs[c].members@.contains(x),
    ensures
        members_concat(cs).contains(x),
{
    lemma_concat_decompose(cs, c);
    let k = choose|k: int| 0 <= k < cs[c].members@.len() && cs[c].members@[k] == x;
    let off = members_concat(cs.take(c)).len();
    assert(members_concat(cs)[off + k] == x);
}

/// An index in the flattened member list belongs to some cluster.
pub proof fn lemma_concat_to_cluster(cs: Seq<Cluster>, x: usize)
    requires
        members_concat(cs).contains(x),
    ensures
        exists|c: int| 0 <= c < cs.len() && (#[trigger] cs[c]).members@.contains(x),
    decreases cs.len(),
{
    if cs.len() == 0 {
        assert(false);
    } else {
        let dl = cs.drop_last();
        if cs.last().members@.contains(x) {
            assert(cs[cs.len() - 1].members@.contains(x));
        } else {
            let bi = choose|bi: int|
                0 <= bi < members_concat(cs).len() && members_concat(cs)[bi] == x;
            if bi < members_concat(dl).len() {
                assert(members_concat(dl)[bi] == x);
                lemma_concat_to_cluster(dl, x);
                let c = choose|c: int| 0 <= c < dl.len() && (#[trigger] dl[c]).members@.contains(x);
                assert(cs[c].members@.contains(x));
            } else {
                assert(cs.last().members@[bi - members_concat(dl).len()] == x);
                assert(false);
            }
        }
    }
}

/// If the flattened member list has no duplicates, no index is in two
/// clusters.
pub proof fn lemma_concat_unique(cs: Seq<Cluster>, c1: int, c2: int, x: usize)
    requires
        members_concat(cs).no_duplicates(),
        0 <= c1 < c2 < cs.len(),
        cs[c1].members@.contains(x),
    ensures
        !cs[c2].members@.contains(x),
    decreases cs.len(),
{
    let dl = cs.drop_last();
    assert(forall|w: int| 0 <= w < dl.len() ==> #[trigger] dl[w] == cs[w]);
    if c2 == cs.len() - 1 {
        lemma_cluster_to_concat(dl, c1, x);
        if cs.last().members@.contains(x) {
            let p = choose|p: int|
                0 <= p < members_concat(dl).len() && members_concat(dl)[p] == x;
            let k = choose|k: int|
                0 <= k < cs.last().members@.len() && cs.last().members@[k] == x;
            assert(members_concat(cs)[p] == x);
            assert(members_concat(cs)[members_concat(dl).len() + k] == x);
            assert(false);
        }
    } else {
        assert forall|i: int, j: int|
            0 <= i < members_concat(dl).len() && 0 <= j < members_concat(dl).len() && i
                != j implies members_concat(dl)[i] != members_concat(dl)[j] by {
            assert(members_concat(cs)[i] == members_concat(dl)[i]);
            assert(members_concat(cs)[j] == members_concat(dl)[j]);
        }
        lemma_concat_unique(dl, c1, c2, x);
    }
}

/// Coverage invariant: when the clusters and the extra (dropped) index
/// list cover the `n` input segments exactly once, every segment index
/// under `n` is either dropped or in exactly one cluster, never both,
/// and no cluster or the dropped list mentions an index twice.
pub proof fn lemma_coverage_invariant(cs: Seq<Cluster>, extra: Seq<usize>, n: nat)
    requires
        covers_exactly(cs, extra, n),
        n <= usize::MAX,
    ensures
        forall|x: usize| (x as int) < n ==> #[trigger] extra.contains(x) || in_some_cluster(cs, x),
        forall|c1: int, c2: int, x: usize|
            0 <= c1 < cs.len() && 0 <= c2 < cs.len() && c1 != c2
                && #[trigger] cs[c1].members@.contains(x) ==> !(#[trigger] cs[c2].members@.contains(
                x,
            )),
        forall|c: int, x: usize|
            0 <= c < cs.len() && #[trigger] cs[c].members@.contains(x) ==> (x as int) < n
                && !extra.contains(x),
        forall|c: int| 0 <= c < cs.len() ==> (#[trigger] cs[c]).members@.no_duplicates(),
        extra.no_duplicates(),
{
    broadcast use vstd::multiset::group_multiset_axioms;

    let mc = members_concat(cs);
    let big = mc + extra;
    assert forall|i: int, j: int|
        0 <= i < index_seq(n).len() && 0 <= j < index_seq(n).len() && i != j implies index_seq(n)[i]
        != index_seq(n)[j] by {
        assert(index_seq(n)[i] == i as usize);
        assert(index_seq(n)[j] == j as usize);
    }
    assert(index_seq(n).no_duplicates());
    index_seq(n).lemma_multiset_has_no_duplicates();
    assert forall|x: usize| big.to_multiset().contains(x) implies big.to_multiset().count(x)
        == 1 by {
        assert(index_seq(n).to_multiset().contains(x));
    }
    big.lemma_multiset_has_no_duplicates_conv();
    assert forall|x: usize| (x as int) < n implies big.contains(x) by {
        assert(index_seq(n)[x as int] == x);
        assert(index_seq(n).contains(x));
        assert(index_seq(n).to_multiset().count(x) > 0);
        assert(big.to_multiset().count(x) > 0);
        assert(big.contains(x));
    }
    assert forall|x: usize| big.contains(x) implies (x as int) < n by {
        assert(big.to_multiset().count(x) > 0);
        assert(index_seq(n).to_multiset().count(x) > 0);
        assert(index_seq(n).contains(x));
        let i = choose|i: int| 0 <= i < index_seq(n).len() && index_seq(n)[i] == x;
        assert(index_seq(n)[i] == i as usize);
    }
    assert forall|i: int, j: int|
        0 <= i < mc.len() && 0 <= j < mc.len() && i != j implies mc[i] != mc[j] by {
        assert(big[i] == mc[i]);
        assert(big[j] == mc[j]);
    }
    assert(mc.no_duplicates());
    assert forall|i: int, j: int|
        0 <= i < extra.len() && 0 <= j < extra.len() && i != j implies extra[i] != extra[j] by {
        assert(big[mc.len() + i] == extra[i]);
        assert(big[mc.len() + j] == extra[j]);
    }
    assert(extra.no_duplicates());
    assert forall|x: usize| (x as int) < n implies extra.contains(x) || in_some_cluster(cs, x) by {
        assert(big.contains(x));
        let bi = choose|bi: int| 0 <= bi < big.len() && big[bi] == x;
        if bi < mc.len() {
            assert(mc[bi] == x);
            lemma_concat_to_cluster(cs, x);
        } else {
            assert(extra[bi - mc.len()] == x);
        }
    }
    assert forall|c1: int, c2: int, x: usize|
        0 <= c1 < cs.len() && 0 <= c2 < cs.len() && c1 != c2
        && #[trigger] cs[c1].members@.contains(x) implies !(#[trigger] cs[c2].members@.contains(
        x,
    )) by {
        if c1 < c2 {
            lemma_concat_unique(cs, c1, c2, x);
        } else {
            if cs[c2].members@.contains(x) {
                lemma_concat_unique(cs, c2, c1, x);
            }
        }
    }
    assert forall|c: int, x: usize|
        0 <= c < cs.len() && #[trigger] cs[c].members@.contains(x) implies (x as int) < n
            && !extra.contains(x) by {
        lemma_cluster_to_concat(cs, c, x);
        let p = choose|p: int| 0 <= p < mc.len() && mc[p] == x;
        assert(big[p] == x);
        assert(big.contains(x));
        if extra.contains(x) {
            let e = choose|e: int| 0 <= e < extra.len() && extra[e] == x;
            assert(big[mc.len() + e] == x);
            assert(false);
        }
    }
    assert forall|c: int| 0 <= c < cs.len() implies (#[trigger] cs[c]).members@.no_duplicates() by {
        lemma_concat_decompose(cs, c);
        let off = members_concat(cs.take(c)).len();
        assert forall|k1: int, k2: int|
            0 <= k1 < cs[c].members@.len() && 0 <= k2 < cs[c].members@.len() && k1
                != k2 implies cs[c].members@[k1] != cs[c].members@[k2] by {
            assert(mc[off + k1] == cs[c].members@[k1]);
            assert(mc[off + k2] == cs[c].members@[k2]);
        }
    }
}

/// A strictly increasing sequence of `n` values below `n` is the
/// identity.
proof fn lemma_increasing_identity(s: Seq<usize>, n: nat, p: int)
    requires
        n <= usize::MAX,
        s.len() == n,
        forall|t: int| 0 <= t < s.len() ==> ((#[trigger] s[t]) as int) < n,
        forall|t1: int, t2: int| 0 <= t1 < t2 < s.len() ==> s[t1] < s[t2],
        0 <= p < s.len(),
    ensures
        (s[p] as int) == p,
{
    lemma_increasing_lb(s, n, p);
    lemma_increasing_ub(s, n, p);
}

proof fn lemma_increasing_lb(s: Seq<usize>, n: nat, p: int)
    requires
        s.len() == n,
        forall|t1: int, t2: int| 0 <= t1 < t2 < s.len() ==> s[t1] < s[t2],
        0 <= p < s.len(),
    ensures
        (s[p] as int) >= p,
    decreases p,
{
    if p > 0 {
        lemma_increasing_lb(s, n, p - 1);
        assert(s[p - 1] < s[p]);
    }
}

proof fn lemma_increasing_ub(s: Seq<usize>, n: nat, p: int)
    requires
        s.len() == n,
        forall|t: int| 0 <= t < s.len() ==> ((#[trigger] s[t]) as int) < n,
        forall|t1: int, t2: int| 0 <= t1 < t2 < s.len() ==> s[t1] < s[t2],
        0 <= p < s.len(),
    ensures
        (s[p] as int) <= p,
    decreases s.len() - p,
{
    if p == s.len() - 1 {
        assert((s[p] as int) < n);
    } else {
        lemma_increasing_ub(s, n, p + 1);
        assert(s[p] < s[p + 1]);
    }
}

/// When every cluster is a singleton, the flattened member list pairs
/// position `c` with cluster `c`'s one member.
proof fn lemma_singleton_concat(cs: Seq<Cluster>)
    requires
        forall|c: int| 0 <= c < cs.len() ==> (#[trigger] cs[c]).members@.len() == 1,
    ensures
        members_concat(cs).len() == cs.len(),
        forall|c: int| 0 <= c < cs.len() ==> members_concat(cs)[c] == (#[trigger] cs[c]).members@[0],
    decreases cs.len(),
{
    if cs.len() > 0 {
        let dl = cs.drop_last();
        assert(forall|c: int| 0 <= c < dl.len() ==> #[trigger] dl[c] == cs[c]);
        lemma_singleton_concat(dl);
        assert(members_concat(cs) == members_concat(dl) + cs.last().members@);
        assert(members_concat(cs).len() == cs.len());
        assert forall|c: int| 0 <= c < cs.len() implies members_concat(cs)[c] == (
        #[trigger] cs[c]).members@[0] by {
            assert(members_concat(cs) == members_concat(dl) + cs.last().members@);
            if c < dl.len() {
                assert(members_concat(cs)[c] == members_concat(dl)[c]);
                assert(members_concat(dl)[c] == dl[c].members@[0]);
                assert(dl[c] == cs[c]);
            } else {
                assert(c == cs.len() - 1);
                assert(members_concat(dl).len() == dl.len());
                assert(members_concat(cs)[c] == cs.last().members@[0]);
                assert(cs.last() == cs[c]);
            }
        }
    }
}

/// Consecutive-pair sortedness of cluster coordinates extends to all
/// pairs.
proof fn lemma_clusters_sorted_trans(cs: Seq<Cluster>, i: int, j: int)
    requires
        clusters_sorted(cs),
        0 <= i <= j < cs.len(),
    ensures
        coord_le(cs[i].coord, cs[j].coord),
    decreases j - i,
{
    if i < j {
        lemma_clusters_sorted_trans(cs, i, j - 1);
        assert(coord_le(cs[j - 1].coord, cs[j].coord));
    }
}

/// When the clusters cover distinct-coordinate segments exactly once,
/// in sort order, the flattened member list is the identity sequence.
proof fn lemma_concat_is_identity(segs2: Seq<SplitReadSegment>, cs2: Seq<Cluster>, n: nat)
    requires
        n == segs2.len(),
        n <= usize::MAX,
        covers_exactly(cs2, Seq::empty(), n),
        concat_sorted(segs2, cs2),
        forall|i: int, j: int|
            0 <= i < n && 0 <= j < n && i != j ==> (#[trigger] segs2[i]).clip != (
            #[trigger] segs2[j]).clip,
        forall|i: int, j: int| 0 <= i <= j < n ==> seg_le(#[trigger] segs2[i], #[trigger] segs2[j]),
    ensures
        members_concat(cs2).len() == n,
        forall|p: int| 0 <= p < n ==> ((#[trigger] members_concat(cs2)[p]) as int) == p,
{
    let mc = members_concat(cs2);
    lemma_coverage_invariant(cs2, Seq::empty(), n);
    assert(mc + Seq::<usize>::empty() =~= mc);
    assert forall|p: int| 0 <= p < mc.len() implies ((#[trigger] mc[p]) as int) < n by {
        lemma_concat_to_cluster_pos(cs2, p);
        let c = choose|c: int| 0 <= c < cs2.len() && (#[trigger] cs2[c]).members@.contains(mc[p]);
    }
    broadcast use vstd::multiset::group_multiset_axioms;

    assert(index_seq(n).no_duplicates()) by {
        assert forall|i: int, j: int|
            0 <= i < index_seq(n).len() && 0 <= j < index_seq(n).len() && i
                != j implies index_seq(n)[i] != index_seq(n)[j] by {
            assert(index_seq(n)[i] == i as usize);
            assert(index_seq(n)[j] == j as usize);
        }
    }
    index_seq(n).lemma_multiset_has_no_duplicates();
    assert forall|x: usize| mc.to_multiset().contains(x) implies mc.to_multiset().count(x) == 1 by {
        assert(index_seq(n).to_multiset().contains(x));
    }
    mc.lemma_multiset_has_no_duplicates_conv();
    assert(mc.len() == n) by {
        assert(mc.to_multiset().len() == index_seq(n).to_multiset().len());
    }
    assert forall|p: int, q: int| 0 <= p < q < mc.len() implies mc[p] < mc[q] by {
        assert(seg_le(segs2[mc[p] as int], segs2[mc[q] as int]));
        assert(mc[p] != mc[q]);
        assert((mc[p] as int) != (mc[q] as int));
        assert((mc[p] as int) < n && (mc[q] as int) < n);
        assert(segs2[mc[p] as int].clip != segs2[mc[q] as int].clip);
        if mc[q] < mc[p] {
            assert((mc[q] as int) <= (mc[p] as int));
            assert(seg_le(segs2[mc[q] as int], segs2[mc[p] as int]));
            assert(false);
        }
    }
    assert forall|p: int| 0 <= p < mc.len() implies (#[trigger] mc[p] as int) == p by {
        lemma_increasing_identity(mc, n, p);
    }
}

/// Phase consistency: in phase-aware mode no two members of one swept
/// cluster carry differing non-null haplotype tags.
pub proof fn lemma_phase_consistency(
    segs: Seq<SplitReadSegment>,
    cs: Seq<Cluster>,
    window: u64,
    c: int,
    k1: int,
    k2: int,
)
    requires
        sweep_post(segs, cs, window, true),
        0 <= c < cs.len(),
        0 <= k1 < cs[c].members@.len(),
        0 <= k2 < cs[c].members@.len(),
        segs[cs[c].members@[k1] as int].phase is Some,
        segs[cs[c].members@[k2] as int].phase is Some,
    ensures
        segs[cs[c].members@[k1] as int].phase == segs[cs[c].members@[k2] as int].phase,
{
    assert(cluster_phase_wf(segs, cs[c]));
    assert(phases_compatible(
        segs[cs[c].members@[k1] as int].phase,
        segs[cs[c].members@[k2] as int].phase,
    ));
}

/// Clustering idempotence: running the sweep on single-member inputs
/// made of a previous sweep's consensus coordinates and haplotype tags
/// (one segment per cluster, in cluster order) reproduces those
/// clusters, one singleton each, provided no two of the original
/// clusters share a consensus coordinate.
#[verifier::rlimit(100)]
pub proof fn lemma_clustering_idempotent(
    segs1: Seq<SplitReadSegment>,
    cs1: Seq<Cluster>,
    segs2: Seq<SplitReadSegment>,
    cs2: Seq<Cluster>,
    window: u64,
    phase_aware: bool,
)
    requires
        sweep_post(segs1, cs1, window, phase_aware),
        segs2.len() == cs1.len(),
        segs2.len() <= usize::MAX,
        forall|c: int|
            0 <= c < cs1.len() ==> (#[trigger] segs2[c]).clip == cs1[c].coord && segs2[c].phase
                == cs1[c].phase,
        forall|c1: int, c2: int|
            0 <= c1 < cs1.len() && 0 <= c2 < cs1.len() && c1 != c2 ==> (#[trigger] cs1[c1]).coord
                != (#[trigger] cs1[c2]).coord,
        sweep_post(segs2, cs2, window, phase_aware),
    ensures
        cs2.len() == cs1.len(),
        forall|c: int|
            0 <= c < cs2.len() ==> (#[trigger] cs2[c]).coord == cs1[c].coord
                && cs2[c].members@.len() == 1 && (cs2[c].members@[0] as int) == c,
{
    let n = segs2.len();
    let mc = members_concat(cs2);
    assert forall|i: int, j: int| 0 <= i <= j < n implies seg_le(
        #[trigger] segs2[i],
        #[trigger] segs2[j],
    ) by {
        lemma_clusters_sorted_trans(cs1, i, j);
        assert(coord_le(cs1[i].coord, cs1[j].coord));
        assert(segs2[i].clip == cs1[i].coord);
        assert(segs2[j].clip == cs1[j].coord);
        if i != j {
            assert(cs1[i].coord != cs1[j].coord);
        }
    }
    lemma_concat_is_identity(segs2, cs2, n);
    // no cluster holds two members
    assert forall|c: int| 0 <= c < cs2.len() implies (#[trigger] cs2[c]).members@.len() == 1 by {
        if cs2[c].members@.len() != 1 {
            assert(cluster_wf(segs2, cs2[c], window));
            assert(cs2[c].members@.len() >= 2);
            lemma_concat_decompose(cs2, c);
            let off = members_concat(cs2.take(c)).len() as int;
            assert(mc[off] == cs2[c].members@[0]);
            assert(mc[off + 1] == cs2[c].members@[1]);
            let i0 = cs2[c].members@[0] as int;
            let i1 = cs2[c].members@[1] as int;
            assert(i1 == i0 + 1);
            // both members lie within the window of the consensus and share
            // chromosome and orientation, so the original clusters i0 and
            // i0 + 1 were mergeable: contradiction with their separation
            assert(segs2[i0].clip.chrom == segs2[i1].clip.chrom);
            assert(segs2[i0].clip.fwd == segs2[i1].clip.fwd);
            assert(cs2[c].coord.pos <= segs2[i0].clip.pos <= cs2[c].coord.pos + window);
            assert(cs2[c].coord.pos <= segs2[i1].clip.pos <= cs2[c].coord.pos + window);
            assert(cs2[c].coord == segs2[i0].clip);
            assert(clusters_separated_at_consecutive(cs1, i0, window, phase_aware));
            assert(separated_at(cs1[i0], cs1[i0 + 1], window, phase_aware));
            if phase_aware {
                assert(cluster_phase_wf(segs2, cs2[c]));
                assert(phases_compatible(segs2[i0].phase, segs2[i1].phase));
                assert(phases_compatible(cs1[i0].phase, cs1[i1].phase));
            }
            assert(false);
        }
    }
    lemma_singleton_concat(cs2);
    assert(cs2.len() == n);
    assert forall|c: int| 0 <= c < cs2.len() implies (#[trigger] cs2[c]).coord == cs1[c].coord && (
    cs2[c].members@[0] as int) == c by {
        assert(mc[c] == cs2[c].members@[0]);
        assert(cluster_wf(segs2, cs2[c], window));
        assert(cs2[c].coord == segs2[cs2[c].members@[0] as int].clip);
    }
}

/// Restates consecutive-cluster separation for use at a chosen index.
pub open spec fn clusters_separated_at_consecutive(
    cs: Seq<Cluster>,
    c: int,
    window: u64,
    phase_aware: bool,
) -> bool {
    0 <= c && c + 1 < cs.len() ==> separated_at(cs[c], cs[c + 1], window, phase_aware)
}

/// A position of the flattened member list belongs to some cluster.
proof fn lemma_concat_to_cluster_pos(cs: Seq<Cluster>, p: int)
    requires
        0 <= p < members_concat(cs).len(),
    ensures
        exists|c: int|
            0 <= c < cs.len() && (#[trigger] cs[c]).members@.contains(members_concat(cs)[p]),
    decreases cs.len(),
{
    if cs.len() > 0 {
        let dl = cs.drop_last();
        let mdl = members_concat(dl);
        if p < mdl.len() {
            lemma_concat_to_cluster_pos(dl, p);
            let c = choose|c: int| 0 <= c < dl.len() && (#[trigger] dl[c]).members@.contains(mdl[p]);
            assert(cs[c].members@.contains(members_concat(cs)[p]));
        } else {
            assert(members_concat(cs)[p] == cs.last().members@[p - mdl.len()]);
            assert(cs[cs.len() - 1].members@.contains(members_concat(cs)[p]));
        }
    }
}

/// Segment `i` belongs to the prior break `pb`: its read is among the
/// break's supporting reads and its clip coordinate lies within `window`
/// bases of the break's coordinate on the same chromosome and
/// orientation.
pub open spec fn seed_matches(
    segs: Seq<SplitReadSegment>,
    pb: PriorBreak,
    i: int,
    window: u64,
) -> bool {
    &&& 0 <= i < segs.len()
    &&& pb.read_ids@.contains(segs[i].read_id)
    &&& segs[i].clip.chrom == pb.coord.chrom
    &&& segs[i].clip.fwd == pb.coord.fwd
    &&& segs[i].clip.pos <= pb.coord.pos + window
    &&& pb.coord.pos <= segs[i].clip.pos + window
}

/// Segment `i` belongs to no prior break.
pub open spec fn unseeded(
    segs: Seq<SplitReadSegment>,
    priors: Seq<PriorBreak>,
    i: int,
    window: u64,
) -> bool {
    forall|s: int| 0 <= s < priors.len() ==> !seed_matches(segs, #[trigger] priors[s], i, window)
}

/// Exec check matching `seed_matches`.
#[verifier::loop_isolation(false)]
fn seed_matches_exec(segs: &Vec<SplitReadSegment>, pb: &PriorBreak, i: usize, window: u64) -> (r:
    bool)
    requires
        (i as int) < segs@.len(),
    ensures
        r == seed_matches(segs@, *pb, i as int, window),
{
    let sg: SplitReadSegment = segs[i];
    if !(sg.clip.chrom == pb.coord.chrom && sg.clip.fwd == pb.coord.fwd) {
        return false;
    }
    let near: bool = if sg.clip.pos >= pb.coord.pos {
        sg.clip.pos - pb.coord.pos <= window
    } else {
        pb.coord.pos - sg.clip.pos <= window
    };
    if !near {
        return false;
    }
    let mut j: usize = 0;
    while j < pb.read_ids.len()
        invariant
            j <= pb.read_ids@.len(),
            forall|t: int| 0 <= t < j ==> pb.read_ids@[t] != sg.read_id,
        decreases pb.read_ids@.len() - j,
    {
        if pb.read_ids[j] == sg.read_id {
            return true;
        }
        j = j + 1;
    }
    false
}

/// Clustering driven by a prior call set: one cluster is seeded directly
/// from each prior breakpoint's coordinate and takes exactly the
/// segments whose read identifier appears in that break's readname set
/// and whose clip coordinate lies within the proximity window of it
/// (the first matching break claims a segment); the remaining segments
/// go through the ordinary sweep. Seeded clusters carry no haplotype
/// tag. A seeded cluster may be empty (the prior breakpoint was not
/// observed in this read set); the support filter removes such clusters.
#[verifier::loop_isolation(false)]
#[verifier::rlimit(100)]
pub fn assign_clipped_reads_to_clusters(
    segs: &Vec<SplitReadSegment>,
    priors: &Vec<PriorBreak>,
    window: u64,
    phase_aware: bool,
) -> (r: (Vec<Cluster>, Vec<Cluster>))
    ensures
        r.0@.len() == priors@.len(),
        forall|s: int|
            0 <= s < priors@.len() ==> (#[trigger] r.0@[s]).coord == priors@[s].coord && r.0@[s].phase
                is None,
        forall|s: int, i: int|
            0 <= s < priors@.len() && 0 <= i < segs@.len() ==> ((#[trigger] r.0@[s].members@.contains(
                i as usize,
            )) <==> (seed_matches(segs@, priors@[s], i, window) && forall|s2: int|
                0 <= s2 < s ==> !seed_matches(segs@, #[trigger] priors@[s2], i, window))),
        forall|c: int| 0 <= c < r.1@.len() ==> cluster_wf(segs@, #[trigger] r.1@[c], window),
        phase_aware ==> forall|c: int|
            0 <= c < r.1@.len() ==> cluster_phase_wf(segs@, #[trigger] r.1@[c]),
        forall|c: int, k: int|
            0 <= c < r.1@.len() && 0 <= k < (#[trigger] r.1@[c]).members@.len() ==> unseeded(
                segs@,
                priors@,
                (#[trigger] r.1@[c].members@[k]) as int,
                window,
            ),
        forall|i: int|
            0 <= i < segs@.len() && unseeded(segs@, priors@, i, window) ==> in_some_cluster(
                r.1@,
                i as usize,
            ),
        forall|c1: int, c2: int, x: usize|
            0 <= c1 < r.1@.len() && 0 <= c2 < r.1@.len() && c1 != c2
                && #[trigger] r.1@[c1].members@.contains(x) ==> !(#[trigger] r.1@[c2].members@.contains(
                x,
            )),
{
    let n: usize = segs.len();
    let mut claimed: Vec<bool> = Vec::new();
    let mut i: usize = 0;
    while i < n
        invariant
            i <= n,
            claimed@.len() == i,
            forall|j: int| 0 <= j < i ==> !(#[trigger] claimed@[j]),
        decreases n - i,
    {
        claimed.push(false);
        i = i + 1;
    }
    let mut seeded: Vec<Cluster> = Vec::new();
    let mut s: usize = 0;
    while s < priors.len()
        invariant
            s <= priors@.len(),
            claimed@.len() == n,
            seeded@.len() == s,
            forall|s2: int|
                0 <= s2 < s ==> (#[trigger] seeded@[s2]).coord == priors@[s2].coord
                    && seeded@[s2].phase is None,
            forall|s2: int, i2: int|
                0 <= s2 < s && 0 <= i2 < n ==> ((#[trigger] seeded@[s2].members@.contains(
                    i2 as usize,
                )) <==> (seed_matches(segs@, priors@[s2], i2, window) && forall|s3: int|
                    0 <= s3 < s2 ==> !seed_matches(segs@, #[trigger] priors@[s3], i2, window))),
            forall|i2: int|
                0 <= i2 < n ==> ((#[trigger] claimed@[i2]) <==> exists|s2: int|
                    0 <= s2 < s && seed_matches(segs@, #[trigger] priors@[s2], i2, window)),
        decreases priors@.len() - s,
    {
        let mut members: Vec<usize> = Vec::new();
        let mut i2: usize = 0;
        while i2 < n
            invariant
                i2 <= n,
                s < priors@.len(),
                claimed@.len() == n,
                forall|k: int|
                    0 <= k < members@.len() ==> ((#[trigger] members@[k]) as int) < i2,
                forall|i3: int|
                    0 <= i3 < n ==> ((#[trigger] members@.contains(i3 as usize)) <==> (i3 < i2
                        && seed_matches(segs@, priors@[s as int], i3, window) && forall|s3: int|
                        0 <= s3 < s ==> !seed_matches(segs@, #[trigger] priors@[s3], i3, window))),
                forall|i3: int|
                    0 <= i3 < n ==> ((#[trigger] claimed@[i3]) <==> (exists|s2: int|
                        0 <= s2 < s && seed_matches(segs@, #[trigger] priors@[s2], i3, window)) || (
                    i3 < i2 && seed_matches(segs@, priors@[s as int], i3, window))),
            decreases n - i2,
        {
            if !claimed[i2] && seed_matches_exec(segs, &priors[s], i2, window) {
                let ghost members_prev = members@;
                let ghost claimed_prev = claimed@;
                members.push(i2);
                claimed.set(i2, true);
                proof {
                    assert(members@.drop_last() =~= members_prev);
                    assert(members@.last() == i2);
                    assert forall|i3: int|
                        0 <= i3 < n implies ((#[trigger] members@.contains(i3 as usize)) <==> (i3
                            < i2 + 1 && seed_matches(segs@, priors@[s as int], i3, window)
                            && forall|s3: int|
                            0 <= s3 < s ==> !seed_matches(
                                segs@,
                                #[trigger] priors@[s3],
                                i3,
                                window,
                            ))) by {
                        if i3 == i2 as int {
                            assert(members@[members@.len() - 1] == i3 as usize);
                            assert(members@.contains(i3 as usize));
                            assert(!claimed_prev[i3]);
                        } else {
                            if members@.contains(i3 as usize) {
                                let t = choose|t: int|
                                    0 <= t < members@.len() && members@[t] == i3 as usize;
                                assert(t < members@.len() - 1);
                                assert(members_prev[t] == i3 as usize);
                                assert(members_prev.contains(i3 as usize));
                            }
                            if members_prev.contains(i3 as usize) {
                                let t = choose|t: int|
                                    0 <= t < members_prev.len() && members_prev[t] == i3 as usize;
                                assert(members@[t] == i3 as usize);
                            }
                        }
                    }
                }
            } else {
                proof {
                    assert forall|i3: int|
                        0 <= i3 < n implies ((#[trigger] members@.contains(i3 as usize)) <==> (i3
                            < i2 + 1 && seed_matches(segs@, priors@[s as int], i3, window)
                            && forall|s3: int|
                            0 <= s3 < s ==> !seed_matches(
                                segs@,
                                #[trigger] priors@[s3],
                                i3,
                                window,
                            ))) by {
                        if i3 == i2 as int && claimed@[i3] {
                            // the segment matched an earlier seed, so the
                            // first-match condition excludes it here
                            assert(exists|s2: int|
                                0 <= s2 < s && seed_matches(segs@, #[trigger] priors@[s2], i3, window));
                        }
                    }
                }
            }
            i2 = i2 + 1;
        }
        seeded.push(Cluster { coord: priors[s].coord, phase: None, members });
        proof {
            assert(seeded@.last().coord == priors@[s as int].coord);
            assert forall|s2: int, i3: int|
                0 <= s2 < s + 1 && 0 <= i3 < n implies ((#[trigger] seeded@[s2].members@.contains(
                i3 as usize,
            )) <==> (seed_matches(segs@, priors@[s2], i3, window) && forall|s3: int|
                0 <= s3 < s2 ==> !seed_matches(segs@, #[trigger] priors@[s3], i3, window))) by {
                if s2 < s {
                    assert(seeded@[s2] == seeded@.drop_last()[s2]);
                }
            }
        }
        s = s + 1;
    }
    // leftover segments: ordinary sweep over the unclaimed ones, with
    // members remapped to the original indices
    let mut sub: Vec<SplitReadSegment> = Vec::new();
    let mut idxmap: Vec<usize> = Vec::new();
    let mut i4: usize = 0;
    while i4 < n
        invariant
            i4 <= n,
            claimed@.len() == n,
            sub@.len() == idxmap@.len(),
            forall|j: int|
                0 <= j < idxmap@.len() ==> ((#[trigger] idxmap@[j]) as int) < i4 && !claimed@[idxmap@[j] as int]
                    && sub@[j] == segs@[idxmap@[j] as int],
            forall|j1: int, j2: int| 0 <= j1 < j2 < idxmap@.len() ==> idxmap@[j1] < idxmap@[j2],
            forall|i5: int|
                0 <= i5 < i4 && !claimed@[i5] ==> idxmap@.contains(i5 as usize),
        decreases n - i4,
    {
        if !claimed[i4] {
            sub.push(segs[i4]);
            let ghost prev_idx = idxmap@;
            idxmap.push(i4);
            proof {
                assert(idxmap@.drop_last() =~= prev_idx);
                assert(idxmap@[idxmap@.len() - 1] == i4);
                assert forall|i5: int|
                    0 <= i5 < i4 + 1 && !claimed@[i5] implies idxmap@.contains(i5 as usize) by {
                    if i5 < i4 {
                        assert(prev_idx.contains(i5 as usize));
                        let t = choose|t: int| 0 <= t < prev_idx.len() && prev_idx[t] == i5 as usize;
                        assert(idxmap@[t] == i5 as usize);
                    } else {
                        assert(idxmap@[idxmap@.len() - 1] == i5 as usize);
                    }
                }
            }
        }
        i4 = i4 + 1;
    }
    let sub_clusters = sweep_clusters(&sub, window, phase_aware);
    let ghost sub_cs = sub_clusters@;
    proof {
        lemma_coverage_invariant(sub_cs, Seq::empty(), sub@.len() as nat);
    }
    // remap members to original segment indices
    let ghost all_sub = sub_clusters@;
    let mut rest = sub_clusters;
    let mut swept: Vec<Cluster> = Vec::new();
    while rest.len() > 0
        invariant
            rest@.len() <= all_sub.len(),
            rest@ == all_sub.skip(all_sub.len() - rest@.len()),
            swept@.len() == all_sub.len() - rest@.len(),
            sub@.len() == idxmap@.len(),
            forall|j: int|
                0 <= j < idxmap@.len() ==> ((#[trigger] idxmap@[j]) as int) < n && !claimed@[idxmap@[j] as int]
                    && sub@[j] == segs@[idxmap@[j] as int],
            forall|j1: int, j2: int| 0 <= j1 < j2 < idxmap@.len() ==> idxmap@[j1] < idxmap@[j2],
            forall|c: int|
                0 <= c < swept@.len() ==> {
                    let sc = all_sub[c];
                    let wc = #[trigger] swept@[c];
                    &&& wc.coord == sc.coord
                    &&& wc.phase == sc.phase
                    &&& wc.members@.len() == sc.members@.len()
                    &&& forall|k: int|
                        0 <= k < wc.members@.len() ==> (#[trigger] wc.members@[k]) == idxmap@[sc.members@[k] as int]
                },
            forall|c: int| 0 <= c < swept@.len() ==> cluster_wf(segs@, #[trigger] swept@[c], window),
            phase_aware ==> forall|c: int|
                0 <= c < swept@.len() ==> cluster_phase_wf(segs@, #[trigger] swept@[c]),
        decreases rest@.len(),
    {
        let ghost done = all_sub.len() - rest@.len();
        let c = rest.remove(0);
        proof {
            assert(c == all_sub[done]);
            assert(rest@ =~= all_sub.skip(done + 1));
            assert(cluster_wf(sub@, all_sub[done], window));
        }
        let mut mapped: Vec<usize> = Vec::new();
        let mut k: usize = 0;
        while k < c.members.len()
            invariant
                k <= c.members@.len(),
                c == all_sub[done],
                cluster_wf(sub@, c, window),
                mapped@.len() == k,
                forall|k2: int|
                    0 <= k2 < k ==> (#[trigger] mapped@[k2]) == idxmap@[c.members@[k2] as int],
            decreases c.members@.len() - k,
        {
            mapped.push(idxmap[c.members[k]]);
            k = k + 1;
        }
        let wc = Cluster { coord: c.coord, phase: c.phase, members: mapped };
        swept.push(wc);
        proof {
            let cw = swept@.last();
            assert forall|k2: int| 0 <= k2 < cw.members@.len() implies {
                let sg = segs@[#[trigger] cw.members@[k2] as int];
                &&& (cw.members@[k2] as int) < segs@.len()
                &&& sg.clip.chrom == cw.coord.chrom
                &&& sg.clip.fwd == cw.coord.fwd
                &&& cw.coord.pos <= sg.clip.pos <= cw.coord.pos + window
            } by {
                assert(cw.members@[k2] == idxmap@[c.members@[k2] as int]);
                assert(sub@[c.members@[k2] as int] == segs@[cw.members@[k2] as int]);
            }
            assert(cw.members@.len() > 0);
            assert(cw.coord == sub@[c.members@[0] as int].clip);
            assert(cw.coord == segs@[cw.members@[0] as int].clip);
            assert(cluster_wf(segs@, cw, window));
            if phase_aware {
                assert(cluster_phase_wf(sub@, c));
                assert forall|k1: int, k2: int|
                    0 <= k1 < cw.members@.len() && 0 <= k2 < cw.members@.len() implies
                    phases_compatible(
                    segs@[#[trigger] cw.members@[k1] as int].phase,
                    segs@[#[trigger] cw.members@[k2] as int].phase,
                ) by {
                    assert(sub@[c.members@[k1] as int] == segs@[cw.members@[k1] as int]);
                    assert(sub@[c.members@[k2] as int] == segs@[cw.members@[k2] as int]);
                }
                if cw.phase is Some {
                    let k0 = choose|k0: int|
                        0 <= k0 < c.members@.len() && sub@[c.members@[k0] as int].phase == c.phase;
                    assert(segs@[cw.members@[k0] as int].phase == cw.phase);
                }
                if cw.phase is None {
                    assert forall|k2: int| 0 <= k2 < cw.members@.len() implies segs@[(
                    #[trigger] cw.members@[k2]) as int].phase is None by {
                        assert(sub@[c.members@[k2] as int] == segs@[cw.members@[k2] as int]);
                    }
                }
                assert(cluster_phase_wf(segs@, cw));
            }
        }
    }
    proof {
        assert forall|c: int, k: int|
            0 <= c < swept@.len() && 0 <= k < (#[trigger] swept@[c]).members@.len() implies unseeded(
            segs@,
            priors@,
            (#[trigger] swept@[c].members@[k]) as int,
            window,
        ) by {
            let gi = swept@[c].members@[k];
            assert(gi == idxmap@[all_sub[c].members@[k] as int]);
            assert(!claimed@[gi as int]);
        }
        assert forall|c1: int, c2: int, x: usize|
            0 <= c1 < swept@.len() && 0 <= c2 < swept@.len() && c1 != c2
                && #[trigger] swept@[c1].members@.contains(x) implies !(
        #[trigger] swept@[c2].members@.contains(x)) by {
            if swept@[c2].members@.contains(x) {
                let k1 = choose|k1: int|
                    0 <= k1 < swept@[c1].members@.len() && swept@[c1].members@[k1] == x;
                let k2 = choose|k2: int|
                    0 <= k2 < swept@[c2].members@.len() && swept@[c2].members@[k2] == x;
                let j1 = all_sub[c1].members@[k1];
                let j2 = all_sub[c2].members@[k2];
                assert(idxmap@[j1 as int] == x && idxmap@[j2 as int] == x);
                assert(j1 == j2);
                assert(all_sub[c1].members@.contains(j1));
                assert(all_sub[c2].members@.contains(j1));
                assert(false);
            }
        }
        assert forall|i5: int|
            0 <= i5 < segs@.len() && unseeded(segs@, priors@, i5, window) implies in_some_cluster(
            swept@,
            i5 as usize,
        ) by {
            assert(!claimed@[i5]);
            assert(idxmap@.contains(i5 as usize));
            let j = choose|j: int| 0 <= j < idxmap@.len() && idxmap@[j] == i5 as usize;
            assert(index_seq(sub@.len() as nat)[j] == j as usize);
            assert(index_seq(sub@.len() as nat).contains(j as usize));
            assert((members_concat(sub_cs) + Seq::<usize>::empty()).to_multiset().contains(
                j as usize,
            ));
            assert(members_concat(sub_cs) + Seq::<usize>::empty() =~= members_concat(sub_cs));
            assert(members_concat(sub_cs).contains(j as usize));
            lemma_concat_to_cluster(sub_cs, j as usize);
            let c = choose|c: int|
                0 <= c < sub_cs.len() && (#[trigger] sub_cs[c]).members@.contains(j as usize);
            let k = choose|k: int|
                0 <= k < sub_cs[c].members@.len() && sub_cs[c].members@[k] == j as usize;
            assert(swept@[c].members@[k] == idxmap@[j]);
            assert(swept@[c].members@.contains(i5 as usize));
        }
    }
    (seeded, swept)
}

} // verus!
