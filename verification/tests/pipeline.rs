use svtopo::block_filter::{apply_filters, max_depth, run_block_filter, sort_calls};
use svtopo::cluster_connector::{cluster_assignment, connect_clusters, resolve_coord};
use svtopo::cluster_finder::{
    assign_clipped_reads_to_clusters, count_distinct_reads, filter_by_support, find_breaks,
    sorted_order, sweep_clusters,
};
use svtopo::containers::{
    AnnotatedEdge, AnnotatedGraph, AnnotatedNode, ComplexSVCalls, ConnectionKind, Coordinate,
    PriorBreak, SplitReadSegment,
};
use svtopo::event_graph_builder::build_event_graphs;
use svtopo::graph_annotator::{annotate_graphs, classify_exec};
use svtopo::{check_config, log_time, ConfigError};

fn seg(read_id: u64, chrom: u64, pos: u64, fwd: bool, phase: Option<u64>) -> SplitReadSegment {
    SplitReadSegment {
        read_id,
        chrom,
        start: pos.saturating_sub(100),
        end: pos + 100,
        fwd_strand: fwd,
        clip: Coordinate { chrom, pos, fwd },
        phase,
        order_in_read: 0,
        mapq: 60,
    }
}

#[test]
fn two_reads_one_event_graph() {
    // read A at (chr1:1000,+) and (chr1:5000,+); read B at (chr1:1010,+)
    // and (chr1:5010,+); phase-aware disabled
    let segs = vec![
        seg(1, 1, 1000, true, None),
        seg(1, 1, 5000, true, None),
        seg(2, 1, 1010, true, None),
        seg(2, 1, 5010, true, None),
    ];
    let (clusters, dropped) = find_breaks(&segs, 50, false, 1);
    assert_eq!(clusters.len(), 2);
    assert_eq!(dropped.len(), 0);
    assert_eq!(clusters[0].coord, Coordinate { chrom: 1, pos: 1000, fwd: true });
    assert_eq!(clusters[1].coord, Coordinate { chrom: 1, pos: 5000, fwd: true });
    assert_eq!(clusters[0].members.len(), 2);
    assert_eq!(clusters[1].members.len(), 2);

    let ext: Vec<(Coordinate, Coordinate)> = Vec::new();
    let conns = connect_clusters(&segs, &clusters, &ext, false);
    assert_eq!(conns.len(), 1);
    assert_eq!(conns[0].a, 0);
    assert_eq!(conns[0].b, 1);
    assert_eq!(conns[0].reads.len(), 2);
    assert!(!conns[0].external);

    let graphs = build_event_graphs(clusters.len(), &conns);
    assert_eq!(graphs.len(), 1);
    assert_eq!(graphs[0].nodes.len(), 2);
    assert_eq!(graphs[0].edges.len(), 1);

    let calls = annotate_graphs(&clusters, &conns, &graphs);
    assert_eq!(calls.event_graphs.len(), 1);
    let ag = &calls.event_graphs[0];
    assert_eq!(ag.nodes.len(), 2);
    let mut orders: Vec<u64> = ag.nodes.iter().map(|n| n.order).collect();
    orders.sort();
    assert_eq!(orders, vec![0, 1]);
}

#[test]
fn phase_conflict_splits_clusters() {
    // same as above but read A's second segment is haplotype 1 and read
    // B's haplotype 2, phase-aware enabled: no forced merge near 5000
    let segs = vec![
        seg(1, 1, 1000, true, None),
        seg(1, 1, 5000, true, Some(1)),
        seg(2, 1, 1010, true, None),
        seg(2, 1, 5010, true, Some(2)),
    ];
    let (clusters, _dropped) = find_breaks(&segs, 50, true, 1);
    assert_eq!(clusters.len(), 3);
    assert_eq!(clusters[0].coord.pos, 1000);
    assert_eq!(clusters[1].coord.pos, 5000);
    assert_eq!(clusters[2].coord.pos, 5010);
    assert_eq!(clusters[1].phase, Some(1));
    assert_eq!(clusters[2].phase, Some(2));

    let ext: Vec<(Coordinate, Coordinate)> = Vec::new();
    let conns = connect_clusters(&segs, &clusters, &ext, true);
    assert_eq!(conns.len(), 2);
    for cn in &conns {
        assert_eq!(cn.reads.len(), 1);
    }
}

#[test]
fn depth_filter_drops_whole_graph() {
    // a three-node event graph whose region exceeds max_coverage is
    // dropped whole
    let node = |cluster: usize, pos: u64, order: u64| AnnotatedNode {
        cluster,
        coord: Coordinate { chrom: 1, pos, fwd: true },
        order,
    };
    let g = AnnotatedGraph {
        nodes: vec![node(0, 100, 0), node(1, 200, 1), node(2, 300, 2)],
        edges: vec![
            AnnotatedEdge { conn: 0, a: 0, b: 1, kind: ConnectionKind::DeletionLike },
            AnnotatedEdge { conn: 1, a: 1, b: 2, kind: ConnectionKind::DeletionLike },
        ],
    };
    let calls = ComplexSVCalls { event_graphs: vec![g] };
    let depths = vec![900u64];
    let filtered = apply_filters(calls, &depths, 500);
    assert_eq!(filtered.event_graphs.len(), 0);
}

#[test]
fn depth_filter_keeps_low_coverage_graph() {
    let g = AnnotatedGraph {
        nodes: vec![AnnotatedNode {
            cluster: 0,
            coord: Coordinate { chrom: 1, pos: 100, fwd: true },
            order: 0,
        }],
        edges: vec![],
    };
    let calls = ComplexSVCalls { event_graphs: vec![g] };
    let depths = vec![30u64];
    let filtered = apply_filters(calls, &depths, 500);
    assert_eq!(filtered.event_graphs.len(), 1);
}

#[test]
fn filter_bypassed_for_target_region_and_nofilter() {
    let g = AnnotatedGraph {
        nodes: vec![AnnotatedNode {
            cluster: 0,
            coord: Coordinate { chrom: 1, pos: 100, fwd: true },
            order: 0,
        }],
        edges: vec![],
    };
    let depths = vec![9999u64];
    let calls = ComplexSVCalls { event_graphs: vec![g.clone()] };
    let kept = run_block_filter(calls, &depths, 10, true, false);
    assert_eq!(kept.event_graphs.len(), 1);
    let calls2 = ComplexSVCalls { event_graphs: vec![g] };
    let kept2 = run_block_filter(calls2, &depths, 10, false, true);
    assert_eq!(kept2.event_graphs.len(), 1);
}

#[test]
fn clustering_idempotent_on_consensus() {
    let segs = vec![
        seg(1, 1, 1000, true, None),
        seg(2, 1, 1010, true, None),
        seg(3, 2, 700, false, None),
    ];
    let clusters = sweep_clusters(&segs, 50, false);
    assert_eq!(clusters.len(), 2);
    // re-run on the consensus coordinates as single-member inputs
    let again: Vec<SplitReadSegment> = clusters
        .iter()
        .enumerate()
        .map(|(i, c)| {
            let mut s = seg(100 + i as u64, c.coord.chrom, c.coord.pos, c.coord.fwd, c.phase);
            s.clip = c.coord;
            s
        })
        .collect();
    let reclustered = sweep_clusters(&again, 50, false);
    assert_eq!(reclustered.len(), clusters.len());
    for (c1, c2) in clusters.iter().zip(reclustered.iter()) {
        assert_eq!(c1.coord, c2.coord);
        assert_eq!(c2.members.len(), 1);
    }
}

#[test]
fn every_segment_in_exactly_one_cluster() {
    let segs = vec![
        seg(1, 1, 10, true, None),
        seg(2, 1, 12, true, None),
        seg(3, 1, 500, true, None),
        seg(4, 2, 10, false, None),
        seg(5, 1, 11, false, None),
    ];
    let clusters = sweep_clusters(&segs, 25, false);
    let mut seen = vec![0usize; segs.len()];
    for c in &clusters {
        for &m in &c.members {
            seen[m] += 1;
        }
    }
    assert!(seen.iter().all(|&n| n == 1));
}

#[test]
fn low_support_clusters_dropped() {
    let segs = vec![
        seg(1, 1, 10, true, None),
        seg(2, 1, 12, true, None),
        seg(3, 1, 5000, true, None),
    ];
    let (kept, dropped) = find_breaks(&segs, 25, false, 2);
    assert_eq!(kept.len(), 1);
    assert_eq!(kept[0].members.len(), 2);
    assert_eq!(dropped.len(), 1);
    assert_eq!(dropped[0].members, vec![2]);
}

#[test]
fn distinct_read_support_counts_reads_not_segments() {
    let segs = vec![
        seg(7, 1, 10, true, None),
        seg(7, 1, 12, true, None),
        seg(8, 1, 13, true, None),
    ];
    let members = vec![0usize, 1, 2];
    assert_eq!(count_distinct_reads(&segs, &members), 2);
}

#[test]
fn external_connection_injected_and_unresolvable_dropped() {
    let segs = vec![
        seg(1, 1, 1000, true, None),
        seg(2, 1, 5000, false, None),
    ];
    let clusters = sweep_clusters(&segs, 10, false);
    assert_eq!(clusters.len(), 2);
    let ext = vec![
        // resolves onto both clusters
        (
            Coordinate { chrom: 1, pos: 5000, fwd: false },
            Coordinate { chrom: 1, pos: 1000, fwd: true },
        ),
        // endpoint matching no cluster: dropped
        (
            Coordinate { chrom: 1, pos: 1000, fwd: true },
            Coordinate { chrom: 9, pos: 1, fwd: true },
        ),
    ];
    let conns = connect_clusters(&segs, &clusters, &ext, false);
    assert_eq!(conns.len(), 1);
    assert!(conns[0].external);
    assert_eq!(conns[0].reads.len(), 0);
    assert_eq!((conns[0].a, conns[0].b), (0, 1));
}

#[test]
fn seeded_clustering_claims_listed_reads() {
    let segs = vec![
        seg(1, 1, 1000, true, None),
        seg(2, 1, 1004, true, None),
        seg(3, 1, 4000, true, None),
    ];
    let priors = vec![PriorBreak {
        coord: Coordinate { chrom: 1, pos: 1002, fwd: true },
        read_ids: vec![1, 2],
    }];
    let (seeded, swept) = assign_clipped_reads_to_clusters(&segs, &priors, 10, false);
    assert_eq!(seeded.len(), 1);
    assert_eq!(seeded[0].coord.pos, 1002);
    assert_eq!(seeded[0].members, vec![0, 1]);
    assert_eq!(swept.len(), 1);
    assert_eq!(swept[0].members, vec![2]);
}

#[test]
fn singleton_cluster_becomes_singleton_graph() {
    let conns = Vec::new();
    let graphs = build_event_graphs(3, &conns);
    assert_eq!(graphs.len(), 3);
    for g in &graphs {
        assert_eq!(g.nodes.len(), 1);
        assert_eq!(g.edges.len(), 0);
    }
}

#[test]
fn connection_kinds_from_orientations() {
    let co = |chrom: u64, pos: u64, fwd: bool| Coordinate { chrom, pos, fwd };
    assert_eq!(classify_exec(&co(1, 10, true), &co(2, 10, true)), ConnectionKind::TranslocationLike);
    assert_eq!(classify_exec(&co(1, 10, true), &co(1, 90, true)), ConnectionKind::InversionLike);
    assert_eq!(classify_exec(&co(1, 10, false), &co(1, 90, false)), ConnectionKind::InversionLike);
    assert_eq!(classify_exec(&co(1, 10, true), &co(1, 90, false)), ConnectionKind::DeletionLike);
    assert_eq!(classify_exec(&co(1, 10, false), &co(1, 90, true)), ConnectionKind::DuplicationLike);
}

#[test]
fn max_depth_of_intervals() {
    assert_eq!(max_depth(&vec![]), 0);
    assert_eq!(max_depth(&vec![3, 17, 5]), 17);
}

#[test]
fn calls_sorted_by_first_node_coordinate() {
    let graph_at = |chrom: u64, pos: u64| AnnotatedGraph {
        nodes: vec![AnnotatedNode { cluster: 0, coord: Coordinate { chrom, pos, fwd: true }, order: 0 }],
        edges: vec![],
    };
    let calls = ComplexSVCalls {
        event_graphs: vec![graph_at(2, 5), graph_at(1, 900), graph_at(1, 10)],
    };
    let sorted = sort_calls(calls);
    let key: Vec<(u64, u64)> = sorted
        .event_graphs
        .iter()
        .map(|g| (g.nodes[0].coord.chrom, g.nodes[0].coord.pos))
        .collect();
    assert_eq!(key, vec![(1, 10), (1, 900), (2, 5)]);
}

#[test]
fn config_checks_mirror_startup() {
    let plain = b"out".to_vec();
    let underscored = b"o_ut".to_vec();
    assert_eq!(
        check_config(false, true, false, true, true, &plain),
        Err(ConfigError::ReadnamesWithoutVcf)
    );
    assert_eq!(
        check_config(true, false, false, true, true, &plain),
        Err(ConfigError::VcfWithoutReadnames)
    );
    assert_eq!(check_config(false, false, true, false, false, &underscored), Ok(()));
    assert_eq!(
        check_config(false, false, false, false, true, &plain),
        Err(ConfigError::ExcludeRegionsMissing)
    );
    assert_eq!(
        check_config(false, false, false, true, false, &plain),
        Err(ConfigError::OutdirMissing)
    );
    assert_eq!(
        check_config(false, false, false, true, true, &underscored),
        Err(ConfigError::PrefixHasUnderscore)
    );
    assert_eq!(check_config(false, false, false, true, true, &plain), Ok(()));
}

#[test]
fn elapsed_time_breakdown() {
    assert_eq!(log_time(3782), (1, 3, 2));
    assert_eq!(log_time(59), (0, 0, 59));
}

#[test]
fn assignment_maps_members_to_their_cluster() {
    let segs = vec![
        seg(1, 1, 10, true, None),
        seg(2, 1, 1000, true, None),
    ];
    let clusters = sweep_clusters(&segs, 25, false);
    let asg = cluster_assignment(segs.len(), &clusters);
    assert_eq!(asg.len(), 2);
    for (i, a) in asg.iter().enumerate() {
        let c = a.expect("every segment is clustered");
        assert!(clusters[c].members.contains(&i));
    }
}

#[test]
fn resolve_finds_first_matching_cluster() {
    let segs = vec![seg(1, 1, 10, true, None)];
    let clusters = sweep_clusters(&segs, 25, false);
    let hit = resolve_coord(&clusters, &Coordinate { chrom: 1, pos: 10, fwd: true });
    assert_eq!(hit, Some(0));
    let miss = resolve_coord(&clusters, &Coordinate { chrom: 1, pos: 11, fwd: true });
    assert_eq!(miss, None);
}

#[test]
fn sorted_order_is_sorted_permutation() {
    let segs = vec![
        seg(1, 2, 5, true, None),
        seg(2, 1, 9, true, None),
        seg(3, 1, 3, false, None),
    ];
    let order = sorted_order(&segs);
    // reverse orientation sorts before forward on the same chromosome
    assert_eq!(order, vec![2, 1, 0]);
}

#[test]
fn support_filter_is_exact_split() {
    let segs = vec![
        seg(1, 1, 10, true, None),
        seg(2, 1, 12, true, None),
        seg(3, 1, 900, true, None),
    ];
    let clusters = sweep_clusters(&segs, 25, false);
    let (kept, dropped) = filter_by_support(&segs, clusters, 2);
    assert_eq!(kept.len(), 1);
    assert_eq!(dropped.len(), 1);
}

#[test]
fn connection_kept_only_with_phase_consistent_evidence() {
    // read 1's own segment pair carries conflicting tags (1 then 2), so
    // it cannot serve as linking evidence in phase-aware mode; read 2 is
    // unphased and links the same clusters
    let segs = vec![
        seg(1, 1, 1000, true, Some(1)),
        seg(1, 1, 5000, true, Some(2)),
        seg(2, 1, 1001, true, None),
        seg(2, 1, 5001, true, None),
    ];
    let (clusters, _) = find_breaks(&segs, 50, true, 1);
    assert_eq!(clusters.len(), 2);
    let ext: Vec<(Coordinate, Coordinate)> = Vec::new();
    let conns = connect_clusters(&segs, &clusters, &ext, true);
    assert_eq!(conns.len(), 1);
    assert_eq!(conns[0].reads, vec![2]);
}

#[test]
fn forced_unphased_mode_ignores_tags() {
    let segs = vec![
        seg(1, 1, 1000, true, Some(1)),
        seg(1, 1, 5000, true, Some(2)),
        seg(2, 1, 1001, true, None),
        seg(2, 1, 5001, true, None),
    ];
    let (clusters, _) = find_breaks(&segs, 50, false, 1);
    assert_eq!(clusters.len(), 2);
    for c in &clusters {
        assert_eq!(c.phase, None);
        assert_eq!(c.members.len(), 2);
    }
    let ext: Vec<(Coordinate, Coordinate)> = Vec::new();
    let conns = connect_clusters(&segs, &clusters, &ext, false);
    assert_eq!(conns.len(), 1);
    assert_eq!(conns[0].reads.len(), 2);
}
