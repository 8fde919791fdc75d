//! Data model for the breakpoint-resolution pipeline: coordinates,
//! split-read segments, clusters, connections, event graphs and the
//! annotated call collection.
//!
//! Clusters refer to their member segments by index into the input
//! segment vector; connections refer to clusters by index; event graphs
//! refer to clusters and connections by index. Partitioning is therefore
//! a matter of index-set membership.

use vstd::prelude::*;

verus! {

/// One side of a breakpoint: a chromosome (as a numeric identifier), a
/// 0-based position, and an orientation flag telling from which side the
/// adjacent aligned segment extends.
#[derive(Clone, Copy, Debug, PartialEq, Eq, Structural)]
pub struct Coordinate {
    pub chrom: u64,
    pub pos: u64,
    pub fwd: bool,
}

/// One aligned portion of a read that was split across a rearrangement.
/// `clip` is the clipped end of the alignment, i.e. the breakpoint-side
/// coordinate this segment contributes to clustering. `phase` is the
/// haplotype tag, `None` when the read is unphased.
#[derive(Clone, Copy, Debug, PartialEq, Eq, Structural)]
pub struct SplitReadSegment {
    pub read_id: u64,
    pub chrom: u64,
    pub start: u64,
    pub end: u64,
    pub fwd_strand: bool,
    pub clip: Coordinate,
    pub phase: Option<u64>,
    pub order_in_read: u64,
    pub mapq: u64,
}

/// A consensus breakpoint: the consensus coordinate, the haplotype tag
/// shared by the phased members (`None` when all members are unphased or
/// phase handling is off), and the indices of the member segments in the
/// clusterer's input vector.
#[derive(Clone, Debug)]
#[verifier::ext_equal]
pub struct Cluster {
    pub coord: Coordinate,
    pub phase: Option<u64>,
    pub members: Vec<usize>,
}

/// An edge between two clusters, identified by their indices with
/// `a < b`. `reads` is the set (no duplicates) of read identifiers whose
/// split alignments span both clusters; `external` records that a prior
/// call set also supplied this edge.
#[derive(Clone, Debug)]
#[verifier::ext_equal]
pub struct Connection {
    pub a: usize,
    pub b: usize,
    pub reads: Vec<u64>,
    pub external: bool,
}

/// One connected component of the cluster/connection graph: cluster
/// indices as nodes and connection indices as edges.
#[derive(Clone, Debug)]
#[verifier::ext_equal]
pub struct EventGraph {
    pub nodes: Vec<usize>,
    pub edges: Vec<usize>,
}

/// One breakpoint of a previously called variant: its coordinate and
/// the identifiers of the reads reported to support it.
#[derive(Clone, Debug)]
#[verifier::ext_equal]
pub struct PriorBreak {
    pub coord: Coordinate,
    pub read_ids: Vec<u64>,
}

/// The structural relationship a connection represents, derived from the
/// chromosomes and orientation flags of its endpoint coordinates.
#[derive(Clone, Copy, Debug, PartialEq, Eq, Structural)]
pub enum ConnectionKind {
    DeletionLike,
    DuplicationLike,
    InversionLike,
    TranslocationLike,
}

/// A node of an annotated event graph: the cluster it stands for, that
/// cluster's consensus coordinate, and the traversal order index on the
/// inferred derivative allele.
#[derive(Clone, Copy, Debug, PartialEq, Eq, Structural)]
pub struct AnnotatedNode {
    pub cluster: usize,
    pub coord: Coordinate,
    pub order: u64,
}

/// An edge of an annotated event graph: the connection it stands for,
/// its endpoint clusters and their coordinates, and its directionality
/// tag.
#[derive(Clone, Copy, Debug, PartialEq, Eq, Structural)]
pub struct AnnotatedEdge {
    pub conn: usize,
    pub a: usize,
    pub b: usize,
    pub kind: ConnectionKind,
}

/// One fully annotated event graph.
#[derive(Clone, Debug)]
#[verifier::ext_equal]
pub struct AnnotatedGraph {
    pub nodes: Vec<AnnotatedNode>,
    pub edges: Vec<AnnotatedEdge>,
}

/// The finalized collection of annotated event graphs.
#[derive(Clone, Debug)]
#[verifier::ext_equal]
pub struct ComplexSVCalls {
    pub event_graphs: Vec<AnnotatedGraph>,
}

/// Two haplotype tags are compatible when at least one is absent or both
/// are equal.
pub open spec fn phases_compatible(a: Option<u64>, b: Option<u64>) -> bool {
    a is None || b is None || a == b
}

/// Lexicographic order on coordinates: chromosome, then orientation
/// (reverse before forward), then position.
pub open spec fn coord_le(a: Coordinate, b: Coordinate) -> bool {
    if a.chrom != b.chrom {
        a.chrom < b.chrom
    } else if a.fwd != b.fwd {
        !a.fwd
    } else {
        a.pos <= b.pos
    }
}

/// Sort key order for segments: clip chromosome, clip orientation, clip
/// position, then haplotype tag (untagged first), so that spatially tied
/// segments group by phase.
pub open spec fn seg_le(a: SplitReadSegment, b: SplitReadSegment) -> bool {
    if a.clip.chrom != b.clip.chrom {
        a.clip.chrom < b.clip.chrom
    } else if a.clip.fwd != b.clip.fwd {
        !a.clip.fwd
    } else if a.clip.pos != b.clip.pos {
        a.clip.pos < b.clip.pos
    } else {
        phase_rank(a.phase) <= phase_rank(b.phase)
    }
}

/// Total numeric rank of a haplotype tag, used only as a sort tie-break.
pub open spec fn phase_rank(p: Option<u64>) -> int {
    match p {
        None => 0,
        Some(h) => h + 1,
    }
}

/// Exec comparison matching `seg_le`.
pub fn seg_le_exec(a: &SplitReadSegment, b: &SplitReadSegment) -> (r: bool)
    ensures
        r == seg_le(*a, *b),
{
    if a.clip.chrom != b.clip.chrom {
        a.clip.chrom < b.clip.chrom
    } else if a.clip.fwd != b.clip.fwd {
        !a.clip.fwd
    } else if a.clip.pos != b.clip.pos {
        a.clip.pos < b.clip.pos
    } else {
        let ra: u64 = match a.phase {
            None => 0,
            Some(h) => h,
        };
        let rb: u64 = match b.phase {
            None => 0,
            Some(h) => h,
        };
        if a.phase.is_none() {
            true
        } else if b.phase.is_none() {
            false
        } else {
            ra <= rb
        }
    }
}

/// Exec comparison matching `coord_le`.
pub fn coord_le_exec(a: &Coordinate, b: &Coordinate) -> (r: bool)
    ensures
        r == coord_le(*a, *b),
{
    if a.chrom != b.chrom {
        a.chrom < b.chrom
    } else if a.fwd != b.fwd {
        !a.fwd
    } else {
        a.pos <= b.pos
    }
}

/// Exec check matching `phases_compatible`.
pub fn phases_compatible_exec(a: &Option<u64>, b: &Option<u64>) -> (r: bool)
    ensures
        r == phases_compatible(*a, *b),
{
    match (a, b) {
        (None, _) => true,
        (_, None) => true,
        (Some(x), Some(y)) => x == y,
    }
}

} // verus!
