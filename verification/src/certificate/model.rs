//! Public certificate data types.

use vstd::prelude::*;
use vstd::string::StringExecFns;

use crate::diagram::{Bar, Diagram};

use super::algebra::change_views;

verus! {

/// Failure while producing or checking an algebraic certificate.
#[derive(Debug, Clone, PartialEq, Eq)]
pub struct CertificateError {
    pub(crate) message: String,
}

impl CertificateError {
    /// Text of the error.
    pub closed spec fn spec_message(&self) -> Seq<char> {
        self.message@
    }

    /// Error carrying `message`.
    pub fn new(message: String) -> (error: Self)
        ensures
            error.spec_message() == message@,
    {
        Self { message }
    }

    /// Description of the violated certificate rule.
    pub fn message(&self) -> (text: &str)
        ensures
            text@ == self.spec_message(),
    {
        self.message.as_str()
    }

    /// The display text of the error: `reduction certificate: ` followed by
    /// its message.
    pub fn to_string(&self) -> (text: String)
        ensures
            text@ == "reduction certificate: "@ + self.spec_message(),
    {
        let mut text = String::from_str("reduction certificate: ");
        text.append(self.message.as_str());
        text
    }
}

/// Resource limits for certificate production and verification.
#[derive(Debug, Clone, Copy, PartialEq, Eq)]
#[non_exhaustive]
pub struct CertificateLimits {
    /// Largest accepted certificate envelope in bytes.
    pub max_bytes: usize,
    /// Largest accepted vertex count.
    pub max_vertices: usize,
    /// Largest accepted filtered edge count.
    pub max_edges: usize,
    /// Largest accepted filtered triangle count.
    pub max_triangles: usize,
    /// Largest accepted simplex count in any dimension above two.
    pub max_higher_simplices: usize,
    /// Largest homology dimension accepted by a graded certificate.
    pub max_dimension: usize,
    /// Largest accepted total change-of-basis term count.
    pub max_terms: usize,
    /// Largest accepted diagram bar count.
    pub max_bars: usize,
}

/// The default resource limits.
pub open spec fn default_limits() -> CertificateLimits {
    CertificateLimits {
        max_bytes: 1073741824,
        max_vertices: 1_000_000,
        max_edges: 20_000_000,
        max_triangles: 100_000_000,
        max_higher_simplices: 100_000_000,
        max_dimension: 8,
        max_terms: 200_000_000,
        max_bars: 100_000_000,
    }
}

impl Default for CertificateLimits {
    fn default() -> (limits: Self)
        ensures
            limits == default_limits(),
    {
        Self {
            max_bytes: 1073741824,
            max_vertices: 1_000_000,
            max_edges: 20_000_000,
            max_triangles: 100_000_000,
            max_higher_simplices: 100_000_000,
            max_dimension: 8,
            max_terms: 200_000_000,
            max_bars: 100_000_000,
        }
    }
}

impl CertificateLimits {
    /// The default limits with a different envelope byte bound.
    pub fn with_max_bytes(maximum: usize) -> (limits: Self)
        ensures
            limits == (CertificateLimits { max_bytes: maximum, ..default_limits() }),
    {
        CertificateLimits { max_bytes: maximum, ..CertificateLimits::default() }
    }
}

/// One nonzero coefficient in a sparse change-of-basis column.
#[derive(Debug, Clone, Copy, PartialEq, Eq, PartialOrd, Ord)]
pub struct CertificateTerm {
    /// Earlier or current source-column position.
    pub index: usize,
    /// Coefficient in `1..modulus`.
    pub coefficient: u32,
}

/// One filtration-compatible change-of-basis column.
#[derive(Debug, Clone, PartialEq, Eq)]
pub struct ChangeColumn {
    /// Nonzero terms in ascending source-column order.
    pub terms: Vec<CertificateTerm>,
}

impl View for ChangeColumn {
    type V = Seq<CertificateTerm>;

    open spec fn view(&self) -> Seq<CertificateTerm> {
        self.terms@
    }
}

/// How an existing checked reduction was adapted to a changed filtration.
#[derive(Debug, Clone, Copy, PartialEq, Eq)]
pub enum ReductionRepairMode {
    /// Every reduction column remained valid in the same position.
    Reused,
    /// A stable prefix was reused and the remaining columns were reduced.
    SuffixRepaired,
    /// No reduction column could be reused.
    Rebuilt,
}

/// Exact algebraic work charged to one reduction repair.
#[derive(Debug, Clone, Copy, Default, PartialEq, Eq)]
pub struct ReductionRepairWork {
    /// Edge-boundary columns retained without reduction.
    pub edge_columns_reused: usize,
    /// Edge-boundary columns reduced after the retained prefix.
    pub edge_columns_reduced: usize,
    /// Triangle-boundary columns retained without reduction.
    pub triangle_columns_reused: usize,
    /// Triangle-boundary columns reduced after the retained prefix.
    pub triangle_columns_reduced: usize,
    /// Sparse column additions performed by the repair.
    pub column_additions: usize,
}

impl ReductionRepairWork {
    /// Total boundary columns in the repaired reduction.
    pub fn columns(&self) -> (total: usize)
        requires
            self.edge_columns_reused + self.edge_columns_reduced + self.triangle_columns_reused
                + self.triangle_columns_reduced <= usize::MAX,
        ensures
            total == self.edge_columns_reused + self.edge_columns_reduced
                + self.triangle_columns_reused + self.triangle_columns_reduced,
    {
        self.edge_columns_reused + self.edge_columns_reduced + self.triangle_columns_reused
            + self.triangle_columns_reduced
    }

    /// Columns retained without another reduction pass.
    pub fn columns_reused(&self) -> (total: usize)
        requires
            self.edge_columns_reused + self.triangle_columns_reused <= usize::MAX,
        ensures
            total == self.edge_columns_reused + self.triangle_columns_reused,
    {
        self.edge_columns_reused + self.triangle_columns_reused
    }

    /// Columns processed by the repair reduction.
    pub fn columns_reduced(&self) -> (total: usize)
        requires
            self.edge_columns_reduced + self.triangle_columns_reduced <= usize::MAX,
        ensures
            total == self.edge_columns_reduced + self.triangle_columns_reduced,
    {
        self.edge_columns_reduced + self.triangle_columns_reduced
    }
}

/// How a repair with the given work adapted its reduction.
pub open spec fn spec_repair_mode(work: ReductionRepairWork) -> ReductionRepairMode {
    if work.edge_columns_reduced + work.triangle_columns_reduced == 0 {
        ReductionRepairMode::Reused
    } else if work.edge_columns_reused + work.triangle_columns_reused == 0 {
        ReductionRepairMode::Rebuilt
    } else {
        ReductionRepairMode::SuffixRepaired
    }
}

/// A repair reused every column when it reduced none; it rebuilt the
/// reduction when it reduced some column and reused no column of either
/// dimension; otherwise it reused a prefix and repaired the rest.
pub proof fn lemma_repair_mode_meaning(work: ReductionRepairWork)
    ensures
        spec_repair_mode(work) == ReductionRepairMode::Reused <==> work.edge_columns_reduced == 0
            && work.triangle_columns_reduced == 0,
        spec_repair_mode(work) == ReductionRepairMode::Rebuilt <==> (work.edge_columns_reduced > 0
            || work.triangle_columns_reduced > 0) && work.edge_columns_reused == 0 && work.triangle_columns_reused
            == 0,
        spec_repair_mode(work) == ReductionRepairMode::SuffixRepaired <==> (work.edge_columns_reduced > 0
            || work.triangle_columns_reduced > 0) && (work.edge_columns_reused > 0 || work.triangle_columns_reused
            > 0),
{
}

/// Classify a repair by its reused and reduced column counts.
pub fn repair_mode(work: ReductionRepairWork) -> (mode: ReductionRepairMode)
    ensures
        mode == spec_repair_mode(work),
        mode == ReductionRepairMode::Rebuilt ==> work.edge_columns_reused == 0 && work.triangle_columns_reused == 0,
{
    proof {
        lemma_repair_mode_meaning(work);
    }
    if work.edge_columns_reduced == 0 && work.triangle_columns_reduced == 0 {
        ReductionRepairMode::Reused
    } else if work.edge_columns_reused == 0 && work.triangle_columns_reused == 0 {
        ReductionRepairMode::Rebuilt
    } else {
        ReductionRepairMode::SuffixRepaired
    }
}

/// One simplex named by its ascending vertex labels.
#[derive(Debug, Clone, PartialEq, Eq, PartialOrd, Ord, Hash)]
pub struct FiltrationSimplex {
    pub(crate) vertices: Vec<usize>,
}

impl View for FiltrationSimplex {
    type V = Seq<usize>;

    closed spec fn view(&self) -> Seq<usize> {
        self.vertices@
    }
}

impl FiltrationSimplex {
    /// Simplex with the given vertex labels.
    pub fn new(vertices: Vec<usize>) -> (simplex: Self)
        ensures
            simplex@ == vertices@,
    {
        Self { vertices }
    }

    /// A vertex-by-vertex copy.
    pub fn duplicate(&self) -> (copy: Self)
        ensures
            copy@ == self@,
    {
        let mut vertices: Vec<usize> = Vec::new();
        let mut index: usize = 0;
        while index < self.vertices.len()
            invariant
                index <= self.vertices@.len(),
                vertices@ == self.vertices@.take(index as int),
            decreases self.vertices@.len() - index,
        {
            vertices.push(self.vertices[index]);
            index += 1;
            assert(vertices@ =~= self.vertices@.take(index as int));
        }
        assert(vertices@ =~= self.vertices@);
        Self { vertices }
    }

    /// Simplex dimension: one less than the vertex count, and zero for an
    /// empty vertex list.
    pub fn dimension(&self) -> (dimension: usize)
        ensures
            dimension == if self@.len() == 0 {
                0
            } else {
                (self@.len() - 1) as usize
            },
    {
        self.vertices.len().saturating_sub(1)
    }

    /// Ascending vertex labels.
    pub fn vertices(&self) -> (vertices: &[usize])
        ensures
            vertices@ == self@,
    {
        self.vertices.as_slice()
    }
}

/// Algebraic reason that one filtration comparison must remain true.
#[derive(Debug, Clone, Copy, PartialEq, Eq, Structural, PartialOrd, Ord, Hash)]
#[non_exhaustive]
pub enum ReductionGuardKind {
    /// A source term in `V` must not follow its target column.
    ChangeOfBasis,
    /// A reduced-column term must not follow the declared pivot.
    Pivot,
}

/// One comparison sufficient to preserve a checked reduction.
#[derive(Debug, Clone, PartialEq, Eq, PartialOrd, Ord, Hash)]
pub struct ReductionGuard {
    pub(crate) kind: ReductionGuardKind,
    pub(crate) earlier: FiltrationSimplex,
    pub(crate) later: FiltrationSimplex,
}

impl ReductionGuard {
    /// Why the comparison is required.
    pub closed spec fn spec_kind(&self) -> ReductionGuardKind {
        self.kind
    }

    /// Simplex that must not follow the later one.
    pub closed spec fn spec_earlier(&self) -> FiltrationSimplex {
        self.earlier
    }

    /// Simplex that must not precede the earlier one.
    pub closed spec fn spec_later(&self) -> FiltrationSimplex {
        self.later
    }

    /// Guard of `kind` requiring `earlier` not to follow `later`.
    pub fn new(
        kind: ReductionGuardKind,
        earlier: FiltrationSimplex,
        later: FiltrationSimplex,
    ) -> (guard: Self)
        ensures
            guard.spec_kind() == kind,
            guard.spec_earlier() == earlier,
            guard.spec_later() == later,
    {
        Self { kind, earlier, later }
    }

    /// Why the comparison is required.
    pub fn kind(&self) -> (kind: ReductionGuardKind)
        ensures
            kind == self.spec_kind(),
    {
        self.kind
    }

    /// Simplex that must not follow [`Self::later`].
    pub fn earlier(&self) -> (simplex: &FiltrationSimplex)
        ensures
            *simplex == self.spec_earlier(),
    {
        &self.earlier
    }

    /// Simplex that must not precede [`Self::earlier`].
    pub fn later(&self) -> (simplex: &FiltrationSimplex)
        ensures
            *simplex == self.spec_later(),
    {
        &self.later
    }
}

/// Kind of failed condition in a certified reduction region.
#[derive(Debug, Clone, Copy, PartialEq, Eq)]
#[non_exhaustive]
pub enum RegionViolationKind {
    /// The labeled vertex set changed.
    VertexSetChanged,
    /// The complete listed edge set changed.
    EdgeSetChanged,
    /// An edge crossed the fixed threshold.
    ThresholdCrossing,
    /// A required filtration comparison reversed.
    GuardFailed,
}

/// One condition that prevents reuse of a certified reduction.
#[derive(Debug, Clone, PartialEq, Eq)]
pub struct RegionViolation {
    pub(crate) kind: RegionViolationKind,
    pub(crate) guard_index: Option<usize>,
    pub(crate) first: Option<FiltrationSimplex>,
    pub(crate) second: Option<FiltrationSimplex>,
}

impl RegionViolation {
    /// Kind of failed condition.
    pub closed spec fn spec_kind(&self) -> RegionViolationKind {
        self.kind
    }

    /// Index of the failed guard, when a guard failed.
    pub closed spec fn spec_guard_index(&self) -> Option<usize> {
        self.guard_index
    }

    /// First affected simplex, when one is available.
    pub closed spec fn spec_first(&self) -> Option<FiltrationSimplex> {
        self.first
    }

    /// Second affected simplex, when one is available.
    pub closed spec fn spec_second(&self) -> Option<FiltrationSimplex> {
        self.second
    }

    /// Violation record with the given parts.
    pub(crate) fn new(
        kind: RegionViolationKind,
        guard_index: Option<usize>,
        first: Option<FiltrationSimplex>,
        second: Option<FiltrationSimplex>,
    ) -> (violation: Self)
        ensures
            violation.spec_kind() == kind,
            violation.spec_guard_index() == guard_index,
            violation.spec_first() == first,
            violation.spec_second() == second,
    {
        Self { kind, guard_index, first, second }
    }

    /// Kind of failed condition.
    pub fn kind(&self) -> (kind: RegionViolationKind)
        ensures
            kind == self.spec_kind(),
    {
        self.kind
    }

    /// Index in the region's guard list, when a guard failed.
    pub fn guard_index(&self) -> (index: Option<usize>)
        ensures
            index == self.spec_guard_index(),
    {
        self.guard_index
    }

    /// First affected simplex, when one is available.
    pub fn first(&self) -> (simplex: Option<&FiltrationSimplex>)
        ensures
            simplex == match self.spec_first() {
                Some(value) => Some(&value),
                None => None::<&FiltrationSimplex>,
            },
    {
        match &self.first {
            Some(value) => Some(value),
            None => None,
        }
    }

    /// Second affected simplex, when one is available.
    pub fn second(&self) -> (simplex: Option<&FiltrationSimplex>)
        ensures
            simplex == match self.spec_second() {
                Some(value) => Some(&value),
                None => None::<&FiltrationSimplex>,
            },
    {
        match &self.second {
            Some(value) => Some(value),
            None => None,
        }
    }
}


/// Mathematical content of a reduction certificate.
pub struct CertificateView {
    /// Labeled vertex count of the certified graph.
    pub vertex_count: usize,
    /// Bit pattern of the filtration threshold, if any.
    pub threshold: Option<u64>,
    /// Prime coefficient modulus.
    pub modulus: u32,
    /// Digest binding the thresholded graph.
    pub graph_digest: Seq<u8>,
    /// Change columns of the edge boundary matrix.
    pub edge_columns: Seq<Seq<CertificateTerm>>,
    /// Change columns of the triangle boundary matrix.
    pub triangle_columns: Seq<Seq<CertificateTerm>>,
    /// Recorded diagram intervals.
    pub bars: Seq<Bar>,
}

/// Proof that a filtered boundary matrix has the declared reduced pivots.
#[derive(Debug, Clone)]
pub struct ReductionCertificate {
    pub(crate) vertex_count: usize,
    pub(crate) threshold: Option<u64>,
    pub(crate) modulus: u32,
    pub(crate) graph_digest: [u8; 32],
    pub(crate) edge_columns: Vec<ChangeColumn>,
    pub(crate) triangle_columns: Vec<ChangeColumn>,
    pub(crate) diagram: Diagram,
}

impl View for ReductionCertificate {
    type V = CertificateView;

    closed spec fn view(&self) -> CertificateView {
        CertificateView {
            vertex_count: self.vertex_count,
            threshold: self.threshold,
            modulus: self.modulus,
            graph_digest: self.graph_digest@,
            edge_columns: change_views(self.edge_columns@),
            triangle_columns: change_views(self.triangle_columns@),
            bars: self.diagram@,
        }
    }
}

impl ReductionCertificate {
    /// The view holds exactly the fields.
    pub(crate) proof fn lemma_view(&self)
        ensures
            self@.vertex_count == self.vertex_count,
            self@.threshold == self.threshold,
            self@.modulus == self.modulus,
            self@.graph_digest == self.graph_digest@,
            self@.edge_columns == change_views(self.edge_columns@),
            self@.triangle_columns == change_views(self.triangle_columns@),
            self@.bars == self.diagram@,
    {
    }

    /// Labeled vertex count bound to the certificate.
    pub fn vertex_count(&self) -> (count: usize)
        ensures
            count == self@.vertex_count,
    {
        self.vertex_count
    }

    /// Bit pattern of the filtration threshold, if any.
    pub fn threshold(&self) -> (threshold: Option<u64>)
        ensures
            threshold == self@.threshold,
    {
        self.threshold
    }

    /// Prime coefficient modulus.
    pub fn modulus(&self) -> (modulus: u32)
        ensures
            modulus == self@.modulus,
    {
        self.modulus
    }

    /// Digest of the thresholded graph.
    pub fn graph_digest(&self) -> (digest: &[u8; 32])
        ensures
            digest@ == self@.graph_digest,
    {
        &self.graph_digest
    }

    /// Edge-matrix change columns.
    pub fn edge_columns(&self) -> (columns: &[ChangeColumn])
        ensures
            change_views(columns@) == self@.edge_columns,
    {
        self.edge_columns.as_slice()
    }

    /// Triangle-matrix change columns.
    pub fn triangle_columns(&self) -> (columns: &[ChangeColumn])
        ensures
            change_views(columns@) == self@.triangle_columns,
    {
        self.triangle_columns.as_slice()
    }

    /// Recorded persistence diagram.
    pub fn diagram(&self) -> (diagram: &Diagram)
        ensures
            diagram@ == self@.bars,
    {
        &self.diagram
    }
}

} // verus!
