//! Adapting a checked reduction to new weights on the same listed graph:
//! repairing it, or reindexing it when every guard still holds.

use vstd::prelude::*;

use crate::diagram::INFINITY_BITS;
use crate::digest::sha256;
use crate::field::supported_modulus;
use crate::graph::{active_at, at_most, endpoints, value_at_most, WeightedEdge};
use crate::text::literal;

use super::algebra::{change_views, column_views};
use super::checked::{certifies, check_reductions, reduction_certified, reduces_to, threshold_bits, verification_refused};
use super::complex::{
    edge_boundary_views, edge_row_table, more_triangles_than, simple_graph, triangle_boundary_views, FilteredComplex,
    FilteredEdge, FilteredTriangle,
};
use super::matrix::valid_reduction;
use super::model::{
    repair_mode, spec_repair_mode, CertificateError, CertificateLimits, CertificateView, ChangeColumn, ReductionCertificate, ReductionRepairMode,
    ReductionRepairWork,
};
use super::repair::{
    carried_column, dimension_refused, lemma_ordered_pairs, retains_longest_prefix, lemma_ordered_triples, reindex_change_columns, reindexable,
    repair_dimension,
};
use super::verify::{checked_threshold, graph_digest, graph_message, valid_threshold};

verus! {

/// The kind of update a reduction undergoes.
#[derive(Debug, Clone, Copy, PartialEq, Eq)]
pub enum UpdateOperation {
    /// A repair that may reduce a suffix again.
    Repair,
    /// A reindexing that reduces nothing.
    Reindexing,
}

/// The message refusing an update whose vertex set changed.
pub open spec fn vertex_set_message(operation: UpdateOperation) -> Seq<char> {
    match operation {
        UpdateOperation::Repair => "reduction repair requires an unchanged vertex set"@,
        UpdateOperation::Reindexing => "reduction reindexing requires an unchanged vertex set"@,
    }
}

/// The message refusing an update whose listed edges changed.
pub open spec fn edge_set_message(operation: UpdateOperation) -> Seq<char> {
    match operation {
        UpdateOperation::Repair => "reduction repair requires an unchanged listed edge set"@,
        UpdateOperation::Reindexing => "reduction reindexing requires an unchanged listed edge set"@,
    }
}

/// The message refusing a repair whose threshold membership changed.
pub open spec fn membership_message() -> Seq<char> {
    "reduction repair requires unchanged threshold membership"@
}

/// Whether each listed edge lies within `threshold`.
pub open spec fn membership(edges: Seq<WeightedEdge>, threshold: u64) -> Seq<bool> {
    Seq::new(edges.len(), |i: int| value_at_most(edges[i].2, threshold))
}

/// Both graphs have the same vertices and the same listed edges.
pub open spec fn same_topology(
    current_count: usize,
    current: Seq<WeightedEdge>,
    updated_count: usize,
    updated: Seq<WeightedEdge>,
) -> bool {
    current_count == updated_count && endpoints(current) == endpoints(updated)
}

/// The message of the first topology rule an update breaks, if any.
pub open spec fn topology_failure(
    operation: UpdateOperation,
    current_count: usize,
    current: Seq<WeightedEdge>,
    updated_count: usize,
    updated: Seq<WeightedEdge>,
) -> Option<Seq<char>> {
    if current_count != updated_count {
        Some(vertex_set_message(operation))
    } else if endpoints(current) != endpoints(updated) {
        Some(edge_set_message(operation))
    } else {
        None
    }
}

/// Refuses an update that changes the vertex count or the listed edges.
pub fn check_update_topology(
    operation: UpdateOperation,
    current_count: usize,
    current: &[WeightedEdge],
    updated_count: usize,
    updated: &[WeightedEdge],
) -> (result: Result<(), CertificateError>)
    ensures
        result is Ok <==> topology_failure(operation, current_count, current@, updated_count, updated@) is None,
        topology_failure(operation, current_count, current@, updated_count, updated@) matches Some(message) ==> (
        result matches Err(error) && error.spec_message() == message),
{
    if current_count != updated_count {
        let message = match operation {
            UpdateOperation::Repair => literal("reduction repair requires an unchanged vertex set"),
            UpdateOperation::Reindexing => literal("reduction reindexing requires an unchanged vertex set"),
        };
        return Err(CertificateError::new(message));
    }
    let same_length = current.len() == updated.len();
    let mut index: usize = 0;
    let mut same = same_length;
    proof {
        if !same_length {
            assert(endpoints(current@).len() != endpoints(updated@).len());
        }
    }
    while same && index < current.len()
        invariant
            same ==> current@.len() == updated@.len(),
            index <= current@.len(),
            same ==> forall|i: int| 0 <= i < index ==> endpoints(current@)[i] == endpoints(updated@)[i],
            !same ==> endpoints(current@) != endpoints(updated@),
        decreases current@.len() - index, if same { 1int } else { 0int },
    {
        if current[index].0 != updated[index].0 || current[index].1 != updated[index].1 {
            proof {
                assert(endpoints(current@)[index as int] != endpoints(updated@)[index as int]);
            }
            same = false;
        } else {
            index += 1;
        }
    }
    if !same {
        let message = match operation {
            UpdateOperation::Repair => literal("reduction repair requires an unchanged listed edge set"),
            UpdateOperation::Reindexing => literal("reduction reindexing requires an unchanged listed edge set"),
        };
        return Err(CertificateError::new(message));
    }
    proof {
        assert(endpoints(current@) =~= endpoints(updated@));
    }
    Ok(())
}

/// Refuses a repair that changes the topology or the membership of a listed
/// edge below `threshold`.
pub fn check_update_contract(
    current_count: usize,
    current: &[WeightedEdge],
    updated_count: usize,
    updated: &[WeightedEdge],
    threshold: u64,
) -> (result: Result<(), CertificateError>)
    ensures
        result is Ok <==> topology_failure(UpdateOperation::Repair, current_count, current@, updated_count, updated@)
            is None && membership(current@, threshold) == membership(updated@, threshold),
        topology_failure(UpdateOperation::Repair, current_count, current@, updated_count, updated@) matches Some(message)
            ==> (result matches Err(error) && error.spec_message() == message),
        topology_failure(UpdateOperation::Repair, current_count, current@, updated_count, updated@) is None && membership(
            current@,
            threshold,
        ) != membership(updated@, threshold) ==> (result matches Err(error) && error.spec_message()
            == membership_message()),
{
    check_update_topology(UpdateOperation::Repair, current_count, current, updated_count, updated)?;
    proof {
        assert(endpoints(current@).len() == current@.len());
        assert(endpoints(updated@).len() == updated@.len());
    }
    let mut index: usize = 0;
    while index < current.len()
        invariant
            current@.len() == updated@.len(),
            topology_failure(UpdateOperation::Repair, current_count, current@, updated_count, updated@) is None,
            index <= current@.len(),
            forall|i: int| 0 <= i < index ==> membership(current@, threshold)[i] == membership(updated@, threshold)[i],
        decreases current@.len() - index,
    {
        if at_most(current[index].2, threshold) != at_most(updated[index].2, threshold) {
            proof {
                assert(membership(current@, threshold)[index as int] != membership(updated@, threshold)[index as int]);
            }
            return Err(CertificateError::new(literal("reduction repair requires unchanged threshold membership")));
        }
        index += 1;
    }
    proof {
        assert(membership(current@, threshold) =~= membership(updated@, threshold));
    }
    Ok(())
}

/// Vertex pairs of filtered edges, in their order.
pub open spec fn edge_vertices(edges: Seq<FilteredEdge>) -> Seq<(usize, usize)> {
    Seq::new(edges.len(), |j: int| edges[j].vertices)
}

/// Vertex triples of filtered triangles, in their order.
pub open spec fn triangle_vertices(triangles: Seq<FilteredTriangle>) -> Seq<(usize, usize, usize)> {
    Seq::new(triangles.len(), |j: int| triangles[j].vertices)
}

/// The repair of the certificate's reduction from the complex `old` to
/// the complex `new` is refused in the edge or in the triangle dimension.
pub open spec fn repair_refused(
    certificate: CertificateView,
    old: FilteredComplex,
    new: FilteredComplex,
    limits: CertificateLimits,
) -> bool {
    let p = certificate.modulus as nat;
    ||| exists|columns: Seq<ChangeColumn>|
        #[trigger] change_views(columns) == certificate.edge_columns && dimension_refused(
            edge_vertices(old.edges@),
            edge_vertices(new.edges@),
            columns,
            p,
            limits.max_terms as nat,
        )
    ||| exists|columns: Seq<ChangeColumn>|
        #[trigger] change_views(columns) == certificate.triangle_columns && dimension_refused(
            triangle_vertices(old.triangles@),
            triangle_vertices(new.triangles@),
            columns,
            p,
            limits.max_terms as nat,
        )
}

/// Reindexing the certificate's reduction from the complex `old` to the
/// complex `new` is refused: the simplex counts differ, a dimension cannot
/// be reindexed, or the reindexed columns are not a valid reduction of the
/// new boundary matrices.
pub open spec fn reindex_refused(
    certificate: CertificateView,
    old: FilteredComplex,
    new: FilteredComplex,
    limits: CertificateLimits,
) -> bool {
    let p = certificate.modulus as nat;
    ||| old.edges@.len() != new.edges@.len()
    ||| old.triangles@.len() != new.triangles@.len()
    ||| exists|columns: Seq<ChangeColumn>|
        #[trigger] change_views(columns) == certificate.edge_columns && !reindexable(
            edge_vertices(old.edges@),
            edge_vertices(new.edges@),
            columns,
        )
    ||| exists|columns: Seq<ChangeColumn>|
        #[trigger] change_views(columns) == certificate.triangle_columns && !reindexable(
            triangle_vertices(old.triangles@),
            triangle_vertices(new.triangles@),
            columns,
        )
    ||| exists|edge_columns: Seq<ChangeColumn>, triangle_columns: Seq<ChangeColumn>, carried_edges: Seq<ChangeColumn>, carried_triangles: Seq<ChangeColumn>|
        #![trigger change_views(edge_columns), change_views(triangle_columns), change_views(carried_edges), change_views(carried_triangles)]
        change_views(edge_columns) == certificate.edge_columns && change_views(triangle_columns)
            == certificate.triangle_columns && carried_edges.len() == new.edges@.len() && carried_triangles.len()
            == new.triangles@.len() && (forall|target: int|
            0 <= target < carried_edges.len() ==> carried_column(
                edge_vertices(old.edges@),
                edge_vertices(new.edges@),
                edge_columns,
                target,
                #[trigger] carried_edges[target]@,
            )) && (forall|target: int|
            0 <= target < carried_triangles.len() ==> carried_column(
                triangle_vertices(old.triangles@),
                triangle_vertices(new.triangles@),
                triangle_columns,
                target,
                #[trigger] carried_triangles[target]@,
            )) && !(valid_reduction(
            edge_boundary_views(new.edges@, p),
            change_views(carried_edges),
            p,
            limits.max_terms as nat,
        ) && valid_reduction(
            triangle_boundary_views(edge_row_table(new.edge_rows), new.triangles@, p),
            change_views(carried_triangles),
            p,
            limits.max_terms as nat,
        ))
}

/// Vertex pairs of the complex's edges, in filtration order.
fn complex_edges(edges: &[FilteredEdge]) -> (keys: Vec<(usize, usize)>)
    ensures
        keys@ == edge_vertices(edges@),
{
    let mut keys: Vec<(usize, usize)> = Vec::new();
    let mut index: usize = 0;
    while index < edges.len()
        invariant
            index <= edges@.len(),
            keys@ == Seq::new(index as nat, |j: int| edges@[j].vertices),
        decreases edges@.len() - index,
    {
        keys.push(edges[index].vertices);
        index += 1;
        assert(keys@ =~= Seq::new(index as nat, |j: int| edges@[j].vertices));
    }
    keys
}

/// Vertex triples of the complex's triangles, in filtration order.
fn complex_triangles(triangles: &[FilteredTriangle]) -> (keys: Vec<(usize, usize, usize)>)
    ensures
        keys@ == triangle_vertices(triangles@),
{
    let mut keys: Vec<(usize, usize, usize)> = Vec::new();
    let mut index: usize = 0;
    while index < triangles.len()
        invariant
            index <= triangles@.len(),
            keys@ == Seq::new(index as nat, |j: int| triangles@[j].vertices),
        decreases triangles@.len() - index,
    {
        keys.push(triangles[index].vertices);
        index += 1;
        assert(keys@ =~= Seq::new(index as nat, |j: int| triangles@[j].vertices));
    }
    keys
}

/// The new certificate certifies the updated graph: the facts that make
/// the checked reduction of its complex a certified one.
pub(crate) proof fn lemma_new_certificate(
    certificate: &ReductionCertificate,
    vertex_count: usize,
    edges: Seq<WeightedEdge>,
    limits: CertificateLimits,
    complex: FilteredComplex,
    reduced_edges: Seq<super::sparse::SparseColumn>,
    reduced_triangles: Seq<super::sparse::SparseColumn>,
)
    requires
        supported_modulus(certificate@.modulus as nat),
        vertex_count <= limits.max_vertices,
        vertex_count == certificate@.vertex_count,
        valid_threshold(certificate@.threshold),
        certificate@.graph_digest == sha256(graph_message(vertex_count, edges, threshold_bits(certificate@.threshold))),
        complex.filters(vertex_count, edges, threshold_bits(certificate@.threshold)),
        complex.triangles@.len() <= limits.max_triangles,
        super::matrix::valid_reduction(
            edge_boundary_views(complex.edges@, certificate@.modulus as nat),
            certificate@.edge_columns,
            certificate@.modulus as nat,
            limits.max_terms as nat,
        ),
        super::matrix::valid_reduction(
            triangle_boundary_views(edge_row_table(complex.edge_rows), complex.triangles@, certificate@.modulus as nat),
            certificate@.triangle_columns,
            certificate@.modulus as nat,
            limits.max_terms as nat,
        ),
        reduced_edges.len() == certificate@.edge_columns.len(),
        reduced_triangles.len() == certificate@.triangle_columns.len(),
        forall|j: int|
            0 <= j < reduced_edges.len() ==> reduces_to(
                edge_boundary_views(complex.edges@, certificate@.modulus as nat),
                certificate@.edge_columns[j],
                certificate@.modulus as nat,
                #[trigger] reduced_edges[j]@,
            ),
        forall|j: int|
            0 <= j < reduced_triangles.len() ==> reduces_to(
                triangle_boundary_views(edge_row_table(complex.edge_rows), complex.triangles@, certificate@.modulus as nat),
                certificate@.triangle_columns[j],
                certificate@.modulus as nat,
                #[trigger] reduced_triangles[j]@,
            ),
        super::checked::canonical_form(
            certificate@.bars,
            super::checked::raw_bars(
                vertex_count,
                complex.edges@,
                column_views(reduced_edges),
                complex.triangles@,
                column_views(reduced_triangles),
            ),
        ),
    ensures
        certifies(certificate@, vertex_count, edges, limits),
{
    let p = certificate@.modulus as nat;
    let re = column_views(reduced_edges);
    let rt = column_views(reduced_triangles);
    assert forall|j: int| 0 <= j < re.len() implies reduces_to(
        edge_boundary_views(complex.edges@, p),
        certificate@.edge_columns[j],
        p,
        #[trigger] re[j],
    ) by {
        assert(re[j] == reduced_edges[j]@);
    }
    assert forall|j: int| 0 <= j < rt.len() implies reduces_to(
        triangle_boundary_views(edge_row_table(complex.edge_rows), complex.triangles@, p),
        certificate@.triangle_columns[j],
        p,
        #[trigger] rt[j],
    ) by {
        assert(rt[j] == reduced_triangles[j]@);
    }
    assert(reduction_certified(certificate@, vertex_count, edges, limits, complex, re, rt));
}

/// A repaired certificate with the mode and work of its repair.
#[derive(Debug, Clone)]
pub struct ReductionRepair {
    pub(crate) certificate: ReductionCertificate,
    pub(crate) mode: ReductionRepairMode,
    pub(crate) work: ReductionRepairWork,
}

impl ReductionRepair {
    /// The repaired certificate.
    pub closed spec fn spec_certificate(&self) -> ReductionCertificate {
        self.certificate
    }

    /// How the repair adapted the reduction.
    pub closed spec fn spec_mode(&self) -> ReductionRepairMode {
        self.mode
    }

    /// The work the repair charged.
    pub closed spec fn spec_work(&self) -> ReductionRepairWork {
        self.work
    }

    /// Repaired certificate bound to the updated graph.
    pub fn certificate(&self) -> (certificate: &ReductionCertificate)
        ensures
            *certificate == self.spec_certificate(),
    {
        &self.certificate
    }

    /// Reuse classification.
    pub fn mode(&self) -> (mode: ReductionRepairMode)
        ensures
            mode == self.spec_mode(),
    {
        self.mode
    }

    /// Exact repair work.
    pub fn work(&self) -> (work: ReductionRepairWork)
        ensures
            work == self.spec_work(),
    {
        self.work
    }

    /// Consume the repair and return its certificate.
    pub fn into_certificate(self) -> (certificate: ReductionCertificate)
        ensures
            certificate == self.spec_certificate(),
    {
        self.certificate
    }
}

impl ReductionCertificate {
    /// Adapts this checked reduction to new weights on the same listed
    /// graph.
    ///
    /// The repair reindexes dependencies by simplex identity in each
    /// boundary dimension. It retains the longest unit-triangular prefix
    /// whose recomputed columns still have distinct pivots, then reduces the
    /// suffix. The current graph must match this certificate; the updated
    /// graph must keep the vertex set, the listed edges, and threshold
    /// membership.
    pub fn repair(
        &self,
        current_count: usize,
        current: &[WeightedEdge],
        updated_count: usize,
        updated: &[WeightedEdge],
        limits: CertificateLimits,
    ) -> (result: Result<ReductionRepair, CertificateError>)
        requires
            simple_graph(current_count, current@),
            simple_graph(updated_count, updated@),
            current_count <= 0x400_0000_0000,
            updated_count <= 0x400_0000_0000,
        ensures
            result matches Ok(repair) ==> {
                let threshold = threshold_bits(self@.threshold);
                &&& certifies(self@, current_count, current@, limits)
                &&& topology_failure(UpdateOperation::Repair, current_count, current@, updated_count, updated@) is None
                &&& membership(current@, threshold) == membership(updated@, threshold)
                &&& repair.spec_certificate()@.vertex_count == updated_count
                &&& repair.spec_certificate()@.threshold == self@.threshold
                &&& repair.spec_certificate()@.modulus == self@.modulus
                &&& certifies(repair.spec_certificate()@, updated_count, updated@, limits)
                &&& repair.spec_mode() == spec_repair_mode(repair.spec_work())
                &&& repair.spec_work().edge_columns_reused + repair.spec_work().edge_columns_reduced
                    == repair.spec_certificate()@.edge_columns.len()
                &&& repair.spec_work().triangle_columns_reused + repair.spec_work().triangle_columns_reduced
                    == repair.spec_certificate()@.triangle_columns.len()
                &&& exists|old: FilteredComplex, new: FilteredComplex, edge_columns: Seq<ChangeColumn>, triangle_columns: Seq<ChangeColumn>|
                    #![trigger old.filters(current_count, current@, threshold), new.filters(updated_count, updated@, threshold), change_views(edge_columns), change_views(triangle_columns)]
                    old.filters(current_count, current@, threshold) && new.filters(updated_count, updated@, threshold)
                        && change_views(edge_columns) == self@.edge_columns && change_views(triangle_columns)
                        == self@.triangle_columns && retains_longest_prefix(
                        edge_vertices(old.edges@),
                        edge_vertices(new.edges@),
                        edge_columns,
                        edge_boundary_views(new.edges@, self@.modulus as nat),
                        repair.spec_certificate()@.edge_columns,
                        repair.spec_work().edge_columns_reused as nat,
                        self@.modulus as nat,
                    ) && retains_longest_prefix(
                        triangle_vertices(old.triangles@),
                        triangle_vertices(new.triangles@),
                        triangle_columns,
                        triangle_boundary_views(edge_row_table(new.edge_rows), new.triangles@, self@.modulus as nat),
                        repair.spec_certificate()@.triangle_columns,
                        repair.spec_work().triangle_columns_reused as nat,
                        self@.modulus as nat,
                    )
            },
            !(supported_modulus(self@.modulus as nat) && current_count <= limits.max_vertices && current_count
                == self@.vertex_count && valid_threshold(self@.threshold)) ==> result is Err,
            self@.graph_digest != sha256(graph_message(current_count, current@, threshold_bits(self@.threshold)))
                ==> result is Err,
            topology_failure(UpdateOperation::Repair, current_count, current@, updated_count, updated@) is Some
                ==> result is Err,
            membership(current@, threshold_bits(self@.threshold)) != membership(updated@, threshold_bits(self@.threshold))
                ==> result is Err,
            result is Err ==> {
                let threshold = threshold_bits(self@.threshold);
                ||| verification_refused(self@, current_count, current@, limits)
                ||| topology_failure(UpdateOperation::Repair, current_count, current@, updated_count, updated@) is Some
                ||| membership(current@, threshold) != membership(updated@, threshold)
                ||| active_at(updated@, threshold).len() > limits.max_edges
                ||| more_triangles_than(updated@, threshold, limits.max_triangles)
                ||| exists|old: FilteredComplex, new: FilteredComplex|
                    #![trigger old.filters(current_count, current@, threshold), new.filters(updated_count, updated@, threshold)]
                    old.filters(current_count, current@, threshold) && new.filters(updated_count, updated@, threshold)
                        && repair_refused(self@, old, new, limits)
            },
    {
        proof {
            self.lemma_view();
        }
        let (old_complex, _) = self.verify_parts(current_count, current, limits)?;
        let threshold = checked_threshold(self.threshold)?;
        check_update_contract(current_count, current, updated_count, updated, threshold)?;
        let new_complex = FilteredComplex::build(updated_count, updated, threshold, limits)?;
        proof {
            lemma_ordered_pairs();
            lemma_ordered_triples();
        }
        let old_edges = complex_edges(old_complex.edges.as_slice());
        let new_edges = complex_edges(new_complex.edges.as_slice());
        let edge_boundaries = new_complex.edge_boundaries(self.modulus);
        assert(column_views(edge_boundaries@).len() == edge_boundaries@.len());
        let edge_repair = match repair_dimension(
            old_edges.as_slice(),
            new_edges.as_slice(),
            self.edge_columns.as_slice(),
            edge_boundaries.as_slice(),
            self.modulus,
            limits,
        ) {
            Ok(repair) => repair,
            Err(error) => {
                proof {
                    assert(change_views(self.edge_columns@) == self@.edge_columns);
                    assert(repair_refused(self@, old_complex, new_complex, limits));
                }
                return Err(error);
            },
        };
        let old_triangles = complex_triangles(old_complex.triangles.as_slice());
        let new_triangles = complex_triangles(new_complex.triangles.as_slice());
        let triangle_boundaries = new_complex.triangle_boundaries(self.modulus);
        assert(column_views(triangle_boundaries@).len() == triangle_boundaries@.len());
        let triangle_repair = match repair_dimension(
            old_triangles.as_slice(),
            new_triangles.as_slice(),
            self.triangle_columns.as_slice(),
            triangle_boundaries.as_slice(),
            self.modulus,
            limits,
        ) {
            Ok(repair) => repair,
            Err(error) => {
                proof {
                    assert(change_views(self.triangle_columns@) == self@.triangle_columns);
                    assert(repair_refused(self@, old_complex, new_complex, limits));
                }
                return Err(error);
            },
        };
        let checked = check_reductions(
            &new_complex,
            self.modulus,
            edge_repair.columns.as_slice(),
            triangle_repair.columns.as_slice(),
            limits,
        )?;
        let work = ReductionRepairWork {
            edge_columns_reused: edge_repair.prefix,
            edge_columns_reduced: new_complex.edges.len() - edge_repair.prefix,
            triangle_columns_reused: triangle_repair.prefix,
            triangle_columns_reduced: new_complex.triangles.len() - triangle_repair.prefix,
            column_additions: edge_repair.additions.saturating_add(triangle_repair.additions),
        };
        let certificate = ReductionCertificate {
            vertex_count: updated_count,
            threshold: self.threshold,
            modulus: self.modulus,
            graph_digest: graph_digest(updated_count, updated, threshold),
            edge_columns: edge_repair.columns,
            triangle_columns: triangle_repair.columns,
            diagram: checked.diagram,
        };
        proof {
            certificate.lemma_view();
            lemma_new_certificate(
                &certificate,
                updated_count,
                updated@,
                limits,
                new_complex,
                checked.reduced_edges@,
                checked.reduced_triangles@,
            );
            assert(change_views(self.edge_columns@) == self@.edge_columns);
            assert(change_views(self.triangle_columns@) == self@.triangle_columns);
            assert(old_complex.filters(current_count, current@, threshold));
            assert(new_complex.filters(updated_count, updated@, threshold));
        }
        Ok(ReductionRepair { certificate, mode: repair_mode(work), work })
    }

    /// Reindexes this reduction after a result-sensitive accepted update.
    ///
    /// No boundary column is reduced: simplex identities remap every source
    /// and target position of each change column.
    pub fn reindex(
        &self,
        current_count: usize,
        current: &[WeightedEdge],
        updated_count: usize,
        updated: &[WeightedEdge],
        limits: CertificateLimits,
    ) -> (result: Result<ReductionCertificate, CertificateError>)
        requires
            simple_graph(current_count, current@),
            simple_graph(updated_count, updated@),
            current_count <= 0x400_0000_0000,
            updated_count <= 0x400_0000_0000,
        ensures
            result matches Ok(certificate) ==> {
                &&& certifies(self@, current_count, current@, limits)
                &&& topology_failure(UpdateOperation::Reindexing, current_count, current@, updated_count, updated@) is None
                &&& certificate@.vertex_count == updated_count
                &&& certificate@.threshold == self@.threshold
                &&& certificate@.modulus == self@.modulus
                &&& certificate@.edge_columns.len() == self@.edge_columns.len()
                &&& certificate@.triangle_columns.len() == self@.triangle_columns.len()
                &&& certifies(certificate@, updated_count, updated@, limits)
            },
            !(supported_modulus(self@.modulus as nat) && current_count <= limits.max_vertices && current_count
                == self@.vertex_count && valid_threshold(self@.threshold)) ==> result is Err,
            self@.graph_digest != sha256(graph_message(current_count, current@, threshold_bits(self@.threshold)))
                ==> result is Err,
            topology_failure(UpdateOperation::Reindexing, current_count, current@, updated_count, updated@) is Some
                ==> result is Err,
            result is Err ==> {
                let threshold = threshold_bits(self@.threshold);
                ||| verification_refused(self@, current_count, current@, limits)
                ||| topology_failure(UpdateOperation::Reindexing, current_count, current@, updated_count, updated@) is Some
                ||| active_at(updated@, threshold).len() > limits.max_edges
                ||| more_triangles_than(updated@, threshold, limits.max_triangles)
                ||| exists|old: FilteredComplex, new: FilteredComplex|
                    #![trigger old.filters(current_count, current@, threshold), new.filters(updated_count, updated@, threshold)]
                    old.filters(current_count, current@, threshold) && new.filters(updated_count, updated@, threshold)
                        && reindex_refused(self@, old, new, limits)
            },
    {
        proof {
            self.lemma_view();
        }
        let (old_complex, _) = self.verify_parts(current_count, current, limits)?;
        let threshold = checked_threshold(self.threshold)?;
        check_update_topology(UpdateOperation::Reindexing, current_count, current, updated_count, updated)?;
        let new_complex = FilteredComplex::build(updated_count, updated, threshold, limits)?;
        if old_complex.edges.len() != new_complex.edges.len() || old_complex.triangles.len()
            != new_complex.triangles.len() {
            proof {
                assert(reindex_refused(self@, old_complex, new_complex, limits));
            }
            return Err(CertificateError::new(literal("reduction reindexing requires unchanged threshold membership")));
        }
        proof {
            lemma_ordered_pairs();
            lemma_ordered_triples();
        }
        let old_edges = complex_edges(old_complex.edges.as_slice());
        let new_edges = complex_edges(new_complex.edges.as_slice());
        proof {
            assert(change_views(self.edge_columns@) == self@.edge_columns);
            assert(change_views(self.triangle_columns@) == self@.triangle_columns);
        }
        let edge_columns = match reindex_change_columns(old_edges.as_slice(), new_edges.as_slice(), self.edge_columns.as_slice()) {
            Ok(columns) => columns,
            Err(error) => {
                proof {
                    assert(reindex_refused(self@, old_complex, new_complex, limits));
                }
                return Err(error);
            },
        };
        let old_triangles = complex_triangles(old_complex.triangles.as_slice());
        let new_triangles = complex_triangles(new_complex.triangles.as_slice());
        let triangle_columns = match reindex_change_columns(
            old_triangles.as_slice(),
            new_triangles.as_slice(),
            self.triangle_columns.as_slice(),
        ) {
            Ok(columns) => columns,
            Err(error) => {
                proof {
                    assert(reindex_refused(self@, old_complex, new_complex, limits));
                }
                return Err(error);
            },
        };
        let checked = match check_reductions(
            &new_complex,
            self.modulus,
            edge_columns.as_slice(),
            triangle_columns.as_slice(),
            limits,
        ) {
            Ok(checked) => checked,
            Err(error) => {
                proof {
                    let p = self@.modulus as nat;
                    assert(new_edges@.len() == new_complex.edges@.len());
                    assert(new_triangles@.len() == new_complex.triangles@.len());
                    assert(change_views(self.edge_columns@) == self@.edge_columns);
                    assert(change_views(self.triangle_columns@) == self@.triangle_columns);
                    assert(change_views(edge_columns@) == change_views(edge_columns@));
                    assert(change_views(triangle_columns@) == change_views(triangle_columns@));
                    assert(!(valid_reduction(
                        edge_boundary_views(new_complex.edges@, p),
                        change_views(edge_columns@),
                        p,
                        limits.max_terms as nat,
                    ) && valid_reduction(
                        triangle_boundary_views(edge_row_table(new_complex.edge_rows), new_complex.triangles@, p),
                        change_views(triangle_columns@),
                        p,
                        limits.max_terms as nat,
                    )));
                    assert(reindex_refused(self@, old_complex, new_complex, limits));
                }
                return Err(error);
            },
        };
        let certificate = ReductionCertificate {
            vertex_count: updated_count,
            threshold: self.threshold,
            modulus: self.modulus,
            graph_digest: graph_digest(updated_count, updated, threshold),
            edge_columns,
            triangle_columns,
            diagram: checked.diagram,
        };
        proof {
            certificate.lemma_view();
            lemma_new_certificate(
                &certificate,
                updated_count,
                updated@,
                limits,
                new_complex,
                checked.reduced_edges@,
                checked.reduced_triangles@,
            );
        }
        Ok(certificate)
    }
}

} // verus!
