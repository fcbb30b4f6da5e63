//! Producing a certificate: the filtered complex of the graph, a reduction
//! of each boundary matrix from scratch, and the checked diagram.

use vstd::prelude::*;

use crate::field::supported_modulus;
use crate::graph::{active_at, WeightedEdge};

use super::algebra::column_views;
use super::checked::{certifies, check_reductions, threshold_bits};
use super::complex::{more_triangles_than, simple_graph, FilteredComplex};
use super::matrix::triangular;
use super::model::{CertificateError, CertificateLimits, ReductionCertificate};
use super::reduction::reduce_with_basis;
use super::update::lemma_new_certificate;
use super::verify::{checked_threshold, graph_digest, valid_threshold, validate_header};

verus! {

impl ReductionCertificate {
    /// Produces an exact H0 and H1 reduction certificate of the graph on
    /// `vertex_count` vertices with the listed edges, below `threshold`,
    /// over the field of `modulus` elements, within `limits`.
    pub fn build(
        vertex_count: usize,
        edges: &[WeightedEdge],
        threshold: Option<u64>,
        modulus: u32,
        limits: CertificateLimits,
    ) -> (result: Result<ReductionCertificate, CertificateError>)
        requires
            simple_graph(vertex_count, edges@),
            vertex_count <= 0x400_0000_0000,
        ensures
            result matches Ok(certificate) ==> {
                &&& certificate@.vertex_count == vertex_count
                &&& certificate@.threshold == threshold
                &&& certificate@.modulus == modulus
                &&& certifies(certificate@, vertex_count, edges@, limits)
            },
            result is Err ==> {
                let bits = threshold_bits(threshold);
                ||| !(supported_modulus(modulus as nat) && vertex_count <= limits.max_vertices && valid_threshold(threshold))
                ||| active_at(edges@, bits).len() > limits.max_edges
                ||| more_triangles_than(edges@, bits, limits.max_triangles)
                ||| exists|complex: FilteredComplex|
                    #[trigger] complex.filters(vertex_count, edges@, bits) && (triangular(complex.edges@.len())
                        > limits.max_terms || triangular(complex.triangles@.len()) > limits.max_terms)
            },
    {
        validate_header(vertex_count, 1, modulus, limits)?;
        let bits = checked_threshold(threshold)?;
        let complex = FilteredComplex::build(vertex_count, edges, bits, limits)?;
        let edge_boundaries = complex.edge_boundaries(modulus);
        let triangle_boundaries = complex.triangle_boundaries(modulus);
        proof {
            assert(column_views(edge_boundaries@).len() == edge_boundaries@.len());
            assert(column_views(triangle_boundaries@).len() == triangle_boundaries@.len());
        }
        let edge_columns = match reduce_with_basis(edge_boundaries.as_slice(), modulus, limits) {
            Ok(columns) => columns,
            Err(error) => {
                proof {
                    assert(complex.filters(vertex_count, edges@, bits));
                }
                return Err(error);
            },
        };
        let triangle_columns = match reduce_with_basis(triangle_boundaries.as_slice(), modulus, limits) {
            Ok(columns) => columns,
            Err(error) => {
                proof {
                    assert(complex.filters(vertex_count, edges@, bits));
                }
                return Err(error);
            },
        };
        let checked = match check_reductions(
            &complex,
            modulus,
            edge_columns.as_slice(),
            triangle_columns.as_slice(),
            limits,
        ) {
            Ok(checked) => checked,
            Err(error) => {
                proof {
                    assert(false);
                }
                return Err(error);
            },
        };
        let certificate = ReductionCertificate {
            vertex_count,
            threshold,
            modulus,
            graph_digest: graph_digest(vertex_count, edges, bits),
            edge_columns,
            triangle_columns,
            diagram: checked.diagram,
        };
        proof {
            certificate.lemma_view();
            lemma_new_certificate(
                &certificate,
                vertex_count,
                edges@,
                limits,
                complex,
                checked.reduced_edges@,
                checked.reduced_triangles@,
            );
        }
        Ok(certificate)
    }
}

} // verus!
