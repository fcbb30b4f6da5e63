//! Envelope rules of a reduction certificate and small helpers of the
//! checker.

use vstd::prelude::*;
use vstd::string::StringSliceAdditionalSpecFns;

use crate::diagram::{Bar, Diagram, INFINITY_BITS};
use crate::digest::{edge_records, put_bytes, put_edge_records, sha256, sha256_digest};
use crate::graph::{active_at, active_weighted_edges, WeightedEdge};
use crate::field::{is_prime, supported_modulus, MODULUS_LIMIT};
use crate::text::{literal, with_numbers};

use super::algebra::change_views;
use super::bytes::{be_bytes, put_u64};
use super::matrix::{check_change_columns, terms_total, valid_change_columns};
use super::model::{CertificateError, CertificateLimits, CertificateView, ReductionCertificate};
use super::wire::{canonical_bars, check_bars};

verus! {

/// Sign bit of an IEEE-754 double.
pub const SIGN_BIT: u64 = 0x8000_0000_0000_0000;

/// The bit pattern is a NaN of either sign.
pub open spec fn is_nan_bits(bits: u64) -> bool {
    bits % SIGN_BIT > INFINITY_BITS
}

/// The bit pattern is strictly below zero: the sign bit with a nonzero
/// magnitude.
pub open spec fn is_negative_bits(bits: u64) -> bool {
    bits >= SIGN_BIT && bits % SIGN_BIT != 0
}

/// A threshold, positive infinity when absent, is neither NaN nor
/// negative.
pub open spec fn valid_threshold(threshold: Option<u64>) -> bool {
    let bits = match threshold {
        Some(bits) => bits,
        None => INFINITY_BITS,
    };
    !is_nan_bits(bits) && !is_negative_bits(bits)
}

/// Envelope rules of a certificate under `limits`: bounded counts, an
/// accepted modulus, a valid threshold, valid change columns within the
/// term budget, and a canonical diagram.
pub open spec fn valid_envelope(certificate: CertificateView, limits: CertificateLimits) -> bool {
    &&& certificate.vertex_count <= limits.max_vertices
    &&& supported_modulus(certificate.modulus as nat)
    &&& valid_threshold(certificate.threshold)
    &&& certificate.edge_columns.len() <= limits.max_edges
    &&& certificate.triangle_columns.len() <= limits.max_triangles
    &&& valid_change_columns(certificate.edge_columns, certificate.modulus as nat)
    &&& valid_change_columns(certificate.triangle_columns, certificate.modulus as nat)
    &&& terms_total(certificate.edge_columns) + terms_total(certificate.triangle_columns)
        <= limits.max_terms
    &&& canonical_bars(certificate.bars, limits.max_bars as nat)
}

/// The threshold bit pattern, positive infinity when absent, after
/// checking that it is neither NaN nor negative.
pub fn checked_threshold(threshold: Option<u64>) -> (result: Result<u64, CertificateError>)
    ensures
        result is Ok <==> valid_threshold(threshold),
        result matches Ok(bits) ==> bits == match threshold {
            Some(bits) => bits,
            None => INFINITY_BITS,
        },
{
    let bits = match threshold {
        Some(bits) => bits,
        None => INFINITY_BITS,
    };
    let magnitude = bits % SIGN_BIT;
    let nan = magnitude > INFINITY_BITS;
    let negative = bits >= SIGN_BIT && magnitude != 0;
    if nan || negative {
        return Err(CertificateError::new(literal("threshold must be non-negative")));
    }
    Ok(bits)
}

/// Check the request shape of a certificate: first homology only, a
/// bounded vertex count, and an accepted modulus.
pub fn validate_header(
    vertex_count: usize,
    max_dim: usize,
    modulus: u32,
    limits: CertificateLimits,
) -> (result: Result<(), CertificateError>)
    ensures
        result is Ok <==> max_dim == 1 && vertex_count <= limits.max_vertices && supported_modulus(
            modulus as nat,
        ),
{
    if max_dim != 1 {
        return Err(
            CertificateError::new(literal("an algebraic certificate requires max_dim equal to 1")),
        );
    }
    if vertex_count > limits.max_vertices {
        return Err(
            CertificateError::new(
                with_numbers(
                    "",
                    vertex_count,
                    " vertices exceed the limit ",
                    limits.max_vertices,
                    "",
                ),
            ),
        );
    }
    if !is_prime(modulus as u64) || modulus as u64 >= MODULUS_LIMIT {
        return Err(
            CertificateError::new(
                with_numbers(
                    "modulus must be a prime below ",
                    MODULUS_LIMIT as usize,
                    ", got ",
                    modulus as usize,
                    "",
                ),
            ),
        );
    }
    Ok(())
}

/// Whether two diagrams hold the same intervals, bit for bit.
pub fn diagram_bits_equal(first: &Diagram, second: &Diagram) -> (equal: bool)
    ensures
        equal == (first@ == second@),
{
    if first.bars.len() != second.bars.len() {
        return false;
    }
    let mut index: usize = 0;
    while index < first.bars.len()
        invariant
            first@.len() == second@.len(),
            index <= first@.len(),
            forall|i: int| 0 <= i < index ==> first@[i] == second@[i],
        decreases first@.len() - index,
    {
        let a = first.bars[index];
        let b = second.bars[index];
        if a.dim != b.dim || a.birth != b.birth || a.death != b.death {
            return false;
        }
        index += 1;
    }
    assert(first@ =~= second@);
    true
}

/// Colexicographic rank of the edge `u < v`.
pub fn edge_rank(vertices: [usize; 2]) -> (rank: u128)
    ensures
        vertices[1] >= 1 ==> rank == vertices[1] * (vertices[1] - 1) / 2 + vertices[0],
        vertices[1] == 0 ==> rank == vertices[0],
{
    let u = vertices[0];
    let v = vertices[1];
    let below = if v >= 1 { v - 1 } else { 0 };
    assert((v as int) * (below as int) <= 0xffff_ffff_ffff_ffff * 0xffff_ffff_ffff_ffff) by (nonlinear_arith)
        requires
            v <= 0xffff_ffff_ffff_ffff,
            below <= 0xffff_ffff_ffff_ffff,
    ;
    let pairs = (v as u128) * (below as u128) / 2;
    pairs + u as u128
}

/// Colexicographic rank of the triangle `u < v < w`.
pub fn triangle_rank(vertices: [usize; 3]) -> (rank: u128)
    requires
        vertices[2] < 0x400_0000_0000,
        vertices[1] < 0x400_0000_0000,
    ensures
        rank == vertices[0] + (if vertices[1] >= 1 {
            vertices[1] * (vertices[1] - 1) / 2
        } else {
            0
        }) + (if vertices[2] >= 2 {
            vertices[2] * (vertices[2] - 1) * (vertices[2] - 2) / 6
        } else {
            0
        }),
{
    let u = vertices[0];
    let v = vertices[1];
    let w = vertices[2];
    let v1 = if v >= 1 { v - 1 } else { 0 };
    let w1 = if w >= 1 { w - 1 } else { 0 };
    let w2 = if w >= 2 { w - 2 } else { 0 };
    assert((v as int) * (v1 as int) < 0x10_0000_0000_0000_0000_0000) by (nonlinear_arith)
        requires
            v < 0x400_0000_0000,
            v1 < 0x400_0000_0000,
    ;
    assert((w as int) * (w1 as int) < 0x10_0000_0000_0000_0000_0000) by (nonlinear_arith)
        requires
            w < 0x400_0000_0000,
            w1 < 0x400_0000_0000,
    ;
    assert((w as int) * (w1 as int) * (w2 as int) < 0x4000_0000_0000_0000_0000_0000_0000_0000) by (nonlinear_arith)
        requires
            w < 0x400_0000_0000,
            w1 < 0x400_0000_0000,
            w2 < 0x400_0000_0000,
    ;
    let choose2 = (v as u128) * (v1 as u128) / 2;
    let choose3 = (w as u128) * (w1 as u128) * (w2 as u128) / 6;
    proof {
        if w < 2 {
            assert(w2 == 0);
            assert((w as int) * (w1 as int) * 0 == 0) by (nonlinear_arith);
        }
        if v < 1 {
            assert((v as int) * 0 == 0) by (nonlinear_arith);
        }
    }
    u as u128 + choose2 + choose3
}

impl ReductionCertificate {
    /// Check the counts, modulus, and threshold of the envelope.
    pub fn check_envelope_header(&self, limits: CertificateLimits) -> (result: Result<
        (),
        CertificateError,
    >)
        ensures
            result is Ok <==> self@.vertex_count <= limits.max_vertices && supported_modulus(
                self@.modulus as nat,
            ) && valid_threshold(self@.threshold) && self@.edge_columns.len() <= limits.max_edges
                && self@.triangle_columns.len() <= limits.max_triangles,
    {
        proof {
            self.lemma_view();
        }
        if self.vertex_count > limits.max_vertices {
            return Err(
                CertificateError::new(
                    with_numbers(
                        "",
                        self.vertex_count,
                        " vertices exceed the limit ",
                        limits.max_vertices,
                        "",
                    ),
                ),
            );
        }
        if !is_prime(self.modulus as u64) || self.modulus as u64 >= MODULUS_LIMIT {
            return Err(
                CertificateError::new(
                    with_numbers(
                        "modulus must be a prime below ",
                        MODULUS_LIMIT as usize,
                        ", got ",
                        self.modulus as usize,
                        "",
                    ),
                ),
            );
        }
        let threshold = checked_threshold(self.threshold);
        if threshold.is_err() {
            return Err(threshold.unwrap_err());
        }
        if self.edge_columns.len() > limits.max_edges {
            return Err(
                CertificateError::new(
                    with_numbers(
                        "",
                        self.edge_columns.len(),
                        " edge columns exceed the limit ",
                        limits.max_edges,
                        "",
                    ),
                ),
            );
        }
        if self.triangle_columns.len() > limits.max_triangles {
            return Err(
                CertificateError::new(
                    with_numbers(
                        "",
                        self.triangle_columns.len(),
                        " triangle columns exceed the limit ",
                        limits.max_triangles,
                        "",
                    ),
                ),
            );
        }
        Ok(())
    }

    /// Check every envelope rule under `limits`.
    pub fn check_envelope(&self, limits: CertificateLimits) -> (result: Result<
        (),
        CertificateError,
    >)
        ensures
            result is Ok <==> valid_envelope(self@, limits),
    {
        proof {
            self.lemma_view();
        }
        let header = self.check_envelope_header(limits);
        if header.is_err() {
            return header;
        }
        let mut total_terms: usize = 0;
        let edges = check_change_columns(
            "edge",
            self.edge_columns.as_slice(),
            self.modulus,
            limits.max_terms,
            &mut total_terms,
        );
        if edges.is_err() {
            return edges;
        }
        let triangles = check_change_columns(
            "triangle",
            self.triangle_columns.as_slice(),
            self.modulus,
            limits.max_terms,
            &mut total_terms,
        );
        if triangles.is_err() {
            proof {
                if self.triangle_columns.len() == 0 {
                    assert(change_views(self.triangle_columns@).len() == 0);
                    assert(terms_total(change_views(self.triangle_columns@)) == 0);
                }
            }
            return triangles;
        }
        proof {
            if self.triangle_columns.len() == 0 {
                assert(terms_total(change_views(self.triangle_columns@)) == 0);
            }
        }
        check_bars(&self.diagram, limits.max_bars)
    }
}

/// Opening bytes of a hashed certified graph.
pub const GRAPH_DIGEST_TAG: &'static str = "holos-certified-graph-v1";

/// The bytes hashed to bind a certificate to its graph: the tag, the
/// vertex count, the number of edges at most `threshold`, and those edges.
pub open spec fn graph_message(vertex_count: usize, edges: Seq<WeightedEdge>, threshold: u64) -> Seq<u8> {
    let active = active_at(edges, threshold);
    GRAPH_DIGEST_TAG.spec_bytes() + be_bytes(vertex_count as nat, 8) + be_bytes(active.len(), 8)
        + edge_records(active)
}

/// The SHA-256 binding of the graph on `vertex_count` vertices with the
/// listed edges, restricted to the edges at most `threshold`.
pub fn graph_digest(vertex_count: usize, edges: &[WeightedEdge], threshold: u64) -> (digest: [u8; 32])
    ensures
        digest@ == sha256(graph_message(vertex_count, edges@, threshold)),
{
    let active = active_weighted_edges(edges, threshold);
    let mut message: Vec<u8> = Vec::new();
    put_bytes(&mut message, GRAPH_DIGEST_TAG.as_bytes());
    put_u64(&mut message, vertex_count as u64);
    put_u64(&mut message, active.len() as u64);
    put_edge_records(&mut message, active.as_slice());
    sha256_digest(message.as_slice())
}

} // verus!
