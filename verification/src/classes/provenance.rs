//! The binding of a persistent class to the graph it was computed on.

use vstd::prelude::*;
use vstd::string::StringSliceAdditionalSpecFns;

use crate::certificate::bytes::{be_bytes, put_u64};
use crate::digest::{edge_records, put_bytes, put_edge_records, sha256, sha256_digest};
use crate::graph::{active_at, active_weighted_edges, WeightedEdge};
use crate::certificate::checked::digests_equal;
use crate::diagram::{Bar, INFINITY_BITS};
use crate::error::{fails_with, Error};
use crate::text::literal;

use super::canonical::{basis_class_id, basis_class_message};
use super::{BasisClassId, Cocycle, IntervalGroupId};

verus! {

/// Opening bytes of a hashed class source graph.
pub const SOURCE_GRAPH_TAG: &'static str = "holos-persistent-class-source-v1";

/// The bytes hashed to bind a class to its source graph: the tag, the
/// vertex count, the scale, the number of edges at most the scale, and
/// those edges.
pub open spec fn source_graph_message(vertex_count: usize, edges: Seq<WeightedEdge>, scale: u64) -> Seq<u8> {
    let active = active_at(edges, scale);
    SOURCE_GRAPH_TAG.spec_bytes() + be_bytes(vertex_count as nat, 8) + be_bytes(scale as nat, 8)
        + be_bytes(active.len(), 8) + edge_records(active)
}

/// The SHA-256 binding of the graph on `vertex_count` vertices with the
/// listed edges, at the class's scale.
pub fn source_graph_digest(vertex_count: usize, edges: &[WeightedEdge], scale: u64) -> (digest: [u8; 32])
    ensures
        digest@ == sha256(source_graph_message(vertex_count, edges@, scale)),
{
    let active = active_weighted_edges(edges, scale);
    let mut message: Vec<u8> = Vec::new();
    put_bytes(&mut message, SOURCE_GRAPH_TAG.as_bytes());
    put_u64(&mut message, vertex_count as u64);
    put_u64(&mut message, scale);
    put_u64(&mut message, active.len() as u64);
    put_edge_records(&mut message, active.as_slice());
    sha256_digest(message.as_slice())
}

/// The class's interval and scale are consistent: an H1 interval with a
/// finite non-negative birth, a non-negative or infinite death above the
/// birth, and a finite scale inside `[birth, death)`. On patterns that are
/// non-negative and not NaN the pattern order is the numeric order, and
/// the finite ones lie below `INFINITY_BITS`.
pub open spec fn valid_interval_and_scale(interval: Bar, scale: u64) -> bool {
    &&& interval.dim == 1
    &&& interval.birth < INFINITY_BITS
    &&& interval.death <= INFINITY_BITS
    &&& (interval.death == INFINITY_BITS || interval.death > interval.birth)
    &&& scale < INFINITY_BITS
    &&& scale >= interval.birth
    &&& (interval.death == INFINITY_BITS || scale < interval.death)
}

/// Whether the interval and scale are consistent.
fn interval_and_scale_valid(interval: Bar, scale: u64) -> (valid: bool)
    ensures
        valid == valid_interval_and_scale(interval, scale),
{
    interval.dim == 1 && interval.birth < INFINITY_BITS && interval.death <= INFINITY_BITS && (interval.death
        == INFINITY_BITS || interval.death > interval.birth) && scale < INFINITY_BITS && scale >= interval.birth
        && (interval.death == INFINITY_BITS || scale < interval.death)
}

/// Source binding for one interval-bound H1 class: the digest of the
/// active labeled graph at the representative scale, the canonical class
/// identifier bytes, the interval, the field, and the scale.
#[derive(Debug, Clone, Copy, PartialEq)]
pub struct PersistentClassProvenance {
    pub(crate) source_graph_digest: [u8; 32],
    pub(crate) class_digest: [u8; 32],
    pub(crate) interval: Bar,
    pub(crate) modulus: u32,
    pub(crate) scale: u64,
}

/// Mathematical content of a provenance record.
pub struct ProvenanceView {
    /// Digest of the active graph at the scale.
    pub source_graph_digest: Seq<u8>,
    /// Canonical class identifier bytes.
    pub class_digest: Seq<u8>,
    /// Interval bound to the source graph.
    pub interval: Bar,
    /// Prime field of the representative.
    pub modulus: u32,
    /// Bit pattern of the representative scale.
    pub scale: u64,
}

impl View for PersistentClassProvenance {
    type V = ProvenanceView;

    closed spec fn view(&self) -> ProvenanceView {
        ProvenanceView {
            source_graph_digest: self.source_graph_digest@,
            class_digest: self.class_digest@,
            interval: self.interval,
            modulus: self.modulus,
            scale: self.scale,
        }
    }
}

/// The first metadata rule a provenance record breaks for the class with
/// identifier bytes `class_digest`, `interval`, and `cocycle`, if any.
pub open spec fn metadata_failure(
    provenance: ProvenanceView,
    class_digest: Seq<u8>,
    interval: Bar,
    cocycle: Cocycle,
) -> Option<Seq<char>> {
    if provenance.class_digest != class_digest {
        Some("persistent class identity differs from its provenance"@)
    } else if provenance.interval != interval {
        Some("persistent class interval differs from its provenance"@)
    } else if provenance.modulus != cocycle.modulus {
        Some("persistent class field differs from its provenance"@)
    } else if provenance.scale != cocycle.scale {
        Some("persistent class scale differs from its provenance"@)
    } else if !valid_interval_and_scale(interval, provenance.scale) {
        Some("persistent class representative is outside its interval"@)
    } else {
        None
    }
}

impl PersistentClassProvenance {
    /// A provenance record from previously recorded digests.
    ///
    /// `class_digest` must be the canonical [`BasisClassId`] bytes for the
    /// class that uses this record.
    pub fn from_parts(
        source_graph_digest: [u8; 32],
        class_digest: [u8; 32],
        interval: Bar,
        modulus: u32,
        scale: u64,
    ) -> (provenance: Self)
        ensures
            provenance@ == (ProvenanceView {
                source_graph_digest: source_graph_digest@,
                class_digest: class_digest@,
                interval,
                modulus,
                scale,
            }),
    {
        Self { source_graph_digest, class_digest, interval, modulus, scale }
    }

    /// Raw digest of the active labeled graph at the representative scale.
    pub fn source_graph_digest(&self) -> (digest: &[u8; 32])
        ensures
            digest@ == self@.source_graph_digest,
    {
        &self.source_graph_digest
    }

    /// Deterministic digest of the canonical class identity.
    pub fn class_digest(&self) -> (digest: &[u8; 32])
        ensures
            digest@ == self@.class_digest,
    {
        &self.class_digest
    }

    /// Persistence interval bound to the source graph.
    pub fn interval(&self) -> (interval: Bar)
        ensures
            interval == self@.interval,
    {
        self.interval
    }

    /// Prime field bound to the representative.
    pub fn modulus(&self) -> (modulus: u32)
        ensures
            modulus == self@.modulus,
    {
        self.modulus
    }

    /// Bit pattern of the representative scale bound to the interval.
    pub fn scale(&self) -> (scale: u64)
        ensures
            scale == self@.scale,
    {
        self.scale
    }

    /// Checks the class identity, interval, field, scale, and interval
    /// consistency recorded here against the class.
    pub(crate) fn validate_metadata(&self, class_digest: [u8; 32], interval: Bar, cocycle: &Cocycle) -> (result:
        Result<(), Error>)
        ensures
            result is Ok <==> metadata_failure(self@, class_digest@, interval, *cocycle) is None,
            metadata_failure(self@, class_digest@, interval, *cocycle) matches Some(message) ==> fails_with(
                result,
                message,
            ),
            result is Ok ==> interval.birth <= self@.scale && self@.scale < INFINITY_BITS && (interval.death
                == INFINITY_BITS || self@.scale < interval.death),
    {
        if !digests_equal(&self.class_digest, &class_digest) {
            return Err(Error::InvalidInput(literal("persistent class identity differs from its provenance")));
        }
        if !(self.interval.dim == interval.dim && self.interval.birth == interval.birth && self.interval.death
            == interval.death) {
            return Err(Error::InvalidInput(literal("persistent class interval differs from its provenance")));
        }
        if self.modulus != cocycle.modulus {
            return Err(Error::InvalidInput(literal("persistent class field differs from its provenance")));
        }
        if self.scale != cocycle.scale {
            return Err(Error::InvalidInput(literal("persistent class scale differs from its provenance")));
        }
        if !interval_and_scale_valid(interval, self.scale) {
            return Err(Error::InvalidInput(literal("persistent class representative is outside its interval")));
        }
        Ok(())
    }

    /// Checks the class identity, interval, and representative against the
    /// graph on `vertex_count` vertices with the listed `edges`: the
    /// metadata first, then the digest of the active graph at the scale.
    pub fn validate(
        &self,
        vertex_count: usize,
        edges: &[WeightedEdge],
        class_digest: [u8; 32],
        interval: Bar,
        cocycle: &Cocycle,
    ) -> (result: Result<(), Error>)
        ensures
            result is Ok <==> metadata_failure(self@, class_digest@, interval, *cocycle) is None
                && self@.source_graph_digest == sha256(source_graph_message(vertex_count, edges@, self@.scale)),
            metadata_failure(self@, class_digest@, interval, *cocycle) matches Some(message) ==> fails_with(
                result,
                message,
            ),
            metadata_failure(self@, class_digest@, interval, *cocycle) is None && self@.source_graph_digest
                != sha256(source_graph_message(vertex_count, edges@, self@.scale)) ==> fails_with(
                result,
                "persistent class belongs to a different active graph"@,
            ),
    {
        self.validate_metadata(class_digest, interval, cocycle)?;
        let digest = source_graph_digest(vertex_count, edges, self.scale);
        if !digests_equal(&self.source_graph_digest, &digest) {
            return Err(Error::InvalidInput(literal("persistent class belongs to a different active graph")));
        }
        Ok(())
    }
}

/// One vector in the declared basis of a persistent H1 class space.
#[derive(Debug, Clone, PartialEq)]
pub struct PersistentClass {
    /// Identifier derived from the class space, basis position, and cocycle.
    pub id: BasisClassId,
    /// Class space that contains this basis vector.
    pub group_id: IntervalGroupId,
    /// Position in the canonical basis of the class space.
    pub basis_index: usize,
    /// H1 persistence interval.
    pub interval: Bar,
    /// Representative on the caller's graph.
    pub cocycle: Cocycle,
    /// Source binding for scalar Rips classes, when available.
    pub provenance: Option<PersistentClassProvenance>,
}

/// The class's identifier is the canonical one of its class space,
/// position, and cocycle.
pub open spec fn canonical_identifier(class: PersistentClass) -> bool {
    class.id@ == sha256(basis_class_message(class.group_id@, class.basis_index, class.cocycle))
}

impl PersistentClass {
    /// Source binding for a scalar Rips class, when available.
    pub fn provenance(&self) -> (provenance: Option<&PersistentClassProvenance>)
        ensures
            provenance == match self.provenance {
                Some(record) => Some(&record),
                None => None::<&PersistentClassProvenance>,
            },
    {
        match &self.provenance {
            Some(record) => Some(record),
            None => None,
        }
    }

    /// Checks that this class belongs to the graph on `vertex_count`
    /// vertices with the listed `edges`: its provenance must exist and hold
    /// for it, and its identifier must be canonical.
    pub fn validate_provenance(&self, vertex_count: usize, edges: &[WeightedEdge]) -> (result: Result<(), Error>)
        ensures
            self.provenance is None ==> fails_with(result, "persistent class has no interval-bound provenance"@),
            self.provenance matches Some(record) ==> {
                let metadata = metadata_failure(record@, self.id@, self.interval, self.cocycle);
                let bound = record@.source_graph_digest == sha256(
                    source_graph_message(vertex_count, edges@, record@.scale),
                );
                &&& result is Ok <==> metadata is None && bound && canonical_identifier(*self)
                &&& metadata matches Some(message) ==> fails_with(result, message)
                &&& metadata is None && !bound ==> fails_with(
                    result,
                    "persistent class belongs to a different active graph"@,
                )
                &&& metadata is None && bound && !canonical_identifier(*self) ==> fails_with(
                    result,
                    "persistent class identifier is not canonical"@,
                )
            },
    {
        let record = match &self.provenance {
            Some(record) => record,
            None => {
                return Err(Error::InvalidInput(literal("persistent class has no interval-bound provenance")));
            },
        };
        record.validate(vertex_count, edges, *self.id.as_bytes(), self.interval, &self.cocycle)?;
        let expected = basis_class_id(self.group_id, self.basis_index, &self.cocycle);
        if !digests_equal(expected.as_bytes(), self.id.as_bytes()) {
            return Err(Error::InvalidInput(literal("persistent class identifier is not canonical")));
        }
        Ok(())
    }
}

/// A provenance record passes the metadata checks exactly when it names
/// the class's identifier, interval, field and scale, and that scale is a
/// finite value inside the H1 interval: at or after the birth, and before
/// the death unless the class never dies.
pub proof fn lemma_metadata_accepts_scale_inside_interval(
    provenance: ProvenanceView,
    class_digest: Seq<u8>,
    interval: Bar,
    cocycle: Cocycle,
)
    ensures
        metadata_failure(provenance, class_digest, interval, cocycle) is None <==> {
            &&& provenance.class_digest == class_digest
            &&& provenance.interval == interval
            &&& provenance.modulus == cocycle.modulus
            &&& provenance.scale == cocycle.scale
            &&& interval.dim == 1
            &&& interval.birth < INFINITY_BITS
            &&& interval.death <= INFINITY_BITS
            &&& (interval.death == INFINITY_BITS || interval.birth < interval.death)
            &&& interval.birth <= provenance.scale
            &&& provenance.scale < INFINITY_BITS
            &&& (interval.death == INFINITY_BITS || provenance.scale < interval.death)
        },
{
}

} // verus!
