//! Algebraic certificates for exact H0 and H1 persistence.
//!
//! A certificate records, for the edge and the triangle boundary matrix,
//! one sparse change-of-basis column per boundary column. The checker
//! rebuilds each reduced column `R = D V` over the prime field, requires
//! every change column to be unit upper triangular, and requires distinct
//! reduced pivots.

pub mod model;

pub use model::{
    CertificateError, CertificateLimits, CertificateTerm, CertificateView, ChangeColumn,
    FiltrationSimplex, ReductionCertificate, ReductionGuard, ReductionGuardKind, ReductionRepairMode, ReductionRepairWork,
    RegionViolation, RegionViolationKind,
};
pub mod sparse;
pub mod algebra;
pub mod pivots;
pub mod matrix;
pub mod reduction;
pub mod bytes;
pub mod wire;
pub mod verify;
pub mod guards;
pub mod repair;
pub mod order;
pub mod complex;
pub mod checked;
pub mod region;
pub mod evaluate;
pub mod compile;
pub mod update;
pub mod producer;
pub mod fidelity;
pub mod reachability;
pub mod uniqueness;
pub mod transport;
pub mod reweighting;
