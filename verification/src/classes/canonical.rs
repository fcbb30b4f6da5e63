//! Identifiers of canonical H1 class spaces and of their basis vectors:
//! SHA-256 digests of a canonical byte layout.

use vstd::prelude::*;
use vstd::string::StringSliceAdditionalSpecFns;

use crate::certificate::bytes::{be_bytes, put_u32, put_u64};
use crate::diagram::Bar;
use crate::digest::{put_bytes, sha256, sha256_digest};

use super::{BasisClassId, Cocycle, CocycleTerm, IntervalGroupId};

verus! {

/// Opening bytes of a hashed class space.
pub const CLASS_SPACE_TAG: &'static str = "holos-h1-class-space-v1";

/// Opening bytes of a hashed basis class.
pub const BASIS_CLASS_TAG: &'static str = "holos-h1-basis-class-v1";

/// Each term as its endpoints, eight big-endian bytes apiece, and its
/// coefficient, four.
pub open spec fn term_records(terms: Seq<CocycleTerm>) -> Seq<u8>
    decreases terms.len(),
{
    if terms.len() == 0 {
        Seq::empty()
    } else {
        term_records(terms.drop_last()) + be_bytes(terms.last().u as nat, 8) + be_bytes(
            terms.last().v as nat,
            8,
        ) + be_bytes(terms.last().coefficient as nat, 4)
    }
}

/// Each cocycle as its scale, its term count, and its terms.
pub open spec fn cocycle_records(basis: Seq<Cocycle>) -> Seq<u8>
    decreases basis.len(),
{
    if basis.len() == 0 {
        Seq::empty()
    } else {
        cocycle_records(basis.drop_last()) + be_bytes(basis.last().scale as nat, 8) + be_bytes(
            basis.last().terms@.len(),
            8,
        ) + term_records(basis.last().terms@)
    }
}

/// The bytes hashed to identify a class space.
pub open spec fn class_space_message(interval: Bar, modulus: u32, basis: Seq<Cocycle>) -> Seq<u8> {
    CLASS_SPACE_TAG.spec_bytes() + be_bytes(interval.dim as nat, 8) + be_bytes(interval.birth as nat, 8)
        + be_bytes(interval.death as nat, 8) + be_bytes(modulus as nat, 4) + be_bytes(basis.len(), 8)
        + cocycle_records(basis)
}

/// The bytes hashed to identify one basis vector of a class space.
pub open spec fn basis_class_message(group: Seq<u8>, basis_index: usize, cocycle: Cocycle) -> Seq<u8> {
    BASIS_CLASS_TAG.spec_bytes() + group + be_bytes(basis_index as nat, 8) + be_bytes(
        cocycle.scale as nat,
        8,
    ) + term_records(cocycle.terms@)
}

/// Append the records of the terms.
fn put_term_records(out: &mut Vec<u8>, terms: &[CocycleTerm])
    ensures
        final(out)@ == old(out)@ + term_records(terms@),
{
    let ghost start = out@;
    let mut index: usize = 0;
    while index < terms.len()
        invariant
            index <= terms@.len(),
            out@ == start + term_records(terms@.take(index as int)),
        decreases terms@.len() - index,
    {
        let term = terms[index];
        put_u64(out, term.u as u64);
        put_u64(out, term.v as u64);
        put_u32(out, term.coefficient);
        proof {
            let next = terms@.take(index + 1);
            assert(next.drop_last() =~= terms@.take(index as int));
            assert(next.last() == term);
            assert(out@ =~= start + term_records(next));
        }
        index += 1;
    }
    proof {
        assert(terms@.take(terms@.len() as int) =~= terms@);
    }
}

/// Identifier of the class space of `interval` over the field of `modulus`
/// elements, spanned by the canonical `basis`.
pub fn group_id(interval: Bar, modulus: u32, basis: &[Cocycle]) -> (id: IntervalGroupId)
    ensures
        id@ == sha256(class_space_message(interval, modulus, basis@)),
{
    let mut message: Vec<u8> = Vec::new();
    put_bytes(&mut message, CLASS_SPACE_TAG.as_bytes());
    put_u64(&mut message, interval.dim as u64);
    put_u64(&mut message, interval.birth);
    put_u64(&mut message, interval.death);
    put_u32(&mut message, modulus);
    put_u64(&mut message, basis.len() as u64);
    let ghost start = message@;
    let mut index: usize = 0;
    while index < basis.len()
        invariant
            index <= basis@.len(),
            message@ == start + cocycle_records(basis@.take(index as int)),
        decreases basis@.len() - index,
    {
        let cocycle = &basis[index];
        put_u64(&mut message, cocycle.scale);
        put_u64(&mut message, cocycle.terms.len() as u64);
        put_term_records(&mut message, cocycle.terms.as_slice());
        proof {
            let next = basis@.take(index + 1);
            assert(next.drop_last() =~= basis@.take(index as int));
            assert(next.last() == *cocycle);
            assert(message@ =~= start + cocycle_records(next));
        }
        index += 1;
    }
    proof {
        assert(basis@.take(basis@.len() as int) =~= basis@);
        assert(message@ =~= class_space_message(interval, modulus, basis@));
    }
    IntervalGroupId::from_bytes(sha256_digest(message.as_slice()))
}

/// Identifier of basis vector `basis_index` of the class space `group`.
pub fn basis_class_id(group: IntervalGroupId, basis_index: usize, cocycle: &Cocycle) -> (id: BasisClassId)
    ensures
        id@ == sha256(basis_class_message(group@, basis_index, *cocycle)),
{
    let mut message: Vec<u8> = Vec::new();
    put_bytes(&mut message, BASIS_CLASS_TAG.as_bytes());
    put_bytes(&mut message, group.as_bytes());
    put_u64(&mut message, basis_index as u64);
    put_u64(&mut message, cocycle.scale);
    put_term_records(&mut message, cocycle.terms.as_slice());
    proof {
        assert(message@ =~= basis_class_message(group@, basis_index, *cocycle));
    }
    BasisClassId::from_bytes(sha256_digest(message.as_slice()))
}

} // verus!
