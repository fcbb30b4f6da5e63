//! SHA-256 identities of graphs and classes: the library assembles the
//! hashed bytes, and sha2 computes the digest.

use sha2::{Digest, Sha256};
use vstd::prelude::*;

use crate::certificate::bytes::{be_bytes, put_u64};
use crate::graph::WeightedEdge;

verus! {

/// The SHA-256 digest of a byte string.
pub uninterp spec fn sha256(bytes: Seq<u8>) -> Seq<u8>;

/// Calls sha2's one-shot `Sha256::digest` on the bytes: the result is the
/// SHA-256 digest of exactly these bytes, a function of them alone.
#[verifier::external_body]
pub(crate) fn sha256_digest(bytes: &[u8]) -> (digest: [u8; 32])
    ensures
        digest@ == sha256(bytes@),
{
    Sha256::digest(bytes).into()
}

/// Append every byte of `bytes`.
pub fn put_bytes(out: &mut Vec<u8>, bytes: &[u8])
    ensures
        final(out)@ == old(out)@ + bytes@,
{
    let ghost start = out@;
    let mut index: usize = 0;
    while index < bytes.len()
        invariant
            index <= bytes@.len(),
            out@ == start + bytes@.take(index as int),
        decreases bytes@.len() - index,
    {
        out.push(bytes[index]);
        proof {
            assert(bytes@.take(index + 1) =~= bytes@.take(index as int).push(bytes@[index as int]));
        }
        index += 1;
    }
    proof {
        assert(bytes@.take(bytes@.len() as int) =~= bytes@);
    }
}

/// Each edge as its two endpoints and its length pattern, eight
/// big-endian bytes apiece.
pub open spec fn edge_records(edges: Seq<WeightedEdge>) -> Seq<u8>
    decreases edges.len(),
{
    if edges.len() == 0 {
        Seq::empty()
    } else {
        edge_records(edges.drop_last()) + be_bytes(edges.last().0 as nat, 8) + be_bytes(
            edges.last().1 as nat,
            8,
        ) + be_bytes(edges.last().2 as nat, 8)
    }
}

/// Append the records of the edges.
pub fn put_edge_records(out: &mut Vec<u8>, edges: &[WeightedEdge])
    ensures
        final(out)@ == old(out)@ + edge_records(edges@),
{
    let ghost start = out@;
    let mut index: usize = 0;
    while index < edges.len()
        invariant
            index <= edges@.len(),
            out@ == start + edge_records(edges@.take(index as int)),
        decreases edges@.len() - index,
    {
        let (u, v, value) = edges[index];
        put_u64(out, u as u64);
        put_u64(out, v as u64);
        put_u64(out, value);
        proof {
            let next = edges@.take(index + 1);
            assert(next.drop_last() =~= edges@.take(index as int));
            assert(next.last() == edges@[index as int]);
            assert(out@ =~= start + edge_records(next));
        }
        index += 1;
    }
    proof {
        assert(edges@.take(edges@.len() as int) =~= edges@);
    }
}

} // verus!
