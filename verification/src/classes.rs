//! Identifiers of canonical H1 class spaces and their basis vectors, and
//! the terms of a cocycle.

use vstd::prelude::*;
use vstd::string::StringExecFns;

pub mod canonical;
pub mod provenance;
pub mod space;
pub mod basis;
pub mod validation;
pub mod assembly;

verus! {

/// Lower-case hexadecimal digit of a value below 16.
pub open spec fn hex_char(value: nat) -> char {
    if value < 10 {
        (48 + value) as char
    } else {
        (87 + value) as char
    }
}

/// Two lower-case hexadecimal digits per byte, most significant first.
pub open spec fn hex_text(bytes: Seq<u8>) -> Seq<char>
    decreases bytes.len(),
{
    if bytes.len() == 0 {
        Seq::empty()
    } else {
        hex_text(bytes.drop_last()) + seq![
            hex_char(bytes.last() as nat / 16),
            hex_char(bytes.last() as nat % 16),
        ]
    }
}

/// The hexadecimal digit of `value`, as a one-character string.
fn hex_digit(value: u8) -> (digit: &'static str)
    requires
        value < 16,
    ensures
        digit@ == seq![hex_char(value as nat)],
{
    proof {
        reveal_strlit("0");
        reveal_strlit("1");
        reveal_strlit("2");
        reveal_strlit("3");
        reveal_strlit("4");
        reveal_strlit("5");
        reveal_strlit("6");
        reveal_strlit("7");
        reveal_strlit("8");
        reveal_strlit("9");
        reveal_strlit("a");
        reveal_strlit("b");
        reveal_strlit("c");
        reveal_strlit("d");
        reveal_strlit("e");
        reveal_strlit("f");
    }
    match value {
        0 => "0",
        1 => "1",
        2 => "2",
        3 => "3",
        4 => "4",
        5 => "5",
        6 => "6",
        7 => "7",
        8 => "8",
        9 => "9",
        10 => "a",
        11 => "b",
        12 => "c",
        13 => "d",
        14 => "e",
        _ => "f",
    }
}

/// Lower-case hexadecimal text of a 32-byte identifier.
pub fn hex_digest(bytes: &[u8; 32]) -> (text: String)
    ensures
        text@ == hex_text(bytes@),
{
    let mut text = String::new();
    let mut index: usize = 0;
    proof {
        assert(bytes@.take(0) =~= Seq::<u8>::empty());
    }
    while index < 32
        invariant
            index <= 32,
            text@ == hex_text(bytes@.take(index as int)),
        decreases 32 - index,
    {
        let byte = bytes[index];
        text.append(hex_digit(byte / 16));
        text.append(hex_digit(byte % 16));
        proof {
            assert(bytes@.take(index + 1).drop_last() =~= bytes@.take(index as int));
            assert(bytes@.take(index + 1).last() == byte);
            assert(text@ =~= hex_text(bytes@.take(index + 1)));
        }
        index += 1;
    }
    proof {
        assert(bytes@.take(32) =~= bytes@);
    }
    text
}

/// Identifier of one canonical H1 class space: its interval and its
/// canonical basis.
#[derive(Debug, Clone, Copy, PartialEq, Eq, PartialOrd, Ord, Hash)]
pub struct IntervalGroupId(pub(crate) [u8; 32]);

impl View for IntervalGroupId {
    type V = Seq<u8>;

    closed spec fn view(&self) -> Seq<u8> {
        self.0@
    }
}

impl IntervalGroupId {
    /// Identifier bytes.
    pub fn as_bytes(&self) -> (bytes: &[u8; 32])
        ensures
            bytes@ == self@,
    {
        &self.0
    }

    /// Construct an identifier from its serialized bytes.
    pub fn from_bytes(bytes: [u8; 32]) -> (id: Self)
        ensures
            id@ == bytes@,
    {
        IntervalGroupId(bytes)
    }

    /// Lower-case hexadecimal text of the identifier.
    pub fn to_hex(&self) -> (text: String)
        ensures
            text@ == hex_text(self@),
    {
        hex_digest(&self.0)
    }
}

/// Identifier of one vector in a declared canonical class-space basis.
#[derive(Debug, Clone, Copy, PartialEq, Eq, PartialOrd, Ord, Hash)]
pub struct BasisClassId(pub(crate) [u8; 32]);

impl View for BasisClassId {
    type V = Seq<u8>;

    closed spec fn view(&self) -> Seq<u8> {
        self.0@
    }
}

impl BasisClassId {
    /// Identifier bytes.
    pub fn as_bytes(&self) -> (bytes: &[u8; 32])
        ensures
            bytes@ == self@,
    {
        &self.0
    }

    /// Construct an identifier from its serialized bytes.
    pub fn from_bytes(bytes: [u8; 32]) -> (id: Self)
        ensures
            id@ == bytes@,
    {
        BasisClassId(bytes)
    }

    /// Lower-case hexadecimal text of the identifier.
    pub fn to_hex(&self) -> (text: String)
        ensures
            text@ == hex_text(self@),
    {
        hex_digest(&self.0)
    }
}

/// One nonzero coefficient on an oriented edge.
#[derive(Debug, Clone, Copy, PartialEq, Eq, PartialOrd, Ord)]
pub struct CocycleTerm {
    /// Lower endpoint. The edge is oriented from `u` to `v`.
    pub u: usize,
    /// Higher endpoint.
    pub v: usize,
    /// Coefficient in `1..modulus`.
    pub coefficient: u32,
}

/// A prime-field H1 cocycle at a fixed scale.
#[derive(Debug, Clone, PartialEq, Eq)]
pub struct Cocycle {
    /// Prime coefficient modulus.
    pub modulus: u32,
    /// Bit pattern of the scale at which the terms represent the class.
    pub scale: u64,
    /// Nonzero terms in ascending endpoint order. The first coefficient is
    /// one.
    pub terms: Vec<CocycleTerm>,
}

/// One simplex that creates or destroys a persistence interval.
#[derive(Debug, Clone, PartialEq)]
pub struct CriticalSimplex {
    /// Vertices in ascending order.
    pub vertices: Vec<usize>,
    /// Bit pattern of the filtration value of the simplex.
    pub value: u64,
}

/// Creator and optional destroyer of one generated interval.
#[derive(Debug, Clone, PartialEq)]
pub struct CriticalPair {
    /// Edge that creates the H1 interval.
    pub birth: CriticalSimplex,
    /// Triangle that destroys a finite H1 interval.
    pub death: Option<CriticalSimplex>,
}

/// A critical simplex as plain values: its vertices and its value.
pub open spec fn critical_view(simplex: CriticalSimplex) -> (Seq<usize>, u64) {
    (simplex.vertices@, simplex.value)
}

/// A critical pair as plain values.
pub open spec fn pair_view(pair: CriticalPair) -> ((Seq<usize>, u64), Option<(Seq<usize>, u64)>) {
    (
        critical_view(pair.birth),
        match pair.death {
            Some(simplex) => Some(critical_view(simplex)),
            None => None,
        },
    )
}

} // verus!
