//! Persistence intervals with filtration values held as IEEE-754 bit
//! patterns.
//!
//! Every value a certificate accepts is non-negative and not NaN; on such
//! values the order of the bit patterns is the numeric order, and the
//! pattern `INFINITY_BITS` is positive infinity.

use vstd::prelude::*;

use crate::certificate::order::{
    is_permutation, key_le, key_lt, key_positions, lemma_sorted_keys, sort_keys, SimplexKey,
};

verus! {

/// Bit pattern of positive infinity.
pub const INFINITY_BITS: u64 = 0x7ff0_0000_0000_0000;

/// One persistence interval in homology dimension `dim`.
#[derive(Debug, Clone, Copy, PartialEq, Eq, Structural)]
pub struct Bar {
    /// Homology dimension.
    pub dim: usize,
    /// Bit pattern of the birth value.
    pub birth: u64,
    /// Bit pattern of the death value; `INFINITY_BITS` for an essential class.
    pub death: u64,
}

/// A persistence diagram: its intervals in canonical order.
#[derive(Debug, Clone, PartialEq, Eq)]
pub struct Diagram {
    /// The intervals.
    pub bars: Vec<Bar>,
}

impl View for Diagram {
    type V = Seq<Bar>;

    open spec fn view(&self) -> Seq<Bar> {
        self.bars@
    }
}

/// Canonical diagram order: by dimension, then birth pattern, then death
/// pattern.
pub open spec fn bar_before(first: Bar, second: Bar) -> bool {
    ||| first.dim < second.dim
    ||| first.dim == second.dim && first.birth < second.birth
    ||| first.dim == second.dim && first.birth == second.birth && first.death <= second.death
}

/// The sort key of the bar at `position`: its dimension, then its birth
/// and death patterns packed into one number, then its position.
pub open spec fn bar_key(bar: Bar, position: int) -> SimplexKey {
    (bar.dim as u64, (bar.birth as int * 0x1_0000_0000_0000_0000 + bar.death as int) as u128, position as usize)
}

proof fn lemma_bar_key_order(first: Bar, second: Bar, a: int, b: int)
    requires
        key_le(bar_key(first, a), bar_key(second, b)),
    ensures
        bar_before(first, second),
{
    let x = first.birth as int;
    let y = first.death as int;
    let z = second.birth as int;
    let w = second.death as int;
    assert(x * 0x1_0000_0000_0000_0000 + y < 0x1_0000_0000_0000_0000_0000_0000_0000_0000) by (nonlinear_arith)
        requires
            0 <= x < 0x1_0000_0000_0000_0000,
            0 <= y < 0x1_0000_0000_0000_0000,
    ;
    assert(z * 0x1_0000_0000_0000_0000 + w < 0x1_0000_0000_0000_0000_0000_0000_0000_0000) by (nonlinear_arith)
        requires
            0 <= z < 0x1_0000_0000_0000_0000,
            0 <= w < 0x1_0000_0000_0000_0000,
    ;
    if first.dim == second.dim {
        assert(x * 0x1_0000_0000_0000_0000 + y <= z * 0x1_0000_0000_0000_0000 + w ==> (x < z || (x == z && y <= w)))
            by (nonlinear_arith)
            requires
                0 <= y < 0x1_0000_0000_0000_0000,
                0 <= w < 0x1_0000_0000_0000_0000,
        ;
    }
}

/// Sorts the intervals into canonical order.
pub fn canonicalize(diagram: &mut Diagram)
    ensures
        exists|order: Seq<int>|
            #[trigger] is_permutation(order, old(diagram)@.len()) && final(diagram)@.len() == old(diagram)@.len()
                && forall|j: int| 0 <= j < final(diagram)@.len() ==> #[trigger] final(diagram)@[j] == old(diagram)@[order[j]],
        forall|i: int, j: int| 0 <= i < j < final(diagram)@.len() ==> bar_before(final(diagram)@[i], final(diagram)@[j]),
{
    let ghost bars = diagram@;
    let mut keys: Vec<SimplexKey> = Vec::new();
    let mut index: usize = 0;
    while index < diagram.bars.len()
        invariant
            bars == diagram@,
            index <= bars.len(),
            keys@.len() == index,
            forall|k: int| 0 <= k < index ==> #[trigger] keys@[k] == bar_key(bars[k], k),
        decreases bars.len() - index,
    {
        let bar = diagram.bars[index];
        proof {
            assert(bar.birth as int * 0x1_0000_0000_0000_0000 + bar.death as int <= u128::MAX) by (nonlinear_arith)
                requires
                    bar.birth <= u64::MAX,
                    bar.death <= u64::MAX,
            ;
        }
        let packed = (bar.birth as u128) * 0x1_0000_0000_0000_0000 + bar.death as u128;
        keys.push((bar.dim as u64, packed, index));
        index += 1;
    }
    let ghost unsorted = keys@;
    sort_keys(&mut keys);
    proof {
        lemma_sorted_keys(unsorted, keys@);
    }
    let mut sorted: Vec<Bar> = Vec::new();
    let mut j: usize = 0;
    while j < keys.len()
        invariant
            bars == diagram@,
            keys@.len() == bars.len(),
            j <= keys@.len(),
            sorted@.len() == j,
            forall|k: int| 0 <= k < keys@.len() ==> #[trigger] keys@[k] == unsorted[keys@[k].2 as int],
            is_permutation(key_positions(keys@), bars.len() as nat),
            forall|k: int| 0 <= k < j ==> #[trigger] sorted@[k] == bars[keys@[k].2 as int],
        decreases keys@.len() - j,
    {
        let position = keys[j].2;
        proof {
            assert(key_positions(keys@)[j as int] == position);
        }
        sorted.push(diagram.bars[position]);
        j += 1;
    }
    proof {
        let order = key_positions(keys@);
        assert forall|a: int, b: int| 0 <= a < b < sorted@.len() implies bar_before(sorted@[a], sorted@[b]) by {
            assert(keys@[a] == unsorted[order[a]]);
            assert(keys@[b] == unsorted[order[b]]);
            assert(key_lt(keys@[a], keys@[b]));
            lemma_bar_key_order(bars[order[a]], bars[order[b]], order[a], order[b]);
        }
        assert(forall|k: int| 0 <= k < sorted@.len() ==> #[trigger] sorted@[k] == bars[order[k]]);
        assert(is_permutation(order, bars.len()));
    }
    diagram.bars = sorted;
}

} // verus!
