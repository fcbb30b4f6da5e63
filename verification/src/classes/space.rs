//! Canonical H1 class spaces and the diagram they explain.

use vstd::prelude::*;

use crate::diagram::{Bar, Diagram};

use super::provenance::PersistentClass;
use super::{CriticalPair, IntervalGroupId};

verus! {

/// All H1 classes with the same interval, represented as one class space.
///
/// Equal intervals do not have intrinsic individual identities: `basis`
/// is a deterministic row-reduced basis tied to the labeled input graph.
#[derive(Debug, Clone, PartialEq)]
pub struct PersistentClassSpace {
    /// Identifier derived from the interval and canonical basis.
    pub id: IntervalGroupId,
    /// Shared H1 persistence interval.
    pub interval: Bar,
    /// Canonical basis of this class space.
    pub basis: Vec<PersistentClass>,
    /// Creator and destroyer pairs from the fixed reduction before basis
    /// canonicalization.
    pub critical_pairs: Vec<CriticalPair>,
}

/// Diagram plus canonical spaces for every positive H1 interval.
#[derive(Debug, Clone)]
pub struct ExplainedDiagram {
    /// Full persistence diagram through the requested dimension.
    pub diagram: Diagram,
    /// H1 class spaces in interval order, then identifier order.
    pub spaces: Vec<PersistentClassSpace>,
}

/// Number of basis vectors over the first `count` class spaces.
pub open spec fn class_total(spaces: Seq<PersistentClassSpace>, count: int) -> nat
    decreases count,
{
    if count <= 0 {
        0
    } else {
        class_total(spaces, count - 1) + spaces[count - 1].basis@.len()
    }
}

impl ExplainedDiagram {
    /// Number of positive H1 intervals, including multiplicity: the basis
    /// vectors of every class space.
    pub fn class_count(&self) -> (count: usize)
        requires
            class_total(self.spaces@, self.spaces@.len() as int) <= usize::MAX,
        ensures
            count == class_total(self.spaces@, self.spaces@.len() as int),
    {
        let mut count: usize = 0;
        let mut index: usize = 0;
        while index < self.spaces.len()
            invariant
                index <= self.spaces@.len(),
                count == class_total(self.spaces@, index as int),
                class_total(self.spaces@, self.spaces@.len() as int) <= usize::MAX,
            decreases self.spaces@.len() - index,
        {
            proof {
                lemma_class_total_grows(self.spaces@, index as int + 1, self.spaces@.len() as int);
            }
            count = count + self.spaces[index].basis.len();
            index += 1;
        }
        count
    }
}

/// The running total does not decrease.
proof fn lemma_class_total_grows(spaces: Seq<PersistentClassSpace>, first: int, second: int)
    requires
        first <= second,
    ensures
        class_total(spaces, first) <= class_total(spaces, second),
    decreases second - first,
{
    if first < second {
        lemma_class_total_grows(spaces, first, second - 1);
    }
}

} // verus!
