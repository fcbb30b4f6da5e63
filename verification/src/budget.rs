//! Worker budget for the parallel regions of one reduction.
//!
//! The thread count of a run is the most workers it may use, not the number
//! every region must use. A region with little work runs faster on one
//! thread, so each region turns its own work estimate into a worker count,
//! and one worker means the serial path.

use vstd::prelude::*;

verus! {

/// A parallel region of the reduction. Each region has its own work unit.
#[derive(Clone, Copy, PartialEq, Eq, Debug)]
pub enum Region {
    /// Sorting a simplex slice. Work is the element count.
    Sort,
    /// Testing dimension-zero cycle edges for a zero-apparent cofacet.
    Prefilter,
    /// Cofacet assembly of one dimension. Work is the source simplex count.
    Assemble,
    /// Column reduction of one dimension. Work is the column count.
    Reduce,
}

/// Work one worker needs before it earns its share of the split.
pub open spec fn spec_work_per_worker(region: Region) -> nat {
    match region {
        Region::Sort => 10_000,
        Region::Prefilter => 64,
        Region::Assemble => 128,
        Region::Reduce => 16,
    }
}

/// Workers put on `work` units of `region` under a budget of `threads`:
/// the work divided by the region's unit, clamped to `1..=threads`.
pub open spec fn spec_workers(region: Region, work: nat, threads: nat) -> nat {
    if threads <= 1 {
        1
    } else {
        let share = work / spec_work_per_worker(region);
        if share < 1 {
            1
        } else if share > threads {
            threads
        } else {
            share
        }
    }
}

impl Region {
    /// Work one worker needs before it earns its share of the split.
    pub fn work_per_worker(self) -> (unit: usize)
        ensures
            unit == spec_work_per_worker(self),
            unit > 0,
    {
        match self {
            Region::Sort => 10_000,
            Region::Prefilter => 64,
            Region::Assemble => 128,
            Region::Reduce => 16,
        }
    }
}

/// Workers to put on `work` units of `region` under a budget of `threads`.
/// The result is 1 (the serial path) up to `threads`, and never more.
pub fn workers(region: Region, work: usize, threads: usize) -> (count: usize)
    ensures
        count == spec_workers(region, work as nat, threads as nat),
        1 <= count,
        threads >= 1 ==> count <= threads,
{
    if threads <= 1 {
        return 1;
    }
    let share = work / region.work_per_worker();
    if share < 1 {
        1
    } else if share > threads {
        threads
    } else {
        share
    }
}

} // verus!
