//! Pivot tables: which column owns each reduced pivot row.
//!
//! The table is rustc-hash's `FxHashMap`, the standard library hash map
//! with the deterministic `FxBuildHasher`. Its contents are named by
//! [`pivot_table`]; the three wrappers below are the only calls into it.

use rustc_hash::{FxBuildHasher, FxHashMap};
use vstd::prelude::*;

verus! {

/// rustc-hash's deterministic hash builder.
#[verifier::external_type_specification]
#[verifier::external_body]
pub struct ExFxBuildHasher(FxBuildHasher);

/// A table from pivot rows to the columns that own them.
pub type PivotTable = FxHashMap<usize, usize>;

/// The `pivot -> column` entries a pivot table holds.
pub uninterp spec fn pivot_table(table: PivotTable) -> Map<usize, usize>;

/// Calls `FxHashMap::default`: the new table holds no entry.
#[verifier::external_body]
pub(crate) fn new_pivot_table() -> (created: PivotTable)
    ensures
        pivot_table(created) =~= Map::empty(),
{
    FxHashMap::default()
}

/// Calls `HashMap::insert` on the table: `pivot` now maps to `column`, and
/// the result is the column it mapped to before, if any.
#[verifier::external_body]
pub(crate) fn pivot_table_insert(
    table: &mut PivotTable,
    pivot: usize,
    column: usize,
) -> (previous: Option<usize>)
    ensures
        pivot_table(*final(table)) == pivot_table(*old(table)).insert(pivot, column),
        previous == if pivot_table(*old(table)).contains_key(pivot) {
            Some(pivot_table(*old(table))[pivot])
        } else {
            None::<usize>
        },
{
    table.insert(pivot, column)
}

/// Calls `HashMap::get` on the table: the column that owns `pivot`, if any.
#[verifier::external_body]
pub(crate) fn pivot_table_get(table: &PivotTable, pivot: usize) -> (owner: Option<
    usize,
>)
    ensures
        owner == if pivot_table(*table).contains_key(pivot) {
            Some(pivot_table(*table)[pivot])
        } else {
            None::<usize>
        },
{
    table.get(&pivot).copied()
}

} // verus!
