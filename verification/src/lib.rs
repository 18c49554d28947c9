use vstd::prelude::*;

pub mod fs_adapter;
pub mod layout;
pub mod model;
pub mod scan_store;
pub mod scanner;
pub mod session;
pub mod snapshot;
pub mod threads;
pub mod top_files;
pub mod totals;
pub mod tree;
pub mod treemap;
pub mod view;
pub mod walk;

verus! {

/// Sums two byte counts; the sum must fit in a `u64`.
pub fn add(left: u64, right: u64) -> (sum: u64)
    requires
        left + right <= u64::MAX,
    ensures
        sum == left + right,
{
    left + right
}

} // verus!
