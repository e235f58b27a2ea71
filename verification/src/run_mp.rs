//! The values that preparing a list of patterns hands to the scan.

use vstd::prelude::*;

verus! {

/// One piece of what preparing a list of patterns yields.
pub enum PatternData<T> {
    PatternCount(usize),
    PatternIntVecVec(Vec<Vec<i32>>),
    PatternUsizeVec(Vec<usize>),
    PatternTypeVec(Vec<T>),
}

} // verus!
