//! What is measured of one function.

use vstd::prelude::*;

verus! {

#[derive(Debug, Clone, Copy, PartialEq, Eq, Structural)]
pub struct FunctionMetrics {
    pub physical_loc: u32,
    pub source_loc: u32,
    pub cyclomatic_complexity: u32,
    pub cognitive_complexity: u32,
}

} // verus!
