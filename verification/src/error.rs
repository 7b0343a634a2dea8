//! Why a function body cannot be allocated.

use crate::ir::Value;
use vstd::prelude::*;

verus! {

/// A defect of the input.  Each one means that the stage that produced the
/// stream or the function's metadata is wrong; none can be recovered from.
#[derive(Clone, Copy, Debug, PartialEq, Eq)]
pub enum AllocError {
    /// Component `index` of `value` is read where no earlier operator that
    /// is kept has written it.
    ReadBeforeWrite { value: Value, index: usize },
    /// Component `index` of `value` is written, but the function records no
    /// type for it.
    UntypedValue { value: Value, index: usize },
    /// The function would need a slot whose number does not fit a `LocalId`.
    TooManyLocals,
}

} // verus!
