//! Slot assignment for SSA values on a stack machine with typed local slots.
//!
//! A function body arrives as a linear stream of operators in which every use
//! of an SSA value is an explicit read of a slot and every definition an
//! explicit write.  The crate decides which slot each (value, component) pair
//! lives in, so that as few new slots as possible are declared and no slot is
//! ever shared between two values that are live at once or differ in type.
//!
//! The work is done in four steps, each a module of its own:
//! write/read runs that cancel out are dropped ([`eliminate`]), every
//! remaining pair gets its live range ([`liveness`]), the ranges are put in
//! order of their ends ([`order`]), and one pass over both orders hands out
//! the slots ([`sweep`]).  [`locations`] ties the steps together; its
//! [`Locations::compute`] is the way in.
//!
//! [`laws`] states what holds of every result.  The proofs behind it are in
//! [`tracking`] and [`extent`] for the live ranges, and in [`sharing`] and
//! [`peak`] for the slots.
//!
//! The maps are `fxhash` maps.  What is believed of them without proof is in
//! [`fxmap`], and nowhere else.

pub mod eliminate;
pub mod error;
pub mod extent;
pub mod fxmap;
pub mod ir;
pub mod laws;
pub mod liveness;
pub mod locations;
pub mod order;
pub mod peak;
pub mod sharing;
pub mod sweep;
pub mod tracking;

pub use crate::eliminate::eliminate;
pub use crate::error::AllocError;
pub use crate::fxmap::pack_key;
pub use crate::ir::FunctionBody;
pub use crate::ir::LocalId;
pub use crate::ir::SerializedBody;
pub use crate::ir::SerializedOperator;
pub use crate::ir::Type;
pub use crate::ir::Value;
pub use crate::liveness::ValueSpan;
pub use crate::locations::compute_spans;
pub use crate::locations::Allocator;
pub use crate::locations::Locations;
pub use crate::order::sort_by_end;
