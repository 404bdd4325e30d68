//! A cursor-based builder for a region/block/operation intermediate
//! representation. The arena in [`ir`] owns the IR and provides the raw
//! splice and compare primitives; the [`builder`] module sequences them
//! behind an insertion-point state machine.

pub mod builder;
pub mod ir;
pub mod text;

pub use builder::Builder;
pub use builder::InsertPoint;
pub use ir::Block;
pub use ir::Context;
pub use ir::Location;
pub use ir::Operation;
pub use ir::Region;
pub use ir::TypeHandle;
