//! A small reactive core: signal cells, tracked computations with a batched
//! scheduler, and a keyed list reconciler.
pub mod counter;
pub mod keyed;
pub mod rows;
pub mod reactive;
pub mod todo;
