//! A minimal cooperative task core: lazy, single-use tasks, pure
//! combinators that compose them, and a driver that polls one task tree
//! to completion on the calling thread.

pub mod task;
pub mod construct;
pub mod combine;
pub mod drive;
pub mod laws;
