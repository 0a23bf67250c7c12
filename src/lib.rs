//! A minimal entity component store: typed attribute columns kept as sparse
//! sets, a join over them, a run-time reader/writer rule per attribute type,
//! and an ordered list of systems that may change itself while it runs.
pub mod borrow;
pub mod entity;
pub mod query;
pub mod scheduler;
pub mod sparse_set;

pub use borrow::{Access, AliasError, BorrowState, BorrowTable, PendingRemovals};
pub use entity::{Entity, EntityCounter};
pub use query::{Always, JoinCursor, JoinRow, Probe, QueryError, QueryPlan, Request};
pub use scheduler::{RunCursor, Scheduler, SysId};
pub use sparse_set::SparseSet;
