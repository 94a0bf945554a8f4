pub mod errors;
pub mod write;

pub use errors::{DurableTransactionalHeapError, TransactionalHeapError};
pub use write::{ensure_active, plan_delete, plan_update, WriteRejection};
