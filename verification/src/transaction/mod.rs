pub mod durable;
pub mod manager;
pub mod snapshot;
pub mod state;
pub mod tuple_codec;
pub mod version;
pub mod version_chain;
pub mod visibility;

pub use manager::{Transaction, TransactionError, TransactionId, TransactionManager};
pub use snapshot::Snapshot;
pub use state::TransactionState;
pub use tuple_codec::{decode_tuple, encode_tuple, TupleCodecError};
pub use version::TupleVersion;
pub use version_chain::{VersionChain, VersionChainError};
pub use visibility::transaction_visible;
pub use durable::DurableTransactionError;
