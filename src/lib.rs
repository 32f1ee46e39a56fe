//! An embedded key-value store kept in two append-only logs: a command log
//! holding the values, and an index log of pointers into it that speeds up
//! recovery. Both logs are byte images held in memory; whoever owns the files
//! writes out what the store appends, and cuts them back where recovery did.
use vstd::prelude::*;

pub mod codec;
pub mod error;
pub mod frame;
pub mod index;
pub mod recovery;
pub mod store;
pub mod wal;

pub use codec::Record;
pub use error::KvsError;
pub use store::KvStore;
pub use wal::{WalIterator, WalLog};

verus! {

/// The results of the store's operations.
pub type Result<T> = std::result::Result<T, KvsError>;

} // verus!
