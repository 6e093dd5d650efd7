//! A local, single-writer bookkeeping engine for a forest of block branches.
//!
//! Blocks arrive one at a time and may extend a branch tip, start a new
//! branch, or fork off a block buried inside an existing branch. Every branch
//! carries the account balances obtained by replaying its transactions, and
//! balance queries are answered from the branch chosen as canonical.
//!
//! Where more than one behaviour would be defensible, the engine does this:
//!
//! - A block whose parent is neither a tip nor a block of any branch is
//!   dropped: the ingestion succeeds and changes nothing.
//! - A root that is taken in twice starts a second branch with the same
//!   block and the same ledger; no balance query is answered differently.
//! - A transfer from an unknown or underfunded sender debits nobody and
//!   still credits the recipient.
//! - The canonical branch is the one whose ledger has the most accounts,
//!   and of several such the newest.
//! - An account that the canonical branch lacks has the balance zero, and
//!   so has every account while there is no branch: no query fails.
//! - A block that would carry a balance past `u64::MAX` is refused, and the
//!   registry stays as it was.
//!
//! [`registry`] holds the model that the contracts speak of, [`laws`] and
//! [`conservation`] what is proved of it, and [`service`] the engine.

pub mod blocks;
pub mod branches;
pub mod chain;
pub mod conservation;
pub mod error;
pub mod laws;
pub mod ledger;
pub mod registry;
pub mod scenario;
pub mod service;
pub mod text;

pub use chain::Block;
pub use error::ServiceError;
pub use ledger::{Account, Ledger, Transaction};
pub use scenario::{Event, Scenario};
pub use service::{Service, ServiceImpl};
