//! A transactional key-value store whose commits come with a Merkle proof
//! that a third party can check against claimed old and new values.

pub mod order;
pub mod digest;
pub mod merkle;
pub mod entries;
pub mod store;
pub mod txn;
pub mod audit;
pub mod laws;

pub use audit::{check_update, verify_secure_update, Verdict};
pub use digest::hash_kv;
pub use txn::{Proof, Transaction, VerifiableDB};
