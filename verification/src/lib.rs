//! Recovery of Base58Check addresses whose letter casing was lost.
//!
//! Given an address transcribed without case information, the library finds
//! every case assignment whose decoded 25-byte payload passes the embedded
//! double-SHA-256 checksum. An arithmetic branch-and-bound search prunes the
//! 2^k combination space using numeric interval bounds, and a batched
//! double-hash engine amortizes checksum computation across many candidates,
//! resolving each deferred candidate greedily once its batch is hashed. The
//! top-level entry point is [`search::recover`], whose contract states that
//! the output equals brute-force enumeration of every case combination.

pub mod big;
pub mod classify;
pub mod engine;
pub mod resolver;
pub mod search;
pub mod sha256;

pub use big::u200;
pub use classify::AmbiguityRecord;
pub use classify::ParsedInput;
pub use classify::RecoverError;
pub use engine::ParallelChecksum;
pub use engine::PendingVerification;
pub use search::recover;
