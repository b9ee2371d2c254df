//! An identity-provider core library.
//!
//! Two verified components make up the crate:
//!
//! - a certified signature store ([`signature_map`]): an order-independent,
//!   incrementally updatable Merkle set over `(seed hash, message hash)`
//!   pairs that yields a single root commitment and per-entry witnesses;
//! - a temporary-key session registry ([`temp_keys`]): lifecycle tracking of
//!   short-lived onboarding and device-bound keys with amortized expiry
//!   sweeping under a configurable capacity ceiling.
//!
//! Around them stand the account directory ([`accounts`]) and the static
//! asset table ([`assets`]) that the service endpoints consult.

pub mod accounts;
pub mod assets;
pub mod hash_tree;
pub mod hashing;
pub mod rep_hash;
pub mod signature_map;
pub mod temp_keys;
