//! A DNS front-end for a blockchain naming layer.
//!
//! Domains under a whitelisted set of chain top-level labels are resolved by
//! probing per-account naming contracts in a deterministic hierarchical order
//! with wildcard fallback; everything else is delegated to a conventional
//! upstream resolver.  Results are memoized in a two-tier cache that keeps
//! contract-existence verdicts and per-(contract, name, type) record sets,
//! where an empty cached set is a remembered negative answer.

pub mod authority;
pub mod cache;
pub mod contract_store;
pub mod ip;
pub mod probes;
pub mod resolver;
pub mod upstream;
pub mod records;
pub mod text;
