//! A SQL storage layer built around a transactional, versioned store
//! ("pristine") and lightweight key/value adapters, all speaking one
//! storage contract: fetch/scan/insert/delete for schemas and rows.

pub mod codec;
pub mod error;
pub mod l64;
pub mod pristine;
pub mod store;
pub mod types;
pub mod workers_kv;

use vstd::prelude::*;

verus! {

} // verus!
