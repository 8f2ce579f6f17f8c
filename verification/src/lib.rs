//! Exact topology-search bookkeeping: canonical proof-carrying no-goods,
//! root-partition proof ledgers, profile port accounting and hotspot counters.

pub mod sorted;
pub mod exact;
pub mod encoding;
pub mod topology;
pub mod no_good;
pub mod failure;
pub mod planner;
pub mod profile;
pub mod hotspot_profile;
pub mod problem;
pub mod reachability;
pub mod search;
pub mod leaf;
pub mod lower_bound;
pub mod process;
pub mod native_api;
pub mod portfolio;
pub mod proof_ledger;
pub mod scc;
