//! A reverse impact index over static-analysis reports: from each affected
//! source location to the rule sets, violations and incidents that concern it.
//! Beside it stand a small ledger and the decisions of an access-key audit.

pub mod audit;
pub mod builder;
pub mod checks;
pub mod counts;
pub mod filter;
pub mod impact;
pub mod laws;
pub mod ledger;
pub mod name_map;
pub mod report;
pub mod steps;
pub mod sums;
