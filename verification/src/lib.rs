//! A rule-driven task dispatcher: events taken from an input queue are matched
//! against a set of rules; each matching rule derives one or more (task, queue)
//! pairs, which are pushed to their destination queues unless an identical task
//! was already dispatched there (deduplication through a scored tracking set).
//!
//! The crate verifies the rule evaluation engine (pattern matching, capture
//! extraction, fan-out expansion, template injection) and the reliable watch
//! loop (transfer-semantics consumption, per-result deduplication,
//! acknowledgment) against an in-memory model of the broker contract.

pub mod assoc;
pub mod broker;
pub mod conditions;
pub mod errors;
pub mod fetchers;
pub mod patterns;
pub mod props;
pub mod rules;
pub mod watchers;
