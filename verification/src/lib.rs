//! The scheduling engine of a payment-channel sentinel.
//!
//! Logs of the contract are decoded into events ([`event`]) and stored once
//! each ([`store`]). An opened channel gets a row in the registry
//! ([`registry`]), which also holds the lease that guards its execution
//! ([`lease`]). The due-time cache ([`cache`]) keeps the channels in the order
//! in which they fall due, and the scheduler ([`scheduler`]) takes the due
//! ones from it at every tick, leases them and hands them out for execution,
//! never more at once than the settings ([`config`]) allow. A channel under
//! a live lease is passed over until the lease has ended, and then takes its
//! place by its due time. What each step of the scheduler does is written
//! down over plain values in [`model`], and what holds of every step in
//! [`laws`]. How rows are laid out where they are kept is in [`layout`].

pub mod assoc;
pub mod backoff;
pub mod cache;
pub mod config;
pub mod digest;
pub mod event;
pub mod ident;
pub mod laws;
pub mod layout;
pub mod lease;
pub mod model;
pub mod registry;
pub mod scheduler;
pub mod seqs;
pub mod store;
pub mod time;
