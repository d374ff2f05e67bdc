//! Session booking for a student society: a capacity-bounded registry of
//! sessions, a store of pending (unverified) booking requests keyed by a
//! random token, a ledger of confirmed registrations, and the coordinator
//! that moves a booking from request to registration. A leaderboard and a
//! ballot table live beside the booking core.
//!
//! Every operation is stated over a mathematical model of the tables
//! ([`model::StoreView`]) and verified against it.

pub mod api;
pub mod attendance;
pub mod error;
pub mod forms;
pub mod laws;
pub mod model;
pub mod registration;
pub mod request;
pub mod session;
pub mod store;
pub mod taskmaster_entry;
pub mod text;
pub mod vote;
