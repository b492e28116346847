//! Request admission for an API gateway: fixed-window rate limiting per
//! route or backend and per caller, caller identification, and the decision
//! that a request handler acts on.
pub mod admission;
pub mod config;
pub mod counter;
pub mod guarantees;
pub mod identity;
pub mod ipv4;
pub mod origin;
pub mod table;
pub mod store;
