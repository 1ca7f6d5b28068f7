//! A discrete-time taxi dispatch simulation: a fixed fleet is matched, tick
//! by tick, against a stream of arriving requests, each of which either gets
//! served within its budgets or abandons; finished requests move to an
//! append-only archive. Every state change is specified and verified, down
//! to the bijection between occupied taxis and served requests.

pub mod laws;
pub mod request;
pub mod taxi;
pub mod world;
