//! A delegated account control plane.
//!
//! A "magic" key authorizes a separate "controller" key to operate a
//! custodial "stash" account on its behalf.  The stash identity is derived
//! deterministically from the magic identity and the creation height, three
//! mutually consistent lookup tables relate the three identities, and a
//! filtered proxy lets the controller execute operations as the stash
//! without being able to re-derive or escalate the delegation.

pub mod account;
pub mod table;
pub mod ledger;
pub mod pallet;
pub mod index;
pub mod laws;
pub mod rpc;
