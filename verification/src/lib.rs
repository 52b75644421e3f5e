//! A minimal membership registry: a mapping from club identifiers (byte
//! strings) to ordered lists of member accounts, mutable only by the root
//! authority, with a notification event returned on each successful mutation.
//!
//! The registry is a pure, synchronous state-transition component: the host
//! runtime supplies the initial data once ([`registry::GenesisConfig`]),
//! serializes all calls, and receives an event or an error back from each
//! operation ([`registry::Pallet::add_member`],
//! [`registry::Pallet::remove_member`]).

pub mod laws;
pub mod model;
pub mod registry;
pub mod types;
