//! Competitive rankings for groups of players.
//!
//! Each community owns an independent standing of players ordered by a
//! compound score key, while players are looked up by a stable identity
//! key.  A registry isolates one standing per community, and a snapshot
//! codec turns the whole registry into bytes and back losslessly, so that
//! an embedding can persist every mutation durably before acknowledging it.

pub mod laws;
pub mod order;
pub mod registry;
pub mod serializing;
pub mod system;
pub mod view;
