//! Murmur: gossip-style sharing between rooms of a network.
//!
//! Rooms are joined by neighbour links and, once per round, every room
//! whispers a share of its vibe to each neighbour. This crate holds the
//! structure of that network (which rooms exist, who neighbours whom, how
//! many murmurs each room has sent and received) and the bookkeeping of a
//! round: which murmurs are sent, which are delivered, dropped or lost.
//! The vibe amounts themselves are floating-point values kept by the caller,
//! who applies each round's deliveries to them.

pub mod room;
pub mod network;
pub mod round;
pub mod laws;
