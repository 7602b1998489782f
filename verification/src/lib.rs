//! The network side of a game server: packets and frames, connections, console and chat
//! commands, and the item economy of the world, each with a verified contract.
//!
//! Single-precision numbers appear as their bits. Comparing them is done here; sums and
//! products come in from outside, as functions that must be pure.

use vstd::prelude::*;

pub mod codec;
pub mod commands;
pub mod content;
pub mod conveyor;
pub mod economy;
pub mod float_bits;
pub mod laws;
pub mod listener;
pub mod logistics;
pub mod outbound;
pub mod packets;
pub mod parallel;
pub mod production;
pub mod protocol;
pub mod registry;
pub mod rpc;
pub mod runtime;
pub mod spacing;
pub mod startup;
pub mod text;
pub mod wire;

verus! {

} // verus!
