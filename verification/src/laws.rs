//! What the operations of the library are for, said without how they do it: in coordinates,
//! counts and membership.

use vstd::prelude::*;

pub mod belts;
pub mod calls;
pub mod catalogue;
pub mod chat;
pub mod console;
pub mod factories;
pub mod frames;
pub mod links;
pub mod mining;
pub mod texts;
pub mod threads;
pub mod transport;
pub mod workshop;
pub mod worlds;

verus! {

} // verus!
