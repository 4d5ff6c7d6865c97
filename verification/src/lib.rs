//! A mental-poker core: commutative card encryption over the Pallas curve,
//! a card/group-element translation table, a multi-party shuffle state
//! machine, zero-knowledge verifiable-shuffle proofs, and the ownership
//! bookkeeping that resolves draws and plays.

pub mod cards;
pub mod con_startup;
pub mod encryption;
pub mod fiat_shamir;
pub mod game;
pub mod group;
pub mod message;
pub mod moves;
pub mod player;
pub mod serial;
pub mod shuffle;
pub mod verifiable;
