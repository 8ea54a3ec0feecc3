//! Round settlement engine for a ticket-based prize round.
//!
//! Participants buy tickets with a fungible token; a round closes on a funding
//! or time target, and a subset of wallets is selected deterministically to
//! split the accumulated pot, with optional royalty cuts taken off the top.
//! The host that persists state and moves tokens is an external collaborator:
//! this crate holds the round lifecycle, the entropy accumulator, the winner
//! selection engine and the claims ledger, all as pure functions over an
//! in-memory [`state::State`].

pub mod bytes;
pub mod error;
pub mod execute;
pub mod incentive;
pub mod laws;
pub mod lottery;
pub mod msg;
pub mod player;
pub mod query;
pub mod random;
pub mod round;
pub mod royalties;
pub mod selection;
pub mod state;
pub mod ticket_order;
pub mod utils;
pub mod winner;
