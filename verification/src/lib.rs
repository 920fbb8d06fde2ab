//! A pooled-stake betting round that settles into a balance ledger.
//!
//! * [`ledger`] keeps what every participant holds and the supply, their sum.
//! * [`bet`] is the round: it gathers stakes, feeds every bet to a running
//!   SHA-224 digest, takes the winner from that digest and pays the winners
//!   into the ledger.
//! * [`upgrade`] writes the whole state down before a restart and reads it
//!   back after it, holding what it reads to the invariants of ledger and
//!   round.
//! * [`management`] holds the configuration and the guard of the privileged
//!   calls.
//! * [`assoc`] is the mathematics underneath the tables, [`digest`] and
//!   [`capacity`] are the calls into `sha2` and `std` that are taken on
//!   trust.

pub mod assoc;
pub mod bet;
pub mod capacity;
pub mod digest;
pub mod error;
pub mod ledger;
pub mod management;
pub mod participant;
pub mod upgrade;
