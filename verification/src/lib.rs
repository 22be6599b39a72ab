//! Verified cores of a family of small network protocol servers.
//!
//! The heart of the crate is [`speed_daemon`]: the wire codec, session state
//! machine, ticket engine and dispatch router of a traffic speed enforcement
//! server.  The remaining modules hold the protocol logic of simpler
//! services: a semicolon-delimited line codec, a chat room, a price store, a
//! primality service, a key-value store and a payment-address rewriter.
//!
//! Everything here is pure protocol logic on plain values and byte buffers;
//! sockets, timers and task scheduling are left to the caller.

pub mod budget_chat;
pub mod buffer;
pub mod endian;
pub mod means_to_an_end;
pub mod mob_in_the_middle;
pub mod prime_time;
pub mod seqs;
pub mod speed_daemon;
pub mod text;
pub mod unusual_database_program;
