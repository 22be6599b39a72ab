//! A chat room for named users.
//!
//! * [`names`] decides which names a user may take.
//! * [`state`] keeps who is in the room and says who is told of what.
//! * [`lines`] words what the users are sent.

pub mod names;
pub mod state;
pub mod lines;
