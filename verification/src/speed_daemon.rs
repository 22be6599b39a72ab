//! A traffic speed enforcement server, without the sockets.
//!
//! Cameras report timestamped plate sightings on a road; dispatchers take
//! responsibility for roads; the server turns pairs of sightings into
//! tickets and routes each ticket to a dispatcher of its road.
//!
//! * [`codec`] frames and parses the binary messages.
//! * [`session`] is the per-connection state machine.
//! * [`tickets`] stores sightings and decides which tickets are issued.
//! * [`router`] delivers tickets to dispatchers or holds them back.
//! * [`heartbeat`] computes when keepalives are due.
//! * [`server`] ties the parts together behind one owned state value.

pub mod codec;
pub mod tickets;
pub mod router;
pub mod session;
pub mod heartbeat;
pub mod state;
