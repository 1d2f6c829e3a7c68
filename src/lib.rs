//! The traffic-enforcement service: its wire protocol, the per-connection
//! role state machine, the shared registry and sighting log, and the engine
//! that turns pairs of sightings into tickets. Beside it stand the pure parts
//! of the companion network services: chat name checking, the prime service's
//! malformed-request reply, the price history and its mean query, and the
//! proxy's address rewriting.
pub mod codec;
pub mod state;
pub mod session;
pub mod engine;
pub mod chat;
pub mod prime;
pub mod prices;
pub mod proxy;
