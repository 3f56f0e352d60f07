//! Client-side implementation of a comet (HTTP long-polling) push protocol
//! and the application protocol state machine built on top of it: session
//! establishment, outbound message batching, bounded-concurrency long-poll
//! workers, message-type dispatch, deferred login, and token-epoch paginated
//! search.

pub mod args;
pub mod client;
pub mod comet;
pub mod hash;
pub mod json;
pub mod media;
