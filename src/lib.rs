//! A chat room over a transactional ordered key-value store: the key schema,
//! message timestamps, the session protocol and the message cursor, with the
//! laws that tie them together.
pub mod bytes;
pub mod iter;
pub mod keys;
pub mod laws;
pub mod session;
pub mod stamp;
