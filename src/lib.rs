//! Core of a local gateway to a generative-model server: the shared chat
//! transcript, the single-flight download coordinator, the stream relay and
//! the user-facing messages, each with its contract.
pub mod transcript;
pub mod models;
pub mod downloads;
pub mod relay;
pub mod pull;
pub mod messages;
