//! Core of a remote-to-local directory mirroring tool.
//!
//! The library holds the protocol-agnostic logic of the tool: the
//! run-scoped conflict resolver that decides whether an existing local
//! file is overwritten, the bounded-retry policy that guards the
//! connection and authentication steps, the parser for text directory
//! listings, path joining, and the mirror engine that turns a remote
//! directory tree into the sequence of local filesystem actions.
//! Network transports and the operator prompt itself live outside the
//! library and hand it plain values.

pub mod conflict;
pub mod fsmodel;
pub mod listing;
pub mod mirror;
pub mod paths;
pub mod retry;
