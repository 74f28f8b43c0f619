//! Versioned schema migrations for a relational database.
//!
//! The engine keeps a ledger of the versions that were applied, decides which
//! migrations a forward run has to apply and which a rollback has to revert,
//! and orders them by version. It talks to no database itself: it names each
//! statement and each action in turn, and the embedding program performs it
//! and reports how it went.

pub mod adapter;
pub mod migration;
