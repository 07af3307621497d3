//! A small Kanban-board backend core: boards and cards kept in a relational
//! store, every operation guarded by a bearer-token lookup.
//!
//! The crate verifies the two parts with real contracts: the staged
//! `Authorization` header validation that admits or rejects a request before
//! any handler runs, and the data operations (board and card CRUD plus the
//! per-status summary) stated against a mathematical model of the store.

pub mod auth;
pub mod models;
pub mod routes;
pub mod store;
