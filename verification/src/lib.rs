//! Reconciliation and publication pipeline for a directory-backed
//! authentication-server configuration.
//!
//! The library merges user records fetched from a remote directory against a
//! persistent username-to-uid store, renders the result into a configuration
//! text in a stable order, and decides whether the rendered text must be
//! published. All transport and file I/O lives outside the library; every
//! function here is verified against its contract.

pub mod elasticsearch;
pub mod pipeline;
pub mod publish;
pub mod reconcile;
pub mod render;
pub mod text;
pub mod userdb;
