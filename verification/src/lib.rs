//! Verified core of `gh_sync`, a tool that keeps subdirectories of a host
//! git repository in sync with external remote repositories through
//! subtree merges.
//!
//! The crate holds the mapping registry (which subdirectory tracks which
//! remote and branch, persisted in the engine's local key/value
//! configuration) and the synchronisation protocol that sequences remote
//! registration, fetch, and subtree merge/import/push operations.  The
//! version-control engine itself is an external collaborator: this crate
//! decides which engine command to issue next and classifies each outcome,
//! while an unverified shell spawns the processes and feeds the results
//! back.

pub mod config;
pub mod gitops;
pub mod orchestrator;
pub mod strutil;
