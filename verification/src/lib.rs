//! Grapple: mirrors GitHub repositories to other remotes when a webhook
//! announces a change.
//!
//! The library holds the decisions of the service: which configured mapping a
//! webhook belongs to, whether its signature is genuine, how a local mirror
//! repository is opened, and which references have to be created, updated or
//! deleted on the push remote so that it mirrors the fetch remote.

pub mod config;
pub mod errors;
pub mod git_repository;
pub mod github;
pub mod has_repository;
pub mod server;
pub mod webhook;
