//! A content-addressed task-verification engine.
//!
//! Operators declare named checks (shell commands together with the files
//! they depend on).  The engine hashes the files, decides which checks must
//! run, orders them along a dependency graph, records outcomes in a lock
//! file, and attests verified states through git commit trailers.

pub mod cache;
pub mod config;
pub mod graph;
pub mod hasher;
pub mod metadata;
pub mod output;
pub mod runner;
pub mod strmap;
pub mod text;
pub mod trailer;
