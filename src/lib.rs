//! Core of a multi-tenant task board: nested board documents, scoped id
//! allocation, sparse patches, access rules and sliding-expiry sessions.

pub mod access;
pub mod auth;
pub mod color;
pub mod compat;
pub mod consistency;
pub mod keys;
pub mod model;
pub mod patch;
pub mod prepare;
pub mod repo;
pub mod scope;
