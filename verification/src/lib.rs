//! A resilient retrieval pipeline for a read-only course-management service
//! and its file store: a two-tier cache (in-memory TTL tier over a persistent
//! on-disk tier), a fetch orchestrator that tolerates partial failure across
//! dependent calls, MIME-based content dispatch with UTF-8-safe truncation,
//! and identifier extraction from heterogeneous URL shapes. The remote calls
//! themselves, and all I/O, live in the surrounding program; everything here
//! is specified and verified.

pub mod auth;
pub mod cache;
pub mod classroom;
pub mod document;
pub mod drive;
pub mod error;
pub mod json;
pub mod text;
