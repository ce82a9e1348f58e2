//! A bounded cache with least-recently-used eviction.
//!
//! [`model`] holds the mathematical description of the cache: a capacity and
//! the live entries, most recently used first. [`cache`] implements it for a
//! single owner with constant-time promotion and eviction, and
//! [`lru_storage`] shares one such cache between concurrent callers behind a
//! lock. [`laws`] states what holds of every cache.
//!
//! Around the cache stand three rules of the server that uses it:
//! [`identity`] tells which user a request comes from, [`files`] which
//! static file answers a request, and [`database`] names the file of the
//! server's database.

pub mod cache;
pub mod database;
pub mod files;
pub mod identity;
pub mod laws;
pub mod lru_storage;
pub mod model;

