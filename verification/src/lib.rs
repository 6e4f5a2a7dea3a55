//! Reconciles local flat key-value configuration files with a hierarchical
//! remote key-value store (Consul): keys present locally but changed or
//! missing remotely are written, keys present remotely but absent locally
//! are deleted, unchanged keys are left untouched.

pub mod config;
pub mod error;
pub mod kv;
pub mod publisher;
pub mod strutil;
pub mod template;
