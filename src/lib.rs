//! Reconciles a declared set of Scoop buckets and apps against what is
//! installed, through one long-lived PowerShell session.
pub mod channel;
pub mod commands;
pub mod depends;
pub mod model;
pub mod plan;
pub mod resolve;
pub mod text;
