//! Unpacks Unity package archives: a gzip-compressed tar stream whose members
//! are grouped by asset ID (`<id>/pathname`, `<id>/asset.meta`, `<id>/asset`).
//!
//! The library reconstructs the ID-to-path table, drops folder assets, plans
//! the file writes and lists the IDs left unresolved. Writing the files is left
//! to the caller.
pub mod text;
pub mod member;
pub mod table;
pub mod outside;
pub mod passes;
pub mod run;
pub mod laws;
