//! Clipboard history store: a bounded, ordered table of captured clipboard
//! entries, the labels under which they are offered to a chooser, and the
//! resolution of a chosen label back into restorable content.

pub mod text;
pub mod format;
pub mod label;
pub mod ident;
pub mod repository;
pub mod index;
pub mod summary;
pub mod resolve;
pub mod capture;
pub mod eviction;
pub mod config;
