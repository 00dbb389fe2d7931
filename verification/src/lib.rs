//! A personal "read-it-later" bookmark store.
//!
//! A user submits a URL; the system derives a human-readable title from the
//! fetched page and keeps the URL in the user's unread set (the stash) until
//! the user opens it, at which point it moves to the read set (the archive).
//! The storage core keeps one stash and one archive partition per user,
//! isolated from every other user's partitions.
#![allow(non_snake_case)]

pub mod config;
pub mod data;
pub mod error;
pub mod pipeline;
pub mod rows;
pub mod title;
