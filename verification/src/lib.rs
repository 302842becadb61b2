//! Normalizes noisy media filenames (TV episodes, movies) into clean,
//! consistent display names with a season/episode tag or release year.
//!
//! The heart of the crate is [`cleaner::NameCleaner::clean`], a pure,
//! deterministic text pipeline whose behaviour is pinned down by the
//! specification [`cleaner::clean_spec`]; the laws that hold of it are
//! proved in [`laws`]. The [`app`] module holds the verified review state
//! around it; directory listing, keypresses and the rename calls themselves
//! live in the surrounding shell.

pub mod app;
pub mod chars;
pub mod cleaner;
pub mod laws;
pub mod numbers;
pub mod pattern;
pub mod rename_item;
pub mod strip;
pub mod text;
pub mod title;
pub mod unicode;
