//! Renaming every file under a directory tree to a fresh unique name.
//!
//! The library decides; its caller looks at the file system, talks to the
//! user and renames.
//!
//! - [`walk`] goes through directory trees path by path and tells which
//!   paths are files to be handled.
//! - [`rename`] plans the rename of one file and decides whether it goes
//!   ahead.
//! - [`name`] generates the new names.
//! - [`confirm`] reads the user's answer.
//! - [`path`] takes path text apart and puts it together.

pub mod confirm;
pub mod name;
pub mod path;
pub mod rename;
pub mod text;
pub mod walk;
