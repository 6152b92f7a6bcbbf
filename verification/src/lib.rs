//! Warp-point registry: named bookmarks for directories.
//!
//! A warp point is a pair of a short name and an absolute path. The
//! registry holds the full set of points, persisted as a flat text file
//! with one `name:path` record per line. This crate contains the whole
//! registry logic — parsing and serialising the file format, the by-name
//! and by-path views, and the add / remove / resolve / clean policies —
//! each function with a proved contract. Reading and writing the actual
//! file, and the command line around it, live outside the library.

pub mod errors;
pub mod hooks;
pub mod laws;
pub mod registry;
pub mod store;
pub mod text;
