//! Reader for Human Readable Archive (`.hrx`) text.
//!
//! An archive packs several named file bodies, and optional comments, into a
//! single text buffer.  Items are separated by a per-archive boundary marker
//! of the shape `<`, some `=` signs, `>`; the buffer must begin with that
//! marker.  Parsing yields an [`Archive`]: an immutable, name-sorted mapping
//! from entry name to entry content.
//!
//! This crate only reads archives; it never writes them.

use vstd::prelude::*;

pub mod archive;
pub mod laws;
pub mod model;
pub mod order;

pub use archive::Archive;
pub use archive::Error;
pub use archive::FileError;

verus! {

} // verus!
