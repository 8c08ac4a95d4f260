//! Projection of an unpacked Unity package onto an ordinary file tree.
//!
//! An unpacked package is a directory of asset folders. Each holds a payload
//! file and, beside it, a file whose first line declares where the payload
//! belongs. This library decides what becomes of each folder: [`extract`]
//! plans the copies of an extraction, [`inspect`] tallies the assets by
//! extension, and [`list`] picks the packages out of the files under a search
//! root. It reads and writes no file itself: callers hand it what they found
//! on disk and carry out what it decides.
//!
//! [`path`] and [`text`] hold the reading of paths and lines that the rest
//! builds on.

pub mod extract;
pub mod inspect;
pub mod list;
pub mod path;
pub mod text;
