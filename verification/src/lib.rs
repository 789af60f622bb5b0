//! Inspection, modification and conversion of Android filesystem images.
//!
//! The library works on bytes that a [`image::ByteSource`] hands out and
//! produces plain values: parsed structures, edit plans and the bytes to be
//! written. Opening files and moving data is left to the program around it.
pub mod buf;
pub mod command;
pub mod error;
pub mod fs;
pub mod image;
pub mod math;
pub mod read;
pub mod sparse;
pub mod sparse_laws;
pub mod stream;
pub mod text;
pub mod util;
pub mod util_laws;
pub mod write;
