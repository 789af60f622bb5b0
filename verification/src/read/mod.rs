//! Looking into images: listing, finding and reading files.
pub mod cli;
pub mod find_laws;
pub mod info;
pub mod path_laws;
pub mod run;
pub mod show;
