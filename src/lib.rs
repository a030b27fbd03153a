//! Link-time stub generation for Mach-O binaries: reading Mach-O images,
//! aggregating the libraries they depend on, writing text stubs, and
//! laying the result out in a directory or an archive.

pub mod dylib_name;
pub mod jvm;
pub mod launcher;
pub mod lazy;
pub mod macho;
pub mod paths;
mod strings;
pub mod symlinks;
pub mod text_api;
pub mod ustar;
pub mod writer;
