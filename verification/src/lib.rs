//! A moddable asset packing system: compiling directories of assets into single
//! pack files and reading them back, with every step of the pack format verified.

pub mod encoding;
pub mod obfuscation;
pub mod flags;
pub mod digest;
pub mod compression;
pub mod format;
pub mod errors;
pub mod text;
pub mod toc_map;
pub mod pack_spec;
pub mod reading;
pub mod pack_front;
pub mod file_reader;
pub mod pack_reader;
pub mod pack_layout;
pub mod uncooking;
pub mod config;
pub mod compiling;
pub mod pack_laws;
pub mod pack_group;
pub mod file_bundle;
pub mod walk;
pub mod describe;
