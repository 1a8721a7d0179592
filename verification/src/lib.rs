//! Application hardening core: payload-blob codec, AEAD sealing of archive
//! entries, packer selection policy, and the loader-side decisions that
//! reconstitute the original code.

pub mod archive;
pub mod bytestr;
pub mod codec;
pub mod config;
pub mod crypto;
pub mod debugger;
pub mod errors;
pub mod gui;
pub mod loader;
pub mod marker;
pub mod obfuscate;
pub mod packer;
pub mod selection;
