//! Conversion of x86_64 ELF64 executables into ABO bundles, and the ABO format itself.
pub mod abo;
pub mod bytes;
pub mod cli;
pub mod elf;
pub mod manifest;
pub mod readback;
pub mod uuid;
