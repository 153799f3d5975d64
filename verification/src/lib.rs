//! Conversion of Linux/Android minidumps into ELF core files.
//!
//! The library holds the byte layouts and decisions of the conversion:
//! reading the minidump's streams, ELF headers and notes, register blocks, `/proc/<pid>/maps` parsing,
//! mapping augmentation and the assembly of the final core image.

pub mod augment;
pub mod bytes;
pub mod core_writer;
pub mod elf;
pub mod error;
pub mod linux_maps;
pub mod minidump_file;

pub use error::Md2CoreError;
pub mod model;
pub mod notes;
pub mod ordered;
pub mod regs;
pub mod rust_minidump;
