//! Profiling-data library for a QEMU TCG plugin: instruction
//! classification, the native profile log format (encoding and
//! parsing), edge accumulation and profile conversion helpers.

pub mod bytes;
pub mod counters;
pub mod decoder;
pub mod dump;
pub mod edge_storage;
pub mod elf_index;
pub mod exit;
pub mod export;
pub mod native;
pub mod listing;
pub mod output;
pub mod plugin;
pub mod report;
pub mod resources;
pub mod roundtrip;
pub mod sorting;
pub mod state;
pub mod text;
