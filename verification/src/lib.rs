//! A unified object/module model for a 32-bit big-endian console instruction
//! set, with a relocation and symbol-resolution engine, control-flow-based
//! function-boundary recovery, and codecs for a relocatable-object container
//! and two runtime-loadable dynamic-module formats.

pub mod analysis;
pub mod elf;
pub mod obj;
pub mod rel;
pub mod resolve;
pub mod rso;
pub mod wire;
