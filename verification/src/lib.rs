//! Verified core of an embedded STM32 project template: firmware update rules,
//! image reception, flash layout computation for the bootloader scheme and the
//! text processing of the generator tools.

pub mod firmware;
pub mod partitions;
pub mod bytes;
pub mod ports;
pub mod download;
pub mod update;
pub mod ota;
pub mod image;
pub mod numtext;
pub mod chipmeta;
pub mod memtext;
pub mod memlayout;
pub mod chipgen;
pub mod rhai;
pub mod rhaimap;
pub mod linker;
pub mod signing;
pub mod templatecheck;
pub mod adapters;
pub mod pinout;
