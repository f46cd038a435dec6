//! A small compiler from boolean functions of named inputs to the fuse map of
//! a GAL16V8 programmable logic device.
//!
//! Functions are built from variables with the usual boolean operators, kept
//! as truth tables, minimised into a sum of products, and written out as the
//! fuse assertions of a JEDEC file.

pub mod dev;
pub mod error;
pub mod laws;
pub mod logic;
pub mod minimize;
pub mod names;
pub mod progress;
pub mod show;
pub mod truthtable;
pub mod var;
