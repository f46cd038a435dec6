//! Devices that functions can be written to.

pub mod gal16v8;
pub mod jedec;

pub use gal16v8::GAL16V8;
