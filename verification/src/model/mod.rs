//! The versioned model file: byte primitives, errors, layout and (de)serialization.

pub mod error;
pub mod format;
pub mod layout;
pub mod io;
pub mod roundtrip;
