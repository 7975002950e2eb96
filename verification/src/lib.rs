//! A conformance harness for a canonical, schema-driven binary format.
//!
//! The crate defines a closed set of value shapes (fixed-width numbers,
//! booleans, UTF-8 text, fixed arrays, counted sequences, optionals,
//! structs, tagged enums and a recursive optional), a verified codec that
//! encodes and decodes values of those shapes in a canonical little-endian
//! layout, a registry of fixed reference test cases, and a runner that
//! checks caller-supplied bytes against a reference value and hands back
//! the canonical encoding.

pub mod bytes;
pub mod codec;
pub mod laws;
pub mod registry;
pub mod runner;
pub mod shape;
pub mod utf8;
pub mod value;

pub use shape::NumKind;
pub use shape::Shape;
pub use value::Value;
pub use codec::DecodeError;
pub use runner::RunError;
pub use runner::run_test;
