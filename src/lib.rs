//! Arithmetic core of a code-based key-encapsulation mechanism: binary
//! extension-field arithmetic, a Benes permutation network used to derive the
//! code's support, and polynomial evaluation over the field.
pub mod poly;
pub mod gf12;
pub mod gf;
pub mod benes;
pub mod root;
