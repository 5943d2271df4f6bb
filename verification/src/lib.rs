//! C types and values of C types for a scripting host.
//!
//! The library describes the types of C (scalars, pointers, arrays,
//! structs, unions, typedefs and arrays of unknown length) with the sizes,
//! alignments and field offsets that a C compiler gives them, keeps values
//! of those types as raw bytes, and carries values of the host into those
//! bytes and back.
//!
//! - [`ctype`] holds the type algebra and the layout rules.
//! - [`memory`] holds the arena that all values live in, with numbers for
//!   addresses; [`cdata`] holds the values: an address with a type.
//! - [`marshal`] writes host values as bytes and reads bytes as values for
//!   the host; [`codec`] and [`ieee`] hold what it needs of integers and of
//!   floating-point numbers, which the library handles by their bits only.
//! - [`ffi_ops`] holds the registry of named types, the resolution of type
//!   names and the operations on values; [`parser`] reads declarations and
//!   registers the structs that they define; [`text`] holds the handling of
//!   characters that both rest on.
//! - [`value`] holds the values that pass between the host and the
//!   library, and [`error`] the ways in which an operation can fail.
//!
//! Every executable function is verified against its contract, but for
//! four calls into the standard library, each in a function of its own
//! whose contract is taken on trust and says so.  The contracts speak of
//! mathematical models: a type is a [`ctype::TypeModel`], the memory a
//! sequence of bytes, a text a sequence of characters.

pub mod cdata;
pub mod codec;
pub mod ctype;
pub mod error;
pub mod ffi_ops;
pub mod ieee;
pub mod marshal;
pub mod memory;
pub mod parser;
pub mod text;
pub mod value;
