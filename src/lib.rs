//! Reading and rewriting fixed-width integer fields of an ELF identification
//! header, in the byte order that the header itself declares.
//!
//! `header` checks the identification bytes, `codec` decodes and encodes a
//! field at any offset and width, and `machine` applies both to the
//! `e_machine` field.

pub mod header;
pub mod codec;
pub mod machine;
