//! A schema-driven binary record codec.
//!
//! A record is described by an ordered list of field descriptors; values are
//! encoded to a flat positional byte layout (big- or little-endian) and decoded
//! back, with sub-byte bitfield packing, delimiter- or length-terminated byte
//! runs, enum discriminants and per-field default fallbacks.
pub mod bits;
pub mod buffer;
pub mod codec;
pub mod digits;
pub mod laws;
pub mod model;
pub mod motor;
pub mod scalar;
pub mod schema;
pub mod section;
pub mod text;
pub mod validate;

pub use bits::mask_for_bits;
pub use codec::{decode, encode, encode_into};
pub use digits::ByteOrder;
pub use motor::{Foo, MoterDriverParam};
pub use scalar::{Prim, Scalar};
pub use schema::{
    DecodeError, EncodeError, EnumSchema, FieldDescriptor, FieldKind, RecordSchema, Terminator,
    Value, Variant,
};
pub use text::{decode_text, encode_text, DecodeStr};
