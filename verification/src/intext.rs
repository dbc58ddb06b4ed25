//! Constants of the OCaml marshaling format and the OCaml block tags.

use vstd::prelude::*;

verus! {

/// Header word of the 20-byte ("small") header format.
pub const MAGIC_NUMBER_SMALL: u32 = 0x8495A6BE;
/// Header word of the 32-byte ("big") header format.
pub const MAGIC_NUMBER_BIG: u32 = 0x8495A6BF;

/// One-byte block header: `0x80 + tag + 16 * size` for `tag < 16`, `size < 8`.
pub const PREFIX_SMALL_BLOCK: u8 = 0x80;
/// One-byte integer: `0x40 + n` for `0 <= n < 64`.
pub const PREFIX_SMALL_INT: u8 = 0x40;
/// One-byte string header: `0x20 + len` for `len < 32`.
pub const PREFIX_SMALL_STRING: u8 = 0x20;

pub const CODE_INT8: u8 = 0x00;
pub const CODE_INT16: u8 = 0x01;
pub const CODE_INT32: u8 = 0x02;
pub const CODE_INT64: u8 = 0x03;
pub const CODE_SHARED8: u8 = 0x04;
pub const CODE_SHARED16: u8 = 0x05;
pub const CODE_SHARED32: u8 = 0x06;
pub const CODE_DOUBLE_ARRAY32_LITTLE: u8 = 0x07;
pub const CODE_BLOCK32: u8 = 0x08;
pub const CODE_STRING8: u8 = 0x09;
pub const CODE_STRING32: u8 = 0x0A;
pub const CODE_DOUBLE_BIG: u8 = 0x0B;
pub const CODE_DOUBLE_LITTLE: u8 = 0x0C;
pub const CODE_DOUBLE_ARRAY8_BIG: u8 = 0x0D;
pub const CODE_DOUBLE_ARRAY8_LITTLE: u8 = 0x0E;
pub const CODE_DOUBLE_ARRAY32_BIG: u8 = 0x0F;
pub const CODE_CODEPOINTER: u8 = 0x10;
pub const CODE_INFIXPOINTER: u8 = 0x11;
pub const CODE_BLOCK64: u8 = 0x13;
pub const CODE_SHARED64: u8 = 0x14;
pub const CODE_STRING64: u8 = 0x15;
pub const CODE_DOUBLE_ARRAY64_BIG: u8 = 0x16;
pub const CODE_DOUBLE_ARRAY64_LITTLE: u8 = 0x17;


/// Initial capacity of the output buffer.
pub const SIZE_EXTERN_OUTPUT_BLOCK: usize = 8100;

pub const FORCING_TAG: u8 = 244;
pub const LAZY_TAG: u8 = 246;
pub const CLOSURE_TAG: u8 = 247;
pub const OBJECT_TAG: u8 = 248;
pub const INFIX_TAG: u8 = 249;
pub const FORWARD_TAG: u8 = 250;
pub const ABSTRACT_TAG: u8 = 251;
pub const STRING_TAG: u8 = 252;
pub const DOUBLE_TAG: u8 = 253;
pub const DOUBLE_ARRAY_TAG: u8 = 254;
pub const CUSTOM_TAG: u8 = 255;

/// Marshaling flag: ignore sharing (every occurrence of a block is written out).
pub const NO_SHARING: i32 = 1;
/// Marshaling flag: allow code pointers (closures are still refused here).
pub const CLOSURES: i32 = 2;
/// Marshaling flag: refuse output that a 32-bit OCaml could not read back.
pub const COMPAT_32: i32 = 4;

} // verus!
