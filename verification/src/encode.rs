//! Byte-level encodings of the marshaling format: big-endian stores, block
//! header words, and the encodings of integers, shared references, block
//! headers, strings and doubles.

use vstd::prelude::*;
use vstd::wrapping::u64_specs;
use crate::intext::{
    CODE_BLOCK32, CODE_BLOCK64, CODE_DOUBLE_ARRAY32_BIG, CODE_DOUBLE_ARRAY32_LITTLE,
    CODE_DOUBLE_ARRAY64_BIG, CODE_DOUBLE_ARRAY64_LITTLE, CODE_DOUBLE_ARRAY8_BIG,
    CODE_DOUBLE_ARRAY8_LITTLE, CODE_DOUBLE_BIG, CODE_DOUBLE_LITTLE, CODE_INT16, CODE_INT32, CODE_INT64, CODE_INT8,
    CODE_SHARED16, CODE_SHARED32, CODE_SHARED64, CODE_SHARED8, CODE_STRING32, CODE_STRING64,
    CODE_STRING8, PREFIX_SMALL_BLOCK, PREFIX_SMALL_INT, PREFIX_SMALL_STRING,
};

verus! {

/// The two bytes of `x & 0xFFFF`, most significant first.
pub open spec fn be16(x: u64) -> Seq<u8> {
    seq![(x >> 8u64) as u8, x as u8]
}

/// The four bytes of `x & 0xFFFF_FFFF`, most significant first.
pub open spec fn be32(x: u64) -> Seq<u8> {
    seq![(x >> 24u64) as u8, (x >> 16u64) as u8, (x >> 8u64) as u8, x as u8]
}

/// The eight bytes of `x`, most significant first.
pub open spec fn be64(x: u64) -> Seq<u8> {
    seq![
        (x >> 56u64) as u8,
        (x >> 48u64) as u8,
        (x >> 40u64) as u8,
        (x >> 32u64) as u8,
        (x >> 24u64) as u8,
        (x >> 16u64) as u8,
        (x >> 8u64) as u8,
        x as u8,
    ]
}

/// The eight bytes of `x`, least significant first.
pub open spec fn le64(x: u64) -> Seq<u8> {
    seq![
        x as u8,
        (x >> 8u64) as u8,
        (x >> 16u64) as u8,
        (x >> 24u64) as u8,
        (x >> 32u64) as u8,
        (x >> 40u64) as u8,
        (x >> 48u64) as u8,
        (x >> 56u64) as u8,
    ]
}

/// The OCaml header word: size in words above bit 10, color bits, tag in the low byte.
pub open spec fn spec_make_header(wosize: u64, tag: u8, color: u64) -> u64 {
    u64_specs::wrapping_add(u64_specs::wrapping_add(wosize << 10u64, color), tag as u64)
}

/// Encoding of an OCaml integer: the shortest of the one-byte, 8-, 16-, 32- and
/// 64-bit forms that holds it.
pub open spec fn int_encoding(n: i64) -> Seq<u8> {
    if 0 <= n < 0x40 {
        seq![(PREFIX_SMALL_INT + n) as u8]
    } else if -0x80 <= n < 0x80 {
        seq![CODE_INT8, n as u8]
    } else if -0x8000 <= n < 0x8000 {
        seq![CODE_INT16] + be16(n as u64)
    } else if n < -0x4000_0000 || n >= 0x4000_0000 {
        seq![CODE_INT64] + be64(n as u64)
    } else {
        seq![CODE_INT32] + be32(n as u64)
    }
}

/// A 32-bit OCaml can read the integer back (it fits in 31 bits).
pub open spec fn int_fits_32(n: i64) -> bool {
    -0x4000_0000 <= n < 0x4000_0000
}

/// Encoding of a back reference `d` objects behind the current one.
pub open spec fn shared_encoding(d: u64) -> Seq<u8> {
    if d < 0x100 {
        seq![CODE_SHARED8, d as u8]
    } else if d < 0x10000 {
        seq![CODE_SHARED16] + be16(d)
    } else if d >= 0x1_0000_0000 {
        seq![CODE_SHARED64] + be64(d)
    } else {
        seq![CODE_SHARED32] + be32(d)
    }
}

/// Encoding of a block header of `sz` words and tag `tag`.
pub open spec fn header_encoding(sz: u64, tag: u8) -> Seq<u8> {
    if tag < 16 && sz < 8 {
        seq![(PREFIX_SMALL_BLOCK + tag + sz * 16) as u8]
    } else if spec_make_header(sz, tag, 0) < 0x1_0000_0000 {
        seq![CODE_BLOCK32] + be32(spec_make_header(sz, tag, 0))
    } else {
        seq![CODE_BLOCK64] + be64(spec_make_header(sz, tag, 0))
    }
}

/// A 32-bit OCaml can read the block header back.
pub open spec fn header_fits_32(sz: u64, tag: u8) -> bool {
    (tag < 16 && sz < 8) || sz <= 0x3FFFFF
}

/// Encoding of the length of a string.
pub open spec fn string_header(len: u64) -> Seq<u8> {
    if len < 0x20 {
        seq![(PREFIX_SMALL_STRING + len) as u8]
    } else if len < 0x100 {
        seq![CODE_STRING8, len as u8]
    } else if len < 0x1_0000_0000 {
        seq![CODE_STRING32] + be32(len)
    } else {
        seq![CODE_STRING64] + be64(len)
    }
}

/// Encoding of a string: its length, then its bytes.
pub open spec fn string_encoding(bytes: Seq<u8>) -> Seq<u8> {
    string_header(bytes.len() as u64) + bytes
}

/// A 32-bit OCaml can read a string of this length back.
pub open spec fn string_fits_32(len: u64) -> bool {
    len < 0x100 || len <= 0xFFFFFB
}

/// The eight bytes of a float (given by its IEEE-754 bits) as they lie in
/// memory: least significant first when `little`, else most significant first.
pub open spec fn float_bytes(little: bool, bits: u64) -> Seq<u8> {
    if little {
        le64(bits)
    } else {
        be64(bits)
    }
}

/// Encoding of a boxed float given by its IEEE-754 bits: the code of the
/// byte order, then the float's bytes in that order.
pub open spec fn double_encoding(little: bool, bits: u64) -> Seq<u8> {
    seq![if little { CODE_DOUBLE_LITTLE } else { CODE_DOUBLE_BIG }] + float_bytes(little, bits)
}

/// The bytes of a sequence of floats (given by their bits), in order.
pub open spec fn doubles_bytes(little: bool, ds: Seq<u64>) -> Seq<u8>
    decreases ds.len(),
{
    if ds.len() == 0 {
        Seq::empty()
    } else {
        doubles_bytes(little, ds.drop_last()) + float_bytes(little, ds.last())
    }
}

/// Encoding of the length of a float array, with the code of the byte order.
pub open spec fn double_array_header(little: bool, n: u64) -> Seq<u8> {
    if n < 0x100 {
        seq![if little { CODE_DOUBLE_ARRAY8_LITTLE } else { CODE_DOUBLE_ARRAY8_BIG }, n as u8]
    } else if n < 0x1_0000_0000 {
        seq![if little { CODE_DOUBLE_ARRAY32_LITTLE } else { CODE_DOUBLE_ARRAY32_BIG }] + be32(n)
    } else {
        seq![if little { CODE_DOUBLE_ARRAY64_LITTLE } else { CODE_DOUBLE_ARRAY64_BIG }] + be64(n)
    }
}

/// Encoding of a float array: its length, then its floats.
pub open spec fn double_array_encoding(little: bool, ds: Seq<u64>) -> Seq<u8> {
    double_array_header(little, ds.len() as u64) + doubles_bytes(little, ds)
}

/// A 32-bit OCaml can read a float array of this length back.
pub open spec fn double_array_fits_32(n: u64) -> bool {
    n < 0x100 || n <= 0x1FFFFF
}

/// The integer that a reader takes from an integer encoding.
pub open spec fn int_decoding(bytes: Seq<u8>) -> i64 {
    let c = bytes[0];
    if PREFIX_SMALL_INT <= c < 0x80 {
        (c - PREFIX_SMALL_INT) as i64
    } else if c == CODE_INT8 {
        bytes[1] as i8 as i64
    } else if c == CODE_INT16 {
        (((bytes[1] as u16) << 8u16) | (bytes[2] as u16)) as i16 as i64
    } else if c == CODE_INT32 {
        (((bytes[1] as u32) << 24u32) | ((bytes[2] as u32) << 16u32) | ((bytes[3] as u32) << 8u32)
            | (bytes[4] as u32)) as i32 as i64
    } else {
        (((bytes[1] as u64) << 56u64) | ((bytes[2] as u64) << 48u64) | ((bytes[3] as u64) << 40u64)
            | ((bytes[4] as u64) << 32u64) | ((bytes[5] as u64) << 24u64) | ((bytes[6] as u64)
            << 16u64) | ((bytes[7] as u64) << 8u64) | (bytes[8] as u64)) as i64
    }
}

/// Every integer reads back from its encoding.
pub proof fn law_int_roundtrip(n: i64)
    ensures
        int_decoding(int_encoding(n)) == n,
{
    let b = int_encoding(n);
    if 0 <= n < 0x40 {
    } else if -0x80 <= n < 0x80 {
        assert((n as u8) as i8 as i64 == n) by (bit_vector)
            requires
                -0x80 <= n < 0x80,
        ;
    } else if -0x8000 <= n < 0x8000 {
        assert((((((n as u64) >> 8u64) as u8 as u16) << 8u16) | ((n as u64) as u8 as u16)) as i16
            as i64 == n) by (bit_vector)
            requires
                -0x8000 <= n < 0x8000,
        ;
    } else if n < -0x4000_0000 || n >= 0x4000_0000 {
        let x = n as u64;
        assert((((((x >> 56u64) as u8) as u64) << 56u64) | ((((x >> 48u64) as u8) as u64)
            << 48u64) | ((((x >> 40u64) as u8) as u64) << 40u64) | ((((x >> 32u64) as u8) as u64)
            << 32u64) | ((((x >> 24u64) as u8) as u64) << 24u64) | ((((x >> 16u64) as u8) as u64)
            << 16u64) | ((((x >> 8u64) as u8) as u64) << 8u64) | ((x as u8) as u64)) == x)
            by (bit_vector);
        assert(x as i64 == n) by (bit_vector)
            requires
                x == n as u64,
        ;
    } else {
        let x = n as u64;
        assert((((((x >> 24u64) as u8) as u32) << 24u32) | ((((x >> 16u64) as u8) as u32)
            << 16u32) | ((((x >> 8u64) as u8) as u32) << 8u32) | ((x as u8) as u32)) as i32 as i64
            == n) by (bit_vector)
            requires
                x == n as u64,
                -0x4000_0000 <= n < 0x4000_0000,
        ;
    }
}

/// An integer passes the 32-bit check exactly when it is written in at most
/// five bytes, that is without `CODE_INT64`: a 32-bit OCaml holds 31-bit
/// integers, from `-2^30` to `2^30 - 1`, and every one of them is written in
/// a short form.
pub proof fn law_int_fits_32_short(n: i64)
    ensures
        int_fits_32(n) <==> int_encoding(n).len() <= 5,
        int_fits_32(n) <==> int_encoding(n)[0] != CODE_INT64,
        int_fits_32(n) <==> -0x4000_0000 <= n < 0x4000_0000,
{
}

/// A header word keeps the size above bit 10, the color in bits 8 and 9, and
/// the tag in the low byte.
pub proof fn law_header_fields(sz: u64, tag: u8, color: u64)
    requires
        sz < 0x40_0000_0000_0000,
        color < 4,
    ensures
        spec_make_header(sz, tag, color << 8u64) >> 10u64 == sz,
        (spec_make_header(sz, tag, color << 8u64) >> 8u64) & 3u64 == color,
        spec_make_header(sz, tag, color << 8u64) & 0xFFu64 == tag as u64,
{
    let c = color << 8u64;
    assert((sz << 10u64) as int == sz * 1024 && c as int == color * 256) by (bit_vector)
        requires
            sz < 0x40_0000_0000_0000,
            color < 4,
            c == color << 8u64,
    ;
    let hd = ((sz << 10u64) + c + tag as u64) as u64;
    assert(hd >> 10u64 == sz && (hd >> 8u64) & 3u64 == color && hd & 0xFFu64 == tag as u64)
        by (bit_vector)
        requires
            sz < 0x40_0000_0000_0000,
            color < 4,
            c == color << 8u64,
            hd == ((sz << 10u64) + c + tag as u64) as u64,
    ;
}

/// The number that four big-endian bytes hold.
pub open spec fn be32_value(b: Seq<u8>) -> u64 {
    ((b[0] as u64) << 24u64) | ((b[1] as u64) << 16u64) | ((b[2] as u64) << 8u64) | (b[3] as u64)
}

/// Four big-endian bytes read back as the number they were written from.
pub proof fn law_be32_roundtrip(x: u64)
    requires
        x < 0x1_0000_0000,
    ensures
        be32_value(be32(x)) == x,
{
    assert(((((x >> 24u64) as u8) as u64) << 24u64) | ((((x >> 16u64) as u8) as u64) << 16u64)
        | ((((x >> 8u64) as u8) as u64) << 8u64) | ((x as u8) as u64) == x) by (bit_vector)
        requires
            x < 0x1_0000_0000,
    ;
}

/// Builds an OCaml header word.
pub fn Make_header(wosize: u64, tag: u8, color: u64) -> (hd: u64)
    ensures
        hd == spec_make_header(wosize, tag, color),
{
    (wosize << 10u64).wrapping_add(color).wrapping_add(tag as u64)
}

/// Appends the low 16 bits of `n`, big-endian.
pub fn store16(dst: &mut Vec<u8>, n: u64)
    ensures
        final(dst)@ == old(dst)@ + be16(n),
{
    dst.push((n >> 8u64) as u8);
    dst.push(n as u8);
    assert(dst@ =~= old(dst)@ + be16(n));
}

/// Appends the low 32 bits of `n`, big-endian.
pub fn store32(dst: &mut Vec<u8>, n: u64)
    ensures
        final(dst)@ == old(dst)@ + be32(n),
{
    dst.push((n >> 24u64) as u8);
    dst.push((n >> 16u64) as u8);
    dst.push((n >> 8u64) as u8);
    dst.push(n as u8);
    assert(dst@ =~= old(dst)@ + be32(n));
}

/// Appends the 64 bits of `n`, big-endian.
pub fn store64(dst: &mut Vec<u8>, n: u64)
    ensures
        final(dst)@ == old(dst)@ + be64(n),
{
    dst.push((n >> 56u64) as u8);
    dst.push((n >> 48u64) as u8);
    dst.push((n >> 40u64) as u8);
    dst.push((n >> 32u64) as u8);
    dst.push((n >> 24u64) as u8);
    dst.push((n >> 16u64) as u8);
    dst.push((n >> 8u64) as u8);
    dst.push(n as u8);
    assert(dst@ =~= old(dst)@ + be64(n));
}

/// Appends the 64 bits of `n`, little-endian.
pub fn store_le64(dst: &mut Vec<u8>, n: u64)
    ensures
        final(dst)@ == old(dst)@ + le64(n),
{
    dst.push(n as u8);
    dst.push((n >> 8u64) as u8);
    dst.push((n >> 16u64) as u8);
    dst.push((n >> 24u64) as u8);
    dst.push((n >> 32u64) as u8);
    dst.push((n >> 40u64) as u8);
    dst.push((n >> 48u64) as u8);
    dst.push((n >> 56u64) as u8);
    assert(dst@ =~= old(dst)@ + le64(n));
}

/// Appends the bytes of a float given by its bits, in the byte order that
/// `little` names.
pub fn store_float(dst: &mut Vec<u8>, little: bool, bits: u64)
    ensures
        final(dst)@ == old(dst)@ + float_bytes(little, bits),
{
    if little {
        store_le64(dst, bits);
    } else {
        store64(dst, bits);
    }
}

/// Appends `code` and the low byte of `val`.
pub fn writecode8(dst: &mut Vec<u8>, code: u8, val: u64)
    ensures
        final(dst)@ == old(dst)@ + seq![code, val as u8],
{
    dst.push(code);
    dst.push(val as u8);
    assert(dst@ =~= old(dst)@ + seq![code, val as u8]);
}

/// Appends `code` and the low 16 bits of `val`, big-endian.
pub fn writecode16(dst: &mut Vec<u8>, code: u8, val: u64)
    ensures
        final(dst)@ == old(dst)@ + (seq![code] + be16(val)),
{
    dst.push(code);
    store16(dst, val);
    assert(dst@ =~= old(dst)@ + (seq![code] + be16(val)));
}

/// Appends `code` and the low 32 bits of `val`, big-endian.
pub fn writecode32(dst: &mut Vec<u8>, code: u8, val: u64)
    ensures
        final(dst)@ == old(dst)@ + (seq![code] + be32(val)),
{
    dst.push(code);
    store32(dst, val);
    assert(dst@ =~= old(dst)@ + (seq![code] + be32(val)));
}

/// Appends `code` and the 64 bits of `val`, big-endian.
pub fn writecode64(dst: &mut Vec<u8>, code: u8, val: u64)
    ensures
        final(dst)@ == old(dst)@ + (seq![code] + be64(val)),
{
    dst.push(code);
    store64(dst, val);
    assert(dst@ =~= old(dst)@ + (seq![code] + be64(val)));
}

} // verus!
