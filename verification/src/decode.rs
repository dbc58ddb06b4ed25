//! What a reader of the format takes from each encoding, and the laws that
//! it takes back what was written: back references, block headers, strings,
//! floats and float arrays.

use vstd::prelude::*;
use crate::encode::{
    be16, be32, be32_value, be64, double_array_encoding, double_array_header, double_encoding,
    doubles_bytes, float_bytes, header_encoding, law_be32_roundtrip, law_header_fields, le64,
    shared_encoding, spec_make_header, string_encoding, string_header,
};
use crate::intext::{
    CODE_BLOCK32, CODE_DOUBLE_ARRAY32_LITTLE, CODE_DOUBLE_ARRAY64_LITTLE,
    CODE_DOUBLE_ARRAY8_BIG, CODE_DOUBLE_ARRAY8_LITTLE, CODE_DOUBLE_ARRAY32_BIG,
    CODE_DOUBLE_LITTLE, CODE_SHARED16, CODE_SHARED32, CODE_SHARED8, CODE_STRING32, CODE_STRING8,
    PREFIX_SMALL_BLOCK, PREFIX_SMALL_STRING,
};

verus! {

/// The number that two big-endian bytes hold.
pub open spec fn be16_value(b: Seq<u8>) -> u64 {
    ((b[0] as u64) << 8u64) | (b[1] as u64)
}

/// The number that eight big-endian bytes hold.
pub open spec fn be64_value(b: Seq<u8>) -> u64 {
    ((b[0] as u64) << 56u64) | ((b[1] as u64) << 48u64) | ((b[2] as u64) << 40u64) | ((
    b[3] as u64) << 32u64) | ((b[4] as u64) << 24u64) | ((b[5] as u64) << 16u64) | ((
    b[6] as u64) << 8u64) | (b[7] as u64)
}

/// The number that eight little-endian bytes hold.
pub open spec fn le64_value(b: Seq<u8>) -> u64 {
    ((b[7] as u64) << 56u64) | ((b[6] as u64) << 48u64) | ((b[5] as u64) << 40u64) | ((
    b[4] as u64) << 32u64) | ((b[3] as u64) << 24u64) | ((b[2] as u64) << 16u64) | ((
    b[1] as u64) << 8u64) | (b[0] as u64)
}

/// Two big-endian bytes read back as the number they were written from.
pub proof fn law_be16_roundtrip(x: u64)
    requires
        x < 0x10000,
    ensures
        be16_value(be16(x)) == x,
{
    assert(((((x >> 8u64) as u8) as u64) << 8u64) | ((x as u8) as u64) == x) by (bit_vector)
        requires
            x < 0x10000,
    ;
}

/// Eight big-endian bytes read back as the number they were written from.
pub proof fn law_be64_roundtrip(x: u64)
    ensures
        be64_value(be64(x)) == x,
{
    assert((((((x >> 56u64) as u8) as u64) << 56u64) | ((((x >> 48u64) as u8) as u64) << 48u64)
        | ((((x >> 40u64) as u8) as u64) << 40u64) | ((((x >> 32u64) as u8) as u64) << 32u64)
        | ((((x >> 24u64) as u8) as u64) << 24u64) | ((((x >> 16u64) as u8) as u64) << 16u64)
        | ((((x >> 8u64) as u8) as u64) << 8u64) | ((x as u8) as u64)) == x) by (bit_vector);
}

/// Eight little-endian bytes read back as the number they were written from.
pub proof fn law_le64_roundtrip(x: u64)
    ensures
        le64_value(le64(x)) == x,
{
    assert((((((x >> 56u64) as u8) as u64) << 56u64) | ((((x >> 48u64) as u8) as u64) << 48u64)
        | ((((x >> 40u64) as u8) as u64) << 40u64) | ((((x >> 32u64) as u8) as u64) << 32u64)
        | ((((x >> 24u64) as u8) as u64) << 24u64) | ((((x >> 16u64) as u8) as u64) << 16u64)
        | ((((x >> 8u64) as u8) as u64) << 8u64) | ((x as u8) as u64)) == x) by (bit_vector);
}

/// The distance that a back reference encodes.
pub open spec fn shared_decoding(b: Seq<u8>) -> u64 {
    if b[0] == CODE_SHARED8 {
        b[1] as u64
    } else if b[0] == CODE_SHARED16 {
        be16_value(b.subrange(1, 3))
    } else if b[0] == CODE_SHARED32 {
        be32_value(b.subrange(1, 5))
    } else {
        be64_value(b.subrange(1, 9))
    }
}

/// Every back reference reads back as the distance it was written with.
pub proof fn law_shared_roundtrip(d: u64)
    ensures
        shared_decoding(shared_encoding(d)) == d,
{
    let b = shared_encoding(d);
    if d < 0x100 {
        assert((d as u8) as u64 == d) by (bit_vector)
            requires
                d < 0x100,
        ;
    } else if d < 0x10000 {
        assert(b.subrange(1, 3) =~= be16(d));
        law_be16_roundtrip(d);
    } else if d >= 0x1_0000_0000 {
        assert(b.subrange(1, 9) =~= be64(d));
        law_be64_roundtrip(d);
    } else {
        assert(b.subrange(1, 5) =~= be32(d));
        law_be32_roundtrip(d);
    }
}

/// The size and tag that a block header encodes.
pub open spec fn header_decoding(b: Seq<u8>) -> (u64, u8) {
    if b[0] >= PREFIX_SMALL_BLOCK {
        let x = (b[0] - PREFIX_SMALL_BLOCK) as u8;
        (((x >> 4u8) & 7u8) as u64, x & 0xFu8)
    } else {
        let hd = if b[0] == CODE_BLOCK32 {
            be32_value(b.subrange(1, 5))
        } else {
            be64_value(b.subrange(1, 9))
        };
        (hd >> 10u64, (hd & 0xFFu64) as u8)
    }
}

/// Every block header reads back as the size and tag it was written with
/// (sizes that fit in a header word, below `2^54`).
pub proof fn law_header_roundtrip(sz: u64, tag: u8)
    requires
        sz < 0x40_0000_0000_0000,
    ensures
        header_decoding(header_encoding(sz, tag)) == (sz, tag),
{
    let b = header_encoding(sz, tag);
    if tag < 16 && sz < 8 {
        let b0 = (PREFIX_SMALL_BLOCK + tag + sz * 16) as u8;
        assert(b0 >= 0x80u8 && ((((b0 - 0x80u8) as u8) >> 4u8) & 7u8) as u64 == sz && ((b0
            - 0x80u8) as u8) & 0xFu8 == tag) by (bit_vector)
            requires
                tag < 16,
                sz < 8,
                b0 == (0x80u8 + tag + sz * 16) as u8,
        ;
    } else {
        let hd = spec_make_header(sz, tag, 0);
        law_header_fields(sz, tag, 0);
        assert(0u64 << 8u64 == 0u64) by (bit_vector);
        if hd < 0x1_0000_0000 {
            assert(b.subrange(1, 5) =~= be32(hd));
            law_be32_roundtrip(hd);
        } else {
            assert(b.subrange(1, 9) =~= be64(hd));
            law_be64_roundtrip(hd);
        }
        assert((hd & 0xFFu64) as u8 == tag) by (bit_vector)
            requires
                hd & 0xFFu64 == tag as u64,
        ;
    }
}

/// Where a string's bytes start and how many there are, from its header.
pub open spec fn string_header_decoding(b: Seq<u8>) -> (int, u64) {
    if PREFIX_SMALL_STRING <= b[0] < PREFIX_SMALL_STRING + 0x20 {
        (1, (b[0] - PREFIX_SMALL_STRING) as u64)
    } else if b[0] == CODE_STRING8 {
        (2, b[1] as u64)
    } else if b[0] == CODE_STRING32 {
        (5, be32_value(b.subrange(1, 5)))
    } else {
        (9, be64_value(b.subrange(1, 9)))
    }
}

/// The bytes of the string that `b` starts with.
pub open spec fn string_decoding(b: Seq<u8>) -> Seq<u8> {
    let (start, len) = string_header_decoding(b);
    b.subrange(start, start + len)
}

/// Every string reads back as the bytes it was written from.
pub proof fn law_string_roundtrip(bytes: Seq<u8>)
    requires
        bytes.len() <= u64::MAX,
    ensures
        string_decoding(string_encoding(bytes)) == bytes,
{
    let len = bytes.len() as u64;
    let h = string_header(len);
    let b = string_encoding(bytes);
    assert(b == h + bytes);
    if len < 0x20 {
        assert(((PREFIX_SMALL_STRING + len) as u8 - PREFIX_SMALL_STRING) as u64 == len);
    } else if len < 0x100 {
        assert((len as u8) as u64 == len) by (bit_vector)
            requires
                len < 0x100,
        ;
    } else if len < 0x1_0000_0000 {
        assert(b.subrange(1, 5) =~= be32(len));
        law_be32_roundtrip(len);
    } else {
        assert(b.subrange(1, 9) =~= be64(len));
        law_be64_roundtrip(len);
    }
    let (start, n) = string_header_decoding(b);
    assert(start == h.len() && n == len);
    assert(b.subrange(start, start + n) =~= bytes);
}

/// The bits of a float from its eight bytes, in the byte order that `little`
/// names.
pub open spec fn float_value(little: bool, b: Seq<u8>) -> u64 {
    if little {
        le64_value(b)
    } else {
        be64_value(b)
    }
}

/// A float's bytes read back as its bits, in either byte order.
pub proof fn law_float_roundtrip(little: bool, bits: u64)
    ensures
        float_value(little, float_bytes(little, bits)) == bits,
        float_bytes(little, bits).len() == 8,
{
    law_le64_roundtrip(bits);
    law_be64_roundtrip(bits);
}

/// The byte order and the bits of the boxed float that `b` encodes.
pub open spec fn double_decoding(b: Seq<u8>) -> (bool, u64) {
    let little = b[0] == CODE_DOUBLE_LITTLE;
    (little, float_value(little, b.subrange(1, 9)))
}

/// Every boxed float reads back as the bits, and the byte order, it was
/// written with.
pub proof fn law_double_roundtrip(little: bool, bits: u64)
    ensures
        double_decoding(double_encoding(little, bits)) == (little, bits),
{
    let b = double_encoding(little, bits);
    law_float_roundtrip(little, bits);
    assert(b.subrange(1, 9) =~= float_bytes(little, bits));
}

/// The byte order, where the floats start and how many there are, from the
/// header of a float array.
pub open spec fn double_array_header_decoding(b: Seq<u8>) -> (bool, int, u64) {
    if b[0] == CODE_DOUBLE_ARRAY8_LITTLE || b[0] == CODE_DOUBLE_ARRAY8_BIG {
        (b[0] == CODE_DOUBLE_ARRAY8_LITTLE, 2, b[1] as u64)
    } else if b[0] == CODE_DOUBLE_ARRAY32_LITTLE || b[0] == CODE_DOUBLE_ARRAY32_BIG {
        (b[0] == CODE_DOUBLE_ARRAY32_LITTLE, 5, be32_value(b.subrange(1, 5)))
    } else {
        (b[0] == CODE_DOUBLE_ARRAY64_LITTLE, 9, be64_value(b.subrange(1, 9)))
    }
}

/// The byte order and the floats (by their bits) of the float array that
/// `b` starts with.
pub open spec fn double_array_decoding(b: Seq<u8>) -> (bool, Seq<u64>) {
    let (little, start, n) = double_array_header_decoding(b);
    (
        little,
        Seq::new(
            n as nat,
            |j: int| float_value(little, b.subrange(start + 8 * j, start + 8 * j + 8)),
        ),
    )
}

/// The bytes of a sequence of floats are eight per float, in order.
proof fn lemma_doubles_bytes(little: bool, ds: Seq<u64>)
    ensures
        doubles_bytes(little, ds).len() == 8 * ds.len(),
        forall|j: int|
            0 <= j < ds.len() ==> #[trigger] doubles_bytes(little, ds).subrange(8 * j, 8 * j + 8)
                == float_bytes(little, ds[j]),
    decreases ds.len(),
{
    if ds.len() > 0 {
        let init = ds.drop_last();
        lemma_doubles_bytes(little, init);
        law_float_roundtrip(little, ds.last());
        let all = doubles_bytes(little, ds);
        assert(all == doubles_bytes(little, init) + float_bytes(little, ds.last()));
        assert forall|j: int| 0 <= j < ds.len() implies #[trigger] all.subrange(8 * j, 8 * j + 8)
            == float_bytes(little, ds[j]) by {
            if j < init.len() {
                assert(all.subrange(8 * j, 8 * j + 8) =~= doubles_bytes(little, init).subrange(
                    8 * j,
                    8 * j + 8,
                ));
                assert(init[j] == ds[j]);
            } else {
                assert(all.subrange(8 * j, 8 * j + 8) =~= float_bytes(little, ds.last()));
            }
        }
    }
}

/// Every float array reads back as the floats, and the byte order, it was
/// written with.
pub proof fn law_double_array_roundtrip(little: bool, ds: Seq<u64>)
    requires
        ds.len() <= u64::MAX,
    ensures
        double_array_decoding(double_array_encoding(little, ds)) == (little, ds),
{
    let n = ds.len() as u64;
    let h = double_array_header(little, n);
    let body = doubles_bytes(little, ds);
    let b = double_array_encoding(little, ds);
    assert(b == h + body);
    lemma_doubles_bytes(little, ds);
    if n < 0x100 {
        assert((n as u8) as u64 == n) by (bit_vector)
            requires
                n < 0x100,
        ;
    } else if n < 0x1_0000_0000 {
        assert(b.subrange(1, 5) =~= be32(n));
        law_be32_roundtrip(n);
    } else {
        assert(b.subrange(1, 9) =~= be64(n));
        law_be64_roundtrip(n);
    }
    let (l2, start, n2) = double_array_header_decoding(b);
    assert(l2 == little && start == h.len() && n2 == n);
    let got = double_array_decoding(b).1;
    assert forall|j: int| 0 <= j < ds.len() implies #[trigger] got[j] == ds[j] by {
        assert(b.subrange(start + 8 * j, start + 8 * j + 8) =~= body.subrange(8 * j, 8 * j + 8));
        law_float_roundtrip(little, ds[j]);
    }
    assert(got =~= ds);
}

} // verus!
