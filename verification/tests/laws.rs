use ocamlrep_marshal::encode::Make_header;
use ocamlrep_marshal::heap::{Block, Contents, Heap, Value};
use ocamlrep_marshal::intext::STRING_TAG;
use ocamlrep_marshal::machine::MarshalError;
use ocamlrep_marshal::marshal::output_val;

fn decode_int(b: &[u8]) -> i64 {
    match b[0] {
        0x40..=0x7F => (b[0] - 0x40) as i64,
        0x00 => b[1] as i8 as i64,
        0x01 => i16::from_be_bytes([b[1], b[2]]) as i64,
        0x02 => i32::from_be_bytes([b[1], b[2], b[3], b[4]]) as i64,
        _ => i64::from_be_bytes([b[1], b[2], b[3], b[4], b[5], b[6], b[7], b[8]]),
    }
}

#[test]
fn integers_read_back() {
    let heap = Heap { little_endian: true, blocks: vec![] };
    for n in [0i64, 5, 63, 64, -1, 127, -128, 128, 300, -300, 32767, -32768, 32768, 1 << 29,
        -(1 << 30), 1 << 30, i64::MAX, i64::MIN]
    {
        let out = output_val(&heap, Value::Int(n), &vec![]).unwrap();
        assert_eq!(decode_int(&out[20..]), n);
    }
}

#[test]
fn header_words_keep_size_and_tag() {
    let hd = Make_header(300, 7, 3 << 8);
    assert_eq!(hd >> 10, 300);
    assert_eq!((hd >> 8) & 3, 3);
    assert_eq!(hd & 0xFF, 7);
    assert_eq!(Make_header(1, 250, 0), 0x4FA);
}

#[test]
fn header_records_body_length() {
    let heap = Heap { little_endian: true,
        blocks: vec![Block { tag: STRING_TAG, contents: Contents::Bytes(vec![7; 1000]) }],
    };
    let out = output_val(&heap, Value::Block(0), &vec![]).unwrap();
    assert_eq!(out[0..4].to_vec(), vec![0x84, 0x95, 0xA6, 0xBE]);
    let len = u32::from_be_bytes([out[4], out[5], out[6], out[7]]) as usize;
    assert_eq!(len + 20, out.len());
}

#[test]
fn marshaling_is_deterministic() {
    let heap = Heap { little_endian: true,
        blocks: vec![
            Block { tag: STRING_TAG, contents: Contents::Bytes(b"x".to_vec()) },
            Block { tag: 0, contents: Contents::Fields(vec![Value::Block(0), Value::Block(0), Value::Int(3)]) },
        ],
    };
    let a = output_val(&heap, Value::Block(1), &vec![]);
    let b = output_val(&heap, Value::Block(1), &vec![]);
    assert_eq!(a, b);
}

#[test]
fn objects_are_counted_once() {
    // A cycle through three blocks, each reached several times.
    let heap = Heap { little_endian: true,
        blocks: vec![
            Block { tag: 0, contents: Contents::Fields(vec![Value::Block(1), Value::Block(2)]) },
            Block { tag: 0, contents: Contents::Fields(vec![Value::Block(2), Value::Block(0)]) },
            Block { tag: 0, contents: Contents::Fields(vec![Value::Block(0), Value::Block(1)]) },
        ],
    };
    let out = output_val(&heap, Value::Block(0), &vec![]).unwrap();
    let objs = u32::from_be_bytes([out[8], out[9], out[10], out[11]]);
    assert_eq!(objs, 3);
    // Without sharing a tree is written out in full and no object is counted.
    let heap = Heap { little_endian: true,
        blocks: vec![
            Block { tag: 0, contents: Contents::Fields(vec![Value::Int(1)]) },
            Block { tag: 0, contents: Contents::Fields(vec![Value::Block(0), Value::Block(0)]) },
        ],
    };
    let out = output_val(&heap, Value::Block(1), &vec![0]).unwrap();
    assert_eq!(out[8..12].to_vec(), vec![0, 0, 0, 0]);
    assert_eq!(out[20..].to_vec(), vec![0xA0, 0x90, 0x41, 0x90, 0x41]);
}

#[test]
fn refusals_have_runtime_messages() {
    assert_eq!(MarshalError::AbstractValue.message(), "output_value: abstract value (Abstract)");
    assert_eq!(MarshalError::StackOverflow.message(), "Stack overflow in marshaling value");
    assert_eq!(
        MarshalError::IntegerTooLarge.message(),
        "output_value: integer cannot be read back on 32-bit platform"
    );
}

#[test]
fn strings_floats_and_back_references_read_back() {
    // A string of 300 bytes: CODE_STRING32, its length, then its bytes.
    let s: Vec<u8> = (0..300u32).map(|i| i as u8).collect();
    let heap = Heap { little_endian: true,
        blocks: vec![
            Block { tag: STRING_TAG, contents: Contents::Bytes(s.clone()) },
            Block { tag: 0, contents: Contents::Fields(vec![Value::Block(0), Value::Block(0)]) },
        ],
    };
    let out = output_val(&heap, Value::Block(1), &vec![]).unwrap();
    let body = &out[20..];
    assert_eq!(body[0], 0xA0);
    assert_eq!(body[1], 0x0A);
    let len = u32::from_be_bytes([body[2], body[3], body[4], body[5]]) as usize;
    assert_eq!(len, 300);
    assert_eq!(body[6..6 + len].to_vec(), s);
    // The second field refers back one object: CODE_SHARED8, 1.
    assert_eq!(body[6 + len..].to_vec(), vec![0x04, 1]);
    // Floats read back in the byte order that their code names.
    for little in [true, false] {
        let x = -2.5f64;
        let heap = Heap { little_endian: little,
            blocks: vec![Block { tag: ocamlrep_marshal::intext::DOUBLE_TAG, contents: Contents::Double(x.to_bits()) }],
        };
        let out = output_val(&heap, Value::Block(0), &vec![]).unwrap();
        let b: [u8; 8] = out[21..29].try_into().unwrap();
        let back = if out[20] == 0x0C { f64::from_le_bytes(b) } else { f64::from_be_bytes(b) };
        assert_eq!(back, x);
    }
}

#[test]
fn forward_block_marshals_as_its_target() {
    let target = Heap { little_endian: true,
        blocks: vec![Block { tag: STRING_TAG, contents: Contents::Bytes(b"ab".to_vec()) }],
    };
    let through_forward = Heap { little_endian: true,
        blocks: vec![
            Block { tag: STRING_TAG, contents: Contents::Bytes(b"ab".to_vec()) },
            Block { tag: ocamlrep_marshal::intext::FORWARD_TAG, contents: Contents::Fields(vec![Value::Block(0)]) },
        ],
    };
    assert_eq!(
        output_val(&through_forward, Value::Block(1), &vec![]),
        output_val(&target, Value::Block(0), &vec![])
    );
}

#[test]
fn malformed_heaps_are_detected() {
    let good = Heap { little_endian: true,
        blocks: vec![Block { tag: 0, contents: Contents::Fields(vec![Value::Int(1)]) }],
    };
    assert!(good.is_wf());
    let dangling = Heap { little_endian: true,
        blocks: vec![Block { tag: 0, contents: Contents::Fields(vec![Value::Block(5)]) }],
    };
    assert!(!dangling.is_wf());
    let bad_tag = Heap { little_endian: true,
        blocks: vec![Block { tag: STRING_TAG, contents: Contents::Fields(vec![]) }],
    };
    assert!(!bad_tag.is_wf());
}
