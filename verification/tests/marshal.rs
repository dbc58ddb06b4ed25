use ocamlrep_marshal::heap::{Block, Contents, Heap, Value};
use ocamlrep_marshal::intext::{
    ABSTRACT_TAG, CLOSURE_TAG, CUSTOM_TAG, DOUBLE_ARRAY_TAG, DOUBLE_TAG, FORWARD_TAG, INFIX_TAG,
    STRING_TAG,
};
use ocamlrep_marshal::machine::MarshalError;
use ocamlrep_marshal::marshal::{convert_flag_list, output_val};

fn small_header(len: u32, objs: u32, size_32: u32, size_64: u32) -> Vec<u8> {
    let mut h = vec![0x84, 0x95, 0xA6, 0xBE];
    h.extend_from_slice(&len.to_be_bytes());
    h.extend_from_slice(&objs.to_be_bytes());
    h.extend_from_slice(&size_32.to_be_bytes());
    h.extend_from_slice(&size_64.to_be_bytes());
    h
}

fn with_header(body: &[u8], objs: u32, size_32: u32, size_64: u32) -> Vec<u8> {
    let mut out = small_header(body.len() as u32, objs, size_32, size_64);
    out.extend_from_slice(body);
    out
}

fn fields(tag: u8, fs: Vec<Value>) -> Block {
    Block { tag, contents: Contents::Fields(fs) }
}

fn string(s: &str) -> Block {
    Block { tag: STRING_TAG, contents: Contents::Bytes(s.as_bytes().to_vec()) }
}

fn marshal(heap: &Heap, v: Value) -> Result<Vec<u8>, MarshalError> {
    output_val(heap, v, &vec![])
}

fn empty_heap() -> Heap {
    Heap { little_endian: true, blocks: vec![] }
}

fn int_body(n: i64) -> Vec<u8> {
    let out = marshal(&empty_heap(), Value::Int(n)).unwrap();
    out[20..].to_vec()
}

#[test]
fn marshals_small_int_with_small_header() {
    let out = marshal(&empty_heap(), Value::Int(1)).unwrap();
    assert_eq!(out, with_header(&[0x41], 0, 0, 0));
}

#[test]
fn int_encodings_pick_the_shortest_form() {
    assert_eq!(int_body(0), vec![0x40]);
    assert_eq!(int_body(63), vec![0x7F]);
    assert_eq!(int_body(64), vec![0x00, 0x40]);
    assert_eq!(int_body(-1), vec![0x00, 0xFF]);
    assert_eq!(int_body(-128), vec![0x00, 0x80]);
    assert_eq!(int_body(-129), vec![0x01, 0xFF, 0x7F]);
    assert_eq!(int_body(1000), vec![0x01, 0x03, 0xE8]);
    assert_eq!(int_body(100000), vec![0x02, 0x00, 0x01, 0x86, 0xA0]);
    assert_eq!(int_body(-100000), vec![0x02, 0xFF, 0xFE, 0x79, 0x60]);
    assert_eq!(int_body(1 << 40), vec![0x03, 0, 0, 1, 0, 0, 0, 0, 0]);
    assert_eq!(int_body(-(1 << 30) - 1), vec![0x03, 0xFF, 0xFF, 0xFF, 0xFF, 0xBF, 0xFF, 0xFF, 0xFF]);
}

#[test]
fn compat_32_refuses_wide_integers() {
    let heap = empty_heap();
    assert_eq!(output_val(&heap, Value::Int(1 << 40), &vec![2]), Err(MarshalError::IntegerTooLarge));
    let out = output_val(&heap, Value::Int(1 << 29), &vec![2]).unwrap();
    assert_eq!(out[20..].to_vec(), vec![0x02, 0x20, 0, 0, 0]);
}

#[test]
fn marshals_a_pair() {
    let heap = Heap { little_endian: true, blocks: vec![fields(0, vec![Value::Int(1), Value::Int(2)])] };
    let out = marshal(&heap, Value::Block(0)).unwrap();
    assert_eq!(out, with_header(&[0xA0, 0x41, 0x42], 1, 3, 3));
}

#[test]
fn marshals_a_string() {
    let heap = Heap { little_endian: true, blocks: vec![string("abc")] };
    let out = marshal(&heap, Value::Block(0)).unwrap();
    assert_eq!(out, with_header(&[0x23, b'a', b'b', b'c'], 1, 2, 2));
}

#[test]
fn marshals_a_long_string() {
    let s = "x".repeat(300);
    let heap = Heap { little_endian: true, blocks: vec![string(&s)] };
    let out = marshal(&heap, Value::Block(0)).unwrap();
    let mut body = vec![0x0A, 0, 0, 0x01, 0x2C];
    body.extend_from_slice(s.as_bytes());
    assert_eq!(out, with_header(&body, 1, 1 + 304 / 4, 1 + 308 / 8));
    let s = "y".repeat(40);
    let heap = Heap { little_endian: true, blocks: vec![string(&s)] };
    let out = marshal(&heap, Value::Block(0)).unwrap();
    assert_eq!(out[20..22].to_vec(), vec![0x09, 40]);
}

#[test]
fn shared_block_is_written_once() {
    let heap = Heap { little_endian: true,
        blocks: vec![string("a"), fields(0, vec![Value::Block(0), Value::Block(0)])],
    };
    let out = marshal(&heap, Value::Block(1)).unwrap();
    assert_eq!(out, with_header(&[0xA0, 0x21, b'a', 0x04, 0x01], 2, 5, 5));
}

#[test]
fn no_sharing_writes_every_occurrence() {
    let heap = Heap { little_endian: true,
        blocks: vec![string("a"), fields(0, vec![Value::Block(0), Value::Block(0)])],
    };
    let out = output_val(&heap, Value::Block(1), &vec![0]).unwrap();
    assert_eq!(out, with_header(&[0xA0, 0x21, b'a', 0x21, b'a'], 0, 7, 7));
}

#[test]
fn cyclic_value_refers_back_to_itself() {
    let heap = Heap { little_endian: true, blocks: vec![fields(0, vec![Value::Int(1), Value::Block(0)])] };
    let out = marshal(&heap, Value::Block(0)).unwrap();
    assert_eq!(out, with_header(&[0xA0, 0x41, 0x04, 0x01], 1, 3, 3));
}

#[test]
fn atoms_are_written_as_bare_headers() {
    let heap = Heap { little_endian: true, blocks: vec![fields(3, vec![])] };
    let out = marshal(&heap, Value::Block(0)).unwrap();
    assert_eq!(out, with_header(&[0x83], 0, 0, 0));
}

#[test]
fn large_tags_and_sizes_use_header_words() {
    let heap = Heap { little_endian: true, blocks: vec![fields(20, vec![Value::Int(0)])] };
    let out = marshal(&heap, Value::Block(0)).unwrap();
    // (1 << 10) + 20 = 0x414
    assert_eq!(out, with_header(&[0x08, 0, 0, 0x04, 0x14, 0x40], 1, 2, 2));
    let heap = Heap { little_endian: true, blocks: vec![fields(1, vec![Value::Int(0); 9])] };
    let out = marshal(&heap, Value::Block(0)).unwrap();
    assert_eq!(out[20..25].to_vec(), vec![0x08, 0, 0, 0x24, 0x01]);
}

#[test]
fn marshals_floats_little_endian() {
    let heap = Heap { little_endian: true, blocks: vec![Block { tag: DOUBLE_TAG, contents: Contents::Double(1.0f64.to_bits()) }] };
    let out = marshal(&heap, Value::Block(0)).unwrap();
    assert_eq!(out, with_header(&[0x0C, 0, 0, 0, 0, 0, 0, 0xF0, 0x3F], 1, 3, 2));
    let heap = Heap { little_endian: true,
        blocks: vec![Block {
            tag: DOUBLE_ARRAY_TAG,
            contents: Contents::Doubles(vec![1.0f64.to_bits(), 2.0f64.to_bits()]),
        }],
    };
    let out = marshal(&heap, Value::Block(0)).unwrap();
    assert_eq!(
        out,
        with_header(
            &[0x0E, 2, 0, 0, 0, 0, 0, 0, 0xF0, 0x3F, 0, 0, 0, 0, 0, 0, 0, 0x40],
            1,
            5,
            3
        )
    );
}

#[test]
fn marshals_floats_big_endian_when_memory_is_big_endian() {
    let heap = Heap {
        little_endian: false,
        blocks: vec![Block { tag: DOUBLE_TAG, contents: Contents::Double(1.0f64.to_bits()) }],
    };
    let out = marshal(&heap, Value::Block(0)).unwrap();
    assert_eq!(out, with_header(&[0x0B, 0x3F, 0xF0, 0, 0, 0, 0, 0, 0], 1, 3, 2));
    let heap = Heap {
        little_endian: false,
        blocks: vec![Block {
            tag: DOUBLE_ARRAY_TAG,
            contents: Contents::Doubles(vec![1.0f64.to_bits(), 2.0f64.to_bits()]),
        }],
    };
    let out = marshal(&heap, Value::Block(0)).unwrap();
    assert_eq!(
        out,
        with_header(
            &[0x0D, 2, 0x3F, 0xF0, 0, 0, 0, 0, 0, 0, 0x40, 0, 0, 0, 0, 0, 0, 0],
            1,
            5,
            3
        )
    );
}

#[test]
fn forward_blocks_are_skipped() {
    let heap = Heap { little_endian: true, blocks: vec![fields(FORWARD_TAG, vec![Value::Int(5)])] };
    let out = marshal(&heap, Value::Block(0)).unwrap();
    assert_eq!(out, with_header(&[0x45], 0, 0, 0));
}

#[test]
fn forward_to_a_float_is_kept() {
    let heap = Heap { little_endian: true,
        blocks: vec![
            Block { tag: DOUBLE_TAG, contents: Contents::Double(0) },
            fields(FORWARD_TAG, vec![Value::Block(0)]),
        ],
    };
    let out = marshal(&heap, Value::Block(1)).unwrap();
    // header word (1 << 10) + 250 = 0x4FA
    assert_eq!(
        out,
        with_header(&[0x08, 0, 0, 0x04, 0xFA, 0x0C, 0, 0, 0, 0, 0, 0, 0, 0], 2, 5, 4)
    );
}

#[test]
fn refuses_abstract_custom_and_closures() {
    let heap = Heap { little_endian: true,
        blocks: vec![
            Block { tag: ABSTRACT_TAG, contents: Contents::Opaque { wosize: 1 } },
            Block { tag: CUSTOM_TAG, contents: Contents::Opaque { wosize: 2 } },
            fields(CLOSURE_TAG, vec![Value::Int(0), Value::Int(0)]),
            Block { tag: INFIX_TAG, contents: Contents::Infix { offset: 2, enclosing: 2 } },
        ],
    };
    assert_eq!(marshal(&heap, Value::Block(0)), Err(MarshalError::AbstractValue));
    assert_eq!(marshal(&heap, Value::Block(1)), Err(MarshalError::CustomBlock));
    assert_eq!(marshal(&heap, Value::Block(2)), Err(MarshalError::Closure));
    assert_eq!(marshal(&heap, Value::Block(3)), Err(MarshalError::Closure));
}

#[test]
fn compat_32_refuses_large_blocks() {
    let heap = Heap { little_endian: true, blocks: vec![fields(0, vec![Value::Int(0); 0x400000])] };
    assert_eq!(output_val(&heap, Value::Block(0), &vec![2]), Err(MarshalError::ArrayTooLarge));
    let heap = Heap { little_endian: true,
        blocks: vec![Block { tag: STRING_TAG, contents: Contents::Bytes(vec![0; 0xFFFFFC]) }],
    };
    assert_eq!(output_val(&heap, Value::Block(0), &vec![2]), Err(MarshalError::StringTooLarge));
    let heap = Heap { little_endian: true,
        blocks: vec![Block { tag: DOUBLE_ARRAY_TAG, contents: Contents::Doubles(vec![0; 0x200000]) }],
    };
    assert_eq!(output_val(&heap, Value::Block(0), &vec![2]), Err(MarshalError::FloatArrayTooLarge));
}

#[test]
fn many_shared_blocks_survive_table_growth() {
    let n = 500usize;
    let mut blocks: Vec<Block> = (0..n).map(|i| string(&format!("s{}", i))).collect();
    let strings: Vec<Value> = (0..n).map(Value::Block).collect();
    blocks.push(fields(0, strings.clone()));
    blocks.push(fields(0, strings));
    blocks.push(fields(0, vec![Value::Block(n), Value::Block(n + 1)]));
    let heap = Heap { little_endian: true, blocks };
    let out = marshal(&heap, Value::Block(n + 2)).unwrap();
    let mut body = vec![0xA0];
    // first list: header word 500 << 10, then the strings
    body.extend_from_slice(&[0x08, 0x00, 0x07, 0xD0, 0x00]);
    for i in 0..n {
        let s = format!("s{}", i);
        body.push(0x20 + s.len() as u8);
        body.extend_from_slice(s.as_bytes());
    }
    // second list: its header, then back references
    body.extend_from_slice(&[0x08, 0x00, 0x07, 0xD0, 0x00]);
    for i in 0..n {
        let d = (n + 3 - (2 + i)) as u32;
        if d < 0x100 {
            body.extend_from_slice(&[0x04, d as u8]);
        } else {
            body.extend_from_slice(&[0x05, (d >> 8) as u8, d as u8]);
        }
    }
    assert_eq!(out[20..].to_vec(), body);
    assert_eq!(out[8..12].to_vec(), ((n + 3) as u32).to_be_bytes().to_vec());
}

#[test]
fn converts_flag_lists() {
    assert_eq!(convert_flag_list(&[], &[1, 2, 4]), 0);
    assert_eq!(convert_flag_list(&[0, 2], &[1, 2, 4]), 5);
    assert_eq!(convert_flag_list(&[1, 1], &[1, 2, 4]), 2);
}

#[test]
fn detects_cycles() {
    let heap = Heap { little_endian: true, blocks: vec![fields(0, vec![Value::Int(1), Value::Block(0)])] };
    assert!(!heap.all_children_precede_parents());
    let heap = Heap { little_endian: true,
        blocks: vec![string("a"), fields(0, vec![Value::Block(0), Value::Block(0)])],
    };
    assert!(heap.all_children_precede_parents());
}
