//! The marshaling algorithm as an abstract machine: a depth-first walk of the
//! value that writes each block the first time it is reached and a back
//! reference every later time, with the pending fields on an explicit stack.
//! [`step`] is one turn of the walk; the marshaled bytes are the output of the
//! machine once it has halted, behind the format's header.

use vstd::prelude::*;
use vstd::wrapping::u64_specs;
use crate::encode::{
    be32, be64, double_array_encoding, double_array_fits_32, double_encoding, header_encoding,
    header_fits_32, int_encoding, int_fits_32, shared_encoding, string_encoding,
    string_fits_32,
};
use crate::heap::{spec_wosize, Block, Contents, Heap, Value};
use crate::intext::{
    ABSTRACT_TAG, CLOSURE_TAG, CODE_INFIXPOINTER, COMPAT_32, MAGIC_NUMBER_BIG, MAGIC_NUMBER_SMALL,
    NO_SHARING,
};

verus! {

/// Most pending items the stack may hold.
pub const EXTERN_STACK_MAX_SIZE: usize = 104857600;

/// Why a value cannot be marshaled.
#[derive(Clone, Copy, Debug, PartialEq, Eq, Structural)]
pub enum MarshalError {
    /// A block with tag `ABSTRACT_TAG`.
    AbstractValue,
    /// A block with tag `CUSTOM_TAG`.
    CustomBlock,
    /// A closure (or an infix pointer into one).
    Closure,
    /// With `COMPAT_32`: an integer that does not fit in 31 bits.
    IntegerTooLarge,
    /// With `COMPAT_32`: a block of more than `0x3FFFFF` words.
    ArrayTooLarge,
    /// With `COMPAT_32`: a string of more than `0xFFFFFB` bytes.
    StringTooLarge,
    /// With `COMPAT_32`: a float array of more than `0x1FFFFF` floats.
    FloatArrayTooLarge,
    /// With `COMPAT_32`: output or heap size that needs the 64-bit header.
    ObjectTooBig,
    /// More than `EXTERN_STACK_MAX_SIZE` pending blocks.
    StackOverflow,
}

impl MarshalError {
    /// The message of the exception that OCaml's runtime raises for this refusal.
    pub fn message(&self) -> (s: &'static str)
        ensures
            s@ == match *self {
                MarshalError::AbstractValue => "output_value: abstract value (Abstract)"@,
                MarshalError::CustomBlock => "output_value: marshaling of custom blocks not implemented"@,
                MarshalError::Closure => "output_value: marshaling of closures not implemented"@,
                MarshalError::IntegerTooLarge => "output_value: integer cannot be read back on 32-bit platform"@,
                MarshalError::ArrayTooLarge => "output_value: array cannot be read back on 32-bit platform"@,
                MarshalError::StringTooLarge => "output_value: string cannot be read back on 32-bit platform"@,
                MarshalError::FloatArrayTooLarge => "output_value: float array cannot be read back on 32-bit platform"@,
                MarshalError::ObjectTooBig => "output_value: object too big to be read back on 32-bit platform"@,
                MarshalError::StackOverflow => "Stack overflow in marshaling value"@,
            },
    {
        match self {
            MarshalError::AbstractValue => "output_value: abstract value (Abstract)",
            MarshalError::CustomBlock => "output_value: marshaling of custom blocks not implemented",
            MarshalError::Closure => "output_value: marshaling of closures not implemented",
            MarshalError::IntegerTooLarge => "output_value: integer cannot be read back on 32-bit platform",
            MarshalError::ArrayTooLarge => "output_value: array cannot be read back on 32-bit platform",
            MarshalError::StringTooLarge => "output_value: string cannot be read back on 32-bit platform",
            MarshalError::FloatArrayTooLarge => "output_value: float array cannot be read back on 32-bit platform",
            MarshalError::ObjectTooBig => "output_value: object too big to be read back on 32-bit platform",
            MarshalError::StackOverflow => "Stack overflow in marshaling value",
        }
    }
}

/// Fields `next .. next + count` of block `block` remain to be marshaled.
#[derive(Clone, Copy, Debug)]
pub struct ExternItem {
    pub block: usize,
    pub next: usize,
    pub count: u64,
}

/// The state of the marshaling walk.
#[verifier::ext_equal]
pub struct Machine {
    /// The value to marshal next; `None` once the walk is over.
    pub cur: Option<Value>,
    /// Blocks whose later fields are still pending, innermost last.
    pub stack: Seq<ExternItem>,
    /// The position of each block written so far (with sharing).
    pub table: Map<usize, u64>,
    /// Number of blocks written so far (with sharing).
    pub obj_counter: u64,
    /// Size in words of the value on a 32-bit platform.
    pub size_32: u64,
    /// Size in words of the value on a 64-bit platform.
    pub size_64: u64,
    /// The bytes written so far.
    pub output: Seq<u8>,
    /// The error that stopped the walk, if any.
    pub error: Option<MarshalError>,
}

/// Blocks reached twice are written once, then referred back to.
pub open spec fn sharing(flags: i32) -> bool {
    flags & NO_SHARING == 0
}

/// Output that a 32-bit OCaml could not read back is refused.
pub open spec fn compat_32(flags: i32) -> bool {
    flags & COMPAT_32 != 0
}

/// The state in which marshaling `v` starts.
pub open spec fn initial(v: Value) -> Machine {
    Machine {
        cur: Some(v),
        stack: Seq::empty(),
        table: Map::empty(),
        obj_counter: 0,
        size_32: 0,
        size_64: 0,
        output: Seq::empty(),
        error: None,
    }
}

/// The walk is over: everything is written, or an error stopped it.
pub open spec fn halted(m: Machine) -> bool {
    m.cur is None || m.error is Some
}

pub open spec fn fail(m: Machine, e: MarshalError) -> Machine {
    Machine { cur: None, error: Some(e), ..m }
}

pub open spec fn emit(m: Machine, bytes: Seq<u8>) -> Machine {
    Machine { output: m.output + bytes, ..m }
}

pub open spec fn grow(m: Machine, words_32: u64, words_64: u64) -> Machine {
    Machine {
        size_32: u64_specs::wrapping_add(m.size_32, words_32),
        size_64: u64_specs::wrapping_add(m.size_64, words_64),
        ..m
    }
}

/// With sharing, block `i` is written at position `obj_counter`.
pub open spec fn record(flags: i32, m: Machine, i: usize) -> Machine {
    if sharing(flags) {
        Machine {
            table: m.table.insert(i, m.obj_counter),
            obj_counter: u64_specs::wrapping_add(m.obj_counter, 1),
            ..m
        }
    } else {
        m
    }
}

/// The fields of a structured block.
pub open spec fn fields(b: Block) -> Seq<Value> {
    b.contents->Fields_0@
}

/// Takes the next pending field, if any; the walk is over if none is left.
pub open spec fn next_item(h: Heap, m: Machine) -> Machine {
    if m.stack.len() == 0 {
        Machine { cur: None, ..m }
    } else {
        let it = m.stack.last();
        let v = fields(h.blocks@[it.block as int])[it.next as int];
        if it.count == 1 {
            Machine { cur: Some(v), stack: m.stack.drop_last(), ..m }
        } else {
            Machine {
                cur: Some(v),
                stack: m.stack.update(
                    m.stack.len() - 1,
                    ExternItem { block: it.block, next: (it.next + 1) as usize, count: (it.count - 1) as u64 },
                ),
                ..m
            }
        }
    }
}

/// Words that a string of `len` bytes takes on a 32-bit platform, header included.
pub open spec fn string_words_32(len: u64) -> u64 {
    u64_specs::wrapping_add(1, u64_specs::wrapping_add(len, 4) / 4)
}

/// Words that a string of `len` bytes takes on a 64-bit platform, header included.
pub open spec fn string_words_64(len: u64) -> u64 {
    u64_specs::wrapping_add(1, u64_specs::wrapping_add(len, 8) / 8)
}

/// A string of `len` bytes occupies, header word included, one word more
/// than the fewest words that hold its bytes and its padding byte: 4-byte
/// words on a 32-bit platform, 8-byte words on a 64-bit one.
pub proof fn law_string_words(len: u64)
    requires
        len <= u64::MAX - 8,
    ensures
        string_words_32(len) >= 2,
        4 * (string_words_32(len) - 1) >= len + 1,
        4 * (string_words_32(len) - 1) <= len + 4,
        string_words_64(len) >= 2,
        8 * (string_words_64(len) - 1) >= len + 1,
        8 * (string_words_64(len) - 1) <= len + 8,
{
    let a = (len + 4) as u64;
    let b = (len + 8) as u64;
    assert(u64_specs::wrapping_add(len, 4) == a);
    assert(u64_specs::wrapping_add(len, 8) == b);
    assert(u64_specs::wrapping_add(1, a / 4) == 1 + a / 4);
    assert(u64_specs::wrapping_add(1, b / 8) == 1 + b / 8);
}

/// One turn of the walk on block `i`.
pub open spec fn step_block(h: Heap, flags: i32, m: Machine, i: usize) -> Machine {
    let b = h.blocks@[i as int];
    let sz = spec_wosize(b);
    if h.forward_skipped(b) {
        Machine { cur: Some(fields(b)[0]), ..m }
    } else if sz == 0 {
        next_item(h, emit(m, header_encoding(0, b.tag)))
    } else if sharing(flags) && m.table.contains_key(i) {
        next_item(h, emit(m, shared_encoding(u64_specs::wrapping_sub(m.obj_counter, m.table[i]))))
    } else {
        match b.contents {
            Contents::Bytes(bs) => {
                let len = bs@.len() as u64;
                if compat_32(flags) && !string_fits_32(len) {
                    fail(m, MarshalError::StringTooLarge)
                } else {
                    next_item(
                        h,
                        record(
                            flags,
                            grow(
                                emit(m, string_encoding(bs@)),
                                string_words_32(len),
                                string_words_64(len),
                            ),
                            i,
                        ),
                    )
                }
            },
            Contents::Double(bits) => {
                next_item(h, record(flags, grow(emit(m, double_encoding(h.little_endian, bits)), 3, 2), i))
            },
            Contents::Doubles(ds) => {
                let n = ds@.len() as u64;
                if compat_32(flags) && !double_array_fits_32(n) {
                    fail(m, MarshalError::FloatArrayTooLarge)
                } else {
                    next_item(
                        h,
                        record(
                            flags,
                            grow(
                                emit(m, double_array_encoding(h.little_endian, ds@)),
                                u64_specs::wrapping_add(1, u64_specs::wrapping_mul(n, 2)),
                                u64_specs::wrapping_add(1, n),
                            ),
                            i,
                        ),
                    )
                }
            },
            Contents::Opaque { .. } => {
                if b.tag == ABSTRACT_TAG {
                    fail(m, MarshalError::AbstractValue)
                } else {
                    fail(m, MarshalError::CustomBlock)
                }
            },
            Contents::Infix { offset, enclosing } => {
                Machine {
                    cur: Some(Value::Block(enclosing)),
                    ..emit(m, seq![CODE_INFIXPOINTER] + be32(u64_specs::wrapping_mul(offset, 8)))
                }
            },
            Contents::Fields(fs) => {
                if b.tag == CLOSURE_TAG {
                    fail(m, MarshalError::Closure)
                } else if compat_32(flags) && !header_fits_32(sz, b.tag) {
                    fail(m, MarshalError::ArrayTooLarge)
                } else {
                    let words = u64_specs::wrapping_add(1, sz);
                    let m1 = record(flags, grow(emit(m, header_encoding(sz, b.tag)), words, words), i);
                    if sz > 1 {
                        if m.stack.len() + 1 >= EXTERN_STACK_MAX_SIZE {
                            fail(m1, MarshalError::StackOverflow)
                        } else {
                            Machine {
                                cur: Some(fs@[0]),
                                stack: m1.stack.push(ExternItem { block: i, next: 1, count: (sz - 1) as u64 }),
                                ..m1
                            }
                        }
                    } else {
                        Machine { cur: Some(fs@[0]), ..m1 }
                    }
                }
            },
        }
    }
}

/// One turn of the walk: write the current value, then move to the next one.
pub open spec fn step(h: Heap, flags: i32, m: Machine) -> Machine {
    if halted(m) {
        m
    } else {
        match m.cur.unwrap() {
            Value::Int(n) => {
                if compat_32(flags) && !int_fits_32(n) {
                    fail(m, MarshalError::IntegerTooLarge)
                } else {
                    next_item(h, emit(m, int_encoding(n)))
                }
            },
            Value::Block(i) => step_block(h, flags, m, i),
        }
    }
}

/// `n` turns of the walk.
pub open spec fn steps(h: Heap, flags: i32, m: Machine, n: nat) -> Machine
    decreases n,
{
    if n == 0 {
        m
    } else {
        steps(h, flags, step(h, flags, m), (n - 1) as nat)
    }
}

/// The 20-byte header: magic, output length, number of objects, sizes in words.
pub open spec fn small_header(len: u64, objects: u64, size_32: u64, size_64: u64) -> Seq<u8> {
    be32(MAGIC_NUMBER_SMALL as u64) + be32(len) + be32(objects) + be32(size_32) + be32(size_64)
}

/// The 32-byte header: magic, zero, output length, number of objects, 64-bit size.
pub open spec fn big_header(len: u64, objects: u64, size_64: u64) -> Seq<u8> {
    be32(MAGIC_NUMBER_BIG as u64) + be32(0) + be64(len) + be64(objects) + be64(size_64)
}

/// The output needs the 32-byte header: a length or a size reaches 2^32.
pub open spec fn needs_big_header(m: Machine) -> bool {
    m.output.len() >= 0x1_0000_0000 || m.size_32 >= 0x1_0000_0000 || m.size_64 >= 0x1_0000_0000
}

/// The header of a finished walk.
pub open spec fn header_of(m: Machine) -> Seq<u8> {
    if needs_big_header(m) {
        big_header(m.output.len() as u64, m.obj_counter, m.size_64)
    } else {
        small_header(m.output.len() as u64, m.obj_counter, m.size_32, m.size_64)
    }
}

/// What marshaling produces once the walk has halted in `m`.
pub open spec fn outcome(flags: i32, m: Machine) -> Result<Seq<u8>, MarshalError> {
    match m.error {
        Some(e) => Err(e),
        None => {
            if needs_big_header(m) && compat_32(flags) {
                Err(MarshalError::ObjectTooBig)
            } else {
                Ok(header_of(m) + m.output)
            }
        },
    }
}

/// A halted walk stays where it is.
pub proof fn lemma_halted_stays(h: Heap, flags: i32, m: Machine, n: nat)
    requires
        halted(m),
    ensures
        steps(h, flags, m, n) == m,
    decreases n,
{
    if n > 0 {
        lemma_halted_stays(h, flags, step(h, flags, m), (n - 1) as nat);
    }
}

/// One more turn after `n` turns.
pub proof fn lemma_steps_succ(h: Heap, flags: i32, m: Machine, n: nat)
    ensures
        steps(h, flags, m, n + 1) == step(h, flags, steps(h, flags, m, n)),
    decreases n,
{
    if n > 0 {
        lemma_steps_succ(h, flags, step(h, flags, m), (n - 1) as nat);
        assert(steps(h, flags, m, n + 1) == steps(h, flags, step(h, flags, m), n));
        assert(steps(h, flags, m, n) == steps(h, flags, step(h, flags, m), (n - 1) as nat));
    } else {
        assert(steps(h, flags, step(h, flags, m), 0) == step(h, flags, m));
    }
}

/// Marshaling is deterministic: all halted states that the walk reaches from
/// the same start are the same.
pub proof fn lemma_outcome_unique(h: Heap, flags: i32, m: Machine, n1: nat, n2: nat)
    requires
        halted(steps(h, flags, m, n1)),
        halted(steps(h, flags, m, n2)),
    ensures
        steps(h, flags, m, n1) == steps(h, flags, m, n2),
    decreases n1, n2,
{
    if n1 > 0 && n2 > 0 {
        lemma_outcome_unique(h, flags, step(h, flags, m), (n1 - 1) as nat, (n2 - 1) as nat);
    } else if n1 == 0 {
        lemma_halted_stays(h, flags, m, n2);
    } else {
        lemma_halted_stays(h, flags, m, n1);
    }
}

/// The marshaled bytes are a header, then the output of the walk; the
/// 20-byte header, which `COMPAT_32` always asks for, starts with its magic
/// number and records the output's length, which reads back from it.
pub proof fn law_header_describes_body(flags: i32, m: Machine, bytes: Seq<u8>)
    requires
        outcome(flags, m) == Ok::<Seq<u8>, MarshalError>(bytes),
    ensures
        compat_32(flags) ==> !needs_big_header(m),
        !needs_big_header(m) ==> {
            &&& bytes.len() == 20 + m.output.len()
            &&& bytes.subrange(0, 4) == be32(MAGIC_NUMBER_SMALL as u64)
            &&& crate::encode::be32_value(bytes.subrange(4, 8)) == m.output.len()
            &&& bytes.subrange(20, bytes.len() as int) == m.output
        },
        needs_big_header(m) ==> {
            &&& bytes.len() == 32 + m.output.len()
            &&& bytes.subrange(0, 4) == be32(MAGIC_NUMBER_BIG as u64)
            &&& bytes.subrange(8, 16) == be64(m.output.len() as u64)
            &&& bytes.subrange(32, bytes.len() as int) == m.output
        },
{
    let len = m.output.len() as u64;
    if !needs_big_header(m) {
        let hd = small_header(len, m.obj_counter, m.size_32, m.size_64);
        assert(bytes == hd + m.output);
        assert(bytes.subrange(0, 4) =~= be32(MAGIC_NUMBER_SMALL as u64));
        assert(bytes.subrange(4, 8) =~= be32(len));
        crate::encode::law_be32_roundtrip(len);
        assert(bytes.subrange(20, bytes.len() as int) =~= m.output);
    } else {
        let hd = big_header(len, m.obj_counter, m.size_64);
        assert(bytes == hd + m.output);
        assert(bytes.subrange(0, 4) =~= be32(MAGIC_NUMBER_BIG as u64));
        assert(bytes.subrange(8, 16) =~= be64(len));
        assert(bytes.subrange(32, bytes.len() as int) =~= m.output);
    }
}

/// A forward block whose target is not a forward, lazy, forcing or float
/// block is neither written nor recorded: from any state, marshaling it goes,
/// one turn later, exactly as marshaling its target from the same state.
pub proof fn law_forward_skipped(h: Heap, flags: i32, m: Machine, i: usize, k: nat)
    requires
        m.cur == Some(Value::Block(i)),
        m.error is None,
        0 <= i < h.blocks@.len(),
        h.forward_skipped(h.blocks@[i as int]),
    ensures
        steps(h, flags, m, k + 1) == steps(
            h,
            flags,
            Machine { cur: Some(fields(h.blocks@[i as int])[0]), ..m },
            k,
        ),
{
    assert(step(h, flags, m) == Machine { cur: Some(fields(h.blocks@[i as int])[0]), ..m });
}

/// A string block not yet written is written as a string: its length, then
/// its bytes, whatever its length (the empty string included), and it is
/// counted (and recorded, with sharing) as one object.
pub proof fn law_string_written(h: Heap, flags: i32, m: Machine, i: usize)
    requires
        m.cur == Some(Value::Block(i)),
        m.error is None,
        0 <= i < h.blocks@.len(),
        h.blocks@[i as int].contents is Bytes,
        !(sharing(flags) && m.table.contains_key(i)),
        !(compat_32(flags) && !string_fits_32(
            h.blocks@[i as int].contents->Bytes_0@.len() as u64,
        )),
    ensures
        step(h, flags, m).output == m.output + string_encoding(
            h.blocks@[i as int].contents->Bytes_0@,
        ),
        sharing(flags) ==> step(h, flags, m).table == m.table.insert(i, m.obj_counter)
            && step(h, flags, m).obj_counter == u64_specs::wrapping_add(m.obj_counter, 1),
{
    let b = h.blocks@[i as int];
    assert(b.contents->Bytes_0@.len() == b.contents->Bytes_0.len());
    crate::heap::law_string_wosize(b);
}

/// `a` turns, then `b` more.
pub proof fn lemma_steps_add(h: Heap, flags: i32, m: Machine, a: nat, b: nat)
    ensures
        steps(h, flags, m, a + b) == steps(h, flags, steps(h, flags, m, a), b),
    decreases a,
{
    if a > 0 {
        lemma_steps_add(h, flags, step(h, flags, m), (a - 1) as nat, b);
        assert(steps(h, flags, m, a + b) == steps(h, flags, step(h, flags, m), (a - 1 + b) as nat));
    }
}

/// With `COMPAT_32`, marshaling that succeeds has written only integers that
/// a 32-bit OCaml reads back: every integer the walk reaches fits in 31 bits.
pub proof fn law_compat_32_integers(h: Heap, v: Value, flags: i32, k: nat, j: nat, n: i64)
    requires
        compat_32(flags),
        halted(steps(h, flags, initial(v), k)),
        outcome(flags, steps(h, flags, initial(v), k)) is Ok,
        j < k,
        steps(h, flags, initial(v), j).cur == Some(Value::Int(n)),
        steps(h, flags, initial(v), j).error is None,
    ensures
        int_fits_32(n),
        int_encoding(n).len() <= 5,
        -0x4000_0000 <= n < 0x4000_0000,
{
    let m0 = initial(v);
    let mj = steps(h, flags, m0, j);
    if !int_fits_32(n) {
        let mf = step(h, flags, mj);
        assert(mf.error == Some(MarshalError::IntegerTooLarge));
        lemma_steps_add(h, flags, m0, j + 1, (k - j - 1) as nat);
        lemma_steps_succ(h, flags, m0, j);
        lemma_halted_stays(h, flags, mf, (k - j - 1) as nat);
        assert(steps(h, flags, m0, k) == mf);
    }
    crate::encode::law_int_fits_32_short(n);
}

} // verus!
