//! The marshaler: walks a value of the heap and writes it in the OCaml
//! `output_value` format, writing each block once and referring back to it
//! when it is reached again (unless sharing is turned off).

use vstd::prelude::*;
use vstd::wrapping::u64_specs;
use crate::encode::{
    be32, double_array_encoding, double_array_fits_32, double_array_header, double_encoding,
    doubles_bytes, header_encoding, header_fits_32, int_encoding, int_fits_32,
    shared_encoding, store32, store64, store_float, string_encoding,
    string_fits_32, string_header, writecode16, writecode32, writecode64, writecode8, Make_header,
};
use crate::heap::{Contents, Heap, Value};
use crate::intext::{
    ABSTRACT_TAG, CLOSURE_TAG, CODE_BLOCK32, CODE_BLOCK64, CODE_DOUBLE_ARRAY32_BIG,
    CODE_DOUBLE_ARRAY32_LITTLE, CODE_DOUBLE_ARRAY64_BIG, CODE_DOUBLE_ARRAY64_LITTLE,
    CODE_DOUBLE_ARRAY8_BIG, CODE_DOUBLE_ARRAY8_LITTLE, CODE_DOUBLE_BIG, CODE_DOUBLE_LITTLE,
    CODE_INFIXPOINTER, CODE_INT16, CODE_INT32, CODE_INT64, CODE_INT8, CODE_SHARED16,
    CODE_SHARED32, CODE_SHARED64, CODE_SHARED8, CODE_STRING32, CODE_STRING64, CODE_STRING8,
    CLOSURES, COMPAT_32, MAGIC_NUMBER_BIG, MAGIC_NUMBER_SMALL, FORWARD_TAG, NO_SHARING, PREFIX_SMALL_BLOCK, PREFIX_SMALL_INT,
    PREFIX_SMALL_STRING, SIZE_EXTERN_OUTPUT_BLOCK,
};
use crate::machine::{
    compat_32, emit, grow, halted, header_of, initial, lemma_steps_succ, next_item, outcome,
    record, sharing, step_block, steps, string_words_32, string_words_64, ExternItem, Machine,
    MarshalError, EXTERN_STACK_MAX_SIZE,
};
use crate::position_table::{Lookup, PositionTable};
use crate::termination::{
    inv, item_ok, lemma_emit_grow, lemma_record, lemma_step, lemma_steps_counts, lemma_unwritten, measure_blocks,
    measure_work, rank,
};

verus! {

/// Initial capacity of the stack of pending blocks.
pub const EXTERN_STACK_INIT_SIZE: usize = 256;

/// The marshaler's state.
pub struct State {
    extern_flags: i32,
    obj_counter: u64,
    size_32: u64,
    size_64: u64,
    stack: Vec<ExternItem>,
    pos_table: PositionTable,
    output: Vec<u8>,
}

/// Two machines that differ only in their current value.
proof fn lemma_machine_cur(m0: Machine, mn: Machine)
    requires
        m0.stack == mn.stack,
        m0.table == mn.table,
        m0.obj_counter == mn.obj_counter,
        m0.size_32 == mn.size_32,
        m0.size_64 == mn.size_64,
        m0.output == mn.output,
        m0.error == mn.error,
    ensures
        m0 == (Machine { cur: m0.cur, ..mn }),
{
}

impl State {
    /// The state of the walk, with `cur` the value to marshal next.
    pub closed spec fn machine(&self, cur: Option<Value>) -> Machine {
        Machine {
            cur,
            stack: self.stack@,
            table: self.pos_table@,
            obj_counter: self.obj_counter,
            size_32: self.size_32,
            size_64: self.size_64,
            output: self.output@,
            error: None,
        }
    }

    /// The state in which the walk from `v0` starts: the table emptied when
    /// sharing, the other counters and the output as they are.
    pub closed spec fn walk_start(&self, v0: Value) -> Machine {
        Machine {
            cur: Some(v0),
            table: if sharing(self.extern_flags) {
                Map::empty()
            } else {
                self.pos_table@
            },
            ..self.machine(Some(v0))
        }
    }

    /// The state in which marshaling `v` with `flags` starts: counters at
    /// zero, the table emptied when sharing, the output as it is.
    pub closed spec fn value_start(&self, flags: i32, v: Value) -> Machine {
        Machine {
            cur: Some(v),
            stack: Seq::empty(),
            table: if sharing(flags) {
                Map::empty()
            } else {
                self.pos_table@
            },
            obj_counter: 0,
            size_32: 0,
            size_64: 0,
            output: self.output@,
            error: None,
        }
    }

    pub closed spec fn flags(&self) -> i32 {
        self.extern_flags
    }

    /// The table of written blocks.
    pub closed spec fn table(&self) -> PositionTable {
        self.pos_table
    }

    /// Only the output differs between `self` and `other`.
    closed spec fn same_but_output(&self, other: &State) -> bool {
        &&& self.extern_flags == other.extern_flags
        &&& self.obj_counter == other.obj_counter
        &&& self.size_32 == other.size_32
        &&& self.size_64 == other.size_64
        &&& self.stack@ == other.stack@
        &&& self.pos_table == other.pos_table
    }

    /// A state with no flags, nothing written and nothing recorded.
    pub fn new() -> (s: State)
        ensures
            s.flags() == 0,
            s.table().spec_size() == 0,
            s.table().spec_shift() == 0,
            s.table().spec_mask() == 0,
            s.table().spec_threshold() == 0,
            s.table().spec_present_len() == 0,
            s.table().spec_entries_len() == 0,
            s.machine(None) == (Machine {
                cur: None,
                stack: Seq::empty(),
                table: Map::empty(),
                obj_counter: 0,
                size_32: 0,
                size_64: 0,
                output: Seq::empty(),
                error: None,
            }),
    {
        State {
            extern_flags: 0,
            obj_counter: 0,
            size_32: 0,
            size_64: 0,
            stack: Vec::with_capacity(EXTERN_STACK_INIT_SIZE),
            pos_table: PositionTable::new(),
            output: Vec::new(),
        }
    }

    /// Starts an empty output buffer.
    fn init_output(&mut self)
        ensures
            final(self).output@.len() == 0,
            final(self).same_but_output(old(self)),
    {
        self.output = Vec::with_capacity(SIZE_EXTERN_OUTPUT_BLOCK);
    }

    /// Starts the table of written blocks (with sharing).
    fn init_position_table(&mut self)
        ensures
            sharing(final(self).extern_flags) ==> {
                &&& final(self).pos_table@ == Map::<usize, u64>::empty()
                &&& final(self).pos_table.wf()
                &&& final(self).pos_table.shape()
                &&& final(self).pos_table.spec_size() == 256
                &&& final(self).pos_table.spec_shift() == 56
                &&& final(self).pos_table.spec_threshold() == 170
                &&& final(self).pos_table.spec_occupied_count() == 0
            },
            !sharing(final(self).extern_flags) ==> final(self).pos_table == old(self).pos_table,
            final(self).extern_flags == old(self).extern_flags,
            final(self).obj_counter == old(self).obj_counter,
            final(self).size_32 == old(self).size_32,
            final(self).size_64 == old(self).size_64,
            final(self).stack@ == old(self).stack@,
            final(self).output@ == old(self).output@,
    {
        if self.extern_flags & NO_SHARING != 0 {
            return;
        }
        self.pos_table = PositionTable::init_position_table();
    }

    /// Hands over the output buffer.
    fn take_output(&mut self) -> (out: Vec<u8>)
        ensures
            out@ == old(self).output@,
    {
        let mut out = Vec::new();
        std::mem::swap(&mut out, &mut self.output);
        out
    }

    /// Number of bytes written so far.
    fn output_length(&self) -> (n: u64)
        ensures
            n == self.output@.len(),
    {
        self.output.len() as u64
    }

    /// Writes one byte.
    fn write(&mut self, c: u8)
        ensures
            final(self).output@ == old(self).output@.push(c),
            final(self).same_but_output(old(self)),
    {
        self.output.push(c);
    }

    /// Writes bytes.
    fn writeblock(&mut self, data: &[u8])
        ensures
            final(self).output@ == old(self).output@ + data@,
            final(self).same_but_output(old(self)),
    {
        let n = data.len();
        let mut i: usize = 0;
        while i < n
            invariant
                n == data@.len(),
                i <= n,
                self.output@ == old(self).output@ + data@.subrange(0, i as int),
                self.same_but_output(old(self)),
            decreases n - i,
        {
            self.output.push(data[i]);
            i += 1;
            assert(self.output@ =~= old(self).output@ + data@.subrange(0, i as int));
        }
        assert(data@.subrange(0, n as int) =~= data@);
    }

    /// Writes floats, each by its bytes in memory (in the byte order that
    /// `little` names).
    fn writeblock_float8(&mut self, data: &[u64], little: bool)
        ensures
            final(self).output@ == old(self).output@ + doubles_bytes(little, data@),
            final(self).same_but_output(old(self)),
    {
        let n = data.len();
        let mut i: usize = 0;
        while i < n
            invariant
                n == data@.len(),
                i <= n,
                self.output@ == old(self).output@ + doubles_bytes(little, data@.subrange(0, i as int)),
                self.same_but_output(old(self)),
            decreases n - i,
        {
            store_float(&mut self.output, little, data[i]);
            proof {
                assert(data@.subrange(0, i + 1).drop_last() =~= data@.subrange(0, i as int));
            }
            i += 1;
            assert(self.output@ =~= old(self).output@ + doubles_bytes(little, data@.subrange(0, i as int)));
        }
        assert(data@.subrange(0, n as int) =~= data@);
    }

    /// Marshals an integer.
    fn extern_int(&mut self, n: i64) -> (r: Result<(), MarshalError>)
        ensures
            match r {
                Ok(()) => !(compat_32(final(self).extern_flags) && !int_fits_32(n))
                    && final(self).output@ == old(self).output@ + int_encoding(n),
                Err(e) => e == MarshalError::IntegerTooLarge && compat_32(final(self).extern_flags)
                    && !int_fits_32(n),
            },
            final(self).same_but_output(old(self)),
    {
        if 0 <= n && n < 0x40 {
            self.write(PREFIX_SMALL_INT + n as u8);
        } else if -0x80 <= n && n < 0x80 {
            assert((n as u64) as u8 == n as u8) by (bit_vector);
            writecode8(&mut self.output, CODE_INT8, n as u64);
        } else if -0x8000 <= n && n < 0x8000 {
            writecode16(&mut self.output, CODE_INT16, n as u64);
        } else if !(-0x4000_0000 <= n && n < 0x4000_0000) {
            if self.extern_flags & COMPAT_32 != 0 {
                return Err(MarshalError::IntegerTooLarge);
            }
            writecode64(&mut self.output, CODE_INT64, n as u64);
        } else {
            writecode32(&mut self.output, CODE_INT32, n as u64);
        }
        assert(self.output@ =~= old(self).output@ + int_encoding(n));
        Ok(())
    }

    /// Marshals a reference to the block written `d` blocks ago.
    fn extern_shared_reference(&mut self, d: u64)
        ensures
            final(self).output@ == old(self).output@ + shared_encoding(d),
            final(self).same_but_output(old(self)),
    {
        if d < 0x100 {
            writecode8(&mut self.output, CODE_SHARED8, d);
        } else if d < 0x10000 {
            writecode16(&mut self.output, CODE_SHARED16, d);
        } else if d >= 0x1_0000_0000 {
            writecode64(&mut self.output, CODE_SHARED64, d);
        } else {
            writecode32(&mut self.output, CODE_SHARED32, d);
        }
        assert(self.output@ =~= old(self).output@ + shared_encoding(d));
    }

    /// Marshals a block header.
    fn extern_header(&mut self, sz: u64, tag: u8) -> (r: Result<(), MarshalError>)
        ensures
            match r {
                Ok(()) => !(compat_32(final(self).extern_flags) && !header_fits_32(sz, tag))
                    && final(self).output@ == old(self).output@ + header_encoding(sz, tag),
                Err(e) => e == MarshalError::ArrayTooLarge && compat_32(final(self).extern_flags)
                    && !header_fits_32(sz, tag),
            },
            final(self).same_but_output(old(self)),
    {
        if tag < 16 && sz < 8 {
            self.write(PREFIX_SMALL_BLOCK + tag + (sz as u8) * 16);
        } else {
            let hd = Make_header(sz, tag, 0);
            if sz > 0x3FFFFF && self.extern_flags & COMPAT_32 != 0 {
                return Err(MarshalError::ArrayTooLarge);
            }
            if hd < 0x1_0000_0000 {
                writecode32(&mut self.output, CODE_BLOCK32, hd);
            } else {
                writecode64(&mut self.output, CODE_BLOCK64, hd);
            }
        }
        assert(self.output@ =~= old(self).output@ + header_encoding(sz, tag));
        Ok(())
    }

    /// Marshals a string.
    fn extern_string(&mut self, bytes: &Vec<u8>) -> (r: Result<(), MarshalError>)
        ensures
            match r {
                Ok(()) => !(compat_32(final(self).extern_flags) && !string_fits_32(
                    bytes@.len() as u64,
                )) && final(self).output@ == old(self).output@ + string_encoding(bytes@),
                Err(e) => e == MarshalError::StringTooLarge && compat_32(final(self).extern_flags)
                    && !string_fits_32(bytes@.len() as u64),
            },
            final(self).same_but_output(old(self)),
    {
        let len = bytes.len() as u64;
        if len < 0x20 {
            self.write(PREFIX_SMALL_STRING + len as u8);
        } else if len < 0x100 {
            writecode8(&mut self.output, CODE_STRING8, len);
        } else {
            if len > 0xFFFFFB && self.extern_flags & COMPAT_32 != 0 {
                return Err(MarshalError::StringTooLarge);
            }
            if len < 0x1_0000_0000 {
                writecode32(&mut self.output, CODE_STRING32, len);
            } else {
                writecode64(&mut self.output, CODE_STRING64, len);
            }
        }
        assert(self.output@ =~= old(self).output@ + string_header(len));
        self.writeblock(bytes.as_slice());
        assert(self.output@ =~= old(self).output@ + string_encoding(bytes@));
        Ok(())
    }

    /// Marshals a float, given by its bits, in the byte order that `little`
    /// names.
    fn extern_double(&mut self, bits: u64, little: bool)
        ensures
            final(self).output@ == old(self).output@ + double_encoding(little, bits),
            final(self).same_but_output(old(self)),
    {
        self.write(if little { CODE_DOUBLE_LITTLE } else { CODE_DOUBLE_BIG });
        store_float(&mut self.output, little, bits);
        assert(self.output@ =~= old(self).output@ + double_encoding(little, bits));
    }

    /// Marshals a float array, each float given by its bits, in the byte
    /// order that `little` names.
    fn extern_double_array(&mut self, ds: &Vec<u64>, little: bool) -> (r: Result<(), MarshalError>)
        ensures
            match r {
                Ok(()) => !(compat_32(final(self).extern_flags) && !double_array_fits_32(
                    ds@.len() as u64,
                )) && final(self).output@ == old(self).output@ + double_array_encoding(little, ds@),
                Err(e) => e == MarshalError::FloatArrayTooLarge && compat_32(
                    final(self).extern_flags,
                ) && !double_array_fits_32(ds@.len() as u64),
            },
            final(self).same_but_output(old(self)),
    {
        let nfloats = ds.len() as u64;
        if nfloats < 0x100 {
            writecode8(&mut self.output, if little { CODE_DOUBLE_ARRAY8_LITTLE } else { CODE_DOUBLE_ARRAY8_BIG }, nfloats);
        } else {
            if nfloats > 0x1FFFFF && self.extern_flags & COMPAT_32 != 0 {
                return Err(MarshalError::FloatArrayTooLarge);
            }
            if nfloats < 0x1_0000_0000 {
                writecode32(&mut self.output, if little { CODE_DOUBLE_ARRAY32_LITTLE } else { CODE_DOUBLE_ARRAY32_BIG }, nfloats);
            } else {
                writecode64(&mut self.output, if little { CODE_DOUBLE_ARRAY64_LITTLE } else { CODE_DOUBLE_ARRAY64_BIG }, nfloats);
            }
        }
        assert(self.output@ =~= old(self).output@ + double_array_header(little, nfloats));
        self.writeblock_float8(ds.as_slice(), little);
        assert(self.output@ =~= old(self).output@ + double_array_encoding(little, ds@));
        Ok(())
    }

    /// With sharing, records that block `obj` was written at the current
    /// position, in the free slot `h` found by the lookup; grows the table
    /// when it reaches its threshold.
    fn record_location(&mut self, obj: usize, h: u64)
        requires
            sharing(old(self).extern_flags) ==> {
                &&& old(self).pos_table.wf()
                &&& old(self).pos_table.vacant_for(obj, h)
                &&& old(self).obj_counter >= old(self).pos_table@.len()
                &&& old(self).obj_counter + 1 <= usize::MAX / 64
            },
        ensures
            final(self).machine(None) == record(old(self).extern_flags, old(self).machine(None), obj),
            final(self).extern_flags == old(self).extern_flags,
            sharing(final(self).extern_flags) ==> final(self).pos_table.wf(),
    {
        if self.extern_flags & NO_SHARING != 0 {
            return;
        }
        proof {
            self.pos_table.lemma_threshold_below_size();
        }
        self.pos_table.set_at(obj, h, self.obj_counter);
        self.obj_counter = self.obj_counter + 1;
        if self.obj_counter >= self.pos_table.threshold() {
            proof {
                self.pos_table.lemma_size_bound();
            }
            self.pos_table.resize_position_table();
        }
        assert(self.machine(None) =~= record(old(self).extern_flags, old(self).machine(None), obj));
    }

    /// Takes the next pending field off the stack, if any.
    fn next_item(&mut self, heap: &Heap) -> (r: Option<Value>)
        requires
            forall|t: int|
                0 <= t < old(self).stack@.len() ==> item_ok(*heap, #[trigger] old(self).stack@[t]),
        ensures
            final(self).machine(r) == next_item(*heap, old(self).machine(None)),
            final(self).extern_flags == old(self).extern_flags,
            final(self).pos_table == old(self).pos_table,
    {
        let len = self.stack.len();
        if len == 0 {
            return None;
        }
        let item = self.stack[len - 1];
        proof {
            assert(item_ok(*heap, self.stack@[len - 1]));
            let fsv = heap.blocks@[item.block as int].contents->Fields_0;
            assert(fsv.len() as int == fsv@.len());
        }
        let v = heap.Field(item.block, item.next);
        if item.count == 1 {
            let _ = self.stack.pop();
            assert(self.stack@ =~= old(self).stack@.drop_last());
        } else {
            self.stack.set(
                len - 1,
                ExternItem { block: item.block, next: item.next + 1, count: item.count - 1 },
            );
        }
        Some(v)
    }

    /// One turn of the walk on block `i`: the value to marshal next, or
    /// `None` to take the next pending field.
    #[verifier::rlimit(40)]
    fn extern_block(&mut self, heap: &Heap, i: usize) -> (r: Result<Option<Value>, MarshalError>)
        requires
            inv(*heap, old(self).extern_flags, old(self).machine(Some(Value::Block(i)))),
            sharing(old(self).extern_flags) ==> old(self).pos_table.wf(),
        ensures
            final(self).extern_flags == old(self).extern_flags,
            sharing(final(self).extern_flags) ==> final(self).pos_table.wf(),
            match r {
                Err(e) => step_block(
                    *heap,
                    old(self).extern_flags,
                    old(self).machine(Some(Value::Block(i))),
                    i,
                ).error == Some(e),
                Ok(Some(w)) => final(self).machine(Some(w)) == step_block(
                    *heap,
                    old(self).extern_flags,
                    old(self).machine(Some(Value::Block(i))),
                    i,
                ),
                Ok(None) => next_item(*heap, final(self).machine(None)) == step_block(
                    *heap,
                    old(self).extern_flags,
                    old(self).machine(Some(Value::Block(i))),
                    i,
                ) && inv(*heap, final(self).extern_flags, final(self).machine(None)),
            },
    {
        let ghost flags = self.extern_flags;
        let ghost m0 = self.machine(Some(Value::Block(i)));
        let ghost mn = self.machine(None);
        let b = &heap.blocks[i];
        proof {
            assert(heap.block_wf(*b));
            lemma_machine_cur(m0, mn);
        }
        let sz = b.wosize();
        if b.tag == FORWARD_TAG {
            if heap.is_forward_skipped(b) {
                return Ok(Some(heap.Field(i, 0)));
            }
        }
        if sz == 0 {
            match self.extern_header(0, b.tag) {
                Err(e) => {
                    return Err(e);
                },
                Ok(()) => {},
            }
            proof {
                lemma_emit_grow(*heap, flags, mn, header_encoding(0, b.tag), 0, 0);
                assert(self.machine(None) =~= emit(mn, header_encoding(0, b.tag)));
            }
            return Ok(None);
        }
        let mut h: u64 = 0;
        if self.extern_flags & NO_SHARING == 0 {
            match self.pos_table.lookup_position(i) {
                Lookup::Found(pos) => {
                    self.extern_shared_reference(self.obj_counter.wrapping_sub(pos));
                    proof {
                        let bytes = shared_encoding(u64_specs::wrapping_sub(mn.obj_counter, mn.table[i]));
                        lemma_emit_grow(*heap, flags, mn, bytes, 0, 0);
                        assert(self.machine(None) =~= emit(mn, bytes));
                    }
                    return Ok(None);
                },
                Lookup::Vacant(slot) => {
                    h = slot;
                },
            }
        }
        proof {
            if sharing(flags) {
                lemma_unwritten(*heap, flags, mn, i);
            }
        }
        match &b.contents {
            Contents::Bytes(bytes) => {
                let len = bytes.len() as u64;
                match self.extern_string(bytes) {
                    Err(e) => {
                        return Err(e);
                    },
                    Ok(()) => {},
                }
                self.size_32 = self.size_32.wrapping_add(1u64.wrapping_add(len.wrapping_add(4) / 4));
                self.size_64 = self.size_64.wrapping_add(1u64.wrapping_add(len.wrapping_add(8) / 8));
                let ghost m1 = grow(emit(mn, string_encoding(bytes@)), string_words_32(len), string_words_64(len));
                proof {
                    assert(self.machine(None) =~= m1);
                    lemma_emit_grow(*heap, flags, mn, string_encoding(bytes@), string_words_32(len), string_words_64(len));
                    lemma_record(*heap, flags, m1, i);
                }
                self.record_location(i, h);
                Ok(None)
            },
            Contents::Double(bits) => {
                self.extern_double(*bits, heap.little_endian);
                self.size_32 = self.size_32.wrapping_add(1 + 2);
                self.size_64 = self.size_64.wrapping_add(1 + 1);
                let ghost m1 = grow(emit(mn, double_encoding(heap.little_endian, *bits)), 3, 2);
                proof {
                    assert(self.machine(None) =~= m1);
                    lemma_emit_grow(*heap, flags, mn, double_encoding(heap.little_endian, *bits), 3, 2);
                    lemma_record(*heap, flags, m1, i);
                }
                self.record_location(i, h);
                Ok(None)
            },
            Contents::Doubles(ds) => {
                match self.extern_double_array(ds, heap.little_endian) {
                    Err(e) => {
                        return Err(e);
                    },
                    Ok(()) => {},
                }
                let nfloats = ds.len() as u64;
                self.size_32 = self.size_32.wrapping_add(1u64.wrapping_add(nfloats.wrapping_mul(2)));
                self.size_64 = self.size_64.wrapping_add(1u64.wrapping_add(nfloats));
                let ghost m1 = grow(
                    emit(mn, double_array_encoding(heap.little_endian, ds@)),
                    u64_specs::wrapping_add(1, u64_specs::wrapping_mul(nfloats, 2)),
                    u64_specs::wrapping_add(1, nfloats),
                );
                proof {
                    assert(self.machine(None) =~= m1);
                    lemma_emit_grow(*heap, flags, mn, double_array_encoding(heap.little_endian, ds@),
                        u64_specs::wrapping_add(1, u64_specs::wrapping_mul(nfloats, 2)),
                        u64_specs::wrapping_add(1, nfloats));
                    lemma_record(*heap, flags, m1, i);
                }
                self.record_location(i, h);
                Ok(None)
            },
            Contents::Opaque { .. } => {
                if b.tag == ABSTRACT_TAG {
                    Err(MarshalError::AbstractValue)
                } else {
                    Err(MarshalError::CustomBlock)
                }
            },
            Contents::Infix { offset, enclosing } => {
                writecode32(&mut self.output, CODE_INFIXPOINTER, offset.wrapping_mul(8));
                assert(self.machine(Some(Value::Block(*enclosing))) =~= Machine {
                    cur: Some(Value::Block(*enclosing)),
                    ..emit(m0, seq![CODE_INFIXPOINTER] + be32(u64_specs::wrapping_mul(*offset, 8)))
                });
                Ok(Some(Value::Block(*enclosing)))
            },
            Contents::Fields(fs) => {
                if b.tag == CLOSURE_TAG {
                    return Err(MarshalError::Closure);
                }
                match self.extern_header(sz, b.tag) {
                    Err(e) => {
                        return Err(e);
                    },
                    Ok(()) => {},
                }
                let words = 1u64.wrapping_add(sz);
                self.size_32 = self.size_32.wrapping_add(words);
                self.size_64 = self.size_64.wrapping_add(words);
                let ghost m1 = grow(emit(mn, header_encoding(sz, b.tag)), words, words);
                proof {
                    assert(self.machine(None) =~= m1);
                    lemma_emit_grow(*heap, flags, mn, header_encoding(sz, b.tag), words, words);
                    lemma_record(*heap, flags, m1, i);
                }
                self.record_location(i, h);
                let ghost m2 = self.machine(None);
                if sz > 1 {
                    if self.stack.len() + 1 >= EXTERN_STACK_MAX_SIZE {
                        return Err(MarshalError::StackOverflow);
                    }
                    self.stack.push(ExternItem { block: i, next: 1, count: sz - 1 });
                    assert(self.stack@ =~= m2.stack.push(ExternItem { block: i, next: 1, count: (sz - 1) as u64 }));
                }
                Ok(Some(fs[0]))
            },
        }
    }

    /// Marshals `v0` into the output buffer.
    fn extern_rec(&mut self, heap: &Heap, v0: Value) -> (r: Result<(), MarshalError>)
        requires
            old(self).stack@.len() == 0,
            inv(*heap, old(self).extern_flags, old(self).walk_start(v0)),
        ensures
            final(self).extern_flags == old(self).extern_flags,
            exists|k: nat|
                {
                    let m = #[trigger] steps(*heap, old(self).extern_flags, old(self).walk_start(v0), k);
                    &&& halted(m)
                    &&& sharing(old(self).extern_flags) ==> m.obj_counter - m.table.len() == old(self).obj_counter
                    &&& !sharing(old(self).extern_flags) ==> m.obj_counter == old(self).obj_counter
                        && m.table == old(self).pos_table@
                    &&& match r {
                        Ok(()) => m.error is None && final(self).machine(None) == m,
                        Err(e) => m.error == Some(e),
                    }
                },
    {
        let ghost flags = self.extern_flags;
        self.init_position_table();
        let mut v = v0;
        let ghost mut k: nat = 0;
        proof {
            assert(self.machine(Some(v0)) =~= old(self).walk_start(v0));
        }
        loop
            invariant
                self.extern_flags == flags,
                flags == old(self).extern_flags,
                inv(*heap, flags, self.machine(Some(v))),
                inv(*heap, flags, old(self).walk_start(v0)),
                sharing(flags) ==> self.pos_table.wf(),
                self.machine(Some(v)) == steps(*heap, flags, old(self).walk_start(v0), k),
            decreases
                measure_blocks(*heap, flags, self.machine(Some(v))),
                measure_work(*heap, flags, self.machine(Some(v))),
                rank(*heap, self.machine(Some(v))),
        {
            let ghost m0 = self.machine(Some(v));
            proof {
                lemma_step(*heap, flags, m0);
                lemma_steps_succ(*heap, flags, old(self).walk_start(v0), k);
            }
            let r = match v {
                Value::Int(n) => match self.extern_int(n) {
                    Ok(()) => {
                        proof {
                            lemma_emit_grow(*heap, flags, self.machine(None), Seq::empty(), 0, 0);
                            assert(self.machine(None) =~= Machine { cur: None, ..emit(m0, int_encoding(n)) });
                        }
                        Ok(None)
                    },
                    Err(e) => Err(e),
                },
                Value::Block(i) => self.extern_block(heap, i),
            };
            match r {
                Err(e) => {
                    proof {
                        assert(halted(steps(*heap, flags, old(self).walk_start(v0), k + 1)));
                        lemma_steps_counts(*heap, flags, old(self).walk_start(v0), k + 1);
                    }
                    return Err(e);
                },
                Ok(Some(w)) => {
                    v = w;
                },
                Ok(None) => {
                    match self.next_item(heap) {
                        None => {
                            proof {
                                assert(halted(steps(*heap, flags, old(self).walk_start(v0), k + 1)));
                                lemma_steps_counts(*heap, flags, old(self).walk_start(v0), k + 1);
                            }
                            return Ok(());
                        },
                        Some(w) => {
                            v = w;
                        },
                    }
                },
            }
            proof {
                k = k + 1;
            }
        }
    }

    /// Marshals `v` with the given flags: the body goes to the output buffer,
    /// the returned bytes are the header. The walk starts with the counters
    /// at zero and, when sharing, an empty table.
    fn extern_value(&mut self, heap: &Heap, v: Value, flag_list: &Vec<usize>) -> (r: Result<
        Vec<u8>,
        MarshalError,
    >)
        requires
            old(self).stack@.len() == 0,
            marshalable(*heap, v, flag_list@),
        ensures
            final(self).flags() == extern_flags_of(flag_list@),
            exists|k: nat|
                {
                    let m = #[trigger] steps(
                        *heap,
                        extern_flags_of(flag_list@),
                        old(self).value_start(extern_flags_of(flag_list@), v),
                        k,
                    );
                    &&& halted(m)
                    &&& match r {
                        Ok(header) => {
                            &&& header@ == header_of(m)
                            &&& final(self).machine(None) == m
                            &&& final(self).output@ == m.output
                            &&& outcome(extern_flags_of(flag_list@), m) == Ok::<Seq<u8>, MarshalError>(header@ + final(self).output@)
                        },
                        Err(e) => outcome(extern_flags_of(flag_list@), m) == Err::<Seq<u8>, MarshalError>(e),
                    }
                },
    {
        // Parse the flag list.
        self.extern_flags = convert_flag_list(flag_list.as_slice(), &[NO_SHARING, CLOSURES, COMPAT_32]);
        proof {
            assert(seq![NO_SHARING, CLOSURES, COMPAT_32] =~= [NO_SHARING, CLOSURES, COMPAT_32]@);
        }
        let ghost flags = self.extern_flags;
        self.obj_counter = 0;
        self.size_32 = 0;
        self.size_64 = 0;
        proof {
            assert(self.walk_start(v) =~= old(self).value_start(flags, v));
        }
        // Marshal the object.
        match self.extern_rec(heap, v) {
            Err(e) => {
                return Err(e);
            },
            Ok(()) => {},
        }
        let ghost m = self.machine(None);
        // Write the header.
        let res_len = self.output_length();
        let mut header: Vec<u8> = Vec::new();
        if res_len >= 0x1_0000_0000 || self.size_32 >= 0x1_0000_0000 || self.size_64 >= 0x1_0000_0000 {
            // The object is too big for the small header format.
            // Fail if we are in compat32 mode, or use big header.
            if self.extern_flags & COMPAT_32 != 0 {
                return Err(MarshalError::ObjectTooBig);
            }
            store32(&mut header, MAGIC_NUMBER_BIG as u64);
            store32(&mut header, 0);
            store64(&mut header, res_len);
            store64(&mut header, self.obj_counter);
            store64(&mut header, self.size_64);
            assert(header@ =~= header_of(m));
            return Ok(header);
        }
        // Use the small header format.
        store32(&mut header, MAGIC_NUMBER_SMALL as u64);
        store32(&mut header, res_len);
        store32(&mut header, self.obj_counter);
        store32(&mut header, self.size_32);
        store32(&mut header, self.size_64);
        assert(header@ =~= header_of(m));
        Ok(header)
    }
}

} // verus!

verus! {

/// The OR of the flags that the list names, by their index in `flags`.
pub open spec fn flags_of(list: Seq<usize>, flags: Seq<i32>) -> i32
    decreases list.len(),
{
    if list.len() == 0 {
        0
    } else {
        flags_of(list.drop_last(), flags) | flags[list.last() as int]
    }
}

/// The marshaling flags that a list of `Marshal.extern_flags` constructors
/// (`No_sharing`, `Closures`, `Compat_32`, by index) selects.
pub open spec fn extern_flags_of(list: Seq<usize>) -> i32 {
    flags_of(list, seq![NO_SHARING, CLOSURES, COMPAT_32])
}

/// The flag word with `NO_SHARING` (1) when `no_sharing`, `CLOSURES` (2) when
/// `closures` and `COMPAT_32` (4) when `compat`.
pub open spec fn flag_word(no_sharing: bool, closures: bool, compat: bool) -> i32 {
    (if no_sharing { 1i32 } else { 0i32 }) | (if closures { 2i32 } else { 0i32 }) | (if compat {
        4i32
    } else {
        0i32
    })
}

/// Each index of a `Marshal.extern_flags` list selects its own flag: index 0
/// `No_sharing`, 1 `Closures`, 2 `Compat_32`, and nothing else. So the walk
/// shares blocks exactly when `No_sharing` is absent, and refuses what a
/// 32-bit OCaml cannot read exactly when `Compat_32` is present.
pub proof fn law_extern_flags_select(list: Seq<usize>)
    requires
        forall|j: int| 0 <= j < list.len() ==> #[trigger] list[j] < 3,
    ensures
        extern_flags_of(list) == flag_word(list.contains(0), list.contains(1), list.contains(2)),
        sharing(extern_flags_of(list)) <==> !list.contains(0),
        compat_32(extern_flags_of(list)) <==> list.contains(2),
        (extern_flags_of(list) & CLOSURES != 0) <==> list.contains(1),
    decreases list.len(),
{
    let (a, b, c) = (list.contains(0), list.contains(1), list.contains(2));
    if list.len() == 0 {
        assert(!a && !b && !c);
        assert(flag_word(false, false, false) == 0i32) by (bit_vector);
    } else {
        let init = list.drop_last();
        let x = list.last();
        assert forall|j: int| 0 <= j < init.len() implies #[trigger] init[j] < 3 by {
            assert(init[j] == list[j]);
        }
        law_extern_flags_select(init);
        let (a0, b0, c0) = (init.contains(0), init.contains(1), init.contains(2));
        assert forall|y: usize| list.contains(y) <==> (init.contains(y) || x == y) by {
            if list.contains(y) {
                let j = choose|j: int| 0 <= j < list.len() && list[j] == y;
                if j < init.len() {
                    assert(init[j] == y);
                }
            }
            if init.contains(y) {
                let j = choose|j: int| 0 <= j < init.len() && init[j] == y;
                assert(list[j] == y);
            }
            if x == y {
                assert(list[list.len() - 1] == y);
            }
        }
        assert(list.len() - 1 < list.len());
        assert(x < 3);
        let w0 = flag_word(a0, b0, c0);
        assert(extern_flags_of(list) == w0 | seq![NO_SHARING, CLOSURES, COMPAT_32][x as int]);
        if x == 0 {
            assert(w0 | 1i32 == flag_word(true, b0, c0)) by (bit_vector)
                requires
                    w0 == flag_word(a0, b0, c0),
            ;
        } else if x == 1 {
            assert(w0 | 2i32 == flag_word(a0, true, c0)) by (bit_vector)
                requires
                    w0 == flag_word(a0, b0, c0),
            ;
        } else {
            assert(w0 | 4i32 == flag_word(a0, b0, true)) by (bit_vector)
                requires
                    w0 == flag_word(a0, b0, c0),
            ;
        }
    }
    let w = flag_word(a, b, c);
    assert((w & 1i32 == 0i32) == !a && (w & 4i32 != 0i32) == c && (w & 2i32 != 0i32) == b)
        by (bit_vector)
        requires
            w == flag_word(a, b, c),
    ;
}

/// The OR of the flags that `list` names by index.
pub fn convert_flag_list(list: &[usize], flags: &[i32]) -> (res: i32)
    requires
        forall|j: int| 0 <= j < list@.len() ==> #[trigger] list@[j] < flags@.len(),
    ensures
        res == flags_of(list@, flags@),
{
    let mut res: i32 = 0;
    let n = list.len();
    let mut j: usize = 0;
    while j < n
        invariant
            n == list@.len(),
            j <= n,
            forall|j2: int| 0 <= j2 < list@.len() ==> #[trigger] list@[j2] < flags@.len(),
            res == flags_of(list@.subrange(0, j as int), flags@),
        decreases n - j,
    {
        let idx = list[j];
        res = res | flags[idx];
        proof {
            assert(list@.subrange(0, j + 1).drop_last() =~= list@.subrange(0, j as int));
        }
        j += 1;
    }
    assert(list@.subrange(0, n as int) =~= list@);
    res
}

/// Marshaling `v` under `flags` gives `result`: the walk from `v` halts, and
/// `result` is its outcome.
pub open spec fn marshals_to(
    heap: Heap,
    v: Value,
    flags: i32,
    result: Result<Seq<u8>, MarshalError>,
) -> bool {
    exists|k: nat|
        {
            let m = #[trigger] steps(heap, flags, initial(v), k);
            &&& halted(m)
            &&& outcome(flags, m) == result
        }
}

/// What `output_val` needs of its input: a well-formed heap (without cycles
/// when sharing is off), a value in it, and flags that name known flags.
/// Without sharing, every block must point only to earlier blocks; for a heap
/// whose blocks are those `v` reaches, numbered in depth-first finishing
/// order, that is exactly that `v` reaches no cycle.
pub open spec fn marshalable(heap: Heap, v: Value, flag_list: Seq<usize>) -> bool {
    &&& heap.wf()
    &&& heap.valid_value(v)
    &&& heap.blocks@.len() <= usize::MAX / 64
    &&& forall|j: int| 0 <= j < flag_list.len() ==> #[trigger] flag_list[j] < 3
    &&& !sharing(extern_flags_of(flag_list)) ==> heap.children_precede_parents()
}

/// Marshals `v`: the header, then the bytes of the value, in the format of
/// OCaml's `output_value`, or why `v` cannot be marshaled.
pub fn output_val(heap: &Heap, v: Value, flag_list: &Vec<usize>) -> (r: Result<Vec<u8>, MarshalError>)
    requires
        marshalable(*heap, v, flag_list@),
    ensures
        marshals_to(
            *heap,
            v,
            extern_flags_of(flag_list@),
            match r {
                Ok(bytes) => Ok(bytes@),
                Err(e) => Err(e),
            },
        ),
{
    let mut s = State::new();
    s.init_output();
    proof {
        assert(s.value_start(extern_flags_of(flag_list@), v) =~= initial(v));
    }
    let r = s.extern_value(heap, v, flag_list);
    match r {
        Ok(header) => {
            let mut out = header;
            let mut body = s.take_output();
            out.append(&mut body);
            Ok(out)
        },
        Err(e) => Err(e),
    }
}

} // verus!
