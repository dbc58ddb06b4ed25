//! Why the marshaling walk ends: an invariant of its states, and a measure
//! that every turn decreases.
//!
//! With sharing, each turn either writes a block not written before (fewer
//! blocks remain unwritten), or takes a pending field off the stack (fewer
//! fields remain pending), or skips a forward block or an infix pointer (a
//! bounded number of times in a row). Without sharing the heap has no cycle,
//! and each turn decreases the total size of the trees still to be written.

use vstd::prelude::*;
use vstd::set_lib::lemma_len_subset;
use crate::heap::{children, Block, Contents, Heap, Value};
use vstd::wrapping::u64_specs;
use crate::heap::spec_wosize;
use crate::intext::CLOSURE_TAG;
use crate::machine::{
    emit, fields, grow, halted, next_item, record, sharing, step, step_block, ExternItem, Machine,
    EXTERN_STACK_MAX_SIZE,
};

verus! {

/// A pending item names fields of a structured block of the heap.
pub open spec fn item_ok(h: Heap, it: ExternItem) -> bool {
    &&& it.block < h.blocks@.len()
    &&& h.blocks@[it.block as int].contents is Fields
    &&& 1 <= it.next
    &&& 1 <= it.count
    &&& it.next + it.count <= fields(h.blocks@[it.block as int]).len()
}

/// What holds of every state of the walk.
pub open spec fn inv(h: Heap, flags: i32, m: Machine) -> bool {
    &&& h.wf()
    &&& h.blocks@.len() <= usize::MAX / 64
    &&& match m.cur {
        Some(v) => h.valid_value(v),
        None => true,
    }
    &&& forall|t: int| 0 <= t < m.stack.len() ==> item_ok(h, #[trigger] m.stack[t])
    &&& m.stack.len() < EXTERN_STACK_MAX_SIZE
    &&& if sharing(flags) {
        &&& m.table.dom().finite()
        &&& forall|k: usize| #[trigger] m.table.contains_key(k) ==> k < h.blocks@.len()
        &&& m.obj_counter >= m.table.len()
        &&& m.obj_counter + h.blocks@.len() - m.table.len() <= usize::MAX / 64
    } else {
        h.children_precede_parents()
    }
}

/// Number of fields still pending on the stack.
pub open spec fn pending(stack: Seq<ExternItem>) -> nat
    decreases stack.len(),
{
    if stack.len() == 0 {
        0
    } else {
        pending(stack.drop_last()) + stack.last().count as nat
    }
}

/// Size of the tree of block `i` (blocks of larger index count as leaves).
pub open spec fn block_weight(blocks: Seq<Block>, i: int) -> nat
    decreases i, 1int, 0int,
{
    if 0 <= i < blocks.len() {
        1 + range_weight(blocks, i, 0, children(blocks[i]).len() as int)
    } else {
        1
    }
}

/// Size of the trees of children `lo .. hi` of block `i`.
pub open spec fn range_weight(blocks: Seq<Block>, i: int, lo: int, hi: int) -> nat
    decreases i, 0int, hi - lo,
{
    if 0 <= i < blocks.len() && 0 <= lo < hi && hi <= children(blocks[i]).len() {
        range_weight(blocks, i, lo, hi - 1) + match children(blocks[i])[hi - 1] {
            Value::Int(_) => 1,
            Value::Block(c) => if c < i {
                block_weight(blocks, c as int)
            } else {
                1
            },
        }
    } else {
        0
    }
}

/// Size of the tree of a value.
pub open spec fn value_weight(blocks: Seq<Block>, v: Value) -> nat {
    match v {
        Value::Int(_) => 1,
        Value::Block(c) => block_weight(blocks, c as int),
    }
}

/// Size of the trees still pending on the stack.
pub open spec fn stack_weight(blocks: Seq<Block>, stack: Seq<ExternItem>) -> nat
    decreases stack.len(),
{
    if stack.len() == 0 {
        0
    } else {
        let it = stack.last();
        stack_weight(blocks, stack.drop_last()) + range_weight(
            blocks,
            it.block as int,
            it.next as int,
            it.next + it.count,
        )
    }
}

/// Forward blocks to skip come first, then infix pointers, then the rest.
pub open spec fn rank(h: Heap, m: Machine) -> nat {
    match m.cur {
        Some(Value::Block(i)) => {
            if h.forward_skipped(h.blocks@[i as int]) {
                2
            } else if h.blocks@[i as int].contents is Infix {
                1
            } else {
                0
            }
        },
        _ => 0,
    }
}

/// First component of the measure: blocks not yet written (with sharing).
pub open spec fn measure_blocks(h: Heap, flags: i32, m: Machine) -> nat {
    if sharing(flags) {
        (h.blocks@.len() - m.table.len()) as nat
    } else {
        0
    }
}

/// Second component: fields pending (with sharing) or size of the trees still
/// to write (without).
pub open spec fn measure_work(h: Heap, flags: i32, m: Machine) -> nat {
    if sharing(flags) {
        pending(m.stack)
    } else {
        let w = match m.cur {
            Some(v) => value_weight(h.blocks@, v),
            None => 0,
        };
        w + stack_weight(h.blocks@, m.stack)
    }
}

/// The measure of `m2` is below that of `m1`, lexicographically.
pub open spec fn measure_lt(h: Heap, flags: i32, m2: Machine, m1: Machine) -> bool {
    let (a1, b1, c1) = (measure_blocks(h, flags, m1), measure_work(h, flags, m1), rank(h, m1));
    let (a2, b2, c2) = (measure_blocks(h, flags, m2), measure_work(h, flags, m2), rank(h, m2));
    a2 < a1 || (a2 == a1 && (b2 < b1 || (b2 == b1 && c2 < c1)))
}

/// The blocks below `n`, as a set of indices, has `n` elements.
proof fn lemma_index_set(n: usize)
    ensures
        Set::new(|k: usize| k < n).finite(),
        Set::new(|k: usize| k < n).len() == n,
    decreases n,
{
    if n == 0 {
        assert(Set::new(|k: usize| k < n) =~= Set::<usize>::empty());
    } else {
        lemma_index_set((n - 1) as usize);
        assert(Set::new(|k: usize| k < n) =~= Set::new(|k: usize| k < (n - 1) as usize).insert(
            (n - 1) as usize,
        ));
    }
}

/// With sharing, a block not yet written leaves at least one block unwritten.
pub proof fn lemma_unwritten(h: Heap, flags: i32, m: Machine, i: usize)
    requires
        inv(h, flags, m),
        sharing(flags),
        i < h.blocks@.len(),
        !m.table.contains_key(i),
    ensures
        m.table.len() + 1 <= h.blocks@.len(),
        m.table.insert(i, m.obj_counter).len() == m.table.len() + 1,
        m.table.insert(i, m.obj_counter).dom().finite(),
{
    let n = h.blocks@.len() as usize;
    lemma_index_set(n);
    let d = m.table.dom().insert(i);
    assert(d.subset_of(Set::new(|k: usize| k < n)));
    lemma_len_subset(d, Set::new(|k: usize| k < n));
    assert(m.table.insert(i, m.obj_counter).dom() =~= d);
}

/// Children `lo .. hi` of a block: the first one, then the others.
proof fn lemma_range_front(blocks: Seq<Block>, i: int, lo: int, hi: int)
    requires
        0 <= i < blocks.len(),
        0 <= lo < hi <= children(blocks[i]).len(),
    ensures
        range_weight(blocks, i, lo, hi) == range_weight(blocks, i, lo, lo + 1) + range_weight(
            blocks,
            i,
            lo + 1,
            hi,
        ),
    decreases hi - lo,
{
    if hi > lo + 1 {
        lemma_range_front(blocks, i, lo, hi - 1);
    }
}

/// Without cycles, a child counts as much as the tree it points to.
proof fn lemma_range_one(h: Heap, i: int, j: int)
    requires
        h.children_precede_parents(),
        0 <= i < h.blocks@.len(),
        0 <= j < children(h.blocks@[i]).len(),
    ensures
        range_weight(h.blocks@, i, j, j + 1) == value_weight(h.blocks@, children(h.blocks@[i])[j]),
{
    assert(range_weight(h.blocks@, i, j, j) == 0);
    let c = children(h.blocks@[i])[j];
    match c {
        Value::Block(b) => {
            assert(b < i);
        },
        Value::Int(_) => {},
    }
}

/// The pending sum after taking the last item off or shortening it.
proof fn lemma_pending_last(stack: Seq<ExternItem>, it: ExternItem)
    requires
        stack.len() > 0,
    ensures
        pending(stack.update(stack.len() - 1, it)) == pending(stack.drop_last()) + it.count,
        pending(stack) == pending(stack.drop_last()) + stack.last().count,
{
    assert(stack.update(stack.len() - 1, it).drop_last() =~= stack.drop_last());
}

proof fn lemma_stack_weight_last(blocks: Seq<Block>, stack: Seq<ExternItem>, it: ExternItem)
    requires
        stack.len() > 0,
    ensures
        stack_weight(blocks, stack.update(stack.len() - 1, it)) == stack_weight(
            blocks,
            stack.drop_last(),
        ) + range_weight(blocks, it.block as int, it.next as int, it.next + it.count),
{
    assert(stack.update(stack.len() - 1, it).drop_last() =~= stack.drop_last());
}

proof fn lemma_stack_push(blocks: Seq<Block>, stack: Seq<ExternItem>, it: ExternItem)
    ensures
        stack_weight(blocks, stack.push(it)) == stack_weight(blocks, stack) + range_weight(
            blocks,
            it.block as int,
            it.next as int,
            it.next + it.count,
        ),
        pending(stack.push(it)) == pending(stack) + it.count,
{
    assert(stack.push(it).drop_last() =~= stack);
}

/// Taking the next pending field: one field less pending, the same total size,
/// and the invariant kept.
pub proof fn lemma_next_item(h: Heap, flags: i32, m: Machine)
    requires
        inv(h, flags, m),
        m.stack.len() > 0,
    ensures
        inv(h, flags, next_item(h, m)),
        next_item(h, m).cur is Some,
        next_item(h, m).error == m.error,
        next_item(h, m).table == m.table,
        pending(next_item(h, m).stack) + 1 == pending(m.stack),
        !sharing(flags) ==> value_weight(h.blocks@, next_item(h, m).cur.unwrap()) + stack_weight(
            h.blocks@,
            next_item(h, m).stack,
        ) == stack_weight(h.blocks@, m.stack),
{
    let it = m.stack.last();
    let m2 = next_item(h, m);
    assert(item_ok(h, m.stack[m.stack.len() - 1]));
    let b = h.blocks@[it.block as int];
    let fs = fields(b);
    assert(h.block_wf(b));
    assert(b.contents->Fields_0.len() as int == fs.len());
    assert(h.valid_value(fs[it.next as int]));
    assert(stack_weight(h.blocks@, m.stack) == stack_weight(h.blocks@, m.stack.drop_last())
        + range_weight(h.blocks@, it.block as int, it.next as int, it.next + it.count));
    assert(children(b) == fs);
    let hi = it.next + it.count;
    if !sharing(flags) {
        lemma_range_front(h.blocks@, it.block as int, it.next as int, hi);
        lemma_range_one(h, it.block as int, it.next as int);
    }
    if it.count == 1 {
        lemma_pending_last(m.stack, it);
        assert forall|t: int| 0 <= t < m2.stack.len() implies item_ok(h, #[trigger] m2.stack[t]) by {
            assert(m2.stack[t] == m.stack[t]);
        }
        assert(range_weight(h.blocks@, it.block as int, it.next + 1, hi) == 0);
    } else {
        let it2 = ExternItem { block: it.block, next: (it.next + 1) as usize, count: (it.count - 1) as u64 };
        lemma_pending_last(m.stack, it2);
        lemma_stack_weight_last(h.blocks@, m.stack, it2);
        assert forall|t: int| 0 <= t < m2.stack.len() implies item_ok(h, #[trigger] m2.stack[t]) by {
            if t < m.stack.len() - 1 {
                assert(m2.stack[t] == m.stack[t]);
            }
        }
    }
}

/// Writing bytes and counting words keep the invariant.
pub proof fn lemma_emit_grow(h: Heap, flags: i32, m: Machine, bytes: Seq<u8>, a: u64, b: u64)
    requires
        inv(h, flags, m),
    ensures
        inv(h, flags, emit(m, bytes)),
        inv(h, flags, grow(emit(m, bytes), a, b)),
{
}

/// Recording block `i`, not yet written, keeps the invariant and (with
/// sharing) leaves one block fewer unwritten.
pub proof fn lemma_record(h: Heap, flags: i32, m: Machine, i: usize)
    requires
        inv(h, flags, m),
        i < h.blocks@.len(),
        sharing(flags) ==> !m.table.contains_key(i),
    ensures
        inv(h, flags, record(flags, m, i)),
        record(flags, m, i).stack == m.stack,
        record(flags, m, i).cur == m.cur,
        record(flags, m, i).error == m.error,
        sharing(flags) ==> measure_blocks(h, flags, record(flags, m, i)) + 1 == measure_blocks(
            h,
            flags,
            m,
        ),
        !sharing(flags) ==> record(flags, m, i) == m,
        sharing(flags) ==> record(flags, m, i).obj_counter == m.obj_counter + 1
            && record(flags, m, i).table.len() == m.table.len() + 1,
{
    if sharing(flags) {
        lemma_unwritten(h, flags, m, i);
        let m1 = record(flags, m, i);
        assert forall|k: usize| #[trigger] m1.table.contains_key(k) implies k < h.blocks@.len() by {
            if k != i {
                assert(m.table.contains_key(k));
            }
        }
    }
}

/// The turn that writes the current value and moves to the next pending field.
proof fn lemma_write_then_next(h: Heap, flags: i32, m: Machine, m1: Machine)
    requires
        inv(h, flags, m),
        !halted(m),
        inv(h, flags, m1),
        m1.stack == m.stack,
        m1.error is None,
        sharing(flags) ==> measure_blocks(h, flags, m1) <= measure_blocks(h, flags, m),
        !sharing(flags) ==> value_weight(h.blocks@, m.cur.unwrap()) >= 1,
    ensures
        inv(h, flags, next_item(h, m1)),
        !halted(next_item(h, m1)) ==> measure_lt(h, flags, next_item(h, m1), m),
{
    if m1.stack.len() > 0 {
        lemma_next_item(h, flags, m1);
        if sharing(flags) {
            assert(measure_blocks(h, flags, next_item(h, m1)) == measure_blocks(h, flags, m1));
        }
    }
}

/// Without cycles, the tree of a block is larger than that of its first child.
proof fn lemma_first_child(h: Heap, i: int)
    requires
        h.children_precede_parents(),
        0 <= i < h.blocks@.len(),
        children(h.blocks@[i]).len() >= 1,
    ensures
        block_weight(h.blocks@, i) == 1 + value_weight(h.blocks@, children(h.blocks@[i])[0])
            + range_weight(h.blocks@, i, 1, children(h.blocks@[i]).len() as int),
{
    lemma_range_front(h.blocks@, i, 0, children(h.blocks@[i]).len() as int);
    lemma_range_one(h, i, 0);
}

/// Every turn keeps the invariant, and every turn that does not halt
/// decreases the measure.
pub proof fn lemma_step(h: Heap, flags: i32, m: Machine)
    requires
        inv(h, flags, m),
        !halted(m),
    ensures
        inv(h, flags, step(h, flags, m)),
        !halted(step(h, flags, m)) ==> measure_lt(h, flags, step(h, flags, m), m),
        sharing(flags) ==> step(h, flags, m).obj_counter - step(h, flags, m).table.len() == m.obj_counter
            - m.table.len(),
        !sharing(flags) ==> step(h, flags, m).obj_counter == m.obj_counter && step(h, flags, m).table
            == m.table,
{
    match m.cur.unwrap() {
        Value::Int(n) => {
            let m1 = emit(m, crate::encode::int_encoding(n));
            lemma_emit_grow(h, flags, m, crate::encode::int_encoding(n), 0, 0);
            lemma_write_then_next(h, flags, m, m1);
        },
        Value::Block(i) => {
            lemma_step_block(h, flags, m, i);
        },
    }
}

#[verifier::rlimit(40)]
proof fn lemma_step_block(h: Heap, flags: i32, m: Machine, i: usize)
    requires
        inv(h, flags, m),
        !halted(m),
        m.cur == Some(Value::Block(i)),
    ensures
        inv(h, flags, step_block(h, flags, m, i)),
        !halted(step_block(h, flags, m, i)) ==> measure_lt(h, flags, step_block(h, flags, m, i), m),
        sharing(flags) ==> step_block(h, flags, m, i).obj_counter - step_block(h, flags, m, i).table.len() == m.obj_counter
            - m.table.len(),
        !sharing(flags) ==> step_block(h, flags, m, i).obj_counter == m.obj_counter && step_block(h, flags, m, i).table
            == m.table,
{
    let b = h.blocks@[i as int];
    assert(h.block_wf(b));
    let sz = spec_wosize(b);
    let s2 = step_block(h, flags, m, i);
    if !sharing(flags) && children(b).len() >= 1 {
        lemma_first_child(h, i as int);
    }
    if h.forward_skipped(b) {
        let f = fields(b)[0];
        assert(h.valid_value(f));
        assert(children(b) == fields(b));
        if let Value::Block(j) = f {
            assert(h.block_wf(h.blocks@[j as int]));
        }
    } else if sz == 0 {
        let m1 = emit(m, crate::encode::header_encoding(0, b.tag));
        lemma_emit_grow(h, flags, m, crate::encode::header_encoding(0, b.tag), 0, 0);
        lemma_write_then_next(h, flags, m, m1);
    } else if sharing(flags) && m.table.contains_key(i) {
        let bytes = crate::encode::shared_encoding(u64_specs::wrapping_sub(m.obj_counter, m.table[i]));
        lemma_emit_grow(h, flags, m, bytes, 0, 0);
        lemma_write_then_next(h, flags, m, emit(m, bytes));
    } else {
        match b.contents {
            Contents::Infix { offset, enclosing } => {
                assert(h.block_wf(h.blocks@[enclosing as int]));
                assert(children(b) == seq![Value::Block(enclosing)]);
            },
            Contents::Fields(fs) => {
                assert(children(b) == fs@);
                if b.tag != CLOSURE_TAG && !(crate::machine::compat_32(flags)
                    && !crate::encode::header_fits_32(sz, b.tag)) {
                    let words = u64_specs::wrapping_add(1, sz);
                    let m0 = grow(emit(m, crate::encode::header_encoding(sz, b.tag)), words, words);
                    lemma_emit_grow(h, flags, m, crate::encode::header_encoding(sz, b.tag), words, words);
                    lemma_record(h, flags, m0, i);
                    assert(h.valid_value(fs@[0]));
                    assert(fs.len() as int == fs@.len());
                    if sz > 1 {
                        let it = ExternItem { block: i, next: 1, count: (sz - 1) as u64 };
                        lemma_stack_push(h.blocks@, m.stack, it);
                        assert(item_ok(h, it));
                        assert forall|t: int| 0 <= t < s2.stack.len() implies item_ok(h, #[trigger] s2.stack[t]) by {
                            if t < m.stack.len() {
                                assert(s2.stack[t] == m.stack[t]);
                            }
                        }
                    }
                }
            },
            Contents::Opaque { .. } => {},
            _ => {
                if s2.error is None || !halted(s2) {
                    let m0 = match b.contents {
                        Contents::Bytes(bs) => grow(
                            emit(m, crate::encode::string_encoding(bs@)),
                            crate::machine::string_words_32(bs@.len() as u64),
                            crate::machine::string_words_64(bs@.len() as u64),
                        ),
                        Contents::Double(bits) => grow(emit(m, crate::encode::double_encoding(h.little_endian, bits)), 3, 2),
                        Contents::Doubles(ds) => grow(
                            emit(m, crate::encode::double_array_encoding(h.little_endian, ds@)),
                            u64_specs::wrapping_add(1, u64_specs::wrapping_mul(ds@.len() as u64, 2)),
                            u64_specs::wrapping_add(1, ds@.len() as u64),
                        ),
                        _ => m,
                    };
                    match b.contents {
                        Contents::Bytes(bs) => lemma_emit_grow(h, flags, m, crate::encode::string_encoding(bs@),
                            crate::machine::string_words_32(bs@.len() as u64),
                            crate::machine::string_words_64(bs@.len() as u64)),
                        Contents::Double(bits) => lemma_emit_grow(h, flags, m, crate::encode::double_encoding(h.little_endian, bits), 3, 2),
                        Contents::Doubles(ds) => lemma_emit_grow(h, flags, m, crate::encode::double_array_encoding(h.little_endian, ds@),
                            u64_specs::wrapping_add(1, u64_specs::wrapping_mul(ds@.len() as u64, 2)),
                            u64_specs::wrapping_add(1, ds@.len() as u64)),
                        _ => {},
                    }
                    lemma_record(h, flags, m0, i);
                    lemma_write_then_next(h, flags, m, record(flags, m0, i));
                }
            },
        }
    }
}

/// From every state of the walk, the walk halts.
pub proof fn lemma_halts_from(h: Heap, flags: i32, m: Machine) -> (k: nat)
    requires
        inv(h, flags, m),
    ensures
        halted(crate::machine::steps(h, flags, m, k)),
    decreases measure_blocks(h, flags, m), measure_work(h, flags, m), rank(h, m),
{
    if halted(m) {
        0
    } else {
        lemma_step(h, flags, m);
        let m2 = step(h, flags, m);
        if halted(m2) {
            assert(crate::machine::steps(h, flags, m2, 0) == m2);
            1
        } else {
            let k2 = lemma_halts_from(h, flags, m2);
            k2 + 1
        }
    }
}

/// Every state the walk reaches keeps the invariant.
pub proof fn lemma_inv_steps(h: Heap, flags: i32, m: Machine, k: nat)
    requires
        inv(h, flags, m),
    ensures
        inv(h, flags, crate::machine::steps(h, flags, m, k)),
    decreases k,
{
    if k > 0 {
        if !halted(m) {
            lemma_step(h, flags, m);
        }
        lemma_inv_steps(h, flags, step(h, flags, m), (k - 1) as nat);
    }
}

/// Along the walk, with sharing, the object count and the number of recorded
/// blocks grow together; without sharing neither changes.
pub proof fn lemma_steps_counts(h: Heap, flags: i32, m: Machine, k: nat)
    requires
        inv(h, flags, m),
    ensures
        sharing(flags) ==> crate::machine::steps(h, flags, m, k).obj_counter
            - crate::machine::steps(h, flags, m, k).table.len() == m.obj_counter - m.table.len(),
        !sharing(flags) ==> crate::machine::steps(h, flags, m, k).obj_counter == m.obj_counter
            && crate::machine::steps(h, flags, m, k).table == m.table,
    decreases k,
{
    if k > 0 {
        if !halted(m) {
            lemma_step(h, flags, m);
        }
        lemma_steps_counts(h, flags, step(h, flags, m), (k - 1) as nat);
    }
}

/// Marshaling a value of a well-formed heap (without cycles when sharing is
/// off) always ends.
pub proof fn law_marshaling_halts(h: Heap, v: Value, flags: i32)
    requires
        h.wf(),
        h.valid_value(v),
        h.blocks@.len() <= usize::MAX / 64,
        !sharing(flags) ==> h.children_precede_parents(),
    ensures
        exists|k: nat| halted(#[trigger] crate::machine::steps(h, flags, crate::machine::initial(v), k)),
{
    let m = crate::machine::initial(v);
    assert(inv(h, flags, m));
    let k = lemma_halts_from(h, flags, m);
    assert(halted(crate::machine::steps(h, flags, m, k)));
}

/// With sharing, no block is written twice: the walk writes each block at
/// most once, records its position, and counts no more objects than the heap
/// has blocks. Without sharing nothing is recorded and no object is counted.
pub proof fn law_objects_counted_once(h: Heap, v: Value, flags: i32, k: nat)
    requires
        h.wf(),
        h.valid_value(v),
        h.blocks@.len() <= usize::MAX / 64,
        !sharing(flags) ==> h.children_precede_parents(),
    ensures
        ({
            let m = crate::machine::steps(h, flags, crate::machine::initial(v), k);
            &&& sharing(flags) ==> m.obj_counter == m.table.len() && m.obj_counter
                <= h.blocks@.len()
            &&& !sharing(flags) ==> m.obj_counter == 0 && m.table == Map::<usize, u64>::empty()
        }),
{
    let m0 = crate::machine::initial(v);
    assert(inv(h, flags, m0));
    lemma_inv_steps(h, flags, m0, k);
    lemma_steps_counts(h, flags, m0, k);
    let m = crate::machine::steps(h, flags, m0, k);
    if sharing(flags) {
        let n = h.blocks@.len() as usize;
        lemma_index_set(n);
        assert(m.table.dom().subset_of(Set::new(|j: usize| j < n)));
        lemma_len_subset(m.table.dom(), Set::new(|j: usize| j < n));
    }
}

} // verus!
