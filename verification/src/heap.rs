//! A model of the part of the OCaml heap that marshaling reads: values are
//! immediate integers or references to blocks, and a heap is the list of its
//! blocks, each with a tag and its contents.

use vstd::prelude::*;
use crate::intext::{
    ABSTRACT_TAG, CLOSURE_TAG, CUSTOM_TAG, DOUBLE_ARRAY_TAG, DOUBLE_TAG, FORCING_TAG, FORWARD_TAG,
    INFIX_TAG, LAZY_TAG, STRING_TAG,
};

verus! {

/// An OCaml value: an immediate integer, or a pointer to a block of the heap
/// (given by the block's index in [`Heap::blocks`]).
#[derive(Clone, Copy, Debug, PartialEq, Eq, Structural)]
pub enum Value {
    Int(i64),
    Block(usize),
}

/// What a block holds, by kind of block.
#[derive(Clone, Debug)]
pub enum Contents {
    /// The fields of a structured block (tuples, records, variants, closures, ...).
    Fields(Vec<Value>),
    /// The bytes of a string (tag `STRING_TAG`).
    Bytes(Vec<u8>),
    /// A boxed float, by its IEEE-754 bits (tag `DOUBLE_TAG`).
    Double(u64),
    /// A float array, each float by its IEEE-754 bits (tag `DOUBLE_ARRAY_TAG`).
    Doubles(Vec<u64>),
    /// An infix pointer into the closure block `enclosing`, `offset` words
    /// from its start (tag `INFIX_TAG`).
    Infix { offset: u64, enclosing: usize },
    /// Words that OCaml does not scan (tags `ABSTRACT_TAG` and `CUSTOM_TAG`).
    Opaque { wosize: u64 },
}

/// A heap block: its tag and its contents.
#[derive(Clone, Debug)]
pub struct Block {
    pub tag: u8,
    pub contents: Contents,
}

/// The blocks that a marshaled value can reach.
#[derive(Clone, Debug)]
pub struct Heap {
    pub blocks: Vec<Block>,
    /// Floats lie in memory least significant byte first (the byte order of
    /// the machine that holds the heap); they are marshaled as they lie.
    pub little_endian: bool,
}

impl Value {
    /// Whether the value is an immediate integer.
    pub fn is_long(&self) -> (b: bool)
        ensures
            b == (*self is Int),
    {
        match self {
            Value::Int(_) => true,
            Value::Block(_) => false,
        }
    }
}

/// Size in words of a block, as its header gives it.
pub open spec fn spec_wosize(b: Block) -> u64 {
    match b.contents {
        Contents::Fields(fs) => fs@.len() as u64,
        Contents::Bytes(bs) => (bs@.len() / 8 + 1) as u64,
        Contents::Double(_) => 1,
        Contents::Doubles(ds) => ds@.len() as u64,
        Contents::Infix { offset, .. } => offset,
        Contents::Opaque { wosize } => wosize,
    }
}

/// A string of `n` bytes takes the fewest words that hold its bytes and at
/// least one more byte (OCaml's padding byte, which ends every string): at
/// least one word, even for the empty string.
pub proof fn law_string_wosize(b: Block)
    requires
        b.contents is Bytes,
        b.contents->Bytes_0@.len() <= usize::MAX,
    ensures
        spec_wosize(b) >= 1,
        8 * spec_wosize(b) >= b.contents->Bytes_0@.len() + 1,
        8 * spec_wosize(b) <= b.contents->Bytes_0@.len() + 8,
{
}

/// The values a block points to, in order.
pub open spec fn children(b: Block) -> Seq<Value> {
    match b.contents {
        Contents::Fields(fs) => fs@,
        Contents::Infix { enclosing, .. } => seq![Value::Block(enclosing)],
        _ => Seq::empty(),
    }
}

impl Block {
    /// Size in words of the block, as its header gives it.
    pub fn wosize(&self) -> (sz: u64)
        ensures
            sz == spec_wosize(*self),
    {
        match &self.contents {
            Contents::Fields(fs) => fs.len() as u64,
            Contents::Bytes(bs) => (bs.len() / 8 + 1) as u64,
            Contents::Double(_) => 1,
            Contents::Doubles(ds) => ds.len() as u64,
            Contents::Infix { offset, .. } => *offset,
            Contents::Opaque { wosize } => *wosize,
        }
    }
}

impl Heap {
    pub open spec fn valid_value(&self, v: Value) -> bool {
        match v {
            Value::Int(_) => true,
            Value::Block(i) => i < self.blocks@.len(),
        }
    }

    /// A block's tag agrees with its contents, and what it points to is in the heap.
    pub open spec fn block_wf(&self, b: Block) -> bool {
        match b.contents {
            Contents::Fields(fs) => {
                &&& b.tag != STRING_TAG && b.tag != DOUBLE_TAG && b.tag != DOUBLE_ARRAY_TAG
                &&& b.tag != INFIX_TAG && b.tag != ABSTRACT_TAG && b.tag != CUSTOM_TAG
                &&& b.tag == FORWARD_TAG ==> fs@.len() >= 1
                &&& forall|j: int| 0 <= j < fs@.len() ==> self.valid_value(#[trigger] fs@[j])
            },
            Contents::Bytes(_) => b.tag == STRING_TAG,
            Contents::Double(_) => b.tag == DOUBLE_TAG,
            Contents::Doubles(_) => b.tag == DOUBLE_ARRAY_TAG,
            Contents::Infix { enclosing, .. } => {
                &&& b.tag == INFIX_TAG
                &&& enclosing < self.blocks@.len()
                &&& self.blocks@[enclosing as int].tag == CLOSURE_TAG
            },
            Contents::Opaque { .. } => b.tag == ABSTRACT_TAG || b.tag == CUSTOM_TAG,
        }
    }

    /// Every block of the heap is well formed.
    pub open spec fn wf(&self) -> bool {
        forall|i: int| 0 <= i < self.blocks@.len() ==> self.block_wf(#[trigger] self.blocks@[i])
    }

    /// Every block points only to blocks of smaller index: the heap has no cycle.
    pub open spec fn children_precede_parents(&self) -> bool {
        forall|i: int, j: int|
            0 <= i < self.blocks@.len() && 0 <= j < children(self.blocks@[i]).len() ==> match #[trigger] children(self.blocks@[i])[j] {
                Value::Int(_) => true,
                Value::Block(c) => c < i,
            }
    }

    /// The tag of the block `v` points to, if `v` is a block.
    pub open spec fn spec_tag_val(&self, v: Value) -> Option<u8> {
        match v {
            Value::Int(_) => None,
            Value::Block(i) => Some(self.blocks@[i as int].tag),
        }
    }

    /// A forward block is skipped (replaced by its target) unless its target
    /// is itself a forward, lazy, forcing or float block.
    pub open spec fn forward_skipped(&self, b: Block) -> bool {
        &&& b.tag == FORWARD_TAG
        &&& b.contents is Fields
        &&& match self.spec_tag_val(b.contents->Fields_0@[0]) {
            None => true,
            Some(t) => t != FORWARD_TAG && t != LAZY_TAG && t != FORCING_TAG && t != DOUBLE_TAG,
        }
    }

    /// The tag of the block `v` points to.
    pub fn Tag_val(&self, v: Value) -> (t: u8)
        requires
            v is Block,
            self.valid_value(v),
        ensures
            Some(t) == self.spec_tag_val(v),
    {
        match v {
            Value::Block(i) => self.blocks[i].tag,
            Value::Int(_) => 0,
        }
    }

    /// Field `j` of block `i`.
    pub fn Field(&self, i: usize, j: usize) -> (f: Value)
        requires
            i < self.blocks@.len(),
            self.blocks@[i as int].contents is Fields,
            j < self.blocks@[i as int].contents->Fields_0@.len(),
        ensures
            f == self.blocks@[i as int].contents->Fields_0@[j as int],
    {
        match &self.blocks[i].contents {
            Contents::Fields(fs) => fs[j],
            _ => Value::Int(0),
        }
    }

    /// Whether the forward block `b` is skipped during marshaling.
    pub fn is_forward_skipped(&self, b: &Block) -> (r: bool)
        requires
            self.block_wf(*b),
        ensures
            r == self.forward_skipped(*b),
    {
        if b.tag != FORWARD_TAG {
            return false;
        }
        match &b.contents {
            Contents::Fields(fs) => {
                let f = fs[0];
                if f.is_long() {
                    true
                } else {
                    let t = self.Tag_val(f);
                    !(t == FORWARD_TAG || t == LAZY_TAG || t == FORCING_TAG || t == DOUBLE_TAG)
                }
            },
            _ => false,
        }
    }

    /// Whether [`Heap::children_precede_parents`] holds.
    pub fn all_children_precede_parents(&self) -> (r: bool)
        ensures
            r == self.children_precede_parents(),
    {
        let n = self.blocks.len();
        let mut i: usize = 0;
        while i < n
            invariant
                n == self.blocks@.len(),
                i <= n,
                forall|i2: int, j: int|
                    0 <= i2 < i && 0 <= j < children(self.blocks@[i2]).len() ==> match #[trigger] children(self.blocks@[i2])[j] {
                        Value::Int(_) => true,
                        Value::Block(c) => c < i2,
                    },
            decreases n - i,
        {
            match &self.blocks[i].contents {
                Contents::Fields(fs) => {
                    let m = fs.len();
                    let mut j: usize = 0;
                    while j < m
                        invariant
                            m == fs@.len(),
                            j <= m,
                            i < n,
                            n == self.blocks@.len(),
                            self.blocks@[i as int].contents == Contents::Fields(*fs),
                            forall|j2: int| 0 <= j2 < j ==> match #[trigger] fs@[j2] {
                                Value::Int(_) => true,
                                Value::Block(c) => c < i,
                            },
                        decreases m - j,
                    {
                        match fs[j] {
                            Value::Block(c) => {
                                if c >= i {
                                    assert(children(self.blocks@[i as int])[j as int] == fs@[j as int]);
                                    return false;
                                }
                            },
                            Value::Int(_) => {},
                        }
                        j += 1;
                    }
                    assert(children(self.blocks@[i as int]) == fs@);
                },
                Contents::Infix { enclosing, .. } => {
                    if *enclosing >= i {
                        assert(children(self.blocks@[i as int])[0] == Value::Block(*enclosing));
                        return false;
                    }
                },
                _ => {},
            }
            i += 1;
        }
        true
    }

    /// Whether block `b` is well formed in this heap.
    pub fn block_ok(&self, b: &Block) -> (r: bool)
        ensures
            r == self.block_wf(*b),
    {
        let n = self.blocks.len();
        match &b.contents {
            Contents::Fields(fs) => {
                if b.tag == STRING_TAG || b.tag == DOUBLE_TAG || b.tag == DOUBLE_ARRAY_TAG
                    || b.tag == INFIX_TAG || b.tag == ABSTRACT_TAG || b.tag == CUSTOM_TAG {
                    return false;
                }
                if b.tag == FORWARD_TAG && fs.len() < 1 {
                    return false;
                }
                let m = fs.len();
                let mut j: usize = 0;
                while j < m
                    invariant
                        m == fs@.len(),
                        n == self.blocks@.len(),
                        b.contents == Contents::Fields(*fs),
                        j <= m,
                        forall|j2: int| 0 <= j2 < j ==> self.valid_value(#[trigger] fs@[j2]),
                    decreases m - j,
                {
                    match fs[j] {
                        Value::Block(c) => {
                            if c >= n {
                                assert(!self.valid_value(fs@[j as int]));
                                assert(b.contents->Fields_0@ == fs@);
                                assert(!(forall|j2: int| 0 <= j2 < fs@.len() ==> self.valid_value(#[trigger] fs@[j2])));
                                return false;
                            }
                        },
                        Value::Int(_) => {},
                    }
                    j += 1;
                }
                true
            },
            Contents::Bytes(_) => b.tag == STRING_TAG,
            Contents::Double(_) => b.tag == DOUBLE_TAG,
            Contents::Doubles(_) => b.tag == DOUBLE_ARRAY_TAG,
            Contents::Infix { enclosing, .. } => {
                b.tag == INFIX_TAG && *enclosing < n && self.blocks[*enclosing].tag == CLOSURE_TAG
            },
            Contents::Opaque { .. } => b.tag == ABSTRACT_TAG || b.tag == CUSTOM_TAG,
        }
    }

    /// Whether every block of the heap is well formed.
    pub fn is_wf(&self) -> (r: bool)
        ensures
            r == self.wf(),
    {
        let n = self.blocks.len();
        let mut i: usize = 0;
        while i < n
            invariant
                n == self.blocks@.len(),
                i <= n,
                forall|i2: int| 0 <= i2 < i ==> self.block_wf(#[trigger] self.blocks@[i2]),
            decreases n - i,
        {
            if !self.block_ok(&self.blocks[i]) {
                return false;
            }
            i += 1;
        }
        true
    }
}

} // verus!
