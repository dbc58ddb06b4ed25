//! The table of already-marshaled blocks and their positions in the output.
//!
//! Open addressing with linear probing over a power-of-two number of slots,
//! with a redundant representation: a bit vector records which slots are
//! occupied, and an array records the (block, position) pair of each occupied
//! slot. Keys are placed by multiplicative Fibonacci hashing, and the table
//! grows when it becomes two-thirds full.

use vstd::prelude::*;
use vstd::wrapping::{u64_specs, usize_specs};
use vstd::set_lib::{lemma_int_range, lemma_len_subset, set_int_range};
use vstd::arithmetic::div_mod::{
    lemma_add_mod_noop, lemma_add_mod_noop_right, lemma_mod_twice, lemma_multiply_divide_lt,
    lemma_small_mod,
};
use vstd::arithmetic::power2::{lemma2_to64, lemma2_to64_rest, lemma_pow2_adds, lemma_pow2_pos, pow2};
use vstd::bits::{lemma_u64_low_bits_mask_is_mod, lemma_u64_shr_is_div, low_bits_mask};

verus! {

/// Bits in a word of the bit vector.
pub const Bits_word: usize = 64;
/// log2 of the initial number of slots.
pub const POS_TABLE_INIT_SIZE_LOG2: u64 = 8;
/// Initial number of slots.
pub const POS_TABLE_INIT_SIZE: u64 = 256;
/// (sqrt(5) - 1) / 2 * 2^64, the multiplier of Fibonacci hashing.
pub const HASH_FACTOR: u64 = 11400714819323198486;

/// Number of words of a bit vector of `n` bits.
pub fn Bitvect_size(n: usize) -> (r: usize)
    requires
        n + 63 <= usize::MAX,
    ensures
        r == (n + 63) / 64,
{
    (n + (Bits_word - 1)) / Bits_word
}

/// Number of entries at which a table of `sz` slots grows: two thirds of `sz`.
pub fn Threshold(sz: usize) -> (r: usize)
    ensures
        r == usize_specs::wrapping_mul(sz, 2) / 3,
        sz <= usize::MAX / 2 ==> r == sz * 2 / 3,
{
    proof {
        if sz <= usize::MAX / 2 {
            lemma_small_mod((sz * 2) as nat, (usize::MAX - usize::MIN + 1) as nat);
        }
    }
    sz.wrapping_mul(2) / 3
}

/// The slot where probing for block `v` starts, in a table of `2^(64 - shift)` slots.
pub open spec fn spec_hash(v: usize, shift: u64) -> u64 {
    u64_specs::wrapping_mul(v as u64, HASH_FACTOR) >> shift
}

/// Multiplicative Fibonacci hashing of block `v`.
pub fn Hash(v: usize, shift: u64) -> (h: u64)
    requires
        shift < 64,
    ensures
        h == spec_hash(v, shift),
{
    (v as u64).wrapping_mul(HASH_FACTOR) >> shift
}

/// Bit `i` of the bit vector `bv`.
pub open spec fn bit_at(bv: Seq<u64>, i: int) -> bool {
    (bv[i / 64] >> ((i % 64) as u64)) & 1u64 == 1u64
}

proof fn lemma_bit_test(x: u64, b: u64)
    by (bit_vector)
    requires
        b < 64,
    ensures
        (x & (1u64 << b) != 0u64) == ((x >> b) & 1u64 == 1u64),
{
}

proof fn lemma_bit_set(x: u64, b: u64, c: u64)
    by (bit_vector)
    requires
        b < 64,
        c < 64,
    ensures
        ((x | (1u64 << b)) >> c) & 1u64 == (if b == c { 1u64 } else { (x >> c) & 1u64 }),
{
}

proof fn lemma_zero_bit(c: u64)
    by (bit_vector)
    requires
        c < 64,
    ensures
        (0u64 >> c) & 1u64 != 1u64,
{
}

proof fn lemma_low_six_bits(i: u64)
    by (bit_vector)
    ensures
        i & 63u64 == i % 64u64,
{
}

/// `x & (2^n - 1)` is `x % 2^n`.
proof fn lemma_mask_is_mod(x: u64, n: nat)
    requires
        n < 64,
    ensures
        x & ((pow2(n) - 1) as u64) == x % (pow2(n) as u64),
{
    lemma_pow2_pos(n);
    lemma_u64_low_bits_mask_is_mod(x, n);
    assert(low_bits_mask(n) as u64 == (pow2(n) - 1) as u64);
}

/// Two bit indices with the same word and the same bit are equal.
proof fn lemma_same_word_same_bit(j: int, i: int)
    by (nonlinear_arith)
    requires
        j / 64 == i / 64,
        j % 64 == i % 64,
    ensures
        j == i,
{
}

/// A slot below the size has its bit in the bit vector.
proof fn lemma_word_index(h: int, size: int)
    by (nonlinear_arith)
    requires
        0 <= h < size,
        size % 64 == 0,
    ensures
        h / 64 < size / 64,
{
}

/// `x >> s` is below `2^(64 - s)`.
proof fn lemma_hash_bound(x: u64, s: u64)
    requires
        1 <= s <= 63,
    ensures
        (x >> s) < pow2((64 - s) as nat),
{
    lemma_u64_shr_is_div(x, s);
    lemma2_to64();
    lemma2_to64_rest();
    lemma_pow2_adds(s as nat, (64 - s) as nat);
    lemma_pow2_pos(s as nat);
    lemma_multiply_divide_lt(x as int, pow2(s as nat) as int, pow2((64 - s) as nat) as int);
}

/// Bit `i` of the bit vector: nonzero when set.
pub fn bitvect_test(bv: &Vec<u64>, i: u64) -> (r: u64)
    requires
        i / 64 < bv@.len(),
    ensures
        r == bv@[(i / 64) as int] & (1u64 << (i % 64)),
        (r != 0) == bit_at(bv@, i as int),
{
    let ghost k = i as int / 64;
    let n = bv.len();
    assert(i / 64 < n as u64);
    let w = bv[(i / 64) as usize];
    let b = i & 63u64;
    proof {
        assert(w == bv@[k]);
        lemma_low_six_bits(i);
        assert(b == (i as int % 64) as u64);
        lemma_bit_test(w, b);
    }
    w & (1u64 << b)
}

/// Sets bit `i` of the bit vector, leaving the others unchanged.
pub fn bitvect_set(bv: &mut Vec<u64>, i: u64)
    requires
        i / 64 < old(bv)@.len(),
    ensures
        final(bv)@.len() == old(bv)@.len(),
        bit_at(final(bv)@, i as int),
        forall|j: int|
            0 <= j < 64 * old(bv)@.len() && j != i ==> bit_at(final(bv)@, j) == bit_at(
                old(bv)@,
                j,
            ),
{
    let n = bv.len();
    assert(i / 64 < n as u64);
    let w = (i / 64) as usize;
    let b = i & 63u64;
    let old_word = bv[w];
    proof {
        assert(w as int == i as int / 64);
        lemma_low_six_bits(i);
        assert(b == (i as int % 64) as u64);
    }
    let x = old_word | (1u64 << b);
    bv.set(w, x);
    proof {
        lemma_bit_set(old_word, b, b);
        assert(bv@[i as int / 64] == x);
        assert forall|j: int|
            0 <= j < 64 * old(bv)@.len() && j != i implies bit_at(bv@, j) == bit_at(old(bv)@, j) by {
            if j / 64 == w as int {
                lemma_bit_set(old_word, b, (j % 64) as u64);
                if j % 64 == i as int % 64 {
                    lemma_same_word_same_bit(j, i as int);
                }
            } else {
                assert(bv@[j / 64] == old(bv)@[j / 64]);
            }
        }
    }
}

/// A block recorded in the table and its position in the output.
#[derive(Clone, Copy, Debug)]
pub struct ObjectPosition {
    pub obj: usize,
    pub pos: u64,
}

/// Result of a lookup: the recorded position, or the free slot where the
/// block belongs.
#[derive(Clone, Copy, Debug, PartialEq, Eq, Structural)]
pub enum Lookup {
    Found(u64),
    Vacant(u64),
}

/// The table of already-marshaled blocks.
pub struct PositionTable {
    shift: u64,
    size: u64,
    mask: u64,
    threshold: u64,
    present: Vec<u64>,
    entries: Vec<ObjectPosition>,
    contents: Ghost<Map<usize, u64>>,
}

impl View for PositionTable {
    type V = Map<usize, u64>;

    /// The recorded blocks and their positions.
    closed spec fn view(&self) -> Map<usize, u64> {
        self.contents@
    }
}

impl PositionTable {
    /// Number of entries at which the table grows.
    pub closed spec fn spec_threshold(&self) -> u64 {
        self.threshold
    }

    /// Number of slots.
    pub closed spec fn spec_size(&self) -> u64 {
        self.size
    }

    /// The number of slots is `2^(64 - shift)`.
    pub closed spec fn spec_shift(&self) -> u64 {
        self.shift
    }

    /// `size - 1`, the mask that wraps a slot index.
    pub closed spec fn spec_mask(&self) -> u64 {
        self.mask
    }

    /// Number of words of the bit vector of occupied slots.
    pub closed spec fn spec_present_len(&self) -> nat {
        self.present@.len()
    }

    /// Number of entries of the slot array.
    pub closed spec fn spec_entries_len(&self) -> nat {
        self.entries@.len()
    }

    /// Number of occupied slots.
    pub closed spec fn spec_occupied_count(&self) -> nat {
        self.occupied().len()
    }

    /// How the size, shift, mask, threshold and arrays of a table fit together.
    pub open spec fn shape(&self) -> bool {
        &&& 1 <= self.spec_shift() <= 56
        &&& self.spec_size() as nat == pow2((64 - self.spec_shift()) as nat)
        &&& 256 <= self.spec_size()
        &&& self.spec_mask() == self.spec_size() - 1
        &&& self.spec_threshold() == self.spec_size() * 2 / 3
        &&& self.spec_present_len() == self.spec_size() / 64
        &&& self.spec_entries_len() == self.spec_size()
    }

    /// A well-formed table has its shape, and as many occupied slots as
    /// recorded blocks.
    pub proof fn lemma_shape(&self)
        requires
            self.wf_core(),
        ensures
            self.shape(),
            self.spec_occupied_count() == self@.len(),
    {
    }

    /// Slot reached `d` steps after `start`.
    closed spec fn slot(&self, start: int, d: int) -> int {
        (start + d) % (self.size as int)
    }

    closed spec fn used(&self, j: int) -> bool {
        bit_at(self.present@, j)
    }

    closed spec fn home(&self, k: usize) -> int {
        spec_hash(k, self.shift) as int
    }

    /// The first `d` slots of the probe sequence of `k` are occupied.
    closed spec fn probe_clear(&self, k: usize, d: int) -> bool {
        forall|d2: int| 0 <= d2 < d ==> #[trigger] self.used(self.slot(self.home(k), d2))
    }

    /// Probing for `k` reaches slot `j` over occupied slots only.
    closed spec fn reaches(&self, k: usize, j: int) -> bool {
        exists|d: int|
            0 <= d < self.size && self.slot(self.home(k), d) == j && #[trigger] self.probe_clear(
                k,
                d,
            )
    }

    closed spec fn occupied(&self) -> Set<int> {
        Set::new(|j: int| 0 <= j < self.size && self.used(j))
    }

    /// The representation invariant, except the bound on the number of entries.
    pub closed spec fn wf_core(&self) -> bool {
        &&& 1 <= self.shift <= 56
        &&& self.size as nat == pow2((64 - self.shift) as nat)
        &&& 256 <= self.size
        &&& self.size % 64 == 0
        &&& self.mask == self.size - 1
        &&& self.threshold == self.size * 2 / 3
        &&& self.present@.len() == self.size / 64
        &&& self.entries@.len() == self.size
        &&& self.contents@.dom().finite()
        &&& self.occupied().len() == self.contents@.len()
        &&& self.contents@.len() < self.size
        &&& forall|j: int|
            0 <= j < self.size && #[trigger] self.used(j) ==> {
                &&& self.contents@.contains_key(self.entries@[j].obj)
                &&& self.contents@[self.entries@[j].obj] == self.entries@[j].pos
                &&& self.reaches(self.entries@[j].obj, j)
            }
        &&& forall|k: usize|
            #[trigger] self.contents@.contains_key(k) ==> exists|j: int|
                0 <= j < self.size && self.used(j) && #[trigger] self.entries@[j].obj == k
        &&& forall|j1: int, j2: int|
            0 <= j1 < self.size && 0 <= j2 < self.size && self.used(j1) && self.used(j2)
                && #[trigger] self.entries@[j1].obj == #[trigger] self.entries@[j2].obj ==> j1
                == j2
    }

    /// The representation invariant: fewer entries than the growth threshold.
    pub open spec fn wf(&self) -> bool {
        self.wf_core() && self@.len() < self.spec_threshold()
    }

    /// `h` is the free slot where probing for `obj`, which is absent, ends.
    pub closed spec fn vacant_for(&self, obj: usize, h: u64) -> bool {
        &&& h < self.size
        &&& !self.used(h as int)
        &&& !self.contents@.contains_key(obj)
        &&& exists|d: int|
            0 <= d < self.size && self.slot(self.home(obj), d) == h && #[trigger] self.probe_clear(
                obj,
                d,
            )
    }

    /// What a lookup of `obj` answers: its recorded position, or a free slot
    /// where it belongs when it is not recorded.
    pub open spec fn lookup_spec(&self, obj: usize, r: Lookup) -> bool {
        match r {
            Lookup::Found(p) => self@.contains_key(obj) && self@[obj] == p,
            Lookup::Vacant(h) => self.vacant_for(obj, h) && !self@.contains_key(obj),
        }
    }

    /// After `set_at` records `obj` at `pos` (`before` is the table it was
    /// called on, `after` the table it left), a lookup of `obj` finds `pos`,
    /// and a lookup of any other block answers as it did before: found at the
    /// same position, or not recorded.
    pub proof fn law_record_then_lookup(before: Self, after: Self, obj: usize, h: u64, pos: u64)
        requires
            before.wf_core(),
            before.vacant_for(obj, h),
            before@.len() + 1 < before.spec_size(),
            after.wf_core(),
            after@ == before@.insert(obj, pos),
        ensures
            forall|r: Lookup| after.lookup_spec(obj, r) ==> r == Lookup::Found(pos),
            forall|k: usize, r: Lookup|
                k != obj && #[trigger] after.lookup_spec(k, r) ==> match r {
                    Lookup::Found(p) => before@.contains_key(k) && before@[k] == p,
                    Lookup::Vacant(_) => !before@.contains_key(k),
                },
    {
    }

    /// Growing a table changes no lookup: a block is found afterwards, at a
    /// position, exactly when it was found before at that position
    /// (`before` is the table `resize_position_table` was called on, `after`
    /// the table it left).
    pub proof fn law_resize_keeps_lookups(before: Self, after: Self, obj: usize)
        requires
            before.wf_core(),
            after.wf(),
            after@ == before@,
        ensures
            forall|r1: Lookup, r2: Lookup|
                #[trigger] before.lookup_spec(obj, r1) && #[trigger] after.lookup_spec(obj, r2) ==> (
                r1 is Found <==> r2 is Found) && (r1 is Found ==> r1 == r2),
    {
    }

    /// An empty table with no slots: the table of marshaling without sharing.
    pub fn new() -> (t: Self)
        ensures
            t@ == Map::<usize, u64>::empty(),
            t.spec_size() == 0,
            t.spec_shift() == 0,
            t.spec_mask() == 0,
            t.spec_threshold() == 0,
            t.spec_present_len() == 0,
            t.spec_entries_len() == 0,
    {
        PositionTable {
            shift: 0,
            size: 0,
            mask: 0,
            threshold: 0,
            present: Vec::new(),
            entries: Vec::new(),
            contents: Ghost(Map::empty()),
        }
    }

    /// An empty table of `size` slots, `size == 2^(64 - shift)`.
    fn with_size(size: u64, shift: u64) -> (t: Self)
        requires
            1 <= shift <= 56,
            size as nat == pow2((64 - shift) as nat),
            256 <= size,
            size % 64 == 0,
            size as int <= usize::MAX as int / 4,
        ensures
            t.wf_core(),
            t@ == Map::<usize, u64>::empty(),
            t.size == size,
            t.shift == shift,
    {
        let words = Bitvect_size(size as usize);
        let present = vec![0u64; words];
        let entries = vec![ObjectPosition { obj: 0, pos: 0 }; size as usize];
        let t = PositionTable {
            shift,
            size,
            mask: size - 1,
            threshold: Threshold(size as usize) as u64,
            present,
            entries,
            contents: Ghost(Map::empty()),
        };
        proof {
            assert(words == size / 64) by (nonlinear_arith)
                requires
                    words == (size + 63) / 64,
                    size % 64 == 0,
            ;
            assert forall|j: int| 0 <= j < size implies !t.used(j) by {
                lemma_word_index(j, size as int);
                assert(t.present@[j / 64] == 0u64);
                lemma_zero_bit((j % 64) as u64);
            }
            assert(t.occupied() =~= Set::<int>::empty());
        }
        t
    }

    /// An empty table of the initial size.
    pub fn init_position_table() -> (t: Self)
        ensures
            t.wf(),
            t@ == Map::<usize, u64>::empty(),
            t.shape(),
            t.spec_size() == 256,
            t.spec_shift() == 56,
            t.spec_threshold() == 170,
            t.spec_occupied_count() == 0,
    {
        proof {
            lemma2_to64();
        }
        let t = Self::with_size(POS_TABLE_INIT_SIZE, 64 - POS_TABLE_INIT_SIZE_LOG2);
        assert(t.threshold == 170);
        t
    }

    proof fn lemma_slot_bounds(&self, start: int, d: int)
        requires
            self.wf_core(),
        ensures
            0 <= self.slot(start, d) < self.size,
    {
    }

    proof fn lemma_home_bound(&self, k: usize)
        requires
            self.wf_core(),
        ensures
            0 <= self.home(k) < self.size,
    {
        lemma_hash_bound(u64_specs::wrapping_mul(k as u64, HASH_FACTOR), self.shift);
    }

    /// Every slot is `d` steps from `start` for some `d` below the size.
    proof fn lemma_slot_inverse(&self, start: int, j: int) -> (d: int)
        requires
            self.wf_core(),
            0 <= start < self.size,
            0 <= j < self.size,
        ensures
            0 <= d < self.size,
            self.slot(start, d) == j,
    {
        let m = self.size as int;
        let d = (j - start) % m;
        lemma_add_mod_noop_right(start, j - start, m);
        lemma_small_mod(j as nat, m as nat);
        d
    }

    /// The slot after slot `slot(start, d)`.
    proof fn lemma_slot_next(&self, start: int, d: int)
        requires
            self.wf_core(),
        ensures
            (self.slot(start, d) + 1) % (self.size as int) == self.slot(start, d + 1),
    {
        let m = self.size as int;
        lemma_add_mod_noop(start + d, 1, m);
        lemma_small_mod(1, m as nat);
        lemma_add_mod_noop(self.slot(start, d), 1, m);
        lemma_small_mod(1, m as nat);
        lemma_mod_twice(start + d, m);
    }

    /// Some slot is free.
    proof fn lemma_exists_vacant(&self) -> (e: int)
        requires
            self.wf_core(),
        ensures
            0 <= e < self.size,
            !self.used(e),
    {
        if forall|j: int| 0 <= j < self.size ==> self.used(j) {
            lemma_int_range(0, self.size as int);
            assert(set_int_range(0, self.size as int).subset_of(self.occupied()));
            lemma_int_range(0, self.size as int);
            assert(self.occupied().subset_of(set_int_range(0, self.size as int)));
            lemma_len_subset(self.occupied(), set_int_range(0, self.size as int));
            lemma_len_subset(set_int_range(0, self.size as int), self.occupied());
            assert(false);
        }
        choose|j: int| 0 <= j < self.size && !self.used(j)
    }

    /// Probing for `obj` that meets a free slot after `d` occupied slots not
    /// holding `obj` proves `obj` absent.
    proof fn lemma_absent_when_vacant(&self, obj: usize, start: int, d: int)
        requires
            self.wf_core(),
            start == self.home(obj),
            0 <= d < self.size,
            !self.used(self.slot(start, d)),
            forall|d2: int|
                0 <= d2 < d ==> #[trigger] self.used(self.slot(start, d2))
                    && self.entries@[self.slot(start, d2)].obj != obj,
        ensures
            !self@.contains_key(obj),
            self.probe_clear(obj, d),
    {
        if self.contents@.contains_key(obj) {
            let j = choose|j: int|
                0 <= j < self.size && self.used(j) && #[trigger] self.entries@[j].obj == obj;
            assert(self.reaches(obj, j));
            let dj = choose|dj: int|
                0 <= dj < self.size && self.slot(self.home(obj), dj) == j
                    && #[trigger] self.probe_clear(obj, dj);
            if dj < d {
                assert(self.used(self.slot(start, dj)));
            } else if dj > d {
                assert(self.used(self.slot(start, d)));
            }
            assert(false);
        }
    }

    /// When the first `d + 1` slots of a probe sequence are occupied, the
    /// sequence has a further slot.
    proof fn lemma_probe_continues(&self, start: int, d: int)
        requires
            self.wf_core(),
            0 <= start < self.size,
            0 <= d < self.size,
            forall|d2: int| 0 <= d2 <= d ==> #[trigger] self.used(self.slot(start, d2)),
        ensures
            d + 1 < self.size,
    {
        let e = self.lemma_exists_vacant();
        let de = self.lemma_slot_inverse(start, e);
        if de <= d {
            assert(self.used(self.slot(start, de)));
            assert(false);
        }
    }

    /// The entry of slot `h`.
    fn entry(&self, h: u64) -> (e: ObjectPosition)
        requires
            h < self.entries@.len(),
        ensures
            e == self.entries@[h as int],
    {
        let n = self.entries.len();
        assert(h < n as u64);
        self.entries[h as usize]
    }

    /// A table whose threshold is at most `usize::MAX / 64` has at most
    /// `usize::MAX / 32` slots.
    pub proof fn lemma_size_bound(&self)
        requires
            self.wf_core(),
            self.spec_threshold() as int <= usize::MAX as int / 64,
        ensures
            self.spec_size() as int <= usize::MAX as int / 32,
    {
        let m = usize::MAX as int;
        let size = self.size as int;
        let th = self.threshold as int;
        assert(size <= m / 32) by (nonlinear_arith)
            requires
                th == size * 2 / 3,
                th <= m / 64,
                size >= 256,
                m >= 0xffff_ffff,
        ;
    }

    /// The growth threshold is below the number of slots.
    pub proof fn lemma_threshold_below_size(&self)
        requires
            self.wf_core(),
        ensures
            self.spec_threshold() < self.spec_size(),
    {
    }

    /// Number of entries at which the table grows.
    pub fn threshold(&self) -> (r: u64)
        ensures
            r == self.spec_threshold(),
    {
        self.threshold
    }

    /// Whether `obj` is recorded: its position if so, else the free slot where
    /// it belongs.
    pub fn lookup_position(&self, obj: usize) -> (r: Lookup)
        requires
            self.wf_core(),
        ensures
            self.lookup_spec(obj, r),
    {
        proof {
            self.lemma_home_bound(obj);
        }
        let h0 = Hash(obj, self.shift);
        let ghost start = h0 as int;
        let mut h = h0;
        let ghost mut d: int = 0;
        proof {
            lemma_small_mod(h0 as nat, self.size as nat);
        }
        loop
            invariant
                self.wf_core(),
                start == self.home(obj),
                0 <= start < self.size,
                0 <= d < self.size,
                h as int == self.slot(start, d),
                forall|d2: int|
                    0 <= d2 < d ==> #[trigger] self.used(self.slot(start, d2))
                        && self.entries@[self.slot(start, d2)].obj != obj,
            decreases self.size - d,
        {
            proof {
                self.lemma_slot_bounds(start, d);
                lemma_word_index(h as int, self.size as int);
            }
            if bitvect_test(&self.present, h) == 0 {
                proof {
                    self.lemma_absent_when_vacant(obj, start, d);
                }
                return Lookup::Vacant(h);
            }
            proof {
                assert(self.used(h as int));
            }
            let e = self.entry(h);
            if e.obj == obj {
                return Lookup::Found(e.pos);
            }
            proof {
                self.lemma_probe_continues(start, d);
                self.lemma_slot_next(start, d);
                lemma_mask_is_mod((h + 1) as u64, (64 - self.shift) as nat);
                assert forall|d2: int| 0 <= d2 < d + 1 implies #[trigger] self.used(
                    self.slot(start, d2),
                ) && self.entries@[self.slot(start, d2)].obj != obj by {
                    if d2 == d {
                    }
                }
            }
            h = (h + 1) & self.mask;
            proof {
                d = d + 1;
            }
        }
    }

    /// Occupying more slots keeps every probe sequence clear.
    proof fn lemma_probe_clear_mono(a: &Self, b: &Self, k: usize, d: int)
        requires
            a.size == b.size,
            a.shift == b.shift,
            forall|j: int| 0 <= j < a.size && #[trigger] a.used(j) ==> b.used(j),
            a.probe_clear(k, d),
            a.size > 0,
        ensures
            b.probe_clear(k, d),
    {
        assert forall|d2: int| 0 <= d2 < d implies #[trigger] b.used(b.slot(b.home(k), d2)) by {
            assert(a.used(a.slot(a.home(k), d2)));
        }
    }

    /// Records `obj` at position `pos` in the free slot `h` that probing for it
    /// ended at.
    pub fn set_at(&mut self, obj: usize, h: u64, pos: u64)
        requires
            old(self).wf_core(),
            old(self).vacant_for(obj, h),
            old(self)@.len() + 1 < old(self).spec_size(),
        ensures
            final(self).wf_core(),
            final(self)@ == old(self)@.insert(obj, pos),
            final(self)@.len() == old(self)@.len() + 1,
            final(self).spec_threshold() == old(self).spec_threshold(),
            final(self).spec_size() == old(self).spec_size(),
            final(self).spec_shift() == old(self).spec_shift(),
    {
        let ghost old_t = *self;
        proof {
            lemma_word_index(h as int, self.size as int);
        }
        bitvect_set(&mut self.present, h);
        let n = self.entries.len();
        assert(h < n as u64);
        self.entries.set(h as usize, ObjectPosition { obj, pos });
        self.contents = Ghost(self.contents@.insert(obj, pos));
        proof {
            let size = self.size as int;
            assert forall|j: int| 0 <= j < size implies #[trigger] self.used(j) == (old_t.used(j) || j
                == h) by {
                if j != h {
                    assert(j < 64 * old_t.present@.len()) by (nonlinear_arith)
                        requires
                            j < size,
                            old_t.present@.len() == size / 64,
                            size % 64 == 0,
                    ;
                }
            }
            assert forall|j: int| 0 <= j < size && #[trigger] old_t.used(j) implies self.used(j) by {
            }
            assert(self.occupied() =~= old_t.occupied().insert(h as int));
            lemma_int_range(0, size);
            lemma_len_subset(old_t.occupied(), set_int_range(0, size));
            assert forall|k: usize, d: int| #[trigger] old_t.probe_clear(k, d) implies self.probe_clear(
                k,
                d,
            ) by {
                Self::lemma_probe_clear_mono(&old_t, self, k, d);
            }
            let dh = choose|d: int|
                0 <= d < old_t.size && old_t.slot(old_t.home(obj), d) == h
                    && #[trigger] old_t.probe_clear(obj, d);
            assert(self.probe_clear(obj, dh));
            assert forall|j: int| 0 <= j < size && #[trigger] self.used(j) implies {
                &&& self.contents@.contains_key(self.entries@[j].obj)
                &&& self.contents@[self.entries@[j].obj] == self.entries@[j].pos
                &&& self.reaches(self.entries@[j].obj, j)
            } by {
                if j == h {
                    assert(self.entries@[j] == ObjectPosition { obj, pos });
                    assert(self.slot(self.home(obj), dh) == j);
                } else {
                    assert(old_t.used(j));
                    assert(self.entries@[j] == old_t.entries@[j]);
                    let k = old_t.entries@[j].obj;
                    assert(old_t.reaches(k, j));
                    let dk = choose|d: int|
                        0 <= d < old_t.size && old_t.slot(old_t.home(k), d) == j
                            && #[trigger] old_t.probe_clear(k, d);
                    assert(self.probe_clear(k, dk));
                    assert(self.slot(self.home(k), dk) == j);
                }
            }
            assert forall|k: usize| #[trigger] self.contents@.contains_key(k) implies exists|j: int|
                0 <= j < size && self.used(j) && #[trigger] self.entries@[j].obj == k by {
                if k == obj {
                    assert(self.entries@[h as int].obj == k);
                } else {
                    assert(old_t.contents@.contains_key(k));
                    let j = choose|j: int|
                        0 <= j < size && old_t.used(j) && #[trigger] old_t.entries@[j].obj == k;
                    assert(self.used(j));
                    assert(self.entries@[j].obj == k);
                }
            }
            assert forall|j1: int, j2: int|
                0 <= j1 < size && 0 <= j2 < size && self.used(j1) && self.used(j2)
                    && #[trigger] self.entries@[j1].obj == #[trigger] self.entries@[j2].obj implies j1
                == j2 by {
                if j1 != h && j2 != h {
                    assert(old_t.entries@[j1].obj == old_t.entries@[j2].obj);
                } else if j1 == h && j2 != h {
                    assert(old_t.used(j2));
                } else if j2 == h && j1 != h {
                    assert(old_t.used(j1));
                }
            }
        }
    }

    /// The free slot where probing for the absent `obj` ends.
    fn find_vacant(&self, obj: usize) -> (h: u64)
        requires
            self.wf_core(),
            !self@.contains_key(obj),
        ensures
            self.vacant_for(obj, h),
    {
        proof {
            self.lemma_home_bound(obj);
        }
        let mut h = Hash(obj, self.shift);
        let ghost start = h as int;
        let ghost mut d: int = 0;
        proof {
            lemma_small_mod(h as nat, self.size as nat);
        }
        loop
            invariant
                self.wf_core(),
                !self@.contains_key(obj),
                start == self.home(obj),
                0 <= start < self.size,
                0 <= d < self.size,
                h as int == self.slot(start, d),
                forall|d2: int| 0 <= d2 < d ==> #[trigger] self.used(self.slot(start, d2)),
            decreases self.size - d,
        {
            proof {
                self.lemma_slot_bounds(start, d);
                lemma_word_index(h as int, self.size as int);
            }
            if bitvect_test(&self.present, h) == 0 {
                proof {
                    assert(self.probe_clear(obj, d));
                }
                return h;
            }
            proof {
                assert(self.used(h as int));
                self.lemma_probe_continues(start, d);
                self.lemma_slot_next(start, d);
                lemma_mask_is_mod((h + 1) as u64, (64 - self.shift) as nat);
                assert forall|d2: int| 0 <= d2 < d + 1 implies #[trigger] self.used(
                    self.slot(start, d2),
                ) by {
                    if d2 == d {
                    }
                }
            }
            h = (h + 1) & self.mask;
            proof {
                d = d + 1;
            }
        }
    }

    /// Grows the table: eight times as many slots up to a million, twice as
    /// many after, and every entry moved to its place in the larger table.
    pub fn resize_position_table(&mut self)
        requires
            old(self).wf_core(),
            old(self).spec_size() as int <= usize::MAX as int / 32,
        ensures
            final(self).wf(),
            final(self)@ == old(self)@,
            old(self).spec_size() < 1000000 ==> final(self).spec_size() == old(self).spec_size() * 8
                && final(self).spec_shift() == old(self).spec_shift() - 3,
            old(self).spec_size() >= 1000000 ==> final(self).spec_size() == old(self).spec_size() * 2
                && final(self).spec_shift() == old(self).spec_shift() - 1,
            final(self).shape(),
            final(self).spec_occupied_count() == old(self)@.len(),
    {
        let ghost m = usize::MAX as int;
        proof {
            let lg = (64 - self.shift) as nat;
            if lg >= 59 {
                vstd::arithmetic::power2::lemma_pow2_strictly_increases(58, lg);
                lemma2_to64_rest();
                assert(false);
            }
            lemma2_to64();
            lemma_pow2_adds(lg, 3);
            lemma_pow2_adds(lg, 1);
        }
        let new_size: u64;
        let new_shift: u64;
        if self.size < 1000000 {
            new_size = self.size * 8;
            new_shift = self.shift - 3;
        } else {
            new_size = self.size * 2;
            new_shift = self.shift - 1;
        }
        let mut t = Self::with_size(new_size, new_shift);
        let mut i: u64 = 0;
        while i < self.size
            invariant
                self.wf_core(),
                t.wf_core(),
                t.size == new_size,
                t.shift == new_shift,
                self.size < new_size,
                0 <= i <= self.size,
                forall|k: usize|
                    #[trigger] t@.contains_key(k) <==> exists|j: int|
                        0 <= j < i && self.used(j) && #[trigger] self.entries@[j].obj == k,
                forall|k: usize| #[trigger] t@.contains_key(k) ==> t@[k] == self@[k],
                t@.dom().subset_of(self@.dom()),
            decreases self.size - i,
        {
            proof {
                lemma_word_index(i as int, self.size as int);
            }
            if bitvect_test(&self.present, i) != 0 {
                let e = self.entry(i);
                proof {
                    assert(self.used(i as int));
                    if t@.contains_key(e.obj) {
                        let j = choose|j: int|
                            0 <= j < i && self.used(j) && #[trigger] self.entries@[j].obj == e.obj;
                        assert(self.entries@[j].obj == self.entries@[i as int].obj);
                        assert(false);
                    }
                    assert(self@.contains_key(e.obj));
                    assert(t@.dom().subset_of(self@.dom().remove(e.obj)));
                    lemma_len_subset(t@.dom(), self@.dom().remove(e.obj));
                }
                let h = t.find_vacant(e.obj);
                t.set_at(e.obj, h, e.pos);
                proof {
                    assert forall|k: usize|
                        (exists|j: int|
                            0 <= j < i + 1 && self.used(j) && #[trigger] self.entries@[j].obj
                                == k) implies #[trigger] t@.contains_key(k) by {
                        if k != e.obj {
                            let j = choose|j: int|
                                0 <= j < i + 1 && self.used(j) && #[trigger] self.entries@[j].obj
                                    == k;
                            assert(j != i);
                        }
                    }
                    assert forall|k: usize|
                        #[trigger] t@.contains_key(k) implies exists|j: int|
                            0 <= j < i + 1 && self.used(j) && #[trigger] self.entries@[j].obj
                                == k by {
                        if k == e.obj {
                            assert(self.entries@[i as int].obj == k);
                        }
                    }
                }
            } else {
                proof {
                    assert forall|k: usize|
                        (exists|j: int|
                            0 <= j < i + 1 && self.used(j) && #[trigger] self.entries@[j].obj
                                == k) implies #[trigger] t@.contains_key(k) by {
                        let j = choose|j: int|
                            0 <= j < i + 1 && self.used(j) && #[trigger] self.entries@[j].obj
                                == k;
                        assert(j != i);
                    }
                }
            }
            i += 1;
        }
        proof {
            assert forall|k: usize| #[trigger] self@.contains_key(k) implies t@.contains_key(k) by {
                let j = choose|j: int|
                    0 <= j < self.size && self.used(j) && #[trigger] self.entries@[j].obj == k;
                assert(self.entries@[j].obj == k);
            }
            assert(t@ =~= self@);
            let size = self.size as int;
            let nsize = new_size as int;
            assert(size * 2 / 3 < nsize * 2 / 3) by (nonlinear_arith)
                requires
                    nsize >= 2 * size,
                    size >= 256,
            ;
        }
        *self = t;
    }

    /// The table grows before it is two-thirds full.
    pub proof fn law_below_two_thirds(&self)
        requires
            self.wf(),
        ensures
            self@.len() < self.spec_size() * 2 / 3,
            self.spec_size() >= 256,
    {
    }
}

} // verus!
