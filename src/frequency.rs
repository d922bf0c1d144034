use vstd::prelude::*;

verus! {

/// Number of count-min rows.
pub const ROWS: u64 = 4;

/// Largest value a 4-bit counter holds.
pub const MAX_COUNT: u8 = 15;

/// Largest width a sketch is built with.
pub const MAX_WIDTH: u64 = 0x2000_0000;

/// Largest number of counters a sketch is asked for.
pub const MAX_COUNTERS: u64 = 0x1000_0000;

/// The 4-bit counter held in the low (`high == false`) or high half of a byte.
pub open spec fn nibble(b: u8, high: bool) -> nat {
    if high {
        ((b >> 4u8) & 15u8) as nat
    } else {
        (b & 15u8) as nat
    }
}

/// Bit `k` of a doorkeeper word.
pub open spec fn bit(w: u64, k: u64) -> bool {
    (w >> k) & 1u64 == 1u64
}

/// The seed that makes each row hash differently.
pub open spec fn seed(row: u64) -> u64 {
    if row == 0 {
        0x9E37_79B9_7F4A_7C15u64
    } else if row == 1 {
        0xC2B2_AE3D_27D4_EB4Fu64
    } else if row == 2 {
        0x1656_67B1_9E37_79F9u64
    } else {
        0x27D4_EB2F_1656_67C5u64
    }
}

/// The counter a hash maps to in a row: a distinct 16-bit slice of the hash,
/// mixed with the row's seed.
pub open spec fn row_index(hash: u64, row: u64, width: u64) -> int {
    (((hash >> (16 * row)) ^ seed(row)) % width) as int
}

/// The doorkeeper bit a hash maps to.
pub open spec fn door_index(hash: u64, width: u64) -> int {
    ((hash ^ (hash >> 32u64)) % width) as int
}

pub open spec fn min_nat(a: nat, b: nat) -> nat {
    if a <= b { a } else { b }
}

pub proof fn lemma_min_nat_monotone(a: nat, b: nat, c: nat, d: nat)
    requires
        a <= c,
        b <= d,
    ensures
        min_nat(a, b) <= min_nat(c, d),
{
}

proof fn lemma_nibble_bound(b: u8)
    ensures
        nibble(b, false) <= 15,
        nibble(b, true) <= 15,
{
    assert((b & 15u8) <= 15u8) by (bit_vector);
    assert(((b >> 4u8) & 15u8) <= 15u8) by (bit_vector);
}

proof fn lemma_bump_low(b: u8)
    requires
        (b & 15u8) < 15u8,
    ensures
        ((b + 1u8) as u8 & 15u8) == (b & 15u8) + 1,
        (((b + 1u8) as u8 >> 4u8) & 15u8) == ((b >> 4u8) & 15u8),
        b + 1 <= 255,
{
    assert(((b + 1u8) as u8 & 15u8) == (b & 15u8) + 1 && (((b + 1u8) as u8 >> 4u8) & 15u8) == ((b >> 4u8) & 15u8) && b < 255u8) by (bit_vector)
        requires (b & 15u8) < 15u8;
}

proof fn lemma_bump_high(b: u8)
    requires
        ((b >> 4u8) & 15u8) < 15u8,
    ensures
        (((b + 16u8) as u8 >> 4u8) & 15u8) == ((b >> 4u8) & 15u8) + 1,
        ((b + 16u8) as u8 & 15u8) == (b & 15u8),
        b + 16 <= 255,
{
    assert((((b + 16u8) as u8 >> 4u8) & 15u8) == ((b >> 4u8) & 15u8) + 1 && ((b + 16u8) as u8 & 15u8) == (b & 15u8) && b < 240u8) by (bit_vector)
        requires ((b >> 4u8) & 15u8) < 15u8;
}

proof fn lemma_halve(b: u8)
    ensures
        (((b >> 1u8) & 0x77u8) & 15u8) == (b & 15u8) / 2,
        ((((b >> 1u8) & 0x77u8) >> 4u8) & 15u8) == ((b >> 4u8) & 15u8) / 2,
{
    assert((((b >> 1u8) & 0x77u8) & 15u8) == (b & 15u8) / 2) by (bit_vector);
    assert(((((b >> 1u8) & 0x77u8) >> 4u8) & 15u8) == ((b >> 4u8) & 15u8) / 2) by (bit_vector);
}

proof fn lemma_set_bit(w: u64, k: u64, j: u64)
    requires
        k < 64,
        j < 64,
    ensures
        bit(w | (1u64 << k), j) <==> (bit(w, j) || j == k),
{
    assert((((w | (1u64 << k)) >> j) & 1u64 == 1u64) <==> (((w >> j) & 1u64 == 1u64) || j == k)) by (bit_vector)
        requires k < 64, j < 64;
}

proof fn lemma_zero_bit(j: u64)
    ensures
        !bit(0u64, j),
{
    assert((0u64 >> j) & 1u64 != 1u64) by (bit_vector);
}

/// Approximate per-hash access counts: four rows of 4-bit saturating
/// counters, two to a byte, behind a doorkeeper bitset that absorbs the
/// first sighting of a hash. Counters halve and the doorkeeper clears once
/// `sample_size` increments have been seen.
pub struct FrequencySketch {
    table: Vec<u8>,
    doorkeeper: Vec<u64>,
    width: u64,
    samples: u64,
    sample_size: u64,
}

impl FrequencySketch {
    /// Bytes per row.
    pub open spec fn half(&self) -> int {
        self.spec_width() as int / 2
    }

    pub closed spec fn spec_width(&self) -> u64 {
        self.width
    }

    pub closed spec fn spec_samples(&self) -> u64 {
        self.samples
    }

    pub closed spec fn spec_sample_size(&self) -> u64 {
        self.sample_size
    }

    /// Counter `i` of row `row`.
    pub closed spec fn counter(&self, row: u64, i: int) -> nat {
        let byte = self.table@[row * self.half() + i / 2];
        nibble(byte, i % 2 == 1)
    }

    /// Doorkeeper bit `i`.
    pub closed spec fn door(&self, i: int) -> bool {
        bit(self.doorkeeper@[i / 64], (i % 64) as u64)
    }

    pub closed spec fn wf(&self) -> bool {
        &&& 2 <= self.width <= MAX_WIDTH
        &&& self.width % 2 == 0
        &&& self.table@.len() == ROWS * (self.width / 2)
        &&& self.doorkeeper@.len() == (self.width + 63) / 64
        &&& self.sample_size > 0
    }

    /// Smallest counter the hash maps to.
    pub open spec fn min_count(&self, hash: u64) -> nat {
        let w = self.spec_width();
        min_nat(
            min_nat(self.counter(0, row_index(hash, 0, w)), self.counter(1, row_index(hash, 1, w))),
            min_nat(self.counter(2, row_index(hash, 2, w)), self.counter(3, row_index(hash, 3, w))),
        )
    }

    /// What `estimate` returns: the smallest counter plus the doorkeeper bit,
    /// clamped to the counters' range.
    pub open spec fn estimate_spec(&self, hash: u64) -> nat {
        let d: nat = if self.door(door_index(hash, self.spec_width())) { 1 } else { 0 };
        min_nat(self.min_count(hash) + d, MAX_COUNT as nat)
    }

    /// Width for a requested number of counters: the next power of two, at least 2.
    pub open spec fn is_width_for(width: u64, counters: u64) -> bool {
        &&& width >= counters
        &&& width >= 2
        &&& width % 2 == 0
        &&& (width > 2 ==> width / 2 < counters)
    }

    pub fn new(counters: u64, sample_size: u64) -> (r: Self)
        requires
            0 < counters <= MAX_COUNTERS,
            sample_size > 0,
        ensures
            r.wf(),
            Self::is_width_for(r.spec_width(), counters),
            r.spec_samples() == 0,
            r.spec_sample_size() == sample_size,
            forall|row: u64, i: int| row < ROWS && 0 <= i < r.spec_width() ==> r.counter(row, i) == 0,
            forall|i: int| 0 <= i < r.spec_width() ==> !r.door(i),
    {
        let mut width: u64 = 2;
        while width < counters
            invariant
                2 <= width <= 2 * counters,
                width % 2 == 0,
                width > 2 ==> width / 2 < counters,
                counters <= MAX_COUNTERS,
            decreases MAX_WIDTH - width,
        {
            width = width * 2;
        }
        let bytes: usize = (ROWS * (width / 2)) as usize;
        let mut table: Vec<u8> = Vec::new();
        while table.len() < bytes
            invariant
                table@.len() <= bytes,
                forall|j: int| 0 <= j < table@.len() ==> table@[j] == 0u8,
            decreases bytes - table@.len(),
        {
            table.push(0u8);
        }
        let words: usize = ((width + 63) / 64) as usize;
        let mut doorkeeper: Vec<u64> = Vec::new();
        while doorkeeper.len() < words
            invariant
                doorkeeper@.len() <= words,
                forall|j: int| 0 <= j < doorkeeper@.len() ==> doorkeeper@[j] == 0u64,
            decreases words - doorkeeper@.len(),
        {
            doorkeeper.push(0u64);
        }
        let r = FrequencySketch { table, doorkeeper, width, samples: 0, sample_size };
        proof {
            assert(nibble(0u8, false) == 0 && nibble(0u8, true) == 0) by {
                assert((0u8 & 15u8) == 0u8 && ((0u8 >> 4u8) & 15u8) == 0u8) by (bit_vector);
            }
            assert forall|row: u64, i: int| row < ROWS && 0 <= i < r.spec_width() implies r.counter(row, i) == 0 by {
                assert(row * r.half() + i / 2 < ROWS * r.half()) by (nonlinear_arith)
                    requires row < ROWS, 0 <= i < r.spec_width(), r.spec_width() == 2 * r.half();
                assert(0 <= row * r.half()) by (nonlinear_arith)
                    requires r.half() >= 0;
                assert(r.table@[row * r.half() + i / 2] == 0u8);
            }
            assert forall|i: int| 0 <= i < r.spec_width() implies !r.door(i) by {
                lemma_zero_bit((i % 64) as u64);
                assert(r.doorkeeper@[i / 64] == 0u64);
            }
        }
        r
    }

    pub fn width(&self) -> (r: u64)
        ensures
            r == self.spec_width(),
    {
        self.width
    }

    fn row_index_of(&self, hash: u64, row: u64) -> (r: usize)
        requires
            self.wf(),
            row < ROWS,
        ensures
            r as int == row_index(hash, row, self.spec_width()),
            r < self.spec_width(),
    {
        let s: u64 = if row == 0 {
            0x9E37_79B9_7F4A_7C15u64
        } else if row == 1 {
            0xC2B2_AE3D_27D4_EB4Fu64
        } else if row == 2 {
            0x1656_67B1_9E37_79F9u64
        } else {
            0x27D4_EB2F_1656_67C5u64
        };
        (((hash >> (16 * row)) ^ s) % self.width) as usize
    }

    fn door_index_of(&self, hash: u64) -> (r: usize)
        requires
            self.wf(),
        ensures
            r as int == door_index(hash, self.spec_width()),
            r < self.spec_width(),
    {
        ((hash ^ (hash >> 32u64)) % self.width) as usize
    }

    fn counter_at(&self, row: u64, i: usize) -> (r: u8)
        requires
            self.wf(),
            row < ROWS,
            i < self.spec_width(),
        ensures
            r as nat == self.counter(row, i as int),
            r <= MAX_COUNT,
    {
        let half = self.width / 2;
        proof {
            assert(row * half + i as int / 2 < ROWS * half) by (nonlinear_arith)
                requires row < ROWS, i < self.width, self.width == 2 * half;
            assert(row * half <= ROWS * half) by (nonlinear_arith)
                requires row < ROWS;
        }
        let idx: usize = (row * half) as usize + i / 2;
        assert(idx as int == row * self.half() + i as int / 2);
        let byte = self.table[idx];
        proof { lemma_nibble_bound(byte); }
        if i % 2 == 1 {
            (byte >> 4u8) & 15u8
        } else {
            byte & 15u8
        }
    }

    fn door_at(&self, i: usize) -> (r: bool)
        requires
            self.wf(),
            i < self.spec_width(),
        ensures
            r == self.door(i as int),
    {
        (self.doorkeeper[i / 64] >> ((i % 64) as u64)) & 1u64 == 1u64
    }

    /// Current estimate of how often `hash` was seen in this window.
    pub fn estimate(&self, hash: u64) -> (r: u8)
        requires
            self.wf(),
        ensures
            r as nat == self.estimate_spec(hash),
            r <= MAX_COUNT,
    {
        let c0 = self.counter_at(0, self.row_index_of(hash, 0));
        let c1 = self.counter_at(1, self.row_index_of(hash, 1));
        let c2 = self.counter_at(2, self.row_index_of(hash, 2));
        let c3 = self.counter_at(3, self.row_index_of(hash, 3));
        let m01 = if c0 <= c1 { c0 } else { c1 };
        let m23 = if c2 <= c3 { c2 } else { c3 };
        let m = if m01 <= m23 { m01 } else { m23 };
        let d: u8 = if self.door_at(self.door_index_of(hash)) { 1 } else { 0 };
        if m + d >= MAX_COUNT { MAX_COUNT } else { m + d }
    }

    /// `after` is `before` with one more sighting of `hash`: a first sighting
    /// only sets its doorkeeper bit; a later one bumps its counter in every
    /// row, saturating at the maximum.
    pub open spec fn incremented(before: Self, after: Self, hash: u64) -> bool {
        let w = before.spec_width();
        let seen = before.door(door_index(hash, w));
        &&& after.wf()
        &&& after.spec_width() == w
        &&& after.spec_sample_size() == before.spec_sample_size()
        &&& after.spec_samples() == if before.spec_samples() < u64::MAX {
            (before.spec_samples() + 1) as u64
        } else {
            before.spec_samples()
        }
        &&& forall|i: int| 0 <= i < w ==> #[trigger] after.door(i) == (before.door(i) || i == door_index(hash, w))
        &&& forall|row: u64, i: int|
            row < ROWS && 0 <= i < w ==> #[trigger] after.counter(row, i) == if seen && i == row_index(hash, row, w)
                && before.counter(row, i) < MAX_COUNT {
                before.counter(row, i) + 1
            } else {
                before.counter(row, i)
            }
    }

    /// `after` is `before` aged: every counter halved (rounding down), the
    /// doorkeeper cleared and the sample count restarted.
    pub open spec fn halved(before: Self, after: Self) -> bool {
        let w = before.spec_width();
        &&& after.wf()
        &&& after.spec_width() == w
        &&& after.spec_sample_size() == before.spec_sample_size()
        &&& after.spec_samples() == 0
        &&& forall|i: int| 0 <= i < w ==> !#[trigger] after.door(i)
        &&& forall|row: u64, i: int|
            row < ROWS && 0 <= i < w ==> #[trigger] after.counter(row, i) == before.counter(row, i) / 2
    }

    proof fn lemma_byte_of(half: int, r1: u64, i1: int, r2: u64, i2: int)
        requires
            half > 0,
            r1 < ROWS,
            r2 < ROWS,
            0 <= i1 < 2 * half,
            0 <= i2 < 2 * half,
            r1 * half + i1 / 2 == r2 * half + i2 / 2,
        ensures
            r1 == r2,
            i1 / 2 == i2 / 2,
    {
        assert(r1 == r2) by (nonlinear_arith)
            requires
                half > 0,
                0 <= i1 / 2 < half,
                0 <= i2 / 2 < half,
                r1 * half + i1 / 2 == r2 * half + i2 / 2;
    }

    fn bump(&mut self, row: u64, i: usize)
        requires
            old(self).wf(),
            row < ROWS,
            i < old(self).spec_width(),
        ensures
            final(self).wf(),
            final(self).spec_width() == old(self).spec_width(),
            final(self).spec_sample_size() == old(self).spec_sample_size(),
            final(self).spec_samples() == old(self).spec_samples(),
            final(self).doorkeeper == old(self).doorkeeper,
            forall|r2: u64, i2: int|
                r2 < ROWS && 0 <= i2 < old(self).spec_width() ==> #[trigger] final(self).counter(r2, i2) == if r2 == row && i2 == i
                    && old(self).counter(r2, i2) < MAX_COUNT {
                    old(self).counter(r2, i2) + 1
                } else {
                    old(self).counter(r2, i2)
                },
    {
        let half = self.width / 2;
        proof {
            assert(row * half + i as int / 2 < ROWS * half) by (nonlinear_arith)
                requires row < ROWS, i < self.width, self.width == 2 * half;
            assert(row * half <= ROWS * half) by (nonlinear_arith)
                requires row < ROWS;
        }
        let idx: usize = (row * half) as usize + i / 2;
        let byte = self.table[idx];
        let high = i % 2 == 1;
        let ghost before = *self;
        if high {
            if (byte >> 4u8) & 15u8 < 15u8 {
                proof { lemma_bump_high(byte); }
                self.table.set(idx, byte + 16u8);
            } else {
                proof { lemma_nibble_bound(byte); }
            }
        } else {
            if byte & 15u8 < 15u8 {
                proof { lemma_bump_low(byte); }
                self.table.set(idx, byte + 1u8);
            } else {
                proof { lemma_nibble_bound(byte); }
            }
        }
        proof {
            let newb = self.table@[idx as int];
            assert(nibble(newb, high) == if nibble(byte, high) < MAX_COUNT { nibble(byte, high) + 1 } else { nibble(byte, high) });
            assert(nibble(newb, !high) == nibble(byte, !high));
            assert forall|r2: u64, i2: int| r2 < ROWS && 0 <= i2 < before.spec_width() implies #[trigger] self.counter(r2, i2) == if r2 == row && i2 == i
                && before.counter(r2, i2) < MAX_COUNT {
                before.counter(r2, i2) + 1
            } else {
                before.counter(r2, i2)
            } by {
                let j = r2 * self.half() + i2 / 2;
                assert(0 <= r2 * self.half() + i2 / 2 < ROWS * self.half()) by (nonlinear_arith)
                    requires r2 < ROWS, 0 <= i2 < 2 * self.half(), self.half() > 0;
                if j == idx as int {
                    Self::lemma_byte_of(self.half(), r2, i2, row, i as int);
                    assert((i2 % 2 == 1) == high <==> i2 == i);
                } else {
                    assert(self.table@[j] == before.table@[j]);
                }
            }
        }
    }

    fn set_door(&mut self, d: usize)
        requires
            old(self).wf(),
            d < old(self).spec_width(),
        ensures
            final(self).wf(),
            final(self).spec_width() == old(self).spec_width(),
            final(self).spec_sample_size() == old(self).spec_sample_size(),
            final(self).spec_samples() == old(self).spec_samples(),
            final(self).table == old(self).table,
            forall|j: int| 0 <= j < old(self).spec_width() ==> #[trigger] final(self).door(j) == (old(self).door(j) || j == d),
    {
        let w = self.doorkeeper[d / 64];
        let k: u64 = (d % 64) as u64;
        let ghost before = *self;
        self.doorkeeper.set(d / 64, w | (1u64 << k));
        proof {
            assert forall|j: int| 0 <= j < before.spec_width() implies #[trigger] self.door(j) == (before.door(j) || j == d) by {
                if j / 64 == d as int / 64 {
                    lemma_set_bit(w, k, (j % 64) as u64);
                }
            }
        }
    }

    /// Records one sighting of `hash`.
    pub fn increment(&mut self, hash: u64)
        requires
            old(self).wf(),
        ensures
            Self::incremented(*old(self), *final(self), hash),
    {
        let ghost before = *self;
        let d = self.door_index_of(hash);
        if !self.door_at(d) {
            self.set_door(d);
            proof {
                let w = before.spec_width();
                assert forall|row: u64, i: int| row < ROWS && 0 <= i < w implies #[trigger] self.counter(row, i) == before.counter(row, i) by {
                    assert(self.table == before.table);
                }
            }
        } else {
            let i0 = self.row_index_of(hash, 0);
            self.bump(0, i0);
            let ghost s1 = *self;
            let i1 = self.row_index_of(hash, 1);
            self.bump(1, i1);
            let ghost s2 = *self;
            let i2 = self.row_index_of(hash, 2);
            self.bump(2, i2);
            let ghost s3 = *self;
            let i3 = self.row_index_of(hash, 3);
            self.bump(3, i3);
            proof {
                let w = before.spec_width();
                assert forall|row: u64, i: int| row < ROWS && 0 <= i < w implies #[trigger] self.counter(row, i) == if i == row_index(hash, row, w)
                    && before.counter(row, i) < MAX_COUNT {
                    before.counter(row, i) + 1
                } else {
                    before.counter(row, i)
                } by {
                    assert(s1.counter(row, i) == if row == 0 && i == i0 && before.counter(row, i) < MAX_COUNT { before.counter(row, i) + 1 } else { before.counter(row, i) });
                    assert(s2.counter(row, i) == if row == 1 && i == i1 && s1.counter(row, i) < MAX_COUNT { s1.counter(row, i) + 1 } else { s1.counter(row, i) });
                    assert(s3.counter(row, i) == if row == 2 && i == i2 && s2.counter(row, i) < MAX_COUNT { s2.counter(row, i) + 1 } else { s2.counter(row, i) });
                    assert(self.counter(row, i) == if row == 3 && i == i3 && s3.counter(row, i) < MAX_COUNT { s3.counter(row, i) + 1 } else { s3.counter(row, i) });
                }
                assert forall|j: int| 0 <= j < w implies #[trigger] self.door(j) == before.door(j) by {
                    assert(self.doorkeeper == before.doorkeeper);
                }
            }
        }
        let ghost mid = *self;
        if self.samples < u64::MAX {
            self.samples = self.samples + 1;
        }
        proof {
            let w = before.spec_width();
            assert forall|i: int| 0 <= i < w implies #[trigger] self.door(i) == (before.door(i) || i == d) by {
                assert(self.door(i) == mid.door(i));
            }
            assert forall|row: u64, i: int| row < ROWS && 0 <= i < w implies #[trigger] self.counter(row, i) == mid.counter(row, i) by {
            }
        }
    }

    pub fn samples(&self) -> (r: u64)
        ensures
            r == self.spec_samples(),
    {
        self.samples
    }

    pub fn sample_size(&self) -> (r: u64)
        ensures
            r == self.spec_sample_size(),
    {
        self.sample_size
    }

    /// Halves every counter and clears the doorkeeper.
    pub fn reset(&mut self)
        requires
            old(self).wf(),
        ensures
            Self::halved(*old(self), *final(self)),
    {
        let ghost before = *self;
        let n = self.table.len();
        let mut j: usize = 0;
        while j < n
            invariant
                self.wf(),
                n == self.table@.len(),
                j <= n,
                self.width == before.width,
                self.sample_size == before.sample_size,
                self.samples == before.samples,
                self.doorkeeper == before.doorkeeper,
                forall|k: int| 0 <= k < j ==> nibble(#[trigger] self.table@[k], false) == nibble(before.table@[k], false) / 2
                    && nibble(self.table@[k], true) == nibble(before.table@[k], true) / 2,
                forall|k: int| j <= k < n ==> #[trigger] self.table@[k] == before.table@[k],
            decreases n - j,
        {
            let b = self.table[j];
            proof { lemma_halve(b); }
            self.table.set(j, (b >> 1u8) & 0x77u8);
            j = j + 1;
        }
        let ghost halved_table = self.table@;
        let words = self.doorkeeper.len();
        let mut k: usize = 0;
        while k < words
            invariant
                self.wf(),
                self.table@ == halved_table,
                words == self.doorkeeper@.len(),
                k <= words,
                self.width == before.width,
                self.sample_size == before.sample_size,
                forall|m: int| 0 <= m < k ==> #[trigger] self.doorkeeper@[m] == 0u64,
            decreases words - k,
        {
            self.doorkeeper.set(k, 0u64);
            k = k + 1;
        }
        self.samples = 0;
        proof {
            assert forall|row: u64, i: int| row < ROWS && 0 <= i < before.spec_width() implies #[trigger] self.counter(row, i) == before.counter(row, i) / 2 by {
                assert(row * self.half() + i / 2 < ROWS * self.half()) by (nonlinear_arith)
                    requires row < ROWS, 0 <= i < self.spec_width(), self.spec_width() == 2 * self.half();
                assert(0 <= row * self.half()) by (nonlinear_arith)
                    requires self.half() >= 0;
                let k = row * self.half() + i / 2;
                assert(nibble(halved_table[k], false) == nibble(before.table@[k], false) / 2);
            }
            assert forall|i: int| 0 <= i < before.spec_width() implies !#[trigger] self.door(i) by {
                lemma_zero_bit((i % 64) as u64);
            }
        }
    }

    /// Ages the sketch once the sample count has reached the sample size.
    pub fn reset_if_due(&mut self) -> (r: bool)
        requires
            old(self).wf(),
        ensures
            r == (old(self).spec_samples() >= old(self).spec_sample_size()),
            r ==> Self::halved(*old(self), *final(self)),
            !r ==> *final(self) == *old(self),
    {
        if self.samples >= self.sample_size {
            self.reset();
            true
        } else {
            false
        }
    }
}

} // verus!

verus! {

/// Between two resets, recording a sighting never lowers the estimate of
/// any hash.
pub proof fn lemma_increment_never_lowers_estimate(
    before: FrequencySketch,
    after: FrequencySketch,
    hash: u64,
    other: u64,
)
    requires
        before.wf(),
        FrequencySketch::incremented(before, after, hash),
    ensures
        after.estimate_spec(other) >= before.estimate_spec(other),
{
    let w = before.spec_width();
    let i0 = row_index(other, 0, w);
    let i1 = row_index(other, 1, w);
    let i2 = row_index(other, 2, w);
    let i3 = row_index(other, 3, w);
    assert(after.counter(0, i0) >= before.counter(0, i0));
    assert(after.counter(1, i1) >= before.counter(1, i1));
    assert(after.counter(2, i2) >= before.counter(2, i2));
    assert(after.counter(3, i3) >= before.counter(3, i3));
    lemma_min_nat_monotone(before.counter(0, i0), before.counter(1, i1), after.counter(0, i0), after.counter(1, i1));
    lemma_min_nat_monotone(before.counter(2, i2), before.counter(3, i3), after.counter(2, i2), after.counter(3, i3));
    lemma_min_nat_monotone(
        min_nat(before.counter(0, i0), before.counter(1, i1)),
        min_nat(before.counter(2, i2), before.counter(3, i3)),
        min_nat(after.counter(0, i0), after.counter(1, i1)),
        min_nat(after.counter(2, i2), after.counter(3, i3)),
    );
    let d = door_index(other, w);
    assert(before.door(d) ==> after.door(d));
}

} // verus!
