//! CRC-32C (Castagnoli) checksum.
//!
//! The checksum is defined bit by bit; the implementation works on sixteen bytes at a
//! time with precomputed tables and is proved to compute the same value.

use vstd::prelude::*;

verus! {

/// The reflected Castagnoli polynomial.
pub const POLYNOMIAL: u32 = 0x82F6_3B78;

/// How many bytes the table-driven loop consumes per iteration.
const SLICE: usize = 16;

/// One step of the bitwise division.
pub open spec fn crc_bit(crc: u32) -> u32 {
    if crc & 1 == 0 {
        crc >> 1
    } else {
        (crc >> 1) ^ POLYNOMIAL
    }
}

/// `n` steps of the bitwise division.
pub open spec fn crc_bits(crc: u32, n: nat) -> u32
    decreases n,
{
    if n == 0 {
        crc
    } else {
        crc_bit(crc_bits(crc, (n - 1) as nat))
    }
}

/// The register after one more message byte.
pub open spec fn crc_byte(crc: u32, byte: u8) -> u32 {
    crc_bits(crc ^ (byte as u32), 8)
}

/// The register after the message bytes `data`, starting from `crc`.
pub open spec fn crc_register(crc: u32, data: Seq<u8>) -> u32
    decreases data.len(),
{
    if data.len() == 0 {
        crc
    } else {
        crc_byte(crc_register(crc, data.drop_last()), data.last())
    }
}

/// The CRC-32C checksum of `data`.
pub open spec fn crc32c_spec(data: Seq<u8>) -> u32 {
    !crc_register(0xFFFF_FFFF, data)
}

/// Feeding two pieces one after the other is feeding their concatenation.
pub proof fn crc_register_concat(crc: u32, left: Seq<u8>, right: Seq<u8>)
    ensures
        crc_register(crc_register(crc, left), right) == crc_register(crc, left + right),
    decreases right.len(),
{
    if right.len() == 0 {
        assert(left + right =~= left);
    } else {
        crc_register_concat(crc, left, right.drop_last());
        assert((left + right).drop_last() =~= left + right.drop_last());
        assert((left + right).last() == right.last());
    }
}

proof fn crc_bits_plus(crc: u32, m: nat, n: nat)
    ensures
        crc_bits(crc_bits(crc, m), n) == crc_bits(crc, m + n),
    decreases n,
{
    if n > 0 {
        crc_bits_plus(crc, m, (n - 1) as nat);
        assert((m + n - 1) as nat == m + (n - 1) as nat);
    }
}

proof fn crc_bits_xor(a: u32, b: u32, n: nat)
    ensures
        crc_bits(a ^ b, n) == crc_bits(a, n) ^ crc_bits(b, n),
    decreases n,
{
    if n > 0 {
        crc_bits_xor(a, b, (n - 1) as nat);
        let x = crc_bits(a, (n - 1) as nat);
        let y = crc_bits(b, (n - 1) as nat);
        assert(crc_bit(x ^ y) == crc_bit(x) ^ crc_bit(y)) by (bit_vector);
    }
}

pub(crate) proof fn crc_bits_eight(crc: u32)
    ensures
        crc_bits(crc, 8) == crc_bit(crc_bit(crc_bit(crc_bit(crc_bit(crc_bit(crc_bit(crc_bit(crc)))))))),
{
    reveal_with_fuel(crc_bits, 9);
}

/// A register whose low byte is zero is shifted down by one byte.
proof fn crc_bits_shift(x: u32)
    requires
        x <= 0xFF_FFFF,
    ensures
        crc_bits(x << 8, 8) == x,
{
    crc_bits_eight(x << 8);
    assert(x <= 0xFF_FFFF ==> crc_bit(
        crc_bit(crc_bit(crc_bit(crc_bit(crc_bit(crc_bit(crc_bit(x << 8))))))),
    ) == x) by (bit_vector);
}

/// The step that each slice of the table makes from the one before it.
proof fn crc_bits_table_step(prev: u32)
    ensures
        crc_bits(prev, 8) == (prev >> 8) ^ crc_bits(prev & 0xFF, 8),
{
    let high = prev >> 8;
    assert(high <= 0xFF_FFFF) by (bit_vector)
        requires
            high == prev >> 8,
    ;
    assert(prev == (high << 8) ^ (prev & 0xFF)) by (bit_vector)
        requires
            high == prev >> 8,
    ;
    crc_bits_xor(high << 8, prev & 0xFF, 8);
    crc_bits_shift(high);
}

/// The little-endian word made of four bytes.
spec fn word(b0: u8, b1: u8, b2: u8, b3: u8) -> u32 {
    (b0 as u32) | ((b1 as u32) << 8) | ((b2 as u32) << 16) | ((b3 as u32) << 24)
}

/// The contribution of a little-endian word that is followed by `m` further bits.
proof fn crc_bits_word(w: u32, m: nat)
    ensures
        crc_bits(w, m + 32) == crc_bits(w & 0xFF, m + 32) ^ crc_bits((w >> 8) & 0xFF, m + 24)
            ^ crc_bits((w >> 16) & 0xFF, m + 16) ^ crc_bits(w >> 24, m + 8),
{
    let x0 = w & 0xFF;
    let x1 = (w >> 8) & 0xFF;
    let x2 = (w >> 16) & 0xFF;
    let x3 = w >> 24;
    // Horner form: one byte is peeled off the low end at each step.
    let y2 = x2 ^ (x3 << 8);
    let y1 = x1 ^ (y2 << 8);
    assert(w == x0 ^ (y1 << 8) && y1 <= 0xFF_FFFF && y2 <= 0xFFFF && x3 <= 0xFF) by (bit_vector)
        requires
            x0 == w & 0xFF,
            x1 == (w >> 8) & 0xFF,
            x2 == (w >> 16) & 0xFF,
            x3 == w >> 24,
            y2 == x2 ^ (x3 << 8),
            y1 == x1 ^ (y2 << 8),
    ;
    crc_bits_xor(x0, y1 << 8, m + 32);
    crc_bits_shift(y1);
    crc_bits_plus(y1 << 8, 8, m + 24);
    crc_bits_xor(x1, y2 << 8, m + 24);
    crc_bits_shift(y2);
    crc_bits_plus(y2 << 8, 8, m + 16);
    crc_bits_xor(x2, x3 << 8, m + 16);
    crc_bits_shift(x3);
    crc_bits_plus(x3 << 8, 8, m + 8);
    let a = crc_bits(x0, m + 32);
    let b = crc_bits(x1, m + 24);
    let c = crc_bits(x2, m + 16);
    let d = crc_bits(x3, m + 8);
    assert(a ^ (b ^ (c ^ d)) == a ^ b ^ c ^ d) by (bit_vector);
}

/// Four message bytes enter the register as one word.
proof fn crc_register_word(crc: u32, b0: u8, b1: u8, b2: u8, b3: u8)
    ensures
        crc_byte(crc_byte(crc_byte(crc_byte(crc, b0), b1), b2), b3) == crc_bits(
            crc ^ word(b0, b1, b2, b3),
            32,
        ),
{
    let w = word(b0, b1, b2, b3);
    let (c0, c1, c2, c3) = (b0 as u32, b1 as u32, b2 as u32, b3 as u32);
    assert(w & 0xFF == c0 && (w >> 8) & 0xFF == c1 && (w >> 16) & 0xFF == c2 && w >> 24 == c3)
        by (bit_vector)
        requires
            c0 <= 0xFF,
            c1 <= 0xFF,
            c2 <= 0xFF,
            c3 <= 0xFF,
            w == c0 | (c1 << 8) | (c2 << 16) | (c3 << 24),
    ;
    let r1 = crc_byte(crc, b0);
    let r2 = crc_byte(r1, b1);
    let r3 = crc_byte(r2, b2);
    crc_bits_xor(crc, c0, 8);
    crc_bits_xor(r1, c1, 8);
    crc_bits_xor(r2, c2, 8);
    crc_bits_xor(r3, c3, 8);
    // Push every earlier contribution through the later steps.
    crc_bits_xor(crc_bits(crc, 8), crc_bits(c0, 8), 8);
    crc_bits_plus(crc, 8, 8);
    crc_bits_plus(c0, 8, 8);
    crc_bits_xor(crc_bits(crc, 16) ^ crc_bits(c0, 16), crc_bits(c1, 8), 8);
    crc_bits_xor(crc_bits(crc, 16), crc_bits(c0, 16), 8);
    crc_bits_plus(crc, 16, 8);
    crc_bits_plus(c0, 16, 8);
    crc_bits_plus(c1, 8, 8);
    crc_bits_xor(crc_bits(crc, 24) ^ crc_bits(c0, 24) ^ crc_bits(c1, 16), crc_bits(c2, 8), 8);
    crc_bits_xor(crc_bits(crc, 24) ^ crc_bits(c0, 24), crc_bits(c1, 16), 8);
    crc_bits_xor(crc_bits(crc, 24), crc_bits(c0, 24), 8);
    crc_bits_plus(crc, 24, 8);
    crc_bits_plus(c0, 24, 8);
    crc_bits_plus(c1, 16, 8);
    crc_bits_plus(c2, 8, 8);
    crc_bits_xor(crc, w, 32);
    crc_bits_word(w, 0);
    let k = crc_bits(crc, 32);
    let p = crc_bits(c0, 32);
    let q = crc_bits(c1, 24);
    let r = crc_bits(c2, 16);
    let s = crc_bits(c3, 8);
    assert(k ^ p ^ q ^ r ^ s == k ^ (p ^ q ^ r ^ s)) by (bit_vector);
}

/// Four words enter the register: the closed form that the table-driven loop evaluates.
proof fn crc_register_four_words(crc: u32, w0: u32, w1: u32, w2: u32, w3: u32)
    ensures
        crc_bits(crc_bits(crc_bits(crc_bits(crc ^ w0, 32) ^ w1, 32) ^ w2, 32) ^ w3, 32)
            == crc_bits(crc ^ w0, 128) ^ crc_bits(w1, 96) ^ crc_bits(w2, 64) ^ crc_bits(w3, 32),
{
    let x = crc ^ w0;
    crc_bits_xor(crc_bits(x, 32), w1, 32);
    crc_bits_plus(x, 32, 32);
    crc_bits_xor(crc_bits(x, 64) ^ crc_bits(w1, 32), w2, 32);
    crc_bits_xor(crc_bits(x, 64), crc_bits(w1, 32), 32);
    crc_bits_plus(x, 64, 32);
    crc_bits_plus(w1, 32, 32);
    crc_bits_xor(crc_bits(x, 96) ^ crc_bits(w1, 64) ^ crc_bits(w2, 32), w3, 32);
    crc_bits_xor(crc_bits(x, 96) ^ crc_bits(w1, 64), crc_bits(w2, 32), 32);
    crc_bits_xor(crc_bits(x, 96), crc_bits(w1, 64), 32);
    crc_bits_plus(x, 96, 32);
    crc_bits_plus(w1, 64, 32);
    crc_bits_plus(w2, 32, 32);
}

/// Row `slice` of the table: the contribution of each byte value that is followed by
/// `slice` further bytes.
spec fn is_table_row(row: Seq<u32>, slice: int) -> bool {
    &&& row.len() == 256
    &&& forall|i: int| 0 <= i < 256 ==> #[trigger] row[i] == crc_bits(i as u32, (8 * (slice + 1)) as nat)
}

spec fn is_table(table: Seq<Vec<u32>>) -> bool {
    &&& table.len() == SLICE
    &&& forall|slice: int| 0 <= slice < SLICE ==> is_table_row((#[trigger] table[slice])@, slice)
}

fn make_first_row() -> (row: Vec<u32>)
    ensures
        is_table_row(row@, 0),
{
    let mut row: Vec<u32> = Vec::new();
    let mut i: u32 = 0;
    while i < 256
        invariant
            i <= 256,
            row@.len() == i,
            forall|j: int| 0 <= j < i ==> #[trigger] row@[j] == crc_bits(j as u32, 8),
        decreases 256 - i,
    {
        let mut crc: u32 = i;
        let mut bit: u32 = 0;
        while bit < 8
            invariant
                bit <= 8,
                crc == crc_bits(i, bit as nat),
            decreases 8 - bit,
        {
            crc = if crc & 1 == 0 {
                crc >> 1
            } else {
                (crc >> 1) ^ POLYNOMIAL
            };
            bit = bit + 1;
        }
        row.push(crc);
        i = i + 1;
    }
    row
}

fn make_table() -> (table: Vec<Vec<u32>>)
    ensures
        is_table(table@),
{
    let mut table: Vec<Vec<u32>> = Vec::new();
    table.push(make_first_row());
    let mut slice: usize = 1;
    while slice < SLICE
        invariant
            1 <= slice <= SLICE,
            table@.len() == slice,
            forall|k: int| 0 <= k < slice ==> is_table_row((#[trigger] table@[k])@, k),
        decreases SLICE - slice,
    {
        let mut row: Vec<u32> = Vec::new();
        let mut i: usize = 0;
        assert(is_table_row(table@[0]@, 0));
        assert(is_table_row(table@[slice - 1]@, slice - 1));
        while i < 256
            invariant
                i <= 256,
                1 <= slice < SLICE,
                table@.len() == slice,
                is_table_row(table@[0]@, 0),
                is_table_row(table@[slice - 1]@, slice - 1),
                row@.len() == i,
                forall|j: int| 0 <= j < i ==> #[trigger] row@[j] == crc_bits(
                    j as u32,
                    (8 * (slice + 1)) as nat,
                ),
            decreases 256 - i,
        {
            let prev: u32 = table[slice - 1][i];
            let low: usize = (prev & 0xFF) as usize;
            assert(prev & 0xFF <= 0xFF) by (bit_vector);
            let entry: u32 = (prev >> 8) ^ table[0][low];
            proof {
                crc_bits_table_step(prev);
                crc_bits_plus(i as u32, (8 * slice) as nat, 8);
                assert((8 * slice) as nat + 8 == (8 * (slice + 1)) as nat);
                assert(low as u32 == prev & 0xFF);
            }
            row.push(entry);
            i = i + 1;
        }
        table.push(row);
        slice = slice + 1;
    }
    table
}

/// Reads the little-endian word at `at`.
fn read_word(data: &[u8], at: usize) -> (w: u32)
    requires
        at + 4 <= data.len(),
    ensures
        w == word(data@[at as int], data@[at + 1], data@[at + 2], data@[at + 3]),
{
    (data[at] as u32) | ((data[at + 1] as u32) << 8) | ((data[at + 2] as u32) << 16) | ((data[at + 3] as u32) << 24)
}

/// The register after four more bytes, as one word.
proof fn crc_register_push_word(crc: u32, data: Seq<u8>, at: int)
    requires
        0 <= at,
        at + 4 <= data.len(),
    ensures
        crc_register(crc, data.take(at + 4)) == crc_bits(
            crc_register(crc, data.take(at)) ^ word(data[at], data[at + 1], data[at + 2], data[at + 3]),
            32,
        ),
{
    assert(data.take(at + 1).drop_last() =~= data.take(at));
    assert(data.take(at + 2).drop_last() =~= data.take(at + 1));
    assert(data.take(at + 3).drop_last() =~= data.take(at + 2));
    assert(data.take(at + 4).drop_last() =~= data.take(at + 3));
    let r = crc_register(crc, data.take(at));
    assert(crc_register(crc, data.take(at + 1)) == crc_byte(r, data[at]));
    assert(crc_register(crc, data.take(at + 2)) == crc_byte(crc_byte(r, data[at]), data[at + 1]));
    assert(crc_register(crc, data.take(at + 3)) == crc_byte(
        crc_byte(crc_byte(r, data[at]), data[at + 1]),
        data[at + 2],
    ));
    crc_register_word(r, data[at], data[at + 1], data[at + 2], data[at + 3]);
}

/// Streaming CRC-32C checksum.
///
/// The view is the register: the remainder before the final complement.
#[derive(Debug)]
pub struct Crc32c {
    state: u32,
    table: Vec<Vec<u32>>,
}

impl View for Crc32c {
    type V = u32;

    closed spec fn view(&self) -> u32 {
        self.state
    }
}

impl Default for Crc32c {
    fn default() -> (crc: Self)
        ensures
            crc@ == 0xFFFF_FFFFu32,
    {
        Self::new()
    }
}

impl Crc32c {
    #[verifier::type_invariant]
    spec fn table_is_valid(&self) -> bool {
        is_table(self.table@)
    }

    /// Creates a new CRC-32C accumulator.
    pub fn new() -> (crc: Self)
        ensures
            crc@ == 0xFFFF_FFFFu32,
    {
        Self { state: 0xFFFF_FFFF, table: make_table() }
    }

    /// The register after the sixteen bytes at `at`.
    fn update_block(&self, crc: u32, data: &[u8], at: usize) -> (next: u32)
        requires
            at + SLICE <= data.len(),
        ensures
            forall|start: u32|
                crc == crc_register(start, data@.take(at as int)) ==> next == #[trigger] crc_register(
                    start,
                    data@.take(at + SLICE),
                ),
    {
        let table = &self.table;
        let w0: u32 = read_word(data, at) ^ crc;
        let w1: u32 = read_word(data, at + 4);
        let w2: u32 = read_word(data, at + 8);
        let w3: u32 = read_word(data, at + 12);
        proof {
            use_type_invariant(&*self);
            assert(w0 & 0xFF <= 0xFF && (w0 >> 8) & 0xFF <= 0xFF && (w0 >> 16) & 0xFF <= 0xFF && w0
                >> 24 <= 0xFF) by (bit_vector);
            assert(w1 & 0xFF <= 0xFF && (w1 >> 8) & 0xFF <= 0xFF && (w1 >> 16) & 0xFF <= 0xFF && w1
                >> 24 <= 0xFF) by (bit_vector);
            assert(w2 & 0xFF <= 0xFF && (w2 >> 8) & 0xFF <= 0xFF && (w2 >> 16) & 0xFF <= 0xFF && w2
                >> 24 <= 0xFF) by (bit_vector);
            assert(w3 & 0xFF <= 0xFF && (w3 >> 8) & 0xFF <= 0xFF && (w3 >> 16) & 0xFF <= 0xFF && w3
                >> 24 <= 0xFF) by (bit_vector);
            assert forall|k: int| 0 <= k < SLICE implies is_table_row((#[trigger] table@[k])@, k) by {}
        }
        let p0: u32 = table[15][(w0 & 0xFF) as usize] ^ table[14][((w0 >> 8) & 0xFF) as usize]
            ^ table[13][((w0 >> 16) & 0xFF) as usize] ^ table[12][(w0 >> 24) as usize];
        let p1: u32 = table[11][(w1 & 0xFF) as usize] ^ table[10][((w1 >> 8) & 0xFF) as usize]
            ^ table[9][((w1 >> 16) & 0xFF) as usize] ^ table[8][(w1 >> 24) as usize];
        let p2: u32 = table[7][(w2 & 0xFF) as usize] ^ table[6][((w2 >> 8) & 0xFF) as usize]
            ^ table[5][((w2 >> 16) & 0xFF) as usize] ^ table[4][(w2 >> 24) as usize];
        let p3: u32 = table[3][(w3 & 0xFF) as usize] ^ table[2][((w3 >> 8) & 0xFF) as usize]
            ^ table[1][((w3 >> 16) & 0xFF) as usize] ^ table[0][(w3 >> 24) as usize];
        proof {
            let m0 = word(data@[at as int], data@[at + 1], data@[at + 2], data@[at + 3]);
            assert(m0 ^ crc == crc ^ m0) by (bit_vector);
            crc_bits_word(w0, 96);
            crc_bits_word(w1, 64);
            crc_bits_word(w2, 32);
            crc_bits_word(w3, 0);
            crc_register_four_words(crc, m0, w1, w2, w3);
            assert forall|start: u32| crc == crc_register(start, data@.take(at as int)) implies (p0 ^ p1
                ^ p2 ^ p3) == #[trigger] crc_register(start, data@.take(at + SLICE)) by {
                crc_register_push_word(start, data@, at as int);
                crc_register_push_word(start, data@, at + 4);
                crc_register_push_word(start, data@, at + 8);
                crc_register_push_word(start, data@, at + 12);
            }
        }
        p0 ^ p1 ^ p2 ^ p3
    }

    /// Feeds more bytes into the checksum.
    pub fn update(&mut self, data: &[u8])
        ensures
            final(self)@ == crc_register(old(self)@, data@),
    {
        let ghost start = self.state;
        let mut crc: u32 = self.state;
        let mut i: usize = 0;
        assert(data@.take(0) =~= Seq::<u8>::empty());
        while i <= data.len() && data.len() - i >= SLICE
            invariant
                i <= data@.len(),
                crc == crc_register(start, data@.take(i as int)),
            decreases data@.len() - i,
        {
            crc = self.update_block(crc, data, i);
            i = i + SLICE;
        }
        while i < data.len()
            invariant
                i <= data@.len(),
                crc == crc_register(start, data@.take(i as int)),
            decreases data@.len() - i,
        {
            let byte: u8 = data[i];
            let x: u32 = crc ^ (byte as u32);
            proof {
                use_type_invariant(&*self);
                assert(x & 0xFF <= 0xFF) by (bit_vector);
                assert(is_table_row(self.table@[0]@, 0));
                crc_bits_table_step(x);
                assert(crc >> 8 == x >> 8) by (bit_vector)
                    requires
                        x == crc ^ (byte as u32),
                ;
                assert(data@.take(i + 1).drop_last() =~= data@.take(i as int));
            }
            crc = (crc >> 8) ^ self.table[0][(x & 0xFF) as usize];
            i = i + 1;
        }
        proof {
            use_type_invariant(&*self);
            assert(data@.take(i as int) =~= data@);
        }
        self.state = crc;
    }

    /// Returns the current CRC-32C value.
    pub fn value(&self) -> (value: u32)
        ensures
            value == !self@,
    {
        !self.state
    }
}

/// Computes the CRC-32C checksum of a byte slice.
pub fn crc32c(data: &[u8]) -> (value: u32)
    ensures
        value == crc32c_spec(data@),
{
    let mut crc = Crc32c::new();
    crc.update(data);
    crc.value()
}

} // verus!
