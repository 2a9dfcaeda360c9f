//! Tiles: an 8×8 square of black-or-lit samples packed into 8 bytes.
use vstd::prelude::*;
use crate::text::push_char;

verus! {

/// Width and height, in pixels, of the smallest square the quadtree stores as a bit pattern.
pub const SAMPLE_SIZE: u32 = 8;

/// The bit pattern of an 8×8 tile.
///
/// Sample `k` (pixel `(k % 8, k / 8)` of the tile) is bit `k % 8` of byte `7 - k / 8`:
/// read as a big-endian number, the bytes hold sample `k` at bit `k`.
#[derive(Debug, Clone, Copy, PartialEq, Eq, Hash)]
pub struct TileId(pub [u8; 8]);

/// Whether bit `b` of `byte` is set.
pub open spec fn byte_bit(byte: u8, b: int) -> bool {
    (byte >> (b as u8)) & 1u8 == 1u8
}

/// Number of `true` entries among the first `n` entries of `s`.
pub open spec fn count_true(s: Seq<bool>, n: int) -> nat
    decreases n,
{
    if n <= 0 {
        0
    } else {
        count_true(s, n - 1) + if s[n - 1] { 1nat } else { 0nat }
    }
}

/// The lower-case hexadecimal digit for `n` (which is below 16).
pub open spec fn hex_char(n: int) -> char {
    if n < 10 {
        (48 + n) as char
    } else {
        (87 + n) as char
    }
}

/// The value of a lower-case hexadecimal digit.
pub open spec fn hex_value_of(c: char) -> int {
    if '0' <= c <= '9' {
        c as int - 48
    } else {
        c as int - 87
    }
}

/// The number that a sequence of lower-case hexadecimal digits spells, most significant first.
pub open spec fn hex_number(s: Seq<char>) -> int
    decreases s.len(),
{
    if s.len() == 0 {
        0
    } else {
        hex_number(s.drop_last()) * 16 + hex_value_of(s.last())
    }
}

/// The two hexadecimal digits of a byte, high nibble first.
pub open spec fn byte_hex(b: u8) -> Seq<char> {
    seq![hex_char((b / 16) as int), hex_char((b % 16) as int)]
}

impl TileId {
    /// Sample `k` of the tile.
    pub open spec fn bit(self, k: int) -> bool {
        byte_bit(self.0[7 - k / 8], k % 8)
    }

    /// The samples of the tile, sample `k` at index `k`.
    pub open spec fn samples(self) -> Seq<bool> {
        Seq::new(64, |k: int| self.bit(k))
    }

    /// The bytes read as one big-endian number.
    pub open spec fn spec_mask(self) -> u64 {
        ((self.0[0] as u64) << 56u64) | ((self.0[1] as u64) << 48u64) | ((self.0[2] as u64) << 40u64)
            | ((self.0[3] as u64) << 32u64) | ((self.0[4] as u64) << 24u64) | ((self.0[5] as u64)
            << 16u64) | ((self.0[6] as u64) << 8u64) | (self.0[7] as u64)
    }

    /// The hexadecimal spelling of the first `n` bytes, two lower-case digits per byte.
    pub open spec fn hex_prefix(self, n: int) -> Seq<char>
        decreases n,
    {
        if n <= 0 {
            Seq::empty()
        } else {
            self.hex_prefix(n - 1) + byte_hex(self.0[n - 1])
        }
    }

    /// The hexadecimal spelling of the tile: two lower-case digits per byte, first byte first.
    pub open spec fn hex(self) -> Seq<char> {
        self.hex_prefix(8)
    }

    /// Packs 64 samples, sample `k` being pixel `(k % 8, k / 8)` of the tile.
    pub fn from_samples(samples: [bool; 64]) -> (tile: Self)
        ensures
            forall|k: int| 0 <= k < 64 ==> #[trigger] tile.bit(k) == samples[k],
    {
        // The samples are read back to front; each run of 8 fills one byte, first sample in
        // the most significant bit.
        let mut res: [u8; 8] = [0u8; 8];
        let mut i: usize = 0;
        while i < 8
            invariant
                0 <= i <= 8,
                forall|j: int, b: int|
                    0 <= j < i && 0 <= b < 8 ==> #[trigger] byte_bit(res[j], b) == samples[56 - 8
                        * j + b],
            decreases 8 - i,
        {
            let mut val: u8 = 0;
            let mut m: usize = 0;
            assert((0u8 as u16) < (1u16 << 0u16)) by (bit_vector);
            while m < 8
                invariant
                    0 <= i < 8,
                    0 <= m <= 8,
                    (val as u16) < (1u16 << (m as u16)),
                    forall|b: int|
                        0 <= b < m ==> byte_bit(val, b) == samples[63 - 8 * i - (m - 1 - b)],
                decreases 8 - m,
            {
                let v: u8 = if samples[63 - 8 * i - m] {
                    1
                } else {
                    0
                };
                let next: u8 = (val << 1u8) | v;
                proof {
                    let mm = m as u16;
                    lemma_shift_in_bound(val, v, mm);
                    assert(next & 1u8 == v) by (bit_vector)
                        requires
                            next == (val << 1u8) | v,
                            v <= 1,
                    ;
                    assert forall|b: int| 0 <= b < m + 1 implies byte_bit(next, b) == samples[63 - 8
                        * i - (m - b)] by {
                        if b == 0 {
                            assert(((next >> 0u8) & 1u8) == (next & 1u8)) by (bit_vector);
                            assert(byte_bit(next, 0) == (next & 1u8 == 1u8));
                        } else {
                            let bb = (b - 1) as u8;
                            lemma_shift_in_bit(val, v, bb);
                            assert((((val << 1u8) | v) as u8) == next);
                            assert(((b - 1) as u8 + 1) as u8 == b as u8);
                            assert(byte_bit(next, b) == byte_bit(val, b - 1));
                        }
                    }
                }
                val = next;
                m = m + 1;
            }
            res[i] = val;
            i = i + 1;
        }
        let tile = TileId(res);
        assert forall|k: int| 0 <= k < 64 implies #[trigger] tile.bit(k) == samples[k] by {
            let j = 7 - k / 8;
            let b = k % 8;
            assert(byte_bit(res[j], b) == samples[56 - 8 * j + b]);
        }
        tile
    }

    /// Number of lit samples in the tile.
    pub fn count_ones(&self) -> (n: u32)
        ensures
            n == count_true(self.samples(), 64),
    {
        let mut n: u32 = 0;
        let mut k: usize = 0;
        while k < 64
            invariant
                0 <= k <= 64,
                n == count_true(self.samples(), k as int),
                n <= k,
            decreases 64 - k,
        {
            let byte = self.0[7 - k / 8];
            let shift = (k % 8) as u8;
            if (byte >> shift) & 1u8 == 1u8 {
                n = n + 1;
            }
            k = k + 1;
        }
        n
    }

    /// The bytes read as one big-endian number: bit `k` of it is sample `k`.
    pub fn mask(&self) -> (m: u64)
        ensures
            m == self.spec_mask(),
            forall|k: int| 0 <= k < 64 ==> #[trigger] self.bit(k) == ((m >> (k as u64)) & 1u64
                == 1u64),
    {
        let m: u64 = ((self.0[0] as u64) << 56u64) | ((self.0[1] as u64) << 48u64) | ((
        self.0[2] as u64) << 40u64) | ((self.0[3] as u64) << 32u64) | ((self.0[4] as u64)
            << 24u64) | ((self.0[5] as u64) << 16u64) | ((self.0[6] as u64) << 8u64) | (
        self.0[7] as u64);
        proof {
            lemma_mask_bits(*self);
        }
        m
    }

    /// The tile as 16 lower-case hexadecimal digits, two per byte, first byte first.
    pub fn to_hex(&self) -> (s: String)
        ensures
            s@ == self.hex(),
            s@.len() == 16,
            forall|i: int| 0 <= i < 16 ==> ('0' <= #[trigger] s@[i] <= '9') || ('a' <= s@[i] <= 'f'),
    {
        let mut s = String::new();
        let mut i: usize = 0;
        while i < 8
            invariant
                0 <= i <= 8,
                s@ == self.hex_prefix(i as int),
            decreases 8 - i,
        {
            let byte = self.0[i];
            push_char(&mut s, hex_digit(byte / 16));
            push_char(&mut s, hex_digit(byte % 16));
            assert(s@ == self.hex_prefix(i as int) + byte_hex(byte));
            i = i + 1;
        }
        proof {
            lemma_hex_digit(*self, 0);
            assert forall|i: int| 0 <= i < 16 implies ('0' <= #[trigger] s@[i] <= '9') || ('a' <= s@[i] <= 'f') by {
                lemma_hex_digit(*self, i);
            }
        }
        s
    }
}

/// The spelling of the first `n` bytes has two digits per byte.
proof fn lemma_hex_prefix_len(t: TileId, n: int)
    requires
        0 <= n <= 8,
    ensures
        t.hex_prefix(n).len() == 2 * n,
    decreases n,
{
    if n > 0 {
        lemma_hex_prefix_len(t, n - 1);
    }
}

/// Digit `i` of the spelling of the first `n` bytes spells the high nibble of byte `i / 2` when
/// `i` is even and its low nibble when `i` is odd.
proof fn lemma_hex_prefix_digit(t: TileId, n: int, i: int)
    requires
        0 <= n <= 8,
        0 <= i < 2 * n,
    ensures
        t.hex_prefix(n)[i] == hex_char(if i % 2 == 0 { t.0[i / 2] / 16 } else { t.0[i / 2] % 16 } as int),
    decreases n,
{
    lemma_hex_prefix_len(t, n - 1);
    if i < 2 * (n - 1) {
        lemma_hex_prefix_digit(t, n - 1, i);
    }
}

/// Digit `i` of a tile's spelling spells the high nibble of byte `i / 2` when `i` is even and
/// its low nibble when `i` is odd.
pub proof fn lemma_hex_digit(t: TileId, i: int)
    requires
        0 <= i < 16,
    ensures
        t.hex().len() == 16,
        t.hex()[i] == hex_char(if i % 2 == 0 { t.0[i / 2] / 16 } else { t.0[i / 2] % 16 } as int),
{
    lemma_hex_prefix_len(t, 8);
    lemma_hex_prefix_digit(t, 8, i);
}

/// The lower-case hexadecimal digit for a number below 16.
fn hex_digit(n: u8) -> (c: char)
    requires
        n < 16,
    ensures
        c == hex_char(n as int),
        ('0' <= c <= '9') || ('a' <= c <= 'f'),
{
    if n < 10 {
        (n + 48) as char
    } else {
        (n + 87) as char
    }
}

proof fn lemma_shift_in_bound(val: u8, v: u8, m: u16)
    by (bit_vector)
    requires
        (val as u16) < (1u16 << m),
        m < 8,
        v <= 1,
    ensures
        ((((val << 1u8) | v) as u8) as u16) < (1u16 << ((m + 1) as u16)),
{
}

proof fn lemma_shift_in_bit(val: u8, v: u8, b: u8)
    by (bit_vector)
    requires
        b < 7,
        v <= 1,
    ensures
        (((((val << 1u8) | v) as u8) >> ((b + 1) as u8)) & 1u8) == ((val >> b) & 1u8),
{
}

proof fn lemma_bit_of_byte(x: u64, q: u64, s: u64)
    by (bit_vector)
    requires
        q <= 56,
        s < 8,
    ensures
        ((x >> ((q + s) as u64)) & 1u64) == (((((x >> q) & 0xffu64) as u8) >> (s as u8)) & 1u8) as u64,
{
}

/// Bit `k` of the big-endian number is sample `k`.
pub proof fn lemma_mask_bits(t: TileId)
    ensures
        forall|k: int| 0 <= k < 64 ==> #[trigger] t.bit(k) == ((t.spec_mask() >> (k as u64)) & 1u64 == 1u64),
{
    let b0 = t.0[0];
    let b1 = t.0[1];
    let b2 = t.0[2];
    let b3 = t.0[3];
    let b4 = t.0[4];
    let b5 = t.0[5];
    let b6 = t.0[6];
    let b7 = t.0[7];
    let m = t.spec_mask();
    assert(m == ((b0 as u64) << 56u64) | ((b1 as u64) << 48u64) | ((b2 as u64) << 40u64) | ((
    b3 as u64) << 32u64) | ((b4 as u64) << 24u64) | ((b5 as u64) << 16u64) | ((b6 as u64) << 8u64)
        | (b7 as u64));
    assert(((m >> 56u64) & 0xffu64) as u8 == b0 && ((m >> 48u64) & 0xffu64) as u8 == b1 && ((m
        >> 40u64) & 0xffu64) as u8 == b2 && ((m >> 32u64) & 0xffu64) as u8 == b3 && ((m >> 24u64)
        & 0xffu64) as u8 == b4 && ((m >> 16u64) & 0xffu64) as u8 == b5 && ((m >> 8u64) & 0xffu64)
        as u8 == b6 && ((m >> 0u64) & 0xffu64) as u8 == b7) by (bit_vector)
        requires
            m == ((b0 as u64) << 56u64) | ((b1 as u64) << 48u64) | ((b2 as u64) << 40u64) | ((
            b3 as u64) << 32u64) | ((b4 as u64) << 24u64) | ((b5 as u64) << 16u64) | ((
            b6 as u64) << 8u64) | (b7 as u64),
    ;
    assert forall|k: int| 0 <= k < 64 implies #[trigger] t.bit(k) == ((m >> (k as u64)) & 1u64
        == 1u64) by {
        let q = (8 * (k / 8)) as u64;
        let s = (k % 8) as u64;
        lemma_bit_of_byte(m, q, s);
        assert((q + s) as u64 == k as u64);
    }
}

} // verus!
