//! How often each tile occurs over many frames.
use vstd::prelude::*;
use std::collections::HashMap;
use crate::tile::{byte_bit, lemma_mask_bits, TileId};
use crate::walk::{tile_ones, tiles_ones};

verus! {

broadcast use vstd::std_specs::hash::group_hash_axioms;

/// Whether some entry holds tile `t`.
pub open spec fn has_tile(s: Seq<(TileId, u32)>, t: TileId) -> bool {
    exists|i: int| 0 <= i < s.len() && #[trigger] s[i].0 == t
}

/// The position of the entry holding tile `t`.
pub open spec fn tile_position(s: Seq<(TileId, u32)>, t: TileId) -> int {
    choose|i: int| 0 <= i < s.len() && #[trigger] s[i].0 == t
}

/// How often tile `t` was counted: its entry's count, or 0 without one.
pub open spec fn count_of(s: Seq<(TileId, u32)>, t: TileId) -> int {
    if has_tile(s, t) {
        s[tile_position(s, t)].1 as int
    } else {
        0
    }
}

/// The counts after tile `t` is counted once more: its entry goes up by one, or a new entry
/// with count 1 comes last.
pub open spec fn tally_one(s: Seq<(TileId, u32)>, t: TileId) -> Seq<(TileId, u32)> {
    if has_tile(s, t) {
        let i = tile_position(s, t);
        s.update(i, (t, (s[i].1 + 1) as u32))
    } else {
        s.push((t, 1u32))
    }
}

/// The counts after each of `tiles` is counted in turn.
pub open spec fn tally_all(s: Seq<(TileId, u32)>, tiles: Seq<TileId>) -> Seq<(TileId, u32)>
    decreases tiles.len(),
{
    if tiles.len() == 0 {
        s
    } else {
        tally_all(tally_one(s, tiles[0]), tiles.drop_first())
    }
}

/// Whether counting each of `tiles` in turn keeps every count within `u32`.
pub open spec fn counts_fit(s: Seq<(TileId, u32)>, tiles: Seq<TileId>) -> bool
    decreases tiles.len(),
{
    if tiles.len() == 0 {
        true
    } else {
        count_of(s, tiles[0]) < u32::MAX && counts_fit(tally_one(s, tiles[0]), tiles.drop_first())
    }
}

/// Lit pixels over all counted tiles: each tile's lit samples times its count.
pub open spec fn weight(s: Seq<(TileId, u32)>) -> int
    decreases s.len(),
{
    if s.len() == 0 {
        0
    } else {
        weight(s.drop_last()) + tile_ones(s.last().0) * s.last().1
    }
}

/// Lit pixels over the tiles counted more than once.
pub open spec fn shared_weight(s: Seq<(TileId, u32)>) -> int
    decreases s.len(),
{
    if s.len() == 0 {
        0
    } else {
        shared_weight(s.drop_last()) + if s.last().1 > 1 {
            tile_ones(s.last().0) * s.last().1
        } else {
            0
        }
    }
}

/// The entries counted more than once, in order.
pub open spec fn shared_entries(s: Seq<(TileId, u32)>) -> Seq<(TileId, u32)>
    decreases s.len(),
{
    if s.len() == 0 {
        Seq::empty()
    } else {
        let rest = shared_entries(s.drop_last());
        if s.last().1 > 1 {
            rest.push(s.last())
        } else {
            rest
        }
    }
}

/// Whether each shared entry's lit samples times its count fits in `u32`.
pub open spec fn shared_products_fit(s: Seq<(TileId, u32)>) -> bool {
    forall|i: int| 0 <= i < s.len() && s[i].1 > 1 ==> #[trigger] tile_ones(s[i].0) * s[i].1 <= u32::MAX
}

/// Tiles with the same big-endian number are the same tile.
pub proof fn lemma_mask_injective(a: TileId, b: TileId)
    requires
        a.spec_mask() == b.spec_mask(),
    ensures
        a == b,
{
    lemma_mask_bits(a);
    lemma_mask_bits(b);
    assert forall|k: int| 0 <= k < 64 implies #[trigger] a.bit(k) == b.bit(k) by {}
    lemma_bits_determine_tile(a, b);
}

/// Tiles with the same samples are the same tile.
pub proof fn lemma_bits_determine_tile(a: TileId, b: TileId)
    requires
        forall|k: int| 0 <= k < 64 ==> #[trigger] a.bit(k) == b.bit(k),
    ensures
        a == b,
{
    assert forall|j: int| 0 <= j < 8 implies a.0[j] == b.0[j] by {
        let x = a.0[j];
        let y = b.0[j];
        assert forall|bb: int| 0 <= bb < 8 implies byte_bit(x, bb) == byte_bit(y, bb) by {
            let k = 8 * (7 - j) + bb;
            assert(a.bit(k) == b.bit(k));
            assert(k / 8 == 7 - j && k % 8 == bb);
        }
        assert(byte_bit(x, 0) == byte_bit(y, 0) && byte_bit(x, 1) == byte_bit(y, 1) && byte_bit(x, 2)
            == byte_bit(y, 2) && byte_bit(x, 3) == byte_bit(y, 3) && byte_bit(x, 4) == byte_bit(y, 4)
            && byte_bit(x, 5) == byte_bit(y, 5) && byte_bit(x, 6) == byte_bit(y, 6) && byte_bit(x, 7)
            == byte_bit(y, 7));
        lemma_bits_determine_byte(x, y);
    }
    assert(a.0 =~= b.0);
}

proof fn lemma_bits_determine_byte(x: u8, y: u8)
    requires
        byte_bit(x, 0) == byte_bit(y, 0),
        byte_bit(x, 1) == byte_bit(y, 1),
        byte_bit(x, 2) == byte_bit(y, 2),
        byte_bit(x, 3) == byte_bit(y, 3),
        byte_bit(x, 4) == byte_bit(y, 4),
        byte_bit(x, 5) == byte_bit(y, 5),
        byte_bit(x, 6) == byte_bit(y, 6),
        byte_bit(x, 7) == byte_bit(y, 7),
    ensures
        x == y,
{
    assert(x == y) by (bit_vector)
        requires
            ((x >> 0u8) & 1u8 == 1u8) == ((y >> 0u8) & 1u8 == 1u8),
            ((x >> 1u8) & 1u8 == 1u8) == ((y >> 1u8) & 1u8 == 1u8),
            ((x >> 2u8) & 1u8 == 1u8) == ((y >> 2u8) & 1u8 == 1u8),
            ((x >> 3u8) & 1u8 == 1u8) == ((y >> 3u8) & 1u8 == 1u8),
            ((x >> 4u8) & 1u8 == 1u8) == ((y >> 4u8) & 1u8 == 1u8),
            ((x >> 5u8) & 1u8 == 1u8) == ((y >> 5u8) & 1u8 == 1u8),
            ((x >> 6u8) & 1u8 == 1u8) == ((y >> 6u8) & 1u8 == 1u8),
            ((x >> 7u8) & 1u8 == 1u8) == ((y >> 7u8) & 1u8 == 1u8),
    ;
}

/// How often each tile was counted, in the order tiles were first counted.
pub struct TileCounts {
    index: HashMap<u64, usize>,
    entries: Vec<(TileId, u32)>,
}

impl TileCounts {
    /// The counts: one entry per tile, in the order tiles were first counted.
    pub closed spec fn counts(self) -> Seq<(TileId, u32)> {
        self.entries@
    }

    /// The index finds each entry by its tile's big-endian number.
    pub closed spec fn wf(self) -> bool {
        &&& forall|i: int, j: int|
            0 <= i < self.entries@.len() && 0 <= j < self.entries@.len() && i != j
                ==> #[trigger] self.entries@[i].0 != #[trigger] self.entries@[j].0
        &&& forall|i: int|
            0 <= i < self.entries@.len() ==> #[trigger] self.index@.contains_key(self.entries@[i].0.spec_mask())
                && self.index@[self.entries@[i].0.spec_mask()] == i
        &&& forall|k: u64|
            #[trigger] self.index@.contains_key(k) ==> self.index@[k] < self.entries@.len()
                && self.entries@[self.index@[k] as int].0.spec_mask() == k
    }

    /// No tile counted yet.
    pub fn new() -> (c: Self)
        ensures
            c.wf(),
            c.counts() == Seq::<(TileId, u32)>::empty(),
    {
        TileCounts { index: HashMap::new(), entries: Vec::new() }
    }

    /// How often `tile` was counted.
    pub fn count_of(&self, tile: &TileId) -> (n: u32)
        requires
            self.wf(),
        ensures
            n == count_of(self.counts(), *tile),
    {
        let key = tile.mask();
        match self.index.get(&key) {
            Some(i) => {
                let i = *i;
                proof {
                    lemma_mask_injective(self.entries@[i as int].0, *tile);
                    assert(has_tile(self.counts(), *tile));
                    let p = tile_position(self.counts(), *tile);
                    if p != i {
                        assert(self.entries@[p].0 != self.entries@[i as int].0);
                    }
                }
                self.entries[i].1
            },
            None => {
                proof {
                    if has_tile(self.counts(), *tile) {
                        let p = tile_position(self.counts(), *tile);
                        assert(self.index@.contains_key(self.entries@[p].0.spec_mask()));
                    }
                }
                0
            },
        }
    }

    /// Counts `tile` once more.
    pub fn record(&mut self, tile: &TileId)
        requires
            old(self).wf(),
            count_of(old(self).counts(), *tile) < u32::MAX,
        ensures
            final(self).wf(),
            final(self).counts() == tally_one(old(self).counts(), *tile),
    {
        let key = tile.mask();
        let ghost s = self.counts();
        let found = match self.index.get(&key) {
            Some(i) => Some(*i),
            None => None,
        };
        match found {
            Some(i) => {
                proof {
                    lemma_mask_injective(self.entries@[i as int].0, *tile);
                    assert(has_tile(s, *tile));
                    let p = tile_position(s, *tile);
                    if p != i {
                        assert(self.entries@[p].0 != self.entries@[i as int].0);
                    }
                }
                let (t, c) = self.entries[i];
                self.entries.set(i, (t, c + 1));
                assert(self.entries@ =~= s.update(i as int, (*tile, (s[i as int].1 + 1) as u32)));
                assert forall|j: int| 0 <= j < self.entries@.len() implies #[trigger] self.entries@[j].0 == s[j].0 by {}
                assert(self.wf());
            },
            None => {
                proof {
                    if has_tile(s, *tile) {
                        let p = tile_position(s, *tile);
                        assert(self.index@.contains_key(self.entries@[p].0.spec_mask()));
                    }
                }
                let i = self.entries.len();
                self.entries.push((*tile, 1));
                self.index.insert(key, i);
                proof {
                    assert forall|a: int, b: int|
                        0 <= a < self.entries@.len() && 0 <= b < self.entries@.len() && a != b
                            implies #[trigger] self.entries@[a].0 != #[trigger] self.entries@[b].0 by {
                        if a == i as int {
                            assert(self.entries@[b] == s[b]);
                            assert(self.index@.contains_key(s[b].0.spec_mask()));
                        } else if b == i as int {
                            assert(self.entries@[a] == s[a]);
                            assert(self.index@.contains_key(s[a].0.spec_mask()));
                        } else {
                            assert(self.entries@[a] == s[a] && self.entries@[b] == s[b]);
                        }
                    }
                    assert forall|j: int| 0 <= j < self.entries@.len() implies #[trigger] self.index@.contains_key(self.entries@[j].0.spec_mask())
                        && self.index@[self.entries@[j].0.spec_mask()] == j by {
                        if j < i {
                            assert(self.entries@[j] == s[j]);
                            if s[j].0.spec_mask() == key {
                                lemma_mask_injective(s[j].0, *tile);
                                assert(has_tile(s, *tile));
                            }
                        }
                    }
                }
            },
        }
    }

    /// Number of different tiles counted.
    pub fn len(&self) -> (n: usize)
        ensures
            n == self.counts().len(),
    {
        self.entries.len()
    }

    /// The counts: one entry per tile, in the order tiles were first counted.
    pub fn entries(&self) -> (e: &Vec<(TileId, u32)>)
        ensures
            e@ == self.counts(),
    {
        &self.entries
    }

    /// The entries of tiles counted more than once, in order.
    pub fn shared(&self) -> (e: Vec<(TileId, u32)>)
        ensures
            e@ == shared_entries(self.counts()),
            e@ == self.counts().filter(|x: (TileId, u32)| x.1 > 1),
    {
        let mut e: Vec<(TileId, u32)> = Vec::new();
        let mut i: usize = 0;
        while i < self.entries.len()
            invariant
                0 <= i <= self.entries@.len(),
                e@ == shared_entries(self.entries@.take(i as int)),
            decreases self.entries@.len() - i,
        {
            let entry = self.entries[i];
            assert(self.entries@.take(i + 1).drop_last() =~= self.entries@.take(i as int));
            if entry.1 > 1 {
                e.push(entry);
            }
            i = i + 1;
        }
        assert(self.entries@.take(i as int) =~= self.entries@);
        proof {
            lemma_shared_entries_filter(self.entries@);
        }
        e
    }

    /// Lit pixels over the tiles counted more than once: each one's lit samples times its count.
    pub fn shared_pixel_count(&self) -> (n: u64)
        requires
            shared_products_fit(self.counts()),
            shared_weight(self.counts()) <= u64::MAX,
        ensures
            n == shared_weight(self.counts()),
            n == weight(self.counts().filter(|x: (TileId, u32)| x.1 > 1)),
    {
        let mut n: u64 = 0;
        let mut i: usize = 0;
        proof {
            lemma_shared_weight_prefix(self.entries@, 0);
        }
        while i < self.entries.len()
            invariant
                0 <= i <= self.entries@.len(),
                shared_products_fit(self.entries@),
                shared_weight(self.entries@) <= u64::MAX,
                n == shared_weight(self.entries@.take(i as int)),
            decreases self.entries@.len() - i,
        {
            let (id, count) = self.entries[i];
            assert(self.entries@.take(i + 1).drop_last() =~= self.entries@.take(i as int));
            proof {
                lemma_shared_weight_prefix(self.entries@, i + 1);
            }
            if count > 1 {
                let ones = id.count_ones();
                assert(tile_ones(id) * count <= u32::MAX);
                let product = ones * count;
                n = n + product as u64;
            }
            i = i + 1;
        }
        assert(self.entries@.take(i as int) =~= self.entries@);
        proof {
            lemma_shared_weight_filter(self.entries@);
        }
        n
    }
}

/// The shared entries are the counts kept by the test "counted more than once", in order.
pub proof fn lemma_shared_entries_filter(s: Seq<(TileId, u32)>)
    ensures
        shared_entries(s) == s.filter(|x: (TileId, u32)| x.1 > 1),
    decreases s.len(),
{
    reveal(Seq::filter);
    if s.len() > 0 {
        lemma_shared_entries_filter(s.drop_last());
    }
}

/// Adding one entry adds its lit samples times its count to the lit pixels.
pub proof fn lemma_weight_push(s: Seq<(TileId, u32)>, e: (TileId, u32))
    ensures
        weight(s.push(e)) == weight(s) + tile_ones(e.0) * e.1,
{
    assert(s.push(e).drop_last() =~= s);
}

/// The shared lit pixels are the lit pixels of the entries counted more than once.
pub proof fn lemma_shared_weight_filter(s: Seq<(TileId, u32)>)
    ensures
        shared_weight(s) == weight(s.filter(|x: (TileId, u32)| x.1 > 1)),
    decreases s.len(),
{
    reveal(Seq::filter);
    if s.len() > 0 {
        lemma_shared_weight_filter(s.drop_last());
        let rest = s.drop_last().filter(|x: (TileId, u32)| x.1 > 1);
        if s.last().1 > 1 {
            lemma_weight_push(rest, s.last());
        }
    }
}

/// The shared lit pixels of a prefix are at most those of the whole.
proof fn lemma_shared_weight_prefix(s: Seq<(TileId, u32)>, n: int)
    requires
        0 <= n <= s.len(),
    ensures
        0 <= shared_weight(s.take(n)) <= shared_weight(s),
    decreases s.len() - n,
{
    if n < s.len() {
        lemma_shared_weight_prefix(s, n + 1);
        assert(s.take(n + 1).drop_last() =~= s.take(n));
    } else {
        assert(s.take(n) =~= s);
    }
    lemma_shared_weight_nonneg(s.take(n));
}

proof fn lemma_shared_weight_nonneg(s: Seq<(TileId, u32)>)
    ensures
        0 <= shared_weight(s),
    decreases s.len(),
{
    if s.len() > 0 {
        lemma_shared_weight_nonneg(s.drop_last());
    }
}

/// Whether no two entries hold the same tile.
pub open spec fn distinct_tiles(s: Seq<(TileId, u32)>) -> bool {
    forall|i: int, j: int| 0 <= i < s.len() && 0 <= j < s.len() && i != j ==> #[trigger] s[i].0 != #[trigger] s[j].0
}

/// How often `t` occurs among `tiles`.
pub open spec fn occurrences(tiles: Seq<TileId>, t: TileId) -> int
    decreases tiles.len(),
{
    if tiles.len() == 0 {
        0
    } else {
        occurrences(tiles.drop_first(), t) + if tiles[0] == t {
            1int
        } else {
            0int
        }
    }
}

/// Replacing one entry changes the lit pixels by the difference of the two entries.
pub proof fn lemma_weight_update(s: Seq<(TileId, u32)>, i: int, e: (TileId, u32))
    requires
        0 <= i < s.len(),
    ensures
        weight(s.update(i, e)) == weight(s) - tile_ones(s[i].0) * s[i].1 + tile_ones(e.0) * e.1,
    decreases s.len(),
{
    let u = s.update(i, e);
    if i == s.len() - 1 {
        assert(u.drop_last() =~= s.drop_last());
    } else {
        lemma_weight_update(s.drop_last(), i, e);
        assert(u.drop_last() =~= s.drop_last().update(i, e));
    }
}

/// Counting a tile once more adds its lit samples.
pub proof fn lemma_weight_tally_one(s: Seq<(TileId, u32)>, t: TileId)
    requires
        count_of(s, t) < u32::MAX,
    ensures
        weight(tally_one(s, t)) == weight(s) + tile_ones(t),
{
    if has_tile(s, t) {
        let i = tile_position(s, t);
        lemma_weight_update(s, i, (t, (s[i].1 + 1) as u32));
        assert(tile_ones(t) * (s[i].1 + 1) == tile_ones(t) * s[i].1 + tile_ones(t)) by (nonlinear_arith);
    } else {
        assert(s.push((t, 1u32)).drop_last() =~= s);
    }
}

/// Counting tiles adds their lit samples.
pub proof fn lemma_weight_tally_all(s: Seq<(TileId, u32)>, tiles: Seq<TileId>)
    requires
        counts_fit(s, tiles),
    ensures
        weight(tally_all(s, tiles)) == weight(s) + tiles_ones(tiles),
    decreases tiles.len(),
{
    if tiles.len() > 0 {
        lemma_weight_tally_one(s, tiles[0]);
        lemma_weight_tally_all(tally_one(s, tiles[0]), tiles.drop_first());
    }
}

/// The lit pixels of shared tiles are part of all lit pixels.
pub proof fn lemma_shared_within_weight(s: Seq<(TileId, u32)>)
    ensures
        0 <= shared_weight(s) <= weight(s),
    decreases s.len(),
{
    if s.len() > 0 {
        lemma_shared_within_weight(s.drop_last());
        assert(0 <= tile_ones(s.last().0) * s.last().1) by (nonlinear_arith);
    }
}

/// Counting a tile once more keeps one entry per tile, adds one to its count and leaves the
/// others' counts alone.
pub proof fn lemma_tally_one_counts(s: Seq<(TileId, u32)>, t: TileId, u: TileId)
    requires
        distinct_tiles(s),
        count_of(s, t) < u32::MAX,
    ensures
        distinct_tiles(tally_one(s, t)),
        count_of(tally_one(s, t), u) == count_of(s, u) + if t == u {
            1int
        } else {
            0int
        },
{
    let r = tally_one(s, t);
    if has_tile(s, t) {
        let i = tile_position(s, t);
        assert(r[i].0 == t);
        if has_tile(s, u) {
            let j = tile_position(s, u);
            assert(r[j].0 == u);
            assert(has_tile(r, u));
            let k = tile_position(r, u);
            if k != j {
                assert(r[k].0 == s[k].0);
            }
        } else {
            if has_tile(r, u) {
                let k = tile_position(r, u);
                assert(r[k].0 == s[k].0);
            }
        }
    } else {
        let n = s.len() as int;
        assert(r[n].0 == t);
        if has_tile(s, u) {
            let j = tile_position(s, u);
            assert(r[j] == s[j]);
            assert(has_tile(r, u));
            let k = tile_position(r, u);
            if k != j {
                if k < n {
                    assert(r[k] == s[k]);
                }
            }
        } else {
            if has_tile(r, u) {
                let k = tile_position(r, u);
                if k < n {
                    assert(r[k] == s[k]);
                }
            }
            if t == u {
                assert(has_tile(r, u));
            }
        }
    }
}

/// Counting tiles in turn gives each tile its number of occurrences on top of its count.
pub proof fn lemma_tally_all_counts(s: Seq<(TileId, u32)>, tiles: Seq<TileId>, u: TileId)
    requires
        distinct_tiles(s),
        counts_fit(s, tiles),
    ensures
        distinct_tiles(tally_all(s, tiles)),
        count_of(tally_all(s, tiles), u) == count_of(s, u) + occurrences(tiles, u),
    decreases tiles.len(),
{
    if tiles.len() > 0 {
        lemma_tally_one_counts(s, tiles[0], u);
        lemma_tally_all_counts(tally_one(s, tiles[0]), tiles.drop_first(), u);
    }
}

} // verus!
