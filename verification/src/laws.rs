//! What holds across the library's functions.
use vstd::prelude::*;
use vstd::arithmetic::power2::{lemma2_to64, lemma_pow2_pos, lemma_pow2_strictly_increases, lemma_pow2_unfold, pow2};
use crate::canvas::{black, canvas_pixels, white, Canvas};
use crate::quadtree::{
    all_lit, halves_to_tile, in_square, lua, none_lit, lemma_represents_paintable, lemma_represents_paints, lit, or_empty, paintable,
    painted, represents, shapes, squares, tile_of_square, QuadTreeNode, Quadrants, CANVAS_SIZE,
};
use crate::tally::{
    count_of, counts_fit, distinct_tiles, has_tile, lemma_bits_determine_tile, lemma_mask_injective, lemma_shared_entries_filter,
    lemma_shared_weight_filter, lemma_shared_within_weight, lemma_tally_all_counts, lemma_weight_push, lemma_weight_tally_all, occurrences,
    shared_entries, shared_weight, tally_all, tile_position, weight,
};
use crate::tile::{byte_hex, count_true, hex_char, hex_number, hex_value_of, lemma_hex_digit, TileId};
use crate::walk::{
    filled, full_leaves_measurable, leaf_tiles, leaves, lemma_side_halves, lemma_walk_tiles, side_at, tile_ones,
    tiles_ones, walkable, Entry,
};

verus! {

/// Drawing the quadtree of a canvas gives the canvas back in black and white: over the
/// `CANVAS_SIZE` × `CANVAS_SIZE` square, every lit pixel comes out white and every black pixel
/// black. The tree can always be drawn.
pub proof fn law_reconstruction_thresholds(image: Canvas, root: QuadTreeNode)
    requires
        represents(root, image, 0, 0, CANVAS_SIZE as int),
    ensures
        paintable(root, CANVAS_SIZE as int),
        forall|x: int, y: int|
            0 <= x < CANVAS_SIZE && 0 <= y < CANVAS_SIZE ==> #[trigger] painted(
                root,
                0,
                0,
                CANVAS_SIZE as int,
                x,
                y,
                black(),
            ) == if lit(image, x, y) {
                white()
            } else {
                black()
            },
{
    reveal_with_fuel(halves_to_tile, 8);
    assert(halves_to_tile(CANVAS_SIZE as int));
    lemma_represents_paintable(root, image, 0, 0, CANVAS_SIZE as int);
    lemma_represents_paints(root, image, 0, 0, CANVAS_SIZE as int);
    assert forall|x: int, y: int| 0 <= x < CANVAS_SIZE && 0 <= y < CANVAS_SIZE implies #[trigger] painted(
        root,
        0,
        0,
        CANVAS_SIZE as int,
        x,
        y,
        black(),
    ) == if lit(image, x, y) {
        white()
    } else {
        black()
    } by {
        assert(in_square(0, 0, CANVAS_SIZE as int, x, y));
    }
}

/// Counting agrees on sequences that agree on the entries counted.
proof fn lemma_count_true_same(a: Seq<bool>, b: Seq<bool>, n: int)
    requires
        forall|k: int| 0 <= k < n ==> a[k] == b[k],
    ensures
        count_true(a, n) == count_true(b, n),
    decreases n,
{
    if n > 0 {
        lemma_count_true_same(a, b, n - 1);
    }
}

/// The lit samples a tile counts are the `true` samples it was packed from.
pub proof fn law_count_ones_counts_samples(samples: [bool; 64], tile: TileId)
    requires
        forall|k: int| 0 <= k < 64 ==> #[trigger] tile.bit(k) == samples[k],
    ensures
        count_true(tile.samples(), 64) == count_true(samples@, 64),
{
    assert forall|k: int| 0 <= k < 64 implies tile.samples()[k] == samples@[k] by {
        assert(tile.bit(k) == samples[k]);
    }
    lemma_count_true_same(tile.samples(), samples@, 64);
}

/// The bytes of a tile, the first `n` of them read as one big-endian number.
pub open spec fn bytes_number(t: TileId, n: int) -> int
    decreases n,
{
    if n <= 0 {
        0
    } else {
        bytes_number(t, n - 1) * 256 + t.0[n - 1]
    }
}

proof fn lemma_hex_char_value(n: int)
    requires
        0 <= n < 16,
    ensures
        hex_value_of(hex_char(n)) == n,
{
}

proof fn lemma_hex_number_byte(s: Seq<char>, b: u8)
    ensures
        hex_number(s + byte_hex(b)) == hex_number(s) * 256 + b,
{
    let hi = hex_char((b / 16) as int);
    let lo = hex_char((b % 16) as int);
    let s1 = s.push(hi);
    let s2 = s1.push(lo);
    assert(s + byte_hex(b) =~= s2);
    assert(s2.drop_last() =~= s1);
    assert(s1.drop_last() =~= s);
    lemma_hex_char_value((b / 16) as int);
    lemma_hex_char_value((b % 16) as int);
    assert(s2.last() == lo);
    assert(s1.last() == hi);
    assert(hex_number(s2) == hex_number(s1) * 16 + hex_value_of(lo));
    assert(hex_number(s1) == hex_number(s) * 16 + hex_value_of(hi));
    assert((b / 16) * 16 + b % 16 == b);
}

proof fn lemma_hex_prefix_number(t: TileId, n: int)
    requires
        0 <= n <= 8,
    ensures
        hex_number(t.hex_prefix(n)) == bytes_number(t, n),
        t.hex_prefix(n).len() == 2 * n,
    decreases n,
{
    if n > 0 {
        lemma_hex_prefix_number(t, n - 1);
        lemma_hex_number_byte(t.hex_prefix(n - 1), t.0[n - 1]);
    }
}

/// The hexadecimal spelling of a tile has 16 digits and reads back as the tile's big-endian
/// number, whose bit `k` is sample `k`.
pub proof fn law_hex_reads_back_as_mask(t: TileId)
    ensures
        t.hex().len() == 16,
        hex_number(t.hex()) == t.spec_mask(),
{
    lemma_hex_prefix_number(t, 8);
    reveal_with_fuel(bytes_number, 9);
    let b0 = t.0[0];
    let b1 = t.0[1];
    let b2 = t.0[2];
    let b3 = t.0[3];
    let b4 = t.0[4];
    let b5 = t.0[5];
    let b6 = t.0[6];
    let b7 = t.0[7];
    assert(((((((((b0 as int) * 256 + b1) * 256 + b2) * 256 + b3) * 256 + b4) * 256 + b5) * 256
        + b6) * 256 + b7) == (((b0 as u64) << 56u64) | ((b1 as u64) << 48u64) | ((b2 as u64)
        << 40u64) | ((b3 as u64) << 32u64) | ((b4 as u64) << 24u64) | ((b5 as u64) << 16u64) | ((
    b6 as u64) << 8u64) | (b7 as u64))) by (bit_vector);
}

/// A tile is spelled with 16 characters, each an ASCII digit `0`-`9` or a lower-case letter
/// `a`-`f`; read as a hexadecimal digit, character `2 j` is the high nibble of byte `j` and
/// character `2 j + 1` its low nibble.
pub proof fn law_hex_digits(t: TileId)
    ensures
        t.hex().len() == 16,
        forall|i: int| #![trigger t.hex()[i]] 0 <= i < 16 ==> ('0' <= t.hex()[i] <= '9') || ('a' <= t.hex()[i] <= 'f'),
        forall|j: int| #![trigger t.0[j]] 0 <= j < 8 ==> {
            &&& (if t.hex()[2 * j] <= '9' { t.hex()[2 * j] as int - 48 } else { t.hex()[2 * j] as int - 87 }) == t.0[j] / 16
            &&& (if t.hex()[2 * j + 1] <= '9' { t.hex()[2 * j + 1] as int - 48 } else { t.hex()[2 * j + 1] as int - 87 }) == t.0[j] % 16
        },
{
    lemma_hex_digit(t, 0);
    assert forall|i: int| #![trigger t.hex()[i]] 0 <= i < 16 implies ('0' <= t.hex()[i] <= '9') || ('a' <= t.hex()[i] <= 'f') by {
        lemma_hex_digit(t, i);
    }
    assert forall|j: int| #![trigger t.0[j]] 0 <= j < 8 implies {
        &&& (if t.hex()[2 * j] <= '9' { t.hex()[2 * j] as int - 48 } else { t.hex()[2 * j] as int - 87 }) == t.0[j] / 16
        &&& (if t.hex()[2 * j + 1] <= '9' { t.hex()[2 * j + 1] as int - 48 } else { t.hex()[2 * j + 1] as int - 87 }) == t.0[j] % 16
    } by {
        lemma_hex_digit(t, 2 * j);
        lemma_hex_digit(t, 2 * j + 1);
        assert((2 * j) % 2 == 0 && (2 * j) / 2 == j);
        assert((2 * j + 1) % 2 == 1 && (2 * j + 1) / 2 == j);
    }
}

/// Picking the `Full` leaves of two runs of leaves picks those of each, in order.
proof fn lemma_filled_concat(a: Seq<Entry>, b: Seq<Entry>)
    ensures
        filled(a + b) == filled(a) + filled(b),
    decreases a.len(),
{
    if a.len() == 0 {
        assert(a + b =~= b);
        assert(filled(a) + filled(b) =~= filled(b));
    } else {
        assert((a + b).drop_first() =~= a.drop_first() + b);
        assert((a + b)[0] == a[0]);
        lemma_filled_concat(a.drop_first(), b);
        let head: Seq<(u32, u32, u32)> = if a[0].0 is Full {
            seq![(a[0].1, a[0].2, side_at(a[0].3 as int) as u32)]
        } else {
            Seq::empty()
        };
        assert(filled(a + b) == head + filled(a.drop_first() + b));
        assert(filled(a) == head + filled(a.drop_first()));
        assert(head + (filled(a.drop_first()) + filled(b)) =~= (head + filled(a.drop_first())) + filled(b));
    }
}

proof fn lemma_filled_one(e: Entry)
    ensures
        filled(seq![e]) == if e.0 is Full {
            seq![(e.1, e.2, side_at(e.3 as int) as u32)]
        } else {
            Seq::<(u32, u32, u32)>::empty()
        },
{
    assert(seq![e].drop_first() =~= Seq::<Entry>::empty());
    assert(seq![e][0] == e);
    assert(filled(Seq::<Entry>::empty()) == Seq::<(u32, u32, u32)>::empty());
    let one: Seq<(u32, u32, u32)> = seq![(e.1, e.2, side_at(e.3 as int) as u32)];
    assert(one + Seq::<(u32, u32, u32)>::empty() =~= one);
}

proof fn lemma_walk_squares(node: QuadTreeNode, x: int, y: int, d: int)
    requires
        0 <= d,
        full_leaves_measurable(node, d),
    ensures
        filled(leaves(node, x, y, d)) == or_empty(squares(node, x, y, side_at(d))),
    decreases node,
{
    lemma_side_halves(d);
    match node {
        QuadTreeNode::Subdivided(q) => {
            let hs = side_at(d) / 2;
            lemma_walk_squares(q.top_left, x, y, d + 1);
            lemma_walk_squares(q.top_right, x + hs, y, d + 1);
            lemma_walk_squares(q.bottom_left, x, y + hs, d + 1);
            lemma_walk_squares(q.bottom_right, x + hs, y + hs, d + 1);
            let a = leaves(q.top_left, x, y, d + 1);
            let b = leaves(q.top_right, x + hs, y, d + 1);
            let c = leaves(q.bottom_left, x, y + hs, d + 1);
            let e = leaves(q.bottom_right, x + hs, y + hs, d + 1);
            lemma_filled_concat(a, b);
            lemma_filled_concat(a + b, c);
            lemma_filled_concat(a + b + c, e);
        },
        _ => {
            lemma_filled_one((node, x as u32, y as u32, d as u8));
        },
    }
}

/// The walk reports each `Full` leaf as the squares listing from `(0, 0)` with side
/// `CANVAS_SIZE / 2` does: the same leaves, in the same order, with positions and sides at half
/// the scale of the canvas.
pub proof fn law_walk_reports_squares(root: QuadTreeNode)
    requires
        full_leaves_measurable(root, 0),
    ensures
        side_at(0) == CANVAS_SIZE / 2,
        filled(leaves(root, 0, 0, 0)) == or_empty(squares(root, 0, 0, CANVAS_SIZE as int / 2)),
{
    lemma_side_halves(0);
    lemma_walk_squares(root, 0, 0, 0);
}

/// The tiles a node lists are the tiles the walk meets, in the same order.
pub proof fn law_shapes_follow_walk(root: QuadTreeNode)
    ensures
        shapes(root) == leaf_tiles(leaves(root, 0, 0, 0)),
{
    lemma_walk_tiles(root, 0, 0, 0);
}

/// A square with a lit and an unlit pixel has at least two pixels a side.
proof fn lemma_mixed_side(c: Canvas, x: int, y: int, side: int)
    requires
        !all_lit(c, x, y, side),
        !none_lit(c, x, y, side),
    ensures
        side >= 2,
{
    let (px, py) = choose|px: int, py: int| in_square(x, y, side, px, py) && !lit(c, px, py);
    let (qx, qy) = choose|qx: int, qy: int| in_square(x, y, side, qx, qy) && lit(c, qx, qy);
    assert(!lit(c, px, py) && lit(c, qx, qy));
}

proof fn lemma_represents_walkable(node: QuadTreeNode, c: Canvas, x: int, y: int, side: int, d: int)
    requires
        represents(node, c, x, y, side),
        1 <= side,
        0 <= d,
        side * pow2(d as nat) <= CANVAS_SIZE,
    ensures
        walkable(node, d),
        full_leaves_measurable(node, d),
    decreases node,
{
    lemma_pow2_pos(d as nat);
    lemma2_to64();
    if d >= 31 {
        if d > 31 {
            lemma_pow2_strictly_increases(31, d as nat);
        }
        assert(side * pow2(d as nat) >= pow2(d as nat)) by (nonlinear_arith)
            requires
                1 <= side,
                pow2(d as nat) > 0,
        ;
    }
    if let QuadTreeNode::Subdivided(q) = node {
        lemma_mixed_side(c, x, y, side);
        let h = side / 2;
        lemma_pow2_unfold((d + 1) as nat);
        assert(h * pow2((d + 1) as nat) <= CANVAS_SIZE) by (nonlinear_arith)
            requires
                h == side / 2,
                side >= 2,
                pow2((d + 1) as nat) == 2 * pow2(d as nat),
                side * pow2(d as nat) <= CANVAS_SIZE,
                pow2(d as nat) > 0,
        ;
        assert(2 * pow2(d as nat) <= side * pow2(d as nat)) by (nonlinear_arith)
            requires
                side >= 2,
                pow2(d as nat) > 0,
        ;
        if d >= 30 {
            if d > 30 {
                lemma_pow2_strictly_increases(30, d as nat);
            }
        }
        lemma_represents_walkable(q.top_left, c, x, y, h, d + 1);
        lemma_represents_walkable(q.top_right, c, x + h, y, h, d + 1);
        lemma_represents_walkable(q.bottom_left, c, x, y + h, h, d + 1);
        lemma_represents_walkable(q.bottom_right, c, x + h, y + h, h, d + 1);
    }
}

/// The quadtree of a canvas can be walked, and the side of each of its `Full` leaves measured.
pub proof fn law_built_tree_walkable(image: Canvas, root: QuadTreeNode)
    requires
        represents(root, image, 0, 0, CANVAS_SIZE as int),
    ensures
        walkable(root, 0),
        full_leaves_measurable(root, 0),
{
    lemma2_to64();
    lemma_represents_walkable(root, image, 0, 0, CANVAS_SIZE as int, 0);
}

/// Counting a run of tiles from nothing gives each tile one entry, whose count is how often the
/// tile occurs in the run.
pub proof fn law_tally_counts_occurrences(tiles: Seq<TileId>, u: TileId)
    requires
        counts_fit(Seq::empty(), tiles),
    ensures
        distinct_tiles(tally_all(Seq::empty(), tiles)),
        count_of(tally_all(Seq::empty(), tiles), u) == occurrences(tiles, u),
{
    lemma_tally_all_counts(Seq::empty(), tiles, u);
}

/// Counting a run of tiles from nothing, the lit pixels over the counts are the lit pixels of
/// the run, and those of the tiles counted more than once are part of them.
pub proof fn law_tally_pixels(tiles: Seq<TileId>)
    requires
        counts_fit(Seq::empty(), tiles),
    ensures
        weight(tally_all(Seq::empty(), tiles)) == tiles_ones(tiles),
        0 <= shared_weight(tally_all(Seq::empty(), tiles)) <= tiles_ones(tiles),
{
    lemma_weight_tally_all(Seq::empty(), tiles);
    lemma_shared_within_weight(tally_all(Seq::empty(), tiles));
}

/// The listing of shared entries keeps every entry counted more than once and nothing else,
/// in the order of the counts: an entry is listed exactly when its count is above one, whatever
/// the entries before it.
pub proof fn law_shared_is_filter(s: Seq<(TileId, u32)>)
    ensures
        shared_entries(s) == s.filter(|x: (TileId, u32)| x.1 > 1),
        forall|i: int| 0 <= i < s.len() && s[i].1 > 1 ==> #[trigger] shared_entries(s).contains(s[i]),
        forall|x: (TileId, u32)| #[trigger] shared_entries(s).contains(x) <==> (s.contains(x) && x.1 > 1),
{
    lemma_shared_entries_filter(s);
    let f = s.filter(|x: (TileId, u32)| x.1 > 1);
    assert forall|i: int| 0 <= i < s.len() && s[i].1 > 1 implies #[trigger] shared_entries(s).contains(s[i]) by {
        s.lemma_filter_contains(|x: (TileId, u32)| x.1 > 1, i);
    }
    assert forall|x: (TileId, u32)| #[trigger] shared_entries(s).contains(x) <==> (s.contains(x) && x.1 > 1) by {
        if f.contains(x) {
            s.lemma_filter_contains_rev(|x: (TileId, u32)| x.1 > 1, x);
            let j = choose|j: int| 0 <= j < f.len() && f[j] == x;
            s.lemma_filter_pred(|x: (TileId, u32)| x.1 > 1, j);
        }
        if s.contains(x) && x.1 > 1 {
            let i = choose|i: int| 0 <= i < s.len() && s[i] == x;
            s.lemma_filter_contains(|x: (TileId, u32)| x.1 > 1, i);
        }
    }
}

/// The shared lit pixels sum each entry counted more than once, its lit samples times its
/// count: with the entries counted once they make all lit pixels, and one more entry adds its
/// own share exactly when its count is above one.
pub proof fn law_shared_weight_splits(s: Seq<(TileId, u32)>, e: (TileId, u32))
    ensures
        shared_weight(s) == weight(s.filter(|x: (TileId, u32)| x.1 > 1)),
        shared_weight(s) + weight(s.filter(|x: (TileId, u32)| x.1 <= 1)) == weight(s),
        shared_weight(s.push(e)) == shared_weight(s) + if e.1 > 1 {
            tile_ones(e.0) * e.1
        } else {
            0
        },
    decreases s.len(),
{
    lemma_shared_weight_filter(s);
    assert(s.push(e).drop_last() =~= s);
    reveal(Seq::filter);
    if s.len() > 0 {
        law_shared_weight_splits(s.drop_last(), s.last());
        let rest = s.drop_last().filter(|x: (TileId, u32)| x.1 <= 1);
        if s.last().1 <= 1 {
            lemma_weight_push(rest, s.last());
        }
    }
}

/// Counting a run of tiles from nothing, a tile is listed as shared exactly when it occurs more
/// than once in the run, and it is listed with its number of occurrences.
pub proof fn law_tally_shared(tiles: Seq<TileId>, t: TileId)
    requires
        counts_fit(Seq::empty(), tiles),
    ensures
        has_tile(shared_entries(tally_all(Seq::empty(), tiles)), t) <==> occurrences(tiles, t) > 1,
        count_of(shared_entries(tally_all(Seq::empty(), tiles)), t) == if occurrences(tiles, t) > 1 {
            occurrences(tiles, t)
        } else {
            0
        },
{
    let c = tally_all(Seq::empty(), tiles);
    let sh = shared_entries(c);
    lemma_tally_all_counts(Seq::empty(), tiles, t);
    law_shared_is_filter(c);
    assert(!has_tile(Seq::<(TileId, u32)>::empty(), t));
    if has_tile(sh, t) {
        let q = tile_position(sh, t);
        assert(sh.contains(sh[q]));
        let k = choose|k: int| 0 <= k < c.len() && c[k] == sh[q];
        assert(c[k].0 == t);
        assert(has_tile(c, t));
        let p = tile_position(c, t);
        assert(k == p);
    }
    if occurrences(tiles, t) > 1 {
        assert(has_tile(c, t));
        let p = tile_position(c, t);
        assert(sh.contains(c[p]));
        let q = choose|q: int| 0 <= q < sh.len() && sh[q] == c[p];
        assert(sh[q].0 == t);
        assert(has_tile(sh, t));
    }
}

/// The lit pixels of two runs of tiles add up.
pub proof fn law_tiles_ones_add_up(a: Seq<TileId>, b: Seq<TileId>)
    ensures
        tiles_ones(a + b) == tiles_ones(a) + tiles_ones(b),
    decreases a.len(),
{
    if a.len() == 0 {
        assert(a + b =~= b);
    } else {
        law_tiles_ones_add_up(a.drop_first(), b);
        assert((a + b).drop_first() =~= a.drop_first() + b);
        assert((a + b)[0] == a[0]);
    }
}

proof fn lemma_count_true_bound(s: Seq<bool>, n: int)
    requires
        0 <= n,
    ensures
        count_true(s, n) <= n,
    decreases n,
{
    if n > 0 {
        lemma_count_true_bound(s, n - 1);
    }
}

proof fn lemma_represents_tile_pixels(node: QuadTreeNode, c: Canvas, x: int, y: int, side: int)
    requires
        represents(node, c, x, y, side),
        0 <= side,
    ensures
        tiles_ones(shapes(node)) <= side * side,
    decreases node,
{
    match node {
        QuadTreeNode::Shaped(t) => {
            lemma_count_true_bound(t.samples(), 64);
            assert(seq![t].drop_first() =~= Seq::<TileId>::empty());
            assert(tiles_ones(seq![t]) == tile_ones(t));
            assert(side == 8);
            assert(side * side == 64) by (nonlinear_arith)
                requires
                    side == 8,
            ;
        },
        QuadTreeNode::Subdivided(q) => {
            let h = side / 2;
            lemma_represents_tile_pixels(q.top_left, c, x, y, h);
            lemma_represents_tile_pixels(q.top_right, c, x + h, y, h);
            lemma_represents_tile_pixels(q.bottom_left, c, x, y + h, h);
            lemma_represents_tile_pixels(q.bottom_right, c, x + h, y + h, h);
            let a = shapes(q.top_left);
            let b = shapes(q.top_right);
            let d = shapes(q.bottom_left);
            let e = shapes(q.bottom_right);
            law_tiles_ones_add_up(a, b);
            law_tiles_ones_add_up(a + b, d);
            law_tiles_ones_add_up(a + b + d, e);
            assert(4 * (h * h) <= side * side) by (nonlinear_arith)
                requires
                    h == side / 2,
                    0 <= side,
            ;
        },
        _ => {
            assert(tiles_ones(Seq::<TileId>::empty()) == 0);
            assert(0 <= side * side) by (nonlinear_arith);
        },
    }
}

/// The tiles of the quadtree of a canvas hold at most one lit sample per pixel of the canvas.
pub proof fn law_built_tree_tile_pixels(image: Canvas, root: QuadTreeNode)
    requires
        represents(root, image, 0, 0, CANVAS_SIZE as int),
    ensures
        tiles_ones(shapes(root)) <= CANVAS_SIZE * CANVAS_SIZE,
{
    lemma_represents_tile_pixels(root, image, 0, 0, CANVAS_SIZE as int);
}

/// Whether no subdivided node under `node` has four `Full` quarters or four `Empty` ones: such
/// squares are always merged into one leaf.
pub open spec fn merged(node: QuadTreeNode) -> bool
    decreases node,
{
    match node {
        QuadTreeNode::Subdivided(q) => {
            &&& !(q.top_left is Full && q.top_right is Full && q.bottom_left is Full && q.bottom_right is Full)
            &&& !(q.top_left is Empty && q.top_right is Empty && q.bottom_left is Empty
                && q.bottom_right is Empty)
            &&& merged(q.top_left)
            &&& merged(q.top_right)
            &&& merged(q.bottom_left)
            &&& merged(q.bottom_right)
        },
        _ => true,
    }
}

/// Within any square whose side halves down to 8 (8, 16, 32, ...), the quadtree is as coarse as
/// it can be: no square whose quarters are all full, or all empty, is left subdivided.
pub proof fn law_quadtree_merged(node: QuadTreeNode, c: Canvas, x0: int, y0: int, side: int)
    requires
        represents(node, c, x0, y0, side),
        halves_to_tile(side),
    ensures
        merged(node),
    decreases node,
{
    if let QuadTreeNode::Subdivided(q) = node {
        let h = side / 2;
        assert(halves_to_tile(h));
        assert(side == 2 * h);
        law_quadtree_merged(q.top_left, c, x0, y0, h);
        law_quadtree_merged(q.top_right, c, x0 + h, y0, h);
        law_quadtree_merged(q.bottom_left, c, x0, y0 + h, h);
        law_quadtree_merged(q.bottom_right, c, x0 + h, y0 + h, h);
        assert(represents(q.top_left, c, x0, y0, h));
        assert(represents(q.top_right, c, x0 + h, y0, h));
        assert(represents(q.bottom_left, c, x0, y0 + h, h));
        assert(represents(q.bottom_right, c, x0 + h, y0 + h, h));
        if q.top_left is Full && q.top_right is Full && q.bottom_left is Full && q.bottom_right is Full {
            assert(all_lit(c, x0, y0, h) && all_lit(c, x0 + h, y0, h) && all_lit(c, x0, y0 + h, h)
                && all_lit(c, x0 + h, y0 + h, h));
            assert forall|x: int, y: int| in_square(x0, y0, side, x, y) implies #[trigger] lit(c, x, y) by {
                if in_square(x0, y0, h, x, y) {
                } else if in_square(x0 + h, y0, h, x, y) {
                } else if in_square(x0, y0 + h, h, x, y) {
                } else {
                    assert(in_square(x0 + h, y0 + h, h, x, y));
                }
            }
            assert(all_lit(c, x0, y0, side));
        }
        if q.top_left is Empty && q.top_right is Empty && q.bottom_left is Empty && q.bottom_right is Empty {
            assert(none_lit(c, x0, y0, h) && none_lit(c, x0 + h, y0, h) && none_lit(c, x0, y0 + h, h)
                && none_lit(c, x0 + h, y0 + h, h));
            assert forall|x: int, y: int| in_square(x0, y0, side, x, y) implies !#[trigger] lit(c, x, y) by {
                if in_square(x0, y0, h, x, y) {
                } else if in_square(x0 + h, y0, h, x, y) {
                } else if in_square(x0, y0 + h, h, x, y) {
                } else {
                    assert(in_square(x0 + h, y0 + h, h, x, y));
                }
            }
            assert(none_lit(c, x0, y0, side));
        }
    }
}

/// The quadtree of a canvas is as coarse as it can be: no square whose quarters are all full,
/// or all empty, is left subdivided.
pub proof fn law_built_tree_merged(image: Canvas, root: QuadTreeNode)
    requires
        represents(root, image, 0, 0, CANVAS_SIZE as int),
    ensures
        merged(root),
{
    reveal_with_fuel(halves_to_tile, 8);
    assert(halves_to_tile(CANVAS_SIZE as int));
    law_quadtree_merged(root, image, 0, 0, CANVAS_SIZE as int);
}

/// Whether every tile of a run has a lit and an unlit sample.
pub open spec fn tiles_mixed(s: Seq<TileId>) -> bool {
    forall|i: int| 0 <= i < s.len() ==> 1 <= #[trigger] tile_ones(s[i]) <= 63
}

proof fn lemma_count_true_mixed(s: Seq<bool>, n: int, a: int, b: int)
    requires
        0 <= a < n,
        0 <= b < n,
        s[a],
        !s[b],
    ensures
        1 <= count_true(s, n) <= n - 1,
    decreases n,
{
    lemma_count_true_bound(s, n - 1);
    if a < n - 1 && b < n - 1 {
        lemma_count_true_mixed(s, n - 1, a, b);
    } else if a == n - 1 {
        // the last sample is lit, and an unlit one comes before it
        assert(count_true(s, n - 1) <= n - 2) by {
            lemma_count_true_unlit(s, n - 1, b);
        }
    } else {
        lemma_count_true_lit(s, n - 1, a);
    }
}

proof fn lemma_count_true_lit(s: Seq<bool>, n: int, a: int)
    requires
        0 <= a < n,
        s[a],
    ensures
        1 <= count_true(s, n),
    decreases n,
{
    if a < n - 1 {
        lemma_count_true_lit(s, n - 1, a);
    }
}

proof fn lemma_count_true_unlit(s: Seq<bool>, n: int, b: int)
    requires
        0 <= b < n,
        !s[b],
    ensures
        count_true(s, n) <= n - 1,
    decreases n,
{
    lemma_count_true_bound(s, n - 1);
    if b < n - 1 {
        lemma_count_true_unlit(s, n - 1, b);
    }
}

/// Every tile of a quadtree holds a lit and an unlit sample: between 1 and 63 lit samples.
pub proof fn law_tiles_mixed(node: QuadTreeNode, c: Canvas, x0: int, y0: int, side: int)
    requires
        represents(node, c, x0, y0, side),
    ensures
        tiles_mixed(shapes(node)),
    decreases node,
{
    match node {
        QuadTreeNode::Shaped(t) => {
            let (px, py) = choose|px: int, py: int| in_square(x0, y0, side, px, py) && !lit(c, px, py);
            let (qx, qy) = choose|qx: int, qy: int| in_square(x0, y0, side, qx, qy) && lit(c, qx, qy);
            let b = (py - y0) * 8 + (px - x0);
            let a = (qy - y0) * 8 + (qx - x0);
            assert(t.bit(a) == lit(c, x0 + a % 8, y0 + a / 8));
            assert(t.bit(b) == lit(c, x0 + b % 8, y0 + b / 8));
            lemma_count_true_mixed(t.samples(), 64, a, b);
            assert(shapes(node) =~= seq![t]);
        },
        QuadTreeNode::Subdivided(q) => {
            let h = side / 2;
            law_tiles_mixed(q.top_left, c, x0, y0, h);
            law_tiles_mixed(q.top_right, c, x0 + h, y0, h);
            law_tiles_mixed(q.bottom_left, c, x0, y0 + h, h);
            law_tiles_mixed(q.bottom_right, c, x0 + h, y0 + h, h);
            let sa = shapes(q.top_left);
            let sb = shapes(q.top_right);
            let sc = shapes(q.bottom_left);
            let sd = shapes(q.bottom_right);
            let all = shapes(node);
            assert(all == sa + sb + sc + sd);
            assert forall|i: int| 0 <= i < all.len() implies 1 <= #[trigger] tile_ones(all[i]) <= 63 by {
                if i < sa.len() {
                    assert(all[i] == sa[i]);
                } else if i < sa.len() + sb.len() {
                    assert(all[i] == sb[i - sa.len()]);
                } else if i < sa.len() + sb.len() + sc.len() {
                    assert(all[i] == sc[i - sa.len() - sb.len()]);
                } else {
                    assert(all[i] == sd[i - sa.len() - sb.len() - sc.len()]);
                }
            }
        },
        _ => {
            assert(shapes(node) =~= Seq::<TileId>::empty());
        },
    }
}

/// Number of subdivided nodes in a tree.
pub open spec fn subdivisions(node: QuadTreeNode) -> nat
    decreases node,
{
    match node {
        QuadTreeNode::Subdivided(q) => 1 + subdivisions(q.top_left) + subdivisions(q.top_right)
            + subdivisions(q.bottom_left) + subdivisions(q.bottom_right),
        _ => 0,
    }
}

/// The walk gives only leaves, never a subdivided node, and gives `1 + 3 * S` of them for a
/// tree with `S` subdivided nodes.
pub proof fn law_walk_gives_leaves(node: QuadTreeNode, x: int, y: int, d: int)
    ensures
        leaves(node, x, y, d).len() == 1 + 3 * subdivisions(node),
        forall|i: int| 0 <= i < leaves(node, x, y, d).len() ==> !((#[trigger] leaves(node, x, y, d)[i]).0 is Subdivided),
    decreases node,
{
    if let QuadTreeNode::Subdivided(q) = node {
        let hs = side_at(d) / 2;
        law_walk_gives_leaves(q.top_left, x, y, d + 1);
        law_walk_gives_leaves(q.top_right, x + hs, y, d + 1);
        law_walk_gives_leaves(q.bottom_left, x, y + hs, d + 1);
        law_walk_gives_leaves(q.bottom_right, x + hs, y + hs, d + 1);
        let a = leaves(q.top_left, x, y, d + 1);
        let b = leaves(q.top_right, x + hs, y, d + 1);
        let c = leaves(q.bottom_left, x, y + hs, d + 1);
        let e = leaves(q.bottom_right, x + hs, y + hs, d + 1);
        let l = leaves(node, x, y, d);
        assert(l == a + b + c + e);
        assert forall|i: int| 0 <= i < l.len() implies !((#[trigger] l[i]).0 is Subdivided) by {
            if i < a.len() {
                assert(l[i] == a[i]);
            } else if i < a.len() + b.len() {
                assert(l[i] == b[i - a.len()]);
            } else if i < a.len() + b.len() + c.len() {
                assert(l[i] == c[i - a.len() - b.len()]);
            } else {
                assert(l[i] == e[i - a.len() - b.len() - c.len()]);
            }
        }
    }
}

/// Whether every subdivided node under `node` (which sits at `depth`) is shallower than 8, so
/// that every leaf the walk reaches has a side of at least one pixel.
pub open spec fn subdivided_shallow(node: QuadTreeNode, depth: int) -> bool
    decreases node,
{
    match node {
        QuadTreeNode::Subdivided(q) => {
            &&& depth < 8
            &&& subdivided_shallow(q.top_left, depth + 1)
            &&& subdivided_shallow(q.top_right, depth + 1)
            &&& subdivided_shallow(q.bottom_left, depth + 1)
            &&& subdivided_shallow(q.bottom_right, depth + 1)
        },
        _ => true,
    }
}

/// How many squares of a run of walked leaves, each `(x, y)` with the side the walk gives its
/// depth, contain the pixel `(px, py)`.
pub open spec fn covering(s: Seq<Entry>, px: int, py: int) -> nat
    decreases s.len(),
{
    if s.len() == 0 {
        0
    } else {
        covering(s.drop_first(), px, py) + if in_square(s[0].1 as int, s[0].2 as int, side_at(s[0].3 as int), px, py) {
            1nat
        } else {
            0nat
        }
    }
}

proof fn lemma_covering_concat(a: Seq<Entry>, b: Seq<Entry>, px: int, py: int)
    ensures
        covering(a + b, px, py) == covering(a, px, py) + covering(b, px, py),
    decreases a.len(),
{
    if a.len() == 0 {
        assert(a + b =~= b);
    } else {
        assert((a + b).drop_first() =~= a.drop_first() + b);
        assert((a + b)[0] == a[0]);
        lemma_covering_concat(a.drop_first(), b, px, py);
    }
}

/// The sides the walk gives depths 0 to 8: 256 halving down to 1.
proof fn lemma_side_values(d: int)
    requires
        0 <= d <= 8,
    ensures
        d < 8 ==> side_at(d) == 2 * side_at(d + 1),
        1 <= side_at(d) <= 256,
{
    lemma2_to64();
    lemma_side_at_is(0, 2, 256);
    lemma_side_at_is(1, 4, 128);
    lemma_side_at_is(2, 8, 64);
    lemma_side_at_is(3, 16, 32);
    lemma_side_at_is(4, 32, 16);
    lemma_side_at_is(5, 64, 8);
    lemma_side_at_is(6, 128, 4);
    lemma_side_at_is(7, 256, 2);
    lemma_side_at_is(8, 512, 1);
}

proof fn lemma_side_at_is(d: int, p: int, v: int)
    requires
        0 <= d,
        pow2((d + 1) as nat) == p,
        v * p == CANVAS_SIZE,
        0 < p,
    ensures
        side_at(d) == v,
{
    vstd::arithmetic::div_mod::lemma_fundamental_div_mod_converse(CANVAS_SIZE as int, p, v, 0);
}

proof fn lemma_walk_covers(node: QuadTreeNode, x: int, y: int, d: int, px: int, py: int)
    requires
        0 <= d <= 8,
        0 <= x,
        0 <= y,
        x + side_at(d) <= u32::MAX,
        y + side_at(d) <= u32::MAX,
        subdivided_shallow(node, d),
    ensures
        covering(leaves(node, x, y, d), px, py) == if in_square(x, y, side_at(d), px, py) {
            1nat
        } else {
            0nat
        },
    decreases node,
{
    lemma_side_values(d);
    if let QuadTreeNode::Subdivided(q) = node {
        lemma_side_values(d + 1);
        let hs = side_at(d) / 2;
        assert(hs == side_at(d + 1));
        lemma_walk_covers(q.top_left, x, y, d + 1, px, py);
        lemma_walk_covers(q.top_right, x + hs, y, d + 1, px, py);
        lemma_walk_covers(q.bottom_left, x, y + hs, d + 1, px, py);
        lemma_walk_covers(q.bottom_right, x + hs, y + hs, d + 1, px, py);
        let a = leaves(q.top_left, x, y, d + 1);
        let b = leaves(q.top_right, x + hs, y, d + 1);
        let c = leaves(q.bottom_left, x, y + hs, d + 1);
        let e = leaves(q.bottom_right, x + hs, y + hs, d + 1);
        lemma_covering_concat(a, b, px, py);
        lemma_covering_concat(a + b, c, px, py);
        lemma_covering_concat(a + b + c, e, px, py);
    } else {
        let s = seq![(node, x as u32, y as u32, d as u8)];
        assert(leaves(node, x, y, d) == s);
        assert(s.drop_first() =~= Seq::<Entry>::empty());
        assert(covering(Seq::<Entry>::empty(), px, py) == 0);
        assert(s[0].1 as int == x && s[0].2 as int == y && s[0].3 as int == d);
    }
}

/// For a tree whose subdivided nodes are shallower than 8, the squares the walk gives its
/// leaves tile the `CANVAS_SIZE / 2` frame: each pixel of it lies in exactly one of them, and
/// no pixel outside it lies in any.
pub proof fn law_walk_tiles_frame(root: QuadTreeNode, px: int, py: int)
    requires
        subdivided_shallow(root, 0),
    ensures
        covering(leaves(root, 0, 0, 0), px, py) == if 0 <= px < CANVAS_SIZE / 2 && 0 <= py < CANVAS_SIZE / 2 {
            1nat
        } else {
            0nat
        },
{
    lemma_side_values(0);
    lemma_side_halves(0);
    lemma_walk_covers(root, 0, 0, 0, px, py);
}

proof fn lemma_represents_shallow(node: QuadTreeNode, c: Canvas, x: int, y: int, side: int, d: int)
    requires
        represents(node, c, x, y, side),
        halves_to_tile(side),
        0 <= d,
        side * pow2(d as nat) == CANVAS_SIZE,
    ensures
        subdivided_shallow(node, d),
    decreases node,
{
    if let QuadTreeNode::Subdivided(q) = node {
        let h = side / 2;
        assert(halves_to_tile(h));
        assert(side >= 16) by {
            reveal_with_fuel(halves_to_tile, 2);
        }
        lemma2_to64();
        lemma_pow2_pos(d as nat);
        if d >= 8 {
            if d > 8 {
                lemma_pow2_strictly_increases(8, d as nat);
            }
            assert(side * pow2(d as nat) >= 16 * 256) by (nonlinear_arith)
                requires
                    side >= 16,
                    pow2(d as nat) >= 256,
            ;
        }
        lemma_pow2_unfold((d + 1) as nat);
        assert(h * pow2((d + 1) as nat) == CANVAS_SIZE) by (nonlinear_arith)
            requires
                side == 2 * h,
                pow2((d + 1) as nat) == 2 * pow2(d as nat),
                side * pow2(d as nat) == CANVAS_SIZE,
        ;
        law_quadtree_merged(node, c, x, y, side);
        lemma_represents_shallow(q.top_left, c, x, y, h, d + 1);
        lemma_represents_shallow(q.top_right, c, x + h, y, h, d + 1);
        lemma_represents_shallow(q.bottom_left, c, x, y + h, h, d + 1);
        lemma_represents_shallow(q.bottom_right, c, x + h, y + h, h, d + 1);
    }
}

/// The quadtree of a canvas subdivides only squares of 16 pixels a side or more, so its walk
/// tiles the frame.
pub proof fn law_built_tree_shallow(image: Canvas, root: QuadTreeNode)
    requires
        represents(root, image, 0, 0, CANVAS_SIZE as int),
    ensures
        subdivided_shallow(root, 0),
{
    reveal_with_fuel(halves_to_tile, 8);
    assert(halves_to_tile(CANVAS_SIZE as int));
    lemma2_to64();
    lemma_represents_shallow(root, image, 0, 0, CANVAS_SIZE as int, 0);
}

/// Whether two canvases have the same lit pixels over the square of side `side` at `(x0, y0)`.
pub open spec fn same_lit(c1: Canvas, c2: Canvas, x0: int, y0: int, side: int) -> bool {
    forall|x: int, y: int| in_square(x0, y0, side, x, y) ==> #[trigger] lit(c1, x, y) == lit(c2, x, y)
}

proof fn lemma_same_lit_uniform(c1: Canvas, c2: Canvas, x0: int, y0: int, side: int)
    requires
        same_lit(c1, c2, x0, y0, side),
    ensures
        all_lit(c1, x0, y0, side) == all_lit(c2, x0, y0, side),
        none_lit(c1, x0, y0, side) == none_lit(c2, x0, y0, side),
{
    if all_lit(c1, x0, y0, side) {
        assert forall|x: int, y: int| in_square(x0, y0, side, x, y) implies #[trigger] lit(c2, x, y) by {
            assert(lit(c1, x, y));
        }
    }
    if all_lit(c2, x0, y0, side) {
        assert forall|x: int, y: int| in_square(x0, y0, side, x, y) implies #[trigger] lit(c1, x, y) by {
            assert(lit(c2, x, y));
        }
    }
    if none_lit(c1, x0, y0, side) {
        assert forall|x: int, y: int| in_square(x0, y0, side, x, y) implies !#[trigger] lit(c2, x, y) by {
            assert(!lit(c1, x, y));
        }
    }
    if none_lit(c2, x0, y0, side) {
        assert forall|x: int, y: int| in_square(x0, y0, side, x, y) implies !#[trigger] lit(c1, x, y) by {
            assert(!lit(c2, x, y));
        }
    }
}

/// Squares with the same lit pixels have the same quadtree.
pub proof fn law_quadtree_determined_by_lit(a: QuadTreeNode, b: QuadTreeNode, c1: Canvas, c2: Canvas, x0: int, y0: int, side: int)
    requires
        represents(a, c1, x0, y0, side),
        represents(b, c2, x0, y0, side),
        same_lit(c1, c2, x0, y0, side),
    ensures
        a == b,
    decreases a,
{
    lemma_same_lit_uniform(c1, c2, x0, y0, side);
    match a {
        QuadTreeNode::Shaped(t) => {
            if let QuadTreeNode::Shaped(u) = b {
                assert forall|k: int| 0 <= k < 64 implies #[trigger] t.bit(k) == u.bit(k) by {
                    assert(t.bit(k) == lit(c1, x0 + k % 8, y0 + k / 8));
                    assert(u.bit(k) == lit(c2, x0 + k % 8, y0 + k / 8));
                    assert(in_square(x0, y0, side, x0 + k % 8, y0 + k / 8));
                }
                lemma_bits_determine_tile(t, u);
            }
        },
        QuadTreeNode::Subdivided(q) => {
            if let QuadTreeNode::Subdivided(p) = b {
                let h = side / 2;
                assert(same_lit(c1, c2, x0, y0, h));
                assert(same_lit(c1, c2, x0 + h, y0, h));
                assert(same_lit(c1, c2, x0, y0 + h, h));
                assert(same_lit(c1, c2, x0 + h, y0 + h, h));
                law_quadtree_determined_by_lit(q.top_left, p.top_left, c1, c2, x0, y0, h);
                law_quadtree_determined_by_lit(q.top_right, p.top_right, c1, c2, x0 + h, y0, h);
                law_quadtree_determined_by_lit(q.bottom_left, p.bottom_left, c1, c2, x0, y0 + h, h);
                law_quadtree_determined_by_lit(q.bottom_right, p.bottom_right, c1, c2, x0 + h, y0 + h, h);
                assert(*q == *p);
            }
        },
        _ => {},
    }
}

/// Two canvases have the same quadtree exactly when their `CANVAS_SIZE` × `CANVAS_SIZE` squares
/// have the same lit pixels: neither the colour of a lit pixel nor anything outside the square
/// matters.
pub proof fn law_built_tree_determined_by_lit(a: QuadTreeNode, b: QuadTreeNode, c1: Canvas, c2: Canvas)
    requires
        represents(a, c1, 0, 0, CANVAS_SIZE as int),
        represents(b, c2, 0, 0, CANVAS_SIZE as int),
    ensures
        (a == b) <==> same_lit(c1, c2, 0, 0, CANVAS_SIZE as int),
{
    if same_lit(c1, c2, 0, 0, CANVAS_SIZE as int) {
        law_quadtree_determined_by_lit(a, b, c1, c2, 0, 0, CANVAS_SIZE as int);
    }
    if a == b {
        law_reconstruction_thresholds(c1, a);
        law_reconstruction_thresholds(c2, b);
        assert forall|x: int, y: int| in_square(0, 0, CANVAS_SIZE as int, x, y) implies #[trigger] lit(c1, x, y) == lit(c2, x, y) by {
            assert(painted(a, 0, 0, CANVAS_SIZE as int, x, y, black()) == painted(b, 0, 0, CANVAS_SIZE as int, x, y, black()));
            assert(white() != black());
        }
    }
}

/// Building the quadtree again from the drawing of a quadtree gives back the same tree.
pub proof fn law_rebuild_gives_same_tree(image: Canvas, root: QuadTreeNode, drawn: Canvas, rebuilt: QuadTreeNode)
    requires
        represents(root, image, 0, 0, CANVAS_SIZE as int),
        forall|x: u32, y: u32|
            x < CANVAS_SIZE && y < CANVAS_SIZE ==> #[trigger] canvas_pixels(drawn)[(x, y)] == painted(
                root,
                0,
                0,
                CANVAS_SIZE as int,
                x as int,
                y as int,
                black(),
            ),
        represents(rebuilt, drawn, 0, 0, CANVAS_SIZE as int),
    ensures
        rebuilt == root,
{
    law_reconstruction_thresholds(image, root);
    assert forall|x: int, y: int| in_square(0, 0, CANVAS_SIZE as int, x, y) implies #[trigger] lit(drawn, x, y) == lit(image, x, y) by {
        assert(canvas_pixels(drawn)[(x as u32, y as u32)] == painted(root, 0, 0, CANVAS_SIZE as int, x, y, black()));
        assert(white() != black());
    }
    law_quadtree_determined_by_lit(rebuilt, root, drawn, image, 0, 0, CANVAS_SIZE as int);
}

/// Each square of a listing at half the scale: position and side halved, rounding down.
pub open spec fn halved(s: Seq<(u32, u32, u32)>) -> Seq<(u32, u32, u32)> {
    s.map_values(|t: (u32, u32, u32)| ((t.0 / 2) as u32, (t.1 / 2) as u32, (t.2 / 2) as u32))
}

/// Whether halving `side` again and again stays even until it reaches 1 or 0.
pub open spec fn halves_evenly(side: int) -> bool
    decreases side,
{
    if side <= 1 {
        true
    } else {
        side % 2 == 0 && halves_evenly(side / 2)
    }
}

/// Anchors half a side apart halve to anchors a quarter side apart.
proof fn lemma_halve_anchor(ax: int, side: int)
    requires
        0 <= ax,
        0 <= side,
        halves_evenly(side),
        side <= 1 || ax % 2 == 0,
    ensures
        (ax + side / 2) / 2 == ax / 2 + (side / 2) / 2,
        halves_evenly(side / 2),
        side / 2 <= 1 || (ax + side / 2) % 2 == 0,
        side / 2 <= 1 || ax % 2 == 0,
{
    reveal_with_fuel(halves_evenly, 2);
}

#[verifier::spinoff_prover]
#[verifier::rlimit(40)]
proof fn lemma_squares_halve(node: QuadTreeNode, ax: int, ay: int, side: int)
    requires
        0 <= ax,
        0 <= ay,
        0 <= side,
        ax + side <= u32::MAX,
        ay + side <= u32::MAX,
        halves_evenly(side),
        side <= 1 || (ax % 2 == 0 && ay % 2 == 0),
    ensures
        squares(node, ax / 2, ay / 2, side / 2) is None <==> squares(node, ax, ay, side) is None,
        or_empty(squares(node, ax / 2, ay / 2, side / 2)) == halved(or_empty(squares(node, ax, ay, side))),
    decreases node,
{
    match node {
        QuadTreeNode::Subdivided(q) => {
            let h = side / 2;
            lemma_halve_anchor(ax, side);
            lemma_halve_anchor(ay, side);
            lemma_squares_halve(q.top_left, ax, ay, h);
            lemma_squares_halve(q.top_right, ax + h, ay, h);
            lemma_squares_halve(q.bottom_left, ax, ay + h, h);
            lemma_squares_halve(q.bottom_right, ax + h, ay + h, h);
            let a = or_empty(squares(q.top_left, ax, ay, h));
            let b = or_empty(squares(q.top_right, ax + h, ay, h));
            let c = or_empty(squares(q.bottom_left, ax, ay + h, h));
            let e = or_empty(squares(q.bottom_right, ax + h, ay + h, h));
            assert(halved(a + b + c + e) =~= halved(a) + halved(b) + halved(c) + halved(e));
        },
        QuadTreeNode::Full => {
            assert(halved(seq![(ax as u32, ay as u32, side as u32)]) =~= seq![((ax / 2) as u32, (ay / 2) as u32, (side / 2) as u32)]);
        },
        _ => {
            assert(halved(Seq::<(u32, u32, u32)>::empty()) =~= Seq::<(u32, u32, u32)>::empty());
        },
    }
}

/// `all_filled_squares` lists the `Full` leaves of the `CANVAS_SIZE` squares listing (from
/// `(0, 0)` with side `CANVAS_SIZE`), in the same order, each position and side halved.
pub proof fn law_filled_squares_are_halved(root: QuadTreeNode)
    requires
        full_leaves_measurable(root, 0),
    ensures
        filled(leaves(root, 0, 0, 0)) == halved(or_empty(squares(root, 0, 0, CANVAS_SIZE as int))),
{
    reveal_with_fuel(halves_evenly, 11);
    assert(halves_evenly(CANVAS_SIZE as int));
    lemma_squares_halve(root, 0, 0, CANVAS_SIZE as int);
    law_walk_reports_squares(root);
}

proof fn lemma_lua_first(n: QuadTreeNode)
    ensures
        lua(n).len() >= 1,
        lua(n)[0] == match n {
            QuadTreeNode::Empty => '0',
            QuadTreeNode::Full => '1',
            QuadTreeNode::Shaped(_) => '"',
            QuadTreeNode::Subdivided(_) => '{',
        },
{
}

proof fn lemma_lua_prefix_tile(t: TileId, u: TileId, r1: Seq<char>, r2: Seq<char>)
    requires
        seq!['"'] + t.hex() + seq!['"'] + r1 == seq!['"'] + u.hex() + seq!['"'] + r2,
    ensures
        t == u,
        r1 == r2,
{
    let x = seq!['"'] + t.hex() + seq!['"'] + r1;
    let y = seq!['"'] + u.hex() + seq!['"'] + r2;
    law_hex_reads_back_as_mask(t);
    law_hex_reads_back_as_mask(u);
    assert(x.subrange(1, 17) =~= t.hex());
    assert(y.subrange(1, 17) =~= u.hex());
    lemma_mask_injective(t, u);
    assert(x.subrange(18, x.len() as int) =~= r1);
    assert(y.subrange(18, y.len() as int) =~= r2);
}

/// The spelling of a subdivided node, cut after its opening brace.
proof fn lemma_lua_subdivided(q: Quadrants, r: Seq<char>)
    ensures
        (lua(QuadTreeNode::Subdivided(Box::new(q))) + r).drop_first() =~= lua(q.top_left) + (seq![',']
            + lua(q.top_right) + (seq![','] + lua(q.bottom_left) + (seq![','] + lua(q.bottom_right) + (
        seq!['}'] + r)))),
{
}

/// A Lua spelling followed by anything determines the node and what follows it.
#[verifier::spinoff_prover]
#[verifier::rlimit(80)]
proof fn lemma_lua_prefix_free(a: QuadTreeNode, b: QuadTreeNode, r1: Seq<char>, r2: Seq<char>)
    requires
        lua(a) + r1 == lua(b) + r2,
    ensures
        a == b,
        r1 == r2,
    decreases a,
{
    lemma_lua_first(a);
    lemma_lua_first(b);
    assert((lua(a) + r1)[0] == lua(a)[0]);
    assert((lua(b) + r2)[0] == lua(b)[0]);
    match a {
        QuadTreeNode::Shaped(t) => {
            if let QuadTreeNode::Shaped(u) = b {
                lemma_lua_prefix_tile(t, u, r1, r2);
            }
        },
        QuadTreeNode::Subdivided(q) => {
            if let QuadTreeNode::Subdivided(p) = b {
                let comma: Seq<char> = seq![','];
                let close: Seq<char> = seq!['}'];
                let a3 = comma + lua(q.bottom_right) + (close + r1);
                let a2 = comma + lua(q.bottom_left) + a3;
                let a1 = comma + lua(q.top_right) + a2;
                let b3 = comma + lua(p.bottom_right) + (close + r2);
                let b2 = comma + lua(p.bottom_left) + b3;
                let b1 = comma + lua(p.top_right) + b2;
                lemma_lua_subdivided(*q, r1);
                lemma_lua_subdivided(*p, r2);
                lemma_lua_prefix_free(q.top_left, p.top_left, a1, b1);
                assert(a1.drop_first() =~= lua(q.top_right) + a2);
                assert(b1.drop_first() =~= lua(p.top_right) + b2);
                lemma_lua_prefix_free(q.top_right, p.top_right, a2, b2);
                assert(a2.drop_first() =~= lua(q.bottom_left) + a3);
                assert(b2.drop_first() =~= lua(p.bottom_left) + b3);
                lemma_lua_prefix_free(q.bottom_left, p.bottom_left, a3, b3);
                assert(a3.drop_first() =~= lua(q.bottom_right) + (close + r1));
                assert(b3.drop_first() =~= lua(p.bottom_right) + (close + r2));
                lemma_lua_prefix_free(q.bottom_right, p.bottom_right, close + r1, close + r2);
                assert((close + r1).drop_first() =~= r1);
                assert((close + r2).drop_first() =~= r2);
                assert(*q == *p);
            }
        },
        _ => {
            assert((lua(a) + r1).drop_first() =~= r1);
            assert((lua(b) + r2).drop_first() =~= r2);
        },
    }
}

/// Different nodes have different Lua spellings: the spelling can be read back into the tree,
/// tiles included.
pub proof fn law_lua_injective(a: QuadTreeNode, b: QuadTreeNode)
    ensures
        (lua(a) == lua(b)) <==> (a == b),
{
    if lua(a) == lua(b) {
        assert(lua(a) + Seq::<char>::empty() =~= lua(b) + Seq::<char>::empty());
        lemma_lua_prefix_free(a, b, Seq::empty(), Seq::empty());
    }
}

/// Total area of the squares a run of walked leaves is given, each of the side the walk gives
/// its depth.
pub open spec fn walk_area(s: Seq<Entry>) -> int
    decreases s.len(),
{
    if s.len() == 0 {
        0
    } else {
        side_at(s[0].3 as int) * side_at(s[0].3 as int) + walk_area(s.drop_first())
    }
}

proof fn lemma_walk_area_concat(a: Seq<Entry>, b: Seq<Entry>)
    ensures
        walk_area(a + b) == walk_area(a) + walk_area(b),
    decreases a.len(),
{
    if a.len() == 0 {
        assert(a + b =~= b);
    } else {
        assert((a + b).drop_first() =~= a.drop_first() + b);
        assert((a + b)[0] == a[0]);
        lemma_walk_area_concat(a.drop_first(), b);
    }
}

proof fn lemma_walk_area(node: QuadTreeNode, x: int, y: int, d: int)
    requires
        0 <= d <= 8,
        subdivided_shallow(node, d),
    ensures
        walk_area(leaves(node, x, y, d)) == side_at(d) * side_at(d),
    decreases node,
{
    lemma_side_values(d);
    if let QuadTreeNode::Subdivided(q) = node {
        lemma_side_values(d + 1);
        let hs = side_at(d) / 2;
        lemma_walk_area(q.top_left, x, y, d + 1);
        lemma_walk_area(q.top_right, x + hs, y, d + 1);
        lemma_walk_area(q.bottom_left, x, y + hs, d + 1);
        lemma_walk_area(q.bottom_right, x + hs, y + hs, d + 1);
        let a = leaves(q.top_left, x, y, d + 1);
        let b = leaves(q.top_right, x + hs, y, d + 1);
        let c = leaves(q.bottom_left, x, y + hs, d + 1);
        let e = leaves(q.bottom_right, x + hs, y + hs, d + 1);
        lemma_walk_area_concat(a, b);
        lemma_walk_area_concat(a + b, c);
        lemma_walk_area_concat(a + b + c, e);
        let t = side_at(d + 1);
        assert(side_at(d) * side_at(d) == 4 * (t * t)) by (nonlinear_arith)
            requires
                side_at(d) == 2 * t,
        ;
    } else {
        let s = seq![(node, x as u32, y as u32, d as u8)];
        assert(leaves(node, x, y, d) == s);
        assert(s.drop_first() =~= Seq::<Entry>::empty());
        assert(s[0].3 as int == d);
        assert(walk_area(Seq::<Entry>::empty()) == 0);
    }
}

/// For a tree whose subdivided nodes are shallower than 8, the areas of the squares the walk
/// gives its leaves add up to the area of the `CANVAS_SIZE / 2` frame.
pub proof fn law_walk_area(root: QuadTreeNode)
    requires
        subdivided_shallow(root, 0),
    ensures
        walk_area(leaves(root, 0, 0, 0)) == (CANVAS_SIZE / 2) * (CANVAS_SIZE / 2),
{
    lemma_side_halves(0);
    lemma_walk_area(root, 0, 0, 0);
}

/// Number of lit pixels among the `n` pixels of row `y` from `x0` on.
pub open spec fn row_lit(c: Canvas, x0: int, y: int, n: int) -> nat
    decreases n,
{
    if n <= 0 {
        0
    } else {
        row_lit(c, x0, y, n - 1) + if lit(c, x0 + n - 1, y) {
            1nat
        } else {
            0nat
        }
    }
}

/// Number of lit pixels in the `w` × `h` rectangle at `(x0, y0)`.
pub open spec fn rect_lit(c: Canvas, x0: int, y0: int, w: int, h: int) -> nat
    decreases h,
{
    if h <= 0 {
        0
    } else {
        rect_lit(c, x0, y0, w, h - 1) + row_lit(c, x0, y0 + h - 1, w)
    }
}

/// Area of the `Full` leaves under `node`, whose square has side `side`.
pub open spec fn full_area(node: QuadTreeNode, side: int) -> int
    decreases node,
{
    match node {
        QuadTreeNode::Full => side * side,
        QuadTreeNode::Subdivided(q) => {
            let h = side / 2;
            full_area(q.top_left, h) + full_area(q.top_right, h) + full_area(q.bottom_left, h)
                + full_area(q.bottom_right, h)
        },
        _ => 0,
    }
}

/// Four times the total area of a listing of squares given at half scale: the area they cover
/// at full scale.
pub open spec fn full_scale_area(s: Seq<(u32, u32, u32)>) -> int
    decreases s.len(),
{
    if s.len() == 0 {
        0
    } else {
        4 * (s[0].2 * s[0].2) + full_scale_area(s.drop_first())
    }
}

proof fn lemma_row_split(c: Canvas, x0: int, y: int, a: int, b: int)
    requires
        0 <= a,
        0 <= b,
    ensures
        row_lit(c, x0, y, a + b) == row_lit(c, x0, y, a) + row_lit(c, x0 + a, y, b),
    decreases b,
{
    if b > 0 {
        lemma_row_split(c, x0, y, a, b - 1);
    }
}

proof fn lemma_rect_split_width(c: Canvas, x0: int, y0: int, a: int, b: int, h: int)
    requires
        0 <= a,
        0 <= b,
        0 <= h,
    ensures
        rect_lit(c, x0, y0, a + b, h) == rect_lit(c, x0, y0, a, h) + rect_lit(c, x0 + a, y0, b, h),
    decreases h,
{
    if h > 0 {
        lemma_rect_split_width(c, x0, y0, a, b, h - 1);
        lemma_row_split(c, x0, y0 + h - 1, a, b);
    }
}

proof fn lemma_rect_split_height(c: Canvas, x0: int, y0: int, w: int, a: int, b: int)
    requires
        0 <= a,
        0 <= b,
    ensures
        rect_lit(c, x0, y0, w, a + b) == rect_lit(c, x0, y0, w, a) + rect_lit(c, x0, y0 + a, w, b),
    decreases b,
{
    if b > 0 {
        lemma_rect_split_height(c, x0, y0, w, a, b - 1);
    }
}

proof fn lemma_row_uniform(c: Canvas, x0: int, y: int, n: int, on: bool)
    requires
        0 <= n,
        forall|x: int| x0 <= x < x0 + n ==> #[trigger] lit(c, x, y) == on,
    ensures
        row_lit(c, x0, y, n) == if on {
            n
        } else {
            0
        },
    decreases n,
{
    if n > 0 {
        lemma_row_uniform(c, x0, y, n - 1, on);
        assert(lit(c, x0 + n - 1, y) == on);
    }
}

proof fn lemma_rect_uniform(c: Canvas, x0: int, y0: int, w: int, h: int, on: bool)
    requires
        0 <= w,
        0 <= h,
        forall|x: int, y: int| x0 <= x < x0 + w && y0 <= y < y0 + h ==> #[trigger] lit(c, x, y) == on,
    ensures
        rect_lit(c, x0, y0, w, h) == if on {
            w * h
        } else {
            0
        },
    decreases h,
{
    if h > 0 {
        lemma_rect_uniform(c, x0, y0, w, h - 1, on);
        assert forall|x: int| x0 <= x < x0 + w implies #[trigger] lit(c, x, y0 + h - 1) == on by {}
        lemma_row_uniform(c, x0, y0 + h - 1, w, on);
        assert(w * (h - 1) + w == w * h) by (nonlinear_arith);
    }
}

/// Counting a tile's samples row by row counts the lit pixels of its square.
proof fn lemma_tile_rows(t: TileId, c: Canvas, x0: int, y0: int, r: int, j: int)
    requires
        tile_of_square(t, c, x0, y0),
        0 <= r < 8,
        0 <= j <= 8,
    ensures
        count_true(t.samples(), 8 * r + j) == rect_lit(c, x0, y0, 8, r) + row_lit(c, x0, y0 + r, j),
    decreases r, j,
{
    if j > 0 {
        lemma_tile_rows(t, c, x0, y0, r, j - 1);
        let k = 8 * r + j - 1;
        assert(k % 8 == j - 1 && k / 8 == r);
        assert(t.samples()[k] == t.bit(k));
        assert(t.bit(k) == lit(c, x0 + k % 8, y0 + k / 8));
    } else if r > 0 {
        lemma_tile_rows(t, c, x0, y0, r - 1, 8);
    }
}

proof fn lemma_tile_lit(t: TileId, c: Canvas, x0: int, y0: int)
    requires
        tile_of_square(t, c, x0, y0),
    ensures
        rect_lit(c, x0, y0, 8, 8) == tile_ones(t),
{
    lemma_tile_rows(t, c, x0, y0, 7, 8);
    assert(rect_lit(c, x0, y0, 8, 8) == rect_lit(c, x0, y0, 8, 7) + row_lit(c, x0, y0 + 7, 8));
}

/// The lit pixels of a square are those of its `Full` leaves plus the lit samples of its tiles.
proof fn lemma_lit_count(node: QuadTreeNode, c: Canvas, x0: int, y0: int, side: int)
    requires
        represents(node, c, x0, y0, side),
        halves_to_tile(side),
    ensures
        rect_lit(c, x0, y0, side, side) == full_area(node, side) + tiles_ones(shapes(node)),
    decreases node,
{
    assert(side >= 8) by {
        reveal_with_fuel(halves_to_tile, 2);
    }
    match node {
        QuadTreeNode::Full => {
            assert forall|x: int, y: int| x0 <= x < x0 + side && y0 <= y < y0 + side implies #[trigger] lit(c, x, y) == true by {
                assert(in_square(x0, y0, side, x, y));
            }
            lemma_rect_uniform(c, x0, y0, side, side, true);
            assert(tiles_ones(Seq::<TileId>::empty()) == 0);
        },
        QuadTreeNode::Empty => {
            assert forall|x: int, y: int| x0 <= x < x0 + side && y0 <= y < y0 + side implies #[trigger] lit(c, x, y) == false by {
                assert(in_square(x0, y0, side, x, y));
            }
            lemma_rect_uniform(c, x0, y0, side, side, false);
            assert(tiles_ones(Seq::<TileId>::empty()) == 0);
        },
        QuadTreeNode::Shaped(t) => {
            lemma_tile_lit(t, c, x0, y0);
            assert(seq![t].drop_first() =~= Seq::<TileId>::empty());
            assert(tiles_ones(seq![t]) == tile_ones(t) + tiles_ones(Seq::<TileId>::empty()));
        },
        QuadTreeNode::Subdivided(q) => {
            let h = side / 2;
            assert(halves_to_tile(h));
            assert(side == h + h);
            lemma_lit_count(q.top_left, c, x0, y0, h);
            lemma_lit_count(q.top_right, c, x0 + h, y0, h);
            lemma_lit_count(q.bottom_left, c, x0, y0 + h, h);
            lemma_lit_count(q.bottom_right, c, x0 + h, y0 + h, h);
            lemma_rect_split_height(c, x0, y0, side, h, h);
            lemma_rect_split_width(c, x0, y0, h, h, h);
            lemma_rect_split_width(c, x0, y0 + h, h, h, h);
            let a = shapes(q.top_left);
            let b = shapes(q.top_right);
            let d = shapes(q.bottom_left);
            let e = shapes(q.bottom_right);
            law_tiles_ones_add_up(a, b);
            law_tiles_ones_add_up(a + b, d);
            law_tiles_ones_add_up(a + b + d, e);
        },
    }
}

proof fn lemma_full_scale_area_concat(a: Seq<(u32, u32, u32)>, b: Seq<(u32, u32, u32)>)
    ensures
        full_scale_area(a + b) == full_scale_area(a) + full_scale_area(b),
    decreases a.len(),
{
    if a.len() == 0 {
        assert(a + b =~= b);
    } else {
        assert((a + b).drop_first() =~= a.drop_first() + b);
        assert((a + b)[0] == a[0]);
        lemma_full_scale_area_concat(a.drop_first(), b);
    }
}

/// The walk's filled squares, at full scale, cover the area of the `Full` leaves.
proof fn lemma_filled_area(node: QuadTreeNode, x: int, y: int, d: int)
    requires
        0 <= d <= 8,
        subdivided_shallow(node, d),
    ensures
        full_scale_area(filled(leaves(node, x, y, d))) == full_area(node, 2 * side_at(d)),
    decreases node,
{
    lemma_side_values(d);
    match node {
        QuadTreeNode::Subdivided(q) => {
            lemma_side_values(d + 1);
            let hs = side_at(d) / 2;
            lemma_filled_area(q.top_left, x, y, d + 1);
            lemma_filled_area(q.top_right, x + hs, y, d + 1);
            lemma_filled_area(q.bottom_left, x, y + hs, d + 1);
            lemma_filled_area(q.bottom_right, x + hs, y + hs, d + 1);
            let a = leaves(q.top_left, x, y, d + 1);
            let b = leaves(q.top_right, x + hs, y, d + 1);
            let c = leaves(q.bottom_left, x, y + hs, d + 1);
            let e = leaves(q.bottom_right, x + hs, y + hs, d + 1);
            lemma_filled_concat(a, b);
            lemma_filled_concat(a + b, c);
            lemma_filled_concat(a + b + c, e);
            lemma_full_scale_area_concat(filled(a), filled(b));
            lemma_full_scale_area_concat(filled(a) + filled(b), filled(c));
            lemma_full_scale_area_concat(filled(a) + filled(b) + filled(c), filled(e));
            assert((2 * side_at(d)) / 2 == 2 * side_at(d + 1));
        },
        _ => {
            let en = (node, x as u32, y as u32, d as u8);
            assert(leaves(node, x, y, d) == seq![en]);
            lemma_filled_one(en);
            assert(en.3 as int == d);
            assert(full_scale_area(Seq::<(u32, u32, u32)>::empty()) == 0);
            if node is Full {
                let sq: Seq<(u32, u32, u32)> = seq![(en.1, en.2, side_at(d) as u32)];
                assert(filled(seq![en]) == sq);
                assert(sq.drop_first() =~= Seq::<(u32, u32, u32)>::empty());
                let t = side_at(d);
                assert(sq[0].2 as int == t);
                assert(full_scale_area(sq) == 4 * (t * t) + full_scale_area(Seq::<(u32, u32, u32)>::empty()));
                assert(4 * (t * t) == (2 * t) * (2 * t)) by (nonlinear_arith);
            } else {
                assert(filled(seq![en]) == Seq::<(u32, u32, u32)>::empty());
            }
        },
    }
}

/// The lit pixels of a canvas's `CANVAS_SIZE` square add up from its quadtree: four times the
/// area of each filled square the walk reports (at half scale), plus the lit samples of each
/// tile.
pub proof fn law_lit_pixels_add_up(image: Canvas, root: QuadTreeNode)
    requires
        represents(root, image, 0, 0, CANVAS_SIZE as int),
    ensures
        rect_lit(image, 0, 0, CANVAS_SIZE as int, CANVAS_SIZE as int) == full_scale_area(filled(leaves(root, 0, 0, 0)))
            + tiles_ones(shapes(root)),
{
    reveal_with_fuel(halves_to_tile, 8);
    assert(halves_to_tile(CANVAS_SIZE as int));
    lemma_lit_count(root, image, 0, 0, CANVAS_SIZE as int);
    law_built_tree_shallow(image, root);
    lemma_side_values(0);
    lemma_side_halves(0);
    lemma_filled_area(root, 0, 0, 0);
}

} // verus!
