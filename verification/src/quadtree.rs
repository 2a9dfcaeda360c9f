//! The region quadtree of a square of a canvas.
use vstd::prelude::*;
use crate::canvas::{
    black, black_color, canvas_pixels, canvas_size, image_get_pixel, image_new, image_put_pixel, white,
    white_color, Canvas, Color,
};
use vstd::arithmetic::div_mod::{lemma_fundamental_div_mod, lemma_fundamental_div_mod_converse};
use crate::laws::{law_built_tree_tile_pixels, law_built_tree_walkable, law_reconstruction_thresholds};
use crate::text::push_char;
use crate::walk::{full_leaves_measurable, tiles_ones, walkable};
use crate::tile::{lemma_mask_bits, TileId, SAMPLE_SIZE};

verus! {

/// Side, in pixels, of the square a quadtree covers.
pub const CANVAS_SIZE: u32 = 512;

/// The four quarters of a subdivided square.
#[derive(Debug, PartialEq, Eq)]
pub struct Quadrants {
    /// The quarter at the square's corner.
    pub top_left: QuadTreeNode,
    /// The quarter half a side to the right.
    pub top_right: QuadTreeNode,
    /// The quarter half a side down.
    pub bottom_left: QuadTreeNode,
    /// The quarter half a side right and down.
    pub bottom_right: QuadTreeNode,
}

/// A square of the canvas.
#[derive(Debug, PartialEq, Eq)]
pub enum QuadTreeNode {
    /// Every pixel is lit.
    Full,
    /// No pixel is lit.
    Empty,
    /// Some pixels are lit and some are not; the four quarters follow.
    Subdivided(Box<Quadrants>),
    /// An 8×8 square with lit and unlit pixels, as a bit pattern.
    Shaped(TileId),
}

/// The quadtree of a `CANVAS_SIZE` × `CANVAS_SIZE` canvas.
#[derive(Debug)]
pub struct QuadTree {
    pub root: QuadTreeNode,
}

/// Whether the pixel at `(x, y)` is lit: anything but black.
pub open spec fn lit(c: Canvas, x: int, y: int) -> bool {
    canvas_pixels(c)[(x as u32, y as u32)] != black()
}

/// Whether `(x, y)` lies in the square of side `side` whose top-left corner is `(x0, y0)`.
pub open spec fn in_square(x0: int, y0: int, side: int, x: int, y: int) -> bool {
    x0 <= x < x0 + side && y0 <= y < y0 + side
}

/// Whether every pixel of the square is lit.
pub open spec fn all_lit(c: Canvas, x0: int, y0: int, side: int) -> bool {
    forall|x: int, y: int| in_square(x0, y0, side, x, y) ==> #[trigger] lit(c, x, y)
}

/// Whether no pixel of the square is lit.
pub open spec fn none_lit(c: Canvas, x0: int, y0: int, side: int) -> bool {
    forall|x: int, y: int| in_square(x0, y0, side, x, y) ==> !#[trigger] lit(c, x, y)
}

/// Whether the tile's bits are the lit pixels of the 8×8 square at `(x0, y0)`, row by row.
pub open spec fn tile_of_square(t: TileId, c: Canvas, x0: int, y0: int) -> bool {
    forall|k: int| 0 <= k < 64 ==> #[trigger] t.bit(k) == lit(c, x0 + k % 8, y0 + k / 8)
}

/// Whether `node` is the quadtree of the square of side `side` at `(x0, y0)`: `Full` where all
/// is lit, `Empty` where nothing is, a tile for a mixed square of side 8, and otherwise the
/// quarters (of side `side / 2`) of a mixed square.
pub open spec fn represents(node: QuadTreeNode, c: Canvas, x0: int, y0: int, side: int) -> bool
    decreases node,
{
    match node {
        QuadTreeNode::Full => all_lit(c, x0, y0, side),
        QuadTreeNode::Empty => !all_lit(c, x0, y0, side) && none_lit(c, x0, y0, side),
        QuadTreeNode::Shaped(t) => {
            &&& !all_lit(c, x0, y0, side)
            &&& !none_lit(c, x0, y0, side)
            &&& side == SAMPLE_SIZE
            &&& tile_of_square(t, c, x0, y0)
        },
        QuadTreeNode::Subdivided(q) => {
            let h = side / 2;
            &&& !all_lit(c, x0, y0, side)
            &&& !none_lit(c, x0, y0, side)
            &&& side != SAMPLE_SIZE
            &&& represents(q.top_left, c, x0, y0, h)
            &&& represents(q.top_right, c, x0 + h, y0, h)
            &&& represents(q.bottom_left, c, x0, y0 + h, h)
            &&& represents(q.bottom_right, c, x0 + h, y0 + h, h)
        },
    }
}

/// Whether painting `node` into a square of side `side` stays within what the tile bits can
/// address: a tile is painted into a square of side at most 8.
pub open spec fn paintable(node: QuadTreeNode, side: int) -> bool
    decreases node,
{
    match node {
        QuadTreeNode::Shaped(_) => side <= SAMPLE_SIZE,
        QuadTreeNode::Subdivided(q) => {
            let h = side / 2;
            &&& paintable(q.top_left, h)
            &&& paintable(q.top_right, h)
            &&& paintable(q.bottom_left, h)
            &&& paintable(q.bottom_right, h)
        },
        _ => true,
    }
}

/// The colour of a tile's pixel with index `i` (row by row in a square of the given side).
pub open spec fn tile_color(t: TileId, i: int) -> Color {
    if (t.spec_mask() >> (i as u64)) & 1u64 == 1u64 {
        white()
    } else {
        black()
    }
}

/// The colour of pixel `(x, y)`, which was `under`, after `node` is painted into the square of
/// side `side` at `(ax, ay)`: `Full` paints white, `Empty` paints nothing, a tile paints each
/// pixel white or black by its bit, and quarters are painted in order.
pub open spec fn painted(node: QuadTreeNode, ax: int, ay: int, side: int, x: int, y: int, under: Color) -> Color
    decreases node,
{
    match node {
        QuadTreeNode::Empty => under,
        QuadTreeNode::Full => if in_square(ax, ay, side, x, y) {
            white()
        } else {
            under
        },
        QuadTreeNode::Shaped(t) => if in_square(ax, ay, side, x, y) {
            tile_color(t, (y - ay) * side + (x - ax))
        } else {
            under
        },
        QuadTreeNode::Subdivided(q) => {
            let h = side / 2;
            let c0 = painted(q.top_left, ax, ay, h, x, y, under);
            let c1 = painted(q.top_right, ax + h, ay, h, x, y, c0);
            let c2 = painted(q.bottom_left, ax, ay + h, h, x, y, c1);
            painted(q.bottom_right, ax + h, ay + h, h, x, y, c2)
        },
    }
}

/// Whether halving `side` again and again reaches 8 with every side on the way even.
pub open spec fn halves_to_tile(side: int) -> bool
    decreases side,
{
    if side <= SAMPLE_SIZE {
        side == SAMPLE_SIZE
    } else {
        side % 2 == 0 && halves_to_tile(side / 2)
    }
}

/// Painting a node leaves every pixel outside its square as it was.
pub proof fn lemma_painted_outside(node: QuadTreeNode, ax: int, ay: int, side: int, x: int, y: int, under: Color)
    requires
        0 <= side,
        !in_square(ax, ay, side, x, y),
    ensures
        painted(node, ax, ay, side, x, y, under) == under,
    decreases node,
{
    if let QuadTreeNode::Subdivided(q) = node {
        let h = side / 2;
        let c0 = painted(q.top_left, ax, ay, h, x, y, under);
        lemma_painted_outside(q.top_left, ax, ay, h, x, y, under);
        let c1 = painted(q.top_right, ax + h, ay, h, x, y, c0);
        lemma_painted_outside(q.top_right, ax + h, ay, h, x, y, c0);
        let c2 = painted(q.bottom_left, ax, ay + h, h, x, y, c1);
        lemma_painted_outside(q.bottom_left, ax, ay + h, h, x, y, c1);
        lemma_painted_outside(q.bottom_right, ax + h, ay + h, h, x, y, c2);
    }
}

/// The quadtree of a square only holds tiles in squares of side 8, so it can be painted.
pub proof fn lemma_represents_paintable(node: QuadTreeNode, c: Canvas, x0: int, y0: int, side: int)
    requires
        represents(node, c, x0, y0, side),
    ensures
        paintable(node, side),
    decreases node,
{
    if let QuadTreeNode::Subdivided(q) = node {
        let h = side / 2;
        lemma_represents_paintable(q.top_left, c, x0, y0, h);
        lemma_represents_paintable(q.top_right, c, x0 + h, y0, h);
        lemma_represents_paintable(q.bottom_left, c, x0, y0 + h, h);
        lemma_represents_paintable(q.bottom_right, c, x0 + h, y0 + h, h);
    }
}

/// Painting the quadtree of a square whose side halves down to 8 onto black turns each pixel of
/// the square white where it is lit and leaves it black where it is not.
pub proof fn lemma_represents_paints(node: QuadTreeNode, c: Canvas, x0: int, y0: int, side: int)
    requires
        represents(node, c, x0, y0, side),
        halves_to_tile(side),
    ensures
        forall|x: int, y: int|
            in_square(x0, y0, side, x, y) ==> #[trigger] painted(node, x0, y0, side, x, y, black()) == if lit(c, x, y) {
                white()
            } else {
                black()
            },
    decreases node,
{
    match node {
        QuadTreeNode::Full => {},
        QuadTreeNode::Empty => {},
        QuadTreeNode::Shaped(t) => {
            lemma_mask_bits(t);
            assert forall|x: int, y: int| in_square(x0, y0, side, x, y) implies #[trigger] painted(node, x0, y0, side, x, y, black()) == if lit(c, x, y) {
                white()
            } else {
                black()
            } by {
                let k = (y - y0) * 8 + (x - x0);
                lemma_fundamental_div_mod_converse(k, 8, y - y0, x - x0);
                assert(t.bit(k) == lit(c, x0 + k % 8, y0 + k / 8));
            }
        },
        QuadTreeNode::Subdivided(q) => {
            let h = side / 2;
            assert(halves_to_tile(h));
            lemma_represents_paints(q.top_left, c, x0, y0, h);
            lemma_represents_paints(q.top_right, c, x0 + h, y0, h);
            lemma_represents_paints(q.bottom_left, c, x0, y0 + h, h);
            lemma_represents_paints(q.bottom_right, c, x0 + h, y0 + h, h);
            assert forall|x: int, y: int| in_square(x0, y0, side, x, y) implies #[trigger] painted(node, x0, y0, side, x, y, black()) == if lit(c, x, y) {
                white()
            } else {
                black()
            } by {
                let b = black();
                let c0 = painted(q.top_left, x0, y0, h, x, y, b);
                let c1 = painted(q.top_right, x0 + h, y0, h, x, y, c0);
                let c2 = painted(q.bottom_left, x0, y0 + h, h, x, y, c1);
                if !in_square(x0, y0, h, x, y) {
                    lemma_painted_outside(q.top_left, x0, y0, h, x, y, b);
                }
                if !in_square(x0 + h, y0, h, x, y) {
                    lemma_painted_outside(q.top_right, x0 + h, y0, h, x, y, c0);
                }
                if !in_square(x0, y0 + h, h, x, y) {
                    lemma_painted_outside(q.bottom_left, x0, y0 + h, h, x, y, c1);
                }
                if !in_square(x0 + h, y0 + h, h, x, y) {
                    lemma_painted_outside(q.bottom_right, x0 + h, y0 + h, h, x, y, c2);
                }
                assert(painted(node, x0, y0, side, x, y, b) == painted(q.bottom_right, x0 + h, y0 + h, h, x, y, c2));
                assert(side == 2 * h);
                if in_square(x0, y0, h, x, y) {
                    assert(c0 == painted(q.top_left, x0, y0, h, x, y, black()));
                } else if in_square(x0 + h, y0, h, x, y) {
                    assert(c1 == painted(q.top_right, x0 + h, y0, h, x, y, black()));
                } else if in_square(x0, y0 + h, h, x, y) {
                    assert(c2 == painted(q.bottom_left, x0, y0 + h, h, x, y, black()));
                } else {
                    assert(in_square(x0 + h, y0 + h, h, x, y));
                    assert(c2 == black());
                    assert(painted(q.bottom_right, x0 + h, y0 + h, h, x, y, black()) == if lit(c, x, y) {
                        white()
                    } else {
                        black()
                    });
                }
            }
        },
    }
}

/// Row-major indexing: within a square of side `side`, pixel `(dx, dy)` has index `dy * side + dx`,
/// and index `i` is pixel `(i % side, i / side)`.
proof fn lemma_row_major(i: int, side: int, dx: int, dy: int)
    requires
        0 < side,
        0 <= dx < side,
        0 <= dy,
    ensures
        (dy * side + dx == i) <==> (dx == i % side && dy == i / side),
{
    if dy * side + dx == i {
        lemma_fundamental_div_mod_converse(i, side, dy, dx);
    }
    if dx == i % side && dy == i / side {
        lemma_fundamental_div_mod(i, side);
        assert(side * (i / side) == dy * side) by (nonlinear_arith)
            requires
                dy == i / side,
        ;
    }
}

proof fn lemma_row_major_bounds(i: int, side: int)
    requires
        0 < side,
        0 <= i < side * side,
    ensures
        0 <= i % side < side,
        0 <= i / side < side,
        (i / side) * side + i % side == i,
{
    lemma_fundamental_div_mod(i, side);
    vstd::arithmetic::div_mod::lemma_mod_pos_bound(i, side);
    assert(0 <= i / side < side) by (nonlinear_arith)
        requires
            0 < side,
            0 <= i < side * side,
            i == side * (i / side) + i % side,
            0 <= i % side < side,
    ;
    assert((i / side) * side == side * (i / side)) by (nonlinear_arith);
}

/// The squares of the `Full` leaves under `node` (whose square has side `side` at `(ax, ay)`),
/// each as `(x, y, side)`, quarters in order; `None` for a tile or an empty square.
pub open spec fn squares(node: QuadTreeNode, ax: int, ay: int, side: int) -> Option<Seq<(u32, u32, u32)>>
    decreases node,
{
    match node {
        QuadTreeNode::Shaped(_) => None,
        QuadTreeNode::Empty => None,
        QuadTreeNode::Full => Some(seq![(ax as u32, ay as u32, side as u32)]),
        QuadTreeNode::Subdivided(q) => {
            let h = side / 2;
            Some(
                or_empty(squares(q.top_left, ax, ay, h)) + or_empty(squares(q.top_right, ax + h, ay, h))
                    + or_empty(squares(q.bottom_left, ax, ay + h, h)) + or_empty(
                    squares(q.bottom_right, ax + h, ay + h, h),
                ),
            )
        },
    }
}

/// Whether the positions of all quarters under `node` (whose square has side `side` at
/// `(ax, ay)`) fit in `u32`.
pub open spec fn anchors_fit(node: QuadTreeNode, ax: int, ay: int, side: int) -> bool
    decreases node,
{
    match node {
        QuadTreeNode::Subdivided(q) => {
            let h = side / 2;
            &&& ax + h <= u32::MAX
            &&& ay + h <= u32::MAX
            &&& anchors_fit(q.top_left, ax, ay, h)
            &&& anchors_fit(q.top_right, ax + h, ay, h)
            &&& anchors_fit(q.bottom_left, ax, ay + h, h)
            &&& anchors_fit(q.bottom_right, ax + h, ay + h, h)
        },
        _ => true,
    }
}

/// The squares found, or none.
pub open spec fn or_empty(o: Option<Seq<(u32, u32, u32)>>) -> Seq<(u32, u32, u32)> {
    match o {
        Some(s) => s,
        None => Seq::empty(),
    }
}

/// The tiles under `node`, quarters in order.
pub open spec fn shapes(node: QuadTreeNode) -> Seq<TileId>
    decreases node,
{
    match node {
        QuadTreeNode::Shaped(t) => seq![t],
        QuadTreeNode::Subdivided(q) => shapes(q.top_left) + shapes(q.top_right) + shapes(q.bottom_left)
            + shapes(q.bottom_right),
        _ => Seq::empty(),
    }
}

/// The Lua spelling of a node: `0` for empty, `1` for full, a tile as its hexadecimal spelling
/// in double quotes, and quarters as `{a,b,c,d}`.
pub open spec fn lua(node: QuadTreeNode) -> Seq<char>
    decreases node,
{
    match node {
        QuadTreeNode::Empty => seq!['0'],
        QuadTreeNode::Full => seq!['1'],
        QuadTreeNode::Shaped(t) => seq!['"'] + t.hex() + seq!['"'],
        QuadTreeNode::Subdivided(q) => seq!['{'] + lua(q.top_left) + seq![','] + lua(q.top_right) + seq![',']
            + lua(q.bottom_left) + seq![','] + lua(q.bottom_right) + seq!['}'],
    }
}

/// Whether the squares that drawing `node` writes to — those of its `Full` and `Shaped`
/// leaves, placed from the square of side `side` at `(ax, ay)` — lie inside a `w` × `h` image.
pub open spec fn drawn_inside(node: QuadTreeNode, w: int, h: int, ax: int, ay: int, side: int) -> bool
    decreases node,
{
    match node {
        QuadTreeNode::Empty => true,
        QuadTreeNode::Subdivided(q) => {
            let hs = side / 2;
            &&& drawn_inside(q.top_left, w, h, ax, ay, hs)
            &&& drawn_inside(q.top_right, w, h, ax + hs, ay, hs)
            &&& drawn_inside(q.bottom_left, w, h, ax, ay + hs, hs)
            &&& drawn_inside(q.bottom_right, w, h, ax + hs, ay + hs, hs)
        },
        _ => 0 <= ax && 0 <= ay && 0 <= side && ax + side <= w && ay + side <= h,
    }
}

/// A node placed in a square that lies inside a `w` × `h` image (whose sides fit in `u32`)
/// draws inside it, and the positions of its quarters fit in `u32`.
pub proof fn lemma_square_drawn_inside(node: QuadTreeNode, w: int, h: int, ax: int, ay: int, side: int)
    requires
        0 <= ax,
        0 <= ay,
        0 <= side,
        ax + side <= w <= u32::MAX,
        ay + side <= h <= u32::MAX,
    ensures
        drawn_inside(node, w, h, ax, ay, side),
        anchors_fit(node, ax, ay, side),
    decreases node,
{
    if let QuadTreeNode::Subdivided(q) = node {
        let hs = side / 2;
        lemma_square_drawn_inside(q.top_left, w, h, ax, ay, hs);
        lemma_square_drawn_inside(q.top_right, w, h, ax + hs, ay, hs);
        lemma_square_drawn_inside(q.bottom_left, w, h, ax, ay + hs, hs);
        lemma_square_drawn_inside(q.bottom_right, w, h, ax + hs, ay + hs, hs);
    }
}

/// Whether the square of side `side` at `(x, y)` lies inside the canvas.
pub open spec fn square_inside(c: Canvas, x: int, y: int, side: int) -> bool {
    &&& 0 <= x
    &&& 0 <= y
    &&& 0 <= side
    &&& x + side <= canvas_size(c).0
    &&& y + side <= canvas_size(c).1
}

/// Whether every pixel of the square is lit.
fn all_white(img: &Canvas, x0: u32, y0: u32, side_size: u32) -> (r: bool)
    requires
        square_inside(*img, x0 as int, y0 as int, side_size as int),
    ensures
        r == all_lit(*img, x0 as int, y0 as int, side_size as int),
{
    let mut y: u32 = 0;
    while y < side_size
        invariant
            square_inside(*img, x0 as int, y0 as int, side_size as int),
            y <= side_size,
            forall|px: int, py: int|
                in_square(x0 as int, y0 as int, side_size as int, px, py) && py < y0 + y
                    ==> #[trigger] lit(*img, px, py),
        decreases side_size - y,
    {
        let mut x: u32 = 0;
        while x < side_size
            invariant
                square_inside(*img, x0 as int, y0 as int, side_size as int),
                y < side_size,
                x <= side_size,
                forall|px: int, py: int|
                    in_square(x0 as int, y0 as int, side_size as int, px, py) && (py < y0 + y || (py
                        == y0 + y && px < x0 + x)) ==> #[trigger] lit(*img, px, py),
            decreases side_size - x,
        {
            let p = image_get_pixel(img, x0 + x, y0 + y);
            if p.0 == 0 && p.1 == 0 && p.2 == 0 {
                assert(!lit(*img, x0 + x, y0 + y));
                return false;
            }
            x = x + 1;
        }
        y = y + 1;
    }
    true
}

/// Whether no pixel of the square is lit.
fn all_black(img: &Canvas, x0: u32, y0: u32, side_size: u32) -> (r: bool)
    requires
        square_inside(*img, x0 as int, y0 as int, side_size as int),
    ensures
        r == none_lit(*img, x0 as int, y0 as int, side_size as int),
{
    let mut y: u32 = 0;
    while y < side_size
        invariant
            square_inside(*img, x0 as int, y0 as int, side_size as int),
            y <= side_size,
            forall|px: int, py: int|
                in_square(x0 as int, y0 as int, side_size as int, px, py) && py < y0 + y
                    ==> !#[trigger] lit(*img, px, py),
        decreases side_size - y,
    {
        let mut x: u32 = 0;
        while x < side_size
            invariant
                square_inside(*img, x0 as int, y0 as int, side_size as int),
                y < side_size,
                x <= side_size,
                forall|px: int, py: int|
                    in_square(x0 as int, y0 as int, side_size as int, px, py) && (py < y0 + y || (py
                        == y0 + y && px < x0 + x)) ==> !#[trigger] lit(*img, px, py),
            decreases side_size - x,
        {
            let p = image_get_pixel(img, x0 + x, y0 + y);
            if !(p.0 == 0 && p.1 == 0 && p.2 == 0) {
                assert(lit(*img, x0 + x, y0 + y));
                return false;
            }
            x = x + 1;
        }
        y = y + 1;
    }
    true
}

/// The lit pixels of the 8×8 square at `(x0, y0)`, pixel `(x, y)` at index `x + 8 * y`.
fn square_samples(img: &Canvas, x0: u32, y0: u32) -> (bools: [bool; 64])
    requires
        square_inside(*img, x0 as int, y0 as int, 8),
    ensures
        forall|k: int| 0 <= k < 64 ==> #[trigger] bools[k] == lit(*img, x0 + k % 8, y0 + k / 8),
{
    let mut bools = [false; 64];
    let mut x: u32 = 0;
    while x < SAMPLE_SIZE
        invariant
            square_inside(*img, x0 as int, y0 as int, 8),
            x <= 8,
            forall|k: int| 0 <= k < 64 && k % 8 < x ==> #[trigger] bools[k] == lit(*img, x0 + k % 8, y0 + k / 8),
        decreases 8 - x,
    {
        let mut y: u32 = 0;
        while y < SAMPLE_SIZE
            invariant
                square_inside(*img, x0 as int, y0 as int, 8),
                x < 8,
                y <= 8,
                forall|k: int|
                    0 <= k < 64 && (k % 8 < x || (k % 8 == x && k / 8 < y)) ==> #[trigger] bools[k] == lit(
                        *img,
                        x0 + k % 8,
                        y0 + k / 8,
                    ),
            decreases 8 - y,
        {
            let p = image_get_pixel(img, x0 + x, y0 + y);
            let idx = (x + y * SAMPLE_SIZE) as usize;
            bools[idx] = !(p.0 == 0 && p.1 == 0 && p.2 == 0);
            assert(idx as int % 8 == x && idx as int / 8 == y);
            y = y + 1;
        }
        x = x + 1;
    }
    bools
}

impl QuadTreeNode {
    /// The quadtree of the square of side `side_size` whose top-left corner is `(x, y)`.
    pub fn node_from_view(img: &Canvas, x: u32, y: u32, side_size: u32) -> (node: Self)
        requires
            square_inside(*img, x as int, y as int, side_size as int),
        ensures
            represents(node, *img, x as int, y as int, side_size as int),
        decreases side_size,
    {
        if all_white(img, x, y, side_size) {
            QuadTreeNode::Full
        } else if all_black(img, x, y, side_size) {
            QuadTreeNode::Empty
        } else if side_size == SAMPLE_SIZE {
            let bools = square_samples(img, x, y);
            let tile = TileId::from_samples(bools);
            QuadTreeNode::Shaped(tile)
        } else {
            let h = side_size / 2;
            let top_left = Self::node_from_view(img, x, y, h);
            let top_right = Self::node_from_view(img, x + h, y, h);
            let bottom_left = Self::node_from_view(img, x, y + h, h);
            let bottom_right = Self::node_from_view(img, x + h, y + h, h);
            QuadTreeNode::Subdivided(Box::new(Quadrants { top_left, top_right, bottom_left, bottom_right }))
        }
    }

    /// The squares of the `Full` leaves under this node, whose square has side `side_size` at
    /// `(anchor_x, anchor_y)`: `None` for a tile or an empty square, otherwise each `Full` leaf
    /// as `(x, y, side)`, quarters in order.
    pub fn get_squares(&self, anchor_x: u32, anchor_y: u32, side_size: u32) -> (r: Option<Vec<(u32, u32, u32)>>)
        requires
            anchors_fit(*self, anchor_x as int, anchor_y as int, side_size as int),
        ensures
            r is None <==> squares(*self, anchor_x as int, anchor_y as int, side_size as int) is None,
            r matches Some(v) ==> squares(*self, anchor_x as int, anchor_y as int, side_size as int) == Some(v@),
        decreases self,
    {
        match self {
            QuadTreeNode::Shaped(_) | QuadTreeNode::Empty => None,
            QuadTreeNode::Full => Some(vec![(anchor_x, anchor_y, side_size)]),
            QuadTreeNode::Subdivided(children) => {
                let new_side_size = side_size / 2;
                let mut res: Vec<(u32, u32, u32)> = Vec::new();
                if let Some(mut v) = children.top_left.get_squares(anchor_x, anchor_y, new_side_size) {
                    res.append(&mut v);
                }
                if let Some(mut v) = children.top_right.get_squares(anchor_x + new_side_size, anchor_y, new_side_size) {
                    res.append(&mut v);
                }
                if let Some(mut v) = children.bottom_left.get_squares(anchor_x, anchor_y + new_side_size, new_side_size) {
                    res.append(&mut v);
                }
                if let Some(mut v) = children.bottom_right.get_squares(
                    anchor_x + new_side_size,
                    anchor_y + new_side_size,
                    new_side_size,
                ) {
                    res.append(&mut v);
                }
                let ghost h = new_side_size as int;
                assert(res@ =~= or_empty(squares(children.top_left, anchor_x as int, anchor_y as int, h))
                    + or_empty(squares(children.top_right, anchor_x + h, anchor_y as int, h))
                    + or_empty(squares(children.bottom_left, anchor_x as int, anchor_y + h, h))
                    + or_empty(squares(children.bottom_right, anchor_x + h, anchor_y + h, h)));
                Some(res)
            },
        }
    }

    /// The tiles under this node, quarters in order.
    pub fn get_shapes(&self) -> (r: Vec<&TileId>)
        ensures
            r@.map_values(|t: &TileId| *t) == shapes(*self),
        decreases self,
    {
        match self {
            QuadTreeNode::Full | QuadTreeNode::Empty => vec![],
            QuadTreeNode::Shaped(s) => {
                let r = vec![s];
                assert(r@.map_values(|t: &TileId| *t) =~= seq![*s]);
                r
            },
            QuadTreeNode::Subdivided(nodes) => {
                let mut res: Vec<&TileId> = Vec::new();
                let mut a = nodes.top_left.get_shapes();
                let mut b = nodes.top_right.get_shapes();
                let mut c = nodes.bottom_left.get_shapes();
                let mut d = nodes.bottom_right.get_shapes();
                let ghost (sa, sb, sc, sd) = (a@, b@, c@, d@);
                res.append(&mut a);
                res.append(&mut b);
                res.append(&mut c);
                res.append(&mut d);
                assert(res@ == sa + sb + sc + sd);
                assert(res@.map_values(|t: &TileId| *t) =~= sa.map_values(|t: &TileId| *t) + sb.map_values(|t: &TileId| *t)
                    + sc.map_values(|t: &TileId| *t) + sd.map_values(|t: &TileId| *t));
                res
            },
        }
    }

    /// The node as a Lua value: `0` for empty, `1` for full, a tile as its hexadecimal spelling
    /// in double quotes, and quarters as `{a,b,c,d}`.
    pub fn as_lua(&self) -> (s: String)
        ensures
            s@ == lua(*self),
        decreases self,
    {
        let mut s = String::new();
        match self {
            QuadTreeNode::Empty => {
                push_char(&mut s, '0');
            },
            QuadTreeNode::Full => {
                push_char(&mut s, '1');
            },
            QuadTreeNode::Shaped(t) => {
                let hex = t.to_hex();
                push_char(&mut s, '"');
                s.append(hex.as_str());
                push_char(&mut s, '"');
            },
            QuadTreeNode::Subdivided(children) => {
                let c0 = children.top_left.as_lua();
                let c1 = children.top_right.as_lua();
                let c2 = children.bottom_left.as_lua();
                let c3 = children.bottom_right.as_lua();
                push_char(&mut s, '{');
                s.append(c0.as_str());
                push_char(&mut s, ',');
                s.append(c1.as_str());
                push_char(&mut s, ',');
                s.append(c2.as_str());
                push_char(&mut s, ',');
                s.append(c3.as_str());
                push_char(&mut s, '}');
            },
        }
        assert(s@ =~= lua(*self));
        s
    }
}

/// Paints the square of side `side_size` at `(anchor_x, anchor_y)` white.
fn paint_white(img: &mut Canvas, anchor_x: u32, anchor_y: u32, side_size: u32)
    requires
        square_inside(*old(img), anchor_x as int, anchor_y as int, side_size as int),
    ensures
        canvas_size(*final(img)) == canvas_size(*old(img)),
        forall|x: u32, y: u32|
            x < canvas_size(*old(img)).0 && y < canvas_size(*old(img)).1 ==> #[trigger] canvas_pixels(
                *final(img),
            )[(x, y)] == painted(
                QuadTreeNode::Full,
                anchor_x as int,
                anchor_y as int,
                side_size as int,
                x as int,
                y as int,
                canvas_pixels(*old(img))[(x, y)],
            ),
{
    let ghost before = canvas_pixels(*img);
    let ghost size = canvas_size(*img);
    let ghost ax = anchor_x as int;
    let ghost ay = anchor_y as int;
    let ghost side = side_size as int;
    let mut y: u32 = 0;
    while y < side_size
        invariant
            canvas_size(*img) == size,
            square_inside(*img, ax, ay, side),
            ax == anchor_x && ay == anchor_y && side == side_size,
            y <= side_size,
            forall|px: u32, py: u32|
                px < size.0 && py < size.1 ==> #[trigger] canvas_pixels(*img)[(px, py)] == if in_square(ax, ay, side, px as int, py as int) && py < ay + y {
                    white()
                } else {
                    before[(px, py)]
                },
        decreases side_size - y,
    {
        let mut x: u32 = 0;
        while x < side_size
            invariant
                canvas_size(*img) == size,
                square_inside(*img, ax, ay, side),
                ax == anchor_x && ay == anchor_y && side == side_size,
                y < side_size,
                x <= side_size,
                forall|px: u32, py: u32|
                    px < size.0 && py < size.1 ==> #[trigger] canvas_pixels(*img)[(px, py)] == if in_square(ax, ay, side, px as int, py as int) && (py < ay + y || (py == ay + y && px < ax + x)) {
                        white()
                    } else {
                        before[(px, py)]
                    },
            decreases side_size - x,
        {
            image_put_pixel(img, x + anchor_x, y + anchor_y, white_color());
            x = x + 1;
        }
        y = y + 1;
    }
}

/// Paints the tile's bits into the square of side `side_size` at `(anchor_x, anchor_y)`, row by
/// row: bit `i` is pixel `(i % side_size, i / side_size)`.
fn paint_tile(img: &mut Canvas, tile_id: &TileId, anchor_x: u32, anchor_y: u32, side_size: u32)
    requires
        side_size <= SAMPLE_SIZE,
        square_inside(*old(img), anchor_x as int, anchor_y as int, side_size as int),
    ensures
        canvas_size(*final(img)) == canvas_size(*old(img)),
        forall|x: u32, y: u32|
            x < canvas_size(*old(img)).0 && y < canvas_size(*old(img)).1 ==> #[trigger] canvas_pixels(
                *final(img),
            )[(x, y)] == painted(
                QuadTreeNode::Shaped(*tile_id),
                anchor_x as int,
                anchor_y as int,
                side_size as int,
                x as int,
                y as int,
                canvas_pixels(*old(img))[(x, y)],
            ),
{
    let ghost before = canvas_pixels(*img);
    let ghost size = canvas_size(*img);
    let ghost ax = anchor_x as int;
    let ghost ay = anchor_y as int;
    let ghost side = side_size as int;
    let masknum = tile_id.mask();
    assert(side_size * side_size <= 64) by (nonlinear_arith)
        requires
            side_size <= 8,
    ;
    let n = side_size * side_size;
    let mut i: u32 = 0;
    while i < n
        invariant
            canvas_size(*img) == size,
            square_inside(*img, ax, ay, side),
            ax == anchor_x && ay == anchor_y && side == side_size,
            side <= 8,
            n == side * side,
            side_size > 0 || n == 0,
            n <= 64,
            i <= n,
            masknum == tile_id.spec_mask(),
            forall|px: u32, py: u32|
                px < size.0 && py < size.1 ==> #[trigger] canvas_pixels(*img)[(px, py)] == if in_square(ax, ay, side, px as int, py as int) && (py - ay) * side + (px - ax) < i {
                    tile_color(*tile_id, (py - ay) * side + (px - ax))
                } else {
                    before[(px, py)]
                },
        decreases n - i,
    {
        proof {
            lemma_row_major_bounds(i as int, side);
        }
        let x = i % side_size;
        let y = i / side_size;
        let pix_value = (masknum >> i) & 1;
        let color = if pix_value == 1 {
            white_color()
        } else {
            black_color()
        };
        image_put_pixel(img, x + anchor_x, y + anchor_y, color);
        proof {
            assert forall|px: u32, py: u32|
                px < size.0 && py < size.1 && in_square(ax, ay, side, px as int, py as int) implies
                (((py - ay) * side + (px - ax) == i) <==> (px == x + anchor_x && py == y + anchor_y)) by {
                lemma_row_major(i as int, side, px - ax, py - ay);
            }
            assert(color == tile_color(*tile_id, i as int));
        }
        i = i + 1;
    }
    assert forall|px: u32, py: u32|
        in_square(ax, ay, side, px as int, py as int) implies (py - ay) * side + (px - ax) < n by {
        let dx = px - ax;
        let dy = py - ay;
        assert(dy * side + dx < side * side) by (nonlinear_arith)
            requires
                0 <= dx < side,
                0 <= dy < side,
        ;
    }
}

impl QuadTree {
    /// The quadtree of the `CANVAS_SIZE` × `CANVAS_SIZE` square at the top-left of `image`.
    pub fn build(image: &Canvas) -> (tree: Self)
        requires
            CANVAS_SIZE <= canvas_size(*image).0,
            CANVAS_SIZE <= canvas_size(*image).1,
        ensures
            represents(tree.root, *image, 0, 0, CANVAS_SIZE as int),
            paintable(tree.root, CANVAS_SIZE as int),
            walkable(tree.root, 0),
            full_leaves_measurable(tree.root, 0),
            tiles_ones(shapes(tree.root)) <= CANVAS_SIZE * CANVAS_SIZE,
    {
        let tree = QuadTree { root: QuadTreeNode::node_from_view(image, 0, 0, CANVAS_SIZE) };
        proof {
            law_reconstruction_thresholds(*image, tree.root);
            law_built_tree_walkable(*image, tree.root);
            law_built_tree_tile_pixels(*image, tree.root);
        }
        tree
    }

    /// Draws the tree onto a black `CANVAS_SIZE` × `CANVAS_SIZE` canvas.
    pub fn reconstruct_img(&self) -> (img: Canvas)
        requires
            paintable(self.root, CANVAS_SIZE as int),
        ensures
            canvas_size(img) == (CANVAS_SIZE, CANVAS_SIZE),
            forall|x: u32, y: u32|
                x < CANVAS_SIZE && y < CANVAS_SIZE ==> #[trigger] canvas_pixels(img)[(x, y)] == painted(
                    self.root,
                    0,
                    0,
                    CANVAS_SIZE as int,
                    x as int,
                    y as int,
                    black(),
                ),
    {
        let mut res = image_new(CANVAS_SIZE, CANVAS_SIZE);
        proof {
            lemma_square_drawn_inside(self.root, CANVAS_SIZE as int, CANVAS_SIZE as int, 0, 0, CANVAS_SIZE as int);
        }
        Self::reconstruct_region(&self.root, &mut res, 0, 0, CANVAS_SIZE);
        res
    }

    /// Paints `node` into the square of side `side_size` at `(anchor_x, anchor_y)`.
    fn reconstruct_region(
        node: &QuadTreeNode,
        img: &mut Canvas,
        anchor_x: u32,
        anchor_y: u32,
        side_size: u32,
    )
        requires
            paintable(*node, side_size as int),
            anchors_fit(*node, anchor_x as int, anchor_y as int, side_size as int),
            drawn_inside(
                *node,
                canvas_size(*old(img)).0 as int,
                canvas_size(*old(img)).1 as int,
                anchor_x as int,
                anchor_y as int,
                side_size as int,
            ),
        ensures
            canvas_size(*final(img)) == canvas_size(*old(img)),
            forall|x: u32, y: u32|
                x < canvas_size(*old(img)).0 && y < canvas_size(*old(img)).1 ==> #[trigger] canvas_pixels(
                    *final(img),
                )[(x, y)] == painted(
                    *node,
                    anchor_x as int,
                    anchor_y as int,
                    side_size as int,
                    x as int,
                    y as int,
                    canvas_pixels(*old(img))[(x, y)],
                ),
        decreases node,
    {
        let ghost before = canvas_pixels(*img);
        let ghost size = canvas_size(*img);
        let ghost ax = anchor_x as int;
        let ghost ay = anchor_y as int;
        let ghost side = side_size as int;
        match node {
            // the canvas is black to begin with
            QuadTreeNode::Empty => {
                assert(forall|x: int, y: int, under: Color| #[trigger] painted(*node, ax, ay, side, x, y, under) == under);
            },
            QuadTreeNode::Full => {
                paint_white(img, anchor_x, anchor_y, side_size);
            },
            QuadTreeNode::Shaped(tile_id) => {
                paint_tile(img, tile_id, anchor_x, anchor_y, side_size);
            },
            QuadTreeNode::Subdivided(children) => {
                let new_side_size = side_size / 2;
                Self::reconstruct_region(&children.top_left, img, anchor_x, anchor_y, new_side_size);
                Self::reconstruct_region(&children.top_right, img, anchor_x + new_side_size, anchor_y, new_side_size);
                Self::reconstruct_region(&children.bottom_left, img, anchor_x, anchor_y + new_side_size, new_side_size);
                Self::reconstruct_region(
                    &children.bottom_right,
                    img,
                    anchor_x + new_side_size,
                    anchor_y + new_side_size,
                    new_side_size,
                );
            },
        }
    }
}

} // verus!
