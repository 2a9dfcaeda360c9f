//! Walking the leaves of a quadtree, depth first, quarters in order.
use vstd::prelude::*;
use vstd::arithmetic::div_mod::{lemma_div_denominator, lemma_div_is_ordered_by_denominator};
use vstd::arithmetic::power2::{
    lemma2_to64, lemma_pow2, lemma_pow2_pos, lemma_pow2_strictly_increases, lemma_pow2_unfold, pow2,
};
use crate::quadtree::{shapes, QuadTree, QuadTreeNode, CANVAS_SIZE};
use crate::tile::{count_true, TileId};

verus! {

/// A node with the position and depth at which the walk reaches it.
#[derive(Debug, Clone, Copy, PartialEq, Eq)]
pub struct QuadTreeNodeWithCoords<'a> {
    pub node: &'a QuadTreeNode,
    pub x: u32,
    pub y: u32,
    pub depth: u8,
}

/// A node with its position and depth, as plain values.
pub type Entry = (QuadTreeNode, u32, u32, u8);

impl<'a> View for QuadTreeNodeWithCoords<'a> {
    type V = Entry;

    open spec fn view(&self) -> Entry {
        (*self.node, self.x, self.y, self.depth)
    }
}

/// The side the walk gives a node at `depth`: `CANVAS_SIZE / 2^(depth + 1)`, half the side of
/// the square it covers.
pub open spec fn side_at(depth: int) -> int {
    CANVAS_SIZE as int / pow2((depth + 1) as nat) as int
}

/// The leaves under `node`, reached at `(x, y)` and `depth`, in the order of the walk: a leaf
/// is itself, and the quarters of a subdivided node (offset by half its side) come in order.
pub open spec fn leaves(node: QuadTreeNode, x: int, y: int, depth: int) -> Seq<Entry>
    decreases node,
{
    match node {
        QuadTreeNode::Subdivided(q) => {
            let hs = side_at(depth) / 2;
            leaves(q.top_left, x, y, depth + 1) + leaves(q.top_right, x + hs, y, depth + 1) + leaves(
                q.bottom_left,
                x,
                y + hs,
                depth + 1,
            ) + leaves(q.bottom_right, x + hs, y + hs, depth + 1)
        },
        _ => seq![(node, x as u32, y as u32, depth as u8)],
    }
}

/// The leaves still to come from a stack of nodes, the top (last) first.
pub open spec fn pending(stack: Seq<Entry>) -> Seq<Entry>
    decreases stack.len(),
{
    if stack.len() == 0 {
        Seq::empty()
    } else {
        let e = stack.last();
        leaves(e.0, e.1 as int, e.2 as int, e.3 as int) + pending(stack.drop_last())
    }
}

/// Pushing a node puts its leaves before all others.
proof fn lemma_pending_push(s: Seq<Entry>, e: Entry)
    ensures
        pending(s.push(e)) == leaves(e.0, e.1 as int, e.2 as int, e.3 as int) + pending(s),
        stack_weight(s.push(e)) == node_count(e.0) + stack_weight(s),
{
    assert(s.push(e).drop_last() =~= s);
}

/// Number of nodes in a tree.
pub open spec fn node_count(node: QuadTreeNode) -> nat
    decreases node,
{
    match node {
        QuadTreeNode::Subdivided(q) => 1 + node_count(q.top_left) + node_count(q.top_right)
            + node_count(q.bottom_left) + node_count(q.bottom_right),
        _ => 1,
    }
}

/// Number of nodes in a stack of trees.
pub open spec fn stack_weight(stack: Seq<Entry>) -> nat
    decreases stack.len(),
{
    if stack.len() == 0 {
        0
    } else {
        node_count(stack.last().0) + stack_weight(stack.drop_last())
    }
}

/// Whether every subdivided node under `node` (which sits at `depth`) is shallower than 31, so
/// that the walk can compute the side of each (`2^(depth + 1)` fits in `u32`).
pub open spec fn walkable(node: QuadTreeNode, depth: int) -> bool
    decreases node,
{
    match node {
        QuadTreeNode::Subdivided(q) => {
            &&& depth < 31
            &&& walkable(q.top_left, depth + 1)
            &&& walkable(q.top_right, depth + 1)
            &&& walkable(q.bottom_left, depth + 1)
            &&& walkable(q.bottom_right, depth + 1)
        },
        _ => true,
    }
}

/// Whether every `Full` leaf under `node` (which sits at `depth`) is shallower than 31, so that
/// its side can be computed.
pub open spec fn full_leaves_measurable(node: QuadTreeNode, depth: int) -> bool
    decreases node,
{
    match node {
        QuadTreeNode::Subdivided(q) => {
            &&& full_leaves_measurable(q.top_left, depth + 1)
            &&& full_leaves_measurable(q.top_right, depth + 1)
            &&& full_leaves_measurable(q.bottom_left, depth + 1)
            &&& full_leaves_measurable(q.bottom_right, depth + 1)
        },
        QuadTreeNode::Full => depth < 31,
        _ => true,
    }
}

/// What the walk keeps of each node on its stack: a reachable depth and a position that
/// children's offsets cannot overflow.
pub open spec fn entry_ok(e: Entry) -> bool {
    &&& walkable(e.0, e.3 as int)
    &&& e.3 <= 31
    &&& e.1 <= 256 * (e.3 as int)
    &&& e.2 <= 256 * (e.3 as int)
}

/// The entries of a stack of nodes, as plain values.
pub open spec fn stack_view<'a>(stack: Seq<QuadTreeNodeWithCoords<'a>>) -> Seq<Entry> {
    stack.map_values(|e: QuadTreeNodeWithCoords<'a>| e@)
}

/// The `Full` leaves among `s`, each as `(x, y, side)`.
pub open spec fn filled(s: Seq<Entry>) -> Seq<(u32, u32, u32)>
    decreases s.len(),
{
    if s.len() == 0 {
        Seq::empty()
    } else {
        let e = s[0];
        let rest = filled(s.drop_first());
        if e.0 is Full {
            seq![(e.1, e.2, side_at(e.3 as int) as u32)] + rest
        } else {
            rest
        }
    }
}

/// Every `Full` leaf under a node whose `Full` leaves are shallower than 31 comes out of the
/// walk with a depth below 31.
proof fn lemma_full_leaves_shallow(node: QuadTreeNode, x: int, y: int, d: int)
    requires
        0 <= d,
        full_leaves_measurable(node, d),
    ensures
        forall|i: int|
            0 <= i < leaves(node, x, y, d).len() && (#[trigger] leaves(node, x, y, d)[i]).0 is Full
                ==> leaves(node, x, y, d)[i].3 < 31,
    decreases node,
{
    if let QuadTreeNode::Subdivided(q) = node {
        let hs = side_at(d) / 2;
        lemma_full_leaves_shallow(q.top_left, x, y, d + 1);
        lemma_full_leaves_shallow(q.top_right, x + hs, y, d + 1);
        lemma_full_leaves_shallow(q.bottom_left, x, y + hs, d + 1);
        lemma_full_leaves_shallow(q.bottom_right, x + hs, y + hs, d + 1);
        let a = leaves(q.top_left, x, y, d + 1);
        let b = leaves(q.top_right, x + hs, y, d + 1);
        let c = leaves(q.bottom_left, x, y + hs, d + 1);
        let e = leaves(q.bottom_right, x + hs, y + hs, d + 1);
        assert forall|i: int|
            0 <= i < leaves(node, x, y, d).len() && (#[trigger] leaves(node, x, y, d)[i]).0 is Full
                implies leaves(node, x, y, d)[i].3 < 31 by {
            let l = leaves(node, x, y, d);
            assert(l == a + b + c + e);
            if i < a.len() {
                assert(l[i] == a[i]);
            } else if i < a.len() + b.len() {
                assert(l[i] == b[i - a.len()]);
            } else if i < a.len() + b.len() + c.len() {
                assert(l[i] == c[i - a.len() - b.len()]);
            } else {
                assert(l[i] == e[i - a.len() - b.len() - c.len()]);
            }
        }
    }
}

/// The tiles among a run of leaves, in order.
pub open spec fn leaf_tiles(s: Seq<Entry>) -> Seq<TileId>
    decreases s.len(),
{
    if s.len() == 0 {
        Seq::empty()
    } else {
        let rest = leaf_tiles(s.drop_first());
        match s[0].0 {
            QuadTreeNode::Shaped(t) => seq![t] + rest,
            _ => rest,
        }
    }
}

proof fn lemma_leaf_tiles_concat(a: Seq<Entry>, b: Seq<Entry>)
    ensures
        leaf_tiles(a + b) == leaf_tiles(a) + leaf_tiles(b),
    decreases a.len(),
{
    if a.len() == 0 {
        assert(a + b =~= b);
        assert(leaf_tiles(a) + leaf_tiles(b) =~= leaf_tiles(b));
    } else {
        assert((a + b).drop_first() =~= a.drop_first() + b);
        assert((a + b)[0] == a[0]);
        lemma_leaf_tiles_concat(a.drop_first(), b);
        let head: Seq<TileId> = match a[0].0 {
            QuadTreeNode::Shaped(t) => seq![t],
            _ => Seq::empty(),
        };
        assert(leaf_tiles(a + b) == head + leaf_tiles(a.drop_first() + b));
        assert(leaf_tiles(a) == head + leaf_tiles(a.drop_first()));
        assert(head + (leaf_tiles(a.drop_first()) + leaf_tiles(b)) =~= (head + leaf_tiles(a.drop_first()))
            + leaf_tiles(b));
    }
}

pub proof fn lemma_walk_tiles(node: QuadTreeNode, x: int, y: int, d: int)
    ensures
        leaf_tiles(leaves(node, x, y, d)) == shapes(node),
    decreases node,
{
    match node {
        QuadTreeNode::Subdivided(q) => {
            let hs = side_at(d) / 2;
            lemma_walk_tiles(q.top_left, x, y, d + 1);
            lemma_walk_tiles(q.top_right, x + hs, y, d + 1);
            lemma_walk_tiles(q.bottom_left, x, y + hs, d + 1);
            lemma_walk_tiles(q.bottom_right, x + hs, y + hs, d + 1);
            let a = leaves(q.top_left, x, y, d + 1);
            let b = leaves(q.top_right, x + hs, y, d + 1);
            let c = leaves(q.bottom_left, x, y + hs, d + 1);
            let e = leaves(q.bottom_right, x + hs, y + hs, d + 1);
            lemma_leaf_tiles_concat(a, b);
            lemma_leaf_tiles_concat(a + b, c);
            lemma_leaf_tiles_concat(a + b + c, e);
        },
        _ => {
            let s = seq![(node, x as u32, y as u32, d as u8)];
            assert(leaves(node, x, y, d) == s);
            assert(s.drop_first() =~= Seq::<Entry>::empty());
            assert(s[0].0 == node);
            assert(leaf_tiles(Seq::<Entry>::empty()) == Seq::<TileId>::empty());
            assert(leaf_tiles(s) == leaf_tiles(s.drop_first()) || s[0].0 is Shaped);
            if let QuadTreeNode::Shaped(t) = node {
                assert(seq![t] + Seq::<TileId>::empty() =~= seq![t]);
            }
        },
    }
}

/// Number of lit samples of a tile.
pub open spec fn tile_ones(t: TileId) -> nat {
    count_true(t.samples(), 64)
}

/// Number of lit samples over a run of tiles.
pub open spec fn tiles_ones(s: Seq<TileId>) -> nat
    decreases s.len(),
{
    if s.len() == 0 {
        0
    } else {
        tile_ones(s[0]) + tiles_ones(s.drop_first())
    }
}

/// `2^exp`, as `u32::pow` computes it for base 2.
fn pow2_u32(exp: u32) -> (r: u32)
    requires
        exp < 32,
    ensures
        r as int == pow2(exp as nat),
{
    let mut r: u32 = 1;
    let mut i: u32 = 0;
    proof {
        lemma2_to64();
    }
    while i < exp
        invariant
            i <= exp < 32,
            r as int == pow2(i as nat),
        decreases exp - i,
    {
        proof {
            lemma2_to64();
            lemma_pow2_unfold((i + 1) as nat);
            if i + 1 < 31 {
                lemma_pow2_strictly_increases((i + 1) as nat, 31);
            }
        }
        r = r * 2;
        i = i + 1;
    }
    r
}

/// The side the walk gives a node is half the side it gives its parent.
pub proof fn lemma_side_halves(depth: int)
    requires
        0 <= depth,
    ensures
        side_at(depth + 1) == side_at(depth) / 2,
        side_at(0) == CANVAS_SIZE / 2,
{
    lemma_pow2_pos((depth + 1) as nat);
    lemma_pow2_unfold((depth + 2) as nat);
    lemma_pow2_unfold(1);
    lemma2_to64();
    lemma_div_denominator(512, pow2((depth + 1) as nat) as int, 2);
    assert(pow2((depth + 1) as nat) * 2 == 2 * pow2((depth + 1) as nat)) by (nonlinear_arith);
}

/// Facts on `2^(depth + 1)` for a depth below 31.
proof fn lemma_side_at(depth: int)
    requires
        0 <= depth < 31,
    ensures
        2 <= pow2((depth + 1) as nat) <= u32::MAX,
        0 <= side_at(depth) <= 256,
        side_at(depth + 1) == side_at(depth) / 2,
{
    lemma2_to64();
    lemma_pow2_pos((depth + 1) as nat);
    if depth + 1 < 31 {
        lemma_pow2_strictly_increases((depth + 1) as nat, 31);
    }
    if depth > 0 {
        lemma_pow2_strictly_increases(1, (depth + 1) as nat);
    }
    lemma_div_is_ordered_by_denominator(512, 2, pow2((depth + 1) as nat) as int);
    lemma_pow2_unfold((depth + 2) as nat);
    lemma_div_denominator(512, pow2((depth + 1) as nat) as int, 2);
    assert(pow2((depth + 1) as nat) * 2 == 2 * pow2((depth + 1) as nat)) by (nonlinear_arith);
}

impl<'a> QuadTreeNodeWithCoords<'a> {
    /// `top_side_size / 2^(depth + 1)`.
    pub fn side_size(&self, top_side_size: u32) -> (s: u32)
        requires
            self.depth < 31,
        ensures
            s as int == top_side_size as int / pow2((self.depth + 1) as nat) as int,
    {
        proof {
            lemma2_to64();
            lemma_pow2((self.depth + 1) as nat);
            lemma_pow2_pos((self.depth + 1) as nat);
            if self.depth + 1 < 31 {
                lemma_pow2_strictly_increases((self.depth + 1) as nat, 31);
            }
        }
        top_side_size / pow2_u32(self.depth as u32 + 1)
    }
}

/// The walk over the leaves of a quadtree.
#[derive(Debug)]
pub struct QuadTreeIter<'a> {
    top_tile_size: u32,
    stack: Vec<QuadTreeNodeWithCoords<'a>>,
}

impl<'a> QuadTreeIter<'a> {
    #[verifier::type_invariant]
    spec fn inv(self) -> bool {
        &&& self.top_tile_size == CANVAS_SIZE
        &&& forall|i: int| 0 <= i < self.stack@.len() ==> #[trigger] entry_ok(self.stack@[i]@)
    }

    spec fn stack_view(self) -> Seq<Entry> {
        stack_view(self.stack@)
    }

    /// The leaves the walk has still to give, in order.
    pub closed spec fn remaining(self) -> Seq<Entry> {
        pending(self.stack_view())
    }

    /// The next leaf of the walk, or `None` when all have been given.
    pub fn next(&mut self) -> (r: Option<QuadTreeNodeWithCoords<'a>>)
        ensures
            r is None <==> old(self).remaining().len() == 0,
            r is None ==> final(self).remaining() == old(self).remaining(),
            r matches Some(e) ==> e@ == old(self).remaining()[0] && final(self).remaining()
                == old(self).remaining().drop_first(),
    {
        proof {
            use_type_invariant(&*self);
        }
        let ghost start = self.remaining();
        let mut stack: Vec<QuadTreeNodeWithCoords<'a>> = Vec::new();
        std::mem::swap(&mut stack, &mut self.stack);
        assert(stack_view(stack@) == old(self).stack_view());
        let mut result: Option<QuadTreeNodeWithCoords<'a>> = None;
        loop
            invariant_except_break
                pending(stack_view(stack@)) == start,
                result is None,
            invariant
                self.top_tile_size == CANVAS_SIZE,
                self.stack@.len() == 0,
                forall|i: int| 0 <= i < stack@.len() ==> #[trigger] entry_ok(stack@[i]@),
            ensures
                forall|i: int| 0 <= i < stack@.len() ==> #[trigger] entry_ok(stack@[i]@),
                result is None <==> start.len() == 0,
                result is None ==> pending(stack_view(stack@)) == start,
                result matches Some(e) ==> e@ == start[0] && pending(stack_view(stack@)) == start.drop_first(),
            decreases stack_weight(stack_view(stack@)),
        {
            let ghost before = stack_view(stack@);
            match stack.pop() {
                None => {
                    break;
                },
                Some(node) => {
                    proof {
                        assert(before.last() == node@);
                        assert(stack_view(stack@) =~= before.drop_last());
                        assert(entry_ok(before[before.len() - 1]));
                    }
                    match node.node {
                        QuadTreeNode::Subdivided(children) => {
                            let side_size = node.side_size(self.top_tile_size);
                            let half = side_size / 2;
                            let depth = node.depth + 1;
                            proof {
                                lemma_side_at(node.depth as int);
                            }
                            stack.push(
                                QuadTreeNodeWithCoords {
                                    node: &children.bottom_right,
                                    x: half + node.x,
                                    y: half + node.y,
                                    depth,
                                },
                            );
                            stack.push(
                                QuadTreeNodeWithCoords {
                                    node: &children.bottom_left,
                                    x: node.x,
                                    y: half + node.y,
                                    depth,
                                },
                            );
                            stack.push(
                                QuadTreeNodeWithCoords {
                                    node: &children.top_right,
                                    x: half + node.x,
                                    y: node.y,
                                    depth,
                                },
                            );
                            stack.push(
                                QuadTreeNodeWithCoords {
                                    node: &children.top_left,
                                    x: node.x,
                                    y: node.y,
                                    depth,
                                },
                            );
                            proof {
                                let v0 = before.drop_last();
                                let ebr = (children.bottom_right, (half + node.x) as u32, (half + node.y) as u32, depth);
                                let ebl = (children.bottom_left, node.x, (half + node.y) as u32, depth);
                                let etr = (children.top_right, (half + node.x) as u32, node.y, depth);
                                let etl = (children.top_left, node.x, node.y, depth);
                                assert(stack_view(stack@) =~= v0.push(ebr).push(ebl).push(etr).push(etl));
                                lemma_pending_push(v0, ebr);
                                lemma_pending_push(v0.push(ebr), ebl);
                                lemma_pending_push(v0.push(ebr).push(ebl), etr);
                                lemma_pending_push(v0.push(ebr).push(ebl).push(etr), etl);
                                lemma_pending_push(v0, node@);
                                assert(v0.push(node@) =~= before);
                                assert(side_size as int == side_at(node.depth as int));
                                let l = leaves(*node.node, node.x as int, node.y as int, node.depth as int);
                                assert(l == leaves(children.top_left, node.x as int, node.y as int, depth as int)
                                    + leaves(children.top_right, node.x + half, node.y as int, depth as int)
                                    + leaves(children.bottom_left, node.x as int, node.y + half, depth as int)
                                    + leaves(children.bottom_right, node.x + half, node.y + half, depth as int));
                                assert(pending(stack_view(stack@)) =~= pending(before));
                                assert forall|i: int| 0 <= i < stack@.len() implies #[trigger] entry_ok(stack@[i]@) by {
                                    if i >= v0.len() {
                                        assert(entry_ok(node@));
                                    } else {
                                        assert(stack@[i]@ == before[i]);
                                    }
                                }
                            }
                        },
                        _ => {
                            result = Some(node);
                            break;
                        },
                    }
                },
            }
        }
        std::mem::swap(&mut stack, &mut self.stack);
        result
    }
}

impl QuadTree {
    /// A walk over the leaves of the tree, starting at the root.
    pub fn iter(&self) -> (it: QuadTreeIter<'_>)
        requires
            walkable(self.root, 0),
        ensures
            it.remaining() == leaves(self.root, 0, 0, 0),
    {
        let it = QuadTreeIter {
            top_tile_size: CANVAS_SIZE,
            stack: vec![QuadTreeNodeWithCoords { node: &self.root, x: 0, y: 0, depth: 0 }],
        };
        proof {
            let e: Entry = (self.root, 0u32, 0u32, 0u8);
            assert(stack_view(it.stack@) =~= Seq::<Entry>::empty().push(e));
            lemma_pending_push(Seq::empty(), e);
            assert(leaves(self.root, 0, 0, 0) + Seq::<Entry>::empty() =~= leaves(self.root, 0, 0, 0));
        }
        it
    }

    /// The `Full` leaves of the tree, in the order of the walk, each as `(x, y, side)` in the
    /// walk's coordinates.
    pub fn all_filled_squares(&self) -> (squares: Vec<(u32, u32, u32)>)
        requires
            walkable(self.root, 0),
            full_leaves_measurable(self.root, 0),
        ensures
            squares@ == filled(leaves(self.root, 0, 0, 0)),
    {
        let mut it = self.iter();
        let mut squares: Vec<(u32, u32, u32)> = Vec::new();
        let ghost all = leaves(self.root, 0, 0, 0);
        proof {
            lemma_full_leaves_shallow(self.root, 0, 0, 0);
        }
        loop
            invariant_except_break
                squares@ + filled(it.remaining()) == filled(all),
            invariant
                forall|i: int|
                    0 <= i < it.remaining().len() && (#[trigger] it.remaining()[i]).0 is Full ==> it.remaining()[i].3 < 31,
            ensures
                squares@ == filled(all),
            decreases it.remaining().len(),
        {
            let ghost rest = it.remaining();
            match it.next() {
                None => {
                    assert(squares@ + Seq::<(u32, u32, u32)>::empty() =~= squares@);
                    break;
                },
                Some(node) => {
                    if let QuadTreeNode::Full = node.node {
                        assert(rest[0].0 is Full);
                        let side = node.side_size(CANVAS_SIZE);
                        squares.push((node.x, node.y, side));
                        assert(squares@ + filled(it.remaining()) =~= squares@.drop_last() + filled(rest));
                    } else {
                        assert(filled(rest) == filled(it.remaining()));
                    }
                    assert forall|i: int|
                        0 <= i < it.remaining().len() && (#[trigger] it.remaining()[i]).0 is Full implies it.remaining()[i].3 < 31 by {
                        assert(it.remaining()[i] == rest[i + 1]);
                    }
                },
            }
        }
        squares
    }

    /// Number of lit pixels over the tiles of the tree, counted leaf by leaf along the walk.
    pub fn shaped_pixel_count(&self) -> (n: u64)
        requires
            walkable(self.root, 0),
            tiles_ones(shapes(self.root)) <= u64::MAX,
        ensures
            n == tiles_ones(shapes(self.root)),
    {
        let mut it = self.iter();
        let mut n: u64 = 0;
        let ghost all = leaves(self.root, 0, 0, 0);
        proof {
            lemma_walk_tiles(self.root, 0, 0, 0);
        }
        loop
            invariant_except_break
                n + tiles_ones(leaf_tiles(it.remaining())) == tiles_ones(shapes(self.root)),
            invariant
                tiles_ones(shapes(self.root)) <= u64::MAX,
            ensures
                n == tiles_ones(shapes(self.root)),
            decreases it.remaining().len(),
        {
            let ghost rest = it.remaining();
            match it.next() {
                None => {
                    assert(leaf_tiles(rest) == Seq::<TileId>::empty());
                    break;
                },
                Some(node) => {
                    assert(rest.drop_first() == it.remaining());
                    if let QuadTreeNode::Shaped(id) = node.node {
                        assert(leaf_tiles(rest) == seq![*id] + leaf_tiles(it.remaining()));
                        assert((seq![*id] + leaf_tiles(it.remaining())).drop_first() =~= leaf_tiles(it.remaining()));
                        let ones = id.count_ones();
                        n = n + ones as u64;
                    } else {
                        assert(leaf_tiles(rest) == leaf_tiles(it.remaining()));
                    }
                },
            }
        }
        n
    }
}

} // verus!
