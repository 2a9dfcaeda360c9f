use bad_apple::canvas::{Canvas, CanvasError};
use bad_apple::quadtree::{QuadTree, QuadTreeNode, Quadrants, CANVAS_SIZE};
use bad_apple::tile::TileId;
use bad_apple::tally::TileCounts;
use bad_apple::walk::QuadTreeNodeWithCoords;

const WHITE: (u8, u8, u8) = (253, 255, 255);
const BLACK: (u8, u8, u8) = (0, 0, 0);

/// A canvas of the given size whose pixel (x, y) is `f(x, y)`.
fn canvas_from(width: u32, height: u32, f: impl Fn(u32, u32) -> (u8, u8, u8)) -> Canvas {
    let mut bytes = Vec::with_capacity((width * height * 3) as usize);
    for y in 0..height {
        for x in 0..width {
            let (r, g, b) = f(x, y);
            bytes.push(r);
            bytes.push(g);
            bytes.push(b);
        }
    }
    Canvas::from_rgb_bytes(width, height, bytes).unwrap()
}

fn samples_with(lit: &[usize]) -> [bool; 64] {
    let mut s = [false; 64];
    for &k in lit {
        s[k] = true;
    }
    s
}

#[test]
fn from_samples_packs_first_sample_in_lowest_bit_of_last_byte() {
    assert_eq!(TileId::from_samples(samples_with(&[0])), TileId([0, 0, 0, 0, 0, 0, 0, 1]));
    assert_eq!(TileId::from_samples(samples_with(&[63])), TileId([0x80, 0, 0, 0, 0, 0, 0, 0]));
    assert_eq!(TileId::from_samples(samples_with(&[8])), TileId([0, 0, 0, 0, 0, 0, 1, 0]));
    assert_eq!(TileId::from_samples(samples_with(&[1, 2, 7])), TileId([0, 0, 0, 0, 0, 0, 0, 0x86]));
    assert_eq!(TileId::from_samples([true; 64]), TileId([0xff; 8]));
    assert_eq!(TileId::from_samples([false; 64]), TileId([0; 8]));
}

#[test]
fn count_ones_counts_lit_samples() {
    assert_eq!(TileId::from_samples(samples_with(&[0, 5, 17, 63])).count_ones(), 4);
    assert_eq!(TileId::from_samples([true; 64]).count_ones(), 64);
    assert_eq!(TileId::from_samples([false; 64]).count_ones(), 0);
    assert_eq!(TileId([0x0f, 0x01, 0, 0, 0, 0, 0x80, 0xff]).count_ones(), 4 + 1 + 1 + 8);
}

#[test]
fn to_hex_gives_two_lower_case_digits_per_byte() {
    assert_eq!(TileId([0, 0, 0, 0, 0, 0, 0, 1]).to_hex(), "0000000000000001");
    assert_eq!(TileId([0xde, 0xad, 0xbe, 0xef, 0x01, 0x23, 0x45, 0x67]).to_hex(), "deadbeef01234567");
    assert_eq!(TileId([0xff; 8]).to_hex(), "ffffffffffffffff");
}

#[test]
fn mask_reads_bytes_big_endian_and_matches_hex() {
    let t = TileId([0xde, 0xad, 0xbe, 0xef, 0x01, 0x23, 0x45, 0x67]);
    assert_eq!(t.mask(), 0xdeadbeef01234567);
    assert_eq!(u64::from_str_radix(&t.to_hex(), 16).unwrap(), t.mask());
    let samples = samples_with(&[3, 10, 40]);
    let m = TileId::from_samples(samples).mask();
    for k in 0..64 {
        assert_eq!((m >> k) & 1 == 1, samples[k]);
    }
}

#[test]
fn uniform_canvases_give_a_single_leaf() {
    let black = Canvas::new(CANVAS_SIZE, CANVAS_SIZE);
    assert_eq!(QuadTree::build(&black).root, QuadTreeNode::Empty);
    let white = canvas_from(CANVAS_SIZE, CANVAS_SIZE, |_, _| WHITE);
    assert_eq!(QuadTree::build(&white).root, QuadTreeNode::Full);
    // any colour but black counts as lit
    let grey = canvas_from(CANVAS_SIZE, CANVAS_SIZE, |_, _| (1, 0, 0));
    assert_eq!(QuadTree::build(&grey).root, QuadTreeNode::Full);
}

#[test]
fn left_half_lit_gives_four_quarters() {
    let img = canvas_from(CANVAS_SIZE, CANVAS_SIZE, |x, _| if x < 256 { WHITE } else { BLACK });
    let tree = QuadTree::build(&img);
    assert_eq!(
        tree.root,
        QuadTreeNode::Subdivided(Box::new(Quadrants {
            top_left: QuadTreeNode::Full,
            top_right: QuadTreeNode::Empty,
            bottom_left: QuadTreeNode::Full,
            bottom_right: QuadTreeNode::Empty,
        }))
    );
    assert_eq!(tree.root.as_lua(), "{1,0,1,0}");
    assert_eq!(tree.all_filled_squares(), vec![(0, 0, 128), (0, 128, 128)]);
    assert_eq!(tree.root.get_squares(0, 0, 512), Some(vec![(0, 0, 256), (0, 256, 256)]));
    assert!(tree.root.get_shapes().is_empty());
}

#[test]
fn single_lit_pixel_gives_a_tile_at_the_bottom() {
    let img = canvas_from(CANVAS_SIZE, CANVAS_SIZE, |x, y| if (x, y) == (3, 2) { WHITE } else { BLACK });
    let tree = QuadTree::build(&img);
    let tile = TileId::from_samples(samples_with(&[2 * 8 + 3]));
    let mut node = &tree.root;
    let mut depth = 0;
    while let QuadTreeNode::Subdivided(q) = node {
        assert_eq!(q.top_right, QuadTreeNode::Empty);
        assert_eq!(q.bottom_left, QuadTreeNode::Empty);
        assert_eq!(q.bottom_right, QuadTreeNode::Empty);
        node = &q.top_left;
        depth += 1;
    }
    assert_eq!(depth, 6);
    assert_eq!(*node, QuadTreeNode::Shaped(tile));
    assert_eq!(tree.root.get_shapes(), vec![&tile]);
    assert_eq!(tree.root.get_squares(0, 0, 512), Some(vec![]));
    assert!(tree.all_filled_squares().is_empty());
    let lua = tree.root.as_lua();
    assert_eq!(lua, format!("{}", "{".repeat(6)) + &format!("\"{}\"", tile.to_hex()) + &",0,0,0}".repeat(6));
}

#[test]
fn node_from_view_works_on_any_square() {
    let img = canvas_from(40, 40, |x, y| if x >= 20 && y >= 10 { WHITE } else { BLACK });
    assert_eq!(QuadTreeNode::node_from_view(&img, 20, 10, 16), QuadTreeNode::Full);
    assert_eq!(QuadTreeNode::node_from_view(&img, 0, 0, 8), QuadTreeNode::Empty);
    // a mixed 8×8 square becomes a tile: columns 4..8 lit
    let node = QuadTreeNode::node_from_view(&img, 16, 10, 8);
    let mut lit = Vec::new();
    for k in 0..64 {
        if k % 8 >= 4 {
            lit.push(k);
        }
    }
    assert_eq!(node, QuadTreeNode::Shaped(TileId::from_samples(samples_with(&lit))));
    // an empty square is full
    assert_eq!(QuadTreeNode::node_from_view(&img, 0, 0, 0), QuadTreeNode::Full);
}

#[test]
fn reconstruction_thresholds_the_canvas() {
    let img = canvas_from(CANVAS_SIZE, CANVAS_SIZE, |x, y| {
        let v = (x * 7 + y * 13 + (x * y) % 11) % 5;
        if x > 300 && y > 300 {
            (0, 0, 0)
        } else if x < 100 && y < 50 {
            (9, 200, 3)
        } else if v == 0 {
            (0, 0, 0)
        } else {
            (v as u8, 0, 0)
        }
    });
    let tree = QuadTree::build(&img);
    let out = tree.reconstruct_img();
    assert_eq!(out.dimensions(), (CANVAS_SIZE, CANVAS_SIZE));
    for y in 0..CANVAS_SIZE {
        for x in 0..CANVAS_SIZE {
            let expected = if img.pixel(x, y).unwrap() == BLACK { BLACK } else { WHITE };
            assert_eq!(out.pixel(x, y), Some(expected));
        }
    }
}

#[test]
fn build_reads_only_the_top_left_square() {
    let img = canvas_from(600, 520, |x, y| if x >= 512 || y >= 512 { WHITE } else { BLACK });
    assert_eq!(QuadTree::build(&img).root, QuadTreeNode::Empty);
}

#[test]
fn walk_gives_leaves_depth_first_in_quarter_order() {
    let img = canvas_from(CANVAS_SIZE, CANVAS_SIZE, |x, y| if x >= 256 && y < 256 { WHITE } else { BLACK });
    let tree = QuadTree::build(&img);
    let mut it = tree.iter();
    let mut got = Vec::new();
    while let Some(n) = it.next() {
        got.push((n.node.as_lua(), n.x, n.y, n.depth));
    }
    assert_eq!(
        got,
        vec![
            ("0".to_string(), 0, 0, 1),
            ("1".to_string(), 128, 0, 1),
            ("0".to_string(), 0, 128, 1),
            ("0".to_string(), 128, 128, 1),
        ]
    );
    assert!(it.next().is_none());
    assert_eq!(tree.all_filled_squares(), vec![(128, 0, 128)]);
}

#[test]
fn walk_of_a_leaf_root_gives_the_root() {
    let tree = QuadTree { root: QuadTreeNode::Full };
    let mut it = tree.iter();
    let first = it.next().unwrap();
    assert_eq!(first, QuadTreeNodeWithCoords { node: &QuadTreeNode::Full, x: 0, y: 0, depth: 0 });
    assert!(it.next().is_none());
    assert_eq!(tree.all_filled_squares(), vec![(0, 0, 256)]);
}

#[test]
fn side_size_halves_with_depth() {
    let n = QuadTreeNode::Empty;
    let at = |depth| QuadTreeNodeWithCoords { node: &n, x: 0, y: 0, depth };
    assert_eq!(at(0).side_size(512), 256);
    assert_eq!(at(1).side_size(512), 128);
    assert_eq!(at(5).side_size(512), 8);
    assert_eq!(at(9).side_size(512), 0);
    assert_eq!(at(30).side_size(u32::MAX), 1);
}

#[test]
fn hand_made_tree_reconstructs_tiles_row_by_row() {
    let tile = TileId::from_samples(samples_with(&[0, 9, 63]));
    let tree = QuadTree {
        root: QuadTreeNode::Subdivided(Box::new(Quadrants {
            top_left: QuadTreeNode::Empty,
            top_right: QuadTreeNode::Full,
            bottom_left: QuadTreeNode::Empty,
            bottom_right: QuadTreeNode::Empty,
        })),
    };
    let out = tree.reconstruct_img();
    assert_eq!(out.pixel(0, 0), Some(BLACK));
    assert_eq!(out.pixel(256, 0), Some(WHITE));
    assert_eq!(out.pixel(511, 255), Some(WHITE));
    assert_eq!(out.pixel(511, 256), Some(BLACK));
    assert_eq!(tree.root.as_lua(), "{0,1,0,0}");

    // a tile in a square of side 8 (six levels down)
    let mut node = QuadTreeNode::Shaped(tile);
    for _ in 0..6 {
        node = QuadTreeNode::Subdivided(Box::new(Quadrants {
            top_left: node,
            top_right: QuadTreeNode::Empty,
            bottom_left: QuadTreeNode::Empty,
            bottom_right: QuadTreeNode::Empty,
        }));
    }
    let out = QuadTree { root: node }.reconstruct_img();
    assert_eq!(out.pixel(0, 0), Some(WHITE));
    assert_eq!(out.pixel(1, 1), Some(WHITE));
    assert_eq!(out.pixel(7, 7), Some(WHITE));
    assert_eq!(out.pixel(1, 0), Some(BLACK));
    assert_eq!(out.pixel(8, 0), Some(BLACK));
}

#[test]
fn paste_places_an_image_or_refuses() {
    let small = canvas_from(2, 3, |x, y| (x as u8, y as u8, 7));
    let mut big = Canvas::new(4, 4);
    assert_eq!(big.paste(&small, 1, 1), Ok(()));
    assert_eq!(big.pixel(0, 0), Some(BLACK));
    assert_eq!(big.pixel(1, 1), Some((0, 0, 7)));
    assert_eq!(big.pixel(2, 3), Some((1, 2, 7)));
    assert_eq!(big.pixel(3, 3), Some(BLACK));
    assert_eq!(big.paste(&small, 3, 0), Err(CanvasError::DoesNotFit));
    assert_eq!(big.paste(&small, 0, 2), Err(CanvasError::DoesNotFit));
    assert_eq!(big.pixel(3, 0), Some(BLACK));
}

#[test]
fn canvas_bytes_round_trip() {
    let bytes: Vec<u8> = (0..2 * 2 * 3).map(|v| v as u8).collect();
    let c = Canvas::from_rgb_bytes(2, 2, bytes.clone()).unwrap();
    assert_eq!(c.pixel(1, 0), Some((3, 4, 5)));
    assert_eq!(c.pixel(0, 1), Some((6, 7, 8)));
    assert_eq!(c.pixel(2, 0), None);
    assert_eq!(c.into_rgb_bytes(), bytes);
    assert!(Canvas::from_rgb_bytes(2, 2, vec![0; 11]).is_none());
}

#[test]
fn shaped_pixel_count_sums_the_tiles() {
    let img = canvas_from(CANVAS_SIZE, CANVAS_SIZE, |x, y| {
        if (x, y) == (3, 2) || (x, y) == (4, 2) || (x, y) == (100, 300) {
            WHITE
        } else {
            BLACK
        }
    });
    let tree = QuadTree::build(&img);
    assert_eq!(tree.root.get_shapes().len(), 2);
    assert_eq!(tree.shaped_pixel_count(), 3);
    let full = QuadTree::build(&canvas_from(CANVAS_SIZE, CANVAS_SIZE, |_, _| WHITE));
    assert_eq!(full.shaped_pixel_count(), 0);
}

#[test]
fn shapes_come_in_walk_order() {
    let img = canvas_from(CANVAS_SIZE, CANVAS_SIZE, |x, y| {
        if (x, y) == (300, 5) || (x, y) == (1, 1) || (x, y) == (2, 400) {
            WHITE
        } else {
            BLACK
        }
    });
    let tree = QuadTree::build(&img);
    let from_shapes: Vec<TileId> = tree.root.get_shapes().into_iter().copied().collect();
    let mut from_walk = Vec::new();
    let mut it = tree.iter();
    while let Some(n) = it.next() {
        if let QuadTreeNode::Shaped(t) = n.node {
            from_walk.push(*t);
        }
    }
    assert_eq!(from_shapes, from_walk);
    assert_eq!(
        from_shapes,
        vec![
            TileId::from_samples(samples_with(&[9])),
            TileId::from_samples(samples_with(&[5 * 8 + 4])),
            TileId::from_samples(samples_with(&[2])),
        ]
    );
}

#[test]
fn tile_counts_count_occurrences_in_first_seen_order() {
    let a = TileId::from_samples(samples_with(&[1, 2, 3]));
    let b = TileId::from_samples(samples_with(&[9]));
    let c = TileId::from_samples(samples_with(&[10, 11]));
    let mut counts = TileCounts::new();
    assert_eq!(counts.len(), 0);
    for t in [&b, &a, &b, &c, &b, &a] {
        counts.record(t);
    }
    assert_eq!(counts.entries(), &vec![(b, 3), (a, 2), (c, 1)]);
    assert_eq!(counts.count_of(&a), 2);
    assert_eq!(counts.count_of(&TileId([7; 8])), 0);
    assert_eq!(counts.len(), 3);
    assert_eq!(counts.shared(), vec![(b, 3), (a, 2)]);
    assert_eq!(counts.shared_pixel_count(), 1 * 3 + 3 * 2);
}

#[test]
fn tallied_pixels_add_up_over_frames() {
    let frames = [
        canvas_from(CANVAS_SIZE, CANVAS_SIZE, |x, y| if (x + y) % 7 == 0 && x < 40 { WHITE } else { BLACK }),
        canvas_from(CANVAS_SIZE, CANVAS_SIZE, |x, y| if (x + y) % 7 == 0 && y < 24 { WHITE } else { BLACK }),
        canvas_from(CANVAS_SIZE, CANVAS_SIZE, |x, _| if x == 5 { WHITE } else { BLACK }),
    ];
    let mut counts = TileCounts::new();
    let mut total = 0u64;
    for frame in frames.iter() {
        let tree = QuadTree::build(frame);
        for t in tree.root.get_shapes() {
            counts.record(t);
        }
        total += tree.shaped_pixel_count();
    }
    let weight: u64 = counts
        .entries()
        .iter()
        .map(|(t, c)| t.count_ones() as u64 * *c as u64)
        .sum();
    assert_eq!(weight, total);
    assert!(counts.shared_pixel_count() <= total);
    assert!(counts.shared_pixel_count() > 0);
    let occurrences: u32 = counts.entries().iter().map(|(_, c)| *c).sum();
    let tiles: usize = frames.iter().map(|f| QuadTree::build(f).root.get_shapes().len()).sum();
    assert_eq!(occurrences as usize, tiles);
}

/// A frame with a few shapes in it.
fn busy_frame() -> Canvas {
    canvas_from(CANVAS_SIZE, CANVAS_SIZE, |x, y| {
        let in_disc = (x as i64 - 200).pow(2) + (y as i64 - 180).pow(2) < 90 * 90;
        let stripe = x > 400 && (y / 3) % 2 == 0;
        if in_disc || stripe || (x < 64 && y > 448) {
            (40, 80, 120)
        } else {
            BLACK
        }
    })
}

#[test]
fn rebuilding_the_drawing_gives_the_same_tree() {
    let tree = QuadTree::build(&busy_frame());
    let drawn = tree.reconstruct_img();
    assert_eq!(QuadTree::build(&drawn).root, tree.root);
}

#[test]
fn tree_depends_only_on_which_pixels_are_lit() {
    let a = busy_frame();
    let b = canvas_from(600, 600, |x, y| {
        if x >= 512 || y >= 512 {
            (1, 1, 1)
        } else if a.pixel(x, y).unwrap() == BLACK {
            BLACK
        } else {
            (255, 0, 7)
        }
    });
    assert_eq!(QuadTree::build(&a).root, QuadTree::build(&b).root);
    let c = canvas_from(CANVAS_SIZE, CANVAS_SIZE, |x, y| if (x, y) == (0, 0) { BLACK } else { a.pixel(x, y).unwrap() });
    let d = canvas_from(CANVAS_SIZE, CANVAS_SIZE, |x, y| if (x, y) == (0, 0) { WHITE } else { a.pixel(x, y).unwrap() });
    assert_ne!(QuadTree::build(&c).root, QuadTree::build(&d).root);
}

#[test]
fn lua_spellings_differ_for_different_trees() {
    let t1 = QuadTree::build(&busy_frame()).root;
    let t2 = QuadTree::build(&canvas_from(CANVAS_SIZE, CANVAS_SIZE, |x, _| if x < 256 { WHITE } else { BLACK })).root;
    let t3 = QuadTree::build(&canvas_from(CANVAS_SIZE, CANVAS_SIZE, |x, _| if x >= 256 { WHITE } else { BLACK })).root;
    let spellings = [t1.as_lua(), t2.as_lua(), t3.as_lua(), QuadTreeNode::Full.as_lua(), QuadTreeNode::Empty.as_lua()];
    for i in 0..spellings.len() {
        for j in 0..spellings.len() {
            assert_eq!(spellings[i] == spellings[j], i == j);
        }
    }
    assert_ne!(
        QuadTreeNode::Shaped(TileId([0, 0, 0, 0, 0, 0, 0, 1])).as_lua(),
        QuadTreeNode::Shaped(TileId([0, 0, 0, 0, 0, 0, 0, 2])).as_lua()
    );
}

fn count_subdivided(n: &QuadTreeNode) -> usize {
    match n {
        QuadTreeNode::Subdivided(q) => {
            1 + count_subdivided(&q.top_left)
                + count_subdivided(&q.top_right)
                + count_subdivided(&q.bottom_left)
                + count_subdivided(&q.bottom_right)
        }
        _ => 0,
    }
}

#[test]
fn walk_leaves_tile_the_half_scale_frame() {
    let tree = QuadTree::build(&busy_frame());
    let mut cover = vec![0u32; 256 * 256];
    let mut leaves = 0;
    let mut it = tree.iter();
    while let Some(n) = it.next() {
        assert!(!matches!(n.node, QuadTreeNode::Subdivided(_)));
        leaves += 1;
        let s = n.side_size(512);
        for y in n.y..n.y + s {
            for x in n.x..n.x + s {
                cover[(y * 256 + x) as usize] += 1;
            }
        }
    }
    assert!(cover.iter().all(|&c| c == 1));
    assert_eq!(leaves, 1 + 3 * count_subdivided(&tree.root));
}

#[test]
fn built_tiles_are_mixed() {
    let tree = QuadTree::build(&busy_frame());
    let shapes = tree.root.get_shapes();
    assert!(!shapes.is_empty());
    for t in shapes {
        let n = t.count_ones();
        assert!(1 <= n && n <= 63);
    }
}

#[test]
fn filled_squares_are_the_full_listing_halved() {
    let tree = QuadTree::build(&busy_frame());
    let halved: Vec<(u32, u32, u32)> = tree
        .root
        .get_squares(0, 0, 512)
        .unwrap_or_default()
        .into_iter()
        .map(|(x, y, s)| (x / 2, y / 2, s / 2))
        .collect();
    assert!(!halved.is_empty());
    assert_eq!(tree.all_filled_squares(), halved);
}

#[test]
fn empty_nodes_draw_nothing_outside_the_canvas() {
    // quarters of an empty-only subdivision, placed well outside, leave the canvas as it was
    let tree = QuadTree {
        root: QuadTreeNode::Subdivided(Box::new(Quadrants {
            top_left: QuadTreeNode::Full,
            top_right: QuadTreeNode::Empty,
            bottom_left: QuadTreeNode::Empty,
            bottom_right: QuadTreeNode::Empty,
        })),
    };
    let out = tree.reconstruct_img();
    assert_eq!(out.pixel(255, 255), Some(WHITE));
    assert_eq!(out.pixel(256, 256), Some(BLACK));
}

#[test]
fn walk_square_areas_add_up_to_the_frame() {
    let tree = QuadTree::build(&busy_frame());
    let mut it = tree.iter();
    let mut area = 0u64;
    while let Some(n) = it.next() {
        let s = n.side_size(512) as u64;
        area += s * s;
    }
    assert_eq!(area, 256 * 256);
}

#[test]
fn lit_pixels_are_filled_area_plus_tile_samples() {
    let img = busy_frame();
    let tree = QuadTree::build(&img);
    let mut lit = 0u64;
    for y in 0..CANVAS_SIZE {
        for x in 0..CANVAS_SIZE {
            if img.pixel(x, y).unwrap() != BLACK {
                lit += 1;
            }
        }
    }
    let filled: u64 = tree.all_filled_squares().iter().map(|&(_, _, s)| 4 * (s as u64) * (s as u64)).sum();
    let tiles: u64 = tree.root.get_shapes().iter().map(|t| t.count_ones() as u64).sum();
    assert!(filled > 0 && tiles > 0);
    assert_eq!(filled + tiles, lit);
    assert_eq!(tree.shaped_pixel_count(), tiles);
}
