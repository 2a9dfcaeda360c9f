# bad_apple

Preprocessing for showing the *Bad Apple!!* animation in a Factorio equipment grid, as a
library verified with Verus.

Each thresholded frame sits at the top-left of a 512 × 512 canvas. The library builds the
frame's region quadtree: a square is `Full` when every pixel is lit (not black), `Empty` when
none is, an 8 × 8 bit pattern (`TileId`) when it is mixed and 8 pixels a side, and otherwise
four quarters. It spells trees as Lua values, lists their filled squares and tiles, draws a tree
back into an image, and counts how often each tile occurs over the frames.

Layout:

- `src/tile.rs`: tiles — packing 64 samples, counting lit samples, hexadecimal spelling.
- `src/canvas.rs`: RGB images held by the `image` crate, known through their pixels and size.
- `src/quadtree.rs`: building a tree from a canvas, drawing it back, listing squares and tiles,
  Lua spelling.
- `src/walk.rs`: the depth-first walk over the leaves and what is computed along it.
- `src/tally.rs`: tile counts over frames.
- `src/laws.rs`: properties across functions — drawing a built tree gives the canvas back in
  black and white, and building again from the drawing gives the same tree; a tree depends only
  on which pixels are lit and is as coarse as it can be; the Lua spelling tells trees apart; the
  walk tiles the frame and agrees with the listings; counts add up.
- `app/main.rs`: the program — reads the frames, writes the Lua files and statistics.
