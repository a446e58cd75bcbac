//! 512² mask tile bookkeeping for the interactive brush path.
//!
//! [`MaskTileGrid`] keeps per-tile dirty flags: a brush mark only dirties the
//! tiles it touches, so only those tiles are re-stamped and re-uploaded.
use vstd::prelude::*;

verus! {

/// Tile edge length in pixels for the mask overlay grid.
pub const MASK_TILE_SIZE: u32 = 512;

/// One tile coordinate in the mask tile grid.
#[derive(Debug, Clone, Copy, PartialEq, Eq, Hash, Structural)]
pub struct TileCoord {
    pub tx: u32,
    pub ty: u32,
}

/// Number of tiles needed to cover `length` pixels (at least one).
pub open spec fn spec_tiles_across(length: u32) -> u32 {
    if length == 0 {
        1
    } else {
        ((length + 511) / 512) as u32
    }
}

/// Number of tiles needed to cover `length` pixels (at least one).
pub fn tiles_across(length: u32) -> (tiles: u32)
    ensures
        tiles == spec_tiles_across(length),
        1 <= tiles,
        (tiles - 1) * 512 < length || length == 0,
        tiles * 512 >= length,
{
    let whole = length / MASK_TILE_SIZE;
    let tiles = if length % MASK_TILE_SIZE != 0 {
        whole + 1
    } else {
        whole
    };
    if tiles == 0 {
        1
    } else {
        tiles
    }
}

/// Pixel bounds `(x0, y0, w, h)` of a tile clamped to a `width × height` plane.
pub open spec fn spec_tile_bounds(tile: TileCoord, width: u32, height: u32) -> (u32, u32, u32, u32) {
    let cx = if tile.tx < spec_tiles_across(width) - 1 { tile.tx as int } else { spec_tiles_across(width) - 1 };
    let cy = if tile.ty < spec_tiles_across(height) - 1 { tile.ty as int } else { spec_tiles_across(height) - 1 };
    let x0 = cx * 512;
    let y0 = cy * 512;
    let w = if width - x0 < 512 { width - x0 } else { 512 };
    let h = if height - y0 < 512 { height - y0 } else { 512 };
    (x0 as u32, y0 as u32, (if w < 1 { 1 } else { w }) as u32, (if h < 1 { 1 } else { h }) as u32)
}

impl TileCoord {
    /// Pixel bounds of the tile inside a `width × height` plane, clamped so
    /// the right/bottom border tiles never exceed the plane.
    pub fn bounds(&self, width: u32, height: u32) -> (result: (u32, u32, u32, u32))
        ensures
            result == spec_tile_bounds(*self, width, height),
    {
        let last_x = tiles_across(width) - 1;
        let last_y = tiles_across(height) - 1;
        let x0 = (if self.tx < last_x { self.tx } else { last_x }) * MASK_TILE_SIZE;
        let y0 = (if self.ty < last_y { self.ty } else { last_y }) * MASK_TILE_SIZE;
        let w = if width - x0 < MASK_TILE_SIZE { width - x0 } else { MASK_TILE_SIZE };
        let h = if height - y0 < MASK_TILE_SIZE { height - y0 } else { MASK_TILE_SIZE };
        (x0, y0, if w < 1 { 1 } else { w }, if h < 1 { 1 } else { h })
    }
}

/// The order of the drained dirty list: row-major, by row, then by column.
pub open spec fn tile_before(a: TileCoord, b: TileCoord) -> bool {
    a.ty < b.ty || (a.ty == b.ty && a.tx < b.tx)
}

/// Strictly increasing in [`tile_before`] order (hence free of duplicates).
pub open spec fn tiles_sorted(s: Seq<TileCoord>) -> bool {
    forall|i: int, j: int| 0 <= i < j < s.len() ==> tile_before(#[trigger] s[i], #[trigger] s[j])
}

/// Per-tile dirty flags for one mask plane of `width × height` pixels.
#[derive(Debug)]
pub struct MaskTileGrid {
    width: u32,
    height: u32,
    tiles_x: u32,
    tiles_y: u32,
    dirty: Vec<TileCoord>,
}

/// The tiles `[tx0, tx1] × [ty0, ty1]`.
pub open spec fn tile_block(tx0: int, tx1: int, ty0: int, ty1: int) -> Set<TileCoord> {
    Set::new(|t: TileCoord| tx0 <= t.tx <= tx1 && ty0 <= t.ty <= ty1)
}

/// Column (or row) of the tile holding pixel coordinate `v`, clamped to the grid.
pub open spec fn clamp_tile(v: i64, tiles: u32) -> u32 {
    if v < 0 {
        0
    } else if v / 512 < tiles - 1 {
        (v / 512) as u32
    } else {
        (tiles - 1) as u32
    }
}

impl MaskTileGrid {
    #[verifier::type_invariant]
    spec fn inv(self) -> bool {
        &&& self.width >= 1
        &&& self.height >= 1
        &&& self.tiles_x == spec_tiles_across(self.width)
        &&& self.tiles_y == spec_tiles_across(self.height)
        &&& tiles_sorted(self.dirty@)
        &&& forall|i: int| 0 <= i < self.dirty@.len() ==> #[trigger] self.dirty@[i].tx < self.tiles_x && self.dirty@[i].ty < self.tiles_y
    }

    pub closed spec fn spec_width(self) -> u32 {
        self.width
    }

    pub closed spec fn spec_height(self) -> u32 {
        self.height
    }

    pub closed spec fn spec_tiles_x(self) -> u32 {
        self.tiles_x
    }

    pub closed spec fn spec_tiles_y(self) -> u32 {
        self.tiles_y
    }

    /// The dirty tiles in drain order.
    pub closed spec fn dirty_seq(self) -> Seq<TileCoord> {
        self.dirty@
    }

    /// The set of dirty tiles.
    pub open spec fn dirty_set(self) -> Set<TileCoord> {
        self.dirty_seq().to_set()
    }

    /// A grid for a `width × height` plane (zero extents count as one pixel)
    /// with no dirty tile.
    pub fn new(width: u32, height: u32) -> (grid: MaskTileGrid)
        ensures
            grid.spec_width() == if width == 0 { 1 } else { width },
            grid.spec_height() == if height == 0 { 1 } else { height },
            grid.spec_tiles_x() == spec_tiles_across(grid.spec_width()),
            grid.spec_tiles_y() == spec_tiles_across(grid.spec_height()),
            grid.dirty_seq() == Seq::<TileCoord>::empty(),
    {
        let w = if width == 0 { 1 } else { width };
        let h = if height == 0 { 1 } else { height };
        MaskTileGrid { width: w, height: h, tiles_x: tiles_across(w), tiles_y: tiles_across(h), dirty: Vec::new() }
    }

    pub fn width(&self) -> (value: u32)
        ensures
            value == self.spec_width(),
    {
        self.width
    }

    pub fn height(&self) -> (value: u32)
        ensures
            value == self.spec_height(),
    {
        self.height
    }

    pub fn tiles_x(&self) -> (value: u32)
        ensures
            value == self.spec_tiles_x(),
    {
        self.tiles_x
    }

    pub fn tiles_y(&self) -> (value: u32)
        ensures
            value == self.spec_tiles_y(),
    {
        self.tiles_y
    }

    /// Number of dirty tiles.
    pub fn dirty_count(&self) -> (count: usize)
        ensures
            count == self.dirty_seq().len(),
            count == self.dirty_set().len(),
    {
        proof {
            use_type_invariant(self);
            lemma_sorted_no_duplicates(self.dirty@);
            self.dirty@.unique_seq_to_set();
        }
        self.dirty.len()
    }

    /// Whether `tile` is dirty.
    pub fn is_dirty(&self, tile: TileCoord) -> (result: bool)
        ensures
            result == self.dirty_set().contains(tile),
    {
        let mut i: usize = 0;
        while i < self.dirty.len()
            invariant
                i <= self.dirty@.len(),
                forall|k: int| 0 <= k < i ==> self.dirty@[k] != tile,
            decreases self.dirty@.len() - i,
        {
            let t = self.dirty[i];
            if t.tx == tile.tx && t.ty == tile.ty {
                proof {
                    assert(self.dirty@.contains(tile));
                }
                return true;
            }
            i += 1;
        }
        false
    }

    /// Marks one tile dirty, keeping the list ordered.
    fn insert(&mut self, tile: TileCoord)
        requires
            tile.tx < old(self).tiles_x,
            tile.ty < old(self).tiles_y,
        ensures
            final(self).width == old(self).width,
            final(self).height == old(self).height,
            final(self).tiles_x == old(self).tiles_x,
            final(self).tiles_y == old(self).tiles_y,
            final(self).dirty_set() == old(self).dirty_set().insert(tile),
    {
        proof {
            use_type_invariant(&*self);
        }
        let mut position: usize = 0;
        while position < self.dirty.len()
            invariant
                tiles_sorted(self.dirty@),
                position <= self.dirty@.len(),
                forall|k: int| 0 <= k < position ==> tile_before(#[trigger] self.dirty@[k], tile),
            ensures
                position <= self.dirty@.len(),
                forall|k: int| 0 <= k < position ==> tile_before(#[trigger] self.dirty@[k], tile),
                position < self.dirty@.len() ==> !tile_before(self.dirty@[position as int], tile),
            decreases self.dirty@.len() - position,
        {
            let t = self.dirty[position];
            if !(t.ty < tile.ty || (t.ty == tile.ty && t.tx < tile.tx)) {
                break;
            }
            position += 1;
        }
        if position < self.dirty.len() {
            let t = self.dirty[position];
            if t.tx == tile.tx && t.ty == tile.ty {
                proof {
                    assert(self.dirty@.to_set().insert(tile) =~= self.dirty@.to_set());
                }
                return;
            }
        }
        let ghost before = self.dirty@;
        let mut dirty: Vec<TileCoord> = Vec::new();
        let mut k: usize = 0;
        while k < self.dirty.len()
            invariant
                k <= before.len(),
                self.dirty@ == before,
                position <= before.len(),
                dirty@ == if k <= position {
                    before.subrange(0, k as int)
                } else {
                    before.subrange(0, position as int).push(tile) + before.subrange(position as int, k as int)
                },
            decreases before.len() - k,
        {
            if k == position {
                dirty.push(tile);
            }
            dirty.push(self.dirty[k]);
            proof {
                if k + 1 <= position {
                    assert(dirty@ =~= before.subrange(0, k + 1));
                } else {
                    assert(dirty@ =~= before.subrange(0, position as int).push(tile) + before.subrange(position as int, k + 1));
                }
            }
            k += 1;
        }
        if position == self.dirty.len() {
            dirty.push(tile);
        }
        proof {
            assert(dirty@ =~= before.insert(position as int, tile));
        }
        proof {
            assert forall|i: int, j: int| 0 <= i < j < dirty@.len() implies tile_before(#[trigger] dirty@[i], #[trigger] dirty@[j]) by {
                if j < position {
                } else if i > position {
                    assert(dirty@[i] == before[i - 1] && dirty@[j] == before[j - 1]);
                } else if i == position {
                    assert(dirty@[j] == before[j - 1]);
                    assert(!tile_before(before[position as int], tile));
                    if j - 1 > position {
                        assert(tile_before(before[position as int], before[j - 1]));
                    }
                } else {
                    assert(i < position);
                    if j == position {
                    } else {
                        assert(dirty@[j] == before[j - 1]);
                        assert(tile_before(before[i], tile));
                    }
                }
            }
            assert forall|t: TileCoord| #[trigger] dirty@.to_set().contains(t) == before.to_set().insert(tile).contains(t) by {
                if dirty@.contains(t) {
                    let k = choose|k: int| 0 <= k < dirty@.len() && dirty@[k] == t;
                    if k < position {
                        assert(before[k] == t);
                        assert(before.contains(t));
                    } else if k > position {
                        assert(before[k - 1] == t);
                        assert(before.contains(t));
                    }
                }
                if before.contains(t) {
                    let k = choose|k: int| 0 <= k < before.len() && before[k] == t;
                    if k < position {
                        assert(dirty@[k] == t);
                    } else {
                        assert(dirty@[k + 1] == t);
                    }
                    assert(dirty@.contains(t));
                }
                if t == tile {
                    assert(dirty@[position as int] == t);
                    assert(dirty@.contains(t));
                }
            }
            assert(dirty@.to_set() =~= before.to_set().insert(tile));
            assert forall|i: int| 0 <= i < dirty@.len() implies #[trigger] dirty@[i].tx < self.tiles_x && dirty@[i].ty < self.tiles_y by {
                if i < position {
                    assert(dirty@[i] == before[i]);
                } else if i > position {
                    assert(dirty@[i] == before[i - 1]);
                }
            }
        }
        self.dirty = dirty;
    }

    /// Marks every tile intersecting the pixel-space rectangle
    /// `[x0, x0 + w) × [y0, y0 + h)` as dirty; out-of-plane parts are ignored.
    pub fn mark_region_px(&mut self, x0: i64, y0: i64, w: i64, h: i64)
        requires
            w <= 0 || x0 + w <= i64::MAX,
            h <= 0 || y0 + h <= i64::MAX,
        ensures
            final(self).spec_width() == old(self).spec_width(),
            final(self).spec_height() == old(self).spec_height(),
            final(self).spec_tiles_x() == old(self).spec_tiles_x(),
            final(self).spec_tiles_y() == old(self).spec_tiles_y(),
            final(self).dirty_set() == if w <= 0 || h <= 0 || x0 + w - 1 < 0 || y0 + h - 1 < 0
                || x0 >= old(self).spec_width() || y0 >= old(self).spec_height() {
                old(self).dirty_set()
            } else {
                old(self).dirty_set().union(
                    tile_block(
                        clamp_tile(x0, old(self).spec_tiles_x()) as int,
                        clamp_tile((x0 + w - 1) as i64, old(self).spec_tiles_x()) as int,
                        clamp_tile(y0, old(self).spec_tiles_y()) as int,
                        clamp_tile((y0 + h - 1) as i64, old(self).spec_tiles_y()) as int,
                    ),
                )
            },
    {
        proof {
            use_type_invariant(&*self);
        }
        if w <= 0 || h <= 0 {
            return;
        }
        let x_end = x0 + w - 1;
        let y_end = y0 + h - 1;
        if x_end < 0 || y_end < 0 || x0 >= self.width as i64 || y0 >= self.height as i64 {
            return;
        }
        let tx0 = Self::clamp(x0, self.tiles_x);
        let ty0 = Self::clamp(y0, self.tiles_y);
        let tx1 = Self::clamp(x_end, self.tiles_x);
        let ty1 = Self::clamp(y_end, self.tiles_y);
        let ghost start = self.dirty_set();
        let mut ty = ty0;
        while ty <= ty1
            invariant
                ty0 <= ty,
                ty <= ty1 + 1 || ty == ty0,
                ty1 < self.tiles_y,
                tx1 < self.tiles_x,
                self.width == old(self).width,
                self.height == old(self).height,
                self.tiles_x == old(self).tiles_x,
                self.tiles_y == old(self).tiles_y,
                start == old(self).dirty_set(),
                self.dirty_set() == start.union(tile_block(tx0 as int, tx1 as int, ty0 as int, ty as int - 1)),
            decreases ty1 + 1 - ty,
        {
            let mut tx = tx0;
            while tx <= tx1
                invariant
                    tx0 <= tx,
                    tx <= tx1 + 1 || tx == tx0,
                    ty0 <= ty <= ty1,
                    ty1 < self.tiles_y,
                    tx1 < self.tiles_x,
                    self.width == old(self).width,
                    self.height == old(self).height,
                    self.tiles_x == old(self).tiles_x,
                    self.tiles_y == old(self).tiles_y,
                    start == old(self).dirty_set(),
                    self.dirty_set() == start.union(tile_block(tx0 as int, tx1 as int, ty0 as int, ty as int - 1)).union(
                        tile_block(tx0 as int, tx as int - 1, ty as int, ty as int),
                    ),
                decreases tx1 + 1 - tx,
            {
                self.insert(TileCoord { tx, ty });
                proof {
                    assert(self.dirty_set() =~= start.union(tile_block(tx0 as int, tx1 as int, ty0 as int, ty as int - 1)).union(
                        tile_block(tx0 as int, tx as int, ty as int, ty as int),
                    ));
                }
                tx += 1;
            }
            proof {
                assert(self.dirty_set() =~= start.union(tile_block(tx0 as int, tx1 as int, ty0 as int, ty as int)));
            }
            ty += 1;
        }
        proof {
            assert(self.dirty_set() =~= start.union(tile_block(tx0 as int, tx1 as int, ty0 as int, ty1 as int)));
        }
    }

    /// The tile column (or row) of pixel coordinate `v`, clamped to `tiles`.
    fn clamp(v: i64, tiles: u32) -> (result: u32)
        requires
            tiles >= 1,
        ensures
            result == clamp_tile(v, tiles),
            result < tiles,
    {
        if v < 0 {
            return 0;
        }
        let column = v / 512;
        if column < (tiles - 1) as i64 {
            column as u32
        } else {
            tiles - 1
        }
    }

    /// Drains the dirty set: returns every dirty tile in [`tile_before`]
    /// order and clears the flags.
    pub fn take_dirty(&mut self) -> (drained: Vec<TileCoord>)
        ensures
            drained@ == old(self).dirty_seq(),
            tiles_sorted(drained@),
            final(self).dirty_seq() == Seq::<TileCoord>::empty(),
            final(self).spec_width() == old(self).spec_width(),
            final(self).spec_height() == old(self).spec_height(),
            final(self).spec_tiles_x() == old(self).spec_tiles_x(),
            final(self).spec_tiles_y() == old(self).spec_tiles_y(),
    {
        proof {
            use_type_invariant(&*self);
        }
        let mut drained: Vec<TileCoord> = Vec::new();
        std::mem::swap(&mut drained, &mut self.dirty);
        drained
    }

    /// Marks every tile of the grid dirty.
    pub fn mark_all(&mut self)
        ensures
            final(self).spec_width() == old(self).spec_width(),
            final(self).spec_height() == old(self).spec_height(),
            final(self).spec_tiles_x() == old(self).spec_tiles_x(),
            final(self).spec_tiles_y() == old(self).spec_tiles_y(),
            final(self).dirty_set() == tile_block(0, old(self).spec_tiles_x() - 1, 0, old(self).spec_tiles_y() - 1),
    {
        proof {
            use_type_invariant(&*self);
        }
        let ghost start = self.dirty_set();
        proof {
            assert forall|t: TileCoord| start.contains(t) implies t.tx < self.tiles_x && t.ty < self.tiles_y by {
                let i = choose|i: int| 0 <= i < self.dirty@.len() && self.dirty@[i] == t;
            }
        }
        let mut ty: u32 = 0;
        while ty < self.tiles_y
            invariant
                ty <= self.tiles_y,
                forall|t: TileCoord| start.contains(t) ==> t.tx < self.tiles_x && t.ty < self.tiles_y,
                self.width == old(self).width,
                self.height == old(self).height,
                self.tiles_x == old(self).tiles_x,
                self.tiles_y == old(self).tiles_y,
                start == old(self).dirty_set(),
                self.dirty_set() == start.union(tile_block(0, self.tiles_x - 1, 0, ty - 1)),
            decreases self.tiles_y - ty,
        {
            let mut tx: u32 = 0;
            while tx < self.tiles_x
                invariant
                    tx <= self.tiles_x,
                    ty < self.tiles_y,
                    self.width == old(self).width,
                    self.height == old(self).height,
                    self.tiles_x == old(self).tiles_x,
                    self.tiles_y == old(self).tiles_y,
                    start == old(self).dirty_set(),
                    self.dirty_set() == start.union(tile_block(0, self.tiles_x - 1, 0, ty - 1)).union(
                        tile_block(0, tx - 1, ty as int, ty as int),
                    ),
                decreases self.tiles_x - tx,
            {
                self.insert(TileCoord { tx, ty });
                proof {
                    assert(self.dirty_set() =~= start.union(tile_block(0, self.tiles_x - 1, 0, ty - 1)).union(
                        tile_block(0, tx as int, ty as int, ty as int),
                    ));
                }
                tx += 1;
            }
            proof {
                assert(self.dirty_set() =~= start.union(tile_block(0, self.tiles_x - 1, 0, ty as int)));
            }
            ty += 1;
        }
        proof {
            assert(self.dirty_set() =~= tile_block(0, self.tiles_x - 1, 0, self.tiles_y - 1));
        }
    }

    /// Clears every dirty flag.
    pub fn clear(&mut self)
        ensures
            final(self).dirty_seq() == Seq::<TileCoord>::empty(),
            final(self).spec_width() == old(self).spec_width(),
            final(self).spec_height() == old(self).spec_height(),
            final(self).spec_tiles_x() == old(self).spec_tiles_x(),
            final(self).spec_tiles_y() == old(self).spec_tiles_y(),
    {
        proof {
            use_type_invariant(&*self);
        }
        self.dirty = Vec::new();
    }
}

/// A strictly ordered list has no duplicates.
proof fn lemma_sorted_no_duplicates(s: Seq<TileCoord>)
    requires
        tiles_sorted(s),
    ensures
        s.no_duplicates(),
{
    assert forall|i: int, j: int| 0 <= i < s.len() && 0 <= j < s.len() && i != j implies s[i] != s[j] by {
        if i < j {
            assert(tile_before(s[i], s[j]));
        } else {
            assert(tile_before(s[j], s[i]));
        }
    }
}

} // verus!
