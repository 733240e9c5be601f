//! The arena grid: a row-major array of tiles, `(0,0)` bottom-left.
use vstd::prelude::*;

use crate::tile::Tile;

verus! {

/// Index of cell `(x, y)` in a row-major buffer of rows `w` wide.
pub open spec fn cell_index(w: int, x: int, y: int) -> int {
    y * w + x
}

/// A cell index of an in-bounds coordinate lies inside the buffer.
pub proof fn lemma_cell_index_bounds(w: int, h: int, x: int, y: int)
    requires
        0 <= x < w,
        0 <= y < h,
    ensures
        0 <= cell_index(w, x, y) < w * h,
{
    assert(0 <= y * w + x < w * h) by (nonlinear_arith)
        requires
            0 <= x < w,
            0 <= y < h,
    ;
}

/// Two in-bounds coordinates share a cell index only when they are equal.
pub proof fn lemma_cell_index_unique(w: int, x1: int, y1: int, x2: int, y2: int)
    requires
        0 <= x1 < w,
        0 <= x2 < w,
        0 <= y1,
        0 <= y2,
        cell_index(w, x1, y1) == cell_index(w, x2, y2),
    ensures
        x1 == x2,
        y1 == y2,
{
    assert(y1 == y2) by (nonlinear_arith)
        requires
            0 <= x1 < w,
            0 <= x2 < w,
            0 <= y1,
            0 <= y2,
            y1 * w + x1 == y2 * w + x2,
    ;
}

/// The arena grid.
pub struct Grid {
    pub width: usize,
    pub height: usize,
    /// Row-major: the tile at `(x, y)` is `tiles[y * width + x]`.
    pub tiles: Vec<Tile>,
}

/// The closed square, `radius` cells to each side of the base, that
/// `stamp_safe_zone` covers.
pub open spec fn in_square(bx: int, by: int, radius: int, x: int, y: int) -> bool {
    bx - radius <= x <= bx + radius && by - radius <= y <= by + radius
}

impl Grid {
    /// The buffer holds exactly one tile per cell.
    pub open spec fn wf(&self) -> bool {
        self.tiles@.len() == self.width * self.height
    }

    pub open spec fn contains(&self, x: int, y: int) -> bool {
        0 <= x < self.width && 0 <= y < self.height
    }

    /// The tile at an in-bounds coordinate.
    pub open spec fn at(&self, x: int, y: int) -> Tile {
        self.tiles@[cell_index(self.width as int, x, y)]
    }

    /// What `get` returns: the tile, or `None` outside the grid.
    pub open spec fn spec_get(&self, x: int, y: int) -> Option<Tile> {
        if self.contains(x, y) {
            Some(self.at(x, y))
        } else {
            None
        }
    }

    /// The tile that `stamp_safe_zone` leaves at `(x, y)`: a free cell of the
    /// square around the base (the base cell itself excluded) becomes the team's
    /// safe zone; every other cell keeps its tile.
    pub open spec fn stamped_at(
        &self,
        bx: int,
        by: int,
        team: u8,
        radius: int,
        x: int,
        y: int,
    ) -> Tile {
        if in_square(bx, by, radius, x, y) && !(x == bx && y == by) && self.at(x, y) == Tile::Free {
            Tile::SafeZone(team)
        } else {
            self.at(x, y)
        }
    }

    /// A `width` × `height` grid of free tiles.
    pub fn new(width: usize, height: usize) -> (g: Grid)
        requires
            width * height <= usize::MAX,
        ensures
            g.wf(),
            g.width == width,
            g.height == height,
            forall|x: int, y: int| g.contains(x, y) ==> #[trigger] g.at(x, y) == Tile::Free,
    {
        let n: usize = width * height;
        let mut tiles: Vec<Tile> = Vec::new();
        let mut i: usize = 0;
        while i < n
            invariant
                i <= n,
                tiles@.len() == i,
                forall|k: int| 0 <= k < i ==> tiles@[k] == Tile::Free,
            decreases n - i,
        {
            tiles.push(Tile::Free);
            i = i + 1;
        }
        let g = Grid { width, height, tiles };
        assert forall|x: int, y: int| g.contains(x, y) implies #[trigger] g.at(x, y) == Tile::Free by {
            lemma_cell_index_bounds(width as int, height as int, x, y);
        }
        g
    }

    /// Whether `(x, y)` lies inside the grid.
    pub fn in_bounds(&self, x: i32, y: i32) -> (b: bool)
        ensures
            b == self.contains(x as int, y as int),
    {
        0 <= x && (x as usize) < self.width && 0 <= y && (y as usize) < self.height
    }

    /// The tile at `(x, y)`, or `None` outside the grid.
    pub fn get(&self, x: i32, y: i32) -> (t: Option<Tile>)
        requires
            self.wf(),
        ensures
            t == self.spec_get(x as int, y as int),
    {
        if self.in_bounds(x, y) {
            proof {
                lemma_cell_index_bounds(self.width as int, self.height as int, x as int, y as int);
            }
            let n: usize = self.tiles.len();
            assert((y as int) * (self.width as int) <= cell_index(self.width as int, x as int, y as int));
            assert(cell_index(self.width as int, x as int, y as int) < n);
            let idx: usize = (y as usize) * self.width + (x as usize);
            Some(self.tiles[idx])
        } else {
            None
        }
    }

    /// Write `tile` at `(x, y)`; a coordinate outside the grid changes nothing.
    pub fn set(&mut self, x: i32, y: i32, tile: Tile)
        requires
            old(self).wf(),
        ensures
            final(self).wf(),
            final(self).width == old(self).width,
            final(self).height == old(self).height,
            old(self).contains(x as int, y as int) ==> final(self).tiles@ == old(self).tiles@.update(
                cell_index(old(self).width as int, x as int, y as int),
                tile,
            ),
            !old(self).contains(x as int, y as int) ==> final(self).tiles@ == old(self).tiles@,
            final(self).spec_get(x as int, y as int) == (if old(self).contains(x as int, y as int) {
                Some(tile)
            } else {
                None
            }),
            forall|x2: int, y2: int|
                #![trigger final(self).at(x2, y2)]
                old(self).contains(x2, y2) ==> final(self).at(x2, y2) == (if x2 == x && y2 == y {
                    tile
                } else {
                    old(self).at(x2, y2)
                }),
    {
        if self.in_bounds(x, y) {
            proof {
                lemma_cell_index_bounds(self.width as int, self.height as int, x as int, y as int);
            }
            let n: usize = self.tiles.len();
            assert((y as int) * (self.width as int) <= cell_index(self.width as int, x as int, y as int));
            assert(cell_index(self.width as int, x as int, y as int) < n);
            let idx: usize = (y as usize) * self.width + (x as usize);
            self.tiles.set(idx, tile);
            proof {
                let w = self.width as int;
                assert forall|x2: int, y2: int| old(self).contains(x2, y2) implies #[trigger] self.at(
                    x2,
                    y2,
                ) == (if x2 == x && y2 == y {
                    tile
                } else {
                    old(self).at(x2, y2)
                }) by {
                    lemma_cell_index_bounds(w, self.height as int, x2, y2);
                    if cell_index(w, x2, y2) == cell_index(w, x as int, y as int) {
                        lemma_cell_index_unique(w, x2, y2, x as int, y as int);
                    }
                }
            }
        }
    }

    /// Reset every cell to `Free`.
    pub fn clear(&mut self)
        requires
            old(self).wf(),
        ensures
            final(self).wf(),
            final(self).width == old(self).width,
            final(self).height == old(self).height,
            forall|x: int, y: int| final(self).contains(x, y) ==> #[trigger] final(self).at(x, y) == Tile::Free,
    {
        let n: usize = self.tiles.len();
        let mut i: usize = 0;
        while i < n
            invariant
                self.wf(),
                self.width == old(self).width,
                self.height == old(self).height,
                n == self.tiles@.len(),
                i <= n,
                forall|k: int| 0 <= k < i ==> self.tiles@[k] == Tile::Free,
            decreases n - i,
        {
            self.tiles.set(i, Tile::Free);
            i = i + 1;
        }
        assert forall|x: int, y: int| self.contains(x, y) implies #[trigger] self.at(x, y) == Tile::Free by {
            lemma_cell_index_bounds(self.width as int, self.height as int, x, y);
        }
    }

    /// The grid as a flat row-major tile buffer.
    pub fn to_tiles(&self) -> (v: Vec<Tile>)
        requires
            self.wf(),
        ensures
            v@ == self.tiles@,
    {
        let n: usize = self.tiles.len();
        let mut v: Vec<Tile> = Vec::new();
        let mut i: usize = 0;
        while i < n
            invariant
                n == self.tiles@.len(),
                i <= n,
                v@ == self.tiles@.subrange(0, i as int),
            decreases n - i,
        {
            v.push(self.tiles[i]);
            i = i + 1;
            assert(v@ =~= self.tiles@.subrange(0, i as int));
        }
        assert(v@ =~= self.tiles@);
        v
    }

    /// How many cells are free.
    pub fn count_free(&self) -> (n: usize)
        requires
            self.wf(),
        ensures
            n == self.tiles@.filter(|t: Tile| t == Tile::Free).len(),
    {
        let len: usize = self.tiles.len();
        let mut n: usize = 0;
        let mut i: usize = 0;
        while i < len
            invariant
                len == self.tiles@.len(),
                i <= len,
                n == self.tiles@.subrange(0, i as int).filter(|t: Tile| t == Tile::Free).len(),
                n <= i,
            decreases len - i,
        {
            proof {
                let pre = self.tiles@.subrange(0, i as int);
                assert(self.tiles@.subrange(0, i + 1) =~= pre.push(self.tiles@[i as int]));
                pre.lemma_filter_push(self.tiles@[i as int], |t: Tile| t == Tile::Free);
                broadcast use vstd::seq_lib::group_filter_ensures;
            }
            if self.tiles[i] == Tile::Free {
                n = n + 1;
            }
            i = i + 1;
        }
        assert(self.tiles@.subrange(0, len as int) =~= self.tiles@);
        n
    }

    /// Overwrite every cell from a row-major tile buffer; cells beyond the
    /// grid's size in `tiles` are ignored.
    pub fn fill_from(&mut self, tiles: &[Tile])
        requires
            old(self).wf(),
            tiles@.len() >= old(self).width * old(self).height,
        ensures
            final(self).wf(),
            final(self).width == old(self).width,
            final(self).height == old(self).height,
            final(self).tiles@ == tiles@.subrange(0, old(self).width * old(self).height),
    {
        let n: usize = self.tiles.len();
        let mut i: usize = 0;
        while i < n
            invariant
                self.wf(),
                self.width == old(self).width,
                self.height == old(self).height,
                n == self.tiles@.len(),
                n <= tiles@.len(),
                i <= n,
                forall|k: int| 0 <= k < i ==> self.tiles@[k] == tiles@[k],
            decreases n - i,
        {
            self.tiles.set(i, tiles[i]);
            i = i + 1;
        }
        assert(self.tiles@ =~= tiles@.subrange(0, n as int));
    }

    /// Mark the free cells of the square of `radius` around the base at
    /// `(bx, by)` as the team's safe zone. The base cell itself, cells off the
    /// grid, and cells already holding a base, an obstacle or another team's
    /// zone are left alone.
    pub fn stamp_safe_zone(&mut self, bx: i32, by: i32, team: u8, radius: i32)
        requires
            old(self).wf(),
            radius > i32::MIN,
            radius >= 0 ==> i32::MIN <= bx - radius && bx + radius <= i32::MAX,
            radius >= 0 ==> i32::MIN <= by - radius && by + radius <= i32::MAX,
        ensures
            final(self).wf(),
            final(self).width == old(self).width,
            final(self).height == old(self).height,
            forall|x: int, y: int|
                old(self).contains(x, y) ==> #[trigger] final(self).at(x, y) == old(self).stamped_at(
                    bx as int,
                    by as int,
                    team,
                    radius as int,
                    x,
                    y,
                ),
    {
        let ghost orig = *old(self);
        let r: i64 = radius as i64;
        let mut dy: i64 = -r;
        while dy <= r
            invariant
                self.wf(),
                orig.wf(),
                self.width == orig.width,
                self.height == orig.height,
                r == radius,
                radius > i32::MIN,
                radius >= 0 ==> i32::MIN <= bx - radius && bx + radius <= i32::MAX,
                radius >= 0 ==> i32::MIN <= by - radius && by + radius <= i32::MAX,
                -r <= dy,
                r >= 0 ==> dy <= r + 1,
                forall|x: int, y: int|
                    orig.contains(x, y) ==> #[trigger] self.at(x, y) == (if y - by < dy {
                        orig.stamped_at(bx as int, by as int, team, radius as int, x, y)
                    } else {
                        orig.at(x, y)
                    }),
            decreases r + 1 - dy,
        {
            let mut dx: i64 = -r;
            while dx <= r
                invariant
                    self.wf(),
                    orig.wf(),
                    self.width == orig.width,
                    self.height == orig.height,
                    r == radius,
                    radius >= 0 ==> i32::MIN <= bx - radius && bx + radius <= i32::MAX,
                    radius >= 0 ==> i32::MIN <= by - radius && by + radius <= i32::MAX,
                    -r <= dy <= r,
                    -r <= dx <= r + 1,
                    forall|x: int, y: int|
                        orig.contains(x, y) ==> #[trigger] self.at(x, y) == (if y - by < dy || (
                        y - by == dy && x - bx < dx) {
                            orig.stamped_at(bx as int, by as int, team, radius as int, x, y)
                        } else {
                            orig.at(x, y)
                        }),
                decreases r + 1 - dx,
            {
                if !(dx == 0 && dy == 0) {
                    let cx: i32 = (bx as i64 + dx) as i32;
                    let cy: i32 = (by as i64 + dy) as i32;
                    if self.in_bounds(cx, cy) {
                        if self.get(cx, cy) == Some(Tile::Free) {
                            self.set(cx, cy, Tile::SafeZone(team));
                        }
                    }
                }
                dx = dx + 1;
            }
            dy = dy + 1;
        }
    }
}

/// The clamped bounding rectangle `(min_x, min_y, max_x, max_y)` of a safe
/// zone of `radius` around `(bx, by)` on a `width` × `height` grid.
pub open spec fn spec_safe_zone_bounds(
    bx: int,
    by: int,
    radius: int,
    width: int,
    height: int,
) -> (int, int, int, int) {
    (
        if bx - radius > 0 { bx - radius } else { 0 },
        if by - radius > 0 { by - radius } else { 0 },
        if bx + radius < width - 1 { bx + radius } else { width - 1 },
        if by + radius < height - 1 { by + radius } else { height - 1 },
    )
}

/// The rectangle the safe-zone border is drawn around: the square of
/// `radius` around the base, clamped to the grid.
pub fn safe_zone_bounds(bx: i32, by: i32, radius: i32, width: usize, height: usize) -> (r: (
    i32,
    i32,
    i32,
    i32,
))
    requires
        width <= i32::MAX,
        height <= i32::MAX,
        i32::MIN <= bx - radius <= i32::MAX,
        i32::MIN <= bx + radius <= i32::MAX,
        i32::MIN <= by - radius <= i32::MAX,
        i32::MIN <= by + radius <= i32::MAX,
    ensures
        (r.0 as int, r.1 as int, r.2 as int, r.3 as int) == spec_safe_zone_bounds(
            bx as int,
            by as int,
            radius as int,
            width as int,
            height as int,
        ),
{
    let wl: i32 = width as i32 - 1;
    let hl: i32 = height as i32 - 1;
    let lo_x: i32 = bx - radius;
    let lo_y: i32 = by - radius;
    let hi_x: i32 = bx + radius;
    let hi_y: i32 = by + radius;
    (
        if lo_x > 0 { lo_x } else { 0 },
        if lo_y > 0 { lo_y } else { 0 },
        if hi_x < wl { hi_x } else { wl },
        if hi_y < hl { hi_y } else { hl },
    )
}

/// The drawn safe-zone border encloses every cell that stamping the zone
/// changes: a cell whose tile `stamp_safe_zone` alters lies inside
/// `safe_zone_bounds`.
pub proof fn law_safe_zone_border_encloses_stamp(
    g: Grid,
    bx: int,
    by: int,
    team: u8,
    radius: int,
    x: int,
    y: int,
)
    requires
        g.wf(),
        g.contains(x, y),
        g.stamped_at(bx, by, team, radius, x, y) != g.at(x, y),
    ensures
        ({
            let b = spec_safe_zone_bounds(bx, by, radius, g.width as int, g.height as int);
            b.0 <= x <= b.2 && b.1 <= y <= b.3
        }),
{
}

/// The drawn border matches the stamping exactly: a grid cell lies inside
/// `safe_zone_bounds` if and only if it lies in the square that
/// `stamp_safe_zone` covers.
pub proof fn law_safe_zone_bounds_match_square(g: Grid, bx: int, by: int, radius: int, x: int, y: int)
    requires
        g.contains(x, y),
    ensures
        ({
            let b = spec_safe_zone_bounds(bx, by, radius, g.width as int, g.height as int);
            (b.0 <= x <= b.2 && b.1 <= y <= b.3) <==> (x - bx <= radius && bx - x <= radius && y - by
                <= radius && by - y <= radius)
        }),
{
}

/// What stamping a safe zone does to one grid cell, in terms of the base and
/// the radius alone: a free cell at most `radius` cells from the base in both
/// directions, other than the base cell, becomes the team's safe zone; every
/// other cell keeps its tile. No cell becomes anything else.
pub proof fn law_stamp_covers_square(g: Grid, bx: int, by: int, team: u8, radius: int, x: int, y: int)
    ensures
        ({
            let near = x - bx <= radius && bx - x <= radius && y - by <= radius && by - y <= radius;
            let claimed = near && !(x == bx && y == by) && g.at(x, y) == Tile::Free;
            &&& claimed ==> g.stamped_at(bx, by, team, radius, x, y) == Tile::SafeZone(team)
            &&& !claimed ==> g.stamped_at(bx, by, team, radius, x, y) == g.at(x, y)
        }),
{
}

/// Copying the grid out to a buffer and filling it back in restores it.
pub proof fn law_tiles_round_trip(g: Grid, buffer: Seq<Tile>)
    requires
        g.wf(),
        buffer == g.tiles@,
    ensures
        buffer.len() >= g.width * g.height,
        buffer.subrange(0, g.width * g.height) == g.tiles@,
{
    assert(buffer.subrange(0, g.width * g.height) =~= g.tiles@);
}

/// A base to place: its centre cell and team.
#[derive(Clone, Copy, PartialEq, Eq, Debug, Structural)]
pub struct BasePlacement {
    pub x: i32,
    pub y: i32,
    pub team: u8,
}

/// One base's effect on the tile `t` at `(x, y)`: the centre becomes the base,
/// a free cell of the surrounding square becomes the team's safe zone.
pub open spec fn apply_base(t: Tile, x: int, y: int, b: BasePlacement, radius: int) -> Tile {
    if x == b.x && y == b.y {
        Tile::Base(b.team)
    } else if in_square(b.x as int, b.y as int, radius, x, y) && t == Tile::Free {
        Tile::SafeZone(b.team)
    } else {
        t
    }
}

/// The tile at `(x, y)` after placing `bases` in order on a cell holding `t`.
pub open spec fn tile_after_bases(t: Tile, x: int, y: int, bases: Seq<BasePlacement>, radius: int) -> Tile
    decreases bases.len(),
{
    if bases.len() == 0 {
        t
    } else {
        apply_base(tile_after_bases(t, x, y, bases.drop_last(), radius), x, y, bases.last(), radius)
    }
}

/// Stamping a base's safe zone around it stays within `i32`.
pub open spec fn base_fits(b: BasePlacement, radius: int) -> bool {
    radius >= 0 ==> i32::MIN <= b.x - radius && b.x + radius <= i32::MAX && i32::MIN <= b.y - radius && b.y
        + radius <= i32::MAX
}

/// Place each base with its safe zone, in order: the safe zone first, so
/// that the base tile then overwrites the centre.
pub fn place_bases(grid: &mut Grid, bases: &Vec<BasePlacement>, radius: i32)
    requires
        old(grid).wf(),
        radius > i32::MIN,
        forall|k: int| 0 <= k < bases@.len() ==> base_fits(#[trigger] bases@[k], radius as int),
    ensures
        final(grid).wf(),
        final(grid).width == old(grid).width,
        final(grid).height == old(grid).height,
        forall|x: int, y: int|
            old(grid).contains(x, y) ==> #[trigger] final(grid).at(x, y) == tile_after_bases(
                old(grid).at(x, y),
                x,
                y,
                bases@,
                radius as int,
            ),
{
    let ghost orig = *old(grid);
    let n: usize = bases.len();
    let mut i: usize = 0;
    while i < n
        invariant
            n == bases@.len(),
            i <= n,
            grid.wf(),
            orig.wf(),
            grid.width == orig.width,
            grid.height == orig.height,
            radius > i32::MIN,
            forall|k: int| 0 <= k < bases@.len() ==> base_fits(#[trigger] bases@[k], radius as int),
            forall|x: int, y: int|
                orig.contains(x, y) ==> #[trigger] grid.at(x, y) == tile_after_bases(
                    orig.at(x, y),
                    x,
                    y,
                    bases@.subrange(0, i as int),
                    radius as int,
                ),
        decreases n - i,
    {
        let b: BasePlacement = bases[i];
        assert(base_fits(bases@[i as int], radius as int));
        let ghost mid = *grid;
        grid.stamp_safe_zone(b.x, b.y, b.team, radius);
        let ghost stamped = *grid;
        grid.set(b.x, b.y, Tile::Base(b.team));
        proof {
            assert(bases@.subrange(0, i + 1).drop_last() =~= bases@.subrange(0, i as int));
            assert forall|x: int, y: int| orig.contains(x, y) implies #[trigger] grid.at(x, y)
                == tile_after_bases(orig.at(x, y), x, y, bases@.subrange(0, i + 1), radius as int) by {
                assert(stamped.at(x, y) == mid.stamped_at(b.x as int, b.y as int, b.team, radius as int, x, y));
                assert(mid.at(x, y) == tile_after_bases(
                    orig.at(x, y),
                    x,
                    y,
                    bases@.subrange(0, i as int),
                    radius as int,
                ));
            }
        }
        i = i + 1;
    }
    assert(bases@.subrange(0, n as int) =~= bases@);
}

/// Safe zones never clobber what is already there: a cell that was not free
/// before the bases were placed either keeps its tile or holds a base.
pub proof fn law_bases_keep_claimed_cells(
    t: Tile,
    x: int,
    y: int,
    bases: Seq<BasePlacement>,
    radius: int,
)
    requires
        t != Tile::Free,
    ensures
        tile_after_bases(t, x, y, bases, radius) == t || tile_after_bases(t, x, y, bases, radius) is Base,
    decreases bases.len(),
{
    if bases.len() > 0 {
        law_bases_keep_claimed_cells(t, x, y, bases.drop_last(), radius);
    }
}

/// No base placed leaves a cell as it was: with no bases every cell keeps its
/// tile, and placing one more base puts that base on its centre cell, turns a
/// still-free cell at most `radius` cells from it in both directions into its
/// team's safe zone, and leaves every other cell as the earlier bases left it.
pub proof fn law_place_one_more_base(t: Tile, x: int, y: int, bases: Seq<BasePlacement>, b: BasePlacement, radius: int)
    ensures
        tile_after_bases(t, x, y, Seq::empty(), radius) == t,
        ({
            let before = tile_after_bases(t, x, y, bases, radius);
            let after = tile_after_bases(t, x, y, bases.push(b), radius);
            let near = x - b.x <= radius && b.x - x <= radius && y - b.y <= radius && b.y - y <= radius;
            &&& (x == b.x && y == b.y ==> after == Tile::Base(b.team))
            &&& (!(x == b.x && y == b.y) && near && before == Tile::Free ==> after == Tile::SafeZone(b.team))
            &&& (!(x == b.x && y == b.y) && !(near && before == Tile::Free) ==> after == before)
        }),
{
    assert(bases.push(b).drop_last() =~= bases);
}

/// The centre cell of the last base placed there holds that base.
pub proof fn law_last_base_holds_centre(t: Tile, bases: Seq<BasePlacement>, radius: int)
    requires
        bases.len() > 0,
    ensures
        tile_after_bases(t, bases.last().x as int, bases.last().y as int, bases, radius) == Tile::Base(
            bases.last().team,
        ),
{
}

} // verus!
