use vstd::prelude::*;

verus! {

/// An integer grid position.
#[derive(Clone, Copy, PartialEq, Eq, Structural, Debug)]
pub struct Coord {
    pub x: i32,
    pub y: i32,
}

impl Coord {
    pub fn new(x: i32, y: i32) -> (c: Coord)
        ensures
            c.x == x && c.y == y,
    {
        Coord { x, y }
    }
}

/// Per-cell state. A tile may be both blocked and road-marked: a constructed
/// road occupies its cell (impassable to new buildings) while staying
/// passable to the pathfinder.
#[derive(Clone, Copy, PartialEq, Eq, Structural, Debug)]
pub struct Tile {
    pub blocked: bool,
    pub road: bool,
}

impl Tile {
    /// An open ground tile.
    pub fn empty() -> (t: Tile)
        ensures
            t == (Tile { blocked: false, road: false }),
    {
        Tile { blocked: false, road: false }
    }

    /// A building tile: blocked, not a road.
    pub fn wall() -> (t: Tile)
        ensures
            t == (Tile { blocked: true, road: false }),
    {
        Tile { blocked: true, road: false }
    }

    /// A road tile: blocked for placement, yet traversable.
    pub fn road() -> (t: Tile)
        ensures
            t == (Tile { blocked: true, road: true }),
    {
        Tile { blocked: true, road: true }
    }
}

/// A tile is passable to the pathfinder when it is unblocked or is a road.
pub open spec fn passable(t: Tile) -> bool {
    !t.blocked || t.road
}

/// The absolute difference of two integers.
pub open spec fn dist1(a: int, b: int) -> int {
    if a >= b {
        a - b
    } else {
        b - a
    }
}

/// Manhattan distance between two grid positions.
pub open spec fn manhattan(a: Coord, b: Coord) -> int {
    dist1(a.x as int, b.x as int) + dist1(a.y as int, b.y as int)
}

/// Two positions are adjacent when they are one orthogonal step apart
/// (von Neumann neighbourhood).
pub open spec fn adjacent(a: Coord, b: Coord) -> bool {
    manhattan(a, b) == 1
}

/// A dense rectangular tile grid, fully populated over its extent at
/// construction time; row-major storage indexed by `y * width + x`.
pub struct TileGrid {
    pub width: i32,
    pub height: i32,
    pub tiles: Vec<Tile>,
}

impl TileGrid {
    /// The grid holds exactly one tile for every cell of its extent.
    pub open spec fn wf(self) -> bool {
        &&& 0 <= self.width
        &&& 0 <= self.height
        &&& self.tiles@.len() == self.width * self.height
    }

    /// The number of cells of the extent.
    pub open spec fn area(self) -> int {
        self.width * self.height
    }

    pub open spec fn in_bounds_xy(self, x: int, y: int) -> bool {
        0 <= x < self.width && 0 <= y < self.height
    }

    pub open spec fn in_bounds(self, c: Coord) -> bool {
        self.in_bounds_xy(c.x as int, c.y as int)
    }

    pub open spec fn tile_at_xy(self, x: int, y: int) -> Tile {
        self.tiles@[y * self.width + x]
    }

    pub open spec fn tile_at(self, c: Coord) -> Tile {
        self.tile_at_xy(c.x as int, c.y as int)
    }

    /// A fully open grid of the given extent.
    pub fn new(width: i32, height: i32) -> (g: TileGrid)
        requires
            0 <= width,
            0 <= height,
            width * height <= usize::MAX,
        ensures
            g.wf(),
            g.width == width,
            g.height == height,
            forall|x: int, y: int| g.in_bounds_xy(x, y)
                ==> g.tile_at_xy(x, y) == (Tile { blocked: false, road: false }),
    {
        let total: usize = (width as usize) * (height as usize);
        let mut tiles: Vec<Tile> = Vec::new();
        while tiles.len() < total
            invariant
                tiles@.len() <= total,
                total == width * height,
                forall|i: int| 0 <= i < tiles@.len()
                    ==> tiles@[i] == (Tile { blocked: false, road: false }),
            decreases total - tiles@.len(),
        {
            tiles.push(Tile::empty());
        }
        let g = TileGrid { width, height, tiles };
        proof {
            assert forall|x: int, y: int| g.in_bounds_xy(x, y)
                implies g.tile_at_xy(x, y) == (Tile { blocked: false, road: false }) by {
                lemma_row_major_range(width as int, height as int, x, y);
            }
        }
        g
    }

    /// Row-major index of an in-extent cell.
    fn cell_index(&self, x: i32, y: i32) -> (idx: usize)
        requires
            self.wf(),
            self.in_bounds_xy(x as int, y as int),
        ensures
            idx == y * self.width + x,
            idx < self.tiles@.len(),
    {
        proof {
            lemma_row_major_range(self.width as int, self.height as int, x as int, y as int);
        }
        let total: usize = self.tiles.len();
        (y as usize) * (self.width as usize) + (x as usize)
    }

    /// The tile at `c`, or `None` when `c` lies outside the extent.
    pub fn get(&self, c: Coord) -> (r: Option<Tile>)
        requires
            self.wf(),
        ensures
            self.in_bounds(c) ==> r == Some(self.tile_at(c)),
            !self.in_bounds(c) ==> r is None,
    {
        if 0 <= c.x && c.x < self.width && 0 <= c.y && c.y < self.height {
            let idx = self.cell_index(c.x, c.y);
            Some(self.tiles[idx])
        } else {
            None
        }
    }

    /// Overwrite the tile at `c`. Callers are responsible for bounds policy:
    /// the grid itself only stores.
    pub fn set(&mut self, c: Coord, t: Tile)
        requires
            old(self).wf(),
            old(self).in_bounds(c),
        ensures
            final(self).wf(),
            final(self).width == old(self).width,
            final(self).height == old(self).height,
            final(self).tile_at(c) == t,
            forall|x: int, y: int|
                old(self).in_bounds_xy(x, y) && !(x == c.x as int && y == c.y as int)
                    ==> final(self).tile_at_xy(x, y) == old(self).tile_at_xy(x, y),
    {
        let idx = self.cell_index(c.x, c.y);
        self.tiles[idx] = t;
        proof {
            let w = self.width as int;
            let h = self.height as int;
            assert forall|x: int, y: int|
                old(self).in_bounds_xy(x, y) && !(x == c.x as int && y == c.y as int)
                    implies final(self).tile_at_xy(x, y) == old(self).tile_at_xy(x, y) by {
                lemma_row_major_range(w, h, x, y);
                lemma_row_major_distinct(w, x, y, c.x as int, c.y as int);
            }
        }
    }

    /// What the neighbour scan offers for the position `(x, y)`: the cell
    /// itself when it lies in the grid and its tile is passable, else
    /// nothing.
    pub open spec fn offered(self, x: int, y: int) -> Seq<Coord> {
        if self.in_bounds_xy(x, y) && passable(self.tile_at_xy(x, y)) {
            seq![Coord { x: x as i32, y: y as i32 }]
        } else {
            Seq::<Coord>::empty()
        }
    }

    /// The in-grid, passable orthogonal neighbours of `n`, offered in the
    /// fixed scan order +x, -x, +y, -y and therefore free of duplicates.
    pub fn neighbours(&self, n: Coord) -> (r: Vec<Coord>)
        requires
            self.wf(),
        ensures
            r@ == self.offered(n.x + 1, n.y as int) + self.offered(n.x - 1, n.y as int)
                + self.offered(n.x as int, n.y + 1) + self.offered(n.x as int, n.y - 1),
            r@.no_duplicates(),
            forall|k: int| 0 <= k < r@.len()
                ==> adjacent(#[trigger] r@[k], n) && self.in_bounds(r@[k])
                    && passable(self.tile_at(r@[k])),
            forall|c: Coord|
                adjacent(c, n) && self.in_bounds(c) && passable(self.tile_at(c))
                    ==> r@.contains(c),
    {
        let mut r: Vec<Coord> = Vec::new();
        let ghost s0 = r@;
        self.try_push_neighbour(&mut r, n.x as i64 + 1, n.y as i64);
        let ghost s1 = r@;
        self.try_push_neighbour(&mut r, n.x as i64 - 1, n.y as i64);
        let ghost s2 = r@;
        self.try_push_neighbour(&mut r, n.x as i64, n.y as i64 + 1);
        let ghost s3 = r@;
        self.try_push_neighbour(&mut r, n.x as i64, n.y as i64 - 1);
        proof {
            assert(s1 =~= s0 + self.offered(n.x + 1, n.y as int));
            assert(s2 =~= s1 + self.offered(n.x - 1, n.y as int));
            assert(s3 =~= s2 + self.offered(n.x as int, n.y + 1));
            assert(r@ =~= s3 + self.offered(n.x as int, n.y - 1));
            assert(r@ =~= self.offered(n.x + 1, n.y as int) + self.offered(n.x - 1, n.y as int)
                + self.offered(n.x as int, n.y + 1) + self.offered(n.x as int, n.y - 1));
            assert(r@.no_duplicates()) by {
                assert forall|i: int, j: int| 0 <= i < j < r@.len() implies r@[i] != r@[j] by {
                    assert(s1.len() <= 1 && s2.len() <= s1.len() + 1 && s3.len() <= s2.len() + 1
                        && r@.len() <= s3.len() + 1);
                    assert forall|k: int| 0 <= k < r@.len() implies {
                        &&& (k < s1.len() ==> (#[trigger] r@[k]).x == n.x + 1 && r@[k].y == n.y)
                        &&& (s1.len() <= k < s2.len() ==> r@[k].x == n.x - 1 && r@[k].y == n.y)
                        &&& (s2.len() <= k < s3.len() ==> r@[k].x == n.x && r@[k].y == n.y + 1)
                        &&& (s3.len() <= k ==> r@[k].x == n.x && r@[k].y == n.y - 1)
                    } by {}
                }
            }
            assert forall|c: Coord|
                adjacent(c, n) && self.in_bounds(c) && passable(self.tile_at(c))
                    implies r@.contains(c) by {
                if c.x == n.x + 1 && c.y == n.y {
                    assert(s1 == s0.push(c));
                    assert(r@[0] == c);
                } else if c.x == n.x - 1 && c.y == n.y {
                    assert(s2 == s1.push(c));
                    assert(r@[s1.len() as int] == c);
                } else if c.x == n.x && c.y == n.y + 1 {
                    assert(s3 == s2.push(c));
                    assert(r@[s2.len() as int] == c);
                } else {
                    assert(c.x == n.x && c.y == n.y - 1);
                    assert(r@ == s3.push(c));
                    assert(r@[s3.len() as int] == c);
                }
            }
        }
        r
    }

    /// Append the cell at `(cx, cy)` when it lies in the grid and its tile is
    /// passable; otherwise leave the list unchanged.
    fn try_push_neighbour(&self, r: &mut Vec<Coord>, cx: i64, cy: i64)
        requires
            self.wf(),
            i32::MIN - 1 <= cx <= i32::MAX + 1,
            i32::MIN - 1 <= cy <= i32::MAX + 1,
        ensures
            ({
                let ok = self.in_bounds_xy(cx as int, cy as int)
                    && passable(self.tile_at_xy(cx as int, cy as int));
                if ok {
                    final(r)@ == old(r)@.push(Coord { x: cx as i32, y: cy as i32 })
                } else {
                    final(r)@ == old(r)@
                }
            }),
    {
        if 0 <= cx && cx < self.width as i64 && 0 <= cy && cy < self.height as i64 {
            let idx = self.cell_index(cx as i32, cy as i32);
            let t = self.tiles[idx];
            if !t.blocked || t.road {
                r.push(Coord { x: cx as i32, y: cy as i32 });
            }
        }
    }
}

/// A row-major index lies within the extent.
pub proof fn lemma_row_major_range(w: int, h: int, x: int, y: int)
    requires
        0 <= x < w,
        0 <= y < h,
    ensures
        0 <= y * w + x < w * h,
{
    assert(0 <= y * w + x < w * h) by (nonlinear_arith)
        requires
            0 <= x < w,
            0 <= y < h,
    ;
}

/// Distinct in-extent cells have distinct row-major indices.
pub proof fn lemma_row_major_distinct(w: int, x1: int, y1: int, x2: int, y2: int)
    requires
        0 <= x1 < w,
        0 <= x2 < w,
        !(x1 == x2 && y1 == y2),
    ensures
        y1 * w + x1 != y2 * w + x2,
{
    assert(y1 * w + x1 != y2 * w + x2) by (nonlinear_arith)
        requires
            0 <= x1 < w,
            0 <= x2 < w,
            !(x1 == x2 && y1 == y2),
    ;
}

/// The demonstration map: an open field with a solid band of walls on the
/// right third of the extent.
pub fn make_map(dimxy: Coord) -> (g: TileGrid)
    requires
        0 <= dimxy.x,
        0 <= dimxy.y,
        dimxy.x * dimxy.y <= usize::MAX,
    ensures
        g.wf(),
        g.width == dimxy.x,
        g.height == dimxy.y,
        forall|x: int, y: int| g.in_bounds_xy(x, y)
            ==> g.tile_at_xy(x, y) == (if x > 2 * dimxy.x / 3 {
                Tile { blocked: true, road: false }
            } else {
                Tile { blocked: false, road: false }
            }),
{
    let mut g = TileGrid::new(dimxy.x, dimxy.y);
    let threshold: i32 = ((2 * (dimxy.x as i64)) / 3) as i32;
    proof {
        assert(threshold == 2 * dimxy.x / 3);
    }
    let mut x: i32 = threshold + 1;
    while x < dimxy.x
        invariant
            g.wf(),
            g.width == dimxy.x,
            g.height == dimxy.y,
            threshold == 2 * dimxy.x / 3,
            threshold + 1 <= x,
            forall|xx: int, yy: int| g.in_bounds_xy(xx, yy)
                ==> g.tile_at_xy(xx, yy) == (if threshold < xx < x {
                    Tile { blocked: true, road: false }
                } else {
                    Tile { blocked: false, road: false }
                }),
        decreases dimxy.x - x,
    {
        let mut y: i32 = 0;
        while y < dimxy.y
            invariant
                g.wf(),
                g.width == dimxy.x,
                g.height == dimxy.y,
                threshold == 2 * dimxy.x / 3,
                threshold + 1 <= x < dimxy.x,
                0 <= y,
                forall|xx: int, yy: int| g.in_bounds_xy(xx, yy)
                    ==> g.tile_at_xy(xx, yy) == (if threshold < xx < x || (xx == x && yy < y) {
                        Tile { blocked: true, road: false }
                    } else {
                        Tile { blocked: false, road: false }
                    }),
            decreases dimxy.y - y,
        {
            g.set(Coord { x, y }, Tile::wall());
            y += 1;
        }
        x += 1;
    }
    g
}

/// A duplicate-free list of cells that all lie in a `w` by `h` extent,
/// except possibly for one designated extra position, can have at most
/// `w * h + 1` entries.
pub proof fn lemma_distinct_coords_bound(s: Seq<Coord>, w: int, h: int, extra: Coord)
    requires
        s.no_duplicates(),
        0 <= w,
        0 <= h,
        forall|i: int| 0 <= i < s.len()
            ==> (0 <= #[trigger] s[i].x < w && 0 <= s[i].y < h) || s[i] == extra,
    ensures
        s.len() <= w * h + 1,
{
    let f = |c: Coord| if c == extra { -1int } else { c.y * w + c.x };
    let m = s.map_values(f);
    assert(m.len() == s.len());
    assert forall|i: int, j: int| 0 <= i < j < m.len() implies m[i] != m[j] by {
        assert(s[i] != s[j]);
        if s[i] == extra {
            lemma_row_major_range(w, h, s[j].x as int, s[j].y as int);
        } else if s[j] == extra {
            lemma_row_major_range(w, h, s[i].x as int, s[i].y as int);
        } else {
            lemma_row_major_distinct(w, s[i].x as int, s[i].y as int, s[j].x as int, s[j].y as int);
        }
    }
    assert(m.no_duplicates());
    assert forall|i: int| 0 <= i < m.len() implies -1 <= #[trigger] m[i] < w * h by {
        if s[i] != extra {
            lemma_row_major_range(w, h, s[i].x as int, s[i].y as int);
        }
    }
    m.unique_seq_to_set();
    assert(m.to_set().subset_of(vstd::set_lib::set_int_range(-1, w * h))) by {
        assert forall|v: int| m.to_set().contains(v)
            implies vstd::set_lib::set_int_range(-1, w * h).contains(v) by {
            let i = choose|i: int| 0 <= i < m.len() && m[i] == v;
            assert(-1 <= m[i] < w * h);
        }
    }
    vstd::set_lib::lemma_int_range(-1, w * h);
    vstd::set_lib::lemma_len_subset(m.to_set(), vstd::set_lib::set_int_range(-1, w * h));
}

} // verus!
