//! Tiles, tilesets and a chunked tilemap.  A tilemap stores square chunks
//! of `chunk_size * chunk_size` tiles; a tile coordinate belongs to the
//! chunk found by Euclidean division, so negative coordinates work too.
use vstd::prelude::*;

verus! {

/// A single tile in a tilemap.
#[derive(Debug, Clone, Copy, PartialEq, Eq, Structural)]
pub struct Tile {
    pub tile_id: u32,
    pub flip_x: bool,
    pub flip_y: bool,
    pub rotation: u8,
}

/// The empty tile: id 0, not flipped, not rotated.
pub open spec fn empty_tile() -> Tile {
    Tile { tile_id: 0, flip_x: false, flip_y: false, rotation: 0 }
}

impl Default for Tile {
    fn default() -> (t: Self)
        ensures
            t == empty_tile(),
    {
        Tile { tile_id: 0, flip_x: false, flip_y: false, rotation: 0 }
    }
}

/// A tileset: a texture cut into `columns * rows` tiles.
#[derive(Debug, Clone)]
pub struct Tileset {
    pub texture_path: String,
    pub tile_width: u32,
    pub tile_height: u32,
    pub columns: u32,
    pub rows: u32,
    pub spacing: u32,
    pub margin: u32,
}

impl Tileset {
    /// A tileset without spacing or margin.
    pub fn new(texture_path: &str, tile_width: u32, tile_height: u32, columns: u32, rows: u32) -> (t: Self)
        ensures
            t.texture_path@ == texture_path@,
            t.tile_width == tile_width,
            t.tile_height == tile_height,
            t.columns == columns,
            t.rows == rows,
            t.spacing == 0,
            t.margin == 0,
    {
        Tileset { texture_path: texture_path.to_owned(), tile_width, tile_height, columns, rows, spacing: 0, margin: 0 }
    }

    /// Number of tiles in the tileset.
    pub fn tile_count(&self) -> (n: u32)
        requires
            self.columns * self.rows <= u32::MAX,
        ensures
            n == self.columns * self.rows,
    {
        self.columns * self.rows
    }

    /// Pixel extent along one axis of a texture holding `count` tiles of
    /// `tile` pixels with `spacing` between them and `margin` around them.
    pub open spec fn atlas_extent(count: u32, tile: u32, spacing: u32, margin: u32) -> int {
        count * (tile + spacing) + margin * 2 - spacing
    }

    /// The extent is computable in `u32` without overflow or underflow.
    pub open spec fn atlas_extent_ok(count: u32, tile: u32, spacing: u32, margin: u32) -> bool {
        &&& tile + spacing <= u32::MAX
        &&& count * (tile + spacing) + margin * 2 <= u32::MAX
        &&& count * (tile + spacing) + margin * 2 >= spacing
    }

    /// Pixel width and height of the tileset texture.
    pub fn texture_size(&self) -> (r: (u32, u32))
        requires
            Self::atlas_extent_ok(self.columns, self.tile_width, self.spacing, self.margin),
            Self::atlas_extent_ok(self.rows, self.tile_height, self.spacing, self.margin),
        ensures
            r.0 == Self::atlas_extent(self.columns, self.tile_width, self.spacing, self.margin),
            r.1 == Self::atlas_extent(self.rows, self.tile_height, self.spacing, self.margin),
    {
        proof {
            assert(self.columns * (self.tile_width + self.spacing) <= u32::MAX);
            assert(self.rows * (self.tile_height + self.spacing) <= u32::MAX);
        }
        let w = self.columns * (self.tile_width + self.spacing) + self.margin * 2 - self.spacing;
        let h = self.rows * (self.tile_height + self.spacing) + self.margin * 2 - self.spacing;
        (w, h)
    }

    /// Pixel position of a tile's top-left corner in the texture: tiles
    /// run row by row, `columns` to a row.
    pub fn tile_origin(&self, tile_id: u32) -> (r: (u32, u32))
        requires
            self.columns > 0,
            self.tile_width + self.spacing <= u32::MAX,
            self.tile_height + self.spacing <= u32::MAX,
            self.margin + (tile_id % self.columns) * (self.tile_width + self.spacing) <= u32::MAX,
            self.margin + (tile_id / self.columns) * (self.tile_height + self.spacing) <= u32::MAX,
        ensures
            r.0 == self.margin + (tile_id % self.columns) * (self.tile_width + self.spacing),
            r.1 == self.margin + (tile_id / self.columns) * (self.tile_height + self.spacing),
    {
        let col = tile_id % self.columns;
        let row = tile_id / self.columns;
        proof {
            assert(col * (self.tile_width + self.spacing) <= u32::MAX);
            assert(row * (self.tile_height + self.spacing) <= u32::MAX);
        }
        (self.margin + col * (self.tile_width + self.spacing), self.margin + row * (self.tile_height + self.spacing))
    }
}

/// A square chunk of tiles, stored row by row.
#[derive(Debug, Clone)]
pub struct TileChunk {
    pub chunk_x: i32,
    pub chunk_y: i32,
    pub tiles: Vec<Tile>,
    pub dirty: bool,
}

impl TileChunk {
    /// A dirty chunk of `size * size` empty tiles.
    pub fn new(chunk_x: i32, chunk_y: i32, size: usize) -> (c: Self)
        requires
            size * size <= usize::MAX,
        ensures
            c.chunk_x == chunk_x,
            c.chunk_y == chunk_y,
            c.dirty,
            c.tiles@ == Seq::new((size * size) as nat, |i: int| empty_tile()),
    {
        let n = size * size;
        let mut tiles: Vec<Tile> = Vec::new();
        let mut i: usize = 0;
        while i < n
            invariant
                i <= n,
                tiles@ == Seq::new(i as nat, |k: int| empty_tile()),
            decreases n - i,
        {
            tiles.push(Tile::default());
            i = i + 1;
            assert(tiles@ =~= Seq::new(i as nat, |k: int| empty_tile()));
        }
        TileChunk { chunk_x, chunk_y, tiles, dirty: true }
    }

    /// The tile at a local position of a chunk of the given size.
    pub fn get_tile(&self, local_x: usize, local_y: usize, chunk_size: usize) -> (t: &Tile)
        requires
            local_y * chunk_size + local_x < self.tiles.len(),
        ensures
            *t == self.tiles@[local_y * chunk_size + local_x],
    {
        &self.tiles[local_y * chunk_size + local_x]
    }

    /// Replace the tile at a local position and mark the chunk dirty.
    pub fn set_tile(&mut self, local_x: usize, local_y: usize, chunk_size: usize, tile: Tile)
        requires
            local_y * chunk_size + local_x < old(self).tiles.len(),
        ensures
            final(self).tiles@ == old(self).tiles@.update(local_y * chunk_size + local_x, tile),
            final(self).dirty,
            final(self).chunk_x == old(self).chunk_x,
            final(self).chunk_y == old(self).chunk_y,
    {
        self.tiles.set(local_y * chunk_size + local_x, tile);
        self.dirty = true;
    }
}

proof fn lemma_local_index(n: int, x: int, y: int, x2: int, y2: int)
    requires
        0 <= x < n,
        0 <= y < n,
        0 <= x2 < n,
        0 <= y2 < n,
    ensures
        0 <= y * n + x < n * n,
        y * n + x == y2 * n + x2 ==> x == x2 && y == y2,
{
    assert(0 <= y * n + x < n * n) by (nonlinear_arith)
        requires
            0 <= x < n,
            0 <= y < n,
    ;
    if y * n + x == y2 * n + x2 {
        if y < y2 {
            assert(y * n + x < y2 * n + x2) by (nonlinear_arith)
                requires
                    y < y2,
                    0 <= x < n,
                    0 <= x2,
            ;
        } else if y2 < y {
            assert(y2 * n + x2 < y * n + x) by (nonlinear_arith)
                requires
                    y2 < y,
                    0 <= x2 < n,
                    0 <= x,
            ;
        }
    }
}

/// In a chunk of `n * n` tiles, writing the tile at `(x, y)` (what
/// `set_tile` does to `tiles`) makes `get_tile` there read the new tile and
/// leaves the tile at every other local position as it was.
pub proof fn lemma_chunk_read_after_write(
    c: TileChunk,
    n: usize,
    x: usize,
    y: usize,
    x2: usize,
    y2: usize,
    tile: Tile,
)
    requires
        c.tiles@.len() == n * n,
        x < n,
        y < n,
        x2 < n,
        y2 < n,
    ensures
        y * n + x < c.tiles@.len(),
        y2 * n + x2 < c.tiles@.len(),
        c.tiles@.update(y * n + x, tile)[y * n + x] == tile,
        (x2, y2) != (x, y) ==> c.tiles@.update(y * n + x, tile)[y2 * n + x2] == c.tiles@[y2 * n + x2],
        c.tiles@.update(y * n + x, tile).len() == n * n,
{
    lemma_local_index(n as int, x as int, y as int, x2 as int, y2 as int);
    lemma_local_index(n as int, x2 as int, y2 as int, x as int, y as int);
}

/// Chunk coordinate and local offset of a tile coordinate along one axis.
pub open spec fn chunk_of(t: int, size: int) -> int {
    t / size
}

/// Local offset of a tile coordinate inside its chunk along one axis.
pub open spec fn local_of(t: int, size: int) -> int {
    t % size
}

/// A tilemap stored as square chunks of `chunk_size * chunk_size` tiles,
/// created on first write.
#[derive(Debug, Clone)]
pub struct Tilemap {
    pub tileset: Tileset,
    pub chunk_size: usize,
    chunks: Vec<TileChunk>,
}

impl Tilemap {
    /// Chunk coordinates are distinct and every chunk holds a full square.
    pub closed spec fn wf(&self) -> bool {
        &&& 1 <= self.chunk_size <= i32::MAX
        &&& self.chunk_size * self.chunk_size <= usize::MAX
        &&& forall|i: int|
            0 <= i < self.chunks@.len() ==> (#[trigger] self.chunks@[i]).tiles@.len() == self.chunk_size
                * self.chunk_size
        &&& forall|i: int, j: int|
            0 <= i < j < self.chunks@.len() ==> ((#[trigger] self.chunks@[i]).chunk_x, self.chunks@[i].chunk_y) != (
            (#[trigger] self.chunks@[j]).chunk_x, self.chunks@[j].chunk_y)
    }

    /// The chunk edge length, in tiles: the field `chunk_size`.
    pub closed spec fn size(&self) -> usize {
        self.chunk_size
    }

    /// The tileset drawn from: the field `tileset`.
    pub closed spec fn tiles_from(&self) -> Tileset {
        self.tileset
    }

    /// Position in `chunks` of the chunk at `(cx, cy)`, if there is one.
    pub closed spec fn chunk_index(&self, cx: int, cy: int) -> Option<int> {
        if exists|i: int| 0 <= i < self.chunks@.len() && self.chunks@[i].chunk_x == cx && self.chunks@[i].chunk_y == cy {
            Some(
                choose|i: int|
                    0 <= i < self.chunks@.len() && self.chunks@[i].chunk_x == cx && self.chunks@[i].chunk_y == cy,
            )
        } else {
            None
        }
    }

    /// The tile stored at tile coordinate `(x, y)`, or `None` when its
    /// chunk was never written.
    pub closed spec fn tile_at(&self, x: int, y: int) -> Option<Tile> {
        let s = self.chunk_size as int;
        match self.chunk_index(chunk_of(x, s), chunk_of(y, s)) {
            Some(i) => Some(self.chunks@[i].tiles@[local_of(y, s) * s + local_of(x, s)]),
            None => None,
        }
    }

    /// Coordinates of the stored chunks, in storage order.
    pub closed spec fn chunk_coords(&self) -> Seq<(i32, i32)> {
        self.chunks@.map_values(|c: TileChunk| (c.chunk_x, c.chunk_y))
    }

    /// An empty tilemap.
    pub fn new(tileset: Tileset, chunk_size: usize) -> (m: Self)
        requires
            1 <= chunk_size <= i32::MAX,
            chunk_size * chunk_size <= usize::MAX,
        ensures
            m.wf(),
            m.tiles_from() == tileset,
            m.size() == chunk_size,
            forall|x: int, y: int| #[trigger] m.tile_at(x, y) == None::<Tile>,
            m.chunk_coords().len() == 0,
    {
        let m = Tilemap { tileset, chunk_size, chunks: Vec::new() };
        assert(m.chunk_coords() =~= Seq::<(i32, i32)>::empty());
        m
    }

    /// Chunk coordinate and local offset of a tile coordinate: Euclidean
    /// quotient and remainder by the chunk size.
    pub fn tile_to_chunk(&self, tile_x: i32, tile_y: i32) -> (r: (i32, i32, usize, usize))
        requires
            self.wf(),
        ensures
            r.0 == chunk_of(tile_x as int, self.size() as int),
            r.1 == chunk_of(tile_y as int, self.size() as int),
            r.2 == local_of(tile_x as int, self.size() as int),
            r.3 == local_of(tile_y as int, self.size() as int),
            r.2 < self.size(),
            r.3 < self.size(),
    {
        let s = self.chunk_size as i32;
        let cx = match tile_x.checked_div_euclid(s) {
            Some(v) => v,
            None => {
                proof {
                    assert(false) by (nonlinear_arith)
                        requires
                            s >= 1,
                            !(i32::MIN <= tile_x as int / s as int <= i32::MAX),
                    ;
                }
                0
            },
        };
        let cy = match tile_y.checked_div_euclid(s) {
            Some(v) => v,
            None => {
                proof {
                    assert(false) by (nonlinear_arith)
                        requires
                            s >= 1,
                            !(i32::MIN <= tile_y as int / s as int <= i32::MAX),
                    ;
                }
                0
            },
        };
        let lx = match tile_x.checked_rem_euclid(s) {
            Some(v) => v,
            None => 0,
        };
        let ly = match tile_y.checked_rem_euclid(s) {
            Some(v) => v,
            None => 0,
        };
        (cx, cy, lx as usize, ly as usize)
    }

    fn find_chunk(&self, cx: i32, cy: i32) -> (r: Option<usize>)
        requires
            self.wf(),
        ensures
            match r {
                Some(i) => self.chunk_index(cx as int, cy as int) == Some(i as int),
                None => self.chunk_index(cx as int, cy as int) == None::<int>,
            },
    {
        let n = self.chunks.len();
        let mut i: usize = 0;
        while i < n
            invariant
                n == self.chunks@.len(),
                i <= n,
                self.wf(),
                forall|k: int| 0 <= k < i ==> !(self.chunks@[k].chunk_x == cx && self.chunks@[k].chunk_y == cy),
            decreases n - i,
        {
            if self.chunks[i].chunk_x == cx && self.chunks[i].chunk_y == cy {
                proof {
                    let c = choose|j: int|
                        0 <= j < self.chunks@.len() && self.chunks@[j].chunk_x == cx && self.chunks@[j].chunk_y == cy;
                    if c != i {
                        if c < i {
                            assert(self.chunks@[c] == self.chunks@[c]);
                        } else {
                            assert((self.chunks@[i as int].chunk_x, self.chunks@[i as int].chunk_y) != (
                            self.chunks@[c].chunk_x, self.chunks@[c].chunk_y));
                        }
                    }
                }
                return Some(i);
            }
            i = i + 1;
        }
        None
    }

    /// The tile at a tile coordinate, or `None` when its chunk was never
    /// written.
    pub fn get_tile(&self, tile_x: i32, tile_y: i32) -> (t: Option<&Tile>)
        requires
            self.wf(),
        ensures
            match t {
                Some(t) => self.tile_at(tile_x as int, tile_y as int) == Some(*t),
                None => self.tile_at(tile_x as int, tile_y as int) == None::<Tile>,
            },
    {
        let (cx, cy, lx, ly) = self.tile_to_chunk(tile_x, tile_y);
        match self.find_chunk(cx, cy) {
            Some(i) => {
                proof {
                    assert(self.chunks@[i as int].tiles@.len() == self.chunk_size * self.chunk_size);
                    assert(ly * self.chunk_size + lx < self.chunk_size * self.chunk_size) by (nonlinear_arith)
                        requires
                            lx < self.chunk_size,
                            ly < self.chunk_size,
                    ;
                }
                Some(self.chunks[i].get_tile(lx, ly, self.chunk_size))
            },
            None => None,
        }
    }

    /// The stored chunks, in storage order.
    pub fn chunks(&self) -> (c: &Vec<TileChunk>)
        ensures
            c@.map_values(|k: TileChunk| (k.chunk_x, k.chunk_y)) == self.chunk_coords(),
    {
        &self.chunks
    }

    /// Positions in `chunks()` of the chunks whose coordinates lie within
    /// one chunk of the range spanned by two tile coordinates (the corners
    /// of a view), in storage order.
    pub fn visible_chunk_indices(&self, start_tile: (i32, i32), end_tile: (i32, i32)) -> (r: Vec<usize>)
        requires
            self.wf(),
            chunk_of(start_tile.0 as int, self.size() as int) - 1 >= i32::MIN,
            chunk_of(start_tile.1 as int, self.size() as int) - 1 >= i32::MIN,
            chunk_of(end_tile.0 as int, self.size() as int) + 1 <= i32::MAX,
            chunk_of(end_tile.1 as int, self.size() as int) + 1 <= i32::MAX,
        ensures
            forall|k: int| 0 <= k < r@.len() ==> (r@[k] as int) < self.chunk_coords().len(),
            forall|k: int, l: int| 0 <= k < l < r@.len() ==> r@[k] < r@[l],
            forall|i: int|
                0 <= i < self.chunk_coords().len() ==> (r@.contains(i as usize) <==> chunk_visible(
                    self.chunk_coords()[i],
                    chunk_of(start_tile.0 as int, self.size() as int),
                    chunk_of(start_tile.1 as int, self.size() as int),
                    chunk_of(end_tile.0 as int, self.size() as int),
                    chunk_of(end_tile.1 as int, self.size() as int),
                )),
    {
        let (sx, sy, _a, _b) = self.tile_to_chunk(start_tile.0, start_tile.1);
        let (ex, ey, _c, _d) = self.tile_to_chunk(end_tile.0, end_tile.1);
        let mut r: Vec<usize> = Vec::new();
        let n = self.chunks.len();
        let mut i: usize = 0;
        while i < n
            invariant
                n == self.chunks@.len(),
                n == self.chunk_coords().len(),
                self.chunk_coords() == self.chunks@.map_values(|k: TileChunk| (k.chunk_x, k.chunk_y)),
                i <= n,
                sx - 1 >= i32::MIN,
                sy - 1 >= i32::MIN,
                ex + 1 <= i32::MAX,
                ey + 1 <= i32::MAX,
                forall|k: int| 0 <= k < r@.len() ==> (r@[k] as int) < i,
                forall|k: int, l: int| 0 <= k < l < r@.len() ==> r@[k] < r@[l],
                forall|j: int|
                    0 <= j < i ==> (r@.contains(j as usize) <==> chunk_visible(
                        self.chunk_coords()[j],
                        sx as int,
                        sy as int,
                        ex as int,
                        ey as int,
                    )),
            decreases n - i,
        {
            let c = &self.chunks[i];
            let ghost before = r@;
            if c.chunk_x >= sx - 1 && c.chunk_x <= ex + 1 && c.chunk_y >= sy - 1 && c.chunk_y <= ey + 1 {
                r.push(i);
            }
            proof {
                assert(self.chunk_coords()[i as int] == (c.chunk_x, c.chunk_y));
                assert forall|j: int| 0 <= j <= i implies (r@.contains(j as usize) <==> chunk_visible(
                    self.chunk_coords()[j],
                    sx as int,
                    sy as int,
                    ex as int,
                    ey as int,
                )) by {
                    if j < i {
                        if r@.contains(j as usize) {
                            let k = choose|k: int| 0 <= k < r@.len() && r@[k] == j as usize;
                            assert(k < before.len());
                            assert(before[k] == j as usize);
                        }
                        if before.contains(j as usize) {
                            let k = choose|k: int| 0 <= k < before.len() && before[k] == j as usize;
                            assert(r@[k] == j as usize);
                        }
                    } else {
                        if r@.contains(j as usize) {
                            let k = choose|k: int| 0 <= k < r@.len() && r@[k] == j as usize;
                            if k < before.len() {
                                assert(before[k] < i);
                            }
                        }
                        if r@.len() > before.len() {
                            assert(r@[before.len() as int] == i);
                        }
                    }
                }
            }
            i = i + 1;
        }
        r
    }

    proof fn lemma_chunk_index_at(&self, i: int)
        requires
            self.wf(),
            0 <= i < self.chunks@.len(),
        ensures
            self.chunk_index(self.chunks@[i].chunk_x as int, self.chunks@[i].chunk_y as int) == Some(i),
    {
        let cx = self.chunks@[i].chunk_x as int;
        let cy = self.chunks@[i].chunk_y as int;
        assert(exists|k: int| 0 <= k < self.chunks@.len() && self.chunks@[k].chunk_x == cx && self.chunks@[k].chunk_y == cy);
        let c = choose|k: int| 0 <= k < self.chunks@.len() && self.chunks@[k].chunk_x == cx && self.chunks@[k].chunk_y == cy;
        if c < i {
            assert((self.chunks@[c].chunk_x, self.chunks@[c].chunk_y) != (self.chunks@[i].chunk_x, self.chunks@[i].chunk_y));
        } else if c > i {
            assert((self.chunks@[i].chunk_x, self.chunks@[i].chunk_y) != (self.chunks@[c].chunk_x, self.chunks@[c].chunk_y));
        }
    }

    /// Write a tile at a tile coordinate, creating its chunk (filled with
    /// empty tiles) if it does not exist yet.  Every other tile keeps its
    /// value; the other tiles of a newly created chunk read as empty.
    pub fn set_tile(&mut self, tile_x: i32, tile_y: i32, tile: Tile)
        requires
            old(self).wf(),
        ensures
            final(self).wf(),
            final(self).size() == old(self).size(),
            final(self).tiles_from() == old(self).tiles_from(),
            final(self).tile_at(tile_x as int, tile_y as int) == Some(tile),
            forall|x: int, y: int|
                (x, y) != (tile_x as int, tile_y as int) ==> #[trigger] final(self).tile_at(x, y) == (
                if old(self).tile_at(x, y) is Some {
                    old(self).tile_at(x, y)
                } else if chunk_of(x, old(self).size() as int) == chunk_of(
                    tile_x as int,
                    old(self).size() as int,
                ) && chunk_of(y, old(self).size() as int) == chunk_of(
                    tile_y as int,
                    old(self).size() as int,
                ) {
                    Some(empty_tile())
                } else {
                    None
                }),
    {
        let (cx, cy, lx, ly) = self.tile_to_chunk(tile_x, tile_y);
        let s = self.chunk_size;
        let ghost si = s as int;
        let ghost pos = ly * si + lx;
        proof {
            lemma_local_pos_bound(tile_x as int, tile_y as int, si);
        }
        let ghost old_self = *self;
        match self.find_chunk(cx, cy) {
            Some(i) => {
                let mut chunk = self.chunks.remove(i);
                chunk.set_tile(lx, ly, s, tile);
                self.chunks.insert(i, chunk);
                proof {
                    assert(self.chunks@ =~= old_self.chunks@.update(i as int, chunk));
                    assert(self.wf()) by {
                        assert forall|p: int, q: int| 0 <= p < q < self.chunks@.len() implies ((
                        #[trigger] self.chunks@[p]).chunk_x, self.chunks@[p].chunk_y) != (
                        (#[trigger] self.chunks@[q]).chunk_x, self.chunks@[q].chunk_y) by {
                            assert(old_self.chunks@[p].chunk_x == self.chunks@[p].chunk_x);
                            assert(old_self.chunks@[q].chunk_y == self.chunks@[q].chunk_y);
                        }
                    }
                    assert forall|x: int, y: int| true implies #[trigger] self.tile_at(x, y) == (
                        if chunk_of(x, si) == cx && chunk_of(y, si) == cy {
                            Some(chunk.tiles@[local_of(y, si) * si + local_of(x, si)])
                        } else {
                            old_self.tile_at(x, y)
                        }) by {
                        let ox = old_self.chunk_index(chunk_of(x, si), chunk_of(y, si));
                        match ox {
                            Some(k) => {
                                old_self.lemma_chunk_index_at(k);
                                self.lemma_chunk_index_at(k);
                            },
                            None => {
                                if self.chunk_index(chunk_of(x, si), chunk_of(y, si)) is Some {
                                    let k = self.chunk_index(chunk_of(x, si), chunk_of(y, si))->0;
                                    self.lemma_chunk_index_at(k);
                                    assert(old_self.chunks@[k].chunk_x == self.chunks@[k].chunk_x);
                                    assert(old_self.chunks@[k].chunk_y == self.chunks@[k].chunk_y);
                                    old_self.lemma_chunk_index_at(k);
                                }
                            },
                        }
                    }
                    assert forall|x: int, y: int|
                        (x, y) != (tile_x as int, tile_y as int) && chunk_of(x, si) == cx && chunk_of(y, si)
                            == cy implies local_of(y, si) * si + local_of(x, si) != pos && old_self.tile_at(x, y)
                        is Some by {
                        lemma_local_pos_injective(x, y, tile_x as int, tile_y as int, si);
                        lemma_local_pos_bound(x, y, si);
                    }
                    assert forall|x: int, y: int| (x, y) != (tile_x as int, tile_y as int) implies #[trigger] self.tile_at(x, y) == (
                        if old_self.tile_at(x, y) is Some {
                            old_self.tile_at(x, y)
                        } else if chunk_of(x, si) == chunk_of(tile_x as int, si) && chunk_of(y, si) == chunk_of(tile_y as int, si) {
                            Some(empty_tile())
                        } else {
                            None
                        }) by {
                        if chunk_of(x, si) == cx && chunk_of(y, si) == cy {
                            lemma_local_pos_injective(x, y, tile_x as int, tile_y as int, si);
                            lemma_local_pos_bound(x, y, si);
                            let p = local_of(y, si) * si + local_of(x, si);
                            assert(chunk.tiles@[p] == old_self.chunks@[i as int].tiles@[p]);
                        }
                    }
                }
            },
            None => {
                let mut chunk = TileChunk::new(cx, cy, s);
                chunk.set_tile(lx, ly, s, tile);
                self.chunks.push(chunk);
                proof {
                    assert(self.chunks@ =~= old_self.chunks@.push(chunk));
                    let n = old_self.chunks@.len() as int;
                    assert(self.wf()) by {
                        assert forall|p: int, q: int| 0 <= p < q < self.chunks@.len() implies ((
                        #[trigger] self.chunks@[p]).chunk_x, self.chunks@[p].chunk_y) != (
                        (#[trigger] self.chunks@[q]).chunk_x, self.chunks@[q].chunk_y) by {
                            if q == n {
                                assert(old_self.chunks@[p] == self.chunks@[p]);
                                if self.chunks@[p].chunk_x == cx && self.chunks@[p].chunk_y == cy {
                                    assert(exists|k: int| 0 <= k < old_self.chunks@.len() && old_self.chunks@[k].chunk_x == cx && old_self.chunks@[k].chunk_y == cy);
                                }
                            } else {
                                assert(old_self.chunks@[p] == self.chunks@[p]);
                                assert(old_self.chunks@[q] == self.chunks@[q]);
                            }
                        }
                    }
                    self.lemma_chunk_index_at(n);
                    assert forall|x: int, y: int| true implies #[trigger] self.tile_at(x, y) == (
                        if chunk_of(x, si) == cx && chunk_of(y, si) == cy {
                            Some(chunk.tiles@[local_of(y, si) * si + local_of(x, si)])
                        } else {
                            old_self.tile_at(x, y)
                        }) by {
                        if !(chunk_of(x, si) == cx && chunk_of(y, si) == cy) {
                            let ox = old_self.chunk_index(chunk_of(x, si), chunk_of(y, si));
                            match ox {
                                Some(k) => {
                                    old_self.lemma_chunk_index_at(k);
                                    assert(old_self.chunks@[k] == self.chunks@[k]);
                                    self.lemma_chunk_index_at(k);
                                },
                                None => {
                                    if self.chunk_index(chunk_of(x, si), chunk_of(y, si)) is Some {
                                        let k = self.chunk_index(chunk_of(x, si), chunk_of(y, si))->0;
                                        self.lemma_chunk_index_at(k);
                                        assert(k != n);
                                        assert(old_self.chunks@[k] == self.chunks@[k]);
                                        old_self.lemma_chunk_index_at(k);
                                    }
                                },
                            }
                        }
                    }
                    assert forall|x: int, y: int|
                        (x, y) != (tile_x as int, tile_y as int) && chunk_of(x, si) == cx && chunk_of(y, si)
                            == cy implies local_of(y, si) * si + local_of(x, si) != pos && old_self.tile_at(x, y)
                        == None::<Tile> by {
                        lemma_local_pos_injective(x, y, tile_x as int, tile_y as int, si);
                        lemma_local_pos_bound(x, y, si);
                    }
                    assert forall|x: int, y: int| (x, y) != (tile_x as int, tile_y as int) implies #[trigger] self.tile_at(x, y) == (
                        if old_self.tile_at(x, y) is Some {
                            old_self.tile_at(x, y)
                        } else if chunk_of(x, si) == chunk_of(tile_x as int, si) && chunk_of(y, si) == chunk_of(tile_y as int, si) {
                            Some(empty_tile())
                        } else {
                            None
                        }) by {
                        if chunk_of(x, si) == cx && chunk_of(y, si) == cy {
                            lemma_local_pos_injective(x, y, tile_x as int, tile_y as int, si);
                            lemma_local_pos_bound(x, y, si);
                            let p = local_of(y, si) * si + local_of(x, si);
                            assert(chunk.tiles@[p] == Seq::new((si * si) as nat, |k: int| empty_tile())[p]);
                        }
                    }
                }
            },
        }
    }
}

/// A chunk lies within one chunk of the chunk range `[sx, ex] x [sy, ey]`.
pub open spec fn chunk_visible(c: (i32, i32), sx: int, sy: int, ex: int, ey: int) -> bool {
    sx - 1 <= c.0 <= ex + 1 && sy - 1 <= c.1 <= ey + 1
}

/// Row-major position of a tile inside its chunk is within the chunk.
proof fn lemma_local_pos_bound(x: int, y: int, s: int)
    requires
        s >= 1,
    ensures
        0 <= local_of(x, s) < s,
        0 <= local_of(y, s) < s,
        0 <= local_of(y, s) * s + local_of(x, s) < s * s,
{
    let lx = local_of(x, s);
    let ly = local_of(y, s);
    assert(0 <= ly * s + lx < s * s) by (nonlinear_arith)
        requires
            0 <= lx < s,
            0 <= ly < s,
    ;
}

/// Two distinct tile coordinates in the same chunk have distinct positions
/// inside it.
proof fn lemma_local_pos_injective(x1: int, y1: int, x2: int, y2: int, s: int)
    requires
        s >= 1,
        (x1, y1) != (x2, y2),
        chunk_of(x1, s) == chunk_of(x2, s),
        chunk_of(y1, s) == chunk_of(y2, s),
    ensures
        local_of(y1, s) * s + local_of(x1, s) != local_of(y2, s) * s + local_of(x2, s),
{
    vstd::arithmetic::div_mod::lemma_fundamental_div_mod(x1, s);
    vstd::arithmetic::div_mod::lemma_fundamental_div_mod(x2, s);
    vstd::arithmetic::div_mod::lemma_fundamental_div_mod(y1, s);
    vstd::arithmetic::div_mod::lemma_fundamental_div_mod(y2, s);
    let (lx1, ly1, lx2, ly2) = (local_of(x1, s), local_of(y1, s), local_of(x2, s), local_of(y2, s));
    assert(lx1 != lx2 || ly1 != ly2);
    assert(ly1 * s + lx1 != ly2 * s + lx2) by (nonlinear_arith)
        requires
            0 <= lx1 < s,
            0 <= lx2 < s,
            0 <= ly1 < s,
            0 <= ly2 < s,
            lx1 != lx2 || ly1 != ly2,
    {
        if ly1 == ly2 {
        } else if ly1 < ly2 {
            assert(ly1 * s + s <= ly2 * s);
        } else {
            assert(ly2 * s + s <= ly1 * s);
        }
    }
}

} // verus!
