//! Tiles and the map that holds them.

use vstd::prelude::*;
use rand::Rng;
use crate::grid::{cell_at, col, lemma_cell, lemma_split, lemma_step_back, opposite, row, step, walls_shaped, walls_view};
use crate::regions::{
    label_regions, linked, linked_at, meets, merge_regions, open_closed, strictly_ascending, tiles_connected, walled_at,
    walled_forest,
};

verus! {

/// What a tile is: its representative cell, its ID and its neighbors' IDs.
pub struct TileView {
    pub position: (usize, usize),
    pub id: usize,
    pub neighbors: Seq<usize>,
}

/// A region of the map under its final, dense ID.
pub struct Tile {
    position: (usize, usize),
    id: usize,
    neighbors: Vec<usize>,
}

impl View for Tile {
    type V = TileView;

    closed spec fn view(&self) -> TileView {
        TileView { position: self.position, id: self.id, neighbors: self.neighbors@ }
    }
}

impl Tile {
    /// The representative cell, as (column, row).
    pub fn position(&self) -> (r: (usize, usize))
        ensures
            r == self@.position,
    {
        self.position
    }

    /// The tile's ID, its index in the map's tile list.
    pub fn id(&self) -> (r: usize)
        ensures
            r == self@.id,
    {
        self.id
    }

    /// IDs of the tiles that share an edge with this one, ascending.
    pub fn neighbors(&self) -> (r: &Vec<usize>)
        ensures
            r@ == self@.neighbors,
    {
        &self.neighbors
    }
}

/// What a map is: its size, its wrap mode, the tile ID of each cell by rows,
/// and its tiles.
pub struct TileMapView {
    pub width: usize,
    pub height: usize,
    pub wrap: bool,
    pub cells: Seq<Seq<usize>>,
    pub tiles: Seq<TileView>,
}

impl TileMapView {
    /// `height` rows of `width` cells.
    pub open spec fn shaped(&self) -> bool {
        &&& self.cells.len() == self.height
        &&& forall|y: int| 0 <= y < self.height ==> (#[trigger] self.cells[y]).len() == self.width
    }

    /// Every cell holds the ID of a tile.
    pub open spec fn cells_in_range(&self) -> bool {
        forall|y: int, x: int|
            0 <= y < self.height && 0 <= x < self.width ==> #[trigger] self.cells[y][x] < self.tiles.len()
    }

    /// Tile `i` sits at index `i`.
    pub open spec fn ids_dense(&self) -> bool {
        forall|i: int| 0 <= i < self.tiles.len() ==> (#[trigger] self.tiles[i]).id == i
    }

    /// Each tile's representative cell lies on the board and belongs to it.
    pub open spec fn positions_inside(&self) -> bool {
        forall|i: int| 0 <= i < self.tiles.len() ==> {
            let (x, y) = (#[trigger] self.tiles[i]).position;
            &&& x < self.width
            &&& y < self.height
            &&& self.cells[y as int][x as int] == i
        }
    }

    /// Each neighbor list rises strictly, names tiles of the map, and leaves
    /// out the tile itself.
    pub open spec fn neighbors_canonical(&self) -> bool {
        forall|i: int| 0 <= i < self.tiles.len() ==> {
            let nb = (#[trigger] self.tiles[i]).neighbors;
            &&& strictly_ascending(nb)
            &&& forall|j: int| 0 <= j < nb.len() ==> #[trigger] nb[j] < self.tiles.len() && nb[j] != i
        }
    }
}

impl TileMapView {
    /// The tile ID of each cell in row-major order.
    pub open spec fn flat(&self) -> Seq<usize> {
        Seq::new(
            (self.width * self.height) as nat,
            |c: int| self.cells[row(self.width as int, c)][col(self.width as int, c)],
        )
    }

    /// Some cell of tile `i` shares an edge with some cell of tile `j`.
    pub open spec fn tiles_meet(&self, i: int, j: int) -> bool {
        meets(self.flat(), self.width as int, self.height as int, self.wrap, i, j)
    }

    /// Each tile lists as neighbors exactly the other tiles that share an
    /// edge with it.
    pub open spec fn neighbors_exact(&self) -> bool {
        forall|i: int, j: usize| 0 <= i < self.tiles.len() ==>
            (#[trigger] self.tiles[i].neighbors.contains(j) <==> (j != i && self.tiles_meet(i, j as int)))
    }
}

/// Adjacency between tiles is mutual: where tile `i` lists tile `j` as a
/// neighbor, tile `j` lists tile `i`.
pub proof fn lemma_neighbors_symmetric(m: TileMapView, i: usize, j: usize)
    requires
        0 < m.width,
        0 < m.height,
        m.neighbors_exact(),
        i < m.tiles.len(),
        j < m.tiles.len(),
        m.tiles[i as int].neighbors.contains(j),
    ensures
        m.tiles[j as int].neighbors.contains(i),
{
    let w = m.width as int;
    let h = m.height as int;
    let flat = m.flat();
    assert(m.tiles_meet(i as int, j as int));
    let (a, d) = choose|a: int, d: int|
        0 <= a < flat.len() && 0 <= d < 4 && flat[a] == i
            && (#[trigger] step(w, h, m.wrap, a, d)) is Some
            && flat[step(w, h, m.wrap, a, d)->0] == j;
    let b = step(w, h, m.wrap, a, d)->0;
    lemma_step_back(w, h, m.wrap, a, d);
    crate::grid::lemma_step_in_range(w, h, m.wrap, a, d);
    assert(step(w, h, m.wrap, b, opposite(d)) == Some(a));
    assert(0 <= opposite(d) < 4);
    assert(m.tiles_meet(j as int, i as int));
}

/// A generated board: cells grouped into tiles, and the tiles' adjacency.
pub struct TileMap {
    width: usize,
    height: usize,
    is_repeated: bool,
    map: Vec<Vec<usize>>,
    tiles: Vec<Tile>,
}

impl View for TileMap {
    type V = TileMapView;

    closed spec fn view(&self) -> TileMapView {
        TileMapView {
            width: self.width,
            height: self.height,
            wrap: self.is_repeated,
            cells: self.map@.map_values(|r: Vec<usize>| r@),
            tiles: self.tiles@.map_values(|t: Tile| t@),
        }
    }
}

/// Relies on rand's `thread_rng().gen_range(0..n)`: a value drawn uniformly
/// from `0..n`; it panics on an empty range.
#[verifier::external_body]
fn random_below(n: usize) -> (r: usize)
    requires
        n > 0,
    ensures
        r < n,
{
    rand::thread_rng().gen_range(0..n)
}

/// Lays a row-major vector of `width * height` labels out as rows.
fn to_rows(labels: &Vec<usize>, width: usize, height: usize) -> (r: Vec<Vec<usize>>)
    requires
        0 < width,
        0 < height,
        width * height <= usize::MAX,
        labels@.len() == width * height,
    ensures
        r@.len() == height,
        forall|y: int| 0 <= y < height ==> (#[trigger] r@[y])@.len() == width,
        forall|y: int, x: int| 0 <= y < height && 0 <= x < width ==>
            #[trigger] r@[y]@[x] == labels@[cell_at(width as int, x, y)],
{
    let mut rows: Vec<Vec<usize>> = Vec::new();
    let mut y: usize = 0;
    while y < height
        invariant
            0 < width,
            y <= height,
            width * height <= usize::MAX,
            labels@.len() == width * height,
            rows@.len() == y,
            forall|v: int| 0 <= v < y ==> (#[trigger] rows@[v])@.len() == width,
            forall|v: int, x: int| 0 <= v < y && 0 <= x < width ==>
                #[trigger] rows@[v]@[x] == labels@[cell_at(width as int, x, v)],
        decreases height - y,
    {
        let mut line: Vec<usize> = Vec::new();
        let mut x: usize = 0;
        while x < width
            invariant
                0 < width,
                y < height,
                x <= width,
                width * height <= usize::MAX,
                labels@.len() == width * height,
                line@.len() == x,
                forall|u: int| 0 <= u < x ==> #[trigger] line@[u] == labels@[cell_at(width as int, u, y as int)],
            decreases width - x,
        {
            proof {
                lemma_cell(width as int, height as int, x as int, y as int);
                assert(y * width <= y * width + x);
            }
            line.push(labels[y * width + x]);
            x = x + 1;
        }
        rows.push(line);
        y = y + 1;
    }
    rows
}

/// A copy of a list of IDs.
fn copy_ids(v: &Vec<usize>) -> (r: Vec<usize>)
    ensures
        r@ == v@,
{
    let mut r: Vec<usize> = Vec::new();
    let mut j: usize = 0;
    while j < v.len()
        invariant
            j <= v@.len(),
            r@ == v@.subrange(0, j as int),
        decreases v@.len() - j,
    {
        r.push(v[j]);
        j = j + 1;
        assert(r@ =~= v@.subrange(0, j as int));
    }
    assert(r@ =~= v@);
    r
}

impl TileMap {
    /// Builds the map from the cells' final tile IDs in row-major order, the
    /// cells of each tile, the neighbor IDs of each tile, and for each tile
    /// the index among its cells of the one that represents it.
    pub fn from_regions(
        width: usize,
        height: usize,
        is_repeated: bool,
        labels: &Vec<usize>,
        positions: &Vec<Vec<usize>>,
        neighbors: &Vec<Vec<usize>>,
        picks: &Vec<usize>,
    ) -> (r: TileMap)
        requires
            0 < width,
            0 < height,
            width * height <= usize::MAX,
            labels@.len() == width * height,
            neighbors@.len() == positions@.len(),
            picks@.len() == positions@.len(),
            forall|k: int| 0 <= k < positions@.len() ==> #[trigger] picks@[k] < positions@[k]@.len(),
            forall|k: int, j: int| 0 <= k < positions@.len() && 0 <= j < positions@[k]@.len() ==>
                #[trigger] positions@[k]@[j] < width * height,
        ensures
            r@.width == width,
            r@.height == height,
            r@.wrap == is_repeated,
            r@.shaped(),
            forall|y: int, x: int| 0 <= y < height && 0 <= x < width ==>
                #[trigger] r@.cells[y][x] == labels@[cell_at(width as int, x, y)],
            r@.tiles.len() == positions@.len(),
            forall|k: int| 0 <= k < positions@.len() ==> {
                let p = positions@[k]@[picks@[k] as int] as int;
                #[trigger] r@.tiles[k] == (TileView {
                    position: (col(width as int, p) as usize, row(width as int, p) as usize),
                    id: k as usize,
                    neighbors: neighbors@[k]@,
                })
            },
    {
        let map = to_rows(labels, width, height);
        let mut tiles: Vec<Tile> = Vec::new();
        let mut k: usize = 0;
        while k < positions.len()
            invariant
                0 < width,
                0 < height,
                width * height <= usize::MAX,
                k <= positions@.len(),
                neighbors@.len() == positions@.len(),
                picks@.len() == positions@.len(),
                forall|k: int| 0 <= k < positions@.len() ==> #[trigger] picks@[k] < positions@[k]@.len(),
                forall|k: int, j: int| 0 <= k < positions@.len() && 0 <= j < positions@[k]@.len() ==>
                    #[trigger] positions@[k]@[j] < width * height,
                tiles@.len() == k,
                forall|t: int| 0 <= t < k ==> {
                    let p = positions@[t]@[picks@[t] as int] as int;
                    #[trigger] tiles@[t]@ == (TileView {
                        position: (col(width as int, p) as usize, row(width as int, p) as usize),
                        id: t as usize,
                        neighbors: neighbors@[t]@,
                    })
                },
            decreases positions@.len() - k,
        {
            let p = positions[k][picks[k]];
            proof {
                lemma_split(width as int, height as int, p as int);
            }
            tiles.push(Tile { position: (p % width, p / width), id: k, neighbors: copy_ids(&neighbors[k]) });
            k = k + 1;
        }
        let r = TileMap { width, height, is_repeated, map, tiles };
        proof {
            assert forall|y: int| 0 <= y < height implies (#[trigger] r@.cells[y]).len() == width by {
                assert(r@.cells[y] == r.map@[y]@);
            }
            assert forall|y: int, x: int| 0 <= y < height && 0 <= x < width implies
                #[trigger] r@.cells[y][x] == labels@[cell_at(width as int, x, y)] by {
                assert(r@.cells[y] == r.map@[y]@);
            }
            assert forall|k: int| 0 <= k < positions@.len() implies {
                let p = positions@[k]@[picks@[k] as int] as int;
                #[trigger] r@.tiles[k] == (TileView {
                    position: (col(width as int, p) as usize, row(width as int, p) as usize),
                    id: k as usize,
                    neighbors: neighbors@[k]@,
                })
            } by {
                assert(r@.tiles[k] == r.tiles@[k]@);
            }
        }
        r
    }

    /// Generates a map over the given walls: regions that open edges join
    /// become tiles, numbered in the row-major order of their first cells,
    /// each represented by one of its cells drawn at random.
    pub fn from_walls(
        width: usize,
        height: usize,
        is_repeated: bool,
        vertical: &Vec<Vec<bool>>,
        horizontal: &Vec<Vec<bool>>,
    ) -> (r: TileMap)
        requires
            0 < width,
            0 < height,
            width * height <= usize::MAX,
            walls_shaped(width as int, height as int, is_repeated, walls_view(vertical), walls_view(horizontal)),
        ensures
            r@.width == width,
            r@.height == height,
            r@.wrap == is_repeated,
            r@.shaped(),
            1 <= r@.tiles.len() <= width * height,
            r@.cells_in_range(),
            r@.ids_dense(),
            r@.positions_inside(),
            r@.neighbors_canonical(),
            r@.neighbors_exact(),
            forall|c: int| 0 <= c < width * height ==> #[trigger] open_closed(
                r@.flat(),
                width as int,
                height as int,
                is_repeated,
                walls_view(vertical),
                walls_view(horizontal),
                c,
            ),
            forall|c: int| 0 <= c < width * height && #[trigger] r@.flat()[c] > 0 ==>
                exists|e: int| 0 <= e < c && #[trigger] r@.flat()[e] == r@.flat()[c] - 1,
            tiles_connected(
                r@.flat(),
                width as int,
                height as int,
                is_repeated,
                walls_view(vertical),
                walls_view(horizontal),
            ),
    {
        let (mut labels, count) = label_regions(width, height, is_repeated, vertical, horizontal);
        let ghost provisional = labels@;
        let (positions, neighbors) = merge_regions(&mut labels, count, width, height, is_repeated);
        let mut picks: Vec<usize> = Vec::new();
        let mut k: usize = 0;
        while k < count
            invariant
                k <= count,
                positions@.len() == count,
                forall|k: int| 0 <= k < count ==> (#[trigger] positions@[k])@.len() >= 1,
                picks@.len() == k,
                forall|t: int| 0 <= t < k ==> #[trigger] picks@[t] < positions@[t]@.len(),
            decreases count - k,
        {
            picks.push(random_below(positions[k].len()));
            k = k + 1;
        }
        let r = TileMap::from_regions(width, height, is_repeated, &labels, &positions, &neighbors, &picks);
        proof {
            assert forall|i: int| 0 <= i < r@.tiles.len() implies {
                let (x, y) = (#[trigger] r@.tiles[i]).position;
                &&& x < r@.width
                &&& y < r@.height
                &&& r@.cells[y as int][x as int] == i
            } by {
                let p = positions@[i]@[picks@[i] as int] as int;
                lemma_split(width as int, height as int, p);
            }
            assert(r@.ids_dense());
            assert forall|y: int, x: int| 0 <= y < r@.height && 0 <= x < r@.width implies
                #[trigger] r@.cells[y][x] < r@.tiles.len() by {
                lemma_cell(width as int, height as int, x, y);
            }
            assert forall|c: int| 0 <= c < labels@.len() implies #[trigger] r@.flat()[c] == labels@[c] by {
                lemma_split(width as int, height as int, c);
            }
            assert(r@.flat() =~= labels@);
            let w = width as int;
            let h = height as int;
            let vw = walls_view(vertical);
            let hw = walls_view(horizontal);
            assert forall|c: int| 0 <= c < width * height implies #[trigger] open_closed(
                r@.flat(), w, h, is_repeated, vw, hw, c) by {
                assert(open_closed(provisional, w, h, is_repeated, vw, hw, c));
                assert forall|d: int| 0 <= d < 4 implies (#[trigger] step(w, h, is_repeated, c, d) matches Some(b) ==>
                    (crate::grid::open_edge(w, h, vw, hw, c, d) ==> labels@[b] == labels@[c])) by {
                    crate::grid::lemma_step_in_range(w, h, is_repeated, c, d);
                }
            }
            assert forall|c: int| 0 <= c < width * height && #[trigger] r@.flat()[c] > 0 implies
                exists|e: int| 0 <= e < c && #[trigger] r@.flat()[e] == r@.flat()[c] - 1 by {
                assert(provisional[c] > 1);
                let e = choose|e: int| 0 <= e < c && #[trigger] provisional[e] == provisional[c] - 1;
                assert(labels@[e] == labels@[c] - 1);
            }
            let (par, rank, roots) = choose|par: Seq<int>, rank: Seq<int>, roots: Seq<int>|
                #[trigger] linked(provisional, par, rank, roots, 1, w, h, is_repeated)
                    && walled_forest(provisional, par, roots, w, h, is_repeated, vw, hw);
            assert(0 < w * h) by (nonlinear_arith)
                requires
                    0 < w,
                    0 < h,
            ;
            assert(linked_at(provisional, par, rank, roots, w, h, is_repeated, 0));
            let tile_roots = roots.subrange(1, roots.len() as int);
            assert forall|c: int| 0 <= c < labels@.len() && labels@[c] >= 0 implies
                #[trigger] linked_at(labels@, par, rank, tile_roots, w, h, is_repeated, c) by {
                assert(linked_at(provisional, par, rank, roots, w, h, is_repeated, c));
                assert(linked_at(provisional, par, rank, roots, w, h, is_repeated, par[c]));
            }
            assert forall|c: int| 0 <= c < labels@.len() implies
                #[trigger] walled_at(par, w, h, is_repeated, vw, hw, c) by {
                assert(provisional[c] != 0);
            }
            assert(linked(r@.flat(), par, rank, tile_roots, 0, w, h, is_repeated));
        }
        r
    }

    /// Width, height and whether the board wraps round.
    pub fn size(&self) -> (r: (usize, usize, bool))
        ensures
            r == (self@.width, self@.height, self@.wrap),
    {
        (self.width, self.height, self.is_repeated)
    }

    /// The tile ID of each cell, row by row.
    pub fn map(&self) -> (r: &Vec<Vec<usize>>)
        ensures
            r@.map_values(|v: Vec<usize>| v@) == self@.cells,
    {
        &self.map
    }

    /// The tiles, each at the index of its ID.
    pub fn tiles(&self) -> (r: &Vec<Tile>)
        ensures
            r@.map_values(|t: Tile| t@) == self@.tiles,
    {
        &self.tiles
    }
}

} // verus!
