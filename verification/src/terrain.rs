//! The terrain classification grid: one `TerrainType` per map cell, stored
//! row-major, with coast detection and passability queries.
//!
//! Heights come from a noise field outside this module; it receives the
//! per-cell classification made from them and finishes it by turning water
//! that touches land into coast.
use vstd::prelude::*;
use crate::types::{TerrainType, terrain_passable};

verus! {

/// Land is anything that is neither open water nor coast.
pub open spec fn is_land(t: TerrainType) -> bool {
    t != TerrainType::Water && t != TerrainType::Coast
}

/// Cell `(x, y)` lies on the `w` × `h` map and holds land.
pub open spec fn land_at(cells: Seq<TerrainType>, w: int, h: int, x: int, y: int) -> bool {
    0 <= x < w && 0 <= y < h && is_land(cells[y * w + x])
}

/// One of the four edge neighbours of `(x, y)` holds land.
pub open spec fn land_adjacent(cells: Seq<TerrainType>, w: int, h: int, x: int, y: int) -> bool {
    land_at(cells, w, h, x - 1, y) || land_at(cells, w, h, x + 1, y) || land_at(cells, w, h, x, y - 1)
        || land_at(cells, w, h, x, y + 1)
}

/// Classification of cell `(x, y)` after coast detection: water next to
/// land becomes coast, everything else keeps its class.
pub open spec fn coast_class(cells: Seq<TerrainType>, w: int, h: int, x: int, y: int) -> TerrainType {
    if cells[y * w + x] == TerrainType::Water && land_adjacent(cells, w, h, x, y) {
        TerrainType::Coast
    } else {
        cells[y * w + x]
    }
}

/// Coast detection, cell by cell: a water cell becomes coast exactly when
/// its left, right, upper or lower neighbour lies on the map and is neither
/// water nor coast; every other cell keeps its class.
pub proof fn lemma_coast_is_water_beside_land(cells: Seq<TerrainType>, w: int, h: int, x: int, y: int)
    requires
        0 <= x < w,
        0 <= y < h,
        cells.len() == w * h,
    ensures
        cells[y * w + x] == TerrainType::Water ==> ((coast_class(cells, w, h, x, y) == TerrainType::Coast) <==> (
        (x > 0 && cells[y * w + x - 1] != TerrainType::Water && cells[y * w + x - 1] != TerrainType::Coast) || (x
            + 1 < w && cells[y * w + x + 1] != TerrainType::Water && cells[y * w + x + 1] != TerrainType::Coast) || (y
            > 0 && cells[(y - 1) * w + x] != TerrainType::Water && cells[(y - 1) * w + x] != TerrainType::Coast) || (y
            + 1 < h && cells[(y + 1) * w + x] != TerrainType::Water && cells[(y + 1) * w + x] != TerrainType::Coast))),
        cells[y * w + x] != TerrainType::Water ==> coast_class(cells, w, h, x, y) == cells[y * w + x],
{
    assert(y * w + (x - 1) == y * w + x - 1);
    assert(y * w + (x + 1) == y * w + x + 1);
}

/// Mathematical value of a terrain grid.
pub ghost struct TerrainGridModel {
    pub width: nat,
    pub height: nat,
    pub cells: Seq<TerrainType>,
}

/// Row-major terrain classification of a `width` × `height` map.
#[derive(Debug, Clone)]
pub struct TerrainGrid {
    width: u32,
    height: u32,
    cells: Vec<TerrainType>,
}

impl View for TerrainGrid {
    type V = TerrainGridModel;

    closed spec fn view(&self) -> TerrainGridModel {
        TerrainGridModel { width: self.width as nat, height: self.height as nat, cells: self.cells@ }
    }
}

proof fn lemma_grid_index(x: int, y: int, w: int, h: int)
    by (nonlinear_arith)
    requires
        0 <= x < w,
        0 <= y < h,
    ensures
        0 <= y * w + x < w * h,
        (y + 1) * w + x == y * w + x + w,
        (y - 1) * w + x == y * w + x - w,
        y * w <= y * w + x,
        0 <= y * w,
{
}

/// Whether any 4-connected neighbour of `(x, y)` is land.
fn has_land_neighbour(map: &Vec<TerrainType>, x: usize, y: usize, w: usize, h: usize) -> (b: bool)
    requires
        map@.len() == w * h,
        x < w,
        y < h,
    ensures
        b == land_adjacent(map@, w as int, h as int, x as int, y as int),
{
    let n = map.len();
    proof {
        lemma_grid_index(x as int, y as int, w as int, h as int);
    }
    let idx = y * w + x;
    let mut found = false;
    if x > 0 {
        let t = map[idx - 1];
        if t != TerrainType::Water && t != TerrainType::Coast {
            found = true;
        }
    }
    if x + 1 < w {
        proof {
            lemma_grid_index((x + 1) as int, y as int, w as int, h as int);
        }
        let t = map[idx + 1];
        if t != TerrainType::Water && t != TerrainType::Coast {
            found = true;
        }
    }
    if y > 0 {
        let t = map[idx - w];
        if t != TerrainType::Water && t != TerrainType::Coast {
            found = true;
        }
    }
    if y + 1 < h {
        proof {
            lemma_grid_index(x as int, (y + 1) as int, w as int, h as int);
        }
        let t = map[idx + w];
        if t != TerrainType::Water && t != TerrainType::Coast {
            found = true;
        }
    }
    found
}

impl TerrainGrid {
    /// The grid's internal invariant: exactly one class per cell.
    pub closed spec fn wf(&self) -> bool {
        self.cells@.len() == self.width as nat * self.height as nat
    }

    /// Build a grid from a first-pass classification (which never marks
    /// coast), then mark every water cell with a land neighbour as coast.
    pub fn from_classes(width: u32, height: u32, classes: Vec<TerrainType>) -> (g: Self)
        requires
            classes@.len() == width as nat * height as nat,
        ensures
            g.wf(),
            g@.width == width,
            g@.height == height,
            forall|x: int, y: int|
                0 <= x < width && 0 <= y < height ==> #[trigger] g@.cells[y * width + x] == coast_class(
                    classes@,
                    width as int,
                    height as int,
                    x,
                    y,
                ),
            forall|x: int, y: int|
                0 <= x < width && 0 <= y < height ==> (#[trigger] g@.cells[y * width + x] == if classes@[y * width + x]
                    == TerrainType::Water && ((x > 0 && classes@[y * width + x - 1] != TerrainType::Water
                    && classes@[y * width + x - 1] != TerrainType::Coast) || (x + 1 < width && classes@[y * width + x
                    + 1] != TerrainType::Water && classes@[y * width + x + 1] != TerrainType::Coast) || (y > 0
                    && classes@[(y - 1) * width + x] != TerrainType::Water && classes@[(y - 1) * width + x]
                    != TerrainType::Coast) || (y + 1 < height && classes@[(y + 1) * width + x] != TerrainType::Water
                    && classes@[(y + 1) * width + x] != TerrainType::Coast)) {
                    TerrainType::Coast
                } else {
                    classes@[y * width + x]
                }),
    {
        let n = classes.len();
        let w = width as usize;
        let h = height as usize;
        let ghost wi = w as int;
        let ghost hi = h as int;
        let mut out: Vec<TerrainType> = Vec::new();
        let mut y: usize = 0;
        while y < h
            invariant
                w == width,
                h == height,
                wi == w,
                hi == h,
                classes@.len() == wi * hi,
                n == classes@.len(),
                y <= h,
                out@.len() == y * wi,
                forall|xx: int, yy: int|
                    0 <= xx < wi && 0 <= yy < y ==> #[trigger] out@[yy * wi + xx] == coast_class(
                        classes@,
                        wi,
                        hi,
                        xx,
                        yy,
                    ),
            decreases h - y,
        {
            let mut x: usize = 0;
            while x < w
                invariant
                    w == width,
                    h == height,
                    wi == w,
                    hi == h,
                    classes@.len() == wi * hi,
                    n == classes@.len(),
                    y < h,
                    x <= w,
                    out@.len() == y * wi + x,
                    forall|xx: int, yy: int|
                        (0 <= xx < wi && 0 <= yy < y) || (0 <= xx < x && yy == y) ==> #[trigger] out@[yy * wi
                            + xx] == coast_class(classes@, wi, hi, xx, yy),
                decreases w - x,
            {
                proof {
                    lemma_grid_index(x as int, y as int, wi, hi);
                }
                let idx = y * w + x;
                let t = classes[idx];
                let class = if t == TerrainType::Water && has_land_neighbour(&classes, x, y, w, h) {
                    TerrainType::Coast
                } else {
                    t
                };
                let ghost before = out@;
                out.push(class);
                proof {
                    assert forall|xx: int, yy: int|
                        (0 <= xx < wi && 0 <= yy < y) || (0 <= xx < x + 1 && yy == y) implies #[trigger] out@[yy
                            * wi + xx] == coast_class(classes@, wi, hi, xx, yy) by {
                        if yy == y && xx == x {
                        } else {
                            if yy < y {
                                lemma_grid_index(xx, yy, wi, y as int);
                            }
                            assert(out@[yy * wi + xx] == before[yy * wi + xx]);
                        }
                    }
                }
                x += 1;
            }
            proof {
                assert((y + 1) * wi == y * wi + wi) by (nonlinear_arith);
            }
            y += 1;
        }
        assert(out@.len() == width as nat * height as nat) by (nonlinear_arith)
            requires
                out@.len() == y * wi,
                y == hi,
                wi == width,
                hi == height,
        ;
        proof {
            assert forall|xx: int, yy: int| 0 <= xx < width && 0 <= yy < height implies (#[trigger] out@[yy * width + xx]
                == if classes@[yy * width + xx] == TerrainType::Water && ((xx > 0 && classes@[yy * width + xx - 1]
                != TerrainType::Water && classes@[yy * width + xx - 1] != TerrainType::Coast) || (xx + 1 < width
                && classes@[yy * width + xx + 1] != TerrainType::Water && classes@[yy * width + xx + 1]
                != TerrainType::Coast) || (yy > 0 && classes@[(yy - 1) * width + xx] != TerrainType::Water
                && classes@[(yy - 1) * width + xx] != TerrainType::Coast) || (yy + 1 < height && classes@[(yy + 1)
                * width + xx] != TerrainType::Water && classes@[(yy + 1) * width + xx] != TerrainType::Coast)) {
                TerrainType::Coast
            } else {
                classes@[yy * width + xx]
            }) by {
                lemma_coast_is_water_beside_land(classes@, wi, hi, xx, yy);
            }
        }
        TerrainGrid { width, height, cells: out }
    }

    fn idx(&self, x: u32, y: u32) -> (i: usize)
        requires
            self.wf(),
            x < self.width,
            y < self.height,
        ensures
            i == y * self.width + x,
            i < self.cells@.len(),
    {
        let n = self.cells.len();
        proof {
            lemma_grid_index(x as int, y as int, self.width as int, self.height as int);
        }
        y as usize * self.width as usize + x as usize
    }

    /// Terrain type of the cell at `(x, y)`.
    pub fn terrain_at(&self, x: u32, y: u32) -> (t: TerrainType)
        requires
            self.wf(),
            x < self@.width,
            y < self@.height,
        ensures
            t == self@.cells[y * self@.width + x],
    {
        self.cells[self.idx(x, y)]
    }

    /// Whether the cell at `(x, y)` can be traversed on foot.
    pub fn is_passable(&self, x: u32, y: u32) -> (b: bool)
        requires
            self.wf(),
            x < self@.width,
            y < self@.height,
        ensures
            b == terrain_passable(self@.cells[y * self@.width + x]),
    {
        self.terrain_at(x, y).is_passable()
    }

    /// Whether the cell at `(x, y)` is a coast cell.
    pub fn is_coastal(&self, x: u32, y: u32) -> (b: bool)
        requires
            self.wf(),
            x < self@.width,
            y < self@.height,
        ensures
            b == (self@.cells[y * self@.width + x] == TerrainType::Coast),
    {
        self.terrain_at(x, y) == TerrainType::Coast
    }

    /// Map width in cells.
    pub fn width(&self) -> (w: u32)
        ensures
            w == self@.width,
    {
        self.width
    }

    /// Map height in cells.
    pub fn height(&self) -> (h: u32)
        ensures
            h == self@.height,
    {
        self.height
    }

    /// Override the terrain type of one cell (terrain painting).
    pub fn set_terrain_at(&mut self, x: u32, y: u32, terrain: TerrainType)
        requires
            old(self).wf(),
            x < old(self)@.width,
            y < old(self)@.height,
        ensures
            final(self).wf(),
            final(self)@.width == old(self)@.width,
            final(self)@.height == old(self)@.height,
            final(self)@.cells == old(self)@.cells.update(y * old(self)@.width + x, terrain),
    {
        let i = self.idx(x, y);
        self.cells.set(i, terrain);
    }
}

/// Coast detection only ever turns water into coast: land cells keep their
/// class, and a cell becomes coast exactly when it is water next to land
/// (or already was coast).
pub proof fn lemma_coast_only_from_water(cells: Seq<TerrainType>, w: int, h: int, x: int, y: int)
    ensures
        is_land(cells[y * w + x]) ==> coast_class(cells, w, h, x, y) == cells[y * w + x],
        coast_class(cells, w, h, x, y) == TerrainType::Coast <==> (cells[y * w + x] == TerrainType::Coast || (
        cells[y * w + x] == TerrainType::Water && land_adjacent(cells, w, h, x, y))),
        terrain_passable(coast_class(cells, w, h, x, y)) <==> (terrain_passable(cells[y * w + x])
            || coast_class(cells, w, h, x, y) == TerrainType::Coast),
{
}

} // verus!
