//! The voxel grid: a dense block of tiles in one flat array.

use vstd::prelude::*;

verus! {

/// A tile identifier. Zero is air, anything else is solid.
pub type Tile = u8;

/// The mathematical content of a grid: its dimensions and its tiles in
/// storage order.
pub struct Grid {
    pub size_x: nat,
    pub size_y: nat,
    pub size_z: nat,
    pub tiles: Seq<Tile>,
}

impl Grid {
    /// There is exactly one stored tile per coordinate triple, and both a
    /// layer of the grid and the whole of it can be indexed by a machine
    /// word.
    pub open spec fn wf(self) -> bool {
        &&& self.tiles.len() == self.size_x * self.size_y * self.size_z
        &&& self.size_x * self.size_y * self.size_z <= usize::MAX
        &&& self.size_x * self.size_y <= usize::MAX
    }

    /// Whether `(x, y, z)` names a cell of the grid.
    pub open spec fn in_bounds(self, x: int, y: int, z: int) -> bool {
        &&& 0 <= x < self.size_x
        &&& 0 <= y < self.size_y
        &&& 0 <= z < self.size_z
    }

    /// Storage index of a cell: z-major, then y, then x.
    pub open spec fn offset_of(self, x: int, y: int, z: int) -> int {
        self.size_x * self.size_y * z + self.size_x * y + x
    }

    /// The tile at `(x, y, z)`, or `None` outside the grid.
    pub open spec fn get(self, x: int, y: int, z: int) -> Option<Tile> {
        if self.in_bounds(x, y, z) {
            Some(self.tiles[self.offset_of(x, y, z)])
        } else {
            None
        }
    }

    /// The grid with the tile at `(x, y, z)` replaced by `tile`.
    pub open spec fn set(self, x: int, y: int, z: int, tile: Tile) -> Grid {
        Grid { tiles: self.tiles.update(self.offset_of(x, y, z), tile), ..self }
    }

    /// The all-air grid of the given dimensions.
    pub open spec fn empty(size_x: nat, size_y: nat, size_z: nat) -> Grid {
        Grid {
            size_x,
            size_y,
            size_z,
            tiles: Seq::new(size_x * size_y * size_z, |i: int| 0u8),
        }
    }

    /// Whether the cell at `(x, y, z)` exists and holds a solid tile.
    pub open spec fn solid(self, x: int, y: int, z: int) -> bool {
        self.get(x, y, z) matches Some(tile) && tile != 0
    }

    /// Every cell of the grid has a storage slot of its own inside the tile
    /// array.
    pub proof fn lemma_offset_in_range(self, x: int, y: int, z: int)
        requires
            self.in_bounds(x, y, z),
        ensures
            0 <= self.offset_of(x, y, z) < self.size_x * self.size_y * self.size_z,
            self.size_x * self.size_y * z >= 0,
            self.size_x * y >= 0,
    {
        let sx = self.size_x as int;
        let sy = self.size_y as int;
        let sz = self.size_z as int;
        assert(sx * y + x < sx * sy) by (nonlinear_arith)
            requires
                0 <= x < sx,
                0 <= y < sy,
        ;
        assert(sx * y >= 0) by (nonlinear_arith)
            requires
                0 <= sx,
                0 <= y,
        ;
        assert(sx * sy * z >= 0 && sx * sy * z + sx * sy <= sx * sy * sz) by (nonlinear_arith)
            requires
                0 <= z < sz,
                0 <= sx,
                0 <= sy,
        ;
    }

    /// Two cells of the grid that share a storage slot are the same cell.
    pub proof fn lemma_offset_injective(self, x1: int, y1: int, z1: int, x2: int, y2: int, z2: int)
        requires
            self.in_bounds(x1, y1, z1),
            self.in_bounds(x2, y2, z2),
            self.offset_of(x1, y1, z1) == self.offset_of(x2, y2, z2),
        ensures
            x1 == x2,
            y1 == y2,
            z1 == z2,
    {
        let sx = self.size_x as int;
        let sy = self.size_y as int;
        let r1 = sx * y1 + x1;
        let r2 = sx * y2 + x2;
        assert(0 <= r1 < sx * sy && 0 <= r2 < sx * sy) by (nonlinear_arith)
            requires
                0 <= x1 < sx,
                0 <= y1 < sy,
                0 <= x2 < sx,
                0 <= y2 < sy,
                r1 == sx * y1 + x1,
                r2 == sx * y2 + x2,
        ;
        assert(z1 == z2) by (nonlinear_arith)
            requires
                sx * sy * z1 + r1 == sx * sy * z2 + r2,
                0 <= r1 < sx * sy,
                0 <= r2 < sx * sy,
        ;
        assert(y1 == y2) by (nonlinear_arith)
            requires
                sx * y1 + x1 == sx * y2 + x2,
                0 <= x1 < sx,
                0 <= x2 < sx,
        ;
    }

    /// Every storage slot belongs to a cell of the grid.
    pub proof fn lemma_offset_onto(self, slot: int) -> (cell: (int, int, int))
        requires
            0 <= slot < self.size_x * self.size_y * self.size_z,
        ensures
            self.in_bounds(cell.0, cell.1, cell.2),
            self.offset_of(cell.0, cell.1, cell.2) == slot,
    {
        let sx = self.size_x as int;
        let sy = self.size_y as int;
        let sz = self.size_z as int;
        assert(sx > 0 && sy > 0) by (nonlinear_arith)
            requires
                0 <= slot < sx * sy * sz,
                0 <= sx,
                0 <= sy,
        ;
        let layer = sx * sy;
        assert(layer > 0) by (nonlinear_arith)
            requires
                layer == sx * sy,
                sx > 0,
                sy > 0,
        ;
        let z = slot / layer;
        let rest = slot % layer;
        let y = rest / sx;
        let x = rest % sx;
        assert(slot == layer * z + rest && 0 <= rest < layer && 0 <= z) by (nonlinear_arith)
            requires
                layer > 0,
                slot >= 0,
                z == slot / layer,
                rest == slot % layer,
        ;
        assert(z < sz) by (nonlinear_arith)
            requires
                slot == layer * z + rest,
                0 <= rest,
                slot < layer * sz,
                layer > 0,
        ;
        assert(rest == sx * y + x && 0 <= x < sx && 0 <= y) by (nonlinear_arith)
            requires
                sx > 0,
                rest >= 0,
                y == rest / sx,
                x == rest % sx,
        ;
        assert(y < sy) by (nonlinear_arith)
            requires
                rest == sx * y + x,
                0 <= x,
                rest < sx * sy,
                sx > 0,
        ;
        (x, y, z)
    }

    /// Reading back the cell that was just written gives the written tile.
    pub proof fn lemma_get_set_same(self, x: int, y: int, z: int, tile: Tile)
        requires
            self.wf(),
            self.in_bounds(x, y, z),
        ensures
            self.set(x, y, z, tile).wf(),
            self.set(x, y, z, tile).get(x, y, z) == Some(tile),
    {
        self.lemma_offset_in_range(x, y, z);
    }

    /// Writing one cell leaves every other coordinate triple as it was.
    pub proof fn lemma_get_set_other(self, x: int, y: int, z: int, tile: Tile, u: int, v: int, w: int)
        requires
            self.wf(),
            self.in_bounds(x, y, z),
            (u, v, w) != (x, y, z),
        ensures
            self.set(x, y, z, tile).get(u, v, w) == self.get(u, v, w),
    {
        self.lemma_offset_in_range(x, y, z);
        if self.in_bounds(u, v, w) {
            self.lemma_offset_in_range(u, v, w);
            if self.offset_of(u, v, w) == self.offset_of(x, y, z) {
                self.lemma_offset_injective(u, v, w, x, y, z);
            }
        }
    }

    /// Reading any coordinate triple after a write: the written cell gives
    /// the written tile, every other triple what it gave before.
    pub proof fn lemma_get_after_set(self, x: int, y: int, z: int, tile: Tile, u: int, v: int, w: int)
        requires
            self.wf(),
            self.in_bounds(x, y, z),
        ensures
            self.set(x, y, z, tile).get(u, v, w) == if (u, v, w) == (x, y, z) {
                Some(tile)
            } else {
                self.get(u, v, w)
            },
    {
        if (u, v, w) == (x, y, z) {
            self.lemma_get_set_same(x, y, z, tile);
        } else {
            self.lemma_get_set_other(x, y, z, tile, u, v, w);
        }
    }

    /// Outside the grid there is no tile to read.
    pub proof fn lemma_get_out_of_bounds(self, x: int, y: int, z: int)
        requires
            !self.in_bounds(x, y, z),
        ensures
            self.get(x, y, z) is None,
            !self.solid(x, y, z),
    {
    }
}

/// A fixed-size voxel grid.
pub struct World {
    size: (usize, usize, usize),
    tiles: Vec<Tile>,
}

impl View for World {
    type V = Grid;

    closed spec fn view(&self) -> Grid {
        Grid {
            size_x: self.size.0 as nat,
            size_y: self.size.1 as nat,
            size_z: self.size.2 as nat,
            tiles: self.tiles@,
        }
    }
}

impl World {
    #[verifier::type_invariant]
    spec fn inv(self) -> bool {
        &&& self.size.0 * self.size.1 <= usize::MAX
        &&& self.tiles.len() == self.size.0 * self.size.1 * self.size.2
    }

    /// A grid of the given dimensions with every tile air.
    pub fn new(size_x: usize, size_y: usize, size_z: usize) -> (world: World)
        requires
            size_x * size_y <= usize::MAX,
            size_x * size_y * size_z <= usize::MAX,
        ensures
            world@ == Grid::empty(size_x as nat, size_y as nat, size_z as nat),
            world@.wf(),
    {
        let mut tiles: Vec<Tile> = Vec::new();
        tiles.resize(size_x * size_y * size_z, 0);
        assert(tiles@ =~= Seq::new((size_x * size_y * size_z) as nat, |i: int| 0u8));
        World { size: (size_x, size_y, size_z), tiles }
    }

    /// Whether `(x, y, z)` names a cell of the grid.
    pub fn in_bounds(&self, x: usize, y: usize, z: usize) -> (inside: bool)
        ensures
            inside == self@.in_bounds(x as int, y as int, z as int),
            inside ==> self@.offset_of(x as int, y as int, z as int) < self@.tiles.len(),
            self@.wf(),
    {
        proof {
            use_type_invariant(self);
            if self@.in_bounds(x as int, y as int, z as int) {
                self@.lemma_offset_in_range(x as int, y as int, z as int);
            }
        }
        x < self.size.0 && y < self.size.1 && z < self.size.2
    }

    /// Writes `tile` into the cell at `(x, y, z)`.
    pub fn set(&mut self, x: usize, y: usize, z: usize, tile: Tile)
        requires
            old(self)@.in_bounds(x as int, y as int, z as int),
        ensures
            final(self)@ == old(self)@.set(x as int, y as int, z as int, tile),
            final(self)@.get(x as int, y as int, z as int) == Some(tile),
            final(self)@.wf(),
    {
        proof {
            use_type_invariant(&*self);
            self@.lemma_offset_in_range(x as int, y as int, z as int);
            assert(self@.tiles.len() == self.tiles.len());
        }
        let index = self.offset_of(x, y, z);
        self.tiles[index] = tile;
    }

    /// The tile at `(x, y, z)`, or `None` outside the grid.
    pub fn get(&self, x: usize, y: usize, z: usize) -> (tile: Option<Tile>)
        ensures
            tile == self@.get(x as int, y as int, z as int),
            self@.wf(),
    {
        if !self.in_bounds(x, y, z) {
            return None;
        }
        proof {
            use_type_invariant(self);
            self@.lemma_offset_in_range(x as int, y as int, z as int);
            assert(self@.tiles.len() == self.tiles.len());
        }
        let index = self.offset_of(x, y, z);
        Some(self.tiles[index])
    }

    /// Extent of the grid along x.
    pub fn size_x(&self) -> (n: usize)
        ensures
            n == self@.size_x,
            self@.wf(),
    {
        proof {
            use_type_invariant(self);
        }
        self.size.0
    }

    /// Extent of the grid along y.
    pub fn size_y(&self) -> (n: usize)
        ensures
            n == self@.size_y,
            self@.wf(),
    {
        proof {
            use_type_invariant(self);
        }
        self.size.1
    }

    /// Extent of the grid along z.
    pub fn size_z(&self) -> (n: usize)
        ensures
            n == self@.size_z,
            self@.wf(),
    {
        proof {
            use_type_invariant(self);
        }
        self.size.2
    }

    /// Storage index that the layout gives `(x, y, z)`: z-major, then y, then
    /// x. For a cell of the grid it is the slot that holds the cell's tile.
    pub fn offset_of(&self, x: usize, y: usize, z: usize) -> (index: usize)
        requires
            self@.offset_of(x as int, y as int, z as int) <= usize::MAX,
        ensures
            index == self@.offset_of(x as int, y as int, z as int),
            self@.in_bounds(x as int, y as int, z as int) ==> index < self@.tiles.len(),
            self@.wf(),
    {
        proof {
            use_type_invariant(self);
            let sx = self.size.0 as int;
            let sy = self.size.1 as int;
            assert(sx * sy * z >= 0 && sx * y >= 0 && sx * sy >= 0) by (nonlinear_arith)
                requires
                    0 <= sx,
                    0 <= sy,
                    0 <= y,
                    0 <= z,
            ;
            assert(self@.offset_of(x as int, y as int, z as int) == sx * sy * z + sx * y + x);
            if self@.in_bounds(x as int, y as int, z as int) {
                self@.lemma_offset_in_range(x as int, y as int, z as int);
            }
        }
        let layer = self.size.0 * self.size.1;
        (layer * z) + (self.size.0 * y) + x
    }
}

} // verus!
