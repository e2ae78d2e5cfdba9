//! The world that play starts in.

use vstd::prelude::*;
use crate::world::{Tile, World};

verus! {

/// Cells along each axis of the starting world.
pub const SCENE_SIZE: usize = 16;

/// The tile that marks the corners of the starting world's cube.
pub const MARKER: Tile = 1;

/// Whether `(x, y, z)` is a corner of the cube that spans the cells from 0
/// to 3 on every axis.
pub open spec fn is_corner(x: int, y: int, z: int) -> bool {
    (x == 0 || x == 3) && (y == 0 || y == 3) && (z == 0 || z == 3)
}

/// The tile that the starting world holds at `(x, y, z)`.
pub open spec fn scene_tile(x: int, y: int, z: int) -> Tile {
    if is_corner(x, y, z) {
        MARKER
    } else {
        0
    }
}

/// Builds the starting world: sixteen cells along each axis, all air but for
/// a marker tile on each of the eight corners of the cube that spans the cells
/// from 0 to 3 on every axis.
pub fn starting_world() -> (world: World)
    ensures
        world@.wf(),
        world@.size_x == SCENE_SIZE,
        world@.size_y == SCENE_SIZE,
        world@.size_z == SCENE_SIZE,
        forall|x: int, y: int, z: int|
            world@.in_bounds(x, y, z) ==> #[trigger] world@.get(x, y, z) == Some(
                scene_tile(x, y, z),
            ),
{
    let mut world = World::new(SCENE_SIZE, SCENE_SIZE, SCENE_SIZE);
    let ghost g0 = world@;
    world.set(0, 0, 0, MARKER);
    let ghost g1 = world@;
    world.set(0, 3, 0, MARKER);
    let ghost g2 = world@;
    world.set(3, 0, 0, MARKER);
    let ghost g3 = world@;
    world.set(3, 3, 0, MARKER);
    let ghost g4 = world@;
    world.set(0, 0, 3, MARKER);
    let ghost g5 = world@;
    world.set(0, 3, 3, MARKER);
    let ghost g6 = world@;
    world.set(3, 0, 3, MARKER);
    let ghost g7 = world@;
    world.set(3, 3, 3, MARKER);
    proof {
        assert forall|x: int, y: int, z: int| world@.in_bounds(x, y, z) implies #[trigger] world@.get(
            x,
            y,
            z,
        ) == Some(scene_tile(x, y, z)) by {
            g0.lemma_get_after_set(0, 0, 0, MARKER, x, y, z);
            g1.lemma_get_after_set(0, 3, 0, MARKER, x, y, z);
            g2.lemma_get_after_set(3, 0, 0, MARKER, x, y, z);
            g3.lemma_get_after_set(3, 3, 0, MARKER, x, y, z);
            g4.lemma_get_after_set(0, 0, 3, MARKER, x, y, z);
            g5.lemma_get_after_set(0, 3, 3, MARKER, x, y, z);
            g6.lemma_get_after_set(3, 0, 3, MARKER, x, y, z);
            g7.lemma_get_after_set(3, 3, 3, MARKER, x, y, z);
        }
    }
    world
}

} // verus!
