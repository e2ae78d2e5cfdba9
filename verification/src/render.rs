//! Painting ray hits into a framebuffer.

use vstd::prelude::*;
use crate::pixels::{Colour, Frame, Pixels};
use crate::crossing::Origin;
use crate::ray::{Int3, RaycastResult};
use crate::world::World;

verus! {

/// Brightness of one colour channel for one component of a normal: the
/// component scaled by 255 and held to the range of a byte. A component of
/// one or more is fully bright; zero and everything below it is dark.
pub open spec fn spec_level(component: int) -> u8 {
    if component >= 1 {
        255
    } else {
        0
    }
}

/// The colour that shows a face normal, one channel per axis.
pub open spec fn spec_shade(normal: Int3) -> Colour {
    (spec_level(normal.x as int), spec_level(normal.y as int), spec_level(normal.z as int))
}

/// The brightness of a channel is the component times 255, held to the
/// range of a byte.
pub proof fn lemma_level_is_scaled(component: int)
    ensures
        spec_level(component) as int == if 255 * component < 0 {
            0
        } else if 255 * component > 255 {
            255
        } else {
            255 * component
        },
{
}

/// The brightness of one colour channel for one component of a normal.
#[verifier::when_used_as_spec(spec_level_of)]
pub fn level(component: i32) -> (brightness: u8)
    ensures
        brightness == spec_level(component as int),
{
    if component >= 1 {
        255
    } else {
        0
    }
}

/// `spec_level` on machine integers.
pub open spec fn spec_level_of(component: i32) -> u8 {
    spec_level(component as int)
}

/// The colour that shows a face normal, one channel per axis.
#[verifier::when_used_as_spec(spec_shade)]
pub fn shade(normal: Int3) -> (colour: Colour)
    ensures
        colour == spec_shade(normal),
{
    (level(normal.x), level(normal.y), level(normal.z))
}

/// The frame after the pixel at `(x, y)` has been painted from the outcome of
/// its ray: a hit shows the shade of its normal, a miss changes nothing.
pub open spec fn painted(frame: Frame, x: int, y: int, hit: Option<RaycastResult>) -> Frame {
    match hit {
        Some(result) => frame.draw_pixel(x, y, spec_shade(result.normal)),
        None => frame,
    }
}

/// Paints the pixel at `position` from the outcome of its ray: a hit shows
/// the shade of its normal, a miss leaves the pixel as it is.
pub fn paint(pixels: &mut Pixels, position: (usize, usize), hit: Option<RaycastResult>)
    requires
        old(pixels)@.holds(position.0 as int, position.1 as int),
    ensures
        final(pixels)@ == painted(old(pixels)@, position.0 as int, position.1 as int, hit),
{
    if let Some(result) = hit {
        pixels.draw_pixel(position, shade(result.normal));
    }
}

/// The colour of the pixel at `(x, y)` once its ray has been cast: the shade
/// of the hit's normal, or the colour it had before on a miss.
pub open spec fn rendered_pixel(before: Frame, x: int, y: int, hit: Option<RaycastResult>) -> Colour {
    match hit {
        Some(result) => spec_shade(result.normal),
        None => before.pixel(x, y),
    }
}

/// Renders the world into the framebuffer, one ray per pixel, all from
/// `origin`: `directions` holds the directions row after row, that of the
/// pixel at column `x` of row `y` at index `y * width + x`. Each ray is cast
/// for at most `max_steps` steps; where it hits, its pixel takes the shade of
/// the hit's normal, and where it misses the pixel keeps its colour. No pixel
/// depends on any ray but its own.
pub fn render_world(
    world: &World,
    origin: Origin,
    directions: &Vec<Int3>,
    max_steps: usize,
    pixels: &mut Pixels,
)
    requires
        directions.len() == old(pixels)@.width * old(pixels)@.height,
    ensures
        final(pixels)@.wf(),
        final(pixels)@.width == old(pixels)@.width,
        final(pixels)@.height == old(pixels)@.height,
        forall|x: int, y: int|
            0 <= x < old(pixels)@.width && 0 <= y < old(pixels)@.height
                ==> #[trigger] final(pixels)@.pixel(x, y) == rendered_pixel(
                old(pixels)@,
                x,
                y,
                world@.raycast(origin, directions[y * old(pixels)@.width + x], max_steps as nat),
            ),
{
    let width = pixels.width();
    let height = pixels.height();
    let ghost before = pixels@;
    let mut y: usize = 0;
    while y < height
        invariant
            y <= height,
            before == old(pixels)@,
            before.wf(),
            pixels@.wf(),
            pixels@.width == width == before.width,
            pixels@.height == height == before.height,
            directions.len() == width * height,
            forall|u: int, v: int|
                0 <= u < width && 0 <= v < height ==> #[trigger] pixels@.pixel(u, v) == if v < y {
                    rendered_pixel(
                        before,
                        u,
                        v,
                        world@.raycast(origin, directions[v * width + u], max_steps as nat),
                    )
                } else {
                    before.pixel(u, v)
                },
        decreases height - y,
    {
        let mut x: usize = 0;
        while x < width
            invariant
                x <= width,
                y < height,
                before.wf(),
                pixels@.wf(),
                pixels@.width == width == before.width,
                pixels@.height == height == before.height,
                directions.len() == width * height,
                forall|u: int, v: int|
                    0 <= u < width && 0 <= v < height ==> #[trigger] pixels@.pixel(u, v) == if v < y
                        || (v == y && u < x) {
                        rendered_pixel(
                            before,
                            u,
                            v,
                            world@.raycast(origin, directions[v * width + u], max_steps as nat),
                        )
                    } else {
                        before.pixel(u, v)
                    },
            decreases width - x,
        {
            proof {
                before.lemma_inside_holds(x as int, y as int);
            }
            let ghost frame = pixels@;
            let hit = world.raycast(origin, directions[y * width + x], max_steps);
            paint(pixels, (x, y), hit);
            proof {
                frame.lemma_inside_holds(x as int, y as int);
                if hit is Some {
                    frame.lemma_draw_pixel_same(x as int, y as int, spec_shade(hit->0.normal));
                }
                assert forall|u: int, v: int| 0 <= u < width && 0 <= v < height implies #[trigger] pixels@.pixel(
                    u,
                    v,
                ) == if v < y || (v == y && u < x + 1) {
                    rendered_pixel(
                        before,
                        u,
                        v,
                        world@.raycast(origin, directions[v * width + u], max_steps as nat),
                    )
                } else {
                    before.pixel(u, v)
                } by {
                    frame.lemma_inside_holds(u, v);
                    if !(u == x && v == y) {
                        frame.lemma_inside_apart(x as int, y as int, u, v);
                        if hit is Some {
                            frame.lemma_draw_pixel_other(
                                x as int,
                                y as int,
                                spec_shade(hit->0.normal),
                                u,
                                v,
                            );
                        }
                    }
                }
            }
            x = x + 1;
        }
        y = y + 1;
    }
}

} // verus!
