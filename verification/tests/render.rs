use voxel_world::pixels::Pixels;
use voxel_world::crossing::Origin;
use voxel_world::ray::{Int3, RaycastResult};
use voxel_world::render::{level, paint, render_world, shade};
use voxel_world::world::World;

fn pixel(pixels: &Pixels, x: usize, y: usize) -> (u8, u8, u8) {
    let at = pixels.offset_of(x, y);
    let bytes = pixels.as_bytes();
    (bytes[at], bytes[at + 1], bytes[at + 2])
}

#[test]
fn shade_scales_each_component_by_255_into_a_byte() {
    assert_eq!(level(-1), 0);
    assert_eq!(level(0), 0);
    assert_eq!(level(1), 255);
    assert_eq!(level(2), 255);
    assert_eq!(level(i32::MIN), 0);
    assert_eq!(level(i32::MAX), 255);
    assert_eq!(shade(Int3 { x: 1, y: 1, z: 1 }), (255, 255, 255));
    assert_eq!(shade(Int3 { x: 1, y: 0, z: 0 }), (255, 0, 0));
    assert_eq!(shade(Int3 { x: 0, y: 1, z: 0 }), (0, 255, 0));
    assert_eq!(shade(Int3 { x: 0, y: 0, z: 1 }), (0, 0, 255));
    assert_eq!(shade(Int3 { x: -1, y: 0, z: 0 }), (0, 0, 0));
    assert_eq!(shade(Int3 { x: 0, y: -1, z: 0 }), (0, 0, 0));
    assert_eq!(shade(Int3 { x: 0, y: 0, z: -1 }), (0, 0, 0));
    assert_eq!(shade(Int3 { x: 0, y: 0, z: 0 }), (0, 0, 0));
}

#[test]
fn paint_writes_on_a_hit_and_not_on_a_miss() {
    let mut pixels = Pixels::new(2, 2);
    pixels.fill((9, 9, 9));
    paint(&mut pixels, (1, 0), None);
    assert!(pixels.as_bytes().iter().all(|&byte| byte == 9));
    paint(&mut pixels, (1, 0), Some(RaycastResult { tile: 3, normal: Int3 { x: 0, y: 1, z: 0 } }));
    assert_eq!(pixel(&pixels, 1, 0), (0, 255, 0));
    assert_eq!(pixel(&pixels, 0, 0), (9, 9, 9));
    assert_eq!(pixel(&pixels, 0, 1), (9, 9, 9));
    assert_eq!(pixel(&pixels, 1, 1), (9, 9, 9));
    paint(&mut pixels, (0, 1), Some(RaycastResult { tile: 3, normal: Int3 { x: 0, y: 0, z: -1 } }));
    assert_eq!(pixel(&pixels, 0, 1), (0, 0, 0));
}

#[test]
fn render_world_paints_each_pixel_from_its_own_ray() {
    let mut world = World::new(4, 4, 4);
    world.set(2, 0, 0, 1);
    world.set(0, 2, 0, 1);
    let origin = Origin { cell: Int3 { x: 0, y: 0, z: 0 }, inset_x: 32768, inset_y: 32768, inset_z: 32768 };
    // Three pixels wide, two high, row after row.
    let directions = vec![
        Int3 { x: 1, y: 0, z: 0 },
        Int3 { x: 0, y: 1, z: 0 },
        Int3 { x: 0, y: 0, z: 1 },
        Int3 { x: -1, y: 0, z: 0 },
        Int3 { x: 0, y: -1, z: 0 },
        Int3 { x: 0, y: 5, z: 0 },
    ];
    let mut pixels = Pixels::new(3, 2);
    pixels.fill((9, 9, 9));
    render_world(&world, origin, &directions, 3, &mut pixels);
    // Both tiles are entered with a step along the axis, so their normals
    // point against it and every channel stays dark.
    assert_eq!(pixel(&pixels, 0, 0), (0, 0, 0));
    assert_eq!(pixel(&pixels, 1, 0), (0, 0, 0));
    assert_eq!(pixel(&pixels, 2, 0), (9, 9, 9));
    assert_eq!(pixel(&pixels, 0, 1), (9, 9, 9));
    assert_eq!(pixel(&pixels, 1, 1), (9, 9, 9));
    assert_eq!(pixel(&pixels, 2, 1), (0, 0, 0));
}

#[test]
fn render_world_shows_the_face_that_was_entered() {
    let mut world = World::new(5, 5, 5);
    world.set(2, 2, 0, 1);
    world.set(2, 2, 4, 1);
    world.set(2, 0, 2, 1);
    world.set(2, 4, 2, 1);
    world.set(0, 2, 2, 1);
    world.set(4, 2, 2, 1);
    let origin = Origin { cell: Int3 { x: 2, y: 2, z: 2 }, inset_x: 32768, inset_y: 32768, inset_z: 32768 };
    let directions = vec![
        Int3 { x: -1, y: 0, z: 0 },
        Int3 { x: 1, y: 0, z: 0 },
        Int3 { x: 0, y: -1, z: 0 },
        Int3 { x: 0, y: 1, z: 0 },
        Int3 { x: 0, y: 0, z: -1 },
        Int3 { x: 0, y: 0, z: 1 },
    ];
    let mut pixels = Pixels::new(2, 3);
    pixels.fill((9, 9, 9));
    render_world(&world, origin, &directions, 2, &mut pixels);
    assert_eq!(pixel(&pixels, 0, 0), (255, 0, 0));
    assert_eq!(pixel(&pixels, 1, 0), (0, 0, 0));
    assert_eq!(pixel(&pixels, 0, 1), (0, 255, 0));
    assert_eq!(pixel(&pixels, 1, 1), (0, 0, 0));
    assert_eq!(pixel(&pixels, 0, 2), (0, 0, 255));
    assert_eq!(pixel(&pixels, 1, 2), (0, 0, 0));
    // With one step the tiles are out of reach and nothing is painted.
    let mut short = Pixels::new(2, 3);
    short.fill((9, 9, 9));
    render_world(&world, origin, &directions, 1, &mut short);
    assert!(short.as_bytes().iter().all(|&byte| byte == 9));
}

#[test]
fn render_world_with_no_pixels_does_nothing() {
    let world = World::new(1, 1, 1);
    let origin = Origin { cell: Int3 { x: 0, y: 0, z: 0 }, inset_x: 0, inset_y: 0, inset_z: 0 };
    let mut pixels = Pixels::new(0, 0);
    render_world(&world, origin, &Vec::new(), 16, &mut pixels);
    assert_eq!(pixels.as_bytes().len(), 0);
}
