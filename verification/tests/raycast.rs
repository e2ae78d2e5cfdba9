use glam::Vec3;
use voxel_world::crossing::{Origin, CELL_UNITS};
use voxel_world::ray::{next_axis, step_of, Axis, Int3, Ray, RaycastResult};
use voxel_world::world::World;

/// The point in the low corner of a cell.
fn corner_of(x: i32, y: i32, z: i32) -> Origin {
    Origin { cell: Int3 { x, y, z }, inset_x: 0, inset_y: 0, inset_z: 0 }
}

/// The point in the middle of a cell.
fn middle_of(x: i32, y: i32, z: i32) -> Origin {
    Origin { cell: Int3 { x, y, z }, inset_x: 32768, inset_y: 32768, inset_z: 32768 }
}

fn letters(ray: &Ray) -> String {
    ray.crossings()
        .iter()
        .map(|axis| match axis {
            Axis::X => 'X',
            Axis::Y => 'Y',
            Axis::Z => 'Z',
        })
        .collect()
}

fn lone_tile_world() -> World {
    let mut world = World::new(16, 16, 16);
    world.set(0, 0, 0, 1);
    world
}

#[test]
fn ray_aimed_at_the_lone_tile_hits_it() {
    let world = lone_tile_world();
    // From (2, 2, -3) towards (0, 0, 0).
    let origin = corner_of(2, 2, -3);
    let direction = Int3 { x: -2, y: -2, z: 3 };
    for budget in [16usize, 20, 64] {
        let hit = world.raycast(origin, direction, budget);
        assert_eq!(hit, Some(RaycastResult { tile: 1, normal: Int3 { x: 0, y: 0, z: -1 } }));
    }
}

#[test]
fn ray_aimed_away_from_the_grid_hits_nothing() {
    let world = lone_tile_world();
    let origin = corner_of(2, 2, -3);
    let direction = Int3 { x: 2, y: 2, z: -3 };
    for budget in [16usize, 20, 64] {
        assert_eq!(world.raycast(origin, direction, budget), None);
    }
}

#[test]
fn ray_aimed_at_the_middle_of_the_lone_tile_hits_it() {
    let world = lone_tile_world();
    let origin = corner_of(2, 2, -3);
    // Towards (0.5, 0.5, 0.5), doubled to whole numbers.
    let direction = Int3 { x: -3, y: -3, z: 7 };
    let hit = world.raycast(origin, direction, 16);
    assert_eq!(hit, Some(RaycastResult { tile: 1, normal: Int3 { x: 0, y: 0, z: -1 } }));
    let away = Int3 { x: 3, y: 3, z: -7 };
    assert_eq!(world.raycast(origin, away, 16), None);
}

#[test]
fn ray_along_an_axis_never_leaves_its_column() {
    let mut world = World::new(16, 16, 16);
    world.set(0, 0, 4, 6);
    let ray = Ray::through(middle_of(0, 0, -4), Int3 { x: 0, y: 0, z: 1 }, 16);
    assert_eq!(letters(&ray), "ZZZZZZZZZZZZZZZZ");
    assert_eq!(world.walk(&ray, 7), None);
    assert_eq!(
        world.walk(&ray, 8),
        Some(RaycastResult { tile: 6, normal: Int3 { x: 0, y: 0, z: -1 } })
    );
}

#[test]
fn crossing_order_follows_the_nearest_boundary() {
    let origin = corner_of(2, 2, -3);
    let order = |x: i32, y: i32, z: i32| letters(&Ray::through(origin, Int3 { x, y, z }, 16));
    assert_eq!(order(-2, -2, 3), "XYZXYZZXYZXYZZXY");
    assert_eq!(order(-3, -3, 7), "XYZZXYZZXYZZZXYZ");
    assert_eq!(order(2, 2, -3), "ZZXYZZXYZXYZZXYZ");
    assert_eq!(order(5, 0, -1), "ZXXXXZXXXXXZXXXX");
    let inside = Origin { cell: Int3 { x: 0, y: 0, z: 0 }, inset_x: 16384, inset_y: 49152, inset_z: 0 };
    assert_eq!(letters(&Ray::through(inside, Int3 { x: 3, y: -2, z: 1 }, 10)), "XYXYXZXYXY");
}

#[test]
fn boundaries_reached_together_are_crossed_z_then_x_then_y() {
    let ray = Ray::through(corner_of(0, 0, 0), Int3 { x: 1, y: 1, z: 1 }, 9);
    assert_eq!(letters(&ray), "ZXYZXYZXY");
    let flat = Ray::through(corner_of(0, 0, 0), Int3 { x: 1, y: 1, z: 0 }, 6);
    assert_eq!(letters(&flat), "XYXYXY");
}

#[test]
fn a_ray_on_a_boundary_steps_off_it_at_once() {
    // Travelling against x from a point on the low x side of its cell.
    let ray = Ray::through(corner_of(5, 5, 5), Int3 { x: -1, y: 0, z: 0 }, 3);
    assert_eq!(letters(&ray), "XXX");
    let mut world = World::new(16, 16, 16);
    world.set(4, 5, 5, 2);
    assert_eq!(
        world.walk(&ray, 1),
        Some(RaycastResult { tile: 2, normal: Int3 { x: 1, y: 0, z: 0 } })
    );
}

#[test]
fn the_length_of_the_direction_does_not_matter() {
    let origin = Origin { cell: Int3 { x: 1, y: -2, z: 3 }, inset_x: 100, inset_y: 65535, inset_z: 7 };
    let short = Ray::through(origin, Int3 { x: -2, y: 5, z: 3 }, 64);
    for factor in [2, 3, 1000, 400_000_000] {
        let long = Ray::through(origin, Int3 { x: -2 * factor, y: 5 * factor, z: 3 * factor }, 64);
        assert_eq!(letters(&long), letters(&short));
        assert_eq!(long.start(), short.start());
        assert_eq!(long.step(), short.step());
    }
}

#[test]
fn a_ray_without_direction_crosses_on_z_only() {
    let ray = Ray::through(middle_of(0, 0, 0), Int3 { x: 0, y: 0, z: 0 }, 5);
    assert_eq!(letters(&ray), "ZZZZZ");
    assert_eq!(ray.step(), Int3 { x: 1, y: 1, z: 1 });
}

#[test]
fn ray_through_reports_where_it_starts_and_how_it_steps() {
    let origin = Origin { cell: Int3 { x: 7, y: -8, z: 9 }, inset_x: 1, inset_y: 2, inset_z: 3 };
    let ray = Ray::through(origin, Int3 { x: -1, y: 0, z: i32::MIN }, 4);
    assert_eq!(ray.start(), Int3 { x: 7, y: -8, z: 9 });
    assert_eq!(ray.step(), Int3 { x: -1, y: 1, z: -1 });
    assert_eq!(ray.crossings().len(), 4);
    assert_eq!(Ray::through(origin, Int3 { x: 1, y: 1, z: 1 }, 0).crossings().len(), 0);
}

#[test]
fn no_steps_means_no_hit() {
    let mut world = World::new(4, 4, 4);
    for z in 0..4 {
        for y in 0..4 {
            for x in 0..4 {
                world.set(x, y, z, 1);
            }
        }
    }
    let crossings = vec![Axis::X, Axis::Y, Axis::Z];
    let ray = Ray::new(Int3 { x: 1, y: 1, z: 1 }, false, true, false, crossings);
    assert_eq!(world.walk(&ray, 0), None);
    let still = Ray::new(Int3 { x: 1, y: 1, z: 1 }, false, false, false, Vec::new());
    assert_eq!(world.walk(&still, 100), None);
}

#[test]
fn the_walk_stops_at_its_budget() {
    let mut world = World::new(16, 16, 16);
    world.set(5, 0, 0, 2);
    let along_x = |count: usize| {
        Ray::new(Int3 { x: 0, y: 0, z: 0 }, false, false, false, vec![Axis::X; count])
    };
    for budget in 0..5 {
        assert_eq!(world.walk(&along_x(16), budget), None);
    }
    let expected = Some(RaycastResult { tile: 2, normal: Int3 { x: -1, y: 0, z: 0 } });
    for budget in 5..20 {
        assert_eq!(world.walk(&along_x(16), budget), expected);
    }
    // Crossings past the budget change nothing.
    assert_eq!(world.walk(&along_x(4), 4), world.walk(&along_x(16), 4));
    assert_eq!(world.walk(&along_x(5), 5), world.walk(&along_x(16), 5));
}

#[test]
fn the_same_cast_gives_the_same_outcome() {
    let world = lone_tile_world();
    let origin = corner_of(2, 2, -3);
    let direction = Int3 { x: -2, y: -2, z: 3 };
    let first = world.raycast(origin, direction, 16);
    let second = world.raycast(origin, direction, 16);
    assert_eq!(first, second);
    let copy = lone_tile_world();
    assert_eq!(copy.raycast(origin, direction, 16), first);
    assert_eq!(world.walk(&Ray::through(origin, direction, 16), 16), first);
}

#[test]
fn the_first_solid_tile_wins() {
    let mut world = World::new(16, 16, 16);
    world.set(0, 0, 3, 7);
    world.set(0, 0, 5, 8);
    let ray = Ray::new(Int3 { x: 0, y: 0, z: 0 }, false, false, false, vec![Axis::Z; 10]);
    assert_eq!(
        world.walk(&ray, 10),
        Some(RaycastResult { tile: 7, normal: Int3 { x: 0, y: 0, z: -1 } })
    );
}

#[test]
fn the_starting_cell_is_not_looked_at() {
    let mut world = World::new(4, 4, 4);
    world.set(1, 1, 1, 9);
    let ray = Ray::new(Int3 { x: 1, y: 1, z: 1 }, false, false, false, vec![Axis::Y; 8]);
    assert_eq!(world.walk(&ray, 8), None);
}

#[test]
fn steps_outside_the_grid_count_and_the_walk_goes_on() {
    let mut world = World::new(16, 16, 16);
    world.set(0, 2, 0, 4);
    // Starts three cells outside, walks in along x, then up along y.
    let crossings = vec![Axis::X, Axis::X, Axis::X, Axis::Y, Axis::Y];
    let ray = Ray::new(Int3 { x: -3, y: 0, z: 0 }, false, false, false, crossings);
    assert_eq!(world.walk(&ray, 4), None);
    assert_eq!(
        world.walk(&ray, 5),
        Some(RaycastResult { tile: 4, normal: Int3 { x: 0, y: -1, z: 0 } })
    );
}

#[test]
fn the_normal_points_back_against_the_step() {
    let mut world = World::new(8, 8, 8);
    world.set(4, 4, 4, 1);
    let cast = |start: Int3, negative: (bool, bool, bool), axis: Axis| {
        let ray = Ray::new(start, negative.0, negative.1, negative.2, vec![axis]);
        world.walk(&ray, 1).map(|hit| hit.normal)
    };
    let towards = (false, false, false);
    let against = (true, true, true);
    assert_eq!(cast(Int3 { x: 3, y: 4, z: 4 }, towards, Axis::X), Some(Int3 { x: -1, y: 0, z: 0 }));
    assert_eq!(cast(Int3 { x: 5, y: 4, z: 4 }, against, Axis::X), Some(Int3 { x: 1, y: 0, z: 0 }));
    assert_eq!(cast(Int3 { x: 4, y: 3, z: 4 }, towards, Axis::Y), Some(Int3 { x: 0, y: -1, z: 0 }));
    assert_eq!(cast(Int3 { x: 4, y: 5, z: 4 }, against, Axis::Y), Some(Int3 { x: 0, y: 1, z: 0 }));
    assert_eq!(cast(Int3 { x: 4, y: 4, z: 3 }, towards, Axis::Z), Some(Int3 { x: 0, y: 0, z: -1 }));
    assert_eq!(cast(Int3 { x: 4, y: 4, z: 5 }, against, Axis::Z), Some(Int3 { x: 0, y: 0, z: 1 }));
}

#[test]
fn a_walk_from_the_far_corner_of_the_integers_does_not_overflow() {
    let world = lone_tile_world();
    let start = Int3 { x: i32::MAX, y: i32::MIN, z: i32::MAX };
    let crossings = vec![Axis::X, Axis::Y, Axis::Z, Axis::X];
    let ray = Ray::new(start, false, true, false, crossings);
    assert_eq!(world.walk(&ray, 4), None);
}

#[test]
fn next_axis_follows_the_three_comparisons() {
    // (y < x, y < z, x < z)
    assert_eq!(next_axis(true, true, false), Axis::Y);
    assert_eq!(next_axis(true, true, true), Axis::Y);
    assert_eq!(next_axis(false, false, true), Axis::X);
    assert_eq!(next_axis(true, false, true), Axis::X);
    assert_eq!(next_axis(false, true, true), Axis::X);
    assert_eq!(next_axis(false, false, false), Axis::Z);
    assert_eq!(next_axis(true, false, false), Axis::Z);
    assert_eq!(next_axis(false, true, false), Axis::Z);
}

#[test]
fn next_axis_picks_the_least_distance() {
    let pick = |x: i32, y: i32, z: i32| next_axis(y < x, y < z, x < z);
    assert_eq!(pick(1, 2, 3), Axis::X);
    assert_eq!(pick(3, 1, 2), Axis::Y);
    assert_eq!(pick(3, 2, 1), Axis::Z);
    // Ties: Z before X before Y.
    assert_eq!(pick(1, 1, 1), Axis::Z);
    assert_eq!(pick(1, 1, 2), Axis::X);
    assert_eq!(pick(2, 1, 1), Axis::Z);
    assert_eq!(pick(1, 2, 1), Axis::Z);
}

#[test]
fn step_of_gives_the_sign() {
    assert_eq!(step_of(true), -1);
    assert_eq!(step_of(false), 1);
}

#[test]
fn the_ray_through_the_middle_of_the_screen_runs_straight_ahead() {
    // A camera in the middle of a cell that looks along z, with y up.
    let position = Vec3::new(2.5, 2.5, -2.5);
    let forward = Vec3::new(0.0, 0.0, 1.0);
    let up = Vec3::new(-1.0, 0.0, 0.0).cross(forward);
    let view = glam::Mat4::look_at_lh(position, position + forward, up);
    let projection = glam::Mat4::perspective_infinite_lh(90.0_f32.to_radians(), 1.0, 0.001);
    let unprojected = (projection * view).inverse() * glam::Vec4::new(0.0, 0.0, 1.0, 1.0);
    let direction = Vec3::new(unprojected.x, unprojected.y, unprojected.z).normalize();
    assert!((direction - forward).length() < 1.0e-4);

    let floor = position.floor();
    let inset = (position - floor) * CELL_UNITS as f32;
    let origin = Origin {
        cell: Int3 { x: floor.x as i32, y: floor.y as i32, z: floor.z as i32 },
        inset_x: inset.x as u16,
        inset_y: inset.y as u16,
        inset_z: inset.z as u16,
    };
    let longest = direction.abs().max_element() as f64;
    let scale = 2.0_f64.powi(29 - longest.log2().floor() as i32);
    let whole = Int3 {
        x: (direction.x as f64 * scale).round() as i32,
        y: (direction.y as f64 * scale).round() as i32,
        z: (direction.z as f64 * scale).round() as i32,
    };
    let mut world = World::new(16, 16, 16);
    world.set(2, 2, 0, 3);
    assert_eq!(world.raycast(origin, whole, 2), None);
    assert_eq!(
        world.raycast(origin, whole, 16),
        Some(RaycastResult { tile: 3, normal: Int3 { x: 0, y: 0, z: -1 } })
    );
}

#[test]
fn a_cast_of_no_steps_hits_nothing() {
    let mut world = World::new(4, 4, 4);
    for z in 0..4 {
        for y in 0..4 {
            for x in 0..4 {
                world.set(x, y, z, 1);
            }
        }
    }
    for direction in [Int3 { x: 1, y: 0, z: 0 }, Int3 { x: -3, y: 2, z: 1 }, Int3 { x: 0, y: 0, z: 0 }] {
        assert_eq!(world.raycast(middle_of(1, 1, 1), direction, 0), None);
        assert_eq!(world.raycast(corner_of(-5, 9, 0), direction, 0), None);
    }
    assert!(world.raycast(middle_of(1, 1, 1), Int3 { x: 1, y: 0, z: 0 }, 1).is_some());
}

#[test]
fn a_cast_makes_no_more_advances_than_its_budget() {
    let mut world = World::new(16, 16, 16);
    world.set(9, 0, 0, 2);
    let origin = middle_of(0, 0, 0);
    let direction = Int3 { x: 1, y: 0, z: 0 };
    for budget in 0..9 {
        assert_eq!(world.raycast(origin, direction, budget), None);
    }
    let expected = Some(RaycastResult { tile: 2, normal: Int3 { x: -1, y: 0, z: 0 } });
    for budget in 9..40 {
        assert_eq!(world.raycast(origin, direction, budget), expected);
    }
    // An empty grid gives no hit however long the walk.
    let empty = World::new(16, 16, 16);
    assert_eq!(empty.raycast(origin, Int3 { x: 3, y: 2, z: 1 }, 1000), None);
}

#[test]
fn a_cast_does_not_care_how_long_the_direction_is() {
    let world = lone_tile_world();
    let origin = corner_of(2, 2, -3);
    let expected = Some(RaycastResult { tile: 1, normal: Int3 { x: 0, y: 0, z: -1 } });
    for factor in [1, 2, 10, 1_000_000] {
        let direction = Int3 { x: -2 * factor, y: -2 * factor, z: 3 * factor };
        assert_eq!(world.raycast(origin, direction, 16), expected);
    }
}

#[test]
fn a_hit_ends_the_cast_whatever_the_budget() {
    let mut world = World::new(16, 16, 16);
    world.set(9, 0, 0, 2);
    let expected = Some(RaycastResult { tile: 2, normal: Int3 { x: -1, y: 0, z: 0 } });
    let hit = world.raycast(middle_of(0, 0, 0), Int3 { x: 1, y: 0, z: 0 }, usize::MAX);
    assert_eq!(hit, expected);
}
