use voxel_world::world::World;

#[test]
fn new_world_is_all_air() {
    let world = World::new(4, 3, 2);
    assert_eq!(world.size_x(), 4);
    assert_eq!(world.size_y(), 3);
    assert_eq!(world.size_z(), 2);
    for z in 0..2 {
        for y in 0..3 {
            for x in 0..4 {
                assert_eq!(world.get(x, y, z), Some(0));
            }
        }
    }
}

#[test]
fn set_then_get_reads_back_the_tile() {
    let mut world = World::new(16, 16, 16);
    for z in 0..16 {
        for y in 0..16 {
            for x in 0..16 {
                let tile = ((x * 7 + y * 3 + z) % 251 + 1) as u8;
                world.set(x, y, z, tile);
                assert_eq!(world.get(x, y, z), Some(tile));
            }
        }
    }
}

#[test]
fn set_leaves_every_other_cell_alone() {
    let mut world = World::new(5, 4, 3);
    world.set(2, 1, 1, 9);
    for z in 0..3 {
        for y in 0..4 {
            for x in 0..5 {
                let expected = if (x, y, z) == (2, 1, 1) { 9 } else { 0 };
                assert_eq!(world.get(x, y, z), Some(expected));
            }
        }
    }
}

#[test]
fn get_outside_the_grid_is_none() {
    let mut world = World::new(16, 16, 16);
    world.set(15, 15, 15, 3);
    assert_eq!(world.get(16, 0, 0), None);
    assert_eq!(world.get(0, 16, 0), None);
    assert_eq!(world.get(0, 0, 16), None);
    assert_eq!(world.get(usize::MAX, usize::MAX, usize::MAX), None);
    assert_eq!(world.get(15, 15, 15), Some(3));
}

#[test]
fn in_bounds_checks_each_axis() {
    let world = World::new(2, 3, 4);
    assert!(world.in_bounds(0, 0, 0));
    assert!(world.in_bounds(1, 2, 3));
    assert!(!world.in_bounds(2, 2, 3));
    assert!(!world.in_bounds(1, 3, 3));
    assert!(!world.in_bounds(1, 2, 4));
}

#[test]
fn offset_is_z_major_then_y_then_x() {
    let world = World::new(16, 16, 16);
    assert_eq!(world.offset_of(0, 0, 0), 0);
    assert_eq!(world.offset_of(1, 0, 0), 1);
    assert_eq!(world.offset_of(0, 1, 0), 16);
    assert_eq!(world.offset_of(0, 0, 1), 256);
    assert_eq!(world.offset_of(1, 2, 3), 801);
    assert_eq!(world.offset_of(15, 15, 15), 4095);
    let slab = World::new(3, 5, 7);
    assert_eq!(slab.offset_of(2, 4, 6), 3 * 5 * 6 + 3 * 4 + 2);
}

#[test]
fn offsets_of_a_grid_are_a_bijection_onto_its_slots() {
    let world = World::new(3, 4, 5);
    let mut seen = vec![false; 60];
    for z in 0..5 {
        for y in 0..4 {
            for x in 0..3 {
                let offset = world.offset_of(x, y, z);
                assert!(offset < 60);
                assert!(!seen[offset]);
                seen[offset] = true;
            }
        }
    }
    assert!(seen.iter().all(|&hit| hit));
}

#[test]
fn a_grid_with_an_empty_axis_has_no_cells() {
    let world = World::new(4, 0, 4);
    assert_eq!(world.size_y(), 0);
    assert!(!world.in_bounds(0, 0, 0));
    assert_eq!(world.get(0, 0, 0), None);
}
