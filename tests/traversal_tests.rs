use voxel_world::model::Model;
use voxel_world::traversal::{pick_voxel, MousePicker, Ray, MAX_DISTANCE};
use voxel_world::world::{Block, BlockType, World};

fn block() -> Block {
    Block { blocktype: BlockType::NORMAL, color: (0, 0, 0) }
}

fn loaded_model() -> Model {
    let mut model = Model::new();
    model.load();
    model
}

#[test]
fn downward_ray_hits_top_layer() {
    let model = loaded_model();
    // origin (1.5, 1.5, 10), direction (0, 0, -1)
    let ray = Ray { origin: (3, 3, 20), scale: 2, direction: (0, 0, -1) };
    assert_eq!(pick_voxel(&ray, &model.world, 20), Some((1, 1, 2)));
    assert_eq!(MousePicker::voxel_along_ray(&ray, &model.world), Some((1, 1, 2)));
}

#[test]
fn downward_ray_needs_enough_steps() {
    let model = loaded_model();
    let ray = Ray { origin: (3, 3, 20), scale: 2, direction: (0, 0, -1) };
    // the walk starts below the origin's voxel: 9, then 8, ..., 2 after seven advances
    assert_eq!(pick_voxel(&ray, &model.world, 6), None);
    assert_eq!(pick_voxel(&ray, &model.world, 7), Some((1, 1, 2)));
}

#[test]
fn empty_world_never_hits() {
    let world = World::new(3);
    let ray = Ray { origin: (0, 0, 0), scale: 1, direction: (1, 2, 3) };
    assert_eq!(pick_voxel(&ray, &world, MAX_DISTANCE), None);
    assert_eq!(pick_voxel(&ray, &world, 0), None);
}

#[test]
fn zero_steps_never_hit() {
    let model = loaded_model();
    let ray = Ray { origin: (3, 3, 3), scale: 2, direction: (1, 0, 0) };
    assert_eq!(pick_voxel(&ray, &model.world, 0), None);
    assert_eq!(pick_voxel(&ray, &model.world, 1), Some((2, 1, 1)));
}

#[test]
fn tie_goes_to_x_before_y() {
    // origin (0.5, 0.5, 0.5) on the diagonal: the crossings in X and Y tie
    let ray = Ray { origin: (1, 1, 1), scale: 2, direction: (1, 1, 0) };
    let mut world = World::new(3);
    world.insert_block(0, 1, 0, block());
    assert_eq!(pick_voxel(&ray, &world, 5), None);
    world.insert_block(1, 0, 0, block());
    assert_eq!(pick_voxel(&ray, &world, 1), Some((1, 0, 0)));
}

#[test]
fn tie_goes_to_x_or_y_before_z() {
    let ray = Ray { origin: (1, 1, 1), scale: 2, direction: (0, 1, 1) };
    let mut world = World::new(3);
    world.insert_block(0, 0, 1, block());
    world.insert_block(0, 1, 0, block());
    assert_eq!(pick_voxel(&ray, &world, 1), Some((0, 1, 0)));
}

#[test]
fn negative_direction_starts_one_voxel_lower() {
    // origin (0.5, 0.5, 0.5) moving towards -X: the first advance lands on x = -2
    let ray = Ray { origin: (1, 1, 1), scale: 2, direction: (-1, 0, 0) };
    let mut world = World::new(3);
    world.insert_block(-1, 0, 0, block());
    assert_eq!(pick_voxel(&ray, &world, 1), None);
    world.insert_block(-2, 0, 0, block());
    assert_eq!(pick_voxel(&ray, &world, 1), Some((-2, 0, 0)));
}

#[test]
fn oblique_ray_steps_by_nearest_crossing() {
    // origin (0.25, 0.5, 0.5), direction (2, 1, 0): X crossing at t = 0.375, Y at 0.5
    let ray = Ray { origin: (1, 2, 2), scale: 4, direction: (2, 1, 0) };
    let mut world = World::new(2);
    world.insert_block(1, 1, 0, block());
    assert_eq!(pick_voxel(&ray, &world, 1), None);
    assert_eq!(pick_voxel(&ray, &world, 2), Some((1, 1, 0)));
}
