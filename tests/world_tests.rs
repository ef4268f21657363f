use voxel_world::coords::to_chunk_and_local;
use voxel_world::model::{build_render_batches, cube_indices, create_vertices, Instance, Model};
use voxel_world::world::{Block, BlockType, Chunk, World};

fn green() -> Block {
    Block { blocktype: BlockType::NORMAL, color: (0.0f32.to_bits(), 1.0f32.to_bits(), 0.0f32.to_bits()) }
}

fn red() -> Block {
    Block { blocktype: BlockType::NORMAL, color: (1.0f32.to_bits(), 0.0f32.to_bits(), 0.0f32.to_bits()) }
}

fn loaded_model() -> Model {
    let mut model = Model::new();
    model.load();
    model
}

#[test]
fn chunk_and_local_of_positive_addresses() {
    assert_eq!(to_chunk_and_local(0, 3), (0, 0));
    assert_eq!(to_chunk_and_local(2, 3), (0, 2));
    assert_eq!(to_chunk_and_local(3, 3), (1, 0));
    assert_eq!(to_chunk_and_local(7, 3), (2, 1));
}

#[test]
fn chunk_and_local_of_negative_addresses() {
    assert_eq!(to_chunk_and_local(-1, 3), (-1, 2));
    assert_eq!(to_chunk_and_local(-3, 3), (-1, 0));
    assert_eq!(to_chunk_and_local(-4, 3), (-2, 2));
    assert_eq!(to_chunk_and_local(i64::MIN, 2), (i64::MIN / 2, 0));
    assert_eq!(to_chunk_and_local(i64::MAX, 1), (i64::MAX, 0));
}

#[test]
fn address_round_trip_over_small_range() {
    for c in 1u8..=5 {
        for k in -4i64..=4 {
            for l in 0..c {
                let g = k * c as i64 + l as i64;
                assert_eq!(to_chunk_and_local(g, c), (k, l));
            }
        }
    }
}

#[test]
fn negative_chunk_block_is_found() {
    let mut world = World::new(3);
    let mut chunk = Chunk::new(3);
    chunk.insert((2, 2, 2), red());
    assert!(world.insert_chunk((-1, -1, -1), chunk));
    assert_eq!(world.GetBlockFromGlobalAddress(-1, -1, -1), Some(red()));
    assert_eq!(world.GetBlockFromGlobalAddress(-3, -3, -3), None);
    assert_eq!(world.GetBlockFromGlobalAddress(2, 2, 2), None);
}

#[test]
fn absent_chunk_gives_absence() {
    let world = World::new(3);
    assert_eq!(world.GetBlockFromGlobalAddress(0, 0, 0), None);
    assert_eq!(world.GetBlockFromGlobalAddress(i64::MIN, i64::MAX, -7), None);
    assert!(!world.is_occupied(5, 5, 5));
}

#[test]
fn one_past_the_chunk_edge_is_empty() {
    let model = loaded_model();
    assert_eq!(model.world.GetBlockFromGlobalAddress(2, 0, 0), Some(green()));
    assert_eq!(model.world.GetBlockFromGlobalAddress(3, 0, 0), None);
    assert_eq!(model.world.GetBlockFromGlobalAddress(-1, 0, 0), None);
}

#[test]
fn loaded_model_fills_the_origin_chunk() {
    let model = loaded_model();
    for x in 0..3 {
        for y in 0..3 {
            for z in 0..3 {
                assert_eq!(model.world.GetBlockFromGlobalAddress(x, y, z), Some(green()));
            }
        }
    }
    assert_eq!(model.meshes.len(), 1);
    assert_eq!(model.meshes[0].instances.len(), 27);
    assert_eq!(model.meshes[0].blocktype, BlockType::NORMAL);
}

#[test]
fn insert_and_remove_single_blocks() {
    let mut world = World::new(4);
    assert!(world.insert_block(-5, 9, 0, red()));
    assert_eq!(world.GetBlockFromGlobalAddress(-5, 9, 0), Some(red()));
    assert_eq!(world.GetBlockFromGlobalAddress(-6, 9, 0), None);
    assert!(world.insert_block(-6, 9, 0, green()));
    assert!(world.insert_block(-5, 9, 0, green()));
    assert_eq!(world.GetBlockFromGlobalAddress(-5, 9, 0), Some(green()));
    assert_eq!(world.remove_block(-5, 9, 0), Some(green()));
    assert_eq!(world.remove_block(-5, 9, 0), None);
    assert_eq!(world.GetBlockFromGlobalAddress(-5, 9, 0), None);
    assert_eq!(world.GetBlockFromGlobalAddress(-6, 9, 0), Some(green()));
}

#[test]
fn chunk_outside_the_address_range_is_refused() {
    let mut world = World::new(3);
    assert!(!world.chunk_in_range((i64::MAX, 0, 0)));
    assert!(!world.insert_chunk((i64::MAX, 0, 0), Chunk::filled(3, red())));
    assert_eq!(world.GetBlockFromGlobalAddress(i64::MAX, 0, 0), None);
    assert!(!world.insert_block(i64::MAX, 0, 0, red()));
    assert!(!world.insert_block(i64::MIN, 0, 0, red()));
    assert_eq!(world.GetBlockFromGlobalAddress(i64::MAX, 0, 0), None);
    // the chunk of MAX - 1 would end at 2^63; that of MAX - 3 ends at MAX - 2
    assert!(!world.insert_block(i64::MAX - 1, 0, 0, red()));
    assert!(world.insert_block(i64::MAX - 3, 0, 0, red()));
    assert_eq!(world.GetBlockFromGlobalAddress(i64::MAX - 3, 0, 0), Some(red()));
}

#[test]
fn chunk_insert_get_remove() {
    let mut chunk = Chunk::new(3);
    assert_eq!(chunk.size(), 3);
    assert_eq!(chunk.get((1, 2, 0)), None);
    chunk.insert((1, 2, 0), red());
    chunk.insert((0, 0, 0), green());
    assert_eq!(chunk.get((1, 2, 0)), Some(red()));
    assert_eq!(chunk.remove((1, 2, 0)), Some(red()));
    assert_eq!(chunk.get((1, 2, 0)), None);
    assert_eq!(chunk.get((0, 0, 0)), Some(green()));
}

fn sorted_content(world: &World) -> Vec<(BlockType, Vec<Instance>)> {
    let mut out = Vec::new();
    for mesh in build_render_batches(world) {
        let mut inst = mesh.instances.clone();
        inst.sort_by_key(|i| (i.position, i.color));
        out.push((mesh.blocktype, inst));
    }
    out
}

#[test]
fn render_batches_are_idempotent() {
    let mut model = loaded_model();
    model.world.insert_block(-1, 4, 2, red());
    let first = sorted_content(&model.world);
    let second = sorted_content(&model.world);
    assert_eq!(first, second);
    assert_eq!(first.len(), 1);
    assert_eq!(first[0].1.len(), 28);
}

#[test]
fn render_batch_instances_are_global_positions() {
    let mut world = World::new(3);
    world.insert_block(-1, 4, 2, red());
    world.insert_block(7, 0, -9, green());
    let batches = build_render_batches(&world);
    assert_eq!(batches.len(), 1);
    let mut inst = batches[0].instances.clone();
    inst.sort_by_key(|i| i.position);
    assert_eq!(
        inst,
        vec![
            Instance { position: (-1, 4, 2), color: red().color },
            Instance { position: (7, 0, -9), color: green().color },
        ]
    );
    assert_eq!(batches[0].vertices.len(), 24);
    assert_eq!(batches[0].indices.len(), 36);
}

#[test]
fn empty_world_has_no_batches() {
    let world = World::new(3);
    assert_eq!(build_render_batches(&world).len(), 0);
    let mut world = World::new(3);
    world.insert_block(1, 1, 1, red());
    world.remove_block(1, 1, 1);
    assert_eq!(build_render_batches(&world).len(), 0);
}

#[test]
fn cube_geometry() {
    let idx = cube_indices();
    assert_eq!(&idx[0..12], &[0, 1, 2, 2, 3, 0, 4, 5, 6, 6, 7, 4]);
    assert_eq!(&idx[30..36], &[20, 21, 22, 22, 23, 20]);
    let v = create_vertices();
    assert_eq!(v.len(), 24);
    assert_eq!(v[0].position, (0, 0, 1));
    assert_eq!(v[2].position, (1, 1, 1));
    assert_eq!(v[7].position, (0, 0, 0));
    assert_eq!(v[23].position, (1, 0, 0));
}
