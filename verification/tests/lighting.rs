use lighting::Block;
use lighting::BlockPosition;
use lighting::Chunk;
use lighting::ChunkMap;
use lighting::ChunkPosition;
use lighting::adjacency::adjacent_blocks;
use lighting::algorithms::opaque_non_emitting_removal;
use lighting::algorithms::propagate_light;
use lighting::algorithms::remove_light_source;
use lighting::context::Context;
use lighting::dispatch::UpdateKind;
use lighting::dispatch::classify_update;
use lighting::dispatch::handle_block_update;
use lighting::dispatch::recalculate_chunk;
use lighting::flood_fill::flood_fill;

fn chunk_map() -> ChunkMap {
    let mut chunk_map = ChunkMap::new();
    for x in -1..=1 {
        for z in -1..=1 {
            let pos = ChunkPosition::new(x, z);
            chunk_map.set_chunk_at(pos, Chunk::new(pos));
        }
    }
    chunk_map
}

fn light_snapshot(ctx: &mut Context, center: BlockPosition, r: i32) -> Vec<u8> {
    let mut out = Vec::new();
    for dx in -r..=r {
        for dy in -r..=r {
            for dz in -r..=r {
                let p = BlockPosition::new(center.x + dx, center.y + dy, center.z + dz);
                out.push(ctx.block_light_at(p));
            }
        }
    }
    out
}

#[test]
fn test_context() {
    let mut chunk_map = ChunkMap::new();

    let pos = ChunkPosition::new(0, 0);
    chunk_map.set_chunk_at(pos, Chunk::new(pos));
    let pos2 = ChunkPosition::new(0, 1);
    chunk_map.set_chunk_at(pos2, Chunk::new(pos2));

    let mut ctx = Context::new(chunk_map, pos).unwrap();

    assert!(ctx.resolve(pos));
    assert_eq!(ctx.current_chunk_pos(), Some(pos));
    assert!(ctx.resolve(pos2));
    assert_eq!(ctx.current_chunk_pos(), Some(pos2));
    assert!(ctx.resolve(pos));
    assert_eq!(ctx.current_chunk_pos(), Some(pos));
}

#[test]
fn test_opaque_non_emitting_removal() {
    let mut ctx = Context::new(chunk_map(), ChunkPosition::new(0, 0)).unwrap();

    ctx.set_block_light_at(BlockPosition::new(0, 0, 0), 10);
    ctx.set_block_light_at(BlockPosition::new(0, 2, 0), 9);
    ctx.set_block_light_at(BlockPosition::new(1, 1, 0), 8);
    ctx.set_block_light_at(BlockPosition::new(-1, 1, 0), 11);
    ctx.set_block_light_at(BlockPosition::new(0, 1, 1), 0);
    ctx.set_block_light_at(BlockPosition::new(0, 1, -1), 12);
    ctx.set_block_light_at(BlockPosition::new(0, 1, 0), 15);

    opaque_non_emitting_removal(&mut ctx, BlockPosition::new(0, 1, 0));

    assert_eq!(ctx.block_light_at(BlockPosition::new(0, 1, 0)), 11);
}

#[test]
fn test_flood_fill() {
    let mut ctx = Context::new(chunk_map(), ChunkPosition::new(0, 0)).unwrap();

    let visited = flood_fill(&mut ctx, BlockPosition::new(100, 100, 100), 1);

    assert_eq!(visited.len(), 6);
}

#[test]
fn test_flood_fill_visits_ball_once() {
    let mut ctx = Context::new(chunk_map(), ChunkPosition::new(0, 0)).unwrap();
    let start = BlockPosition::new(8, 128, 8);

    let visited = flood_fill(&mut ctx, start, 2);

    // The Manhattan ball of radius 2 holds 25 positions; the start is not
    // reported, so 24 remain, each exactly once and none beyond distance 2.
    assert_eq!(visited.len(), 24);
    let mut seen = std::collections::HashSet::new();
    for p in &visited {
        assert!(p.manhattan_distance(start) <= 2);
        assert!(seen.insert((p.x, p.y, p.z)));
    }
}

#[test]
fn test_flood_fill_stops_at_opaque() {
    let mut ctx = Context::new(chunk_map(), ChunkPosition::new(0, 0)).unwrap();
    let start = BlockPosition::new(8, 128, 8);
    let wall = Block::new(true, 0);
    for nb in [
        BlockPosition::new(7, 128, 8),
        BlockPosition::new(9, 128, 8),
        BlockPosition::new(8, 127, 8),
        BlockPosition::new(8, 129, 8),
        BlockPosition::new(8, 128, 7),
        BlockPosition::new(8, 128, 9),
    ] {
        ctx.set_block_at(nb, wall);
    }

    let visited = flood_fill(&mut ctx, start, 5);

    assert_eq!(visited.len(), 0);
}

#[test]
fn test_adjacent_blocks() {
    let mid = adjacent_blocks(BlockPosition::new(3, 100, -2));
    assert_eq!(mid.len(), 6);

    let floor = adjacent_blocks(BlockPosition::new(3, 0, -2));
    assert_eq!(floor.len(), 5);
    for p in &floor {
        assert!(p.y >= 0);
    }

    let ceiling = adjacent_blocks(BlockPosition::new(3, 256, -2));
    assert_eq!(ceiling.len(), 5);
    for p in &ceiling {
        assert!(p.y <= 256);
    }
}

#[test]
fn test_classify_update() {
    let air = Block::air();
    let stone = Block::new(true, 0);
    let lamp = Block::new(false, 15);
    let glass = Block::new(false, 0);

    assert_eq!(classify_update(air, lamp), UpdateKind::SourceCreation);
    assert_eq!(classify_update(lamp, air), UpdateKind::SourceRemoval);
    assert_eq!(classify_update(air, stone), UpdateKind::OpaqueCreation);
    assert_eq!(classify_update(stone, air), UpdateKind::OpaqueRemoval);
    assert_eq!(classify_update(air, glass), UpdateKind::NoChange);
    assert_eq!(classify_update(glass, air), UpdateKind::NoChange);
}

#[test]
fn test_emitter_gradient() {
    // An emitter of level 15 in an otherwise dark world: light falls by
    // exactly one per Manhattan-distance step, and is 0 beyond 15.
    let mut ctx = Context::new(chunk_map(), ChunkPosition::new(0, 0)).unwrap();
    let center = BlockPosition::new(8, 128, 8);
    let lamp = Block::new(false, 15);

    handle_block_update(&mut ctx, center, Block::air(), lamp);

    assert_eq!(ctx.block_light_at(center), 15);
    for d in 1..=15 {
        assert_eq!(ctx.block_light_at(BlockPosition::new(8 + d, 128, 8)), (15 - d) as u8);
    }
    assert_eq!(ctx.block_light_at(BlockPosition::new(8 + 16, 128, 8)), 0);
    // A diagonal sample: Manhattan distance 8 from the source.
    assert_eq!(ctx.block_light_at(BlockPosition::new(12, 130, 10)), 7);
}

#[test]
fn test_propagation_keeps_brighter_values() {
    let mut ctx = Context::new(chunk_map(), ChunkPosition::new(0, 0)).unwrap();
    let dim = BlockPosition::new(10, 128, 8);
    let bright = BlockPosition::new(8, 128, 8);

    handle_block_update(&mut ctx, dim, Block::air(), Block::new(false, 6));
    assert_eq!(ctx.block_light_at(dim), 6);

    handle_block_update(&mut ctx, bright, Block::air(), Block::new(false, 15));

    // The dim source's cell now takes the brighter value from two steps away.
    assert_eq!(ctx.block_light_at(dim), 13);
    // A cell close to the dim source but far from the bright one keeps the
    // larger of the two contributions.
    assert_eq!(ctx.block_light_at(BlockPosition::new(10, 128, 11)), 10);
    // Values never left the 0..=15 range anywhere nearby.
    for v in light_snapshot(&mut ctx, bright, 8) {
        assert!(v <= 15);
    }
}

#[test]
fn test_round_trip_restores_darkness() {
    let mut ctx = Context::new(chunk_map(), ChunkPosition::new(0, 0)).unwrap();
    let p = BlockPosition::new(8, 128, 8);
    let lamp = Block::new(false, 6);

    let before = light_snapshot(&mut ctx, p, 8);
    handle_block_update(&mut ctx, p, Block::air(), lamp);
    handle_block_update(&mut ctx, p, lamp, Block::air());
    let after = light_snapshot(&mut ctx, p, 8);

    assert_eq!(before, after);
}

#[test]
fn test_round_trip_keeps_other_source() {
    let mut ctx = Context::new(chunk_map(), ChunkPosition::new(0, 0)).unwrap();
    let other = BlockPosition::new(5, 128, 8);
    let p = BlockPosition::new(8, 128, 8);
    let small = Block::new(false, 5);
    let lamp = Block::new(false, 7);

    handle_block_update(&mut ctx, other, Block::air(), small);
    let before = light_snapshot(&mut ctx, p, 8);

    handle_block_update(&mut ctx, p, Block::air(), lamp);
    handle_block_update(&mut ctx, p, lamp, Block::air());
    let after = light_snapshot(&mut ctx, p, 8);

    assert_eq!(before, after);
}

#[test]
fn test_opaque_creation_blocks_light() {
    let mut ctx = Context::new(chunk_map(), ChunkPosition::new(0, 0)).unwrap();
    let source = BlockPosition::new(8, 100, 8);
    let target = BlockPosition::new(9, 100, 8);
    let lamp = Block::new(false, 6);
    let stone = Block::new(true, 0);

    handle_block_update(&mut ctx, source, Block::air(), lamp);
    assert_eq!(ctx.block_light_at(target), 5);

    handle_block_update(&mut ctx, target, Block::air(), stone);

    // The opaque cell itself goes dark; cells around it stay lit by their
    // Manhattan distance, since open paths around the block remain.
    assert_eq!(ctx.block_light_at(target), 0);
    assert_eq!(ctx.block_light_at(BlockPosition::new(7, 100, 8)), 5);
    assert_eq!(ctx.block_light_at(BlockPosition::new(10, 100, 8)), 4);
    assert_eq!(ctx.block_light_at(source), 6);
}

#[test]
fn test_opaque_removal_exposes_light() {
    let mut ctx = Context::new(chunk_map(), ChunkPosition::new(0, 0)).unwrap();
    let source = BlockPosition::new(8, 100, 8);
    let target = BlockPosition::new(9, 100, 8);
    let lamp = Block::new(false, 6);
    let stone = Block::new(true, 0);

    handle_block_update(&mut ctx, target, Block::air(), stone);
    handle_block_update(&mut ctx, source, Block::air(), lamp);
    assert_eq!(ctx.block_light_at(target), 0);

    handle_block_update(&mut ctx, target, stone, Block::air());

    // max(neighbor lights) - 1: the source neighbor holds 6, so 5.
    assert_eq!(ctx.block_light_at(target), 5);
}

#[test]
fn test_recalculate_chunk_finds_emitters() {
    let mut ctx = Context::new(chunk_map(), ChunkPosition::new(0, 0)).unwrap();
    let p = BlockPosition::new(8, 128, 8);
    ctx.set_block_at(p, Block::new(false, 9));

    recalculate_chunk(&mut ctx, ChunkPosition::new(0, 0));

    assert_eq!(ctx.block_light_at(p), 9);
    assert_eq!(ctx.block_light_at(BlockPosition::new(8, 132, 8)), 5);
}

#[test]
fn test_recalculate_chunk_idempotent() {
    let mut ctx = Context::new(chunk_map(), ChunkPosition::new(0, 0)).unwrap();
    let p = BlockPosition::new(8, 128, 8);
    ctx.set_block_at(p, Block::new(false, 9));

    recalculate_chunk(&mut ctx, ChunkPosition::new(0, 0));
    let first = light_snapshot(&mut ctx, p, 12);
    recalculate_chunk(&mut ctx, ChunkPosition::new(0, 0));
    let second = light_snapshot(&mut ctx, p, 12);

    assert_eq!(first, second);
}

#[test]
fn test_recalculate_empty_chunk_idempotent() {
    let mut ctx = Context::new(chunk_map(), ChunkPosition::new(0, 0)).unwrap();
    let p = BlockPosition::new(8, 128, 8);
    ctx.set_block_light_at(p, 12);

    recalculate_chunk(&mut ctx, ChunkPosition::new(0, 0));
    let first = light_snapshot(&mut ctx, p, 6);
    recalculate_chunk(&mut ctx, ChunkPosition::new(0, 0));
    let second = light_snapshot(&mut ctx, p, 6);

    // The stray value is wiped by the first pass and stays wiped.
    assert_eq!(ctx.block_light_at(p), 0);
    assert_eq!(first, second);
}

#[test]
fn test_propagate_light_clamps_at_zero() {
    let mut ctx = Context::new(chunk_map(), ChunkPosition::new(0, 0)).unwrap();
    let p = BlockPosition::new(8, 128, 8);

    let affected = propagate_light(&mut ctx, p, 3);

    assert_eq!(ctx.block_light_at(p), 3);
    for q in &affected {
        let d = q.manhattan_distance(p);
        assert_eq!(ctx.block_light_at(*q) as i64, 3 - d);
    }
    assert_eq!(ctx.block_light_at(BlockPosition::new(12, 128, 8)), 0);
}

#[test]
fn test_no_change_update_keeps_lights() {
    let mut ctx = Context::new(chunk_map(), ChunkPosition::new(0, 0)).unwrap();
    let p = BlockPosition::new(8, 128, 8);
    handle_block_update(&mut ctx, p, Block::air(), Block::new(false, 7));
    let before = light_snapshot(&mut ctx, p, 8);

    // Swapping one transparent, non-emitting block for another needs no
    // lighting work at all.
    let q = BlockPosition::new(10, 128, 8);
    handle_block_update(&mut ctx, q, Block::air(), Block::new(false, 0));
    let after = light_snapshot(&mut ctx, p, 8);

    assert_eq!(before, after);
}

#[test]
fn test_remove_light_source_direct() {
    let mut ctx = Context::new(chunk_map(), ChunkPosition::new(0, 0)).unwrap();
    let p = BlockPosition::new(8, 128, 8);
    let affected = propagate_light(&mut ctx, p, 6);
    assert_eq!(ctx.block_light_at(p), 6);

    remove_light_source(&mut ctx, p, 6);

    assert_eq!(ctx.block_light_at(p), 0);
    for q in &affected {
        assert_eq!(ctx.block_light_at(*q), 0);
    }
}

#[test]
fn test_unloaded_world_reads_as_dark_air() {
    let mut ctx = Context::new(chunk_map(), ChunkPosition::new(0, 0)).unwrap();
    let far = BlockPosition::new(1000, 128, 1000);

    assert_eq!(ctx.block_light_at(far), 0);
    let b = ctx.block_at(far);
    assert!(!b.opaque);
    assert_eq!(b.emission, 0);

    ctx.set_block_light_at(far, 9);
    assert_eq!(ctx.block_light_at(far), 0);

    let above = BlockPosition::new(8, 300, 8);
    assert_eq!(ctx.block_light_at(above), 0);
    ctx.set_block_light_at(above, 9);
    assert_eq!(ctx.block_light_at(above), 0);
}
