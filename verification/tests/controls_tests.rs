use voxel_world::chunk::ChunkPosition;
use voxel_world::controls::{cursor_escape_pressed, movement_axes, CursorAction, MoveAxes, MovementKeys};
use voxel_world::spawn_area::{chunk_contains, spawn_area_chunks};

#[test]
fn no_keys_no_movement() {
    let axes = movement_axes(&MovementKeys::default(), true);
    assert_eq!(axes, MoveAxes { x: 0, y: 0, z: 0 });
}

#[test]
fn forward_right_up() {
    let keys = MovementKeys { forward: true, right: true, up: true, ..MovementKeys::default() };
    assert_eq!(movement_axes(&keys, true), MoveAxes { x: 1, y: 1, z: -1 });
}

#[test]
fn opposite_keys_cancel() {
    let keys = MovementKeys {
        forward: true,
        back: true,
        left: true,
        right: true,
        up: true,
        down: true,
    };
    assert_eq!(movement_axes(&keys, true), MoveAxes { x: 0, y: 0, z: 0 });
}

#[test]
fn descend_only_when_allowed() {
    let keys = MovementKeys { down: true, back: true, left: true, ..MovementKeys::default() };
    assert_eq!(movement_axes(&keys, true), MoveAxes { x: -1, y: -1, z: 1 });
    assert_eq!(movement_axes(&keys, false), MoveAxes { x: -1, y: 0, z: 1 });
}

#[test]
fn escape_toggles_cursor() {
    let (released, action) = cursor_escape_pressed(false);
    assert!(released);
    assert_eq!(action, CursorAction::Unlock);
    let (released, action) = cursor_escape_pressed(released);
    assert!(!released);
    assert_eq!(action, CursorAction::Lock);
}

#[test]
fn spawn_area_centres_the_player() {
    let chunks = spawn_area_chunks(10, -5);
    assert_eq!(chunks.len(), 9);
    assert_eq!(chunks[0], ChunkPosition::new(10 - 48, -5 - 48));
    assert_eq!(chunks[1], ChunkPosition::new(10 - 48, -5 - 16));
    assert_eq!(chunks[3], ChunkPosition::new(10 - 16, -5 - 48));
    assert_eq!(chunks[8], ChunkPosition::new(10 + 16, -5 + 16));
    assert!(chunk_contains(&chunks[4], 10, -5));
    for (i, c) in chunks.iter().enumerate() {
        assert_eq!(chunk_contains(c, 10, -5), i == 4);
    }
}

#[test]
fn chunk_contains_bounds() {
    let c = ChunkPosition::new(32, -64);
    assert!(chunk_contains(&c, 32, -64));
    assert!(chunk_contains(&c, 63, -33));
    assert!(!chunk_contains(&c, 64, -40));
    assert!(!chunk_contains(&c, 40, -65));
    let edge = ChunkPosition::new(i32::MAX, i32::MAX);
    assert!(chunk_contains(&edge, i32::MAX, i32::MAX));
    assert!(!chunk_contains(&edge, i32::MAX - 1, i32::MAX));
}

#[test]
fn escape_flag_follows_parity_of_presses() {
    let mut released = false;
    for n in 1..=7 {
        let (now, action) = cursor_escape_pressed(released);
        assert_eq!(now, n % 2 == 1);
        assert_eq!(action, if n % 2 == 1 { CursorAction::Unlock } else { CursorAction::Lock });
        released = now;
    }
}
