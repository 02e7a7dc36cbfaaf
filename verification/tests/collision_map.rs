use chimera::board::Board;
use chimera::collision_map::CollisionMap;
use chimera::nav_collision_map;
use chimera::piece::Piece;
use chimera::rotation::Rotation;

#[test]
fn test_collision_map_basic() {
    let board = Board([0u64; 10]);
    let cmap = CollisionMap::new(board, Piece::T);

    // T North at (5, 0) should be free
    assert!(cmap.free(5, 0, Rotation::North));

    // T South at (5, 0) should collide (mino at dy=-1)
    assert!(cmap.collides(5, 0, Rotation::South));

    // T South at (5, 1) should be free
    assert!(cmap.free(5, 1, Rotation::South));

    // Add block at (5, 0)
    let mut board = Board([0u64; 10]);
    board.set(5, 0);
    let cmap = CollisionMap::new(board, Piece::T);

    // T North at (5, 0) should collide (mino at (0, 0))
    assert!(cmap.collides(5, 0, Rotation::North));
    // T North at (6, 0) should collide (mino at (-1, 0))
    assert!(cmap.collides(6, 0, Rotation::North));
    // T North at (4, 0) should collide (mino at (1, 0))
    assert!(cmap.collides(4, 0, Rotation::North));

    let mut board = Board([0u64; 10]);
    board.set(5, 1);
    let cmap = CollisionMap::new(board, Piece::T);
    assert!(cmap.collides(5, 0, Rotation::North));
}

#[test]
fn collision_map_test_collision_map_basic() {
    let board = Board([0u64; 10]);
    let cmap = nav_collision_map::CollisionMap::new::<{ Piece::T as u8 }>(board);

    // T North at (5, 0) should be free
    assert!(cmap.free(5, 0, Rotation::North));

    // T South at (5, 0) should collide (mino at dy=-1)
    assert!(cmap.collides(5, 0, Rotation::South));

    // T South at (5, 1) should be free
    assert!(cmap.free(5, 1, Rotation::South));

    // Add block at (5, 0)
    let mut board = Board([0u64; 10]);
    board.set(5, 0);
    let cmap = nav_collision_map::CollisionMap::new::<{ Piece::T as u8 }>(board);

    // T North at (5, 0) should collide (mino at (0, 0))
    assert!(cmap.collides(5, 0, Rotation::North));
    // T North at (6, 0) should collide (mino at (-1, 0))
    assert!(cmap.collides(6, 0, Rotation::North));
    // T North at (4, 0) should collide (mino at (1, 0))
    assert!(cmap.collides(4, 0, Rotation::North));

    let mut board = Board([0u64; 10]);
    board.set(5, 1);
    let cmap = nav_collision_map::CollisionMap::new::<{ Piece::T as u8 }>(board);
    assert!(cmap.collides(5, 0, Rotation::North));
}

#[test]
fn nav_map_leaves_non_canonical_rotations_empty() {
    let board = Board([0u64; 10]);
    let cmap = nav_collision_map::CollisionMap::new::<{ Piece::S as u8 }>(board);
    // S keeps North and East; South and West stay empty (all free)
    assert!(cmap.collides(0, 0, Rotation::North));
    assert!(cmap.free(0, 0, Rotation::South));
    assert!(cmap.free(0, 0, Rotation::West));
}

#[test]
fn core_map_fills_every_rotation() {
    let board = Board([0u64; 10]);
    let cmap = CollisionMap::new(board, Piece::S);
    // S South covers (x, y - 1): at y = 0 it hits the floor
    assert!(cmap.collides(5, 0, Rotation::South));
    assert!(cmap.free(5, 1, Rotation::South));
    // walls: S North at x = 0 covers column -1
    assert!(cmap.collides(0, 3, Rotation::North));
}

#[test]
fn landed_and_landable_agree() {
    let mut board = Board([0u64; 10]);
    board.set(4, 0);
    let cmap = CollisionMap::new(board, Piece::O);
    // O North at (4, 1) rests on the block at (4, 0)
    assert!(cmap.landed(4, 1, Rotation::North));
    assert!(!cmap.landed(4, 2, Rotation::North));
    assert!(cmap.landed(6, 0, Rotation::North));
    let land = cmap.landable();
    for x in 0..10 {
        for y in 0..6 {
            assert_eq!(land.collides(x, y, Rotation::North), cmap.landed(x, y, Rotation::North));
        }
    }
}
