use chimera::board::Board;
use chimera::buffer::MoveBuffer;
use chimera::global::movegen;
use chimera::instant;
use chimera::piece::Piece;
use chimera::spin::{Spin, Spins};
use chimera::perft::{perft, play};
use chimera::placement::Move;
use chimera::queue::Queue;
use chimera::rotation::Rotation;

fn count(piece: Piece) -> usize {
    let board = Board([0u64; 10]);
    let mut out = MoveBuffer::new();
    movegen(board, piece, Spins::T, &mut out);
    out.len()
}

#[test]
fn d1_t() {
    assert_eq!(count(Piece::T), 34);
}

#[test]
fn d1_i() {
    assert_eq!(count(Piece::I), 17);
}

#[test]
fn d1_j() {
    assert_eq!(count(Piece::J), 34);
}

#[test]
fn d1_l() {
    assert_eq!(count(Piece::L), 34);
}

#[test]
fn d1_o() {
    assert_eq!(count(Piece::O), 9);
}

#[test]
fn d1_s() {
    assert_eq!(count(Piece::S), 17);
}

#[test]
fn d1_z() {
    assert_eq!(count(Piece::Z), 17);
}

#[test]
fn movegen_outputs_are_canonical_landed_and_distinct() {
    let mut board = Board([0u64; 10]);
    board.set_many(&[(0, 0), (1, 0), (2, 0), (4, 0), (5, 0), (6, 0), (7, 0), (8, 0), (9, 0)]);
    for piece in [Piece::T, Piece::I, Piece::J, Piece::L, Piece::O, Piece::S, Piece::Z] {
        let mut out = MoveBuffer::new();
        movegen(board, piece, Spins::All, &mut out);
        let moves = out.as_slice();
        for (i, m) in moves.iter().enumerate() {
            assert!(m.is_canonical());
            assert_eq!(m.piece(), piece);
            for other in &moves[i + 1..] {
                assert_ne!(m, other);
            }
            let cells = m.cells();
            for &(x, y) in cells.iter() {
                assert!(x < 10);
                assert!(!board.get(x as usize, y as usize));
            }
        }
    }
}

#[test]
fn t_spin_slot_is_found() {
    // A T-spin double slot: rows 0 and 1 filled except columns 3..=5 on row 1
    // and column 4 on row 0, with an overhang at (3, 2).
    let mut board = Board([0u64; 10]);
    for x in 0..10 {
        if x != 4 {
            board.set(x, 0);
        }
        if x < 3 || x > 5 {
            board.set(x, 1);
        }
    }
    board.set(3, 2);
    board.set(2, 2);
    let mut out = MoveBuffer::new();
    movegen(board, Piece::T, Spins::T, &mut out);
    let spun = out.as_slice().iter().any(|m| m.spin() == Spin::Full && m.x() == 4 && m.y() == 1);
    assert!(spun);
    let mut plain = MoveBuffer::new();
    movegen(board, Piece::T, Spins::NoSpins, &mut plain);
    assert!(plain.as_slice().iter().all(|m| m.spin() == Spin::NoSpin));
}

#[test]
fn blocked_spawn_gives_nothing() {
    let mut board = Board([0u64; 10]);
    for x in 0..10 {
        for y in 0..6 {
            board.set(x, y);
        }
    }
    let mut out = MoveBuffer::new();
    movegen(board, Piece::T, Spins::T, &mut out);
    assert_eq!(out.len(), 0);
}

#[test]
fn perft_counts_placements() {
    let board = Board([0u64; 10]);
    assert_eq!(perft(board, Queue::from_slice(&[Piece::T]), 0), 0);
    assert_eq!(perft(board, Queue::new(), 3), 0);
    let expected = [34, 17, 34, 34, 9, 17, 17];
    for (piece, n) in [Piece::T, Piece::I, Piece::J, Piece::L, Piece::O, Piece::S, Piece::Z].into_iter().zip(expected) {
        assert_eq!(perft(board, Queue::one(piece), 1), n);
        // a longer queue does not matter at depth one
        assert_eq!(perft(board, Queue::from_slice(&[piece, Piece::O]), 1), n);
    }
}

#[test]
fn perft_depth_two_sums_children() {
    let board = Board([0u64; 10]);
    let mut out = MoveBuffer::new();
    movegen(board, Piece::O, Spins::T, &mut out);
    let mut expected = out.len();
    for m in out.as_slice() {
        let child = play(board, *m);
        let mut inner = MoveBuffer::new();
        movegen(child, Piece::I, Spins::T, &mut inner);
        expected += inner.len();
    }
    assert_eq!(perft(board, Queue::from_slice(&[Piece::O, Piece::I]), 2), expected);
}

#[test]
fn play_places_and_clears() {
    let mut board = Board([0u64; 10]);
    for x in [0, 1, 2, 3, 8, 9] {
        board.set(x, 0);
    }
    board.set(2, 1);
    let after = play(board, Move::new(5, 0, Rotation::North, Piece::I, Spin::NoSpin));
    let mut expected = Board([0u64; 10]);
    expected.set(2, 0);
    assert_eq!(after, expected);
}

#[test]
fn instant_finds_every_floor_placement_of_an_empty_board() {
    let board = Board([0u64; 10]);
    let expected = [34, 17, 34, 34, 9, 17, 17];
    for (piece, n) in [Piece::T, Piece::I, Piece::J, Piece::L, Piece::O, Piece::S, Piece::Z].into_iter().zip(expected) {
        let mut out = MoveBuffer::new();
        instant::movegen(board, piece, &mut out);
        assert_eq!(out.len(), n);
        for m in out.as_slice() {
            assert_eq!(m.spin(), Spin::NoSpin);
            assert!(m.is_canonical());
        }
    }
}

#[test]
fn instant_placements_are_global_placements() {
    let mut board = Board([0u64; 10]);
    for x in 0..10 {
        if x != 4 {
            board.set(x, 0);
        }
        if x < 3 || x > 5 {
            board.set(x, 1);
        }
    }
    board.set(3, 2);
    board.set(2, 2);
    for piece in [Piece::T, Piece::I, Piece::J, Piece::L, Piece::O, Piece::S, Piece::Z] {
        let mut fast = MoveBuffer::new();
        instant::movegen(board, piece, &mut fast);
        let mut all = MoveBuffer::new();
        movegen(board, piece, Spins::NoSpins, &mut all);
        assert!(fast.len() <= all.len());
        for m in fast.as_slice() {
            assert!(all.as_slice().contains(m));
        }
    }
}

#[test]
fn instant_cannot_stop_in_mid_air() {
    // A cave under a ledge at row 3, above a step at row 0, over columns
    // 0..=2: an O enters it only by sliding left while held at row 1, which
    // infinite gravity does not allow.
    let mut board = Board([0u64; 10]);
    for x in 0..3 {
        board.set(x, 0);
        board.set(x, 3);
    }
    let mut fast = MoveBuffer::new();
    instant::movegen(board, Piece::O, &mut fast);
    let mut all = MoveBuffer::new();
    movegen(board, Piece::O, Spins::NoSpins, &mut all);
    let cave = Move::new(1, 1, Rotation::North, Piece::O, Spin::NoSpin);
    assert!(all.as_slice().contains(&cave));
    assert!(!fast.as_slice().contains(&cave));
    assert!(fast.as_slice().contains(&Move::new(3, 0, Rotation::North, Piece::O, Spin::NoSpin)));
}

#[test]
fn instant_blocked_spawn_gives_nothing() {
    let mut board = Board([0u64; 10]);
    for x in 0..10 {
        for y in 0..6 {
            board.set(x, y);
        }
    }
    let mut out = MoveBuffer::new();
    out.push(Move::null());
    instant::movegen(board, Piece::T, &mut out);
    assert!(out.is_empty());
}
