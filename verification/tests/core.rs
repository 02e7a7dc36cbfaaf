use chimera::bag::Bag;
use chimera::board::Board;
use chimera::buffer::MoveBuffer;
use chimera::data::{kicks_for, x_range};
use chimera::detect::{cell_occupied, spin_max, t_spin_from_corners};
use chimera::header::{fill_high, fill_low};
use chimera::piece::Piece;
use chimera::placement::Move;
use chimera::queue::Queue;
use chimera::collision_map::CollisionMap;
use chimera::render::{cell_shade, covered_cells, draw_cell, CellShade};
use chimera::rotation::{Direction, Rotation};
use chimera::score::{base_score, count_ones, place_and_clear, total_score, ClearTable};
use chimera::spin::Spin;
use chimera::vector::SimdBoard;

const ALL: [Piece; 7] = [Piece::T, Piece::I, Piece::J, Piece::L, Piece::O, Piece::S, Piece::Z];

fn empty() -> Board {
    Board([0u64; 10])
}

fn sorted_cells(m: Move) -> Vec<(u8, u8)> {
    let mut c = m.cells().to_vec();
    c.sort();
    c
}

#[test]
fn queue_push_get_and_slice() {
    let q = Queue::new();
    assert_eq!(q.len(), 0);
    assert!(q.is_empty());
    assert_eq!(q.get(0), None);

    let q = Queue::one(Piece::S);
    assert_eq!(q.len(), 1);
    assert_eq!(q.get(0), Some(Piece::S));
    assert_eq!(q.get(1), None);

    let mut q = Queue::from_slice(&[Piece::T, Piece::I, Piece::J]);
    assert_eq!(q.as_vec(), vec![Piece::T, Piece::I, Piece::J]);
    q.push_front(Piece::O);
    q.push_back(Piece::Z);
    assert_eq!(q.as_vec(), vec![Piece::O, Piece::T, Piece::I, Piece::J, Piece::Z]);
    assert_eq!(q.len(), 5);
    assert_eq!(q.slice(1, 3).as_vec(), vec![Piece::T, Piece::I]);
    assert_eq!(q.slice(3, 9).as_vec(), vec![Piece::J, Piece::Z]);
    assert!(q.slice(6, 8).is_empty());
    assert_eq!(q.to_string(), "OTIJZ");
    assert_eq!(Queue::default(), Queue::new());
}

#[test]
fn queue_holds_twenty_one_pieces() {
    let pieces: Vec<Piece> = (0..21).map(|i| ALL[i % 7]).collect();
    let q = Queue::from_slice(&pieces);
    assert_eq!(q.len(), 21);
    assert_eq!(q.as_vec(), pieces);
    assert_eq!(q.get(20), Some(Piece::Z));
    assert_eq!(q.get(21), None);
    assert_eq!(Queue::from_slice(&ALL).to_string(), "TIJLOSZ");
}

#[test]
fn bag_draws_and_refills() {
    let b = Bag::full();
    assert_eq!(b.0, 0b0111_1111);
    assert_eq!(b.remaining(), ALL.to_vec());
    assert_eq!(b.count(), 7);

    let b = b.draw(Piece::T).draw(Piece::O);
    assert_eq!(b.remaining(), vec![Piece::I, Piece::J, Piece::L, Piece::S, Piece::Z]);
    assert_eq!(b.count(), 5);

    // drawing the last piece starts a new bag
    let last = Bag(1 << 3);
    assert_eq!(last.remaining(), vec![Piece::L]);
    assert_eq!(last.draw(Piece::L), Bag::full());
}

#[test]
fn move_fields_round_trip() {
    for x in 0..10 {
        for y in 0..6 {
            for rot in [Rotation::North, Rotation::East, Rotation::South, Rotation::West] {
                for piece in ALL {
                    for spin in [Spin::NoSpin, Spin::Mini, Spin::Full] {
                        let m = Move::new(x, y, rot, piece, spin);
                        assert_eq!(m.x(), x);
                        assert_eq!(m.y(), y);
                        assert_eq!(m.rot(), rot);
                        assert_eq!(m.piece(), piece);
                        assert_eq!(m.spin(), spin);
                    }
                }
            }
        }
    }
    assert!(!Move::null().is_on_board());
    assert_ne!(Move::null(), Move::new(0, 0, Rotation::North, Piece::T, Spin::NoSpin));
}

#[test]
fn move_cells_and_board_bounds() {
    let m = Move::new(4, 0, Rotation::North, Piece::T, Spin::NoSpin);
    assert_eq!(m.cells(), [(4, 0), (3, 0), (4, 1), (5, 0)]);
    assert!(m.is_on_board());
    assert!(!Move::new(0, 0, Rotation::North, Piece::T, Spin::NoSpin).is_on_board());
    assert!(!Move::new(9, 3, Rotation::North, Piece::I, Spin::NoSpin).is_on_board());
    assert!(!Move::new(4, 0, Rotation::South, Piece::T, Spin::NoSpin).is_on_board());
}

#[test]
fn canonicalize_moves_pivot_and_keeps_cells() {
    let cases = [
        (Piece::S, Rotation::South, (4, 1, Rotation::North)),
        (Piece::S, Rotation::West, (3, 2, Rotation::East)),
        (Piece::Z, Rotation::South, (4, 1, Rotation::North)),
        (Piece::Z, Rotation::West, (3, 2, Rotation::East)),
        (Piece::I, Rotation::South, (3, 2, Rotation::North)),
        (Piece::I, Rotation::West, (4, 3, Rotation::East)),
        (Piece::O, Rotation::East, (4, 1, Rotation::North)),
        (Piece::O, Rotation::South, (3, 1, Rotation::North)),
        (Piece::O, Rotation::West, (3, 2, Rotation::North)),
        (Piece::T, Rotation::West, (4, 2, Rotation::West)),
        (Piece::S, Rotation::East, (4, 2, Rotation::East)),
    ];
    for (piece, rot, (x, y, r)) in cases {
        let m = Move::new(4, 2, rot, piece, Spin::Mini);
        let c = m.canonicalize();
        assert_eq!(c, Move::new(x, y, r, piece, Spin::Mini));
        assert!(c.is_canonical());
        assert_eq!(sorted_cells(c), sorted_cells(m));
    }
    assert!(!Move::new(4, 2, Rotation::South, Piece::S, Spin::NoSpin).is_canonical());
    assert!(!Move::new(4, 2, Rotation::East, Piece::O, Spin::NoSpin).is_canonical());
    assert!(Move::new(4, 2, Rotation::West, Piece::J, Spin::NoSpin).is_canonical());
}

#[test]
fn piece_symmetries() {
    assert_eq!(Piece::I.canonical(Rotation::South), Rotation::North);
    assert_eq!(Piece::S.canonical(Rotation::West), Rotation::East);
    assert_eq!(Piece::O.canonical(Rotation::West), Rotation::North);
    assert_eq!(Piece::L.canonical(Rotation::South), Rotation::South);
    assert_eq!(Piece::I.canonical_rotations(), 2);
    assert_eq!(Piece::O.canonical_rotations(), 1);
    assert_eq!(Piece::T.canonical_rotations(), 4);
    assert!(Piece::Z.is_canonical(Rotation::East));
    assert!(!Piece::Z.is_canonical(Rotation::South));
    for (i, p) in ALL.iter().enumerate() {
        assert_eq!(Piece::from_index(i as u8), *p);
        assert_eq!(p.index(), i);
    }
}

#[test]
fn rotation_turns() {
    assert_eq!(Rotation::North.cw(), Rotation::East);
    assert_eq!(Rotation::West.cw(), Rotation::North);
    assert_eq!(Rotation::North.ccw(), Rotation::West);
    assert_eq!(Rotation::East.flip(), Rotation::West);
    assert_eq!(Rotation::from(6), Rotation::South);
    assert_eq!(Rotation::from(3), Rotation::West);
    assert_eq!(Rotation::North.transition(Rotation::East), Direction::CW);
    assert_eq!(Rotation::North.transition(Rotation::West), Direction::CCW);
    assert_eq!(Rotation::East.transition(Rotation::West), Direction::Flip);
    assert_eq!(Rotation::South.transition(Rotation::South), Direction::NoTurn);
    for r in [Rotation::North, Rotation::East, Rotation::South, Rotation::West] {
        assert_eq!(r.cw().ccw(), r);
        assert_eq!(r.flip().flip(), r);
        assert_eq!(r.cw().cw(), r.flip());
        assert_eq!(r.transition(r.cw()), Direction::CW);
    }
}

#[test]
fn fill_masks() {
    assert_eq!(fill_low(0), 0);
    assert_eq!(fill_low(3), 0b111);
    assert_eq!(fill_low(10), 0b111111);
    assert_eq!(fill_high(0), 0);
    assert_eq!(fill_high(14), 0);
    assert_eq!(fill_high(16), 0b110000);
    assert_eq!(fill_high(20), 0b111111);
}

#[test]
fn piece_extents_and_kicks() {
    assert_eq!(x_range(Piece::T, Rotation::North), (1, 8));
    assert_eq!(x_range(Piece::I, Rotation::North), (1, 7));
    assert_eq!(x_range(Piece::I, Rotation::South), (2, 8));
    assert_eq!(x_range(Piece::I, Rotation::East), (0, 9));
    assert_eq!(x_range(Piece::O, Rotation::North), (0, 8));
    assert_eq!(kicks_for(Piece::T, Rotation::North, Rotation::East), vec![(0, 0), (-1, 0), (-1, 1), (0, -2), (-1, -2)]);
    assert_eq!(kicks_for(Piece::I, Rotation::South, Rotation::West), vec![(-1, 0), (1, 0), (-2, 0), (1, 1), (-2, -2)]);
    assert_eq!(kicks_for(Piece::L, Rotation::North, Rotation::South), vec![(0, 0), (0, 1)]);
    assert_eq!(kicks_for(Piece::O, Rotation::North, Rotation::South), vec![(1, 1)]);
    assert!(kicks_for(Piece::Z, Rotation::East, Rotation::East).is_empty());
}

#[test]
fn board_cells() {
    let mut b = empty();
    assert!(b.is_empty());
    b.set(3, 4);
    assert!(b.get(3, 4));
    assert!(!b.get(4, 3));
    assert_eq!(b.col(3), 1 << 4);
    b.set_many(&[(0, 0), (9, 19)]);
    assert!(b.get(0, 0) && b.get(9, 19));
    b.clear(3, 4);
    assert!(!b.get(3, 4));
    assert!(!b.is_empty());
    assert_eq!(Board::empty(), empty());
}

#[test]
fn board_shifts() {
    let mut b = empty();
    b.0[0] = 0b1;
    b.0[5] = 0b110;
    let up = b.shift_rows(1);
    assert_eq!(up.0[0], 0b11);
    assert_eq!(up.0[5], 0b1101);
    assert_eq!(up.0[1], 0b1);
    let down = b.shift_rows(-1);
    assert_eq!(down.0[0], 0);
    assert_eq!(down.0[5], 0b11);
    let down_far = b.shift_rows(-16);
    assert_eq!(down_far.0[2], 0b110000);
    let right = b.shift_cols(2);
    assert_eq!(right.0[2], 0b1);
    assert_eq!(right.0[7], 0b110);
    assert_eq!(right.0[0], 0);
    let left = b.shift_cols(-5);
    assert_eq!(left.0[0], 0b110);
    assert_eq!(left.0[5], 0);
    assert_eq!(b.shift_cols(10), empty());
    assert_eq!(b.shift(2, 1), b.shift_rows(1).shift_cols(2));
    assert_eq!(b.shift(0, 0), b);
}

#[test]
fn board_apply_fill_and_clear() {
    let mut b = empty();
    b.apply(Move::new(4, 0, Rotation::North, Piece::T, Spin::NoSpin));
    assert!(b.get(3, 0) && b.get(4, 0) && b.get(5, 0) && b.get(4, 1));
    assert_eq!(b.filled_rows() & 0b1111, 0);

    let mut b = empty();
    for x in 0..10 {
        b.set(x, 0);
        b.set(x, 2);
    }
    b.set(3, 1);
    b.set(7, 3);
    assert_eq!(b.filled_rows() & ((1 << 20) - 1), 0b101);
    let c = b.clear_lines(b.filled_rows());
    let mut expected = empty();
    expected.set(3, 0);
    expected.set(7, 1);
    assert_eq!(c, expected);
}

#[test]
fn spin_detection() {
    assert_eq!(spin_max(Spin::NoSpin, Spin::Mini), Spin::Mini);
    assert_eq!(spin_max(Spin::Full, Spin::Mini), Spin::Full);
    assert_eq!(spin_max(Spin::NoSpin, Spin::NoSpin), Spin::NoSpin);
    let b = empty();
    assert!(cell_occupied(b, -1, 0));
    assert!(cell_occupied(b, 10, 3));
    assert!(cell_occupied(b, 0, -1));
    assert!(!cell_occupied(b, 0, 0));
    assert!(!cell_occupied(b, 5, 30));
    assert_eq!(t_spin_from_corners(b, 4, 1, Rotation::North, false), Spin::NoSpin);
    // against the left wall and the floor: three corners, one front corner
    assert_eq!(t_spin_from_corners(b, 0, 0, Rotation::North, false), Spin::Mini);
    assert_eq!(t_spin_from_corners(b, 0, 0, Rotation::North, true), Spin::Full);
    // both front corners of a South T on the floor are occupied
    let mut b = empty();
    b.set(3, 2);
    assert_eq!(t_spin_from_corners(b, 4, 1, Rotation::South, false), Spin::NoSpin);
    b.set(5, 0);
    b.set(3, 0);
    assert_eq!(t_spin_from_corners(b, 4, 1, Rotation::South, false), Spin::Full);
    assert_eq!(t_spin_from_corners(b, 4, 1, Rotation::North, false), Spin::Mini);
}

#[test]
fn simd_board_lanes() {
    let mut b = empty();
    b.0[3] = 0b101;
    b.0[9] = 0b1;
    let s = SimdBoard::from_board(b);
    assert_eq!(s.to_board(), b);
    assert!(!s.is_empty());
    assert!(SimdBoard::from_board(empty()).is_empty());
    assert_eq!(s.shift_left().to_board().0[2], 0b101);
    assert_eq!(s.shift_left().to_board().0[9], 0);
    assert_eq!(s.shift_right().to_board().0[4], 0b101);
    assert_eq!(s.shift_right().to_board().0[0], 0);
    assert_eq!(s.shift_down().to_board().0[3], 0b10);
    assert_eq!(s.shift_up().to_board().0[3], 0b1010);
    assert!(s == SimdBoard::from_board(b));
    assert!(s != s.shift_up());
    let t = SimdBoard::from_board(b.shift_cols(1));
    assert_eq!((s | t).to_board().0[4], 0b101);
    assert_eq!((s & t).to_board().0[3], 0);
    assert_eq!((s ^ s).to_board(), empty());
    assert_eq!((!s).to_board().0[0], u64::MAX);
    let mut u = s;
    u |= t;
    assert!(u == (s | t));
    u &= t;
    assert!(u == t);
    u ^= t;
    assert!(u.is_empty());
}

#[test]
fn board_bit_operators() {
    let mut a = empty();
    a.set(1, 1);
    a.set(2, 2);
    let mut b = empty();
    b.set(2, 2);
    b.set(3, 3);
    let or = a | b;
    assert!(or.get(1, 1) && or.get(2, 2) && or.get(3, 3));
    let and = a & b;
    let mut only = empty();
    only.set(2, 2);
    assert_eq!(and, only);
    assert_eq!((!empty()).0, [u64::MAX; 10]);
    let mut c = a;
    c |= b;
    assert_eq!(c, or);
    c &= a;
    assert_eq!(c, a);
}

#[test]
fn move_buffer_operations() {
    let mut buf = MoveBuffer::new();
    assert!(buf.is_empty());
    let a = Move::new(1, 0, Rotation::North, Piece::T, Spin::NoSpin);
    let b = Move::new(2, 0, Rotation::North, Piece::T, Spin::NoSpin);
    let c = Move::new(3, 0, Rotation::North, Piece::T, Spin::NoSpin);
    buf.push(a);
    buf.push(b);
    buf.push(c);
    assert_eq!(buf.len(), 3);
    assert_eq!(buf.as_slice(), &[a, b, c]);
    assert_eq!(buf.get(1), b);
    buf.as_slice_mut()[1] = a;
    assert_eq!(buf.get(1), a);
    let mut it = buf.iter();
    assert_eq!(it.next(), Some(a));
    assert_eq!(it.next(), Some(a));
    assert_eq!(it.next(), Some(c));
    assert_eq!(it.next(), None);
    buf.retain(|m| m.x() != 1);
    assert_eq!(buf.as_slice(), &[c]);
    buf.clear();
    assert_eq!(buf.len(), 0);
    assert_eq!(MoveBuffer::default().len(), 0);
}

fn table() -> ClearTable {
    ClearTable {
        single: 100,
        double: 300,
        triple: 500,
        quad: 800,
        spin_zero: 400,
        spin_mini: 100,
        spin_mini_single: 200,
        spin_single: 800,
        spin_mini_double: 400,
        spin_double: 1200,
        spin_mini_triple: 600,
        spin_triple: 1600,
        spin_mini_quad: 900,
        spin_quad: 2000,
    }
}

#[test]
fn scoring_tables() {
    let t = table();
    assert_eq!(ClearTable::blitz(), t);
    assert_eq!(base_score(&t, 0, Spin::NoSpin), 0);
    assert_eq!(base_score(&t, 0, Spin::Full), 400);
    assert_eq!(base_score(&t, 1, Spin::Mini), 200);
    assert_eq!(base_score(&t, 2, Spin::Full), 1200);
    assert_eq!(base_score(&t, 3, Spin::NoSpin), 500);
    assert_eq!(base_score(&t, 4, Spin::NoSpin), 800);
    assert_eq!(base_score(&t, 4, Spin::Full), 2000);
    // base 800, extra 400, two combos of 50, a perfect clear, level 2 scaled by 1
    assert_eq!(total_score(800, 400, 2, 50, true, 3500, 2, 1), (800 + 400 + 100 + 3500) * 2);
    assert_eq!(total_score(800, 0, 0, 50, false, 3500, 7, 0), 800);
    assert_eq!(count_ones(0), 0);
    assert_eq!(count_ones(0b1011), 3);
    assert_eq!(count_ones(u64::MAX), 64);
}

#[test]
fn placing_clears_rows() {
    let mut b = empty();
    for x in [0, 1, 2, 3, 8, 9] {
        b.set(x, 0);
    }
    let (after, cleared, pc) = place_and_clear(b, Move::new(5, 0, Rotation::North, Piece::I, Spin::NoSpin));
    assert_eq!(cleared, 1);
    assert!(pc);
    assert_eq!(after, empty());

    b.set(0, 1);
    let (after, cleared, pc) = place_and_clear(b, Move::new(5, 0, Rotation::North, Piece::I, Spin::NoSpin));
    assert_eq!(cleared, 1);
    assert!(!pc);
    let mut expected = empty();
    expected.set(0, 0);
    assert_eq!(after, expected);

    let (_, cleared, _) = place_and_clear(empty(), Move::new(4, 0, Rotation::North, Piece::T, Spin::NoSpin));
    assert_eq!(cleared, 0);
}

#[test]
fn cell_shades() {
    let mut b = empty();
    b.set(0, 0);
    let m = Move::new(4, 1, Rotation::North, Piece::T, Spin::NoSpin);
    assert_eq!(cell_shade(b, Some(m), 0, 0), CellShade::Filled);
    assert_eq!(cell_shade(b, Some(m), 4, 1), CellShade::Center);
    assert_eq!(cell_shade(b, Some(m), 3, 1), CellShade::Piece);
    assert_eq!(cell_shade(b, Some(m), 4, 2), CellShade::Piece);
    assert_eq!(cell_shade(b, Some(m), 4, 0), CellShade::Empty);
    assert_eq!(cell_shade(b, None, 4, 1), CellShade::Empty);
}

#[test]
fn covered_cells_of_free_pivots() {
    let mut b = empty();
    for x in 0..10 {
        for y in 1..20 {
            b.set(x, y);
        }
    }
    b.clear(4, 1);
    // only the pivots on row 0 and (4, 1) are free for an O piece
    let map = CollisionMap::new(b, Piece::O);
    let cov = covered_cells(&map, Rotation::North, Piece::O);
    // O North at (x, 0) covers (x, 0), (x + 1, 0), (x, 1), (x + 1, 1): it
    // collides everywhere, since row 1 is filled.
    assert!(cov.is_empty());
    let map = CollisionMap::new(empty(), Piece::I);
    let cov = covered_cells(&map, Rotation::East, Piece::I);
    // I East covers rows y - 2..=y + 1, so every cell of the 20 rows is covered
    for x in 0..10 {
        for y in 0..20 {
            assert!(cov.get(x, y));
        }
        assert!(!cov.get(x, 20));
    }
}

#[test]
fn draw_cell_colours() {
    assert_eq!(draw_cell(Piece::T, true), "\x1b[48;2;255;127;255m<>\x1b[0m");
    assert_eq!(draw_cell(Piece::I, false), "\x1b[48;2;127;255;255m  \x1b[0m");
}

#[test]
fn move_buffer_mutable_access() {
    let mut buf = MoveBuffer::new();
    let a = Move::new(1, 0, Rotation::North, Piece::T, Spin::NoSpin);
    let b = Move::new(2, 0, Rotation::North, Piece::T, Spin::NoSpin);
    let c = Move::new(3, 0, Rotation::North, Piece::T, Spin::NoSpin);
    buf.push(a);
    buf.push(b);
    buf.as_slice_mut()[1] = c;
    assert_eq!(buf.as_slice(), &[a, c]);
    let mut it = buf.iter_mut();
    if let Some(m) = it.next() {
        *m = b;
    }
    assert!(it.next().is_some());
    assert!(it.next().is_none());
    assert_eq!(buf.as_slice(), &[b, c]);
}

#[test]
fn kicks_follow_the_srs_table() {
    assert_eq!(kicks_for(Piece::T, Rotation::East, Rotation::North), vec![(0, 0), (1, 0), (1, -1), (0, 2), (1, 2)]);
    assert_eq!(kicks_for(Piece::L, Rotation::South, Rotation::East), vec![(0, 0), (-1, 0), (-1, 1), (0, -2), (-1, -2)]);
    assert_eq!(kicks_for(Piece::Z, Rotation::West, Rotation::South), vec![(0, 0), (-1, 0), (-1, -1), (0, 2), (-1, 2)]);
    assert_eq!(kicks_for(Piece::I, Rotation::East, Rotation::North), vec![(-1, 0), (1, 0), (-2, 0), (1, 1), (-2, -2)]);
    assert_eq!(kicks_for(Piece::I, Rotation::South, Rotation::East), vec![(0, 1), (1, 1), (-2, 1), (1, -1), (-2, 2)]);
    let rots = [Rotation::North, Rotation::East, Rotation::South, Rotation::West];
    for piece in ALL {
        for a in rots {
            for b in rots {
                let there = kicks_for(piece, a, b);
                let back = kicks_for(piece, b, a);
                assert_eq!(there.len(), back.len());
                for (k, r) in there.iter().zip(back.iter()) {
                    assert_eq!((-k.0, -k.1), *r);
                }
                assert_eq!(there.is_empty(), a == b);
            }
        }
    }
}

#[test]
fn simd_padding_is_not_data() {
    let mut b = empty();
    b.0[9] = 0b1;
    let s = SimdBoard::from_board(b).shift_right();
    assert_eq!(s.to_board(), empty());
    assert!(s.is_empty());
}

#[test]
fn queues_with_the_same_pieces_are_equal() {
    for p in ALL {
        assert!(Queue::one(p) == Queue::from_slice(&[p]));
        assert_eq!(Queue::one(p).as_vec(), vec![p]);
    }
    let mut q = Queue::from_slice(&[Piece::I, Piece::O]);
    q.push_front(Piece::T);
    assert!(q == Queue::from_slice(&[Piece::T, Piece::I, Piece::O]));
    assert!(q != Queue::from_slice(&[Piece::T, Piece::I]));
}

#[test]
fn null_move_fields() {
    let n = Move::null();
    assert_eq!(n.x(), 15);
    assert_eq!(n.y(), 7);
    assert_eq!(n.rot(), Rotation::West);
    assert!(!n.valid());
    assert!(Move::new(3, 2, Rotation::East, Piece::L, Spin::Full).valid());
}
