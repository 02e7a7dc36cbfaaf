use vstd::prelude::*;
use crate::board::Board;
use crate::collision_map::CollisionMap;
use crate::data::{piece_cells, piece_cells_spec, lemma_piece_cells_bounded};
use crate::header::bit;
use crate::piece::Piece;
use crate::placement::{Move, covers};
use crate::rotation::{Rotation, rot_index};

verus! {

/// The ANSI escape that sets the background colour of `piece`.
pub open spec fn piece_color(piece: Piece) -> Seq<char> {
    match piece {
        Piece::Z => "\x1b[48;2;255;127;127m"@,
        Piece::L => "\x1b[48;2;255;192;127m"@,
        Piece::O => "\x1b[48;2;255;255;127m"@,
        Piece::S => "\x1b[48;2;127;255;127m"@,
        Piece::I => "\x1b[48;2;127;255;255m"@,
        Piece::J => "\x1b[48;2;127;127;255m"@,
        Piece::T => "\x1b[48;2;255;127;255m"@,
    }
}

/// Distinct pieces are drawn in distinct colours, each an ANSI 24-bit
/// background escape; L is orange (255, 192, 127) and J blue
/// (127, 127, 255).
pub proof fn lemma_piece_colors_distinct()
    ensures
        forall|p: Piece, q: Piece| #[trigger] piece_color(p) == #[trigger] piece_color(q) ==> p == q,
        forall|p: Piece| (#[trigger] piece_color(p)).len() == 19 && piece_color(p).subrange(0, 7) == "\x1b[48;2;"@
            && piece_color(p)[18] == 'm',
        piece_color(Piece::L).subrange(7, 18) == "255;192;127"@,
        piece_color(Piece::J).subrange(7, 18) == "127;127;255"@,
{
    reveal_strlit("\x1b[48;2;255;127;127m");
    reveal_strlit("\x1b[48;2;255;192;127m");
    reveal_strlit("\x1b[48;2;255;255;127m");
    reveal_strlit("\x1b[48;2;127;255;127m");
    reveal_strlit("\x1b[48;2;127;255;255m");
    reveal_strlit("\x1b[48;2;127;127;255m");
    reveal_strlit("\x1b[48;2;255;127;255m");
    reveal_strlit("\x1b[48;2;");
    reveal_strlit("255;192;127");
    reveal_strlit("127;127;255");
    assert forall|p: Piece, q: Piece| #[trigger] piece_color(p) == #[trigger] piece_color(q) implies p == q by {
        let a = piece_color(p);
        let b = piece_color(q);
        assert(a[7] == b[7] && a[11] == b[11] && a[12] == b[12] && a[15] == b[15]);
    }
    assert forall|p: Piece| (#[trigger] piece_color(p)).len() == 19 && piece_color(p).subrange(0, 7) == "\x1b[48;2;"@
        && piece_color(p)[18] == 'm' by {
        assert(piece_color(p).subrange(0, 7) =~= "\x1b[48;2;"@);
    }
    assert(piece_color(Piece::L).subrange(7, 18) =~= "255;192;127"@);
    assert(piece_color(Piece::J).subrange(7, 18) =~= "127;127;255"@);
}

/// One cell drawn in `piece`'s colour: `<>` at the center, two spaces
/// elsewhere, followed by the reset escape.
pub fn draw_cell(piece: Piece, is_center: bool) -> (s: String)
    ensures
        s@ == piece_color(piece) + (if is_center { "<>"@ } else { "  "@ }) + "\x1b[0m"@,
{
    let l = match piece {
        Piece::Z => "\x1b[48;2;255;127;127m",
        Piece::L => "\x1b[48;2;255;192;127m",
        Piece::O => "\x1b[48;2;255;255;127m",
        Piece::S => "\x1b[48;2;127;255;127m",
        Piece::I => "\x1b[48;2;127;255;255m",
        Piece::J => "\x1b[48;2;127;127;255m",
        Piece::T => "\x1b[48;2;255;127;255m",
    };
    let c = if is_center { "<>" } else { "  " };
    let mut s = String::from_str(l);
    s.append(c);
    s.append("\x1b[0m");
    s
}

} // verus!

verus! {

/// What a cell of a drawn board shows.
#[derive(Clone, Copy, PartialEq, Eq, Debug, Structural)]
pub enum CellShade {
    /// Nothing.
    Empty,
    /// A filled cell of the board.
    Filled,
    /// A cell of the placement.
    Piece,
    /// The placement's pivot cell.
    Center,
}

/// What cell `(x, y)` shows when `board` is drawn with `placement` on it:
/// filled cells first, then the placement's cells, its pivot marked.
pub open spec fn shade_spec(board: Board, placement: Option<Move>, x: int, y: int) -> CellShade {
    if board.cell(x, y) {
        CellShade::Filled
    } else {
        match placement {
            Some(p) => if p.occupies(x, y) {
                if p.x_spec() == x && p.y_spec() == y {
                    CellShade::Center
                } else {
                    CellShade::Piece
                }
            } else {
                CellShade::Empty
            },
            None => CellShade::Empty,
        }
    }
}

/// What cell `(x, y)` shows when `board` is drawn with `placement` on it.
pub fn cell_shade(board: Board, placement: Option<Move>, x: usize, y: usize) -> (s: CellShade)
    requires
        x < 10,
        y < 64,
        placement matches Some(p) ==> p.is_valid(),
    ensures
        s == shade_spec(board, placement, x as int, y as int),
{
    if board.get(x, y) {
        return CellShade::Filled;
    }
    match placement {
        Some(p) => {
            let offsets = piece_cells(p.piece(), p.rot());
            let px = p.x();
            let py = p.y();
            proof {
                lemma_piece_cells_bounded(p.piece_spec(), p.rot_spec());
                Move::lemma_field_bounds_of(p);
            }
            let mut hit = false;
            let mut i: usize = 0;
            while i < 4
                invariant
                    i <= 4,
                    px == p.x_spec(),
                    py == p.y_spec(),
                    px < 16,
                    py < 8,
                    x < 10,
                    y < 64,
                    offsets@ == piece_cells_spec(p.piece_spec(), p.rot_spec()),
                    forall|k: int| 0 <= k < 4 ==> -2 <= (#[trigger] offsets@[k]).0 <= 2 && -2 <= offsets@[k].1 <= 2,
                    hit == exists|k: int| 0 <= k < i && #[trigger] p.cell_at(k) == (x as int, y as int),
                decreases 4 - i,
            {
                let (dx, dy) = offsets[i];
                let cx = px as i16 + dx as i16;
                let cy = py as i16 + dy as i16;
                assert(p.cell_at(i as int) == (cx as int, cy as int));
                if cx == x as i16 && cy == y as i16 {
                    hit = true;
                }
                i += 1;
            }
            proof {
                if p.occupies(x as int, y as int) {
                    let k = if p.cell_at(0) == (x as int, y as int) { 0int } else if p.cell_at(1) == (x as int, y as int) {
                        1int
                    } else if p.cell_at(2) == (x as int, y as int) { 2int } else { 3int };
                    assert(p.cell_at(k) == (x as int, y as int));
                }
            }
            if hit {
                if px == x && py == y {
                    CellShade::Center
                } else {
                    CellShade::Piece
                }
            } else {
                CellShade::Empty
            }
        },
        None => CellShade::Empty,
    }
}

/// Whether some pivot `(px, py)` in the first twenty rows that is free in
/// `map` for rotation `rot` places a cell of `piece` at `(cx, cy)`.
pub open spec fn covered(map: CollisionMap, rot: Rotation, piece: Piece, cx: int, cy: int) -> bool {
    exists|px: int, py: int| 0 <= px < 10 && 0 <= py < 20 && !bit(map.0[rot_index(rot)].0[px], py as u64)
        && #[trigger] covers(piece, rot, px, py, cx, cy)
}

/// Whether one of the first `n` pivots (numbered `px * 20 + py`) is free and
/// places a cell of `piece` at `(cx, cy)`.
spec fn covered_below(map: CollisionMap, rot: Rotation, piece: Piece, n: int, cx: int, cy: int) -> bool {
    exists|j: int| 0 <= j < n && !bit(map.0[rot_index(rot)].0[j / 20], (j % 20) as u64)
        && #[trigger] covers(piece, rot, j / 20, j % 20, cx, cy)
}

/// The cells of the first twenty rows that some free pivot of `map` in
/// rotation `rot` covers with a cell of `piece`.
pub fn covered_cells(map: &CollisionMap, rot: Rotation, piece: Piece) -> (r: Board)
    ensures
        forall|cx: int, cy: int| #[trigger] r.cell(cx, cy) == (0 <= cx < 10 && 0 <= cy < 20 && covered(*map, rot, piece, cx, cy)),
{
    let offsets = piece_cells(piece, rot);
    let cols = map.0[rot.index()];
    proof {
        lemma_piece_cells_bounded(piece, rot);
    }
    let mut r = Board([0u64; 10]);
    proof {
        assert forall|cx: int, cy: int| #[trigger] r.cell(cx, cy) == (0 <= cx < 10 && 0 <= cy < 20
            && covered_below(*map, rot, piece, 0, cx, cy)) by {
            if 0 <= cx < 10 && 0 <= cy < 64 {
                crate::header::lemma_bit_zero(cy as u64);
            }
        }
    }
    let mut k: usize = 0;
    while k < 200
        invariant
            k <= 200,
            cols == map.0[rot_index(rot)],
            offsets@ == piece_cells_spec(piece, rot),
            forall|j: int| 0 <= j < 4 ==> -2 <= (#[trigger] offsets@[j]).0 <= 2 && -2 <= offsets@[j].1 <= 2,
            forall|cx: int, cy: int| #[trigger] r.cell(cx, cy) == (0 <= cx < 10 && 0 <= cy < 20
                && covered_below(*map, rot, piece, k as int, cx, cy)),
        decreases 200 - k,
    {
        let px = k / 20;
        let py = k % 20;
        let free = (cols.0[px] >> (py as u64)) & 1 == 0;
        proof {
            crate::header::lemma_bit_test(cols.0[px as int], py as u64);
        }
        let ghost r0 = r;
        let mut i: usize = 0;
        while i < 4
            invariant
                i <= 4,
                k < 200,
                px == k / 20,
                py == k % 20,
                px < 10,
                py < 20,
                offsets@ == piece_cells_spec(piece, rot),
                forall|j: int| 0 <= j < 4 ==> -2 <= (#[trigger] offsets@[j]).0 <= 2 && -2 <= offsets@[j].1 <= 2,
                forall|cx: int, cy: int| #[trigger] r.cell(cx, cy) == (r0.cell(cx, cy) || (free && 0 <= cx < 10 && 0 <= cy < 20
                    && exists|j: int| 0 <= j < i && (px + offsets@[j].0, py + offsets@[j].1) == (cx, cy))),
            decreases 4 - i,
        {
            let (dx, dy) = offsets[i];
            let cx = px as i16 + dx as i16;
            let cy = py as i16 + dy as i16;
            let ghost r1 = r;
            if free && 0 <= cx && cx < 10 && 0 <= cy && cy < 20 {
                r.set(cx as usize, cy as usize);
            }
            proof {
                assert forall|ax: int, ay: int| #[trigger] r.cell(ax, ay) == (r0.cell(ax, ay) || (free && 0 <= ax < 10 && 0 <= ay < 20
                    && exists|j: int| 0 <= j < i + 1 && (px + offsets@[j].0, py + offsets@[j].1) == (ax, ay))) by {
                    if exists|j: int| 0 <= j < i + 1 && (px + offsets@[j].0, py + offsets@[j].1) == (ax, ay) {
                        let j = choose|j: int| 0 <= j < i + 1 && (px + offsets@[j].0, py + offsets@[j].1) == (ax, ay);
                        if j < i {
                            assert(exists|j2: int| 0 <= j2 < i && (px + offsets@[j2].0, py + offsets@[j2].1) == (ax, ay));
                        }
                    }
                    if exists|j: int| 0 <= j < i && (px + offsets@[j].0, py + offsets@[j].1) == (ax, ay) {
                        let j = choose|j: int| 0 <= j < i && (px + offsets@[j].0, py + offsets@[j].1) == (ax, ay);
                        assert(0 <= j < i + 1);
                    }
                }
            }
            i += 1;
        }
        proof {
            let c = piece_cells_spec(piece, rot);
            assert forall|cx: int, cy: int| #[trigger] r.cell(cx, cy) == (0 <= cx < 10 && 0 <= cy < 20
                && covered_below(*map, rot, piece, k + 1, cx, cy)) by {
                let here = free && covers(piece, rot, px as int, py as int, cx, cy);
                assert((exists|j: int| 0 <= j < 4 && (px + offsets@[j].0, py + offsets@[j].1) == (cx, cy))
                    == covers(piece, rot, px as int, py as int, cx, cy)) by {
                    if covers(piece, rot, px as int, py as int, cx, cy) {
                        if (px + c[0].0, py + c[0].1) == (cx, cy) {
                            assert(0 <= 0int < 4);
                        } else if (px + c[1].0, py + c[1].1) == (cx, cy) {
                            assert(0 <= 1int < 4);
                        } else if (px + c[2].0, py + c[2].1) == (cx, cy) {
                            assert(0 <= 2int < 4);
                        } else {
                            assert(0 <= 3int < 4);
                        }
                    }
                }
                assert(k as int / 20 == px && k as int % 20 == py);
                if covered_below(*map, rot, piece, k + 1, cx, cy) {
                    let j = choose|j: int| 0 <= j < k + 1 && !bit(map.0[rot_index(rot)].0[j / 20], (j % 20) as u64)
                        && #[trigger] covers(piece, rot, j / 20, j % 20, cx, cy);
                    if j < k {
                        assert(covered_below(*map, rot, piece, k as int, cx, cy));
                    }
                }
                if covered_below(*map, rot, piece, k as int, cx, cy) {
                    let j = choose|j: int| 0 <= j < k && !bit(map.0[rot_index(rot)].0[j / 20], (j % 20) as u64)
                        && #[trigger] covers(piece, rot, j / 20, j % 20, cx, cy);
                    assert(0 <= j < k + 1);
                }
                if here {
                    assert(covers(piece, rot, (k as int) / 20, (k as int) % 20, cx, cy));
                }
            }
        }
        k += 1;
    }
    proof {
        assert forall|cx: int, cy: int| covered_below(*map, rot, piece, 200, cx, cy) == covered(*map, rot, piece, cx, cy) by {
            if covered_below(*map, rot, piece, 200, cx, cy) {
                let j = choose|j: int| 0 <= j < 200 && !bit(map.0[rot_index(rot)].0[j / 20], (j % 20) as u64)
                    && #[trigger] covers(piece, rot, j / 20, j % 20, cx, cy);
                assert(0 <= j / 20 < 10 && 0 <= j % 20 < 20);
            }
            if covered(*map, rot, piece, cx, cy) {
                let (px, py) = choose|px: int, py: int| 0 <= px < 10 && 0 <= py < 20 && !bit(map.0[rot_index(rot)].0[px], py as u64)
                    && #[trigger] covers(piece, rot, px, py, cx, cy);
                let j = px * 20 + py;
                assert(j / 20 == px && j % 20 == py && 0 <= j < 200) by (nonlinear_arith)
                    requires j == px * 20 + py, 0 <= px < 10, 0 <= py < 20;
            }
        }
    }
    r
}

} // verus!
