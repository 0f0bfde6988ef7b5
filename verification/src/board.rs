//! Bit-packed 5x5 board: 25 cells of 2 bits each (0 empty, 1 attacker,
//! 2 defender, 3 king) stored row-major from the high end of a `u64`, plus a
//! side-to-move bit. All operations return new values; the packed integer is
//! usable directly as a transposition-table key.

use vstd::prelude::*;

pub use crate::tmove::TMove;

verus! {

/// Shift amount of the 2-bit cell `(x, y)`: cell index `y * 5 + x`, stored
/// from bit 48 downward.
pub open spec fn sq_shift(x: int, y: int) -> u64 {
    (48 - 2 * (y * 5 + x)) as u64
}

/// Value of cell `(x, y)` of the packed board `b`.
pub open spec fn cell_of(b: u64, x: int, y: int) -> u8 {
    (((b >> sq_shift(x, y)) & 3) as u8)
}

/// The packed board `b` with cell `(x, y)` set to `v`, all other bits kept.
pub open spec fn with_cell(b: u64, x: int, y: int, v: u8) -> u64 {
    (b & !(3u64 << sq_shift(x, y))) | ((v as u64) << sq_shift(x, y))
}

/// Side to move: 0 = defenders, 1 = attackers (bit 50).
pub open spec fn player_of(b: u64) -> u8 {
    (((b >> 50) & 1) as u8)
}

/// The packed board `b` with the side-to-move bit flipped.
pub open spec fn flip_player(b: u64) -> u64 {
    b ^ (1u64 << 50)
}

/// The packed board `b` with the side-to-move bit set to `p`.
pub open spec fn with_player(b: u64, p: u8) -> u64 {
    (b & !(1u64 << 50)) | ((p as u64) << 50)
}

proof fn lemma_with_cell_bits(b: u64, v: u64, s: u64, t: u64)
    by (bit_vector)
    requires
        s <= 48,
        t <= 48,
        s % 2 == 0,
        t % 2 == 0,
        v <= 3,
    ensures
        s == t ==> (((b & !(3u64 << s)) | (v << s)) >> t) & 3 == v,
        s != t ==> (((b & !(3u64 << s)) | (v << s)) >> t) & 3 == (b >> t) & 3,
        (((b & !(3u64 << s)) | (v << s)) >> 50) & 1 == (b >> 50) & 1,
{
}

proof fn lemma_flip_player_bits(b: u64, t: u64)
    by (bit_vector)
    requires
        t <= 48,
    ensures
        ((b ^ (1u64 << 50)) >> t) & 3 == (b >> t) & 3,
        ((b ^ (1u64 << 50)) >> 50) & 1 == ((b >> 50) & 1) ^ 1,
        (b >> 50) & 1 <= 1,
{
}

/// A cell value fits in two bits.
pub proof fn lemma_cell_le_3(b: u64, x: int, y: int)
    ensures
        cell_of(b, x, y) <= 3,
{
    let s = sq_shift(x, y);
    assert((b >> s) & 3 <= 3) by (bit_vector);
}

/// The side-to-move field is a single bit.
pub proof fn lemma_player_le_1(b: u64)
    ensures
        player_of(b) <= 1,
{
    assert((b >> 50) & 1 <= 1) by (bit_vector);
}

proof fn lemma_sq_shift_props(x: int, y: int)
    requires
        0 <= x < 5,
        0 <= y < 5,
    ensures
        sq_shift(x, y) <= 48,
        sq_shift(x, y) % 2 == 0,
        sq_shift(x, y) as int == 48 - 2 * (y * 5 + x),
{
}

/// Reading a cell after writing one: the written cell holds the new value,
/// every other cell and the side to move are unchanged.
pub proof fn lemma_cell_with_cell(b: u64, x: int, y: int, v: u8, x2: int, y2: int)
    requires
        0 <= x < 5,
        0 <= y < 5,
        0 <= x2 < 5,
        0 <= y2 < 5,
        v <= 3,
    ensures
        cell_of(with_cell(b, x, y, v), x2, y2) == if x2 == x && y2 == y {
            v
        } else {
            cell_of(b, x2, y2)
        },
        player_of(with_cell(b, x, y, v)) == player_of(b),
{
    let s = sq_shift(x, y);
    let t = sq_shift(x2, y2);
    lemma_sq_shift_props(x, y);
    lemma_sq_shift_props(x2, y2);
    if x2 == x && y2 == y {
        assert(s == t);
    } else {
        assert(y * 5 + x != y2 * 5 + x2);
        assert(s != t);
    }
    lemma_with_cell_bits(b, v as u64, s, t);
}

/// Flipping the side to move leaves every cell unchanged and complements the
/// player bit.
pub proof fn lemma_cell_flip_player(b: u64, x: int, y: int)
    requires
        0 <= x < 5,
        0 <= y < 5,
    ensures
        cell_of(flip_player(b), x, y) == cell_of(b, x, y),
        player_of(flip_player(b)) == 1 - player_of(b),
{
    let t = sq_shift(x, y);
    lemma_sq_shift_props(x, y);
    lemma_flip_player_bits(b, t);
    assert(((b >> 50) & 1) ^ 1 == 1 - ((b >> 50) & 1)) by (bit_vector)
        requires
            (b >> 50) & 1 <= 1,
    ;
}

/// Scan of the first `k` squares in `x`-major order (square `k - 1` is
/// `(x, y) = ((k - 1) / 5, (k - 1) % 5)`), returning the last king found.
pub open spec fn king_scan(b: u64, k: int) -> Option<(u8, u8)>
    decreases k,
{
    if k <= 0 {
        None
    } else {
        let x = (k - 1) / 5;
        let y = (k - 1) % 5;
        if cell_of(b, x, y) == 3 {
            Some(((x as u8), (y as u8)))
        } else {
            king_scan(b, k - 1)
        }
    }
}

/// Outcome of a packed board: `Some(1)` when no king is on it (attackers
/// won), `Some(0)` when the king stands on the outer ring (defenders won),
/// `None` while the game is undecided.
pub open spec fn spec_winner(b: u64) -> Option<u8> {
    match king_scan(b, 25) {
        None => Some(1u8),
        Some(p) => if p.0 == 0 || p.0 == 4 || p.1 == 0 || p.1 == 4 {
            Some(0u8)
        } else {
            None
        },
    }
}

/// Whether `middle` is custodially captured: the mover's flanking piece
/// `outer` and the hostile `middle` piece must belong to opposite sides.
pub open spec fn spec_beaten(player: u8, middle: u8, outer: u8) -> bool {
    ((player == 0) && (outer > 1) && (middle == 1)) || ((player == 1) && (outer == 1) && (middle
        > 1))
}

/// The packed board after a move: the piece is relocated, each of the four
/// custodial-capture checks around the destination is applied against the
/// post-relocation board, and the side to move is flipped.
pub open spec fn spec_make_move(b: u64, m: TMove) -> u64 {
    let sx = m.start.0 as int;
    let sy = m.start.1 as int;
    let ex = m.end.0 as int;
    let ey = m.end.1 as int;
    let player = player_of(b);
    let piece = cell_of(b, sx, sy);
    let b0 = with_cell(with_cell(b, sx, sy, 0), ex, ey, piece);
    let b1 = if ex > 1 && spec_beaten(player, cell_of(b0, ex - 1, ey), cell_of(b0, ex - 2, ey)) {
        with_cell(b0, ex - 1, ey, 0)
    } else {
        b0
    };
    let b2 = if ex < 3 && spec_beaten(player, cell_of(b1, ex + 1, ey), cell_of(b1, ex + 2, ey)) {
        with_cell(b1, ex + 1, ey, 0)
    } else {
        b1
    };
    let b3 = if ey > 1 && spec_beaten(player, cell_of(b2, ex, ey - 1), cell_of(b2, ex, ey - 2)) {
        with_cell(b2, ex, ey - 1, 0)
    } else {
        b2
    };
    let b4 = if ey < 3 && spec_beaten(player, cell_of(b3, ex, ey + 1), cell_of(b3, ex, ey + 2)) {
        with_cell(b3, ex, ey + 1, 0)
    } else {
        b3
    };
    flip_player(b4)
}

/// Whether the piece on `(sx, sy)` belongs to the side `player`.
pub open spec fn owned_by(b: u64, player: u8, x: int, y: int) -> bool {
    if player == 0 {
        cell_of(b, x, y) > 1
    } else {
        cell_of(b, x, y) == 1
    }
}

/// A legal slide for side `player`: the source holds a piece of that side and
/// every square from the source (exclusive) to the destination (inclusive)
/// along one axis is empty.
pub open spec fn legal_move_for(b: u64, player: u8, m: TMove) -> bool {
    let sx = m.start.0 as int;
    let sy = m.start.1 as int;
    let ex = m.end.0 as int;
    let ey = m.end.1 as int;
    &&& m.in_bounds()
    &&& owned_by(b, player, sx, sy)
    &&& {
        ||| (sy == ey && sx != ex && forall|x: int|
            (if ex < sx {
                ex <= x < sx
            } else {
                sx < x <= ex
            }) ==> cell_of(b, x, sy) == 0)
        ||| (sx == ex && sy != ey && forall|y: int|
            (if ey < sy {
                ey <= y < sy
            } else {
                sy < y <= ey
            }) ==> cell_of(b, sx, y) == 0)
    }
}

/// A legal slide for the side to move.
pub open spec fn legal_move(b: u64, m: TMove) -> bool {
    legal_move_for(b, player_of(b), m)
}

/// Applying any move, capturing or not, complements the side to move.
pub proof fn lemma_apply_move_flips_side(b: u64, m: TMove)
    requires
        m.in_bounds(),
    ensures
        player_of(spec_make_move(b, m)) == 1 - player_of(b),
{
    let sx = m.start.0 as int;
    let sy = m.start.1 as int;
    let ex = m.end.0 as int;
    let ey = m.end.1 as int;
    let player = player_of(b);
    let piece = cell_of(b, sx, sy);
    lemma_cell_le_3(b, sx, sy);
    let ba = with_cell(b, sx, sy, 0);
    lemma_cell_with_cell(b, sx, sy, 0, 0, 0);
    let b0 = with_cell(ba, ex, ey, piece);
    lemma_cell_with_cell(ba, ex, ey, piece, 0, 0);
    let b1 = if ex > 1 && spec_beaten(player, cell_of(b0, ex - 1, ey), cell_of(b0, ex - 2, ey)) {
        lemma_cell_with_cell(b0, ex - 1, ey, 0, 0, 0);
        with_cell(b0, ex - 1, ey, 0)
    } else {
        b0
    };
    let b2 = if ex < 3 && spec_beaten(player, cell_of(b1, ex + 1, ey), cell_of(b1, ex + 2, ey)) {
        lemma_cell_with_cell(b1, ex + 1, ey, 0, 0, 0);
        with_cell(b1, ex + 1, ey, 0)
    } else {
        b1
    };
    let b3 = if ey > 1 && spec_beaten(player, cell_of(b2, ex, ey - 1), cell_of(b2, ex, ey - 2)) {
        lemma_cell_with_cell(b2, ex, ey - 1, 0, 0, 0);
        with_cell(b2, ex, ey - 1, 0)
    } else {
        b2
    };
    let b4 = if ey < 3 && spec_beaten(player, cell_of(b3, ex, ey + 1), cell_of(b3, ex, ey + 2)) {
        lemma_cell_with_cell(b3, ex, ey + 1, 0, 0, 0);
        with_cell(b3, ex, ey + 1, 0)
    } else {
        b3
    };
    assert(player_of(b4) == player_of(b));
    lemma_cell_flip_player(b4, 0, 0);
}

/// A move relocates the piece: the destination ends up holding what the
/// source held, the source is emptied, and no capture can undo either (the
/// four capture checks clear only occupied hostile neighbours of the
/// destination, never the destination or the now-empty source).
pub proof fn lemma_make_move_relocates(b: u64, m: TMove)
    requires
        m.in_bounds(),
        m.start.0 != m.end.0 || m.start.1 != m.end.1,
    ensures
        cell_of(spec_make_move(b, m), m.end.0 as int, m.end.1 as int) == cell_of(
            b,
            m.start.0 as int,
            m.start.1 as int,
        ),
        cell_of(spec_make_move(b, m), m.start.0 as int, m.start.1 as int) == 0,
{
    let sx = m.start.0 as int;
    let sy = m.start.1 as int;
    let ex = m.end.0 as int;
    let ey = m.end.1 as int;
    let player = player_of(b);
    let piece = cell_of(b, sx, sy);
    lemma_cell_le_3(b, sx, sy);
    let ba = with_cell(b, sx, sy, 0);
    let b0 = with_cell(ba, ex, ey, piece);
    lemma_cell_with_cell(b, sx, sy, 0, sx, sy);
    lemma_cell_with_cell(ba, ex, ey, piece, sx, sy);
    lemma_cell_with_cell(ba, ex, ey, piece, ex, ey);
    assert(cell_of(b0, ex, ey) == piece);
    assert(cell_of(b0, sx, sy) == 0);
    let b1 = if ex > 1 && spec_beaten(player, cell_of(b0, ex - 1, ey), cell_of(b0, ex - 2, ey)) {
        lemma_cell_with_cell(b0, ex - 1, ey, 0, ex, ey);
        lemma_cell_with_cell(b0, ex - 1, ey, 0, sx, sy);
        with_cell(b0, ex - 1, ey, 0)
    } else {
        b0
    };
    let b2 = if ex < 3 && spec_beaten(player, cell_of(b1, ex + 1, ey), cell_of(b1, ex + 2, ey)) {
        lemma_cell_with_cell(b1, ex + 1, ey, 0, ex, ey);
        lemma_cell_with_cell(b1, ex + 1, ey, 0, sx, sy);
        with_cell(b1, ex + 1, ey, 0)
    } else {
        b1
    };
    let b3 = if ey > 1 && spec_beaten(player, cell_of(b2, ex, ey - 1), cell_of(b2, ex, ey - 2)) {
        lemma_cell_with_cell(b2, ex, ey - 1, 0, ex, ey);
        lemma_cell_with_cell(b2, ex, ey - 1, 0, sx, sy);
        with_cell(b2, ex, ey - 1, 0)
    } else {
        b2
    };
    let b4 = if ey < 3 && spec_beaten(player, cell_of(b3, ex, ey + 1), cell_of(b3, ex, ey + 2)) {
        lemma_cell_with_cell(b3, ex, ey + 1, 0, ex, ey);
        lemma_cell_with_cell(b3, ex, ey + 1, 0, sx, sy);
        with_cell(b3, ex, ey + 1, 0)
    } else {
        b3
    };
    assert(cell_of(b4, ex, ey) == piece);
    assert(cell_of(b4, sx, sy) == 0);
    lemma_cell_flip_player(b4, ex, ey);
    lemma_cell_flip_player(b4, sx, sy);
}

proof fn lemma_king_scan_empty(b: u64, k: int)
    requires
        0 <= k <= 25,
        forall|x: int, y: int| 0 <= x < 5 && 0 <= y < 5 ==> cell_of(b, x, y) != 3,
    ensures
        king_scan(b, k) is None,
    decreases k,
{
    if k > 0 {
        lemma_king_scan_empty(b, k - 1);
    }
}

proof fn lemma_king_scan_unique(b: u64, kx: int, ky: int, k: int)
    requires
        0 <= kx < 5,
        0 <= ky < 5,
        cell_of(b, kx, ky) == 3,
        forall|x: int, y: int| 0 <= x < 5 && 0 <= y < 5 && cell_of(b, x, y) == 3 ==> x == kx && y
            == ky,
        0 <= k <= 25,
    ensures
        king_scan(b, k) == if k > kx * 5 + ky {
            Some(((kx as u8), (ky as u8)))
        } else {
            None::<(u8, u8)>
        },
    decreases k,
{
    if k > 0 {
        lemma_king_scan_unique(b, kx, ky, k - 1);
        let x = (k - 1) / 5;
        let y = (k - 1) % 5;
        assert(0 <= x < 5 && 0 <= y < 5);
        assert(k - 1 == x * 5 + y) by (nonlinear_arith)
            requires
                0 < k <= 25 && x == (k - 1) / 5 && y == (k - 1) % 5,
        ;
    }
}

/// Winner detection from king presence: with no king on the board the
/// attackers have won; with a sole king, the defenders have won exactly when
/// it stands on the outer ring, and otherwise the game is undecided.
pub proof fn lemma_winner_cases(b: u64)
    ensures
        (forall|x: int, y: int| 0 <= x < 5 && 0 <= y < 5 ==> cell_of(b, x, y) != 3)
            ==> spec_winner(b) == Some(1u8),
        forall|kx: int, ky: int|
            {
                &&& 0 <= kx < 5
                &&& 0 <= ky < 5
                &&& #[trigger] cell_of(b, kx, ky) == 3
                &&& (forall|x: int, y: int|
                    0 <= x < 5 && 0 <= y < 5 && cell_of(b, x, y) == 3 ==> x == kx && y == ky)
            } ==> spec_winner(b) == (if kx == 0 || kx == 4 || ky == 0 || ky == 4 {
                Some(0u8)
            } else {
                None::<u8>
            }),
{
    if forall|x: int, y: int| 0 <= x < 5 && 0 <= y < 5 ==> cell_of(b, x, y) != 3 {
        lemma_king_scan_empty(b, 25);
    }
    assert forall|kx: int, ky: int|
        {
            &&& 0 <= kx < 5
            &&& 0 <= ky < 5
            &&& #[trigger] cell_of(b, kx, ky) == 3
            &&& (forall|x: int, y: int|
                0 <= x < 5 && 0 <= y < 5 && cell_of(b, x, y) == 3 ==> x == kx && y == ky)
        } implies spec_winner(b) == (if kx == 0 || kx == 4 || ky == 0 || ky == 4 {
        Some(0u8)
    } else {
        None::<u8>
    }) by {
        lemma_king_scan_unique(b, kx, ky, 25);
    }
}

/// Bitboard holding, in the low bit of each 2-bit cell, whether that cell of
/// `b` holds an attacker (value exactly 1).
pub open spec fn black_only(b: u64) -> u64 {
    let bm1 = 0b1010101010_1010101010_1010101010_1010101010_1010101010u64;
    let bm2 = bm1 >> 1;
    (b & bm2) & (!(b & bm1) >> 1)
}

/// A cell of the attacker-only bitboard reads 1 exactly where the board
/// holds an attacker, and 0 everywhere else.
pub proof fn lemma_black_only_cell(b: u64, x: int, y: int)
    requires
        0 <= x < 5,
        0 <= y < 5,
    ensures
        cell_of(black_only(b), x, y) == (if cell_of(b, x, y) == 1 {
            1u8
        } else {
            0u8
        }),
{
    let s = sq_shift(x, y);
    lemma_sq_shift_props(x, y);
    let bm1 = 0b1010101010_1010101010_1010101010_1010101010_1010101010u64;
    let bb = (b & (bm1 >> 1)) & (!(b & bm1) >> 1);
    assert(black_only(b) == bb);
    assert((b >> s) & 3 <= 3 && (bb >> s) & 3 <= 3) by (bit_vector);
    assert((b >> s) & 3 == 1 ==> (bb >> s) & 3 == 1) by (bit_vector)
        requires
            s <= 48 && s % 2 == 0 && bb == (b & (bm1 >> 1)) & (!(b & bm1) >> 1) && bm1
                == 0b1010101010_1010101010_1010101010_1010101010_1010101010u64,
    ;
    assert((b >> s) & 3 != 1 ==> (bb >> s) & 3 == 0) by (bit_vector)
        requires
            s <= 48 && s % 2 == 0 && bb == (b & (bm1 >> 1)) & (!(b & bm1) >> 1) && bm1
                == 0b1010101010_1010101010_1010101010_1010101010_1010101010u64,
    ;
}

/// Positional bonus of a defending piece: 12 on the outer ring, 6 on the
/// next-inner ring, 0 in the centre.
pub open spec fn ring_bonus(x: int, y: int) -> int {
    if x == 0 || x == 4 || y == 0 || y == 4 {
        12
    } else if x == 1 || x == 3 || y == 1 || y == 3 {
        6
    } else {
        0
    }
}

/// Whether an orthogonal neighbour of `(x, y)` is set on the attacker-only
/// bitboard `bb`.
pub open spec fn king_pressured(bb: u64, x: int, y: int) -> bool {
    ||| (x > 0 && cell_of(bb, x - 1, y) != 0)
    ||| (x < 4 && cell_of(bb, x + 1, y) != 0)
    ||| (y > 0 && cell_of(bb, x, y - 1) != 0)
    ||| (y < 4 && cell_of(bb, x, y + 1) != 0)
}

/// How many of the four axis directions out of `(x, y)` hold an attacker
/// anywhere in the half-line to the board edge, tested by masked bit tests
/// against the attacker-only bitboard `bb`.
pub open spec fn blocked_count(bb: u64, x: int, y: int) -> int {
    let row_mask = 0b1111111111u64;
    let row_mask_left = row_mask & (row_mask << (((5 - x) * 2) as u64));
    let row_mask_right = row_mask >> (((x + 1) * 2) as u64);
    let blocking_left: int = if bb & (row_mask_left << (((4 - y) * 10) as u64)) > 0 {
        1
    } else {
        0
    };
    let blocking_right: int = if bb & (row_mask_right << (((4 - y) * 10) as u64)) > 0 {
        1
    } else {
        0
    };
    let col_mask = 0b0000000011_0000000011_0000000011_0000000011_0000000011u64;
    let col_mask_left = col_mask & (col_mask << (((5 - y) * 10) as u64));
    let col_mask_right = col_mask >> (((y + 1) * 10) as u64);
    let blocking_top: int = if bb & (col_mask_left << (((4 - x) * 2) as u64)) > 0 {
        1
    } else {
        0
    };
    let blocking_down: int = if bb & (col_mask_right << (((4 - x) * 2) as u64)) > 0 {
        1
    } else {
        0
    };
    blocking_left + blocking_right + blocking_top + blocking_down
}

proof fn lemma_bb_cell_bit(b: u64, x2: int, y2: int)
    requires
        0 <= x2 < 5,
        0 <= y2 < 5,
    ensures
        (black_only(b) >> ((48 - (y2 * 5 + x2) * 2) as u64)) & 3 == (if cell_of(b, x2, y2) == 1 {
            1u64
        } else {
            0u64
        }),
{
    lemma_black_only_cell(b, x2, y2);
    lemma_sq_shift_props(x2, y2);
    let sv = sq_shift(x2, y2);
    assert((black_only(b) >> sv) & 3 <= 3) by (bit_vector);
}

/// An attacker stands somewhere strictly left of `(x, y)` in its row.
pub open spec fn attacker_left(b: u64, x: int, y: int) -> bool {
    exists|x2: int| 0 <= x2 < x && cell_of(b, x2, y) == 1
}

/// An attacker stands somewhere strictly right of `(x, y)` in its row.
pub open spec fn attacker_right(b: u64, x: int, y: int) -> bool {
    exists|x2: int| x < x2 < 5 && cell_of(b, x2, y) == 1
}

/// An attacker stands somewhere strictly above `(x, y)` in its column.
pub open spec fn attacker_up(b: u64, x: int, y: int) -> bool {
    exists|y2: int| 0 <= y2 < y && cell_of(b, x, y2) == 1
}

/// An attacker stands somewhere strictly below `(x, y)` in its column.
pub open spec fn attacker_down(b: u64, x: int, y: int) -> bool {
    exists|y2: int| y < y2 < 5 && cell_of(b, x, y2) == 1
}

/// The masked half-line tests of `blocked_count` mean what they should: on
/// the attacker-only bitboard they count exactly the axis directions whose
/// half-line to the board edge holds an attacker of `b`.
pub proof fn lemma_blocked_count_directions(b: u64, x: int, y: int)
    requires
        0 <= x < 5,
        0 <= y < 5,
    ensures
        blocked_count(black_only(b), x, y) == (if attacker_left(b, x, y) {
            1int
        } else {
            0
        }) + (if attacker_right(b, x, y) {
            1int
        } else {
            0
        }) + (if attacker_up(b, x, y) {
            1int
        } else {
            0
        }) + (if attacker_down(b, x, y) {
            1int
        } else {
            0
        }),
{
    let bm1 = 0b1010101010_1010101010_1010101010_1010101010_1010101010u64;
    let bb = black_only(b);
    assert(bb == (b & (bm1 >> 1)) & (!(b & bm1) >> 1));
    let xv = x as u64;
    let yv = y as u64;
    lemma_bb_cell_bit(b, 0, y);
    lemma_bb_cell_bit(b, 1, y);
    lemma_bb_cell_bit(b, 2, y);
    lemma_bb_cell_bit(b, 3, y);
    lemma_bb_cell_bit(b, 4, y);
    lemma_bb_cell_bit(b, x, 0);
    lemma_bb_cell_bit(b, x, 1);
    lemma_bb_cell_bit(b, x, 2);
    lemma_bb_cell_bit(b, x, 3);
    lemma_bb_cell_bit(b, x, 4);

    let row_mask = 0b1111111111u64;
    let col_mask = 0b0000000011_0000000011_0000000011_0000000011_0000000011u64;

    // Left half-row.
    if attacker_left(b, x, y) {
        let x2 = choose|x2: int| 0 <= x2 < x && cell_of(b, x2, y) == 1;
        let x2v = x2 as u64;
        lemma_bb_cell_bit(b, x2, y);
        assert((bb >> ((48 - (yv * 5 + x2v) * 2) as u64)) & 3 == 1);
        assert(bb & ((row_mask & (row_mask << ((((5 - xv) * 2)) as u64))) << ((((4 - yv) * 10)) as u64)) > 0)
            by (bit_vector)
            requires
                x2v < xv && xv <= 4 && yv <= 4 && row_mask == 0b1111111111u64 && (bb >> ((48 - (yv
                    * 5 + x2v) * 2) as u64)) & 3 == 1,
        ;
    } else {
        assert(bb & ((row_mask & (row_mask << ((((5 - xv) * 2)) as u64))) << ((((4 - yv) * 10)) as u64)) == 0)
            by (bit_vector)
            requires
                xv <= 4 && yv <= 4 && row_mask == 0b1111111111u64 && bm1
                    == 0b1010101010_1010101010_1010101010_1010101010_1010101010u64 && bb == (b & (
                bm1 >> 1)) & (!(b & bm1) >> 1) && (0 < xv ==> (bb >> ((48 - (yv * 5 + 0) * 2)
                    as u64)) & 3 == 0) && (1 < xv ==> (bb >> ((48 - (yv * 5 + 1) * 2) as u64)) & 3
                    == 0) && (2 < xv ==> (bb >> ((48 - (yv * 5 + 2) * 2) as u64)) & 3 == 0) && (3
                    < xv ==> (bb >> ((48 - (yv * 5 + 3) * 2) as u64)) & 3 == 0),
        ;
    }

    // Right half-row.
    if attacker_right(b, x, y) {
        let x2 = choose|x2: int| x < x2 < 5 && cell_of(b, x2, y) == 1;
        let x2v = x2 as u64;
        lemma_bb_cell_bit(b, x2, y);
        assert((bb >> ((48 - (yv * 5 + x2v) * 2) as u64)) & 3 == 1);
        assert(bb & ((row_mask >> ((((xv + 1) * 2)) as u64)) << ((((4 - yv) * 10)) as u64)) > 0) by (bit_vector)
            requires
                xv < x2v && x2v <= 4 && yv <= 4 && row_mask == 0b1111111111u64 && (bb >> ((48 - (yv
                    * 5 + x2v) * 2) as u64)) & 3 == 1,
        ;
    } else {
        assert(bb & ((row_mask >> ((((xv + 1) * 2)) as u64)) << ((((4 - yv) * 10)) as u64)) == 0) by (bit_vector)
            requires
                xv <= 4 && yv <= 4 && row_mask == 0b1111111111u64 && bm1
                    == 0b1010101010_1010101010_1010101010_1010101010_1010101010u64 && bb == (b & (
                bm1 >> 1)) & (!(b & bm1) >> 1) && (xv < 1 ==> (bb >> ((48 - (yv * 5 + 1) * 2)
                    as u64)) & 3 == 0) && (xv < 2 ==> (bb >> ((48 - (yv * 5 + 2) * 2) as u64)) & 3
                    == 0) && (xv < 3 ==> (bb >> ((48 - (yv * 5 + 3) * 2) as u64)) & 3 == 0) && (xv
                    < 4 ==> (bb >> ((48 - (yv * 5 + 4) * 2) as u64)) & 3 == 0),
        ;
    }

    // Upper half-column.
    if attacker_up(b, x, y) {
        let y2 = choose|y2: int| 0 <= y2 < y && cell_of(b, x, y2) == 1;
        let y2v = y2 as u64;
        lemma_bb_cell_bit(b, x, y2);
        assert((bb >> ((48 - (y2v * 5 + xv) * 2) as u64)) & 3 == 1);
        assert(bb & ((col_mask & (col_mask << ((((5 - yv) * 10)) as u64))) << ((((4 - xv) * 2)) as u64)) > 0)
            by (bit_vector)
            requires
                y2v < yv && yv <= 4 && xv <= 4 && col_mask
                    == 0b0000000011_0000000011_0000000011_0000000011_0000000011u64 && (bb >> ((48
                    - (y2v * 5 + xv) * 2) as u64)) & 3 == 1,
        ;
    } else {
        assert(bb & ((col_mask & (col_mask << ((((5 - yv) * 10)) as u64))) << ((((4 - xv) * 2)) as u64)) == 0)
            by (bit_vector)
            requires
                xv <= 4 && yv <= 4 && col_mask
                    == 0b0000000011_0000000011_0000000011_0000000011_0000000011u64 && bm1
                    == 0b1010101010_1010101010_1010101010_1010101010_1010101010u64 && bb == (b & (
                bm1 >> 1)) & (!(b & bm1) >> 1) && (0 < yv ==> (bb >> ((48 - (0 * 5 + xv) * 2)
                    as u64)) & 3 == 0) && (1 < yv ==> (bb >> ((48 - (1 * 5 + xv) * 2) as u64)) & 3
                    == 0) && (2 < yv ==> (bb >> ((48 - (2 * 5 + xv) * 2) as u64)) & 3 == 0) && (3
                    < yv ==> (bb >> ((48 - (3 * 5 + xv) * 2) as u64)) & 3 == 0),
        ;
    }

    // Lower half-column.
    if attacker_down(b, x, y) {
        let y2 = choose|y2: int| y < y2 < 5 && cell_of(b, x, y2) == 1;
        let y2v = y2 as u64;
        lemma_bb_cell_bit(b, x, y2);
        assert((bb >> ((48 - (y2v * 5 + xv) * 2) as u64)) & 3 == 1);
        assert(bb & ((col_mask >> ((((yv + 1) * 10)) as u64)) << ((((4 - xv) * 2)) as u64)) > 0) by (bit_vector)
            requires
                yv < y2v && y2v <= 4 && xv <= 4 && col_mask
                    == 0b0000000011_0000000011_0000000011_0000000011_0000000011u64 && (bb >> ((48
                    - (y2v * 5 + xv) * 2) as u64)) & 3 == 1,
        ;
    } else {
        assert(bb & ((col_mask >> ((((yv + 1) * 10)) as u64)) << ((((4 - xv) * 2)) as u64)) == 0) by (bit_vector)
            requires
                xv <= 4 && yv <= 4 && col_mask
                    == 0b0000000011_0000000011_0000000011_0000000011_0000000011u64 && bm1
                    == 0b1010101010_1010101010_1010101010_1010101010_1010101010u64 && bb == (b & (
                bm1 >> 1)) & (!(b & bm1) >> 1) && (yv < 1 ==> (bb >> ((48 - (1 * 5 + xv) * 2)
                    as u64)) & 3 == 0) && (yv < 2 ==> (bb >> ((48 - (2 * 5 + xv) * 2) as u64)) & 3
                    == 0) && (yv < 3 ==> (bb >> ((48 - (3 * 5 + xv) * 2) as u64)) & 3 == 0) && (yv
                    < 4 ==> (bb >> ((48 - (4 * 5 + xv) * 2) as u64)) & 3 == 0),
        ;
    }
}

/// Defender-centric score of one cell: an attacker costs 7; a defending piece
/// earns its ring bonus plus 2 per unblocked direction, and the king loses 5
/// when an attacker stands next to it.
pub open spec fn cell_score(b: u64, bb: u64, x: int, y: int) -> int {
    let piece = cell_of(b, x, y);
    if piece == 1 {
        -7
    } else if piece == 2 || piece == 3 {
        ring_bonus(x, y) + 2 * (4 - blocked_count(bb, x, y)) + (if piece == 3 && king_pressured(
            bb,
            x,
            y,
        ) {
            -5
        } else {
            0
        })
    } else {
        0
    }
}

/// Sum of `cell_score` over the first `k` squares in `x`-major order.
pub open spec fn score_prefix(b: u64, bb: u64, k: int) -> int
    decreases k,
{
    if k <= 0 {
        0
    } else {
        score_prefix(b, bb, k - 1) + cell_score(b, bb, (k - 1) / 5, (k - 1) % 5)
    }
}

/// Defender-centric raw score of the whole board.
pub open spec fn raw_score(b: u64) -> int {
    score_prefix(b, black_only(b), 25)
}

/// Static score of `b` from the mover's perspective: the raw defender-centric
/// score, negated when the attackers are to move.
pub open spec fn spec_eval(b: u64) -> int {
    raw_score(b) * (if player_of(b) == 1 {
        -1
    } else {
        1
    })
}

proof fn lemma_score_prefix_bounds(b: u64, bb: u64, k: int)
    requires
        0 <= k,
    ensures
        -7 * k <= score_prefix(b, bb, k) <= 20 * k,
    decreases k,
{
    if k > 0 {
        lemma_score_prefix_bounds(b, bb, k - 1);
    }
}

/// The static evaluation of any board lies within plus or minus 500.
pub proof fn lemma_eval_bounds(b: u64)
    ensures
        -500 <= spec_eval(b) <= 500,
{
    lemma_score_prefix_bounds(b, black_only(b), 25);
    let raw = raw_score(b);
    assert(raw * -1 == -raw && raw * 1 == raw) by (nonlinear_arith);
}

/// Position of a move's source square in the generator's scan order
/// (`x`-major, `y` minor).
pub open spec fn src_idx(m: TMove) -> int {
    (m.start.0 as int) * 5 + (m.start.1 as int)
}

/// No move occurs twice in the sequence.
pub open spec fn distinct_moves(s: Seq<TMove>) -> bool {
    forall|i: int, j: int| 0 <= i < j < s.len() ==> s[i] != s[j]
}

proof fn lemma_push_distinct(s: Seq<TMove>, v: TMove)
    requires
        distinct_moves(s),
        !s.contains(v),
    ensures
        distinct_moves(s.push(v)),
{
    assert forall|i: int, j: int| 0 <= i < j < s.push(v).len() implies s.push(v)[i] != s.push(v)[
        j
    ] by {
        if j < s.len() {
            assert(s.push(v)[i] == s[i] && s.push(v)[j] == s[j]);
        } else {
            assert(s.push(v)[j] == v);
            assert(s.push(v)[i] == s[i]);
            if s[i] == v {
                assert(s.contains(v));
            }
        }
    }
}

proof fn lemma_push_contains(s: Seq<TMove>, v: TMove, x: TMove)
    ensures
        s.push(v).contains(x) <==> (s.contains(x) || x == v),
{
    if s.contains(x) {
        let idx = choose|idx: int| 0 <= idx < s.len() && s[idx] == x;
        assert(s.push(v)[idx] == x);
    }
    assert(s.push(v)[s.len() as int] == v);
    if s.push(v).contains(x) && x != v {
        let idx = choose|idx: int| 0 <= idx < s.push(v).len() && s.push(v)[idx] == x;
        assert(idx < s.len());
        assert(s[idx] == x);
    }
}

/// For an owned source square `(i, j)` whose four free-run bounds are given,
/// a move out of that square is legal exactly when its destination lies in
/// one of the four contiguous empty ranges.
proof fn lemma_ranges_exact(
    b: u64,
    player: u8,
    i: u8,
    j: u8,
    min_x: u8,
    max_x: u8,
    min_y: u8,
    max_y: u8,
    m: TMove,
)
    requires
        i < 5,
        j < 5,
        owned_by(b, player, i as int, j as int),
        min_x <= i,
        forall|x: int| min_x <= x < i ==> cell_of(b, x, j as int) == 0,
        min_x > 0 ==> cell_of(b, min_x - 1, j as int) != 0,
        i <= max_x < 5,
        forall|x: int| i < x <= max_x ==> cell_of(b, x, j as int) == 0,
        max_x < 4 ==> cell_of(b, max_x + 1, j as int) != 0,
        min_y <= j,
        forall|y: int| min_y <= y < j ==> cell_of(b, i as int, y) == 0,
        min_y > 0 ==> cell_of(b, i as int, min_y - 1) != 0,
        j <= max_y < 5,
        forall|y: int| j < y <= max_y ==> cell_of(b, i as int, y) == 0,
        max_y < 4 ==> cell_of(b, i as int, max_y + 1) != 0,
        m.start.0 == i,
        m.start.1 == j,
    ensures
        legal_move_for(b, player, m) <==> {
            ||| (m.end.1 == j && min_x <= m.end.0 < i)
            ||| (m.end.1 == j && i < m.end.0 <= max_x)
            ||| (m.end.0 == i && min_y <= m.end.1 < j)
            ||| (m.end.0 == i && j < m.end.1 <= max_y)
        },
{
    let sx = i as int;
    let sy = j as int;
    let ex = m.end.0 as int;
    let ey = m.end.1 as int;
    if m.end.1 == j && min_x <= m.end.0 < i {
        assert(forall|x: int| ex <= x < sx ==> cell_of(b, x, sy) == 0);
        assert(legal_move_for(b, player, m));
    }
    if m.end.1 == j && i < m.end.0 <= max_x {
        assert(forall|x: int| sx < x <= ex ==> cell_of(b, x, sy) == 0);
        assert(legal_move_for(b, player, m));
    }
    if m.end.0 == i && min_y <= m.end.1 < j {
        assert(forall|y: int| ey <= y < sy ==> cell_of(b, sx, y) == 0);
        assert(legal_move_for(b, player, m));
    }
    if m.end.0 == i && j < m.end.1 <= max_y {
        assert(forall|y: int| sy < y <= ey ==> cell_of(b, sx, y) == 0);
        assert(legal_move_for(b, player, m));
    }
    if legal_move_for(b, player, m) {
        if sy == ey && sx != ex && (forall|x: int|
            (if ex < sx {
                ex <= x < sx
            } else {
                sx < x <= ex
            }) ==> cell_of(b, x, sy) == 0) {
            if ex < sx {
                if ex < min_x {
                    assert(cell_of(b, min_x - 1, sy) == 0);
                    assert(false);
                }
            } else {
                if ex > max_x {
                    assert(cell_of(b, max_x + 1, sy) == 0);
                    assert(false);
                }
            }
        } else {
            assert(sx == ex && sy != ey && (forall|y: int|
                (if ey < sy {
                    ey <= y < sy
                } else {
                    sy < y <= ey
                }) ==> cell_of(b, sx, y) == 0));
            if ey < sy {
                if ey < min_y {
                    assert(cell_of(b, sx, min_y - 1) == 0);
                    assert(false);
                }
            } else {
                if ey > max_y {
                    assert(cell_of(b, sx, max_y + 1) == 0);
                    assert(false);
                }
            }
        }
    }
}

#[derive(Clone, Copy)]
pub struct Board {
    pub board: u64,
}

impl Board {
    pub fn new(board: u64) -> (r: Self)
        ensures
            r.board == board,
    {
        return Board { board };
    }

    /// Decode the 2-bit cell at `(x, y)`.
    pub fn get(&self, x: u8, y: u8) -> (r: u8)
        requires
            x < 5,
            y < 5,
        ensures
            r == cell_of(self.board, x as int, y as int),
            r <= 3,
    {
        let i: u8 = y * 5 + x;
        let shift: u64 = 48 - (i as u64) * 2;
        proof {
            lemma_sq_shift_props(x as int, y as int);
            lemma_cell_le_3(self.board, x as int, y as int);
        }
        ((self.board >> shift) & 0b11) as u8
    }

    /// A new board with cell `(x, y)` set to `v`, all other state kept.
    pub fn set(&self, x: u8, y: u8, v: u8) -> (r: Self)
        requires
            x < 5,
            y < 5,
            v <= 3,
        ensures
            r.board == with_cell(self.board, x as int, y as int, v),
    {
        let i: u8 = y * 5 + x;
        let shift: u64 = 48 - (i as u64) * 2;
        let mask: u64 = 0b11u64 << shift;
        proof {
            lemma_sq_shift_props(x as int, y as int);
        }
        let board: u64 = (self.board & !mask) | ((v as u64) << shift);
        Board { board }
    }

    /// The side to move: 0 = defenders, 1 = attackers.
    pub fn get_player(&self) -> (r: u8)
        ensures
            r == player_of(self.board),
            r <= 1,
    {
        proof {
            lemma_player_le_1(self.board);
        }
        ((self.board >> 50) & 1) as u8
    }

    /// A new board with the side to move set to `p`.
    pub fn set_player(&self, p: u8) -> (r: Self)
        requires
            p <= 1,
        ensures
            r.board == with_player(self.board, p),
    {
        let mask: u64 = 1u64 << 50;
        let board: u64 = self.board & !mask | ((p as u64) << 50);
        Board { board }
    }

    /// A new board with the side to move flipped.
    pub fn next_player(&self) -> (r: Self)
        ensures
            r.board == flip_player(self.board),
    {
        Board { board: self.board ^ (1u64 << 50) }
    }

    /// Scan all cells for the king and decide the outcome: no king means the
    /// attackers won, a king on the outer ring means the defenders won, and
    /// any other position is still undecided.
    pub fn get_winner(&self) -> (r: Option<u8>)
        ensures
            r == spec_winner(self.board),
    {
        let mut king_pos: Option<(u8, u8)> = None;
        for i in 0..5u8
            invariant
                king_pos == king_scan(self.board, (i as int) * 5),
        {
            for j in 0..5u8
                invariant
                    i < 5,
                    king_pos == king_scan(self.board, (i as int) * 5 + (j as int)),
            {
                proof {
                    let k = (i as int) * 5 + (j as int);
                    assert(k / 5 == i as int && k % 5 == j as int) by (nonlinear_arith)
                        requires
                            0 <= i < 5 && 0 <= j < 5 && k == (i as int) * 5 + (j as int),
                    ;
                }
                if self.get(i, j) == 3 {
                    king_pos = Some((i, j));
                }
            }
        }
        match king_pos {
            None => { return Some(1); },
            Some((x, y)) => {
                if x == 0 || x == 4 || y == 0 || y == 4 {
                    return Some(0);
                }
                return None;
            },
        }
    }

    /// Whether the `middle` piece is custodially captured by the mover's
    /// `outer` flanking piece.
    pub fn check_beaten(&self, player: u8, middle_piece: u8, outer_piece: u8) -> (r: bool)
        ensures
            r == spec_beaten(player, middle_piece, outer_piece),
    {
        let p1_cond: bool = (player == 0) && (outer_piece > 1) && (middle_piece == 1);
        let p2_cond: bool = (player == 1) && (outer_piece == 1) && (middle_piece > 1);
        return p1_cond || p2_cond;
    }

    /// Relocate the moved piece, clear every custodially captured neighbour of
    /// the destination, and flip the side to move. Only moves drawn from the
    /// legal-move generator may be applied.
    pub fn make_move(&self, tmove: &TMove) -> (r: Board)
        requires
            legal_move(self.board, *tmove),
        ensures
            r.board == spec_make_move(self.board, *tmove),
            player_of(r.board) == 1 - player_of(self.board),
            cell_of(r.board, tmove.end.0 as int, tmove.end.1 as int) == cell_of(
                self.board,
                tmove.start.0 as int,
                tmove.start.1 as int,
            ),
            cell_of(r.board, tmove.start.0 as int, tmove.start.1 as int) == 0,
    {
        proof {
            lemma_apply_move_flips_side(self.board, *tmove);
            lemma_make_move_relocates(self.board, *tmove);
        }
        let (sx, sy) = tmove.start;
        let (ex, ey) = tmove.end;
        let player = self.get_player();
        let piece = self.get(sx, sy);
        let mut board = self.set(sx, sy, 0).set(ex, ey, piece);

        // A capture check in each direction needs room for two further cells.
        if ex > 1 {
            let middle_piece = board.get(ex - 1, ey);
            let outer_piece = board.get(ex - 2, ey);
            if board.check_beaten(player, middle_piece, outer_piece) {
                board = board.set(ex - 1, ey, 0);
            }
        }
        if ex < 3 {
            let middle_piece = board.get(ex + 1, ey);
            let outer_piece = board.get(ex + 2, ey);
            if board.check_beaten(player, middle_piece, outer_piece) {
                board = board.set(ex + 1, ey, 0);
            }
        }
        if ey > 1 {
            let middle_piece = board.get(ex, ey - 1);
            let outer_piece = board.get(ex, ey - 2);
            if board.check_beaten(player, middle_piece, outer_piece) {
                board = board.set(ex, ey - 1, 0);
            }
        }
        if ey < 3 {
            let middle_piece = board.get(ex, ey + 1);
            let outer_piece = board.get(ex, ey + 2);
            if board.check_beaten(player, middle_piece, outer_piece) {
                board = board.set(ex, ey + 1, 0);
            }
        }
        board.next_player()
    }

    /// Farthest empty squares reachable from `(x, y)` in the four axis
    /// directions, as `(min_x, max_x, min_y, max_y)`: every square strictly
    /// between the returned bound and `(x, y)` is empty, and the bound itself
    /// is only short of the board edge when a piece blocks the next square.
    pub fn get_max_moves_piece(&self, x: u8, y: u8) -> (r: (u8, u8, u8, u8))
        requires
            x < 5,
            y < 5,
        ensures
            r.0 <= x && forall|i: int| r.0 <= i < x ==> cell_of(self.board, i, y as int) == 0,
            r.0 > 0 ==> cell_of(self.board, r.0 - 1, y as int) != 0,
            x <= r.1 < 5 && forall|i: int| x < i <= r.1 ==> cell_of(self.board, i, y as int) == 0,
            r.1 < 4 ==> cell_of(self.board, r.1 + 1, y as int) != 0,
            r.2 <= y && forall|j: int| r.2 <= j < y ==> cell_of(self.board, x as int, j) == 0,
            r.2 > 0 ==> cell_of(self.board, x as int, r.2 - 1) != 0,
            y <= r.3 < 5 && forall|j: int| y < j <= r.3 ==> cell_of(self.board, x as int, j) == 0,
            r.3 < 4 ==> cell_of(self.board, x as int, r.3 + 1) != 0,
    {
        // Free squares upward (towards y = 0), the source square excluded.
        let mut min_y_move: u8 = y;
        let mut up_blocked: bool = false;
        while min_y_move > 0 && !up_blocked
            invariant
                x < 5,
                y < 5,
                min_y_move <= y,
                forall|j: int| min_y_move <= j < y ==> cell_of(self.board, x as int, j) == 0,
                up_blocked ==> min_y_move > 0 && cell_of(self.board, x as int, min_y_move - 1)
                    != 0,
            decreases min_y_move, (if up_blocked { 0int } else { 1int }),
        {
            if self.get(x, min_y_move - 1) == 0 {
                min_y_move = min_y_move - 1;
            } else {
                up_blocked = true;
            }
        }

        // Free squares downward (towards y = 4).
        let mut max_y_move: u8 = y;
        let mut down_blocked: bool = false;
        while max_y_move < 4 && !down_blocked
            invariant
                x < 5,
                y < 5,
                y <= max_y_move < 5,
                forall|j: int| y < j <= max_y_move ==> cell_of(self.board, x as int, j) == 0,
                down_blocked ==> max_y_move < 4 && cell_of(self.board, x as int, max_y_move + 1)
                    != 0,
            decreases 4 - max_y_move, (if down_blocked { 0int } else { 1int }),
        {
            if self.get(x, max_y_move + 1) == 0 {
                max_y_move = max_y_move + 1;
            } else {
                down_blocked = true;
            }
        }

        // Free squares to the left (towards x = 0).
        let mut min_x_move: u8 = x;
        let mut left_blocked: bool = false;
        while min_x_move > 0 && !left_blocked
            invariant
                x < 5,
                y < 5,
                min_x_move <= x,
                forall|i: int| min_x_move <= i < x ==> cell_of(self.board, i, y as int) == 0,
                left_blocked ==> min_x_move > 0 && cell_of(self.board, min_x_move - 1, y as int)
                    != 0,
            decreases min_x_move, (if left_blocked { 0int } else { 1int }),
        {
            if self.get(min_x_move - 1, y) == 0 {
                min_x_move = min_x_move - 1;
            } else {
                left_blocked = true;
            }
        }

        // Free squares to the right (towards x = 4).
        let mut max_x_move: u8 = x;
        let mut right_blocked: bool = false;
        while max_x_move < 4 && !right_blocked
            invariant
                x < 5,
                y < 5,
                x <= max_x_move < 5,
                forall|i: int| x < i <= max_x_move ==> cell_of(self.board, i, y as int) == 0,
                right_blocked ==> max_x_move < 4 && cell_of(self.board, max_x_move + 1, y as int)
                    != 0,
            decreases 4 - max_x_move, (if right_blocked { 0int } else { 1int }),
        {
            if self.get(max_x_move + 1, y) == 0 {
                max_x_move = max_x_move + 1;
            } else {
                right_blocked = true;
            }
        }

        return (min_x_move, max_x_move, min_y_move, max_y_move);
    }

    /// All legal slides for side `PLAYER`, scanning sources in `x`-major
    /// order and emitting, per source, left-, right-, up- then down-moves
    /// near-to-far. The list holds a move if and only if it is legal.
    pub fn get_possible_moves_player<const PLAYER: u8>(&self) -> (moves: Vec<TMove>)
        requires
            PLAYER <= 1,
        ensures
            forall|m: TMove| #[trigger]
                moves@.contains(m) <==> legal_move_for(self.board, PLAYER, m),
            distinct_moves(moves@),
    {
        let mut moves: Vec<TMove> = Vec::new();
        for i in 0..5u8
            invariant
                PLAYER <= 1,
                distinct_moves(moves@),
                forall|m: TMove| #[trigger]
                    moves@.contains(m) <==> (legal_move_for(self.board, PLAYER, m) && src_idx(m)
                        < (i as int) * 5),
        {
            for j in 0..5u8
                invariant
                    i < 5,
                    PLAYER <= 1,
                    distinct_moves(moves@),
                    forall|m: TMove| #[trigger]
                        moves@.contains(m) <==> (legal_move_for(self.board, PLAYER, m) && src_idx(
                            m,
                        ) < (i as int) * 5 + (j as int)),
            {
                let ghost k: int = (i as int) * 5 + (j as int);
                let cell = self.get(i, j);
                if ((PLAYER == 0) && (cell > 1)) || ((PLAYER == 1) && (cell == 1)) {
                    assert(owned_by(self.board, PLAYER, i as int, j as int));
                    let (min_x_move, max_x_move, min_y_move, max_y_move) =
                        self.get_max_moves_piece(i, j);

                    // Left-extending destinations, near the edge first.
                    for m_i in min_x_move..i
                        invariant
                            i < 5,
                            j < 5,
                            k == (i as int) * 5 + (j as int),
                            min_x_move <= i,
                            distinct_moves(moves@),
                            forall|m: TMove| #[trigger]
                                moves@.contains(m) <==> {
                                    ||| (legal_move_for(self.board, PLAYER, m) && src_idx(m) < k)
                                    ||| (m.start.0 == i && m.start.1 == j && m.end.1 == j
                                        && min_x_move <= m.end.0 < m_i)
                                },
                    {
                        let ghost before = moves@;
                        let mv = TMove { start: (i, j), end: (m_i, j) };
                        moves.push(mv);
                        proof {
                            assert(!before.contains(mv));
                            lemma_push_distinct(before, mv);
                            assert forall|m: TMove| #[trigger]
                                moves@.contains(m) <==> (before.contains(m) || m == mv) by {
                                lemma_push_contains(before, mv, m);
                            }
                        }
                    }

                    // Right-extending destinations.
                    for m_i in (i + 1)..(max_x_move + 1)
                        invariant
                            i < 5,
                            j < 5,
                            min_x_move <= i,
                            i <= max_x_move < 5,
                            k == (i as int) * 5 + (j as int),
                            distinct_moves(moves@),
                            forall|m: TMove| #[trigger]
                                moves@.contains(m) <==> {
                                    ||| (legal_move_for(self.board, PLAYER, m) && src_idx(m) < k)
                                    ||| (m.start.0 == i && m.start.1 == j && m.end.1 == j
                                        && min_x_move <= m.end.0 < i)
                                    ||| (m.start.0 == i && m.start.1 == j && m.end.1 == j && i
                                        < m.end.0 < m_i)
                                },
                    {
                        let ghost before = moves@;
                        let mv = TMove { start: (i, j), end: (m_i, j) };
                        moves.push(mv);
                        proof {
                            assert(!before.contains(mv));
                            lemma_push_distinct(before, mv);
                            assert forall|m: TMove| #[trigger]
                                moves@.contains(m) <==> (before.contains(m) || m == mv) by {
                                lemma_push_contains(before, mv, m);
                            }
                        }
                    }

                    // Up-extending destinations.
                    for m_j in min_y_move..j
                        invariant
                            i < 5,
                            j < 5,
                            min_x_move <= i,
                            i <= max_x_move < 5,
                            min_y_move <= j,
                            k == (i as int) * 5 + (j as int),
                            distinct_moves(moves@),
                            forall|m: TMove| #[trigger]
                                moves@.contains(m) <==> {
                                    ||| (legal_move_for(self.board, PLAYER, m) && src_idx(m) < k)
                                    ||| (m.start.0 == i && m.start.1 == j && m.end.1 == j
                                        && min_x_move <= m.end.0 < i)
                                    ||| (m.start.0 == i && m.start.1 == j && m.end.1 == j && i
                                        < m.end.0 <= max_x_move)
                                    ||| (m.start.0 == i && m.start.1 == j && m.end.0 == i
                                        && min_y_move <= m.end.1 < m_j)
                                },
                    {
                        let ghost before = moves@;
                        let mv = TMove { start: (i, j), end: (i, m_j) };
                        moves.push(mv);
                        proof {
                            assert(!before.contains(mv));
                            lemma_push_distinct(before, mv);
                            assert forall|m: TMove| #[trigger]
                                moves@.contains(m) <==> (before.contains(m) || m == mv) by {
                                lemma_push_contains(before, mv, m);
                            }
                        }
                    }

                    // Down-extending destinations.
                    for m_j in (j + 1)..(max_y_move + 1)
                        invariant
                            i < 5,
                            j < 5,
                            min_x_move <= i,
                            i <= max_x_move < 5,
                            min_y_move <= j,
                            j <= max_y_move < 5,
                            k == (i as int) * 5 + (j as int),
                            distinct_moves(moves@),
                            forall|m: TMove| #[trigger]
                                moves@.contains(m) <==> {
                                    ||| (legal_move_for(self.board, PLAYER, m) && src_idx(m) < k)
                                    ||| (m.start.0 == i && m.start.1 == j && m.end.1 == j
                                        && min_x_move <= m.end.0 < i)
                                    ||| (m.start.0 == i && m.start.1 == j && m.end.1 == j && i
                                        < m.end.0 <= max_x_move)
                                    ||| (m.start.0 == i && m.start.1 == j && m.end.0 == i
                                        && min_y_move <= m.end.1 < j)
                                    ||| (m.start.0 == i && m.start.1 == j && m.end.0 == i && j
                                        < m.end.1 < m_j)
                                },
                    {
                        let ghost before = moves@;
                        let mv = TMove { start: (i, j), end: (i, m_j) };
                        moves.push(mv);
                        proof {
                            assert(!before.contains(mv));
                            lemma_push_distinct(before, mv);
                            assert forall|m: TMove| #[trigger]
                                moves@.contains(m) <==> (before.contains(m) || m == mv) by {
                                lemma_push_contains(before, mv, m);
                            }
                        }
                    }

                    proof {
                        assert forall|m: TMove| #[trigger]
                            moves@.contains(m) <==> (legal_move_for(self.board, PLAYER, m)
                                && src_idx(m) < k + 1) by {
                            if m.start.0 == i && m.start.1 == j {
                                lemma_ranges_exact(
                                    self.board,
                                    PLAYER,
                                    i,
                                    j,
                                    min_x_move,
                                    max_x_move,
                                    min_y_move,
                                    max_y_move,
                                    m,
                                );
                            }
                        }
                    }
                } else {
                    proof {
                        assert(!owned_by(self.board, PLAYER, i as int, j as int));
                        assert forall|m: TMove| #[trigger]
                            moves@.contains(m) <==> (legal_move_for(self.board, PLAYER, m)
                                && src_idx(m) < k + 1) by {
                            if legal_move_for(self.board, PLAYER, m) && src_idx(m) == k {
                                assert(m.start.0 == i && m.start.1 == j);
                                assert(false);
                            }
                        }
                    }
                }
            }
        }
        moves
    }

    /// Derived attacker-only bitboard: each cell reads 1 when the same cell
    /// of this board holds an attacker, and 0 otherwise.
    pub fn get_only_black_board(&self) -> (r: u64)
        ensures
            r == black_only(self.board),
            forall|x: int, y: int|
                0 <= x < 5 && 0 <= y < 5 ==> #[trigger] cell_of(r, x, y) == (if cell_of(
                    self.board,
                    x,
                    y,
                ) == 1 {
                    1u8
                } else {
                    0u8
                }),
    {
        proof {
            assert forall|x: int, y: int|
                0 <= x < 5 && 0 <= y < 5 implies #[trigger] cell_of(
                black_only(self.board),
                x,
                y,
            ) == (if cell_of(self.board, x, y) == 1 {
                1u8
            } else {
                0u8
            }) by {
                lemma_black_only_cell(self.board, x, y);
            }
        }
        let bm1: u64 = 0b1010101010_1010101010_1010101010_1010101010_1010101010u64;
        let bm2: u64 = bm1 >> 1;
        ((self.board & bm2)) & (!(self.board & bm1) >> 1)
    }

    /// How many of the four directions out of `(i, j)` hold an attacker
    /// somewhere in the half-line to the edge, as O(1) masked bit tests
    /// against the attacker-only bitboard.
    pub fn count_white_blocked(&self, b_only_black: u64, i: u8, j: u8) -> (r: i32)
        requires
            i < 5,
            j < 5,
        ensures
            r == blocked_count(b_only_black, i as int, j as int),
            0 <= r <= 4,
    {
        // Row mask shifted to the correct row; only squares strictly to the
        // left or right of `i` are kept.
        let row_mask: u64 = 0b1111111111u64;
        let row_mask_left: u64 = row_mask & (row_mask << (((5 - i) as u64) * 2));
        let row_mask_right: u64 = row_mask >> (((i + 1) as u64) * 2);

        let blocking_left: bool = (b_only_black & (row_mask_left << (((4 - j) as u64) * 10))) > 0;
        let blocking_right: bool = (b_only_black & (row_mask_right << (((4 - j) as u64) * 10)))
            > 0;
        let blocking_x: i32 = (if blocking_left {
            1
        } else {
            0
        }) + (if blocking_right {
            1
        } else {
            0
        });

        let col_mask: u64 = 0b0000000011_0000000011_0000000011_0000000011_0000000011u64;
        let col_mask_left: u64 = col_mask & (col_mask << (((5 - j) as u64) * 10));
        let col_mask_right: u64 = col_mask >> (((j + 1) as u64) * 10);

        let blocking_top: bool = (b_only_black & (col_mask_left << (((4 - i) as u64) * 2))) > 0;
        let blocking_down: bool = (b_only_black & (col_mask_right << (((4 - i) as u64) * 2))) > 0;
        let blocking_y: i32 = (if blocking_top {
            1
        } else {
            0
        }) + (if blocking_down {
            1
        } else {
            0
        });

        return blocking_x + blocking_y;
    }

    /// Static heuristic score from the mover's perspective: positive numbers
    /// favour the side to move.
    pub fn eval(&self) -> (r: i32)
        ensures
            r == spec_eval(self.board),
            -500 <= r <= 500,
    {
        let b_board = Board { board: self.get_only_black_board() };
        let mut score: i32 = 0;

        for i in 0..5u8
            invariant
                b_board.board == black_only(self.board),
                score == score_prefix(self.board, b_board.board, (i as int) * 5),
                -7 * ((i as int) * 5) <= score <= 20 * ((i as int) * 5),
        {
            for j in 0..5u8
                invariant
                    i < 5,
                    b_board.board == black_only(self.board),
                    score == score_prefix(self.board, b_board.board, (i as int) * 5 + (j as int)),
                    -7 * ((i as int) * 5 + (j as int)) <= score <= 20 * ((i as int) * 5 + (
                    j as int)),
            {
                let ghost k: int = (i as int) * 5 + (j as int);
                proof {
                    assert(k / 5 == i as int && k % 5 == j as int) by (nonlinear_arith)
                        requires
                            0 <= i < 5 && 0 <= j < 5 && k == (i as int) * 5 + (j as int),
                    ;
                }
                let piece = self.get(i, j);
                if piece == 1 {
                    score -= 7;
                } else if piece == 2 || piece == 3 {
                    if i == 0 || i == 4 || j == 0 || j == 4 {
                        score += 12;
                    } else if i == 1 || i == 3 || j == 1 || j == 3 {
                        score += 6;
                    }
                    score += 2 * (4 - self.count_white_blocked(b_board.board, i, j));

                    if piece == 3 && ((i > 0) && (b_board.get(i - 1, j) != 0) || (i < 4)
                        && (b_board.get(i + 1, j) != 0) || (j > 0) && (b_board.get(i, j - 1) != 0)
                        || (j < 4) && (b_board.get(i, j + 1) != 0)) {
                        score -= 5;
                    }
                }
            }
        }
        proof {
            assert(score == raw_score(self.board));
        }
        // The raw score is defender-centric: negate it for the attacker.
        let player = self.get_player();
        if player == 1 {
            proof {
                assert(player_of(self.board) == 1);
                assert(spec_eval(self.board) == raw_score(self.board) * -1);
                assert(raw_score(self.board) * -1 == -raw_score(self.board)) by (nonlinear_arith);
            }
            return -score;
        } else {
            proof {
                assert(spec_eval(self.board) == raw_score(self.board) * 1);
                assert(raw_score(self.board) * 1 == raw_score(self.board)) by (nonlinear_arith);
            }
            return score;
        }
    }

    /// All legal slides for the side to move.
    pub fn get_possible_moves(&self) -> (moves: Vec<TMove>)
        ensures
            forall|m: TMove| #[trigger] moves@.contains(m) <==> legal_move(self.board, m),
            distinct_moves(moves@),
    {
        proof {
            lemma_player_le_1(self.board);
        }
        if self.get_player() == 0 {
            return self.get_possible_moves_player::<0>();
        } else {
            return self.get_possible_moves_player::<1>();
        }
    }
}

} // verus!
