//! Adversarial search: negamax with alpha-beta pruning and a
//! principal-variation-search (PVS) variant with null-window probes, both
//! sharing one transposition table that caches the best reply per position.
//! Both engines are proved against `spec_negamax`, the reference game value.

use std::collections::HashMap;
use vstd::prelude::*;

use crate::board::Board;
use crate::board::legal_move;
use crate::board::player_of;
use crate::board::spec_eval;
use crate::board::spec_make_move;
use crate::board::spec_winner;
use crate::board::lemma_eval_bounds;
use crate::tmove::TMove;

verus! {

/// Declaration of std's `BuildHasherDefault`, which vstd does not specify; it
/// only ever appears as the hasher parameter of the transposition table.
#[verifier::external_type_specification]
#[verifier::external_body]
#[verifier::reject_recursive_types(H)]
pub struct ExBuildHasherDefault<H>(std::hash::BuildHasherDefault<H>);

/// Declaration of metrohash's 64-bit hasher state, used only as the
/// transposition table's hasher.
#[verifier::external_type_specification]
#[verifier::external_body]
pub struct ExMetroHash64(metrohash::MetroHash64);

/// A transposition-table entry: the best reply found earlier at a position.
#[derive(Clone, Copy)]
pub struct TTEntry {
    pub tmove: TMove,
}

/// The transposition table: packed positions to cached best replies, hashed
/// by metrohash.
pub type TranspoMap = HashMap<u64, TTEntry, metrohash::MetroBuildHasher>;

/// The table with no entries.
pub open spec fn empty_table() -> Map<u64, TTEntry> {
    Map::empty()
}

/// Relies on `HashMap::default` building an empty map with metrohash's
/// `MetroBuildHasher`.
#[verifier::external_body]
fn tt_new() -> (r: TranspoMap)
    ensures
        r@ == empty_table(),
{
    metrohash::MetroHashMap::default()
}

/// Relies on `HashMap::get`; `metrohash::MetroHash64` is a deterministic
/// hasher seeded with a constant, so the map behaves as a map from keys to
/// values.
#[verifier::external_body]
fn tt_get(m: &TranspoMap, k: u64) -> (r: Option<TTEntry>)
    ensures
        r == if m@.contains_key(k) {
            Some(m@[k])
        } else {
            None::<TTEntry>
        },
{
    m.get(&k).copied()
}

/// Relies on `HashMap::insert` with the deterministic `MetroHash64` hasher:
/// the entry under `k` is written, all others kept.
#[verifier::external_body]
fn tt_insert(m: &mut TranspoMap, k: u64, v: TTEntry)
    ensures
        final(m)@ == old(m)@.insert(k, v),
{
    m.insert(k, v);
}

/// Lower bound of a search result: the window's lower end or the lowest
/// terminal score, whichever is smaller.
pub open spec fn lo_bound(alpha: int, max_d: int) -> int {
    if alpha <= -(1001 + max_d) {
        alpha
    } else {
        -(1001 + max_d)
    }
}

/// Upper bound of a search result: the window's upper end or the highest
/// terminal score, whichever is larger.
pub open spec fn hi_bound(beta: int, max_d: int) -> int {
    if beta >= 1001 + max_d {
        beta
    } else {
        1001 + max_d
    }
}

/// Mate score at ply `d`, positive when the side to move has won: shallower
/// wins score higher.
pub open spec fn mate_score(d: int, mover_won: bool) -> int {
    if mover_won {
        1000 - d
    } else {
        -(1000 - d)
    }
}

/// The move whose coordinates are the four base-5 digits of `k`, most
/// significant first: every in-bounds move appears once for `0 <= k < 625`.
pub open spec fn quad_move(k: int) -> TMove {
    TMove {
        start: ((((k / 125) % 5) as u8), (((k / 25) % 5) as u8)),
        end: ((((k / 5) % 5) as u8), ((k % 5) as u8)),
    }
}

/// Index of an in-bounds move in that enumeration.
pub open spec fn move_idx(m: TMove) -> int {
    (m.start.0 as int) * 125 + (m.start.1 as int) * 25 + (m.end.0 as int) * 5 + (m.end.1 as int)
}

proof fn lemma_quad_move_roundtrip(m: TMove)
    requires
        m.in_bounds(),
    ensures
        0 <= move_idx(m) < 625,
        quad_move(move_idx(m)) == m,
{
    let a = m.start.0 as int;
    let b = m.start.1 as int;
    let c = m.end.0 as int;
    let e = m.end.1 as int;
    let k = a * 125 + b * 25 + c * 5 + e;
    assert((k / 125) % 5 == a && (k / 25) % 5 == b && (k / 5) % 5 == c && k % 5 == e)
        by (nonlinear_arith)
        requires
            0 <= a < 5 && 0 <= b < 5 && 0 <= c < 5 && 0 <= e < 5 && k == a * 125 + b * 25 + c * 5
                + e,
    ;
}

/// Best value over the first `k` enumerated moves that are legal in `b`:
/// the maximum of the negated reference values of their child positions, or
/// `None` when none of them is legal.
pub open spec fn best_value(b: u64, d: int, max_d: int, k: int) -> Option<int>
    decreases max_d - d, k,
{
    if d >= max_d || k <= 0 {
        None
    } else {
        let rest = best_value(b, d, max_d, k - 1);
        if legal_move(b, quad_move(k - 1)) {
            let w = -spec_negamax(spec_make_move(b, quad_move(k - 1)), d + 1, max_d);
            match rest {
                None => Some(w),
                Some(u) => Some(
                    if w > u {
                        w
                    } else {
                        u
                    },
                ),
            }
        } else {
            rest
        }
    }
}

/// The reference game value of `b` searched from ply `d` to `max_d`: the mate
/// score on a decided position, the static evaluation at the depth cutoff, an
/// immediate loss for a mover without replies, and otherwise the best negated
/// child value over all legal moves.
pub open spec fn spec_negamax(b: u64, d: int, max_d: int) -> int
    decreases max_d - d, 626int,
{
    if spec_winner(b) == Some(0u8) {
        mate_score(d, player_of(b) == 0)
    } else if spec_winner(b) == Some(1u8) {
        mate_score(d, player_of(b) == 1)
    } else if d >= max_d {
        spec_eval(b)
    } else {
        match best_value(b, d, max_d, 625) {
            None => -1000 + d,
            Some(w) => w,
        }
    }
}

proof fn lemma_best_value_props(b: u64, d: int, max_d: int, k: int)
    requires
        d < max_d,
        0 <= k,
    ensures
        (best_value(b, d, max_d, k) is None) <==> (forall|j: int|
            0 <= j < k ==> !legal_move(b, #[trigger] quad_move(j))),
        best_value(b, d, max_d, k) matches Some(w) ==> (exists|j: int|
            0 <= j < k && legal_move(b, #[trigger] quad_move(j)) && w == -spec_negamax(
                spec_make_move(b, quad_move(j)),
                d + 1,
                max_d,
            )),
        forall|j: int|
            0 <= j < k && legal_move(b, #[trigger] quad_move(j)) ==> (best_value(
                b,
                d,
                max_d,
                k,
            ) matches Some(w) && w >= -spec_negamax(spec_make_move(b, quad_move(j)), d + 1, max_d)),
    decreases k,
{
    if k > 0 {
        lemma_best_value_props(b, d, max_d, k - 1);
    }
}

/// For an undecided position below the depth cutoff, the reference value
/// dominates the negated value of every legal move's child, is realized by
/// one of them when any exists, and is the no-reply loss otherwise.
pub proof fn lemma_value_searched(b: u64, d: int, max_d: int)
    requires
        d < max_d,
    ensures
        forall|m: TMove| #[trigger]
            legal_move(b, m) ==> (spec_winner(b) is None ==> spec_negamax(b, d, max_d)
                >= -spec_negamax(spec_make_move(b, m), d + 1, max_d)),
        (spec_winner(b) is None && (exists|m: TMove| #[trigger] legal_move(b, m))) ==> (exists|
            m: TMove,
        | #[trigger]
            legal_move(b, m) && spec_negamax(b, d, max_d) == -spec_negamax(
                spec_make_move(b, m),
                d + 1,
                max_d,
            )),
        (spec_winner(b) is None && (forall|m: TMove| !legal_move(b, m))) ==> spec_negamax(
            b,
            d,
            max_d,
        ) == -1000 + d,
{
    lemma_best_value_props(b, d, max_d, 625);
    assert forall|m: TMove| #[trigger]
        legal_move(b, m) implies (spec_winner(b) is None ==> spec_negamax(b, d, max_d)
        >= -spec_negamax(spec_make_move(b, m), d + 1, max_d)) by {
        lemma_quad_move_roundtrip(m);
    }
    if spec_winner(b) is None && (exists|m: TMove| #[trigger] legal_move(b, m)) {
        let m0 = choose|m: TMove| #[trigger] legal_move(b, m);
        lemma_quad_move_roundtrip(m0);
        assert(best_value(b, d, max_d, 625) matches Some(w));
        let j0 = choose|j: int|
            0 <= j < 625 && legal_move(b, #[trigger] quad_move(j)) && best_value(
                b,
                d,
                max_d,
                625,
            )->Some_0 == -spec_negamax(spec_make_move(b, quad_move(j)), d + 1, max_d);
        assert(legal_move(b, quad_move(j0)) && spec_negamax(b, d, max_d) == -spec_negamax(
            spec_make_move(b, quad_move(j0)),
            d + 1,
            max_d,
        ));
    }
}

/// The reference value lies within the terminal-score bounds.
pub proof fn lemma_value_bounds(b: u64, d: int, max_d: int)
    requires
        -1 <= d <= max_d,
        0 <= max_d,
    ensures
        -(1001 + max_d) <= spec_negamax(b, d, max_d) <= 1001 + max_d,
    decreases max_d - d,
{
    lemma_eval_bounds(b);
    if spec_winner(b) is None && d < max_d {
        lemma_best_value_props(b, d, max_d, 625);
        match best_value(b, d, max_d, 625) {
            None => {},
            Some(w) => {
                let j0 = choose|j: int|
                    0 <= j < 625 && legal_move(b, #[trigger] quad_move(j)) && w == -spec_negamax(
                        spec_make_move(b, quad_move(j)),
                        d + 1,
                        max_d,
                    );
                lemma_value_bounds(spec_make_move(b, quad_move(j0)), d + 1, max_d);
            },
        }
    }
}

/// Whether some pair in `r` carries the move `m`.
pub open spec fn appears(r: Seq<(Board, TMove)>, m: TMove) -> bool {
    exists|t: int| 0 <= t < r.len() && r[t].1 == m
}

/// Children of `board` through the given legal moves, paired with their moves
/// and sorted by ascending static evaluation of the child position (a stable
/// insertion keeps the original order between equal scores); every given move
/// appears in the result.
fn sorted_children(board: &Board, possible_moves: &Vec<TMove>) -> (r: Vec<(Board, TMove)>)
    requires
        forall|m: TMove| #[trigger]
            possible_moves@.contains(m) ==> legal_move(board.board, m),
    ensures
        r@.len() == possible_moves@.len(),
        forall|t: int|
            0 <= t < r@.len() ==> possible_moves@.contains(#[trigger] r@[t].1) && r@[t].0.board
                == spec_make_move(board.board, r@[t].1),
        forall|t: int, u: int|
            0 <= t <= u < r@.len() ==> spec_eval(r@[t].0.board) <= spec_eval(r@[u].0.board),
        forall|s: int|
            0 <= s < possible_moves@.len() ==> appears(r@, #[trigger] possible_moves@[s]),
{
    let mut r: Vec<(Board, TMove)> = Vec::new();
    let mut n: usize = 0;
    while n < possible_moves.len()
        invariant
            forall|m: TMove| #[trigger]
                possible_moves@.contains(m) ==> legal_move(board.board, m),
            n <= possible_moves@.len(),
            r@.len() == n,
            forall|t: int|
                0 <= t < r@.len() ==> possible_moves@.contains(#[trigger] r@[t].1) && r@[t].0.board
                    == spec_make_move(board.board, r@[t].1),
            forall|t: int, u: int|
                0 <= t <= u < r@.len() ==> spec_eval(r@[t].0.board) <= spec_eval(r@[u].0.board),
            forall|s: int|
                0 <= s < n ==> appears(r@, #[trigger] possible_moves@[s]),
        decreases possible_moves@.len() - n,
    {
        let tmove = possible_moves[n];
        proof {
            assert(possible_moves@.contains(possible_moves@[n as int]));
        }
        let child = board.make_move(&tmove);
        let key = child.eval();

        // Find the first kept element evaluating above the new child, so that
        // equal scores keep their generation order.
        let mut pos: usize = 0;
        let mut found: bool = false;
        while pos < r.len() && !found
            invariant
                pos <= r@.len(),
                key == spec_eval(child.board),
                forall|t: int| 0 <= t < pos ==> spec_eval(r@[t].0.board) <= key as int,
                found ==> pos < r@.len() && spec_eval(r@[pos as int].0.board) > key as int,
                forall|t: int, u: int|
                    0 <= t <= u < r@.len() ==> spec_eval(r@[t].0.board) <= spec_eval(r@[u].0.board),
            decreases r@.len() - pos, (if found { 0int } else { 1int }),
        {
            let c = r[pos].0.eval();
            if c > key {
                found = true;
            } else {
                pos = pos + 1;
            }
        }

        let ghost before = r@;
        r.insert(pos, (child, tmove));
        proof {
            before.insert_ensures(pos as int, (child, tmove));
            assert forall|s: int| 0 <= s < n + 1 implies appears(
                r@,
                #[trigger] possible_moves@[s],
            ) by {
                if s < n {
                    assert(appears(before, possible_moves@[s]));
                    let t0 = choose|t: int|
                        0 <= t < before.len() && before[t].1 == possible_moves@[s];
                    if t0 < pos {
                        assert(r@[t0].1 == possible_moves@[s]);
                    } else {
                        assert(r@[t0 + 1].1 == possible_moves@[s]);
                    }
                } else {
                    assert(r@[pos as int].1 == possible_moves@[s]);
                }
            }
        }
        n = n + 1;
    }
    r
}

/// A search session: the transposition table, owned for the session's
/// lifetime and never cleared, and diagnostic call counters.
pub struct Negamax {
    pub map: TranspoMap,
    pub zero_window_calls: i32,
    pub pvs_failed_calls: i32,
    pub transpo_calls: i32,
    pub normal_calls: i32,
}

impl Negamax {
    /// Every cached entry is a legal move of the position that keys it.
    pub open spec fn wf(self) -> bool {
        forall|k: u64| #[trigger]
            self.map@.contains_key(k) ==> legal_move(k, self.map@[k].tmove)
    }

    /// Negamax with alpha-beta pruning over the window `(alpha, beta)`. The
    /// returned score agrees with the reference value `spec_negamax` whenever
    /// that value lies inside the window, and bounds it from the correct side
    /// when the search fails high or low; the table only gains entries, each
    /// a legal move of its keyed position.
    pub fn negamax(&mut self, board: &Board, d: i32, max_d: i32, alpha: i32, beta: i32) -> (r: (
        i32,
        Option<TMove>,
    ))
        requires
            old(self).wf(),
            -1 <= d <= max_d,
            0 <= max_d <= 8000,
            -100_000 <= alpha < beta <= 100_000,
        ensures
            final(self).wf(),
            old(self).map@.dom().subset_of(final(self).map@.dom()),
            spec_winner(board.board) == Some(0u8) ==> r.0 == mate_score(
                d as int,
                player_of(board.board) == 0,
            ) && r.1 is None,
            spec_winner(board.board) == Some(1u8) ==> r.0 == mate_score(
                d as int,
                player_of(board.board) == 1,
            ) && r.1 is None,
            spec_winner(board.board) is None && d == max_d ==> r.0 == spec_eval(board.board)
                && r.1 is None,
            spec_winner(board.board) is None && d < max_d && (forall|m: TMove|
                !legal_move(board.board, m)) ==> r.0 == -1000 + d && r.1 is None,
            spec_winner(board.board) is Some ==> final(self).map@ == old(self).map@,
            spec_winner(board.board) is None && d == max_d ==> final(self).map@ == old(self).map@,
            spec_winner(board.board) is None && d < max_d && (forall|m: TMove|
                !legal_move(board.board, m)) ==> final(self).map@ == old(self).map@,
            alpha < spec_negamax(board.board, d as int, max_d as int) < beta ==> r.0
                == spec_negamax(board.board, d as int, max_d as int),
            spec_negamax(board.board, d as int, max_d as int) >= beta ==> r.0 >= beta,
            spec_negamax(board.board, d as int, max_d as int) <= alpha ==> r.0 <= alpha,
            r.0 >= beta ==> spec_negamax(board.board, d as int, max_d as int) >= r.0,
            r.0 <= alpha ==> spec_negamax(board.board, d as int, max_d as int) <= r.0,
            (spec_winner(board.board) is None && d < max_d && (exists|m: TMove|
                legal_move(board.board, m)) && alpha < r.0 < beta) ==> (r.1 matches Some(bm)
                && r.0 == -spec_negamax(
                spec_make_move(board.board, bm),
                d as int + 1,
                max_d as int,
            )),
            r.1 matches Some(m) ==> legal_move(board.board, m),
            lo_bound(alpha as int, max_d as int) <= r.0 <= hi_bound(beta as int, max_d as int),
        decreases max_d - d,
    {
        let player = board.get_player();
        match board.get_winner() {
            Some(w) => {
                if w == 0 {
                    if player == 0 {
                        return (1000 - d, None);
                    } else {
                        return (-(1000 - d), None);
                    }
                } else {
                    if player == 1 {
                        return (1000 - d, None);
                    } else {
                        return (-(1000 - d), None);
                    }
                }
            },
            None => {},
        }

        if d == max_d {
            return (board.eval(), None);
        }

        let ghost bb: u64 = board.board;
        let ghost vv: int = spec_negamax(bb, d as int, max_d as int);
        proof {
            lemma_value_searched(bb, d as int, max_d as int);
        }

        let entry = tt_get(&self.map, board.board);
        let mut first_attempt: Option<TMove> = None;
        let mut max: i32 = alpha;
        let mut best_move: Option<TMove> = None;

        match entry {
            Some(tentry) => {
                proof {
                    assert(self.map@.contains_key(board.board));
                    assert(legal_move(bb, tentry.tmove));
                }
                first_attempt = Some(tentry.tmove);
                best_move = first_attempt;
                if self.transpo_calls < i32::MAX {
                    self.transpo_calls = self.transpo_calls + 1;
                }
                let child = board.make_move(&tentry.tmove);
                let sub = self.negamax(&child, d + 1, max_d, -beta, -alpha);
                max = -sub.0;
                proof {
                    let vc = spec_negamax(child.board, d as int + 1, max_d as int);
                    assert(vv >= -vc);
                    if vc >= -(alpha as int) {
                        assert(max <= alpha && -vc <= max as int);
                    } else if vc <= -(beta as int) {
                        assert(max >= beta && -vc >= max as int && vv >= max as int);
                    } else {
                        assert(sub.0 == vc && max as int == -vc);
                    }
                }
            },
            None => {},
        }

        if max < beta {
            let possible_moves = board.get_possible_moves();

            // A mover without a reply has lost; the table cannot hold a move
            // for this position, every cached move being legal.
            if possible_moves.len() == 0 {
                proof {
                    if self.map@.contains_key(board.board) {
                        let mv = self.map@[board.board].tmove;
                        assert(legal_move(bb, mv));
                        assert(possible_moves@.contains(mv));
                    }
                    assert forall|m: TMove| !legal_move(bb, m) by {
                        if legal_move(bb, m) {
                            assert(possible_moves@.contains(m));
                        }
                    }
                    assert(vv == -1000 + d);
                }
                return (-1000 + d, first_attempt);
            }
            proof {
                assert(possible_moves@.contains(possible_moves@[0]));
                assert(legal_move(bb, possible_moves@[0]));
            }

            let moved_boards = sorted_children(board, &possible_moves);
            proof {
                assert forall|m: TMove| #[trigger]
                    legal_move(bb, m) implies appears(moved_boards@, m) by {
                    assert(possible_moves@.contains(m));
                    let s0 = choose|s: int|
                        0 <= s < possible_moves@.len() && possible_moves@[s] == m;
                    assert(appears(moved_boards@, possible_moves@[s0]));
                }
            }

            let mut idx: usize = 0;
            while idx < moved_boards.len()
                invariant_except_break
                    max < beta,
                    max as int <= alpha as int || (exists|m: TMove| #[trigger]
                        legal_move(bb, m) && max as int == -spec_negamax(
                            spec_make_move(bb, m),
                            d as int + 1,
                            max_d as int,
                        )),
                    forall|t: int|
                        0 <= t < idx ==> -spec_negamax(
                            spec_make_move(bb, #[trigger] moved_boards@[t].1),
                            d as int + 1,
                            max_d as int,
                        ) <= max as int,
                    first_attempt matches Some(fm) ==> -spec_negamax(
                        spec_make_move(bb, fm),
                        d as int + 1,
                        max_d as int,
                    ) <= max as int,
                    max > alpha ==> (best_move matches Some(bm) && max as int == -spec_negamax(
                        spec_make_move(bb, bm),
                        d as int + 1,
                        max_d as int,
                    )),
                invariant
                    self.wf(),
                    old(self).map@.dom().subset_of(self.map@.dom()),
                    -1 <= d < max_d,
                    0 <= max_d <= 8000,
                    -100_000 <= alpha < beta <= 100_000,
                    idx <= moved_boards@.len(),
                    bb == board.board,
                    vv == spec_negamax(bb, d as int, max_d as int),
                    spec_winner(bb) is None,
                    forall|t: int|
                        0 <= t < moved_boards@.len() ==> legal_move(
                            bb,
                            #[trigger] moved_boards@[t].1,
                        ) && moved_boards@[t].0.board == spec_make_move(bb, moved_boards@[t].1),
                    forall|m: TMove| #[trigger] legal_move(bb, m) ==> appears(moved_boards@, m),
                    forall|m: TMove| #[trigger]
                        legal_move(bb, m) ==> vv >= -spec_negamax(
                            spec_make_move(bb, m),
                            d as int + 1,
                            max_d as int,
                        ),
                    exists|m: TMove| #[trigger]
                        legal_move(bb, m) && vv == -spec_negamax(
                            spec_make_move(bb, m),
                            d as int + 1,
                            max_d as int,
                        ),
                    first_attempt matches Some(fm) ==> legal_move(bb, fm),
                    lo_bound(alpha as int, max_d as int) <= max as int <= hi_bound(
                        beta as int,
                        max_d as int,
                    ),
                    best_move matches Some(m) ==> legal_move(bb, m),
                ensures
                    self.wf(),
                    old(self).map@.dom().subset_of(self.map@.dom()),
                    best_move matches Some(m) ==> legal_move(bb, m),
                    lo_bound(alpha as int, max_d as int) <= max as int <= hi_bound(
                        beta as int,
                        max_d as int,
                    ),
                    max >= beta ==> vv >= max as int,
                    max < beta ==> vv <= max as int,
                    max < beta && max > alpha ==> (max as int == vv && (best_move matches Some(bm)
                        && max as int == -spec_negamax(
                        spec_make_move(bb, bm),
                        d as int + 1,
                        max_d as int,
                    ))),
                decreases moved_boards@.len() - idx,
            {
                let (moved_board, tmove) = moved_boards[idx];
                proof {
                    assert(moved_boards@[idx as int].1 == tmove);
                    assert(legal_move(bb, tmove));
                    assert(moved_board.board == spec_make_move(bb, tmove));
                }
                let ghost vc: int = spec_negamax(
                    spec_make_move(bb, tmove),
                    d as int + 1,
                    max_d as int,
                );
                let skip: bool = match first_attempt {
                    Some(fa) => fa == tmove,
                    None => false,
                };
                if !skip {
                    if self.normal_calls < i32::MAX {
                        self.normal_calls = self.normal_calls + 1;
                    }
                    let sub = self.negamax(&moved_board, d + 1, max_d, -beta, -max);
                    let value = -sub.0;
                    proof {
                        if vc >= -(max as int) {
                            assert(vc >= sub.0 as int);
                            assert(value <= max && -vc <= max as int);
                        } else if vc <= -(beta as int) {
                            assert(vc <= sub.0 as int);
                            assert(value >= beta && -vc >= value as int);
                        } else {
                            assert(sub.0 == vc && value as int == -vc);
                        }
                    }
                    if value > max {
                        max = value;
                        best_move = Some(tmove);
                        if max >= beta {
                            proof {
                                assert(-vc >= max as int);
                                assert(vv >= -vc);
                            }
                            break;
                        }
                    }
                }
                idx = idx + 1;
            }

            match best_move {
                Some(tmove) => {
                    tt_insert(&mut self.map, board.board, TTEntry { tmove });
                },
                None => {},
            }
        }
        proof {
            if max < beta && max > alpha {
                assert(vv == max as int);
            }
        }
        return (max, best_move);
    }

    /// Principal-variation search: identical to `negamax` except that after
    /// the first child actually searched, each further child is probed with a
    /// null window first and re-searched with the full window only when the
    /// probe lands strictly between the current best and `beta`. The probes
    /// never change the returned score.
    pub fn pvs(&mut self, board: &Board, d: i32, max_d: i32, alpha: i32, beta: i32) -> (r: (
        i32,
        Option<TMove>,
    ))
        requires
            old(self).wf(),
            -1 <= d <= max_d,
            0 <= max_d <= 8000,
            -100_000 <= alpha < beta <= 100_000,
        ensures
            final(self).wf(),
            old(self).map@.dom().subset_of(final(self).map@.dom()),
            spec_winner(board.board) == Some(0u8) ==> r.0 == mate_score(
                d as int,
                player_of(board.board) == 0,
            ) && r.1 is None,
            spec_winner(board.board) == Some(1u8) ==> r.0 == mate_score(
                d as int,
                player_of(board.board) == 1,
            ) && r.1 is None,
            spec_winner(board.board) is None && d == max_d ==> r.0 == spec_eval(board.board)
                && r.1 is None,
            spec_winner(board.board) is None && d < max_d && (forall|m: TMove|
                !legal_move(board.board, m)) ==> r.0 == -1000 + d && r.1 is None,
            spec_winner(board.board) is Some ==> final(self).map@ == old(self).map@,
            spec_winner(board.board) is None && d == max_d ==> final(self).map@ == old(self).map@,
            spec_winner(board.board) is None && d < max_d && (forall|m: TMove|
                !legal_move(board.board, m)) ==> final(self).map@ == old(self).map@,
            alpha < spec_negamax(board.board, d as int, max_d as int) < beta ==> r.0
                == spec_negamax(board.board, d as int, max_d as int),
            spec_negamax(board.board, d as int, max_d as int) >= beta ==> r.0 >= beta,
            spec_negamax(board.board, d as int, max_d as int) <= alpha ==> r.0 <= alpha,
            r.0 >= beta ==> spec_negamax(board.board, d as int, max_d as int) >= r.0,
            r.0 <= alpha ==> spec_negamax(board.board, d as int, max_d as int) <= r.0,
            (spec_winner(board.board) is None && d < max_d && (exists|m: TMove|
                legal_move(board.board, m)) && alpha < r.0 < beta) ==> (r.1 matches Some(bm)
                && r.0 == -spec_negamax(
                spec_make_move(board.board, bm),
                d as int + 1,
                max_d as int,
            )),
            r.1 matches Some(m) ==> legal_move(board.board, m),
            lo_bound(alpha as int, max_d as int) <= r.0 <= hi_bound(beta as int, max_d as int),
        decreases max_d - d,
    {
        let player = board.get_player();
        match board.get_winner() {
            Some(w) => {
                if w == 0 {
                    if player == 0 {
                        return (1000 - d, None);
                    } else {
                        return (-(1000 - d), None);
                    }
                } else {
                    if player == 1 {
                        return (1000 - d, None);
                    } else {
                        return (-(1000 - d), None);
                    }
                }
            },
            None => {},
        }

        if d == max_d {
            return (board.eval(), None);
        }

        let ghost bb: u64 = board.board;
        let ghost vv: int = spec_negamax(bb, d as int, max_d as int);
        proof {
            lemma_value_searched(bb, d as int, max_d as int);
        }

        let entry = tt_get(&self.map, board.board);
        let mut first_attempt: Option<TMove> = None;
        let mut max: i32 = alpha;
        let mut best_move: Option<TMove> = None;
        let mut first_child_searched: bool = false;

        match entry {
            Some(tentry) => {
                proof {
                    assert(self.map@.contains_key(board.board));
                    assert(legal_move(bb, tentry.tmove));
                }
                first_attempt = Some(tentry.tmove);
                best_move = first_attempt;
                first_child_searched = true;
                if self.transpo_calls < i32::MAX {
                    self.transpo_calls = self.transpo_calls + 1;
                }
                let child = board.make_move(&tentry.tmove);
                let sub = self.pvs(&child, d + 1, max_d, -beta, -alpha);
                max = -sub.0;
                proof {
                    let vc = spec_negamax(child.board, d as int + 1, max_d as int);
                    assert(vv >= -vc);
                    if vc >= -(alpha as int) {
                        assert(max <= alpha && -vc <= max as int);
                    } else if vc <= -(beta as int) {
                        assert(max >= beta && -vc >= max as int && vv >= max as int);
                    } else {
                        assert(sub.0 == vc && max as int == -vc);
                    }
                }
            },
            None => {},
        }

        if max < beta {
            let possible_moves = board.get_possible_moves();

            // A mover without a reply has lost; the table cannot hold a move
            // for this position, every cached move being legal.
            if possible_moves.len() == 0 {
                proof {
                    if self.map@.contains_key(board.board) {
                        let mv = self.map@[board.board].tmove;
                        assert(legal_move(bb, mv));
                        assert(possible_moves@.contains(mv));
                    }
                    assert forall|m: TMove| !legal_move(bb, m) by {
                        if legal_move(bb, m) {
                            assert(possible_moves@.contains(m));
                        }
                    }
                    assert(vv == -1000 + d);
                }
                return (-1000 + d, first_attempt);
            }
            proof {
                assert(possible_moves@.contains(possible_moves@[0]));
                assert(legal_move(bb, possible_moves@[0]));
            }

            let moved_boards = sorted_children(board, &possible_moves);
            proof {
                assert forall|m: TMove| #[trigger]
                    legal_move(bb, m) implies appears(moved_boards@, m) by {
                    assert(possible_moves@.contains(m));
                    let s0 = choose|s: int|
                        0 <= s < possible_moves@.len() && possible_moves@[s] == m;
                    assert(appears(moved_boards@, possible_moves@[s0]));
                }
            }

            let mut idx: usize = 0;
            while idx < moved_boards.len()
                invariant_except_break
                    max < beta,
                    max as int <= alpha as int || (exists|m: TMove| #[trigger]
                        legal_move(bb, m) && max as int == -spec_negamax(
                            spec_make_move(bb, m),
                            d as int + 1,
                            max_d as int,
                        )),
                    forall|t: int|
                        0 <= t < idx ==> -spec_negamax(
                            spec_make_move(bb, #[trigger] moved_boards@[t].1),
                            d as int + 1,
                            max_d as int,
                        ) <= max as int,
                    first_attempt matches Some(fm) ==> -spec_negamax(
                        spec_make_move(bb, fm),
                        d as int + 1,
                        max_d as int,
                    ) <= max as int,
                    max > alpha ==> (best_move matches Some(bm) && max as int == -spec_negamax(
                        spec_make_move(bb, bm),
                        d as int + 1,
                        max_d as int,
                    )),
                invariant
                    self.wf(),
                    old(self).map@.dom().subset_of(self.map@.dom()),
                    -1 <= d < max_d,
                    0 <= max_d <= 8000,
                    -100_000 <= alpha < beta <= 100_000,
                    idx <= moved_boards@.len(),
                    bb == board.board,
                    vv == spec_negamax(bb, d as int, max_d as int),
                    spec_winner(bb) is None,
                    forall|t: int|
                        0 <= t < moved_boards@.len() ==> legal_move(
                            bb,
                            #[trigger] moved_boards@[t].1,
                        ) && moved_boards@[t].0.board == spec_make_move(bb, moved_boards@[t].1),
                    forall|m: TMove| #[trigger] legal_move(bb, m) ==> appears(moved_boards@, m),
                    forall|m: TMove| #[trigger]
                        legal_move(bb, m) ==> vv >= -spec_negamax(
                            spec_make_move(bb, m),
                            d as int + 1,
                            max_d as int,
                        ),
                    exists|m: TMove| #[trigger]
                        legal_move(bb, m) && vv == -spec_negamax(
                            spec_make_move(bb, m),
                            d as int + 1,
                            max_d as int,
                        ),
                    first_attempt matches Some(fm) ==> legal_move(bb, fm),
                    lo_bound(alpha as int, max_d as int) <= max as int <= hi_bound(
                        beta as int,
                        max_d as int,
                    ),
                    best_move matches Some(m) ==> legal_move(bb, m),
                ensures
                    self.wf(),
                    old(self).map@.dom().subset_of(self.map@.dom()),
                    best_move matches Some(m) ==> legal_move(bb, m),
                    lo_bound(alpha as int, max_d as int) <= max as int <= hi_bound(
                        beta as int,
                        max_d as int,
                    ),
                    max >= beta ==> vv >= max as int,
                    max < beta ==> vv <= max as int,
                    max < beta && max > alpha ==> (max as int == vv && (best_move matches Some(bm)
                        && max as int == -spec_negamax(
                        spec_make_move(bb, bm),
                        d as int + 1,
                        max_d as int,
                    ))),
                decreases moved_boards@.len() - idx,
            {
                let (moved_board, tmove) = moved_boards[idx];
                proof {
                    assert(moved_boards@[idx as int].1 == tmove);
                    assert(legal_move(bb, tmove));
                    assert(moved_board.board == spec_make_move(bb, tmove));
                }
                let ghost vc: int = spec_negamax(
                    spec_make_move(bb, tmove),
                    d as int + 1,
                    max_d as int,
                );
                let skip: bool = match first_attempt {
                    Some(fa) => fa == tmove,
                    None => false,
                };
                if !skip {
                    let value: i32;
                    if first_child_searched {
                        // Null-window probe; trust it unless it suggests this
                        // child beats the current best below `beta`.
                        if self.zero_window_calls < i32::MAX {
                            self.zero_window_calls = self.zero_window_calls + 1;
                        }
                        let sub = self.pvs(&moved_board, d + 1, max_d, -max - 1, -max);
                        let score = -sub.0;
                        proof {
                            if vc >= -(max as int) {
                                assert(vc >= sub.0 as int);
                                assert(score <= max && -vc <= max as int);
                            } else {
                                assert(vc <= -(max as int) - 1);
                                assert(vc <= sub.0 as int);
                                assert(score >= max + 1 && -vc >= score as int);
                            }
                        }
                        if max < score && score < beta {
                            if self.pvs_failed_calls < i32::MAX {
                                self.pvs_failed_calls = self.pvs_failed_calls + 1;
                            }
                            let sub2 = self.pvs(&moved_board, d + 1, max_d, -beta, -max);
                            value = -sub2.0;
                            proof {
                                if vc <= -(beta as int) {
                                    assert(vc <= sub2.0 as int);
                                    assert(value >= beta && -vc >= value as int);
                                } else {
                                    assert(sub2.0 == vc && value as int == -vc);
                                }
                            }
                        } else {
                            value = score;
                        }
                    } else {
                        first_child_searched = true;
                        if self.normal_calls < i32::MAX {
                            self.normal_calls = self.normal_calls + 1;
                        }
                        let sub = self.pvs(&moved_board, d + 1, max_d, -beta, -max);
                        value = -sub.0;
                        proof {
                            if vc >= -(max as int) {
                                assert(vc >= sub.0 as int);
                                assert(value <= max && -vc <= max as int);
                            } else if vc <= -(beta as int) {
                                assert(vc <= sub.0 as int);
                                assert(value >= beta && -vc >= value as int);
                            } else {
                                assert(sub.0 == vc && value as int == -vc);
                            }
                        }
                    }
                    if value > max {
                        max = value;
                        best_move = Some(tmove);
                        if max >= beta {
                            proof {
                                assert(-vc >= max as int);
                                assert(vv >= -vc);
                            }
                            break;
                        }
                    }
                }
                idx = idx + 1;
            }

            match best_move {
                Some(tmove) => {
                    tt_insert(&mut self.map, board.board, TTEntry { tmove });
                },
                None => {},
            }
        }
        proof {
            if max < beta && max > alpha {
                assert(vv == max as int);
            }
        }
        return (max, best_move);
    }

    /// Top-level search to `depth` plies over the full window, starting the
    /// ply counter at -1: the returned score is exactly the reference value
    /// `spec_negamax`, a decided position returns its mate score with no
    /// move, and depth 0 returns the static evaluation with no move.
    pub fn solve(&mut self, board: &Board, depth: i32, pvs: bool) -> (r: (i32, Option<TMove>))
        requires
            old(self).wf(),
            0 <= depth <= 8000,
        ensures
            final(self).wf(),
            old(self).map@.dom().subset_of(final(self).map@.dom()),
            spec_winner(board.board) == Some(0u8) ==> r.0 == mate_score(
                -1,
                player_of(board.board) == 0,
            ) && r.1 is None,
            spec_winner(board.board) == Some(1u8) ==> r.0 == mate_score(
                -1,
                player_of(board.board) == 1,
            ) && r.1 is None,
            spec_winner(board.board) is Some ==> final(self).map@ == old(self).map@,
            spec_winner(board.board) is None && depth == 0 ==> r.0 == spec_eval(board.board)
                && r.1 is None && final(self).map@ == old(self).map@,
            depth > 0 ==> r.0 == spec_negamax(board.board, -1, depth as int),
            (spec_winner(board.board) is None && depth > 0 && (exists|m: TMove|
                legal_move(board.board, m))) ==> (r.1 matches Some(bm) && r.0 == -spec_negamax(
                spec_make_move(board.board, bm),
                0,
                depth as int,
            )),
            r.1 matches Some(m) ==> legal_move(board.board, m),
            lo_bound(-10_000, depth as int) <= r.0 <= hi_bound(10_000, depth as int),
    {
        if depth == 0 {
            match board.get_winner() {
                Some(_) => {},
                None => {
                    return (board.eval(), None);
                },
            }
        }
        proof {
            lemma_value_bounds(board.board, -1, depth as int);
        }
        if pvs {
            return self.pvs(board, -1, depth, -10_000, 10_000);
        } else {
            return self.negamax(board, -1, depth, -10_000, 10_000);
        }
    }

    /// A fresh session with an empty table and zeroed counters.
    pub fn new() -> (r: Negamax)
        ensures
            r.wf(),
            r.map@ == empty_table(),
            r.zero_window_calls == 0,
            r.pvs_failed_calls == 0,
            r.transpo_calls == 0,
            r.normal_calls == 0,
    {
        Negamax {
            map: tt_new(),
            pvs_failed_calls: 0,
            zero_window_calls: 0,
            normal_calls: 0,
            transpo_calls: 0,
        }
    }
}

} // verus!
