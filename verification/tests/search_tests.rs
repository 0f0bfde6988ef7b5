use tafl::board::Board;
use tafl::search::Negamax;

const START: u64 = 0b0_0100010001_0000100000_0110111001_0000100000_0100010001;
const BENCHMARK: u64 = 0b0_0000010000_0100000001_0110101001_0111000010_0001000001;
const EIGHTEEN_MOVE: u64 = 0b0_0100010000_0000000100_0110101001_0111000010_0001000001;

#[test]
fn solve_at_depth_zero_is_the_evaluation() {
    for bits in [START, BENCHMARK, EIGHTEEN_MOVE] {
        let board = Board::new(bits);
        let mut session = Negamax::new();
        let result = session.solve(&board, 0, false);
        assert_eq!(result.0, board.eval());
        assert!(result.1.is_none());

        let mut session = Negamax::new();
        let result = session.solve(&board, 0, true);
        assert_eq!(result.0, board.eval());
        assert!(result.1.is_none());
    }
}

#[test]
fn solve_is_deterministic_from_a_fresh_table() {
    for pvs in [false, true] {
        let board = Board::new(START);
        let mut first = Negamax::new();
        let a = first.solve(&board, 3, pvs);
        let mut second = Negamax::new();
        let b = second.solve(&board, 3, pvs);
        assert_eq!(a.0, b.0);
        assert_eq!(a.1, b.1);
    }
}

#[test]
fn pvs_and_negamax_agree_on_scores() {
    for bits in [START, BENCHMARK, EIGHTEEN_MOVE] {
        for depth in 1..=3 {
            let board = Board::new(bits);
            let mut plain = Negamax::new();
            let a = plain.solve(&board, depth, false);
            let mut probing = Negamax::new();
            let b = probing.solve(&board, depth, true);
            assert_eq!(a.0, b.0, "depth {depth} on {bits:#b}");
        }
    }
}

#[test]
fn solve_on_a_decided_position_returns_the_mate_score() {
    // No king: the attackers have won; at the starting ply the mate score is
    // 1000 - (-1), negative for the defenders to move.
    let board = Board::new(0).set(2, 2, 1);
    let mut session = Negamax::new();
    let result = session.solve(&board, 4, false);
    assert_eq!(result.0, -1001);
    assert!(result.1.is_none());

    // Attackers to move on the same board: they have won.
    let mut session = Negamax::new();
    let result = session.solve(&board.set_player(1), 4, false);
    assert_eq!(result.0, 1001);
    assert!(result.1.is_none());
}

#[test]
fn mate_in_one_scores_a_win_with_the_winning_move() {
    // A lone king one slide from the edge: any of its moves wins; the mate is
    // found one ply into the search, so it scores 1000 - 0.
    let board = Board::new(0).set(2, 1, 3);
    for pvs in [false, true] {
        let mut session = Negamax::new();
        let (score, best) = session.solve(&board, 2, pvs);
        assert_eq!(score, 1000);
        let best = best.expect("a winning move must be returned");
        let after = board.make_move(&best);
        assert_eq!(after.get_winner(), Some(0));
    }
}

#[test]
fn a_mover_without_replies_loses() {
    // Attackers to move with no attacker on the board: no legal move, scored
    // as an immediate loss at the starting ply, -1000 + (-1).
    let board = Board::new(0).set(2, 2, 3).set_player(1);
    let mut session = Negamax::new();
    let result = session.solve(&board, 2, false);
    assert_eq!(result.0, -1001);
    assert!(result.1.is_none());
}

#[test]
fn pvs_probes_with_null_windows() {
    let board = Board::new(START);
    let mut session = Negamax::new();
    session.solve(&board, 3, true);
    assert!(session.normal_calls > 0);
    assert!(
        session.zero_window_calls > 0,
        "after the first child, further children are probed with a null window"
    );
}

#[test]
fn transposition_table_grows_and_is_reused() {
    let board = Board::new(START);
    let mut session = Negamax::new();
    assert_eq!(session.map.len(), 0);

    let cold = session.solve(&board, 2, false);
    let cached = session.map.len();
    assert!(cached > 0, "the search must cache best replies");

    // The same session searches again with a warm table; the table is never
    // cleared and the cached move seeds the same result.
    let warm = session.solve(&board, 2, false);
    assert_eq!(cold.0, warm.0);
    assert!(session.map.len() >= cached);
    assert!(session.transpo_calls > 0);
}
