use tafl::board::Board;
use tafl::tmove::TMove;

const START: u64 = 0b0_0100010001_0000100000_0110111001_0000100000_0100010001;

#[test]
fn winner_no_king_is_attacker_win() {
    let board = Board::new(0);
    assert_eq!(board.get_winner(), Some(1));

    // Attackers and defenders but no king: still an attacker win.
    let board = Board::new(0).set(1, 1, 1).set(3, 3, 2);
    assert_eq!(board.get_winner(), Some(1));
}

#[test]
fn winner_king_on_outer_ring_is_defender_win() {
    assert_eq!(Board::new(0).set(0, 2, 3).get_winner(), Some(0));
    assert_eq!(Board::new(0).set(4, 2, 3).get_winner(), Some(0));
    assert_eq!(Board::new(0).set(2, 0, 3).get_winner(), Some(0));
    assert_eq!(Board::new(0).set(2, 4, 3).get_winner(), Some(0));
    assert_eq!(Board::new(0).set(0, 0, 3).get_winner(), Some(0));
}

#[test]
fn winner_king_inside_is_undecided() {
    assert_eq!(Board::new(0).set(2, 2, 3).get_winner(), None);
    assert_eq!(Board::new(0).set(1, 3, 3).get_winner(), None);
    assert_eq!(Board::new(0).set(3, 1, 3).set(0, 0, 1).get_winner(), None);
}

#[test]
fn capture_needs_both_flanking_pieces() {
    // Defender to move; an attacker on (2, 2) with a defender behind it on
    // (3, 2); moving a defender from (1, 0) to (1, 2) flanks and captures it.
    let board = Board::new(0).set(2, 2, 1).set(3, 2, 2).set(1, 0, 2);
    let after = board.make_move(&TMove { start: (1, 0), end: (1, 2) });
    assert_eq!(after.get(1, 2), 2);
    assert_eq!(after.get(2, 2), 0, "flanked attacker must be captured");

    // Without the far flanking defender the attacker survives.
    let board = Board::new(0).set(2, 2, 1).set(1, 0, 2);
    let after = board.make_move(&TMove { start: (1, 0), end: (1, 2) });
    assert_eq!(after.get(2, 2), 1, "a single flanking piece captures nothing");
}

#[test]
fn capture_works_for_attackers_and_against_king() {
    // Attacker to move; a defender on (2, 2) with an attacker behind it.
    let board = Board::new(0).set(2, 2, 2).set(3, 2, 1).set(1, 0, 1).set_player(1);
    let after = board.make_move(&TMove { start: (1, 0), end: (1, 2) });
    assert_eq!(after.get(2, 2), 0, "flanked defender must be captured");

    // The king is captured like any defender.
    let board = Board::new(0).set(2, 2, 3).set(3, 2, 1).set(1, 0, 1).set_player(1);
    let after = board.make_move(&TMove { start: (1, 0), end: (1, 2) });
    assert_eq!(after.get(2, 2), 0);
    assert_eq!(after.get_winner(), Some(1));
}

#[test]
fn apply_move_flips_side_to_move() {
    let board = Board::new(START);
    assert_eq!(board.get_player(), 0);
    let moves = board.get_possible_moves();
    let after = board.make_move(&moves[0]);
    assert_eq!(after.get_player(), 1);
    let back = after.make_move(&after.get_possible_moves()[0]);
    assert_eq!(back.get_player(), 0);
}

#[test]
fn start_position_moves_belong_to_the_mover() {
    let board = Board::new(START);
    let moves = board.get_possible_moves();
    assert!(!moves.is_empty());
    for m in &moves {
        let piece = board.get(m.start.0, m.start.1);
        // Defenders move pieces of value 2 or 3 only.
        assert!(piece > 1, "move of a piece not owned by the side to move");
    }

    let board = Board::new(START).set_player(1);
    let moves = board.get_possible_moves();
    assert!(!moves.is_empty());
    for m in &moves {
        assert_eq!(board.get(m.start.0, m.start.1), 1);
    }
}

#[test]
fn moves_slide_to_every_empty_square_on_the_way() {
    // A lone defender in the centre of an empty board reaches every square of
    // its row and column: 8 destinations.
    let board = Board::new(0).set(2, 2, 2);
    let moves = board.get_possible_moves();
    assert_eq!(moves.len(), 8);

    // A blocking piece stops the scan: with an attacker on (4, 2), the
    // defender loses the destination (4, 2) only.
    let board = Board::new(0).set(2, 2, 2).set(4, 2, 1);
    let moves = board.get_possible_moves();
    assert_eq!(moves.len(), 7);
    assert!(!moves.contains(&TMove { start: (2, 2), end: (4, 2) }));
    assert!(moves.contains(&TMove { start: (2, 2), end: (3, 2) }));
}

#[test]
fn eval_counts_pieces_rings_and_blocking() {
    // A lone attacker costs 7; defenders are to move, so the sign is kept.
    let board = Board::new(0).set(2, 2, 1);
    assert_eq!(board.eval(), -7);
    // The same position from the attacker's perspective is +7.
    assert_eq!(board.set_player(1).eval(), 7);

    // A lone centre defender: no ring bonus, four unblocked directions.
    let board = Board::new(0).set(2, 2, 2);
    assert_eq!(board.eval(), 8);

    // A lone corner defender: outer-ring bonus 12 plus 8.
    let board = Board::new(0).set(0, 0, 2);
    assert_eq!(board.eval(), 20);

    // A middle-ring defender: bonus 6 plus 8.
    let board = Board::new(0).set(1, 1, 2);
    assert_eq!(board.eval(), 14);

    // King pressured by an adjacent attacker: the attacker costs 7; the king
    // gets 2 * 3 for three free directions and loses 5 for the pressure.
    let board = Board::new(0).set(2, 2, 3).set(2, 1, 1);
    assert_eq!(board.eval(), -7 + 6 - 5);
}

#[test]
fn max_moves_scan_stops_at_pieces() {
    let board = Board::new(0).set(2, 2, 2).set(4, 2, 1).set(2, 0, 1);
    let (min_x, max_x, min_y, max_y) = board.get_max_moves_piece(2, 2);
    assert_eq!(min_x, 0);
    assert_eq!(max_x, 3);
    assert_eq!(min_y, 1);
    assert_eq!(max_y, 4);
}
