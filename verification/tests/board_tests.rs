use tafl::board::Board;
use tafl::tmove::TMove;

#[test]
fn test_game() {
    let mut board = Board { board: 0b0_0100010001_0000100000_0110111001_0000100000_0100010001 };
    let moves = vec![
        TMove { start: (3, 2), end: (3, 0) }, // d
        TMove { start: (4, 2), end: (3, 2) }, // d
        TMove { start: (2, 3), end: (3, 3) }, // d
        TMove { start: (2, 4), end: (2, 3) }, // d
        TMove { start: (3, 0), end: (3, 1) }, // d
        TMove { start: (4, 4), end: (4, 2) }, //
        TMove { start: (3, 1), end: (4, 1) }, //
        TMove { start: (4, 2), end: (3, 2) }, //
        TMove { start: (4, 1), end: (3, 1) }, //
        TMove { start: (4, 0), end: (4, 2) }, //
    ];
    for tmove in moves {
        println!("{}", tmove.to_string());
        println!("");

        board = board.make_move(&tmove);
        println!("Eval: {}", board.eval());
    }
    match board.get_winner() {
        Some(x) => println!("Player {} won", x + 1),
        None => println!("Game is undecided!"),
    }
}

#[test]
fn test_move() {
    /* Test configuration:
        Player: 2
          0 1 2 3 4
        0 X _ _ _ _
        1 X _ O X _
        2 X O _ O X
        3 X _ K _ X
        4 _ _ _ X X
     */
    let board = Board { board: 0b1_0100000000_0100100100_0110001001_0100110001_0000000101 };
    let b_only_black = board.get_only_black_board();
    let block_1 = board.count_white_blocked(b_only_black, 2, 3);
    let block_2 = board.count_white_blocked(b_only_black, 3, 0);
    assert_eq!(block_1, 2);
    assert_eq!(block_2, 2);
}
