use tafl::tmove::{TMove, TMoveError};

#[test]
fn move_to_string_examples() {
    // Columns are lettered A..E with x; ranks are numbered 1..5 from the top,
    // so (0, 4) is A1 and (4, 0) is E5.
    let m = TMove { start: (0, 4), end: (4, 0) };
    assert_eq!(m.to_string(), "A1-E5");
    let m = TMove { start: (2, 2), end: (2, 0) };
    assert_eq!(m.to_string(), "C3-C5");
}

#[test]
fn parse_move_examples() {
    assert_eq!(
        TMove::from_str("A1-E5"),
        Ok(TMove { start: (0, 4), end: (4, 0) })
    );
    // The separator position is not validated.
    assert_eq!(
        TMove::from_str("B2xD4"),
        Ok(TMove { start: (1, 3), end: (3, 1) })
    );
    // Characters past the fifth are ignored.
    assert_eq!(
        TMove::from_str("B2-D4 and more"),
        Ok(TMove { start: (1, 3), end: (3, 1) })
    );
}

#[test]
fn parse_move_rejects_bad_input() {
    // Too short.
    assert_eq!(TMove::from_str(""), Err(TMoveError::InvalidArgumentError));
    assert_eq!(TMove::from_str("A1-B"), Err(TMoveError::InvalidArgumentError));
    // Letters out of range.
    assert_eq!(TMove::from_str("F1-B2"), Err(TMoveError::InvalidArgumentError));
    assert_eq!(TMove::from_str("A1-Z2"), Err(TMoveError::InvalidArgumentError));
    // Digits out of range.
    assert_eq!(TMove::from_str("A0-B2"), Err(TMoveError::InvalidArgumentError));
    assert_eq!(TMove::from_str("A1-B6"), Err(TMoveError::InvalidArgumentError));
    // Case-sensitive.
    assert_eq!(TMove::from_str("a1-b2"), Err(TMoveError::InvalidArgumentError));
}

#[test]
fn move_round_trip() {
    for sx in 0..5u8 {
        for sy in 0..5u8 {
            for ex in 0..5u8 {
                for ey in 0..5u8 {
                    let m = TMove { start: (sx, sy), end: (ex, ey) };
                    assert_eq!(TMove::from_str(&m.to_string()), Ok(m));
                }
            }
        }
    }
}

#[test]
fn move_error_describe() {
    assert_eq!(
        TMove::from_str("bad").unwrap_err().describe(),
        "invalid move syntax"
    );
}
