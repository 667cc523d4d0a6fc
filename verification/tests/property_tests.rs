use quarto::board::BoardState;
use quarto::game::Quarto;
use quarto::piece::{Piece, QuartoError};

fn piece(code: &str) -> Piece {
    Piece::from_code(code).unwrap()
}

/// The board's pieces, the free pool and the pending piece are pairwise
/// disjoint and together make up all sixteen pieces.
fn assert_partition(q: &Quarto) {
    let mut seen: Vec<Piece> = Vec::new();
    for row in q.board_state.rows() {
        for cell in row {
            if let Some(p) = cell {
                assert!(!seen.contains(&p));
                seen.push(p);
            }
        }
    }
    for p in q.free_pool() {
        assert!(!seen.contains(p));
        seen.push(*p);
    }
    if let Some(p) = &q.next_piece {
        assert!(!seen.contains(p));
        seen.push(*p);
    }
    assert_eq!(seen.len(), 16);
}

#[test]
fn test_round_trip_after_places() {
    let mut game = Quarto::new();
    let moves = vec![
        ("BSCF", 0usize, 0usize),
        ("WTSH", 1, 2),
        ("BTCH", 3, 3),
        ("WSCF", 2, 1),
    ];
    for (code, x, y) in moves {
        assert!(game.pick_piece(&piece(code)).is_ok());
        assert!(game.move_piece(x, y).is_ok());
    }
    let text = game.board_state.encode();
    let decoded = BoardState::decode(&text).unwrap();
    assert_eq!(decoded.rows(), game.board_state.rows());
    assert_eq!(decoded.encode(), text);
}

#[test]
fn test_partition_through_a_game() {
    let mut game = Quarto::new();
    assert_partition(&game);
    assert!(game.pick_piece(&piece("BSCF")).is_ok());
    assert_partition(&game);
    assert!(game.move_piece(0, 0).is_ok());
    assert_partition(&game);
    assert!(game.pick_piece(&piece("WTSH")).is_ok());
    assert_partition(&game);
    assert!(game.move_piece(3, 3).is_ok());
    assert_partition(&game);
    // failed operations leave the partition alone
    assert!(game.pick_piece(&piece("BSCF")).is_err());
    assert_partition(&game);
    assert!(game.move_piece(0, 0).is_err());
    assert_partition(&game);
}

#[test]
fn test_pick_then_place_composition() {
    let mut game = Quarto::new();
    let p = piece("BTSF");
    assert_eq!(game.pick_piece(&p), Ok(()));
    assert_eq!(game.next_piece, Some(p));
    assert_eq!(game.move_piece(1, 2), Ok(()));
    assert_eq!(game.board_state.get(1, 2), Some(p));
    assert_eq!(game.next_piece, None);
    assert_eq!(game.pick_piece(&p), Err(QuartoError::PieceAlreadyUsed));
}

#[test]
fn test_boundary_out_of_range() {
    let mut game = Quarto::new();
    assert!(game.pick_piece(&piece("BSCF")).is_ok());
    assert_eq!(game.move_piece(4, 0), Err(QuartoError::OutOfRange));
    assert_eq!(game.move_piece(0, 4), Err(QuartoError::OutOfRange));
    assert_eq!(game.move_piece(4, 4), Err(QuartoError::OutOfRange));
    assert_eq!(game.move_piece(3, 3), Ok(()));
}

#[test]
fn test_full_example_board_empty_pool() {
    let board_text = "BSCF BSCH BSSF BSSH\nBTCF BTCH BTSF BTSH\nWSCF WSCH WSSF WSSH\nWTCF WTCH WTSF WTSH";
    let game = Quarto::from_board_text(board_text).unwrap();
    assert_eq!(game.free_pool().len(), 0);
    assert_partition(&game);
}

#[test]
fn test_concrete_quarto_row() {
    let text = "BSCF BSCH BSSF BTSH\n---- ---- ---- ----\n---- ---- ---- ----\n---- ---- ---- ----"
        .replace("-", " ");
    let game = Quarto::from_board_text(&text).unwrap();
    assert!(game.is_quarto());

    let broken = "BSCF BSCH BSSF WTSH\n---- ---- ---- ----\n---- ---- ---- ----\n---- ---- ---- ----"
        .replace("-", " ");
    let game = Quarto::from_board_text(&broken).unwrap();
    assert!(!game.is_quarto());
}

#[test]
fn test_empty_board_no_quarto() {
    let game = Quarto::new();
    assert!(!game.is_quarto());
    // idempotent: asking twice changes nothing
    assert!(!game.is_quarto());
}

#[test]
fn test_duplicate_piece_rejected() {
    let text = "BSCF BSCH BSSF BSSH\n---- ---- ---- ----\n---- BSCF ---- ----\n---- ---- ---- ----"
        .replace("-", " ");
    assert_eq!(
        Quarto::from_board_text(&text).err(),
        Some(QuartoError::DuplicatePiece)
    );
}

#[test]
fn test_pick_errors() {
    let mut game = Quarto::new();
    assert_eq!(game.pick_piece(&piece("BSCF")), Ok(()));
    // a piece is already pending
    assert_eq!(
        game.pick_piece(&piece("WTSH")),
        Err(QuartoError::PendingPieceExists)
    );
    assert_eq!(game.move_piece(0, 0), Ok(()));
    // the placed piece is no longer free
    assert_eq!(
        game.pick_piece(&piece("BSCF")),
        Err(QuartoError::PieceAlreadyUsed)
    );
}

#[test]
fn test_place_errors() {
    let mut game = Quarto::new();
    // nothing pending yet
    assert_eq!(game.move_piece(0, 0), Err(QuartoError::NoPendingPiece));
    assert_eq!(game.pick_piece(&piece("BSCF")), Ok(()));
    assert_eq!(game.move_piece(0, 0), Ok(()));
    assert_eq!(game.pick_piece(&piece("WTSH")), Ok(()));
    // the target cell is taken
    assert_eq!(game.move_piece(0, 0), Err(QuartoError::CellOccupied));
    // the failed placement left the pending piece pending
    assert_eq!(game.next_piece, Some(piece("WTSH")));
    assert_eq!(game.move_piece(0, 1), Ok(()));
}

#[test]
fn test_record_round_trip() {
    let mut game = Quarto::new();
    assert!(game.pick_piece(&piece("BSCF")).is_ok());
    assert!(game.move_piece(2, 2).is_ok());
    assert!(game.pick_piece(&piece("WTCH")).is_ok());

    let (text, pending) = game.to_record();
    assert_eq!(pending, Some(String::from("WTCH")));
    let restored = Quarto::from_record(&text, pending.as_deref()).unwrap();
    assert_eq!(restored, game);
    assert_partition(&restored);
}

#[test]
fn test_record_pending_errors() {
    let text = "BSCF ---- ---- ----\n---- ---- ---- ----\n---- ---- ---- ----\n---- ---- ---- ----"
        .replace("-", " ");
    // the pending piece must not already stand on the board
    assert_eq!(
        Quarto::from_record(&text, Some("BSCF")).err(),
        Some(QuartoError::PieceAlreadyUsed)
    );
    // a malformed pending code is rejected
    assert_eq!(
        Quarto::from_record(&text, Some("BSC")).err(),
        Some(QuartoError::InvalidPieceCode)
    );
    // a free pending piece is accepted and leaves a 14-piece pool
    let game = Quarto::from_record(&text, Some("WTSH")).unwrap();
    assert_eq!(game.next_piece, Some(piece("WTSH")));
    assert_eq!(game.free_pool().len(), 14);
    assert_partition(&game);
}
