use quarto::game::Quarto;
use quarto::piece::{Color, Height, Piece, Shape, Top};

#[test]
fn quarto_test_board_new() {
    let quarto = Quarto::new();
    let rows = quarto.board_state.rows();
    assert_eq!(rows.len(), 4);
    assert_eq!(rows[0].len(), 4);
    assert_eq!(rows[1].len(), 4);
    assert_eq!(rows[2].len(), 4);
    assert_eq!(rows[3].len(), 4);
    assert_eq!(rows[0][0], None);
    assert_eq!(quarto.free_pieces.len(), 16);
}

#[test]
fn quatro_test_board_new() {
    let board = Quarto::new();
    let rows = board.board_state.rows();
    assert_eq!(rows.len(), 4);
    assert_eq!(rows[0].len(), 4);
    assert_eq!(rows[1].len(), 4);
    assert_eq!(rows[2].len(), 4);
    assert_eq!(rows[3].len(), 4);
    assert_eq!(rows[0][0], None);
    assert_eq!(board.free_pieces.len(), 16);
}

#[test]
fn test_parse_board_from_to() {
    /* WB TS SC HF */
    let board_text = "BSCF BSCH BSSF BSSH\nBTCF BTCH BTSF BTSH\nWSCF WSCH WSSF WSSH\nWTCF WTCH WTSF WTSH";

    let quarto = Quarto::from_board_text(board_text).ok();
    let board_text2 = quarto.unwrap().board_state.encode();
    assert_eq!(board_text, board_text2)
}

#[test]
fn quarto_test_parse_all_pieces() {
    /* WB TS SC HF */
    let board_text = "BSCF BSCH BSSF BSSH\nBTCF BTCH BTSF BTSH\nWSCF WSCH WSSF WSSH\nWTCF WTCH WTSF WTSH";

    let quarto = Quarto::from_board_text(board_text).ok();
    assert_ne!(quarto, None);

    let expected = vec![
        vec![
            Some(Piece {
                color: Color::Brown,
                height: Height::Short,
                shape: Shape::Circle,
                top: Top::Flat,
            }),
            Some(Piece {
                color: Color::Brown,
                height: Height::Short,
                shape: Shape::Circle,
                top: Top::Hole,
            }),
            Some(Piece {
                color: Color::Brown,
                height: Height::Short,
                shape: Shape::Square,
                top: Top::Flat,
            }),
            Some(Piece {
                color: Color::Brown,
                height: Height::Short,
                shape: Shape::Square,
                top: Top::Hole,
            }),
        ],
        vec![
            Some(Piece {
                color: Color::Brown,
                height: Height::Tall,
                shape: Shape::Circle,
                top: Top::Flat,
            }),
            Some(Piece {
                color: Color::Brown,
                height: Height::Tall,
                shape: Shape::Circle,
                top: Top::Hole,
            }),
            Some(Piece {
                color: Color::Brown,
                height: Height::Tall,
                shape: Shape::Square,
                top: Top::Flat,
            }),
            Some(Piece {
                color: Color::Brown,
                height: Height::Tall,
                shape: Shape::Square,
                top: Top::Hole,
            }),
        ],
        vec![
            Some(Piece {
                color: Color::White,
                height: Height::Short,
                shape: Shape::Circle,
                top: Top::Flat,
            }),
            Some(Piece {
                color: Color::White,
                height: Height::Short,
                shape: Shape::Circle,
                top: Top::Hole,
            }),
            Some(Piece {
                color: Color::White,
                height: Height::Short,
                shape: Shape::Square,
                top: Top::Flat,
            }),
            Some(Piece {
                color: Color::White,
                height: Height::Short,
                shape: Shape::Square,
                top: Top::Hole,
            }),
        ],
        vec![
            Some(Piece {
                color: Color::White,
                height: Height::Tall,
                shape: Shape::Circle,
                top: Top::Flat,
            }),
            Some(Piece {
                color: Color::White,
                height: Height::Tall,
                shape: Shape::Circle,
                top: Top::Hole,
            }),
            Some(Piece {
                color: Color::White,
                height: Height::Tall,
                shape: Shape::Square,
                top: Top::Flat,
            }),
            Some(Piece {
                color: Color::White,
                height: Height::Tall,
                shape: Shape::Square,
                top: Top::Hole,
            }),
        ],
    ];
    assert_eq!(expected, quarto.clone().unwrap().board_state.rows());
    assert_eq!(quarto.unwrap().free_pieces.len(), 0)
}

#[test]
fn test_use_a_piece_multiple_times() {
    /* WB TS SC HF */
    let board_text = "BSCF BSCH BSSF BSSH\nBTCF BTCH BTSF BTSH\nWSCF WSCH WSSF WSSH\nWTCF WTCH WTSF BSCF";

    let quarto = Quarto::from_board_text(board_text).ok();
    assert_eq!(quarto, None)
}

#[test]
fn quarto_test_empty_board() {
    /* - stands for a space */
    let dummy_text = "---- ---- ---- ----\n---- ---- ---- ----\n---- ---- ---- ----\n---- ---- ---- ----";
    let board_text = dummy_text.replace("-", " ");

    let quarto = Quarto::from_board_text(&board_text).ok();
    let expected: Vec<Vec<Option<Piece>>> = vec![
        vec![None, None, None, None],
        vec![None, None, None, None],
        vec![None, None, None, None],
        vec![None, None, None, None],
    ];
    assert_eq!(expected, quarto.clone().unwrap().board_state.rows());
    assert_eq!(quarto.unwrap().free_pieces.len(), 16);
}

#[test]
fn quatro_test_empty_board() {
    /* - stands for a space */
    let dummy_text = "BSCF ---- ---- ----\n---- ---- ---- ----\n---- ---- ---- ----\n---- ---- ---- ----";
    let board_text = dummy_text.replace("-", " ");

    let board = Quarto::from_board_text(&board_text).ok();
    let expected = vec![
        vec![
            Some(Piece {
                color: Color::Brown,
                height: Height::Short,
                shape: Shape::Circle,
                top: Top::Flat,
            }),
            None,
            None,
            None,
        ],
        vec![None, None, None, None],
        vec![None, None, None, None],
        vec![None, None, None, None],
    ];
    assert_eq!(expected, board.clone().unwrap().board_state.rows());
    assert_eq!(board.unwrap().free_pieces.len(), 15)
}

#[test]
fn test_is_quarto() {
    /* - stands for a space */
    let dummy_text = "BSCF BSCH BSSF WTSH\n---- ---- ---- ----\n---- ---- ---- ----\n---- ---- ---- ----";
    let board_text = dummy_text.replace("-", " ");

    let quarto = &mut Quarto::from_board_text(&board_text).unwrap();
    let no_quarto = quarto.is_quarto();
    assert!(!no_quarto);

    let dummy_texts = vec![
        "BSCF BSCH BSSF BTSH\n---- ---- ---- ----\n---- ---- ---- ----\n---- ---- ---- ----",
        "---- ---- ---- ----\nBSCF BSCH BSSF BTSH\n---- ---- ---- ----\n---- ---- ---- ----",
        "---- ---- ---- ----\n---- ---- ---- ----\nBSCF BSCH BSSF BTSH\n---- ---- ---- ----",
        "---- ---- ---- ----\n---- ---- ---- ----\n---- ---- ---- ----\nBSCF BSCH BSSF BTSH",
        "BSCF ---- ---- ----\n---- BSCH ---- ----\n---- ---- BSSF ----\n---- ---- ---- BTSH",
        "---- ---- ---- BTSH\n---- ---- BSSF ----\n---- BSCH ---- ----\nBTCF ---- ---- ----",
        "BSCF ---- ---- ----\nBSCH ---- ---- ----\nBSSF ---- ---- ----\nBTSH ---- ---- ----",
        "---- BSCF ---- ----\n---- BSCH ---- ----\n---- BSSF ---- ----\n---- BTSH ---- ----",
        "---- ---- BSCF ----\n---- ---- BSCH ----\n---- ---- BSSF ----\n---- ---- BTSH ----",
        "---- ---- ---- BSCF\n---- ---- ---- BSCH\n---- ---- ---- BSSF\n---- ---- ---- BTSH",
    ];

    for bt in dummy_texts {
        let board_text = bt.replace("-", " ");

        let quarto = &mut Quarto::from_board_text(&board_text).unwrap();
        let yes_quarto = quarto.is_quarto();

        assert!(yes_quarto);
    }
}

#[test]
fn test_pick_and_move() {
    /* - stands for a space */
    let dummy_text = "---- ---- ---- ----\n---- ---- ---- ----\n---- ---- ---- ----\n---- ---- ---- ----";
    let board_text = dummy_text.replace("-", " ");

    let quarto = &mut Quarto::from_board_text(&board_text).unwrap();
    let expected: Vec<Vec<Option<Piece>>> = vec![
        vec![None, None, None, None],
        vec![None, None, None, None],
        vec![None, None, None, None],
        vec![None, None, None, None],
    ];
    assert_eq!(expected, quarto.board_state.rows());

    let bscf = Piece {
        color: Color::Brown,
        height: Height::Short,
        shape: Shape::Circle,
        top: Top::Flat,
    };

    let succeess = quarto.pick_piece(&bscf);
    assert_eq!(succeess.is_ok(), true);
    let fail = quarto.pick_piece(&bscf);
    assert_eq!(fail.is_ok(), false);
    let success = quarto.move_piece(0, 0);
    assert_eq!(success.is_ok(), true);

    let expected = vec![
        vec![
            Some(Piece {
                color: Color::Brown,
                height: Height::Short,
                shape: Shape::Circle,
                top: Top::Flat,
            }),
            None,
            None,
            None,
        ],
        vec![None, None, None, None],
        vec![None, None, None, None],
        vec![None, None, None, None],
    ];
    assert_eq!(expected, quarto.board_state.rows());

    let bssf = Piece {
        color: Color::Brown,
        height: Height::Short,
        shape: Shape::Square,
        top: Top::Flat,
    };
    let success = quarto.pick_piece(&bssf);
    assert!(success.is_ok());
    let success = quarto.move_piece(0, 2);
    assert!(success.is_ok());
}
