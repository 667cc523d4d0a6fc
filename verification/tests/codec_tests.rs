use quarto::board::BoardState;
use quarto::piece::{all_pieces, Color, Height, Piece, QuartoError, Shape, Top};

#[test]
fn test_attribute_codes() {
    assert_eq!(Color::Brown.code(), 'B');
    assert_eq!(Color::White.code(), 'W');
    assert_eq!(Height::Short.code(), 'S');
    assert_eq!(Height::Tall.code(), 'T');
    assert_eq!(Shape::Circle.code(), 'C');
    assert_eq!(Shape::Square.code(), 'S');
    assert_eq!(Top::Flat.code(), 'F');
    assert_eq!(Top::Hole.code(), 'H');
}

#[test]
fn test_attribute_decode() {
    assert_eq!(Color::from_code('B'), Ok(Color::Brown));
    assert_eq!(Color::from_code('W'), Ok(Color::White));
    assert_eq!(Color::from_code('X'), Err(QuartoError::InvalidAttributeCode));
    assert_eq!(Height::from_code('S'), Ok(Height::Short));
    assert_eq!(Height::from_code('T'), Ok(Height::Tall));
    assert_eq!(Height::from_code('C'), Err(QuartoError::InvalidAttributeCode));
    assert_eq!(Shape::from_code('C'), Ok(Shape::Circle));
    assert_eq!(Shape::from_code('S'), Ok(Shape::Square));
    assert_eq!(Shape::from_code('T'), Err(QuartoError::InvalidAttributeCode));
    assert_eq!(Top::from_code('F'), Ok(Top::Flat));
    assert_eq!(Top::from_code('H'), Ok(Top::Hole));
    assert_eq!(Top::from_code(' '), Err(QuartoError::InvalidAttributeCode));
}

#[test]
fn test_piece_code() {
    let bscf = Piece {
        color: Color::Brown,
        height: Height::Short,
        shape: Shape::Circle,
        top: Top::Flat,
    };
    assert_eq!(bscf.code(), "BSCF");
    let wtsh = Piece {
        color: Color::White,
        height: Height::Tall,
        shape: Shape::Square,
        top: Top::Hole,
    };
    assert_eq!(wtsh.code(), "WTSH");
}

#[test]
fn test_piece_decode() {
    let bscf = Piece {
        color: Color::Brown,
        height: Height::Short,
        shape: Shape::Circle,
        top: Top::Flat,
    };
    assert_eq!(Piece::from_code("BSCF"), Ok(bscf));
    assert_eq!(Piece::from_code("BSC"), Err(QuartoError::InvalidPieceCode));
    assert_eq!(Piece::from_code("BSCFF"), Err(QuartoError::InvalidPieceCode));
    assert_eq!(Piece::from_code(""), Err(QuartoError::InvalidPieceCode));
    assert_eq!(Piece::from_code("XSCF"), Err(QuartoError::InvalidPieceCode));
    assert_eq!(Piece::from_code("BXCF"), Err(QuartoError::InvalidPieceCode));
    assert_eq!(Piece::from_code("BSXF"), Err(QuartoError::InvalidPieceCode));
    assert_eq!(Piece::from_code("BSCX"), Err(QuartoError::InvalidPieceCode));
}

#[test]
fn test_piece_code_roundtrip_all() {
    for p in all_pieces() {
        let code = p.code();
        assert_eq!(code.len(), 4);
        assert_eq!(Piece::from_code(&code), Ok(p));
    }
}

#[test]
fn test_all_pieces_distinct() {
    let pieces = all_pieces();
    assert_eq!(pieces.len(), 16);
    for i in 0..16 {
        for j in 0..16 {
            if i != j {
                assert_ne!(pieces[i], pieces[j]);
            }
        }
    }
}

#[test]
fn test_decode_bad_line_count() {
    let text = "BSCF ---- ---- ----\n---- ---- ---- ----\n---- ---- ---- ----".replace("-", " ");
    assert_eq!(
        BoardState::decode(&text).err(),
        Some(QuartoError::InvalidBoardText)
    );
    let text5 = "---- ---- ---- ----\n---- ---- ---- ----\n---- ---- ---- ----\n---- ---- ---- ----\n---- ---- ---- ----"
        .replace("-", " ");
    assert_eq!(
        BoardState::decode(&text5).err(),
        Some(QuartoError::InvalidBoardText)
    );
}

#[test]
fn test_decode_bad_line_length() {
    let text = "BSCF ---- ---- ---\n---- ---- ---- ----\n---- ---- ---- ----\n---- ---- ---- ----"
        .replace("-", " ");
    assert_eq!(
        BoardState::decode(&text).err(),
        Some(QuartoError::InvalidBoardText)
    );
}

#[test]
fn test_decode_bad_separator() {
    let text = "BSCF_---- ---- ----\n---- ---- ---- ----\n---- ---- ---- ----\n---- ---- ---- ----"
        .replace("-", " ");
    assert_eq!(
        BoardState::decode(&text).err(),
        Some(QuartoError::InvalidBoardText)
    );
}

#[test]
fn test_decode_bad_segment() {
    let text = "BSCX ---- ---- ----\n---- ---- ---- ----\n---- ---- ---- ----\n---- ---- ---- ----"
        .replace("-", " ");
    assert_eq!(
        BoardState::decode(&text).err(),
        Some(QuartoError::InvalidBoardText)
    );
    let half_blank = "BS-- ---- ---- ----\n---- ---- ---- ----\n---- ---- ---- ----\n---- ---- ---- ----"
        .replace("-", " ");
    assert_eq!(
        BoardState::decode(&half_blank).err(),
        Some(QuartoError::InvalidBoardText)
    );
}

#[test]
fn test_decode_trailing_newline_rejected() {
    let text = "---- ---- ---- ----\n---- ---- ---- ----\n---- ---- ---- ----\n---- ---- ---- ----\n"
        .replace("-", " ");
    assert_eq!(
        BoardState::decode(&text).err(),
        Some(QuartoError::InvalidBoardText)
    );
}

#[test]
fn test_decode_duplicate_piece() {
    let text = "BSCF BSCF ---- ----\n---- ---- ---- ----\n---- ---- ---- ----\n---- ---- ---- ----"
        .replace("-", " ");
    assert_eq!(
        BoardState::decode(&text).err(),
        Some(QuartoError::DuplicatePiece)
    );
}

#[test]
fn test_encode_empty_board() {
    let text = "---- ---- ---- ----\n---- ---- ---- ----\n---- ---- ---- ----\n---- ---- ---- ----"
        .replace("-", " ");
    let board = BoardState::decode(&text).unwrap();
    assert_eq!(board.encode(), text);
}
