//! The attribute model: four independent binary attributes, their
//! single-character codes, and the sixteen-piece universe they generate.

use vstd::prelude::*;

verus! {

/// Why an operation on a game, a board, or a piece code was rejected.
/// Every failure is reported through this enum; no operation panics.
#[derive(Clone, Copy, Debug, PartialEq, Eq, Structural)]
pub enum QuartoError {
    /// A single character was not one of the two legal codes of its attribute.
    InvalidAttributeCode,
    /// A piece code had the wrong length or an attribute-invalid character.
    InvalidPieceCode,
    /// A board text had the wrong line count, line length, or separators.
    InvalidBoardText,
    /// The same piece code appeared more than once in a board text.
    DuplicatePiece,
    /// A coordinate was outside the board.
    OutOfRange,
    /// A placement targeted a cell that already holds a piece.
    CellOccupied,
    /// A placement was attempted while no piece is pending.
    NoPendingPiece,
    /// A pick was attempted while a piece is already pending.
    PendingPieceExists,
    /// A pick targeted a piece that is not in the free pool.
    PieceAlreadyUsed,
}

#[derive(Clone, Copy, Debug, PartialEq, Eq, Structural)]
pub enum Color {
    Brown,
    White,
}

#[derive(Clone, Copy, Debug, PartialEq, Eq, Structural)]
pub enum Height {
    Short,
    Tall,
}

#[derive(Clone, Copy, Debug, PartialEq, Eq, Structural)]
pub enum Shape {
    Circle,
    Square,
}

#[derive(Clone, Copy, Debug, PartialEq, Eq, Structural)]
pub enum Top {
    Flat,
    Hole,
}

pub open spec fn color_char(c: Color) -> char {
    match c {
        Color::Brown => 'B',
        Color::White => 'W',
    }
}

pub open spec fn height_char(h: Height) -> char {
    match h {
        Height::Short => 'S',
        Height::Tall => 'T',
    }
}

pub open spec fn shape_char(s: Shape) -> char {
    match s {
        Shape::Circle => 'C',
        Shape::Square => 'S',
    }
}

pub open spec fn top_char(t: Top) -> char {
    match t {
        Top::Flat => 'F',
        Top::Hole => 'H',
    }
}

pub open spec fn spec_color_from_char(c: char) -> Result<Color, QuartoError> {
    if c == 'B' {
        Ok(Color::Brown)
    } else if c == 'W' {
        Ok(Color::White)
    } else {
        Err(QuartoError::InvalidAttributeCode)
    }
}

pub open spec fn spec_height_from_char(c: char) -> Result<Height, QuartoError> {
    if c == 'S' {
        Ok(Height::Short)
    } else if c == 'T' {
        Ok(Height::Tall)
    } else {
        Err(QuartoError::InvalidAttributeCode)
    }
}

pub open spec fn spec_shape_from_char(c: char) -> Result<Shape, QuartoError> {
    if c == 'C' {
        Ok(Shape::Circle)
    } else if c == 'S' {
        Ok(Shape::Square)
    } else {
        Err(QuartoError::InvalidAttributeCode)
    }
}

pub open spec fn spec_top_from_char(c: char) -> Result<Top, QuartoError> {
    if c == 'F' {
        Ok(Top::Flat)
    } else if c == 'H' {
        Ok(Top::Hole)
    } else {
        Err(QuartoError::InvalidAttributeCode)
    }
}

impl Color {
    /// Encoding is total: every value has exactly one code.
    pub fn code(self) -> (c: char)
        ensures
            c == color_char(self),
    {
        match self {
            Color::Brown => 'B',
            Color::White => 'W',
        }
    }

    /// Decoding fails with `InvalidAttributeCode` on any other character.
    pub fn from_code(c: char) -> (r: Result<Color, QuartoError>)
        ensures
            r == spec_color_from_char(c),
    {
        if c == 'B' {
            Ok(Color::Brown)
        } else if c == 'W' {
            Ok(Color::White)
        } else {
            Err(QuartoError::InvalidAttributeCode)
        }
    }
}

impl Height {
    /// Encoding is total: every value has exactly one code.
    pub fn code(self) -> (c: char)
        ensures
            c == height_char(self),
    {
        match self {
            Height::Short => 'S',
            Height::Tall => 'T',
        }
    }

    /// Decoding fails with `InvalidAttributeCode` on any other character.
    pub fn from_code(c: char) -> (r: Result<Height, QuartoError>)
        ensures
            r == spec_height_from_char(c),
    {
        if c == 'S' {
            Ok(Height::Short)
        } else if c == 'T' {
            Ok(Height::Tall)
        } else {
            Err(QuartoError::InvalidAttributeCode)
        }
    }
}

impl Shape {
    /// Encoding is total: every value has exactly one code.
    pub fn code(self) -> (c: char)
        ensures
            c == shape_char(self),
    {
        match self {
            Shape::Circle => 'C',
            Shape::Square => 'S',
        }
    }

    /// Decoding fails with `InvalidAttributeCode` on any other character.
    pub fn from_code(c: char) -> (r: Result<Shape, QuartoError>)
        ensures
            r == spec_shape_from_char(c),
    {
        if c == 'C' {
            Ok(Shape::Circle)
        } else if c == 'S' {
            Ok(Shape::Square)
        } else {
            Err(QuartoError::InvalidAttributeCode)
        }
    }
}

impl Top {
    /// Encoding is total: every value has exactly one code.
    pub fn code(self) -> (c: char)
        ensures
            c == top_char(self),
    {
        match self {
            Top::Flat => 'F',
            Top::Hole => 'H',
        }
    }

    /// Decoding fails with `InvalidAttributeCode` on any other character.
    pub fn from_code(c: char) -> (r: Result<Top, QuartoError>)
        ensures
            r == spec_top_from_char(c),
    {
        if c == 'F' {
            Ok(Top::Flat)
        } else if c == 'H' {
            Ok(Top::Hole)
        } else {
            Err(QuartoError::InvalidAttributeCode)
        }
    }
}

/// A piece is an immutable 4-tuple of attribute values; exactly sixteen
/// distinct pieces exist, and equality is structural.
#[derive(Clone, Copy, Debug, PartialEq, Eq, Structural)]
pub struct Piece {
    pub color: Color,
    pub height: Height,
    pub shape: Shape,
    pub top: Top,
}

/// The canonical four-character code of a piece, in the fixed order
/// Color, Height, Shape, Top.
pub open spec fn piece_code(p: Piece) -> Seq<char> {
    seq![color_char(p.color), height_char(p.height), shape_char(p.shape), top_char(p.top)]
}

/// What decoding a four-character sequence as a piece code yields.
pub open spec fn spec_piece_from_code(s: Seq<char>) -> Result<Piece, QuartoError> {
    if s.len() != 4 {
        Err(QuartoError::InvalidPieceCode)
    } else {
        match (spec_color_from_char(s[0]), spec_height_from_char(s[1]), spec_shape_from_char(
            s[2],
        ), spec_top_from_char(s[3])) {
            (Ok(color), Ok(height), Ok(shape), Ok(top)) => Ok(
                Piece { color, height, shape, top },
            ),
            _ => Err(QuartoError::InvalidPieceCode),
        }
    }
}

impl Piece {
    /// The canonical text code, e.g. `"BSCF"` for the brown short circle
    /// with a flat top.
    pub fn code(&self) -> (r: String)
        ensures
            r@ == piece_code(*self),
    {
        let mut s = String::new();
        match self.color {
            Color::Brown => s.append("B"),
            Color::White => s.append("W"),
        }
        match self.height {
            Height::Short => s.append("S"),
            Height::Tall => s.append("T"),
        }
        match self.shape {
            Shape::Circle => s.append("C"),
            Shape::Square => s.append("S"),
        }
        match self.top {
            Top::Flat => s.append("F"),
            Top::Hole => s.append("H"),
        }
        proof {
            reveal_strlit("B");
            reveal_strlit("W");
            reveal_strlit("S");
            reveal_strlit("T");
            reveal_strlit("C");
            reveal_strlit("F");
            reveal_strlit("H");
            assert(s@ =~= piece_code(*self));
        }
        s
    }

    /// Decodes a four-character piece code; fails with `InvalidPieceCode`
    /// on a wrong length or an attribute-invalid character.
    pub fn from_code(code: &str) -> (r: Result<Piece, QuartoError>)
        ensures
            r == spec_piece_from_code(code@),
    {
        if code.unicode_len() != 4 {
            return Err(QuartoError::InvalidPieceCode);
        }
        let color = match Color::from_code(code.get_char(0)) {
            Ok(c) => c,
            Err(_) => {
                return Err(QuartoError::InvalidPieceCode);
            },
        };
        let height = match Height::from_code(code.get_char(1)) {
            Ok(h) => h,
            Err(_) => {
                return Err(QuartoError::InvalidPieceCode);
            },
        };
        let shape = match Shape::from_code(code.get_char(2)) {
            Ok(s) => s,
            Err(_) => {
                return Err(QuartoError::InvalidPieceCode);
            },
        };
        let top = match Top::from_code(code.get_char(3)) {
            Ok(t) => t,
            Err(_) => {
                return Err(QuartoError::InvalidPieceCode);
            },
        };
        Ok(Piece { color, height, shape, top })
    }
}

/// Decoding the code of a piece gives the piece back: the piece-level
/// half of the round-trip law.
pub proof fn lemma_piece_code_roundtrip(p: Piece)
    ensures
        piece_code(p).len() == 4,
        spec_piece_from_code(piece_code(p)) == Ok::<Piece, QuartoError>(p),
{
}

/// Piece number `i` (0 to 15) of the fixed enumeration of the
/// sixteen-piece universe.
pub open spec fn piece_at(i: int) -> Piece {
    Piece {
        color: if i < 8 {
            Color::Brown
        } else {
            Color::White
        },
        shape: if i % 8 < 4 {
            Shape::Circle
        } else {
            Shape::Square
        },
        top: if i % 4 < 2 {
            Top::Flat
        } else {
            Top::Hole
        },
        height: if i % 2 == 0 {
            Height::Short
        } else {
            Height::Tall
        },
    }
}

/// The fixed enumeration of the sixteen-piece universe.
pub open spec fn spec_all_pieces() -> Seq<Piece> {
    Seq::new(16, |i: int| piece_at(i))
}

/// Where a piece stands in the fixed enumeration.
pub open spec fn piece_index(p: Piece) -> int {
    (if p.color == Color::White {
        8int
    } else {
        0int
    }) + (if p.shape == Shape::Square {
        4int
    } else {
        0int
    }) + (if p.top == Top::Hole {
        2int
    } else {
        0int
    }) + (if p.height == Height::Tall {
        1int
    } else {
        0int
    })
}

/// Each piece occupies exactly the slot that `piece_index` names.
pub proof fn lemma_piece_index(p: Piece)
    ensures
        0 <= piece_index(p) < 16,
        spec_all_pieces()[piece_index(p)] == p,
{
}

/// The slot of piece number `i` is `i` itself.
proof fn lemma_piece_at_index(i: int)
    requires
        0 <= i < 16,
    ensures
        piece_index(piece_at(i)) == i,
{
}

/// The enumeration lists no piece twice.
pub proof fn lemma_all_pieces_no_dup()
    ensures
        spec_all_pieces().no_duplicates(),
{
    assert forall|i: int, j: int|
        0 <= i < 16 && 0 <= j < 16 && i != j implies spec_all_pieces()[i]
        != spec_all_pieces()[j] by {
        lemma_piece_at_index(i);
        lemma_piece_at_index(j);
    }
}

/// Every piece appears in the enumeration: the universe is complete.
pub proof fn lemma_all_pieces_complete(p: Piece)
    ensures
        spec_all_pieces().contains(p),
{
    lemma_piece_index(p);
    assert(spec_all_pieces()[piece_index(p)] == p);
}

/// The full sixteen-piece universe in its fixed enumeration order: a
/// pure computation with no hidden state.
pub fn all_pieces() -> (r: Vec<Piece>)
    ensures
        r@ == spec_all_pieces(),
        r@.len() == 16,
{
    let mut v: Vec<Piece> = Vec::new();
    for i in 0..16usize
        invariant
            v@.len() == i,
            forall|j: int| 0 <= j < i ==> v@[j] == piece_at(j),
    {
        let color = if i < 8 {
            Color::Brown
        } else {
            Color::White
        };
        let shape = if i % 8 < 4 {
            Shape::Circle
        } else {
            Shape::Square
        };
        let top = if i % 4 < 2 {
            Top::Flat
        } else {
            Top::Hole
        };
        let height = if i % 2 == 0 {
            Height::Short
        } else {
            Height::Tall
        };
        v.push(Piece { color, height, shape, top });
    }
    proof {
        assert(v@ =~= spec_all_pieces());
    }
    v
}

} // verus!
