//! Board state: a 4x4 grid of optional pieces, with the canonical
//! fixed-width text encoding and its decoder.

use vstd::prelude::*;

use crate::piece::{
    lemma_piece_code_roundtrip, piece_code, spec_piece_from_code, Color, Height, Piece,
    QuartoError, Shape, Top,
};

verus! {

/// A 4x4 grid indexed `(row, col)`, each cell holding a piece or empty.
/// No piece value appears in more than one cell of a well-formed board.
#[derive(Clone, Debug, PartialEq)]
pub struct BoardState {
    cells: Vec<Vec<Option<Piece>>>,
}

impl View for BoardState {
    type V = Seq<Seq<Option<Piece>>>;

    closed spec fn view(&self) -> Seq<Seq<Option<Piece>>> {
        self.cells@.map_values(|row: Vec<Option<Piece>>| row@)
    }
}

/// The grid has exactly 4 rows of exactly 4 cells.
pub open spec fn board_wf(b: Seq<Seq<Option<Piece>>>) -> bool {
    &&& b.len() == 4
    &&& forall|x: int| 0 <= x < 4 ==> b[x].len() == 4
}

/// The piece `p` occupies some cell of the grid.
pub open spec fn board_has_piece(b: Seq<Seq<Option<Piece>>>, p: Piece) -> bool {
    exists|x: int, y: int| 0 <= x < 4 && 0 <= y < 4 && b[x][y] == Some(p)
}

/// No piece value appears in more than one cell.
pub open spec fn board_no_dup(b: Seq<Seq<Option<Piece>>>) -> bool {
    forall|x: int, y: int, x2: int, y2: int|
        0 <= x < 4 && 0 <= y < 4 && 0 <= x2 < 4 && 0 <= y2 < 4 && #[trigger] b[x][y] is Some
            && b[x][y] == #[trigger] b[x2][y2] ==> x == x2 && y == y2
}

impl BoardState {
    /// The board with every cell empty.
    pub fn empty() -> (r: BoardState)
        ensures
            board_wf(r@),
            board_no_dup(r@),
            forall|x: int, y: int| 0 <= x < 4 && 0 <= y < 4 ==> r@[x][y] is None,
    {
        let mut cells: Vec<Vec<Option<Piece>>> = Vec::new();
        for x in 0..4usize
            invariant
                cells@.len() == x,
                forall|i: int| 0 <= i < x ==> cells@[i]@.len() == 4,
                forall|i: int, j: int| 0 <= i < x && 0 <= j < 4 ==> cells@[i]@[j] is None,
        {
            let mut row: Vec<Option<Piece>> = Vec::new();
            for y in 0..4usize
                invariant
                    row@.len() == y,
                    forall|j: int| 0 <= j < y ==> row@[j] is None,
            {
                row.push(None);
            }
            cells.push(row);
        }
        let r = BoardState { cells };
        proof {
            assert(forall|x: int| 0 <= x < 4 ==> r@[x] =~= r.cells@[x]@);
        }
        r
    }

    /// Reads one cell.
    pub fn get(&self, x: usize, y: usize) -> (r: Option<Piece>)
        requires
            board_wf(self@),
            x < 4,
            y < 4,
        ensures
            r == self@[x as int][y as int],
    {
        proof {
            assert(self.cells@.len() == self@.len());
            assert(self.cells@[x as int]@ == self@[x as int]);
        }
        self.cells[x][y]
    }

    /// A cloned row-major copy of the grid.
    pub fn rows(&self) -> (r: Vec<Vec<Option<Piece>>>)
        requires
            board_wf(self@),
        ensures
            r@.len() == 4,
            forall|x: int| 0 <= x < 4 ==> r@[x]@ == self@[x],
    {
        let mut rows: Vec<Vec<Option<Piece>>> = Vec::new();
        for x in 0..4usize
            invariant
                board_wf(self@),
                rows@.len() == x,
                forall|i: int| 0 <= i < x ==> rows@[i]@ == self@[i],
        {
            let mut row: Vec<Option<Piece>> = Vec::new();
            for y in 0..4usize
                invariant
                    board_wf(self@),
                    x < 4,
                    row@.len() == y,
                    forall|j: int| 0 <= j < y ==> row@[j] == self@[x as int][j],
            {
                row.push(self.get(x, y));
            }
            proof {
                assert(row@ =~= self@[x as int]);
            }
            rows.push(row);
        }
        rows
    }

    /// Writes a piece into one cell; the board's only mutator.
    pub(crate) fn set_cell(&mut self, x: usize, y: usize, p: Piece)
        requires
            board_wf(old(self)@),
            x < 4,
            y < 4,
        ensures
            final(self)@ == old(self)@.update(
                x as int,
                old(self)@[x as int].update(y as int, Some(p)),
            ),
            board_wf(final(self)@),
    {
        proof {
            assert(self.cells@.len() == old(self)@.len());
            assert(self.cells@[x as int]@ == old(self)@[x as int]);
        }
        self.cells[x][y] = Some(p);
        proof {
            assert(self@ =~= old(self)@.update(
                x as int,
                old(self)@[x as int].update(y as int, Some(p)),
            ));
        }
    }

    /// Whether the piece occupies some cell.
    pub fn contains_piece(&self, p: &Piece) -> (r: bool)
        requires
            board_wf(self@),
        ensures
            r == board_has_piece(self@, *p),
    {
        let mut x: usize = 0;
        while x < 4
            invariant
                board_wf(self@),
                x <= 4,
                forall|i: int, j: int|
                    0 <= i < x && 0 <= j < 4 ==> self@[i][j] != Some(*p),
            decreases 4 - x,
        {
            let mut y: usize = 0;
            while y < 4
                invariant
                    board_wf(self@),
                    x < 4,
                    y <= 4,
                    forall|i: int, j: int|
                        0 <= i < x && 0 <= j < 4 ==> self@[i][j] != Some(*p),
                    forall|j: int| 0 <= j < y ==> self@[x as int][j] != Some(*p),
                decreases 4 - y,
            {
                if let Some(q) = self.get(x, y) {
                    if q == *p {
                        return true;
                    }
                }
                y = y + 1;
            }
            x = x + 1;
        }
        false
    }
}

/// Writing a fresh piece into an empty cell keeps the board
/// duplicate-free and puts exactly that one piece onto it.
pub proof fn lemma_place_keeps_no_dup(b: Seq<Seq<Option<Piece>>>, x: int, y: int, p: Piece)
    requires
        board_wf(b),
        board_no_dup(b),
        0 <= x < 4,
        0 <= y < 4,
        b[x][y] is None,
        !board_has_piece(b, p),
    ensures
        board_wf(b.update(x, b[x].update(y, Some(p)))),
        board_no_dup(b.update(x, b[x].update(y, Some(p)))),
        forall|q: Piece|
            board_has_piece(b.update(x, b[x].update(y, Some(p))), q) <==> (board_has_piece(b, q)
                || q == p),
{
    let b2 = b.update(x, b[x].update(y, Some(p)));
    assert forall|i: int, j: int| 0 <= i < 4 && 0 <= j < 4 implies #[trigger] b2[i][j] == (if i
        == x && j == y {
        Some(p)
    } else {
        b[i][j]
    }) by {}
    assert forall|q: Piece| board_has_piece(b2, q) <==> (board_has_piece(b, q) || q == p) by {
        if board_has_piece(b2, q) {
            let (i, j) = choose|i: int, j: int|
                0 <= i < 4 && 0 <= j < 4 && b2[i][j] == Some(q);
            if i == x && j == y {
                assert(q == p);
            } else {
                assert(b[i][j] == Some(q));
            }
        }
        if board_has_piece(b, q) {
            let (i, j) = choose|i: int, j: int| 0 <= i < 4 && 0 <= j < 4 && b[i][j] == Some(q);
            assert(!(i == x && j == y));
            assert(b2[i][j] == Some(q));
        }
        if q == p {
            assert(b2[x][y] == Some(p));
        }
    }
}

/// Character `m` (0 to 3) of one cell's segment: the piece's code, or a
/// space for an empty cell.
pub open spec fn cell_char(c: Option<Piece>, m: int) -> char {
    match c {
        None => ' ',
        Some(p) => piece_code(p)[m],
    }
}

/// Character `j` of the canonical board text. Each row takes positions
/// `20x` to `20x + 18`: four 4-character segments separated by single
/// spaces; position `20x + 19` holds the newline after each of the first
/// three rows.
pub open spec fn board_char(b: Seq<Seq<Option<Piece>>>, j: int) -> char {
    let x = j / 20;
    let k = j % 20;
    if k == 19 {
        '\n'
    } else {
        let y = k / 5;
        let m = k % 5;
        if m == 4 {
            ' '
        } else {
            cell_char(b[x][y], m)
        }
    }
}

/// The canonical text of a board: 4 lines of 19 characters joined by
/// single newlines, 79 characters in all, no trailing newline.
pub open spec fn board_text(b: Seq<Seq<Option<Piece>>>) -> Seq<char> {
    Seq::new(79, |j: int| board_char(b, j))
}

/// Where the 4-character segment of cell `(x, y)` starts in the text.
pub open spec fn seg_start(x: int, y: int) -> int {
    20 * x + 5 * y
}

/// The segment of cell `(x, y)` is four spaces.
pub open spec fn segment_is_blank(t: Seq<char>, x: int, y: int) -> bool {
    forall|m: int| 0 <= m < 4 ==> #[trigger] t[seg_start(x, y) + m] == ' '
}

/// The four characters of the segment of cell `(x, y)`.
pub open spec fn segment_code(t: Seq<char>, x: int, y: int) -> Seq<char> {
    t.subrange(seg_start(x, y), seg_start(x, y) + 4)
}

/// The segment is either four spaces or a valid piece code.
pub open spec fn segment_ok(t: Seq<char>, x: int, y: int) -> bool {
    segment_is_blank(t, x, y) || spec_piece_from_code(segment_code(t, x, y)) is Ok
}

/// The cell that the segment of `(x, y)` denotes.
pub open spec fn cell_of_text(t: Seq<char>, x: int, y: int) -> Option<Piece> {
    if segment_is_blank(t, x, y) {
        None
    } else {
        match spec_piece_from_code(segment_code(t, x, y)) {
            Ok(p) => Some(p),
            Err(_) => None,
        }
    }
}

/// The text has the exact shape of a canonical board: 79 characters,
/// newlines and space separators at their fixed positions, and every
/// segment blank or a valid piece code.
pub open spec fn text_shape_ok(t: Seq<char>) -> bool {
    &&& t.len() == 79
    &&& forall|x: int| 0 <= x < 3 ==> #[trigger] t[20 * x + 19] == '\n'
    &&& forall|x: int, y: int|
        0 <= x < 4 && 0 <= y < 3 ==> t[#[trigger] seg_start(x, y) + 4] == ' '
    &&& forall|x: int, y: int| 0 <= x < 4 && 0 <= y < 4 ==> #[trigger] segment_ok(t, x, y)
}

/// The grid that a well-shaped text denotes, cell by cell.
pub open spec fn board_of_text(t: Seq<char>) -> Seq<Seq<Option<Piece>>> {
    Seq::new(4, |x: int| Seq::new(4, |y: int| cell_of_text(t, x, y)))
}

/// Some piece is denoted by more than one segment of the text.
pub open spec fn text_has_dup(t: Seq<char>) -> bool {
    exists|x: int, y: int, x2: int, y2: int|
        #![trigger cell_of_text(t, x, y), cell_of_text(t, x2, y2)]
        0 <= x < 4 && 0 <= y < 4 && 0 <= x2 < 4 && 0 <= y2 < 4 && !(x == x2 && y == y2)
            && cell_of_text(t, x, y) is Some && cell_of_text(t, x, y) == cell_of_text(t, x2, y2)
}

impl BoardState {
    /// Produces the canonical text: 4 lines of 19 characters joined by a
    /// single newline, each line the row's segments joined by single
    /// spaces, an empty cell written as four spaces.
    pub fn encode(&self) -> (r: String)
        requires
            board_wf(self@),
        ensures
            r@ == board_text(self@),
    {
        let mut s = String::new();
        let mut x: usize = 0;
        while x < 4
            invariant
                board_wf(self@),
                x <= 4,
                s@.len() == if x == 4 { 79int } else { 20 * x },
                forall|j: int| 0 <= j < s@.len() ==> s@[j] == board_char(self@, j),
            decreases 4 - x,
        {
            let mut y: usize = 0;
            while y < 4
                invariant
                    board_wf(self@),
                    x < 4,
                    y <= 4,
                    s@.len() == if y == 4 { 20 * x + 19int } else { 20 * x + 5 * y },
                    forall|j: int| 0 <= j < s@.len() ==> s@[j] == board_char(self@, j),
                decreases 4 - y,
            {
                let ghost before = s@;
                match self.get(x, y) {
                    None => {
                        s.append("    ");
                        proof {
                            reveal_strlit("    ");
                        }
                    },
                    Some(p) => {
                        let code = p.code();
                        s.append(code.as_str());
                    },
                }
                proof {
                    assert forall|j: int| 0 <= j < s@.len() implies s@[j] == board_char(
                        self@,
                        j,
                    ) by {
                        if j >= before.len() {
                            let m = j - before.len();
                            assert(j == 20 * (x as int) + 5 * (y as int) + m);
                            assert(j / 20 == x as int && j % 20 == 5 * (y as int) + m);
                            assert((5 * (y as int) + m) / 5 == y as int && (5 * (y as int) + m)
                                % 5 == m);
                            assert(s@[j] == cell_char(self@[x as int][y as int], m));
                        }
                    }
                }
                if y < 3 {
                    s.append(" ");
                    proof {
                        reveal_strlit(" ");
                        let j = 20 * (x as int) + 5 * (y as int) + 4;
                        assert(j / 20 == x as int && j % 20 == 5 * (y as int) + 4);
                        assert((5 * (y as int) + 4) / 5 == y as int && (5 * (y as int) + 4) % 5
                            == 4);
                        assert(s@[j] == board_char(self@, j));
                    }
                }
                y = y + 1;
            }
            if x < 3 {
                s.append("\n");
                proof {
                    reveal_strlit("\n");
                    let j = 20 * (x as int) + 19;
                    assert(j / 20 == x as int && j % 20 == 19);
                    assert(s@[j] == board_char(self@, j));
                }
            }
            x = x + 1;
        }
        proof {
            assert(s@ =~= board_text(self@));
        }
        s
    }

    /// Reads the segment of cell `(x, y)` out of a 79-character text:
    /// `Ok` with the denoted cell when the segment is blank or a valid
    /// piece code, `Err(InvalidBoardText)` otherwise.
    fn read_cell(text: &str, x: usize, y: usize) -> (r: Result<Option<Piece>, QuartoError>)
        requires
            text@.len() == 79,
            x < 4,
            y < 4,
        ensures
            match r {
                Ok(c) => segment_ok(text@, x as int, y as int) && c == cell_of_text(
                    text@,
                    x as int,
                    y as int,
                ),
                Err(e) => e == QuartoError::InvalidBoardText && !segment_ok(
                    text@,
                    x as int,
                    y as int,
                ),
            },
    {
        let ghost t = text@;
        let ghost xi = x as int;
        let ghost yi = y as int;
        let base = 20 * x + 5 * y;
        proof {
            assert(base as int == seg_start(xi, yi));
        }
        let c0 = text.get_char(base);
        let c1 = text.get_char(base + 1);
        let c2 = text.get_char(base + 2);
        let c3 = text.get_char(base + 3);
        proof {
            assert(segment_code(t, xi, yi) =~= seq![c0, c1, c2, c3]);
        }
        if c0 == ' ' && c1 == ' ' && c2 == ' ' && c3 == ' ' {
            proof {
                assert forall|m: int| 0 <= m < 4 implies #[trigger] t[seg_start(xi, yi) + m]
                    == ' ' by {
                    if m == 0 {
                    } else if m == 1 {
                    } else if m == 2 {
                    } else {
                        assert(m == 3);
                    }
                }
            }
            return Ok(None);
        }
        proof {
            if c0 != ' ' {
                assert(t[seg_start(xi, yi) + 0] != ' ');
            } else if c1 != ' ' {
                assert(t[seg_start(xi, yi) + 1] != ' ');
            } else if c2 != ' ' {
                assert(t[seg_start(xi, yi) + 2] != ' ');
            } else {
                assert(t[seg_start(xi, yi) + 3] != ' ');
            }
            assert(!segment_is_blank(t, xi, yi));
        }
        let color = match Color::from_code(c0) {
            Ok(c) => c,
            Err(_) => {
                return Err(QuartoError::InvalidBoardText);
            },
        };
        let height = match Height::from_code(c1) {
            Ok(h) => h,
            Err(_) => {
                return Err(QuartoError::InvalidBoardText);
            },
        };
        let shape = match Shape::from_code(c2) {
            Ok(s) => s,
            Err(_) => {
                return Err(QuartoError::InvalidBoardText);
            },
        };
        let top = match Top::from_code(c3) {
            Ok(tp) => tp,
            Err(_) => {
                return Err(QuartoError::InvalidBoardText);
            },
        };
        let p = Piece { color, height, shape, top };
        proof {
            assert(spec_piece_from_code(segment_code(t, xi, yi)) == Ok::<Piece, QuartoError>(p));
        }
        Ok(Some(p))
    }

    /// Decodes a canonical board text. Fails with `InvalidBoardText`
    /// unless the text has the canonical shape (4 lines of 19 characters,
    /// single-space separators, every segment four spaces or a valid
    /// piece code); fails with `DuplicatePiece` when a well-shaped text
    /// names the same piece twice; otherwise returns the populated grid.
    pub fn decode(text: &str) -> (r: Result<BoardState, QuartoError>)
        ensures
            !text_shape_ok(text@) ==> r == Err::<BoardState, QuartoError>(
                QuartoError::InvalidBoardText,
            ),
            text_shape_ok(text@) && text_has_dup(text@) ==> r == Err::<BoardState, QuartoError>(
                QuartoError::DuplicatePiece,
            ),
            text_shape_ok(text@) && !text_has_dup(text@) ==> (r matches Ok(b) && board_wf(b@)
                && board_no_dup(b@) && b@ == board_of_text(text@) && (forall|x: int, y: int|
                0 <= x < 4 && 0 <= y < 4 ==> b@[x][y] == cell_of_text(text@, x, y))),
    {
        let ghost t = text@;
        if text.unicode_len() != 79 {
            return Err(QuartoError::InvalidBoardText);
        }
        // Newlines after each of the first three lines.
        let mut x: usize = 0;
        while x < 3
            invariant
                t == text@,
                t.len() == 79,
                x <= 3,
                forall|i: int| 0 <= i < x ==> #[trigger] t[20 * i + 19] == '\n',
            decreases 3 - x,
        {
            if text.get_char(20 * x + 19) != '\n' {
                return Err(QuartoError::InvalidBoardText);
            }
            x = x + 1;
        }
        // Single-space separators between the segments of each line.
        let mut x: usize = 0;
        while x < 4
            invariant
                t == text@,
                t.len() == 79,
                x <= 4,
                forall|i: int, j: int|
                    0 <= i < x && 0 <= j < 3 ==> t[#[trigger] seg_start(i, j) + 4] == ' ',
            decreases 4 - x,
        {
            let mut y: usize = 0;
            while y < 3
                invariant
                    t == text@,
                t.len() == 79,
                    x < 4,
                    y <= 3,
                    forall|i: int, j: int|
                        0 <= i < x && 0 <= j < 3 ==> t[#[trigger] seg_start(i, j) + 4] == ' ',
                    forall|j: int|
                        0 <= j < y ==> t[#[trigger] seg_start(x as int, j) + 4] == ' ',
                decreases 3 - y,
            {
                if text.get_char(20 * x + 5 * y + 4) != ' ' {
                    proof {
                        assert(t[seg_start(x as int, y as int) + 4] != ' ');
                    }
                    return Err(QuartoError::InvalidBoardText);
                }
                proof {
                    assert(t[seg_start(x as int, y as int) + 4] == ' ');
                }
                y = y + 1;
            }
            x = x + 1;
        }
        // Every segment is blank or a valid piece code.
        let mut x: usize = 0;
        while x < 4
            invariant
                t == text@,
                t.len() == 79,
                x <= 4,
                forall|i: int, j: int|
                    0 <= i < x && 0 <= j < 4 ==> #[trigger] segment_ok(t, i, j),
            decreases 4 - x,
        {
            let mut y: usize = 0;
            while y < 4
                invariant
                    t == text@,
                t.len() == 79,
                    x < 4,
                    y <= 4,
                    forall|i: int, j: int|
                        0 <= i < x && 0 <= j < 4 ==> #[trigger] segment_ok(t, i, j),
                    forall|j: int| 0 <= j < y ==> #[trigger] segment_ok(t, x as int, j),
                decreases 4 - y,
            {
                if Self::read_cell(text, x, y).is_err() {
                    return Err(QuartoError::InvalidBoardText);
                }
                y = y + 1;
            }
            x = x + 1;
        }
        proof {
            assert(text_shape_ok(t));
        }
        // The shape is canonical: fill the grid, rejecting duplicates.
        let mut bs = BoardState::empty();
        let mut x: usize = 0;
        while x < 4
            invariant
                t == text@,
                t.len() == 79,
                text_shape_ok(t),
                board_wf(bs@),
                board_no_dup(bs@),
                x <= 4,
                forall|i: int, j: int|
                    0 <= i < x && 0 <= j < 4 ==> bs@[i][j] == cell_of_text(t, i, j),
                forall|i: int, j: int|
                    x <= i < 4 && 0 <= j < 4 ==> bs@[i][j] is None,
                forall|i: int, j: int, i2: int, j2: int|
                    #![trigger cell_of_text(t, i, j), cell_of_text(t, i2, j2)]
                    0 <= i < x && 0 <= j < 4 && 0 <= i2 < x && 0 <= j2 < 4 && !(i == i2 && j
                        == j2) && cell_of_text(t, i, j) is Some ==> cell_of_text(t, i, j)
                        != cell_of_text(t, i2, j2),
            decreases 4 - x,
        {
            let mut y: usize = 0;
            while y < 4
                invariant
                    t == text@,
                t.len() == 79,
                    text_shape_ok(t),
                    board_wf(bs@),
                    board_no_dup(bs@),
                    x < 4,
                    y <= 4,
                    forall|i: int, j: int|
                        0 <= i < 4 && 0 <= j < 4 && (i < x || (i == x && j < y)) ==> bs@[i][j]
                            == cell_of_text(t, i, j),
                    forall|i: int, j: int|
                        0 <= i < 4 && 0 <= j < 4 && (i > x || (i == x && j >= y)) ==> bs@[i][j]
                            is None,
                    forall|i: int, j: int, i2: int, j2: int|
                        #![trigger cell_of_text(t, i, j), cell_of_text(t, i2, j2)]
                        0 <= i < 4 && 0 <= j < 4 && 0 <= i2 < 4 && 0 <= j2 < 4 && (i < x || (i
                            == x && j < y)) && (i2 < x || (i2 == x && j2 < y)) && !(i == i2 && j
                            == j2) && cell_of_text(t, i, j) is Some ==> cell_of_text(t, i, j)
                            != cell_of_text(t, i2, j2),
                decreases 4 - y,
            {
                match Self::read_cell(text, x, y) {
                    Err(_) => {
                        proof {
                            assert(false);
                        }
                        return Err(QuartoError::InvalidBoardText);
                    },
                    Ok(None) => {},
                    Ok(Some(p)) => {
                        if bs.contains_piece(&p) {
                            proof {
                                let (i, j) = choose|i: int, j: int|
                                    0 <= i < 4 && 0 <= j < 4 && bs@[i][j] == Some(p);
                                assert(cell_of_text(t, i, j) == Some(p));
                                assert(cell_of_text(t, i, j) == cell_of_text(
                                    t,
                                    x as int,
                                    y as int,
                                ));
                                assert(text_has_dup(t));
                            }
                            return Err(QuartoError::DuplicatePiece);
                        }
                        bs.set_cell(x, y, p);
                    },
                }
                y = y + 1;
            }
            x = x + 1;
        }
        proof {
            assert(!text_has_dup(t)) by {
                if text_has_dup(t) {
                    let (i, j, i2, j2) = choose|i: int, j: int, i2: int, j2: int|
                        #![trigger cell_of_text(t, i, j), cell_of_text(t, i2, j2)]
                        0 <= i < 4 && 0 <= j < 4 && 0 <= i2 < 4 && 0 <= j2 < 4 && !(i == i2 && j
                            == j2) && cell_of_text(t, i, j) is Some && cell_of_text(t, i, j)
                            == cell_of_text(t, i2, j2);
                    assert(cell_of_text(t, i, j) != cell_of_text(t, i2, j2));
                }
            }
        }
        proof {
            assert(bs@ =~~= board_of_text(t));
        }
        Ok(bs)
    }
}

/// The round-trip law at the level of board texts: the canonical text of
/// any well-formed, duplicate-free board has the canonical shape, names
/// no piece twice, and decodes cell for cell to the board it came from.
/// Together with the contracts of `encode` and `decode`, this says that
/// `decode(encode(b))` succeeds and returns `b` again.
/// One cell of the canonical text decodes back to the cell it encodes.
proof fn lemma_cell_roundtrip(b: Seq<Seq<Option<Piece>>>, x: int, y: int)
    requires
        board_wf(b),
        0 <= x < 4,
        0 <= y < 4,
    ensures
        segment_ok(board_text(b), x, y),
        cell_of_text(board_text(b), x, y) == b[x][y],
{
    let t = board_text(b);
    assert forall|m: int| 0 <= m < 4 implies #[trigger] t[seg_start(x, y) + m] == cell_char(
        b[x][y],
        m,
    ) by {
        let j = seg_start(x, y) + m;
        assert(j / 20 == x && j % 20 == 5 * y + m);
        assert((5 * y + m) / 5 == y && (5 * y + m) % 5 == m);
    }
    match b[x][y] {
        None => {
            assert(segment_is_blank(t, x, y));
        },
        Some(p) => {
            assert(t[seg_start(x, y) + 0] == piece_code(p)[0]);
            assert(piece_code(p)[0] != ' ');
            assert(!segment_is_blank(t, x, y));
            assert(segment_code(t, x, y) =~= piece_code(p));
            lemma_piece_code_roundtrip(p);
        },
    }
}

/// The fixed newline and separator positions of the canonical text.
proof fn lemma_board_text_frame(b: Seq<Seq<Option<Piece>>>)
    requires
        board_wf(b),
    ensures
        forall|x: int| 0 <= x < 3 ==> #[trigger] board_text(b)[20 * x + 19] == '\n',
        forall|x: int, y: int|
            0 <= x < 4 && 0 <= y < 3 ==> board_text(b)[#[trigger] seg_start(x, y) + 4] == ' ',
{
    let t = board_text(b);
    assert forall|x: int| 0 <= x < 3 implies #[trigger] t[20 * x + 19] == '\n' by {
        let j = 20 * x + 19;
        assert(j / 20 == x && j % 20 == 19);
    }
    assert forall|x: int, y: int| 0 <= x < 4 && 0 <= y < 3 implies t[#[trigger] seg_start(x, y)
        + 4] == ' ' by {
        let j = seg_start(x, y) + 4;
        assert(j / 20 == x && j % 20 == 5 * y + 4);
        assert((5 * y + 4) / 5 == y && (5 * y + 4) % 5 == 4);
    }
}

/// Every cell of the canonical text decodes back to the board's cell.
proof fn lemma_board_text_cells(b: Seq<Seq<Option<Piece>>>)
    requires
        board_wf(b),
    ensures
        forall|x: int, y: int|
            #![trigger segment_ok(board_text(b), x, y)]
            #![trigger cell_of_text(board_text(b), x, y)]
            0 <= x < 4 && 0 <= y < 4 ==> segment_ok(board_text(b), x, y) && cell_of_text(
                board_text(b),
                x,
                y,
            ) == b[x][y],
{
    assert forall|x: int, y: int|
        #![trigger segment_ok(board_text(b), x, y)]
        #![trigger cell_of_text(board_text(b), x, y)]
        0 <= x < 4 && 0 <= y < 4 implies segment_ok(board_text(b), x, y) && cell_of_text(
        board_text(b),
        x,
        y,
    ) == b[x][y] by {
        lemma_cell_roundtrip(b, x, y);
    }
}

/// A duplicate in the canonical text would be a duplicate on the board.
#[verifier::rlimit(100)]
proof fn lemma_board_text_no_dup(b: Seq<Seq<Option<Piece>>>)
    requires
        board_wf(b),
        board_no_dup(b),
    ensures
        !text_has_dup(board_text(b)),
{
    let t = board_text(b);
    lemma_board_text_cells(b);
    if text_has_dup(t) {
        let (x, y, x2, y2) = choose|x: int, y: int, x2: int, y2: int|
            #![trigger cell_of_text(t, x, y), cell_of_text(t, x2, y2)]
            0 <= x < 4 && 0 <= y < 4 && 0 <= x2 < 4 && 0 <= y2 < 4 && !(x == x2 && y == y2)
                && cell_of_text(t, x, y) is Some && cell_of_text(t, x, y) == cell_of_text(
                t,
                x2,
                y2,
            );
        assert(b[x][y] is Some && b[x][y] == b[x2][y2]);
        assert(false);
    }
}

/// The canonical text of a well-formed board has the canonical shape.
proof fn lemma_board_text_shape(b: Seq<Seq<Option<Piece>>>)
    requires
        board_wf(b),
    ensures
        text_shape_ok(board_text(b)),
{
    lemma_board_text_frame(b);
    lemma_board_text_cells(b);
}

pub proof fn lemma_board_text_roundtrip(b: Seq<Seq<Option<Piece>>>)
    requires
        board_wf(b),
        board_no_dup(b),
    ensures
        text_shape_ok(board_text(b)),
        !text_has_dup(board_text(b)),
        forall|x: int, y: int|
            0 <= x < 4 && 0 <= y < 4 ==> #[trigger] cell_of_text(board_text(b), x, y) == b[x][y],
{
    lemma_board_text_shape(b);
    lemma_board_text_no_dup(b);
    lemma_board_text_cells(b);
}

} // verus!
