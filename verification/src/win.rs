//! Win checker: a pure, stateless query over the board that detects a
//! completed line of four cells sharing a common attribute.

use vstd::prelude::*;

use crate::board::{board_wf, BoardState};
use crate::game::Quarto;
use crate::piece::{Color, Height, Piece, Shape, Top};

verus! {

/// Coordinates of cell `k` (0 to 3) of line `li` (0 to 9): the four
/// rows, then the four columns, then the two main diagonals.
pub open spec fn line_cell(li: int, k: int) -> (int, int) {
    if li < 4 {
        (li, k)
    } else if li < 8 {
        (k, li - 4)
    } else if li == 8 {
        (k, k)
    } else {
        (3 - k, k)
    }
}

/// The piece (or empty) at cell `k` of line `li`.
pub open spec fn line_piece(b: Seq<Seq<Option<Piece>>>, li: int, k: int) -> Option<Piece> {
    b[line_cell(li, k).0][line_cell(li, k).1]
}

/// All four cells of the line are occupied.
pub open spec fn line_full(b: Seq<Seq<Option<Piece>>>, li: int) -> bool {
    forall|k: int| 0 <= k < 4 ==> #[trigger] line_piece(b, li, k) is Some
}

pub open spec fn cell_color(c: Option<Piece>) -> Option<Color> {
    match c {
        Some(p) => Some(p.color),
        None => None,
    }
}

pub open spec fn cell_height(c: Option<Piece>) -> Option<Height> {
    match c {
        Some(p) => Some(p.height),
        None => None,
    }
}

pub open spec fn cell_shape(c: Option<Piece>) -> Option<Shape> {
    match c {
        Some(p) => Some(p.shape),
        None => None,
    }
}

pub open spec fn cell_top(c: Option<Piece>) -> Option<Top> {
    match c {
        Some(p) => Some(p.top),
        None => None,
    }
}

/// Grouping the line's four color values yields a single value.
pub open spec fn line_same_color(b: Seq<Seq<Option<Piece>>>, li: int) -> bool {
    forall|k: int|
        0 <= k < 4 ==> cell_color(#[trigger] line_piece(b, li, k)) == cell_color(
            line_piece(b, li, 0),
        )
}

/// Grouping the line's four height values yields a single value.
pub open spec fn line_same_height(b: Seq<Seq<Option<Piece>>>, li: int) -> bool {
    forall|k: int|
        0 <= k < 4 ==> cell_height(#[trigger] line_piece(b, li, k)) == cell_height(
            line_piece(b, li, 0),
        )
}

/// Grouping the line's four shape values yields a single value.
pub open spec fn line_same_shape(b: Seq<Seq<Option<Piece>>>, li: int) -> bool {
    forall|k: int|
        0 <= k < 4 ==> cell_shape(#[trigger] line_piece(b, li, k)) == cell_shape(
            line_piece(b, li, 0),
        )
}

/// Grouping the line's four top values yields a single value.
pub open spec fn line_same_top(b: Seq<Seq<Option<Piece>>>, li: int) -> bool {
    forall|k: int|
        0 <= k < 4 ==> cell_top(#[trigger] line_piece(b, li, k)) == cell_top(
            line_piece(b, li, 0),
        )
}

/// The line qualifies: occupied throughout, and all four pieces share
/// at least one attribute value.
pub open spec fn line_wins(b: Seq<Seq<Option<Piece>>>, li: int) -> bool {
    &&& line_full(b, li)
    &&& (line_same_color(b, li) || line_same_height(b, li) || line_same_shape(b, li)
        || line_same_top(b, li))
}

/// At least one of the ten lines qualifies on at least one attribute.
pub open spec fn spec_is_quarto(b: Seq<Seq<Option<Piece>>>) -> bool {
    exists|li: int| 0 <= li < 10 && #[trigger] line_wins(b, li)
}

/// The board coordinates of cell `k` of line `li`.
fn line_coords(li: usize, k: usize) -> (r: (usize, usize))
    requires
        li < 10,
        k < 4,
    ensures
        r.0 as int == line_cell(li as int, k as int).0,
        r.1 as int == line_cell(li as int, k as int).1,
        r.0 < 4,
        r.1 < 4,
{
    if li < 4 {
        (li, k)
    } else if li < 8 {
        (k, li - 4)
    } else if li == 8 {
        (k, k)
    } else {
        (3 - k, k)
    }
}

/// Whether line `li` qualifies on some attribute: empty cells
/// short-circuit to no; otherwise the four attribute values are grouped
/// and the line qualifies exactly when some grouping is a single value.
fn check_line(bs: &BoardState, li: usize) -> (r: bool)
    requires
        board_wf(bs@),
        li < 10,
    ensures
        r == line_wins(bs@, li as int),
{
    let ghost b = bs@;
    let ghost l = li as int;
    let (x0, y0) = line_coords(li, 0);
    let (x1, y1) = line_coords(li, 1);
    let (x2, y2) = line_coords(li, 2);
    let (x3, y3) = line_coords(li, 3);
    let c0 = bs.get(x0, y0);
    let c1 = bs.get(x1, y1);
    let c2 = bs.get(x2, y2);
    let c3 = bs.get(x3, y3);
    proof {
        assert(c0 == line_piece(b, l, 0));
        assert(c1 == line_piece(b, l, 1));
        assert(c2 == line_piece(b, l, 2));
        assert(c3 == line_piece(b, l, 3));
    }
    match (c0, c1, c2, c3) {
        (Some(p0), Some(p1), Some(p2), Some(p3)) => {
            proof {
                assert forall|k: int| 0 <= k < 4 implies #[trigger] line_piece(b, l, k)
                    is Some by {
                    if k == 0 {
                    } else if k == 1 {
                    } else if k == 2 {
                    } else {
                        assert(k == 3);
                    }
                }
            }
            let same_color = p1.color == p0.color && p2.color == p0.color && p3.color
                == p0.color;
            let same_height = p1.height == p0.height && p2.height == p0.height && p3.height
                == p0.height;
            let same_shape = p1.shape == p0.shape && p2.shape == p0.shape && p3.shape
                == p0.shape;
            let same_top = p1.top == p0.top && p2.top == p0.top && p3.top == p0.top;
            proof {
                assert(same_color == line_same_color(b, l)) by {
                    if same_color {
                        assert forall|k: int| 0 <= k < 4 implies cell_color(
                            #[trigger] line_piece(b, l, k),
                        ) == cell_color(line_piece(b, l, 0)) by {
                            if k == 0 {
                            } else if k == 1 {
                            } else if k == 2 {
                            } else {
                                assert(k == 3);
                            }
                        }
                    }
                }
                assert(same_height == line_same_height(b, l)) by {
                    if same_height {
                        assert forall|k: int| 0 <= k < 4 implies cell_height(
                            #[trigger] line_piece(b, l, k),
                        ) == cell_height(line_piece(b, l, 0)) by {
                            if k == 0 {
                            } else if k == 1 {
                            } else if k == 2 {
                            } else {
                                assert(k == 3);
                            }
                        }
                    }
                }
                assert(same_shape == line_same_shape(b, l)) by {
                    if same_shape {
                        assert forall|k: int| 0 <= k < 4 implies cell_shape(
                            #[trigger] line_piece(b, l, k),
                        ) == cell_shape(line_piece(b, l, 0)) by {
                            if k == 0 {
                            } else if k == 1 {
                            } else if k == 2 {
                            } else {
                                assert(k == 3);
                            }
                        }
                    }
                }
                assert(same_top == line_same_top(b, l)) by {
                    if same_top {
                        assert forall|k: int| 0 <= k < 4 implies cell_top(
                            #[trigger] line_piece(b, l, k),
                        ) == cell_top(line_piece(b, l, 0)) by {
                            if k == 0 {
                            } else if k == 1 {
                            } else if k == 2 {
                            } else {
                                assert(k == 3);
                            }
                        }
                    }
                }
            }
            same_color || same_height || same_shape || same_top
        },
        _ => {
            proof {
                if c0 is None {
                    assert(!(line_piece(b, l, 0) is Some));
                } else if c1 is None {
                    assert(!(line_piece(b, l, 1) is Some));
                } else if c2 is None {
                    assert(!(line_piece(b, l, 2) is Some));
                } else {
                    assert(!(line_piece(b, l, 3) is Some));
                }
                assert(!line_full(b, l));
            }
            false
        },
    }
}

impl Quarto {
    /// Whether some line of the board is a quarto. A pure, idempotent
    /// query: true exactly when at least one of the ten lines is fully
    /// occupied by pieces sharing an attribute value.
    pub fn is_quarto(&self) -> (r: bool)
        requires
            board_wf(self.board_state@),
        ensures
            r == spec_is_quarto(self.board_state@),
    {
        let mut li: usize = 0;
        while li < 10
            invariant
                board_wf(self.board_state@),
                li <= 10,
                forall|lj: int| 0 <= lj < li ==> !#[trigger] line_wins(self.board_state@, lj),
            decreases 10 - li,
        {
            if check_line(&self.board_state, li) {
                return true;
            }
            li = li + 1;
        }
        false
    }
}

/// Any of the ten lines, fully occupied by four pieces sharing an
/// attribute value, makes the board a quarto — whatever the other cells
/// hold.
pub proof fn lemma_line_quarto(b: Seq<Seq<Option<Piece>>>, li: int)
    requires
        0 <= li < 10,
        line_full(b, li),
        line_same_color(b, li) || line_same_height(b, li) || line_same_shape(b, li)
            || line_same_top(b, li),
    ensures
        spec_is_quarto(b),
{
    assert(line_wins(b, li));
}

/// An empty board is no quarto.
pub proof fn lemma_empty_board_no_quarto(b: Seq<Seq<Option<Piece>>>)
    requires
        board_wf(b),
        forall|x: int, y: int| 0 <= x < 4 && 0 <= y < 4 ==> b[x][y] is None,
    ensures
        !spec_is_quarto(b),
{
    assert forall|li: int| 0 <= li < 10 implies !#[trigger] line_wins(b, li) by {
        assert(b[line_cell(li, 0).0][line_cell(li, 0).1] is None);
        assert(!(line_piece(b, li, 0) is Some));
        assert(!line_full(b, li));
    }
}

/// Two cells of a line with different color values deny that line a
/// color quarto; the board may still be a quarto through another
/// attribute or another line.
pub proof fn lemma_line_color_mismatch(b: Seq<Seq<Option<Piece>>>, li: int, j: int, k: int)
    requires
        0 <= li < 10,
        0 <= j < 4,
        0 <= k < 4,
        cell_color(line_piece(b, li, j)) != cell_color(line_piece(b, li, k)),
    ensures
        !line_same_color(b, li),
{
}

} // verus!
