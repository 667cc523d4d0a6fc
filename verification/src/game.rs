//! Game state: one board, the free-piece pool, and the pending piece,
//! mutated only through the pick-then-place turn protocol.

use vstd::prelude::*;

use crate::board::{
    board_has_piece, board_no_dup, board_of_text, board_text, board_wf, lemma_place_keeps_no_dup,
    text_has_dup, text_shape_ok, BoardState,
};
use crate::piece::{
    lemma_all_pieces_complete, lemma_all_pieces_no_dup, piece_code, spec_all_pieces,
    spec_piece_from_code, Piece, QuartoError,
};

verus! {

/// Everything a filter keeps was in the sequence it filtered.
proof fn lemma_filter_membership<A>(s: Seq<A>, pred: spec_fn(A) -> bool, x: A)
    requires
        s.filter(pred).contains(x),
    ensures
        s.contains(x),
        pred(x),
    decreases s.len(),
{
    reveal(Seq::filter);
    if s.len() == 0 {
    } else {
        let prefix = s.drop_last();
        if pred(s.last()) && x == s.last() {
            assert(s[s.len() - 1] == x);
        } else {
            assert(prefix.filter(pred).contains(x));
            lemma_filter_membership(prefix, pred, x);
            let i = choose|i: int| 0 <= i < prefix.len() && prefix[i] == x;
            assert(s[i] == x);
        }
    }
}

/// Filtering a duplicate-free sequence leaves it duplicate-free.
proof fn lemma_filter_no_dup<A>(s: Seq<A>, pred: spec_fn(A) -> bool)
    requires
        s.no_duplicates(),
    ensures
        s.filter(pred).no_duplicates(),
    decreases s.len(),
{
    reveal(Seq::filter);
    if s.len() == 0 {
    } else {
        let prefix = s.drop_last();
        assert(prefix.no_duplicates());
        lemma_filter_no_dup(prefix, pred);
        if pred(s.last()) {
            if prefix.filter(pred).contains(s.last()) {
                lemma_filter_membership(prefix, pred, s.last());
                let i = choose|i: int| 0 <= i < prefix.len() && prefix[i] == s.last();
                assert(s[i] == s[s.len() - 1]);
                assert(false);
            }
        }
    }
}

/// Two duplicate-free sequences with the same members have the same
/// length.
proof fn lemma_same_membership_len<A>(s1: Seq<A>, s2: Seq<A>)
    requires
        s1.no_duplicates(),
        s2.no_duplicates(),
        forall|x: A| s1.contains(x) <==> s2.contains(x),
    ensures
        s1.len() == s2.len(),
{
    s1.unique_seq_to_set();
    s2.unique_seq_to_set();
    assert(s1.to_set() =~= s2.to_set());
}

/// When every element satisfies exactly one of three predicates, the
/// three filtered lengths add up to the whole.
proof fn lemma_filter_partition_count<A>(
    s: Seq<A>,
    p1: spec_fn(A) -> bool,
    p2: spec_fn(A) -> bool,
    p3: spec_fn(A) -> bool,
)
    requires
        forall|i: int|
            0 <= i < s.len() ==> {
                let x = #[trigger] s[i];
                &&& p1(x) || p2(x) || p3(x)
                &&& !(p1(x) && p2(x))
                &&& !(p1(x) && p3(x))
                &&& !(p2(x) && p3(x))
            },
    ensures
        s.filter(p1).len() + s.filter(p2).len() + s.filter(p3).len() == s.len(),
    decreases s.len(),
{
    reveal(Seq::filter);
    if s.len() != 0 {
        let pre = s.drop_last();
        assert forall|i: int| 0 <= i < pre.len() implies {
            let x = #[trigger] pre[i];
            &&& p1(x) || p2(x) || p3(x)
            &&& !(p1(x) && p2(x))
            &&& !(p1(x) && p3(x))
            &&& !(p2(x) && p3(x))
        } by {
            assert(pre[i] == s[i]);
        }
        lemma_filter_partition_count(pre, p1, p2, p3);
        assert(s[s.len() - 1] == s.last());
    }
}

/// A duplicate-free sequence holds exactly one element that a
/// membership test for one of its members accepts.
proof fn lemma_filter_single<A>(s: Seq<A>, pred: spec_fn(A) -> bool, x: A)
    requires
        s.no_duplicates(),
        s.contains(x),
        forall|y: A| #[trigger] pred(y) <==> y == x,
    ensures
        s.filter(pred).len() == 1,
{
    let f = s.filter(pred);
    lemma_filter_no_dup(s, pred);
    let i = choose|i: int| 0 <= i < s.len() && s[i] == x;
    s.lemma_filter_contains(pred, i);
    assert(f.len() >= 1);
    if f.len() >= 2 {
        s.lemma_filter_pred(pred, 0);
        s.lemma_filter_pred(pred, 1);
        assert(f[0] == x && f[1] == x);
        assert(false);
    }
}

/// Nothing survives a filter that nothing satisfies.
proof fn lemma_filter_none<A>(s: Seq<A>, pred: spec_fn(A) -> bool)
    requires
        forall|i: int| 0 <= i < s.len() ==> !pred(#[trigger] s[i]),
    ensures
        s.filter(pred).len() == 0,
{
    if s.filter(pred).len() > 0 {
        s.lemma_filter_pred(pred, 0);
        lemma_filter_membership(s, pred, s.filter(pred)[0]);
        let i = choose|i: int| 0 <= i < s.len() && s[i] == s.filter(pred)[0];
        assert(!pred(s[i]));
        assert(false);
    }
}

/// Removing the first occurrence of a value from a duplicate-free
/// sequence removes exactly that value.
proof fn lemma_remove_value_no_dup(s: Seq<Piece>, p: Piece)
    requires
        s.no_duplicates(),
        s.contains(p),
    ensures
        s.remove_value(p).no_duplicates(),
        !s.remove_value(p).contains(p),
        forall|q: Piece| q != p ==> (s.remove_value(p).contains(q) <==> s.contains(q)),
        s.remove_value(p).len() == s.len() - 1,
{
    s.index_of_first_ensures(p);
    let i = s.index_of_first(p).unwrap();
    let r = s.remove(i);
    assert forall|j: int| 0 <= j < r.len() implies #[trigger] r[j] == (if j < i {
        s[j]
    } else {
        s[j + 1]
    }) by {}
    assert forall|j: int| 0 <= j < r.len() implies #[trigger] r[j] != p by {
        if j < i {
            assert(s[j] == r[j]);
        } else {
            assert(s[j + 1] == r[j]);
            assert(s[i] == p);
            if s[j + 1] == p {
                assert(j + 1 == i);
            }
        }
    }
    assert(!r.contains(p));
    assert forall|q: Piece| q != p implies (r.contains(q) <==> s.contains(q)) by {
        if r.contains(q) {
            let j = choose|j: int| 0 <= j < r.len() && r[j] == q;
            if j < i {
                assert(s[j] == q);
            } else {
                assert(s[j + 1] == q);
            }
        }
        if s.contains(q) {
            let j = choose|j: int| 0 <= j < s.len() && s[j] == q;
            if j < i {
                assert(r[j] == q);
            } else {
                assert(j != i);
                assert(r[j - 1] == q);
            }
        }
    }
    assert forall|a: int, b: int|
        0 <= a < r.len() && 0 <= b < r.len() && a != b implies r[a] != r[b] by {
        let a2 = if a < i {
            a
        } else {
            a + 1
        };
        let b2 = if b < i {
            b
        } else {
            b + 1
        };
        assert(r[a] == s[a2] && r[b] == s[b2] && a2 != b2);
    }
}

/// A game session: the board, the free pool (pieces neither placed nor
/// pending), and the piece picked for the current player to place.
#[derive(Clone, Debug, PartialEq)]
pub struct Quarto {
    pub board_state: BoardState,
    pub free_pieces: Vec<Piece>,
    pub next_piece: Option<Piece>,
}

impl Quarto {
    /// The free pool as a mathematical sequence.
    pub open spec fn free(&self) -> Seq<Piece> {
        self.free_pieces@
    }

    /// The invariant of every reachable game state: a well-formed,
    /// duplicate-free board, a duplicate-free pool, and the sixteen-piece
    /// universe partitioned exactly into board, pool and pending piece.
    pub open spec fn wf(self) -> bool {
        &&& board_wf(self.board_state@)
        &&& board_no_dup(self.board_state@)
        &&& self.free().no_duplicates()
        &&& forall|p: Piece|
            self.free().contains(p) ==> !board_has_piece(self.board_state@, p)
                && self.next_piece != Some(p)
        &&& match self.next_piece {
            Some(p) => !board_has_piece(self.board_state@, p),
            None => true,
        }
        &&& forall|p: Piece|
            board_has_piece(self.board_state@, p) || #[trigger] self.free().contains(p)
                || self.next_piece == Some(p)
    }

    /// What a pick of `p` must return in this state.
    pub open spec fn pick_outcome(self, p: Piece) -> Result<(), QuartoError> {
        if self.next_piece is Some {
            Err(QuartoError::PendingPieceExists)
        } else if !self.free().contains(p) {
            Err(QuartoError::PieceAlreadyUsed)
        } else {
            Ok(())
        }
    }

    /// What a placement at `(x, y)` must return in this state.
    pub open spec fn place_outcome(self, x: int, y: int) -> Result<(), QuartoError> {
        if !(0 <= x < 4 && 0 <= y < 4) {
            Err(QuartoError::OutOfRange)
        } else if self.next_piece is None {
            Err(QuartoError::NoPendingPiece)
        } else if self.board_state@[x][y] is Some {
            Err(QuartoError::CellOccupied)
        } else {
            Ok(())
        }
    }
}

/// How a successful pick changes the state: the piece leaves the pool
/// and becomes pending; the board does not move.
pub open spec fn pick_ok_post(pre: Quarto, post: Quarto, p: Piece) -> bool {
    &&& post.board_state == pre.board_state
    &&& post.next_piece == Some(p)
    &&& post.free() == pre.free().remove_value(p)
}

/// How a successful placement changes the state: the pending piece goes
/// into the empty cell `(x, y)`; the pool does not move.
pub open spec fn place_ok_post(pre: Quarto, post: Quarto, x: int, y: int) -> bool {
    &&& post.board_state@ == pre.board_state@.update(
        x,
        pre.board_state@[x].update(y, pre.next_piece),
    )
    &&& post.next_piece is None
    &&& post.free() == pre.free()
}

impl Quarto {
    /// A fresh session: empty board, all sixteen pieces free, nothing
    /// pending.
    pub fn new() -> (r: Quarto)
        ensures
            r.wf(),
            forall|x: int, y: int| 0 <= x < 4 && 0 <= y < 4 ==> r.board_state@[x][y] is None,
            r.free() == spec_all_pieces(),
            r.next_piece is None,
    {
        let r = Quarto {
            board_state: BoardState::empty(),
            free_pieces: crate::piece::all_pieces(),
            next_piece: None,
        };
        proof {
            lemma_all_pieces_no_dup();
            assert forall|p: Piece| #[trigger]
                r.free().contains(p) || board_has_piece(r.board_state@, p) || r.next_piece
                    == Some(p) by {
                lemma_all_pieces_complete(p);
            }
            assert forall|p: Piece| r.free().contains(p) implies !board_has_piece(
                r.board_state@,
                p,
            ) && r.next_piece != Some(p) by {}
        }
        r
    }

    /// The free pool recomputed as the complement of a board's pieces,
    /// in the fixed enumeration order.
    pub fn free_pieces(bs: &BoardState) -> (r: Vec<Piece>)
        requires
            board_wf(bs@),
        ensures
            r@ == spec_all_pieces().filter(|p: Piece| !board_has_piece(bs@, p)),
            r@.no_duplicates(),
            forall|p: Piece| #[trigger] r@.contains(p) <==> !board_has_piece(bs@, p),
    {
        let all = crate::piece::all_pieces();
        let ghost pred = |p: Piece| !board_has_piece(bs@, p);
        let mut r: Vec<Piece> = Vec::new();
        let mut i: usize = 0;
        while i < 16
            invariant
                board_wf(bs@),
                all@ == spec_all_pieces(),
                pred == (|p: Piece| !board_has_piece(bs@, p)),
                i <= 16,
                r@ == spec_all_pieces().subrange(0, i as int).filter(pred),
            decreases 16 - i,
        {
            let p = all[i];
            let ghost prefix = spec_all_pieces().subrange(0, i as int);
            let ghost prefix2 = spec_all_pieces().subrange(0, i as int + 1);
            if !bs.contains_piece(&p) {
                r.push(p);
            }
            proof {
                reveal(Seq::filter);
                assert(prefix2.drop_last() =~= prefix);
                assert(prefix2.last() == p);
                assert(prefix2.filter(pred) == if pred(p) {
                    prefix.filter(pred).push(p)
                } else {
                    prefix.filter(pred)
                });
            }
            i = i + 1;
        }
        proof {
            assert(spec_all_pieces().subrange(0, 16) =~= spec_all_pieces());
            lemma_all_pieces_no_dup();
            lemma_filter_no_dup(spec_all_pieces(), pred);
            assert forall|p: Piece| #[trigger] r@.contains(p) <==> !board_has_piece(bs@, p) by {
                if r@.contains(p) {
                    lemma_filter_membership(spec_all_pieces(), pred, p);
                }
                if !board_has_piece(bs@, p) {
                    lemma_all_pieces_complete(p);
                    let i = choose|i: int|
                        0 <= i < 16 && spec_all_pieces()[i] == p;
                    spec_all_pieces().lemma_filter_contains(pred, i);
                }
            }
        }
        r
    }

    /// Reconstructs a session from a persisted board text: the free pool
    /// is the complement of the board's pieces, nothing is pending.
    /// Fails exactly as `BoardState::decode` fails.
    pub fn from_board_text(text: &str) -> (r: Result<Quarto, QuartoError>)
        ensures
            !text_shape_ok(text@) ==> r == Err::<Quarto, QuartoError>(
                QuartoError::InvalidBoardText,
            ),
            text_shape_ok(text@) && text_has_dup(text@) ==> r == Err::<Quarto, QuartoError>(
                QuartoError::DuplicatePiece,
            ),
            text_shape_ok(text@) && !text_has_dup(text@) ==> (r matches Ok(q) && q.wf()
                && q.board_state@ == board_of_text(text@) && q.next_piece is None && q.free()
                == spec_all_pieces().filter(|p: Piece| !board_has_piece(q.board_state@, p)) && (
            forall|p: Piece|
                #[trigger] q.free().contains(p) <==> !board_has_piece(q.board_state@, p))),
    {
        let bs = match BoardState::decode(text) {
            Err(e) => {
                return Err(e);
            },
            Ok(bs) => bs,
        };
        let free = Self::free_pieces(&bs);
        let q = Quarto { board_state: bs, free_pieces: free, next_piece: None };
        proof {
            assert forall|p: Piece|
                board_has_piece(q.board_state@, p) || #[trigger] q.free().contains(p)
                    || q.next_piece == Some(p) by {}
        }
        Ok(q)
    }

    /// Reconstructs a session from a persisted record: a board text and
    /// the pending piece's code, if one was pending. The pending piece
    /// must still be free: it is removed from the recomputed pool, and
    /// reconstruction fails with `PieceAlreadyUsed` when the board
    /// already holds it.
    pub fn from_record(text: &str, pending: Option<&str>) -> (r: Result<Quarto, QuartoError>)
        ensures
            !text_shape_ok(text@) ==> r == Err::<Quarto, QuartoError>(
                QuartoError::InvalidBoardText,
            ),
            text_shape_ok(text@) && text_has_dup(text@) ==> r == Err::<Quarto, QuartoError>(
                QuartoError::DuplicatePiece,
            ),
            text_shape_ok(text@) && !text_has_dup(text@) && pending is None ==> (r matches Ok(q)
                && q.wf() && q.board_state@ == board_of_text(text@) && q.next_piece is None && (
            forall|p: Piece|
                #[trigger] q.free().contains(p) <==> !board_has_piece(q.board_state@, p))),
            text_shape_ok(text@) && !text_has_dup(text@) && pending is Some ==> ({
                let pc = spec_piece_from_code((pending->0)@);
                &&& pc is Err ==> r == Err::<Quarto, QuartoError>(QuartoError::InvalidPieceCode)
                &&& pc matches Ok(p) ==> ((board_has_piece(board_of_text(text@), p) ==> r
                    == Err::<Quarto, QuartoError>(QuartoError::PieceAlreadyUsed)) && (
                !board_has_piece(board_of_text(text@), p) ==> (r matches Ok(q) && q.wf()
                    && q.board_state@ == board_of_text(text@) && q.next_piece == Some(p) && (
                forall|p2: Piece|
                    #[trigger] q.free().contains(p2) <==> (!board_has_piece(q.board_state@, p2)
                        && p2 != p)))))
            }),
    {
        let mut q = match Self::from_board_text(text) {
            Err(e) => {
                return Err(e);
            },
            Ok(q) => q,
        };
        match pending {
            None => Ok(q),
            Some(code) => {
                let p = match Piece::from_code(code) {
                    Err(_) => {
                        return Err(QuartoError::InvalidPieceCode);
                    },
                    Ok(p) => p,
                };
                let ghost q0 = q;
                match q.pick_piece(&p) {
                    Ok(()) => {
                        proof {
                            lemma_remove_value_no_dup(q0.free(), p);
                        }
                        Ok(q)
                    },
                    Err(e) => Err(e),
                }
            },
        }
    }

    /// Serializes a session back to the persisted record shape: the
    /// canonical board text and the pending piece's code, if one is
    /// pending.
    pub fn to_record(&self) -> (r: (String, Option<String>))
        requires
            board_wf(self.board_state@),
        ensures
            r.0@ == board_text(self.board_state@),
            match self.next_piece {
                Some(p) => r.1 matches Some(code) && code@ == piece_code(p),
                None => r.1 is None,
            },
    {
        let text = self.board_state.encode();
        let pending = match &self.next_piece {
            Some(p) => Some(p.code()),
            None => None,
        };
        (text, pending)
    }

    /// A view of the free pool.
    pub fn free_pool(&self) -> (r: &Vec<Piece>)
        ensures
            r@ == self.free(),
    {
        &self.free_pieces
    }

    /// Picks a piece for the opponent to place. Fails with
    /// `PendingPieceExists` while a piece is already pending, and with
    /// `PieceAlreadyUsed` when the piece is not in the free pool; on
    /// failure nothing changes.
    pub fn pick_piece(&mut self, p: &Piece) -> (r: Result<(), QuartoError>)
        requires
            old(self).wf(),
        ensures
            final(self).wf(),
            r == old(self).pick_outcome(*p),
            r is Ok ==> pick_ok_post(*old(self), *final(self), *p),
            r is Err ==> *final(self) == *old(self),
    {
        if self.next_piece.is_some() {
            return Err(QuartoError::PendingPieceExists);
        }
        let n = self.free_pieces.len();
        let mut i: usize = 0;
        while i < n
            invariant
                old(self).wf(),
                old(self).next_piece is None,
                *self == *old(self),
                n == self.free_pieces.len(),
                i <= n,
                forall|j: int| 0 <= j < i ==> self.free_pieces@[j] != *p,
            decreases n - i,
        {
            if self.free_pieces[i] == *p {
                let ghost pre = *self;
                self.free_pieces.remove(i);
                self.next_piece = Some(*p);
                proof {
                    pre.free().index_of_first_ensures(*p);
                    let first = pre.free().index_of_first(*p).unwrap();
                    assert(first == i as int);
                    assert(self.free() == pre.free().remove_value(*p));
                    lemma_remove_value_no_dup(pre.free(), *p);
                    assert(!board_has_piece(pre.board_state@, *p));
                    assert forall|q: Piece| self.free().contains(q) implies !board_has_piece(
                        self.board_state@,
                        q,
                    ) && self.next_piece != Some(q) by {
                        assert(pre.free().contains(q));
                        assert(q != *p);
                    }
                    assert forall|q: Piece|
                        board_has_piece(self.board_state@, q) || #[trigger] self.free().contains(
                            q,
                        ) || self.next_piece == Some(q) by {
                        if q != *p && !board_has_piece(pre.board_state@, q) {
                            assert(pre.free().contains(q));
                        }
                    }
                }
                return Ok(());
            }
            i = i + 1;
        }
        proof {
            assert(!old(self).free().contains(*p));
        }
        Err(QuartoError::PieceAlreadyUsed)
    }

    /// Places the pending piece at `(x, y)`. Fails with `OutOfRange`,
    /// `NoPendingPiece` or `CellOccupied` as the state demands; on
    /// failure nothing changes.
    pub fn move_piece(&mut self, x: usize, y: usize) -> (r: Result<(), QuartoError>)
        requires
            old(self).wf(),
        ensures
            final(self).wf(),
            r == old(self).place_outcome(x as int, y as int),
            r is Ok ==> place_ok_post(*old(self), *final(self), x as int, y as int),
            r is Err ==> *final(self) == *old(self),
    {
        if x >= 4 || y >= 4 {
            return Err(QuartoError::OutOfRange);
        }
        let p = match self.next_piece {
            None => {
                return Err(QuartoError::NoPendingPiece);
            },
            Some(p) => p,
        };
        if self.board_state.get(x, y).is_some() {
            return Err(QuartoError::CellOccupied);
        }
        let ghost pre = *self;
        self.board_state.set_cell(x, y, p);
        self.next_piece = None;
        proof {
            lemma_place_keeps_no_dup(pre.board_state@, x as int, y as int, p);
            assert forall|q: Piece|
                board_has_piece(self.board_state@, q) || #[trigger] self.free().contains(q)
                    || self.next_piece == Some(q) by {
                if !board_has_piece(pre.board_state@, q) && !pre.free().contains(q) {
                    assert(pre.next_piece == Some(q));
                    assert(q == p);
                }
            }
            assert forall|q: Piece| self.free().contains(q) implies !board_has_piece(
                self.board_state@,
                q,
            ) && self.next_piece != Some(q) by {
                assert(pre.free().contains(q));
            }
        }
        Ok(())
    }
}

/// How many of the sixteen pieces stand on the board.
pub open spec fn board_piece_count(b: Seq<Seq<Option<Piece>>>) -> int {
    spec_all_pieces().filter(|p: Piece| board_has_piece(b, p)).len() as int
}

/// The quantitative side of the partition invariant: the pieces on the
/// board, the free pool, and the pending piece (if any) add up to the
/// whole sixteen-piece universe.
pub proof fn lemma_partition_count(q: Quarto)
    requires
        q.wf(),
    ensures
        board_piece_count(q.board_state@) + q.free().len() + (if q.next_piece is Some {
            1int
        } else {
            0int
        }) == 16,
{
    let all = spec_all_pieces();
    let on_board = |p: Piece| board_has_piece(q.board_state@, p);
    let in_pool = |p: Piece| q.free().contains(p);
    let is_pending = |p: Piece| q.next_piece == Some(p);
    lemma_all_pieces_no_dup();
    assert forall|i: int| 0 <= i < all.len() implies {
        let x = #[trigger] all[i];
        &&& on_board(x) || in_pool(x) || is_pending(x)
        &&& !(on_board(x) && in_pool(x))
        &&& !(on_board(x) && is_pending(x))
        &&& !(in_pool(x) && is_pending(x))
    } by {}
    lemma_filter_partition_count(all, on_board, in_pool, is_pending);
    assert(all.filter(in_pool).len() == q.free().len()) by {
        lemma_filter_no_dup(all, in_pool);
        assert forall|x: Piece| all.filter(in_pool).contains(x) <==> q.free().contains(
            x,
        ) by {
            if all.filter(in_pool).contains(x) {
                lemma_filter_membership(all, in_pool, x);
            }
            if q.free().contains(x) {
                lemma_all_pieces_complete(x);
                let i = choose|i: int| 0 <= i < all.len() && all[i] == x;
                all.lemma_filter_contains(in_pool, i);
            }
        }
        lemma_same_membership_len(all.filter(in_pool), q.free());
    }
    match q.next_piece {
        Some(p) => {
            assert(all.filter(is_pending).len() == 1) by {
                lemma_all_pieces_complete(p);
                lemma_filter_single(all, is_pending, p);
            }
        },
        None => {
            assert(all.filter(is_pending).len() == 0) by {
                lemma_filter_none(all, is_pending);
            }
        },
    }
}

/// Partition invariant: in every well-formed game state each of the
/// sixteen pieces is in exactly one of the three places — on the board,
/// in the free pool, or pending.
pub proof fn lemma_piece_partition(q: Quarto, p: Piece)
    requires
        q.wf(),
    ensures
        board_has_piece(q.board_state@, p) || q.free().contains(p) || q.next_piece == Some(p),
        board_has_piece(q.board_state@, p) ==> !q.free().contains(p) && q.next_piece != Some(p),
        q.free().contains(p) ==> !board_has_piece(q.board_state@, p) && q.next_piece != Some(p),
        q.next_piece == Some(p) ==> !board_has_piece(q.board_state@, p) && !q.free().contains(p),
{
}

/// Pick/place composition: after a successful `pick_piece(p)` followed
/// by a successful `move_piece(x, y)`, cell `(x, y)` holds `p`, nothing
/// is pending, and a repeated pick of `p` must fail with
/// `PieceAlreadyUsed`.
pub proof fn lemma_pick_then_place(g0: Quarto, g1: Quarto, g2: Quarto, p: Piece, x: int, y: int)
    requires
        g0.wf(),
        g0.pick_outcome(p) is Ok,
        pick_ok_post(g0, g1, p),
        g1.place_outcome(x, y) is Ok,
        place_ok_post(g1, g2, x, y),
    ensures
        g2.board_state@[x][y] == Some(p),
        g2.next_piece is None,
        !g2.free().contains(p),
        g2.pick_outcome(p) == Err::<(), QuartoError>(QuartoError::PieceAlreadyUsed),
{
    lemma_remove_value_no_dup(g0.free(), p);
    assert(g2.board_state@[x][y] == g1.next_piece);
}

} // verus!
