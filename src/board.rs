use vstd::prelude::*;

use crate::piece::{Piece, PieceType, Side};
use crate::position::CBPosition;

verus! {

/// Every square of the board with the piece that stands on it, if any.
/// Squares are held rank by rank, from a1 to h8.
#[derive(Clone, PartialEq, Eq, Debug)]
pub struct Board {
    squares: Vec<Option<Piece>>,
}

impl View for Board {
    type V = Seq<Option<Piece>>;

    closed spec fn view(&self) -> Seq<Option<Piece>> {
        self.squares@
    }
}

/// A table of 64 squares in which each piece records the square that holds it.
pub open spec fn board_wf(b: Seq<Option<Piece>>) -> bool {
    &&& b.len() == 64
    &&& forall|i: int|
        0 <= i < 64 ==> match #[trigger] b[i] {
            Some(p) => p.current_pos.on_board() && p.current_pos.index() == i,
            None => true,
        }
}

/// `b` after the piece on `from` goes to `to`, leaving `replacement` behind on `from`.
/// The piece records its new square; whatever stood on `to` is overwritten.
pub open spec fn relocated(
    b: Seq<Option<Piece>>,
    from: CBPosition,
    to: CBPosition,
    replacement: Option<Piece>,
) -> Seq<Option<Piece>> {
    let p = b[from.index()]->Some_0;
    b.update(from.index(), replacement).update(to.index(), Some(Piece { current_pos: to, ..p }))
}

/// `b` after a committed move from `from` to `to`: as `relocated`, and the piece is marked
/// as having moved. A move from an empty square changes nothing.
pub open spec fn committed(b: Seq<Option<Piece>>, from: CBPosition, to: CBPosition) -> Seq<
    Option<Piece>,
> {
    match b[from.index()] {
        Some(p) => b.update(from.index(), None).update(
            to.index(),
            Some(Piece { current_pos: to, has_moved: true, ..p }),
        ),
        None => b,
    }
}

/// The piece of the standard starting position on file `f` of a back rank.
pub open spec fn back_rank_type(f: int) -> PieceType {
    if f == 0 || f == 7 {
        PieceType::Rook
    } else if f == 1 || f == 6 {
        PieceType::Knight
    } else if f == 2 || f == 5 {
        PieceType::Bishop
    } else if f == 3 {
        PieceType::Queen
    } else {
        PieceType::King
    }
}

/// What stands on `q` in the standard starting position.
pub open spec fn initial_square(q: CBPosition) -> Option<Piece> {
    if q.rank() == 0 {
        Some(Piece::fresh(Side::White, back_rank_type(q.file()), q))
    } else if q.rank() == 1 {
        Some(Piece::fresh(Side::White, PieceType::Pawn, q))
    } else if q.rank() == 6 {
        Some(Piece::fresh(Side::Black, PieceType::Pawn, q))
    } else if q.rank() == 7 {
        Some(Piece::fresh(Side::Black, back_rank_type(q.file()), q))
    } else {
        None
    }
}

/// Two squares of the board with the same slot are the same square.
pub proof fn lemma_index_injective(p: CBPosition, q: CBPosition)
    requires
        p.on_board(),
        q.on_board(),
        p.index() == q.index(),
    ensures
        p == q,
{
}

/// Simulating a move and then the move back, putting back what stood on the
/// destination, restores the board.
pub proof fn lemma_simulate_then_undo(b: Seq<Option<Piece>>, from: CBPosition, to: CBPosition)
    requires
        board_wf(b),
        from.on_board(),
        to.on_board(),
        b[from.index()] is Some,
    ensures
        ({
            let mid = relocated(b, from, to, None);
            let captured = b.update(from.index(), None)[to.index()];
            relocated(mid, to, from, captured) == b
        }),
{
    let mid = relocated(b, from, to, None);
    let captured = b.update(from.index(), None)[to.index()];
    let back = relocated(mid, to, from, captured);
    let p = b[from.index()]->Some_0;
    assert(p.current_pos == from) by {
        lemma_index_injective(p.current_pos, from);
    }
    assert(back =~= b);
}

impl Board {
    pub open spec fn wf(&self) -> bool {
        board_wf(self@)
    }

    /// An independent copy of the board.
    pub fn copy(&self) -> (r: Board)
        ensures
            r@ == self@,
    {
        let mut squares: Vec<Option<Piece>> = Vec::new();
        let mut i: usize = 0;
        while i < self.squares.len()
            invariant
                i <= self.squares@.len(),
                squares@ == self.squares@.subrange(0, i as int),
            decreases self.squares@.len() - i,
        {
            squares.push(self.squares[i]);
            i = i + 1;
        }
        assert(squares@ =~= self.squares@);
        Board { squares }
    }

    /// Slot of `pos` in the table.
    pub fn slot(pos: CBPosition) -> (r: usize)
        requires
            pos.on_board(),
        ensures
            r == pos.index(),
            r < 64,
    {
        (pos.row - 1) * 8 + (pos.col as u32 - 97) as usize
    }

    /// The piece on `pos`, if any.
    pub fn get(&self, pos: CBPosition) -> (r: Option<Piece>)
        requires
            self.wf(),
            pos.on_board(),
        ensures
            r == self@[pos.index()],
    {
        self.squares[Self::slot(pos)]
    }

    /// The piece in slot `i`, if any.
    pub fn get_slot(&self, i: usize) -> (r: Option<Piece>)
        requires
            self.wf(),
            i < 64,
        ensures
            r == self@[i as int],
    {
        self.squares[i]
    }

    /// Puts `value` on `pos`, overwriting what stood there.
    pub fn set(&mut self, pos: CBPosition, value: Option<Piece>)
        requires
            old(self).wf(),
            pos.on_board(),
            value matches Some(p) ==> p.current_pos == pos,
        ensures
            final(self).wf(),
            final(self)@ == old(self)@.update(pos.index(), value),
    {
        let i = Self::slot(pos);
        self.squares.set(i, value);
        proof {
            let b = self@;
            assert forall|j: int| 0 <= j < 64 implies match #[trigger] b[j] {
                Some(p) => p.current_pos.on_board() && p.current_pos.index() == j,
                None => true,
            } by {
                if j != i {
                    assert(b[j] == old(self)@[j]);
                }
            }
        }
    }
}

/// Commits a move: the piece on `from` goes to `to`, capturing whatever stood there, and
/// is marked as having moved. A move from an empty square changes nothing.
pub fn move_piece(board: &mut Board, from: CBPosition, to: CBPosition)
    requires
        old(board).wf(),
        from.on_board(),
        to.on_board(),
    ensures
        final(board).wf(),
        final(board)@ == committed(old(board)@, from, to),
{
    if let Some(from_piece) = board.get(from) {
        board.set(from, None);
        let moved = Piece { current_pos: to, has_moved: true, ..from_piece };
        board.set(to, Some(moved));
    }
}

/// Simulates a move: the piece on `from` goes to `to`, leaving `replacement` on `from`.
/// Returns what stood on `to` before the piece arrived, so that the move can be undone.
pub fn move_piece_simulating(
    board: &mut Board,
    from: CBPosition,
    to: CBPosition,
    replacement: Option<Piece>,
) -> (r: Option<Piece>)
    requires
        old(board).wf(),
        from.on_board(),
        to.on_board(),
        old(board)@[from.index()] is Some,
        replacement matches Some(p) ==> p.current_pos == from,
    ensures
        final(board).wf(),
        final(board)@ == relocated(old(board)@, from, to, replacement),
        r == old(board)@.update(from.index(), replacement)[to.index()],
{
    let mut from_piece = board.get(from).unwrap();
    board.set(from, replacement);
    from_piece.current_pos = to;
    let old_piece = board.get(to);
    board.set(to, Some(from_piece));
    old_piece
}

/// A board with no pieces on it.
pub fn empty_board() -> (r: Board)
    ensures
        r.wf(),
        forall|i: int| 0 <= i < 64 ==> (#[trigger] r@[i]) is None,
{
    let mut squares: Vec<Option<Piece>> = Vec::new();
    let mut i: usize = 0;
    while i < 64
        invariant
            i <= 64,
            squares@.len() == i,
            forall|j: int| 0 <= j < i ==> (#[trigger] squares@[j]) is None,
        decreases 64 - i,
    {
        squares.push(None);
        i = i + 1;
    }
    Board { squares }
}

/// Puts a new piece that has not moved yet on the square at `col`, `row`.
pub fn insert_piece(board: &mut Board, row: usize, col: char, side: Side, piece_type: PieceType)
    requires
        old(board).wf(),
        (CBPosition { col, row }).on_board(),
    ensures
        final(board).wf(),
        final(board)@ == old(board)@.update(
            (CBPosition { col, row }).index(),
            Some(Piece::fresh(side, piece_type, CBPosition { col, row })),
        ),
{
    let pos = CBPosition { col, row };
    let piece = Piece::new(side, piece_type, pos);
    board.set(pos, Some(piece));
}

fn back_rank_piece(f: u8) -> (r: PieceType)
    ensures
        r == back_rank_type(f as int),
{
    if f == 0 || f == 7 {
        PieceType::Rook
    } else if f == 1 || f == 6 {
        PieceType::Knight
    } else if f == 2 || f == 5 {
        PieceType::Bishop
    } else if f == 3 {
        PieceType::Queen
    } else {
        PieceType::King
    }
}

/// The standard starting position.
pub fn board_setup() -> (r: Board)
    ensures
        r.wf(),
        forall|q: CBPosition| q.on_board() ==> r@[q.index()] == #[trigger] initial_square(q),
{
    let mut board = empty_board();
    let mut f: u8 = 0;
    while f < 8
        invariant
            f <= 8,
            board.wf(),
            forall|q: CBPosition|
                q.on_board() ==> board@[q.index()] == if q.file() < f {
                    #[trigger] initial_square(q)
                } else {
                    None
                },
        decreases 8 - f,
    {
        let col = (97u8 + f) as char;
        let back = back_rank_piece(f);
        insert_piece(&mut board, 1, col, Side::White, back);
        insert_piece(&mut board, 2, col, Side::White, PieceType::Pawn);
        insert_piece(&mut board, 7, col, Side::Black, PieceType::Pawn);
        insert_piece(&mut board, 8, col, Side::Black, back);
        proof {
            assert forall|q: CBPosition| q.on_board() implies board@[q.index()] == if q.file() < f
                + 1 {
                #[trigger] initial_square(q)
            } else {
                None
            } by {
                if q.file() == f {
                    if q.rank() == 0 {
                        lemma_index_injective(q, CBPosition { col, row: 1 });
                    } else if q.rank() == 1 {
                        lemma_index_injective(q, CBPosition { col, row: 2 });
                    } else if q.rank() == 6 {
                        lemma_index_injective(q, CBPosition { col, row: 7 });
                    } else if q.rank() == 7 {
                        lemma_index_injective(q, CBPosition { col, row: 8 });
                    }
                }
            }
        }
        f = f + 1;
    }
    board
}

} // verus!
