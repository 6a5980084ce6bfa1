use vstd::prelude::*;

use crate::board::{board_setup, board_wf, committed, initial_square, move_piece, move_piece_simulating, relocated, Board};
use crate::piece::{all_on_board, legal_destination, legal_squares, Piece, PieceType, Side};
use crate::position::CBPosition;

verus! {

/// Requests from the presentation layer to the game actor.
#[derive(Debug)]
pub enum UiMsg {
    Debug(&'static str),
    CheckValidMove((CBPosition, CBPosition)),
    GetValidMoves(CBPosition),
    MakeMove((CBPosition, CBPosition)),
    GetBoardState,
    Quit,
}

/// Responses from the game actor. `Checkmate` carries the side that delivered the mate.
#[derive(Debug, Clone, PartialEq, Eq)]
pub enum ModelMsg {
    Debug(&'static str),
    MoveIsValid(CBPosition, CBPosition),
    MoveIsInvalid,
    Moves(Vec<CBPosition>),
    BoardState(Board),
    Stalemate,
    Checkmate(Side),
}

/// `m` is a move on `b`: its piece stands on its recorded square and may go to `m.1`.
pub open spec fn is_move_of(b: Seq<Option<Piece>>, m: (Piece, CBPosition)) -> bool {
    &&& m.0.current_pos.on_board()
    &&& b[m.0.current_pos.index()] == Some(m.0)
    &&& legal_destination(b, m.0, m.1)
}

/// Some move on `b` goes to `q`.
pub open spec fn attacked(b: Seq<Option<Piece>>, q: CBPosition) -> bool {
    exists|m: (Piece, CBPosition)| #[trigger] is_move_of(b, m) && m.1 == q
}

/// `moves` holds exactly the moves on `b`.
pub open spec fn lists_all_moves(b: Seq<Option<Piece>>, moves: Seq<(Piece, CBPosition)>) -> bool {
    forall|m: (Piece, CBPosition)| #[trigger] moves.contains(m) <==> is_move_of(b, m)
}

pub open spec fn is_king_of(o: Option<Piece>, side: Side) -> bool {
    o matches Some(p) && p.side == side && p.piece_type == PieceType::King
}

/// Slot `k` holds a king of `side` and no earlier slot does.
pub open spec fn first_king_slot(b: Seq<Option<Piece>>, side: Side, k: int) -> bool {
    &&& 0 <= k < 64
    &&& is_king_of(b[k], side)
    &&& forall|j: int| 0 <= j < k ==> !is_king_of(#[trigger] b[j], side)
}

pub open spec fn has_king(b: Seq<Option<Piece>>, side: Side) -> bool {
    exists|k: int| 0 <= k < 64 && is_king_of(#[trigger] b[k], side)
}

/// The king of `side`: the one in the first slot, should there be several.
pub open spec fn king_of(b: Seq<Option<Piece>>, side: Side) -> Piece {
    b[choose|k: int| first_king_slot(b, side, k)]->Some_0
}

/// `side` has a king and no move on `b` goes to its square.
pub open spec fn king_safe(b: Seq<Option<Piece>>, side: Side) -> bool {
    has_king(b, side) && !attacked(b, king_of(b, side).current_pos)
}

/// `side` has a king and some move on `b` goes to its square.
pub open spec fn in_check(b: Seq<Option<Piece>>, side: Side) -> bool {
    has_king(b, side) && attacked(b, king_of(b, side).current_pos)
}

/// Playing `m` on `b` leaves the king of `side` safe.
pub open spec fn escapes(b: Seq<Option<Piece>>, m: (Piece, CBPosition), side: Side) -> bool {
    king_safe(relocated(b, m.0.current_pos, m.1, None), side)
}

/// No move of `side` on `b` leaves its king safe.
pub open spec fn no_escape(b: Seq<Option<Piece>>, side: Side) -> bool {
    forall|m: (Piece, CBPosition)| #[trigger] is_move_of(b, m) && m.0.side == side ==> !escapes(b, m, side)
}

/// `side` is in check and no move of its own leaves its king safe.
pub open spec fn checkmated(b: Seq<Option<Piece>>, side: Side) -> bool {
    in_check(b, side) && no_escape(b, side)
}

/// `side` has no move on `b` and is not in check.
pub open spec fn stalemated(b: Seq<Option<Piece>>, side: Side) -> bool {
    &&& forall|m: (Piece, CBPosition)| #[trigger] is_move_of(b, m) ==> m.0.side != side
    &&& !in_check(b, side)
}

/// The destinations that the piece on `pos` has, if a piece stands there.
pub open spec fn destination_from(b: Seq<Option<Piece>>, pos: CBPosition, q: CBPosition) -> bool {
    &&& pos.on_board()
    &&& (b[pos.index()] matches Some(p) && legal_destination(b, p, q))
}

/// The list of destinations of the piece on `pos`, in slot order; empty when no piece
/// stands there or `pos` is off the board.
pub open spec fn destinations_from(b: Seq<Option<Piece>>, pos: CBPosition) -> Seq<CBPosition> {
    if pos.on_board() && b[pos.index()] is Some {
        legal_squares(b, b[pos.index()]->Some_0)
    } else {
        Seq::empty()
    }
}

/// The move from `from` to `to` is accepted when `turn` is to move: a piece of `turn`
/// stands on `from` and may go to `to`, no king of the other side stands on `to`, and
/// afterwards the king of `turn` is safe.
pub open spec fn move_accepted(b: Seq<Option<Piece>>, turn: Side, from: CBPosition, to: CBPosition) -> bool {
    &&& from.on_board()
    &&& to.on_board()
    &&& (b[from.index()] matches Some(p) && p.side == turn && legal_destination(b, p, to))
    &&& !is_king_of(b[to.index()], turn.opponent())
    &&& king_safe(committed(b, from, to), turn)
}

/// What the actor answers to a move from `from` to `to` on `b` with `turn` to move, and
/// the board and turn it is left with. After an accepted move the other side is to move;
/// stalemate and checkmate are those of that side, and `Checkmate` names `turn`.
pub open spec fn move_result(
    b: Seq<Option<Piece>>,
    turn: Side,
    from: CBPosition,
    to: CBPosition,
    nb: Seq<Option<Piece>>,
    nturn: Side,
    r: Option<ModelMsg>,
) -> bool {
    if move_accepted(b, turn, from, to) {
        let after = committed(b, from, to);
        let enemy = turn.opponent();
        &&& nb == after
        &&& nturn == enemy
        &&& r == if stalemated(after, enemy) {
            Some(ModelMsg::Stalemate)
        } else if checkmated(after, enemy) {
            Some(ModelMsg::Checkmate(turn))
        } else {
            None
        }
    } else {
        &&& nb == b
        &&& nturn == turn
        &&& r == Some(ModelMsg::MoveIsInvalid)
    }
}

proof fn lemma_first_king_unique(b: Seq<Option<Piece>>, side: Side, k1: int, k2: int)
    requires
        first_king_slot(b, side, k1),
        first_king_slot(b, side, k2),
    ensures
        k1 == k2,
{
    if k1 < k2 {
        assert(!is_king_of(b[k1], side));
    } else if k2 < k1 {
        assert(!is_king_of(b[k2], side));
    }
}

/// Every move of every piece on `board`, paired with the piece.
pub fn get_all_moves(board: &Board) -> (r: Vec<(Piece, CBPosition)>)
    requires
        board.wf(),
    ensures
        lists_all_moves(board@, r@),
        r@.no_duplicates(),
{
    let mut all: Vec<(Piece, CBPosition)> = Vec::new();
    let mut i: usize = 0;
    while i < 64
        invariant
            i <= 64,
            board.wf(),
            all@.no_duplicates(),
            forall|m: (Piece, CBPosition)| #[trigger]
                all@.contains(m) <==> (is_move_of(board@, m) && m.0.current_pos.index() < i),
        decreases 64 - i,
    {
        let slot = board.get_slot(i);
        if let Some(p) = slot {
            assert(p.current_pos.index() == i && p.current_pos.on_board());
            let ms = p.get_valid_moves(board);
            let mut j: usize = 0;
            while j < ms.len()
                invariant
                    j <= ms@.len(),
                    board.wf(),
                    all@.no_duplicates(),
                    ms@.no_duplicates(),
                    i < 64,
                    board@[i as int] == Some(p),
                    p.current_pos.index() == i,
                    forall|q: CBPosition| #[trigger] ms@.contains(q) <==> legal_destination(board@, p, q),
                    forall|m: (Piece, CBPosition)| #[trigger]
                        all@.contains(m) <==> ((is_move_of(board@, m) && m.0.current_pos.index() < i)
                            || (m.0 == p && ms@.subrange(0, j as int).contains(m.1))),
                decreases ms@.len() - j,
            {
                let ghost prev = all@;
                let q = ms[j];
                proof {
                    if ms@.subrange(0, j as int).contains(q) {
                        let k = choose|k: int| 0 <= k < j && ms@.subrange(0, j as int)[k] == q;
                        assert(ms@[k] == ms@[j as int]);
                    }
                    crate::position::lemma_push_no_duplicates(prev, (p, q));
                }
                all.push((p, q));
                proof {
                    let sub = ms@.subrange(0, j as int);
                    assert(ms@.subrange(0, j + 1) == sub.push(q));
                    assert forall|m: (Piece, CBPosition)| #[trigger]
                        all@.contains(m) <==> ((is_move_of(board@, m) && m.0.current_pos.index() < i)
                            || (m.0 == p && ms@.subrange(0, j + 1).contains(m.1))) by {
                        crate::position::lemma_push_contains(prev, (p, q), true, all@, m);
                        crate::position::lemma_push_contains(sub, q, true, ms@.subrange(0, j + 1), m.1);
                    }
                }
                j = j + 1;
            }
            proof {
                assert(ms@.subrange(0, ms@.len() as int) == ms@);
                assert forall|m: (Piece, CBPosition)| #[trigger]
                    all@.contains(m) <==> (is_move_of(board@, m) && m.0.current_pos.index() < i + 1) by {
                    if is_move_of(board@, m) && m.0.current_pos.index() == i {
                        assert(m.0 == p);
                    }
                }
            }
        } else {
            proof {
                assert forall|m: (Piece, CBPosition)| #[trigger]
                    all@.contains(m) <==> (is_move_of(board@, m) && m.0.current_pos.index() < i + 1) by {
                    if is_move_of(board@, m) && m.0.current_pos.index() == i {
                        assert(board@[i as int] is Some);
                    }
                }
            }
        }
        i = i + 1;
    }
    proof {
        assert forall|m: (Piece, CBPosition)| #[trigger] all@.contains(m) <==> is_move_of(board@, m) by {
            if is_move_of(board@, m) {
                assert(m.0.current_pos.index() < 64);
            }
        }
    }
    all
}

/// The authoritative board and the side to move.
pub struct Game {
    pub board: Board,
    pub which_turn: Side,
}

/// The pieces that stand on the squares of `positions`, in the order of the squares;
/// squares off the board or empty give none.
pub open spec fn pieces_on(b: Seq<Option<Piece>>, positions: Seq<CBPosition>) -> Seq<Piece>
    decreases positions.len(),
{
    if positions.len() == 0 {
        Seq::empty()
    } else {
        let prev = pieces_on(b, positions.drop_last());
        let last = positions.last();
        if last.on_board() && b[last.index()] is Some {
            prev.push(b[last.index()]->Some_0)
        } else {
            prev
        }
    }
}

impl Game {
    /// A game in the standard starting position, White to move.
    pub fn new() -> (r: Game)
        ensures
            r.board.wf(),
            forall|q: CBPosition| q.on_board() ==> r.board@[q.index()] == #[trigger] initial_square(q),
            r.which_turn == Side::White,
    {
        let board = board_setup();
        Game { board, which_turn: Side::White }
    }

    /// A game on the given board with `turn` to move.
    pub fn from_board_state(board: Board, turn: Side) -> (r: Game)
        ensures
            r.board == board,
            r.which_turn == turn,
    {
        Game { board, which_turn: turn }
    }

    /// The squares the piece on `moving_piece_pos` may go to; none for an empty square or
    /// a square off the board.
    pub fn get_valid_moves(&self, moving_piece_pos: CBPosition) -> (r: Vec<CBPosition>)
        requires
            self.board.wf(),
        ensures
            r@ == destinations_from(self.board@, moving_piece_pos),
            r@.no_duplicates(),
            all_on_board(r@),
            forall|q: CBPosition| #[trigger]
                r@.contains(q) <==> destination_from(self.board@, moving_piece_pos, q),
    {
        if !moving_piece_pos.is_valid() {
            return Vec::new();
        }
        if let Some(piece) = self.board.get(moving_piece_pos) {
            piece.get_valid_moves(&self.board)
        } else {
            Vec::new()
        }
    }

    /// The pieces that stand on the given squares.
    pub fn get_all_pieces_in(board: &Board, positions: &Vec<CBPosition>) -> (r: Vec<Piece>)
        requires
            board.wf(),
        ensures
            r@ == pieces_on(board@, positions@),
            forall|p: Piece| #[trigger]
                r@.contains(p) <==> (positions@.contains(p.current_pos) && p.current_pos.on_board()
                    && board@[p.current_pos.index()] == Some(p)),
    {
        let mut pieces: Vec<Piece> = Vec::new();
        let mut i: usize = 0;
        while i < positions.len()
            invariant
                i <= positions@.len(),
                board.wf(),
                pieces@ == pieces_on(board@, positions@.subrange(0, i as int)),
                forall|p: Piece| #[trigger]
                    pieces@.contains(p) <==> (positions@.subrange(0, i as int).contains(
                        p.current_pos,
                    ) && p.current_pos.on_board() && board@[p.current_pos.index()] == Some(p)),
            decreases positions@.len() - i,
        {
            let pos = positions[i];
            let ghost prev = pieces@;
            let mut found: Option<Piece> = None;
            if pos.is_valid() {
                found = board.get(pos);
            }
            if let Some(piece) = found {
                pieces.push(piece);
            }
            proof {
                let sub = positions@.subrange(0, i as int);
                assert(positions@.subrange(0, i + 1) == sub.push(pos));
                assert(positions@.subrange(0, i + 1).drop_last() == sub);
                assert forall|p: Piece| #[trigger]
                    pieces@.contains(p) <==> (positions@.subrange(0, i + 1).contains(p.current_pos)
                        && p.current_pos.on_board() && board@[p.current_pos.index()] == Some(p)) by {
                    crate::position::lemma_push_contains(prev, found->Some_0, found is Some, pieces@, p);
                    crate::position::lemma_push_contains(sub, pos, true, positions@.subrange(0, i + 1), p.current_pos);
                    if p.current_pos.on_board() && board@[p.current_pos.index()] == Some(p) && p.current_pos == pos {
                        assert(board@[pos.index()] == Some(p));
                    }
                    if found == Some(p) {
                        assert(board@[pos.index()] == Some(p));
                        crate::board::lemma_index_injective(p.current_pos, pos);
                    }
                }
            }
            i = i + 1;
        }
        assert(positions@.subrange(0, positions@.len() as int) == positions@);
        pieces
    }
}

/// The game actor's state: it owns the one authoritative game.
pub struct Model {
    pub game: Game,
}

impl Model {
    pub open spec fn wf(&self) -> bool {
        self.game.board.wf()
    }

    /// An actor on a new game in the standard starting position.
    pub fn new() -> (r: Model)
        ensures
            r.wf(),
            forall|q: CBPosition| q.on_board() ==> r.game.board@[q.index()] == #[trigger] initial_square(q),
            r.game.which_turn == Side::White,
    {
        Model { game: Game::new() }
    }

    /// An actor on the given board with `turn` to move.
    pub fn from_board_state(board: Board, turn: Side) -> (r: Model)
        ensures
            r.game.board == board,
            r.game.which_turn == turn,
    {
        Model { game: Game::from_board_state(board, turn) }
    }

    /// Answers one request: at most one response, the game changed only by an accepted move.
    pub fn handle_message(&mut self, msg: UiMsg) -> (r: Option<ModelMsg>)
        requires
            old(self).wf(),
        ensures
            final(self).wf(),
            ({
                let b = old(self).game.board@;
                let turn = old(self).game.which_turn;
                match msg {
                    UiMsg::MakeMove((from, to)) => move_result(
                        b,
                        turn,
                        from,
                        to,
                        final(self).game.board@,
                        final(self).game.which_turn,
                        r,
                    ),
                    UiMsg::CheckValidMove((from, to)) => {
                        &&& final(self).game.board@ == b
                        &&& final(self).game.which_turn == turn
                        &&& r == Some(
                            if move_accepted(b, turn, from, to) {
                                ModelMsg::MoveIsValid(from, to)
                            } else {
                                ModelMsg::MoveIsInvalid
                            },
                        )
                    },
                    UiMsg::GetValidMoves(pos) => {
                        &&& final(self).game.board@ == b
                        &&& final(self).game.which_turn == turn
                        &&& r matches Some(ModelMsg::Moves(v)) && v@ == destinations_from(b, pos)
                    },
                    UiMsg::GetBoardState => {
                        &&& final(self).game.board@ == b
                        &&& final(self).game.which_turn == turn
                        &&& r matches Some(ModelMsg::BoardState(snapshot)) && snapshot@ == b
                    },
                    _ => {
                        &&& final(self).game.board@ == b
                        &&& final(self).game.which_turn == turn
                        &&& r is None
                    },
                }
            }),
    {
        match msg {
            UiMsg::Debug(_) => None,
            UiMsg::CheckValidMove((from, to)) => {
                if self.try_move(from, to).is_some() {
                    Some(ModelMsg::MoveIsValid(from, to))
                } else {
                    Some(ModelMsg::MoveIsInvalid)
                }
            },
            UiMsg::GetValidMoves(pos) => {
                let valid_moves = self.game.get_valid_moves(pos);
                Some(ModelMsg::Moves(valid_moves))
            },
            UiMsg::MakeMove((from, to)) => self.make_move(from, to),
            UiMsg::GetBoardState => Some(ModelMsg::BoardState(self.game.board.copy())),
            UiMsg::Quit => None,
        }
    }

    /// Plays the move from `from` to `to` when it is accepted, hands the turn to the other
    /// side and reports its stalemate or checkmate; reports an invalid move otherwise,
    /// leaving the game as it was.
    pub fn make_move(&mut self, from: CBPosition, to: CBPosition) -> (r: Option<ModelMsg>)
        requires
            old(self).wf(),
        ensures
            final(self).wf(),
            move_result(
                old(self).game.board@,
                old(self).game.which_turn,
                from,
                to,
                final(self).game.board@,
                final(self).game.which_turn,
                r,
            ),
    {
        let turn = self.game.which_turn;
        match self.try_move(from, to) {
            Some(new_board) => {
                let enemy = turn.flipped();
                let all_moves = get_all_moves(&new_board);
                let enemy_king = Self::get_king(&new_board, enemy);
                let enemy_in_check = match enemy_king {
                    Some(k) => Self::piece_under_attack(&k, &all_moves),
                    None => false,
                };
                proof {
                    lemma_attacked_listed(new_board@, all_moves@, king_of(new_board@, enemy).current_pos);
                    assert(enemy_in_check == in_check(new_board@, enemy));
                }
                let has_moves = Self::side_has_moves(&all_moves, enemy);
                proof {
                    if !has_moves {
                        assert forall|m: (Piece, CBPosition)| #[trigger] is_move_of(new_board@, m) implies m.0.side != enemy by {
                            assert(all_moves@.contains(m));
                        }
                    } else {
                        let m = choose|m: (Piece, CBPosition)| #[trigger] all_moves@.contains(m) && m.0.side == enemy;
                        assert(is_move_of(new_board@, m));
                    }
                }
                let response = if !has_moves && !enemy_in_check {
                    Some(ModelMsg::Stalemate)
                } else if Self::check_for_checkmate(&new_board, &all_moves, enemy) {
                    Some(ModelMsg::Checkmate(turn))
                } else {
                    None
                };
                self.game.board = new_board;
                self.game.which_turn = enemy;
                response
            },
            None => Some(ModelMsg::MoveIsInvalid),
        }
    }

    /// The board with the piece on `from` moved to `to` on a copy, recording its new square;
    /// the game itself is left alone and nothing is checked.
    pub fn simulate_move(&self, from: CBPosition, to: CBPosition) -> (r: Board)
        requires
            self.wf(),
            from.on_board(),
            to.on_board(),
            self.game.board@[from.index()] is Some,
        ensures
            r.wf(),
            r@ == relocated(self.game.board@, from, to, None),
    {
        let mut new_board = self.game.board.copy();
        let _ = move_piece_simulating(&mut new_board, from, to, None);
        new_board
    }

    /// When the move from `from` to `to` is accepted with the side to move to play, the board
    /// after it is committed on a copy; `None` otherwise.
    pub fn try_move(&self, from: CBPosition, to: CBPosition) -> (r: Option<Board>)
        requires
            self.wf(),
        ensures
            match r {
                Some(nb) => move_accepted(self.game.board@, self.game.which_turn, from, to) && nb.wf()
                    && nb@ == committed(self.game.board@, from, to),
                None => !move_accepted(self.game.board@, self.game.which_turn, from, to),
            },
    {
        let board = &self.game.board;
        if !from.is_valid() || !to.is_valid() {
            return None;
        }
        let piece = match board.get(from) {
            Some(p) => p,
            None => return None,
        };
        let side = self.game.which_turn;
        if piece.side != side || !piece.can_move_to(to, board) {
            return None;
        }
        let takes_king = match board.get(to) {
            Some(p) => p.piece_type == PieceType::King && p.side != side,
            None => false,
        };
        if takes_king {
            return None;
        }
        let mut new_board = board.copy();
        move_piece(&mut new_board, from, to);
        let all_moves = get_all_moves(&new_board);
        let safe = match Self::get_king(&new_board, side) {
            Some(king) => Self::check_move_is_valid(&king, &all_moves),
            None => false,
        };
        proof {
            lemma_attacked_listed(new_board@, all_moves@, king_of(new_board@, side).current_pos);
        }
        if safe {
            Some(new_board)
        } else {
            None
        }
    }

    /// Whether `side` has any move among `all_moves`.
    fn side_has_moves(all_moves: &Vec<(Piece, CBPosition)>, side: Side) -> (r: bool)
        ensures
            r == exists|m: (Piece, CBPosition)| #[trigger] all_moves@.contains(m) && m.0.side == side,
    {
        let mut i: usize = 0;
        while i < all_moves.len()
            invariant
                i <= all_moves@.len(),
                forall|j: int| 0 <= j < i ==> (#[trigger] all_moves@[j]).0.side != side,
            decreases all_moves@.len() - i,
        {
            if all_moves[i].0.side == side {
                assert(all_moves@.contains(all_moves@[i as int]));
                return true;
            }
            i = i + 1;
        }
        false
    }

    /// Whether no move among `all_moves` goes to the king's square.
    pub fn check_move_is_valid(king: &Piece, all_moves: &Vec<(Piece, CBPosition)>) -> (r: bool)
        ensures
            r == !exists|m: (Piece, CBPosition)| #[trigger] all_moves@.contains(m) && m.1 == king.current_pos,
    {
        !Self::piece_under_attack(king, all_moves)
    }

    /// Whether some move among `all_moves` goes to the piece's square.
    pub fn piece_under_attack(piece: &Piece, all_moves: &Vec<(Piece, CBPosition)>) -> (r: bool)
        ensures
            r == exists|m: (Piece, CBPosition)| #[trigger] all_moves@.contains(m) && m.1 == piece.current_pos,
    {
        let mut i: usize = 0;
        while i < all_moves.len()
            invariant
                i <= all_moves@.len(),
                forall|j: int| 0 <= j < i ==> (#[trigger] all_moves@[j]).1 != piece.current_pos,
            decreases all_moves@.len() - i,
        {
            if all_moves[i].1 == piece.current_pos {
                assert(all_moves@.contains(all_moves@[i as int]));
                return true;
            }
            i = i + 1;
        }
        false
    }

    /// The king of `side`, if it has one: the first found, rank by rank from a1.
    pub fn get_king(board: &Board, side: Side) -> (r: Option<Piece>)
        requires
            board.wf(),
        ensures
            r == if has_king(board@, side) {
                Some(king_of(board@, side))
            } else {
                None
            },
    {
        let mut i: usize = 0;
        while i < 64
            invariant
                i <= 64,
                board.wf(),
                forall|j: int| 0 <= j < i ==> !is_king_of(#[trigger] board@[j], side),
            decreases 64 - i,
        {
            if let Some(p) = board.get_slot(i) {
                if p.side == side && p.piece_type == PieceType::King {
                    proof {
                        assert(first_king_slot(board@, side, i as int));
                        let k = choose|k: int| first_king_slot(board@, side, k);
                        lemma_first_king_unique(board@, side, i as int, k);
                    }
                    return Some(p);
                }
            }
            i = i + 1;
        }
        None
    }

    /// Whether, after the piece on `from` goes to `to` on a copy of `board`, the king of
    /// `side` is safe.
    fn escapes_after(board: &Board, from: CBPosition, to: CBPosition, side: Side) -> (r: bool)
        requires
            board.wf(),
            from.on_board(),
            to.on_board(),
            board@[from.index()] is Some,
        ensures
            r == king_safe(relocated(board@, from, to, None), side),
    {
        let mut sim_board = board.copy();
        let _ = move_piece_simulating(&mut sim_board, from, to, None);
        let sim_moves = get_all_moves(&sim_board);
        match Self::get_king(&sim_board, side) {
            Some(king) => {
                let hit = Self::piece_under_attack(&king, &sim_moves);
                proof {
                    if !hit {
                        assert forall|m: (Piece, CBPosition)| !(#[trigger] is_move_of(sim_board@, m)
                            && m.1 == king.current_pos) by {
                            if is_move_of(sim_board@, m) && m.1 == king.current_pos {
                                assert(sim_moves@.contains(m));
                            }
                        }
                    }
                }
                !hit
            },
            None => false,
        }
    }

    /// Whether the king of `side` has a move among `all_moves` after which it is safe.
    pub fn can_king_move(board: &Board, all_moves: &Vec<(Piece, CBPosition)>, side: Side) -> (r: bool)
        requires
            board.wf(),
            entries_on_board(board@, all_moves@),
        ensures
            r == (has_king(board@, side) && exists|i: int|
                0 <= i < all_moves@.len() && (#[trigger] all_moves@[i]).0.current_pos == king_of(
                    board@,
                    side,
                ).current_pos && escapes(board@, all_moves@[i], side)),
    {
        let king = match Self::get_king(board, side) {
            Some(k) => k,
            None => return false,
        };
        let mut i: usize = 0;
        while i < all_moves.len()
            invariant
                i <= all_moves@.len(),
                board.wf(),
                entries_on_board(board@, all_moves@),
                has_king(board@, side),
                king == king_of(board@, side),
                forall|j: int|
                    0 <= j < i ==> !((#[trigger] all_moves@[j]).0.current_pos == king.current_pos
                        && escapes(board@, all_moves@[j], side)),
            decreases all_moves@.len() - i,
        {
            let (p, to) = all_moves[i];
            if p.current_pos == king.current_pos {
                assert(all_moves@[i as int].0.current_pos.on_board());
                if Self::escapes_after(board, p.current_pos, to, side) {
                    return true;
                }
            }
            i = i + 1;
        }
        false
    }

    /// Whether `defender` is checkmated on `board`: its king is attacked, and neither a king
    /// move nor any other of its moves leaves the king safe.
    pub fn check_for_checkmate(board: &Board, all_moves: &Vec<(Piece, CBPosition)>, defender: Side) -> (r: bool)
        requires
            board.wf(),
            lists_all_moves(board@, all_moves@),
        ensures
            r == checkmated(board@, defender),
    {
        let in_check_now = match Self::get_king(board, defender) {
            Some(k) => Self::piece_under_attack(&k, all_moves),
            None => false,
        };
        proof {
            lemma_attacked_listed(board@, all_moves@, king_of(board@, defender).current_pos);
            lemma_listed_entries(board@, all_moves@);
        }
        if !in_check_now {
            return false;
        }
        if Self::can_king_move(board, all_moves, defender) {
            proof {
                let i = choose|i: int|
                    0 <= i < all_moves@.len() && (#[trigger] all_moves@[i]).0.current_pos == king_of(
                        board@,
                        defender,
                    ).current_pos && escapes(board@, all_moves@[i], defender);
                let m = all_moves@[i];
                assert(all_moves@.contains(m));
                let k = choose|k: int| first_king_slot(board@, defender, k);
                assert(has_king(board@, defender));
                let k0 = choose|k0: int| 0 <= k0 < 64 && is_king_of(#[trigger] board@[k0], defender);
                lemma_has_king_first(board@, defender, k0);
                let kp = king_of(board@, defender);
                assert(board@[k] == Some(kp));
                crate::board::lemma_index_injective(kp.current_pos, m.0.current_pos);
                assert(m.0 == kp);
            }
            return false;
        }
        let mut i: usize = 0;
        while i < all_moves.len()
            invariant
                i <= all_moves@.len(),
                board.wf(),
                lists_all_moves(board@, all_moves@),
                forall|j: int|
                    0 <= j < i ==> !((#[trigger] all_moves@[j]).0.side == defender
                        && escapes(board@, all_moves@[j], defender)),
            decreases all_moves@.len() - i,
        {
            let (piece, to) = all_moves[i];
            if piece.side == defender {
                assert(all_moves@.contains(all_moves@[i as int]));
                if Self::escapes_after(board, piece.current_pos, to, defender) {
                    return false;
                }
            }
            i = i + 1;
        }
        proof {
            assert forall|m: (Piece, CBPosition)|
                #[trigger] is_move_of(board@, m) && m.0.side == defender implies !escapes(board@, m, defender) by {
                assert(all_moves@.contains(m));
                let j = choose|j: int| 0 <= j < all_moves@.len() && all_moves@[j] == m;
            }
        }
        true
    }
}

/// An accepted move never lands on a king, of either side.
pub proof fn lemma_accepted_move_spares_kings(
    b: Seq<Option<Piece>>,
    turn: Side,
    from: CBPosition,
    to: CBPosition,
)
    requires
        move_accepted(b, turn, from, to),
    ensures
        !is_king_of(b[to.index()], Side::White),
        !is_king_of(b[to.index()], Side::Black),
{
    let p = b[from.index()]->Some_0;
    crate::piece::lemma_legal_spares_own_side(b, p, to);
}

/// Kings are never taken off the board: a side that has a king before an accepted move
/// still has one after it.
pub proof fn lemma_kings_survive_accepted_moves(
    b: Seq<Option<Piece>>,
    turn: Side,
    from: CBPosition,
    to: CBPosition,
    side: Side,
)
    requires
        board_wf(b),
        move_accepted(b, turn, from, to),
        has_king(b, side),
    ensures
        has_king(committed(b, from, to), side),
{
    lemma_accepted_move_spares_kings(b, turn, from, to);
    let nb = committed(b, from, to);
    let k = choose|k: int| 0 <= k < 64 && is_king_of(#[trigger] b[k], side);
    if k == from.index() {
        assert(is_king_of(nb[to.index()], side));
    } else {
        assert(k != to.index());
        assert(nb[k] == b[k]);
    }
}

/// A requested move whose destination is not among those listed for its square is
/// rejected, and the game stays as it was.
pub proof fn lemma_unlisted_move_rejected(
    b: Seq<Option<Piece>>,
    turn: Side,
    from: CBPosition,
    to: CBPosition,
    nb: Seq<Option<Piece>>,
    nturn: Side,
    r: Option<ModelMsg>,
)
    requires
        !destination_from(b, from, to),
        move_result(b, turn, from, to, nb, nturn, r),
    ensures
        r == Some(ModelMsg::MoveIsInvalid),
        nb == b,
        nturn == turn,
{
}

/// Each entry of `moves` is a piece standing on its recorded square and a square of the board.
pub open spec fn entries_on_board(b: Seq<Option<Piece>>, moves: Seq<(Piece, CBPosition)>) -> bool {
    forall|i: int|
        0 <= i < moves.len() ==> {
            &&& (#[trigger] moves[i]).0.current_pos.on_board()
            &&& b[moves[i].0.current_pos.index()] == Some(moves[i].0)
            &&& moves[i].1.on_board()
        }
}

/// Every move lands on the board.
proof fn lemma_listed_entries(b: Seq<Option<Piece>>, moves: Seq<(Piece, CBPosition)>)
    requires
        lists_all_moves(b, moves),
    ensures
        entries_on_board(b, moves),
{
    assert forall|i: int| 0 <= i < moves.len() implies {
        &&& (#[trigger] moves[i]).0.current_pos.on_board()
        &&& b[moves[i].0.current_pos.index()] == Some(moves[i].0)
        &&& moves[i].1.on_board()
    } by {
        assert(moves.contains(moves[i]));
    }
}

/// A listing of all moves names an attack on `q` exactly when `q` is attacked.
proof fn lemma_attacked_listed(b: Seq<Option<Piece>>, moves: Seq<(Piece, CBPosition)>, q: CBPosition)
    requires
        lists_all_moves(b, moves),
    ensures
        attacked(b, q) == exists|m: (Piece, CBPosition)| #[trigger] moves.contains(m) && m.1 == q,
{
    if attacked(b, q) {
        let m = choose|m: (Piece, CBPosition)| #[trigger] is_move_of(b, m) && m.1 == q;
        assert(moves.contains(m));
    }
    if exists|m: (Piece, CBPosition)| #[trigger] moves.contains(m) && m.1 == q {
        let m = choose|m: (Piece, CBPosition)| #[trigger] moves.contains(m) && m.1 == q;
        assert(is_move_of(b, m));
    }
}

/// When `side` has a king, the first slot holding one exists.
proof fn lemma_has_king_first(b: Seq<Option<Piece>>, side: Side, k0: int)
    requires
        0 <= k0 < 64,
        is_king_of(b[k0], side),
    ensures
        exists|k: int| first_king_slot(b, side, k),
    decreases k0,
{
    if exists|j: int| 0 <= j < k0 && is_king_of(#[trigger] b[j], side) {
        let j = choose|j: int| 0 <= j < k0 && is_king_of(#[trigger] b[j], side);
        lemma_has_king_first(b, side, j);
    } else {
        assert(first_king_slot(b, side, k0));
    }
}

} // verus!
