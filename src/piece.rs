use vstd::prelude::*;

use crate::board::Board;
use crate::game::Game;
use crate::position::{abs, push_if_exists, square, CBPosition, Direction};

verus! {

/// The two players.
#[derive(PartialEq, Eq, Structural, Clone, Copy, Debug)]
pub enum Side {
    White,
    Black,
}

#[derive(PartialEq, Eq, Structural, Clone, Copy, Debug)]
pub enum PieceType {
    King,
    Queen,
    Rook,
    Bishop,
    Knight,
    Pawn,
}

/// A piece with the square it stands on.
#[derive(PartialEq, Eq, Structural, Clone, Copy, Debug)]
pub struct Piece {
    pub side: Side,
    pub piece_type: PieceType,
    pub current_pos: CBPosition,
    pub has_moved: bool,
}

impl Side {
    pub open spec fn opponent(self) -> Side {
        match self {
            Side::White => Side::Black,
            Side::Black => Side::White,
        }
    }

    /// Turns this side into the other one.
    pub fn flip(&mut self)
        ensures
            *final(self) == old(self).opponent(),
    {
        match self {
            Side::White => *self = Side::Black,
            Side::Black => *self = Side::White,
        }
    }

    /// The other side.
    pub fn flipped(&self) -> (r: Side)
        ensures
            r == self.opponent(),
    {
        let mut temp = *self;
        temp.flip();
        temp
    }
}

/// Some piece stands on `q`.
pub open spec fn occupied(b: Seq<Option<Piece>>, q: CBPosition) -> bool {
    b[q.index()] is Some
}

/// A piece of `side` stands on `q`.
pub open spec fn holds_side(b: Seq<Option<Piece>>, q: CBPosition, side: Side) -> bool {
    b[q.index()] matches Some(o) && o.side == side
}

/// `x` lies beyond `s` in direction `d`, and some piece stands strictly between them:
/// a sliding piece on `s` cannot reach it.
pub open spec fn blocked_spec(b: Seq<Option<Piece>>, s: CBPosition, d: Direction, x: CBPosition) -> bool {
    &&& x.on_board()
    &&& s.on_ray(d, x)
    &&& exists|y: CBPosition|
        #![trigger s.on_ray(d, y), y.on_ray(d, x)]
        y.on_board() && occupied(b, y) && s.on_ray(d, y) && y.on_ray(d, x)
}

/// `y` holds the nearest piece to `s` in direction `d`: nothing stands between them.
pub open spec fn first_blocker(b: Seq<Option<Piece>>, s: CBPosition, d: Direction, y: CBPosition) -> bool {
    &&& y.on_board()
    &&& occupied(b, y)
    &&& s.on_ray(d, y)
    &&& forall|x: CBPosition|
        #![trigger s.on_ray(d, x), x.on_ray(d, y)]
        x.on_board() && s.on_ray(d, x) && x.on_ray(d, y) ==> !occupied(b, x)
}

/// A piece sliding from `s` in direction `d` reaches `q`: every square between them is empty.
pub open spec fn slides_to(b: Seq<Option<Piece>>, s: CBPosition, d: Direction, q: CBPosition) -> bool {
    q.on_board() && s.on_ray(d, q) && !blocked_spec(b, s, d, q)
}

/// Reached from `s` along a file or a rank.
pub open spec fn slides_straight(b: Seq<Option<Piece>>, s: CBPosition, q: CBPosition) -> bool {
    ||| slides_to(b, s, Direction::North, q)
    ||| slides_to(b, s, Direction::East, q)
    ||| slides_to(b, s, Direction::South, q)
    ||| slides_to(b, s, Direction::West, q)
}

/// Reached from `s` along a diagonal.
pub open spec fn slides_diagonal(b: Seq<Option<Piece>>, s: CBPosition, q: CBPosition) -> bool {
    ||| slides_to(b, s, Direction::NorthEast, q)
    ||| slides_to(b, s, Direction::SouthEast, q)
    ||| slides_to(b, s, Direction::SouthWest, q)
    ||| slides_to(b, s, Direction::NorthWest, q)
}

/// `q` is on a file or a rank through `s`, and not `s` itself.
pub open spec fn straight_line(s: CBPosition, q: CBPosition) -> bool {
    q.on_board() && q != s && (q.col == s.col || q.row == s.row)
}

/// `q` is on a diagonal through `s`, and not `s` itself.
pub open spec fn diagonal_line(s: CBPosition, q: CBPosition) -> bool {
    q.on_board() && q != s && abs(q.file() - s.file()) == abs(q.rank() - s.rank())
}

/// Rank direction in which the pawns of `side` advance.
pub open spec fn forward(side: Side) -> int {
    match side {
        Side::White => 1,
        Side::Black => -1,
    }
}

/// A forward step of the pawn `p`: one rank, or two before its first move.
pub open spec fn pawn_step(p: Piece, q: CBPosition) -> bool {
    let s = p.current_pos;
    &&& q.on_board()
    &&& q.file() == s.file()
    &&& (q.rank() == s.rank() + forward(p.side) || (!p.has_moved && q.rank() == s.rank() + 2
        * forward(p.side)))
}

/// One of the two squares diagonally in front of the pawn `p`.
pub open spec fn pawn_diagonal(p: Piece, q: CBPosition) -> bool {
    let s = p.current_pos;
    q.on_board() && abs(q.file() - s.file()) == 1 && q.rank() == s.rank() + forward(p.side)
}

/// Where the geometry of `p`'s kind lets it go from its square, blocking ignored;
/// a pawn's diagonals count only when a piece stands there.
pub open spec fn pseudo_destination(b: Seq<Option<Piece>>, p: Piece, q: CBPosition) -> bool {
    let s = p.current_pos;
    match p.piece_type {
        PieceType::King => s.adjacent(q),
        PieceType::Knight => s.knight_jump(q),
        PieceType::Rook => straight_line(s, q),
        PieceType::Bishop => diagonal_line(s, q),
        PieceType::Queen => straight_line(s, q) || diagonal_line(s, q),
        PieceType::Pawn => pawn_step(p, q) || (pawn_diagonal(p, q) && occupied(b, q)),
    }
}

/// Where `p` may go on `b`: its kind's geometry, sliding pieces stopped by the first piece
/// in the way (which they may capture), never onto a piece of its own side; a pawn steps
/// forward onto empty squares only and captures diagonally forward only.
pub open spec fn legal_destination(b: Seq<Option<Piece>>, p: Piece, q: CBPosition) -> bool {
    let s = p.current_pos;
    let own = holds_side(b, q, p.side);
    match p.piece_type {
        PieceType::King => s.adjacent(q) && !own,
        PieceType::Knight => s.knight_jump(q) && !own,
        PieceType::Rook => slides_straight(b, s, q) && !own,
        PieceType::Bishop => slides_diagonal(b, s, q) && !own,
        PieceType::Queen => (slides_straight(b, s, q) || slides_diagonal(b, s, q)) && !own,
        PieceType::Pawn => (pawn_step(p, q) && !occupied(b, q)) || (pawn_diagonal(p, q)
            && holds_side(b, q, p.side.opponent())),
    }
}

/// The square in slot `i` of the rank-major table: a1, b1, ..., h1, a2, ..., h8.
pub open spec fn slot_square(i: int) -> CBPosition {
    square(i % 8, i / 8)
}

/// The squares of the first `n` slots that satisfy `pred`, in slot order.
pub open spec fn squares_where(pred: spec_fn(CBPosition) -> bool, n: int) -> Seq<CBPosition>
    decreases n,
{
    if n <= 0 {
        Seq::empty()
    } else {
        let prev = squares_where(pred, n - 1);
        if pred(slot_square(n - 1)) {
            prev.push(slot_square(n - 1))
        } else {
            prev
        }
    }
}

/// The squares `p` may go to on `b`, in slot order from a1 to h8.
pub open spec fn legal_squares(b: Seq<Option<Piece>>, p: Piece) -> Seq<CBPosition> {
    squares_where(|q: CBPosition| legal_destination(b, p, q), 64)
}

/// Slot `i` holds the square whose index is `i`.
pub proof fn lemma_slot_square(i: int)
    requires
        0 <= i < 64,
    ensures
        slot_square(i).on_board(),
        slot_square(i).index() == i,
{
    assert(0 <= i % 8 < 8 && 0 <= i / 8 < 8 && (i / 8) * 8 + i % 8 == i) by (nonlinear_arith)
        requires
            0 <= i < 64,
    ;
}

/// What `squares_where` holds: each satisfying square of the first `n` slots, once,
/// in slot order.
pub proof fn lemma_squares_where(pred: spec_fn(CBPosition) -> bool, n: int)
    requires
        0 <= n <= 64,
    ensures
        all_on_board(squares_where(pred, n)),
        squares_where(pred, n).no_duplicates(),
        forall|i: int, j: int|
            0 <= i < j < squares_where(pred, n).len() ==> (#[trigger] squares_where(pred, n)[i]).index()
                < (#[trigger] squares_where(pred, n)[j]).index(),
        forall|i: int|
            0 <= i < squares_where(pred, n).len() ==> (#[trigger] squares_where(pred, n)[i]).index() < n,
        forall|q: CBPosition| #[trigger]
            squares_where(pred, n).contains(q) <==> (q.on_board() && q.index() < n && pred(q)),
    decreases n,
{
    if n > 0 {
        lemma_squares_where(pred, n - 1);
        lemma_slot_square(n - 1);
        let prev = squares_where(pred, n - 1);
        let x = slot_square(n - 1);
        let cur = squares_where(pred, n);
        assert forall|i: int| 0 <= i < cur.len() implies (#[trigger] cur[i]).on_board() && cur[i].index() < n by {
            if i < prev.len() {
                assert(cur[i] == prev[i]);
            }
        }
        assert forall|i: int, j: int| 0 <= i < j < cur.len() implies (#[trigger] cur[i]).index()
            < (#[trigger] cur[j]).index() by {
            if j < prev.len() {
                assert(cur[i] == prev[i] && cur[j] == prev[j]);
            } else {
                assert(cur[i] == prev[i]);
            }
        }
        assert forall|q: CBPosition| #[trigger]
            cur.contains(q) <==> (q.on_board() && q.index() < n && pred(q)) by {
            crate::position::lemma_push_contains(prev, x, pred(x), cur, q);
            if q.on_board() && q.index() == n - 1 {
                crate::board::lemma_index_injective(q, x);
            }
        }
        assert forall|i: int, j: int| 0 <= i < cur.len() && 0 <= j < cur.len() && i != j implies cur[i]
            != cur[j] by {
            if i < j {
                assert(cur[i].index() < cur[j].index());
            } else {
                assert(cur[j].index() < cur[i].index());
            }
        }
    }
}

/// Every member of `v` is a square of the board.
pub open spec fn all_on_board(v: Seq<CBPosition>) -> bool {
    forall|i: int| 0 <= i < v.len() ==> (#[trigger] v[i]).on_board()
}

/// A move never lands on a piece of the mover's own side.
pub proof fn lemma_legal_spares_own_side(b: Seq<Option<Piece>>, p: Piece, q: CBPosition)
    requires
        legal_destination(b, p, q),
    ensures
        !holds_side(b, q, p.side),
{
}

proof fn lemma_concat_contains<T>(a: Seq<T>, c: Seq<T>, q: T)
    ensures
        (a + c).contains(q) <==> (a.contains(q) || c.contains(q)),
{
    if (a + c).contains(q) {
        let k = choose|k: int| 0 <= k < (a + c).len() && (a + c)[k] == q;
        if k >= a.len() {
            assert(c[k - a.len()] == q);
        }
    }
    if a.contains(q) {
        let k = choose|k: int| 0 <= k < a.len() && a[k] == q;
        assert((a + c)[k] == q);
    }
    if c.contains(q) {
        let k = choose|k: int| 0 <= k < c.len() && c[k] == q;
        assert((a + c)[a.len() + k] == q);
    }
}

proof fn lemma_concat_on_board(a: Seq<CBPosition>, c: Seq<CBPosition>)
    requires
        all_on_board(a),
        all_on_board(c),
    ensures
        all_on_board(a + c),
{
    assert forall|i: int| 0 <= i < (a + c).len() implies (#[trigger] (a + c)[i]).on_board() by {
        if i >= a.len() {
            assert((a + c)[i] == c[i - a.len()]);
        }
    }
}

/// Whether `q` is among `v`.
fn contains_pos(v: &Vec<CBPosition>, q: CBPosition) -> (r: bool)
    ensures
        r == v@.contains(q),
{
    let mut i: usize = 0;
    while i < v.len()
        invariant
            i <= v@.len(),
            forall|j: int| 0 <= j < i ==> v@[j] != q,
        decreases v@.len() - i,
    {
        if v[i] == q {
            return true;
        }
        i = i + 1;
    }
    false
}

/// The members of `moves` that are among `list` (when `inside`) or not among it
/// (otherwise), in their order.
fn retain_by(moves: &Vec<CBPosition>, list: &Vec<CBPosition>, inside: bool) -> (r: Vec<CBPosition>)
    requires
        all_on_board(moves@),
    ensures
        all_on_board(r@),
        forall|q: CBPosition| #[trigger]
            r@.contains(q) <==> (moves@.contains(q) && list@.contains(q) == inside),
{
    let mut kept: Vec<CBPosition> = Vec::new();
    let mut i: usize = 0;
    while i < moves.len()
        invariant
            i <= moves@.len(),
            all_on_board(moves@),
            all_on_board(kept@),
            forall|q: CBPosition| #[trigger]
                kept@.contains(q) <==> (moves@.subrange(0, i as int).contains(q)
                    && list@.contains(q) == inside),
        decreases moves@.len() - i,
    {
        let m = moves[i];
        let ghost prev = kept@;
        let keep = contains_pos(list, m) == inside;
        if keep {
            kept.push(m);
        }
        proof {
            assert(moves@.subrange(0, i + 1) == moves@.subrange(0, i as int).push(m));
            assert forall|q: CBPosition| #[trigger]
                kept@.contains(q) <==> (moves@.subrange(0, i + 1).contains(q)
                    && list@.contains(q) == inside) by {
                crate::position::lemma_push_contains(prev, m, keep, kept@, q);
                crate::position::lemma_push_contains(
                    moves@.subrange(0, i as int),
                    m,
                    true,
                    moves@.subrange(0, i + 1),
                    q,
                );
            }
        }
        i = i + 1;
    }
    assert(moves@.subrange(0, moves@.len() as int) == moves@);
    kept
}

impl Piece {
    /// A piece that has not moved yet.
    pub open spec fn fresh(side: Side, piece_type: PieceType, pos: CBPosition) -> Piece {
        Piece { side, piece_type, current_pos: pos, has_moved: false }
    }

    /// A piece on `current_pos` that has not moved yet.
    pub fn new(side: Side, piece_type: PieceType, current_pos: CBPosition) -> (r: Piece)
        ensures
            r == Piece::fresh(side, piece_type, current_pos),
    {
        Piece { side, piece_type, current_pos, has_moved: false }
    }

    /// Where this piece may go on `board`: its kind's geometry, then the legality filter.
    pub fn get_valid_moves(&self, board: &Board) -> (r: Vec<CBPosition>)
        requires
            board.wf(),
            self.current_pos.on_board(),
        ensures
            r@ == legal_squares(board@, *self),
            r@.no_duplicates(),
            all_on_board(r@),
            forall|q: CBPosition| #[trigger]
                r@.contains(q) <==> legal_destination(board@, *self, q),
    {
        let s = self.current_pos;
        let moves = match self.piece_type {
            PieceType::King => {
                let mut mvs = s.get_adjacents();
                let mut castles = self.get_available_castle_moves(board);
                let ghost (a, c) = (mvs@, castles@);
                mvs.append(&mut castles);
                proof {
                    assert forall|q: CBPosition| #[trigger] mvs@.contains(q) <==> s.adjacent(q) by {
                        lemma_concat_contains(a, c, q);
                    }
                }
                mvs
            },
            PieceType::Queen => {
                let mut mvs = s.get_horizontal();
                let mut v = s.get_vertical();
                let mut d = s.get_diagonals();
                let ghost (a, b, c) = (mvs@, v@, d@);
                mvs.append(&mut v);
                mvs.append(&mut d);
                proof {
                    lemma_concat_on_board(a, b);
                    lemma_concat_on_board(a + b, c);
                    assert forall|q: CBPosition| #[trigger]
                        mvs@.contains(q) <==> (straight_line(s, q) || diagonal_line(s, q)) by {
                        lemma_concat_contains(a, b, q);
                        lemma_concat_contains(a + b, c, q);
                    }
                }
                mvs
            },
            PieceType::Rook => {
                let mut mvs = s.get_horizontal();
                let mut v = s.get_vertical();
                let ghost (a, b) = (mvs@, v@);
                mvs.append(&mut v);
                proof {
                    lemma_concat_on_board(a, b);
                    assert forall|q: CBPosition| #[trigger] mvs@.contains(q) <==> straight_line(s, q) by {
                        lemma_concat_contains(a, b, q);
                    }
                }
                mvs
            },
            PieceType::Bishop => s.get_diagonals(),
            PieceType::Knight => s.get_knight_moves(),
            PieceType::Pawn => self.get_pawn_moves(board),
        };
        let unordered = self.filter_blocked_moves(board, moves);
        let ghost pred = |q: CBPosition| legal_destination(board@, *self, q);
        let mut ordered: Vec<CBPosition> = Vec::new();
        let mut i: usize = 0;
        while i < 64
            invariant
                i <= 64,
                ordered@ == squares_where(pred, i as int),
                pred == (|q: CBPosition| legal_destination(board@, *self, q)),
                forall|q: CBPosition| #[trigger]
                    unordered@.contains(q) <==> legal_destination(board@, *self, q),
            decreases 64 - i,
        {
            let q = CBPosition { col: ((i % 8) as u8 + 97u8) as char, row: i / 8 + 1 };
            assert(q == slot_square(i as int));
            if contains_pos(&unordered, q) {
                ordered.push(q);
            }
            i = i + 1;
        }
        proof {
            lemma_squares_where(pred, 64);
        }
        ordered
    }

    /// The squares of `moves` that this piece may really go to: blocked squares and
    /// squares of its own side's pieces taken out, a pawn's rules applied.
    pub fn filter_blocked_moves(&self, board: &Board, moves: Vec<CBPosition>) -> (r: Vec<CBPosition>)
        requires
            board.wf(),
            self.current_pos.on_board(),
            all_on_board(moves@),
            forall|q: CBPosition| #[trigger]
                moves@.contains(q) <==> pseudo_destination(board@, *self, q),
        ensures
            all_on_board(r@),
            forall|q: CBPosition| #[trigger]
                r@.contains(q) <==> legal_destination(board@, *self, q),
    {
        let friendly_piece_positions = self.friendly_positions(board, &moves);
        match self.piece_type {
            PieceType::Queen => self.filter_queen_moves(board, moves, friendly_piece_positions),
            PieceType::Rook => self.filter_rook_moves(board, moves, friendly_piece_positions),
            PieceType::Bishop => self.filter_bishop_moves(board, moves, friendly_piece_positions),
            PieceType::Pawn => self.filter_pawn_moves(board, moves),
            _ => retain_by(&moves, &friendly_piece_positions, false),
        }
    }

    /// The squares of `moves` on which a piece of this piece's side stands.
    fn friendly_positions(&self, board: &Board, moves: &Vec<CBPosition>) -> (r: Vec<CBPosition>)
        requires
            board.wf(),
            all_on_board(moves@),
        ensures
            forall|q: CBPosition| #[trigger]
                r@.contains(q) <==> (moves@.contains(q) && holds_side(board@, q, self.side)),
    {
        let pieces = Game::get_all_pieces_in(board, moves);
        let mut positions: Vec<CBPosition> = Vec::new();
        let mut i: usize = 0;
        while i < pieces.len()
            invariant
                i <= pieces@.len(),
                forall|q: CBPosition| #[trigger]
                    positions@.contains(q) <==> exists|j: int|
                        0 <= j < i && (#[trigger] pieces@[j]).side == self.side
                            && pieces@[j].current_pos == q,
            decreases pieces@.len() - i,
        {
            let p = pieces[i];
            let ghost prev = positions@;
            let keep = p.side == self.side;
            if keep {
                positions.push(p.current_pos);
            }
            proof {
                assert forall|q: CBPosition| #[trigger]
                    positions@.contains(q) <==> exists|j: int|
                        0 <= j < i + 1 && (#[trigger] pieces@[j]).side == self.side
                            && pieces@[j].current_pos == q by {
                    crate::position::lemma_push_contains(prev, p.current_pos, keep, positions@, q);
                    if keep && q == p.current_pos {
                        assert(pieces@[i as int] == p);
                    }
                }
            }
            i = i + 1;
        }
        proof {
            assert forall|q: CBPosition| #[trigger]
                positions@.contains(q) <==> (moves@.contains(q) && holds_side(board@, q, self.side)) by {
                if positions@.contains(q) {
                    let j = choose|j: int|
                        0 <= j < pieces@.len() && (#[trigger] pieces@[j]).side == self.side
                            && pieces@[j].current_pos == q;
                    assert(pieces@.contains(pieces@[j]));
                }
                if moves@.contains(q) && holds_side(board@, q, self.side) {
                    let k = choose|k: int| 0 <= k < moves@.len() && moves@[k] == q;
                    assert(q.on_board());
                    let o = board@[q.index()]->Some_0;
                    crate::board::lemma_index_injective(o.current_pos, q);
                    assert(pieces@.contains(o));
                    let j = choose|j: int| 0 <= j < pieces@.len() && pieces@[j] == o;
                    assert(pieces@[j].side == self.side && pieces@[j].current_pos == q);
                }
            }
        }
        positions
    }

    /// The squares beyond the nearest piece that stands in direction `dir`
    /// from this piece: a sliding piece cannot reach them.
    fn blocked_in(&self, board: &Board, dir: Direction) -> (r: Vec<CBPosition>)
        requires
            board.wf(),
            self.current_pos.on_board(),
        ensures
            forall|y: CBPosition| #[trigger]
                first_blocker(board@, self.current_pos, dir, y) ==> y.is_ray(dir, r@),
            (forall|y: CBPosition| !#[trigger] first_blocker(board@, self.current_pos, dir, y))
                ==> r@.len() == 0,
            all_on_board(r@),
            forall|q: CBPosition| #[trigger]
                r@.contains(q) <==> blocked_spec(board@, self.current_pos, dir, q),
    {
        let s = self.current_pos;
        let ray = s.beyond(dir);
        let mut i: usize = 0;
        while i < ray.len() && board.get(ray[i]).is_none()
            invariant
                i <= ray@.len(),
                board.wf(),
                s.is_ray(dir, ray@),
                forall|j: int| 0 <= j < i ==> !occupied(board@, #[trigger] ray@[j]),
            decreases ray@.len() - i,
        {
            i = i + 1;
        }
        if i < ray.len() {
            let blocker = ray[i];
            let r = blocker.beyond(dir);
            proof {
                assert forall|x: CBPosition|
                    #![trigger s.on_ray(dir, x), x.on_ray(dir, blocker)]
                    x.on_board() && s.on_ray(dir, x) && x.on_ray(dir, blocker) implies !occupied(board@, x) by {
                    assert(ray@.contains(x));
                    let k = choose|k: int| 0 <= k < ray@.len() && ray@[k] == x;
                    assert(s.steps_to(x) < s.steps_to(blocker));
                }
                assert(first_blocker(board@, s, dir, blocker));
                assert forall|y: CBPosition| #[trigger] first_blocker(board@, s, dir, y) implies y.is_ray(
                    dir,
                    r@,
                ) by {
                    assert(ray@.contains(y));
                    let k = choose|k: int| 0 <= k < ray@.len() && ray@[k] == y;
                    assert(k >= i);
                    crate::position::lemma_ray_order(s, dir, blocker, y);
                    if blocker != y {
                        assert(s.on_ray(dir, blocker) && blocker.on_ray(dir, y));
                    }
                }
                assert forall|q: CBPosition| #[trigger]
                    r@.contains(q) <==> blocked_spec(board@, s, dir, q) by {
                    if r@.contains(q) {
                        crate::position::lemma_ray_trans(s, dir, blocker, q);
                        assert(s.on_ray(dir, blocker) && blocker.on_ray(dir, q));
                    }
                    if blocked_spec(board@, s, dir, q) {
                        let y = choose|y: CBPosition|
                            #![trigger s.on_ray(dir, y), y.on_ray(dir, q)]
                            y.on_board() && occupied(board@, y) && s.on_ray(dir, y) && y.on_ray(dir, q);
                        assert(ray@.contains(y));
                        let k = choose|k: int| 0 <= k < ray@.len() && ray@[k] == y;
                        assert(k >= i);
                        crate::position::lemma_ray_order(s, dir, blocker, y);
                        if blocker != y {
                            crate::position::lemma_ray_trans(blocker, dir, y, q);
                        }
                    }
                }
            }
            r
        } else {
            proof {
                assert forall|y: CBPosition| !#[trigger] first_blocker(board@, s, dir, y) by {
                    if first_blocker(board@, s, dir, y) {
                        assert(ray@.contains(y));
                        let k = choose|k: int| 0 <= k < ray@.len() && ray@[k] == y;
                    }
                }
                assert forall|q: CBPosition| !blocked_spec(board@, s, dir, q) by {
                    if blocked_spec(board@, s, dir, q) {
                        let y = choose|y: CBPosition|
                            #![trigger s.on_ray(dir, y), y.on_ray(dir, q)]
                            y.on_board() && occupied(board@, y) && s.on_ray(dir, y) && y.on_ray(dir, q);
                        assert(ray@.contains(y));
                        let k = choose|k: int| 0 <= k < ray@.len() && ray@[k] == y;
                    }
                }
            }
            Vec::new()
        }
    }

    /// A rook's candidate squares, blocking and its own side's pieces applied.
    fn filter_rook_moves(
        &self,
        board: &Board,
        moves: Vec<CBPosition>,
        friendly_piece_positions: Vec<CBPosition>,
    ) -> (r: Vec<CBPosition>)
        requires
            board.wf(),
            self.current_pos.on_board(),
            all_on_board(moves@),
            forall|q: CBPosition| #[trigger] moves@.contains(q) <==> straight_line(self.current_pos, q),
            forall|q: CBPosition| #[trigger]
                friendly_piece_positions@.contains(q) <==> (moves@.contains(q) && holds_side(
                    board@,
                    q,
                    self.side,
                )),
        ensures
            all_on_board(r@),
            forall|q: CBPosition| #[trigger]
                r@.contains(q) <==> (slides_straight(board@, self.current_pos, q) && !holds_side(
                    board@,
                    q,
                    self.side,
                )),
    {
        let s = self.current_pos;
        let mut to_remove = self.blocked_in(board, Direction::North);
        let mut east = self.blocked_in(board, Direction::East);
        let mut south = self.blocked_in(board, Direction::South);
        let mut west = self.blocked_in(board, Direction::West);
        let mut friendly = friendly_piece_positions;
        let ghost (a, b, c, d, f) = (to_remove@, east@, south@, west@, friendly@);
        to_remove.append(&mut east);
        to_remove.append(&mut south);
        to_remove.append(&mut west);
        to_remove.append(&mut friendly);
        let r = retain_by(&moves, &to_remove, false);
        proof {
            assert forall|q: CBPosition| #[trigger]
                r@.contains(q) <==> (slides_straight(board@, s, q) && !holds_side(board@, q, self.side)) by {
                lemma_concat_contains(a, b, q);
                lemma_concat_contains(a + b, c, q);
                lemma_concat_contains(a + b + c, d, q);
                lemma_concat_contains(a + b + c + d, f, q);
            }
        }
        r
    }

    /// A bishop's candidate squares, blocking and its own side's pieces applied.
    fn filter_bishop_moves(
        &self,
        board: &Board,
        moves: Vec<CBPosition>,
        friendly_piece_positions: Vec<CBPosition>,
    ) -> (r: Vec<CBPosition>)
        requires
            board.wf(),
            self.current_pos.on_board(),
            all_on_board(moves@),
            forall|q: CBPosition| #[trigger] moves@.contains(q) <==> diagonal_line(self.current_pos, q),
            forall|q: CBPosition| #[trigger]
                friendly_piece_positions@.contains(q) <==> (moves@.contains(q) && holds_side(
                    board@,
                    q,
                    self.side,
                )),
        ensures
            all_on_board(r@),
            forall|q: CBPosition| #[trigger]
                r@.contains(q) <==> (slides_diagonal(board@, self.current_pos, q) && !holds_side(
                    board@,
                    q,
                    self.side,
                )),
    {
        let s = self.current_pos;
        let mut to_remove = self.blocked_in(board, Direction::NorthEast);
        let mut se = self.blocked_in(board, Direction::SouthEast);
        let mut sw = self.blocked_in(board, Direction::SouthWest);
        let mut nw = self.blocked_in(board, Direction::NorthWest);
        let mut friendly = friendly_piece_positions;
        let ghost (a, b, c, d, f) = (to_remove@, se@, sw@, nw@, friendly@);
        to_remove.append(&mut se);
        to_remove.append(&mut sw);
        to_remove.append(&mut nw);
        to_remove.append(&mut friendly);
        let r = retain_by(&moves, &to_remove, false);
        proof {
            assert forall|q: CBPosition| #[trigger]
                r@.contains(q) <==> (slides_diagonal(board@, s, q) && !holds_side(board@, q, self.side)) by {
                lemma_concat_contains(a, b, q);
                lemma_concat_contains(a + b, c, q);
                lemma_concat_contains(a + b + c, d, q);
                lemma_concat_contains(a + b + c + d, f, q);
            }
        }
        r
    }

    /// A queen's candidate squares, blocking and its own side's pieces applied.
    fn filter_queen_moves(
        &self,
        board: &Board,
        moves: Vec<CBPosition>,
        friendly_piece_positions: Vec<CBPosition>,
    ) -> (r: Vec<CBPosition>)
        requires
            board.wf(),
            self.current_pos.on_board(),
            all_on_board(moves@),
            forall|q: CBPosition| #[trigger]
                moves@.contains(q) <==> (straight_line(self.current_pos, q) || diagonal_line(
                    self.current_pos,
                    q,
                )),
            forall|q: CBPosition| #[trigger]
                friendly_piece_positions@.contains(q) <==> (moves@.contains(q) && holds_side(
                    board@,
                    q,
                    self.side,
                )),
        ensures
            all_on_board(r@),
            forall|q: CBPosition| #[trigger]
                r@.contains(q) <==> ((slides_straight(board@, self.current_pos, q) || slides_diagonal(
                    board@,
                    self.current_pos,
                    q,
                )) && !holds_side(board@, q, self.side)),
    {
        let s = self.current_pos;
        let mut straight = self.blocked_in(board, Direction::North);
        let mut e = self.blocked_in(board, Direction::East);
        let mut so = self.blocked_in(board, Direction::South);
        let mut w = self.blocked_in(board, Direction::West);
        let mut diag = self.blocked_in(board, Direction::NorthEast);
        let mut se = self.blocked_in(board, Direction::SouthEast);
        let mut sw = self.blocked_in(board, Direction::SouthWest);
        let mut nw = self.blocked_in(board, Direction::NorthWest);
        let ghost (a1, a2, a3, a4) = (straight@, e@, so@, w@);
        let ghost (b1, b2, b3, b4) = (diag@, se@, sw@, nw@);
        straight.append(&mut e);
        straight.append(&mut so);
        straight.append(&mut w);
        diag.append(&mut se);
        diag.append(&mut sw);
        diag.append(&mut nw);
        let ghost (a, b) = (straight@, diag@);
        let mut to_remove = straight;
        let mut friendly = friendly_piece_positions;
        let ghost f = friendly@;
        to_remove.append(&mut diag);
        to_remove.append(&mut friendly);
        let r = retain_by(&moves, &to_remove, false);
        proof {
            assert forall|q: CBPosition| #[trigger]
                r@.contains(q) <==> ((slides_straight(board@, s, q) || slides_diagonal(board@, s, q))
                    && !holds_side(board@, q, self.side)) by {
                lemma_concat_contains(a1, a2, q);
                lemma_concat_contains(a1 + a2, a3, q);
                lemma_concat_contains(a1 + a2 + a3, a4, q);
                lemma_concat_contains(b1, b2, q);
                lemma_concat_contains(b1 + b2, b3, q);
                lemma_concat_contains(b1 + b2 + b3, b4, q);
                lemma_concat_contains(a, b, q);
                lemma_concat_contains(a + b, f, q);
            }
        }
        r
    }

    /// Castling is not offered: no squares.
    pub fn get_available_castle_moves(&self, board: &Board) -> (r: Vec<CBPosition>)
        ensures
            r@.len() == 0,
    {
        Vec::new()
    }

    /// Whether this piece may go to `to_pos` on `board`.
    pub fn can_move_to(&self, to_pos: CBPosition, board: &Board) -> (r: bool)
        requires
            board.wf(),
            self.current_pos.on_board(),
        ensures
            r == legal_destination(board@, *self, to_pos),
    {
        let moves = self.get_valid_moves(board);
        contains_pos(&moves, to_pos)
    }

    /// Rank step of this piece's side as an offset.
    fn forward_step(&self) -> (r: isize)
        ensures
            r == forward(self.side),
    {
        match self.side {
            Side::White => 1,
            Side::Black => -1,
        }
    }

    /// A pawn's candidate squares: the forward step, the double step before its first move,
    /// and each forward diagonal on which a piece stands.
    pub fn get_pawn_moves(&self, board: &Board) -> (r: Vec<CBPosition>)
        requires
            board.wf(),
            self.current_pos.on_board(),
        ensures
            all_on_board(r@),
            forall|q: CBPosition| #[trigger]
                r@.contains(q) <==> (pawn_step(*self, q) || (pawn_diagonal(*self, q) && occupied(
                    board@,
                    q,
                ))),
    {
        let s = self.current_pos;
        let fwd = self.forward_step();
        let mut positions: Vec<CBPosition> = Vec::new();
        let ghost p0 = positions@;
        let two = if !self.has_moved {
            s.get_offset(2 * fwd, 0)
        } else {
            None
        };
        push_if_exists(&mut positions, two);
        let ghost p1 = positions@;
        let one = s.get_offset(fwd, 0);
        push_if_exists(&mut positions, one);
        let ghost p2 = positions@;
        let left = s.get_offset(fwd, -1);
        if let Some(up_left) = left {
            CBPosition::push_if_occupied(&mut positions, up_left, board)
        }
        let ghost p3 = positions@;
        let right = s.get_offset(fwd, 1);
        if let Some(up_right) = right {
            CBPosition::push_if_occupied(&mut positions, up_right, board)
        }
        proof {
            assert forall|q: CBPosition| #[trigger]
                positions@.contains(q) <==> (pawn_step(*self, q) || (pawn_diagonal(*self, q)
                    && occupied(board@, q))) by {
                crate::position::lemma_push_contains(p0, two->Some_0, two is Some, p1, q);
                crate::position::lemma_push_contains(p1, one->Some_0, one is Some, p2, q);
                crate::position::lemma_push_contains(
                    p2,
                    left->Some_0,
                    left is Some && occupied(board@, left->Some_0),
                    p3,
                    q,
                );
                crate::position::lemma_push_contains(
                    p3,
                    right->Some_0,
                    right is Some && occupied(board@, right->Some_0),
                    positions@,
                    q,
                );
            }
            assert forall|i: int| 0 <= i < positions@.len() implies (#[trigger] positions@[i]).on_board() by {
                assert(positions@.contains(positions@[i]));
            }
        }
        positions
    }

    /// A pawn's squares: forward steps onto empty squares only, and each forward diagonal
    /// on which a piece of the other side stands.
    fn filter_pawn_moves(&self, board: &Board, moves: Vec<CBPosition>) -> (r: Vec<CBPosition>)
        requires
            board.wf(),
            self.current_pos.on_board(),
            all_on_board(moves@),
            forall|q: CBPosition| #[trigger]
                moves@.contains(q) <==> (pawn_step(*self, q) || (pawn_diagonal(*self, q)
                    && occupied(board@, q))),
        ensures
            all_on_board(r@),
            forall|q: CBPosition| #[trigger]
                r@.contains(q) <==> ((pawn_step(*self, q) && !occupied(board@, q)) || (
                pawn_diagonal(*self, q) && holds_side(board@, q, self.side.opponent()))),
    {
        let s = self.current_pos;
        let fwd = self.forward_step();
        let mut vert_moves: Vec<CBPosition> = Vec::new();
        let ghost v0 = vert_moves@;
        let one = s.get_offset(fwd, 0);
        let one_free = match one {
            Some(p) => board.get(p).is_none(),
            None => false,
        };
        if one_free {
            vert_moves.push(one.unwrap());
        }
        let ghost v1 = vert_moves@;
        let two = if !self.has_moved {
            s.get_offset(2 * fwd, 0)
        } else {
            None
        };
        let two_free = match two {
            Some(p) => board.get(p).is_none(),
            None => false,
        };
        if two_free {
            vert_moves.push(two.unwrap());
        }
        let mut kept = retain_by(&moves, &vert_moves, true);
        let ghost k0 = kept@;
        let left = s.get_offset(fwd, -1);
        let left_enemy = match left {
            Some(p) => match board.get(p) {
                Some(o) => o.side != self.side,
                None => false,
            },
            None => false,
        };
        if left_enemy {
            kept.push(left.unwrap());
        }
        let ghost k1 = kept@;
        let right = s.get_offset(fwd, 1);
        let right_enemy = match right {
            Some(p) => match board.get(p) {
                Some(o) => o.side != self.side,
                None => false,
            },
            None => false,
        };
        if right_enemy {
            kept.push(right.unwrap());
        }
        proof {
            assert forall|q: CBPosition| #[trigger]
                kept@.contains(q) <==> ((pawn_step(*self, q) && !occupied(board@, q)) || (
                pawn_diagonal(*self, q) && holds_side(board@, q, self.side.opponent()))) by {
                crate::position::lemma_push_contains(v0, one->Some_0, one_free, v1, q);
                crate::position::lemma_push_contains(v1, two->Some_0, two_free, vert_moves@, q);
                crate::position::lemma_push_contains(k0, left->Some_0, left_enemy, k1, q);
                crate::position::lemma_push_contains(k1, right->Some_0, right_enemy, kept@, q);
            }
            assert forall|i: int| 0 <= i < kept@.len() implies (#[trigger] kept@[i]).on_board() by {
                assert(kept@.contains(kept@[i]));
            }
        }
        kept
    }
}

} // verus!
