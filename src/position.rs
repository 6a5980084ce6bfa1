use vstd::prelude::*;

use crate::board::Board;

verus! {

/// A square of the board: a file letter `'a'..='h'` and a rank number `1..=8`.
#[derive(PartialEq, Eq, Structural, Hash, Clone, Copy, Debug)]
pub struct CBPosition {
    pub col: char,
    pub row: usize,
}

/// The eight compass directions, seen from White's side of the board:
/// north is towards rank 8, east is towards file h.
#[derive(PartialEq, Eq, Structural, Clone, Copy, Debug)]
pub enum Direction {
    North,
    NorthEast,
    East,
    SouthEast,
    South,
    SouthWest,
    West,
    NorthWest,
}

/// The absolute value of an integer.
pub open spec fn abs(x: int) -> int {
    if x < 0 { -x } else { x }
}

pub open spec fn min(x: int, y: int) -> int {
    if x < y { x } else { y }
}

pub open spec fn max(x: int, y: int) -> int {
    if x < y { y } else { x }
}

/// The square with file index `f` and rank index `r`, both counted from zero.
pub open spec fn square(f: int, r: int) -> CBPosition {
    CBPosition { col: (f + 97) as char, row: (r + 1) as usize }
}

/// Where `p` lands when moved by `dr` ranks and `df` files, if that is on the board.
pub open spec fn offset_spec(p: CBPosition, dr: int, df: int) -> Option<CBPosition> {
    let f = p.file() + df;
    let r = p.rank() + dr;
    if 0 <= f < 8 && 0 <= r < 8 {
        Some(square(f, r))
    } else {
        None
    }
}

/// The squares that a list of (rank, file) offsets reaches from `p`, in the list's
/// order, leaving out those that fall off the board.
pub open spec fn offsets_spec(p: CBPosition, offs: Seq<(isize, isize)>) -> Seq<CBPosition>
    decreases offs.len(),
{
    if offs.len() == 0 {
        Seq::empty()
    } else {
        let prev = offsets_spec(p, offs.drop_last());
        match offset_spec(p, offs.last().0 as int, offs.last().1 as int) {
            Some(q) => prev.push(q),
            None => prev,
        }
    }
}

impl Direction {
    /// Rank change of one step in this direction.
    pub open spec fn rank_step(self) -> int {
        match self {
            Direction::North | Direction::NorthEast | Direction::NorthWest => 1,
            Direction::South | Direction::SouthEast | Direction::SouthWest => -1,
            _ => 0,
        }
    }

    /// File change of one step in this direction.
    pub open spec fn file_step(self) -> int {
        match self {
            Direction::East | Direction::NorthEast | Direction::SouthEast => 1,
            Direction::West | Direction::NorthWest | Direction::SouthWest => -1,
            _ => 0,
        }
    }

    fn steps(&self) -> (r: (isize, isize))
        ensures
            r.0 == self.rank_step(),
            r.1 == self.file_step(),
    {
        match self {
            Direction::North => (1, 0),
            Direction::NorthEast => (1, 1),
            Direction::East => (0, 1),
            Direction::SouthEast => (-1, 1),
            Direction::South => (-1, 0),
            Direction::SouthWest => (-1, -1),
            Direction::West => (0, -1),
            Direction::NorthWest => (1, -1),
        }
    }

    /// The direction in which `relative` lies as seen from `anchor`: one of the
    /// diagonals when both file and rank differ, else the straight direction.
    pub open spec fn direction_between(anchor: CBPosition, relative: CBPosition) -> Direction {
        let df = relative.file() - anchor.file();
        let dr = relative.row as int - anchor.row as int;
        if dr > 0 {
            if df < 0 {
                Direction::NorthWest
            } else if df > 0 {
                Direction::NorthEast
            } else {
                Direction::North
            }
        } else if dr < 0 {
            if df < 0 {
                Direction::SouthWest
            } else if df > 0 {
                Direction::SouthEast
            } else {
                Direction::South
            }
        } else if df < 0 {
            Direction::West
        } else {
            Direction::East
        }
    }

    /// Classifies where `relative` lies as seen from `anchor`. The two must differ.
    pub fn relative_direction(anchor: CBPosition, relative: CBPosition) -> (r: Direction)
        requires
            anchor != relative,
        ensures
            r == Self::direction_between(anchor, relative),
    {
        let left_right: i8 = if anchor.col > relative.col {
            -1
        } else if anchor.col < relative.col {
            1
        } else {
            0
        };
        let up_down: i8 = if anchor.row > relative.row {
            -1
        } else if anchor.row < relative.row {
            1
        } else {
            0
        };
        if up_down > 0 {
            if left_right < 0 {
                Direction::NorthWest
            } else if left_right > 0 {
                Direction::NorthEast
            } else {
                Direction::North
            }
        } else if up_down < 0 {
            if left_right < 0 {
                Direction::SouthWest
            } else if left_right > 0 {
                Direction::SouthEast
            } else {
                Direction::South
            }
        } else if left_right < 0 {
            Direction::West
        } else {
            Direction::East
        }
    }
}

impl CBPosition {
    /// File index, 0 for file a.
    pub open spec fn file(self) -> int {
        self.col as int - 97
    }

    /// Rank index, 0 for rank 1.
    pub open spec fn rank(self) -> int {
        self.row as int - 1
    }

    pub open spec fn on_board(self) -> bool {
        0 <= self.file() < 8 && 0 <= self.rank() < 8
    }

    /// Slot of the square in a rank-major table of 64 entries.
    pub open spec fn index(self) -> int {
        self.rank() * 8 + self.file()
    }

    /// `q` lies strictly beyond `self` in direction `d`.
    pub open spec fn on_ray(self, d: Direction, q: CBPosition) -> bool {
        let df = q.file() - self.file();
        let dr = q.rank() - self.rank();
        match d {
            Direction::North => df == 0 && dr > 0,
            Direction::South => df == 0 && dr < 0,
            Direction::East => dr == 0 && df > 0,
            Direction::West => dr == 0 && df < 0,
            Direction::NorthEast => df == dr && df > 0,
            Direction::SouthWest => df == dr && df < 0,
            Direction::SouthEast => df == -dr && df > 0,
            Direction::NorthWest => df == -dr && df < 0,
        }
    }

    /// Number of king steps from `self` to `q`.
    pub open spec fn steps_to(self, q: CBPosition) -> int {
        max(abs(q.file() - self.file()), abs(q.rank() - self.rank()))
    }

    /// Number of squares from `self` to the edge of the board in direction `d`.
    pub open spec fn ray_len(self, d: Direction) -> int {
        let f = self.file();
        let r = self.rank();
        match d {
            Direction::North => 7 - r,
            Direction::South => r,
            Direction::East => 7 - f,
            Direction::West => f,
            Direction::NorthEast => min(7 - r, 7 - f),
            Direction::NorthWest => min(7 - r, f),
            Direction::SouthEast => min(r, 7 - f),
            Direction::SouthWest => min(r, f),
        }
    }

    /// `s` lists the squares beyond `self` in direction `d`, nearest first, up to the edge.
    pub open spec fn is_ray(self, d: Direction, s: Seq<CBPosition>) -> bool {
        &&& s.len() == self.ray_len(d)
        &&& forall|i: int|
            0 <= i < s.len() ==> {
                &&& (#[trigger] s[i]).on_board()
                &&& self.on_ray(d, s[i])
                &&& self.steps_to(s[i]) == i + 1
            }
        &&& forall|q: CBPosition| #[trigger]
            s.contains(q) <==> (q.on_board() && self.on_ray(d, q))
    }

    /// A king step away: on the board, different from `self`, at most one file and one rank off.
    pub open spec fn adjacent(self, q: CBPosition) -> bool {
        &&& q.on_board()
        &&& q != self
        &&& abs(q.file() - self.file()) <= 1
        &&& abs(q.rank() - self.rank()) <= 1
    }

    /// A knight jump away: on the board, two files and one rank off, or the other way round.
    pub open spec fn knight_jump(self, q: CBPosition) -> bool {
        let df = abs(q.file() - self.file());
        let dr = abs(q.rank() - self.rank());
        q.on_board() && ((df == 1 && dr == 2) || (df == 2 && dr == 1))
    }

    /// The square is on the board.
    pub fn is_valid(&self) -> (r: bool)
        ensures
            r == self.on_board(),
    {
        'a' <= self.col && self.col <= 'h' && 1 <= self.row && self.row <= 8
    }

    /// Every other square of the same file.
    pub fn get_vertical(&self) -> (r: Vec<CBPosition>)
        requires
            self.on_board(),
        ensures
            r@.len() == 7,
            forall|i: int|
                0 <= i < 7 ==> #[trigger] r@[i] == square(
                    self.file(),
                    if i < self.rank() {
                        i
                    } else {
                        i + 1
                    },
                ),
            r@.no_duplicates(),
            forall|i: int| 0 <= i < r@.len() ==> (#[trigger] r@[i]).on_board(),
            forall|q: CBPosition| #[trigger]
                r@.contains(q) <==> (q.on_board() && q.col == self.col && q != *self),
    {
        let mut positions: Vec<CBPosition> = Vec::new();
        let mut row: usize = 1;
        while row <= 8
            invariant
                1 <= row <= 9,
                self.on_board(),
                positions@.len() == row - 1 - (if row > self.row { 1int } else { 0int }),
                forall|i: int|
                    0 <= i < positions@.len() ==> #[trigger] positions@[i] == square(
                        self.file(),
                        if i < self.rank() {
                            i
                        } else {
                            i + 1
                        },
                    ),
                forall|i: int| 0 <= i < positions@.len() ==> (#[trigger] positions@[i]).on_board(),
                forall|q: CBPosition| #[trigger]
                    positions@.contains(q) <==> (q.on_board() && q.col == self.col && q != *self
                        && q.row < row),
            decreases 9 - row,
        {
            let p = CBPosition { col: self.col, row };
            assert(p == square(self.file(), row - 1));
            let ghost prev = positions@;
            if p != *self {
                positions.push(p);
            }
            proof {
                assert forall|q: CBPosition| #[trigger]
                    positions@.contains(q) <==> (q.on_board() && q.col == self.col && q != *self
                        && q.row < row + 1) by {
                    lemma_push_contains(prev, p, p != *self, positions@, q);
                }
            }
            row = row + 1;
        }
        proof {
            assert forall|i: int, j: int|
                0 <= i < positions@.len() && 0 <= j < positions@.len() && i != j implies positions@[i]
                != positions@[j] by {
                assert(positions@[i].rank() != positions@[j].rank());
            }
        }
        positions
    }

    /// Every other square of the same rank.
    pub fn get_horizontal(&self) -> (r: Vec<CBPosition>)
        requires
            self.on_board(),
        ensures
            r@.len() == 7,
            forall|i: int|
                0 <= i < 7 ==> #[trigger] r@[i] == square(
                    if i < self.file() {
                        i
                    } else {
                        i + 1
                    },
                    self.rank(),
                ),
            r@.no_duplicates(),
            forall|i: int| 0 <= i < r@.len() ==> (#[trigger] r@[i]).on_board(),
            forall|q: CBPosition| #[trigger]
                r@.contains(q) <==> (q.on_board() && q.row == self.row && q != *self),
    {
        let mut positions: Vec<CBPosition> = Vec::new();
        let mut f: u8 = 0;
        while f < 8
            invariant
                f <= 8,
                self.on_board(),
                positions@.len() == f - (if f > self.file() { 1int } else { 0int }),
                forall|i: int|
                    0 <= i < positions@.len() ==> #[trigger] positions@[i] == square(
                        if i < self.file() {
                            i
                        } else {
                            i + 1
                        },
                        self.rank(),
                    ),
                forall|i: int| 0 <= i < positions@.len() ==> (#[trigger] positions@[i]).on_board(),
                forall|q: CBPosition| #[trigger]
                    positions@.contains(q) <==> (q.on_board() && q.row == self.row && q != *self
                        && q.file() < f),
            decreases 8 - f,
        {
            let p = CBPosition { col: (97u8 + f) as char, row: self.row };
            assert(p == square(f as int, self.rank()));
            let ghost prev = positions@;
            if p != *self {
                positions.push(p);
            }
            proof {
                assert forall|q: CBPosition| #[trigger]
                    positions@.contains(q) <==> (q.on_board() && q.row == self.row && q != *self
                        && q.file() < f + 1) by {
                    lemma_push_contains(prev, p, p != *self, positions@, q);
                    if q.file() == f && q.row == self.row {
                        assert(q == p);
                    }
                }
            }
            f = f + 1;
        }
        proof {
            assert forall|i: int, j: int|
                0 <= i < positions@.len() && 0 <= j < positions@.len() && i != j implies positions@[i]
                != positions@[j] by {
                assert(positions@[i].file() != positions@[j].file());
            }
        }
        positions
    }

    /// Every square on the two diagonals through this one, this one left out.
    pub fn get_diagonals(&self) -> (r: Vec<CBPosition>)
        requires
            self.on_board(),
        ensures
            forall|i: int| 0 <= i < r@.len() ==> (#[trigger] r@[i]).on_board(),
            forall|q: CBPosition| #[trigger]
                r@.contains(q) <==> (q.on_board() && q != *self && abs(q.file() - self.file())
                    == abs(q.rank() - self.rank())),
            r@.no_duplicates(),
    {
        let mut positions: Vec<CBPosition> = Vec::new();
        let mut ne = self.beyond(Direction::NorthEast);
        let mut nw = self.beyond(Direction::NorthWest);
        let mut se = self.beyond(Direction::SouthEast);
        let mut sw = self.beyond(Direction::SouthWest);
        let ghost (a, b, c, d) = (ne@, nw@, se@, sw@);
        positions.append(&mut ne);
        positions.append(&mut nw);
        positions.append(&mut se);
        positions.append(&mut sw);
        proof {
            assert(positions@ == a + b + c + d);
            lemma_ray_no_duplicates(*self, Direction::NorthEast, a);
            lemma_ray_no_duplicates(*self, Direction::NorthWest, b);
            lemma_ray_no_duplicates(*self, Direction::SouthEast, c);
            lemma_ray_no_duplicates(*self, Direction::SouthWest, d);
            assert forall|i: int, j: int| 0 <= i < a.len() && 0 <= j < b.len() implies a[i] != b[j] by {
                assert(self.on_ray(Direction::NorthEast, a[i]) && self.on_ray(Direction::NorthWest, b[j]));
            }
            lemma_concat_no_duplicates(a, b);
            assert forall|i: int, j: int| 0 <= i < (a + b).len() && 0 <= j < c.len() implies (a + b)[i]
                != c[j] by {
                assert(self.on_ray(Direction::SouthEast, c[j]));
                if i < a.len() {
                    assert((a + b)[i] == a[i] && self.on_ray(Direction::NorthEast, a[i]));
                } else {
                    assert((a + b)[i] == b[i - a.len()] && self.on_ray(
                        Direction::NorthWest,
                        b[i - a.len()],
                    ));
                }
            }
            lemma_concat_no_duplicates(a + b, c);
            assert forall|i: int, j: int| 0 <= i < (a + b + c).len() && 0 <= j < d.len() implies (a + b
                + c)[i] != d[j] by {
                assert(self.on_ray(Direction::SouthWest, d[j]));
                if i < a.len() {
                    assert((a + b + c)[i] == a[i] && self.on_ray(Direction::NorthEast, a[i]));
                } else if i < a.len() + b.len() {
                    assert((a + b + c)[i] == b[i - a.len()] && self.on_ray(
                        Direction::NorthWest,
                        b[i - a.len()],
                    ));
                } else {
                    assert((a + b + c)[i] == c[i - a.len() - b.len()] && self.on_ray(
                        Direction::SouthEast,
                        c[i - a.len() - b.len()],
                    ));
                }
            }
            lemma_concat_no_duplicates(a + b + c, d);
            assert forall|q: CBPosition| #[trigger]
                positions@.contains(q) <==> (q.on_board() && q != *self && abs(
                    q.file() - self.file(),
                ) == abs(q.rank() - self.rank())) by {
                if positions@.contains(q) {
                    let k = choose|k: int| 0 <= k < positions@.len() && positions@[k] == q;
                    if k < a.len() {
                        assert(a.contains(q));
                    } else if k < a.len() + b.len() {
                        assert(b[k - a.len()] == q);
                        assert(b.contains(q));
                    } else if k < a.len() + b.len() + c.len() {
                        assert(c[k - a.len() - b.len()] == q);
                        assert(c.contains(q));
                    } else {
                        assert(d[k - a.len() - b.len() - c.len()] == q);
                        assert(d.contains(q));
                    }
                }
                if q.on_board() && q != *self && abs(q.file() - self.file()) == abs(
                    q.rank() - self.rank(),
                ) {
                    if self.on_ray(Direction::NorthEast, q) {
                        assert(a.contains(q));
                        let k = choose|k: int| 0 <= k < a.len() && a[k] == q;
                        assert(positions@[k] == q);
                    } else if self.on_ray(Direction::NorthWest, q) {
                        assert(b.contains(q));
                        let k = choose|k: int| 0 <= k < b.len() && b[k] == q;
                        assert(positions@[a.len() + k] == q);
                    } else if self.on_ray(Direction::SouthEast, q) {
                        assert(c.contains(q));
                        let k = choose|k: int| 0 <= k < c.len() && c[k] == q;
                        assert(positions@[a.len() + b.len() + k] == q);
                    } else {
                        assert(self.on_ray(Direction::SouthWest, q));
                        assert(d.contains(q));
                        let k = choose|k: int| 0 <= k < d.len() && d[k] == q;
                        assert(positions@[a.len() + b.len() + c.len() + k] == q);
                    }
                }
            }
        }
        positions
    }

    /// The square `row_offset` ranks and `col_offset` files away, if it is on the board.
    pub fn get_offset(&self, row_offset: isize, col_offset: isize) -> (r: Option<CBPosition>)
        ensures
            r == offset_spec(*self, row_offset as int, col_offset as int),
            r matches Some(q) ==> q.on_board(),
    {
        let new_row: i128 = self.row as i128 + row_offset as i128;
        let new_col: i128 = self.col as u32 as i128 + col_offset as i128;
        if new_col < 97 || new_col > 104 || new_row > 8 || new_row < 1 {
            None
        } else {
            Some(CBPosition { row: new_row as usize, col: (new_col as u8) as char })
        }
    }

    /// The squares that each (rank, file) offset reaches, in order, leaving out those
    /// that fall off the board.
    pub fn get_offsets(&self, offsets: Vec<(isize, isize)>) -> (r: Vec<CBPosition>)
        ensures
            r@ == offsets_spec(*self, offsets@),
            forall|i: int| 0 <= i < r@.len() ==> (#[trigger] r@[i]).on_board(),
    {
        let mut positions: Vec<CBPosition> = Vec::new();
        let mut i: usize = 0;
        while i < offsets.len()
            invariant
                i <= offsets@.len(),
                positions@ == offsets_spec(*self, offsets@.subrange(0, i as int)),
            decreases offsets@.len() - i,
        {
            let (row_offset, col_offset) = offsets[i];
            proof {
                assert(offsets@.subrange(0, i + 1).drop_last() == offsets@.subrange(0, i as int));
            }
            if let Some(pos) = self.get_offset(row_offset, col_offset) {
                positions.push(pos);
            }
            i = i + 1;
        }
        proof {
            assert(offsets@.subrange(0, offsets@.len() as int) == offsets@);
            lemma_offsets_on_board(*self, offsets@);
        }
        positions
    }

    /// The squares a king step away.
    pub fn get_adjacents(&self) -> (r: Vec<CBPosition>)
        ensures
            forall|i: int| 0 <= i < r@.len() ==> (#[trigger] r@[i]).on_board(),
            forall|q: CBPosition| #[trigger] r@.contains(q) <==> self.adjacent(q),
            r@.no_duplicates(),
    {
        let offsets = vec![(1, 0), (0, 1), (1, 1), (-1, 0), (0, -1), (-1, -1), (-1, 1), (1, -1)];
        proof {
            assert(offsets@.no_duplicates());
            lemma_offsets_no_duplicates(*self, offsets@);
        }
        let r = self.get_offsets(offsets);
        proof {
            reveal_with_fuel(offsets_spec, 9);
            lemma_offsets_on_board(*self, offsets@);
            assert forall|q: CBPosition| #[trigger] r@.contains(q) <==> self.adjacent(q) by {
                lemma_offsets_contains(*self, offsets@, q);
                if self.adjacent(q) {
                    let df = q.file() - self.file();
                    let dr = q.rank() - self.rank();
                    let j: int = if dr == 1 && df == 0 {
                        0
                    } else if dr == 0 && df == 1 {
                        1
                    } else if dr == 1 && df == 1 {
                        2
                    } else if dr == -1 && df == 0 {
                        3
                    } else if dr == 0 && df == -1 {
                        4
                    } else if dr == -1 && df == -1 {
                        5
                    } else if dr == -1 && df == 1 {
                        6
                    } else {
                        7
                    };
                    assert(offset_spec(*self, offsets@[j].0 as int, offsets@[j].1 as int) == Some(
                        q,
                    ));
                }
            }
        }
        r
    }

    /// The squares a knight jump away.
    pub fn get_knight_moves(&self) -> (r: Vec<CBPosition>)
        ensures
            forall|i: int| 0 <= i < r@.len() ==> (#[trigger] r@[i]).on_board(),
            forall|q: CBPosition| #[trigger] r@.contains(q) <==> self.knight_jump(q),
            r@.no_duplicates(),
    {
        let offsets = vec![(1, 2), (2, 1), (2, -1), (1, -2), (-2, -1), (-1, -2), (-1, 2), (-2, 1)];
        proof {
            assert(offsets@.no_duplicates());
            lemma_offsets_no_duplicates(*self, offsets@);
        }
        let r = self.get_offsets(offsets);
        proof {
            lemma_offsets_on_board(*self, offsets@);
            assert forall|q: CBPosition| #[trigger] r@.contains(q) <==> self.knight_jump(q) by {
                lemma_offsets_contains(*self, offsets@, q);
                if self.knight_jump(q) {
                    let df = q.file() - self.file();
                    let dr = q.rank() - self.rank();
                    let j: int = if dr == 1 && df == 2 {
                        0
                    } else if dr == 2 && df == 1 {
                        1
                    } else if dr == 2 && df == -1 {
                        2
                    } else if dr == 1 && df == -2 {
                        3
                    } else if dr == -2 && df == -1 {
                        4
                    } else if dr == -1 && df == -2 {
                        5
                    } else if dr == -1 && df == 2 {
                        6
                    } else {
                        7
                    };
                    assert(offset_spec(*self, offsets@[j].0 as int, offsets@[j].1 as int) == Some(
                        q,
                    ));
                }
            }
        }
        r
    }

    /// Appends `new_pos` to `vec` when a piece stands on it.
    pub fn push_if_occupied(vec: &mut Vec<CBPosition>, new_pos: CBPosition, board: &Board)
        requires
            board.wf(),
            new_pos.on_board(),
        ensures
            final(vec)@ == if board@[new_pos.index()] is Some {
                old(vec)@.push(new_pos)
            } else {
                old(vec)@
            },
    {
        if board.get(new_pos).is_some() {
            vec.push(new_pos)
        }
    }

    /// The squares beyond this one in direction `dir`, nearest first, up to the edge.
    pub fn beyond(&self, dir: Direction) -> (r: Vec<CBPosition>)
        requires
            self.on_board(),
        ensures
            self.is_ray(dir, r@),
    {
        match dir {
            Direction::North => Self::north_of(&self),
            Direction::NorthEast => Self::northeast_of(&self),
            Direction::East => Self::east_of(&self),
            Direction::SouthEast => Self::southeast_of(&self),
            Direction::South => Self::south_of(&self),
            Direction::SouthWest => Self::southwest_of(&self),
            Direction::West => Self::west_of(&self),
            Direction::NorthWest => Self::northwest_of(&self),
        }
    }

    fn walk(pos: &CBPosition, dir: Direction) -> (r: Vec<CBPosition>)
        requires
            pos.on_board(),
        ensures
            pos.is_ray(dir, r@),
    {
        let (dr, df) = dir.steps();
        let mut positions: Vec<CBPosition> = Vec::new();
        let mut cur = *pos;
        loop
            invariant
                dr == dir.rank_step(),
                df == dir.file_step(),
                pos.on_board(),
                cur.on_board(),
                positions@.len() <= pos.ray_len(dir),
                cur.file() == pos.file() + positions@.len() * dir.file_step(),
                cur.rank() == pos.rank() + positions@.len() * dir.rank_step(),
                forall|i: int|
                    0 <= i < positions@.len() ==> {
                        &&& (#[trigger] positions@[i]).on_board()
                        &&& positions@[i].file() == pos.file() + (i + 1) * dir.file_step()
                        &&& positions@[i].rank() == pos.rank() + (i + 1) * dir.rank_step()
                    },
            ensures
                positions@.len() == pos.ray_len(dir),
                forall|i: int|
                    0 <= i < positions@.len() ==> {
                        &&& (#[trigger] positions@[i]).on_board()
                        &&& positions@[i].file() == pos.file() + (i + 1) * dir.file_step()
                        &&& positions@[i].rank() == pos.rank() + (i + 1) * dir.rank_step()
                    },
            decreases pos.ray_len(dir) - positions@.len(),
        {
            let ghost n = positions@.len() as int;
            proof {
                lemma_step_mul(n, dir);
            }
            match cur.get_offset(dr, df) {
                Some(new_pos) => {
                    positions.push(new_pos);
                    cur = new_pos;
                    proof {
                        lemma_step_mul(n + 1, dir);
                        assert(positions@[n] == new_pos);
                    }
                },
                None => {
                    break ;
                },
            }
        }
        proof {
            lemma_walk_is_ray(*pos, dir, positions@);
        }
        positions
    }

    /// The squares east of `pos`, nearest first.
    pub fn east_of(pos: &CBPosition) -> (r: Vec<CBPosition>)
        requires
            pos.on_board(),
        ensures
            pos.is_ray(Direction::East, r@),
    {
        Self::walk(pos, Direction::East)
    }

    /// The squares north of `pos`, nearest first.
    pub fn north_of(pos: &CBPosition) -> (r: Vec<CBPosition>)
        requires
            pos.on_board(),
        ensures
            pos.is_ray(Direction::North, r@),
    {
        Self::walk(pos, Direction::North)
    }

    /// The squares south of `pos`, nearest first.
    pub fn south_of(pos: &CBPosition) -> (r: Vec<CBPosition>)
        requires
            pos.on_board(),
        ensures
            pos.is_ray(Direction::South, r@),
    {
        Self::walk(pos, Direction::South)
    }

    /// The squares west of `pos`, nearest first.
    pub fn west_of(pos: &CBPosition) -> (r: Vec<CBPosition>)
        requires
            pos.on_board(),
        ensures
            pos.is_ray(Direction::West, r@),
    {
        Self::walk(pos, Direction::West)
    }

    /// The squares north-east of `pos`, nearest first.
    pub fn northeast_of(pos: &CBPosition) -> (r: Vec<CBPosition>)
        requires
            pos.on_board(),
        ensures
            pos.is_ray(Direction::NorthEast, r@),
    {
        Self::walk(pos, Direction::NorthEast)
    }

    /// The squares south-east of `pos`, nearest first.
    pub fn southeast_of(pos: &CBPosition) -> (r: Vec<CBPosition>)
        requires
            pos.on_board(),
        ensures
            pos.is_ray(Direction::SouthEast, r@),
    {
        Self::walk(pos, Direction::SouthEast)
    }

    /// The squares north-west of `pos`, nearest first.
    pub fn northwest_of(pos: &CBPosition) -> (r: Vec<CBPosition>)
        requires
            pos.on_board(),
        ensures
            pos.is_ray(Direction::NorthWest, r@),
    {
        Self::walk(pos, Direction::NorthWest)
    }

    /// The squares south-west of `pos`, nearest first.
    pub fn southwest_of(pos: &CBPosition) -> (r: Vec<CBPosition>)
        requires
            pos.on_board(),
        ensures
            pos.is_ray(Direction::SouthWest, r@),
    {
        Self::walk(pos, Direction::SouthWest)
    }

    /// Moves one file towards h, staying put on file h.
    pub fn move_cursor_right(&mut self)
        requires
            old(self).on_board(),
        ensures
            final(self).on_board(),
            final(self).row == old(self).row,
            final(self).file() == if old(self).file() < 7 {
                old(self).file() + 1
            } else {
                old(self).file()
            },
    {
        let new_col = char_add(self.col, 1);
        if new_col > 'h' {
            return ;
        }
        self.col = new_col
    }

    /// Moves one file towards a, staying put on file a.
    pub fn move_cursor_left(&mut self)
        requires
            old(self).on_board(),
        ensures
            final(self).on_board(),
            final(self).row == old(self).row,
            final(self).file() == if old(self).file() > 0 {
                old(self).file() - 1
            } else {
                old(self).file()
            },
    {
        let new_col = char_sub(self.col, 1);
        if 'a' > new_col {
            return ;
        }
        self.col = new_col
    }

    /// Moves one rank towards 1, staying put on rank 1.
    pub fn move_cursor_down(&mut self)
        requires
            old(self).on_board(),
        ensures
            final(self).on_board(),
            final(self).col == old(self).col,
            final(self).row == if old(self).row > 1 {
                old(self).row - 1
            } else {
                old(self).row as int
            },
    {
        if self.row == 1 {
            return ;
        }
        self.row = self.row - 1
    }

    /// Moves one rank towards 8, staying put on rank 8.
    pub fn move_cursor_up(&mut self)
        requires
            old(self).on_board(),
        ensures
            final(self).on_board(),
            final(self).col == old(self).col,
            final(self).row == if old(self).row < 8 {
                old(self).row + 1
            } else {
                old(self).row as int
            },
    {
        if self.row == 8 {
            return ;
        }
        self.row = self.row + 1
    }

    /// Manhattan distance: files apart plus ranks apart.
    pub fn positional_difference(&self, other: &CBPosition) -> (r: usize)
        requires
            self.on_board(),
            other.on_board(),
        ensures
            r == abs(self.file() - other.file()) + abs(self.rank() - other.rank()),
    {
        let col_diff: i64 = self.col as u32 as i64 - other.col as u32 as i64;
        let row_diff: i64 = self.row as i64 - other.row as i64;
        let a: i64 = if col_diff < 0 { -col_diff } else { col_diff };
        let b: i64 = if row_diff < 0 { -row_diff } else { row_diff };
        (a + b) as usize
    }
}

proof fn lemma_step_mul(n: int, d: Direction)
    ensures
        n * d.file_step() == if d.file_step() == 1 {
            n
        } else if d.file_step() == -1 {
            -n
        } else {
            0
        },
        n * d.rank_step() == if d.rank_step() == 1 {
            n
        } else if d.rank_step() == -1 {
            -n
        } else {
            0
        },
{
    assert(n * 1 == n && n * -1 == -n && n * 0 == 0) by (nonlinear_arith);
}

proof fn lemma_walk_is_ray(pos: CBPosition, d: Direction, s: Seq<CBPosition>)
    requires
        pos.on_board(),
        s.len() == pos.ray_len(d),
        forall|i: int|
            0 <= i < s.len() ==> {
                &&& (#[trigger] s[i]).on_board()
                &&& s[i].file() == pos.file() + (i + 1) * d.file_step()
                &&& s[i].rank() == pos.rank() + (i + 1) * d.rank_step()
            },
    ensures
        pos.is_ray(d, s),
{
    assert forall|i: int| 0 <= i < s.len() implies pos.on_ray(d, #[trigger] s[i])
        && pos.steps_to(s[i]) == i + 1 by {
        lemma_step_mul(i + 1, d);
    }
    assert forall|q: CBPosition| #[trigger]
        s.contains(q) <==> (q.on_board() && pos.on_ray(d, q)) by {
        if s.contains(q) {
            let k = choose|k: int| 0 <= k < s.len() && s[k] == q;
            lemma_step_mul(k + 1, d);
        }
        if q.on_board() && pos.on_ray(d, q) {
            let k = pos.steps_to(q) - 1;
            lemma_step_mul(k + 1, d);
            assert(s[k].file() == q.file() && s[k].rank() == q.rank());
            assert(s[k] == q);
        }
    }
}

proof fn lemma_offsets_on_board(p: CBPosition, offs: Seq<(isize, isize)>)
    ensures
        forall|i: int|
            0 <= i < offsets_spec(p, offs).len() ==> (#[trigger] offsets_spec(p, offs)[i]).on_board(),
    decreases offs.len(),
{
    if offs.len() > 0 {
        lemma_offsets_on_board(p, offs.drop_last());
        let prev = offsets_spec(p, offs.drop_last());
        match offset_spec(p, offs.last().0 as int, offs.last().1 as int) {
            Some(q) => {
                assert(q.on_board());
                assert forall|i: int| 0 <= i < prev.push(q).len() implies (#[trigger] prev.push(
                    q,
                )[i]).on_board() by {
                    if i < prev.len() {
                        assert(prev.push(q)[i] == prev[i]);
                    }
                }
            },
            None => {},
        }
    }
}

/// Going on in the same direction stays on the ray.
pub proof fn lemma_ray_trans(s: CBPosition, d: Direction, y: CBPosition, q: CBPosition)
    requires
        s.on_ray(d, y),
        y.on_ray(d, q),
    ensures
        s.on_ray(d, q),
{
}

/// Of two squares on one ray, the nearer one is the other or lies before it.
pub proof fn lemma_ray_order(s: CBPosition, d: Direction, x: CBPosition, y: CBPosition)
    requires
        s.on_ray(d, x),
        s.on_ray(d, y),
        s.steps_to(x) <= s.steps_to(y),
    ensures
        x == y || x.on_ray(d, y),
{
    if x.file() == y.file() && x.rank() == y.rank() {
        assert(x.col == y.col);
    }
}

/// Two offsets that land on the same square are the same offset.
proof fn lemma_offsets_no_duplicates(p: CBPosition, offs: Seq<(isize, isize)>)
    requires
        offs.no_duplicates(),
    ensures
        offsets_spec(p, offs).no_duplicates(),
    decreases offs.len(),
{
    if offs.len() > 0 {
        let init = offs.drop_last();
        assert forall|i: int, j: int| 0 <= i < init.len() && 0 <= j < init.len() && i != j implies init[i]
            != init[j] by {
            assert(init[i] == offs[i] && init[j] == offs[j]);
        }
        lemma_offsets_no_duplicates(p, init);
        let prev = offsets_spec(p, init);
        let last = offs.last();
        match offset_spec(p, last.0 as int, last.1 as int) {
            Some(x) => {
                if prev.contains(x) {
                    lemma_offsets_contains(p, init, x);
                    let j = choose|j: int|
                        0 <= j < init.len() && offset_spec(p, #[trigger] init[j].0 as int, init[j].1 as int)
                            == Some(x);
                    assert(init[j].0 == last.0 && init[j].1 == last.1);
                    assert(offs[j] == offs[offs.len() - 1]);
                }
                lemma_push_no_duplicates(prev, x);
            },
            None => {},
        }
    }
}

/// A ray holds each square once.
pub proof fn lemma_ray_no_duplicates(s: CBPosition, d: Direction, r: Seq<CBPosition>)
    requires
        s.is_ray(d, r),
    ensures
        r.no_duplicates(),
{
    assert forall|i: int, j: int| 0 <= i < r.len() && 0 <= j < r.len() && i != j implies r[i] != r[j] by {
        assert(s.steps_to(r[i]) == i + 1 && s.steps_to(r[j]) == j + 1);
    }
}

/// Joining two duplicate-free sequences with no value in common gives a duplicate-free one.
pub proof fn lemma_concat_no_duplicates<T>(a: Seq<T>, b: Seq<T>)
    requires
        a.no_duplicates(),
        b.no_duplicates(),
        forall|i: int, j: int| 0 <= i < a.len() && 0 <= j < b.len() ==> a[i] != b[j],
    ensures
        (a + b).no_duplicates(),
{
    let c = a + b;
    assert forall|i: int, j: int| 0 <= i < c.len() && 0 <= j < c.len() && i != j implies c[i] != c[j] by {
        if i < a.len() && j < a.len() {
            assert(c[i] == a[i] && c[j] == a[j]);
        } else if i < a.len() {
            assert(c[i] == a[i] && c[j] == b[j - a.len()]);
        } else if j < a.len() {
            assert(c[j] == a[j] && c[i] == b[i - a.len()]);
        } else {
            assert(c[i] == b[i - a.len()] && c[j] == b[j - a.len()]);
        }
    }
}

/// Pushing a value that is not there yet keeps a sequence free of duplicates.
pub proof fn lemma_push_no_duplicates<T>(s: Seq<T>, x: T)
    requires
        s.no_duplicates(),
        !s.contains(x),
    ensures
        s.push(x).no_duplicates(),
{
    let t = s.push(x);
    assert forall|i: int, j: int| 0 <= i < t.len() && 0 <= j < t.len() && i != j implies t[i] != t[j] by {
        if i < s.len() && j < s.len() {
            assert(t[i] == s[i] && t[j] == s[j]);
        } else if i < s.len() {
            assert(t[i] == s[i]);
        } else {
            assert(t[j] == s[j]);
        }
    }
}

/// Membership in a sequence that may have had one value pushed onto it.
pub proof fn lemma_push_contains<T>(prev: Seq<T>, x: T, pushed: bool, s: Seq<T>, q: T)
    requires
        s == if pushed {
            prev.push(x)
        } else {
            prev
        },
    ensures
        s.contains(q) <==> (prev.contains(q) || (pushed && q == x)),
{
    if pushed {
        if s.contains(q) && q != x {
            let k = choose|k: int| 0 <= k < s.len() && s[k] == q;
            assert(prev[k] == q);
        }
        if prev.contains(q) {
            let k = choose|k: int| 0 <= k < prev.len() && prev[k] == q;
            assert(s[k] == q);
        }
        if q == x {
            assert(s[prev.len() as int] == x);
        }
    }
}

proof fn lemma_offsets_contains(p: CBPosition, offs: Seq<(isize, isize)>, q: CBPosition)
    ensures
        offsets_spec(p, offs).contains(q) <==> exists|j: int|
            0 <= j < offs.len() && offset_spec(p, #[trigger] offs[j].0 as int, offs[j].1 as int)
                == Some(q),
    decreases offs.len(),
{
    if offs.len() > 0 {
        let init = offs.drop_last();
        lemma_offsets_contains(p, init, q);
        let prev = offsets_spec(p, init);
        if offsets_spec(p, offs).contains(q) {
            match offset_spec(p, offs.last().0 as int, offs.last().1 as int) {
                Some(x) => {
                    if x != q {
                        let k = choose|k: int|
                            0 <= k < prev.push(x).len() && prev.push(x)[k] == q;
                        assert(prev[k] == q);
                        let j = choose|j: int|
                            0 <= j < init.len() && offset_spec(
                                p,
                                #[trigger] init[j].0 as int,
                                init[j].1 as int,
                            ) == Some(q);
                        assert(offs[j] == init[j]);
                    } else {
                        assert(offs[offs.len() - 1] == offs.last());
                    }
                },
                None => {
                    let j = choose|j: int|
                        0 <= j < init.len() && offset_spec(
                            p,
                            #[trigger] init[j].0 as int,
                            init[j].1 as int,
                        ) == Some(q);
                    assert(offs[j] == init[j]);
                },
            }
        }
        if exists|j: int|
            0 <= j < offs.len() && offset_spec(p, #[trigger] offs[j].0 as int, offs[j].1 as int)
                == Some(q) {
            let j = choose|j: int|
                0 <= j < offs.len() && offset_spec(p, #[trigger] offs[j].0 as int, offs[j].1 as int)
                    == Some(q);
            if j < offs.len() - 1 {
                assert(init[j] == offs[j]);
                assert(prev.contains(q));
                let k = choose|k: int| 0 <= k < prev.len() && prev[k] == q;
                match offset_spec(p, offs.last().0 as int, offs.last().1 as int) {
                    Some(x) => {
                        assert(prev.push(x)[k] == q);
                    },
                    None => {},
                }
            } else {
                match offset_spec(p, offs.last().0 as int, offs.last().1 as int) {
                    Some(x) => {
                        assert(prev.push(x)[prev.len() as int] == q);
                    },
                    None => {},
                }
            }
        }
    }
}

/// Advances a character code by `i`.
pub fn char_add(c: char, i: u8) -> (r: char)
    requires
        c as int + i as int <= 255,
    ensures
        r as int == c as int + i as int,
{
    ((c as u8) + i) as char
}

/// Moves a character code back by `i`.
pub fn char_sub(c: char, i: u8) -> (r: char)
    requires
        c as int <= 255,
        c as int >= i as int,
    ensures
        r as int == c as int - i as int,
{
    ((c as u8) - i) as char
}

/// Appends the value held by `new_obj`, if any.
pub fn push_if_exists<T>(vec: &mut Vec<T>, new_obj: Option<T>)
    ensures
        final(vec)@ == match new_obj {
            Some(t) => old(vec)@.push(t),
            None => old(vec)@,
        },
{
    match new_obj {
        Some(t) => vec.push(t),
        None => (),
    }
}

} // verus!
