//! The state of a match and its single mutating operation, `play`: legal
//! pawn moves (jumps included), wall placement under the reachability rule,
//! turn order and the move log.
use crate::board::{
    can_reach, cell, dpos, has, in_area, in_board, in_wall_grid, off_x, off_y, opens,
    with_wall, Colour, Dir, Grid, WallTable, H, W, WALL_LIMIT,
};
use crate::codec::{lemma_wall_list_add, lemma_wall_list_none, wall_list};
use crate::command::Command;
use vstd::prelude::*;

verus! {

/// Why a command was refused.
#[derive(Clone, Copy, PartialEq, Eq, Debug, Structural)]
pub enum PlayError {
    /// The player to move has placed all of their walls.
    NoWallsRemaining,
    /// The wall cell lies off the wall grid.
    OutOfBounds,
    /// The wall cell, or a collinear neighbour, already holds a segment.
    AlreadyBuilt,
    /// The wall would cut a pawn off from its goal row.
    Unreachable,
    /// The target of a move lies off the board.
    PositionOutOfBounds,
    /// The target of a move is not among the legal moves.
    IllegalMove,
}

/// The reason sent back to the player whose command was refused.
pub open spec fn reason(e: PlayError) -> &'static str {
    match e {
        PlayError::NoWallsRemaining => "You have no wall",
        PlayError::OutOfBounds => "Put position is out of bounds",
        PlayError::AlreadyBuilt => "Wall has already built",
        PlayError::Unreachable => "Unreachable",
        PlayError::PositionOutOfBounds => "Position is out of bounds",
        PlayError::IllegalMove => "illegal move",
    }
}

impl PlayError {
    /// The reason sent back to the player whose command was refused.
    pub fn message(&self) -> (r: &'static str)
        ensures
            r == reason(*self),
    {
        match self {
            PlayError::NoWallsRemaining => "You have no wall",
            PlayError::OutOfBounds => "Put position is out of bounds",
            PlayError::AlreadyBuilt => "Wall has already built",
            PlayError::Unreachable => "Unreachable",
            PlayError::PositionOutOfBounds => "Position is out of bounds",
            PlayError::IllegalMove => "illegal move",
        }
    }
}

/// An entry of the move log: a pawn step by direction code, or a wall.
#[derive(Clone, Copy, PartialEq, Eq, Debug, Structural)]
pub enum Record {
    Piece(u8),
    Wall(usize, usize, Dir),
}

/// A log entry that the history format can carry.
pub open spec fn record_ok(r: Record) -> bool {
    match r {
        Record::Piece(c) => c < 8,
        Record::Wall(y, x, _) => in_wall_grid(y as int, x as int),
    }
}

/// A match in progress. Cells are given as (row, column).
pub struct Quoridor {
    /// The wall segments placed so far.
    pub table: WallTable,
    /// White's pawn; White heads for row 0.
    pub white: (usize, usize),
    /// Black's pawn; Black heads for the last row.
    pub black: (usize, usize),
    /// White is to move.
    pub is_white_turn: bool,
    /// The wall cell of the last command, when it placed a wall.
    pub last_move: Option<(usize, usize)>,
    /// The number of the current turn, from 1.
    pub turn_num: u16,
    /// Walls that White may still place.
    pub white_wall_num: usize,
    /// Walls that Black may still place.
    pub black_wall_num: usize,
    /// Every command carried out, in order.
    pub record: Vec<Record>,
}

/// Where a pawn lands when it leaves `me` in direction `k` toward an open
/// cell: that cell; or, when the opponent `op` stands there, the cell behind
/// `op` if `op` can step on to it, else any cell next to `op` but `me`.
pub open spec fn move_via(g: Grid, me: (int, int), op: (int, int), k: int, p: (int, int)) -> bool {
    let n = (me.0 + off_y(k), me.1 + off_x(k));
    if n != op {
        p == n
    } else if opens(g, op.0, op.1, k) {
        p == (op.0 + off_y(k), op.1 + off_x(k))
    } else {
        side_step(g, me, op, p)
    }
}

/// `p` is a cell next to `op`, reached from it through no wall, other than `me`.
pub open spec fn side_step(g: Grid, me: (int, int), op: (int, int), p: (int, int)) -> bool {
    exists|k: int|
        0 <= k < 4 && #[trigger] opens(g, op.0, op.1, k) && p == (op.0 + off_y(k), op.1 + off_x(k))
            && p != me
}

/// The pawn at `me` may move to `p` when the opponent stands at `op`.
pub open spec fn legal_target(g: Grid, me: (int, int), op: (int, int), p: (int, int)) -> bool {
    exists|k: int| 0 <= k < 4 && #[trigger] opens(g, me.0, me.1, k) && move_via(g, me, op, k, p)
}

/// `(a, b)` stands in `s`.
pub open spec fn has_move(s: Seq<(usize, usize)>, a: int, b: int) -> bool {
    exists|i: int| 0 <= i < s.len() && (#[trigger] s[i]).0 as int == a && s[i].1 as int == b
}

/// A collinear neighbour of wall cell `(y, x)` holds a segment of the same
/// orientation.
pub open spec fn collinear_conflict(g: Grid, y: int, x: int, dir: Dir) -> bool {
    match dir {
        Dir::Horizontal => has(g, y, x - 1, Dir::Horizontal) || has(g, y, x + 1, Dir::Horizontal),
        Dir::Vertical => has(g, y - 1, x, Dir::Vertical) || has(g, y + 1, x, Dir::Vertical),
    }
}

/// A step of 2 along an axis is logged as a step of 1.
pub open spec fn collapse(d: int) -> int {
    if d == 2 {
        1
    } else if d == -2 {
        -1
    } else {
        d
    }
}

/// The code of a step by `(dy, dx)`, measured from the target to the origin:
/// 0 up, 1 up-left, 2 left, 3 down-left, 4 down, 5 down-right, 6 right,
/// 7 up-right; 8 for no step.
pub open spec fn dir_code(dy: int, dx: int) -> u8 {
    if dy == -1 {
        if dx == -1 {
            3
        } else if dx == 0 {
            4
        } else {
            5
        }
    } else if dy == 0 {
        if dx == -1 {
            2
        } else if dx == 0 {
            8
        } else {
            6
        }
    } else {
        if dx == -1 {
            1
        } else if dx == 0 {
            0
        } else {
            7
        }
    }
}

/// The log code of a pawn move from `from` to `to`.
pub open spec fn move_code(from: (int, int), to: (int, int)) -> u8 {
    dir_code(collapse(from.0 - to.0), collapse(from.1 - to.1))
}

proof fn lemma_has_move_push(s: Seq<(usize, usize)>, e: (usize, usize))
    ensures
        forall|a: int, b: int|
            #[trigger] has_move(s.push(e), a, b) == (has_move(s, a, b) || (e.0 == a && e.1 == b)),
{
    let t = s.push(e);
    assert forall|a: int, b: int| #[trigger] has_move(t, a, b) == (has_move(s, a, b) || (e.0 == a && e.1 == b)) by {
        if has_move(s, a, b) {
            let i = choose|i: int| 0 <= i < s.len() && (#[trigger] s[i]).0 as int == a && s[i].1 as int == b;
            assert(t[i] == s[i]);
        }
        if e.0 == a && e.1 == b {
            assert(t[s.len() as int] == e);
        }
        if has_move(t, a, b) {
            let i = choose|i: int| 0 <= i < t.len() && (#[trigger] t[i]).0 as int == a && t[i].1 as int == b;
            if i < s.len() {
                assert(t[i] == s[i]);
            }
        }
    }
}

/// A legal move leaves the origin by at most two cells along each axis and
/// its log code is a step code.
proof fn lemma_move_code_ok(g: Grid, me: (int, int), op: (int, int), p: (int, int))
    requires
        legal_target(g, me, op, p),
    ensures
        -2 <= me.0 - p.0 <= 2,
        -2 <= me.1 - p.1 <= 2,
        move_code(me, p) < 8,
{
    let k = choose|k: int| 0 <= k < 4 && #[trigger] opens(g, me.0, me.1, k) && move_via(g, me, op, k, p);
    let n = (me.0 + off_y(k), me.1 + off_x(k));
    if n == op && !opens(g, op.0, op.1, k) {
        let k2 = choose|k2: int|
            0 <= k2 < 4 && #[trigger] opens(g, op.0, op.1, k2) && p == (op.0 + off_y(k2), op.1 + off_x(k2))
                && p != me;
    }
}

/// The log code of a step by `(dy, dx)`, each of -1, 0 and 1.
fn movedir_of(dy: i8, dx: i8) -> (r: u8)
    ensures
        r == dir_code(dy as int, dx as int),
{
    if dy == -1 {
        if dx == -1 {
            3
        } else if dx == 0 {
            4
        } else {
            5
        }
    } else if dy == 0 {
        if dx == -1 {
            2
        } else if dx == 0 {
            8
        } else {
            6
        }
    } else {
        if dx == -1 {
            1
        } else if dx == 0 {
            0
        } else {
            7
        }
    }
}

impl Quoridor {
    /// Both pawns stand on the board; each player's walls on the grid and
    /// walls still to place add up to the budget; the log and the last wall
    /// fit their encodings.
    pub open spec fn wf(&self) -> bool {
        &&& self.table.wf()
        &&& in_board(self.white.0 as int, self.white.1 as int)
        &&& in_board(self.black.0 as int, self.black.1 as int)
        &&& self.white_wall_num <= WALL_LIMIT
        &&& self.black_wall_num <= WALL_LIMIT
        &&& self.white_wall_num + wall_list(self.table@, Dir::Horizontal, Colour::White).len()
            + wall_list(self.table@, Dir::Vertical, Colour::White).len() == WALL_LIMIT
        &&& self.black_wall_num + wall_list(self.table@, Dir::Horizontal, Colour::Black).len()
            + wall_list(self.table@, Dir::Vertical, Colour::Black).len() == WALL_LIMIT
        &&& self.turn_num >= 1
        &&& forall|i: int| 0 <= i < self.record@.len() ==> record_ok(#[trigger] self.record@[i])
        &&& match self.last_move {
            Some((y, x)) => in_wall_grid(y as int, x as int),
            None => true,
        }
    }

    pub open spec fn white_pos(&self) -> (int, int) {
        (self.white.0 as int, self.white.1 as int)
    }

    pub open spec fn black_pos(&self) -> (int, int) {
        (self.black.0 as int, self.black.1 as int)
    }

    /// The pawn of the player to move.
    pub open spec fn me(&self) -> (int, int) {
        if self.is_white_turn {
            self.white_pos()
        } else {
            self.black_pos()
        }
    }

    /// The pawn of the other player.
    pub open spec fn op(&self) -> (int, int) {
        if self.is_white_turn {
            self.black_pos()
        } else {
            self.white_pos()
        }
    }

    /// The colour of the player to move.
    pub open spec fn mover(&self) -> Colour {
        if self.is_white_turn {
            Colour::White
        } else {
            Colour::Black
        }
    }

    /// Walls that the player to move may still place.
    pub open spec fn walls_left(&self) -> nat {
        if self.is_white_turn {
            self.white_wall_num as nat
        } else {
            self.black_wall_num as nat
        }
    }

    /// The player to move may move the pawn to `(a, b)`.
    pub open spec fn can_move_to(&self, a: int, b: int) -> bool {
        legal_target(self.table@, self.me(), self.op(), (a, b))
    }

    /// Whether the player to move may put a segment of orientation `dir` in
    /// wall cell `(y, x)`, and if not, why.
    pub open spec fn put_result(&self, y: int, x: int, dir: Dir) -> Result<(), PlayError> {
        let g = self.table@;
        if self.walls_left() == 0 {
            Err(PlayError::NoWallsRemaining)
        } else if !in_wall_grid(y, x) {
            Err(PlayError::OutOfBounds)
        } else if cell(g, y, x) is Some || collinear_conflict(g, y, x, dir) {
            Err(PlayError::AlreadyBuilt)
        } else if !can_reach(with_wall(g, y, x, dir, self.mover()), self.white.0 as int, self.white.1 as int, 0)
            || !can_reach(with_wall(g, y, x, dir, self.mover()), self.black.0 as int, self.black.1 as int, H - 1) {
            Err(PlayError::Unreachable)
        } else {
            Ok(())
        }
    }

    /// Whether the player to move may move the pawn to `(y, x)`, and if not, why.
    pub open spec fn move_result(&self, y: int, x: int) -> Result<(), PlayError> {
        if !in_board(y, x) {
            Err(PlayError::PositionOutOfBounds)
        } else if !self.can_move_to(y, x) {
            Err(PlayError::IllegalMove)
        } else {
            Ok(())
        }
    }

    /// A new match: White on the middle of the last row, Black on the middle
    /// of the first, no wall, White to move on turn 1.
    pub fn new() -> (r: Quoridor)
        ensures
            r.wf(),
            r.table@ == crate::board::empty_grid(),
            r.white == ((H - 1) as usize, W / 2),
            r.black == (0usize, W / 2),
            r.is_white_turn,
            r.last_move is None,
            r.turn_num == 1,
            r.white_wall_num == WALL_LIMIT,
            r.black_wall_num == WALL_LIMIT,
            r.record@.len() == 0,
    {
        let table = WallTable::new();
        proof {
            lemma_wall_list_none(table@, Dir::Horizontal, Colour::White);
            lemma_wall_list_none(table@, Dir::Vertical, Colour::White);
            lemma_wall_list_none(table@, Dir::Horizontal, Colour::Black);
            lemma_wall_list_none(table@, Dir::Vertical, Colour::Black);
        }
        Quoridor {
            table,
            white: (H - 1, W / 2),
            black: (0, W / 2),
            is_white_turn: true,
            last_move: None,
            turn_num: 1,
            white_wall_num: WALL_LIMIT,
            black_wall_num: WALL_LIMIT,
            record: Vec::new(),
        }
    }

    /// The winner, once a pawn stands on its goal row: 0 for White (row 0),
    /// 1 for Black (the last row).
    pub open spec fn winner(&self) -> Option<usize> {
        if self.white.0 == 0 {
            Some(0usize)
        } else if self.black.0 == H - 1 {
            Some(1usize)
        } else {
            None
        }
    }

    /// The winner, once a pawn stands on its goal row: 0 for White (row 0),
    /// 1 for Black (the last row).
    pub fn is_over(&self) -> (r: Option<usize>)
        ensures
            r == self.winner(),
    {
        if self.white.0 == 0 {
            Some(0)
        } else if self.black.0 == H - 1 {
            Some(1)
        } else {
            None
        }
    }

    /// The cells to which the player to move may move the pawn.
    pub fn next_moves(&self) -> (r: Vec<(usize, usize)>)
        requires
            self.wf(),
        ensures
            forall|a: int, b: int| #[trigger] has_move(r@, a, b) <==> self.can_move_to(a, b),
            forall|i: int| 0 <= i < r@.len() ==> in_board((#[trigger] r@[i]).0 as int, r@[i].1 as int),
    {
        let ghost g = self.table@;
        let (me, op) = if self.is_white_turn {
            ((self.white.0 as i8, self.white.1 as i8), (self.black.0 as i8, self.black.1 as i8))
        } else {
            ((self.black.0 as i8, self.black.1 as i8), (self.white.0 as i8, self.white.1 as i8))
        };
        let ghost mei = (me.0 as int, me.1 as int);
        let ghost opi = (op.0 as int, op.1 as int);
        assert(mei == self.me() && opi == self.op());
        let wallmoves = self.table.next_wallmoves(me.0, me.1);
        let mut moves: Vec<(usize, usize)> = Vec::new();
        let mut m: usize = 0;
        while m < wallmoves.len()
            invariant
                self.wf(),
                g == self.table@,
                mei == self.me() && opi == self.op(),
                mei == (me.0 as int, me.1 as int),
                opi == (op.0 as int, op.1 as int),
                in_board(mei.0, mei.1),
                in_board(opi.0, opi.1),
                m <= wallmoves@.len(),
                forall|k: int| 0 <= k < 4 ==> (opens(g, mei.0, mei.1, k) <==> wallmoves@.contains(k as usize)),
                forall|i: int| 0 <= i < wallmoves@.len() ==> #[trigger] wallmoves@[i] < 4 && opens(g, mei.0, mei.1, wallmoves@[i] as int),
                forall|i: int| 0 <= i < moves@.len() ==> in_board((#[trigger] moves@[i]).0 as int, moves@[i].1 as int)
                    && exists|j: int| 0 <= j < m && move_via(g, mei, opi, #[trigger] wallmoves@[j] as int, (moves@[i].0 as int, moves@[i].1 as int)),
                forall|j: int, a: int, b: int|
                    0 <= j < m && move_via(g, mei, opi, #[trigger] wallmoves@[j] as int, (a, b)) ==> #[trigger] has_move(moves@, a, b),
            decreases wallmoves@.len() - m,
        {
            let k = wallmoves[m];
            let (dy, dx) = dpos(k);
            let y = me.0 + dy;
            let x = me.1 + dx;
            let ghost before = moves@;
            if y == op.0 && x == op.1 {
                let fy = y + dy;
                let fx = x + dx;
                if !(0 <= fy && fy < H as i8 && 0 <= fx && fx < W as i8) || self.table.exist_wall(y, x, dy, dx) {
                    assert(!opens(g, opi.0, opi.1, k as int));
                    let mut k2: usize = 0;
                    while k2 < 4
                        invariant
                            self.wf(),
                            g == self.table@,
                            in_board(mei.0, mei.1),
                            in_board(opi.0, opi.1),
                            mei == (me.0 as int, me.1 as int),
                            opi == (op.0 as int, op.1 as int),
                            y == op.0 && x == op.1,
                            k2 <= 4,
                            forall|i: int| 0 <= i < moves@.len() ==> in_board((#[trigger] moves@[i]).0 as int, moves@[i].1 as int)
                                && ((exists|j: int| 0 <= j < m && move_via(g, mei, opi, #[trigger] wallmoves@[j] as int, (moves@[i].0 as int, moves@[i].1 as int)))
                                    || side_step(g, mei, opi, (moves@[i].0 as int, moves@[i].1 as int))),
                            forall|j: int, a: int, b: int|
                                0 <= j < m && move_via(g, mei, opi, #[trigger] wallmoves@[j] as int, (a, b)) ==> #[trigger] has_move(moves@, a, b),
                            forall|kk: int, a: int, b: int|
                                0 <= kk < k2 && #[trigger] opens(g, opi.0, opi.1, kk) && (a, b) == (opi.0 + off_y(kk), opi.1 + off_x(kk))
                                    && (a, b) != mei ==> #[trigger] has_move(moves@, a, b),
                        decreases 4 - k2,
                    {
                        let (dy2, dx2) = dpos(k2);
                        if !self.table.exist_wall(y, x, dy2, dx2) {
                            let y2 = y + dy2;
                            let x2 = x + dx2;
                            if !(me.0 == y2 && me.1 == x2) {
                                if 0 <= y2 && y2 < H as i8 && 0 <= x2 && x2 < W as i8 {
                                    let ghost mb = moves@;
                                    moves.push((y2 as usize, x2 as usize));
                                    proof {
                                        lemma_has_move_push(mb, (y2 as usize, x2 as usize));
                                        assert(opens(g, opi.0, opi.1, k2 as int));
                                        assert(side_step(g, mei, opi, (y2 as int, x2 as int)));
                                        assert forall|i: int| 0 <= i < moves@.len() implies in_board((#[trigger] moves@[i]).0 as int, moves@[i].1 as int)
                                            && ((exists|j: int| 0 <= j < m && move_via(g, mei, opi, #[trigger] wallmoves@[j] as int, (moves@[i].0 as int, moves@[i].1 as int)))
                                                || side_step(g, mei, opi, (moves@[i].0 as int, moves@[i].1 as int))) by {
                                            if i < mb.len() {
                                                assert(moves@[i] == mb[i]);
                                            }
                                        }
                                    }
                                }
                            }
                        }
                        k2 = k2 + 1;
                    }
                    proof {
                        assert forall|i: int| 0 <= i < moves@.len() implies
                            (exists|j: int| 0 <= j < m && move_via(g, mei, opi, #[trigger] wallmoves@[j] as int, (moves@[i].0 as int, moves@[i].1 as int)))
                            || move_via(g, mei, opi, k as int, (#[trigger] moves@[i].0 as int, moves@[i].1 as int)) by {
                            assert(in_board((moves@[i]).0 as int, moves@[i].1 as int));
                        }
                        assert forall|a: int, b: int| move_via(g, mei, opi, k as int, (a, b)) implies #[trigger] has_move(moves@, a, b) by {
                            assert(side_step(g, mei, opi, (a, b)));
                            let kk = choose|kk: int| 0 <= kk < 4 && #[trigger] opens(g, opi.0, opi.1, kk)
                                && (a, b) == (opi.0 + off_y(kk), opi.1 + off_x(kk)) && (a, b) != mei;
                        }
                    }
                } else {
                    assert(opens(g, opi.0, opi.1, k as int));
                    moves.push((fy as usize, fx as usize));
                    proof {
                        lemma_has_move_push(before, (fy as usize, fx as usize));
                        assert forall|i: int| 0 <= i < moves@.len() implies
                            (exists|j: int| 0 <= j < m && move_via(g, mei, opi, #[trigger] wallmoves@[j] as int, (moves@[i].0 as int, moves@[i].1 as int)))
                            || move_via(g, mei, opi, k as int, (#[trigger] moves@[i].0 as int, moves@[i].1 as int)) by {
                            if i < before.len() {
                                assert(moves@[i] == before[i]);
                            }
                        }
                    }
                }
            } else {
                moves.push((y as usize, x as usize));
                proof {
                    lemma_has_move_push(before, (y as usize, x as usize));
                    assert forall|i: int| 0 <= i < moves@.len() implies
                        (exists|j: int| 0 <= j < m && move_via(g, mei, opi, #[trigger] wallmoves@[j] as int, (moves@[i].0 as int, moves@[i].1 as int)))
                        || move_via(g, mei, opi, k as int, (#[trigger] moves@[i].0 as int, moves@[i].1 as int)) by {
                        if i < before.len() {
                            assert(moves@[i] == before[i]);
                        }
                    }
                }
            }
            proof {
                assert(wallmoves@[m as int] == k);
                assert forall|i: int| 0 <= i < moves@.len() implies in_board((#[trigger] moves@[i]).0 as int, moves@[i].1 as int)
                    && exists|j: int| 0 <= j < m + 1 && move_via(g, mei, opi, #[trigger] wallmoves@[j] as int, (moves@[i].0 as int, moves@[i].1 as int)) by {
                    if exists|j: int| 0 <= j < m && move_via(g, mei, opi, #[trigger] wallmoves@[j] as int, (moves@[i].0 as int, moves@[i].1 as int)) {
                        let j = choose|j: int| 0 <= j < m && move_via(g, mei, opi, #[trigger] wallmoves@[j] as int, (moves@[i].0 as int, moves@[i].1 as int));
                        assert(0 <= j < m + 1);
                    } else {
                        assert(move_via(g, mei, opi, wallmoves@[m as int] as int, (moves@[i].0 as int, moves@[i].1 as int)));
                    }
                }
            }
            m = m + 1;
        }
        proof {
            assert forall|a: int, b: int| #[trigger] has_move(moves@, a, b) <==> self.can_move_to(a, b) by {
                if has_move(moves@, a, b) {
                    let i = choose|i: int| 0 <= i < moves@.len() && (#[trigger] moves@[i]).0 as int == a && moves@[i].1 as int == b;
                    let j = choose|j: int| 0 <= j < m && move_via(g, mei, opi, #[trigger] wallmoves@[j] as int, (moves@[i].0 as int, moves@[i].1 as int));
                    assert(opens(g, mei.0, mei.1, wallmoves@[j] as int));
                }
                if self.can_move_to(a, b) {
                    let k = choose|k: int| 0 <= k < 4 && #[trigger] opens(g, mei.0, mei.1, k) && move_via(g, mei, opi, k, (a, b));
                    assert(wallmoves@.contains(k as usize));
                    let j = choose|j: int| 0 <= j < wallmoves@.len() && wallmoves@[j] == k as usize;
                    assert(move_via(g, mei, opi, wallmoves@[j] as int, (a, b)));
                }
            }
        }
        moves
    }

    /// Whether the player to move may move the pawn to `(y, x)`.
    pub fn movable(&self, y: usize, x: usize) -> (r: Result<(), PlayError>)
        requires
            self.wf(),
        ensures
            r == self.move_result(y as int, x as int),
    {
        if !in_area(y, x) {
            return Err(PlayError::PositionOutOfBounds);
        }
        let moves = self.next_moves();
        let mut i: usize = 0;
        while i < moves.len()
            invariant
                i <= moves@.len(),
                in_board(y as int, x as int),
                forall|a: int, b: int| #[trigger] has_move(moves@, a, b) <==> self.can_move_to(a, b),
                forall|j: int| 0 <= j < i ==> (#[trigger] moves@[j]).0 != y || moves@[j].1 != x,
            decreases moves@.len() - i,
        {
            if moves[i].0 == y && moves[i].1 == x {
                assert(has_move(moves@, y as int, x as int));
                return Ok(());
            }
            i = i + 1;
        }
        assert(!has_move(moves@, y as int, x as int));
        Err(PlayError::IllegalMove)
    }

    /// Whether the player to move may put a segment of orientation `dir` in
    /// wall cell `(y, x)`.
    pub fn settable(&self, y: usize, x: usize, dir: Dir) -> (r: Result<(), PlayError>)
        requires
            self.wf(),
        ensures
            r == self.put_result(y as int, x as int, dir),
    {
        if (self.is_white_turn && self.white_wall_num == 0) || (!self.is_white_turn
            && self.black_wall_num == 0) {
            return Err(PlayError::NoWallsRemaining);
        }
        if !(y < H - 1 && x < W - 1) {
            return Err(PlayError::OutOfBounds);
        }
        let yy = y as i8;
        let xx = x as i8;
        match self.table.get(yy, xx) {
            Some(_) => {
                return Err(PlayError::AlreadyBuilt);
            },
            None => {},
        }
        let conflict = match dir {
            Dir::Horizontal => self.table.checkwalldir(yy, xx - 1, Dir::Horizontal)
                || self.table.checkwalldir(yy, xx + 1, Dir::Horizontal),
            Dir::Vertical => self.table.checkwalldir(yy - 1, xx, Dir::Vertical)
                || self.table.checkwalldir(yy + 1, xx, Dir::Vertical),
        };
        if conflict {
            return Err(PlayError::AlreadyBuilt);
        }
        let mut new_table = self.table.duplicate();
        if self.is_white_turn {
            new_table.set(yy, xx, dir, Colour::White);
        } else {
            new_table.set(yy, xx, dir, Colour::Black);
        }
        if new_table.reachable(self.white.0 as i8, self.white.1 as i8, 0) && new_table.reachable(
            self.black.0 as i8,
            self.black.1 as i8,
            (H - 1) as i8,
        ) {
            Ok(())
        } else {
            Err(PlayError::Unreachable)
        }
    }

    /// What `play` answers to `com`.
    pub open spec fn play_result(&self, com: Command) -> Result<(), PlayError> {
        match com {
            Command::Put(y, x, d) => self.put_result(y as int, x as int, d),
            Command::Move(y, x) => self.move_result(y as int, x as int),
        }
    }

    /// `new` is this state after the player to move carried out `com`.
    pub open spec fn applied(&self, new: &Quoridor, com: Command) -> bool {
        &&& new.is_white_turn == !self.is_white_turn
        &&& new.turn_num == self.turn_num + 1
        &&& match com {
            Command::Put(y, x, d) => {
                &&& new.table@ == with_wall(self.table@, y as int, x as int, d, self.mover())
                &&& new.white == self.white
                &&& new.black == self.black
                &&& new.white_wall_num == if self.is_white_turn {
                    self.white_wall_num - 1
                } else {
                    self.white_wall_num as int
                }
                &&& new.black_wall_num == if self.is_white_turn {
                    self.black_wall_num as int
                } else {
                    self.black_wall_num - 1
                }
                &&& new.record@ == self.record@.push(Record::Wall(y, x, d))
                &&& new.last_move == Some((y, x))
            },
            Command::Move(y, x) => {
                &&& new.table@ == self.table@
                &&& new.white == if self.is_white_turn {
                    (y, x)
                } else {
                    self.white
                }
                &&& new.black == if self.is_white_turn {
                    self.black
                } else {
                    (y, x)
                }
                &&& new.white_wall_num == self.white_wall_num
                &&& new.black_wall_num == self.black_wall_num
                &&& new.record@ == self.record@.push(
                    Record::Piece(move_code(self.me(), (y as int, x as int))),
                )
                &&& new.last_move is None
            },
        }
    }

    /// Carries out the command of the player to move. On success the turn
    /// passes to the other player and the turn counter grows by one; on
    /// failure nothing changes.
    pub fn play(&mut self, com: &Command) -> (r: Result<(), PlayError>)
        requires
            old(self).wf(),
            old(self).turn_num < u16::MAX,
        ensures
            final(self).wf(),
            r == old(self).play_result(*com),
            r is Ok ==> old(self).applied(final(self), *com),
            r is Ok ==> final(self).turn_num == old(self).turn_num + 1,
            r is Ok ==> final(self).is_white_turn == !old(self).is_white_turn,
            r is Err ==> *final(self) == *old(self),
    {
        match com {
            Command::Put(y, x, dir) => match self.settable(*y, *x, *dir) {
                Ok(()) => {
                    let ghost g0 = self.table@;
                    let ghost mover = self.mover();
                    if self.is_white_turn {
                        self.table.set(*y as i8, *x as i8, *dir, Colour::White);
                        self.white_wall_num = self.white_wall_num - 1;
                    } else {
                        self.table.set(*y as i8, *x as i8, *dir, Colour::Black);
                        self.black_wall_num = self.black_wall_num - 1;
                    }
                    proof {
                        let g1 = self.table@;
                        lemma_wall_list_add(g0, g1, *y as int, *x as int, *dir, mover, Dir::Horizontal, Colour::White);
                        lemma_wall_list_add(g0, g1, *y as int, *x as int, *dir, mover, Dir::Vertical, Colour::White);
                        lemma_wall_list_add(g0, g1, *y as int, *x as int, *dir, mover, Dir::Horizontal, Colour::Black);
                        lemma_wall_list_add(g0, g1, *y as int, *x as int, *dir, mover, Dir::Vertical, Colour::Black);
                    }
                    self.record.push(Record::Wall(*y, *x, *dir));
                    self.last_move = Some((*y, *x));
                },
                Err(e) => {
                    return Err(e);
                },
            },
            Command::Move(y, x) => match self.movable(*y, *x) {
                Ok(()) => {
                    proof {
                        lemma_move_code_ok(self.table@, self.me(), self.op(), (*y as int, *x as int));
                    }
                    let (mut dy, mut dx) = if self.is_white_turn {
                        let d = (self.white.0 as i8 - *y as i8, self.white.1 as i8 - *x as i8);
                        self.white = (*y, *x);
                        d
                    } else {
                        let d = (self.black.0 as i8 - *y as i8, self.black.1 as i8 - *x as i8);
                        self.black = (*y, *x);
                        d
                    };
                    if dy == 2 {
                        dy = 1;
                    } else if dy == -2 {
                        dy = -1;
                    }
                    if dx == 2 {
                        dx = 1;
                    } else if dx == -2 {
                        dx = -1;
                    }
                    let movedir = movedir_of(dy, dx);
                    self.record.push(Record::Piece(movedir));
                    self.last_move = None;
                },
                Err(e) => {
                    return Err(e);
                },
            },
        }
        self.is_white_turn = !self.is_white_turn;
        self.turn_num = self.turn_num + 1;
        assert forall|i: int| 0 <= i < self.record@.len() implies record_ok(#[trigger] self.record@[i]) by {
            if i < old(self).record@.len() {
                assert(self.record@[i] == old(self).record@[i]);
            }
        }
        Ok(())
    }
}

/// A wall that leaves either pawn with no walk to its goal row is refused as
/// unreachable, once the budget, the bounds and the occupied cells allow it;
/// `play` then leaves the match unchanged.
pub proof fn lemma_sealing_wall_refused(q: &Quoridor, y: usize, x: usize, d: Dir)
    requires
        q.wf(),
        q.walls_left() > 0,
        in_wall_grid(y as int, x as int),
        cell(q.table@, y as int, x as int) is None,
        !collinear_conflict(q.table@, y as int, x as int, d),
        !can_reach(with_wall(q.table@, y as int, x as int, d, q.mover()), q.white.0 as int, q.white.1 as int, 0)
            || !can_reach(with_wall(q.table@, y as int, x as int, d, q.mover()), q.black.0 as int, q.black.1 as int, H - 1),
    ensures
        q.put_result(y as int, x as int, d) == Err::<(), PlayError>(PlayError::Unreachable),
        q.play_result(Command::Put(y, x, d)) == Err::<(), PlayError>(PlayError::Unreachable),
{
}

/// Next to the opponent, with no wall between and the cell behind the
/// opponent open, the only move in that direction is the jump to the cell
/// behind; no cell beside the opponent is a legal move.
pub proof fn lemma_straight_jump(q: &Quoridor, k: int)
    requires
        q.wf(),
        0 <= k < 4,
        opens(q.table@, q.me().0, q.me().1, k),
        q.op() == (q.me().0 + off_y(k), q.me().1 + off_x(k)),
        opens(q.table@, q.op().0, q.op().1, k),
    ensures
        forall|p: (int, int)|
            move_via(q.table@, q.me(), q.op(), k, p) <==> p == (q.op().0 + off_y(k), q.op().1 + off_x(k)),
        q.can_move_to(q.op().0 + off_y(k), q.op().1 + off_x(k)),
        forall|k2: int| 0 <= k2 < 4 && k2 != k ==> !#[trigger] q.can_move_to(q.op().0 + off_y(k2), q.op().1 + off_x(k2)),
{
    let g = q.table@;
    let me = q.me();
    let op = q.op();
    assert(move_via(g, me, op, k, (op.0 + off_y(k), op.1 + off_x(k))));
    assert forall|k2: int| 0 <= k2 < 4 && k2 != k implies !#[trigger] q.can_move_to(op.0 + off_y(k2), op.1 + off_x(k2)) by {
        let p = (op.0 + off_y(k2), op.1 + off_x(k2));
        if q.can_move_to(p.0, p.1) {
            let k1 = choose|k1: int| 0 <= k1 < 4 && #[trigger] opens(g, me.0, me.1, k1) && move_via(g, me, op, k1, p);
            if k1 != k {
                assert((me.0 + off_y(k1), me.1 + off_x(k1)) != op);
            }
        }
    }
}

/// Next to the opponent, with the cell behind the opponent walled off or
/// off the board, every cell beside the opponent that it can step to through
/// no wall, but the mover's own, is a legal move.
pub proof fn lemma_side_jumps(q: &Quoridor, k: int)
    requires
        q.wf(),
        0 <= k < 4,
        opens(q.table@, q.me().0, q.me().1, k),
        q.op() == (q.me().0 + off_y(k), q.me().1 + off_x(k)),
        !opens(q.table@, q.op().0, q.op().1, k),
    ensures
        forall|k2: int|
            0 <= k2 < 4 && #[trigger] opens(q.table@, q.op().0, q.op().1, k2) && (q.op().0 + off_y(k2), q.op().1
                + off_x(k2)) != q.me() ==> q.can_move_to(q.op().0 + off_y(k2), q.op().1 + off_x(k2)),
{
    let g = q.table@;
    let me = q.me();
    let op = q.op();
    assert forall|k2: int|
        0 <= k2 < 4 && #[trigger] opens(g, op.0, op.1, k2) && (op.0 + off_y(k2), op.1 + off_x(k2)) != me implies q.can_move_to(
        op.0 + off_y(k2),
        op.1 + off_x(k2),
    ) by {
        let p = (op.0 + off_y(k2), op.1 + off_x(k2));
        assert(side_step(g, me, op, p));
        assert(move_via(g, me, op, k, p));
    }
}

/// Asking again with no command in between gives the same answers: any two
/// lists that answer `next_moves` on one state hold the same cells, and any
/// two answers of `settable` on one state and wall are equal.
pub proof fn lemma_queries_repeat(
    q: &Quoridor,
    first: Seq<(usize, usize)>,
    second: Seq<(usize, usize)>,
    y: int,
    x: int,
    d: Dir,
    v1: Result<(), PlayError>,
    v2: Result<(), PlayError>,
)
    requires
        q.wf(),
        forall|a: int, b: int| #[trigger] has_move(first, a, b) <==> q.can_move_to(a, b),
        forall|a: int, b: int| #[trigger] has_move(second, a, b) <==> q.can_move_to(a, b),
        v1 == q.put_result(y, x, d),
        v2 == q.put_result(y, x, d),
    ensures
        forall|a: int, b: int| #[trigger] has_move(first, a, b) == has_move(second, a, b),
        v1 == v2,
{
}

} // verus!
