//! The renderings of a match: the viewer snapshot and the move history, both
//! bit-packed and rendered through the 64-symbol alphabet; the line snapshot
//! sent to the players; and the board drawn as text.
use crate::base64::{
    append, base64_text, bits_of, bits_of_nat, bitvec_to_base64, bv_new, bv_push, from_u16, from_u8,
    lemma_bits_of_nat_len, lemma_bits_of_nat_mod, string_from_chars,
};
use crate::board::{cell, has, in_board, in_wall_grid, Colour, Dir, Grid, H, W, WALL_LIMIT};
use crate::game::{record_ok, Quoridor, Record};
use bit_vec::BitVec;
use vstd::arithmetic::power2::lemma2_to64;
use vstd::prelude::*;

verus! {

/// The character of decimal digit `d`.
pub open spec fn digit_char(d: nat) -> char {
    (48 + d) as char
}

/// The decimal numeral of `n`.
pub open spec fn decimal(n: nat) -> Seq<char>
    decreases n,
{
    if n < 10 {
        seq![digit_char(n)]
    } else {
        decimal(n / 10).push(digit_char(n % 10))
    }
}

/// Adds the decimal numeral of `n`.
fn push_decimal(v: &mut Vec<char>, n: usize)
    ensures
        final(v)@ == old(v)@ + decimal(n as nat),
    decreases n,
{
    if n >= 10 {
        push_decimal(v, n / 10);
    }
    let d = (n % 10) as u8;
    v.push((48u8 + d) as char);
    assert(final(v)@ =~= old(v)@ + decimal(n as nat));
}

/// The digit of a wall cell in the line snapshot: 0 empty, 1 horizontal,
/// 2 vertical.
pub open spec fn cell_digit(c: Option<(Dir, Colour)>) -> char {
    match c {
        Some((Dir::Horizontal, _)) => '1',
        Some((Dir::Vertical, _)) => '2',
        None => '0',
    }
}

/// Cells `(y, 0) .. (y, x - 1)` of the wall grid, each digit followed by a space.
pub open spec fn row_text(g: Grid, y: int, x: int) -> Seq<char>
    decreases x,
{
    if x <= 0 {
        Seq::empty()
    } else {
        row_text(g, y, x - 1) + seq![cell_digit(cell(g, y, x - 1)), ' ']
    }
}

/// Rows `0 .. y - 1` of the wall grid, each on a line of its own.
pub open spec fn grid_text(g: Grid, y: int) -> Seq<char>
    decreases y,
{
    if y <= 0 {
        Seq::empty()
    } else {
        grid_text(g, y - 1) + row_text(g, y - 1, W - 1) + seq!['\n']
    }
}

/// The line snapshot: White's column and row, Black's column and row, the
/// walls each has used, then the wall grid.
pub open spec fn socket_text(q: &Quoridor) -> Seq<char> {
    decimal(q.white.1 as nat) + seq![' '] + decimal(q.white.0 as nat) + seq![' '] + decimal(
        q.black.1 as nat,
    ) + seq![' '] + decimal(q.black.0 as nat) + seq![' '] + decimal(
        (WALL_LIMIT - q.white_wall_num) as nat,
    ) + seq![' '] + decimal((WALL_LIMIT - q.black_wall_num) as nat) + seq!['\n'] + grid_text(
        q.table@,
        H - 1,
    )
}

/// The character at row `i`, column `j` of the drawn board, where even rows
/// and columns hold pawn cells and odd ones hold the gaps between them.
pub open spec fn board_char(q: &Quoridor, i: int, j: int) -> char {
    let g = q.table@;
    if i % 2 == 0 && j % 2 == 0 {
        if (i / 2, j / 2) == q.black_pos() {
            'B'
        } else if (i / 2, j / 2) == q.white_pos() {
            'W'
        } else {
            ' '
        }
    } else if i % 2 == 1 && j % 2 == 1 {
        '*'
    } else if i % 2 == 0 {
        if has(g, i / 2, (j - 1) / 2, Dir::Vertical) || has(g, i / 2 - 1, (j - 1) / 2, Dir::Vertical) {
            '|'
        } else {
            ' '
        }
    } else {
        if has(g, (i - 1) / 2, j / 2, Dir::Horizontal) || has(g, (i - 1) / 2, j / 2 - 1, Dir::Horizontal) {
            '-'
        } else {
            ' '
        }
    }
}

/// A line of `#` as wide as the framed board.
pub open spec fn border() -> Seq<char> {
    Seq::new((2 * W + 1) as nat, |j: int| '#').push('\n')
}

/// The first `n` rows of the drawn board, each framed by `#`.
pub open spec fn board_lines(q: &Quoridor, n: int) -> Seq<char>
    decreases n,
{
    if n <= 0 {
        Seq::empty()
    } else {
        board_lines(q, n - 1) + seq!['#'] + Seq::new((2 * W - 1) as nat, |j: int| board_char(q, n - 1, j))
            + seq!['#', '\n']
    }
}

/// The drawn board: pawns `W` and `B`, walls `|` and `-`, gap corners `*`,
/// inside a frame of `#`.
pub open spec fn board_text(q: &Quoridor) -> Seq<char> {
    border() + board_lines(q, 2 * H - 1) + border()
}

/// The 7-bit code of pawn cell `(y, x)`: rows counted from the last one.
pub open spec fn pos_code(y: int, x: int) -> nat {
    ((H - 1 - y) * W + x) as nat
}

/// The 6-bit code of wall cell `(y, x)`: rows counted from the last one.
pub open spec fn wall_code(y: int, x: int) -> nat {
    ((W - 2 - y) * (W - 1) + x) as nat
}

pub fn pos_to_u8(p: (usize, usize)) -> (r: u8)
    requires
        in_board(p.0 as int, p.1 as int),
    ensures
        r as nat == pos_code(p.0 as int, p.1 as int),
        r < 81,
{
    ((W - 1 - p.0) * W + p.1) as u8
}

pub fn wall_to_u8(p: (usize, usize)) -> (r: u8)
    requires
        in_wall_grid(p.0 as int, p.1 as int),
    ensures
        r as nat == wall_code(p.0 as int, p.1 as int),
        r < 64,
{
    let row: usize = W - 2 - p.0;
    assert(row * (W - 1) <= 56) by (nonlinear_arith)
        requires
            row <= 7,
            W == 9,
    ;
    (row * (W - 1) + p.1) as u8
}

/// The codes of the cells `(y, 0) .. (y, x - 1)` of row `y` that hold a
/// segment of orientation `d` and colour `c`, in column order.
pub open spec fn row_walls(g: Grid, d: Dir, c: Colour, y: int, x: int) -> Seq<nat>
    decreases x,
{
    if x <= 0 {
        Seq::empty()
    } else {
        row_walls(g, d, c, y, x - 1) + if cell(g, y, x - 1) == Some((d, c)) {
            seq![wall_code(y, x - 1)]
        } else {
            Seq::empty()
        }
    }
}

/// The codes of the cells of rows `0 .. y - 1` that hold a segment of
/// orientation `d` and colour `c`, row by row.
pub open spec fn rows_walls(g: Grid, d: Dir, c: Colour, y: int) -> Seq<nat>
    decreases y,
{
    if y <= 0 {
        Seq::empty()
    } else {
        rows_walls(g, d, c, y - 1) + row_walls(g, d, c, y - 1, W - 1)
    }
}

/// The codes of all cells that hold a segment of orientation `d` and colour
/// `c`, row by row.
pub open spec fn wall_list(g: Grid, d: Dir, c: Colour) -> Seq<nat> {
    rows_walls(g, d, c, H - 1)
}

/// Each number of `s` in `w` bits, one after the other.
pub open spec fn codes_bits(s: Seq<nat>, w: nat) -> Seq<bool>
    decreases s.len(),
{
    if s.len() == 0 {
        Seq::empty()
    } else {
        codes_bits(s.drop_last(), w) + bits_of_nat(s.last(), w)
    }
}

/// A group of walls: a 4-bit count, then each 6-bit wall code.
pub open spec fn group_bits(s: Seq<nat>) -> Seq<bool> {
    bits_of_nat(s.len(), 4) + codes_bits(s, 6)
}

/// The last wall: a flag, then its code when there is one.
pub open spec fn last_bits(l: Option<(usize, usize)>) -> Seq<bool> {
    match l {
        Some((y, x)) => seq![true] + bits_of_nat(wall_code(y as int, x as int), 6),
        None => seq![false],
    }
}

/// The viewer snapshot of a match, as bits.
pub open spec fn view_bits(q: &Quoridor) -> Seq<bool> {
    let g = q.table@;
    seq![true, false] + bits_of_nat(pos_code(q.white.0 as int, q.white.1 as int), 7) + bits_of_nat(
        pos_code(q.black.0 as int, q.black.1 as int),
        7,
    ) + group_bits(wall_list(g, Dir::Horizontal, Colour::White)) + group_bits(
        wall_list(g, Dir::Vertical, Colour::White),
    ) + group_bits(wall_list(g, Dir::Horizontal, Colour::Black)) + group_bits(
        wall_list(g, Dir::Vertical, Colour::Black),
    ) + seq![q.is_white_turn] + last_bits(q.last_move) + bits_of_nat(q.turn_num as nat, 10)
}

/// One entry of the move log, as bits.
pub open spec fn record_bits(r: Record) -> Seq<bool> {
    match r {
        Record::Piece(c) => seq![false] + bits_of_nat(c as nat, 3),
        Record::Wall(y, x, d) => seq![true, d == Dir::Vertical] + bits_of_nat(
            wall_code(y as int, x as int),
            6,
        ),
    }
}

/// The entries of a move log, as bits, one after the other.
pub open spec fn records_bits(s: Seq<Record>) -> Seq<bool>
    decreases s.len(),
{
    if s.len() == 0 {
        Seq::empty()
    } else {
        records_bits(s.drop_last()) + record_bits(s.last())
    }
}

/// The move history of a match, as bits: a tag, a 10-bit count, the entries.
pub open spec fn history_bits(q: &Quoridor) -> Seq<bool> {
    seq![false, true] + bits_of_nat(q.record@.len(), 10) + records_bits(q.record@)
}

proof fn lemma_row_walls_len(g: Grid, d: Dir, c: Colour, y: int, x: int)
    ensures
        row_walls(g, d, c, y, x).len() <= if x <= 0 { 0 } else { x },
    decreases x,
{
    if x > 0 {
        lemma_row_walls_len(g, d, c, y, x - 1);
    }
}

proof fn lemma_rows_walls_len(g: Grid, d: Dir, c: Colour, y: int)
    ensures
        rows_walls(g, d, c, y).len() <= if y <= 0 { 0 } else { (W - 1) * y },
    decreases y,
{
    if y > 0 {
        lemma_rows_walls_len(g, d, c, y - 1);
        lemma_row_walls_len(g, d, c, y - 1, W - 1);
    }
}

proof fn lemma_row_walls_none(g: Grid, d: Dir, c: Colour, y: int, x: int)
    requires
        forall|i: int, j: int| #[trigger] cell(g, i, j) is None,
    ensures
        row_walls(g, d, c, y, x).len() == 0,
    decreases x,
{
    if x > 0 {
        lemma_row_walls_none(g, d, c, y, x - 1);
        assert(cell(g, y, x - 1) is None);
    }
}

proof fn lemma_rows_walls_none(g: Grid, d: Dir, c: Colour, y: int)
    requires
        forall|i: int, j: int| #[trigger] cell(g, i, j) is None,
    ensures
        rows_walls(g, d, c, y).len() == 0,
    decreases y,
{
    if y > 0 {
        lemma_rows_walls_none(g, d, c, y - 1);
        lemma_row_walls_none(g, d, c, y - 1, W - 1);
    }
}

/// A grid with no segment has no wall of any kind.
pub proof fn lemma_wall_list_none(g: Grid, d: Dir, c: Colour)
    requires
        forall|i: int, j: int| #[trigger] cell(g, i, j) is None,
    ensures
        wall_list(g, d, c).len() == 0,
{
    lemma_rows_walls_none(g, d, c, H - 1);
}

proof fn lemma_row_walls_add(g: Grid, g2: Grid, y0: int, x0: int, d0: Dir, c0: Colour, d: Dir, c: Colour, y: int, x: int)
    requires
        in_wall_grid(y0, x0),
        cell(g, y0, x0) is None,
        forall|i: int, j: int| #[trigger] cell(g2, i, j) == if i == y0 && j == x0 {
            Some((d0, c0))
        } else {
            cell(g, i, j)
        },
    ensures
        row_walls(g2, d, c, y, x).len() == row_walls(g, d, c, y, x).len() + if d == d0 && c == c0 && y == y0
            && x0 < x {
            1int
        } else {
            0int
        },
    decreases x,
{
    if x > 0 {
        lemma_row_walls_add(g, g2, y0, x0, d0, c0, d, c, y, x - 1);
        assert(cell(g2, y, x - 1) == if y == y0 && x - 1 == x0 {
            Some((d0, c0))
        } else {
            cell(g, y, x - 1)
        });
    }
}

proof fn lemma_rows_walls_add(g: Grid, g2: Grid, y0: int, x0: int, d0: Dir, c0: Colour, d: Dir, c: Colour, y: int)
    requires
        in_wall_grid(y0, x0),
        cell(g, y0, x0) is None,
        forall|i: int, j: int| #[trigger] cell(g2, i, j) == if i == y0 && j == x0 {
            Some((d0, c0))
        } else {
            cell(g, i, j)
        },
    ensures
        rows_walls(g2, d, c, y).len() == rows_walls(g, d, c, y).len() + if d == d0 && c == c0 && y0 < y {
            1int
        } else {
            0int
        },
    decreases y,
{
    if y > 0 {
        lemma_rows_walls_add(g, g2, y0, x0, d0, c0, d, c, y - 1);
        lemma_row_walls_add(g, g2, y0, x0, d0, c0, d, c, y - 1, W - 1);
    }
}

/// Placing a segment in an empty cell adds one wall to the list of its kind
/// and leaves the other lists as long as they were.
pub proof fn lemma_wall_list_add(g: Grid, g2: Grid, y0: int, x0: int, d0: Dir, c0: Colour, d: Dir, c: Colour)
    requires
        in_wall_grid(y0, x0),
        cell(g, y0, x0) is None,
        forall|i: int, j: int| #[trigger] cell(g2, i, j) == if i == y0 && j == x0 {
            Some((d0, c0))
        } else {
            cell(g, i, j)
        },
    ensures
        wall_list(g2, d, c).len() == wall_list(g, d, c).len() + if d == d0 && c == c0 {
            1int
        } else {
            0int
        },
{
    lemma_rows_walls_add(g, g2, y0, x0, d0, c0, d, c, H - 1);
}

pub proof fn lemma_codes_bits_len(s: Seq<nat>, w: nat)
    ensures
        codes_bits(s, w).len() == w * s.len(),
    decreases s.len(),
{
    if s.len() > 0 {
        lemma_codes_bits_len(s.drop_last(), w);
        lemma_bits_of_nat_len(s.last(), w);
        assert(w * s.len() == w * (s.len() - 1) + w) by (nonlinear_arith);
    }
}

proof fn lemma_codes_bits_push(s: Seq<nat>, a: nat, w: nat)
    ensures
        codes_bits(s.push(a), w) == codes_bits(s, w) + bits_of_nat(a, w),
{
    assert(s.push(a).drop_last() =~= s);
}

impl Quoridor {
    /// The codes of the walls of orientation `d` and colour `c`, row by row.
    fn walls_of(&self, d: Dir, c: Colour) -> (r: Vec<u8>)
        requires
            self.wf(),
        ensures
            r@.len() == wall_list(self.table@, d, c).len(),
            forall|i: int| 0 <= i < r@.len() ==> #[trigger] r@[i] as nat == wall_list(self.table@, d, c)[i],
            r@.len() <= 64,
    {
        let ghost g = self.table@;
        let mut r: Vec<u8> = Vec::new();
        let mut y: usize = 0;
        while y < H - 1
            invariant
                self.wf(),
                g == self.table@,
                y <= H - 1,
                r@.len() == rows_walls(g, d, c, y as int).len(),
                forall|i: int| 0 <= i < r@.len() ==> #[trigger] r@[i] as nat == rows_walls(g, d, c, y as int)[i],
            decreases H - 1 - y,
        {
            let ghost base = rows_walls(g, d, c, y as int);
            let mut x: usize = 0;
            while x < W - 1
                invariant
                    self.wf(),
                    g == self.table@,
                    y < H - 1,
                    x <= W - 1,
                    base == rows_walls(g, d, c, y as int),
                    r@.len() == (base + row_walls(g, d, c, y as int, x as int)).len(),
                    forall|i: int| 0 <= i < r@.len() ==> #[trigger] r@[i] as nat == (base + row_walls(g, d, c, y as int, x as int))[i],
                decreases W - 1 - x,
            {
                let ghost before = base + row_walls(g, d, c, y as int, x as int);
                match self.table.get(y as i8, x as i8) {
                    Some((dd, cc)) => {
                        if dd == d && cc == c {
                            r.push(wall_to_u8((y, x)));
                        }
                    },
                    None => {},
                }
                x = x + 1;
                assert(base + row_walls(g, d, c, y as int, x as int) =~= before + if cell(g, y as int, x - 1) == Some((d, c)) {
                    seq![wall_code(y as int, x - 1)]
                } else {
                    Seq::empty()
                });
            }
            y = y + 1;
            assert(rows_walls(g, d, c, y as int) == base + row_walls(g, d, c, (y - 1) as int, (W - 1) as int));
        }
        proof {
            lemma_rows_walls_len(g, d, c, (H - 1) as int);
        }
        r
    }

    /// Adds the count and the codes of the walls of orientation `d` and
    /// colour `c`.
    fn append_group(&self, bv: &mut BitVec, d: Dir, c: Colour)
        requires
            self.wf(),
            bits_of(*old(bv)).len() <= 2000,
        ensures
            bits_of(*final(bv)) == bits_of(*old(bv)) + group_bits(wall_list(self.table@, d, c)),
            bits_of(*final(bv)).len() <= bits_of(*old(bv)).len() + 388,
    {
        let ghost l = wall_list(self.table@, d, c);
        let w = self.walls_of(d, c);
        proof {
            lemma_bits_of_nat_len(l.len(), 4);
        }
        append(bv, from_u8(w.len() as u8, 4));
        let ghost start = bits_of(*bv);
        let mut i: usize = 0;
        while i < w.len()
            invariant
                i <= w@.len() == l.len() <= 64,
                forall|j: int| 0 <= j < w@.len() ==> #[trigger] w@[j] as nat == l[j],
                start == bits_of(*old(bv)) + bits_of_nat(l.len(), 4),
                start.len() <= 2004,
                bits_of(*bv) == start + codes_bits(l.subrange(0, i as int), 6),
                bits_of(*bv).len() == start.len() + 6 * i,
            decreases w@.len() - i,
        {
            proof {
                lemma_bits_of_nat_len(w@[i as int] as nat, 6);
                lemma_codes_bits_push(l.subrange(0, i as int), l[i as int], 6);
                assert(l.subrange(0, i as int).push(l[i as int]) =~= l.subrange(0, i + 1));
            }
            append(bv, from_u8(w[i], 6));
            i = i + 1;
        }
        assert(l.subrange(0, i as int) =~= l);
    }

    /// The viewer snapshot: a full description of the current state.
    pub fn viewformat(&self) -> (r: String)
        requires
            self.wf(),
        ensures
            r@ == base64_text(view_bits(self)),
    {
        let ghost g = self.table@;
        let mut bv = bv_new();
        bv_push(&mut bv, true);
        bv_push(&mut bv, false);
        proof {
            lemma_bits_of_nat_len(pos_code(self.white.0 as int, self.white.1 as int), 7);
            lemma_bits_of_nat_len(pos_code(self.black.0 as int, self.black.1 as int), 7);
        }
        append(&mut bv, from_u8(pos_to_u8(self.white), 7));
        append(&mut bv, from_u8(pos_to_u8(self.black), 7));
        let ghost b1 = bits_of(bv);
        self.append_group(&mut bv, Dir::Horizontal, Colour::White);
        self.append_group(&mut bv, Dir::Vertical, Colour::White);
        self.append_group(&mut bv, Dir::Horizontal, Colour::Black);
        self.append_group(&mut bv, Dir::Vertical, Colour::Black);
        bv_push(&mut bv, self.is_white_turn);
        let ghost b2 = bits_of(bv);
        match self.last_move {
            Some((y, x)) => {
                bv_push(&mut bv, true);
                proof {
                    lemma_bits_of_nat_len(wall_code(y as int, x as int), 6);
                }
                append(&mut bv, from_u8(wall_to_u8((y, x)), 6));
            },
            None => {
                bv_push(&mut bv, false);
            },
        }
        proof {
            lemma_bits_of_nat_len(self.turn_num as nat, 10);
        }
        append(&mut bv, from_u16(self.turn_num, 10));
        assert(bits_of(bv) =~= view_bits(self));
        bitvec_to_base64(bv)
    }

    /// The move history: every entry of the log, in order.
    pub fn historyformat(&self) -> (r: String)
        requires
            self.wf(),
            8 * self.record@.len() + 18 <= usize::MAX,
        ensures
            r@ == base64_text(history_bits(self)),
    {
        let mut bv = bv_new();
        bv_push(&mut bv, false);
        bv_push(&mut bv, true);
        let n = self.record.len();
        proof {
            lemma2_to64();
            lemma_bits_of_nat_mod(n as nat, 10);
            lemma_bits_of_nat_len(n as nat, 10);
        }
        append(&mut bv, from_u16((n % 1024) as u16, 10));
        let ghost start = bits_of(bv);
        let mut i: usize = 0;
        while i < n
            invariant
                self.wf(),
                n == self.record@.len(),
                8 * n + 18 <= usize::MAX,
                i <= n,
                start == seq![false, true] + bits_of_nat(n as nat, 10),
                start.len() == 12,
                bits_of(bv) == start + records_bits(self.record@.subrange(0, i as int)),
                bits_of(bv).len() <= 12 + 8 * i,
            decreases n - i,
        {
            let ghost before = bits_of(bv);
            let rec = self.record[i];
            assert(record_ok(self.record@[i as int]));
            match rec {
                Record::Piece(movedir) => {
                    bv_push(&mut bv, false);
                    proof {
                        lemma_bits_of_nat_len(movedir as nat, 3);
                    }
                    append(&mut bv, from_u8(movedir, 3));
                },
                Record::Wall(y, x, dir) => {
                    bv_push(&mut bv, true);
                    bv_push(&mut bv, dir == Dir::Vertical);
                    proof {
                        lemma_bits_of_nat_len(wall_code(y as int, x as int), 6);
                    }
                    append(&mut bv, from_u8(wall_to_u8((y, x)), 6));
                },
            }
            assert(bits_of(bv) =~= before + record_bits(rec));
            assert(self.record@.subrange(0, i + 1).drop_last() =~= self.record@.subrange(0, i as int));
            i = i + 1;
        }
        assert(self.record@.subrange(0, n as int) =~= self.record@);
        assert(bits_of(bv) =~= history_bits(self));
        bitvec_to_base64(bv)
    }

    /// The line snapshot sent to the players.
    pub fn socketformat(&self) -> (r: String)
        requires
            self.wf(),
        ensures
            r@ == socket_text(self),
    {
        let ghost g = self.table@;
        let mut v: Vec<char> = Vec::new();
        push_decimal(&mut v, self.white.1);
        v.push(' ');
        push_decimal(&mut v, self.white.0);
        v.push(' ');
        push_decimal(&mut v, self.black.1);
        v.push(' ');
        push_decimal(&mut v, self.black.0);
        v.push(' ');
        push_decimal(&mut v, WALL_LIMIT - self.white_wall_num);
        v.push(' ');
        push_decimal(&mut v, WALL_LIMIT - self.black_wall_num);
        v.push('\n');
        let ghost head = v@;
        let mut y: usize = 0;
        while y < H - 1
            invariant
                self.wf(),
                g == self.table@,
                y <= H - 1,
                v@ == head + grid_text(g, y as int),
            decreases H - 1 - y,
        {
            let mut x: usize = 0;
            while x < W - 1
                invariant
                    self.wf(),
                    g == self.table@,
                    y < H - 1,
                    x <= W - 1,
                    v@ == head + grid_text(g, y as int) + row_text(g, y as int, x as int),
                decreases W - 1 - x,
            {
                let c = match self.table.get(y as i8, x as i8) {
                    Some((Dir::Horizontal, _)) => '1',
                    Some((Dir::Vertical, _)) => '2',
                    None => '0',
                };
                v.push(c);
                v.push(' ');
                x = x + 1;
                assert(v@ =~= head + grid_text(g, y as int) + row_text(g, y as int, x as int));
            }
            v.push('\n');
            y = y + 1;
            assert(v@ =~= head + grid_text(g, y as int));
        }
        assert(v@ =~= socket_text(self));
        string_from_chars(&v)
    }

    /// The character at row `i`, column `j` of the drawn board.
    fn board_char_at(&self, i: usize, j: usize) -> (r: char)
        requires
            self.wf(),
            i < 2 * H - 1,
            j < 2 * W - 1,
        ensures
            r == board_char(self, i as int, j as int),
    {
        if i % 2 == 0 && j % 2 == 0 {
            if i / 2 == self.black.0 && j / 2 == self.black.1 {
                'B'
            } else if i / 2 == self.white.0 && j / 2 == self.white.1 {
                'W'
            } else {
                ' '
            }
        } else if i % 2 == 1 && j % 2 == 1 {
            '*'
        } else if i % 2 == 0 {
            let y = (i / 2) as i8;
            let x = ((j - 1) / 2) as i8;
            if self.table.checkwalldir(y, x, Dir::Vertical) || self.table.checkwalldir(y - 1, x, Dir::Vertical) {
                '|'
            } else {
                ' '
            }
        } else {
            let y = ((i - 1) / 2) as i8;
            let x = (j / 2) as i8;
            if self.table.checkwalldir(y, x, Dir::Horizontal) || self.table.checkwalldir(y, x - 1, Dir::Horizontal) {
                '-'
            } else {
                ' '
            }
        }
    }

    /// The board drawn as text, for people to read.
    pub fn display(&self) -> (r: String)
        requires
            self.wf(),
        ensures
            r@ == board_text(self),
    {
        let mut v: Vec<char> = Vec::new();
        let mut k: usize = 0;
        while k < 2 * W + 1
            invariant
                k <= 2 * W + 1,
                v@ == Seq::new(k as nat, |j: int| '#'),
            decreases 2 * W + 1 - k,
        {
            v.push('#');
            k = k + 1;
            assert(v@ =~= Seq::new(k as nat, |j: int| '#'));
        }
        v.push('\n');
        assert(v@ =~= border());
        let mut i: usize = 0;
        while i < 2 * H - 1
            invariant
                self.wf(),
                i <= 2 * H - 1,
                v@ == border() + board_lines(self, i as int),
            decreases 2 * H - 1 - i,
        {
            let ghost start = v@;
            v.push('#');
            let mut j: usize = 0;
            while j < 2 * W - 1
                invariant
                    self.wf(),
                    i < 2 * H - 1,
                    j <= 2 * W - 1,
                    v@ == start + seq!['#'] + Seq::new(j as nat, |c: int| board_char(self, i as int, c)),
                decreases 2 * W - 1 - j,
            {
                let c = self.board_char_at(i, j);
                v.push(c);
                j = j + 1;
                assert(v@ =~= start + seq!['#'] + Seq::new(j as nat, |c: int| board_char(self, i as int, c)));
            }
            v.push('#');
            v.push('\n');
            i = i + 1;
            assert(v@ =~= border() + board_lines(self, i as int));
        }
        let ghost middle = v@;
        let mut k: usize = 0;
        while k < 2 * W + 1
            invariant
                k <= 2 * W + 1,
                v@ == middle + Seq::new(k as nat, |j: int| '#'),
            decreases 2 * W + 1 - k,
        {
            v.push('#');
            k = k + 1;
            assert(v@ =~= middle + Seq::new(k as nat, |j: int| '#'));
        }
        v.push('\n');
        assert(v@ =~= board_text(self));
        string_from_chars(&v)
    }
}

} // verus!
