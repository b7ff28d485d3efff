//! The wall grid and the geometry of pawn moves: which edges are blocked, and
//! which cells a pawn can reach.
use vstd::prelude::*;

verus! {

/// Number of walls each player may place.
pub const WALL_LIMIT: usize = 10;

/// Rows of the pawn grid.
pub const H: usize = 9;

/// Columns of the pawn grid.
pub const W: usize = 9;

#[derive(Clone, Copy, PartialEq, Eq, Debug, Structural)]
pub enum Colour {
    White,
    Black,
}

/// Orientation of a wall segment.
#[derive(Clone, Copy, PartialEq, Eq, Debug, Structural)]
pub enum Dir {
    Vertical,
    Horizontal,
}

impl Dir {
    /// `V` and `H` name the two orientations; anything else is no orientation.
    pub fn parse(input: &str) -> (r: Option<Dir>)
        ensures
            r == dir_of_token(input@),
    {
        if input.unicode_len() != 1 {
            assert(input@ != seq!['V'] && input@ != seq!['H']);
            return None;
        }
        let c = input.get_char(0);
        if c == 'V' {
            assert(input@ =~= seq!['V']);
            Some(Dir::Vertical)
        } else if c == 'H' {
            assert(input@ =~= seq!['H']);
            Some(Dir::Horizontal)
        } else {
            assert(input@ != seq!['V'] && input@ != seq!['H']) by {
                assert(seq!['V'][0] == 'V' && seq!['H'][0] == 'H');
            }
            None
        }
    }
}

/// The orientation that a command token names.
pub open spec fn dir_of_token(t: Seq<char>) -> Option<Dir> {
    if t == seq!['V'] {
        Some(Dir::Vertical)
    } else if t == seq!['H'] {
        Some(Dir::Horizontal)
    } else {
        None
    }
}

/// A cell of the pawn grid.
pub open spec fn in_board(y: int, x: int) -> bool {
    0 <= y < H && 0 <= x < W
}

/// A cell of the wall grid, one row and one column smaller than the pawn grid.
pub open spec fn in_wall_grid(y: int, x: int) -> bool {
    0 <= y < H - 1 && 0 <= x < W - 1
}

/// Row offset of the `k`-th of the four directions: up, left, down, right.
pub open spec fn off_y(k: int) -> int {
    if k == 0 {
        -1
    } else if k == 2 {
        1
    } else {
        0
    }
}

/// Column offset of the `k`-th of the four directions: up, left, down, right.
pub open spec fn off_x(k: int) -> int {
    if k == 1 {
        -1
    } else if k == 3 {
        1
    } else {
        0
    }
}

pub fn in_area(y: usize, x: usize) -> (r: bool)
    ensures
        r == in_board(y as int, x as int),
{
    y < H && x < W
}

pub fn in_wall_area(y: i8, x: i8) -> (r: bool)
    ensures
        r == in_wall_grid(y as int, x as int),
{
    0 <= y && y < (H - 1) as i8 && 0 <= x && x < (W - 1) as i8
}

/// The `k`-th of the four directions as a (row, column) offset.
pub fn dpos(k: usize) -> (r: (i8, i8))
    requires
        k < 4,
    ensures
        r.0 == off_y(k as int),
        r.1 == off_x(k as int),
{
    if k == 0 {
        (-1, 0)
    } else if k == 1 {
        (0, -1)
    } else if k == 2 {
        (1, 0)
    } else {
        (0, 1)
    }
}

fn copy_row(row: &Vec<Option<(Dir, Colour)>>) -> (r: Vec<Option<(Dir, Colour)>>)
    ensures
        r@ == row@,
{
    let mut r: Vec<Option<(Dir, Colour)>> = Vec::new();
    let mut j: usize = 0;
    while j < row.len()
        invariant
            j <= row@.len(),
            r@ == row@.subrange(0, j as int),
        decreases row@.len() - j,
    {
        r.push(row[j]);
        j = j + 1;
        assert(r@ =~= row@.subrange(0, j as int));
    }
    assert(r@ =~= row@);
    r
}

/// The wall grid as rows of cells.
pub type Grid = Seq<Seq<Option<(Dir, Colour)>>>;

/// The content of a wall cell; `None` off the wall grid.
pub open spec fn cell(g: Grid, y: int, x: int) -> Option<(Dir, Colour)> {
    if in_wall_grid(y, x) {
        g[y][x]
    } else {
        None
    }
}

/// The wall grid of a new match: every cell empty.
pub open spec fn empty_grid() -> Grid {
    Seq::new((H - 1) as nat, |i: int| Seq::new((W - 1) as nat, |j: int| None))
}

/// `g` with a segment placed in cell `(y, x)`.
pub open spec fn with_wall(g: Grid, y: int, x: int, d: Dir, c: Colour) -> Grid {
    g.update(y, g[y].update(x, Some((d, c))))
}

/// The wall cell holds a segment of orientation `dir`.
pub open spec fn has(g: Grid, y: int, x: int, dir: Dir) -> bool {
    match cell(g, y, x) {
        Some((d, _)) => d == dir,
        None => false,
    }
}

/// A wall blocks the edge that leaves pawn cell `(y, x)` by offset `(dy, dx)`.
pub open spec fn blocked(g: Grid, y: int, x: int, dy: int, dx: int) -> bool {
    if dx != 0 {
        if dx == 1 {
            has(g, y - 1, x, Dir::Vertical) || has(g, y, x, Dir::Vertical)
        } else {
            has(g, y - 1, x - 1, Dir::Vertical) || has(g, y, x - 1, Dir::Vertical)
        }
    } else {
        if dy == 1 {
            has(g, y, x, Dir::Horizontal) || has(g, y, x - 1, Dir::Horizontal)
        } else {
            has(g, y - 1, x, Dir::Horizontal) || has(g, y - 1, x - 1, Dir::Horizontal)
        }
    }
}

/// The `k`-th direction leads from `(y, x)` to a cell of the board through
/// no wall.
pub open spec fn opens(g: Grid, y: int, x: int, k: int) -> bool {
    &&& !blocked(g, y, x, off_y(k), off_x(k))
    &&& in_board(y + off_y(k), x + off_x(k))
}

/// A pawn steps from `a` to `b` in one move that ignores other pawns.
pub open spec fn step(g: Grid, a: (int, int), b: (int, int)) -> bool {
    exists|k: int|
        0 <= k < 4 && #[trigger] opens(g, a.0, a.1, k) && b == (a.0 + off_y(k), a.1 + off_x(k))
}

/// A walk on the board through steps.
pub open spec fn is_path(g: Grid, p: Seq<(int, int)>) -> bool {
    &&& p.len() > 0
    &&& in_board(p[0].0, p[0].1)
    &&& forall|i: int| 0 <= i < p.len() - 1 ==> #[trigger] step(g, p[i], p[i + 1])
}

/// Some walk leads from `(y, x)` to row `gy`.
pub open spec fn can_reach(g: Grid, y: int, x: int, gy: int) -> bool {
    exists|p: Seq<(int, int)>|
        #[trigger] is_path(g, p) && p[0] == (y, x) && p.last().0 == gy
}

/// Some walk leads from `(y, x)` to `(a, b)`.
pub open spec fn reach_from(g: Grid, y: int, x: int, a: int, b: int) -> bool {
    exists|p: Seq<(int, int)>| #[trigger] is_path(g, p) && p[0] == (y, x) && p.last() == (a, b)
}

/// The cell `(y, x)` of the pawn grid is marked in `v`, which lists the
/// cells row by row.
pub open spec fn seen(v: Seq<bool>, y: int, x: int) -> bool {
    v[y * (W as int) + x]
}

/// The cell `(y, x)` stands somewhere in `s`.
pub open spec fn on_stack(s: Seq<(i8, i8)>, y: int, x: int) -> bool {
    exists|j: int| 0 <= j < s.len() && s[j].0 as int == y && #[trigger] s[j].1 as int == x
}

/// The number of marks in `v`.
pub open spec fn count_true(v: Seq<bool>) -> nat
    decreases v.len(),
{
    if v.len() == 0 {
        0
    } else {
        count_true(v.drop_last()) + if v.last() { 1nat } else { 0nat }
    }
}

proof fn lemma_count_true_le(v: Seq<bool>)
    ensures
        count_true(v) <= v.len(),
    decreases v.len(),
{
    if v.len() > 0 {
        lemma_count_true_le(v.drop_last());
    }
}

proof fn lemma_count_true_all_false(n: nat)
    ensures
        count_true(Seq::new(n, |i: int| false)) == 0,
    decreases n,
{
    if n > 0 {
        assert(Seq::new(n, |i: int| false).drop_last() =~= Seq::new((n - 1) as nat, |i: int| false));
        lemma_count_true_all_false((n - 1) as nat);
    }
}

proof fn lemma_count_true_update(v: Seq<bool>, i: int)
    requires
        0 <= i < v.len(),
        !v[i],
    ensures
        count_true(v.update(i, true)) == count_true(v) + 1,
    decreases v.len(),
{
    let u = v.update(i, true);
    if i == v.len() - 1 {
        assert(u.drop_last() =~= v.drop_last());
    } else {
        assert(u.drop_last() =~= v.drop_last().update(i, true));
        lemma_count_true_update(v.drop_last(), i);
    }
}

/// Two cells of the pawn grid share an index only when they are equal.
proof fn lemma_cell_index(a: int, b: int, c: int, d: int)
    requires
        in_board(a, b),
        in_board(c, d),
    ensures
        0 <= a * (W as int) + b < H * W,
        (a * (W as int) + b == c * (W as int) + d) <==> (a == c && b == d),
{
}

/// The wall segments of a match, indexed by wall-grid row and column.
pub struct WallTable {
    data: Vec<Vec<Option<(Dir, Colour)>>>,
}

impl View for WallTable {
    type V = Grid;

    closed spec fn view(&self) -> Grid {
        self.data@.map_values(|r: Vec<Option<(Dir, Colour)>>| r@)
    }
}

impl WallTable {
    /// Every row of the grid is there, each with every column.
    pub closed spec fn wf(&self) -> bool {
        &&& self.data@.len() == H - 1
        &&& forall|i: int| 0 <= i < H - 1 ==> (#[trigger] self.data@[i])@.len() == W - 1
    }

    pub fn get(&self, y: i8, x: i8) -> (r: Option<(Dir, Colour)>)
        requires
            self.wf(),
        ensures
            r == cell(self@, y as int, x as int),
    {
        if in_wall_area(y, x) {
            self.data[y as usize][x as usize]
        } else {
            None
        }
    }

    pub fn set(&mut self, y: i8, x: i8, dir: Dir, c: Colour)
        requires
            old(self).wf(),
            in_wall_grid(y as int, x as int),
        ensures
            final(self).wf(),
            final(self)@ == with_wall(old(self)@, y as int, x as int, dir, c),
            forall|i: int, j: int|
                #[trigger] cell(final(self)@, i, j) == if i == y && j == x {
                    Some((dir, c))
                } else {
                    cell(old(self)@, i, j)
                },
    {
        let yy = y as usize;
        let xx = x as usize;
        let mut row = copy_row(&self.data[yy]);
        row.set(xx, Some((dir, c)));
        self.data.set(yy, row);
        assert forall|i: int| 0 <= i < H - 1 implies (#[trigger] self.data@[i])@.len() == W - 1 by {
            if i != yy {
                assert(self.data@[i] == old(self).data@[i]);
            }
        }
        assert(self@ =~= with_wall(old(self)@, y as int, x as int, dir, c));
    }

    /// An empty wall grid.
    pub fn new() -> (r: WallTable)
        ensures
            r.wf(),
            r@ == empty_grid(),
            forall|i: int, j: int| #[trigger] cell(r@, i, j) is None,
    {
        let mut data: Vec<Vec<Option<(Dir, Colour)>>> = Vec::new();
        let mut i: usize = 0;
        while i < H - 1
            invariant
                i <= H - 1,
                data@.len() == i,
                forall|a: int| 0 <= a < i ==> (#[trigger] data@[a])@.len() == W - 1,
                forall|a: int, b: int| 0 <= a < i && 0 <= b < W - 1 ==> (#[trigger] data@[a]@[b]) is None,
            decreases H - 1 - i,
        {
            let mut row: Vec<Option<(Dir, Colour)>> = Vec::new();
            let mut j: usize = 0;
            while j < W - 1
                invariant
                    j <= W - 1,
                    row@.len() == j,
                    forall|b: int| 0 <= b < j ==> (#[trigger] row@[b]) is None,
                decreases W - 1 - j,
            {
                row.push(None);
                j = j + 1;
            }
            data.push(row);
            i = i + 1;
        }
        let r = WallTable { data };
        assert(r@ =~= empty_grid()) by {
            assert forall|a: int| 0 <= a < H - 1 implies #[trigger] r@[a] =~= empty_grid()[a] by {
                assert(r@[a] == data@[a]@);
            }
        }
        r
    }

    /// A grid with the same segments.
    pub fn duplicate(&self) -> (r: WallTable)
        requires
            self.wf(),
        ensures
            r.wf(),
            r@ == self@,
    {
        let mut data: Vec<Vec<Option<(Dir, Colour)>>> = Vec::new();
        let mut i: usize = 0;
        while i < H - 1
            invariant
                i <= H - 1,
                self.wf(),
                data@.len() == i,
                forall|a: int| 0 <= a < i ==> (#[trigger] data@[a])@ == self.data@[a]@,
            decreases H - 1 - i,
        {
            data.push(copy_row(&self.data[i]));
            i = i + 1;
        }
        let r = WallTable { data };
        assert(r@ =~= self@);
        r
    }

    pub fn checkwalldir(&self, y: i8, x: i8, dir: Dir) -> (r: bool)
        requires
            self.wf(),
        ensures
            r == has(self@, y as int, x as int, dir),
    {
        match self.get(y, x) {
            Some((d, _)) => d == dir,
            None => false,
        }
    }

    /// Whether a wall blocks the edge that leaves `(y, x)` by `(dy, dx)`, one of
    /// the four directions.
    pub fn exist_wall(&self, y: i8, x: i8, dy: i8, dx: i8) -> (r: bool)
        requires
            self.wf(),
            -10 <= y <= 10,
            -10 <= x <= 10,
        ensures
            r == blocked(self@, y as int, x as int, dy as int, dx as int),
    {
        let (y1, x1, y2, x2, dir) = if dx != 0 {
            if dx == 1 {
                (y - 1, x, y, x, Dir::Vertical)
            } else {
                (y - 1, x - 1, y, x - 1, Dir::Vertical)
            }
        } else {
            if dy == 1 {
                (y, x, y, x - 1, Dir::Horizontal)
            } else {
                (y - 1, x, y - 1, x - 1, Dir::Horizontal)
            }
        };
        self.checkwalldir(y1, x1, dir) || self.checkwalldir(y2, x2, dir)
    }

    /// The directions, by index, in which a pawn at `(y, x)` can step when
    /// only walls are considered.
    pub fn next_wallmoves(&self, y: i8, x: i8) -> (r: Vec<usize>)
        requires
            self.wf(),
            in_board(y as int, x as int),
        ensures
            forall|k: int| 0 <= k < 4 ==> (opens(self@, y as int, x as int, k) <==> r@.contains(k as usize)),
            forall|i: int| 0 <= i < r@.len() ==> #[trigger] r@[i] < 4 && opens(self@, y as int, x as int, r@[i] as int),
    {
        let mut wallmoves: Vec<usize> = Vec::new();
        let mut k: usize = 0;
        while k < 4
            invariant
                k <= 4,
                self.wf(),
                in_board(y as int, x as int),
                forall|j: int| 0 <= j < 4 ==> (j < k && opens(self@, y as int, x as int, j) <==> wallmoves@.contains(j as usize)),
                forall|i: int| 0 <= i < wallmoves@.len() ==> #[trigger] wallmoves@[i] < 4 && opens(self@, y as int, x as int, wallmoves@[i] as int),
            decreases 4 - k,
        {
            let ghost before = wallmoves@;
            let (dy, dx) = dpos(k);
            if !self.exist_wall(y, x, dy, dx) {
                let ny = y + dy;
                let nx = x + dx;
                if 0 <= ny && ny < H as i8 && 0 <= nx && nx < W as i8 {
                    wallmoves.push(k);
                }
            }
            proof {
                assert forall|j: int| 0 <= j < 4 implies (j < k + 1 && opens(self@, y as int, x as int, j)
                    <==> wallmoves@.contains(j as usize)) by {
                    if wallmoves@.contains(j as usize) {
                        let i = choose|i: int| 0 <= i < wallmoves@.len() && wallmoves@[i] == j as usize;
                        if i < before.len() {
                            assert(before[i] == wallmoves@[i]);
                        }
                    }
                    if j < k && opens(self@, y as int, x as int, j) {
                        let i = choose|i: int| 0 <= i < before.len() && before[i] == j as usize;
                        assert(wallmoves@[i] == before[i]);
                    }
                    if j == k && opens(self@, y as int, x as int, j) {
                        assert(wallmoves@[wallmoves@.len() - 1] == k);
                    }
                }
            }
            k = k + 1;
        }
        wallmoves
    }

    proof fn lemma_step_intro(&self, a: (int, int), b: (int, int), k: int)
        requires
            0 <= k < 4,
            opens(self@, a.0, a.1, k),
            b == (a.0 + off_y(k), a.1 + off_x(k)),
        ensures
            step(self@, a, b),
    {
    }

    proof fn lemma_reach_extend(&self, s: (int, int), c: (int, int), n: (int, int))
        requires
            reach_from(self@, s.0, s.1, c.0, c.1),
            step(self@, c, n),
        ensures
            reach_from(self@, s.0, s.1, n.0, n.1),
    {
        let p = choose|p: Seq<(int, int)>| #[trigger] is_path(self@, p) && p[0] == s && p.last() == c;
        self.lemma_path_extend(p, n);
        assert(is_path(self@, p.push(n)) && p.push(n)[0] == s && p.push(n).last() == n);
    }

    proof fn lemma_reach_goal(&self, s: (int, int), n: (int, int))
        requires
            reach_from(self@, s.0, s.1, n.0, n.1),
        ensures
            can_reach(self@, s.0, s.1, n.0),
    {
        let p = choose|p: Seq<(int, int)>| #[trigger] is_path(self@, p) && p[0] == s && p.last() == n;
        assert(is_path(self@, p) && p[0] == s && p.last().0 == n.0);
    }

    proof fn lemma_path_extend(&self, p: Seq<(int, int)>, n: (int, int))
        requires
            is_path(self@, p),
            step(self@, p.last(), n),
        ensures
            is_path(self@, p.push(n)),
            p.push(n)[0] == p[0],
            p.push(n).last() == n,
    {
        let q = p.push(n);
        assert forall|i: int| 0 <= i < q.len() - 1 implies #[trigger] step(self@, q[i], q[i + 1]) by {
            if i < p.len() - 1 {
                assert(q[i] == p[i] && q[i + 1] == p[i + 1]);
            } else {
                assert(q[i] == p.last() && q[i + 1] == n);
            }
        }
    }

    /// Every cell of a walk that starts in a set closed under steps lies in
    /// that set.
    proof fn lemma_closed_path(&self, v: Seq<bool>, p: Seq<(int, int)>, i: int)
        requires
            v.len() == H * W,
            forall|a: int, b: int, k: int|
                #![trigger seen(v, a, b), opens(self@, a, b, k)]
                in_board(a, b) && 0 <= k < 4 && seen(v, a, b) && opens(self@, a, b, k) ==> seen(
                    v,
                    a + off_y(k),
                    b + off_x(k),
                ),
            is_path(self@, p),
            seen(v, p[0].0, p[0].1),
            0 <= i < p.len(),
        ensures
            in_board(p[i].0, p[i].1),
            seen(v, p[i].0, p[i].1),
        decreases i,
    {
        if i > 0 {
            self.lemma_closed_path(v, p, i - 1);
            let j = i - 1;
            assert(step(self@, p[j], p[j + 1]));
            assert(p[j + 1] == p[i]);
            let k = choose|k: int|
                0 <= k < 4 && #[trigger] opens(self@, p[i - 1].0, p[i - 1].1, k) && p[i] == (
                    p[i - 1].0 + off_y(k),
                    p[i - 1].1 + off_x(k),
                );
            assert(seen(v, p[i - 1].0, p[i - 1].1));
        }
    }

    /// Searches depth first, from `(y, x)`, for a cell of row `gy`; `visited`
    /// marks the cells already explored, row by row.
    pub fn dfs(&self, y: i8, x: i8, gy: i8, visited: &mut Vec<bool>) -> (r: bool)
        requires
            self.wf(),
            in_board(y as int, x as int),
            old(visited)@ == Seq::new((H * W) as nat, |i: int| false),
        ensures
            r == can_reach(self@, y as int, x as int, gy as int),
    {
        let ghost start = (y as int, x as int);
        if y == gy {
            assert(is_path(self@, seq![start]));
            assert(seq![start].last() == start);
            return true;
        }
        let ghost v0 = visited@;
        let idx0: usize = (y as usize) * W + (x as usize);
        visited.set(idx0, true);
        proof {
            lemma_count_true_update(v0, idx0 as int);
            lemma_count_true_all_false((H * W) as nat);
            assert(v0 =~= Seq::new((H * W) as nat, |i: int| false));
            assert(is_path(self@, seq![start]));
            assert(seq![start].last() == start);
            assert forall|a: int, b: int| in_board(a, b) && #[trigger] seen(visited@, a, b) implies a != gy
                && reach_from(self@, y as int, x as int, a, b) by {
                lemma_cell_index(a, b, y as int, x as int);
            }
        }
        let mut stack: Vec<(i8, i8)> = Vec::new();
        stack.push((y, x));
        proof {
            assert(stack@[0] == (y, x));
            assert(on_stack(stack@, y as int, x as int));
            assert forall|a: int, b: int| in_board(a, b) && #[trigger] seen(visited@, a, b) implies a == y && b == x by {
                lemma_cell_index(a, b, y as int, x as int);
                lemma_cell_index(a, b, 0, 0);
            }
        }
        let ghost mut count: nat = 1;
        while stack.len() > 0
            invariant
                self.wf(),
                in_board(y as int, x as int),
                visited@.len() == H * W,
                count == count_true(visited@),
                seen(visited@, y as int, x as int),
                forall|j: int|
                    0 <= j < stack@.len() ==> in_board(#[trigger] stack@[j].0 as int, stack@[j].1 as int)
                        && seen(visited@, stack@[j].0 as int, stack@[j].1 as int),
                forall|i: int, j: int| 0 <= i < j < stack@.len() ==> #[trigger] stack@[i] != #[trigger] stack@[j],
                forall|a: int, b: int|
                    in_board(a, b) && #[trigger] seen(visited@, a, b) ==> a != gy && reach_from(self@, 
                        y as int,
                        x as int,
                        a,
                        b,
                    ),
                forall|a: int, b: int, k: int|
                    #![trigger seen(visited@, a, b), opens(self@, a, b, k)]
                    in_board(a, b) && 0 <= k < 4 && seen(visited@, a, b) && !on_stack(stack@, a, b)
                        && opens(self@, a, b, k) ==> seen(visited@, a + off_y(k), b + off_x(k)),
            decreases 2 * (H * W - count) + stack@.len(),
        {
            proof {
                lemma_count_true_le(visited@);
            }
            let ghost measure = 2 * (H * W - count) + stack@.len();
            let ghost before = stack@;
            let (cy, cx) = match stack.pop() {
                Some(c) => c,
                None => (y, x),
            };
            assert(before == stack@.push((cy, cx)));
            proof {
                assert forall|a: int, b: int| in_board(a, b) && (a, b) != (cy as int, cx as int) && on_stack(before, a, b)
                    implies on_stack(stack@, a, b) by {
                    let j = choose|j: int| 0 <= j < before.len() && before[j].0 as int == a && before[j].1 as int == b;
                    assert(j < stack@.len());
                    assert(stack@[j] == before[j]);
                }
                assert(!on_stack(stack@, cy as int, cx as int)) by {
                    if on_stack(stack@, cy as int, cx as int) {
                        let j = choose|j: int| 0 <= j < stack@.len() && stack@[j].0 as int == cy as int && stack@[j].1 as int == cx as int;
                        assert(before[j] == before[before.len() - 1]);
                    }
                }
            }
            let moves = self.next_wallmoves(cy, cx);
            let mut m: usize = 0;
            while m < moves.len()
                invariant
                    self.wf(),
                    in_board(y as int, x as int),
                    in_board(cy as int, cx as int),
                    seen(visited@, cy as int, cx as int),
                    !on_stack(stack@, cy as int, cx as int),
                    m <= moves@.len(),
                    forall|i: int| 0 <= i < moves@.len() ==> #[trigger] moves@[i] < 4 && opens(self@, cy as int, cx as int, moves@[i] as int),
                    forall|k: int| 0 <= k < 4 ==> (opens(self@, cy as int, cx as int, k) <==> moves@.contains(k as usize)),
                    forall|i: int| 0 <= i < m ==> seen(visited@, cy + off_y(#[trigger] moves@[i] as int), cx + off_x(moves@[i] as int)),
                    visited@.len() == H * W,
                    count == count_true(visited@),
                    count <= H * W,
                    2 * (H * W - count) + stack@.len() < measure,
                    seen(visited@, y as int, x as int),
                    forall|j: int|
                        0 <= j < stack@.len() ==> in_board(#[trigger] stack@[j].0 as int, stack@[j].1 as int)
                            && seen(visited@, stack@[j].0 as int, stack@[j].1 as int),
                    forall|i: int, j: int| 0 <= i < j < stack@.len() ==> #[trigger] stack@[i] != #[trigger] stack@[j],
                    forall|a: int, b: int|
                        in_board(a, b) && #[trigger] seen(visited@, a, b) ==> a != gy && reach_from(self@, 
                            y as int,
                            x as int,
                            a,
                            b,
                        ),
                    forall|a: int, b: int, k: int|
                        #![trigger seen(visited@, a, b), opens(self@, a, b, k)]
                        in_board(a, b) && 0 <= k < 4 && seen(visited@, a, b) && !on_stack(stack@, a, b)
                            && (a, b) != (cy as int, cx as int)
                            && opens(self@, a, b, k) ==> seen(visited@, a + off_y(k), b + off_x(k)),
                decreases moves@.len() - m,
            {
                let k = moves[m];
                let (dy, dx) = dpos(k);
                let ny = cy + dy;
                let nx = cx + dx;
                let idx: usize = (ny as usize) * W + (nx as usize);
                assert(opens(self@, cy as int, cx as int, k as int));
                proof {
                    lemma_cell_index(ny as int, nx as int, 0, 0);
                }
                if !visited[idx] {
                    proof {
                        self.lemma_step_intro((cy as int, cx as int), (ny as int, nx as int), k as int);
                        self.lemma_reach_extend((y as int, x as int), (cy as int, cx as int), (ny as int, nx as int));
                        self.lemma_reach_goal((y as int, x as int), (ny as int, nx as int));
                    }
                    if ny == gy {
                        return true;
                    }
                    let ghost vb = visited@;
                    let ghost sb = stack@;
                    visited.set(idx, true);
                    stack.push((ny, nx));
                    proof {
                        lemma_count_true_update(vb, idx as int);
                        count = count + 1;
                        lemma_count_true_le(visited@);
                        assert forall|a: int, b: int| in_board(a, b) implies #[trigger] seen(visited@, a, b)
                            == (seen(vb, a, b) || (a == ny && b == nx)) by {
                            lemma_cell_index(a, b, ny as int, nx as int);
                        }
                        assert forall|a: int, b: int| in_board(a, b) && on_stack(sb, a, b) implies on_stack(stack@, a, b) by {
                            let j = choose|j: int| 0 <= j < sb.len() && sb[j].0 as int == a && sb[j].1 as int == b;
                            assert(stack@[j] == sb[j]);
                        }
                        assert forall|j: int| 0 <= j < stack@.len() implies in_board(#[trigger] stack@[j].0 as int, stack@[j].1 as int)
                            && seen(visited@, stack@[j].0 as int, stack@[j].1 as int) by {
                            if j < sb.len() {
                                assert(stack@[j] == sb[j]);
                            }
                        }
                        assert forall|i: int, j: int| 0 <= i < j < stack@.len() implies #[trigger] stack@[i] != #[trigger] stack@[j] by {
                            if j == stack@.len() - 1 {
                                assert(stack@[i] == sb[i]);
                                assert(seen(vb, sb[i].0 as int, sb[i].1 as int));
                            } else {
                                assert(stack@[i] == sb[i] && stack@[j] == sb[j]);
                            }
                        }
                        assert(!on_stack(stack@, cy as int, cx as int)) by {
                            if on_stack(stack@, cy as int, cx as int) {
                                let j = choose|j: int| 0 <= j < stack@.len() && stack@[j].0 as int == cy as int && stack@[j].1 as int == cx as int;
                                if j < sb.len() {
                                    assert(stack@[j] == sb[j]);
                                }
                            }
                        }
                        assert(stack@[stack@.len() - 1] == (ny, nx));
                        assert(on_stack(stack@, ny as int, nx as int));
                        assert forall|a: int, b: int, kk: int|
                            #![trigger seen(visited@, a, b), opens(self@, a, b, kk)]
                            in_board(a, b) && 0 <= kk < 4 && seen(visited@, a, b) && !on_stack(stack@, a, b)
                                && (a, b) != (cy as int, cx as int)
                                && opens(self@, a, b, kk) implies seen(visited@, a + off_y(kk), b + off_x(kk)) by {
                            assert(seen(vb, a, b));
                            assert(!on_stack(sb, a, b));
                            assert(seen(vb, a + off_y(kk), b + off_x(kk)));
                        }
                    }
                }
                m = m + 1;
            }
            proof {
                assert forall|k: int| 0 <= k < 4 && opens(self@, cy as int, cx as int, k) implies seen(visited@, cy + off_y(k), cx + off_x(k)) by {
                    assert(moves@.contains(k as usize));
                    let i = choose|i: int| 0 <= i < moves@.len() && moves@[i] == k as usize;
                    assert(seen(visited@, cy + off_y(moves@[i] as int), cx + off_x(moves@[i] as int)));
                }
            }
        }
        proof {
            if can_reach(self@, y as int, x as int, gy as int) {
                let p = choose|p: Seq<(int, int)>| #[trigger] is_path(self@, p) && p[0] == start && p.last().0 == gy;
                assert forall|a: int, b: int, k: int|
                    #![trigger seen(visited@, a, b), opens(self@, a, b, k)]
                    in_board(a, b) && 0 <= k < 4 && seen(visited@, a, b) && opens(self@, a, b, k) implies seen(
                        visited@,
                        a + off_y(k),
                        b + off_x(k),
                    ) by {
                    assert(!on_stack(stack@, a, b));
                }
                self.lemma_closed_path(visited@, p, p.len() - 1);
            }
        }
        false
    }

    /// Whether some walk leads from `(y, x)` to row `gy`.
    pub fn reachable(&self, y: i8, x: i8, gy: i8) -> (r: bool)
        requires
            self.wf(),
            in_board(y as int, x as int),
        ensures
            r == can_reach(self@, y as int, x as int, gy as int),
    {
        let mut visited: Vec<bool> = Vec::new();
        let mut i: usize = 0;
        while i < H * W
            invariant
                i <= H * W,
                visited@ == Seq::new(i as nat, |j: int| false),
            decreases H * W - i,
        {
            visited.push(false);
            i = i + 1;
            assert(visited@ =~= Seq::new(i as nat, |j: int| false));
        }
        self.dfs(y, x, gy, &mut visited)
    }
}

} // verus!
