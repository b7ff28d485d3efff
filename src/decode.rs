//! Reading the viewer snapshot and the move history back from their bits:
//! the encodings lose nothing of the state they describe.
use crate::base64::{
    base64_text, bits_of_nat, lemma_bits_of_nat_len, lemma_nat_of_bits_of_nat, lemma_text_round_trip,
    nat_of_bits, text_bits,
};
use crate::board::{cell, in_board, in_wall_grid, Colour, Dir, Grid, H, W};
use crate::codec::{
    codes_bits, group_bits, history_bits, last_bits, pos_code, record_bits, records_bits, row_walls,
    rows_walls, view_bits, wall_code, wall_list,
};
use crate::game::{record_ok, Quoridor, Record};
use vstd::arithmetic::div_mod::lemma_fundamental_div_mod_converse;
use vstd::arithmetic::power2::lemma2_to64;
use vstd::prelude::*;

verus! {

/// The number in bits `pos .. pos + w` of `b`.
pub open spec fn field(b: Seq<bool>, pos: int, w: nat) -> nat {
    nat_of_bits(b.subrange(pos, pos + w))
}

/// The pawn cell that a 7-bit code names.
pub open spec fn pos_of_code(c: nat) -> (int, int) {
    (H - 1 - c / (W as nat), (c % (W as nat)) as int)
}

/// The wall cell that a 6-bit code names.
pub open spec fn wall_of_code(c: nat) -> (int, int) {
    (W - 2 - c / ((W - 1) as nat), (c % ((W - 1) as nat)) as int)
}

/// The wall codes of the group that starts at bit `pos`.
pub open spec fn group_codes(b: Seq<bool>, pos: int) -> Seq<nat> {
    Seq::new(field(b, pos, 4), |i: int| field(b, pos + 4 + 6 * i, 6))
}

/// Where the group that starts at bit `pos` ends.
pub open spec fn group_end(b: Seq<bool>, pos: int) -> int {
    pos + 4 + 6 * field(b, pos, 4)
}

/// Where the `k`-th wall group of a viewer snapshot starts; the fourth ends
/// where the turn flag stands.
pub open spec fn group_start(b: Seq<bool>, k: nat) -> int
    decreases k,
{
    if k == 0 {
        16
    } else {
        group_end(b, group_start(b, (k - 1) as nat))
    }
}

/// The content of wall cell `(y, x)` that a viewer snapshot describes.
pub open spec fn view_cell(b: Seq<bool>, y: int, x: int) -> Option<(Dir, Colour)> {
    let c = wall_code(y, x);
    if group_codes(b, group_start(b, 0)).contains(c) {
        Some((Dir::Horizontal, Colour::White))
    } else if group_codes(b, group_start(b, 1)).contains(c) {
        Some((Dir::Vertical, Colour::White))
    } else if group_codes(b, group_start(b, 2)).contains(c) {
        Some((Dir::Horizontal, Colour::Black))
    } else if group_codes(b, group_start(b, 3)).contains(c) {
        Some((Dir::Vertical, Colour::Black))
    } else {
        None
    }
}

/// The player to move that a viewer snapshot describes: true for White.
pub open spec fn view_white_turn(b: Seq<bool>) -> bool {
    b[group_start(b, 4)]
}

/// The last wall that a viewer snapshot describes.
pub open spec fn view_last(b: Seq<bool>) -> Option<(int, int)> {
    let t = group_start(b, 4);
    if b[t + 1] {
        Some(wall_of_code(field(b, t + 2, 6)))
    } else {
        None
    }
}

/// The turn counter that a viewer snapshot describes.
pub open spec fn view_turn(b: Seq<bool>) -> nat {
    let t = group_start(b, 4);
    field(b, t + 2 + if b[t + 1] { 6int } else { 0int }, 10)
}

proof fn lemma_wall_code(y: int, x: int, y0: int, x0: int)
    requires
        in_wall_grid(y, x),
        in_wall_grid(y0, x0),
    ensures
        wall_code(y, x) < 64,
        wall_of_code(wall_code(y, x)) == (y, x),
        wall_code(y, x) == wall_code(y0, x0) <==> (y == y0 && x == x0),
{
    assert(W == 9);
    assert(wall_code(y, x) == (7 - y) * 8 + x) by (nonlinear_arith)
        requires
            W == 9,
            0 <= y < 8,
            0 <= x < 8,
    ;
    assert(wall_code(y0, x0) == (7 - y0) * 8 + x0) by (nonlinear_arith)
        requires
            W == 9,
            0 <= y0 < 8,
            0 <= x0 < 8,
    ;
    lemma_fundamental_div_mod_converse(wall_code(y, x) as int, 8, 7 - y, x);
    lemma_fundamental_div_mod_converse(wall_code(y0, x0) as int, 8, 7 - y0, x0);
}

proof fn lemma_pos_code(y: int, x: int)
    requires
        in_board(y, x),
    ensures
        pos_code(y, x) < 128,
        pos_of_code(pos_code(y, x)) == (y, x),
{
    assert(pos_code(y, x) == (8 - y) * 9 + x) by (nonlinear_arith)
        requires
            H == 9,
            W == 9,
            0 <= y < 9,
            0 <= x < 9,
    ;
    lemma_fundamental_div_mod_converse(pos_code(y, x) as int, 9, 8 - y, x);
}

proof fn lemma_row_walls_mem(g: Grid, d: Dir, c: Colour, y: int, x: int, y0: int, x0: int)
    requires
        0 <= y < H - 1,
        0 <= x <= W - 1,
        in_wall_grid(y0, x0),
    ensures
        row_walls(g, d, c, y, x).contains(wall_code(y0, x0)) <==> (y == y0 && x0 < x && cell(g, y0, x0)
            == Some((d, c))),
        forall|i: int| 0 <= i < row_walls(g, d, c, y, x).len() ==> #[trigger] row_walls(g, d, c, y, x)[i] < 64,
    decreases x,
{
    if x > 0 {
        lemma_row_walls_mem(g, d, c, y, x - 1, y0, x0);
        lemma_wall_code(y, x - 1, y0, x0);
        let a = row_walls(g, d, c, y, x - 1);
        let e = if cell(g, y, x - 1) == Some((d, c)) {
            seq![wall_code(y, x - 1)]
        } else {
            Seq::empty()
        };
        assert(row_walls(g, d, c, y, x) == a + e);
        assert(e.contains(wall_code(y0, x0)) <==> (cell(g, y, x - 1) == Some((d, c)) && wall_code(y, x - 1)
            == wall_code(y0, x0))) by {
            if cell(g, y, x - 1) == Some((d, c)) && wall_code(y, x - 1) == wall_code(y0, x0) {
                assert(e[0] == wall_code(y0, x0));
            }
        }
        assert((a + e).contains(wall_code(y0, x0)) <==> (a.contains(wall_code(y0, x0)) || e.contains(wall_code(y0, x0)))) by {
            if (a + e).contains(wall_code(y0, x0)) {
                let i = choose|i: int| 0 <= i < (a + e).len() && (a + e)[i] == wall_code(y0, x0);
                if i >= a.len() {
                    assert(e[i - a.len()] == wall_code(y0, x0));
                }
            }
            if a.contains(wall_code(y0, x0)) {
                let i = choose|i: int| 0 <= i < a.len() && a[i] == wall_code(y0, x0);
                assert((a + e)[i] == wall_code(y0, x0));
            }
            if e.contains(wall_code(y0, x0)) {
                assert((a + e)[a.len() as int] == wall_code(y0, x0));
            }
        }
        assert forall|i: int| 0 <= i < (a + e).len() implies #[trigger] (a + e)[i] < 64 by {
            if i < a.len() {
                assert((a + e)[i] == a[i]);
            } else {
                assert((a + e)[i] == e[i - a.len()]);
            }
        }
    } else {
        assert(!row_walls(g, d, c, y, x).contains(wall_code(y0, x0)));
    }
}

proof fn lemma_rows_walls_mem(g: Grid, d: Dir, c: Colour, y: int, y0: int, x0: int)
    requires
        0 <= y <= H - 1,
        in_wall_grid(y0, x0),
    ensures
        rows_walls(g, d, c, y).contains(wall_code(y0, x0)) <==> (y0 < y && cell(g, y0, x0) == Some((d, c))),
        forall|i: int| 0 <= i < rows_walls(g, d, c, y).len() ==> #[trigger] rows_walls(g, d, c, y)[i] < 64,
    decreases y,
{
    if y > 0 {
        lemma_rows_walls_mem(g, d, c, y - 1, y0, x0);
        lemma_row_walls_mem(g, d, c, y - 1, W - 1, y0, x0);
        let a = rows_walls(g, d, c, y - 1);
        let e = row_walls(g, d, c, y - 1, W - 1);
        assert(rows_walls(g, d, c, y) == a + e);
        assert((a + e).contains(wall_code(y0, x0)) <==> (a.contains(wall_code(y0, x0)) || e.contains(wall_code(y0, x0)))) by {
            if (a + e).contains(wall_code(y0, x0)) {
                let i = choose|i: int| 0 <= i < (a + e).len() && (a + e)[i] == wall_code(y0, x0);
                if i >= a.len() {
                    assert(e[i - a.len()] == wall_code(y0, x0));
                }
            }
            if a.contains(wall_code(y0, x0)) {
                let i = choose|i: int| 0 <= i < a.len() && a[i] == wall_code(y0, x0);
                assert((a + e)[i] == wall_code(y0, x0));
            }
            if e.contains(wall_code(y0, x0)) {
                let i = choose|i: int| 0 <= i < e.len() && e[i] == wall_code(y0, x0);
                assert((a + e)[a.len() + i] == wall_code(y0, x0));
            }
        }
        assert forall|i: int| 0 <= i < (a + e).len() implies #[trigger] (a + e)[i] < 64 by {
            if i < a.len() {
                assert((a + e)[i] == a[i]);
            } else {
                assert((a + e)[i] == e[i - a.len()]);
            }
        }
    } else {
        assert(!rows_walls(g, d, c, y).contains(wall_code(y0, x0)));
    }
}

proof fn lemma_codes_bits_index(l: Seq<nat>, i: int)
    requires
        0 <= i < l.len(),
    ensures
        codes_bits(l, 6).len() == 6 * l.len(),
        codes_bits(l, 6).subrange(6 * i, 6 * i + 6) == bits_of_nat(l[i], 6),
    decreases l.len(),
{
    let t = l.drop_last();
    crate::codec::lemma_codes_bits_len(l, 6);
    crate::codec::lemma_codes_bits_len(t, 6);
    lemma_bits_of_nat_len(l.last(), 6);
    let a = codes_bits(t, 6);
    let e = bits_of_nat(l.last(), 6);
    assert(codes_bits(l, 6) == a + e);
    if i < l.len() - 1 {
        lemma_codes_bits_index(t, i);
        assert((a + e).subrange(6 * i, 6 * i + 6) =~= a.subrange(6 * i, 6 * i + 6));
    } else {
        assert((a + e).subrange(6 * i, 6 * i + 6) =~= e);
    }
}

proof fn lemma_prefix_piece(b2: Seq<bool>, pre: Seq<bool>, x: Seq<bool>)
    requires
        b2.len() >= pre.len() + x.len(),
        b2.subrange(0, (pre.len() + x.len()) as int) == pre + x,
    ensures
        b2.subrange(pre.len() as int, (pre.len() + x.len()) as int) == x,
        b2.subrange(0, pre.len() as int) == pre,
{
    assert forall|i: int| 0 <= i < x.len() implies b2.subrange(pre.len() as int, (pre.len() + x.len()) as int)[i] == x[i] by {
        assert(b2.subrange(0, (pre.len() + x.len()) as int)[pre.len() + i] == (pre + x)[pre.len() + i]);
        assert(b2.subrange(0, (pre.len() + x.len()) as int)[pre.len() + i] == b2[pre.len() + i]);
        assert(b2.subrange(pre.len() as int, (pre.len() + x.len()) as int)[i] == b2[pre.len() + i]);
    }
    assert forall|i: int| 0 <= i < pre.len() implies b2.subrange(0, pre.len() as int)[i] == pre[i] by {
        assert(b2.subrange(0, (pre.len() + x.len()) as int)[i] == (pre + x)[i]);
    }
    assert(b2.subrange(pre.len() as int, (pre.len() + x.len()) as int) =~= x);
    assert(b2.subrange(0, pre.len() as int) =~= pre);
}

proof fn lemma_group_read(b2: Seq<bool>, pos: int, l: Seq<nat>)
    requires
        0 <= pos,
        pos + 4 + 6 * l.len() <= b2.len(),
        b2.subrange(pos, pos + 4 + 6 * l.len()) == group_bits(l),
        l.len() < 16,
        forall|i: int| 0 <= i < l.len() ==> #[trigger] l[i] < 64,
    ensures
        field(b2, pos, 4) == l.len(),
        group_codes(b2, pos) == l,
        group_end(b2, pos) == pos + 4 + 6 * l.len(),
{
    let gb = group_bits(l);
    lemma2_to64();
    lemma_bits_of_nat_len(l.len(), 4);
    crate::codec::lemma_codes_bits_len(l, 6);
    assert(b2.subrange(pos, pos + 4) =~= gb.subrange(0, 4));
    assert(gb.subrange(0, 4) =~= bits_of_nat(l.len(), 4));
    lemma_nat_of_bits_of_nat(l.len(), 4);
    assert forall|i: int| 0 <= i < l.len() implies #[trigger] group_codes(b2, pos)[i] == l[i] by {
        lemma_codes_bits_index(l, i);
        assert(b2.subrange(pos + 4 + 6 * i, pos + 4 + 6 * i + 6) =~= gb.subrange(4 + 6 * i, 4 + 6 * i + 6));
        assert(gb.subrange(4 + 6 * i, 4 + 6 * i + 6) =~= codes_bits(l, 6).subrange(6 * i, 6 * i + 6));
        lemma_nat_of_bits_of_nat(l[i], 6);
    }
    assert(group_codes(b2, pos) =~= l);
}

/// Every wall list of `g` holds fewer than 16 codes.
pub open spec fn groups_fit(g: Grid) -> bool {
    forall|d: Dir, c: Colour| #[trigger] wall_list(g, d, c).len() < 16
}

/// No player has more walls on the board than the budget allows, so each
/// group of the viewer snapshot fits its 4-bit count.
proof fn lemma_groups_fit(q: &Quoridor)
    requires
        q.wf(),
    ensures
        groups_fit(q.table@),
{
    assert forall|d: Dir, c: Colour| #[trigger] wall_list(q.table@, d, c).len() < 16 by {
        match (d, c) {
            (Dir::Horizontal, Colour::White) => {},
            (Dir::Vertical, Colour::White) => {},
            (Dir::Horizontal, Colour::Black) => {},
            (Dir::Vertical, Colour::Black) => {},
        }
    }
}

proof fn lemma_view_read(q: &Quoridor, b2: Seq<bool>)
    requires
        q.wf(),
        q.turn_num < 1024,
        groups_fit(q.table@),
        b2.len() >= view_bits(q).len(),
        b2.subrange(0, view_bits(q).len() as int) == view_bits(q),
    ensures
        pos_of_code(field(b2, 2, 7)) == q.white_pos(),
        pos_of_code(field(b2, 9, 7)) == q.black_pos(),
        forall|y: int, x: int| in_wall_grid(y, x) ==> #[trigger] view_cell(b2, y, x) == cell(q.table@, y, x),
        view_white_turn(b2) == q.is_white_turn,
        view_last(b2) == match q.last_move {
            Some((y, x)) => Some((y as int, x as int)),
            None => None::<(int, int)>,
        },
        view_turn(b2) == q.turn_num,
{
    let g = q.table@;
    let l0 = wall_list(g, Dir::Horizontal, Colour::White);
    let l1 = wall_list(g, Dir::Vertical, Colour::White);
    let l2 = wall_list(g, Dir::Horizontal, Colour::Black);
    let l3 = wall_list(g, Dir::Vertical, Colour::Black);
    let wc = pos_code(q.white.0 as int, q.white.1 as int);
    let bc = pos_code(q.black.0 as int, q.black.1 as int);
    let w7 = bits_of_nat(wc, 7);
    let b7 = bits_of_nat(bc, 7);
    let lb = last_bits(q.last_move);
    let n10 = bits_of_nat(q.turn_num as nat, 10);
    let c1 = seq![true, false] + w7;
    let c2 = c1 + b7;
    let c3 = c2 + group_bits(l0);
    let c4 = c3 + group_bits(l1);
    let c5 = c4 + group_bits(l2);
    let c6 = c5 + group_bits(l3);
    let c7 = c6 + seq![q.is_white_turn];
    let c8 = c7 + lb;
    let b = c8 + n10;
    assert(b == view_bits(q));
    lemma_bits_of_nat_len(wc, 7);
    lemma_bits_of_nat_len(bc, 7);
    lemma_bits_of_nat_len(q.turn_num as nat, 10);
    lemma_bits_of_nat_len(l0.len(), 4);
    lemma_bits_of_nat_len(l1.len(), 4);
    lemma_bits_of_nat_len(l2.len(), 4);
    lemma_bits_of_nat_len(l3.len(), 4);
    crate::codec::lemma_codes_bits_len(l0, 6);
    crate::codec::lemma_codes_bits_len(l1, 6);
    crate::codec::lemma_codes_bits_len(l2, 6);
    crate::codec::lemma_codes_bits_len(l3, 6);
    match q.last_move {
        Some((y, x)) => lemma_bits_of_nat_len(wall_code(y as int, x as int), 6),
        None => {},
    }
    lemma_prefix_piece(b2, c8, n10);
    lemma_prefix_piece(b2, c7, lb);
    lemma_prefix_piece(b2, c6, seq![q.is_white_turn]);
    lemma_prefix_piece(b2, c5, group_bits(l3));
    lemma_prefix_piece(b2, c4, group_bits(l2));
    lemma_prefix_piece(b2, c3, group_bits(l1));
    lemma_prefix_piece(b2, c2, group_bits(l0));
    lemma_prefix_piece(b2, c1, b7);
    lemma_prefix_piece(b2, seq![true, false], w7);
    lemma2_to64();
    lemma_pos_code(q.white.0 as int, q.white.1 as int);
    lemma_pos_code(q.black.0 as int, q.black.1 as int);
    lemma_nat_of_bits_of_nat(wc, 7);
    lemma_nat_of_bits_of_nat(bc, 7);
    assert(wall_list(g, Dir::Horizontal, Colour::White).len() < 16);
    assert(wall_list(g, Dir::Vertical, Colour::White).len() < 16);
    assert(wall_list(g, Dir::Horizontal, Colour::Black).len() < 16);
    assert(wall_list(g, Dir::Vertical, Colour::Black).len() < 16);
    lemma_rows_walls_mem(g, Dir::Horizontal, Colour::White, H - 1, 0, 0);
    lemma_rows_walls_mem(g, Dir::Vertical, Colour::White, H - 1, 0, 0);
    lemma_rows_walls_mem(g, Dir::Horizontal, Colour::Black, H - 1, 0, 0);
    lemma_rows_walls_mem(g, Dir::Vertical, Colour::Black, H - 1, 0, 0);
    lemma_group_read(b2, 16, l0);
    lemma_group_read(b2, c3.len() as int, l1);
    lemma_group_read(b2, c4.len() as int, l2);
    lemma_group_read(b2, c5.len() as int, l3);
    assert(group_start(b2, 0) == 16);
    assert(group_start(b2, 1) == c3.len());
    assert(group_start(b2, 2) == c4.len());
    assert(group_start(b2, 3) == c5.len());
    assert(group_start(b2, 4) == c6.len());
    let t = c6.len() as int;
    assert(b2[t] == b2.subrange(t, t + 1)[0]);
    assert(group_codes(b2, group_start(b2, 0)) == l0);
    assert(group_codes(b2, group_start(b2, 1)) == l1);
    assert(group_codes(b2, group_start(b2, 2)) == l2);
    assert(group_codes(b2, group_start(b2, 3)) == l3);
    assert forall|y: int, x: int| in_wall_grid(y, x) implies #[trigger] view_cell(b2, y, x) == cell(g, y, x) by {
        lemma_rows_walls_mem(g, Dir::Horizontal, Colour::White, H - 1, y, x);
        lemma_rows_walls_mem(g, Dir::Vertical, Colour::White, H - 1, y, x);
        lemma_rows_walls_mem(g, Dir::Horizontal, Colour::Black, H - 1, y, x);
        lemma_rows_walls_mem(g, Dir::Vertical, Colour::Black, H - 1, y, x);
        match cell(g, y, x) {
            Some((Dir::Horizontal, Colour::White)) => {},
            Some((Dir::Vertical, Colour::White)) => {},
            Some((Dir::Horizontal, Colour::Black)) => {},
            Some((Dir::Vertical, Colour::Black)) => {},
            None => {},
        }
    }
    assert(b2[t + 1] == lb[0]) by {
        assert(b2.subrange(t + 1, t + 1 + lb.len())[0] == lb[0]);
    }
    match q.last_move {
        Some((y, x)) => {
            let wv = wall_code(y as int, x as int);
            lemma_wall_code(y as int, x as int, y as int, x as int);
            assert(b2.subrange(t + 2, t + 8) =~= lb.subrange(1, 7));
            assert(lb.subrange(1, 7) =~= bits_of_nat(wv, 6));
            lemma_nat_of_bits_of_nat(wv, 6);
            assert(b2.subrange(t + 8, t + 18) =~= n10);
        },
        None => {
            assert(b2.subrange(t + 2, t + 12) =~= n10);
        },
    }
    lemma_nat_of_bits_of_nat(q.turn_num as nat, 10);
}

/// Decoding the viewer snapshot gives back the state it describes: both
/// pawns, every wall cell with its orientation and owner, the player to
/// move, the last wall and the turn counter. It holds of the bits, and of the
/// bits read back from the rendered text, while the turn counter is below
/// 1024, the width of its field.
pub proof fn lemma_view_round_trip(q: &Quoridor)
    requires
        q.wf(),
        q.turn_num < 1024,
    ensures
        ({
            let b = text_bits(base64_text(view_bits(q)));
            &&& pos_of_code(field(b, 2, 7)) == q.white_pos()
            &&& pos_of_code(field(b, 9, 7)) == q.black_pos()
            &&& forall|y: int, x: int| in_wall_grid(y, x) ==> #[trigger] view_cell(b, y, x) == cell(q.table@, y, x)
            &&& view_white_turn(b) == q.is_white_turn
            &&& view_last(b) == match q.last_move {
                Some((y, x)) => Some((y as int, x as int)),
                None => None::<(int, int)>,
            }
            &&& view_turn(b) == q.turn_num
        }),
        ({
            let b = view_bits(q);
            &&& pos_of_code(field(b, 2, 7)) == q.white_pos()
            &&& pos_of_code(field(b, 9, 7)) == q.black_pos()
            &&& forall|y: int, x: int| in_wall_grid(y, x) ==> #[trigger] view_cell(b, y, x) == cell(q.table@, y, x)
            &&& view_white_turn(b) == q.is_white_turn
            &&& view_last(b) == match q.last_move {
                Some((y, x)) => Some((y as int, x as int)),
                None => None::<(int, int)>,
            }
            &&& view_turn(b) == q.turn_num
        }),
{
    let b = view_bits(q);
    assert(b.len() > 0);
    lemma_groups_fit(q);
    lemma_text_round_trip(b);
    lemma_view_read(q, text_bits(base64_text(b)));
    assert(b.subrange(0, b.len() as int) =~= b);
    lemma_view_read(q, b);
}

/// The log entry that starts at bit `pos` of a history.
pub open spec fn record_at(b: Seq<bool>, pos: int) -> Record {
    if !b[pos] {
        Record::Piece(field(b, pos + 1, 3) as u8)
    } else {
        let cellpos = wall_of_code(field(b, pos + 2, 6));
        Record::Wall(
            cellpos.0 as usize,
            cellpos.1 as usize,
            if b[pos + 1] {
                Dir::Vertical
            } else {
                Dir::Horizontal
            },
        )
    }
}

/// The number of bits of the log entry that starts at bit `pos`.
pub open spec fn record_len(b: Seq<bool>, pos: int) -> int {
    if !b[pos] {
        4
    } else {
        8
    }
}

/// The `n` log entries from bit `pos` on.
pub open spec fn records_from(b: Seq<bool>, pos: int, n: nat) -> Seq<Record>
    decreases n,
{
    if n == 0 {
        Seq::empty()
    } else {
        seq![record_at(b, pos)] + records_from(b, pos + record_len(b, pos), (n - 1) as nat)
    }
}

/// The move log that a history describes.
pub open spec fn history_records(b: Seq<bool>) -> Seq<Record> {
    records_from(b, 12, field(b, 2, 10))
}

proof fn lemma_record_bits_len(r: Record)
    requires
        record_ok(r),
    ensures
        record_bits(r).len() == if r is Piece { 4int } else { 8int },
{
    match r {
        Record::Piece(c) => lemma_bits_of_nat_len(c as nat, 3),
        Record::Wall(y, x, _) => lemma_bits_of_nat_len(wall_code(y as int, x as int), 6),
    }
}

proof fn lemma_records_bits_front(s: Seq<Record>)
    requires
        s.len() > 0,
    ensures
        records_bits(s) == record_bits(s[0]) + records_bits(s.drop_first()),
    decreases s.len(),
{
    if s.len() == 1 {
        assert(s.drop_last() =~= Seq::<Record>::empty());
        assert(s.drop_first() =~= Seq::<Record>::empty());
        assert(records_bits(s) =~= record_bits(s[0]) + records_bits(s.drop_first()));
    } else {
        lemma_records_bits_front(s.drop_last());
        assert(s.drop_last().drop_first() =~= s.drop_first().drop_last());
        assert(s.drop_first().last() == s.last());
        assert(s.drop_last()[0] == s[0]);
        assert(records_bits(s) =~= record_bits(s[0]) + records_bits(s.drop_first()));
    }
}

proof fn lemma_record_read(b2: Seq<bool>, pos: int, r: Record)
    requires
        record_ok(r),
        0 <= pos,
        pos + record_bits(r).len() <= b2.len(),
        b2.subrange(pos, pos + record_bits(r).len()) == record_bits(r),
    ensures
        record_at(b2, pos) == r,
        record_len(b2, pos) == record_bits(r).len(),
{
    lemma_record_bits_len(r);
    lemma2_to64();
    let rb = record_bits(r);
    assert(b2[pos] == rb[0]) by {
        assert(b2.subrange(pos, pos + rb.len())[0] == b2[pos]);
    }
    match r {
        Record::Piece(c) => {
            assert(b2.subrange(pos + 1, pos + 4) =~= rb.subrange(1, 4));
            assert(rb.subrange(1, 4) =~= bits_of_nat(c as nat, 3));
            lemma_nat_of_bits_of_nat(c as nat, 3);
        },
        Record::Wall(y, x, d) => {
            assert(b2[pos + 1] == rb[1]) by {
                assert(b2.subrange(pos, pos + rb.len())[1] == b2[pos + 1]);
            }
            assert(b2.subrange(pos + 2, pos + 8) =~= rb.subrange(2, 8));
            assert(rb.subrange(2, 8) =~= bits_of_nat(wall_code(y as int, x as int), 6));
            lemma_nat_of_bits_of_nat(wall_code(y as int, x as int), 6);
            lemma_wall_code(y as int, x as int, y as int, x as int);
        },
    }
}

proof fn lemma_records_read(b2: Seq<bool>, pos: int, s: Seq<Record>)
    requires
        forall|i: int| 0 <= i < s.len() ==> record_ok(#[trigger] s[i]),
        0 <= pos,
        pos + records_bits(s).len() <= b2.len(),
        b2.subrange(pos, pos + records_bits(s).len()) == records_bits(s),
    ensures
        records_from(b2, pos, s.len()) == s,
    decreases s.len(),
{
    if s.len() == 0 {
        assert(records_from(b2, pos, 0) =~= s);
    } else {
        lemma_records_bits_front(s);
        let rb = record_bits(s[0]);
        let rest = records_bits(s.drop_first());
        assert(record_ok(s[0]));
        lemma_record_bits_len(s[0]);
        assert(b2.subrange(pos, pos + rb.len()) =~= rb) by {
            assert forall|i: int| 0 <= i < rb.len() implies b2.subrange(pos, pos + rb.len())[i] == rb[i] by {
                assert(b2.subrange(pos, pos + records_bits(s).len())[i] == (rb + rest)[i]);
            }
        }
        lemma_record_read(b2, pos, s[0]);
        assert(b2.subrange(pos + rb.len(), pos + rb.len() + rest.len()) =~= rest) by {
            assert forall|i: int| 0 <= i < rest.len() implies b2.subrange(pos + rb.len(), pos + rb.len() + rest.len())[i] == rest[i] by {
                assert(b2.subrange(pos, pos + records_bits(s).len())[rb.len() + i] == (rb + rest)[rb.len() + i]);
            }
        }
        assert forall|i: int| 0 <= i < s.drop_first().len() implies record_ok(#[trigger] s.drop_first()[i]) by {
            assert(s.drop_first()[i] == s[i + 1]);
        }
        lemma_records_read(b2, pos + rb.len(), s.drop_first());
        assert(records_from(b2, pos, s.len()) =~= s);
    }
}

proof fn lemma_history_read(q: &Quoridor, b2: Seq<bool>)
    requires
        q.wf(),
        q.record@.len() < 1024,
        b2.len() >= history_bits(q).len(),
        b2.subrange(0, history_bits(q).len() as int) == history_bits(q),
    ensures
        history_records(b2) == q.record@,
{
    let s = q.record@;
    let head = seq![false, true] + bits_of_nat(s.len(), 10);
    let body = records_bits(s);
    lemma_bits_of_nat_len(s.len(), 10);
    lemma2_to64();
    assert(history_bits(q) == head + body);
    lemma_prefix_piece(b2, head, body);
    lemma_prefix_piece(b2, seq![false, true], bits_of_nat(s.len(), 10));
    lemma_nat_of_bits_of_nat(s.len(), 10);
    assert(field(b2, 2, 10) == s.len());
    lemma_records_read(b2, 12, s);
}

/// Decoding the move history gives back the move log, entry by entry: of the
/// bits, and of the bits read back from the rendered text, while the log
/// holds fewer than 1024 entries, the width of its count.
pub proof fn lemma_history_round_trip(q: &Quoridor)
    requires
        q.wf(),
        q.record@.len() < 1024,
    ensures
        history_records(text_bits(base64_text(history_bits(q)))) == q.record@,
        history_records(history_bits(q)) == q.record@,
{
    let b = history_bits(q);
    assert(b.len() > 0);
    lemma_text_round_trip(b);
    lemma_history_read(q, text_bits(base64_text(b)));
    assert(b.subrange(0, b.len() as int) =~= b);
    lemma_history_read(q, b);
}

} // verus!
