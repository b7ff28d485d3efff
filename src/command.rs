//! The peer text protocol: framing of a received message and parsing of a
//! command line, `<col> <row>` for a move and `<col> <row> <V|H>` for a wall.
use crate::base64::string_from_chars;
use crate::board::{dir_of_token, Dir};
use vstd::prelude::*;

verus! {

/// A command of a player: move the pawn to `(row, column)`, or put a wall
/// segment in wall cell `(row, column)`.
#[derive(Clone, Copy, PartialEq, Eq, Debug, Structural)]
pub enum Command {
    Move(usize, usize),
    Put(usize, usize, Dir),
}

/// The characters of the Unicode `White_Space` property.
pub open spec fn white_space(c: char) -> bool {
    let v = c as int;
    ||| 0x9 <= v <= 0xD
    ||| v == 0x20
    ||| v == 0x85
    ||| v == 0xA0
    ||| v == 0x1680
    ||| 0x2000 <= v <= 0x200A
    ||| v == 0x2028
    ||| v == 0x2029
    ||| v == 0x202F
    ||| v == 0x205F
    ||| v == 0x3000
}

/// Whether `c` is white space, as `char::is_whitespace` answers.
pub fn is_space(c: char) -> (r: bool)
    ensures
        r == white_space(c),
{
    ('\u{9}' <= c && c <= '\u{D}') || c == ' ' || c == '\u{85}' || c == '\u{A0}' || c == '\u{1680}' || ('\u{2000}' <= c
        && c <= '\u{200A}') || c == '\u{2028}' || c == '\u{2029}' || c == '\u{202F}' || c == '\u{205F}' || c
        == '\u{3000}'
}

/// The maximal runs of characters of `s` that are not white space, in order.
pub open spec fn tokens(s: Seq<char>) -> Seq<Seq<char>>
    decreases s.len(),
{
    if s.len() == 0 {
        Seq::empty()
    } else {
        let t = tokens(s.drop_last());
        let c = s.last();
        if white_space(c) {
            t
        } else if s.len() >= 2 && !white_space(s[s.len() - 2]) {
            t.update(t.len() - 1, t.last().push(c))
        } else {
            t.push(seq![c])
        }
    }
}

pub open spec fn is_digit(c: char) -> bool {
    48 <= c as int <= 57
}

/// The number that a run of decimal digits spells.
pub open spec fn digits_value(s: Seq<char>) -> nat
    decreases s.len(),
{
    if s.len() == 0 {
        0
    } else {
        10 * digits_value(s.drop_last()) + (s.last() as int - 48) as nat
    }
}

/// A token without its leading `+`, if it has one.
pub open spec fn unsigned_part(t: Seq<char>) -> Seq<char> {
    if t.len() > 0 && t[0] == '+' {
        t.drop_first()
    } else {
        t
    }
}

/// The `usize` that a token writes in decimal, with an optional leading `+`.
pub open spec fn numeral_value(t: Seq<char>) -> Option<usize> {
    let d = unsigned_part(t);
    if d.len() > 0 && (forall|i: int| 0 <= i < d.len() ==> is_digit(#[trigger] d[i]))
        && digits_value(d) <= usize::MAX {
        Some(digits_value(d) as usize)
    } else {
        None
    }
}

/// The command that a line holds: two numerals, column then row, for a move;
/// the same and an orientation for a wall. Anything else is no command.
pub open spec fn command_of(s: Seq<char>) -> Option<Command> {
    let t = tokens(s);
    if t.len() < 2 || t.len() > 3 {
        None
    } else {
        match (numeral_value(t[0]), numeral_value(t[1])) {
            (Some(x), Some(y)) => if t.len() == 2 {
                Some(Command::Move(y, x))
            } else {
                match dir_of_token(t[2]) {
                    Some(d) => Some(Command::Put(y, x, d)),
                    None => None,
                }
            },
            _ => None,
        }
    }
}

/// The bytes of a received buffer before the first carriage return or NUL.
pub open spec fn frame(b: Seq<u8>) -> Seq<u8>
    decreases b.len(),
{
    if b.len() == 0 {
        b
    } else if b[0] == 13 || b[0] == 0 {
        Seq::empty()
    } else {
        seq![b[0]] + frame(b.drop_first())
    }
}

/// The message that a received buffer holds: its bytes up to the first
/// carriage return or NUL.
pub fn message_bytes(buf: &[u8]) -> (r: Vec<u8>)
    ensures
        r@ == frame(buf@),
{
    let mut r: Vec<u8> = Vec::new();
    let mut i: usize = 0;
    assert(buf@.subrange(0, buf@.len() as int) =~= buf@);
    assert(r@ + frame(buf@) =~= frame(buf@));
    while i < buf.len()
        invariant
            i <= buf@.len(),
            frame(buf@) == r@ + frame(buf@.subrange(i as int, buf@.len() as int)),
        decreases buf@.len() - i,
    {
        let ghost rest = buf@.subrange(i as int, buf@.len() as int);
        if buf[i] == 13 || buf[i] == 0 {
            assert(frame(rest) == Seq::<u8>::empty());
            assert(r@ + Seq::<u8>::empty() =~= r@);
            return r;
        }
        assert(rest.drop_first() =~= buf@.subrange(i + 1, buf@.len() as int));
        r.push(buf[i]);
        i = i + 1;
        assert(frame(buf@) =~= r@ + frame(buf@.subrange(i as int, buf@.len() as int)));
    }
    assert(buf@.subrange(i as int, buf@.len() as int) =~= Seq::<u8>::empty());
    assert(r@ + Seq::<u8>::empty() =~= r@);
    r
}

/// The view of a list of tokens.
pub open spec fn views(v: Seq<Vec<char>>) -> Seq<Seq<char>> {
    v.map_values(|t: Vec<char>| t@)
}

/// Splits a line into its runs of characters that are not white space.
pub fn split_tokens(s: &str) -> (r: Vec<Vec<char>>)
    ensures
        views(r@) == tokens(s@),
{
    let n = s.unicode_len();
    let mut toks: Vec<Vec<char>> = Vec::new();
    let mut cur: Vec<char> = Vec::new();
    let mut in_tok = false;
    let mut i: usize = 0;
    while i < n
        invariant
            n == s@.len(),
            i <= n,
            in_tok ==> i > 0 && !white_space(s@[i - 1]),
            !in_tok ==> (i == 0 || white_space(s@[i - 1])) && cur@.len() == 0,
            in_tok ==> tokens(s@.subrange(0, i as int)) == views(toks@).push(cur@),
            !in_tok ==> tokens(s@.subrange(0, i as int)) == views(toks@),
        decreases n - i,
    {
        let c = s.get_char(i);
        let ghost pre = s@.subrange(0, i as int);
        let ghost next = s@.subrange(0, i + 1);
        let ghost old_toks = toks@;
        let ghost old_cur = cur@;
        assert(next.drop_last() =~= pre);
        assert(next.last() == c);
        if is_space(c) {
            assert(tokens(next) == tokens(pre));
            if in_tok {
                let done = cur;
                cur = Vec::new();
                toks.push(done);
                assert(views(toks@) =~= views(old_toks).push(old_cur));
                in_tok = false;
            }
        } else {
            cur.push(c);
            if in_tok {
                assert(next[next.len() - 2] == s@[i - 1]);
                assert(tokens(next) =~= views(toks@).push(cur@));
            } else {
                if i > 0 {
                    assert(next[next.len() - 2] == s@[i - 1]);
                }
                assert(cur@ =~= seq![c]);
                assert(tokens(next) =~= views(toks@).push(cur@));
            }
            in_tok = true;
        }
        i = i + 1;
    }
    if in_tok {
        let ghost old_toks = toks@;
        toks.push(cur);
        assert(views(toks@) =~= views(old_toks).push(toks@.last()@));
    }
    assert(s@.subrange(0, n as int) =~= s@);
    toks
}

proof fn lemma_digits_prefix(d: Seq<char>, k: int)
    requires
        0 <= k <= d.len(),
    ensures
        digits_value(d.subrange(0, k)) <= digits_value(d),
    decreases d.len(),
{
    if k < d.len() {
        assert(d.drop_last().subrange(0, k) =~= d.subrange(0, k));
        lemma_digits_prefix(d.drop_last(), k);
    } else {
        assert(d.subrange(0, k) =~= d);
    }
}

/// The value of a decimal digit; `None` for any other character.
fn digit_value(c: char) -> (r: Option<usize>)
    ensures
        is_digit(c) ==> r == Some((c as int - 48) as usize),
        !is_digit(c) ==> r is None,
{
    match c {
        '0' => Some(0),
        '1' => Some(1),
        '2' => Some(2),
        '3' => Some(3),
        '4' => Some(4),
        '5' => Some(5),
        '6' => Some(6),
        '7' => Some(7),
        '8' => Some(8),
        '9' => Some(9),
        _ => None,
    }
}

/// Reads a `usize` written in decimal, with an optional leading `+`.
pub fn parse_usize(t: &Vec<char>) -> (r: Option<usize>)
    ensures
        r == numeral_value(t@),
{
    let n = t.len();
    let start: usize = if n > 0 && t[0] == '+' { 1 } else { 0 };
    let ghost d = unsigned_part(t@);
    assert(d =~= t@.subrange(start as int, n as int));
    if start >= n {
        return None;
    }
    let mut v: usize = 0;
    let mut i: usize = start;
    while i < n
        invariant
            n == t@.len(),
            start <= i <= n,
            start < n,
            d == unsigned_part(t@),
            d == t@.subrange(start as int, n as int),
            forall|j: int| start <= j < i ==> is_digit(#[trigger] t@[j]),
            v == digits_value(t@.subrange(start as int, i as int)),
        decreases n - i,
    {
        let c = t[i];
        let ghost pre = t@.subrange(start as int, i as int);
        let ghost next = t@.subrange(start as int, i + 1);
        assert(next.drop_last() =~= pre);
        assert(next.last() == c);
        assert(d[i - start] == c);
        let dg = match digit_value(c) {
            Some(dg) => dg,
            None => {
                assert(!is_digit(d[i - start]));
                return None;
            },
        };
        match v.checked_mul(10) {
            Some(m) => match m.checked_add(dg) {
                Some(w) => {
                    v = w;
                },
                None => {
                    proof {
                        assert(digits_value(next) > usize::MAX);
                        if forall|j: int| 0 <= j < d.len() ==> is_digit(#[trigger] d[j]) {
                            lemma_digits_prefix(d, i + 1 - start);
                            assert(d.subrange(0, i + 1 - start) =~= next);
                        }
                    }
                    return None;
                },
            },
            None => {
                proof {
                    assert(digits_value(next) > usize::MAX);
                    if forall|j: int| 0 <= j < d.len() ==> is_digit(#[trigger] d[j]) {
                        lemma_digits_prefix(d, i + 1 - start);
                        assert(d.subrange(0, i + 1 - start) =~= next);
                    }
                }
                return None;
            },
        }
        i = i + 1;
    }
    assert(t@.subrange(start as int, i as int) =~= d);
    Some(v)
}

impl Command {
    /// The command that a line holds; `None` for a malformed line.
    pub fn parse(input: &str) -> (r: Option<Command>)
        ensures
            r == command_of(input@),
    {
        let toks = split_tokens(input);
        if toks.len() < 2 || toks.len() > 3 {
            return None;
        }
        assert(views(toks@)[0] == toks@[0]@ && views(toks@)[1] == toks@[1]@);
        let x = match parse_usize(&toks[0]) {
            Some(v) => v,
            None => {
                return None;
            },
        };
        let y = match parse_usize(&toks[1]) {
            Some(v) => v,
            None => {
                return None;
            },
        };
        if toks.len() < 3 {
            return Some(Command::Move(y, x));
        }
        assert(views(toks@)[2] == toks@[2]@);
        let word = string_from_chars(&toks[2]);
        match Dir::parse(word.as_str()) {
            Some(d) => Some(Command::Put(y, x, d)),
            None => None,
        }
    }
}

} // verus!
