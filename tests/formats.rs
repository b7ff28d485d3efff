use quoridor::{Command, Quoridor};

const ALPHABET: &str = "ABCDEFGHIJKLMNOPQRSTUVWXYZabcdefghijklmnopqrstuvwxyz0123456789+/";

fn text_bits(t: &str) -> Vec<bool> {
    let mut out = Vec::new();
    for c in t.chars() {
        let v = ALPHABET.find(c).expect("a symbol of the alphabet");
        for i in (0..6).rev() {
            out.push((v >> i) & 1 == 1);
        }
    }
    out
}

struct Reader {
    bits: Vec<bool>,
    pos: usize,
}

impl Reader {
    fn read(&mut self, w: usize) -> usize {
        let mut v = 0;
        for _ in 0..w {
            v = v * 2 + usize::from(self.bits[self.pos]);
            self.pos += 1;
        }
        v
    }
}

fn play(q: &mut Quoridor, line: &str) {
    let com = Command::parse(line).expect("a well-formed command");
    assert_eq!(q.play(&com), Ok(()));
}

#[test]
fn viewer_snapshot_of_a_new_match() {
    assert_eq!(Quoridor::new().viewformat(), "gkwAAIAQ");
}

#[test]
fn viewer_snapshot_after_a_move() {
    let mut q = Quoridor::new();
    play(&mut q, "4 7");
    assert_eq!(q.viewformat(), "hswAAAAg");
}

#[test]
fn viewer_snapshot_after_a_wall() {
    let mut q = Quoridor::new();
    play(&mut q, "0 7 H");
    assert_eq!(q.viewformat(), "gkwQAAEAAg");
}

#[test]
fn history_after_a_move() {
    let mut q = Quoridor::new();
    play(&mut q, "4 7");
    assert_eq!(q.historyformat(), "QBA");
}

#[test]
fn history_after_a_wall() {
    let mut q = Quoridor::new();
    play(&mut q, "0 7 H");
    assert_eq!(q.historyformat(), "QBgA");
}

#[test]
fn history_of_a_new_match() {
    assert_eq!(Quoridor::new().historyformat(), "QA");
}

#[test]
fn line_snapshot_of_a_new_match() {
    let mut expected = String::from("4 8 4 0 0 0\n");
    for _ in 0..8 {
        expected.push_str("0 0 0 0 0 0 0 0 \n");
    }
    assert_eq!(Quoridor::new().socketformat(), expected);
}

#[test]
fn line_snapshot_after_walls() {
    let mut q = Quoridor::new();
    play(&mut q, "4 7");
    play(&mut q, "1 0 H");
    play(&mut q, "7 6 V");
    let s = q.socketformat();
    let lines: Vec<&str> = s.lines().collect();
    assert_eq!(lines[0], "4 7 4 0 1 1");
    assert_eq!(lines[1], "0 1 0 0 0 0 0 0 ");
    assert_eq!(lines[7], "0 0 0 0 0 0 0 2 ");
    assert_eq!(lines.len(), 9);
}

#[test]
fn viewer_snapshot_decodes_back() {
    let mut q = Quoridor::new();
    play(&mut q, "4 7");
    play(&mut q, "1 0 H");
    play(&mut q, "7 6 V");
    play(&mut q, "3 3 V");
    let mut r = Reader { bits: text_bits(&q.viewformat()), pos: 0 };
    assert_eq!(r.read(2), 2);
    let w = r.read(7);
    assert_eq!((8 - w / 9, w % 9), q.white);
    let b = r.read(7);
    assert_eq!((8 - b / 9, b % 9), q.black);
    let mut groups = Vec::new();
    for _ in 0..4 {
        let n = r.read(4);
        let cells: Vec<(usize, usize)> = (0..n).map(|_| r.read(6)).map(|c| (7 - c / 8, c % 8)).collect();
        groups.push(cells);
    }
    assert_eq!(groups[0], vec![]);
    assert_eq!(groups[1], vec![(6, 7)]);
    assert_eq!(groups[2], vec![(0, 1)]);
    assert_eq!(groups[3], vec![(3, 3)]);
    assert_eq!(r.read(1) == 1, q.is_white_turn);
    assert_eq!(r.read(1), 1);
    let c = r.read(6);
    assert_eq!(Some((7 - c / 8, c % 8)), q.last_move);
    assert_eq!(r.read(10), q.turn_num as usize);
    assert_eq!(q.turn_num, 5);
}

#[test]
fn history_decodes_back() {
    let mut q = Quoridor::new();
    play(&mut q, "4 7");
    play(&mut q, "1 0 H");
    play(&mut q, "3 7");
    play(&mut q, "7 6 V");
    let mut r = Reader { bits: text_bits(&q.historyformat()), pos: 0 };
    assert_eq!(r.read(2), 1);
    assert_eq!(r.read(10), 4);
    assert_eq!((r.read(1), r.read(3)), (0, 0));
    assert_eq!((r.read(1), r.read(1), r.read(6)), (1, 0, (7 - 0) * 8 + 1));
    assert_eq!((r.read(1), r.read(3)), (0, 6));
    assert_eq!((r.read(1), r.read(1), r.read(6)), (1, 1, (7 - 6) * 8 + 7));
}

#[test]
fn board_drawing_of_a_new_match() {
    let mut expected = String::new();
    expected.push_str("###################\n");
    for i in 0..17 {
        let row = if i == 0 {
            "        B        ".to_string()
        } else if i == 16 {
            "        W        ".to_string()
        } else if i % 2 == 1 {
            " * * * * * * * * ".to_string()
        } else {
            " ".repeat(17)
        };
        expected.push_str(&format!("#{}#\n", row));
    }
    expected.push_str("###################\n");
    assert_eq!(Quoridor::new().display(), expected);
}

#[test]
fn board_drawing_shows_walls() {
    let mut q = Quoridor::new();
    play(&mut q, "0 0 H");
    play(&mut q, "7 3 V");
    let s = q.display();
    let lines: Vec<&str> = s.lines().collect();
    assert_eq!(lines[2], "#-*-* * * * * * * #");
    assert_eq!(lines[7], "#               | #");
    assert_eq!(lines[8], "# * * * * * * * * #");
    assert_eq!(lines[9], "#               | #");
}
