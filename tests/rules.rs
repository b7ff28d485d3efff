use quoridor::command::{is_space, message_bytes};
use quoridor::server::Action;
use quoridor::{Colour, Command, Dir, PlayError, Quoridor, Record};

fn sorted(mut v: Vec<(usize, usize)>) -> Vec<(usize, usize)> {
    v.sort();
    v
}

fn play_line(q: &mut Quoridor, line: &str) -> Result<(), PlayError> {
    let com = Command::parse(line).expect("a well-formed command");
    q.play(&com)
}

#[test]
fn new_match_layout() {
    let q = Quoridor::new();
    assert_eq!(q.white, (8, 4));
    assert_eq!(q.black, (0, 4));
    assert!(q.is_white_turn);
    assert_eq!(q.turn_num, 1);
    assert_eq!(q.white_wall_num, 10);
    assert_eq!(q.black_wall_num, 10);
    assert_eq!(q.is_over(), None);
}

#[test]
fn white_moves_up_first_turn() {
    let mut q = Quoridor::new();
    assert_eq!(play_line(&mut q, "4 7"), Ok(()));
    assert_eq!(q.white, (7, 4));
    assert_eq!(q.turn_num, 2);
    assert!(!q.is_white_turn);
    assert_eq!(q.record, vec![Record::Piece(0)]);
    assert_eq!(q.last_move, None);
}

#[test]
fn wall_on_a_built_cell_is_refused() {
    let mut q = Quoridor::new();
    assert_eq!(play_line(&mut q, "3 2 H"), Ok(()));
    assert_eq!(q.white_wall_num, 9);
    assert_eq!(q.last_move, Some((2, 3)));
    assert_eq!(play_line(&mut q, "3 2 H"), Err(PlayError::AlreadyBuilt));
    assert_eq!(q.white_wall_num, 9);
    assert_eq!(q.black_wall_num, 10);
    assert_eq!(q.turn_num, 2);
    assert!(!q.is_white_turn);
    assert_eq!(q.record.len(), 1);
}

#[test]
fn collinear_neighbour_is_refused() {
    let mut q = Quoridor::new();
    assert_eq!(play_line(&mut q, "3 2 H"), Ok(()));
    assert_eq!(play_line(&mut q, "4 2 H"), Err(PlayError::AlreadyBuilt));
    assert_eq!(play_line(&mut q, "2 2 H"), Err(PlayError::AlreadyBuilt));
    assert_eq!(play_line(&mut q, "4 2 V"), Ok(()));
    assert_eq!(play_line(&mut q, "4 3 V"), Err(PlayError::AlreadyBuilt));
    assert_eq!(play_line(&mut q, "4 1 V"), Err(PlayError::AlreadyBuilt));
}

#[test]
fn wall_off_the_grid_is_refused() {
    let mut q = Quoridor::new();
    assert_eq!(play_line(&mut q, "8 0 H"), Err(PlayError::OutOfBounds));
    assert_eq!(play_line(&mut q, "0 8 V"), Err(PlayError::OutOfBounds));
    assert_eq!(q.settable(1000, 0, Dir::Vertical), Err(PlayError::OutOfBounds));
    assert_eq!(q.turn_num, 1);
}

#[test]
fn sealing_the_last_corridor_is_refused() {
    let mut q = Quoridor::new();
    assert_eq!(play_line(&mut q, "0 7 H"), Ok(()));
    assert_eq!(play_line(&mut q, "2 7 H"), Ok(()));
    assert_eq!(play_line(&mut q, "4 7 H"), Ok(()));
    assert_eq!(play_line(&mut q, "6 7 H"), Ok(()));
    let turn = q.turn_num;
    assert_eq!(play_line(&mut q, "7 7 V"), Err(PlayError::Unreachable));
    assert_eq!(q.turn_num, turn);
    assert_eq!(q.table.get(7, 7), None);
    assert_eq!(q.white_wall_num, 8);
}

#[test]
fn no_wall_left_is_refused() {
    let mut q = Quoridor::new();
    q.white_wall_num = 0;
    assert_eq!(play_line(&mut q, "0 0 H"), Err(PlayError::NoWallsRemaining));
    assert_eq!(q.settable(100, 100, Dir::Horizontal), Err(PlayError::NoWallsRemaining));
}

#[test]
fn straight_jump_over_the_opponent() {
    let mut q = Quoridor::new();
    q.white = (4, 4);
    q.black = (3, 4);
    assert_eq!(sorted(q.next_moves()), vec![(2, 4), (4, 3), (4, 5), (5, 4)]);
}

#[test]
fn side_jumps_at_the_board_edge() {
    let mut q = Quoridor::new();
    q.white = (1, 4);
    q.black = (0, 4);
    assert_eq!(sorted(q.next_moves()), vec![(0, 3), (0, 5), (1, 3), (1, 5), (2, 4)]);
}

#[test]
fn side_jumps_behind_a_wall() {
    let mut q = Quoridor::new();
    q.white = (4, 4);
    q.black = (3, 4);
    q.table.set(2, 4, Dir::Horizontal, Colour::Black);
    assert_eq!(sorted(q.next_moves()), vec![(3, 3), (3, 5), (4, 3), (4, 5), (5, 4)]);
    assert_eq!(q.movable(2, 4), Err(PlayError::IllegalMove));
    assert_eq!(q.movable(3, 5), Ok(()));
}

#[test]
fn side_jump_walled_off_is_still_offered() {
    let mut q = Quoridor::new();
    q.white = (4, 4);
    q.black = (3, 4);
    q.table.set(2, 4, Dir::Horizontal, Colour::Black);
    q.table.set(2, 4 - 1, Dir::Vertical, Colour::White);
    assert_eq!(sorted(q.next_moves()), vec![(3, 5), (4, 3), (4, 5), (5, 4)]);
}

#[test]
fn walls_block_steps() {
    let mut q = Quoridor::new();
    q.table.set(7, 3, Dir::Horizontal, Colour::White);
    assert_eq!(sorted(q.next_moves()), vec![(8, 3), (8, 5)]);
    assert_eq!(q.movable(7, 4), Err(PlayError::IllegalMove));
    assert_eq!(q.movable(9, 4), Err(PlayError::PositionOutOfBounds));
}

#[test]
fn queries_repeat() {
    let mut q = Quoridor::new();
    q.white = (1, 4);
    q.black = (0, 4);
    assert_eq!(q.next_moves(), q.next_moves());
    assert_eq!(q.settable(0, 0, Dir::Vertical), q.settable(0, 0, Dir::Vertical));
}

#[test]
fn turns_alternate_and_count() {
    let mut q = Quoridor::new();
    assert_eq!(play_line(&mut q, "4 7"), Ok(()));
    assert_eq!(play_line(&mut q, "4 1"), Ok(()));
    assert_eq!((q.turn_num, q.is_white_turn), (3, true));
    assert_eq!(play_line(&mut q, "4 2"), Err(PlayError::IllegalMove));
    assert_eq!((q.turn_num, q.is_white_turn), (3, true));
    assert_eq!(play_line(&mut q, "0 0 V"), Ok(()));
    assert_eq!((q.turn_num, q.is_white_turn), (4, false));
    assert_eq!(q.black, (1, 4));
    assert_eq!(q.record, vec![Record::Piece(0), Record::Piece(4), Record::Wall(0, 0, Dir::Vertical)]);
}

#[test]
fn jump_is_logged_as_one_step() {
    let mut q = Quoridor::new();
    q.white = (4, 4);
    q.black = (3, 4);
    assert_eq!(q.play(&Command::Move(2, 4)), Ok(()));
    assert_eq!(q.record, vec![Record::Piece(0)]);
    q.white = (3, 3);
    q.is_white_turn = false;
    q.black = (3, 4);
    q.table.set(2, 2, Dir::Vertical, Colour::White);
    assert_eq!(q.play(&Command::Move(2, 3)), Ok(()));
    assert_eq!(q.record, vec![Record::Piece(0), Record::Piece(7)]);
}

#[test]
fn winner_is_reported() {
    let mut q = Quoridor::new();
    q.white = (0, 2);
    assert_eq!(q.is_over(), Some(0));
    q.white = (3, 2);
    q.black = (8, 2);
    assert_eq!(q.is_over(), Some(1));
}

#[test]
fn commands_parse() {
    assert_eq!(Command::parse("4 7"), Some(Command::Move(7, 4)));
    assert_eq!(Command::parse("  3\t5 V "), Some(Command::Put(5, 3, Dir::Vertical)));
    assert_eq!(Command::parse("3 5 H"), Some(Command::Put(5, 3, Dir::Horizontal)));
    assert_eq!(Command::parse("+3 5"), Some(Command::Move(5, 3)));
}

#[test]
fn malformed_commands_are_rejected() {
    assert_eq!(Command::parse("3 5 X"), None);
    assert_eq!(Command::parse("a 5"), None);
    assert_eq!(Command::parse("3"), None);
    assert_eq!(Command::parse(""), None);
    assert_eq!(Command::parse("1 2 H 4"), None);
    assert_eq!(Command::parse("-1 2"), None);
    assert_eq!(Command::parse("99999999999999999999999 2"), None);
    assert_eq!(Command::parse("3 5 VV"), None);
}

#[test]
fn orientation_tokens() {
    assert_eq!(Dir::parse("V"), Some(Dir::Vertical));
    assert_eq!(Dir::parse("H"), Some(Dir::Horizontal));
    assert_eq!(Dir::parse("h"), None);
}

#[test]
fn messages_are_framed() {
    let mut buf = [0u8; 16];
    buf[..6].copy_from_slice(b"4 7\r\nx");
    assert_eq!(message_bytes(&buf), b"4 7".to_vec());
    assert_eq!(message_bytes(b"1 2 H"), b"1 2 H".to_vec());
    assert_eq!(message_bytes(&[0, 65]), Vec::<u8>::new());
}

#[test]
fn error_reasons() {
    assert_eq!(PlayError::NoWallsRemaining.message(), "You have no wall");
    assert_eq!(PlayError::OutOfBounds.message(), "Put position is out of bounds");
    assert_eq!(PlayError::AlreadyBuilt.message(), "Wall has already built");
    assert_eq!(PlayError::Unreachable.message(), "Unreachable");
    assert_eq!(PlayError::PositionOutOfBounds.message(), "Position is out of bounds");
    assert_eq!(PlayError::IllegalMove.message(), "illegal move");
}

#[test]
fn line_handling_refuses_malformed_lines() {
    let mut q = Quoridor::new();
    match q.apply_line(0, "4") {
        Action::Refuse { to, reason } => {
            assert_eq!(to, 0);
            assert_eq!(reason, "parse error");
        }
        Action::Relay { .. } => panic!("a malformed line was carried out"),
    }
    assert_eq!(q.turn_num, 1);
}

#[test]
fn line_handling_refuses_illegal_moves() {
    let mut q = Quoridor::new();
    match q.apply_line(1, "4 5") {
        Action::Refuse { to, reason } => {
            assert_eq!(to, 1);
            assert_eq!(reason, "illegal move");
        }
        Action::Relay { .. } => panic!("an illegal move was carried out"),
    }
    assert_eq!(q.white, (8, 4));
}

#[test]
fn line_handling_relays_to_the_other_player() {
    let mut q = Quoridor::new();
    match q.apply_line(0, "4 7") {
        Action::Relay { to, snapshot, view, end } => {
            assert_eq!(to, 1);
            assert!(snapshot.starts_with("4 7 4 0 0 0\n"));
            assert_eq!(view, "qfcode:hswAAAAg");
            assert!(end.is_none());
        }
        Action::Refuse { .. } => panic!("a legal move was refused"),
    }
}

#[test]
fn line_handling_announces_the_winner() {
    let mut q = Quoridor::new();
    q.white = (1, 0);
    match q.apply_line(1, "0 0") {
        Action::Relay { to, end, .. } => {
            assert_eq!(to, 0);
            let (banner, history) = end.expect("the match is over");
            assert_eq!(banner, "mesg:Player white win!");
            assert_eq!(history, "QBA");
        }
        Action::Refuse { .. } => panic!("a legal move was refused"),
    }
}

#[test]
fn white_space_matches_std() {
    for v in 0..=0x10FFFFu32 {
        if let Some(c) = char::from_u32(v) {
            assert_eq!(is_space(c), c.is_whitespace(), "U+{:04X}", v);
        }
    }
}
