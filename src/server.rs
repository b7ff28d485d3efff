//! The decisions of the judge on each line a player sends: which command it
//! is, whether it is carried out, and who is told what. The application
//! performs the actions on its sockets and its spectator channel.
use crate::base64::base64_text;
use crate::codec::{history_bits, socket_text, view_bits};
use crate::command::{command_of, Command};
use crate::game::{reason, Quoridor};
use vstd::prelude::*;

verus! {

/// Number of players in a match.
pub const PLAYER_NUM: usize = 2;

/// What the judge does after a line from a player.
pub enum Action {
    /// Send `reason` back to player `to`; the match is unchanged.
    Refuse { to: usize, reason: String },
    /// Send `snapshot` to player `to`, the other one, and `view` to the
    /// spectators; once the match is over, `end` holds the announcement for
    /// the spectators and the history to store.
    Relay { to: usize, snapshot: String, view: String, end: Option<(String, String)> },
}

/// The announcement of the winner for the spectators.
pub open spec fn banner(winner: usize) -> Seq<char> {
    if winner == 0 {
        "mesg:Player white win!"@
    } else {
        "mesg:Player black win!"@
    }
}

/// The line that refuses a malformed command.
pub open spec fn parse_error_text() -> Seq<char> {
    "parse error"@
}

/// The prefix of a viewer snapshot on the spectator channel.
pub open spec fn view_tag() -> Seq<char> {
    "qfcode:"@
}

/// `r` sends `text` back to player `from`.
pub open spec fn refuses(r: &Action, from: usize, text: Seq<char>) -> bool {
    match r {
        Action::Refuse { to, reason } => *to == from && reason@ == text,
        _ => false,
    }
}

/// `r` is what the judge answers to command `c` from player `from`, where
/// `old` is the match before and `new` after.
pub open spec fn answers(old: &Quoridor, new: &Quoridor, from: usize, c: Command, r: &Action) -> bool {
    match old.play_result(c) {
        Err(e) => {
            &&& *new == *old
            &&& refuses(r, from, reason(e)@)
        },
        Ok(()) => {
            &&& old.applied(new, c)
            &&& r matches Action::Relay { to, snapshot, view, end } && {
                &&& to == (from + 1) % (PLAYER_NUM as int)
                &&& snapshot@ == socket_text(new)
                &&& view@ == view_tag() + base64_text(view_bits(new))
                &&& match new.winner() {
                    Some(w) => end matches Some((b, h)) && b@ == banner(w) && h@ == base64_text(
                        history_bits(new),
                    ),
                    None => end is None,
                }
            }
        },
    }
}

impl Quoridor {
    /// Handles a line from player `from`: a malformed line or a refused
    /// command is answered to its sender and changes nothing; a command
    /// carried out is relayed to the other player and to the spectators.
    pub fn apply_line(&mut self, from: usize, line: &str) -> (r: Action)
        requires
            old(self).wf(),
            from < PLAYER_NUM,
            old(self).turn_num < u16::MAX,
            8 * old(self).record@.len() + 26 <= usize::MAX,
        ensures
            final(self).wf(),
            command_of(line@) is None ==> *final(self) == *old(self) && refuses(&r, from, parse_error_text()),
            command_of(line@) matches Some(c) ==> answers(old(self), final(self), from, c, &r),
    {
        let com = match Command::parse(line) {
            Some(c) => c,
            None => {
                return Action::Refuse { to: from, reason: String::from_str("parse error") };
            },
        };
        match self.play(&com) {
            Err(e) => Action::Refuse { to: from, reason: String::from_str(e.message()) },
            Ok(()) => {
                let snapshot = self.socketformat();
                let mut view = String::from_str("qfcode:");
                let code = self.viewformat();
                view.append(code.as_str());
                let end = match self.is_over() {
                    Some(w) => {
                        let b = if w == 0 {
                            String::from_str("mesg:Player white win!")
                        } else {
                            String::from_str("mesg:Player black win!")
                        };
                        Some((b, self.historyformat()))
                    },
                    None => None,
                };
                Action::Relay { to: (from + 1) % PLAYER_NUM, snapshot, view, end }
            },
        }
    }
}

} // verus!
