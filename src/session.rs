//! The session: running scores of two colours over repeated matches,
//! dealer rotation, the winning threshold and the full-napoli override.

use vstd::prelude::*;
use vstd::string::StringSliceAdditionalSpecFns;
use crate::card::full_deck;
use crate::engine::{Match, MatchView, Move, MoveError, Turn, other_turn, play_text};
use crate::scoring::{PointTally, full_napoli, has_full_napoli, points, tally_of};

verus! {

broadcast use {
    vstd::seq_lib::group_to_multiset_ensures,
    vstd::multiset::group_multiset_axioms,
    vstd::seq_lib::lemma_multiset_commutative,
};

/// The two players of a session, by colour. The colours keep their scores
/// across matches while the seats rotate.
#[derive(Clone, Copy, Debug, PartialEq, Eq, Structural)]
pub enum PlayerKind {
    Purple,
    Green,
}

impl Default for PlayerKind {
    fn default() -> (r: PlayerKind)
        ensures
            r == PlayerKind::Purple,
    {
        PlayerKind::Purple
    }
}

pub open spec fn other_kind(k: PlayerKind) -> PlayerKind {
    match k {
        PlayerKind::Purple => PlayerKind::Green,
        PlayerKind::Green => PlayerKind::Purple,
    }
}

impl core::ops::Not for PlayerKind {
    type Output = PlayerKind;

    fn not(self) -> (r: PlayerKind) {
        match self {
            PlayerKind::Purple => PlayerKind::Green,
            PlayerKind::Green => PlayerKind::Purple,
        }
    }
}

impl vstd::std_specs::ops::NotSpecImpl for PlayerKind {
    open spec fn obeys_not_spec() -> bool {
        true
    }

    open spec fn not_req(self) -> bool {
        true
    }

    open spec fn not_spec(self) -> PlayerKind {
        other_kind(self)
    }
}

/// The colour sitting in seat `t` when `first` holds the first seat.
pub open spec fn color_of(t: Turn, first: PlayerKind) -> PlayerKind {
    match t {
        Turn::First => first,
        Turn::Shuffler => other_kind(first),
    }
}

/// The colour that has won on running scores alone, with its score and the
/// loser's: a side wins once it exceeds 20, the higher one when both do;
/// equal scores win nobody.
pub open spec fn score_winner(purple: int, green: int) -> Option<(PlayerKind, int, int)> {
    if purple <= 20 && green <= 20 {
        None
    } else if green <= 20 || purple > green {
        Some((PlayerKind::Purple, purple, green))
    } else if purple <= 20 || purple < green {
        Some((PlayerKind::Green, green, purple))
    } else {
        None
    }
}

pub open spec fn purple_label() -> Seq<char> {
    "\u{1b}[38;5;93mPurple\u{1b}[0m"@
}

pub open spec fn green_label() -> Seq<char> {
    "\u{1b}[38;5;34mGreen\u{1b}[0m"@
}

pub open spec fn label(k: PlayerKind) -> Seq<char> {
    match k {
        PlayerKind::Purple => purple_label(),
        PlayerKind::Green => green_label(),
    }
}

/// The purple player's name, in purple on a terminal.
pub fn purple_text() -> (r: String)
    ensures
        r@ == purple_label(),
{
    "\u{1b}[38;5;93mPurple\u{1b}[0m".to_owned()
}

/// The green player's name, in green on a terminal.
pub fn green_text() -> (r: String)
    ensures
        r@ == green_label(),
{
    "\u{1b}[38;5;34mGreen\u{1b}[0m".to_owned()
}


/// The seat that colour `k` holds when `first` holds the first seat.
pub open spec fn seat_of(k: PlayerKind, first: PlayerKind) -> Turn {
    if k == first {
        Turn::First
    } else {
        Turn::Shuffler
    }
}

/// A colour that holds all ten coin cards at the end of a match, if any:
/// the first seat's colour is looked at first.
pub open spec fn full_napoli_holder(m: MatchView, first: PlayerKind) -> Option<PlayerKind> {
    if full_napoli(m.first.pile) {
        Some(first)
    } else if full_napoli(m.shuffler.pile) {
        Some(other_kind(first))
    } else {
        None
    }
}

/// The points of colour `k` on the running scores.
pub open spec fn score_of(k: PlayerKind, purple: int, green: int) -> int {
    match k {
        PlayerKind::Purple => purple,
        PlayerKind::Green => green,
    }
}

/// The session's winner, with the winner's and the loser's running scores:
/// a colour holding all ten coin cards wins outright, whatever the scores;
/// otherwise the running scores decide.
pub open spec fn session_winner_of(m: MatchView, first: PlayerKind, purple: int, green: int) -> Option<(PlayerKind, int, int)> {
    match full_napoli_holder(m, first) {
        Some(k) => Some((k, score_of(k, purple, green), score_of(other_kind(k), purple, green))),
        None => score_winner(purple, green),
    }
}

/// A session: the colours' running scores, the current match, which colour
/// holds the first seat, and the seat that made the latest capture.
#[derive(Clone, Debug)]
pub struct Game {
    pub purple_points: usize,
    pub green_points: usize,
    pub curr_match: Match,
    pub who_is_first: PlayerKind,
    pub who_won_last_round: Turn,
    pub last_move: Option<Move>,
}

/// The match after the cards left on the table go to the pile of seat `t`.
pub open spec fn swept(m: MatchView, t: Turn) -> MatchView {
    let p = m.seat(t);
    MatchView {
        table: Seq::empty(),
        ..m.with_seat(t, crate::engine::PlayerView { pile: p.pile + m.table, ..p })
    }
}

impl Game {
    pub open spec fn wf(&self) -> bool {
        self.curr_match@.wf()
    }

    /// A new session: no points, purple in the first seat, a fresh match.
    pub fn new() -> (r: Game)
        ensures
            r.wf(),
            r.purple_points == 0 && r.green_points == 0,
            r.who_is_first == PlayerKind::Purple,
            r.who_won_last_round == Turn::First,
            r.last_move is None,
            r.curr_match@.cards() == full_deck(),
            r.curr_match@.deck.len() == 30,
            r.curr_match@.first.hand.len() == 3 && r.curr_match@.shuffler.hand.len() == 3,
            r.curr_match@.table.len() == 4,
            r.curr_match@.first.pile.len() == 0 && r.curr_match@.shuffler.pile.len() == 0,
            r.curr_match@.first.scope == 0 && r.curr_match@.shuffler.scope == 0,
            r.curr_match@.turn == Turn::First,
    {
        Game {
            who_is_first: PlayerKind::Purple,
            curr_match: Match::new(),
            purple_points: 0,
            green_points: 0,
            who_won_last_round: Turn::First,
            last_move: None,
        }
    }

    /// Plays the move written in `mov` in the current match (see
    /// `Match::make_move`); a capture makes its seat the latest capturer.
    pub fn make_move(&mut self, mov: &str) -> (r: Result<Option<Move>, MoveError>)
        requires
            old(self).wf(),
        ensures
            final(self).wf(),
            final(self).curr_match@.cards() == old(self).curr_match@.cards(),
            final(self).purple_points == old(self).purple_points,
            final(self).green_points == old(self).green_points,
            final(self).who_is_first == old(self).who_is_first,
            final(self).last_move == old(self).last_move,
            match play_text(old(self).curr_match@, mov.spec_bytes()) {
                Ok((m, record)) => {
                    &&& r is Ok
                    &&& r->Ok_0 is Some
                    &&& r->Ok_0->Some_0@ == record
                    &&& final(self).curr_match@ == m
                    &&& final(self).who_won_last_round == if record.cards_taken is Some {
                        record.turn
                    } else {
                        old(self).who_won_last_round
                    }
                },
                Err(e) => {
                    &&& r == Err::<Option<Move>, MoveError>(e)
                    &&& final(self).curr_match@ == old(self).curr_match@
                    &&& final(self).who_won_last_round == old(self).who_won_last_round
                },
            },
    {
        let m = self.curr_match.make_move(mov);
        match &m {
            Ok(Some(move_made)) => {
                if move_made.cards_taken.is_some() {
                    self.who_won_last_round = move_made.turn;
                }
            },
            _ => {},
        }
        m
    }

    /// Passes the turn to the other seat.
    pub fn toggle_turn(&mut self)
        requires
            old(self).wf(),
        ensures
            final(self).wf(),
            final(self).curr_match@ == (MatchView { turn: other_turn(old(self).curr_match@.turn), ..old(self).curr_match@ }),
            final(self).purple_points == old(self).purple_points,
            final(self).green_points == old(self).green_points,
            final(self).who_is_first == old(self).who_is_first,
            final(self).who_won_last_round == old(self).who_won_last_round,
            final(self).last_move == old(self).last_move,
    {
        self.curr_match.turn.toggle_turn()
    }

    /// The session's winner, with the winner's and the loser's points: a
    /// colour holding all ten coin cards wins whatever the scores; otherwise
    /// a colour wins once its running score exceeds 20, the higher one when
    /// both do, and equal scores win nobody.
    pub fn winner(&self) -> (r: Option<(String, usize, usize)>)
        ensures
            match session_winner_of(
                self.curr_match@,
                self.who_is_first,
                self.purple_points as int,
                self.green_points as int,
            ) {
                None => r is None,
                Some((k, w, l)) => r is Some && r->Some_0.0@ == label(k) && r->Some_0.1 == w
                    && r->Some_0.2 == l,
            },
            full_napoli(self.curr_match@.first.pile) ==> r is Some && r->Some_0.0@ == label(
                self.who_is_first,
            ),
    {
        let (purp, grep) = (self.purple_points, self.green_points);
        match self.full_napoli_winner() {
            Some(PlayerKind::Purple) => Some((purple_text(), purp, grep)),
            Some(PlayerKind::Green) => Some((green_text(), grep, purp)),
            None => {
                if purp <= 20 && grep <= 20 {
                    None
                } else if grep <= 20 || purp > grep {
                    Some((purple_text(), purp, grep))
                } else if purp <= 20 || purp < grep {
                    Some((green_text(), grep, purp))
                } else {
                    None
                }
            },
        }
    }

    /// When the match is over, gives the table to the latest capturer and
    /// returns the tally; before that, returns `None` and changes nothing.
    pub fn is_match_over(&mut self) -> (r: Option<PointTally>)
        requires
            old(self).wf(),
        ensures
            final(self).wf(),
            final(self).curr_match@.cards() == old(self).curr_match@.cards(),
            final(self).purple_points == old(self).purple_points,
            final(self).green_points == old(self).green_points,
            final(self).who_is_first == old(self).who_is_first,
            final(self).who_won_last_round == old(self).who_won_last_round,
            final(self).last_move == old(self).last_move,
            !old(self).curr_match@.is_over() ==> r is None && final(self).curr_match@ == old(self).curr_match@,
            old(self).curr_match@.is_over() ==> {
                &&& final(self).curr_match@ == swept(old(self).curr_match@, old(self).who_won_last_round)
                &&& r == Some(tally_of(final(self).curr_match@.first, final(self).curr_match@.shuffler))
            },
    {
        if !self.curr_match.is_over() {
            None
        } else {
            self.give_table_to_last_taker();
            Some(self.curr_match.tally_final_points())
        }
    }

    /// Moves every card left on the table to the pile of the latest capturer.
    pub fn give_table_to_last_taker(&mut self)
        requires
            old(self).wf(),
        ensures
            final(self).wf(),
            final(self).curr_match@ == swept(old(self).curr_match@, old(self).who_won_last_round),
            final(self).curr_match@.cards() == old(self).curr_match@.cards(),
            final(self).purple_points == old(self).purple_points,
            final(self).green_points == old(self).green_points,
            final(self).who_is_first == old(self).who_is_first,
            final(self).who_won_last_round == old(self).who_won_last_round,
            final(self).last_move == old(self).last_move,
    {
        let ghost m = self.curr_match@;
        match self.who_won_last_round {
            Turn::First => self.curr_match.player_first.pile.append(&mut self.curr_match.table),
            Turn::Shuffler => self.curr_match.player_shuffler.pile.append(&mut self.curr_match.table),
        }
        proof {
            let t = self.who_won_last_round;
            let p = m.seat(t);
            assert((p.pile + m.table).to_multiset() == p.pile.to_multiset().add(m.table.to_multiset()));
            assert(Seq::<crate::card::Card>::empty().to_multiset() =~= vstd::multiset::Multiset::empty());
            assert(self.curr_match@.cards() =~= m.cards());
        }
    }

    /// Adds a finished match's points to the running scores, each colour
    /// receiving the points of the seat it held.
    pub fn record_tally(&mut self, tally: &PointTally)
        requires
            points(*tally, Turn::First) <= usize::MAX,
            points(*tally, Turn::Shuffler) <= usize::MAX,
            old(self).purple_points + points(*tally, seat_of(PlayerKind::Purple, old(self).who_is_first)) <= usize::MAX,
            old(self).green_points + points(*tally, seat_of(PlayerKind::Green, old(self).who_is_first)) <= usize::MAX,
        ensures
            final(self).purple_points == old(self).purple_points + points(*tally, seat_of(PlayerKind::Purple, old(self).who_is_first)),
            final(self).green_points == old(self).green_points + points(*tally, seat_of(PlayerKind::Green, old(self).who_is_first)),
            final(self).curr_match@ == old(self).curr_match@,
            final(self).who_is_first == old(self).who_is_first,
            final(self).who_won_last_round == old(self).who_won_last_round,
            final(self).last_move == old(self).last_move,
    {
        let first = tally.first_points();
        let shuf = tally.shuf_points();
        match self.who_is_first {
            PlayerKind::Purple => {
                self.purple_points = self.purple_points + first;
                self.green_points = self.green_points + shuf;
            },
            PlayerKind::Green => {
                self.purple_points = self.purple_points + shuf;
                self.green_points = self.green_points + first;
            },
        }
    }

    /// The colour holding all ten coin cards, if either does.
    pub fn full_napoli_winner(&self) -> (r: Option<PlayerKind>)
        ensures
            r == full_napoli_holder(self.curr_match@, self.who_is_first),
    {
        if has_full_napoli(self.curr_match.player_first.pile.as_slice()) {
            Some(self.who_is_first)
        } else if has_full_napoli(self.curr_match.player_shuffler.pile.as_slice()) {
            Some(match self.who_is_first {
                PlayerKind::Purple => PlayerKind::Green,
                PlayerKind::Green => PlayerKind::Purple,
            })
        } else {
            None
        }
    }

    /// The colour whose turn it is.
    pub fn color_playing(&self) -> (r: PlayerKind)
        ensures
            r == color_of(self.curr_match.turn, self.who_is_first),
    {
        match (self.curr_match.turn, self.who_is_first) {
            (Turn::First, PlayerKind::Purple) => PlayerKind::Purple,
            (Turn::First, PlayerKind::Green) => PlayerKind::Green,
            (Turn::Shuffler, PlayerKind::Purple) => PlayerKind::Green,
            (Turn::Shuffler, PlayerKind::Green) => PlayerKind::Purple,
        }
    }

    /// Hands the first seat to the other colour (once per finished match).
    pub fn toggle_whose_first(&mut self)
        ensures
            final(self).who_is_first == other_kind(old(self).who_is_first),
            final(self).curr_match@ == old(self).curr_match@,
            final(self).purple_points == old(self).purple_points,
            final(self).green_points == old(self).green_points,
            final(self).who_won_last_round == old(self).who_won_last_round,
            final(self).last_move == old(self).last_move,
    {
        self.who_is_first = match self.who_is_first {
            PlayerKind::Purple => PlayerKind::Green,
            PlayerKind::Green => PlayerKind::Purple,
        };
    }
}


impl Default for Game {
    /// Same as `Game::new`.
    fn default() -> (r: Game)
        ensures
            r.wf(),
            r.purple_points == 0 && r.green_points == 0,
            r.curr_match@.cards() == full_deck(),
    {
        Game::new()
    }
}

} // verus!
