//! One match: the deck, the table and two seats, driven one move at a time.

use vstd::prelude::*;
use vstd::multiset::Multiset;
use vstd::string::StringSliceAdditionalSpecFns;
use crate::card::{Card, CardNum};
use crate::parse_move::{
    is_digit, lemma_split_nonempty, parse_move_internal, move_spec, split_on, all_digits, MoveText,
    ParsedMove, LETTER_T, SEMICOLON,
};

verus! {

broadcast use {
    vstd::seq_lib::group_to_multiset_ensures,
    vstd::multiset::group_multiset_axioms,
    vstd::seq_lib::lemma_multiset_commutative,
};

/// The two seats of a match.
#[derive(Clone, Copy, Debug, PartialEq, Eq, Structural)]
pub enum Turn {
    First,
    Shuffler,
}

impl Default for Turn {
    fn default() -> (r: Turn)
        ensures
            r == Turn::First,
    {
        Turn::First
    }
}

pub open spec fn other_turn(t: Turn) -> Turn {
    match t {
        Turn::First => Turn::Shuffler,
        Turn::Shuffler => Turn::First,
    }
}

impl Turn {
    /// Passes the turn to the other seat.
    pub fn toggle_turn(&mut self)
        ensures
            *final(self) == other_turn(*old(self)),
    {
        match self {
            Turn::First => *self = Turn::Shuffler,
            Turn::Shuffler => *self = Turn::First,
        }
    }
}

/// What a seat holds: its hand (at most three cards), the cards it has
/// captured, and how many times it swept the table by a sum capture.
#[derive(Clone, Debug)]
pub struct Player {
    pub curr_hand: Vec<Card>,
    pub pile: Vec<Card>,
    pub scope: usize,
}

pub struct PlayerView {
    pub hand: Seq<Card>,
    pub pile: Seq<Card>,
    pub scope: nat,
}

impl View for Player {
    type V = PlayerView;

    open spec fn view(&self) -> PlayerView {
        PlayerView { hand: self.curr_hand@, pile: self.pile@, scope: self.scope as nat }
    }
}

impl Default for Player {
    fn default() -> (r: Player)
        ensures
            r@ == (PlayerView { hand: Seq::empty(), pile: Seq::empty(), scope: 0 }),
    {
        Player { curr_hand: Vec::new(), pile: Vec::new(), scope: 0 }
    }
}

/// The record of one applied move: who played which card and, for a
/// capture, the cards taken from the table (`None` for a table drop).
#[derive(Clone, Debug)]
pub struct Move {
    pub turn: Turn,
    pub card_played: Card,
    pub cards_taken: Option<Vec<Card>>,
}

pub struct MoveView {
    pub turn: Turn,
    pub card_played: Card,
    pub cards_taken: Option<Seq<Card>>,
}

impl View for Move {
    type V = MoveView;

    open spec fn view(&self) -> MoveView {
        MoveView {
            turn: self.turn,
            card_played: self.card_played,
            cards_taken: match self.cards_taken {
                Some(v) => Some(v@),
                None => None,
            },
        }
    }
}

/// Why a move was refused. A refused move changes nothing.
#[derive(Clone, Copy, Debug, PartialEq, Eq, Structural)]
pub enum MoveError {
    /// The text is not a move of the grammar.
    ParseError,
    /// Values don't match: the played card's value is not the sum of the named table cards.
    MismatchedValues,
    /// The hand index names no card of the hand.
    OutOfRangeOfHand,
    /// At least one table index names no card of the table.
    OutOfRangeOfTable,
}

/// One deal: whose turn it is, the two seats, the undealt deck (its top is
/// the last position) and the face-up table.
#[derive(Clone, Debug)]
pub struct Match {
    pub turn: Turn,
    pub player_first: Player,
    pub player_shuffler: Player,
    pub deck: Vec<Card>,
    pub table: Vec<Card>,
}

pub struct MatchView {
    pub turn: Turn,
    pub first: PlayerView,
    pub shuffler: PlayerView,
    pub deck: Seq<Card>,
    pub table: Seq<Card>,
}

impl View for Match {
    type V = MatchView;

    open spec fn view(&self) -> MatchView {
        MatchView {
            turn: self.turn,
            first: self.player_first@,
            shuffler: self.player_shuffler@,
            deck: self.deck@,
            table: self.table@,
        }
    }
}

impl PlayerView {
    pub open spec fn wf(self) -> bool {
        &&& self.hand.len() <= 3
        &&& self.scope <= self.pile.len()
    }

    pub open spec fn cards(self) -> Multiset<Card> {
        self.hand.to_multiset().add(self.pile.to_multiset())
    }
}

impl MatchView {
    /// A hand never holds more than three cards, the deck is dealt three
    /// cards at a time, and every sweep put cards in the sweeper's pile.
    pub open spec fn wf(self) -> bool {
        &&& self.first.wf()
        &&& self.shuffler.wf()
        &&& self.deck.len() % 3 == 0
    }

    pub open spec fn seat(self, t: Turn) -> PlayerView {
        match t {
            Turn::First => self.first,
            Turn::Shuffler => self.shuffler,
        }
    }

    pub open spec fn with_seat(self, t: Turn, p: PlayerView) -> MatchView {
        match t {
            Turn::First => MatchView { first: p, ..self },
            Turn::Shuffler => MatchView { shuffler: p, ..self },
        }
    }

    /// Every card of the match, wherever it lies.
    pub open spec fn cards(self) -> Multiset<Card> {
        self.deck.to_multiset().add(self.first.cards()).add(self.shuffler.cards()).add(
            self.table.to_multiset(),
        )
    }

    /// No card left to deal or to play.
    pub open spec fn is_over(self) -> bool {
        self.deck.len() == 0 && self.first.hand.len() == 0 && self.shuffler.hand.len() == 0
    }
}

/// The sum of the cards' values.
pub open spec fn sum_values(s: Seq<Card>) -> int
    decreases s.len(),
{
    if s.len() == 0 {
        0
    } else {
        sum_values(s.drop_last()) + s.last().spec_value()
    }
}

/// The cards of `t` whose positions `idx` names (`want`), or those it does
/// not name (`!want`), in table order.
pub open spec fn pick(t: Seq<Card>, idx: Seq<usize>, want: bool) -> Seq<Card>
    decreases t.len(),
{
    if t.len() == 0 {
        Seq::empty()
    } else {
        let rest = pick(t.drop_last(), idx, want);
        if idx.contains((t.len() - 1) as usize) == want {
            rest.push(t.last())
        } else {
            rest
        }
    }
}

pub open spec fn is_ace(c: Card) -> bool {
    c.number == CardNum::Numeric(1)
}

/// After a move: a hand that has just emptied gets the deck's top three
/// cards (top card first) if the deck has any.
pub open spec fn redeal(hand: Seq<Card>, deck: Seq<Card>) -> (Seq<Card>, Seq<Card>) {
    let n = deck.len() as int;
    if hand.len() == 0 && n > 0 {
        (seq![deck[n - 1], deck[n - 2], deck[n - 3]], deck.subrange(0, n - 3))
    } else {
        (hand, deck)
    }
}

/// The result of a seat's move on the table and deck: the seat, table and
/// deck afterwards and the move's record, or why it is refused.
pub open spec fn play_seat(
    p: PlayerView,
    table: Seq<Card>,
    deck: Seq<Card>,
    turn: Turn,
    mv: MoveText,
) -> Result<(PlayerView, Seq<Card>, Seq<Card>, MoveView), MoveError> {
    if mv.0 >= p.hand.len() {
        Err(MoveError::OutOfRangeOfHand)
    } else {
        let card = p.hand[mv.0 as int];
        let (hand, deck2) = redeal(p.hand.remove(mv.0 as int), deck);
        match mv.1 {
            None => Ok((
                PlayerView { hand, ..p },
                table.push(card),
                deck2,
                MoveView { turn, card_played: card, cards_taken: None },
            )),
            Some(idx) => if exists|k: int| 0 <= k < idx.len() && idx[k] >= table.len() {
                Err(MoveError::OutOfRangeOfTable)
            } else if is_ace(card) {
                Ok((
                    PlayerView { hand, pile: p.pile + table + seq![card], scope: p.scope },
                    Seq::empty(),
                    deck2,
                    MoveView { turn, card_played: card, cards_taken: Some(table) },
                ))
            } else {
                let taken = pick(table, idx, true);
                let kept = pick(table, idx, false);
                if sum_values(taken) == card.spec_value() {
                    Ok((
                        PlayerView {
                            hand,
                            pile: p.pile + taken + seq![card],
                            scope: if kept.len() == 0 { p.scope + 1 } else { p.scope },
                        },
                        kept,
                        deck2,
                        MoveView { turn, card_played: card, cards_taken: Some(taken) },
                    ))
                } else {
                    Err(MoveError::MismatchedValues)
                }
            },
        }
    }
}

/// The result of applying a parsed move for the seat whose turn it is.
pub open spec fn play(m: MatchView, mv: MoveText) -> Result<(MatchView, MoveView), MoveError> {
    match play_seat(m.seat(m.turn), m.table, m.deck, m.turn, mv) {
        Ok((p, table, deck, d)) => Ok((MatchView { table, deck, ..m.with_seat(m.turn, p) }, d)),
        Err(e) => Err(e),
    }
}

/// The result of a move's text: refused as `ParseError` unless it is in
/// the grammar, else as `play` says.
pub open spec fn play_text(m: MatchView, text: Seq<u8>) -> Result<(MatchView, MoveView), MoveError> {
    match move_spec(text) {
        Some(mv) => play(m, mv),
        None => Err(MoveError::ParseError),
    }
}


proof fn lemma_sum_push(s: Seq<Card>, c: Card)
    ensures
        sum_values(s.push(c)) == sum_values(s) + c.spec_value(),
{
    assert(s.push(c).drop_last() =~= s);
}

proof fn lemma_pick_step(t: Seq<Card>, idx: Seq<usize>, want: bool, i: int)
    requires
        0 <= i < t.len(),
    ensures
        pick(t.subrange(0, i + 1), idx, want) == if idx.contains(i as usize) == want {
            pick(t.subrange(0, i), idx, want).push(t[i])
        } else {
            pick(t.subrange(0, i), idx, want)
        },
{
    assert(t.subrange(0, i + 1).drop_last() =~= t.subrange(0, i));
}

/// The chosen cards of a prefix of the table weigh no more than all the chosen cards.
proof fn lemma_sum_pick_prefix(t: Seq<Card>, idx: Seq<usize>, j: int)
    requires
        0 <= j <= t.len(),
    ensures
        sum_values(pick(t.subrange(0, j), idx, true)) <= sum_values(pick(t, idx, true)),
    decreases t.len(),
{
    if j == t.len() {
        assert(t.subrange(0, j) =~= t);
    } else {
        let d = t.drop_last();
        assert(t.subrange(0, j) =~= d.subrange(0, j));
        lemma_sum_pick_prefix(d, idx, j);
        if idx.contains((t.len() - 1) as usize) {
            lemma_sum_push(pick(d, idx, true), t.last());
        }
    }
}

/// The named and the unnamed cards of the table together are the table.
pub proof fn lemma_pick_partition(t: Seq<Card>, idx: Seq<usize>)
    ensures
        pick(t, idx, true).to_multiset().add(pick(t, idx, false).to_multiset()) =~= t.to_multiset(),
    decreases t.len(),
{
    if t.len() > 0 {
        let d = t.drop_last();
        lemma_pick_partition(d, idx);
        assert(t =~= d.push(t.last()));
    }
}

/// A copy of `v`.
fn copy_cards(v: &Vec<Card>) -> (r: Vec<Card>)
    ensures
        r@ == v@,
{
    let mut r: Vec<Card> = Vec::new();
    let mut i: usize = 0;
    while i < v.len()
        invariant
            i <= v@.len(),
            r@ =~= v@.subrange(0, i as int),
        decreases v@.len() - i,
    {
        r.push(v[i]);
        i = i + 1;
    }
    r
}

/// Whether `idx` names position `j`.
fn names(idx: &Vec<usize>, j: usize) -> (r: bool)
    ensures
        r == idx@.contains(j),
{
    let mut k: usize = 0;
    while k < idx.len()
        invariant
            k <= idx@.len(),
            forall|m: int| 0 <= m < k ==> idx@[m] != j,
        decreases idx@.len() - k,
    {
        if idx[k] == j {
            return true;
        }
        k = k + 1;
    }
    false
}

/// Whether every index of `idx` is below `n`.
fn indices_in_range(idx: &Vec<usize>, n: usize) -> (r: bool)
    ensures
        r == !(exists|k: int| 0 <= k < idx@.len() && idx@[k] >= n),
{
    let mut k: usize = 0;
    while k < idx.len()
        invariant
            k <= idx@.len(),
            forall|m: int| 0 <= m < k ==> idx@[m] < n,
        decreases idx@.len() - k,
    {
        if idx[k] >= n {
            return false;
        }
        k = k + 1;
    }
    true
}

/// Splits the table into the cards that `idx` names and the others, when
/// the named cards' values add up to `target`.
fn split_table(table: &Vec<Card>, idx: &Vec<usize>, target: usize) -> (r: Option<(Vec<Card>, Vec<Card>)>)
    ensures
        match r {
            Some((taken, kept)) => sum_values(pick(table@, idx@, true)) == target
                && taken@ == pick(table@, idx@, true) && kept@ == pick(table@, idx@, false),
            None => sum_values(pick(table@, idx@, true)) != target,
        },
{
    let mut taken: Vec<Card> = Vec::new();
    let mut kept: Vec<Card> = Vec::new();
    let mut acc: usize = 0;
    let mut i: usize = 0;
    while i < table.len()
        invariant
            i <= table@.len(),
            taken@ == pick(table@.subrange(0, i as int), idx@, true),
            kept@ == pick(table@.subrange(0, i as int), idx@, false),
            acc == sum_values(taken@),
            acc <= target,
        decreases table@.len() - i,
    {
        let c = table[i];
        proof {
            lemma_pick_step(table@, idx@, true, i as int);
            lemma_pick_step(table@, idx@, false, i as int);
        }
        if names(idx, i) {
            let v = c.value();
            if v > target - acc {
                proof {
                    lemma_sum_push(taken@, c);
                    lemma_sum_pick_prefix(table@, idx@, i + 1);
                }
                return None;
            }
            proof {
                lemma_sum_push(taken@, c);
            }
            taken.push(c);
            acc = acc + v;
        } else {
            kept.push(c);
        }
        i = i + 1;
    }
    assert(table@.subrange(0, i as int) =~= table@);
    if acc == target {
        Some((taken, kept))
    } else {
        None
    }
}


/// Applies a parsed move for `player` (whose turn is `turn`) against the
/// table and the deck, exactly as `play_seat` says; a refused move changes nothing.
fn play_on(
    player: &mut Player,
    table: &mut Vec<Card>,
    deck: &mut Vec<Card>,
    turn: Turn,
    mov: &ParsedMove,
) -> (r: Result<Move, MoveError>)
    requires
        old(player)@.wf(),
        old(deck)@.len() % 3 == 0,
    ensures
        match play_seat(old(player)@, old(table)@, old(deck)@, turn, mov.model()) {
            Ok((p, t, d, record)) => {
                &&& r is Ok
                &&& r->Ok_0@ == record
                &&& final(player)@ == p
                &&& final(table)@ == t
                &&& final(deck)@ == d
            },
            Err(e) => {
                &&& r == Err::<Move, MoveError>(e)
                &&& final(player)@ == old(player)@
                &&& final(table)@ == old(table)@
                &&& final(deck)@ == old(deck)@
            },
        },
{
    if mov.from >= player.curr_hand.len() {
        return Err(MoveError::OutOfRangeOfHand);
    }
    let card = player.curr_hand[mov.from];
    let taken: Option<Vec<Card>>;
    match &mov.to {
        None => {
            table.push(card);
            taken = None;
        },
        Some(idx) => {
            if !indices_in_range(idx, table.len()) {
                return Err(MoveError::OutOfRangeOfTable);
            }
            let ace = match card.number {
                CardNum::Numeric(n) => n == 1,
                _ => false,
            };
            if ace {
                // An ace takes the whole table, whatever the indices.
                let mut grabbed: Vec<Card> = Vec::new();
                grabbed.append(table);
                let record = copy_cards(&grabbed);
                player.pile.append(&mut grabbed);
                player.pile.push(card);
                assert(is_ace(card));
                assert(player.pile@ =~= old(player)@.pile + old(table)@ + seq![card]);
                assert(table@ =~= Seq::<Card>::empty());
                taken = Some(record);
            } else {
                match split_table(table, idx, card.value()) {
                    None => {
                        return Err(MoveError::MismatchedValues);
                    },
                    Some((got, kept)) => {
                        let record = copy_cards(&got);
                        let mut got = got;
                        player.pile.append(&mut got);
                        player.pile.push(card);
                        *table = kept;
                        if table.len() == 0 {
                            // The pile just grew past the old sweep count, so one more fits.
                            assert(player.scope < player.pile.len());
                            player.scope = player.scope + 1;
                        }
                        assert(player.pile@ =~= old(player)@.pile + pick(old(table)@, idx@, true) + seq![card]);
                        taken = Some(record);
                    },
                }
            }
        },
    }
    player.curr_hand.remove(mov.from);
    if player.curr_hand.len() == 0 && deck.len() > 0 {
        let c1 = deck.pop().unwrap();
        let c2 = deck.pop().unwrap();
        let c3 = deck.pop().unwrap();
        player.curr_hand.push(c1);
        player.curr_hand.push(c2);
        player.curr_hand.push(c3);
    }
    proof {
        let (h2, d2) = redeal(old(player)@.hand.remove(mov.from as int), old(deck)@);
        assert(player.curr_hand@ =~= h2);
        assert(deck@ =~= d2);
    }
    Ok(Move { turn, card_played: card, cards_taken: taken })
}


proof fn lemma_redeal(hand: Seq<Card>, deck: Seq<Card>)
    requires
        deck.len() % 3 == 0,
    ensures
        redeal(hand, deck).0.to_multiset().add(redeal(hand, deck).1.to_multiset())
            == hand.to_multiset().add(deck.to_multiset()),
        redeal(hand, deck).1.len() % 3 == 0,
        redeal(hand, deck).0.len() == if hand.len() == 0 && deck.len() > 0 { 3 } else { hand.len() },
{
    let n = deck.len() as int;
    if hand.len() == 0 && n > 0 {
        let rest = deck.subrange(0, n - 3);
        assert(deck =~= rest.push(deck[n - 3]).push(deck[n - 2]).push(deck[n - 1]));
        assert(seq![deck[n - 1], deck[n - 2], deck[n - 3]] =~= Seq::<Card>::empty().push(
            deck[n - 1],
        ).push(deck[n - 2]).push(deck[n - 3]));
        assert(hand =~= Seq::<Card>::empty());
        assert(redeal(hand, deck).0.to_multiset().add(redeal(hand, deck).1.to_multiset())
            =~= hand.to_multiset().add(deck.to_multiset()));
    }
}

/// A move that is not refused keeps the match well formed.
pub proof fn lemma_play_keeps_wf(m: MatchView, mv: MoveText)
    requires
        m.wf(),
    ensures
        play(m, mv) is Ok ==> play(m, mv)->Ok_0.0.wf(),
{
    let p = m.seat(m.turn);
    if mv.0 < p.hand.len() {
        lemma_redeal(p.hand.remove(mv.0 as int), m.deck);
    }
}

/// A move that is not refused moves cards between places of the match; it
/// neither makes nor loses one.
pub proof fn lemma_play_conserves(m: MatchView, mv: MoveText)
    requires
        m.wf(),
    ensures
        play(m, mv) is Ok ==> play(m, mv)->Ok_0.0.cards() == m.cards(),
{
    let p = m.seat(m.turn);
    if mv.0 < p.hand.len() && play(m, mv) is Ok {
        let i = mv.0 as int;
        let card = p.hand[i];
        let rest = p.hand.remove(i);
        lemma_redeal(rest, m.deck);
        let (p2, table2, deck2, _d) = play_seat(p, m.table, m.deck, m.turn, mv)->Ok_0;
        assert(rest.to_multiset() == p.hand.to_multiset().remove(card));
        assert(p.hand.to_multiset().count(card) > 0) by {
            assert(p.hand.contains(card)) by {
                assert(p.hand[i] == card);
            }
        }
        let (hand2, deck2r) = redeal(rest, m.deck);
        assert(deck2 == deck2r && p2.hand == hand2);
        assert(p.hand.to_multiset() =~= rest.to_multiset().insert(card));
        assert(seq![card].to_multiset() =~= Multiset::<Card>::empty().insert(card)) by {
            assert(seq![card] =~= Seq::<Card>::empty().push(card));
            assert(Seq::<Card>::empty().to_multiset() =~= Multiset::<Card>::empty());
        }
        // The played card moves from the hand to the pile or the table.
        assert(p2.pile.to_multiset().add(table2.to_multiset())
            =~= p.pile.to_multiset().add(m.table.to_multiset()).insert(card)) by {
            match mv.1 {
                None => {
                    assert(table2 == m.table.push(card));
                },
                Some(idx) => {
                    if is_ace(card) {
                        assert(table2 =~= Seq::<Card>::empty());
                        assert(table2.to_multiset() =~= Multiset::<Card>::empty());
                    } else {
                        lemma_pick_partition(m.table, idx);
                    }
                },
            }
        }
        assert forall|x: Card|
            #[trigger] play(m, mv)->Ok_0.0.cards().count(x) == m.cards().count(x) by {
            assert(hand2.to_multiset().add(deck2.to_multiset()).count(x) == rest.to_multiset().add(
                m.deck.to_multiset(),
            ).count(x));
            assert(p2.pile.to_multiset().add(table2.to_multiset()).count(x)
                == p.pile.to_multiset().add(m.table.to_multiset()).insert(card).count(x));
        }
        assert(play(m, mv)->Ok_0.0.cards() =~= m.cards());
    }
}

/// The match that `deal` makes from `d`: three cards to each seat
/// alternately from the top (first seat first), then four to the table.
pub open spec fn dealt(d: Seq<Card>) -> MatchView {
    let n = d.len() as int;
    MatchView {
        turn: Turn::First,
        first: PlayerView { hand: seq![d[n - 1], d[n - 3], d[n - 5]], pile: Seq::empty(), scope: 0 },
        shuffler: PlayerView {
            hand: seq![d[n - 2], d[n - 4], d[n - 6]],
            pile: Seq::empty(),
            scope: 0,
        },
        deck: d.subrange(0, n - 10),
        table: seq![d[n - 7], d[n - 8], d[n - 9], d[n - 10]],
    }
}

impl Match {
    /// Deals a match from `deck`, whose top is its last card.
    pub fn deal(deck: Vec<Card>) -> (r: Match)
        requires
            deck@.len() >= 10,
        ensures
            r@ == dealt(deck@),
            r@.cards() == deck@.to_multiset(),
    {

        let ghost d = deck@;
        let mut deck = deck;
        let mut player_first = Player::default();
        let mut player_shuffler = Player::default();
        let mut round: usize = 0;
        while round < 3
            invariant
                round <= 3,
                deck@ == d.subrange(0, d.len() - 2 * round),
                player_first@.pile.len() == 0 && player_first.scope == 0,
                player_shuffler@.pile.len() == 0 && player_shuffler.scope == 0,
                player_first@.hand.len() == round,
                player_shuffler@.hand.len() == round,
                forall|k: int| 0 <= k < round ==> player_first@.hand[k] == d[d.len() - 1 - 2 * k],
                forall|k: int| 0 <= k < round ==> player_shuffler@.hand[k] == d[d.len() - 2 - 2 * k],
                d.len() >= 10,
                deck@.to_multiset().add(player_first@.hand.to_multiset()).add(
                    player_shuffler@.hand.to_multiset(),
                ) == d.to_multiset(),
            decreases 3 - round,
        {
            let ghost d0 = deck@;
            let c1 = deck.pop().unwrap();
            let ghost d1 = deck@;
            let c2 = deck.pop().unwrap();
            let ghost h1 = player_first@.hand;
            let ghost h2 = player_shuffler@.hand;
            assert(d0 =~= d1.push(c1));
            assert(d1 =~= deck@.push(c2));
            player_first.curr_hand.push(c1);
            player_shuffler.curr_hand.push(c2);
            assert(d0.to_multiset() == d1.to_multiset().insert(c1));
            assert(d1.to_multiset() == deck@.to_multiset().insert(c2));
            assert(player_first@.hand.to_multiset() == h1.to_multiset().insert(c1));
            assert(player_shuffler@.hand.to_multiset() == h2.to_multiset().insert(c2));
            assert(deck@.to_multiset().add(player_first@.hand.to_multiset()).add(
                player_shuffler@.hand.to_multiset(),
            ) =~= d.to_multiset());
            round = round + 1;
        }
        let mut table: Vec<Card> = Vec::new();
        let mut k: usize = 0;
        while k < 4
            invariant
                k <= 4,
                d.len() >= 10,
                deck@ == d.subrange(0, d.len() - 6 - k),
                table@.len() == k,
                forall|j: int| 0 <= j < k ==> table@[j] == d[d.len() - 7 - j],
                deck@.to_multiset().add(player_first@.hand.to_multiset()).add(
                    player_shuffler@.hand.to_multiset(),
                ).add(table@.to_multiset()) == d.to_multiset(),
            decreases 4 - k,
        {
            let ghost d0 = deck@;
            let c = deck.pop().unwrap();
            assert(d0 =~= deck@.push(c));
            table.push(c);
            assert(deck@.to_multiset().add(player_first@.hand.to_multiset()).add(
                player_shuffler@.hand.to_multiset(),
            ).add(table@.to_multiset()) =~= d.to_multiset());
            k = k + 1;
        }
        let r = Match { player_first, player_shuffler, deck, table, turn: Turn::First };
        assert(r@.first.hand =~= dealt(d).first.hand);
        assert(r@.shuffler.hand =~= dealt(d).shuffler.hand);
        assert(r@.first.pile =~= dealt(d).first.pile);
        assert(r@.shuffler.pile =~= dealt(d).shuffler.pile);
        assert(r@.table =~= dealt(d).table);
        assert(r@.cards() =~= d.to_multiset());
        r
    }

    /// A new match, dealt from a freshly shuffled deck.
    pub fn new() -> (r: Match)
        ensures
            r@.wf(),
            r@.cards() == crate::card::full_deck(),
            r@.deck.len() == 30,
            r@.first.hand.len() == 3 && r@.shuffler.hand.len() == 3 && r@.table.len() == 4,
            r@.first.pile.len() == 0 && r@.shuffler.pile.len() == 0,
            r@.first.scope == 0 && r@.shuffler.scope == 0,
            r@.turn == Turn::First,
    {
        let deck = Card::shuffled_deck();
        Match::deal(deck)
    }

    /// No card is left in the deck or in either hand.
    pub fn is_over(&self) -> (r: bool)
        ensures
            r == self@.is_over(),
    {
        self.deck.len() == 0 && self.player_first.curr_hand.len() == 0
            && self.player_shuffler.curr_hand.len() == 0
    }

    /// Parses a move's text.
    pub fn parse_move(mov: &str) -> (r: Result<ParsedMove, MoveError>)
        ensures
            match move_spec(mov.spec_bytes()) {
                Some(m) => r is Ok && r->Ok_0.model() == m,
                None => r == Err::<ParsedMove, MoveError>(MoveError::ParseError),
            },
    {
        match parse_move_internal(mov.as_bytes()) {
            Some(m) => Ok(m),
            None => Err(MoveError::ParseError),
        }
    }

    /// Applies the move written in `input` for the seat whose turn it is
    /// (see `play_text`). The turn is not passed on. A refused move changes nothing.
    pub fn make_move(&mut self, input: &str) -> (r: Result<Option<Move>, MoveError>)
        requires
            old(self)@.wf(),
        ensures
            final(self)@.wf(),
            final(self)@.cards() == old(self)@.cards(),
            match play_text(old(self)@, input.spec_bytes()) {
                Ok((m, record)) => {
                    &&& r is Ok
                    &&& r->Ok_0 is Some
                    &&& r->Ok_0->Some_0@ == record
                    &&& final(self)@ == m
                },
                Err(e) => {
                    &&& r == Err::<Option<Move>, MoveError>(e)
                    &&& final(self)@ == old(self)@
                },
            },
    {
        let mov = match Match::parse_move(input) {
            Ok(m) => m,
            Err(e) => return Err(e),
        };
        proof {
            lemma_play_keeps_wf(self@, mov.model());
            lemma_play_conserves(self@, mov.model());
        }
        let res = match self.turn {
            Turn::First => play_on(&mut self.player_first, &mut self.table, &mut self.deck, Turn::First, &mov),
            Turn::Shuffler => play_on(&mut self.player_shuffler, &mut self.table, &mut self.deck, Turn::Shuffler, &mov),
        };
        match res {
            Ok(m) => Ok(Some(m)),
            Err(e) => Err(e),
        }
    }
}


impl Default for Match {
    /// Same as `Match::new`.
    fn default() -> (r: Match)
        ensures
            r@.wf(),
            r@.cards() == crate::card::full_deck(),
            r@.deck.len() == 30,
    {
        Match::new()
    }
}

/// The match after a driver feeds it one text: a refused text changes
/// nothing; after an applied move the turn passes to the other seat.
pub open spec fn after_text(m: MatchView, text: Seq<u8>) -> MatchView {
    match play_text(m, text) {
        Ok((m2, _)) => MatchView { turn: other_turn(m2.turn), ..m2 },
        Err(_) => m,
    }
}

/// The match after a driver feeds it `texts` one at a time: a refused text
/// changes nothing; after an applied move the turn passes to the other seat.
pub open spec fn run(m: MatchView, texts: Seq<Seq<u8>>) -> MatchView
    decreases texts.len(),
{
    if texts.len() == 0 {
        m
    } else {
        run(after_text(m, texts[0]), texts.drop_first())
    }
}

/// Conservation: whatever texts are played on a well-formed match, it stays
/// well formed and its deck, hands, table and piles together hold the same
/// cards (for a new match, the forty of the deck).
pub proof fn lemma_conservation(m: MatchView, texts: Seq<Seq<u8>>)
    requires
        m.wf(),
    ensures
        run(m, texts).wf(),
        run(m, texts).cards() == m.cards(),
    decreases texts.len(),
{
    if texts.len() > 0 {
        if let Some(mv) = move_spec(texts[0]) {
            lemma_play_keeps_wf(m, mv);
            lemma_play_conserves(m, mv);
        }
        lemma_conservation(after_text(m, texts[0]), texts.drop_first());
    }
}

/// Ace supremacy: a capture played with an ace, naming any table positions
/// that exist, takes the whole table and the ace into the player's pile and
/// leaves the table empty.
pub proof fn lemma_ace_takes_whole_table(m: MatchView, from: usize, idx: Seq<usize>)
    requires
        from < m.seat(m.turn).hand.len(),
        is_ace(m.seat(m.turn).hand[from as int]),
        m.table.len() > 0,
        forall|k: int| 0 <= k < idx.len() ==> idx[k] < m.table.len(),
    ensures
        play(m, (from, Some(idx))) is Ok,
        play(m, (from, Some(idx)))->Ok_0.0.table.len() == 0,
        play(m, (from, Some(idx)))->Ok_0.1.cards_taken == Some(m.table),
        play(m, (from, Some(idx)))->Ok_0.0.seat(m.turn).pile == m.seat(m.turn).pile + m.table
            + seq![m.seat(m.turn).hand[from as int]],
{
}

/// Scopa exclusion: a capture with an ace never counts a sweep; a capture by
/// sum counts one exactly when it leaves the table empty.
pub proof fn lemma_scopa_rule(m: MatchView, from: usize, idx: Seq<usize>)
    requires
        play(m, (from, Some(idx))) is Ok,
    ensures
        ({
            let before = m.seat(m.turn);
            let after = play(m, (from, Some(idx)))->Ok_0.0;
            &&& is_ace(before.hand[from as int]) ==> after.seat(m.turn).scope == before.scope
            &&& !is_ace(before.hand[from as int]) && after.table.len() == 0
                ==> after.seat(m.turn).scope == before.scope + 1
            &&& !is_ace(before.hand[from as int]) && after.table.len() > 0
                ==> after.seat(m.turn).scope == before.scope
        }),
{
}

/// Redeal timing: after an applied move, the mover's hand is refilled with
/// exactly three cards from the deck when it has just emptied and the deck
/// has cards, and is otherwise left as the move left it; the other seat's
/// hand is never touched.
pub proof fn lemma_redeal_timing(m: MatchView, mv: MoveText)
    requires
        m.wf(),
        play(m, mv) is Ok,
    ensures
        ({
            let t = m.turn;
            let rest = m.seat(t).hand.remove(mv.0 as int);
            let after = play(m, mv)->Ok_0.0;
            &&& after.seat(other_turn(t)).hand == m.seat(other_turn(t)).hand
            &&& rest.len() == 0 && m.deck.len() > 0 ==> after.seat(t).hand.len() == 3
                && after.deck == m.deck.subrange(0, m.deck.len() - 3)
            &&& !(rest.len() == 0 && m.deck.len() > 0) ==> after.seat(t).hand == rest
                && after.deck == m.deck
        }),
{
}


/// Whether the text, applied to `m`, empties the mover's hand while the deck
/// still has cards, so that the hand is dealt three more.
pub open spec fn redeals_hand(m: MatchView, text: Seq<u8>) -> bool {
    play_text(m, text) is Ok && m.seat(m.turn).hand.len() == 1 && m.deck.len() > 0
}

/// How many redeals feeding `texts` to `m` makes.
pub open spec fn redeal_count(m: MatchView, texts: Seq<Seq<u8>>) -> nat
    decreases texts.len(),
{
    if texts.len() == 0 {
        0
    } else {
        (if redeals_hand(m, texts[0]) { 1nat } else { 0 }) + redeal_count(
            after_text(m, texts[0]),
            texts.drop_first(),
        )
    }
}

/// The deck is only ever drawn from the top, three cards per redeal: after
/// any texts, the deck is what remains of the old one below its top
/// `3 * redeal_count` cards. From a fresh deal (thirty cards in the deck)
/// it is empty exactly after ten redeals, five rounds of three for each seat.
pub proof fn lemma_deck_drawn_by_redeals(m: MatchView, texts: Seq<Seq<u8>>)
    requires
        m.wf(),
    ensures
        run(m, texts).deck.len() + 3 * redeal_count(m, texts) == m.deck.len(),
        run(m, texts).deck == m.deck.subrange(0, run(m, texts).deck.len() as int),
    decreases texts.len(),
{
    if texts.len() > 0 {
        let next = after_text(m, texts[0]);
        if let Some(mv) = move_spec(texts[0]) {
            lemma_play_keeps_wf(m, mv);
        }
        lemma_deck_drawn_by_redeals(next, texts.drop_first());
        let d = run(m, texts).deck;
        assert(next.deck == m.deck.subrange(0, next.deck.len() as int));
        assert(d == next.deck.subrange(0, d.len() as int));
        assert(d =~= m.deck.subrange(0, d.len() as int));
    } else {
        assert(m.deck =~= m.deck.subrange(0, m.deck.len() as int));
    }
}

/// With every table position named, the named cards are the whole table.
proof fn lemma_pick_all(t: Seq<Card>, idx: Seq<usize>)
    requires
        forall|p: int| 0 <= p < t.len() ==> #[trigger] idx.contains(p as usize),
    ensures
        pick(t, idx, true) == t,
        pick(t, idx, false) == Seq::<Card>::empty(),
    decreases t.len(),
{
    if t.len() > 0 {
        let d = t.drop_last();
        assert forall|p: int| 0 <= p < d.len() implies #[trigger] idx.contains(p as usize) by {
            assert(idx.contains(p as usize));
        }
        lemma_pick_all(d, idx);
        assert(idx.contains((t.len() - 1) as usize));
        assert(d.push(t.last()) =~= t);
    }
}

/// A sweep by sum is a scopa: a non-ace card whose value equals the sum of
/// the whole table, played naming every table position (in any order, with
/// only existing positions), captures the table, empties it, and counts one
/// sweep for its player.
pub proof fn lemma_sum_sweep_is_scopa(m: MatchView, from: usize, idx: Seq<usize>)
    requires
        from < m.seat(m.turn).hand.len(),
        !is_ace(m.seat(m.turn).hand[from as int]),
        forall|k: int| 0 <= k < idx.len() ==> idx[k] < m.table.len(),
        forall|p: int| 0 <= p < m.table.len() ==> #[trigger] idx.contains(p as usize),
        sum_values(m.table) == m.seat(m.turn).hand[from as int].spec_value(),
    ensures
        play(m, (from, Some(idx))) is Ok,
        play(m, (from, Some(idx)))->Ok_0.0.table.len() == 0,
        play(m, (from, Some(idx)))->Ok_0.0.seat(m.turn).scope == m.seat(m.turn).scope + 1,
        play(m, (from, Some(idx)))->Ok_0.1.cards_taken == Some(m.table),
{
    lemma_pick_all(m.table, idx);
}

/// A text whose first byte is neither `t` nor a digit is not a move: it is
/// refused as a parse error, whatever the match.
pub proof fn lemma_non_numeric_start_is_refused(m: MatchView, text: Seq<u8>)
    requires
        text.len() > 0,
        text[0] != LETTER_T,
        !is_digit(text[0]),
    ensures
        move_spec(text) is None,
        play_text(m, text) == Err::<(MatchView, MoveView), MoveError>(MoveError::ParseError),
{
    lemma_first_piece(text, SEMICOLON);
    let first = split_on(text, SEMICOLON)[0];
    if first.len() > 0 {
        assert(!all_digits(first));
    }
}

/// The first piece of a non-empty text split on `sep`: empty when the text
/// starts with `sep` (and then there are at least two pieces), else starting
/// with the text's first byte.
proof fn lemma_first_piece(s: Seq<u8>, sep: u8)
    requires
        s.len() > 0,
    ensures
        split_on(s, sep).len() >= 1,
        s[0] == sep ==> split_on(s, sep)[0].len() == 0 && split_on(s, sep).len() >= 2,
        s[0] != sep ==> split_on(s, sep)[0].len() > 0 && split_on(s, sep)[0][0] == s[0],
    decreases s.len(),
{
    let d = s.drop_last();
    lemma_split_nonempty(d, sep);
    if d.len() > 0 {
        lemma_first_piece(d, sep);
        assert(d[0] == s[0]);
    } else {
        assert(split_on(d, sep) =~= seq![Seq::<u8>::empty()]);
    }
}

} // verus!
