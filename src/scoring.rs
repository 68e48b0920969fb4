//! End-of-match scoring over the two seats' piles.

use vstd::prelude::*;
use crate::card::{coin, full_deck, lemma_full_deck_distinct, Card, Suit};
use crate::engine::{Match, MatchView, PlayerView, Turn};

verus! {

broadcast use {
    vstd::seq_lib::group_to_multiset_ensures,
    vstd::multiset::group_multiset_axioms,
};

/// One match's result, category by category. The sweep counts were kept
/// during play; each other category names its winner, or `None` on a tie.
#[derive(Clone, Copy, Debug)]
pub struct PointTally {
    pub scope_first: usize,
    pub scope_shuf: usize,
    pub num_cards: Option<Turn>,
    pub num_denari: Option<Turn>,
    pub sette_bello: Turn,
    pub re_bello: Turn,
    pub napoli: Option<(Turn, usize)>,
    pub primiera: Option<Turn>,
}

/// The winner of a contest of two counts: the larger, nobody on a tie.
pub open spec fn compare(first: int, shuf: int) -> Option<Turn> {
    if first > shuf {
        Some(Turn::First)
    } else if first < shuf {
        Some(Turn::Shuffler)
    } else {
        None
    }
}

/// The number of coin cards in `s`.
pub open spec fn coin_count(s: Seq<Card>) -> nat
    decreases s.len(),
{
    if s.len() == 0 {
        0
    } else {
        coin_count(s.drop_last()) + if s.last().suit == Suit::Denari { 1nat } else { 0 }
    }
}

/// The number of cards of value `v` in `s`.
pub open spec fn value_count(s: Seq<Card>, v: int) -> nat
    decreases s.len(),
{
    if s.len() == 0 {
        0
    } else {
        value_count(s.drop_last(), v) + if s.last().spec_value() == v { 1nat } else { 0 }
    }
}

/// The top of the run of coin ranks held from `k` upward (`k - 1` when the
/// coin of rank `k` is missing), never past the King.
pub open spec fn run_from(s: Seq<Card>, k: int) -> int
    decreases 11 - k,
{
    if 1 <= k <= 10 && s.contains(coin(k)) {
        run_from(s, k + 1)
    } else {
        k - 1
    }
}

/// The napoli of a pile: none without the coins 1, 2 and 3; magnitude 1
/// with them but without the 4; otherwise the length of the run of coins
/// held from the ace upward.
pub open spec fn napoli_of(s: Seq<Card>) -> Option<int> {
    if s.contains(coin(1)) && s.contains(coin(2)) && s.contains(coin(3)) {
        if !s.contains(coin(4)) {
            Some(1)
        } else {
            Some(run_from(s, 4))
        }
    } else {
        None
    }
}

/// The napoli credit of a match: the first seat's if it has one, else the shuffler's.
pub open spec fn napoli_credit(first: Seq<Card>, shuf: Seq<Card>) -> Option<(Turn, usize)> {
    match napoli_of(first) {
        Some(n) => Some((Turn::First, n as usize)),
        None => match napoli_of(shuf) {
            Some(n) => Some((Turn::Shuffler, n as usize)),
            None => None,
        },
    }
}

/// Primiera: values `v` down to 1, the first value whose counts differ decides.
pub open spec fn primiera_from(first: Seq<Card>, shuf: Seq<Card>, v: int) -> Option<Turn>
    decreases v,
{
    if v <= 0 {
        None
    } else {
        match compare(value_count(first, v) as int, value_count(shuf, v) as int) {
            Some(t) => Some(t),
            None => primiera_from(first, shuf, v - 1),
        }
    }
}

/// The seat holding `c`: the first seat if its pile holds it, else the shuffler.
pub open spec fn holder(first: Seq<Card>, c: Card) -> Turn {
    if first.contains(c) {
        Turn::First
    } else {
        Turn::Shuffler
    }
}

/// A pile holding all ten coin cards.
pub open spec fn full_napoli(s: Seq<Card>) -> bool {
    forall|k: int| 1 <= k <= 10 ==> s.contains(coin(k))
}

/// The points a tally gives `turn`: its sweeps, one per category won, and
/// the napoli magnitude if the napoli is its.
pub open spec fn points(t: PointTally, turn: Turn) -> int {
    (if turn == Turn::First { t.scope_first as int } else { t.scope_shuf as int })
        + (if t.num_cards == Some(turn) { 1int } else { 0 })
        + (if t.num_denari == Some(turn) { 1int } else { 0 })
        + (if t.sette_bello == turn { 1int } else { 0 })
        + (if t.re_bello == turn { 1int } else { 0 })
        + (if t.primiera == Some(turn) { 1int } else { 0 })
        + match t.napoli {
            Some((nt, amount)) => if nt == turn { amount as int } else { 0 },
            None => 0,
        }
}

/// The tally of a finished match from the two seats.
pub open spec fn tally_of(first: PlayerView, shuf: PlayerView) -> PointTally {
    PointTally {
        scope_first: first.scope as usize,
        scope_shuf: shuf.scope as usize,
        num_cards: compare(first.pile.len() as int, shuf.pile.len() as int),
        num_denari: compare(coin_count(first.pile) as int, coin_count(shuf.pile) as int),
        sette_bello: holder(first.pile, coin(7)),
        re_bello: holder(first.pile, coin(10)),
        napoli: napoli_credit(first.pile, shuf.pile),
        primiera: primiera_from(first.pile, shuf.pile, 7),
    }
}

/// Whether `cards` holds `c`.
fn holds(cards: &[Card], c: Card) -> (r: bool)
    ensures
        r == cards@.contains(c),
{
    let mut i: usize = 0;
    while i < cards.len()
        invariant
            i <= cards@.len(),
            forall|j: int| 0 <= j < i ==> cards@[j] != c,
        decreases cards@.len() - i,
    {
        if cards[i] == c {
            return true;
        }
        i = i + 1;
    }
    false
}

/// The number of coin cards in `cards`.
fn count_coins(cards: &[Card]) -> (r: usize)
    ensures
        r == coin_count(cards@),
{
    let mut n: usize = 0;
    let mut i: usize = 0;
    while i < cards.len()
        invariant
            i <= cards@.len(),
            n == coin_count(cards@.subrange(0, i as int)),
            n <= i,
        decreases cards@.len() - i,
    {
        assert(cards@.subrange(0, i + 1).drop_last() =~= cards@.subrange(0, i as int));
        if cards[i].suit == Suit::Denari {
            n = n + 1;
        }
        i = i + 1;
    }
    assert(cards@.subrange(0, i as int) =~= cards@);
    n
}

/// The number of cards of value `target_value` in `cards`.
fn cards_with_value(target_value: usize, cards: &[Card]) -> (r: usize)
    ensures
        r == value_count(cards@, target_value as int),
{
    let mut n: usize = 0;
    let mut i: usize = 0;
    while i < cards.len()
        invariant
            i <= cards@.len(),
            n == value_count(cards@.subrange(0, i as int), target_value as int),
            n <= i,
        decreases cards@.len() - i,
    {
        assert(cards@.subrange(0, i + 1).drop_last() =~= cards@.subrange(0, i as int));
        if cards[i].value() == target_value {
            n = n + 1;
        }
        i = i + 1;
    }
    assert(cards@.subrange(0, i as int) =~= cards@);
    n
}

/// Whether `pila` holds all ten coin cards.
pub fn has_full_napoli(pila: &[Card]) -> (r: bool)
    ensures
        r == full_napoli(pila@),
{
    let mut k: usize = 1;
    while k <= 10
        invariant
            1 <= k <= 11,
            forall|j: int| 1 <= j < k ==> pila@.contains(coin(j)),
        decreases 11 - k,
    {
        if !holds(pila, Card::denari(k)) {
            return false;
        }
        k = k + 1;
    }
    true
}

/// The napoli magnitude of `pila`, if it has one.
fn check_napoli(pila: &[Card]) -> (r: Option<usize>)
    ensures
        match napoli_of(pila@) {
            Some(n) => r == Some(n as usize) && 1 <= n <= 10,
            None => r is None,
        },
{
    if holds(pila, Card::denari(1)) && holds(pila, Card::denari(2)) && holds(pila, Card::denari(3)) {
        if !holds(pila, Card::denari(4)) {
            Some(1)
        } else {
            let mut i: usize = 4;
            while i < 10 && holds(pila, Card::denari(i + 1))
                invariant
                    4 <= i <= 10,
                    run_from(pila@, 4) == run_from(pila@, i + 1),
                    pila@.contains(coin(i as int)),
                decreases 10 - i,
            {
                i = i + 1;
            }
            assert(run_from(pila@, i + 1) == i);
            Some(i)
        }
    } else {
        None
    }
}


/// The winner of a contest of two counts.
fn compare_counts(first: usize, shuf: usize) -> (r: Option<Turn>)
    ensures
        r == compare(first as int, shuf as int),
{
    if first > shuf {
        Some(Turn::First)
    } else if first < shuf {
        Some(Turn::Shuffler)
    } else {
        None
    }
}

impl Match {
    /// Scores the match from the two piles as they stand.
    pub fn tally_final_points(&self) -> (r: PointTally)
        ensures
            r == tally_of(self.player_first@, self.player_shuffler@),
            // A tie in card count or in coin count wins nobody the category.
            self.player_first.pile@.len() == self.player_shuffler.pile@.len() ==> r.num_cards is None,
            coin_count(self.player_first.pile@) == coin_count(self.player_shuffler.pile@) ==> r.num_denari is None,
    {
        let fir = self.player_first.pile.as_slice();
        let shuf = self.player_shuffler.pile.as_slice();

        let num_cards = compare_counts(fir.len(), shuf.len());
        let num_denari = compare_counts(count_coins(fir), count_coins(shuf));
        let sette_bello = if holds(fir, Card::denari(7)) { Turn::First } else { Turn::Shuffler };
        let re_bello = if holds(fir, Card::denari(10)) { Turn::First } else { Turn::Shuffler };
        let napoli = match check_napoli(fir) {
            Some(n) => Some((Turn::First, n)),
            None => match check_napoli(shuf) {
                Some(n) => Some((Turn::Shuffler, n)),
                None => None,
            },
        };

        // Primiera: from value 7 down, the first value whose counts differ decides.
        let mut primiera: Option<Turn> = None;
        let mut i: usize = 7;
        while i > 0
            invariant_except_break
                primiera is None,
            invariant
                i <= 7,
                primiera_from(fir@, shuf@, 7) == primiera_from(fir@, shuf@, i as int),
            ensures
                primiera == primiera_from(fir@, shuf@, 7),
            decreases i,
        {
            let verdict = compare_counts(cards_with_value(i, fir), cards_with_value(i, shuf));
            if verdict.is_some() {
                primiera = verdict;
                break;
            }
            i = i - 1;
        }

        PointTally {
            scope_first: self.player_first.scope,
            scope_shuf: self.player_shuffler.scope,
            num_cards,
            num_denari,
            sette_bello,
            re_bello,
            napoli,
            primiera,
        }
    }
}

/// The points `tally` gives `turn`.
fn count_points(tally: &PointTally, turn: Turn) -> (r: usize)
    requires
        points(*tally, turn) <= usize::MAX,
    ensures
        r == points(*tally, turn),
{
    let mut p: usize = if turn == Turn::First { tally.scope_first } else { tally.scope_shuf };
    let mut won: usize = 0;
    if tally.num_cards == Some(turn) {
        won = won + 1;
    }
    if tally.num_denari == Some(turn) {
        won = won + 1;
    }
    if tally.sette_bello == turn {
        won = won + 1;
    }
    if tally.re_bello == turn {
        won = won + 1;
    }
    if tally.primiera == Some(turn) {
        won = won + 1;
    }
    p = p + won;
    if let Some((napoli_turn, amount)) = tally.napoli {
        if napoli_turn == turn {
            p = p + amount;
        }
    }
    p
}

impl PointTally {
    /// The first seat's points.
    pub fn first_points(&self) -> (r: usize)
        requires
            points(*self, Turn::First) <= usize::MAX,
        ensures
            r == points(*self, Turn::First),
    {
        count_points(self, Turn::First)
    }

    /// The shuffler's points.
    pub fn shuf_points(&self) -> (r: usize)
        requires
            points(*self, Turn::Shuffler) <= usize::MAX,
        ensures
            r == points(*self, Turn::Shuffler),
    {
        count_points(self, Turn::Shuffler)
    }
}


/// Napoli exclusivity: in a match holding the forty cards once each, the two
/// piles cannot both qualify for napoli, so at most one side is credited.
pub proof fn lemma_napoli_exclusive(m: MatchView)
    requires
        m.cards() == full_deck(),
    ensures
        !(napoli_of(m.first.pile) is Some && napoli_of(m.shuffler.pile) is Some),
{
    lemma_full_deck_distinct();
    let ace = coin(1);
    if m.first.pile.contains(ace) && m.shuffler.pile.contains(ace) {
        assert(m.first.pile.to_multiset().count(ace) >= 1);
        assert(m.shuffler.pile.to_multiset().count(ace) >= 1);
        assert(m.cards().count(ace) >= 2);
        assert(full_deck().count(ace) <= 1);
    }
}

} // verus!
