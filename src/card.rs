//! Cards, suits and ranks of the 40-card Italian deck.

use vstd::prelude::*;
use vstd::multiset::Multiset;
use std::collections::VecDeque;
use rand::Rng;

verus! {

/// The four suits of the Italian deck.
#[derive(Clone, Copy, Debug, PartialEq, Eq, Structural)]
pub enum Suit {
    Denari,
    Coppe,
    Bastoni,
    Spade,
}

/// A rank: a numeric rank 1 to 7, or one of the three faces.
#[derive(Clone, Copy, Debug, PartialEq, Eq, Structural)]
pub enum CardNum {
    Numeric(usize),
    Fante,
    Cavallo,
    Re,
}

/// A card is a suit and a rank; two cards are equal when both agree.
#[derive(Clone, Copy, Debug, PartialEq, Eq, Structural)]
pub struct Card {
    pub suit: Suit,
    pub number: CardNum,
}

/// The value of a rank: numeric ranks count for themselves, the faces for 8, 9 and 10.
pub open spec fn rank_value(n: CardNum) -> int {
    match n {
        CardNum::Numeric(k) => k as int,
        CardNum::Fante => 8,
        CardNum::Cavallo => 9,
        CardNum::Re => 10,
    }
}

/// The rank whose value is `n` (for `n` in 1 to 10).
pub open spec fn rank_of(n: int) -> CardNum {
    if n == 8 {
        CardNum::Fante
    } else if n == 9 {
        CardNum::Cavallo
    } else if n == 10 {
        CardNum::Re
    } else {
        CardNum::Numeric(n as usize)
    }
}

/// The card of suit `suit` whose value is `n` (for `n` in 1 to 10).
pub open spec fn card_of(suit: Suit, n: int) -> Card {
    Card { suit, number: rank_of(n) }
}

/// The coin card (suit Denari) whose value is `n`.
pub open spec fn coin(n: int) -> Card {
    card_of(Suit::Denari, n)
}

/// The suits in the order in which a fresh deck lists them.
pub open spec fn suit_at(i: int) -> Suit {
    if i == 0 {
        Suit::Denari
    } else if i == 1 {
        Suit::Coppe
    } else if i == 2 {
        Suit::Bastoni
    } else {
        Suit::Spade
    }
}

/// The forty cards in canonical order: rank-major, suit-minor.
pub open spec fn canonical_deck() -> Seq<Card> {
    Seq::new(40, |k: int| card_of(suit_at(k % 4), k / 4 + 1))
}

/// The forty cards of the game, each once.
pub open spec fn full_deck() -> Multiset<Card> {
    canonical_deck().to_multiset()
}

/// The deck holds each card at most once.
pub proof fn lemma_full_deck_distinct()
    ensures
        forall|c: Card| #[trigger] full_deck().count(c) <= 1,
{
    let d = canonical_deck();
    assert forall|i: int, j: int| 0 <= i < d.len() && 0 <= j < d.len() && i != j implies d[i] != d[j] by {
        let (ri, rj) = (i / 4 + 1, j / 4 + 1);
        if d[i] == d[j] {
            assert(suit_at(i % 4) == suit_at(j % 4));
            assert(i % 4 == j % 4);
            assert(rank_of(ri) == rank_of(rj));
            assert(ri == rj);
        }
    }
    assert(d.no_duplicates());
    d.lemma_multiset_has_no_duplicates();
    assert forall|c: Card| #[trigger] full_deck().count(c) <= 1 by {
        if !full_deck().contains(c) {
            assert(full_deck().count(c) == 0);
        }
    }
}

impl Card {
    /// A card that can be one of the forty: a numeric rank lies in 1 to 7.
    pub open spec fn is_valid(self) -> bool {
        match self.number {
            CardNum::Numeric(k) => 1 <= k <= 7,
            _ => true,
        }
    }

    pub open spec fn spec_value(self) -> int {
        rank_value(self.number)
    }

    /// The card of suit `suit` whose value is `n`.
    pub fn new(suit: Suit, n: usize) -> (r: Card)
        requires
            1 <= n <= 10,
        ensures
            r == card_of(suit, n as int),
            r.spec_value() == n,
            r.is_valid(),
    {
        if n <= 7 {
            Card { suit, number: CardNum::Numeric(n) }
        } else if n == 8 {
            Card { suit, number: CardNum::Fante }
        } else if n == 9 {
            Card { suit, number: CardNum::Cavallo }
        } else {
            Card { suit, number: CardNum::Re }
        }
    }

    /// The coin card whose value is `n`.
    pub fn denari(n: usize) -> (r: Card)
        requires
            1 <= n <= 10,
        ensures
            r == coin(n as int),
            r.spec_value() == n,
            r.is_valid(),
    {
        Card::new(Suit::Denari, n)
    }

    /// The card's value: its numeric rank, or 8, 9, 10 for the faces.
    pub fn value(&self) -> (r: usize)
        ensures
            r == self.spec_value(),
    {
        match self.number {
            CardNum::Numeric(n) => n,
            CardNum::Fante => 8,
            CardNum::Cavallo => 9,
            CardNum::Re => 10,
        }
    }
}


/// The suit that a fresh deck lists at position `i` among the four.
fn suit_from_index(i: usize) -> (r: Suit)
    requires
        i < 4,
    ensures
        r == suit_at(i as int),
{
    if i == 0 {
        Suit::Denari
    } else if i == 1 {
        Suit::Coppe
    } else if i == 2 {
        Suit::Bastoni
    } else {
        Suit::Spade
    }
}

impl Card {
    /// The forty cards in canonical order (rank-major, suit-minor).
    pub fn ordered_deck() -> (r: Vec<Card>)
        ensures
            r@ == canonical_deck(),
    {
        let mut deck: Vec<Card> = Vec::with_capacity(40);
        let mut k: usize = 0;
        while k < 40
            invariant
                k <= 40,
                deck@ =~= canonical_deck().subrange(0, k as int),
            decreases 40 - k,
        {
            let c = Card::new(suit_from_index(k % 4), k / 4 + 1);
            deck.push(c);
            k = k + 1;
        }
        deck
    }
}


/// A face-down stack of cards: position 0 is the bottom, the last position the top.
#[derive(Clone, Debug)]
pub struct Deck(pub VecDeque<Card>);

impl View for Deck {
    type V = Seq<Card>;

    open spec fn view(&self) -> Seq<Card> {
        self.0@
    }
}

impl Default for Deck {
    fn default() -> (r: Deck)
        ensures
            r@ == Seq::<Card>::empty(),
    {
        Deck(VecDeque::new())
    }
}

impl Deck {
    /// The top card, if any.
    pub fn top(&self) -> (r: Option<&Card>)
        ensures
            match r {
                None => self@.len() == 0,
                Some(c) => self@.len() > 0 && *c == self@.last(),
            },
    {
        let n = self.0.len();
        if n == 0 {
            None
        } else {
            Some(&self.0[n - 1])
        }
    }

    /// The bottom card, if any.
    pub fn bottom(&self) -> (r: Option<&Card>)
        ensures
            match r {
                None => self@.len() == 0,
                Some(c) => self@.len() > 0 && *c == self@[0],
            },
    {
        if self.0.len() == 0 {
            None
        } else {
            Some(&self.0[0])
        }
    }

    /// Removes and returns the top card, if any.
    pub fn take_from_top(&mut self) -> (r: Option<Card>)
        ensures
            match r {
                None => old(self)@.len() == 0 && final(self)@ == old(self)@,
                Some(c) => old(self)@.len() > 0 && c == old(self)@.last()
                    && final(self)@ == old(self)@.drop_last(),
            },
    {
        self.0.pop_back()
    }

    /// Puts `c` on top.
    pub fn push_to_top(&mut self, c: Card)
        ensures
            final(self)@ == old(self)@.push(c),
    {
        self.0.push_back(c);
    }

    /// Removes and returns the bottom card, if any.
    pub fn take_from_bottom(&mut self) -> (r: Option<Card>)
        ensures
            match r {
                None => old(self)@.len() == 0 && final(self)@ == old(self)@,
                Some(c) => old(self)@.len() > 0 && c == old(self)@[0]
                    && final(self)@ == old(self)@.drop_first(),
            },
    {
        self.0.pop_front()
    }

    /// Puts `c` at the bottom.
    pub fn push_to_bottom(&mut self, c: Card)
        ensures
            final(self)@ == seq![c] + old(self)@,
    {
        self.0.push_front(c);
    }

    /// The number of cards.
    pub fn len(&self) -> (r: usize)
        ensures
            r == self@.len(),
    {
        self.0.len()
    }

    /// Moves every card, bottom first, to the bottom of `dest`; the moved cards
    /// end up under `dest`'s own in reverse order, and this deck ends empty.
    pub fn move_all_cards_to(&mut self, dest: &mut Deck)
        ensures
            final(self)@ == Seq::<Card>::empty(),
            final(dest)@ == old(self)@.reverse() + old(dest)@,
    {
        let ghost src = self@;
        let ghost base = dest@;
        let ghost mut i: int = 0;
        while self.len() > 0
            invariant
                0 <= i <= src.len(),
                self@ == src.subrange(i, src.len() as int),
                dest@ == src.subrange(0, i).reverse() + base,
            decreases self@.len(),
        {
            let c = self.0.pop_front().unwrap();
            dest.0.push_front(c);
            proof {
                assert(src.subrange(0, i + 1).reverse() =~= seq![c] + src.subrange(0, i).reverse());
                i = i + 1;
            }
        }
        assert(src.subrange(0, i) =~= src);
    }
}


/// Relies on rand's `thread_rng` and `Rng::gen_range`: a uniform draw from
/// the inclusive range `0..=bound`, which is never empty, so the draw lies in
/// it. (`thread_rng` panics only when the system's entropy source fails on
/// first use in a thread.)
#[verifier::external_body]
fn random_index_up_to(bound: usize) -> (r: usize)
    ensures
        r <= bound,
{
    rand::thread_rng().gen_range(0..=bound)
}

/// Trading one `a` for a `b`, then that `b` back for an `a`, restores the multiset.
proof fn lemma_exchange_keeps_multiset(m: Multiset<Card>, a: Card, b: Card)
    requires
        m.count(a) > 0,
    ensures
        m.insert(b).remove(a).insert(a).remove(b) =~= m,
{
    broadcast use vstd::multiset::group_multiset_axioms;

    assert forall|x: Card| #[trigger] m.insert(b).remove(a).insert(a).remove(b).count(x) == m.count(x) by {
        if x == a && x == b {
        } else if x == a {
        } else if x == b {
        } else {
        }
    }
}

/// `s` with the cards at positions `i` and `j` exchanged.
pub open spec fn swap_cards(s: Seq<Card>, i: int, j: int) -> Seq<Card> {
    s.update(i, s[j]).update(j, s[i])
}

/// The first `m` Fisher-Yates steps on `s`: for `i` from the last position
/// down to `s.len() - m`, exchange position `i` with position `draws[i]`.
pub open spec fn fisher_yates_steps(s: Seq<Card>, draws: Seq<usize>, m: int) -> Seq<Card>
    decreases m,
{
    if m <= 0 {
        s
    } else {
        let i = s.len() - m;
        swap_cards(fisher_yates_steps(s, draws, m - 1), i, draws[i] as int)
    }
}

/// Fisher-Yates on `s` with the given draws: from the last position down
/// to 1, exchange position `i` with position `draws[i]`.
pub open spec fn fisher_yates(s: Seq<Card>, draws: Seq<usize>) -> Seq<Card> {
    if s.len() < 2 {
        s
    } else {
        fisher_yates_steps(s, draws, s.len() - 1)
    }
}

/// Draws fit for Fisher-Yates on `n` cards: one per position, none above its position.
pub open spec fn valid_draws(draws: Seq<usize>, n: int) -> bool {
    &&& draws.len() == n
    &&& forall|i: int| 0 <= i < draws.len() ==> #[trigger] draws[i] <= i
}

/// Exchanging two cards keeps the cards of the deck.
proof fn lemma_swap_keeps_multiset(s: Seq<Card>, i: int, j: int)
    requires
        0 <= i < s.len(),
        0 <= j < s.len(),
    ensures
        swap_cards(s, i, j).to_multiset() == s.to_multiset(),
        swap_cards(s, i, j).len() == s.len(),
{
    let (a, b) = (s[i], s[j]);
    let mid = s.update(i, b);
    vstd::seq_lib::to_multiset_update(s, i, b);
    assert(mid[j] == b);
    vstd::seq_lib::to_multiset_update(mid, j, a);
    assert(s.contains(a));
    vstd::seq_lib::to_multiset_contains(s, a);
    lemma_exchange_keeps_multiset(s.to_multiset(), a, b);
}

/// Fisher-Yates on `deck` with the given draws: from the last position
/// down to 1, exchange position `i` with position `draws[i]`.
pub fn shuffle_with(deck: &mut Vec<Card>, draws: &Vec<usize>)
    requires
        valid_draws(draws@, old(deck)@.len() as int),
    ensures
        final(deck)@ == fisher_yates(old(deck)@, draws@),
        final(deck)@.to_multiset() == old(deck)@.to_multiset(),
{
    let n = deck.len();
    if n < 2 {
        return;
    }
    let mut i: usize = n - 1;
    while i >= 1
        invariant
            1 <= n,
            i < n,
            deck@.len() == n,
            old(deck)@.len() == n,
            valid_draws(draws@, n as int),
            deck@ == fisher_yates_steps(old(deck)@, draws@, n - 1 - i),
            deck@.to_multiset() == old(deck)@.to_multiset(),
        decreases i,
    {
        let j = draws[i];
        let ghost before = deck@;
        let a = deck[i];
        let b = deck[j];
        deck[i] = b;
        deck[j] = a;
        proof {
            assert(deck@ =~= swap_cards(before, i as int, j as int));
            lemma_swap_keeps_multiset(before, i as int, j as int);
        }
        i = i - 1;
    }
}

/// Shuffles `deck` in place by Fisher-Yates with uniform draws: the result
/// is what some fit sequence of draws gives, so it holds the same cards.
pub fn shuffle(deck: &mut Vec<Card>)
    ensures
        exists|draws: Seq<usize>|
            valid_draws(draws, old(deck)@.len() as int) && final(deck)@ == fisher_yates(
                old(deck)@,
                draws,
            ),
        final(deck)@.len() == old(deck)@.len(),
        final(deck)@.to_multiset() == old(deck)@.to_multiset(),
{
    let n = deck.len();
    let mut draws: Vec<usize> = Vec::new();
    let mut i: usize = 0;
    while i < n
        invariant
            i <= n,
            valid_draws(draws@, i as int),
        decreases n - i,
    {
        let j = random_index_up_to(i);
        draws.push(j);
        i = i + 1;
    }
    shuffle_with(deck, &draws);
    proof {
        lemma_fisher_yates_len(old(deck)@, draws@);
    }
}

proof fn lemma_fisher_yates_len(s: Seq<Card>, draws: Seq<usize>)
    requires
        valid_draws(draws, s.len() as int),
    ensures
        fisher_yates(s, draws).len() == s.len(),
{
    if s.len() >= 2 {
        lemma_steps_len(s, draws, s.len() - 1);
    }
}

proof fn lemma_steps_len(s: Seq<Card>, draws: Seq<usize>, m: int)
    requires
        valid_draws(draws, s.len() as int),
        0 <= m < s.len(),
    ensures
        fisher_yates_steps(s, draws, m).len() == s.len(),
    decreases m,
{
    if m > 0 {
        lemma_steps_len(s, draws, m - 1);
    }
}

impl Card {
    /// The forty cards, shuffled by Fisher-Yates from canonical order.
    pub fn shuffled_deck() -> (r: Vec<Card>)
        ensures
            exists|draws: Seq<usize>|
                valid_draws(draws, 40) && r@ == fisher_yates(canonical_deck(), draws),
            r@.len() == 40,
            r@.to_multiset() == full_deck(),
    {
        let mut deck = Card::ordered_deck();
        shuffle(&mut deck);
        deck
    }
}

} // verus!
