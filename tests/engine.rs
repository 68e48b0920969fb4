use scopa::{Card, Match, MoveError, Player, Suit, Turn};

fn seat(hand: Vec<Card>) -> Player {
    Player { curr_hand: hand, pile: vec![], scope: 0 }
}

fn small_match(first_hand: Vec<Card>, table: Vec<Card>, deck: Vec<Card>) -> Match {
    Match {
        turn: Turn::First,
        player_first: seat(first_hand),
        player_shuffler: seat(vec![Card::new(Suit::Spade, 9)]),
        deck,
        table,
    }
}

fn all_cards(m: &Match) -> Vec<(usize, u8)> {
    let mut v: Vec<Card> = vec![];
    v.extend(m.deck.iter().copied());
    v.extend(m.table.iter().copied());
    for p in [&m.player_first, &m.player_shuffler] {
        v.extend(p.curr_hand.iter().copied());
        v.extend(p.pile.iter().copied());
    }
    let mut keys: Vec<(usize, u8)> = v
        .iter()
        .map(|c| {
            let s = match c.suit {
                Suit::Denari => 0,
                Suit::Coppe => 1,
                Suit::Bastoni => 2,
                Suit::Spade => 3,
            };
            (c.value(), s)
        })
        .collect();
    keys.sort();
    keys
}

#[test]
fn deal_gives_three_three_four() {
    let d = Card::ordered_deck();
    let m = Match::deal(d.clone());
    assert_eq!(m.deck.len(), 30);
    assert_eq!(m.player_first.curr_hand, vec![d[39], d[37], d[35]]);
    assert_eq!(m.player_shuffler.curr_hand, vec![d[38], d[36], d[34]]);
    assert_eq!(m.table, vec![d[33], d[32], d[31], d[30]]);
    assert_eq!(m.deck, d[..30].to_vec());
    assert_eq!(m.turn, Turn::First);
    assert!(!m.is_over());
}

#[test]
fn new_match_holds_the_forty_cards() {
    let m = Match::new();
    assert_eq!(m.deck.len(), 30);
    assert_eq!(m.player_first.curr_hand.len(), 3);
    assert_eq!(m.player_shuffler.curr_hand.len(), 3);
    assert_eq!(m.table.len(), 4);
    assert_eq!(all_cards(&m), all_cards(&Match::deal(Card::ordered_deck())));
}

#[test]
fn full_match_of_table_drops_redeals_five_times() {
    let mut m = Match::deal(Card::ordered_deck());
    let full = all_cards(&m);
    assert_eq!(m.deck.len(), 30);
    let mut moves = 0;
    while !m.is_over() {
        let mv = m.make_move("t0").expect("a table drop with a card in hand");
        assert!(mv.unwrap().cards_taken.is_none());
        moves += 1;
        if moves % 6 == 0 && moves <= 30 {
            assert_eq!(m.deck.len(), 30 - moves);
            assert_eq!(m.deck.len() / 6, 5 - moves / 6);
        }
        assert!(m.player_first.curr_hand.len() <= 3);
        assert!(m.player_shuffler.curr_hand.len() <= 3);
        assert_eq!(all_cards(&m), full);
        m.turn.toggle_turn();
    }
    assert_eq!(moves, 36);
    assert_eq!(m.deck.len(), 0);
    assert_eq!(m.table.len(), 40);
}

#[test]
fn sum_capture_that_clears_table_is_a_scopa() {
    let mut m = small_match(
        vec![Card::denari(7)],
        vec![Card::denari(3), Card::denari(4)],
        vec![],
    );
    let mv = m.make_move("0;0+1").unwrap().unwrap();
    assert!(m.table.is_empty());
    assert_eq!(m.player_first.scope, 1);
    assert_eq!(m.player_first.pile, vec![Card::denari(3), Card::denari(4), Card::denari(7)]);
    assert!(m.player_first.curr_hand.is_empty());
    assert_eq!(mv.turn, Turn::First);
    assert_eq!(mv.card_played, Card::denari(7));
    assert_eq!(mv.cards_taken, Some(vec![Card::denari(3), Card::denari(4)]));
}

#[test]
fn sum_capture_order_of_indices_does_not_matter() {
    let mut m = small_match(
        vec![Card::denari(7)],
        vec![Card::denari(3), Card::new(Suit::Coppe, 5), Card::denari(4)],
        vec![],
    );
    m.make_move("0;2+0").unwrap();
    assert_eq!(m.table, vec![Card::new(Suit::Coppe, 5)]);
    assert_eq!(m.player_first.scope, 0);
    assert_eq!(m.player_first.pile, vec![Card::denari(3), Card::denari(4), Card::denari(7)]);
}

#[test]
fn ace_takes_the_whole_table_without_scopa() {
    let mut m = small_match(
        vec![Card::denari(1)],
        vec![Card::denari(5), Card::new(Suit::Coppe, 2)],
        vec![],
    );
    let mv = m.make_move("0;1").unwrap().unwrap();
    assert!(m.table.is_empty());
    assert_eq!(m.player_first.scope, 0);
    assert_eq!(
        m.player_first.pile,
        vec![Card::denari(5), Card::new(Suit::Coppe, 2), Card::denari(1)]
    );
    assert_eq!(mv.cards_taken, Some(vec![Card::denari(5), Card::new(Suit::Coppe, 2)]));
}

#[test]
fn ace_with_three_cards_naming_one() {
    let table = vec![Card::new(Suit::Spade, 10), Card::new(Suit::Coppe, 6), Card::denari(2)];
    let mut m = small_match(vec![Card::new(Suit::Bastoni, 1), Card::denari(9)], table.clone(), vec![]);
    m.make_move("0;2").unwrap();
    assert!(m.table.is_empty());
    assert_eq!(m.player_first.pile.len(), 4);
    assert_eq!(m.player_first.scope, 0);
    assert_eq!(m.player_first.curr_hand, vec![Card::denari(9)]);
}

#[test]
fn ace_dropped_on_table_captures_nothing() {
    let mut m = small_match(vec![Card::denari(1)], vec![Card::denari(5)], vec![]);
    let mv = m.make_move("t0").unwrap().unwrap();
    assert!(mv.cards_taken.is_none());
    assert_eq!(m.table, vec![Card::denari(5), Card::denari(1)]);
    assert!(m.player_first.pile.is_empty());
}

#[test]
fn parse_failure_changes_nothing() {
    let mut m = small_match(vec![Card::denari(7)], vec![Card::denari(3), Card::denari(4)], vec![]);
    let before = format!("{:?}", m);
    assert!(matches!(m.make_move("x;1+2"), Err(MoveError::ParseError)));
    assert_eq!(format!("{:?}", m), before);
}

#[test]
fn hand_index_out_of_range() {
    let mut m = small_match(vec![Card::denari(7)], vec![Card::denari(7)], vec![]);
    let before = format!("{:?}", m);
    assert!(matches!(m.make_move("1;0"), Err(MoveError::OutOfRangeOfHand)));
    assert!(matches!(m.make_move("t3"), Err(MoveError::OutOfRangeOfHand)));
    assert_eq!(format!("{:?}", m), before);
}

#[test]
fn table_index_out_of_range() {
    let mut m = small_match(vec![Card::denari(1)], vec![Card::denari(7)], vec![]);
    let before = format!("{:?}", m);
    assert!(matches!(m.make_move("0;1"), Err(MoveError::OutOfRangeOfTable)));
    assert!(matches!(m.make_move("0;0+5"), Err(MoveError::OutOfRangeOfTable)));
    assert_eq!(format!("{:?}", m), before);
}

#[test]
fn mismatched_values() {
    let mut m = small_match(vec![Card::denari(8)], vec![Card::denari(3), Card::denari(4)], vec![]);
    let before = format!("{:?}", m);
    assert!(matches!(m.make_move("0;0+1"), Err(MoveError::MismatchedValues)));
    assert_eq!(format!("{:?}", m), before);
}

#[test]
fn repeated_index_names_the_card_once() {
    let mut m = small_match(vec![Card::denari(4)], vec![Card::denari(4), Card::denari(2)], vec![]);
    m.make_move("0;0+0").unwrap();
    assert_eq!(m.table, vec![Card::denari(2)]);
    assert_eq!(m.player_first.pile, vec![Card::denari(4), Card::denari(4)]);
}

#[test]
fn redeal_only_for_the_mover_when_hand_empties() {
    let deck = vec![Card::new(Suit::Coppe, 1), Card::new(Suit::Coppe, 2), Card::new(Suit::Coppe, 3)];
    let mut m = small_match(vec![Card::denari(5), Card::denari(6)], vec![], deck.clone());
    m.make_move("t0").unwrap();
    assert_eq!(m.player_first.curr_hand, vec![Card::denari(6)]);
    assert_eq!(m.deck.len(), 3);
    m.make_move("t0").unwrap();
    assert_eq!(m.player_first.curr_hand, vec![deck[2], deck[1], deck[0]]);
    assert!(m.deck.is_empty());
    assert_eq!(m.player_shuffler.curr_hand, vec![Card::new(Suit::Spade, 9)]);
}

#[test]
fn no_redeal_from_an_empty_deck() {
    let mut m = small_match(vec![Card::denari(5)], vec![], vec![]);
    m.make_move("t0").unwrap();
    assert!(m.player_first.curr_hand.is_empty());
}

#[test]
fn is_over_needs_empty_deck_and_hands() {
    let mut m = small_match(vec![], vec![Card::denari(5)], vec![]);
    assert!(!m.is_over());
    m.player_shuffler.curr_hand.clear();
    assert!(m.is_over());
    m.deck.push(Card::denari(1));
    assert!(!m.is_over());
}

#[test]
fn toggle_turn_alternates() {
    let mut t = Turn::default();
    assert_eq!(t, Turn::First);
    t.toggle_turn();
    assert_eq!(t, Turn::Shuffler);
    t.toggle_turn();
    assert_eq!(t, Turn::First);
}

#[test]
fn shuffler_moves_from_own_hand() {
    let mut m = small_match(vec![Card::denari(5)], vec![Card::new(Suit::Bastoni, 9)], vec![]);
    m.turn = Turn::Shuffler;
    let mv = m.make_move("0;0").unwrap().unwrap();
    assert_eq!(mv.turn, Turn::Shuffler);
    assert_eq!(m.player_shuffler.scope, 1);
    assert_eq!(m.player_first.curr_hand, vec![Card::denari(5)]);
}

#[test]
fn default_match_is_a_new_deal() {
    let m = Match::default();
    assert_eq!(m.deck.len(), 30);
    assert_eq!(m.table.len(), 4);
    assert_eq!(m.turn, Turn::First);
}

#[test]
fn sum_sweep_in_any_order_is_a_scopa() {
    let mut m = small_match(
        vec![Card::new(Suit::Coppe, 9)],
        vec![Card::denari(4), Card::new(Suit::Spade, 5)],
        vec![],
    );
    m.make_move("0;1+0").unwrap();
    assert!(m.table.is_empty());
    assert_eq!(m.player_first.scope, 1);
    assert_eq!(m.player_first.pile.len(), 3);
}
