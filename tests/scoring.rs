use scopa::{has_full_napoli, Card, Match, Player, PointTally, Suit, Turn};

fn finished(first_pile: Vec<Card>, shuf_pile: Vec<Card>) -> Match {
    Match {
        turn: Turn::First,
        player_first: Player { curr_hand: vec![], pile: first_pile, scope: 2 },
        player_shuffler: Player { curr_hand: vec![], pile: shuf_pile, scope: 1 },
        deck: vec![],
        table: vec![],
    }
}

fn coins(ranks: &[usize]) -> Vec<Card> {
    ranks.iter().map(|&r| Card::denari(r)).collect()
}

#[test]
fn equal_counts_win_nobody() {
    let m = finished(
        vec![Card::denari(7), Card::new(Suit::Coppe, 2)],
        vec![Card::denari(10), Card::new(Suit::Spade, 4)],
    );
    let t = m.tally_final_points();
    assert_eq!(t.num_cards, None);
    assert_eq!(t.num_denari, None);
    assert_eq!(t.sette_bello, Turn::First);
    assert_eq!(t.re_bello, Turn::Shuffler);
}

#[test]
fn larger_pile_and_more_coins_win() {
    let m = finished(
        vec![Card::denari(2), Card::denari(3), Card::new(Suit::Coppe, 2)],
        vec![Card::new(Suit::Spade, 4), Card::new(Suit::Spade, 5), Card::new(Suit::Spade, 6), Card::denari(7)],
    );
    let t = m.tally_final_points();
    assert_eq!(t.num_cards, Some(Turn::Shuffler));
    assert_eq!(t.num_denari, Some(Turn::First));
    assert_eq!(t.sette_bello, Turn::Shuffler);
    assert_eq!(t.scope_first, 2);
    assert_eq!(t.scope_shuf, 1);
}

#[test]
fn napoli_magnitudes() {
    let t = finished(coins(&[1, 2, 3]), vec![]).tally_final_points();
    assert_eq!(t.napoli, Some((Turn::First, 1)));
    let t = finished(coins(&[3, 1, 2, 4]), vec![]).tally_final_points();
    assert_eq!(t.napoli, Some((Turn::First, 4)));
    let t = finished(coins(&[1, 2, 3, 4, 5, 6, 8]), vec![]).tally_final_points();
    assert_eq!(t.napoli, Some((Turn::First, 6)));
    let t = finished(coins(&[1, 2, 3, 4, 5, 6, 7, 8, 9, 10]), vec![]).tally_final_points();
    assert_eq!(t.napoli, Some((Turn::First, 10)));
    let t = finished(coins(&[1, 2, 4, 5]), coins(&[3])).tally_final_points();
    assert_eq!(t.napoli, None);
    let t = finished(coins(&[9]), coins(&[1, 2, 3, 4, 5])).tally_final_points();
    assert_eq!(t.napoli, Some((Turn::Shuffler, 5)));
}

#[test]
fn napoli_credited_to_one_side_on_a_real_deal() {
    let deck = Card::ordered_deck();
    let first: Vec<Card> = deck.iter().copied().filter(|c| c.suit == Suit::Denari).collect();
    let shuf: Vec<Card> = deck.iter().copied().filter(|c| c.suit != Suit::Denari).collect();
    let t = finished(first, shuf).tally_final_points();
    assert_eq!(t.napoli, Some((Turn::First, 10)));
}

#[test]
fn primiera_first_differing_value_from_seven_down() {
    let t = finished(
        vec![Card::new(Suit::Coppe, 7), Card::new(Suit::Spade, 6)],
        vec![Card::new(Suit::Spade, 7), Card::new(Suit::Coppe, 6), Card::new(Suit::Bastoni, 6)],
    )
    .tally_final_points();
    assert_eq!(t.primiera, Some(Turn::Shuffler));
    let t = finished(vec![Card::new(Suit::Coppe, 1)], vec![Card::new(Suit::Spade, 10)]).tally_final_points();
    assert_eq!(t.primiera, Some(Turn::First));
    let t = finished(vec![Card::new(Suit::Coppe, 9)], vec![Card::new(Suit::Spade, 10)]).tally_final_points();
    assert_eq!(t.primiera, None);
}

#[test]
fn points_add_up_categories() {
    let t = PointTally {
        scope_first: 2,
        scope_shuf: 1,
        num_cards: Some(Turn::First),
        num_denari: None,
        sette_bello: Turn::First,
        re_bello: Turn::Shuffler,
        napoli: Some((Turn::Shuffler, 4)),
        primiera: Some(Turn::First),
    };
    assert_eq!(t.first_points(), 2 + 3);
    assert_eq!(t.shuf_points(), 1 + 1 + 4);
}

#[test]
fn full_napoli_needs_all_ten_coins() {
    assert!(has_full_napoli(&coins(&[10, 9, 8, 7, 6, 5, 4, 3, 2, 1])));
    assert!(!has_full_napoli(&coins(&[1, 2, 3, 4, 5, 6, 7, 8, 9])));
    let mut mixed = coins(&[1, 2, 3, 4, 5, 6, 7, 8, 9]);
    mixed.push(Card::new(Suit::Coppe, 10));
    assert!(!has_full_napoli(&mixed));
    assert!(!has_full_napoli(&[]));
}
