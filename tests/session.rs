use scopa::{green_text, purple_text, Card, Game, Match, MoveError, Player, PlayerKind, PointTally, Suit, Turn};

fn game_with(first_pile: Vec<Card>, shuf_pile: Vec<Card>, purple: usize, green: usize) -> Game {
    let mut g = Game::new();
    g.purple_points = purple;
    g.green_points = green;
    g.curr_match = Match {
        turn: Turn::First,
        player_first: Player { curr_hand: vec![], pile: first_pile, scope: 0 },
        player_shuffler: Player { curr_hand: vec![], pile: shuf_pile, scope: 0 },
        deck: vec![],
        table: vec![],
    };
    g
}

fn coins() -> Vec<Card> {
    (1..=10).map(Card::denari).collect()
}

#[test]
fn new_game_starts_even() {
    let g = Game::new();
    assert_eq!(g.purple_points, 0);
    assert_eq!(g.green_points, 0);
    assert_eq!(g.who_is_first, PlayerKind::Purple);
    assert_eq!(g.color_playing(), PlayerKind::Purple);
    assert!(g.winner().is_none());
    assert_eq!(g.curr_match.deck.len(), 30);
}

#[test]
fn color_playing_follows_turn_and_rotation() {
    let mut g = Game::new();
    g.toggle_turn();
    assert_eq!(g.color_playing(), PlayerKind::Green);
    g.toggle_whose_first();
    assert_eq!(g.who_is_first, PlayerKind::Green);
    assert_eq!(g.color_playing(), PlayerKind::Purple);
    g.toggle_turn();
    assert_eq!(g.color_playing(), PlayerKind::Green);
    assert_eq!(!PlayerKind::Green, PlayerKind::Purple);
}

#[test]
fn winner_threshold_and_ties() {
    let cases = [
        (0, 0, None),
        (20, 20, None),
        (21, 20, Some((purple_text(), 21, 20))),
        (5, 22, Some((green_text(), 22, 5))),
        (25, 23, Some((purple_text(), 25, 23))),
        (23, 30, Some((green_text(), 30, 23))),
        (24, 24, None),
    ];
    for (p, gr, expected) in cases {
        let g = game_with(vec![], vec![], p, gr);
        assert_eq!(g.winner(), expected, "scores {p} - {gr}");
    }
}

#[test]
fn colour_names() {
    assert_eq!(purple_text(), "\u{1b}[38;5;93mPurple\u{1b}[0m");
    assert_eq!(green_text(), "\u{1b}[38;5;34mGreen\u{1b}[0m");
}

#[test]
fn full_napoli_overrides_scores() {
    let g0 = game_with(coins(), vec![], 0, 0);
    assert_eq!(g0.winner(), Some((purple_text(), 0, 0)));
    let g = game_with(coins(), vec![Card::new(Suit::Coppe, 3)], 3, 25);
    assert!(has_full(&g.curr_match.player_first.pile));
    assert_eq!(g.full_napoli_winner(), Some(PlayerKind::Purple));
    assert_eq!(g.winner(), Some((purple_text(), 3, 25)));
}

fn has_full(p: &[Card]) -> bool {
    scopa::has_full_napoli(p)
}

#[test]
fn full_napoli_of_shuffler_goes_to_other_colour() {
    let mut g = game_with(vec![], coins(), 7, 2);
    assert_eq!(g.full_napoli_winner(), Some(PlayerKind::Green));
    assert_eq!(g.winner(), Some((green_text(), 2, 7)));
    g.toggle_whose_first();
    assert_eq!(g.winner(), Some((purple_text(), 7, 2)));
}

#[test]
fn winner_without_full_napoli_goes_by_scores() {
    let partial: Vec<Card> = (1..=9).map(Card::denari).collect();
    assert_eq!(game_with(partial.clone(), vec![], 21, 3).winner(), Some((purple_text(), 21, 3)));
    assert_eq!(game_with(partial, vec![], 30, 30).winner(), None);
    assert_eq!(game_with(vec![], vec![], 3, 3).winner(), None);
    assert_eq!(game_with(vec![], vec![], 3, 3).full_napoli_winner(), None);
}

#[test]
fn match_over_sweeps_table_to_last_capturer() {
    let mut g = game_with(vec![Card::denari(2)], vec![], 0, 0);
    g.curr_match.table = vec![Card::new(Suit::Spade, 4), Card::new(Suit::Coppe, 5)];
    g.who_won_last_round = Turn::Shuffler;
    let t = g.is_match_over().expect("the match is over");
    assert!(g.curr_match.table.is_empty());
    assert_eq!(g.curr_match.player_shuffler.pile, vec![Card::new(Suit::Spade, 4), Card::new(Suit::Coppe, 5)]);
    assert_eq!(t.num_cards, Some(Turn::Shuffler));
}

#[test]
fn match_not_over_changes_nothing() {
    let mut g = Game::new();
    let table = g.curr_match.table.clone();
    assert!(g.is_match_over().is_none());
    assert_eq!(g.curr_match.table, table);
}

#[test]
fn only_captures_mark_the_last_capturer() {
    let mut g = game_with(vec![], vec![], 0, 0);
    g.curr_match.player_first.curr_hand = vec![Card::denari(6), Card::denari(5)];
    g.curr_match.player_shuffler.curr_hand = vec![Card::new(Suit::Coppe, 4)];
    g.curr_match.table = vec![Card::new(Suit::Spade, 6)];
    g.who_won_last_round = Turn::Shuffler;
    g.make_move("t1").unwrap();
    assert_eq!(g.who_won_last_round, Turn::Shuffler);
    assert!(matches!(g.make_move("9;0"), Err(MoveError::OutOfRangeOfHand)));
    g.make_move("0;0").unwrap();
    assert_eq!(g.who_won_last_round, Turn::First);
}

#[test]
fn record_tally_by_seat_colour() {
    let t = PointTally {
        scope_first: 1,
        scope_shuf: 0,
        num_cards: Some(Turn::First),
        num_denari: Some(Turn::Shuffler),
        sette_bello: Turn::Shuffler,
        re_bello: Turn::First,
        napoli: None,
        primiera: None,
    };
    let mut g = game_with(vec![], vec![], 10, 4);
    g.record_tally(&t);
    assert_eq!((g.purple_points, g.green_points), (13, 6));
    g.toggle_whose_first();
    g.record_tally(&t);
    assert_eq!((g.purple_points, g.green_points), (15, 9));
}

#[test]
fn scenario_full_match_via_game() {
    let mut g = Game::new();
    g.curr_match = Match::deal(Card::ordered_deck());
    let mut guard = 0;
    loop {
        g.make_move("t0").unwrap();
        if let Some(t) = g.is_match_over() {
            assert_eq!(g.curr_match.player_first.pile.len() + g.curr_match.player_shuffler.pile.len(), 40);
            g.record_tally(&t);
            break;
        }
        g.toggle_turn();
        guard += 1;
        assert!(guard < 100);
    }
    assert!(g.purple_points + g.green_points >= 4);
}
