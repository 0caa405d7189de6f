use poker_hands::card::Card;
use poker_hands::deck::Deck;
use poker_hands::game::GameMode;
use poker_hands::player::is_valid_hand_string;
use poker_hands::player::InvalidHandError;
use poker_hands::player::Player;

fn classify_ok(hand: &str) -> Player {
    Player::classify(String::from(hand)).unwrap()
}

fn hands_of(deck: &Deck) -> Vec<String> {
    deck.result.iter().map(|p| p.word_list.join(" ")).collect()
}

fn orders_of(deck: &Deck) -> Vec<u8> {
    deck.result.iter().map(|p| p.order).collect()
}

#[test]
fn face_values() {
    assert_eq!(Card::face_to_value("A"), 14);
    assert_eq!(Card::face_to_value("K"), 13);
    assert_eq!(Card::face_to_value("Q"), 12);
    assert_eq!(Card::face_to_value("J"), 11);
    assert_eq!(Card::face_to_value("10"), 10);
    assert_eq!(Card::face_to_value("2"), 2);
    assert_eq!(Card::face_to_value("9"), 9);
    assert_eq!(Card::face_to_value("Z"), 0);
    assert_eq!(Card::face_to_value(""), 0);
    assert_eq!(Card::face_to_value("S"), 0);
}

#[test]
fn suit_ranks() {
    assert_eq!(Card::rank_suits('D'), 1);
    assert_eq!(Card::rank_suits('C'), 2);
    assert_eq!(Card::rank_suits('H'), 3);
    assert_eq!(Card::rank_suits('S'), 4);
    assert_eq!(Card::rank_suits('x'), 0);
}

#[test]
fn card_text() {
    let c = Card::new('S', String::from("A"));
    assert_eq!(c.to_string(), "AS");
    let ten = Card::new('H', String::from("10"));
    assert_eq!(ten.to_string(), "10H");
}

#[test]
fn royal_straight_flush() {
    let p = classify_ok("10S JS QS KS AS");
    assert_eq!(p.order, 1);
    assert_eq!(p.hand, "Royal Straight Flush");
}

#[test]
fn wheel_straight_flush() {
    let p = classify_ok("2H 3H 4H 5H AH");
    assert_eq!(p.order, 2);
    assert_eq!(p.hand, "Straight Flush");
    assert_ne!(p.hand, "High Card");
}

#[test]
fn four_of_a_kind() {
    let p = classify_ok("AS AD AC AH 2S");
    assert_eq!(p.order, 3);
    assert_eq!(p.hand, "Four of a Kind");
    assert_eq!(p.get_foak_rank(), 14);
    assert_eq!(p.get_kicker(), 2);
}

#[test]
fn full_house_triple_of_threes() {
    let p = classify_ok("2S 2D 3H 3C 3S");
    assert_eq!(p.order, 4);
    assert_eq!(p.hand, "Full House");
    assert_eq!(p.get_toak_rank(), 3);
}

#[test]
fn plain_flush() {
    let p = classify_ok("2D 5D 7D 9D KD");
    assert_eq!(p.order, 5);
    assert_eq!(p.hand, "Flush");
}

#[test]
fn plain_straight() {
    let p = classify_ok("4S 5D 6H 7C 8S");
    assert_eq!(p.order, 6);
    assert_eq!(p.hand, "Straight");
}

#[test]
fn wheel_straight_mixed_suits() {
    let p = classify_ok("2H 3S 4H 5H AH");
    assert_eq!(p.order, 6);
    assert_eq!(p.hand, "Straight");
}

#[test]
fn three_of_a_kind() {
    let p = classify_ok("7S 7D 7H 2C 9S");
    assert_eq!(p.order, 7);
    assert_eq!(p.hand, "Three of a Kind");
    assert_eq!(p.get_toak_rank(), 7);
}

#[test]
fn two_pair() {
    let p = classify_ok("4S 4D 9H 9C 2S");
    assert_eq!(p.order, 8);
    assert_eq!(p.hand, "Two Pair");
    assert_eq!(p.get_to_pair_ranks(), vec![9, 4]);
}

#[test]
fn one_pair() {
    let p = classify_ok("4S 4D 8H 9C 2S");
    assert_eq!(p.order, 9);
    assert_eq!(p.hand, "Pair");
}

#[test]
fn high_card() {
    let p = classify_ok("2S 5D 8H JC KS");
    assert_eq!(p.order, 10);
    assert_eq!(p.hand, "High Card");
    assert_eq!(p.get_high_card(), 13);
    assert_eq!(p.get_kicker(), 2);
}

#[test]
fn near_straight_with_gap_is_high_card() {
    let p = classify_ok("2S 3D 4H 5C 7S");
    assert_eq!(p.order, 10);
    assert_eq!(p.hand, "High Card");
}

#[test]
fn classify_rejects_four_cards() {
    let r = Player::classify(String::from("2S 3D 4H 5C"));
    assert_eq!(r.unwrap_err(), InvalidHandError);
}

#[test]
fn classify_rejects_six_cards() {
    let r = Player::classify(String::from("2S 3D 4H 5C 7S 8S"));
    assert_eq!(r.unwrap_err(), InvalidHandError);
}

#[test]
fn hand_string_validation() {
    assert!(is_valid_hand_string("10S JS QS KS AS"));
    assert!(is_valid_hand_string(""));
    assert!(!is_valid_hand_string("ZZS 3D 4H 5C 7S"));
    assert!(!is_valid_hand_string("2S 3d"));
    assert!(!is_valid_hand_string("S"));
}

fn ranked_deck(hands: &[&str]) -> Deck {
    let hands: Vec<String> = hands.iter().map(|h| String::from(*h)).collect();
    for h in &hands {
        assert!(is_valid_hand_string(h));
    }
    let mut deck = Deck::new_test();
    deck.rank_hands(&hands);
    deck.rank();
    deck
}

#[test]
fn flush_before_pair_either_input_order() {
    let flush = "2D 5D 7D 9D KD";
    let pair = "4S 4D 8H 9C 2S";
    let d1 = ranked_deck(&[pair, flush]);
    assert_eq!(orders_of(&d1), vec![5, 9]);
    assert_eq!(hands_of(&d1)[0], flush);
    let d2 = ranked_deck(&[flush, pair]);
    assert_eq!(orders_of(&d2), vec![5, 9]);
    assert_eq!(hands_of(&d2)[0], flush);
}

#[test]
fn two_pair_identical_ranks_keep_input_order() {
    let first = "2S 2D 3H 3C 8S";
    let second = "2H 2C 3D 3S 9S";
    let d = ranked_deck(&[first, second]);
    assert_eq!(hands_of(&d), vec![String::from(first), String::from(second)]);
    let d2 = ranked_deck(&[second, first]);
    assert_eq!(hands_of(&d2), vec![String::from(second), String::from(first)]);
}

#[test]
fn two_pair_higher_ranks_first() {
    let low = "2S 2D 3H 3C 8S";
    let high = "4H 4C 9D 9S 5S";
    let d = ranked_deck(&[low, high]);
    assert_eq!(hands_of(&d), vec![String::from(high), String::from(low)]);
}

#[test]
fn ranking_is_idempotent() {
    let batch = [
        "2D 5D 7D 9D KD",
        "4S 4D 8H 9C 2S",
        "7S 7D 7H 2C 9S",
        "2H 3H 4H 5H AH",
        "2S 5D 8H JC KS",
        "4D 4H 9H 9C 2C",
    ];
    let mut d = ranked_deck(&batch);
    let once_hands = hands_of(&d);
    let once_orders = orders_of(&d);
    d.rank();
    assert_eq!(hands_of(&d), once_hands);
    assert_eq!(orders_of(&d), once_orders);
}

#[test]
fn empty_batch_ranks_to_empty() {
    let d = ranked_deck(&[]);
    assert!(d.result.is_empty());
}

#[test]
fn empty_hands_are_skipped() {
    let d = ranked_deck(&["", "4S 4D 8H 9C 2S", ""]);
    assert_eq!(orders_of(&d), vec![9]);
}

#[test]
fn flush_ties_break_on_high_card() {
    let low = "2D 5D 7D 9D JD";
    let high = "2H 5H 7H 9H KH";
    let d = ranked_deck(&[low, high]);
    assert_eq!(hands_of(&d), vec![String::from(high), String::from(low)]);
}

#[test]
fn pair_ties_break_on_high_card_suit() {
    // both pairs of fours with high card ten; the spade ten outranks the
    // diamond ten by suit order
    let diamond = "4S 4D 10D 9C 2S";
    let spade = "4H 4C 10S 9D 2H";
    let d = ranked_deck(&[diamond, spade]);
    assert_eq!(hands_of(&d), vec![String::from(spade), String::from(diamond)]);
}

#[test]
fn four_of_a_kind_ties_break_on_quad_rank() {
    let nines = "9S 9D 9H 9C 2S";
    let aces = "AS AD AH AC 2D";
    let d = ranked_deck(&[nines, aces]);
    assert_eq!(hands_of(&d), vec![String::from(aces), String::from(nines)]);
}

#[test]
fn full_house_ties_break_on_triple_rank() {
    let threes = "2S 2D 3H 3C 3S";
    let kings = "QS QD KH KC KS";
    let d = ranked_deck(&[threes, kings]);
    assert_eq!(hands_of(&d), vec![String::from(kings), String::from(threes)]);
}

#[test]
fn three_way_tie_high_cards_descending() {
    let a = "2S 5D 8H JC KS";
    let b = "2H 5C 8D 10C AH";
    let c = "2D 5H 8S 10D QD";
    let d = ranked_deck(&[a, b, c]);
    assert_eq!(hands_of(&d), vec![String::from(b), String::from(a), String::from(c)]);
}

#[test]
fn straight_ties_break_on_high_card() {
    let low = "4S 5D 6H 7C 8S";
    let high = "6S 7D 8H 9C 10S";
    let d = ranked_deck(&[low, high]);
    assert_eq!(hands_of(&d), vec![String::from(high), String::from(low)]);
}

#[test]
fn wheel_ace_counts_high_among_straight_flushes() {
    // the comparator reads the highest singleton rank, and in the wheel
    // that is the ace itself
    let wheel = "2H 3H 4H 5H AH";
    let nine_high = "5S 6S 7S 8S 9S";
    let d = ranked_deck(&[nine_high, wheel]);
    assert_eq!(hands_of(&d), vec![String::from(wheel), String::from(nine_high)]);
}

#[test]
fn three_of_a_kind_ties_break_on_triple_rank() {
    let sevens = "7S 7D 7H 2C 9S";
    let eights = "7C 8D 8H 8S QD";
    let d = ranked_deck(&[sevens, eights]);
    assert_eq!(hands_of(&d), vec![String::from(eights), String::from(sevens)]);
}

#[test]
fn new_deck_holds_all_52_cards() {
    let mut deck = Deck::new(false);
    deck.shuffle();
    deck.deal_hands();
    let mut dealt: Vec<String> = Vec::new();
    for h in &deck.dealt_cards {
        assert!(is_valid_hand_string(h));
        for tok in h.split_whitespace() {
            dealt.push(String::from(tok));
        }
    }
    assert_eq!(dealt.len(), 30);
    let mut unique = dealt.clone();
    unique.sort();
    unique.dedup();
    assert_eq!(unique.len(), 30);
}

#[test]
fn shuffle_keeps_the_same_cards() {
    let deck = Deck::new(false);
    let mut before: Vec<String> = Vec::new();
    for row in &deck.deck_array {
        for card in row {
            before.push(card.to_string());
        }
    }
    let mut shuffled = Deck::new(false);
    shuffled.shuffle();
    let mut after: Vec<String> = Vec::new();
    for row in &shuffled.deck_array {
        for card in row {
            after.push(card.to_string());
        }
    }
    assert_eq!(before.len(), 52);
    assert_eq!(after.len(), 52);
    let mut b = before.clone();
    let mut a = after.clone();
    b.sort();
    a.sort();
    assert_eq!(a, b);
}

#[test]
fn game_mode_hands_feed_the_deck() {
    let mut game = GameMode::new(true);
    game.test_array = vec![
        String::from("2D 5D 7D 9D KD"),
        String::from("4S 4D 8H 9C 2S"),
        String::from(""),
        String::from(""),
        String::from(""),
        String::from(""),
    ];
    for h in &game.test_array {
        assert!(is_valid_hand_string(h));
    }
    let mut deck = Deck::new_test();
    deck.retrieve_deck(&game);
    assert_eq!(deck.dealt_cards, game.test_array);
    game.call_deck_class(&mut deck);
    assert_eq!(deck.result.len(), 2);
    deck.rank();
    assert_eq!(orders_of(&deck), vec![5, 9]);
}
