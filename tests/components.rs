use blackjack_core::counter::{default_system_values, CardCounter};
use blackjack_core::deck::{Card, Deck, Rank};
use blackjack_core::hand::{card_value, hand_value, is_blackjack};
use blackjack_core::text::{decimal_string, str_eq};

#[test]
fn card_value_maps_codes() {
    assert_eq!(card_value(1), 11);
    assert_eq!(card_value(11), 10);
    assert_eq!(card_value(12), 10);
    assert_eq!(card_value(13), 10);
    assert_eq!(card_value(7), 7);
}

#[test]
fn hand_value_demotes_each_ace_at_most_once() {
    assert_eq!(hand_value(&[1, 1]), (12, true));
    assert_eq!(hand_value(&[1, 1, 9]), (21, true));
    assert_eq!(hand_value(&[1, 10, 10]), (21, false));
    assert_eq!(hand_value(&[1, 1, 1, 1]), (14, true));
    assert_eq!(hand_value(&[1, 1, 1, 1, 10, 10]), (24, false));
    assert_eq!(hand_value(&[10, 10, 5]), (25, false));
    assert_eq!(hand_value(&[]), (0, false));
    assert_eq!(hand_value(&[1, 6]), (17, true));
    assert_eq!(hand_value(&[1, 6, 10]), (17, false));
}

#[test]
fn natural_needs_two_cards() {
    assert!(is_blackjack(&[1, 13]));
    assert!(!is_blackjack(&[1, 5, 5]));
    assert!(!is_blackjack(&[10, 10]));
}

#[test]
fn decimal_text() {
    assert_eq!(decimal_string(0), "0");
    assert_eq!(decimal_string(7), "7");
    assert_eq!(decimal_string(12345), "12345");
    assert!(str_eq("Hi-Lo", "Hi-Lo"));
    assert!(!str_eq("Hi-Lo", "Hi-Opt I"));
    assert!(!str_eq("", "A"));
}

#[test]
fn card_new_reads_rank_symbols() {
    let ace = Card::new("A").unwrap();
    assert_eq!(ace.rank, Rank::Ace);
    assert_eq!(ace.value, 11);
    let ten = Card::new("10").unwrap();
    assert_eq!(ten.rank, Rank::Ten);
    assert_eq!(ten.value, 10);
    assert_eq!(Card::new("K").unwrap().value, 10);
    assert_eq!(Card::new("7").unwrap().value, 7);
    assert!(Card::new("X").is_none());
    assert!(Card::new("1").is_none());
    assert!(Card::new("").is_none());
    assert_eq!(Rank::parse("Q"), Some(Rank::Queen));
}

fn rank_counts(cards: &[Card]) -> [usize; 13] {
    let mut counts = [0usize; 13];
    for c in cards {
        let i = match c.rank {
            Rank::Ace => 0,
            Rank::Two => 1,
            Rank::Three => 2,
            Rank::Four => 3,
            Rank::Five => 4,
            Rank::Six => 5,
            Rank::Seven => 6,
            Rank::Eight => 7,
            Rank::Nine => 8,
            Rank::Ten => 9,
            Rank::Jack => 10,
            Rank::Queen => 11,
            Rank::King => 12,
        };
        counts[i] += 1;
    }
    counts
}

#[test]
fn fresh_shoe_is_a_shuffled_full_deck() {
    let mut deck = Deck::new(1, 75, 42);
    assert_eq!(deck.remaining_cards(), 52);
    let mut dealt = Vec::new();
    for _ in 0..52 {
        dealt.push(deck.deal_card());
    }
    assert_eq!(rank_counts(&dealt), [4; 13]);
    for c in &dealt {
        assert_eq!(c.value, c.rank.points());
    }
    // rank-major order dealt from the tail would start with four kings
    let unshuffled = dealt[0].rank == Rank::King
        && dealt[1].rank == Rank::King
        && dealt[2].rank == Rank::King
        && dealt[3].rank == Rank::King
        && dealt[4].rank == Rank::Queen;
    assert!(!unshuffled);
}

#[test]
fn same_seed_same_order() {
    let mut a = Deck::new(2, 75, 7);
    let mut b = Deck::new(2, 75, 7);
    let mut c = Deck::new(2, 75, 8);
    let mut differs = false;
    for _ in 0..104 {
        let x = a.deal_card();
        let y = b.deal_card();
        let z = c.deal_card();
        assert_eq!(x, y);
        if x != z {
            differs = true;
        }
    }
    assert!(differs);
}

#[test]
fn dealing_from_empty_shoe_reshuffles_first() {
    let mut deck = Deck::new(6, 75, 42);
    for _ in 0..(6 * 52) {
        deck.deal_card();
    }
    assert_eq!(deck.remaining_cards(), 0);
    let card = deck.deal_card();
    assert_eq!(card.value, card.rank.points());
    assert_eq!(deck.remaining_cards(), 6 * 52 - 1);
}

#[test]
fn reshuffle_needs_penetration_and_less_than_a_deck() {
    let mut deck = Deck::new(1, 75, 3);
    assert!(!deck.should_reshuffle());
    for _ in 0..38 {
        deck.deal_card();
    }
    // 38/52 is below 75%
    assert!(!deck.should_reshuffle());
    deck.deal_card();
    // 39/52 is exactly 75% and 13 cards remain
    assert!(deck.should_reshuffle());
    deck.shuffle();
    assert!(!deck.should_reshuffle());
    assert_eq!(deck.remaining_cards(), 52);

    // with two decks, penetration alone is not enough while a deck remains
    let mut big = Deck::new(2, 10, 3);
    for _ in 0..52 {
        big.deal_card();
    }
    assert!(!big.should_reshuffle());
    big.deal_card();
    assert!(big.should_reshuffle());
}

#[test]
fn remove_card_by_rank_takes_one_card() {
    let mut deck = Deck::new(1, 75, 1);
    for _ in 0..4 {
        assert!(deck.remove_card_by_rank(Rank::Ace));
    }
    assert!(!deck.remove_card_by_rank(Rank::Ace));
    assert_eq!(deck.remaining_cards(), 48);
    let mut dealt = Vec::new();
    for _ in 0..48 {
        dealt.push(deck.deal_card());
    }
    assert_eq!(rank_counts(&dealt)[0], 0);
}

#[test]
fn named_systems() {
    assert_eq!(default_system_values("Hi-Lo"), vec![-1, 1, 1, 1, 1, 1, 0, 0, 0, -1, -1, -1, -1]);
    assert_eq!(default_system_values("Hi-Opt I"), vec![0, 0, 1, 1, 1, 1, 0, 0, 0, -1, -1, -1, -1]);
    assert_eq!(default_system_values("Hi-Opt II"), vec![0, 1, 1, 2, 2, 1, 1, 0, 0, -2, -2, -2, -2]);
    assert_eq!(default_system_values("Omega II"), vec![0, 1, 1, 2, 2, 2, 1, 0, -1, -2, -2, -2, -2]);
    assert_eq!(default_system_values("KO (Knockout)"), vec![-1, 1, 1, 1, 1, 1, 1, 0, 0, -1, -1, -1, -1]);
    assert_eq!(default_system_values("KO"), default_system_values("KO (Knockout)"));
    assert_eq!(default_system_values("Ace-Five"), vec![-1, 0, 0, 0, 1, 0, 0, 0, 0, 0, 0, 0, 0]);
    assert_eq!(default_system_values("nonsense"), default_system_values("Hi-Lo"));
}

fn card(rank: &str) -> Card {
    Card::new(rank).unwrap()
}

#[test]
fn counter_updates_and_resets() {
    let mut c = CardCounter::new(None, None);
    c.update(&card("5"));
    c.update(&card("6"));
    c.update(&card("K"));
    c.update(&card("8"));
    assert_eq!(c.running_count(), 1);
    c.reset();
    assert_eq!(c.running_count(), 0);

    let mut ko = CardCounter::new(Some("KO (Knockout)".to_string()), None);
    ko.update(&card("7"));
    assert_eq!(ko.running_count(), 1);
}

#[test]
fn custom_counter_uses_the_callers_table() {
    let custom = vec![("A".to_string(), 5), ("X".to_string(), 9), ("A".to_string(), 3)];
    let mut c = CardCounter::new(Some("Custom".to_string()), Some(custom));
    c.update(&card("A"));
    c.update(&card("5"));
    assert_eq!(c.running_count(), 3);
    let mut empty = CardCounter::new(Some("Custom".to_string()), None);
    empty.update(&card("5"));
    assert_eq!(empty.running_count(), 0);
}

#[test]
fn true_count_zero_running_is_zero() {
    let c = CardCounter::new(None, None);
    for remaining in [0usize, 1, 25, 26, 52, 100, 312, 1000] {
        let (p, q) = c.true_count(remaining, 6);
        assert!(q > 0);
        assert_eq!(p, 0);
        assert_eq!(c.count_range(remaining, 6), 0);
    }
    assert_eq!(c.true_count(10, 0), (0, 1));
}

#[test]
fn true_count_divides_by_clamped_decks() {
    let mut c = CardCounter::new(None, None);
    c.update(&card("2"));
    c.update(&card("3"));
    // running 2 over one deck left
    assert_eq!(c.true_count(52, 6), (104, 52));
    assert_eq!(c.count_range(52, 6), 2);
    // fewer than half a deck counts as half a deck
    assert_eq!(c.true_count(10, 6), (104, 26));
    assert_eq!(c.count_range(10, 6), 4);
    // more than the shoe counts as the shoe
    assert_eq!(c.true_count(500, 1), (104, 52));
    // running 2 over four decks is 0.5, rounded away from zero
    assert_eq!(c.count_range(208, 6), 1);
    let mut n = CardCounter::new(None, None);
    n.update(&card("K"));
    n.update(&card("A"));
    assert_eq!(n.count_range(208, 6), -1);
    assert_eq!(n.count_range(312, 6), 0);
}
