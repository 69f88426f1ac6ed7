use blackjack_core::counter::CardCounter;
use blackjack_core::deck::{Card, Deck, Rank};
use blackjack_core::game::{
    calculate_value, BlackjackGame, BlackjackPayout, DealerStand, GameResult, GameRules, Outcome,
};
use blackjack_core::sim::{
    build_counter, describe_dealer_card, describe_player_total, run, to_game_rules, CountingInput,
    RulesInput, Simulation, SimulationInput, SimulationResult,
};
use blackjack_core::spot::{play_spot_round, run_spot_check, SpotCheckInput};
use blackjack_core::strategy::{Action, JsonValue, Strategy, StrategyInput};

fn s(v: &str) -> JsonValue {
    JsonValue::Str(v.to_string())
}

fn obj(entries: Vec<(String, JsonValue)>) -> JsonValue {
    JsonValue::Object(entries)
}

const DEALERS: [&str; 10] = ["2", "3", "4", "5", "6", "7", "8", "9", "10", "A"];

fn dealer_num(d: &str) -> u32 {
    if d == "A" {
        11
    } else {
        d.parse().unwrap()
    }
}

fn table(keys: &[u32], rule: &dyn Fn(u32, u32) -> &'static str) -> JsonValue {
    let mut rows = Vec::new();
    for &k in keys {
        let mut cells = Vec::new();
        for d in DEALERS {
            cells.push((d.to_string(), s(rule(k, dealer_num(d)))));
        }
        rows.push((k.to_string(), obj(cells)));
    }
    obj(rows)
}

fn basic_strategy() -> StrategyInput {
    let hard_keys: Vec<u32> = (4..=20).collect();
    let hard = table(&hard_keys, &|t, d| {
        if t >= 17 {
            "S"
        } else if t >= 13 {
            if d <= 6 { "S" } else { "H" }
        } else if t == 12 {
            if (4..=6).contains(&d) { "S" } else { "H" }
        } else if t == 11 {
            "D"
        } else if t == 10 {
            if d <= 9 { "D" } else { "H" }
        } else if t == 9 {
            if (3..=6).contains(&d) { "D" } else { "H" }
        } else {
            "H"
        }
    });
    let soft_keys: Vec<u32> = (13..=20).collect();
    let soft = table(&soft_keys, &|t, d| {
        if t >= 19 {
            "S"
        } else if t == 18 {
            if (3..=6).contains(&d) { "D" } else if d <= 8 { "S" } else { "H" }
        } else if (5..=6).contains(&d) {
            "D"
        } else {
            "H"
        }
    });
    let pair_keys: Vec<u32> = (2..=11).collect();
    let pairs = table(&pair_keys, &|v, d| {
        if v == 11 || v == 8 {
            "P"
        } else if v == 10 || v == 5 {
            if v == 5 && d <= 9 { "D" } else { "S" }
        } else if v == 9 {
            if d == 7 || d >= 10 { "S" } else { "P" }
        } else if d <= 7 {
            "P"
        } else {
            "H"
        }
    });
    StrategyInput {
        count_based: None,
        hard,
        soft,
        pairs,
        hard_by_count: JsonValue::Null,
        soft_by_count: JsonValue::Null,
        pairs_by_count: JsonValue::Null,
    }
}

fn rules_input() -> RulesInput {
    RulesInput {
        dealer_hits_soft_17: false,
        dealer_stands_on: None,
        double_after_split: None,
        allow_resplit: None,
        resplit_aces: None,
        blackjack_pays: None,
        penetration_threshold: None,
    }
}

fn sim_input(iterations: u32, seed: u64, counting: bool) -> SimulationInput {
    SimulationInput {
        num_decks: 6,
        iterations,
        seed,
        strategy: basic_strategy(),
        rules: rules_input(),
        progress_interval: 10000,
        counting: Some(CountingInput { enabled: counting, system: None, custom_values: None }),
    }
}

fn default_rules() -> GameRules {
    to_game_rules(&rules_input())
}

fn new_game(seed: u64, counting: bool) -> BlackjackGame {
    let counter = if counting { Some(CardCounter::new(None, None)) } else { None };
    BlackjackGame::new(Deck::new(6, 75, seed), default_rules(), counter)
}

fn value(cards: &[Card]) -> u64 {
    calculate_value(cards).0
}

/// Net of every hand against the dealer's final total, in tenths.
fn expected_net(r: &GameResult) -> i64 {
    let dealer = value(&r.dealer_cards);
    let mut net = 0;
    for h in &r.hands {
        let stake = 10 * h.bet as i64;
        let v = value(&h.cards);
        if h.result == Some(Outcome::Lose) || v > 21 {
            net -= stake;
        } else if dealer > 21 || v > dealer {
            net += stake;
        } else if v < dealer {
            net -= stake;
        }
    }
    net
}

#[test]
fn rules_defaults_and_variants() {
    let r = default_rules();
    assert!(!r.dealer_hits_soft_17);
    assert_eq!(r.dealer_stands_on, DealerStand::Seventeen);
    assert!(r.double_after_split);
    assert!(r.allow_resplit);
    assert!(!r.resplit_aces);
    assert_eq!(r.blackjack_pays, BlackjackPayout::ThreeToTwo);
    let mut inp = rules_input();
    inp.dealer_stands_on = Some("17s".to_string());
    inp.blackjack_pays = Some("6:5".to_string());
    inp.resplit_aces = Some(true);
    let r = to_game_rules(&inp);
    assert_eq!(r.dealer_stands_on, DealerStand::AllSeventeens);
    assert_eq!(r.blackjack_pays, BlackjackPayout::SixToFive);
    assert!(r.resplit_aces);
    inp.blackjack_pays = Some("1:1".to_string());
    assert_eq!(to_game_rules(&inp).blackjack_pays, BlackjackPayout::EvenMoney);
    inp.blackjack_pays = Some("2:1".to_string());
    assert_eq!(to_game_rules(&inp).blackjack_pays, BlackjackPayout::ThreeToTwo);
}

#[test]
fn build_counter_follows_the_flag() {
    assert!(build_counter(None).is_none());
    assert!(build_counter(Some(CountingInput { enabled: false, system: None, custom_values: None })).is_none());
    assert!(build_counter(Some(CountingInput { enabled: true, system: None, custom_values: None })).is_some());
}

#[test]
fn cell_texts() {
    let c = |r: &str| Card::new(r).unwrap();
    assert_eq!(describe_player_total(&[c("K"), c("Q")]), "K,Q");
    assert_eq!(describe_player_total(&[c("8"), c("8")]), "8,8");
    assert_eq!(describe_player_total(&[c("A"), c("6")]), "S17");
    assert_eq!(describe_player_total(&[c("10"), c("7")]), "17");
    assert_eq!(describe_player_total(&[c("A"), c("6"), c("9")]), "16");
    assert_eq!(describe_dealer_card(&c("A")), "A");
    assert_eq!(describe_dealer_card(&c("K")), "10");
    assert_eq!(describe_dealer_card(&c("6")), "6");
}

#[test]
fn rounds_settle_by_the_rules() {
    let strategy = Strategy::from_input(basic_strategy()).ok().unwrap();
    let mut game = new_game(11, true);
    for _ in 0..3000 {
        let r = game.play_game(&strategy);
        assert_eq!(r.player_cards.len(), 2);
        assert_eq!(r.dealer_up_card, r.dealer_cards[0]);
        assert!(r.initial_action.is_some());
        assert!(!r.hands.is_empty());
        let stake: i64 = r.hands.iter().map(|h| 10 * h.bet as i64).sum();
        if value(&r.player_cards) != 21 {
            match r.initial_action.unwrap() {
                Action::Stand => {
                    assert_eq!(r.hands.len(), 1);
                    assert_eq!(r.hands[0].cards, r.player_cards);
                }
                Action::Double => {
                    assert_eq!(r.hands.len(), 1);
                    assert_eq!(r.hands[0].bet, 2);
                    assert_eq!(r.hands[0].cards.len(), 3);
                }
                Action::Hit => {
                    assert_eq!(r.hands.len(), 1);
                    assert!(r.hands[0].cards.len() >= 3);
                    assert_eq!(r.hands[0].cards[..2], r.player_cards[..]);
                }
                Action::Split => {}
            }
        }
        if r.hands.len() > 1 {
            assert_eq!(r.player_cards[0].value, r.player_cards[1].value);
        }
        for h in &r.hands {
            assert_eq!(h.cards[0].value, r.player_cards[0].value);
            if h.bet == 1 && value(&h.cards) > 21 {
                assert_eq!(h.result, Some(Outcome::Lose));
            }
            assert!(h.bet == 1 || h.bet == 2);
            if h.bet == 2 {
                assert_eq!(h.cards.len(), 3);
            }
            if h.result.is_some() {
                assert!(value(&h.cards) > 21);
            }
        }
        let player_natural = value(&r.player_cards) == 21;
        let dealer_natural = r.dealer_cards.len() == 2 && value(&r.dealer_cards) == 21;
        if player_natural {
            assert_eq!(r.initial_action, Some(Action::Stand));
            assert_eq!(r.bet, 10);
            if dealer_natural {
                assert_eq!(r.outcome, Outcome::Push);
                assert_eq!(r.winnings, 0);
            } else {
                assert_eq!(r.outcome, Outcome::Blackjack);
                assert_eq!(r.winnings, 15);
            }
        } else if dealer_natural {
            assert_eq!(r.outcome, Outcome::Lose);
            assert_eq!(r.winnings, -stake);
        } else {
            let d = value(&r.dealer_cards);
            assert!(d >= 17);
            assert_eq!(r.winnings, expected_net(&r));
            assert_eq!(r.bet, stake);
            let expected = if r.winnings > 0 {
                Outcome::Win
            } else if r.winnings < 0 {
                Outcome::Lose
            } else {
                Outcome::Push
            };
            assert_eq!(r.outcome, expected);
        }
    }
}

#[test]
fn busted_hand_loses_even_when_dealer_busts() {
    let strategy = Strategy::from_input(basic_strategy()).ok().unwrap();
    let mut found = false;
    for seed in 0..200u64 {
        let mut game = new_game(seed, false);
        for _ in 0..50 {
            let r = game.play_game(&strategy);
            let dealer = value(&r.dealer_cards);
            let dealer_natural = r.dealer_cards.len() == 2 && dealer == 21;
            if value(&r.player_cards) == 21 || dealer_natural || dealer <= 21 || r.hands.len() != 1 {
                continue;
            }
            let h = &r.hands[0];
            if value(&h.cards) > 21 {
                // a 22+ hand is a loss though the dealer busted too
                assert_eq!(r.winnings, -10 * h.bet as i64);
                assert_eq!(r.outcome, Outcome::Lose);
                found = true;
            }
        }
    }
    assert!(found);
}

#[test]
fn double_natural_is_a_push_with_stand_recorded() {
    let strategy = Strategy::from_input(basic_strategy()).ok().unwrap();
    let mut found = false;
    for seed in 0..400u64 {
        let mut game = new_game(seed, false);
        for _ in 0..40 {
            let r = game.play_game(&strategy);
            if value(&r.player_cards) == 21 && r.dealer_cards.len() == 2 && value(&r.dealer_cards) == 21 {
                assert_eq!(r.outcome, Outcome::Push);
                assert_eq!(r.winnings, 0);
                assert_eq!(r.initial_action, Some(Action::Stand));
                found = true;
            }
        }
    }
    assert!(found);
}

fn same_result(a: &SimulationResult, b: &SimulationResult) -> bool {
    if a.total_games != b.total_games
        || a.wins != b.wins
        || a.losses != b.losses
        || a.pushes != b.pushes
        || a.blackjacks != b.blackjacks
        || a.total_winnings != b.total_winnings
        || a.total_bet != b.total_bet
        || a.cell_stats.len() != b.cell_stats.len()
        || a.count_stats.is_some() != b.count_stats.is_some()
    {
        return false;
    }
    for (x, y) in a.cell_stats.iter().zip(b.cell_stats.iter()) {
        if x.player_total != y.player_total
            || x.dealer_card != y.dealer_card
            || x.action != y.action
            || x.count != y.count
            || x.hands != y.hands
            || x.wins != y.wins
            || x.losses != y.losses
            || x.pushes != y.pushes
            || x.total_winnings != y.total_winnings
            || x.total_bet != y.total_bet
        {
            return false;
        }
    }
    true
}

#[test]
fn same_seed_same_aggregates() {
    let a = run(sim_input(100000, 42, false)).ok().unwrap();
    let b = run(sim_input(100000, 42, false)).ok().unwrap();
    assert!(same_result(&a, &b));
    assert_eq!(a.total_games, 100000);
    assert!(a.count_stats.is_none());
}

#[test]
fn cells_reconcile_with_totals() {
    let r = run(sim_input(3000, 5, true)).ok().unwrap();
    let hands: u32 = r.cell_stats.iter().map(|c| c.hands).sum();
    let wins: u32 = r.cell_stats.iter().map(|c| c.wins).sum();
    let losses: u32 = r.cell_stats.iter().map(|c| c.losses).sum();
    let pushes: u32 = r.cell_stats.iter().map(|c| c.pushes).sum();
    let winnings: i64 = r.cell_stats.iter().map(|c| c.total_winnings).sum();
    let bet: i64 = r.cell_stats.iter().map(|c| c.total_bet).sum();
    assert_eq!(hands, r.total_games);
    assert_eq!(r.total_games, 3000);
    assert_eq!(wins, r.wins);
    assert_eq!(losses, r.losses);
    assert_eq!(pushes, r.pushes);
    assert_eq!(winnings, r.total_winnings);
    assert_eq!(bet, r.total_bet);
    assert!(r.blackjacks <= r.wins);
    let cs = r.count_stats.unwrap();
    assert_eq!(cs.total_hands, 3000);
    let bucket_hands: u32 = cs.buckets.iter().map(|b| b.hands).sum();
    assert_eq!(bucket_hands, 3000);
    for (i, c) in r.cell_stats.iter().enumerate() {
        for d in &r.cell_stats[i + 1..] {
            assert!(
                !(c.player_total == d.player_total && c.dealer_card == d.dealer_card && c.action == d.action && c.count == d.count)
            );
        }
    }
}

#[test]
fn progress_reports_on_interval_and_last_round() {
    let mut inp = sim_input(10, 3, false);
    inp.progress_interval = 3;
    let mut sim = Simulation::new(inp).ok().unwrap();
    let mut reports = Vec::new();
    while !sim.is_done() {
        sim.play_round();
        if sim.progress_due() {
            reports.push(sim.rounds_completed());
        }
    }
    assert_eq!(reports, vec![3, 6, 9, 10]);
    assert_eq!(sim.finish().total_games, 10);
}

#[test]
fn zero_interval_reports_every_round() {
    let mut inp = sim_input(4, 3, false);
    inp.progress_interval = 0;
    let mut sim = Simulation::new(inp).ok().unwrap();
    let mut reports = 0;
    while !sim.is_done() {
        sim.play_round();
        if sim.progress_due() {
            reports += 1;
        }
    }
    assert_eq!(reports, 4);
}

#[test]
fn run_refuses_bad_input() {
    let mut inp = sim_input(10, 1, false);
    inp.num_decks = 0;
    match run(inp) {
        Ok(_) => panic!("expected an error"),
        Err(e) => assert_eq!(e, "number of decks must be at least 1"),
    }
    let mut inp = sim_input(10, 1, false);
    inp.strategy.hard = JsonValue::Other;
    match run(inp) {
        Ok(_) => panic!("expected an error"),
        Err(e) => assert_eq!(e, "strategy table must be an object"),
    }
}

fn spot_input(player: &[&str], dealer: &str, forced: &str, iterations: u32) -> SpotCheckInput {
    let mut rules = rules_input();
    rules.allow_resplit = Some(true);
    rules.resplit_aces = Some(false);
    SpotCheckInput {
        num_decks: 6,
        iterations,
        seed: 9,
        strategy: basic_strategy(),
        rules,
        player_cards: player.iter().map(|r| r.to_string()).collect(),
        dealer_card: dealer.to_string(),
        forced_action: forced.to_string(),
        counting: None,
    }
}

#[test]
fn split_eights_never_resplits_aces() {
    let strategy = Strategy::from_input(basic_strategy()).ok().unwrap();
    let mut rules = default_rules();
    rules.allow_resplit = true;
    rules.resplit_aces = false;
    let eight = Card::new("8").unwrap();
    let six = Card::new("6").unwrap();
    let player = vec![eight, eight];
    let mut max_hands = 0;
    for seed in 0..300u64 {
        let mut deck = Deck::new(6, 100, seed);
        deck.remove_card_by_rank(Rank::Eight);
        deck.remove_card_by_rank(Rank::Eight);
        deck.remove_card_by_rank(Rank::Six);
        let mut game = BlackjackGame::new(deck, rules, None);
        let r = play_spot_round(&mut game, &strategy, &player, six, Action::Split);
        assert!(r.hands.len() >= 2);
        max_hands = max_hands.max(r.hands.len());
        for h in &r.hands {
            assert_eq!(h.cards[0].value, 8);
            assert!(!(h.cards.len() == 2 && h.cards[0].rank == Rank::Ace && h.cards[1].rank == Rank::Ace));
        }
    }
    assert!(max_hands >= 3);
    let res = run_spot_check(spot_input(&["8", "8"], "6", "P", 500)).ok().unwrap();
    assert_eq!(res.total_games, 500);
    assert_eq!(res.wins + res.losses + res.pushes, 500);
}

#[test]
fn forced_double_on_three_cards_is_one_more_card() {
    let strategy = Strategy::from_input(basic_strategy()).ok().unwrap();
    let c = |r: &str| Card::new(r).unwrap();
    let player = vec![c("5"), c("3"), c("2")];
    for seed in 0..100u64 {
        let mut game = BlackjackGame::new(Deck::new(6, 100, seed), default_rules(), None);
        let r = play_spot_round(&mut game, &strategy, &player, c("6"), Action::Double);
        assert_eq!(r.hands.len(), 1);
        assert_eq!(r.hands[0].bet, 1);
        assert_eq!(r.hands[0].cards.len(), 4);
        assert_eq!(r.hands[0].cards[..3], player[..]);
        assert_eq!(r.dealer_cards[0], c("6"));
        for d in &r.dealer_cards {
            assert_eq!(d.value, d.rank.points());
        }
    }
    let res = run_spot_check(spot_input(&["5", "3", "2"], "6", "D", 300)).ok().unwrap();
    assert_eq!(res.total_bet, 10 * 300);
}

#[test]
fn forced_double_on_two_cards_draws_one_card() {
    let strategy = Strategy::from_input(basic_strategy()).ok().unwrap();
    let c = |r: &str| Card::new(r).unwrap();
    let player = vec![c("6"), c("5")];
    let mut game = BlackjackGame::new(Deck::new(6, 100, 1), default_rules(), None);
    let r = play_spot_round(&mut game, &strategy, &player, c("6"), Action::Double);
    assert_eq!(r.hands[0].cards.len(), 3);
    assert_eq!(r.hands[0].bet, 2);
    assert_eq!(r.bet, 20);
}

#[test]
fn spot_check_refuses_bad_input() {
    let err = |inp: SpotCheckInput| match run_spot_check(inp) {
        Ok(_) => panic!("expected an error"),
        Err(e) => e,
    };
    assert_eq!(err(spot_input(&["8", "X"], "6", "P", 5)), "unknown card rank");
    assert_eq!(err(spot_input(&["8", "8"], "Z", "P", 5)), "unknown card rank");
    assert_eq!(err(spot_input(&[], "6", "P", 5)), "spot check needs at least one player card");
    let mut inp = spot_input(&["8", "8"], "6", "P", 5);
    inp.num_decks = 0;
    assert_eq!(err(inp), "number of decks must be at least 1");
}

#[test]
fn spot_natural_pays_by_the_rule() {
    let mut inp = spot_input(&["A", "K"], "6", "S", 200);
    inp.rules.blackjack_pays = Some("6:5".to_string());
    let res = run_spot_check(inp).ok().unwrap();
    // a dealer 6 can never hold a natural, so every round pays 6:5
    assert_eq!(res.wins, 200);
    assert_eq!(res.total_winnings, 12 * 200);
    assert_eq!(res.total_bet, 10 * 200);
}

fn hi_lo(c: &Card) -> i64 {
    match c.value {
        2..=6 => 1,
        7..=9 => 0,
        _ => -1,
    }
}

#[test]
fn round_deals_from_the_shoe_tail_and_counts_every_card() {
    let strategy = Strategy::from_input(basic_strategy()).ok().unwrap();
    for seed in 0..50u64 {
        let mut game = new_game(seed, true);
        let mut twin = Deck::new(6, 75, seed);
        let r = game.play_game(&strategy);
        assert_eq!(r.player_cards[0], twin.deal_card());
        assert_eq!(r.player_cards[1], twin.deal_card());
        assert_eq!(r.dealer_cards[0], twin.deal_card());
        assert_eq!(r.dealer_cards[1], twin.deal_card());
        let mut seen: Vec<Card> = r.dealer_cards.clone();
        for h in &r.hands {
            seen.extend(h.cards.iter().copied());
        }
        assert_eq!(game.deck.remaining_cards(), 6 * 52 - seen.len());
        let running: i64 = seen.iter().map(hi_lo).sum();
        assert_eq!(game.counter.as_ref().unwrap().running_count(), running);
    }
}

#[test]
fn forced_split_of_a_non_pair_is_a_hit() {
    let strategy = Strategy::from_input(basic_strategy()).ok().unwrap();
    let c = |r: &str| Card::new(r).unwrap();
    let player = vec![c("9"), c("4")];
    for seed in 0..100u64 {
        let mut game = BlackjackGame::new(Deck::new(6, 100, seed), default_rules(), None);
        let r = play_spot_round(&mut game, &strategy, &player, c("6"), Action::Split);
        assert_eq!(r.hands.len(), 1);
        assert!(r.hands[0].cards.len() >= 3);
        assert_eq!(r.hands[0].cards[..2], player[..]);
    }
}
