//! Spot checks: many rounds from one forced starting position, each with a
//! fresh shoe, to measure one scenario's expected value.

use vstd::prelude::*;
use vstd::string::*;
use crate::counter::CardCounter;
use crate::deck::{Card, Deck, card_of, is_canonical, rank_from_symbol};
use crate::game::{
    counter_after, counter_state, lemma_round_extend, lemma_round_facts, lemma_round_start, round_link,
    tail_drawn,
    BlackjackGame, GameRules, HandRecord, Outcome, MAX_HANDS, all_canonical, calculate_value,
    cards_value, copy_cards, dealer_label_text, dealer_stops, headroom, is_natural, label_for,
    lemma_cards_bounds, lemma_push_card, payout, payout_tenths, settle_hands,
    split_allowed, stake_of_hands, total_net, total_stake,
};
use crate::sim::{CountingInput, RulesInput, build_counter, game_rules_spec, no_decks_error, to_game_rules};
use crate::strategy::{Action, HandLabel, Strategy, StrategyInput, action_of_code, input_error};

verus! {

/// Shoe penetration for spot checks: each round gets a fresh shoe.
pub const SPOT_PENETRATION: u8 = 100;

/// A spot check's parameters: the forced player cards, dealer up-card and
/// first action, as rank symbols and an action code.
pub struct SpotCheckInput {
    pub num_decks: u8,
    pub iterations: u32,
    pub seed: u64,
    pub strategy: StrategyInput,
    pub rules: RulesInput,
    pub player_cards: Vec<String>,
    pub dealer_card: String,
    pub forced_action: String,
    pub counting: Option<CountingInput>,
}

/// Aggregates of a spot check; amounts in tenths of the stake.
pub struct SpotCheckResult {
    pub total_games: u32,
    pub wins: u32,
    pub losses: u32,
    pub pushes: u32,
    pub total_winnings: i64,
    pub total_bet: i64,
}

/// One spot-check round: its hands, the dealer's cards, and the net result
/// and stake in tenths.
pub struct SpotRound {
    pub winnings: i64,
    pub bet: i64,
    pub hands: Vec<HandRecord>,
    pub dealer_cards: Vec<Card>,
    /// Every card drawn from the shoe this round, in order.
    pub drawn: Ghost<Seq<Card>>,
}

/// A played spot-check hand: canonical cards, stake 1 or 2 (2 only on a
/// doubled three-card hand), loss tag only on a bust.
pub open spec fn spot_hand_ok(h: HandRecord, cap: nat) -> bool {
    &&& all_canonical(h.cards@)
    &&& 1 <= h.cards@.len() <= cap
    &&& h.bet == 1 || h.bet == 2
    &&& h.bet == 2 ==> h.cards@.len() == 3
    &&& (h.result is None || (h.result == Some(Outcome::Lose) && cards_value(h.cards@).0 > 21))
}

pub open spec fn spot_hand_pending(h: HandRecord, cap: nat) -> bool {
    &&& all_canonical(h.cards@)
    &&& 1 <= h.cards@.len() <= cap
    &&& h.bet == 1
    &&& h.result is None
}

/// How a spot-check round settles: a player natural pays (or pushes against
/// a dealer natural) one stake; a dealer natural takes one stake; otherwise
/// every hand is settled against the dealer's final total.
pub open spec fn spot_settled(rules: GameRules, player: Seq<Card>, r: SpotRound) -> bool {
    if is_natural(player) {
        &&& r.bet == 10
        &&& r.winnings == if is_natural(r.dealer_cards@) { 0 } else { payout_tenths(rules.blackjack_pays) }
    } else if is_natural(r.dealer_cards@) {
        r.bet == 10 && r.winnings == -10
    } else {
        &&& dealer_stops(rules, r.dealer_cards@)
        &&& r.winnings == total_net(r.hands@, cards_value(r.dealer_cards@).0)
        &&& r.bet == total_stake(r.hands@)
    }
}

/// What one spot-check round guarantees: it settles by the rules, its hands
/// are well formed and descend from the forced cards, the dealer shows the
/// forced up-card, it stakes at least one bet, and the forced first action
/// was applied (a forced Double doubles only an untouched two-card hand).
pub open spec fn spot_round_ok(rules: GameRules, player: Seq<Card>, up: Card, forced: Action, r: SpotRound) -> bool {
    &&& spot_settled(rules, player, r)
    &&& 1 <= r.hands@.len() <= MAX_HANDS
    &&& forall|j: int| 0 <= j < r.hands@.len() ==> spot_hand_ok(#[trigger] r.hands@[j], player.len() + 24)
    &&& r.dealer_cards@.len() >= 2
    &&& all_canonical(r.dealer_cards@)
    &&& r.dealer_cards@[0] == up
    &&& 10 <= r.bet <= 20480
    &&& forced != Action::Split ==> r.hands@.len() == 1
    &&& forced != Action::Split ==> (r.hands@[0].bet == 2 <==> (forced == Action::Double && player.len() == 2
        && !is_natural(player) && !is_natural(r.dealer_cards@)))
    &&& (forced == Action::Double && player.len() != 2 && !is_natural(r.dealer_cards@.subrange(0, 2))) ==> {
        &&& r.hands@[0].bet == 1
        &&& r.hands@[0].cards@.len() == player.len() + 1
        &&& r.hands@[0].cards@.subrange(0, player.len() as int) == player
    }
    &&& (forced == Action::Split && !(player.len() == 2 && player[0].value == player[1].value)) ==> r.hands@.len() == 1
    &&& forced == Action::Split ==> forall|j: int| 0 <= j < r.hands@.len()
        ==> (#[trigger] r.hands@[j]).cards@[0].value == player[0].value
}

proof fn lemma_stake_at_least(hands: Seq<HandRecord>)
    requires
        forall|j: int| 0 <= j < hands.len() ==> (#[trigger] hands[j]).bet >= 1,
    ensures
        total_stake(hands) >= 10 * hands.len(),
    decreases hands.len(),
{
    if hands.len() > 0 {
        assert forall|j: int| 0 <= j < hands.drop_last().len() implies (#[trigger] hands.drop_last()[j]).bet >= 1 by {
            assert(hands.drop_last()[j] == hands[j]);
        }
        lemma_stake_at_least(hands.drop_last());
        assert(hands.last().bet >= 1);
    }
}

/// Hands split from a pair that is not aces never start with an ace, so no
/// ace pair can arise among them to be resplit.
pub proof fn lemma_split_lineage_has_no_aces(r: SpotRound, player: Seq<Card>)
    requires
        player.len() >= 1,
        is_canonical(player[0]),
        player[0].rank != crate::deck::Rank::Ace,
        forall|j: int| 0 <= j < r.hands@.len() ==> all_canonical((#[trigger] r.hands@[j]).cards@),
        forall|j: int| 0 <= j < r.hands@.len() ==> 1 <= (#[trigger] r.hands@[j]).cards@.len(),
        forall|j: int| 0 <= j < r.hands@.len() ==> (#[trigger] r.hands@[j]).cards@[0].value == player[0].value,
    ensures
        forall|j: int| 0 <= j < r.hands@.len() ==> (#[trigger] r.hands@[j]).cards@[0].rank != crate::deck::Rank::Ace,
{
    assert forall|j: int| 0 <= j < r.hands@.len() implies (#[trigger] r.hands@[j]).cards@[0].rank != crate::deck::Rank::Ace by {
        let h = r.hands@[j];
        assert(all_canonical(h.cards@));
        assert(1 <= h.cards@.len());
        assert(is_canonical(h.cards@[0]));
    }
}

/// Plays one spot-check round from forced player cards, dealer up-card and
/// first action; later decisions consult the strategy, resplits included.
#[verifier::rlimit(100)]
#[verifier::spinoff_prover]
pub fn play_spot_round(
    game: &mut BlackjackGame,
    strategy: &Strategy,
    player_cards: &Vec<Card>,
    dealer_up: Card,
    forced: Action,
) -> (r: SpotRound)
    requires
        old(game).wf(),
        all_canonical(player_cards@),
        1 <= player_cards@.len(),
        player_cards@.len() + 64 <= u32::MAX,
        is_canonical(dealer_up),
    ensures
        final(game).wf(),
        final(game).rules == old(game).rules,
        spot_round_ok(old(game).rules, player_cards@, dealer_up, forced, r),
        tail_drawn(old(game).deck@.cards, r.drawn@, final(game).deck@.cards),
        counter_state(final(game).counter) == counter_after(counter_state(old(game).counter), r.drawn@),
        r.drawn@.len() >= 1,
        r.dealer_cards@[1] == r.drawn@[0],
        r.dealer_cards@.subrange(2, r.dealer_cards@.len() as int)
            == r.drawn@.subrange(r.drawn@.len() - (r.dealer_cards@.len() - 2), r.drawn@.len() as int),
        -20480 <= r.winnings <= 20480,
{
    let ghost cap = player_cards@.len() + 24;
    let ghost shoe = game.deck@.cards;
    let ghost start = counter_state(game.counter);
    let ghost mut drawn: Seq<Card> = Seq::empty();
    proof {
        lemma_round_start(*game, start);
    }
    let hole = game.draw(Ghost(shoe), Ghost(start), Ghost(drawn));
    proof { drawn = drawn.push(hole); }
    let mut dealer_cards: Vec<Card> = Vec::new();
    dealer_cards.push(dealer_up);
    dealer_cards.push(hole);
    assert(all_canonical(dealer_cards@));
    assert(dealer_cards@.subrange(0, 2) =~= dealer_cards@);
    if game.is_blackjack(player_cards) {
        let mut hands: Vec<HandRecord> = Vec::new();
        hands.push(HandRecord { cards: copy_cards(player_cards), bet: 1, result: None });
        let winnings: i64 = if game.is_blackjack(&dealer_cards) { 0 } else { payout(game.rules.blackjack_pays) };
        proof {
            lemma_round_facts(*game, shoe, start, drawn);
            assert(dealer_cards@.subrange(2, 2) =~= drawn.subrange(1, 1));
        }
        return SpotRound { winnings, bet: 10, hands, dealer_cards, drawn: Ghost(drawn) };
    }
    if game.is_blackjack(&dealer_cards) {
        let mut hands: Vec<HandRecord> = Vec::new();
        hands.push(HandRecord { cards: copy_cards(player_cards), bet: 1, result: None });
        proof {
            lemma_round_facts(*game, shoe, start, drawn);
            assert(dealer_cards@.subrange(2, 2) =~= drawn.subrange(1, 1));
        }
        return SpotRound { winnings: -10, bet: 10, hands, dealer_cards, drawn: Ghost(drawn) };
    }
    let dealer_text = dealer_label_text(&dealer_up);
    let is_pair = player_cards.len() == 2 && player_cards[0].value == player_cards[1].value;
    let mut hands: Vec<HandRecord> = Vec::new();

    if forced == Action::Split && is_pair {
        {
            let kept = player_cards[0];
            let moved = player_cards[1];
            let c2 = game.draw(Ghost(shoe), Ghost(start), Ghost(drawn));
            proof { drawn = drawn.push(c2); }
            let mut new_cards: Vec<Card> = Vec::new();
            new_cards.push(moved);
            new_cards.push(c2);
            let c3 = game.draw(Ghost(shoe), Ghost(start), Ghost(drawn));
            proof { drawn = drawn.push(c3); }
            let mut first: Vec<Card> = Vec::new();
            first.push(kept);
            first.push(c3);
            hands.push(HandRecord { cards: first, bet: 1, result: None });
            hands.push(HandRecord { cards: new_cards, bet: 1, result: None });
        }
        let ghost pv = player_cards@[0].value;
        let mut i: usize = 0;
        while i < hands.len()
            invariant
                round_link(*game, shoe, start, drawn),
                drawn.len() >= 1,
                drawn[0] == hole,
                game.wf(),
                game.rules == old(game).rules,
                1 <= hands@.len() <= MAX_HANDS,
                i <= hands@.len(),
                cap == player_cards@.len() + 24,
                cap + 40 <= u32::MAX,
                forall|j: int| 0 <= j < i ==> spot_hand_ok(#[trigger] hands@[j], cap),
                forall|j: int| i <= j < hands@.len() ==> spot_hand_pending(#[trigger] hands@[j], cap),
                forall|j: int| 0 <= j < hands@.len() ==> (#[trigger] hands@[j]).cards@[0].value == pv,
            decreases MAX_HANDS - i,
        {
            let mut cards = copy_cards(&hands[i].cards);
            let mut bet: u8 = 1;
            let mut result: Option<Outcome> = None;
            assert(spot_hand_pending(hands@[i as int], cap));
            let (v0, _) = calculate_value(&cards);
            if v0 <= 21 {
                loop
                    invariant_except_break
                        bet == 1,
                        result is None,
                    invariant
                        round_link(*game, shoe, start, drawn),
                        drawn.len() >= 1,
                        drawn[0] == hole,
                        game.wf(),
                        game.rules == old(game).rules,
                        1 <= hands@.len() <= MAX_HANDS,
                        i < hands@.len(),
                        cap == player_cards@.len() + 24,
                        cap + 40 <= u32::MAX,
                        forall|j: int| 0 <= j < i ==> spot_hand_ok(#[trigger] hands@[j], cap),
                        forall|j: int| i < j < hands@.len() ==> spot_hand_pending(#[trigger] hands@[j], cap),
                        forall|j: int| 0 <= j < hands@.len() ==> (#[trigger] hands@[j]).cards@[0].value == pv,
                        all_canonical(cards@),
                        1 <= cards@.len() <= cap,
                        cards@[0].value == pv,
                    ensures
                        round_link(*game, shoe, start, drawn),
                        drawn.len() >= 1,
                        drawn[0] == hole,
                        game.wf(),
                        game.rules == old(game).rules,
                        1 <= hands@.len() <= MAX_HANDS,
                        i < hands@.len(),
                        forall|j: int| 0 <= j < i ==> spot_hand_ok(#[trigger] hands@[j], cap),
                        forall|j: int| i < j < hands@.len() ==> spot_hand_pending(#[trigger] hands@[j], cap),
                        forall|j: int| 0 <= j < hands@.len() ==> (#[trigger] hands@[j]).cards@[0].value == pv,
                        all_canonical(cards@),
                        1 <= cards@.len() <= cap,
                        cards@[0].value == pv,
                        bet == 1 || bet == 2,
                        bet == 2 ==> cards@.len() == 3,
                        result is None,
                    decreases MAX_HANDS - hands@.len(), headroom(cards@, 21),
                {
                    let (value, is_soft) = calculate_value(&cards);
                    if value >= 21 {
                        break;
                    }
                    proof {
                        lemma_cards_bounds(cards@);
                    }
                    let can_resplit = split_allowed(&game.rules, true, &cards) && hands.len() < MAX_HANDS;
                    let label = label_for(&cards, can_resplit, value, is_soft);
                    let count = game.count_range();
                    let can_double = game.rules.double_after_split && cards.len() == 2;
                    let action = strategy.decide_action(&label, dealer_text.as_str(), can_double, can_resplit, count);
                    let ghost before = cards@;
                    match action {
                        Action::Hit => {
                            let c = game.draw(Ghost(shoe), Ghost(start), Ghost(drawn));
                            proof { drawn = drawn.push(c); }
                            cards.push(c);
                            proof {
                                lemma_push_card(before, c);
                            }
                            let (v2, _) = calculate_value(&cards);
                            if v2 > 21 {
                                break;
                            }
                        },
                        Action::Double => {
                            if can_double {
                                bet = 2;
                                let c = game.draw(Ghost(shoe), Ghost(start), Ghost(drawn));
                                proof { drawn = drawn.push(c); }
                                cards.push(c);
                                proof {
                                    lemma_push_card(before, c);
                                }
                                break;
                            } else {
                                let c = game.draw(Ghost(shoe), Ghost(start), Ghost(drawn));
                                proof { drawn = drawn.push(c); }
                                cards.push(c);
                                proof {
                                    lemma_push_card(before, c);
                                }
                                let (v2, _) = calculate_value(&cards);
                                if v2 > 21 {
                                    break;
                                }
                            }
                        },
                        Action::Split => {
                            if can_resplit && cards.len() == 2 {
                                let kept = cards[0];
                                let moved = cards[1];
                                let c2 = game.draw(Ghost(shoe), Ghost(start), Ghost(drawn));
                                proof { drawn = drawn.push(c2); }
                                let mut new_cards: Vec<Card> = Vec::new();
                                new_cards.push(moved);
                                new_cards.push(c2);
                                let c3 = game.draw(Ghost(shoe), Ghost(start), Ghost(drawn));
                                proof { drawn = drawn.push(c3); }
                                let mut rest: Vec<Card> = Vec::new();
                                rest.push(kept);
                                rest.push(c3);
                                cards = rest;
                                let new_hand = HandRecord { cards: new_cards, bet, result: None };
                                assert(spot_hand_pending(new_hand, cap));
                                hands.push(new_hand);
                                assert(forall|j: int| i < j < hands@.len() ==> spot_hand_pending(#[trigger] hands@[j], cap));
                                assert(forall|j: int| 0 <= j < hands@.len() ==> (#[trigger] hands@[j]).cards@[0].value == pv);
                            } else {
                                let c = game.draw(Ghost(shoe), Ghost(start), Ghost(drawn));
                                proof { drawn = drawn.push(c); }
                                cards.push(c);
                                proof {
                                    lemma_push_card(before, c);
                                }
                                let (v2, _) = calculate_value(&cards);
                                if v2 > 21 {
                                    break;
                                }
                            }
                        },
                        Action::Stand => {
                            break;
                        },
                    }
                }
            }
            let (v_end, _) = calculate_value(&cards);
            if v_end > 21 {
                result = Some(Outcome::Lose);
            }
            hands.set(i, HandRecord { cards, bet, result });
            i = i + 1;
        }
    } else {
        let mut first = copy_cards(player_cards);
        let mut first_bet: u8 = 1;
        let hit_play = forced == Action::Hit || forced == Action::Split;
        if forced == Action::Double {
            if player_cards.len() == 2 {
                first_bet = 2;
            }
            let c = game.draw(Ghost(shoe), Ghost(start), Ghost(drawn));
            proof { drawn = drawn.push(c); }
            first.push(c);
            proof {
                lemma_push_card(player_cards@, c);
                assert(first@.subrange(0, player_cards@.len() as int) =~= player_cards@);
            }
        } else if hit_play {
            let c = game.draw(Ghost(shoe), Ghost(start), Ghost(drawn));
            proof { drawn = drawn.push(c); }
            first.push(c);
            proof {
                lemma_push_card(player_cards@, c);
                assert(first@.subrange(0, player_cards@.len() as int) =~= player_cards@);
            }
        }
        if hit_play {
            loop
                invariant
                    round_link(*game, shoe, start, drawn),
                    drawn.len() >= 1,
                    drawn[0] == hole,
                    game.wf(),
                    game.rules == old(game).rules,
                    all_canonical(first@),
                    1 <= first@.len() <= player_cards@.len() + 24,
                    player_cards@.len() + 64 <= u32::MAX,
                    first@.len() > player_cards@.len(),
                    first@.subrange(0, player_cards@.len() as int) == player_cards@,
                decreases headroom(first@, 21),
            {
                let (value, is_soft) = calculate_value(&first);
                if value >= 21 {
                    break;
                }
                proof {
                    lemma_cards_bounds(first@);
                }
                let label = if is_soft { HandLabel::Soft(value as u8) } else { HandLabel::Hard(value as u8) };
                let count = game.count_range();
                let action = strategy.decide_action(&label, dealer_text.as_str(), false, false, count);
                if action == Action::Stand {
                    break;
                }
                let ghost before = first@;
                let c = game.draw(Ghost(shoe), Ghost(start), Ghost(drawn));
                proof { drawn = drawn.push(c); }
                first.push(c);
                proof {
                    lemma_push_card(before, c);
                    assert(first@.subrange(0, player_cards@.len() as int) =~= before.subrange(0, player_cards@.len() as int));
                }
            }
        }
        let (v_end, _) = calculate_value(&first);
        let result = if v_end > 21 { Some(Outcome::Lose) } else { None };
        hands.push(HandRecord { cards: first, bet: first_bet, result });
    }

    assert(forall|j: int| 0 <= j < hands@.len() ==> crate::game::hand_settleable(#[trigger] hands@[j])) by {
        assert forall|j: int| 0 <= j < hands@.len() implies crate::game::hand_settleable(#[trigger] hands@[j]) by {
            assert(spot_hand_ok(hands@[j], cap));
        }
    }
    let ghost g_before = *game;
    let ghost drawn_before = drawn;
    let dealer_final = game.play_dealer(&dealer_cards);
    let ghost extra = dealer_final@.subrange(2, dealer_final@.len() as int);
    proof {
        lemma_round_extend(g_before, shoe, start, drawn_before, *game, extra);
        drawn = drawn_before + extra;
        lemma_round_facts(*game, shoe, start, drawn);
        assert(drawn[0] == drawn_before[0]);
        assert(dealer_final@.subrange(2, dealer_final@.len() as int)
            =~= drawn.subrange(drawn.len() - (dealer_final@.len() - 2), drawn.len() as int));
        assert(dealer_final@[1] == dealer_final@.subrange(0, 2)[1]);
    }
    let (dealer_value, _) = calculate_value(&dealer_final);
    let winnings = settle_hands(&hands, dealer_value);
    let stake = stake_of_hands(&hands);
    proof {
        assert forall|j: int| 0 <= j < hands@.len() implies (#[trigger] hands@[j]).bet >= 1 by {
            assert(spot_hand_ok(hands@[j], cap));
        }
        lemma_stake_at_least(hands@);
        assert(dealer_final@[0] == dealer_final@.subrange(0, 2)[0]);
        if dealer_final@.len() == 2 {
            assert(dealer_final@ =~= dealer_final@.subrange(0, 2));
        }
    }
    proof {
        assert(dealer_final@.subrange(0, 2) == dealer_cards@);
        if forced == Action::Split {
            assert forall|j: int| 0 <= j < hands@.len() implies (#[trigger] hands@[j]).cards@[0].value == player_cards@[0].value by {
                if !is_pair {
                    assert(hands@[j].cards@.subrange(0, player_cards@.len() as int)[0] == player_cards@[0]);
                }
            }
        }
    }
    SpotRound { winnings, bet: stake, hands, dealer_cards: dealer_final, drawn: Ghost(drawn) }
}

/// The cards a list of rank symbols names.
pub open spec fn named_cards(ranks: Seq<String>) -> Seq<Card> {
    Seq::new(ranks.len(), |i: int| card_of(rank_from_symbol(ranks[i]@)->Some_0))
}

pub open spec fn sum_winnings(rounds: Seq<SpotRound>) -> int
    decreases rounds.len(),
{
    if rounds.len() == 0 { 0 } else { sum_winnings(rounds.drop_last()) + rounds.last().winnings }
}

pub open spec fn sum_stakes(rounds: Seq<SpotRound>) -> int
    decreases rounds.len(),
{
    if rounds.len() == 0 { 0 } else { sum_stakes(rounds.drop_last()) + rounds.last().bet }
}

/// Rounds whose net result has the sign of `sign` (1, -1 or 0).
pub open spec fn count_sign(rounds: Seq<SpotRound>, sign: int) -> nat
    decreases rounds.len(),
{
    if rounds.len() == 0 {
        0
    } else {
        let w = rounds.last().winnings;
        let s = if w > 0 { 1int } else if w < 0 { -1int } else { 0int };
        count_sign(rounds.drop_last(), sign) + if s == sign { 1nat } else { 0nat }
    }
}

/// The aggregates are the tally of these rounds, each settled by the rules
/// from the forced player cards.
pub open spec fn spot_tally(
    rules: GameRules,
    player: Seq<Card>,
    up: Card,
    forced: Action,
    rounds: Seq<SpotRound>,
    res: SpotCheckResult,
) -> bool {
    &&& rounds.len() == res.total_games
    &&& forall|i: int| 0 <= i < rounds.len() ==> spot_round_ok(rules, player, up, forced, #[trigger] rounds[i])
    &&& res.total_winnings == sum_winnings(rounds)
    &&& res.total_bet == sum_stakes(rounds)
    &&& res.wins == count_sign(rounds, 1)
    &&& res.losses == count_sign(rounds, -1)
    &&& res.pushes == count_sign(rounds, 0)
}

pub open spec fn unknown_rank_error() -> Seq<char> {
    "unknown card rank"@
}

pub open spec fn no_player_cards_error() -> Seq<char> {
    "spot check needs at least one player card"@
}

pub open spec fn ranks_known(ranks: Seq<String>) -> bool {
    forall|i: int| 0 <= i < ranks.len() ==> rank_from_symbol((#[trigger] ranks[i])@) is Some
}

/// Why a spot check's input is refused, checked in this order: the
/// strategy, the deck count, the card symbols, an empty player hand.
pub open spec fn spot_input_error(input: SpotCheckInput) -> Option<Seq<char>> {
    if input_error(input.strategy) is Some {
        input_error(input.strategy)
    } else if input.num_decks == 0 {
        Some(no_decks_error())
    } else if !ranks_known(input.player_cards@) || rank_from_symbol(input.dealer_card@) is None {
        Some(unknown_rank_error())
    } else if input.player_cards@.len() == 0 {
        Some(no_player_cards_error())
    } else {
        None
    }
}

fn error_text(msg: &str) -> (r: String)
    ensures
        r@ == msg@,
{
    String::from_str(msg)
}

/// Plays `iterations` spot-check rounds, each on a fresh shoe seeded with
/// the next seed (wrapping), with the forced cards taken out of it first.
pub fn run_spot_check(input: SpotCheckInput) -> (r: Result<SpotCheckResult, String>)
    requires
        input.player_cards@.len() + 64 <= u32::MAX,
    ensures
        match r {
            Ok(res) => {
                &&& spot_input_error(input) is None
                &&& res.total_games == input.iterations
                &&& res.wins + res.losses + res.pushes == res.total_games
                &&& exists|rounds: Seq<SpotRound>| spot_tally(
                    game_rules_spec(input.rules),
                    named_cards(input.player_cards@),
                    card_of(rank_from_symbol(input.dealer_card@)->Some_0),
                    action_of_code(input.forced_action@),
                    rounds,
                    res,
                )
            },
            Err(e) => spot_input_error(input) == Some(e@),
        },
{
    let ghost snapshot = input;
    let strategy = match Strategy::from_input(input.strategy) {
        Ok(s) => s,
        Err(e) => {
            return Err(e);
        },
    };
    if input.num_decks == 0 {
        proof {
            reveal_strlit("number of decks must be at least 1");
        }
        return Err(error_text("number of decks must be at least 1"));
    }
    let mut player: Vec<Card> = Vec::new();
    let mut i: usize = 0;
    while i < input.player_cards.len()
        invariant
            i <= input.player_cards@.len(),
            input.player_cards == snapshot.player_cards,
            snapshot == input,
            input_error(snapshot.strategy) is None,
            snapshot.num_decks != 0,
            player@ =~= named_cards(snapshot.player_cards@).subrange(0, i as int),
            all_canonical(player@),
            forall|j: int| 0 <= j < i ==> rank_from_symbol((#[trigger] input.player_cards@[j])@) is Some,
        decreases input.player_cards@.len() - i,
    {
        match Card::new(input.player_cards[i].as_str()) {
            Some(c) => {
                player.push(c);
                assert(all_canonical(player@)) by {
                    assert forall|k: int| 0 <= k < player@.len() implies is_canonical(#[trigger] player@[k]) by {
                        if k < i {
                            assert(player@[k] == player@.drop_last()[k]);
                        }
                    }
                }
            },
            None => {
                proof {
                    reveal_strlit("unknown card rank");
                    assert(input.player_cards@[i as int] == snapshot.player_cards@[i as int]);
                    assert(rank_from_symbol(snapshot.player_cards@[i as int]@) is None);
                    assert(!ranks_known(snapshot.player_cards@));
                    assert(spot_input_error(snapshot) == Some(unknown_rank_error()));
                }
                return Err(error_text("unknown card rank"));
            },
        }
        i = i + 1;
    }
    let dealer_up = match Card::new(input.dealer_card.as_str()) {
        Some(c) => c,
        None => {
            proof {
                reveal_strlit("unknown card rank");
            }
            return Err(error_text("unknown card rank"));
        },
    };
    if player.len() == 0 {
        proof {
            reveal_strlit("spot check needs at least one player card");
        }
        return Err(error_text("spot check needs at least one player card"));
    }
    let rules = to_game_rules(&input.rules);
    let forced = Action::from_code(input.forced_action.as_str());
    let template = build_counter(input.counting);

    let mut seed: u64 = input.seed;
    let mut wins: u32 = 0;
    let mut losses: u32 = 0;
    let mut pushes: u32 = 0;
    let mut total_winnings: i64 = 0;
    let mut total_bet: i64 = 0;
    let mut k: u32 = 0;
    let ghost rounds: Seq<SpotRound> = Seq::empty();
    assert(player@ =~= named_cards(snapshot.player_cards@));
    while k < input.iterations
        invariant
            k <= input.iterations,
            rounds.len() == k,
            rules == game_rules_spec(snapshot.rules),
            player@ == named_cards(snapshot.player_cards@),
            dealer_up == card_of(rank_from_symbol(snapshot.dealer_card@)->Some_0),
            forced == action_of_code(snapshot.forced_action@),
            forall|t: int| 0 <= t < rounds.len() ==> spot_round_ok(rules, player@, dealer_up, forced, #[trigger] rounds[t]),
            total_winnings == sum_winnings(rounds),
            total_bet == sum_stakes(rounds),
            wins == count_sign(rounds, 1),
            losses == count_sign(rounds, -1),
            pushes == count_sign(rounds, 0),
            input.num_decks >= 1,
            all_canonical(player@),
            1 <= player@.len(),
            player@.len() + 64 <= u32::MAX,
            is_canonical(dealer_up),
            match template {
                Some(c) => c.wf(),
                None => true,
            },
            wins + losses + pushes == k,
            -20480 * k <= total_winnings <= 20480 * k,
            0 <= total_bet <= 20480 * k,
        decreases input.iterations - k,
    {
        let mut deck = Deck::new(input.num_decks, SPOT_PENETRATION, seed);
        seed = if seed == u64::MAX { 0 } else { seed + 1 };
        let mut j: usize = 0;
        while j < player.len()
            invariant
                deck.wf(),
                deck@.num_decks >= 1,
                j <= player@.len(),
            decreases player@.len() - j,
        {
            deck.remove_card_by_rank(player[j].rank);
            j = j + 1;
        }
        deck.remove_card_by_rank(dealer_up.rank);
        let counter: Option<CardCounter> = match &template {
            Some(c) => Some(c.fresh_copy()),
            None => None,
        };
        let mut game = BlackjackGame::new(deck, rules, counter);
        let round = play_spot_round(&mut game, &strategy, &player, dealer_up, forced);
        proof {
            let next = rounds.push(round);
            assert(next.drop_last() =~= rounds);
            rounds = next;
        }
        total_winnings = total_winnings + round.winnings;
        total_bet = total_bet + round.bet;
        if round.winnings > 0 {
            wins = wins + 1;
        } else if round.winnings < 0 {
            losses = losses + 1;
        } else {
            pushes = pushes + 1;
        }
        k = k + 1;
    }
    let res = SpotCheckResult {
        total_games: input.iterations,
        wins,
        losses,
        pushes,
        total_winnings,
        total_bet,
    };
    assert(spot_tally(game_rules_spec(snapshot.rules), named_cards(snapshot.player_cards@),
        card_of(rank_from_symbol(snapshot.dealer_card@)->Some_0), action_of_code(snapshot.forced_action@), rounds, res));
    Ok(res)
}

} // verus!
