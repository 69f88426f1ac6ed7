//! The simulation driver: runs rounds against one shoe and counter and
//! aggregates global, count-bucket and decision-cell statistics.

use vstd::prelude::*;
use vstd::string::*;
use crate::counter::{CardCounter, entry_views, resolved_weights};
use crate::deck::{Card, Deck, Rank, rank_symbol};
use crate::game::{
    BlackjackGame, BlackjackPayout, DealerStand, GameResult, GameRules, Outcome, MAX_HANDS,
    calculate_value, cards_value, round_settled,
};
use crate::strategy::{Action, Strategy, StrategyInput};
use crate::text::{decimal, push_decimal, str_eq};

verus! {

/// Default number of rounds between progress reports.
pub const DEFAULT_PROGRESS_INTERVAL: u32 = 10000;

/// Default shoe penetration threshold, in percent.
pub const DEFAULT_PENETRATION: u8 = 75;

/// House rules as given by the host; absent options take their defaults.
pub struct RulesInput {
    pub dealer_hits_soft_17: bool,
    pub dealer_stands_on: Option<String>,
    pub double_after_split: Option<bool>,
    pub allow_resplit: Option<bool>,
    pub resplit_aces: Option<bool>,
    pub blackjack_pays: Option<String>,
    pub penetration_threshold: Option<u8>,
}

/// Counting options: whether to count, the system's name, and a custom
/// rank-to-weight table used when the name is "Custom".
pub struct CountingInput {
    pub enabled: bool,
    pub system: Option<String>,
    pub custom_values: Option<Vec<(String, i32)>>,
}

/// A simulation run's parameters.
pub struct SimulationInput {
    pub num_decks: u8,
    pub iterations: u32,
    pub seed: u64,
    pub strategy: StrategyInput,
    pub rules: RulesInput,
    pub progress_interval: u32,
    pub counting: Option<CountingInput>,
}

/// One decision cell: rounds attributed to (player total, dealer card,
/// initial action, count bucket) and their results. Amounts in tenths of the stake.
pub struct CellStats {
    pub player_total: String,
    pub dealer_card: String,
    pub action: Action,
    pub count: i32,
    pub hands: u32,
    pub wins: u32,
    pub losses: u32,
    pub pushes: u32,
    pub total_winnings: i64,
    pub total_bet: i64,
}

/// Rounds seen and summed winnings (tenths) for one true-count bucket.
pub struct CountBucket {
    pub count: i32,
    pub hands: u32,
    pub ev_total: i64,
}

pub struct CountStats {
    pub total_hands: u32,
    pub buckets: Vec<CountBucket>,
}

/// Aggregates of a run; amounts in tenths of the stake.
pub struct SimulationResult {
    pub total_games: u32,
    pub wins: u32,
    pub losses: u32,
    pub pushes: u32,
    pub blackjacks: u32,
    pub total_winnings: i64,
    pub total_bet: i64,
    pub count_stats: Option<CountStats>,
    pub cell_stats: Vec<CellStats>,
}

pub open spec fn sum_cells(cells: Seq<CellStats>, f: spec_fn(CellStats) -> int) -> int
    decreases cells.len(),
{
    if cells.len() == 0 {
        0
    } else {
        sum_cells(cells.drop_last(), f) + f(cells.last())
    }
}

pub open spec fn cell_hands(c: CellStats) -> int {
    c.hands as int
}

pub open spec fn cell_wins(c: CellStats) -> int {
    c.wins as int
}

pub open spec fn cell_losses(c: CellStats) -> int {
    c.losses as int
}

pub open spec fn cell_pushes(c: CellStats) -> int {
    c.pushes as int
}

pub open spec fn cell_winnings(c: CellStats) -> int {
    c.total_winnings as int
}

pub open spec fn cell_bet(c: CellStats) -> int {
    c.total_bet as int
}

/// A cell's counters agree: wins, losses and pushes split its hands, and
/// its amounts are bounded by its hands (one round moves at most 20480
/// tenths: two stakes on each of `MAX_HANDS` hands).
pub open spec fn cell_ok(c: CellStats) -> bool {
    &&& c.wins + c.losses + c.pushes == c.hands
    &&& -20480 * c.hands <= c.total_winnings <= 20480 * c.hands
    &&& 0 <= c.total_bet <= 20480 * c.hands
}

pub proof fn lemma_sum_push(cells: Seq<CellStats>, c: CellStats, f: spec_fn(CellStats) -> int)
    ensures
        sum_cells(cells.push(c), f) == sum_cells(cells, f) + f(c),
{
    assert(cells.push(c).drop_last() =~= cells);
}

pub proof fn lemma_sum_update(cells: Seq<CellStats>, i: int, c: CellStats, f: spec_fn(CellStats) -> int)
    requires
        0 <= i < cells.len(),
    ensures
        sum_cells(cells.update(i, c), f) == sum_cells(cells, f) - f(cells[i]) + f(c),
    decreases cells.len(),
{
    let u = cells.update(i, c);
    if i == cells.len() - 1 {
        assert(u.drop_last() =~= cells.drop_last());
    } else {
        assert(u.drop_last() =~= cells.drop_last().update(i, c));
        lemma_sum_update(cells.drop_last(), i, c, f);
    }
}

pub proof fn lemma_sum_le(cells: Seq<CellStats>, i: int)
    requires
        0 <= i < cells.len(),
    ensures
        cells[i].hands <= sum_cells(cells, |c: CellStats| cell_hands(c)),
    decreases cells.len(),
{
    if i < cells.len() - 1 {
        lemma_sum_le(cells.drop_last(), i);
    }
    lemma_sum_nonneg(cells.drop_last());
}

pub proof fn lemma_sum_nonneg(cells: Seq<CellStats>)
    ensures
        sum_cells(cells, |c: CellStats| cell_hands(c)) >= 0,
    decreases cells.len(),
{
    if cells.len() > 0 {
        lemma_sum_nonneg(cells.drop_last());
    }
}

/// Text of a dealer card for cells and labels: "A", "10" or the value.
pub open spec fn dealer_card_text(c: Card) -> Seq<char> {
    if c.rank == Rank::Ace {
        seq!['A']
    } else if c.value == 10 {
        seq!['1', '0']
    } else {
        decimal(c.value as nat)
    }
}

/// Text of the dealt two-card hand for cells: "R,R" (rank symbols) for
/// two cards of equal value, else "S<total>" when soft, else "<total>".
pub open spec fn player_total_text(s: Seq<Card>) -> Seq<char> {
    if s.len() == 2 && s[0].value == s[1].value {
        rank_symbol(s[0].rank) + seq![','] + rank_symbol(s[1].rank)
    } else if cards_value(s).1 {
        seq!['S'] + decimal(cards_value(s).0)
    } else {
        decimal(cards_value(s).0)
    }
}

pub fn describe_player_total(cards: &[Card]) -> (r: String)
    requires
        cards@.len() <= u32::MAX,
    ensures
        r@ == player_total_text(cards@),
{
    let mut s = String::new();
    if cards.len() == 2 && cards[0].value == cards[1].value {
        s.append(cards[0].rank.symbol());
        proof {
            reveal_strlit(",");
        }
        s.append(",");
        s.append(cards[1].rank.symbol());
        assert(s@ =~= player_total_text(cards@));
        return s;
    }
    let (value, soft) = calculate_value(cards);
    if soft {
        proof {
            reveal_strlit("S");
        }
        s.append("S");
    }
    push_decimal(&mut s, value);
    assert(s@ =~= player_total_text(cards@));
    s
}

pub fn describe_dealer_card(card: &Card) -> (r: String)
    ensures
        r@ == dealer_card_text(*card),
{
    if card.rank == Rank::Ace {
        proof {
            reveal_strlit("A");
        }
        String::from_str("A")
    } else if card.value == 10 {
        proof {
            reveal_strlit("10");
        }
        String::from_str("10")
    } else {
        let mut s = String::new();
        push_decimal(&mut s, card.value as u64);
        assert(s@ =~= decimal(card.value as nat));
        s
    }
}

/// Rules from the host's options: dealer stand variant "17s" pins 17, else
/// "17"; payout "6:5" or "1:1", else 3:2; double after split and resplit
/// default to allowed, resplitting aces to not allowed.
pub open spec fn game_rules_spec(rules: RulesInput) -> GameRules {
    GameRules {
        dealer_hits_soft_17: rules.dealer_hits_soft_17,
        dealer_stands_on: match rules.dealer_stands_on {
            Some(v) => if v@ == "17s"@ { DealerStand::AllSeventeens } else { DealerStand::Seventeen },
            None => DealerStand::Seventeen,
        },
        double_after_split: match rules.double_after_split { Some(b) => b, None => true },
        allow_resplit: match rules.allow_resplit { Some(b) => b, None => true },
        resplit_aces: match rules.resplit_aces { Some(b) => b, None => false },
        blackjack_pays: match rules.blackjack_pays {
            Some(v) => if v@ == "6:5"@ {
                BlackjackPayout::SixToFive
            } else if v@ == "1:1"@ {
                BlackjackPayout::EvenMoney
            } else {
                BlackjackPayout::ThreeToTwo
            },
            None => BlackjackPayout::ThreeToTwo,
        },
    }
}

pub fn to_game_rules(rules: &RulesInput) -> (r: GameRules)
    ensures
        r == game_rules_spec(*rules),
{
    let dealer_stands_on = match &rules.dealer_stands_on {
        Some(v) => if str_eq(v.as_str(), "17s") { DealerStand::AllSeventeens } else { DealerStand::Seventeen },
        None => DealerStand::Seventeen,
    };
    let blackjack_pays = match &rules.blackjack_pays {
        Some(v) => if str_eq(v.as_str(), "6:5") {
            BlackjackPayout::SixToFive
        } else if str_eq(v.as_str(), "1:1") {
            BlackjackPayout::EvenMoney
        } else {
            BlackjackPayout::ThreeToTwo
        },
        None => BlackjackPayout::ThreeToTwo,
    };
    GameRules {
        dealer_hits_soft_17: rules.dealer_hits_soft_17,
        dealer_stands_on,
        double_after_split: match rules.double_after_split { Some(b) => b, None => true },
        allow_resplit: match rules.allow_resplit { Some(b) => b, None => true },
        resplit_aces: match rules.resplit_aces { Some(b) => b, None => false },
        blackjack_pays,
    }
}

/// A counter when counting is configured and enabled.
pub fn build_counter(config: Option<CountingInput>) -> (r: Option<CardCounter>)
    ensures
        r is Some == (match config { Some(c) => c.enabled, None => false }),
        match r {
            Some(c) => {
                &&& c.wf()
                &&& c@.running == 0
                &&& c@.weights == resolved_weights(
                    match config->Some_0.system { Some(s) => Some(s@), None => None },
                    match config->Some_0.custom_values { Some(v) => Some(entry_views(v@)), None => None },
                )
            },
            None => true,
        },
{
    match config {
        None => None,
        Some(cfg) => {
            if !cfg.enabled {
                None
            } else {
                Some(CardCounter::new(cfg.system, cfg.custom_values))
            }
        },
    }
}

pub open spec fn outcome_wins(o: Outcome) -> bool {
    o == Outcome::Win || o == Outcome::Blackjack
}

pub proof fn lemma_sum_prefix(cells: Seq<CellStats>, i: int)
    requires
        0 <= i <= cells.len(),
    ensures
        sum_cells(cells.subrange(0, i), |c: CellStats| cell_hands(c)) <= sum_cells(cells, |c: CellStats| cell_hands(c)),
    decreases cells.len() - i,
{
    if i < cells.len() {
        let sub = cells.subrange(0, i + 1);
        assert(sub.drop_last() =~= cells.subrange(0, i));
        lemma_sum_prefix(cells, i + 1);
    } else {
        assert(cells.subrange(0, i) =~= cells);
    }
}

pub open spec fn all_cells_ok(cells: Seq<CellStats>) -> bool {
    forall|i: int| 0 <= i < cells.len() ==> cell_ok(#[trigger] cells[i])
}

/// The decision cell a round is attributed to matches this key.
pub open spec fn cell_has_key(c: CellStats, player: Seq<char>, dealer: Seq<char>, action: Action, count: i32) -> bool {
    c.player_total@ == player && c.dealer_card@ == dealer && c.action == action && c.count == count
}

pub open spec fn same_cell_key(a: CellStats, b: CellStats) -> bool {
    a.player_total@ == b.player_total@ && a.dealer_card@ == b.dealer_card@ && a.action == b.action && a.count == b.count
}

/// No two decision cells share a key.
pub open spec fn cells_unique(cells: Seq<CellStats>) -> bool {
    forall|a: int, b: int| 0 <= a < b < cells.len() ==> !same_cell_key(#[trigger] cells[a], #[trigger] cells[b])
}

/// No two count buckets share a count.
pub open spec fn buckets_unique(bs: Seq<CountBucket>) -> bool {
    forall|a: int, b: int| 0 <= a < b < bs.len() ==> (#[trigger] bs[a]).count != (#[trigger] bs[b]).count
}

/// `new` is `old` with this round's outcome, winnings and stake added.
pub open spec fn cell_bumped(old: CellStats, new: CellStats, o: Outcome, winnings: i64, bet: i64) -> bool {
    &&& same_cell_key(old, new)
    &&& new.hands == old.hands + 1
    &&& new.wins == old.wins + win_inc(o)
    &&& new.losses == old.losses + loss_inc(o)
    &&& new.pushes == old.pushes + push_inc(o)
    &&& new.total_winnings == old.total_winnings + winnings
    &&& new.total_bet == old.total_bet + bet
}

/// The round is recorded in the cell with its key: that cell alone is
/// bumped when it exists, else a new cell holding just this round is appended.
pub open spec fn cell_recorded(
    old: Seq<CellStats>,
    new: Seq<CellStats>,
    player: Seq<char>,
    dealer: Seq<char>,
    action: Action,
    count: i32,
    o: Outcome,
    winnings: i64,
    bet: i64,
) -> bool {
    if exists|i: int| 0 <= i < old.len() && cell_has_key(#[trigger] old[i], player, dealer, action, count) {
        &&& new.len() == old.len()
        &&& exists|i: int| 0 <= i < old.len() && cell_has_key(#[trigger] old[i], player, dealer, action, count)
            && cell_bumped(old[i], new[i], o, winnings, bet)
            && forall|j: int| 0 <= j < old.len() && j != i ==> new[j] == old[j]
    } else {
        &&& new.len() == old.len() + 1
        &&& new.subrange(0, old.len() as int) == old
        &&& cell_has_key(new[old.len() as int], player, dealer, action, count)
        &&& new[old.len() as int].hands == 1
        &&& new[old.len() as int].wins == win_inc(o)
        &&& new[old.len() as int].losses == loss_inc(o)
        &&& new[old.len() as int].pushes == push_inc(o)
        &&& new[old.len() as int].total_winnings == winnings
        &&& new[old.len() as int].total_bet == bet
    }
}

pub open spec fn win_inc(o: Outcome) -> int {
    if outcome_wins(o) { 1 } else { 0 }
}

pub open spec fn loss_inc(o: Outcome) -> int {
    if o == Outcome::Lose { 1 } else { 0 }
}

pub open spec fn push_inc(o: Outcome) -> int {
    if !outcome_wins(o) && o != Outcome::Lose { 1 } else { 0 }
}

/// Adds a round to its decision cell, creating the cell when new. Rounds
/// without an initial action are not attributed.
pub fn track_cell_stats(result: &GameResult, count_key: i32, cell_stats: &mut Vec<CellStats>)
    requires
        all_cells_ok(old(cell_stats)@),
        cells_unique(old(cell_stats)@),
        sum_cells(old(cell_stats)@, |c: CellStats| cell_hands(c)) < u32::MAX,
        result.player_cards@.len() <= u32::MAX,
        -20480 <= result.winnings <= 20480,
        0 <= result.bet <= 20480,
    ensures
        all_cells_ok(final(cell_stats)@),
        cells_unique(final(cell_stats)@),
        final(cell_stats)@.len() <= old(cell_stats)@.len() + 1,
        result.initial_action is None ==> final(cell_stats)@ == old(cell_stats)@,
        result.initial_action is Some ==> cell_recorded(
            old(cell_stats)@,
            final(cell_stats)@,
            player_total_text(result.player_cards@),
            dealer_card_text(result.dealer_up_card),
            result.initial_action->Some_0,
            count_key,
            result.outcome,
            result.winnings,
            result.bet,
        ),
        result.initial_action is Some ==> forall|j: int| 0 <= j < old(cell_stats)@.len() && !cell_has_key(
            #[trigger] old(cell_stats)@[j],
            player_total_text(result.player_cards@),
            dealer_card_text(result.dealer_up_card),
            result.initial_action->Some_0,
            count_key,
        ) ==> final(cell_stats)@[j] == old(cell_stats)@[j],
        result.initial_action is Some ==> {
            &&& sum_cells(final(cell_stats)@, |c: CellStats| cell_hands(c))
                == sum_cells(old(cell_stats)@, |c: CellStats| cell_hands(c)) + 1
            &&& sum_cells(final(cell_stats)@, |c: CellStats| cell_wins(c))
                == sum_cells(old(cell_stats)@, |c: CellStats| cell_wins(c)) + win_inc(result.outcome)
            &&& sum_cells(final(cell_stats)@, |c: CellStats| cell_losses(c))
                == sum_cells(old(cell_stats)@, |c: CellStats| cell_losses(c)) + loss_inc(result.outcome)
            &&& sum_cells(final(cell_stats)@, |c: CellStats| cell_pushes(c))
                == sum_cells(old(cell_stats)@, |c: CellStats| cell_pushes(c)) + push_inc(result.outcome)
            &&& sum_cells(final(cell_stats)@, |c: CellStats| cell_winnings(c))
                == sum_cells(old(cell_stats)@, |c: CellStats| cell_winnings(c)) + result.winnings
            &&& sum_cells(final(cell_stats)@, |c: CellStats| cell_bet(c))
                == sum_cells(old(cell_stats)@, |c: CellStats| cell_bet(c)) + result.bet
            &&& exists|i: int| 0 <= i < final(cell_stats)@.len() && cell_has_key(
                #[trigger] final(cell_stats)@[i],
                player_total_text(result.player_cards@),
                dealer_card_text(result.dealer_up_card),
                result.initial_action->Some_0,
                count_key,
            )
        },
{
    let action = match result.initial_action {
        Some(a) => a,
        None => {
            return;
        },
    };
    let player_total = describe_player_total(&result.player_cards);
    let dealer_card = describe_dealer_card(&result.dealer_up_card);
    let w: u32 = if result.outcome == Outcome::Win || result.outcome == Outcome::Blackjack { 1 } else { 0 };
    let l: u32 = if result.outcome == Outcome::Lose { 1 } else { 0 };
    let p: u32 = if w == 0 && l == 0 { 1 } else { 0 };

    let mut i: usize = 0;
    while i < cell_stats.len()
        invariant
            i <= cell_stats@.len(),
            cell_stats@ == old(cell_stats)@,
            all_cells_ok(cell_stats@),
            cells_unique(cell_stats@),
            forall|k: int| 0 <= k < i ==> !cell_has_key(#[trigger] cell_stats@[k], player_total@, dealer_card@, action, count_key),
            sum_cells(cell_stats@, |c: CellStats| cell_hands(c)) < u32::MAX,
            -20480 <= result.winnings <= 20480,
            0 <= result.bet <= 20480,
            w as int == win_inc(result.outcome),
            l as int == loss_inc(result.outcome),
            p as int == push_inc(result.outcome),
            player_total@ == player_total_text(result.player_cards@),
            dealer_card@ == dealer_card_text(result.dealer_up_card),
            result.initial_action == Some(action),
        decreases cell_stats@.len() - i,
    {
        if str_eq(cell_stats[i].player_total.as_str(), player_total.as_str())
            && str_eq(cell_stats[i].dealer_card.as_str(), dealer_card.as_str())
            && cell_stats[i].action == action && cell_stats[i].count == count_key
        {
            proof {
                lemma_sum_le(cell_stats@, i as int);
                assert(cell_ok(cell_stats@[i as int]));
                let h = cell_stats@[i as int].hands as int;
                assert(20480 * h <= 20 * 1024 * 4294967295) by (nonlinear_arith)
                    requires
                        0 <= h <= 4294967295,
                        MAX_HANDS == 1024,
                ;
            }
            let old_cell = &cell_stats[i];
            assert(*old_cell == cell_stats@[i as int]);
            assert(old_cell.wins + old_cell.losses + old_cell.pushes == old_cell.hands);
            let updated = CellStats {
                player_total: old_cell.player_total.clone(),
                dealer_card: old_cell.dealer_card.clone(),
                action: old_cell.action,
                count: old_cell.count,
                hands: old_cell.hands + 1,
                wins: old_cell.wins + w,
                losses: old_cell.losses + l,
                pushes: old_cell.pushes + p,
                total_winnings: old_cell.total_winnings + result.winnings,
                total_bet: old_cell.total_bet + result.bet,
            };
            let ghost before = cell_stats@;
            cell_stats.set(i, updated);
            proof {
                lemma_sum_update(before, i as int, updated, |c: CellStats| cell_hands(c));
                lemma_sum_update(before, i as int, updated, |c: CellStats| cell_wins(c));
                lemma_sum_update(before, i as int, updated, |c: CellStats| cell_losses(c));
                lemma_sum_update(before, i as int, updated, |c: CellStats| cell_pushes(c));
                lemma_sum_update(before, i as int, updated, |c: CellStats| cell_winnings(c));
                lemma_sum_update(before, i as int, updated, |c: CellStats| cell_bet(c));
                assert forall|k: int| 0 <= k < cell_stats@.len() implies cell_ok(#[trigger] cell_stats@[k]) by {
                    if k != i {
                        assert(cell_stats@[k] == before[k]);
                    }
                }
                assert(cell_has_key(cell_stats@[i as int], player_total_text(result.player_cards@),
                    dealer_card_text(result.dealer_up_card), action, count_key));
                assert(same_cell_key(updated, before[i as int]));
                assert(cell_has_key(before[i as int], player_total@, dealer_card@, action, count_key));
                assert(cell_bumped(before[i as int], cell_stats@[i as int], result.outcome, result.winnings, result.bet));
                assert(forall|j: int| 0 <= j < before.len() && j != i ==> cell_stats@[j] == before[j]);
                assert forall|a: int, b: int| 0 <= a < b < cell_stats@.len() implies !same_cell_key(#[trigger] cell_stats@[a], #[trigger] cell_stats@[b]) by {
                    assert(!same_cell_key(before[a], before[b]));
                }
            }
            return;
        }
        i = i + 1;
    }
    let fresh = CellStats {
        player_total,
        dealer_card,
        action,
        count: count_key,
        hands: 1,
        wins: w,
        losses: l,
        pushes: p,
        total_winnings: result.winnings,
        total_bet: result.bet,
    };
    let ghost before = cell_stats@;
    cell_stats.push(fresh);
    proof {
        lemma_sum_push(before, fresh, |c: CellStats| cell_hands(c));
        lemma_sum_push(before, fresh, |c: CellStats| cell_wins(c));
        lemma_sum_push(before, fresh, |c: CellStats| cell_losses(c));
        lemma_sum_push(before, fresh, |c: CellStats| cell_pushes(c));
        lemma_sum_push(before, fresh, |c: CellStats| cell_winnings(c));
        lemma_sum_push(before, fresh, |c: CellStats| cell_bet(c));
        assert forall|k: int| 0 <= k < cell_stats@.len() implies cell_ok(#[trigger] cell_stats@[k]) by {
            if k < before.len() {
                assert(cell_stats@[k] == before[k]);
            }
        }
        assert(cell_has_key(cell_stats@[before.len() as int], player_total_text(result.player_cards@),
            dealer_card_text(result.dealer_up_card), action, count_key));
        assert(!exists|k: int| 0 <= k < before.len() && cell_has_key(#[trigger] before[k], player_total@, dealer_card@, action, count_key));
        assert(cell_stats@.subrange(0, before.len() as int) =~= before);
        assert forall|a: int, b: int| 0 <= a < b < cell_stats@.len() implies !same_cell_key(#[trigger] cell_stats@[a], #[trigger] cell_stats@[b]) by {
            if b == before.len() {
                assert(!cell_has_key(before[a], player_total@, dealer_card@, action, count_key));
            } else {
                assert(!same_cell_key(before[a], before[b]));
            }
        }
    }
}

pub open spec fn sum_buckets(buckets: Seq<CountBucket>, key: Option<i32>) -> int
    decreases buckets.len(),
{
    if buckets.len() == 0 {
        0
    } else {
        sum_buckets(buckets.drop_last(), key) + match key {
            Some(k) => if buckets.last().count == k { buckets.last().hands as int } else { 0 },
            None => buckets.last().hands as int,
        }
    }
}

proof fn lemma_buckets_update(bs: Seq<CountBucket>, i: int, b: CountBucket, key: Option<i32>)
    requires
        0 <= i < bs.len(),
        b.count == bs[i].count,
    ensures
        sum_buckets(bs.update(i, b), key) == sum_buckets(bs, key) + match key {
            Some(k) => if b.count == k { b.hands - bs[i].hands } else { 0 },
            None => b.hands - bs[i].hands,
        },
    decreases bs.len(),
{
    let u = bs.update(i, b);
    if i == bs.len() - 1 {
        assert(u.drop_last() =~= bs.drop_last());
    } else {
        assert(u.drop_last() =~= bs.drop_last().update(i, b));
        lemma_buckets_update(bs.drop_last(), i, b, key);
    }
}

proof fn lemma_bucket_le(bs: Seq<CountBucket>, i: int)
    requires
        0 <= i < bs.len(),
    ensures
        bs[i].hands <= sum_buckets(bs, None),
        sum_buckets(bs, None) >= 0,
    decreases bs.len(),
{
    if i < bs.len() - 1 {
        lemma_bucket_le(bs.drop_last(), i);
    } else {
        lemma_buckets_nonneg(bs.drop_last());
    }
}

proof fn lemma_buckets_nonneg(bs: Seq<CountBucket>)
    ensures
        sum_buckets(bs, None) >= 0,
    decreases bs.len(),
{
    if bs.len() > 0 {
        lemma_buckets_nonneg(bs.drop_last());
    }
}

/// Counts a round in its pre-round count bucket and adds its winnings there.
pub fn record_count_stats(stats: &mut CountStats, bucket: i32, winnings: i64)
    requires
        old(stats).total_hands < u32::MAX,
        buckets_unique(old(stats).buckets@),
        sum_buckets(old(stats).buckets@, None) == old(stats).total_hands,
        forall|i: int| 0 <= i < old(stats).buckets@.len() ==>
            -20480 * (#[trigger] old(stats).buckets@[i]).hands <= old(stats).buckets@[i].ev_total
                <= 20480 * old(stats).buckets@[i].hands,
        -20480 <= winnings <= 20480,
    ensures
        final(stats).total_hands == old(stats).total_hands + 1,
        buckets_unique(final(stats).buckets@),
        final(stats).buckets@.len() <= old(stats).buckets@.len() + 1,
        forall|j: int| 0 <= j < old(stats).buckets@.len() && (#[trigger] old(stats).buckets@[j]).count != bucket
            ==> final(stats).buckets@[j] == old(stats).buckets@[j],
        bucket_recorded(old(stats).buckets@, final(stats).buckets@, bucket, winnings),
        sum_buckets(final(stats).buckets@, None) == final(stats).total_hands,
        sum_buckets(final(stats).buckets@, Some(bucket)) == sum_buckets(old(stats).buckets@, Some(bucket)) + 1,
        forall|k: i32| k != bucket ==> sum_buckets(final(stats).buckets@, Some(k)) == sum_buckets(old(stats).buckets@, Some(k)),
        forall|i: int| 0 <= i < final(stats).buckets@.len() ==>
            -20480 * (#[trigger] final(stats).buckets@[i]).hands <= final(stats).buckets@[i].ev_total
                <= 20480 * final(stats).buckets@[i].hands,
{
    let mut i: usize = 0;
    while i < stats.buckets.len()
        invariant
            i <= stats.buckets@.len(),
            stats.buckets@ == old(stats).buckets@,
            stats.total_hands == old(stats).total_hands,
            stats.total_hands < u32::MAX,
            buckets_unique(stats.buckets@),
            forall|k: int| 0 <= k < i ==> (#[trigger] stats.buckets@[k]).count != bucket,
            sum_buckets(stats.buckets@, None) == stats.total_hands,
            forall|i: int| 0 <= i < stats.buckets@.len() ==>
                -20480 * (#[trigger] stats.buckets@[i]).hands <= stats.buckets@[i].ev_total
                    <= 20480 * stats.buckets@[i].hands,
            -20480 <= winnings <= 20480,
        decreases stats.buckets@.len() - i,
    {
        if stats.buckets[i].count == bucket {
            proof {
                lemma_bucket_le(stats.buckets@, i as int);
                assert(stats.buckets@[i as int].hands < u32::MAX);
                let h = stats.buckets@[i as int].hands as int;
                assert(20480 * h <= 20 * 1024 * 4294967295) by (nonlinear_arith)
                    requires
                        0 <= h <= 4294967295,
                        MAX_HANDS == 1024,
                ;
            }
            let updated = CountBucket {
                count: bucket,
                hands: stats.buckets[i].hands + 1,
                ev_total: stats.buckets[i].ev_total + winnings,
            };
            let ghost before = stats.buckets@;
            stats.buckets.set(i, updated);
            stats.total_hands = stats.total_hands + 1;
            proof {
                lemma_buckets_update(before, i as int, updated, None);
                lemma_buckets_update(before, i as int, updated, Some(bucket));
                assert forall|k: i32| k != bucket implies sum_buckets(stats.buckets@, Some(k)) == sum_buckets(before, Some(k)) by {
                    lemma_buckets_update(before, i as int, updated, Some(k));
                }
                assert forall|j: int| 0 <= j < stats.buckets@.len() implies
                    -20480 * (#[trigger] stats.buckets@[j]).hands <= stats.buckets@[j].ev_total
                        <= 20480 * stats.buckets@[j].hands by {
                    if j != i {
                        assert(stats.buckets@[j] == before[j]);
                    }
                }
                assert forall|a: int, b: int| 0 <= a < b < stats.buckets@.len() implies
                    (#[trigger] stats.buckets@[a]).count != (#[trigger] stats.buckets@[b]).count by {
                    assert(before[a].count != before[b].count);
                }
                assert(stats.buckets@[i as int].count == bucket);
                assert(forall|j: int| 0 <= j < before.len() && j != i ==> stats.buckets@[j] == before[j]);
                assert(before[i as int].count == bucket);
            }
            return;
        }
        i = i + 1;
    }
    let fresh = CountBucket { count: bucket, hands: 1, ev_total: winnings };
    let ghost before = stats.buckets@;
    stats.buckets.push(fresh);
    stats.total_hands = stats.total_hands + 1;
    proof {
        assert(stats.buckets@.drop_last() =~= before);
        assert forall|j: int| 0 <= j < stats.buckets@.len() implies
            -20480 * (#[trigger] stats.buckets@[j]).hands <= stats.buckets@[j].ev_total
                <= 20480 * stats.buckets@[j].hands by {
            if j < before.len() {
                assert(stats.buckets@[j] == before[j]);
                assert(before[j] == old(stats).buckets@[j]);
            } else {
                assert(stats.buckets@[j] == fresh);
            }
        }
        assert forall|a: int, b: int| 0 <= a < b < stats.buckets@.len() implies
            (#[trigger] stats.buckets@[a]).count != (#[trigger] stats.buckets@[b]).count by {
            if b == before.len() {
                assert(before[a].count != bucket);
            } else {
                assert(before[a].count != before[b].count);
            }
        }
        assert(stats.buckets@[before.len() as int].count == bucket);
        assert(forall|j: int| 0 <= j < before.len() && j != before.len() ==> stats.buckets@[j] == before[j]);
    }
}

/// A run in progress: the game, the strategy, and the aggregates so far.
/// The host plays it one round at a time, reporting progress in between.
pub struct Simulation {
    /// Each round played: its pre-round count bucket and its result.
    log: Ghost<Seq<(i32, GameResult)>>,
    game: BlackjackGame,
    strategy: Strategy,
    counting_enabled: bool,
    iterations: u32,
    progress_interval: u32,
    completed: u32,
    blackjacks: u32,
    count_stats: CountStats,
    cells: Vec<CellStats>,
}

/// Rounds of the log with pre-round bucket `k`.
pub open spec fn log_count(log: Seq<(i32, GameResult)>, k: i32) -> int
    decreases log.len(),
{
    if log.len() == 0 {
        0
    } else {
        log_count(log.drop_last(), k) + if log.last().0 == k { 1int } else { 0int }
    }
}

/// Summed winnings of the log's rounds with pre-round bucket `k`.
pub open spec fn log_sum(log: Seq<(i32, GameResult)>, k: i32) -> int
    decreases log.len(),
{
    if log.len() == 0 {
        0
    } else {
        log_sum(log.drop_last(), k) + if log.last().0 == k { log.last().1.winnings as int } else { 0int }
    }
}

/// Each bucket holds exactly the rounds of the log with its count, and
/// their summed winnings; a count with no bucket has no rounds.
pub open spec fn buckets_match(bs: Seq<CountBucket>, log: Seq<(i32, GameResult)>) -> bool {
    &&& forall|i: int| 0 <= i < bs.len() ==> (#[trigger] bs[i]).hands == log_count(log, bs[i].count)
        && bs[i].ev_total == log_sum(log, bs[i].count)
    &&& forall|k: i32| (forall|i: int| 0 <= i < bs.len() ==> (#[trigger] bs[i]).count != k)
        ==> #[trigger] log_count(log, k) == 0 && log_sum(log, k) == 0
}

/// `new` is `old` with one round of winnings `w` added to the bucket `b`,
/// which is created when missing; other buckets are unchanged.
pub open spec fn bucket_recorded(old: Seq<CountBucket>, new: Seq<CountBucket>, b: i32, w: i64) -> bool {
    exists|i: int| 0 <= i < new.len() && i <= old.len() && (#[trigger] new[i]).count == b
        && (forall|j: int| 0 <= j < old.len() && j != i ==> new[j] == old[j])
        && if i < old.len() {
            &&& new.len() == old.len()
            &&& old[i].count == b
            &&& new[i].hands == old[i].hands + 1
            &&& new[i].ev_total == old[i].ev_total + w
        } else {
            &&& new.len() == old.len() + 1
            &&& new[i].hands == 1
            &&& new[i].ev_total == w
            &&& forall|j: int| 0 <= j < old.len() ==> (#[trigger] old[j]).count != b
        }
}

proof fn lemma_log_push(log: Seq<(i32, GameResult)>, e: (i32, GameResult), k: i32)
    ensures
        log_count(log.push(e), k) == log_count(log, k) + if e.0 == k { 1int } else { 0int },
        log_sum(log.push(e), k) == log_sum(log, k) + if e.0 == k { e.1.winnings as int } else { 0int },
{
    assert(log.push(e).drop_last() =~= log);
}

proof fn lemma_buckets_log_step(old: Seq<CountBucket>, new: Seq<CountBucket>, log: Seq<(i32, GameResult)>, e: (i32, GameResult))
    requires
        buckets_match(old, log),
        bucket_recorded(old, new, e.0, e.1.winnings),
        buckets_unique(new),
    ensures
        buckets_match(new, log.push(e)),
{
    let b = e.0;
    let i = choose|i: int| 0 <= i < new.len() && i <= old.len() && (#[trigger] new[i]).count == b
        && (forall|j: int| 0 <= j < old.len() && j != i ==> new[j] == old[j])
        && if i < old.len() {
            &&& new.len() == old.len()
            &&& old[i].count == b
            &&& new[i].hands == old[i].hands + 1
            &&& new[i].ev_total == old[i].ev_total + e.1.winnings
        } else {
            &&& new.len() == old.len() + 1
            &&& new[i].hands == 1
            &&& new[i].ev_total == e.1.winnings
            &&& forall|j: int| 0 <= j < old.len() ==> (#[trigger] old[j]).count != b
        };
    let nl = log.push(e);
    assert forall|m: int| 0 <= m < new.len() implies (#[trigger] new[m]).hands == log_count(nl, new[m].count)
        && new[m].ev_total == log_sum(nl, new[m].count) by {
        lemma_log_push(log, e, new[m].count);
        if m == i {
            if i == old.len() {
                assert(forall|j: int| 0 <= j < old.len() ==> (#[trigger] old[j]).count != b);
                assert(log_count(log, b) == 0);
                assert(log_sum(log, b) == 0);
            } else {
                assert(old[i].hands == log_count(log, old[i].count));
                assert(old[i].ev_total == log_sum(log, old[i].count));
            }
        } else {
            if m < i {
                assert(new[m].count != new[i].count);
            } else {
                assert(new[i].count != new[m].count);
            }
            assert(m < old.len());
            assert(new[m] == old[m]);
            assert(old[m].hands == log_count(log, old[m].count));
        }
    }
    assert forall|k: i32| (forall|m: int| 0 <= m < new.len() ==> (#[trigger] new[m]).count != k)
        implies #[trigger] log_count(nl, k) == 0 && log_sum(nl, k) == 0 by {
        lemma_log_push(log, e, k);
        assert(new[i].count != k);
        assert forall|j: int| 0 <= j < old.len() implies (#[trigger] old[j]).count != k by {
            if j != i {
                assert(j < new.len());
                assert(new[j] == old[j]);
                assert(new[j].count != k);
            } else {
                assert(old[i].count == b);
            }
        }
    }
}

pub open spec fn buckets_ok(bs: Seq<CountBucket>) -> bool {
    forall|i: int| 0 <= i < bs.len() ==>
        -20480 * (#[trigger] bs[i]).hands <= bs[i].ev_total
            <= 20480 * bs[i].hands
}

/// The message for a shoe without decks.
pub open spec fn no_decks_error() -> Seq<char> {
    "number of decks must be at least 1"@
}

/// Sums over the decision cells: hands, wins, losses, pushes, winnings, stake.
fn cell_totals(cells: &Vec<CellStats>) -> (r: (u32, u32, u32, u32, i64, i64))
    requires
        all_cells_ok(cells@),
        sum_cells(cells@, |c: CellStats| cell_hands(c)) <= u32::MAX,
    ensures
        r.0 == sum_cells(cells@, |c: CellStats| cell_hands(c)),
        r.1 == sum_cells(cells@, |c: CellStats| cell_wins(c)),
        r.2 == sum_cells(cells@, |c: CellStats| cell_losses(c)),
        r.3 == sum_cells(cells@, |c: CellStats| cell_pushes(c)),
        r.4 == sum_cells(cells@, |c: CellStats| cell_winnings(c)),
        r.5 == sum_cells(cells@, |c: CellStats| cell_bet(c)),
        r.1 + r.2 + r.3 == r.0,
{
    proof {
        lemma_sum_nonneg(cells@);
        assert(cells@.subrange(0, 0) =~= Seq::<CellStats>::empty());
    }
    let ghost total = sum_cells(cells@, |c: CellStats| cell_hands(c));
    let mut hands: u64 = 0;
    let mut wins: u64 = 0;
    let mut losses: u64 = 0;
    let mut pushes: u64 = 0;
    let mut winnings: i64 = 0;
    let mut bet: i64 = 0;
    let mut i: usize = 0;
    while i < cells.len()
        invariant
            i <= cells@.len(),
            all_cells_ok(cells@),
            total == sum_cells(cells@, |c: CellStats| cell_hands(c)),
            total <= u32::MAX,
            hands == sum_cells(cells@.subrange(0, i as int), |c: CellStats| cell_hands(c)),
            wins == sum_cells(cells@.subrange(0, i as int), |c: CellStats| cell_wins(c)),
            losses == sum_cells(cells@.subrange(0, i as int), |c: CellStats| cell_losses(c)),
            pushes == sum_cells(cells@.subrange(0, i as int), |c: CellStats| cell_pushes(c)),
            winnings == sum_cells(cells@.subrange(0, i as int), |c: CellStats| cell_winnings(c)),
            bet == sum_cells(cells@.subrange(0, i as int), |c: CellStats| cell_bet(c)),
            wins + losses + pushes == hands,
            hands <= total,
            -20480 * hands <= winnings <= 20480 * hands,
            0 <= bet <= 20480 * hands,
        decreases cells@.len() - i,
    {
        let ghost sub = cells@.subrange(0, i as int + 1);
        proof {
            assert(sub.drop_last() =~= cells@.subrange(0, i as int));
            assert(sub.last() == cells@[i as int]);
            lemma_sum_prefix(cells@, i as int + 1);
            assert(cell_ok(cells@[i as int]));
        }
        let c = &cells[i];
        hands = hands + c.hands as u64;
        wins = wins + c.wins as u64;
        losses = losses + c.losses as u64;
        pushes = pushes + c.pushes as u64;
        proof {
            let h = hands as int;
            assert(20480 * h <= 20 * 1024 * 4294967295) by (nonlinear_arith)
                requires
                    0 <= h <= 4294967295,
                    MAX_HANDS == 1024,
            ;
        }
        assert(*c == cells@[i as int]);
        assert(-20480 * hands <= winnings + c.total_winnings <= 20480 * hands);
        assert(0 <= bet + c.total_bet <= 20480 * hands);
        winnings = winnings + c.total_winnings;
        bet = bet + c.total_bet;
        i = i + 1;
    }
    assert(cells@.subrange(0, cells@.len() as int) =~= cells@);
    (hands as u32, wins as u32, losses as u32, pushes as u32, winnings, bet)
}

impl Simulation {
    pub closed spec fn wf(&self) -> bool {
        &&& self.game.wf()
        &&& self.counting_enabled == self.game.counter is Some
        &&& self.completed <= self.iterations
        &&& self.progress_interval >= 1
        &&& self.blackjacks <= self.completed
        &&& all_cells_ok(self.cells@)
        &&& cells_unique(self.cells@)
        &&& buckets_unique(self.count_stats.buckets@)
        &&& self.blackjacks <= sum_cells(self.cells@, |c: CellStats| cell_wins(c))
        &&& self.log@.len() == self.completed
        &&& forall|i: int| 0 <= i < self.log@.len() ==> round_settled(self.game.rules, (#[trigger] self.log@[i]).1)
        &&& self.counting_enabled ==> buckets_match(self.count_stats.buckets@, self.log@)
        &&& sum_cells(self.cells@, |c: CellStats| cell_hands(c)) == self.completed
        &&& self.count_stats.total_hands == if self.counting_enabled { self.completed } else { 0 }
        &&& sum_buckets(self.count_stats.buckets@, None) == self.count_stats.total_hands
        &&& buckets_ok(self.count_stats.buckets@)
    }

    /// Rounds played so far.
    pub closed spec fn rounds_played(&self) -> nat {
        self.completed as nat
    }

    /// Rounds the run asks for.
    pub closed spec fn rounds_total(&self) -> nat {
        self.iterations as nat
    }

    /// Rounds between progress reports (at least 1).
    pub closed spec fn report_interval(&self) -> nat {
        self.progress_interval as nat
    }

    /// The house rules of the run.
    pub closed spec fn rules_in_play(&self) -> GameRules {
        self.game.rules
    }

    /// The decision cells so far.
    pub closed spec fn cell_view(&self) -> Seq<CellStats> {
        self.cells@
    }

    /// The count bucket the next round will be attributed to.
    pub closed spec fn pre_round_bucket(&self) -> i32 {
        self.game.bucket()
    }

    /// The rounds played so far, each with its pre-round count bucket.
    pub closed spec fn round_log(&self) -> Seq<(i32, GameResult)> {
        self.log@
    }

    /// Whether the run counts cards.
    pub closed spec fn counting(&self) -> bool {
        self.counting_enabled
    }

    /// Rounds seen per count bucket (only when counting).
    pub closed spec fn bucket_view(&self) -> Seq<CountBucket> {
        self.count_stats.buckets@
    }

    /// Sets up a run: reads the strategy, builds the shoe (penetration
    /// threshold 75% unless given), the rules and the counter.
    pub fn new(input: SimulationInput) -> (r: Result<Simulation, String>)
        ensures
            match r {
                Ok(s) => {
                    &&& crate::strategy::input_error(input.strategy) is None
                    &&& input.num_decks >= 1
                    &&& s.wf()
                    &&& s.rounds_played() == 0
                    &&& s.rounds_total() == input.iterations
                    &&& s.rules_in_play() == game_rules_spec(input.rules)
                    &&& s.counting() == (match input.counting { Some(c) => c.enabled, None => false })
                    &&& s.cell_view().len() == 0
                    &&& s.report_interval() == if input.progress_interval == 0 { 1 } else { input.progress_interval as nat }
                },
                Err(e) => if crate::strategy::input_error(input.strategy) is Some {
                    crate::strategy::input_error(input.strategy) == Some(e@)
                } else {
                    input.num_decks == 0 && e@ == no_decks_error()
                },
            },
    {
        let strategy = match Strategy::from_input(input.strategy) {
            Ok(s) => s,
            Err(e) => {
                return Err(e);
            },
        };
        if input.num_decks == 0 {
            proof {
                reveal_strlit("number of decks must be at least 1");
            }
            return Err(String::from_str("number of decks must be at least 1"));
        }
        let penetration = match input.rules.penetration_threshold {
            Some(p) => p,
            None => DEFAULT_PENETRATION,
        };
        let deck = Deck::new(input.num_decks, penetration, input.seed);
        let rules = to_game_rules(&input.rules);
        let counter = build_counter(input.counting);
        let counting_enabled = counter.is_some();
        let game = BlackjackGame::new(deck, rules, counter);
        let progress_interval = if input.progress_interval == 0 { 1 } else { input.progress_interval };
        let cells: Vec<CellStats> = Vec::new();
        let buckets: Vec<CountBucket> = Vec::new();
        assert(cells@ =~= Seq::<CellStats>::empty());
        assert(buckets@ =~= Seq::<CountBucket>::empty());
        assert(buckets_match(buckets@, Seq::empty()));
        Ok(Simulation {
            log: Ghost(Seq::empty()),
            game,
            strategy,
            counting_enabled,
            iterations: input.iterations,
            progress_interval,
            completed: 0,
            blackjacks: 0,
            count_stats: CountStats { total_hands: 0, buckets },
            cells,
        })
    }

    pub fn is_done(&self) -> (r: bool)
        ensures
            r == (self.rounds_played() >= self.rounds_total()),
    {
        self.completed >= self.iterations
    }

    pub fn rounds_completed(&self) -> (r: u32)
        ensures
            r == self.rounds_played(),
    {
        self.completed
    }

    pub fn iterations(&self) -> (r: u32)
        ensures
            r == self.rounds_total(),
    {
        self.iterations
    }

    /// A progress report is due after every `interval`-th round and after
    /// the last one.
    pub fn progress_due(&self) -> (r: bool)
        requires
            self.wf(),
        ensures
            r == (self.rounds_played() % self.report_interval() == 0
                || self.rounds_played() == self.rounds_total()),
    {
        self.completed % self.progress_interval == 0 || self.completed == self.iterations
    }

    /// Plays one round: the pre-round count bucket is taken before any card
    /// is drawn, then the round's result goes to the counters, the count
    /// bucket and its decision cell.
    pub fn play_round(&mut self) -> (r: GameResult)
        requires
            old(self).wf(),
            old(self).rounds_played() < old(self).rounds_total(),
        ensures
            final(self).wf(),
            final(self).rounds_played() == old(self).rounds_played() + 1,
            final(self).rounds_total() == old(self).rounds_total(),
            final(self).report_interval() == old(self).report_interval(),
            final(self).rules_in_play() == old(self).rules_in_play(),
            final(self).counting() == old(self).counting(),
            round_settled(old(self).rules_in_play(), r),
            r.initial_action is Some,
            sum_cells(final(self).cell_view(), |c: CellStats| cell_hands(c))
                == sum_cells(old(self).cell_view(), |c: CellStats| cell_hands(c)) + 1,
            sum_cells(final(self).cell_view(), |c: CellStats| cell_wins(c))
                == sum_cells(old(self).cell_view(), |c: CellStats| cell_wins(c)) + win_inc(r.outcome),
            sum_cells(final(self).cell_view(), |c: CellStats| cell_losses(c))
                == sum_cells(old(self).cell_view(), |c: CellStats| cell_losses(c)) + loss_inc(r.outcome),
            sum_cells(final(self).cell_view(), |c: CellStats| cell_pushes(c))
                == sum_cells(old(self).cell_view(), |c: CellStats| cell_pushes(c)) + push_inc(r.outcome),
            sum_cells(final(self).cell_view(), |c: CellStats| cell_winnings(c))
                == sum_cells(old(self).cell_view(), |c: CellStats| cell_winnings(c)) + r.winnings,
            sum_cells(final(self).cell_view(), |c: CellStats| cell_bet(c))
                == sum_cells(old(self).cell_view(), |c: CellStats| cell_bet(c)) + r.bet,
            exists|i: int| 0 <= i < final(self).cell_view().len() && cell_has_key(
                #[trigger] final(self).cell_view()[i],
                player_total_text(r.player_cards@),
                dealer_card_text(r.dealer_up_card),
                r.initial_action->Some_0,
                old(self).pre_round_bucket(),
            ),
            old(self).counting() ==> sum_buckets(final(self).bucket_view(), Some(old(self).pre_round_bucket()))
                == sum_buckets(old(self).bucket_view(), Some(old(self).pre_round_bucket())) + 1,
            old(self).counting() ==> bucket_recorded(old(self).bucket_view(), final(self).bucket_view(),
                old(self).pre_round_bucket(), r.winnings),
            final(self).round_log() == old(self).round_log().push((old(self).pre_round_bucket(), r)),
    {
        let bucket = self.game.count_range();
        let result = self.game.play_game(&self.strategy);
        if result.outcome == Outcome::Blackjack {
            self.blackjacks = self.blackjacks + 1;
        }
        let ghost old_buckets = self.count_stats.buckets@;
        if self.counting_enabled {
            record_count_stats(&mut self.count_stats, bucket, result.winnings);
            proof {
                lemma_buckets_log_step(old_buckets, self.count_stats.buckets@, self.log@, (bucket, result));
            }
        }
        let ghost entry = (bucket, result);
        self.log = Ghost(self.log@.push(entry));
        track_cell_stats(&result, bucket, &mut self.cells);
        assert(result.initial_action is Some);
        self.completed = self.completed + 1;
        result
    }

    /// Final aggregates, reconciled from the decision cells: games, wins,
    /// losses, pushes, winnings and stake are the cells' sums.
    pub fn finish(self) -> (r: SimulationResult)
        requires
            self.wf(),
            self.rounds_played() == self.rounds_total(),
        ensures
            r.total_games == self.rounds_total(),
            r.total_games == sum_cells(r.cell_stats@, |c: CellStats| cell_hands(c)),
            r.wins == sum_cells(r.cell_stats@, |c: CellStats| cell_wins(c)),
            r.losses == sum_cells(r.cell_stats@, |c: CellStats| cell_losses(c)),
            r.pushes == sum_cells(r.cell_stats@, |c: CellStats| cell_pushes(c)),
            r.total_winnings == sum_cells(r.cell_stats@, |c: CellStats| cell_winnings(c)),
            r.total_bet == sum_cells(r.cell_stats@, |c: CellStats| cell_bet(c)),
            r.wins + r.losses + r.pushes == r.total_games,
            r.blackjacks <= r.total_games,
            r.blackjacks <= r.wins,
            all_cells_ok(r.cell_stats@),
            cells_unique(r.cell_stats@),
            r.count_stats is Some == self.counting(),
            self.round_log().len() == r.total_games,
            forall|i: int| 0 <= i < self.round_log().len() ==> round_settled(self.rules_in_play(), (#[trigger] self.round_log()[i]).1),
            match r.count_stats {
                Some(cs) => buckets_match(cs.buckets@, self.round_log()),
                None => true,
            },
            match r.count_stats {
                Some(cs) => cs.total_hands == r.total_games && sum_buckets(cs.buckets@, None) == cs.total_hands
                    && buckets_unique(cs.buckets@),
                None => true,
            },
    {
        let (agg_hands, wins, losses, pushes, total_winnings, total_bet) = cell_totals(&self.cells);
        let total_games = if agg_hands > self.iterations { agg_hands } else { self.iterations };
        let counting_enabled = self.counting_enabled;
        SimulationResult {
            total_games,
            wins,
            losses,
            pushes,
            blackjacks: self.blackjacks,
            total_winnings,
            total_bet,
            count_stats: if counting_enabled { Some(self.count_stats) } else { None },
            cell_stats: self.cells,
        }
    }
}

/// Runs every round of a simulation and returns its reconciled aggregates.
pub fn run(input: SimulationInput) -> (r: Result<SimulationResult, String>)
    ensures
        match r {
            Ok(res) => {
                &&& crate::strategy::input_error(input.strategy) is None
                &&& input.num_decks >= 1
                &&& res.total_games == input.iterations
                &&& res.total_games == sum_cells(res.cell_stats@, |c: CellStats| cell_hands(c))
                &&& res.wins == sum_cells(res.cell_stats@, |c: CellStats| cell_wins(c))
                &&& res.losses == sum_cells(res.cell_stats@, |c: CellStats| cell_losses(c))
                &&& res.pushes == sum_cells(res.cell_stats@, |c: CellStats| cell_pushes(c))
                &&& res.total_winnings == sum_cells(res.cell_stats@, |c: CellStats| cell_winnings(c))
                &&& res.total_bet == sum_cells(res.cell_stats@, |c: CellStats| cell_bet(c))
                &&& all_cells_ok(res.cell_stats@)
                &&& cells_unique(res.cell_stats@)
                &&& res.blackjacks <= res.wins
                &&& res.count_stats is Some == (match input.counting { Some(c) => c.enabled, None => false })
                &&& exists|log: Seq<(i32, GameResult)>| {
                    &&& log.len() == input.iterations
                    &&& forall|i: int| 0 <= i < log.len() ==> round_settled(game_rules_spec(input.rules), (#[trigger] log[i]).1)
                    &&& match res.count_stats {
                        Some(cs) => buckets_match(cs.buckets@, log),
                        None => true,
                    }
                }
                &&& match res.count_stats {
                    Some(cs) => cs.total_hands == input.iterations && sum_buckets(cs.buckets@, None) == cs.total_hands
                        && buckets_unique(cs.buckets@),
                    None => true,
                }
            },
            Err(e) => if crate::strategy::input_error(input.strategy) is Some {
                crate::strategy::input_error(input.strategy) == Some(e@)
            } else {
                input.num_decks == 0 && e@ == no_decks_error()
            },
        },
{
    let ghost iterations = input.iterations;
    let ghost counting = match input.counting { Some(ref c) => c.enabled, None => false };
    let ghost rules = game_rules_spec(input.rules);
    let mut sim = match Simulation::new(input) {
        Ok(s) => s,
        Err(e) => {
            return Err(e);
        },
    };
    while !sim.is_done()
        invariant
            sim.wf(),
            sim.rounds_total() == iterations,
            sim.counting() == counting,
            sim.rules_in_play() == rules,
            sim.rounds_played() <= sim.rounds_total(),
        decreases sim.rounds_total() - sim.rounds_played(),
    {
        sim.play_round();
    }
    let ghost log = sim.round_log();
    let res = sim.finish();
    assert(log.len() == iterations);
    Ok(res)
}

} // verus!
