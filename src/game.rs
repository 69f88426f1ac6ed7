//! One round of blackjack: deal, player decisions, dealer play, settlement.
//!
//! Amounts are counted in tenths of the stake, so that 3:2 and 6:5 payouts
//! stay whole numbers.

use vstd::prelude::*;
use vstd::string::*;
use crate::counter::{CardCounter, CounterView, count_bucket, rank_index, saturate_i64, true_count_spec};
use crate::deck::{Card, Deck, Rank, fresh_shoe, is_canonical, reshuffle_due};
use crate::hand::best_total;
use crate::strategy::{Action, HandLabel, Strategy, decide_spec};
use crate::text::{decimal, push_decimal};

verus! {

/// Most hands one round may hold; a split requested beyond it is played as
/// a hit, like any split that is not allowed.
pub const MAX_HANDS: usize = 1024;

/// When the dealer stops drawing.
#[derive(Clone, Copy, Debug, PartialEq, Eq, Structural)]
pub enum DealerStand {
    /// "17": stand from 17, except on soft 17 when the dealer hits soft 17.
    Seventeen,
    /// "17s": stand on every 17.
    AllSeventeens,
}

/// What a player natural pays.
#[derive(Clone, Copy, Debug, PartialEq, Eq, Structural)]
pub enum BlackjackPayout {
    ThreeToTwo,
    SixToFive,
    EvenMoney,
}

/// House rules, fixed for a whole run.
#[derive(Clone, Copy, Debug, PartialEq, Eq, Structural)]
pub struct GameRules {
    pub dealer_hits_soft_17: bool,
    pub dealer_stands_on: DealerStand,
    pub double_after_split: bool,
    pub allow_resplit: bool,
    pub resplit_aces: bool,
    pub blackjack_pays: BlackjackPayout,
}

/// Round or hand outcome.
#[derive(Clone, Copy, Debug, PartialEq, Eq, Structural)]
pub enum Outcome {
    Win,
    Lose,
    Push,
    Blackjack,
}

/// One player hand: its cards, its stake multiplier (2 after doubling) and
/// the loss tag set when it busts.
pub struct HandRecord {
    pub cards: Vec<Card>,
    pub bet: u8,
    pub result: Option<Outcome>,
}

/// A finished round. `winnings` and `bet` are in tenths of the stake.
pub struct GameResult {
    pub outcome: Outcome,
    pub winnings: i64,
    pub bet: i64,
    pub player_cards: Vec<Card>,
    pub dealer_cards: Vec<Card>,
    pub dealer_up_card: Card,
    pub initial_action: Option<Action>,
    pub hands: Vec<HandRecord>,
    /// The shoe as the deal began, after any reshuffle.
    pub shoe: Ghost<Seq<Card>>,
    /// Every card drawn this round, in order.
    pub drawn: Ghost<Seq<Card>>,
}

/// The shoe, the rules and the optional counter one run plays with.
pub struct BlackjackGame {
    pub deck: Deck,
    pub rules: GameRules,
    pub counter: Option<CardCounter>,
}

/// Points of a card before demotion: aces 11, others their value.
pub open spec fn card_points(c: Card) -> nat {
    if c.rank == Rank::Ace { 11 } else { c.value as nat }
}

pub open spec fn cards_raw(s: Seq<Card>) -> nat
    decreases s.len(),
{
    if s.len() == 0 { 0 } else { cards_raw(s.drop_last()) + card_points(s.last()) }
}

pub open spec fn cards_aces(s: Seq<Card>) -> nat
    decreases s.len(),
{
    if s.len() == 0 {
        0
    } else {
        cards_aces(s.drop_last()) + if s.last().rank == Rank::Ace { 1nat } else { 0nat }
    }
}

/// Best total of a hand and whether an ace still counts 11.
pub open spec fn cards_value(s: Seq<Card>) -> (nat, bool) {
    best_total(cards_raw(s), cards_aces(s))
}

/// Total with every ace counted as 1.
pub open spec fn hard_floor(s: Seq<Card>) -> int {
    cards_raw(s) - 10 * cards_aces(s)
}

/// How far the hard total is below `cap` (0 at or above it).
pub open spec fn headroom(s: Seq<Card>, cap: int) -> nat {
    if hard_floor(s) < cap { (cap - hard_floor(s)) as nat } else { 0 }
}

pub open spec fn is_natural(s: Seq<Card>) -> bool {
    s.len() == 2 && cards_value(s).0 == 21
}

pub open spec fn all_canonical(s: Seq<Card>) -> bool {
    forall|k: int| 0 <= k < s.len() ==> is_canonical(#[trigger] s[k])
}

/// The total the dealer draws to.
pub open spec fn dealer_target(rules: GameRules, value: nat, soft: bool) -> nat {
    match rules.dealer_stands_on {
        DealerStand::AllSeventeens => 17,
        DealerStand::Seventeen => if rules.dealer_hits_soft_17 && soft && value == 17 { 18 } else { 17 },
    }
}

/// The dealer stops: busted, or at or above the target.
pub open spec fn dealer_stops(rules: GameRules, s: Seq<Card>) -> bool {
    let (v, soft) = cards_value(s);
    v > 21 || v >= dealer_target(rules, v, soft)
}

/// Natural payout in tenths of the stake.
pub open spec fn payout_tenths(p: BlackjackPayout) -> int {
    match p {
        BlackjackPayout::ThreeToTwo => 15,
        BlackjackPayout::SixToFive => 12,
        BlackjackPayout::EvenMoney => 10,
    }
}

/// Net result of one hand against the dealer's final total, in tenths: a
/// busted or loss-tagged hand loses its stake whatever the dealer holds.
pub open spec fn hand_net(h: HandRecord, dealer_value: nat) -> int {
    let stake = 10 * h.bet;
    let v = cards_value(h.cards@).0;
    if h.result == Some(Outcome::Lose) || v > 21 {
        -stake
    } else if dealer_value > 21 || v > dealer_value {
        stake
    } else if v < dealer_value {
        -stake
    } else {
        0
    }
}

pub open spec fn total_net(hands: Seq<HandRecord>, dealer_value: nat) -> int
    decreases hands.len(),
{
    if hands.len() == 0 {
        0
    } else {
        total_net(hands.drop_last(), dealer_value) + hand_net(hands.last(), dealer_value)
    }
}

/// Total stake over all hands, in tenths.
pub open spec fn total_stake(hands: Seq<HandRecord>) -> int
    decreases hands.len(),
{
    if hands.len() == 0 {
        0
    } else {
        total_stake(hands.drop_last()) + 10 * hands.last().bet
    }
}

pub open spec fn outcome_of_net(net: int) -> Outcome {
    if net > 0 {
        Outcome::Win
    } else if net < 0 {
        Outcome::Lose
    } else {
        Outcome::Push
    }
}

/// A settled hand: canonical cards, stake 1 or 2 (2 only on a doubled
/// three-card hand), loss tag only on a bust.
pub open spec fn hand_ok(h: HandRecord) -> bool {
    &&& all_canonical(h.cards@)
    &&& 2 <= h.cards@.len() <= 23
    &&& h.bet == 1 || h.bet == 2
    &&& h.bet == 2 ==> h.cards@.len() == 3
    &&& (h.result is None || (h.result == Some(Outcome::Lose) && cards_value(h.cards@).0 > 21))
    &&& (h.bet == 1 && cards_value(h.cards@).0 > 21) ==> h.result == Some(Outcome::Lose)
}

/// A hand waiting to be played: two canonical cards, stake 1, no tag.
pub open spec fn hand_pending(h: HandRecord) -> bool {
    &&& all_canonical(h.cards@)
    &&& h.cards@.len() == 2
    &&& h.bet == 1
    &&& h.result is None
}

/// How a finished round settles under the rules. A natural is judged on the
/// first two cards; the dealer then draws nothing.
pub open spec fn round_settled(rules: GameRules, r: GameResult) -> bool {
    if is_natural(r.player_cards@) {
        &&& r.hands@.len() == 1
        &&& r.hands@[0].cards@ == r.player_cards@
        &&& r.dealer_cards@.len() == 2
        &&& r.initial_action == Some(Action::Stand)
        &&& r.bet == 10
        &&& if is_natural(r.dealer_cards@) {
            r.outcome == Outcome::Push && r.winnings == 0
        } else {
            r.outcome == Outcome::Blackjack && r.winnings == payout_tenths(rules.blackjack_pays)
        }
    } else if is_natural(r.dealer_cards@.subrange(0, 2)) {
        &&& r.dealer_cards@.len() == 2
        &&& r.outcome == Outcome::Lose
        &&& r.winnings == -total_stake(r.hands@)
        &&& r.bet == total_stake(r.hands@)
    } else {
        &&& dealer_stops(rules, r.dealer_cards@)
        &&& r.winnings == total_net(r.hands@, cards_value(r.dealer_cards@).0)
        &&& r.bet == total_stake(r.hands@)
        &&& r.outcome == outcome_of_net(r.winnings as int)
    }
}

/// A pair the rules let the player split now: before any split always;
/// after one only when resplitting is allowed, and a pair of aces only when
/// resplitting aces is allowed as well.
pub open spec fn split_allowed_spec(rules: GameRules, has_split: bool, s: Seq<Card>) -> bool {
    &&& s.len() == 2
    &&& s[0].value == s[1].value
    &&& has_split ==> rules.allow_resplit
    &&& (has_split && s[0].rank == Rank::Ace) ==> rules.resplit_aces
}

/// Doubling: any two-card hand before a split (it is then the first hand);
/// after a split only with double-after-split.
pub open spec fn double_allowed_spec(rules: GameRules, has_split: bool, first: bool, s: Seq<Card>) -> bool {
    s.len() == 2 && if has_split { rules.double_after_split } else { first }
}

/// The strategy label of a hand: a pair when splitting is allowed, else
/// its soft or hard total.
pub open spec fn label_of(s: Seq<Card>, can_split: bool) -> HandLabel {
    let (v, soft) = cards_value(s);
    if can_split {
        HandLabel::Pair(if s[0].rank == Rank::Ace { 11 } else { s[0].value })
    } else if soft {
        HandLabel::Soft(v as u8)
    } else {
        HandLabel::Hard(v as u8)
    }
}

/// Dealer up-card label: "A" for an 11-point card, else its value.
pub open spec fn dealer_label(c: Card) -> Seq<char> {
    if c.value == 11 { seq!['A'] } else { decimal(c.value as nat) }
}


/// `drawn` was dealt, in order, from the tail of `before`, as far as
/// `before` reached; when it reached for all of them, `after` is what is left.
#[verifier::opaque]
pub open spec fn tail_drawn(before: Seq<Card>, drawn: Seq<Card>, after: Seq<Card>) -> bool {
    &&& forall|i: int| 0 <= i < drawn.len() && i < before.len() ==> drawn[i] == before[before.len() - 1 - i]
    &&& drawn.len() <= before.len() ==> after == before.subrange(0, before.len() - drawn.len())
}

/// Running count after showing `drawn` to a counter with these weights.
pub open spec fn running_after(running: i64, weights: Seq<i32>, drawn: Seq<Card>) -> i64
    decreases drawn.len(),
{
    if drawn.len() == 0 {
        running
    } else {
        saturate_i64(running_after(running, weights, drawn.drop_last()) + weights[rank_index(drawn.last().rank)])
    }
}

pub open spec fn counter_state(c: Option<CardCounter>) -> Option<CounterView> {
    match c {
        Some(k) => Some(k@),
        None => None,
    }
}

/// A counter's state after it has seen `drawn`.
pub open spec fn counter_after(s: Option<CounterView>, drawn: Seq<Card>) -> Option<CounterView> {
    match s {
        Some(v) => Some(CounterView { running: running_after(v.running, v.weights, drawn), weights: v.weights }),
        None => None,
    }
}

/// The counter as a round starts: reset when the shoe is reshuffled first.
pub open spec fn round_start_counter(g: BlackjackGame) -> Option<CounterView> {
    match counter_state(g.counter) {
        Some(v) => Some(if reshuffle_due(g.deck@) { CounterView { running: 0, weights: v.weights } } else { v }),
        None => None,
    }
}


/// The hand list while the player plays hand `idx`: earlier hands settled,
/// later ones waiting, every hand descended from the dealt pair's first
/// card value, and the split and double rules respected.
#[verifier::opaque]
pub open spec fn hands_inv(
    hs: Seq<HandRecord>,
    idx: int,
    rules: GameRules,
    pv: u8,
    player: Seq<Card>,
    first_split: bool,
) -> bool {
    &&& 1 <= hs.len() <= MAX_HANDS
    &&& 0 <= idx <= hs.len()
    &&& forall|j: int| 0 <= j < idx ==> hand_ok(#[trigger] hs[j])
    &&& forall|j: int| idx <= j < hs.len() ==> hand_pending(#[trigger] hs[j])
    &&& forall|j: int| 0 <= j < hs.len() ==> (#[trigger] hs[j]).cards@[0].value == pv
    &&& hs.len() > 1 ==> first_split
    &&& !rules.allow_resplit ==> hs.len() <= 2
    &&& (!rules.resplit_aces && player[0].rank == Rank::Ace) ==> hs.len() <= 2
    &&& (!rules.double_after_split && hs.len() > 1) ==> forall|j: int| 0 <= j < idx ==> (#[trigger] hs[j]).bet == 1
}

proof fn lemma_hands_start(h: HandRecord, rules: GameRules, player: Seq<Card>, first_split: bool)
    requires
        h.cards@ == player,
        player.len() == 2,
        all_canonical(player),
        h.bet == 1,
        h.result is None,
    ensures
        hands_inv(seq![h], 0, rules, player[0].value, player, first_split),
{
    reveal(hands_inv);
}

proof fn lemma_hands_read(hs: Seq<HandRecord>, idx: int, rules: GameRules, pv: u8, player: Seq<Card>, first_split: bool)
    requires
        hands_inv(hs, idx, rules, pv, player, first_split),
        idx < hs.len(),
    ensures
        hand_pending(hs[idx]),
        hs[idx].cards@[0].value == pv,
        1 <= hs.len() <= MAX_HANDS,
{
    reveal(hands_inv);
}

proof fn lemma_hands_split(
    hs: Seq<HandRecord>,
    idx: int,
    rules: GameRules,
    pv: u8,
    player: Seq<Card>,
    first_split: bool,
    cur: Seq<Card>,
    nh: HandRecord,
)
    requires
        hands_inv(hs, idx, rules, pv, player, first_split),
        idx < hs.len(),
        hs.len() < MAX_HANDS,
        hand_pending(nh),
        nh.cards@[0].value == pv,
        split_allowed_spec(rules, hs.len() > 1, cur),
        cur[0].value == pv,
        is_canonical(cur[0]),
        player.len() == 2,
        is_canonical(player[0]),
        pv == player[0].value,
        first_split == split_allowed_spec(rules, false, player),
        hs.len() == 1 ==> cur == player,
    ensures
        hands_inv(hs.push(nh), idx, rules, pv, player, first_split),
{
    reveal(hands_inv);
    let n = hs.push(nh);
    assert forall|j: int| 0 <= j < idx implies hand_ok(#[trigger] n[j]) by {
        assert(n[j] == hs[j]);
    }
    assert forall|j: int| idx <= j < n.len() implies hand_pending(#[trigger] n[j]) by {
        if j < hs.len() {
            assert(n[j] == hs[j]);
        }
    }
    assert forall|j: int| 0 <= j < n.len() implies (#[trigger] n[j]).cards@[0].value == pv by {
        if j < hs.len() {
            assert(n[j] == hs[j]);
        }
    }
    if hs.len() > 1 && player[0].rank == Rank::Ace {
        assert(cur[0].rank == Rank::Ace);
    }
    assert forall|j: int| 0 <= j < idx && !rules.double_after_split && n.len() > 1 implies (#[trigger] n[j]).bet == 1 by {
        assert(n[j] == hs[j]);
    }
}

proof fn lemma_hands_write(
    hs: Seq<HandRecord>,
    idx: int,
    rules: GameRules,
    pv: u8,
    player: Seq<Card>,
    first_split: bool,
    h: HandRecord,
)
    requires
        hands_inv(hs, idx, rules, pv, player, first_split),
        idx < hs.len(),
        hand_ok(h),
        h.cards@[0].value == pv,
        h.bet == 2 ==> (rules.double_after_split || hs.len() == 1),
    ensures
        hands_inv(hs.update(idx, h), idx + 1, rules, pv, player, first_split),
{
    reveal(hands_inv);
    let n = hs.update(idx, h);
    assert forall|j: int| 0 <= j < idx + 1 implies hand_ok(#[trigger] n[j]) by {
        if j < idx {
            assert(n[j] == hs[j]);
        }
    }
    assert forall|j: int| idx + 1 <= j < n.len() implies hand_pending(#[trigger] n[j]) by {
        assert(n[j] == hs[j]);
    }
    assert forall|j: int| 0 <= j < n.len() implies (#[trigger] n[j]).cards@[0].value == pv by {
        if j != idx {
            assert(n[j] == hs[j]);
        }
    }
    assert forall|j: int| 0 <= j < idx + 1 && !rules.double_after_split && n.len() > 1 implies (#[trigger] n[j]).bet == 1 by {
        if j < idx {
            assert(n[j] == hs[j]);
        }
    }
}

proof fn lemma_hands_done(hs: Seq<HandRecord>, rules: GameRules, pv: u8, player: Seq<Card>, first_split: bool)
    requires
        hands_inv(hs, hs.len() as int, rules, pv, player, first_split),
    ensures
        1 <= hs.len() <= MAX_HANDS,
        forall|j: int| 0 <= j < hs.len() ==> hand_ok(#[trigger] hs[j]),
        forall|j: int| 0 <= j < hs.len() ==> (#[trigger] hs[j]).cards@[0].value == pv,
        hs.len() > 1 ==> first_split,
        !rules.allow_resplit ==> hs.len() <= 2,
        (!rules.resplit_aces && player[0].rank == Rank::Ace) ==> hs.len() <= 2,
        (!rules.double_after_split && hs.len() > 1) ==> forall|j: int| 0 <= j < hs.len() ==> (#[trigger] hs[j]).bet == 1,
{
    reveal(hands_inv);
}

/// The first hand after the round's first action `a` (`fs`: the dealt pair
/// may be split): Stand keeps the dealt cards; Double doubles the stake and
/// draws one card; an honoured Split makes a second hand; a Hit, or a Split
/// that is not allowed, draws at least one card.
pub open spec fn first_effect(a: Action, fs: bool, cards: Seq<Card>, bet: u8, n_hands: nat, player: Seq<Card>) -> bool {
    match a {
        Action::Stand => cards == player && n_hands == 1,
        Action::Double => bet == 2 && cards.len() == 3 && cards.subrange(0, 2) == player && n_hands == 1,
        Action::Split => if fs {
            n_hands >= 2
        } else {
            cards.len() >= 3 && cards.subrange(0, 2) == player && n_hands == 1
        },
        Action::Hit => cards.len() >= 3 && cards.subrange(0, 2) == player && n_hands == 1,
    }
}

/// The round's hands show that its first action was carried out.
pub open spec fn action_carried_out(a: Action, fs: bool, hands: Seq<HandRecord>, player: Seq<Card>) -> bool {
    if a == Action::Split && fs {
        hands.len() >= 2
    } else {
        &&& hands.len() == 1
        &&& first_effect(a, fs, hands[0].cards@, hands[0].bet, 1, player)
    }
}

/// The shoe and counter of a round relate to the cards drawn so far.
#[verifier::opaque]
pub open spec fn round_link(g: BlackjackGame, shoe: Seq<Card>, start: Option<CounterView>, drawn: Seq<Card>) -> bool {
    &&& tail_drawn(shoe, drawn, g.deck@.cards)
    &&& counter_state(g.counter) == counter_after(start, drawn)
}

pub proof fn lemma_tail_compose(a: Seq<Card>, d1: Seq<Card>, b: Seq<Card>, d2: Seq<Card>, c: Seq<Card>)
    requires
        tail_drawn(a, d1, b),
        tail_drawn(b, d2, c),
    ensures
        tail_drawn(a, d1 + d2, c),
{
    reveal(tail_drawn);
    let d = d1 + d2;
    assert forall|i: int| 0 <= i < d.len() && i < a.len() implies d[i] == a[a.len() - 1 - i] by {
        if i >= d1.len() {
            let j = i - d1.len();
            assert(b == a.subrange(0, a.len() - d1.len()));
            assert(d2[j] == b[b.len() - 1 - j]);
        }
    }
    if d.len() <= a.len() {
        assert(b == a.subrange(0, a.len() - d1.len()));
        assert(c =~= a.subrange(0, a.len() - d.len()));
    }
}

pub proof fn lemma_counter_append(s: Option<CounterView>, d1: Seq<Card>, d2: Seq<Card>)
    ensures
        counter_after(s, d1 + d2) == counter_after(counter_after(s, d1), d2),
    decreases d2.len(),
{
    if let Some(v) = s {
        lemma_running_append(v.running, v.weights, d1, d2);
    }
}

pub proof fn lemma_running_append(r: i64, w: Seq<i32>, d1: Seq<Card>, d2: Seq<Card>)
    ensures
        running_after(r, w, d1 + d2) == running_after(running_after(r, w, d1), w, d2),
    decreases d2.len(),
{
    if d2.len() == 0 {
        assert(d1 + d2 =~= d1);
    } else {
        assert((d1 + d2).drop_last() =~= d1 + d2.drop_last());
        lemma_running_append(r, w, d1, d2.drop_last());
    }
}

pub proof fn lemma_tail_empty(a: Seq<Card>)
    ensures
        tail_drawn(a, Seq::empty(), a),
{
    reveal(tail_drawn);
    assert(a.subrange(0, a.len() as int) =~= a);
}

pub proof fn lemma_round_start(g: BlackjackGame, start: Option<CounterView>)
    requires
        counter_state(g.counter) == start,
    ensures
        round_link(g, g.deck@.cards, start, Seq::empty()),
{
    reveal(round_link);
    lemma_tail_empty(g.deck@.cards);
}

pub proof fn lemma_round_facts(g: BlackjackGame, shoe: Seq<Card>, start: Option<CounterView>, drawn: Seq<Card>)
    requires
        round_link(g, shoe, start, drawn),
    ensures
        tail_drawn(shoe, drawn, g.deck@.cards),
        counter_state(g.counter) == counter_after(start, drawn),
{
    reveal(round_link);
}

pub proof fn lemma_round_extend(g: BlackjackGame, shoe: Seq<Card>, start: Option<CounterView>, drawn: Seq<Card>, h: BlackjackGame, extra: Seq<Card>)
    requires
        round_link(g, shoe, start, drawn),
        tail_drawn(g.deck@.cards, extra, h.deck@.cards),
        counter_state(h.counter) == counter_after(counter_state(g.counter), extra),
    ensures
        round_link(h, shoe, start, drawn + extra),
{
    reveal(round_link);
    lemma_tail_compose(shoe, drawn, g.deck@.cards, extra, h.deck@.cards);
    lemma_counter_append(start, drawn, extra);
}

pub proof fn lemma_cards_bounds(s: Seq<Card>)
    ensures
        cards_aces(s) <= s.len(),
        11 * cards_aces(s) <= cards_raw(s),
        cards_raw(s) <= 255 * s.len(),
        hard_floor(s) >= cards_aces(s),
        cards_value(s).0 >= hard_floor(s),
        all_canonical(s) ==> hard_floor(s) >= s.len(),
    decreases s.len(),
{
    if s.len() > 0 {
        lemma_cards_bounds(s.drop_last());
        assert(all_canonical(s) ==> all_canonical(s.drop_last())) by {
            if all_canonical(s) {
                assert forall|k: int| 0 <= k < s.drop_last().len() implies is_canonical(#[trigger] s.drop_last()[k]) by {
                    assert(s.drop_last()[k] == s[k]);
                }
            }
        }
        if all_canonical(s) {
            assert(is_canonical(s[s.len() - 1]));
        }
    }
}

pub proof fn lemma_push_card(s: Seq<Card>, c: Card)
    requires
        is_canonical(c),
    ensures
        s.push(c).drop_last() == s,
        cards_raw(s.push(c)) == cards_raw(s) + card_points(c),
        hard_floor(s.push(c)) >= hard_floor(s) + 1,
        all_canonical(s) ==> all_canonical(s.push(c)),
{
    assert(s.push(c).drop_last() =~= s);
    if all_canonical(s) {
        assert forall|k: int| 0 <= k < s.push(c).len() implies is_canonical(#[trigger] s.push(c)[k]) by {
            if k < s.len() {
                assert(s.push(c)[k] == s[k]);
            }
        }
    }
}

/// Two canonical cards total at most 21.
pub proof fn lemma_two_cards(s: Seq<Card>)
    requires
        s.len() == 2,
        all_canonical(s),
    ensures
        cards_value(s).0 <= 21,
{
    let a = s[0];
    let b = s[1];
    assert(is_canonical(a));
    assert(is_canonical(b));
    let d = s.drop_last();
    assert(d.drop_last() =~= Seq::<Card>::empty());
    assert(d.last() == a);
    assert(cards_raw(d.drop_last()) == 0);
    assert(cards_aces(d.drop_last()) == 0);
    assert(cards_raw(d) == card_points(a));
    assert(cards_aces(d) == if a.rank == Rank::Ace { 1nat } else { 0nat });
    assert(cards_raw(s) == card_points(a) + card_points(b));
    assert(card_points(a) <= 11 && card_points(b) <= 11);
    if cards_raw(s) > 21 {
        assert(a.rank == Rank::Ace && b.rank == Rank::Ace);
        assert(cards_aces(s) == 2);
        assert(cards_value(s).0 == 12);
    }
}

/// After a split, a pair of aces may be split again only under the
/// resplit-aces rule, whatever the general resplit rule says.
pub proof fn lemma_no_ace_resplit(rules: GameRules, s: Seq<Card>)
    requires
        !rules.resplit_aces,
        s.len() == 2,
        s[0].rank == Rank::Ace,
    ensures
        !split_allowed_spec(rules, true, s),
{
}

/// A busted hand loses its stake whatever the dealer's total.
pub proof fn lemma_bust_loses(h: HandRecord, dealer_value: nat)
    requires
        cards_value(h.cards@).0 > 21,
    ensures
        hand_net(h, dealer_value) == -10 * h.bet,
{
}

pub fn copy_cards(cards: &[Card]) -> (r: Vec<Card>)
    ensures
        r@ == cards@,
{
    let mut out: Vec<Card> = Vec::new();
    let mut i: usize = 0;
    while i < cards.len()
        invariant
            i <= cards@.len(),
            out@ =~= cards@.subrange(0, i as int),
        decreases cards@.len() - i,
    {
        out.push(cards[i]);
        i = i + 1;
    }
    assert(out@ =~= cards@);
    out
}

/// Best total of the cards and whether it is soft.
pub fn calculate_value(cards: &[Card]) -> (r: (u64, bool))
    requires
        cards@.len() <= u32::MAX,
    ensures
        (r.0 as nat, r.1) == cards_value(cards@),
{
    let mut total: u64 = 0;
    let mut aces: u64 = 0;
    let mut i: usize = 0;
    while i < cards.len()
        invariant
            i <= cards@.len(),
            cards@.len() <= u32::MAX,
            total as nat == cards_raw(cards@.subrange(0, i as int)),
            aces as nat == cards_aces(cards@.subrange(0, i as int)),
            total <= 255 * i,
            aces <= i,
        decreases cards@.len() - i,
    {
        proof {
            let s = cards@.subrange(0, i as int + 1);
            assert(s.drop_last() =~= cards@.subrange(0, i as int));
        }
        if cards[i].rank == Rank::Ace {
            aces = aces + 1;
            total = total + 11;
        } else {
            total = total + cards[i].value as u64;
        }
        i = i + 1;
    }
    assert(cards@.subrange(0, cards@.len() as int) =~= cards@);
    proof {
        lemma_cards_bounds(cards@);
    }
    let ghost t0 = total as nat;
    let ghost a0 = aces as nat;
    while total > 21 && aces > 0
        invariant
            aces <= a0,
            total as nat + 10 * (a0 - aces) == t0,
            best_total(total as nat, aces as nat) == best_total(t0, a0),
            11 * a0 <= t0,
        decreases aces,
    {
        proof {
            crate::hand::lemma_demote_step(total as nat, aces as nat);
        }
        total = total - 10;
        aces = aces - 1;
    }
    (total, aces > 0)
}

pub fn dealer_label_text(card: &Card) -> (r: String)
    ensures
        r@ == dealer_label(*card),
{
    if card.value == 11 {
        proof {
            reveal_strlit("A");
        }
        String::from_str("A")
    } else {
        let mut s = String::new();
        push_decimal(&mut s, card.value as u64);
        assert(s@ =~= decimal(card.value as nat));
        s
    }
}

pub fn split_allowed(rules: &GameRules, has_split: bool, cards: &Vec<Card>) -> (r: bool)
    ensures
        r == split_allowed_spec(*rules, has_split, cards@),
{
    if cards.len() != 2 || cards[0].value != cards[1].value {
        return false;
    }
    if has_split {
        rules.allow_resplit && (cards[0].rank != Rank::Ace || rules.resplit_aces)
    } else {
        true
    }
}

pub fn label_for(cards: &Vec<Card>, can_split: bool, value: u64, soft: bool) -> (r: HandLabel)
    requires
        value < 21,
        (value as nat, soft) == cards_value(cards@),
        can_split ==> cards@.len() == 2,
    ensures
        r == label_of(cards@, can_split),
{
    if can_split {
        HandLabel::Pair(if cards[0].rank == Rank::Ace { 11 } else { cards[0].value })
    } else if soft {
        HandLabel::Soft(value as u8)
    } else {
        HandLabel::Hard(value as u8)
    }
}

pub fn payout(p: BlackjackPayout) -> (r: i64)
    ensures
        r == payout_tenths(p),
{
    match p {
        BlackjackPayout::ThreeToTwo => 15,
        BlackjackPayout::SixToFive => 12,
        BlackjackPayout::EvenMoney => 10,
    }
}

pub open spec fn hand_settleable(h: HandRecord) -> bool {
    h.cards@.len() <= u32::MAX && (h.bet == 1 || h.bet == 2)
}

fn hand_net_exec(h: &HandRecord, dealer_value: u64) -> (r: i64)
    requires
        hand_settleable(*h),
    ensures
        r == hand_net(*h, dealer_value as nat),
        -20 <= r <= 20,
{
    let stake: i64 = 10 * (h.bet as i64);
    let (v, _) = calculate_value(&h.cards);
    let tagged = match h.result {
        Some(Outcome::Lose) => true,
        _ => false,
    };
    if tagged || v > 21 {
        -stake
    } else if dealer_value > 21 || v > dealer_value {
        stake
    } else if v < dealer_value {
        -stake
    } else {
        0
    }
}

/// Net result of all hands against the dealer's total, in tenths.
pub fn settle_hands(hands: &Vec<HandRecord>, dealer_value: u64) -> (r: i64)
    requires
        hands@.len() <= MAX_HANDS,
        forall|j: int| 0 <= j < hands@.len() ==> hand_settleable(#[trigger] hands@[j]),
    ensures
        r == total_net(hands@, dealer_value as nat),
        -20 * hands@.len() <= r <= 20 * hands@.len(),
{
    let mut total: i64 = 0;
    let mut i: usize = 0;
    while i < hands.len()
        invariant
            i <= hands@.len(),
            hands@.len() <= MAX_HANDS,
            forall|j: int| 0 <= j < hands@.len() ==> hand_settleable(#[trigger] hands@[j]),
            total == total_net(hands@.subrange(0, i as int), dealer_value as nat),
            -20 * i <= total <= 20 * i,
        decreases hands@.len() - i,
    {
        proof {
            let s = hands@.subrange(0, i as int + 1);
            assert(s.drop_last() =~= hands@.subrange(0, i as int));
        }
        total = total + hand_net_exec(&hands[i], dealer_value);
        i = i + 1;
    }
    assert(hands@.subrange(0, hands@.len() as int) =~= hands@);
    total
}

/// Total stake of all hands, in tenths.
pub fn stake_of_hands(hands: &Vec<HandRecord>) -> (r: i64)
    requires
        hands@.len() <= MAX_HANDS,
        forall|j: int| 0 <= j < hands@.len() ==> hand_settleable(#[trigger] hands@[j]),
    ensures
        r == total_stake(hands@),
        0 <= r <= 20 * hands@.len(),
{
    let mut total: i64 = 0;
    let mut i: usize = 0;
    while i < hands.len()
        invariant
            i <= hands@.len(),
            hands@.len() <= MAX_HANDS,
            forall|j: int| 0 <= j < hands@.len() ==> hand_settleable(#[trigger] hands@[j]),
            total == total_stake(hands@.subrange(0, i as int)),
            0 <= total <= 20 * i,
        decreases hands@.len() - i,
    {
        proof {
            let s = hands@.subrange(0, i as int + 1);
            assert(s.drop_last() =~= hands@.subrange(0, i as int));
            assert(hand_settleable(hands@[i as int]));
        }
        total = total + 10 * (hands[i].bet as i64);
        i = i + 1;
    }
    assert(hands@.subrange(0, hands@.len() as int) =~= hands@);
    total
}

impl BlackjackGame {
    pub open spec fn wf(&self) -> bool {
        &&& self.deck.wf()
        &&& match self.counter {
            Some(c) => c.wf(),
            None => true,
        }
    }

    /// The pre-deal count bucket of this game's state.
    pub open spec fn bucket(&self) -> i32 {
        match self.counter {
            Some(c) => count_bucket(c@.running as int, self.deck@.cards.len(), self.deck@.num_decks),
            None => 0,
        }
    }

    pub fn new(deck: Deck, rules: GameRules, counter: Option<CardCounter>) -> (r: BlackjackGame)
        ensures
            r.deck == deck,
            r.rules == rules,
            r.counter == counter,
    {
        BlackjackGame { deck, rules, counter }
    }

    /// True count as `(numerator, denominator)`; 0 without a counter.
    pub fn get_true_count(&self) -> (r: (i128, u64))
        ensures
            r.1 > 0,
            match self.counter {
                Some(c) => (r.0 as int, r.1 as nat) == true_count_spec(
                    c@.running as int,
                    self.deck@.cards.len(),
                    self.deck@.num_decks,
                ),
                None => r.0 == 0,
            },
    {
        match &self.counter {
            Some(counter) => counter.true_count(self.deck.remaining_cards(), self.deck.num_decks()),
            None => (0, 1),
        }
    }

    pub fn count_range(&self) -> (r: i32)
        ensures
            r == self.bucket(),
    {
        match &self.counter {
            Some(counter) => counter.count_range(self.deck.remaining_cards(), self.deck.num_decks()),
            None => 0,
        }
    }

    /// Deals one card and shows it to the counter.
    pub fn deal_card(&mut self) -> (r: Card)
        requires
            old(self).wf(),
        ensures
            final(self).wf(),
            is_canonical(r),
            final(self).rules == old(self).rules,
            final(self).counter is Some == old(self).counter is Some,
            final(self).deck@.num_decks == old(self).deck@.num_decks,
            final(self).deck@.threshold == old(self).deck@.threshold,
            old(self).deck@.cards.len() > 0 ==> r == old(self).deck@.cards.last(),
            old(self).deck@.cards.len() == 0 ==> final(self).deck@.cards.push(r).to_multiset()
                == fresh_shoe(old(self).deck@.num_decks).to_multiset(),
            tail_drawn(old(self).deck@.cards, seq![r], final(self).deck@.cards),
            counter_state(final(self).counter) == counter_after(counter_state(old(self).counter), seq![r]),
    {
        let card = self.deck.deal_card();
        match &mut self.counter {
            Some(counter) => counter.update(&card),
            None => {},
        }
        proof {
            assert(seq![card].drop_last() =~= Seq::<Card>::empty());
            if let Some(c0) = old(self).counter {
                let v = c0@;
                assert(running_after(v.running, v.weights, seq![card].drop_last()) == v.running);
                assert(running_after(v.running, v.weights, seq![card])
                    == saturate_i64(v.running + v.weights[rank_index(card.rank)]));
            }
            reveal(tail_drawn);
            if old(self).deck@.cards.len() > 0 {
                assert(old(self).deck@.cards.drop_last() =~= old(self).deck@.cards.subrange(0, old(self).deck@.cards.len() - 1));
            }
        }
        card
    }

    pub fn calculate_hand_value(&self, cards: &[Card]) -> (r: (u64, bool))
        requires
            cards@.len() <= u32::MAX,
        ensures
            (r.0 as nat, r.1) == cards_value(cards@),
    {
        calculate_value(cards)
    }

    pub fn is_blackjack(&self, cards: &[Card]) -> (r: bool)
        requires
            cards@.len() <= u32::MAX,
        ensures
            r == is_natural(cards@),
    {
        cards.len() == 2 && calculate_value(cards).0 == 21
    }

    /// Two cards of equal value.
    pub fn can_split(&self, cards: &[Card]) -> (r: bool)
        ensures
            r == (cards@.len() == 2 && cards@[0].value == cards@[1].value),
    {
        cards.len() == 2 && cards[0].value == cards[1].value
    }

    /// Draws for the dealer until `dealer_stops`.
    pub fn play_dealer(&mut self, dealer_cards: &[Card]) -> (r: Vec<Card>)
        requires
            old(self).wf(),
            dealer_cards@.len() + 32 <= u32::MAX,
        ensures
            final(self).wf(),
            final(self).rules == old(self).rules,
            final(self).counter is Some == old(self).counter is Some,
            final(self).deck@.num_decks == old(self).deck@.num_decks,
            final(self).deck@.threshold == old(self).deck@.threshold,
            r@.len() >= dealer_cards@.len(),
            r@.len() <= dealer_cards@.len() + 18,
            r@.subrange(0, dealer_cards@.len() as int) == dealer_cards@,
            dealer_stops(final(self).rules, r@),
            forall|k: int| dealer_cards@.len() <= k < r@.len() ==> !dealer_stops(old(self).rules, #[trigger] r@.subrange(0, k)),
            all_canonical(dealer_cards@) ==> all_canonical(r@),
            tail_drawn(old(self).deck@.cards, r@.subrange(dealer_cards@.len() as int, r@.len() as int), final(self).deck@.cards),
            counter_state(final(self).counter) == counter_after(
                counter_state(old(self).counter),
                r@.subrange(dealer_cards@.len() as int, r@.len() as int),
            ),
    {
        let mut hand = copy_cards(dealer_cards);
        let ghost start = hand@;
        let ghost deck0 = self.deck@.cards;
        let ghost counter0 = counter_state(self.counter);
        proof {
            assert(hand@.subrange(start.len() as int, hand@.len() as int) =~= Seq::<Card>::empty());
            lemma_tail_empty(deck0);
        }
        proof {
            lemma_cards_bounds(hand@);
        }
        loop
            invariant
                self.wf(),
                self.rules == old(self).rules,
                self.counter is Some == old(self).counter is Some,
                self.deck@.num_decks == old(self).deck@.num_decks,
                self.deck@.threshold == old(self).deck@.threshold,
                start == dealer_cards@,
                start.len() + 32 <= u32::MAX,
                hand@.len() >= start.len(),
                hand@.subrange(0, start.len() as int) == start,
                hand@.len() <= start.len() + 18,
                hard_floor(hand@) >= hard_floor(start) + (hand@.len() - start.len()),
                hard_floor(start) >= 0,
                forall|k: int| start.len() <= k < hand@.len() ==> !dealer_stops(self.rules, #[trigger] hand@.subrange(0, k)),
                all_canonical(start) ==> all_canonical(hand@),
                deck0 == old(self).deck@.cards,
                counter0 == counter_state(old(self).counter),
                tail_drawn(deck0, hand@.subrange(start.len() as int, hand@.len() as int), self.deck@.cards),
                counter_state(self.counter) == counter_after(counter0, hand@.subrange(start.len() as int, hand@.len() as int)),
            ensures
                self.wf(),
                self.rules == old(self).rules,
                self.counter is Some == old(self).counter is Some,
                self.deck@.num_decks == old(self).deck@.num_decks,
                self.deck@.threshold == old(self).deck@.threshold,
                hand@.len() >= start.len(),
                hand@.subrange(0, start.len() as int) == start,
                hand@.len() <= start.len() + 18,
                forall|k: int| start.len() <= k < hand@.len() ==> !dealer_stops(self.rules, #[trigger] hand@.subrange(0, k)),
                all_canonical(start) ==> all_canonical(hand@),
                dealer_stops(self.rules, hand@),
                deck0 == old(self).deck@.cards,
                counter0 == counter_state(old(self).counter),
                tail_drawn(deck0, hand@.subrange(start.len() as int, hand@.len() as int), self.deck@.cards),
                counter_state(self.counter) == counter_after(counter0, hand@.subrange(start.len() as int, hand@.len() as int)),

            decreases headroom(hand@, 18),
        {
            let (value, is_soft) = calculate_value(&hand);
            if value > 21 {
                break;
            }
            let stand_value: u64 = match self.rules.dealer_stands_on {
                DealerStand::AllSeventeens => 17,
                DealerStand::Seventeen => {
                    if self.rules.dealer_hits_soft_17 && is_soft && value == 17 { 18 } else { 17 }
                },
            };
            if value >= stand_value {
                break;
            }
            proof {
                lemma_cards_bounds(hand@);
                assert(hand@.subrange(0, hand@.len() as int) =~= hand@);
            }
            let ghost before = hand@;
            let ghost deck_before = self.deck@.cards;
            let card = self.deal_card();
            hand.push(card);
            proof {
                let e0 = before.subrange(start.len() as int, before.len() as int);
                assert(hand@.subrange(start.len() as int, hand@.len() as int) =~= e0 + seq![card]);
                lemma_tail_compose(deck0, e0, deck_before, seq![card], self.deck@.cards);
                lemma_counter_append(counter0, e0, seq![card]);
                lemma_push_card(before, card);
                assert forall|k: int| start.len() <= k < hand@.len() implies !dealer_stops(self.rules, #[trigger] hand@.subrange(0, k)) by {
                    if k < before.len() {
                        assert(hand@.subrange(0, k) =~= before.subrange(0, k));
                    } else {
                        assert(hand@.subrange(0, k) =~= before);
                    }
                }
                assert(hand@.subrange(0, start.len() as int) =~= before.subrange(0, start.len() as int));
            }
        }
        hand
    }
    /// Deals one card of the round, keeping track of the cards drawn.
    pub(crate) fn draw(&mut self, shoe: Ghost<Seq<Card>>, start: Ghost<Option<CounterView>>, drawn: Ghost<Seq<Card>>) -> (r: Card)
        requires
            old(self).wf(),
            round_link(*old(self), shoe@, start@, drawn@),
        ensures
            final(self).wf(),
            is_canonical(r),
            final(self).rules == old(self).rules,
            final(self).counter is Some == old(self).counter is Some,
            final(self).deck@.num_decks == old(self).deck@.num_decks,
            final(self).deck@.threshold == old(self).deck@.threshold,
            round_link(*final(self), shoe@, start@, drawn@.push(r)),
            drawn@.len() >= 4 ==> drawn@.push(r).subrange(0, 4) == drawn@.subrange(0, 4),
    {
        let ghost g0 = *self;
        let c = self.deal_card();
        proof {
            lemma_round_extend(g0, shoe@, start@, drawn@, *self, seq![c]);
            assert(drawn@ + seq![c] =~= drawn@.push(c));
            if drawn@.len() >= 4 {
                assert(drawn@.push(c).subrange(0, 4) =~= drawn@.subrange(0, 4));
            }
        }
        c
    }


    /// Plays the player's decisions on hand `hand_index` until it stands,
    /// busts, reaches 21 or doubles; splits append new hands.
    fn play_hand(
        &mut self,
        strategy: &Strategy,
        hands: &mut Vec<HandRecord>,
        hand_index: usize,
        dealer_text: &String,
        dealer_up: Card,
        player_cards: &Vec<Card>,
        initial: Option<Action>,
        shoe: Ghost<Seq<Card>>,
        start: Ghost<Option<CounterView>>,
        drawn0: Ghost<Seq<Card>>,
        first_count0: Ghost<i32>,
        first4: Ghost<Seq<Card>>,
    ) -> (r: (HandRecord, Option<Action>, Ghost<Seq<Card>>, Ghost<i32>))
        requires
            old(self).wf(),
            round_link(*old(self), shoe@, start@, drawn0@),
            drawn0@.len() >= 4,
            drawn0@.subrange(0, 4) == first4@,
            hands_inv(old(hands)@, hand_index as int, old(self).rules, player_cards@[0].value, player_cards@,
                split_allowed_spec(old(self).rules, false, player_cards@)),
            hand_index < old(hands)@.len(),
            old(hands)@.len() <= MAX_HANDS,
            old(hands)@.len() == 1 && hand_index == 0 ==> old(hands)@[0].cards@ == player_cards@,
            initial is None ==> (hand_index == 0 && old(hands)@.len() == 1),
            hand_index > 0 ==> initial is Some,
            player_cards@.len() == 2,
            all_canonical(player_cards@),
            cards_value(player_cards@).0 < 21,
            dealer_text@ == dealer_label(dealer_up),
            initial is Some ==> initial == Some(
                decide_spec(*strategy, label_of(player_cards@, split_allowed_spec(old(self).rules, false, player_cards@)),
                    dealer_label(dealer_up), true, split_allowed_spec(old(self).rules, false, player_cards@), first_count0@),
            ),
        ensures
            final(self).wf(),
            final(self).rules == old(self).rules,
            final(self).counter is Some == old(self).counter is Some,
            final(self).deck@.num_decks == old(self).deck@.num_decks,
            final(self).deck@.threshold == old(self).deck@.threshold,
            round_link(*final(self), shoe@, start@, r.2@),
            r.2@.len() >= 4,
            r.2@.subrange(0, 4) == first4@,
            hands_inv(final(hands)@, hand_index as int, old(self).rules, player_cards@[0].value, player_cards@,
                split_allowed_spec(old(self).rules, false, player_cards@)),
            hand_index < final(hands)@.len(),
            final(hands)@.len() <= MAX_HANDS,
            final(hands)@.len() >= old(hands)@.len(),
            hand_ok(r.0),
            r.0.cards@[0].value == player_cards@[0].value,
            r.0.bet == 2 ==> (old(self).rules.double_after_split || final(hands)@.len() == 1),
            r.1 is Some,
            r.1 == Some(
                decide_spec(*strategy, label_of(player_cards@, split_allowed_spec(old(self).rules, false, player_cards@)),
                    dealer_label(dealer_up), true, split_allowed_spec(old(self).rules, false, player_cards@), r.3@),
            ),
            initial is Some ==> r.1 == initial,
            initial is None ==> first_effect(r.1->Some_0, split_allowed_spec(old(self).rules, false, player_cards@), r.0.cards@, r.0.bet, final(hands)@.len(), player_cards@),
    {
        let ghost rules = self.rules;
        let ghost pv = player_cards@[0].value;
        let ghost first_split = split_allowed_spec(self.rules, false, player_cards@);
        let ghost mut drawn = drawn0@;
        let ghost mut first_count = first_count0@;
        let ghost shoe = shoe@;
        let ghost start = start@;
        let ghost first4 = first4@;
        let mut initial_action = initial;
            let mut cards = copy_cards(&hands[hand_index].cards);
        let mut bet: u8 = hands[hand_index].bet;
        let mut result: Option<Outcome> = None;
        proof {
            lemma_hands_read(hands@, hand_index as int, rules, pv, player_cards@, first_split);
            lemma_two_cards(cards@);
        }
        loop
            invariant_except_break
                (initial is None && initial_action is Some) ==> (initial_action->Some_0 == Action::Hit || initial_action->Some_0 == Action::Split),
                2 <= cards@.len() <= 21,
                bet == 1,
                result is None,
                cards_value(cards@).0 <= 21,
            invariant
                initial is Some ==> initial_action == initial,
                self.wf(),
                self.rules == old(self).rules,
                rules == self.rules,
                self.counter is Some == old(self).counter is Some,
                self.deck@.num_decks == old(self).deck@.num_decks,
                self.deck@.threshold == old(self).deck@.threshold,
                round_link(*self, shoe, start, drawn),
                drawn.len() >= 4,
                drawn.subrange(0, 4) == first4,
                hands_inv(hands@, hand_index as int, rules, pv, player_cards@, first_split),
                hand_index < hands@.len(),
                hands@.len() <= MAX_HANDS,
                cards@.len() >= 1,
                cards@[0].value == pv,
                hands@.len() == 1 ==> (hand_index == 0 && (cards@.len() == 2 ==> cards@ == player_cards@)),
                all_canonical(cards@),
                initial_action is None ==> (hand_index == 0 && hands@.len() == 1 && cards@ == player_cards@),
                hands@.len() >= old(hands)@.len(),
                (initial is None && initial_action is Some) ==> first_effect(initial_action->Some_0, first_split, cards@, bet, hands@.len(), player_cards@),
                hand_index > 0 ==> initial_action is Some,
                player_cards@.len() == 2,
                pv == player_cards@[0].value,
                all_canonical(player_cards@),
                cards_value(player_cards@).0 < 21,
                dealer_text@ == dealer_label(dealer_up),
                first_split == split_allowed_spec(self.rules, false, player_cards@),
                initial_action is Some ==> initial_action == Some(
                    decide_spec(*strategy, label_of(player_cards@, first_split), dealer_label(dealer_up), true, first_split, first_count),
                ),
            ensures
                initial is Some ==> initial_action == initial,
                self.wf(),
                self.rules == old(self).rules,
                rules == self.rules,
                self.counter is Some == old(self).counter is Some,
                self.deck@.num_decks == old(self).deck@.num_decks,
                self.deck@.threshold == old(self).deck@.threshold,
                round_link(*self, shoe, start, drawn),
                drawn.len() >= 4,
                drawn.subrange(0, 4) == first4,
                hands_inv(hands@, hand_index as int, rules, pv, player_cards@, first_split),
                hand_index < hands@.len(),
                hands@.len() <= MAX_HANDS,
                cards@.len() >= 1,
                cards@[0].value == pv,
                hands@.len() == 1 ==> hand_index == 0,
                all_canonical(cards@),
                2 <= cards@.len() <= 23,
                bet == 1 || bet == 2,
                bet == 2 ==> cards@.len() == 3,
                bet == 2 ==> (rules.double_after_split || hands@.len() == 1),
                result is None || (result == Some(Outcome::Lose) && cards_value(cards@).0 > 21),
                (bet == 1 && cards_value(cards@).0 > 21) ==> result == Some(Outcome::Lose),
                initial_action is Some,
                initial is None ==> first_effect(initial_action->Some_0, first_split, cards@, bet, hands@.len(), player_cards@),
                hands@.len() >= old(hands)@.len(),
                dealer_text@ == dealer_label(dealer_up),
                first_split == split_allowed_spec(self.rules, false, player_cards@),
                initial_action is Some ==> initial_action == Some(
                    decide_spec(*strategy, label_of(player_cards@, first_split), dealer_label(dealer_up), true, first_split, first_count),
                ),
            decreases MAX_HANDS - hands@.len(), headroom(cards@, 21),
        {
            let has_split = hands.len() > 1;
            let can_double = cards.len() == 2 && (if has_split {
                self.rules.double_after_split
            } else {
                hand_index == 0
            });
            let (value, is_soft) = calculate_value(&cards);
            let can_split = split_allowed(&self.rules, has_split, &cards) && hands.len() < MAX_HANDS;
            if value >= 21 {
                break;
            }
            proof {
                lemma_cards_bounds(cards@);
            }
            let label = label_for(&cards, can_split, value, is_soft);
            let count = self.count_range();
            let action = strategy.decide_action(&label, dealer_text.as_str(), can_double, can_split, count);
            if initial_action.is_none() {
                initial_action = Some(action);
                proof {
                    first_count = count;
                }
            }
            let ghost before = cards@;
            assert(player_cards@.subrange(0, 2) =~= player_cards@);
            match action {
                Action::Hit => {
                    let c = self.draw(Ghost(shoe), Ghost(start), Ghost(drawn));
                    proof { drawn = drawn.push(c); }
                    cards.push(c);
                    proof {
                        lemma_push_card(before, c);
                        assert(cards@[0] == before[0]);
                        assert(cards@.subrange(0, 2) =~= before.subrange(0, 2));
                    }
                    proof {
                        if initial is None {
                            let a0 = initial_action->Some_0;
                            if a0 == Action::Split && first_split {
                                assert(hands@.len() >= 2);
                            } else if a0 == Action::Hit || a0 == Action::Split {
                                assert(before.subrange(0, 2) == player_cards@);
                                assert(cards@.subrange(0, 2) == player_cards@);
                                assert(hands@.len() == 1);
                            }
                        }
                    }
                    let (v2, _) = calculate_value(&cards);
                    if v2 > 21 {
                        result = Some(Outcome::Lose);
                        break;
                    }
                },
                Action::Stand => {
                    break;
                },
                Action::Double => {
                    if cards.len() == 2 && can_double {
                        bet = 2;
                        let c = self.draw(Ghost(shoe), Ghost(start), Ghost(drawn));
                        proof { drawn = drawn.push(c); }
                        cards.push(c);
                        proof {
                            lemma_push_card(before, c);
                            assert(cards@[0] == before[0]);
                            assert(cards@.subrange(0, 2) =~= before.subrange(0, 2));
                        }
                        break;
                    } else {
                        let c = self.draw(Ghost(shoe), Ghost(start), Ghost(drawn));
                        proof { drawn = drawn.push(c); }
                        cards.push(c);
                        proof {
                            lemma_push_card(before, c);
                            assert(cards@[0] == before[0]);
                            assert(cards@.subrange(0, 2) =~= before.subrange(0, 2));
                        }
                        let (v2, _) = calculate_value(&cards);
                        if v2 > 21 {
                            result = Some(Outcome::Lose);
                        }
                        break;
                    }
                },
                Action::Split => {
                    if cards.len() == 2 && can_split {
                        let kept = cards[0];
                        let moved = cards[1];
                        proof {
                            if has_split && player_cards@[0].rank == Rank::Ace {
                                assert(is_canonical(player_cards@[0]));
                                assert(is_canonical(cards@[0]));
                                assert(kept.rank == Rank::Ace);
                            }
                        }
                        let c2 = self.draw(Ghost(shoe), Ghost(start), Ghost(drawn));
                        proof { drawn = drawn.push(c2); }
                        let mut new_cards: Vec<Card> = Vec::new();
                        new_cards.push(moved);
                        new_cards.push(c2);
                        let c3 = self.draw(Ghost(shoe), Ghost(start), Ghost(drawn));
                        proof { drawn = drawn.push(c3); }
                        let mut rest: Vec<Card> = Vec::new();
                        rest.push(kept);
                        rest.push(c3);
                        cards = rest;
                        proof {
                            lemma_two_cards(cards@);
                        }
                        let new_hand = HandRecord { cards: new_cards, bet, result: None };
                        let ghost hs0 = hands@;
                        proof {
                            assert(hand_pending(new_hand));
                            lemma_hands_split(hs0, hand_index as int, rules, pv, player_cards@, first_split, before, new_hand);
                        }
                        hands.push(new_hand);
                    } else {
                        let c = self.draw(Ghost(shoe), Ghost(start), Ghost(drawn));
                        proof { drawn = drawn.push(c); }
                        cards.push(c);
                        proof {
                            lemma_push_card(before, c);
                            assert(cards@[0] == before[0]);
                            assert(cards@.subrange(0, 2) =~= before.subrange(0, 2));
                        }
                        let (v2, _) = calculate_value(&cards);
                        if v2 > 21 {
                            result = Some(Outcome::Lose);
                            break;
                        }
                    }
                },
            }
        }
        (HandRecord { cards, bet, result }, initial_action, Ghost(drawn), Ghost(first_count))
    }


    /// The player's turn: every hand in order, splits appending hands.
    fn play_hands(
        &mut self,
        strategy: &Strategy,
        player_cards: &Vec<Card>,
        dealer_up: Card,
        shoe: Ghost<Seq<Card>>,
        start: Ghost<Option<CounterView>>,
        drawn0: Ghost<Seq<Card>>,
        first4: Ghost<Seq<Card>>,
    ) -> (r: (Vec<HandRecord>, Option<Action>, Ghost<Seq<Card>>, Ghost<i32>))
        requires
            old(self).wf(),
            round_link(*old(self), shoe@, start@, drawn0@),
            drawn0@.len() >= 4,
            drawn0@.subrange(0, 4) == first4@,
            player_cards@.len() == 2,
            all_canonical(player_cards@),
            cards_value(player_cards@).0 < 21,
        ensures
            final(self).wf(),
            final(self).rules == old(self).rules,
            final(self).counter is Some == old(self).counter is Some,
            final(self).deck@.num_decks == old(self).deck@.num_decks,
            final(self).deck@.threshold == old(self).deck@.threshold,
            round_link(*final(self), shoe@, start@, r.2@),
            r.2@.len() >= 4,
            r.2@.subrange(0, 4) == first4@,
            1 <= r.0@.len() <= MAX_HANDS,
            forall|j: int| 0 <= j < r.0@.len() ==> hand_ok(#[trigger] r.0@[j]),
            forall|j: int| 0 <= j < r.0@.len() ==> (#[trigger] r.0@[j]).cards@[0].value == player_cards@[0].value,
            r.0@.len() > 1 ==> split_allowed_spec(old(self).rules, false, player_cards@),
            !old(self).rules.allow_resplit ==> r.0@.len() <= 2,
            (!old(self).rules.resplit_aces && player_cards@[0].rank == Rank::Ace) ==> r.0@.len() <= 2,
            (!old(self).rules.double_after_split && r.0@.len() > 1) ==> forall|j: int| 0 <= j < r.0@.len() ==> (#[trigger] r.0@[j]).bet == 1,
            r.1 == Some(decide_spec(*strategy, label_of(player_cards@, split_allowed_spec(old(self).rules, false, player_cards@)), dealer_label(dealer_up), true, split_allowed_spec(old(self).rules, false, player_cards@), r.3@)),
            action_carried_out(r.1->Some_0, split_allowed_spec(old(self).rules, false, player_cards@), r.0@, player_cards@),
    {
        let ghost shoe = shoe@;
        let ghost start = start@;
        let ghost first4 = first4@;
        let ghost mut drawn = drawn0@;
        let dealer_text = dealer_label_text(&dealer_up);
        let mut hands: Vec<HandRecord> = Vec::new();
        hands.push(HandRecord { cards: copy_cards(&player_cards), bet: 1, result: None });
        let mut hand_index: usize = 0;
        let mut initial_action: Option<Action> = None;
        let ghost first_count: i32 = 0;
        let ghost first_split = split_allowed_spec(self.rules, false, player_cards@);
        let ghost pv = player_cards@[0].value;
        let ghost rules = self.rules;
        proof {
            lemma_two_cards(player_cards@);
            assert(hands@ =~= seq![hands@[0]]);
            lemma_hands_start(hands@[0], rules, player_cards@, first_split);
        }
        while hand_index < hands.len()
            invariant
                self.wf(),
                self.rules == old(self).rules,
                rules == self.rules,
                self.counter is Some == old(self).counter is Some,
                self.deck@.num_decks == old(self).deck@.num_decks,
                self.deck@.threshold == old(self).deck@.threshold,
                round_link(*self, shoe, start, drawn),
                drawn.len() >= 4,
                drawn.subrange(0, 4) == first4,
                hands_inv(hands@, hand_index as int, rules, pv, player_cards@, first_split),
                hand_index <= hands@.len(),
                hands@.len() <= MAX_HANDS,
                hands@.len() == 1 && hand_index == 0 ==> hands@[0].cards@ == player_cards@,
                initial_action is None ==> (hand_index == 0 && hands@.len() == 1
                    && hands@[0].cards@ == player_cards@),
                hand_index > 0 ==> initial_action is Some,
                hand_index > 0 ==> action_carried_out(initial_action->Some_0, first_split, hands@, player_cards@),
                hand_index == 0 ==> initial_action is None,
                player_cards@.len() == 2,
                pv == player_cards@[0].value,
                all_canonical(player_cards@),
                cards_value(player_cards@).0 < 21,
                dealer_text@ == dealer_label(dealer_up),
                first_split == split_allowed_spec(self.rules, false, player_cards@),
                initial_action is Some ==> initial_action == Some(
                    decide_spec(*strategy, label_of(player_cards@, first_split), dealer_label(dealer_up), true, first_split, first_count),
                ),
            decreases MAX_HANDS - hand_index,
        {
            let (done, ia, d, fc) = self.play_hand(
                strategy,
                &mut hands,
                hand_index,
                &dealer_text,
                dealer_up,
                &player_cards,
                initial_action,
                Ghost(shoe),
                Ghost(start),
                Ghost(drawn),
                Ghost(first_count),
                Ghost(first4),
            );
            initial_action = ia;
            proof {
                drawn = d@;
                first_count = fc@;
            }
            let HandRecord { cards, bet, result } = done;
            let ghost hs1 = hands@;
            let done = HandRecord { cards, bet, result };
            proof {
                lemma_hands_write(hs1, hand_index as int, rules, pv, player_cards@, first_split, done);
            }
            hands.set(hand_index, done);
            proof {
                if hand_index == 0 {
                    assert(hands@[0] == done);
                }
            }
            hand_index = hand_index + 1;
        }

        proof {
            lemma_hands_done(hands@, rules, pv, player_cards@, first_split);
        }
        (hands, initial_action, Ghost(drawn), Ghost(first_count))
    }


    /// Starts a round: reshuffles (and resets the counter) when due, then
    /// deals two cards to the player and two to the dealer.
    fn start_round(&mut self) -> (r: (Vec<Card>, Vec<Card>, Ghost<Seq<Card>>, Ghost<Option<CounterView>>, Ghost<Seq<Card>>))
        requires
            old(self).wf(),
        ensures
            final(self).wf(),
            final(self).rules == old(self).rules,
            final(self).counter is Some == old(self).counter is Some,
            final(self).deck@.num_decks == old(self).deck@.num_decks,
            final(self).deck@.threshold == old(self).deck@.threshold,
            !reshuffle_due(old(self).deck@) ==> r.2@ == old(self).deck@.cards,
            reshuffle_due(old(self).deck@) ==> r.2@.to_multiset() == fresh_shoe(old(self).deck@.num_decks).to_multiset(),
            r.3@ == round_start_counter(*old(self)),
            round_link(*final(self), r.2@, r.3@, r.4@),
            r.4@.len() == 4,
            r.0@ == r.4@.subrange(0, 2),
            r.1@ == r.4@.subrange(2, 4),
            all_canonical(r.0@),
            all_canonical(r.1@),
    {
        if self.deck.should_reshuffle() {
            proof {
                self.deck.lemma_wf();
            }
            self.deck.shuffle();
            match &mut self.counter {
                Some(c) => c.reset(),
                None => {},
            }
        }
        let ghost shoe = self.deck@.cards;
        let ghost start = counter_state(self.counter);
        let ghost mut drawn: Seq<Card> = Seq::empty();
        proof {
            assert(start == round_start_counter(*old(self)));
            lemma_round_start(*self, start);
        }
        let player_first = self.draw(Ghost(shoe), Ghost(start), Ghost(drawn));
        proof { drawn = drawn.push(player_first); }
        let player_second = self.draw(Ghost(shoe), Ghost(start), Ghost(drawn));
        proof { drawn = drawn.push(player_second); }
        let dealer_first = self.draw(Ghost(shoe), Ghost(start), Ghost(drawn));
        proof { drawn = drawn.push(dealer_first); }
        let dealer_hole = self.draw(Ghost(shoe), Ghost(start), Ghost(drawn));
        proof { drawn = drawn.push(dealer_hole); }
        let mut player_cards: Vec<Card> = Vec::new();
        player_cards.push(player_first);
        player_cards.push(player_second);
        let mut dealer_cards: Vec<Card> = Vec::new();
        dealer_cards.push(dealer_first);
        dealer_cards.push(dealer_hole);
        let ghost first4 = drawn;
        assert(player_cards@ =~= drawn.subrange(0, 2));
        assert(dealer_cards@ =~= drawn.subrange(2, 4));
        assert(drawn.subrange(0, 4) =~= drawn);
        assert(all_canonical(player_cards@));
        assert(all_canonical(dealer_cards@));
        assert(dealer_cards@.subrange(0, 2) =~= dealer_cards@);
        assert(dealer_cards@.subrange(2, 2) =~= drawn.subrange(4, 4));

        (player_cards, dealer_cards, Ghost(shoe), Ghost(start), Ghost(drawn))
    }

    /// Plays one round: reshuffle if due, deal two cards each from the
    /// shoe's tail, resolve a player natural at once, else play each hand
    /// (splits append hands, visited in order), then check the dealer's
    /// natural, then draw for the dealer, then settle every hand.
    #[verifier::rlimit(100)]
    #[verifier::spinoff_prover]
    pub fn play_game(&mut self, strategy: &Strategy) -> (r: GameResult)
        requires
            old(self).wf(),
        ensures
            final(self).wf(),
            final(self).rules == old(self).rules,
            final(self).counter is Some == old(self).counter is Some,
            final(self).deck@.num_decks == old(self).deck@.num_decks,
            final(self).deck@.threshold == old(self).deck@.threshold,
            !reshuffle_due(old(self).deck@) ==> r.shoe@ == old(self).deck@.cards,
            reshuffle_due(old(self).deck@) ==> r.shoe@.to_multiset() == fresh_shoe(old(self).deck@.num_decks).to_multiset(),
            tail_drawn(r.shoe@, r.drawn@, final(self).deck@.cards),
            counter_state(final(self).counter) == counter_after(round_start_counter(*old(self)), r.drawn@),
            r.drawn@.len() >= 4,
            r.player_cards@ == r.drawn@.subrange(0, 2),
            r.dealer_cards@.len() >= 2,
            r.dealer_cards@.subrange(0, 2) == r.drawn@.subrange(2, 4),
            r.dealer_cards@.subrange(2, r.dealer_cards@.len() as int)
                == r.drawn@.subrange(r.drawn@.len() - (r.dealer_cards@.len() - 2), r.drawn@.len() as int),
            all_canonical(r.player_cards@),
            r.dealer_up_card == r.dealer_cards@[0],
            1 <= r.hands@.len() <= MAX_HANDS,
            forall|j: int| 0 <= j < r.hands@.len() ==> hand_ok(#[trigger] r.hands@[j]),
            forall|j: int| 0 <= j < r.hands@.len() ==> (#[trigger] r.hands@[j]).cards@[0].value == r.player_cards@[0].value,
            r.hands@.len() > 1 ==> split_allowed_spec(old(self).rules, false, r.player_cards@),
            !old(self).rules.allow_resplit ==> r.hands@.len() <= 2,
            (!old(self).rules.resplit_aces && r.player_cards@[0].rank == Rank::Ace) ==> r.hands@.len() <= 2,
            (!old(self).rules.double_after_split && r.hands@.len() > 1) ==> forall|j: int| 0 <= j < r.hands@.len() ==> (#[trigger] r.hands@[j]).bet == 1,
            r.initial_action is Some,
            !is_natural(r.player_cards@) ==> exists|c: i32| r.initial_action == Some(
                decide_spec(
                    *strategy,
                    label_of(r.player_cards@, split_allowed_spec(old(self).rules, false, r.player_cards@)),
                    dealer_label(r.dealer_up_card),
                    true,
                    split_allowed_spec(old(self).rules, false, r.player_cards@),
                    c,
                ),
            ),
            !is_natural(r.player_cards@) ==> action_carried_out(
                r.initial_action->Some_0,
                split_allowed_spec(old(self).rules, false, r.player_cards@),
                r.hands@,
                r.player_cards@,
            ),
            round_settled(old(self).rules, r),
            -20 * (MAX_HANDS as int) <= r.winnings <= 20 * (MAX_HANDS as int),
            0 <= r.bet <= 20 * (MAX_HANDS as int),
    {
        let (player_cards, dealer_cards, shoe_g, start_g, drawn_g) = self.start_round();
        let ghost shoe = shoe_g@;
        let ghost start = start_g@;
        let ghost mut drawn = drawn_g@;
        let ghost first4 = drawn;
        let dealer_up = dealer_cards[0];
        proof {
            lemma_two_cards(player_cards@);
            assert(drawn.subrange(0, 4) =~= drawn);
            assert(dealer_cards@.subrange(0, 2) =~= dealer_cards@);
            assert(dealer_cards@.subrange(2, 2) =~= drawn.subrange(4, 4));
        }

        if self.is_blackjack(&player_cards) {
            let mut hands: Vec<HandRecord> = Vec::new();
            hands.push(HandRecord { cards: copy_cards(&player_cards), bet: 1, result: None });
            proof {
                lemma_two_cards(player_cards@);
            }
            let (outcome, winnings) = if self.is_blackjack(&dealer_cards) {
                (Outcome::Push, 0i64)
            } else {
                (Outcome::Blackjack, payout(self.rules.blackjack_pays))
            };
            proof {
                lemma_round_facts(*self, shoe, start, drawn);
            }
            return GameResult {
                outcome,
                winnings,
                bet: 10,
                player_cards,
                dealer_cards,
                dealer_up_card: dealer_up,
                initial_action: Some(Action::Stand),
                hands,
                shoe: Ghost(shoe),
                drawn: Ghost(drawn),
            };
        }

        let (hands, initial_action, d, fc) = self.play_hands(
            strategy,
            &player_cards,
            dealer_up,
            Ghost(shoe),
            Ghost(start),
            Ghost(drawn),
            Ghost(first4),
        );
        proof {
            drawn = d@;
        }
        assert(forall|j: int| 0 <= j < hands@.len() ==> hand_settleable(#[trigger] hands@[j])) by {
            assert forall|j: int| 0 <= j < hands@.len() implies hand_settleable(#[trigger] hands@[j]) by {
                assert(hand_ok(hands@[j]));
            }
        }
        if self.is_blackjack(&dealer_cards) {
            let stake = stake_of_hands(&hands);
            proof {
                lemma_round_facts(*self, shoe, start, drawn);
            }
            return GameResult {
                outcome: Outcome::Lose,
                winnings: -stake,
                bet: stake,
                player_cards,
                dealer_cards,
                dealer_up_card: dealer_up,
                initial_action,
                hands,
                shoe: Ghost(shoe),
                drawn: Ghost(drawn),
            };
        }

        let ghost g_before = *self;
        let ghost drawn_before = drawn;
        let dealer_final = self.play_dealer(&dealer_cards);
        let ghost extra = dealer_final@.subrange(2, dealer_final@.len() as int);
        proof {
            lemma_round_extend(g_before, shoe, start, drawn_before, *self, extra);
            drawn = drawn_before + extra;
            lemma_round_facts(*self, shoe, start, drawn);
            assert(drawn.subrange(0, 4) =~= drawn_before.subrange(0, 4));
            assert(dealer_final@.subrange(2, dealer_final@.len() as int)
                =~= drawn.subrange(drawn.len() - (dealer_final@.len() - 2), drawn.len() as int));
        }
        let (dealer_value, _) = calculate_value(&dealer_final);
        let winnings = settle_hands(&hands, dealer_value);
        let stake = stake_of_hands(&hands);
        let outcome = if winnings > 0 {
            Outcome::Win
        } else if winnings < 0 {
            Outcome::Lose
        } else {
            Outcome::Push
        };
        proof {
            assert(dealer_final@[0] == dealer_final@.subrange(0, 2)[0]);
        }
        GameResult {
            outcome,
            winnings,
            bet: stake,
            player_cards,
            dealer_cards: dealer_final,
            dealer_up_card: dealer_up,
            initial_action,
            hands,
            shoe: Ghost(shoe),
            drawn: Ghost(drawn),
        }
    }
}

} // verus!
