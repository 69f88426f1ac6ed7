//! Hand totals over numeric card codes (1 = ace, 11..13 = face cards).

use vstd::prelude::*;

verus! {

/// Points a card code is worth before any ace is demoted.
pub open spec fn code_points(card: u8) -> nat {
    if card == 1 {
        11
    } else if 11 <= card <= 13 {
        10
    } else {
        card as nat
    }
}

/// Sum of the points of every card, aces counted as 11.
pub open spec fn raw_total(hand: Seq<u8>) -> nat
    decreases hand.len(),
{
    if hand.len() == 0 {
        0
    } else {
        raw_total(hand.drop_last()) + code_points(hand.last())
    }
}

/// Number of aces held.
pub open spec fn ace_count(hand: Seq<u8>) -> nat
    decreases hand.len(),
{
    if hand.len() == 0 {
        0
    } else {
        ace_count(hand.drop_last()) + if hand.last() == 1 { 1nat } else { 0nat }
    }
}

/// How many aces must be demoted from 11 to 1: the fewest that bring the
/// total to 21 or below, and never more than the aces held.
pub open spec fn demoted_aces(total: nat, aces: nat) -> nat {
    if total <= 21 {
        0
    } else {
        let needed = ((total - 12) as nat) / 10;
        if needed < aces { needed } else { aces }
    }
}

/// The best total of a hand and whether an ace still counts as 11.
pub open spec fn best_total(total: nat, aces: nat) -> (nat, bool) {
    let k = demoted_aces(total, aces);
    ((total - 10 * k) as nat, k < aces)
}

pub open spec fn hand_value_spec(hand: Seq<u8>) -> (nat, bool) {
    best_total(raw_total(hand), ace_count(hand))
}

/// Demoting one ace at a time while the total is over 21 gives `best_total`.
pub proof fn lemma_demote_step(total: nat, aces: nat)
    requires
        total > 21,
        aces > 0,
        total >= 10,
    ensures
        best_total(total, aces) == best_total((total - 10) as nat, (aces - 1) as nat),
{
}

pub proof fn lemma_raw_total_bound(hand: Seq<u8>)
    ensures
        raw_total(hand) <= 255 * hand.len(),
        ace_count(hand) <= hand.len(),
        11 * ace_count(hand) <= raw_total(hand),
    decreases hand.len(),
{
    if hand.len() > 0 {
        lemma_raw_total_bound(hand.drop_last());
    }
}

/// Points of one card code: ace 11, face cards 10, any other code itself.
pub fn card_value(card: u8) -> (r: u8)
    ensures
        r as nat == code_points(card),
{
    match card {
        1 => 11,
        11 | 12 | 13 => 10,
        _ => card,
    }
}

/// Best total of a hand of card codes, and whether it is soft. Each ace is
/// demoted from 11 to 1 at most once, only while the total is over 21.
pub fn hand_value(hand: &[u8]) -> (r: (u64, bool))
    requires
        hand@.len() <= u32::MAX,
    ensures
        (r.0 as nat, r.1) == hand_value_spec(hand@),
        demoted_aces(raw_total(hand@), ace_count(hand@)) <= ace_count(hand@),
        r.1 <==> demoted_aces(raw_total(hand@), ace_count(hand@)) < ace_count(hand@),
{
    let mut total: u64 = 0;
    let mut aces: u64 = 0;
    let mut i: usize = 0;
    while i < hand.len()
        invariant
            i <= hand@.len(),
            hand@.len() <= u32::MAX,
            total as nat == raw_total(hand@.subrange(0, i as int)),
            aces as nat == ace_count(hand@.subrange(0, i as int)),
            total <= 255 * i,
            aces <= i,
        decreases hand@.len() - i,
    {
        proof {
            let s = hand@.subrange(0, i as int + 1);
            assert(s.drop_last() =~= hand@.subrange(0, i as int));
        }
        total = total + card_value(hand[i]) as u64;
        if hand[i] == 1 {
            aces = aces + 1;
        }
        i = i + 1;
    }
    assert(hand@.subrange(0, hand@.len() as int) =~= hand@);
    proof {
        lemma_raw_total_bound(hand@);
    }
    let ghost t0 = total as nat;
    let ghost a0 = aces as nat;
    while total > 21 && aces > 0
        invariant
            aces <= a0,
            total as nat + 10 * (a0 - aces) == t0,
            best_total(total as nat, aces as nat) == best_total(t0, a0),
            11 * a0 <= t0,
        decreases aces,
    {
        proof {
            lemma_demote_step(total as nat, aces as nat);
        }
        total = total - 10;
        aces = aces - 1;
    }
    (total, aces > 0)
}

/// A natural: exactly two cards totalling 21.
pub fn is_blackjack(hand: &[u8]) -> (r: bool)
    requires
        hand@.len() <= u32::MAX,
    ensures
        r == (hand@.len() == 2 && hand_value_spec(hand@).0 == 21),
{
    hand.len() == 2 && hand_value(hand).0 == 21
}

} // verus!
