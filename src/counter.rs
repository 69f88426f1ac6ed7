//! Card counting: a weight per rank, a running sum, and the true count.

use vstd::prelude::*;
use crate::deck::{Card, Rank, rank_at, rank_from_symbol};
use crate::text::str_eq;

verus! {

/// The named counting systems.
#[derive(Clone, Copy, Debug, PartialEq, Eq, Structural)]
pub enum CountingSystem {
    HiLo,
    HiOptI,
    HiOptII,
    OmegaII,
    KnockOut,
    AceFive,
}

/// Position of a rank in the table order A, 2, ..., 10, J, Q, K.
pub open spec fn rank_index(r: Rank) -> int {
    match r {
        Rank::Ace => 0,
        Rank::Two => 1,
        Rank::Three => 2,
        Rank::Four => 3,
        Rank::Five => 4,
        Rank::Six => 5,
        Rank::Seven => 6,
        Rank::Eight => 7,
        Rank::Nine => 8,
        Rank::Ten => 9,
        Rank::Jack => 10,
        Rank::Queen => 11,
        Rank::King => 12,
    }
}

/// Weights of a named system, in table order A, 2, ..., 10, J, Q, K.
pub open spec fn system_table(s: CountingSystem) -> Seq<i32> {
    match s {
        CountingSystem::HiLo => seq![-1i32, 1, 1, 1, 1, 1, 0, 0, 0, -1i32, -1i32, -1i32, -1i32],
        CountingSystem::HiOptI => seq![0i32, 0, 1, 1, 1, 1, 0, 0, 0, -1i32, -1i32, -1i32, -1i32],
        CountingSystem::HiOptII => seq![0i32, 1, 1, 2, 2, 1, 1, 0, 0, -2i32, -2i32, -2i32, -2i32],
        CountingSystem::OmegaII => seq![0i32, 1, 1, 2, 2, 2, 1, 0, -1i32, -2i32, -2i32, -2i32, -2i32],
        CountingSystem::KnockOut => seq![-1i32, 1, 1, 1, 1, 1, 1, 0, 0, -1i32, -1i32, -1i32, -1i32],
        CountingSystem::AceFive => seq![-1i32, 0, 0, 0, 1, 0, 0, 0, 0, 0, 0, 0, 0],
    }
}

/// The system a name selects; unknown names select Hi-Lo.
pub open spec fn system_named(name: Seq<char>) -> CountingSystem {
    if name == "Hi-Opt I"@ {
        CountingSystem::HiOptI
    } else if name == "Hi-Opt II"@ {
        CountingSystem::HiOptII
    } else if name == "Omega II"@ {
        CountingSystem::OmegaII
    } else if name == "KO"@ || name == "KO (Knockout)"@ {
        CountingSystem::KnockOut
    } else if name == "Ace-Five"@ {
        CountingSystem::AceFive
    } else {
        CountingSystem::HiLo
    }
}

/// Weight a caller-supplied table gives a rank: the last entry whose key is
/// that rank's symbol, or 0.
pub open spec fn custom_weight(entries: Seq<(Seq<char>, i32)>, r: Rank) -> i32
    decreases entries.len(),
{
    if entries.len() == 0 {
        0
    } else if rank_from_symbol(entries.last().0) == Some(r) {
        entries.last().1
    } else {
        custom_weight(entries.drop_last(), r)
    }
}

pub open spec fn entry_views(entries: Seq<(String, i32)>) -> Seq<(Seq<char>, i32)> {
    entries.map_values(|e: (String, i32)| (e.0@, e.1))
}

/// The weights a counter starts with, in table order.
pub open spec fn resolved_weights(
    system: Option<Seq<char>>,
    custom: Option<Seq<(Seq<char>, i32)>>,
) -> Seq<i32> {
    let name = match system {
        Some(n) => n,
        None => "Hi-Lo"@,
    };
    if name == "Custom"@ {
        let entries = match custom {
            Some(c) => c,
            None => Seq::empty(),
        };
        Seq::new(13, |i: int| custom_weight(entries, rank_at(i)))
    } else {
        system_table(system_named(name))
    }
}

/// Effective number of cards the running count is spread over: the cards
/// left, held between half a deck and the whole shoe (0 for an empty shoe).
pub open spec fn count_divisor(remaining: nat, num_decks: nat) -> nat {
    if num_decks == 0 {
        0
    } else if remaining < 26 {
        26
    } else if remaining > 52 * num_decks {
        52 * num_decks
    } else {
        remaining
    }
}

/// True count as numerator over a positive denominator: the running count
/// divided by the remaining decks held between 0.5 and `num_decks`.
pub open spec fn true_count_spec(running: int, remaining: nat, num_decks: nat) -> (int, nat) {
    if num_decks == 0 {
        (0, 1)
    } else {
        (running * 52, count_divisor(remaining, num_decks))
    }
}

/// `p / q` rounded to the nearest integer, halves away from zero.
pub open spec fn round_div(p: int, q: nat) -> int
    recommends
        q > 0,
{
    if p >= 0 {
        (2 * p + q) / (2 * q as int)
    } else {
        -((-2 * p + q) / (2 * q as int))
    }
}

/// Converts to `i32`, saturating at its bounds.
pub open spec fn saturate_i32(x: int) -> i32 {
    if x > i32::MAX {
        i32::MAX
    } else if x < i32::MIN {
        i32::MIN
    } else {
        x as i32
    }
}

/// The count bucket: the true count rounded to the nearest integer.
pub open spec fn count_bucket(running: int, remaining: nat, num_decks: nat) -> i32 {
    let (p, q) = true_count_spec(running, remaining, num_decks);
    saturate_i32(round_div(p, q))
}

pub open spec fn saturate_i64(x: int) -> i64 {
    if x > i64::MAX {
        i64::MAX
    } else if x < i64::MIN {
        i64::MIN
    } else {
        x as i64
    }
}

pub struct CounterView {
    pub running: i64,
    pub weights: Seq<i32>,
}

/// A running count under a table of weights, one per rank.
pub struct CardCounter {
    running_count: i64,
    values: Vec<i32>,
}

fn system_from_name(name: &str) -> (r: CountingSystem)
    ensures
        r == system_named(name@),
{
    if str_eq(name, "Hi-Opt I") {
        CountingSystem::HiOptI
    } else if str_eq(name, "Hi-Opt II") {
        CountingSystem::HiOptII
    } else if str_eq(name, "Omega II") {
        CountingSystem::OmegaII
    } else if str_eq(name, "KO") || str_eq(name, "KO (Knockout)") {
        CountingSystem::KnockOut
    } else if str_eq(name, "Ace-Five") {
        CountingSystem::AceFive
    } else {
        CountingSystem::HiLo
    }
}

fn table_weight(s: CountingSystem, i: usize) -> (r: i32)
    requires
        i < 13,
    ensures
        r == system_table(s)[i as int],
{
    let t: [i32; 13] = match s {
        CountingSystem::HiLo => [-1, 1, 1, 1, 1, 1, 0, 0, 0, -1, -1, -1, -1],
        CountingSystem::HiOptI => [0, 0, 1, 1, 1, 1, 0, 0, 0, -1, -1, -1, -1],
        CountingSystem::HiOptII => [0, 1, 1, 2, 2, 1, 1, 0, 0, -2, -2, -2, -2],
        CountingSystem::OmegaII => [0, 1, 1, 2, 2, 2, 1, 0, -1, -2, -2, -2, -2],
        CountingSystem::KnockOut => [-1, 1, 1, 1, 1, 1, 1, 0, 0, -1, -1, -1, -1],
        CountingSystem::AceFive => [-1, 0, 0, 0, 1, 0, 0, 0, 0, 0, 0, 0, 0],
    };
    assert(t@ =~= system_table(s));
    t[i]
}

/// Weights of a named system, in table order A, 2, ..., 10, J, Q, K;
/// unknown names give Hi-Lo's.
pub fn default_system_values(system: &str) -> (r: Vec<i32>)
    ensures
        r@ == system_table(system_named(system@)),
{
    let s = system_from_name(system);
    let mut values: Vec<i32> = Vec::new();
    let mut i: usize = 0;
    while i < 13
        invariant
            i <= 13,
            values@ =~= system_table(s).subrange(0, i as int),
        decreases 13 - i,
    {
        values.push(table_weight(s, i));
        i = i + 1;
    }
    assert(values@ =~= system_table(s));
    values
}

fn custom_values_table(entries: &Vec<(String, i32)>) -> (r: Vec<i32>)
    ensures
        r@ == Seq::new(13, |i: int| custom_weight(entry_views(entries@), rank_at(i))),
{
    let mut values: Vec<i32> = Vec::new();
    let mut i: usize = 0;
    while i < 13
        invariant
            i <= 13,
            values@ =~= Seq::new(13, |i: int| custom_weight(entry_views(entries@), rank_at(i))).subrange(0, i as int),
        decreases 13 - i,
    {
        let rank = Rank::from_index(i);
        let mut w: i32 = 0;
        let mut j: usize = 0;
        while j < entries.len()
            invariant
                j <= entries@.len(),
                w == custom_weight(entry_views(entries@).subrange(0, j as int), rank),
            decreases entries@.len() - j,
        {
            proof {
                let s = entry_views(entries@).subrange(0, j as int + 1);
                assert(s.drop_last() =~= entry_views(entries@).subrange(0, j as int));
            }
            if Rank::parse(entries[j].0.as_str()) == Some(rank) {
                w = entries[j].1;
            }
            j = j + 1;
        }
        assert(entry_views(entries@).subrange(0, entries@.len() as int) =~= entry_views(entries@));
        values.push(w);
        i = i + 1;
    }
    values
}

impl View for CardCounter {
    type V = CounterView;

    closed spec fn view(&self) -> CounterView {
        CounterView { running: self.running_count, weights: self.values@ }
    }
}

impl CardCounter {
    pub closed spec fn wf(&self) -> bool {
        self.values@.len() == 13
    }

    /// A counter with running count 0 under the named system, or under the
    /// caller's table when the name is "Custom" (absent name: Hi-Lo).
    pub fn new(system: Option<String>, custom_values: Option<Vec<(String, i32)>>) -> (r: CardCounter)
        ensures
            r.wf(),
            r@.running == 0,
            r@.weights == resolved_weights(
                match system { Some(s) => Some(s@), None => None },
                match custom_values { Some(c) => Some(entry_views(c@)), None => None },
            ),
    {
        proof {
            reveal_strlit("Hi-Lo");
        }
        let name = match system {
            Some(s) => s,
            None => String::from_str("Hi-Lo"),
        };
        let values = if str_eq(name.as_str(), "Custom") {
            match custom_values {
                Some(c) => custom_values_table(&c),
                None => {
                    let empty: Vec<(String, i32)> = Vec::new();
                    let t = custom_values_table(&empty);
                    assert(entry_views(empty@) =~= Seq::<(Seq<char>, i32)>::empty());
                    t
                },
            }
        } else {
            default_system_values(name.as_str())
        };
        CardCounter { running_count: 0, values }
    }

    /// Adds the card's weight to the running count (saturating at the i64 bounds).
    pub fn update(&mut self, card: &Card)
        requires
            old(self).wf(),
        ensures
            final(self).wf(),
            final(self)@.weights == old(self)@.weights,
            final(self)@.running == saturate_i64(
                old(self)@.running + old(self)@.weights[rank_index(card.rank)],
            ),
    {
        let i: usize = match card.rank {
            Rank::Ace => 0,
            Rank::Two => 1,
            Rank::Three => 2,
            Rank::Four => 3,
            Rank::Five => 4,
            Rank::Six => 5,
            Rank::Seven => 6,
            Rank::Eight => 7,
            Rank::Nine => 8,
            Rank::Ten => 9,
            Rank::Jack => 10,
            Rank::Queen => 11,
            Rank::King => 12,
        };
        let w = self.values[i] as i64;
        let sum: i128 = self.running_count as i128 + w as i128;
        self.running_count = if sum > i64::MAX as i128 {
            i64::MAX
        } else if sum < i64::MIN as i128 {
            i64::MIN
        } else {
            sum as i64
        };
    }

    /// A counter with the same weights and running count 0.
    pub fn fresh_copy(&self) -> (r: CardCounter)
        requires
            self.wf(),
        ensures
            r.wf(),
            r@.weights == self@.weights,
            r@.running == 0,
    {
        let mut values: Vec<i32> = Vec::new();
        let mut i: usize = 0;
        while i < self.values.len()
            invariant
                i <= self.values@.len(),
                values@ =~= self.values@.subrange(0, i as int),
            decreases self.values@.len() - i,
        {
            values.push(self.values[i]);
            i = i + 1;
        }
        assert(values@ =~= self.values@);
        CardCounter { running_count: 0, values }
    }

    pub fn reset(&mut self)
        requires
            old(self).wf(),
        ensures
            final(self).wf(),
            final(self)@.weights == old(self)@.weights,
            final(self)@.running == 0,
    {
        self.running_count = 0;
    }

    pub fn running_count(&self) -> (r: i64)
        ensures
            r == self@.running,
    {
        self.running_count
    }

    /// True count as `(numerator, denominator)`, denominator positive.
    pub fn true_count(&self, remaining_cards: usize, num_decks: u8) -> (r: (i128, u64))
        ensures
            r.1 > 0,
            (r.0 as int, r.1 as nat) == true_count_spec(
                self@.running as int,
                remaining_cards as nat,
                num_decks as nat,
            ),
    {
        if num_decks == 0 {
            return (0, 1);
        }
        let full: u64 = 52 * (num_decks as u64);
        let rem: u64 = remaining_cards as u64;
        let divisor: u64 = if rem < 26 {
            26
        } else if rem > full {
            full
        } else {
            rem
        };
        (self.running_count as i128 * 52, divisor)
    }

    /// The true count rounded to the nearest integer (halves away from zero).
    pub fn count_range(&self, remaining_cards: usize, num_decks: u8) -> (r: i32)
        ensures
            r == count_bucket(self@.running as int, remaining_cards as nat, num_decks as nat),
    {
        let (p, q) = self.true_count(remaining_cards, num_decks);
        let rounded = round_div_exec(p, q);
        if rounded > i32::MAX as i128 {
            i32::MAX
        } else if rounded < i32::MIN as i128 {
            i32::MIN
        } else {
            rounded as i32
        }
    }
}

fn round_div_exec(p: i128, q: u64) -> (r: i128)
    requires
        q > 0,
        -0x1_0000_0000_0000_0000_0000 <= p <= 0x1_0000_0000_0000_0000_0000,
    ensures
        r == round_div(p as int, q as nat),
{
    let q2: i128 = 2 * (q as i128);
    if p >= 0 {
        (2 * p + q as i128) / q2
    } else {
        let a: i128 = 0 - p;
        let t: i128 = (2 * a + q as i128) / q2;
        0 - t
    }
}

/// With a running count of zero the true count is zero, whatever remains.
pub proof fn lemma_zero_running_count(remaining: nat, num_decks: nat)
    ensures
        true_count_spec(0, remaining, num_decks).0 == 0,
        count_bucket(0, remaining, num_decks) == 0,
{
    let (p, q) = true_count_spec(0, remaining, num_decks);
    assert(q > 0);
    assert(round_div(0, q) == 0) by (nonlinear_arith)
        requires
            q > 0,
    ;
}

} // verus!
