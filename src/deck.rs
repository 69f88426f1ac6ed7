//! Cards and the multi-deck shoe.

use vstd::prelude::*;
use rand::rngs::SmallRng;
use rand::seq::SliceRandom;
use rand::SeedableRng;
use crate::text::str_eq;

verus! {

#[verifier::external_type_specification]
#[verifier::external_body]
pub struct ExSmallRng(rand::rngs::SmallRng);

/// The thirteen ranks, in the order a fresh deck is laid out.
#[derive(Clone, Copy, Debug, PartialEq, Eq, Structural)]
pub enum Rank {
    Ace,
    Two,
    Three,
    Four,
    Five,
    Six,
    Seven,
    Eight,
    Nine,
    Ten,
    Jack,
    Queen,
    King,
}

pub open spec fn rank_at(i: int) -> Rank {
    if i == 0 { Rank::Ace }
    else if i == 1 { Rank::Two }
    else if i == 2 { Rank::Three }
    else if i == 3 { Rank::Four }
    else if i == 4 { Rank::Five }
    else if i == 5 { Rank::Six }
    else if i == 6 { Rank::Seven }
    else if i == 7 { Rank::Eight }
    else if i == 8 { Rank::Nine }
    else if i == 9 { Rank::Ten }
    else if i == 10 { Rank::Jack }
    else if i == 11 { Rank::Queen }
    else { Rank::King }
}

/// Blackjack points of a rank: ace 11, face cards 10, others their number.
pub open spec fn rank_points(r: Rank) -> u8 {
    match r {
        Rank::Ace => 11,
        Rank::Two => 2,
        Rank::Three => 3,
        Rank::Four => 4,
        Rank::Five => 5,
        Rank::Six => 6,
        Rank::Seven => 7,
        Rank::Eight => 8,
        Rank::Nine => 9,
        _ => 10,
    }
}

/// The symbol a rank is written with.
pub open spec fn rank_symbol(r: Rank) -> Seq<char> {
    match r {
        Rank::Ace => seq!['A'],
        Rank::Two => seq!['2'],
        Rank::Three => seq!['3'],
        Rank::Four => seq!['4'],
        Rank::Five => seq!['5'],
        Rank::Six => seq!['6'],
        Rank::Seven => seq!['7'],
        Rank::Eight => seq!['8'],
        Rank::Nine => seq!['9'],
        Rank::Ten => seq!['1', '0'],
        Rank::Jack => seq!['J'],
        Rank::Queen => seq!['Q'],
        Rank::King => seq!['K'],
    }
}

/// The rank written by a symbol, if any.
pub open spec fn rank_from_symbol(s: Seq<char>) -> Option<Rank> {
    if exists|i: int| 0 <= i < 13 && rank_symbol(rank_at(i)) == s {
        Some(rank_at(choose|i: int| 0 <= i < 13 && rank_symbol(rank_at(i)) == s))
    } else {
        None
    }
}

impl Rank {
    pub fn from_index(i: usize) -> (r: Rank)
        requires
            i < 13,
        ensures
            r == rank_at(i as int),
    {
        match i {
            0 => Rank::Ace,
            1 => Rank::Two,
            2 => Rank::Three,
            3 => Rank::Four,
            4 => Rank::Five,
            5 => Rank::Six,
            6 => Rank::Seven,
            7 => Rank::Eight,
            8 => Rank::Nine,
            9 => Rank::Ten,
            10 => Rank::Jack,
            11 => Rank::Queen,
            _ => Rank::King,
        }
    }

    pub fn points(&self) -> (r: u8)
        ensures
            r == rank_points(*self),
    {
        match self {
            Rank::Ace => 11,
            Rank::Two => 2,
            Rank::Three => 3,
            Rank::Four => 4,
            Rank::Five => 5,
            Rank::Six => 6,
            Rank::Seven => 7,
            Rank::Eight => 8,
            Rank::Nine => 9,
            _ => 10,
        }
    }

    pub fn symbol(&self) -> (r: &'static str)
        ensures
            r@ == rank_symbol(*self),
    {
        proof {
            reveal_strlit("A");
            reveal_strlit("2");
            reveal_strlit("3");
            reveal_strlit("4");
            reveal_strlit("5");
            reveal_strlit("6");
            reveal_strlit("7");
            reveal_strlit("8");
            reveal_strlit("9");
            reveal_strlit("10");
            reveal_strlit("J");
            reveal_strlit("Q");
            reveal_strlit("K");
        }
        match self {
            Rank::Ace => "A",
            Rank::Two => "2",
            Rank::Three => "3",
            Rank::Four => "4",
            Rank::Five => "5",
            Rank::Six => "6",
            Rank::Seven => "7",
            Rank::Eight => "8",
            Rank::Nine => "9",
            Rank::Ten => "10",
            Rank::Jack => "J",
            Rank::Queen => "Q",
            Rank::King => "K",
        }
    }

    /// Reads a rank symbol ("A", "2".."10", "J", "Q", "K").
    pub fn parse(s: &str) -> (r: Option<Rank>)
        ensures
            r == rank_from_symbol(s@),
    {
        let mut i: usize = 0;
        while i < 13
            invariant
                i <= 13,
                forall|j: int| 0 <= j < i ==> rank_symbol(rank_at(j)) != s@,
            decreases 13 - i,
        {
            let rank = Rank::from_index(i);
            if str_eq(rank.symbol(), s) {
                proof {
                    let w = choose|j: int| 0 <= j < 13 && rank_symbol(rank_at(j)) == s@;
                    lemma_symbols_distinct(w, i as int);
                }
                return Some(rank);
            }
            i = i + 1;
        }
        None
    }
}

pub proof fn lemma_symbols_distinct(i: int, j: int)
    requires
        0 <= i < 13,
        0 <= j < 13,
        rank_symbol(rank_at(i)) == rank_symbol(rank_at(j)),
    ensures
        i == j,
{
    if i != j {
        let a = rank_symbol(rank_at(i));
        let b = rank_symbol(rank_at(j));
        assert(a.len() != b.len() || a[0] != b[0]);
    }
}

/// A playing card: its rank and the points it counts for.
#[derive(Clone, Copy, Debug, PartialEq, Eq, Structural)]
pub struct Card {
    pub rank: Rank,
    pub value: u8,
}

pub open spec fn card_of(r: Rank) -> Card {
    Card { rank: r, value: rank_points(r) }
}

/// A card whose points agree with its rank.
pub open spec fn is_canonical(c: Card) -> bool {
    c.value == rank_points(c.rank)
}

/// A fresh shoe in rank-major order: each deck lays out four aces, four
/// twos, ... four kings.
pub open spec fn fresh_shoe(num_decks: nat) -> Seq<Card> {
    Seq::new(52 * num_decks, |i: int| card_of(rank_at((i % 52) / 4)))
}

impl Card {
    /// The card with the given rank symbol, or `None` for an unknown symbol.
    pub fn new(rank: &str) -> (r: Option<Card>)
        ensures
            r == (match rank_from_symbol(rank@) {
                Some(k) => Some(card_of(k)),
                None => None::<Card>,
            }),
    {
        match Rank::parse(rank) {
            Some(k) => Some(Card::from_rank(k)),
            None => None,
        }
    }

    pub fn from_rank(rank: Rank) -> (r: Card)
        ensures
            r == card_of(rank),
    {
        Card { rank, value: rank.points() }
    }
}

pub struct DeckView {
    pub cards: Seq<Card>,
    pub used: nat,
    pub num_decks: nat,
    pub threshold: nat,
}

/// Penetration has reached the threshold and less than one deck remains.
pub open spec fn reshuffle_due(d: DeckView) -> bool {
    100 * d.used >= d.threshold * (52 * d.num_decks) && d.cards.len() < 52
}

/// The shoe: undealt cards (dealt from the tail), how many were dealt since
/// the last shuffle, and the random source that orders each shuffle.
pub struct Deck {
    num_decks: u8,
    cards: Vec<Card>,
    used: usize,
    penetration_threshold: u8,
    rng: SmallRng,
}

/// Relies on rand's `SmallRng::seed_from_u64` to build the shoe's random source.
#[verifier::external_body]
fn seeded_rng(seed: u64) -> SmallRng {
    SmallRng::seed_from_u64(seed)
}

/// Relies on rand's `SliceRandom::shuffle`, which only swaps elements, so the
/// result is a permutation of its input.
#[verifier::external_body]
fn shuffle_cards(cards: &mut Vec<Card>, rng: &mut SmallRng)
    ensures
        final(cards)@.to_multiset() == old(cards)@.to_multiset(),
{
    cards.shuffle(rng);
}

impl View for Deck {
    type V = DeckView;

    closed spec fn view(&self) -> DeckView {
        DeckView {
            cards: self.cards@,
            used: self.used as nat,
            num_decks: self.num_decks as nat,
            threshold: self.penetration_threshold as nat,
        }
    }
}

impl Deck {
    /// At least one deck; every card agrees with its rank; the cards dealt
    /// and the cards left never exceed the shoe.
    pub closed spec fn wf(&self) -> bool {
        &&& self.num_decks >= 1
        &&& self.used + self.cards@.len() <= 52 * self.num_decks
        &&& forall|i: int| 0 <= i < self.cards@.len() ==> is_canonical(#[trigger] self.cards@[i])
    }

    pub proof fn lemma_wf(&self)
        requires
            self.wf(),
        ensures
            self@.num_decks >= 1,
            self@.used + self@.cards.len() <= 52 * self@.num_decks,
            forall|i: int| 0 <= i < self@.cards.len() ==> is_canonical(#[trigger] self@.cards[i]),
    {
    }

    /// A freshly shuffled shoe of `num_decks` decks, seeded with `seed`.
    pub fn new(num_decks: u8, penetration_threshold: u8, seed: u64) -> (r: Deck)
        requires
            num_decks >= 1,
        ensures
            r.wf(),
            r@.num_decks == num_decks,
            r@.threshold == penetration_threshold,
            r@.used == 0,
            r@.cards.to_multiset() == fresh_shoe(num_decks as nat).to_multiset(),
    {
        let mut deck = Deck {
            num_decks,
            cards: Vec::new(),
            used: 0,
            penetration_threshold,
            rng: seeded_rng(seed),
        };
        deck.shuffle();
        deck
    }

    /// Rebuilds the full shoe and permutes it with the continuing random stream.
    pub fn shuffle(&mut self)
        requires
            old(self)@.num_decks >= 1,
        ensures
            final(self).wf(),
            final(self)@.num_decks == old(self)@.num_decks,
            final(self)@.threshold == old(self)@.threshold,
            final(self)@.used == 0,
            final(self)@.cards.to_multiset() == fresh_shoe(old(self)@.num_decks).to_multiset(),
    {
        let total: usize = 52 * (self.num_decks as usize);
        let mut cards: Vec<Card> = Vec::new();
        let mut i: usize = 0;
        while i < total
            invariant
                total == 52 * self.num_decks,
                i <= total,
                cards@ =~= fresh_shoe(self.num_decks as nat).subrange(0, i as int),
            decreases total - i,
        {
            let card = Card::from_rank(Rank::from_index((i % 52) / 4));
            cards.push(card);
            i = i + 1;
            assert(cards@ =~= fresh_shoe(self.num_decks as nat).subrange(0, i as int));
        }
        assert(cards@ =~= fresh_shoe(self.num_decks as nat));
        let ghost before = cards@;
        shuffle_cards(&mut cards, &mut self.rng);
        proof {
            lemma_multiset_len(cards@, before);
            assert forall|k: int| 0 <= k < cards@.len() implies is_canonical(#[trigger] cards@[k]) by {
                lemma_in_fresh_shoe_canonical(cards@, before, k, self.num_decks as nat);
            }
        }
        self.cards = cards;
        self.used = 0;
    }

    /// Deals the card at the tail, shuffling first when the shoe is empty.
    pub fn deal_card(&mut self) -> (r: Card)
        requires
            old(self).wf(),
        ensures
            final(self).wf(),
            is_canonical(r),
            final(self)@.num_decks == old(self)@.num_decks,
            final(self)@.threshold == old(self)@.threshold,
            old(self)@.cards.len() > 0 ==> {
                &&& r == old(self)@.cards.last()
                &&& final(self)@.cards == old(self)@.cards.drop_last()
                &&& final(self)@.used == old(self)@.used + 1
            },
            old(self)@.cards.len() == 0 ==> {
                &&& final(self)@.cards.push(r).to_multiset() == fresh_shoe(old(self)@.num_decks).to_multiset()
                &&& final(self)@.cards.len() == 52 * old(self)@.num_decks - 1
                &&& final(self)@.used == 1
            },
    {
        if self.cards.len() == 0 {
            self.shuffle();
            proof {
                lemma_fresh_len(self.num_decks as nat);
                lemma_multiset_len(self.cards@, fresh_shoe(self.num_decks as nat));
            }
        }
        let ghost before = self.cards@;
        let card = self.cards.pop().unwrap();
        proof {
            assert(before == self.cards@.push(card));
            assert(is_canonical(before[before.len() - 1]));
        }
        self.used = self.used + 1;
        card
    }

    pub fn num_decks(&self) -> (r: u8)
        ensures
            r == self@.num_decks,
    {
        self.num_decks
    }

    pub fn remaining_cards(&self) -> (r: usize)
        ensures
            r == self@.cards.len(),
    {
        self.cards.len()
    }

    /// True when penetration (cards dealt over shoe size) has reached the
    /// threshold percentage and fewer than 52 cards remain.
    pub fn should_reshuffle(&self) -> (r: bool)
        requires
            self.wf(),
        ensures
            r == reshuffle_due(self@),
    {
        let total: u64 = 52 * (self.num_decks as u64);
        let t: u64 = self.penetration_threshold as u64;
        assert(t * total <= 255 * 13260) by (nonlinear_arith)
            requires
                t <= 255,
                total <= 13260,
        ;
        (self.used as u64) * 100 >= (self.penetration_threshold as u64) * total && self.cards.len() < 52
    }

    /// Removes the first undealt card of the given rank, if there is one.
    /// Dealt-card accounting is unchanged.
    pub fn remove_card_by_rank(&mut self, rank: Rank) -> (r: bool)
        requires
            old(self).wf(),
        ensures
            final(self).wf(),
            final(self)@.num_decks == old(self)@.num_decks,
            final(self)@.threshold == old(self)@.threshold,
            final(self)@.used == old(self)@.used,
            r == exists|i: int| 0 <= i < old(self)@.cards.len() && old(self)@.cards[i].rank == rank,
            r ==> exists|i: int|
                0 <= i < old(self)@.cards.len() && old(self)@.cards[i].rank == rank
                    && (forall|j: int| 0 <= j < i ==> old(self)@.cards[j].rank != rank)
                    && final(self)@.cards == old(self)@.cards.remove(i),
            !r ==> final(self)@.cards == old(self)@.cards,
    {
        let mut i: usize = 0;
        while i < self.cards.len()
            invariant
                i <= self.cards@.len(),
                self.wf(),
                self.cards@ == old(self).cards@,
                self.num_decks == old(self).num_decks,
                self.used == old(self).used,
                self.penetration_threshold == old(self).penetration_threshold,
                forall|j: int| 0 <= j < i ==> self.cards@[j].rank != rank,
            decreases self.cards@.len() - i,
        {
            if self.cards[i].rank == rank {
                let ghost before = self.cards@;
                self.cards.remove(i);
                assert forall|k: int| 0 <= k < self.cards@.len() implies is_canonical(#[trigger] self.cards@[k]) by {
                    if k < i {
                        assert(self.cards@[k] == before[k]);
                        assert(is_canonical(before[k]));
                    } else {
                        assert(self.cards@[k] == before[k + 1]);
                        assert(is_canonical(before[k + 1]));
                    }
                }
                return true;
            }
            i = i + 1;
        }
        false
    }
}

/// Right after a shuffle the shoe does not ask for another one: nothing has
/// been dealt and a whole shoe (at least one deck) remains.
pub proof fn lemma_no_reshuffle_after_shuffle(d: DeckView)
    requires
        d.used == 0,
        d.num_decks >= 1,
        d.cards.to_multiset() == fresh_shoe(d.num_decks).to_multiset(),
    ensures
        !reshuffle_due(d),
{
    lemma_multiset_len(d.cards, fresh_shoe(d.num_decks));
}

pub proof fn lemma_fresh_len(n: nat)
    ensures
        fresh_shoe(n).len() == 52 * n,
{
}

pub proof fn lemma_multiset_len(a: Seq<Card>, b: Seq<Card>)
    requires
        a.to_multiset() == b.to_multiset(),
    ensures
        a.len() == b.len(),
{
    a.to_multiset_ensures();
    b.to_multiset_ensures();
}

proof fn lemma_in_fresh_shoe_canonical(a: Seq<Card>, fresh: Seq<Card>, k: int, n: nat)
    requires
        a.to_multiset() == fresh.to_multiset(),
        fresh == fresh_shoe(n),
        0 <= k < a.len(),
    ensures
        is_canonical(a[k]),
{
    a.to_multiset_ensures();
    fresh.to_multiset_ensures();
    assert(a.to_multiset().count(a[k]) > 0);
    assert(fresh.contains(a[k]));
    let j = choose|j: int| 0 <= j < fresh.len() && fresh[j] == a[k];
    assert(fresh[j] == card_of(rank_at((j % 52) / 4)));
}

} // verus!
