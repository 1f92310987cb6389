//! Card model, deck, and hand valuation for a single-deck Blackjack engine.

use rand::seq::SliceRandom;
use vstd::prelude::*;

verus! {

use vstd::string::StringExecFns;

/// The four suits of a standard deck of playing cards.
#[derive(Clone, Copy, Debug, PartialEq, Eq, Structural)]
pub enum Suit {
    Hearts,
    Diamonds,
    Clubs,
    Spades,
}

/// The thirteen ranks of a standard deck of playing cards.
#[derive(Clone, Copy, Debug, PartialEq, Eq, Structural)]
pub enum Rank {
    Two,
    Three,
    Four,
    Five,
    Six,
    Seven,
    Eight,
    Nine,
    Ten,
    Jack,
    Queen,
    King,
    Ace,
}

/// Primary point value of a rank: numerals count as themselves,
/// face cards as 10, and an Ace as 11 until scoring downgrades it.
pub open spec fn spec_rank_value(r: Rank) -> int {
    match r {
        Rank::Two => 2,
        Rank::Three => 3,
        Rank::Four => 4,
        Rank::Five => 5,
        Rank::Six => 6,
        Rank::Seven => 7,
        Rank::Eight => 8,
        Rank::Nine => 9,
        Rank::Ten => 10,
        Rank::Jack => 10,
        Rank::Queen => 10,
        Rank::King => 10,
        Rank::Ace => 11,
    }
}

impl Rank {
    /// Returns the primary blackjack value for a card rank.
    /// Ace is initially counted as 11.
    pub fn value(&self) -> (v: u8)
        ensures
            v as int == spec_rank_value(*self),
    {
        match *self {
            Rank::Two => 2,
            Rank::Three => 3,
            Rank::Four => 4,
            Rank::Five => 5,
            Rank::Six => 6,
            Rank::Seven => 7,
            Rank::Eight => 8,
            Rank::Nine => 9,
            Rank::Ten | Rank::Jack | Rank::Queen | Rank::King => 10,
            Rank::Ace => 11,
        }
    }
}

/// A single playing card with a suit and rank.
#[derive(Clone, Copy, Debug, PartialEq, Eq, Structural)]
pub struct Card {
    pub suit: Suit,
    pub rank: Rank,
}

impl Card {
    pub fn new(suit: Suit, rank: Rank) -> (c: Self)
        ensures
            c == (Card { suit, rank }),
    {
        Card { suit, rank }
    }
}

/// Suit at a given position of the fixed fresh-deck enumeration (suit-major).
pub open spec fn suit_of_index(s: int) -> Suit {
    if s == 0 {
        Suit::Hearts
    } else if s == 1 {
        Suit::Diamonds
    } else if s == 2 {
        Suit::Clubs
    } else {
        Suit::Spades
    }
}

/// Rank at a given position of the fixed fresh-deck enumeration (rank-minor).
pub open spec fn rank_of_index(r: int) -> Rank {
    if r == 0 {
        Rank::Two
    } else if r == 1 {
        Rank::Three
    } else if r == 2 {
        Rank::Four
    } else if r == 3 {
        Rank::Five
    } else if r == 4 {
        Rank::Six
    } else if r == 5 {
        Rank::Seven
    } else if r == 6 {
        Rank::Eight
    } else if r == 7 {
        Rank::Nine
    } else if r == 8 {
        Rank::Ten
    } else if r == 9 {
        Rank::Jack
    } else if r == 10 {
        Rank::Queen
    } else if r == 11 {
        Rank::King
    } else {
        Rank::Ace
    }
}

/// Position of a suit in the fixed fresh-deck enumeration.
pub open spec fn suit_index(s: Suit) -> int {
    match s {
        Suit::Hearts => 0,
        Suit::Diamonds => 1,
        Suit::Clubs => 2,
        Suit::Spades => 3,
    }
}

/// Position of a rank in the fixed fresh-deck enumeration.
pub open spec fn rank_index(r: Rank) -> int {
    match r {
        Rank::Two => 0,
        Rank::Three => 1,
        Rank::Four => 2,
        Rank::Five => 3,
        Rank::Six => 4,
        Rank::Seven => 5,
        Rank::Eight => 6,
        Rank::Nine => 7,
        Rank::Ten => 8,
        Rank::Jack => 9,
        Rank::Queen => 10,
        Rank::King => 11,
        Rank::Ace => 12,
    }
}

/// The card standing at position `i` of a freshly built deck.
pub open spec fn fresh_card_at(i: int) -> Card {
    Card { suit: suit_of_index(i / 13), rank: rank_of_index(i % 13) }
}

/// Any two distinct positions of a fresh deck hold distinct cards.
pub proof fn lemma_fresh_deck_distinct(i: int, j: int)
    requires
        0 <= i < 52,
        0 <= j < 52,
        i != j,
    ensures
        fresh_card_at(i) != fresh_card_at(j),
{
    if i / 13 == j / 13 {
        assert(i % 13 != j % 13);
    }
}

/// Every card stands somewhere in a fresh deck.
pub proof fn lemma_fresh_deck_complete(c: Card)
    ensures
        0 <= suit_index(c.suit) * 13 + rank_index(c.rank) < 52,
        fresh_card_at(suit_index(c.suit) * 13 + rank_index(c.rank)) == c,
{
    let i = suit_index(c.suit) * 13 + rank_index(c.rank);
    assert(i / 13 == suit_index(c.suit) && i % 13 == rank_index(c.rank)) by (nonlinear_arith)
        requires
            i == suit_index(c.suit) * 13 + rank_index(c.rank),
            0 <= suit_index(c.suit) < 4,
            0 <= rank_index(c.rank) < 13,
    ;
}

/// The 52 cards of a full deck, in the fixed fresh-deck enumeration.
pub open spec fn full_deck() -> Seq<Card> {
    Seq::new(52, |i: int| fresh_card_at(i))
}

/// A full deck holds each card exactly once, counted as a multiset.
pub proof fn lemma_full_deck_one_each()
    ensures
        forall|c: Card| #[trigger] full_deck().to_multiset().count(c) == 1,
{
    let cards = full_deck();
    cards.to_multiset_ensures();
    assert forall|i: int, j: int|
        0 <= i < cards.len() && 0 <= j < cards.len() && i != j implies cards[i] != cards[j] by {
        if i < j {
            lemma_fresh_deck_distinct(i, j);
        } else {
            lemma_fresh_deck_distinct(j, i);
        }
    }
    cards.lemma_multiset_has_no_duplicates();
    assert forall|c: Card| #[trigger] cards.to_multiset().count(c) == 1 by {
        lemma_fresh_deck_complete(c);
        assert(cards[suit_index(c.suit) * 13 + rank_index(c.rank)] == c);
        assert(cards.contains(c));
    }
}

/// Appending one card to a sequence inserts it into the sequence's
/// multiset of cards.
pub proof fn lemma_to_multiset_push(s: Seq<Card>, x: Card)
    ensures
        s.push(x).to_multiset() == s.to_multiset().insert(x),
{
    s.to_multiset_ensures();
}

/// A deck of cards, dealt from its end (the top).
pub struct Deck {
    cards: Vec<Card>,
}

impl View for Deck {
    type V = Seq<Card>;

    closed spec fn view(&self) -> Seq<Card> {
        self.cards@
    }
}

impl Deck {
    /// Creates a new, standard 52-card deck: one card of every
    /// suit and rank combination, in a fixed suit-major order.
    pub fn new() -> (deck: Self)
        ensures
            deck@ == full_deck(),
            deck@.len() == 52,
            forall|k: int| 0 <= k < 52 ==> deck@[k] == fresh_card_at(k),
            forall|i: int, j: int| 0 <= i < j < 52 ==> deck@[i] != deck@[j],
            forall|c: Card| deck@.contains(c),
    {
        let mut cards: Vec<Card> = Vec::new();
        let mut i: usize = 0;
        while i < 52
            invariant
                i <= 52,
                cards@.len() == i as int,
                forall|k: int| 0 <= k < i as int ==> cards@[k] == fresh_card_at(k),
            decreases 52 - i,
        {
            let q = i / 13;
            let suit = if q == 0 {
                Suit::Hearts
            } else if q == 1 {
                Suit::Diamonds
            } else if q == 2 {
                Suit::Clubs
            } else {
                Suit::Spades
            };
            let r = i % 13;
            let rank = if r == 0 {
                Rank::Two
            } else if r == 1 {
                Rank::Three
            } else if r == 2 {
                Rank::Four
            } else if r == 3 {
                Rank::Five
            } else if r == 4 {
                Rank::Six
            } else if r == 5 {
                Rank::Seven
            } else if r == 6 {
                Rank::Eight
            } else if r == 7 {
                Rank::Nine
            } else if r == 8 {
                Rank::Ten
            } else if r == 9 {
                Rank::Jack
            } else if r == 10 {
                Rank::Queen
            } else if r == 11 {
                Rank::King
            } else {
                Rank::Ace
            };
            cards.push(Card { suit, rank });
            i += 1;
        }
        proof {
            assert forall|i: int, j: int| 0 <= i < j < 52 implies cards@[i] != cards@[j] by {
                lemma_fresh_deck_distinct(i, j);
            }
            assert forall|c: Card| cards@.contains(c) by {
                lemma_fresh_deck_complete(c);
                let k = suit_index(c.suit) * 13 + rank_index(c.rank);
                assert(cards@[k] == c);
            }
            assert(cards@ =~= full_deck());
        }
        Deck { cards }
    }

    /// Shuffles the deck randomly: the order changes, the cards do not.
    pub fn shuffle(&mut self)
        ensures
            final(self)@.to_multiset() == old(self)@.to_multiset(),
            final(self)@.len() == old(self)@.len(),
    {
        shuffle_in_place(&mut self.cards);
        proof {
            old(self)@.to_multiset_ensures();
            self@.to_multiset_ensures();
        }
    }

    /// Deals one card from the top of the deck, or reports exhaustion.
    pub fn deal(&mut self) -> (c: Option<Card>)
        ensures
            old(self)@.len() > 0 ==> {
                &&& c == Some(old(self)@.last())
                &&& final(self)@ == old(self)@.drop_last()
            },
            old(self)@.len() == 0 ==> {
                &&& c is None
                &&& final(self)@ == old(self)@
            },
    {
        self.cards.pop()
    }

    /// How many cards remain to be dealt.
    pub fn len(&self) -> (n: usize)
        ensures
            n == self@.len(),
    {
        self.cards.len()
    }

    /// The card at a given position, counting from the bottom of the deck.
    pub fn get(&self, i: usize) -> (c: Card)
        requires
            i < self@.len(),
        ensures
            c == self@[i as int],
    {
        self.cards[i]
    }

    /// Builds a deck holding exactly the given cards, in the given order;
    /// the last card of the sequence is the first dealt. This is the
    /// injectable-ordering entry for deterministic play and testing.
    pub fn from_cards(cards: Vec<Card>) -> (deck: Self)
        ensures
            deck@ == cards@,
    {
        Deck { cards }
    }
}

/// Relies on rand's `SliceRandom::shuffle` (with a freshly drawn
/// `rand::rng()` generator): it permutes the slice in place, choosing
/// uniformly among all permutations, so whatever order comes back, the
/// elements themselves are kept.
#[verifier::external_body]
fn shuffle_in_place(cards: &mut Vec<Card>)
    ensures
        final(cards)@.to_multiset() == old(cards)@.to_multiset(),
{
    let mut rng = rand::rng();
    cards.shuffle(&mut rng);
}

/// Sum of the primary values of all cards, every Ace counted as 11.
pub open spec fn raw_sum(cards: Seq<Card>) -> int
    decreases cards.len(),
{
    if cards.len() == 0 {
        0
    } else {
        raw_sum(cards.drop_last()) + spec_rank_value(cards.last().rank)
    }
}

/// How many Aces the cards hold.
pub open spec fn ace_count(cards: Seq<Card>) -> int
    decreases cards.len(),
{
    if cards.len() == 0 {
        0
    } else {
        ace_count(cards.drop_last()) + if cards.last().rank == Rank::Ace {
            1int
        } else {
            0int
        }
    }
}

/// Blackjack Ace adjustment: while the total exceeds 21 and an Ace is
/// still counted as 11, recount that Ace as 1 (subtract 10).
pub open spec fn spec_adjust(v: int, aces: int) -> int
    decreases aces,
{
    if v > 21 && aces > 0 {
        spec_adjust(v - 10, aces - 1)
    } else {
        v
    }
}

/// The value of a hand: the raw sum with Aces as 11, downgraded
/// Ace by Ace while it exceeds 21.
pub open spec fn spec_hand_value(cards: Seq<Card>) -> int {
    spec_adjust(raw_sum(cards), ace_count(cards))
}

/// Elementary bounds: every card is worth 2 to 11 with Aces high, at
/// least 1 with every Ace downgraded, and Aces are at most the cards.
pub proof fn lemma_hand_bounds(cards: Seq<Card>)
    ensures
        2 * cards.len() <= raw_sum(cards) <= 11 * cards.len(),
        0 <= ace_count(cards) <= cards.len(),
        cards.len() <= raw_sum(cards) - 10 * ace_count(cards),
    decreases cards.len(),
{
    if cards.len() > 0 {
        lemma_hand_bounds(cards.drop_last());
    }
}

/// The total reached from a raw sum of `v` by recounting `k` Aces as 1.
pub open spec fn downgraded(v: int, k: int) -> int {
    v - 10 * k
}

/// What the Ace adjustment yields: never more than the raw total, never
/// less than the total with every Ace downgraded; the raw total itself
/// when that is 21 or less; and otherwise the best achievable choice —
/// the largest total of the form `v - 10*k` (k Aces downgraded) that
/// stays within 21, or the fully downgraded total if none does.
pub proof fn lemma_adjust_props(v: int, aces: int)
    requires
        aces >= 0,
    ensures
        spec_adjust(v, aces) <= v,
        v - 10 * aces <= spec_adjust(v, aces),
        v <= 21 ==> spec_adjust(v, aces) == v,
        spec_adjust(v, aces) > 21 ==> spec_adjust(v, aces) == v - 10 * aces,
        v - 10 * aces <= 21 ==> spec_adjust(v, aces) <= 21,
        forall|k: int|
            0 <= k <= aces && #[trigger] downgraded(v, k) <= 21 ==> downgraded(v, k)
                <= spec_adjust(v, aces),
        exists|k: int| 0 <= k <= aces && spec_adjust(v, aces) == #[trigger] downgraded(v, k),
    decreases aces,
{
    if v > 21 && aces > 0 {
        lemma_adjust_props(v - 10, aces - 1);
        assert forall|k: int|
            0 <= k <= aces && #[trigger] downgraded(v, k) <= 21 implies downgraded(v, k)
            <= spec_adjust(v, aces) by {
            assert(k >= 1);
            assert(downgraded(v, k) == downgraded(v - 10, k - 1));
        }
        let k0 = choose|k: int|
            0 <= k <= aces - 1 && spec_adjust(v - 10, aces - 1) == #[trigger] downgraded(
                v - 10,
                k,
            );
        assert(spec_adjust(v, aces) == downgraded(v, k0 + 1));
    } else {
        assert(spec_adjust(v, aces) == downgraded(v, 0));
    }
}

/// A hand is always worth at least one point per card.
pub proof fn lemma_value_ge_len(cards: Seq<Card>)
    ensures
        cards.len() <= spec_hand_value(cards),
        spec_hand_value(cards) <= raw_sum(cards),
{
    lemma_hand_bounds(cards);
    lemma_adjust_props(raw_sum(cards), ace_count(cards));
}

/// The value of a hand with any number of Aces never under-reports:
/// the raw sum itself when that stays within 21; otherwise the largest
/// total reachable by downgrading Aces that stays within 21; and only
/// when even every Ace downgraded exceeds 21, that minimum total.
pub proof fn lemma_value_best(cards: Seq<Card>)
    ensures
        raw_sum(cards) <= 21 ==> spec_hand_value(cards) == raw_sum(cards),
        raw_sum(cards) - 10 * ace_count(cards) <= 21 ==> {
            &&& spec_hand_value(cards) <= 21
            &&& exists|k: int|
                0 <= k <= ace_count(cards) && spec_hand_value(cards) == #[trigger] downgraded(
                    raw_sum(cards),
                    k,
                )
            &&& forall|k: int|
                0 <= k <= ace_count(cards) && #[trigger] downgraded(raw_sum(cards), k) <= 21
                    ==> downgraded(raw_sum(cards), k) <= spec_hand_value(cards)
        },
        raw_sum(cards) - 10 * ace_count(cards) > 21 ==> spec_hand_value(cards) == raw_sum(cards)
            - 10 * ace_count(cards),
{
    lemma_hand_bounds(cards);
    lemma_adjust_props(raw_sum(cards), ace_count(cards));
}

/// Removing one card takes exactly its contribution out of the raw sum
/// and the Ace count.
proof fn lemma_sums_remove(cards: Seq<Card>, i: int)
    requires
        0 <= i < cards.len(),
    ensures
        raw_sum(cards.remove(i)) == raw_sum(cards) - spec_rank_value(cards[i].rank),
        ace_count(cards.remove(i)) == ace_count(cards) - if cards[i].rank == Rank::Ace {
            1int
        } else {
            0int
        },
    decreases cards.len(),
{
    if i == cards.len() - 1 {
        assert(cards.remove(i) =~= cards.drop_last());
    } else {
        let t = cards.drop_last();
        assert(cards.remove(i).drop_last() =~= t.remove(i));
        assert(cards.remove(i).last() == cards.last());
        lemma_sums_remove(t, i);
    }
}

/// The value of a hand depends only on which cards it holds, never on
/// the order they arrived in.
pub proof fn lemma_value_permutation(a: Seq<Card>, b: Seq<Card>)
    requires
        a.to_multiset() == b.to_multiset(),
    ensures
        raw_sum(a) == raw_sum(b),
        ace_count(a) == ace_count(b),
        spec_hand_value(a) == spec_hand_value(b),
    decreases a.len(),
{
    a.to_multiset_ensures();
    b.to_multiset_ensures();
    if a.len() == 0 {
        assert(b.len() == 0);
    } else {
        let x = a.last();
        let ai = a.len() - 1;
        assert(a.contains(x));
        assert(b.to_multiset().count(x) > 0);
        assert(b.contains(x));
        let j = choose|j: int| 0 <= j < b.len() && b[j] == x;
        assert(a.remove(ai) =~= a.drop_last());
        assert(a.remove(ai).to_multiset() == a.to_multiset().remove(x));
        assert(b.remove(j).to_multiset() == b.to_multiset().remove(x));
        lemma_sums_remove(b, j);
        lemma_value_permutation(a.drop_last(), b.remove(j));
    }
}

/// Any two cards together stay within 21: two Aces are the only pair
/// whose raw sum exceeds 21, and one of them is then downgraded.
pub proof fn lemma_two_card_value(cards: Seq<Card>)
    requires
        cards.len() == 2,
    ensures
        4 <= spec_hand_value(cards) <= 21,
{
    let s1 = cards.drop_last();
    assert(s1.drop_last() =~= Seq::<Card>::empty());
    assert(raw_sum(Seq::<Card>::empty()) == 0);
    assert(ace_count(Seq::<Card>::empty()) == 0);
    assert(raw_sum(s1) == raw_sum(s1.drop_last()) + spec_rank_value(s1.last().rank));
    assert(raw_sum(s1) == spec_rank_value(s1.last().rank));
    assert(ace_count(s1) == if s1.last().rank == Rank::Ace { 1int } else { 0int });
    lemma_hand_bounds(cards);
    lemma_adjust_props(raw_sum(cards), ace_count(cards));
    if raw_sum(cards) > 21 {
        assert(spec_rank_value(s1.last().rank) == 11 && spec_rank_value(cards.last().rank) == 11);
        assert(s1.last().rank == Rank::Ace && cards.last().rank == Rank::Ace);
        assert(ace_count(cards) == 2);
        assert(spec_adjust(22, 2) == spec_adjust(12, 1));
        assert(spec_adjust(12, 1) == 12);
    }
}

/// A hand of cards for one party, in the order they were dealt.
pub struct Hand {
    cards: Vec<Card>,
}

impl View for Hand {
    type V = Seq<Card>;

    closed spec fn view(&self) -> Seq<Card> {
        self.cards@
    }
}

impl Hand {
    /// Creates an empty hand.
    pub fn new() -> (hand: Self)
        ensures
            hand@ == Seq::<Card>::empty(),
    {
        Hand { cards: Vec::new() }
    }

    /// Adds a card to the hand.
    pub fn add_card(&mut self, card: Card)
        ensures
            final(self)@ == old(self)@.push(card),
    {
        self.cards.push(card);
    }

    /// How many cards the hand holds.
    pub fn len(&self) -> (n: usize)
        ensures
            n == self@.len(),
    {
        self.cards.len()
    }

    /// The card at a given position, in dealt order.
    pub fn get(&self, i: usize) -> (c: Card)
        requires
            i < self@.len(),
        ensures
            c == self@[i as int],
    {
        self.cards[i]
    }

    /// Calculates the total value of the hand, recomputed fresh from the
    /// full card list: the raw sum with Aces as 11, then one Ace at a
    /// time recounted as 1 while the total exceeds 21. The total comes
    /// back as one byte, so the raw sum must fit in one; every hand a
    /// round deals stays far below that.
    pub fn value(&self) -> (v: u8)
        requires
            raw_sum(self@) <= 255,
        ensures
            v as int == spec_hand_value(self@),
    {
        let ghost all = self.cards@;
        let mut total: u8 = 0;
        let mut aces: u8 = 0;
        let mut i: usize = 0;
        proof {
            lemma_hand_bounds(all);
        }
        while i < self.cards.len()
            invariant
                i <= all.len(),
                self.cards@ == all,
                raw_sum(all) <= 255,
                total as int == raw_sum(all.take(i as int)),
                aces as int == ace_count(all.take(i as int)),
            decreases all.len() - i,
        {
            proof {
                assert(all.take(i as int + 1).drop_last() =~= all.take(i as int));
                assert(all.take(i as int + 1).last() == all[i as int]);
                lemma_raw_sum_take_le(all, i as int + 1);
                lemma_hand_bounds(all.take(i as int + 1));
            }
            let card = self.cards[i];
            total = total + card.rank.value();
            if matches!(card.rank, Rank::Ace) {
                aces = aces + 1;
            }
            i = i + 1;
        }
        proof {
            assert(all.take(all.len() as int) =~= all);
        }
        while total > 21 && aces > 0
            invariant
                spec_adjust(total as int, aces as int) == spec_hand_value(all),
            decreases aces,
        {
            total = total - 10;
            aces = aces - 1;
        }
        total
    }
}

/// The display token of a rank: its numeral, or an initial for a face
/// card or Ace.
pub open spec fn spec_rank_str(r: Rank) -> Seq<char> {
    match r {
        Rank::Two => "2"@,
        Rank::Three => "3"@,
        Rank::Four => "4"@,
        Rank::Five => "5"@,
        Rank::Six => "6"@,
        Rank::Seven => "7"@,
        Rank::Eight => "8"@,
        Rank::Nine => "9"@,
        Rank::Ten => "10"@,
        Rank::Jack => "J"@,
        Rank::Queen => "Q"@,
        Rank::King => "K"@,
        Rank::Ace => "A"@,
    }
}

/// The display glyph of a suit.
pub open spec fn spec_suit_str(s: Suit) -> Seq<char> {
    match s {
        Suit::Hearts => "\u{2665}"@,
        Suit::Diamonds => "\u{2666}"@,
        Suit::Clubs => "\u{2663}"@,
        Suit::Spades => "\u{2660}"@,
    }
}

/// The display token of a card: rank token followed by suit glyph.
pub open spec fn spec_card_str(c: Card) -> Seq<char> {
    spec_rank_str(c.rank) + spec_suit_str(c.suit)
}

/// The display text of a whole hand: the cards' tokens in dealt order,
/// separated by single spaces.
pub open spec fn spec_hand_str(cards: Seq<Card>) -> Seq<char>
    decreases cards.len(),
{
    if cards.len() == 0 {
        Seq::<char>::empty()
    } else if cards.len() == 1 {
        spec_card_str(cards[0])
    } else {
        spec_hand_str(cards.drop_last()) + " "@ + spec_card_str(cards.last())
    }
}

/// The display token of a rank, as a string slice.
fn rank_label(rank: Rank) -> (s: &'static str)
    ensures
        s@ == spec_rank_str(rank),
{
    match rank {
        Rank::Two => "2",
        Rank::Three => "3",
        Rank::Four => "4",
        Rank::Five => "5",
        Rank::Six => "6",
        Rank::Seven => "7",
        Rank::Eight => "8",
        Rank::Nine => "9",
        Rank::Ten => "10",
        Rank::Jack => "J",
        Rank::Queen => "Q",
        Rank::King => "K",
        Rank::Ace => "A",
    }
}

/// The display glyph of a suit, as a string slice.
fn suit_label(suit: Suit) -> (s: &'static str)
    ensures
        s@ == spec_suit_str(suit),
{
    match suit {
        Suit::Hearts => "\u{2665}",
        Suit::Diamonds => "\u{2666}",
        Suit::Clubs => "\u{2663}",
        Suit::Spades => "\u{2660}",
    }
}

impl Card {
    /// Renders the card as a short human-readable token:
    /// rank symbol followed by suit glyph.
    pub fn display_str(&self) -> (s: String)
        ensures
            s@ == spec_card_str(*self),
    {
        let mut s = String::new();
        s.append(rank_label(self.rank));
        s.append(suit_label(self.suit));
        s
    }
}

impl Hand {
    /// Returns a string representation of all cards in the hand,
    /// separated by single spaces.
    pub fn display_str(&self) -> (s: String)
        ensures
            s@ == spec_hand_str(self@),
    {
        let ghost all = self.cards@;
        let mut s = String::new();
        let mut i: usize = 0;
        while i < self.cards.len()
            invariant
                i <= all.len(),
                self.cards@ == all,
                s@ == spec_hand_str(all.take(i as int)),
            decreases all.len() - i,
        {
            proof {
                assert(all.take(i as int + 1).drop_last() =~= all.take(i as int));
                assert(all.take(i as int + 1).last() == all[i as int]);
            }
            if i > 0 {
                s.append(" ");
            }
            let token = self.cards[i].display_str();
            s.append(token.as_str());
            i = i + 1;
        }
        proof {
            assert(all.take(all.len() as int) =~= all);
        }
        s
    }
}

/// The raw sum of a prefix never exceeds the raw sum of the whole:
/// every card contributes a positive value.
proof fn lemma_raw_sum_take_le(cards: Seq<Card>, i: int)
    requires
        0 <= i <= cards.len(),
    ensures
        raw_sum(cards.take(i)) <= raw_sum(cards),
    decreases cards.len() - i,
{
    if i == cards.len() {
        assert(cards.take(i) =~= cards);
    } else {
        assert(cards.take(i + 1).drop_last() =~= cards.take(i));
        lemma_raw_sum_take_le(cards, i + 1);
    }
}

} // verus!
