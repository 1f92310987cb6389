//! Round controller: one round of Blackjack as a small state machine
//! over the player's turn, the dealer's auto-play, and resolution.

use crate::game::{
    ace_count, full_deck, lemma_full_deck_one_each, lemma_to_multiset_push, lemma_two_card_value,
    lemma_value_ge_len, raw_sum, spec_hand_value, spec_hand_str, Card, Deck, Hand,
};
use vstd::multiset::Multiset;
use vstd::prelude::*;
use vstd::string::StringExecFns;

verus! {

/// Where a round stands: the player decides, the dealer auto-plays,
/// or the round is over.
#[derive(Clone, Copy, Debug, PartialEq, Eq, Structural)]
pub enum GameState {
    PlayerTurn,
    DealerTurn,
    RoundEnd,
}

/// How a round ended, if it has.
#[derive(Clone, Copy, Debug, PartialEq, Eq, Structural)]
pub enum RoundOutcome {
    Pending,
    PlayerBust,
    DealerBust,
    PlayerWin,
    DealerWin,
    Push,
}

/// The outcome owed once the dealer has finished drawing, from the two
/// final totals: a dealer bust hands the player the round whatever the
/// player holds; otherwise the higher total wins and equal totals push.
pub open spec fn spec_outcome(p: int, d: int) -> RoundOutcome {
    if d > 21 {
        RoundOutcome::DealerBust
    } else if p > d {
        RoundOutcome::PlayerWin
    } else if p < d {
        RoundOutcome::DealerWin
    } else {
        RoundOutcome::Push
    }
}

/// One round of Blackjack: the deck, both hands, where the round
/// stands, and how it ended. Owned exclusively by its caller.
pub struct BlackjackApp {
    state: GameState,
    deck: Deck,
    player_hand: Hand,
    dealer_hand: Hand,
    outcome: RoundOutcome,
}

impl BlackjackApp {
    /// The cards still to be dealt, bottom first.
    pub closed spec fn deck_cards(&self) -> Seq<Card> {
        self.deck@
    }

    /// The player's cards, in dealt order.
    pub closed spec fn player_cards(&self) -> Seq<Card> {
        self.player_hand@
    }

    /// The dealer's cards, in dealt order.
    pub closed spec fn dealer_cards(&self) -> Seq<Card> {
        self.dealer_hand@
    }

    /// Where the round stands.
    pub closed spec fn game_state(&self) -> GameState {
        self.state
    }

    /// How the round ended, or `Pending` while it has not.
    pub closed spec fn round_outcome(&self) -> RoundOutcome {
        self.outcome
    }

    /// All cards of the round, as one multiset: what is still in the
    /// deck and what either hand holds.
    pub open spec fn round_cards(&self) -> Multiset<Card> {
        self.deck_cards().to_multiset().add(self.player_cards().to_multiset()).add(
            self.dealer_cards().to_multiset(),
        )
    }

    /// The controller's invariant, established by the constructors and
    /// kept by every action: the deck and the two hands together hold
    /// exactly the 52 cards of a full deck, each once — a drawn card
    /// moves, and is never duplicated or invented; both hands were
    /// dealt their opening two cards; totals stay within machine
    /// range; and the observable state is consistent with the outcome
    /// — during the player's turn the player is under 21, the dealer
    /// still holds the opening two cards and no outcome is set, while
    /// a finished round carries its outcome.
    pub open spec fn wf(&self) -> bool {
        &&& self.deck_cards().len() + self.player_cards().len() + self.dealer_cards().len() == 52
        &&& self.round_cards() == full_deck().to_multiset()
        &&& 2 <= self.player_cards().len()
        &&& 2 <= self.dealer_cards().len()
        &&& raw_sum(self.player_cards()) <= 255
        &&& raw_sum(self.dealer_cards()) <= 255
        &&& (self.game_state() is PlayerTurn || self.game_state() is RoundEnd)
        &&& (self.game_state() is PlayerTurn ==> {
            &&& spec_hand_value(self.player_cards()) < 21
            &&& self.dealer_cards().len() == 2
            &&& self.round_outcome() is Pending
        })
        &&& (self.game_state() is RoundEnd ==> !(self.round_outcome() is Pending))
    }

    /// A well-formed round never duplicates or invents a card: across
    /// the deck and both hands, each of the 52 cards occurs exactly
    /// once, however far the round has played.
    pub proof fn lemma_each_card_once(&self)
        requires
            self.wf(),
        ensures
            forall|c: Card| #[trigger] self.round_cards().count(c) == 1,
    {
        lemma_full_deck_one_each();
    }

    /// What dealer resolution leaves behind, over the dealer's cards
    /// `dealer0` at the moment it began: the round is over; the dealer
    /// kept every earlier card and drew exactly while under 17, so the
    /// final total is the first one at or past 17; and the outcome
    /// compares the two final totals.
    pub open spec fn dealer_resolved(&self, dealer0: Seq<Card>) -> bool {
        &&& self.game_state() is RoundEnd
        &&& dealer0.is_prefix_of(self.dealer_cards())
        &&& spec_hand_value(self.dealer_cards()) >= 17
        &&& forall|i: int|
            dealer0.len() <= i < self.dealer_cards().len() ==> spec_hand_value(
                #[trigger] self.dealer_cards().take(i),
            ) < 17
        &&& self.round_outcome() == spec_outcome(
            spec_hand_value(self.player_cards()),
            spec_hand_value(self.dealer_cards()),
        )
    }

    /// What dealer resolution needs to start: one round's 52 cards
    /// split over deck and hands, opening cards dealt, a player total
    /// within 21, and dealer cards within machine range.
    pub open spec fn resolve_pre(&self) -> bool {
        &&& self.deck_cards().len() + self.player_cards().len() + self.dealer_cards().len() == 52
        &&& self.round_cards() == full_deck().to_multiset()
        &&& 2 <= self.player_cards().len()
        &&& 2 <= self.dealer_cards().len()
        &&& spec_hand_value(self.player_cards()) <= 21
        &&& raw_sum(self.player_cards()) <= 255
        &&& raw_sum(self.dealer_cards()) <= 255
    }

    /// Starts a round from a deck in a given order, without shuffling:
    /// the injectable-ordering entry for deterministic play. Deals two
    /// cards each, player first, alternating; a player natural (a
    /// two-card 21) resolves the dealer at once, skipping the player's
    /// turn entirely.
    pub fn new_with_deck(deck: Deck) -> (app: Self)
        requires
            deck@.len() == 52,
            deck@.to_multiset() == full_deck().to_multiset(),
        ensures
            app.wf(),
            app.player_cards() == seq![deck@[51], deck@[49]],
            app.dealer_cards().take(2) == seq![deck@[50], deck@[48]],
            spec_hand_value(app.player_cards()) == 21 ==> {
                &&& app.dealer_resolved(seq![deck@[50], deck@[48]])
                &&& app.deck_cards() == deck@.take(app.deck_cards().len() as int)
                &&& app.dealer_cards().skip(2) == deck@.take(48).skip(
                    app.deck_cards().len() as int,
                ).reverse()
            },
            spec_hand_value(app.player_cards()) != 21 ==> {
                &&& app.game_state() is PlayerTurn
                &&& app.dealer_cards() == seq![deck@[50], deck@[48]]
                &&& app.deck_cards() == deck@.take(48)
                &&& app.round_outcome() is Pending
            },
    {
        let ghost deck0 = deck@;
        let mut deck = deck;
        let mut player_hand = Hand::new();
        let mut dealer_hand = Hand::new();

        let c = deal_must(&mut deck);
        player_hand.add_card(c);
        let c = deal_must(&mut deck);
        dealer_hand.add_card(c);
        let c = deal_must(&mut deck);
        player_hand.add_card(c);
        let c = deal_must(&mut deck);
        dealer_hand.add_card(c);

        proof {
            assert(player_hand@ =~= seq![deck0[51], deck0[49]]);
            assert(dealer_hand@ =~= seq![deck0[50], deck0[48]]);
            assert(deck@ =~= deck0.take(48));
            lemma_two_card_value(player_hand@);
            lemma_two_card_value(dealer_hand@);
            lemma_value_ge_len(player_hand@);
            lemma_value_ge_len(dealer_hand@);
            crate::game::lemma_hand_bounds(player_hand@);
            crate::game::lemma_hand_bounds(dealer_hand@);
            lemma_initial_deal_cards(deck0);
            assert(deck@.to_multiset().add(player_hand@.to_multiset()).add(
                dealer_hand@.to_multiset(),
            ) == full_deck().to_multiset());
        }

        let mut app = BlackjackApp {
            state: GameState::PlayerTurn,
            deck,
            player_hand,
            dealer_hand,
            outcome: RoundOutcome::Pending,
        };

        if app.player_hand.value() == 21 {
            let ghost dealt = app.deck_cards();
            app.resolve_dealer_turn();
            proof {
                assert(dealt == deck0.take(48));
                assert(deck0.take(48).take(app.deck_cards().len() as int) =~= deck0.take(
                    app.deck_cards().len() as int,
                ));
            }
        }
        proof {
            assert(app.dealer_cards().take(2) =~= seq![deck0[50], deck0[48]]);
        }
        app
    }

    /// Starts a round from a fresh, shuffled 52-card deck: deals two
    /// cards each, player first, alternating. A player natural (a
    /// two-card 21) resolves the dealer at once, skipping the player's
    /// turn entirely; otherwise the player is to act.
    pub fn new() -> (app: Self)
        ensures
            app.wf(),
            app.player_cards().len() == 2,
            spec_hand_value(app.player_cards()) == 21 ==> app.dealer_resolved(
                app.dealer_cards().take(2),
            ),
            spec_hand_value(app.player_cards()) != 21 ==> {
                &&& app.game_state() is PlayerTurn
                &&& app.dealer_cards().len() == 2
                &&& app.round_outcome() is Pending
            },
    {
        let mut deck = Deck::new();
        deck.shuffle();
        let app = Self::new_with_deck(deck);
        proof {
            if spec_hand_value(app.player_cards()) != 21 {
                assert(app.dealer_cards().take(2) =~= app.dealer_cards());
            }
        }
        app
    }

    /// Discards the old round and starts a new one from a fresh,
    /// shuffled deck, exactly as construction does.
    pub fn reset_round(&mut self)
        ensures
            final(self).wf(),
            final(self).player_cards().len() == 2,
            spec_hand_value(final(self).player_cards()) == 21 ==> final(self).dealer_resolved(
                final(self).dealer_cards().take(2),
            ),
            spec_hand_value(final(self).player_cards()) != 21 ==> {
                &&& final(self).game_state() is PlayerTurn
                &&& final(self).dealer_cards().len() == 2
                &&& final(self).round_outcome() is Pending
            },
    {
        *self = Self::new();
    }

    /// Draws one card into the player's hand, during the player's turn:
    /// past 21 the player busts and the round ends with no dealer draw;
    /// exactly 21 hands play to the dealer at once; under 21 the player
    /// is still to act. Outside the player's turn this is a no-op.
    pub fn handle_hit(&mut self)
        requires
            old(self).wf(),
        ensures
            final(self).wf(),
            !(old(self).game_state() is PlayerTurn) ==> *final(self) == *old(self),
            old(self).game_state() is PlayerTurn ==> {
                &&& final(self).player_cards() == old(self).player_cards().push(
                    old(self).deck_cards().last(),
                )
                &&& (spec_hand_value(final(self).player_cards()) > 21 ==> {
                    &&& final(self).game_state() is RoundEnd
                    &&& final(self).round_outcome() is PlayerBust
                    &&& final(self).dealer_cards() == old(self).dealer_cards()
                    &&& final(self).deck_cards() == old(self).deck_cards().drop_last()
                })
                &&& (spec_hand_value(final(self).player_cards()) == 21 ==> {
                    &&& final(self).dealer_resolved(old(self).dealer_cards())
                    &&& final(self).deck_cards() == old(self).deck_cards().drop_last().take(
                        final(self).deck_cards().len() as int,
                    )
                    &&& final(self).dealer_cards().skip(2) == old(
                        self,
                    ).deck_cards().drop_last().skip(final(self).deck_cards().len() as int).reverse()
                })
                &&& (spec_hand_value(final(self).player_cards()) < 21 ==> {
                    &&& final(self).game_state() is PlayerTurn
                    &&& final(self).dealer_cards() == old(self).dealer_cards()
                    &&& final(self).deck_cards() == old(self).deck_cards().drop_last()
                    &&& final(self).round_outcome() is Pending
                })
            },
    {
        if !matches!(self.state, GameState::PlayerTurn) {
            return ;
        }
        proof {
            lemma_value_ge_len(old(self).player_cards());
            crate::game::lemma_hand_bounds(old(self).player_cards());
            assert(old(self).deck_cards().len() >= 30);
        }
        let new_card = deal_must(&mut self.deck);
        self.player_hand.add_card(new_card);
        proof {
            assert(self.player_cards().drop_last() =~= old(self).player_cards());
            assert(self.round_cards() == old(self).round_cards()) by {
                broadcast use vstd::multiset::group_multiset_axioms;

                assert(old(self).deck_cards() =~= self.deck_cards().push(new_card));
                lemma_to_multiset_push(self.deck_cards(), new_card);
                lemma_to_multiset_push(old(self).player_cards(), new_card);
                assert(self.round_cards() =~= old(self).round_cards());
            }
            crate::game::lemma_hand_bounds(self.player_cards());
            crate::game::lemma_adjust_props(
                raw_sum(self.player_cards()),
                ace_count(self.player_cards()),
            );
        }
        let v = self.player_hand.value();
        if v > 21 {
            self.outcome = RoundOutcome::PlayerBust;
            self.state = GameState::RoundEnd;
        } else if v == 21 {
            self.resolve_dealer_turn();
        }
    }

    /// Stands: hands play to the dealer unconditionally, during the
    /// player's turn. Outside the player's turn this is a no-op.
    pub fn handle_stand(&mut self)
        requires
            old(self).wf(),
        ensures
            final(self).wf(),
            !(old(self).game_state() is PlayerTurn) ==> *final(self) == *old(self),
            old(self).game_state() is PlayerTurn ==> {
                &&& final(self).player_cards() == old(self).player_cards()
                &&& final(self).dealer_resolved(old(self).dealer_cards())
                &&& final(self).deck_cards() == old(self).deck_cards().take(
                    final(self).deck_cards().len() as int,
                )
                &&& final(self).dealer_cards().skip(2) == old(self).deck_cards().skip(
                    final(self).deck_cards().len() as int,
                ).reverse()
            },
    {
        if !matches!(self.state, GameState::PlayerTurn) {
            return ;
        }
        self.resolve_dealer_turn();
    }

    /// Dealer auto-play and resolution: draws one card at a time while
    /// the dealer's total is under 17, then compares the two totals and
    /// ends the round. The 52-card budget of a round keeps the deck
    /// from running out: a player total within 21 holds at most 21
    /// cards, a dealer still drawing at most 16.
    pub fn resolve_dealer_turn(&mut self)
        requires
            old(self).resolve_pre(),
        ensures
            final(self).wf(),
            final(self).player_cards() == old(self).player_cards(),
            final(self).dealer_resolved(old(self).dealer_cards()),
            final(self).deck_cards() == old(self).deck_cards().take(
                final(self).deck_cards().len() as int,
            ),
            final(self).dealer_cards().skip(old(self).dealer_cards().len() as int) == old(
                self,
            ).deck_cards().skip(final(self).deck_cards().len() as int).reverse(),
    {
        self.state = GameState::DealerTurn;
        let ghost dealer0 = self.dealer_cards();
        let ghost deck0 = self.deck_cards();
        proof {
            assert(self.deck_cards() =~= deck0.take(self.deck_cards().len() as int));
            assert(self.dealer_cards().skip(dealer0.len() as int) =~= deck0.skip(
                self.deck_cards().len() as int,
            ).reverse());
        }
        loop
            invariant
                self.player_cards() == old(self).player_cards(),
                self.resolve_pre(),
                dealer0.is_prefix_of(self.dealer_cards()),
                forall|i: int|
                    dealer0.len() <= i < self.dealer_cards().len() ==> spec_hand_value(
                        #[trigger] self.dealer_cards().take(i),
                    ) < 17,
                self.deck_cards().len() <= deck0.len(),
                self.deck_cards() == deck0.take(self.deck_cards().len() as int),
                self.dealer_cards().skip(dealer0.len() as int) == deck0.skip(
                    self.deck_cards().len() as int,
                ).reverse(),
            ensures
                self.player_cards() == old(self).player_cards(),
                self.resolve_pre(),
                dealer0.is_prefix_of(self.dealer_cards()),
                forall|i: int|
                    dealer0.len() <= i < self.dealer_cards().len() ==> spec_hand_value(
                        #[trigger] self.dealer_cards().take(i),
                    ) < 17,
                spec_hand_value(self.dealer_cards()) >= 17,
                self.deck_cards() == deck0.take(self.deck_cards().len() as int),
                self.dealer_cards().skip(dealer0.len() as int) == deck0.skip(
                    self.deck_cards().len() as int,
                ).reverse(),
            decreases self.deck_cards().len(),
        {
            let dv = self.dealer_hand.value();
            if dv >= 17 {
                break ;
            }
            proof {
                lemma_value_ge_len(self.dealer_cards());
                lemma_value_ge_len(self.player_cards());
                crate::game::lemma_hand_bounds(self.dealer_cards());
                crate::game::lemma_adjust_props(
                    raw_sum(self.dealer_cards()),
                    ace_count(self.dealer_cards()),
                );
                assert(self.deck_cards().len() >= 15);
            }
            let ghost prev = *self;
            let ghost before = self.dealer_cards();
            let new_card = deal_must(&mut self.deck);
            self.dealer_hand.add_card(new_card);
            proof {
                assert(self.dealer_cards().drop_last() =~= before);
                assert(self.round_cards() == prev.round_cards()) by {
                    broadcast use vstd::multiset::group_multiset_axioms;

                    assert(prev.deck_cards() =~= self.deck_cards().push(new_card));
                    lemma_to_multiset_push(self.deck_cards(), new_card);
                    lemma_to_multiset_push(before, new_card);
                    assert(self.round_cards() =~= prev.round_cards());
                }
                crate::game::lemma_hand_bounds(self.dealer_cards());
                let n = self.deck_cards().len() as int;
                let d0l = dealer0.len() as int;
                assert(deck0.take(n + 1).drop_last() =~= deck0.take(n));
                assert(new_card == deck0.take(n + 1).last());
                assert(new_card == deck0[n]);
                assert(before.skip(d0l) == deck0.skip(n + 1).reverse());
                assert(deck0.skip(n + 1).reverse().len() == deck0.len() - n - 1);
                assert(self.dealer_cards().skip(d0l) =~= deck0.skip(n).reverse()) by {
                    assert forall|k: int| 0 <= k < deck0.len() - n implies self.dealer_cards().skip(
                        d0l,
                    )[k] == deck0.skip(n).reverse()[k] by {
                        assert(deck0.skip(n).reverse()[k] == deck0[deck0.len() - 1 - k]);
                        if k < deck0.len() - n - 1 {
                            assert(self.dealer_cards().skip(d0l)[k] == before.skip(d0l)[k]);
                            assert(deck0.skip(n + 1).reverse()[k] == deck0[deck0.len() - 1 - k]);
                        } else {
                            assert(self.dealer_cards().skip(d0l)[k] == new_card);
                        }
                    }
                }
                assert forall|i: int|
                    dealer0.len() <= i < self.dealer_cards().len() implies spec_hand_value(
                    #[trigger] self.dealer_cards().take(i),
                ) < 17 by {
                    if i < self.dealer_cards().len() - 1 {
                        assert(self.dealer_cards().take(i) =~= before.take(i));
                    } else {
                        assert(self.dealer_cards().take(i) =~= before);
                    }
                }
            }
        }
        let player_score = self.player_hand.value();
        let dealer_score = self.dealer_hand.value();

        if dealer_score > 21 {
            self.outcome = RoundOutcome::DealerBust;
        } else if player_score > dealer_score {
            self.outcome = RoundOutcome::PlayerWin;
        } else if player_score < dealer_score {
            self.outcome = RoundOutcome::DealerWin;
        } else {
            self.outcome = RoundOutcome::Push;
        }

        self.state = GameState::RoundEnd;
    }

    /// Where the round stands now.
    pub fn state(&self) -> (s: GameState)
        ensures
            s == self.game_state(),
    {
        self.state
    }

    /// How the round ended, or `Pending` while it has not.
    pub fn outcome(&self) -> (o: RoundOutcome)
        ensures
            o == self.round_outcome(),
    {
        self.outcome
    }

    /// The player's current total.
    pub fn player_value(&self) -> (v: u8)
        requires
            self.wf(),
        ensures
            v as int == spec_hand_value(self.player_cards()),
    {
        self.player_hand.value()
    }

    /// The dealer's current total. The engine always reports the true
    /// full hand; concealing the hole card is a presentation concern.
    pub fn dealer_value(&self) -> (v: u8)
        requires
            self.wf(),
        ensures
            v as int == spec_hand_value(self.dealer_cards()),
    {
        self.dealer_hand.value()
    }

    /// The player's hand as display text.
    pub fn player_display(&self) -> (s: String)
        ensures
            s@ == spec_hand_str(self.player_cards()),
    {
        self.player_hand.display_str()
    }

    /// The dealer's hand as display text, hole card included.
    pub fn dealer_display(&self) -> (s: String)
        ensures
            s@ == spec_hand_str(self.dealer_cards()),
    {
        self.dealer_hand.display_str()
    }
}

/// One decimal digit as text.
pub open spec fn spec_digit_str(d: int) -> Seq<char> {
    if d == 0 {
        "0"@
    } else if d == 1 {
        "1"@
    } else if d == 2 {
        "2"@
    } else if d == 3 {
        "3"@
    } else if d == 4 {
        "4"@
    } else if d == 5 {
        "5"@
    } else if d == 6 {
        "6"@
    } else if d == 7 {
        "7"@
    } else if d == 8 {
        "8"@
    } else {
        "9"@
    }
}

/// A byte-sized total in decimal, without leading zeroes.
pub open spec fn spec_decimal_str(n: int) -> Seq<char> {
    if n < 10 {
        spec_digit_str(n)
    } else if n < 100 {
        spec_digit_str(n / 10) + spec_digit_str(n % 10)
    } else {
        spec_digit_str(n / 100) + spec_digit_str((n / 10) % 10) + spec_digit_str(n % 10)
    }
}

/// The human-readable outcome text of a round, from the outcome and
/// the two final totals: empty while the round is still open.
pub open spec fn spec_outcome_message(o: RoundOutcome, p: int, d: int) -> Seq<char> {
    match o {
        RoundOutcome::Pending => Seq::<char>::empty(),
        RoundOutcome::PlayerBust => "BUST! You lose this round."@,
        RoundOutcome::DealerBust => "Dealer busts! You win!"@,
        RoundOutcome::PlayerWin => "You win! ("@ + spec_decimal_str(p) + " vs "@
            + spec_decimal_str(d) + ")"@,
        RoundOutcome::DealerWin => "You lose. ("@ + spec_decimal_str(p) + " vs "@
            + spec_decimal_str(d) + ")"@,
        RoundOutcome::Push => "Push! It's a tie at "@ + spec_decimal_str(p),
    }
}

/// One decimal digit as a string slice.
fn digit_label(d: u8) -> (s: &'static str)
    requires
        d < 10,
    ensures
        s@ == spec_digit_str(d as int),
{
    match d {
        0 => "0",
        1 => "1",
        2 => "2",
        3 => "3",
        4 => "4",
        5 => "5",
        6 => "6",
        7 => "7",
        8 => "8",
        _ => "9",
    }
}

/// Renders a byte-sized total in decimal.
fn decimal_str(n: u8) -> (s: String)
    ensures
        s@ == spec_decimal_str(n as int),
{
    let mut s = String::new();
    if n >= 100 {
        s.append(digit_label(n / 100));
    }
    if n >= 10 {
        s.append(digit_label((n / 10) % 10));
    }
    s.append(digit_label(n % 10));
    s
}

impl BlackjackApp {
    /// The round's outcome as the text shown to the player: who won
    /// and the decisive totals, or empty while the round is open.
    pub fn round_result(&self) -> (s: String)
        requires
            self.wf(),
        ensures
            s@ == spec_outcome_message(
                self.round_outcome(),
                spec_hand_value(self.player_cards()),
                spec_hand_value(self.dealer_cards()),
            ),
    {
        let p = self.player_hand.value();
        let d = self.dealer_hand.value();
        match self.outcome {
            RoundOutcome::Pending => String::new(),
            RoundOutcome::PlayerBust => "BUST! You lose this round.".to_owned(),
            RoundOutcome::DealerBust => "Dealer busts! You win!".to_owned(),
            RoundOutcome::PlayerWin => {
                let mut s = "You win! (".to_owned();
                s.append(decimal_str(p).as_str());
                s.append(" vs ");
                s.append(decimal_str(d).as_str());
                s.append(")");
                s
            },
            RoundOutcome::DealerWin => {
                let mut s = "You lose. (".to_owned();
                s.append(decimal_str(p).as_str());
                s.append(" vs ");
                s.append(decimal_str(d).as_str());
                s.append(")");
                s
            },
            RoundOutcome::Push => {
                let mut s = "Push! It's a tie at ".to_owned();
                s.append(decimal_str(p).as_str());
                s
            },
        }
    }
}

/// The opening deal moves the top four cards of the deck into the two
/// hands and loses none: the rest of the deck and the two opening
/// hands together hold exactly the cards the deck held.
proof fn lemma_initial_deal_cards(deck0: Seq<Card>)
    requires
        deck0.len() == 52,
    ensures
        deck0.take(48).to_multiset().add(seq![deck0[51], deck0[49]].to_multiset()).add(
            seq![deck0[50], deck0[48]].to_multiset(),
        ) == deck0.to_multiset(),
{
    broadcast use vstd::multiset::group_multiset_axioms;

    let t48 = deck0.take(48);
    assert(deck0 =~= t48.push(deck0[48]).push(deck0[49]).push(deck0[50]).push(deck0[51]));
    lemma_to_multiset_push(t48, deck0[48]);
    lemma_to_multiset_push(t48.push(deck0[48]), deck0[49]);
    lemma_to_multiset_push(t48.push(deck0[48]).push(deck0[49]), deck0[50]);
    lemma_to_multiset_push(t48.push(deck0[48]).push(deck0[49]).push(deck0[50]), deck0[51]);
    let e = Seq::<Card>::empty();
    e.to_multiset_ensures();
    assert(seq![deck0[51], deck0[49]] =~= e.push(deck0[51]).push(deck0[49]));
    assert(seq![deck0[50], deck0[48]] =~= e.push(deck0[50]).push(deck0[48]));
    lemma_to_multiset_push(e, deck0[51]);
    lemma_to_multiset_push(e.push(deck0[51]), deck0[49]);
    lemma_to_multiset_push(e, deck0[50]);
    lemma_to_multiset_push(e.push(deck0[50]), deck0[48]);
    assert(e.to_multiset() =~= Multiset::<Card>::empty());
    assert(deck0.take(48).to_multiset().add(seq![deck0[51], deck0[49]].to_multiset()).add(
        seq![deck0[50], deck0[48]].to_multiset(),
    ) =~= deck0.to_multiset());
}

/// Deals from a deck known to hold a card; exhaustion is unreachable
/// and the card comes back directly.
fn deal_must(deck: &mut Deck) -> (c: Card)
    requires
        old(deck)@.len() > 0,
    ensures
        c == old(deck)@.last(),
        final(deck)@ == old(deck)@.drop_last(),
{
    let dealt = deck.deal();
    dealt.unwrap()
}

} // verus!
