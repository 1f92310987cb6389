use blackjack::game::{Card, Deck, Hand, Rank, Suit};
use blackjack::round::{BlackjackApp, GameState, RoundOutcome};

const SUITS: [Suit; 4] = [Suit::Hearts, Suit::Diamonds, Suit::Clubs, Suit::Spades];
const RANKS: [Rank; 13] = [
    Rank::Two,
    Rank::Three,
    Rank::Four,
    Rank::Five,
    Rank::Six,
    Rank::Seven,
    Rank::Eight,
    Rank::Nine,
    Rank::Ten,
    Rank::Jack,
    Rank::Queen,
    Rank::King,
    Rank::Ace,
];

fn all_cards() -> Vec<Card> {
    let mut cards = Vec::new();
    for &suit in SUITS.iter() {
        for &rank in RANKS.iter() {
            cards.push(Card::new(suit, rank));
        }
    }
    cards
}

/// Builds a full 52-card deck whose top cards (dealt first) are exactly
/// `top`, in deal order. The first four deals of a round go player,
/// dealer, player, dealer; later deals follow.
fn rigged_deck(top: &[Card]) -> Deck {
    let mut rest: Vec<Card> = all_cards()
        .into_iter()
        .filter(|c| !top.contains(c))
        .collect();
    for c in top.iter().rev() {
        rest.push(*c);
    }
    assert_eq!(rest.len(), 52, "rigged top cards must be distinct");
    Deck::from_cards(rest)
}

fn hand_of(cards: &[Card]) -> Hand {
    let mut hand = Hand::new();
    for &c in cards {
        hand.add_card(c);
    }
    hand
}

fn card(suit: Suit, rank: Rank) -> Card {
    Card::new(suit, rank)
}

fn counts_of_deck(deck: &Deck) -> Vec<usize> {
    let mut counts = vec![0usize; 52];
    for i in 0..deck.len() {
        let c = deck.get(i);
        let s = SUITS.iter().position(|&x| x == c.suit).unwrap();
        let r = RANKS.iter().position(|&x| x == c.rank).unwrap();
        counts[s * 13 + r] += 1;
    }
    counts
}

#[test]
fn fresh_deck_has_each_card_once() {
    let deck = Deck::new();
    assert_eq!(deck.len(), 52);
    let counts = counts_of_deck(&deck);
    assert!(counts.iter().all(|&n| n == 1));
}

#[test]
fn shuffle_keeps_membership() {
    let mut deck = Deck::new();
    deck.shuffle();
    assert_eq!(deck.len(), 52);
    let counts = counts_of_deck(&deck);
    assert!(counts.iter().all(|&n| n == 1));
}

#[test]
fn deal_runs_the_deck_down_and_reports_exhaustion() {
    let mut deck = Deck::new();
    for i in 0..52 {
        assert_eq!(deck.len(), 52 - i);
        assert!(deck.deal().is_some());
    }
    assert_eq!(deck.len(), 0);
    assert!(deck.deal().is_none());
    assert!(deck.deal().is_none());
}

#[test]
fn deal_returns_the_last_card() {
    let cards = all_cards();
    let mut deck = Deck::from_cards(cards.clone());
    let dealt = deck.deal().unwrap();
    assert_eq!(dealt, *cards.last().unwrap());
}

#[test]
fn rank_values() {
    let expected: [(Rank, u8); 13] = [
        (Rank::Two, 2),
        (Rank::Three, 3),
        (Rank::Four, 4),
        (Rank::Five, 5),
        (Rank::Six, 6),
        (Rank::Seven, 7),
        (Rank::Eight, 8),
        (Rank::Nine, 9),
        (Rank::Ten, 10),
        (Rank::Jack, 10),
        (Rank::Queen, 10),
        (Rank::King, 10),
        (Rank::Ace, 11),
    ];
    for (rank, value) in expected {
        assert_eq!(rank.value(), value);
    }
}

#[test]
fn ace_king_is_twenty_one() {
    let hand = hand_of(&[card(Suit::Spades, Rank::Ace), card(Suit::Hearts, Rank::King)]);
    assert_eq!(hand.value(), 21);
}

#[test]
fn ace_ace_nine_is_twenty_one() {
    let hand = hand_of(&[
        card(Suit::Spades, Rank::Ace),
        card(Suit::Hearts, Rank::Ace),
        card(Suit::Clubs, Rank::Nine),
    ]);
    assert_eq!(hand.value(), 21);
}

#[test]
fn ten_nine_king_busts_at_twenty_nine() {
    let hand = hand_of(&[
        card(Suit::Spades, Rank::Ten),
        card(Suit::Hearts, Rank::Nine),
        card(Suit::Clubs, Rank::King),
    ]);
    assert_eq!(hand.value(), 29);
}

#[test]
fn aces_downgrade_one_at_a_time() {
    assert_eq!(hand_of(&[card(Suit::Spades, Rank::Ace), card(Suit::Hearts, Rank::Ace)]).value(), 12);
    assert_eq!(hand_of(&[card(Suit::Spades, Rank::Ace), card(Suit::Hearts, Rank::Five)]).value(), 16);
    assert_eq!(
        hand_of(&[
            card(Suit::Spades, Rank::Ace),
            card(Suit::Hearts, Rank::Ace),
            card(Suit::Clubs, Rank::Ace),
            card(Suit::Diamonds, Rank::Eight),
        ])
        .value(),
        21
    );
    assert_eq!(
        hand_of(&[
            card(Suit::Spades, Rank::Ace),
            card(Suit::Hearts, Rank::Ace),
            card(Suit::Clubs, Rank::King),
            card(Suit::Diamonds, Rank::Queen),
        ])
        .value(),
        22
    );
}

#[test]
fn raw_sum_within_twenty_one_is_reported_as_is() {
    let hand = hand_of(&[card(Suit::Spades, Rank::Ace), card(Suit::Hearts, Rank::Nine)]);
    assert_eq!(hand.value(), 20);
}

#[test]
fn value_ignores_order() {
    let a = [
        card(Suit::Spades, Rank::Ace),
        card(Suit::Hearts, Rank::Seven),
        card(Suit::Clubs, Rank::King),
    ];
    let b = [
        card(Suit::Clubs, Rank::King),
        card(Suit::Spades, Rank::Ace),
        card(Suit::Hearts, Rank::Seven),
    ];
    assert_eq!(hand_of(&a).value(), hand_of(&b).value());
}

#[test]
fn card_display_tokens() {
    assert_eq!(card(Suit::Spades, Rank::Ace).display_str(), "A\u{2660}");
    assert_eq!(card(Suit::Hearts, Rank::Ten).display_str(), "10\u{2665}");
    assert_eq!(card(Suit::Diamonds, Rank::Queen).display_str(), "Q\u{2666}");
    assert_eq!(card(Suit::Clubs, Rank::Two).display_str(), "2\u{2663}");
}

#[test]
fn hand_display_joins_with_spaces() {
    let hand = hand_of(&[card(Suit::Spades, Rank::Ace), card(Suit::Diamonds, Rank::King)]);
    assert_eq!(hand.display_str(), "A\u{2660} K\u{2666}");
    assert_eq!(Hand::new().display_str(), "");
}

#[test]
fn new_round_deals_two_cards_each() {
    let app = BlackjackApp::new();
    let player_cards = app.player_display();
    assert_eq!(player_cards.split(' ').count(), 2);
    match app.state() {
        GameState::PlayerTurn => {
            assert!(app.player_value() < 21);
            assert_eq!(app.outcome(), RoundOutcome::Pending);
            assert_eq!(app.round_result(), "");
            assert_eq!(app.dealer_display().split(' ').count(), 2);
        }
        GameState::RoundEnd => {
            assert_eq!(app.player_value(), 21);
            assert!(app.dealer_value() >= 17);
            assert_ne!(app.outcome(), RoundOutcome::Pending);
        }
        GameState::DealerTurn => panic!("a finished action never leaves the dealer mid-turn"),
    }
}

#[test]
fn reset_round_starts_afresh() {
    let mut app = BlackjackApp::new();
    app.reset_round();
    assert_eq!(app.player_display().split(' ').count(), 2);
    assert!(matches!(app.state(), GameState::PlayerTurn | GameState::RoundEnd));
}

#[test]
fn player_twenty_beats_dealer_nineteen() {
    let deck = rigged_deck(&[
        card(Suit::Spades, Rank::King),
        card(Suit::Hearts, Rank::Ten),
        card(Suit::Spades, Rank::Queen),
        card(Suit::Hearts, Rank::Nine),
    ]);
    let mut app = BlackjackApp::new_with_deck(deck);
    assert_eq!(app.state(), GameState::PlayerTurn);
    assert_eq!(app.player_value(), 20);
    app.handle_stand();
    assert_eq!(app.state(), GameState::RoundEnd);
    assert_eq!(app.dealer_value(), 19);
    assert_eq!(app.outcome(), RoundOutcome::PlayerWin);
    assert_eq!(app.round_result(), "You win! (20 vs 19)");
}

#[test]
fn equal_totals_push() {
    let deck = rigged_deck(&[
        card(Suit::Spades, Rank::Nine),
        card(Suit::Hearts, Rank::Ten),
        card(Suit::Diamonds, Rank::Nine),
        card(Suit::Hearts, Rank::Eight),
    ]);
    let mut app = BlackjackApp::new_with_deck(deck);
    assert_eq!(app.player_value(), 18);
    app.handle_stand();
    assert_eq!(app.dealer_value(), 18);
    assert_eq!(app.outcome(), RoundOutcome::Push);
    assert_eq!(app.round_result(), "Push! It's a tie at 18");
}

#[test]
fn player_bust_ends_round_without_dealer_draws() {
    let deck = rigged_deck(&[
        card(Suit::Spades, Rank::King),
        card(Suit::Hearts, Rank::Ten),
        card(Suit::Spades, Rank::Queen),
        card(Suit::Hearts, Rank::Nine),
        card(Suit::Hearts, Rank::Jack),
    ]);
    let mut app = BlackjackApp::new_with_deck(deck);
    assert_eq!(app.player_value(), 20);
    app.handle_hit();
    assert_eq!(app.player_value(), 30);
    assert_eq!(app.state(), GameState::RoundEnd);
    assert_eq!(app.outcome(), RoundOutcome::PlayerBust);
    assert_eq!(app.round_result(), "BUST! You lose this round.");
    // the dealer never played: still the two opening cards
    assert_eq!(app.dealer_display().split(' ').count(), 2);
    assert_eq!(app.dealer_value(), 19);
}

#[test]
fn dealer_bust_wins_for_any_player_total() {
    let deck = rigged_deck(&[
        card(Suit::Spades, Rank::Two),
        card(Suit::Hearts, Rank::Ten),
        card(Suit::Spades, Rank::Three),
        card(Suit::Hearts, Rank::Six),
        card(Suit::Hearts, Rank::King),
    ]);
    let mut app = BlackjackApp::new_with_deck(deck);
    assert_eq!(app.player_value(), 5);
    app.handle_stand();
    assert_eq!(app.dealer_value(), 26);
    assert_eq!(app.outcome(), RoundOutcome::DealerBust);
    assert_eq!(app.round_result(), "Dealer busts! You win!");
}

#[test]
fn dealer_draws_to_seventeen_exactly() {
    // dealer starts at 16 and must draw exactly once to reach 21
    let deck = rigged_deck(&[
        card(Suit::Spades, Rank::King),
        card(Suit::Hearts, Rank::Ten),
        card(Suit::Spades, Rank::Queen),
        card(Suit::Hearts, Rank::Six),
        card(Suit::Hearts, Rank::Five),
    ]);
    let mut app = BlackjackApp::new_with_deck(deck);
    app.handle_stand();
    assert_eq!(app.dealer_display().split(' ').count(), 3);
    assert_eq!(app.dealer_value(), 21);
    assert_eq!(app.outcome(), RoundOutcome::DealerWin);
    assert_eq!(app.round_result(), "You lose. (20 vs 21)");
}

#[test]
fn dealer_standing_total_draws_nothing() {
    let deck = rigged_deck(&[
        card(Suit::Spades, Rank::King),
        card(Suit::Hearts, Rank::Ten),
        card(Suit::Spades, Rank::Nine),
        card(Suit::Hearts, Rank::Seven),
    ]);
    let mut app = BlackjackApp::new_with_deck(deck);
    assert_eq!(app.player_value(), 19);
    app.handle_stand();
    // dealer opened at 17: not a single draw
    assert_eq!(app.dealer_display().split(' ').count(), 2);
    assert_eq!(app.dealer_value(), 17);
    assert_eq!(app.outcome(), RoundOutcome::PlayerWin);
}

#[test]
fn player_natural_skips_player_turn() {
    let deck = rigged_deck(&[
        card(Suit::Spades, Rank::Ace),
        card(Suit::Hearts, Rank::Ten),
        card(Suit::Spades, Rank::King),
        card(Suit::Hearts, Rank::Nine),
    ]);
    let app = BlackjackApp::new_with_deck(deck);
    assert_eq!(app.state(), GameState::RoundEnd);
    assert_eq!(app.player_value(), 21);
    assert_eq!(app.dealer_value(), 19);
    assert_eq!(app.outcome(), RoundOutcome::PlayerWin);
    assert_eq!(app.round_result(), "You win! (21 vs 19)");
}

#[test]
fn hit_to_twenty_one_resolves_at_once() {
    let deck = rigged_deck(&[
        card(Suit::Spades, Rank::King),
        card(Suit::Hearts, Rank::Ten),
        card(Suit::Spades, Rank::Five),
        card(Suit::Hearts, Rank::Nine),
        card(Suit::Hearts, Rank::Six),
    ]);
    let mut app = BlackjackApp::new_with_deck(deck);
    assert_eq!(app.player_value(), 15);
    app.handle_hit();
    assert_eq!(app.player_value(), 21);
    assert_eq!(app.state(), GameState::RoundEnd);
    assert_eq!(app.outcome(), RoundOutcome::PlayerWin);
}

#[test]
fn hit_under_twenty_one_stays_in_player_turn() {
    let deck = rigged_deck(&[
        card(Suit::Spades, Rank::Two),
        card(Suit::Hearts, Rank::Ten),
        card(Suit::Spades, Rank::Three),
        card(Suit::Hearts, Rank::Nine),
        card(Suit::Hearts, Rank::Four),
    ]);
    let mut app = BlackjackApp::new_with_deck(deck);
    assert_eq!(app.player_value(), 5);
    app.handle_hit();
    assert_eq!(app.player_value(), 9);
    assert_eq!(app.state(), GameState::PlayerTurn);
    assert_eq!(app.outcome(), RoundOutcome::Pending);
    assert_eq!(app.round_result(), "");
}

#[test]
fn actions_after_round_end_are_no_ops() {
    let deck = rigged_deck(&[
        card(Suit::Spades, Rank::King),
        card(Suit::Hearts, Rank::Ten),
        card(Suit::Spades, Rank::Queen),
        card(Suit::Hearts, Rank::Nine),
    ]);
    let mut app = BlackjackApp::new_with_deck(deck);
    app.handle_stand();
    let state = app.state();
    let player = app.player_display();
    let dealer = app.dealer_display();
    let message = app.round_result();
    app.handle_hit();
    app.handle_stand();
    assert_eq!(app.state(), state);
    assert_eq!(app.player_display(), player);
    assert_eq!(app.dealer_display(), dealer);
    assert_eq!(app.round_result(), message);
}

#[test]
fn round_uses_each_card_at_most_once() {
    let mut app = BlackjackApp::new();
    app.handle_stand();
    let player = app.player_display();
    let dealer = app.dealer_display();
    let mut seen: Vec<String> = Vec::new();
    for token in player.split(' ').chain(dealer.split(' ')) {
        assert!(!seen.contains(&token.to_string()), "card dealt twice: {}", token);
        seen.push(token.to_string());
    }
}
