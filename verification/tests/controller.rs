//! Controller: the deal, deck integrity, and the pick-up/drag/drop state
//! machine driven through the three pointer intents.

use klondike::card::{Card, CardSink, CardSource, PhysicalCard, Suit, Value};
use klondike::foundation::Foundation;
use klondike::game::{CardSinks, CardSources, Game, HeldCard};
use klondike::stock_discard::StockDiscard;
use klondike::tableau::Tableau;

/// A deterministic full game: the unshuffled deck dealt exactly as the
/// random deal distributes it.
fn fixed_game() -> Game {
    let deck = klondike::card::full_deck();
    let mut pcs: Vec<PhysicalCard> = deck.iter().map(|c| PhysicalCard::new(0, 0, c)).collect();
    let rest = pcs.split_off(1);
    let t1 = pcs;
    let mut pcs = rest;
    let rest = pcs.split_off(2);
    let t2 = pcs;
    let mut pcs = rest;
    let rest = pcs.split_off(3);
    let t3 = pcs;
    let mut pcs = rest;
    let rest = pcs.split_off(4);
    let t4 = pcs;
    let mut pcs = rest;
    let rest = pcs.split_off(5);
    let t5 = pcs;
    let mut pcs = rest;
    let rest = pcs.split_off(6);
    let t6 = pcs;
    let mut pcs = rest;
    let rest = pcs.split_off(7);
    let t7 = pcs;
    let stock = rest;
    Game {
        stock_discard: StockDiscard::from_cards(10, 10, stock),
        foundation1: Foundation::new(445, 10, CardSinks::Foundation1, CardSources::Foundation1),
        foundation2: Foundation::new(590, 10, CardSinks::Foundation2, CardSources::Foundation2),
        foundation3: Foundation::new(735, 10, CardSinks::Foundation3, CardSources::Foundation3),
        foundation4: Foundation::new(880, 10, CardSinks::Foundation4, CardSources::Foundation4),
        tableau1: Tableau::from_cards(10, 205, t1, CardSinks::Tableau1, CardSources::Tableau1),
        tableau2: Tableau::from_cards(155, 205, t2, CardSinks::Tableau2, CardSources::Tableau2),
        tableau3: Tableau::from_cards(300, 205, t3, CardSinks::Tableau3, CardSources::Tableau3),
        tableau4: Tableau::from_cards(445, 205, t4, CardSinks::Tableau4, CardSources::Tableau4),
        tableau5: Tableau::from_cards(590, 205, t5, CardSinks::Tableau5, CardSources::Tableau5),
        tableau6: Tableau::from_cards(735, 205, t6, CardSinks::Tableau6, CardSources::Tableau6),
        tableau7: Tableau::from_cards(880, 205, t7, CardSinks::Tableau7, CardSources::Tableau7),
        held_card: None,
    }
}

fn all_cards(g: &Game) -> Vec<Card> {
    let mut all: Vec<Card> = Vec::new();
    for c in &g.stock_discard.stock.cards {
        all.push(c.card());
    }
    for c in &g.stock_discard.discard.cards {
        all.push(c.card());
    }
    for f in [&g.foundation1, &g.foundation2, &g.foundation3, &g.foundation4] {
        for c in &f.cards {
            all.push(c.card());
        }
    }
    for t in [
        &g.tableau1, &g.tableau2, &g.tableau3, &g.tableau4, &g.tableau5, &g.tableau6, &g.tableau7,
    ] {
        for c in &t.cards {
            all.push(c.card());
        }
    }
    all
}

#[test]
fn deal_distributes_one_to_seven_and_stock() {
    let g = Game::new();
    assert!(g.held_card.is_none());
    assert_eq!(g.stock_discard.stock.cards.len(), 24);
    assert_eq!(g.stock_discard.discard.cards.len(), 0);
    assert_eq!(g.foundation1.cards.len(), 0);
    assert_eq!(g.tableau1.cards.len(), 1);
    assert_eq!(g.tableau2.cards.len(), 2);
    assert_eq!(g.tableau3.cards.len(), 3);
    assert_eq!(g.tableau4.cards.len(), 4);
    assert_eq!(g.tableau5.cards.len(), 5);
    assert_eq!(g.tableau6.cards.len(), 6);
    assert_eq!(g.tableau7.cards.len(), 7);
}

#[test]
fn deal_preserves_deck_integrity() {
    // After the deal, the cards across all piles are the 52-card deck,
    // each exactly once.
    let g = Game::new();
    let all = all_cards(&g);
    assert_eq!(all.len(), 52);
    let deck = klondike::card::full_deck();
    for card in &deck {
        assert_eq!(all.iter().filter(|c| *c == card).count(), 1);
    }
}

#[test]
fn pointer_down_on_stock_advances() {
    let mut g = fixed_game();
    // The stock's hot-zone is its card footprint at (10, 10).
    assert!(g.pointer_down(50, 50));
    assert_eq!(g.stock_discard.stock.cards.len(), 21);
    assert_eq!(g.stock_discard.discard.cards.len(), 3);
    assert!(g.held_card.is_none());
    // The unshuffled stock holds Diamonds on top: King, Queen, Jack dealt,
    // the Jack landing on top of the fan.
    assert_eq!(
        g.stock_discard.discard.cards[2].card(),
        Card(Value::Jack, Suit::Diamonds)
    );
    // Integrity is untouched.
    assert_eq!(all_cards(&g).len(), 52);
}

#[test]
fn drag_a_card_to_a_foundation() {
    let mut g = fixed_game();
    // The first tableau holds the lone, face-up Ace of Spades.
    assert_eq!(g.tableau1.cards[0].card(), Card(Value::Ace, Suit::Spades));

    // Pick it up: it stays in its pile but goes hidden; a held record
    // appears.
    assert!(g.pointer_down(50, 250));
    let held = g.held_card.as_ref().expect("a run should be held");
    assert_eq!(held.cards, vec![Card(Value::Ace, Suit::Spades)]);
    assert_eq!(held.source, CardSources::Tableau1);
    assert!(!g.tableau1.cards[0].visible);
    assert_eq!(g.tableau1.cards.len(), 1);
    assert_eq!(all_cards(&g).len(), 52);

    // Drag follows the pointer, centred under it.
    assert!(g.pointer_move(300, 100));
    let held = g.held_card.as_ref().expect("still held");
    assert_eq!((held.x, held.y), (300 - 62, 100 - 87));

    // Release over the first foundation: the Ace transfers.
    assert!(g.pointer_up(500, 100));
    assert!(g.held_card.is_none());
    assert_eq!(g.tableau1.cards.len(), 0);
    assert_eq!(g.foundation1.cards.len(), 1);
    assert_eq!(g.foundation1.cards[0].card(), Card(Value::Ace, Suit::Spades));
    assert!(g.foundation1.cards[0].visible);
    assert_eq!(all_cards(&g).len(), 52);
}

#[test]
fn release_over_nothing_snaps_back() {
    let mut g = fixed_game();
    assert!(g.pointer_down(50, 250));
    assert!(g.held_card.is_some());
    // Release over empty table: the card shows again at the release
    // point; nothing moved.
    assert!(g.pointer_up(600, 600));
    assert!(g.held_card.is_none());
    assert_eq!(g.tableau1.cards.len(), 1);
    assert!(g.tableau1.cards[0].visible);
    assert_eq!(g.tableau1.cards[0].prev_loc, Some((600 - 62, 600 - 87)));
    assert_eq!(all_cards(&g).len(), 52);
}

#[test]
fn second_down_while_holding_is_a_no_op() {
    let mut g = fixed_game();
    assert!(g.pointer_down(50, 250));
    let before = g.tableau2.cards.len();
    // A second press, even on another pile, changes nothing.
    assert!(!g.pointer_down(200, 250));
    assert_eq!(g.tableau2.cards.len(), before);
    assert!(g.held_card.is_some());
}

#[test]
fn pointer_down_on_empty_table_does_nothing() {
    let mut g = fixed_game();
    assert!(!g.pointer_down(600, 600));
    assert!(g.held_card.is_none());
}

#[test]
fn pointer_move_without_hold_does_nothing() {
    let mut g = fixed_game();
    assert!(!g.pointer_move(300, 300));
    assert!(!g.pointer_up(300, 300));
}

#[test]
fn held_card_follows_mouse_centred() {
    let cards = vec![Card(Value::Ace, Suit::Spades)];
    let mut h = HeldCard::new(cards, CardSources::Tableau1, 200, 300, (10, 205));
    assert_eq!((h.x, h.y), (200 - 62, 300 - 87));
    assert_eq!(h.prev_pos, Some((10, 205)));
    assert_eq!(h.source(), CardSources::Tableau1);
    h.set_mouse_position(400, 500);
    assert_eq!((h.x, h.y), (400 - 62, 500 - 87));
    assert_eq!(h.prev_pos, Some((200 - 62, 300 - 87)));
}

#[test]
fn discard_top_can_be_picked_up() {
    let mut g = fixed_game();
    // Advance once so the discard holds three cards, the Jack of
    // Diamonds fanned out on top at the right of the fan.
    assert!(g.pointer_down(50, 50));
    // Pick the top of the discard: sources are scanned discard-first.
    assert!(g.pointer_down(250, 50));
    let held = g.held_card.as_ref().expect("the discard top should lift");
    assert_eq!(held.source, CardSources::Discard);
    assert_eq!(held.cards, vec![Card(Value::Jack, Suit::Diamonds)]);
    // No sink wants a lone Jack here: it snaps back.
    assert!(g.pointer_up(50, 600));
    assert!(g.held_card.is_none());
    assert_eq!(g.stock_discard.discard.cards.len(), 3);
    assert!(g.stock_discard.discard.cards[2].visible);
    assert_eq!(all_cards(&g).len(), 52);
}

#[test]
fn foundation_top_can_be_picked_up_again() {
    let mut g = fixed_game();
    // Move the Ace of Spades onto the first foundation...
    assert!(g.pointer_down(50, 250));
    assert!(g.pointer_up(500, 100));
    assert_eq!(g.foundation1.cards.len(), 1);
    // ...then lift it back off; nothing takes an Ace, so it snaps back.
    assert!(g.pointer_down(500, 50));
    let held = g.held_card.as_ref().expect("the foundation top should lift");
    assert_eq!(held.source, CardSources::Foundation1);
    assert_eq!(held.cards, vec![Card(Value::Ace, Suit::Spades)]);
    assert!(g.pointer_up(50, 600));
    assert!(g.held_card.is_none());
    assert_eq!(g.foundation1.cards.len(), 1);
    assert!(g.foundation1.cards[0].visible);
    assert_eq!(all_cards(&g).len(), 52);
}

#[test]
fn build_a_run_then_move_it_whole() {
    // A black Three tops a buried Nine; the red Two lands on the Three,
    // and a pick on the Three's exposed sliver lifts the pair as one run.
    let mut t = Tableau::from_cards(
        10,
        205,
        vec![
            PhysicalCard::new(0, 0, &Card(Value::Nine, Suit::Hearts)),
            PhysicalCard::new(0, 0, &Card(Value::Three, Suit::Spades)),
        ],
        CardSinks::Tableau1,
        CardSources::Tableau1,
    );
    let two_hearts = PhysicalCard::new(0, 0, &Card(Value::Two, Suit::Hearts));
    assert!(t.place_cards(0, 0, vec![two_hearts]).is_ok());
    assert_eq!(t.how_many_cards(50, 260), 2);
    let taken = t.take_cards(2);
    assert_eq!(taken.len(), 2);
    assert_eq!(taken[0].card(), Card(Value::Three, Suit::Spades));
    assert_eq!(taken[1].card(), Card(Value::Two, Suit::Hearts));
    // The buried Nine flips up.
    assert!(!t.cards[0].flipped);
}
