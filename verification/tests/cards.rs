//! Card model: suits, values, the deck, and physical cards.

use klondike::card::{Card, CardVisual, PhysicalCard, Suit, SuitColour, Value};
use klondike::util::Bounds;

#[test]
fn suit_colours() {
    assert_eq!(Suit::Spades.colour(), SuitColour::Black);
    assert_eq!(Suit::Clubs.colour(), SuitColour::Black);
    assert_eq!(Suit::Diamonds.colour(), SuitColour::Red);
    assert_eq!(Suit::Hearts.colour(), SuitColour::Red);
}

#[test]
fn next_value_steps_up() {
    assert_eq!(Value::Ace.next_value(), Some(Value::Two));
    assert_eq!(Value::Ten.next_value(), Some(Value::Jack));
    assert_eq!(Value::Queen.next_value(), Some(Value::King));
    assert_eq!(Value::King.next_value(), None);
}

#[test]
fn prev_value_steps_down() {
    assert_eq!(Value::Ace.prev_value(), None);
    assert_eq!(Value::Two.prev_value(), Some(Value::Ace));
    assert_eq!(Value::King.prev_value(), Some(Value::Queen));
    assert_eq!(Value::Jack.prev_value(), Some(Value::Ten));
}

#[test]
fn full_deck_is_52_distinct_cards() {
    let deck = klondike::card::full_deck();
    assert_eq!(deck.len(), 52);
    for i in 0..deck.len() {
        for j in 0..deck.len() {
            if i != j {
                assert!(deck[i] != deck[j]);
            }
        }
    }
    assert!(deck.contains(&Card(Value::King, Suit::Diamonds)));
    assert!(deck.contains(&Card(Value::Ace, Suit::Spades)));
    assert_eq!(deck[0], Card(Value::Ace, Suit::Spades));
}

#[test]
fn physical_card_starts_visible_face_up() {
    let pc = PhysicalCard::new(10, 20, &Card(Value::Five, Suit::Hearts));
    assert_eq!(pc.position(), (10, 20));
    assert_eq!(pc.card(), Card(Value::Five, Suit::Hearts));
    assert!(pc.visible);
    assert!(!pc.flipped);
    assert_eq!(pc.prev_loc, None);
}

#[test]
fn move_to_remembers_previous_location() {
    let mut pc = PhysicalCard::new(10, 20, &Card(Value::Five, Suit::Hearts));
    pc.move_to(100, 200);
    assert_eq!(pc.position(), (100, 200));
    assert_eq!(pc.prev_loc, Some((10, 20)));
    pc.set_position(7, 8);
    assert_eq!(pc.position(), (7, 8));
    assert_eq!(pc.prev_loc, Some((10, 20)));
}

#[test]
fn card_visual_follows_state() {
    let mut pc = PhysicalCard::new(0, 0, &Card(Value::Ace, Suit::Clubs));
    assert_eq!(pc.card_visual(), CardVisual::Card(Card(Value::Ace, Suit::Clubs)));
    pc.set_flipped(true);
    assert_eq!(pc.card_visual(), CardVisual::Flipped);
    pc.set_visible(false);
    assert_eq!(pc.card_visual(), CardVisual::Invisible);
}

#[test]
fn bounds_are_strict_interior() {
    let b = Bounds::new(10, 20, 100, 50);
    assert!(b.contains(11, 21));
    assert!(b.contains(109, 69));
    assert!(!b.contains(10, 30));
    assert!(!b.contains(110, 30));
    assert!(!b.contains(50, 20));
    assert!(!b.contains(50, 70));
}

#[test]
fn card_hit_box_uses_card_size() {
    let pc = PhysicalCard::new(10, 205, &Card(Value::Eight, Suit::Diamonds));
    assert!(pc.within_bounds(50, 250));
    assert!(pc.within_bounds(134, 379));
    assert!(!pc.within_bounds(135, 250));
    assert!(!pc.within_bounds(50, 380));
}
