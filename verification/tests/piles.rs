//! Pile behaviour: the legality rules, lifts, placements and the
//! stock/discard advance cycle.

use klondike::card::{Card, CardSink, CardSource, PhysicalCard, Suit, Value};
use klondike::foundation::Foundation;
use klondike::game::{CardSinks, CardSources};
use klondike::stock_discard::StockDiscard;
use klondike::tableau::Tableau;

fn pc(value: Value, suit: Suit) -> PhysicalCard {
    PhysicalCard::new(0, 0, &Card(value, suit))
}

fn empty_tableau() -> Tableau {
    Tableau::new(10, 205, CardSinks::Tableau1, CardSources::Tableau1)
}

#[test]
fn empty_tableau_takes_king_only() {
    // A lone Queen is refused; a lone King becomes the sole card.
    let mut t = empty_tableau();
    let queen = vec![Card(Value::Queen, Suit::Hearts)];
    assert!(!t.is_placement_possible(&queen));
    assert!(t.place_cards(0, 0, vec![pc(Value::Queen, Suit::Hearts)]).is_err());
    assert_eq!(t.cards.len(), 0);

    let king = vec![Card(Value::King, Suit::Spades)];
    assert!(t.is_placement_possible(&king));
    assert!(t.place_cards(0, 0, vec![pc(Value::King, Suit::Spades)]).is_ok());
    assert_eq!(t.cards.len(), 1);
    assert_eq!(t.cards[0].card(), Card(Value::King, Suit::Spades));
}

#[test]
fn tableau_requires_alternating_colour_one_below() {
    // Top is the red Eight of Diamonds, face-up.
    let mut t = Tableau::from_cards(
        10,
        205,
        vec![pc(Value::Eight, Suit::Diamonds)],
        CardSinks::Tableau1,
        CardSources::Tableau1,
    );
    // The black Seven lands; the red Seven does not (same colour).
    assert!(t.is_placement_possible(&vec![Card(Value::Seven, Suit::Clubs)]));
    assert!(t.place_cards(0, 0, vec![pc(Value::Seven, Suit::Clubs)]).is_ok());
    assert_eq!(t.cards.len(), 2);

    let before: Vec<Card> = t.cards.iter().map(|c| c.card()).collect();
    assert!(!t.is_placement_possible(&vec![Card(Value::Seven, Suit::Diamonds)]));
    assert!(t.place_cards(0, 0, vec![pc(Value::Seven, Suit::Diamonds)]).is_err());
    // Move atomicity: the rejected run changed nothing.
    let after: Vec<Card> = t.cards.iter().map(|c| c.card()).collect();
    assert_eq!(before, after);
}

#[test]
fn foundation_builds_ace_up_same_suit() {
    let mut f = Foundation::new(445, 10, CardSinks::Foundation1, CardSources::Foundation1);
    // The Two is refused while the foundation is empty.
    assert!(!f.is_placement_possible(&vec![Card(Value::Two, Suit::Spades)]));
    assert!(f.place_cards(0, 0, vec![pc(Value::Two, Suit::Spades)]).is_err());
    assert_eq!(f.cards.len(), 0);
    // Ace, then the Two of the same suit.
    assert!(f.place_cards(0, 0, vec![pc(Value::Ace, Suit::Spades)]).is_ok());
    assert!(f.place_cards(0, 0, vec![pc(Value::Two, Suit::Spades)]).is_ok());
    // The Two of Hearts is the wrong suit.
    assert!(!f.is_placement_possible(&vec![Card(Value::Two, Suit::Hearts)]));
    assert!(f.place_cards(0, 0, vec![pc(Value::Two, Suit::Hearts)]).is_err());
    assert_eq!(f.cards.len(), 2);
    assert_eq!(f.cards[1].card(), Card(Value::Two, Suit::Spades));
}

#[test]
fn foundation_refuses_multi_card_runs() {
    let f = Foundation::new(445, 10, CardSinks::Foundation1, CardSources::Foundation1);
    let run = vec![Card(Value::Ace, Suit::Spades), Card(Value::Two, Suit::Spades)];
    assert!(!f.is_placement_possible(&run));
}

#[test]
fn deal_seeds_tableau_face_down_except_top() {
    let t = Tableau::from_cards(
        10,
        205,
        vec![
            pc(Value::Nine, Suit::Hearts),
            pc(Value::Four, Suit::Clubs),
            pc(Value::Eight, Suit::Diamonds),
        ],
        CardSinks::Tableau1,
        CardSources::Tableau1,
    );
    assert!(t.cards[0].flipped);
    assert!(t.cards[1].flipped);
    assert!(!t.cards[2].flipped);
    // Cards stack downward with the fixed stride.
    assert_eq!(t.cards[0].position(), (10, 205));
    assert_eq!(t.cards[1].position(), (10, 250));
    assert_eq!(t.cards[2].position(), (10, 295));
}

#[test]
fn taking_exposes_and_flips_the_next_card() {
    let mut t = Tableau::from_cards(
        10,
        205,
        vec![pc(Value::Nine, Suit::Hearts), pc(Value::Eight, Suit::Diamonds)],
        CardSinks::Tableau1,
        CardSources::Tableau1,
    );
    let taken = t.take_cards(1);
    assert_eq!(taken.len(), 1);
    assert_eq!(taken[0].card(), Card(Value::Eight, Suit::Diamonds));
    assert_eq!(t.cards.len(), 1);
    assert_eq!(t.cards[0].card(), Card(Value::Nine, Suit::Hearts));
    // The newly exposed card turned face-up: it never turns back.
    assert!(!t.cards[0].flipped);
}

#[test]
fn taking_more_than_the_face_up_run_degrades() {
    let mut t = Tableau::from_cards(
        10,
        205,
        vec![pc(Value::Nine, Suit::Hearts), pc(Value::Eight, Suit::Diamonds)],
        CardSinks::Tableau1,
        CardSources::Tableau1,
    );
    // Only one card is face-up, so a request for five takes one.
    let taken = t.take_cards(5);
    assert_eq!(taken.len(), 1);
    assert_eq!(t.cards.len(), 1);
}

#[test]
fn hit_scan_counts_the_struck_run() {
    let mut t = Tableau::from_cards(
        10,
        205,
        vec![pc(Value::Eight, Suit::Diamonds)],
        CardSinks::Tableau1,
        CardSources::Tableau1,
    );
    assert!(t.place_cards(0, 0, vec![pc(Value::Seven, Suit::Clubs)]).is_ok());
    // A point on the exposed sliver of the Eight lifts both cards...
    assert_eq!(t.how_many_cards(50, 240), 2);
    // ...a point on the Seven lifts only it...
    assert_eq!(t.how_many_cards(50, 260), 1);
    // ...and a miss lifts nothing.
    assert_eq!(t.how_many_cards(50, 600), 0);
}

#[test]
fn hit_scan_returns_zero_on_face_down_cards() {
    let t = Tableau::from_cards(
        10,
        205,
        vec![pc(Value::Nine, Suit::Hearts), pc(Value::Eight, Suit::Diamonds)],
        CardSinks::Tableau1,
        CardSources::Tableau1,
    );
    // The face-down Nine is struck on its exposed sliver: nothing lifts.
    assert_eq!(t.how_many_cards(50, 240), 0);
}

#[test]
fn drop_zone_follows_the_top_card() {
    let mut t = Tableau::from_cards(
        10,
        205,
        vec![pc(Value::Eight, Suit::Diamonds)],
        CardSinks::Tableau1,
        CardSources::Tableau1,
    );
    // With one card the zone ends at its bottom edge.
    assert!(CardSink::within_bounds(&t, 50, 300));
    assert!(!CardSink::within_bounds(&t, 50, 420));
    // After a second card lands, the zone moves down with the new top.
    assert!(t.place_cards(0, 0, vec![pc(Value::Seven, Suit::Clubs)]).is_ok());
    assert!(CardSink::within_bounds(&t, 50, 420));
}

#[test]
fn advance_deals_three_then_recycles_reversed() {
    // Stock of five; the discard starts empty.
    let cards = vec![
        pc(Value::Ace, Suit::Spades),
        pc(Value::Two, Suit::Spades),
        pc(Value::Three, Suit::Spades),
        pc(Value::Four, Suit::Spades),
        pc(Value::Five, Suit::Spades),
    ];
    let mut sd = StockDiscard::from_cards(10, 10, cards);
    assert_eq!(sd.stock.cards.len(), 5);
    assert!(sd.stock.cards.iter().all(|c| c.flipped));

    // First advance: three cards to the discard, face-up, the third dealt
    // on top.
    sd.deal_into_discard();
    assert_eq!(sd.stock.cards.len(), 2);
    assert_eq!(sd.discard.cards.len(), 3);
    assert!(sd.discard.cards.iter().all(|c| !c.flipped));
    assert_eq!(sd.discard.cards[2].card(), Card(Value::Three, Suit::Spades));

    // Second advance: the remaining two follow.
    sd.deal_into_discard();
    assert_eq!(sd.stock.cards.len(), 0);
    assert_eq!(sd.discard.cards.len(), 5);
    assert_eq!(sd.discard.cards[4].card(), Card(Value::Ace, Suit::Spades));

    // Third advance: the empty stock recycles the whole discard, reversed
    // and face-down — exactly the original stock.
    sd.deal_into_discard();
    assert_eq!(sd.stock.cards.len(), 5);
    assert_eq!(sd.discard.cards.len(), 0);
    assert!(sd.stock.cards.iter().all(|c| c.flipped));
    assert_eq!(sd.stock.cards[0].card(), Card(Value::Ace, Suit::Spades));
    assert_eq!(sd.stock.cards[4].card(), Card(Value::Five, Suit::Spades));
}

#[test]
fn discard_fans_out_its_top_cards() {
    let cards = vec![
        pc(Value::Ace, Suit::Spades),
        pc(Value::Two, Suit::Spades),
        pc(Value::Three, Suit::Spades),
        pc(Value::Four, Suit::Spades),
        pc(Value::Five, Suit::Spades),
    ];
    let mut sd = StockDiscard::from_cards(10, 10, cards);
    sd.deal_into_discard();
    // Discard anchor sits one card stride right of the stock.
    assert_eq!(sd.discard.cards[0].position(), (155, 10));
    assert_eq!(sd.discard.cards[1].position(), (190, 10));
    assert_eq!(sd.discard.cards[2].position(), (225, 10));
}

#[test]
fn discard_lifts_only_its_top_card() {
    let cards = vec![
        pc(Value::Ace, Suit::Spades),
        pc(Value::Two, Suit::Spades),
        pc(Value::Three, Suit::Spades),
    ];
    let mut sd = StockDiscard::from_cards(10, 10, cards);
    sd.deal_into_discard();
    // The top card (the Ace) is at (225, 10).
    assert_eq!(sd.discard.how_many_cards(250, 50), 1);
    let taken = sd.discard.take_cards(1);
    assert_eq!(taken.len(), 1);
    assert_eq!(taken[0].card(), Card(Value::Ace, Suit::Spades));
    assert_eq!(sd.discard.cards.len(), 2);
}

#[test]
fn foundation_take_pops_its_top() {
    let mut f = Foundation::new(445, 10, CardSinks::Foundation1, CardSources::Foundation1);
    assert!(f.place_cards(0, 0, vec![pc(Value::Ace, Suit::Spades)]).is_ok());
    assert!(f.place_cards(0, 0, vec![pc(Value::Two, Suit::Spades)]).is_ok());
    assert_eq!(f.how_many_cards(500, 50), 1);
    let taken = f.take_cards(1);
    assert_eq!(taken.len(), 1);
    assert_eq!(taken[0].card(), Card(Value::Two, Suit::Spades));
    assert_eq!(f.cards.len(), 1);
}

#[test]
fn taking_nothing_changes_nothing() {
    // A zero-count take leaves a tableau untouched: in particular the
    // face-down top is not flipped.
    let mut t = Tableau::from_cards(
        10,
        205,
        vec![pc(Value::Nine, Suit::Hearts), pc(Value::Eight, Suit::Diamonds)],
        CardSinks::Tableau1,
        CardSources::Tableau1,
    );
    let before: Vec<PhysicalCard> = t.cards.clone();
    assert!(t.take_cards(0).is_empty());
    assert_eq!(t.cards.len(), before.len());
    for i in 0..before.len() {
        assert_eq!(t.cards[i].card(), before[i].card());
        assert_eq!(t.cards[i].flipped, before[i].flipped);
        assert_eq!(t.cards[i].position(), before[i].position());
        assert_eq!(t.cards[i].prev_loc, before[i].prev_loc);
    }
}

#[test]
fn discard_ignores_a_zero_take() {
    // A zero-count take leaves the discard untouched: no re-fan, no moved
    // positions, no overwritten animation anchors.
    let cards = vec![
        pc(Value::Ace, Suit::Spades),
        pc(Value::Two, Suit::Spades),
        pc(Value::Three, Suit::Spades),
    ];
    let mut sd = StockDiscard::from_cards(10, 10, cards);
    sd.deal_into_discard();
    let before: Vec<PhysicalCard> = sd.discard.cards.clone();
    assert!(sd.discard.take_cards(0).is_empty());
    assert_eq!(sd.discard.cards.len(), before.len());
    for i in 0..before.len() {
        assert_eq!(sd.discard.cards[i].card(), before[i].card());
        assert_eq!(sd.discard.cards[i].position(), before[i].position());
        assert_eq!(sd.discard.cards[i].prev_loc, before[i].prev_loc);
    }
}

#[test]
fn recycle_restacks_on_the_stock_anchor() {
    let cards = vec![
        pc(Value::Ace, Suit::Spades),
        pc(Value::Two, Suit::Spades),
        pc(Value::Three, Suit::Spades),
    ];
    let mut sd = StockDiscard::from_cards(10, 10, cards);
    sd.deal_into_discard();
    sd.deal_into_discard();
    // After the recycle every stock card sits face-down on the anchor.
    assert_eq!(sd.stock.cards.len(), 3);
    for c in &sd.stock.cards {
        assert_eq!(c.position(), (10, 10));
        assert!(c.flipped);
    }
}

#[test]
fn multi_card_run_lands_as_one() {
    // An empty tableau accepts a King-Queen run atomically.
    let mut t = empty_tableau();
    let run = vec![pc(Value::King, Suit::Spades), pc(Value::Queen, Suit::Hearts)];
    assert!(t.place_cards(0, 0, run).is_ok());
    assert_eq!(t.cards.len(), 2);
    assert_eq!(t.cards[0].card(), Card(Value::King, Suit::Spades));
    assert_eq!(t.cards[1].card(), Card(Value::Queen, Suit::Hearts));
    assert_eq!(t.cards[1].position(), (10, 250));
}
