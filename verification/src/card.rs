//! The card model: suits, values, the 52-card deck, and the mutable
//! "physical card" that piles place in world space.

use vstd::prelude::*;

verus! {

use vstd::pervasive::VecAdditionalExecFns;

use crate::game::{CardSinks, CardSources};
use crate::util::Bounds;
use crate::{coord_ok, CARD_HEIGHT, CARD_WIDTH};

/// One of the four French suits.
#[derive(Clone, Copy, Debug, PartialEq, Eq, Structural)]
pub enum Suit {
    Spades,
    Clubs,
    Diamonds,
    Hearts,
}

/// The colour a suit prints in; tableau stacking alternates on it.
#[derive(Clone, Copy, Debug, PartialEq, Eq, Structural)]
pub enum SuitColour {
    Red,
    Black,
}

impl Suit {
    /// Spades and Clubs are black; Diamonds and Hearts are red.
    pub open spec fn colour_spec(self) -> SuitColour {
        match self {
            Suit::Spades | Suit::Clubs => SuitColour::Black,
            Suit::Diamonds | Suit::Hearts => SuitColour::Red,
        }
    }

    /// Position of the suit in the deck's fixed suit order.
    pub open spec fn index_spec(self) -> int {
        match self {
            Suit::Spades => 0,
            Suit::Clubs => 1,
            Suit::Hearts => 2,
            Suit::Diamonds => 3,
        }
    }

    pub fn colour(&self) -> (c: SuitColour)
        ensures
            c == self.colour_spec(),
    {
        match self {
            Suit::Spades | Suit::Clubs => SuitColour::Black,
            Suit::Diamonds | Suit::Hearts => SuitColour::Red,
        }
    }
}

/// Card value, totally ordered Ace..King.
#[derive(Clone, Copy, Debug, PartialEq, Eq, Structural)]
pub enum Value {
    Ace,
    Two,
    Three,
    Four,
    Five,
    Six,
    Seven,
    Eight,
    Nine,
    Ten,
    Jack,
    Queen,
    King,
}

impl Value {
    /// Rank of the value: Ace is 0, King is 12.
    pub open spec fn index_spec(self) -> int {
        match self {
            Value::Ace => 0,
            Value::Two => 1,
            Value::Three => 2,
            Value::Four => 3,
            Value::Five => 4,
            Value::Six => 5,
            Value::Seven => 6,
            Value::Eight => 7,
            Value::Nine => 8,
            Value::Ten => 9,
            Value::Jack => 10,
            Value::Queen => 11,
            Value::King => 12,
        }
    }

    /// The value one rank above, if any; King has none.
    pub open spec fn next_spec(self) -> Option<Value> {
        match self {
            Value::Ace => Some(Value::Two),
            Value::Two => Some(Value::Three),
            Value::Three => Some(Value::Four),
            Value::Four => Some(Value::Five),
            Value::Five => Some(Value::Six),
            Value::Six => Some(Value::Seven),
            Value::Seven => Some(Value::Eight),
            Value::Eight => Some(Value::Nine),
            Value::Nine => Some(Value::Ten),
            Value::Ten => Some(Value::Jack),
            Value::Jack => Some(Value::Queen),
            Value::Queen => Some(Value::King),
            Value::King => None,
        }
    }

    /// The value one rank below, if any; Ace has none.
    pub open spec fn prev_spec(self) -> Option<Value> {
        match self {
            Value::Ace => None,
            Value::Two => Some(Value::Ace),
            Value::Three => Some(Value::Two),
            Value::Four => Some(Value::Three),
            Value::Five => Some(Value::Four),
            Value::Six => Some(Value::Five),
            Value::Seven => Some(Value::Six),
            Value::Eight => Some(Value::Seven),
            Value::Nine => Some(Value::Eight),
            Value::Ten => Some(Value::Nine),
            Value::Jack => Some(Value::Ten),
            Value::Queen => Some(Value::Jack),
            Value::King => Some(Value::Queen),
        }
    }

    pub fn next_value(&self) -> (r: Option<Value>)
        ensures
            r == self.next_spec(),
            r is Some <==> self.index_spec() < 12,
            r is Some ==> r->0.index_spec() == self.index_spec() + 1,
    {
        match self {
            Value::Ace => Some(Value::Two),
            Value::Two => Some(Value::Three),
            Value::Three => Some(Value::Four),
            Value::Four => Some(Value::Five),
            Value::Five => Some(Value::Six),
            Value::Six => Some(Value::Seven),
            Value::Seven => Some(Value::Eight),
            Value::Eight => Some(Value::Nine),
            Value::Nine => Some(Value::Ten),
            Value::Ten => Some(Value::Jack),
            Value::Jack => Some(Value::Queen),
            Value::Queen => Some(Value::King),
            Value::King => None,
        }
    }

    pub fn prev_value(&self) -> (r: Option<Value>)
        ensures
            r == self.prev_spec(),
            r is Some <==> self.index_spec() > 0,
            r is Some ==> r->0.index_spec() == self.index_spec() - 1,
    {
        match self {
            Value::Ace => None,
            Value::Two => Some(Value::Ace),
            Value::Three => Some(Value::Two),
            Value::Four => Some(Value::Three),
            Value::Five => Some(Value::Four),
            Value::Six => Some(Value::Five),
            Value::Seven => Some(Value::Six),
            Value::Eight => Some(Value::Seven),
            Value::Nine => Some(Value::Eight),
            Value::Ten => Some(Value::Nine),
            Value::Jack => Some(Value::Ten),
            Value::Queen => Some(Value::Jack),
            Value::King => Some(Value::Queen),
        }
    }
}

/// Immutable card identity: a (value, suit) pair.
#[derive(Clone, Copy, Debug, PartialEq, Eq, Structural)]
pub struct Card(pub Value, pub Suit);

/// The suit holding position `i` of the deck's suit order.
pub open spec fn suit_of_index(i: int) -> Suit {
    if i == 0 {
        Suit::Spades
    } else if i == 1 {
        Suit::Clubs
    } else if i == 2 {
        Suit::Hearts
    } else {
        Suit::Diamonds
    }
}

/// The value of rank `i`, for `0 <= i < 13`.
pub open spec fn value_of_index(i: int) -> Value {
    if i == 0 {
        Value::Ace
    } else if i == 1 {
        Value::Two
    } else if i == 2 {
        Value::Three
    } else if i == 3 {
        Value::Four
    } else if i == 4 {
        Value::Five
    } else if i == 5 {
        Value::Six
    } else if i == 6 {
        Value::Seven
    } else if i == 7 {
        Value::Eight
    } else if i == 8 {
        Value::Nine
    } else if i == 9 {
        Value::Ten
    } else if i == 10 {
        Value::Jack
    } else if i == 11 {
        Value::Queen
    } else {
        Value::King
    }
}

/// Card number `i` of the standard deck, counted suit-major.
pub open spec fn deck_card(i: int) -> Card {
    Card(value_of_index(i % 13), suit_of_index(i / 13))
}

/// The standard 52-card deck in its fixed order.
pub open spec fn deck_seq() -> Seq<Card> {
    Seq::new(52, |i: int| deck_card(i))
}

/// Position of a card in the deck order; inverse of `deck_card`.
pub open spec fn card_position(c: Card) -> int {
    c.1.index_spec() * 13 + c.0.index_spec()
}

/// `card_position` inverts `deck_card`, so the 52 deck entries are distinct.
pub proof fn lemma_deck_card_position(i: int)
    requires
        0 <= i < 52,
    ensures
        card_position(deck_card(i)) == i,
{
    assert(value_of_index(i % 13).index_spec() == i % 13);
    assert(suit_of_index(i / 13).index_spec() == i / 13);
}

/// No two positions of the deck hold the same card.
pub proof fn lemma_deck_distinct(i: int, j: int)
    requires
        0 <= i < 52,
        0 <= j < 52,
        i != j,
    ensures
        deck_seq()[i] != deck_seq()[j],
{
    lemma_deck_card_position(i);
    lemma_deck_card_position(j);
}

/// Builds the 52 distinct cards of the standard deck, suit-major.
pub fn full_deck() -> (r: Vec<Card>)
    ensures
        r@ == deck_seq(),
{
    let mut r: Vec<Card> = Vec::new();
    let mut s: usize = 0;
    while s < 4
        invariant
            s <= 4,
            r@.len() == 13 * s,
            forall|k: int| 0 <= k < r@.len() ==> r@[k] == deck_card(k),
        decreases 4 - s,
    {
        let suit = suit_from_index(s);
        let mut v: usize = 0;
        while v < 13
            invariant
                s < 4,
                v <= 13,
                suit == suit_of_index(s as int),
                r@.len() == 13 * s + v,
                forall|k: int| 0 <= k < r@.len() ==> r@[k] == deck_card(k),
            decreases 13 - v,
        {
            let value = value_from_index(v);
            r.push(Card(value, suit));
            proof {
                let k = 13 * (s as int) + v as int;
                assert(k % 13 == v as int && k / 13 == s as int) by (nonlinear_arith)
                    requires
                        0 <= s < 4,
                        0 <= v < 13,
                        k == 13 * (s as int) + v as int,
                ;
            }
            v = v + 1;
        }
        s = s + 1;
    }
    proof {
        assert(r@ =~= deck_seq());
    }
    r
}

/// Exec counterpart of `suit_of_index`.
fn suit_from_index(i: usize) -> (s: Suit)
    requires
        i < 4,
    ensures
        s == suit_of_index(i as int),
{
    if i == 0 {
        Suit::Spades
    } else if i == 1 {
        Suit::Clubs
    } else if i == 2 {
        Suit::Hearts
    } else {
        Suit::Diamonds
    }
}

/// Exec counterpart of `value_of_index`.
fn value_from_index(i: usize) -> (v: Value)
    requires
        i < 13,
    ensures
        v == value_of_index(i as int),
{
    if i == 0 {
        Value::Ace
    } else if i == 1 {
        Value::Two
    } else if i == 2 {
        Value::Three
    } else if i == 3 {
        Value::Four
    } else if i == 4 {
        Value::Five
    } else if i == 5 {
        Value::Six
    } else if i == 6 {
        Value::Seven
    } else if i == 7 {
        Value::Eight
    } else if i == 8 {
        Value::Nine
    } else if i == 9 {
        Value::Ten
    } else if i == 10 {
        Value::Jack
    } else if i == 11 {
        Value::Queen
    } else {
        Value::King
    }
}

/// What presentation should draw for one card slot.
#[derive(Clone, Copy, Debug, PartialEq, Eq, Structural)]
pub enum CardVisual {
    Card(Card),
    Flipped,
    EmptySlot,
    Invisible,
}

/// A card instance placed in world space: position, face and visibility
/// state, and the location it was last moved from (presentation restarts
/// its move animation from there).
#[derive(Clone, Copy, Debug)]
pub struct PhysicalCard {
    pub x: i32,
    pub y: i32,
    pub visible: bool,
    pub flipped: bool,
    pub card: Card,
    pub prev_loc: Option<(i32, i32)>,
}

impl PhysicalCard {
    /// A freshly created card is visible, face-up and has no previous
    /// location.
    pub fn new(x: i32, y: i32, card: &Card) -> (pc: PhysicalCard)
        ensures
            pc == (PhysicalCard { x, y, visible: true, flipped: false, card: *card, prev_loc: None }),
    {
        PhysicalCard { x, y, visible: true, flipped: false, card: *card, prev_loc: None }
    }

    /// What presentation should draw for this card.
    pub open spec fn card_visual_spec(self) -> CardVisual {
        if !self.visible {
            CardVisual::Invisible
        } else if self.flipped {
            CardVisual::Flipped
        } else {
            CardVisual::Card(self.card)
        }
    }

    pub fn card_visual(&self) -> (v: CardVisual)
        ensures
            v == self.card_visual_spec(),
    {
        if !self.visible {
            CardVisual::Invisible
        } else if self.flipped {
            CardVisual::Flipped
        } else {
            CardVisual::Card(self.card)
        }
    }

    pub fn set_visible(&mut self, visible: bool)
        ensures
            *final(self) == (PhysicalCard { visible, ..*old(self) }),
    {
        self.visible = visible;
    }

    pub fn set_flipped(&mut self, flipped: bool)
        ensures
            *final(self) == (PhysicalCard { flipped, ..*old(self) }),
    {
        self.flipped = flipped;
    }

    pub fn set_prev_loc(&mut self, x: i32, y: i32)
        ensures
            *final(self) == (PhysicalCard { prev_loc: Some((x, y)), ..*old(self) }),
    {
        self.prev_loc = Some((x, y));
    }

    pub fn card(&self) -> (c: Card)
        ensures
            c == self.card,
    {
        self.card
    }

    pub fn position(&self) -> (p: (i32, i32))
        ensures
            p == (self.x, self.y),
    {
        (self.x, self.y)
    }

    pub fn set_position(&mut self, x: i32, y: i32)
        ensures
            *final(self) == (PhysicalCard { x, y, ..*old(self) }),
    {
        self.x = x;
        self.y = y;
    }

    /// Like `set_position`, but records the old position so presentation
    /// animates the move.
    pub fn move_to(&mut self, x: i32, y: i32)
        ensures
            *final(self) == (PhysicalCard {
                x,
                y,
                prev_loc: Some((old(self).x, old(self).y)),
                ..*old(self)
            }),
    {
        self.prev_loc = Some((self.x, self.y));
        self.set_position(x, y);
    }

    /// Whether the point strikes this card's hit-box.
    pub open spec fn hit_spec(self, x: int, y: int) -> bool {
        (Bounds { x: self.x, y: self.y, w: CARD_WIDTH, h: CARD_HEIGHT }).contains_spec(x, y)
    }

    pub fn within_bounds(&self, x: i32, y: i32) -> (r: bool)
        ensures
            r == self.hit_spec(x as int, y as int),
    {
        Bounds::new(self.x, self.y, CARD_WIDTH, CARD_HEIGHT).contains(x, y)
    }
}

/// The card identities of a pile, bottom card first.
pub open spec fn cards_of(s: Seq<PhysicalCard>) -> Seq<Card> {
    s.map_values(|pc: PhysicalCard| pc.card)
}

/// Every card of the pile shows its face.
pub open spec fn all_face_up(s: Seq<PhysicalCard>) -> bool {
    forall|i: int| 0 <= i < s.len() ==> !(#[trigger] s[i]).flipped
}

/// Every card of the pile shows its back.
pub open spec fn all_face_down(s: Seq<PhysicalCard>) -> bool {
    forall|i: int| 0 <= i < s.len() ==> (#[trigger] s[i]).flipped
}

/// A run stacks when each card is one rank below, and of the opposite
/// colour to, the card beneath it.
pub open spec fn stacked_run(run: Seq<Card>) -> bool {
    forall|i: int|
        #![trigger run[i]]
        1 <= i < run.len() ==> run[i].0.index_spec() == run[i - 1].0.index_spec() - 1
            && run[i].1.colour_spec() != run[i - 1].1.colour_spec()
}

/// A foundation holds a same-suit stack whose ranks ascend from the Ace.
pub open spec fn foundation_stacked(s: Seq<Card>) -> bool {
    forall|i: int| #![trigger s[i]] 0 <= i < s.len() ==> s[i].0.index_spec() == i && s[i].1 == s[0].1
}

/// Number of consecutive face-up cards at the top of a pile.
pub open spec fn faceup_len(s: Seq<PhysicalCard>) -> nat
    decreases s.len(),
{
    if s.len() == 0 || s.last().flipped {
        0
    } else {
        1 + faceup_len(s.drop_last())
    }
}

/// The same card turned face-up.
pub open spec fn flip_up(pc: PhysicalCard) -> PhysicalCard {
    PhysicalCard { flipped: false, ..pc }
}

/// The pile with its top card turned face-up.
pub open spec fn flip_top_up(s: Seq<PhysicalCard>) -> Seq<PhysicalCard> {
    if s.len() == 0 {
        s
    } else {
        s.update(s.len() - 1, flip_up(s.last()))
    }
}

/// The point a run is re-anchored to when it is dropped or snapped back:
/// the pointer position offset so the card sits centred under it.
pub open spec fn drop_point_i32(mouse_x: int, mouse_y: int) -> (i32, i32) {
    (
        (mouse_x - CARD_WIDTH as int / 2) as i32,
        (mouse_y - CARD_HEIGHT as int / 2) as i32,
    )
}

/// The consecutive face-up cards at the top really are face-up.
pub proof fn lemma_faceup_len(s: Seq<PhysicalCard>)
    ensures
        faceup_len(s) <= s.len(),
        forall|i: int| s.len() - faceup_len(s) <= i < s.len() ==> !(#[trigger] s[i]).flipped,
    decreases s.len(),
{
    if s.len() == 0 || s.last().flipped {
    } else {
        lemma_faceup_len(s.drop_last());
        assert forall|i: int| s.len() - faceup_len(s) <= i < s.len() implies !(#[trigger] s[i]).flipped by {
            if i < s.len() - 1 {
                assert(s.drop_last()[i] == s[i]);
            }
        }
    }
}

/// In a fully face-up pile the face-up run is the whole pile.
pub proof fn lemma_faceup_len_all(s: Seq<PhysicalCard>)
    requires
        all_face_up(s),
    ensures
        faceup_len(s) == s.len(),
    decreases s.len(),
{
    if s.len() > 0 {
        assert(!s[s.len() - 1].flipped);
        assert forall|i: int| 0 <= i < s.drop_last().len() implies !(#[trigger] s.drop_last()[i]).flipped by {
            assert(s.drop_last()[i] == s[i]);
        }
        lemma_faceup_len_all(s.drop_last());
    }
}

/// The face-up run length depends only on which cards are flipped.
pub proof fn lemma_faceup_len_same_flips(s: Seq<PhysicalCard>, t: Seq<PhysicalCard>)
    requires
        s.len() == t.len(),
        forall|i: int| 0 <= i < s.len() ==> (#[trigger] s[i]).flipped == t[i].flipped,
    ensures
        faceup_len(s) == faceup_len(t),
    decreases s.len(),
{
    if s.len() > 0 {
        assert(s.last().flipped == t.last().flipped);
        assert forall|i: int|
            0 <= i < s.drop_last().len() implies (#[trigger] s.drop_last()[i]).flipped
                == t.drop_last()[i].flipped by {
            assert(s.drop_last()[i] == s[i]);
            assert(t.drop_last()[i] == t[i]);
        }
        lemma_faceup_len_same_flips(s.drop_last(), t.drop_last());
    }
}

/// A face-up top segment is no longer than the face-up run.
pub proof fn lemma_faceup_len_at_least(s: Seq<PhysicalCard>, n: int)
    requires
        0 <= n <= s.len(),
        forall|i: int| s.len() - n <= i < s.len() ==> !(#[trigger] s[i]).flipped,
    ensures
        faceup_len(s) >= n,
    decreases n,
{
    if n > 0 {
        assert(!s[s.len() - 1].flipped);
        assert forall|i: int|
            s.drop_last().len() - (n - 1) <= i < s.drop_last().len() implies !(#[trigger] s.drop_last()[i]).flipped by {
            assert(s.drop_last()[i] == s[i]);
        }
        lemma_faceup_len_at_least(s.drop_last(), n - 1);
    }
}

/// A pile with its top `n` cards hidden.
pub open spec fn hidden_top_spec(s: Seq<PhysicalCard>, n: int) -> Seq<PhysicalCard> {
    Seq::new(
        s.len(),
        |i: int|
            if i < s.len() - n {
                s[i]
            } else {
                PhysicalCard { visible: false, ..s[i] }
            },
    )
}

/// A pile with its top `n` cards shown again at the release point.
pub open spec fn revealed_top_spec(s: Seq<PhysicalCard>, n: int, mouse_x: int, mouse_y: int) -> Seq<
    PhysicalCard,
> {
    Seq::new(
        s.len(),
        |i: int|
            if i < s.len() - n {
                s[i]
            } else {
                PhysicalCard {
                    visible: true,
                    prev_loc: Some(drop_point_i32(mouse_x, mouse_y)),
                    ..s[i]
                }
            },
    )
}

/// Appending face-up cards extends the face-up run by exactly that many.
pub proof fn lemma_faceup_len_append(s: Seq<PhysicalCard>, t: Seq<PhysicalCard>)
    requires
        all_face_up(t),
    ensures
        faceup_len(s + t) == faceup_len(s) + t.len(),
    decreases t.len(),
{
    if t.len() == 0 {
        assert(s + t =~= s);
    } else {
        assert((s + t).last() == t[t.len() - 1]);
        assert(!t[t.len() - 1].flipped);
        assert((s + t).drop_last() =~= s + t.drop_last());
        assert forall|i: int| 0 <= i < t.drop_last().len() implies !(#[trigger] t.drop_last()[i]).flipped by {
            assert(t.drop_last()[i] == t[i]);
        }
        lemma_faceup_len_append(s, t.drop_last());
    }
}

/// Removing `k` cards from the top of the face-up run leaves a face-up run
/// shorter by exactly `k`.
pub proof fn lemma_faceup_len_take(s: Seq<PhysicalCard>, k: int)
    requires
        0 <= k <= faceup_len(s),
    ensures
        faceup_len(s.take(s.len() - k)) == faceup_len(s) - k,
    decreases k,
{
    lemma_faceup_len(s);
    if k == 0 {
        assert(s.take(s.len() as int) =~= s);
    } else {
        assert(!s.last().flipped);
        assert(s.take(s.len() - k) =~= s.drop_last().take(s.drop_last().len() - (k - 1)));
        lemma_faceup_len_take(s.drop_last(), k - 1);
    }
}

/// In a stacked run ranks fall by one per step.
pub proof fn lemma_stacked_rank(run: Seq<Card>, i: int)
    requires
        stacked_run(run),
        0 <= i < run.len(),
    ensures
        run[i].0.index_spec() == run[0].0.index_spec() - i,
    decreases i,
{
    if i > 0 {
        lemma_stacked_rank(run, i - 1);
    }
}

/// A stacked run fits within the thirteen ranks.
pub proof fn lemma_stacked_run_len(run: Seq<Card>)
    requires
        stacked_run(run),
    ensures
        run.len() <= 13,
{
    if run.len() > 13 {
        lemma_stacked_rank(run, 13);
        assert(0 <= run[13].0.index_spec() <= 12);
        assert(0 <= run[0].0.index_spec() <= 12);
    }
}

/// Ranks step down by one through `prev_spec`.
pub proof fn lemma_prev_index(v: Value)
    ensures
        v.prev_spec() is Some <==> v.index_spec() > 0,
        v.prev_spec() is Some ==> v.prev_spec()->0.index_spec() == v.index_spec() - 1,
{
}

/// Two stacked runs joined at a legal junction stack as one.
#[verifier::rlimit(50)]
#[verifier::spinoff_prover]
pub proof fn lemma_stacked_run_append(a: Seq<Card>, b: Seq<Card>)
    requires
        stacked_run(a),
        stacked_run(b),
        a.len() > 0 && b.len() > 0 ==> b[0].0.index_spec() == a.last().0.index_spec() - 1
            && b[0].1.colour_spec() != a.last().1.colour_spec(),
    ensures
        stacked_run(a + b),
{
    assert forall|i: int|
        #![trigger (a + b)[i]]
        1 <= i < (a + b).len() implies (a + b)[i].0.index_spec() == (a + b)[i
        - 1].0.index_spec() - 1 && (a + b)[i].1.colour_spec() != (a + b)[i - 1].1.colour_spec() by {
        if i < a.len() {
            assert((a + b)[i] == a[i]);
            assert((a + b)[i - 1] == a[i - 1]);
        } else if i == a.len() {
            assert((a + b)[i] == b[0]);
            assert((a + b)[i - 1] == a[a.len() - 1]);
        } else {
            assert((a + b)[i] == b[i - a.len()]);
            assert((a + b)[i - 1] == b[i - a.len() - 1]);
        }
    }
}

/// A suffix of a stacked run is itself stacked.
pub proof fn lemma_stacked_run_skip(run: Seq<Card>, k: int)
    requires
        stacked_run(run),
        0 <= k <= run.len(),
    ensures
        stacked_run(run.skip(k)),
{
    assert forall|i: int| #![trigger run.skip(k)[i]] 1 <= i < run.skip(k).len() implies
        run.skip(k)[i].0.index_spec() == run.skip(k)[i - 1].0.index_spec() - 1
            && run.skip(k)[i].1.colour_spec() != run.skip(k)[i - 1].1.colour_spec() by {
        assert(run.skip(k)[i] == run[k + i]);
        assert(run.skip(k)[i - 1] == run[k + i - 1]);
    }
}

/// A prefix of a stacked run is itself stacked.
pub proof fn lemma_stacked_run_take(run: Seq<Card>, k: int)
    requires
        stacked_run(run),
        0 <= k <= run.len(),
    ensures
        stacked_run(run.take(k)),
{
    assert forall|i: int| #![trigger run.take(k)[i]] 1 <= i < run.take(k).len() implies
        run.take(k)[i].0.index_spec() == run.take(k)[i - 1].0.index_spec() - 1
            && run.take(k)[i].1.colour_spec() != run.take(k)[i - 1].1.colour_spec() by {
        assert(run.take(k)[i] == run[i]);
        assert(run.take(k)[i - 1] == run[i - 1]);
    }
}

/// Ranks step up by one through `next_spec`.
pub proof fn lemma_next_index(v: Value)
    ensures
        v.next_spec() is Some <==> v.index_spec() < 12,
        v.next_spec() is Some ==> v.next_spec()->0.index_spec() == v.index_spec() + 1,
{
}

/// Copies the identities of the top `n` cards, bottom-most first.
pub fn top_cards_of(cards: &Vec<PhysicalCard>, n: usize) -> (ids: Vec<Card>)
    requires
        n <= cards@.len(),
    ensures
        ids@ == cards_of(cards@).skip(cards@.len() - n),
{
    let len = cards.len();
    let mut ids: Vec<Card> = Vec::new();
    let mut i: usize = len - n;
    while i < len
        invariant
            n <= len,
            len - n <= i <= len,
            len == cards@.len(),
            ids@ == cards_of(cards@).subrange(len - n, i as int),
        decreases len - i,
    {
        ids.push(cards[i].card);
        proof {
            assert(ids@ =~= cards_of(cards@).subrange(len - n, i + 1));
        }
        i = i + 1;
    }
    proof {
        assert(ids@ =~= cards_of(cards@).skip(len - n));
    }
    ids
}

/// Marks the top `n` cards of a pile hidden; everything else is untouched.
pub fn hide_top(cards: &mut Vec<PhysicalCard>, n: usize)
    requires
        n <= old(cards)@.len(),
    ensures
        final(cards)@.len() == old(cards)@.len(),
        forall|i: int| 0 <= i < old(cards)@.len() - n ==> final(cards)@[i] == old(cards)@[i],
        forall|i: int|
            old(cards)@.len() - n <= i < old(cards)@.len() ==> #[trigger] final(cards)@[i]
                == (PhysicalCard { visible: false, ..old(cards)@[i] }),
{
    let ghost orig = cards@;
    let len = cards.len();
    let mut i: usize = len - n;
    while i < len
        invariant
            n <= len,
            len - n <= i <= len,
            len == cards@.len(),
            cards@.len() == orig.len(),
            forall|k: int| 0 <= k < len - n ==> cards@[k] == orig[k],
            forall|k: int| i <= k < len ==> cards@[k] == orig[k],
            forall|k: int|
                len - n <= k < i ==> #[trigger] cards@[k] == (PhysicalCard {
                    visible: false,
                    ..orig[k]
                }),
        decreases len - i,
    {
        let mut c = cards[i];
        c.set_visible(false);
        cards.set(i, c);
        i = i + 1;
    }
}

/// Shows the top `n` cards of a pile again, re-anchored at the release
/// point so presentation snaps them back from there.
pub fn reveal_top(cards: &mut Vec<PhysicalCard>, n: usize, mouse_x: i32, mouse_y: i32)
    requires
        n <= old(cards)@.len(),
        coord_ok(mouse_x as int),
        coord_ok(mouse_y as int),
    ensures
        final(cards)@.len() == old(cards)@.len(),
        forall|i: int| 0 <= i < old(cards)@.len() - n ==> final(cards)@[i] == old(cards)@[i],
        forall|i: int|
            old(cards)@.len() - n <= i < old(cards)@.len() ==> #[trigger] final(cards)@[i]
                == (PhysicalCard {
                visible: true,
                prev_loc: Some(drop_point_i32(mouse_x as int, mouse_y as int)),
                ..old(cards)@[i]
            }),
{
    let ghost orig = cards@;
    let cx = mouse_x - (CARD_WIDTH as i32) / 2;
    let cy = mouse_y - (CARD_HEIGHT as i32) / 2;
    let len = cards.len();
    let mut i: usize = len - n;
    while i < len
        invariant
            n <= len,
            len - n <= i <= len,
            len == cards@.len(),
            cards@.len() == orig.len(),
            cx == drop_point_i32(mouse_x as int, mouse_y as int).0,
            cy == drop_point_i32(mouse_x as int, mouse_y as int).1,
            forall|k: int| 0 <= k < len - n ==> cards@[k] == orig[k],
            forall|k: int| i <= k < len ==> cards@[k] == orig[k],
            forall|k: int|
                len - n <= k < i ==> #[trigger] cards@[k] == (PhysicalCard {
                    visible: true,
                    prev_loc: Some((cx, cy)),
                    ..orig[k]
                }),
        decreases len - i,
    {
        let mut c = cards[i];
        c.set_visible(true);
        c.set_prev_loc(cx, cy);
        cards.set(i, c);
        i = i + 1;
    }
}

/// The uniform contract of every pile cards can be lifted from: hit-testing
/// says how many cards a point picks up, lifting removes them from the top,
/// and lifting never invents, loses or reorders cards.
pub trait CardSource: Sized {
    /// The pile's cards, bottom first.
    spec fn source_phys(&self) -> Seq<PhysicalCard>;

    /// The pile's internal well-formedness.
    spec fn source_inv(&self) -> bool;

    /// Which pile this is.
    spec fn source_id(&self) -> CardSources;

    /// How many cards a pick at the point would lift.
    spec fn liftable_at(&self, x: int, y: int) -> nat;

    fn card_source(&self) -> (s: CardSources)
        ensures
            s == self.source_id(),
    ;

    /// Hit-test: the size of the run a pick-up at this point lifts, `0`
    /// when the point strikes nothing liftable.
    fn how_many_cards(&self, mouse_x: i32, mouse_y: i32) -> (n: usize)
        requires
            self.source_inv(),
        ensures
            n == self.liftable_at(mouse_x as int, mouse_y as int),
            n <= faceup_len(self.source_phys()),
            n <= self.source_phys().len(),
    ;

    /// Read-only copies of the top `count` cards that `take_cards(count)`
    /// would remove, top-most last.
    fn borrow_cards(&self, count: usize) -> (run: Vec<PhysicalCard>)
        requires
            self.source_inv(),
        ensures
            run@.len() <= count,
            run@ == self.source_phys().skip(self.source_phys().len() - run@.len()),
    ;

    /// Remove a run from the top.  Asking for more than is liftable
    /// degrades to taking what is there; no card is invented or lost.
    fn take_cards(&mut self, num: usize) -> (taken: Vec<PhysicalCard>)
        requires
            old(self).source_inv(),
        ensures
            final(self).source_inv(),
            final(self).source_id() == old(self).source_id(),
            taken@.len() <= num,
            cards_of(old(self).source_phys()) == cards_of(final(self).source_phys())
                + cards_of(taken@),
            all_face_up(taken@),
            stacked_run(cards_of(taken@)),
    ;
}

/// The uniform contract of every pile cards can be dropped onto: a drop
/// zone that tracks the current top of the pile, a legality test, and an
/// all-or-nothing `place_cards` that leaves the pile untouched on failure.
pub trait CardSink: Sized {
    /// The pile's cards, bottom first.
    spec fn sink_phys(&self) -> Seq<PhysicalCard>;

    /// The pile's internal well-formedness.
    spec fn sink_inv(&self) -> bool;

    /// Which pile this is.
    spec fn sink_id(&self) -> CardSinks;

    /// The pile's legality rule: may this run land here?
    spec fn accepts(&self, run: Seq<Card>) -> bool;

    /// What the pile demands of the physical run before placement; lifted
    /// runs satisfy it by construction.
    spec fn place_req(run: Seq<PhysicalCard>) -> bool;

    /// What the pile demands of a legality query.
    spec fn query_req(run: Seq<Card>) -> bool;

    /// Whether the point falls in the drop zone at the pile's current top.
    spec fn in_drop_bounds(&self, x: int, y: int) -> bool;

    fn card_sink(&self) -> (s: CardSinks)
        ensures
            s == self.sink_id(),
    ;

    fn within_bounds(&self, x: i32, y: i32) -> (r: bool)
        requires
            self.sink_inv(),
        ensures
            r == self.in_drop_bounds(x as int, y as int),
    ;

    fn is_placement_possible(&self, cards: &Vec<Card>) -> (b: bool)
        requires
            self.sink_inv(),
            Self::query_req(cards@),
        ensures
            b == self.accepts(cards@),
    ;

    /// All-or-nothing placement: succeeds exactly when the run is legal
    /// here, and on failure the pile is unchanged.
    fn place_cards(&mut self, mouse_x: i32, mouse_y: i32, physical_cards: Vec<PhysicalCard>) -> (r:
        Result<(), ()>)
        requires
            old(self).sink_inv(),
            Self::place_req(physical_cards@),
            Self::query_req(cards_of(physical_cards@)),
            coord_ok(mouse_x as int),
            coord_ok(mouse_y as int),
        ensures
            final(self).sink_inv(),
            final(self).sink_id() == old(self).sink_id(),
            r is Ok <==> old(self).accepts(cards_of(physical_cards@)),
            r is Err ==> *final(self) == *old(self),
            r is Ok ==> cards_of(final(self).sink_phys()) == cards_of(old(self).sink_phys())
                + cards_of(physical_cards@),
    ;
}

} // verus!
