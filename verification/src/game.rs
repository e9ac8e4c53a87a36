//! Pile identifiers, the held-run record, and the game controller: the
//! single owner of all piles that drives the pick-up/drag/drop state
//! machine from pointer input.

use vstd::prelude::*;

verus! {

use crate::card::{
    all_face_up, cards_of, deck_card, deck_seq, drop_point_i32, faceup_len, full_deck,
    hidden_top_spec, lemma_deck_distinct,
    lemma_faceup_len, lemma_faceup_len_at_least, lemma_next_index, lemma_prev_index,
    lemma_stacked_rank, lemma_stacked_run_skip, revealed_top_spec, stacked_run, Card, CardSink,
    CardSource, PhysicalCard,
};
use crate::foundation::foundation_accepts;
use crate::tableau::tableau_accepts;
use crate::foundation::Foundation;
use crate::stock_discard::{advance_spec, Discard, StockDiscard};
use crate::tableau::Tableau;
use crate::{
    coord_ok, CARD_X_STRIDE, FOUNDATIONS_X, FOUNDATIONS_Y, STOCK_DISCARD_X, STOCK_DISCARD_Y,
    TABLEAUS_X, TABLEAUS_Y,
};

/// Identifies a pile cards can be lifted from.  The order of the variants is
/// the fixed order in which the controller queries sources, so overlapping
/// hit-zones resolve deterministically.
#[derive(Clone, Copy, Debug, PartialEq, Eq, Structural)]
pub enum CardSources {
    Discard,
    Foundation1,
    Foundation2,
    Foundation3,
    Foundation4,
    Tableau1,
    Tableau2,
    Tableau3,
    Tableau4,
    Tableau5,
    Tableau6,
    Tableau7,
}

/// Identifies a pile cards can be dropped onto, queried in this fixed order.
#[derive(Clone, Copy, Debug, PartialEq, Eq, Structural)]
pub enum CardSinks {
    Foundation1,
    Foundation2,
    Foundation3,
    Foundation4,
    Tableau1,
    Tableau2,
    Tableau3,
    Tableau4,
    Tableau5,
    Tableau6,
    Tableau7,
}

/// The transient record of a lifted run: the card identities, where they
/// came from, the current drag position, and the position the drag last
/// moved from (so presentation can animate it).
#[derive(Clone, Debug)]
pub struct HeldCard {
    pub cards: Vec<Card>,
    pub source: CardSources,
    pub x: i32,
    pub y: i32,
    pub prev_pos: Option<(i32, i32)>,
}

impl HeldCard {
    /// Snapshots a freshly lifted run, centred under the pointer, animated
    /// from the run's position in its origin pile.
    pub fn new(cards: Vec<Card>, source: CardSources, mouse_x: i32, mouse_y: i32, origin: (i32, i32)) -> (h:
        HeldCard)
        requires
            coord_ok(mouse_x as int),
            coord_ok(mouse_y as int),
        ensures
            h.cards == cards,
            h.source == source,
            (h.x, h.y) == drop_point_i32(mouse_x as int, mouse_y as int),
            h.prev_pos == Some(origin),
    {
        HeldCard {
            cards,
            source,
            x: mouse_x - (crate::CARD_WIDTH as i32) / 2,
            y: mouse_y - (crate::CARD_HEIGHT as i32) / 2,
            prev_pos: Some(origin),
        }
    }

    pub fn source(&self) -> (s: CardSources)
        ensures
            s == self.source,
    {
        self.source
    }

    /// Drags the run so it sits centred under the pointer.
    pub fn set_mouse_position(&mut self, x: i32, y: i32)
        requires
            coord_ok(x as int),
            coord_ok(y as int),
        ensures
            final(self).cards == old(self).cards,
            final(self).source == old(self).source,
            (final(self).x, final(self).y) == drop_point_i32(x as int, y as int),
            final(self).prev_pos == Some((old(self).x, old(self).y)),
    {
        let nx = x - (crate::CARD_WIDTH as i32) / 2;
        let ny = y - (crate::CARD_HEIGHT as i32) / 2;
        self.set_position(nx, ny);
    }

    pub fn set_position(&mut self, x: i32, y: i32)
        ensures
            final(self).cards == old(self).cards,
            final(self).source == old(self).source,
            final(self).x == x,
            final(self).y == y,
            final(self).prev_pos == Some((old(self).x, old(self).y)),
    {
        self.prev_pos = Some((self.x, self.y));
        self.x = x;
        self.y = y;
    }
}

/// Relies on rand::seq::SliceRandom::shuffle (a Fisher-Yates shuffle): it
/// permutes the slice in place, so the result holds exactly the same cards
/// in some order.
#[verifier::external_body]
fn shuffle_cards(cards: &mut Vec<Card>)
    ensures
        final(cards)@.len() == old(cards)@.len(),
        final(cards)@.to_multiset() == old(cards)@.to_multiset(),
{
    rand::seq::SliceRandom::shuffle(cards.as_mut_slice(), &mut rand::thread_rng());
}

/// Splits off the first `n` cards of a pile.
fn take_front(cards: &mut Vec<PhysicalCard>, n: usize) -> (front: Vec<PhysicalCard>)
    requires
        n <= old(cards)@.len(),
    ensures
        front@ == old(cards)@.take(n as int),
        final(cards)@ == old(cards)@.skip(n as int),
{
    let mut rest = cards.split_off(n);
    core::mem::swap(cards, &mut rest);
    proof {
        assert(rest@ =~= old(cards)@.take(n as int));
        assert(cards@ =~= old(cards)@.skip(n as int));
    }
    rest
}

/// A run lifted from the top of a pile while the drag is in flight: it is
/// still there, hidden and face-up, and its identities stack.
pub open spec fn held_matches(pile: Seq<PhysicalCard>, run: Seq<Card>) -> bool {
    &&& 1 <= run.len() <= pile.len()
    &&& run == cards_of(pile).skip(pile.len() - run.len())
    &&& forall|i: int|
        pile.len() - run.len() <= i < pile.len() ==> !(#[trigger] pile[i]).visible && !pile[i].flipped
    &&& stacked_run(run)
}

/// What the controller requires of a liftable top segment: it exists, it
/// is face-up, and its identities stack.
pub open spec fn liftable_run_ok(pile: Seq<PhysicalCard>, n: int) -> bool {
    &&& 1 <= n <= pile.len()
    &&& forall|i: int| pile.len() - n <= i < pile.len() ==> !(#[trigger] pile[i]).flipped
    &&& stacked_run(cards_of(pile).skip(pile.len() - n))
}

/// The sources that only ever give up their single top card.
pub open spec fn single_card_source(src: CardSources) -> bool {
    match src {
        CardSources::Discard
        | CardSources::Foundation1
        | CardSources::Foundation2
        | CardSources::Foundation3
        | CardSources::Foundation4 => true,
        _ => false,
    }
}

/// Pile-identity fields a pile operation never touches.
pub open spec fn foundation_frame(pre: Foundation, post: Foundation) -> bool {
    &&& post.x == pre.x
    &&& post.y == pre.y
    &&& post.sink == pre.sink
    &&& post.source == pre.source
}

/// Pile-identity fields a pile operation never touches.
pub open spec fn tableau_frame(pre: Tableau, post: Tableau) -> bool {
    &&& post.x == pre.x
    &&& post.y == pre.y
    &&& post.sink == pre.sink
    &&& post.source == pre.source
}

/// The game controller: sole owner of every pile and of the held run.
pub struct Game {
    pub stock_discard: StockDiscard,
    pub foundation1: Foundation,
    pub foundation2: Foundation,
    pub foundation3: Foundation,
    pub foundation4: Foundation,
    pub tableau1: Tableau,
    pub tableau2: Tableau,
    pub tableau3: Tableau,
    pub tableau4: Tableau,
    pub tableau5: Tableau,
    pub tableau6: Tableau,
    pub tableau7: Tableau,
    pub held_card: Option<HeldCard>,
}

impl Game {
    /// The physical cards of one source pile.
    pub open spec fn source_pile(self, src: CardSources) -> Seq<PhysicalCard> {
        match src {
            CardSources::Discard => self.stock_discard.discard.cards@,
            CardSources::Foundation1 => self.foundation1.cards@,
            CardSources::Foundation2 => self.foundation2.cards@,
            CardSources::Foundation3 => self.foundation3.cards@,
            CardSources::Foundation4 => self.foundation4.cards@,
            CardSources::Tableau1 => self.tableau1.cards@,
            CardSources::Tableau2 => self.tableau2.cards@,
            CardSources::Tableau3 => self.tableau3.cards@,
            CardSources::Tableau4 => self.tableau4.cards@,
            CardSources::Tableau5 => self.tableau5.cards@,
            CardSources::Tableau6 => self.tableau6.cards@,
            CardSources::Tableau7 => self.tableau7.cards@,
        }
    }

    /// The physical cards of one sink pile.
    pub open spec fn sink_pile(self, snk: CardSinks) -> Seq<PhysicalCard> {
        match snk {
            CardSinks::Foundation1 => self.foundation1.cards@,
            CardSinks::Foundation2 => self.foundation2.cards@,
            CardSinks::Foundation3 => self.foundation3.cards@,
            CardSinks::Foundation4 => self.foundation4.cards@,
            CardSinks::Tableau1 => self.tableau1.cards@,
            CardSinks::Tableau2 => self.tableau2.cards@,
            CardSinks::Tableau3 => self.tableau3.cards@,
            CardSinks::Tableau4 => self.tableau4.cards@,
            CardSinks::Tableau5 => self.tableau5.cards@,
            CardSinks::Tableau6 => self.tableau6.cards@,
            CardSinks::Tableau7 => self.tableau7.cards@,
        }
    }

    /// Whether a source pile and a sink pile are the same pile.
    pub open spec fn same_pile(src: CardSources, snk: CardSinks) -> bool {
        match src {
            CardSources::Discard => false,
            CardSources::Foundation1 => snk == CardSinks::Foundation1,
            CardSources::Foundation2 => snk == CardSinks::Foundation2,
            CardSources::Foundation3 => snk == CardSinks::Foundation3,
            CardSources::Foundation4 => snk == CardSinks::Foundation4,
            CardSources::Tableau1 => snk == CardSinks::Tableau1,
            CardSources::Tableau2 => snk == CardSinks::Tableau2,
            CardSources::Tableau3 => snk == CardSinks::Tableau3,
            CardSources::Tableau4 => snk == CardSinks::Tableau4,
            CardSources::Tableau5 => snk == CardSinks::Tableau5,
            CardSources::Tableau6 => snk == CardSinks::Tableau6,
            CardSources::Tableau7 => snk == CardSinks::Tableau7,
        }
    }

    /// Every card identity in the system, pile by pile.
    pub open spec fn all_cards(self) -> Seq<Card> {
        self.stock_discard.stock.cards_seq() + self.stock_discard.discard.cards_seq()
            + self.foundation1.cards_seq() + self.foundation2.cards_seq()
            + self.foundation3.cards_seq() + self.foundation4.cards_seq()
            + self.tableau1.cards_seq() + self.tableau2.cards_seq() + self.tableau3.cards_seq()
            + self.tableau4.cards_seq() + self.tableau5.cards_seq() + self.tableau6.cards_seq()
            + self.tableau7.cards_seq()
    }

    /// Every pile is internally well-formed.
    #[verifier::opaque]
    pub open spec fn piles_wf(self) -> bool {
        &&& self.stock_discard.wf()
        &&& self.foundation1.wf()
        &&& self.foundation2.wf()
        &&& self.foundation3.wf()
        &&& self.foundation4.wf()
        &&& self.tableau1.wf()
        &&& self.tableau2.wf()
        &&& self.tableau3.wf()
        &&& self.tableau4.wf()
        &&& self.tableau5.wf()
        &&& self.tableau6.wf()
        &&& self.tableau7.wf()
    }

    /// If a run is held, it is the hidden, face-up, stacked top of its
    /// origin pile; discard and foundations only ever give up one card.
    pub open spec fn held_wf(self) -> bool {
        match self.held_card {
            None => true,
            Some(h) => {
                &&& held_matches(self.source_pile(h.source), h.cards@)
                &&& (single_card_source(h.source) ==> h.cards@.len() == 1)
            },
        }
    }

    /// The controller's invariant: well-formed piles, a consistent held
    /// run, and — deck integrity — the cards across all piles are exactly
    /// the 52-card deck.
    pub open spec fn wf(self) -> bool {
        &&& self.piles_wf()
        &&& self.held_wf()
        &&& self.all_cards().to_multiset() == deck_seq().to_multiset()
    }

    /// Whether the point strikes the stock's advance hot-zone.
    pub open spec fn stock_hit(self, x: int, y: int) -> bool {
        self.stock_discard.stock.bounds.contains_spec(x, y)
    }

    /// How many cards a pick at the point would lift from one source.
    pub open spec fn source_liftable(self, src: CardSources, x: int, y: int) -> nat {
        match src {
            CardSources::Discard => self.stock_discard.discard.liftable_at(x, y),
            CardSources::Foundation1 => self.foundation1.liftable_at(x, y),
            CardSources::Foundation2 => self.foundation2.liftable_at(x, y),
            CardSources::Foundation3 => self.foundation3.liftable_at(x, y),
            CardSources::Foundation4 => self.foundation4.liftable_at(x, y),
            CardSources::Tableau1 => self.tableau1.liftable_at(x, y),
            CardSources::Tableau2 => self.tableau2.liftable_at(x, y),
            CardSources::Tableau3 => self.tableau3.liftable_at(x, y),
            CardSources::Tableau4 => self.tableau4.liftable_at(x, y),
            CardSources::Tableau5 => self.tableau5.liftable_at(x, y),
            CardSources::Tableau6 => self.tableau6.liftable_at(x, y),
            CardSources::Tableau7 => self.tableau7.liftable_at(x, y),
        }
    }

    /// The first source, in the fixed query order, that a pick at the
    /// point would lift from.
    pub open spec fn pick_source(self, x: int, y: int) -> Option<CardSources> {
        if self.source_liftable(CardSources::Discard, x, y) > 0 {
            Some(CardSources::Discard)
        } else if self.source_liftable(CardSources::Foundation1, x, y) > 0 {
            Some(CardSources::Foundation1)
        } else if self.source_liftable(CardSources::Foundation2, x, y) > 0 {
            Some(CardSources::Foundation2)
        } else if self.source_liftable(CardSources::Foundation3, x, y) > 0 {
            Some(CardSources::Foundation3)
        } else if self.source_liftable(CardSources::Foundation4, x, y) > 0 {
            Some(CardSources::Foundation4)
        } else if self.source_liftable(CardSources::Tableau1, x, y) > 0 {
            Some(CardSources::Tableau1)
        } else if self.source_liftable(CardSources::Tableau2, x, y) > 0 {
            Some(CardSources::Tableau2)
        } else if self.source_liftable(CardSources::Tableau3, x, y) > 0 {
            Some(CardSources::Tableau3)
        } else if self.source_liftable(CardSources::Tableau4, x, y) > 0 {
            Some(CardSources::Tableau4)
        } else if self.source_liftable(CardSources::Tableau5, x, y) > 0 {
            Some(CardSources::Tableau5)
        } else if self.source_liftable(CardSources::Tableau6, x, y) > 0 {
            Some(CardSources::Tableau6)
        } else if self.source_liftable(CardSources::Tableau7, x, y) > 0 {
            Some(CardSources::Tableau7)
        } else {
            None
        }
    }

    /// One sink's legality rule applied to a run.
    pub open spec fn sink_accepts(self, snk: CardSinks, run: Seq<Card>) -> bool {
        match snk {
            CardSinks::Foundation1 => foundation_accepts(self.foundation1.cards_seq(), run),
            CardSinks::Foundation2 => foundation_accepts(self.foundation2.cards_seq(), run),
            CardSinks::Foundation3 => foundation_accepts(self.foundation3.cards_seq(), run),
            CardSinks::Foundation4 => foundation_accepts(self.foundation4.cards_seq(), run),
            CardSinks::Tableau1 => tableau_accepts(self.tableau1.cards_seq(), run),
            CardSinks::Tableau2 => tableau_accepts(self.tableau2.cards_seq(), run),
            CardSinks::Tableau3 => tableau_accepts(self.tableau3.cards_seq(), run),
            CardSinks::Tableau4 => tableau_accepts(self.tableau4.cards_seq(), run),
            CardSinks::Tableau5 => tableau_accepts(self.tableau5.cards_seq(), run),
            CardSinks::Tableau6 => tableau_accepts(self.tableau6.cards_seq(), run),
            CardSinks::Tableau7 => tableau_accepts(self.tableau7.cards_seq(), run),
        }
    }

    /// One sink's drop zone applied to a point.
    pub open spec fn sink_in_bounds(self, snk: CardSinks, x: int, y: int) -> bool {
        match snk {
            CardSinks::Foundation1 => self.foundation1.in_drop_bounds(x, y),
            CardSinks::Foundation2 => self.foundation2.in_drop_bounds(x, y),
            CardSinks::Foundation3 => self.foundation3.in_drop_bounds(x, y),
            CardSinks::Foundation4 => self.foundation4.in_drop_bounds(x, y),
            CardSinks::Tableau1 => self.tableau1.in_drop_bounds(x, y),
            CardSinks::Tableau2 => self.tableau2.in_drop_bounds(x, y),
            CardSinks::Tableau3 => self.tableau3.in_drop_bounds(x, y),
            CardSinks::Tableau4 => self.tableau4.in_drop_bounds(x, y),
            CardSinks::Tableau5 => self.tableau5.in_drop_bounds(x, y),
            CardSinks::Tableau6 => self.tableau6.in_drop_bounds(x, y),
            CardSinks::Tableau7 => self.tableau7.in_drop_bounds(x, y),
        }
    }

    /// Whether a drop at the point would land the run in this sink.
    pub open spec fn sink_takes(self, snk: CardSinks, x: int, y: int, run: Seq<Card>) -> bool {
        self.sink_in_bounds(snk, x, y) && self.sink_accepts(snk, run)
    }

    /// The first sink, in the fixed query order, whose drop zone holds the
    /// point and whose legality rule admits the run.
    pub open spec fn pick_sink(self, x: int, y: int, run: Seq<Card>) -> Option<CardSinks> {
        if self.sink_takes(CardSinks::Foundation1, x, y, run) {
            Some(CardSinks::Foundation1)
        } else if self.sink_takes(CardSinks::Foundation2, x, y, run) {
            Some(CardSinks::Foundation2)
        } else if self.sink_takes(CardSinks::Foundation3, x, y, run) {
            Some(CardSinks::Foundation3)
        } else if self.sink_takes(CardSinks::Foundation4, x, y, run) {
            Some(CardSinks::Foundation4)
        } else if self.sink_takes(CardSinks::Tableau1, x, y, run) {
            Some(CardSinks::Tableau1)
        } else if self.sink_takes(CardSinks::Tableau2, x, y, run) {
            Some(CardSinks::Tableau2)
        } else if self.sink_takes(CardSinks::Tableau3, x, y, run) {
            Some(CardSinks::Tableau3)
        } else if self.sink_takes(CardSinks::Tableau4, x, y, run) {
            Some(CardSinks::Tableau4)
        } else if self.sink_takes(CardSinks::Tableau5, x, y, run) {
            Some(CardSinks::Tableau5)
        } else if self.sink_takes(CardSinks::Tableau6, x, y, run) {
            Some(CardSinks::Tableau6)
        } else if self.sink_takes(CardSinks::Tableau7, x, y, run) {
            Some(CardSinks::Tableau7)
        } else {
            None
        }
    }

    /// Deals a new game: the shuffled deck goes one card to the first
    /// tableau up to seven to the last, the remaining twenty-four to the
    /// stock, all face-down but each tableau's top card.
    #[verifier::rlimit(100)]
    #[verifier::spinoff_prover]
    pub fn new() -> (g: Game)
        ensures
            g.wf(),
            g.held_card is None,
            g.stock_discard.stock.cards@.len() == 24,
            g.stock_discard.discard.cards@.len() == 0,
            g.foundation1.cards@.len() == 0,
            g.foundation2.cards@.len() == 0,
            g.foundation3.cards@.len() == 0,
            g.foundation4.cards@.len() == 0,
            g.tableau1.cards@.len() == 1,
            g.tableau2.cards@.len() == 2,
            g.tableau3.cards@.len() == 3,
            g.tableau4.cards@.len() == 4,
            g.tableau5.cards@.len() == 5,
            g.tableau6.cards@.len() == 6,
            g.tableau7.cards@.len() == 7,
            faceup_len(g.tableau1.cards@) == 1,
            faceup_len(g.tableau2.cards@) == 1,
            faceup_len(g.tableau3.cards@) == 1,
            faceup_len(g.tableau4.cards@) == 1,
            faceup_len(g.tableau5.cards@) == 1,
            faceup_len(g.tableau6.cards@) == 1,
            faceup_len(g.tableau7.cards@) == 1,
    {
        let mut deck = full_deck();
        shuffle_cards(&mut deck);
        let ghost d = deck@;

        let mut pcs: Vec<PhysicalCard> = Vec::new();
        let mut i: usize = 0;
        while i < deck.len()
            invariant
                i <= deck@.len(),
                deck@.len() == 52,
                pcs@.len() == i,
                deck@ == d,
                forall|k: int| 0 <= k < i ==> (#[trigger] pcs@[k]).card == d[k]
                    && !pcs@[k].flipped,
            decreases deck@.len() - i,
        {
            let c = deck[i];
            pcs.push(PhysicalCard::new(0, 0, &c));
            i = i + 1;
        }
        proof {
            assert(cards_of(pcs@) =~= d);
        }

        let t1 = take_front(&mut pcs, 1);
        let t2 = take_front(&mut pcs, 2);
        let t3 = take_front(&mut pcs, 3);
        let t4 = take_front(&mut pcs, 4);
        let t5 = take_front(&mut pcs, 5);
        let t6 = take_front(&mut pcs, 6);
        let t7 = take_front(&mut pcs, 7);
        proof {
            assert(cards_of(t1@) =~= d.subrange(0, 1));
            assert(cards_of(t2@) =~= d.subrange(1, 3));
            assert(cards_of(t3@) =~= d.subrange(3, 6));
            assert(cards_of(t4@) =~= d.subrange(6, 10));
            assert(cards_of(t5@) =~= d.subrange(10, 15));
            assert(cards_of(t6@) =~= d.subrange(15, 21));
            assert(cards_of(t7@) =~= d.subrange(21, 28));
            assert(cards_of(pcs@) =~= d.subrange(28, 52));
        }

        let g = Game {
            stock_discard: StockDiscard::from_cards(STOCK_DISCARD_X, STOCK_DISCARD_Y, pcs),
            foundation1: Foundation::new(
                FOUNDATIONS_X,
                FOUNDATIONS_Y,
                CardSinks::Foundation1,
                CardSources::Foundation1,
            ),
            foundation2: Foundation::new(
                FOUNDATIONS_X + CARD_X_STRIDE,
                FOUNDATIONS_Y,
                CardSinks::Foundation2,
                CardSources::Foundation2,
            ),
            foundation3: Foundation::new(
                FOUNDATIONS_X + CARD_X_STRIDE * 2,
                FOUNDATIONS_Y,
                CardSinks::Foundation3,
                CardSources::Foundation3,
            ),
            foundation4: Foundation::new(
                FOUNDATIONS_X + CARD_X_STRIDE * 3,
                FOUNDATIONS_Y,
                CardSinks::Foundation4,
                CardSources::Foundation4,
            ),
            tableau1: Tableau::from_cards(
                TABLEAUS_X,
                TABLEAUS_Y,
                t1,
                CardSinks::Tableau1,
                CardSources::Tableau1,
            ),
            tableau2: Tableau::from_cards(
                TABLEAUS_X + CARD_X_STRIDE,
                TABLEAUS_Y,
                t2,
                CardSinks::Tableau2,
                CardSources::Tableau2,
            ),
            tableau3: Tableau::from_cards(
                TABLEAUS_X + CARD_X_STRIDE * 2,
                TABLEAUS_Y,
                t3,
                CardSinks::Tableau3,
                CardSources::Tableau3,
            ),
            tableau4: Tableau::from_cards(
                TABLEAUS_X + CARD_X_STRIDE * 3,
                TABLEAUS_Y,
                t4,
                CardSinks::Tableau4,
                CardSources::Tableau4,
            ),
            tableau5: Tableau::from_cards(
                TABLEAUS_X + CARD_X_STRIDE * 4,
                TABLEAUS_Y,
                t5,
                CardSinks::Tableau5,
                CardSources::Tableau5,
            ),
            tableau6: Tableau::from_cards(
                TABLEAUS_X + CARD_X_STRIDE * 5,
                TABLEAUS_Y,
                t6,
                CardSinks::Tableau6,
                CardSources::Tableau6,
            ),
            tableau7: Tableau::from_cards(
                TABLEAUS_X + CARD_X_STRIDE * 6,
                TABLEAUS_Y,
                t7,
                CardSinks::Tableau7,
                CardSources::Tableau7,
            ),
            held_card: None,
        };
        proof {
            reveal(Game::piles_wf);
            broadcast use vstd::seq_lib::lemma_multiset_commutative;

            assert(d =~= d.subrange(0, 1) + d.subrange(1, 3) + d.subrange(3, 6) + d.subrange(6, 10)
                + d.subrange(10, 15) + d.subrange(15, 21) + d.subrange(21, 28) + d.subrange(
                28,
                52,
            ));
            assert(g.all_cards().to_multiset() =~= d.to_multiset());
        }
        g
    }

    /// Hit-tests one source; a positive answer comes with everything the
    /// controller needs to hold the run.
    #[verifier::rlimit(100)]
    #[verifier::spinoff_prover]
    fn source_how_many(&self, src: CardSources, x: i32, y: i32) -> (n: usize)
        requires
            self.piles_wf(),
        ensures
            n == self.source_liftable(src, x as int, y as int),
            n > 0 ==> liftable_run_ok(self.source_pile(src), n as int),
            n > 0 && single_card_source(src) ==> n == 1,
    {
        proof {
            reveal(Game::piles_wf);
        }
        match src {
            CardSources::Discard => {
                let n = self.stock_discard.discard.how_many_cards(x, y);
                proof {
                    self.lift_ok_from_faceup(self.stock_discard.discard.cards@, n as int);
                }
                n
            },
            CardSources::Foundation1 => {
                let n = self.foundation1.how_many_cards(x, y);
                proof {
                    self.lift_ok_from_faceup(self.foundation1.cards@, n as int);
                }
                n
            },
            CardSources::Foundation2 => {
                let n = self.foundation2.how_many_cards(x, y);
                proof {
                    self.lift_ok_from_faceup(self.foundation2.cards@, n as int);
                }
                n
            },
            CardSources::Foundation3 => {
                let n = self.foundation3.how_many_cards(x, y);
                proof {
                    self.lift_ok_from_faceup(self.foundation3.cards@, n as int);
                }
                n
            },
            CardSources::Foundation4 => {
                let n = self.foundation4.how_many_cards(x, y);
                proof {
                    self.lift_ok_from_faceup(self.foundation4.cards@, n as int);
                }
                n
            },
            CardSources::Tableau1 => {
                let n = self.tableau1.how_many_cards(x, y);
                proof {
                    Self::lift_ok_from_tableau(self.tableau1, n as int);
                }
                n
            },
            CardSources::Tableau2 => {
                let n = self.tableau2.how_many_cards(x, y);
                proof {
                    Self::lift_ok_from_tableau(self.tableau2, n as int);
                }
                n
            },
            CardSources::Tableau3 => {
                let n = self.tableau3.how_many_cards(x, y);
                proof {
                    Self::lift_ok_from_tableau(self.tableau3, n as int);
                }
                n
            },
            CardSources::Tableau4 => {
                let n = self.tableau4.how_many_cards(x, y);
                proof {
                    Self::lift_ok_from_tableau(self.tableau4, n as int);
                }
                n
            },
            CardSources::Tableau5 => {
                let n = self.tableau5.how_many_cards(x, y);
                proof {
                    Self::lift_ok_from_tableau(self.tableau5, n as int);
                }
                n
            },
            CardSources::Tableau6 => {
                let n = self.tableau6.how_many_cards(x, y);
                proof {
                    Self::lift_ok_from_tableau(self.tableau6, n as int);
                }
                n
            },
            CardSources::Tableau7 => {
                let n = self.tableau7.how_many_cards(x, y);
                proof {
                    Self::lift_ok_from_tableau(self.tableau7, n as int);
                }
                n
            },
        }
    }

    /// A single face-up top card is a liftable run.
    proof fn lift_ok_from_faceup(self, pile: Seq<PhysicalCard>, n: int)
        requires
            all_face_up(pile),
            n == 1 ==> pile.len() >= 1,
            0 <= n <= 1,
        ensures
            n > 0 ==> liftable_run_ok(pile, n),
    {
        if n == 1 {
            let run = cards_of(pile).skip(pile.len() - 1);
            assert(run.len() == 1);
            assert(stacked_run(run));
        }
    }

    /// The hit-scan's answer on a well-formed tableau is a liftable run.
    #[verifier::rlimit(100)]
    #[verifier::spinoff_prover]
    proof fn lift_ok_from_tableau(t: Tableau, n: int)
        requires
            t.wf(),
            0 <= n <= faceup_len(t.cards@),
            n <= t.cards@.len(),
        ensures
            n > 0 ==> liftable_run_ok(t.cards@, n),
    {
        if n > 0 {
            let s = t.cards@;
            let fl = faceup_len(s) as int;
            lemma_faceup_len(s);
            assert(cards_of(s).skip(s.len() - n) =~= t.faceup_seq().skip(fl - n));
            lemma_stacked_run_skip(t.faceup_seq(), fl - n);
        }
    }

    /// Scans the sources in the fixed order and reports the first hit with
    /// its lift size.
    #[verifier::rlimit(100)]
    #[verifier::spinoff_prover]
    fn source_scan(&self, x: i32, y: i32) -> (r: Option<(CardSources, usize)>)
        requires
            self.piles_wf(),
        ensures
            r is None <==> self.pick_source(x as int, y as int) is None,
            r matches Some(p) ==> {
                &&& self.pick_source(x as int, y as int) == Some(p.0)
                &&& p.1 == self.source_liftable(p.0, x as int, y as int)
                &&& liftable_run_ok(self.source_pile(p.0), p.1 as int)
                &&& (single_card_source(p.0) ==> p.1 == 1)
            },
    {
        let n = self.source_how_many(CardSources::Discard, x, y);
        if n > 0 {
            return Some((CardSources::Discard, n));
        }
        let n = self.source_how_many(CardSources::Foundation1, x, y);
        if n > 0 {
            return Some((CardSources::Foundation1, n));
        }
        let n = self.source_how_many(CardSources::Foundation2, x, y);
        if n > 0 {
            return Some((CardSources::Foundation2, n));
        }
        let n = self.source_how_many(CardSources::Foundation3, x, y);
        if n > 0 {
            return Some((CardSources::Foundation3, n));
        }
        let n = self.source_how_many(CardSources::Foundation4, x, y);
        if n > 0 {
            return Some((CardSources::Foundation4, n));
        }
        let n = self.source_how_many(CardSources::Tableau1, x, y);
        if n > 0 {
            return Some((CardSources::Tableau1, n));
        }
        let n = self.source_how_many(CardSources::Tableau2, x, y);
        if n > 0 {
            return Some((CardSources::Tableau2, n));
        }
        let n = self.source_how_many(CardSources::Tableau3, x, y);
        if n > 0 {
            return Some((CardSources::Tableau3, n));
        }
        let n = self.source_how_many(CardSources::Tableau4, x, y);
        if n > 0 {
            return Some((CardSources::Tableau4, n));
        }
        let n = self.source_how_many(CardSources::Tableau5, x, y);
        if n > 0 {
            return Some((CardSources::Tableau5, n));
        }
        let n = self.source_how_many(CardSources::Tableau6, x, y);
        if n > 0 {
            return Some((CardSources::Tableau6, n));
        }
        let n = self.source_how_many(CardSources::Tableau7, x, y);
        if n > 0 {
            return Some((CardSources::Tableau7, n));
        }
        None
    }

    /// Lifts a run for dragging: copies its identities, remembers where it
    /// sat, and hides it in place.
    #[verifier::rlimit(100)]
    #[verifier::spinoff_prover]
    fn lift_from_source(&mut self, src: CardSources, n: usize) -> (r: (Vec<Card>, (i32, i32)))
        requires
            old(self).piles_wf(),
            liftable_run_ok(old(self).source_pile(src), n as int),
        ensures
            final(self).piles_wf(),
            frame_ok(*old(self), *final(self), Some(src), None),
            final(self).held_card == old(self).held_card,
            final(self).all_cards() == old(self).all_cards(),
            final(self).source_pile(src) == hidden_top_spec(old(self).source_pile(src), n as int),
            r.0@ == cards_of(old(self).source_pile(src)).skip(
                old(self).source_pile(src).len() - n,
            ),
            r.1 == (
                old(self).source_pile(src)[old(self).source_pile(src).len() - n].x,
                old(self).source_pile(src)[old(self).source_pile(src).len() - n].y,
            ),
    {
        proof {
            reveal(Game::piles_wf);
            reveal(frame_ok);
        }
        let ghost g0 = *self;
        let r = match src {
            CardSources::Discard => {
                let ids = crate::card::top_cards_of(&self.stock_discard.discard.cards, n);
                let pc = self.stock_discard.discard.cards[self.stock_discard.discard.cards.len() - n];
                self.stock_discard.discard.hide_top_cards(n);
                (ids, pc.position())
            },
            CardSources::Foundation1 => {
                let ids = crate::card::top_cards_of(&self.foundation1.cards, n);
                let pc = self.foundation1.cards[self.foundation1.cards.len() - n];
                self.foundation1.hide_top_cards(n);
                (ids, pc.position())
            },
            CardSources::Foundation2 => {
                let ids = crate::card::top_cards_of(&self.foundation2.cards, n);
                let pc = self.foundation2.cards[self.foundation2.cards.len() - n];
                self.foundation2.hide_top_cards(n);
                (ids, pc.position())
            },
            CardSources::Foundation3 => {
                let ids = crate::card::top_cards_of(&self.foundation3.cards, n);
                let pc = self.foundation3.cards[self.foundation3.cards.len() - n];
                self.foundation3.hide_top_cards(n);
                (ids, pc.position())
            },
            CardSources::Foundation4 => {
                let ids = crate::card::top_cards_of(&self.foundation4.cards, n);
                let pc = self.foundation4.cards[self.foundation4.cards.len() - n];
                self.foundation4.hide_top_cards(n);
                (ids, pc.position())
            },
            CardSources::Tableau1 => {
                let ids = crate::card::top_cards_of(&self.tableau1.cards, n);
                let pc = self.tableau1.cards[self.tableau1.cards.len() - n];
                self.tableau1.hide_top_cards(n);
                (ids, pc.position())
            },
            CardSources::Tableau2 => {
                let ids = crate::card::top_cards_of(&self.tableau2.cards, n);
                let pc = self.tableau2.cards[self.tableau2.cards.len() - n];
                self.tableau2.hide_top_cards(n);
                (ids, pc.position())
            },
            CardSources::Tableau3 => {
                let ids = crate::card::top_cards_of(&self.tableau3.cards, n);
                let pc = self.tableau3.cards[self.tableau3.cards.len() - n];
                self.tableau3.hide_top_cards(n);
                (ids, pc.position())
            },
            CardSources::Tableau4 => {
                let ids = crate::card::top_cards_of(&self.tableau4.cards, n);
                let pc = self.tableau4.cards[self.tableau4.cards.len() - n];
                self.tableau4.hide_top_cards(n);
                (ids, pc.position())
            },
            CardSources::Tableau5 => {
                let ids = crate::card::top_cards_of(&self.tableau5.cards, n);
                let pc = self.tableau5.cards[self.tableau5.cards.len() - n];
                self.tableau5.hide_top_cards(n);
                (ids, pc.position())
            },
            CardSources::Tableau6 => {
                let ids = crate::card::top_cards_of(&self.tableau6.cards, n);
                let pc = self.tableau6.cards[self.tableau6.cards.len() - n];
                self.tableau6.hide_top_cards(n);
                (ids, pc.position())
            },
            CardSources::Tableau7 => {
                let ids = crate::card::top_cards_of(&self.tableau7.cards, n);
                let pc = self.tableau7.cards[self.tableau7.cards.len() - n];
                self.tableau7.hide_top_cards(n);
                (ids, pc.position())
            },
        };
        proof {
            assert(self.source_pile(src) =~= hidden_top_spec(g0.source_pile(src), n as int));
            assert(cards_of(self.source_pile(src)) =~= cards_of(g0.source_pile(src)));
            lemma_same_cards(g0, *self, src);
        }
        r
    }

    /// Shows a hidden run again at the release point: the snap-back.
    #[verifier::rlimit(100)]
    #[verifier::spinoff_prover]
    fn reveal_source(&mut self, src: CardSources, n: usize, mouse_x: i32, mouse_y: i32)
        requires
            old(self).piles_wf(),
            n <= old(self).source_pile(src).len(),
            coord_ok(mouse_x as int),
            coord_ok(mouse_y as int),
        ensures
            final(self).piles_wf(),
            frame_ok(*old(self), *final(self), Some(src), None),
            final(self).held_card == old(self).held_card,
            final(self).all_cards() == old(self).all_cards(),
            final(self).source_pile(src) == revealed_top_spec(
                old(self).source_pile(src),
                n as int,
                mouse_x as int,
                mouse_y as int,
            ),
    {
        proof {
            reveal(Game::piles_wf);
            reveal(frame_ok);
        }
        let ghost g0 = *self;
        match src {
            CardSources::Discard => self.stock_discard.discard.reveal_top_cards(n, mouse_x, mouse_y),
            CardSources::Foundation1 => self.foundation1.reveal_top_cards(n, mouse_x, mouse_y),
            CardSources::Foundation2 => self.foundation2.reveal_top_cards(n, mouse_x, mouse_y),
            CardSources::Foundation3 => self.foundation3.reveal_top_cards(n, mouse_x, mouse_y),
            CardSources::Foundation4 => self.foundation4.reveal_top_cards(n, mouse_x, mouse_y),
            CardSources::Tableau1 => self.tableau1.reveal_top_cards(n, mouse_x, mouse_y),
            CardSources::Tableau2 => self.tableau2.reveal_top_cards(n, mouse_x, mouse_y),
            CardSources::Tableau3 => self.tableau3.reveal_top_cards(n, mouse_x, mouse_y),
            CardSources::Tableau4 => self.tableau4.reveal_top_cards(n, mouse_x, mouse_y),
            CardSources::Tableau5 => self.tableau5.reveal_top_cards(n, mouse_x, mouse_y),
            CardSources::Tableau6 => self.tableau6.reveal_top_cards(n, mouse_x, mouse_y),
            CardSources::Tableau7 => self.tableau7.reveal_top_cards(n, mouse_x, mouse_y),
        }
        proof {
            assert(self.source_pile(src) =~= revealed_top_spec(
                g0.source_pile(src),
                n as int,
                mouse_x as int,
                mouse_y as int,
            ));
            assert(cards_of(self.source_pile(src)) =~= cards_of(g0.source_pile(src)));
            lemma_same_cards(g0, *self, src);
        }
    }

    /// Removes a held run from its origin pile for placement.
    #[verifier::rlimit(100)]
    #[verifier::spinoff_prover]
    fn take_from_source(&mut self, src: CardSources, n: usize, run: Ghost<Seq<Card>>) -> (taken:
        Vec<PhysicalCard>)
        requires
            old(self).piles_wf(),
            held_matches(old(self).source_pile(src), run@),
            n == run@.len(),
            single_card_source(src) ==> n == 1,
        ensures
            final(self).piles_wf(),
            frame_ok(*old(self), *final(self), Some(src), None),
            final(self).held_card == old(self).held_card,
            taken@.len() == n,
            cards_of(taken@) == run@,
            all_face_up(taken@),
            stacked_run(cards_of(taken@)),
            cards_of(final(self).source_pile(src)) == cards_of(old(self).source_pile(src)).take(
                old(self).source_pile(src).len() - n,
            ),
            old(self).all_cards().to_multiset() == final(self).all_cards().to_multiset().add(
                run@.to_multiset(),
            ),
    {
        proof {
            reveal(Game::piles_wf);
            reveal(frame_ok);
        }
        let ghost g0 = *self;
        let taken = match src {
            CardSources::Discard => {
                let t = take_held_discard(&mut self.stock_discard.discard, n, run);
                proof {
                    assert(frame_ok(g0, *self, Some(src), None));
                    assert(cards_of(g0.source_pile(src)) == cards_of(self.source_pile(src))
                        + run@);
                }
                t
            },
            CardSources::Foundation1 => {
                let t = take_held_foundation(&mut self.foundation1, n, run);
                proof {
                    assert(frame_ok(g0, *self, Some(src), None));
                    assert(cards_of(g0.source_pile(src)) == cards_of(self.source_pile(src))
                        + run@);
                }
                t
            },
            CardSources::Foundation2 => {
                let t = take_held_foundation(&mut self.foundation2, n, run);
                proof {
                    assert(frame_ok(g0, *self, Some(src), None));
                    assert(cards_of(g0.source_pile(src)) == cards_of(self.source_pile(src))
                        + run@);
                }
                t
            },
            CardSources::Foundation3 => {
                let t = take_held_foundation(&mut self.foundation3, n, run);
                proof {
                    assert(frame_ok(g0, *self, Some(src), None));
                    assert(cards_of(g0.source_pile(src)) == cards_of(self.source_pile(src))
                        + run@);
                }
                t
            },
            CardSources::Foundation4 => {
                let t = take_held_foundation(&mut self.foundation4, n, run);
                proof {
                    assert(frame_ok(g0, *self, Some(src), None));
                    assert(cards_of(g0.source_pile(src)) == cards_of(self.source_pile(src))
                        + run@);
                }
                t
            },
            CardSources::Tableau1 => {
                let t = take_held_tableau(&mut self.tableau1, n, run);
                proof {
                    assert(frame_ok(g0, *self, Some(src), None));
                    assert(cards_of(g0.source_pile(src)) == cards_of(self.source_pile(src))
                        + run@);
                }
                t
            },
            CardSources::Tableau2 => {
                let t = take_held_tableau(&mut self.tableau2, n, run);
                proof {
                    assert(frame_ok(g0, *self, Some(src), None));
                    assert(cards_of(g0.source_pile(src)) == cards_of(self.source_pile(src))
                        + run@);
                }
                t
            },
            CardSources::Tableau3 => {
                let t = take_held_tableau(&mut self.tableau3, n, run);
                proof {
                    assert(frame_ok(g0, *self, Some(src), None));
                    assert(cards_of(g0.source_pile(src)) == cards_of(self.source_pile(src))
                        + run@);
                }
                t
            },
            CardSources::Tableau4 => {
                let t = take_held_tableau(&mut self.tableau4, n, run);
                proof {
                    assert(frame_ok(g0, *self, Some(src), None));
                    assert(cards_of(g0.source_pile(src)) == cards_of(self.source_pile(src))
                        + run@);
                }
                t
            },
            CardSources::Tableau5 => {
                let t = take_held_tableau(&mut self.tableau5, n, run);
                proof {
                    assert(frame_ok(g0, *self, Some(src), None));
                    assert(cards_of(g0.source_pile(src)) == cards_of(self.source_pile(src))
                        + run@);
                }
                t
            },
            CardSources::Tableau6 => {
                let t = take_held_tableau(&mut self.tableau6, n, run);
                proof {
                    assert(frame_ok(g0, *self, Some(src), None));
                    assert(cards_of(g0.source_pile(src)) == cards_of(self.source_pile(src))
                        + run@);
                }
                t
            },
            CardSources::Tableau7 => {
                let t = take_held_tableau(&mut self.tableau7, n, run);
                proof {
                    assert(frame_ok(g0, *self, Some(src), None));
                    assert(cards_of(g0.source_pile(src)) == cards_of(self.source_pile(src))
                        + run@);
                }
                t
            },
        };
        proof {
            lemma_take_multiset(g0, *self, src, run@);
        }
        taken
    }

    /// One sink's arm of `place_into_sink`.
    #[verifier::rlimit(100)]
    #[verifier::spinoff_prover]
    fn place_snk_foundation1(&mut self, mouse_x: i32, mouse_y: i32, cards: Vec<PhysicalCard>)
        requires
            old(self).piles_wf(),
            coord_ok(mouse_x as int),
            coord_ok(mouse_y as int),
            cards@.len() >= 1,
            all_face_up(cards@),
            stacked_run(cards_of(cards@)),
            old(self).sink_accepts(CardSinks::Foundation1, cards_of(cards@)),
        ensures
            final(self).piles_wf(),
            frame_ok(*old(self), *final(self), None, Some(CardSinks::Foundation1)),
            final(self).held_card == old(self).held_card,
            cards_of(final(self).sink_pile(CardSinks::Foundation1)) == cards_of(
                old(self).sink_pile(CardSinks::Foundation1),
            ) + cards_of(cards@),
            final(self).all_cards().to_multiset() == old(self).all_cards().to_multiset().add(
                cards_of(cards@).to_multiset(),
            ),
    {
        let ghost g0 = *self;
        let ghost run = cards_of(cards@);
        proof {
            lemma_piles_wf_parts(g0);
        }
        place_held_foundation(&mut self.foundation1, mouse_x, mouse_y, cards);
        proof {
            lemma_place_game_f1(g0, *self, run);
        }
    }

    /// One sink's arm of `place_into_sink`.
    #[verifier::rlimit(100)]
    #[verifier::spinoff_prover]
    fn place_snk_foundation2(&mut self, mouse_x: i32, mouse_y: i32, cards: Vec<PhysicalCard>)
        requires
            old(self).piles_wf(),
            coord_ok(mouse_x as int),
            coord_ok(mouse_y as int),
            cards@.len() >= 1,
            all_face_up(cards@),
            stacked_run(cards_of(cards@)),
            old(self).sink_accepts(CardSinks::Foundation2, cards_of(cards@)),
        ensures
            final(self).piles_wf(),
            frame_ok(*old(self), *final(self), None, Some(CardSinks::Foundation2)),
            final(self).held_card == old(self).held_card,
            cards_of(final(self).sink_pile(CardSinks::Foundation2)) == cards_of(
                old(self).sink_pile(CardSinks::Foundation2),
            ) + cards_of(cards@),
            final(self).all_cards().to_multiset() == old(self).all_cards().to_multiset().add(
                cards_of(cards@).to_multiset(),
            ),
    {
        let ghost g0 = *self;
        let ghost run = cards_of(cards@);
        proof {
            lemma_piles_wf_parts(g0);
        }
        place_held_foundation(&mut self.foundation2, mouse_x, mouse_y, cards);
        proof {
            lemma_place_game_f2(g0, *self, run);
        }
    }

    /// One sink's arm of `place_into_sink`.
    #[verifier::rlimit(100)]
    #[verifier::spinoff_prover]
    fn place_snk_foundation3(&mut self, mouse_x: i32, mouse_y: i32, cards: Vec<PhysicalCard>)
        requires
            old(self).piles_wf(),
            coord_ok(mouse_x as int),
            coord_ok(mouse_y as int),
            cards@.len() >= 1,
            all_face_up(cards@),
            stacked_run(cards_of(cards@)),
            old(self).sink_accepts(CardSinks::Foundation3, cards_of(cards@)),
        ensures
            final(self).piles_wf(),
            frame_ok(*old(self), *final(self), None, Some(CardSinks::Foundation3)),
            final(self).held_card == old(self).held_card,
            cards_of(final(self).sink_pile(CardSinks::Foundation3)) == cards_of(
                old(self).sink_pile(CardSinks::Foundation3),
            ) + cards_of(cards@),
            final(self).all_cards().to_multiset() == old(self).all_cards().to_multiset().add(
                cards_of(cards@).to_multiset(),
            ),
    {
        let ghost g0 = *self;
        let ghost run = cards_of(cards@);
        proof {
            lemma_piles_wf_parts(g0);
        }
        place_held_foundation(&mut self.foundation3, mouse_x, mouse_y, cards);
        proof {
            lemma_place_game_f3(g0, *self, run);
        }
    }

    /// One sink's arm of `place_into_sink`.
    #[verifier::rlimit(100)]
    #[verifier::spinoff_prover]
    fn place_snk_foundation4(&mut self, mouse_x: i32, mouse_y: i32, cards: Vec<PhysicalCard>)
        requires
            old(self).piles_wf(),
            coord_ok(mouse_x as int),
            coord_ok(mouse_y as int),
            cards@.len() >= 1,
            all_face_up(cards@),
            stacked_run(cards_of(cards@)),
            old(self).sink_accepts(CardSinks::Foundation4, cards_of(cards@)),
        ensures
            final(self).piles_wf(),
            frame_ok(*old(self), *final(self), None, Some(CardSinks::Foundation4)),
            final(self).held_card == old(self).held_card,
            cards_of(final(self).sink_pile(CardSinks::Foundation4)) == cards_of(
                old(self).sink_pile(CardSinks::Foundation4),
            ) + cards_of(cards@),
            final(self).all_cards().to_multiset() == old(self).all_cards().to_multiset().add(
                cards_of(cards@).to_multiset(),
            ),
    {
        let ghost g0 = *self;
        let ghost run = cards_of(cards@);
        proof {
            lemma_piles_wf_parts(g0);
        }
        place_held_foundation(&mut self.foundation4, mouse_x, mouse_y, cards);
        proof {
            lemma_place_game_f4(g0, *self, run);
        }
    }

    /// One sink's arm of `place_into_sink`.
    #[verifier::rlimit(100)]
    #[verifier::spinoff_prover]
    fn place_snk_tableau1(&mut self, mouse_x: i32, mouse_y: i32, cards: Vec<PhysicalCard>)
        requires
            old(self).piles_wf(),
            coord_ok(mouse_x as int),
            coord_ok(mouse_y as int),
            cards@.len() >= 1,
            all_face_up(cards@),
            stacked_run(cards_of(cards@)),
            old(self).sink_accepts(CardSinks::Tableau1, cards_of(cards@)),
        ensures
            final(self).piles_wf(),
            frame_ok(*old(self), *final(self), None, Some(CardSinks::Tableau1)),
            final(self).held_card == old(self).held_card,
            cards_of(final(self).sink_pile(CardSinks::Tableau1)) == cards_of(
                old(self).sink_pile(CardSinks::Tableau1),
            ) + cards_of(cards@),
            final(self).all_cards().to_multiset() == old(self).all_cards().to_multiset().add(
                cards_of(cards@).to_multiset(),
            ),
    {
        proof {
            reveal(Game::piles_wf);
            reveal(frame_ok);
        }
        let ghost g0 = *self;
        let ghost run = cards_of(cards@);
        place_held_tableau(&mut self.tableau1, mouse_x, mouse_y, cards);
        proof {
            assert(frame_ok(g0, *self, None, Some(CardSinks::Tableau1)));
            assert(cards_of(self.sink_pile(CardSinks::Tableau1)) == cards_of(
                g0.sink_pile(CardSinks::Tableau1),
            ) + run);
            lemma_place_multiset(g0, *self, CardSinks::Tableau1, run);
        }
    }

    /// One sink's arm of `place_into_sink`.
    #[verifier::rlimit(100)]
    #[verifier::spinoff_prover]
    fn place_snk_tableau2(&mut self, mouse_x: i32, mouse_y: i32, cards: Vec<PhysicalCard>)
        requires
            old(self).piles_wf(),
            coord_ok(mouse_x as int),
            coord_ok(mouse_y as int),
            cards@.len() >= 1,
            all_face_up(cards@),
            stacked_run(cards_of(cards@)),
            old(self).sink_accepts(CardSinks::Tableau2, cards_of(cards@)),
        ensures
            final(self).piles_wf(),
            frame_ok(*old(self), *final(self), None, Some(CardSinks::Tableau2)),
            final(self).held_card == old(self).held_card,
            cards_of(final(self).sink_pile(CardSinks::Tableau2)) == cards_of(
                old(self).sink_pile(CardSinks::Tableau2),
            ) + cards_of(cards@),
            final(self).all_cards().to_multiset() == old(self).all_cards().to_multiset().add(
                cards_of(cards@).to_multiset(),
            ),
    {
        proof {
            reveal(Game::piles_wf);
            reveal(frame_ok);
        }
        let ghost g0 = *self;
        let ghost run = cards_of(cards@);
        place_held_tableau(&mut self.tableau2, mouse_x, mouse_y, cards);
        proof {
            assert(frame_ok(g0, *self, None, Some(CardSinks::Tableau2)));
            assert(cards_of(self.sink_pile(CardSinks::Tableau2)) == cards_of(
                g0.sink_pile(CardSinks::Tableau2),
            ) + run);
            lemma_place_multiset(g0, *self, CardSinks::Tableau2, run);
        }
    }

    /// One sink's arm of `place_into_sink`.
    #[verifier::rlimit(100)]
    #[verifier::spinoff_prover]
    fn place_snk_tableau3(&mut self, mouse_x: i32, mouse_y: i32, cards: Vec<PhysicalCard>)
        requires
            old(self).piles_wf(),
            coord_ok(mouse_x as int),
            coord_ok(mouse_y as int),
            cards@.len() >= 1,
            all_face_up(cards@),
            stacked_run(cards_of(cards@)),
            old(self).sink_accepts(CardSinks::Tableau3, cards_of(cards@)),
        ensures
            final(self).piles_wf(),
            frame_ok(*old(self), *final(self), None, Some(CardSinks::Tableau3)),
            final(self).held_card == old(self).held_card,
            cards_of(final(self).sink_pile(CardSinks::Tableau3)) == cards_of(
                old(self).sink_pile(CardSinks::Tableau3),
            ) + cards_of(cards@),
            final(self).all_cards().to_multiset() == old(self).all_cards().to_multiset().add(
                cards_of(cards@).to_multiset(),
            ),
    {
        proof {
            reveal(Game::piles_wf);
            reveal(frame_ok);
        }
        let ghost g0 = *self;
        let ghost run = cards_of(cards@);
        place_held_tableau(&mut self.tableau3, mouse_x, mouse_y, cards);
        proof {
            assert(frame_ok(g0, *self, None, Some(CardSinks::Tableau3)));
            assert(cards_of(self.sink_pile(CardSinks::Tableau3)) == cards_of(
                g0.sink_pile(CardSinks::Tableau3),
            ) + run);
            lemma_place_multiset(g0, *self, CardSinks::Tableau3, run);
        }
    }

    /// One sink's arm of `place_into_sink`.
    #[verifier::rlimit(100)]
    #[verifier::spinoff_prover]
    fn place_snk_tableau4(&mut self, mouse_x: i32, mouse_y: i32, cards: Vec<PhysicalCard>)
        requires
            old(self).piles_wf(),
            coord_ok(mouse_x as int),
            coord_ok(mouse_y as int),
            cards@.len() >= 1,
            all_face_up(cards@),
            stacked_run(cards_of(cards@)),
            old(self).sink_accepts(CardSinks::Tableau4, cards_of(cards@)),
        ensures
            final(self).piles_wf(),
            frame_ok(*old(self), *final(self), None, Some(CardSinks::Tableau4)),
            final(self).held_card == old(self).held_card,
            cards_of(final(self).sink_pile(CardSinks::Tableau4)) == cards_of(
                old(self).sink_pile(CardSinks::Tableau4),
            ) + cards_of(cards@),
            final(self).all_cards().to_multiset() == old(self).all_cards().to_multiset().add(
                cards_of(cards@).to_multiset(),
            ),
    {
        proof {
            reveal(Game::piles_wf);
            reveal(frame_ok);
        }
        let ghost g0 = *self;
        let ghost run = cards_of(cards@);
        place_held_tableau(&mut self.tableau4, mouse_x, mouse_y, cards);
        proof {
            assert(frame_ok(g0, *self, None, Some(CardSinks::Tableau4)));
            assert(cards_of(self.sink_pile(CardSinks::Tableau4)) == cards_of(
                g0.sink_pile(CardSinks::Tableau4),
            ) + run);
            lemma_place_multiset(g0, *self, CardSinks::Tableau4, run);
        }
    }

    /// One sink's arm of `place_into_sink`.
    #[verifier::rlimit(100)]
    #[verifier::spinoff_prover]
    fn place_snk_tableau5(&mut self, mouse_x: i32, mouse_y: i32, cards: Vec<PhysicalCard>)
        requires
            old(self).piles_wf(),
            coord_ok(mouse_x as int),
            coord_ok(mouse_y as int),
            cards@.len() >= 1,
            all_face_up(cards@),
            stacked_run(cards_of(cards@)),
            old(self).sink_accepts(CardSinks::Tableau5, cards_of(cards@)),
        ensures
            final(self).piles_wf(),
            frame_ok(*old(self), *final(self), None, Some(CardSinks::Tableau5)),
            final(self).held_card == old(self).held_card,
            cards_of(final(self).sink_pile(CardSinks::Tableau5)) == cards_of(
                old(self).sink_pile(CardSinks::Tableau5),
            ) + cards_of(cards@),
            final(self).all_cards().to_multiset() == old(self).all_cards().to_multiset().add(
                cards_of(cards@).to_multiset(),
            ),
    {
        proof {
            reveal(Game::piles_wf);
            reveal(frame_ok);
        }
        let ghost g0 = *self;
        let ghost run = cards_of(cards@);
        place_held_tableau(&mut self.tableau5, mouse_x, mouse_y, cards);
        proof {
            assert(frame_ok(g0, *self, None, Some(CardSinks::Tableau5)));
            assert(cards_of(self.sink_pile(CardSinks::Tableau5)) == cards_of(
                g0.sink_pile(CardSinks::Tableau5),
            ) + run);
            lemma_place_multiset(g0, *self, CardSinks::Tableau5, run);
        }
    }

    /// One sink's arm of `place_into_sink`.
    #[verifier::rlimit(100)]
    #[verifier::spinoff_prover]
    fn place_snk_tableau6(&mut self, mouse_x: i32, mouse_y: i32, cards: Vec<PhysicalCard>)
        requires
            old(self).piles_wf(),
            coord_ok(mouse_x as int),
            coord_ok(mouse_y as int),
            cards@.len() >= 1,
            all_face_up(cards@),
            stacked_run(cards_of(cards@)),
            old(self).sink_accepts(CardSinks::Tableau6, cards_of(cards@)),
        ensures
            final(self).piles_wf(),
            frame_ok(*old(self), *final(self), None, Some(CardSinks::Tableau6)),
            final(self).held_card == old(self).held_card,
            cards_of(final(self).sink_pile(CardSinks::Tableau6)) == cards_of(
                old(self).sink_pile(CardSinks::Tableau6),
            ) + cards_of(cards@),
            final(self).all_cards().to_multiset() == old(self).all_cards().to_multiset().add(
                cards_of(cards@).to_multiset(),
            ),
    {
        proof {
            reveal(Game::piles_wf);
            reveal(frame_ok);
        }
        let ghost g0 = *self;
        let ghost run = cards_of(cards@);
        place_held_tableau(&mut self.tableau6, mouse_x, mouse_y, cards);
        proof {
            assert(frame_ok(g0, *self, None, Some(CardSinks::Tableau6)));
            assert(cards_of(self.sink_pile(CardSinks::Tableau6)) == cards_of(
                g0.sink_pile(CardSinks::Tableau6),
            ) + run);
            lemma_place_multiset(g0, *self, CardSinks::Tableau6, run);
        }
    }

    /// One sink's arm of `place_into_sink`.
    #[verifier::rlimit(100)]
    #[verifier::spinoff_prover]
    fn place_snk_tableau7(&mut self, mouse_x: i32, mouse_y: i32, cards: Vec<PhysicalCard>)
        requires
            old(self).piles_wf(),
            coord_ok(mouse_x as int),
            coord_ok(mouse_y as int),
            cards@.len() >= 1,
            all_face_up(cards@),
            stacked_run(cards_of(cards@)),
            old(self).sink_accepts(CardSinks::Tableau7, cards_of(cards@)),
        ensures
            final(self).piles_wf(),
            frame_ok(*old(self), *final(self), None, Some(CardSinks::Tableau7)),
            final(self).held_card == old(self).held_card,
            cards_of(final(self).sink_pile(CardSinks::Tableau7)) == cards_of(
                old(self).sink_pile(CardSinks::Tableau7),
            ) + cards_of(cards@),
            final(self).all_cards().to_multiset() == old(self).all_cards().to_multiset().add(
                cards_of(cards@).to_multiset(),
            ),
    {
        proof {
            reveal(Game::piles_wf);
            reveal(frame_ok);
        }
        let ghost g0 = *self;
        let ghost run = cards_of(cards@);
        place_held_tableau(&mut self.tableau7, mouse_x, mouse_y, cards);
        proof {
            assert(frame_ok(g0, *self, None, Some(CardSinks::Tableau7)));
            assert(cards_of(self.sink_pile(CardSinks::Tableau7)) == cards_of(
                g0.sink_pile(CardSinks::Tableau7),
            ) + run);
            lemma_place_multiset(g0, *self, CardSinks::Tableau7, run);
        }
    }

    /// Lands a legal run in its sink; the legality was already confirmed,
    /// so the placement cannot fail.
    #[verifier::rlimit(100)]
    #[verifier::spinoff_prover]
    fn place_into_sink(&mut self, snk: CardSinks, mouse_x: i32, mouse_y: i32, cards: Vec<PhysicalCard>)
        requires
            old(self).piles_wf(),
            coord_ok(mouse_x as int),
            coord_ok(mouse_y as int),
            cards@.len() >= 1,
            all_face_up(cards@),
            stacked_run(cards_of(cards@)),
            old(self).sink_accepts(snk, cards_of(cards@)),
        ensures
            final(self).piles_wf(),
            frame_ok(*old(self), *final(self), None, Some(snk)),
            final(self).held_card == old(self).held_card,
            cards_of(final(self).sink_pile(snk)) == cards_of(old(self).sink_pile(snk)) + cards_of(
                cards@,
            ),
            final(self).all_cards().to_multiset() == old(self).all_cards().to_multiset().add(
                cards_of(cards@).to_multiset(),
            ),
    {
        match snk {
            CardSinks::Foundation1 => self.place_snk_foundation1(mouse_x, mouse_y, cards),
            CardSinks::Foundation2 => self.place_snk_foundation2(mouse_x, mouse_y, cards),
            CardSinks::Foundation3 => self.place_snk_foundation3(mouse_x, mouse_y, cards),
            CardSinks::Foundation4 => self.place_snk_foundation4(mouse_x, mouse_y, cards),
            CardSinks::Tableau1 => self.place_snk_tableau1(mouse_x, mouse_y, cards),
            CardSinks::Tableau2 => self.place_snk_tableau2(mouse_x, mouse_y, cards),
            CardSinks::Tableau3 => self.place_snk_tableau3(mouse_x, mouse_y, cards),
            CardSinks::Tableau4 => self.place_snk_tableau4(mouse_x, mouse_y, cards),
            CardSinks::Tableau5 => self.place_snk_tableau5(mouse_x, mouse_y, cards),
            CardSinks::Tableau6 => self.place_snk_tableau6(mouse_x, mouse_y, cards),
            CardSinks::Tableau7 => self.place_snk_tableau7(mouse_x, mouse_y, cards),
        }
    }

    /// Scans the sinks in the fixed order for the first that would take
    /// the run at this point.
    #[verifier::rlimit(100)]
    #[verifier::spinoff_prover]
    fn sink_scan(&self, x: i32, y: i32, ids: &Vec<Card>) -> (o: Option<CardSinks>)
        requires
            self.piles_wf(),
            ids@.len() >= 1,
        ensures
            o == self.pick_sink(x as int, y as int, ids@),
    {
        proof {
            reveal(Game::piles_wf);
        }
        if self.foundation1.within_bounds(x, y) && self.foundation1.is_placement_possible(ids) {
            Some(CardSinks::Foundation1)
        } else if self.foundation2.within_bounds(x, y) && self.foundation2.is_placement_possible(
            ids,
        ) {
            Some(CardSinks::Foundation2)
        } else if self.foundation3.within_bounds(x, y) && self.foundation3.is_placement_possible(
            ids,
        ) {
            Some(CardSinks::Foundation3)
        } else if self.foundation4.within_bounds(x, y) && self.foundation4.is_placement_possible(
            ids,
        ) {
            Some(CardSinks::Foundation4)
        } else if self.tableau1.within_bounds(x, y) && self.tableau1.is_placement_possible(ids) {
            Some(CardSinks::Tableau1)
        } else if self.tableau2.within_bounds(x, y) && self.tableau2.is_placement_possible(ids) {
            Some(CardSinks::Tableau2)
        } else if self.tableau3.within_bounds(x, y) && self.tableau3.is_placement_possible(ids) {
            Some(CardSinks::Tableau3)
        } else if self.tableau4.within_bounds(x, y) && self.tableau4.is_placement_possible(ids) {
            Some(CardSinks::Tableau4)
        } else if self.tableau5.within_bounds(x, y) && self.tableau5.is_placement_possible(ids) {
            Some(CardSinks::Tableau5)
        } else if self.tableau6.within_bounds(x, y) && self.tableau6.is_placement_possible(ids) {
            Some(CardSinks::Tableau6)
        } else if self.tableau7.within_bounds(x, y) && self.tableau7.is_placement_possible(ids) {
            Some(CardSinks::Tableau7)
        } else {
            None
        }
    }
}



/// Which piles a transition may touch: at most the pile of `src` and the
/// pile of `snk`; a touched pile keeps its identity fields, an untouched
/// pile is exactly what it was.  The stock is never a source or sink.
#[verifier::opaque]
pub open spec fn frame_ok(pre: Game, post: Game, src: Option<CardSources>, snk: Option<
    CardSinks,
>) -> bool {
    &&& post.stock_discard.stock == pre.stock_discard.stock
    &&& (if src == Some(CardSources::Discard) {
        post.stock_discard.discard.x == pre.stock_discard.discard.x
            && post.stock_discard.discard.y == pre.stock_discard.discard.y
    } else {
        post.stock_discard.discard == pre.stock_discard.discard
    })
    &&& (if src == Some(CardSources::Foundation1) || snk == Some(CardSinks::Foundation1) {
        foundation_frame(pre.foundation1, post.foundation1)
    } else {
        post.foundation1 == pre.foundation1
    })
    &&& (if src == Some(CardSources::Foundation2) || snk == Some(CardSinks::Foundation2) {
        foundation_frame(pre.foundation2, post.foundation2)
    } else {
        post.foundation2 == pre.foundation2
    })
    &&& (if src == Some(CardSources::Foundation3) || snk == Some(CardSinks::Foundation3) {
        foundation_frame(pre.foundation3, post.foundation3)
    } else {
        post.foundation3 == pre.foundation3
    })
    &&& (if src == Some(CardSources::Foundation4) || snk == Some(CardSinks::Foundation4) {
        foundation_frame(pre.foundation4, post.foundation4)
    } else {
        post.foundation4 == pre.foundation4
    })
    &&& (if src == Some(CardSources::Tableau1) || snk == Some(CardSinks::Tableau1) {
        tableau_frame(pre.tableau1, post.tableau1)
    } else {
        post.tableau1 == pre.tableau1
    })
    &&& (if src == Some(CardSources::Tableau2) || snk == Some(CardSinks::Tableau2) {
        tableau_frame(pre.tableau2, post.tableau2)
    } else {
        post.tableau2 == pre.tableau2
    })
    &&& (if src == Some(CardSources::Tableau3) || snk == Some(CardSinks::Tableau3) {
        tableau_frame(pre.tableau3, post.tableau3)
    } else {
        post.tableau3 == pre.tableau3
    })
    &&& (if src == Some(CardSources::Tableau4) || snk == Some(CardSinks::Tableau4) {
        tableau_frame(pre.tableau4, post.tableau4)
    } else {
        post.tableau4 == pre.tableau4
    })
    &&& (if src == Some(CardSources::Tableau5) || snk == Some(CardSinks::Tableau5) {
        tableau_frame(pre.tableau5, post.tableau5)
    } else {
        post.tableau5 == pre.tableau5
    })
    &&& (if src == Some(CardSources::Tableau6) || snk == Some(CardSinks::Tableau6) {
        tableau_frame(pre.tableau6, post.tableau6)
    } else {
        post.tableau6 == pre.tableau6
    })
    &&& (if src == Some(CardSources::Tableau7) || snk == Some(CardSinks::Tableau7) {
        tableau_frame(pre.tableau7, post.tableau7)
    } else {
        post.tableau7 == pre.tableau7
    })
}

/// A transition that leaves every pile's card identities alone leaves the
/// whole system's card sequence alone.
proof fn lemma_same_cards(pre: Game, post: Game, src: CardSources)
    requires
        frame_ok(pre, post, Some(src), None),
        cards_of(post.source_pile(src)) == cards_of(pre.source_pile(src)),
    ensures
        post.all_cards() == pre.all_cards(),
{
    reveal(frame_ok);
}

/// Taking a run off a source pile moves exactly that run out of the
/// system's multiset.
proof fn lemma_take_multiset(pre: Game, post: Game, src: CardSources, run: Seq<Card>)
    requires
        frame_ok(pre, post, Some(src), None),
        cards_of(pre.source_pile(src)) == cards_of(post.source_pile(src)) + run,
    ensures
        pre.all_cards().to_multiset() == post.all_cards().to_multiset().add(run.to_multiset()),
{
    reveal(frame_ok);
    broadcast use vstd::seq_lib::lemma_multiset_commutative;

    assert(pre.all_cards().to_multiset() =~= post.all_cards().to_multiset().add(
        run.to_multiset(),
    ));
}

/// Placing a run onto a sink pile adds exactly that run to the system's
/// multiset.
proof fn lemma_place_multiset(pre: Game, post: Game, snk: CardSinks, run: Seq<Card>)
    requires
        frame_ok(pre, post, None, Some(snk)),
        cards_of(post.sink_pile(snk)) == cards_of(pre.sink_pile(snk)) + run,
    ensures
        post.all_cards().to_multiset() == pre.all_cards().to_multiset().add(run.to_multiset()),
{
    reveal(frame_ok);
    broadcast use vstd::seq_lib::lemma_multiset_commutative;

    assert(post.all_cards().to_multiset() =~= pre.all_cards().to_multiset().add(
        run.to_multiset(),
    ));
}

/// Removes a held run from a tableau; the run is there, so exactly `n`
/// cards come off.
#[verifier::rlimit(100)]
#[verifier::spinoff_prover]
fn take_held_tableau(t: &mut Tableau, n: usize, run: Ghost<Seq<Card>>) -> (taken: Vec<PhysicalCard>)
    requires
        old(t).wf(),
        held_matches(old(t).cards@, run@),
        n == run@.len(),
    ensures
        final(t).wf(),
        tableau_frame(*old(t), *final(t)),
        taken@.len() == n,
        cards_of(taken@) == run@,
        all_face_up(taken@),
        stacked_run(cards_of(taken@)),
        final(t).cards_seq() == old(t).cards_seq().take(old(t).cards@.len() - n),
        old(t).cards_seq() == final(t).cards_seq() + run@,
{
    proof {
        lemma_faceup_len_at_least(old(t).cards@, n as int);
    }
    let taken = t.take_cards(n);
    proof {
        assert(cards_of(taken@) =~= run@);
        assert(old(t).cards_seq() =~= final(t).cards_seq() + run@);
    }
    taken
}

/// Removes the held top card of a foundation.
#[verifier::rlimit(100)]
#[verifier::spinoff_prover]
fn take_held_foundation(f: &mut Foundation, n: usize, run: Ghost<Seq<Card>>) -> (taken: Vec<PhysicalCard>)
    requires
        old(f).wf(),
        held_matches(old(f).cards@, run@),
        n == run@.len() == 1,
    ensures
        final(f).wf(),
        foundation_frame(*old(f), *final(f)),
        taken@.len() == n,
        cards_of(taken@) == run@,
        all_face_up(taken@),
        stacked_run(cards_of(taken@)),
        final(f).cards_seq() == old(f).cards_seq().take(old(f).cards@.len() - n),
        old(f).cards_seq() == final(f).cards_seq() + run@,
{
    let taken = f.take_cards(n);
    proof {
        assert(cards_of(taken@) =~= run@);
        assert(final(f).cards_seq() =~= old(f).cards_seq().take(old(f).cards@.len() - 1));
        assert(old(f).cards_seq() =~= final(f).cards_seq() + run@);
    }
    taken
}

/// Removes the held top card of the discard.
#[verifier::rlimit(100)]
#[verifier::spinoff_prover]
fn take_held_discard(d: &mut Discard, n: usize, run: Ghost<Seq<Card>>) -> (taken: Vec<PhysicalCard>)
    requires
        old(d).wf(),
        held_matches(old(d).cards@, run@),
        n == run@.len() == 1,
    ensures
        final(d).wf(),
        final(d).x == old(d).x,
        final(d).y == old(d).y,
        taken@.len() == n,
        cards_of(taken@) == run@,
        all_face_up(taken@),
        stacked_run(cards_of(taken@)),
        final(d).cards_seq() == old(d).cards_seq().take(old(d).cards@.len() - n),
        old(d).cards_seq() == final(d).cards_seq() + run@,
{
    let taken = d.take_cards(n);
    proof {
        assert(cards_of(taken@) =~= run@);
        assert(old(d).cards_seq() =~= final(d).cards_seq() + run@);
    }
    taken
}

/// Lands a run whose legality is already confirmed on a tableau.
#[verifier::rlimit(100)]
#[verifier::spinoff_prover]
fn place_held_tableau(t: &mut Tableau, mouse_x: i32, mouse_y: i32, cards: Vec<PhysicalCard>)
    requires
        old(t).wf(),
        coord_ok(mouse_x as int),
        coord_ok(mouse_y as int),
        cards@.len() >= 1,
        all_face_up(cards@),
        stacked_run(cards_of(cards@)),
        tableau_accepts(old(t).cards_seq(), cards_of(cards@)),
    ensures
        final(t).wf(),
        tableau_frame(*old(t), *final(t)),
        final(t).cards_seq() == old(t).cards_seq() + cards_of(cards@),
{
    let placed = t.place_cards(mouse_x, mouse_y, cards);
    proof {
        assert(placed is Ok);
    }
}

/// Lands a run whose legality is already confirmed on a foundation.
#[verifier::rlimit(100)]
#[verifier::spinoff_prover]
fn place_held_foundation(f: &mut Foundation, mouse_x: i32, mouse_y: i32, cards: Vec<PhysicalCard>)
    requires
        old(f).wf(),
        coord_ok(mouse_x as int),
        coord_ok(mouse_y as int),
        cards@.len() >= 1,
        all_face_up(cards@),
        foundation_accepts(old(f).cards_seq(), cards_of(cards@)),
    ensures
        final(f).wf(),
        foundation_frame(*old(f), *final(f)),
        final(f).cards_seq() == old(f).cards_seq() + cards_of(cards@),
{
    let placed = f.place_cards(mouse_x, mouse_y, cards);
    proof {
        assert(placed is Ok);
    }
}

/// A held foundation card can never legally return to its own foundation:
/// it would have to be its own successor.
proof fn lemma_foundation_cannot_retake(f: Foundation, run: Seq<Card>)
    requires
        f.wf(),
        held_matches(f.cards@, run),
        run.len() == 1,
    ensures
        !foundation_accepts(f.cards_seq(), run),
{
    let s = f.cards_seq();
    assert(run[0] == s[s.len() - 1]);
    lemma_next_index(s.last().0);
}

/// A held tableau run can never legally return to its own tableau: its
/// bottom card would have to sit one rank below the run's own top card.
proof fn lemma_tableau_cannot_retake(t: Tableau, run: Seq<Card>)
    requires
        t.wf(),
        held_matches(t.cards@, run),
    ensures
        !tableau_accepts(t.cards_seq(), run),
{
    let s = t.cards_seq();
    let n = run.len() as int;
    assert(run[n - 1] == s[s.len() - 1]);
    lemma_stacked_rank(run, n - 1);
    lemma_prev_index(s.last().0);
}


/// Two games with the same piles agree on every pile query: the held
/// record plays no part in them.
#[verifier::rlimit(100)]
#[verifier::spinoff_prover]
proof fn lemma_piles_unchanged(a: Game, b: Game, src: CardSources, x: int, y: int, run: Seq<Card>)
    requires
        a.stock_discard == b.stock_discard,
        a.foundation1 == b.foundation1,
        a.foundation2 == b.foundation2,
        a.foundation3 == b.foundation3,
        a.foundation4 == b.foundation4,
        a.tableau1 == b.tableau1,
        a.tableau2 == b.tableau2,
        a.tableau3 == b.tableau3,
        a.tableau4 == b.tableau4,
        a.tableau5 == b.tableau5,
        a.tableau6 == b.tableau6,
        a.tableau7 == b.tableau7,
    ensures
        a.piles_wf() == b.piles_wf(),
        a.all_cards() == b.all_cards(),
        a.source_pile(src) == b.source_pile(src),
        a.source_liftable(src, x, y) == b.source_liftable(src, x, y),
        a.pick_source(x, y) == b.pick_source(x, y),
        a.pick_sink(x, y, run) == b.pick_sink(x, y, run),
        a.stock_hit(x, y) == b.stock_hit(x, y),
{
    reveal(Game::piles_wf);
}

/// The frame judgement also ignores the held record.
#[verifier::rlimit(100)]
#[verifier::spinoff_prover]
proof fn lemma_frame_unchanged(g: Game, a: Game, b: Game, os: Option<CardSources>, ok: Option<
    CardSinks,
>)
    requires
        a.stock_discard == b.stock_discard,
        a.foundation1 == b.foundation1,
        a.foundation2 == b.foundation2,
        a.foundation3 == b.foundation3,
        a.foundation4 == b.foundation4,
        a.tableau1 == b.tableau1,
        a.tableau2 == b.tableau2,
        a.tableau3 == b.tableau3,
        a.tableau4 == b.tableau4,
        a.tableau5 == b.tableau5,
        a.tableau6 == b.tableau6,
        a.tableau7 == b.tableau7,
    ensures
        frame_ok(g, a, os, ok) == frame_ok(g, b, os, ok),
{
    reveal(frame_ok);
}

/// The frame judgement also ignores the held record of the pre-state.
#[verifier::rlimit(100)]
#[verifier::spinoff_prover]
proof fn lemma_frame_unchanged_pre(a: Game, b: Game, post: Game, os: Option<CardSources>, ok: Option<
    CardSinks,
>)
    requires
        a.stock_discard == b.stock_discard,
        a.foundation1 == b.foundation1,
        a.foundation2 == b.foundation2,
        a.foundation3 == b.foundation3,
        a.foundation4 == b.foundation4,
        a.tableau1 == b.tableau1,
        a.tableau2 == b.tableau2,
        a.tableau3 == b.tableau3,
        a.tableau4 == b.tableau4,
        a.tableau5 == b.tableau5,
        a.tableau6 == b.tableau6,
        a.tableau7 == b.tableau7,
    ensures
        frame_ok(a, post, os, ok) == frame_ok(b, post, os, ok),
{
    reveal(frame_ok);
}

/// A take touching only the source followed by a place touching only the
/// sink together touch only those two piles.
#[verifier::rlimit(100)]
#[verifier::spinoff_prover]
proof fn lemma_frame_compose(pre: Game, mid: Game, post: Game, src: CardSources, snk: CardSinks)
    requires
        frame_ok(pre, mid, Some(src), None),
        frame_ok(mid, post, None, Some(snk)),
    ensures
        frame_ok(pre, post, Some(src), Some(snk)),
{
    reveal(frame_ok);
}

/// A pile untouched by a place keeps its role as a source.
#[verifier::rlimit(100)]
#[verifier::spinoff_prover]
proof fn lemma_source_pile_framed(pre: Game, post: Game, snk: CardSinks, src: CardSources)
    requires
        frame_ok(pre, post, None, Some(snk)),
        !Game::same_pile(src, snk),
    ensures
        post.source_pile(src) == pre.source_pile(src),
{
    reveal(frame_ok);
}

/// Hiding a liftable run in place leaves exactly a held run.
proof fn lemma_grab_held(pre: Seq<PhysicalCard>, post: Seq<PhysicalCard>, run: Seq<Card>, n: int)
    requires
        liftable_run_ok(pre, n),
        post == hidden_top_spec(pre, n),
        run == cards_of(pre).skip(pre.len() - n),
    ensures
        held_matches(post, run),
{
    assert(cards_of(post) =~= cards_of(pre));
    assert forall|i: int|
        post.len() - run.len() <= i < post.len() implies !(#[trigger] post[i]).visible
            && !post[i].flipped by {
        assert(post[i] == (PhysicalCard { visible: false, ..pre[i] }));
    }
}

/// Reassembles the game invariant after a placement on one foundation.
#[verifier::rlimit(100)]
#[verifier::spinoff_prover]
proof fn lemma_place_game_f1(pre: Game, post: Game, run: Seq<Card>)
    requires
        pre.piles_wf(),
        post.foundation1.wf(),
        cards_of(post.foundation1.cards@) == cards_of(pre.foundation1.cards@) + run,
        foundation_frame(pre.foundation1, post.foundation1),
        post.stock_discard == pre.stock_discard,
        post.foundation2 == pre.foundation2,
        post.foundation3 == pre.foundation3,
        post.foundation4 == pre.foundation4,
        post.tableau1 == pre.tableau1,
        post.tableau2 == pre.tableau2,
        post.tableau3 == pre.tableau3,
        post.tableau4 == pre.tableau4,
        post.tableau5 == pre.tableau5,
        post.tableau6 == pre.tableau6,
        post.tableau7 == pre.tableau7,
    ensures
        post.piles_wf(),
        frame_ok(pre, post, None, Some(CardSinks::Foundation1)),
        cards_of(post.sink_pile(CardSinks::Foundation1)) == cards_of(
            pre.sink_pile(CardSinks::Foundation1),
        ) + run,
        post.all_cards().to_multiset() == pre.all_cards().to_multiset().add(run.to_multiset()),
{
    reveal(Game::piles_wf);
    reveal(frame_ok);
    lemma_place_multiset(pre, post, CardSinks::Foundation1, run);
}

/// Reassembles the game invariant after a placement on one foundation.
#[verifier::rlimit(100)]
#[verifier::spinoff_prover]
proof fn lemma_place_game_f2(pre: Game, post: Game, run: Seq<Card>)
    requires
        pre.piles_wf(),
        post.foundation2.wf(),
        cards_of(post.foundation2.cards@) == cards_of(pre.foundation2.cards@) + run,
        foundation_frame(pre.foundation2, post.foundation2),
        post.stock_discard == pre.stock_discard,
        post.foundation1 == pre.foundation1,
        post.foundation3 == pre.foundation3,
        post.foundation4 == pre.foundation4,
        post.tableau1 == pre.tableau1,
        post.tableau2 == pre.tableau2,
        post.tableau3 == pre.tableau3,
        post.tableau4 == pre.tableau4,
        post.tableau5 == pre.tableau5,
        post.tableau6 == pre.tableau6,
        post.tableau7 == pre.tableau7,
    ensures
        post.piles_wf(),
        frame_ok(pre, post, None, Some(CardSinks::Foundation2)),
        cards_of(post.sink_pile(CardSinks::Foundation2)) == cards_of(
            pre.sink_pile(CardSinks::Foundation2),
        ) + run,
        post.all_cards().to_multiset() == pre.all_cards().to_multiset().add(run.to_multiset()),
{
    reveal(Game::piles_wf);
    reveal(frame_ok);
    lemma_place_multiset(pre, post, CardSinks::Foundation2, run);
}

/// Reassembles the game invariant after a placement on one foundation.
#[verifier::rlimit(100)]
#[verifier::spinoff_prover]
proof fn lemma_place_game_f3(pre: Game, post: Game, run: Seq<Card>)
    requires
        pre.piles_wf(),
        post.foundation3.wf(),
        cards_of(post.foundation3.cards@) == cards_of(pre.foundation3.cards@) + run,
        foundation_frame(pre.foundation3, post.foundation3),
        post.stock_discard == pre.stock_discard,
        post.foundation1 == pre.foundation1,
        post.foundation2 == pre.foundation2,
        post.foundation4 == pre.foundation4,
        post.tableau1 == pre.tableau1,
        post.tableau2 == pre.tableau2,
        post.tableau3 == pre.tableau3,
        post.tableau4 == pre.tableau4,
        post.tableau5 == pre.tableau5,
        post.tableau6 == pre.tableau6,
        post.tableau7 == pre.tableau7,
    ensures
        post.piles_wf(),
        frame_ok(pre, post, None, Some(CardSinks::Foundation3)),
        cards_of(post.sink_pile(CardSinks::Foundation3)) == cards_of(
            pre.sink_pile(CardSinks::Foundation3),
        ) + run,
        post.all_cards().to_multiset() == pre.all_cards().to_multiset().add(run.to_multiset()),
{
    reveal(Game::piles_wf);
    reveal(frame_ok);
    lemma_place_multiset(pre, post, CardSinks::Foundation3, run);
}

/// Reassembles the game invariant after a placement on one foundation.
#[verifier::rlimit(100)]
#[verifier::spinoff_prover]
proof fn lemma_place_game_f4(pre: Game, post: Game, run: Seq<Card>)
    requires
        pre.piles_wf(),
        post.foundation4.wf(),
        cards_of(post.foundation4.cards@) == cards_of(pre.foundation4.cards@) + run,
        foundation_frame(pre.foundation4, post.foundation4),
        post.stock_discard == pre.stock_discard,
        post.foundation1 == pre.foundation1,
        post.foundation2 == pre.foundation2,
        post.foundation3 == pre.foundation3,
        post.tableau1 == pre.tableau1,
        post.tableau2 == pre.tableau2,
        post.tableau3 == pre.tableau3,
        post.tableau4 == pre.tableau4,
        post.tableau5 == pre.tableau5,
        post.tableau6 == pre.tableau6,
        post.tableau7 == pre.tableau7,
    ensures
        post.piles_wf(),
        frame_ok(pre, post, None, Some(CardSinks::Foundation4)),
        cards_of(post.sink_pile(CardSinks::Foundation4)) == cards_of(
            pre.sink_pile(CardSinks::Foundation4),
        ) + run,
        post.all_cards().to_multiset() == pre.all_cards().to_multiset().add(run.to_multiset()),
{
    reveal(Game::piles_wf);
    reveal(frame_ok);
    lemma_place_multiset(pre, post, CardSinks::Foundation4, run);
}

/// Unpacks the pile invariants from the game invariant.
proof fn lemma_piles_wf_parts(g: Game)
    requires
        g.piles_wf(),
    ensures
        g.stock_discard.wf(),
        g.foundation1.wf(),
        g.foundation2.wf(),
        g.foundation3.wf(),
        g.foundation4.wf(),
        g.tableau1.wf(),
        g.tableau2.wf(),
        g.tableau3.wf(),
        g.tableau4.wf(),
        g.tableau5.wf(),
        g.tableau6.wf(),
        g.tableau7.wf(),
{
    reveal(Game::piles_wf);
}

/// A pile untouched by a take is untouched as a sink.
#[verifier::rlimit(100)]
#[verifier::spinoff_prover]
proof fn lemma_sink_pile_framed(pre: Game, post: Game, src: CardSources, snk: CardSinks, run: Seq<Card>)
    requires
        frame_ok(pre, post, Some(src), None),
        !Game::same_pile(src, snk),
    ensures
        post.sink_pile(snk) == pre.sink_pile(snk),
        post.sink_accepts(snk, run) == pre.sink_accepts(snk, run),
{
    reveal(frame_ok);
}

/// The sink chosen for a held run is never the run's own origin pile.
#[verifier::rlimit(100)]
#[verifier::spinoff_prover]
proof fn lemma_pick_not_source(g: Game, src: CardSources, run: Seq<Card>, snk: CardSinks)
    requires
        g.piles_wf(),
        held_matches(g.source_pile(src), run),
        single_card_source(src) ==> run.len() == 1,
        g.sink_accepts(snk, run),
    ensures
        !Game::same_pile(src, snk),
{
    reveal(Game::piles_wf);
    if Game::same_pile(src, snk) {
        match src {
            CardSources::Discard => {},
            CardSources::Foundation1 => lemma_foundation_cannot_retake(g.foundation1, run),
            CardSources::Foundation2 => lemma_foundation_cannot_retake(g.foundation2, run),
            CardSources::Foundation3 => lemma_foundation_cannot_retake(g.foundation3, run),
            CardSources::Foundation4 => lemma_foundation_cannot_retake(g.foundation4, run),
            CardSources::Tableau1 => lemma_tableau_cannot_retake(g.tableau1, run),
            CardSources::Tableau2 => lemma_tableau_cannot_retake(g.tableau2, run),
            CardSources::Tableau3 => lemma_tableau_cannot_retake(g.tableau3, run),
            CardSources::Tableau4 => lemma_tableau_cannot_retake(g.tableau4, run),
            CardSources::Tableau5 => lemma_tableau_cannot_retake(g.tableau5, run),
            CardSources::Tableau6 => lemma_tableau_cannot_retake(g.tableau6, run),
            CardSources::Tableau7 => lemma_tableau_cannot_retake(g.tableau7, run),
        }
    }
}

impl Game {
    /// The lift transition of pointer-down: hides the run under the
    /// pointer and records it as held.
    #[verifier::rlimit(100)]
    #[verifier::spinoff_prover]
    fn grab_run(&mut self, src: CardSources, n: usize, x: i32, y: i32)
        requires
            old(self).piles_wf(),
            liftable_run_ok(old(self).source_pile(src), n as int),
            single_card_source(src) ==> n == 1,
            coord_ok(x as int),
            coord_ok(y as int),
        ensures
            final(self).piles_wf(),
            final(self).held_wf(),
            frame_ok(*old(self), *final(self), Some(src), None),
            final(self).all_cards() == old(self).all_cards(),
            final(self).source_pile(src) == hidden_top_spec(old(self).source_pile(src), n as int),
            final(self).held_card matches Some(h) && h.source == src && h.cards@ == cards_of(
                old(self).source_pile(src),
            ).skip(old(self).source_pile(src).len() - n) && (h.x, h.y) == drop_point_i32(
                x as int,
                y as int,
            ) && h.prev_pos == Some(
                (
                    old(self).source_pile(src)[old(self).source_pile(src).len() - n].x,
                    old(self).source_pile(src)[old(self).source_pile(src).len() - n].y,
                ),
            ),
    {
        let ghost pre = *self;
        let lifted = self.lift_from_source(src, n);
        self.record_held(src, n, lifted.0, lifted.1, x, y, Ghost(pre));
    }

    /// The bookkeeping half of `grab_run`: records the already-hidden run
    /// as held.
    #[verifier::rlimit(100)]
    #[verifier::spinoff_prover]
    fn record_held(&mut self, src: CardSources, n: usize, ids: Vec<Card>, origin: (i32, i32), x: i32, y: i32, pre: Ghost<Game>)
        requires
            old(self).piles_wf(),
            coord_ok(x as int),
            coord_ok(y as int),
            liftable_run_ok(pre@.source_pile(src), n as int),
            single_card_source(src) ==> n == 1,
            frame_ok(pre@, *old(self), Some(src), None),
            old(self).all_cards() == pre@.all_cards(),
            old(self).held_card == pre@.held_card,
            old(self).source_pile(src) == hidden_top_spec(pre@.source_pile(src), n as int),
            ids@ == cards_of(pre@.source_pile(src)).skip(pre@.source_pile(src).len() - n),
            origin == (
                pre@.source_pile(src)[pre@.source_pile(src).len() - n].x,
                pre@.source_pile(src)[pre@.source_pile(src).len() - n].y,
            ),
        ensures
            final(self).piles_wf(),
            final(self).held_wf(),
            frame_ok(pre@, *final(self), Some(src), None),
            final(self).all_cards() == pre@.all_cards(),
            final(self).source_pile(src) == hidden_top_spec(pre@.source_pile(src), n as int),
            final(self).held_card matches Some(h) && h.source == src && h.cards@ == ids@ && (
            h.x,
            h.y,
            ) == drop_point_i32(x as int, y as int) && h.prev_pos == Some(origin),
    {
        let h = HeldCard::new(ids, src, x, y, origin);
        self.held_card = Some(h);
        proof {
            lemma_piles_unchanged(*old(self), *self, src, x as int, y as int, Seq::<Card>::empty());
            lemma_frame_unchanged(pre@, *old(self), *self, Some(src), None);
            lemma_grab_held(
                pre@.source_pile(src),
                self.source_pile(src),
                self.held_card->0.cards@,
                n as int,
            );
        }
    }

    /// The drop transition of pointer-up: the held run leaves its origin
    /// pile and lands in the chosen sink, conserving the cards.
    #[verifier::rlimit(100)]
    #[verifier::spinoff_prover]
    fn drop_run(&mut self, src: CardSources, n: usize, run: Ghost<Seq<Card>>, snk: CardSinks, x: i32, y: i32)
        requires
            old(self).piles_wf(),
            held_matches(old(self).source_pile(src), run@),
            n == run@.len(),
            single_card_source(src) ==> n == 1,
            old(self).sink_accepts(snk, run@),
            coord_ok(x as int),
            coord_ok(y as int),
        ensures
            final(self).piles_wf(),
            frame_ok(*old(self), *final(self), Some(src), Some(snk)),
            final(self).held_card == old(self).held_card,
            cards_of(final(self).source_pile(src)) == cards_of(old(self).source_pile(src)).take(
                old(self).source_pile(src).len() - n,
            ),
            cards_of(final(self).sink_pile(snk)) == cards_of(old(self).sink_pile(snk)) + run@,
            final(self).all_cards().to_multiset() == old(self).all_cards().to_multiset(),
    {
        let ghost pre = *self;
        let taken = self.drop_take(src, n, run, snk);
        self.drop_place(snk, x, y, taken, src, Ghost(pre));
    }

    /// The landing half of `drop_run`: places the taken run in its sink
    /// and re-establishes the whole-transition frame.
    #[verifier::rlimit(100)]
    #[verifier::spinoff_prover]
    fn drop_place(&mut self, snk: CardSinks, x: i32, y: i32, taken: Vec<PhysicalCard>, src: CardSources, pre: Ghost<Game>)
        requires
            old(self).piles_wf(),
            coord_ok(x as int),
            coord_ok(y as int),
            taken@.len() >= 1,
            all_face_up(taken@),
            stacked_run(cards_of(taken@)),
            old(self).sink_accepts(snk, cards_of(taken@)),
            frame_ok(pre@, *old(self), Some(src), None),
            !Game::same_pile(src, snk),
            old(self).held_card == pre@.held_card,
            old(self).sink_pile(snk) == pre@.sink_pile(snk),
        ensures
            final(self).piles_wf(),
            frame_ok(pre@, *final(self), Some(src), Some(snk)),
            final(self).held_card == pre@.held_card,
            final(self).source_pile(src) == old(self).source_pile(src),
            cards_of(final(self).sink_pile(snk)) == cards_of(pre@.sink_pile(snk)) + cards_of(
                taken@,
            ),
            final(self).all_cards().to_multiset() == old(self).all_cards().to_multiset().add(
                cards_of(taken@).to_multiset(),
            ),
    {
        self.place_into_sink(snk, x, y, taken);
        proof {
            lemma_frame_compose(pre@, *old(self), *self, src, snk);
            lemma_source_pile_framed(*old(self), *self, snk, src);
        }
    }

    /// The removal half of `drop_run`: takes the held run off its origin
    /// while the chosen sink, a different pile, stays as it was.
    #[verifier::rlimit(100)]
    #[verifier::spinoff_prover]
    fn drop_take(&mut self, src: CardSources, n: usize, run: Ghost<Seq<Card>>, snk: CardSinks) -> (taken: Vec<PhysicalCard>)
        requires
            old(self).piles_wf(),
            held_matches(old(self).source_pile(src), run@),
            n == run@.len(),
            single_card_source(src) ==> n == 1,
            old(self).sink_accepts(snk, run@),
        ensures
            final(self).piles_wf(),
            frame_ok(*old(self), *final(self), Some(src), None),
            final(self).held_card == old(self).held_card,
            taken@.len() == n,
            cards_of(taken@) == run@,
            all_face_up(taken@),
            stacked_run(cards_of(taken@)),
            cards_of(final(self).source_pile(src)) == cards_of(old(self).source_pile(src)).take(
                old(self).source_pile(src).len() - n,
            ),
            old(self).all_cards().to_multiset() == final(self).all_cards().to_multiset().add(
                run@.to_multiset(),
            ),
            final(self).sink_pile(snk) == old(self).sink_pile(snk),
            final(self).sink_accepts(snk, run@),
            !Game::same_pile(src, snk),
    {
        proof {
            lemma_pick_not_source(*old(self), src, run@, snk);
        }
        let taken = self.take_from_source(src, n, run);
        proof {
            lemma_sink_pile_framed(*old(self), *self, src, snk, run@);
        }
        taken
    }

    /// Pointer-down: while a run is held this is a no-op; otherwise a hit
    /// on the stock's hot-zone advances the stock, and any other hit lifts
    /// the first liftable run under the pointer into the held record.
    #[verifier::rlimit(100)]
    #[verifier::spinoff_prover]
    pub fn pointer_down(&mut self, x: i32, y: i32) -> (r: bool)
        requires
            old(self).wf(),
            coord_ok(x as int),
            coord_ok(y as int),
        ensures
            final(self).wf(),
            old(self).held_card is Some ==> *final(self) == *old(self) && r == false,
            old(self).held_card is None && old(self).stock_hit(x as int, y as int) ==> {
                &&& r == true
                &&& final(self).held_card is None
                &&& final(self).stock_discard.stock.cards_seq() == advance_spec(
                    old(self).stock_discard.stock.cards_seq(),
                    old(self).stock_discard.discard.cards_seq(),
                ).0
                &&& final(self).stock_discard.discard.cards_seq() == advance_spec(
                    old(self).stock_discard.stock.cards_seq(),
                    old(self).stock_discard.discard.cards_seq(),
                ).1
                &&& final(self).foundation1 == old(self).foundation1
                &&& final(self).foundation2 == old(self).foundation2
                &&& final(self).foundation3 == old(self).foundation3
                &&& final(self).foundation4 == old(self).foundation4
                &&& final(self).tableau1 == old(self).tableau1
                &&& final(self).tableau2 == old(self).tableau2
                &&& final(self).tableau3 == old(self).tableau3
                &&& final(self).tableau4 == old(self).tableau4
                &&& final(self).tableau5 == old(self).tableau5
                &&& final(self).tableau6 == old(self).tableau6
                &&& final(self).tableau7 == old(self).tableau7
            },
            old(self).held_card is None && !old(self).stock_hit(x as int, y as int) ==> (match old(
                self,
            ).pick_source(x as int, y as int) {
                None => *final(self) == *old(self) && r == false,
                Some(src) => {
                    let n = old(self).source_liftable(src, x as int, y as int) as int;
                    &&& r == true
                    &&& frame_ok(*old(self), *final(self), Some(src), None)
                    &&& final(self).source_pile(src) == hidden_top_spec(
                        old(self).source_pile(src),
                        n,
                    )
                    &&& final(self).held_card matches Some(h) && h.source == src && h.cards@
                        == cards_of(old(self).source_pile(src)).skip(
                        old(self).source_pile(src).len() - n,
                    ) && (h.x, h.y) == drop_point_i32(x as int, y as int) && h.prev_pos == Some(
                        (
                            old(self).source_pile(src)[old(self).source_pile(src).len() - n].x,
                            old(self).source_pile(src)[old(self).source_pile(src).len() - n].y,
                        ),
                    )
                },
            }),
    {
        proof {
            reveal(Game::piles_wf);
        }
        if self.held_card.is_some() {
            return false;
        }
        if self.stock_discard.handle_click(x, y) {
            proof {
                broadcast use vstd::seq_lib::lemma_multiset_commutative;

                crate::stock_discard::lemma_advance_conserves(
                    old(self).stock_discard.stock.cards_seq(),
                    old(self).stock_discard.discard.cards_seq(),
                );
                assert(self.all_cards().to_multiset() =~= old(self).all_cards().to_multiset());
            }
            return true;
        }
        match self.source_scan(x, y) {
            None => false,
            Some((src, n)) => {
                self.grab_run(src, n, x, y);
                true
            },
        }
    }

    /// Pointer-move: while a run is held it follows the pointer; with
    /// nothing held this is a no-op.
    #[verifier::rlimit(100)]
    #[verifier::spinoff_prover]
    pub fn pointer_move(&mut self, x: i32, y: i32) -> (r: bool)
        requires
            old(self).wf(),
            coord_ok(x as int),
            coord_ok(y as int),
        ensures
            final(self).wf(),
            old(self).held_card is None ==> *final(self) == *old(self) && r == false,
            old(self).held_card matches Some(h0) ==> {
                &&& r == true
                &&& (Game { held_card: old(self).held_card, ..*final(self) }) == *old(self)
                &&& final(self).held_card matches Some(h) && h.cards == h0.cards && h.source
                    == h0.source && (h.x, h.y) == drop_point_i32(x as int, y as int) && h.prev_pos
                    == Some((h0.x, h0.y))
            },
    {
        let r = match &mut self.held_card {
            Some(h) => {
                h.set_mouse_position(x, y);
                true
            },
            None => false,
        };
        proof {
            if old(self).held_card is Some {
                lemma_piles_unchanged(
                    *old(self),
                    *self,
                    old(self).held_card->0.source,
                    x as int,
                    y as int,
                    Seq::<Card>::empty(),
                );
            }
        }
        r
    }

    /// Pointer-up: with a held run, the first sink whose drop zone holds
    /// the point and whose rule admits the run receives it; otherwise the
    /// run snaps back, shown again at the release point.
    #[verifier::rlimit(100)]
    #[verifier::spinoff_prover]
    pub fn pointer_up(&mut self, x: i32, y: i32) -> (r: bool)
        requires
            old(self).wf(),
            coord_ok(x as int),
            coord_ok(y as int),
        ensures
            final(self).wf(),
            old(self).held_card is None ==> *final(self) == *old(self) && r == false,
            old(self).held_card matches Some(h) ==> {
                &&& r == true
                &&& final(self).held_card is None
                &&& final(self).all_cards().to_multiset() == old(self).all_cards().to_multiset()
                &&& (match old(self).pick_sink(x as int, y as int, h.cards@) {
                    None => {
                        &&& frame_ok(*old(self), *final(self), Some(h.source), None)
                        &&& final(self).source_pile(h.source) == revealed_top_spec(
                            old(self).source_pile(h.source),
                            h.cards@.len() as int,
                            x as int,
                            y as int,
                        )
                        &&& final(self).all_cards() == old(self).all_cards()
                    },
                    Some(snk) => {
                        &&& frame_ok(*old(self), *final(self), Some(h.source), Some(snk))
                        &&& cards_of(final(self).source_pile(h.source)) == cards_of(
                            old(self).source_pile(h.source),
                        ).take(old(self).source_pile(h.source).len() - h.cards@.len())
                        &&& cards_of(final(self).sink_pile(snk)) == cards_of(
                            old(self).sink_pile(snk),
                        ) + h.cards@
                    },
                })
            },
    {
        let mut tmp: Option<HeldCard> = None;
        core::mem::swap(&mut self.held_card, &mut tmp);
        match tmp {
            None => false,
            Some(h) => {
                proof {
                    lemma_piles_unchanged(
                        *old(self),
                        *self,
                        h.source,
                        x as int,
                        y as int,
                        h.cards@,
                    );
                }
                self.finish_up(h, x, y, Ghost(*old(self)))
            },
        }
    }

    /// The held half of pointer-up: drop into the first willing sink, or
    /// snap the run back at the release point.
    #[verifier::rlimit(100)]
    #[verifier::spinoff_prover]
    fn finish_up(&mut self, h: HeldCard, x: i32, y: i32, pre: Ghost<Game>) -> (r: bool)
        requires
            old(self).piles_wf(),
            old(self).held_card is None,
            pre@.wf(),
            pre@.held_card == Some(h),
            old(self).stock_discard == pre@.stock_discard,
            old(self).foundation1 == pre@.foundation1,
            old(self).foundation2 == pre@.foundation2,
            old(self).foundation3 == pre@.foundation3,
            old(self).foundation4 == pre@.foundation4,
            old(self).tableau1 == pre@.tableau1,
            old(self).tableau2 == pre@.tableau2,
            old(self).tableau3 == pre@.tableau3,
            old(self).tableau4 == pre@.tableau4,
            old(self).tableau5 == pre@.tableau5,
            old(self).tableau6 == pre@.tableau6,
            old(self).tableau7 == pre@.tableau7,
            coord_ok(x as int),
            coord_ok(y as int),
        ensures
            r == true,
            final(self).wf(),
            final(self).held_card is None,
            final(self).all_cards().to_multiset() == pre@.all_cards().to_multiset(),
            (match pre@.pick_sink(x as int, y as int, h.cards@) {
                None => {
                    &&& frame_ok(pre@, *final(self), Some(h.source), None)
                    &&& final(self).source_pile(h.source) == revealed_top_spec(
                        pre@.source_pile(h.source),
                        h.cards@.len() as int,
                        x as int,
                        y as int,
                    )
                    &&& final(self).all_cards() == pre@.all_cards()
                },
                Some(snk) => {
                    &&& frame_ok(pre@, *final(self), Some(h.source), Some(snk))
                    &&& cards_of(final(self).source_pile(h.source)) == cards_of(
                        pre@.source_pile(h.source),
                    ).take(pre@.source_pile(h.source).len() - h.cards@.len())
                    &&& cards_of(final(self).sink_pile(snk)) == cards_of(pre@.sink_pile(snk))
                        + h.cards@
                },
            }),
    {
        proof {
            lemma_piles_unchanged(pre@, *old(self), h.source, x as int, y as int, h.cards@);
        }
        let n = h.cards.len();
        let snk_opt = self.sink_scan(x, y, &h.cards);
        let ghost mid = *self;
        match snk_opt {
            Some(snk) => {
                self.drop_run(h.source, n, Ghost(h.cards@), snk, x, y);
                proof {
                    lemma_frame_unchanged_pre(pre@, mid, *self, Some(h.source), Some(snk));
                }
                true
            },
            None => {
                self.reveal_source(h.source, n, x, y);
                proof {
                    lemma_frame_unchanged_pre(pre@, mid, *self, Some(h.source), None);
                }
                true
            },
        }
    }

    /// Deck integrity: in any well-formed game the cards across all piles
    /// are the 52-card deck, each exactly once.
    pub proof fn lemma_deck_integrity(self)
        requires
            self.wf(),
        ensures
            self.all_cards().to_multiset() == deck_seq().to_multiset(),
            self.all_cards().len() == 52,
            forall|i: int|
                0 <= i < 52 ==> self.all_cards().to_multiset().count(#[trigger] deck_card(i)) == 1,
    {
        vstd::seq_lib::to_multiset_len(self.all_cards());
        vstd::seq_lib::to_multiset_len(deck_seq());
        assert forall|i: int, j: int|
            0 <= i < deck_seq().len() && 0 <= j < deck_seq().len() && i != j implies deck_seq()[i]
            != deck_seq()[j] by {
            lemma_deck_distinct(i, j);
        }
        deck_seq().lemma_multiset_has_no_duplicates();
        assert forall|i: int|
            0 <= i < 52 implies self.all_cards().to_multiset().count(#[trigger] deck_card(i))
            == 1 by {
            vstd::seq_lib::to_multiset_contains(deck_seq(), deck_card(i));
            assert(deck_seq()[i] == deck_card(i));
            assert(deck_seq().contains(deck_card(i)));
            assert(deck_seq().to_multiset().contains(deck_card(i)));
        }
    }
}

} // verus!
