//! Foundation pile: a single-card-at-a-time, ascending, same-suit stack
//! whose suit is fixed by the first card placed.

use vstd::prelude::*;

verus! {

use crate::card::{
    all_face_up, cards_of, drop_point_i32, faceup_len, foundation_stacked, hide_top,
    lemma_faceup_len_all, lemma_next_index, reveal_top, stacked_run, Card, CardSink, CardSource,
    PhysicalCard, Value,
};
use crate::game::{CardSinks, CardSources};
use crate::util::Bounds;
use crate::{coord_ok, CARD_HEIGHT, CARD_WIDTH};

/// The foundation's legality rule: exactly one card, an Ace on an empty
/// foundation, else the successor rank in the same suit as the top card.
pub open spec fn foundation_accepts(pile: Seq<Card>, run: Seq<Card>) -> bool {
    &&& run.len() == 1
    &&& if pile.len() == 0 {
        run[0].0 == Value::Ace
    } else {
        &&& pile.last().0.next_spec() is Some
        &&& pile.last().0.next_spec()->0 == run[0].0
        &&& pile.last().1 == run[0].1
    }
}

/// Foundation monotonicity: in any well-formed foundation the ranks
/// placed are Ace, Two, Three, … in order, all of the same suit.
pub proof fn lemma_foundation_monotonic(f: Foundation)
    requires
        f.wf(),
    ensures
        forall|i: int|
            #![trigger f.cards_seq()[i]]
            0 <= i < f.cards_seq().len() ==> f.cards_seq()[i].0.index_spec() == i
                && f.cards_seq()[i].1 == f.cards_seq()[0].1,
        f.cards_seq().len() <= 13,
{
    if f.cards_seq().len() > 13 {
        assert(f.cards_seq()[13].0.index_spec() == 13);
    }
}

pub struct Foundation {
    pub sink: CardSinks,
    pub source: CardSources,
    pub cards: Vec<PhysicalCard>,
    pub x: i32,
    pub y: i32,
}

impl Foundation {
    /// The card identities, bottom first.
    pub open spec fn cards_seq(self) -> Seq<Card> {
        cards_of(self.cards@)
    }

    /// Well-formedness: a same-suit ascending stack of face-up cards at an
    /// in-range anchor.
    pub open spec fn wf(self) -> bool {
        &&& coord_ok(self.x as int)
        &&& coord_ok(self.y as int)
        &&& foundation_stacked(self.cards_seq())
        &&& all_face_up(self.cards@)
    }

    pub fn new(x: i32, y: i32, sink: CardSinks, source: CardSources) -> (f: Foundation)
        requires
            coord_ok(x as int),
            coord_ok(y as int),
        ensures
            f.cards@.len() == 0,
            f.sink == sink,
            f.source == source,
            f.x == x,
            f.y == y,
            f.wf(),
    {
        Foundation { sink, source, cards: Vec::new(), x, y }
    }

    /// Hides the top `n` cards, which the controller holds while a drag is
    /// in flight; nothing else about the pile changes.
    pub fn hide_top_cards(&mut self, n: usize)
        requires
            old(self).wf(),
            n <= old(self).cards@.len(),
        ensures
            final(self).wf(),
            final(self).sink == old(self).sink,
            final(self).source == old(self).source,
            final(self).x == old(self).x,
            final(self).y == old(self).y,
            final(self).cards@.len() == old(self).cards@.len(),
            forall|i: int|
                0 <= i < old(self).cards@.len() - n ==> final(self).cards@[i] == old(self).cards@[i],
            forall|i: int|
                old(self).cards@.len() - n <= i < old(self).cards@.len()
                    ==> #[trigger] final(self).cards@[i] == (PhysicalCard {
                    visible: false,
                    ..old(self).cards@[i]
                }),
            final(self).cards_seq() == old(self).cards_seq(),
    {
        let ghost g0 = *self;
        hide_top(&mut self.cards, n);
        proof {
            assert(self.cards_seq() =~= g0.cards_seq());
            assert forall|i: int|
                0 <= i < self.cards@.len() implies !(#[trigger] self.cards@[i]).flipped by {
                assert(!g0.cards@[i].flipped);
            }
        }
    }

    /// Shows the top `n` cards again at the release point: the snap-back
    /// of an abandoned drag.
    pub fn reveal_top_cards(&mut self, n: usize, mouse_x: i32, mouse_y: i32)
        requires
            old(self).wf(),
            n <= old(self).cards@.len(),
            coord_ok(mouse_x as int),
            coord_ok(mouse_y as int),
        ensures
            final(self).wf(),
            final(self).sink == old(self).sink,
            final(self).source == old(self).source,
            final(self).x == old(self).x,
            final(self).y == old(self).y,
            final(self).cards@.len() == old(self).cards@.len(),
            forall|i: int|
                0 <= i < old(self).cards@.len() - n ==> final(self).cards@[i] == old(self).cards@[i],
            forall|i: int|
                old(self).cards@.len() - n <= i < old(self).cards@.len()
                    ==> #[trigger] final(self).cards@[i] == (PhysicalCard {
                    visible: true,
                    prev_loc: Some(drop_point_i32(mouse_x as int, mouse_y as int)),
                    ..old(self).cards@[i]
                }),
            final(self).cards_seq() == old(self).cards_seq(),
    {
        let ghost g0 = *self;
        reveal_top(&mut self.cards, n, mouse_x, mouse_y);
        proof {
            assert(self.cards_seq() =~= g0.cards_seq());
            assert forall|i: int|
                0 <= i < self.cards@.len() implies !(#[trigger] self.cards@[i]).flipped by {
                assert(!g0.cards@[i].flipped);
            }
        }
    }
}

impl CardSink for Foundation {
    open spec fn sink_phys(&self) -> Seq<PhysicalCard> {
        self.cards@
    }

    open spec fn sink_inv(&self) -> bool {
        self.wf()
    }

    open spec fn sink_id(&self) -> CardSinks {
        self.sink
    }

    open spec fn accepts(&self, run: Seq<Card>) -> bool {
        foundation_accepts(self.cards_seq(), run)
    }

    open spec fn place_req(run: Seq<PhysicalCard>) -> bool {
        all_face_up(run)
    }

    open spec fn query_req(run: Seq<Card>) -> bool {
        true
    }

    open spec fn in_drop_bounds(&self, x: int, y: int) -> bool {
        &&& x > self.x as int
        &&& x < self.x as int + CARD_WIDTH as int
        &&& y > self.y as int
        &&& y < self.y as int + CARD_HEIGHT as int
    }

    fn card_sink(&self) -> (s: CardSinks) {
        self.sink
    }

    fn within_bounds(&self, x: i32, y: i32) -> (r: bool) {
        Bounds::new(self.x, self.y, CARD_WIDTH, CARD_HEIGHT).contains(x, y)
    }

    fn is_placement_possible(&self, cards: &Vec<Card>) -> (b: bool) {
        if cards.len() == 1 {
            let Card(value, suit) = cards[0];
            if self.cards.len() > 0 {
                let top = self.cards[self.cards.len() - 1].card;
                match top.0.next_value() {
                    Some(next) => top.1 == suit && next == value,
                    None => false,
                }
            } else {
                value == Value::Ace
            }
        } else {
            false
        }
    }

    fn place_cards(&mut self, mouse_x: i32, mouse_y: i32, physical_cards: Vec<PhysicalCard>) -> (r:
        Result<(), ()>)
        ensures
            final(self).sink == old(self).sink,
            final(self).source == old(self).source,
            final(self).x == old(self).x,
            final(self).y == old(self).y,
            r is Ok ==> final(self).cards@ == old(self).cards@.push(
                (PhysicalCard {
                    x: old(self).x,
                    y: old(self).y,
                    visible: true,
                    prev_loc: Some(drop_point_i32(mouse_x as int, mouse_y as int)),
                    ..physical_cards@[0]
                }),
            ),
    {
        let ghost g0 = *self;
        let mut ids: Vec<Card> = Vec::new();
        let mut i: usize = 0;
        while i < physical_cards.len()
            invariant
                i <= physical_cards@.len(),
                ids@ == cards_of(physical_cards@).take(i as int),
            decreases physical_cards@.len() - i,
        {
            ids.push(physical_cards[i].card);
            proof {
                assert(ids@ =~= cards_of(physical_cards@).take(i + 1));
            }
            i = i + 1;
        }
        proof {
            assert(ids@ =~= cards_of(physical_cards@));
        }
        if self.is_placement_possible(&ids) {
            let mut pc = physical_cards[0];
            pc.set_position(self.x, self.y);
            pc.set_prev_loc(mouse_x - (CARD_WIDTH as i32) / 2, mouse_y - (CARD_HEIGHT as i32) / 2);
            pc.set_visible(true);
            self.cards.push(pc);
            proof {
                g0.lemma_place_restores(*self, pc, physical_cards@);
            }
            Ok(())
        } else {
            Err(())
        }
    }
}

impl Foundation {
    /// The bookkeeping behind a successful `place_cards`: the one legal
    /// card pushed on top keeps the stack ascending and same-suit.
    proof fn lemma_place_restores(self, f: Foundation, pc: PhysicalCard, run: Seq<PhysicalCard>)
        requires
            self.wf(),
            all_face_up(run),
            foundation_accepts(self.cards_seq(), cards_of(run)),
            pc.card == run[0].card,
            !pc.flipped,
            f.cards@ == self.cards@.push(pc),
            f.x == self.x,
            f.y == self.y,
        ensures
            f.wf(),
            f.cards_seq() == self.cards_seq() + cards_of(run),
    {
        let s = self.cards_seq();
        let len = s.len() as int;
        assert(run.len() == 1);
        assert(f.cards_seq() =~= s.push(pc.card));
        assert(f.cards_seq() =~= s + cards_of(run));
        assert forall|i: int|
            #![trigger f.cards_seq()[i]]
            0 <= i < f.cards_seq().len() implies f.cards_seq()[i].0.index_spec() == i
                && f.cards_seq()[i].1 == f.cards_seq()[0].1 by {
            if i < len {
                assert(f.cards_seq()[i] == s[i]);
            } else {
                assert(f.cards_seq()[i] == pc.card);
                if len > 0 {
                    lemma_next_index(s.last().0);
                    assert(s[len - 1].0.index_spec() == len - 1);
                }
            }
        }
        assert forall|i: int|
            0 <= i < f.cards@.len() implies !(#[trigger] f.cards@[i]).flipped by {
            if i < len {
                assert(f.cards@[i] == self.cards@[i]);
            }
        }
    }
}

impl CardSource for Foundation {
    open spec fn source_phys(&self) -> Seq<PhysicalCard> {
        self.cards@
    }

    open spec fn source_inv(&self) -> bool {
        self.wf()
    }

    open spec fn source_id(&self) -> CardSources {
        self.source
    }

    /// Only the top card is ever liftable.
    open spec fn liftable_at(&self, x: int, y: int) -> nat {
        if self.cards@.len() > 0 && self.cards@.last().hit_spec(x, y) {
            1
        } else {
            0
        }
    }

    fn card_source(&self) -> (s: CardSources) {
        self.source
    }

    fn how_many_cards(&self, mouse_x: i32, mouse_y: i32) -> (n: usize) {
        proof {
            lemma_faceup_len_all(self.cards@);
        }
        if self.cards.len() > 0 && self.cards[self.cards.len() - 1].within_bounds(mouse_x, mouse_y) {
            1
        } else {
            0
        }
    }

    fn borrow_cards(&self, count: usize) -> (run: Vec<PhysicalCard>)
        ensures
            run@.len() == (if count > 0 && self.cards@.len() > 0 {
                1int
            } else {
                0int
            }),
    {
        let mut run: Vec<PhysicalCard> = Vec::new();
        if count > 0 && self.cards.len() > 0 {
            run.push(self.cards[self.cards.len() - 1]);
        }
        proof {
            assert(run@ =~= self.cards@.skip(self.cards@.len() - run@.len()));
        }
        run
    }

    fn take_cards(&mut self, num: usize) -> (taken: Vec<PhysicalCard>)
        ensures
            taken@.len() == (if num > 0 && old(self).cards@.len() > 0 {
                1int
            } else {
                0int
            }),
            taken@ == old(self).cards@.skip(old(self).cards@.len() - taken@.len()),
            final(self).cards@ == old(self).cards@.take(old(self).cards@.len() - taken@.len()),
            final(self).sink == old(self).sink,
            final(self).x == old(self).x,
            final(self).y == old(self).y,
    {
        let ghost g0 = *self;
        let mut taken: Vec<PhysicalCard> = Vec::new();
        if num > 0 && self.cards.len() > 0 {
            let pc = self.cards.pop().unwrap();
            taken.push(pc);
        }
        proof {
            lemma_faceup_len_all(g0.cards@);
            assert(taken@ =~= g0.cards@.skip(g0.cards@.len() - taken@.len()));
            assert(self.cards@ =~= g0.cards@.take(g0.cards@.len() - taken@.len()));
            assert(cards_of(g0.cards@) =~= cards_of(self.cards@) + cards_of(taken@));
            assert forall|i: int|
                0 <= i < taken@.len() implies !(#[trigger] taken@[i]).flipped by {
                assert(taken@[i] == g0.cards@[g0.cards@.len() - 1]);
            }
            assert forall|i: int|
                #![trigger self.cards_seq()[i]]
                0 <= i < self.cards_seq().len() implies self.cards_seq()[i].0.index_spec() == i
                    && self.cards_seq()[i].1 == self.cards_seq()[0].1 by {
                assert(self.cards_seq()[i] == g0.cards_seq()[i]);
                if self.cards_seq().len() > 0 {
                    assert(self.cards_seq()[0] == g0.cards_seq()[0]);
                }
            }
            assert forall|i: int|
                0 <= i < self.cards@.len() implies !(#[trigger] self.cards@[i]).flipped by {
                assert(self.cards@[i] == g0.cards@[i]);
            }
        }
        taken
    }
}

} // verus!
