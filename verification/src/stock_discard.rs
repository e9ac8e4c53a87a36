//! Stock and discard: the draw-three mechanism with recycle-on-empty.

use vstd::prelude::*;

verus! {

use vstd::pervasive::VecAdditionalExecFns;

use crate::card::{
    all_face_down, all_face_up, cards_of, drop_point_i32, hide_top, lemma_faceup_len_all,
    reveal_top, Card, CardSource, PhysicalCard,
};
use crate::game::CardSources;
use crate::util::Bounds;
use crate::{coord_ok, CARD_HEIGHT, CARD_WIDTH, CARD_X_STRIDE, STACKED_CARD_X_STRIDE};

/// What one stock advance does to the two card sequences: up to three
/// cards move from the top of the stock onto the discard (in pop order),
/// or, when the stock is out, the whole discard returns to the stock
/// reversed.
pub open spec fn advance_spec(stock: Seq<Card>, discard: Seq<Card>) -> (Seq<Card>, Seq<Card>) {
    if stock.len() == 0 {
        (discard.reverse(), Seq::<Card>::empty())
    } else {
        let k = if stock.len() >= 3 {
            3int
        } else {
            stock.len() as int
        };
        (stock.take(stock.len() - k), discard + stock.skip(stock.len() - k).reverse())
    }
}

/// `advance_spec` applied `n` times.
pub open spec fn advance_iter(stock: Seq<Card>, discard: Seq<Card>, n: nat) -> (Seq<Card>, Seq<Card>)
    decreases n,
{
    if n == 0 {
        (stock, discard)
    } else {
        advance_iter(
            advance_spec(stock, discard).0,
            advance_spec(stock, discard).1,
            (n - 1) as nat,
        )
    }
}

/// Advancing neither creates nor destroys cards: the combined count and
/// multiset of stock and discard are unchanged.
pub proof fn lemma_advance_conserves(stock: Seq<Card>, discard: Seq<Card>)
    ensures
        advance_spec(stock, discard).0.len() + advance_spec(stock, discard).1.len() == stock.len()
            + discard.len(),
        (advance_spec(stock, discard).0 + advance_spec(stock, discard).1).to_multiset() == (stock
            + discard).to_multiset(),
{
    broadcast use vstd::seq_lib::lemma_multiset_commutative;

    if stock.len() == 0 {
        assert(stock + discard =~= discard);
        assert(advance_spec(stock, discard).1 =~= Seq::<Card>::empty());
        assert(advance_spec(stock, discard).0 + advance_spec(stock, discard).1
            =~= discard.reverse());
        discard.lemma_reverse_to_multiset();
    } else {
        let k = if stock.len() >= 3 {
            3int
        } else {
            stock.len() as int
        };
        let kept = stock.take(stock.len() - k);
        let moved = stock.skip(stock.len() - k);
        assert(stock =~= kept + moved);
        moved.lemma_reverse_to_multiset();
        assert((kept + (discard + moved.reverse())).to_multiset() =~= (stock
            + discard).to_multiset());
    }
}

/// Draining a non-empty stock takes one advance per started group of
/// three, and deposits the whole stock onto the discard in reverse order.
proof fn lemma_advance_drains(stock: Seq<Card>, discard: Seq<Card>)
    requires
        stock.len() > 0,
    ensures
        advance_iter(stock, discard, ((stock.len() + 2) / 3) as nat) == (
            Seq::<Card>::empty(),
            discard + stock.reverse(),
        ),
    decreases stock.len(),
{
    let k = if stock.len() >= 3 {
        3int
    } else {
        stock.len() as int
    };
    let kept = stock.take(stock.len() - k);
    let moved = stock.skip(stock.len() - k);
    if stock.len() <= 3 {
        assert(kept =~= Seq::<Card>::empty());
        assert(moved =~= stock);
        assert((stock.len() + 2) / 3 == 1);
        assert(advance_iter(stock, discard, 1nat) == advance_iter(kept, discard + moved.reverse(), 0nat));
    } else {
        assert((stock.len() + 2) / 3 == 1 + (kept.len() + 2) / 3);
        lemma_advance_drains(kept, discard + moved.reverse());
        assert(moved.reverse() + kept.reverse() =~= stock.reverse()) by {
            assert(stock =~= kept + moved);
        }
        assert((discard + moved.reverse()) + kept.reverse() =~= discard + stock.reverse());
    }
}

/// Enough advances return a stock-and-empty-discard system to exactly its
/// starting state: the drain reverses the stock onto the discard and the
/// recycle reverses it back.
pub proof fn lemma_advance_round_trip(stock: Seq<Card>)
    ensures
        advance_iter(stock, Seq::<Card>::empty(), ((stock.len() + 2) / 3 + 1) as nat) == (
            stock,
            Seq::<Card>::empty(),
        ),
{
    if stock.len() == 0 {
        assert(advance_iter(stock, Seq::<Card>::empty(), 1nat) == advance_iter(
            stock.reverse(),
            Seq::<Card>::empty(),
            0nat,
        ));
        assert(stock.reverse() =~= stock);
    } else {
        lemma_advance_drains(stock, Seq::<Card>::empty());
        let m = ((stock.len() + 2) / 3) as nat;
        lemma_advance_iter_step(stock, Seq::<Card>::empty(), m);
        assert(Seq::<Card>::empty() + stock.reverse() =~= stock.reverse());
        assert(advance_spec(Seq::<Card>::empty(), stock.reverse()).0 =~= stock.reverse().reverse());
        assert(stock.reverse().reverse() =~= stock);
    }
}

/// Unrolling one application off the end of an iterated advance.
proof fn lemma_advance_iter_step(stock: Seq<Card>, discard: Seq<Card>, n: nat)
    ensures
        advance_iter(stock, discard, n + 1) == advance_spec(
            advance_iter(stock, discard, n).0,
            advance_iter(stock, discard, n).1,
        ),
    decreases n,
{
    let a = advance_spec(stock, discard);
    assert(a == (a.0, a.1));
    if n > 0 {
        lemma_advance_iter_step(a.0, a.1, (n - 1) as nat);
    } else {
        assert(advance_iter(stock, discard, 1nat) == advance_iter(a.0, a.1, 0nat));
    }
}

/// Reverses a pile, top card first.
fn reversed(cards: Vec<PhysicalCard>) -> (r: Vec<PhysicalCard>)
    ensures
        r@ == cards@.reverse(),
{
    let mut cards = cards;
    let ghost orig = cards@;
    let mut r: Vec<PhysicalCard> = Vec::new();
    while cards.len() > 0
        invariant
            r@.len() <= orig.len(),
            cards@ == orig.take(orig.len() - r@.len()),
            r@ == orig.skip(orig.len() - r@.len()).reverse(),
        decreases cards@.len(),
    {
        let pc = cards.pop().unwrap();
        r.push(pc);
        proof {
            assert(cards@ =~= orig.take(orig.len() - r@.len()));
            assert(r@ =~= orig.skip(orig.len() - r@.len()).reverse());
        }
    }
    proof {
        assert(r@ =~= orig.reverse());
    }
    r
}

/// The undealt draw pile: face-down cards stacked on one spot, never a
/// source or sink itself; it only answers the advance trigger.
pub struct Stock {
    pub cards: Vec<PhysicalCard>,
    pub bounds: Bounds,
    pub x: i32,
    pub y: i32,
}

impl Stock {
    /// The card identities, bottom first.
    pub open spec fn cards_seq(self) -> Seq<Card> {
        cards_of(self.cards@)
    }

    /// Well-formedness: every card face-down, the hit zone at the anchor.
    pub open spec fn wf(self) -> bool {
        &&& coord_ok(self.x as int)
        &&& coord_ok(self.y as int)
        &&& all_face_down(self.cards@)
        &&& self.bounds == (Bounds { x: self.x, y: self.y, w: CARD_WIDTH, h: CARD_HEIGHT })
    }

    pub fn new(x: i32, y: i32) -> (s: Stock)
        requires
            coord_ok(x as int),
            coord_ok(y as int),
        ensures
            s.cards@.len() == 0,
            s.x == x,
            s.y == y,
            s.wf(),
    {
        Stock { cards: Vec::new(), bounds: Bounds::new(x, y, CARD_WIDTH, CARD_HEIGHT), x, y }
    }

    /// Seeds the stock for the deal: every card moved to the anchor and
    /// turned face-down.
    pub fn from_cards(x: i32, y: i32, cards: Vec<PhysicalCard>) -> (s: Stock)
        requires
            coord_ok(x as int),
            coord_ok(y as int),
        ensures
            s.x == x,
            s.y == y,
            s.cards@.len() == cards@.len(),
            s.cards_seq() == cards_of(cards@),
            forall|i: int|
                0 <= i < cards@.len() ==> #[trigger] s.cards@[i] == (PhysicalCard {
                    x,
                    y,
                    flipped: true,
                    ..cards@[i]
                }),
            s.wf(),
    {
        let mut cards = cards;
        let ghost orig = cards@;
        let len = cards.len();
        let mut i: usize = 0;
        while i < len
            invariant
                i <= len,
                len == cards@.len(),
                cards@.len() == orig.len(),
                forall|k: int| i <= k < len ==> cards@[k] == orig[k],
                forall|k: int|
                    0 <= k < i ==> #[trigger] cards@[k] == (PhysicalCard {
                        x,
                        y,
                        flipped: true,
                        ..orig[k]
                    }),
            decreases len - i,
        {
            let mut c = cards[i];
            c.set_position(x, y);
            c.set_flipped(true);
            cards.set(i, c);
            i = i + 1;
        }
        let s = Stock { cards, bounds: Bounds::new(x, y, CARD_WIDTH, CARD_HEIGHT), x, y };
        proof {
            assert(s.cards_seq() =~= cards_of(orig));
        }
        s
    }

    /// Pops up to three cards, top first.
    pub fn take_3_cards(&mut self) -> (taken: Vec<PhysicalCard>)
        requires
            old(self).wf(),
        ensures
            final(self).wf(),
            final(self).x == old(self).x,
            final(self).y == old(self).y,
            final(self).bounds == old(self).bounds,
            taken@.len() == (if old(self).cards@.len() >= 3 {
                3int
            } else {
                old(self).cards@.len() as int
            }),
            taken@ == old(self).cards@.skip(old(self).cards@.len() - taken@.len()).reverse(),
            final(self).cards@ == old(self).cards@.take(old(self).cards@.len() - taken@.len()),
    {
        let ghost g0 = *self;
        let len = self.cards.len();
        let k = if len >= 3 {
            3
        } else {
            len
        };
        let mut taken: Vec<PhysicalCard> = Vec::new();
        let mut j: usize = 0;
        while j < k
            invariant
                j <= k,
                k <= len,
                len == g0.cards@.len(),
                self.cards@ == g0.cards@.take(len - j),
                taken@ == g0.cards@.skip(len - j).reverse(),
                self.x == g0.x,
                self.y == g0.y,
                self.bounds == g0.bounds,
            decreases k - j,
        {
            let pc = self.cards.pop().unwrap();
            taken.push(pc);
            proof {
                assert(self.cards@ =~= g0.cards@.take(len - (j + 1)));
                assert(taken@ =~= g0.cards@.skip(len - (j + 1)).reverse());
            }
            j = j + 1;
        }
        proof {
            assert forall|i: int|
                0 <= i < self.cards@.len() implies (#[trigger] self.cards@[i]).flipped by {
                assert(self.cards@[i] == g0.cards@[i]);
            }
        }
        taken
    }

    /// Re-homes a pile of cards onto the stock face-down; the last one
    /// arrives animated from where it was.
    pub fn deposit_cards(&mut self, cards: Vec<PhysicalCard>)
        requires
            old(self).wf(),
        ensures
            final(self).wf(),
            final(self).x == old(self).x,
            final(self).y == old(self).y,
            final(self).bounds == old(self).bounds,
            final(self).cards@.len() == old(self).cards@.len() + cards@.len(),
            forall|i: int| 0 <= i < old(self).cards@.len() ==> final(self).cards@[i] == old(self).cards@[i],
            forall|j: int|
                0 <= j < cards@.len() ==> #[trigger] final(self).cards@[old(self).cards@.len() + j]
                    == (PhysicalCard {
                    x: old(self).x,
                    y: old(self).y,
                    flipped: true,
                    prev_loc: (if j == cards@.len() - 1 {
                        Some((cards@[j].x, cards@[j].y))
                    } else {
                        cards@[j].prev_loc
                    }),
                    ..cards@[j]
                }),
            final(self).cards_seq() == old(self).cards_seq() + cards_of(cards@),
    {
        let ghost g0 = *self;
        let ghost incoming = cards@;
        let n = cards.len();
        let mut j: usize = 0;
        let mut cards = cards;
        while j < n
            invariant
                j <= n,
                n == cards@.len(),
                cards@ == incoming,
                self.x == g0.x,
                self.y == g0.y,
                self.bounds == g0.bounds,
                coord_ok(g0.x as int),
                coord_ok(g0.y as int),
                self.cards@.len() == g0.cards@.len() + j,
                forall|i: int| 0 <= i < g0.cards@.len() ==> self.cards@[i] == g0.cards@[i],
                forall|jj: int|
                    0 <= jj < j ==> #[trigger] self.cards@[g0.cards@.len() + jj] == (PhysicalCard {
                        x: g0.x,
                        y: g0.y,
                        flipped: true,
                        prev_loc: (if jj == n - 1 {
                            Some((incoming[jj].x, incoming[jj].y))
                        } else {
                            incoming[jj].prev_loc
                        }),
                        ..incoming[jj]
                    }),
            decreases n - j,
        {
            let mut c = cards[j];
            if j == n - 1 {
                c.move_to(self.x, self.y);
            } else {
                c.set_position(self.x, self.y);
            }
            c.set_flipped(true);
            self.cards.push(c);
            j = j + 1;
        }
        proof {
            assert forall|i: int|
                0 <= i < self.cards@.len() implies (#[trigger] self.cards@[i]).flipped by {
                if i < g0.cards@.len() {
                    assert(self.cards@[i] == g0.cards@[i]);
                } else {
                    let jj = i - g0.cards@.len();
                    assert(self.cards@[g0.cards@.len() + jj].flipped);
                }
            }
            assert forall|i: int|
                0 <= i < self.cards@.len() implies (#[trigger] self.cards_seq()[i]) == (
                g0.cards_seq() + cards_of(incoming))[i] by {
                if i >= g0.cards@.len() {
                    let jj = i - g0.cards@.len();
                    assert(self.cards@[g0.cards@.len() + jj].card == incoming[jj].card);
                }
            }
            assert(self.cards_seq() =~= g0.cards_seq() + cards_of(incoming));
        }
    }

    /// Whether the point strikes the stock's advance hot-zone.
    pub fn within_bounds(&self, x: i32, y: i32) -> (r: bool)
        ensures
            r == self.bounds.contains_spec(x as int, y as int),
    {
        self.bounds.contains(x, y)
    }
}

/// The face-up dealt pile beside the stock; only its top card is liftable.
pub struct Discard {
    pub cards: Vec<PhysicalCard>,
    pub x: i32,
    pub y: i32,
}

impl Discard {
    /// The card identities, bottom first.
    pub open spec fn cards_seq(self) -> Seq<Card> {
        cards_of(self.cards@)
    }

    /// Well-formedness: every card face-up at an in-range anchor.
    pub open spec fn wf(self) -> bool {
        &&& coord_ok(self.x as int)
        &&& coord_ok(self.y as int)
        &&& all_face_up(self.cards@)
    }

    /// Where a card at 1-based `depth` from the top of the fan comes to
    /// rest: the top two cards are offset right so all three show.
    pub open spec fn relaid_card(self, pc: PhysicalCard, depth: int) -> PhysicalCard {
        PhysicalCard {
            x: (if depth <= 2 {
                self.x as int + (3 - depth) * STACKED_CARD_X_STRIDE as int
            } else {
                self.x as int
            }) as i32,
            y: self.y,
            flipped: false,
            prev_loc: Some((pc.x, pc.y)),
            ..pc
        }
    }

    pub fn new(x: i32, y: i32) -> (d: Discard)
        requires
            coord_ok(x as int),
            coord_ok(y as int),
        ensures
            d.cards@.len() == 0,
            d.x == x,
            d.y == y,
            d.wf(),
    {
        Discard { cards: Vec::new(), x, y }
    }

    /// Lays a freshly dealt group on top of the fan, face-up; the visible
    /// window of up to six cards is re-fanned.
    pub fn add_3_cards(&mut self, cards: Vec<PhysicalCard>)
        requires
            old(self).wf(),
            cards@.len() <= 3,
        ensures
            final(self).wf(),
            final(self).x == old(self).x,
            final(self).y == old(self).y,
            final(self).cards@.len() == old(self).cards@.len() + cards@.len(),
            final(self).cards_seq() == old(self).cards_seq() + cards_of(cards@),
            forall|i: int|
                0 <= i < final(self).cards@.len() - 6 ==> final(self).cards@[i] == (old(
                    self,
                ).cards@ + cards@)[i],
            forall|i: int|
                0 <= i && final(self).cards@.len() - 6 <= i < final(self).cards@.len()
                    ==> #[trigger] final(self).cards@[i] == old(self).relaid_card(
                    (old(self).cards@ + cards@)[i],
                    final(self).cards@.len() - i,
                ),
    {
        let ghost g0 = *self;
        let ghost incoming = cards@;
        let mut cards = cards;
        self.cards.append(&mut cards);
        let ghost mid = self.cards@;
        let len = self.cards.len();
        let start = if len > 6 {
            len - 6
        } else {
            0
        };
        let mut i: usize = start;
        while i < len
            invariant
                start <= i <= len,
                len == self.cards@.len(),
                self.cards@.len() == mid.len(),
                start == (if len > 6 {
                    len - 6
                } else {
                    0
                }),
                self.x == g0.x,
                self.y == g0.y,
                coord_ok(g0.x as int),
                coord_ok(g0.y as int),
                forall|k: int| 0 <= k < start ==> self.cards@[k] == mid[k],
                forall|k: int| i <= k < len ==> self.cards@[k] == mid[k],
                forall|k: int|
                    start <= k < i ==> #[trigger] self.cards@[k] == g0.relaid_card(
                        mid[k],
                        len - k,
                    ),
            decreases len - i,
        {
            let mut c = self.cards[i];
            let depth = len - i;
            let tx = if depth <= 2 {
                self.x + STACKED_CARD_X_STRIDE * ((3 - depth) as i32)
            } else {
                self.x
            };
            c.move_to(tx, self.y);
            c.set_flipped(false);
            self.cards.set(i, c);
            i = i + 1;
        }
        proof {
            assert(mid =~= g0.cards@ + incoming);
            assert(self.cards_seq() =~= g0.cards_seq() + cards_of(incoming));
            assert forall|i2: int|
                0 <= i2 < self.cards@.len() implies !(#[trigger] self.cards@[i2]).flipped by {
                if i2 < start {
                    assert(self.cards@[i2] == mid[i2]);
                    assert(mid[i2] == g0.cards@[i2]);
                }
            }
        }
    }

    /// Hands the whole pile over for the recycle.
    pub fn take_all(&mut self) -> (taken: Vec<PhysicalCard>)
        requires
            old(self).wf(),
        ensures
            taken@ == old(self).cards@,
            final(self).cards@.len() == 0,
            final(self).x == old(self).x,
            final(self).y == old(self).y,
            final(self).wf(),
    {
        let mut taken: Vec<PhysicalCard> = Vec::new();
        core::mem::swap(&mut self.cards, &mut taken);
        taken
    }

    /// Hides the top `n` cards, which the controller holds while a drag is
    /// in flight; nothing else about the pile changes.
    pub fn hide_top_cards(&mut self, n: usize)
        requires
            old(self).wf(),
            n <= old(self).cards@.len(),
        ensures
            final(self).wf(),
            final(self).x == old(self).x,
            final(self).y == old(self).y,
            final(self).cards@.len() == old(self).cards@.len(),
            forall|i: int|
                0 <= i < old(self).cards@.len() - n ==> final(self).cards@[i] == old(self).cards@[i],
            forall|i: int|
                old(self).cards@.len() - n <= i < old(self).cards@.len()
                    ==> #[trigger] final(self).cards@[i] == (PhysicalCard {
                    visible: false,
                    ..old(self).cards@[i]
                }),
            final(self).cards_seq() == old(self).cards_seq(),
    {
        let ghost g0 = *self;
        hide_top(&mut self.cards, n);
        proof {
            assert(self.cards_seq() =~= g0.cards_seq());
            assert forall|i: int|
                0 <= i < self.cards@.len() implies !(#[trigger] self.cards@[i]).flipped by {
                assert(!g0.cards@[i].flipped);
            }
        }
    }

    /// Shows the top `n` cards again at the release point: the snap-back
    /// of an abandoned drag.
    pub fn reveal_top_cards(&mut self, n: usize, mouse_x: i32, mouse_y: i32)
        requires
            old(self).wf(),
            n <= old(self).cards@.len(),
            coord_ok(mouse_x as int),
            coord_ok(mouse_y as int),
        ensures
            final(self).wf(),
            final(self).x == old(self).x,
            final(self).y == old(self).y,
            final(self).cards@.len() == old(self).cards@.len(),
            forall|i: int|
                0 <= i < old(self).cards@.len() - n ==> final(self).cards@[i] == old(self).cards@[i],
            forall|i: int|
                old(self).cards@.len() - n <= i < old(self).cards@.len()
                    ==> #[trigger] final(self).cards@[i] == (PhysicalCard {
                    visible: true,
                    prev_loc: Some(drop_point_i32(mouse_x as int, mouse_y as int)),
                    ..old(self).cards@[i]
                }),
            final(self).cards_seq() == old(self).cards_seq(),
    {
        let ghost g0 = *self;
        reveal_top(&mut self.cards, n, mouse_x, mouse_y);
        proof {
            assert(self.cards_seq() =~= g0.cards_seq());
            assert forall|i: int|
                0 <= i < self.cards@.len() implies !(#[trigger] self.cards@[i]).flipped by {
                assert(!g0.cards@[i].flipped);
            }
        }
    }
}

impl CardSource for Discard {
    open spec fn source_phys(&self) -> Seq<PhysicalCard> {
        self.cards@
    }

    open spec fn source_inv(&self) -> bool {
        self.wf()
    }

    open spec fn source_id(&self) -> CardSources {
        CardSources::Discard
    }

    /// Only the top card is ever liftable.
    open spec fn liftable_at(&self, x: int, y: int) -> nat {
        if self.cards@.len() > 0 && self.cards@.last().hit_spec(x, y) {
            1
        } else {
            0
        }
    }

    fn card_source(&self) -> (s: CardSources) {
        CardSources::Discard
    }

    fn how_many_cards(&self, mouse_x: i32, mouse_y: i32) -> (n: usize) {
        proof {
            lemma_faceup_len_all(self.cards@);
        }
        if self.cards.len() > 0 && self.cards[self.cards.len() - 1].within_bounds(mouse_x, mouse_y) {
            1
        } else {
            0
        }
    }

    fn borrow_cards(&self, count: usize) -> (run: Vec<PhysicalCard>)
        ensures
            run@.len() == (if count > 0 && self.cards@.len() > 0 {
                1int
            } else {
                0int
            }),
    {
        let mut run: Vec<PhysicalCard> = Vec::new();
        if count > 0 && self.cards.len() > 0 {
            run.push(self.cards[self.cards.len() - 1]);
        }
        proof {
            assert(run@ =~= self.cards@.skip(self.cards@.len() - run@.len()));
        }
        run
    }

    /// Pops the top card and re-fans the up-to-three now on top; asking
    /// for nothing, or from an empty fan, leaves the discard untouched.
    fn take_cards(&mut self, num: usize) -> (taken: Vec<PhysicalCard>)
        ensures
            taken@.len() == (if num > 0 && old(self).cards@.len() > 0 {
                1int
            } else {
                0int
            }),
            taken@ == old(self).cards@.skip(old(self).cards@.len() - taken@.len()),
            taken@.len() == 0 ==> *final(self) == *old(self),
            final(self).cards@.len() == old(self).cards@.len() - taken@.len(),
            final(self).cards_seq() == old(self).cards_seq().take(
                old(self).cards@.len() - taken@.len(),
            ),
            final(self).x == old(self).x,
            final(self).y == old(self).y,
            forall|i: int|
                0 <= i < final(self).cards@.len() - 3 ==> final(self).cards@[i]
                    == old(self).cards@[i],
            taken@.len() > 0 ==> forall|i: int|
                0 <= i && final(self).cards@.len() - 3 <= i < final(self).cards@.len()
                    ==> #[trigger] final(self).cards@[i] == old(self).relaid_card(
                    old(self).cards@[i],
                    final(self).cards@.len() - i,
                ),
    {
        let ghost g0 = *self;
        let mut taken: Vec<PhysicalCard> = Vec::new();
        if num == 0 || self.cards.len() == 0 {
            proof {
                assert(taken@ =~= g0.cards@.skip(g0.cards@.len() as int));
                assert(self.cards_seq() =~= g0.cards_seq().take(g0.cards@.len() as int));
            }
            return taken;
        }
        let pc = self.cards.pop().unwrap();
        taken.push(pc);
        proof {
            lemma_faceup_len_all(g0.cards@);
            assert(taken@ =~= g0.cards@.skip(g0.cards@.len() - taken@.len()));
            assert forall|i: int|
                0 <= i < taken@.len() implies !(#[trigger] taken@[i]).flipped by {
                assert(taken@[i] == g0.cards@[g0.cards@.len() - 1]);
            }
        }
        let ghost mid = self.cards@;
        proof {
            assert forall|k: int| 0 <= k < mid.len() implies !(#[trigger] mid[k]).flipped by {
                assert(mid[k] == g0.cards@[k]);
            }
        }
        let len = self.cards.len();
        let start = if len > 3 {
            len - 3
        } else {
            0
        };
        let mut i: usize = start;
        while i < len
            invariant
                start <= i <= len,
                len == self.cards@.len(),
                self.cards@.len() == mid.len(),
                start == (if len > 3 {
                    len - 3
                } else {
                    0
                }),
                self.x == g0.x,
                self.y == g0.y,
                coord_ok(g0.x as int),
                coord_ok(g0.y as int),
                forall|k: int| 0 <= k < mid.len() ==> !(#[trigger] mid[k]).flipped,
                forall|k: int| 0 <= k < start ==> self.cards@[k] == mid[k],
                forall|k: int| i <= k < len ==> self.cards@[k] == mid[k],
                forall|k: int|
                    start <= k < i ==> #[trigger] self.cards@[k] == g0.relaid_card(
                        mid[k],
                        len - k,
                    ),
            decreases len - i,
        {
            let mut c = self.cards[i];
            let depth = len - i;
            let tx = if depth <= 2 {
                self.x + STACKED_CARD_X_STRIDE * ((3 - depth) as i32)
            } else {
                self.x
            };
            c.move_to(tx, self.y);
            self.cards.set(i, c);
            i = i + 1;
        }
        proof {
            assert(mid =~= g0.cards@.take(g0.cards@.len() - taken@.len()));
            assert(self.cards_seq() =~= g0.cards_seq().take(g0.cards@.len() - taken@.len()));
            assert forall|i2: int|
                0 <= i2 < self.cards@.len() implies !(#[trigger] self.cards@[i2]).flipped by {
                assert(mid[i2] == g0.cards@[i2]);
                if i2 < start {
                    assert(self.cards@[i2] == mid[i2]);
                }
            }
            assert forall|i2: int|
                0 <= i2 < self.cards@.len() - 3 implies self.cards@[i2] == g0.cards@[i2] by {
                assert(self.cards@[i2] == mid[i2]);
            }
        }
        taken
    }
}

/// The stock/discard pair with its single advance trigger.
pub struct StockDiscard {
    pub stock: Stock,
    pub discard: Discard,
}

/// After a recycle every stock card sits face-down at the stock anchor.
pub open spec fn stock_restacked(pre: StockDiscard, post: StockDiscard) -> bool {
    forall|i: int|
        0 <= i < post.stock.cards@.len() ==> (#[trigger] post.stock.cards@[i]).x == pre.stock.x
            && post.stock.cards@[i].y == pre.stock.y && post.stock.cards@[i].flipped
}

/// After a deal the fan's visible window sits face-up at its offsets: the
/// top two cards stepped right, the rest on the discard anchor.
pub open spec fn discard_fanned(pre: StockDiscard, post: StockDiscard) -> bool {
    forall|i: int|
        #![trigger post.discard.cards@[i]]
        0 <= i && post.discard.cards@.len() - 6 <= i < post.discard.cards@.len() ==> {
            let depth = post.discard.cards@.len() - i;
            &&& post.discard.cards@[i].y == pre.discard.y
            &&& post.discard.cards@[i].x as int == pre.discard.x as int + (if depth <= 2 {
                (3 - depth) * STACKED_CARD_X_STRIDE as int
            } else {
                0int
            })
            &&& !post.discard.cards@[i].flipped
        }
}

impl StockDiscard {
    pub open spec fn wf(self) -> bool {
        &&& self.stock.wf()
        &&& self.discard.wf()
    }

    pub fn new(x: i32, y: i32) -> (sd: StockDiscard)
        requires
            coord_ok(x as int),
            coord_ok(x as int + CARD_X_STRIDE as int),
            coord_ok(y as int),
        ensures
            sd.stock.cards@.len() == 0,
            sd.discard.cards@.len() == 0,
            sd.stock.x == x,
            sd.stock.y == y,
            sd.discard.x == x + CARD_X_STRIDE,
            sd.discard.y == y,
            sd.wf(),
    {
        StockDiscard { stock: Stock::new(x, y), discard: Discard::new(x + CARD_X_STRIDE, y) }
    }

    /// Seeds the pair for the deal: everything face-down in the stock, the
    /// discard empty.
    pub fn from_cards(x: i32, y: i32, cards: Vec<PhysicalCard>) -> (sd: StockDiscard)
        requires
            coord_ok(x as int),
            coord_ok(x as int + CARD_X_STRIDE as int),
            coord_ok(y as int),
        ensures
            sd.stock.cards@.len() == cards@.len(),
            sd.stock.cards_seq() == cards_of(cards@),
            forall|i: int|
                0 <= i < cards@.len() ==> #[trigger] sd.stock.cards@[i] == (PhysicalCard {
                    x,
                    y,
                    flipped: true,
                    ..cards@[i]
                }),
            sd.discard.cards@.len() == 0,
            sd.stock.x == x,
            sd.stock.y == y,
            sd.discard.x == x + CARD_X_STRIDE,
            sd.discard.y == y,
            sd.wf(),
    {
        StockDiscard {
            stock: Stock::from_cards(x, y, cards),
            discard: Discard::new(x + CARD_X_STRIDE, y),
        }
    }

    pub fn discard_mut(&mut self) -> (d: &mut Discard)
        ensures
            *d == old(self).discard,
            final(self).discard == *final(d),
            final(self).stock == old(self).stock,
    {
        &mut self.discard
    }

    /// The advance trigger: a click in the stock's hot-zone advances the
    /// pair and reports that it handled the click.
    pub fn handle_click(&mut self, x: i32, y: i32) -> (r: bool)
        requires
            old(self).wf(),
        ensures
            final(self).wf(),
            r == old(self).stock.bounds.contains_spec(x as int, y as int),
            !r ==> *final(self) == *old(self),
            r ==> final(self).stock.cards_seq() == advance_spec(
                old(self).stock.cards_seq(),
                old(self).discard.cards_seq(),
            ).0,
            r ==> final(self).discard.cards_seq() == advance_spec(
                old(self).stock.cards_seq(),
                old(self).discard.cards_seq(),
            ).1,
            r && old(self).stock.cards@.len() == 0 ==> stock_restacked(*old(self), *final(self)),
            r && old(self).stock.cards@.len() > 0 ==> discard_fanned(*old(self), *final(self)),
            final(self).stock.x == old(self).stock.x,
            final(self).stock.y == old(self).stock.y,
            final(self).discard.x == old(self).discard.x,
            final(self).discard.y == old(self).discard.y,
    {
        if self.stock.within_bounds(x, y) {
            self.deal_into_discard();
            true
        } else {
            false
        }
    }

    /// One advance: up to three stock cards deal face-up onto the discard,
    /// or the exhausted stock is refilled from the reversed discard.
    pub fn deal_into_discard(&mut self)
        requires
            old(self).wf(),
        ensures
            final(self).wf(),
            final(self).stock.cards_seq() == advance_spec(
                old(self).stock.cards_seq(),
                old(self).discard.cards_seq(),
            ).0,
            final(self).discard.cards_seq() == advance_spec(
                old(self).stock.cards_seq(),
                old(self).discard.cards_seq(),
            ).1,
            final(self).stock.cards@.len() + final(self).discard.cards@.len() == old(
                self,
            ).stock.cards@.len() + old(self).discard.cards@.len(),
            old(self).stock.cards@.len() == 0 ==> stock_restacked(*old(self), *final(self)),
            old(self).stock.cards@.len() > 0 ==> discard_fanned(*old(self), *final(self)),
            final(self).stock.x == old(self).stock.x,
            final(self).stock.y == old(self).stock.y,
            final(self).discard.x == old(self).discard.x,
            final(self).discard.y == old(self).discard.y,
    {
        let ghost g0 = *self;
        let cards = self.stock.take_3_cards();
        if cards.is_empty() {
            let all = self.discard.take_all();
            let all = reversed(all);
            self.stock.deposit_cards(all);
            proof {
                assert(g0.stock.cards@.len() == 0);
                assert(g0.stock.cards_seq().len() == 0);
                assert(cards_of(g0.discard.cards@.reverse()) =~= g0.discard.cards_seq().reverse());
                assert(self.stock.cards_seq() =~= g0.discard.cards_seq().reverse());
                assert(self.discard.cards_seq() =~= Seq::<Card>::empty());
                assert forall|i: int|
                    0 <= i < self.stock.cards@.len() implies (#[trigger] self.stock.cards@[i]).x
                        == g0.stock.x && self.stock.cards@[i].y == g0.stock.y
                        && self.stock.cards@[i].flipped by {
                    assert(self.stock.cards@[0 + i].flipped);
                }
            }
        } else {
            let ghost k = cards@.len();
            self.discard.add_3_cards(cards);
            proof {
                let s = g0.stock.cards_seq();
                let sl = g0.stock.cards@.len() as int;
                assert(cards_of(g0.stock.cards@.skip(sl - k).reverse()) =~= s.skip(sl - k).reverse());
                assert(self.stock.cards_seq() =~= s.take(sl - k));
                assert(self.discard.cards_seq() == g0.discard.cards_seq() + s.skip(sl - k).reverse());
                let dl = self.discard.cards@.len() as int;
                assert forall|i: int|
                    #![trigger self.discard.cards@[i]]
                    0 <= i && dl - 6 <= i < dl implies {
                        let depth = dl - i;
                        &&& self.discard.cards@[i].y == g0.discard.y
                        &&& self.discard.cards@[i].x as int == g0.discard.x as int + (if depth
                            <= 2 {
                            (3 - depth) * STACKED_CARD_X_STRIDE as int
                        } else {
                            0int
                        })
                        &&& !self.discard.cards@[i].flipped
                    } by {
                    assert(coord_ok(g0.discard.x as int));
                }
            }
        }
    }
}

} // verus!
