//! Tableau pile: a face-down prefix under a face-up, descending,
//! colour-alternating run, with multi-card lifts.

use vstd::prelude::*;

verus! {

use vstd::pervasive::VecAdditionalExecFns;

use crate::card::{
    all_face_up, cards_of, faceup_len, flip_top_up, flip_up, lemma_faceup_len,
    lemma_faceup_len_append, lemma_faceup_len_same_flips, lemma_faceup_len_take,
    lemma_prev_index, lemma_stacked_run_append, lemma_stacked_run_len, lemma_stacked_run_skip,
    lemma_stacked_run_take, stacked_run, Card,
    CardSink, CardSource, PhysicalCard, Value,
};
use crate::card::drop_point_i32;
use crate::game::{CardSinks, CardSources};
use crate::util::Bounds;
use crate::{coord_ok, CARD_HEIGHT, CARD_WIDTH, STACKED_CARD_Y_STRIDE};

/// The tableau's legality rule: the run's bottom card must be a King on an
/// empty tableau, else one rank below and the opposite colour of the top.
pub open spec fn tableau_accepts(pile: Seq<Card>, run: Seq<Card>) -> bool
    recommends
        run.len() >= 1,
{
    if pile.len() == 0 {
        run[0].0 == Value::King
    } else {
        &&& pile.last().0.prev_spec() is Some
        &&& pile.last().0.prev_spec()->0 == run[0].0
        &&& pile.last().1.colour_spec() != run[0].1.colour_spec()
    }
}

/// The hit-scan for lifts: walking down from the top, the first face-up
/// card struck by the point wins, and the lift size counts it and every
/// card above it.
pub open spec fn scan_spec(s: Seq<PhysicalCard>, x: int, y: int) -> nat
    decreases s.len(),
{
    if s.len() == 0 {
        0
    } else if !s.last().flipped && s.last().hit_spec(x, y) {
        1
    } else {
        let r = scan_spec(s.drop_last(), x, y);
        if r == 0 {
            0
        } else {
            r + 1
        }
    }
}

/// A positive scan result points at a face-up card.
proof fn lemma_scan_found(s: Seq<PhysicalCard>, x: int, y: int)
    requires
        scan_spec(s, x, y) > 0,
    ensures
        scan_spec(s, x, y) <= s.len(),
        !s[s.len() - scan_spec(s, x, y)].flipped,
    decreases s.len(),
{
    if !s.last().flipped && s.last().hit_spec(x, y) {
    } else {
        lemma_scan_found(s.drop_last(), x, y);
        assert(s.drop_last()[s.len() - scan_spec(s, x, y)] == s[s.len() - scan_spec(s, x, y)]);
    }
}

/// Tableau alternation: in any well-formed tableau, every card of the
/// face-up run sits one rank below, and in the opposite colour to, the
/// card beneath it.
pub proof fn lemma_tableau_alternation(t: Tableau)
    requires
        t.wf(),
    ensures
        forall|i: int|
            #![trigger t.faceup_seq()[i]]
            1 <= i < t.faceup_seq().len() ==> t.faceup_seq()[i].0.index_spec() == t.faceup_seq()[i
                - 1].0.index_spec() - 1 && t.faceup_seq()[i].1.colour_spec() != t.faceup_seq()[i
                - 1].1.colour_spec(),
{
}

/// Face-down prefix: in any well-formed tableau no face-up card sits
/// below a face-down one.
pub proof fn lemma_face_down_prefix(t: Tableau, i: int, j: int)
    requires
        t.wf(),
        0 <= i <= j < t.cards@.len(),
        !t.cards@[i].flipped,
    ensures
        !t.cards@[j].flipped,
{
    lemma_faceup_len(t.cards@);
    if i < t.facedown_count() {
        assert(t.cards@[i].flipped);
    }
}

pub struct Tableau {
    pub cards: Vec<PhysicalCard>,
    pub sink: CardSinks,
    pub source: CardSources,
    pub x: i32,
    pub y: i32,
}

impl Tableau {
    /// The card identities, bottom first.
    pub open spec fn cards_seq(self) -> Seq<Card> {
        cards_of(self.cards@)
    }

    /// How many face-down cards lie under the face-up run.
    pub open spec fn facedown_count(self) -> int {
        self.cards@.len() - faceup_len(self.cards@)
    }

    /// The card identities of the face-up run, bottom first.
    pub open spec fn faceup_seq(self) -> Seq<Card> {
        self.cards_seq().skip(self.facedown_count())
    }

    /// Well-formedness: face-down cards form a prefix, the face-up run
    /// stacks, and the anchor sits in coordinate range.  The face-down
    /// prefix can only shrink, so it stays below the deal's maximum.
    pub open spec fn wf(self) -> bool {
        &&& coord_ok(self.x as int)
        &&& coord_ok(self.y as int)
        &&& forall|i: int|
            0 <= i < self.facedown_count() ==> (#[trigger] self.cards@[i]).flipped
        &&& stacked_run(self.faceup_seq())
        &&& self.facedown_count() <= 51
    }

    /// Under well-formedness the pile never outgrows a buried deal plus a
    /// full stacked run.
    pub proof fn lemma_wf_len(self)
        requires
            self.wf(),
        ensures
            faceup_len(self.cards@) <= 13,
            self.cards@.len() <= 64,
    {
        lemma_faceup_len(self.cards@);
        lemma_stacked_run_len(self.faceup_seq());
    }

    pub fn new(x: i32, y: i32, sink: CardSinks, source: CardSources) -> (t: Tableau)
        requires
            coord_ok(x as int),
            coord_ok(y as int),
        ensures
            t.cards@.len() == 0,
            t.sink == sink,
            t.source == source,
            t.x == x,
            t.y == y,
            t.wf(),
    {
        Tableau { cards: Vec::new(), sink, source, x, y }
    }

    /// Seeds the pile for the deal: the cards stacked at the anchor, all
    /// face-down but the last.
    pub fn from_cards(x: i32, y: i32, cards: Vec<PhysicalCard>, sink: CardSinks, source: CardSources) -> (t:
        Tableau)
        requires
            coord_ok(x as int),
            coord_ok(y as int),
            cards@.len() <= 52,
        ensures
            t.sink == sink,
            t.source == source,
            t.x == x,
            t.y == y,
            t.cards@.len() == cards@.len(),
            t.cards_seq() == cards_of(cards@),
            forall|i: int|
                0 <= i < cards@.len() ==> #[trigger] t.cards@[i] == (PhysicalCard {
                    x,
                    y: (y + STACKED_CARD_Y_STRIDE * i) as i32,
                    flipped: i < cards@.len() - 1,
                    ..cards@[i]
                }),
            faceup_len(t.cards@) == (if cards@.len() == 0 {
                0int
            } else {
                1int
            }),
            t.wf(),
    {
        let mut cards = cards;
        let ghost orig = cards@;
        let len = cards.len();
        let mut i: usize = 0;
        while i < len
            invariant
                i <= len,
                len == cards@.len(),
                cards@.len() == orig.len() <= 52,
                coord_ok(x as int),
                coord_ok(y as int),
                forall|k: int| i <= k < len ==> cards@[k] == orig[k],
                forall|k: int|
                    0 <= k < i ==> #[trigger] cards@[k] == (PhysicalCard {
                        x,
                        y: (y + STACKED_CARD_Y_STRIDE * k) as i32,
                        flipped: k < len - 1,
                        ..orig[k]
                    }),
            decreases len - i,
        {
            let mut c = cards[i];
            c.set_position(x, y + STACKED_CARD_Y_STRIDE * (i as i32));
            c.set_flipped(i != len - 1);
            cards.set(i, c);
            i = i + 1;
        }
        let t = Tableau { cards, sink, source, x, y };
        proof {
            assert(t.cards_seq() =~= cards_of(orig));
            if len > 0 {
                assert(!t.cards@.last().flipped);
                assert(faceup_len(t.cards@) == 1 + faceup_len(t.cards@.drop_last()));
                if len > 1 {
                    assert(t.cards@.drop_last().last() == t.cards@[len - 2]);
                    assert(t.cards@.drop_last().last().flipped);
                }
                assert(faceup_len(t.cards@.drop_last()) == 0);
            }
            assert(stacked_run(t.faceup_seq()));
        }
        t
    }

    /// Expected state of a run card after it lands at stack position `idx`.
    pub open spec fn placed_card(self, pc: PhysicalCard, idx: int, mouse_x: int, mouse_y: int) -> PhysicalCard {
        PhysicalCard {
            x: self.x,
            y: (self.y + STACKED_CARD_Y_STRIDE * idx) as i32,
            visible: true,
            prev_loc: Some(drop_point_i32(mouse_x, mouse_y)),
            ..pc
        }
    }

    /// Exec mirror of `faceup_len`.
    fn count_face_up(&self) -> (n: usize)
        ensures
            n == faceup_len(self.cards@),
            n <= self.cards@.len(),
    {
        let len = self.cards.len();
        proof {
            assert(self.cards@.take(len as int) =~= self.cards@);
            lemma_faceup_len(self.cards@);
        }
        let mut i: usize = len;
        while i > 0 && !self.cards[i - 1].flipped
            invariant
                i <= len,
                len == self.cards@.len(),
                faceup_len(self.cards@) == faceup_len(self.cards@.take(i as int)) + (len - i),
            decreases i,
        {
            proof {
                assert(self.cards@.take(i as int).drop_last() =~= self.cards@.take(i - 1));
                assert(self.cards@.take(i as int).last() == self.cards@[i - 1]);
            }
            i = i - 1;
        }
        len - i
    }

    /// Copies of the face-up run, bottom first.
    pub fn faceup_cards(&self) -> (run: Vec<PhysicalCard>)
        ensures
            run@ == self.cards@.skip(self.cards@.len() - faceup_len(self.cards@)),
    {
        let n = self.count_face_up();
        let len = self.cards.len();
        let mut run: Vec<PhysicalCard> = Vec::new();
        let mut i: usize = len - n;
        while i < len
            invariant
                len - n <= i <= len,
                len == self.cards@.len(),
                n <= len,
                run@ == self.cards@.subrange(len - n, i as int),
            decreases len - i,
        {
            run.push(self.cards[i]);
            proof {
                assert(run@ =~= self.cards@.subrange(len - n, i + 1));
            }
            i = i + 1;
        }
        proof {
            assert(run@ =~= self.cards@.skip(len - n));
        }
        run
    }

    /// Hides the top `n` cards, which the controller holds while a drag is
    /// in flight; nothing else about the pile changes.
    pub fn hide_top_cards(&mut self, n: usize)
        requires
            old(self).wf(),
            n <= old(self).cards@.len(),
        ensures
            final(self).wf(),
            final(self).sink == old(self).sink,
            final(self).source == old(self).source,
            final(self).x == old(self).x,
            final(self).y == old(self).y,
            final(self).cards@.len() == old(self).cards@.len(),
            forall|i: int|
                0 <= i < old(self).cards@.len() - n ==> final(self).cards@[i] == old(self).cards@[i],
            forall|i: int|
                old(self).cards@.len() - n <= i < old(self).cards@.len()
                    ==> #[trigger] final(self).cards@[i] == (PhysicalCard {
                    visible: false,
                    ..old(self).cards@[i]
                }),
            final(self).cards_seq() == old(self).cards_seq(),
            faceup_len(final(self).cards@) == faceup_len(old(self).cards@),
    {
        let ghost g0 = *self;
        crate::card::hide_top(&mut self.cards, n);
        proof {
            assert forall|i: int|
                0 <= i < self.cards@.len() implies (#[trigger] self.cards@[i]).flipped
                    == g0.cards@[i].flipped by {}
            lemma_faceup_len_same_flips(self.cards@, g0.cards@);
            assert(self.cards_seq() =~= g0.cards_seq());
            assert(self.faceup_seq() =~= g0.faceup_seq());
        }
    }

    /// Shows the top `n` cards again at the release point: the snap-back
    /// of an abandoned drag.
    pub fn reveal_top_cards(&mut self, n: usize, mouse_x: i32, mouse_y: i32)
        requires
            old(self).wf(),
            n <= old(self).cards@.len(),
            coord_ok(mouse_x as int),
            coord_ok(mouse_y as int),
        ensures
            final(self).wf(),
            final(self).sink == old(self).sink,
            final(self).source == old(self).source,
            final(self).x == old(self).x,
            final(self).y == old(self).y,
            final(self).cards@.len() == old(self).cards@.len(),
            forall|i: int|
                0 <= i < old(self).cards@.len() - n ==> final(self).cards@[i] == old(self).cards@[i],
            forall|i: int|
                old(self).cards@.len() - n <= i < old(self).cards@.len()
                    ==> #[trigger] final(self).cards@[i] == (PhysicalCard {
                    visible: true,
                    prev_loc: Some(drop_point_i32(mouse_x as int, mouse_y as int)),
                    ..old(self).cards@[i]
                }),
            final(self).cards_seq() == old(self).cards_seq(),
            faceup_len(final(self).cards@) == faceup_len(old(self).cards@),
    {
        let ghost g0 = *self;
        crate::card::reveal_top(&mut self.cards, n, mouse_x, mouse_y);
        proof {
            assert forall|i: int|
                0 <= i < self.cards@.len() implies (#[trigger] self.cards@[i]).flipped
                    == g0.cards@[i].flipped by {}
            lemma_faceup_len_same_flips(self.cards@, g0.cards@);
            assert(self.cards_seq() =~= g0.cards_seq());
            assert(self.faceup_seq() =~= g0.faceup_seq());
        }
    }
}

impl CardSource for Tableau {
    open spec fn source_phys(&self) -> Seq<PhysicalCard> {
        self.cards@
    }

    open spec fn source_inv(&self) -> bool {
        self.wf()
    }

    open spec fn source_id(&self) -> CardSources {
        self.source
    }

    open spec fn liftable_at(&self, x: int, y: int) -> nat {
        scan_spec(self.cards@, x, y)
    }

    fn card_source(&self) -> (s: CardSources) {
        self.source
    }

    fn how_many_cards(&self, mouse_x: i32, mouse_y: i32) -> (n: usize) {
        let ghost s = self.cards@;
        let ghost mx = mouse_x as int;
        let ghost my = mouse_y as int;
        let len = self.cards.len();
        proof {
            assert(s.take(len as int) =~= s);
            lemma_faceup_len(s);
            if scan_spec(s, mx, my) > 0 {
                lemma_scan_found(s, mx, my);
            }
        }
        let mut i: usize = len;
        while i > 0
            invariant
                i <= len,
                len == s.len(),
                s == self.cards@,
                self.wf(),
                mx == mouse_x as int,
                my == mouse_y as int,
                scan_spec(s, mx, my) == (if scan_spec(s.take(i as int), mx, my) == 0 {
                    0int
                } else {
                    scan_spec(s.take(i as int), mx, my) + (len - i)
                }),
            decreases i,
        {
            i = i - 1;
            let c = self.cards[i];
            proof {
                assert(s.take(i + 1).drop_last() =~= s.take(i as int));
                assert(s.take(i + 1).last() == s[i as int]);
            }
            if !c.flipped && c.within_bounds(mouse_x, mouse_y) {
                proof {
                    assert(scan_spec(s.take(i + 1), mx, my) == 1);
                    assert(scan_spec(s, mx, my) == len - i);
                    lemma_scan_found(s, mx, my);
                    lemma_faceup_len(s);
                    if len - i > faceup_len(s) {
                        assert(i < self.facedown_count());
                        assert(self.cards@[i as int].flipped);
                    }
                }
                return len - i;
            }
        }
        proof {
            assert(s.take(0) =~= Seq::<PhysicalCard>::empty());
        }
        0
    }

    fn borrow_cards(&self, count: usize) -> (run: Vec<PhysicalCard>)
        ensures
            run@.len() == (if count <= faceup_len(self.cards@) {
                count as int
            } else {
                faceup_len(self.cards@) as int
            }),
    {
        let n = self.count_face_up();
        let k = if count < n {
            count
        } else {
            n
        };
        let len = self.cards.len();
        let mut run: Vec<PhysicalCard> = Vec::new();
        let mut i: usize = len - k;
        while i < len
            invariant
                len - k <= i <= len,
                len == self.cards@.len(),
                k <= len,
                run@ == self.cards@.subrange(len - k, i as int),
            decreases len - i,
        {
            run.push(self.cards[i]);
            proof {
                assert(run@ =~= self.cards@.subrange(len - k, i + 1));
            }
            i = i + 1;
        }
        proof {
            assert(run@ =~= self.cards@.skip(len - k));
        }
        run
    }

    #[verifier::rlimit(100)]
    #[verifier::spinoff_prover]
    fn take_cards(&mut self, num: usize) -> (taken: Vec<PhysicalCard>)
        ensures
            taken@.len() == (if num <= faceup_len(old(self).cards@) {
                num as int
            } else {
                faceup_len(old(self).cards@) as int
            }),
            taken@ == old(self).cards@.skip(old(self).cards@.len() - taken@.len()),
            taken@.len() == 0 ==> *final(self) == *old(self),
            taken@.len() > 0 ==> final(self).cards@ == flip_top_up(
                old(self).cards@.take(old(self).cards@.len() - taken@.len()),
            ),
            final(self).cards_seq() == old(self).cards_seq().take(
                old(self).cards@.len() - taken@.len(),
            ),
            final(self).sink == old(self).sink,
            final(self).source == old(self).source,
            final(self).x == old(self).x,
            final(self).y == old(self).y,
            forall|i: int|
                0 <= i < final(self).cards@.len() ==> (!old(self).cards@[i].flipped
                    ==> !(#[trigger] final(self).cards@[i]).flipped),
    {
        let ghost g0 = *self;
        let n = self.count_face_up();
        let k = if num < n {
            num
        } else {
            n
        };
        if k == 0 {
            // Nothing liftable was asked for: the pile is untouched and in
            // particular no card is flipped.
            let taken: Vec<PhysicalCard> = Vec::new();
            proof {
                assert(taken@ =~= g0.cards@.skip(g0.cards@.len() as int));
                assert(self.cards_seq() =~= g0.cards_seq().take(g0.cards@.len() as int));
            }
            return taken;
        }
        let len = self.cards.len();
        let taken = self.cards.split_off(len - k);
        let ghost rem = g0.cards@.take(len - k);
        proof {
            lemma_faceup_len(g0.cards@);
            lemma_faceup_len_take(g0.cards@, k as int);
            assert(taken@ =~= g0.cards@.skip(len - k));
            assert(self.cards@ =~= rem);
        }
        if self.cards.len() > 0 {
            let mut top = self.cards.pop().unwrap();
            top.set_flipped(false);
            self.cards.push(top);
            proof {
                assert(self.cards@ =~= flip_top_up(rem));
            }
        } else {
            proof {
                assert(self.cards@ =~= flip_top_up(rem));
            }
        }
        proof {
            self.lemma_take_restores(g0, taken@, k as int);
        }
        taken
    }
}

impl Tableau {
    /// The bookkeeping behind `take_cards`: the remainder, with its top
    /// turned face-up, is well-formed and the taken run was the stacked,
    /// face-up top of the pile.
    #[verifier::rlimit(100)]
    #[verifier::spinoff_prover]
    proof fn lemma_take_restores(self, g0: Tableau, taken: Seq<PhysicalCard>, k: int)
        requires
            g0.wf(),
            0 <= k <= faceup_len(g0.cards@),
            taken == g0.cards@.skip(g0.cards@.len() - k),
            self.cards@ == flip_top_up(g0.cards@.take(g0.cards@.len() - k)),
            self.sink == g0.sink,
            self.source == g0.source,
            self.x == g0.x,
            self.y == g0.y,
        ensures
            self.wf(),
            all_face_up(taken),
            stacked_run(cards_of(taken)),
            cards_of(g0.cards@) == self.cards_seq() + cards_of(taken),
            self.cards_seq() == g0.cards_seq().take(g0.cards@.len() - k),
            forall|i: int|
                0 <= i < self.cards@.len() ==> (!g0.cards@[i].flipped
                    ==> !(#[trigger] self.cards@[i]).flipped),
    {
        let s = g0.cards@;
        let len = s.len() as int;
        let fl = faceup_len(s) as int;
        let rem = s.take(len - k);
        lemma_faceup_len(s);
        lemma_faceup_len_take(s, k);

        // The taken run is face-up and stacked: it sits inside the face-up run.
        assert forall|i: int| 0 <= i < taken.len() implies !(#[trigger] taken[i]).flipped by {
            assert(taken[i] == s[len - k + i]);
        }
        assert(cards_of(taken) =~= g0.faceup_seq().skip(fl - k));
        lemma_stacked_run_skip(g0.faceup_seq(), fl - k);

        // Conservation and the card-identity views.
        assert(self.cards_seq() =~= cards_of(rem));
        assert(cards_of(rem) =~= g0.cards_seq().take(len - k));
        assert(cards_of(s) =~= self.cards_seq() + cards_of(taken));

        // Well-formedness of the remainder.
        if rem.len() == 0 {
            assert(self.cards@ =~= rem);
        } else if fl - k > 0 {
            assert(faceup_len(rem) == fl - k);
            assert(!rem.last().flipped) by {
                lemma_faceup_len(rem);
            }
            assert(flip_up(rem.last()) == rem.last());
            assert(self.cards@ =~= rem);
            assert(self.facedown_count() == len - fl);
            assert(forall|i: int|
                0 <= i < self.facedown_count() ==> (#[trigger] self.cards@[i]).flipped);
            assert(self.faceup_seq() =~= g0.faceup_seq().take(fl - k));
            lemma_stacked_run_take(g0.faceup_seq(), fl - k);
        } else {
            // The whole face-up run left; the newly exposed top turns up.
            assert(k == fl);
            assert(rem.len() == len - fl);
            assert(forall|i: int| 0 <= i < rem.len() ==> (#[trigger] rem[i]).flipped);
            assert(self.cards@.last() == flip_up(rem.last()));
            assert(!self.cards@.last().flipped);
            assert(self.cards@.drop_last() =~= rem.drop_last());
            if rem.len() > 1 {
                assert(rem.drop_last().last() == rem[rem.len() - 2]);
                assert(rem.drop_last().last().flipped);
            }
            assert(faceup_len(self.cards@.drop_last()) == 0);
            assert(faceup_len(self.cards@) == 1);
            assert(self.facedown_count() == rem.len() - 1);
            assert(forall|i: int|
                0 <= i < self.facedown_count() ==> (#[trigger] self.cards@[i]).flipped);
            assert(self.faceup_seq().len() == 1);
            assert(stacked_run(self.faceup_seq()));
        }

        // No card turns face-down.
        assert forall|i: int|
            0 <= i < self.cards@.len() implies (!g0.cards@[i].flipped
                ==> !(#[trigger] self.cards@[i]).flipped) by {
            if i < rem.len() - 1 {
                assert(self.cards@[i] == rem[i]);
                assert(rem[i] == s[i]);
            } else if i == rem.len() - 1 {
                assert(self.cards@[i] == flip_up(rem[i]));
            }
        }
    }
}

impl CardSink for Tableau {
    open spec fn sink_phys(&self) -> Seq<PhysicalCard> {
        self.cards@
    }

    open spec fn sink_inv(&self) -> bool {
        self.wf()
    }

    open spec fn sink_id(&self) -> CardSinks {
        self.sink
    }

    open spec fn accepts(&self, run: Seq<Card>) -> bool {
        tableau_accepts(self.cards_seq(), run)
    }

    open spec fn place_req(run: Seq<PhysicalCard>) -> bool {
        &&& run.len() >= 1
        &&& stacked_run(cards_of(run))
        &&& all_face_up(run)
    }

    open spec fn query_req(run: Seq<Card>) -> bool {
        run.len() >= 1
    }

    open spec fn in_drop_bounds(&self, x: int, y: int) -> bool {
        let zy = self.y as int + STACKED_CARD_Y_STRIDE as int * (if self.cards@.len() == 0 {
            0int
        } else {
            self.cards@.len() - 1
        });
        &&& x > self.x as int
        &&& x < self.x as int + CARD_WIDTH as int
        &&& y > zy
        &&& y < zy + CARD_HEIGHT as int
    }

    fn card_sink(&self) -> (s: CardSinks) {
        self.sink
    }

    /// The drop zone follows the current top card of the stack.
    fn within_bounds(&self, x: i32, y: i32) -> (r: bool) {
        proof {
            self.lemma_wf_len();
        }
        let count = self.cards.len();
        let offset = if count > 0 {
            STACKED_CARD_Y_STRIDE * ((count - 1) as i32)
        } else {
            0
        };
        Bounds::new(self.x, self.y + offset, CARD_WIDTH, CARD_HEIGHT).contains(x, y)
    }

    fn is_placement_possible(&self, cards: &Vec<Card>) -> (b: bool) {
        let bottom = cards[0];
        if self.cards.len() == 0 {
            bottom.0 == Value::King
        } else {
            let top = self.cards[self.cards.len() - 1].card;
            match top.0.prev_value() {
                Some(v) => v == bottom.0 && top.1.colour() != bottom.1.colour(),
                None => false,
            }
        }
    }

    fn place_cards(&mut self, mouse_x: i32, mouse_y: i32, physical_cards: Vec<PhysicalCard>) -> (r:
        Result<(), ()>)
        ensures
            final(self).sink == old(self).sink,
            final(self).source == old(self).source,
            final(self).x == old(self).x,
            final(self).y == old(self).y,
            r is Ok ==> final(self).cards@.len() == old(self).cards@.len()
                + physical_cards@.len(),
            r is Ok ==> final(self).cards@.take(old(self).cards@.len() as int)
                == old(self).cards@,
            r is Ok ==> forall|j: int|
                0 <= j < physical_cards@.len() ==> #[trigger] final(self).cards@[old(
                    self,
                ).cards@.len() + j] == old(self).placed_card(
                    physical_cards@[j],
                    old(self).cards@.len() + j,
                    mouse_x as int,
                    mouse_y as int,
                ),
    {
        let ghost g0 = *self;
        let ghost run = physical_cards@;
        proof {
            g0.lemma_wf_len();
            lemma_stacked_run_len(cards_of(run));
            assert(cards_of(run).len() == run.len());
        }
        let mut ids: Vec<Card> = Vec::new();
        let mut i: usize = 0;
        while i < physical_cards.len()
            invariant
                i <= physical_cards@.len(),
                physical_cards@ == run,
                ids@ == cards_of(run).take(i as int),
            decreases physical_cards@.len() - i,
        {
            ids.push(physical_cards[i].card);
            proof {
                assert(ids@ =~= cards_of(run).take(i + 1));
            }
            i = i + 1;
        }
        proof {
            assert(ids@ =~= cards_of(run));
        }
        if self.is_placement_possible(&ids) {
            let cx = mouse_x - (CARD_WIDTH as i32) / 2;
            let cy = mouse_y - (CARD_HEIGHT as i32) / 2;
            let run_len = physical_cards.len();
            let mut j: usize = 0;
            while j < run_len
                invariant
                    j <= run_len,
                    run_len == run.len() <= 13,
                    physical_cards@ == run,
                    g0.wf(),
                    g0.cards@.len() <= 64,
                    self.sink == g0.sink,
                    self.source == g0.source,
                    self.x == g0.x,
                    self.y == g0.y,
                    coord_ok(mouse_x as int),
                    coord_ok(mouse_y as int),
                    cx == drop_point_i32(mouse_x as int, mouse_y as int).0,
                    cy == drop_point_i32(mouse_x as int, mouse_y as int).1,
                    self.cards@.len() == g0.cards@.len() + j,
                    self.cards@.take(g0.cards@.len() as int) == g0.cards@,
                    forall|jj: int|
                        0 <= jj < j ==> #[trigger] self.cards@[g0.cards@.len() + jj]
                            == g0.placed_card(
                            run[jj],
                            g0.cards@.len() + jj,
                            mouse_x as int,
                            mouse_y as int,
                        ),
                decreases run_len - j,
            {
                let mut pc = physical_cards[j];
                let pos = self.cards.len();
                pc.set_position(self.x, self.y + STACKED_CARD_Y_STRIDE * (pos as i32));
                pc.set_prev_loc(cx, cy);
                pc.set_visible(true);
                self.cards.push(pc);
                proof {
                    assert(self.cards@.take(g0.cards@.len() as int) =~= g0.cards@);
                }
                j = j + 1;
            }
            proof {
                g0.lemma_place_restores(*self, run, mouse_x as int, mouse_y as int);
            }
            Ok(())
        } else {
            Err(())
        }
    }
}

impl Tableau {
    /// The bookkeeping behind a successful `place_cards`: the run appended
    /// at the top keeps the pile well-formed and only adds those cards.
    #[verifier::rlimit(100)]
    #[verifier::spinoff_prover]
    proof fn lemma_place_restores(self, t: Tableau, run: Seq<PhysicalCard>, mouse_x: int, mouse_y: int)
        requires
            self.wf(),
            run.len() >= 1,
            stacked_run(cards_of(run)),
            all_face_up(run),
            tableau_accepts(self.cards_seq(), cards_of(run)),
            t.cards@.len() == self.cards@.len() + run.len(),
            t.cards@.take(self.cards@.len() as int) == self.cards@,
            forall|j: int|
                0 <= j < run.len() ==> #[trigger] t.cards@[self.cards@.len() + j]
                    == self.placed_card(run[j], self.cards@.len() + j, mouse_x, mouse_y),
            t.sink == self.sink,
            t.source == self.source,
            t.x == self.x,
            t.y == self.y,
        ensures
            t.wf(),
            t.cards_seq() == self.cards_seq() + cards_of(run),
    {
        let s = self.cards@;
        let len = s.len() as int;
        let fl = faceup_len(s) as int;
        let placed = Seq::new(run.len(), |j: int| self.placed_card(run[j], len + j, mouse_x, mouse_y));
        assert(t.cards@ =~= s + placed);
        assert(all_face_up(placed)) by {
            assert forall|i: int| 0 <= i < placed.len() implies !(#[trigger] placed[i]).flipped by {
                assert(!run[i].flipped);
            }
        }
        lemma_faceup_len(s);
        lemma_faceup_len_append(s, placed);
        assert(faceup_len(t.cards@) == fl + run.len());
        assert(t.cards_seq() =~= self.cards_seq() + cards_of(run));
        assert(t.facedown_count() == len - fl);
        assert(forall|i: int| 0 <= i < t.facedown_count() ==> (#[trigger] t.cards@[i]).flipped) by {
            assert forall|i: int| 0 <= i < t.facedown_count() implies (#[trigger] t.cards@[i]).flipped by {
                assert(t.cards@[i] == s[i]);
            }
        }
        // The extended face-up run still stacks.
        assert(t.faceup_seq() =~= self.faceup_seq() + cards_of(run));
        if fl > 0 {
            assert(self.faceup_seq().last() == self.cards_seq()[len - 1]);
            let top = self.cards_seq().last();
            lemma_prev_index(top.0);
            assert(cards_of(run)[0].0.index_spec() == top.0.index_spec() - 1);
        }
        lemma_stacked_run_append(self.faceup_seq(), cards_of(run));
        assert(stacked_run(t.faceup_seq()));
    }
}

} // verus!
