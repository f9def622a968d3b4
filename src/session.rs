use vstd::prelude::*;
use vstd::seq_lib::group_to_multiset_ensures;
use vstd::multiset::group_multiset_axioms;

use crate::card::{Card, GameError, valid_code};
use crate::deck::{
    HAND_SIZE, all_valid, all_wf, change_cards, codes, deal, full_deck, generate_deck,
    lemma_full_deck_count, lemma_partition_valid, partition, reset_deck, selected,
};
use crate::hand::{check_hand, hand_score};

verus! {

/// The most positions that can be selected for an exchange.
pub const MAX_SELECTED: usize = 3;

/// What a game session holds, as plain values.
pub struct SessionView {
    pub deck: Seq<u8>,
    pub hand: Seq<Card>,
    pub discard: Seq<u8>,
    pub selection: Seq<usize>,
    pub score: u64,
    pub scored: Seq<Card>,
}

/// The selection after toggling position `i`: a selected position leaves it;
/// a new one joins at the end, after the oldest leaves if three are selected.
pub open spec fn toggled(sel: Seq<usize>, i: usize) -> Seq<usize> {
    if sel.contains(i) {
        sel.remove(sel.index_of(i))
    } else if sel.len() >= MAX_SELECTED {
        sel.drop_first().push(i)
    } else {
        sel.push(i)
    }
}

/// The codes of the hand once the selected positions are exchanged: the
/// `t`-th selected position takes the `t`-th code from the top of the deck.
pub open spec fn exchanged(deck: Seq<u8>, hand: Seq<u8>, sel: Seq<usize>) -> Seq<u8> {
    Seq::new(
        hand.len(),
        |p: int|
            if sel.contains(p as usize) {
                deck[deck.len() - 1 - sel.index_of(p as usize)]
            } else {
                hand[p]
            },
    )
}

/// The selection names distinct positions of the hand, at most three.
pub open spec fn valid_selection(sel: Seq<usize>) -> bool {
    &&& sel.len() <= MAX_SELECTED
    &&& sel.no_duplicates()
    &&& forall|t: int| 0 <= t < sel.len() ==> #[trigger] sel[t] < HAND_SIZE
}

/// The invariant of a session: the deck, the hand and the discard pile hold
/// each of the 52 codes once; the hand is empty (idle) or holds five
/// well-formed cards (dealt); only a dealt hand has a selection.
pub open spec fn session_inv(v: SessionView) -> bool {
    &&& partition(v.deck, v.hand, v.discard)
    &&& v.discard.len() == 0
    &&& v.hand.len() == 0 || v.hand.len() == HAND_SIZE
    &&& all_wf(v.hand)
    &&& all_wf(v.scored)
    &&& valid_selection(v.selection)
    &&& v.hand.len() == 0 ==> v.selection.len() == 0
}

/// Adds points to a score, stopping at the largest value a score can hold.
pub open spec fn add_points(score: u64, points: int) -> u64 {
    if score + points <= u64::MAX {
        (score + points) as u64
    } else {
        u64::MAX
    }
}

/// A round of five-card draw: the deck, the hand, the discard pile, the
/// positions selected for exchange, the running score and the hand that the
/// last round scored.
pub struct GameSession {
    deck: Vec<u8>,
    hand: Vec<Card>,
    discarded: Vec<u8>,
    selection: Vec<usize>,
    score: u64,
    scored: Vec<Card>,
}

impl View for GameSession {
    type V = SessionView;

    closed spec fn view(&self) -> SessionView {
        SessionView {
            deck: self.deck@,
            hand: self.hand@,
            discard: self.discarded@,
            selection: self.selection@,
            score: self.score,
            scored: self.scored@,
        }
    }
}

impl GameSession {
    /// The session keeps its invariant.
    pub open spec fn wf(&self) -> bool {
        session_inv(self@)
    }

    /// No hand is dealt.
    pub open spec fn idle(&self) -> bool {
        self@.hand.len() == 0
    }

    /// A fresh session: a canonical deck, no hand, no selection, score 0.
    pub fn new() -> (s: GameSession)
        ensures
            s.wf(),
            s@.deck == full_deck(),
            s@.hand.len() == 0,
            s@.discard.len() == 0,
            s@.selection.len() == 0,
            s@.score == 0,
            s@.scored.len() == 0,
    {
        let s = GameSession {
            deck: generate_deck(),
            hand: Vec::new(),
            discarded: Vec::new(),
            selection: Vec::new(),
            score: 0,
            scored: Vec::new(),
        };
        proof {
            broadcast use group_to_multiset_ensures, group_multiset_axioms;
            assert(codes(s.hand@) =~= Seq::<u8>::empty());
            assert(s@.deck.to_multiset().add(codes(s@.hand).to_multiset()).add(s@.discard.to_multiset())
                =~= full_deck().to_multiset());
        }
        s
    }

    /// Deals a hand from the shuffled deck. Only an idle session can deal;
    /// otherwise it fails with `InvalidStateTransition` and changes nothing.
    pub fn deal(&mut self) -> (r: Result<(), GameError>)
        requires
            old(self).wf(),
        ensures
            final(self).wf(),
            old(self).idle() <==> r.is_ok(),
            r.is_err() ==> r == Err::<(), GameError>(GameError::InvalidStateTransition)
                && final(self)@ == old(self)@,
            r.is_ok() ==> {
                &&& final(self)@.hand.len() == HAND_SIZE
                &&& final(self)@.deck.len() == old(self)@.deck.len() - 5
                &&& final(self)@.deck.to_multiset().add(codes(final(self)@.hand).to_multiset())
                    == old(self)@.deck.to_multiset()
                &&& codes(final(self)@.hand).no_duplicates()
                &&& final(self)@.selection.len() == 0
                &&& final(self)@.discard.len() == 0
                &&& final(self)@.score == old(self)@.score
                &&& final(self)@.scored == old(self)@.scored
            },
    {
        if self.hand.len() != 0 {
            return Err(GameError::InvalidStateTransition);
        }
        proof {
            broadcast use group_to_multiset_ensures, group_multiset_axioms;
            lemma_partition_valid(self.deck@, self.hand@, self.discarded@);
            assert(codes(self.hand@) =~= Seq::<u8>::empty());
            assert(self.deck@.to_multiset() =~= full_deck().to_multiset());
            assert(self.deck@.to_multiset().len() == self.deck@.len());
            assert(full_deck().to_multiset().len() == full_deck().len());
            assert(self.deck@.len() == 52);
            assert(full_deck().no_duplicates());
            lemma_same_multiset_no_duplicates(full_deck(), self.deck@);
        }
        let r = deal(&mut self.deck);
        match r {
            Ok(h) => {
                self.hand = h;
                self.selection = Vec::new();
                proof {
                    broadcast use group_to_multiset_ensures, group_multiset_axioms;
                    assert(self@.deck.to_multiset().add(codes(self@.hand).to_multiset()).add(
                        self@.discard.to_multiset()) =~= full_deck().to_multiset());
                }
                Ok(())
            },
            Err(e) => Err(e),
        }
    }

    /// Selects a position of the dealt hand for exchange, or unselects it when
    /// it is selected. A fourth selection pushes out the oldest. Fails with
    /// `InvalidStateTransition` when idle, else with `IndexOutOfRange` for a
    /// position outside the hand; on failure nothing changes.
    pub fn toggle_select(&mut self, index: usize) -> (r: Result<(), GameError>)
        requires
            old(self).wf(),
        ensures
            final(self).wf(),
            old(self).idle() ==> r == Err::<(), GameError>(GameError::InvalidStateTransition),
            !old(self).idle() && index >= HAND_SIZE
                ==> r == Err::<(), GameError>(GameError::IndexOutOfRange),
            r.is_err() ==> final(self)@ == old(self)@,
            !old(self).idle() && index < HAND_SIZE ==> {
                &&& r.is_ok()
                &&& final(self)@.selection == toggled(old(self)@.selection, index)
                &&& final(self)@.deck == old(self)@.deck
                &&& final(self)@.hand == old(self)@.hand
                &&& final(self)@.discard == old(self)@.discard
                &&& final(self)@.score == old(self)@.score
                &&& final(self)@.scored == old(self)@.scored
            },
    {
        if self.hand.len() == 0 {
            return Err(GameError::InvalidStateTransition);
        }
        if index >= HAND_SIZE {
            return Err(GameError::IndexOutOfRange);
        }
        let ghost sel = self.selection@;
        let mut pos: usize = 0;
        while pos < self.selection.len() && self.selection[pos] != index
            invariant
                sel == self.selection@,
                0 <= pos <= sel.len(),
                forall|t: int| 0 <= t < pos ==> #[trigger] sel[t] != index,
            decreases sel.len() - pos,
        {
            pos = pos + 1;
        }
        if pos < self.selection.len() {
            proof {
                assert(sel.contains(index));
                let j = sel.index_of(index);
                assert(sel[j] == sel[pos as int]);
            }
            self.selection.remove(pos);
            proof {
                assert(self.selection@ =~= sel.remove(pos as int));
            }
        } else {
            proof {
                assert(!sel.contains(index));
            }
            if self.selection.len() >= MAX_SELECTED {
                self.selection.remove(0);
                assert(self.selection@ =~= sel.drop_first());
            }
            self.selection.push(index);
        }
        proof {
            let s2 = self.selection@;
            assert(s2 == toggled(sel, index));
            assert forall|t: int| 0 <= t < s2.len() implies #[trigger] s2[t] < HAND_SIZE by {
                if sel.contains(index) {
                    let p = sel.index_of(index);
                    if t < p {
                        assert(s2[t] == sel[t]);
                    } else {
                        assert(s2[t] == sel[t + 1]);
                    }
                } else if sel.len() >= MAX_SELECTED {
                    if t < s2.len() - 1 {
                        assert(s2[t] == sel[t + 1]);
                    }
                } else if t < s2.len() - 1 {
                    assert(s2[t] == sel[t]);
                }
            }
            assert(s2.no_duplicates()) by {
                assert forall|a: int, b: int| 0 <= a < s2.len() && 0 <= b < s2.len() && a != b
                    implies s2[a] != s2[b] by {
                    if sel.contains(index) {
                        let p = sel.index_of(index);
                        let a1 = if a < p { a } else { a + 1 };
                        let b1 = if b < p { b } else { b + 1 };
                        assert(s2[a] == sel[a1]);
                        assert(s2[b] == sel[b1]);
                    } else if sel.len() >= MAX_SELECTED {
                        if a < s2.len() - 1 && b < s2.len() - 1 {
                            assert(s2[a] == sel[a + 1]);
                            assert(s2[b] == sel[b + 1]);
                        } else if a < s2.len() - 1 {
                            assert(s2[a] == sel[a + 1]);
                        } else {
                            assert(s2[b] == sel[b + 1]);
                        }
                    } else {
                        if a < s2.len() - 1 && b < s2.len() - 1 {
                            assert(s2[a] == sel[a]);
                            assert(s2[b] == sel[b]);
                        } else if a < s2.len() - 1 {
                            assert(s2[a] == sel[a]);
                        } else {
                            assert(s2[b] == sel[b]);
                        }
                    }
                }
            }
        }
        Ok(())
    }

    /// Ends the round: exchanges the selected cards, scores the hand, adds the
    /// points to the running score and returns them, keeps the scored hand,
    /// then puts the discard pile and the hand's codes back on the deck. Fails with `InvalidStateTransition`
    /// when idle, and then changes nothing.
    pub fn commit(&mut self) -> (r: Result<i32, GameError>)
        requires
            old(self).wf(),
        ensures
            final(self).wf(),
            old(self).idle() <==> r.is_err(),
            r.is_err() ==> r == Err::<i32, GameError>(GameError::InvalidStateTransition)
                && final(self)@ == old(self)@,
            r.is_ok() ==> {
                let points = r.unwrap();
                &&& final(self)@.scored.len() == HAND_SIZE
                &&& codes(final(self)@.scored)
                    == exchanged(old(self)@.deck, codes(old(self)@.hand), old(self)@.selection)
                &&& points as int == hand_score(final(self)@.scored)
                &&& final(self)@.score == add_points(old(self)@.score, points as int)
                &&& final(self)@.deck.to_multiset() == full_deck().to_multiset()
                &&& final(self)@.hand.len() == 0
                &&& final(self)@.discard.len() == 0
                &&& final(self)@.selection.len() == 0
            },
    {
        if self.hand.len() == 0 {
            return Err(GameError::InvalidStateTransition);
        }
        let ghost d0 = self.deck@;
        let ghost h0 = self.hand@;
        let ghost sel = self.selection@;
        let ghost disc0 = self.discarded@;
        proof {
            lemma_partition_len(self.deck@, self.hand@, self.discarded@);
            lemma_partition_valid(self.deck@, self.hand@, self.discarded@);
        }
        if self.selection.len() > 0 {
            let r = change_cards(&mut self.deck, &mut self.hand, &self.selection);
            match r {
                Ok(d) => {
                    self.discarded = d;
                },
                Err(e) => {
                    return Err(e);
                },
            }
            self.selection = Vec::new();
        }
        proof {
            broadcast use group_to_multiset_ensures, group_multiset_axioms;
            let n = d0.len();
            let c0 = codes(h0);
            assert forall|p: int| 0 <= p < HAND_SIZE implies #[trigger] codes(self.hand@)[p]
                == exchanged(d0, c0, sel)[p] by {
                if sel.contains(p as usize) {
                    let t = sel.index_of(p as usize);
                    assert(sel[t] as int == p);
                } else {
                    assert(!selected(sel, p)) by {
                        if selected(sel, p) {
                            let t = choose|t: int| 0 <= t < sel.len() && sel[t] as int == p;
                            assert(sel[t] == p as usize);
                        }
                    }
                }
            }
            assert(codes(self.hand@) =~= exchanged(d0, c0, sel));
            assert(disc0 =~= Seq::<u8>::empty());
            assert(disc0.to_multiset() =~= vstd::multiset::Multiset::empty());
            assert(d0.to_multiset().add(c0.to_multiset()).add(disc0.to_multiset())
                =~= d0.to_multiset().add(c0.to_multiset()));
            assert(partition(self.deck@, self.hand@, self.discarded@));
        }
        let points = check_hand(&self.hand);
        let p = points as u64;
        if self.score <= u64::MAX - p {
            self.score = self.score + p;
        } else {
            self.score = u64::MAX;
        }
        let ghost h1 = self.hand@;
        let ghost deck1 = self.deck@;
        let ghost disc1 = self.discarded@;
        let mut returned = copy_cards(&self.hand);
        std::mem::swap(&mut self.scored, &mut self.hand);
        self.hand.clear();
        reset_deck(&mut self.deck, &mut returned, &mut self.discarded);
        proof {
            broadcast use group_to_multiset_ensures, group_multiset_axioms;
            crate::deck::lemma_reset_restores_full_deck(deck1, h1, disc1);
            assert(codes(self.hand@) =~= Seq::<u8>::empty());
            assert(self.discarded@ =~= Seq::<u8>::empty());
            assert(self@.deck.to_multiset().add(codes(self@.hand).to_multiset()).add(
                self@.discard.to_multiset()) =~= full_deck().to_multiset());
            assert(self.selection@.len() == 0);
        }
        Ok(points)
    }

    /// Whether no hand is dealt.
    pub fn is_idle(&self) -> (r: bool)
        ensures
            r == self.idle(),
    {
        self.hand.len() == 0
    }

    /// The codes left in the deck; the top is the end.
    pub fn deck(&self) -> (r: &Vec<u8>)
        ensures
            r@ == self@.deck,
    {
        &self.deck
    }

    /// The dealt hand, empty when idle.
    pub fn hand(&self) -> (r: &Vec<Card>)
        ensures
            r@ == self@.hand,
    {
        &self.hand
    }

    /// The positions selected for exchange, oldest first.
    pub fn selection(&self) -> (r: &Vec<usize>)
        ensures
            r@ == self@.selection,
    {
        &self.selection
    }

    /// The hand that the last round scored, empty before the first.
    pub fn last_hand(&self) -> (r: &Vec<Card>)
        ensures
            r@ == self@.scored,
    {
        &self.scored
    }

    /// The running score.
    pub fn score(&self) -> (r: u64)
        ensures
            r == self@.score,
    {
        self.score
    }
}

/// In every state a session can reach, the deck, the hand and the discard
/// pile together hold each code of `1..=52` exactly once, and nothing else.
pub proof fn lemma_session_holds_each_card_once(s: GameSession)
    requires
        s.wf(),
    ensures
        forall|x: u8| #[trigger] s@.deck.to_multiset().add(codes(s@.hand).to_multiset()).add(
            s@.discard.to_multiset()).count(x) == (if valid_code(x as int) { 1nat } else { 0nat }),
{
    assert forall|x: u8| #[trigger] s@.deck.to_multiset().add(codes(s@.hand).to_multiset()).add(
        s@.discard.to_multiset()).count(x) == (if valid_code(x as int) { 1nat } else { 0nat }) by {
        lemma_full_deck_count(x);
    }
}

/// New cards with the codes of the given ones, in the same order.
fn copy_cards(h: &Vec<Card>) -> (r: Vec<Card>)
    requires
        all_wf(h@),
    ensures
        codes(r@) == codes(h@),
        all_wf(r@),
{
    let mut r: Vec<Card> = Vec::new();
    let mut i: usize = 0;
    while i < h.len()
        invariant
            0 <= i <= h@.len(),
            all_wf(h@),
            r@.len() == i,
            all_wf(r@),
            forall|t: int| 0 <= t < i ==> #[trigger] r@[t].value == h@[t].value,
        decreases h@.len() - i,
    {
        r.push(Card::new(h[i].value));
        i = i + 1;
    }
    assert(codes(r@) =~= codes(h@));
    r
}

/// A deck, a hand and a discard pile that hold each card once hold 52 codes.
proof fn lemma_partition_len(deck: Seq<u8>, hand: Seq<Card>, discard: Seq<u8>)
    requires
        partition(deck, hand, discard),
    ensures
        deck.len() + hand.len() + discard.len() == 52,
{
    broadcast use group_to_multiset_ensures, group_multiset_axioms;
    let c = codes(hand);
    vstd::seq_lib::lemma_multiset_commutative(deck, c);
    vstd::seq_lib::lemma_multiset_commutative(deck + c, discard);
    assert((deck + c + discard).to_multiset() == full_deck().to_multiset());
    assert((deck + c + discard).to_multiset().len() == (deck + c + discard).len());
    assert(full_deck().to_multiset().len() == 52);
}

/// Two sequences with the same elements, each as often: one has no duplicates
/// when the other has none.
proof fn lemma_same_multiset_no_duplicates(a: Seq<u8>, b: Seq<u8>)
    requires
        a.no_duplicates(),
        a.to_multiset() == b.to_multiset(),
    ensures
        b.no_duplicates(),
{
    a.lemma_multiset_has_no_duplicates();
    b.lemma_multiset_has_no_duplicates_conv();
}

} // verus!
