use vstd::prelude::*;
use vstd::seq_lib::group_to_multiset_ensures;
use vstd::multiset::{Multiset, group_multiset_axioms};
use rand::seq::SliceRandom;

use crate::card::{Card, GameError, DECK_SIZE, valid_code};

verus! {

/// The number of cards in a hand.
pub const HAND_SIZE: usize = 5;

/// The canonical deck: the codes `1..=52` in ascending order.
pub open spec fn full_deck() -> Seq<u8> {
    Seq::new(52, |i: int| (i + 1) as u8)
}

/// The codes of a sequence of cards, in order.
pub open spec fn codes(h: Seq<Card>) -> Seq<u8> {
    h.map_values(|c: Card| c.value)
}

/// Every code of `s` names a card.
pub open spec fn all_valid(s: Seq<u8>) -> bool {
    forall|i: int| 0 <= i < s.len() ==> valid_code(#[trigger] s[i] as int)
}

/// Every card of `h` is well formed.
pub open spec fn all_wf(h: Seq<Card>) -> bool {
    forall|i: int| 0 <= i < h.len() ==> (#[trigger] h[i]).wf()
}

/// A fresh deck: the codes `1..=52` in ascending order.
pub fn generate_deck() -> (deck: Vec<u8>)
    ensures
        deck@ == full_deck(),
{
    let mut deck: Vec<u8> = Vec::new();
    let mut code: u8 = 1;
    while code <= DECK_SIZE
        invariant
            1 <= code <= 53,
            deck@.len() == code - 1,
            forall|i: int| 0 <= i < deck@.len() ==> deck@[i] == i + 1,
        decreases 53 - code,
    {
        deck.push(code);
        code = code + 1;
    }
    assert(deck@ =~= full_deck());
    deck
}

/// Relies on rand's `SliceRandom::shuffle` with the thread-local generator:
/// it reorders the codes in place by swaps, so the deck keeps its length and
/// the number of times each code occurs.
#[verifier::external_body]
fn shuffle_codes(deck: &mut Vec<u8>)
    ensures
        final(deck)@.len() == old(deck)@.len(),
        final(deck)@.to_multiset() == old(deck)@.to_multiset(),
{
    deck.shuffle(&mut rand::thread_rng());
}

/// Pops five codes from the top (the end) of the deck, in that order, and
/// makes a card of each. Fails with `DeckExhausted`, leaving the deck as it
/// is, when fewer than five codes are left.
pub fn draw_hand(deck: &mut Vec<u8>) -> (r: Result<Vec<Card>, GameError>)
    requires
        all_valid(old(deck)@),
    ensures
        old(deck)@.len() < HAND_SIZE <==> r.is_err(),
        r.is_err() ==> r == Err::<Vec<Card>, GameError>(GameError::DeckExhausted)
            && final(deck)@ == old(deck)@,
        r.is_ok() ==> {
            let h = r.unwrap()@;
            let n = old(deck)@.len();
            &&& h.len() == HAND_SIZE
            &&& all_wf(h)
            &&& final(deck)@ == old(deck)@.subrange(0, n - 5)
            &&& forall|j: int| 0 <= j < 5 ==> #[trigger] h[j].value == old(deck)@[n - 1 - j]
            &&& final(deck)@.to_multiset().add(codes(h).to_multiset()) == old(deck)@.to_multiset()
        },
{
    if deck.len() < HAND_SIZE {
        return Err(GameError::DeckExhausted);
    }
    let ghost d0 = deck@;
    let ghost n = deck@.len();
    let mut cards: Vec<Card> = Vec::new();
    let mut k: usize = 0;
    proof {
        broadcast use group_to_multiset_ensures, group_multiset_axioms;
        assert(codes(cards@) =~= Seq::<u8>::empty());
        assert(deck@ =~= d0.subrange(0, n as int));
        assert(deck@.to_multiset().add(codes(cards@).to_multiset()) =~= d0.to_multiset());
    }
    while k < HAND_SIZE
        invariant
            0 <= k <= 5,
            n == d0.len(),
            n >= 5,
            all_valid(d0),
            deck@ == d0.subrange(0, n - k),
            cards@.len() == k,
            all_wf(cards@),
            forall|j: int| 0 <= j < k ==> #[trigger] cards@[j].value == d0[n - 1 - j],
            deck@.to_multiset().add(codes(cards@).to_multiset()) == d0.to_multiset(),
        decreases 5 - k,
    {
        proof {
            broadcast use group_to_multiset_ensures, group_multiset_axioms;
            assert(deck@ =~= deck@.drop_last().push(deck@.last()));
        }
        let code = deck.pop().unwrap();
        let card = Card::new(code);
        let ghost before = cards@;
        cards.push(card);
        proof {
            broadcast use group_to_multiset_ensures, group_multiset_axioms;
            assert(codes(cards@) =~= codes(before).push(code));
            assert(deck@ =~= d0.subrange(0, n - k - 1));
            assert(deck@.to_multiset().add(codes(cards@).to_multiset()) =~= d0.to_multiset());
        }
        k = k + 1;
    }
    Ok(cards)
}

/// Shuffles the deck into a random order, then deals a hand as `draw_hand`
/// does. Fails with `DeckExhausted`, leaving the deck as it is, when fewer than
/// five codes are left.
pub fn deal(deck: &mut Vec<u8>) -> (r: Result<Vec<Card>, GameError>)
    requires
        all_valid(old(deck)@),
    ensures
        old(deck)@.len() < HAND_SIZE <==> r.is_err(),
        r.is_err() ==> r == Err::<Vec<Card>, GameError>(GameError::DeckExhausted)
            && final(deck)@ == old(deck)@,
        r.is_ok() ==> {
            let h = r.unwrap()@;
            &&& h.len() == HAND_SIZE
            &&& all_wf(h)
            &&& final(deck)@.len() == old(deck)@.len() - 5
            &&& all_valid(final(deck)@)
            &&& final(deck)@.to_multiset().add(codes(h).to_multiset()) == old(deck)@.to_multiset()
            &&& old(deck)@.no_duplicates() ==> codes(h).no_duplicates()
        },
{
    if deck.len() < HAND_SIZE {
        return Err(GameError::DeckExhausted);
    }
    let ghost d0 = deck@;
    shuffle_codes(deck);
    proof {
        lemma_same_multiset_valid(d0, deck@);
    }
    let r = draw_hand(deck);
    proof {
        let h = r.unwrap()@;
        assert(all_valid(deck@));
        if d0.no_duplicates() {
            lemma_sub_multiset_no_duplicates(d0, deck@, codes(h));
        }
    }
    r
}

/// Two sequences with the same codes in some order are valid together.
proof fn lemma_same_multiset_valid(a: Seq<u8>, b: Seq<u8>)
    requires
        all_valid(a),
        a.to_multiset() == b.to_multiset(),
    ensures
        all_valid(b),
{
    broadcast use group_to_multiset_ensures;
    assert forall|i: int| 0 <= i < b.len() implies valid_code(#[trigger] b[i] as int) by {
        assert(b.to_multiset().count(b[i]) > 0);
        assert(a.contains(b[i]));
    }
}

/// A part of a sequence without duplicates has none either.
proof fn lemma_sub_multiset_no_duplicates(whole: Seq<u8>, rest: Seq<u8>, part: Seq<u8>)
    requires
        whole.no_duplicates(),
        rest.to_multiset().add(part.to_multiset()) == whole.to_multiset(),
    ensures
        part.no_duplicates(),
{
    broadcast use group_to_multiset_ensures, group_multiset_axioms;
    whole.lemma_multiset_has_no_duplicates();
    assert forall|x: u8| part.to_multiset().contains(x) implies part.to_multiset().count(x) == 1 by {
        assert(whole.to_multiset().count(x) == rest.to_multiset().count(x) + part.to_multiset().count(x));
        assert(whole.to_multiset().contains(x));
    }
    part.lemma_multiset_has_no_duplicates_conv();
}

/// The positions of an exchange: each names a slot of the hand, none twice.
pub open spec fn valid_indices(idx: Seq<usize>) -> bool {
    &&& forall|t: int| 0 <= t < idx.len() ==> #[trigger] idx[t] < HAND_SIZE
    &&& idx.no_duplicates()
}

/// Whether `idx` holds a position, so that the exchange replaces its card.
pub open spec fn selected(idx: Seq<usize>, p: int) -> bool {
    exists|t: int| 0 <= t < idx.len() && idx[t] as int == p
}

/// Whether the positions are all in the hand and distinct.
fn check_indices(idx: &Vec<usize>) -> (b: bool)
    ensures
        b == valid_indices(idx@),
{
    let mut a: usize = 0;
    while a < idx.len()
        invariant
            0 <= a <= idx@.len(),
            forall|t: int| 0 <= t < a ==> #[trigger] idx@[t] < HAND_SIZE,
            forall|s: int, t: int| 0 <= s < a && 0 <= t < idx@.len() && s != t ==> idx@[s] != idx@[t],
        decreases idx@.len() - a,
    {
        if idx[a] >= HAND_SIZE {
            return false;
        }
        let mut b: usize = 0;
        while b < idx.len()
            invariant
                0 <= a < idx@.len(),
                0 <= b <= idx@.len(),
                forall|t: int| 0 <= t < b && t != a ==> idx@[a as int] != idx@[t],
            decreases idx@.len() - b,
        {
            if b != a && idx[a] == idx[b] {
                return false;
            }
            b = b + 1;
        }
        a = a + 1;
    }
    true
}

/// Exchanges the cards at the given positions of the hand, in the order
/// given: each old card's code goes to the returned discard list and a code
/// popped from the top of the deck becomes the new card in its place.
/// Fails with `IndexOutOfRange` when a position is outside the hand or given
/// twice, else with `DeckExhausted` when the deck holds fewer codes than
/// positions; on failure nothing changes.
pub fn change_cards(deck: &mut Vec<u8>, hand: &mut Vec<Card>, to_change: &Vec<usize>) -> (r: Result<Vec<u8>, GameError>)
    requires
        all_valid(old(deck)@),
        old(hand)@.len() == HAND_SIZE,
        all_wf(old(hand)@),
    ensures
        !valid_indices(to_change@) ==> r == Err::<Vec<u8>, GameError>(GameError::IndexOutOfRange),
        valid_indices(to_change@) && old(deck)@.len() < to_change@.len()
            ==> r == Err::<Vec<u8>, GameError>(GameError::DeckExhausted),
        r.is_err() ==> final(deck)@ == old(deck)@ && final(hand)@ == old(hand)@,
        valid_indices(to_change@) && to_change@.len() <= old(deck)@.len() ==> r.is_ok(),
        r.is_ok() ==> {
            let idx = to_change@;
            let k = idx.len();
            let n = old(deck)@.len();
            let d = r.unwrap()@;
            &&& final(deck)@ == old(deck)@.subrange(0, n - k)
            &&& all_valid(final(deck)@)
            &&& final(hand)@.len() == HAND_SIZE
            &&& all_wf(final(hand)@)
            &&& d.len() == k
            &&& forall|t: int| 0 <= t < k ==> #[trigger] d[t] == old(hand)@[idx[t] as int].value
            &&& forall|t: int| 0 <= t < k ==> #[trigger] final(hand)@[idx[t] as int].value == old(deck)@[n - 1 - t]
            &&& forall|p: int| 0 <= p < HAND_SIZE && !selected(idx, p) ==> #[trigger] final(hand)@[p] == old(hand)@[p]
            &&& final(deck)@.to_multiset().add(codes(final(hand)@).to_multiset()).add(d.to_multiset())
                == old(deck)@.to_multiset().add(codes(old(hand)@).to_multiset())
        },
{
    if !check_indices(to_change) {
        return Err(GameError::IndexOutOfRange);
    }
    if deck.len() < to_change.len() {
        return Err(GameError::DeckExhausted);
    }
    let ghost d0 = deck@;
    let ghost h0 = hand@;
    let ghost n = deck@.len();
    let ghost idx = to_change@;
    let mut discarded: Vec<u8> = Vec::new();
    let mut j: usize = 0;
    proof {
        broadcast use group_to_multiset_ensures, group_multiset_axioms;
        assert(deck@ =~= d0.subrange(0, n as int));
        assert(discarded@.to_multiset() =~= Multiset::empty());
        assert(deck@.to_multiset().add(codes(hand@).to_multiset()).add(discarded@.to_multiset())
            =~= d0.to_multiset().add(codes(h0).to_multiset()));
    }
    while j < to_change.len()
        invariant
            idx == to_change@,
            valid_indices(idx),
            0 <= j <= idx.len(),
            n == d0.len(),
            idx.len() <= n,
            all_valid(d0),
            h0.len() == HAND_SIZE,
            deck@ == d0.subrange(0, n - j),
            hand@.len() == HAND_SIZE,
            all_wf(hand@),
            forall|t: int| 0 <= t < j ==> #[trigger] hand@[idx[t] as int].value == d0[n - 1 - t],
            forall|p: int| 0 <= p < HAND_SIZE && !(exists|t: int| 0 <= t < j && idx[t] as int == p)
                ==> #[trigger] hand@[p] == h0[p],
            discarded@.len() == j,
            forall|t: int| 0 <= t < j ==> #[trigger] discarded@[t] == h0[idx[t] as int].value,
            deck@.to_multiset().add(codes(hand@).to_multiset()).add(discarded@.to_multiset())
                == d0.to_multiset().add(codes(h0).to_multiset()),
        decreases idx.len() - j,
    {
        let i = to_change[j];
        proof {
            broadcast use group_to_multiset_ensures, group_multiset_axioms;
            assert(deck@ =~= deck@.drop_last().push(deck@.last()));
            assert(!(exists|t: int| 0 <= t < j && idx[t] as int == i as int)) by {
                if exists|t: int| 0 <= t < j && idx[t] as int == i as int {
                    let t = choose|t: int| 0 <= t < j && idx[t] as int == i as int;
                    assert(idx[t] == idx[j as int]);
                }
            }
        }
        let old_value = hand[i].value;
        let code = deck.pop().unwrap();
        let ghost hand_before = hand@;
        let ghost disc_before = discarded@;
        let ghost deck_before = deck@;
        hand[i] = Card::new(code);
        discarded.push(old_value);
        proof {
            broadcast use group_to_multiset_ensures, group_multiset_axioms;
            assert(hand@ == hand_before.update(i as int, hand@[i as int]));
            assert(codes(hand@) =~= codes(hand_before).update(i as int, code));
            assert(codes(hand_before)[i as int] == old_value);
            assert(codes(hand_before).to_multiset().count(old_value) > 0);
            assert(deck@ =~= d0.subrange(0, n - j - 1));
            assert forall|p: int| 0 <= p < HAND_SIZE && !(exists|t: int| 0 <= t < j + 1 && idx[t] as int == p)
                implies #[trigger] hand@[p] == h0[p] by {
                assert(idx[j as int] as int != p);
            }
            assert forall|t: int| 0 <= t < j + 1 implies #[trigger] hand@[idx[t] as int].value == d0[n - 1 - t] by {
                if t < j {
                    assert(idx[t] != idx[j as int]);
                }
            }
            assert(deck@.to_multiset().add(codes(hand@).to_multiset()).add(discarded@.to_multiset())
                =~= d0.to_multiset().add(codes(h0).to_multiset()));
        }
        j = j + 1;
    }
    proof {
        assert forall|p: int| 0 <= p < HAND_SIZE && !selected(idx, p) implies #[trigger] hand@[p] == h0[p] by {
            assert(!(exists|t: int| 0 <= t < j && idx[t] as int == p));
        }
        assert(all_valid(deck@));
    }
    Ok(discarded)
}

/// Puts the discard pile, then the codes of the hand, back on top of the deck,
/// and empties both.
pub fn reset_deck(deck: &mut Vec<u8>, hand: &mut Vec<Card>, discarded: &mut Vec<u8>)
    ensures
        final(deck)@ == old(deck)@ + old(discarded)@ + codes(old(hand)@),
        final(hand)@.len() == 0,
        final(discarded)@.len() == 0,
{
    let ghost h0 = hand@;
    deck.append(discarded);
    let ghost base = deck@;
    let mut i: usize = 0;
    while i < hand.len()
        invariant
            hand@ == h0,
            0 <= i <= h0.len(),
            deck@ == base + codes(h0).subrange(0, i as int),
        decreases h0.len() - i,
    {
        deck.push(hand[i].value);
        i = i + 1;
        assert(deck@ =~= base + codes(h0).subrange(0, i as int));
    }
    assert(deck@ =~= base + codes(h0));
    hand.clear();
    discarded.clear();
}

/// The deck, the hand and the discard pile together hold each of the 52 codes
/// exactly once.
pub open spec fn partition(deck: Seq<u8>, hand: Seq<Card>, discard: Seq<u8>) -> bool {
    deck.to_multiset().add(codes(hand).to_multiset()).add(discard.to_multiset())
        == full_deck().to_multiset()
}

/// The canonical deck holds each code in `1..=52` once and nothing else.
pub proof fn lemma_full_deck_count(x: u8)
    ensures
        full_deck().to_multiset().count(x) == (if valid_code(x as int) { 1nat } else { 0nat }),
{
    broadcast use group_to_multiset_ensures;
    let f = full_deck();
    assert(f.no_duplicates());
    f.lemma_multiset_has_no_duplicates();
    if valid_code(x as int) {
        assert(f[x - 1] == x);
        assert(f.contains(x));
    } else {
        assert(!f.contains(x));
    }
}

/// Once the discard pile and the hand are put back, a deck that with them held
/// each of the 52 codes once holds each of them once again, and its set of
/// codes is `1..=52`.
pub proof fn lemma_reset_restores_full_deck(deck: Seq<u8>, hand: Seq<Card>, discard: Seq<u8>)
    requires
        partition(deck, hand, discard),
    ensures
        (deck + discard + codes(hand)).to_multiset() == full_deck().to_multiset(),
        (deck + discard + codes(hand)).to_set() == Set::new(|x: u8| valid_code(x as int)),
{
    broadcast use group_to_multiset_ensures, group_multiset_axioms;
    let s = deck + discard + codes(hand);
    vstd::seq_lib::lemma_multiset_commutative(deck, discard);
    vstd::seq_lib::lemma_multiset_commutative(deck + discard, codes(hand));
    assert(s.to_multiset() =~= full_deck().to_multiset());
    assert forall|x: u8| s.to_set().contains(x) <==> valid_code(x as int) by {
        lemma_full_deck_count(x);
        assert(s.to_set().contains(x) <==> s.contains(x));
    }
    assert(s.to_set() =~= Set::new(|x: u8| valid_code(x as int)));
}

/// Every code of a deck, hand and discard pile that hold each card once
/// names a card.
pub proof fn lemma_partition_valid(deck: Seq<u8>, hand: Seq<Card>, discard: Seq<u8>)
    requires
        partition(deck, hand, discard),
    ensures
        all_valid(deck),
        all_valid(discard),
{
    broadcast use group_to_multiset_ensures, group_multiset_axioms;
    assert forall|i: int| 0 <= i < deck.len() implies valid_code(#[trigger] deck[i] as int) by {
        assert(deck.to_multiset().count(deck[i]) > 0);
        lemma_full_deck_count(deck[i]);
    }
    assert forall|i: int| 0 <= i < discard.len() implies valid_code(#[trigger] discard[i] as int) by {
        assert(discard.to_multiset().count(discard[i]) > 0);
        lemma_full_deck_count(discard[i]);
    }
}

} // verus!
