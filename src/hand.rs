use vstd::prelude::*;
use vstd::seq_lib::group_to_multiset_ensures;
use vstd::multiset::{Multiset, group_multiset_axioms};

use crate::card::{Card, rank_of, suit_of};
use crate::deck::{HAND_SIZE, all_wf};

verus! {

/// The rank of each card of a hand, in order.
pub open spec fn rank_seq(h: Seq<Card>) -> Seq<int> {
    h.map_values(|c: Card| rank_of(c.value as int))
}

/// The suit of each card of a hand, in order.
pub open spec fn suit_seq(h: Seq<Card>) -> Seq<int> {
    h.map_values(|c: Card| suit_of(c.value as int))
}

/// The ranks of the cards of a hand, each counted as often as it occurs.
pub open spec fn hand_ranks(h: Seq<Card>) -> Multiset<int> {
    rank_seq(h).to_multiset()
}

/// The suits of the cards of a hand, each counted as often as it occurs.
pub open spec fn hand_suits(h: Seq<Card>) -> Multiset<int> {
    suit_seq(h).to_multiset()
}

/// The ranks among `1..=n` that occur in `m`, in ascending order.
pub open spec fn ranks_present(m: Multiset<int>, n: int) -> Seq<u8>
    decreases n,
{
    if n <= 0 {
        Seq::empty()
    } else if m.count(n) > 0 {
        ranks_present(m, n - 1).push(n as u8)
    } else {
        ranks_present(m, n - 1)
    }
}

/// How many ranks among `1..=n` occur exactly `k` times in `m`.
pub open spec fn ranks_with_count(m: Multiset<int>, k: nat, n: int) -> nat
    decreases n,
{
    if n <= 0 {
        0
    } else if m.count(n) == k {
        ranks_with_count(m, k, n - 1) + 1
    } else {
        ranks_with_count(m, k, n - 1)
    }
}

/// How many suits among `0..n` occur in `m`.
pub open spec fn suits_present(m: Multiset<int>, n: int) -> nat
    decreases n,
{
    if n <= 0 {
        0
    } else if m.count(n - 1) > 0 {
        suits_present(m, n - 1) + 1
    } else {
        suits_present(m, n - 1)
    }
}

/// Each value is one more than the value before it.
pub open spec fn consecutive(s: Seq<u8>) -> bool {
    forall|i: int| 0 <= i < s.len() - 1 ==> #[trigger] s[i + 1] as int == s[i] as int + 1
}

/// The five ranks, sorted, follow each other with the Ace low.
pub open spec fn low_straight(h: Seq<Card>) -> bool {
    let ks = ranks_present(hand_ranks(h), 13);
    ks.len() == 5 && consecutive(ks)
}

/// The five ranks, sorted with the Ace counted as 14, follow each other.
pub open spec fn high_straight(h: Seq<Card>) -> bool {
    let ks = ranks_present(hand_ranks(h), 13);
    ks.len() == 5 && ks[0] == 1 && consecutive(ks.drop_first().push(14))
}

/// All five cards share one suit.
pub open spec fn flush(h: Seq<Card>) -> bool {
    suits_present(hand_suits(h), 4) == 1
}

/// The score of a hand, the first that applies of: Four of a Kind 20, Full
/// House 18, Straight Flush 30 (40, a Royal Flush, when the Ace closes it
/// high), Flush 15, Straight 10, Three of a Kind 5, Two Pair 3, Pair 1;
/// else 0.
pub open spec fn hand_score(h: Seq<Card>) -> int {
    let m = hand_ranks(h);
    if ranks_with_count(m, 4, 13) > 0 {
        20
    } else if ranks_present(m, 13).len() == 2 {
        18
    } else if flush(h) && low_straight(h) {
        30
    } else if flush(h) && high_straight(h) {
        40
    } else if flush(h) {
        15
    } else if low_straight(h) || high_straight(h) {
        10
    } else if ranks_with_count(m, 3, 13) > 0 {
        5
    } else if ranks_with_count(m, 2, 13) == 2 {
        3
    } else if ranks_with_count(m, 2, 13) == 1 {
        1
    } else {
        0
    }
}

/// Whether each value is one more than the one before it. The values must
/// be at least 1, and there must be at least one.
pub fn straight(hand: &[u8]) -> (r: bool)
    requires
        hand@.len() >= 1,
        forall|i: int| 0 <= i < hand@.len() ==> #[trigger] hand@[i] >= 1,
    ensures
        r == consecutive(hand@),
{
    let mut past: u8 = hand[0] - 1;
    let mut i: usize = 0;
    while i < hand.len()
        invariant
            0 <= i <= hand@.len(),
            hand@.len() >= 1,
            forall|t: int| 0 <= t < hand@.len() ==> #[trigger] hand@[t] >= 1,
            i == 0 ==> past as int == hand@[0] as int - 1,
            i > 0 ==> past == hand@[i - 1],
            forall|t: int| 0 <= t < i - 1 ==> #[trigger] hand@[t + 1] as int == hand@[t] as int + 1,
        decreases hand@.len() - i,
    {
        let card = hand[i];
        if past == card - 1 {
            past = card;
        } else {
            proof {
                let t = i - 1;
                assert(hand@[t + 1] as int != hand@[t] as int + 1);
            }
            return false;
        }
        i = i + 1;
    }
    true
}

/// Counts the cards of the hand of each rank; the entry 0 stays unused.
fn tally_ranks(hand: &Vec<Card>) -> (counts: Vec<u8>)
    requires
        all_wf(hand@),
        hand@.len() == HAND_SIZE,
    ensures
        counts@.len() == 14,
        forall|r: int| 0 <= r < 14 ==> #[trigger] counts@[r] as int == hand_ranks(hand@).count(r),
{
    let mut counts: Vec<u8> = Vec::new();
    while counts.len() < 14
        invariant
            counts@.len() <= 14,
            forall|r: int| 0 <= r < counts@.len() ==> #[trigger] counts@[r] == 0,
        decreases 14 - counts@.len(),
    {
        counts.push(0);
    }
    let mut i: usize = 0;
    proof {
        broadcast use group_to_multiset_ensures, group_multiset_axioms;
        assert(rank_seq(hand@.subrange(0, 0)) =~= Seq::<int>::empty());
        assert(rank_seq(hand@.subrange(0, 0)).to_multiset() =~= Multiset::empty());
    }
    while i < HAND_SIZE
        invariant
            0 <= i <= 5,
            hand@.len() == 5,
            all_wf(hand@),
            counts@.len() == 14,
            forall|r: int| 0 <= r < 14 ==> #[trigger] counts@[r] as int
                == rank_seq(hand@.subrange(0, i as int)).to_multiset().count(r),
            forall|r: int| 0 <= r < 14 ==> #[trigger] counts@[r] <= i,
        decreases 5 - i,
    {
        let rank = hand[i].rank as usize;
        let v = counts[rank];
        counts[rank] = v + 1;
        proof {
            broadcast use group_to_multiset_ensures, group_multiset_axioms;
            let before = rank_seq(hand@.subrange(0, i as int));
            assert(hand@[i as int].wf());
            assert(rank_seq(hand@.subrange(0, i + 1)) =~= before.push(rank as int));
            assert(rank_seq(hand@.subrange(0, i + 1)).to_multiset() =~= before.to_multiset().insert(rank as int));
        }
        i = i + 1;
    }
    assert(hand@.subrange(0, 5) =~= hand@);
    counts
}

/// Counts the cards of the hand of each suit.
fn tally_suits(hand: &Vec<Card>) -> (counts: Vec<u8>)
    requires
        all_wf(hand@),
        hand@.len() == HAND_SIZE,
    ensures
        counts@.len() == 4,
        forall|s: int| 0 <= s < 4 ==> #[trigger] counts@[s] as int == hand_suits(hand@).count(s),
{
    let mut counts: Vec<u8> = Vec::new();
    while counts.len() < 4
        invariant
            counts@.len() <= 4,
            forall|s: int| 0 <= s < counts@.len() ==> #[trigger] counts@[s] == 0,
        decreases 4 - counts@.len(),
    {
        counts.push(0);
    }
    let mut i: usize = 0;
    proof {
        broadcast use group_to_multiset_ensures, group_multiset_axioms;
        assert(suit_seq(hand@.subrange(0, 0)) =~= Seq::<int>::empty());
        assert(suit_seq(hand@.subrange(0, 0)).to_multiset() =~= Multiset::empty());
    }
    while i < HAND_SIZE
        invariant
            0 <= i <= 5,
            hand@.len() == 5,
            all_wf(hand@),
            counts@.len() == 4,
            forall|s: int| 0 <= s < 4 ==> #[trigger] counts@[s] as int
                == suit_seq(hand@.subrange(0, i as int)).to_multiset().count(s),
            forall|s: int| 0 <= s < 4 ==> #[trigger] counts@[s] <= i,
        decreases 5 - i,
    {
        let suit = ((hand[i].value - 1) / 13) as usize;
        let v = counts[suit];
        counts[suit] = v + 1;
        proof {
            broadcast use group_to_multiset_ensures, group_multiset_axioms;
            let before = suit_seq(hand@.subrange(0, i as int));
            assert(hand@[i as int].wf());
            assert(suit_seq(hand@.subrange(0, i + 1)) =~= before.push(suit as int));
            assert(suit_seq(hand@.subrange(0, i + 1)).to_multiset() =~= before.to_multiset().insert(suit as int));
        }
        i = i + 1;
    }
    assert(hand@.subrange(0, 5) =~= hand@);
    counts
}

/// How many ranks occur exactly `k` times, given the count of each rank.
fn count_ranks_with(counts: &Vec<u8>, k: u8, Ghost(m): Ghost<Multiset<int>>) -> (c: u8)
    requires
        counts@.len() == 14,
        forall|r: int| 0 <= r < 14 ==> #[trigger] counts@[r] as int == m.count(r),
    ensures
        c as nat == ranks_with_count(m, k as nat, 13),
{
    let mut c: u8 = 0;
    let mut r: usize = 1;
    while r <= 13
        invariant
            1 <= r <= 14,
            counts@.len() == 14,
            forall|q: int| 0 <= q < 14 ==> #[trigger] counts@[q] as int == m.count(q),
            c as nat == ranks_with_count(m, k as nat, r - 1),
            c < r,
        decreases 14 - r,
    {
        if counts[r] == k {
            c = c + 1;
        }
        r = r + 1;
    }
    c
}

/// The ranks that occur, in ascending order, given the count of each rank.
fn present_ranks(counts: &Vec<u8>, Ghost(m): Ghost<Multiset<int>>) -> (keys: Vec<u8>)
    requires
        counts@.len() == 14,
        forall|r: int| 0 <= r < 14 ==> #[trigger] counts@[r] as int == m.count(r),
    ensures
        keys@ == ranks_present(m, 13),
{
    let mut keys: Vec<u8> = Vec::new();
    let mut r: usize = 1;
    while r <= 13
        invariant
            1 <= r <= 14,
            counts@.len() == 14,
            forall|q: int| 0 <= q < 14 ==> #[trigger] counts@[q] as int == m.count(q),
            keys@ == ranks_present(m, r - 1),
        decreases 14 - r,
    {
        if counts[r] > 0 {
            keys.push(r as u8);
        }
        r = r + 1;
    }
    keys
}

/// How many suits occur, given the count of each suit.
fn count_suits(counts: &Vec<u8>, Ghost(m): Ghost<Multiset<int>>) -> (c: u8)
    requires
        counts@.len() == 4,
        forall|s: int| 0 <= s < 4 ==> #[trigger] counts@[s] as int == m.count(s),
    ensures
        c as nat == suits_present(m, 4),
{
    let mut c: u8 = 0;
    let mut s: usize = 0;
    while s < 4
        invariant
            0 <= s <= 4,
            counts@.len() == 4,
            forall|q: int| 0 <= q < 4 ==> #[trigger] counts@[q] as int == m.count(q),
            c as nat == suits_present(m, s as int),
            c <= s,
        decreases 4 - s,
    {
        if counts[s] > 0 {
            c = c + 1;
        }
        s = s + 1;
    }
    c
}

/// The ranks present among `1..=n` lie in `1..=n`.
proof fn lemma_ranks_present_bounds(m: Multiset<int>, n: int)
    requires
        n <= 13,
    ensures
        forall|i: int| 0 <= i < ranks_present(m, n).len()
            ==> 1 <= #[trigger] ranks_present(m, n)[i] <= n,
    decreases n,
{
    if n > 0 {
        lemma_ranks_present_bounds(m, n - 1);
        let p = ranks_present(m, n - 1);
        if m.count(n) > 0 {
            assert(ranks_present(m, n) == p.push(n as u8));
            assert forall|i: int| 0 <= i < p.len() + 1 implies 1 <= #[trigger] p.push(n as u8)[i] <= n by {
                if i < p.len() {
                    assert(p.push(n as u8)[i] == p[i]);
                }
            }
        }
    }
}

/// The score of a hand of five cards, as `hand_score` defines it.
pub fn check_hand(hand: &Vec<Card>) -> (score: i32)
    requires
        hand@.len() == HAND_SIZE,
        all_wf(hand@),
    ensures
        score as int == hand_score(hand@),
{
    let ranks = tally_ranks(hand);
    let suits = tally_suits(hand);
    let ghost m = hand_ranks(hand@);

    // Four of a kind
    if count_ranks_with(&ranks, 4, Ghost(m)) > 0 {
        return 20;
    }
    // Full house: with four of a kind excluded, two ranks split three and two
    let keys = present_ranks(&ranks, Ghost(m));
    if keys.len() == 2 {
        return 18;
    }
    let flush_found = count_suits(&suits, Ghost(hand_suits(hand@))) == 1;

    let mut low = false;
    let mut high = false;
    if keys.len() == 5 {
        proof {
            lemma_ranks_present_bounds(m, 13);
        }
        low = straight(keys.as_slice());
        // Without a straight, an Ace may still close one as the rank above the King
        if !low && keys[0] == 1 {
            let mut aces_high: Vec<u8> = Vec::new();
            let mut i: usize = 1;
            while i < 5
                invariant
                    1 <= i <= 5,
                    keys@.len() == 5,
                    aces_high@ == keys@.subrange(1, i as int),
                decreases 5 - i,
            {
                aces_high.push(keys[i]);
                i = i + 1;
            }
            aces_high.push(14);
            assert(aces_high@ =~= keys@.drop_first().push(14));
            high = straight(aces_high.as_slice());
        }
    }

    if flush_found && low {
        return 30;
    }
    if flush_found && high {
        return 40;
    }
    if flush_found {
        return 15;
    }
    if low || high {
        return 10;
    }
    if count_ranks_with(&ranks, 3, Ghost(m)) > 0 {
        return 5;
    }
    let pairs = count_ranks_with(&ranks, 2, Ghost(m));
    if pairs == 2 {
        3
    } else if pairs == 1 {
        1
    } else {
        0
    }
}

/// Hands that hold the same cards in some order map to the same values in
/// some order.
proof fn lemma_map_same_multiset(a: Seq<Card>, b: Seq<Card>, f: spec_fn(Card) -> int)
    requires
        a.to_multiset() == b.to_multiset(),
    ensures
        a.map_values(f).to_multiset() == b.map_values(f).to_multiset(),
    decreases a.len(),
{
    broadcast use group_to_multiset_ensures, group_multiset_axioms;
    if a.len() == 0 {
        assert(a.to_multiset().len() == 0);
        assert(b.to_multiset().len() == b.len());
        assert(a.map_values(f) =~= b.map_values(f));
    } else {
        let x = a.last();
        assert(a.to_multiset().count(x) > 0);
        assert(b.contains(x));
        let i = b.index_of(x);
        let a1 = a.drop_last();
        let b1 = b.remove(i);
        assert(a.remove(a.len() - 1) =~= a1);
        assert(a1.to_multiset() == a.to_multiset().remove(x));
        assert(b1.to_multiset() == b.to_multiset().remove(x));
        lemma_map_same_multiset(a1, b1, f);
        assert(a.map_values(f) =~= a1.map_values(f).push(f(x)));
        assert(b.map_values(f).remove(i) =~= b1.map_values(f));
        assert(b.map_values(f)[i] == f(x));
        assert(b1.map_values(f).to_multiset() == b.map_values(f).to_multiset().remove(f(x)));
        assert(b.map_values(f).to_multiset().count(f(x)) > 0);
        assert(a.map_values(f).to_multiset() =~= b.map_values(f).to_multiset());
    }
}

/// The score of a hand does not depend on the order of its cards: two hands
/// that hold the same cards, each as often, score the same.
pub proof fn lemma_score_permutation(a: Seq<Card>, b: Seq<Card>)
    requires
        a.to_multiset() == b.to_multiset(),
    ensures
        hand_score(a) == hand_score(b),
{
    lemma_map_same_multiset(a, b, |c: Card| rank_of(c.value as int));
    lemma_map_same_multiset(a, b, |c: Card| suit_of(c.value as int));
    assert(hand_ranks(a) == hand_ranks(b));
    assert(hand_suits(a) == hand_suits(b));
}

} // verus!
