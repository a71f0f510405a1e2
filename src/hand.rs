use vstd::prelude::*;

use crate::card::Card;

verus! {

/// Ranks never decrease from one card to the next.
pub open spec fn rank_sorted(s: Seq<Card>) -> bool {
    forall|i: int, j: int| 0 <= i < j < s.len() ==> s[i].rank <= s[j].rank
}

/// Where `c` goes in `s` so that it follows every card of equal rank: the
/// first position whose card has a higher rank, or the end.
pub open spec fn insert_pos(s: Seq<Card>, c: Card) -> int
    decreases s.len(),
{
    if s.len() == 0 {
        0
    } else if s[0].rank > c.rank {
        0
    } else {
        1 + insert_pos(s.drop_first(), c)
    }
}

/// The stable sort of `s` by ascending rank: each card in turn is placed
/// after every earlier card of equal rank.
pub open spec fn sorted_by_rank(s: Seq<Card>) -> Seq<Card>
    decreases s.len(),
{
    if s.len() == 0 {
        s
    } else {
        let t = sorted_by_rank(s.drop_last());
        t.insert(insert_pos(t, s.last()), s.last())
    }
}

proof fn lemma_insert_pos(s: Seq<Card>, c: Card)
    ensures
        0 <= insert_pos(s, c) <= s.len(),
        forall|j: int| 0 <= j < insert_pos(s, c) ==> s[j].rank <= c.rank,
        insert_pos(s, c) < s.len() ==> s[insert_pos(s, c)].rank > c.rank,
    decreases s.len(),
{
    if s.len() > 0 && s[0].rank <= c.rank {
        let t = s.drop_first();
        lemma_insert_pos(t, c);
        assert forall|j: int| 0 < j < s.len() implies s[j] == t[j - 1] by {}
    }
}

proof fn lemma_insert_keeps_sorted(t: Seq<Card>, c: Card)
    requires
        rank_sorted(t),
    ensures
        rank_sorted(t.insert(insert_pos(t, c), c)),
{
    lemma_insert_pos(t, c);
    let k = insert_pos(t, c);
    let r = t.insert(k, c);
    assert forall|i: int, j: int| 0 <= i < j < r.len() implies r[i].rank <= r[j].rank by {
        if j < k {
            assert(r[i] == t[i] && r[j] == t[j]);
        } else if j == k {
            assert(r[i] == t[i]);
        } else if i < k {
            assert(r[i] == t[i] && r[j] == t[j - 1]);
        } else if i == k {
            assert(r[j] == t[j - 1]);
        } else {
            assert(r[i] == t[i - 1] && r[j] == t[j - 1]);
        }
    }
}

/// Sorting by rank gives a non-decreasing sequence of ranks holding the same
/// cards, each as many times as before.
pub proof fn lemma_sort_by_rank(s: Seq<Card>)
    ensures
        sorted_by_rank(s).len() == s.len(),
        sorted_by_rank(s).to_multiset() == s.to_multiset(),
        rank_sorted(sorted_by_rank(s)),
    decreases s.len(),
{
    if s.len() > 0 {
        let t = sorted_by_rank(s.drop_last());
        let c = s.last();
        lemma_sort_by_rank(s.drop_last());
        lemma_insert_pos(t, c);
        let k = insert_pos(t, c);
        lemma_insert_keeps_sorted(t, c);
        assert(s =~= s.drop_last().push(c));
        vstd::seq_lib::to_multiset_build(s.drop_last(), c);
        vstd::seq_lib::to_multiset_insert(t, k, c);
        vstd::seq_lib::to_multiset_len(t);
    }
}

/// Sorts the hand by ascending rank, keeping cards of equal rank in their
/// current order.
pub fn sort_by_rank(hand: &mut Vec<Card>)
    ensures
        final(hand)@ == sorted_by_rank(old(hand)@),
        final(hand)@.len() == old(hand)@.len(),
        final(hand)@.to_multiset() == old(hand)@.to_multiset(),
        rank_sorted(final(hand)@),
{
    let ghost h0 = hand@;
    let mut out: Vec<Card> = Vec::new();
    let mut i: usize = 0;
    while i < hand.len()
        invariant
            hand@ == h0,
            i <= h0.len(),
            out@ == sorted_by_rank(h0.take(i as int)),
        decreases h0.len() - i,
    {
        let c = hand[i];
        proof {
            lemma_sort_by_rank(h0.take(i as int));
        }
        let mut k: usize = 0;
        while k < out.len() && out[k].rank <= c.rank
            invariant
                k <= out@.len(),
                forall|j: int| 0 <= j < k ==> out@[j].rank <= c.rank,
            decreases out@.len() - k,
        {
            k = k + 1;
        }
        proof {
            lemma_insert_pos(out@, c);
            let p = insert_pos(out@, c);
            if (k as int) < p {
                assert(out@[k as int].rank <= c.rank);
            } else if p < k {
                assert(out@[p].rank <= c.rank);
            }
            assert(h0.take(i + 1).drop_last() =~= h0.take(i as int));
        }
        out.insert(k, c);
        i = i + 1;
    }
    proof {
        assert(h0.take(i as int) =~= h0);
        lemma_sort_by_rank(h0);
    }
    *hand = out;
}

/// A 1-based position that names a card of a hand of `len` cards.
pub open spec fn valid_position(pos: usize, len: int) -> bool {
    1 <= pos <= len
}

/// One replacement request on hand `h` and deck `d`: a valid position takes
/// the deck's last card, which leaves the deck; an out-of-range position, or
/// an empty deck, changes nothing.
pub open spec fn replace_step(h: Seq<Card>, d: Seq<Card>, pos: usize) -> (Seq<Card>, Seq<Card>) {
    if valid_position(pos, h.len() as int) && d.len() > 0 {
        (h.update(pos - 1, d.last()), d.drop_last())
    } else {
        (h, d)
    }
}

/// Hand and deck after the requests `pos` are carried out one after another,
/// in order.
pub open spec fn apply_replacements(h: Seq<Card>, d: Seq<Card>, pos: Seq<usize>) -> (Seq<Card>, Seq<Card>)
    decreases pos.len(),
{
    if pos.len() == 0 {
        (h, d)
    } else {
        let p = apply_replacements(h, d, pos.drop_last());
        replace_step(p.0, p.1, pos.last())
    }
}

/// The requests of `pos` that name no card of a hand of `len` cards, in
/// order.
pub open spec fn rejected_positions(pos: Seq<usize>, len: int) -> Seq<usize>
    decreases pos.len(),
{
    if pos.len() == 0 {
        Seq::empty()
    } else {
        let r = rejected_positions(pos.drop_last(), len);
        if valid_position(pos.last(), len) {
            r
        } else {
            r.push(pos.last())
        }
    }
}

/// Replaces the cards at the 1-based `positions` of the hand, in order, each
/// with a card popped from the end of the deck; a position is left as it is
/// once the deck is empty. Positions outside the hand are skipped, take no
/// card, and are returned so that the caller can report them. The hand is
/// not re-sorted.
pub fn swap_in_cards(hand: &mut Vec<Card>, deck: &mut Vec<Card>, positions: &[usize]) -> (rejected:
    Vec<usize>)
    ensures
        (final(hand)@, final(deck)@) == apply_replacements(old(hand)@, old(deck)@, positions@),
        rejected@ == rejected_positions(positions@, old(hand)@.len() as int),
{
    let ghost h0 = hand@;
    let ghost d0 = deck@;
    let mut rejected: Vec<usize> = Vec::new();
    let mut i: usize = 0;
    while i < positions.len()
        invariant
            i <= positions@.len(),
            hand@.len() == h0.len(),
            (hand@, deck@) == apply_replacements(h0, d0, positions@.take(i as int)),
            rejected@ == rejected_positions(positions@.take(i as int), h0.len() as int),
        decreases positions@.len() - i,
    {
        let pos = positions[i];
        proof {
            assert(positions@.take(i + 1).drop_last() =~= positions@.take(i as int));
        }
        if 1 <= pos && pos <= hand.len() {
            if let Some(c) = deck.pop() {
                hand.set(pos - 1, c);
            }
        } else {
            rejected.push(pos);
        }
        i = i + 1;
    }
    proof {
        assert(positions@.take(i as int) =~= positions@);
    }
    rejected
}

/// Carries out the replacement requests as `swap_in_cards` does, then sorts
/// the hand by rank. Returns the requests that were skipped because they
/// name no card of the hand.
pub fn replace_cards(hand: &mut Vec<Card>, deck: &mut Vec<Card>, indices: &[usize]) -> (rejected:
    Vec<usize>)
    ensures
        final(hand)@ == sorted_by_rank(apply_replacements(old(hand)@, old(deck)@, indices@).0),
        final(deck)@ == apply_replacements(old(hand)@, old(deck)@, indices@).1,
        rejected@ == rejected_positions(indices@, old(hand)@.len() as int),
        rank_sorted(final(hand)@),
        final(hand)@.len() == old(hand)@.len(),
{
    let rejected = swap_in_cards(hand, deck, indices);
    proof {
        lemma_replacements_keep_length(old(hand)@, old(deck)@, indices@);
    }
    sort_by_rank(hand);
    rejected
}

proof fn lemma_replacements_keep_length(h: Seq<Card>, d: Seq<Card>, pos: Seq<usize>)
    ensures
        apply_replacements(h, d, pos).0.len() == h.len(),
    decreases pos.len(),
{
    if pos.len() > 0 {
        lemma_replacements_keep_length(h, d, pos.drop_last());
    }
}

/// What replacement does to a hand, position by position. The hand keeps its
/// length, and the deck only loses cards from its end, at most one per
/// request. A card whose 1-based position is not requested stays exactly as
/// it was, so an out-of-range request changes nothing. When the deck holds at
/// least one card per request, every requested position holds a card that
/// came from the deck; if no card of the hand is in the deck, that card
/// differs from the one it replaced.
pub proof fn lemma_replacement_positions(h: Seq<Card>, d: Seq<Card>, pos: Seq<usize>)
    requires
        h.len() <= usize::MAX,
    ensures
        apply_replacements(h, d, pos).0.len() == h.len(),
        apply_replacements(h, d, pos).1.len() <= d.len(),
        apply_replacements(h, d, pos).1 == d.take(apply_replacements(h, d, pos).1.len() as int),
        apply_replacements(h, d, pos).1.len() + pos.len() >= d.len(),
        forall|p: int|
            0 <= p < h.len() && !pos.contains((p + 1) as usize) ==> #[trigger] apply_replacements(
                h,
                d,
                pos,
            ).0[p] == h[p],
        pos.len() <= d.len() ==> forall|p: int|
            0 <= p < h.len() && pos.contains((p + 1) as usize) ==> d.contains(
                #[trigger] apply_replacements(h, d, pos).0[p],
            ),
        pos.len() <= d.len() && (forall|a: int, b: int|
            0 <= a < h.len() && 0 <= b < d.len() ==> h[a] != d[b]) ==> forall|p: int|
            0 <= p < h.len() && pos.contains((p + 1) as usize) ==> #[trigger] apply_replacements(
                h,
                d,
                pos,
            ).0[p] != h[p],
    decreases pos.len(),
{
    if pos.len() > 0 {
        let prev = pos.drop_last();
        let last = pos.last();
        lemma_replacement_positions(h, d, prev);
        let (h1, d1) = apply_replacements(h, d, prev);
        let (h2, d2) = apply_replacements(h, d, pos);
        assert forall|p: int| 0 <= p < h.len() implies (#[trigger] pos.contains((p + 1) as usize) <==> (
        prev.contains((p + 1) as usize) || last == (p + 1) as usize)) by {
            if pos.contains((p + 1) as usize) {
                let w = choose|w: int| 0 <= w < pos.len() && pos[w] == (p + 1) as usize;
                if w < prev.len() {
                    assert(prev[w] == pos[w]);
                }
            }
            if prev.contains((p + 1) as usize) {
                let w = choose|w: int| 0 <= w < prev.len() && prev[w] == (p + 1) as usize;
                assert(pos[w] == prev[w]);
            }
            if last == (p + 1) as usize {
                assert(pos[pos.len() - 1] == last);
            }
        }
        if valid_position(last, h1.len() as int) && d1.len() > 0 {
            assert(d2 =~= d.take(d2.len() as int));
            assert(d1.last() == d[d1.len() - 1]);
            assert(d.contains(d1.last()));
        }
    }
}

/// Replacement moves cards from the deck into the hand and drops the cards
/// it replaces: when hand and deck together hold no card twice, they still
/// hold no card twice afterwards.
pub proof fn lemma_replacement_keeps_cards_unique(h: Seq<Card>, d: Seq<Card>, pos: Seq<usize>)
    requires
        (h + d).no_duplicates(),
    ensures
        (apply_replacements(h, d, pos).0 + apply_replacements(h, d, pos).1).no_duplicates(),
    decreases pos.len(),
{
    if pos.len() > 0 {
        lemma_replacement_keeps_cards_unique(h, d, pos.drop_last());
        lemma_replacements_keep_length(h, d, pos.drop_last());
        let (h1, d1) = apply_replacements(h, d, pos.drop_last());
        let last = pos.last();
        if valid_position(last, h1.len() as int) && d1.len() > 0 {
            let q = last - 1;
            let before = h1 + d1;
            let after = h1.update(q, d1.last()) + d1.drop_last();
            let n = h1.len() as int;
            let top = n + d1.len() - 1;
            assert forall|i: int, j: int|
                0 <= i < after.len() && 0 <= j < after.len() && i != j implies after[i]
                != after[j] by {
                let fi = if i == q {
                    top
                } else {
                    i
                };
                let fj = if j == q {
                    top
                } else {
                    j
                };
                assert(after[i] == before[fi]);
                assert(after[j] == before[fj]);
            }
        }
    }
}

} // verus!
