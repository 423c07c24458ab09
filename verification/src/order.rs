//! The order in which the cards of a hand are written: by suit, then by rank.

use crate::card::Card;
use vstd::prelude::*;
use vstd::relations::{sorted_by, total_ordering};
use vstd::seq_lib::lemma_sorted_unique;

verus! {

/// Whether `a` may stand before `b` in a sorted hand.
pub open spec fn card_le(a: Card, b: Card) -> bool {
    a.suit < b.suit || (a.suit == b.suit && a.rank <= b.rank)
}

/// [`card_le`] as a relation.
pub open spec fn card_order() -> spec_fn(Card, Card) -> bool {
    |a: Card, b: Card| card_le(a, b)
}

/// Whether the cards stand in order.
pub open spec fn is_sorted(cards: Seq<Card>) -> bool {
    forall|i: int, j: int|
        0 <= i < j < cards.len() ==> card_le(#[trigger] cards[i], #[trigger] cards[j])
}

/// The cards in order.
pub open spec fn sorted_cards(cards: Seq<Card>) -> Seq<Card> {
    cards.sort_by(card_order())
}

/// A hand as it is written down. With streets told apart and more than two
/// cards, the two hole cards are put in order and, after them, the board;
/// otherwise the whole hand is put in order.
pub open spec fn sort_hand(cards: Seq<Card>, streets: bool) -> Seq<Card> {
    if streets && cards.len() > 2 {
        sorted_cards(cards.take(2)) + sorted_cards(cards.skip(2))
    } else {
        sorted_cards(cards)
    }
}

/// Whether a hand stands as [`sort_hand`] would write it.
pub open spec fn sorted_correctly_hand(cards: Seq<Card>, streets: bool) -> bool {
    if streets {
        &&& cards.len() >= 2 ==> card_le(cards[0], cards[1])
        &&& cards.len() > 2 ==> is_sorted(cards.skip(2))
    } else {
        is_sorted(cards)
    }
}

/// The order of cards is total.
pub proof fn lemma_card_order_total()
    ensures
        total_ordering(card_order()),
{
    let leq = card_order();
    assert forall|x: Card, y: Card| #[trigger] leq(x, y) && #[trigger] leq(y, x) implies x == y by {
        assert(card_le(x, y) && card_le(y, x));
    }
    assert forall|x: Card, y: Card, z: Card| #[trigger] leq(x, y) && #[trigger] leq(y, z) implies leq(
        x,
        z,
    ) by {
        assert(card_le(x, y) && card_le(y, z));
    }
    assert forall|x: Card, y: Card| #[trigger] leq(x, y) || #[trigger] leq(y, x) by {
        assert(card_le(x, y) || card_le(y, x));
    }
    assert forall|x: Card| #[trigger] leq(x, x) by {
        assert(card_le(x, x));
    }
}

/// [`is_sorted`] is being sorted by the order of cards.
pub proof fn lemma_is_sorted(cards: Seq<Card>)
    ensures
        is_sorted(cards) == sorted_by(cards, card_order()),
{
    let leq = card_order();
    if is_sorted(cards) {
        assert forall|i: int, j: int| 0 <= i < j < cards.len() implies #[trigger] leq(
            cards[i],
            cards[j],
        ) by {
            assert(card_le(cards[i], cards[j]));
        }
    }
    if sorted_by(cards, leq) {
        assert forall|i: int, j: int| 0 <= i < j < cards.len() implies card_le(
            #[trigger] cards[i],
            #[trigger] cards[j],
        ) by {
            assert(leq(cards[i], cards[j]));
        }
    }
}

/// Sorting puts the cards in order and keeps each card as often as it was there.
pub proof fn lemma_sorted_cards(cards: Seq<Card>)
    ensures
        is_sorted(sorted_cards(cards)),
        sorted_cards(cards).to_multiset() == cards.to_multiset(),
        sorted_cards(cards).len() == cards.len(),
        forall|c: Card| sorted_cards(cards).contains(c) <==> cards.contains(c),
{
    broadcast use vstd::seq_lib::group_to_multiset_ensures;

    lemma_card_order_total();
    cards.lemma_sort_by_ensures(card_order());
    lemma_is_sorted(sorted_cards(cards));
    vstd::seq_lib::to_multiset_len(cards);
    vstd::seq_lib::to_multiset_len(sorted_cards(cards));
    assert forall|c: Card| sorted_cards(cards).contains(c) <==> cards.contains(c) by {
        assert(sorted_cards(cards).to_multiset().count(c) == cards.to_multiset().count(c));
    }
}

/// Two sorted hands with the same cards, each as often, are the same hand.
pub proof fn lemma_sorted_same_cards(a: Seq<Card>, b: Seq<Card>)
    requires
        is_sorted(a),
        is_sorted(b),
        a.to_multiset() == b.to_multiset(),
    ensures
        a == b,
{
    lemma_card_order_total();
    lemma_is_sorted(a);
    lemma_is_sorted(b);
    lemma_sorted_unique(a, b, card_order());
}

/// Sorting leaves a sorted hand as it is.
pub proof fn lemma_sorted_cards_fixed(cards: Seq<Card>)
    requires
        is_sorted(cards),
    ensures
        sorted_cards(cards) == cards,
{
    lemma_sorted_cards(cards);
    lemma_sorted_same_cards(sorted_cards(cards), cards);
}

/// Hands with the same cards, each as often, sort to the same hand.
pub proof fn lemma_sorted_cards_of_same_cards(a: Seq<Card>, b: Seq<Card>)
    requires
        a.to_multiset() == b.to_multiset(),
    ensures
        sorted_cards(a) == sorted_cards(b),
{
    lemma_sorted_cards(a);
    lemma_sorted_cards(b);
    lemma_sorted_same_cards(sorted_cards(a), sorted_cards(b));
}

/// [`sort_hand`] writes a hand as [`sorted_correctly_hand`] asks, keeps its
/// length and keeps each card as often as it was there.
pub proof fn lemma_sort_hand(cards: Seq<Card>, streets: bool)
    ensures
        sorted_correctly_hand(sort_hand(cards, streets), streets),
        sort_hand(cards, streets).len() == cards.len(),
        sort_hand(cards, streets).to_multiset() == cards.to_multiset(),
        forall|c: Card| sort_hand(cards, streets).contains(c) <==> cards.contains(c),
{
    broadcast use vstd::seq_lib::group_to_multiset_ensures;

    let out = sort_hand(cards, streets);
    if streets && cards.len() > 2 {
        let hole = sorted_cards(cards.take(2));
        let board = sorted_cards(cards.skip(2));
        lemma_sorted_cards(cards.take(2));
        lemma_sorted_cards(cards.skip(2));
        assert(out.skip(2) =~= board);
        assert(out[0] == hole[0] && out[1] == hole[1]);
        vstd::seq_lib::lemma_multiset_commutative(hole, board);
        vstd::seq_lib::lemma_multiset_commutative(cards.take(2), cards.skip(2));
        assert(cards.take(2) + cards.skip(2) =~= cards);
    } else {
        lemma_sorted_cards(cards);
        if streets {
            if cards.len() > 2 {
            } else if cards.len() == 2 {
                assert(card_le(out[0], out[1]));
            }
        }
    }
    assert forall|c: Card| out.contains(c) <==> cards.contains(c) by {
        assert(out.to_multiset().count(c) == cards.to_multiset().count(c));
    }
}

/// [`sort_hand`] leaves a hand as it is exactly if the hand stands as
/// [`sorted_correctly_hand`] asks.
pub proof fn lemma_sort_hand_fixed(cards: Seq<Card>, streets: bool)
    ensures
        sorted_correctly_hand(cards, streets) <==> sort_hand(cards, streets) == cards,
{
    lemma_sort_hand(cards, streets);
    if sorted_correctly_hand(cards, streets) {
        if streets && cards.len() > 2 {
            let hole = cards.take(2);
            let board = cards.skip(2);
            assert(is_sorted(hole)) by {
                assert(hole[0] == cards[0] && hole[1] == cards[1]);
            }
            lemma_sorted_cards_fixed(hole);
            lemma_sorted_cards_fixed(board);
            assert(hole + board =~= cards);
        } else {
            assert(is_sorted(cards)) by {
                if streets && cards.len() == 2 {
                    assert(card_le(cards[0], cards[1]));
                }
            }
            lemma_sorted_cards_fixed(cards);
        }
    }
}

/// Whether `card1` must stand after `card2` in a sorted hand.
pub fn suit_first_greater_than(card1: &Card, card2: &Card) -> (greater: bool)
    ensures
        greater == !card_le(*card1, *card2),
{
    if card1.suit < card2.suit {
        return false;
    }
    if card1.suit == card2.suit && card1.rank <= card2.rank {
        return false;
    }
    true
}

/// The cards from `from` up to `to`, in order.
fn sort_range(cards: &[Card], from: usize, to: usize) -> (sorted: Vec<Card>)
    requires
        from <= to <= cards@.len(),
    ensures
        sorted@ == sorted_cards(cards@.subrange(from as int, to as int)),
{
    broadcast use vstd::seq_lib::group_to_multiset_ensures;

    let ghost input = cards@.subrange(from as int, to as int);
    let mut sorted: Vec<Card> = Vec::new();
    let mut k: usize = from;
    proof {
        assert(input.take(0) =~= Seq::<Card>::empty());
    }
    while k < to
        invariant
            from <= k <= to <= cards@.len(),
            input == cards@.subrange(from as int, to as int),
            is_sorted(sorted@),
            sorted@.len() == k - from,
            sorted@.to_multiset() == input.take(k - from).to_multiset(),
        decreases to - k,
    {
        let card = cards[k];
        let mut at: usize = 0;
        while at < sorted.len() && !suit_first_greater_than(&sorted[at], &card)
            invariant
                at <= sorted@.len(),
                forall|j: int| 0 <= j < at ==> card_le(#[trigger] sorted@[j], card),
            decreases sorted@.len() - at,
        {
            at = at + 1;
        }
        proof {
            let before = sorted@;
            let after = before.insert(at as int, card);
            assert forall|i: int, j: int| 0 <= i < j < after.len() implies card_le(
                #[trigger] after[i],
                #[trigger] after[j],
            ) by {
                if j == at {
                    assert(after[i] == before[i]);
                } else if i == at {
                    assert(after[j] == before[j - 1]);
                    assert(!card_le(before[at as int], card));
                    if j - 1 > at {
                        assert(card_le(before[at as int], before[j - 1]));
                    }
                } else {
                    let bi = if i < at { i } else { i - 1 };
                    let bj = if j < at { j } else { j - 1 };
                    assert(after[i] == before[bi] && after[j] == before[bj]);
                    assert(card_le(before[bi], before[bj]));
                }
            }
            assert(input.take(k - from + 1) =~= input.take(k - from).push(card));
            vstd::seq_lib::to_multiset_insert(before, at as int, card);
            vstd::seq_lib::to_multiset_build(input.take(k - from), card);
            assert(after.to_multiset() =~= input.take(k - from + 1).to_multiset());
        }
        sorted.insert(at, card);
        k = k + 1;
    }
    proof {
        assert(input.take(to - from) =~= input);
        lemma_sorted_cards(input);
        lemma_sorted_same_cards(sorted@, sorted_cards(input));
    }
    sorted
}

/// Writes a hand in order: the hole cards and the board each for themselves
/// where streets are told apart, the whole hand otherwise.
pub fn sort_canonical(cards: &[Card], streets: bool) -> (sorted: Vec<Card>)
    ensures
        sorted@ == sort_hand(cards@, streets),
{
    if streets && cards.len() > 2 {
        let mut sorted = sort_range(cards, 0, 2);
        let mut board = sort_range(cards, 2, cards.len());
        sorted.append(&mut board);
        proof {
            assert(cards@.subrange(0, 2) =~= cards@.take(2));
            assert(cards@.subrange(2, cards@.len() as int) =~= cards@.skip(2));
        }
        sorted
    } else {
        proof {
            assert(cards@.subrange(0, cards@.len() as int) =~= cards@);
        }
        sort_range(cards, 0, cards.len())
    }
}

} // verus!
